//! JSON string literals, written and read through `serde_json`.
use vstd::prelude::*;

verus! {

/// Lower-case hexadecimal digit for a value below sixteen.
pub open spec fn hex_lower(d: u32) -> char {
    if d < 10 {
        (d + 48) as char
    } else {
        (d + 87) as char
    }
}

/// How one character stands inside a JSON string literal: the quote, the
/// backslash and the control characters below U+0020 are escaped (with the
/// short escapes where JSON has one, else `\u00` and two lower-case hex
/// digits); every other character stands for itself.
pub open spec fn json_escape_char(c: char) -> Seq<char> {
    let n = c as u32;
    if c == '"' {
        seq!['\\', '"']
    } else if c == '\\' {
        seq!['\\', '\\']
    } else if n == 8 {
        seq!['\\', 'b']
    } else if n == 9 {
        seq!['\\', 't']
    } else if n == 10 {
        seq!['\\', 'n']
    } else if n == 12 {
        seq!['\\', 'f']
    } else if n == 13 {
        seq!['\\', 'r']
    } else if n < 32 {
        seq!['\\', 'u', '0', '0', hex_lower(n / 16), hex_lower(n % 16)]
    } else {
        seq![c]
    }
}

/// The escaped characters of a string, in order.
pub open spec fn json_escaped(s: Seq<char>) -> Seq<char>
    decreases s.len(),
{
    if s.len() == 0 {
        Seq::empty()
    } else {
        json_escape_char(s[0]) + json_escaped(s.drop_first())
    }
}

/// The JSON string literal of a string: its escaped characters in quotes.
pub open spec fn json_text(s: Seq<char>) -> Seq<char> {
    seq!['"'] + json_escaped(s) + seq!['"']
}

/// What `serde_json::from_str::<String>` reads from a text: `None` where the
/// text is not one JSON string literal.
pub uninterp spec fn json_text_read(s: Seq<char>) -> Option<Seq<char>>;

/// Calls `serde_json::to_string` on a string. Its source writes the string in
/// quotes, escaping `"`, `\` and each byte below 0x20 (with `\b`, `\t`, `\n`,
/// `\f`, `\r` where they apply, else `\u00` and two lower-case hex digits) and
/// copying every other byte; writing into memory does not fail.
#[verifier::external_body]
pub(crate) fn json_write_text(s: &String) -> (r: String)
    ensures
        r@ == json_text(s@),
{
    match serde_json::to_string(s) {
        Ok(t) => t,
        Err(_) => String::new(),
    }
}

/// Calls `serde_json::from_str::<String>`; the error becomes its message. Its
/// result is named by `json_text_read`. As its source shows, a literal
/// written as `json_text` describes reads back as the string it was written
/// from: the parser undoes each of those escapes and takes other characters
/// at or above U+0020 as they are. The error message is not described here.
#[verifier::external_body]
pub(crate) fn json_read_text(s: &str) -> (r: Result<String, String>)
    ensures
        r is Ok <==> json_text_read(s@) is Some,
        r matches Ok(t) ==> json_text_read(s@) == Some(t@),
        r matches Ok(x) ==> forall|t: Seq<char>| s@ == json_text(t) ==> x@ == t,
        r is Ok || forall|t: Seq<char>| s@ != json_text(t),
{
    match serde_json::from_str::<String>(s) {
        Ok(t) => Ok(t),
        Err(e) => Err(e.to_string()),
    }
}

} // verus!
