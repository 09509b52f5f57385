//! Percent-encoding of path segments, through the `urlencoding` crate.
use vstd::prelude::*;
use vstd::utf8::{decode_utf8, encode_scalar, encode_utf8, valid_utf8};

verus! {

/// Bytes that percent-encoding leaves as they are: ASCII alphanumerics and
/// `-`, `.`, `_`, `~`.
pub open spec fn is_unreserved(b: u8) -> bool {
    (48 <= b && b <= 57) || (65 <= b && b <= 90) || (97 <= b && b <= 122) || b == 45 || b == 46
        || b == 95 || b == 126
}

/// Upper-case hexadecimal digit for a value below sixteen.
pub open spec fn hex_upper(d: u8) -> char {
    if d < 10 {
        (d + 48) as char
    } else {
        (d + 55) as char
    }
}

/// The escape of one byte.
pub open spec fn encode_byte(b: u8) -> Seq<char> {
    if is_unreserved(b) {
        seq![b as char]
    } else {
        seq!['%', hex_upper(b / 16), hex_upper(b % 16)]
    }
}

/// Percent-encoding of a byte string.
pub open spec fn url_encode_bytes(b: Seq<u8>) -> Seq<char>
    decreases b.len(),
{
    if b.len() == 0 {
        Seq::empty()
    } else {
        encode_byte(b[0]) + url_encode_bytes(b.drop_first())
    }
}

/// Percent-encoding of the UTF-8 form of a string.
pub open spec fn url_encoded(s: Seq<char>) -> Seq<char> {
    url_encode_bytes(encode_utf8(s))
}

/// The value of an ASCII hexadecimal digit (either case).
pub open spec fn hex_value(b: u8) -> Option<u8> {
    if 48 <= b <= 57 {
        Some((b - 48) as u8)
    } else if 65 <= b <= 70 {
        Some((b - 55) as u8)
    } else if 97 <= b <= 102 {
        Some((b - 87) as u8)
    } else {
        None
    }
}

/// Percent-decoding of bytes: `%` and two hex digits stand for the byte
/// they spell; every other byte, a `%` not followed by two hex digits
/// included, stands for itself.
pub open spec fn percent_decode(b: Seq<u8>) -> Seq<u8>
    decreases b.len(),
{
    if b.len() == 0 {
        Seq::empty()
    } else if b[0] == 37 && b.len() >= 3 && hex_value(b[1]) is Some && hex_value(b[2]) is Some {
        seq![(hex_value(b[1])->0 * 16 + hex_value(b[2])->0) as u8] + percent_decode(b.skip(3))
    } else {
        seq![b[0]] + percent_decode(b.drop_first())
    }
}

/// What decoding a percent-encoded string gives: the percent-decoded bytes
/// of its UTF-8 form read as UTF-8, or `None` where they are not UTF-8.
pub open spec fn url_decoded(s: Seq<char>) -> Option<Seq<char>> {
    let d = percent_decode(encode_utf8(s));
    if valid_utf8(d) {
        Some(decode_utf8(d))
    } else {
        None
    }
}

/// Calls `urlencoding::encode`, which percent-encodes every byte of the UTF-8
/// form of `s` except ASCII alphanumerics and `-`, `.`, `_`, `~`, writing
/// escapes with upper-case hexadecimal digits.
#[verifier::external_body]
pub(crate) fn url_encode(s: &str) -> (r: String)
    ensures
        r@ == url_encoded(s@),
{
    urlencoding::encode(s).into_owned()
}

/// Calls `urlencoding::decode`, which (its source shows) percent-decodes
/// the bytes of `s` leniently as `percent_decode` says, returning the text
/// unchanged when it holds no `%`, and then reads the bytes as UTF-8,
/// failing where they are not.
#[verifier::external_body]
pub(crate) fn url_decode(s: &str) -> (r: Option<String>)
    ensures
        r is None <==> url_decoded(s@) is None,
        r matches Some(t) ==> url_decoded(s@) == Some(t@),
{
    match urlencoding::decode(s) {
        Ok(c) => Some(c.into_owned()),
        Err(_) => None,
    }
}

/// The bytes of ASCII characters.
pub open spec fn ascii_bytes(cs: Seq<char>) -> Seq<u8> {
    cs.map_values(|c: char| (c as u32) as u8)
}

/// A character below 128 is one byte; any other takes bytes of 128 and up.
proof fn lemma_scalar_bytes(c: char)
    ensures
        (c as u32) < 128 ==> encode_scalar(c as u32) == seq![(c as u32) as u8],
        (c as u32) >= 128 ==> forall|i: int| 0 <= i < encode_scalar(c as u32).len() ==> #[trigger] encode_scalar(c as u32)[i] >= 128,
{
    let v = c as u32;
    assert(v <= 0x7F ==> (v & 0x7F) as u8 == v as u8) by (bit_vector);
    assert(0xC0u8 | ((v >> 6) & 0x1F) as u8 >= 128) by (bit_vector);
    assert(0xE0u8 | ((v >> 12) & 0x0F) as u8 >= 128) by (bit_vector);
    assert(0xF0u8 | ((v >> 18) & 0x7) as u8 >= 128) by (bit_vector);
    assert(0x80u8 | (v & 0x3F) as u8 >= 128) by (bit_vector);
    assert(0x80u8 | ((v >> 6) & 0x3F) as u8 >= 128) by (bit_vector);
    assert(0x80u8 | ((v >> 12) & 0x3F) as u8 >= 128) by (bit_vector);
}

/// Text without `%` has no `%` byte in its UTF-8 form.
proof fn lemma_no_percent_byte(s: Seq<char>)
    requires
        !s.contains('%'),
    ensures
        !encode_utf8(s).contains(37u8),
    decreases s.len(),
{
    if s.len() > 0 {
        assert(s[0] != '%');
        assert(!s.drop_first().contains('%')) by {
            if s.drop_first().contains('%') {
                let i = choose|i: int| 0 <= i < s.drop_first().len() && s.drop_first()[i] == '%';
                assert(s[i + 1] == '%');
            }
        }
        lemma_no_percent_byte(s.drop_first());
        lemma_scalar_bytes(s[0]);
        let h = encode_scalar(s[0] as u32);
        let t = encode_utf8(s.drop_first());
        assert(encode_utf8(s) == h + t);
        assert forall|i: int| 0 <= i < (h + t).len() implies (h + t)[i] != 37u8 by {
            if i < h.len() {
                assert((h + t)[i] == h[i]);
                if (s[0] as u32) < 128 {
                    assert(h[i] == (s[0] as u32) as u8);
                    if (s[0] as u32) == 37 {
                        vstd::utf8::char_u32_cast(s[0], 37u32);
                        assert((37u32 as char) == '%');
                    }
                }
            } else {
                assert((h + t)[i] == t[i - h.len()]);
            }
        }
    }
}

/// Bytes without `%` decode to themselves.
proof fn lemma_percent_decode_plain(b: Seq<u8>)
    requires
        !b.contains(37u8),
    ensures
        percent_decode(b) == b,
    decreases b.len(),
{
    if b.len() > 0 {
        assert(b[0] != 37u8);
        assert(!b.drop_first().contains(37u8)) by {
            if b.drop_first().contains(37u8) {
                let i = choose|i: int| 0 <= i < b.drop_first().len() && b.drop_first()[i] == 37u8;
                assert(b[i + 1] == 37u8);
            }
        }
        lemma_percent_decode_plain(b.drop_first());
        assert(seq![b[0]] + b.drop_first() =~= b);
    }
}

/// Text without `%` decodes to itself.
pub proof fn lemma_plain_decodes(s: Seq<char>)
    requires
        !s.contains('%'),
    ensures
        url_decoded(s) == Some(s),
{
    lemma_no_percent_byte(s);
    lemma_percent_decode_plain(encode_utf8(s));
    vstd::utf8::encode_utf8_valid_utf8(s);
    vstd::utf8::encode_utf8_decode_utf8(s);
}

/// The UTF-8 form of ASCII characters is their bytes.
proof fn lemma_ascii_utf8(cs: Seq<char>)
    requires
        forall|i: int| 0 <= i < cs.len() ==> (cs[i] as u32) < 128,
    ensures
        encode_utf8(cs) == ascii_bytes(cs),
    decreases cs.len(),
{
    if cs.len() > 0 {
        lemma_ascii_utf8(cs.drop_first());
        lemma_scalar_bytes(cs[0]);
        assert(encode_utf8(cs) == encode_scalar(cs[0] as u32) + encode_utf8(cs.drop_first()));
        assert(ascii_bytes(cs.drop_first()) =~= ascii_bytes(cs).drop_first());
        assert(encode_utf8(cs) =~= ascii_bytes(cs));
    }
}

/// Upper-case hex digits read back as their value.
proof fn lemma_hex_digit(d: u8)
    requires
        d < 16,
    ensures
        hex_value((hex_upper(d) as u32) as u8) == Some(d),
        (hex_upper(d) as u32) < 128,
        (hex_upper(d) as u32) as u8 != 37u8,
{
}

/// The escapes of bytes are ASCII and percent-decode back to the bytes.
proof fn lemma_encoded_bytes_decode(b: Seq<u8>)
    ensures
        forall|i: int| 0 <= i < url_encode_bytes(b).len() ==> (url_encode_bytes(b)[i] as u32) < 128,
        percent_decode(ascii_bytes(url_encode_bytes(b))) == b,
    decreases b.len(),
{
    if b.len() == 0 {
        assert(ascii_bytes(url_encode_bytes(b)) =~= Seq::<u8>::empty());
    } else {
        let x = b[0];
        let e = encode_byte(x);
        let rest = url_encode_bytes(b.drop_first());
        lemma_encoded_bytes_decode(b.drop_first());
        assert(url_encode_bytes(b) == e + rest);
        let eb = ascii_bytes(e);
        let rb = ascii_bytes(rest);
        assert(ascii_bytes(e + rest) =~= eb + rb);
        if is_unreserved(x) {
            assert((x as char) as u32 == x as u32);
            assert(eb =~= seq![x]);
            assert(x != 37u8);
            assert((eb + rb)[0] == x);
            assert((eb + rb).drop_first() =~= rb);
            assert(seq![x] + b.drop_first() =~= b);
        } else {
            lemma_hex_digit(x / 16);
            lemma_hex_digit(x % 16);
            assert(eb =~= seq![37u8, (hex_upper(x / 16) as u32) as u8, (hex_upper(x % 16) as u32) as u8]);
            let all = eb + rb;
            assert(all[0] == 37u8);
            assert(all[1] == (hex_upper(x / 16) as u32) as u8);
            assert(all[2] == (hex_upper(x % 16) as u32) as u8);
            assert(all.skip(3) =~= rb);
            assert(((x / 16) * 16 + x % 16) as u8 == x);
            assert(seq![x] + b.drop_first() =~= b);
        }
        assert forall|i: int| 0 <= i < url_encode_bytes(b).len() implies (url_encode_bytes(b)[i] as u32) < 128 by {
            if i < e.len() {
                assert(url_encode_bytes(b)[i] == e[i]);
                if !is_unreserved(x) {
                    lemma_hex_digit(x / 16);
                    lemma_hex_digit(x % 16);
                }
            } else {
                assert(url_encode_bytes(b)[i] == rest[i - e.len()]);
            }
        }
    }
}

/// The percent-encoding of a string decodes back to the string.
pub proof fn lemma_encoded_decodes(t: Seq<char>)
    ensures
        url_decoded(url_encoded(t)) == Some(t),
{
    let b = encode_utf8(t);
    lemma_encoded_bytes_decode(b);
    lemma_ascii_utf8(url_encode_bytes(b));
    vstd::utf8::encode_utf8_valid_utf8(t);
    vstd::utf8::encode_utf8_decode_utf8(t);
}

/// No escape contains a slash.
pub proof fn lemma_encoded_bytes_no_slash(b: Seq<u8>)
    ensures
        !url_encode_bytes(b).contains('/'),
    decreases b.len(),
{
    if b.len() > 0 {
        lemma_encoded_bytes_no_slash(b.drop_first());
        let e = encode_byte(b[0]);
        let rest = url_encode_bytes(b.drop_first());
        assert(!e.contains('/')) by {
            if is_unreserved(b[0]) {
                assert(e[0] == b[0] as char);
            } else {
                assert(hex_upper(b[0] / 16) != '/');
                assert(hex_upper(b[0] % 16) != '/');
                assert forall|i: int| 0 <= i < e.len() implies e[i] != '/' by {}
            }
        }
        assert forall|i: int| 0 <= i < (e + rest).len() implies (e + rest)[i] != '/' by {
            if i < e.len() {
                assert((e + rest)[i] == e[i]);
            } else {
                assert((e + rest)[i] == rest[i - e.len()]);
            }
        }
    }
}

/// The percent-encoding of any string holds no slash.
pub proof fn lemma_encoded_no_slash(s: Seq<char>)
    ensures
        !url_encoded(s).contains('/'),
{
    lemma_encoded_bytes_no_slash(encode_utf8(s));
}

} // verus!
