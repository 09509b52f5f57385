//! Decimal text of integers, read and written the way the standard library's
//! `FromStr` and `Display` do it, plus small string helpers.
use vstd::prelude::*;
use vstd::string::StrSliceExecFns;

verus! {

/// Why decimal text did not name an integer of the wanted type.
#[derive(Clone, Copy, Debug, PartialEq, Eq, Structural)]
pub enum IntErrorKind {
    Empty,
    InvalidDigit,
    PosOverflow,
    NegOverflow,
}

pub open spec fn is_digit(c: char) -> bool {
    '0' <= c && c <= '9'
}

pub open spec fn digit_value(c: char) -> int {
    (c as int) - ('0' as int)
}

pub open spec fn digit_char(d: int) -> char {
    (d + ('0' as int)) as char
}

/// Folds the digits of `s` into `acc` from the left, as the standard library
/// does: the first non-digit, or the first step whose value leaves
/// `[lo, hi]`, ends the scan with the matching error.
pub open spec fn scan_digits(acc: int, s: Seq<char>, neg: bool, lo: int, hi: int) -> Result<
    int,
    IntErrorKind,
>
    decreases s.len(),
{
    if s.len() == 0 {
        Ok(acc)
    } else if !is_digit(s[0]) {
        Err(IntErrorKind::InvalidDigit)
    } else {
        let next = if neg {
            acc * 10 - digit_value(s[0])
        } else {
            acc * 10 + digit_value(s[0])
        };
        if next > hi {
            Err(IntErrorKind::PosOverflow)
        } else if next < lo {
            Err(IntErrorKind::NegOverflow)
        } else {
            scan_digits(next, s.drop_first(), neg, lo, hi)
        }
    }
}

/// The integer that `s` names in decimal, within `[lo, hi]`: an optional
/// leading `+` (or `-` when `signed`) and then at least one digit.
pub open spec fn parse_int(s: Seq<char>, signed: bool, lo: int, hi: int) -> Result<
    int,
    IntErrorKind,
> {
    if s.len() == 0 {
        Err(IntErrorKind::Empty)
    } else if (s[0] == '+' || s[0] == '-') && s.len() == 1 {
        Err(IntErrorKind::InvalidDigit)
    } else if s[0] == '+' {
        scan_digits(0, s.drop_first(), false, lo, hi)
    } else if s[0] == '-' && signed {
        scan_digits(0, s.drop_first(), true, lo, hi)
    } else {
        scan_digits(0, s, false, lo, hi)
    }
}

/// The shortest decimal text of `n`, as `Display` writes it.
pub open spec fn dec_text(n: nat) -> Seq<char>
    decreases n,
{
    if n < 10 {
        seq![digit_char(n as int)]
    } else {
        dec_text(n / 10).push(digit_char((n % 10) as int))
    }
}

/// The message that `Display` gives for each kind of failure.
pub open spec fn int_error_message(k: IntErrorKind) -> Seq<char> {
    match k {
        IntErrorKind::Empty => "cannot parse integer from empty string"@,
        IntErrorKind::InvalidDigit => "invalid digit found in string"@,
        IntErrorKind::PosOverflow => "number too large to fit in target type"@,
        IntErrorKind::NegOverflow => "number too small to fit in target type"@,
    }
}

/// A successful scan stays within the bounds it checks.
pub proof fn lemma_scan_in_bounds(acc: int, s: Seq<char>, neg: bool, lo: int, hi: int)
    requires
        lo <= acc <= hi,
    ensures
        scan_digits(acc, s, neg, lo, hi) matches Ok(v) ==> lo <= v <= hi,
    decreases s.len(),
{
    if s.len() > 0 && is_digit(s[0]) {
        let next = if neg {
            acc * 10 - digit_value(s[0])
        } else {
            acc * 10 + digit_value(s[0])
        };
        if lo <= next <= hi {
            lemma_scan_in_bounds(next, s.drop_first(), neg, lo, hi);
        }
    }
}

/// A successful parse stays within the bounds it checks.
pub proof fn lemma_parse_in_bounds(s: Seq<char>, signed: bool, lo: int, hi: int)
    requires
        lo <= 0 <= hi,
    ensures
        parse_int(s, signed, lo, hi) matches Ok(v) ==> lo <= v <= hi,
{
    if s.len() > 0 {
        lemma_scan_in_bounds(0, s.drop_first(), false, lo, hi);
        lemma_scan_in_bounds(0, s.drop_first(), true, lo, hi);
        lemma_scan_in_bounds(0, s, false, lo, hi);
    }
}

/// Scanning a concatenation scans the first part, then continues from its
/// value through the second.
pub proof fn lemma_scan_append(acc: int, a: Seq<char>, b: Seq<char>, neg: bool, lo: int, hi: int)
    ensures
        scan_digits(acc, a + b, neg, lo, hi) == match scan_digits(acc, a, neg, lo, hi) {
            Ok(v) => scan_digits(v, b, neg, lo, hi),
            Err(e) => Err(e),
        },
    decreases a.len(),
{
    if a.len() == 0 {
        assert(a + b =~= b);
    } else {
        assert((a + b)[0] == a[0]);
        assert((a + b).drop_first() =~= a.drop_first() + b);
        let next = if neg {
            acc * 10 - digit_value(a[0])
        } else {
            acc * 10 + digit_value(a[0])
        };
        lemma_scan_append(next, a.drop_first(), b, neg, lo, hi);
    }
}

/// The decimal text of `n` is a non-empty run of digits that scans back to `n`.
pub proof fn lemma_dec_text_scans(n: nat, lo: int, hi: int)
    requires
        lo <= 0,
        n <= hi,
    ensures
        dec_text(n).len() > 0,
        is_digit(dec_text(n)[0]),
        scan_digits(0, dec_text(n), false, lo, hi) == Ok::<int, IntErrorKind>(n as int),
    decreases n,
{
    if n < 10 {
        let t = dec_text(n);
        assert(digit_value(digit_char(n as int)) == n);
        assert(t.drop_first() =~= Seq::<char>::empty());
        assert(scan_digits(n as int, Seq::<char>::empty(), false, lo, hi) == Ok::<int, IntErrorKind>(n as int));
    } else {
        lemma_dec_text_scans(n / 10, lo, hi);
        let d = digit_char((n % 10) as int);
        assert(digit_value(d) == n % 10);
        assert(is_digit(d));
        assert((n / 10) * 10 + n % 10 == n);
        lemma_scan_append(0, dec_text(n / 10), seq![d], false, lo, hi);
        assert(dec_text(n) =~= dec_text(n / 10) + seq![d]);
        assert(seq![d].drop_first() =~= Seq::<char>::empty());
        assert(dec_text(n)[0] == dec_text(n / 10)[0]);
        assert(scan_digits(n as int, Seq::<char>::empty(), false, lo, hi) == Ok::<int, IntErrorKind>(n as int));
        assert(scan_digits((n / 10) as int, seq![d], false, lo, hi) == Ok::<int, IntErrorKind>(n as int));
    }
}

/// Reading back the decimal text of a number in range gives the number.
pub proof fn law_decimal_roundtrip(n: nat, signed: bool, lo: int, hi: int)
    requires
        lo <= 0,
        n <= hi,
    ensures
        parse_int(dec_text(n), signed, lo, hi) == Ok::<int, IntErrorKind>(n as int),
{
    lemma_dec_text_scans(n, lo, hi);
}

/// The characters of `s`, in order.
pub fn chars_of(s: &str) -> (v: Vec<char>)
    ensures
        v@ == s@,
{
    let n = s.unicode_len();
    let mut v: Vec<char> = Vec::new();
    let mut i: usize = 0;
    while i < n
        invariant
            i <= n,
            n == s@.len(),
            v@ == s@.take(i as int),
        decreases n - i,
    {
        v.push(s.get_char(i));
        i = i + 1;
        proof {
            assert(v@ =~= s@.take(i as int));
        }
    }
    proof {
        assert(s@.take(i as int) =~= s@);
    }
    v
}

/// The characters `v[from..to]`.
pub fn chars_range(v: &Vec<char>, from: usize, to: usize) -> (r: Vec<char>)
    requires
        from <= to <= v@.len(),
    ensures
        r@ == v@.subrange(from as int, to as int),
{
    let mut r: Vec<char> = Vec::new();
    let mut i = from;
    while i < to
        invariant
            from <= i <= to <= v@.len(),
            r@ == v@.subrange(from as int, i as int),
        decreases to - i,
    {
        r.push(v[i]);
        assert(r@ =~= v@.subrange(from as int, i + 1));
        i = i + 1;
    }
    r
}

/// Calls `String::push`, which appends one character.
#[verifier::external_body]
fn push_char(s: &mut String, c: char)
    ensures
        final(s)@ == old(s)@.push(c),
{
    s.push(c)
}

/// A string holding the characters of `v`, in order.
pub fn string_from_chars(v: &[char]) -> (s: String)
    ensures
        s@ == v@,
{
    let mut s = String::new();
    let mut i: usize = 0;
    while i < v.len()
        invariant
            i <= v@.len(),
            s@ == v@.take(i as int),
        decreases v@.len() - i,
    {
        push_char(&mut s, v[i]);
        i = i + 1;
        proof {
            assert(s@ =~= v@.take(i as int));
        }
    }
    proof {
        assert(v@.take(i as int) =~= v@);
    }
    s
}

impl IntErrorKind {
    /// The standard library's message for this failure.
    pub fn message(&self) -> (m: String)
        ensures
            m@ == int_error_message(*self),
    {
        match self {
            IntErrorKind::Empty => {
                let s = "cannot parse integer from empty string";
                proof {
                    reveal_strlit("cannot parse integer from empty string");
                }
                s.to_owned()
            },
            IntErrorKind::InvalidDigit => {
                let s = "invalid digit found in string";
                s.to_owned()
            },
            IntErrorKind::PosOverflow => {
                let s = "number too large to fit in target type";
                s.to_owned()
            },
            IntErrorKind::NegOverflow => {
                let s = "number too small to fit in target type";
                s.to_owned()
            },
        }
    }
}

fn digit_of(d: u8) -> (c: char)
    requires
        d < 10,
    ensures
        c == digit_char(d as int),
        is_digit(c),
        digit_value(c) == d,
{
    let c = (d + 48) as char;
    c
}

fn dec_chars(n: u64) -> (v: Vec<char>)
    ensures
        v@ == dec_text(n as nat),
    decreases n,
{
    if n < 10 {
        let mut v = Vec::new();
        v.push(digit_of(n as u8));
        v
    } else {
        let mut v = dec_chars(n / 10);
        v.push(digit_of((n % 10) as u8));
        v
    }
}

/// Decimal text of `n`.
pub fn u64_text(n: u64) -> (s: String)
    ensures
        s@ == dec_text(n as nat),
{
    let v = dec_chars(n);
    string_from_chars(v.as_slice())
}

/// Decimal text of `n`.
pub fn usize_text(n: usize) -> (s: String)
    ensures
        s@ == dec_text(n as nat),
{
    u64_text(n as u64)
}

/// Scans `s[start..]` as in `scan_digits`, from an accumulator of zero.
fn scan_chars(s: &Vec<char>, start: usize, neg: bool, lo: i128, hi: i128) -> (r: Result<
    i128,
    IntErrorKind,
>)
    requires
        start <= s@.len(),
        lo <= 0 <= hi,
        -0x1_0000_0000_0000_0000i128 <= lo,
        hi <= 0x1_0000_0000_0000_0000i128,
    ensures
        match scan_digits(0, s@.skip(start as int), neg, lo as int, hi as int) {
            Ok(v) => r == Ok::<i128, IntErrorKind>(v as i128),
            Err(e) => r == Err::<i128, IntErrorKind>(e),
        },
{
    let mut acc: i128 = 0;
    let mut i: usize = start;
    while i < s.len()
        invariant
            start <= i <= s@.len(),
            lo <= acc <= hi,
            lo <= 0 <= hi,
            -0x1_0000_0000_0000_0000i128 <= lo,
            hi <= 0x1_0000_0000_0000_0000i128,
            scan_digits(0, s@.skip(start as int), neg, lo as int, hi as int) == scan_digits(
                acc as int,
                s@.skip(i as int),
                neg,
                lo as int,
                hi as int,
            ),
        decreases s@.len() - i,
    {
        let c = s[i];
        assert(s@.skip(i as int)[0] == c);
        assert(s@.skip(i as int).drop_first() =~= s@.skip(i + 1));
        if !('0' <= c && c <= '9') {
            return Err(IntErrorKind::InvalidDigit);
        }
        let d = (c as u32 - 48) as i128;
        let next = if neg {
            acc * 10 - d
        } else {
            acc * 10 + d
        };
        if next > hi {
            return Err(IntErrorKind::PosOverflow);
        }
        if next < lo {
            return Err(IntErrorKind::NegOverflow);
        }
        acc = next;
        i = i + 1;
    }
    assert(s@.skip(i as int).len() == 0);
    Ok(acc)
}

fn parse_chars(s: &Vec<char>, signed: bool, lo: i128, hi: i128) -> (r: Result<i128, IntErrorKind>)
    requires
        lo <= 0 <= hi,
        -0x1_0000_0000_0000_0000i128 <= lo,
        hi <= 0x1_0000_0000_0000_0000i128,
    ensures
        match parse_int(s@, signed, lo as int, hi as int) {
            Ok(v) => r == Ok::<i128, IntErrorKind>(v as i128),
            Err(e) => r == Err::<i128, IntErrorKind>(e),
        },
{
    assert(s@.skip(0) =~= s@);
    assert(s@.len() > 0 ==> s@.skip(1) =~= s@.drop_first());
    if s.len() == 0 {
        Err(IntErrorKind::Empty)
    } else if (s[0] == '+' || s[0] == '-') && s.len() == 1 {
        Err(IntErrorKind::InvalidDigit)
    } else if s[0] == '+' {
        scan_chars(s, 1, false, lo, hi)
    } else if s[0] == '-' && signed {
        scan_chars(s, 1, true, lo, hi)
    } else {
        scan_chars(s, 0, false, lo, hi)
    }
}

/// Reads `s` as a `u64`, as `str::parse::<u64>` does.
pub fn parse_u64(s: &str) -> (r: Result<u64, IntErrorKind>)
    ensures
        match parse_int(s@, false, 0, u64::MAX as int) {
            Ok(v) => r == Ok::<u64, IntErrorKind>(v as u64),
            Err(e) => r == Err::<u64, IntErrorKind>(e),
        },
{
    let v = chars_of(s);
    proof {
        lemma_parse_in_bounds(s@, false, 0 as int, u64::MAX as int);
    }
    match parse_chars(&v, false, 0, u64::MAX as i128) {
        Ok(x) => Ok(x as u64),
        Err(e) => Err(e),
    }
}

/// Reads `s` as a `usize`, as `str::parse::<usize>` does.
pub fn parse_usize(s: &str) -> (r: Result<usize, IntErrorKind>)
    ensures
        match parse_int(s@, false, 0, usize::MAX as int) {
            Ok(v) => r == Ok::<usize, IntErrorKind>(v as usize),
            Err(e) => r == Err::<usize, IntErrorKind>(e),
        },
{
    let v = chars_of(s);
    proof {
        lemma_parse_in_bounds(s@, false, 0 as int, usize::MAX as int);
    }
    match parse_chars(&v, false, 0, usize::MAX as i128) {
        Ok(x) => Ok(x as usize),
        Err(e) => Err(e),
    }
}

/// Reads `s` as an `i64`, as `str::parse::<i64>` does.
pub fn parse_i64(s: &str) -> (r: Result<i64, IntErrorKind>)
    ensures
        match parse_int(s@, true, i64::MIN as int, i64::MAX as int) {
            Ok(v) => r == Ok::<i64, IntErrorKind>(v as i64),
            Err(e) => r == Err::<i64, IntErrorKind>(e),
        },
{
    let v = chars_of(s);
    proof {
        lemma_parse_in_bounds(s@, true, i64::MIN as int, i64::MAX as int);
    }
    match parse_chars(&v, true, i64::MIN as i128, i64::MAX as i128) {
        Ok(x) => Ok(x as i64),
        Err(e) => Err(e),
    }
}

} // verus!
