//! Request paths: a list of segments written as `/seg/seg/...`, each segment
//! percent-encoded, and read back by splitting at `/` and decoding.
use vstd::prelude::*;
use vstd::string::StringExecFns;
use crate::text::{
    chars_of, dec_text, int_error_message, law_decimal_roundtrip, lemma_parse_in_bounds,
    parse_int, parse_u64, parse_usize, string_from_chars,
};
use crate::shared::{Identity, MessageClientId};
use crate::stamp::{stamp_display, stamp_parse, stamp_valid, Stamp};
use crate::urlenc::{
    lemma_encoded_decodes, lemma_encoded_no_slash, lemma_plain_decodes, url_decode, url_decoded, url_encode, url_encoded,
};

verus! {

pub open spec fn strings_view(v: Seq<String>) -> Seq<Seq<char>> {
    v.map_values(|s: String| s@)
}

/// The text of a path made of `segs`.
pub open spec fn path_text(segs: Seq<Seq<char>>) -> Seq<char>
    decreases segs.len(),
{
    if segs.len() == 0 {
        Seq::empty()
    } else {
        path_text(segs.drop_last()) + seq!['/'] + url_encoded(segs.last())
    }
}

/// The pieces of `s` between occurrences of `c`, as `str::split` yields them.
pub open spec fn split_on(s: Seq<char>, c: char) -> Seq<Seq<char>>
    decreases s.len(),
{
    if s.len() == 0 {
        seq![Seq::empty()]
    } else {
        let r = split_on(s.drop_last(), c);
        if s.last() == c {
            r.push(Seq::empty())
        } else {
            r.update(r.len() - 1, r.last().push(s.last()))
        }
    }
}

/// A segment decoded, or left as it is where it holds no `%` or decoding
/// fails.
pub open spec fn decode_or_raw(seg: Seq<char>) -> Seq<char> {
    if !seg.contains('%') {
        seg
    } else {
        match url_decoded(seg) {
            Some(t) => t,
            None => seg,
        }
    }
}

/// Each segment decoded, or kept where it does not decode.
pub open spec fn decode_all(raw: Seq<Seq<char>>) -> Seq<Seq<char>> {
    raw.map_values(|seg: Seq<char>| decode_or_raw(seg))
}

/// The segments that reading `path` yields.
pub open spec fn path_segments_of(path: Seq<char>) -> Seq<Seq<char>> {
    decode_all(split_on(path, '/'))
}

pub proof fn lemma_split_nonempty(s: Seq<char>, c: char)
    ensures
        split_on(s, c).len() >= 1,
    decreases s.len(),
{
    if s.len() > 0 {
        lemma_split_nonempty(s.drop_last(), c);
    }
}

/// Appending text without the separator extends the last piece.
pub proof fn lemma_split_append_plain(a: Seq<char>, t: Seq<char>, c: char)
    requires
        !t.contains(c),
    ensures
        split_on(a + t, c) == split_on(a, c).update(
            split_on(a, c).len() - 1,
            split_on(a, c).last() + t,
        ),
    decreases t.len(),
{
    lemma_split_nonempty(a, c);
    if t.len() == 0 {
        assert(a + t =~= a);
        assert(split_on(a, c).last() + t =~= split_on(a, c).last());
        assert(split_on(a, c).update(split_on(a, c).len() - 1, split_on(a, c).last())
            =~= split_on(a, c));
    } else {
        let t0 = t.drop_last();
        assert(!t0.contains(c)) by {
            assert forall|i: int| 0 <= i < t0.len() implies t0[i] != c by {
                assert(t0[i] == t[i]);
            }
        }
        assert(t.last() != c) by {
            assert(t[t.len() - 1] == t.last());
        }
        lemma_split_append_plain(a, t0, c);
        assert((a + t).drop_last() =~= a + t0);
        assert((a + t).last() == t.last());
        assert(split_on(a, c).last() + t =~= (split_on(a, c).last() + t0).push(t.last()));
        lemma_split_nonempty(a + t0, c);
        assert(split_on(a + t, c) =~= split_on(a, c).update(
            split_on(a, c).len() - 1,
            split_on(a, c).last() + t,
        ));
    }
}

/// Splitting the text of a path gives an empty piece, then the encoded segments.
pub proof fn lemma_split_path_text(segs: Seq<Seq<char>>)
    ensures
        split_on(path_text(segs), '/') == seq![Seq::<char>::empty()] + segs.map_values(
            |s: Seq<char>| url_encoded(s),
        ),
    decreases segs.len(),
{
    if segs.len() == 0 {
        assert(seq![Seq::<char>::empty()] + segs.map_values(|s: Seq<char>| url_encoded(s))
            =~= seq![Seq::<char>::empty()]);
    } else {
        let prev = segs.drop_last();
        lemma_split_path_text(prev);
        let a = path_text(prev) + seq!['/'];
        assert(a.drop_last() =~= path_text(prev));
        assert(a.last() == '/');
        let e = url_encoded(segs.last());
        lemma_encoded_no_slash(segs.last());
        lemma_split_append_plain(a, e, '/');
        assert(path_text(segs) =~= a + e);
        assert(Seq::<char>::empty() + e =~= e);
        assert(segs.map_values(|s: Seq<char>| url_encoded(s)) =~= prev.map_values(
            |s: Seq<char>| url_encoded(s),
        ).push(e));
        assert(split_on(path_text(segs), '/') =~= seq![Seq::<char>::empty()] + segs.map_values(
            |s: Seq<char>| url_encoded(s),
        ));
    }
}

/// Writes `segs` as a path: each segment preceded by `/` and percent-encoded.
pub fn serialize_path(segs: &Vec<String>) -> (r: String)
    ensures
        r@ == path_text(strings_view(segs@)),
{
    let mut out = String::new();
    let mut i: usize = 0;
    while i < segs.len()
        invariant
            i <= segs@.len(),
            out@ == path_text(strings_view(segs@).take(i as int)),
        decreases segs@.len() - i,
    {
        let ghost sv = strings_view(segs@);
        assert(sv.take(i + 1).drop_last() =~= sv.take(i as int));
        assert(sv.take(i + 1).last() == segs@[i as int]@);
        out.append("/");
        proof {
            reveal_strlit("/");
        }
        let e = url_encode(segs[i].as_str());
        out.append(e.as_str());
        assert(out@ =~= path_text(sv.take(i + 1)));
        i = i + 1;
    }
    assert(strings_view(segs@).take(i as int) =~= strings_view(segs@));
    out
}

/// Segments of a request path, read from the front.
pub struct PathSegments {
    segs: Vec<String>,
    next: usize,
}

impl View for PathSegments {
    type V = Seq<Seq<char>>;

    closed spec fn view(&self) -> Seq<Seq<char>> {
        strings_view(self.segs@).skip(self.next as int)
    }
}

impl PathSegments {
    #[verifier::type_invariant]
    spec fn next_in_range(self) -> bool {
        self.next <= self.segs@.len()
    }

    /// Takes the next segment, if any is left.
    pub fn next_segment(&mut self) -> (r: Option<String>)
        ensures
            old(self)@.len() == 0 ==> r is None && final(self)@ == old(self)@,
            old(self)@.len() > 0 ==> (r matches Some(s) && s@ == old(self)@[0]) && final(self)@
                == old(self)@.drop_first(),
    {
        proof {
            use_type_invariant(&*self);
        }
        if self.next < self.segs.len() {
            let s = self.segs[self.next].clone();
            proof {
                assert(strings_view(self.segs@).skip(self.next as int)[0] == self.segs@[self.next as int]@);
                assert(strings_view(self.segs@).skip(self.next as int).drop_first()
                    =~= strings_view(self.segs@).skip(self.next + 1));
            }
            self.next = self.next + 1;
            Some(s)
        } else {
            None
        }
    }
}

fn decode_segment(cur: &Vec<char>) -> (r: String)
    ensures
        r@ == decode_or_raw(cur@),
        forall|t: Seq<char>| cur@ == url_encoded(t) ==> r@ == t,
        !cur@.contains('%') ==> r@ == cur@,
{
    let s = string_from_chars(cur.as_slice());
    proof {
        if !cur@.contains('%') {
            lemma_plain_decodes(cur@);
        }
        assert forall|t: Seq<char>| cur@ == url_encoded(t) implies url_decoded(cur@) == Some(t) by {
            lemma_encoded_decodes(t);
        }
    }
    match url_decode(s.as_str()) {
        Some(t) => t,
        None => s,
    }
}

/// Splits `path` at each `/` and decodes every piece, keeping a piece as it is
/// where it does not decode; a piece without `%` is its own segment.
pub fn deserialize_path(path: &str) -> (r: PathSegments)
    ensures
        r@ == path_segments_of(path@),
        r@.len() == split_on(path@, '/').len(),
        forall|j: int|
            0 <= j < r@.len() && !(#[trigger] split_on(path@, '/')[j]).contains('%') ==> r@[j]
                == split_on(path@, '/')[j],
        forall|segs: Seq<Seq<char>>|
            path@ == path_text(segs) ==> r@ == seq![Seq::<char>::empty()] + segs,
{
    let chars = chars_of(path);
    let mut out: Vec<String> = Vec::new();
    let mut cur: Vec<char> = Vec::new();
    let ghost mut raw: Seq<Seq<char>> = Seq::empty();
    let mut i: usize = 0;
    assert(chars@.take(0) =~= Seq::<char>::empty());
    while i < chars.len()
        invariant
            i <= chars@.len(),
            split_on(chars@.take(i as int), '/') == raw.push(cur@),
            out@.len() == raw.len(),
            strings_view(out@) == decode_all(raw),
            forall|j: int, t: Seq<char>|
                0 <= j < raw.len() && raw[j] == url_encoded(t) ==> out@[j]@ == t,
            forall|j: int| 0 <= j < raw.len() && !(#[trigger] raw[j]).contains('%') ==> out@[j]@ == raw[j],
        decreases chars@.len() - i,
    {
        let ch = chars[i];
        assert(chars@.take(i + 1).drop_last() =~= chars@.take(i as int));
        assert(chars@.take(i + 1).last() == ch);
        if ch == '/' {
            let d = decode_segment(&cur);
            let ghost old_out = out@;
            let ghost old_raw = raw;
            proof {
                raw = raw.push(cur@);
            }
            out.push(d);
            assert forall|j: int| 0 <= j < raw.len() implies strings_view(out@)[j]
                == decode_all(raw)[j] by {
                if j < old_raw.len() {
                    assert(strings_view(old_out)[j] == decode_all(old_raw)[j]);
                    assert(out@[j] == old_out[j]);
                    assert(raw[j] == old_raw[j]);
                } else {
                    assert(j == old_raw.len());
                    assert(old_out.len() == old_raw.len()) by {
                        assert(strings_view(old_out).len() == old_out.len());
                    }
                    assert(out@[j] == d);
                    assert(raw[j] == cur@);
                }
            }
            assert(strings_view(out@) =~= decode_all(raw));
            cur = Vec::new();
            assert(split_on(chars@.take(i + 1), '/') =~= raw.push(cur@));
        } else {
            cur.push(ch);
            assert(split_on(chars@.take(i + 1), '/') =~= raw.push(cur@));
        }
        i = i + 1;
    }
    let d = decode_segment(&cur);
    let ghost old_out = out@;
    let ghost old_raw = raw;
    proof {
        raw = raw.push(cur@);
    }
    out.push(d);
    assert(chars@.take(i as int) =~= path@);
    assert forall|j: int| 0 <= j < raw.len() implies strings_view(out@)[j] == decode_all(raw)[j] by {
        if j < old_raw.len() {
            assert(strings_view(old_out)[j] == decode_all(old_raw)[j]);
        }
    }
    assert(strings_view(out@) =~= decode_all(raw));
    assert forall|j: int| 0 <= j < raw.len() && !(#[trigger] raw[j]).contains('%') implies out@[j]@ == raw[j] by {
        if j < old_raw.len() {
            assert(out@[j] == old_out[j]);
            assert(raw[j] == old_raw[j]);
        }
    }
    let r = PathSegments { segs: out, next: 0 };
    assert(strings_view(r.segs@).skip(0) =~= strings_view(r.segs@));
    proof {
        assert forall|segs: Seq<Seq<char>>| path@ == path_text(segs) implies r@ == seq![
            Seq::<char>::empty(),
        ] + segs by {
            lemma_split_path_text(segs);
            let enc = seq![Seq::<char>::empty()] + segs.map_values(|s: Seq<char>| url_encoded(s));
            assert(raw == enc);
            assert(url_encoded(Seq::<char>::empty()) =~= Seq::<char>::empty());
            assert forall|j: int| 0 <= j < raw.len() implies r@[j] == (seq![
                Seq::<char>::empty(),
            ] + segs)[j] by {
                if j == 0 {
                    assert(raw[0] == url_encoded(Seq::<char>::empty()));
                } else {
                    assert(raw[j] == url_encoded(segs[j - 1]));
                }
            }
            assert(r@ =~= seq![Seq::<char>::empty()] + segs);
        }
    }
    r
}


pub open spec fn missing_const_message(want: Seq<char>) -> Seq<char> {
    "Path missing segment ["@ + want + "]"@
}

pub open spec fn extra_segments_message() -> Seq<char> {
    "Unrecognized extra path segments"@
}

pub open spec fn missing_element_message(hint: Seq<char>) -> Seq<char> {
    "Path missing segment, "@ + hint
}

pub open spec fn bad_element_message(hint: Seq<char>, err: Seq<char>) -> Seq<char> {
    "Couldn't parse path segment, "@ + hint + ": "@ + err
}

/// The segments left after taking one, if there was one.
pub open spec fn after_next(segs: Seq<Seq<char>>) -> Seq<Seq<char>> {
    if segs.len() == 0 {
        segs
    } else {
        segs.drop_first()
    }
}

/// Takes the next segment and checks that it is `want`.
pub fn confirm_path_const(segs: &mut PathSegments, want: &str) -> (r: Result<(), String>)
    ensures
        final(segs)@ == after_next(old(segs)@),
        r is Ok <==> old(segs)@.len() > 0 && old(segs)@[0] == want@,
        r matches Err(e) ==> e@ == missing_const_message(want@),
{
    let next = segs.next_segment();
    let ok = match &next {
        Some(x) => *x == want.to_owned(),
        None => false,
    };
    if !ok {
        let mut m = "Path missing segment [".to_owned();
        m.append(want);
        m.append("]");
        return Err(m);
    }
    Ok(())
}

/// Checks that no segment is left, taking one if there is.
pub fn confirm_path_empty(segs: &mut PathSegments) -> (r: Result<(), String>)
    ensures
        final(segs)@ == after_next(old(segs)@),
        r is Ok <==> old(segs)@.len() == 0,
        r matches Err(e) ==> e@ == extra_segments_message(),
{
    if segs.next_segment().is_some() {
        return Err("Unrecognized extra path segments".to_owned());
    }
    Ok(())
}

/// A value that a path segment holds.
pub trait PathElement: Sized + View {
    /// What a segment reads as: the value, or the message of the failure.
    spec fn read_segment(s: Seq<char>) -> Result<Self::V, Seq<char>>;

    /// The segment written for a value.
    spec fn segment_text(v: Self::V) -> Seq<char>;

    /// Values that can be written.
    spec fn segment_valid(v: Self::V) -> bool;

    fn from_segment(s: &str) -> (r: Result<Self, String>)
        ensures
            match Self::read_segment(s@) {
                Ok(v) => r matches Ok(x) && x@ == v,
                Err(m) => r matches Err(e) && e@ == m,
            },
            forall|v: Self::V|
                Self::segment_valid(v) && s@ == Self::segment_text(v) ==> (r matches Ok(x)
                    && x@ == v),
    ;
}

/// Takes the next segment and reads a value from it.
pub fn confirm_path_element<T: PathElement>(segs: &mut PathSegments, hint: &str) -> (r: Result<
    T,
    String,
>)
    ensures
        final(segs)@ == after_next(old(segs)@),
        old(segs)@.len() == 0 ==> (r matches Err(e) && e@ == missing_element_message(hint@)),
        old(segs)@.len() > 0 ==> match T::read_segment(old(segs)@[0]) {
            Ok(v) => r matches Ok(x) && x@ == v,
            Err(m) => r matches Err(e) && e@ == bad_element_message(hint@, m),
        },
        old(segs)@.len() > 0 ==> forall|v: T::V|
            T::segment_valid(v) && old(segs)@[0] == T::segment_text(v) ==> (r matches Ok(x) && x@
                == v),
{
    let next = segs.next_segment();
    match next {
        None => {
            let mut m = "Path missing segment, ".to_owned();
            m.append(hint);
            Err(m)
        },
        Some(v) => match T::from_segment(v.as_str()) {
            Ok(x) => Ok(x),
            Err(e) => {
                let mut m = "Couldn't parse path segment, ".to_owned();
                m.append(hint);
                m.append(": ");
                m.append(e.as_str());
                Err(m)
            },
        },
    }
}

/// Reads a value that the integer parse may refuse.
pub open spec fn read_uint(s: Seq<char>, hi: int) -> Result<int, Seq<char>> {
    match parse_int(s, false, 0, hi) {
        Ok(v) => Ok(v),
        Err(k) => Err(int_error_message(k)),
    }
}

impl PathElement for u64 {
    open spec fn read_segment(s: Seq<char>) -> Result<u64, Seq<char>> {
        match read_uint(s, u64::MAX as int) {
            Ok(v) => Ok(v as u64),
            Err(m) => Err(m),
        }
    }

    open spec fn segment_text(v: u64) -> Seq<char> {
        dec_text(v as nat)
    }

    open spec fn segment_valid(v: u64) -> bool {
        true
    }

    fn from_segment(s: &str) -> (r: Result<u64, String>) {
        proof {
            assert forall|v: u64| s@ == dec_text(v as nat) implies parse_int(
                s@,
                false,
                0,
                u64::MAX as int,
            ) == Ok::<int, crate::text::IntErrorKind>(v as int) by {
                law_decimal_roundtrip(v as nat, false, 0, u64::MAX as int);
            }
        }
        match parse_u64(s) {
            Ok(v) => Ok(v),
            Err(k) => Err(k.message()),
        }
    }
}

impl PathElement for usize {
    open spec fn read_segment(s: Seq<char>) -> Result<usize, Seq<char>> {
        match read_uint(s, usize::MAX as int) {
            Ok(v) => Ok(v as usize),
            Err(m) => Err(m),
        }
    }

    open spec fn segment_text(v: usize) -> Seq<char> {
        dec_text(v as nat)
    }

    open spec fn segment_valid(v: usize) -> bool {
        true
    }

    fn from_segment(s: &str) -> (r: Result<usize, String>) {
        proof {
            assert forall|v: usize| s@ == dec_text(v as nat) implies parse_int(
                s@,
                false,
                0,
                usize::MAX as int,
            ) == Ok::<int, crate::text::IntErrorKind>(v as int) by {
                law_decimal_roundtrip(v as nat, false, 0, usize::MAX as int);
            }
        }
        match parse_usize(s) {
            Ok(v) => Ok(v),
            Err(k) => Err(k.message()),
        }
    }
}

impl PathElement for Identity {
    open spec fn read_segment(s: Seq<char>) -> Result<Seq<char>, Seq<char>> {
        Ok(s)
    }

    open spec fn segment_text(v: Seq<char>) -> Seq<char> {
        v
    }

    open spec fn segment_valid(v: Seq<char>) -> bool {
        true
    }

    fn from_segment(s: &str) -> (r: Result<Identity, String>) {
        Ok(Identity { text: s.to_owned() })
    }
}

impl PathElement for MessageClientId {
    open spec fn read_segment(s: Seq<char>) -> Result<Seq<char>, Seq<char>> {
        Ok(s)
    }

    open spec fn segment_text(v: Seq<char>) -> Seq<char> {
        v
    }

    open spec fn segment_valid(v: Seq<char>) -> bool {
        true
    }

    fn from_segment(s: &str) -> (r: Result<MessageClientId, String>) {
        Ok(MessageClientId(s.to_owned()))
    }
}

impl PathElement for Stamp {
    open spec fn read_segment(s: Seq<char>) -> Result<int, Seq<char>> {
        stamp_parse(s)
    }

    open spec fn segment_text(v: int) -> Seq<char> {
        stamp_display(v)
    }

    open spec fn segment_valid(v: int) -> bool {
        stamp_valid(v)
    }

    fn from_segment(s: &str) -> (r: Result<Stamp, String>) {
        Stamp::from_text(s)
    }
}

/// Reads the constant segments `lits`, in order, from the front of `p`.
pub open spec fn read_consts(p: Seq<Seq<char>>, lits: Seq<Seq<char>>) -> Result<
    Seq<Seq<char>>,
    Seq<char>,
>
    decreases lits.len(),
{
    if lits.len() == 0 {
        Ok(p)
    } else if p.len() == 0 || p[0] != lits[0] {
        Err(missing_const_message(lits[0]))
    } else {
        read_consts(p.drop_first(), lits.drop_first())
    }
}

/// Reads a value of `T` from the front of `p`.
pub open spec fn read_element<T: PathElement>(p: Seq<Seq<char>>, hint: Seq<char>) -> Result<
    (T::V, Seq<Seq<char>>),
    Seq<char>,
> {
    if p.len() == 0 {
        Err(missing_element_message(hint))
    } else {
        match T::read_segment(p[0]) {
            Ok(v) => Ok((v, p.drop_first())),
            Err(m) => Err(bad_element_message(hint, m)),
        }
    }
}

/// Checks that nothing is left of `p`.
pub open spec fn read_end(p: Seq<Seq<char>>) -> Result<(), Seq<char>> {
    if p.len() == 0 {
        Ok(())
    } else {
        Err(extra_segments_message())
    }
}

} // verus!
