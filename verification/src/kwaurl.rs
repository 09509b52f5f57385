//! `kwa:` URLs: `kwa:` + a kind prefix + `?` + a query holding the fields.
//! The query's own encoding is form-urlencoding of the fields, done outside
//! this module; here the URL is framed and split.
use vstd::prelude::*;
use vstd::string::StringExecFns;
use crate::shared::{Identity, QualifiedChannelId, QualifiedMessageId};
use crate::text::{chars_of, chars_range, string_from_chars};

verus! {

/// The kinds of thing a `kwa:` URL can point at.
#[derive(Clone, Copy, Debug, PartialEq, Eq, Structural)]
pub enum KwaUrlKind {
    IdentityInvite,
    ChannelInvite,
    Channel,
    Message,
}

#[derive(Clone, Debug)]
pub struct KwaUrlIdentityInvite {
    pub identity: Identity,
    pub code: String,
}

#[derive(Clone, Debug)]
pub struct KwaUrlChannelInvite {
    pub channel: QualifiedChannelId,
    pub code: String,
}

/// What a `kwa:` URL points at.
pub enum KwaUrl {
    IdentityInvite(KwaUrlIdentityInvite),
    ChannelInvite(KwaUrlChannelInvite),
    Channel(QualifiedChannelId),
    Message(QualifiedMessageId),
}

impl KwaUrl {
    /// The kind of the URL, which names its prefix.
    pub fn kind(&self) -> (k: KwaUrlKind)
        ensures
            k == match *self {
                KwaUrl::IdentityInvite(_) => KwaUrlKind::IdentityInvite,
                KwaUrl::ChannelInvite(_) => KwaUrlKind::ChannelInvite,
                KwaUrl::Channel(_) => KwaUrlKind::Channel,
                KwaUrl::Message(_) => KwaUrlKind::Message,
            },
    {
        match self {
            KwaUrl::IdentityInvite(_) => KwaUrlKind::IdentityInvite,
            KwaUrl::ChannelInvite(_) => KwaUrlKind::ChannelInvite,
            KwaUrl::Channel(_) => KwaUrlKind::Channel,
            KwaUrl::Message(_) => KwaUrlKind::Message,
        }
    }
}

/// The text after `kwa:` and before `?` for each kind.
pub open spec fn kwa_prefix(k: KwaUrlKind) -> Seq<char> {
    match k {
        KwaUrlKind::IdentityInvite => "in/i"@,
        KwaUrlKind::ChannelInvite => "in/c"@,
        KwaUrlKind::Channel => "c"@,
        KwaUrlKind::Message => "m"@,
    }
}

/// The URL of a kind and query.
pub open spec fn kwa_text(k: KwaUrlKind, query: Seq<char>) -> Seq<char> {
    "kwa:"@ + kwa_prefix(k) + "?"@ + query
}

/// The first position of `c` in `s`.
pub open spec fn first_index_of(s: Seq<char>, c: char) -> Option<int> {
    if exists|i: int| 0 <= i < s.len() && s[i] == c {
        Some(choose|i: int| 0 <= i < s.len() && s[i] == c && forall|j: int| 0 <= j < i ==> s[j] != c)
    } else {
        None
    }
}

/// The kind named by a prefix.
pub open spec fn kind_of_prefix(k: Seq<char>) -> Option<KwaUrlKind> {
    if k == "in/i"@ {
        Some(KwaUrlKind::IdentityInvite)
    } else if k == "in/c"@ {
        Some(KwaUrlKind::ChannelInvite)
    } else if k == "c"@ {
        Some(KwaUrlKind::Channel)
    } else if k == "m"@ {
        Some(KwaUrlKind::Message)
    } else {
        None
    }
}

/// A URL split into its kind and query, with the text after `kwa:` (which the
/// message for a query that does not decode quotes).
pub struct KwaUrlParts {
    pub kind: KwaUrlKind,
    pub query: String,
    pub body: String,
}

/// What splitting a URL gives: kind, query and body, or the error message.
pub open spec fn read_kwa(s: Seq<char>) -> Result<(KwaUrlKind, Seq<char>, Seq<char>), Seq<char>> {
    if !(s.len() >= 4 && s.take(4) == "kwa:"@) {
        Err("["@ + s + "] is missing prefix [kwa:]"@)
    } else {
        let b = s.skip(4);
        match first_index_of(b, '?') {
            None => Err("["@ + b + "] is missing [?] and suffix"@),
            Some(i) => match kind_of_prefix(b.take(i)) {
                Some(k) => Ok((k, b.skip(i + 1), b)),
                None => Err("Unrecognized kwa url prefix ["@ + b.take(i) + "]"@),
            },
        }
    }
}

fn prefix_text(k: KwaUrlKind) -> (r: &'static str)
    ensures
        r@ == kwa_prefix(k),
{
    match k {
        KwaUrlKind::IdentityInvite => "in/i",
        KwaUrlKind::ChannelInvite => "in/c",
        KwaUrlKind::Channel => "c",
        KwaUrlKind::Message => "m",
    }
}

/// Writes the URL of a kind and its (already encoded) query.
pub fn kwa_url_frame(kind: KwaUrlKind, query: &str) -> (r: String)
    ensures
        r@ == kwa_text(kind, query@),
{
    let mut out = "kwa:".to_owned();
    out.append(prefix_text(kind));
    out.append("?");
    out.append(query);
    out
}

/// Whether `v[start..start + lit.len()]` is `lit`.
fn chars_match(v: &Vec<char>, start: usize, lit: &str) -> (r: bool)
    requires
        start <= v@.len(),
    ensures
        r == (start + lit@.len() <= v@.len() && v@.subrange(start as int, start + lit@.len())
            == lit@),
{
    let l = chars_of(lit);
    if l.len() > v.len() - start {
        return false;
    }
    let mut i: usize = 0;
    while i < l.len()
        invariant
            i <= l@.len(),
            start <= v@.len(),
            l@ == lit@,
            start + l@.len() <= v@.len(),
            start + l.len() <= v.len(),
            forall|j: int| 0 <= j < i ==> v@[start + j] == l@[j],
        decreases l@.len() - i,
    {
        if v[start + i] != l[i] {
            assert(v@.subrange(start as int, start + lit@.len())[i as int] != lit@[i as int]);
            return false;
        }
        i = i + 1;
    }
    assert(v@.subrange(start as int, start + lit@.len()) =~= lit@);
    true
}

fn kind_from_chars(k: &Vec<char>) -> (r: Option<KwaUrlKind>)
    ensures
        r == kind_of_prefix(k@),
{
    proof {
        reveal_strlit("in/i");
        reveal_strlit("in/c");
        reveal_strlit("c");
        reveal_strlit("m");
    }
    assert(k@.len() == 4 ==> k@ =~= k@.subrange(0, 4));
    assert(k@.len() == 1 ==> k@ =~= k@.subrange(0, 1));
    if k.len() == 4 && chars_match(k, 0, "in/i") {
        return Some(KwaUrlKind::IdentityInvite);
    }
    if k.len() == 4 && chars_match(k, 0, "in/c") {
        return Some(KwaUrlKind::ChannelInvite);
    }
    if k.len() == 1 && chars_match(k, 0, "c") {
        return Some(KwaUrlKind::Channel);
    }
    if k.len() == 1 && chars_match(k, 0, "m") {
        return Some(KwaUrlKind::Message);
    }
    None
}

/// Splits a URL into its kind, query and body.
pub fn kwa_url_unframe(s: &str) -> (r: Result<KwaUrlParts, String>)
    ensures
        match read_kwa(s@) {
            Ok((k, q, b)) => r matches Ok(p) && p.kind == k && p.query@ == q && p.body@ == b,
            Err(m) => r matches Err(e) && e@ == m,
        },
        forall|k: KwaUrlKind, q: Seq<char>| s@ == #[trigger] kwa_text(k, q) ==> (r matches Ok(p) && p.kind == k && p.query@ == q),
{
    proof {
        assert forall|k: KwaUrlKind, q: Seq<char>| s@ == #[trigger] kwa_text(k, q) implies (read_kwa(s@) matches Ok((k2, q2, _)) && k2 == k && q2 == q) by {
            law_kwa_url_roundtrip(k, q);
        }
    }
    let v = chars_of(s);
    proof {
        reveal_strlit("kwa:");
    }
    if !chars_match(&v, 0, "kwa:") {
        let mut m = "[".to_owned();
        m.append(s);
        m.append("] is missing prefix [kwa:]");
        return Err(m);
    }
    let body_chars = chars_range(&v, 4, v.len());
    let body = string_from_chars(body_chars.as_slice());
    let mut i: usize = 4;
    while i < v.len() && v[i] != '?'
        invariant
            4 <= i <= v@.len(),
            forall|j: int| 4 <= j < i ==> v@[j] != '?',
        decreases v@.len() - i,
    {
        i = i + 1;
    }
    let ghost b = s@.skip(4);
    assert(body@ =~= b);
    if i == v.len() {
        assert(!exists|j: int| 0 <= j < b.len() && b[j] == '?') by {
            assert forall|j: int| 0 <= j < b.len() implies b[j] != '?' by {
                assert(b[j] == v@[j + 4]);
            }
        }
        let mut m = "[".to_owned();
        m.append(body.as_str());
        m.append("] is missing [?] and suffix");
        return Err(m);
    }
    proof {
        assert(b[i - 4] == '?');
        let fi = first_index_of(b, '?');
        assert(fi == Some(i - 4)) by {
            let c = choose|x: int| 0 <= x < b.len() && b[x] == '?' && forall|j: int|
                0 <= j < x ==> b[j] != '?';
            assert(0 <= i - 4 < b.len() && b[i - 4] == '?' && forall|j: int|
                0 <= j < i - 4 ==> b[j] != '?') by {
                assert forall|j: int| 0 <= j < i - 4 implies b[j] != '?' by {
                    assert(b[j] == v@[j + 4]);
                }
            }
            if c < i - 4 {
                assert(b[c] == v@[c + 4]);
            }
            if c > i - 4 {
            }
        }
    }
    let kv = chars_range(&v, 4, i);
    let query_chars = chars_range(&v, i + 1, v.len());
    let query = string_from_chars(query_chars.as_slice());
    assert(kv@ =~= b.take(i - 4));
    assert(query@ =~= b.skip(i - 4 + 1));
    match kind_from_chars(&kv) {
        Some(kind) => Ok(KwaUrlParts { kind, query, body }),
        None => {
            let mut m = "Unrecognized kwa url prefix [".to_owned();
            let k = string_from_chars(kv.as_slice());
            m.append(k.as_str());
            m.append("]");
            Err(m)
        },
    }
}

/// In text without `?` followed by `?`, that `?` is the first one.
pub proof fn lemma_first_question(p: Seq<char>, query: Seq<char>)
    requires
        !p.contains('?'),
    ensures
        first_index_of(p + seq!['?'] + query, '?') == Some(p.len() as int),
{
    let b = p + seq!['?'] + query;
    let n = p.len() as int;
    assert(b[n] == '?');
    assert forall|j: int| 0 <= j < n implies b[j] != '?' by {
        assert(b[j] == p[j]);
    }
    let c = choose|x: int| 0 <= x < b.len() && b[x] == '?' && forall|j: int|
        0 <= j < x ==> b[j] != '?';
    assert(0 <= n < b.len() && b[n] == '?' && forall|j: int| 0 <= j < n ==> b[j] != '?');
    if c < n {
        assert(b[c] != '?');
    }
}

/// No kind prefix holds a `?`, and each names its kind.
pub proof fn lemma_prefix_of_kind(k: KwaUrlKind)
    ensures
        !kwa_prefix(k).contains('?'),
        kind_of_prefix(kwa_prefix(k)) == Some(k),
{
    reveal_strlit("in/i");
    reveal_strlit("in/c");
    reveal_strlit("c");
    reveal_strlit("m");
    let p = kwa_prefix(k);
    assert forall|j: int| 0 <= j < p.len() implies p[j] != '?' by {}
    assert("in/i"@[3] != "in/c"@[3]);
    assert("c"@[0] != "m"@[0]);
    match k {
        KwaUrlKind::IdentityInvite => {},
        KwaUrlKind::ChannelInvite => {
            assert(p != "in/i"@);
        },
        KwaUrlKind::Channel => {
            assert(p != "in/i"@ && p != "in/c"@);
        },
        KwaUrlKind::Message => {
            assert(p != "in/i"@ && p != "in/c"@ && p != "c"@);
        },
    }
}

/// Splitting the URL written for a kind and query gives back that kind and
/// query.
pub proof fn law_kwa_url_roundtrip(k: KwaUrlKind, query: Seq<char>)
    ensures
        read_kwa(kwa_text(k, query)) matches Ok((k2, q2, _)) && k2 == k && q2 == query,
{
    reveal_strlit("kwa:");
    reveal_strlit("?");
    let s = kwa_text(k, query);
    let p = kwa_prefix(k);
    assert(s =~= "kwa:"@ + (p + seq!['?'] + query));
    assert(s.take(4) =~= "kwa:"@);
    let b = s.skip(4);
    assert(b =~= p + seq!['?'] + query);
    lemma_prefix_of_kind(k);
    lemma_first_question(p, query);
    let n = p.len() as int;
    assert(b.take(n) =~= p);
    assert(b.skip(n + 1) =~= query);
}

/// Why a `kwa:` URL is not an invitation.
pub open spec fn read_invite_kind(k: KwaUrlKind) -> Result<KwaUrlKind, Seq<char>> {
    match k {
        KwaUrlKind::Channel => Err("This is a URL to a channel, not an invitation"@),
        KwaUrlKind::Message => Err("This is a URL to a message, not an invitation"@),
        _ => Ok(k),
    }
}

/// Accepts the kinds of URL that are invitations, to an identity or to a
/// channel; refuses the others with a message saying what they point at.
pub fn invite_kind(k: KwaUrlKind) -> (r: Result<KwaUrlKind, String>)
    ensures
        match read_invite_kind(k) {
            Ok(x) => r == Ok::<KwaUrlKind, String>(x),
            Err(m) => r matches Err(e) && e@ == m,
        },
{
    match k {
        KwaUrlKind::Channel => Err("This is a URL to a channel, not an invitation".to_owned()),
        KwaUrlKind::Message => Err("This is a URL to a message, not an invitation".to_owned()),
        _ => Ok(k),
    }
}

} // verus!
