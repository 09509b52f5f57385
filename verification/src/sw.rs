//! The service worker's decisions: which requests it answers from its
//! cache, what it keeps there, which caches it drops, and where a push
//! notification goes.
use vstd::prelude::*;
use crate::text::chars_of;

verus! {

/// The name of the cache the current client uses.
pub const CACHE: &'static str = "cache1";

/// Whether `s` starts with `p`.
pub open spec fn text_starts_with(s: Seq<char>, p: Seq<char>) -> bool {
    p.len() <= s.len() && s.take(p.len() as int) == p
}

/// Whether `p` occurs in `s`.
pub open spec fn text_contains(s: Seq<char>, p: Seq<char>) -> bool {
    exists|i: int| 0 <= i && i + p.len() <= s.len() && #[trigger] s.subrange(i, i + p.len()) == p
}

fn occurs_at(s: &Vec<char>, p: &Vec<char>, at: usize) -> (r: bool)
    requires
        at + p@.len() <= s@.len(),
    ensures
        r == (s@.subrange(at as int, at + p@.len()) == p@),
{
    let mut k: usize = 0;
    let n = s.len();
    while k < p.len()
        invariant
            k <= p@.len(),
            at + p@.len() <= s@.len(),
            n == s@.len(),
            forall|j: int| 0 <= j < k ==> s@[at + j] == p@[j],
        decreases p@.len() - k,
    {
        if s[at + k] != p[k] {
            proof {
                assert(s@.subrange(at as int, at + p@.len())[k as int] != p@[k as int]);
            }
            return false;
        }
        k = k + 1;
    }
    proof {
        assert(s@.subrange(at as int, at + p@.len()) =~= p@);
    }
    true
}

/// Whether `s` starts with `p`.
pub fn starts_with(s: &str, p: &str) -> (r: bool)
    ensures
        r == text_starts_with(s@, p@),
{
    let sv = chars_of(s);
    let pv = chars_of(p);
    if pv.len() > sv.len() {
        return false;
    }
    occurs_at(&sv, &pv, 0)
}

/// Whether `p` occurs in `s`.
pub fn contains(s: &str, p: &str) -> (r: bool)
    ensures
        r == text_contains(s@, p@),
{
    let sv = chars_of(s);
    let pv = chars_of(p);
    if pv.len() > sv.len() {
        return false;
    }
    let last = sv.len() - pv.len();
    let mut i: usize = 0;
    loop
        invariant
            pv@.len() <= sv@.len(),
            last == sv@.len() - pv@.len(),
            sv@ == s@,
            pv@ == p@,
            i <= last,
            forall|j: int| 0 <= j < i ==> #[trigger] sv@.subrange(j, j + pv@.len()) != pv@,
        decreases last - i,
    {
        if occurs_at(&sv, &pv, i) {
            return true;
        }
        if i == last {
            return false;
        }
        i = i + 1;
    }
}

/// What the cache holds for a request.
pub struct CachedMeta {
    /// The cached response carries an `ETag`.
    pub has_etag: bool,
    /// The cached response carries a `Cache-Control` header.
    pub has_cache_control: bool,
}

/// How the service worker answers a request.
#[derive(Clone, Copy, Debug, PartialEq, Eq, Structural)]
pub enum FetchPlan {
    /// Send the request as it is; nothing is cached.
    PassThrough,
    /// Nothing cached: send it, and cache the answer as `cache_puts` says.
    FetchAndCache,
    /// A client file cached with an `ETag`: answer from the cache at once,
    /// and ask again in the background with `If-None-Match`; a changed
    /// answer is cached and the client told to reload.
    CachedThenRevalidate,
    /// Another file cached with an `ETag`: ask again with `If-None-Match` and
    /// wait; answer with the new response when it changed, else the cached
    /// one.
    Revalidate,
    /// Cached for good (`Cache-Control`): answer from the cache.
    Cached,
}

/// The plan for a request to `url`. Requests to the page's own origin and
/// requests other than `GET` are passed through; a cached response is used
/// by its `ETag` (before its `Cache-Control`).
pub fn fetch_plan(url: &str, base_url: &str, client_prefix: &str, is_get: bool, cached: &Option<CachedMeta>) -> (r: FetchPlan)
    requires
        cached matches Some(m) ==> m.has_etag || m.has_cache_control,
    ensures
        r == if text_starts_with(url@, base_url@) || !is_get {
            FetchPlan::PassThrough
        } else {
            match *cached {
                None => FetchPlan::FetchAndCache,
                Some(m) => if m.has_etag {
                    if text_contains(url@, client_prefix@) {
                        FetchPlan::CachedThenRevalidate
                    } else {
                        FetchPlan::Revalidate
                    }
                } else {
                    FetchPlan::Cached
                },
            }
        },
{
    if starts_with(url, base_url) || !is_get {
        return FetchPlan::PassThrough;
    }
    match cached {
        None => FetchPlan::FetchAndCache,
        Some(m) => if m.has_etag {
            if contains(url, client_prefix) {
                FetchPlan::CachedThenRevalidate
            } else {
                FetchPlan::Revalidate
            }
        } else {
            FetchPlan::Cached
        },
    }
}

/// How many times a response is put in the cache: once for an `ETag`, and
/// once more when its `Cache-Control` says `immutable`.
pub fn cache_puts(has_etag: bool, cache_control: &Option<String>) -> (r: u8)
    ensures
        r == (if has_etag { 1u8 } else { 0u8 }) + (match cache_control {
            Some(d) => if text_contains(d@, "immutable"@) { 1u8 } else { 0u8 },
            None => 0u8,
        }),
{
    let mut n: u8 = 0;
    if has_etag {
        n = n + 1;
    }
    match cache_control {
        Some(d) => {
            if contains(d.as_str(), "immutable") {
                n = n + 1;
            }
        },
        None => {},
    }
    n
}

/// Whether a revalidated request brought a new response (status 200), to
/// be used in place of the cached one.
pub fn revalidated_changed(status: u16) -> (r: bool)
    ensures
        r == (status == 200),
{
    status == 200
}

/// Whether a cache is left over from another client version and is dropped.
pub fn cache_is_stale(key: &str) -> (r: bool)
    ensures
        r == (key@ != CACHE@),
{
    let a = chars_of(key);
    let b = chars_of(CACHE);
    if a.len() != b.len() {
        return true;
    }
    let same = occurs_at(&a, &b, 0);
    proof {
        assert(a@.subrange(0, b@.len() as int) =~= a@);
    }
    !same
}

/// Whether a push notification is shown by the system: only when no client
/// is visible to take it.
pub fn push_shows_notification(visible_clients: usize) -> (r: bool)
    ensures
        r == (visible_clients == 0),
{
    visible_clients == 0
}

} // verus!
