//! The decisions of the chat's three feeds: the channel feed (pages of a
//! channel's snapshot and activity log), the outbox feed (messages not yet
//! sent, kept by their stamps) and the controls entry.
use vstd::prelude::*;
use crate::chat_time::{max_time_view, time_lt, ChatTime, ChatTimeId};
use crate::stamp::{stamp_parse, Stamp, StampRead};
use crate::wire::{ActivityOffset, SnapOffset};

verus! {

/// The first entry of the page holding `entry`.
pub open spec fn page_start(page_size: int, entry: int) -> int {
    (entry / page_size) * page_size
}

/// The first entry of the page of `page_size` entries that holds `entry`.
pub fn page_for(page_size: usize, entry: usize) -> (r: usize)
    requires
        page_size > 0,
    ensures
        r == page_start(page_size as int, entry as int),
        r <= entry < r + page_size,
        r % page_size == 0,
{
    proof {
        vstd::arithmetic::div_mod::lemma_fundamental_div_mod(entry as int, page_size as int);
        vstd::arithmetic::div_mod::lemma_mod_multiples_basic(
            entry as int / page_size as int,
            page_size as int,
        );
        vstd::arithmetic::mul::lemma_mul_is_commutative(
            entry as int / page_size as int,
            page_size as int,
        );
    }
    (entry / page_size) * page_size
}

/// What the channel feed knows of a channel's activity log.
pub struct ChannelFeedState {
    /// The latest activity the server has told of.
    known_latest_server_time: Option<ActivityOffset>,
    /// The activity that the feed's messages reflect.
    have_data_time: Option<ActivityOffset>,
    snap_page_size: usize,
    activity_page_size: usize,
}

/// The channel feed's knowledge as plain values: latest known activity and
/// activity the data reflects.
pub type SeenView = (Option<int>, Option<int>);

pub open spec fn offset_view(o: Option<ActivityOffset>) -> Option<int> {
    match o {
        Some(x) => Some(x.0 as int),
        None => None,
    }
}

/// The knowledge after activity `t` is seen: the latest known activity
/// rises to `t`, the activity the data reflects falls to `t`.
pub open spec fn seen(v: SeenView, t: int) -> SeenView {
    (
        match v.0 {
            Some(k) => if t > k { Some(t) } else { Some(k) },
            None => Some(t),
        },
        match v.1 {
            Some(h) => if t < h { Some(t) } else { Some(h) },
            None => Some(t),
        },
    )
}

/// Seeing activity never lowers the latest known activity nor raises the
/// activity the data reflects, and seeing the same activity again changes
/// nothing.
pub proof fn law_seen_monotone(v: SeenView, t: int)
    ensures
        seen(v, t).0 matches Some(k) && k >= t && (v.0 matches Some(k0) ==> k >= k0),
        seen(v, t).1 matches Some(h) && h <= t && (v.1 matches Some(h0) ==> h <= h0),
        seen(seen(v, t), t) == seen(v, t),
{
}

impl ChannelFeedState {
    /// Both are known or neither is.
    #[verifier::type_invariant]
    spec fn both_or_neither(self) -> bool {
        self.known_latest_server_time is Some <==> self.have_data_time is Some
    }

    /// Entries per snapshot page.
    pub closed spec fn snap_size(self) -> int {
        self.snap_page_size as int
    }

    /// Entries per activity page.
    pub closed spec fn activity_size(self) -> int {
        self.activity_page_size as int
    }

    pub closed spec fn seen_view(self) -> SeenView {
        (offset_view(self.known_latest_server_time), offset_view(self.have_data_time))
    }

    /// A feed that has seen nothing, with pages of 50 entries.
    pub fn new() -> (r: ChannelFeedState)
        ensures
            r.seen_view() == (None::<int>, None::<int>),
            r.snap_size() == 50,
            r.activity_size() == 50,
    {
        ChannelFeedState {
            known_latest_server_time: None,
            have_data_time: None,
            snap_page_size: 50,
            activity_page_size: 50,
        }
    }

    /// Records activity `new_data_time` (pushed or read with a page) and
    /// says whether the activity log must be pulled: whether the latest
    /// known activity now differs from what the data reflects.
    pub fn update_seen_time(&mut self, new_data_time: ActivityOffset) -> (pull: bool)
        ensures
            final(self).seen_view() == seen(old(self).seen_view(), new_data_time.0 as int),
            pull == (final(self).seen_view().0 != final(self).seen_view().1),
            final(self).snap_size() == old(self).snap_size(),
            final(self).activity_size() == old(self).activity_size(),
    {
        let known = match self.known_latest_server_time {
            Some(k) => if new_data_time.0 > k.0 { new_data_time } else { k },
            None => new_data_time,
        };
        let have = match self.have_data_time {
            Some(h) => if new_data_time.0 < h.0 { new_data_time } else { h },
            None => new_data_time,
        };
        *self = ChannelFeedState {
            known_latest_server_time: Some(known),
            have_data_time: Some(have),
            snap_page_size: self.snap_page_size,
            activity_page_size: self.activity_page_size,
        };
        known.0 != have.0
    }

    /// The next step of pulling the activity log: the offset of the page to
    /// read, or nothing when the data is current (then the latest known
    /// activity becomes what the data reflects).
    pub fn next_activity_page(&mut self) -> (r: Option<ActivityOffset>)
        requires
            old(self).activity_size() > 0,
        ensures
            match old(self).seen_view() {
                (Some(k), Some(h)) => if h >= k {
                    r is None && final(self).seen_view() == (Some(h), Some(h))
                } else {
                    r matches Some(o) && o.0 == page_start(
                        old(self).activity_size() as int,
                        h + 1,
                    ) && final(self).seen_view() == old(self).seen_view()
                },
                _ => r is None && final(self).seen_view() == old(self).seen_view(),
            },
            final(self).snap_size() == old(self).snap_size(),
            final(self).activity_size() == old(self).activity_size(),
    {
        proof {
            use_type_invariant(&*self);
        }
        let have = match self.have_data_time {
            Some(h) => h,
            None => {
                return None;
            },
        };
        let known = match self.known_latest_server_time {
            Some(k) => k,
            None => {
                return None;
            },
        };
        if have.0 >= known.0 {
            self.known_latest_server_time = Some(have);
            return None;
        }
        Some(ActivityOffset(page_for(self.activity_page_size, have.0 + 1)))
    }

    /// Takes in a page of the activity log that starts at `page_offset`;
    /// `decoded[i]` tells whether its `i`-th message could be read. The data
    /// now reflects the activity of the last message read, or the page's
    /// start when none could be.
    pub fn activity_page_received(&mut self, page_offset: ActivityOffset, decoded: &Vec<bool>)
        requires
            old(self).seen_view().1 is Some,
            page_offset.0 + decoded@.len() <= usize::MAX,
        ensures
            final(self).seen_view() == (
                old(self).seen_view().0,
                Some(page_offset.0 + last_read(decoded@)),
            ),
            final(self).seen_view().1 matches Some(h) && {
                &&& forall|i: int| 0 <= i < decoded@.len() && #[trigger] decoded@[i] ==> page_offset.0 + i <= h
                &&& (exists|i: int| 0 <= i < decoded@.len() && #[trigger] decoded@[i]) ==> page_offset.0 <= h
                    < page_offset.0 + decoded@.len() && decoded@[h - page_offset.0]
                &&& (forall|i: int| 0 <= i < decoded@.len() ==> !#[trigger] decoded@[i]) ==> h == page_offset.0
            },
            final(self).snap_size() == old(self).snap_size(),
            final(self).activity_size() == old(self).activity_size(),
    {
        proof {
            use_type_invariant(&*self);
        }
        let mut server_time = page_offset.0;
        let mut i: usize = 0;
        while i < decoded.len()
            invariant
                i <= decoded@.len(),
                page_offset.0 + decoded@.len() <= usize::MAX,
                server_time == page_offset.0 + last_read(decoded@.take(i as int)),
            decreases decoded@.len() - i,
        {
            proof {
                assert(decoded@.take(i + 1).drop_last() =~= decoded@.take(i as int));
            }
            if decoded[i] {
                server_time = page_offset.0 + i;
            }
            i = i + 1;
        }
        proof {
            assert(decoded@.take(i as int) =~= decoded@);
            law_last_read(decoded@);
        }
        self.have_data_time = Some(ActivityOffset(server_time));
    }

    /// The page of the snapshot to read for entries before the entry at
    /// `time`: none when that entry is the first (the feed then answers that
    /// there is nothing before), else the page holding the previous entry.
    pub fn before_page(&self, time: &ChatTime) -> (r: Option<SnapOffset>)
        requires
            self.snap_size() > 0,
            time.id is Channel,
        ensures
            ({
                let o = time.id->Channel_0.0 as int;
                if o == 0 {
                    r is None
                } else {
                    r matches Some(p) && p.0 == page_start(self.snap_size() as int, o - 1)
                }
            }),
    {
        match time.id {
            ChatTimeId::Channel(o) => {
                if o.0 == 0 {
                    None
                } else {
                    Some(SnapOffset(page_for(self.snap_page_size, o.0 - 1)))
                }
            },
            _ => None,
        }
    }

    /// The page of the snapshot to read for entries after the entry at `time`.
    pub fn after_page(&self, time: &ChatTime) -> (r: SnapOffset)
        requires
            self.snap_size() > 0,
            time.id is Channel,
            time.id->Channel_0.0 < usize::MAX,
        ensures
            r.0 == page_start(self.snap_size() as int, time.id->Channel_0.0 + 1),
    {
        match time.id {
            ChatTimeId::Channel(o) => SnapOffset(page_for(self.snap_page_size, o.0 + 1)),
            _ => SnapOffset(0),
        }
    }
}

/// Which entries of a snapshot page answer a request for entries before
/// `pivot`: the indices of the page's entries earlier than `pivot`, from the
/// last to the first (latest first, for a page in time order).
pub fn before_pivot(times: &Vec<ChatTime>, pivot: &ChatTime) -> (r: Vec<usize>)
    ensures
        forall|k: int| 0 <= k < r@.len() ==> r@[k] < times@.len() && time_lt(times@[r@[k] as int]@, pivot@),
        forall|a: int, b: int| 0 <= a < b < r@.len() ==> r@[a] > r@[b],
        forall|i: int| 0 <= i < times@.len() && time_lt((#[trigger] times@[i])@, pivot@) ==> exists|k: int|
            0 <= k < r@.len() && r@[k] == i,
{
    let mut r: Vec<usize> = Vec::new();
    let mut k: usize = times.len();
    while k > 0
        invariant
            k <= times@.len(),
            forall|j: int| 0 <= j < r@.len() ==> k <= r@[j] < times@.len() && time_lt(times@[r@[j] as int]@, pivot@),
            forall|a: int, b: int| 0 <= a < b < r@.len() ==> r@[a] > r@[b],
            forall|i: int| k <= i < times@.len() && time_lt((#[trigger] times@[i])@, pivot@) ==> exists|j: int|
                0 <= j < r@.len() && r@[j] == i,
        decreases k,
    {
        k = k - 1;
        if times[k].before(pivot) {
            let ghost r0 = r@;
            r.push(k);
            proof {
                assert forall|i: int| k <= i < times@.len() && time_lt((#[trigger] times@[i])@, pivot@) implies exists|j: int|
                    0 <= j < r@.len() && r@[j] == i by {
                    if i == k {
                        assert(r@[r0.len() as int] == i);
                    } else {
                        let j = choose|j: int| 0 <= j < r0.len() && r0[j] == i;
                        assert(r@[j] == i);
                    }
                }
            }
        }
    }
    r
}

/// The channel feed's answer to a request for entries before `pivot`, from
/// the snapshot page read at `page_offset` (see `before_page`): the page's
/// entries earlier than `pivot`, latest first (see `before_pivot`), and the
/// stop mark, set exactly when the page starts the channel, so that nothing
/// comes before it.
pub fn before_answer(page_offset: SnapOffset, times: &Vec<ChatTime>, pivot: &ChatTime) -> (r: (Vec<usize>, bool))
    ensures
        forall|k: int| 0 <= k < r.0@.len() ==> r.0@[k] < times@.len() && time_lt(times@[r.0@[k] as int]@, pivot@),
        forall|a: int, b: int| 0 <= a < b < r.0@.len() ==> r.0@[a] > r.0@[b],
        forall|i: int| 0 <= i < times@.len() && time_lt((#[trigger] times@[i])@, pivot@) ==> exists|k: int|
            0 <= k < r.0@.len() && r.0@[k] == i,
        r.1 == (page_offset.0 == 0),
{
    let v = before_pivot(times, pivot);
    assert forall|i: int| 0 <= i < times@.len() && time_lt((#[trigger] times@[i])@, pivot@) implies exists|k: int|
        0 <= k < v@.len() && v@[k] == i by {}
    (v, page_offset.0 == 0)
}

/// The position of the last `true` in `d`, or 0 when there is none.
pub open spec fn last_read(d: Seq<bool>) -> int
    decreases d.len(),
{
    if d.len() == 0 {
        0
    } else if d.last() {
        d.len() - 1
    } else {
        last_read(d.drop_last())
    }
}

/// The position that `last_read` gives is that of the last `true`: every
/// `true` is at or before it, it holds a `true` when there is one, and it is
/// 0 when there is none.
pub proof fn law_last_read(d: Seq<bool>)
    ensures
        0 <= last_read(d),
        d.len() > 0 ==> last_read(d) < d.len(),
        forall|i: int| 0 <= i < d.len() && #[trigger] d[i] ==> i <= last_read(d),
        (exists|i: int| 0 <= i < d.len() && #[trigger] d[i]) ==> d[last_read(d)],
        (forall|i: int| 0 <= i < d.len() ==> !#[trigger] d[i]) ==> last_read(d) == 0,
    decreases d.len(),
{
    if d.len() > 0 {
        let p = d.drop_last();
        law_last_read(p);
        if !d.last() {
            assert forall|i: int| 0 <= i < d.len() && #[trigger] d[i] implies i <= last_read(d) by {
                assert(i < d.len() - 1);
                assert(p[i] == d[i]);
            }
            if exists|i: int| 0 <= i < d.len() && #[trigger] d[i] {
                let i = choose|i: int| 0 <= i < d.len() && #[trigger] d[i];
                assert(p[i]);
                assert(d[last_read(p)] == p[last_read(p)]);
            }
            if forall|i: int| 0 <= i < d.len() ==> !#[trigger] d[i] {
                assert forall|i: int| 0 <= i < p.len() implies !#[trigger] p[i] by {
                    assert(p[i] == d[i]);
                }
            }
        }
    }
}

/// Whether the page of a snapshot that was read for the entries around a
/// time is the channel's first: then nothing comes before it.
pub fn around_early_stop(page_offset: SnapOffset) -> (r: bool)
    ensures
        r == (page_offset.0 == 0),
{
    page_offset.0 == 0
}

/// How many outbox messages a request asks for.
pub const WANT_COUNT: usize = 10;

/// Stamps in strictly increasing order, as the outbox keeps them.
pub open spec fn stamps_increasing(keys: Seq<Stamp>) -> bool {
    forall|i: int, j: int| 0 <= i < j < keys.len() ==> keys[i]@ < keys[j]@
}

/// The indices `from - 1` down to `from - n`, nearest first.
pub open spec fn downward(from: int, n: int) -> Seq<usize> {
    Seq::new(n as nat, |i: int| (from - 1 - i) as usize)
}

/// The indices `from` up to `from + n - 1`.
pub open spec fn upward(from: int, n: int) -> Seq<usize> {
    Seq::new(n as nat, |i: int| (from + i) as usize)
}

pub open spec fn min_int(a: int, b: int) -> int {
    if a < b { a } else { b }
}

fn goes_before(k: &Stamp, t: &Stamp, inclusive: bool) -> (r: bool)
    ensures
        r == if inclusive { k@ <= t@ } else { k@ < t@ },
{
    if inclusive {
        !t.lt(k)
    } else {
        k.lt(t)
    }
}

/// Whether `p` stamps come before `t` (or at `t` when `inclusive`) and the
/// rest after.
pub open spec fn splits_at(keys: Seq<Stamp>, t: int, inclusive: bool, p: int) -> bool {
    &&& 0 <= p <= keys.len()
    &&& forall|i: int| 0 <= i < p ==> if inclusive { keys[i]@ <= t } else { keys[i]@ < t }
    &&& forall|i: int| p <= i < keys.len() ==> if inclusive { keys[i]@ > t } else { keys[i]@ >= t }
}

/// Where the first stamp after `t` (or at or after `t` when `!inclusive`)
/// stands: the number of stamps that come before it.
fn split_point(keys: &Vec<Stamp>, t: &Stamp, inclusive: bool) -> (p: usize)
    requires
        stamps_increasing(keys@),
    ensures
        p <= keys@.len(),
        forall|i: int| 0 <= i < p ==> if inclusive { keys@[i]@ <= t@ } else { keys@[i]@ < t@ },
        forall|i: int|
            p <= i < keys@.len() ==> if inclusive { keys@[i]@ > t@ } else { keys@[i]@ >= t@ },
{
    let mut p: usize = 0;
    while p < keys.len() && goes_before(&keys[p], t, inclusive)
        invariant
            p <= keys@.len(),
            stamps_increasing(keys@),
            forall|i: int|
                0 <= i < p ==> if inclusive { keys@[i]@ <= t@ } else { keys@[i]@ < t@ },
        decreases keys@.len() - p,
    {
        p = p + 1;
    }
    p
}

fn take_down(from: usize, n: usize) -> (r: Vec<usize>)
    requires
        n <= from,
    ensures
        r@ == downward(from as int, n as int),
{
    let mut r: Vec<usize> = Vec::new();
    let mut i: usize = 0;
    while i < n
        invariant
            i <= n,
            n <= from,
            r@ == downward(from as int, i as int),
        decreases n - i,
    {
        r.push(from - 1 - i);
        i = i + 1;
        proof {
            assert(r@ =~= downward(from as int, i as int));
        }
    }
    r
}

fn take_up(from: usize, n: usize) -> (r: Vec<usize>)
    requires
        from + n <= usize::MAX,
    ensures
        r@ == upward(from as int, n as int),
{
    let mut r: Vec<usize> = Vec::new();
    let mut i: usize = 0;
    while i < n
        invariant
            i <= n,
            from + n <= usize::MAX,
            r@ == upward(from as int, i as int),
        decreases n - i,
    {
        r.push(from + i);
        i = i + 1;
        proof {
            assert(r@ =~= upward(from as int, i as int));
        }
    }
    r
}

/// The outbox messages to read for the entries around `t`, as indices into
/// the outbox's sorted stamps: the latest ones at or before `t`, nearest
/// first, and the earliest ones after `t`, each at most `WANT_COUNT`.
pub fn outbox_around(keys: &Vec<Stamp>, t: &Stamp) -> (r: (Vec<usize>, Vec<usize>))
    requires
        stamps_increasing(keys@),
    ensures
        exists|p: int|
            #[trigger] splits_at(keys@, t@, true, p) && r.0@ == downward(
                p,
                min_int(p, WANT_COUNT as int),
            ) && r.1@ == upward(p, min_int(keys@.len() - p, WANT_COUNT as int)),
{
    let p = split_point(keys, t, true);
    assert(splits_at(keys@, t@, true, p as int));
    let n_early = if p < WANT_COUNT { p } else { WANT_COUNT };
    let rest = keys.len() - p;
    let n_late = if rest < WANT_COUNT { rest } else { WANT_COUNT };
    (take_down(p, n_early), take_up(p, n_late))
}

/// The outbox messages to read for the entries before `t`: the latest ones
/// strictly before `t`, nearest first, at most `WANT_COUNT`.
pub fn outbox_before(keys: &Vec<Stamp>, t: &Stamp) -> (r: Vec<usize>)
    requires
        stamps_increasing(keys@),
    ensures
        exists|q: int|
            #[trigger] splits_at(keys@, t@, false, q) && r@ == downward(
                q,
                min_int(q, WANT_COUNT as int),
            ),
{
    let q = split_point(keys, t, false);
    assert(splits_at(keys@, t@, false, q as int));
    let n = if q < WANT_COUNT { q } else { WANT_COUNT };
    take_down(q, n)
}

/// The outbox messages to read for the entries after `t`: the earliest ones
/// strictly after `t`, in ascending order, at most `WANT_COUNT`.
pub fn outbox_after(keys: &Vec<Stamp>, t: &Stamp) -> (r: Vec<usize>)
    requires
        stamps_increasing(keys@),
    ensures
        exists|p: int|
            #[trigger] splits_at(keys@, t@, true, p) && r@ == upward(
                p,
                min_int(keys@.len() - p, WANT_COUNT as int),
            ),
{
    let p = split_point(keys, t, true);
    assert(splits_at(keys@, t@, true, p as int));
    let rest = keys.len() - p;
    let n = if rest < WANT_COUNT { rest } else { WANT_COUNT };
    take_up(p, n)
}

/// The outbox of one channel, in stamp order: each stamp with the index of
/// the outbox directory named by it (the last such directory, when two names
/// read as the same stamp).
pub struct OutboxEntries {
    pub stamps: Vec<Stamp>,
    pub names: Vec<usize>,
}

/// Reads an outbox directory listing: the names that are RFC 3339 stamps,
/// in stamp order; names that are not are skipped.
#[verifier::spinoff_prover]
pub fn outbox_entries(names: &Vec<String>) -> (r: OutboxEntries)
    ensures
        r.stamps@.len() == r.names@.len(),
        stamps_increasing(r.stamps@),
        forall|k: int|
            0 <= k < r.names@.len() ==> {
                let i = #[trigger] r.names@[k] as int;
                &&& 0 <= i < names@.len()
                &&& stamp_parse(names@[i]@) == StampRead::Ok(r.stamps@[k]@)
                &&& forall|j: int| i < j < names@.len() ==> stamp_parse(#[trigger] names@[j]@) != StampRead::Ok(r.stamps@[k]@)
            },
        forall|i: int|
            0 <= i < names@.len() && (#[trigger] stamp_parse(names@[i]@)) is Ok ==> exists|k: int|
                0 <= k < r.stamps@.len() && StampRead::Ok(r.stamps@[k]@) == stamp_parse(names@[i]@),
{
    let mut stamps: Vec<Stamp> = Vec::new();
    let mut idx: Vec<usize> = Vec::new();
    let mut i: usize = 0;
    while i < names.len()
        invariant
            i <= names@.len(),
            stamps@.len() == idx@.len(),
            stamps_increasing(stamps@),
            forall|k: int|
                0 <= k < idx@.len() ==> {
                    let n = #[trigger] idx@[k] as int;
                    &&& 0 <= n < i
                    &&& stamp_parse(names@[n]@) == StampRead::Ok(stamps@[k]@)
                    &&& forall|j: int| n < j < i ==> stamp_parse(#[trigger] names@[j]@) != StampRead::Ok(stamps@[k]@)
                },
            forall|j: int|
                0 <= j < i && (#[trigger] stamp_parse(names@[j]@)) is Ok ==> exists|k: int|
                    0 <= k < stamps@.len() && StampRead::Ok(stamps@[k]@) == stamp_parse(names@[j]@),
        decreases names@.len() - i,
    {
        match Stamp::from_text(names[i].as_str()) {
            Ok(t) => {
                let p = split_point(&stamps, &t, false);
                let ghost s0 = stamps@;
                let ghost i0 = idx@;
                if p < stamps.len() && !t.lt(&stamps[p]) {
                    idx.set(p, i);
                    proof {
                        assert(stamps@[p as int]@ == t@);
                        assert forall|k: int| 0 <= k < idx@.len() implies {
                            let n = #[trigger] idx@[k] as int;
                            &&& 0 <= n < i + 1
                            &&& stamp_parse(names@[n]@) == StampRead::Ok(stamps@[k]@)
                            &&& forall|j: int| n < j < i + 1 ==> stamp_parse(#[trigger] names@[j]@) != StampRead::Ok(stamps@[k]@)
                        } by {
                            if k != p {
                                assert(idx@[k] == i0[k]);
                                assert(stamps@[k]@ != t@);
                            }
                        }
                        assert forall|j: int| 0 <= j < i + 1 && (#[trigger] stamp_parse(names@[j]@)) is Ok implies exists|k: int|
                            0 <= k < stamps@.len() && StampRead::Ok(stamps@[k]@) == stamp_parse(names@[j]@) by {
                            if j == i {
                                assert(StampRead::Ok(stamps@[p as int]@) == stamp_parse(names@[j]@));
                            }
                        }
                    }
                } else {
                    stamps.insert(p, t);
                    idx.insert(p, i);
                    proof {
                        s0.insert_ensures(p as int, t);
                        i0.insert_ensures(p as int, i);
                        assert forall|a: int, b: int| 0 <= a < b < stamps@.len() implies stamps@[a]@ < stamps@[b]@ by {
                            let a2 = if a < p { a } else { a - 1 };
                            let b2 = if b < p { b } else { b - 1 };
                            if a != p && b != p {
                                assert(stamps@[a] == s0[a2]);
                                assert(stamps@[b] == s0[b2]);
                            } else if a == p {
                                assert(stamps@[b] == s0[b - 1]);
                            } else {
                                assert(stamps@[a] == s0[a]);
                            }
                        }
                        assert forall|k: int| 0 <= k < idx@.len() implies {
                            let n = #[trigger] idx@[k] as int;
                            &&& 0 <= n < i + 1
                            &&& stamp_parse(names@[n]@) == StampRead::Ok(stamps@[k]@)
                            &&& forall|j: int| n < j < i + 1 ==> stamp_parse(#[trigger] names@[j]@) != StampRead::Ok(stamps@[k]@)
                        } by {
                            if k != p {
                                let k2 = if k < p { k } else { k - 1 };
                                assert(idx@[k] == i0[k2]);
                                assert(stamps@[k] == s0[k2]);
                                assert(s0[k2]@ != t@);
                            }
                        }
                        assert forall|j: int| 0 <= j < i + 1 && (#[trigger] stamp_parse(names@[j]@)) is Ok implies exists|k: int|
                            0 <= k < stamps@.len() && StampRead::Ok(stamps@[k]@) == stamp_parse(names@[j]@) by {
                            if j == i {
                                assert(StampRead::Ok(stamps@[p as int]@) == stamp_parse(names@[j]@));
                            } else {
                                let k = choose|k: int| 0 <= k < s0.len() && StampRead::Ok(s0[k]@) == stamp_parse(names@[j]@);
                                let k2 = if k < p { k } else { k + 1 };
                                assert(stamps@[k2] == s0[k]);
                            }
                        }
                    }
                }
            },
            Err(_) => {},
        }
        i = i + 1;
    }
    OutboxEntries { stamps, names: idx }
}

/// Whether an outbox answer of `read` messages ends the feed in its
/// direction: fewer were read than asked for.
pub fn outbox_stop(read: usize) -> (r: bool)
    ensures
        r == (read < WANT_COUNT),
{
    read < WANT_COUNT
}

/// The controls feed: one entry, at the latest time there is.
pub struct FeedControls {
    pub time: ChatTime,
}

impl FeedControls {
    pub fn new() -> (r: FeedControls)
        ensures
            r.time@ == max_time_view(),
    {
        FeedControls { time: ChatTime::max_time() }
    }

    /// The controls entry's answer to a request for entries around `time`:
    /// the entry itself, which is always an answer (it is the one entry of
    /// the feed, on whichever side of `time` it falls), and the feed's stop
    /// marks, both set: there is nothing else before or after it.
    pub fn request_around(&self, time: &ChatTime) -> (r: (ChatTime, bool, bool))
        ensures
            r.0@ == self.time@,
            r.1,
            r.2,
    {
        (self.time.copy(), true, true)
    }

    /// The controls entry's answer to a request for entries before `time`:
    /// the entry when it is earlier than `time`, else nothing to answer.
    pub fn request_before(&self, time: &ChatTime) -> (r: Option<ChatTime>)
        ensures
            r is Some <==> time_lt(self.time@, time@),
            r matches Some(e) ==> e@ == self.time@,
    {
        if self.time.before(time) {
            Some(self.time.copy())
        } else {
            None
        }
    }

    /// The controls entry's answer to a request for entries after `time`:
    /// the entry when it is later than `time`, else nothing to answer.
    pub fn request_after(&self, time: &ChatTime) -> (r: Option<ChatTime>)
        ensures
            r is Some <==> time_lt(time@, self.time@),
            r matches Some(e) ==> e@ == self.time@,
    {
        if time.before(&self.time) {
            Some(self.time.copy())
        } else {
            None
        }
    }
}

} // verus!
