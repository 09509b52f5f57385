//! The logical state of the infinite scroller: for each feed the entries
//! held in reserve before and after the realized (shown) entries, whether the
//! feed has more in each direction, and the realized entries themselves with
//! the anchor among them.
//!
//! Layout (heights, offsets, alignment) is left to the view; here are the
//! decisions: where a feed's answer goes, which entry is realized next, what
//! goes back into reserve, and what each feed is asked for.
use vstd::prelude::*;
use crate::chat_time::{law_time_order, lemma_not_before_trans, time_lt, ChatTime, TimeView};

verus! {

/// Feed ids: what the scroller needs of them.
pub trait FeedIdTraits: Clone + PartialEq + Eq + PartialOrd + core::hash::Hash {

}

impl<T: Clone + PartialEq + Eq + PartialOrd + core::hash::Hash> FeedIdTraits for T {

}

/// Reserves are refilled when they hold fewer entries than this.
pub const MIN_RESERVE: usize = 50;

/// Reserves are cut to this many entries.
pub const MAX_RESERVE: usize = 150;

/// An entry with its time.
pub struct Timed<E> {
    pub time: ChatTime,
    pub item: E,
}

impl<E> Timed<E> {
    pub open spec fn t(self) -> TimeView {
        self.time@
    }
}

/// A realized entry and the feed (by its index) it came from.
pub struct Placed<E> {
    pub feed: usize,
    pub entry: Timed<E>,
}

/// What the scroller holds for one feed.
pub struct FeedState<E> {
    /// No answer yet to the first request (for entries around a time).
    pub initial: bool,
    /// Entries before the realized ones, nearest (latest) first.
    pub early_reserve: Vec<Timed<E>>,
    /// Entries after the realized ones, nearest (earliest) first.
    pub late_reserve: Vec<Timed<E>>,
    /// The feed has nothing before its early reserve.
    pub early_stop: bool,
    /// The feed has nothing after its late reserve.
    pub late_stop: bool,
    /// The earliest time the feed has answered with.
    pub earliest_known: Option<ChatTime>,
}

/// The scroller's logical state.
pub struct Reserves<E> {
    /// The time the view was last reset to.
    pub reset_time: ChatTime,
    pub feeds: Vec<FeedState<E>>,
    /// The realized entries, in order.
    pub real: Vec<Placed<E>>,
    /// The index of the anchor entry among the realized ones.
    pub anchor: Option<usize>,
    /// The time of the entry to keep in view (the sticky one), if any.
    pub want_sticky: Option<ChatTime>,
}

pub open spec fn opt_time(o: Option<ChatTime>) -> Option<TimeView> {
    match o {
        Some(t) => Some(t@),
        None => None,
    }
}

/// The earlier of a known time and `t`.
pub open spec fn min_time(k: Option<TimeView>, t: TimeView) -> Option<TimeView> {
    match k {
        Some(i) => if time_lt(t, i) { Some(t) } else { Some(i) },
        None => Some(t),
    }
}

/// The earliest of a known time and the times of `es`.
pub open spec fn min_times<E>(k: Option<TimeView>, es: Seq<Timed<E>>) -> Option<TimeView>
    decreases es.len(),
{
    if es.len() == 0 {
        k
    } else {
        min_time(min_times(k, es.drop_last()), es.last().t())
    }
}

/// The entries of `es` before `r`, in order.
pub open spec fn before_of<E>(es: Seq<Timed<E>>, r: TimeView) -> Seq<Timed<E>>
    decreases es.len(),
{
    if es.len() == 0 {
        seq![]
    } else if time_lt(es.last().t(), r) {
        before_of(es.drop_last(), r).push(es.last())
    } else {
        before_of(es.drop_last(), r)
    }
}

/// The entries of `es` at `r`, in order.
pub open spec fn at_of<E>(es: Seq<Timed<E>>, r: TimeView) -> Seq<Timed<E>>
    decreases es.len(),
{
    if es.len() == 0 {
        seq![]
    } else if es.last().t() == r {
        at_of(es.drop_last(), r).push(es.last())
    } else {
        at_of(es.drop_last(), r)
    }
}

/// The entries of `es` neither before nor at `r`, in order.
pub open spec fn after_of<E>(es: Seq<Timed<E>>, r: TimeView) -> Seq<Timed<E>>
    decreases es.len(),
{
    if es.len() == 0 {
        seq![]
    } else if !time_lt(es.last().t(), r) && es.last().t() != r {
        after_of(es.drop_last(), r).push(es.last())
    } else {
        after_of(es.drop_last(), r)
    }
}

/// Entries of one feed, realized.
pub open spec fn placed_all<E>(es: Seq<Timed<E>>, feed: usize) -> Seq<Placed<E>> {
    Seq::new(es.len(), |i: int| Placed { feed, entry: es[i] })
}

/// The time of the earliest realized entry of feed `f`.
pub open spec fn first_real_of<E>(shown: Seq<Placed<E>>, f: int) -> Option<TimeView>
    decreases shown.len(),
{
    if shown.len() == 0 {
        None
    } else if shown[0].feed == f {
        Some(shown[0].entry.t())
    } else {
        first_real_of(shown.drop_first(), f)
    }
}

/// The time of the latest realized entry of feed `f`.
pub open spec fn last_real_of<E>(shown: Seq<Placed<E>>, f: int) -> Option<TimeView>
    decreases shown.len(),
{
    if shown.len() == 0 {
        None
    } else if shown.last().feed == f {
        Some(shown.last().entry.t())
    } else {
        last_real_of(shown.drop_last(), f)
    }
}

/// Times strictly decreasing, each before `p`.
pub open spec fn descending_below<E>(es: Seq<Timed<E>>, p: TimeView) -> bool {
    &&& forall|i: int| 0 <= i < es.len() ==> time_lt(#[trigger] es[i].t(), p)
    &&& forall|i: int, j: int| 0 <= i < j < es.len() ==> time_lt(es[j].t(), es[i].t())
}

/// Times strictly increasing, each after `p`.
pub open spec fn ascending_above<E>(es: Seq<Timed<E>>, p: TimeView) -> bool {
    &&& forall|i: int| 0 <= i < es.len() ==> time_lt(p, #[trigger] es[i].t())
    &&& forall|i: int, j: int| 0 <= i < j < es.len() ==> time_lt(es[i].t(), es[j].t())
}

impl<E> FeedState<E> {
    /// An empty feed that has not yet been asked for anything.
    pub open spec fn fresh(self) -> bool {
        &&& self.initial
        &&& self.early_reserve@.len() == 0
        &&& self.late_reserve@.len() == 0
        &&& !self.early_stop
        &&& !self.late_stop
        &&& self.earliest_known is None
    }

    /// Lowers the earliest known time to `t` when `t` is earlier.
    pub fn update_earliest_known(&mut self, t: &ChatTime)
        ensures
            opt_time(final(self).earliest_known) == min_time(opt_time(old(self).earliest_known), t@),
            final(self).initial == old(self).initial,
            final(self).early_reserve@ == old(self).early_reserve@,
            final(self).late_reserve@ == old(self).late_reserve@,
            final(self).early_stop == old(self).early_stop,
            final(self).late_stop == old(self).late_stop,
    {
        let lower = match &self.earliest_known {
            Some(i) => t.before(i),
            None => true,
        };
        if lower {
            self.earliest_known = Some(t.copy());
        }
    }

    pub fn new() -> (r: FeedState<E>)
        ensures
            r.fresh(),
    {
        FeedState {
            initial: true,
            early_reserve: Vec::new(),
            late_reserve: Vec::new(),
            early_stop: false,
            late_stop: false,
            earliest_known: None,
        }
    }
}

/// Where an entry of an answer for later entries went.
#[derive(Clone, Copy, Debug, PartialEq, Eq, Structural)]
pub enum Placement {
    /// Realized, at this index of the realized entries.
    Realized(usize),
    /// To the front (the nearest end) of the feed's early reserve.
    EarlyFront,
    /// To the back of the feed's late reserve.
    LateBack,
    /// Not kept: the late reserve was full.
    Dropped,
}

/// Where an entry at `t` is put among the realized entries, looking at
/// indices `from` up to `hi - 1`, latest first: after the last one before
/// `t`, or 0 when none of them is.
pub open spec fn scan_pos<E>(shown: Seq<Placed<E>>, from: int, hi: int, t: TimeView) -> int
    decreases hi - from,
{
    if hi <= from || hi <= 0 {
        0
    } else if time_lt(shown[hi - 1].entry.t(), t) {
        hi
    } else {
        scan_pos(shown, from, hi - 1, t)
    }
}

/// What sorting answers into the realized entries works on: the realized
/// entries, the anchor, the feed's early reserve, where the previous entry
/// went, and where each entry went.
pub type SortIn<E> = (Seq<Placed<E>>, int, Seq<Timed<E>>, int, Seq<Placement>);

/// One entry sorted in: placed among the realized entries just after the
/// last earlier one found from the previous entry's place on, or, when none
/// is found there, at the front of the early reserve.
pub open spec fn sort_in_step<E>(st: SortIn<E>, e: Timed<E>, f: usize) -> SortIn<E> {
    let pos = scan_pos(st.0, st.3, st.0.len() as int, e.t());
    if pos == 0 {
        (st.0, st.1, seq![e] + st.2, pos, st.4.push(Placement::EarlyFront))
    } else {
        (
            st.0.insert(pos, Placed { feed: f, entry: e }),
            if pos <= st.1 { st.1 + 1 } else { st.1 },
            st.2,
            pos,
            st.4.push(Placement::Realized(pos as usize)),
        )
    }
}

/// The entries of `es`, in order, sorted in.
pub open spec fn sort_in<E>(st: SortIn<E>, es: Seq<Timed<E>>, f: usize) -> SortIn<E>
    decreases es.len(),
{
    if es.len() == 0 {
        st
    } else {
        sort_in_step(sort_in(st, es.drop_last(), f), es.last(), f)
    }
}

/// How many leading entries of `es` come before `t`.
pub open spec fn prefix_before<E>(es: Seq<Timed<E>>, t: TimeView) -> int
    decreases es.len(),
{
    if es.len() == 0 {
        0
    } else if time_lt(es[0].t(), t) {
        1 + prefix_before(es.drop_first(), t)
    } else {
        0
    }
}

/// How many of `n` entries a late reserve holding `len` takes.
pub open spec fn room(len: int, n: int) -> int {
    if len >= MAX_RESERVE {
        0
    } else if n < MAX_RESERVE - len {
        n
    } else {
        MAX_RESERVE - len
    }
}

pub open spec fn placements_kept(k: int, n: int) -> Seq<Placement> {
    Seq::new(n as nat, |i: int| if i < k { Placement::LateBack } else { Placement::Dropped })
}

pub open spec fn placements_realized(start: int, n: int) -> Seq<Placement> {
    Seq::new(n as nat, |i: int| Placement::Realized((start + i) as usize))
}

proof fn lemma_prefix_before<E>(es: Seq<Timed<E>>, t: TimeView, i: int)
    requires
        0 <= i <= es.len(),
        forall|j: int| 0 <= j < i ==> time_lt(#[trigger] es[j].t(), t),
        i == es.len() || !time_lt(es[i].t(), t),
    ensures
        prefix_before(es, t) == i,
    decreases i,
{
    if i > 0 {
        assert forall|j: int| 0 <= j < i - 1 implies time_lt(#[trigger] es.drop_first()[j].t(), t) by {
            assert(es.drop_first()[j] == es[j + 1]);
        }
        lemma_prefix_before(es.drop_first(), t, i - 1);
    } else if es.len() > 0 {
    }
}

/// Adds entries to the back of a late reserve while it holds fewer than
/// `MAX_RESERVE`; when one does not fit, it and the rest are dropped and the
/// feed is no longer stopped.
fn add_to_late<E>(
    reserve: &mut Vec<Timed<E>>,
    entries: Vec<Timed<E>>,
    stop: &mut bool,
    placements: &mut Vec<Placement>,
)
    ensures
        ({
            let k = room(old(reserve)@.len() as int, entries@.len() as int);
            &&& final(reserve)@ == old(reserve)@ + entries@.take(k)
            &&& *final(stop) == if k < entries@.len() { false } else { *old(stop) }
            &&& final(placements)@ == old(placements)@ + placements_kept(k, entries@.len() as int)
        }),
{
    let ghost es = entries@;
    let ghost r0 = reserve@;
    let ghost p0 = placements@;
    let ghost k = room(r0.len() as int, es.len() as int);
    let mut entries = entries;
    let mut i: usize = 0;
    let n = entries.len();
    while entries.len() > 0
        invariant
            i + entries@.len() == es.len(),
            es.len() == n,
            entries@ == es.skip(i as int),
            i <= k ==> reserve@ == r0 + es.take(i as int),
            i > k ==> reserve@ == r0 + es.take(k),
            *stop == if i > k { false } else { *old(stop) },
            k == room(r0.len() as int, es.len() as int),
            placements@ == p0 + placements_kept(k, i as int),
        decreases entries@.len(),
    {
        let e = entries.remove(0);
        if reserve.len() < MAX_RESERVE {
            reserve.push(e);
            proof {
                assert(es.take(i + 1) =~= es.take(i as int).push(e));
                assert(e == es[i as int]);
            }
            placements.push(Placement::LateBack);
        } else {
            *stop = false;
            placements.push(Placement::Dropped);
        }
        proof {
            assert(placements@ =~= p0 + placements_kept(k, i + 1));
        }
        i = i + 1;
        proof {
            assert(entries@ =~= es.skip(i as int));
        }
    }
    proof {
        if i <= k {
            assert(es.take(i as int) =~= es.take(k));
        }
    }
}

proof fn lemma_scan_pos_bounds<E>(shown: Seq<Placed<E>>, from: int, hi: int, t: TimeView)
    ensures
        scan_pos(shown, from, hi, t) == 0 || (from < scan_pos(shown, from, hi, t) <= hi && 0 < scan_pos(shown, from, hi, t)),
    decreases hi - from,
{
    if hi > from && hi > 0 && !time_lt(shown[hi - 1].entry.t(), t) {
        lemma_scan_pos_bounds(shown, from, hi - 1, t);
    }
}

/// Sorting in only adds entries of feed `f` to the realized ones.
proof fn lemma_sort_in_feeds<E>(st: SortIn<E>, es: Seq<Timed<E>>, f: usize, k: int, h: int)
    requires
        h != f,
        0 <= k < sort_in(st, es, f).0.len(),
        sort_in(st, es, f).0[k].feed == h,
    ensures
        exists|k2: int| 0 <= k2 < st.0.len() && st.0[k2].feed == h,
    decreases es.len(),
{
    if es.len() > 0 {
        let prev = sort_in(st, es.drop_last(), f);
        let pos = scan_pos(prev.0, prev.3, prev.0.len() as int, es.last().t());
        lemma_scan_pos_bounds(prev.0, prev.3, prev.0.len() as int, es.last().t());
        if pos == 0 {
            lemma_sort_in_feeds(st, es.drop_last(), f, k, h);
        } else {
            let x = Placed { feed: f, entry: es.last() };
            let now = prev.0.insert(pos, x);
            prev.0.insert_ensures(pos, x);
            assert(sort_in(st, es, f).0 == now);
            assert(now[pos] == x);
            assert(k != pos);
            let k2 = if k < pos { k } else { k - 1 };
            if k > pos {
                assert(now[k2 + 1] == prev.0[k2]);
            }
            assert(now[k] == prev.0[k2]);
            lemma_sort_in_feeds(st, es.drop_last(), f, k2, h);
        }
    } else {
        assert(st.0[k].feed == h);
    }
}

/// Which feed gives the next entry to realize at one end.
#[derive(Clone, Copy, Debug, PartialEq, Eq, Structural)]
pub enum Pick {
    /// This feed's reserve front is the nearest entry.
    Feed(usize),
    /// A feed has an empty reserve but may have more: wait for it.
    Pending,
    /// Every feed's reserve is empty and stopped.
    Exhausted,
}

/// What one feed is asked for after a shake.
pub struct FeedAsk {
    /// The first request: entries around this time.
    pub around: Option<ChatTime>,
    /// Entries before this time.
    pub before: Option<ChatTime>,
    /// Entries after this time.
    pub after: Option<ChatTime>,
}

/// The entries of feed `g` among `s`, in order.
pub open spec fn of_feed<E>(s: Seq<Placed<E>>, g: int) -> Seq<Timed<E>>
    decreases s.len(),
{
    if s.len() == 0 {
        seq![]
    } else if s.last().feed == g {
        of_feed(s.drop_last(), g).push(s.last().entry)
    } else {
        of_feed(s.drop_last(), g)
    }
}

proof fn lemma_of_feed_add<E>(a: Seq<Placed<E>>, b: Seq<Placed<E>>, g: int)
    ensures
        of_feed(a + b, g) == of_feed(a, g) + of_feed(b, g),
    decreases b.len(),
{
    if b.len() == 0 {
        assert(a + b =~= a);
        assert(of_feed(a, g) + of_feed(b, g) =~= of_feed(a, g));
    } else {
        assert((a + b).drop_last() =~= a + b.drop_last());
        lemma_of_feed_add(a, b.drop_last(), g);
        if b.last().feed == g {
            assert(of_feed(a, g) + of_feed(b, g) =~= (of_feed(a, g) + of_feed(b.drop_last(), g)).push(b.last().entry));
        }
    }
}

proof fn lemma_of_feed_one<E>(x: Placed<E>, g: int)
    ensures
        of_feed(seq![x], g) == if x.feed == g { seq![x.entry] } else { Seq::<Timed<E>>::empty() },
{
    assert(seq![x].drop_last() =~= Seq::<Placed<E>>::empty());
    assert(of_feed(Seq::<Placed<E>>::empty(), g) =~= Seq::<Timed<E>>::empty());
    assert(Seq::<Timed<E>>::empty().push(x.entry) =~= seq![x.entry]);
}

proof fn lemma_of_feed_nonempty<E>(s: Seq<Placed<E>>, g: int)
    requires
        of_feed(s, g).len() > 0,
    ensures
        exists|k: int| 0 <= k < s.len() && #[trigger] s[k].feed == g,
    decreases s.len(),
{
    if s.last().feed == g {
        assert(s[s.len() - 1].feed == g);
    } else {
        let d = s.drop_last();
        lemma_of_feed_nonempty(d, g);
        let k = choose|k: int| 0 <= k < d.len() && #[trigger] d[k].feed == g;
        assert(s[k].feed == g);
    }
}

proof fn lemma_first_real_exists<E>(shown: Seq<Placed<E>>, f: int, k: int)
    requires
        0 <= k < shown.len(),
        shown[k].feed == f,
    ensures
        first_real_of(shown, f) is Some,
    decreases shown.len(),
{
    if shown[0].feed != f {
        lemma_first_real_exists(shown.drop_first(), f, k - 1);
    }
}

proof fn lemma_last_real_exists<E>(shown: Seq<Placed<E>>, f: int, k: int)
    requires
        0 <= k < shown.len(),
        shown[k].feed == f,
    ensures
        last_real_of(shown, f) is Some,
    decreases shown.len(),
{
    if shown.last().feed != f {
        lemma_last_real_exists(shown.drop_last(), f, k);
    }
}

/// Realized entries in time order: none is earlier than one before it.
pub open spec fn in_order<E>(s: Seq<Placed<E>>) -> bool {
    forall|i: int, j: int| 0 <= i < j < s.len() ==> !time_lt(#[trigger] s[j].entry.t(), #[trigger] s[i].entry.t())
}

proof fn lemma_scan_pos_found<E>(shown: Seq<Placed<E>>, from: int, hi: int, t: TimeView)
    requires
        hi <= shown.len(),
    ensures
        ({
            let pos = scan_pos(shown, from, hi, t);
            &&& pos > 0 ==> time_lt(shown[pos - 1].entry.t(), t)
            &&& pos > 0 ==> forall|i: int| pos <= i < hi ==> !time_lt(#[trigger] shown[i].entry.t(), t)
        }),
    decreases hi - from,
{
    if hi > from && hi > 0 && !time_lt(shown[hi - 1].entry.t(), t) {
        lemma_scan_pos_found(shown, from, hi - 1, t);
    }
}

/// Sorting one entry in keeps in order realized entries in order, and
/// does not move the last one when the entry is earlier than it.
proof fn lemma_sort_in_step_order<E>(st: SortIn<E>, e: Timed<E>, f: usize)
    requires
        in_order(st.0),
        st.0.len() > 0,
        time_lt(e.t(), st.0.last().entry.t()),
    ensures
        in_order(sort_in_step(st, e, f).0),
        sort_in_step(st, e, f).0.len() > 0,
        sort_in_step(st, e, f).0.last() == st.0.last(),
{
    let s = st.0;
    let pos = scan_pos(s, st.3, s.len() as int, e.t());
    lemma_scan_pos_bounds(s, st.3, s.len() as int, e.t());
    lemma_scan_pos_found(s, st.3, s.len() as int, e.t());
    if pos > 0 {
        let x = Placed { feed: f, entry: e };
        let n = s.insert(pos, x);
        s.insert_ensures(pos, x);
        let tl = s.last().entry.t();
        if pos == s.len() {
            law_time_order(tl, e.t(), tl);
        }
        assert(n.last() == s.last());
        assert forall|i: int, j: int| 0 <= i < j < n.len() implies !time_lt(#[trigger] n[j].entry.t(), #[trigger] n[i].entry.t()) by {
            let ti = n[i].entry.t();
            let tj = n[j].entry.t();
            let tp = s[pos - 1].entry.t();
            if i == pos {
                // j > pos: tj is s[j - 1], not before e
                assert(n[j] == s[j - 1]);
                assert(!time_lt(s[j - 1].entry.t(), e.t()));
            } else if j == pos {
                // i < pos: ti is s[i], at most s[pos - 1], before e
                assert(n[i] == s[i]);
                if i < pos - 1 {
                    assert(!time_lt(tp, ti));
                }
                law_time_order(e.t(), ti, tp);
                law_time_order(e.t(), tp, e.t());
                law_time_order(ti, tp, e.t());
                law_time_order(ti, e.t(), ti);
                if ti != tp {
                    law_time_order(ti, tp, ti);
                }
            } else {
                let i2 = if i < pos { i } else { i - 1 };
                let j2 = if j < pos { j } else { j - 1 };
                assert(n[i] == s[i2]);
                assert(n[j] == s[j2]);
                assert(i2 < j2);
            }
        }
    }
}

proof fn lemma_sort_in_order<E>(st: SortIn<E>, es: Seq<Timed<E>>, f: usize, latest: TimeView)
    requires
        in_order(st.0),
        st.0.len() > 0,
        st.0.last().entry.t() == latest,
        forall|i: int| 0 <= i < es.len() ==> time_lt(#[trigger] es[i].t(), latest),
    ensures
        in_order(sort_in(st, es, f).0),
        sort_in(st, es, f).0.len() > 0,
        sort_in(st, es, f).0.last().entry.t() == latest,
    decreases es.len(),
{
    if es.len() > 0 {
        lemma_sort_in_order(st, es.drop_last(), f, latest);
        assert(time_lt(es[es.len() - 1].t(), latest));
        lemma_sort_in_step_order(sort_in(st, es.drop_last(), f), es.last(), f);
    }
}

/// Appending entries no earlier than the last realized one, in order,
/// keeps the realized entries in order.
proof fn lemma_append_order<E>(s: Seq<Placed<E>>, rest: Seq<Timed<E>>, f: usize)
    requires
        in_order(s),
        s.len() > 0,
        rest.len() > 0 ==> !time_lt(rest[0].t(), s.last().entry.t()),
        forall|i: int, j: int| 0 <= i < j < rest.len() ==> time_lt(rest[i].t(), rest[j].t()),
    ensures
        in_order(s + placed_all(rest, f)),
{
    let n = s + placed_all(rest, f);
    let tl = s.last().entry.t();
    assert forall|i: int, j: int| 0 <= i < j < n.len() implies !time_lt(#[trigger] n[j].entry.t(), #[trigger] n[i].entry.t()) by {
        let ti = n[i].entry.t();
        let tj = n[j].entry.t();
        if j >= s.len() {
            let r0 = rest[0].t();
            assert(tj == rest[j - s.len()].t());
            if j - s.len() > 0 {
                assert(time_lt(r0, tj));
            }
            law_time_order(r0, tj, r0);
            assert(!time_lt(tj, r0));
            if i < s.len() {
                assert(ti == s[i].entry.t());
                if i < s.len() - 1 {
                    assert(!time_lt(tl, ti));
                }
                lemma_not_before_trans(ti, tl, r0);
                lemma_not_before_trans(ti, r0, tj);
            } else {
                assert(ti == rest[i - s.len()].t());
                assert(time_lt(ti, tj));
                law_time_order(ti, tj, ti);
            }
        } else {
            assert(n[i] == s[i]);
            assert(n[j] == s[j]);
        }
    }
}

proof fn lemma_min_times_some<E>(k: Option<TimeView>, es: Seq<Timed<E>>)
    requires
        es.len() > 0,
    ensures
        min_times(k, es) is Some,
{
}

proof fn lemma_first_real_found<E>(shown: Seq<Placed<E>>, f: int) -> (k: int)
    requires
        first_real_of(shown, f) is Some,
    ensures
        0 <= k < shown.len(),
        shown[k].feed == f,
        first_real_of(shown, f) == Some(shown[k].entry.t()),
    decreases shown.len(),
{
    if shown[0].feed == f {
        0
    } else {
        let k = lemma_first_real_found(shown.drop_first(), f);
        k + 1
    }
}

proof fn lemma_last_real_found<E>(shown: Seq<Placed<E>>, f: int) -> (k: int)
    requires
        last_real_of(shown, f) is Some,
    ensures
        0 <= k < shown.len(),
        shown[k].feed == f,
        last_real_of(shown, f) == Some(shown[k].entry.t()),
    decreases shown.len(),
{
    if shown.last().feed == f {
        shown.len() - 1
    } else {
        lemma_last_real_found(shown.drop_last(), f)
    }
}

impl<E> Reserves<E> {
    /// Whether feed `f` holds any entry, in reserve or realized.
    pub open spec fn has_entries(self, f: int) -> bool {
        ||| self.feeds@[f].early_reserve@.len() > 0
        ||| self.feeds@[f].late_reserve@.len() > 0
        ||| exists|k: int| 0 <= k < self.real@.len() && #[trigger] self.real@[k].feed == f
    }

    /// The state is well formed: realized entries name existing feeds, the
    /// anchor is a realized entry whenever there is one, and a feed holding
    /// entries knows its earliest time.
    pub open spec fn wf(self) -> bool {
        &&& forall|k: int| 0 <= k < self.real@.len() ==> #[trigger] self.real@[k].feed < self.feeds@.len()
        &&& self.real@.len() > 0 ==> (self.anchor matches Some(a) && a < self.real@.len())
        &&& forall|f: int|
            0 <= f < self.feeds@.len() && #[trigger] self.has_entries(f) ==> self.feeds@[f].earliest_known is Some
    }

    /// Every feed unchanged but `f`.
    pub open spec fn others_same(self, other: Self, f: int) -> bool {
        &&& self.feeds@.len() == other.feeds@.len()
        &&& forall|g: int| 0 <= g < self.feeds@.len() && g != f ==> #[trigger] self.feeds@[g] == other.feeds@[g]
    }

    /// The time a feed is asked for earlier entries from: the earliest entry
    /// it holds in early reserve, else its earliest realized entry, else the
    /// nearest entry of its late reserve.
    pub open spec fn pivot_early(self, f: int) -> Option<TimeView> {
        let fs = self.feeds@[f];
        if fs.early_reserve@.len() > 0 {
            Some(fs.early_reserve@.last().t())
        } else if first_real_of(self.real@, f) is Some {
            first_real_of(self.real@, f)
        } else if fs.late_reserve@.len() > 0 {
            Some(fs.late_reserve@[0].t())
        } else {
            None
        }
    }

    /// The time a feed is asked for later entries from: the latest entry it
    /// holds in late reserve, else its latest realized entry, else the
    /// nearest entry of its early reserve.
    pub open spec fn pivot_late(self, f: int) -> Option<TimeView> {
        let fs = self.feeds@[f];
        if fs.late_reserve@.len() > 0 {
            Some(fs.late_reserve@.last().t())
        } else if last_real_of(self.real@, f) is Some {
            last_real_of(self.real@, f)
        } else if fs.early_reserve@.len() > 0 {
            Some(fs.early_reserve@[0].t())
        } else {
            None
        }
    }

    /// A scroller over `n` feeds, none asked for anything yet, reset to
    /// `time`.
    pub fn new(time: ChatTime, n: usize) -> (r: Reserves<E>)
        ensures
            r.wf(),
            r.reset_time@ == time@,
            r.feeds@.len() == n,
            forall|f: int| 0 <= f < n ==> (#[trigger] r.feeds@[f]).fresh(),
            r.real@.len() == 0,
            r.anchor is None,
            r.want_sticky is None,
            r.ordered(),
    {
        let mut feeds: Vec<FeedState<E>> = Vec::new();
        let mut i: usize = 0;
        while i < n
            invariant
                i <= n,
                feeds@.len() == i,
                forall|f: int| 0 <= f < i ==> (#[trigger] feeds@[f]).fresh(),
            decreases n - i,
        {
            feeds.push(FeedState::new());
            i = i + 1;
        }
        let r = Reserves { reset_time: time, feeds, real: Vec::new(), anchor: None, want_sticky: None };
        proof {
            r.lemma_fresh_ordered();
        }
        r
    }

    /// Adds a feed, not yet asked for anything; gives its index.
    pub fn add_feed(&mut self) -> (f: usize)
        requires
            old(self).wf(),
        ensures
            final(self).wf(),
            final(self).want_sticky == old(self).want_sticky,
            f == old(self).feeds@.len(),
            final(self).feeds@ == old(self).feeds@.push(final(self).feeds@[f as int]),
            final(self).feeds@[f as int].fresh(),
            final(self).real@ == old(self).real@,
            final(self).anchor == old(self).anchor,
            final(self).reset_time == old(self).reset_time,
            old(self).ordered() ==> final(self).ordered(),
    {
        let f = self.feeds.len();
        self.feeds.push(FeedState::new());
        proof {
            let o = *old(self);
            let n = *self;
            if o.ordered() {
                assert forall|g: int| 0 <= g < n.feeds@.len() implies #[trigger] n.line(g) == if g < f { o.line(g) } else { Seq::<Timed<E>>::empty() } by {
                    if g == f {
                        lemma_of_feed_none(n.real@, g);
                        assert(n.line(g) =~= Seq::<Timed<E>>::empty());
                    } else {
                        assert(n.feeds@[g] == o.feeds@[g]);
                    }
                }
                assert forall|g: int| 0 <= g < n.feeds@.len() implies ascending(#[trigger] n.line(g)) by {
                    if g < f {
                        assert(n.line(g) == o.line(g));
                    }
                }
                assert forall|g: int| 0 <= g < n.feeds@.len() && (#[trigger] n.feeds@[g]).initial implies n.line(g).len() == 0 by {
                    if g < f {
                        assert(n.line(g) == o.line(g));
                        assert(o.feeds@[g] == n.feeds@[g]);
                    }
                }
            }
        }
        proof {
            assert forall|g: int|
                0 <= g < self.feeds@.len() && #[trigger] self.has_entries(g) implies self.feeds@[g].earliest_known is Some by {
                if g < f {
                    assert(old(self).has_entries(g));
                } else {
                    if exists|k: int| 0 <= k < self.real@.len() && #[trigger] self.real@[k].feed == g {
                        let k = choose|k: int| 0 <= k < self.real@.len() && #[trigger] self.real@[k].feed == g;
                        assert(old(self).real@[k].feed < old(self).feeds@.len());
                    }
                }
            }
        }
        f
    }

    /// Clears everything to start again from `time`: nothing realized, every
    /// feed empty and to be asked anew.
    pub fn jump_to(&mut self, time: ChatTime)
        requires
            old(self).wf(),
        ensures
            final(self).wf(),
            final(self).want_sticky == old(self).want_sticky,
            final(self).reset_time@ == time@,
            final(self).real@.len() == 0,
            final(self).anchor is None,
            final(self).feeds@.len() == old(self).feeds@.len(),
            forall|f: int| 0 <= f < final(self).feeds@.len() ==> (#[trigger] final(self).feeds@[f]).fresh(),
            final(self).ordered(),
    {
        let n = self.feeds.len();
        self.reset_time = time;
        self.real = Vec::new();
        self.anchor = None;
        let mut feeds: Vec<FeedState<E>> = Vec::new();
        let mut i: usize = 0;
        while i < n
            invariant
                i <= n,
                feeds@.len() == i,
                forall|f: int| 0 <= f < i ==> (#[trigger] feeds@[f]).fresh(),
            decreases n - i,
        {
            feeds.push(FeedState::new());
            i = i + 1;
        }
        self.feeds = feeds;
        proof {
            self.lemma_fresh_ordered();
        }
    }

    fn first_real_time(&self, f: usize) -> (r: Option<ChatTime>)
        ensures
            opt_time(r) == first_real_of(self.real@, f as int),
    {
        let mut k: usize = 0;
        proof {
            assert(self.real@.skip(0) =~= self.real@);
        }
        while k < self.real.len()
            invariant
                k <= self.real@.len(),
                first_real_of(self.real@, f as int) == first_real_of(self.real@.skip(k as int), f as int),
            decreases self.real@.len() - k,
        {
            proof {
                assert(self.real@.skip(k as int).drop_first() =~= self.real@.skip(k + 1));
            }
            if self.real[k].feed == f {
                return Some(self.real[k].entry.time.copy());
            }
            k = k + 1;
        }
        None
    }

    fn last_real_time(&self, f: usize) -> (r: Option<ChatTime>)
        ensures
            opt_time(r) == last_real_of(self.real@, f as int),
    {
        let mut k: usize = self.real.len();
        proof {
            assert(self.real@.take(k as int) =~= self.real@);
        }
        while k > 0
            invariant
                k <= self.real@.len(),
                last_real_of(self.real@, f as int) == last_real_of(self.real@.take(k as int), f as int),
            decreases k,
        {
            proof {
                assert(self.real@.take(k as int).drop_last() =~= self.real@.take(k - 1));
            }
            if self.real[k - 1].feed == f {
                return Some(self.real[k - 1].entry.time.copy());
            }
            k = k - 1;
        }
        None
    }

    /// The time feed `f` is asked for earlier entries from.
    pub fn get_pivot_early(&self, f: usize) -> (r: Option<ChatTime>)
        requires
            f < self.feeds@.len(),
        ensures
            opt_time(r) == self.pivot_early(f as int),
    {
        let fs = &self.feeds[f];
        if fs.early_reserve.len() > 0 {
            return Some(fs.early_reserve[fs.early_reserve.len() - 1].time.copy());
        }
        match self.first_real_time(f) {
            Some(t) => Some(t),
            None => if fs.late_reserve.len() > 0 {
                Some(fs.late_reserve[0].time.copy())
            } else {
                None
            },
        }
    }

    /// The time feed `f` is asked for later entries from.
    pub fn get_pivot_late(&self, f: usize) -> (r: Option<ChatTime>)
        requires
            f < self.feeds@.len(),
        ensures
            opt_time(r) == self.pivot_late(f as int),
    {
        let fs = &self.feeds[f];
        if fs.late_reserve.len() > 0 {
            return Some(fs.late_reserve[fs.late_reserve.len() - 1].time.copy());
        }
        match self.last_real_time(f) {
            Some(t) => Some(t),
            None => if fs.early_reserve.len() > 0 {
                Some(fs.early_reserve[0].time.copy())
            } else {
                None
            },
        }
    }

    /// Takes the answer of feed `f` to the first request, for entries around
    /// `pivot`. It counts only while the view is still at `pivot` and the
    /// feed has not answered yet. Then entries before the reset time go to
    /// the early reserve (nearest first), entries at it are realized (and
    /// the first realized entry becomes the anchor), later ones go to the
    /// late reserve; the feed's stop marks are set and its earliest known
    /// time lowered.
    pub fn respond_entries_around(
        &mut self,
        f: usize,
        pivot: &ChatTime,
        entries: Vec<Timed<E>>,
        early_stop: bool,
        late_stop: bool,
    )
        requires
            old(self).wf(),
            f < old(self).feeds@.len(),
        ensures
            final(self).wf(),
            final(self).want_sticky == old(self).want_sticky,
            old(self).ordered() && ascending(entries@) && (forall|k: int| 0 <= k < old(self).real@.len()
                ==> !time_lt(old(self).reset_time@, #[trigger] old(self).real@[k].entry.t())) ==> final(self).ordered(),
            ({
                let o = *old(self);
                let n = *final(self);
                let r = o.reset_time@;
                let fs = o.feeds@[f as int];
                let nf = n.feeds@[f as int];
                if pivot@ != r || !fs.initial {
                    n == o
                } else {
                    &&& n.others_same(o, f as int)
                    &&& n.reset_time == o.reset_time
                    &&& !nf.initial
                    &&& nf.early_reserve@ == fs.early_reserve@ + before_of(entries@, r).reverse()
                    &&& nf.late_reserve@ == fs.late_reserve@ + after_of(entries@, r)
                    &&& nf.early_stop == early_stop
                    &&& nf.late_stop == late_stop
                    &&& opt_time(nf.earliest_known) == min_times(opt_time(fs.earliest_known), entries@)
                    &&& n.real@ == o.real@ + placed_all(at_of(entries@, r), f)
                    &&& n.anchor == if at_of(entries@, r).len() > 0 { Some(0usize) } else { o.anchor }
                }
            }),
    {
        if !pivot.same(&self.reset_time) {
            return;
        }
        if !self.feeds[f].initial {
            return;
        }
        let ghost o = *self;
        let ghost r = self.reset_time@;
        let ghost es = entries@;
        let mut fs = self.feeds.remove(f);
        let ghost fs0 = fs;
        fs.initial = false;
        let mut entries = entries;
        let n_entries = entries.len();
        let mut prepend: Vec<Timed<E>> = Vec::new();
        let mut postpend: Vec<Timed<E>> = Vec::new();
        let mut i: usize = 0;
        while entries.len() > 0
            invariant
                self.want_sticky == o.want_sticky,
                i + entries@.len() == es.len(),
                es.len() == n_entries,
                entries@ == es.skip(i as int),
                self.reset_time == o.reset_time,
                r == o.reset_time@,
                self.feeds@ == o.feeds@.remove(f as int),
                f < o.feeds@.len(),
                prepend@ == before_of(es.take(i as int), r),
                postpend@ == after_of(es.take(i as int), r),
                self.real@ == o.real@ + placed_all(at_of(es.take(i as int), r), f),
                self.anchor == if at_of(es.take(i as int), r).len() > 0 { Some(0usize) } else { o.anchor },
                opt_time(fs.earliest_known) == min_times(opt_time(fs0.earliest_known), es.take(i as int)),
                fs.early_reserve@ == fs0.early_reserve@,
                fs.late_reserve@ == fs0.late_reserve@,
                !fs.initial,
                fs.early_stop == fs0.early_stop,
                fs.late_stop == fs0.late_stop,
            decreases entries@.len(),
        {
            let e = entries.remove(0);
            proof {
                assert(e == es[i as int]);
                assert(es.take(i + 1).drop_last() =~= es.take(i as int));
                assert(es.take(i + 1).last() == e);
            }
            fs.update_earliest_known(&e.time);
            fs.update_earliest_known(&e.time);
            proof {
                let k = min_time(opt_time(fs0.earliest_known), e.t());
                assert(min_time(min_time(min_times(opt_time(fs0.earliest_known), es.take(i as int)), e.t()), e.t())
                    == min_time(min_times(opt_time(fs0.earliest_known), es.take(i as int)), e.t())) by {
                    law_time_order(e.t(), e.t(), e.t());
                }
            }
            if e.time.before(&self.reset_time) {
                prepend.push(e);
            } else if e.time.same(&self.reset_time) {
                let ghost old_real = self.real@;
                self.real.push(Placed { feed: f, entry: e });
                self.anchor = Some(0);
                proof {
                    assert(self.real@ =~= o.real@ + placed_all(at_of(es.take(i + 1), r), f));
                }
            } else {
                postpend.push(e);
            }
            i = i + 1;
            proof {
                assert(entries@ =~= es.skip(i as int));
            }
        }
        proof {
            assert(es.take(i as int) =~= es);
        }
        let ghost pre = prepend@;
        while prepend.len() > 0
            invariant
                self.want_sticky == o.want_sticky,
                pre.len() >= prepend@.len(),
                prepend@ == pre.take(prepend@.len() as int),
                fs.early_reserve@ == fs0.early_reserve@ + pre.skip(prepend@.len() as int).reverse(),
                pre == before_of(es, r),
                postpend@ == after_of(es, r),
                self.reset_time == o.reset_time,
                r == o.reset_time@,
                self.feeds@ == o.feeds@.remove(f as int),
                f < o.feeds@.len(),
                self.real@ == o.real@ + placed_all(at_of(es, r), f),
                self.anchor == if at_of(es, r).len() > 0 { Some(0usize) } else { o.anchor },
                opt_time(fs.earliest_known) == min_times(opt_time(fs0.earliest_known), es),
                fs.late_reserve@ == fs0.late_reserve@,
                !fs.initial,
            decreases prepend@.len(),
        {
            let ghost j = prepend@.len();
            let x = prepend.pop().unwrap();
            fs.early_reserve.push(x);
            proof {
                assert(x == pre[j - 1]);
                assert(prepend@ =~= pre.take(j - 1));
                assert(pre.skip(j - 1).reverse() =~= pre.skip(j as int).reverse().push(x));
            }
        }
        proof {
            assert(pre.skip(0) =~= pre);
        }
        fs.late_reserve.append(&mut postpend);
        fs.early_stop = early_stop;
        fs.late_stop = late_stop;
        self.feeds.insert(f, fs);
        proof {
            assert(self.feeds@ =~= o.feeds@.update(f as int, fs));
            let n = *self;
            assert forall|k: int| 0 <= k < n.real@.len() implies #[trigger] n.real@[k].feed < n.feeds@.len() by {
                if k < o.real@.len() {
                    assert(n.real@[k] == o.real@[k]);
                }
            }
            assert forall|g: int| 0 <= g < n.feeds@.len() && #[trigger] n.has_entries(g) implies n.feeds@[g].earliest_known is Some by {
                if g == f && es.len() > 0 {
                    lemma_min_times_some(opt_time(fs0.earliest_known), es);
                } else {
                    if g == f {
                        assert(before_of(es, r).reverse() =~= Seq::<Timed<E>>::empty());
                        assert(after_of(es, r) =~= Seq::<Timed<E>>::empty());
                        assert(at_of(es, r).len() == 0);
                        assert(n.real@ =~= o.real@);
                        assert(n.feeds@[g].early_reserve@ =~= o.feeds@[g].early_reserve@);
                        assert(n.feeds@[g].late_reserve@ =~= o.feeds@[g].late_reserve@);
                    } else {
                        assert(n.feeds@[g] == o.feeds@[g]);
                    }
                    if exists|k: int| 0 <= k < n.real@.len() && #[trigger] n.real@[k].feed == g {
                        let k = choose|k: int| 0 <= k < n.real@.len() && #[trigger] n.real@[k].feed == g;
                        if k >= o.real@.len() {
                            assert(n.real@[k].feed == f);
                        } else {
                            assert(n.real@[k] == o.real@[k]);
                            assert(o.real@[k].feed == g);
                        }
                    }
                    assert(o.has_entries(g));
                }
            }
        }
        proof {
            let n = *self;
            if o.ordered() && ascending(es) && (forall|k: int| 0 <= k < o.real@.len()
                ==> !time_lt(r, #[trigger] o.real@[k].entry.t())) {
                let at = at_of(es, r);
                lemma_at_of_at(es, r);
                assert forall|i: int, j: int| 0 <= i < j < n.real@.len() implies !time_lt(#[trigger] n.real@[j].entry.t(), #[trigger] n.real@[i].entry.t()) by {
                    law_time_order(r, r, r);
                    if j < o.real@.len() {
                        assert(n.real@[i] == o.real@[i] && n.real@[j] == o.real@[j]);
                    } else if i >= o.real@.len() {
                        assert(n.real@[i].entry == at[i - o.real@.len()]);
                        assert(n.real@[j].entry == at[j - o.real@.len()]);
                    } else {
                        assert(n.real@[i] == o.real@[i]);
                        assert(n.real@[j].entry == at[j - o.real@.len()]);
                    }
                }
                assert(o.line(f as int).len() == 0);
                lemma_partition_sorted(es, r);
                assert forall|g: int| 0 <= g < n.feeds@.len() implies #[trigger] n.line(g) == if g == f { es } else { o.line(g) } by {
                    lemma_of_feed_add(o.real@, placed_all(at, f), g);
                    lemma_of_feed_placed(at, f, g);
                    if g == f {
                        assert(fs0.early_reserve@ =~= Seq::<Timed<E>>::empty());
                        assert(fs0.late_reserve@ =~= Seq::<Timed<E>>::empty());
                        assert(of_feed(o.real@, g) =~= Seq::<Timed<E>>::empty());
                        assert(n.line(g) =~= before_of(es, r) + at + after_of(es, r));
                    } else {
                        assert(n.feeds@[g] == o.feeds@[g]);
                        assert(of_feed(o.real@, g) + Seq::<Timed<E>>::empty() =~= of_feed(o.real@, g));
                    }
                }
                assert forall|g: int| 0 <= g < n.feeds@.len() implies ascending(#[trigger] n.line(g)) by {
                    assert(n.line(g) == if g == f { es } else { o.line(g) });
                }
                assert forall|g: int| 0 <= g < n.feeds@.len() && (#[trigger] n.feeds@[g]).initial implies n.line(g).len() == 0 by {
                    assert(n.line(g) == if g == f { es } else { o.line(g) });
                    if g != f {
                        assert(n.feeds@[g] == o.feeds@[g]);
                    }
                }
            }
        }
    }

    /// Takes the answer of feed `f` to a request for entries before
    /// `initial_pivot`: the entries, latest first. It counts only when the
    /// feed's early pivot is still `initial_pivot`. An empty answer only sets
    /// the early stop mark to `stop`. Otherwise the entries join the early
    /// reserve, the earliest known time is lowered, and the stop mark is set
    /// from `stop`; but when the feed knows of an earlier entry (its earliest
    /// known time is neither the pivot nor among the answer), it is not
    /// stopped.
    pub fn respond_entries_before(
        &mut self,
        f: usize,
        initial_pivot: &ChatTime,
        entries: Vec<Timed<E>>,
        stop: bool,
    )
        requires
            old(self).wf(),
            f < old(self).feeds@.len(),
            descending_below(entries@, initial_pivot@),
        ensures
            final(self).wf(),
            final(self).want_sticky == old(self).want_sticky,
            old(self).ordered() ==> final(self).ordered(),
            ({
                let o = *old(self);
                let n = *final(self);
                let fs = o.feeds@[f as int];
                let nf = n.feeds@[f as int];
                if o.pivot_early(f as int) != Some(initial_pivot@) {
                    n == o
                } else {
                    let ek = opt_time(fs.earliest_known)->0;
                    let stop2 = if entries@.len() > 0 && initial_pivot@ != ek && (forall|i: int|
                        0 <= i < entries@.len() ==> #[trigger] entries@[i].t() != ek) {
                        false
                    } else {
                        stop
                    };
                    &&& fs.earliest_known is Some
                    &&& n.others_same(o, f as int)
                    &&& n.reset_time == o.reset_time
                    &&& n.real == o.real
                    &&& n.anchor == o.anchor
                    &&& nf.initial == fs.initial
                    &&& nf.early_reserve@ == fs.early_reserve@ + entries@
                    &&& nf.late_reserve@ == fs.late_reserve@
                    &&& nf.early_stop == stop2
                    &&& nf.late_stop == fs.late_stop
                    &&& opt_time(nf.earliest_known) == if entries@.len() == 0 {
                        Some(ek)
                    } else {
                        min_time(Some(ek), entries@.last().t())
                    }
                }
            }),
    {
        if entries.len() == 0 {
            let current = self.get_pivot_early(f);
            match &current {
                Some(c) => {
                    if !c.same(initial_pivot) {
                        return;
                    }
                },
                None => {
                    return;
                },
            }
            proof {
                self.lemma_pivot_early_has_entries(f as int);
            }
            self.set_stop(f, true, stop);
            return;
        }
        let current = self.get_pivot_early(f);
        match &current {
            Some(c) => {
                if !c.same(initial_pivot) {
                    return;
                }
            },
            None => {
                return;
            },
        }
        let ghost o = *self;
        let ghost es0 = entries@;
        proof {
            self.lemma_pivot_early_has_entries(f as int);
        }
        let mut fs = self.feeds.remove(f);
        let ghost fs0 = fs;
        let mut stop = stop;
        let ek = match &fs.earliest_known {
            Some(k) => k.copy(),
            None => {
                return;
            },
        };
        if !initial_pivot.same(&ek) {
            let mut all_differ = true;
            let mut i: usize = 0;
            while i < entries.len()
                invariant
                    i <= entries@.len(),
                    all_differ <==> (forall|j: int| 0 <= j < i ==> #[trigger] entries@[j].t() != ek@),
                decreases entries@.len() - i,
            {
                let sm = entries[i].time.same(&ek);
                if sm {
                    all_differ = false;
                }
                proof {
                    if sm {
                        assert(entries@[i as int].t() == ek@);
                    }
                }
                i = i + 1;
            }
            if all_differ {
                stop = false;
            }
        }
        let last = entries.len() - 1;
        fs.update_earliest_known(&entries[last].time);
        let mut entries = entries;
        fs.early_reserve.append(&mut entries);
        fs.early_stop = stop;
        self.feeds.insert(f, fs);
        proof {
            assert(self.feeds@ =~= o.feeds@.update(f as int, fs));
            let n = *self;
            assert forall|g: int| 0 <= g < n.feeds@.len() && #[trigger] n.has_entries(g) implies n.feeds@[g].earliest_known is Some by {
                if g != f {
                    assert(o.has_entries(g));
                }
            }
            if o.ordered() {
                o.lemma_pivots_line(f as int);
                let ol = o.line(f as int);
                lemma_descending_reverse(es0, initial_pivot@);
                let er = o.feeds@[f as int].early_reserve@;
                assert((er + es0).reverse() =~= es0.reverse() + er.reverse());
                assert(n.line(f as int) =~= es0.reverse() + ol);
                assert(es0.reverse().last() == es0[0]);
                assert(time_lt(es0[0].t(), initial_pivot@));
                lemma_ascending_concat(es0.reverse(), ol);
                Self::lemma_ordered_one_feed(o, n, f as int);
            }
        }
    }

    /// Sets feed `f`'s stop mark at its early end (`early`) or late end.
    fn set_stop(&mut self, f: usize, early: bool, stop: bool)
        requires
            old(self).wf(),
            f < old(self).feeds@.len(),
        ensures
            final(self).wf(),
            final(self).want_sticky == old(self).want_sticky,
            final(self).others_same(*old(self), f as int),
            final(self).real == old(self).real,
            final(self).anchor == old(self).anchor,
            final(self).reset_time == old(self).reset_time,
            final(self).feeds@[f as int].initial == old(self).feeds@[f as int].initial,
            final(self).feeds@[f as int].early_reserve == old(self).feeds@[f as int].early_reserve,
            final(self).feeds@[f as int].late_reserve == old(self).feeds@[f as int].late_reserve,
            final(self).feeds@[f as int].earliest_known == old(self).feeds@[f as int].earliest_known,
            final(self).feeds@[f as int].early_stop == if early { stop } else { old(self).feeds@[f as int].early_stop },
            final(self).feeds@[f as int].late_stop == if early { old(self).feeds@[f as int].late_stop } else { stop },
            old(self).ordered() ==> final(self).ordered(),
    {
        let ghost o = *self;
        let mut fs = self.feeds.remove(f);
        if early {
            fs.early_stop = stop;
        } else {
            fs.late_stop = stop;
        }
        self.feeds.insert(f, fs);
        proof {
            assert(self.feeds@ =~= o.feeds@.update(f as int, fs));
            assert forall|h: int| 0 <= h < self.feeds@.len() && #[trigger] self.has_entries(h) implies self.feeds@[h].earliest_known is Some by {
                assert(o.has_entries(h));
            }
            if o.ordered() {
                assert(self.line(f as int) == o.line(f as int));
                Self::lemma_ordered_one_feed(o, *self, f as int);
            }
        }
    }

    proof fn lemma_pivot_early_has_entries(self, f: int)
        requires
            self.wf(),
            0 <= f < self.feeds@.len(),
            self.pivot_early(f) is Some,
        ensures
            self.has_entries(f),
            self.feeds@[f].earliest_known is Some,
    {
        if self.feeds@[f].early_reserve@.len() == 0 && self.feeds@[f].late_reserve@.len() == 0 {
            let k = lemma_first_real_found(self.real@, f);
            assert(self.real@[k].feed == f);
        }
        assert(self.has_entries(f));
    }

    proof fn lemma_pivot_late_has_entries(self, f: int)
        requires
            self.wf(),
            0 <= f < self.feeds@.len(),
            self.pivot_late(f) is Some,
        ensures
            self.has_entries(f),
            self.feeds@[f].earliest_known is Some,
    {
        if self.feeds@[f].early_reserve@.len() == 0 && self.feeds@[f].late_reserve@.len() == 0 {
            let k = lemma_last_real_found(self.real@, f);
            assert(self.real@[k].feed == f);
        }
        assert(self.has_entries(f));
    }

    fn scan_position(&self, from: usize, t: &ChatTime) -> (pos: usize)
        ensures
            pos == scan_pos(self.real@, from as int, self.real@.len() as int, t@),
            pos <= self.real@.len(),
    {
        let mut hi = self.real.len();
        while hi > from
            invariant
                hi <= self.real@.len(),
                scan_pos(self.real@, from as int, self.real@.len() as int, t@)
                    == scan_pos(self.real@, from as int, hi as int, t@),
            decreases hi,
        {
            if self.real[hi - 1].entry.time.before(t) {
                return hi;
            }
            hi = hi - 1;
        }
        0
    }

    /// Takes the answer of feed `f` to a request for entries after
    /// `initial_pivot`: the entries, earliest first. It counts only when the
    /// feed's late pivot is still `initial_pivot`. An empty answer only sets
    /// the feed's late stop mark to `stop`.
    ///
    /// When the feed has a late reserve, the entries join it, up to
    /// `MAX_RESERVE` entries; the rest are dropped and then the feed is not
    /// stopped. Otherwise the entries before the latest realized entry are
    /// sorted into the realized entries (see `sort_in`), and the rest are
    /// realized at the end when no feed has a late reserve or more to come,
    /// else they join the (empty) late reserve as above. Gives where each
    /// entry went.
    pub fn respond_entries_after(
        &mut self,
        f: usize,
        initial_pivot: &ChatTime,
        entries: Vec<Timed<E>>,
        stop: bool,
    ) -> (placements: Vec<Placement>)
        requires
            old(self).wf(),
            f < old(self).feeds@.len(),
            ascending_above(entries@, initial_pivot@),
            entries@.len() > 0 && old(self).pivot_late(f as int) == Some(initial_pivot@)
                && old(self).feeds@[f as int].late_reserve@.len() == 0 ==> old(self).real@.len() > 0,
        ensures
            final(self).wf(),
            final(self).want_sticky == old(self).want_sticky,
            old(self).ordered() ==> final(self).ordered(),
            in_order(old(self).real@) ==> in_order(final(self).real@),
            ({
                let o = *old(self);
                let n = *final(self);
                let es = entries@;
                let fs = o.feeds@[f as int];
                let nf = n.feeds@[f as int];
                if o.pivot_late(f as int) != Some(initial_pivot@) {
                    n == o && placements@.len() == 0
                } else if es.len() == 0 {
                    &&& n.others_same(o, f as int)
                    &&& n.reset_time == o.reset_time
                    &&& n.real == o.real
                    &&& n.anchor == o.anchor
                    &&& nf.initial == fs.initial
                    &&& nf.early_reserve == fs.early_reserve
                    &&& nf.late_reserve == fs.late_reserve
                    &&& nf.early_stop == fs.early_stop
                    &&& nf.earliest_known == fs.earliest_known
                    &&& nf.late_stop == stop
                    &&& placements@.len() == 0
                } else {
                    &&& n.others_same(o, f as int)
                    &&& n.reset_time == o.reset_time
                    &&& nf.initial == fs.initial
                    &&& nf.early_stop == fs.early_stop
                    &&& nf.earliest_known == fs.earliest_known
                    &&& if fs.late_reserve@.len() > 0 {
                        let k = room(fs.late_reserve@.len() as int, es.len() as int);
                        &&& n.real == o.real
                        &&& n.anchor == o.anchor
                        &&& nf.early_reserve == fs.early_reserve
                        &&& nf.late_reserve@ == fs.late_reserve@ + es.take(k)
                        &&& nf.late_stop == if k < es.len() { false } else { stop }
                        &&& placements@ == placements_kept(k, es.len() as int)
                    } else {
                        let latest = o.real@.last().entry.t();
                        let m = prefix_before(es, latest);
                        let st = sort_in((o.real@, o.anchor->0 as int, fs.early_reserve@, 0, seq![]), es.take(m), f);
                        let rest = es.skip(m);
                        let all_done = (forall|g: int| 0 <= g < o.feeds@.len() ==> #[trigger] o.feeds@[g].late_stop)
                            && (forall|g: int| 0 <= g < o.feeds@.len() ==> #[trigger] o.feeds@[g].late_reserve@.len() == 0);
                        &&& nf.early_reserve@ == st.2
                        &&& if all_done {
                            &&& n.real@ == st.0 + placed_all(rest, f)
                            &&& n.anchor == Some((if st.1 == st.0.len() - 1 { st.1 + rest.len() } else { st.1 }) as usize)
                            &&& nf.late_reserve@.len() == 0
                            &&& nf.late_stop == stop
                            &&& placements@ == st.4 + placements_realized(st.0.len() as int, rest.len() as int)
                        } else {
                            let k = room(0, rest.len() as int);
                            &&& n.real@ == st.0
                            &&& n.anchor == Some(st.1 as usize)
                            &&& nf.late_reserve@ == rest.take(k)
                            &&& nf.late_stop == if k < rest.len() { false } else { stop }
                            &&& placements@ == st.4 + placements_kept(k, rest.len() as int)
                        }
                    }
                }
            }),
    {
        let mut placements: Vec<Placement> = Vec::new();
        if entries.len() == 0 {
            match self.get_pivot_late(f) {
                Some(c) => {
                    if c.same(initial_pivot) {
                        self.set_stop(f, false, stop);
                    }
                },
                None => {},
            }
            return placements;
        }
        match self.get_pivot_late(f) {
            Some(c) => {
                if !c.same(initial_pivot) {
                    return placements;
                }
            },
            None => {
                return placements;
            },
        }
        let ghost o = *self;
        let ghost es = entries@;
        proof {
            self.lemma_pivot_late_has_entries(f as int);
        }
        let mut all_stopped = true;
        let mut all_reserve_empty = true;
        let mut g: usize = 0;
        while g < self.feeds.len()
            invariant
                self.want_sticky == o.want_sticky,
                g <= self.feeds@.len(),
                all_stopped <==> (forall|h: int| 0 <= h < g ==> #[trigger] self.feeds@[h].late_stop),
                all_reserve_empty <==> (forall|h: int| 0 <= h < g ==> #[trigger] self.feeds@[h].late_reserve@.len() == 0),
            decreases self.feeds@.len() - g,
        {
            if !self.feeds[g].late_stop {
                all_stopped = false;
            }
            if self.feeds[g].late_reserve.len() != 0 {
                all_reserve_empty = false;
            }
            g = g + 1;
        }
        let mut fs = self.feeds.remove(f);
        let ghost fs0 = fs;
        let mut stop = stop;
        let mut entries = entries;
        if fs.late_reserve.len() > 0 {
            add_to_late(&mut fs.late_reserve, entries, &mut stop, &mut placements);
            fs.late_stop = stop;
            self.feeds.insert(f, fs);
            proof {
                assert(self.feeds@ =~= o.feeds@.update(f as int, fs));
                let n = *self;
                assert forall|h: int| 0 <= h < n.feeds@.len() && #[trigger] n.has_entries(h) implies n.feeds@[h].earliest_known is Some by {
                    if h != f {
                        assert(o.has_entries(h));
                    }
                }
                if o.ordered() {
                    Self::lemma_after_keeps_order(o, n, f, initial_pivot@, es, stop);
                }
            }
            return placements;
        }
        let latest = self.real[self.real.len() - 1].entry.time.copy();
        let ghost st0: SortIn<E> = (o.real@, o.anchor->0 as int, fs0.early_reserve@, 0, seq![]);
        let mut anchor: usize = match self.anchor {
            Some(a) => a,
            None => 0,
        };
        let mut last: usize = 0;
        let mut i: usize = 0;
        let n_entries = entries.len();
        while entries.len() > 0 && entries[0].time.before(&latest)
            invariant
                self.want_sticky == o.want_sticky,
                i + entries@.len() == es.len(),
                es.len() == n_entries,
                entries@ == es.skip(i as int),
                forall|j: int| 0 <= j < i ==> time_lt(#[trigger] es[j].t(), latest@),
                latest@ == o.real@.last().entry.t(),
                o.real@.len() > 0,
                o.anchor is Some,
                ({
                    let st = sort_in(st0, es.take(i as int), f);
                    &&& self.real@ == st.0
                    &&& anchor as int == st.1
                    &&& fs.early_reserve@ == st.2
                    &&& last as int == st.3
                    &&& placements@ == st.4
                }),
                anchor < self.real@.len(),
                forall|k: int| 0 <= k < self.real@.len() ==> #[trigger] self.real@[k].feed < o.feeds@.len(),
                f < o.feeds@.len(),
                self.feeds@ == o.feeds@.remove(f as int),
                self.reset_time == o.reset_time,
                fs.initial == fs0.initial,
                fs.early_stop == fs0.early_stop,
                fs.late_stop == fs0.late_stop,
                fs.earliest_known == fs0.earliest_known,
                fs.late_reserve@.len() == 0,
            decreases entries@.len(),
        {
            let e = entries.remove(0);
            proof {
                assert(e == es[i as int]);
                assert(es.take(i + 1).drop_last() =~= es.take(i as int));
                assert(es.take(i + 1).last() == e);
            }
            let pos = self.scan_position(last, &e.time);
            last = pos;
            if pos == 0 {
                fs.early_reserve.insert(0, e);
                placements.push(Placement::EarlyFront);
                proof {
                    assert(fs.early_reserve@ =~= seq![e] + sort_in(st0, es.take(i as int), f).2);
                }
            } else {
                self.real.insert(pos, Placed { feed: f, entry: e });
                let len_now = self.real.len();
                if pos <= anchor {
                    anchor = anchor + 1;
                }
                placements.push(Placement::Realized(pos));
            }
            i = i + 1;
            proof {
                assert(entries@ =~= es.skip(i as int));
            }
        }
        proof {
            lemma_prefix_before(es, latest@, i as int);
            if in_order(o.real@) {
                assert forall|j: int| 0 <= j < es.take(i as int).len() implies time_lt(#[trigger] es.take(i as int)[j].t(), latest@) by {
                    assert(es.take(i as int)[j] == es[j]);
                }
                lemma_sort_in_order(st0, es.take(i as int), f, latest@);
            }
        }
        let ghost st = sort_in(st0, es.take(i as int), f);
        if all_stopped && all_reserve_empty {
            let ghost start = self.real@.len();
            let ghost a0 = anchor;
            let len0 = self.real.len();
            let follows = anchor + 1 == len0;
            let mut j: usize = 0;
            while entries.len() > 0
                invariant
                    self.want_sticky == o.want_sticky,
                    j + entries@.len() == es.len() - i,
                    entries@ == es.skip(i as int).skip(j as int),
                    self.real@ == st.0 + placed_all(es.skip(i as int).take(j as int), f),
                    start == st.0.len(),
                    a0 == st.1,
                    a0 < start,
                    es.len() == n_entries,
                    i <= es.len(),
                    self.feeds@ == o.feeds@.remove(f as int),
                    self.reset_time == o.reset_time,
                    follows == (st.1 == st.0.len() - 1),
                    anchor == if follows { a0 + j } else { a0 as int },
                    anchor < self.real@.len(),
                    placements@ == st.4 + placements_realized(start as int, j as int),
                    forall|k: int| 0 <= k < self.real@.len() ==> #[trigger] self.real@[k].feed < o.feeds@.len(),
                    f < o.feeds@.len(),
                decreases entries@.len(),
            {
                let e = entries.remove(0);
                let len = self.real.len();
                if anchor + 1 == len {
                    anchor = anchor + 1;
                }
                placements.push(Placement::Realized(len));
                self.real.push(Placed { feed: f, entry: e });
                proof {
                    let rest = es.skip(i as int);
                    assert(e == rest[j as int]);
                    assert(rest.take(j + 1) =~= rest.take(j as int).push(e));
                    assert(self.real@ =~= st.0 + placed_all(rest.take(j + 1), f));
                    assert(placements@ =~= st.4 + placements_realized(start as int, j + 1));
                    assert(entries@ =~= rest.skip(j + 1));
                }
                j = j + 1;
            }
            proof {
                assert(es.skip(i as int).take(j as int) =~= es.skip(i as int));
                if in_order(o.real@) {
                    let rest = es.skip(i as int);
                    assert forall|a: int, b: int| 0 <= a < b < rest.len() implies time_lt(rest[a].t(), rest[b].t()) by {
                        assert(rest[a] == es[i + a]);
                        assert(rest[b] == es[i + b]);
                    }
                    if rest.len() > 0 {
                        assert(rest[0] == es[i as int]);
                    }
                    lemma_append_order(st.0, rest, f);
                }
            }
        } else {
            proof {
                assert(entries@ =~= es.skip(i as int));
            }
            add_to_late(&mut fs.late_reserve, entries, &mut stop, &mut placements);
        }
        self.anchor = Some(anchor);
        fs.late_stop = stop;
        self.feeds.insert(f, fs);
        proof {
            assert(self.feeds@ =~= o.feeds@.update(f as int, fs));
            let n = *self;
            assert forall|h: int| 0 <= h < n.feeds@.len() && #[trigger] n.has_entries(h) implies n.feeds@[h].earliest_known is Some by {
                if h != f {
                    if exists|k: int| 0 <= k < n.real@.len() && #[trigger] n.real@[k].feed == h {
                        let k = choose|k: int| 0 <= k < n.real@.len() && #[trigger] n.real@[k].feed == h;
                        lemma_sort_in_feeds(st0, es.take(i as int), f, k, h);
                    }
                    assert(o.has_entries(h));
                }
            }
            if o.ordered() {
                Self::lemma_after_keeps_order(o, n, f, initial_pivot@, es, stop);
            }
        }
        placements
    }

    /// The feed whose early reserve gives the next entry to realize before
    /// the realized ones: the one whose nearest entry is latest (the first
    /// such feed on ties); but if some feed has an empty early reserve and
    /// is not stopped, wait for it; and if every early reserve is empty,
    /// there is nothing more.
    pub fn pick_early(&self) -> (r: Pick)
        ensures
            if exists|g: int| 0 <= g < self.feeds@.len() && #[trigger] self.feeds@[g].early_reserve@.len() == 0 && !self.feeds@[g].early_stop {
                r == Pick::Pending
            } else if forall|g: int| 0 <= g < self.feeds@.len() ==> #[trigger] self.feeds@[g].early_reserve@.len() == 0 {
                r == Pick::Exhausted
            } else {
                r matches Pick::Feed(i) && i < self.feeds@.len() && self.feeds@[i as int].early_reserve@.len() > 0
                    && (forall|g: int| 0 <= g < self.feeds@.len() && #[trigger] self.feeds@[g].early_reserve@.len() > 0
                        ==> !time_lt(self.feeds@[i as int].early_reserve@[0].t(), self.feeds@[g].early_reserve@[0].t()))
                    && (forall|g: int| 0 <= g < i && #[trigger] self.feeds@[g].early_reserve@.len() > 0
                        ==> time_lt(self.feeds@[g].early_reserve@[0].t(), self.feeds@[i as int].early_reserve@[0].t()))
            },
    {
        let mut best: Option<usize> = None;
        let mut g: usize = 0;
        while g < self.feeds.len()
            invariant
                g <= self.feeds@.len(),
                forall|h: int| 0 <= h < g ==> !(#[trigger] self.feeds@[h].early_reserve@.len() == 0 && !self.feeds@[h].early_stop),
                match best {
                    None => forall|h: int| 0 <= h < g ==> #[trigger] self.feeds@[h].early_reserve@.len() == 0,
                    Some(i) => i < g && self.feeds@[i as int].early_reserve@.len() > 0
                        && (forall|h: int| 0 <= h < g && #[trigger] self.feeds@[h].early_reserve@.len() > 0
                            ==> !time_lt(self.feeds@[i as int].early_reserve@[0].t(), self.feeds@[h].early_reserve@[0].t()))
                        && (forall|h: int| 0 <= h < i && #[trigger] self.feeds@[h].early_reserve@.len() > 0
                            ==> time_lt(self.feeds@[h].early_reserve@[0].t(), self.feeds@[i as int].early_reserve@[0].t())),
                },
            decreases self.feeds@.len() - g,
        {
            let fs = &self.feeds[g];
            if fs.early_reserve.len() == 0 {
                if !fs.early_stop {
                    return Pick::Pending;
                }
            } else {
                match best {
                    None => {
                        best = Some(g);
                    },
                    Some(i) => {
                        if self.feeds[i].early_reserve[0].time.before(&fs.early_reserve[0].time) {
                            proof {
                                let ti = self.feeds@[i as int].early_reserve@[0].t();
                                let tg = self.feeds@[g as int].early_reserve@[0].t();
                                assert forall|h: int| 0 <= h < g + 1 && #[trigger] self.feeds@[h].early_reserve@.len() > 0
                                    implies !time_lt(tg, self.feeds@[h].early_reserve@[0].t()) by {
                                    let th = self.feeds@[h].early_reserve@[0].t();
                                    law_time_order(tg, ti, th);
                                    law_time_order(ti, th, tg);
                                    law_time_order(th, tg, ti);
                                    law_time_order(tg, th, ti);
                                }
                                assert forall|h: int| 0 <= h < g && #[trigger] self.feeds@[h].early_reserve@.len() > 0
                                    implies time_lt(self.feeds@[h].early_reserve@[0].t(), tg) by {
                                    let th = self.feeds@[h].early_reserve@[0].t();
                                    law_time_order(th, ti, tg);
                                    law_time_order(ti, th, tg);
                                    if th != ti {
                                        law_time_order(th, ti, th);
                                    }
                                }
                            }
                            best = Some(g);
                        } else {
                            proof {
                                let ti = self.feeds@[i as int].early_reserve@[0].t();
                                let tg = self.feeds@[g as int].early_reserve@[0].t();
                                law_time_order(ti, tg, ti);
                            }
                        }
                    },
                }
            }
            g = g + 1;
        }
        match best {
            None => Pick::Exhausted,
            Some(i) => Pick::Feed(i),
        }
    }

    /// The feed whose late reserve gives the next entry to realize after the
    /// realized ones: the one whose nearest entry is earliest (the first
    /// such feed on ties); waiting and exhaustion as for `pick_early`.
    pub fn pick_late(&self) -> (r: Pick)
        ensures
            if exists|g: int| 0 <= g < self.feeds@.len() && #[trigger] self.feeds@[g].late_reserve@.len() == 0 && !self.feeds@[g].late_stop {
                r == Pick::Pending
            } else if forall|g: int| 0 <= g < self.feeds@.len() ==> #[trigger] self.feeds@[g].late_reserve@.len() == 0 {
                r == Pick::Exhausted
            } else {
                r matches Pick::Feed(i) && i < self.feeds@.len() && self.feeds@[i as int].late_reserve@.len() > 0
                    && (forall|g: int| 0 <= g < self.feeds@.len() && #[trigger] self.feeds@[g].late_reserve@.len() > 0
                        ==> !time_lt(self.feeds@[g].late_reserve@[0].t(), self.feeds@[i as int].late_reserve@[0].t()))
                    && (forall|g: int| 0 <= g < i && #[trigger] self.feeds@[g].late_reserve@.len() > 0
                        ==> time_lt(self.feeds@[i as int].late_reserve@[0].t(), self.feeds@[g].late_reserve@[0].t()))
            },
    {
        let mut best: Option<usize> = None;
        let mut g: usize = 0;
        while g < self.feeds.len()
            invariant
                g <= self.feeds@.len(),
                forall|h: int| 0 <= h < g ==> !(#[trigger] self.feeds@[h].late_reserve@.len() == 0 && !self.feeds@[h].late_stop),
                match best {
                    None => forall|h: int| 0 <= h < g ==> #[trigger] self.feeds@[h].late_reserve@.len() == 0,
                    Some(i) => i < g && self.feeds@[i as int].late_reserve@.len() > 0
                        && (forall|h: int| 0 <= h < g && #[trigger] self.feeds@[h].late_reserve@.len() > 0
                            ==> !time_lt(self.feeds@[h].late_reserve@[0].t(), self.feeds@[i as int].late_reserve@[0].t()))
                        && (forall|h: int| 0 <= h < i && #[trigger] self.feeds@[h].late_reserve@.len() > 0
                            ==> time_lt(self.feeds@[i as int].late_reserve@[0].t(), self.feeds@[h].late_reserve@[0].t())),
                },
            decreases self.feeds@.len() - g,
        {
            let fs = &self.feeds[g];
            if fs.late_reserve.len() == 0 {
                if !fs.late_stop {
                    return Pick::Pending;
                }
            } else {
                match best {
                    None => {
                        best = Some(g);
                    },
                    Some(i) => {
                        if fs.late_reserve[0].time.before(&self.feeds[i].late_reserve[0].time) {
                            proof {
                                let ti = self.feeds@[i as int].late_reserve@[0].t();
                                let tg = self.feeds@[g as int].late_reserve@[0].t();
                                assert forall|h: int| 0 <= h < g + 1 && #[trigger] self.feeds@[h].late_reserve@.len() > 0
                                    implies !time_lt(self.feeds@[h].late_reserve@[0].t(), tg) by {
                                    let th = self.feeds@[h].late_reserve@[0].t();
                                    law_time_order(th, tg, ti);
                                    law_time_order(tg, ti, th);
                                    law_time_order(ti, th, tg);
                                    law_time_order(th, ti, tg);
                                }
                                assert forall|h: int| 0 <= h < g && #[trigger] self.feeds@[h].late_reserve@.len() > 0
                                    implies time_lt(tg, self.feeds@[h].late_reserve@[0].t()) by {
                                    let th = self.feeds@[h].late_reserve@[0].t();
                                    law_time_order(tg, ti, th);
                                    law_time_order(tg, th, ti);
                                    if th != ti {
                                        law_time_order(th, ti, th);
                                    }
                                }
                            }
                            best = Some(g);
                        } else {
                            proof {
                                let ti = self.feeds@[i as int].late_reserve@[0].t();
                                let tg = self.feeds@[g as int].late_reserve@[0].t();
                                law_time_order(ti, tg, ti);
                            }
                        }
                    },
                }
            }
            g = g + 1;
        }
        match best {
            None => Pick::Exhausted,
            Some(i) => Pick::Feed(i),
        }
    }

    /// Takes the nearest entry of feed `g`'s early reserve, to be realized.
    pub fn take_early(&mut self, g: usize) -> (p: Placed<E>)
        requires
            old(self).wf(),
            g < old(self).feeds@.len(),
            old(self).feeds@[g as int].early_reserve@.len() > 0,
        ensures
            final(self).wf(),
            final(self).want_sticky == old(self).want_sticky,
            p == (Placed { feed: g, entry: old(self).feeds@[g as int].early_reserve@[0] }),
            final(self).feeds@[g as int].early_reserve@ == old(self).feeds@[g as int].early_reserve@.drop_first(),
            old(self).ordered() ==> final(self).ordered(),
            forall|re: Seq<Placed<E>>, rl: Seq<Placed<E>>, h: int| 0 <= h < final(self).feeds@.len() ==>
                #[trigger] final(self).line_with(h, re.push(p), rl) == old(self).line_with(h, re, rl),
            final(self).feeds@[g as int].late_reserve == old(self).feeds@[g as int].late_reserve,
            final(self).feeds@[g as int].initial == old(self).feeds@[g as int].initial,
            final(self).feeds@[g as int].early_stop == old(self).feeds@[g as int].early_stop,
            final(self).feeds@[g as int].late_stop == old(self).feeds@[g as int].late_stop,
            final(self).feeds@[g as int].earliest_known == old(self).feeds@[g as int].earliest_known,
            final(self).feeds@[g as int].earliest_known is Some,
            final(self).others_same(*old(self), g as int),
            final(self).real == old(self).real,
            final(self).anchor == old(self).anchor,
            final(self).reset_time == old(self).reset_time,
    {
        let ghost o = *self;
        proof {
            assert(o.has_entries(g as int));
        }
        let mut fs = self.feeds.remove(g);
        let e = fs.early_reserve.remove(0);
        self.feeds.insert(g, fs);
        proof {
            assert(self.feeds@ =~= o.feeds@.update(g as int, fs));
            assert forall|h: int| 0 <= h < self.feeds@.len() && #[trigger] self.has_entries(h) implies self.feeds@[h].earliest_known is Some by {
                if h != g {
                    assert(o.has_entries(h));
                }
            }
        }
        proof {
            let n = *self;
            let p = Placed { feed: g, entry: e };
            let er = o.feeds@[g as int].early_reserve@;
            assert(e == er[0]);
            if o.ordered() {
                let ol = o.line(g as int);
                assert(er.drop_first().reverse() =~= er.reverse().drop_last());
                assert(n.line(g as int) =~= ol.remove(er.len() - 1));
                lemma_ascending_remove(ol, er.len() - 1);
                if n.feeds@[g as int].initial {
                    assert(ol.len() > 0);
                }
                Self::lemma_ordered_one_feed(o, n, g as int);
            }
            assert forall|re: Seq<Placed<E>>, rl: Seq<Placed<E>>, h: int| 0 <= h < n.feeds@.len() implies
                #[trigger] n.line_with(h, re.push(p), rl) == o.line_with(h, re, rl) by {
                let m = re.reverse() + o.real@ + rl;
                assert(re.push(p).reverse() + n.real@ + rl =~= seq![p] + m);
                lemma_of_feed_add(seq![p], m, h);
                lemma_of_feed_one(p, h);
                if h == g {
                    assert(er.reverse() =~= er.drop_first().reverse().push(e));
                    assert(n.line_with(h, re.push(p), rl) =~= o.line_with(h, re, rl));
                } else {
                    assert(n.feeds@[h] == o.feeds@[h]);
                    assert(of_feed(seq![p] + m, h) =~= of_feed(m, h));
                }
            }
        }
        Placed { feed: g, entry: e }
    }

    /// Takes the nearest entry of feed `g`'s late reserve, to be realized.
    pub fn take_late(&mut self, g: usize) -> (p: Placed<E>)
        requires
            old(self).wf(),
            g < old(self).feeds@.len(),
            old(self).feeds@[g as int].late_reserve@.len() > 0,
        ensures
            final(self).wf(),
            final(self).want_sticky == old(self).want_sticky,
            p == (Placed { feed: g, entry: old(self).feeds@[g as int].late_reserve@[0] }),
            final(self).feeds@[g as int].late_reserve@ == old(self).feeds@[g as int].late_reserve@.drop_first(),
            old(self).ordered() ==> final(self).ordered(),
            forall|re: Seq<Placed<E>>, rl: Seq<Placed<E>>, h: int| 0 <= h < final(self).feeds@.len() ==>
                #[trigger] final(self).line_with(h, re, rl.push(p)) == old(self).line_with(h, re, rl),
            final(self).feeds@[g as int].early_reserve == old(self).feeds@[g as int].early_reserve,
            final(self).feeds@[g as int].initial == old(self).feeds@[g as int].initial,
            final(self).feeds@[g as int].early_stop == old(self).feeds@[g as int].early_stop,
            final(self).feeds@[g as int].late_stop == old(self).feeds@[g as int].late_stop,
            final(self).feeds@[g as int].earliest_known == old(self).feeds@[g as int].earliest_known,
            final(self).feeds@[g as int].earliest_known is Some,
            final(self).others_same(*old(self), g as int),
            final(self).real == old(self).real,
            final(self).anchor == old(self).anchor,
            final(self).reset_time == old(self).reset_time,
    {
        let ghost o = *self;
        proof {
            assert(o.has_entries(g as int));
        }
        let mut fs = self.feeds.remove(g);
        let e = fs.late_reserve.remove(0);
        self.feeds.insert(g, fs);
        proof {
            assert(self.feeds@ =~= o.feeds@.update(g as int, fs));
            assert forall|h: int| 0 <= h < self.feeds@.len() && #[trigger] self.has_entries(h) implies self.feeds@[h].earliest_known is Some by {
                if h != g {
                    assert(o.has_entries(h));
                }
            }
        }
        proof {
            let n = *self;
            let p = Placed { feed: g, entry: e };
            let lr = o.feeds@[g as int].late_reserve@;
            assert(e == lr[0]);
            if o.ordered() {
                let ol = o.line(g as int);
                let k: int = (o.feeds@[g as int].early_reserve@.len() + of_feed(o.real@, g as int).len()) as int;
                assert(n.line(g as int) =~= ol.remove(k));
                lemma_ascending_remove(ol, k);
                if n.feeds@[g as int].initial {
                    assert(ol.len() > 0);
                }
                Self::lemma_ordered_one_feed(o, n, g as int);
            }
            assert forall|re: Seq<Placed<E>>, rl: Seq<Placed<E>>, h: int| 0 <= h < n.feeds@.len() implies
                #[trigger] n.line_with(h, re, rl.push(p)) == o.line_with(h, re, rl) by {
                let m = re.reverse() + o.real@ + rl;
                assert(re.reverse() + n.real@ + rl.push(p) =~= m + seq![p]);
                lemma_of_feed_add(m, seq![p], h);
                lemma_of_feed_one(p, h);
                if h == g {
                    assert(lr =~= seq![e] + lr.drop_first());
                    assert(n.line_with(h, re, rl.push(p)) =~= o.line_with(h, re, rl));
                } else {
                    assert(n.feeds@[h] == o.feeds@[h]);
                    assert(of_feed(m + seq![p], h) =~= of_feed(m, h));
                }
            }
        }
        Placed { feed: g, entry: e }
    }

    /// Applies a shake's realization: the entries realized before the
    /// realized ones (nearest first) and after them (nearest first), and the
    /// numbers of realized entries at each end that moved out of view. Those
    /// go back to the fronts of their feeds' reserves, in order; the anchor
    /// keeps pointing at the same entry, or becomes the nearest new one.
    #[verifier::rlimit(60)]
    #[verifier::spinoff_prover]
    pub fn commit_realized(
        &mut self,
        realized_early: Vec<Placed<E>>,
        unrealize_early: usize,
        realized_late: Vec<Placed<E>>,
        unrealize_late: usize,
    )
        requires
            old(self).wf(),
            unrealize_early + unrealize_late <= old(self).real@.len(),
            realized_early@.len() + old(self).real@.len() + realized_late@.len() <= usize::MAX,
            forall|k: int| 0 <= k < realized_early@.len() ==> (#[trigger] realized_early@[k]).feed < old(self).feeds@.len()
                && old(self).feeds@[realized_early@[k].feed as int].earliest_known is Some,
            forall|k: int| 0 <= k < realized_late@.len() ==> (#[trigger] realized_late@[k]).feed < old(self).feeds@.len()
                && old(self).feeds@[realized_late@[k].feed as int].earliest_known is Some,
            ({
                let new_len = realized_early@.len() + old(self).real@.len() - unrealize_early - unrealize_late + realized_late@.len();
                old(self).anchor matches Some(a) ==> a + realized_early@.len() >= unrealize_early
                    && (new_len > 0 ==> a + realized_early@.len() - unrealize_early < new_len)
            }),
        ensures
            final(self).wf(),
            final(self).want_sticky == old(self).want_sticky,
            old(self).ordered_with(realized_early@, realized_late@) && (realized_early@.len() == 0 || unrealize_early == 0)
                && (realized_late@.len() == 0 || unrealize_late == 0) ==> final(self).ordered(),
            ({
                let o = *old(self);
                let n = *final(self);
                let len = o.real@.len() as int;
                let e = realized_early@.len() as int;
                let l = realized_late@.len() as int;
                &&& n.real@ == realized_early@.reverse() + o.real@.subrange(unrealize_early as int, len - unrealize_late)
                    + realized_late@
                &&& n.anchor == match o.anchor {
                    Some(a) => Some((a + e - unrealize_early) as usize),
                    None => if e == 0 && l == 0 { None } else if e == 0 { Some(0usize) } else { Some((e - 1) as usize) },
                }
                &&& n.reset_time == o.reset_time
                &&& n.feeds@.len() == o.feeds@.len()
                &&& forall|g: int| 0 <= g < n.feeds@.len() ==> {
                    let fs = o.feeds@[g];
                    let nf = #[trigger] n.feeds@[g];
                    &&& nf.early_reserve@ == of_feed(o.real@.take(unrealize_early as int), g).reverse() + fs.early_reserve@
                    &&& nf.late_reserve@ == of_feed(o.real@.skip(len - unrealize_late), g) + fs.late_reserve@
                    &&& nf.initial == fs.initial
                    &&& nf.early_stop == fs.early_stop
                    &&& nf.late_stop == fs.late_stop
                    &&& nf.earliest_known == fs.earliest_known
                }
            }),
    {
        let ghost o = *self;
        let ghost len = o.real@.len() as int;
        let e = realized_early.len();
        let l = realized_late.len();
        let ghost rl = realized_late@;
        let new_anchor = match self.anchor {
            Some(a) => if a >= unrealize_early {
                Some((a - unrealize_early) + e)
            } else {
                Some(e - (unrealize_early - a))
            },
            None => if e == 0 && l == 0 {
                None
            } else if e == 0 {
                Some(0)
            } else {
                Some(e - 1)
            },
        };
        proof {
            assert(o.real@.take(0) =~= Seq::<Placed<E>>::empty());
            assert(o.real@.skip(0) =~= o.real@);
            assert forall|g: int| 0 <= g < o.feeds@.len() implies
                #[trigger] of_feed(o.real@.take(0), g).reverse() + o.feeds@[g].early_reserve@ == o.feeds@[g].early_reserve@ by {
                assert(of_feed(o.real@.take(0), g).reverse() + o.feeds@[g].early_reserve@ =~= o.feeds@[g].early_reserve@);
            }
        }
        let mut k: usize = 0;
        while k < unrealize_early
            invariant
                self.want_sticky == o.want_sticky,
                k <= unrealize_early,
                unrealize_early + unrealize_late <= len,
                len == o.real@.len(),
                self.real@ == o.real@.skip(k as int),
                self.reset_time == o.reset_time,
                self.feeds@.len() == o.feeds@.len(),
                forall|j: int| 0 <= j < o.real@.len() ==> #[trigger] o.real@[j].feed < o.feeds@.len(),
                forall|g: int| 0 <= g < self.feeds@.len() ==> {
                    let fs = o.feeds@[g];
                    let nf = #[trigger] self.feeds@[g];
                    &&& nf.early_reserve@ == of_feed(o.real@.take(k as int), g).reverse() + fs.early_reserve@
                    &&& nf.late_reserve == fs.late_reserve
                    &&& nf.initial == fs.initial
                    &&& nf.early_stop == fs.early_stop
                    &&& nf.late_stop == fs.late_stop
                    &&& nf.earliest_known == fs.earliest_known
                },
            decreases unrealize_early - k,
        {
            let p = self.real.remove(0);
            let g = p.feed;
            proof {
                assert(p == o.real@[k as int]);
                assert(self.real@ =~= o.real@.skip(k + 1));
            }
            let ghost fb = self.feeds@;
            let mut fs = self.feeds.remove(g);
            fs.early_reserve.insert(0, p.entry);
            self.feeds.insert(g, fs);
            proof {
                assert(self.feeds@ =~= fb.update(g as int, fs));
                assert(o.real@.take(k + 1) =~= o.real@.take(k as int) + seq![p]);
                assert forall|h: int| 0 <= h < self.feeds@.len() implies
                    #[trigger] self.feeds@[h].early_reserve@ == of_feed(o.real@.take(k + 1), h).reverse() + o.feeds@[h].early_reserve@ by {
                    lemma_of_feed_add(o.real@.take(k as int), seq![p], h);
                    lemma_of_feed_one(p, h);
                    if h == g {
                        assert(of_feed(o.real@.take(k + 1), h) =~= of_feed(o.real@.take(k as int), h).push(p.entry));
                        assert(of_feed(o.real@.take(k + 1), h).reverse() + o.feeds@[h].early_reserve@
                            =~= seq![p.entry] + (of_feed(o.real@.take(k as int), h).reverse() + o.feeds@[h].early_reserve@));
                    } else {
                        assert(of_feed(o.real@.take(k + 1), h) =~= of_feed(o.real@.take(k as int), h));
                    }
                }
            }
            k = k + 1;
        }
        proof {
            assert forall|g: int| 0 <= g < o.feeds@.len() implies
                #[trigger] of_feed(o.real@.skip(len), g) + o.feeds@[g].late_reserve@ == o.feeds@[g].late_reserve@ by {
                assert(o.real@.skip(len) =~= Seq::<Placed<E>>::empty());
                assert(of_feed(o.real@.skip(len), g) + o.feeds@[g].late_reserve@ =~= o.feeds@[g].late_reserve@);
            }
        }
        let ghost early_feeds = self.feeds@;
        let mut j: usize = 0;
        while j < unrealize_late
            invariant
                self.want_sticky == o.want_sticky,
                j <= unrealize_late,
                unrealize_early + unrealize_late <= len,
                len == o.real@.len(),
                self.real@ == o.real@.subrange(unrealize_early as int, len - j),
                self.reset_time == o.reset_time,
                self.feeds@.len() == o.feeds@.len(),
                forall|i: int| 0 <= i < o.real@.len() ==> #[trigger] o.real@[i].feed < o.feeds@.len(),
                forall|g: int| 0 <= g < self.feeds@.len() ==> {
                    let fs = early_feeds[g];
                    let nf = #[trigger] self.feeds@[g];
                    &&& nf.late_reserve@ == of_feed(o.real@.skip(len - j), g) + o.feeds@[g].late_reserve@
                    &&& nf.early_reserve == fs.early_reserve
                    &&& nf.initial == fs.initial
                    &&& nf.early_stop == fs.early_stop
                    &&& nf.late_stop == fs.late_stop
                    &&& nf.earliest_known == fs.earliest_known
                },
            decreases unrealize_late - j,
        {
            let p = self.real.pop().unwrap();
            let g = p.feed;
            proof {
                assert(p == o.real@[len - j - 1]);
                assert(self.real@ =~= o.real@.subrange(unrealize_early as int, len - j - 1));
            }
            let ghost fb = self.feeds@;
            let mut fs = self.feeds.remove(g);
            fs.late_reserve.insert(0, p.entry);
            self.feeds.insert(g, fs);
            proof {
                assert(self.feeds@ =~= fb.update(g as int, fs));
                assert(o.real@.skip(len - j - 1) =~= seq![p] + o.real@.skip(len - j));
                assert forall|h: int| 0 <= h < self.feeds@.len() implies
                    #[trigger] self.feeds@[h].late_reserve@ == of_feed(o.real@.skip(len - j - 1), h) + o.feeds@[h].late_reserve@ by {
                    lemma_of_feed_add(seq![p], o.real@.skip(len - j), h);
                    lemma_of_feed_one(p, h);
                    if h == g {
                        assert(of_feed(o.real@.skip(len - j - 1), h) + o.feeds@[h].late_reserve@
                            =~= seq![p.entry] + (of_feed(o.real@.skip(len - j), h) + o.feeds@[h].late_reserve@));
                    } else {
                        assert(of_feed(o.real@.skip(len - j - 1), h) =~= of_feed(o.real@.skip(len - j), h));
                    }
                }
            }
            j = j + 1;
        }
        let mut nr: Vec<Placed<E>> = Vec::new();
        let mut realized_early = realized_early;
        let ghost re = realized_early@;
        while realized_early.len() > 0
            invariant
                self.want_sticky == o.want_sticky,
                re.len() >= realized_early@.len(),
                realized_early@ == re.take(realized_early@.len() as int),
                nr@ == re.skip(realized_early@.len() as int).reverse(),
            decreases realized_early@.len(),
        {
            let ghost c = realized_early@.len();
            let x = realized_early.pop().unwrap();
            nr.push(x);
            proof {
                assert(x == re[c - 1]);
                assert(realized_early@ =~= re.take(c - 1));
                assert(re.skip(c - 1).reverse() =~= re.skip(c as int).reverse().push(x));
            }
        }
        proof {
            assert(re.skip(0) =~= re);
        }
        nr.append(&mut self.real);
        let mut realized_late = realized_late;
        nr.append(&mut realized_late);
        self.real = nr;
        self.anchor = new_anchor;
        proof {
            let n = *self;
            let mid = o.real@.subrange(unrealize_early as int, len - unrealize_late);
            assert(n.real@ == re.reverse() + mid + rl);
            assert forall|i: int| 0 <= i < n.real@.len() implies #[trigger] n.real@[i].feed < n.feeds@.len() by {
                if i < e {
                    assert(n.real@[i] == re[e - 1 - i]);
                } else if i < e + mid.len() {
                    assert(n.real@[i] == o.real@[unrealize_early + (i - e)]);
                } else {
                    assert(n.real@[i] == rl[i - e - mid.len()]);
                }
            }
            assert forall|g: int| 0 <= g < n.feeds@.len() && #[trigger] n.has_entries(g) implies n.feeds@[g].earliest_known is Some by {
                assert(n.feeds@[g].earliest_known == o.feeds@[g].earliest_known);
                if n.feeds@[g].early_reserve@.len() > 0 {
                    if of_feed(o.real@.take(unrealize_early as int), g).len() > 0 {
                        let tk = o.real@.take(unrealize_early as int);
                        lemma_of_feed_nonempty(tk, g);
                        let i = choose|i: int| 0 <= i < tk.len() && #[trigger] tk[i].feed == g;
                        assert(o.real@[i].feed == g);
                    }
                    assert(o.has_entries(g));
                } else if n.feeds@[g].late_reserve@.len() > 0 {
                    if of_feed(o.real@.skip(len - unrealize_late), g).len() > 0 {
                        let sk = o.real@.skip(len - unrealize_late);
                        lemma_of_feed_nonempty(sk, g);
                        let i = choose|i: int| 0 <= i < sk.len() && #[trigger] sk[i].feed == g;
                        assert(o.real@[len - unrealize_late + i].feed == g);
                    }
                    assert(o.has_entries(g));
                } else {
                    let i = choose|i: int| 0 <= i < n.real@.len() && #[trigger] n.real@[i].feed == g;
                    if i < e {
                        assert(n.real@[i] == re[e - 1 - i]);
                    } else if i < e + mid.len() {
                        assert(n.real@[i] == o.real@[unrealize_early + (i - e)]);
                        assert(o.has_entries(g));
                    } else {
                        assert(n.real@[i] == rl[i - e - mid.len()]);
                    }
                }
            }
        }
        proof {
            let n = *self;
            if o.ordered_with(re, rl) && (re.len() == 0 || unrealize_early == 0) && (rl.len() == 0 || unrealize_late == 0) {
                Self::lemma_commit_keeps_order(o, n, re, unrealize_early as int, rl, unrealize_late as int);
            }
        }
    }

    /// Committing what a shake took keeps the order, when the shake took
    /// entries in order and did not both realize and unrealize at one end.
    #[verifier::spinoff_prover]
    #[verifier::rlimit(40)]
    proof fn lemma_commit_keeps_order(o: Self, n: Self, re: Seq<Placed<E>>, ue: int, rl: Seq<Placed<E>>, ul: int)
        requires
            o.ordered_with(re, rl),
            re.len() == 0 || ue == 0,
            rl.len() == 0 || ul == 0,
            0 <= ue,
            0 <= ul,
            ue + ul <= o.real@.len(),
            n.real@ == re.reverse() + o.real@.subrange(ue, o.real@.len() - ul) + rl,
            n.feeds@.len() == o.feeds@.len(),
            forall|g: int| 0 <= g < n.feeds@.len() ==> {
                let fs = o.feeds@[g];
                let nf = #[trigger] n.feeds@[g];
                &&& nf.early_reserve@ == of_feed(o.real@.take(ue), g).reverse() + fs.early_reserve@
                &&& nf.late_reserve@ == of_feed(o.real@.skip(o.real@.len() - ul), g) + fs.late_reserve@
                &&& nf.initial == fs.initial
            },
        ensures
            n.ordered(),
    {
        let len = o.real@.len() as int;
        let all = re.reverse() + o.real@ + rl;
        let t = o.real@.take(ue);
        let k = o.real@.skip(len - ul);
        assert(all =~= t + n.real@ + k) by {
            if ue == 0 {
                assert(t =~= Seq::<Placed<E>>::empty());
            }
            if ul == 0 {
                assert(k =~= Seq::<Placed<E>>::empty());
            }
        }
        assert(n.real@ =~= all.subrange(t.len() as int, (t.len() + n.real@.len()) as int));
        lemma_in_order_subrange(all, t.len() as int, (t.len() + n.real@.len()) as int);
        assert forall|g: int| 0 <= g < n.feeds@.len() implies #[trigger] n.line(g) == o.line_with(g, re, rl) by {
            lemma_of_feed_add(t, n.real@, g);
            lemma_of_feed_add(t + n.real@, k, g);
            let fs = o.feeds@[g];
            assert((of_feed(t, g).reverse() + fs.early_reserve@).reverse() =~= fs.early_reserve@.reverse() + of_feed(t, g));
            assert(n.line(g) =~= o.line_with(g, re, rl));
        }
        assert forall|g: int| 0 <= g < n.feeds@.len() implies ascending(#[trigger] n.line(g)) && (n.feeds@[g].initial ==> n.line(g).len() == 0) by {
            assert(n.line(g) == o.line_with(g, re, rl));
        }
    }

    /// The time at the middle of the realized entries, if any.
    pub open spec fn center(self) -> Option<TimeView> {
        if self.real@.len() > 0 {
            Some(self.real@[(self.real@.len() / 2) as int].entry.t())
        } else {
            None
        }
    }

    /// The middle realized entry has as many realized entries before it as
    /// after it (an odd count), or one more before it (an even count); there
    /// is none when nothing is realized.
    pub proof fn law_center_is_middle(self)
        ensures
            self.real@.len() == 0 ==> self.center() is None,
            self.real@.len() > 0 ==> exists|k: int|
                0 <= k < self.real@.len() && self.center() == Some(#[trigger] self.real@[k].entry.t())
                    && (k == self.real@.len() - 1 - k || k == self.real@.len() - 1 - k + 1),
    {
        if self.real@.len() > 0 {
            let k = (self.real@.len() / 2) as int;
            assert(self.real@[k].entry.t() == self.center()->0);
        }
    }

    /// After a shake: what each feed is asked for, with reserves cut to
    /// `MAX_RESERVE`. A feed that has not answered yet is asked for entries
    /// around the middle realized entry (or the reset time when nothing is
    /// realized). Otherwise a reserve over the limit is cut (then the feed
    /// may have more in that direction again), and a reserve under
    /// `MIN_RESERVE` of a feed that may have more is refilled from the
    /// feed's pivot at that end.
    pub fn prune(&mut self) -> (asks: Vec<FeedAsk>)
        requires
            old(self).wf(),
            forall|g: int| 0 <= g < old(self).feeds@.len() && !old(self).feeds@[g].initial ==> {
                let fs = #[trigger] old(self).feeds@[g];
                &&& (!fs.early_stop && fs.early_reserve@.len() < MIN_RESERVE ==> old(self).has_entries(g))
                &&& (!fs.late_stop && fs.late_reserve@.len() < MIN_RESERVE ==> old(self).has_entries(g))
            },
        ensures
            final(self).wf(),
            final(self).want_sticky == old(self).want_sticky,
            forall|g: int| 0 <= g < old(self).feeds@.len() && old(self).feeds@[g].initial ==> {
                let a = #[trigger] asks@[g];
                &&& old(self).real@.len() > 0 ==> opt_time(a.around) == Some(
                    old(self).real@[(old(self).real@.len() / 2) as int].entry.t(),
                )
                &&& old(self).real@.len() == 0 ==> opt_time(a.around) == Some(old(self).reset_time@)
            },
            asks@.len() == old(self).feeds@.len(),
            old(self).ordered() ==> final(self).ordered(),
            final(self).real == old(self).real,
            final(self).anchor == old(self).anchor,
            final(self).reset_time == old(self).reset_time,
            final(self).feeds@.len() == old(self).feeds@.len(),
            forall|g: int| 0 <= g < old(self).feeds@.len() ==> {
                let o = *old(self);
                let fs = o.feeds@[g];
                let nf = final(self).feeds@[g];
                let a = #[trigger] asks@[g];
                if fs.initial {
                    &&& nf == fs
                    &&& opt_time(a.around) == Some(if o.center() is Some { o.center()->0 } else { o.reset_time@ })
                    &&& a.before is None
                    &&& a.after is None
                } else {
                    &&& a.around is None
                    &&& nf.initial == fs.initial
                    &&& nf.earliest_known == fs.earliest_known
                    &&& nf.early_reserve@ == if fs.early_reserve@.len() > MAX_RESERVE { fs.early_reserve@.take(MAX_RESERVE as int) } else { fs.early_reserve@ }
                    &&& nf.early_stop == if fs.early_reserve@.len() > MAX_RESERVE { false } else { fs.early_stop }
                    &&& nf.late_reserve@ == if fs.late_reserve@.len() > MAX_RESERVE { fs.late_reserve@.take(MAX_RESERVE as int) } else { fs.late_reserve@ }
                    &&& nf.late_stop == if fs.late_reserve@.len() > MAX_RESERVE { false } else { fs.late_stop }
                    &&& opt_time(a.before) == if !fs.early_stop && fs.early_reserve@.len() < MIN_RESERVE { o.pivot_early(g) } else { None }
                    &&& opt_time(a.after) == if !fs.late_stop && fs.late_reserve@.len() < MIN_RESERVE { o.pivot_late(g) } else { None }
                }
            },
    {
        let ghost o = *self;
        let center = if self.real.len() > 0 {
            self.real[self.real.len() / 2].entry.time.copy()
        } else {
            self.reset_time.copy()
        };
        let mut asks: Vec<FeedAsk> = Vec::new();
        let mut g: usize = 0;
        while g < self.feeds.len()
            invariant
                self.want_sticky == o.want_sticky,
                g <= self.feeds@.len(),
                self.feeds@.len() == o.feeds@.len(),
                self.real == o.real,
                self.anchor == o.anchor,
                self.reset_time == o.reset_time,
                o.wf(),
                center@ == if o.center() is Some { o.center()->0 } else { o.reset_time@ },
                asks@.len() == g,
                forall|h: int| g <= h < self.feeds@.len() ==> #[trigger] self.feeds@[h] == o.feeds@[h],
                forall|h: int| 0 <= h < o.feeds@.len() && !o.feeds@[h].initial ==> {
                    let fs = #[trigger] o.feeds@[h];
                    &&& (!fs.early_stop && fs.early_reserve@.len() < MIN_RESERVE ==> o.has_entries(h))
                    &&& (!fs.late_stop && fs.late_reserve@.len() < MIN_RESERVE ==> o.has_entries(h))
                },
                forall|h: int| 0 <= h < g ==> {
                    let fs = o.feeds@[h];
                    let nf = self.feeds@[h];
                    let a = #[trigger] asks@[h];
                    if fs.initial {
                        &&& nf == fs
                        &&& opt_time(a.around) == Some(if o.center() is Some { o.center()->0 } else { o.reset_time@ })
                        &&& a.before is None
                        &&& a.after is None
                    } else {
                        &&& a.around is None
                        &&& nf.initial == fs.initial
                        &&& nf.earliest_known == fs.earliest_known
                        &&& nf.early_reserve@ == if fs.early_reserve@.len() > MAX_RESERVE { fs.early_reserve@.take(MAX_RESERVE as int) } else { fs.early_reserve@ }
                        &&& nf.early_stop == if fs.early_reserve@.len() > MAX_RESERVE { false } else { fs.early_stop }
                        &&& nf.late_reserve@ == if fs.late_reserve@.len() > MAX_RESERVE { fs.late_reserve@.take(MAX_RESERVE as int) } else { fs.late_reserve@ }
                        &&& nf.late_stop == if fs.late_reserve@.len() > MAX_RESERVE { false } else { fs.late_stop }
                        &&& opt_time(a.before) == if !fs.early_stop && fs.early_reserve@.len() < MIN_RESERVE { o.pivot_early(h) } else { None }
                        &&& opt_time(a.after) == if !fs.late_stop && fs.late_reserve@.len() < MIN_RESERVE { o.pivot_late(h) } else { None }
                    }
                },
            decreases self.feeds@.len() - g,
        {
            if self.feeds[g].initial {
                asks.push(FeedAsk { around: Some(center.copy()), before: None, after: None });
            } else {
                let before = if !self.feeds[g].early_stop && self.feeds[g].early_reserve.len() < MIN_RESERVE {
                    proof {
                        o.lemma_has_entries_pivots(g as int);
                    }
                    self.get_pivot_early(g)
                } else {
                    None
                };
                let after = if !self.feeds[g].late_stop && self.feeds[g].late_reserve.len() < MIN_RESERVE {
                    proof {
                        o.lemma_has_entries_pivots(g as int);
                    }
                    self.get_pivot_late(g)
                } else {
                    None
                };
                let ghost fb = self.feeds@;
                let mut fs = self.feeds.remove(g);
                if fs.early_reserve.len() > MAX_RESERVE {
                    fs.early_reserve.truncate(MAX_RESERVE);
                    fs.early_stop = false;
                }
                if fs.late_reserve.len() > MAX_RESERVE {
                    fs.late_reserve.truncate(MAX_RESERVE);
                    fs.late_stop = false;
                }
                self.feeds.insert(g, fs);
                proof {
                    assert(self.feeds@ =~= fb.update(g as int, fs));
                }
                asks.push(FeedAsk { around: None, before, after });
            }
            proof {
                assert forall|h: int| 0 <= h < g + 1 implies {
                    let fs = o.feeds@[h];
                    let nf = self.feeds@[h];
                    let a = #[trigger] asks@[h];
                    if fs.initial {
                        &&& nf == fs
                        &&& opt_time(a.around) == Some(if o.center() is Some { o.center()->0 } else { o.reset_time@ })
                        &&& a.before is None
                        &&& a.after is None
                    } else {
                        &&& a.around is None
                        &&& nf.initial == fs.initial
                        &&& nf.earliest_known == fs.earliest_known
                        &&& nf.early_reserve@ == if fs.early_reserve@.len() > MAX_RESERVE { fs.early_reserve@.take(MAX_RESERVE as int) } else { fs.early_reserve@ }
                        &&& nf.early_stop == if fs.early_reserve@.len() > MAX_RESERVE { false } else { fs.early_stop }
                        &&& nf.late_reserve@ == if fs.late_reserve@.len() > MAX_RESERVE { fs.late_reserve@.take(MAX_RESERVE as int) } else { fs.late_reserve@ }
                        &&& nf.late_stop == if fs.late_reserve@.len() > MAX_RESERVE { false } else { fs.late_stop }
                        &&& opt_time(a.before) == if !fs.early_stop && fs.early_reserve@.len() < MIN_RESERVE { o.pivot_early(h) } else { None }
                        &&& opt_time(a.after) == if !fs.late_stop && fs.late_reserve@.len() < MIN_RESERVE { o.pivot_late(h) } else { None }
                    }
                } by {
                }
            }
            g = g + 1;
        }
        proof {
            let n = *self;
            assert forall|h: int| 0 <= h < n.feeds@.len() && #[trigger] n.has_entries(h) implies n.feeds@[h].earliest_known is Some by {
                let a = asks@[h];
                assert(n.feeds@[h].earliest_known == o.feeds@[h].earliest_known);
                if n.feeds@[h].early_reserve@.len() > 0 || n.feeds@[h].late_reserve@.len() > 0 {
                    assert(o.feeds@[h].early_reserve@.len() > 0 || o.feeds@[h].late_reserve@.len() > 0);
                    assert(o.has_entries(h));
                } else {
                    let k = choose|k: int| 0 <= k < n.real@.len() && #[trigger] n.real@[k].feed == h;
                    assert(o.real@[k].feed == h);
                    assert(o.has_entries(h));
                }
            }
            if o.ordered() {
                assert forall|g: int| 0 <= g < o.feeds@.len() implies {
                    let fs = o.feeds@[g];
                    let nf = #[trigger] n.feeds@[g];
                    &&& nf.initial == fs.initial
                    &&& nf.early_reserve@ == if fs.early_reserve@.len() > MAX_RESERVE { fs.early_reserve@.take(MAX_RESERVE as int) } else { fs.early_reserve@ }
                    &&& nf.late_reserve@ == if fs.late_reserve@.len() > MAX_RESERVE { fs.late_reserve@.take(MAX_RESERVE as int) } else { fs.late_reserve@ }
                } by {
                    let a = asks@[g];
                    if o.feeds@[g].initial {
                        assert(n.feeds@[g] == o.feeds@[g]);
                    }
                }
                Self::lemma_cut_keeps_order(o, n);
            }
        }
        asks
    }

    /// Cutting reserves, with the realized entries and every feed's other
    /// state unchanged, keeps the order.
    proof fn lemma_cut_keeps_order(o: Self, n: Self)
        requires
            o.ordered(),
            n.real == o.real,
            n.feeds@.len() == o.feeds@.len(),
            forall|g: int| 0 <= g < o.feeds@.len() ==> {
                let fs = o.feeds@[g];
                let nf = #[trigger] n.feeds@[g];
                &&& nf.initial == fs.initial
                &&& nf.early_reserve@ == if fs.early_reserve@.len() > MAX_RESERVE { fs.early_reserve@.take(MAX_RESERVE as int) } else { fs.early_reserve@ }
                &&& nf.late_reserve@ == if fs.late_reserve@.len() > MAX_RESERVE { fs.late_reserve@.take(MAX_RESERVE as int) } else { fs.late_reserve@ }
            },
        ensures
            n.ordered(),
    {
        assert forall|g: int| 0 <= g < n.feeds@.len() implies ascending(#[trigger] n.line(g)) && (n.feeds@[g].initial ==> n.line(g).len() == 0) by {
            let fs = o.feeds@[g];
            let nf = n.feeds@[g];
            let er = fs.early_reserve@;
            let m = of_feed(o.real@, g);
            let lr = fs.late_reserve@;
            let ke: int = if er.len() > MAX_RESERVE { MAX_RESERVE as int } else { er.len() as int };
            let kl: int = if lr.len() > MAX_RESERVE { MAX_RESERVE as int } else { lr.len() as int };
            assert(nf.early_reserve@ =~= er.take(ke));
            assert(nf.late_reserve@ =~= lr.take(kl));
            assert(er.take(ke).reverse() =~= er.reverse().subrange(er.len() - ke, er.len() as int));
            assert(n.line(g) =~= o.line(g).subrange(er.len() - ke, er.len() + m.len() + kl));
            lemma_ascending_subrange(o.line(g), er.len() - ke, er.len() + m.len() + kl);
        }
    }

    /// A feed with entries has pivots at both ends.
    proof fn lemma_has_entries_pivots(self, f: int)
        requires
            0 <= f < self.feeds@.len(),
            self.has_entries(f),
        ensures
            self.pivot_early(f) is Some,
            self.pivot_late(f) is Some,
    {
        if self.feeds@[f].early_reserve@.len() == 0 && self.feeds@[f].late_reserve@.len() == 0 {
            let k = choose|k: int| 0 <= k < self.real@.len() && #[trigger] self.real@[k].feed == f;
            lemma_first_real_exists(self.real@, f, k);
            lemma_last_real_exists(self.real@, f, k);
        }
    }

    /// Whether an entry at time `t` is realized.
    pub fn is_realized(&self, t: &ChatTime) -> (r: bool)
        ensures
            r == exists|k: int| 0 <= k < self.real@.len() && #[trigger] self.real@[k].entry.t() == t@,
    {
        let mut k: usize = 0;
        while k < self.real.len()
            invariant
                k <= self.real@.len(),
                forall|j: int| 0 <= j < k ==> #[trigger] self.real@[j].entry.t() != t@,
            decreases self.real@.len() - k,
        {
            if self.real[k].entry.time.same(t) {
                proof {
                    assert(self.real@[k as int].entry.t() == t@);
                }
                return true;
            }
            k = k + 1;
        }
        false
    }

    /// Every feed has nothing more before its realized entries: its early
    /// reserve is empty and it is stopped.
    pub fn early_all_stopped(&self) -> (r: bool)
        ensures
            r <==> (forall|g: int| 0 <= g < self.feeds@.len() ==> (#[trigger] self.feeds@[g]).early_stop && self.feeds@[g].early_reserve@.len() == 0),
    {
        let mut g: usize = 0;
        while g < self.feeds.len()
            invariant
                g <= self.feeds@.len(),
                forall|h: int| 0 <= h < g ==> (#[trigger] self.feeds@[h]).early_stop && self.feeds@[h].early_reserve@.len() == 0,
            decreases self.feeds@.len() - g,
        {
            if !(self.feeds[g].early_stop && self.feeds[g].early_reserve.len() == 0) {
                return false;
            }
            g = g + 1;
        }
        true
    }

    /// Every feed has nothing more after its realized entries: its late
    /// reserve is empty and it is stopped.
    pub fn late_all_stopped(&self) -> (r: bool)
        ensures
            r <==> (forall|g: int| 0 <= g < self.feeds@.len() ==> (#[trigger] self.feeds@[g]).late_stop && self.feeds@[g].late_reserve@.len() == 0),
    {
        let mut g: usize = 0;
        while g < self.feeds.len()
            invariant
                g <= self.feeds@.len(),
                forall|h: int| 0 <= h < g ==> (#[trigger] self.feeds@[h]).late_stop && self.feeds@[h].late_reserve@.len() == 0,
            decreases self.feeds@.len() - g,
        {
            if !(self.feeds[g].late_stop && self.feeds[g].late_reserve.len() == 0) {
                return false;
            }
            g = g + 1;
        }
        true
    }

    /// Makes the entry at `id` the sticky one: when it already is, nothing
    /// changes; else it is recorded, and when it is not realized the view
    /// jumps to it. Says whether it jumped.
    pub fn set_sticky(&mut self, id: ChatTime) -> (jumped: bool)
        requires
            old(self).wf(),
        ensures
            final(self).wf(),
            old(self).ordered() ==> final(self).ordered(),
            ({
                let o = *old(self);
                let n = *final(self);
                let same = o.want_sticky matches Some(w) && w@ == id@;
                let shown = exists|k: int| 0 <= k < o.real@.len() && #[trigger] o.real@[k].entry.t() == id@;
                &&& same ==> n == o && !jumped
                &&& !same ==> (n.want_sticky matches Some(w) && w@ == id@)
                &&& !same && shown ==> !jumped && n.real == o.real && n.anchor == o.anchor
                    && n.reset_time == o.reset_time && n.feeds == o.feeds
                &&& !same && !shown ==> jumped && n.reset_time@ == id@ && n.real@.len() == 0
                    && n.anchor is None && n.feeds@.len() == o.feeds@.len()
                    && forall|f: int| 0 <= f < n.feeds@.len() ==> (#[trigger] n.feeds@[f]).fresh()
            }),
    {
        match &self.want_sticky {
            Some(w) => {
                if w.same(&id) {
                    return false;
                }
            },
            None => {},
        }
        let ghost o = *self;
        self.want_sticky = Some(id.copy());
        proof {
            assert forall|g: int| 0 <= g < self.feeds@.len() implies #[trigger] self.line(g) == o.line(g) by {}
            assert forall|g: int| 0 <= g < self.feeds@.len() && #[trigger] self.has_entries(g) implies self.feeds@[g].earliest_known is Some by {
                assert(o.has_entries(g));
            }
        }
        if self.is_realized(&id) {
            return false;
        }
        self.jump_to(id);
        true
    }

    /// No entry is to be kept in view any more; nothing else changes.
    pub fn clear_sticky(&mut self)
        requires
            old(self).wf(),
        ensures
            final(self).wf(),
            final(self).want_sticky is None,
            final(self).real == old(self).real,
            final(self).anchor == old(self).anchor,
            final(self).reset_time == old(self).reset_time,
            final(self).feeds == old(self).feeds,
            old(self).ordered() ==> final(self).ordered(),
    {
        let ghost o = *self;
        self.want_sticky = None;
        proof {
            assert forall|g: int| 0 <= g < self.feeds@.len() implies #[trigger] self.line(g) == o.line(g) by {}
            assert forall|g: int| 0 <= g < self.feeds@.len() && #[trigger] self.has_entries(g) implies self.feeds@[g].earliest_known is Some by {
                assert(o.has_entries(g));
            }
        }
    }

    /// Whether feed `f` can take new entries at its late end, and the time
    /// to ask from: only when it has nothing more after its late reserve.
    pub fn want_after(&self, f: usize) -> (r: Option<ChatTime>)
        requires
            f < self.feeds@.len(),
        ensures
            if self.feeds@[f as int].late_stop {
                opt_time(r) == self.pivot_late(f as int)
            } else {
                r is None
            },
    {
        if !self.feeds[f].late_stop {
            return None;
        }
        self.get_pivot_late(f)
    }
}

/// Times strictly increasing.
pub open spec fn ascending<E>(s: Seq<Timed<E>>) -> bool {
    forall|i: int, j: int| 0 <= i < j < s.len() ==> time_lt(#[trigger] s[i].t(), #[trigger] s[j].t())
}

/// Two ascending runs, the first ending before the second starts, make one.
proof fn lemma_ascending_concat<E>(a: Seq<Timed<E>>, b: Seq<Timed<E>>)
    requires
        ascending(a),
        ascending(b),
        a.len() > 0 && b.len() > 0 ==> time_lt(a.last().t(), b[0].t()),
    ensures
        ascending(a + b),
{
    let s = a + b;
    assert forall|i: int, j: int| 0 <= i < j < s.len() implies time_lt(#[trigger] s[i].t(), #[trigger] s[j].t()) by {
        if j < a.len() {
            assert(s[i] == a[i] && s[j] == a[j]);
        } else if i >= a.len() {
            assert(s[i] == b[i - a.len()] && s[j] == b[j - a.len()]);
        } else {
            let x = a[i].t();
            let l = a.last().t();
            let f = b[0].t();
            let y = b[j - a.len()].t();
            assert(s[i] == a[i] && s[j] == b[j - a.len()]);
            if i < a.len() - 1 {
                assert(time_lt(x, l));
                law_time_order(x, l, f);
            }
            if j - a.len() > 0 {
                assert(time_lt(f, y));
            }
            law_time_order(x, f, y);
        }
    }
}

/// Leaving out one entry keeps a run ascending.
proof fn lemma_ascending_remove<E>(s: Seq<Timed<E>>, k: int)
    requires
        ascending(s),
        0 <= k < s.len(),
    ensures
        ascending(s.remove(k)),
{
    let r = s.remove(k);
    assert forall|i: int, j: int| 0 <= i < j < r.len() implies time_lt(#[trigger] r[i].t(), #[trigger] r[j].t()) by {
        let i2 = if i < k { i } else { i + 1 };
        let j2 = if j < k { j } else { j + 1 };
        assert(r[i] == s[i2] && r[j] == s[j2]);
    }
}

/// A part of an ascending run is ascending.
proof fn lemma_ascending_subrange<E>(s: Seq<Timed<E>>, a: int, b: int)
    requires
        ascending(s),
        0 <= a <= b <= s.len(),
    ensures
        ascending(s.subrange(a, b)),
{
    let r = s.subrange(a, b);
    assert forall|i: int, j: int| 0 <= i < j < r.len() implies time_lt(#[trigger] r[i].t(), #[trigger] r[j].t()) by {
        assert(r[i] == s[a + i] && r[j] == s[a + j]);
    }
}

/// Entries in descending order read backwards are ascending.
proof fn lemma_descending_reverse<E>(es: Seq<Timed<E>>, p: TimeView)
    requires
        descending_below(es, p),
    ensures
        ascending(es.reverse()),
{
    let r = es.reverse();
    assert forall|i: int, j: int| 0 <= i < j < r.len() implies time_lt(#[trigger] r[i].t(), #[trigger] r[j].t()) by {
        assert(r[i] == es[es.len() - 1 - i] && r[j] == es[es.len() - 1 - j]);
    }
}

/// No entry of a feed that none of `s` comes from.
proof fn lemma_of_feed_none<E>(s: Seq<Placed<E>>, g: int)
    requires
        forall|k: int| 0 <= k < s.len() ==> #[trigger] s[k].feed != g,
    ensures
        of_feed(s, g).len() == 0,
{
    if of_feed(s, g).len() > 0 {
        lemma_of_feed_nonempty(s, g);
    }
}

/// The entries of a feed, read from the front.
proof fn lemma_of_feed_first<E>(s: Seq<Placed<E>>, g: int)
    requires
        s.len() > 0,
    ensures
        of_feed(s, g) == of_feed(seq![s[0]], g) + of_feed(s.drop_first(), g),
{
    assert(s =~= seq![s[0]] + s.drop_first());
    lemma_of_feed_add(seq![s[0]], s.drop_first(), g);
}

/// The first realized entry of a feed is the first of its entries.
proof fn lemma_first_real_of_feed<E>(s: Seq<Placed<E>>, g: int)
    ensures
        first_real_of(s, g) == if of_feed(s, g).len() > 0 { Some(of_feed(s, g)[0].t()) } else { None::<TimeView> },
    decreases s.len(),
{
    if s.len() == 0 {
    } else {
        lemma_of_feed_first(s, g);
        lemma_of_feed_one(s[0], g);
        lemma_first_real_of_feed(s.drop_first(), g);
        if s[0].feed == g {
            assert((seq![s[0].entry] + of_feed(s.drop_first(), g))[0] == s[0].entry);
        } else {
            assert(Seq::<Timed<E>>::empty() + of_feed(s.drop_first(), g) =~= of_feed(s.drop_first(), g));
        }
    }
}

/// The last realized entry of a feed is the last of its entries.
proof fn lemma_last_real_of_feed<E>(s: Seq<Placed<E>>, g: int)
    ensures
        last_real_of(s, g) == if of_feed(s, g).len() > 0 { Some(of_feed(s, g).last().t()) } else { None::<TimeView> },
    decreases s.len(),
{
    if s.len() > 0 {
        lemma_last_real_of_feed(s.drop_last(), g);
    }
}

/// Entries all before `r` are all kept by `before_of`, none by the others.
proof fn lemma_filters_below<E>(es: Seq<Timed<E>>, r: TimeView)
    requires
        forall|i: int| 0 <= i < es.len() ==> time_lt(#[trigger] es[i].t(), r),
    ensures
        before_of(es, r) == es,
        at_of(es, r).len() == 0,
        after_of(es, r).len() == 0,
    decreases es.len(),
{
    if es.len() > 0 {
        let x = es.last();
        assert(time_lt(es[es.len() - 1].t(), r));
        law_time_order(x.t(), r, x.t());
        lemma_filters_below(es.drop_last(), r);
        assert(es.drop_last().push(x) =~= es);
    }
}

/// An ascending answer is its entries before `r`, then at `r`, then after.
proof fn lemma_partition_sorted<E>(es: Seq<Timed<E>>, r: TimeView)
    requires
        ascending(es),
    ensures
        before_of(es, r) + at_of(es, r) + after_of(es, r) == es,
    decreases es.len(),
{
    if es.len() == 0 {
        assert(before_of(es, r) + at_of(es, r) + after_of(es, r) =~= es);
    } else {
        let x = es.last();
        let d = es.drop_last();
        assert(ascending(d)) by {
            assert forall|i: int, j: int| 0 <= i < j < d.len() implies time_lt(#[trigger] d[i].t(), #[trigger] d[j].t()) by {
                assert(d[i] == es[i] && d[j] == es[j]);
            }
        }
        lemma_partition_sorted(d, r);
        law_time_order(x.t(), r, x.t());
        if time_lt(x.t(), r) || x.t() == r {
            assert forall|i: int| 0 <= i < d.len() implies time_lt(#[trigger] d[i].t(), r) by {
                assert(d[i] == es[i]);
                assert(time_lt(es[i].t(), es[es.len() - 1].t()));
                law_time_order(d[i].t(), x.t(), r);
            }
            lemma_filters_below(d, r);
            assert(before_of(es, r) + at_of(es, r) + after_of(es, r) =~= es);
        } else {
            assert(before_of(es, r) + at_of(es, r) + after_of(es, r) =~= (before_of(d, r) + at_of(d, r) + after_of(d, r)).push(x));
            assert(d.push(x) =~= es);
        }
    }
}

/// Entries at `r` are at `r`.
proof fn lemma_at_of_at<E>(es: Seq<Timed<E>>, r: TimeView)
    ensures
        forall|i: int| 0 <= i < at_of(es, r).len() ==> (#[trigger] at_of(es, r)[i]).t() == r,
    decreases es.len(),
{
    if es.len() > 0 {
        lemma_at_of_at(es.drop_last(), r);
        let p = at_of(es.drop_last(), r);
        if es.last().t() == r {
            assert forall|i: int| 0 <= i < at_of(es, r).len() implies (#[trigger] at_of(es, r)[i]).t() == r by {
                if i < p.len() {
                    assert(at_of(es, r)[i] == p[i]);
                }
            }
        }
    }
}

/// Realized entries of one feed: that feed's entries are all of them.
proof fn lemma_of_feed_placed<E>(es: Seq<Timed<E>>, f: usize, g: int)
    ensures
        of_feed(placed_all(es, f), g) == if g == f { es } else { Seq::<Timed<E>>::empty() },
    decreases es.len(),
{
    if es.len() == 0 {
        assert(placed_all(es, f) =~= Seq::<Placed<E>>::empty());
    } else {
        lemma_of_feed_placed(es.drop_last(), f, g);
        assert(placed_all(es, f).drop_last() =~= placed_all(es.drop_last(), f));
        assert(placed_all(es, f).last() == (Placed { feed: f, entry: es.last() }));
        if g == f {
            assert(es.drop_last().push(es.last()) =~= es);
        }
    }
}

/// A part of realized entries in order is in order.
proof fn lemma_in_order_subrange<E>(s: Seq<Placed<E>>, a: int, b: int)
    requires
        in_order(s),
        0 <= a <= b <= s.len(),
    ensures
        in_order(s.subrange(a, b)),
{
    let r = s.subrange(a, b);
    assert forall|i: int, j: int| 0 <= i < j < r.len() implies !time_lt(#[trigger] r[j].entry.t(), #[trigger] r[i].entry.t()) by {
        assert(r[i] == s[a + i] && r[j] == s[a + j]);
    }
}

proof fn lemma_prefix_before_bounds<E>(es: Seq<Timed<E>>, t: TimeView)
    ensures
        0 <= prefix_before(es, t) <= es.len(),
    decreases es.len(),
{
    if es.len() > 0 {
        lemma_prefix_before_bounds(es.drop_first(), t);
    }
}

/// The entries of feed `f` in a sorting-in state: its early reserve
/// (nearest last), then its realized entries.
pub open spec fn sort_line<E>(st: SortIn<E>, f: int) -> Seq<Timed<E>> {
    st.2.reverse() + of_feed(st.0, f)
}

/// Where the scan of a sorting-in state starts, at or before feed `f`'s
/// latest realized entry, if it has one.
pub open spec fn scan_reaches<E>(st: SortIn<E>, f: int) -> bool {
    &&& 0 <= st.3 <= st.0.len()
    &&& of_feed(st.0, f).len() > 0 ==> exists|k: int| st.3 <= k < st.0.len() && #[trigger] st.0[k].feed == f
}

proof fn lemma_scan_pos_zero<E>(shown: Seq<Placed<E>>, from: int, hi: int, t: TimeView)
    requires
        0 <= from,
        hi <= shown.len(),
        scan_pos(shown, from, hi, t) == 0,
    ensures
        forall|i: int| from <= i < hi ==> !time_lt(#[trigger] shown[i].entry.t(), t),
    decreases hi - from,
{
    if hi > from && hi > 0 {
        if !time_lt(shown[hi - 1].entry.t(), t) {
            lemma_scan_pos_zero(shown, from, hi - 1, t);
        }
    }
}

/// An entry of feed `g` shows among the feed's entries.
proof fn lemma_of_feed_member<E>(s: Seq<Placed<E>>, g: int, k: int) -> (j: int)
    requires
        0 <= k < s.len(),
        s[k].feed == g,
    ensures
        0 <= j < of_feed(s, g).len(),
        of_feed(s, g)[j] == s[k].entry,
    decreases s.len(),
{
    if k == s.len() - 1 {
        of_feed(s.drop_last(), g).len() as int
    } else {
        let j = lemma_of_feed_member(s.drop_last(), g, k);
        assert(s.drop_last()[k] == s[k]);
        j
    }
}

proof fn lemma_of_feed_insert<E>(s: Seq<Placed<E>>, pos: int, x: Placed<E>, g: int)
    requires
        0 <= pos <= s.len(),
    ensures
        of_feed(s.insert(pos, x), g) == of_feed(s.take(pos), g) + of_feed(seq![x], g) + of_feed(s.skip(pos), g),
        of_feed(s, g) == of_feed(s.take(pos), g) + of_feed(s.skip(pos), g),
{
    assert(s.insert(pos, x) =~= s.take(pos) + seq![x] + s.skip(pos));
    assert(s =~= s.take(pos) + s.skip(pos));
    lemma_of_feed_add(s.take(pos), seq![x], g);
    lemma_of_feed_add(s.take(pos) + seq![x], s.skip(pos), g);
    lemma_of_feed_add(s.take(pos), s.skip(pos), g);
}

/// Sorting one later entry of feed `f` in adds it at the end of the feed's
/// entries and leaves every other feed's realized entries as they were.
proof fn lemma_sort_in_step_line<E>(st: SortIn<E>, e: Timed<E>, f: usize)
    requires
        ascending(sort_line(st, f as int)),
        sort_line(st, f as int).len() > 0 ==> time_lt(sort_line(st, f as int).last().t(), e.t()),
        scan_reaches(st, f as int),
    ensures
        sort_line(sort_in_step(st, e, f), f as int) == sort_line(st, f as int).push(e),
        scan_reaches(sort_in_step(st, e, f), f as int),
        forall|g: int| g != f ==> #[trigger] of_feed(sort_in_step(st, e, f).0, g) == of_feed(st.0, g),
{
    let s = st.0;
    let sl = sort_line(st, f as int);
    let pos = scan_pos(s, st.3, s.len() as int, e.t());
    lemma_scan_pos_bounds(s, st.3, s.len() as int, e.t());
    // Every realized entry of `f` is before `e`.
    assert forall|k: int| 0 <= k < s.len() && s[k].feed == f implies time_lt(#[trigger] s[k].entry.t(), e.t()) by {
        let j = lemma_of_feed_member(s, f as int, k);
        let idx = st.2.len() + j;
        assert(sl[idx] == s[k].entry);
        if idx < sl.len() - 1 {
            assert(time_lt(sl[idx].t(), sl[sl.len() - 1].t()));
            law_time_order(sl[idx].t(), sl.last().t(), e.t());
        }
    }
    if pos == 0 {
        lemma_scan_pos_zero(s, st.3, s.len() as int, e.t());
        if of_feed(s, f as int).len() > 0 {
            let k = choose|k: int| st.3 <= k < s.len() && #[trigger] s[k].feed == f;
            assert(time_lt(s[k].entry.t(), e.t()));
        }
        assert((seq![e] + st.2).reverse() =~= st.2.reverse().push(e));
        assert(of_feed(s, f as int) =~= Seq::<Timed<E>>::empty());
        assert(sort_line(sort_in_step(st, e, f), f as int) =~= sl.push(e));
    } else {
        lemma_scan_pos_found(s, st.3, s.len() as int, e.t());
        let x = Placed { feed: f, entry: e };
        let sk = s.skip(pos);
        if of_feed(sk, f as int).len() > 0 {
            lemma_of_feed_nonempty(sk, f as int);
            let k = choose|k: int| 0 <= k < sk.len() && #[trigger] sk[k].feed == f;
            assert(sk[k] == s[pos + k]);
            assert(!time_lt(s[pos + k].entry.t(), e.t()));
        }
        assert(of_feed(sk, f as int).len() == 0);
        lemma_of_feed_insert(s, pos, x, f as int);
        lemma_of_feed_one(x, f as int);
        assert(of_feed(s.insert(pos, x), f as int) =~= of_feed(s, f as int).push(e));
        assert(sort_line(sort_in_step(st, e, f), f as int) =~= sl.push(e));
        let n = sort_in_step(st, e, f);
        assert(n.0[pos] == x);
        assert forall|g: int| g != f implies #[trigger] of_feed(sort_in_step(st, e, f).0, g) == of_feed(st.0, g) by {
            lemma_of_feed_insert(s, pos, x, g);
            lemma_of_feed_one(x, g);
            assert(of_feed(s.insert(pos, x), g) =~= of_feed(s, g));
        }
    }
}

/// Sorting in an ascending run of later entries of feed `f` appends them to
/// the feed's entries and leaves every other feed's realized entries as they
/// were.
proof fn lemma_sort_in_line<E>(st: SortIn<E>, es: Seq<Timed<E>>, f: usize)
    requires
        ascending(sort_line(st, f as int)),
        ascending(es),
        sort_line(st, f as int).len() > 0 && es.len() > 0 ==> time_lt(sort_line(st, f as int).last().t(), es[0].t()),
        scan_reaches(st, f as int),
    ensures
        sort_line(sort_in(st, es, f), f as int) == sort_line(st, f as int) + es,
        scan_reaches(sort_in(st, es, f), f as int),
        forall|g: int| g != f ==> #[trigger] of_feed(sort_in(st, es, f).0, g) == of_feed(st.0, g),
    decreases es.len(),
{
    if es.len() == 0 {
        assert(sort_line(st, f as int) + es =~= sort_line(st, f as int));
    } else {
        let d = es.drop_last();
        let e = es.last();
        assert(ascending(d)) by {
            assert forall|i: int, j: int| 0 <= i < j < d.len() implies time_lt(#[trigger] d[i].t(), #[trigger] d[j].t()) by {
                assert(d[i] == es[i] && d[j] == es[j]);
            }
        }
        lemma_sort_in_line(st, d, f);
        let mid = sort_in(st, d, f);
        let sl = sort_line(st, f as int);
        if d.len() > 0 {
            assert(d[0] == es[0]);
        }
        lemma_ascending_concat(sl, d);
        if d.len() > 0 {
            assert(time_lt(es[d.len() - 1].t(), es[es.len() - 1].t()));
            assert((sl + d).last() == d.last());
        } else {
            assert(sl + d =~= sl);
        }
        lemma_sort_in_step_line(mid, e, f);
        assert((sl + d).push(e) =~= sl + es);
    }
}

impl<E> Reserves<E> {
    /// Everything feed `g` holds, in time order as it should stand: its early
    /// reserve (nearest last), its entries among `re` read backwards, then
    /// the realized ones and `rl`, then its late reserve. The realized
    /// entries are `re` reversed, the realized ones and `rl` in a shake that
    /// has taken `re` and `rl` from the reserves and not yet committed them.
    pub open spec fn line_with(self, g: int, re: Seq<Placed<E>>, rl: Seq<Placed<E>>) -> Seq<Timed<E>> {
        self.feeds@[g].early_reserve@.reverse() + of_feed(re.reverse() + self.real@ + rl, g)
            + self.feeds@[g].late_reserve@
    }

    /// Everything feed `g` holds: early reserve, realized entries, late
    /// reserve.
    pub open spec fn line(self, g: int) -> Seq<Timed<E>> {
        self.feeds@[g].early_reserve@.reverse() + of_feed(self.real@, g) + self.feeds@[g].late_reserve@
    }

    /// The order the scroller keeps, with `re` and `rl` taken for realizing
    /// in a shake: all realized entries in time order, each feed's entries
    /// strictly ascending from its early reserve through its realized
    /// entries to its late reserve (no entry of a feed out of place, none
    /// left between), and nothing held for a feed that has not answered.
    pub open spec fn ordered_with(self, re: Seq<Placed<E>>, rl: Seq<Placed<E>>) -> bool {
        &&& in_order(re.reverse() + self.real@ + rl)
        &&& forall|g: int| 0 <= g < self.feeds@.len() ==> ascending(#[trigger] self.line_with(g, re, rl))
        &&& forall|g: int| 0 <= g < self.feeds@.len() && (#[trigger] self.feeds@[g]).initial ==> self.line_with(g, re, rl).len() == 0
    }

    /// The order the scroller keeps: realized entries in time order, each
    /// feed's entries strictly ascending across its reserves and realized
    /// entries, nothing held for a feed that has not answered.
    pub open spec fn ordered(self) -> bool {
        &&& in_order(self.real@)
        &&& forall|g: int| 0 <= g < self.feeds@.len() ==> ascending(#[trigger] self.line(g))
        &&& forall|g: int| 0 <= g < self.feeds@.len() && (#[trigger] self.feeds@[g]).initial ==> self.line(g).len() == 0
    }

    /// With nothing realized and every feed fresh, the order holds.
    proof fn lemma_fresh_ordered(self)
        requires
            self.real@.len() == 0,
            forall|f: int| 0 <= f < self.feeds@.len() ==> (#[trigger] self.feeds@[f]).fresh(),
        ensures
            self.ordered(),
    {
        assert forall|g: int| 0 <= g < self.feeds@.len() implies #[trigger] self.line(g).len() == 0 by {
            assert(self.feeds@[g].fresh());
            assert(self.line(g) =~= Seq::<Timed<E>>::empty());
        }
    }

    /// When only feed `f` changed and the realized entries did not, the
    /// order holds again once it holds for `f`.
    proof fn lemma_ordered_one_feed(o: Self, n: Self, f: int)
        requires
            o.ordered(),
            n.real@ == o.real@,
            n.others_same(o, f),
            0 <= f < o.feeds@.len(),
            ascending(n.line(f)),
            n.feeds@[f].initial ==> n.line(f).len() == 0,
        ensures
            n.ordered(),
    {
        assert forall|g: int| 0 <= g < n.feeds@.len() implies ascending(#[trigger] n.line(g)) by {
            if g != f {
                assert(n.feeds@[g] == o.feeds@[g]);
                assert(n.line(g) == o.line(g));
            }
        }
        assert forall|g: int| 0 <= g < n.feeds@.len() && (#[trigger] n.feeds@[g]).initial implies n.line(g).len() == 0 by {
            if g != f {
                assert(n.feeds@[g] == o.feeds@[g]);
                assert(n.line(g) == o.line(g));
            }
        }
    }

    proof fn lemma_line_with_empty(self, g: int)
        ensures
            self.line_with(g, seq![], seq![]) == self.line(g),
    {
        assert(Seq::<Placed<E>>::empty().reverse() + self.real@ + Seq::<Placed<E>>::empty() =~= self.real@);
    }

    /// Nothing taken: the order with nothing taken is the order.
    pub proof fn lemma_ordered_with_empty(self)
        ensures
            self.ordered_with(seq![], seq![]) == self.ordered(),
    {
        assert(Seq::<Placed<E>>::empty().reverse() + self.real@ + Seq::<Placed<E>>::empty() =~= self.real@);
        let e = Seq::<Placed<E>>::empty();
        assert(e.reverse() + self.real@ + e =~= self.real@);
        assert forall|g: int| 0 <= g < self.feeds@.len() implies #[trigger] self.line_with(g, e, e) == self.line(g) by {
            self.lemma_line_with_empty(g);
        }
        if self.ordered() {
            assert forall|g: int| 0 <= g < self.feeds@.len() implies ascending(#[trigger] self.line_with(g, e, e)) by {
                assert(self.line_with(g, e, e) == self.line(g));
            }
            assert forall|g: int| 0 <= g < self.feeds@.len() && (#[trigger] self.feeds@[g]).initial implies self.line_with(g, e, e).len() == 0 by {
                assert(self.line_with(g, e, e) == self.line(g));
            }
        }
        if self.ordered_with(e, e) {
            assert forall|g: int| 0 <= g < self.feeds@.len() implies ascending(#[trigger] self.line(g)) by {
                assert(self.line_with(g, e, e) == self.line(g));
            }
            assert forall|g: int| 0 <= g < self.feeds@.len() && (#[trigger] self.feeds@[g]).initial implies self.line(g).len() == 0 by {
                assert(self.line_with(g, e, e) == self.line(g));
            }
        }
    }

    /// An answer for later entries, taken as `respond_entries_after` takes
    /// it, keeps the order.
    proof fn lemma_after_keeps_order(o: Self, n: Self, f: usize, pivot: TimeView, es: Seq<Timed<E>>, stop: bool)
        requires
            o.ordered(),
            0 <= f < o.feeds@.len(),
            o.pivot_late(f as int) == Some(pivot),
            ascending_above(es, pivot),
            in_order(n.real@),
            n.others_same(o, f as int),
            n.feeds@[f as int].initial == o.feeds@[f as int].initial,
            ({
                let fs = o.feeds@[f as int];
                let nf = n.feeds@[f as int];
                if fs.late_reserve@.len() > 0 {
                    let k = room(fs.late_reserve@.len() as int, es.len() as int);
                    &&& n.real == o.real
                    &&& nf.early_reserve == fs.early_reserve
                    &&& nf.late_reserve@ == fs.late_reserve@ + es.take(k)
                } else {
                    let latest = o.real@.last().entry.t();
                    let m = prefix_before(es, latest);
                    let st = sort_in((o.real@, o.anchor->0 as int, fs.early_reserve@, 0, seq![]), es.take(m), f);
                    let rest = es.skip(m);
                    &&& nf.early_reserve@ == st.2
                    &&& (n.real@ == st.0 + placed_all(rest, f) && nf.late_reserve@.len() == 0)
                        || (n.real@ == st.0 && nf.late_reserve@ == rest.take(room(0, rest.len() as int)))
                }
            }),
        ensures
            n.ordered(),
    {
        let fs = o.feeds@[f as int];
        let nf = n.feeds@[f as int];
        let ol = o.line(f as int);
        o.lemma_pivots_line(f as int);
        assert(ol.len() > 0);
        assert(ascending(es)) by {
            assert forall|i: int, j: int| 0 <= i < j < es.len() implies time_lt(#[trigger] es[i].t(), #[trigger] es[j].t()) by {}
        }
        if es.len() > 0 {
            assert(time_lt(pivot, es[0].t()));
        }
        if fs.late_reserve@.len() > 0 {
            let k = room(fs.late_reserve@.len() as int, es.len() as int);
            assert(0 <= k <= es.len());
            lemma_ascending_subrange(es, 0, k);
            assert(es.take(k) =~= es.subrange(0, k));
            if k > 0 {
                assert(es.take(k)[0] == es[0]);
            }
            lemma_ascending_concat(ol, es.take(k));
            assert(n.line(f as int) =~= ol + es.take(k));
            Self::lemma_ordered_one_feed(o, n, f as int);
        } else {
            let latest = o.real@.last().entry.t();
            let m = prefix_before(es, latest);
            lemma_prefix_before_bounds(es, latest);
            let st0: SortIn<E> = (o.real@, o.anchor->0 as int, fs.early_reserve@, 0, seq![]);
            let st = sort_in(st0, es.take(m), f);
            let rest = es.skip(m);
            assert(sort_line(st0, f as int) =~= ol);
            if of_feed(o.real@, f as int).len() > 0 {
                lemma_of_feed_nonempty(o.real@, f as int);
            }
            lemma_ascending_subrange(es, 0, m);
            assert(es.take(m) =~= es.subrange(0, m));
            if m > 0 {
                assert(es.take(m)[0] == es[0]);
            }
            lemma_sort_in_line(st0, es.take(m), f);
            assert(sort_line(st, f as int) == ol + es.take(m));
            let kk: int = if n.real@ == st.0 + placed_all(rest, f) && nf.late_reserve@.len() == 0 { rest.len() as int } else { room(0, rest.len() as int) };
            assert(0 <= kk <= rest.len());
            assert forall|g: int| 0 <= g < n.feeds@.len() implies #[trigger] n.line(g) == if g == f { ol + es.take(m + kk) } else { o.line(g) } by {
                lemma_of_feed_add(st.0, placed_all(rest, f), g);
                lemma_of_feed_placed(rest, f, g);
                if g == f {
                    assert(es.take(m) + rest.take(kk) =~= es.take(m + kk));
                    if n.real@ == st.0 + placed_all(rest, f) && nf.late_reserve@.len() == 0 {
                        assert(rest.take(kk) =~= rest);
                        assert(n.line(g) =~= sort_line(st, f as int) + rest.take(kk));
                    } else {
                        assert(n.line(g) =~= sort_line(st, f as int) + rest.take(kk));
                    }
                    assert((ol + es.take(m)) + rest.take(kk) =~= ol + es.take(m + kk));
                } else {
                    assert(n.feeds@[g] == o.feeds@[g]);
                    assert(of_feed(st.0, g) + Seq::<Timed<E>>::empty() =~= of_feed(st.0, g));
                }
            }
            lemma_ascending_subrange(es, 0, m + kk);
            assert(es.take(m + kk) =~= es.subrange(0, m + kk));
            if m + kk > 0 {
                assert(es.take(m + kk)[0] == es[0]);
            }
            lemma_ascending_concat(ol, es.take(m + kk));
            assert forall|g: int| 0 <= g < n.feeds@.len() implies ascending(#[trigger] n.line(g)) && (n.feeds@[g].initial ==> n.line(g).len() == 0) by {
                assert(n.line(g) == if g == f { ol + es.take(m + kk) } else { o.line(g) });
                if g != f {
                    assert(n.feeds@[g] == o.feeds@[g]);
                }
            }
        }
    }

    /// The early pivot is the first entry of the feed's line, the late pivot
    /// its last.
    proof fn lemma_pivots_line(self, g: int)
        requires
            0 <= g < self.feeds@.len(),
        ensures
            self.pivot_early(g) == if self.line(g).len() > 0 { Some(self.line(g)[0].t()) } else { None::<TimeView> },
            self.pivot_late(g) == if self.line(g).len() > 0 { Some(self.line(g).last().t()) } else { None::<TimeView> },
    {
        lemma_first_real_of_feed(self.real@, g);
        lemma_last_real_of_feed(self.real@, g);
        let er = self.feeds@[g].early_reserve@;
        let m = of_feed(self.real@, g);
        let lr = self.feeds@[g].late_reserve@;
        let l = self.line(g);
        assert(l == er.reverse() + m + lr);
        if er.len() > 0 {
            assert(l[0] == er.reverse()[0]);
        } else if m.len() > 0 {
            assert(l[0] == m[0]);
        } else if lr.len() > 0 {
            assert(l[0] == lr[0]);
        }
        if lr.len() > 0 {
            assert(l.last() == lr.last());
        } else if m.len() > 0 {
            assert(l.last() == m.last());
        } else if er.len() > 0 {
            assert(l.last() == er.reverse().last());
        }
    }
}

} // verus!
