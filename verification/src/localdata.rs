//! The client's local copies of server lists (identities, invitations,
//! channel groups, channels), each value stamped with when it was last
//! used, and how they are refreshed, touched, updated and removed.
use vstd::prelude::*;
use crate::shared::{ChannelGroupId, ChannelInviteId, Identity, IdentityInviteId, QualifiedChannelId};
use vstd::string::StringExecFns;
use crate::stamp::Stamp;
use crate::chat_time::{chars_lt, lemma_chars_lt_irreflexive, lemma_chars_lt_transitive};
use crate::text::chars_of;
use crate::wire::{ChannelGroupRes, ChannelInviteRes, ChannelRes, IdentityInviteRes, IdentityRes};

verus! {

/// A value kept locally, with when it was last used.
pub struct LocalValue<T> {
    pub last_used: Stamp,
    pub res: T,
}

/// A value that is found again by its id.
pub trait LocalKey {
    type Key;
    type KeyView;

    /// The id of the value.
    spec fn key(&self) -> Self::KeyView;

    /// An id as plain values.
    spec fn id_view(k: &Self::Key) -> Self::KeyView;

    /// Whether the two values have the same id.
    fn same_key(&self, other: &Self) -> (r: bool)
        ensures
            r == (self.key() == other.key()),
    ;

    /// Whether the value has id `k`.
    fn has_key(&self, k: &Self::Key) -> (r: bool)
        ensures
            r == (self.key() == Self::id_view(k)),
    ;
}

impl LocalKey for IdentityRes {
    type Key = Identity;
    type KeyView = Seq<char>;

    open spec fn key(&self) -> Seq<char> {
        self.id@
    }

    open spec fn id_view(k: &Identity) -> Seq<char> {
        k@
    }

    fn same_key(&self, other: &Self) -> (r: bool) {
        self.id.same(&other.id)
    }

    fn has_key(&self, k: &Identity) -> (r: bool) {
        self.id.same(k)
    }
}

impl LocalKey for IdentityInviteRes {
    type Key = IdentityInviteId;
    type KeyView = u64;

    open spec fn key(&self) -> u64 {
        self.id.0
    }

    open spec fn id_view(k: &IdentityInviteId) -> u64 {
        k.0
    }

    fn same_key(&self, other: &Self) -> (r: bool) {
        self.id.0 == other.id.0
    }

    fn has_key(&self, k: &IdentityInviteId) -> (r: bool) {
        self.id.0 == k.0
    }
}

impl LocalKey for ChannelGroupRes {
    type Key = ChannelGroupId;
    type KeyView = u64;

    open spec fn key(&self) -> u64 {
        self.id.0
    }

    open spec fn id_view(k: &ChannelGroupId) -> u64 {
        k.0
    }

    fn same_key(&self, other: &Self) -> (r: bool) {
        self.id.0 == other.id.0
    }

    fn has_key(&self, k: &ChannelGroupId) -> (r: bool) {
        self.id.0 == k.0
    }
}

impl LocalKey for ChannelRes {
    type Key = QualifiedChannelId;
    type KeyView = (Seq<char>, u64);

    open spec fn key(&self) -> (Seq<char>, u64) {
        self.id@
    }

    open spec fn id_view(k: &QualifiedChannelId) -> (Seq<char>, u64) {
        k@
    }

    fn same_key(&self, other: &Self) -> (r: bool) {
        self.id.same(&other.id)
    }

    fn has_key(&self, k: &QualifiedChannelId) -> (r: bool) {
        self.id.same(k)
    }
}

impl LocalKey for ChannelInviteRes {
    type Key = ChannelInviteId;
    type KeyView = u64;

    open spec fn key(&self) -> u64 {
        self.id.0
    }

    open spec fn id_view(k: &ChannelInviteId) -> u64 {
        k.0
    }

    fn same_key(&self, other: &Self) -> (r: bool) {
        self.id.0 == other.id.0
    }

    fn has_key(&self, k: &ChannelInviteId) -> (r: bool) {
        self.id.0 == k.0
    }
}

/// Whether `k` is the touched id.
pub open spec fn touched<V: LocalKey>(touch: Option<&V::Key>, k: V::KeyView) -> bool {
    touch matches Some(t) && V::id_view(t) == k
}

/// The last stored value with id `k`, if any.
pub open spec fn last_with_key<V: LocalKey>(old: Seq<LocalValue<V>>, k: V::KeyView) -> Option<LocalValue<V>>
    decreases old.len(),
{
    if old.len() == 0 {
        None
    } else if old.last().res.key() == k {
        Some(old.last())
    } else {
        last_with_key(old.drop_last(), k)
    }
}

/// When a fresh value was last used: now if it is the touched one, else
/// when its stored copy was (the last one stored with its id), else now.
pub open spec fn merged_last_used<V: LocalKey>(
    old: Seq<LocalValue<V>>,
    v: V,
    touch: Option<&V::Key>,
    now: int,
) -> int {
    if touched::<V>(touch, v.key()) {
        now
    } else {
        match last_with_key(old, v.key()) {
            Some(o) => o.last_used@,
            None => now,
        }
    }
}

/// Marks the values with the touched id as used `now`.
pub fn touch_values<V: LocalKey>(values: &mut Vec<LocalValue<V>>, touch: Option<&V::Key>, now: Stamp)
    ensures
        final(values)@.len() == old(values)@.len(),
        forall|i: int|
            0 <= i < final(values)@.len() ==> (#[trigger] final(values)@[i]).res == old(values)@[i].res
                && final(values)@[i].last_used@ == if touched::<V>(touch, old(values)@[i].res.key()) {
                now@
            } else {
                old(values)@[i].last_used@
            },
{
    let t = match touch {
        Some(t) => t,
        None => {
            return;
        },
    };
    let ghost o = values@;
    let mut i: usize = 0;
    while i < values.len()
        invariant
            i <= values@.len(),
            values@.len() == o.len(),
            touch == Some(t),
            forall|j: int|
                0 <= j < values@.len() ==> (#[trigger] values@[j]).res == o[j].res
                    && values@[j].last_used@ == if j < i && touched::<V>(touch, o[j].res.key()) {
                    now@
                } else {
                    o[j].last_used@
                },
        decreases values@.len() - i,
    {
        if values[i].res.has_key(t) {
            let v = values.remove(i);
            values.insert(i, LocalValue { last_used: now, res: v.res });
        }
        i = i + 1;
    }
}

fn find_last_with_key<V: LocalKey>(old: &Vec<LocalValue<V>>, v: &V) -> (r: Option<usize>)
    ensures
        match last_with_key(old@, v.key()) {
            Some(x) => r matches Some(i) && i < old@.len() && old@[i as int] == x,
            None => r is None,
        },
{
    let mut i: usize = old.len();
    proof {
        assert(old@.take(i as int) =~= old@);
    }
    while i > 0
        invariant
            i <= old@.len(),
            last_with_key(old@, v.key()) == last_with_key(old@.take(i as int), v.key()),
        decreases i,
    {
        proof {
            assert(old@.take(i as int).drop_last() =~= old@.take(i - 1));
        }
        if old[i - 1].res.same_key(v) {
            return Some(i - 1);
        }
        i = i - 1;
    }
    None
}

/// The fresh list from the server, each value stamped with when it was
/// last used (see `merged_last_used`), in the server's order.
pub fn merge_api_values<V: LocalKey>(
    old: &Vec<LocalValue<V>>,
    fresh: Vec<V>,
    touch: Option<&V::Key>,
    now: Stamp,
) -> (r: Vec<LocalValue<V>>)
    ensures
        r@.len() == fresh@.len(),
        forall|i: int|
            0 <= i < r@.len() ==> (#[trigger] r@[i]).res == fresh@[i] && r@[i].last_used@
                == merged_last_used(old@, fresh@[i], touch, now@),
{
    let ghost fs = fresh@;
    let mut fresh = fresh;
    let mut out: Vec<LocalValue<V>> = Vec::new();
    let mut i: usize = 0;
    let n = fresh.len();
    while fresh.len() > 0
        invariant
            i + fresh@.len() == fs.len(),
            fs.len() == n,
            fresh@ == fs.skip(i as int),
            out@.len() == i,
            forall|j: int|
                0 <= j < i ==> (#[trigger] out@[j]).res == fs[j] && out@[j].last_used@
                    == merged_last_used(old@, fs[j], touch, now@),
        decreases fresh@.len(),
    {
        let v = fresh.remove(0);
        proof {
            assert(v == fs[i as int]);
        }
        let is_touched = match touch {
            Some(t) => v.has_key(t),
            None => false,
        };
        let last_used = if is_touched {
            now
        } else {
            match find_last_with_key(old, &v) {
                Some(k) => old[k].last_used,
                None => now,
            }
        };
        out.push(LocalValue { last_used, res: v });
        i = i + 1;
        proof {
            assert(fresh@ =~= fs.skip(i as int));
        }
    }
    out
}

/// The stored list with `v` in place of the first value with its id, used
/// `now`; or with `v` added at the end when there is none.
pub fn ensure_value<V: LocalKey>(values: Vec<LocalValue<V>>, v: V, now: Stamp) -> (r: Vec<
    LocalValue<V>,
>)
    ensures
        match first_index_with_key(values@, v.key()) {
            Some(i) => r@ == values@.update(i, LocalValue { last_used: now, res: v }),
            None => r@ == values@.push(LocalValue { last_used: now, res: v }),
        },
{
    let ghost vs = values@;
    let mut vals = values;
    let mut i: usize = 0;
    while i < vals.len()
        invariant
            i <= vals@.len(),
            vals@ == vs,
            vs == values@,
            forall|j: int| 0 <= j < i ==> (#[trigger] vals@[j]).res.key() != v.key(),
        decreases values@.len() - i,
    {
        if vals[i].res.same_key(&v) {
            proof {
                lemma_first_index_with_key(vals@, v.key(), i as int);
            }
            let _ = vals.remove(i);
            vals.insert(i, LocalValue { last_used: now, res: v });
            proof {
                assert(vals@ =~= vs.update(i as int, LocalValue { last_used: now, res: v }));
            }
            return vals;
        }
        i = i + 1;
    }
    proof {
        lemma_first_index_none(vals@, v.key());
    }
    vals.push(LocalValue { last_used: now, res: v });
    vals
}

/// The position of the first value with id `k`.
pub open spec fn first_index_with_key<V: LocalKey>(s: Seq<LocalValue<V>>, k: V::KeyView) -> Option<int>
    decreases s.len(),
{
    if s.len() == 0 {
        None
    } else if s[0].res.key() == k {
        Some(0)
    } else {
        match first_index_with_key(s.drop_first(), k) {
            Some(i) => Some(i + 1),
            None => None,
        }
    }
}

proof fn lemma_first_index_with_key<V: LocalKey>(s: Seq<LocalValue<V>>, k: V::KeyView, i: int)
    requires
        0 <= i < s.len(),
        s[i].res.key() == k,
        forall|j: int| 0 <= j < i ==> (#[trigger] s[j]).res.key() != k,
    ensures
        first_index_with_key(s, k) == Some(i),
    decreases i,
{
    if i > 0 {
        assert(s[0].res.key() != k);
        assert forall|j: int| 0 <= j < i - 1 implies (#[trigger] s.drop_first()[j]).res.key() != k by {
            assert(s.drop_first()[j] == s[j + 1]);
        }
        lemma_first_index_with_key(s.drop_first(), k, i - 1);
    }
}

proof fn lemma_first_index_none<V: LocalKey>(s: Seq<LocalValue<V>>, k: V::KeyView)
    requires
        forall|j: int| 0 <= j < s.len() ==> (#[trigger] s[j]).res.key() != k,
    ensures
        first_index_with_key(s, k) is None,
    decreases s.len(),
{
    if s.len() > 0 {
        assert(s[0].res.key() != k);
        assert forall|j: int| 0 <= j < s.len() - 1 implies (#[trigger] s.drop_first()[j]).res.key() != k by {
            assert(s.drop_first()[j] == s[j + 1]);
        }
        lemma_first_index_none(s.drop_first(), k);
    }
}

proof fn lemma_first_index_found<V: LocalKey>(s: Seq<LocalValue<V>>, k: V::KeyView)
    ensures
        match first_index_with_key(s, k) {
            Some(i) => 0 <= i < s.len() && s[i].res.key() == k && forall|j: int| 0 <= j < i ==> (#[trigger] s[j]).res.key() != k,
            None => forall|j: int| 0 <= j < s.len() ==> (#[trigger] s[j]).res.key() != k,
        },
    decreases s.len(),
{
    if s.len() > 0 && s[0].res.key() != k {
        let t = s.drop_first();
        lemma_first_index_found(t, k);
        match first_index_with_key(t, k) {
            Some(i) => {
                assert forall|j: int| 0 <= j < i + 1 implies (#[trigger] s[j]).res.key() != k by {
                    if j > 0 {
                        assert(s[j] == t[j - 1]);
                    }
                }
                assert(s[i + 1] == t[i]);
            },
            None => {
                assert forall|j: int| 0 <= j < s.len() implies (#[trigger] s[j]).res.key() != k by {
                    if j > 0 {
                        assert(s[j] == t[j - 1]);
                    }
                }
            },
        }
    }
}

/// The stored values with ids other than `v`'s.
pub open spec fn without_key<V: LocalKey>(s: Seq<LocalValue<V>>, k: V::KeyView) -> Seq<LocalValue<V>>
    decreases s.len(),
{
    if s.len() == 0 {
        seq![]
    } else if s.last().res.key() == k {
        without_key(s.drop_last(), k)
    } else {
        without_key(s.drop_last(), k).push(s.last())
    }
}

/// The stored list without the values that have `v`'s id.
pub fn delete_value<V: LocalKey>(values: Vec<LocalValue<V>>, v: &V) -> (r: Vec<LocalValue<V>>)
    ensures
        r@ == without_key(values@, v.key()),
{
    let ghost vs = values@;
    let mut values = values;
    let mut out: Vec<LocalValue<V>> = Vec::new();
    let mut i: usize = 0;
    let n = values.len();
    while values.len() > 0
        invariant
            i + values@.len() == vs.len(),
            vs.len() == n,
            values@ == vs.skip(i as int),
            out@ == without_key(vs.take(i as int), v.key()),
        decreases values@.len(),
    {
        let x = values.remove(0);
        proof {
            assert(x == vs[i as int]);
            assert(vs.take(i + 1).drop_last() =~= vs.take(i as int));
            assert(vs.take(i + 1).last() == x);
        }
        if !x.res.same_key(v) {
            out.push(x);
        }
        i = i + 1;
        proof {
            assert(values@ =~= vs.skip(i as int));
        }
    }
    proof {
        assert(vs.take(i as int) =~= vs);
    }
    out
}

/// After a value is deleted, no stored value has its id.
pub proof fn law_delete_removes<V: LocalKey>(s: Seq<LocalValue<V>>, k: V::KeyView)
    ensures
        forall|i: int| 0 <= i < without_key(s, k).len() ==> (#[trigger] without_key(s, k)[i]).res.key() != k,
    decreases s.len(),
{
    if s.len() > 0 {
        law_delete_removes(s.drop_last(), k);
        let w = without_key(s.drop_last(), k);
        if s.last().res.key() != k {
            assert forall|i: int| 0 <= i < w.len() + 1 implies (#[trigger] w.push(s.last())[i]).res.key() != k by {
                if i < w.len() {
                    assert(w.push(s.last())[i] == w[i]);
                }
            }
        }
    }
}

/// After a value is ensured, exactly one stored value carries it if none
/// had its id before; and the ensured value is found first under its id.
pub proof fn law_ensure_finds<V: LocalKey>(s: Seq<LocalValue<V>>, v: V, now: Stamp)
    ensures
        ({
            let r = match first_index_with_key(s, v.key()) {
                Some(i) => s.update(i, LocalValue { last_used: now, res: v }),
                None => s.push(LocalValue { last_used: now, res: v }),
            };
            first_index_with_key(r, v.key()) matches Some(j) && r[j] == LocalValue { last_used: now, res: v }
        }),
{
    lemma_first_index_found(s, v.key());
    let x = LocalValue { last_used: now, res: v };
    match first_index_with_key(s, v.key()) {
        Some(i) => {
            let r = s.update(i, x);
            assert forall|j: int| 0 <= j < i implies (#[trigger] r[j]).res.key() != v.key() by {
                assert(r[j] == s[j]);
            }
            lemma_first_index_with_key(r, v.key(), i);
        },
        None => {
            let r = s.push(x);
            assert forall|j: int| 0 <= j < s.len() implies (#[trigger] r[j]).res.key() != v.key() by {
                assert(r[j] == s[j]);
            }
            lemma_first_index_with_key(r, v.key(), s.len() as int);
        },
    }
}

/// How recently a value was used, for ordering lists: later use first, then
/// by short memo.
pub type Recency = (int, Seq<char>);

/// `a` is listed before `b`: used later, or used at the same time with a
/// short memo that sorts first.
pub open spec fn recency_lt(a: Recency, b: Recency) -> bool {
    a.0 > b.0 || (a.0 == b.0 && chars_lt(a.1, b.1))
}

pub proof fn lemma_recency_order(a: Recency, b: Recency, c: Recency)
    ensures
        !recency_lt(a, a),
        recency_lt(a, b) ==> !recency_lt(b, a),
        recency_lt(a, b) && recency_lt(b, c) ==> recency_lt(a, c),
{
    lemma_chars_lt_irreflexive(a.1);
    if recency_lt(a, b) && recency_lt(b, a) {
        lemma_chars_lt_transitive(a.1, b.1, a.1);
    }
    if recency_lt(a, b) && recency_lt(b, c) && a.0 == b.0 && b.0 == c.0 {
        lemma_chars_lt_transitive(a.1, b.1, c.1);
    }
}

/// Values listed by how recently they were used.
pub trait Recent {
    spec fn recency(&self) -> Recency;

    /// Whether `self` is listed before `other`.
    fn listed_before(&self, other: &Self) -> (r: bool)
        ensures
            r == recency_lt(self.recency(), other.recency()),
    ;
}

fn memo_before(a: &String, b: &String) -> (r: bool)
    ensures
        r == chars_lt(a@, b@),
{
    let x = chars_of(a.as_str());
    let y = chars_of(b.as_str());
    let mut i: usize = 0;
    proof {
        assert(x@.skip(0) =~= x@);
        assert(y@.skip(0) =~= y@);
    }
    while i < x.len() && i < y.len() && x[i] == y[i]
        invariant
            i <= x@.len(),
            i <= y@.len(),
            chars_lt(x@, y@) == chars_lt(x@.skip(i as int), y@.skip(i as int)),
        decreases x@.len() - i,
    {
        proof {
            assert(x@.skip(i as int).drop_first() =~= x@.skip(i + 1));
            assert(y@.skip(i as int).drop_first() =~= y@.skip(i + 1));
        }
        i = i + 1;
    }
    if i < x.len() && i < y.len() {
        proof {
            assert(x@.skip(i as int)[0] == x@[i as int]);
            assert(y@.skip(i as int)[0] == y@[i as int]);
        }
        x[i] < y[i]
    } else {
        proof {
            assert(x@.skip(i as int).len() == x@.len() - i);
            assert(y@.skip(i as int).len() == y@.len() - i);
        }
        i == x.len() && i < y.len()
    }
}

fn recency_before(a_used: &Stamp, a_memo: &String, b_used: &Stamp, b_memo: &String) -> (r: bool)
    ensures
        r == recency_lt((a_used@, a_memo@), (b_used@, b_memo@)),
{
    if b_used.lt(a_used) {
        true
    } else if a_used.lt(b_used) {
        false
    } else {
        memo_before(a_memo, b_memo)
    }
}

impl Recent for LocalValue<ChannelRes> {
    open spec fn recency(&self) -> Recency {
        (self.last_used@, self.res.memo_short@)
    }

    fn listed_before(&self, other: &Self) -> (r: bool) {
        recency_before(&self.last_used, &self.res.memo_short, &other.last_used, &other.res.memo_short)
    }
}

/// A local identity with its local channels.
pub struct LocalIdentityTree {
    pub v: LocalValue<IdentityRes>,
    pub children: Vec<LocalValue<ChannelRes>>,
}

impl Recent for LocalIdentityTree {
    open spec fn recency(&self) -> Recency {
        (self.v.last_used@, self.v.res.memo_short@)
    }

    fn listed_before(&self, other: &Self) -> (r: bool) {
        recency_before(&self.v.last_used, &self.v.res.memo_short, &other.v.last_used, &other.v.res.memo_short)
    }
}

/// Where `x` goes among `s`: before the first value it is listed before.
pub open spec fn insert_pos<T: Recent>(s: Seq<T>, x: T) -> int
    decreases s.len(),
{
    if s.len() == 0 {
        0
    } else if recency_lt(x.recency(), s[0].recency()) {
        0
    } else {
        1 + insert_pos(s.drop_first(), x)
    }
}

/// `s` listed by recency, keeping the order of values listed alike (a
/// stable sort).
pub open spec fn by_recency<T: Recent>(s: Seq<T>) -> Seq<T>
    decreases s.len(),
{
    if s.len() == 0 {
        s
    } else {
        let r = by_recency(s.drop_last());
        r.insert(insert_pos(r, s.last()), s.last())
    }
}

proof fn lemma_insert_pos<T: Recent>(s: Seq<T>, x: T, k: int)
    requires
        0 <= k <= s.len(),
        forall|j: int| 0 <= j < k ==> !recency_lt(x.recency(), #[trigger] s[j].recency()),
        k == s.len() || recency_lt(x.recency(), s[k].recency()),
    ensures
        insert_pos(s, x) == k,
    decreases k,
{
    if k > 0 {
        assert(!recency_lt(x.recency(), s[0].recency()));
        assert forall|j: int| 0 <= j < k - 1 implies !recency_lt(x.recency(), #[trigger] s.drop_first()[j].recency()) by {
            assert(s.drop_first()[j] == s[j + 1]);
        }
        lemma_insert_pos(s.drop_first(), x, k - 1);
    }
}

proof fn lemma_insert_pos_bounds<T: Recent>(s: Seq<T>, x: T)
    ensures
        0 <= insert_pos(s, x) <= s.len(),
        forall|j: int| 0 <= j < insert_pos(s, x) ==> !recency_lt(x.recency(), #[trigger] s[j].recency()),
        insert_pos(s, x) < s.len() ==> recency_lt(x.recency(), s[insert_pos(s, x)].recency()),
    decreases s.len(),
{
    if s.len() > 0 && !recency_lt(x.recency(), s[0].recency()) {
        let t = s.drop_first();
        lemma_insert_pos_bounds(t, x);
        assert forall|j: int| 0 <= j < insert_pos(s, x) implies !recency_lt(x.recency(), #[trigger] s[j].recency()) by {
            if j > 0 {
                assert(s[j] == t[j - 1]);
            }
        }
        if insert_pos(s, x) < s.len() {
            assert(s[insert_pos(s, x)] == t[insert_pos(t, x)]);
        }
    }
}

/// Whether values are listed by recency: none is listed before one ahead
/// of it.
pub open spec fn listed<T: Recent>(s: Seq<T>) -> bool {
    forall|i: int, j: int| 0 <= i < j < s.len() ==> !recency_lt(#[trigger] s[j].recency(), #[trigger] s[i].recency())
}

/// Listing by recency gives a list in recency order holding the same
/// values.
pub proof fn law_by_recency<T: Recent>(s: Seq<T>)
    ensures
        listed(by_recency(s)),
        by_recency(s).to_multiset() == s.to_multiset(),
        by_recency(s).len() == s.len(),
    decreases s.len(),
{
    broadcast use vstd::seq_lib::to_multiset_insert;
    broadcast use vstd::seq_lib::to_multiset_build;
    if s.len() > 0 {
        let r = by_recency(s.drop_last());
        law_by_recency(s.drop_last());
        let x = s.last();
        let p = insert_pos(r, x);
        lemma_insert_pos_bounds(r, x);
        let n = r.insert(p, x);
        r.insert_ensures(p, x);
        assert(s.drop_last().push(x) =~= s);
        assert forall|i: int, j: int| 0 <= i < j < n.len() implies !recency_lt(#[trigger] n[j].recency(), #[trigger] n[i].recency()) by {
            let ri = n[i].recency();
            let rj = n[j].recency();
            if i == p {
                // n[j] is r[j - 1], at or after r[p], which x is listed before
                assert(n[j] == r[j - 1]);
                let rp = r[p].recency();
                lemma_recency_order(x.recency(), rp, rj);
                lemma_recency_order(rj, x.recency(), rp);
                if j - 1 > p {
                    assert(!recency_lt(r[j - 1].recency(), r[p].recency()));
                }
            } else if j == p {
                assert(n[i] == r[i]);
            } else {
                let i2 = if i < p { i } else { i - 1 };
                let j2 = if j < p { j } else { j - 1 };
                assert(n[i] == r[i2]);
                assert(n[j] == r[j2]);
            }
        }
    }
}

fn list_by_recency<T: Recent>(v: Vec<T>) -> (r: Vec<T>)
    ensures
        r@ == by_recency(v@),
{
    let ghost vs = v@;
    let mut v = v;
    let mut out: Vec<T> = Vec::new();
    let mut i: usize = 0;
    let n = v.len();
    proof {
        assert(vs.take(0) =~= Seq::<T>::empty());
    }
    while v.len() > 0
        invariant
            i + v@.len() == vs.len(),
            vs.len() == n,
            v@ == vs.skip(i as int),
            out@ == by_recency(vs.take(i as int)),
        decreases v@.len(),
    {
        let x = v.remove(0);
        proof {
            assert(x == vs[i as int]);
            assert(vs.take(i + 1).drop_last() =~= vs.take(i as int));
            assert(vs.take(i + 1).last() == x);
        }
        let mut k: usize = 0;
        while k < out.len() && !x.listed_before(&out[k])
            invariant
                k <= out@.len(),
                forall|j: int| 0 <= j < k ==> !recency_lt(x.recency(), #[trigger] out@[j].recency()),
            decreases out@.len() - k,
        {
            k = k + 1;
        }
        proof {
            lemma_insert_pos(out@, x, k as int);
        }
        out.insert(k, x);
        i = i + 1;
        proof {
            assert(v@ =~= vs.skip(i as int));
        }
    }
    proof {
        assert(vs.take(i as int) =~= vs);
    }
    out
}

/// The channels of identity `id` among `cs`, in order.
pub open spec fn channels_of(cs: Seq<LocalValue<ChannelRes>>, id: Seq<char>) -> Seq<LocalValue<ChannelRes>>
    decreases cs.len(),
{
    if cs.len() == 0 {
        seq![]
    } else if cs.last().res.id.identity@ == id {
        channels_of(cs.drop_last(), id).push(cs.last())
    } else {
        channels_of(cs.drop_last(), id)
    }
}

/// The local identities, each with its local channels listed by recency,
/// listed by recency. Channels of an identity that is not listed are left
/// out; an identity listed twice has its channels only the first time.
pub fn combine_local_values(
    local_identities: Vec<LocalValue<IdentityRes>>,
    local_channels: Vec<LocalValue<ChannelRes>>,
) -> (r: Vec<LocalIdentityTree>)
    ensures
        exists|trees: Seq<LocalIdentityTree>|
            #[trigger] by_recency(trees) == r@ && trees.len() == local_identities@.len() && forall|i: int|
                0 <= i < trees.len() ==> {
                    let t = #[trigger] trees[i];
                    &&& t.v == local_identities@[i]
                    &&& t.children@ == if exists|j: int| 0 <= j < i && local_identities@[j].res.id@ == local_identities@[i].res.id@ {
                        Seq::<LocalValue<ChannelRes>>::empty()
                    } else {
                        by_recency(channels_of(local_channels@, local_identities@[i].res.id@))
                    }
                },
{
    let ghost ids = local_identities@;
    let ghost cs = local_channels@;
    let mut local_identities = local_identities;
    let mut pool = local_channels;
    let mut trees: Vec<LocalIdentityTree> = Vec::new();
    let mut i: usize = 0;
    let n = local_identities.len();
    while local_identities.len() > 0
        invariant
            i + local_identities@.len() == ids.len(),
            ids.len() == n,
            local_identities@ == ids.skip(i as int),
            trees@.len() == i,
            forall|k: int|
                0 <= k < i ==> {
                    let t = #[trigger] trees@[k];
                    &&& t.v == ids[k]
                    &&& t.children@ == if exists|j: int| 0 <= j < k && ids[j].res.id@ == ids[k].res.id@ {
                        Seq::<LocalValue<ChannelRes>>::empty()
                    } else {
                        by_recency(channels_of(cs, ids[k].res.id@))
                    }
                },
            forall|id: Seq<char>|
                #[trigger] channels_of(pool@, id) == if exists|j: int| 0 <= j < i && ids[j].res.id@ == id {
                    Seq::<LocalValue<ChannelRes>>::empty()
                } else {
                    channels_of(cs, id)
                },
        decreases local_identities@.len(),
    {
        let ident = local_identities.remove(0);
        proof {
            assert(ident == ids[i as int]);
        }
        let ghost pool0 = pool@;
        let (mine, rest) = split_channels(pool, &ident.res.id);
        pool = rest;
        let children = list_by_recency(mine);
        trees.push(LocalIdentityTree { v: ident, children });
        proof {
            assert forall|id: Seq<char>| #[trigger] channels_of(pool@, id) == if exists|j: int| 0 <= j < i + 1 && ids[j].res.id@ == id {
                Seq::<LocalValue<ChannelRes>>::empty()
            } else {
                channels_of(cs, id)
            } by {
                if id == ids[i as int].res.id@ {
                    assert(ids[i as int].res.id@ == id);
                } else {
                    if exists|j: int| 0 <= j < i + 1 && ids[j].res.id@ == id {
                        let j = choose|j: int| 0 <= j < i + 1 && ids[j].res.id@ == id;
                        assert(j < i);
                    }
                }
            }
        }
        i = i + 1;
        proof {
            assert(local_identities@ =~= ids.skip(i as int));
        }
    }
    let ghost tr = trees@;
    let r = list_by_recency(trees);
    proof {
        assert(by_recency(tr) == r@);
    }
    r
}

/// Splits channels into those of identity `id` and the others, each in
/// order.
fn split_channels(cs: Vec<LocalValue<ChannelRes>>, id: &Identity) -> (r: (Vec<LocalValue<ChannelRes>>, Vec<LocalValue<ChannelRes>>))
    ensures
        r.0@ == channels_of(cs@, id@),
        forall|other: Seq<char>| #[trigger] channels_of(r.1@, other) == if other == id@ {
            Seq::<LocalValue<ChannelRes>>::empty()
        } else {
            channels_of(cs@, other)
        },
{
    let ghost s = cs@;
    let mut cs = cs;
    let mut mine: Vec<LocalValue<ChannelRes>> = Vec::new();
    let mut rest: Vec<LocalValue<ChannelRes>> = Vec::new();
    let mut i: usize = 0;
    let n = cs.len();
    while cs.len() > 0
        invariant
            i + cs@.len() == s.len(),
            s.len() == n,
            cs@ == s.skip(i as int),
            mine@ == channels_of(s.take(i as int), id@),
            forall|other: Seq<char>| #[trigger] channels_of(rest@, other) == if other == id@ {
                Seq::<LocalValue<ChannelRes>>::empty()
            } else {
                channels_of(s.take(i as int), other)
            },
        decreases cs@.len(),
    {
        let c = cs.remove(0);
        proof {
            assert(c == s[i as int]);
            assert(s.take(i + 1).drop_last() =~= s.take(i as int));
            assert(s.take(i + 1).last() == c);
        }
        let ghost rest0 = rest@;
        if c.res.id.identity.same(id) {
            mine.push(c);
        } else {
            rest.push(c);
            proof {
                assert forall|other: Seq<char>| #[trigger] channels_of(rest@, other) == if other == id@ {
                    Seq::<LocalValue<ChannelRes>>::empty()
                } else {
                    channels_of(s.take(i + 1), other)
                } by {
                    assert(rest@.drop_last() =~= rest0);
                    assert(channels_of(rest0, other) == if other == id@ {
                        Seq::<LocalValue<ChannelRes>>::empty()
                    } else {
                        channels_of(s.take(i as int), other)
                    });
                }
            }
        }
        i = i + 1;
        proof {
            assert(cs@ =~= s.skip(i as int));
        }
    }
    proof {
        assert(s.take(i as int) =~= s);
    }
    (mine, rest)
}

/// An identity of the user in a channel of a group, with its short memo
/// when the identity is known locally.
pub struct GroupChannelIdent {
    pub ident: Identity,
    pub memo_short: Option<String>,
}

/// A channel of a group, with the user's identities in it.
pub struct GroupChannel {
    pub channel: QualifiedChannelId,
    pub memo_short: String,
    pub idents: Vec<GroupChannelIdent>,
}

/// The short memo of the last local identity `who`, if any.
pub open spec fn ident_memo(ids: Seq<LocalValue<IdentityRes>>, who: Seq<char>) -> Option<Seq<char>>
    decreases ids.len(),
{
    if ids.len() == 0 {
        None
    } else if ids.last().res.id@ == who {
        Some(ids.last().res.memo_short@)
    } else {
        ident_memo(ids.drop_last(), who)
    }
}

/// The local channels in group `g`, in order.
pub open spec fn in_group(cs: Seq<LocalValue<ChannelRes>>, g: ChannelGroupId) -> Seq<LocalValue<ChannelRes>>
    decreases cs.len(),
{
    if cs.len() == 0 {
        seq![]
    } else if cs.last().res.group == Some(g) {
        in_group(cs.drop_last(), g).push(cs.last())
    } else {
        in_group(cs.drop_last(), g)
    }
}

/// The entries of `cs` for channel `c`, in order.
pub open spec fn entries_for(cs: Seq<LocalValue<ChannelRes>>, c: (Seq<char>, u64)) -> Seq<LocalValue<ChannelRes>>
    decreases cs.len(),
{
    if cs.len() == 0 {
        seq![]
    } else if cs.last().res.id@ == c {
        entries_for(cs.drop_last(), c).push(cs.last())
    } else {
        entries_for(cs.drop_last(), c)
    }
}

/// A group channel as plain values: the channel, its memo, and each of the
/// user's identities in it with the identity's memo.
pub type GroupChannelView = ((Seq<char>, u64), Seq<char>, Seq<(Seq<char>, Option<Seq<char>>)>);

impl GroupChannel {
    pub open spec fn gc_view(self) -> GroupChannelView {
        (
            self.channel@,
            self.memo_short@,
            Seq::new(self.idents@.len(), |k: int| (self.idents@[k].ident@, match self.idents@[k].memo_short {
                Some(m) => Some(m@),
                None => None,
            })),
        )
    }
}

/// The group channel for channel `c`: the memo of its first entry, and the
/// identity of each entry with that identity's memo.
pub open spec fn group_channel_of(
    es: Seq<LocalValue<ChannelRes>>,
    ids: Seq<LocalValue<IdentityRes>>,
    c: (Seq<char>, u64),
) -> GroupChannelView {
    let mine = entries_for(es, c);
    (c, mine[0].res.memo_short@, Seq::new(mine.len(), |k: int| (mine[k].res.own_identity@, ident_memo(ids, mine[k].res.own_identity@))))
}

fn copy_identity(i: &Identity) -> (r: Identity)
    ensures
        r@ == i@,
{
    Identity { text: i.text.clone() }
}

fn copy_channel_id(c: &QualifiedChannelId) -> (r: QualifiedChannelId)
    ensures
        r@ == c@,
{
    QualifiedChannelId { identity: copy_identity(&c.identity), channel: c.channel }
}

fn find_ident_memo(ids: &Vec<LocalValue<IdentityRes>>, who: &Identity) -> (r: Option<String>)
    ensures
        match ident_memo(ids@, who@) {
            Some(m) => r matches Some(x) && x@ == m,
            None => r is None,
        },
{
    let mut i: usize = ids.len();
    proof {
        assert(ids@.take(i as int) =~= ids@);
    }
    while i > 0
        invariant
            i <= ids@.len(),
            ident_memo(ids@, who@) == ident_memo(ids@.take(i as int), who@),
        decreases i,
    {
        proof {
            assert(ids@.take(i as int).drop_last() =~= ids@.take(i - 1));
        }
        if ids[i - 1].res.id.same(who) {
            return Some(ids[i - 1].res.memo_short.clone());
        }
        i = i - 1;
    }
    None
}

/// The channels of group `g` among the local channels, each once, in the
/// order they first appear, each with the user's identities in it (see
/// `group_channel_of`).
pub fn group_channels(
    g: ChannelGroupId,
    identities: &Vec<LocalValue<IdentityRes>>,
    channels: Vec<LocalValue<ChannelRes>>,
) -> (r: Vec<GroupChannel>)
    ensures
        ({
            let es = in_group(channels@, g);
            &&& forall|i: int| 0 <= i < r@.len() ==> (#[trigger] r@[i]).gc_view() == group_channel_of(es, identities@, r@[i].channel@)
            &&& forall|i: int, j: int| 0 <= i < j < r@.len() ==> r@[i].channel@ != r@[j].channel@
            &&& forall|k: int| 0 <= k < es.len() ==> is_listed(r@, (#[trigger] es[k]).res.id@)
            &&& forall|i: int| 0 <= i < r@.len() ==> entries_for(es, #[trigger] r@[i].channel@).len() > 0
        }),
{
    let ghost cs = channels@;
    let mut pending = channels;
    let mut out: Vec<GroupChannel> = Vec::new();
    let mut i: usize = 0;
    let n = pending.len();
    while pending.len() > 0
        invariant
            i + pending@.len() == cs.len(),
            cs.len() == n,
            pending@ == cs.skip(i as int),
            cs == channels@,
            ({
                let es = in_group(cs.take(i as int), g);
                &&& forall|a: int| 0 <= a < out@.len() ==> (#[trigger] out@[a]).gc_view() == group_channel_of(es, identities@, out@[a].channel@)
                &&& forall|a: int, b: int| 0 <= a < b < out@.len() ==> out@[a].channel@ != out@[b].channel@
                &&& forall|k: int| 0 <= k < es.len() ==> is_listed(out@, (#[trigger] es[k]).res.id@)
                &&& forall|a: int| 0 <= a < out@.len() ==> entries_for(es, #[trigger] out@[a].channel@).len() > 0
            }),
        decreases pending@.len(),
    {
        let c = pending.remove(0);
        let ghost es0 = in_group(cs.take(i as int), g);
        proof {
            assert(c == cs[i as int]);
            assert(cs.take(i + 1).drop_last() =~= cs.take(i as int));
            assert(cs.take(i + 1).last() == c);
        }
        let in_g = match c.res.group {
            Some(x) => x.0 == g.0,
            None => false,
        };
        if in_g {
            let ghost es1 = es0.push(c);
            assert(in_group(cs.take(i + 1), g) == es1);
            let memo = find_ident_memo(identities, &c.res.own_identity);
            let mut a: usize = 0;
            while a < out.len() && !out[a].channel.same(&c.res.id)
                invariant
                    a <= out@.len(),
                    forall|b: int| 0 <= b < a ==> (#[trigger] out@[b]).channel@ != c.res.id@,
                decreases out@.len() - a,
            {
                a = a + 1;
            }
            let ghost out0 = out@;
            if a < out.len() {
                let mut gc = out.remove(a);
                let ghost idents0 = gc.idents@;
                gc.idents.push(GroupChannelIdent { ident: c.res.own_identity, memo_short: memo });
                out.insert(a, gc);
                proof {
                    assert(out@ =~= out0.update(a as int, gc));
                    assert(entries_for(es1, c.res.id@) == entries_for(es0, c.res.id@).push(c)) by {
                        assert(es1.drop_last() =~= es0);
                    }
                    assert forall|x: int| 0 <= x < out@.len() implies (#[trigger] out@[x]).gc_view() == group_channel_of(es1, identities@, out@[x].channel@) by {
                        if x == a {
                            let mine0 = entries_for(es0, c.res.id@);
                            let mine1 = entries_for(es1, c.res.id@);
                            assert(mine0.len() > 0);
                            assert(mine1 == mine0.push(c));
                            assert(mine1[0] == mine0[0]);
                            let old_v = out0[x];
                            let v = out@[x];
                            assert(old_v.gc_view() == group_channel_of(es0, identities@, c.res.id@));
                            assert(v.idents@ == old_v.idents@.push(GroupChannelIdent { ident: c.res.own_identity, memo_short: memo }));
                            assert(match memo { Some(m) => Some(m@), None => None } == ident_memo(identities@, c.res.own_identity@));
                            assert(v.gc_view().2 =~= old_v.gc_view().2.push((c.res.own_identity@, ident_memo(identities@, c.res.own_identity@))));
                            assert(group_channel_of(es1, identities@, c.res.id@).2 =~= group_channel_of(es0, identities@, c.res.id@).2.push((c.res.own_identity@, ident_memo(identities@, c.res.own_identity@))));
                            assert(out@[x].gc_view().2 =~= group_channel_of(es1, identities@, out@[x].channel@).2);
                        } else {
                            assert(out@[x] == out0[x]);
                            assert(entries_for(es1, out0[x].channel@) == entries_for(es0, out0[x].channel@)) by {
                                assert(es1.drop_last() =~= es0);
                            }
                        }
                    }
                    assert forall|a2: int| 0 <= a2 < out@.len() implies entries_for(es1, #[trigger] out@[a2].channel@).len() > 0 by {
                        assert(es1.drop_last() =~= es0);
                        assert(out@[a2].channel@ == out0[a2].channel@);
                    }
                    assert forall|k: int| 0 <= k < es1.len() implies is_listed(out@, (#[trigger] es1[k]).res.id@) by {
                        if k < es0.len() {
                            assert(es1[k] == es0[k]);
                            assert(is_listed(out0, es0[k].res.id@));
                            let b = choose|b: int| 0 <= b < out0.len() && #[trigger] out0[b].channel@ == es0[k].res.id@;
                            assert(out@[b].channel@ == out0[b].channel@);
                        } else {
                            assert(out@[a as int].channel@ == c.res.id@);
                        }
                    }
                }
            } else {
                let id = copy_channel_id(&c.res.id);
                let mut idents: Vec<GroupChannelIdent> = Vec::new();
                let memo_short = c.res.memo_short;
                idents.push(GroupChannelIdent { ident: c.res.own_identity, memo_short: memo });
                out.push(GroupChannel { channel: id, memo_short, idents });
                proof {
                    let cid = c.res.id@;
                    assert(entries_for(es0, cid).len() == 0) by {
                        lemma_entries_for_absent(es0, cid);
                        assert forall|k: int| 0 <= k < es0.len() implies (#[trigger] es0[k]).res.id@ != cid by {
                            assert(is_listed(out0, es0[k].res.id@));
                            let b = choose|b: int| 0 <= b < out0.len() && #[trigger] out0[b].channel@ == es0[k].res.id@;
                        }
                    }
                    assert(entries_for(es1, cid) =~= seq![c]) by {
                        assert(es1.drop_last() =~= es0);
                        assert(entries_for(es0, cid) =~= Seq::<LocalValue<ChannelRes>>::empty());
                    }
                    assert forall|x: int| 0 <= x < out@.len() implies (#[trigger] out@[x]).gc_view() == group_channel_of(es1, identities@, out@[x].channel@) by {
                        if x == out0.len() {
                            let v = out@[x];
                            assert(v.idents@.len() == 1);
                            assert(v.idents@[0].ident@ == c.res.own_identity@);
                            assert(match v.idents@[0].memo_short { Some(m) => Some(m@), None => None } == ident_memo(identities@, c.res.own_identity@));
                            assert(entries_for(es1, cid)[0] == c);
                            assert(v.gc_view().2 =~= group_channel_of(es1, identities@, v.channel@).2);
                        } else {
                            assert(out@[x] == out0[x]);
                            assert(entries_for(es1, out0[x].channel@) == entries_for(es0, out0[x].channel@)) by {
                                assert(es1.drop_last() =~= es0);
                            }
                        }
                    }
                    assert forall|a2: int| 0 <= a2 < out@.len() implies entries_for(es1, #[trigger] out@[a2].channel@).len() > 0 by {
                        assert(es1.drop_last() =~= es0);
                        if a2 < out0.len() {
                            assert(out@[a2] == out0[a2]);
                        }
                    }
                    assert forall|k: int| 0 <= k < es1.len() implies is_listed(out@, (#[trigger] es1[k]).res.id@) by {
                        if k < es0.len() {
                            assert(es1[k] == es0[k]);
                            assert(is_listed(out0, es0[k].res.id@));
                            let b = choose|b: int| 0 <= b < out0.len() && #[trigger] out0[b].channel@ == es0[k].res.id@;
                            assert(out@[b] == out0[b]);
                        } else {
                            assert(out@[out0.len() as int].channel@ == c.res.id@);
                        }
                    }
                    assert forall|a2: int, b: int| 0 <= a2 < b < out@.len() implies out@[a2].channel@ != out@[b].channel@ by {
                        if b == out0.len() {
                            assert(out@[a2] == out0[a2]);
                        } else {
                            assert(out@[a2] == out0[a2]);
                            assert(out@[b] == out0[b]);
                        }
                    }
                }
            }
        } else {
            proof {
                assert(in_group(cs.take(i + 1), g) == es0);
            }
        }
        i = i + 1;
        proof {
            assert(pending@ =~= cs.skip(i as int));
        }
    }
    proof {
        assert(cs.take(i as int) =~= cs);
        assert(in_group(cs.take(i as int), g) == in_group(channels@, g));
    }
    out
}

proof fn lemma_entries_for_absent(es: Seq<LocalValue<ChannelRes>>, c: (Seq<char>, u64))
    requires
        forall|k: int| 0 <= k < es.len() ==> (#[trigger] es[k]).res.id@ != c,
    ensures
        entries_for(es, c).len() == 0,
    decreases es.len(),
{
    if es.len() > 0 {
        assert(es[es.len() - 1].res.id@ != c);
        assert forall|k: int| 0 <= k < es.len() - 1 implies (#[trigger] es.drop_last()[k]).res.id@ != c by {
            assert(es.drop_last()[k] == es[k]);
        }
        lemma_entries_for_absent(es.drop_last(), c);
    }
}

/// The label of the `k`-th identity of a group channel in the channel list:
/// the channel's memo when the user is there with one identity, else the
/// memo, " - " and the identity's memo (or the identity itself).
pub fn channel_label(c: &GroupChannel, k: usize) -> (r: String)
    requires
        k < c.idents@.len(),
    ensures
        r@ == if c.idents@.len() == 1 {
            c.memo_short@
        } else {
            c.memo_short@ + " - "@ + match c.idents@[k as int].memo_short {
                Some(m) => m@,
                None => c.idents@[k as int].ident@,
            }
        },
{
    if c.idents.len() == 1 {
        return c.memo_short.clone();
    }
    let mut out = c.memo_short.clone();
    out.append(" - ");
    match &c.idents[k].memo_short {
        Some(m) => out.append(m.as_str()),
        None => out.append(c.idents[k].ident.text.as_str()),
    }
    out
}

/// Whether channel `c` is in the group's list.
pub open spec fn is_listed(listed: Seq<GroupChannel>, c: (Seq<char>, u64)) -> bool {
    exists|j: int| 0 <= j < listed.len() && #[trigger] listed[j].channel@ == c
}

fn listed_has(listed: &Vec<GroupChannel>, c: &QualifiedChannelId) -> (r: bool)
    ensures
        r == is_listed(listed@, c@),
{
    let mut j: usize = 0;
    while j < listed.len()
        invariant
            j <= listed@.len(),
            forall|j2: int| 0 <= j2 < j ==> #[trigger] listed@[j2].channel@ != c@,
        decreases listed@.len() - j,
    {
        if listed[j].channel.same(c) {
            return true;
        }
        j = j + 1;
    }
    false
}

/// Whether feeds are open for channels that are not in the group's list
/// any more (then the view starts again).
pub fn too_many_channels(open: &Vec<QualifiedChannelId>, listed: &Vec<GroupChannel>) -> (r: bool)
    ensures
        r == exists|i: int| 0 <= i < open@.len() && !is_listed(listed@, (#[trigger] open@[i])@),
{
    let mut i: usize = 0;
    while i < open.len()
        invariant
            i <= open@.len(),
            forall|i2: int| 0 <= i2 < i ==> is_listed(listed@, (#[trigger] open@[i2])@),
        decreases open@.len() - i,
    {
        if !listed_has(listed, &open[i]) {
            return true;
        }
        i = i + 1;
    }
    false
}

} // verus!
