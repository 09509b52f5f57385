//! Positions of chat entries in time, and the feeds they come from.
//!
//! Entries are ordered by their stamp, then by kind (nothing, outbox,
//! channel), then by the client id (character by character) or the snapshot
//! offset.
use vstd::prelude::*;
use crate::shared::{Identity, MessageClientId, QualifiedChannelId};
use crate::stamp::{Stamp, STAMP_MAX_NANOS};
use crate::text::chars_of;
use crate::wire::SnapOffset;

verus! {

/// Where a chat entry comes from.
#[derive(Clone, Debug)]
pub enum ChatFeedId {
    Channel(QualifiedChannelId),
    Outbox(Identity, QualifiedChannelId),
    Controls,
}

/// What tells apart entries with the same stamp.
#[derive(Clone, Debug)]
pub enum ChatTimeId {
    Blank,
    Outbox(MessageClientId),
    Channel(SnapOffset),
}

/// The position of a chat entry.
#[derive(Clone, Debug)]
pub struct ChatTime {
    pub stamp: Stamp,
    pub id: ChatTimeId,
}

/// A chat time as plain values: stamp, kind rank, client id, offset.
pub type TimeView = (int, int, Seq<char>, int);

impl View for ChatTime {
    type V = TimeView;

    open spec fn view(&self) -> TimeView {
        match self.id {
            ChatTimeId::Blank => (self.stamp@, 0, seq![], 0),
            ChatTimeId::Outbox(c) => (self.stamp@, 1, c@, 0),
            ChatTimeId::Channel(o) => (self.stamp@, 2, seq![], o.0 as int),
        }
    }
}

/// The latest time there is.
pub open spec fn max_time_view() -> TimeView {
    (STAMP_MAX_NANOS as int, 0int, Seq::<char>::empty(), 0int)
}

/// Character sequences in lexicographic order of code points.
pub open spec fn chars_lt(a: Seq<char>, b: Seq<char>) -> bool
    decreases a.len(),
{
    if a.len() == 0 {
        b.len() > 0
    } else if b.len() == 0 {
        false
    } else if a[0] != b[0] {
        (a[0] as int) < (b[0] as int)
    } else {
        chars_lt(a.drop_first(), b.drop_first())
    }
}

/// Strictly earlier.
pub open spec fn time_lt(a: TimeView, b: TimeView) -> bool {
    if a.0 != b.0 {
        a.0 < b.0
    } else if a.1 != b.1 {
        a.1 < b.1
    } else if a.2 != b.2 {
        chars_lt(a.2, b.2)
    } else {
        a.3 < b.3
    }
}

pub proof fn lemma_chars_lt_irreflexive(a: Seq<char>)
    ensures
        !chars_lt(a, a),
    decreases a.len(),
{
    if a.len() > 0 {
        lemma_chars_lt_irreflexive(a.drop_first());
    }
}

pub proof fn lemma_chars_lt_transitive(a: Seq<char>, b: Seq<char>, c: Seq<char>)
    requires
        chars_lt(a, b),
        chars_lt(b, c),
    ensures
        chars_lt(a, c),
    decreases a.len(),
{
    if a.len() > 0 && b.len() > 0 && c.len() > 0 {
        if a[0] == b[0] && b[0] == c[0] {
            lemma_chars_lt_transitive(a.drop_first(), b.drop_first(), c.drop_first());
        }
    }
}

pub proof fn lemma_chars_lt_total(a: Seq<char>, b: Seq<char>)
    requires
        a != b,
    ensures
        chars_lt(a, b) || chars_lt(b, a),
    decreases a.len(),
{
    if a.len() > 0 && b.len() > 0 && a[0] == b[0] {
        if a.drop_first() == b.drop_first() {
            assert(a =~= seq![a[0]] + a.drop_first());
            assert(b =~= seq![b[0]] + b.drop_first());
        }
        lemma_chars_lt_total(a.drop_first(), b.drop_first());
    } else if a.len() > 0 && b.len() > 0 {
        assert((a[0] as int) != (b[0] as int));
    } else if a.len() == 0 && b.len() == 0 {
        assert(a =~= b);
    }
}

/// Chat times are strictly ordered: no time is before itself, the order is
/// transitive, and of two different times one is before the other.
pub proof fn law_time_order(a: TimeView, b: TimeView, c: TimeView)
    ensures
        !time_lt(a, a),
        time_lt(a, b) && time_lt(b, c) ==> time_lt(a, c),
        a != b ==> time_lt(a, b) || time_lt(b, a),
        time_lt(a, b) ==> !time_lt(b, a),
{
    lemma_chars_lt_irreflexive(a.2);
    if time_lt(a, b) && time_lt(b, c) && a.0 == b.0 && b.0 == c.0 && a.1 == b.1 && b.1 == c.1 {
        if a.2 != b.2 && b.2 != c.2 {
            lemma_chars_lt_transitive(a.2, b.2, c.2);
            if a.2 == c.2 {
                lemma_chars_lt_transitive(a.2, b.2, a.2);
                lemma_chars_lt_irreflexive(a.2);
            }
        }
    }
    if a != b && a.0 == b.0 && a.1 == b.1 && a.2 != b.2 {
        lemma_chars_lt_total(a.2, b.2);
    }
    if time_lt(a, b) && a.0 == b.0 && a.1 == b.1 && a.2 != b.2 && time_lt(b, a) {
        lemma_chars_lt_transitive(a.2, b.2, a.2);
        lemma_chars_lt_irreflexive(a.2);
    }
}

/// "Not earlier than" is transitive.
pub proof fn lemma_not_before_trans(a: TimeView, b: TimeView, c: TimeView)
    requires
        !time_lt(b, a),
        !time_lt(c, b),
    ensures
        !time_lt(c, a),
{
    law_time_order(a, b, c);
    law_time_order(c, a, b);
    law_time_order(b, c, a);
}

fn chars_before(a: &Vec<char>, b: &Vec<char>) -> (r: bool)
    ensures
        r == chars_lt(a@, b@),
{
    let mut i: usize = 0;
    proof {
        assert(a@.skip(0) =~= a@);
        assert(b@.skip(0) =~= b@);
    }
    while i < a.len() && i < b.len() && a[i] == b[i]
        invariant
            i <= a@.len(),
            i <= b@.len(),
            a@.subrange(0, i as int) == b@.subrange(0, i as int),
            chars_lt(a@, b@) == chars_lt(a@.skip(i as int), b@.skip(i as int)),
        decreases a@.len() - i,
    {
        proof {
            let sa = a@.skip(i as int);
            let sb = b@.skip(i as int);
            assert(sa.drop_first() =~= a@.skip(i + 1));
            assert(sb.drop_first() =~= b@.skip(i + 1));
            assert(a@.subrange(0, i + 1) =~= a@.subrange(0, i as int).push(a@[i as int]));
            assert(b@.subrange(0, i + 1) =~= b@.subrange(0, i as int).push(b@[i as int]));
        }
        i = i + 1;
    }
    if i < a.len() && i < b.len() {
        proof {
            assert(a@.skip(i as int)[0] == a@[i as int]);
            assert(b@.skip(i as int)[0] == b@[i as int]);
            assert(a@[i as int] != b@[i as int]);
        }
        a[i] < b[i]
    } else {
        proof {
            assert(a@.skip(i as int).len() == a@.len() - i);
            assert(b@.skip(i as int).len() == b@.len() - i);
        }
        i == a.len() && i < b.len()
    }
}

impl ChatTimeId {
    /// A copy with the same view.
    pub fn copy(&self) -> (r: ChatTimeId)
        ensures
            match *self {
                ChatTimeId::Blank => r is Blank,
                ChatTimeId::Outbox(c) => (r matches ChatTimeId::Outbox(d) && d@ == c@),
                ChatTimeId::Channel(o) => r == ChatTimeId::Channel(o),
            },
    {
        match self {
            ChatTimeId::Blank => ChatTimeId::Blank,
            ChatTimeId::Outbox(c) => ChatTimeId::Outbox(MessageClientId(c.0.clone())),
            ChatTimeId::Channel(o) => ChatTimeId::Channel(*o),
        }
    }
}

impl ChatTime {
    /// The time at `stamp` with nothing to tell it apart, as a new entry
    /// gets it before it is known further.
    pub fn blank_at(stamp: Stamp) -> (r: ChatTime)
        ensures
            r.stamp == stamp,
            r.id is Blank,
            r@ == (stamp@, 0int, Seq::<char>::empty(), 0int),
    {
        ChatTime { stamp, id: ChatTimeId::Blank }
    }

    /// The latest time there is: the largest stamp, with nothing to tell it
    /// apart. The controls entry sits there.
    pub fn max_time() -> (r: ChatTime)
        ensures
            r@ == max_time_view(),
    {
        let stamp = Stamp::from_nanos(STAMP_MAX_NANOS).unwrap();
        ChatTime { stamp, id: ChatTimeId::Blank }
    }

    /// A copy of this time.
    pub fn copy(&self) -> (r: ChatTime)
        ensures
            r@ == self@,
    {
        ChatTime { stamp: self.stamp, id: self.id.copy() }
    }

    /// Whether `self` is strictly earlier than `other`.
    pub fn before(&self, other: &ChatTime) -> (r: bool)
        ensures
            r == time_lt(self@, other@),
    {
        let a = self.stamp.nanos();
        let b = other.stamp.nanos();
        if a != b {
            return a < b;
        }
        let ra = self.rank();
        let rb = other.rank();
        if ra != rb {
            return ra < rb;
        }
        match (&self.id, &other.id) {
            (ChatTimeId::Outbox(x), ChatTimeId::Outbox(y)) => {
                proof {
                    lemma_chars_lt_irreflexive(x.0@);
                }
                let xs = chars_of(x.0.as_str());
                let ys = chars_of(y.0.as_str());
                chars_before(&xs, &ys)
            },
            (ChatTimeId::Channel(x), ChatTimeId::Channel(y)) => x.0 < y.0,
            _ => false,
        }
    }

    /// Whether the two are the same time.
    pub fn same(&self, other: &ChatTime) -> (r: bool)
        ensures
            r == (self@ == other@),
    {
        let a = self.stamp.nanos();
        let b = other.stamp.nanos();
        if a != b {
            return false;
        }
        match (&self.id, &other.id) {
            (ChatTimeId::Blank, ChatTimeId::Blank) => true,
            (ChatTimeId::Outbox(x), ChatTimeId::Outbox(y)) => x.0 == y.0,
            (ChatTimeId::Channel(x), ChatTimeId::Channel(y)) => x.0 == y.0,
            _ => false,
        }
    }

    fn rank(&self) -> (r: u8)
        ensures
            r == self@.1,
    {
        match self.id {
            ChatTimeId::Blank => 0,
            ChatTimeId::Outbox(_) => 1,
            ChatTimeId::Channel(_) => 2,
        }
    }
}

} // verus!
