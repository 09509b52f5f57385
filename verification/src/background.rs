//! Background work of the client: which channels a batch of activity
//! notifications marks unread, and the bookkeeping of sending the outbox.
use vstd::prelude::*;
use crate::shared::{ChannelGroupId, ChannelId, Identity, QualifiedChannelId};
use crate::text::{lemma_parse_in_bounds, parse_int, parse_u64, IntErrorKind};
use crate::wire::ActivityOffset;

verus! {

/// What the client shows of a channel's unread state.
pub struct UnreadChannel {
    pub channel: QualifiedChannelId,
    /// The latest activity this channel was marked unread for.
    pub last_offset: Option<ActivityOffset>,
    pub unread: bool,
    pub group: Option<ChannelGroupId>,
}

/// What the client shows of a channel group's unread state.
pub struct UnreadGroup {
    pub id: ChannelGroupId,
    pub unread: bool,
}

/// The unread marks of all known channels and groups.
pub struct UnreadState {
    pub channels: Vec<UnreadChannel>,
    pub groups: Vec<UnreadGroup>,
    /// Something anywhere is unread.
    pub unread_any: bool,
}

/// The unread marks as plain values: per channel its latest marked
/// activity and mark, per group its mark, and the overall mark.
pub type UnreadView = (Seq<(Option<int>, bool)>, Seq<bool>, bool);

/// The first known channel with this id.
pub open spec fn channel_index(cs: Seq<UnreadChannel>, id: (Seq<char>, u64)) -> Option<int>
    decreases cs.len(),
{
    if cs.len() == 0 {
        None
    } else if cs[0].channel@ == id {
        Some(0)
    } else {
        match channel_index(cs.drop_first(), id) {
            Some(i) => Some(i + 1),
            None => None,
        }
    }
}

/// The first known group with this id.
pub open spec fn group_index(gs: Seq<UnreadGroup>, id: ChannelGroupId) -> Option<int>
    decreases gs.len(),
{
    if gs.len() == 0 {
        None
    } else if gs[0].id == id {
        Some(0)
    } else {
        match group_index(gs.drop_first(), id) {
            Some(i) => Some(i + 1),
            None => None,
        }
    }
}

proof fn lemma_channel_index(cs: Seq<UnreadChannel>, id: (Seq<char>, u64))
    ensures
        match channel_index(cs, id) {
            Some(i) => 0 <= i < cs.len() && cs[i].channel@ == id && forall|j: int| 0 <= j < i ==> (#[trigger] cs[j]).channel@ != id,
            None => forall|j: int| 0 <= j < cs.len() ==> (#[trigger] cs[j]).channel@ != id,
        },
    decreases cs.len(),
{
    if cs.len() > 0 && cs[0].channel@ != id {
        let t = cs.drop_first();
        lemma_channel_index(t, id);
        assert forall|j: int| 0 < j < cs.len() implies cs[j] == #[trigger] t[j - 1] by {}
        match channel_index(t, id) {
            Some(i) => {
                assert forall|j: int| 0 <= j < i + 1 implies (#[trigger] cs[j]).channel@ != id by {
                    if j > 0 {
                        assert(cs[j] == t[j - 1]);
                    }
                }
                assert(cs[i + 1] == t[i]);
            },
            None => {
                assert forall|j: int| 0 <= j < cs.len() implies (#[trigger] cs[j]).channel@ != id by {
                    if j > 0 {
                        assert(cs[j] == t[j - 1]);
                    }
                }
            },
        }
    }
}

proof fn lemma_group_index(gs: Seq<UnreadGroup>, id: ChannelGroupId)
    ensures
        match group_index(gs, id) {
            Some(i) => 0 <= i < gs.len() && gs[i].id == id && forall|j: int| 0 <= j < i ==> (#[trigger] gs[j]).id != id,
            None => forall|j: int| 0 <= j < gs.len() ==> (#[trigger] gs[j]).id != id,
        },
    decreases gs.len(),
{
    if gs.len() > 0 && gs[0].id != id {
        let t = gs.drop_first();
        lemma_group_index(t, id);
        match group_index(t, id) {
            Some(i) => {
                assert forall|j: int| 0 <= j < i + 1 implies (#[trigger] gs[j]).id != id by {
                    if j > 0 {
                        assert(gs[j] == t[j - 1]);
                    }
                }
                assert(gs[i + 1] == t[i]);
            },
            None => {
                assert forall|j: int| 0 <= j < gs.len() implies (#[trigger] gs[j]).id != id by {
                    if j > 0 {
                        assert(gs[j] == t[j - 1]);
                    }
                }
            },
        }
    }
}

impl UnreadState {
    pub open spec fn unread_view(self) -> UnreadView {
        (
            Seq::new(self.channels@.len(), |i: int| {
                let c = self.channels@[i];
                (match c.last_offset { Some(o) => Some(o.0 as int), None => None }, c.unread)
            }),
            Seq::new(self.groups@.len(), |i: int| self.groups@[i].unread),
            self.unread_any,
        )
    }

    /// Whether a notification of activity `offset` in a channel is new to
    /// the channel's mark: the channel is known and has not been marked for
    /// that activity or later. (A mark for earlier or equal activity makes
    /// the notification count as seen.)
    pub open spec fn marks(self, channel: (Seq<char>, u64), offset: int) -> bool {
        match channel_index(self.channels@, channel) {
            Some(i) => match self.channels@[i].last_offset {
                Some(o) => !(o.0 <= offset),
                None => true,
            },
            None => false,
        }
    }

    /// The marks after one notification: when it marks its channel (see
    /// `marks`), the channel records the activity and is unread, its group
    /// (when it has one that is known) is unread, and something is unread
    /// when the channel has a known group or none.
    pub open spec fn after_one(v: UnreadView, cs: Seq<UnreadChannel>, gs: Seq<UnreadGroup>, marks: bool, channel: (Seq<char>, u64), offset: int) -> UnreadView {
        if !marks {
            v
        } else {
            let i = channel_index(cs, channel)->0;
            let chans = v.0.update(i, (Some(offset), true));
            match cs[i].group {
                Some(g) => match group_index(gs, g) {
                    Some(k) => (chans, v.1.update(k, true), true),
                    None => (chans, v.1, v.2),
                },
                None => (chans, v.1, true),
            }
        }
    }

    /// Applies one notification; says whether it changed a mark.
    pub fn notify_one(&mut self, channel: &QualifiedChannelId, offset: ActivityOffset) -> (changed: bool)
        ensures
            changed == old(self).marks(channel@, offset.0 as int),
            final(self).unread_view() == UnreadState::after_one(
                old(self).unread_view(),
                old(self).channels@,
                old(self).groups@,
                changed,
                channel@,
                offset.0 as int,
            ),
            final(self).channels@.len() == old(self).channels@.len(),
            forall|i: int| 0 <= i < final(self).channels@.len() ==> (#[trigger] final(self).channels@[i]).channel == old(self).channels@[i].channel
                && final(self).channels@[i].group == old(self).channels@[i].group,
            final(self).groups@.len() == old(self).groups@.len(),
            forall|k: int| 0 <= k < final(self).groups@.len() ==> (#[trigger] final(self).groups@[k]).id == old(self).groups@[k].id,
    {
        let ghost o = *self;
        proof {
            lemma_channel_index(self.channels@, channel@);
        }
        let mut i: usize = 0;
        while i < self.channels.len() && !self.channels[i].channel.same(channel)
            invariant
                i <= self.channels@.len(),
                forall|j: int| 0 <= j < i ==> (#[trigger] self.channels@[j]).channel@ != channel@,
            decreases self.channels@.len() - i,
        {
            i = i + 1;
        }
        if i == self.channels.len() {
            proof {
                assert(channel_index(o.channels@, channel@) is None);
                assert(self.unread_view().0 =~= o.unread_view().0);
                assert(self.unread_view().1 =~= o.unread_view().1);
            }
            return false;
        }
        proof {
            assert(channel_index(o.channels@, channel@) == Some(i as int));
        }
        match self.channels[i].last_offset {
            Some(last) => {
                if last.0 <= offset.0 {
                    proof {
                        assert(self.unread_view().0 =~= o.unread_view().0);
                        assert(self.unread_view().1 =~= o.unread_view().1);
                    }
                    return false;
                }
            },
            None => {},
        }
        let mut c = self.channels.remove(i);
        c.last_offset = Some(offset);
        c.unread = true;
        let group = c.group;
        self.channels.insert(i, c);
        proof {
            assert(self.channels@ =~= o.channels@.update(i as int, c));
            assert(self.unread_view().0 =~= o.unread_view().0.update(i as int, (Some(offset.0 as int), true)));
        }
        match group {
            Some(g) => {
                proof {
                    lemma_group_index(self.groups@, g);
                }
                let mut k: usize = 0;
                while k < self.groups.len() && self.groups[k].id.0 != g.0
                    invariant
                        k <= self.groups@.len(),
                        forall|j: int| 0 <= j < k ==> (#[trigger] self.groups@[j]).id != g,
                    decreases self.groups@.len() - k,
                {
                    k = k + 1;
                }
                if k < self.groups.len() {
                    proof {
                        assert(group_index(o.groups@, g) == Some(k as int));
                    }
                    let mut gr = self.groups.remove(k);
                    gr.unread = true;
                    self.groups.insert(k, gr);
                    self.unread_any = true;
                    proof {
                        assert(self.groups@ =~= o.groups@.update(k as int, gr));
                        assert(self.unread_view().1 =~= o.unread_view().1.update(k as int, true));
                    }
                } else {
                    proof {
                        assert(group_index(o.groups@, g) is None);
                        assert(self.unread_view().1 =~= o.unread_view().1);
                    }
                }
            },
            None => {
                self.unread_any = true;
                proof {
                    assert(self.unread_view().1 =~= o.unread_view().1);
                }
            },
        }
        true
    }
}

/// Whether notifications mark channels unread: unless a channel or group
/// page is open and it shows a feed of one of the notified channels.
pub fn marks_unread(on_channel_page: bool, has_feed: bool) -> (r: bool)
    ensures
        r == (!on_channel_page || !has_feed),
{
    !on_channel_page || !has_feed
}

/// How sending one outbox channel's messages ended.
pub enum PushOutcome {
    Sent,
    Failed(String),
    /// The task was stopped before it finished.
    Cancelled,
}

/// Whether a round of sending the outbox is the last: every channel's
/// messages were sent or its task was stopped; a failure means another
/// round.
pub fn push_round_done(outcomes: &Vec<PushOutcome>) -> (r: bool)
    ensures
        r == forall|i: int| 0 <= i < outcomes@.len() ==> !(#[trigger] outcomes@[i] is Failed),
{
    let mut i: usize = 0;
    while i < outcomes.len()
        invariant
            i <= outcomes@.len(),
            forall|j: int| 0 <= j < i ==> !(#[trigger] outcomes@[j] is Failed),
        decreases outcomes@.len() - i,
    {
        match &outcomes[i] {
            PushOutcome::Failed(_) => {
                return false;
            },
            _ => {},
        }
        i = i + 1;
    }
    true
}

/// The channel an outbox directory stands for: the destination identity
/// and the channel number that names the directory.
pub fn outbox_channel(dest: Identity, dir_name: &str) -> (r: Result<QualifiedChannelId, IntErrorKind>)
    ensures
        match parse_int(dir_name@, false, 0, u64::MAX as int) {
            Ok(n) => r matches Ok(c) && c.identity == dest && c.channel.0 == n,
            Err(k) => r matches Err(e) && e == k,
        },
{
    proof {
        lemma_parse_in_bounds(dir_name@, false, 0, u64::MAX as int);
    }
    match parse_u64(dir_name) {
        Ok(n) => Ok(QualifiedChannelId { identity: dest, channel: ChannelId(n) }),
        Err(k) => Err(k),
    }
}

/// What sending one outbox channel does next.
#[derive(Clone, Copy, Debug, PartialEq, Eq, Structural)]
pub enum PushStep {
    /// Post the message at this position of the channel's outbox (in stamp
    /// order).
    Post(usize),
    /// The message at this position was posted: delete it from the outbox.
    Delete(usize),
    /// Nothing more to do for the channel.
    Finish,
}

/// Sending one outbox channel's messages, oldest first: each is posted, and
/// deleted once its post succeeded; the first failed post stops the
/// channel, leaving it and the later messages in the outbox.
pub struct ChannelPush {
    pub count: usize,
    pub next: usize,
    pub posted: bool,
    pub failed: bool,
}

impl ChannelPush {
    /// Sending a channel with `count` messages in its outbox.
    pub fn new(count: usize) -> (r: ChannelPush)
        ensures
            r.count == count,
            r.next == 0,
            !r.posted,
            !r.failed,
    {
        ChannelPush { count, next: 0, posted: false, failed: false }
    }

    /// The next step: delete the message just posted, else post the next
    /// message, else (all done, or a post failed) finish.
    pub fn step(&self) -> (r: PushStep)
        ensures
            r == if self.failed {
                PushStep::Finish
            } else if self.posted {
                PushStep::Delete(self.next)
            } else if self.next < self.count {
                PushStep::Post(self.next)
            } else {
                PushStep::Finish
            },
    {
        if self.failed {
            PushStep::Finish
        } else if self.posted {
            PushStep::Delete(self.next)
        } else if self.next < self.count {
            PushStep::Post(self.next)
        } else {
            PushStep::Finish
        }
    }

    /// Takes how the post of message `next` went: on success that message
    /// is to be deleted; on failure the channel stops.
    pub fn posted(&mut self, ok: bool)
        requires
            !old(self).failed,
            !old(self).posted,
            old(self).next < old(self).count,
        ensures
            final(self).count == old(self).count,
            final(self).next == old(self).next,
            final(self).posted == ok,
            final(self).failed == !ok,
    {
        if ok {
            self.posted = true;
        } else {
            self.failed = true;
        }
    }

    /// The message just posted was deleted: go on with the next one.
    pub fn deleted(&mut self)
        requires
            old(self).posted,
            !old(self).failed,
            old(self).next < old(self).count,
        ensures
            final(self).count == old(self).count,
            final(self).next == old(self).next + 1,
            !final(self).posted,
            !final(self).failed,
    {
        self.posted = false;
        self.next = self.next + 1;
    }

    /// How the channel's sending ended, once it finished.
    pub fn outcome(&self, error: String) -> (r: PushOutcome)
        ensures
            self.failed ==> (r matches PushOutcome::Failed(e) && e@ == error@),
            !self.failed ==> r is Sent,
    {
        if self.failed {
            PushOutcome::Failed(error)
        } else {
            PushOutcome::Sent
        }
    }
}

} // verus!
