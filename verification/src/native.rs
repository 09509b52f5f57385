//! Server side: request bodies of the first protocol version, configuration,
//! the database codecs of ids, transaction outcomes, and the channel tree the
//! server answers with.
use vstd::prelude::*;
use std::collections::HashMap;
use crate::jsontext::{json_read_text, json_text, json_text_read, json_write_text};
use crate::shared::{AccountId, ChannelGroupId, ChannelId, Identity, MessageId};
use crate::stamp::Stamp;
use crate::wire::{ChannelGroupRes, ChannelOrChannelGroup, ChannelOrChannelGroupGroup, ChannelRes};
use crate::wire_shared::InvitationToken;

verus! {

#[derive(Clone, Debug)]
pub struct LoginByUser {
    pub id: String,
    pub password: String,
}

#[derive(Clone, Copy, Debug)]
pub struct Logout {}

#[derive(Clone, Debug)]
pub struct IdentityCreate {
    pub idem: Option<String>,
    pub descriptor: String,
}

#[derive(Clone, Copy, Debug)]
pub struct IdentityList {}

#[derive(Clone, Copy, Debug)]
pub struct ChannelJoin {}

#[derive(Clone, Copy, Debug)]
pub struct ChannelList {}

#[derive(Clone, Debug)]
pub struct InvitationDelete {
    pub id: InvitationToken,
}

#[derive(Clone, Copy, Debug)]
pub struct InvitationList {}

#[derive(Clone, Copy, Debug)]
pub struct MemberList {}

#[derive(Clone, Debug)]
pub struct IdentityGet {
    pub id: Identity,
}

#[derive(Clone, Debug)]
pub struct IdentitySetLocalKey {
    pub id: Identity,
}

#[derive(Clone, Debug)]
pub struct IdentityDeleteLocalKey {
    pub id: Identity,
}

#[derive(Clone, Debug)]
pub struct IdentityGetLocalKey {
    pub id: Identity,
}

#[derive(Clone, Copy, Debug)]
pub struct ChannelGet {
    pub id: ChannelId,
}

/// A new invitation: to a channel, to an identity, or to neither; it may be
/// good for one use and may expire at an instant.
#[derive(Clone, Debug)]
pub struct InvitationCreate {
    pub idem: Option<String>,
    pub descriptor: String,
    pub accept_decriptor: String,
    pub channel: Option<ChannelId>,
    pub identity: Option<Identity>,
    pub single_use: bool,
    pub expiry: Option<Stamp>,
}

#[derive(Clone, Debug)]
pub struct InvitationRes {
    pub id: ChannelId,
    pub descriptor: String,
    pub token: InvitationToken,
}

/// Changes to an invitation; a field left `None` stays as it is.
#[derive(Clone, Debug)]
pub struct InvitationModify {
    pub id: InvitationToken,
    pub descriptor: Option<String>,
    pub accept_decriptor: Option<String>,
    pub channel: Option<ChannelId>,
    pub identity: Option<Identity>,
    pub single_use: Option<bool>,
    pub expiry: Option<Stamp>,
}

#[derive(Clone, Debug)]
pub struct MessageGetPage {
    pub channel: ChannelId,
    pub identity: Identity,
    pub page: usize,
}

#[derive(Clone, Debug)]
pub struct MessageDelete {
    pub channel: ChannelId,
    pub identity: Identity,
    pub message_id: MessageId,
}

/// Tells another server that a channel it follows has news.
#[derive(Clone, Debug)]
pub struct Notify {
    pub owner: Identity,
    pub channel: ChannelId,
}

/// What a server-to-server join asks to enter.
#[derive(Clone, Debug)]
pub enum ChannelOrIdentity {
    Channel(ChannelId),
    Identity(Identity),
}

#[derive(Clone, Debug)]
pub struct Join {
    pub target: ChannelOrIdentity,
    pub token: InvitationToken,
}

#[derive(Clone, Copy, Debug)]
pub struct MessageLastPageRes {
    pub page: usize,
}

#[derive(Clone, Copy, Debug)]
pub struct MessagePageContainingRes {
    pub page: usize,
}

/// Where the server finds its OpenID Connect provider.
#[derive(Clone, Debug)]
pub struct OidcConfig {
    pub provider_url: String,
    pub client_id: String,
    pub client_secret: Option<String>,
}

/// The account a login provider knows a user by.
#[derive(Clone, Debug)]
pub struct AccountExternalId(pub String);

#[derive(Clone, Copy, Debug)]
pub struct StartIdentify {}

#[derive(Clone, Copy, Debug)]
pub struct GetLastPageRes {
    pub page_size: usize,
    pub count: usize,
}

/// An account id as the database stores it: a signed 64-bit column holding
/// the id's bits.
#[derive(Clone, Copy, Debug)]
pub struct DbAccountId(pub AccountId);

impl DbAccountId {
    /// The column value: the id's bits read as a signed number.
    pub fn to_sql(value: &DbAccountId) -> (r: i64)
        ensures
            r == value.0.0 as i64,
    {
        value.0.0 as i64
    }

    /// Reads the column value back; every value is the bits of some id.
    pub fn from_sql(value: i64) -> (r: Result<DbAccountId, String>)
        ensures
            r matches Ok(d) && d.0.0 == value as u64,
    {
        Ok(DbAccountId(AccountId(value as u64)))
    }
}

/// A channel group id as the database stores it.
#[derive(Clone, Copy, Debug)]
pub struct DbChannelGroupId(pub ChannelGroupId);

impl DbChannelGroupId {
    /// The column value: the id's bits read as a signed number.
    pub fn to_sql(value: &DbChannelGroupId) -> (r: i64)
        ensures
            r == value.0.0 as i64,
    {
        value.0.0 as i64
    }

    /// Reads the column value back; every value is the bits of some id.
    pub fn from_sql(value: i64) -> (r: Result<DbChannelGroupId, String>)
        ensures
            r matches Ok(d) && d.0.0 == value as u64,
    {
        Ok(DbChannelGroupId(ChannelGroupId(value as u64)))
    }
}

/// Storing a 64-bit id and reading it back gives the id, and reading a
/// column value and storing it gives the value: the codec is a bijection.
pub proof fn law_db_id_roundtrip(id: u64, column: i64)
    ensures
        (id as i64) as u64 == id,
        (column as u64) as i64 == column,
{
    assert((id as i64) as u64 == id) by (bit_vector);
    assert((column as u64) as i64 == column) by (bit_vector);
}

/// An identity as the database stores it: a text column holding the JSON
/// string literal of the identity's text.
#[derive(Clone, Debug)]
pub struct DbIdentity(pub Identity);

impl DbIdentity {
    /// The column value: the identity's text as a JSON string literal.
    pub fn to_sql(value: &DbIdentity) -> (r: String)
        ensures
            r@ == json_text(value.0@),
    {
        json_write_text(&value.0.text)
    }

    /// Reads the column value back. It fails, with the JSON reader's message,
    /// exactly where the value is not a JSON string literal; a value written
    /// by `to_sql` reads back as the identity it was written from.
    pub fn from_sql(value: String) -> (r: Result<DbIdentity, String>)
        ensures
            r is Ok <==> json_text_read(value@) is Some,
            r matches Ok(d) ==> json_text_read(value@) == Some(d.0@),
            forall|t: Seq<char>| value@ == json_text(t) ==> (r matches Ok(d) && d.0@ == t),
    {
        match json_read_text(value.as_str()) {
            Ok(text) => Ok(DbIdentity(Identity { text })),
            Err(e) => Err(e),
        }
    }
}

/// What a transaction body decided: keep its work with a result, or abort.
pub enum Txr<T> {
    Commit(T),
    Abort,
}

impl<T> Txr<T> {
    /// Whether the transaction is committed.
    pub open spec fn commits(&self) -> bool {
        self is Commit
    }

    /// The transaction's result: the body's value when it committed, nothing
    /// when it aborted (the work is rolled back).
    pub fn committed(self) -> (r: Option<T>)
        ensures
            match self {
                Txr::Commit(v) => r == Some(v),
                Txr::Abort => r is None,
            },
            r is Some <==> self.commits(),
    {
        match self {
            Txr::Commit(v) => Some(v),
            Txr::Abort => None,
        }
    }
}

/// The channels that belong to no group, each as a tree entry, in order.
pub open spec fn loose_channels(cs: Seq<ChannelRes>) -> Seq<ChannelOrChannelGroup>
    decreases cs.len(),
{
    if cs.len() == 0 {
        seq![]
    } else {
        let rest = loose_channels(cs.drop_last());
        if cs.last().group is None {
            rest.push(ChannelOrChannelGroup::Channel(cs.last()))
        } else {
            rest
        }
    }
}

/// The channels of a group, in order.
pub open spec fn group_children(cs: Seq<ChannelRes>, g: ChannelGroupId) -> Seq<ChannelRes>
    decreases cs.len(),
{
    if cs.len() == 0 {
        seq![]
    } else {
        let rest = group_children(cs.drop_last(), g);
        if cs.last().group == Some(g) {
            rest.push(cs.last())
        } else {
            rest
        }
    }
}

/// Whether a group earlier in the list has the same id as group `i`.
pub open spec fn id_seen_before(gs: Seq<ChannelGroupRes>, i: int) -> bool {
    exists|j: int| 0 <= j < i && gs[j].id == gs[i].id
}

/// The children the tree gives group `i`: its channels, unless an earlier
/// group with the same id already took them.
pub open spec fn tree_children(cs: Seq<ChannelRes>, gs: Seq<ChannelGroupRes>, i: int) -> Seq<
    ChannelRes,
> {
    if id_seen_before(gs, i) {
        seq![]
    } else {
        group_children(cs, gs[i].id)
    }
}

proof fn lemma_loose_push(cs: Seq<ChannelRes>, c: ChannelRes)
    ensures
        loose_channels(cs.push(c)) == if c.group is None {
            loose_channels(cs).push(ChannelOrChannelGroup::Channel(c))
        } else {
            loose_channels(cs)
        },
{
    assert(cs.push(c).drop_last() =~= cs);
}

proof fn lemma_children_push(cs: Seq<ChannelRes>, c: ChannelRes, g: ChannelGroupId)
    ensures
        group_children(cs.push(c), g) == if c.group == Some(g) {
            group_children(cs, g).push(c)
        } else {
            group_children(cs, g)
        },
{
    assert(cs.push(c).drop_last() =~= cs);
}

/// The tree of a user's channels: first each channel outside any group, in
/// order, then each group, in order, holding its channels in order. A
/// channel whose group is not listed does not appear; a group listed twice
/// holds its channels the first time and none the second.
pub fn channel_tree(channels: Vec<ChannelRes>, groups: Vec<ChannelGroupRes>) -> (r: Vec<
    ChannelOrChannelGroup,
>)
    ensures
        ({
            let loose = loose_channels(channels@);
            &&& r@.len() == loose.len() + groups@.len()
            &&& forall|k: int| 0 <= k < loose.len() ==> r@[k] == loose[k]
            &&& forall|i: int|
                0 <= i < groups@.len() ==> (#[trigger] r@[loose.len() + i] matches
                    ChannelOrChannelGroup::ChannelGroup(g) && g.group == groups@[i]
                    && g.children@ == tree_children(channels@, groups@, i))
        }),
{
    broadcast use vstd::std_specs::hash::group_hash_axioms;
    let ghost cs = channels@;
    let ghost gs = groups@;
    let mut channels = channels;
    let mut groups = groups;
    let mut out: Vec<ChannelOrChannelGroup> = Vec::new();
    let mut children_of: HashMap<u64, Vec<ChannelRes>> = HashMap::new();
    let mut done: usize = 0;
    let n_channels = channels.len();
    let n_groups = groups.len();
    while channels.len() > 0
        invariant
            done + channels@.len() == cs.len(),
            cs.len() == n_channels,
            channels@ == cs.skip(done as int),
            out@ == loose_channels(cs.take(done as int)),
            forall|g: ChannelGroupId| #[trigger] children_of@.contains_key(g.0)
                ==> children_of@[g.0]@ == group_children(cs.take(done as int), g),
            forall|g: ChannelGroupId| !children_of@.contains_key(g.0)
                ==> #[trigger] group_children(cs.take(done as int), g) == Seq::<ChannelRes>::empty(),
        decreases channels@.len(),
    {
        let c = channels.remove(0);
        proof {
            assert(c == cs[done as int]);
            assert(cs.take(done + 1) =~= cs.take(done as int).push(c));
            lemma_loose_push(cs.take(done as int), c);
            assert forall|g: ChannelGroupId| true implies #[trigger] group_children(
                cs.take(done + 1),
                g,
            ) == if c.group == Some(g) {
                group_children(cs.take(done as int), g).push(c)
            } else {
                group_children(cs.take(done as int), g)
            } by {
                lemma_children_push(cs.take(done as int), c, g);
            }
        }
        match c.group {
            None => {
                out.push(ChannelOrChannelGroup::Channel(c));
            },
            Some(g) => {
                let ghost m0 = children_of@;
                let mut v = match children_of.remove(&g.0) {
                    Some(v) => v,
                    None => Vec::new(),
                };
                proof {
                    assert(v@ == group_children(cs.take(done as int), g));
                }
                v.push(c);
                children_of.insert(g.0, v);
                proof {
                    assert forall|g2: ChannelGroupId| #[trigger] children_of@.contains_key(g2.0)
                        implies children_of@[g2.0]@ == group_children(cs.take(done + 1), g2) by {
                        if g2 != g {
                            assert(g2.0 != g.0);
                            assert(m0.contains_key(g2.0));
                        }
                    }
                    assert forall|g2: ChannelGroupId| !children_of@.contains_key(g2.0)
                        implies #[trigger] group_children(cs.take(done + 1), g2) == Seq::<ChannelRes>::empty() by {
                        assert(g2 != g);
                        assert(!m0.contains_key(g2.0));
                    }
                }
            },
        }
        done = done + 1;
        proof {
            assert(channels@ =~= cs.skip(done as int));
        }
    }
    proof {
        assert(cs.take(done as int) =~= cs);
    }
    let ghost loose = out@;
    let mut gi: usize = 0;
    while groups.len() > 0
        invariant
            gi + groups@.len() == gs.len(),
            gs.len() == n_groups,
            groups@ == gs.skip(gi as int),
            loose == loose_channels(cs),
            out@.len() == loose.len() + gi,
            forall|k: int| 0 <= k < loose.len() ==> out@[k] == loose[k],
            forall|i: int|
                0 <= i < gi ==> (#[trigger] out@[loose.len() + i] matches
                    ChannelOrChannelGroup::ChannelGroup(g) && g.group == gs[i] && g.children@
                    == tree_children(cs, gs, i)),
            forall|g: ChannelGroupId| #[trigger] children_of@.contains_key(g.0) ==> {
                &&& children_of@[g.0]@ == group_children(cs, g)
                &&& forall|j: int| 0 <= j < gi ==> gs[j].id != g
            },
            forall|g: ChannelGroupId| !children_of@.contains_key(g.0) && (forall|j: int| 0 <= j < gi ==> gs[j].id != g)
                ==> #[trigger] group_children(cs, g) == Seq::<ChannelRes>::empty(),
        decreases groups@.len(),
    {
        let grp = groups.remove(0);
        let ghost old_out = out@;
        let ghost m0 = children_of@;
        proof {
            assert(grp == gs[gi as int]);
        }
        let children = match children_of.remove(&grp.id.0) {
            Some(v) => v,
            None => Vec::new(),
        };
        proof {
            if id_seen_before(gs, gi as int) {
                let j = choose|j: int| 0 <= j < gi && gs[j].id == gs[gi as int].id;
                assert(!m0.contains_key(grp.id.0));
                assert(children@ =~= Seq::<ChannelRes>::empty());
            } else {
                assert(forall|j: int| 0 <= j < gi ==> gs[j].id != grp.id);
                if !m0.contains_key(grp.id.0) {
                    assert(children@ =~= Seq::<ChannelRes>::empty());
                }
            }
            assert(children@ == tree_children(cs, gs, gi as int));
        }
        out.push(ChannelOrChannelGroup::ChannelGroup(ChannelOrChannelGroupGroup { group: grp, children }));
        proof {
            assert forall|i: int| 0 <= i < gi + 1 implies (#[trigger] out@[loose.len() + i] matches
                ChannelOrChannelGroup::ChannelGroup(g) && g.group == gs[i] && g.children@
                == tree_children(cs, gs, i)) by {
                if i < gi {
                    assert(out@[loose.len() + i] == old_out[loose.len() + i]);
                }
            }
            assert forall|g: ChannelGroupId| #[trigger] children_of@.contains_key(g.0) implies {
                &&& children_of@[g.0]@ == group_children(cs, g)
                &&& forall|j: int| 0 <= j < gi + 1 ==> gs[j].id != g
            } by {
                assert(g.0 != grp.id.0);
                assert(m0.contains_key(g.0));
            }
            assert forall|g: ChannelGroupId| !children_of@.contains_key(g.0) && (forall|j: int| 0 <= j < gi + 1 ==> gs[j].id != g)
                implies #[trigger] group_children(cs, g) == Seq::<ChannelRes>::empty() by {
                assert(gs[gi as int].id != g);
                assert(g.0 != grp.id.0);
                assert(!m0.contains_key(g.0));
            }
        }
        gi = gi + 1;
        proof {
            assert(groups@ =~= gs.skip(gi as int));
        }
    }
    out
}

} // verus!
