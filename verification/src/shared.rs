//! Identifiers shared by client and server, and the message model.
use vstd::prelude::*;

verus! {

/// A user identity, carried by its canonical text. The text's own form is
/// not checked here: any text names an identity.
#[derive(Clone, Debug)]
pub struct Identity {
    pub text: String,
}

impl View for Identity {
    type V = Seq<char>;

    open spec fn view(&self) -> Seq<char> {
        self.text@
    }
}

impl Identity {
    /// Whether two identities are the same identity.
    pub fn same(&self, other: &Identity) -> (r: bool)
        ensures
            r == (self@ == other@),
    {
        self.text == other.text
    }
}

#[derive(Clone, Copy, Debug, PartialEq, Eq, Structural)]
pub struct AccountId(pub u64);

#[derive(Clone, Copy, Debug, PartialEq, Eq, Structural)]
pub struct ChannelGroupId(pub u64);

#[derive(Clone, Debug)]
pub struct IdentityInviteToken(pub String);

#[derive(Clone, Debug)]
pub struct QualifiedIdentityInviteToken {
    pub identity: Identity,
    pub token: IdentityInviteToken,
}

#[derive(Clone, Copy, Debug, PartialEq, Eq, Structural)]
pub struct IdentityInviteId(pub u64);

#[derive(Clone, Debug)]
pub struct ChannelInviteToken(pub String);

#[derive(Clone, Debug)]
pub struct QualifiedChannelInviteToken {
    pub channel: QualifiedChannelId,
    pub token: ChannelInviteToken,
}

#[derive(Clone, Copy, Debug, PartialEq, Eq, Structural)]
pub struct ChannelInviteId(pub u64);

#[derive(Clone, Copy, Debug, PartialEq, Eq, Structural)]
pub struct ChannelId(pub u64);

/// A channel, named by the identity that owns it and its number there.
#[derive(Clone, Debug)]
pub struct QualifiedChannelId {
    pub identity: Identity,
    pub channel: ChannelId,
}

impl View for QualifiedChannelId {
    type V = (Seq<char>, u64);

    open spec fn view(&self) -> (Seq<char>, u64) {
        (self.identity@, self.channel.0)
    }
}

impl QualifiedChannelId {
    /// Whether two names denote the same channel.
    pub fn same(&self, other: &QualifiedChannelId) -> (r: bool)
        ensures
            r == (self@ == other@),
    {
        self.identity.same(&other.identity) && self.channel.0 == other.channel.0
    }
}

/// A message, named by its author and a number unique to that author.
#[derive(Clone, Debug)]
pub struct MessageId {
    pub identity: Identity,
    pub unique: u64,
}

impl View for MessageId {
    type V = (Seq<char>, u64);

    open spec fn view(&self) -> (Seq<char>, u64) {
        (self.identity@, self.unique)
    }
}

/// A message within a channel.
#[derive(Clone, Debug)]
pub struct QualifiedMessageId {
    pub channel: QualifiedChannelId,
    pub message: MessageId,
}

impl View for QualifiedMessageId {
    type V = ((Seq<char>, u64), (Seq<char>, u64));

    open spec fn view(&self) -> ((Seq<char>, u64), (Seq<char>, u64)) {
        (self.channel@, self.message@)
    }
}

#[derive(Clone, Debug)]
pub struct OutboxMessageId(pub String);

/// Id a client gives a message before the server has seen it.
#[derive(Clone, Debug)]
pub struct MessageClientId(pub String);

impl View for MessageClientId {
    type V = Seq<char>;

    open spec fn view(&self) -> Seq<char> {
        self.0@
    }
}

#[derive(Clone, Debug)]
pub enum MessageBlock {
    Text(String),
}

#[derive(Clone, Debug)]
pub enum MessageRel {
    Unrelated,
    ReplyTo(MessageId),
    EditOf(MessageId),
}

#[derive(Clone, Debug)]
pub struct MessageBody {
    pub id: MessageId,
    pub rel: MessageRel,
    pub body: String,
}

} // verus!
