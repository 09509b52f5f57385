//! Client-to-server request and response bodies.
use vstd::prelude::*;
use crate::shared::{
    ChannelGroupId, ChannelInviteId, Identity, IdentityInviteId, MessageBody, MessageClientId,
    MessageId, QualifiedChannelId, QualifiedChannelInviteToken, QualifiedIdentityInviteToken,
    QualifiedMessageId,
};
use crate::stamp::Stamp;

verus! {

/// A field change: set to `value`, or clear when `value` is `None`.
#[derive(Clone, Debug)]
pub struct ModifyOption<T> {
    pub value: Option<T>,
}

#[derive(Clone, Copy, Debug)]
pub struct Logout;

#[derive(Clone, Debug)]
pub struct IdentityCreate {
    pub idem: Option<String>,
    pub memo_short: String,
    pub memo_long: String,
}

#[derive(Clone, Debug)]
pub struct IdentityRes {
    pub id: Identity,
    pub idem: Option<String>,
    pub memo_short: String,
    pub memo_long: String,
}

#[derive(Clone, Debug)]
pub struct IdentityModify {
    pub id: Identity,
    pub memo_short: Option<String>,
    pub memo_long: Option<String>,
}

#[derive(Clone, Debug)]
pub struct IdentityDelete {
    pub id: Identity,
}

#[derive(Clone, Copy, Debug)]
pub struct IdentityList;

#[derive(Clone, Debug)]
pub struct ChannelGroupCreate {
    pub idem: Option<String>,
    pub memo_short: String,
    pub memo_long: String,
}

#[derive(Clone, Debug)]
pub struct ChannelGroupRes {
    pub id: ChannelGroupId,
    pub idem: Option<String>,
    pub memo_short: String,
    pub memo_long: String,
}

#[derive(Clone, Copy, Debug)]
pub struct ChannelGroupList;

#[derive(Clone, Debug)]
pub struct ChannelGroupModify {
    pub id: ChannelGroupId,
    pub memo_short: Option<String>,
    pub memo_long: Option<String>,
}

#[derive(Clone, Copy, Debug)]
pub struct ChannelGroupDelete {
    pub id: ChannelGroupId,
}

#[derive(Clone, Debug)]
pub struct ChannelCreate {
    pub identity: Identity,
    pub idem: Option<String>,
    pub group: Option<ChannelGroupId>,
    pub memo_short: String,
    pub memo_long: String,
}

#[derive(Clone, Debug)]
pub struct ChannelRes {
    pub own_identity: Identity,
    pub id: QualifiedChannelId,
    pub idem: Option<String>,
    pub group: Option<ChannelGroupId>,
    pub memo_short: String,
    pub memo_long: String,
}

#[derive(Clone, Copy, Debug)]
pub struct ChannelList;

#[derive(Clone, Debug)]
pub struct ChannelModify {
    pub own_identity: Identity,
    pub id: QualifiedChannelId,
    pub group: Option<ModifyOption<ChannelGroupId>>,
    pub memo_short: Option<String>,
    pub memo_long: Option<String>,
}

#[derive(Clone, Debug)]
pub struct ChannelDelete {
    pub id: QualifiedChannelId,
}

#[derive(Clone, Debug)]
pub struct ChannelJoinChannel {
    pub channel: QualifiedChannelId,
    pub sender: Identity,
    pub code: String,
}

#[derive(Clone, Debug)]
pub struct ChannelJoinIdentity {
    pub identity: Identity,
    pub sender: Identity,
    pub code: String,
}

#[derive(Clone, Debug)]
pub struct IdentityInviteCreate {
    pub idem: Option<String>,
    pub memo_short: String,
    pub memo_long: String,
    pub identity: Identity,
    pub single_use: bool,
    pub expiry: Option<Stamp>,
}

#[derive(Clone, Debug)]
pub struct IdentityInviteRes {
    pub id: IdentityInviteId,
    pub token: QualifiedIdentityInviteToken,
    pub memo_short: String,
    pub memo_long: String,
    pub single_use: bool,
    pub expiry: Option<Stamp>,
}

#[derive(Clone, Debug)]
pub struct IdentityInviteModify {
    pub id: IdentityInviteId,
    pub memo_short: Option<String>,
    pub memo_long: Option<String>,
    pub single_use: Option<bool>,
    pub expiry: Option<ModifyOption<Stamp>>,
}

#[derive(Clone, Copy, Debug)]
pub struct IdentityInviteDelete {
    pub id: IdentityInviteId,
}

#[derive(Clone, Copy, Debug)]
pub struct IdentityInviteList;

#[derive(Clone, Debug)]
pub struct ChannelInviteCreate {
    pub channel: QualifiedChannelId,
    pub idem: Option<String>,
    pub memo_short: String,
    pub memo_long: String,
    pub single_use: bool,
    pub expiry: Option<Stamp>,
}

#[derive(Clone, Debug)]
pub struct ChannelInviteRes {
    pub id: ChannelInviteId,
    pub token: QualifiedChannelInviteToken,
    pub memo_short: String,
    pub memo_long: String,
    pub single_use: bool,
    pub expiry: Option<Stamp>,
}

#[derive(Clone, Debug)]
pub struct ChannelInviteModify {
    pub id: ChannelInviteId,
    pub memo_short: Option<String>,
    pub memo_long: Option<String>,
    pub single_use: Option<bool>,
    pub expiry: Option<ModifyOption<Stamp>>,
}

#[derive(Clone, Copy, Debug)]
pub struct ChannelInviteDelete {
    pub id: ChannelInviteId,
}

#[derive(Clone, Copy, Debug)]
pub struct ChannelInviteList;

#[derive(Clone, Debug)]
pub struct MemberAdd {
    pub channel: QualifiedChannelId,
    pub identity: Identity,
}

#[derive(Clone, Debug)]
pub struct MemberDelete {
    pub channel: QualifiedChannelId,
    pub identity: Identity,
}

#[derive(Clone, Copy, Debug)]
pub struct MemberList {}

#[derive(Clone, Debug)]
pub struct MessagePush {
    pub client_id: MessageClientId,
    pub channel: QualifiedChannelId,
    pub identity: Identity,
    pub body: String,
}

#[derive(Clone, Debug)]
pub struct MessageLastPage {
    pub channel: QualifiedChannelId,
    pub identity: Identity,
}

#[derive(Clone, Debug)]
pub struct MessagePageContaining {
    pub channel: QualifiedChannelId,
    pub identity: Identity,
    pub message: MessageId,
}

#[derive(Clone, Debug)]
pub struct ChannelOrChannelGroupGroup {
    pub group: ChannelGroupRes,
    pub children: Vec<ChannelRes>,
}

#[derive(Clone, Debug)]
pub enum ChannelOrChannelGroup {
    Channel(ChannelRes),
    ChannelGroup(ChannelOrChannelGroupGroup),
}

/// Position of a message in a channel's snapshot.
#[derive(Clone, Copy, Debug, PartialEq, Eq, Structural)]
pub struct SnapOffset(pub usize);

/// Position in a channel's activity log.
#[derive(Clone, Copy, Debug, PartialEq, Eq, Structural)]
pub struct ActivityOffset(pub usize);

#[derive(Clone, Debug)]
pub struct SnapMessage {
    pub offset: SnapOffset,
    pub original_id: QualifiedMessageId,
    pub original_receive_time: Stamp,
    pub client_id: Option<MessageClientId>,
    pub message: MessageBody,
}

#[derive(Clone, Debug)]
pub struct SnapPageRes {
    pub offset: SnapOffset,
    pub page_size: usize,
    pub activity_offset: ActivityOffset,
    pub activity_page_size: usize,
    pub messages: Vec<SnapMessage>,
}

#[derive(Clone, Copy, Debug)]
pub struct SnapByRes {
    pub original_receive_time: Stamp,
    pub offset: SnapOffset,
}

/// A channel's new activity, pushed from server to client.
#[derive(Clone, Debug)]
pub struct Notification {
    pub channel: QualifiedChannelId,
    pub offset: ActivityOffset,
    pub body: String,
}

} // verus!
