//! What the message box of a chat is doing, and how it follows a message
//! from the outbox into the channel.
use vstd::prelude::*;
use crate::shared::{Identity, MessageClientId, QualifiedChannelId, QualifiedMessageId};

verus! {

/// Writing a new top-level message to a channel as one of the user's
/// identities.
pub struct ChatModeTopMessage {
    pub channel: QualifiedChannelId,
    pub own_identity: Identity,
}

/// A message still in the outbox.
pub struct ChatModeReplyMessageTargetOutbox {
    pub channel: QualifiedChannelId,
    pub message: MessageClientId,
}

/// The message a reply answers: one in a channel, or one still in the
/// outbox.
pub enum ChatModeReplyMessageTarget {
    Channel(QualifiedMessageId),
    Outbox(ChatModeReplyMessageTargetOutbox),
}

/// Writing a reply as one of the user's identities.
pub struct ChatModeReplyMessage {
    pub target: ChatModeReplyMessageTarget,
    pub own_identity: Identity,
}

/// What the message box is doing.
pub enum ChatMode {
    /// Nothing is being written.
    Idle,
    MessageChannelSelect,
    TopMessage(ChatModeTopMessage),
    ReplyMessage(ChatModeReplyMessage),
}

/// Whether the mode is a reply to the outbox message with client id `idem`.
pub open spec fn replies_to_outbox(mode: ChatMode, idem: Seq<char>) -> bool {
    mode matches ChatMode::ReplyMessage(r) && (r.target matches ChatModeReplyMessageTarget::Outbox(t) && t.message@ == idem)
}

/// The mode once the outbox message with client id `idem` has reached its
/// channel as message `id`: a reply to that outbox message now replies to
/// the channel message, as the same identity; any other mode stays.
pub fn mode_after_delivery(mode: ChatMode, idem: &MessageClientId, id: QualifiedMessageId) -> (r: ChatMode)
    ensures
        if replies_to_outbox(mode, idem@) {
            r matches ChatMode::ReplyMessage(rm) && rm.target == ChatModeReplyMessageTarget::Channel(id)
                && rm.own_identity == mode->ReplyMessage_0.own_identity
        } else {
            r == mode
        },
{
    match mode {
        ChatMode::ReplyMessage(rm) => {
            let hit = match &rm.target {
                ChatModeReplyMessageTarget::Outbox(t) => t.message.0 == idem.0,
                _ => false,
            };
            if hit {
                ChatMode::ReplyMessage(ChatModeReplyMessage {
                    target: ChatModeReplyMessageTarget::Channel(id),
                    own_identity: rm.own_identity,
                })
            } else {
                ChatMode::ReplyMessage(rm)
            }
        },
        other => other,
    }
}

/// What an outbox message replies to: a message in the channel, or one
/// still in the outbox.
pub enum OutboxMessageReplyTo {
    Channel(QualifiedMessageId),
    Outbox(MessageClientId),
}

/// A message waiting in the outbox to be sent.
pub struct OutboxMessage {
    pub reply_to: Option<OutboxMessageReplyTo>,
    pub client_id: MessageClientId,
    pub body: String,
}

/// What sending from the message box does: the outbox message to write, as
/// which identity and to which channel, and the mode the box goes to.
pub struct SendStep {
    pub sender: Identity,
    pub channel: QualifiedChannelId,
    pub message: OutboxMessage,
    pub mode: ChatMode,
}

/// The mode of replying, as `sender`, to the outbox message `client_id` of
/// `channel`.
pub open spec fn replying_to_outbox(mode: ChatMode, channel: (Seq<char>, u64), client_id: Seq<char>, sender: Seq<char>) -> bool {
    mode matches ChatMode::ReplyMessage(rm) && rm.own_identity@ == sender && (rm.target matches
        ChatModeReplyMessageTarget::Outbox(t) && t.channel@ == channel && t.message@ == client_id)
}

/// The channel a reply goes to: that of the message it answers.
pub open spec fn reply_channel(target: ChatModeReplyMessageTarget) -> (Seq<char>, u64) {
    match target {
        ChatModeReplyMessageTarget::Channel(m) => m.channel@,
        ChatModeReplyMessageTarget::Outbox(m) => m.channel@,
    }
}

fn copy_identity(i: &Identity) -> (r: Identity)
    ensures
        r@ == i@,
{
    Identity { text: i.text.clone() }
}

fn copy_channel(c: &QualifiedChannelId) -> (r: QualifiedChannelId)
    ensures
        r@ == c@,
{
    QualifiedChannelId { identity: copy_identity(&c.identity), channel: c.channel }
}

/// Sending `text` from the message box in `mode`, with the client id the
/// new message gets. Empty text sends nothing, nor does a box that is idle
/// or choosing a channel. A new top-level message goes to the mode's
/// channel with no reply; a reply goes to the channel of the message it
/// answers and records that message. Either way the box then replies to
/// the message just put in the outbox, as the same identity.
pub fn send_step(mode: ChatMode, text: String, client_id: MessageClientId) -> (r: Option<SendStep>)
    ensures
        match mode {
            ChatMode::TopMessage(c) => if text@.len() == 0 {
                r is None
            } else {
                r matches Some(s) && s.sender@ == c.own_identity@ && s.channel@ == c.channel@
                    && s.message.reply_to is None && s.message.client_id@ == client_id@ && s.message.body@ == text@
                    && replying_to_outbox(s.mode, c.channel@, client_id@, c.own_identity@)
            },
            ChatMode::ReplyMessage(c) => if text@.len() == 0 {
                r is None
            } else {
                r matches Some(s) && s.sender@ == c.own_identity@ && s.channel@ == reply_channel(c.target)
                    && s.message.client_id@ == client_id@ && s.message.body@ == text@
                    && replying_to_outbox(s.mode, reply_channel(c.target), client_id@, c.own_identity@)
                    && match c.target {
                        ChatModeReplyMessageTarget::Channel(m) => s.message.reply_to == Some(OutboxMessageReplyTo::Channel(m)),
                        ChatModeReplyMessageTarget::Outbox(m) => s.message.reply_to matches Some(
                            OutboxMessageReplyTo::Outbox(x),
                        ) && x@ == m.message@,
                    }
            },
            _ => r is None,
        },
{
    if text.as_str().is_empty() {
        return None;
    }
    match mode {
        ChatMode::TopMessage(c) => {
            let next = ChatMode::ReplyMessage(ChatModeReplyMessage {
                target: ChatModeReplyMessageTarget::Outbox(ChatModeReplyMessageTargetOutbox {
                    channel: copy_channel(&c.channel),
                    message: MessageClientId(client_id.0.clone()),
                }),
                own_identity: copy_identity(&c.own_identity),
            });
            Some(SendStep {
                sender: c.own_identity,
                channel: c.channel,
                message: OutboxMessage { reply_to: None, client_id, body: text },
                mode: next,
            })
        },
        ChatMode::ReplyMessage(c) => {
            let (channel, reply_to) = match c.target {
                ChatModeReplyMessageTarget::Channel(m) => (copy_channel(&m.channel), OutboxMessageReplyTo::Channel(m)),
                ChatModeReplyMessageTarget::Outbox(m) => (m.channel, OutboxMessageReplyTo::Outbox(m.message)),
            };
            let next = ChatMode::ReplyMessage(ChatModeReplyMessage {
                target: ChatModeReplyMessageTarget::Outbox(ChatModeReplyMessageTargetOutbox {
                    channel: copy_channel(&channel),
                    message: MessageClientId(client_id.0.clone()),
                }),
                own_identity: copy_identity(&c.own_identity),
            });
            Some(SendStep {
                sender: c.own_identity,
                channel,
                message: OutboxMessage { reply_to: Some(reply_to), client_id, body: text },
                mode: next,
            })
        },
        _ => None,
    }
}

} // verus!
