//! Identifiers of the older wire protocol.
use vstd::prelude::*;
use crate::shared::Identity;
use crate::text::{parse_i64, parse_int, int_error_message, lemma_parse_in_bounds};

verus! {

#[derive(Clone, Copy, Debug, PartialEq, Eq, Structural)]
pub struct InternalChannelId(pub i64);

impl InternalChannelId {
    /// Reads a channel id from its decimal text; the error is the message of
    /// the integer parse failure.
    pub fn from_str(s: &str) -> (r: Result<InternalChannelId, String>)
        ensures
            match parse_int(s@, true, i64::MIN as int, i64::MAX as int) {
                Ok(v) => r matches Ok(id) && id.0 == v,
                Err(k) => r matches Err(e) && e@ == int_error_message(k),
            },
    {
        proof {
            lemma_parse_in_bounds(s@, true, i64::MIN as int, i64::MAX as int);
        }
        match parse_i64(s) {
            Ok(v) => Ok(InternalChannelId(v)),
            Err(k) => Err(k.message()),
        }
    }
}

#[derive(Clone, Copy, Debug, PartialEq, Eq, Structural)]
pub struct InternalChannelGroupId(pub i64);

#[derive(Clone, Copy, Debug, PartialEq, Eq, Structural)]
pub struct InternalIdentityId(pub i64);

#[derive(Clone, Debug)]
pub struct IdentityInvitationToken(pub(crate) String);

#[derive(Clone, Debug)]
pub struct ChannelInvitationToken(pub(crate) String);

#[derive(Clone, Debug)]
pub struct ChannelId {
    pub identity: Identity,
    pub channel: u64,
}

#[derive(Clone, Debug)]
pub struct InvitationToken(pub String);

#[derive(Clone, Debug)]
pub struct MessageId {
    pub identity: Identity,
    pub unique: u64,
}

#[derive(Clone, Debug)]
pub enum MessageBlock {
    Text(String),
}

#[derive(Clone, Debug)]
pub struct MessageBody {
    pub id: MessageId,
    pub reply_to: Option<MessageId>,
    pub blocks: Vec<MessageBlock>,
}

} // verus!
