//! Client/server logic of the kwa chat: identifiers and wire types, the
//! textual forms of path requests and `kwa:` URLs, database value codecs,
//! and the state machines that drive message feeds.
use vstd::prelude::*;

pub mod text;
pub mod urlenc;
pub mod jsontext;
pub mod stamp;
pub mod shared;
pub mod wire_shared;
pub mod wire;
pub mod path;
pub mod reqs;
pub mod kwaurl;
pub mod native;
pub mod chat_time;
pub mod feeds;
pub mod infinite;
pub mod localdata;
pub mod background;
pub mod chat;
pub mod sw;

verus! {

/// Takes the value out of `x`, leaving a default value of its type behind.
pub fn steal<T: Default>(x: &mut T) -> (taken: T)
    ensures
        taken == *old(x),
        call_ensures(T::default, (), *final(x)),
{
    let mut x1 = T::default();
    core::mem::swap(x, &mut x1);
    x1
}

} // verus!
