//! Work that the node starts on its own: introducing itself to a peer.

use vstd::prelude::*;
use crate::fields::MessageMap;

verus! {

/// The message this node sends to introduce itself: a ping from a server.
pub open spec fn introduction_message() -> Map<Seq<char>, Seq<char>> {
    Map::<Seq<char>, Seq<char>>::empty().insert("message"@, "ping"@).insert("source"@, "server"@)
}

/// An introduction to send: where to, and the message, which goes out as
/// signed JSON.
#[derive(Debug, Clone)]
pub struct Introduction {
    pub address: String,
    pub message: MessageMap,
}

/// Prepares the introduction of this node to the peer `keyid` at `address`.
pub fn introduce(keyid: String, address: String) -> (r: Introduction)
    ensures
        r.address@ == address@,
        r.message.wf(),
        r.message@ == introduction_message(),
{
    let mut hm = MessageMap::new();
    hm.insert("message".to_owned(), "ping".to_owned());
    hm.insert("source".to_owned(), "server".to_owned());
    Introduction { address, message: hm }
}

} // verus!
