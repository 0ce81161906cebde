//! The requests a session handler sends to the hub, and the text the hub
//! sends back.
use vstd::prelude::*;

verus! {

/// Text pushed to one session.
pub struct Message(pub String);

/// A new session, with the capability through which the hub reaches it.
pub struct Connect<C> {
    pub addr: C,
}

/// A session that went away.
pub struct Disconnect {
    pub id: usize,
}

/// Text that session `id` sends to the room `room`.
pub struct ClientMessage {
    pub id: usize,
    pub msg: String,
    pub room: String,
}

/// A request for the names of all known rooms.
pub struct ListRooms;

/// Session `id` moves to the room `name`.
pub struct Join {
    pub id: usize,
    pub name: String,
}

} // verus!
