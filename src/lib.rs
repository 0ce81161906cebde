//! A chat hub: a registry of connected sessions, named rooms that group them,
//! and the routing of text to every member of a room but its sender.
//!
//! The hub decides; it does not deliver. Each operation returns the
//! deliveries it owes, and the transport around it pushes them to sessions.
pub mod hub;
pub mod messages;

pub use hub::{ChatServer, Delivery};
pub use messages::{ClientMessage, Connect, Disconnect, Join, ListRooms, Message};
