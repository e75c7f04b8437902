//! Rendezvous pairing and message framing for two peers that find each other
//! through a small authority and then talk over a direct link.
//!
//! Nothing in this crate touches a socket. Each type is the part of one
//! participant that decides: it is given the bytes that arrived and says
//! what they mean and which bytes to write.
//!
//! - [`Server`] is the authority: one slot for a pending peer, and the rule
//!   by which every registration is answered with a [`RoleAssignment`].
//! - [`Client`] is a peer before it has a link: it writes its registration,
//!   reads the reply, and learns from it whether to wait for the other peer
//!   or to dial it.
//! - [`ConnectedClient`] is a peer on its link: it frames the messages to
//!   send and finds the messages in the bytes that arrive.
//!
//! The life of a peer runs through these types in order. A [`Client`] is
//! unregistered until its registration is written, and then awaits its
//! assignment. The [`RoleAssignment`] that [`Client::connect`] reads from the
//! reply says what the peer awaits next: an inbound connection as
//! [`RoleAssignment::Waiter`], the outcome of its dial as
//! [`RoleAssignment::Initiator`]. With the link made, the peer goes on as a
//! [`ConnectedClient`]. A reply that cannot be read ends the registration
//! with [`Error::ProtocolError`].

pub mod address;
pub mod channel;
pub mod client;
pub mod decimal;
pub mod error;
pub mod role;
pub mod server;

pub use crate::address::{Ipv4Address, PeerAddress};
pub use crate::channel::ConnectedClient;
pub use crate::client::Client;
pub use crate::error::Error;
pub use crate::role::RoleAssignment;
pub use crate::server::Server;
