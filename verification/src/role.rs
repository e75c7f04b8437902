//! The role that the authority assigns to a registering peer, and the reply
//! that tells the peer of it.

use crate::address::{
    address_text, is_address_text, lemma_address_text_is_unambiguous,
    lemma_address_text_round_trip, PeerAddress,
};
use vstd::prelude::*;

verus! {

/// What a peer has to do after it registered. A waiter carries no address, so
/// it cannot hold a stale one.
#[derive(Clone, Copy, Debug, PartialEq, Eq, Structural)]
pub enum RoleAssignment {
    /// No peer was pending: accept one inbound connection on the own
    /// listening socket.
    Waiter,
    /// A peer was pending at this address: dial it.
    Initiator(PeerAddress),
}

/// The reply that the authority writes for `role`: nothing for a waiter, the
/// text of the pending peer's address for an initiator.
pub open spec fn reply_text(role: RoleAssignment) -> Seq<u8> {
    match role {
        RoleAssignment::Waiter => Seq::<u8>::empty(),
        RoleAssignment::Initiator(address) => address_text(address),
    }
}

/// Whether a peer that reads `reply` takes `role`: an empty reply makes a
/// waiter, a text of an address an initiator that dials it.
pub open spec fn is_reply_text(reply: Seq<u8>, role: RoleAssignment) -> bool {
    match role {
        RoleAssignment::Waiter => reply.len() == 0,
        RoleAssignment::Initiator(address) => is_address_text(reply, address),
    }
}

/// The reply written for a role is read as that role.
pub proof fn lemma_reply_round_trip(role: RoleAssignment)
    ensures
        is_reply_text(reply_text(role), role),
{
    if let RoleAssignment::Initiator(address) = role {
        lemma_address_text_round_trip(address);
    }
}

/// A reply is read as at most one role.
pub proof fn lemma_reply_is_unambiguous(
    reply: Seq<u8>,
    first: RoleAssignment,
    second: RoleAssignment,
)
    requires
        is_reply_text(reply, first),
        is_reply_text(reply, second),
    ensures
        first == second,
{
    if let RoleAssignment::Initiator(a) = first {
        if let RoleAssignment::Initiator(b) = second {
            lemma_address_text_is_unambiguous(reply, a, b);
        }
    }
}

impl RoleAssignment {
    /// The bytes to send back to the peer that was given this role.
    pub fn reply(&self) -> (text: Vec<u8>)
        ensures
            text@ == reply_text(*self),
    {
        match self {
            RoleAssignment::Waiter => Vec::new(),
            RoleAssignment::Initiator(address) => address.to_bytes(),
        }
    }
}

} // verus!
