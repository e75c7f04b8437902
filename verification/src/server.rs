//! The rendezvous authority: one slot for a pending peer, and the rule by
//! which each registration is answered.

use crate::address::{Ipv4Address, PeerAddress};
use crate::decimal::{decimal_value, is_digits, lemma_digit_run_ends, read_number};
use crate::error::Error;
use crate::role::RoleAssignment;
use vstd::prelude::*;

verus! {

/// The byte `+`, which may stand before the digits of a port.
pub const PLUS: u8 = 0x2b;

/// The digits of a registration payload: the payload itself, without the
/// plus sign where it starts with one.
pub open spec fn port_digits(payload: Seq<u8>) -> Seq<u8> {
    if payload.len() > 0 && payload[0] == PLUS {
        payload.subrange(1, payload.len() as int)
    } else {
        payload
    }
}

/// Whether `payload` names a port: at least one decimal digit and nothing
/// else but an optional leading plus sign, denoting at most 65535. Leading
/// zeros are accepted.
pub open spec fn is_port_text(payload: Seq<u8>) -> bool {
    let digits = port_digits(payload);
    &&& digits.len() > 0
    &&& is_digits(digits)
    &&& decimal_value(digits) <= 0xffff
}

/// The port that a payload names.
pub open spec fn port_of_text(payload: Seq<u8>) -> u16
    recommends
        is_port_text(payload),
{
    decimal_value(port_digits(payload)) as u16
}

/// What one registration does to the slot: the slot afterwards, and the role
/// of the peer that registered from `arrival`. A peer that finds the slot
/// empty is stored and waits; one that finds it occupied takes the stored
/// address and leaves the slot empty.
pub open spec fn pair(slot: Option<PeerAddress>, arrival: PeerAddress) -> (
    Option<PeerAddress>,
    RoleAssignment,
) {
    match slot {
        None => (Some(arrival), RoleAssignment::Waiter),
        Some(pending) => (None, RoleAssignment::Initiator(pending)),
    }
}

/// The slot as it was when a registration was answered with `role`.
pub open spec fn slot_before(role: RoleAssignment) -> Option<PeerAddress> {
    match role {
        RoleAssignment::Waiter => None,
        RoleAssignment::Initiator(pending) => Some(pending),
    }
}

/// The slot after the peers of `arrivals` registered one after the other.
pub open spec fn slot_after(slot: Option<PeerAddress>, arrivals: Seq<PeerAddress>) -> Option<
    PeerAddress,
>
    decreases arrivals.len(),
{
    if arrivals.len() == 0 {
        slot
    } else {
        pair(slot_after(slot, arrivals.drop_last()), arrivals.last()).0
    }
}

/// The role of the last peer of `arrivals`, which registered after all the
/// others.
pub open spec fn role_of_last(slot: Option<PeerAddress>, arrivals: Seq<PeerAddress>) -> RoleAssignment
    recommends
        arrivals.len() > 0,
{
    pair(slot_after(slot, arrivals.drop_last()), arrivals.last()).1
}

/// Of two peers that register one after the other with an empty slot, the
/// first waits and the second is sent to the first; the slot is empty again.
pub proof fn lemma_two_peers_are_paired(first: PeerAddress, second: PeerAddress)
    ensures
        pair(None, first) == (Some(first), RoleAssignment::Waiter),
        pair(pair(None, first).0, second) == (
            None::<PeerAddress>,
            RoleAssignment::Initiator(first),
        ),
{
}

/// Peers are paired strictly in the order of their arrival, with no queue
/// behind the one slot. Starting from an empty slot, every peer at an even
/// position waits and is alone in the slot, and every peer at an odd position
/// is sent to the peer just before it and leaves the slot empty. A third peer
/// therefore never joins a pair: it waits for a fourth.
pub proof fn lemma_arrivals_pair_in_order(arrivals: Seq<PeerAddress>)
    ensures
        slot_after(None, arrivals) == if arrivals.len() % 2 == 0 {
            None
        } else {
            Some(arrivals.last())
        },
        arrivals.len() > 0 ==> role_of_last(None, arrivals) == if arrivals.len() % 2 == 1 {
            RoleAssignment::Waiter
        } else {
            RoleAssignment::Initiator(arrivals[arrivals.len() - 2])
        },
    decreases arrivals.len(),
{
    if arrivals.len() > 0 {
        lemma_arrivals_pair_in_order(arrivals.drop_last());
    }
}

/// The slot holds one peer and there is no queue behind it. A peer that
/// registers while `first` is pending is sent to `first`, whoever it is, and
/// `first` is gone from the slot. A peer that comes later, though it may have
/// been meant for `first`, finds the slot empty and waits in it itself.
pub proof fn lemma_no_queue_behind_slot(first: PeerAddress, second: PeerAddress, late: PeerAddress)
    ensures
        ({
            let (slot_of_first, _) = pair(None, first);
            let (slot_of_second, role_of_second) = pair(slot_of_first, second);
            let (slot_of_late, role_of_late) = pair(slot_of_second, late);
            &&& slot_of_first == Some(first)
            &&& role_of_second == RoleAssignment::Initiator(first)
            &&& slot_of_second is None
            &&& role_of_late == RoleAssignment::Waiter
            &&& slot_of_late == Some(late)
        }),
{
}

/// Taking a registration back restores the slot that it found.
pub proof fn lemma_revoke_restores(slot: Option<PeerAddress>, arrival: PeerAddress)
    ensures
        slot_before(pair(slot, arrival).1) == slot,
{
}

/// Reads the port that a registering peer reports.
pub fn parse_port(payload: &[u8]) -> (result: Result<u16, Error>)
    ensures
        result == if is_port_text(payload@) {
            Ok::<u16, Error>(port_of_text(payload@))
        } else {
            Err::<u16, Error>(Error::ProtocolError)
        },
{
    let start: usize = if payload.len() > 0 && payload[0] == PLUS {
        1
    } else {
        0
    };
    let (end, value) = read_number(payload, start, 0xffff);
    proof {
        let digits = port_digits(payload@);
        assert(digits =~= payload@.subrange(start as int, payload@.len() as int));
        lemma_digit_run_ends(payload@, start as int);
        if end < payload@.len() {
            assert(digits[end - start] == payload@[end as int]);
        }
    }
    if end == start || end < payload.len() {
        return Err(Error::ProtocolError);
    }
    match value {
        Some(port) => Ok(port as u16),
        None => Err(Error::ProtocolError),
    }
}

/// The rendezvous authority. It keeps the address of at most one peer that
/// registered and was not matched yet. Nothing ever times out: a peer that
/// is never matched stays in the slot.
///
/// A registration borrows the authority mutably, so no other registration
/// can come between its look at the slot and its change of it.
#[derive(Debug)]
pub struct Server {
    client_p2p_socket: Option<PeerAddress>,
}

impl Server {
    /// The peer that waits to be matched, if any.
    pub closed spec fn pending(&self) -> Option<PeerAddress> {
        self.client_p2p_socket
    }

    /// An authority with an empty slot.
    pub fn new() -> (server: Server)
        ensures
            server.pending() is None,
    {
        Server { client_p2p_socket: None }
    }

    /// Answers one registration: `message` is the payload that the peer
    /// sent, `client_ip` the address its connection came from. The address
    /// of the peer is `client_ip` with the port that the payload names.
    ///
    /// A payload that names no port is refused with
    /// [`Error::ProtocolError`], and the slot stays as it was. Otherwise the
    /// peer is paired by [`pair`]; the reply to send is the role's
    /// [`RoleAssignment::reply`].
    pub fn listen(&mut self, client_ip: Ipv4Address, message: &[u8]) -> (result: Result<
        RoleAssignment,
        Error,
    >)
        ensures
            match result {
                Ok(role) => is_port_text(message@) && (final(self).pending(), role) == pair(
                    old(self).pending(),
                    PeerAddress { ip: client_ip, port: port_of_text(message@) },
                ),
                Err(error) => error == Error::ProtocolError && !is_port_text(message@)
                    && final(self).pending() == old(self).pending(),
            },
    {
        let port: u16 = match parse_port(message) {
            Ok(port) => port,
            Err(error) => { return Err(error); },
        };
        match self.client_p2p_socket {
            None => {
                self.client_p2p_socket = Some(PeerAddress { ip: client_ip, port });
                Ok(RoleAssignment::Waiter)
            },
            Some(pending) => {
                self.client_p2p_socket = None;
                Ok(RoleAssignment::Initiator(pending))
            },
        }
    }

    /// Takes back a registration that was answered with `role` but whose
    /// reply could not be delivered: the slot is again as that registration
    /// found it.
    pub fn revoke(&mut self, role: &RoleAssignment)
        ensures
            final(self).pending() == slot_before(*role),
    {
        self.client_p2p_socket = match role {
            RoleAssignment::Waiter => None,
            RoleAssignment::Initiator(pending) => Some(*pending),
        };
    }
}

} // verus!
