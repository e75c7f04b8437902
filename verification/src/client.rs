//! The peer's side of the rendezvous: what it sends to the authority, and what
//! it makes of the reply.

use crate::address::{Ipv4Address, PeerAddress};
use crate::decimal::{decimal_text, lemma_decimal_text_denotes, write_number};
use crate::error::Error;
use crate::role::{is_reply_text, lemma_reply_round_trip, reply_text, RoleAssignment};
use crate::server::{is_port_text, pair, port_digits, port_of_text, PLUS};
use vstd::prelude::*;

verus! {

/// The payload that a peer listening on `port` registers with: the shortest
/// decimal numeral of the port, with nothing before or behind it.
pub open spec fn registration_text(port: u16) -> Seq<u8> {
    decimal_text(port as nat)
}

/// The authority reads from a registration the port that the peer wrote.
pub proof fn lemma_registration_names_port(port: u16)
    ensures
        is_port_text(registration_text(port)),
        port_of_text(registration_text(port)) == port,
{
    let text = registration_text(port);
    lemma_decimal_text_denotes(port as nat);
    assert(text[0] != PLUS);
    assert(port_digits(text) == text);
}

/// Two peers that register one after the other with an authority whose slot
/// is empty find each other, whatever their addresses and ports: from what
/// the first writes, the authority stores where the first listens and
/// replies with nothing, which the first reads as its order to wait; from
/// what the second writes, the authority replies with the address that the
/// first was seen at and the port that the first reported, which the second
/// reads as its order to dial just that. The slot is empty again.
pub proof fn lemma_rendezvous(
    first_ip: Ipv4Address,
    first_port: u16,
    second_ip: Ipv4Address,
    second_port: u16,
)
    ensures
        ({
            let first_payload = registration_text(first_port);
            let second_payload = registration_text(second_port);
            let first = PeerAddress { ip: first_ip, port: port_of_text(first_payload) };
            let second = PeerAddress { ip: second_ip, port: port_of_text(second_payload) };
            let (slot, first_role) = pair(None, first);
            let (slot_at_end, second_role) = pair(slot, second);
            &&& is_port_text(first_payload)
            &&& is_port_text(second_payload)
            &&& first_role == RoleAssignment::Waiter
            &&& reply_text(first_role).len() == 0
            &&& is_reply_text(reply_text(first_role), RoleAssignment::Waiter)
            &&& second_role == RoleAssignment::Initiator(
                PeerAddress { ip: first_ip, port: first_port },
            )
            &&& is_reply_text(reply_text(second_role), second_role)
            &&& slot_at_end is None
        }),
{
    lemma_registration_names_port(first_port);
    lemma_registration_names_port(second_port);
    lemma_reply_round_trip(RoleAssignment::Initiator(PeerAddress { ip: first_ip, port: first_port }));
}

/// A peer that has a listening socket for its direct link and is not yet
/// connected to anyone.
#[derive(Debug)]
pub struct Client {
    p2p_port: u16,
}

impl Client {
    /// The port on which the peer listens for its direct link.
    pub closed spec fn listen_port(&self) -> u16 {
        self.p2p_port
    }

    /// A peer whose listening socket is bound to `port`, the port that the
    /// socket really has.
    pub fn new(port: u16) -> (client: Client)
        ensures
            client.listen_port() == port,
    {
        Client { p2p_port: port }
    }

    /// The port on which the peer listens for its direct link.
    pub fn real_port(&self) -> (port: u16)
        ensures
            port == self.listen_port(),
    {
        self.p2p_port
    }

    /// The payload to send to the authority, in one write.
    pub fn registration(&self) -> (payload: Vec<u8>)
        ensures
            payload@ == registration_text(self.listen_port()),
    {
        let mut payload: Vec<u8> = Vec::new();
        write_number(&mut payload, self.p2p_port);
        proof {
            assert(payload@ =~= registration_text(self.p2p_port));
        }
        payload
    }

    /// Decides from the authority's reply how the direct link is made. An
    /// empty reply makes the peer the waiter, which accepts one inbound
    /// connection on its listening socket. A reply that holds the text of an
    /// address makes it the initiator, which dials that address. Any other
    /// reply is refused with [`Error::ProtocolError`].
    pub fn connect(self, reply: &[u8]) -> (result: Result<RoleAssignment, Error>)
        ensures
            match result {
                Ok(role) => is_reply_text(reply@, role),
                Err(error) => error == Error::ProtocolError && forall|role: RoleAssignment|
                    !is_reply_text(reply@, role),
            },
    {
        if reply.len() == 0 {
            return Ok(RoleAssignment::Waiter);
        }
        match PeerAddress::parse(reply) {
            Ok(address) => Ok(RoleAssignment::Initiator(address)),
            Err(error) => Err(error),
        }
    }
}

} // verus!
