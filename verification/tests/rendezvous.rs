use lib_p2p_sr::address::{Ipv4Address, PeerAddress};
use lib_p2p_sr::error::Error;
use lib_p2p_sr::role::RoleAssignment;
use lib_p2p_sr::server::Server;

const IP_A: Ipv4Address = Ipv4Address(10, 0, 0, 1);
const IP_B: Ipv4Address = Ipv4Address(10, 0, 0, 2);
const IP_C: Ipv4Address = Ipv4Address(10, 0, 0, 3);
const IP_D: Ipv4Address = Ipv4Address(10, 0, 0, 4);

#[test]
fn first_peer_waits_and_second_is_sent_to_it() {
    let mut server = Server::new();
    assert_eq!(server.listen(IP_A, b"4000"), Ok(RoleAssignment::Waiter));
    assert_eq!(
        server.listen(IP_B, b"5000"),
        Ok(RoleAssignment::Initiator(PeerAddress { ip: IP_A, port: 4000 }))
    );
}

#[test]
fn peer_address_is_observed_ip_with_reported_port() {
    let mut server = Server::new();
    assert_eq!(server.listen(Ipv4Address(192, 168, 7, 9), b"+00123"), Ok(RoleAssignment::Waiter));
    assert_eq!(
        server.listen(IP_B, b"1"),
        Ok(RoleAssignment::Initiator(PeerAddress { ip: Ipv4Address(192, 168, 7, 9), port: 123 }))
    );
}

#[test]
fn slot_is_empty_again_after_a_pair() {
    let mut server = Server::new();
    assert_eq!(server.listen(IP_A, b"4000"), Ok(RoleAssignment::Waiter));
    assert!(matches!(server.listen(IP_B, b"5000"), Ok(RoleAssignment::Initiator(_))));
    assert_eq!(server.listen(IP_C, b"6000"), Ok(RoleAssignment::Waiter));
    assert_eq!(
        server.listen(IP_D, b"7000"),
        Ok(RoleAssignment::Initiator(PeerAddress { ip: IP_C, port: 6000 }))
    );
}

#[test]
fn third_peer_takes_the_place_of_a_late_second() {
    // A registers, C comes before B: C is sent to A, and B finds the slot
    // empty and waits.
    let mut server = Server::new();
    assert_eq!(server.listen(IP_A, b"4000"), Ok(RoleAssignment::Waiter));
    assert_eq!(
        server.listen(IP_C, b"6000"),
        Ok(RoleAssignment::Initiator(PeerAddress { ip: IP_A, port: 4000 }))
    );
    assert_eq!(server.listen(IP_B, b"5000"), Ok(RoleAssignment::Waiter));
    assert_eq!(
        server.listen(IP_D, b"7000"),
        Ok(RoleAssignment::Initiator(PeerAddress { ip: IP_B, port: 5000 }))
    );
}

#[test]
fn arrivals_are_paired_in_order() {
    let mut server = Server::new();
    let mut previous: Option<PeerAddress> = None;
    for i in 0..20u16 {
        let ip = Ipv4Address(10, 1, 0, i as u8);
        let port = 1000 + i;
        let role = server.listen(ip, port.to_string().as_bytes());
        if i % 2 == 0 {
            assert_eq!(role, Ok(RoleAssignment::Waiter));
        } else {
            assert_eq!(role, Ok(RoleAssignment::Initiator(previous.unwrap())));
        }
        previous = Some(PeerAddress { ip, port });
    }
}

#[test]
fn malformed_registration_leaves_an_empty_slot_empty() {
    let mut server = Server::new();
    assert_eq!(server.listen(IP_A, b"port"), Err(Error::ProtocolError));
    assert_eq!(server.listen(IP_A, b""), Err(Error::ProtocolError));
    assert_eq!(server.listen(IP_A, b"65536"), Err(Error::ProtocolError));
    assert_eq!(server.listen(IP_B, b"5000"), Ok(RoleAssignment::Waiter));
}

#[test]
fn malformed_registration_leaves_a_pending_peer_pending() {
    let mut server = Server::new();
    assert_eq!(server.listen(IP_A, b"4000"), Ok(RoleAssignment::Waiter));
    assert_eq!(server.listen(IP_C, b"\xff"), Err(Error::ProtocolError));
    assert_eq!(server.listen(IP_C, b"-5"), Err(Error::ProtocolError));
    assert_eq!(
        server.listen(IP_B, b"5000"),
        Ok(RoleAssignment::Initiator(PeerAddress { ip: IP_A, port: 4000 }))
    );
}

#[test]
fn revoked_initiator_leaves_the_waiter_pending() {
    let mut server = Server::new();
    assert_eq!(server.listen(IP_A, b"4000"), Ok(RoleAssignment::Waiter));
    let role = server.listen(IP_B, b"5000").unwrap();
    server.revoke(&role);
    assert_eq!(
        server.listen(IP_C, b"6000"),
        Ok(RoleAssignment::Initiator(PeerAddress { ip: IP_A, port: 4000 }))
    );
}

#[test]
fn revoked_waiter_leaves_the_slot_empty() {
    let mut server = Server::new();
    let role = server.listen(IP_A, b"4000").unwrap();
    assert_eq!(role, RoleAssignment::Waiter);
    server.revoke(&role);
    assert_eq!(server.listen(IP_B, b"5000"), Ok(RoleAssignment::Waiter));
}
