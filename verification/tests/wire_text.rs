use lib_p2p_sr::address::{Ipv4Address, PeerAddress};
use lib_p2p_sr::client::Client;
use lib_p2p_sr::error::Error;
use lib_p2p_sr::role::RoleAssignment;
use lib_p2p_sr::server::parse_port;

fn address(a: u8, b: u8, c: u8, d: u8, port: u16) -> PeerAddress {
    PeerAddress { ip: Ipv4Address(a, b, c, d), port }
}

#[test]
fn address_is_written_as_dotted_quad_colon_port() {
    assert_eq!(address(127, 0, 0, 1, 8888).to_bytes(), b"127.0.0.1:8888".to_vec());
    assert_eq!(address(0, 0, 0, 0, 0).to_bytes(), b"0.0.0.0:0".to_vec());
    assert_eq!(address(255, 255, 255, 255, 65535).to_bytes(), b"255.255.255.255:65535".to_vec());
    assert_eq!(address(10, 200, 9, 99, 100).to_bytes(), b"10.200.9.99:100".to_vec());
}

#[test]
fn address_is_read_from_its_text() {
    assert_eq!(PeerAddress::parse(b"127.0.0.1:8888"), Ok(address(127, 0, 0, 1, 8888)));
    assert_eq!(PeerAddress::parse(b"0.0.0.0:0"), Ok(address(0, 0, 0, 0, 0)));
    assert_eq!(
        PeerAddress::parse(b"255.255.255.255:65535"),
        Ok(address(255, 255, 255, 255, 65535))
    );
    assert_eq!(PeerAddress::parse(b"1.2.3.4:5"), Ok(address(1, 2, 3, 4, 5)));
}

#[test]
fn address_port_may_have_leading_zeros() {
    assert_eq!(PeerAddress::parse(b"1.2.3.4:00080"), Ok(address(1, 2, 3, 4, 80)));
    assert_eq!(PeerAddress::parse(b"1.2.3.4:0000000000065535"), Ok(address(1, 2, 3, 4, 65535)));
    assert_eq!(PeerAddress::parse(b"1.2.3.4:000"), Ok(address(1, 2, 3, 4, 0)));
}

#[test]
fn address_octets_must_be_in_shortest_form() {
    assert_eq!(PeerAddress::parse(b"01.2.3.4:5"), Err(Error::ProtocolError));
    assert_eq!(PeerAddress::parse(b"1.02.3.4:5"), Err(Error::ProtocolError));
    assert_eq!(PeerAddress::parse(b"1.2.3.004:5"), Err(Error::ProtocolError));
    assert_eq!(PeerAddress::parse(b"00.0.0.0:5"), Err(Error::ProtocolError));
}

#[test]
fn address_numbers_must_be_in_range() {
    assert_eq!(PeerAddress::parse(b"256.0.0.1:80"), Err(Error::ProtocolError));
    assert_eq!(PeerAddress::parse(b"1.2.3.1000:80"), Err(Error::ProtocolError));
    assert_eq!(PeerAddress::parse(b"1.2.3.4:65536"), Err(Error::ProtocolError));
    assert_eq!(PeerAddress::parse(b"1.2.3.4:99999999999999999999"), Err(Error::ProtocolError));
    assert_eq!(PeerAddress::parse(b"99999999999999999999.2.3.4:1"), Err(Error::ProtocolError));
}

#[test]
fn address_with_wrong_shape_is_refused() {
    let refused: [&[u8]; 16] = [
        b"",
        b"1.2.3.4",
        b"1.2.3.4:",
        b"1.2.3:80",
        b"1.2.3.4.5:80",
        b".2.3.4:80",
        b"1..3.4:80",
        b"1.2.3.4:80 ",
        b" 1.2.3.4:80",
        b"1.2.3.4:+80",
        b"1.2.3.4:8a",
        b"1.2.3.4;80",
        b"1,2,3,4:80",
        b"[::1]:80",
        b"localhost:80",
        b"1.2.3.4:80\0",
    ];
    for text in refused {
        assert_eq!(PeerAddress::parse(text), Err(Error::ProtocolError), "{:?}", text);
    }
}

#[test]
fn address_round_trip_over_many_values() {
    let octets: [u8; 8] = [0, 1, 9, 10, 99, 100, 199, 255];
    let ports: [u16; 9] = [0, 1, 9, 10, 80, 999, 1000, 9999, 65535];
    for a in octets {
        for d in octets {
            for port in ports {
                let written = address(a, 7, 42, d, port);
                assert_eq!(PeerAddress::parse(&written.to_bytes()), Ok(written));
            }
        }
    }
}

#[test]
fn port_is_read_from_decimal_text() {
    assert_eq!(parse_port(b"0"), Ok(0));
    assert_eq!(parse_port(b"80"), Ok(80));
    assert_eq!(parse_port(b"8888"), Ok(8888));
    assert_eq!(parse_port(b"65535"), Ok(65535));
}

#[test]
fn port_may_have_a_plus_sign_and_leading_zeros() {
    assert_eq!(parse_port(b"+80"), Ok(80));
    assert_eq!(parse_port(b"0080"), Ok(80));
    assert_eq!(parse_port(b"+000"), Ok(0));
    assert_eq!(parse_port(b"000000000000000000000065535"), Ok(65535));
}

#[test]
fn port_that_is_no_u16_is_refused() {
    let refused: [&[u8]; 14] = [
        b"",
        b"+",
        b"-1",
        b"-0",
        b"++1",
        b"65536",
        b"70000",
        b"4294967296",
        b"99999999999999999999999999",
        b"80 ",
        b" 80",
        b"80\n",
        b"8o",
        b"\xff\xfe",
    ];
    for payload in refused {
        assert_eq!(parse_port(payload), Err(Error::ProtocolError), "{:?}", payload);
    }
}

#[test]
fn registration_is_the_shortest_numeral_of_the_port() {
    assert_eq!(Client::new(0).registration(), b"0".to_vec());
    assert_eq!(Client::new(7).registration(), b"7".to_vec());
    assert_eq!(Client::new(8888).registration(), b"8888".to_vec());
    assert_eq!(Client::new(40000).registration(), b"40000".to_vec());
    assert_eq!(Client::new(65535).registration(), b"65535".to_vec());
}

#[test]
fn registration_is_read_back_as_the_port() {
    let ports: [u16; 10] = [0, 1, 9, 10, 99, 100, 1024, 9999, 10000, 65535];
    for port in ports {
        let client = Client::new(port);
        assert_eq!(client.real_port(), port);
        assert_eq!(parse_port(&client.registration()), Ok(port));
    }
}

#[test]
fn reply_of_a_waiter_is_empty() {
    assert_eq!(RoleAssignment::Waiter.reply(), Vec::<u8>::new());
}

#[test]
fn reply_of_an_initiator_is_the_address() {
    let role = RoleAssignment::Initiator(address(192, 168, 1, 20, 4242));
    assert_eq!(role.reply(), b"192.168.1.20:4242".to_vec());
}

#[test]
fn empty_reply_makes_a_waiter() {
    assert_eq!(Client::new(5000).connect(b""), Ok(RoleAssignment::Waiter));
}

#[test]
fn address_reply_makes_an_initiator() {
    assert_eq!(
        Client::new(5000).connect(b"127.0.0.1:5001"),
        Ok(RoleAssignment::Initiator(address(127, 0, 0, 1, 5001)))
    );
}

#[test]
fn unreadable_reply_is_a_protocol_error() {
    assert_eq!(Client::new(5000).connect(b"not an address"), Err(Error::ProtocolError));
    assert_eq!(Client::new(5000).connect(b"127.0.0.1"), Err(Error::ProtocolError));
    assert_eq!(Client::new(5000).connect(b"\0"), Err(Error::ProtocolError));
    assert_eq!(Client::new(5000).connect(b"\xc3\x28"), Err(Error::ProtocolError));
}

#[test]
fn reply_round_trip() {
    let roles = [
        RoleAssignment::Waiter,
        RoleAssignment::Initiator(address(127, 0, 0, 1, 1)),
        RoleAssignment::Initiator(address(8, 8, 8, 8, 65535)),
    ];
    for role in roles {
        assert_eq!(Client::new(1).connect(&role.reply()), Ok(role));
    }
}

#[test]
fn port_is_read_as_the_standard_parser_reads_it() {
    let alphabet: [u8; 8] = [b'0', b'1', b'6', b'9', b'+', b'-', b' ', b'a'];
    let mut payloads: Vec<Vec<u8>> = vec![Vec::new()];
    let mut last: Vec<Vec<u8>> = vec![Vec::new()];
    for _ in 0..5 {
        let mut next = Vec::new();
        for prefix in &last {
            for byte in alphabet {
                let mut payload = prefix.clone();
                payload.push(byte);
                next.push(payload);
            }
        }
        payloads.extend(next.iter().cloned());
        last = next;
    }
    for n in 65000u32..66000 {
        payloads.push(n.to_string().into_bytes());
        payloads.push(format!("+{:07}", n).into_bytes());
    }
    for payload in payloads {
        let expected = std::str::from_utf8(&payload)
            .ok()
            .and_then(|text| text.parse::<u16>().ok())
            .ok_or(Error::ProtocolError);
        assert_eq!(parse_port(&payload), expected, "{:?}", payload);
    }
}

#[test]
fn registration_of_every_port_is_its_decimal_string() {
    for port in 0..=u16::MAX {
        assert_eq!(Client::new(port).registration(), port.to_string().into_bytes());
    }
}

#[test]
fn address_text_is_the_formatted_address() {
    let octets: [u8; 7] = [0, 5, 10, 77, 100, 200, 255];
    let ports: [u16; 6] = [0, 9, 10, 443, 10000, 65535];
    for a in octets {
        for b in octets {
            for port in ports {
                let text = format!("{}.{}.{}.{}:{}", a, b, 255 - a, 255 - b, port);
                let value = address(a, b, 255 - a, 255 - b, port);
                assert_eq!(value.to_bytes(), text.clone().into_bytes());
                assert_eq!(PeerAddress::parse(text.as_bytes()), Ok(value));
            }
        }
    }
}
