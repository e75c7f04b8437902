//! The address at which a peer can be reached, and its text form on the wire:
//! four decimal octets separated by dots, a colon, and the decimal port.

use crate::decimal::{
    decimal_text, decimal_value, digit_run, is_canonical, is_digit, is_digits,
    lemma_canonical_is_decimal_text, lemma_decimal_text_denotes, lemma_digit_run_ends,
    lemma_digit_run_is, read_number, write_number, DIGIT_ZERO,
};
use crate::error::Error;
use vstd::prelude::*;

verus! {

/// The byte `.` between the octets of an address.
pub const DOT: u8 = 0x2e;

/// The byte `:` between an address and its port.
pub const COLON: u8 = 0x3a;

/// The address of a host: the four octets of an IPv4 address in network
/// order. The text form on the wire has a place for these and for no other
/// kind of address.
#[derive(Clone, Copy, Debug, PartialEq, Eq, Structural)]
pub struct Ipv4Address(pub u8, pub u8, pub u8, pub u8);

/// Where a peer listens for its direct link: the address the peer was seen
/// at, and the port it reported.
#[derive(Clone, Copy, Debug, PartialEq, Eq, Structural)]
pub struct PeerAddress {
    pub ip: Ipv4Address,
    pub port: u16,
}

/// The text of an address up to and including the colon: each octet as its
/// shortest numeral, the first three followed by a dot and the last by the
/// colon.
pub open spec fn head_text(ip: Ipv4Address) -> Seq<u8> {
    decimal_text(ip.0 as nat).push(DOT) + decimal_text(ip.1 as nat).push(DOT) + decimal_text(
        ip.2 as nat,
    ).push(DOT) + decimal_text(ip.3 as nat).push(COLON)
}

/// The text that is written for `address`: `a.b.c.d:port`, every number as
/// its shortest numeral.
pub open spec fn address_text(address: PeerAddress) -> Seq<u8> {
    head_text(address.ip) + decimal_text(address.port as nat)
}

/// Whether `text` is read as `address`: the octets must be written in their
/// shortest form, while the port may be any numeral of it, leading zeros
/// included.
pub open spec fn is_address_text(text: Seq<u8>, address: PeerAddress) -> bool {
    let head = head_text(address.ip);
    let port = text.subrange(head.len() as int, text.len() as int);
    &&& head.len() < text.len()
    &&& text.subrange(0, head.len() as int) == head
    &&& is_digits(port)
    &&& decimal_value(port) == address.port
}

/// What reading one octet at `from` gives: the octet and the index behind the
/// separator that follows it. The octet must be a canonical numeral of at
/// most 255, directly followed by `separator`.
spec fn scan_octet(text: Seq<u8>, from: int, separator: u8) -> Option<(u8, int)> {
    let end = digit_run(text, from);
    let digits = text.subrange(from, end);
    if 0 <= from <= text.len() && is_canonical(digits) && decimal_value(digits) <= 255 && end
        < text.len() && text[end] == separator {
        Some((decimal_value(digits) as u8, end + 1))
    } else {
        None
    }
}

/// What reading the port at `from` gives: digits must go on to the end of the
/// text, at least one of them, and denote at most 65535.
spec fn scan_port(text: Seq<u8>, from: int) -> Option<u16> {
    let digits = text.subrange(from, text.len() as int);
    if 0 <= from < text.len() && digit_run(text, from) == text.len() && decimal_value(digits)
        <= 0xffff {
        Some(decimal_value(digits) as u16)
    } else {
        None
    }
}

/// What reading `text` from left to right gives.
spec fn scan_address(text: Seq<u8>) -> Option<PeerAddress> {
    match scan_octet(text, 0, DOT) {
        Some((a, after_a)) => match scan_octet(text, after_a, DOT) {
            Some((b, after_b)) => match scan_octet(text, after_b, DOT) {
                Some((c, after_c)) => match scan_octet(text, after_c, COLON) {
                    Some((d, after_d)) => match scan_port(text, after_d) {
                        Some(port) => Some(PeerAddress { ip: Ipv4Address(a, b, c, d), port }),
                        None => None,
                    },
                    None => None,
                },
                None => None,
            },
            None => None,
        },
        None => None,
    }
}

/// An octet that was read, with its separator, is the shortest numeral of the
/// octet followed by the separator.
proof fn lemma_scanned_octet_text(text: Seq<u8>, from: int, separator: u8)
    requires
        scan_octet(text, from, separator) is Some,
    ensures
        ({
            let (octet, after) = scan_octet(text, from, separator)->0;
            &&& from < after <= text.len()
            &&& text.subrange(from, after) == decimal_text(octet as nat).push(separator)
        }),
{
    let end = digit_run(text, from);
    let digits = text.subrange(from, end);
    lemma_digit_run_ends(text, from);
    lemma_canonical_is_decimal_text(digits);
    assert(text.subrange(from, end + 1) =~= digits.push(separator));
}

/// The shortest numeral of an octet, followed by a separator that is no
/// digit, is read back as that octet.
proof fn lemma_octet_text_scans(text: Seq<u8>, from: int, octet: u8, separator: u8)
    requires
        0 <= from,
        from + decimal_text(octet as nat).len() + 1 <= text.len(),
        text.subrange(from, from + decimal_text(octet as nat).len() + 1) == decimal_text(
            octet as nat,
        ).push(separator),
        !is_digit(separator),
    ensures
        scan_octet(text, from, separator) == Some(
            (octet, from + decimal_text(octet as nat).len() + 1),
        ),
{
    let numeral = decimal_text(octet as nat);
    let end = from + numeral.len();
    let written = text.subrange(from, end + 1);
    lemma_decimal_text_denotes(octet as nat);
    assert(text.subrange(from, end) =~= numeral) by {
        assert forall|i: int| 0 <= i < numeral.len() implies text.subrange(from, end)[i]
            == numeral[i] by {
            assert(written[i] == text[from + i]);
        }
    }
    assert(text[end] == separator) by {
        assert(written[numeral.len() as int] == text[end]);
    }
    lemma_digit_run_is(text, from, end);
}

/// Reading gives an address only for a text of that address.
proof fn lemma_scan_is_sound(text: Seq<u8>)
    requires
        scan_address(text) is Some,
    ensures
        is_address_text(text, scan_address(text)->0),
{
    let (a, after_a) = scan_octet(text, 0, DOT)->0;
    lemma_scanned_octet_text(text, 0, DOT);
    let (b, after_b) = scan_octet(text, after_a, DOT)->0;
    lemma_scanned_octet_text(text, after_a, DOT);
    let (c, after_c) = scan_octet(text, after_b, DOT)->0;
    lemma_scanned_octet_text(text, after_b, DOT);
    let (d, after_d) = scan_octet(text, after_c, COLON)->0;
    lemma_scanned_octet_text(text, after_c, COLON);
    let ip = Ipv4Address(a, b, c, d);
    assert(text.subrange(0, after_d) =~= text.subrange(0, after_a) + text.subrange(
        after_a,
        after_b,
    ) + text.subrange(after_b, after_c) + text.subrange(after_c, after_d));
    assert(head_text(ip) == text.subrange(0, after_d));
    lemma_digit_run_ends(text, after_d);
}

/// Every text of an address is read as that address.
proof fn lemma_scan_is_complete(text: Seq<u8>, address: PeerAddress)
    requires
        is_address_text(text, address),
    ensures
        scan_address(text) == Some(address),
{
    let ip = address.ip;
    let head = head_text(ip);
    let a = decimal_text(ip.0 as nat).push(DOT);
    let b = decimal_text(ip.1 as nat).push(DOT);
    let c = decimal_text(ip.2 as nat).push(DOT);
    let d = decimal_text(ip.3 as nat).push(COLON);
    let after_a = a.len() as int;
    let after_b = after_a + b.len();
    let after_c = after_b + c.len();
    let after_d = after_c + d.len();
    assert(head == a + b + c + d);
    assert(head.len() == after_d);
    assert forall|i: int| 0 <= i < after_d implies text[i] == head[i] by {
        assert(text.subrange(0, after_d)[i] == text[i]);
    }
    assert(text.subrange(0, after_a) =~= a);
    assert(text.subrange(after_a, after_b) =~= b);
    assert(text.subrange(after_b, after_c) =~= c);
    assert(text.subrange(after_c, after_d) =~= d);
    lemma_octet_text_scans(text, 0, ip.0, DOT);
    lemma_octet_text_scans(text, after_a, ip.1, DOT);
    lemma_octet_text_scans(text, after_b, ip.2, DOT);
    lemma_octet_text_scans(text, after_c, ip.3, COLON);
    lemma_digit_run_is(text, after_d, text.len() as int);
}

/// A text is read as at most one address.
pub proof fn lemma_address_text_is_unambiguous(
    text: Seq<u8>,
    first: PeerAddress,
    second: PeerAddress,
)
    requires
        is_address_text(text, first),
        is_address_text(text, second),
    ensures
        first == second,
{
    lemma_scan_is_complete(text, first);
    lemma_scan_is_complete(text, second);
}

/// The text that is written for an address is read as that address.
pub proof fn lemma_address_text_round_trip(address: PeerAddress)
    ensures
        is_address_text(address_text(address), address),
        address_text(address).len() > 0,
{
    let head = head_text(address.ip);
    let port = decimal_text(address.port as nat);
    let text = address_text(address);
    lemma_decimal_text_denotes(address.port as nat);
    assert(text.subrange(0, head.len() as int) =~= head);
    assert(text.subrange(head.len() as int, text.len() as int) =~= port);
}

/// Reads one octet and the separator behind it.
fn read_octet(text: &[u8], from: usize, separator: u8) -> (result: Option<(u8, usize)>)
    requires
        from <= text@.len(),
    ensures
        match result {
            Some((octet, after)) => scan_octet(text@, from as int, separator) == Some(
                (octet, after as int),
            ),
            None => scan_octet(text@, from as int, separator) is None,
        },
{
    let (end, value) = read_number(text, from, 255);
    proof {
        lemma_digit_run_ends(text@, from as int);
    }
    if end == from || end >= text.len() || text[end] != separator {
        return None;
    }
    if text[from] == DIGIT_ZERO && end - from > 1 {
        return None;
    }
    proof {
        assert(text@.subrange(from as int, end as int)[0] == text@[from as int]);
    }
    match value {
        Some(octet) => Some((octet as u8, end + 1)),
        None => None,
    }
}

impl PeerAddress {
    /// Writes the address as `a.b.c.d:port`.
    pub fn to_bytes(&self) -> (text: Vec<u8>)
        ensures
            text@ == address_text(*self),
    {
        let mut text: Vec<u8> = Vec::new();
        write_number(&mut text, self.ip.0 as u16);
        text.push(DOT);
        write_number(&mut text, self.ip.1 as u16);
        text.push(DOT);
        write_number(&mut text, self.ip.2 as u16);
        text.push(DOT);
        write_number(&mut text, self.ip.3 as u16);
        text.push(COLON);
        write_number(&mut text, self.port);
        proof {
            assert(text@ =~= address_text(*self));
        }
        text
    }

    /// Reads an address written as `a.b.c.d:port`. Each octet must be in its
    /// shortest form; the port may have leading zeros. Any other text is
    /// refused with [`Error::ProtocolError`].
    pub fn parse(text: &[u8]) -> (result: Result<PeerAddress, Error>)
        ensures
            match result {
                Ok(address) => is_address_text(text@, address),
                Err(error) => error == Error::ProtocolError && forall|address: PeerAddress|
                    !is_address_text(text@, address),
            },
    {
        proof {
            if scan_address(text@) is Some {
                lemma_scan_is_sound(text@);
            }
            assert forall|address: PeerAddress| #[trigger]
                is_address_text(text@, address) implies scan_address(text@) == Some(address) by {
                lemma_scan_is_complete(text@, address);
            }
        }
        let (a, after_a) = match read_octet(text, 0, DOT) {
            Some(read) => read,
            None => { return Err(Error::ProtocolError); },
        };
        let (b, after_b) = match read_octet(text, after_a, DOT) {
            Some(read) => read,
            None => { return Err(Error::ProtocolError); },
        };
        let (c, after_c) = match read_octet(text, after_b, DOT) {
            Some(read) => read,
            None => { return Err(Error::ProtocolError); },
        };
        let (d, after_d) = match read_octet(text, after_c, COLON) {
            Some(read) => read,
            None => { return Err(Error::ProtocolError); },
        };
        let (end, value) = read_number(text, after_d, 0xffff);
        if end == after_d || end < text.len() {
            return Err(Error::ProtocolError);
        }
        match value {
            Some(port) => Ok(PeerAddress { ip: Ipv4Address(a, b, c, d), port: port as u16 }),
            None => Err(Error::ProtocolError),
        }
    }
}

} // verus!
