//! UDP.
use tcp_stack::addr::Ipv4Addr;
use tcp_stack::udp::{build_echo_reply, checksum, parse};
use tcp_stack::utils;

const ME: Ipv4Addr = Ipv4Addr { a: 192, b: 168, c: 0, d: 2 };
const PEER: Ipv4Addr = Ipv4Addr { a: 192, b: 168, c: 0, d: 1 };

/// An 8-byte UDP header: sport 7, dport 0x1234, length 8, checksum field zeroed.
fn udp_seg() -> [u8; 8] {
    [0x00, 0x07, 0x12, 0x34, 0x00, 0x08, 0x00, 0x00]
}

#[test]
fn parses_header() {
    let h = parse(&udp_seg()).unwrap();
    assert_eq!(h.src_port, 7);
    assert_eq!(h.dst_port, 0x1234);
    assert_eq!(h.length, 8);
}

#[test]
fn udp_rejects_too_short() {
    assert!(parse(&[0, 0, 0]).is_none());
}

/// Compute the checksum, store it, then re-checksum (incl. the field) → must be 0.
/// This exercises the pseudo-header path and the verify-to-zero property together.
#[test]
fn checksum_verifies_to_zero() {
    let mut seg = udp_seg();
    let c = checksum(ME, PEER, &seg);
    seg[6..8].copy_from_slice(&c.to_be_bytes());
    assert_eq!(checksum(ME, PEER, &seg), 0);
}

/// A full IPv4 + UDP packet (192.168.0.1:0x1234 → 192.168.0.2:7) carrying "hi".
fn udp_packet() -> Vec<u8> {
    vec![
        // IPv4 header (20 bytes): proto 17, total length 30 (20 + 8 + 2)
        0x45, 0x00, 0x00, 0x1e, 0x00, 0x00, 0x40, 0x00, 0x40, 0x11, 0x00, 0x00, 0xc0, 0xa8,
        0x00, 0x01, 0xc0, 0xa8, 0x00, 0x02,
        // UDP header (8 bytes): sport 0x1234, dport 7, len 10, checksum 0
        0x12, 0x34, 0x00, 0x07, 0x00, 0x0a, 0x00, 0x00, // + data:
        0x68, 0x69, // "hi"
    ]
}

#[test]
fn echo_reply_is_well_formed() {
    let req = udp_packet();
    let reply = build_echo_reply(&req, 20).expect("a reply");

    // IP addresses swapped, valid header checksum.
    assert_eq!(&reply[12..16], &[192, 168, 0, 2]); // src = us
    assert_eq!(&reply[16..20], &[192, 168, 0, 1]); // dst = peer
    assert_eq!(utils::checksum(&reply[..20]), 0, "IP checksum invalid");

    // UDP ports swapped: reply sport = request dport (7), dport = request sport (0x1234).
    assert_eq!(&reply[20..22], &[0x00, 0x07]);
    assert_eq!(&reply[22..24], &[0x12, 0x34]);

    // UDP checksum (with the new addresses' pseudo-header) verifies to 0.
    assert_eq!(checksum(ME, PEER, &reply[20..]), 0, "UDP checksum invalid");

    // The data payload is echoed unchanged.
    assert_eq!(&reply[28..], &[0x68, 0x69]);
}

#[test]
fn echo_rejects_too_short() {
    // IP header but no full UDP header.
    assert!(build_echo_reply(&[0u8; 24], 20).is_none());
}

#[test]
fn echo_of_odd_length_verifies() {
    let mut req = udp_packet();
    req.push(0x21);
    req[3] = 0x1f;
    req[25] = 0x0b;
    let reply = build_echo_reply(&req, 20).expect("a reply");
    assert_eq!(&reply[28..], b"hi!");
    assert_eq!(checksum(ME, PEER, &reply[20..]), 0);
    assert_eq!(utils::checksum(&reply[..20]), 0);
    assert_eq!(reply[8], 64);
}

#[test]
fn checksum_covers_the_addresses() {
    let seg = udp_seg();
    let other = Ipv4Addr::new(192, 168, 0, 3);
    assert_ne!(checksum(ME, PEER, &seg), checksum(ME, other, &seg));
}

#[test]
fn echoing_a_reply_turns_it_back() {
    let req = udp_packet();
    let first = build_echo_reply(&req, 20).unwrap();
    let second = build_echo_reply(&first, 20).unwrap();
    let mut back = first.clone();
    back[12..16].copy_from_slice(&first[16..20]);
    back[16..20].copy_from_slice(&first[12..16]);
    back[20..22].copy_from_slice(&first[22..24]);
    back[22..24].copy_from_slice(&first[20..22]);
    assert_eq!(second, back);
    assert_eq!(build_echo_reply(&second, 20).unwrap(), first);
    assert_eq!(first[8], 64);
    assert_eq!(&first[28..], &req[28..]);
}
