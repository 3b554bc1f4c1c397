//! ICMP echo.
use tcp_stack::icmp::{build_echo_reply, name, parse};
use tcp_stack::utils;

/// A real IPv4 + ICMP echo request, padded to 84 bytes like a Linux ping.
fn ping_packet() -> Vec<u8> {
    let mut p = vec![
        0x45, 0x00, 0x00, 0x54, 0xab, 0xcd, 0x40, 0x00, 0x40, 0x01, 0xe2, 0x3f, 0xc0, 0xa8,
        0x00, 0x01, 0xc0, 0xa8, 0x00, 0x02, // IP header
        0x08, 0x00, 0x3f, 0x2a, 0x12, 0x34, 0x00, 0x01, // ICMP echo request
    ];
    p.resize(84, 0);
    p
}

#[test]
fn parses_echo_request() {
    let pkt = ping_packet();
    let icmp = parse(&pkt[20..]).expect("valid ICMP");
    assert_eq!(icmp.typ, 8);
    assert_eq!(icmp.id, 0x1234);
    assert_eq!(icmp.seq, 1);
}

#[test]
fn reply_is_well_formed() {
    let req = ping_packet();
    let reply = build_echo_reply(&req, 20).expect("a reply");

    // Same length (data echoed), type flipped to 0.
    assert_eq!(reply.len(), req.len());
    assert_eq!(reply[20], 0); // ICMP type 0 = echo reply

    // Source/dest swapped: reply src = request dst (192.168.0.2) and vice versa.
    assert_eq!(&reply[12..16], &[192, 168, 0, 2]);
    assert_eq!(&reply[16..20], &[192, 168, 0, 1]);

    // Both checksums must now be VALID — i.e. each region sums to 0.
    assert_eq!(utils::checksum(&reply[..20]), 0, "IP header checksum invalid");
    assert_eq!(utils::checksum(&reply[20..]), 0, "ICMP checksum invalid");

    // The echoed data payload is unchanged.
    assert_eq!(&reply[28..], &req[28..]);
}

#[test]
fn ignores_non_echo_request() {
    let mut req = ping_packet();
    req[20] = 0; // make it an echo *reply*, not a request
    assert!(build_echo_reply(&req, 20).is_none());
}

#[test]
fn message_kinds_have_names() {
    assert_eq!(name(8, 0), "Echo Request (ping)");
    assert_eq!(name(0, 0), "Echo Reply (pong)");
    assert_eq!(name(3, 1), "Host Unreachable");
    assert_eq!(name(11, 0), "Time Exceeded (TTL=0)");
    assert_eq!(name(42, 7), "other");
}

#[test]
fn short_messages_are_not_answered() {
    assert!(parse(&[8, 0, 0]).is_none());
    assert!(build_echo_reply(&[0x45; 24], 20).is_none());
    assert!(build_echo_reply(&ping_packet(), 4).is_none());
}
