//! IPv4 headers.
use etherparse::Ipv4HeaderSlice;
use tcp_stack::addr::Ipv4Addr;
use tcp_stack::ip::{
    cross_check, parse, protocol_name, verify_checksum, write_header_checksum, ParseError,
};
use tcp_stack::utils::checksum;

/// 20-byte IPv4 header of a real ping here without payload.
const PING_HDR: [u8; 20] = [
    0x45, 0x00, 0x00, 0x54, 0xab, 0xcd, 0x40, 0x00, 0x40, 0x01, 0xe2, 0x3f, 0xc0, 0xa8,
    0x00, 0x01, 0xc0, 0xa8, 0x00, 0x02,
];

#[test]
fn parses_fields() {
    let h = parse(&PING_HDR).expect("valid IPv4");
    assert_eq!(h.version, 4);
    assert_eq!(h.header_len, 20);
    assert_eq!(h.total_len, 84);
    assert_eq!(h.ttl, 64);
    assert_eq!(h.protocol, 1);
    assert_eq!(h.src, Ipv4Addr::new(192, 168, 0, 1));
    assert_eq!(h.dst, Ipv4Addr::new(192, 168, 0, 2));
}

#[test]
fn ip_rejects_too_short() {
    assert_eq!(parse(&[0x45, 0x00]), Err(ParseError::TooShort { have: 2, need: 20 }));
}

#[test]
fn rejects_non_ipv4() {
    let mut p = PING_HDR;
    p[0] = 0x60;
    assert!(matches!(parse(&p), Err(ParseError::NotIpv4 { version: 6 })));
}

#[test]
fn rejects_total_length_below_header() {
    let mut p = PING_HDR;
    p[2] = 0;
    p[3] = 10; // total_len = 10 < 20-byte header → malformed
    assert!(matches!(parse(&p), Err(ParseError::BadTotalLength { .. })));
}

#[test]
fn agrees_with_etherparse() {
    let ours = parse(&PING_HDR).unwrap();
    let ep = Ipv4HeaderSlice::from_slice(&PING_HDR).unwrap();
    assert_eq!(ep.source(), ours.src.octets());
    assert_eq!(ep.destination(), ours.dst.octets());
    assert_eq!(ep.protocol().0, ours.protocol);
}

#[test]
fn checksum_round_trips() {
    // Writing the checksum then verifying the header must sum to 0.
    let mut h = PING_HDR;
    write_header_checksum(&mut h);
    assert_eq!(checksum(&h), 0);
}

#[test]
fn verify_checksum_detects_corruption() {
    let mut h = PING_HDR;
    write_header_checksum(&mut h);
    assert!(verify_checksum(&h)); // a freshly-checksummed header is valid
    h[12] ^= 0xff; // corrupt the source address
    assert!(!verify_checksum(&h)); // now it must fail
}

#[test]
fn every_rejection_says_why() {
    let mut p = PING_HDR;
    p[0] = 0x46; // six words, but only twenty bytes are there
    assert_eq!(parse(&p), Err(ParseError::HeaderLongerThanPacket { header_len: 24, have: 20 }));
    let mut p = PING_HDR;
    p[2] = 0;
    p[3] = 10;
    assert_eq!(parse(&p), Err(ParseError::BadTotalLength { total_len: 10, header_len: 20 }));
    let mut p = PING_HDR;
    p[0] = 0x60;
    assert_eq!(parse(&p), Err(ParseError::NotIpv4 { version: 6 }));
    assert_eq!(parse(&[]), Err(ParseError::TooShort { have: 0, need: 20 }));
}

#[test]
fn addresses_as_numbers() {
    assert_eq!(Ipv4Addr::new(192, 168, 0, 1).to_bits(), 0xc0a8_0001);
}

#[test]
fn the_cross_check_notices_a_wrong_reading() {
    let h = parse(&PING_HDR).unwrap();
    assert!(cross_check(&h, &PING_HDR));
    let mut swapped = h;
    swapped.src = h.dst;
    assert!(!cross_check(&swapped, &PING_HDR));
    let mut other = h;
    other.protocol = 6;
    assert!(!cross_check(&other, &PING_HDR));
    // A header too short for the other parser leaves nothing to compare.
    let mut short = PING_HDR;
    short[0] = 0x44;
    assert!(cross_check(&swapped, &short));
    assert!(cross_check(&swapped, &PING_HDR[..10]));
}

#[test]
fn protocols_have_names() {
    assert_eq!(protocol_name(1), "ICMP");
    assert_eq!(protocol_name(6), "TCP");
    assert_eq!(protocol_name(17), "UDP");
    assert_eq!(protocol_name(89), "unknown");
}
