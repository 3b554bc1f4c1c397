//! IPv4 layer (RFC 791): header parsing and the header checksum.
use etherparse::Ipv4HeaderSlice;
use vstd::prelude::*;

use crate::addr::Ipv4Addr;
use crate::utils::{checksum, push_all, push_be16, read_be16};

verus! {

/// The fields of an IPv4 header that the stack uses.
#[derive(Debug, Clone, Copy, PartialEq, Eq, Structural)]
pub struct Ipv4Header {
    pub version: u8,
    /// Header length in bytes (four times the IHL field). The payload starts here.
    pub header_len: usize,
    /// Total datagram length, header and payload, as declared on the wire.
    pub total_len: usize,
    pub ttl: u8,
    /// 1 = ICMP, 6 = TCP, 17 = UDP.
    pub protocol: u8,
    pub src: Ipv4Addr,
    pub dst: Ipv4Addr,
}

/// Why a datagram was rejected. Packet bytes are hostile input: they are refused, never trusted.
#[derive(Debug, Clone, Copy, PartialEq, Eq, Structural)]
pub enum ParseError {
    TooShort { have: usize, need: usize },
    NotIpv4 { version: u8 },
    HeaderLongerThanPacket { header_len: usize, have: usize },
    /// The declared total length is smaller than the header itself.
    BadTotalLength { total_len: usize, header_len: usize },
}

/// The address whose octets stand at `i`.
pub open spec fn addr_at(packet: Seq<u8>, i: int) -> Ipv4Addr {
    Ipv4Addr { a: packet[i], b: packet[i + 1], c: packet[i + 2], d: packet[i + 3] }
}

/// What parsing `packet` yields: the checks in the order in which they are made, then the fields.
pub open spec fn parsed(packet: Seq<u8>) -> Result<Ipv4Header, ParseError> {
    let have = packet.len() as usize;
    let version = packet[0] / 16;
    let header_len = (packet[0] % 16 * 4) as usize;
    let total_len = crate::utils::be16_at(packet, 2) as usize;
    if have < 20 {
        Err(ParseError::TooShort { have, need: 20 })
    } else if version != 4 {
        Err(ParseError::NotIpv4 { version })
    } else if have < header_len {
        Err(ParseError::HeaderLongerThanPacket { header_len, have })
    } else if total_len < header_len {
        Err(ParseError::BadTotalLength { total_len, header_len })
    } else {
        Ok(
            Ipv4Header {
                version,
                header_len,
                total_len,
                ttl: packet[8],
                protocol: packet[9],
                src: addr_at(packet, 12),
                dst: addr_at(packet, 16),
            },
        )
    }
}

/// Parse an IPv4 header from the front of `packet`.
pub fn parse(packet: &[u8]) -> (r: Result<Ipv4Header, ParseError>)
    ensures
        r == parsed(packet@),
{
    if packet.len() < 20 {
        return Err(ParseError::TooShort { have: packet.len(), need: 20 });
    }
    let version: u8 = packet[0] / 16;
    if version != 4 {
        return Err(ParseError::NotIpv4 { version });
    }
    let header_len: usize = (packet[0] % 16 * 4) as usize;
    if packet.len() < header_len {
        return Err(ParseError::HeaderLongerThanPacket { header_len, have: packet.len() });
    }
    let total_len: usize = read_be16(packet, 2) as usize;
    if total_len < header_len {
        return Err(ParseError::BadTotalLength { total_len, header_len });
    }
    Ok(
        Ipv4Header {
            version,
            header_len,
            total_len,
            ttl: packet[8],
            protocol: packet[9],
            src: Ipv4Addr::new(packet[12], packet[13], packet[14], packet[15]),
            dst: Ipv4Addr::new(packet[16], packet[17], packet[18], packet[19]),
        },
    )
}

/// The name of a transport protocol.
pub open spec fn protocol_text(protocol: u8) -> Seq<char> {
    if protocol == 1 {
        "ICMP"@
    } else if protocol == 6 {
        "TCP"@
    } else if protocol == 17 {
        "UDP"@
    } else {
        "unknown"@
    }
}

/// A readable name for a transport protocol.
pub fn protocol_name(protocol: u8) -> (s: &'static str)
    ensures
        s@ == protocol_text(protocol),
{
    if protocol == 1 {
        "ICMP"
    } else if protocol == 6 {
        "TCP"
    } else if protocol == 17 {
        "UDP"
    } else {
        "unknown"
    }
}

/// Recompute the header checksum (bytes 10 and 11) over `header`, which is exactly the IP header.
/// The field counts as zero while the sum is taken; the result is stored big-endian.
pub fn write_header_checksum(header: &mut [u8])
    requires
        old(header)@.len() >= 12,
    ensures
        final(header)@ == crate::utils::with_checksum(old(header)@, 10),
{
    header[10] = 0;
    header[11] = 0;
    let c: u16 = checksum(header);
    header[10] = (c / 256) as u8;
    header[11] = (c % 256) as u8;
    assert(header@ =~= crate::utils::with_checksum(old(header)@, 10));
}

/// The 12 bytes of IP fields that a transport checksum covers besides the segment (the
/// pseudo-header): addresses, a zero byte, the protocol and the segment's length.
pub open spec fn pseudo_header(src: Ipv4Addr, dst: Ipv4Addr, protocol: u8, len: int) -> Seq<u8> {
    crate::addr::addr_bytes(src) + crate::addr::addr_bytes(dst) + seq![0u8, protocol]
        + crate::utils::be16_bytes((len % 0x1_0000) as u16)
}

/// The Internet checksum of a pseudo-header followed by the segment.
pub open spec fn transport_checksum(
    src: Ipv4Addr,
    dst: Ipv4Addr,
    protocol: u8,
    segment: Seq<u8>,
) -> u16 {
    crate::utils::internet_checksum(
        pseudo_header(src, dst, protocol, segment.len() as int) + segment,
    )
}

/// Checksum of a transport segment over its pseudo-header. It ties the segment to the addresses,
/// so a misdelivered one is detected; the pseudo-header itself is never sent.
pub fn checksum_with_addresses(src: Ipv4Addr, dst: Ipv4Addr, protocol: u8, segment: &[u8]) -> (c:
    u16)
    ensures
        c == transport_checksum(src, dst, protocol, segment@),
{
    let mut buf: Vec<u8> = Vec::new();
    push_all(&mut buf, src.octets().as_slice());
    push_all(&mut buf, dst.octets().as_slice());
    buf.push(0);
    buf.push(protocol);
    push_be16(&mut buf, (segment.len() % 0x1_0000) as u16);
    assert(buf@ =~= pseudo_header(src, dst, protocol, segment@.len() as int));
    push_all(&mut buf, segment);
    checksum(buf.as_slice())
}

/// A segment with its checksum over the pseudo-header written into the field at `at`.
pub open spec fn with_transport_checksum(
    src: Ipv4Addr,
    dst: Ipv4Addr,
    protocol: u8,
    segment: Seq<u8>,
    at: int,
) -> Seq<u8> {
    crate::utils::with_field(
        segment,
        at,
        transport_checksum(src, dst, protocol, crate::utils::with_field(segment, at, 0)),
    )
}

/// A transport segment whose checksum has been written verifies: over the same addresses, the
/// checksum of the whole is 0.
pub proof fn law_transport_checksum_verifies(
    src: Ipv4Addr,
    dst: Ipv4Addr,
    protocol: u8,
    segment: Seq<u8>,
    at: int,
)
    requires
        0 <= at,
        at + 2 <= segment.len(),
        at % 2 == 0,
    ensures
        transport_checksum(
            src,
            dst,
            protocol,
            with_transport_checksum(src, dst, protocol, segment, at),
        ) == 0,
{
    let pseudo = pseudo_header(src, dst, protocol, segment.len() as int);
    let whole = pseudo + segment;
    crate::utils::law_written_checksum_verifies(whole, 12 + at);
    assert(crate::utils::with_field(whole, 12 + at, 0) =~= pseudo + crate::utils::with_field(
        segment,
        at,
        0,
    ));
    assert(crate::utils::with_checksum(whole, 12 + at) =~= pseudo + with_transport_checksum(
        src,
        dst,
        protocol,
        segment,
        at,
    ));
}

/// The header checksum that is written is the one that verifies: any header of at least twelve
/// bytes passes `verify_checksum` after `write_header_checksum`.
pub proof fn law_written_header_verifies(header: Seq<u8>)
    requires
        header.len() >= 12,
    ensures
        crate::utils::internet_checksum(crate::utils::with_checksum(header, 10)) == 0,
{
    crate::utils::law_written_checksum_verifies(header, 10);
}

/// True if the header's stored checksum is valid: a correct header sums to zero.
pub fn verify_checksum(header: &[u8]) -> (ok: bool)
    ensures
        ok == (crate::utils::internet_checksum(header@) == 0),
{
    checksum(header) == 0
}

/// Another parser takes `packet` for an IPv4 datagram: version 4, at least five words of header,
/// and all of them there.
pub open spec fn has_whole_header(packet: Seq<u8>) -> bool {
    packet.len() >= 20 && packet[0] / 16 == 4 && packet[0] % 16 >= 5 && packet.len() >= packet[0]
        % 16 * 4
}

/// Source, destination and protocol as `etherparse::Ipv4HeaderSlice` reads them, or none if
/// `from_slice` refuses the bytes. It accepts exactly those that begin with version 4, a header
/// length of at least five words, and that whole header; the accessors return bytes 12 to 15,
/// bytes 16 to 19 and byte 9. It does not look at the total length.
#[verifier::external_body]
fn etherparse_fields(packet: &[u8]) -> (r: Option<([u8; 4], [u8; 4], u8)>)
    ensures
        match r {
            Some(f) => {
                &&& has_whole_header(packet@)
                &&& f.0@ == packet@.subrange(12, 16)
                &&& f.1@ == packet@.subrange(16, 20)
                &&& f.2 == packet@[9]
            },
            None => !has_whole_header(packet@),
        },
{
    match Ipv4HeaderSlice::from_slice(packet) {
        Ok(h) => Some((h.source(), h.destination(), h.protocol().0)),
        Err(_) => None,
    }
}

/// A header agrees with what another parser reads from `packet`: the same addresses and protocol.
/// Where that parser reads nothing there is nothing to disagree with.
pub open spec fn agrees(h: Ipv4Header, packet: Seq<u8>) -> bool {
    has_whole_header(packet) ==> crate::addr::addr_bytes(h.src) == packet.subrange(12, 16)
        && crate::addr::addr_bytes(h.dst) == packet.subrange(16, 20) && h.protocol == packet[9]
}

/// Four octets are the same.
fn same_octets(a: [u8; 4], b: [u8; 4]) -> (r: bool)
    ensures
        r == (a@ == b@),
{
    let r: bool = a[0] == b[0] && a[1] == b[1] && a[2] == b[2] && a[3] == b[3];
    assert(r ==> a@ =~= b@);
    r
}

/// Cross-check a parsed header against an independent parser. A mismatch would mean that one of
/// the two misreads the packet.
pub fn cross_check(h: &Ipv4Header, packet: &[u8]) -> (ok: bool)
    ensures
        ok == agrees(*h, packet@),
{
    match etherparse_fields(packet) {
        Some((src, dst, protocol)) => same_octets(h.src.octets(), src) && same_octets(
            h.dst.octets(),
            dst,
        ) && h.protocol == protocol,
        None => true,
    }
}

/// The cross-check never fails on a header that `parse` returned for the same packet.
pub proof fn law_parse_agrees_with_another_parser(packet: Seq<u8>)
    requires
        parsed(packet) is Ok,
    ensures
        agrees(parsed(packet)->Ok_0, packet),
{
    let h = parsed(packet)->Ok_0;
    assert(crate::addr::addr_bytes(h.src) =~= packet.subrange(12, 16));
    assert(crate::addr::addr_bytes(h.dst) =~= packet.subrange(16, 20));
}

} // verus!
