//! Building complete IPv4 and TCP packets.
use vstd::prelude::*;

use crate::addr::Ipv4Addr;
use crate::ip;
use crate::tcp::header::{TcpHeader, ACK, FIN, RST, SYN};
use crate::utils::{push_all, push_be16, push_be32};

verus! {

/// An endpoint: an address and a port.
pub type Endpoint = (Ipv4Addr, u16);

/// The IPv4 header of a TCP packet of `total_len` bytes.
pub open spec fn ip_header(src: Ipv4Addr, dst: Ipv4Addr, total_len: int) -> Seq<u8> {
    crate::utils::with_checksum(ip_fields(src, dst, total_len), 10)
}

/// That header's fields, the checksum still zero: version 4 and five words, do not fragment, TTL
/// 64, protocol 6.
pub open spec fn ip_fields(src: Ipv4Addr, dst: Ipv4Addr, total_len: int) -> Seq<u8> {
    seq![0x45u8, 0u8] + crate::utils::be16_bytes(total_len as u16) + seq![
        0u8,
        0u8,
        0x40u8,
        0u8,
        64u8,
        6u8,
        0u8,
        0u8,
    ] + crate::addr::addr_bytes(src) + crate::addr::addr_bytes(dst)
}

/// A TCP segment's bytes, the checksum still zero.
pub open spec fn tcp_fields(
    src_port: u16,
    dst_port: u16,
    seq: u32,
    ack: u32,
    flags: u8,
    window: u16,
    options: Seq<u8>,
    payload: Seq<u8>,
) -> Seq<u8> {
    crate::utils::be16_bytes(src_port) + crate::utils::be16_bytes(dst_port)
        + crate::utils::be32_bytes(seq) + crate::utils::be32_bytes(ack) + seq![
        ((20 + options.len()) / 4 * 16) as u8,
        flags,
    ] + crate::utils::be16_bytes(window) + seq![0u8, 0u8, 0u8, 0u8] + options + payload
}

/// A complete packet: an IPv4 header and a TCP segment with its checksum.
#[verifier::opaque]
pub open spec fn packet_bytes(
    src: Endpoint,
    dst: Endpoint,
    seq: u32,
    ack: u32,
    flags: u8,
    window: u16,
    options: Seq<u8>,
    payload: Seq<u8>,
) -> Seq<u8> {
    ip_header(src.0, dst.0, (40 + options.len() + payload.len()) as int) + ip::with_transport_checksum(
        src.0,
        dst.0,
        6,
        tcp_fields(src.1, dst.1, seq, ack, flags, window, options, payload),
        16,
    )
}

/// Options that fit a header: whole words, at most forty bytes.
pub open spec fn options_fit(options: Seq<u8>) -> bool {
    options.len() % 4 == 0 && options.len() <= 40
}

/// TCP checksum: the Internet checksum over the pseudo-header (protocol 6) and the segment, whose
/// own checksum field is zero while it is computed.
pub fn tcp_checksum(src: Ipv4Addr, dst: Ipv4Addr, segment: &[u8]) -> (c: u16)
    ensures
        c == ip::transport_checksum(src, dst, 6, segment@),
{
    ip::checksum_with_addresses(src, dst, 6, segment)
}

/// Build a complete IPv4 and TCP packet. `options` is padded to whole words.
pub fn build_packet(
    src: Endpoint,
    dst: Endpoint,
    seq: u32,
    ack: u32,
    flags: u8,
    window: u16,
    options: &[u8],
    payload: &[u8],
) -> (packet: Vec<u8>)
    requires
        options_fit(options@),
        40 + options@.len() + payload@.len() <= 0xffff,
    ensures
        packet@ == packet_bytes(src, dst, seq, ack, flags, window, options@, payload@),
{
    let total_len: usize = 40 + options.len() + payload.len();
    let mut pkt: Vec<u8> = Vec::with_capacity(total_len);
    pkt.push(0x45);
    pkt.push(0);
    push_be16(&mut pkt, total_len as u16);
    pkt.push(0);
    pkt.push(0);
    pkt.push(0x40);
    pkt.push(0);
    pkt.push(64);
    pkt.push(6);
    pkt.push(0);
    pkt.push(0);
    push_all(&mut pkt, src.0.octets().as_slice());
    push_all(&mut pkt, dst.0.octets().as_slice());
    assert(pkt@ =~= ip_fields(src.0, dst.0, total_len as int));
    ip::write_header_checksum(pkt.as_mut_slice());

    let mut seg: Vec<u8> = Vec::with_capacity(20 + options.len() + payload.len());
    push_be16(&mut seg, src.1);
    push_be16(&mut seg, dst.1);
    push_be32(&mut seg, seq);
    push_be32(&mut seg, ack);
    seg.push(((20 + options.len()) / 4 * 16) as u8);
    seg.push(flags);
    push_be16(&mut seg, window);
    seg.push(0);
    seg.push(0);
    seg.push(0);
    seg.push(0);
    push_all(&mut seg, options);
    push_all(&mut seg, payload);
    let ghost fields = tcp_fields(src.1, dst.1, seq, ack, flags, window, options@, payload@);
    assert(seg@ =~= fields);
    let csum: u16 = tcp_checksum(src.0, dst.0, seg.as_slice());
    seg.set(16, (csum / 256) as u8);
    seg.set(17, (csum % 256) as u8);
    proof {
        reveal(packet_bytes);
        assert(crate::utils::with_field(fields, 16, 0) =~= fields);
        assert(seg@ =~= crate::utils::with_field(fields, 16, csum));
    }
    push_all(&mut pkt, seg.as_slice());
    pkt
}

/// The sequence numbers a segment occupies: its data, and one each for SYN and FIN.
pub open spec fn segment_len(th: TcpHeader, payload_len: int) -> int {
    payload_len + (if th.flags & SYN != 0 {
        1int
    } else {
        0
    }) + (if th.flags & FIN != 0 {
        1int
    } else {
        0
    })
}

/// The reset for a segment that arrived for no connection (RFC 9293 section 3.10.7.1): if the
/// segment carries an ACK, a bare RST at the acknowledged number; else a RST with an ACK of
/// everything the segment occupies. It goes back to where the segment came from.
pub open spec fn rst_bytes(
    ip_src: Ipv4Addr,
    ip_dst: Ipv4Addr,
    th: TcpHeader,
    payload_len: int,
) -> Seq<u8> {
    let us = (ip_dst, th.dst_port);
    let peer = (ip_src, th.src_port);
    if th.flags & ACK != 0 {
        packet_bytes(us, peer, th.ack, 0, RST, 0, Seq::empty(), Seq::empty())
    } else {
        packet_bytes(
            us,
            peer,
            0,
            crate::seq::advance(th.seq, segment_len(th, payload_len)),
            RST | ACK,
            0,
            Seq::empty(),
            Seq::empty(),
        )
    }
}

/// Build a RST for a segment that arrived for a closed or unknown connection: it tells the peer to
/// stop retrying.
pub fn build_rst(ip_src: Ipv4Addr, ip_dst: Ipv4Addr, th: &TcpHeader, payload_len: usize) -> (packet:
    Vec<u8>)
    ensures
        packet@ == rst_bytes(ip_src, ip_dst, *th, payload_len as int),
{
    let us: Endpoint = (ip_dst, th.dst_port);
    let peer: Endpoint = (ip_src, th.src_port);
    let none: [u8; 0] = [];
    assert(none@ =~= Seq::<u8>::empty());
    if th.flags & ACK != 0 {
        build_packet(us, peer, th.ack, 0, RST, 0, none.as_slice(), none.as_slice())
    } else {
        let mut ack: u32 = crate::seq::advance_by(th.seq, payload_len);
        if th.flags & SYN != 0 {
            ack = ack.wrapping_add(1);
        }
        if th.flags & FIN != 0 {
            ack = ack.wrapping_add(1);
        }
        build_packet(us, peer, 0, ack, RST | ACK, 0, none.as_slice(), none.as_slice())
    }
}

} // verus!
