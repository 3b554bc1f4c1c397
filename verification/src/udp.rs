//! UDP layer (RFC 768): parsing, the pseudo-header checksum, and the echo.
use vstd::prelude::*;

use crate::addr::Ipv4Addr;
use crate::icmp::turn_around;
use crate::ip;
use crate::utils::{copy_range, read_be16};

verus! {

/// A parsed UDP header. `length` counts the header and the data.
#[derive(Debug, Clone, Copy, PartialEq, Eq, Structural)]
pub struct UdpHeader {
    pub src_port: u16,
    pub dst_port: u16,
    pub length: u16,
}

/// The header at the front of `seg`, if it is long enough to hold one.
pub open spec fn parsed(seg: Seq<u8>) -> Option<UdpHeader> {
    if seg.len() < 8 {
        None
    } else {
        Some(
            UdpHeader {
                src_port: crate::utils::be16_at(seg, 0),
                dst_port: crate::utils::be16_at(seg, 2),
                length: crate::utils::be16_at(seg, 4),
            },
        )
    }
}

/// Parse a UDP header. The only way to fail is to be too short.
pub fn parse(seg: &[u8]) -> (r: Option<UdpHeader>)
    ensures
        r == parsed(seg@),
{
    if seg.len() < 8 {
        return None;
    }
    Some(
        UdpHeader {
            src_port: read_be16(seg, 0),
            dst_port: read_be16(seg, 2),
            length: read_be16(seg, 4),
        },
    )
}

/// UDP checksum: the Internet checksum over the pseudo-header (protocol 17) and the segment, whose
/// own checksum field is zero while it is computed.
pub fn checksum(src: Ipv4Addr, dst: Ipv4Addr, segment: &[u8]) -> (c: u16)
    ensures
        c == ip::transport_checksum(src, dst, 17, segment@),
{
    ip::checksum_with_addresses(src, dst, 17, segment)
}

/// A packet that gets an echo: long enough for the IP header it claims (one that can hold a
/// checksum) and a UDP header.
pub open spec fn is_datagram(request: Seq<u8>, header_len: int) -> bool {
    header_len >= 12 && request.len() >= header_len + 8
}

/// `segment` with its two ports swapped.
pub open spec fn ports_swapped(segment: Seq<u8>) -> Seq<u8> {
    segment.update(0, segment[2]).update(1, segment[3]).update(2, segment[0]).update(3, segment[1])
}

/// The echo of `request` but for its UDP checksum: addresses and ports swapped, a fresh TTL, the
/// IP header's checksum redone.
pub open spec fn turned_datagram(request: Seq<u8>, header_len: int) -> Seq<u8> {
    crate::icmp::answering_header(request, header_len) + ports_swapped(
        crate::icmp::returned(request).skip(header_len),
    )
}

/// The echo of `request`: the UDP checksum is taken over the addresses of the reply.
pub open spec fn echo_reply(request: Seq<u8>, header_len: int) -> Seq<u8> {
    let turned = turned_datagram(request, header_len);
    turned.take(header_len) + ip::with_transport_checksum(
        ip::addr_at(turned, 12),
        ip::addr_at(turned, 16),
        17,
        turned.skip(header_len),
        6,
    )
}

/// Build a UDP echo reply from a request (the full IP packet). `header_len` is the IP header's
/// length. `None` if the packet is too short for an IP header and a UDP header.
pub fn build_echo_reply(request: &[u8], header_len: usize) -> (r: Option<Vec<u8>>)
    ensures
        r is Some <==> is_datagram(request@, header_len as int),
        r is Some ==> r->0@ == echo_reply(request@, header_len as int),
{
    if header_len < 12 || request.len() < 8 || request.len() - 8 < header_len {
        return None;
    }
    let mut reply: Vec<u8> = copy_range(request, 0, request.len());
    assert(reply@ =~= request@);
    turn_around(&mut reply);
    let ghost returned = reply@;
    let mut segment: Vec<u8> = reply.split_off(header_len);
    ip::write_header_checksum(reply.as_mut_slice());
    assert(returned.subrange(0, header_len as int) =~= returned.take(header_len as int));
    let (s0, s1, s2, s3): (u8, u8, u8, u8) = (segment[0], segment[1], segment[2], segment[3]);
    segment.set(0, s2);
    segment.set(1, s3);
    segment.set(2, s0);
    segment.set(3, s1);
    assert(segment@ =~= ports_swapped(returned.skip(header_len as int)));
    reply.append(&mut segment);
    let ghost turned = reply@;
    assert(turned == turned_datagram(request@, header_len as int));
    let src: Ipv4Addr = Ipv4Addr::new(reply[12], reply[13], reply[14], reply[15]);
    let dst: Ipv4Addr = Ipv4Addr::new(reply[16], reply[17], reply[18], reply[19]);
    let mut body: Vec<u8> = reply.split_off(header_len);
    assert(turned.subrange(0, header_len as int) =~= turned.take(header_len as int));
    body.set(6, 0);
    body.set(7, 0);
    let ghost zeroed = body@;
    let c: u16 = checksum(src, dst, body.as_slice());
    body.set(6, (c / 256) as u8);
    body.set(7, (c % 256) as u8);
    proof {
        let segment = turned.skip(header_len as int);
        assert(zeroed =~= crate::utils::with_field(segment, 6, 0));
        assert(body@ =~= crate::utils::with_field(segment, 6, c));
    }
    reply.append(&mut body);
    Some(reply)
}

/// An echoed datagram is well formed: as long as the request, addresses and ports swapped, the
/// data echoed unchanged, and both checksums valid (the UDP one over the reply's addresses).
pub proof fn law_echo_reply_is_well_formed(request: Seq<u8>, header_len: int)
    requires
        is_datagram(request, header_len),
        header_len >= 20,
    ensures
        ({
            let reply = echo_reply(request, header_len);
            &&& reply.len() == request.len()
            &&& ip::addr_at(reply, 12) == ip::addr_at(request, 16)
            &&& ip::addr_at(reply, 16) == ip::addr_at(request, 12)
            &&& parsed(reply.skip(header_len)) == Some(
                UdpHeader {
                    src_port: crate::utils::be16_at(request, header_len + 2),
                    dst_port: crate::utils::be16_at(request, header_len),
                    length: crate::utils::be16_at(request, header_len + 4),
                },
            )
            &&& reply.skip(header_len + 8) == request.skip(header_len + 8)
            &&& crate::utils::internet_checksum(reply.take(header_len)) == 0
            &&& ip::transport_checksum(
                ip::addr_at(reply, 12),
                ip::addr_at(reply, 16),
                17,
                reply.skip(header_len),
            ) == 0
        }),
{
    let reply = echo_reply(request, header_len);
    let turned = turned_datagram(request, header_len);
    let header = crate::icmp::returned(request).take(header_len);
    let segment = turned.skip(header_len);
    crate::utils::law_written_checksum_verifies(header, 10);
    assert(reply.take(header_len) =~= crate::utils::with_checksum(header, 10));
    ip::law_transport_checksum_verifies(
        ip::addr_at(turned, 12),
        ip::addr_at(turned, 16),
        17,
        segment,
        6,
    );
    assert(reply.skip(header_len) =~= ip::with_transport_checksum(
        ip::addr_at(turned, 12),
        ip::addr_at(turned, 16),
        17,
        segment,
        6,
    ));
    assert(reply.skip(header_len + 8) =~= request.skip(header_len + 8));
}

/// A packet with its addresses and its ports exchanged, and nothing else changed.
pub open spec fn turned_back(packet: Seq<u8>, header_len: int) -> Seq<u8> {
    Seq::new(
        packet.len(),
        |i: int|
            if 12 <= i < 16 {
                packet[i + 4]
            } else if 16 <= i < 20 {
                packet[i - 4]
            } else if header_len <= i < header_len + 2 {
                packet[i + 2]
            } else if header_len + 2 <= i < header_len + 4 {
                packet[i - 2]
            } else {
                packet[i]
            },
    )
}

/// Echoing a reply redoes its header checksum to the same value.
proof fn lemma_second_header(request: Seq<u8>, header_len: int)
    requires
        is_datagram(request, header_len),
        header_len >= 20,
    ensures
        ({
            let first = echo_reply(request, header_len);
            crate::icmp::answering_header(first, header_len) == turned_back(
                first,
                header_len,
            ).take(header_len)
        }),
{
    let first = echo_reply(request, header_len);
    let h1 = crate::icmp::returned(request).take(header_len);
    let h2 = crate::icmp::returned(first).take(header_len);
    let z1 = crate::utils::with_field(h1, 10, 0);
    let z2 = crate::utils::with_field(h2, 10, 0);
    assert(first.take(header_len) =~= crate::utils::with_checksum(h1, 10));
    assert forall|i: int| 0 <= i < header_len implies first[i] == crate::utils::with_checksum(
        h1,
        10,
    )[i] by {
        assert(first.take(header_len)[i] == first[i]);
    }
    assert(z2 =~= crate::utils::exchanged4(z1, 12));
    crate::utils::lemma_word_sum_exchange4(z1, 12);
    assert(crate::icmp::answering_header(first, header_len) =~= turned_back(
        first,
        header_len,
    ).take(header_len));
}

/// Echoing a reply redoes its UDP checksum to the same value.
#[verifier::rlimit(40)]
proof fn lemma_second_body(request: Seq<u8>, header_len: int)
    requires
        is_datagram(request, header_len),
        header_len >= 20,
    ensures
        ({
            let first = echo_reply(request, header_len);
            echo_reply(first, header_len).skip(header_len) == turned_back(
                first,
                header_len,
            ).skip(header_len)
        }),
{
    let first = echo_reply(request, header_len);
    let t1 = turned_datagram(request, header_len);
    let t2 = turned_datagram(first, header_len);
    let s1 = t1.skip(header_len);
    let s2 = t2.skip(header_len);
    let (a1, b1) = (ip::addr_at(t1, 12), ip::addr_at(t1, 16));
    let (a2, b2) = (ip::addr_at(t2, 12), ip::addr_at(t2, 16));
    let body = ip::with_transport_checksum(a1, b1, 17, s1, 6);
    assert(first.skip(header_len) =~= body);
    assert forall|i: int| 0 <= i < header_len implies first[i] == t1[i] by {
        assert(first[i] == t1.take(header_len)[i]);
    }
    assert(a2 == b1 && b2 == a1);
    assert forall|i: int| 0 <= i < body.len() implies first[header_len + i] == body[i] by {
        assert(first.skip(header_len)[i] == first[header_len + i]);
    }
    assert(s2 =~= ports_swapped(body));
    let z1 = crate::utils::with_field(s1, 6, 0);
    let z2 = crate::utils::with_field(s2, 6, 0);
    assert(z2 =~= ports_swapped(z1));
    let len = s1.len() as int;
    let w1 = ip::pseudo_header(a1, b1, 17, len) + z1;
    let w2 = ip::pseudo_header(a2, b2, 17, len) + z2;
    let x = crate::utils::exchanged4(w1, 0);
    let y = crate::utils::exchanged_at(x, 12, 14);
    crate::utils::lemma_word_sum_exchange4(w1, 0);
    crate::utils::lemma_word_sum_exchange(x, 12, 14);
    crate::utils::lemma_word_sum_exchange(y, 13, 15);
    assert(w2 =~= crate::utils::exchanged_at(y, 13, 15));
    let second = echo_reply(first, header_len);
    assert(second.skip(header_len) =~= ip::with_transport_checksum(a2, b2, 17, s2, 6));
    assert(second.skip(header_len) =~= turned_back(first, header_len).skip(header_len));
}

/// Echoing a reply turns it back: addresses and ports are exchanged again and nothing else
/// changes, the checksums included; echoing once more gives the reply.
pub proof fn law_echo_of_a_reply_turns_it_back(request: Seq<u8>, header_len: int)
    requires
        is_datagram(request, header_len),
        header_len >= 20,
    ensures
        ({
            let first = echo_reply(request, header_len);
            let second = echo_reply(first, header_len);
            &&& is_datagram(first, header_len) && is_datagram(second, header_len)
            &&& second == turned_back(first, header_len)
            &&& echo_reply(second, header_len) == first
            &&& first[8] == 64
        }),
{
    lemma_echo_turns_back(request, header_len);
    let first = echo_reply(request, header_len);
    lemma_echo_turns_back(first, header_len);
    assert(turned_back(turned_back(first, header_len), header_len) =~= first);
}

proof fn lemma_echo_turns_back(request: Seq<u8>, header_len: int)
    requires
        is_datagram(request, header_len),
        header_len >= 20,
    ensures
        ({
            let first = echo_reply(request, header_len);
            &&& is_datagram(first, header_len)
            &&& echo_reply(first, header_len) == turned_back(first, header_len)
            &&& first[8] == 64
        }),
{
    let first = echo_reply(request, header_len);
    let second = echo_reply(first, header_len);
    let back = turned_back(first, header_len);
    lemma_second_header(request, header_len);
    lemma_second_body(request, header_len);
    assert(second.take(header_len) =~= crate::icmp::answering_header(first, header_len));
    assert(second =~= second.take(header_len) + second.skip(header_len));
    assert(back =~= back.take(header_len) + back.skip(header_len));
}

} // verus!
