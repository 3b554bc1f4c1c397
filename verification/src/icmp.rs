//! ICMP layer (RFC 792), the protocol behind `ping`: parsing and the echo reply.
use vstd::prelude::*;

use crate::ip;
use crate::utils::{checksum, copy_range, read_be16};

verus! {

/// The fixed head of an ICMP echo message; variable data follows it.
#[derive(Debug, Clone, Copy, PartialEq, Eq, Structural)]
pub struct IcmpHeader {
    pub typ: u8,
    pub code: u8,
    pub checksum: u16,
    pub id: u16,
    pub seq: u16,
}

/// The header at the front of `payload`, if it is long enough to hold one.
pub open spec fn parsed(payload: Seq<u8>) -> Option<IcmpHeader> {
    if payload.len() < 8 {
        None
    } else {
        Some(
            IcmpHeader {
                typ: payload[0],
                code: payload[1],
                checksum: crate::utils::be16_at(payload, 2),
                id: crate::utils::be16_at(payload, 4),
                seq: crate::utils::be16_at(payload, 6),
            },
        )
    }
}

/// Parse an ICMP header. The only way to fail is to be too short.
pub fn parse(payload: &[u8]) -> (r: Option<IcmpHeader>)
    ensures
        r == parsed(payload@),
{
    if payload.len() < 8 {
        return None;
    }
    Some(
        IcmpHeader {
            typ: payload[0],
            code: payload[1],
            checksum: read_be16(payload, 2),
            id: read_be16(payload, 4),
            seq: read_be16(payload, 6),
        },
    )
}

/// The name of a message kind.
pub open spec fn name_of(typ: u8, code: u8) -> Seq<char> {
    if typ == 8 && code == 0 {
        "Echo Request (ping)"@
    } else if typ == 0 && code == 0 {
        "Echo Reply (pong)"@
    } else if typ == 3 && code == 0 {
        "Net Unreachable"@
    } else if typ == 3 && code == 1 {
        "Host Unreachable"@
    } else if typ == 3 && code == 3 {
        "Port Unreachable"@
    } else if typ == 11 && code == 0 {
        "Time Exceeded (TTL=0)"@
    } else {
        "other"@
    }
}

/// A readable name for a message kind.
pub fn name(typ: u8, code: u8) -> (s: &'static str)
    ensures
        s@ == name_of(typ, code),
{
    if typ == 8 && code == 0 {
        "Echo Request (ping)"
    } else if typ == 0 && code == 0 {
        "Echo Reply (pong)"
    } else if typ == 3 && code == 0 {
        "Net Unreachable"
    } else if typ == 3 && code == 1 {
        "Host Unreachable"
    } else if typ == 3 && code == 3 {
        "Port Unreachable"
    } else if typ == 11 && code == 0 {
        "Time Exceeded (TTL=0)"
    } else {
        "other"
    }
}

/// The IP header of an answer to `request`: addresses swapped, a fresh TTL, the checksum redone.
pub open spec fn answering_header(request: Seq<u8>, header_len: int) -> Seq<u8> {
    crate::utils::with_checksum(returned(request).take(header_len), 10)
}

/// `packet` with its IP addresses swapped and a fresh TTL.
pub open spec fn returned(packet: Seq<u8>) -> Seq<u8> {
    Seq::new(
        packet.len(),
        |i: int|
            if 12 <= i < 16 {
                packet[i + 4]
            } else if 16 <= i < 20 {
                packet[i - 4]
            } else if i == 8 {
                64
            } else {
                packet[i]
            },
    )
}

/// The ICMP part of an echo reply: the request's with type 0 and its checksum redone.
pub open spec fn answering_message(message: Seq<u8>) -> Seq<u8> {
    crate::utils::with_checksum(message.update(0, 0), 2)
}

/// A request that gets an echo reply: long enough for the IP header it claims (one that can hold
/// a checksum) and an ICMP header, and of type 8.
pub open spec fn is_echo_request(request: Seq<u8>, header_len: int) -> bool {
    header_len >= 12 && request.len() >= header_len + 8 && request[header_len] == 8
}

/// The echo reply to `request`.
pub open spec fn echo_reply(request: Seq<u8>, header_len: int) -> Seq<u8> {
    answering_header(request, header_len) + answering_message(
        returned(request).skip(header_len),
    )
}

/// Swap the source and destination address of an IP packet and give it a fresh TTL.
pub fn turn_around(packet: &mut Vec<u8>)
    requires
        old(packet)@.len() >= 20,
    ensures
        final(packet)@ == returned(old(packet)@),
{
    let mut i: usize = 12;
    while i < 16
        invariant
            12 <= i <= 16,
            packet@.len() == old(packet)@.len() >= 20,
            forall|k: int|
                0 <= k < packet@.len() ==> #[trigger] packet@[k] == (if 12 <= k < i {
                    old(packet)@[k + 4]
                } else if 16 <= k < i + 4 {
                    old(packet)@[k - 4]
                } else {
                    old(packet)@[k]
                }),
        decreases 16 - i,
    {
        let a: u8 = packet[i];
        let b: u8 = packet[i + 4];
        packet.set(i, b);
        packet.set(i + 4, a);
        i += 1;
    }
    packet.set(8, 64);
    assert(packet@ =~= returned(old(packet)@));
}

/// Build an ICMP echo reply from an echo request (the full IP packet): the request with the
/// addresses swapped, a fresh TTL, type 0, and both checksums redone. The data is echoed.
///
/// `header_len` is the IP header's length. `None` if the packet is too short or no echo request.
pub fn build_echo_reply(request: &[u8], header_len: usize) -> (r: Option<Vec<u8>>)
    ensures
        r is Some <==> is_echo_request(request@, header_len as int),
        r is Some ==> r->0@ == echo_reply(request@, header_len as int),
{
    if header_len < 12 || request.len() < 8 || request.len() - 8 < header_len {
        return None;
    }
    if request[header_len] != 8 {
        return None;
    }
    let mut reply: Vec<u8> = copy_range(request, 0, request.len());
    assert(reply@ =~= request@);
    turn_around(&mut reply);
    let ghost turned = reply@;
    let mut message: Vec<u8> = reply.split_off(header_len);
    ip::write_header_checksum(reply.as_mut_slice());
    assert(turned.subrange(0, header_len as int) =~= turned.take(header_len as int));
    message.set(0, 0);
    message.set(2, 0);
    message.set(3, 0);
    let c: u16 = checksum(message.as_slice());
    message.set(2, (c / 256) as u8);
    message.set(3, (c % 256) as u8);
    assert(message@ =~= answering_message(turned.skip(header_len as int)));
    reply.append(&mut message);
    Some(reply)
}

/// An echo reply is well formed: as long as the request, from its destination to its source, of
/// type 0, with everything behind the ICMP checksum echoed unchanged, and both checksums valid.
pub proof fn law_echo_reply_is_well_formed(request: Seq<u8>, header_len: int)
    requires
        is_echo_request(request, header_len),
        header_len >= 20,
    ensures
        ({
            let reply = echo_reply(request, header_len);
            &&& reply.len() == request.len()
            &&& ip::addr_at(reply, 12) == ip::addr_at(request, 16)
            &&& ip::addr_at(reply, 16) == ip::addr_at(request, 12)
            &&& reply[8] == 64
            &&& reply[header_len] == 0
            &&& reply.skip(header_len + 4) == request.skip(header_len + 4)
            &&& crate::utils::internet_checksum(reply.take(header_len)) == 0
            &&& crate::utils::internet_checksum(reply.skip(header_len)) == 0
        }),
{
    let reply = echo_reply(request, header_len);
    let turned = returned(request);
    let header = turned.take(header_len);
    let message = turned.skip(header_len).update(0, 0);
    crate::utils::law_written_checksum_verifies(header, 10);
    crate::utils::law_written_checksum_verifies(message, 2);
    assert(reply.take(header_len) =~= crate::utils::with_checksum(header, 10));
    assert(reply.skip(header_len) =~= crate::utils::with_checksum(message, 2));
    assert(reply.skip(header_len + 4) =~= request.skip(header_len + 4));
}

} // verus!
