//! Wire formats below TCP, byte by byte: what the IPv4, ICMP and UDP parsers read from where, what
//! they refuse, what an answer holds at each position, and what the Internet checksum sums.
use vstd::prelude::*;

use crate::addr::Ipv4Addr;
use crate::ip::ParseError;

verus! {

/// The checksum sums 16-bit words in one's complement: an empty message has 0xffff, and appending
/// the word `a`, `b` takes 256 `a` + `b` off, modulo 0xffff. Only a message of zeros has 0xffff.
pub proof fn law_checksum_sums_words(data: Seq<u8>, a: u8, b: u8)
    requires
        data.len() % 2 == 0,
    ensures
        crate::utils::internet_checksum(Seq::empty()) == 0xffff,
        (crate::utils::internet_checksum(data) - crate::utils::internet_checksum(
            data.push(a).push(b),
        ) - (256 * a + b)) % 0xffff == 0,
        crate::utils::internet_checksum(data) == 0xffff <==> forall|i: int|
            0 <= i < data.len() ==> #[trigger] data[i] == 0,
{
    let more = data.push(a).push(b);
    assert(more.drop_last() =~= data.push(a));
    assert(data.push(a).drop_last() =~= data);
    assert(crate::utils::word_sum(more) == crate::utils::word_sum(data) + 256 * a + b) by {
        assert(crate::utils::word_sum(data.push(a)) == crate::utils::word_sum(data) + 256 * a);
    }
    lemma_sum_is_zero(data);
    lemma_sum_is_zero(more);
}

proof fn lemma_sum_is_zero(data: Seq<u8>)
    ensures
        crate::utils::word_sum(data) >= 0,
        crate::utils::word_sum(data) == 0 <==> forall|i: int|
            0 <= i < data.len() ==> #[trigger] data[i] == 0,
    decreases data.len(),
{
    if data.len() > 0 {
        let short = data.drop_last();
        lemma_sum_is_zero(short);
        if forall|i: int| 0 <= i < data.len() ==> #[trigger] data[i] == 0 {
            assert forall|i: int| 0 <= i < short.len() implies #[trigger] short[i] == 0 by {
                assert(short[i] == data[i]);
            }
        }
        if crate::utils::word_sum(data) == 0 {
            assert forall|i: int| 0 <= i < data.len() implies #[trigger] data[i] == 0 by {
                if i < short.len() {
                    assert(short[i] == data[i]);
                }
            }
        }
    }
}

/// Which datagrams are accepted, and where each field stands: version and header length in the
/// first byte, total length at 2, TTL at 8, protocol at 9, addresses at 12 and 16.
pub proof fn law_ipv4_fields(packet: Seq<u8>)
    requires
        packet.len() <= usize::MAX,
    ensures
        ({
            let words = packet[0] as int % 16;
            let total = 256 * packet[2] + packet[3];
            match crate::ip::parsed(packet) {
                Ok(h) => {
                    &&& packet.len() >= 20 && packet.len() >= 4 * words && 64 <= packet[0] < 80
                    &&& total >= 4 * words
                    &&& h.version == 4 && h.header_len == 4 * words && h.total_len == total
                    &&& h.ttl == packet[8] && h.protocol == packet[9]
                    &&& h.src == (Ipv4Addr {
                        a: packet[12],
                        b: packet[13],
                        c: packet[14],
                        d: packet[15],
                    })
                    &&& h.dst == (Ipv4Addr {
                        a: packet[16],
                        b: packet[17],
                        c: packet[18],
                        d: packet[19],
                    })
                },
                Err(ParseError::TooShort { have, need }) => packet.len() < 20 && have
                    == packet.len() && need == 20,
                Err(ParseError::NotIpv4 { version }) => packet.len() >= 20 && !(64 <= packet[0]
                    < 80) && version == packet[0] / 16,
                Err(ParseError::HeaderLongerThanPacket { header_len, have }) => packet.len() >= 20
                    && 64 <= packet[0] < 80 && have == packet.len() && header_len == 4 * words
                    && packet.len() < 4 * words,
                Err(ParseError::BadTotalLength { total_len, header_len }) => packet.len() >= 20
                    && 64 <= packet[0] < 80 && packet.len() >= 4 * words && header_len == 4 * words
                    && total_len == total && total < 4 * words,
            }
        }),
{
}

/// The pseudo-header: source, destination, a zero, the protocol, and the segment's length.
pub proof fn law_pseudo_header_bytes(src: Ipv4Addr, dst: Ipv4Addr, protocol: u8, len: int)
    requires
        0 <= len <= 0xffff,
    ensures
        crate::ip::pseudo_header(src, dst, protocol, len) == seq![
            src.a,
            src.b,
            src.c,
            src.d,
            dst.a,
            dst.b,
            dst.c,
            dst.d,
            0u8,
            protocol,
            (len / 256) as u8,
            (len % 256) as u8,
        ],
{
    assert(crate::ip::pseudo_header(src, dst, protocol, len) =~= seq![
        src.a,
        src.b,
        src.c,
        src.d,
        dst.a,
        dst.b,
        dst.c,
        dst.d,
        0u8,
        protocol,
        (len / 256) as u8,
        (len % 256) as u8,
    ]);
}

/// Where the fields of an ICMP echo message stand; a message is refused if it is shorter than them.
pub proof fn law_echo_message_fields(message: Seq<u8>)
    ensures
        match crate::icmp::parsed(message) {
            None => message.len() < 8,
            Some(h) => {
                &&& message.len() >= 8
                &&& h.typ == message[0] && h.code == message[1]
                &&& h.checksum == 256 * message[2] + message[3]
                &&& h.id == 256 * message[4] + message[5]
                &&& h.seq == 256 * message[6] + message[7]
            },
        },
{
}

/// What is answered with an echo, and what the answer holds at each position: the addresses
/// exchanged, TTL 64, type 0, both checksums anew, and every other byte of the request.
pub proof fn law_echo_answers_byte_by_byte(request: Seq<u8>, header_len: int)
    ensures
        crate::icmp::is_echo_request(request, header_len) <==> header_len >= 12 && request.len()
            >= header_len + 8 && request[header_len] == 8,
        crate::icmp::is_echo_request(request, header_len) && header_len >= 20 ==> {
            let reply = crate::icmp::echo_reply(request, header_len);
            &&& reply.len() == request.len()
            &&& forall|i: int|
                0 <= i < request.len() && i != 10 && i != 11 && i != header_len + 2 && i
                    != header_len + 3 ==> #[trigger] reply[i] == (if 12 <= i < 16 {
                    request[i + 4]
                } else if 16 <= i < 20 {
                    request[i - 4]
                } else if i == 8 {
                    64
                } else if i == header_len {
                    0
                } else {
                    request[i]
                })
            &&& crate::utils::internet_checksum(reply.take(header_len)) == 0
            &&& crate::utils::internet_checksum(reply.skip(header_len)) == 0
        },
{
    if crate::icmp::is_echo_request(request, header_len) && header_len >= 20 {
        crate::icmp::law_echo_reply_is_well_formed(request, header_len);
    }
}

/// Where the fields of a UDP header stand; a segment is refused if it is shorter than them.
pub proof fn law_udp_fields(seg: Seq<u8>)
    ensures
        match crate::udp::parsed(seg) {
            None => seg.len() < 8,
            Some(h) => {
                &&& seg.len() >= 8
                &&& h.src_port == 256 * seg[0] + seg[1] && h.dst_port == 256 * seg[2] + seg[3]
                &&& h.length == 256 * seg[4] + seg[5]
            },
        },
{
}

/// What is echoed, and what the echo holds at each position: addresses and ports exchanged, TTL 64,
/// both checksums anew, and every other byte of the request.
pub proof fn law_datagram_echo_byte_by_byte(request: Seq<u8>, header_len: int)
    ensures
        crate::udp::is_datagram(request, header_len) <==> header_len >= 12 && request.len()
            >= header_len + 8,
        crate::udp::is_datagram(request, header_len) && header_len >= 20 ==> {
            let reply = crate::udp::echo_reply(request, header_len);
            &&& reply.len() == request.len()
            &&& forall|i: int|
                0 <= i < request.len() && i != 10 && i != 11 && i != header_len + 6 && i
                    != header_len + 7 ==> #[trigger] reply[i] == (if 12 <= i < 16 {
                    request[i + 4]
                } else if 16 <= i < 20 {
                    request[i - 4]
                } else if i == 8 {
                    64
                } else if header_len <= i < header_len + 2 {
                    request[i + 2]
                } else if header_len + 2 <= i < header_len + 4 {
                    request[i - 2]
                } else {
                    request[i]
                })
            &&& crate::utils::internet_checksum(reply.take(header_len)) == 0
            &&& crate::utils::internet_checksum(
                crate::ip::pseudo_header(
                    crate::ip::addr_at(reply, 12),
                    crate::ip::addr_at(reply, 16),
                    17,
                    request.len() - header_len,
                ) + reply.skip(header_len),
            ) == 0
        },
{
    if crate::udp::is_datagram(request, header_len) && header_len >= 20 {
        crate::udp::law_echo_reply_is_well_formed(request, header_len);
        let reply = crate::udp::echo_reply(request, header_len);
        let turned = crate::udp::turned_datagram(request, header_len);
        assert(turned.len() == request.len());
        assert forall|i: int|
            0 <= i < request.len() && i != header_len + 6 && i != header_len
                + 7 implies #[trigger] reply[i] == turned[i] by {}
    }
}

/// Which name each protocol and each ICMP message goes by; what is not listed has no name of its own.
pub proof fn law_names(protocol: u8, typ: u8, code: u8)
    ensures
        crate::ip::protocol_text(protocol) == (match protocol {
            1 => "ICMP"@,
            6 => "TCP"@,
            17 => "UDP"@,
            _ => "unknown"@,
        }),
        crate::icmp::name_of(typ, code) == (match (typ, code) {
            (0, 0) => "Echo Reply (pong)"@,
            (8, 0) => "Echo Request (ping)"@,
            (3, 0) => "Net Unreachable"@,
            (3, 1) => "Host Unreachable"@,
            (3, 3) => "Port Unreachable"@,
            (11, 0) => "Time Exceeded (TTL=0)"@,
            _ => "other"@,
        }),
{
}

} // verus!
