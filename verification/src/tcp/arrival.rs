//! Taking a received IPv4 datagram apart into a TCP segment.
use vstd::prelude::*;

use crate::addr::Ipv4Addr;
use crate::ip;
use crate::tcp::header::{parse, Quad, TcpHeader};
use crate::tcp::options::{parse_options, TcpOptions};
use crate::tcp::packet::Endpoint;
use crate::utils::copy_range;

verus! {

/// A TCP segment as it arrived: the connection it belongs to (we are `local`), its header, its
/// data and its options.
#[verifier::ext_equal]
pub struct Segment {
    pub quad: Quad,
    pub th: TcpHeader,
    pub payload: Seq<u8>,
    pub opts: crate::tcp::options::OptionSet,
}

/// The TCP segment in a datagram: none if it is no IPv4 datagram with protocol 6, or if the TCP
/// header is malformed.
pub open spec fn segment_in(packet: Seq<u8>) -> Option<Segment> {
    match ip::parsed(packet) {
        Ok(iph) => {
            let l4 = packet.skip(iph.header_len as int);
            match crate::tcp::header::parsed(l4) {
                Some(th) if iph.protocol == 6 => Some(
                    Segment {
                        quad: Quad {
                            remote: (iph.src, th.src_port),
                            local: (iph.dst, th.dst_port),
                        },
                        th,
                        payload: l4.skip(th.data_offset as int),
                        opts: crate::tcp::options::parsed_options(
                            l4.subrange(20, th.data_offset as int),
                        ),
                    },
                ),
                _ => None,
            }
        },
        Err(_) => None,
    }
}

/// A received TCP segment.
#[derive(Debug)]
pub struct Arrival {
    pub quad: Quad,
    pub th: TcpHeader,
    pub payload: Vec<u8>,
    pub opts: TcpOptions,
}

impl View for Arrival {
    type V = Segment;

    open spec fn view(&self) -> Segment {
        Segment { quad: self.quad, th: self.th, payload: self.payload@, opts: self.opts@ }
    }
}

/// Take a datagram apart.
pub fn parse_datagram(packet: &[u8]) -> (r: Option<Arrival>)
    ensures
        match r {
            Some(a) => segment_in(packet@) == Some(a@) && a.opts@.wf(),
            None => segment_in(packet@) is None,
        },
{
    let iph: ip::Ipv4Header = match ip::parse(packet) {
        Ok(h) => h,
        Err(_) => {
            return None;
        },
    };
    if iph.protocol != 6 {
        return None;
    }
    let l4: Vec<u8> = copy_range(packet, iph.header_len, packet.len());
    assert(l4@ =~= packet@.skip(iph.header_len as int));
    match parse(l4.as_slice()) {
        Some(th) => {
            let area: Vec<u8> = copy_range(l4.as_slice(), 20, th.data_offset);
            let payload: Vec<u8> = copy_range(l4.as_slice(), th.data_offset, l4.len());
            assert(payload@ =~= l4@.skip(th.data_offset as int));
            Some(
                Arrival {
                    quad: Quad {
                        remote: (iph.src, th.src_port),
                        local: (iph.dst, th.dst_port),
                    },
                    th,
                    payload,
                    opts: parse_options(area.as_slice()),
                },
            )
        },
        None => None,
    }
}

/// A packet's bytes, field by field, outside the two checksums.
proof fn lemma_packet_layout(
    src: Endpoint,
    dst: Endpoint,
    seq: u32,
    ack: u32,
    flags: u8,
    window: u16,
    options: Seq<u8>,
    payload: Seq<u8>,
)
    requires
        crate::tcp::packet::options_fit(options),
        40 + options.len() + payload.len() <= 0xffff,
    ensures
        ({
            let packet = crate::tcp::packet::packet_bytes(
                src,
                dst,
                seq,
                ack,
                flags,
                window,
                options,
                payload,
            );
            let fields = crate::tcp::packet::ip_fields(src.0, dst.0, packet.len() as int);
            let segment = crate::tcp::packet::tcp_fields(
                src.1,
                dst.1,
                seq,
                ack,
                flags,
                window,
                options,
                payload,
            );
            &&& packet.len() == 40 + options.len() + payload.len()
            &&& fields.len() == 20
            &&& segment.len() == packet.len() - 20
            &&& packet.take(20) == crate::utils::with_checksum(fields, 10)
            &&& packet.skip(20) == ip::with_transport_checksum(src.0, dst.0, 6, segment, 16)
        }),
{
    reveal(crate::tcp::packet::packet_bytes);
    let total_len = (40 + options.len() + payload.len()) as int;
    let fields = crate::tcp::packet::ip_fields(src.0, dst.0, total_len);
    let segment = crate::tcp::packet::tcp_fields(
        src.1,
        dst.1,
        seq,
        ack,
        flags,
        window,
        options,
        payload,
    );
    let head = crate::utils::with_checksum(fields, 10);
    let tail = ip::with_transport_checksum(src.0, dst.0, 6, segment, 16);
    assert(head.len() == 20);
    assert((head + tail).take(20) =~= head);
    assert((head + tail).skip(20) =~= tail);
}

/// The IPv4 header of a packet we build is read back.
proof fn lemma_header_reads_back(packet: Seq<u8>, src: Ipv4Addr, dst: Ipv4Addr)
    requires
        20 <= packet.len() <= 0xffff,
        packet.take(20) == crate::utils::with_checksum(
            crate::tcp::packet::ip_fields(src, dst, packet.len() as int),
            10,
        ),
    ensures
        ip::parsed(packet) == Ok::<ip::Ipv4Header, ip::ParseError>(
            (ip::Ipv4Header {
                version: 4,
                header_len: 20,
                total_len: packet.len() as usize,
                ttl: 64,
                protocol: 6,
                src,
                dst,
            }),
        ),
{
    let l3 = packet.take(20);
    let fields = crate::tcp::packet::ip_fields(src, dst, packet.len() as int);
    assert(forall|i: int| 0 <= i < 20 ==> packet[i] == #[trigger] l3[i]);
    assert(forall|i: int| 0 <= i < 10 ==> #[trigger] l3[i] == fields[i]);
    assert(forall|i: int| 12 <= i < 20 ==> #[trigger] l3[i] == fields[i]);
    assert(l3[0] == 0x45);
    assert(crate::utils::be16_at(l3, 2) == packet.len());
    assert(l3[8] == 64 && l3[9] == 6);
    assert(ip::addr_at(l3, 12) == src);
    assert(ip::addr_at(l3, 16) == dst);
    assert(packet[0] / 16 == 4 && packet[0] % 16 * 4 == 20);
}

/// The TCP segment of a packet we build is read back.
proof fn lemma_segment_reads_back(
    l4: Seq<u8>,
    src: Endpoint,
    dst: Endpoint,
    seq: u32,
    ack: u32,
    flags: u8,
    window: u16,
    options: Seq<u8>,
    payload: Seq<u8>,
)
    requires
        crate::tcp::packet::options_fit(options),
        l4 == ip::with_transport_checksum(
            src.0,
            dst.0,
            6,
            crate::tcp::packet::tcp_fields(
                src.1,
                dst.1,
                seq,
                ack,
                flags,
                window,
                options,
                payload,
            ),
            16,
        ),
    ensures
        crate::tcp::header::parsed(l4) == Some(
            (TcpHeader {
                src_port: src.1,
                dst_port: dst.1,
                seq,
                ack,
                data_offset: (20 + options.len()) as usize,
                flags,
                window,
            }),
        ),
        l4.subrange(20, (20 + options.len()) as int) == options,
        l4.skip((20 + options.len()) as int) == payload,
{
    let segment = crate::tcp::packet::tcp_fields(
        src.1,
        dst.1,
        seq,
        ack,
        flags,
        window,
        options,
        payload,
    );
    assert(forall|i: int| 0 <= i < 16 ==> #[trigger] l4[i] == segment[i]);
    assert(forall|i: int| 18 <= i < segment.len() ==> #[trigger] l4[i] == segment[i]);
    let words = (20 + options.len()) as int / 4;
    assert(words * 4 == 20 + options.len());
    assert(l4[12] == words * 16);
    assert(l4[12] / 16 == words);
    assert(l4[13] == flags);
    assert(l4.subrange(0, 2) =~= crate::utils::be16_bytes(src.1));
    assert(l4.subrange(2, 4) =~= crate::utils::be16_bytes(dst.1));
    assert(l4.subrange(4, 8) =~= crate::utils::be32_bytes(seq));
    assert(l4.subrange(8, 12) =~= crate::utils::be32_bytes(ack));
    assert(l4.subrange(14, 16) =~= crate::utils::be16_bytes(window));
    crate::utils::lemma_be16_reads_back(l4, 0, src.1);
    crate::utils::lemma_be16_reads_back(l4, 2, dst.1);
    crate::utils::lemma_be32_reads_back(l4, 4, seq);
    crate::utils::lemma_be32_reads_back(l4, 8, ack);
    crate::utils::lemma_be16_reads_back(l4, 14, window);
    assert(l4.subrange(20, words * 4) =~= options);
    assert(l4.skip(words * 4) =~= payload);
}

/// Both checksums of every packet we build verify: the header's, and the segment's over the
/// addresses.
pub proof fn law_packet_checksums_verify(
    src: Endpoint,
    dst: Endpoint,
    seq: u32,
    ack: u32,
    flags: u8,
    window: u16,
    options: Seq<u8>,
    payload: Seq<u8>,
)
    requires
        crate::tcp::packet::options_fit(options),
        40 + options.len() + payload.len() <= 0xffff,
    ensures
        ({
            let packet = crate::tcp::packet::packet_bytes(
                src,
                dst,
                seq,
                ack,
                flags,
                window,
                options,
                payload,
            );
            &&& crate::utils::internet_checksum(packet.take(20)) == 0
            &&& ip::transport_checksum(src.0, dst.0, 6, packet.skip(20)) == 0
        }),
{
    lemma_packet_layout(src, dst, seq, ack, flags, window, options, payload);
    let total_len = (40 + options.len() + payload.len()) as int;
    ip::law_written_header_verifies(crate::tcp::packet::ip_fields(src.0, dst.0, total_len));
    ip::law_transport_checksum_verifies(
        src.0,
        dst.0,
        6,
        crate::tcp::packet::tcp_fields(src.1, dst.1, seq, ack, flags, window, options, payload),
        16,
    );
}

/// Every packet we build is read back as what went into it: the endpoints, the numbers, the flags,
/// the window, the options and the data.
pub proof fn law_packet_reads_back(
    src: Endpoint,
    dst: Endpoint,
    seq: u32,
    ack: u32,
    flags: u8,
    window: u16,
    options: Seq<u8>,
    payload: Seq<u8>,
)
    requires
        crate::tcp::packet::options_fit(options),
        40 + options.len() + payload.len() <= 0xffff,
    ensures
        segment_in(
            crate::tcp::packet::packet_bytes(
                src,
                dst,
                seq,
                ack,
                flags,
                window,
                options,
                payload,
            ),
        ) == Some(
            (Segment {
                quad: (Quad { remote: src, local: dst }),
                th: (TcpHeader {
                    src_port: src.1,
                    dst_port: dst.1,
                    seq,
                    ack,
                    data_offset: (20 + options.len()) as usize,
                    flags,
                    window,
                }),
                payload,
                opts: crate::tcp::options::parsed_options(options),
            }),
        ),
{
    lemma_packet_layout(src, dst, seq, ack, flags, window, options, payload);
    let packet = crate::tcp::packet::packet_bytes(
        src,
        dst,
        seq,
        ack,
        flags,
        window,
        options,
        payload,
    );
    lemma_header_reads_back(packet, src.0, dst.0);
    lemma_segment_reads_back(
        packet.skip(20),
        src,
        dst,
        seq,
        ack,
        flags,
        window,
        options,
        payload,
    );
}

} // verus!
