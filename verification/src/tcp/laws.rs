//! What holds of connections as a whole: properties that span several transitions, or both ends.
use vstd::prelude::*;

use crate::tcp::header::{State, TcpHeader, ACK, FIN, PSH, RST, SYN};
use crate::tcp::model::{Conn, Tcb};
use crate::tcp::packet::Endpoint;

verus! {

/// `c` after the packet arrived; unchanged if it holds no segment.
pub open spec fn arrived(c: Conn, packet: Seq<u8>, now_ms: u64, draw: u32) -> crate::tcp::model::Step {
    match crate::tcp::arrival::segment_in(packet) {
        Some(seg) => crate::tcp::model::segment_step(
            c,
            seg.th,
            seg.payload,
            seg.opts,
            now_ms,
            draw,
        ),
        None => (c, None),
    }
}

/// A segment that arrives at a given time, with the random number it may need.
#[verifier::ext_equal]
pub struct Event {
    pub th: TcpHeader,
    pub payload: Seq<u8>,
    pub opts: crate::tcp::options::OptionSet,
    pub now_ms: u64,
    pub draw: u32,
}

/// `c` after the segments arrived one after the other, and the answer to each.
pub open spec fn after_events(c: Conn, events: Seq<Event>) -> (Conn, Seq<Option<Seq<u8>>>)
    decreases events.len(),
{
    if events.len() == 0 {
        (c, Seq::empty())
    } else {
        let (c0, replies) = after_events(c, events.drop_last());
        let e = events.last();
        let (c1, reply) = crate::tcp::model::segment_step(
            c0,
            e.th,
            e.payload,
            e.opts,
            e.now_ms,
            e.draw,
        );
        (c1, replies.push(reply))
    }
}

/// The bits of the flag combinations we send.
pub proof fn lemma_flag_bits()
    ensures
        SYN & RST == 0,
        SYN & SYN != 0,
        (SYN | ACK) & RST == 0,
        (SYN | ACK) & (SYN | ACK) == (SYN | ACK),
        ACK & RST == 0,
        ACK & SYN == 0,
        ACK & FIN == 0,
        ACK & ACK != 0,
        (PSH | ACK) & RST == 0,
        (PSH | ACK) & SYN == 0,
        (PSH | ACK) & FIN == 0,
        (PSH | ACK) & ACK != 0,
        (FIN | ACK) & RST == 0,
        (FIN | ACK) & SYN == 0,
        (FIN | ACK) & FIN != 0,
        (FIN | ACK) & ACK != 0,
{
    assert(0x02u8 & 0x04u8 == 0) by (bit_vector);
    assert(0x02u8 & 0x02u8 != 0) by (bit_vector);
    assert((0x02u8 | 0x10u8) & 0x04u8 == 0) by (bit_vector);
    assert((0x02u8 | 0x10u8) & (0x02u8 | 0x10u8) == (0x02u8 | 0x10u8)) by (bit_vector);
    assert(0x10u8 & 0x04u8 == 0 && 0x10u8 & 0x02u8 == 0 && 0x10u8 & 0x01u8 == 0 && 0x10u8 & 0x10u8
        != 0) by (bit_vector);
    assert((0x08u8 | 0x10u8) & 0x04u8 == 0 && (0x08u8 | 0x10u8) & 0x02u8 == 0 && (0x08u8 | 0x10u8)
        & 0x01u8 == 0 && (0x08u8 | 0x10u8) & 0x10u8 != 0) by (bit_vector);
    assert((0x01u8 | 0x10u8) & 0x04u8 == 0 && (0x01u8 | 0x10u8) & 0x02u8 == 0 && (0x01u8 | 0x10u8)
        & 0x01u8 != 0 && (0x01u8 | 0x10u8) & 0x10u8 != 0) by (bit_vector);
}

/// A window that is not scaled is taken as it is.
proof fn lemma_unscaled(window: u16)
    ensures
        (window as u32) << 0u32 == window as u32,
{
    assert((window as u32) << 0u32 == window as u32) by (bit_vector);
}

/// Two ends that are in step: both open, each expecting what the other sends next, with nothing
/// unacknowledged and nothing out of order.
pub open spec fn established_pair(a: Conn, b: Conn) -> bool {
    &&& at_rest(a) && at_rest(b)
    &&& a.tcb.nxt == b.tcb.rcv_nxt && b.tcb.nxt == a.tcb.rcv_nxt
    &&& a.tcb.ts_enabled == b.tcb.ts_enabled
}

/// An open end with nothing in flight, nothing out of order, and no FIN seen.
pub open spec fn at_rest(c: Conn) -> bool {
    &&& c.tcb.state == State::Established
    &&& c.tcb.una == c.tcb.nxt
    &&& c.retx.segments == Seq::<crate::tcp::retx::Segment>::empty()
    &&& c.reasm.frags == Map::<u32, Seq<u8>>::empty()
    &&& !c.tcb.peer_fin && c.tcb.pending_fin is None
}

/// A queue that holds one segment of one sequence number is emptied by its acknowledgement.
proof fn lemma_lone_segment_acked(start: u32, packet: Seq<u8>, now_ms: u64)
    ensures
        ({
            let end = start.wrapping_add(1);
            let q = crate::tcp::retx::recorded(
                crate::tcp::retx::empty_queue(),
                start,
                end,
                packet,
                now_ms,
            );
            crate::tcp::retx::acked_to(q, end).segments =~= Seq::<
                crate::tcp::retx::Segment,
            >::empty()
        }),
{
    reveal_with_fuel(crate::tcp::retx::still_unacked, 2);
}

/// The timestamp clock does not run backwards over less than half its range.
proof fn lemma_clock_moves(earlier: u64, later: u64)
    requires
        earlier <= later,
        later - earlier < 0x8000_0000,
    ensures
        !crate::seq::is_before(
            crate::tcp::model::clock_of(later),
            crate::tcp::model::clock_of(earlier),
        ),
{
}

/// A segment with timestamps or without is read back.
pub proof fn lemma_segment_arrives(t: Tcb, seq: u32, ack: u32, flags: u8, payload: Seq<u8>)
    requires
        payload.len() <= 60_000,
    ensures
        ({
            let stamps = if t.ts_enabled {
                Some((t.ts_val, t.ts_recent))
            } else {
                None
            };
            crate::tcp::arrival::segment_in(
                crate::tcp::model::segment_bytes(t, seq, ack, flags, payload),
            ) == Some(
                (crate::tcp::arrival::Segment {
                    quad: (crate::tcp::header::Quad { remote: t.local, local: t.remote }),
                    th: (TcpHeader {
                        src_port: t.local.1,
                        dst_port: t.remote.1,
                        seq,
                        ack,
                        data_offset: (20 + crate::tcp::model::ts_options(t).len()) as usize,
                        flags,
                        window: t.rcv_wnd,
                    }),
                    payload,
                    opts: (crate::tcp::options::OptionSet {
                        timestamps: stamps,
                        ..crate::tcp::options::no_options()
                    }),
                }),
            )
        }),
{
    let options = crate::tcp::model::ts_options(t);
    let stamps = if t.ts_enabled {
        Some((t.ts_val, t.ts_recent))
    } else {
        None
    };
    crate::tcp::arrival::law_packet_reads_back(
        t.local,
        t.remote,
        seq,
        ack,
        flags,
        t.rcv_wnd,
        options,
        payload,
    );
    crate::tcp::options::lemma_stamps_read_back(stamps);
}

/// Our SYN is read back with everything it offers.
pub proof fn lemma_syn_arrives(client: Endpoint, server: Endpoint, iss: u32, draw: u32, now_ms: u64)
    ensures
        ({
            let (c, syn) = crate::tcp::model::connecting(client, server, iss, draw, now_ms);
            crate::tcp::arrival::segment_in(syn) == Some(
                (crate::tcp::arrival::Segment {
                    quad: (crate::tcp::header::Quad { remote: client, local: server }),
                    th: (TcpHeader {
                        src_port: client.1,
                        dst_port: server.1,
                        seq: iss,
                        ack: 0,
                        data_offset: 44,
                        flags: SYN,
                        window: 1024,
                    }),
                    payload: Seq::empty(),
                    opts: (crate::tcp::options::OptionSet {
                        mss: Some(1460),
                        window_scale: Some(0),
                        timestamps: Some((crate::tcp::model::clock_of(now_ms), 0)),
                        sack_permitted: true,
                        ..crate::tcp::options::no_options()
                    }),
                }),
            )
        }),
{
    let t = crate::tcp::model::connecting(client, server, iss, draw, now_ms).0.tcb;
    let offer = crate::tcp::model::syn_options(t);
    crate::tcp::options::law_handshake_options_read_back(
        1460,
        Some(0),
        Some((t.ts_val, 0)),
        true,
    );
    assert(offer.len() == 24);
    crate::tcp::arrival::law_packet_reads_back(
        client,
        server,
        iss,
        0,
        SYN,
        t.rcv_wnd,
        offer,
        Seq::empty(),
    );
}

/// Our SYN-ACK to a SYN that offers everything is read back with everything it confirms.
proof fn lemma_synack_arrives(
    seg: crate::tcp::arrival::Segment,
    iss: u32,
    draw: u32,
    now_ms: u64,
)
    requires
        seg.opts.mss == Some(1460u16),
        seg.opts.window_scale is Some,
        seg.opts.timestamps is Some,
        seg.opts.sack_permitted,
        seg.th.src_port == seg.quad.remote.1,
        seg.th.dst_port == seg.quad.local.1,
    ensures
        ({
            let (s, synack) = crate::tcp::model::accepted(
                seg.quad.remote.0,
                seg.quad.local.0,
                seg.th,
                seg.opts,
                iss,
                draw,
                now_ms,
            );
            crate::tcp::arrival::segment_in(synack) == Some(
                (crate::tcp::arrival::Segment {
                    quad: (crate::tcp::header::Quad {
                        remote: seg.quad.local,
                        local: seg.quad.remote,
                    }),
                    th: (TcpHeader {
                        src_port: seg.quad.local.1,
                        dst_port: seg.quad.remote.1,
                        seq: iss,
                        ack: seg.th.seq.wrapping_add(1),
                        data_offset: 44,
                        flags: SYN | ACK,
                        window: 1024,
                    }),
                    payload: Seq::empty(),
                    opts: (crate::tcp::options::OptionSet {
                        mss: Some(1460),
                        window_scale: Some(0),
                        timestamps: Some(
                            (crate::tcp::model::clock_of(now_ms), (seg.opts.timestamps->0).0),
                        ),
                        sack_permitted: true,
                        ..crate::tcp::options::no_options()
                    }),
                }),
            )
        }),
{
    let t = crate::tcp::model::accepted_tcb(
        seg.quad.remote.0,
        seg.quad.local.0,
        seg.th,
        seg.opts,
        iss,
        draw,
        now_ms,
    );
    let answer = crate::tcp::model::synack_options(t, true);
    crate::tcp::options::law_handshake_options_read_back(
        1460,
        Some(0),
        Some((t.ts_val, t.ts_recent)),
        true,
    );
    assert(answer.len() == 24);
    crate::tcp::arrival::law_packet_reads_back(
        t.local,
        t.remote,
        iss,
        t.rcv_nxt,
        SYN | ACK,
        t.rcv_wnd,
        answer,
        Seq::empty(),
    );
}

/// The ACK that ends the handshake opens the passive end and needs no answer.
proof fn lemma_handshake_ack_arrives(c: Conn, s: Conn, now_ms: u64, draw: u32)
    requires
        c.tcb.rcv_nxt == s.tcb.nxt,
        c.tcb.rcv_wnd == 1024,
        c.tcb.ts_enabled && s.tcb.ts_enabled,
        !crate::seq::is_before(c.tcb.ts_val, s.tcb.ts_recent),
        s.tcb.state == State::SynRcvd,
        s.tcb.snd_wscale == 0,
        s.tcb.max_snd_wnd == 1024,
        !s.tcb.peer_fin && s.tcb.pending_fin is None,
        s.reasm.frags == Map::<u32, Seq<u8>>::empty(),
        crate::tcp::retx::acked_to(s.retx, s.tcb.nxt).segments == Seq::<
            crate::tcp::retx::Segment,
        >::empty(),
    ensures
        ({
            let (s1, reply) = arrived(s, crate::tcp::model::bare_ack(c.tcb), now_ms, draw);
            &&& reply is None
            &&& at_rest(s1)
            &&& s1.tcb.nxt == s.tcb.nxt && s1.tcb.rcv_nxt == s.tcb.rcv_nxt
            &&& s1.tcb.local == s.tcb.local && s1.tcb.remote == s.tcb.remote
            &&& s1.tcb.ts_enabled
            &&& s1.tcb.sack_ok == s.tcb.sack_ok
            &&& s1.tcb.send_mss == s.tcb.send_mss
        }),
{
    lemma_flag_bits();
    lemma_unscaled(1024);
    lemma_segment_arrives(c.tcb, c.tcb.nxt, c.tcb.rcv_nxt, ACK, Seq::empty());
}

/// The three-way handshake: a SYN answered with a SYN-ACK answered with an ACK brings both ends to
/// ESTABLISHED. Each expects exactly the sequence number the other sends next, nothing is left
/// unacknowledged, and both have agreed on timestamps, SACK and the full segment size. The two
/// ends may start at any numbers and run on different clocks; the client's answer must follow its
/// SYN by less than half the range of its timestamp clock.
pub proof fn law_handshake_establishes_both_ends(
    client: Endpoint,
    server: Endpoint,
    client_iss: u32,
    server_iss: u32,
    client_draw: u32,
    server_draw: u32,
    syn_ms: u64,
    synack_ms: u64,
    ack_ms: u64,
    done_ms: u64,
)
    requires
        syn_ms <= ack_ms,
        ack_ms - syn_ms < 0x8000_0000,
    ensures
        ({
            let (c0, syn) = crate::tcp::model::connecting(
                client,
                server,
                client_iss,
                client_draw,
                syn_ms,
            );
            let opening = crate::tcp::arrival::segment_in(syn);
            let seg = opening->0;
            let (s0, synack) = crate::tcp::model::accepted(
                seg.quad.remote.0,
                seg.quad.local.0,
                seg.th,
                seg.opts,
                server_iss,
                server_draw,
                synack_ms,
            );
            let (c1, ack) = arrived(c0, synack, ack_ms, client_draw);
            let (s1, reply) = arrived(s0, ack->0, done_ms, server_draw);
            &&& opening is Some && ack is Some && reply is None
            &&& established_pair(c1, s1)
            &&& c1.tcb.local == client && c1.tcb.remote == server
            &&& s1.tcb.local == server && s1.tcb.remote == client
            &&& c1.tcb.ts_enabled && s1.tcb.ts_enabled
            &&& c1.tcb.sack_ok && s1.tcb.sack_ok
            &&& c1.tcb.send_mss == 1460 && s1.tcb.send_mss == 1460
        }),
{
    let (c0, syn) = crate::tcp::model::connecting(client, server, client_iss, client_draw, syn_ms);
    lemma_syn_arrives(client, server, client_iss, client_draw, syn_ms);
    let seg = crate::tcp::arrival::segment_in(syn)->0;
    lemma_synack_arrives(seg, server_iss, server_draw, synack_ms);
    let (s0, synack) = crate::tcp::model::accepted(
        seg.quad.remote.0,
        seg.quad.local.0,
        seg.th,
        seg.opts,
        server_iss,
        server_draw,
        synack_ms,
    );
    lemma_flag_bits();
    lemma_lone_segment_acked(client_iss, syn, syn_ms);
    let (c1, ack) = arrived(c0, synack, ack_ms, client_draw);
    assert(at_rest(c1));
    lemma_clock_moves(syn_ms, ack_ms);
    lemma_lone_segment_acked(server_iss, synack, synack_ms);
    lemma_handshake_ack_arrives(c1, s0, done_ms, server_draw);
}

/// What is negotiated is what both can do: our segments are no larger than what we or the peer
/// accept, and timestamps, scaling and SACK are on exactly if the peer's SYN offered them.
pub proof fn law_passive_open_adopts_the_offer(
    peer: Endpoint,
    us: Endpoint,
    th: TcpHeader,
    opts: crate::tcp::options::OptionSet,
    iss: u32,
    draw: u32,
    now_ms: u64,
)
    ensures
        ({
            let t = crate::tcp::model::accepted(peer.0, us.0, th, opts, iss, draw, now_ms).0.tcb;
            &&& t.send_mss <= 1460
            &&& opts.mss is Some ==> t.send_mss <= opts.mss->0
            &&& t.ts_enabled == (opts.timestamps is Some)
            &&& t.sack_ok == opts.sack_permitted
            &&& opts.window_scale is None ==> t.snd_wscale == 0
            &&& opts.window_scale is Some ==> t.snd_wscale == opts.window_scale->0
        }),
{
}

/// The peer's window is its window field times two to the power of its shift.
pub proof fn law_window_is_scaled(
    t: Tcb,
    th: TcpHeader,
    opts: crate::tcp::options::OptionSet,
)
    requires
        t.snd_wscale <= 14,
    ensures
        crate::tcp::model::window_updated(t, th, opts).snd_wnd == th.window
            * vstd::arithmetic::power2::pow2(t.snd_wscale as nat),
{
    let shift = t.snd_wscale as u32;
    vstd::arithmetic::power2::lemma2_to64();
    if t.snd_wscale < 14 {
        vstd::arithmetic::power2::lemma_pow2_strictly_increases(t.snd_wscale as nat, 14);
    }
    let scale = vstd::arithmetic::power2::pow2(t.snd_wscale as nat);
    assert(th.window * scale <= 0xffff * 0x4000) by (nonlinear_arith)
        requires
            th.window <= 0xffff,
            0 <= scale <= 0x4000,
    ;
    vstd::bits::lemma_u32_shl_is_mul(th.window as u32, shift);
}

// ---- Receiving ----

/// What `c` has received is the beginning of `stream`: the first `taken` bytes went to the
/// application, the receive buffer holds those that follow, and whatever is buffered out of order
/// holds the stream's bytes at their places. A FIN is only known where the stream ends.
#[verifier::opaque]
pub open spec fn follows(c: Conn, stream: Seq<u8>, taken: int) -> bool {
    let have = taken + c.recv_buf.len();
    &&& 0 <= taken && have <= stream.len() < 0xffff_ffff
    &&& c.recv_buf == stream.subrange(taken, have)
    &&& c.reasm.frags.dom().finite() && crate::reassembly::agrees(c.reasm.frags, stream)
    &&& c.tcb.pending_fin is Some ==> c.tcb.pending_fin == Some(
        crate::seq::advance(c.reasm.base, stream.len() as int),
    )
    &&& if c.tcb.peer_fin {
        have == stream.len() && c.tcb.rcv_nxt == crate::seq::advance(c.reasm.base, have + 1)
    } else {
        c.tcb.rcv_nxt == crate::seq::advance(c.reasm.base, have)
    }
}

/// A segment of `stream`, whose first byte has the number `base`: its data are the stream's bytes
/// at its place, and a FIN stands where the stream ends.
pub open spec fn part_of(th: TcpHeader, payload: Seq<u8>, base: u32, stream: Seq<u8>) -> bool {
    let off = crate::seq::distance(base, th.seq);
    &&& off + payload.len() <= stream.len()
    &&& payload == stream.subrange(off, off + payload.len())
    &&& th.flags & FIN != 0 ==> off + payload.len() == stream.len()
}

/// Taking in data keeps to the stream.
proof fn lemma_absorbing_follows(c: Conn, th: TcpHeader, payload: Seq<u8>, stream: Seq<u8>, taken: int)
    requires
        follows(c, stream, taken),
        part_of(th, payload, c.reasm.base, stream),
    ensures
        follows(crate::tcp::model::absorbed(c, th.seq, payload), stream, taken),
        crate::tcp::model::absorbed(c, th.seq, payload).reasm.base == c.reasm.base,
{
    reveal(follows);
    let base = c.reasm.base;
    let have = taken + c.recv_buf.len();
    let off = crate::seq::distance(base, th.seq) as u32;
    assert(th.seq == base.wrapping_add(off));
    if c.tcb.peer_fin {
        crate::reassembly::law_duplicates_are_dropped(c.reasm, th.seq, payload, c.tcb.rcv_nxt);
        assert(c.recv_buf + Seq::<u8>::empty() =~= c.recv_buf);
    } else {
        assert(c.tcb.rcv_nxt == base.wrapping_add(have as u32));
        crate::reassembly::law_delivers_the_stream(c.reasm, stream, off, payload, have as u32);
        let out = crate::reassembly::delivered(c.reasm, th.seq, payload, c.tcb.rcv_nxt);
        assert(c.recv_buf + out =~= stream.subrange(taken, have + out.len()));
        crate::seq::law_advance_adds_up(base, have, out.len() as int);
    }
}

/// The receive side of two connections is the same.
pub open spec fn same_receive_side(a: Conn, b: Conn) -> bool {
    &&& a.recv_buf == b.recv_buf && a.reasm == b.reasm
    &&& a.tcb.rcv_nxt == b.tcb.rcv_nxt && a.tcb.peer_fin == b.tcb.peer_fin
    &&& a.tcb.pending_fin == b.tcb.pending_fin
}

/// Only the receive side counts.
proof fn lemma_same_side_follows(a: Conn, b: Conn, stream: Seq<u8>, taken: int)
    requires
        follows(b, stream, taken),
        same_receive_side(a, b),
    ensures
        follows(a, stream, taken),
{
    reveal(follows);
}

/// The FIN of a segment of the stream stands where the stream ends.
proof fn lemma_fin_stands_at_the_end(th: TcpHeader, payload: Seq<u8>, base: u32, stream: Seq<u8>)
    requires
        part_of(th, payload, base, stream),
        th.flags & FIN != 0,
    ensures
        crate::tcp::model::fin_seq(th, payload.len() as int) == crate::seq::advance(
            base,
            stream.len() as int,
        ),
{
    let off = crate::seq::distance(base, th.seq);
    crate::seq::law_distance_advance(base, th.seq, 0);
    crate::seq::law_advance_adds_up(base, off, payload.len() as int);
}

/// A FIN that is in order is where the stream ends, so consuming it keeps to the stream.
proof fn lemma_consuming_fin_follows(c: Conn, state: State, stream: Seq<u8>, taken: int)
    requires
        follows(c, stream, taken),
        c.tcb.rcv_nxt == crate::seq::advance(c.reasm.base, stream.len() as int),
    ensures
        follows(
            (Conn { tcb: crate::tcp::model::fin_consumed(c.tcb), ..c }),
            stream,
            taken,
        ),
        follows(
            (Conn {
                tcb: (Tcb {
                    state,
                    pending_fin: None,
                    ..crate::tcp::model::fin_consumed(c.tcb)
                }),
                ..c
            }),
            stream,
            taken,
        ),
{
    reveal(follows);
    let base = c.reasm.base;
    let have = taken + c.recv_buf.len();
    crate::seq::law_distance_advance(base, base, have);
    crate::seq::law_distance_advance(base, base, stream.len() as int);
    if c.tcb.peer_fin {
        crate::seq::law_distance_advance(base, base, have + 1);
        assert(false);
    }
    assert(have == stream.len());
}

/// Noting a FIN keeps to the stream.
proof fn lemma_noting_fin_follows(c: Conn, th: TcpHeader, payload: Seq<u8>, stream: Seq<u8>, taken: int)
    requires
        follows(c, stream, taken),
        part_of(th, payload, c.reasm.base, stream),
    ensures
        follows(
            (Conn {
                tcb: crate::tcp::model::fin_noted(c.tcb, th, payload.len() as int),
                ..c
            }),
            stream,
            taken,
        ),
{
    reveal(follows);
    if th.flags & FIN != 0 {
        lemma_fin_stands_at_the_end(th, payload, c.reasm.base, stream);
    }
}

proof fn lemma_data_step_follows(c: Conn, th: TcpHeader, payload: Seq<u8>, stream: Seq<u8>, taken: int)
    requires
        follows(c, stream, taken),
        part_of(th, payload, c.reasm.base, stream),
    ensures
        follows(crate::tcp::model::data_step(c, th, payload).0, stream, taken),
        crate::tcp::model::data_step(c, th, payload).0.reasm.base == c.reasm.base,
{
    lemma_absorbing_follows(c, th, payload, stream, taken);
    let c1 = if payload.len() > 0 {
        crate::tcp::model::absorbed(c, th.seq, payload)
    } else {
        c
    };
    lemma_noting_fin_follows(c1, th, payload, stream, taken);
    let c2 = Conn {
        tcb: crate::tcp::model::fin_noted(c1.tcb, th, payload.len() as int),
        ..c1
    };
    if c2.tcb.pending_fin == Some(c2.tcb.rcv_nxt) {
        assert(c2.tcb.rcv_nxt == crate::seq::advance(c2.reasm.base, stream.len() as int)) by {
            reveal(follows);
        }
        lemma_consuming_fin_follows(c2, State::CloseWait, stream, taken);
    }
}

/// Whatever the segments of the peer's stream, in whatever order, cut, repeated or overlapping:
/// what has been delivered stays the stream's beginning, byte for byte, in every state past
/// SYN_SENT.
pub proof fn law_receiver_follows_the_stream(
    c: Conn,
    th: TcpHeader,
    payload: Seq<u8>,
    opts: crate::tcp::options::OptionSet,
    now_ms: u64,
    draw: u32,
    stream: Seq<u8>,
    taken: int,
)
    requires
        c.tcb.state != State::SynSent,
        follows(c, stream, taken),
        part_of(th, payload, c.reasm.base, stream),
    ensures
        follows(
            crate::tcp::model::segment_step(c, th, payload, opts, now_ms, draw).0,
            stream,
            taken,
        ),
        crate::tcp::model::segment_step(c, th, payload, opts, now_ms, draw).0.reasm.base
            == c.reasm.base,
{
    let c0 = Conn { tcb: crate::tcp::model::touched(c.tcb, now_ms), ..c };
    lemma_same_side_follows(c0, c, stream, taken);
    let c1 = if c0.tcb.state == State::SynRcvd {
        crate::tcp::model::handshake_completed(c0, th)
    } else {
        c0
    };
    lemma_same_side_follows(c1, c, stream, taken);
    lemma_same_side_follows(crate::tcp::model::in_state(c0, State::Closed), c, stream, taken);
    let challenged = crate::tcp::model::challenged(c0, now_ms, draw).0;
    lemma_same_side_follows(challenged, c, stream, taken);
    lemma_synchronized_step_follows(c1, th, payload, opts, now_ms, draw, stream, taken);
}

proof fn lemma_synchronized_step_follows(
    c: Conn,
    th: TcpHeader,
    payload: Seq<u8>,
    opts: crate::tcp::options::OptionSet,
    now_ms: u64,
    draw: u32,
    stream: Seq<u8>,
    taken: int,
)
    requires
        follows(c, stream, taken),
        part_of(th, payload, c.reasm.base, stream),
    ensures
        follows(
            crate::tcp::model::synchronized_step(c, th, payload, opts, now_ms, draw).0,
            stream,
            taken,
        ),
        crate::tcp::model::synchronized_step(c, th, payload, opts, now_ms, draw).0.reasm.base
            == c.reasm.base,
{
    match c.tcb.state {
        State::Established | State::CloseWait => {
            lemma_open_step_follows(c, th, payload, opts, now_ms, draw, stream, taken);
        },
        State::FinWait1 => {
            lemma_fin_wait1_follows(c, th, payload, now_ms, stream, taken);
        },
        State::FinWait2 => {
            lemma_fin_wait2_follows(c, th, payload, now_ms, stream, taken);
        },
        State::LastAck => {
            let c1 = crate::tcp::model::last_ack_step(c, th).0;
            lemma_same_side_follows(c1, c, stream, taken);
        },
        State::Closing => {
            let c1 = crate::tcp::model::closing_step(c, th, now_ms).0;
            lemma_same_side_follows(c1, c, stream, taken);
        },
        _ => {},
    }
}

proof fn lemma_open_step_follows(
    c: Conn,
    th: TcpHeader,
    payload: Seq<u8>,
    opts: crate::tcp::options::OptionSet,
    now_ms: u64,
    draw: u32,
    stream: Seq<u8>,
    taken: int,
)
    requires
        follows(c, stream, taken),
        part_of(th, payload, c.reasm.base, stream),
    ensures
        follows(
            crate::tcp::model::open_step(c, th, payload, opts, now_ms, draw).0,
            stream,
            taken,
        ),
        crate::tcp::model::open_step(c, th, payload, opts, now_ms, draw).0.reasm.base
            == c.reasm.base,
{
    let c1 = Conn { tcb: crate::tcp::model::window_updated(c.tcb, th, opts), ..c };
    let c2 = crate::tcp::model::ack_step(
        c1,
        th,
        payload.len() as int,
        opts,
        c.tcb.snd_wnd,
        now_ms,
    ).0;
    let c3 = crate::tcp::model::challenged(c, now_ms, draw).0;
    lemma_same_side_follows(c1, c, stream, taken);
    lemma_same_side_follows(c2, c, stream, taken);
    lemma_same_side_follows(c3, c, stream, taken);
    lemma_data_step_follows(c1, th, payload, stream, taken);
    lemma_data_step_follows(c2, th, payload, stream, taken);
}

proof fn lemma_fin_wait1_follows(
    c: Conn,
    th: TcpHeader,
    payload: Seq<u8>,
    now_ms: u64,
    stream: Seq<u8>,
    taken: int,
)
    requires
        follows(c, stream, taken),
        part_of(th, payload, c.reasm.base, stream),
    ensures
        follows(crate::tcp::model::fin_wait1_step(c, th, payload, now_ms).0, stream, taken),
        crate::tcp::model::fin_wait1_step(c, th, payload, now_ms).0.reasm.base == c.reasm.base,
{
    let c1 = if crate::tcp::model::acks_our_fin(c.tcb, th) {
        crate::tcp::model::fin_acked(c, th.ack)
    } else {
        c
    };
    lemma_same_side_follows(c1, c, stream, taken);
    lemma_absorbing_follows(c1, th, payload, stream, taken);
    let c2 = if payload.len() > 0 {
        crate::tcp::model::absorbed(c1, th.seq, payload)
    } else {
        c1
    };
    let end = crate::tcp::model::fin_wait1_step(c, th, payload, now_ms).0;
    if crate::tcp::model::fin_in_order(c2.tcb, th, payload.len() as int) {
        lemma_fin_stands_at_the_end(th, payload, c.reasm.base, stream);
        lemma_consuming_fin_follows(c2, State::Closing, stream, taken);
        let c3 = Conn { tcb: crate::tcp::model::fin_consumed(c2.tcb), ..c2 };
        lemma_same_side_follows(end, c3, stream, taken);
    } else {
        lemma_same_side_follows(end, c2, stream, taken);
    }
}

proof fn lemma_fin_wait2_follows(
    c: Conn,
    th: TcpHeader,
    payload: Seq<u8>,
    now_ms: u64,
    stream: Seq<u8>,
    taken: int,
)
    requires
        follows(c, stream, taken),
        part_of(th, payload, c.reasm.base, stream),
    ensures
        follows(crate::tcp::model::fin_wait2_step(c, th, payload, now_ms).0, stream, taken),
        crate::tcp::model::fin_wait2_step(c, th, payload, now_ms).0.reasm.base == c.reasm.base,
{
    lemma_absorbing_follows(c, th, payload, stream, taken);
    let c1 = if payload.len() > 0 {
        crate::tcp::model::absorbed(c, th.seq, payload)
    } else {
        c
    };
    if crate::tcp::model::fin_in_order(c1.tcb, th, payload.len() as int) {
        lemma_fin_stands_at_the_end(th, payload, c.reasm.base, stream);
        lemma_consuming_fin_follows(c1, State::TimeWait, stream, taken);
        let c2 = Conn { tcb: crate::tcp::model::fin_consumed(c1.tcb), ..c1 };
        let end = crate::tcp::model::fin_wait2_step(c, th, payload, now_ms).0;
        lemma_same_side_follows(end, c2, stream, taken);
    }
}

/// Reading moves bytes from the receive buffer to the application and nothing else.
pub proof fn law_reading_takes_the_next_bytes(c: Conn, stream: Seq<u8>, taken: int)
    requires
        follows(c, stream, taken),
    ensures
        follows(
            (Conn { recv_buf: Seq::empty(), ..c }),
            stream,
            taken + c.recv_buf.len(),
        ),
        stream.subrange(0, taken) + c.recv_buf == stream.subrange(0, taken + c.recv_buf.len()),
{
    reveal(follows);
    let have = taken + c.recv_buf.len();
    assert(stream.subrange(have, have) =~= Seq::<u8>::empty());
    assert(stream.subrange(0, taken) + c.recv_buf =~= stream.subrange(0, have));
}

/// A new connection has received nothing of any stream yet.
pub proof fn law_new_connection_is_at_the_start(t: Tcb, stream: Seq<u8>)
    requires
        !t.peer_fin,
        t.pending_fin is None,
        stream.len() < 0xffff_ffff,
    ensures
        follows(crate::tcp::model::fresh_conn(t), stream, 0),
{
    reveal(follows);
    assert(stream.subrange(0, 0) =~= Seq::<u8>::empty());
}

// ---- Sending ----

/// The packets `out` carry exactly `data`, in order, from sequence number `start` on, in segments
/// of at least one byte and at most `mss`.
pub open spec fn carries(out: Seq<Seq<u8>>, start: u32, data: Seq<u8>, mss: u16) -> bool
    decreases out.len(),
{
    if out.len() == 0 {
        data.len() == 0
    } else {
        match crate::tcp::arrival::segment_in(out[0]) {
            Some(seg) => {
                let n = seg.payload.len() as int;
                &&& 0 < n <= mss && n <= data.len()
                &&& seg.th.seq == start
                &&& seg.payload == data.take(n)
                &&& carries(
                    out.drop_first(),
                    crate::seq::advance(start, n),
                    data.skip(n),
                    mss,
                )
            },
            None => false,
        }
    }
}

/// Packets that were there before stay in front.
pub proof fn lemma_flush_appends(c: Conn, now_ms: u64, out: Seq<Seq<u8>>)
    ensures
        crate::tcp::model::flushed(c, now_ms, out) == (
            crate::tcp::model::flushed(c, now_ms, Seq::empty()).0,
            out + crate::tcp::model::flushed(c, now_ms, Seq::empty()).1,
        ),
    decreases c.send_buf.len(),
{
    let none = Seq::<Seq<u8>>::empty();
    let n = crate::tcp::model::chunk(c, crate::tcp::model::usable(c) as int);
    if c.send_buf.len() > 0 && !crate::tcp::model::held_back(c, n, now_ms) && n > 0 {
        let c1 = crate::tcp::model::clocked(c, n, now_ms);
        let next = crate::tcp::model::sent(c1, n, PSH | ACK, now_ms);
        let p = crate::tcp::model::sent_packet(c1, n, PSH | ACK);
        lemma_flush_appends(next, now_ms, out.push(p));
        lemma_flush_appends(next, now_ms, none.push(p));
        let rest = crate::tcp::model::flushed(next, now_ms, none).1;
        assert(out.push(p) + rest =~= out + (none.push(p) + rest));
    } else {
        assert(out + none =~= out);
    }
}

/// How many bytes a flush sends.
pub open spec fn flush_len(c: Conn, now_ms: u64) -> int {
    c.send_buf.len() - crate::tcp::model::flushed(c, now_ms, Seq::empty()).0.send_buf.len()
}

/// Sending `n` bytes that fit moves them from what is usable to what is in flight.
proof fn lemma_sending_uses_the_window(c: Conn, n: int, now_ms: u64)
    requires
        0 < n <= crate::tcp::model::usable(c),
        n <= c.send_buf.len(),
    ensures
        ({
            let ready = crate::tcp::model::clocked(c, n, now_ms);
            let next = crate::tcp::model::sent(ready, n, PSH | ACK, now_ms);
            &&& crate::tcp::model::flight_size(next.tcb) == crate::tcp::model::flight_size(c.tcb)
                + n
            &&& crate::tcp::model::send_limit(next) == crate::tcp::model::send_limit(c)
            &&& crate::tcp::model::usable(next) == crate::tcp::model::usable(c) - n
            &&& next.send_buf == c.send_buf.skip(n)
            &&& next.tcb.nxt == crate::seq::advance(c.tcb.nxt, n)
            &&& next.tcb.send_mss == c.tcb.send_mss
            &&& next.cong == c.cong
            &&& next.tcb.snd_wscale == c.tcb.snd_wscale
            &&& same_receive_side(next, c)
        }),
{
}

/// One more segment in front.
proof fn lemma_carries_one_more(
    p: Seq<u8>,
    rest: Seq<Seq<u8>>,
    t: Tcb,
    buf: Seq<u8>,
    n: int,
    m: int,
)
    requires
        0 < n <= t.send_mss <= 1460,
        0 <= m,
        n + m <= buf.len(),
        p == crate::tcp::model::segment_bytes(t, t.nxt, t.rcv_nxt, PSH | ACK, buf.take(n)),
        carries(rest, crate::seq::advance(t.nxt, n), buf.skip(n).take(m), t.send_mss),
    ensures
        carries(Seq::empty().push(p) + rest, t.nxt, buf.take(n + m), t.send_mss),
{
    let out = Seq::empty().push(p) + rest;
    assert(out.drop_first() =~= rest);
    lemma_segment_arrives(t, t.nxt, t.rcv_nxt, PSH | ACK, buf.take(n));
    let data = buf.take(n + m);
    assert(data.take(n) =~= buf.take(n));
    assert(data.skip(n) =~= buf.skip(n).take(m));
}

/// The length of the next segment that a flush sends, and the state after it; 0 if it sends none.
pub open spec fn first_len(c: Conn, now_ms: u64) -> int {
    let n = crate::tcp::model::chunk(c, crate::tcp::model::usable(c) as int);
    if c.send_buf.len() > 0 && !crate::tcp::model::held_back(c, n, now_ms) && n > 0 {
        n
    } else {
        0
    }
}

/// The state after the first segment of a flush.
pub open spec fn after_first(c: Conn, now_ms: u64) -> Conn {
    let n = first_len(c, now_ms);
    crate::tcp::model::sent(crate::tcp::model::clocked(c, n, now_ms), n, PSH | ACK, now_ms)
}

/// The first packet of a flush.
pub open spec fn first_packet(c: Conn, now_ms: u64) -> Seq<u8> {
    let n = first_len(c, now_ms);
    crate::tcp::model::sent_packet(crate::tcp::model::clocked(c, n, now_ms), n, PSH | ACK)
}

/// A flush is its first segment and the flush of the rest.
pub proof fn lemma_flush_unfolds(c: Conn, now_ms: u64)
    ensures
        ({
            let whole = crate::tcp::model::flushed(c, now_ms, Seq::empty());
            let next = after_first(c, now_ms);
            let rest = crate::tcp::model::flushed(next, now_ms, Seq::empty());
            let n = first_len(c, now_ms);
            if n == 0 {
                whole == (c, Seq::<Seq<u8>>::empty()) && flush_len(c, now_ms) == 0
            } else {
                &&& 0 < n <= c.send_buf.len()
                &&& n <= c.tcb.send_mss && n <= crate::tcp::model::usable(c)
                &&& next.send_buf == c.send_buf.skip(n)
                &&& whole.0 == rest.0
                &&& whole.1 == Seq::empty().push(first_packet(c, now_ms)) + rest.1
                &&& flush_len(c, now_ms) == n + flush_len(next, now_ms)
            }
        }),
{
    let n = first_len(c, now_ms);
    if n > 0 {
        lemma_flush_appends(
            after_first(c, now_ms),
            now_ms,
            Seq::empty().push(first_packet(c, now_ms)),
        );
    }
}

/// Outside recovery, transmission sends the application's bytes: the packets carry exactly the
/// next bytes of the send buffer, in order and without a gap from SND.NXT on; no segment exceeds
/// the negotiated size; what is sent leaves the buffer; and never more is in flight than both the
/// peer's window and the congestion window allow.
#[verifier::rlimit(40)]
pub proof fn law_flush_sends_the_next_bytes(c: Conn, now_ms: u64)
    requires
        c.wf(),
    ensures
        ({
            let (c1, out) = crate::tcp::model::flushed(c, now_ms, Seq::empty());
            let n = flush_len(c, now_ms);
            &&& 0 <= n <= c.send_buf.len()
            &&& carries(out, c.tcb.nxt, c.send_buf.take(n), c.tcb.send_mss)
            &&& c1.send_buf == c.send_buf.skip(n)
            &&& c1.tcb.nxt == crate::seq::advance(c.tcb.nxt, n)
            &&& n <= crate::tcp::model::usable(c)
            &&& crate::tcp::model::flight_size(c1.tcb) == crate::tcp::model::flight_size(c.tcb) + n
            &&& n > 0 ==> crate::tcp::model::flight_size(c1.tcb) <= crate::tcp::model::send_limit(c)
            &&& same_receive_side(c1, c)
        }),
    decreases c.send_buf.len(),
{
    let n = first_len(c, now_ms);
    let next = after_first(c, now_ms);
    lemma_flush_unfolds(c, now_ms);
    if n > 0 {
        lemma_sending_uses_the_window(c, n, now_ms);
        law_flush_sends_the_next_bytes(next, now_ms);
        let m = flush_len(next, now_ms);
        lemma_carries_one_more(
            first_packet(c, now_ms),
            crate::tcp::model::flushed(next, now_ms, Seq::empty()).1,
            crate::tcp::model::clocked(c, n, now_ms).tcb,
            c.send_buf,
            n,
            m,
        );
        assert(c.send_buf.skip(n).skip(m) =~= c.send_buf.skip(n + m));
        crate::seq::law_advance_adds_up(c.tcb.nxt, n, m);
    } else {
        assert(c.send_buf.take(0) =~= Seq::<u8>::empty());
        assert(c.send_buf.skip(0) =~= c.send_buf);
    }
}

// ---- From end to end ----

/// `s` after the packets arrived one after the other.
pub open spec fn fed(s: Conn, packets: Seq<Seq<u8>>, now_ms: u64, draw: u32) -> Conn
    decreases packets.len(),
{
    if packets.len() == 0 {
        s
    } else {
        fed(arrived(s, packets[0], now_ms, draw).0, packets.drop_first(), now_ms, draw)
    }
}

/// `s` is open, has everything `c` has sent so far, and has nothing in flight itself; the
/// timestamp `stamp` of `c` is not older than the last one `s` saw.
pub open spec fn hears(s: Conn, c: Conn, stamp: u32) -> bool {
    &&& s.tcb.state == State::Established
    &&& s.tcb.una == s.tcb.nxt
    &&& s.reasm.frags == Map::<u32, Seq<u8>>::empty()
    &&& !s.tcb.peer_fin && s.tcb.pending_fin is None
    &&& s.tcb.rcv_nxt == c.tcb.nxt && s.tcb.nxt == c.tcb.rcv_nxt
    &&& s.tcb.max_snd_wnd < 0x8000_0000 && s.tcb.snd_wscale <= 14
    &&& s.tcb.ts_enabled ==> c.tcb.ts_enabled && !crate::seq::is_before(stamp, s.tcb.ts_recent)
}

/// Into an empty buffer, data at RCV.NXT is delivered at once and nothing stays behind.
pub proof fn lemma_in_order_passes_through(b: crate::reassembly::Buffered, seq: u32, data: Seq<u8>)
    requires
        b.frags == Map::<u32, Seq<u8>>::empty(),
        data.len() > 0,
    ensures
        crate::reassembly::delivered(b, seq, data, seq) == data,
        crate::reassembly::received(b, seq, data, seq) == b,
{
    let off = seq.wrapping_sub(b.base);
    let frags = crate::reassembly::with_segment(b, seq, data, seq);
    assert(frags =~= Map::<u32, Seq<u8>>::empty().insert(off, data));
    assert(frags.remove(off) =~= b.frags);
    assert(frags.dom().finite());
    reveal_with_fuel(crate::reassembly::run_from, 2);
    reveal_with_fuel(crate::reassembly::after_run, 2);
    assert(data + Seq::<u8>::empty() =~= data);
}

/// The data of one segment arrives.
proof fn lemma_segment_is_heard(c: Conn, s: Conn, n: int, sent_ms: u64, now_ms: u64, draw: u32)
    requires
        hears(s, c, c.tcb.ts_val),
        0 < n <= c.send_buf.len(),
        n <= 1460,
    ensures
        ({
            let s1 = arrived(s, crate::tcp::model::sent_packet(c, n, PSH | ACK), now_ms, draw).0;
            &&& s1.recv_buf == s.recv_buf + c.send_buf.take(n)
            &&& hears(s1, crate::tcp::model::sent(c, n, PSH | ACK, sent_ms), c.tcb.ts_val)
        }),
{
    let data = c.send_buf.take(n);
    lemma_flag_bits();
    lemma_segment_arrives(c.tcb, c.tcb.nxt, c.tcb.rcv_nxt, PSH | ACK, data);
    lemma_in_order_passes_through(s.reasm, c.tcb.nxt, data);
    let window = c.tcb.rcv_wnd;
    let shift = s.tcb.snd_wscale;
    assert((window as u32) << (shift as u32) < 0x8000_0000) by (bit_vector)
        requires
            shift <= 14,
    ;
    let seg = crate::tcp::arrival::segment_in(
        crate::tcp::model::sent_packet(c, n, PSH | ACK),
    )->0;
    let s0 = Conn { tcb: crate::tcp::model::touched(s.tcb, now_ms), ..s };
    let s1 = Conn { tcb: crate::tcp::model::window_updated(s0.tcb, seg.th, seg.opts), ..s0 };
    assert(!crate::tcp::model::stale(s0.tcb, seg.opts));
    assert(crate::tcp::model::ack_acceptable(s0.tcb, seg.th));
    assert(crate::tcp::model::ack_step(
        s1,
        seg.th,
        n,
        seg.opts,
        s0.tcb.snd_wnd,
        now_ms,
    ) == (s1, None::<Seq<u8>>));
    let s2 = crate::tcp::model::absorbed(s1, seg.th.seq, seg.payload);
    assert(crate::tcp::model::segment_step(s, seg.th, seg.payload, seg.opts, now_ms, draw)
        == crate::tcp::model::data_step(s1, seg.th, seg.payload));
    assert(crate::tcp::model::data_step(s1, seg.th, seg.payload).0 == s2);
}

/// One more packet in front.
proof fn lemma_fed_one_more(s: Conn, p: Seq<u8>, rest: Seq<Seq<u8>>, now_ms: u64, draw: u32)
    ensures
        fed(s, Seq::empty().push(p) + rest, now_ms, draw) == fed(
            arrived(s, p, now_ms, draw).0,
            rest,
            now_ms,
            draw,
        ),
{
    let all = Seq::empty().push(p) + rest;
    assert(all[0] == p);
    assert(all.drop_first() =~= rest);
}

#[verifier::spinoff_prover]
#[verifier::rlimit(40)]
proof fn lemma_flush_is_heard(c: Conn, s: Conn, sent_ms: u64, now_ms: u64, draw: u32)
    requires
        c.wf(),
        hears(s, c, c.tcb.ts_val),
    ensures
        ({
            let (c1, out) = crate::tcp::model::flushed(c, sent_ms, Seq::empty());
            let s1 = fed(s, out, now_ms, draw);
            &&& s1.recv_buf == s.recv_buf + c.send_buf.take(flush_len(c, sent_ms))
            &&& hears(s1, c1, c.tcb.ts_val)
        }),
    decreases c.send_buf.len(),
{
    let n = first_len(c, sent_ms);
    let next = after_first(c, sent_ms);
    let p = first_packet(c, sent_ms);
    lemma_flush_unfolds(c, sent_ms);
    if n > 0 {
        let ready = crate::tcp::model::clocked(c, n, sent_ms);
        lemma_sending_uses_the_window(c, n, sent_ms);
        lemma_segment_is_heard(ready, s, n, sent_ms, now_ms, draw);
        let s1 = arrived(s, p, now_ms, draw).0;
        lemma_flush_is_heard(next, s1, sent_ms, now_ms, draw);
        law_flush_sends_the_next_bytes(next, sent_ms);
        let rest = crate::tcp::model::flushed(next, sent_ms, Seq::empty()).1;
        lemma_fed_one_more(s, p, rest, now_ms, draw);
        let m = flush_len(next, sent_ms);
        assert(s.recv_buf + c.send_buf.take(n) + c.send_buf.skip(n).take(m) =~= s.recv_buf
            + c.send_buf.take(n + m));
    } else {
        assert(s.recv_buf + c.send_buf.take(0) =~= s.recv_buf);
    }
}

/// Reliable transfer: between two ends in step, whatever one end transmits of the application's
/// bytes is what the other end's application will read, byte for byte and in order; and the two
/// ends are in step again.
pub proof fn law_what_is_sent_arrives(c: Conn, s: Conn, sent_ms: u64, now_ms: u64, draw: u32)
    requires
        c.wf(),
        crate::tcp::model::sends_data(c.tcb.state),
        !(c.tcb.sack_ok && c.cong.in_recovery()),
        hears(s, c, crate::tcp::model::clock_of(sent_ms)),
    ensures
        ({
            let (c1, out) = crate::tcp::model::transmit_step(c, sent_ms);
            let s1 = fed(s, out, now_ms, draw);
            let n = c.send_buf.len() - c1.send_buf.len();
            &&& 0 <= n
            &&& s1.recv_buf == s.recv_buf + c.send_buf.take(n)
            &&& c1.send_buf == c.send_buf.skip(n)
            &&& hears(s1, c1, crate::tcp::model::clock_of(sent_ms))
        }),
{
    let c0 = Conn { tcb: Tcb { ts_val: crate::tcp::model::clock_of(sent_ms), ..c.tcb }, ..c };
    law_flush_sends_the_next_bytes(c0, sent_ms);
    lemma_flush_is_heard(c0, s, sent_ms, now_ms, draw);
}

} // verus!
