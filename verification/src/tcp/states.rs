//! The state diagram of RFC 9293: which events move a connection from one state to the next, what
//! they acknowledge, and what they answer.
use vstd::prelude::*;

use crate::tcp::header::{State, TcpHeader, ACK, FIN, RST, SYN};
use crate::tcp::model::{Conn, Tcb};
use crate::tcp::packet::Endpoint;

verus! {

/// The segment acknowledges everything sent.
pub open spec fn acks_all(c: Conn, th: TcpHeader) -> bool {
    th.flags & ACK != 0 && th.ack == c.tcb.nxt
}

/// How many bytes more the application can read in `c1` than in `c`.
pub open spec fn gained(c: Conn, c1: Conn) -> int {
    c1.recv_buf.len() - c.recv_buf.len()
}

/// The segment ends with a FIN that comes next once `got` bytes have been delivered.
pub open spec fn fin_is_next(c: Conn, th: TcpHeader, payload_len: int, got: int) -> bool {
    th.flags & FIN != 0 && (th.seq + payload_len) % 0x1_0000_0000 == (c.tcb.rcv_nxt + got)
        % 0x1_0000_0000
}

proof fn lemma_syn_and_ack(flags: u8)
    ensures
        flags & (SYN | ACK) == (SYN | ACK) <==> flags & SYN != 0 && flags & ACK != 0,
{
    assert(flags & (0x02u8 | 0x10u8) == (0x02u8 | 0x10u8) <==> flags & 0x02u8 != 0 && flags & 0x10u8
        != 0) by (bit_vector);
}

/// Without a RST, an arriving segment moves a connection only along the diagram: the handshake
/// completes, the peer's FIN half-closes an open end, and the close goes on. It closes a connection
/// only from LAST_ACK, by the ACK of our FIN. A SYN moves nothing once the handshake is done.
pub proof fn law_segments_follow_the_diagram(
    c: Conn,
    th: TcpHeader,
    payload: Seq<u8>,
    opts: crate::tcp::options::OptionSet,
    now_ms: u64,
    draw: u32,
)
    requires
        th.flags & RST == 0,
    ensures
        ({
            let c1 = crate::tcp::model::segment_step(c, th, payload, opts, now_ms, draw).0;
            let next = c1.tcb.state;
            let syn = th.flags & SYN != 0;
            let fin = th.flags & FIN != 0 || c.tcb.pending_fin is Some;
            match c.tcb.state {
                State::SynSent => next == (if syn && acks_all(c, th) {
                    State::Established
                } else {
                    State::SynSent
                }),
                State::SynRcvd => if acks_all(c, th) {
                    next == State::Established || next == State::CloseWait && fin
                } else {
                    next == State::SynRcvd
                },
                State::Established => next == State::Established || next == State::CloseWait
                    && !syn && fin,
                State::LastAck => next == (if !syn && acks_all(c, th) {
                    State::Closed
                } else {
                    State::LastAck
                }),
                State::Closing => next == (if !syn && acks_all(c, th) {
                    State::TimeWait
                } else {
                    State::Closing
                }),
                State::FinWait1 => next != State::Closed && (syn ==> next == State::FinWait1),
                State::FinWait2 => next == State::FinWait2 || next == State::TimeWait && !syn
                    && th.flags & FIN != 0,
                _ => next == c.tcb.state,
            }
        }),
{
    lemma_syn_and_ack(th.flags);
    let c0 = Conn { tcb: crate::tcp::model::touched(c.tcb, now_ms), ..c };
    if c.tcb.state == State::SynRcvd {
        let c1 = crate::tcp::model::handshake_completed(c0, th);
        lemma_open_stays_open(c1, th, payload, opts, now_ms, draw);
    } else if crate::tcp::model::sends_data(c.tcb.state) {
        lemma_open_stays_open(c0, th, payload, opts, now_ms, draw);
    }
}

/// An open end stays open, or is half closed by a FIN, now or earlier.
proof fn lemma_open_stays_open(
    c: Conn,
    th: TcpHeader,
    payload: Seq<u8>,
    opts: crate::tcp::options::OptionSet,
    now_ms: u64,
    draw: u32,
)
    requires
        crate::tcp::model::sends_data(c.tcb.state),
    ensures
        ({
            let next = crate::tcp::model::open_step(c, th, payload, opts, now_ms, draw).0.tcb.state;
            &&& next == c.tcb.state || next == State::CloseWait
            &&& next != c.tcb.state ==> th.flags & FIN != 0 || c.tcb.pending_fin is Some
        }),
{
    let c1 = Conn { tcb: crate::tcp::model::window_updated(c.tcb, th, opts), ..c };
    let c2 = crate::tcp::model::ack_step(
        c1,
        th,
        payload.len() as int,
        opts,
        c.tcb.snd_wnd,
        now_ms,
    ).0;
    assert(c2.tcb.state == c.tcb.state && c2.tcb.pending_fin == c.tcb.pending_fin);
    lemma_data_stays_open(c1, th, payload);
    lemma_data_stays_open(c2, th, payload);
}

proof fn lemma_data_stays_open(c: Conn, th: TcpHeader, payload: Seq<u8>)
    requires
        crate::tcp::model::sends_data(c.tcb.state),
    ensures
        ({
            let next = crate::tcp::model::data_step(c, th, payload).0.tcb.state;
            &&& next == c.tcb.state || next == State::CloseWait
            &&& next != c.tcb.state ==> th.flags & FIN != 0 || c.tcb.pending_fin is Some
        }),
{
}

/// FIN_WAIT_1, exactly. What arrives is delivered. With the ACK of our FIN and the peer's own FIN
/// next in order the close is complete, and TIME_WAIT begins now; with the ACK alone it is half
/// done; with the FIN alone it is simultaneous; with neither nothing changes. A FIN, and data, are
/// answered with an ACK of all that was received; anything else is not answered.
pub proof fn law_fin_wait1_ends_by_ack_and_fin(
    c: Conn,
    th: TcpHeader,
    payload: Seq<u8>,
    opts: crate::tcp::options::OptionSet,
    now_ms: u64,
    draw: u32,
)
    requires
        c.tcb.state == State::FinWait1,
        th.flags & RST == 0,
        th.flags & SYN == 0,
    ensures
        ({
            let (c1, reply) = crate::tcp::model::segment_step(
                c,
                th,
                payload,
                opts,
                now_ms,
                draw,
            );
            let got = gained(c, c1);
            let ours = acks_all(c, th);
            let theirs = fin_is_next(c, th, payload.len() as int, got);
            let end = if theirs {
                1int
            } else {
                0
            };
            &&& got >= 0 && (payload.len() == 0 ==> got == 0)
            &&& c1.tcb.state == (if ours && theirs {
                State::TimeWait
            } else if ours {
                State::FinWait2
            } else if theirs {
                State::Closing
            } else {
                State::FinWait1
            })
            &&& ours && theirs ==> c1.tcb.time_wait_ms == now_ms
            &&& c1.tcb.rcv_nxt == (c.tcb.rcv_nxt + got + end) % 0x1_0000_0000
            &&& c1.tcb.peer_fin == (c.tcb.peer_fin || theirs)
            &&& reply == (if theirs || payload.len() > 0 {
                Some(crate::tcp::model::bare_ack(c1.tcb))
            } else {
                None
            })
        }),
{
}

/// FIN_WAIT_2, exactly: what arrives is delivered, and the peer's FIN, next in order, begins
/// TIME_WAIT now. Data and the FIN are answered with an ACK.
pub proof fn law_fin_wait2_ends_by_fin(
    c: Conn,
    th: TcpHeader,
    payload: Seq<u8>,
    opts: crate::tcp::options::OptionSet,
    now_ms: u64,
    draw: u32,
)
    requires
        c.tcb.state == State::FinWait2,
        th.flags & RST == 0,
        th.flags & SYN == 0,
    ensures
        ({
            let (c1, reply) = crate::tcp::model::segment_step(
                c,
                th,
                payload,
                opts,
                now_ms,
                draw,
            );
            let got = gained(c, c1);
            let theirs = fin_is_next(c, th, payload.len() as int, got);
            let end = if theirs {
                1int
            } else {
                0
            };
            &&& got >= 0 && (payload.len() == 0 ==> got == 0)
            &&& c1.tcb.state == (if theirs {
                State::TimeWait
            } else {
                State::FinWait2
            })
            &&& theirs ==> c1.tcb.time_wait_ms == now_ms
            &&& c1.tcb.rcv_nxt == (c.tcb.rcv_nxt + got + end) % 0x1_0000_0000
            &&& c1.tcb.peer_fin == (c.tcb.peer_fin || theirs)
            &&& reply == (if theirs || payload.len() > 0 {
                Some(crate::tcp::model::bare_ack(c1.tcb))
            } else {
                None
            })
        }),
{
}

/// The last steps of a close take no data: in CLOSING, LAST_ACK and TIME_WAIT nothing is delivered
/// and nothing is answered; CLOSING starts its TIME_WAIT clock when our FIN is acknowledged.
pub proof fn law_closing_states_only_wait(
    c: Conn,
    th: TcpHeader,
    payload: Seq<u8>,
    opts: crate::tcp::options::OptionSet,
    now_ms: u64,
    draw: u32,
)
    requires
        c.tcb.state == State::Closing || c.tcb.state == State::LastAck || c.tcb.state
            == State::TimeWait,
        th.flags & RST == 0,
        th.flags & SYN == 0,
    ensures
        ({
            let (c1, reply) = crate::tcp::model::segment_step(
                c,
                th,
                payload,
                opts,
                now_ms,
                draw,
            );
            &&& reply is None
            &&& c1.recv_buf == c.recv_buf && c1.reasm == c.reasm && c1.tcb.rcv_nxt == c.tcb.rcv_nxt
            &&& c1.tcb.nxt == c.tcb.nxt && c1.send_buf == c.send_buf
            &&& c.tcb.state == State::Closing && acks_all(c, th) ==> c1.tcb.time_wait_ms == now_ms
            &&& c.tcb.state == State::TimeWait ==> c1.tcb.time_wait_ms == c.tcb.time_wait_ms
        }),
{
}

/// Closing our side. From ESTABLISHED it leads to FIN_WAIT_1 and from CLOSE_WAIT to LAST_ACK: a FIN
/// goes out that takes the next number, acknowledges what was received, and is kept for
/// retransmission. From any other state nothing happens.
pub proof fn law_closing_sends_a_fin(c: Conn, now_ms: u64)
    ensures
        ({
            let (c1, fin) = crate::tcp::model::closed_by_us(c, now_ms);
            let seg = crate::tcp::arrival::segment_in(fin->0);
            let may = c.tcb.state == State::Established || c.tcb.state == State::CloseWait;
            &&& !may ==> c1 == c && fin is None
            &&& may ==> {
                &&& fin is Some && seg is Some
                &&& (seg->0).th.flags == FIN | ACK && (seg->0).th.seq == c.tcb.nxt
                &&& (seg->0).th.ack == c.tcb.rcv_nxt && (seg->0).payload.len() == 0
                &&& (seg->0).quad.remote == c.tcb.local && (seg->0).quad.local == c.tcb.remote
                &&& c1.tcb.nxt == (c.tcb.nxt + 1) % 0x1_0000_0000
                &&& c1.tcb.state == (if c.tcb.state == State::Established {
                    State::FinWait1
                } else {
                    State::LastAck
                })
                &&& c1.retx.segments == c.retx.segments.push(
                    crate::tcp::retx::Segment {
                        start_seq: c.tcb.nxt,
                        end_seq: c1.tcb.nxt,
                        packet: fin->0,
                        sent_at_ms: now_ms,
                        retries: 0,
                        sacked: false,
                    },
                )
                &&& c1.send_buf == c.send_buf && c1.recv_buf == c.recv_buf && c1.tcb.una
                    == c.tcb.una
            }
        }),
{
    let t = Tcb { ts_val: crate::tcp::model::clock_of(now_ms), ..c.tcb };
    crate::tcp::laws::lemma_segment_arrives(t, t.nxt, t.rcv_nxt, FIN | ACK, Seq::empty());
}

/// The first packet of an active open: a SYN with our number that offers a segment size of 1460,
/// scaling, timestamps and SACK. The connection waits in SYN_SENT with that number unacknowledged
/// and the SYN kept for retransmission.
pub proof fn law_active_open_sends_a_syn(
    local: Endpoint,
    remote: Endpoint,
    iss: u32,
    draw: u32,
    now_ms: u64,
)
    ensures
        ({
            let (c, syn) = crate::tcp::model::connecting(local, remote, iss, draw, now_ms);
            let seg = crate::tcp::arrival::segment_in(syn);
            &&& c.tcb.state == State::SynSent && c.tcb.local == local && c.tcb.remote == remote
            &&& c.tcb.una == iss && c.tcb.nxt == (iss + 1) % 0x1_0000_0000
            &&& c.tcb.nagle && !c.tcb.keepalive_enabled && c.cong is Cubic
            &&& c.send_buf.len() == 0 && c.recv_buf.len() == 0
            &&& seg is Some && (seg->0).th.flags == SYN && (seg->0).th.seq == iss
            &&& (seg->0).quad.remote == local && (seg->0).quad.local == remote
            &&& (seg->0).opts.mss == Some(1460u16) && (seg->0).opts.sack_permitted
            &&& (seg->0).opts.window_scale == Some(0u8)
            &&& is_fresh(c.tcb, draw, now_ms) && !c.tcb.sack_ok && !c.tcb.ts_enabled
            &&& c.tcb.send_mss == 1460 && c.tcb.rcv_nxt == 0 && c.tcb.snd_wscale == 0
            &&& (seg->0).opts.timestamps == Some(((now_ms % 0x1_0000_0000) as u32, 0u32))
            &&& c.retx.segments == seq![
                crate::tcp::retx::Segment {
                    start_seq: iss,
                    end_seq: c.tcb.nxt,
                    packet: syn,
                    sent_at_ms: now_ms,
                    retries: 0,
                    sacked: false,
                },
            ]
        }),
{
    let (c, syn) = crate::tcp::model::connecting(local, remote, iss, draw, now_ms);
    crate::tcp::laws::lemma_syn_arrives(local, remote, iss, draw, now_ms);
    assert(c.retx.segments =~= seq![c.retx.segments[0]]);
}

/// A passive open: the peer's number is taken, the SYN-ACK with our number acknowledges it and is
/// kept for retransmission, and the connection waits in SYN_RCVD. Our segments are as large as the
/// peer accepts, 1460 at most and if it does not say.
pub proof fn law_passive_open_answers_the_syn(
    peer: crate::addr::Ipv4Addr,
    us: crate::addr::Ipv4Addr,
    th: TcpHeader,
    opts: crate::tcp::options::OptionSet,
    iss: u32,
    draw: u32,
    now_ms: u64,
)
    ensures
        ({
            let (c, synack) = crate::tcp::model::accepted(peer, us, th, opts, iss, draw, now_ms);
            &&& c.tcb.state == State::SynRcvd
            &&& c.tcb.local == (us, th.dst_port) && c.tcb.remote == (peer, th.src_port)
            &&& c.tcb.una == iss && c.tcb.nxt == (iss + 1) % 0x1_0000_0000 && c.tcb.iss == iss
            &&& c.tcb.irs == th.seq && c.tcb.rcv_nxt == (th.seq + 1) % 0x1_0000_0000
            &&& c.reasm.base == c.tcb.rcv_nxt && c.reasm.frags == Map::<u32, Seq<u8>>::empty()
            &&& is_fresh(c.tcb, draw, now_ms) && c.tcb.sack_ok == opts.sack_permitted
            &&& c.tcb.ts_enabled == (opts.timestamps is Some)
            &&& c.tcb.snd_wscale == (match opts.window_scale {
                Some(shift) => shift,
                None => 0,
            })
            &&& c.tcb.nagle && !c.tcb.keepalive_enabled && c.cong is Cubic
            &&& c.send_buf.len() == 0 && c.recv_buf.len() == 0
            &&& !c.tcb.peer_fin && c.tcb.pending_fin is None
            &&& c.tcb.send_mss == (match opts.mss {
                Some(m) if m < 1460 => m,
                _ => 1460,
            })
            &&& c.tcb.ts_recent == (match opts.timestamps {
                Some(ts) => ts.0,
                None => 0,
            })
            &&& c.retx.segments == seq![
                crate::tcp::retx::Segment {
                    start_seq: iss,
                    end_seq: c.tcb.nxt,
                    packet: synack,
                    sent_at_ms: now_ms,
                    retries: 0,
                    sacked: false,
                },
            ]
        }),
{
    let (c, synack) = crate::tcp::model::accepted(peer, us, th, opts, iss, draw, now_ms);
    assert(c.retx.segments =~= seq![c.retx.segments[0]]);
}

/// A connection rebuilt from a cookie is open: the cookie was our number and is acknowledged, the
/// peer's data begins behind its number, nothing is in flight, and nothing was negotiated but the
/// segment size.
pub proof fn law_cookie_connection_is_open(
    local: Endpoint,
    remote: Endpoint,
    peer_isn: u32,
    cookie: u32,
    send_mss: u16,
    draw: u32,
    now_ms: u64,
)
    ensures
        ({
            let c = crate::tcp::model::from_cookie(
                local,
                remote,
                peer_isn,
                cookie,
                send_mss,
                draw,
                now_ms,
            );
            let next = (cookie + 1) % 0x1_0000_0000;
            &&& c.tcb.state == State::Established
            &&& c.tcb.local == local && c.tcb.remote == remote
            &&& is_fresh(c.tcb, draw, now_ms)
            &&& c.tcb.una == next && c.tcb.nxt == next
            &&& c.tcb.rcv_nxt == (peer_isn + 1) % 0x1_0000_0000 && c.reasm.base == c.tcb.rcv_nxt
            &&& c.tcb.send_mss == (if send_mss < 1460 {
                send_mss
            } else {
                1460
            })
            &&& !c.tcb.ts_enabled && !c.tcb.sack_ok && c.tcb.snd_wscale == 0
            &&& c.retx.segments.len() == 0 && c.reasm.frags == Map::<u32, Seq<u8>>::empty()
            &&& c.send_buf.len() == 0 && c.recv_buf.len() == 0
            &&& !c.tcb.peer_fin && c.tcb.pending_fin is None
        }),
{
}

/// Our SYN is answered: what the SYN-ACK offers is adopted, its number is acknowledged with a bare
/// ACK, ours is no longer outstanding, and the stream begins behind the peer's number.
pub proof fn law_synack_completes_the_open(
    c: Conn,
    th: TcpHeader,
    payload: Seq<u8>,
    opts: crate::tcp::options::OptionSet,
    now_ms: u64,
    draw: u32,
)
    requires
        c.tcb.state == State::SynSent,
        th.flags & RST == 0,
        th.flags & SYN != 0,
        acks_all(c, th),
    ensures
        ({
            let (c1, reply) = crate::tcp::model::segment_step(
                c,
                th,
                payload,
                opts,
                now_ms,
                draw,
            );
            let t = c1.tcb;
            &&& t.state == State::Established && t.una == c.tcb.nxt && t.nxt == c.tcb.nxt
            &&& t.irs == th.seq && t.rcv_nxt == (th.seq + 1) % 0x1_0000_0000
            &&& c1.reasm.base == t.rcv_nxt && c1.reasm.frags == Map::<u32, Seq<u8>>::empty()
            &&& c1.recv_buf == c.recv_buf && c1.send_buf == c.send_buf && c1.cong == c.cong
            &&& opts.mss is Some ==> t.send_mss == (if opts.mss->0 < 1460 {
                opts.mss->0
            } else {
                1460
            })
            &&& opts.timestamps is Some ==> t.ts_enabled && t.ts_recent == (opts.timestamps->0).0
            &&& opts.window_scale is Some ==> t.snd_wscale == opts.window_scale->0
            &&& opts.mss is None ==> t.send_mss == c.tcb.send_mss
            &&& opts.timestamps is None ==> t.ts_enabled == c.tcb.ts_enabled && t.ts_recent
                == c.tcb.ts_recent
            &&& opts.window_scale is None ==> t.snd_wscale == c.tcb.snd_wscale
            &&& t.sack_ok == (c.tcb.sack_ok || opts.sack_permitted)
            &&& t.snd_wnd == c.tcb.snd_wnd && t.max_snd_wnd == c.tcb.max_snd_wnd && t.rtt
                == c.tcb.rtt
            &&& reply == Some(crate::tcp::model::bare_ack(t))
        }),
{
    lemma_syn_and_ack(th.flags);
}

/// An open end that is neither recovering from a loss nor one duplicate ACK away from it.
pub open spec fn is_calm(c: Conn) -> bool {
    match c.cong {
        crate::controller::ControllerState::Cubic(k) => !k.in_recovery && k.dup_acks != 2,
        crate::controller::ControllerState::Bbr(b) => b.model.dup_acks != 2,
    }
}

/// Data and FIN in ESTABLISHED and CLOSE_WAIT, exactly. What the segment completes is delivered and
/// RCV.NXT moves past it. A FIN not behind RCV.NXT is remembered, and honoured once everything
/// before it is there: RCV.NXT moves past it, and the end is half closed. Data and an honoured FIN
/// are answered with an ACK of all that was received; a FIN that was honoured before is
/// acknowledged again; anything else is not answered.
pub proof fn law_data_and_fin_are_taken_in_order(
    c: Conn,
    th: TcpHeader,
    payload: Seq<u8>,
    opts: crate::tcp::options::OptionSet,
    now_ms: u64,
    draw: u32,
)
    requires
        c.tcb.state == State::Established || c.tcb.state == State::CloseWait,
        th.flags & RST == 0,
        th.flags & SYN == 0,
        !crate::tcp::model::stale(c.tcb, opts),
        th.flags & ACK != 0 ==> crate::tcp::model::ack_acceptable(c.tcb, th),
        is_calm(c),
    ensures
        ({
            let (c1, reply) = crate::tcp::model::segment_step(
                c,
                th,
                payload,
                opts,
                now_ms,
                draw,
            );
            let got = gained(c, c1);
            let reached = (c.tcb.rcv_nxt + got) % 0x1_0000_0000;
            let at = (th.seq + payload.len()) % 0x1_0000_0000;
            let has_fin = th.flags & FIN != 0;
            let known = if has_fin && (at - reached) % 0x1_0000_0000 < 0x8000_0000 {
                Some(at as u32)
            } else {
                c.tcb.pending_fin
            };
            let open = c.tcb.state == State::Established;
            let honoured = open && known == Some(reached as u32);
            let again = !open && has_fin && (reached - at) % 0x1_0000_0000 < 0x8000_0000;
            &&& got >= 0 && (payload.len() == 0 ==> got == 0)
            &&& c1.tcb.state == (if honoured {
                State::CloseWait
            } else {
                c.tcb.state
            })
            &&& c1.tcb.rcv_nxt == (if honoured {
                (reached + 1) % 0x1_0000_0000
            } else {
                reached
            })
            &&& c1.tcb.peer_fin == (c.tcb.peer_fin || honoured)
            &&& reply is Some <==> payload.len() > 0 || honoured || again
            &&& honoured || again ==> reply == Some(crate::tcp::model::bare_ack(c1.tcb))
            &&& payload.len() > 0 && !honoured && !again ==> reply == Some(
                crate::tcp::model::data_ack(c1),
            )
        }),
{
    let c0 = Conn { tcb: crate::tcp::model::touched(c.tcb, now_ms), ..c };
    let c1 = Conn { tcb: crate::tcp::model::window_updated(c0.tcb, th, opts), ..c0 };
    let (c2, early) = if th.flags & ACK == 0 {
        (c1, None)
    } else {
        crate::tcp::model::ack_step(
            c1,
            th,
            payload.len() as int,
            opts,
            c0.tcb.snd_wnd,
            now_ms,
        )
    };
    assert(early is None);
    assert(crate::tcp::laws::same_receive_side(c2, c) && c2.tcb.state == c.tcb.state);
    assert(crate::tcp::model::segment_step(c, th, payload, opts, now_ms, draw)
        == crate::tcp::model::data_step(c2, th, payload));
    lemma_data_step_is_exact(c2, th, payload);
}

proof fn lemma_data_step_is_exact(c: Conn, th: TcpHeader, payload: Seq<u8>)
    requires
        c.tcb.state == State::Established || c.tcb.state == State::CloseWait,
    ensures
        ({
            let (c1, reply) = crate::tcp::model::data_step(c, th, payload);
            let got = gained(c, c1);
            let reached = (c.tcb.rcv_nxt + got) % 0x1_0000_0000;
            let at = (th.seq + payload.len()) % 0x1_0000_0000;
            let has_fin = th.flags & FIN != 0;
            let known = if has_fin && (at - reached) % 0x1_0000_0000 < 0x8000_0000 {
                Some(at as u32)
            } else {
                c.tcb.pending_fin
            };
            let open = c.tcb.state == State::Established;
            let honoured = open && known == Some(reached as u32);
            let again = !open && has_fin && (reached - at) % 0x1_0000_0000 < 0x8000_0000;
            &&& got >= 0 && (payload.len() == 0 ==> got == 0)
            &&& c1.tcb.state == (if honoured {
                State::CloseWait
            } else {
                c.tcb.state
            })
            &&& c1.tcb.rcv_nxt == (if honoured {
                (reached + 1) % 0x1_0000_0000
            } else {
                reached
            })
            &&& c1.tcb.peer_fin == (c.tcb.peer_fin || honoured)
            &&& reply is Some <==> payload.len() > 0 || honoured || again
            &&& honoured || again ==> reply == Some(crate::tcp::model::bare_ack(c1.tcb))
            &&& payload.len() > 0 && !honoured && !again ==> reply == Some(
                crate::tcp::model::data_ack(c1),
            )
        }),
{
    let out = if payload.len() > 0 {
        crate::reassembly::delivered(c.reasm, th.seq, payload, c.tcb.rcv_nxt)
    } else {
        Seq::empty()
    };
    let a = if payload.len() > 0 {
        crate::tcp::model::absorbed(c, th.seq, payload)
    } else {
        c
    };
    assert(a.recv_buf.len() == c.recv_buf.len() + out.len());
    let reached = (c.tcb.rcv_nxt + out.len()) % 0x1_0000_0000;
    assert(a.tcb.rcv_nxt == reached);
    let at = (th.seq + payload.len()) % 0x1_0000_0000;
    assert(crate::tcp::model::fin_seq(th, payload.len() as int) == at);
    assert(crate::seq::is_before(at as u32, reached as u32) <==> (at - reached) % 0x1_0000_0000
        >= 0x8000_0000);
}

/// A control block before anything was exchanged but numbers and options: windows of 1024 bytes on
/// both sides until the peer says otherwise, the smallest timeout, Nagle's algorithm on and keepalive
/// off, no timer running, and a challenge budget as drawn.
pub open spec fn is_fresh(t: Tcb, draw: u32, now_ms: u64) -> bool {
    &&& t.snd_wnd == 1024 && t.max_snd_wnd == 1024 && t.rcv_wnd == 1024
    &&& t.rtt.rto_ms == 200 && t.rtt.srtt_ms is None && t.rtt.rttvar_ms == 0
    &&& t.nagle && !t.keepalive_enabled && t.keepalive_probes_sent == 0
    &&& t.persist_ms == 0 && t.time_wait_ms == 0 && t.next_send_ms == 0
    &&& t.tlp_deadline_ms == 0 && !t.tlp_sent && t.recover == t.iss
    &&& !t.peer_fin && t.pending_fin is None
    &&& t.challenge_budget == 1 + draw as int % 5 && t.challenge_window_ms == now_ms
    &&& t.last_active_ms == now_ms && t.ts_val == now_ms % 0x1_0000_0000
}

/// A SYN-ACK confirms what was offered and nothing else: our segment size always, our window scale
/// if the peer offered its own, timestamps with the peer's echoed if it sent them, and SACK if it
/// permits it.
pub proof fn law_synack_confirms_the_offer(
    peer: crate::addr::Ipv4Addr,
    us: crate::addr::Ipv4Addr,
    th: TcpHeader,
    opts: crate::tcp::options::OptionSet,
    iss: u32,
    draw: u32,
    now_ms: u64,
)
    ensures
        ({
            let synack = crate::tcp::model::accepted(peer, us, th, opts, iss, draw, now_ms).1;
            let seg = crate::tcp::arrival::segment_in(synack);
            let r = seg->0;
            &&& seg is Some && r.payload.len() == 0
            &&& r.quad.remote == (us, th.dst_port) && r.quad.local == (peer, th.src_port)
            &&& r.th.flags == 0x12 && r.th.seq == iss && r.th.ack == (th.seq + 1) % 0x1_0000_0000
            &&& r.th.window == 1024
            &&& r.opts.mss == Some(1460u16) && r.opts.sack_permitted == opts.sack_permitted
            &&& r.opts.window_scale == (if opts.window_scale is Some {
                Some(0u8)
            } else {
                None
            })
            &&& r.opts.timestamps == (match opts.timestamps {
                Some(ts) => Some(((now_ms % 0x1_0000_0000) as u32, ts.0)),
                None => None,
            })
            &&& r.opts.sack_block_count == 0
        }),
{
    let c = crate::tcp::model::accepted(peer, us, th, opts, iss, draw, now_ms).0;
    let t = c.tcb;
    let scale = if opts.window_scale is Some {
        Some(0u8)
    } else {
        None
    };
    let stamps = if t.ts_enabled {
        Some((t.ts_val, t.ts_recent))
    } else {
        None
    };
    let options = crate::tcp::model::synack_options(t, opts.window_scale is Some);
    crate::tcp::options::law_handshake_options_read_back(1460, scale, stamps, t.sack_ok);
    assert(options =~= crate::tcp::options::mss_bytes(1460) + (match scale {
        Some(shift) => crate::tcp::options::ws_bytes(shift),
        None => Seq::empty(),
    }) + crate::tcp::options::stamped(stamps) + (if t.sack_ok {
        crate::tcp::options::sack_perm_bytes()
    } else {
        Seq::empty()
    }));
    assert(crate::tcp::packet::options_fit(options));
    assert(0x02u8 | 0x10u8 == 0x12u8) by (bit_vector);
    crate::tcp::arrival::law_packet_reads_back(
        t.local,
        t.remote,
        iss,
        t.rcv_nxt,
        0x12,
        t.rcv_wnd,
        options,
        Seq::empty(),
    );
}

/// The ACK of data acknowledges all that was received in order, carries both clocks if timestamps
/// are on, and, if SACK is on, the first three of the ranges that wait out of order.
pub proof fn law_data_acks_report_what_waits(c: Conn)
    ensures
        ({
            let seg = crate::tcp::arrival::segment_in(crate::tcp::model::data_ack(c));
            let r = seg->0;
            let ranges = crate::reassembly::sack_ranges(c.reasm);
            &&& seg is Some && r.payload.len() == 0
            &&& r.quad.remote == c.tcb.local && r.quad.local == c.tcb.remote
            &&& r.th.flags == 0x10 && r.th.seq == c.tcb.nxt && r.th.ack == c.tcb.rcv_nxt
            &&& r.th.window == c.tcb.rcv_wnd
            &&& r.opts.timestamps == (if c.tcb.ts_enabled {
                Some((c.tcb.ts_val, c.tcb.ts_recent))
            } else {
                None
            })
            &&& r.opts.blocks() == (if !c.tcb.sack_ok {
                Seq::empty()
            } else if ranges.len() > 3 {
                ranges.take(3)
            } else {
                ranges
            })
            &&& r.opts.mss is None && r.opts.window_scale is None && !r.opts.sack_permitted
        }),
{
    let t = c.tcb;
    let stamps = if t.ts_enabled {
        Some((t.ts_val, t.ts_recent))
    } else {
        None
    };
    let none = Seq::<(u32, u32)>::empty();
    let ranges = if t.sack_ok {
        crate::reassembly::sack_ranges(c.reasm)
    } else {
        none
    };
    let options = crate::tcp::model::ack_options(c);
    crate::tcp::options::law_sack_blocks_read_back(stamps, ranges);
    crate::tcp::options::lemma_edge_bytes_len(crate::tcp::options::first_blocks(ranges));
    assert(options =~= crate::tcp::options::stamped(stamps) + crate::tcp::options::sack_bytes(
        ranges,
    ));
    assert(crate::tcp::packet::options_fit(options));
    crate::tcp::arrival::law_packet_reads_back(
        t.local,
        t.remote,
        t.nxt,
        t.rcv_nxt,
        0x10,
        t.rcv_wnd,
        options,
        Seq::empty(),
    );
}

} // verus!
