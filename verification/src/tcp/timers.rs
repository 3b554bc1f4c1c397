//! When a connection sends and when it waits: Nagle's algorithm, closed windows, pacing,
//! retransmission, keepalive, and the timeouts that end idle states.
use vstd::prelude::*;

use crate::tcp::header::{State, TcpHeader, ACK};
use crate::tcp::model::{
    Conn, CLOSE_WAIT_TIMEOUT_MS, FIN_WAIT2_TIMEOUT_MS, KEEPALIVE_IDLE_MS, KEEPALIVE_INTVL_MS,
    KEEPALIVE_PROBES, TIME_WAIT_MS,
};

verus! {

/// Nagle's algorithm: while data is unacknowledged, less than a full segment is held back.
pub proof fn law_nagle_holds_small_writes(c: Conn, now_ms: u64, out: Seq<Seq<u8>>)
    requires
        c.tcb.nagle,
        crate::tcp::model::flight_size(c.tcb) > 0,
        c.send_buf.len() < c.tcb.send_mss,
    ensures
        crate::tcp::model::flushed(c, now_ms, out) == (c, out),
{
}

/// With nothing unacknowledged, or with Nagle's algorithm off, whatever the window and pacing allow
/// goes out at once.
pub proof fn law_nothing_else_holds_data_back(c: Conn, now_ms: u64)
    requires
        !c.tcb.nagle || crate::tcp::model::flight_size(c.tcb) == 0,
        !crate::tcp::model::paced(c) || now_ms >= c.tcb.next_send_ms,
        crate::tcp::model::usable(c) > 0,
        c.tcb.send_mss > 0,
        c.send_buf.len() > 0,
        c.wf(),
    ensures
        crate::tcp::laws::flush_len(c, now_ms) > 0,
{
    let none = Seq::<Seq<u8>>::empty();
    let n = crate::tcp::model::chunk(c, crate::tcp::model::usable(c) as int);
    let ready = crate::tcp::model::clocked(c, n, now_ms);
    let next = crate::tcp::model::sent(
        ready,
        n,
        crate::tcp::header::PSH | ACK,
        now_ms,
    );
    let p = crate::tcp::model::sent_packet(ready, n, crate::tcp::header::PSH | ACK);
    crate::tcp::laws::lemma_flush_appends(next, now_ms, none.push(p));
    crate::tcp::laws::law_flush_sends_the_next_bytes(next, now_ms);
}

/// Nothing is sent into a closed window.
pub proof fn law_closed_window_stops_data(c: Conn, now_ms: u64, out: Seq<Seq<u8>>)
    requires
        c.tcb.snd_wnd == 0,
    ensures
        crate::tcp::model::flushed(c, now_ms, out) == (c, out),
{
}

/// The persist timer breaks the deadlock of a lost window update: a stalled sender first arms it
/// one RTO ahead; before that it waits; then it probes with exactly the first byte it has, which
/// counts as sent.
pub proof fn law_closed_window_is_probed(c: Conn, now_ms: u64)
    requires
        crate::tcp::model::stalled(c),
    ensures
        ({
            let (c1, probe) = crate::tcp::model::persist_step(c, now_ms);
            &&& c.tcb.persist_ms == 0 ==> probe is None && c1.send_buf == c.send_buf
                && c1.tcb.persist_ms == crate::bbr::sat64(now_ms + c.tcb.rtt.rto_ms)
            &&& 0 < c.tcb.persist_ms && now_ms < c.tcb.persist_ms ==> probe is None && c1 == c
            &&& 0 < c.tcb.persist_ms <= now_ms ==> {
                let seg = crate::tcp::arrival::segment_in(probe->0);
                &&& probe is Some && seg is Some
                &&& (seg->0).payload == c.send_buf.take(1)
                &&& (seg->0).th.seq == c.tcb.nxt
                &&& c1.tcb.nxt == crate::seq::advance(c.tcb.nxt, 1)
                &&& c1.send_buf == c.send_buf.skip(1)
                &&& c1.tcb.persist_ms == 0
            }
        }),
{
    crate::tcp::laws::lemma_segment_arrives(
        c.tcb,
        c.tcb.nxt,
        c.tcb.rcv_nxt,
        ACK,
        c.send_buf.take(1),
    );
}

/// Pacing: before its time the next segment does not leave.
pub proof fn law_pacing_holds_data_back(c: Conn, now_ms: u64, out: Seq<Seq<u8>>)
    requires
        crate::tcp::model::paced(c),
        now_ms < c.tcb.next_send_ms,
    ensures
        crate::tcp::model::flushed(c, now_ms, out) == (c, out),
{
}

/// A connection that runs CUBIC is never paced.
pub proof fn law_cubic_is_not_paced(c: Conn)
    requires
        c.cong is Cubic,
    ensures
        !crate::tcp::model::paced(c),
{
}

/// Whatever is due is resent: the packet of every segment the peer does not hold, last sent at
/// least one RTO ago, is among those the tick sends; then the timeout backs off and the window
/// collapses.
pub proof fn law_due_segments_are_resent(c: Conn, i: int, now_ms: u64)
    requires
        0 <= i < c.retx.segments.len(),
        !c.retx.segments[i].sacked,
        crate::congestion::elapsed(now_ms, c.retx.segments[i].sent_at_ms) >= c.tcb.rtt.rto_ms,
    ensures
        ({
            let (c1, out) = crate::tcp::model::rto_step(c, now_ms);
            &&& out.contains(c.retx.segments[i].packet)
            &&& c1.retx.segments[i] == crate::tcp::retx::resent(c.retx.segments[i], now_ms)
            &&& c1.tcb.rtt == crate::rtt::backed_off(c.tcb.rtt)
            &&& c1.cong == c.cong.timed_out()
        }),
{
    let hit = crate::tcp::retx::is_due(now_ms, c.tcb.rtt.rto_ms);
    assert(hit(c.retx.segments[i]));
    lemma_picked_packets(c.retx.segments, hit, i);
}

pub proof fn lemma_picked_packets(
    segments: Seq<crate::tcp::retx::Segment>,
    hit: spec_fn(crate::tcp::retx::Segment) -> bool,
    i: int,
)
    requires
        0 <= i < segments.len(),
        hit(segments[i]),
    ensures
        crate::tcp::retx::packets_where(segments, hit).contains(segments[i].packet),
    decreases segments.len(),
{
    let short = segments.drop_last();
    let rest = crate::tcp::retx::packets_where(short, hit);
    let all = crate::tcp::retx::packets_where(segments, hit);
    if i == segments.len() - 1 {
        assert(all[rest.len() as int] == segments[i].packet);
    } else {
        lemma_picked_packets(short, hit, i);
        let k = choose|k: int| 0 <= k < rest.len() && rest[k] == segments[i].packet;
        assert(all[k] == segments[i].packet);
    }
}

/// Keepalive: an idle connection is probed with the number just before SND.NXT and no data, and is
/// given up when one more probe is due after the last one went unanswered.
pub proof fn law_keepalive_probes_then_gives_up(c: Conn, now_ms: u64)
    requires
        crate::tcp::model::idle(c),
        now_ms >= crate::tcp::model::next_probe_at(c.tcb),
    ensures
        ({
            let (c1, probe) = crate::tcp::model::keepalive_step(c, now_ms);
            let seg = crate::tcp::arrival::segment_in(probe->0);
            if c.tcb.keepalive_probes_sent >= KEEPALIVE_PROBES {
                c1.tcb.state == State::Closed && probe is None
            } else {
                &&& probe is Some && seg is Some
                &&& (seg->0).payload == Seq::<u8>::empty()
                &&& (seg->0).th.seq == c.tcb.nxt.wrapping_sub(1)
                &&& c1.tcb.keepalive_probes_sent == c.tcb.keepalive_probes_sent + 1
                &&& c1.tcb.state == c.tcb.state
            }
        }),
{
    crate::tcp::laws::lemma_segment_arrives(
        c.tcb,
        c.tcb.nxt.wrapping_sub(1),
        c.tcb.rcv_nxt,
        ACK,
        Seq::empty(),
    );
}

/// Anything that arrives proves the peer alive: the probe count and the idle time start over.
pub proof fn law_arrivals_restart_keepalive(
    c: Conn,
    th: TcpHeader,
    payload: Seq<u8>,
    opts: crate::tcp::options::OptionSet,
    now_ms: u64,
    draw: u32,
)
    ensures
        ({
            let c1 = crate::tcp::model::segment_step(c, th, payload, opts, now_ms, draw).0;
            c1.tcb.keepalive_probes_sent == 0 && c1.tcb.last_active_ms == now_ms
        }),
{
    let c0 = Conn { tcb: crate::tcp::model::touched(c.tcb, now_ms), ..c };
    let c1 = if c0.tcb.state == State::SynRcvd {
        crate::tcp::model::handshake_completed(c0, th)
    } else {
        c0
    };
    lemma_step_keeps_arrival_notes(c1, th, payload, opts, now_ms, draw);
}

#[verifier::rlimit(40)]
proof fn lemma_step_keeps_arrival_notes(
    c: Conn,
    th: TcpHeader,
    payload: Seq<u8>,
    opts: crate::tcp::options::OptionSet,
    now_ms: u64,
    draw: u32,
)
    ensures
        ({
            let c1 = crate::tcp::model::synchronized_step(c, th, payload, opts, now_ms, draw).0;
            c1.tcb.keepalive_probes_sent == c.tcb.keepalive_probes_sent && c1.tcb.last_active_ms
                == c.tcb.last_active_ms
        }),
{
    let c1 = Conn { tcb: crate::tcp::model::window_updated(c.tcb, th, opts), ..c };
    let c2 = crate::tcp::model::ack_step(
        c1,
        th,
        payload.len() as int,
        opts,
        c.tcb.snd_wnd,
        now_ms,
    ).0;
    assert(c2.tcb.keepalive_probes_sent == c.tcb.keepalive_probes_sent && c2.tcb.last_active_ms
        == c.tcb.last_active_ms);
    lemma_data_step_keeps_arrival_notes(c1, th, payload);
    lemma_data_step_keeps_arrival_notes(c2, th, payload);
}

proof fn lemma_data_step_keeps_arrival_notes(c: Conn, th: TcpHeader, payload: Seq<u8>)
    ensures
        ({
            let c1 = crate::tcp::model::data_step(c, th, payload).0;
            c1.tcb.keepalive_probes_sent == c.tcb.keepalive_probes_sent && c1.tcb.last_active_ms
                == c.tcb.last_active_ms
        }),
{
}

/// What a tick may close. TIME_WAIT ends after twice the maximum segment lifetime, FIN_WAIT_2 and
/// CLOSE_WAIT after their idle limits, and an idle connection with keepalive on once the last of its
/// probes has gone unanswered. A tick closes a connection in these cases, on time, and in no
/// other; it never changes the state in any other way.
pub proof fn law_a_tick_closes_what_is_over(c: Conn, now_ms: u64)
    requires
        c.wf(),
        c.tcb.state != State::Closed,
        c.tcb.last_active_ms + KEEPALIVE_IDLE_MS + KEEPALIVE_PROBES * KEEPALIVE_INTVL_MS
            <= u64::MAX,
    ensures
        ({
            let c1 = crate::tcp::model::tick_step(c, now_ms).0;
            let quiet = crate::congestion::elapsed(now_ms, c.tcb.last_active_ms);
            let over = match c.tcb.state {
                State::TimeWait => crate::congestion::elapsed(now_ms, c.tcb.time_wait_ms)
                    >= TIME_WAIT_MS,
                State::FinWait2 => quiet >= FIN_WAIT2_TIMEOUT_MS,
                State::CloseWait => quiet >= CLOSE_WAIT_TIMEOUT_MS,
                State::Established => {
                    &&& c.tcb.keepalive_enabled
                    &&& crate::tcp::model::flight_size(c.tcb) == 0 && c.send_buf.len() == 0
                    &&& c.tcb.keepalive_probes_sent == KEEPALIVE_PROBES
                    &&& quiet >= KEEPALIVE_IDLE_MS + KEEPALIVE_PROBES * KEEPALIVE_INTVL_MS
                },
                _ => false,
            };
            c1.tcb.state == (if over {
                State::Closed
            } else {
                c.tcb.state
            })
        }),
{
    let c0 = Conn { tcb: crate::tcp::model::clock_step(c.tcb, now_ms), ..c };
    let c1 = crate::tcp::model::rack_step(c0, now_ms).0;
    let c2 = crate::tcp::model::tlp_step(c1, now_ms).0;
    let c3 = crate::tcp::model::rto_step(c2, now_ms).0;
    let c4 = crate::tcp::model::persist_step(c3, now_ms).0;
    assert(c3.tcb.state == c0.tcb.state && c3.send_buf == c.send_buf);
    assert(crate::tcp::model::flight_size(c3.tcb) == crate::tcp::model::flight_size(c.tcb));
    assert(c4.tcb.state == c0.tcb.state);
    assert(c4.tcb.last_active_ms == c.tcb.last_active_ms && c4.tcb.keepalive_enabled
        == c.tcb.keepalive_enabled && c4.tcb.keepalive_probes_sent == c.tcb.keepalive_probes_sent);
    assert(crate::tcp::model::idle(c4) <==> crate::tcp::model::idle(c0)) by {
        if crate::tcp::model::stalled(c3) {
            assert(c3.tcb.nxt == c3.tcb.una);
            assert(c4.send_buf.len() > 0 || crate::tcp::model::flight_size(c4.tcb) == 1);
        }
    }
}

} // verus!
