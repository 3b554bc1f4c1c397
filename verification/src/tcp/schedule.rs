//! What leaves on a tick and on a transmission, over the whole of each: which timer resends what and
//! when, how much data goes out, and when the next wake-up is due.
use vstd::prelude::*;

use crate::tcp::header::State;
use crate::tcp::model::Conn;
use crate::tcp::retx::Segment;

verus! {

/// The sum, or the largest 64-bit number if it is more.
pub open spec fn capped(n: int) -> int {
    if n > 0xffff_ffff_ffff_ffff {
        0xffff_ffff_ffff_ffff
    } else {
        n
    }
}

/// How long before `now_ms` the time `then_ms` was; zero if it lies ahead.
pub open spec fn waited(now_ms: u64, then_ms: u64) -> int {
    if now_ms > then_ms {
        now_ms - then_ms
    } else {
        0
    }
}

/// Bytes in flight.
pub open spec fn in_flight(c: Conn) -> int {
    (c.tcb.nxt - c.tcb.una) % 0x1_0000_0000
}

/// The smaller of the peer's window and the controller's.
pub open spec fn window_of(c: Conn) -> int {
    if c.tcb.snd_wnd < c.cong.window() {
        c.tcb.snd_wnd as int
    } else {
        c.cong.window() as int
    }
}

/// `s` after one more transmission.
pub open spec fn sent_again(s: Segment, now_ms: u64) -> Segment {
    Segment {
        sent_at_ms: now_ms,
        retries: if s.retries == 0xffff_ffff {
            0xffff_ffff
        } else {
            (s.retries + 1) as u32
        },
        ..s
    }
}

/// RACK resends what was overtaken: not reported, sent before the latest arrival and sequenced below
/// it, and longer ago than a quarter of the RTO, one millisecond at least. Nothing but the queue
/// changes.
pub proof fn law_rack_resends_what_was_overtaken(c: Conn, now_ms: u64)
    ensures
        ({
            let (c1, out) = crate::tcp::model::rack_step(c, now_ms);
            let old = c.retx.segments;
            let reorder = if c.tcb.rtt.rto_ms >= 8 {
                c.tcb.rtt.rto_ms as int / 4
            } else {
                1
            };
            let hit = |s: Segment|
                !s.sacked && s.sent_at_ms < c.retx.rack_xmit_ts && 0 < (c.retx.rack_end_seq
                    - s.start_seq) % 0x1_0000_0000 <= 0x8000_0000 && now_ms > s.sent_at_ms
                    + reorder;
            &&& out == old.filter(hit).map_values(|s: Segment| s.packet)
            &&& c1 == (Conn { retx: c1.retx, ..c })
            &&& c1.retx.rack_xmit_ts == c.retx.rack_xmit_ts && c1.retx.rack_end_seq
                == c.retx.rack_end_seq
            &&& c1.retx.segments.len() == old.len()
            &&& forall|i: int|
                0 <= i < old.len() ==> (#[trigger] c1.retx.segments[i]) == (if hit(old[i]) {
                    sent_again(old[i], now_ms)
                } else {
                    old[i]
                })
        }),
{
    let old = c.retx.segments;
    let span = crate::tcp::model::max_u64((c.tcb.rtt.rto_ms / 4) as u64, 1);
    let own = crate::tcp::retx::is_overtaken(c.retx, now_ms, span);
    let reorder = if c.tcb.rtt.rto_ms >= 8 {
        c.tcb.rtt.rto_ms as int / 4
    } else {
        1
    };
    let hit = |s: Segment|
        !s.sacked && s.sent_at_ms < c.retx.rack_xmit_ts && 0 < (c.retx.rack_end_seq - s.start_seq)
            % 0x1_0000_0000 <= 0x8000_0000 && now_ms > s.sent_at_ms + reorder;
    assert(span == reorder);
    assert forall|s: Segment| own(s) == #[trigger] hit(s) by {
        crate::tcp::retx::law_what_timers_pick(c.retx, s, now_ms, span);
    }
    assert(own =~= hit);
    crate::tcp::retx::law_timers_resend_what_they_pick(old, own, now_ms);
}

/// The timeout resends what has waited an RTO since it was last sent and is not reported. If there
/// is anything, the timeout doubles and the controller hears of it, once; if not, nothing changes.
pub proof fn law_timeout_resends_what_has_waited(c: Conn, now_ms: u64)
    ensures
        ({
            let (c1, out) = crate::tcp::model::rto_step(c, now_ms);
            let old = c.retx.segments;
            let hit = |s: Segment|
                !s.sacked && waited(now_ms, s.sent_at_ms) >= c.tcb.rtt.rto_ms;
            &&& out == old.filter(hit).map_values(|s: Segment| s.packet)
            &&& c1.retx.rack_xmit_ts == c.retx.rack_xmit_ts && c1.retx.rack_end_seq
                == c.retx.rack_end_seq
            &&& c1.retx.segments.len() == old.len()
            &&& forall|i: int|
                0 <= i < old.len() ==> (#[trigger] c1.retx.segments[i]) == (if hit(old[i]) {
                    sent_again(old[i], now_ms)
                } else {
                    old[i]
                })
            &&& out.len() == 0 ==> c1 == (Conn { retx: c1.retx, ..c })
            &&& out.len() > 0 ==> c1 == (Conn {
                retx: c1.retx,
                cong: c.cong.timed_out(),
                tcb: crate::tcp::model::Tcb { rtt: c1.tcb.rtt, ..c.tcb },
                ..c
            }) && c1.tcb.rtt == (crate::rtt::RttEstimator { rto_ms: c1.tcb.rtt.rto_ms, ..c.tcb.rtt })
                && c1.tcb.rtt.rto_ms == (if c.tcb.rtt.rto_ms >= 30_000 {
                60_000
            } else {
                2 * c.tcb.rtt.rto_ms
            })
        }),
{
    let old = c.retx.segments;
    let own = crate::tcp::retx::is_due(now_ms, c.tcb.rtt.rto_ms);
    let hit = |s: Segment| !s.sacked && waited(now_ms, s.sent_at_ms) >= c.tcb.rtt.rto_ms;
    assert forall|s: Segment| own(s) == #[trigger] hit(s) by {
        crate::tcp::retx::law_what_timers_pick(c.retx, s, now_ms, c.tcb.rtt.rto_ms);
    }
    assert(own =~= hit);
    crate::tcp::retx::law_timers_resend_what_they_pick(old, own, now_ms);
}

/// The tail probe: past its deadline, with data in flight, outside recovery and not yet sent for
/// this tail, the last hole of the queue is resent and the deadline cleared. Otherwise nothing
/// happens.
pub proof fn law_tail_probe_resends_the_last_hole(c: Conn, now_ms: u64)
    ensures
        ({
            let (c1, probe) = crate::tcp::model::tlp_step(c, now_ms);
            let old = c.retx.segments;
            let due = 0 < c.tcb.tlp_deadline_ms <= now_ms && c.tcb.nxt != c.tcb.una
                && !c.cong.in_recovery() && !c.tcb.tlp_sent;
            &&& !due ==> c1 == c && probe is None
            &&& due ==> c1 == (Conn {
                tcb: crate::tcp::model::Tcb {
                    tlp_deadline_ms: 0,
                    tlp_sent: probe is Some,
                    ..c.tcb
                },
                retx: c1.retx,
                ..c
            })
            &&& due && (forall|j: int| 0 <= j < old.len() ==> (#[trigger] old[j]).sacked)
                ==> probe is None && c1.retx == c.retx
            &&& forall|i: int|
                due && 0 <= i < old.len() && !(#[trigger] old[i]).sacked && (forall|j: int|
                    i < j < old.len() ==> (#[trigger] old[j]).sacked) ==> probe == Some(
                    old[i].packet,
                ) && c1.retx == (crate::tcp::retx::Queue {
                    segments: old.update(i, sent_again(old[i], now_ms)),
                    ..c.retx
                })
        }),
{
    let old = c.retx.segments;
    let own = crate::tcp::retx::is_hole();
    let k = crate::tcp::retx::last_where(old, own);
    crate::tcp::retx::lemma_last_is_picked(old, own);
    crate::tcp::retx::lemma_none_behind_the_last(old, own);
    assert(c.tcb.nxt != c.tcb.una <==> crate::tcp::model::flight_size(c.tcb) > 0);
    assert forall|i: int|
        0 <= i < old.len() && !(#[trigger] old[i]).sacked && (forall|j: int|
            i < j < old.len() ==> (#[trigger] old[j]).sacked) implies i == k by {
        assert(own(old[i]));
        if k >= 0 {
            assert(own(old[k]));
        }
    }
    if forall|j: int| 0 <= j < old.len() ==> (#[trigger] old[j]).sacked {
        if 0 <= k < old.len() {
            assert(old[k].sacked);
        }
    }
}

/// The persist timer: with the window shut, data waiting and nothing in flight, the first tick arms
/// it an RTO ahead, later ones wait for it, and past it one byte is sent and queued. Otherwise it is
/// off and nothing is sent.
pub proof fn law_persist_timer(c: Conn, now_ms: u64)
    ensures
        ({
            let (c1, probe) = crate::tcp::model::persist_step(c, now_ms);
            let t = c.tcb;
            let stuck = (t.state == State::Established || t.state == State::CloseWait) && t.snd_wnd
                == 0 && c.send_buf.len() > 0 && t.nxt == t.una;
            let packet = crate::tcp::model::segment_bytes(
                t,
                t.nxt,
                t.rcv_nxt,
                0x10,
                seq![c.send_buf[0]],
            );
            if !stuck {
                probe is None && c1 == (Conn {
                    tcb: crate::tcp::model::Tcb { persist_ms: 0, ..t },
                    ..c
                })
            } else if t.persist_ms == 0 {
                probe is None && c1 == (Conn {
                    tcb: crate::tcp::model::Tcb {
                        persist_ms: capped(now_ms + t.rtt.rto_ms) as u64,
                        ..t
                    },
                    ..c
                })
            } else if now_ms < t.persist_ms {
                probe is None && c1 == c
            } else {
                probe == Some(packet) && c1 == (Conn {
                    tcb: crate::tcp::model::Tcb {
                        persist_ms: 0,
                        nxt: ((t.nxt + 1) % 0x1_0000_0000) as u32,
                        ..t
                    },
                    send_buf: c.send_buf.skip(1),
                    retx: crate::tcp::retx::Queue {
                        segments: c.retx.segments.push(
                            Segment {
                                start_seq: t.nxt,
                                end_seq: ((t.nxt + 1) % 0x1_0000_0000) as u32,
                                packet,
                                sent_at_ms: now_ms,
                                retries: 0,
                                sacked: false,
                            },
                        ),
                        ..c.retx
                    },
                    ..c
                })
            }
        }),
{
    assert(c.tcb.nxt == c.tcb.una <==> crate::tcp::model::flight_size(c.tcb) == 0);
    if c.send_buf.len() > 0 {
        assert(c.send_buf.take(1) =~= seq![c.send_buf[0]]);
    }
}

/// Keepalive: an established connection with it on and nothing to send or to be acknowledged is
/// probed after a minute of silence and then every five seconds, three times; when a fourth would be
/// due it is closed. Otherwise nothing happens.
pub proof fn law_keepalive_timer(c: Conn, now_ms: u64)
    requires
        c.wf(),
        c.tcb.last_active_ms <= u64::MAX - 100_000,
    ensures
        ({
            let (c1, probe) = crate::tcp::model::keepalive_step(c, now_ms);
            let t = c.tcb;
            let n = t.keepalive_probes_sent;
            let due = t.keepalive_enabled && t.state == State::Established && t.nxt == t.una
                && c.send_buf.len() == 0 && now_ms >= t.last_active_ms + 60_000 + 5_000 * n;
            &&& !due ==> c1 == c && probe is None
            &&& due && n >= 3 ==> probe is None && c1 == (Conn {
                tcb: crate::tcp::model::Tcb { state: State::Closed, ..t },
                ..c
            })
            &&& due && n < 3 ==> c1 == (Conn {
                tcb: crate::tcp::model::Tcb { keepalive_probes_sent: (n + 1) as u32, ..t },
                ..c
            }) && probe == Some(
                crate::tcp::model::segment_bytes(
                    c1.tcb,
                    ((t.nxt - 1) % 0x1_0000_0000) as u32,
                    t.rcv_nxt,
                    0x10,
                    Seq::empty(),
                ),
            )
        }),
{
    assert(c.tcb.nxt == c.tcb.una <==> crate::tcp::model::flight_size(c.tcb) == 0);
}

/// What is over ends on time: TIME_WAIT after four minutes, FIN_WAIT_2 after one minute without a
/// segment, CLOSE_WAIT after two. The clock goes on.
pub proof fn law_clock_ends_what_is_over(c: Conn, now_ms: u64)
    ensures
        ({
            let t = c.tcb;
            let t1 = crate::tcp::model::clock_step(t, now_ms);
            let over = (t.state == State::TimeWait && waited(now_ms, t.time_wait_ms) >= 240_000)
                || (t.state == State::FinWait2 && waited(now_ms, t.last_active_ms) >= 60_000) || (
            t.state == State::CloseWait && waited(now_ms, t.last_active_ms) >= 120_000);
            t1 == (crate::tcp::model::Tcb {
                ts_val: (now_ms % 0x1_0000_0000) as u32,
                state: if over {
                    State::Closed
                } else {
                    t.state
                },
                ..t
            })
        }),
{
}

/// A tick runs every timer once: what is overtaken, the tail probe, what has timed out, the window
/// probe and the keepalive probe leave in this order, and each timer sees what those before it did.
pub proof fn law_a_tick_runs_every_timer(c: Conn, now_ms: u64)
    ensures
        ({
            let c0 = Conn { tcb: crate::tcp::model::clock_step(c.tcb, now_ms), ..c };
            let rack = crate::tcp::model::rack_step(c0, now_ms);
            let tail = crate::tcp::model::tlp_step(rack.0, now_ms);
            let rto = crate::tcp::model::rto_step(tail.0, now_ms);
            let persist = crate::tcp::model::persist_step(rto.0, now_ms);
            let alive = crate::tcp::model::keepalive_step(persist.0, now_ms);
            let (c1, out) = crate::tcp::model::tick_step(c, now_ms);
            let one = |p: Option<Seq<u8>>|
                match p {
                    Some(b) => seq![b],
                    None => Seq::empty(),
                };
            &&& c1 == alive.0
            &&& out == rack.1 + one(tail.1) + rto.1 + one(persist.1) + one(alive.1)
        }),
{
    let c0 = Conn { tcb: crate::tcp::model::clock_step(c.tcb, now_ms), ..c };
    let rack = crate::tcp::model::rack_step(c0, now_ms);
    let tail = crate::tcp::model::tlp_step(rack.0, now_ms);
    let rto = crate::tcp::model::rto_step(tail.0, now_ms);
    let persist = crate::tcp::model::persist_step(rto.0, now_ms);
    let alive = crate::tcp::model::keepalive_step(persist.0, now_ms);
    let out = crate::tcp::model::tick_step(c, now_ms).1;
    let one = |p: Option<Seq<u8>>|
        match p {
            Some(b) => seq![b],
            None => Seq::empty(),
        };
    assert(out =~= rack.1 + one(tail.1) + rto.1 + one(persist.1) + one(alive.1));
}

/// The pacing clock after a segment of `n` bytes left.
pub open spec fn paced_until(c: Conn, n: int, now_ms: u64) -> int {
    if c.cong.pace().rate.bytes > 0 {
        capped(now_ms + (capped(crate::rate::gap_for(c.cong.pace(), n)) as u64))
    } else {
        c.tcb.next_send_ms as int
    }
}

/// `c` after the first `n` bytes of the send buffer left in one segment with PSH and ACK.
pub open spec fn with_segment_sent(c: Conn, n: int, now_ms: u64, next_send_ms: int) -> Conn {
    let end = ((c.tcb.nxt + n) % 0x1_0000_0000) as u32;
    let t = crate::tcp::model::Tcb { next_send_ms: next_send_ms as u64, ..c.tcb };
    let packet = crate::tcp::model::segment_bytes(
        t,
        t.nxt,
        t.rcv_nxt,
        0x18,
        c.send_buf.take(n),
    );
    Conn {
        tcb: crate::tcp::model::Tcb { nxt: end, ..t },
        send_buf: c.send_buf.skip(n),
        retx: crate::tcp::retx::Queue {
            segments: c.retx.segments.push(
                Segment {
                    start_seq: c.tcb.nxt,
                    end_seq: end,
                    packet,
                    sent_at_ms: now_ms,
                    retries: 0,
                    sacked: false,
                },
            ),
            ..c.retx
        },
        ..c
    }
}

/// Data leaves segment by segment. The next one carries as much as the buffer holds, the segment
/// size allows and the window has room for. It waits if that is nothing, if it is less than a full
/// segment while data is unacknowledged (Nagle's algorithm), or before its time if the controller
/// paces. What left is queued, and the pacing clock is set.
pub proof fn law_next_segment_leaves(c: Conn, now_ms: u64, out: Seq<Seq<u8>>, n: int)
    requires
        0 <= n <= c.send_buf.len() && n <= c.tcb.send_mss,
        n == 0 || in_flight(c) + n <= window_of(c),
        n == c.send_buf.len() || n == c.tcb.send_mss || in_flight(c) + n >= window_of(c),
    ensures
        ({
            let waits = n == 0 || (c.tcb.nagle && n < c.tcb.send_mss && c.tcb.nxt != c.tcb.una) || (
            c.cong.pace().rate.bytes > 0 && now_ms < c.tcb.next_send_ms);
            let c1 = with_segment_sent(c, n, now_ms, paced_until(c, n, now_ms));
            &&& waits ==> crate::tcp::model::flushed(c, now_ms, out) == (c, out)
            &&& !waits ==> crate::tcp::model::flushed(c, now_ms, out)
                == crate::tcp::model::flushed(
                c1,
                now_ms,
                out.push(c1.retx.segments.last().packet),
            )
        }),
{
    let limit = crate::tcp::model::send_limit(c);
    assert(crate::tcp::model::flight_size(c.tcb) == in_flight(c));
    assert(c.tcb.nxt == c.tcb.una <==> crate::tcp::model::flight_size(c.tcb) == 0);
    assert(limit == window_of(c));
    assert(crate::tcp::model::chunk(c, crate::tcp::model::usable(c) as int) == n);
    assert(0x08u8 | 0x10u8 == 0x18u8) by (bit_vector);
    if n > 0 {
        let ready = crate::tcp::model::clocked(c, n, now_ms);
        let next = crate::tcp::model::sent(ready, n, 0x18, now_ms);
        let c1 = with_segment_sent(c, n, now_ms, paced_until(c, n, now_ms));
        assert(next.retx =~= c1.retx);
        assert(next.tcb == c1.tcb);
        assert(next == c1);
    }
}

/// Recovery first resends what is lost: as long as the pipe has room below the limit, the next lost
/// segment goes out again; what is left of the room is filled with new data, segment by segment.
pub proof fn law_recovery_sends_one_more(
    c: Conn,
    limit: u32,
    now_ms: u64,
    out: Seq<Seq<u8>>,
    n: int,
)
    requires
        0 <= n <= c.send_buf.len() && n <= c.tcb.send_mss,
        n == 0 || crate::tcp::model::pipe(c.retx) + n <= limit,
        n == c.send_buf.len() || n == c.tcb.send_mss || crate::tcp::model::pipe(c.retx) + n
            >= limit,
    ensures
        ({
            let q = c.retx;
            let k = crate::tcp::model::next_lost(q);
            let c1 = with_segment_sent(c, n, now_ms, c.tcb.next_send_ms as int);
            &&& crate::tcp::model::repaired(q, limit, now_ms, out) == (if crate::tcp::model::pipe(q)
                < limit && 0 <= k < q.segments.len() {
                crate::tcp::model::repaired(
                    crate::tcp::retx::Queue {
                        segments: q.segments.update(k, sent_again(q.segments[k], now_ms)),
                        ..q
                    },
                    limit,
                    now_ms,
                    out.push(q.segments[k].packet),
                )
            } else {
                (q, out)
            })
            &&& crate::tcp::model::topped_up(c, limit, now_ms, out) == (if n > 0 {
                crate::tcp::model::topped_up(
                    c1,
                    limit,
                    now_ms,
                    out.push(c1.retx.segments.last().packet),
                )
            } else {
                (c, out)
            })
        }),
{
    let q = c.retx;
    let k = crate::tcp::model::next_lost(q);
    crate::tcp::retx::lemma_first_is_picked(
        q.segments,
        crate::tcp::retx::awaits_resend(q.segments, 3),
    );
    assert(0x08u8 | 0x10u8 == 0x18u8) by (bit_vector);
    let next = crate::tcp::model::sent(c, n, 0x18, now_ms);
    let c1 = with_segment_sent(c, n, now_ms, c.tcb.next_send_ms as int);
    assert(next.retx =~= c1.retx);
    assert(next.tcb == c1.tcb);
    assert(next == c1);
}

/// A transmission outside ESTABLISHED and CLOSE_WAIT does nothing. In SACK recovery the losses are
/// repaired and then new data sent, up to the window. Otherwise data is flushed, and the tail probe
/// is armed half an RTO ahead, one millisecond at least, if data is in flight and all of the buffer
/// has left; it stays armed as it was, and is off in any other case.
pub proof fn law_transmission_by_phase(c: Conn, now_ms: u64)
    ensures
        ({
            let (c1, out) = crate::tcp::model::transmit_step(c, now_ms);
            let open = c.tcb.state == State::Established || c.tcb.state == State::CloseWait;
            let c0 = Conn {
                tcb: crate::tcp::model::Tcb {
                    ts_val: (now_ms % 0x1_0000_0000) as u32,
                    ..c.tcb
                },
                ..c
            };
            let none = Seq::<Seq<u8>>::empty();
            let repair = crate::tcp::model::repaired(c.retx, window_of(c) as u32, now_ms, none);
            let sent = crate::tcp::model::flushed(c0, now_ms, none);
            let watched = sent.0.tcb.nxt != sent.0.tcb.una && sent.0.send_buf.len() == 0
                && !sent.0.cong.in_recovery();
            let half = if sent.0.tcb.rtt.rto_ms >= 4 {
                sent.0.tcb.rtt.rto_ms as int / 2
            } else {
                1
            };
            &&& !open ==> c1 == c && out == none
            &&& open && c.tcb.sack_ok && c.cong.in_recovery() ==> (c1, out)
                == crate::tcp::model::topped_up(
                Conn { retx: repair.0, ..c0 },
                window_of(c) as u32,
                now_ms,
                repair.1,
            )
            &&& open && !(c.tcb.sack_ok && c.cong.in_recovery()) ==> out == sent.1 && c1 == (Conn {
                tcb: crate::tcp::model::Tcb {
                    tlp_deadline_ms: if !watched {
                        0
                    } else if sent.0.tcb.tlp_deadline_ms == 0 {
                        capped(now_ms + half) as u64
                    } else {
                        sent.0.tcb.tlp_deadline_ms
                    },
                    tlp_sent: watched && sent.0.tcb.tlp_sent,
                    ..sent.0.tcb
                },
                ..sent.0
            })
        }),
{
    let c0 = Conn {
        tcb: crate::tcp::model::Tcb { ts_val: (now_ms % 0x1_0000_0000) as u32, ..c.tcb },
        ..c
    };
    let sent = crate::tcp::model::flushed(c0, now_ms, Seq::empty());
    assert(sent.0.tcb.nxt == sent.0.tcb.una <==> crate::tcp::model::flight_size(sent.0.tcb) == 0);
    assert(crate::tcp::model::send_limit(c0) == window_of(c));
}

/// The flight stays in the window, and no sendable data stays behind. After a flush the bytes in
/// flight are within the window, unless they were beyond it before. And what is still in the buffer
/// has a reason to be: the window is full, less than a full segment waits for an acknowledgement
/// under Nagle's algorithm, or the next segment's time has not come.
pub proof fn law_flight_fills_the_window(c: Conn, now_ms: u64, out: Seq<Seq<u8>>)
    requires
        c.tcb.send_mss > 0,
    ensures
        ({
            let c1 = crate::tcp::model::flushed(c, now_ms, out).0;
            let room = window_of(c1) - in_flight(c1);
            &&& window_of(c1) == window_of(c)
            &&& c1.send_buf.len() <= c.send_buf.len()
            &&& c1.send_buf.len() < c.send_buf.len() ==> in_flight(c1) <= window_of(c1)
            &&& c1.send_buf.len() == c.send_buf.len() ==> c1 == c
            &&& c1.send_buf.len() > 0 ==> room <= 0 || (c1.tcb.nagle && in_flight(c1) > 0 && (room
                < c1.tcb.send_mss || c1.send_buf.len() < c1.tcb.send_mss)) || (
            c1.cong.pace().rate.bytes > 0 && now_ms < c1.tcb.next_send_ms)
        }),
    decreases c.send_buf.len(),
{
    let limit = crate::tcp::model::send_limit(c);
    let n = crate::tcp::model::chunk(c, crate::tcp::model::usable(c) as int);
    assert(crate::tcp::model::flight_size(c.tcb) == in_flight(c));
    assert(limit == window_of(c));
    if c.send_buf.len() > 0 && !crate::tcp::model::held_back(c, n, now_ms) && n > 0 {
        law_next_segment_leaves(c, now_ms, out, n);
        let c1 = with_segment_sent(c, n, now_ms, paced_until(c, n, now_ms));
        assert(in_flight(c1) == in_flight(c) + n) by {
            lemma_flight_grows(c.tcb.una, c.tcb.nxt, n);
        }
        law_flight_fills_the_window(c1, now_ms, out.push(c1.retx.segments.last().packet));
    }
}

proof fn lemma_flight_grows(una: u32, nxt: u32, n: int)
    requires
        0 <= n,
        (nxt - una) % 0x1_0000_0000 + n < 0x1_0000_0000,
    ensures
        (((nxt + n) % 0x1_0000_0000) as u32 - una) % 0x1_0000_0000 == (nxt - una) % 0x1_0000_0000
            + n,
{
}

} // verus!
