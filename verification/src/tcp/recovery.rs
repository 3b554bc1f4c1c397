//! Loss recovery: what is found lost is resent, in order, once, and without overfilling the
//! network (RFC 6582, RFC 6675, RFC 8985).
use vstd::prelude::*;

use crate::tcp::model::{Conn, DUP_THRESH};
use crate::tcp::retx::Segment;

verus! {

/// NewReno: during fast recovery, an acknowledgement short of the recovery point resends the oldest
/// hole at once and recovery goes on; one that reaches it ends recovery. Either way exactly what it
/// covers leaves the queue.
pub proof fn law_partial_acks_stay_in_recovery(
    c: Conn,
    ack: u32,
    opts: crate::tcp::options::OptionSet,
    now_ms: u64,
)
    requires
        c.cong.in_recovery(),
    ensures
        ({
            let (c1, reply) = crate::tcp::model::new_ack_step(c, ack, opts, now_ms);
            let kept = crate::tcp::retx::acked_to(c.retx, ack);
            let hole = crate::tcp::retx::first_where(
                kept.segments,
                crate::tcp::retx::is_hole(),
            );
            if crate::seq::is_before(ack, c.tcb.recover) {
                &&& c1.cong.in_recovery()
                &&& reply == crate::tcp::retx::packet_at(kept, hole)
                &&& c1.retx == crate::tcp::retx::resent_at(kept, hole, now_ms)
            } else {
                &&& !c1.cong.in_recovery()
                &&& reply is None
                &&& c1.retx == kept
            }
        }),
{
}

/// The third duplicate ACK, and no other, resends the oldest hole; the recovery point is then
/// everything sent so far.
pub proof fn law_third_duplicate_resends_the_oldest_hole(c: Conn, now_ms: u64)
    ensures
        ({
            let (c1, reply) = crate::tcp::model::dup_ack_step(c, now_ms);
            let hole = crate::tcp::retx::first_where(
                c.retx.segments,
                crate::tcp::retx::is_hole(),
            );
            if c.cong.at_threshold() {
                &&& reply == crate::tcp::retx::packet_at(c.retx, hole)
                &&& c1.tcb.recover == c.tcb.nxt
                &&& c.cong is Cubic ==> c1.cong.in_recovery()
            } else {
                reply is None && c1.retx == c.retx && c1.tcb == c.tcb
            }
        }),
{
}

/// SACK recovery repairs everything it can in one go: it stops only when the pipe is full, or when
/// no lost segment is left that has not been resent.
pub proof fn law_recovery_resends_every_loss(
    q: crate::tcp::retx::Queue,
    limit: u32,
    now_ms: u64,
    out: Seq<Seq<u8>>,
)
    ensures
        ({
            let q1 = crate::tcp::model::repaired(q, limit, now_ms, out).0;
            crate::tcp::model::pipe(q1) >= limit || forall|i: int|
                0 <= i < q1.segments.len() ==> !(#[trigger] crate::tcp::retx::awaits_resend(
                    q1.segments,
                    DUP_THRESH,
                )(q1.segments[i]))
        }),
    decreases crate::tcp::model::untried(q.segments),
{
    let i = crate::tcp::model::next_lost(q);
    crate::tcp::retx::lemma_first_is_picked(
        q.segments,
        crate::tcp::retx::awaits_resend(q.segments, DUP_THRESH),
    );
    if crate::tcp::model::pipe(q) < limit && i < q.segments.len() {
        crate::tcp::model::lemma_untried_falls(q.segments, i, now_ms);
        law_recovery_resends_every_loss(
            crate::tcp::retx::resent_at(q, i, now_ms),
            limit,
            now_ms,
            out.push(q.segments[i].packet),
        );
    }
}

/// Resending a segment changes nothing that loss is judged by.
proof fn lemma_resending_keeps_reports(segments: Seq<Segment>, i: int, now_ms: u64, seq: u32)
    requires
        0 <= i < segments.len(),
    ensures
        crate::tcp::retx::sacked_above(
            segments.update(i, crate::tcp::retx::resent(segments[i], now_ms)),
            seq,
        ) == crate::tcp::retx::sacked_above(segments, seq),
    decreases segments.len(),
{
    let s = crate::tcp::retx::resent(segments[i], now_ms);
    if i == segments.len() - 1 {
        assert(segments.update(i, s).drop_last() =~= segments.drop_last());
    } else {
        assert(segments.update(i, s).drop_last() =~= segments.drop_last().update(i, s));
        lemma_resending_keeps_reports(segments.drop_last(), i, now_ms, seq);
    }
}

/// Resending a lost segment puts it, and only it, back into the network.
proof fn lemma_pipe_grows(segments: Seq<Segment>, i: int, now_ms: u64, dup_thresh: u32, n: int)
    requires
        0 <= i < segments.len(),
        0 <= n <= segments.len(),
        crate::tcp::retx::awaits_resend(segments, dup_thresh)(segments[i]),
    ensures
        ({
            let after = segments.update(i, crate::tcp::retx::resent(segments[i], now_ms));
            crate::tcp::retx::pipe_of(after, n, dup_thresh) == (if i < n {
                crate::tcp::retx::pipe_of(segments, n, dup_thresh).wrapping_add(
                    segments[i].end_seq.wrapping_sub(segments[i].start_seq),
                )
            } else {
                crate::tcp::retx::pipe_of(segments, n, dup_thresh)
            })
        }),
    decreases n,
{
    if n > 0 {
        lemma_pipe_grows(segments, i, now_ms, dup_thresh, n - 1);
        lemma_resending_keeps_reports(segments, i, now_ms, segments[n - 1].start_seq);
    }
}

/// Lost segments are resent once each, in ascending order: the one picked has not been resent
/// before; the bytes in the network grow by exactly its length; and the next one picked stands
/// behind it.
pub proof fn law_losses_are_resent_in_order(
    q: crate::tcp::retx::Queue,
    dup_thresh: u32,
    now_ms: u64,
)
    requires
        crate::tcp::retx::first_where(
            q.segments,
            crate::tcp::retx::awaits_resend(q.segments, dup_thresh),
        ) < q.segments.len(),
    ensures
        ({
            let i = crate::tcp::retx::first_where(
                q.segments,
                crate::tcp::retx::awaits_resend(q.segments, dup_thresh),
            );
            let n = q.segments.len() as int;
            let s = q.segments[i];
            let q1 = crate::tcp::retx::resent_at(q, i, now_ms);
            &&& 0 <= i
            &&& s.retries == 0 && !s.sacked
            &&& q1.segments[i].retries == 1
            &&& crate::tcp::retx::pipe_of(q1.segments, n, dup_thresh)
                == crate::tcp::retx::pipe_of(q.segments, n, dup_thresh).wrapping_add(
                s.end_seq.wrapping_sub(s.start_seq),
            )
            &&& crate::tcp::retx::first_where(
                q1.segments,
                crate::tcp::retx::awaits_resend(q1.segments, dup_thresh),
            ) > i
        }),
{
    let hit = crate::tcp::retx::awaits_resend(q.segments, dup_thresh);
    let i = crate::tcp::retx::first_where(q.segments, hit);
    crate::tcp::retx::lemma_first_is_picked(q.segments, hit);
    let q1 = crate::tcp::retx::resent_at(q, i, now_ms);
    let hit1 = crate::tcp::retx::awaits_resend(q1.segments, dup_thresh);
    crate::tcp::retx::lemma_first_is_picked(q1.segments, hit1);
    lemma_pipe_grows(q.segments, i, now_ms, dup_thresh, q.segments.len() as int);
    let k = crate::tcp::retx::first_where(q1.segments, hit1);
    if k < i {
        lemma_resending_keeps_reports(q.segments, i, now_ms, q.segments[k].start_seq);
        assert(q1.segments[k] == q.segments[k]);
        assert(!hit(q.segments[k]));
        assert(false);
    }
}

/// During SACK recovery new data fills the room in the pipe: it goes on until the buffer is empty,
/// the pipe is full, or no segment may carry any data.
pub proof fn law_recovery_keeps_the_pipe_full(
    c: Conn,
    limit: u32,
    now_ms: u64,
    out: Seq<Seq<u8>>,
)
    requires
        c.tcb.send_mss > 0,
    ensures
        ({
            let c1 = crate::tcp::model::topped_up(c, limit, now_ms, out).0;
            c1.send_buf.len() == 0 || crate::tcp::model::pipe(c1.retx) >= limit
        }),
    decreases c.send_buf.len(),
{
    let n = crate::tcp::model::chunk(c, limit - crate::tcp::model::pipe(c.retx));
    if c.send_buf.len() > 0 && crate::tcp::model::pipe(c.retx) < limit && n > 0 {
        law_recovery_keeps_the_pipe_full(
            crate::tcp::model::sent(
                c,
                n,
                crate::tcp::header::PSH | crate::tcp::header::ACK,
                now_ms,
            ),
            limit,
            now_ms,
            out.push(
                crate::tcp::model::sent_packet(
                    c,
                    n,
                    crate::tcp::header::PSH | crate::tcp::header::ACK,
                ),
            ),
        );
    }
}

/// RACK: every hole sent before a segment that has been received since, sequenced below it, is
/// resent once the reordering window has passed, and none before.
pub proof fn law_overtaken_holes_are_resent(c: Conn, i: int, now_ms: u64)
    requires
        0 <= i < c.retx.segments.len(),
        !c.retx.segments[i].sacked,
        c.retx.segments[i].sent_at_ms < c.retx.rack_xmit_ts,
        crate::seq::is_before(c.retx.segments[i].start_seq, c.retx.rack_end_seq),
    ensures
        ({
            let (c1, out) = crate::tcp::model::rack_step(c, now_ms);
            let waited = crate::congestion::elapsed(now_ms, c.retx.segments[i].sent_at_ms);
            let window = crate::tcp::model::max_u64((c.tcb.rtt.rto_ms / 4) as u64, 1);
            if waited > window {
                &&& out.contains(c.retx.segments[i].packet)
                &&& c1.retx.segments[i] == crate::tcp::retx::resent(c.retx.segments[i], now_ms)
            } else {
                c1.retx.segments[i] == c.retx.segments[i]
            }
        }),
{
    let window = crate::tcp::model::max_u64((c.tcb.rtt.rto_ms / 4) as u64, 1);
    let hit = crate::tcp::retx::is_overtaken(c.retx, now_ms, window);
    if hit(c.retx.segments[i]) {
        crate::tcp::timers::lemma_picked_packets(c.retx.segments, hit, i);
    }
}

/// Tail loss probe: it fires only at its deadline, with data in flight and outside recovery; it
/// resends the last hole; and there is one per tail, however often the clock ticks.
pub proof fn law_one_probe_per_tail(c: Conn, now_ms: u64, later_ms: u64)
    ensures
        ({
            let (c1, probe) = crate::tcp::model::tlp_step(c, now_ms);
            let (c2, again) = crate::tcp::model::tlp_step(c1, later_ms);
            &&& probe is Some ==> crate::tcp::model::tlp_due(c, now_ms) && probe
                == crate::tcp::retx::packet_at(
                c.retx,
                crate::tcp::retx::last_where(c.retx.segments, crate::tcp::retx::is_hole()),
            )
            &&& probe is Some ==> again is None && c2 == c1
        }),
{
}

/// The queued segments that the peer has reported and that begin after `seq`, by index. (After
/// means at most half the circle ahead.)
pub open spec fn reported_after(segments: Seq<Segment>, seq: u32) -> Set<int> {
    vstd::set_lib::set_int_range(0, segments.len() as int).filter(
        |i: int|
            segments[i].sacked && 0 < (segments[i].start_seq - seq) % 0x1_0000_0000
                <= 0x8000_0000,
    )
}

proof fn lemma_reported_after(segments: Seq<Segment>, seq: u32)
    ensures
        reported_after(segments, seq).finite(),
        crate::tcp::retx::sacked_above(segments, seq) == reported_after(segments, seq).len(),
    decreases segments.len(),
{
    let n = segments.len() as int;
    let all = reported_after(segments, seq);
    vstd::set_lib::lemma_int_range(0, n);
    if n == 0 {
        assert(all =~= Set::<int>::empty());
    } else {
        let short = segments.drop_last();
        let some = reported_after(short, seq);
        lemma_reported_after(short, seq);
        vstd::set_lib::lemma_int_range(0, n - 1);
        let last = segments[n - 1];
        assert(crate::seq::is_before(seq, last.start_seq) <==> 0 < (last.start_seq - seq)
            % 0x1_0000_0000 <= 0x8000_0000);
        assert forall|i: int| #[trigger] some.contains(i) implies all.contains(i) by {
            assert(short[i] == segments[i]);
        }
        assert forall|i: int| #[trigger] all.contains(i) && i != n - 1 implies some.contains(i) by {
            assert(short[i] == segments[i]);
        }
        if all.contains(n - 1) {
            assert(all =~= some.insert(n - 1));
        } else {
            assert(all =~= some);
        }
    }
}

/// When a segment is lost (RFC 6675): if and only if the peer has not reported it, and has reported
/// at least `dup_thresh` queued segments that begin after it.
pub proof fn law_lost_means_reported_after(segments: Seq<Segment>, s: Segment, dup_thresh: u32)
    ensures
        crate::tcp::retx::is_lost(segments, s, dup_thresh) <==> !s.sacked && reported_after(
            segments,
            s.start_seq,
        ).len() >= dup_thresh,
{
    lemma_reported_after(segments, s.start_seq);
}

/// What the pipe counts (RFC 6675): going through the queue, every segment adds its length, but for
/// those the peer has reported, and those that are lost and have not been sent again.
pub proof fn law_pipe_counts_what_is_in_flight(segments: Seq<Segment>, n: int, dup_thresh: u32)
    requires
        0 <= n <= segments.len(),
    ensures
        n == 0 ==> crate::tcp::retx::pipe_of(segments, n, dup_thresh) == 0,
        n > 0 ==> crate::tcp::retx::pipe_of(segments, n, dup_thresh) == ({
            let s = segments[n - 1];
            let before = crate::tcp::retx::pipe_of(segments, n - 1, dup_thresh);
            let lost = reported_after(segments, s.start_seq).len() >= dup_thresh;
            if s.sacked || lost && s.retries == 0 {
                before as int
            } else {
                (before + (s.end_seq - s.start_seq)) % 0x1_0000_0000
            }
        }),
{
    if n > 0 {
        lemma_reported_after(segments, segments[n - 1].start_seq);
    }
}

/// What recovery resends: the first segment, in the order of the queue, that the peer has not
/// reported, that was never sent again, and above which enough was reported; nothing if there is
/// none. It is sent as it was recorded, and nothing else in the queue changes.
pub proof fn law_recovery_picks_the_first_lost(
    q: crate::tcp::retx::Queue,
    dup_thresh: u32,
    now_ms: u64,
)
    ensures
        ({
            let i = crate::tcp::retx::first_where(
                q.segments,
                crate::tcp::retx::awaits_resend(q.segments, dup_thresh),
            );
            let q1 = crate::tcp::retx::resent_at(q, i, now_ms);
            let n = q.segments.len() as int;
            &&& 0 <= i <= n
            &&& forall|j: int|
                0 <= j < i ==> (#[trigger] q.segments[j]).sacked || q.segments[j].retries > 0
                    || reported_after(q.segments, q.segments[j].start_seq).len() < dup_thresh
            &&& i < n ==> {
                let s = q.segments[i];
                &&& !s.sacked && s.retries == 0
                &&& reported_after(q.segments, s.start_seq).len() >= dup_thresh
                &&& crate::tcp::retx::packet_at(q, i) == Some(s.packet)
                &&& q1.segments == q.segments.update(
                    i,
                    Segment { retries: 1, sent_at_ms: now_ms, ..s },
                )
            }
            &&& i == n ==> crate::tcp::retx::packet_at(q, i) is None && q1 == q
            &&& q1.rack_xmit_ts == q.rack_xmit_ts && q1.rack_end_seq == q.rack_end_seq
        }),
{
    let hit = crate::tcp::retx::awaits_resend(q.segments, dup_thresh);
    crate::tcp::retx::lemma_first_is_picked(q.segments, hit);
    let i = crate::tcp::retx::first_where(q.segments, hit);
    assert forall|j: int| 0 <= j < i implies (#[trigger] q.segments[j]).sacked
        || q.segments[j].retries > 0 || reported_after(q.segments, q.segments[j].start_seq).len()
        < dup_thresh by {
        lemma_reported_after(q.segments, q.segments[j].start_seq);
        assert(!hit(q.segments[j]));
    }
    if i < q.segments.len() {
        lemma_reported_after(q.segments, q.segments[i].start_seq);
    }
}

/// A hole with nothing reported after it is still on its way: it is not lost, it counts in the
/// pipe, and recovery leaves it alone.
pub proof fn law_unreported_tail_is_left_alone(
    q: crate::tcp::retx::Queue,
    i: int,
    limit: u32,
    now_ms: u64,
    out: Seq<Seq<u8>>,
)
    requires
        0 <= i < q.segments.len(),
        !q.segments[i].sacked,
        forall|j: int|
            0 <= j < q.segments.len() && (#[trigger] q.segments[j]).sacked ==> !(0 < (
            q.segments[j].start_seq - q.segments[i].start_seq) % 0x1_0000_0000 <= 0x8000_0000),
    ensures
        !crate::tcp::retx::is_lost(q.segments, q.segments[i], DUP_THRESH),
        crate::tcp::retx::in_network(q.segments, q.segments[i], DUP_THRESH),
        crate::tcp::model::next_lost(q) != i,
        crate::tcp::model::repaired(q, limit, now_ms, out).0.segments[i] == q.segments[i],
    decreases crate::tcp::model::untried(q.segments),
{
    let s = q.segments[i];
    lemma_reported_after(q.segments, s.start_seq);
    assert(reported_after(q.segments, s.start_seq) =~= Set::<int>::empty());
    let hit = crate::tcp::retx::awaits_resend(q.segments, DUP_THRESH);
    crate::tcp::retx::lemma_first_is_picked(q.segments, hit);
    let k = crate::tcp::model::next_lost(q);
    if crate::tcp::model::pipe(q) < limit && k < q.segments.len() {
        crate::tcp::model::lemma_untried_falls(q.segments, k, now_ms);
        let q1 = crate::tcp::retx::resent_at(q, k, now_ms);
        assert forall|j: int|
            0 <= j < q1.segments.len() && (#[trigger] q1.segments[j]).sacked implies !(0 < (
        q1.segments[j].start_seq - q1.segments[i].start_seq) % 0x1_0000_0000
            <= 0x8000_0000) by {
            assert(q.segments[j].sacked);
        }
        law_unreported_tail_is_left_alone(q1, i, limit, now_ms, out.push(q.segments[k].packet));
    }
}

/// How many sequence numbers lie from `a` to `b`, going forward.
#[verifier::opaque]
pub open spec fn ahead(a: u32, b: u32) -> int {
    (b - a) % 0x1_0000_0000
}

/// What an acceptable acknowledgement does, exactly. One of new data moves SND.UNA to it, disarms
/// the tail probe, and feeds the RTT estimate: from the echoed clock where timestamps are on, else
/// from the queue. The controller hears of the bytes, as a partial ACK while it is recovering and
/// short of the recovery point. One of nothing new, with no data and an unchanged open window while
/// data is in flight, is a duplicate. Any other changes nothing of all this.
pub proof fn law_acks_are_acted_upon(
    c: Conn,
    th: crate::tcp::header::TcpHeader,
    payload: Seq<u8>,
    opts: crate::tcp::options::OptionSet,
    now_ms: u64,
    draw: u32,
)
    requires
        crate::tcp::model::sends_data(c.tcb.state),
        th.flags & crate::tcp::header::RST == 0,
        th.flags & crate::tcp::header::SYN == 0,
        th.flags & crate::tcp::header::ACK != 0,
        !crate::tcp::model::stale(c.tcb, opts),
        crate::tcp::model::ack_acceptable(c.tcb, th),
        ahead(c.tcb.una, c.tcb.nxt) < 0x8000_0000,
    ensures
        ({
            let c1 = crate::tcp::model::segment_step(c, th, payload, opts, now_ms, draw).0;
            let t = c.tcb;
            let t1 = c1.tcb;
            let acked = ahead(t.una, th.ack);
            let new = 0 < acked <= ahead(t.una, t.nxt);
            let clock = (now_ms % 0x1_0000_0000) as u32;
            let sample = if t.ts_enabled {
                match opts.timestamps {
                    Some(ts) => Some(ahead(ts.1, clock) as u64),
                    None => None,
                }
            } else {
                crate::tcp::retx::rtt_sample(
                    crate::tcp::retx::fully_acked(
                        crate::tcp::model::sacks_taken(c, opts).retx.segments,
                        th.ack,
                    ),
                    now_ms,
                )
            };
            let partial = c.cong.in_recovery() && 0 < ahead(th.ack, t.recover) <= 0x8000_0000;
            let duplicate = !new && th.ack == t.una && t.una != t.nxt && payload.len() == 0
                && t1.snd_wnd == t.snd_wnd && t1.snd_wnd != 0;
            &&& t1.una == (if new {
                th.ack
            } else {
                t.una
            })
            &&& t1.nxt == t.nxt && c1.send_buf == c.send_buf
            &&& new ==> t1.tlp_deadline_ms == 0 && !t1.tlp_sent
            &&& !new ==> t1.tlp_deadline_ms == t.tlp_deadline_ms && t1.tlp_sent == t.tlp_sent
            &&& t1.rtt == (if new && sample is Some {
                crate::rtt::sampled(t.rtt, sample->0)
            } else {
                t.rtt
            })
            &&& c1.cong == (if new && partial {
                c.cong.partially_acknowledged(acked as u32)
            } else if new {
                c.cong.acknowledged(acked as u32, sample, now_ms)
            } else if duplicate {
                c.cong.duplicated()
            } else {
                c.cong
            })
            &&& t1.recover == (if duplicate && c.cong.at_threshold() {
                t.nxt
            } else {
                t.recover
            })
        }),
{
    let c0 = Conn { tcb: crate::tcp::model::touched(c.tcb, now_ms), ..c };
    let c1 = Conn { tcb: crate::tcp::model::window_updated(c0.tcb, th, opts), ..c0 };
    lemma_acks_reach_the_sender(c, th, payload, opts, now_ms, draw);
    lemma_ack_step(c1, th, payload.len() as int, opts, c.tcb.snd_wnd, now_ms);
}

/// What the sender of a connection is left with.
pub open spec fn same_sender(a: Conn, b: Conn) -> bool {
    &&& a.cong == b.cong && a.send_buf == b.send_buf && a.retx == b.retx
    &&& a.tcb.una == b.tcb.una && a.tcb.nxt == b.tcb.nxt && a.tcb.rtt == b.tcb.rtt
    &&& a.tcb.recover == b.tcb.recover && a.tcb.snd_wnd == b.tcb.snd_wnd
    &&& a.tcb.tlp_deadline_ms == b.tcb.tlp_deadline_ms && a.tcb.tlp_sent == b.tcb.tlp_sent
}

proof fn lemma_data_keeps_the_sender(
    c: Conn,
    th: crate::tcp::header::TcpHeader,
    payload: Seq<u8>,
)
    ensures
        same_sender(crate::tcp::model::data_step(c, th, payload).0, c),
{
}

proof fn lemma_acks_reach_the_sender(
    c: Conn,
    th: crate::tcp::header::TcpHeader,
    payload: Seq<u8>,
    opts: crate::tcp::options::OptionSet,
    now_ms: u64,
    draw: u32,
)
    requires
        crate::tcp::model::sends_data(c.tcb.state),
        th.flags & crate::tcp::header::RST == 0,
        th.flags & crate::tcp::header::SYN == 0,
        th.flags & crate::tcp::header::ACK != 0,
        !crate::tcp::model::stale(c.tcb, opts),
        crate::tcp::model::ack_acceptable(c.tcb, th),
    ensures
        ({
            let c0 = Conn { tcb: crate::tcp::model::touched(c.tcb, now_ms), ..c };
            let c1 = Conn { tcb: crate::tcp::model::window_updated(c0.tcb, th, opts), ..c0 };
            same_sender(
                crate::tcp::model::segment_step(c, th, payload, opts, now_ms, draw).0,
                crate::tcp::model::ack_step(
                    c1,
                    th,
                    payload.len() as int,
                    opts,
                    c.tcb.snd_wnd,
                    now_ms,
                ).0,
            )
        }),
{
    let c0 = Conn { tcb: crate::tcp::model::touched(c.tcb, now_ms), ..c };
    let c1 = Conn { tcb: crate::tcp::model::window_updated(c0.tcb, th, opts), ..c0 };
    let c2 = crate::tcp::model::ack_step(
        c1,
        th,
        payload.len() as int,
        opts,
        c.tcb.snd_wnd,
        now_ms,
    ).0;
    lemma_data_keeps_the_sender(c2, th, payload);
}

proof fn lemma_ack_step(
    c: Conn,
    th: crate::tcp::header::TcpHeader,
    payload_len: int,
    opts: crate::tcp::options::OptionSet,
    prev_wnd: u32,
    now_ms: u64,
)
    requires
        c.tcb.ts_val == now_ms % 0x1_0000_0000,
        ahead(c.tcb.una, c.tcb.nxt) < 0x8000_0000,
    ensures
        ({
            let c1 = crate::tcp::model::ack_step(c, th, payload_len, opts, prev_wnd, now_ms).0;
            let t = c.tcb;
            let t1 = c1.tcb;
            let acked = ahead(t.una, th.ack);
            let new = 0 < acked <= ahead(t.una, t.nxt);
            let clock = (now_ms % 0x1_0000_0000) as u32;
            let sample = if t.ts_enabled {
                match opts.timestamps {
                    Some(ts) => Some(ahead(ts.1, clock) as u64),
                    None => None,
                }
            } else {
                crate::tcp::retx::rtt_sample(
                    crate::tcp::retx::fully_acked(
                        crate::tcp::model::sacks_taken(c, opts).retx.segments,
                        th.ack,
                    ),
                    now_ms,
                )
            };
            let partial = c.cong.in_recovery() && 0 < ahead(th.ack, t.recover) <= 0x8000_0000;
            let duplicate = !new && th.ack == t.una && t.una != t.nxt && payload_len == 0
                && t1.snd_wnd == prev_wnd && t1.snd_wnd != 0;
            &&& t1.una == (if new {
                th.ack
            } else {
                t.una
            })
            &&& t1.nxt == t.nxt && c1.send_buf == c.send_buf && t1.snd_wnd == t.snd_wnd
            &&& new ==> t1.tlp_deadline_ms == 0 && !t1.tlp_sent
            &&& !new ==> t1.tlp_deadline_ms == t.tlp_deadline_ms && t1.tlp_sent == t.tlp_sent
            &&& t1.rtt == (if new && sample is Some {
                crate::rtt::sampled(t.rtt, sample->0)
            } else {
                t.rtt
            })
            &&& c1.cong == (if new && partial {
                c.cong.partially_acknowledged(acked as u32)
            } else if new {
                c.cong.acknowledged(acked as u32, sample, now_ms)
            } else if duplicate {
                c.cong.duplicated()
            } else {
                c.cong
            })
            &&& t1.recover == (if duplicate && c.cong.at_threshold() {
                t.nxt
            } else {
                t.recover
            })
        }),
{
    lemma_ahead(c.tcb.una, th.ack);
    lemma_ahead(th.ack, c.tcb.recover);
    lemma_new_is_ahead(c.tcb.una, th.ack, c.tcb.nxt);
    if opts.timestamps is Some {
        lemma_ahead((opts.timestamps->0).1, c.tcb.ts_val);
    }
}

proof fn lemma_ahead(a: u32, b: u32)
    ensures
        b.wrapping_sub(a) == ahead(a, b),
        0 <= ahead(a, b) < 0x1_0000_0000,
        crate::seq::is_before(a, b) <==> 0 < ahead(a, b) <= 0x8000_0000,
{
    reveal(ahead);
}

proof fn lemma_new_is_ahead(una: u32, ack: u32, nxt: u32)
    requires
        ahead(una, nxt) < 0x8000_0000,
    ensures
        crate::seq::in_window(una, ack, nxt) <==> 0 < ahead(una, ack) <= ahead(una, nxt),
        una == ack ==> ahead(una, ack) == 0,
{
    reveal(ahead);
    crate::seq::law_window_is_a_range(una, ack, nxt);
}

/// What an arriving segment says of the peer: its window is the one offered, the largest window
/// only grows, and its timestamp is kept if the segment does not begin past RCV.NXT.
pub proof fn law_window_and_timestamp_are_taken(
    c: Conn,
    th: crate::tcp::header::TcpHeader,
    payload: Seq<u8>,
    opts: crate::tcp::options::OptionSet,
    now_ms: u64,
    draw: u32,
)
    requires
        crate::tcp::model::sends_data(c.tcb.state),
        th.flags & crate::tcp::header::RST == 0,
        th.flags & crate::tcp::header::SYN == 0,
        !crate::tcp::model::stale(c.tcb, opts),
        th.flags & crate::tcp::header::ACK != 0 ==> crate::tcp::model::ack_acceptable(c.tcb, th),
        c.tcb.snd_wscale <= 14,
    ensures
        ({
            let t = c.tcb;
            let t1 = crate::tcp::model::segment_step(c, th, payload, opts, now_ms, draw).0.tcb;
            let offered = th.window * vstd::arithmetic::power2::pow2(t.snd_wscale as nat);
            &&& t1.snd_wnd == offered
            &&& t1.max_snd_wnd == (if offered > t.max_snd_wnd {
                offered
            } else {
                t.max_snd_wnd as int
            })
            &&& t1.ts_recent == (if t.ts_enabled && opts.timestamps is Some && !(0 < ahead(
                t.rcv_nxt,
                th.seq,
            ) <= 0x8000_0000) {
                (opts.timestamps->0).0
            } else {
                t.ts_recent
            })
            &&& t1.ts_val == now_ms % 0x1_0000_0000
        }),
{
    let c0 = Conn { tcb: crate::tcp::model::touched(c.tcb, now_ms), ..c };
    let c1 = Conn { tcb: crate::tcp::model::window_updated(c0.tcb, th, opts), ..c0 };
    crate::tcp::laws::law_window_is_scaled(c0.tcb, th, opts);
    let c2 = crate::tcp::model::ack_step(
        c1,
        th,
        payload.len() as int,
        opts,
        c0.tcb.snd_wnd,
        now_ms,
    ).0;
    lemma_data_keeps_the_peers_word(c1, th, payload);
    lemma_data_keeps_the_peers_word(c2, th, payload);
    lemma_ahead(c.tcb.rcv_nxt, th.seq);
}

proof fn lemma_data_keeps_the_peers_word(
    c: Conn,
    th: crate::tcp::header::TcpHeader,
    payload: Seq<u8>,
)
    ensures
        ({
            let t = crate::tcp::model::data_step(c, th, payload).0.tcb;
            &&& t.snd_wnd == c.tcb.snd_wnd && t.max_snd_wnd == c.tcb.max_snd_wnd
            &&& t.ts_recent == c.tcb.ts_recent && t.ts_val == c.tcb.ts_val
        }),
{
}

/// What is plausible and what is old (RFC 5961, RFC 7323). An acknowledgement is acceptable if it is
/// at most everything sent and at least the oldest outstanding number less the largest window, the
/// segment's own included. A segment is stale if timestamps are on and its own is behind the latest.
pub proof fn law_what_is_acceptable(
    t: crate::tcp::model::Tcb,
    th: crate::tcp::header::TcpHeader,
    opts: crate::tcp::options::OptionSet,
)
    requires
        t.snd_wscale <= 14,
        t.max_snd_wnd < 0x4000_0000,
        ahead(t.una, t.nxt) < 0x4000_0000,
    ensures
        ({
            let offered = th.window * vstd::arithmetic::power2::pow2(t.snd_wscale as nat);
            let back = if offered > t.max_snd_wnd {
                offered
            } else {
                t.max_snd_wnd as int
            };
            let behind = ahead(th.ack, t.una);
            let beyond = ahead(t.una, th.ack);
            crate::tcp::model::ack_acceptable(t, th) <==> behind <= back || beyond <= ahead(
                t.una,
                t.nxt,
            )
        }),
        crate::tcp::model::stale(t, opts) <==> t.ts_enabled && opts.timestamps is Some && 0 < ahead(
            (opts.timestamps->0).0,
            t.ts_recent,
        ) <= 0x8000_0000,
{
    reveal(ahead);
    crate::tcp::laws::law_window_is_scaled(t, th, opts);
    let scale = vstd::arithmetic::power2::pow2(t.snd_wscale as nat);
    vstd::arithmetic::power2::lemma2_to64();
    if t.snd_wscale < 14 {
        vstd::arithmetic::power2::lemma_pow2_strictly_increases(t.snd_wscale as nat, 14);
    }
    assert(th.window * scale <= 0xffff * 0x4000) by (nonlinear_arith)
        requires
            th.window <= 0xffff,
            0 <= scale <= 0x4000,
    ;
}

/// What an acceptable acknowledgement leaves in the queue, and what it resends. SACK blocks are
/// marked first, if SACK was negotiated. One of new data takes out all segments that end at or before
/// it; during recovery, short of the recovery point, the first hole left is resent at once. The third
/// duplicate resends the first hole of all. In any other case nothing is taken out or resent.
pub proof fn law_acks_clean_the_queue(
    c: Conn,
    th: crate::tcp::header::TcpHeader,
    payload: Seq<u8>,
    opts: crate::tcp::options::OptionSet,
    now_ms: u64,
    draw: u32,
    i: int,
)
    requires
        crate::tcp::model::sends_data(c.tcb.state),
        th.flags & crate::tcp::header::RST == 0,
        th.flags & crate::tcp::header::SYN == 0,
        th.flags & crate::tcp::header::ACK != 0,
        !crate::tcp::model::stale(c.tcb, opts),
        crate::tcp::model::ack_acceptable(c.tcb, th),
        ahead(c.tcb.una, c.tcb.nxt) < 0x8000_0000,
        0 <= i <= queue_after_ack(c, th, opts).len(),
        i < queue_after_ack(c, th, opts).len() ==> !queue_after_ack(c, th, opts)[i].sacked,
        forall|j: int| 0 <= j < i ==> (#[trigger] queue_after_ack(c, th, opts)[j]).sacked,
    ensures
        ({
            let (c1, reply) = crate::tcp::model::segment_step(
                c,
                th,
                payload,
                opts,
                now_ms,
                draw,
            );
            let t = c.tcb;
            let new = 0 < ahead(t.una, th.ack) <= ahead(t.una, t.nxt);
            let partial = c.cong.in_recovery() && 0 < ahead(th.ack, t.recover) <= 0x8000_0000;
            let duplicate = !new && th.ack == t.una && t.una != t.nxt && payload.len() == 0
                && c1.tcb.snd_wnd == t.snd_wnd && c1.tcb.snd_wnd != 0;
            let left = queue_after_ack(c, th, opts);
            let again = (new && partial) || (duplicate && c.cong.at_threshold());
            &&& !again ==> c1.retx.segments == left
            &&& again && i == left.len() ==> c1.retx.segments == left
            &&& again && i < left.len() ==> reply == Some(left[i].packet) && c1.retx.segments
                == left.update(
                i,
                crate::tcp::retx::Segment {
                    sent_at_ms: now_ms,
                    retries: c1.retx.segments[i].retries,
                    ..left[i]
                },
            ) && (left[i].retries < 0xffff_ffff ==> c1.retx.segments[i].retries == left[i].retries
                + 1)
        }),
{
    let c0 = Conn { tcb: crate::tcp::model::touched(c.tcb, now_ms), ..c };
    let c1 = Conn { tcb: crate::tcp::model::window_updated(c0.tcb, th, opts), ..c0 };
    let left = queue_after_ack(c, th, opts);
    lemma_acks_reach_the_sender(c, th, payload, opts, now_ms, draw);
    lemma_ahead(th.ack, c.tcb.recover);
    lemma_new_is_ahead(c.tcb.una, th.ack, c.tcb.nxt);
    crate::tcp::retx::law_ack_parts_the_queue(
        crate::tcp::model::sacks_taken(c1, opts).retx.segments,
        th.ack,
    );
    crate::tcp::retx::lemma_first_is_picked(left, crate::tcp::retx::is_hole());
    let k = crate::tcp::retx::first_where(left, crate::tcp::retx::is_hole());
    assert(k == i) by {
        if k < i {
            assert(left[k].sacked);
        }
        if i < k {
            assert(!crate::tcp::retx::is_hole()(left[i]));
        }
    }
    let (c2, reply) = crate::tcp::model::ack_step(
        c1,
        th,
        payload.len() as int,
        opts,
        c.tcb.snd_wnd,
        now_ms,
    );
    assert(reply is Some ==> crate::tcp::model::segment_step(
        c,
        th,
        payload,
        opts,
        now_ms,
        draw,
    ).1 == reply);
}

/// The queue when an acknowledgement's SACK blocks are marked and, if it is of new data, what it
/// covers is taken out.
pub open spec fn queue_after_ack(
    c: Conn,
    th: crate::tcp::header::TcpHeader,
    opts: crate::tcp::options::OptionSet,
) -> Seq<crate::tcp::retx::Segment> {
    let marked = if c.tcb.sack_ok && opts.sack_block_count > 0 {
        crate::tcp::retx::marked(c.retx, opts.sack_blocks.take(opts.sack_block_count as int))
    } else {
        c.retx
    };
    if 0 < ahead(c.tcb.una, th.ack) <= ahead(c.tcb.una, c.tcb.nxt) {
        marked.segments.filter(
            |s: crate::tcp::retx::Segment|
                0 < (s.end_seq - th.ack) % 0x1_0000_0000 <= 0x8000_0000,
        )
    } else {
        marked.segments
    }
}

/// Three reports of later data make a loss, in the choice of what to resend and in the estimate of
/// what is in the network alike.
pub proof fn law_three_reports_make_a_loss(q: crate::tcp::retx::Queue, i: int)
    requires
        0 <= i < q.segments.len(),
        crate::tcp::model::next_lost(q) == i,
    ensures
        !q.segments[i].sacked && q.segments[i].retries == 0,
        reported_after(q.segments, q.segments[i].start_seq).len() >= 3,
        crate::tcp::model::pipe(q) == crate::tcp::retx::pipe_of(
            q.segments,
            q.segments.len() as int,
            3,
        ),
        forall|j: int|
            0 <= j < i && !(#[trigger] q.segments[j]).sacked && q.segments[j].retries == 0
                ==> reported_after(q.segments, q.segments[j].start_seq).len() < 3,
{
    let awaits = crate::tcp::retx::awaits_resend(q.segments, 3);
    crate::tcp::retx::lemma_first_is_picked(q.segments, awaits);
    lemma_reported_after(q.segments, q.segments[i].start_seq);
    assert forall|j: int|
        0 <= j < i && !(#[trigger] q.segments[j]).sacked && q.segments[j].retries
            == 0 implies reported_after(q.segments, q.segments[j].start_seq).len() < 3 by {
        assert(!awaits(q.segments[j]));
        lemma_reported_after(q.segments, q.segments[j].start_seq);
    }
}

} // verus!
