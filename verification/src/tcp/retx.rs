//! The retransmission queue: sent segments that the peer has not acknowledged yet.
//!
//! Time is passed in rather than read from a clock; the caller resends whatever comes back.
use vstd::prelude::*;

use crate::seq::{after, before};
use crate::utils::copy_range;

verus! {

/// What is remembered of one sent segment.
#[verifier::ext_equal]
pub struct Segment {
    pub start_seq: u32,
    pub end_seq: u32,
    pub packet: Seq<u8>,
    pub sent_at_ms: u64,
    pub retries: u32,
    pub sacked: bool,
}

/// The state of a retransmission queue.
#[verifier::ext_equal]
pub struct Queue {
    pub segments: Seq<Segment>,
    pub rack_xmit_ts: u64,
    pub rack_end_seq: u32,
}

/// One sent but unacknowledged segment, kept to be resent verbatim.
#[derive(Debug)]
pub struct Unacked {
    /// The first sequence number the segment covers.
    start_seq: u32,
    /// One past the last: fully acknowledged when SND.UNA reaches it.
    end_seq: u32,
    /// The complete packet.
    packet: Vec<u8>,
    /// When it was last sent.
    sent_at_ms: u64,
    /// How many times it has been retransmitted.
    retries: u32,
    /// The peer holds it out of order (RFC 2018).
    sacked: bool,
}

impl View for Unacked {
    type V = Segment;

    closed spec fn view(&self) -> Segment {
        Segment {
            start_seq: self.start_seq,
            end_seq: self.end_seq,
            packet: self.packet@,
            sent_at_ms: self.sent_at_ms,
            retries: self.retries,
            sacked: self.sacked,
        }
    }
}

/// The per-connection retransmission queue (RFC 9293 section 3.8.1).
#[derive(Debug)]
pub struct RetxQueue {
    segments: Vec<Unacked>,
    /// RACK (RFC 8985): the transmit time and right edge of the most recently sent segment that
    /// has been acknowledged or SACKed since; 0 before the first.
    rack_xmit_ts: u64,
    rack_end_seq: u32,
}

impl View for RetxQueue {
    type V = Queue;

    closed spec fn view(&self) -> Queue {
        Queue {
            segments: self.segments@.map_values(|u: Unacked| u@),
            rack_xmit_ts: self.rack_xmit_ts,
            rack_end_seq: self.rack_end_seq,
        }
    }
}

/// A queue with nothing in flight.
pub open spec fn empty_queue() -> Queue {
    Queue { segments: Seq::empty(), rack_xmit_ts: 0, rack_end_seq: 0 }
}

/// The queue after sending a packet that covers `[start_seq, end_seq)`.
pub open spec fn recorded(
    q: Queue,
    start_seq: u32,
    end_seq: u32,
    packet: Seq<u8>,
    now_ms: u64,
) -> Queue {
    Queue {
        segments: q.segments.push(
            Segment {
                start_seq,
                end_seq,
                packet,
                sent_at_ms: now_ms,
                retries: 0,
                sacked: false,
            },
        ),
        ..q
    }
}

/// The segments not fully covered by an acknowledgement of everything before `una`.
pub open spec fn still_unacked(segments: Seq<Segment>, una: u32) -> Seq<Segment>
    decreases segments.len(),
{
    if segments.len() == 0 {
        Seq::empty()
    } else {
        let rest = still_unacked(segments.drop_last(), una);
        if crate::seq::is_before(una, segments.last().end_seq) {
            rest.push(segments.last())
        } else {
            rest
        }
    }
}

/// The segments that it fully covers.
pub open spec fn fully_acked(segments: Seq<Segment>, una: u32) -> Seq<Segment>
    decreases segments.len(),
{
    if segments.len() == 0 {
        Seq::empty()
    } else {
        let rest = fully_acked(segments.drop_last(), una);
        if crate::seq::is_before(una, segments.last().end_seq) {
            rest
        } else {
            rest.push(segments.last())
        }
    }
}

/// The RACK mark (transmit time, right edge) after `segments` have been received: the most
/// recently sent of them, if sent no earlier than the mark.
pub open spec fn rack_mark(mark: (u64, u32), segments: Seq<Segment>) -> (u64, u32)
    decreases segments.len(),
{
    if segments.len() == 0 {
        mark
    } else {
        let m = rack_mark(mark, segments.drop_last());
        if segments.last().sent_at_ms >= m.0 {
            (segments.last().sent_at_ms, segments.last().end_seq)
        } else {
            m
        }
    }
}

/// The RTT sample of acknowledged segments: that of the oldest one never retransmitted (Karn's
/// algorithm).
pub open spec fn rtt_sample(acked: Seq<Segment>, now_ms: u64) -> Option<u64>
    decreases acked.len(),
{
    if acked.len() == 0 {
        None
    } else {
        match rtt_sample(acked.drop_last(), now_ms) {
            Some(s) => Some(s),
            None => if acked.last().retries == 0 {
                Some(crate::congestion::elapsed(now_ms, acked.last().sent_at_ms) as u64)
            } else {
                None
            },
        }
    }
}

/// The queue after an acknowledgement of everything before `una`.
pub open spec fn acked_to(q: Queue, una: u32) -> Queue {
    let mark = rack_mark((q.rack_xmit_ts, q.rack_end_seq), fully_acked(q.segments, una));
    Queue {
        segments: still_unacked(q.segments, una),
        rack_xmit_ts: mark.0,
        rack_end_seq: mark.1,
    }
}

/// A segment after being sent once more.
pub open spec fn resent(s: Segment, now_ms: u64) -> Segment {
    Segment { sent_at_ms: now_ms, retries: crate::congestion::counted(s.retries), ..s }
}

/// `segments` after resending those that `hit` picks.
pub open spec fn resent_where(
    segments: Seq<Segment>,
    hit: spec_fn(Segment) -> bool,
    now_ms: u64,
) -> Seq<Segment> {
    Seq::new(
        segments.len(),
        |i: int|
            if hit(segments[i]) {
                resent(segments[i], now_ms)
            } else {
                segments[i]
            },
    )
}

/// The packets of the segments that `hit` picks, in order.
pub open spec fn packets_where(segments: Seq<Segment>, hit: spec_fn(Segment) -> bool) -> Seq<
    Seq<u8>,
>
    decreases segments.len(),
{
    if segments.len() == 0 {
        Seq::empty()
    } else {
        let rest = packets_where(segments.drop_last(), hit);
        if hit(segments.last()) {
            rest.push(segments.last().packet)
        } else {
            rest
        }
    }
}

/// Due: not SACKed, and last sent at least `rto_ms` ago.
pub open spec fn is_due(now_ms: u64, rto_ms: u64) -> spec_fn(Segment) -> bool {
    |s: Segment| !s.sacked && crate::congestion::elapsed(now_ms, s.sent_at_ms) >= rto_ms
}

/// RACK: not SACKed, sent before a segment that has been received since and sequenced below it,
/// and sent more than the reordering window ago.
pub open spec fn is_overtaken(q: Queue, now_ms: u64, reo_wnd_ms: u64) -> spec_fn(Segment) -> bool {
    |s: Segment|
        !s.sacked && s.sent_at_ms < q.rack_xmit_ts && crate::seq::is_before(
            s.start_seq,
            q.rack_end_seq,
        ) && crate::congestion::elapsed(now_ms, s.sent_at_ms) > reo_wnd_ms
}

/// Not SACKed: a hole.
pub open spec fn is_hole() -> spec_fn(Segment) -> bool {
    |s: Segment| !s.sacked
}

/// The first index that `hit` picks, or the length.
pub open spec fn first_where(segments: Seq<Segment>, hit: spec_fn(Segment) -> bool) -> int
    decreases segments.len(),
{
    if segments.len() == 0 {
        0
    } else {
        let i = first_where(segments.drop_last(), hit);
        if i < segments.len() - 1 || hit(segments.last()) {
            i
        } else {
            segments.len() as int
        }
    }
}

/// The last index that `hit` picks, or -1.
pub open spec fn last_where(segments: Seq<Segment>, hit: spec_fn(Segment) -> bool) -> int
    decreases segments.len(),
{
    if segments.len() == 0 {
        -1
    } else if hit(segments.last()) {
        segments.len() - 1
    } else {
        last_where(segments.drop_last(), hit)
    }
}

/// The queue after resending segment `i`; unchanged if there is none.
pub open spec fn resent_at(q: Queue, i: int, now_ms: u64) -> Queue {
    if 0 <= i < q.segments.len() {
        Queue { segments: q.segments.update(i, resent(q.segments[i], now_ms)), ..q }
    } else {
        q
    }
}

/// The packet of segment `i`, if there is one.
pub open spec fn packet_at(q: Queue, i: int) -> Option<Seq<u8>> {
    if 0 <= i < q.segments.len() {
        Some(q.segments[i].packet)
    } else {
        None
    }
}

/// One of `blocks` covers the whole segment.
pub open spec fn covered(s: Segment, blocks: Seq<(u32, u32)>) -> bool {
    exists|k: int| 0 <= k < blocks.len() && covers(#[trigger] blocks[k], s)
}

/// The block covers the whole segment.
pub open spec fn covers(block: (u32, u32), s: Segment) -> bool {
    !crate::seq::is_before(s.start_seq, block.0) && !crate::seq::is_before(block.1, s.end_seq)
}

/// The segment is SACKed by `blocks` for the first time.
pub open spec fn newly_sacked(s: Segment, blocks: Seq<(u32, u32)>) -> bool {
    !s.sacked && covered(s, blocks)
}

/// `segments` after the peer reported `blocks`.
pub open spec fn sacked_by(segments: Seq<Segment>, blocks: Seq<(u32, u32)>) -> Seq<Segment> {
    Seq::new(
        segments.len(),
        |i: int|
            Segment { sacked: segments[i].sacked || covered(segments[i], blocks), ..segments[i] },
    )
}

/// The segments that `blocks` SACK for the first time, in order.
pub open spec fn fresh_sacks(segments: Seq<Segment>, blocks: Seq<(u32, u32)>) -> Seq<Segment>
    decreases segments.len(),
{
    if segments.len() == 0 {
        Seq::empty()
    } else {
        let rest = fresh_sacks(segments.drop_last(), blocks);
        if newly_sacked(segments.last(), blocks) {
            rest.push(segments.last())
        } else {
            rest
        }
    }
}

/// The queue after the peer reported `blocks`.
pub open spec fn marked(q: Queue, blocks: Seq<(u32, u32)>) -> Queue {
    let mark = rack_mark((q.rack_xmit_ts, q.rack_end_seq), fresh_sacks(q.segments, blocks));
    Queue {
        segments: sacked_by(q.segments, blocks),
        rack_xmit_ts: mark.0,
        rack_end_seq: mark.1,
    }
}

/// How many SACKed segments start after `seq`.
pub open spec fn sacked_above(segments: Seq<Segment>, seq: u32) -> nat
    decreases segments.len(),
{
    if segments.len() == 0 {
        0
    } else {
        sacked_above(segments.drop_last(), seq) + (if segments.last().sacked
            && crate::seq::is_before(seq, segments.last().start_seq) {
            1nat
        } else {
            0
        })
    }
}

/// RFC 6675 `IsLost`: a hole with at least `dup_thresh` SACKed segments above it.
pub open spec fn is_lost(segments: Seq<Segment>, s: Segment, dup_thresh: u32) -> bool {
    !s.sacked && sacked_above(segments, s.start_seq) >= dup_thresh
}

/// A lost segment not retransmitted yet.
pub open spec fn awaits_resend(segments: Seq<Segment>, dup_thresh: u32) -> spec_fn(Segment) -> bool {
    |s: Segment| !s.sacked && s.retries == 0 && is_lost(segments, s, dup_thresh)
}

/// A segment is in the network: not held by the peer, and not lost, or sent again since.
pub open spec fn in_network(segments: Seq<Segment>, s: Segment, dup_thresh: u32) -> bool {
    !s.sacked && (!is_lost(segments, s, dup_thresh) || s.retries > 0)
}

/// RFC 6675 `Pipe` over the first `n` segments: the bytes estimated to be in the network.
pub open spec fn pipe_of(segments: Seq<Segment>, n: int, dup_thresh: u32) -> u32
    decreases n,
{
    if n <= 0 {
        0
    } else {
        let s = segments[n - 1];
        let rest = pipe_of(segments, n - 1, dup_thresh);
        if in_network(segments, s, dup_thresh) {
            rest.wrapping_add(s.end_seq.wrapping_sub(s.start_seq))
        } else {
            rest
        }
    }
}

/// If index `i` is picked and none before it is, it is the first.
pub proof fn lemma_first_where(segments: Seq<Segment>, hit: spec_fn(Segment) -> bool, i: int)
    requires
        0 <= i <= segments.len(),
        i < segments.len() ==> hit(segments[i]),
        forall|j: int| 0 <= j < i ==> !hit(#[trigger] segments[j]),
    ensures
        first_where(segments, hit) == i,
    decreases segments.len(),
{
    if segments.len() > 0 {
        let short = segments.drop_last();
        if i < segments.len() {
            lemma_first_where(short, hit, i);
        } else {
            lemma_first_where(short, hit, i - 1);
            assert(!hit(segments[i - 1]));
        }
    }
}

/// If index `i` is picked and none after it is, it is the last.
pub proof fn lemma_last_where(segments: Seq<Segment>, hit: spec_fn(Segment) -> bool, i: int)
    requires
        -1 <= i < segments.len(),
        i >= 0 ==> hit(segments[i]),
        forall|j: int| i < j < segments.len() ==> !hit(#[trigger] segments[j]),
    ensures
        last_where(segments, hit) == i,
    decreases segments.len(),
{
    if segments.len() > 0 {
        if i < segments.len() - 1 {
            assert(!hit(segments[segments.len() - 1]));
            lemma_last_where(segments.drop_last(), hit, i);
        }
    }
}

impl Unacked {
    /// Send the segment once more: restart its timer and count the retransmission.
    fn resend(&mut self, now_ms: u64) -> (packet: Vec<u8>)
        ensures
            final(self)@ == resent(old(self)@, now_ms),
            packet@ == old(self)@.packet,
    {
        self.retries = self.retries.saturating_add(1);
        self.sent_at_ms = now_ms;
        let packet: Vec<u8> = copy_range(self.packet.as_slice(), 0, self.packet.len());
        assert(packet@ =~= self.packet@);
        packet
    }
}

impl RetxQueue {
    /// A queue with nothing in flight.
    pub fn new() -> (q: RetxQueue)
        ensures
            q@ == empty_queue(),
    {
        let q = RetxQueue { segments: Vec::new(), rack_xmit_ts: 0, rack_end_seq: 0 };
        assert(q@ =~= empty_queue());
        q
    }

    /// Record a segment just sent, covering `[start_seq, end_seq)`. A SYN or FIN counts as one.
    pub fn record(&mut self, start_seq: u32, end_seq: u32, packet: Vec<u8>, now_ms: u64)
        ensures
            final(self)@ == recorded(old(self)@, start_seq, end_seq, packet@, now_ms),
    {
        self.segments.push(
            Unacked {
                start_seq,
                end_seq,
                packet,
                sent_at_ms: now_ms,
                retries: 0,
                sacked: false,
            },
        );
        assert(self@ =~= recorded(old(self)@, start_seq, end_seq, packet@, now_ms));
    }

    /// Drop every segment that is now fully acknowledged. Returns an RTT sample from the oldest of
    /// them that was never retransmitted, if there is one.
    pub fn ack(&mut self, una: u32, now_ms: u64) -> (sample: Option<u64>)
        ensures
            final(self)@ == acked_to(old(self)@, una),
            sample == rtt_sample(fully_acked(old(self)@.segments, una), now_ms),
    {
        let mut segments: Vec<Unacked> = Vec::new();
        std::mem::swap(&mut segments, &mut self.segments);
        let ghost all = segments@.map_values(|u: Unacked| u@);
        let mut kept: Vec<Unacked> = Vec::new();
        let mut sample: Option<u64> = None;
        assert(all.take(0) =~= Seq::<Segment>::empty());
        assert(kept@.map_values(|u: Unacked| u@) =~= Seq::<Segment>::empty());
        for s in it: segments.into_iter()
            invariant
                it.seq().map_values(|u: Unacked| u@) == all,
                all == old(self)@.segments,
                kept@.map_values(|u: Unacked| u@) == still_unacked(all.take(it.index()), una),
                sample == rtt_sample(fully_acked(all.take(it.index()), una), now_ms),
                (self.rack_xmit_ts, self.rack_end_seq) == rack_mark(
                    (old(self).rack_xmit_ts, old(self).rack_end_seq),
                    fully_acked(all.take(it.index()), una),
                ),
        {
            let ghost i = it.index();
            assert(all.take(i + 1).drop_last() =~= all.take(i));
            assert(all.take(i + 1).last() == s@);
            let ghost acked = fully_acked(all.take(i), una);
            let ghost kept_before = kept@.map_values(|u: Unacked| u@);
            if before(una, s.end_seq) {
                kept.push(s);
                assert(kept@.map_values(|u: Unacked| u@) =~= kept_before.push(s@));
            } else {
                assert(acked.push(s@).drop_last() =~= acked);
                if s.retries == 0 && sample.is_none() {
                    sample = Some(now_ms.saturating_sub(s.sent_at_ms));
                }
                if s.sent_at_ms >= self.rack_xmit_ts {
                    self.rack_xmit_ts = s.sent_at_ms;
                    self.rack_end_seq = s.end_seq;
                }
            }
        }
        assert(all.take(all.len() as int) =~= all);
        self.segments = kept;
        sample
    }

    /// Packets whose retransmission timeout has elapsed. Restarts their timers and counts their
    /// retransmissions. A SACKed segment is never resent: the peer has it.
    pub fn due(&mut self, now_ms: u64, rto_ms: u64) -> (out: Vec<Vec<u8>>)
        ensures
            crate::utils::contents(out@) == packets_where(
                old(self)@.segments,
                is_due(now_ms, rto_ms),
            ),
            final(self)@ == (Queue {
                segments: resent_where(old(self)@.segments, is_due(now_ms, rto_ms), now_ms),
                ..old(self)@
            }),
    {
        let ghost hit = is_due(now_ms, rto_ms);
        let ghost all = self@.segments;
        let mut out: Vec<Vec<u8>> = Vec::new();
        let mut i: usize = 0;
        assert(all.take(0) =~= Seq::<Segment>::empty());
        assert(crate::utils::contents(out@) =~= Seq::<Seq<u8>>::empty());
        while i < self.segments.len()
            invariant
                i <= self.segments@.len() == all.len(),
                all == old(self)@.segments,
                hit == is_due(now_ms, rto_ms),
                self.rack_xmit_ts == old(self).rack_xmit_ts,
                self.rack_end_seq == old(self).rack_end_seq,
                crate::utils::contents(out@) == packets_where(all.take(i as int), hit),
                forall|j: int|
                    0 <= j < all.len() ==> (#[trigger] self.segments@[j])@ == (if j < i && hit(
                        all[j],
                    ) {
                        resent(all[j], now_ms)
                    } else {
                        all[j]
                    }),
            decreases all.len() - i,
        {
            assert(all.take(i + 1).drop_last() =~= all.take(i as int));
            assert(self.segments@[i as int]@ == all[i as int]);
            let ghost sent = crate::utils::contents(out@);
            if !self.segments[i].sacked && now_ms.saturating_sub(self.segments[i].sent_at_ms)
                >= rto_ms {
                let packet: Vec<u8> = self.segments[i].resend(now_ms);
                out.push(packet);
                assert(crate::utils::contents(out@) =~= sent.push(all[i as int].packet));
            }
            i += 1;
        }
        assert(all.take(all.len() as int) =~= all);
        assert(self@.segments =~= resent_where(all, hit, now_ms));
        out
    }

    /// Resend the oldest hole immediately: the first segment the peer has not SACKed (fast
    /// retransmit, RFC 5681). `None` if there is none.
    pub fn fast_retransmit(&mut self, now_ms: u64) -> (r: Option<Vec<u8>>)
        ensures
            ({
                let i = first_where(old(self)@.segments, is_hole());
                &&& final(self)@ == resent_at(old(self)@, i, now_ms)
                &&& opt_view(r) == packet_at(old(self)@, i)
            }),
    {
        let mut i: usize = 0;
        while i < self.segments.len() && self.segments[i].sacked
            invariant
                i <= self.segments@.len(),
                *self == *old(self),
                forall|j: int| 0 <= j < i ==> (#[trigger] self@.segments[j]).sacked,
            decreases self.segments@.len() - i,
        {
            i += 1;
        }
        proof {
            lemma_first_where(self@.segments, is_hole(), i as int);
        }
        self.resend_at(i, now_ms)
    }

    /// Resend segment `i`, if there is one.
    fn resend_at(&mut self, i: usize, now_ms: u64) -> (r: Option<Vec<u8>>)
        ensures
            final(self)@ == resent_at(old(self)@, i as int, now_ms),
            opt_view(r) == packet_at(old(self)@, i as int),
    {
        if i >= self.segments.len() {
            return None;
        }
        let packet: Vec<u8> = self.segments[i].resend(now_ms);
        assert(self@ =~= resent_at(old(self)@, i as int, now_ms));
        Some(packet)
    }

    /// Mark every segment that one of the peer's SACK blocks fully covers (RFC 2018), so that loss
    /// recovery resends only the holes between them.
    pub fn mark_sacked(&mut self, blocks: &[(u32, u32)])
        ensures
            final(self)@ == marked(old(self)@, blocks@),
    {
        let ghost all = self@.segments;
        let mut i: usize = 0;
        assert(all.take(0) =~= Seq::<Segment>::empty());
        while i < self.segments.len()
            invariant
                i <= self.segments@.len() == all.len(),
                all == old(self)@.segments,
                (self.rack_xmit_ts, self.rack_end_seq) == rack_mark(
                    (old(self).rack_xmit_ts, old(self).rack_end_seq),
                    fresh_sacks(all.take(i as int), blocks@),
                ),
                forall|j: int|
                    0 <= j < all.len() ==> (#[trigger] self.segments@[j])@ == (if j < i {
                        sacked_by(all, blocks@)[j]
                    } else {
                        all[j]
                    }),
            decreases all.len() - i,
        {
            assert(all.take(i + 1).drop_last() =~= all.take(i as int));
            assert(self.segments@[i as int]@ == all[i as int]);
            let ghost fresh = fresh_sacks(all.take(i as int), blocks@);
            let ghost s = all[i as int];
            if !self.segments[i].sacked {
                let start: u32 = self.segments[i].start_seq;
                let end: u32 = self.segments[i].end_seq;
                let mut k: usize = 0;
                let mut hit: bool = false;
                while k < blocks.len() && !hit
                    invariant
                        k <= blocks@.len(),
                        start == s.start_seq,
                        end == s.end_seq,
                        hit ==> covered(s, blocks@),
                        !hit ==> forall|j: int| 0 <= j < k ==> !covers(#[trigger] blocks@[j], s),
                    decreases blocks@.len() - k + (if hit {
                        0int
                    } else {
                        1
                    }),
                {
                    if !before(start, blocks[k].0) && !after(end, blocks[k].1) {
                        assert(covers(blocks@[k as int], s));
                        hit = true;
                    } else {
                        k += 1;
                    }
                }
                assert(hit == covered(s, blocks@));
                if hit {
                    self.segments[i].sacked = true;
                    assert(fresh.push(s).drop_last() =~= fresh);
                    if self.segments[i].sent_at_ms >= self.rack_xmit_ts {
                        self.rack_xmit_ts = self.segments[i].sent_at_ms;
                        self.rack_end_seq = self.segments[i].end_seq;
                    }
                }
            }
            i += 1;
        }
        assert(all.take(all.len() as int) =~= all);
        assert(self@.segments =~= sacked_by(all, blocks@));
    }

    /// RACK time-based loss detection (RFC 8985): resend each hole that a more recently sent,
    /// already received segment has overtaken, once the reordering window has passed.
    pub fn rack_mark_lost(&mut self, now_ms: u64, reo_wnd_ms: u64) -> (out: Vec<Vec<u8>>)
        ensures
            crate::utils::contents(out@) == packets_where(
                old(self)@.segments,
                is_overtaken(old(self)@, now_ms, reo_wnd_ms),
            ),
            final(self)@ == (Queue {
                segments: resent_where(
                    old(self)@.segments,
                    is_overtaken(old(self)@, now_ms, reo_wnd_ms),
                    now_ms,
                ),
                ..old(self)@
            }),
    {
        let ghost hit = is_overtaken(self@, now_ms, reo_wnd_ms);
        let ghost all = self@.segments;
        let mut out: Vec<Vec<u8>> = Vec::new();
        let mut i: usize = 0;
        assert(all.take(0) =~= Seq::<Segment>::empty());
        assert(crate::utils::contents(out@) =~= Seq::<Seq<u8>>::empty());
        while i < self.segments.len()
            invariant
                i <= self.segments@.len() == all.len(),
                all == old(self)@.segments,
                hit == is_overtaken(old(self)@, now_ms, reo_wnd_ms),
                self.rack_xmit_ts == old(self)@.rack_xmit_ts,
                self.rack_end_seq == old(self)@.rack_end_seq,
                crate::utils::contents(out@) == packets_where(all.take(i as int), hit),
                forall|j: int|
                    0 <= j < all.len() ==> (#[trigger] self.segments@[j])@ == (if j < i && hit(
                        all[j],
                    ) {
                        resent(all[j], now_ms)
                    } else {
                        all[j]
                    }),
            decreases all.len() - i,
        {
            assert(all.take(i + 1).drop_last() =~= all.take(i as int));
            assert(self.segments@[i as int]@ == all[i as int]);
            let ghost sent = crate::utils::contents(out@);
            let overtaken: bool = self.segments[i].sent_at_ms < self.rack_xmit_ts && before(
                self.segments[i].start_seq,
                self.rack_end_seq,
            );
            if !self.segments[i].sacked && overtaken && now_ms.saturating_sub(
                self.segments[i].sent_at_ms,
            ) > reo_wnd_ms {
                let packet: Vec<u8> = self.segments[i].resend(now_ms);
                out.push(packet);
                assert(crate::utils::contents(out@) =~= sent.push(all[i as int].packet));
            }
            i += 1;
        }
        assert(all.take(all.len() as int) =~= all);
        assert(self@.segments =~= resent_where(all, hit, now_ms));
        out
    }

    /// The tail loss probe (RFC 8985): resend the last hole, the highest segment that the peer has
    /// not SACKed. `None` if there is none.
    pub fn retransmit_last(&mut self, now_ms: u64) -> (r: Option<Vec<u8>>)
        ensures
            ({
                let i = last_where(old(self)@.segments, is_hole());
                &&& final(self)@ == resent_at(old(self)@, i, now_ms)
                &&& opt_view(r) == packet_at(old(self)@, i)
            }),
    {
        let mut n: usize = self.segments.len();
        while n > 0 && self.segments[n - 1].sacked
            invariant
                n <= self.segments@.len(),
                *self == *old(self),
                forall|j: int|
                    n <= j < self.segments@.len() ==> (#[trigger] self@.segments[j]).sacked,
            decreases n,
        {
            n -= 1;
        }
        proof {
            lemma_last_where(self@.segments, is_hole(), n - 1);
        }
        if n == 0 {
            return None;
        }
        self.resend_at(n - 1, now_ms)
    }

    /// RFC 6675 `IsLost` of segment `idx`: at least `dup_thresh` segments above it have been
    /// SACKed.
    fn is_lost(&self, idx: usize, dup_thresh: u32) -> (r: bool)
        requires
            idx < self@.segments.len(),
        ensures
            r == is_lost(self@.segments, self@.segments[idx as int], dup_thresh),
    {
        if self.segments[idx].sacked {
            return false;
        }
        let ghost all = self@.segments;
        let start: u32 = self.segments[idx].start_seq;
        let mut count: usize = 0;
        let mut i: usize = 0;
        assert(all.take(0) =~= Seq::<Segment>::empty());
        while i < self.segments.len()
            invariant
                all == self@.segments,
                i <= self.segments@.len() == all.len(),
                count <= i,
                count == sacked_above(all.take(i as int), start),
            decreases all.len() - i,
        {
            assert(all.take(i + 1).drop_last() =~= all.take(i as int));
            assert(self.segments@[i as int]@ == all[i as int]);
            if self.segments[i].sacked && after(self.segments[i].start_seq, start) {
                count += 1;
            }
            i += 1;
        }
        assert(all.take(all.len() as int) =~= all);
        count >= dup_thresh as usize
    }

    /// RFC 6675 `Pipe`: the bytes estimated to be in the network. A segment counts unless the peer
    /// holds it, or it is presumed lost and has not been retransmitted.
    pub fn pipe(&self, dup_thresh: u32) -> (bytes: u32)
        ensures
            bytes == pipe_of(self@.segments, self@.segments.len() as int, dup_thresh),
    {
        let mut pipe: u32 = 0;
        let mut i: usize = 0;
        while i < self.segments.len()
            invariant
                i <= self.segments@.len() == self@.segments.len(),
                pipe == pipe_of(self@.segments, i as int, dup_thresh),
            decreases self.segments@.len() - i,
        {
            assert(self.segments@[i as int]@ == self@.segments[i as int]);
            if !self.segments[i].sacked && (!self.is_lost(i, dup_thresh)
                || self.segments[i].retries > 0) {
                pipe =
                pipe.wrapping_add(
                    self.segments[i].end_seq.wrapping_sub(self.segments[i].start_seq),
                );
            }
            i += 1;
        }
        pipe
    }

    /// RFC 6675 `NextSeg` for retransmissions: resend the lowest lost segment that has not been
    /// retransmitted. `None` when there is none.
    pub fn next_lost_retransmit(&mut self, dup_thresh: u32, now_ms: u64) -> (r: Option<Vec<u8>>)
        ensures
            ({
                let i = first_where(
                    old(self)@.segments,
                    awaits_resend(old(self)@.segments, dup_thresh),
                );
                &&& final(self)@ == resent_at(old(self)@, i, now_ms)
                &&& opt_view(r) == packet_at(old(self)@, i)
            }),
    {
        let ghost hit = awaits_resend(self@.segments, dup_thresh);
        let mut i: usize = 0;
        let mut found: bool = false;
        while i < self.segments.len() && !found
            invariant
                i <= self.segments@.len() == self@.segments.len(),
                *self == *old(self),
                hit == awaits_resend(self@.segments, dup_thresh),
                found ==> i < self.segments@.len() && hit(self@.segments[i as int]),
                forall|j: int| 0 <= j < i ==> !hit(#[trigger] self@.segments[j]),
            decreases self.segments@.len() - i + (if found {
                0int
            } else {
                1
            }),
        {
            assert(self.segments@[i as int]@ == self@.segments[i as int]);
            if !self.segments[i].sacked && self.segments[i].retries == 0 && self.is_lost(
                i,
                dup_thresh,
            ) {
                found = true;
            } else {
                i += 1;
            }
        }
        proof {
            lemma_first_where(self@.segments, hit, i as int);
        }
        self.resend_at(i, now_ms)
    }

    pub fn is_empty(&self) -> (r: bool)
        ensures
            r == (self@.segments.len() == 0),
    {
        self.segments.len() == 0
    }

    pub fn len(&self) -> (n: usize)
        ensures
            n == self@.segments.len(),
    {
        self.segments.len()
    }
}

impl Default for RetxQueue {
    fn default() -> (q: RetxQueue)
        ensures
            q@ == empty_queue(),
    {
        RetxQueue::new()
    }
}

/// The content of an optional packet.
pub open spec fn opt_view(packet: Option<Vec<u8>>) -> Option<Seq<u8>> {
    match packet {
        Some(p) => Some(p@),
        None => None,
    }
}

proof fn lemma_acked_partition(segments: Seq<Segment>, una: u32)
    ensures
        still_unacked(segments, una).len() + fully_acked(segments, una).len() == segments.len(),
        forall|i: int|
            0 <= i < still_unacked(segments, una).len() ==> segments.contains(
                #[trigger] still_unacked(segments, una)[i],
            ) && crate::seq::is_before(una, still_unacked(segments, una)[i].end_seq),
        forall|i: int|
            0 <= i < fully_acked(segments, una).len() ==> segments.contains(
                #[trigger] fully_acked(segments, una)[i],
            ) && !crate::seq::is_before(una, fully_acked(segments, una)[i].end_seq),
        forall|i: int|
            0 <= i < segments.len() && crate::seq::is_before(
                una,
                (#[trigger] segments[i]).end_seq,
            ) ==> still_unacked(segments, una).contains(segments[i]),
    decreases segments.len(),
{
    if segments.len() > 0 {
        let short = segments.drop_last();
        lemma_acked_partition(short, una);
        let kept = still_unacked(segments, una);
        let gone = fully_acked(segments, una);
        let last = segments.last();
        assert(segments[segments.len() - 1] == last);
        assert forall|i: int| 0 <= i < kept.len() implies segments.contains(#[trigger] kept[i])
            && crate::seq::is_before(una, kept[i].end_seq) by {
            if i < still_unacked(short, una).len() {
                assert(kept[i] == still_unacked(short, una)[i]);
                let j = choose|j: int| 0 <= j < short.len() && short[j] == kept[i];
                assert(segments[j] == kept[i]);
            }
        }
        assert forall|i: int| 0 <= i < gone.len() implies segments.contains(#[trigger] gone[i])
            && !crate::seq::is_before(una, gone[i].end_seq) by {
            if i < fully_acked(short, una).len() {
                assert(gone[i] == fully_acked(short, una)[i]);
                let j = choose|j: int| 0 <= j < short.len() && short[j] == gone[i];
                assert(segments[j] == gone[i]);
            }
        }
        assert forall|i: int|
            0 <= i < segments.len() && crate::seq::is_before(
                una,
                (#[trigger] segments[i]).end_seq,
            ) implies kept.contains(segments[i]) by {
            if i < short.len() {
                assert(short[i] == segments[i]);
                let j = choose|j: int|
                    0 <= j < still_unacked(short, una).len() && still_unacked(short, una)[j]
                        == short[i];
                assert(kept[j] == segments[i]);
            } else {
                assert(kept[kept.len() - 1] == last);
            }
        }
    }
}

/// An acknowledgement drops exactly what it covers: a segment stays in the queue, unchanged, if
/// and only if the acknowledgement lies before its end.
pub proof fn law_ack_drops_exactly_what_it_covers(q: Queue, una: u32, s: Segment)
    ensures
        acked_to(q, una).segments.contains(s) <==> q.segments.contains(s)
            && crate::seq::is_before(una, s.end_seq),
{
    lemma_acked_partition(q.segments, una);
    let kept = still_unacked(q.segments, una);
    if kept.contains(s) {
        let i = choose|i: int| 0 <= i < kept.len() && kept[i] == s;
        assert(q.segments.contains(kept[i]));
    }
    if q.segments.contains(s) && crate::seq::is_before(una, s.end_seq) {
        let i = choose|i: int| 0 <= i < q.segments.len() && q.segments[i] == s;
        assert(kept.contains(q.segments[i]));
    }
}

proof fn lemma_no_sample_from_retransmissions(acked: Seq<Segment>, now_ms: u64)
    requires
        forall|i: int| 0 <= i < acked.len() ==> (#[trigger] acked[i]).retries > 0,
    ensures
        rtt_sample(acked, now_ms) is None,
    decreases acked.len(),
{
    if acked.len() > 0 {
        assert(acked[acked.len() - 1].retries > 0);
        assert forall|i: int| 0 <= i < acked.drop_last().len() implies (
        #[trigger] acked.drop_last()[i]).retries > 0 by {
            assert(acked[i].retries > 0);
        }
        lemma_no_sample_from_retransmissions(acked.drop_last(), now_ms);
    }
}

/// Karn's algorithm: an acknowledgement that covers only retransmitted segments yields no RTT
/// sample.
pub proof fn law_no_rtt_sample_from_retransmissions(q: Queue, una: u32, now_ms: u64)
    requires
        forall|i: int|
            0 <= i < q.segments.len() && !crate::seq::is_before(
                una,
                (#[trigger] q.segments[i]).end_seq,
            ) ==> q.segments[i].retries > 0,
    ensures
        rtt_sample(fully_acked(q.segments, una), now_ms) is None,
{
    lemma_acked_partition(q.segments, una);
    let acked = fully_acked(q.segments, una);
    assert forall|i: int| 0 <= i < acked.len() implies (#[trigger] acked[i]).retries > 0 by {
        let j = choose|j: int| 0 <= j < q.segments.len() && q.segments[j] == acked[i];
        assert(q.segments[j].retries > 0);
    }
    lemma_no_sample_from_retransmissions(acked, now_ms);
}

/// `hit` picks only holes.
pub open spec fn picks_holes(hit: spec_fn(Segment) -> bool) -> bool {
    forall|s: Segment| #[trigger] hit(s) ==> !s.sacked
}

/// A SACKed segment is never resent: whichever way of resending is used, what the timeout, RACK,
/// fast retransmit, the tail loss probe and SACK recovery pick are holes, and a SACKed segment
/// stays as it is.
pub proof fn law_sacked_segments_are_never_resent(
    q: Queue,
    i: int,
    now_ms: u64,
    rto_ms: u64,
    dup_thresh: u32,
)
    requires
        0 <= i < q.segments.len(),
        q.segments[i].sacked,
    ensures
        resent_where(q.segments, is_due(now_ms, rto_ms), now_ms)[i] == q.segments[i],
        resent_where(q.segments, is_overtaken(q, now_ms, rto_ms), now_ms)[i] == q.segments[i],
        first_where(q.segments, is_hole()) != i,
        last_where(q.segments, is_hole()) != i,
        first_where(q.segments, awaits_resend(q.segments, dup_thresh)) != i,
        picks_holes(is_due(now_ms, rto_ms)),
        picks_holes(is_overtaken(q, now_ms, rto_ms)),
{
    lemma_first_is_picked(q.segments, is_hole());
    lemma_last_is_picked(q.segments, is_hole());
    lemma_first_is_picked(q.segments, awaits_resend(q.segments, dup_thresh));
}

/// What `first_where` finds is picked.
pub proof fn lemma_first_is_picked(segments: Seq<Segment>, hit: spec_fn(Segment) -> bool)
    ensures
        0 <= first_where(segments, hit) <= segments.len(),
        first_where(segments, hit) < segments.len() ==> hit(
            segments[first_where(segments, hit)],
        ),
        forall|j: int| 0 <= j < first_where(segments, hit) ==> !hit(#[trigger] segments[j]),
    decreases segments.len(),
{
    if segments.len() > 0 {
        let short = segments.drop_last();
        lemma_first_is_picked(short, hit);
        let i = first_where(segments, hit);
        assert forall|j: int| 0 <= j < i implies !hit(#[trigger] segments[j]) by {
            if j < short.len() {
                assert(short[j] == segments[j]);
            }
        }
        if i < short.len() {
            assert(short[i] == segments[i]);
        }
    }
}

/// What `last_where` finds is picked.
pub proof fn lemma_last_is_picked(segments: Seq<Segment>, hit: spec_fn(Segment) -> bool)
    ensures
        -1 <= last_where(segments, hit) < segments.len(),
        last_where(segments, hit) >= 0 ==> hit(segments[last_where(segments, hit)]),
    decreases segments.len(),
{
    if segments.len() > 0 && !hit(segments.last()) {
        lemma_last_is_picked(segments.drop_last(), hit);
    }
}

/// Reported data counts as delivered: with every segment SACKed, nothing is in the network.
pub proof fn law_pipe_excludes_sacked(segments: Seq<Segment>, n: int, dup_thresh: u32)
    requires
        0 <= n <= segments.len(),
        forall|i: int| 0 <= i < segments.len() ==> (#[trigger] segments[i]).sacked,
    ensures
        pipe_of(segments, n, dup_thresh) == 0,
    decreases n,
{
    if n > 0 {
        law_pipe_excludes_sacked(segments, n - 1, dup_thresh);
        assert(segments[n - 1].sacked);
    }
}

/// A retransmission goes out verbatim: resending changes neither what a segment covers nor its
/// bytes, so the copy that is sent is the one first recorded.
pub proof fn law_resending_keeps_the_packet(s: Segment, now_ms: u64)
    ensures
        resent(s, now_ms).packet == s.packet,
        resent(s, now_ms).start_seq == s.start_seq,
        resent(s, now_ms).end_seq == s.end_seq,
        resent(s, now_ms).sacked == s.sacked,
        resent(s, now_ms).retries > 0,
{
}

/// What the peer reports is marked, and nothing else: a segment counts as received if it did before,
/// or if some block covers it from its first number to its last.
pub proof fn law_reports_mark_what_they_cover(q: Queue, blocks: Seq<(u32, u32)>, i: int)
    requires
        0 <= i < q.segments.len(),
    ensures
        ({
            let s = q.segments[i];
            let s1 = marked(q, blocks).segments[i];
            &&& marked(q, blocks).segments.len() == q.segments.len()
            &&& s1 == (Segment { sacked: s1.sacked, ..s })
            &&& s1.sacked <==> s.sacked || exists|k: int|
                0 <= k < blocks.len() && (s.start_seq - (#[trigger] blocks[k]).0) % 0x1_0000_0000
                    < 0x8000_0000 && (blocks[k].1 - s.end_seq) % 0x1_0000_0000 < 0x8000_0000
        }),
{
    let s = q.segments[i];
    assert forall|k: int| 0 <= k < blocks.len() implies (covers(#[trigger] blocks[k], s) <==> (
    s.start_seq - blocks[k].0) % 0x1_0000_0000 < 0x8000_0000 && (blocks[k].1 - s.end_seq)
        % 0x1_0000_0000 < 0x8000_0000) by {}
    if covered(s, blocks) {
        let k = choose|k: int| 0 <= k < blocks.len() && covers(#[trigger] blocks[k], s);
        assert((s.start_seq - blocks[k].0) % 0x1_0000_0000 < 0x8000_0000);
    }
}

/// The RTT sample is that of the oldest acknowledged segment that was never sent again: the time
/// since it was sent. There is none if all were sent again.
pub proof fn law_sample_is_the_oldest_clean_one(acked: Seq<Segment>, i: int, now_ms: u64)
    requires
        0 <= i < acked.len(),
        acked[i].retries == 0,
        forall|j: int| 0 <= j < i ==> (#[trigger] acked[j]).retries > 0,
    ensures
        rtt_sample(acked, now_ms) == Some(
            if now_ms >= acked[i].sent_at_ms {
                (now_ms - acked[i].sent_at_ms) as u64
            } else {
                0
            },
        ),
    decreases acked.len(),
{
    let short = acked.drop_last();
    if i < short.len() {
        assert(short[i] == acked[i]);
        assert forall|j: int| 0 <= j < i implies (#[trigger] short[j]).retries > 0 by {
            assert(short[j] == acked[j]);
        }
        law_sample_is_the_oldest_clean_one(short, i, now_ms);
    } else {
        assert forall|j: int| 0 <= j < short.len() implies (#[trigger] short[j]).retries > 0 by {
            assert(short[j] == acked[j]);
        }
        lemma_no_sample_from_retransmissions(short, now_ms);
    }
}

/// An acknowledgement parts the queue: what it covers is taken out, what it does not cover stays,
/// each in its order. Covered means that the segment ends at or before it.
pub proof fn law_ack_parts_the_queue(segments: Seq<Segment>, una: u32)
    ensures
        fully_acked(segments, una) == segments.filter(
            |s: Segment| !(0 < (s.end_seq - una) % 0x1_0000_0000 <= 0x8000_0000),
        ),
        still_unacked(segments, una) == segments.filter(
            |s: Segment| 0 < (s.end_seq - una) % 0x1_0000_0000 <= 0x8000_0000,
        ),
    decreases segments.len(),
{
    reveal(Seq::filter);
    if segments.len() > 0 {
        law_ack_parts_the_queue(segments.drop_last(), una);
        let s = segments.last();
        assert(crate::seq::is_before(una, s.end_seq) <==> 0 < (s.end_seq - una) % 0x1_0000_0000
            <= 0x8000_0000);
    }
}

/// The RACK mark is the latest transmission known to have arrived: no earlier than the mark before
/// and than any of the segments, and one of them. Of segments sent at the same time the last
/// counts.
pub proof fn law_rack_mark_is_the_latest(mark: (u64, u32), segments: Seq<Segment>)
    ensures
        ({
            let m = rack_mark(mark, segments);
            &&& m.0 >= mark.0
            &&& forall|i: int|
                0 <= i < segments.len() ==> m.0 >= (#[trigger] segments[i]).sent_at_ms
            &&& m == mark || exists|i: int|
                0 <= i < segments.len() && m.0 == (#[trigger] segments[i]).sent_at_ms && m.1
                    == segments[i].end_seq && forall|j: int|
                    i < j < segments.len() ==> (#[trigger] segments[j]).sent_at_ms < m.0
            &&& forall|i: int|
                0 <= i < segments.len() && (#[trigger] segments[i]).sent_at_ms >= mark.0 ==> exists|
                    k: int,
                |
                    0 <= k < segments.len() && m.1 == (#[trigger] segments[k]).end_seq && m.0
                        == segments[k].sent_at_ms
        }),
    decreases segments.len(),
{
    if segments.len() > 0 {
        let short = segments.drop_last();
        law_rack_mark_is_the_latest(mark, short);
        let m0 = rack_mark(mark, short);
        let m = rack_mark(mark, segments);
        let n = segments.len() - 1;
        assert forall|i: int| 0 <= i < segments.len() implies m.0 >= (
        #[trigger] segments[i]).sent_at_ms by {
            if i < n {
                assert(short[i] == segments[i]);
            }
        }
        if segments[n].sent_at_ms >= m0.0 {
            assert(m.0 == segments[n].sent_at_ms && m.1 == segments[n].end_seq);
        } else {
            if m0 != mark {
                let i = choose|i: int|
                    0 <= i < short.len() && m0.0 == (#[trigger] short[i]).sent_at_ms && m0.1
                        == short[i].end_seq && forall|j: int|
                        i < j < short.len() ==> (#[trigger] short[j]).sent_at_ms < m0.0;
                assert(segments[i] == short[i]);
                assert forall|j: int| i < j < segments.len() implies (
                #[trigger] segments[j]).sent_at_ms < m.0 by {
                    if j < n {
                        assert(short[j] == segments[j]);
                    }
                }
            }
            assert forall|i: int|
                0 <= i < segments.len() && (#[trigger] segments[i]).sent_at_ms
                    >= mark.0 implies exists|k: int|
                0 <= k < segments.len() && m.1 == (#[trigger] segments[k]).end_seq && m.0
                    == segments[k].sent_at_ms by {
                if i < n {
                    assert(short[i] == segments[i]);
                    let k = choose|k: int|
                        0 <= k < short.len() && m0.1 == (#[trigger] short[k]).end_seq && m0.0
                            == short[k].sent_at_ms;
                    assert(segments[k] == short[k]);
                }
            }
        }
    }
}

/// The queue's mark after an acknowledgement, or after a report, is taken over exactly what is
/// newly known to have arrived.
pub proof fn law_arrivals_move_the_rack_mark(q: Queue, una: u32, blocks: Seq<(u32, u32)>)
    ensures
        (acked_to(q, una).rack_xmit_ts, acked_to(q, una).rack_end_seq) == rack_mark(
            (q.rack_xmit_ts, q.rack_end_seq),
            q.segments.filter(
                |s: Segment| !(0 < (s.end_seq - una) % 0x1_0000_0000 <= 0x8000_0000),
            ),
        ),
        (marked(q, blocks).rack_xmit_ts, marked(q, blocks).rack_end_seq) == rack_mark(
            (q.rack_xmit_ts, q.rack_end_seq),
            q.segments.filter(|s: Segment| !s.sacked && covered(s, blocks)),
        ),
{
    law_ack_parts_the_queue(q.segments, una);
    lemma_fresh_sacks_filter(q.segments, blocks);
}

proof fn lemma_fresh_sacks_filter(segments: Seq<Segment>, blocks: Seq<(u32, u32)>)
    ensures
        fresh_sacks(segments, blocks) == segments.filter(
            |s: Segment| !s.sacked && covered(s, blocks),
        ),
    decreases segments.len(),
{
    reveal(Seq::filter);
    if segments.len() > 0 {
        lemma_fresh_sacks_filter(segments.drop_last(), blocks);
    }
}

/// A timer resends exactly what it picks: those packets leave in the order of the queue, and only
/// those segments count a retransmission and restart their clock.
pub proof fn law_timers_resend_what_they_pick(
    segments: Seq<Segment>,
    hit: spec_fn(Segment) -> bool,
    now_ms: u64,
)
    ensures
        packets_where(segments, hit) == segments.filter(hit).map_values(|s: Segment| s.packet),
        resent_where(segments, hit, now_ms).len() == segments.len(),
        forall|i: int|
            0 <= i < segments.len() ==> (#[trigger] resent_where(segments, hit, now_ms)[i]) == (
            if hit(segments[i]) {
                Segment {
                    sent_at_ms: now_ms,
                    retries: if segments[i].retries == u32::MAX {
                        u32::MAX
                    } else {
                        (segments[i].retries + 1) as u32
                    },
                    ..segments[i]
                }
            } else {
                segments[i]
            }),
    decreases segments.len(),
{
    reveal(Seq::filter);
    if segments.len() > 0 {
        law_timers_resend_what_they_pick(segments.drop_last(), hit, now_ms);
        let rest = segments.drop_last().filter(hit);
        assert(segments.filter(hit).map_values(|s: Segment| s.packet) =~= packets_where(
            segments,
            hit,
        )) by {
            if hit(segments.last()) {
                assert(segments.filter(hit) =~= rest.push(segments.last()));
            }
        }
    } else {
        assert(packets_where(segments, hit) =~= segments.filter(hit).map_values(
            |s: Segment| s.packet,
        ));
    }
}

/// When each timer picks a segment: the timeout one that the peer has not reported and that was last
/// sent at least an RTO ago; RACK one that was also overtaken, that is, sent before the mark and
/// sequenced below it, more than the reordering window ago. The tail probe takes the last hole, a
/// fast retransmission the first.
pub proof fn law_what_timers_pick(q: Queue, s: Segment, now_ms: u64, span_ms: u64)
    ensures
        is_due(now_ms, span_ms)(s) <==> !s.sacked && (span_ms == 0 || now_ms >= s.sent_at_ms
            + span_ms),
        is_overtaken(q, now_ms, span_ms)(s) <==> !s.sacked && s.sent_at_ms < q.rack_xmit_ts && 0 < (
        q.rack_end_seq - s.start_seq) % 0x1_0000_0000 <= 0x8000_0000 && now_ms > s.sent_at_ms
            + span_ms,
        ({
            let i = first_where(q.segments, is_hole());
            let k = last_where(q.segments, is_hole());
            &&& i < q.segments.len() ==> 0 <= i && !q.segments[i].sacked
            &&& forall|j: int| 0 <= j < i < q.segments.len() ==> (#[trigger] q.segments[j]).sacked
            &&& i >= q.segments.len() ==> forall|j: int|
                0 <= j < q.segments.len() ==> (#[trigger] q.segments[j]).sacked
            &&& k >= 0 ==> k < q.segments.len() && !q.segments[k].sacked
            &&& forall|j: int| k < j < q.segments.len() ==> (#[trigger] q.segments[j]).sacked || j
                < 0
        }),
{
    lemma_first_is_picked(q.segments, is_hole());
    lemma_last_is_picked(q.segments, is_hole());
    lemma_none_behind_the_last(q.segments, is_hole());
    let i = first_where(q.segments, is_hole());
    let k = last_where(q.segments, is_hole());
    assert forall|j: int| 0 <= j < i && j < q.segments.len() implies (
    #[trigger] q.segments[j]).sacked by {
        assert(!is_hole()(q.segments[j]));
    }
    assert forall|j: int| k < j < q.segments.len() && 0 <= j implies (
    #[trigger] q.segments[j]).sacked by {
        assert(!is_hole()(q.segments[j]));
    }
}

pub proof fn lemma_none_behind_the_last(segments: Seq<Segment>, hit: spec_fn(Segment) -> bool)
    ensures
        forall|j: int|
            last_where(segments, hit) < j < segments.len() && 0 <= j ==> !hit(#[trigger] segments[j]),
    decreases segments.len(),
{
    if segments.len() > 0 && !hit(segments.last()) {
        let short = segments.drop_last();
        lemma_none_behind_the_last(short, hit);
        assert forall|j: int|
            last_where(segments, hit) < j < segments.len() && 0 <= j implies !hit(
            #[trigger] segments[j],
        ) by {
            if j < short.len() {
                assert(short[j] == segments[j]);
            }
        }
    }
}

} // verus!
