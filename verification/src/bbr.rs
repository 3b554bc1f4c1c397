//! BBR, the model-based congestion controller (bottleneck bandwidth and round-trip propagation
//! time).
//!
//! Loss is not its signal. It models the path from two measurements: BtlBw, the largest delivery
//! rate over the last round trips, and RTprop, the smallest RTT over the last ten seconds. Their
//! product is the data that keeps the pipe full without a queue. It paces at `pacing_gain * BtlBw`
//! and caps what is in flight at `cwnd_gain * BtlBw * RTprop`:
//!
//! ```text
//!   STARTUP   exponential ramp until the bandwidth stops growing        -> DRAIN
//!   DRAIN     pace below the rate to empty the queue just built         -> PROBE_BW
//!   PROBE_BW  steady state: cycle the pacing gain, one phase per round
//!   PROBE_RTT from DRAIN or PROBE_BW, after ten seconds without a new
//!             minimum: drop to four segments for 200 ms to measure the
//!             RTT again                                                 -> PROBE_BW
//! ```
use std::collections::VecDeque;

use vstd::prelude::*;

use crate::congestion::MSS;
use crate::rate::{Gain, Pace, Rate};

verus! {

/// Length of the BtlBw window, in round trips.
pub const BW_WINDOW_ROUNDS: u64 = 10;

/// Length of the RTprop window.
pub const RTPROP_WINDOW_MS: u64 = 10_000;

/// How long PROBE_RTT holds the small window.
pub const PROBE_RTT_DURATION_MS: u64 = 200;

/// The window never falls below four segments.
pub const MIN_PIPE_CWND: u32 = 5840;

/// STARTUP ends after this many rounds in a row without a quarter's growth.
pub const FULL_BW_COUNT: u32 = 3;

/// Still fast-retransmit on the third duplicate ACK.
pub const DUP_ACK_THRESHOLD: u32 = 3;

/// The number of phases of the PROBE_BW gain cycle.
pub const CYCLE_LEN: usize = 8;

/// The four states of the controller.
#[derive(Debug, Clone, Copy, PartialEq, Eq, Structural)]
pub enum Mode {
    Startup,
    Drain,
    ProbeBw,
    ProbeRtt,
}

/// The gain of STARTUP, 2 / ln 2: the smallest that doubles the delivery rate each round.
pub open spec fn high_gain() -> Gain {
    Gain { num: 2_885_390_081_777_927, den: 1_000_000_000_000_000 }
}

/// The pacing gain of DRAIN: the inverse of STARTUP's.
pub open spec fn drain_gain() -> Gain {
    Gain { num: 1_000_000_000_000_000, den: 2_885_390_081_777_927 }
}

pub open spec fn unit_gain() -> Gain {
    Gain { num: 1, den: 1 }
}

/// The window gain of PROBE_BW: twice the bandwidth-delay product, to tolerate delayed ACKs.
pub open spec fn steady_gain() -> Gain {
    Gain { num: 2, den: 1 }
}

/// The pacing gain of each PROBE_BW phase: probe for more, give the queue back, then cruise.
pub open spec fn cycle_gain(phase: int) -> Gain {
    if phase == 0 {
        Gain { num: 5, den: 4 }
    } else if phase == 1 {
        Gain { num: 3, den: 4 }
    } else {
        unit_gain()
    }
}

/// What a sliding-window maximum filter remembers: its window and the samples that may still
/// become the maximum, oldest and largest first.
#[verifier::ext_equal]
pub struct MaxFilter {
    pub window: u64,
    pub samples: Seq<(u64, Rate)>,
}

/// `samples` without the newest ones that are no larger than `v`: they can never be the maximum
/// while `v` is in the window.
pub open spec fn undominated(samples: Seq<(u64, Rate)>, v: Rate) -> Seq<(u64, Rate)>
    decreases samples.len(),
{
    if samples.len() > 0 && crate::rate::rate_at_least(v, samples.last().1) {
        undominated(samples.drop_last(), v)
    } else {
        samples
    }
}

/// `samples` without the oldest ones that have left the window at time `t`.
pub open spec fn unexpired(samples: Seq<(u64, Rate)>, t: u64, window: u64) -> Seq<(u64, Rate)>
    decreases samples.len(),
{
    if samples.len() > 0 && t - samples[0].0 > window {
        unexpired(samples.drop_first(), t, window)
    } else {
        samples
    }
}

/// The filter after a sample of `v` at time `t`.
pub open spec fn fed(f: MaxFilter, t: u64, v: Rate) -> MaxFilter {
    MaxFilter {
        window: f.window,
        samples: unexpired(undominated(f.samples, v).push((t, v)), t, f.window),
    }
}

/// The filter's estimate: its oldest remembered sample, or zero.
pub open spec fn peak(f: MaxFilter) -> Rate {
    if f.samples.len() > 0 {
        f.samples[0].1
    } else {
        crate::rate::zero_rate()
    }
}

/// A sliding-window maximum filter over timed rates, kept as a monotonically decreasing deque:
/// the front is always the window's maximum.
#[derive(Debug)]
pub struct WindowedMax {
    window: u64,
    dq: VecDeque<(u64, Rate)>,
}

impl View for WindowedMax {
    type V = MaxFilter;

    closed spec fn view(&self) -> MaxFilter {
        MaxFilter { window: self.window, samples: self.dq@ }
    }
}

impl WindowedMax {
    pub fn new(window: u64) -> (f: WindowedMax)
        ensures
            f@ == (MaxFilter { window, samples: Seq::empty() }),
    {
        WindowedMax { window, dq: VecDeque::new() }
    }

    /// Take in the sample `v` at time `t`.
    pub fn update(&mut self, t: u64, v: Rate)
        ensures
            final(self)@ == fed(old(self)@, t, v),
    {
        while self.dq.len() > 0
            invariant
                self.window == old(self).window,
                undominated(self.dq@, v) == undominated(old(self).dq@, v),
            ensures
                self.window == old(self).window,
                self.dq@ == undominated(old(self).dq@, v),
            decreases self.dq@.len(),
        {
            let back: Rate = self.dq[self.dq.len() - 1].1;
            if !v.at_least(&back) {
                break;
            }
            let ghost before = self.dq@;
            self.dq.pop_back();
            assert(self.dq@ =~= before.drop_last());
        }
        self.dq.push_back((t, v));
        let ghost grown = self.dq@;
        while self.dq.len() > 0
            invariant
                self.window == old(self).window,
                unexpired(self.dq@, t, self.window) == unexpired(grown, t, self.window),
            ensures
                self.window == old(self).window,
                self.dq@ == unexpired(grown, t, self.window),
            decreases self.dq@.len(),
        {
            let front: u64 = self.dq[0].0;
            if t.saturating_sub(front) <= self.window {
                break;
            }
            let ghost before = self.dq@;
            self.dq.pop_front();
            assert(self.dq@ =~= before.drop_first());
        }
    }

    /// The maximum in the window; zero before the first sample.
    pub fn get(&self) -> (v: Rate)
        ensures
            v == peak(self@),
    {
        if self.dq.len() > 0 {
            self.dq[0].1
        } else {
            Rate::zero()
        }
    }
}

/// Everything the controller knows of a path, beside the bandwidth filter.
#[derive(Debug, Clone, Copy, PartialEq, Eq, Structural)]
pub struct Model {
    pub mode: Mode,
    /// The cap on bytes in flight.
    pub cwnd: u32,
    /// The current send-rate multiplier.
    pub pacing_gain: Gain,
    /// The current multiplier of the cap.
    pub cwnd_gain: Gain,
    /// The smallest recent RTT; the largest number until the first sample.
    pub rtprop_ms: u64,
    /// When RTprop was last refreshed.
    pub rtprop_stamp_ms: u64,
    /// The time of the most recent delivery.
    pub delivered_time_ms: u64,
    /// False until the first ACK has set `delivered_time_ms`.
    pub has_delivery: bool,
    /// Round trips so far; the bandwidth filter and the gain cycle run on it.
    pub round_count: u64,
    /// The start of the current round.
    pub round_stamp_ms: u64,
    /// The bandwidth at the last plateau check.
    pub full_bw: Rate,
    /// Consecutive rounds without a quarter's growth.
    pub full_bw_count: u32,
    /// STARTUP found the bandwidth plateau.
    pub filled_pipe: bool,
    /// The phase of the gain cycle.
    pub cycle_index: usize,
    /// When the current PROBE_RTT episode may end; 0 outside one.
    pub probe_rtt_done_ms: u64,
    /// Consecutive duplicate ACKs.
    pub dup_acks: u32,
}

/// The whole state of the controller.
#[verifier::ext_equal]
pub struct BbrState {
    pub model: Model,
    pub bw: MaxFilter,
}

/// The controller of a new connection.
pub open spec fn fresh() -> BbrState {
    BbrState {
        model: Model {
            mode: Mode::Startup,
            cwnd: MIN_PIPE_CWND,
            pacing_gain: high_gain(),
            cwnd_gain: high_gain(),
            rtprop_ms: u64::MAX,
            rtprop_stamp_ms: 0,
            delivered_time_ms: 0,
            has_delivery: false,
            round_count: 0,
            round_stamp_ms: 0,
            full_bw: crate::rate::zero_rate(),
            full_bw_count: 0,
            filled_pipe: false,
            cycle_index: 0,
            probe_rtt_done_ms: 0,
            dup_acks: 0,
        },
        bw: MaxFilter { window: BW_WINDOW_ROUNDS, samples: Seq::empty() },
    }
}

/// RTprop after an ACK with the RTT sample `rtt`, if any: a new minimum is adopted, and so is any
/// sample once the estimate has aged out of its window.
pub open spec fn with_rtprop(m: Model, rtt: Option<u64>, expired: bool, now_ms: u64) -> Model {
    match rtt {
        Some(r) if r <= m.rtprop_ms || expired => Model {
            rtprop_ms: r,
            rtprop_stamp_ms: now_ms,
            ..m
        },
        _ => m,
    }
}

/// How long a round lasts: one RTprop, and at least a millisecond.
pub open spec fn round_length(rtprop_ms: u64) -> int {
    if rtprop_ms == u64::MAX || rtprop_ms == 0 {
        1
    } else {
        rtprop_ms as int
    }
}

/// In PROBE_BW, past the probing phases.
pub open spec fn cruising(m: Model) -> Model {
    Model {
        mode: Mode::ProbeBw,
        cwnd_gain: steady_gain(),
        cycle_index: 2,
        pacing_gain: cycle_gain(2),
        ..m
    }
}

/// The plateau check of STARTUP, once per round.
pub open spec fn plateau_checked(m: Model, btlbw: Rate) -> Model {
    if 4 * (btlbw.bytes * m.full_bw.ms) >= 5 * (m.full_bw.bytes * btlbw.ms) {
        Model { full_bw: btlbw, full_bw_count: 0, ..m }
    } else {
        let n = crate::congestion::sat32(m.full_bw_count + 1);
        if n >= FULL_BW_COUNT {
            Model { full_bw_count: n, filled_pipe: true, mode: Mode::Drain, ..m }
        } else {
            Model { full_bw_count: n, ..m }
        }
    }
}

/// `x + y` cut off at the largest 64-bit number.
pub open spec fn sat64(x: int) -> u64 {
    if x > u64::MAX {
        u64::MAX
    } else {
        x as u64
    }
}

/// In PROBE_RTT from now on.
pub open spec fn probing_rtt(m: Model, now_ms: u64) -> Model {
    Model {
        mode: Mode::ProbeRtt,
        pacing_gain: unit_gain(),
        cwnd_gain: unit_gain(),
        probe_rtt_done_ms: sat64(now_ms + PROBE_RTT_DURATION_MS),
        ..m
    }
}

/// One step of the state machine, at an ACK. In DRAIN and PROBE_BW an RTprop estimate that has aged
/// out of its window (`expired`) leads to PROBE_RTT.
pub open spec fn stepped(
    m: Model,
    btlbw: Rate,
    round_start: bool,
    expired: bool,
    now_ms: u64,
) -> Model {
    match m.mode {
        Mode::Startup => {
            let m = Model { pacing_gain: high_gain(), cwnd_gain: high_gain(), ..m };
            if round_start {
                plateau_checked(m, btlbw)
            } else {
                m
            }
        },
        Mode::Drain => {
            let m = if round_start {
                cruising(m)
            } else {
                Model { pacing_gain: drain_gain(), cwnd_gain: high_gain(), ..m }
            };
            if expired {
                probing_rtt(m, now_ms)
            } else {
                m
            }
        },
        Mode::ProbeBw => {
            let phase = if round_start {
                ((m.cycle_index + 1) % CYCLE_LEN as int) as usize
            } else {
                m.cycle_index
            };
            let m = Model {
                cycle_index: phase,
                cwnd_gain: steady_gain(),
                pacing_gain: cycle_gain(phase as int),
                ..m
            };
            if expired {
                probing_rtt(m, now_ms)
            } else {
                m
            }
        },
        Mode::ProbeRtt => {
            let m = Model { pacing_gain: unit_gain(), cwnd_gain: unit_gain(), ..m };
            if now_ms >= m.probe_rtt_done_ms {
                let m = Model { rtprop_stamp_ms: now_ms, probe_rtt_done_ms: 0, ..m };
                if m.filled_pipe {
                    cruising(m)
                } else {
                    Model { mode: Mode::Startup, ..m }
                }
            } else {
                m
            }
        },
    }
}

/// The window for a model: `cwnd_gain * BtlBw * RTprop` with a floor of four segments, and
/// exactly the floor in PROBE_RTT.
pub open spec fn model_window(m: Model, btlbw: Rate) -> u32 {
    let rtprop = if m.rtprop_ms == u64::MAX {
        0
    } else {
        m.rtprop_ms as int
    };
    let target = crate::congestion::sat32(
        crate::rate::delivered_in(m.cwnd_gain, btlbw, rtprop),
    );
    if m.mode == Mode::ProbeRtt || target < MIN_PIPE_CWND {
        MIN_PIPE_CWND
    } else {
        target
    }
}

/// The controller after an ACK of `acked` new bytes: the RTprop estimate, the round count, the
/// bandwidth filter (the first ACK only starts the clock), the state machine, and the window.
pub open spec fn acknowledged(s: BbrState, acked: u32, rtt: Option<u64>, now_ms: u64) -> BbrState {
    let expired = crate::congestion::elapsed(now_ms, s.model.rtprop_stamp_ms) > RTPROP_WINDOW_MS;
    let m = with_rtprop(Model { dup_acks: 0, ..s.model }, rtt, expired, now_ms);
    let round_start = crate::congestion::elapsed(now_ms, m.round_stamp_ms) >= round_length(
        m.rtprop_ms,
    );
    let m = if round_start {
        Model { round_count: sat64(m.round_count + 1), round_stamp_ms: now_ms, ..m }
    } else {
        m
    };
    let interval = crate::congestion::elapsed(now_ms, m.delivered_time_ms);
    let bw = if m.has_delivery && interval > 0 && acked > 0 {
        fed(s.bw, m.round_count, Rate { bytes: acked, ms: interval as u64 })
    } else {
        s.bw
    };
    let m = Model { has_delivery: true, delivered_time_ms: now_ms, ..m };
    let m = stepped(m, peak(bw), round_start, expired, now_ms);
    BbrState { model: Model { cwnd: model_window(m, peak(bw)), ..m }, bw }
}

/// The controller after a duplicate ACK: only the count changes.
pub open spec fn duplicated(s: BbrState) -> BbrState {
    BbrState {
        model: Model { dup_acks: crate::congestion::counted(s.model.dup_acks), ..s.model },
        ..s
    }
}

/// The controller after a timeout: back to STARTUP at the floor. RTprop and the bandwidth filter
/// stay: the path did not change because a packet was lost.
pub open spec fn timed_out(s: BbrState) -> BbrState {
    BbrState {
        model: Model {
            mode: Mode::Startup,
            cwnd: MIN_PIPE_CWND,
            pacing_gain: high_gain(),
            cwnd_gain: high_gain(),
            full_bw: crate::rate::zero_rate(),
            full_bw_count: 0,
            filled_pipe: false,
            cycle_index: 0,
            dup_acks: 0,
            ..s.model
        },
        ..s
    }
}

impl BbrState {
    /// Gains and measured rates are proper fractions, the gain cycle is in one of its phases, and
    /// the window is at least the floor.
    pub open spec fn wf(self) -> bool {
        &&& self.model.pacing_gain.wf()
        &&& self.model.cwnd_gain.wf()
        &&& self.model.full_bw.wf()
        &&& self.model.cycle_index < CYCLE_LEN
        &&& self.model.cwnd >= MIN_PIPE_CWND
        &&& self.model.mode != Mode::Startup ==> self.model.filled_pipe
        &&& forall|i: int| 0 <= i < self.bw.samples.len() ==> (#[trigger] self.bw.samples[i]).1.wf()
    }

    /// The paced send rate: `pacing_gain * BtlBw`.
    pub open spec fn pace(self) -> Pace {
        Pace { gain: self.model.pacing_gain, rate: peak(self.bw) }
    }
}

/// Per-connection BBR state.
#[derive(Debug)]
pub struct Bbr {
    model: Model,
    bw_filter: WindowedMax,
}

impl View for Bbr {
    type V = BbrState;

    closed spec fn view(&self) -> BbrState {
        BbrState { model: self.model, bw: self.bw_filter@ }
    }
}

fn exec_high_gain() -> (g: Gain)
    ensures
        g == high_gain(),
{
    Gain { num: 2_885_390_081_777_927, den: 1_000_000_000_000_000 }
}

fn exec_unit_gain() -> (g: Gain)
    ensures
        g == unit_gain(),
{
    Gain { num: 1, den: 1 }
}

fn exec_cycle_gain(phase: usize) -> (g: Gain)
    ensures
        g == cycle_gain(phase as int),
{
    if phase == 0 {
        Gain { num: 5, den: 4 }
    } else if phase == 1 {
        Gain { num: 3, den: 4 }
    } else {
        exec_unit_gain()
    }
}

proof fn lemma_fed_keeps_rates_proper(f: MaxFilter, t: u64, v: Rate)
    requires
        v.wf(),
        forall|i: int| 0 <= i < f.samples.len() ==> (#[trigger] f.samples[i]).1.wf(),
    ensures
        forall|i: int| 0 <= i < fed(f, t, v).samples.len() ==> (#[trigger] fed(f, t, v).samples[i]).1.wf(),
{
    lemma_undominated_is_prefix(f.samples, v);
    let grown = undominated(f.samples, v).push((t, v));
    lemma_unexpired_is_suffix(grown, t, f.window);
}

/// What is left after dropping dominated samples is a prefix.
proof fn lemma_undominated_is_prefix(s: Seq<(u64, Rate)>, v: Rate)
    ensures
        undominated(s, v).len() <= s.len(),
        undominated(s, v) == s.take(undominated(s, v).len() as int),
        undominated(s, v).len() > 0 ==> !crate::rate::rate_at_least(
            v,
            undominated(s, v).last().1,
        ),
        forall|i: int|
            undominated(s, v).len() <= i < s.len() ==> crate::rate::rate_at_least(
                v,
                (#[trigger] s[i]).1,
            ),
    decreases s.len(),
{
    if s.len() > 0 && crate::rate::rate_at_least(v, s.last().1) {
        lemma_undominated_is_prefix(s.drop_last(), v);
        let u = undominated(s.drop_last(), v);
        assert(u =~= s.take(u.len() as int));
        assert forall|i: int| u.len() <= i < s.len() implies crate::rate::rate_at_least(
            v,
            (#[trigger] s[i]).1,
        ) by {
            if i < s.len() - 1 {
                assert(s[i] == s.drop_last()[i]);
            }
        }
    } else {
        assert(s =~= s.take(s.len() as int));
    }
}

/// What is left after expiring old samples is a suffix.
proof fn lemma_unexpired_is_suffix(s: Seq<(u64, Rate)>, t: u64, window: u64)
    ensures
        unexpired(s, t, window).len() <= s.len(),
        unexpired(s, t, window) == s.skip(s.len() - unexpired(s, t, window).len()),
        unexpired(s, t, window).len() > 0 ==> t - unexpired(s, t, window)[0].0 <= window,
        forall|i: int|
            0 <= i < s.len() - unexpired(s, t, window).len() ==> t - (#[trigger] s[i]).0 > window,
    decreases s.len(),
{
    if s.len() > 0 && t - s[0].0 > window {
        lemma_unexpired_is_suffix(s.drop_first(), t, window);
        let u = unexpired(s.drop_first(), t, window);
        assert(u =~= s.skip(s.len() - u.len()));
        assert forall|i: int| 0 <= i < s.len() - u.len() implies t - (#[trigger] s[i]).0 > window by {
            if i > 0 {
                assert(s[i] == s.drop_first()[i - 1]);
            }
        }
    } else {
        assert(s =~= s.skip(0));
    }
}

impl Bbr {
    pub open spec fn wf(self) -> bool {
        self@.wf()
    }

    pub fn new() -> (b: Bbr)
        ensures
            b@ == fresh(),
            b.wf(),
    {
        Bbr {
            model: Model {
                mode: Mode::Startup,
                cwnd: MIN_PIPE_CWND,
                pacing_gain: exec_high_gain(),
                cwnd_gain: exec_high_gain(),
                rtprop_ms: u64::MAX,
                rtprop_stamp_ms: 0,
                delivered_time_ms: 0,
                has_delivery: false,
                round_count: 0,
                round_stamp_ms: 0,
                full_bw: Rate::zero(),
                full_bw_count: 0,
                filled_pipe: false,
                cycle_index: 0,
                probe_rtt_done_ms: 0,
                dup_acks: 0,
            },
            bw_filter: WindowedMax::new(BW_WINDOW_ROUNDS),
        }
    }

    /// Bytes the model will currently let us keep in flight.
    pub fn window(&self) -> (w: u32)
        ensures
            w == self@.model.cwnd,
    {
        self.model.cwnd
    }

    /// The current paced send rate, `pacing_gain * BtlBw`.
    pub fn pacing_rate_bps(&self) -> (p: Pace)
        ensures
            p == self@.pace(),
    {
        Pace { gain: self.model.pacing_gain, rate: self.bw_filter.get() }
    }

    /// The current state.
    pub fn mode(&self) -> (m: Mode)
        ensures
            m == self@.model.mode,
    {
        self.model.mode
    }

    /// The current BtlBw estimate.
    pub fn btlbw_bps(&self) -> (r: Rate)
        ensures
            r == peak(self@.bw),
    {
        self.bw_filter.get()
    }

    /// The current pacing gain.
    pub fn pacing_gain(&self) -> (g: Gain)
        ensures
            g == self@.model.pacing_gain,
    {
        self.model.pacing_gain
    }

    /// The current RTprop estimate.
    pub fn rtprop_ms(&self) -> (ms: u64)
        ensures
            ms == self@.model.rtprop_ms,
    {
        self.model.rtprop_ms
    }

    /// Has STARTUP found the bandwidth plateau?
    pub fn filled_pipe(&self) -> (r: bool)
        ensures
            r == self@.model.filled_pipe,
    {
        self.model.filled_pipe
    }

    /// BBR never enters fast recovery: loss is not its signal.
    pub fn in_recovery(&self) -> (r: bool)
        ensures
            r == false,
    {
        false
    }

    /// An ACK of `acked` new bytes at `now_ms`, with an RTT sample when one was measured.
    pub fn on_ack(&mut self, acked: u32, rtt_ms: Option<u64>, now_ms: u64)
        requires
            old(self).wf(),
        ensures
            final(self)@ == acknowledged(old(self)@, acked, rtt_ms, now_ms),
            final(self).wf(),
    {
        self.model.dup_acks = 0;
        let expired: bool = now_ms.saturating_sub(self.model.rtprop_stamp_ms) > RTPROP_WINDOW_MS;
        if let Some(r) = rtt_ms {
            if r <= self.model.rtprop_ms || expired {
                self.model.rtprop_ms = r;
                self.model.rtprop_stamp_ms = now_ms;
            }
        }
        let round: u64 = if self.model.rtprop_ms == u64::MAX || self.model.rtprop_ms == 0 {
            1
        } else {
            self.model.rtprop_ms
        };
        let mut round_start: bool = false;
        if now_ms.saturating_sub(self.model.round_stamp_ms) >= round {
            self.model.round_count = self.model.round_count.saturating_add(1);
            self.model.round_stamp_ms = now_ms;
            round_start = true;
        }
        if self.model.has_delivery {
            let interval_ms: u64 = now_ms.saturating_sub(self.model.delivered_time_ms);
            if interval_ms > 0 && acked > 0 {
                let rate: Rate = Rate { bytes: acked, ms: interval_ms };
                proof {
                    lemma_fed_keeps_rates_proper(self.bw_filter@, self.model.round_count, rate);
                }
                self.bw_filter.update(self.model.round_count, rate);
            }
        } else {
            self.model.has_delivery = true;
        }
        self.model.delivered_time_ms = now_ms;
        self.update_model(round_start, expired, now_ms);
        self.recompute_cwnd();
    }

    /// State transitions, once per ACK.
    fn update_model(&mut self, round_start: bool, expired: bool, now_ms: u64)
        requires
            old(self).wf(),
        ensures
            final(self)@ == (BbrState {
                model: stepped(
                    old(self)@.model,
                    peak(old(self)@.bw),
                    round_start,
                    expired,
                    now_ms,
                ),
                bw: old(self)@.bw,
            }),
            final(self).wf(),
    {
        let btlbw: Rate = self.bw_filter.get();
        match self.model.mode {
            Mode::Startup => {
                self.model.pacing_gain = exec_high_gain();
                self.model.cwnd_gain = exec_high_gain();
                if round_start {
                    if btlbw.grew_by_a_quarter(&self.model.full_bw) {
                        self.model.full_bw = btlbw;
                        self.model.full_bw_count = 0;
                    } else {
                        self.model.full_bw_count = self.model.full_bw_count.saturating_add(1);
                        if self.model.full_bw_count >= FULL_BW_COUNT {
                            self.model.filled_pipe = true;
                            self.model.mode = Mode::Drain;
                        }
                    }
                }
            },
            Mode::Drain => {
                self.model.pacing_gain = Gain {
                    num: 1_000_000_000_000_000,
                    den: 2_885_390_081_777_927,
                };
                self.model.cwnd_gain = exec_high_gain();
                if round_start {
                    self.enter_probe_bw();
                }
                self.maybe_enter_probe_rtt(expired, now_ms);
            },
            Mode::ProbeBw => {
                self.model.cwnd_gain = Gain { num: 2, den: 1 };
                if round_start {
                    self.model.cycle_index = (self.model.cycle_index + 1) % CYCLE_LEN;
                }
                self.model.pacing_gain = exec_cycle_gain(self.model.cycle_index);
                self.maybe_enter_probe_rtt(expired, now_ms);
            },
            Mode::ProbeRtt => {
                self.model.pacing_gain = exec_unit_gain();
                self.model.cwnd_gain = exec_unit_gain();
                if now_ms >= self.model.probe_rtt_done_ms {
                    self.model.rtprop_stamp_ms = now_ms;
                    self.model.probe_rtt_done_ms = 0;
                    if self.model.filled_pipe {
                        self.enter_probe_bw();
                    } else {
                        self.model.mode = Mode::Startup;
                    }
                }
            },
        }
    }

    /// Enter PROBE_RTT once the RTprop window has passed without a new minimum.
    fn maybe_enter_probe_rtt(&mut self, expired: bool, now_ms: u64)
        requires
            old(self).wf(),
            old(self)@.model.filled_pipe,
        ensures
            final(self)@ == (BbrState {
                model: if expired {
                    probing_rtt(old(self)@.model, now_ms)
                } else {
                    old(self)@.model
                },
                bw: old(self)@.bw,
            }),
            final(self).wf(),
    {
        if expired {
            self.model.mode = Mode::ProbeRtt;
            self.model.pacing_gain = exec_unit_gain();
            self.model.cwnd_gain = exec_unit_gain();
            self.model.probe_rtt_done_ms = now_ms.saturating_add(PROBE_RTT_DURATION_MS);
        }
    }

    fn enter_probe_bw(&mut self)
        requires
            old(self).wf(),
            old(self)@.model.filled_pipe,
        ensures
            final(self)@ == (BbrState { model: cruising(old(self)@.model), bw: old(self)@.bw }),
            final(self).wf(),
    {
        self.model.mode = Mode::ProbeBw;
        self.model.cwnd_gain = Gain { num: 2, den: 1 };
        self.model.cycle_index = 2;
        self.model.pacing_gain = exec_cycle_gain(2);
    }

    fn recompute_cwnd(&mut self)
        requires
            old(self).wf(),
        ensures
            final(self)@ == (BbrState {
                model: Model {
                    cwnd: model_window(old(self)@.model, peak(old(self)@.bw)),
                    ..old(self)@.model
                },
                bw: old(self)@.bw,
            }),
            final(self).wf(),
    {
        if self.model.mode == Mode::ProbeRtt {
            self.model.cwnd = MIN_PIPE_CWND;
            return;
        }
        let btlbw: Rate = self.bw_filter.get();
        let rtprop: u64 = if self.model.rtprop_ms == u64::MAX {
            0
        } else {
            self.model.rtprop_ms
        };
        let target: u32 = btlbw.delivered(self.model.cwnd_gain, rtprop);
        self.model.cwnd = if target < MIN_PIPE_CWND {
            MIN_PIPE_CWND
        } else {
            target
        };
    }

    /// A duplicate ACK: the window is untouched, but the third is reported so that the connection
    /// fast-retransmits the missing segment.
    pub fn on_dup_ack(&mut self) -> (retransmit: bool)
        ensures
            final(self)@ == duplicated(old(self)@),
            retransmit == (crate::congestion::counted(old(self)@.model.dup_acks)
                == DUP_ACK_THRESHOLD),
            old(self).wf() ==> final(self).wf(),
    {
        self.model.dup_acks = self.model.dup_acks.saturating_add(1);
        self.model.dup_acks == DUP_ACK_THRESHOLD
    }

    /// The retransmission timer fired: restart probing.
    pub fn on_timeout(&mut self)
        ensures
            final(self)@ == timed_out(old(self)@),
            old(self).wf() ==> final(self).wf(),
    {
        self.model.mode = Mode::Startup;
        self.model.cwnd = MIN_PIPE_CWND;
        self.model.pacing_gain = exec_high_gain();
        self.model.cwnd_gain = exec_high_gain();
        self.model.full_bw = Rate::zero();
        self.model.full_bw_count = 0;
        self.model.filled_pipe = false;
        self.model.cycle_index = 0;
        self.model.dup_acks = 0;
    }
}

impl Default for Bbr {
    fn default() -> (b: Bbr)
        ensures
            b@ == fresh(),
            b.wf(),
    {
        Bbr::new()
    }
}

/// The filter after all of `history`, in order.
pub open spec fn filtered(window: u64, history: Seq<(u64, Rate)>) -> MaxFilter
    decreases history.len(),
{
    if history.len() == 0 {
        MaxFilter { window, samples: Seq::empty() }
    } else {
        fed(filtered(window, history.drop_last()), history.last().0, history.last().1)
    }
}

/// `history` is in time order and made of proper rates.
pub open spec fn is_history(history: Seq<(u64, Rate)>) -> bool {
    &&& forall|i: int, j: int|
        0 <= i <= j < history.len() ==> (#[trigger] history[i]).0 <= (#[trigger] history[j]).0
    &&& forall|i: int| 0 <= i < history.len() ==> (#[trigger] history[i]).1.wf()
}

/// Each remembered sample comes from the window.
spec fn from_window(samples: Seq<(u64, Rate)>, window: u64, history: Seq<(u64, Rate)>) -> bool {
    forall|k: int|
        0 <= k < samples.len() ==> history.contains(#[trigger] samples[k]) && history.last().0
            - samples[k].0 <= window
}

/// Remembered samples grow younger and strictly smaller.
spec fn falling(samples: Seq<(u64, Rate)>) -> bool {
    forall|k: int, l: int|
        0 <= k < l < samples.len() ==> (#[trigger] samples[k]).0 <= (#[trigger] samples[l]).0
            && !crate::rate::rate_at_least(samples[l].1, samples[k].1)
}

/// The remembered sample `k` is at least as large and as recent as `h`.
spec fn matched(samples: Seq<(u64, Rate)>, k: int, h: (u64, Rate)) -> bool {
    0 <= k < samples.len() && samples[k].0 >= h.0 && crate::rate::rate_at_least(samples[k].1, h.1)
}

/// Each sample of the window is matched by a remembered one.
spec fn all_matched(samples: Seq<(u64, Rate)>, window: u64, history: Seq<(u64, Rate)>) -> bool {
    forall|j: int|
        0 <= j < history.len() && history.last().0 - (#[trigger] history[j]).0 <= window
            ==> exists|k: int| matched(samples, k, history[j])
}

/// Why the front of the filter is the maximum.
spec fn tracks(f: MaxFilter, window: u64, history: Seq<(u64, Rate)>) -> bool {
    &&& f.window == window
    &&& history.len() > 0 ==> f.samples.len() > 0
    &&& from_window(f.samples, window, history)
    &&& falling(f.samples)
    &&& all_matched(f.samples, window, history)
}

/// The parts of one update: of `old_s`, the first `kept` stay, the new sample follows, and the
/// first `cut` of the result expire.
spec fn updates(
    old_s: Seq<(u64, Rate)>,
    new_s: Seq<(u64, Rate)>,
    kept: int,
    cut: int,
    window: u64,
    t: u64,
    v: Rate,
) -> bool {
    let grown = old_s.take(kept).push((t, v));
    &&& 0 <= kept <= old_s.len()
    &&& 0 <= cut <= kept
    &&& new_s == grown.skip(cut)
    &&& kept > 0 ==> !crate::rate::rate_at_least(v, old_s[kept - 1].1)
    &&& forall|i: int|
        kept <= i < old_s.len() ==> crate::rate::rate_at_least(v, (#[trigger] old_s[i]).1)
    &&& t - new_s[0].0 <= window
    &&& forall|i: int| 0 <= i < cut ==> t - (#[trigger] old_s[i]).0 > window
}

proof fn lemma_fed_updates(f: MaxFilter, t: u64, v: Rate) -> (r: (int, int))
    requires
        forall|i: int| 0 <= i < f.samples.len() ==> (#[trigger] f.samples[i]).0 <= t,
    ensures
        updates(f.samples, fed(f, t, v).samples, r.0, r.1, f.window, t, v),
{
    let kept = undominated(f.samples, v);
    let grown = kept.push((t, v));
    let new_s = fed(f, t, v).samples;
    lemma_undominated_is_prefix(f.samples, v);
    lemma_unexpired_is_suffix(grown, t, f.window);
    let cut = grown.len() - new_s.len();
    assert(new_s.len() > 0) by {
        if new_s.len() == 0 {
            assert(grown[grown.len() - 1] == (t, v));
        }
    }
    assert forall|i: int| 0 <= i < cut implies t - (#[trigger] f.samples[i]).0 > f.window by {
        assert(grown[i] == f.samples[i]);
    }
    (kept.len() as int, cut)
}

proof fn lemma_step_falling(
    old_s: Seq<(u64, Rate)>,
    new_s: Seq<(u64, Rate)>,
    kept: int,
    cut: int,
    window: u64,
    t: u64,
    v: Rate,
)
    requires
        updates(old_s, new_s, kept, cut, window, t, v),
        falling(old_s),
        forall|i: int| 0 <= i < old_s.len() ==> (#[trigger] old_s[i]).0 <= t && old_s[i].1.wf(),
    ensures
        falling(new_s),
{
    let grown = old_s.take(kept).push((t, v));
    assert forall|k: int, l: int| 0 <= k < l < new_s.len() implies (#[trigger] new_s[k]).0 <= (
    #[trigger] new_s[l]).0 && !crate::rate::rate_at_least(new_s[l].1, new_s[k].1) by {
        let m = k + cut;
        let n = l + cut;
        assert(new_s[k] == old_s[m]);
        if n < kept {
            assert(new_s[l] == old_s[n]);
        } else {
            // The new sample is below the last one kept, which is below the earlier ones.
            assert(new_s[l] == (t, v));
            if crate::rate::rate_at_least(v, old_s[m].1) {
                if m < kept - 1 {
                    crate::rate::lemma_rate_order_total(old_s[m].1, old_s[kept - 1].1);
                    crate::rate::lemma_rate_order_transitive(
                        v,
                        old_s[m].1,
                        old_s[kept - 1].1,
                    );
                }
                assert(false);
            }
        }
    }
}

proof fn lemma_step_matched(
    old_s: Seq<(u64, Rate)>,
    new_s: Seq<(u64, Rate)>,
    kept: int,
    cut: int,
    window: u64,
    past: Seq<(u64, Rate)>,
    t: u64,
    v: Rate,
)
    requires
        updates(old_s, new_s, kept, cut, window, t, v),
        all_matched(old_s, window, past),
        forall|i: int| 0 <= i < old_s.len() ==> (#[trigger] old_s[i]).0 <= t && old_s[i].1.wf(),
        is_history(past.push((t, v))),
    ensures
        all_matched(new_s, window, past.push((t, v))),
{
    let history = past.push((t, v));
    let last = new_s.len() - 1;
    assert(new_s[last] == (t, v));
    assert forall|j: int|
        0 <= j < history.len() && history.last().0 - (#[trigger] history[j]).0
            <= window implies exists|k: int| matched(new_s, k, history[j]) by {
        let h = history[j];
        if j == history.len() - 1 {
            assert(crate::rate::rate_at_least(v, v)) by {
                crate::rate::lemma_rate_order_total(v, v);
            }
            assert(matched(new_s, last, h));
        } else {
            assert(past[j] == h);
            assert(past.last() == history[history.len() - 2]);
            assert(history[history.len() - 2].0 <= history[history.len() - 1].0);
            let k = choose|k: int| matched(old_s, k, h);
            if k >= kept {
                crate::rate::lemma_rate_order_transitive(v, old_s[k].1, h.1);
                assert(history[j].0 <= history[history.len() - 1].0);
                assert(matched(new_s, last, h));
            } else {
                assert(k >= cut);
                assert(new_s[k - cut] == old_s[k]);
                assert(matched(new_s, k - cut, h));
            }
        }
    }
}

proof fn lemma_filter_tracks(window: u64, history: Seq<(u64, Rate)>)
    requires
        is_history(history),
    ensures
        tracks(filtered(window, history), window, history),
    decreases history.len(),
{
    if history.len() > 0 {
        let past = history.drop_last();
        let (t, v) = history.last();
        lemma_filter_tracks(window, past);
        let f = filtered(window, past);
        let g = filtered(window, history);
        assert(past.push((t, v)) =~= history);
        assert forall|i: int| 0 <= i < f.samples.len() implies (#[trigger] f.samples[i]).0 <= t
            && f.samples[i].1.wf() && history.contains(f.samples[i]) by {
            assert(past.contains(f.samples[i]));
            let p = choose|p: int| 0 <= p < past.len() && past[p] == f.samples[i];
            assert(history[p] == f.samples[i]);
            assert(history[history.len() - 1] == (t, v));
        }
        let (kept, cut) = lemma_fed_updates(f, t, v);
        lemma_step_falling(f.samples, g.samples, kept, cut, window, t, v);
        lemma_step_matched(f.samples, g.samples, kept, cut, window, past, t, v);
        assert forall|k: int| 0 <= k < g.samples.len() implies history.contains(
            #[trigger] g.samples[k],
        ) && t - g.samples[k].0 <= window by {
            if k + cut < kept {
                assert(g.samples[k] == f.samples[k + cut]);
            } else {
                assert(g.samples[k] == history[history.len() - 1]);
            }
            if k > 0 {
                assert(g.samples[0].0 <= g.samples[k].0);
            }
        }
    }
}

/// The filter's estimate is the true sliding-window maximum: over any history of samples in time
/// order, it is one of those no older than the window, and none of those is larger.
pub proof fn law_filter_is_window_maximum(window: u64, history: Seq<(u64, Rate)>)
    requires
        is_history(history),
        history.len() > 0,
    ensures
        exists|i: int|
            0 <= i < history.len() && (#[trigger] history[i]).1 == peak(filtered(window, history))
                && history.last().0 - history[i].0 <= window,
        forall|j: int|
            0 <= j < history.len() && history.last().0 - (#[trigger] history[j]).0 <= window
                ==> crate::rate::rate_at_least(peak(filtered(window, history)), history[j].1),
{
    lemma_filter_tracks(window, history);
    let f = filtered(window, history);
    assert(history.contains(f.samples[0]));
    assert forall|j: int|
        0 <= j < history.len() && history.last().0 - (#[trigger] history[j]).0
            <= window implies crate::rate::rate_at_least(peak(f), history[j].1) by {
        let k = choose|k: int| matched(f.samples, k, history[j]);
        if k > 0 {
            crate::rate::lemma_rate_order_total(f.samples[0].1, f.samples[k].1);
            assert(history.contains(f.samples[k]));
            crate::rate::lemma_rate_order_transitive(f.samples[0].1, f.samples[k].1, history[j].1);
        }
    }
}

/// The window never falls below four segments, whatever arrives, and is exactly that in
/// PROBE_RTT.
pub proof fn law_window_has_a_floor(s: BbrState, acked: u32, rtt: Option<u64>, now_ms: u64)
    ensures
        fresh().model.cwnd == 4 * MSS,
        timed_out(s).model.cwnd == 4 * MSS,
        acknowledged(s, acked, rtt, now_ms).model.cwnd >= 4 * MSS,
        acknowledged(s, acked, rtt, now_ms).model.mode == Mode::ProbeRtt ==> acknowledged(
            s,
            acked,
            rtt,
            now_ms,
        ).model.cwnd == 4 * MSS,
{
}

/// A stale RTprop estimate is measured again: in DRAIN and in PROBE_BW, the first ACK after ten
/// seconds without a new minimum enters PROBE_RTT, which holds the floor for 200 ms and then
/// resumes steady state.
pub proof fn law_stale_rtprop_is_probed(
    s: BbrState,
    acked: u32,
    rtt: Option<u64>,
    now_ms: u64,
    later_ms: u64,
)
    requires
        s.wf(),
        s.model.mode == Mode::Drain || s.model.mode == Mode::ProbeBw,
        crate::congestion::elapsed(now_ms, s.model.rtprop_stamp_ms) > RTPROP_WINDOW_MS,
        now_ms + PROBE_RTT_DURATION_MS <= u64::MAX,
    ensures
        ({
            let s1 = acknowledged(s, acked, rtt, now_ms);
            let s2 = acknowledged(s1, acked, rtt, later_ms);
            &&& s1.model.mode == Mode::ProbeRtt && s1.model.cwnd == MIN_PIPE_CWND
            &&& later_ms < now_ms + PROBE_RTT_DURATION_MS ==> s2.model.mode == Mode::ProbeRtt
            &&& later_ms >= now_ms + PROBE_RTT_DURATION_MS ==> s2.model.mode == Mode::ProbeBw
        }),
{
}

/// Loss does not cut the window: duplicate ACKs leave the whole model as it is, but for their
/// count.
pub proof fn law_loss_is_no_signal(s: BbrState)
    ensures
        duplicated(s).model.cwnd == s.model.cwnd,
        duplicated(s).pace() == s.pace(),
        duplicated(s).bw == s.bw,
{
}

/// While its estimate is fresh, RTprop only ever falls: an ACK cannot raise it until ten seconds
/// have passed without a new minimum.
pub proof fn law_rtprop_is_a_minimum(s: BbrState, acked: u32, rtt: Option<u64>, now_ms: u64)
    requires
        crate::congestion::elapsed(now_ms, s.model.rtprop_stamp_ms) <= RTPROP_WINDOW_MS,
    ensures
        acknowledged(s, acked, rtt, now_ms).model.rtprop_ms <= s.model.rtprop_ms,
        rtt is Some ==> acknowledged(s, acked, rtt, now_ms).model.rtprop_ms <= rtt->0,
{
}

/// PROBE_BW moves to the next phase each round and pays back what it probes: over the eight
/// phases the pacing gains add up to exactly eight, so the cycle sends at the estimated rate.
pub proof fn law_gain_cycle(m: Model, btlbw: Rate, now_ms: u64)
    requires
        m.mode == Mode::ProbeBw,
        m.cycle_index < CYCLE_LEN,
    ensures
        stepped(m, btlbw, true, false, now_ms).cycle_index == (m.cycle_index + 1) % 8,
        stepped(m, btlbw, true, false, now_ms).pacing_gain == cycle_gain(
            (m.cycle_index + 1) % 8,
        ),
        stepped(m, btlbw, false, false, now_ms).pacing_gain == cycle_gain(m.cycle_index as int),
        quarters(0) + quarters(1) + quarters(2) + quarters(3) + quarters(4) + quarters(5)
            + quarters(6) + quarters(7) == 8 * 4,
{
    assert(quarters(0) == 5);
    assert(quarters(1) == 3);
    assert forall|phase: int| 2 <= phase < 8 implies #[trigger] quarters(phase) == 4 by {
        assert(cycle_gain(phase) == unit_gain());
    }
}

/// The pacing gain of a phase, in quarters.
pub open spec fn quarters(phase: int) -> int {
    cycle_gain(phase).num * 4 / cycle_gain(phase).den as int
}

/// The rate that an ACK measures. Of two ACKs, the second `d` ms after the first and of `b` bytes
/// more: the estimate is then at least `b` in `d`, and it is that or one that stood in the filter
/// before. An ACK of nothing, or in the same millisecond, measures nothing.
pub proof fn law_an_ack_measures_bytes_over_time(
    s: BbrState,
    first: u32,
    first_rtt: Option<u64>,
    t: u64,
    b: u32,
    rtt: Option<u64>,
    d: u64,
)
    requires
        s.wf(),
        t + d <= u64::MAX,
    ensures
        ({
            let s1 = acknowledged(s, first, first_rtt, t);
            let s2 = acknowledged(s1, b, rtt, (t + d) as u64);
            let best = peak(s2.bw);
            &&& b == 0 || d == 0 ==> s2.bw == s1.bw
            &&& b > 0 && d > 0 ==> {
                &&& s2.bw.samples.len() > 0
                &&& best == (Rate { bytes: b, ms: d }) || exists|i: int|
                    0 <= i < s1.bw.samples.len() && (#[trigger] s1.bw.samples[i]).1 == best
                &&& s2.bw.samples.last() == (s2.model.round_count, Rate { bytes: b, ms: d })
            }
            &&& !s.model.has_delivery ==> s1.bw == s.bw
        }),
{
    let s1 = acknowledged(s, first, first_rtt, t);
    let s2 = acknowledged(s1, b, rtt, (t + d) as u64);
    if b > 0 && d > 0 {
        let v = Rate { bytes: b, ms: d };
        let n = s2.model.round_count;
        assert(s2.bw == fed(s1.bw, n, v));
        lemma_undominated_is_prefix(s1.bw.samples, v);
        let kept = undominated(s1.bw.samples, v).push((n, v));
        lemma_unexpired_is_suffix(kept, n, s1.bw.window);
        lemma_newest_stays(kept, n, s1.bw.window);
        let k = kept.len() - s2.bw.samples.len();
        assert(s2.bw.samples =~= kept.skip(k));
        assert(s2.bw.samples[0] == kept[k]);
        if k < kept.len() - 1 {
            assert(kept[k] == s1.bw.samples[k]);
        }
    }
}

/// The newest sample never expires on arrival.
proof fn lemma_newest_stays(samples: Seq<(u64, Rate)>, t: u64, window: u64)
    requires
        samples.len() > 0,
        samples.last().0 == t,
    ensures
        unexpired(samples, t, window).len() > 0,
    decreases samples.len(),
{
    if t - samples[0].0 > window {
        lemma_newest_stays(samples.drop_first(), t, window);
    }
}

/// A controller that has taken in ACKs of `b` bytes, one every `d` ms from `start` on, with any RTT
/// samples.
pub open spec fn steadily_acked(
    start: u64,
    b: u32,
    d: u64,
    rtts: Seq<Option<u64>>,
) -> BbrState
    decreases rtts.len(),
{
    if rtts.len() == 0 {
        fresh()
    } else {
        acknowledged(
            steadily_acked(start, b, d, rtts.drop_last()),
            b,
            rtts.last(),
            (start + (rtts.len() - 1) * d) as u64,
        )
    }
}

/// On a path that delivers `b` bytes every `d` ms, the estimate is `b` in `d` from the second ACK
/// on, whatever the RTT samples are.
pub proof fn law_steady_delivery_is_measured(
    start: u64,
    b: u32,
    d: u64,
    rtts: Seq<Option<u64>>,
)
    requires
        b > 0,
        d > 0,
        start + rtts.len() * d <= u64::MAX,
    ensures
        rtts.len() >= 2 ==> peak(steadily_acked(start, b, d, rtts).bw) == (Rate {
            bytes: b,
            ms: d,
        }),
        rtts.len() < 2 ==> peak(steadily_acked(start, b, d, rtts).bw).bytes == 0,
{
    lemma_steady_delivery(start, b, d, rtts);
}

proof fn lemma_steady_delivery(start: u64, b: u32, d: u64, rtts: Seq<Option<u64>>)
    requires
        b > 0,
        d > 0,
        start + rtts.len() * d <= u64::MAX,
    ensures
        ({
            let s = steadily_acked(start, b, d, rtts);
            &&& rtts.len() < 2 ==> s.bw.samples.len() == 0
            &&& rtts.len() >= 2 ==> s.bw.samples.len() == 1 && s.bw.samples[0].1 == (Rate {
                bytes: b,
                ms: d,
            })
            &&& rtts.len() >= 1 ==> s.model.has_delivery && s.model.delivered_time_ms == start + (
            rtts.len() - 1) * d
            &&& rtts.len() == 0 ==> s == fresh()
        }),
    decreases rtts.len(),
{
    if rtts.len() > 0 {
        let n = rtts.len() - 1;
        let short = rtts.drop_last();
        assert(start + n * d + d == start + rtts.len() * d) by (nonlinear_arith)
            requires
                n == rtts.len() - 1,
        ;
        lemma_steady_delivery(start, b, d, short);
        let s0 = steadily_acked(start, b, d, short);
        let now = start + n * d;
        assert(0 <= n * d) by (nonlinear_arith)
            requires
                0 <= n,
                0 < d,
        ;
        let s = acknowledged(s0, b, rtts.last(), now as u64);
        if n > 0 {
            assert(n * d == (n - 1) * d + d) by (nonlinear_arith);
            let v = Rate { bytes: b, ms: d };
            reveal(crate::rate::rate_at_least);
            reveal_with_fuel(undominated, 2);
            reveal_with_fuel(unexpired, 2);
            assert(s.bw == fed(s0.bw, s.model.round_count, v));
            if s0.bw.samples.len() == 1 {
                assert(s0.bw.samples.last().1 == v);
                assert(s0.bw.samples.drop_last() =~= Seq::<(u64, Rate)>::empty());
            }
            assert(undominated(s0.bw.samples, v) =~= Seq::<(u64, Rate)>::empty());
            assert(s.bw.samples =~= seq![(s.model.round_count, v)]);
        }
    }
}

/// The window is `cwnd_gain * BtlBw * RTprop` in whole bytes, but never below four segments, and
/// just that in PROBE_RTT or before the first RTT sample.
pub proof fn law_window_is_gain_times_bdp(s: BbrState, acked: u32, rtt: Option<u64>, now_ms: u64)
    requires
        s.wf(),
    ensures
        ({
            let s1 = acknowledged(s, acked, rtt, now_ms);
            let m = s1.model;
            let rate = peak(s1.bw);
            let bytes = m.cwnd_gain.num * rate.bytes * m.rtprop_ms;
            let per = m.cwnd_gain.den * rate.ms;
            &&& m.mode == Mode::ProbeRtt || m.rtprop_ms == u64::MAX ==> m.cwnd == 5840
            &&& rate.ms > 0 && m.cwnd_gain.den > 0
            &&& m.mode != Mode::ProbeRtt && m.rtprop_ms != u64::MAX ==> {
                ||| m.cwnd == 5840 && bytes < 5841 * per
                ||| 5840 < m.cwnd < u32::MAX && m.cwnd * per <= bytes < (m.cwnd + 1) * per
                ||| m.cwnd == u32::MAX && m.cwnd * per <= bytes
            }
        }),
{
    let s1 = acknowledged(s, acked, rtt, now_ms);
    let m = s1.model;
    let rate = peak(s1.bw);
    let interval = crate::congestion::elapsed(now_ms, s.model.delivered_time_ms);
    if s.model.has_delivery && interval > 0 && acked > 0 {
        lemma_fed_keeps_rates_proper(
            s.bw,
            m.round_count,
            Rate { bytes: acked, ms: interval as u64 },
        );
    }
    assert(forall|i: int| 0 <= i < s1.bw.samples.len() ==> (#[trigger] s1.bw.samples[i]).1.wf());
    assert(rate.ms > 0);
    assert(m.cwnd_gain.den > 0);
    if m.rtprop_ms == u64::MAX {
        crate::rate::law_delivery_is_rate_times_time(m.cwnd_gain, rate, 0);
        let n = crate::rate::delivered_in(m.cwnd_gain, rate, 0);
        let per = m.cwnd_gain.den * rate.ms;
        assert(n <= 0) by (nonlinear_arith)
            requires
                n * per <= 0,
                per == m.cwnd_gain.den * rate.ms,
                m.cwnd_gain.den > 0,
                rate.ms > 0,
        ;
    }
    if m.mode != Mode::ProbeRtt && m.rtprop_ms != u64::MAX {
        crate::rate::law_delivery_is_rate_times_time(m.cwnd_gain, rate, m.rtprop_ms as int);
        let n = crate::rate::delivered_in(m.cwnd_gain, rate, m.rtprop_ms as int);
        let per = m.cwnd_gain.den * rate.ms;
        let bytes = m.cwnd_gain.num * rate.bytes * m.rtprop_ms;
        assert(per > 0) by (nonlinear_arith)
            requires
                per == m.cwnd_gain.den * rate.ms,
                m.cwnd_gain.den > 0,
                rate.ms > 0,
        ;
        if n < 5840 {
            assert((n + 1) * per <= 5841 * per) by (nonlinear_arith)
                requires
                    n < 5840,
                    per > 0,
            ;
        } else if n > u32::MAX {
            assert(u32::MAX * per <= n * per) by (nonlinear_arith)
                requires
                    n > u32::MAX,
                    per > 0,
            ;
        }
    }
}

/// RTprop, exactly. While the estimate is at most ten seconds old, it is the smaller of itself and
/// the sample; after that it is the sample. Its age starts over whenever a sample is adopted, or
/// when PROBE_RTT ends.
pub proof fn law_rtprop_follows_the_samples(
    s: BbrState,
    acked: u32,
    rtt: Option<u64>,
    now_ms: u64,
)
    ensures
        ({
            let m = s.model;
            let m1 = acknowledged(s, acked, rtt, now_ms).model;
            let old = now_ms > m.rtprop_stamp_ms + 10_000;
            &&& rtt is None ==> m1.rtprop_ms == m.rtprop_ms
            &&& rtt is Some && old ==> m1.rtprop_ms == rtt->0
            &&& rtt is Some && !old ==> m1.rtprop_ms == (if rtt->0 < m.rtprop_ms {
                rtt->0
            } else {
                m.rtprop_ms
            })
            &&& rtt is Some && (old || rtt->0 <= m.rtprop_ms) ==> m1.rtprop_stamp_ms == now_ms
            &&& (rtt is None || !old && rtt->0 > m.rtprop_ms) && m.mode != Mode::ProbeRtt
                ==> m1.rtprop_stamp_ms == m.rtprop_stamp_ms
        }),
{
}

/// Rounds: one is over when an RTprop (at least a millisecond) has passed since it began; then the
/// count goes up by one and the next begins now.
pub proof fn law_rounds_last_an_rtprop(s: BbrState, acked: u32, rtt: Option<u64>, now_ms: u64)
    requires
        s.model.round_count < u64::MAX,
    ensures
        ({
            let m = s.model;
            let m1 = acknowledged(s, acked, rtt, now_ms).model;
            let length = if m1.rtprop_ms == 0 || m1.rtprop_ms == u64::MAX {
                1
            } else {
                m1.rtprop_ms
            };
            if now_ms >= m.round_stamp_ms + length {
                m1.round_count == m.round_count + 1 && m1.round_stamp_ms == now_ms
            } else {
                m1.round_count == m.round_count && m1.round_stamp_ms == m.round_stamp_ms
            }
        }),
{
}

/// How modes follow one another, and when. STARTUP ends in DRAIN at the third round in a row in
/// which the bandwidth has not grown by a quarter; DRAIN ends in PROBE_BW at the next round; both
/// DRAIN and PROBE_BW go to PROBE_RTT when RTprop is more than ten seconds old; PROBE_RTT ends in
/// PROBE_BW when its 200 ms are over. Nothing else changes the mode.
pub proof fn law_modes_follow_one_another(s: BbrState, acked: u32, rtt: Option<u64>, now_ms: u64)
    requires
        s.wf(),
        s.model.full_bw_count < 3,
        s.model.round_count < u64::MAX,
    ensures
        ({
            let m = s.model;
            let s1 = acknowledged(s, acked, rtt, now_ms);
            let m1 = s1.model;
            let bw = peak(s1.bw);
            let new_round = m1.round_count == m.round_count + 1;
            let old = now_ms > m.rtprop_stamp_ms + 10_000;
            let grew = 4 * (bw.bytes * m.full_bw.ms) >= 5 * (m.full_bw.bytes * bw.ms);
            match m.mode {
                Mode::Startup => {
                    &&& m1.mode == (if new_round && !grew && m.full_bw_count == 2 {
                        Mode::Drain
                    } else {
                        Mode::Startup
                    })
                    &&& new_round && grew ==> m1.full_bw == bw && m1.full_bw_count == 0
                    &&& new_round && !grew ==> m1.full_bw == m.full_bw && m1.full_bw_count
                        == m.full_bw_count + 1
                    &&& !new_round ==> m1.full_bw == m.full_bw && m1.full_bw_count
                        == m.full_bw_count
                },
                Mode::Drain => m1.mode == (if old {
                    Mode::ProbeRtt
                } else if new_round {
                    Mode::ProbeBw
                } else {
                    Mode::Drain
                }),
                Mode::ProbeBw => m1.mode == (if old {
                    Mode::ProbeRtt
                } else {
                    Mode::ProbeBw
                }),
                Mode::ProbeRtt => m1.mode == (if now_ms >= m.probe_rtt_done_ms {
                    Mode::ProbeBw
                } else {
                    Mode::ProbeRtt
                }),
            }
        }),
{
}

/// The gains of each mode: 2.885 (two over its natural logarithm) in STARTUP, its inverse for pacing
/// in DRAIN, one in PROBE_RTT; in PROBE_BW two for the window, and for pacing 5/4 in the first
/// phase, 3/4 in the second and one in the others. PROBE_BW begins in the third phase and moves on
/// by one each round.
pub proof fn law_gains_by_mode(s: BbrState, acked: u32, rtt: Option<u64>, now_ms: u64)
    requires
        s.wf(),
        s.model.round_count < u64::MAX,
    ensures
        ({
            let m = s.model;
            let m1 = acknowledged(s, acked, rtt, now_ms).model;
            let startup = Gain { num: 2_885_390_081_777_927, den: 1_000_000_000_000_000 };
            let one = Gain { num: 1, den: 1 };
            let new_round = m1.round_count == m.round_count + 1;
            &&& m.mode == Mode::Startup ==> m1.pacing_gain == startup && m1.cwnd_gain == startup
            &&& m.mode == Mode::Drain && m1.mode == Mode::Drain ==> m1.cwnd_gain == startup
                && m1.pacing_gain.num == startup.den && m1.pacing_gain.den == startup.num
            &&& m1.mode == Mode::ProbeRtt ==> m1.pacing_gain == one && m1.cwnd_gain == one
            &&& m1.mode == Mode::ProbeBw ==> m1.cwnd_gain == (Gain { num: 2, den: 1 })
                && m1.pacing_gain == (if m1.cycle_index == 0 {
                Gain { num: 5, den: 4 }
            } else if m1.cycle_index == 1 {
                Gain { num: 3, den: 4 }
            } else {
                one
            })
            &&& m1.mode == Mode::ProbeBw && m.mode != Mode::ProbeBw ==> m1.cycle_index == 2
            &&& m1.mode == Mode::ProbeBw && m.mode == Mode::ProbeBw ==> m1.cycle_index == (
            if new_round {
                (m.cycle_index + 1) % 8
            } else {
                m.cycle_index as int
            })
        }),
{
}

/// A timeout starts over in STARTUP at four segments, with nothing known of a plateau; what was
/// measured of the path stays.
pub proof fn law_timeout_keeps_the_path(s: BbrState)
    ensures
        ({
            let m = s.model;
            let m1 = timed_out(s).model;
            let startup = Gain { num: 2_885_390_081_777_927, den: 1_000_000_000_000_000 };
            &&& timed_out(s).bw == s.bw
            &&& m1.mode == Mode::Startup && m1.cwnd == 5840 && !m1.filled_pipe
            &&& m1.pacing_gain == startup && m1.cwnd_gain == startup
            &&& m1.full_bw.bytes == 0 && m1.full_bw_count == 0 && m1.dup_acks == 0
            &&& m1.rtprop_ms == m.rtprop_ms && m1.rtprop_stamp_ms == m.rtprop_stamp_ms
            &&& m1.round_count == m.round_count && m1.round_stamp_ms == m.round_stamp_ms
            &&& m1.delivered_time_ms == m.delivered_time_ms && m1.has_delivery == m.has_delivery
        }),
{
}

/// PROBE_RTT lasts 200 ms. An ACK that enters it at `now_ms` sets the time, and the mode stays,
/// at the window's floor, for every ACK before that; the first one at or past it leaves, with the
/// age of RTprop counted anew from then.
pub proof fn law_probe_rtt_lasts(
    s: BbrState,
    acked: u32,
    rtt: Option<u64>,
    now_ms: u64,
    acked2: u32,
    rtt2: Option<u64>,
    later_ms: u64,
)
    requires
        s.wf(),
        s.model.mode != Mode::ProbeRtt,
        acknowledged(s, acked, rtt, now_ms).model.mode == Mode::ProbeRtt,
        now_ms <= u64::MAX - 200,
    ensures
        ({
            let m1 = acknowledged(s, acked, rtt, now_ms).model;
            let m2 = acknowledged(
                acknowledged(s, acked, rtt, now_ms),
                acked2,
                rtt2,
                later_ms,
            ).model;
            &&& m1.cwnd == 5840
            &&& later_ms < now_ms + 200 ==> m2.mode == Mode::ProbeRtt && m2.cwnd == 5840
                && m2.probe_rtt_done_ms == m1.probe_rtt_done_ms
            &&& later_ms >= now_ms + 200 ==> m2.mode == Mode::ProbeBw && m2.rtprop_stamp_ms
                == later_ms
        }),
{
}

/// A new model is in STARTUP at the window's floor, knows nothing of the path, and keeps bandwidth
/// samples for ten rounds; no event changes that length. After an ACK that brought a sample, the
/// estimate is none older than ten rounds.
pub proof fn law_estimate_is_of_ten_rounds(
    s: BbrState,
    acked: u32,
    rtt: Option<u64>,
    now_ms: u64,
)
    requires
        s.bw.window == 10,
    ensures
        ({
            let f = fresh();
            let s1 = acknowledged(s, acked, rtt, now_ms);
            &&& f.bw.window == 10 && f.bw.samples.len() == 0
            &&& f.model.mode == Mode::Startup && f.model.cwnd == 5840 && !f.model.filled_pipe
            &&& f.model.rtprop_ms == 0xffff_ffff_ffff_ffff && !f.model.has_delivery
            &&& f.model.full_bw.bytes == 0 && f.model.full_bw_count == 0 && f.model.dup_acks == 0
            &&& f.model.pacing_gain == f.model.cwnd_gain && f.model.pacing_gain.num
                == 2_885_390_081_777_927 && f.model.pacing_gain.den == 1_000_000_000_000_000
            &&& s1.bw.window == 10 && duplicated(s).bw == s.bw && timed_out(s).bw == s.bw
            &&& s.model.has_delivery && now_ms > s.model.delivered_time_ms && acked > 0
                ==> s1.bw.samples.len() > 0 && s1.model.round_count - s1.bw.samples[0].0 <= 10
        }),
{
    let m = acknowledged(s, acked, rtt, now_ms).model;
    if s.model.has_delivery && now_ms > s.model.delivered_time_ms && acked > 0 {
        let v = Rate { bytes: acked, ms: (now_ms - s.model.delivered_time_ms) as u64 };
        let kept = undominated(s.bw.samples, v).push((m.round_count, v));
        lemma_front_is_young(kept, m.round_count, 10);
    }
}

proof fn lemma_front_is_young(samples: Seq<(u64, Rate)>, t: u64, window: u64)
    requires
        samples.len() > 0,
        samples.last().0 == t,
    ensures
        unexpired(samples, t, window).len() > 0,
        t - unexpired(samples, t, window)[0].0 <= window,
    decreases samples.len(),
{
    if t - samples[0].0 > window {
        assert(samples.drop_first().last() == samples.last());
        lemma_front_is_young(samples.drop_first(), t, window);
    }
}

} // verus!
