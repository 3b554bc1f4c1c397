//! Loss-based congestion control: slow start and fast retransmit/recovery (RFC 5681), NewReno
//! partial acknowledgements (RFC 6582), and CUBIC congestion avoidance (RFC 9438).
//!
//! The receiver's window says nothing about the routers in between, so the sender keeps a second
//! window, `cwnd`, that grows while ACKs flow and collapses on loss. After a loss it follows a
//! cubic curve in time, `W(t) = C * (t - K)^3 + W_max`: back up quickly, flat around the window at
//! which the loss happened, then beyond it. The curve is evaluated in integers, with time in
//! nanoseconds and the window in bytes.
use vstd::prelude::*;

verus! {

/// Maximum segment size (bytes) of an Ethernet-sized link.
pub const MSS: u32 = 1460;

/// "Infinite" until the first loss tightens it.
pub const INIT_SSTHRESH: u32 = 65_535;

/// This many duplicate ACKs mean a loss.
pub const DUP_ACK_THRESHOLD: u32 = 3;

/// A loss keeps 7/10 of the window.
pub const CUBIC_BETA_NUM: u32 = 7;

pub const CUBIC_BETA_DEN: u32 = 10;

/// The cubic coefficient C = 0.4 segments per cubic second, in bytes: 0.4 * MSS.
pub const CUBIC_C_BYTES: u128 = 584;

/// One cubic second, in cubic nanoseconds.
pub const CUBIC_SECOND: u128 = 1_000_000_000_000_000_000_000_000_000;

/// K cubed is `W_max * (1 - beta) / C`, that is `3 * W_max / 5840` cubic seconds for a window in
/// bytes: the fraction's two parts.
pub const CUBIC_K_NUM: u128 = 3;

pub const CUBIC_K_DEN: u128 = 5840;

/// Past this age of an epoch the curve is beyond any 32-bit window.
pub const CUBIC_HORIZON_MS: u64 = 500_000;

/// Per-connection congestion state.
#[derive(Debug, Clone, Copy, PartialEq, Eq, Structural)]
pub struct CongestionControl {
    /// The congestion window (bytes).
    pub cwnd: u32,
    /// Below it: slow start. At or above it: congestion avoidance.
    pub ssthresh: u32,
    /// Consecutive duplicate ACKs seen.
    pub dup_acks: u32,
    /// Inside a fast-recovery episode.
    pub in_recovery: bool,
    /// `cwnd` at the last reduction: the point the curve aims back at.
    pub w_max: u32,
    /// Start of the current congestion-avoidance epoch; 0 while none is in progress.
    pub epoch_ms: u64,
}

/// `x` cut off at the largest 32-bit number.
pub open spec fn sat32(x: int) -> u32 {
    if x > u32::MAX {
        u32::MAX
    } else {
        x as u32
    }
}

pub open spec fn at_least(x: int, floor: int) -> int {
    if x < floor {
        floor
    } else {
        x
    }
}

pub open spec fn cube(x: int) -> int {
    x * x * x
}

/// `k` is the integer cube root of `n`.
pub open spec fn is_cube_root(k: int, n: int) -> bool {
    0 <= k && cube(k) <= n < cube(k + 1)
}

/// The integer cube root of `n`.
pub open spec fn cube_root(n: int) -> int {
    choose|k: int| is_cube_root(k, n)
}

/// K, the time the curve takes to climb back to `w_max` bytes, in whole nanoseconds.
pub open spec fn climb_back_ns(w_max: int) -> int {
    cube_root(w_max * CUBIC_K_NUM * CUBIC_SECOND / CUBIC_K_DEN as int)
}

/// The curve's window (bytes) `elapsed_ms` after the start of an epoch that aims at `w_max`, at
/// least one segment and at most what 32 bits hold.
pub open spec fn cubic_window(w_max: int, elapsed_ms: int) -> u32 {
    let from_k_ns = elapsed_ms * 1_000_000 - climb_back_ns(w_max);
    sat32(
        at_least(
            w_max + CUBIC_C_BYTES * cube(from_k_ns) / CUBIC_SECOND as int,
            MSS as int,
        ),
    )
}

/// Time since the epoch began.
pub open spec fn elapsed(now_ms: u64, since_ms: u64) -> int {
    if now_ms > since_ms {
        now_ms - since_ms
    } else {
        0
    }
}

/// The window that a loss at window `cwnd` leaves.
pub open spec fn reduced(cwnd: u32) -> int {
    at_least(cwnd * CUBIC_BETA_NUM / CUBIC_BETA_DEN as int, 2 * MSS as int)
}

/// The state in which a connection starts: one segment, slow start.
pub open spec fn fresh() -> CongestionControl {
    CongestionControl {
        cwnd: MSS,
        ssthresh: INIT_SSTHRESH,
        dup_acks: 0,
        in_recovery: false,
        w_max: 0,
        epoch_ms: 0,
    }
}

/// Congestion avoidance: start an epoch if none is in progress, then step toward the curve, or
/// creep up by about one segment per round trip where the window is already on it.
pub open spec fn avoided(c: CongestionControl, now_ms: u64) -> CongestionControl {
    let starting = c.epoch_ms == 0;
    let epoch_ms = if starting {
        now_ms
    } else {
        c.epoch_ms
    };
    let w_max = if starting && c.w_max < c.cwnd {
        c.cwnd
    } else {
        c.w_max
    };
    let target = cubic_window(w_max as int, elapsed(now_ms, epoch_ms));
    let step = if target > c.cwnd {
        at_least((target - c.cwnd) / at_least((c.cwnd / MSS) as int, 1), 1)
    } else {
        at_least((MSS * MSS) / (c.cwnd as int), 1)
    };
    CongestionControl { cwnd: sat32(c.cwnd + step), w_max, epoch_ms, ..c }
}

/// After an ACK of `acked` new bytes: the end of fast recovery, a slow-start step, or a
/// congestion-avoidance step.
pub open spec fn acknowledged(c: CongestionControl, acked: u32, now_ms: u64) -> CongestionControl {
    let c = CongestionControl { dup_acks: 0, ..c };
    if c.in_recovery {
        CongestionControl { in_recovery: false, cwnd: c.ssthresh, epoch_ms: 0, ..c }
    } else if acked == 0 {
        c
    } else if c.cwnd < c.ssthresh {
        CongestionControl { cwnd: sat32(c.cwnd + MSS), ..c }
    } else {
        avoided(c, now_ms)
    }
}

/// The count of duplicate ACKs after one more.
pub open spec fn counted(dup_acks: u32) -> u32 {
    sat32(dup_acks + 1)
}

/// After a duplicate ACK: the third begins fast recovery, later ones inflate the window.
pub open spec fn duplicated(c: CongestionControl) -> CongestionControl {
    let n = counted(c.dup_acks);
    if n == DUP_ACK_THRESHOLD {
        CongestionControl {
            cwnd: (reduced(c.cwnd) + DUP_ACK_THRESHOLD * MSS) as u32,
            ssthresh: reduced(c.cwnd) as u32,
            dup_acks: n,
            in_recovery: true,
            w_max: c.cwnd,
            epoch_ms: 0,
        }
    } else if c.in_recovery {
        CongestionControl { dup_acks: n, cwnd: sat32(c.cwnd + MSS), ..c }
    } else {
        CongestionControl { dup_acks: n, ..c }
    }
}

/// After a retransmission timeout: one segment, slow start.
pub open spec fn timed_out(c: CongestionControl) -> CongestionControl {
    CongestionControl {
        cwnd: MSS,
        ssthresh: reduced(c.cwnd) as u32,
        dup_acks: 0,
        in_recovery: false,
        w_max: c.cwnd,
        epoch_ms: 0,
    }
}

/// After a partial ACK of `acked` bytes during fast recovery: those bytes leave the window, one
/// segment is added back, and recovery goes on.
pub open spec fn partially_acknowledged(c: CongestionControl, acked: u32) -> CongestionControl {
    CongestionControl { dup_acks: 0, cwnd: sat32(at_least(c.cwnd - acked, 0) + MSS), ..c }
}

proof fn lemma_cube_monotone(a: int, b: int)
    requires
        0 <= a <= b,
    ensures
        0 <= cube(a) <= cube(b),
{
    assert(a * a <= b * b) by (nonlinear_arith)
        requires
            0 <= a <= b,
    ;
    assert(a * a * a <= b * b * b) by (nonlinear_arith)
        requires
            0 <= a <= b,
            0 <= a * a <= b * b,
    ;
    assert(0 <= a * a * a) by (nonlinear_arith)
        requires
            0 <= a,
    ;
}

/// There is only one integer cube root.
proof fn lemma_cube_root_unique(k: int, n: int)
    requires
        is_cube_root(k, n),
    ensures
        cube_root(n) == k,
{
    let j = cube_root(n);
    assert(is_cube_root(j, n));
    if j < k {
        lemma_cube_monotone(j + 1, k);
    }
    if k < j {
        lemma_cube_monotone(k + 1, j);
    }
}

/// The integer cube root of `n`, by binary search.
fn int_cube_root(n: u128) -> (k: u64)
    requires
        n < 0x8000_0000_0000_0000_0000_0000_0000,
    ensures
        k == cube_root(n as int),
        is_cube_root(k as int, n as int),
        k < 0x20_0000_0000,
{
    let mut low: u64 = 0;
    let mut high: u64 = 0x20_0000_0000;
    assert(cube(high as int) > n) by {
        assert(cube(0x20_0000_0000) == 0x20_0000_0000 * 0x20_0000_0000 * 0x20_0000_0000);
    }
    while high - low > 1
        invariant
            low < high <= 0x20_0000_0000,
            cube(low as int) <= n < cube(high as int),
        decreases high - low,
    {
        let mid: u64 = low + (high - low) / 2;
        proof {
            lemma_cube_monotone(mid as int, 0x20_0000_0000);
            assert(mid * mid <= 0x20_0000_0000 * 0x20_0000_0000) by (nonlinear_arith)
                requires
                    0 <= mid <= 0x20_0000_0000,
            ;
        }
        let square: u128 = mid as u128 * mid as u128;
        let cubed: u128 = square * mid as u128;
        assert(cubed == cube(mid as int));
        if cubed <= n {
            low = mid;
        } else {
            high = mid;
        }
    }
    proof {
        lemma_cube_root_unique(low as int, n as int);
    }
    low
}

impl CongestionControl {
    /// The window never falls below one segment, and the slow-start threshold never below two.
    pub open spec fn wf(self) -> bool {
        MSS <= self.cwnd && 2 * MSS <= self.ssthresh
    }

    /// Bytes the network will currently let us keep in flight.
    pub fn window(&self) -> (w: u32)
        ensures
            w == self.cwnd,
    {
        self.cwnd
    }

    /// An ACK of `acked` new bytes at `now_ms`: grow the window, or end fast recovery.
    pub fn on_ack(&mut self, acked: u32, now_ms: u64)
        requires
            old(self).wf(),
        ensures
            *final(self) == acknowledged(*old(self), acked, now_ms),
            final(self).wf(),
    {
        self.dup_acks = 0;
        if self.in_recovery {
            self.in_recovery = false;
            self.cwnd = self.ssthresh;
            self.epoch_ms = 0;
            return;
        }
        if acked == 0 {
            return;
        }
        if self.cwnd < self.ssthresh {
            self.cwnd = self.cwnd.saturating_add(MSS);
        } else {
            if self.epoch_ms == 0 {
                self.epoch_ms = now_ms;
                if self.w_max < self.cwnd {
                    self.w_max = self.cwnd;
                }
            }
            let target: u32 = self.cubic_target(now_ms);
            let step: u32 = if target > self.cwnd {
                let acks_per_rtt: u32 = if self.cwnd / MSS > 1 {
                    self.cwnd / MSS
                } else {
                    1
                };
                let part: u32 = (target - self.cwnd) / acks_per_rtt;
                if part > 1 {
                    part
                } else {
                    1
                }
            } else {
                let part: u32 = MSS * MSS / self.cwnd;
                if part > 1 {
                    part
                } else {
                    1
                }
            };
            self.cwnd = self.cwnd.saturating_add(step);
        }
    }

    /// The curve's window for the current epoch at `now_ms`.
    fn cubic_target(&self, now_ms: u64) -> (target: u32)
        ensures
            target == cubic_window(self.w_max as int, elapsed(now_ms, self.epoch_ms)),
    {
        let k_cubed: u128 = self.w_max as u128 * CUBIC_K_NUM * CUBIC_SECOND / CUBIC_K_DEN;
        let k_ns: u64 = int_cube_root(k_cubed);
        let t_ms: u64 = now_ms.saturating_sub(self.epoch_ms);
        let ghost w_max = self.w_max as int;
        assert(k_ns == climb_back_ns(w_max));
        if t_ms >= CUBIC_HORIZON_MS {
            proof {
                lemma_cube_monotone(362_000_000_000, t_ms * 1_000_000 - k_ns);
            }
            return u32::MAX;
        }
        let t_ns: u64 = t_ms * 1_000_000;
        if t_ns >= k_ns {
            let past: u64 = t_ns - k_ns;
            let term: u128 = cubic_term(past);
            let w: u128 = self.w_max as u128 + term / CUBIC_SECOND;
            if w < MSS as u128 {
                MSS
            } else if w > u32::MAX as u128 {
                u32::MAX
            } else {
                w as u32
            }
        } else {
            let ahead: u64 = k_ns - t_ns;
            let term: u128 = cubic_term(ahead);
            let drop: u128 = (term + (CUBIC_SECOND - 1)) / CUBIC_SECOND;
            proof {
                let e = ahead as int;
                assert(cube(-e) == -cube(e)) by (nonlinear_arith);
                assert(CUBIC_C_BYTES * cube(-e) == -(CUBIC_C_BYTES * cube(e))) by (nonlinear_arith)
                    requires
                        cube(-e) == -cube(e),
                ;
                assert(t_ms * 1_000_000 - k_ns == -e);
            }
            if drop + MSS as u128 > self.w_max as u128 {
                MSS
            } else {
                (self.w_max as u128 - drop) as u32
            }
        }
    }

    /// A duplicate ACK. Returns `true` exactly on the third, when the caller should
    /// fast-retransmit the oldest unacknowledged segment.
    pub fn on_dup_ack(&mut self, _flight: u32) -> (retransmit: bool)
        ensures
            *final(self) == duplicated(*old(self)),
            retransmit == (counted(old(self).dup_acks) == DUP_ACK_THRESHOLD),
            old(self).wf() ==> final(self).wf(),
    {
        self.dup_acks = self.dup_acks.saturating_add(1);
        if self.dup_acks == DUP_ACK_THRESHOLD {
            self.w_max = self.cwnd;
            self.ssthresh = Self::after_loss(self.cwnd);
            self.cwnd = self.ssthresh + DUP_ACK_THRESHOLD * MSS;
            self.epoch_ms = 0;
            self.in_recovery = true;
            return true;
        }
        if self.in_recovery {
            self.cwnd = self.cwnd.saturating_add(MSS);
        }
        false
    }

    /// The window that a loss at window `cwnd` leaves.
    fn after_loss(cwnd: u32) -> (w: u32)
        ensures
            w == reduced(cwnd),
            2 * MSS <= w <= 0xB333_3333,
    {
        let part: u32 = (cwnd as u64 * CUBIC_BETA_NUM as u64 / CUBIC_BETA_DEN as u64) as u32;
        if part < 2 * MSS {
            2 * MSS
        } else {
            part
        }
    }

    /// The retransmission timer fired: the strongest congestion signal.
    pub fn on_timeout(&mut self, _flight: u32)
        ensures
            *final(self) == timed_out(*old(self)),
            final(self).wf(),
    {
        self.w_max = self.cwnd;
        self.ssthresh = Self::after_loss(self.cwnd);
        self.cwnd = MSS;
        self.dup_acks = 0;
        self.in_recovery = false;
        self.epoch_ms = 0;
    }

    /// Are we inside a fast-recovery episode?
    pub fn in_recovery(&self) -> (r: bool)
        ensures
            r == self.in_recovery,
    {
        self.in_recovery
    }

    /// A partial ACK during fast recovery (RFC 6582): another segment of the same window was lost
    /// too. The caller retransmits the next hole.
    pub fn on_partial_ack(&mut self, acked: u32)
        ensures
            *final(self) == partially_acknowledged(*old(self), acked),
            old(self).wf() ==> final(self).wf(),
    {
        self.dup_acks = 0;
        self.cwnd = self.cwnd.saturating_sub(acked).saturating_add(MSS);
    }
}

/// The cubic term `C * d^3` for a distance of `d` nanoseconds from K.
fn cubic_term(d: u64) -> (term: u128)
    requires
        d <= 500_000_000_000,
    ensures
        term == CUBIC_C_BYTES * cube(d as int),
        term <= 73_000_000_000 * CUBIC_SECOND,
{
    proof {
        lemma_cube_monotone(d as int, 500_000_000_000);
        assert(d * d <= 500_000_000_000 * 500_000_000_000) by (nonlinear_arith)
            requires
                0 <= d <= 500_000_000_000,
        ;
    }
    let square: u128 = d as u128 * d as u128;
    let cubed: u128 = square * d as u128;
    assert(cubed == cube(d as int));
    CUBIC_C_BYTES * cubed
}

impl Default for CongestionControl {
    fn default() -> (c: CongestionControl)
        ensures
            c == fresh(),
    {
        CongestionControl {
            cwnd: MSS,
            ssthresh: INIT_SSTHRESH,
            dup_acks: 0,
            in_recovery: false,
            w_max: 0,
            epoch_ms: 0,
        }
    }
}

/// The window is never closed: from a fresh connection on, no event brings `cwnd` below one
/// segment or the slow-start threshold below two.
pub proof fn law_window_never_closes(c: CongestionControl, acked: u32, now_ms: u64)
    ensures
        fresh().wf(),
        timed_out(c).wf(),
        c.wf() ==> acknowledged(c, acked, now_ms).wf(),
        c.wf() ==> duplicated(c).wf(),
        c.wf() ==> partially_acknowledged(c, acked).wf(),
{
}

/// Without a loss signal the window never shrinks: an ACK outside recovery that acknowledges new
/// data makes it grow, unless it already is as large as it can be.
pub proof fn law_acks_grow_the_window(c: CongestionControl, acked: u32, now_ms: u64)
    requires
        c.wf(),
        !c.in_recovery,
        acked > 0,
    ensures
        acknowledged(c, acked, now_ms).cwnd > c.cwnd || c.cwnd == u32::MAX,
{
}

/// A full ACK ends recovery at the reduced window: three duplicate ACKs and then an ACK of new
/// data leave exactly the slow-start threshold, seven tenths of the window before the loss (at
/// least two segments).
pub proof fn law_recovery_ends_at_reduced_window(c: CongestionControl, acked: u32, now_ms: u64)
    requires
        c.wf(),
        c.dup_acks == 2,
    ensures
        duplicated(c).in_recovery,
        !acknowledged(duplicated(c), acked, now_ms).in_recovery,
        acknowledged(duplicated(c), acked, now_ms).cwnd == reduced(c.cwnd),
{
}

/// Within an epoch the curve's window never falls as time goes on.
pub proof fn law_curve_rises_with_time(w_max: u32, t1: int, t2: int)
    requires
        0 <= t1 <= t2,
    ensures
        cubic_window(w_max as int, t1) <= cubic_window(w_max as int, t2),
{
    let k = climb_back_ns(w_max as int);
    let a = t1 * 1_000_000 - k;
    let b = t2 * 1_000_000 - k;
    assert(cube(a) <= cube(b)) by {
        if a >= 0 {
            lemma_cube_monotone(a, b);
        } else if b < 0 {
            lemma_cube_monotone(-b, -a);
            assert(cube(-a) == -cube(a)) by (nonlinear_arith);
            assert(cube(-b) == -cube(b)) by (nonlinear_arith);
        } else {
            lemma_cube_monotone(0, -a);
            lemma_cube_monotone(0, b);
            assert(cube(-a) == -cube(a)) by (nonlinear_arith);
        }
    }
}

/// K is when the curve is back at `w_max`: before it the window is at most `w_max` (or the one
/// segment that is the floor), from it on at least `w_max`.
pub proof fn law_curve_regains_w_max_at_k(w_max: u32, elapsed_ms: int)
    ensures
        elapsed_ms * 1_000_000 < climb_back_ns(w_max as int) ==> cubic_window(
            w_max as int,
            elapsed_ms,
        ) <= at_least(w_max as int, MSS as int),
        elapsed_ms * 1_000_000 >= climb_back_ns(w_max as int) ==> cubic_window(
            w_max as int,
            elapsed_ms,
        ) >= w_max,
{
    let d = elapsed_ms * 1_000_000 - climb_back_ns(w_max as int);
    if d >= 0 {
        lemma_cube_monotone(0, d);
    } else {
        lemma_cube_monotone(0, -d);
        assert(cube(-d) == -cube(d)) by (nonlinear_arith);
    }
}

/// `c` after ACKs, each of some bytes at some time.
pub open spec fn after_acks(c: CongestionControl, acks: Seq<(u32, u64)>) -> CongestionControl
    decreases acks.len(),
{
    if acks.len() == 0 {
        c
    } else {
        acknowledged(after_acks(c, acks.drop_last()), acks.last().0, acks.last().1)
    }
}

/// A timeout at window `w` starts over from one segment, and slow start then ends at seven tenths
/// of `w` (at least two segments): the `k`th ACK finds `k` segments in the window and adds one, as
/// long as that is below the threshold. So slow start goes at most one segment past it.
pub proof fn law_slow_start_after_a_timeout(c: CongestionControl, acks: Seq<(u32, u64)>)
    requires
        forall|i: int| 0 <= i < acks.len() ==> (#[trigger] acks[i]).0 > 0,
    ensures
        ({
            let seven_tenths = c.cwnd * 7 / 10;
            let threshold = if seven_tenths < 2920 {
                2920int
            } else {
                seven_tenths
            };
            let c1 = after_acks(timed_out(c), acks);
            let k = acks.len();
            &&& c1.ssthresh == threshold && !c1.in_recovery && c1.dup_acks == 0
            &&& k == 0 || k * 1460 < threshold ==> c1.cwnd == (k + 1) * 1460 && c1.w_max == c.cwnd
                && c1.epoch_ms == 0
            &&& k > 0 && k * 1460 >= threshold ==> c1.cwnd > threshold || c1.cwnd == threshold
        }),
    decreases acks.len(),
{
    if acks.len() > 0 {
        let short = acks.drop_last();
        assert forall|i: int| 0 <= i < short.len() implies (#[trigger] short[i]).0 > 0 by {
            assert(short[i] == acks[i]);
        }
        assert(acks[acks.len() - 1].0 > 0);
        law_slow_start_after_a_timeout(c, short);
    }
}

/// Slow start: below the threshold, an ACK of new data adds one segment, however much it covers.
/// An ACK of nothing new adds nothing.
pub proof fn law_slow_start_adds_a_segment(c: CongestionControl, acked: u32, now_ms: u64)
    requires
        !c.in_recovery,
    ensures
        acked > 0 && c.cwnd < c.ssthresh ==> acknowledged(c, acked, now_ms) == (CongestionControl {
            cwnd: if c.cwnd + 1460 > 0xffff_ffff {
                0xffff_ffff
            } else {
                (c.cwnd + 1460) as u32
            },
            dup_acks: 0,
            ..c
        }),
        acked == 0 ==> acknowledged(c, acked, now_ms) == (CongestionControl { dup_acks: 0, ..c }),
{
}

/// Congestion avoidance, step by step. The first ACK at or above the threshold starts an epoch that
/// aims at the larger of the window and the last loss; later ones keep it. Below the curve an ACK
/// closes the gap by one part in as many as there are segments in the window; on or above it, the
/// window creeps by one part in `cwnd` of a squared segment. Every step is at least one byte.
pub proof fn law_avoidance_steps_toward_the_curve(c: CongestionControl, acked: u32, now_ms: u64)
    requires
        c.wf(),
        !c.in_recovery,
        acked > 0,
        c.cwnd >= c.ssthresh,
    ensures
        ({
            let c1 = acknowledged(c, acked, now_ms);
            let aim = if c.epoch_ms == 0 && c.w_max < c.cwnd {
                c.cwnd
            } else {
                c.w_max
            };
            let began = if c.epoch_ms == 0 {
                now_ms
            } else {
                c.epoch_ms
            };
            let age = if now_ms > began {
                now_ms - began
            } else {
                0
            };
            let curve = cubic_window(aim as int, age);
            let segments = (c.cwnd / 1460) as int;
            let gain = c1.cwnd - c.cwnd;
            &&& c1.w_max == aim && c1.epoch_ms == began
            &&& c1.ssthresh == c.ssthresh && !c1.in_recovery && c1.dup_acks == 0
            &&& c1.cwnd < u32::MAX && curve > c.cwnd ==> gain == 1 && curve - c.cwnd < segments
                || gain >= 1 && segments * gain <= curve - c.cwnd < segments * (gain + 1)
            &&& c1.cwnd < u32::MAX && curve <= c.cwnd ==> gain == 1 && 1460 * 1460 < c.cwnd || gain
                >= 1 && c.cwnd * gain <= 1460 * 1460 < c.cwnd * (gain + 1)
        }),
{
    let c1 = acknowledged(c, acked, now_ms);
    let aim = if c.epoch_ms == 0 && c.w_max < c.cwnd {
        c.cwnd
    } else {
        c.w_max
    };
    let began = if c.epoch_ms == 0 {
        now_ms
    } else {
        c.epoch_ms
    };
    let curve = cubic_window(aim as int, elapsed(now_ms, began));
    let segments = (c.cwnd / 1460) as int;
    assert(segments >= 1);
    if curve > c.cwnd {
        let gap = curve - c.cwnd;
        vstd::arithmetic::div_mod::lemma_fundamental_div_mod(gap, segments);
        vstd::arithmetic::div_mod::lemma_mod_bound(gap, segments);
        let g = gap / segments;
        assert(c1.cwnd == sat32(c.cwnd + at_least(g, 1)));
        if g < 1 {
            assert(g == 0) by (nonlinear_arith)
                requires
                    g == gap / segments,
                    gap >= 0,
                    segments >= 1,
                    g < 1,
            ;
        }
        assert(segments * g <= gap < segments * g + segments);
        assert(g == 0 ==> segments * g == 0) by (nonlinear_arith);
        let gain = c1.cwnd - c.cwnd;
        if c1.cwnd < u32::MAX && g >= 1 {
            assert(gain == g);
            assert(segments * gain == segments * g) by (nonlinear_arith)
                requires
                    gain == g,
            ;
        }
        assert(segments * (g + 1) == segments * g + segments) by (nonlinear_arith);
    } else {
        let w = c.cwnd as int;
        vstd::arithmetic::div_mod::lemma_fundamental_div_mod(1460int * 1460, w);
        vstd::arithmetic::div_mod::lemma_mod_bound(1460int * 1460, w);
        let g = (1460int * 1460) / w;
        assert(c1.cwnd == sat32(c.cwnd + at_least(g, 1)));
        if g < 1 {
            assert(g == 0) by (nonlinear_arith)
                requires
                    g == (1460int * 1460) / w,
                    w >= 1,
                    g < 1,
            ;
        }
        assert(w * g <= 1460 * 1460 < w * g + w);
        assert(g == 0 ==> w * g == 0) by (nonlinear_arith);
        let gain = c1.cwnd - c.cwnd;
        if c1.cwnd < u32::MAX && g >= 1 {
            assert(gain == g);
            assert(w * gain == w * g) by (nonlinear_arith)
                requires
                    gain == g,
            ;
        }
        assert(w * (g + 1) == w * g + w) by (nonlinear_arith);
    }
}

/// Duplicate ACKs. The first two only count. The third begins fast recovery: the threshold falls to
/// seven tenths of the window (at least two segments), the window to that and three segments, and
/// the curve will aim back at the window of the loss. Each further one adds a segment.
pub proof fn law_duplicates_begin_recovery(c: CongestionControl)
    ensures
        ({
            let c1 = duplicated(c);
            let seven_tenths = c.cwnd * 7 / 10;
            let threshold = if seven_tenths < 2920 {
                2920int
            } else {
                seven_tenths
            };
            &&& c.dup_acks == 2 ==> c1.in_recovery && c1.ssthresh == threshold && c1.cwnd
                == threshold + 3 * 1460 && c1.w_max == c.cwnd && c1.epoch_ms == 0
            &&& c.dup_acks != 2 ==> c1.in_recovery == c.in_recovery && c1.ssthresh == c.ssthresh
                && c1.w_max == c.w_max && c1.epoch_ms == c.epoch_ms
            &&& c.dup_acks != 2 && !c.in_recovery ==> c1.cwnd == c.cwnd
            &&& c.dup_acks != 2 && c.in_recovery && c.cwnd + 1460 <= u32::MAX ==> c1.cwnd == c.cwnd
                + 1460
            &&& c.dup_acks < u32::MAX ==> c1.dup_acks == c.dup_acks + 1
        }),
{
}

/// A partial ACK during recovery takes its bytes out of the window and puts one segment back;
/// recovery goes on towards the same threshold. An ACK that ends recovery sets the window to the
/// threshold and leaves no epoch in progress.
pub proof fn law_recovery_deflates_the_window(c: CongestionControl, acked: u32, now_ms: u64)
    requires
        c.in_recovery,
    ensures
        ({
            let c1 = partially_acknowledged(c, acked);
            &&& c1.in_recovery && c1.ssthresh == c.ssthresh && c1.dup_acks == 0
            &&& c1.w_max == c.w_max && c1.epoch_ms == c.epoch_ms
            &&& acked <= c.cwnd && c.cwnd - acked + 1460 <= u32::MAX ==> c1.cwnd == c.cwnd - acked
                + 1460
            &&& acked > c.cwnd ==> c1.cwnd == 1460
            &&& acknowledged(c, acked, now_ms) == (CongestionControl {
                in_recovery: false,
                cwnd: c.ssthresh,
                dup_acks: 0,
                epoch_ms: 0,
                ..c
            })
        }),
{
}

/// Every number has an integer cube root.
proof fn lemma_cube_root_exists(n: int)
    requires
        0 <= n,
    ensures
        is_cube_root(cube_root(n), n),
    decreases n,
{
    if n == 0 {
        assert(is_cube_root(0, 0)) by {
            assert(cube(0) == 0 && cube(1) == 1) by (nonlinear_arith);
        }
    } else {
        lemma_cube_root_exists(n - 1);
        let k = cube_root(n - 1);
        if n < cube(k + 1) {
            assert(is_cube_root(k, n));
        } else {
            assert(cube(k + 1) < cube(k + 2)) by (nonlinear_arith)
                requires
                    0 <= k,
            ;
            assert(is_cube_root(k + 1, n));
        }
    }
}

/// What the curve is. From K on it lies above `w_max` by 0.4 segments (584 bytes) times the cube of
/// the seconds since K, before K below it by as much, in whole bytes. K is when that distance is
/// three tenths of `w_max`, so that an epoch begins at seven tenths.
pub proof fn law_curve_is_cubic(w_max: u32, elapsed_ms: int)
    requires
        0 <= elapsed_ms,
    ensures
        ({
            let k = climb_back_ns(w_max as int);
            let d = elapsed_ms * 1_000_000 - k;
            let w = cubic_window(w_max as int, elapsed_ms);
            let billion3 = 1_000_000_000_000_000_000_000_000_000int;
            &&& 1460 < w < u32::MAX ==> (w - w_max) * billion3 <= 584 * (d * d * d) < (w - w_max + 1)
                * billion3
            &&& w >= 1460
            &&& 0 <= k && k * k * k <= 3 * w_max * billion3 / 5840 < (k + 1) * (k + 1) * (k + 1)
        }),
{
    let k = climb_back_ns(w_max as int);
    let n = w_max * 3 * CUBIC_SECOND / CUBIC_K_DEN as int;
    assert(0 <= n) by (nonlinear_arith)
        requires
            n == w_max * 3 * CUBIC_SECOND / CUBIC_K_DEN as int,
            0 <= w_max,
    ;
    lemma_cube_root_exists(n);
    assert(n == 3 * w_max * 1_000_000_000_000_000_000_000_000_000int / 5840);
    let d = elapsed_ms * 1_000_000 - k;
    let x = 584 * (d * d * d);
    let billion3 = 1_000_000_000_000_000_000_000_000_000int;
    assert(CUBIC_C_BYTES * cube(d) == x);
    vstd::arithmetic::div_mod::lemma_fundamental_div_mod(x, billion3);
    vstd::arithmetic::div_mod::lemma_mod_bound(x, billion3);
}

/// A new connection starts slowly, from one segment: after `n` ACKs of new data the window is `n + 1`
/// segments, until it passes 65,535 bytes, where slow start ends.
pub proof fn law_slow_start_from_one_segment(acks: Seq<(u32, u64)>)
    requires
        acks.len() <= 44,
        forall|i: int| 0 <= i < acks.len() ==> (#[trigger] acks[i]).0 > 0,
    ensures
        ({
            let c = after_acks(fresh(), acks);
            &&& c.cwnd == 1460 * (acks.len() + 1) && c.ssthresh == 65_535
            &&& c.w_max == 0 && c.epoch_ms == 0 && c.dup_acks == 0 && !c.in_recovery
            &&& c.cwnd < c.ssthresh <==> acks.len() < 44
        }),
    decreases acks.len(),
{
    if acks.len() > 0 {
        let short = acks.drop_last();
        assert forall|i: int| 0 <= i < short.len() implies (#[trigger] short[i]).0 > 0 by {
            assert(short[i] == acks[i]);
        }
        law_slow_start_from_one_segment(short);
        assert(acks[acks.len() - 1].0 > 0);
    }
}

} // verus!
