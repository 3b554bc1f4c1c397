//! RTT estimation and the retransmission timeout (RFC 6298).
//!
//! The timeout follows the measured path: `RTO = SRTT + max(G, K * RTTVAR)`, clamped to a sane
//! range. Each timeout doubles it (RFC 6298 section 5.5) until a fresh measurement arrives. All in
//! integer milliseconds.
use vstd::prelude::*;

verus! {

/// Divisor of the SRTT gain (alpha = 1/8).
pub const ALPHA_DIV: u64 = 8;

/// Divisor of the RTTVAR gain (beta = 1/4).
pub const BETA_DIV: u64 = 4;

/// The floor of the variation term: the clock granularity.
pub const G_MS: u64 = 1;

pub const MIN_RTO_MS: u64 = 200;

pub const MAX_RTO_MS: u64 = 60_000;

/// Smoothed RTT estimator producing an adaptive retransmission timeout.
#[derive(Debug, Clone, Copy, PartialEq, Eq, Structural)]
pub struct RttEstimator {
    /// The smoothed RTT, once a first sample has been taken.
    pub srtt_ms: Option<u64>,
    /// The RTT variation.
    pub rttvar_ms: u64,
    /// The current timeout.
    pub rto_ms: u64,
}

/// The timeout for a smoothed RTT and its variation.
pub open spec fn clamped_rto(srtt: int, rttvar: int) -> int {
    let spread = if 4 * rttvar > G_MS {
        4 * rttvar
    } else {
        G_MS as int
    };
    if srtt + spread < MIN_RTO_MS {
        MIN_RTO_MS as int
    } else if srtt + spread > MAX_RTO_MS {
        MAX_RTO_MS as int
    } else {
        srtt + spread
    }
}

/// The smoothed RTT after measuring `rtt_ms`.
pub open spec fn next_srtt(e: RttEstimator, rtt_ms: u64) -> int {
    match e.srtt_ms {
        None => rtt_ms as int,
        Some(srtt) => srtt - srtt / ALPHA_DIV + rtt_ms / ALPHA_DIV,
    }
}

/// The RTT variation after measuring `rtt_ms`.
pub open spec fn next_rttvar(e: RttEstimator, rtt_ms: u64) -> int {
    match e.srtt_ms {
        None => (rtt_ms / 2) as int,
        Some(srtt) => {
            let delta = if srtt > rtt_ms {
                srtt - rtt_ms
            } else {
                rtt_ms - srtt
            };
            e.rttvar_ms - e.rttvar_ms / BETA_DIV + delta / (BETA_DIV as int)
        },
    }
}

/// The estimator after measuring `rtt_ms`: the first measurement sets SRTT and half of it as the
/// variation, later ones move both by their gains.
pub open spec fn sampled(e: RttEstimator, rtt_ms: u64) -> RttEstimator {
    RttEstimator {
        srtt_ms: Some(next_srtt(e, rtt_ms) as u64),
        rttvar_ms: next_rttvar(e, rtt_ms) as u64,
        rto_ms: clamped_rto(next_srtt(e, rtt_ms), next_rttvar(e, rtt_ms)) as u64,
    }
}

/// The estimator after a timeout: twice the timeout, up to the maximum.
pub open spec fn backed_off(e: RttEstimator) -> RttEstimator {
    RttEstimator {
        rto_ms: if 2 * e.rto_ms > MAX_RTO_MS {
            MAX_RTO_MS
        } else {
            (2 * e.rto_ms) as u64
        },
        ..e
    }
}

/// The estimator before any measurement.
pub open spec fn unmeasured() -> RttEstimator {
    RttEstimator { srtt_ms: None, rttvar_ms: 0, rto_ms: MIN_RTO_MS }
}

impl RttEstimator {
    /// The timeout is in range.
    pub open spec fn wf(self) -> bool {
        MIN_RTO_MS <= self.rto_ms <= MAX_RTO_MS
    }

    /// Feed one RTT measurement (ms). Do not sample a retransmitted segment (Karn's algorithm):
    /// the caller skips those.
    pub fn sample(&mut self, rtt_ms: u64)
        ensures
            *final(self) == sampled(*old(self), rtt_ms),
            final(self).wf(),
    {
        let (srtt, rttvar): (u64, u64) = match self.srtt_ms {
            None => (rtt_ms, rtt_ms / 2),
            Some(srtt) => {
                let delta: u64 = if srtt > rtt_ms {
                    srtt - rtt_ms
                } else {
                    rtt_ms - srtt
                };
                (
                    srtt - srtt / ALPHA_DIV + rtt_ms / ALPHA_DIV,
                    self.rttvar_ms - self.rttvar_ms / BETA_DIV + delta / BETA_DIV,
                )
            },
        };
        self.srtt_ms = Some(srtt);
        self.rttvar_ms = rttvar;
        self.rto_ms = if srtt >= MAX_RTO_MS || rttvar >= MAX_RTO_MS {
            MAX_RTO_MS
        } else {
            let spread: u64 = if 4 * rttvar > G_MS {
                4 * rttvar
            } else {
                G_MS
            };
            if srtt + spread < MIN_RTO_MS {
                MIN_RTO_MS
            } else if srtt + spread > MAX_RTO_MS {
                MAX_RTO_MS
            } else {
                srtt + spread
            }
        };
    }

    /// The current retransmission timeout (ms).
    pub fn rto(&self) -> (rto: u64)
        ensures
            rto == self.rto_ms,
    {
        self.rto_ms
    }

    /// The retransmission timer fired: double the timeout.
    pub fn back_off(&mut self)
        ensures
            *final(self) == backed_off(*old(self)),
    {
        self.rto_ms = if self.rto_ms > MAX_RTO_MS / 2 {
            MAX_RTO_MS
        } else {
            self.rto_ms * 2
        };
    }
}

impl Default for RttEstimator {
    fn default() -> (e: RttEstimator)
        ensures
            e == unmeasured(),
    {
        RttEstimator { srtt_ms: None, rttvar_ms: 0, rto_ms: MIN_RTO_MS }
    }
}

/// The timeout stays within its range: it starts there, and every measurement and every back-off
/// keeps it there.
pub proof fn law_rto_stays_in_range(e: RttEstimator, rtt_ms: u64)
    ensures
        unmeasured().wf(),
        sampled(e, rtt_ms).wf(),
        e.wf() ==> backed_off(e).wf(),
        e.wf() ==> backed_off(e).rto_ms >= e.rto_ms,
{
}

/// A fresh measurement forgets every back-off that came before it.
pub proof fn law_sample_clears_back_off(e: RttEstimator, rtt_ms: u64)
    ensures
        sampled(backed_off(e), rtt_ms) == sampled(e, rtt_ms),
{
}

/// On a path whose RTT never changes, the smoothed RTT is that RTT (up to the rounding of its
/// eighth) and the variation never grows.
pub proof fn law_steady_rtt_converges(e: RttEstimator, rtt_ms: u64)
    requires
        e.srtt_ms == Some(rtt_ms),
    ensures
        sampled(e, rtt_ms).srtt_ms == Some(rtt_ms),
        sampled(e, rtt_ms).rttvar_ms <= e.rttvar_ms,
        e.rttvar_ms >= 4 ==> sampled(e, rtt_ms).rttvar_ms < e.rttvar_ms,
{
}

/// How a measurement moves the estimate (RFC 6298). The first sets SRTT to the RTT and the variation
/// to half of it. A later one moves SRTT by an eighth towards the RTT and the variation by a quarter
/// towards their distance, each part rounded down. The timeout is SRTT and four variations (at least
/// a millisecond), between 200 ms and a minute.
pub proof fn law_measurement_moves_the_estimate(e: RttEstimator, rtt_ms: u64)
    requires
        rtt_ms <= 1_000_000_000,
        e.rttvar_ms <= 1_000_000_000,
        e.srtt_ms is Some ==> e.srtt_ms->0 <= 1_000_000_000,
    ensures
        ({
            let e1 = sampled(e, rtt_ms);
            let srtt = e1.srtt_ms->0;
            let spread = if e1.rttvar_ms == 0 {
                1
            } else {
                4 * e1.rttvar_ms
            };
            let sum = srtt + spread;
            &&& e1.srtt_ms is Some
            &&& e.srtt_ms is None ==> srtt == rtt_ms && e1.rttvar_ms == rtt_ms / 2
            &&& e.srtt_ms is Some ==> {
                let old_srtt = e.srtt_ms->0;
                let off = if old_srtt >= rtt_ms {
                    old_srtt - rtt_ms
                } else {
                    rtt_ms - old_srtt
                };
                &&& srtt + old_srtt / 8 == old_srtt + rtt_ms / 8
                &&& e1.rttvar_ms + e.rttvar_ms / 4 == e.rttvar_ms + off / 4
            }
            &&& e1.rto_ms == (if sum < 200 {
                200
            } else if sum > 60_000 {
                60_000
            } else {
                sum
            })
        }),
{
}

/// Back-off doubles the timeout, up to a minute, and touches nothing else. Before any measurement
/// the timeout is 200 ms.
pub proof fn law_back_off_doubles(e: RttEstimator)
    ensures
        unmeasured().rto_ms == 200 && unmeasured().srtt_ms is None,
        e.rto_ms <= 30_000 ==> backed_off(e) == (RttEstimator {
            rto_ms: (e.rto_ms + e.rto_ms) as u64,
            ..e
        }),
        e.rto_ms > 30_000 ==> backed_off(e) == (RttEstimator { rto_ms: 60_000, ..e }),
{
}

} // verus!
