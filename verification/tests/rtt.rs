//! Round-trip estimation and the retransmission timeout.
use tcp_stack::rtt::{RttEstimator, MAX_RTO_MS, MIN_RTO_MS};

#[test]
fn no_sample_uses_default_rto() {
    assert_eq!(RttEstimator::default().rto(), MIN_RTO_MS);
}

#[test]
fn first_sample() {
    let mut e = RttEstimator::default();
    e.sample(100); // SRTT=100, RTTVAR=50 → RTO = 100 + 4·50 = 300
    assert_eq!(e.rto(), 300);
}

#[test]
fn converges_on_steady_rtt() {
    let mut e = RttEstimator::default();
    e.sample(100); // SRTT=100, RTTVAR=50
    e.sample(100); // delta=0 → RTTVAR=50−12+0=38; SRTT=100−12+12=100 → RTO=100+4·38=252
    assert_eq!(e.rto(), 252);
}

#[test]
fn clamps_low_rtt_to_minimum() {
    let mut e = RttEstimator::default();
    e.sample(10); // SRTT=10, RTTVAR=5 → RTO = 10 + 20 = 30 → clamped up to MIN_RTO 200
    assert_eq!(e.rto(), 200);
}

#[test]
fn clamps_high_rtt_to_maximum() {
    let mut e = RttEstimator::default();
    e.sample(100_000); // huge → RTO would exceed 60s → clamped to MAX_RTO
    assert_eq!(e.rto(), MAX_RTO_MS);
}

#[test]
fn backing_off_doubles_up_to_the_maximum() {
    let mut e = RttEstimator::default();
    e.back_off();
    assert_eq!(e.rto(), 400);
    e.back_off();
    assert_eq!(e.rto(), 800);
    for _ in 0..20 {
        e.back_off();
    }
    assert_eq!(e.rto(), MAX_RTO_MS);
}

#[test]
fn a_sample_clears_the_back_off() {
    let mut e = RttEstimator::default();
    e.sample(100);
    e.back_off();
    assert_eq!(e.rto(), 600);
    e.sample(100);
    assert_eq!(e.rto(), 252);
}

#[test]
fn a_varying_rtt_widens_the_timeout() {
    let mut e = RttEstimator::default();
    e.sample(100); // SRTT 100, RTTVAR 50
    e.sample(180); // delta 80: RTTVAR 50 - 12 + 20 = 58, SRTT 100 - 12 + 22 = 110
    assert_eq!(e.rto(), 110 + 4 * 58);
}
