//! CUBIC congestion control.
use tcp_stack::congestion::{CongestionControl, MSS};

/// Grow `cwnd` to `n`·MSS through slow start (each ACK adds one MSS from the 1·MSS default).
fn grow_to(c: &mut CongestionControl, n: u32) {
    for _ in 0..(n - 1) {
        c.on_ack(MSS, 0);
    }
    assert_eq!(c.window(), n * MSS);
}

#[test]
fn starts_in_slow_start_at_one_mss() {
    assert_eq!(CongestionControl::default().window(), MSS);
}

#[test]
fn slow_start_adds_one_mss_per_ack() {
    let mut c = CongestionControl::default();
    c.on_ack(MSS, 0); // 1460 → 2920
    assert_eq!(c.window(), 2 * MSS);
    c.on_ack(MSS, 0); // 2920 → 4380
    assert_eq!(c.window(), 3 * MSS);
}

#[test]
fn cubic_reduces_cwnd_by_beta_on_three_dup_acks() {
    let mut c = CongestionControl::default();
    grow_to(&mut c, 10); // cwnd = 10·MSS
    assert!(!c.on_dup_ack(0)); // 1st
    assert!(!c.on_dup_ack(0)); // 2nd
    assert!(c.on_dup_ack(0)); // 3rd → fast retransmit
    // CUBIC β = 0.7: ssthresh = 10·MSS·0.7 = 7·MSS; cwnd = ssthresh + 3·MSS = 10·MSS.
    assert_eq!(c.window(), 10 * MSS);
}

#[test]
fn extra_dup_acks_inflate_during_recovery() {
    let mut c = CongestionControl::default();
    grow_to(&mut c, 10);
    c.on_dup_ack(0);
    c.on_dup_ack(0);
    c.on_dup_ack(0); // enter recovery, cwnd = 10·MSS
    assert!(!c.on_dup_ack(0)); // 4th inflates by 1 MSS
    assert_eq!(c.window(), 11 * MSS);
}

#[test]
fn new_ack_deflates_out_of_recovery_to_ssthresh() {
    let mut c = CongestionControl::default();
    grow_to(&mut c, 10);
    c.on_dup_ack(0);
    c.on_dup_ack(0);
    c.on_dup_ack(0); // recovery: ssthresh = 7·MSS, cwnd = 10·MSS
    c.on_ack(MSS, 1000); // new data acked → deflate to ssthresh
    assert_eq!(c.window(), 7 * MSS);
}

#[test]
fn reports_recovery_state() {
    let mut c = CongestionControl::default();
    assert!(!c.in_recovery());
    c.on_dup_ack(0);
    c.on_dup_ack(0);
    c.on_dup_ack(0); // 3rd dup ACK → enter fast recovery
    assert!(c.in_recovery());
    c.on_ack(MSS, 1000); // a full ACK ends recovery (the on_ack deflate path)
    assert!(!c.in_recovery());
}

#[test]
fn newreno_partial_ack_deflates_and_stays_in_recovery() {
    let mut c = CongestionControl::default();
    grow_to(&mut c, 10);
    c.on_dup_ack(0);
    c.on_dup_ack(0);
    c.on_dup_ack(0); // recovery: ssthresh = 7·MSS, cwnd = 10·MSS
    assert_eq!(c.window(), 10 * MSS);
    // A partial ACK for one MSS: cwnd −= MSS then += MSS ⇒ unchanged, and we stay in recovery.
    c.on_partial_ack(MSS);
    assert_eq!(c.window(), 10 * MSS);
    assert!(c.in_recovery());
    // A partial ACK for two MSS: cwnd = 10·MSS − 2·MSS + MSS = 9·MSS, still in recovery.
    c.on_partial_ack(2 * MSS);
    assert_eq!(c.window(), 9 * MSS);
    assert!(c.in_recovery());
}

#[test]
fn cubic_recovers_toward_and_past_w_max() {
    let mut c = CongestionControl::default();
    grow_to(&mut c, 10); // cwnd = 10·MSS
    c.on_dup_ack(0);
    c.on_dup_ack(0);
    c.on_dup_ack(0); // loss: W_max = 10·MSS, ssthresh = 7·MSS
    c.on_ack(MSS, 1000); // exit recovery → cwnd = ssthresh = 7·MSS, CUBIC CA begins
    let early = c.window();
    assert_eq!(early, 7 * MSS);
    // Drive CA ACKs across several seconds of simulated time: the cubic curve climbs back to
    // W_max (the concave region) and then probes past it (the convex region).
    let mut t = 1000u64;
    for _ in 0..200 {
        t += 25;
        c.on_ack(MSS, t);
    }
    let late = c.window();
    assert!(late > early, "CUBIC grew the window during congestion avoidance");
    assert!(late >= 10 * MSS, "CUBIC probes back to/past W_max (got {} MSS)", late / MSS);
}

#[test]
fn timeout_collapses_to_one_mss_and_slow_start() {
    let mut c = CongestionControl::default();
    grow_to(&mut c, 6); // cwnd = 6·MSS
    c.on_timeout(0); // RTO → cwnd = 1·MSS, ssthresh = 6·MSS·0.7 ≈ 4·MSS
    assert_eq!(c.window(), MSS);
    // Back in slow start (cwnd < ssthresh): the next ACK adds a full MSS again.
    c.on_ack(MSS, 100);
    assert_eq!(c.window(), 2 * MSS);
}

#[test]
fn the_curve_has_exact_values() {
    let mut c = CongestionControl::default();
    grow_to(&mut c, 10);
    c.on_dup_ack(0);
    c.on_dup_ack(0);
    c.on_dup_ack(0); // W_max = 14600, so K is the cube root of 7.5 seconds
    c.on_ack(MSS, 1000); // 10220
    c.on_ack(MSS, 2000); // epoch begins on the curve: creep by 1460 * 1460 / 10220 = 208
    assert_eq!(c.window(), 10_428);
    c.on_ack(MSS, 4000); // past K the curve is back at 14600: a seventh of the way
    assert_eq!(c.window(), 11_024);
}

#[test]
fn reductions_stop_at_two_segments() {
    let mut c = CongestionControl::default();
    c.on_timeout(0);
    assert_eq!(c.window(), MSS);
    c.on_ack(MSS, 10); // below the threshold of two segments: slow start
    assert_eq!(c.window(), 2 * MSS);
    c.on_ack(0, 20); // nothing acknowledged, nothing gained
    assert_eq!(c.window(), 2 * MSS);
}

#[test]
fn the_curve_stays_within_its_type() {
    let mut c = CongestionControl::default();
    grow_to(&mut c, 10);
    c.on_timeout(0);
    for t in [1u64, 2, 3, 4, 5, 6, 7, 8, 1_000_000, u64::MAX] {
        c.on_ack(MSS, t);
    }
    assert!(c.window() >= MSS);
}
