//! What a connection is and how it moves: the state, and each transition as a function on it.
//!
//! A transition takes the state before and gives the state after, with the packets to send. The
//! clock (`now_ms`) and every random number (`draw`) are arguments.
use vstd::prelude::*;

use crate::addr::Ipv4Addr;
use crate::rtt::RttEstimator;
use crate::tcp::header::{State, TcpHeader, ACK, FIN, PSH, RST, SYN};
use crate::tcp::options::OUR_MSS;
use crate::tcp::packet::Endpoint;

verus! {

/// The receive window we advertise.
pub const RECV_WINDOW: u16 = 1024;

/// The largest payload we send until the peer advertises a size.
pub const DEFAULT_SEND_MSS: u16 = 1460;

/// This many SACKed segments above a hole mean that it is lost (RFC 6675).
pub const DUP_THRESH: u32 = 3;

/// The ceiling of the challenge-ACK budget per window. The budget itself is random, so that its
/// use cannot be inferred from outside.
pub const CHALLENGE_ACK_MAX: u32 = 5;

/// The length of a challenge-ACK window.
pub const CHALLENGE_WINDOW_MS: u64 = 1000;

/// Keepalive: idle time before the first probe, time between probes, and the number of unanswered
/// probes after which the peer is gone.
pub const KEEPALIVE_IDLE_MS: u64 = 60_000;

pub const KEEPALIVE_INTVL_MS: u64 = 5_000;

pub const KEEPALIVE_PROBES: u32 = 3;

/// Twice the maximum segment lifetime.
pub const TIME_WAIT_MS: u64 = 240_000;

/// How long a half-closed connection may idle.
pub const FIN_WAIT2_TIMEOUT_MS: u64 = 60_000;

pub const CLOSE_WAIT_TIMEOUT_MS: u64 = 120_000;

/// The transmission control block: everything about a connection but its buffers, its
/// retransmission queue and its congestion controller.
#[derive(Debug, Clone, Copy)]
pub struct Tcb {
    pub state: State,
    pub local: Endpoint,
    pub remote: Endpoint,
    /// Oldest unacknowledged sequence number.
    pub una: u32,
    /// Next sequence number to send.
    pub nxt: u32,
    /// The peer's advertised window, scaled.
    pub snd_wnd: u32,
    /// Our initial sequence number.
    pub iss: u32,
    /// Next sequence number expected from the peer.
    pub rcv_nxt: u32,
    /// The window we advertise.
    pub rcv_wnd: u16,
    /// The peer's initial sequence number.
    pub irs: u32,
    pub rtt: RttEstimator,
    /// When we entered TIME_WAIT.
    pub time_wait_ms: u64,
    /// Nagle's algorithm: hold a small segment while data is unacknowledged.
    pub nagle: bool,
    /// When the next zero-window probe is due; 0 when disarmed.
    pub persist_ms: u64,
    /// The largest payload we put into one segment.
    pub send_mss: u16,
    /// Both SYNs offered timestamps: every segment carries them.
    pub ts_enabled: bool,
    /// The most recent timestamp received from the peer.
    pub ts_recent: u32,
    /// Our timestamp clock.
    pub ts_val: u32,
    /// The peer's window-scale shift.
    pub snd_wscale: u8,
    /// Both SYNs permitted SACK.
    pub sack_ok: bool,
    /// The peer has sent its FIN: the application is at the end of the stream.
    pub peer_fin: bool,
    /// Where a FIN sits that arrived ahead of missing data.
    pub pending_fin: Option<u32>,
    /// SND.NXT when the current fast recovery began.
    pub recover: u32,
    /// The largest send window seen.
    pub max_snd_wnd: u32,
    /// Challenge ACKs left in the current window.
    pub challenge_budget: u32,
    /// When that window began.
    pub challenge_window_ms: u64,
    /// When the last segment arrived.
    pub last_active_ms: u64,
    /// When the tail loss probe is due; 0 when disarmed.
    pub tlp_deadline_ms: u64,
    /// A tail loss probe is outstanding.
    pub tlp_sent: bool,
    pub keepalive_enabled: bool,
    /// Keepalive probes sent since the last arrival.
    pub keepalive_probes_sent: u32,
    /// The earliest time that pacing lets the next new segment leave.
    pub next_send_ms: u64,
}

/// The whole state of a connection.
#[verifier::ext_equal]
pub struct Conn {
    pub tcb: Tcb,
    /// Sent and not yet acknowledged.
    pub retx: crate::tcp::retx::Queue,
    /// Received ahead of RCV.NXT.
    pub reasm: crate::reassembly::Buffered,
    pub cong: crate::controller::ControllerState,
    /// Written by the application and not yet sent.
    pub send_buf: Seq<u8>,
    /// Received in order and not yet taken by the application.
    pub recv_buf: Seq<u8>,
}

/// What a transition that answers with at most one packet yields.
pub type Step = (Conn, Option<Seq<u8>>);

/// What a transition that sends any number of packets yields.
pub type Sends = (Conn, Seq<Seq<u8>>);

impl Conn {
    /// The controller is in a proper state, the window shift fits, no segment is larger than we
    /// advertise, our window is the one we always offer, and no more keepalive probes are counted
    /// than are ever sent.
    pub open spec fn wf(self) -> bool {
        &&& self.cong.wf()
        &&& self.tcb.snd_wscale < 32
        &&& self.tcb.send_mss <= OUR_MSS
        &&& self.tcb.rcv_wnd == RECV_WINDOW
        &&& self.tcb.keepalive_probes_sent <= KEEPALIVE_PROBES
    }
}

/// A time as our 32-bit timestamp clock shows it.
pub open spec fn clock_of(now_ms: u64) -> u32 {
    (now_ms % 0x1_0000_0000) as u32
}

/// A challenge-ACK budget from a random number.
pub open spec fn budget_of(draw: u32) -> u32 {
    (1 + draw % CHALLENGE_ACK_MAX) as u32
}

pub open spec fn min_u32(a: u32, b: u32) -> u32 {
    if a < b {
        a
    } else {
        b
    }
}

pub open spec fn max_u64(a: u64, b: u64) -> u64 {
    if a > b {
        a
    } else {
        b
    }
}

/// The segment size to use with a peer that advertised `mss`.
pub open spec fn bounded_mss(mss: u16) -> u16 {
    if mss < OUR_MSS {
        mss
    } else {
        OUR_MSS
    }
}

/// Bytes sent and not yet acknowledged.
pub open spec fn flight_size(t: Tcb) -> u32 {
    t.nxt.wrapping_sub(t.una)
}

/// What both the receiver and the network allow in flight.
pub open spec fn send_limit(c: Conn) -> u32 {
    min_u32(c.tcb.snd_wnd, c.cong.window())
}

/// Bytes that may still be sent: `min(SND.WND, cwnd) - FlightSize`, at least zero.
pub open spec fn usable(c: Conn) -> u32 {
    if send_limit(c) > flight_size(c.tcb) {
        (send_limit(c) - flight_size(c.tcb)) as u32
    } else {
        0
    }
}

/// The timestamps option, if negotiated.
pub open spec fn ts_options(t: Tcb) -> Seq<u8> {
    if t.ts_enabled {
        crate::tcp::options::ts_bytes(t.ts_val, t.ts_recent)
    } else {
        Seq::empty()
    }
}

/// A segment of this connection with the given options.
pub open spec fn segment_with(
    t: Tcb,
    seq: u32,
    ack: u32,
    flags: u8,
    options: Seq<u8>,
    payload: Seq<u8>,
) -> Seq<u8> {
    crate::tcp::packet::packet_bytes(
        t.local,
        t.remote,
        seq,
        ack,
        flags,
        t.rcv_wnd,
        options,
        payload,
    )
}

/// An ordinary segment of this connection.
pub open spec fn segment_bytes(t: Tcb, seq: u32, ack: u32, flags: u8, payload: Seq<u8>) -> Seq<u8> {
    segment_with(t, seq, ack, flags, ts_options(t), payload)
}

/// An ACK of the current state.
pub open spec fn bare_ack(t: Tcb) -> Seq<u8> {
    segment_bytes(t, t.nxt, t.rcv_nxt, ACK, Seq::empty())
}

/// The options of an ACK of data: timestamps, then SACK blocks for what is buffered.
pub open spec fn ack_options(c: Conn) -> Seq<u8> {
    ts_options(c.tcb) + (if c.tcb.sack_ok {
        crate::tcp::options::sack_bytes(crate::reassembly::sack_ranges(c.reasm))
    } else {
        Seq::empty()
    })
}

/// An ACK of data.
pub open spec fn data_ack(c: Conn) -> Seq<u8> {
    segment_with(c.tcb, c.tcb.nxt, c.tcb.rcv_nxt, ACK, ack_options(c), Seq::empty())
}

// ---- Opening ----

/// The control block of a new connection whose peer started at `irs`.
pub open spec fn fresh_tcb(
    state: State,
    local: Endpoint,
    remote: Endpoint,
    iss: u32,
    irs: u32,
    draw: u32,
    now_ms: u64,
) -> Tcb {
    Tcb {
        state,
        local,
        remote,
        una: iss,
        nxt: iss.wrapping_add(1),
        snd_wnd: RECV_WINDOW as u32,
        iss,
        rcv_nxt: irs.wrapping_add(1),
        rcv_wnd: RECV_WINDOW,
        irs,
        rtt: crate::rtt::unmeasured(),
        time_wait_ms: 0,
        nagle: true,
        persist_ms: 0,
        send_mss: DEFAULT_SEND_MSS,
        ts_enabled: false,
        ts_recent: 0,
        ts_val: clock_of(now_ms),
        snd_wscale: 0,
        sack_ok: false,
        peer_fin: false,
        pending_fin: None,
        recover: iss,
        max_snd_wnd: RECV_WINDOW as u32,
        challenge_budget: budget_of(draw),
        challenge_window_ms: now_ms,
        last_active_ms: now_ms,
        tlp_deadline_ms: 0,
        tlp_sent: false,
        keepalive_enabled: false,
        keepalive_probes_sent: 0,
        next_send_ms: 0,
    }
}

/// A connection with empty buffers.
pub open spec fn fresh_conn(t: Tcb) -> Conn {
    Conn {
        tcb: t,
        retx: crate::tcp::retx::empty_queue(),
        reasm: crate::reassembly::empty_at(t.rcv_nxt),
        cong: crate::controller::ControllerState::Cubic(crate::congestion::fresh()),
        send_buf: Seq::empty(),
        recv_buf: Seq::empty(),
    }
}

/// `c` after sending `packet` over the sequence numbers from `start` to `end`.
pub open spec fn recording(c: Conn, start: u32, end: u32, packet: Seq<u8>, now_ms: u64) -> Conn {
    Conn { retx: crate::tcp::retx::recorded(c.retx, start, end, packet, now_ms), ..c }
}

/// The control block of a passive open: what the peer's SYN offers is adopted.
pub open spec fn accepted_tcb(
    ip_src: Ipv4Addr,
    ip_dst: Ipv4Addr,
    th: TcpHeader,
    opts: crate::tcp::options::OptionSet,
    iss: u32,
    draw: u32,
    now_ms: u64,
) -> Tcb {
    Tcb {
        send_mss: match opts.mss {
            Some(m) => bounded_mss(m),
            None => DEFAULT_SEND_MSS,
        },
        ts_enabled: opts.timestamps is Some,
        ts_recent: match opts.timestamps {
            Some(ts) => ts.0,
            None => 0,
        },
        snd_wscale: match opts.window_scale {
            Some(shift) => shift,
            None => 0,
        },
        sack_ok: opts.sack_permitted,
        ..fresh_tcb(
            State::SynRcvd,
            (ip_dst, th.dst_port),
            (ip_src, th.src_port),
            iss,
            th.seq,
            draw,
            now_ms,
        )
    }
}

/// The options of a SYN-ACK: our MSS, and each other option only if the peer offered it.
pub open spec fn synack_options(t: Tcb, offered_scale: bool) -> Seq<u8> {
    crate::tcp::options::mss_bytes(OUR_MSS) + (if offered_scale {
        crate::tcp::options::ws_bytes(crate::tcp::options::OUR_RCV_WSCALE)
    } else {
        Seq::empty()
    }) + ts_options(t) + (if t.sack_ok {
        crate::tcp::options::sack_perm_bytes()
    } else {
        Seq::empty()
    })
}

/// The SYN-ACK of a passive open.
pub open spec fn synack_bytes(t: Tcb, offered_scale: bool) -> Seq<u8> {
    segment_with(
        t,
        t.iss,
        t.rcv_nxt,
        SYN | ACK,
        synack_options(t, offered_scale),
        Seq::empty(),
    )
}

/// A passive open: the connection in SYN_RCVD, its SYN-ACK recorded for retransmission.
pub open spec fn accepted(
    ip_src: Ipv4Addr,
    ip_dst: Ipv4Addr,
    th: TcpHeader,
    opts: crate::tcp::options::OptionSet,
    iss: u32,
    draw: u32,
    now_ms: u64,
) -> (Conn, Seq<u8>) {
    let t = accepted_tcb(ip_src, ip_dst, th, opts, iss, draw, now_ms);
    let synack = synack_bytes(t, opts.window_scale is Some);
    (recording(fresh_conn(t), t.iss, t.nxt, synack, now_ms), synack)
}

/// The control block of an active open: the peer's sequence numbers are not known yet.
pub open spec fn connecting_tcb(
    local: Endpoint,
    remote: Endpoint,
    iss: u32,
    draw: u32,
    now_ms: u64,
) -> Tcb {
    Tcb { rcv_nxt: 0, ..fresh_tcb(State::SynSent, local, remote, iss, 0, draw, now_ms) }
}

/// The options of a SYN: everything we can do is offered.
pub open spec fn syn_options(t: Tcb) -> Seq<u8> {
    crate::tcp::options::mss_bytes(OUR_MSS) + crate::tcp::options::ws_bytes(
        crate::tcp::options::OUR_RCV_WSCALE,
    ) + crate::tcp::options::ts_bytes(t.ts_val, 0) + crate::tcp::options::sack_perm_bytes()
}

/// An active open: the connection in SYN_SENT, and its SYN, recorded for retransmission.
pub open spec fn connecting(
    local: Endpoint,
    remote: Endpoint,
    iss: u32,
    draw: u32,
    now_ms: u64,
) -> (Conn, Seq<u8>) {
    let t = connecting_tcb(local, remote, iss, draw, now_ms);
    let syn = segment_with(t, t.iss, 0, SYN, syn_options(t), Seq::empty());
    (recording(fresh_conn(t), t.iss, t.nxt, syn, now_ms), syn)
}

/// A connection rebuilt from a SYN cookie, in ESTABLISHED. Only the segment size was negotiated.
pub open spec fn from_cookie(
    local: Endpoint,
    remote: Endpoint,
    peer_isn: u32,
    cookie: u32,
    send_mss: u16,
    draw: u32,
    now_ms: u64,
) -> Conn {
    fresh_conn(
        Tcb {
            una: cookie.wrapping_add(1),
            send_mss: bounded_mss(send_mss),
            ..fresh_tcb(State::Established, local, remote, cookie, peer_isn, draw, now_ms)
        },
    )
}

// ---- Closing our side ----

/// The state after our FIN, if one may be sent: an active close from ESTABLISHED, the end of a
/// passive one from CLOSE_WAIT.
pub open spec fn after_our_fin(state: State) -> Option<State> {
    match state {
        State::Established => Some(State::FinWait1),
        State::CloseWait => Some(State::LastAck),
        _ => None,
    }
}

/// Closing our side: our FIN goes out and is recorded for retransmission.
pub open spec fn closed_by_us(c: Conn, now_ms: u64) -> Step {
    match after_our_fin(c.tcb.state) {
        None => (c, None),
        Some(next) => {
            let t = Tcb { ts_val: clock_of(now_ms), ..c.tcb };
            let fin = segment_bytes(t, t.nxt, t.rcv_nxt, FIN | ACK, Seq::empty());
            let end = t.nxt.wrapping_add(1);
            let c = Conn { tcb: Tcb { nxt: end, state: next, ..t }, ..c };
            (recording(c, t.nxt, end, fin, now_ms), Some(fin))
        },
    }
}

// ---- A segment arrives ----

/// Both initial sequence numbers are fixed.
pub open spec fn synchronized(state: State) -> bool {
    match state {
        State::SynSent | State::SynRcvd | State::Closed => false,
        _ => true,
    }
}

/// `seq` lies in our receive window.
pub open spec fn in_receive_window(t: Tcb, seq: u32) -> bool {
    !crate::seq::is_before(seq, t.rcv_nxt) && crate::seq::is_before(
        seq,
        t.rcv_nxt.wrapping_add(t.rcv_wnd as u32),
    )
}

/// The window that a segment offers, scaled.
pub open spec fn offered_window(t: Tcb, th: TcpHeader) -> u32 {
    (th.window as u32) << (t.snd_wscale as u32)
}

/// The largest window seen, that of the segment at hand included.
pub open spec fn widest_window(t: Tcb, th: TcpHeader) -> u32 {
    if offered_window(t, th) > t.max_snd_wnd {
        offered_window(t, th)
    } else {
        t.max_snd_wnd
    }
}

/// An acknowledgement of something we sent, or a plausibly old one (RFC 5961 section 5):
/// `SND.UNA - MAX.SND.WND <= SEG.ACK <= SND.NXT`, where MAX.SND.WND counts the window that the
/// segment itself offers.
pub open spec fn ack_acceptable(t: Tcb, th: TcpHeader) -> bool {
    !crate::seq::is_before(th.ack, t.una.wrapping_sub(widest_window(t, th)))
        && !crate::seq::is_before(t.nxt, th.ack)
}

/// The challenge-ACK budget is due for a refill.
pub open spec fn refill_due(t: Tcb, now_ms: u64) -> bool {
    now_ms.wrapping_sub(t.challenge_window_ms) >= CHALLENGE_WINDOW_MS
}

/// The budget after a refill, if one is due.
pub open spec fn refilled(t: Tcb, now_ms: u64, draw: u32) -> Tcb {
    if refill_due(t, now_ms) {
        Tcb { challenge_window_ms: now_ms, challenge_budget: budget_of(draw), ..t }
    } else {
        t
    }
}

/// A throttled challenge ACK (RFC 5961): an ACK of the current state while the budget lasts.
pub open spec fn challenged(c: Conn, now_ms: u64, draw: u32) -> Step {
    let t = refilled(c.tcb, now_ms, draw);
    if t.challenge_budget == 0 {
        (Conn { tcb: t, ..c }, None)
    } else {
        let t = Tcb { challenge_budget: (t.challenge_budget - 1) as u32, ..t };
        (Conn { tcb: t, ..c }, Some(bare_ack(t)))
    }
}

pub open spec fn in_state(c: Conn, state: State) -> Conn {
    Conn { tcb: Tcb { state, ..c.tcb }, ..c }
}

/// A RST: in SYN_SENT it counts only if it acknowledges our SYN; in TIME_WAIT never (RFC 1337);
/// else only exactly at RCV.NXT. Elsewhere in the window it is challenged, outside it ignored.
pub open spec fn reset_step(c: Conn, th: TcpHeader, now_ms: u64, draw: u32) -> Step {
    if c.tcb.state == State::SynSent {
        if th.flags & ACK != 0 && th.ack == c.tcb.nxt {
            (in_state(c, State::Closed), None)
        } else {
            (c, None)
        }
    } else if c.tcb.state == State::TimeWait {
        (c, None)
    } else if th.seq == c.tcb.rcv_nxt {
        (in_state(c, State::Closed), None)
    } else if in_receive_window(c.tcb, th.seq) {
        challenged(c, now_ms, draw)
    } else {
        (c, None)
    }
}

/// In SYN_SENT, the SYN-ACK that acknowledges our SYN completes the handshake; what it offers is
/// adopted. Anything else is ignored.
pub open spec fn syn_sent_step(
    c: Conn,
    th: TcpHeader,
    opts: crate::tcp::options::OptionSet,
) -> Step {
    if th.flags & (SYN | ACK) == (SYN | ACK) && th.ack == c.tcb.nxt {
        let t = Tcb {
            state: State::Established,
            irs: th.seq,
            rcv_nxt: th.seq.wrapping_add(1),
            una: th.ack,
            send_mss: match opts.mss {
                Some(m) => bounded_mss(m),
                None => c.tcb.send_mss,
            },
            ts_enabled: c.tcb.ts_enabled || opts.timestamps is Some,
            ts_recent: match opts.timestamps {
                Some(ts) => ts.0,
                None => c.tcb.ts_recent,
            },
            snd_wscale: match opts.window_scale {
                Some(shift) => shift,
                None => c.tcb.snd_wscale,
            },
            sack_ok: c.tcb.sack_ok || opts.sack_permitted,
            ..c.tcb
        };
        (
            Conn {
                tcb: t,
                retx: crate::tcp::retx::acked_to(c.retx, th.ack),
                reasm: crate::reassembly::empty_at(t.rcv_nxt),
                ..c
            },
            Some(bare_ack(t)),
        )
    } else {
        (c, None)
    }
}

/// In SYN_RCVD, the ACK of our SYN-ACK completes the handshake.
pub open spec fn handshake_acked(c: Conn, th: TcpHeader) -> bool {
    th.flags & ACK != 0 && th.ack == c.tcb.nxt
}

pub open spec fn handshake_completed(c: Conn, th: TcpHeader) -> Conn {
    Conn {
        tcb: Tcb { una: th.ack, state: State::Established, ..c.tcb },
        retx: crate::tcp::retx::acked_to(c.retx, th.ack),
        ..c
    }
}

/// PAWS (RFC 7323): the segment's timestamp predates the most recent one.
pub open spec fn stale(t: Tcb, opts: crate::tcp::options::OptionSet) -> bool {
    t.ts_enabled && opts.timestamps is Some && crate::seq::is_before(
        (opts.timestamps->0).0,
        t.ts_recent,
    )
}

/// The control block with the segment's timestamp and window taken in.
pub open spec fn window_updated(
    t: Tcb,
    th: TcpHeader,
    opts: crate::tcp::options::OptionSet,
) -> Tcb {
    Tcb {
        ts_recent: if t.ts_enabled && opts.timestamps is Some && !crate::seq::is_before(
            t.rcv_nxt,
            th.seq,
        ) {
            (opts.timestamps->0).0
        } else {
            t.ts_recent
        },
        snd_wnd: offered_window(t, th),
        max_snd_wnd: widest_window(t, th),
        ..t
    }
}

/// The RTT sample of an ACK of new data: with timestamps from the echoed clock, else from the
/// retransmission queue.
pub open spec fn ack_sample(
    c: Conn,
    ack: u32,
    opts: crate::tcp::options::OptionSet,
    now_ms: u64,
) -> Option<u64> {
    if c.tcb.ts_enabled {
        match opts.timestamps {
            Some(ts) => Some(c.tcb.ts_val.wrapping_sub(ts.1) as u64),
            None => None,
        }
    } else {
        crate::tcp::retx::rtt_sample(
            crate::tcp::retx::fully_acked(c.retx.segments, ack),
            now_ms,
        )
    }
}

/// The oldest hole is resent at once.
pub open spec fn fast_retransmitted(c: Conn, now_ms: u64) -> Step {
    let i = crate::tcp::retx::first_where(c.retx.segments, crate::tcp::retx::is_hole());
    (
        Conn { retx: crate::tcp::retx::resent_at(c.retx, i, now_ms), ..c },
        crate::tcp::retx::packet_at(c.retx, i),
    )
}

/// New data is acknowledged: drop it, take the RTT sample, and either go on with recovery (a
/// partial ACK: resend the next hole) or grow the window.
pub open spec fn new_ack_step(
    c: Conn,
    ack: u32,
    opts: crate::tcp::options::OptionSet,
    now_ms: u64,
) -> Step {
    let acked = ack.wrapping_sub(c.tcb.una);
    let sample = ack_sample(c, ack, opts, now_ms);
    let t = Tcb {
        una: ack,
        tlp_sent: false,
        tlp_deadline_ms: 0,
        rtt: match sample {
            Some(s) => crate::rtt::sampled(c.tcb.rtt, s),
            None => c.tcb.rtt,
        },
        ..c.tcb
    };
    let c1 = Conn { tcb: t, retx: crate::tcp::retx::acked_to(c.retx, ack), ..c };
    if c.cong.in_recovery() && crate::seq::is_before(ack, t.recover) {
        fast_retransmitted(
            Conn { cong: c.cong.partially_acknowledged(acked), ..c1 },
            now_ms,
        )
    } else {
        (Conn { cong: c.cong.acknowledged(acked, sample, now_ms), ..c1 }, None)
    }
}

/// A duplicate ACK: the third in a row begins recovery and resends the oldest hole.
pub open spec fn dup_ack_step(c: Conn, now_ms: u64) -> Step {
    let c1 = Conn { cong: c.cong.duplicated(), ..c };
    if c.cong.at_threshold() {
        fast_retransmitted(
            Conn { tcb: Tcb { recover: c.tcb.nxt, ..c.tcb }, ..c1 },
            now_ms,
        )
    } else {
        (c1, None)
    }
}

/// A duplicate ACK (RFC 5681): no new data acknowledged, none carried, data in flight, and an
/// unchanged, open window.
pub open spec fn is_dup_ack(t: Tcb, th: TcpHeader, payload_len: int, prev_wnd: u32) -> bool {
    th.ack == t.una && t.una != t.nxt && payload_len == 0 && t.snd_wnd == prev_wnd && t.snd_wnd != 0
}

/// The SACK blocks of a segment are taken in, if SACK was negotiated.
pub open spec fn sacks_taken(c: Conn, opts: crate::tcp::options::OptionSet) -> Conn {
    if c.tcb.sack_ok && opts.sack_block_count > 0 {
        Conn { retx: crate::tcp::retx::marked(c.retx, opts.blocks()), ..c }
    } else {
        c
    }
}

/// An acceptable acknowledgement is acted upon.
pub open spec fn ack_step(
    c: Conn,
    th: TcpHeader,
    payload_len: int,
    opts: crate::tcp::options::OptionSet,
    prev_wnd: u32,
    now_ms: u64,
) -> Step {
    let c = sacks_taken(c, opts);
    if crate::seq::in_window(c.tcb.una, th.ack, c.tcb.nxt) {
        new_ack_step(c, th.ack, opts, now_ms)
    } else if is_dup_ack(c.tcb, th, payload_len, prev_wnd) {
        dup_ack_step(c, now_ms)
    } else {
        (c, None)
    }
}

/// A segment's data is handed to the reassembly buffer; what is now in order moves to the receive
/// buffer and RCV.NXT follows it.
pub open spec fn absorbed(c: Conn, seq: u32, payload: Seq<u8>) -> Conn {
    let out = crate::reassembly::delivered(c.reasm, seq, payload, c.tcb.rcv_nxt);
    Conn {
        tcb: Tcb {
            rcv_nxt: crate::seq::advance(c.tcb.rcv_nxt, out.len() as int),
            ..c.tcb
        },
        reasm: crate::reassembly::received(c.reasm, seq, payload, c.tcb.rcv_nxt),
        recv_buf: c.recv_buf + out,
        ..c
    }
}

/// The sequence number of a segment's FIN: behind its data.
pub open spec fn fin_seq(th: TcpHeader, payload_len: int) -> u32 {
    crate::seq::advance(th.seq, payload_len)
}

/// In CLOSE_WAIT, a FIN we have accepted before.
pub open spec fn repeats_fin(t: Tcb, th: TcpHeader, payload_len: int) -> bool {
    th.flags & FIN != 0 && t.state == State::CloseWait && !crate::seq::is_before(
        t.rcv_nxt,
        fin_seq(th, payload_len),
    )
}

/// In ESTABLISHED, a FIN at or ahead of RCV.NXT is remembered.
pub open spec fn fin_noted(t: Tcb, th: TcpHeader, payload_len: int) -> Tcb {
    if th.flags & FIN != 0 && t.state == State::Established && !crate::seq::is_before(
        fin_seq(th, payload_len),
        t.rcv_nxt,
    ) {
        Tcb { pending_fin: Some(fin_seq(th, payload_len)), ..t }
    } else {
        t
    }
}

/// The peer's FIN is consumed.
pub open spec fn fin_consumed(t: Tcb) -> Tcb {
    Tcb { rcv_nxt: t.rcv_nxt.wrapping_add(1), peer_fin: true, ..t }
}

/// Data and FIN of a segment in ESTABLISHED or CLOSE_WAIT: deliver the data; honour the FIN once
/// everything before it is in order (the half-close: an ACK, and CLOSE_WAIT); else acknowledge
/// the data.
pub open spec fn data_step(c: Conn, th: TcpHeader, payload: Seq<u8>) -> Step {
    let c = if payload.len() > 0 {
        absorbed(c, th.seq, payload)
    } else {
        c
    };
    if repeats_fin(c.tcb, th, payload.len() as int) {
        (c, Some(bare_ack(c.tcb)))
    } else {
        let t = fin_noted(c.tcb, th, payload.len() as int);
        if t.state == State::Established && t.pending_fin == Some(t.rcv_nxt) {
            let t = Tcb { state: State::CloseWait, pending_fin: None, ..fin_consumed(t) };
            (Conn { tcb: t, ..c }, Some(bare_ack(t)))
        } else {
            let c = Conn { tcb: t, ..c };
            if payload.len() > 0 {
                (c, Some(data_ack(c)))
            } else {
                (c, None)
            }
        }
    }
}

/// A segment in ESTABLISHED or CLOSE_WAIT. One whose acknowledgement is not acceptable is challenged
/// and dropped before anything of it is taken in.
pub open spec fn open_step(
    c: Conn,
    th: TcpHeader,
    payload: Seq<u8>,
    opts: crate::tcp::options::OptionSet,
    now_ms: u64,
    draw: u32,
) -> Step {
    if stale(c.tcb, opts) {
        (c, Some(bare_ack(c.tcb)))
    } else if th.flags & ACK != 0 && !ack_acceptable(c.tcb, th) {
        challenged(c, now_ms, draw)
    } else {
        let c1 = Conn { tcb: window_updated(c.tcb, th, opts), ..c };
        if th.flags & ACK == 0 {
            data_step(c1, th, payload)
        } else {
            let (c2, reply) = ack_step(
                c1,
                th,
                payload.len() as int,
                opts,
                c.tcb.snd_wnd,
                now_ms,
            );
            if reply is Some {
                (c2, reply)
            } else {
                data_step(c2, th, payload)
            }
        }
    }
}

/// The segment acknowledges our FIN.
pub open spec fn acks_our_fin(t: Tcb, th: TcpHeader) -> bool {
    th.flags & ACK != 0 && th.ack == t.nxt
}

/// `c` with everything up to `ack` dropped from the retransmission queue.
pub open spec fn fin_acked(c: Conn, ack: u32) -> Conn {
    Conn { retx: crate::tcp::retx::acked_to(c.retx, ack), ..c }
}

/// LAST_ACK: the ACK of our FIN ends the connection.
pub open spec fn last_ack_step(c: Conn, th: TcpHeader) -> Step {
    if acks_our_fin(c.tcb, th) {
        (in_state(fin_acked(c, th.ack), State::Closed), None)
    } else {
        (c, None)
    }
}

/// CLOSING: the ACK of our FIN leads to TIME_WAIT.
pub open spec fn closing_step(c: Conn, th: TcpHeader, now_ms: u64) -> Step {
    if acks_our_fin(c.tcb, th) {
        (lingering(fin_acked(c, th.ack), now_ms), None)
    } else {
        (c, None)
    }
}

/// In TIME_WAIT from now on.
pub open spec fn lingering(c: Conn, now_ms: u64) -> Conn {
    Conn { tcb: Tcb { state: State::TimeWait, time_wait_ms: now_ms, ..c.tcb }, ..c }
}

/// The segment's FIN is the next thing expected.
pub open spec fn fin_in_order(t: Tcb, th: TcpHeader, payload_len: int) -> bool {
    th.flags & FIN != 0 && fin_seq(th, payload_len) == t.rcv_nxt
}

/// FIN_WAIT_1: our receive side is still open. Deliver data; with the peer's FIN the close is
/// simultaneous (CLOSING) or complete (TIME_WAIT); with only the ACK of ours it is half done.
pub open spec fn fin_wait1_step(c: Conn, th: TcpHeader, payload: Seq<u8>, now_ms: u64) -> Step {
    let ours_acked = acks_our_fin(c.tcb, th);
    let c1 = if ours_acked {
        fin_acked(c, th.ack)
    } else {
        c
    };
    let c2 = if payload.len() > 0 {
        absorbed(c1, th.seq, payload)
    } else {
        c1
    };
    if fin_in_order(c2.tcb, th, payload.len() as int) {
        let c3 = Conn { tcb: fin_consumed(c2.tcb), ..c2 };
        let reply = Some(bare_ack(c3.tcb));
        if ours_acked {
            (lingering(c3, now_ms), reply)
        } else {
            (in_state(c3, State::Closing), reply)
        }
    } else {
        let c3 = if ours_acked {
            in_state(c2, State::FinWait2)
        } else {
            c2
        };
        if payload.len() > 0 {
            (c3, Some(bare_ack(c3.tcb)))
        } else {
            (c3, None)
        }
    }
}

/// FIN_WAIT_2: deliver data; the peer's FIN leads to TIME_WAIT.
pub open spec fn fin_wait2_step(c: Conn, th: TcpHeader, payload: Seq<u8>, now_ms: u64) -> Step {
    let c1 = if payload.len() > 0 {
        absorbed(c, th.seq, payload)
    } else {
        c
    };
    if fin_in_order(c1.tcb, th, payload.len() as int) {
        let c2 = Conn { tcb: fin_consumed(c1.tcb), ..c1 };
        (lingering(c2, now_ms), Some(bare_ack(c2.tcb)))
    } else if payload.len() > 0 {
        (c1, Some(bare_ack(c1.tcb)))
    } else {
        (c1, None)
    }
}

/// A segment past the handshake, by state.
pub open spec fn synchronized_step(
    c: Conn,
    th: TcpHeader,
    payload: Seq<u8>,
    opts: crate::tcp::options::OptionSet,
    now_ms: u64,
    draw: u32,
) -> Step {
    match c.tcb.state {
        State::Established | State::CloseWait => open_step(c, th, payload, opts, now_ms, draw),
        State::LastAck => last_ack_step(c, th),
        State::FinWait1 => fin_wait1_step(c, th, payload, now_ms),
        State::FinWait2 => fin_wait2_step(c, th, payload, now_ms),
        State::Closing => closing_step(c, th, now_ms),
        _ => (c, None),
    }
}

/// The arrival of a segment is noted: our clock, the idle timer, the keepalive count.
pub open spec fn touched(t: Tcb, now_ms: u64) -> Tcb {
    Tcb { ts_val: clock_of(now_ms), last_active_ms: now_ms, keepalive_probes_sent: 0, ..t }
}

/// A segment arrives: a RST first of all, then the handshake, then a SYN that has no business
/// here (challenged, RFC 5961), then the state's own rules.
pub open spec fn segment_step(
    c: Conn,
    th: TcpHeader,
    payload: Seq<u8>,
    opts: crate::tcp::options::OptionSet,
    now_ms: u64,
    draw: u32,
) -> Step {
    let c = Conn { tcb: touched(c.tcb, now_ms), ..c };
    if th.flags & RST != 0 {
        reset_step(c, th, now_ms, draw)
    } else if c.tcb.state == State::SynSent {
        syn_sent_step(c, th, opts)
    } else if th.flags & SYN != 0 && synchronized(c.tcb.state) {
        challenged(c, now_ms, draw)
    } else if c.tcb.state == State::SynRcvd {
        if handshake_acked(c, th) {
            synchronized_step(handshake_completed(c, th), th, payload, opts, now_ms, draw)
        } else {
            (c, None)
        }
    } else {
        synchronized_step(c, th, payload, opts, now_ms, draw)
    }
}

// ---- The clock ticks ----

/// TIME_WAIT and idle half-closed states end.
pub open spec fn expired(t: Tcb, now_ms: u64) -> bool {
    let idle = crate::congestion::elapsed(now_ms, t.last_active_ms);
    ||| t.state == State::TimeWait && crate::congestion::elapsed(now_ms, t.time_wait_ms)
        >= TIME_WAIT_MS
    ||| t.state == State::FinWait2 && idle >= FIN_WAIT2_TIMEOUT_MS
    ||| t.state == State::CloseWait && idle >= CLOSE_WAIT_TIMEOUT_MS
}

/// The clock is taken in and an expired connection closed.
pub open spec fn clock_step(t: Tcb, now_ms: u64) -> Tcb {
    Tcb {
        ts_val: clock_of(now_ms),
        state: if expired(t, now_ms) {
            State::Closed
        } else {
            t.state
        },
        ..t
    }
}

/// RACK: overtaken holes are resent once the reordering window (a quarter of the RTO) has passed.
pub open spec fn rack_step(c: Conn, now_ms: u64) -> Sends {
    let hit = crate::tcp::retx::is_overtaken(
        c.retx,
        now_ms,
        max_u64((c.tcb.rtt.rto_ms / 4) as u64, 1),
    );
    (
        Conn {
            retx: crate::tcp::retx::Queue {
                segments: crate::tcp::retx::resent_where(c.retx.segments, hit, now_ms),
                ..c.retx
            },
            ..c
        },
        crate::tcp::retx::packets_where(c.retx.segments, hit),
    )
}

/// The tail loss probe fires.
pub open spec fn tlp_due(c: Conn, now_ms: u64) -> bool {
    c.tcb.tlp_deadline_ms != 0 && now_ms >= c.tcb.tlp_deadline_ms && flight_size(c.tcb) > 0
        && !c.cong.in_recovery() && !c.tcb.tlp_sent
}

/// Tail loss probe: the last hole is resent, once per tail.
pub open spec fn tlp_step(c: Conn, now_ms: u64) -> Step {
    if tlp_due(c, now_ms) {
        let i = crate::tcp::retx::last_where(c.retx.segments, crate::tcp::retx::is_hole());
        let probe = crate::tcp::retx::packet_at(c.retx, i);
        (
            Conn {
                tcb: Tcb {
                    tlp_deadline_ms: 0,
                    tlp_sent: c.tcb.tlp_sent || probe is Some,
                    ..c.tcb
                },
                retx: crate::tcp::retx::resent_at(c.retx, i, now_ms),
                ..c
            },
            probe,
        )
    } else {
        (c, None)
    }
}

/// The retransmission timeout: whatever is due is resent; if anything is, the window collapses and
/// the timeout doubles.
pub open spec fn rto_step(c: Conn, now_ms: u64) -> Sends {
    let hit = crate::tcp::retx::is_due(now_ms, c.tcb.rtt.rto_ms);
    let due = crate::tcp::retx::packets_where(c.retx.segments, hit);
    let c1 = Conn {
        retx: crate::tcp::retx::Queue {
            segments: crate::tcp::retx::resent_where(c.retx.segments, hit, now_ms),
            ..c.retx
        },
        ..c
    };
    if due.len() > 0 {
        (
            Conn {
                tcb: Tcb { rtt: crate::rtt::backed_off(c.tcb.rtt), ..c.tcb },
                cong: c.cong.timed_out(),
                ..c1
            },
            due,
        )
    } else {
        (c1, due)
    }
}

/// Our send side is open.
pub open spec fn sends_data(state: State) -> bool {
    state == State::Established || state == State::CloseWait
}

/// The peer's window is shut, with data pending and nothing in flight.
pub open spec fn stalled(c: Conn) -> bool {
    sends_data(c.tcb.state) && c.tcb.snd_wnd == 0 && c.send_buf.len() > 0 && flight_size(c.tcb) == 0
}

/// `c` after sending the first `n` bytes of the send buffer with the given flags, recorded for
/// retransmission.
pub open spec fn sent(c: Conn, n: int, flags: u8, now_ms: u64) -> Conn {
    let end = crate::seq::advance(c.tcb.nxt, n);
    recording(
        Conn { tcb: Tcb { nxt: end, ..c.tcb }, send_buf: c.send_buf.skip(n), ..c },
        c.tcb.nxt,
        end,
        sent_packet(c, n, flags),
        now_ms,
    )
}

/// The packet with the first `n` bytes of the send buffer.
pub open spec fn sent_packet(c: Conn, n: int, flags: u8) -> Seq<u8> {
    segment_bytes(c.tcb, c.tcb.nxt, c.tcb.rcv_nxt, flags, c.send_buf.take(n))
}

/// The persist timer: armed one RTO ahead while stalled; when it fires, a single byte probes the
/// closed window.
pub open spec fn persist_step(c: Conn, now_ms: u64) -> Step {
    if stalled(c) {
        if c.tcb.persist_ms == 0 {
            (
                Conn {
                    tcb: Tcb {
                        persist_ms: crate::bbr::sat64(now_ms + c.tcb.rtt.rto_ms),
                        ..c.tcb
                    },
                    ..c
                },
                None,
            )
        } else if now_ms >= c.tcb.persist_ms {
            let probe = sent_packet(c, 1, ACK);
            let c1 = sent(c, 1, ACK, now_ms);
            (Conn { tcb: Tcb { persist_ms: 0, ..c1.tcb }, ..c1 }, Some(probe))
        } else {
            (c, None)
        }
    } else {
        (Conn { tcb: Tcb { persist_ms: 0, ..c.tcb }, ..c }, None)
    }
}

/// An idle established connection with keepalive on.
pub open spec fn idle(c: Conn) -> bool {
    c.tcb.keepalive_enabled && c.tcb.state == State::Established && flight_size(c.tcb) == 0
        && c.send_buf.len() == 0
}

/// When the next keepalive probe is due.
pub open spec fn next_probe_at(t: Tcb) -> u64 {
    crate::bbr::sat64(
        crate::bbr::sat64(t.last_active_ms + KEEPALIVE_IDLE_MS) + t.keepalive_probes_sent
            * KEEPALIVE_INTVL_MS,
    )
}

/// Keepalive: probe with a sequence number already acknowledged; after the last unanswered probe
/// the peer is gone.
pub open spec fn keepalive_step(c: Conn, now_ms: u64) -> Step {
    if idle(c) && now_ms >= next_probe_at(c.tcb) {
        if c.tcb.keepalive_probes_sent >= KEEPALIVE_PROBES {
            (in_state(c, State::Closed), None)
        } else {
            let t = Tcb {
                keepalive_probes_sent: (c.tcb.keepalive_probes_sent + 1) as u32,
                ..c.tcb
            };
            (
                Conn { tcb: t, ..c },
                Some(
                    segment_bytes(t, t.nxt.wrapping_sub(1), t.rcv_nxt, ACK, Seq::empty()),
                ),
            )
        }
    } else {
        (c, None)
    }
}

/// `out` with `reply` appended, if there is one.
pub open spec fn appended(out: Seq<Seq<u8>>, reply: Option<Seq<u8>>) -> Seq<Seq<u8>> {
    match reply {
        Some(p) => out.push(p),
        None => out,
    }
}

/// A tick of the clock: expiry, RACK, the tail loss probe, the retransmission timeout, the persist
/// timer, and keepalive, in this order.
pub open spec fn tick_step(c: Conn, now_ms: u64) -> Sends {
    let c0 = Conn { tcb: clock_step(c.tcb, now_ms), ..c };
    let (c1, overtaken) = rack_step(c0, now_ms);
    let (c2, tail) = tlp_step(c1, now_ms);
    let (c3, due) = rto_step(c2, now_ms);
    let (c4, probe) = persist_step(c3, now_ms);
    let (c5, alive) = keepalive_step(c4, now_ms);
    (c5, appended(appended(appended(overtaken, tail) + due, probe), alive))
}

// ---- Sending ----

/// The number of segments never retransmitted.
pub open spec fn untried(segments: Seq<crate::tcp::retx::Segment>) -> nat
    decreases segments.len(),
{
    if segments.len() == 0 {
        0
    } else {
        untried(segments.drop_last()) + (if segments.last().retries == 0 {
            1nat
        } else {
            0
        })
    }
}

/// Resending a segment for the first time leaves one fewer untried.
pub proof fn lemma_untried_falls(
    segments: Seq<crate::tcp::retx::Segment>,
    i: int,
    now_ms: u64,
)
    requires
        0 <= i < segments.len(),
        segments[i].retries == 0,
    ensures
        untried(segments.update(i, crate::tcp::retx::resent(segments[i], now_ms))) == untried(
            segments,
        ) - 1,
    decreases segments.len(),
{
    let s = crate::tcp::retx::resent(segments[i], now_ms);
    if i == segments.len() - 1 {
        assert(segments.update(i, s).drop_last() =~= segments.drop_last());
    } else {
        assert(segments.update(i, s).drop_last() =~= segments.drop_last().update(i, s));
        lemma_untried_falls(segments.drop_last(), i, now_ms);
    }
}

/// The lost segment that recovery resends next: its index, or the length if there is none.
pub open spec fn next_lost(q: crate::tcp::retx::Queue) -> int {
    crate::tcp::retx::first_where(
        q.segments,
        crate::tcp::retx::awaits_resend(q.segments, DUP_THRESH),
    )
}

/// The bytes in the network, by the estimate of RFC 6675.
pub open spec fn pipe(q: crate::tcp::retx::Queue) -> u32 {
    crate::tcp::retx::pipe_of(q.segments, q.segments.len() as int, DUP_THRESH)
}

/// SACK recovery, first half: while the pipe has room below `limit`, resend each lost segment,
/// oldest first.
pub open spec fn repaired(
    q: crate::tcp::retx::Queue,
    limit: u32,
    now_ms: u64,
    out: Seq<Seq<u8>>,
) -> (crate::tcp::retx::Queue, Seq<Seq<u8>>)
    decreases untried(q.segments),
{
    proof {
        crate::tcp::retx::lemma_first_is_picked(
            q.segments,
            crate::tcp::retx::awaits_resend(q.segments, DUP_THRESH),
        );
        if next_lost(q) < q.segments.len() {
            lemma_untried_falls(q.segments, next_lost(q), now_ms);
        }
    }
    if pipe(q) < limit && next_lost(q) < q.segments.len() {
        repaired(
            crate::tcp::retx::resent_at(q, next_lost(q), now_ms),
            limit,
            now_ms,
            out.push(q.segments[next_lost(q)].packet),
        )
    } else {
        (q, out)
    }
}

/// How many bytes the next segment carries when `room` are allowed.
pub open spec fn chunk(c: Conn, room: int) -> int {
    let n = if room < c.tcb.send_mss {
        room
    } else {
        c.tcb.send_mss as int
    };
    if n < c.send_buf.len() {
        n
    } else {
        c.send_buf.len() as int
    }
}

/// SACK recovery, second half: fill the room left in the pipe with new data.
pub open spec fn topped_up(c: Conn, limit: u32, now_ms: u64, out: Seq<Seq<u8>>) -> Sends
    decreases c.send_buf.len(),
{
    let n = chunk(c, limit - pipe(c.retx));
    if c.send_buf.len() > 0 && pipe(c.retx) < limit && n > 0 {
        topped_up(
            sent(c, n, PSH | ACK, now_ms),
            limit,
            now_ms,
            out.push(sent_packet(c, n, PSH | ACK)),
        )
    } else {
        (c, out)
    }
}

/// Transmission during SACK recovery (RFC 6675).
pub open spec fn recovery_transmit(c: Conn, now_ms: u64) -> Sends {
    let limit = send_limit(c);
    let (q, out) = repaired(c.retx, limit, now_ms, Seq::empty());
    topped_up(Conn { retx: q, ..c }, limit, now_ms, out)
}

/// The controller paces this connection.
pub open spec fn paced(c: Conn) -> bool {
    c.cong.pace().rate.bytes > 0
}

/// The next segment of `n` bytes is held back: an empty window, a small segment while data is
/// unacknowledged (Nagle), or pacing.
pub open spec fn held_back(c: Conn, n: int, now_ms: u64) -> bool {
    ||| n == 0
    ||| c.tcb.nagle && n < c.tcb.send_mss && flight_size(c.tcb) > 0
    ||| paced(c) && now_ms < c.tcb.next_send_ms
}

/// The pacing clock after a segment of `n` bytes.
pub open spec fn clocked(c: Conn, n: int, now_ms: u64) -> Conn {
    if paced(c) {
        Conn {
            tcb: Tcb {
                next_send_ms: crate::bbr::sat64(
                    now_ms + crate::bbr::sat64(crate::rate::gap_for(c.cong.pace(), n)),
                ),
                ..c.tcb
            },
            ..c
        }
    } else {
        c
    }
}

/// Ordinary transmission: cut the send buffer into segments until it is empty or the next one is
/// held back.
pub open spec fn flushed(c: Conn, now_ms: u64, out: Seq<Seq<u8>>) -> Sends
    decreases c.send_buf.len(),
{
    let n = chunk(c, usable(c) as int);
    if c.send_buf.len() > 0 && !held_back(c, n, now_ms) && n > 0 {
        let c1 = clocked(c, n, now_ms);
        flushed(
            sent(c1, n, PSH | ACK, now_ms),
            now_ms,
            out.push(sent_packet(c1, n, PSH | ACK)),
        )
    } else {
        (c, out)
    }
}

/// The tail loss probe is armed half an RTO ahead while data is in flight and nothing is queued,
/// and disarmed else.
pub open spec fn tail_watched(c: Conn, now_ms: u64) -> Conn {
    if flight_size(c.tcb) > 0 && c.send_buf.len() == 0 && !c.cong.in_recovery() {
        if c.tcb.tlp_deadline_ms == 0 {
            Conn {
                tcb: Tcb {
                    tlp_deadline_ms: crate::bbr::sat64(
                        now_ms + max_u64((c.tcb.rtt.rto_ms / 2) as u64, 1),
                    ),
                    ..c.tcb
                },
                ..c
            }
        } else {
            c
        }
    } else {
        Conn { tcb: Tcb { tlp_deadline_ms: 0, tlp_sent: false, ..c.tcb }, ..c }
    }
}

/// Whatever may be sent now is sent.
pub open spec fn transmit_step(c: Conn, now_ms: u64) -> Sends {
    if !sends_data(c.tcb.state) {
        (c, Seq::empty())
    } else {
        let c = Conn { tcb: Tcb { ts_val: clock_of(now_ms), ..c.tcb }, ..c };
        if c.tcb.sack_ok && c.cong.in_recovery() {
            recovery_transmit(c, now_ms)
        } else {
            let (c1, out) = flushed(c, now_ms, Seq::empty());
            (tail_watched(c1, now_ms), out)
        }
    }
}

} // verus!
