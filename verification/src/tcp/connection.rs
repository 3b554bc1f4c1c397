//! One TCP connection.
use std::collections::VecDeque;

use vstd::prelude::*;

use crate::addr::Ipv4Addr;
use crate::controller::Controller;
use crate::entropy::random_u32;
use crate::rate::Pace;
use crate::reassembly::Reassembler;
use crate::rtt::RttEstimator;
use crate::seq::{advance_by, after, before, between};
use crate::tcp::header::{State, TcpHeader, ACK, FIN, PSH, RST, SYN};
use crate::tcp::model::{
    Tcb, CHALLENGE_ACK_MAX, CHALLENGE_WINDOW_MS, CLOSE_WAIT_TIMEOUT_MS, DEFAULT_SEND_MSS,
    DUP_THRESH, FIN_WAIT2_TIMEOUT_MS, KEEPALIVE_IDLE_MS, KEEPALIVE_INTVL_MS, KEEPALIVE_PROBES,
    RECV_WINDOW, TIME_WAIT_MS,
};
use crate::tcp::options::{
    push_mss, push_sack, push_sack_perm, push_ts, push_ws, TcpOptions, OUR_MSS, OUR_RCV_WSCALE,
};
use crate::tcp::packet::{build_packet, Endpoint};
use crate::tcp::retx::RetxQueue;
use crate::utils::{copy_range, push_all};

verus! {

/// One TCP connection: the control block, the retransmission queue, the reassembly buffer, the
/// congestion controller, and the application's two buffers.
#[derive(Debug)]
pub struct Connection {
    tcb: Tcb,
    retx: RetxQueue,
    reasm: Reassembler,
    cong: Controller,
    send_buf: VecDeque<u8>,
    recv_buf: Vec<u8>,
}

impl View for Connection {
    type V = crate::tcp::model::Conn;

    closed spec fn view(&self) -> crate::tcp::model::Conn {
        crate::tcp::model::Conn {
            tcb: self.tcb,
            retx: self.retx@,
            reasm: self.reasm@,
            cong: self.cong@,
            send_buf: self.send_buf@,
            recv_buf: self.recv_buf@,
        }
    }
}

/// A time as our 32-bit timestamp clock shows it.
fn clock(now_ms: u64) -> (ts: u32)
    ensures
        ts == crate::tcp::model::clock_of(now_ms),
{
    (now_ms % 0x1_0000_0000) as u32
}

fn at_most_our_mss(mss: u16) -> (r: u16)
    ensures
        r == crate::tcp::model::bounded_mss(mss),
        r <= OUR_MSS,
{
    if mss < OUR_MSS {
        mss
    } else {
        OUR_MSS
    }
}

/// The control block of a new connection.
fn fresh_block(
    state: State,
    local: Endpoint,
    remote: Endpoint,
    iss: u32,
    irs: u32,
    draw: u32,
    now_ms: u64,
) -> (t: Tcb)
    ensures
        t == crate::tcp::model::fresh_tcb(state, local, remote, iss, irs, draw, now_ms),
{
    Tcb {
        state,
        local,
        remote,
        una: iss,
        nxt: iss.wrapping_add(1),
        snd_wnd: RECV_WINDOW as u32,
        iss,
        rcv_nxt: irs.wrapping_add(1),
        rcv_wnd: RECV_WINDOW,
        irs,
        rtt: RttEstimator::default(),
        time_wait_ms: 0,
        nagle: true,
        persist_ms: 0,
        send_mss: DEFAULT_SEND_MSS,
        ts_enabled: false,
        ts_recent: 0,
        ts_val: clock(now_ms),
        snd_wscale: 0,
        sack_ok: false,
        peer_fin: false,
        pending_fin: None,
        recover: iss,
        max_snd_wnd: RECV_WINDOW as u32,
        challenge_budget: 1 + draw % CHALLENGE_ACK_MAX,
        challenge_window_ms: now_ms,
        last_active_ms: now_ms,
        tlp_deadline_ms: 0,
        tlp_sent: false,
        keepalive_enabled: false,
        keepalive_probes_sent: 0,
        next_send_ms: 0,
    }
}

impl Connection {
    pub open spec fn wf(self) -> bool {
        self@.wf()
    }

    pub fn state(&self) -> (s: State)
        ensures
            s == self@.tcb.state,
    {
        self.tcb.state
    }

    /// Has the peer closed its half? Then the application is at the end of the stream.
    pub fn peer_closed(&self) -> (r: bool)
        ensures
            r == self@.tcb.peer_fin,
    {
        self.tcb.peer_fin
    }

    /// Has everything the application wrote been put on the wire?
    pub fn send_buffer_empty(&self) -> (r: bool)
        ensures
            r == (self@.send_buf.len() == 0),
    {
        self.send_buf.len() == 0
    }

    /// A connection around a control block, with empty buffers.
    fn around(tcb: Tcb) -> (c: Connection)
        ensures
            c@ == crate::tcp::model::fresh_conn(tcb),
    {
        let c = Connection {
            tcb,
            retx: RetxQueue::new(),
            reasm: Reassembler::new(tcb.rcv_nxt),
            cong: Controller::cubic(),
            send_buf: VecDeque::new(),
            recv_buf: Vec::new(),
        };
        assert(c@ =~= crate::tcp::model::fresh_conn(tcb));
        c
    }

    /// Passive open: a SYN arrived for a connection we do not have. Returns the connection in
    /// SYN_RCVD and the SYN-ACK to send, or `None` if the segment is no SYN.
    ///
    /// The initial sequence number is random (RFC 6528), and so is the challenge-ACK budget.
    pub fn accept(
        ip_src: Ipv4Addr,
        ip_dst: Ipv4Addr,
        th: &TcpHeader,
        opts: &TcpOptions,
        now_ms: u64,
    ) -> (r: Option<(Connection, Vec<u8>)>)
        requires
            opts@.wf(),
        ensures
            r is Some <==> th.flags & SYN != 0,
            r is Some ==> exists|iss: u32, draw: u32|
                ((r->0).0@, (r->0).1@) == #[trigger] crate::tcp::model::accepted(
                    ip_src,
                    ip_dst,
                    *th,
                    opts@,
                    iss,
                    draw,
                    now_ms,
                ),
            r is Some ==> (r->0).0.wf(),
    {
        Self::accept_with_iss_at(ip_src, ip_dst, th, opts, random_u32(), now_ms)
    }

    /// Passive open with a given initial sequence number, at time 0 and for a SYN without options.
    pub fn accept_with_iss(ip_src: Ipv4Addr, ip_dst: Ipv4Addr, th: &TcpHeader, iss: u32) -> (r:
        Option<(Connection, Vec<u8>)>)
        ensures
            r is Some <==> th.flags & SYN != 0,
            r is Some ==> exists|draw: u32|
                ((r->0).0@, (r->0).1@) == #[trigger] crate::tcp::model::accepted(
                    ip_src,
                    ip_dst,
                    *th,
                    crate::tcp::options::no_options(),
                    iss,
                    draw,
                    0,
                ),
            r is Some ==> (r->0).0.wf(),
    {
        Self::accept_with_iss_at(ip_src, ip_dst, th, &TcpOptions::default(), iss, 0)
    }

    /// Passive open with a given initial sequence number. `opts` holds the options of the peer's
    /// SYN.
    pub fn accept_with_iss_at(
        ip_src: Ipv4Addr,
        ip_dst: Ipv4Addr,
        th: &TcpHeader,
        opts: &TcpOptions,
        iss: u32,
        now_ms: u64,
    ) -> (r: Option<(Connection, Vec<u8>)>)
        requires
            opts@.wf(),
        ensures
            r is Some <==> th.flags & SYN != 0,
            r is Some ==> exists|draw: u32|
                ((r->0).0@, (r->0).1@) == #[trigger] crate::tcp::model::accepted(
                    ip_src,
                    ip_dst,
                    *th,
                    opts@,
                    iss,
                    draw,
                    now_ms,
                ),
            r is Some ==> (r->0).0.wf(),
    {
        Self::accept_drawn(ip_src, ip_dst, th, opts, iss, random_u32(), now_ms)
    }

    /// Passive open with both random numbers given: the initial sequence number, and the number
    /// that the challenge-ACK budget is drawn from.
    pub fn accept_drawn(
        ip_src: Ipv4Addr,
        ip_dst: Ipv4Addr,
        th: &TcpHeader,
        opts: &TcpOptions,
        iss: u32,
        draw: u32,
        now_ms: u64,
    ) -> (r: Option<(Connection, Vec<u8>)>)
        requires
            opts@.wf(),
        ensures
            r is Some <==> th.flags & SYN != 0,
            r is Some ==> ((r->0).0@, (r->0).1@) == crate::tcp::model::accepted(
                ip_src,
                ip_dst,
                *th,
                opts@,
                iss,
                draw,
                now_ms,
            ),
            r is Some ==> (r->0).0.wf(),
    {
        if th.flags & SYN == 0 {
            return None;
        }
        let mut tcb: Tcb = fresh_block(
            State::SynRcvd,
            (ip_dst, th.dst_port),
            (ip_src, th.src_port),
            iss,
            th.seq,
            draw,
            now_ms,
        );
        if let Some(mss) = opts.mss {
            tcb.send_mss = at_most_our_mss(mss);
        }
        if let Some((tsval, _)) = opts.timestamps {
            tcb.ts_enabled = true;
            tcb.ts_recent = tsval;
        }
        if let Some(shift) = opts.window_scale {
            tcb.snd_wscale = shift;
        }
        tcb.sack_ok = opts.sack_permitted;
        let mut conn: Connection = Self::around(tcb);
        let mut synack_opts: Vec<u8> = Vec::new();
        push_mss(&mut synack_opts, OUR_MSS);
        if opts.window_scale.is_some() {
            push_ws(&mut synack_opts, OUR_RCV_WSCALE);
        }
        if tcb.ts_enabled {
            push_ts(&mut synack_opts, tcb.ts_val, tcb.ts_recent);
        }
        if tcb.sack_ok {
            push_sack_perm(&mut synack_opts);
        }
        assert(synack_opts@ =~= crate::tcp::model::synack_options(
            tcb,
            opts@.window_scale is Some,
        ));
        let synack: Vec<u8> = conn.segment_opts(
            tcb.iss,
            tcb.rcv_nxt,
            SYN | ACK,
            synack_opts.as_slice(),
            empty().as_slice(),
        );
        conn.retx.record(tcb.iss, tcb.nxt, copy_range(synack.as_slice(), 0, synack.len()), now_ms);
        assert(synack@.subrange(0, synack@.len() as int) =~= synack@);
        Some((conn, synack))
    }

    /// Active open from `local` to `remote`. Returns the connection in SYN_SENT and the SYN to
    /// send. The initial sequence number and the challenge-ACK budget are random.
    pub fn connect(local: (Ipv4Addr, u16), remote: (Ipv4Addr, u16), now_ms: u64) -> (r: (
        Connection,
        Vec<u8>,
    ))
        ensures
            exists|iss: u32, draw: u32|
                (r.0@, r.1@) == #[trigger] crate::tcp::model::connecting(
                    local,
                    remote,
                    iss,
                    draw,
                    now_ms,
                ),
            r.0.wf(),
    {
        Self::connect_with_iss(local, remote, random_u32(), now_ms)
    }

    /// Active open with a given initial sequence number.
    pub fn connect_with_iss(
        local: (Ipv4Addr, u16),
        remote: (Ipv4Addr, u16),
        iss: u32,
        now_ms: u64,
    ) -> (r: (Connection, Vec<u8>))
        ensures
            exists|draw: u32|
                (r.0@, r.1@) == #[trigger] crate::tcp::model::connecting(
                    local,
                    remote,
                    iss,
                    draw,
                    now_ms,
                ),
            r.0.wf(),
    {
        Self::connect_drawn(local, remote, iss, random_u32(), now_ms)
    }

    /// Active open with both random numbers given.
    pub fn connect_drawn(
        local: (Ipv4Addr, u16),
        remote: (Ipv4Addr, u16),
        iss: u32,
        draw: u32,
        now_ms: u64,
    ) -> (r: (Connection, Vec<u8>))
        ensures
            (r.0@, r.1@) == crate::tcp::model::connecting(local, remote, iss, draw, now_ms),
            r.0.wf(),
    {
        let mut tcb: Tcb = fresh_block(State::SynSent, local, remote, iss, 0, draw, now_ms);
        tcb.rcv_nxt = 0;
        let mut conn: Connection = Self::around(tcb);
        let mut syn_opts: Vec<u8> = Vec::new();
        push_mss(&mut syn_opts, OUR_MSS);
        push_ws(&mut syn_opts, OUR_RCV_WSCALE);
        push_ts(&mut syn_opts, tcb.ts_val, 0);
        push_sack_perm(&mut syn_opts);
        assert(syn_opts@ =~= crate::tcp::model::syn_options(tcb));
        let syn: Vec<u8> = conn.segment_opts(
            tcb.iss,
            0,
            SYN,
            syn_opts.as_slice(),
            empty().as_slice(),
        );
        conn.retx.record(tcb.iss, tcb.nxt, copy_range(syn.as_slice(), 0, syn.len()), now_ms);
        assert(syn@.subrange(0, syn@.len() as int) =~= syn@);
        (conn, syn)
    }

    /// Rebuild a connection from a validated SYN cookie, directly in ESTABLISHED. `cookie` was our
    /// initial sequence number, `peer_isn` the peer's; `send_mss` was decoded from the cookie.
    /// Nothing else was negotiated.
    pub fn from_syn_cookie(
        local: (Ipv4Addr, u16),
        remote: (Ipv4Addr, u16),
        peer_isn: u32,
        cookie: u32,
        send_mss: u16,
        now_ms: u64,
    ) -> (c: Connection)
        ensures
            exists|draw: u32|
                c@ == #[trigger] crate::tcp::model::from_cookie(
                    local,
                    remote,
                    peer_isn,
                    cookie,
                    send_mss,
                    draw,
                    now_ms,
                ),
            c.wf(),
    {
        Self::from_syn_cookie_drawn(
            local,
            remote,
            peer_isn,
            cookie,
            send_mss,
            random_u32(),
            now_ms,
        )
    }

    /// `from_syn_cookie` with the random number for the challenge-ACK budget given.
    pub fn from_syn_cookie_drawn(
        local: (Ipv4Addr, u16),
        remote: (Ipv4Addr, u16),
        peer_isn: u32,
        cookie: u32,
        send_mss: u16,
        draw: u32,
        now_ms: u64,
    ) -> (c: Connection)
        ensures
            c@ == crate::tcp::model::from_cookie(
                local,
                remote,
                peer_isn,
                cookie,
                send_mss,
                draw,
                now_ms,
            ),
            c.wf(),
    {
        let mut tcb: Tcb = fresh_block(
            State::Established,
            local,
            remote,
            cookie,
            peer_isn,
            draw,
            now_ms,
        );
        tcb.una = cookie.wrapping_add(1);
        tcb.send_mss = at_most_our_mss(send_mss);
        Self::around(tcb)
    }

    /// Build a segment of this connection with explicit options, made of whole words.
    fn segment_opts(&self, seq: u32, ack: u32, flags: u8, options: &[u8], payload: &[u8]) -> (p: Vec<
        u8,
    >)
        requires
            crate::tcp::packet::options_fit(options@),
            payload@.len() <= 60_000,
        ensures
            p@ == crate::tcp::model::segment_with(
                self@.tcb,
                seq,
                ack,
                flags,
                options@,
                payload@,
            ),
    {
        build_packet(
            self.tcb.local,
            self.tcb.remote,
            seq,
            ack,
            flags,
            self.tcb.rcv_wnd,
            options,
            payload,
        )
    }

    /// Build an ordinary segment: it carries timestamps if they were negotiated, and advertises
    /// our receive window.
    fn segment(&self, seq: u32, ack: u32, flags: u8, payload: &[u8]) -> (p: Vec<u8>)
        requires
            payload@.len() <= 60_000,
        ensures
            p@ == crate::tcp::model::segment_bytes(self@.tcb, seq, ack, flags, payload@),
    {
        let mut options: Vec<u8> = Vec::new();
        if self.tcb.ts_enabled {
            push_ts(&mut options, self.tcb.ts_val, self.tcb.ts_recent);
        }
        assert(options@ =~= crate::tcp::model::ts_options(self.tcb));
        self.segment_opts(seq, ack, flags, options.as_slice(), payload)
    }

    /// An ACK of the current state.
    fn bare_ack(&self) -> (p: Vec<u8>)
        ensures
            p@ == crate::tcp::model::bare_ack(self@.tcb),
    {
        self.segment(self.tcb.nxt, self.tcb.rcv_nxt, ACK, empty().as_slice())
    }

    /// An ACK of data: with SACK negotiated it names the buffered ranges.
    fn data_ack(&self) -> (p: Vec<u8>)
        ensures
            p@ == crate::tcp::model::data_ack(self@),
    {
        let mut options: Vec<u8> = Vec::new();
        if self.tcb.ts_enabled {
            push_ts(&mut options, self.tcb.ts_val, self.tcb.ts_recent);
        }
        assert(options@ =~= crate::tcp::model::ts_options(self.tcb));
        if self.tcb.sack_ok {
            let blocks: Vec<(u32, u32)> = self.reasm.sack_blocks();
            proof {
                crate::tcp::options::lemma_sack_bytes_len(blocks@);
            }
            push_sack(&mut options, blocks.as_slice());
        }
        assert(options@ =~= crate::tcp::model::ack_options(self@));
        self.segment_opts(
            self.tcb.nxt,
            self.tcb.rcv_nxt,
            ACK,
            options.as_slice(),
            empty().as_slice(),
        )
    }

    /// Close our send side: emit our FIN. From ESTABLISHED this is an active close, from
    /// CLOSE_WAIT it finishes a passive one. `None` from any other state.
    pub fn close(&mut self, now_ms: u64) -> (r: Option<Vec<u8>>)
        requires
            old(self).wf(),
        ensures
            (final(self)@, crate::tcp::retx::opt_view(r)) == crate::tcp::model::closed_by_us(
                old(self)@,
                now_ms,
            ),
            final(self).wf(),
    {
        let next: State = match self.tcb.state {
            State::Established => State::FinWait1,
            State::CloseWait => State::LastAck,
            _ => {
                return None;
            },
        };
        self.tcb.ts_val = clock(now_ms);
        let start: u32 = self.tcb.nxt;
        let fin: Vec<u8> = self.segment(
            start,
            self.tcb.rcv_nxt,
            FIN | ACK,
            empty().as_slice(),
        );
        self.tcb.nxt = start.wrapping_add(1);
        self.tcb.state = next;
        self.retx.record(start, self.tcb.nxt, copy_range(fin.as_slice(), 0, fin.len()), now_ms);
        assert(fin@.subrange(0, fin@.len() as int) =~= fin@);
        Some(fin)
    }

    /// Handle a segment without options, at time 0.
    pub fn on_packet(&mut self, th: &TcpHeader, payload: &[u8]) -> (r: Option<Vec<u8>>)
        requires
            old(self).wf(),
        ensures
            exists|draw: u32|
                (final(self)@, crate::tcp::retx::opt_view(r))
                    == #[trigger] crate::tcp::model::segment_step(
                    old(self)@,
                    *th,
                    payload@,
                    crate::tcp::options::no_options(),
                    0,
                    draw,
                ),
            final(self).wf(),
    {
        self.on_packet_at(th, payload, 0)
    }

    /// Handle a segment without options.
    pub fn on_packet_at(&mut self, th: &TcpHeader, payload: &[u8], now_ms: u64) -> (r: Option<
        Vec<u8>,
    >)
        requires
            old(self).wf(),
        ensures
            exists|draw: u32|
                (final(self)@, crate::tcp::retx::opt_view(r))
                    == #[trigger] crate::tcp::model::segment_step(
                    old(self)@,
                    *th,
                    payload@,
                    crate::tcp::options::no_options(),
                    now_ms,
                    draw,
                ),
            final(self).wf(),
    {
        self.on_segment(th, payload, &TcpOptions::default(), now_ms)
    }

    /// Handle a segment with its parsed options. Returns the packet to answer with, if any. A
    /// random number is drawn only when the challenge-ACK budget is due for a refill.
    pub fn on_segment(
        &mut self,
        th: &TcpHeader,
        payload: &[u8],
        opts: &TcpOptions,
        now_ms: u64,
    ) -> (r: Option<Vec<u8>>)
        requires
            old(self).wf(),
            opts@.wf(),
        ensures
            exists|draw: u32|
                (final(self)@, crate::tcp::retx::opt_view(r))
                    == #[trigger] crate::tcp::model::segment_step(
                    old(self)@,
                    *th,
                    payload@,
                    opts@,
                    now_ms,
                    draw,
                ),
            final(self).wf(),
    {
        let draw: u32 = if now_ms.wrapping_sub(self.tcb.challenge_window_ms)
            >= CHALLENGE_WINDOW_MS {
            random_u32()
        } else {
            0
        };
        self.on_segment_drawn(th, payload, opts, now_ms, draw)
    }

    /// `on_segment` with the random number given.
    pub fn on_segment_drawn(
        &mut self,
        th: &TcpHeader,
        payload: &[u8],
        opts: &TcpOptions,
        now_ms: u64,
        draw: u32,
    ) -> (r: Option<Vec<u8>>)
        requires
            old(self).wf(),
            opts@.wf(),
        ensures
            (final(self)@, crate::tcp::retx::opt_view(r)) == crate::tcp::model::segment_step(
                old(self)@,
                *th,
                payload@,
                opts@,
                now_ms,
                draw,
            ),
            final(self).wf(),
    {
        self.tcb.ts_val = clock(now_ms);
        self.tcb.last_active_ms = now_ms;
        self.tcb.keepalive_probes_sent = 0;
        if th.flags & RST != 0 {
            return self.on_rst(th, now_ms, draw);
        }
        if self.tcb.state == State::SynSent {
            return self.on_syn_sent(th, opts, now_ms);
        }
        if th.flags & SYN != 0 && self.is_synchronized() {
            return self.maybe_challenge(now_ms, draw);
        }
        if self.tcb.state == State::SynRcvd {
            if th.flags & ACK != 0 && th.ack == self.tcb.nxt {
                self.tcb.una = th.ack;
                let _ = self.retx.ack(th.ack, now_ms);
                self.tcb.state = State::Established;
            } else {
                return None;
            }
        }
        match self.tcb.state {
            State::Established | State::CloseWait => self.on_open(th, payload, opts, now_ms, draw),
            State::LastAck => self.on_last_ack(th, now_ms),
            State::FinWait1 => self.on_fin_wait1(th, payload, now_ms),
            State::FinWait2 => self.on_fin_wait2(th, payload, now_ms),
            State::Closing => self.on_closing(th, now_ms),
            _ => None,
        }
    }

    /// Are both initial sequence numbers fixed?
    fn is_synchronized(&self) -> (r: bool)
        ensures
            r == crate::tcp::model::synchronized(self@.tcb.state),
    {
        match self.tcb.state {
            State::SynSent | State::SynRcvd | State::Closed => false,
            _ => true,
        }
    }

    /// Is `seq` inside our receive window?
    fn in_window(&self, seq: u32) -> (r: bool)
        ensures
            r == crate::tcp::model::in_receive_window(self@.tcb, seq),
    {
        let end: u32 = self.tcb.rcv_nxt.wrapping_add(self.tcb.rcv_wnd as u32);
        !before(seq, self.tcb.rcv_nxt) && before(seq, end)
    }

    /// A throttled challenge ACK (RFC 5961): sent only while this connection's random budget for
    /// the current window lasts.
    fn maybe_challenge(&mut self, now_ms: u64, draw: u32) -> (r: Option<Vec<u8>>)
        requires
            old(self).wf(),
        ensures
            (final(self)@, crate::tcp::retx::opt_view(r)) == crate::tcp::model::challenged(
                old(self)@,
                now_ms,
                draw,
            ),
            final(self).wf(),
    {
        if now_ms.wrapping_sub(self.tcb.challenge_window_ms) >= CHALLENGE_WINDOW_MS {
            self.tcb.challenge_window_ms = now_ms;
            self.tcb.challenge_budget = 1 + draw % CHALLENGE_ACK_MAX;
        }
        if self.tcb.challenge_budget == 0 {
            return None;
        }
        self.tcb.challenge_budget = self.tcb.challenge_budget - 1;
        Some(self.bare_ack())
    }

    /// Is the segment's acknowledgement number plausible (RFC 5961 section 5)?
    fn ack_acceptable(&self, th: &TcpHeader) -> (r: bool)
        requires
            self.wf(),
        ensures
            r == crate::tcp::model::ack_acceptable(self@.tcb, *th),
    {
        let offered: u32 = (th.window as u32) << (self.tcb.snd_wscale as u32);
        let widest: u32 = if offered > self.tcb.max_snd_wnd {
            offered
        } else {
            self.tcb.max_snd_wnd
        };
        let low: u32 = self.tcb.una.wrapping_sub(widest);
        !before(th.ack, low) && !after(th.ack, self.tcb.nxt)
    }

    /// Handle a RST.
    fn on_rst(&mut self, th: &TcpHeader, now_ms: u64, draw: u32) -> (r: Option<Vec<u8>>)
        requires
            old(self).wf(),
        ensures
            (final(self)@, crate::tcp::retx::opt_view(r)) == crate::tcp::model::reset_step(
                old(self)@,
                *th,
                now_ms,
                draw,
            ),
            final(self).wf(),
    {
        if self.tcb.state == State::SynSent {
            if th.flags & ACK != 0 && th.ack == self.tcb.nxt {
                self.tcb.state = State::Closed;
            }
            return None;
        }
        if self.tcb.state == State::TimeWait {
            return None;
        }
        if th.seq == self.tcb.rcv_nxt {
            self.tcb.state = State::Closed;
            None
        } else if self.in_window(th.seq) {
            self.maybe_challenge(now_ms, draw)
        } else {
            None
        }
    }

    /// SYN_SENT: only the SYN-ACK of our SYN counts.
    fn on_syn_sent(&mut self, th: &TcpHeader, opts: &TcpOptions, now_ms: u64) -> (r: Option<
        Vec<u8>,
    >)
        requires
            old(self).wf(),
            opts@.wf(),
        ensures
            (final(self)@, crate::tcp::retx::opt_view(r)) == crate::tcp::model::syn_sent_step(
                old(self)@,
                *th,
                opts@,
            ),
            final(self).wf(),
    {
        if th.flags & (SYN | ACK) == (SYN | ACK) && th.ack == self.tcb.nxt {
            self.tcb.irs = th.seq;
            self.tcb.rcv_nxt = th.seq.wrapping_add(1);
            self.reasm = Reassembler::new(self.tcb.rcv_nxt);
            self.tcb.una = th.ack;
            if let Some(mss) = opts.mss {
                self.tcb.send_mss = at_most_our_mss(mss);
            }
            if let Some((tsval, _)) = opts.timestamps {
                self.tcb.ts_enabled = true;
                self.tcb.ts_recent = tsval;
            }
            if let Some(shift) = opts.window_scale {
                self.tcb.snd_wscale = shift;
            }
            if opts.sack_permitted {
                self.tcb.sack_ok = true;
            }
            let _ = self.retx.ack(th.ack, now_ms);
            self.tcb.state = State::Established;
            return Some(self.bare_ack());
        }
        None
    }

    /// ESTABLISHED and CLOSE_WAIT.
    fn on_open(
        &mut self,
        th: &TcpHeader,
        payload: &[u8],
        opts: &TcpOptions,
        now_ms: u64,
        draw: u32,
    ) -> (r: Option<Vec<u8>>)
        requires
            old(self).wf(),
            opts@.wf(),
        ensures
            (final(self)@, crate::tcp::retx::opt_view(r)) == crate::tcp::model::open_step(
                old(self)@,
                *th,
                payload@,
                opts@,
                now_ms,
                draw,
            ),
            final(self).wf(),
    {
        if self.is_stale(opts) {
            return Some(self.bare_ack());
        }
        if th.flags & ACK != 0 && !self.ack_acceptable(th) {
            return self.maybe_challenge(now_ms, draw);
        }
        let prev_wnd: u32 = self.tcb.snd_wnd;
        self.take_window(th, opts);
        if th.flags & ACK != 0 {
            let reply: Option<Vec<u8>> = self.on_acceptable_ack(
                th,
                payload.len(),
                opts,
                prev_wnd,
                now_ms,
            );
            if reply.is_some() {
                return reply;
            }
        }
        self.on_data(th, payload)
    }

    /// PAWS (RFC 7323): does the segment's timestamp predate the most recent one? Then it is an
    /// old duplicate from before the sequence numbers wrapped.
    fn is_stale(&self, opts: &TcpOptions) -> (r: bool)
        ensures
            r == crate::tcp::model::stale(self@.tcb, opts@),
    {
        match opts.timestamps {
            Some((tsval, _)) => self.tcb.ts_enabled && before(tsval, self.tcb.ts_recent),
            None => false,
        }
    }

    /// Take in the segment's timestamp and the peer's scaled window.
    fn take_window(&mut self, th: &TcpHeader, opts: &TcpOptions)
        requires
            old(self).wf(),
        ensures
            final(self)@ == (crate::tcp::model::Conn {
                tcb: crate::tcp::model::window_updated(old(self)@.tcb, *th, opts@),
                ..old(self)@
            }),
            final(self).wf(),
    {
        if let Some((tsval, _)) = opts.timestamps {
            if self.tcb.ts_enabled && !after(th.seq, self.tcb.rcv_nxt) {
                self.tcb.ts_recent = tsval;
            }
        }
        let wnd: u32 = (th.window as u32) << (self.tcb.snd_wscale as u32);
        self.tcb.snd_wnd = wnd;
        if wnd > self.tcb.max_snd_wnd {
            self.tcb.max_snd_wnd = wnd;
        }
    }

    /// Act on an acceptable acknowledgement. Returns a retransmission to send at once, if any.
    fn on_acceptable_ack(
        &mut self,
        th: &TcpHeader,
        payload_len: usize,
        opts: &TcpOptions,
        prev_wnd: u32,
        now_ms: u64,
    ) -> (r: Option<Vec<u8>>)
        requires
            old(self).wf(),
            opts@.wf(),
        ensures
            (final(self)@, crate::tcp::retx::opt_view(r)) == crate::tcp::model::ack_step(
                old(self)@,
                *th,
                payload_len as int,
                opts@,
                prev_wnd,
                now_ms,
            ),
            final(self).wf(),
    {
        if self.tcb.sack_ok && opts.sack_block_count > 0 {
            let mut blocks: Vec<(u32, u32)> = Vec::new();
            let mut k: usize = 0;
            while k < opts.sack_block_count
                invariant
                    k <= opts.sack_block_count <= 4,
                    opts.sack_blocks@.len() == 4,
                    blocks@ == opts.sack_blocks@.take(k as int),
                decreases opts.sack_block_count - k,
            {
                blocks.push(opts.sack_blocks[k]);
                k += 1;
                assert(blocks@ =~= opts.sack_blocks@.take(k as int));
            }
            self.retx.mark_sacked(blocks.as_slice());
        }
        assert(self@ == crate::tcp::model::sacks_taken(old(self)@, opts@));
        if between(self.tcb.una, th.ack, self.tcb.nxt) {
            self.on_new_ack(th.ack, opts, now_ms)
        } else if th.ack == self.tcb.una && self.tcb.una != self.tcb.nxt && payload_len == 0
            && self.tcb.snd_wnd == prev_wnd && self.tcb.snd_wnd != 0 {
            self.on_dup_ack(now_ms)
        } else {
            None
        }
    }

    /// New data was acknowledged.
    fn on_new_ack(&mut self, ack: u32, opts: &TcpOptions, now_ms: u64) -> (r: Option<Vec<u8>>)
        requires
            old(self).wf(),
        ensures
            (final(self)@, crate::tcp::retx::opt_view(r)) == crate::tcp::model::new_ack_step(
                old(self)@,
                ack,
                opts@,
                now_ms,
            ),
            final(self).wf(),
    {
        let acked: u32 = ack.wrapping_sub(self.tcb.una);
        self.tcb.una = ack;
        self.tcb.tlp_sent = false;
        self.tcb.tlp_deadline_ms = 0;
        let timed: Option<u64> = self.retx.ack(ack, now_ms);
        let sample: Option<u64> = if self.tcb.ts_enabled {
            match opts.timestamps {
                Some((_, tsecr)) => Some(self.tcb.ts_val.wrapping_sub(tsecr) as u64),
                None => None,
            }
        } else {
            timed
        };
        if let Some(rtt_ms) = sample {
            self.tcb.rtt.sample(rtt_ms);
        }
        if self.cong.in_recovery() && before(ack, self.tcb.recover) {
            self.cong.on_partial_ack(acked);
            self.fast_retransmit(now_ms)
        } else {
            self.cong.on_ack(acked, sample, now_ms);
            None
        }
    }

    /// Resend the oldest hole at once.
    fn fast_retransmit(&mut self, now_ms: u64) -> (r: Option<Vec<u8>>)
        requires
            old(self).wf(),
        ensures
            (final(self)@, crate::tcp::retx::opt_view(r))
                == crate::tcp::model::fast_retransmitted(old(self)@, now_ms),
            final(self).wf(),
    {
        self.retx.fast_retransmit(now_ms)
    }

    /// A duplicate ACK.
    fn on_dup_ack(&mut self, now_ms: u64) -> (r: Option<Vec<u8>>)
        requires
            old(self).wf(),
        ensures
            (final(self)@, crate::tcp::retx::opt_view(r)) == crate::tcp::model::dup_ack_step(
                old(self)@,
                now_ms,
            ),
            final(self).wf(),
    {
        let flight: u32 = self.flight_size();
        if self.cong.on_dup_ack(flight) {
            self.tcb.recover = self.tcb.nxt;
            self.fast_retransmit(now_ms)
        } else {
            None
        }
    }

    /// Hand a segment's data to the reassembly buffer and deliver what is now in order.
    fn absorb(&mut self, seq: u32, payload: &[u8])
        requires
            old(self).wf(),
        ensures
            final(self)@ == crate::tcp::model::absorbed(old(self)@, seq, payload@),
            final(self).wf(),
    {
        let delivered: Vec<u8> = self.reasm.recv(seq, payload, self.tcb.rcv_nxt);
        self.tcb.rcv_nxt = advance_by(self.tcb.rcv_nxt, delivered.len());
        push_all(&mut self.recv_buf, delivered.as_slice());
    }

    /// The data and the FIN of a segment in ESTABLISHED or CLOSE_WAIT.
    fn on_data(&mut self, th: &TcpHeader, payload: &[u8]) -> (r: Option<Vec<u8>>)
        requires
            old(self).wf(),
        ensures
            (final(self)@, crate::tcp::retx::opt_view(r)) == crate::tcp::model::data_step(
                old(self)@,
                *th,
                payload@,
            ),
            final(self).wf(),
    {
        if payload.len() > 0 {
            self.absorb(th.seq, payload);
        }
        if th.flags & FIN != 0 {
            let fin_seq: u32 = advance_by(th.seq, payload.len());
            if self.tcb.state == State::CloseWait && !after(fin_seq, self.tcb.rcv_nxt) {
                return Some(self.bare_ack());
            }
            if self.tcb.state == State::Established && !before(fin_seq, self.tcb.rcv_nxt) {
                self.tcb.pending_fin = Some(fin_seq);
            }
        }
        let fin_due: bool = match self.tcb.pending_fin {
            Some(at) => self.tcb.state == State::Established && at == self.tcb.rcv_nxt,
            None => false,
        };
        if fin_due {
            self.tcb.rcv_nxt = self.tcb.rcv_nxt.wrapping_add(1);
            self.tcb.pending_fin = None;
            self.tcb.peer_fin = true;
            self.tcb.state = State::CloseWait;
            return Some(self.bare_ack());
        }
        if payload.len() > 0 {
            return Some(self.data_ack());
        }
        None
    }

    /// LAST_ACK.
    fn on_last_ack(&mut self, th: &TcpHeader, now_ms: u64) -> (r: Option<Vec<u8>>)
        requires
            old(self).wf(),
        ensures
            (final(self)@, crate::tcp::retx::opt_view(r)) == crate::tcp::model::last_ack_step(
                old(self)@,
                *th,
            ),
            final(self).wf(),
    {
        if th.flags & ACK != 0 && th.ack == self.tcb.nxt {
            let _ = self.retx.ack(th.ack, now_ms);
            self.tcb.state = State::Closed;
        }
        None
    }

    /// CLOSING.
    fn on_closing(&mut self, th: &TcpHeader, now_ms: u64) -> (r: Option<Vec<u8>>)
        requires
            old(self).wf(),
        ensures
            (final(self)@, crate::tcp::retx::opt_view(r)) == crate::tcp::model::closing_step(
                old(self)@,
                *th,
                now_ms,
            ),
            final(self).wf(),
    {
        if th.flags & ACK != 0 && th.ack == self.tcb.nxt {
            let _ = self.retx.ack(th.ack, now_ms);
            self.tcb.state = State::TimeWait;
            self.tcb.time_wait_ms = now_ms;
        }
        None
    }

    /// FIN_WAIT_1: our send side is closed, our receive side still open.
    fn on_fin_wait1(&mut self, th: &TcpHeader, payload: &[u8], now_ms: u64) -> (r: Option<
        Vec<u8>,
    >)
        requires
            old(self).wf(),
        ensures
            (final(self)@, crate::tcp::retx::opt_view(r)) == crate::tcp::model::fin_wait1_step(
                old(self)@,
                *th,
                payload@,
                now_ms,
            ),
            final(self).wf(),
    {
        let ours_acked: bool = th.flags & ACK != 0 && th.ack == self.tcb.nxt;
        if ours_acked {
            let _ = self.retx.ack(th.ack, now_ms);
        }
        if payload.len() > 0 {
            self.absorb(th.seq, payload);
        }
        let fin_seq: u32 = advance_by(th.seq, payload.len());
        if th.flags & FIN != 0 && fin_seq == self.tcb.rcv_nxt {
            self.tcb.rcv_nxt = self.tcb.rcv_nxt.wrapping_add(1);
            self.tcb.peer_fin = true;
            let out: Vec<u8> = self.bare_ack();
            if ours_acked {
                self.tcb.state = State::TimeWait;
                self.tcb.time_wait_ms = now_ms;
            } else {
                self.tcb.state = State::Closing;
            }
            return Some(out);
        }
        if ours_acked {
            self.tcb.state = State::FinWait2;
        }
        if payload.len() > 0 {
            return Some(self.bare_ack());
        }
        None
    }

    /// FIN_WAIT_2: await the peer's FIN; data may still come.
    fn on_fin_wait2(&mut self, th: &TcpHeader, payload: &[u8], now_ms: u64) -> (r: Option<
        Vec<u8>,
    >)
        requires
            old(self).wf(),
        ensures
            (final(self)@, crate::tcp::retx::opt_view(r)) == crate::tcp::model::fin_wait2_step(
                old(self)@,
                *th,
                payload@,
                now_ms,
            ),
            final(self).wf(),
    {
        if payload.len() > 0 {
            self.absorb(th.seq, payload);
        }
        let fin_seq: u32 = advance_by(th.seq, payload.len());
        if th.flags & FIN != 0 && fin_seq == self.tcb.rcv_nxt {
            self.tcb.rcv_nxt = self.tcb.rcv_nxt.wrapping_add(1);
            self.tcb.peer_fin = true;
            let out: Vec<u8> = self.bare_ack();
            self.tcb.state = State::TimeWait;
            self.tcb.time_wait_ms = now_ms;
            return Some(out);
        }
        if payload.len() > 0 {
            return Some(self.bare_ack());
        }
        None
    }

    /// Bytes sent but not yet acknowledged.
    fn flight_size(&self) -> (n: u32)
        ensures
            n == crate::tcp::model::flight_size(self@.tcb),
    {
        self.tcb.nxt.wrapping_sub(self.tcb.una)
    }

    /// A tick of the clock: returns the packets to send or resend. Expires TIME_WAIT and idle
    /// half-closed states, and runs the loss-detection, persist and keepalive timers.
    pub fn on_tick(&mut self, now_ms: u64) -> (out: Vec<Vec<u8>>)
        requires
            old(self).wf(),
        ensures
            (final(self)@, crate::utils::contents(out@)) == crate::tcp::model::tick_step(
                old(self)@,
                now_ms,
            ),
            final(self).wf(),
    {
        self.expire(now_ms);
        let mut out: Vec<Vec<u8>> = self.rack_tick(now_ms);
        let tail: Option<Vec<u8>> = self.tlp_tick(now_ms);
        push_packet(&mut out, tail);
        let due: Vec<Vec<u8>> = self.rto_tick(now_ms);
        append_packets(&mut out, due);
        let probe: Option<Vec<u8>> = self.persist_tick(now_ms);
        push_packet(&mut out, probe);
        let alive: Option<Vec<u8>> = self.keepalive_tick(now_ms);
        push_packet(&mut out, alive);
        out
    }

    /// Take in the clock and close an expired connection.
    fn expire(&mut self, now_ms: u64)
        requires
            old(self).wf(),
        ensures
            final(self)@ == (crate::tcp::model::Conn {
                tcb: crate::tcp::model::clock_step(old(self)@.tcb, now_ms),
                ..old(self)@
            }),
            final(self).wf(),
    {
        self.tcb.ts_val = clock(now_ms);
        let idle: u64 = now_ms.saturating_sub(self.tcb.last_active_ms);
        let over: bool = match self.tcb.state {
            State::TimeWait => now_ms.saturating_sub(self.tcb.time_wait_ms) >= TIME_WAIT_MS,
            State::FinWait2 => idle >= FIN_WAIT2_TIMEOUT_MS,
            State::CloseWait => idle >= CLOSE_WAIT_TIMEOUT_MS,
            _ => false,
        };
        if over {
            self.tcb.state = State::Closed;
        }
    }

    /// RACK loss detection.
    fn rack_tick(&mut self, now_ms: u64) -> (out: Vec<Vec<u8>>)
        requires
            old(self).wf(),
        ensures
            (final(self)@, crate::utils::contents(out@)) == crate::tcp::model::rack_step(
                old(self)@,
                now_ms,
            ),
            final(self).wf(),
    {
        let quarter: u64 = self.tcb.rtt.rto() / 4;
        let reo_wnd: u64 = if quarter > 1 {
            quarter
        } else {
            1
        };
        self.retx.rack_mark_lost(now_ms, reo_wnd)
    }

    /// The tail loss probe.
    fn tlp_tick(&mut self, now_ms: u64) -> (r: Option<Vec<u8>>)
        requires
            old(self).wf(),
        ensures
            (final(self)@, crate::tcp::retx::opt_view(r)) == crate::tcp::model::tlp_step(
                old(self)@,
                now_ms,
            ),
            final(self).wf(),
    {
        if self.tcb.tlp_deadline_ms != 0 && now_ms >= self.tcb.tlp_deadline_ms
            && self.flight_size() > 0 && !self.cong.in_recovery() && !self.tcb.tlp_sent {
            let probe: Option<Vec<u8>> = self.retx.retransmit_last(now_ms);
            if probe.is_some() {
                self.tcb.tlp_sent = true;
            }
            self.tcb.tlp_deadline_ms = 0;
            return probe;
        }
        None
    }

    /// The retransmission timeout.
    fn rto_tick(&mut self, now_ms: u64) -> (due: Vec<Vec<u8>>)
        requires
            old(self).wf(),
        ensures
            (final(self)@, crate::utils::contents(due@)) == crate::tcp::model::rto_step(
                old(self)@,
                now_ms,
            ),
            final(self).wf(),
    {
        let due: Vec<Vec<u8>> = self.retx.due(now_ms, self.tcb.rtt.rto());
        if due.len() > 0 {
            let flight: u32 = self.flight_size();
            self.cong.on_timeout(flight);
            self.tcb.rtt.back_off();
        }
        due
    }

    /// Send the first `n` bytes of the send buffer as one segment and record it.
    fn send_chunk(&mut self, n: usize, flags: u8, now_ms: u64) -> (p: Vec<u8>)
        requires
            old(self).wf(),
            n <= old(self)@.send_buf.len(),
            n <= 60_000,
        ensures
            final(self)@ == crate::tcp::model::sent(old(self)@, n as int, flags, now_ms),
            p@ == crate::tcp::model::sent_packet(old(self)@, n as int, flags),
            final(self).wf(),
    {
        let ghost all = self.send_buf@;
        let mut payload: Vec<u8> = Vec::new();
        let mut i: usize = 0;
        while i < n
            invariant
                i <= n <= all.len(),
                all == old(self).send_buf@,
                payload@ == all.take(i as int),
                self.send_buf@ == all.skip(i as int),
                self.tcb == old(self).tcb,
                self.retx == old(self).retx,
                self.reasm == old(self).reasm,
                self.cong == old(self).cong,
                self.recv_buf == old(self).recv_buf,
            decreases n - i,
        {
            match self.send_buf.pop_front() {
                Some(byte) => {
                    payload.push(byte);
                },
                None => {},
            }
            i += 1;
            assert(payload@ =~= all.take(i as int));
            assert(self.send_buf@ =~= all.skip(i as int));
        }
        assert(all.skip(0) =~= all);
        let start: u32 = self.tcb.nxt;
        let packet: Vec<u8> = self.segment(start, self.tcb.rcv_nxt, flags, payload.as_slice());
        self.tcb.nxt = advance_by(start, n);
        self.retx.record(
            start,
            self.tcb.nxt,
            copy_range(packet.as_slice(), 0, packet.len()),
            now_ms,
        );
        assert(packet@.subrange(0, packet@.len() as int) =~= packet@);
        packet
    }

    /// The persist timer: a zero-window probe.
    fn persist_tick(&mut self, now_ms: u64) -> (r: Option<Vec<u8>>)
        requires
            old(self).wf(),
        ensures
            (final(self)@, crate::tcp::retx::opt_view(r)) == crate::tcp::model::persist_step(
                old(self)@,
                now_ms,
            ),
            final(self).wf(),
    {
        let open: bool = self.tcb.state == State::Established || self.tcb.state
            == State::CloseWait;
        if open && self.tcb.snd_wnd == 0 && self.send_buf.len() > 0 && self.flight_size() == 0 {
            if self.tcb.persist_ms == 0 {
                self.tcb.persist_ms = now_ms.saturating_add(self.tcb.rtt.rto());
                None
            } else if now_ms >= self.tcb.persist_ms {
                let probe: Vec<u8> = self.send_chunk(1, ACK, now_ms);
                self.tcb.persist_ms = 0;
                Some(probe)
            } else {
                None
            }
        } else {
            self.tcb.persist_ms = 0;
            None
        }
    }

    /// Keepalive.
    fn keepalive_tick(&mut self, now_ms: u64) -> (r: Option<Vec<u8>>)
        requires
            old(self).wf(),
        ensures
            (final(self)@, crate::tcp::retx::opt_view(r)) == crate::tcp::model::keepalive_step(
                old(self)@,
                now_ms,
            ),
            final(self).wf(),
    {
        if self.tcb.keepalive_enabled && self.tcb.state == State::Established
            && self.flight_size() == 0 && self.send_buf.len() == 0 {
            let probes: u64 = self.tcb.keepalive_probes_sent as u64;
            let at: u64 = self.tcb.last_active_ms.saturating_add(
                KEEPALIVE_IDLE_MS,
            ).saturating_add(probes * KEEPALIVE_INTVL_MS);
            if now_ms >= at {
                if self.tcb.keepalive_probes_sent >= KEEPALIVE_PROBES {
                    self.tcb.state = State::Closed;
                } else {
                    self.tcb.keepalive_probes_sent = self.tcb.keepalive_probes_sent + 1;
                    return Some(
                        self.segment(
                            self.tcb.nxt.wrapping_sub(1),
                            self.tcb.rcv_nxt,
                            ACK,
                            empty().as_slice(),
                        ),
                    );
                }
            }
        }
        None
    }

    /// Bytes we may still send right now: bounded by both the receiver and the network.
    pub fn usable_window(&self) -> (n: u32)
        ensures
            n == crate::tcp::model::usable(self@),
    {
        self.send_limit().saturating_sub(self.flight_size())
    }

    /// What the receiver and the network both allow in flight.
    fn send_limit(&self) -> (n: u32)
        ensures
            n == crate::tcp::model::send_limit(self@),
    {
        let cwnd: u32 = self.cong.window();
        if self.tcb.snd_wnd < cwnd {
            self.tcb.snd_wnd
        } else {
            cwnd
        }
    }

    /// Application send: queue `data` for transmission.
    pub fn write(&mut self, data: &[u8])
        requires
            old(self).wf(),
        ensures
            final(self)@ == (crate::tcp::model::Conn {
                send_buf: old(self)@.send_buf + data@,
                ..old(self)@
            }),
            final(self).wf(),
    {
        let mut i: usize = 0;
        assert(self.send_buf@ + data@.take(0) =~= self.send_buf@);
        while i < data.len()
            invariant
                i <= data@.len(),
                self.send_buf@ == old(self).send_buf@ + data@.take(i as int),
                self.tcb == old(self).tcb,
                self.retx == old(self).retx,
                self.reasm == old(self).reasm,
                self.cong == old(self).cong,
                self.recv_buf == old(self).recv_buf,
            decreases data@.len() - i,
        {
            self.send_buf.push_back(data[i]);
            i += 1;
            assert(self.send_buf@ =~= old(self).send_buf@ + data@.take(i as int));
        }
        assert(data@.take(data@.len() as int) =~= data@);
    }

    /// `TCP_NODELAY`: `true` turns Nagle's algorithm off, so that even a tiny write is sent at
    /// once.
    pub fn set_nodelay(&mut self, nodelay: bool)
        ensures
            final(self)@ == (crate::tcp::model::Conn {
                tcb: Tcb { nagle: !nodelay, ..old(self)@.tcb },
                ..old(self)@
            }),
            old(self).wf() ==> final(self).wf(),
    {
        self.tcb.nagle = !nodelay;
    }

    /// `SO_KEEPALIVE`: when on, an idle connection is probed and a vanished peer detected.
    pub fn set_keepalive(&mut self, on: bool)
        ensures
            final(self)@ == (crate::tcp::model::Conn {
                tcb: Tcb { keepalive_enabled: on, ..old(self)@.tcb },
                ..old(self)@
            }),
            old(self).wf() ==> final(self).wf(),
    {
        self.tcb.keepalive_enabled = on;
    }

    /// Send whatever the windows, Nagle's algorithm and pacing allow, cut into segments. During
    /// SACK recovery, resend every lost segment and refill the pipe.
    pub fn poll_transmit(&mut self, now_ms: u64) -> (out: Vec<Vec<u8>>)
        requires
            old(self).wf(),
        ensures
            (final(self)@, crate::utils::contents(out@)) == crate::tcp::model::transmit_step(
                old(self)@,
                now_ms,
            ),
            final(self).wf(),
    {
        if self.tcb.state != State::Established && self.tcb.state != State::CloseWait {
            let none: Vec<Vec<u8>> = Vec::new();
            assert(crate::utils::contents(none@) =~= Seq::<Seq<u8>>::empty());
            return none;
        }
        self.tcb.ts_val = clock(now_ms);
        if self.tcb.sack_ok && self.cong.in_recovery() {
            self.transmit_in_recovery(now_ms)
        } else {
            let out: Vec<Vec<u8>> = self.flush(now_ms);
            self.watch_tail(now_ms);
            out
        }
    }

    /// How many bytes the next segment carries when `room` are allowed.
    fn chunk(&self, room: u32) -> (n: usize)
        requires
            self.wf(),
        ensures
            n == crate::tcp::model::chunk(self@, room as int),
            n <= 1460,
            n <= self@.send_buf.len(),
    {
        let n: usize = if room < self.tcb.send_mss as u32 {
            room as usize
        } else {
            self.tcb.send_mss as usize
        };
        if n < self.send_buf.len() {
            n
        } else {
            self.send_buf.len()
        }
    }

    /// Transmission during SACK recovery.
    fn transmit_in_recovery(&mut self, now_ms: u64) -> (out: Vec<Vec<u8>>)
        requires
            old(self).wf(),
        ensures
            (final(self)@, crate::utils::contents(out@)) == crate::tcp::model::recovery_transmit(
                old(self)@,
                now_ms,
            ),
            final(self).wf(),
    {
        let limit: u32 = self.send_limit();
        let mut out: Vec<Vec<u8>> = self.repair(limit, now_ms);
        let ghost start = self@;
        let ghost sent_before = crate::utils::contents(out@);
        let mut room: bool = true;
        while room && self.send_buf.len() > 0
            invariant
                self.wf(),
                crate::tcp::model::topped_up(
                    self@,
                    limit,
                    now_ms,
                    crate::utils::contents(out@),
                ) == crate::tcp::model::topped_up(start, limit, now_ms, sent_before),
                !room ==> crate::tcp::model::topped_up(
                    self@,
                    limit,
                    now_ms,
                    crate::utils::contents(out@),
                ) == (self@, crate::utils::contents(out@)),
            decreases self.send_buf@.len(), (if room {
                1int
            } else {
                0
            }),
        {
            let pipe: u32 = self.retx.pipe(DUP_THRESH);
            if pipe >= limit {
                room = false;
            } else {
                let n: usize = self.chunk(limit - pipe);
                if n == 0 {
                    room = false;
                } else {
                    let packet: Vec<u8> = self.send_chunk(n, PSH | ACK, now_ms);
                    push_packet(&mut out, Some(packet));
                }
            }
        }
        out
    }

    /// Resend each lost segment, oldest first, while the pipe has room below `limit`.
    fn repair(&mut self, limit: u32, now_ms: u64) -> (out: Vec<Vec<u8>>)
        requires
            old(self).wf(),
        ensures
            ({
                let (q, sent) = crate::tcp::model::repaired(
                    old(self)@.retx,
                    limit,
                    now_ms,
                    Seq::empty(),
                );
                &&& final(self)@ == (crate::tcp::model::Conn { retx: q, ..old(self)@ })
                &&& crate::utils::contents(out@) == sent
            }),
            final(self).wf(),
    {
        let mut out: Vec<Vec<u8>> = Vec::new();
        assert(crate::utils::contents(out@) =~= Seq::<Seq<u8>>::empty());
        let mut more: bool = true;
        while more
            invariant
                crate::tcp::model::repaired(
                    self.retx@,
                    limit,
                    now_ms,
                    crate::utils::contents(out@),
                ) == crate::tcp::model::repaired(old(self)@.retx, limit, now_ms, Seq::empty()),
                !more ==> crate::tcp::model::repaired(
                    self.retx@,
                    limit,
                    now_ms,
                    crate::utils::contents(out@),
                ) == (self.retx@, crate::utils::contents(out@)),
                self.tcb == old(self).tcb,
                self.reasm == old(self).reasm,
                self.cong == old(self).cong,
                self.send_buf == old(self).send_buf,
                self.recv_buf == old(self).recv_buf,
            decreases crate::tcp::model::untried(self.retx@.segments), (if more {
                1int
            } else {
                0
            }),
        {
            let ghost before = self.retx@;
            if self.retx.pipe(DUP_THRESH) < limit {
                proof {
                    crate::tcp::retx::lemma_first_is_picked(
                        before.segments,
                        crate::tcp::retx::awaits_resend(before.segments, DUP_THRESH),
                    );
                    if crate::tcp::model::next_lost(before) < before.segments.len() {
                        crate::tcp::model::lemma_untried_falls(
                            before.segments,
                            crate::tcp::model::next_lost(before),
                            now_ms,
                        );
                    }
                }
                match self.retx.next_lost_retransmit(DUP_THRESH, now_ms) {
                    Some(packet) => {
                        push_packet(&mut out, Some(packet));
                    },
                    None => {
                        more = false;
                    },
                }
            } else {
                more = false;
            }
        }
        out
    }

    /// Ordinary transmission.
    fn flush(&mut self, now_ms: u64) -> (out: Vec<Vec<u8>>)
        requires
            old(self).wf(),
        ensures
            (final(self)@, crate::utils::contents(out@)) == crate::tcp::model::flushed(
                old(self)@,
                now_ms,
                Seq::empty(),
            ),
            final(self).wf(),
    {
        let mut out: Vec<Vec<u8>> = Vec::new();
        assert(crate::utils::contents(out@) =~= Seq::<Seq<u8>>::empty());
        let pace: Pace = self.cong.pacing_rate_bps();
        let mut free: bool = true;
        while free && self.send_buf.len() > 0
            invariant
                self.wf(),
                pace == self@.cong.pace(),
                crate::tcp::model::flushed(self@, now_ms, crate::utils::contents(out@))
                    == crate::tcp::model::flushed(old(self)@, now_ms, Seq::empty()),
                !free ==> crate::tcp::model::flushed(
                    self@,
                    now_ms,
                    crate::utils::contents(out@),
                ) == (self@, crate::utils::contents(out@)),
            decreases self.send_buf@.len(), (if free {
                1int
            } else {
                0
            }),
        {
            let n: usize = self.chunk(self.usable_window());
            if n == 0 || (self.tcb.nagle && n < self.tcb.send_mss as usize && self.flight_size()
                > 0) || (!pace.is_zero() && now_ms < self.tcb.next_send_ms) {
                free = false;
            } else {
                if !pace.is_zero() {
                    let gap: u64 = pace.gap_ms(n as u32);
                    self.tcb.next_send_ms = now_ms.saturating_add(gap);
                }
                let packet: Vec<u8> = self.send_chunk(n, PSH | ACK, now_ms);
                push_packet(&mut out, Some(packet));
            }
        }
        out
    }

    /// Arm or disarm the tail loss probe.
    fn watch_tail(&mut self, now_ms: u64)
        requires
            old(self).wf(),
        ensures
            final(self)@ == crate::tcp::model::tail_watched(old(self)@, now_ms),
            final(self).wf(),
    {
        if self.flight_size() > 0 && self.send_buf.len() == 0 && !self.cong.in_recovery() {
            if self.tcb.tlp_deadline_ms == 0 {
                let half: u64 = self.tcb.rtt.rto() / 2;
                let wait: u64 = if half > 1 {
                    half
                } else {
                    1
                };
                self.tcb.tlp_deadline_ms = now_ms.saturating_add(wait);
            }
        } else {
            self.tcb.tlp_deadline_ms = 0;
            self.tcb.tlp_sent = false;
        }
    }

    /// Application receive: take all bytes received in order so far.
    pub fn take_received(&mut self) -> (data: Vec<u8>)
        requires
            old(self).wf(),
        ensures
            data@ == old(self)@.recv_buf,
            final(self)@ == (crate::tcp::model::Conn { recv_buf: Seq::empty(), ..old(self)@ }),
            final(self).wf(),
    {
        let mut data: Vec<u8> = Vec::new();
        std::mem::swap(&mut data, &mut self.recv_buf);
        data
    }

    /// Switch a fresh connection to BBR congestion control.
    pub fn use_bbr(&mut self)
        requires
            old(self).wf(),
        ensures
            final(self)@ == (crate::tcp::model::Conn {
                cong: crate::controller::ControllerState::Bbr(crate::bbr::fresh()),
                ..old(self)@
            }),
            final(self).wf(),
    {
        self.cong = Controller::bbr();
    }

    /// The modelled send rate, `gain * rate`: zero until the model has learned a bandwidth, and
    /// always under CUBIC.
    pub fn pacing_rate_bps(&self) -> (p: Pace)
        ensures
            p == self@.cong.pace(),
    {
        self.cong.pacing_rate_bps()
    }

    /// SND.NXT.
    pub fn snd_nxt(&self) -> (n: u32)
        ensures
            n == self@.tcb.nxt,
    {
        self.tcb.nxt
    }

    /// RCV.NXT.
    pub fn rcv_nxt(&self) -> (n: u32)
        ensures
            n == self@.tcb.rcv_nxt,
    {
        self.tcb.rcv_nxt
    }

    /// SND.WND, scaled.
    pub fn snd_wnd(&self) -> (n: u32)
        ensures
            n == self@.tcb.snd_wnd,
    {
        self.tcb.snd_wnd
    }

    /// The current retransmission timeout.
    pub fn rto(&self) -> (ms: u64)
        ensures
            ms == self@.tcb.rtt.rto_ms,
    {
        self.tcb.rtt.rto()
    }

    /// The congestion window.
    pub fn cwnd(&self) -> (n: u32)
        ensures
            n == self@.cong.window(),
    {
        self.cong.window()
    }

    /// Is the controller in fast recovery?
    pub fn in_recovery(&self) -> (r: bool)
        ensures
            r == self@.cong.in_recovery(),
    {
        self.cong.in_recovery()
    }

    /// The largest payload we put into one segment.
    pub fn send_mss(&self) -> (n: u16)
        ensures
            n == self@.tcb.send_mss,
    {
        self.tcb.send_mss
    }

    /// Were timestamps negotiated?
    pub fn ts_enabled(&self) -> (r: bool)
        ensures
            r == self@.tcb.ts_enabled,
    {
        self.tcb.ts_enabled
    }

    /// The peer's window-scale shift.
    pub fn snd_wscale(&self) -> (n: u8)
        ensures
            n == self@.tcb.snd_wscale,
    {
        self.tcb.snd_wscale
    }

    /// Was SACK negotiated?
    pub fn sack_ok(&self) -> (r: bool)
        ensures
            r == self@.tcb.sack_ok,
    {
        self.tcb.sack_ok
    }
}

/// Append a packet, if there is one.
pub fn push_packet(out: &mut Vec<Vec<u8>>, packet: Option<Vec<u8>>)
    ensures
        crate::utils::contents(final(out)@) == crate::tcp::model::appended(
            crate::utils::contents(old(out)@),
            crate::tcp::retx::opt_view(packet),
        ),
{
    if let Some(p) = packet {
        out.push(p);
        assert(crate::utils::contents(out@) =~= crate::utils::contents(old(out)@).push(p@));
    }
}

/// Append packets.
pub fn append_packets(out: &mut Vec<Vec<u8>>, more: Vec<Vec<u8>>)
    ensures
        crate::utils::contents(final(out)@) == crate::utils::contents(old(out)@)
            + crate::utils::contents(more@),
{
    let mut more: Vec<Vec<u8>> = more;
    let ghost added = more@;
    out.append(&mut more);
    assert(crate::utils::contents(out@) =~= crate::utils::contents(old(out)@)
        + crate::utils::contents(added));
}

/// No bytes.
fn empty() -> (e: Vec<u8>)
    ensures
        e@ == Seq::<u8>::empty(),
{
    Vec::new()
}

} // verus!
