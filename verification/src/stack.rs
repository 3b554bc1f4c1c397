//! The host: every IPv4 datagram that arrives is taken in here, and every one to send comes out.
//!
//! It answers pings, echoes UDP, and serves TCP connections from a table: HTTP requests get a
//! response, anything else is echoed. Accepted connections run BBR. A segment that belongs to no
//! connection and opens none gets a RST.
use vstd::prelude::*;

use crate::entropy::random_u32;
use crate::rate::Pace;
use crate::tcp::arrival::{parse_datagram, Arrival};
use crate::tcp::connection::{append_packets, push_packet, Connection};
use crate::tcp::header::{Quad, State, SYN};
use crate::tcp::packet::build_rst;
use crate::utils::{copy_range, push_all};
use crate::{http, icmp, ip, udp};

verus! {

/// The state of one served connection.
#[verifier::ext_equal]
pub struct Session {
    pub quad: Quad,
    pub conn: crate::tcp::model::Conn,
    /// For an HTTP client: request bytes that are not a complete head yet.
    pub http: Option<Seq<u8>>,
    /// Close our side once everything is on the wire.
    pub closing: bool,
}

/// `conn` after the application wrote `data`.
pub open spec fn wrote(conn: crate::tcp::model::Conn, data: Seq<u8>) -> crate::tcp::model::Conn {
    crate::tcp::model::Conn { send_buf: conn.send_buf + data, ..conn }
}

/// Serve every complete request in `buf`: each response is written; the first request that is
/// malformed or asks to close ends the service. Yields the connection, the bytes left over, and
/// whether to close.
pub open spec fn served(conn: crate::tcp::model::Conn, buf: Seq<u8>) -> (
    crate::tcp::model::Conn,
    Seq<u8>,
    bool,
)
    decreases buf.len(),
{
    match http::head_len(buf) {
        Some(n) if 4 <= n <= buf.len() => match http::parsed_request(buf.take(n)) {
            Some(req) => {
                let conn = wrote(conn, http::response_bytes(req));
                if req.keep_alive {
                    served(conn, buf.skip(n))
                } else {
                    (conn, buf.skip(n), true)
                }
            },
            None => (conn, buf.skip(n), true),
        },
        _ => (conn, buf, false),
    }
}

/// The application reads what has arrived in order and responds: an HTTP client is served, anyone
/// else gets their bytes back. Once we are closing, nothing more is answered.
pub open spec fn app_step(s: Session) -> Session {
    let received = s.conn.recv_buf;
    let conn = crate::tcp::model::Conn { recv_buf: Seq::empty(), ..s.conn };
    if received.len() == 0 || s.closing {
        Session { conn, ..s }
    } else if s.http is Some || http::sniffed(received) {
        let pending = match s.http {
            Some(bytes) => bytes,
            None => Seq::empty(),
        };
        let (conn, rest, closing) = served(conn, pending + received);
        Session { conn, http: Some(rest), closing, ..s }
    } else {
        Session { conn: wrote(conn, received), ..s }
    }
}

/// Our side is closed once everything is on the wire, if a response asked for it or the peer has
/// closed its half.
pub open spec fn settled(s: Session, now_ms: u64) -> (Session, Option<Seq<u8>>) {
    if (s.closing || s.conn.tcb.state == State::CloseWait) && s.conn.send_buf.len() == 0 {
        let (conn, fin) = crate::tcp::model::closed_by_us(s.conn, now_ms);
        (
            Session {
                conn,
                closing: false,
                http: if s.closing {
                    None
                } else {
                    s.http
                },
                ..s
            },
            fin,
        )
    } else {
        (s, None)
    }
}

/// Send what may be sent, then close if it is time.
pub open spec fn session_flush(s: Session, now_ms: u64, out: Seq<Seq<u8>>) -> (
    Session,
    Seq<Seq<u8>>,
) {
    let (conn, sent) = crate::tcp::model::transmit_step(s.conn, now_ms);
    let (s, fin) = settled(Session { conn, ..s }, now_ms);
    (s, crate::tcp::model::appended(out + sent, fin))
}

/// A segment for a served connection: the state machine, the application, then transmission.
pub open spec fn session_segment(
    s: Session,
    seg: crate::tcp::arrival::Segment,
    now_ms: u64,
    draw: u32,
) -> (Session, Seq<Seq<u8>>) {
    let (conn, reply) = crate::tcp::model::segment_step(
        s.conn,
        seg.th,
        seg.payload,
        seg.opts,
        now_ms,
        draw,
    );
    session_flush(
        app_step(Session { conn, ..s }),
        now_ms,
        crate::tcp::model::appended(Seq::empty(), reply),
    )
}

/// A tick for a served connection: its timers.
pub open spec fn session_tick(s: Session, now_ms: u64) -> (Session, Seq<Seq<u8>>) {
    let (conn, ticked) = crate::tcp::model::tick_step(s.conn, now_ms);
    (Session { conn, ..s }, ticked)
}

/// All connections send what may be sent, in order, and close if it is time.
pub open spec fn transmit_all(sessions: Seq<Session>, now_ms: u64) -> (Seq<Session>, Seq<Seq<u8>>)
    decreases sessions.len(),
{
    if sessions.len() == 0 {
        (Seq::empty(), Seq::empty())
    } else {
        let (rest, out) = transmit_all(sessions.drop_last(), now_ms);
        let (s, out) = session_flush(sessions.last(), now_ms, out);
        (rest.push(s), out)
    }
}

/// A tick for all connections in order; closed ones leave the table.
pub open spec fn tick_all(sessions: Seq<Session>, now_ms: u64) -> (Seq<Session>, Seq<Seq<u8>>)
    decreases sessions.len(),
{
    if sessions.len() == 0 {
        (Seq::empty(), Seq::empty())
    } else {
        let (rest, out) = tick_all(sessions.drop_last(), now_ms);
        let (s, sent) = session_tick(sessions.last(), now_ms);
        if s.conn.tcb.state == State::Closed {
            (rest, out + sent)
        } else {
            (rest.push(s), out + sent)
        }
    }
}

/// The endpoints of sessions.
pub open spec fn session_quads(sessions: Seq<Session>) -> Seq<Quad> {
    Seq::new(sessions.len(), |i: int| sessions[i].quad)
}

/// The index of the session for `quad`, or the length if there is none.
pub open spec fn session_index(sessions: Seq<Session>, quad: Quad) -> int {
    crate::table::index_of(session_quads(sessions), quad)
}

/// A new session for a SYN, running BBR, and its SYN-ACK.
pub open spec fn opened(
    seg: crate::tcp::arrival::Segment,
    iss: u32,
    draw: u32,
    now_ms: u64,
) -> (Session, Seq<u8>) {
    let (conn, synack) = crate::tcp::model::accepted(
        seg.quad.remote.0,
        seg.quad.local.0,
        seg.th,
        seg.opts,
        iss,
        draw,
        now_ms,
    );
    (
        Session {
            quad: seg.quad,
            conn: crate::tcp::model::Conn {
                cong: crate::controller::ControllerState::Bbr(crate::bbr::fresh()),
                ..conn
            },
            http: None,
            closing: false,
        },
        synack,
    )
}

/// A TCP segment: for a known connection, a new one, or none.
pub open spec fn tcp_step(
    sessions: Seq<Session>,
    seg: crate::tcp::arrival::Segment,
    now_ms: u64,
    iss: u32,
    draw: u32,
) -> (Seq<Session>, Seq<Seq<u8>>) {
    let i = session_index(sessions, seg.quad);
    if i < sessions.len() {
        let (s, out) = session_segment(sessions[i], seg, now_ms, draw);
        if s.conn.tcb.state == State::Closed {
            (sessions.remove(i), out)
        } else {
            (sessions.update(i, s), out)
        }
    } else if seg.th.flags & SYN != 0 {
        let (s, synack) = opened(seg, iss, draw, now_ms);
        (sessions.push(s), seq![synack])
    } else {
        (
            sessions,
            seq![
                crate::tcp::packet::rst_bytes(
                    seg.quad.remote.0,
                    seg.quad.local.0,
                    seg.th,
                    seg.payload.len() as int,
                ),
            ],
        )
    }
}

/// The length of the IPv4 header that `packet` begins with.
pub open spec fn header_len_of(packet: Seq<u8>) -> int {
    ip::parsed(packet)->Ok_0.header_len as int
}

/// A datagram with a valid IPv4 header and header checksum.
pub open spec fn well_headed(packet: Seq<u8>) -> bool {
    match ip::parsed(packet) {
        Ok(h) => crate::utils::internet_checksum(packet.take(h.header_len as int)) == 0,
        Err(_) => false,
    }
}

/// A datagram arrives: garbage is dropped, ICMP echo requests and UDP datagrams are answered, TCP
/// segments go to their connection.
pub open spec fn packet_step(
    sessions: Seq<Session>,
    packet: Seq<u8>,
    now_ms: u64,
    iss: u32,
    draw: u32,
) -> (Seq<Session>, Seq<Seq<u8>>) {
    if !well_headed(packet) {
        (sessions, Seq::empty())
    } else {
        let h = ip::parsed(packet)->Ok_0;
        let header_len = header_len_of(packet);
        if h.protocol == 1 && icmp::is_echo_request(packet, header_len) {
            (sessions, seq![icmp::echo_reply(packet, header_len)])
        } else if h.protocol == 17 && udp::is_datagram(packet, header_len) {
            (sessions, seq![udp::echo_reply(packet, header_len)])
        } else {
            match crate::tcp::arrival::segment_in(packet) {
                Some(seg) => tcp_step(sessions, seg, now_ms, iss, draw),
                None => (sessions, Seq::empty()),
            }
        }
    }
}

/// No two sessions have the same endpoints.
pub open spec fn distinct(sessions: Seq<Session>) -> bool {
    crate::table::distinct(session_quads(sessions))
}

/// One served connection.
#[derive(Debug)]
struct Served {
    quad: Quad,
    conn: Connection,
    http: Option<Vec<u8>>,
    closing: bool,
}

impl View for Served {
    type V = Session;

    closed spec fn view(&self) -> Session {
        Session {
            quad: self.quad,
            conn: self.conn@,
            http: match self.http {
                Some(bytes) => Some(bytes@),
                None => None,
            },
            closing: self.closing,
        }
    }
}

/// The states of all served connections.
spec fn views(served: Seq<Served>) -> Seq<Session> {
    served.map_values(|s: Served| s@)
}

impl Served {
    spec fn wf(self) -> bool {
        self.conn.wf()
    }

    /// Serve every complete request in `buf`. Returns whether to close.
    fn serve(&mut self, buf: &mut Vec<u8>) -> (closing: bool)
        requires
            old(self).wf(),
        ensures
            (final(self).conn@, final(buf)@, closing) == served(old(self).conn@, old(buf)@),
            final(self).wf(),
            final(self).quad == old(self).quad,
            final(self).http == old(self).http,
            final(self).closing == old(self).closing,
    {
        loop
            invariant
                self.wf(),
                self.quad == old(self).quad,
                self.http == old(self).http,
                self.closing == old(self).closing,
                served(self.conn@, buf@) == served(old(self).conn@, old(buf)@),
            decreases buf@.len(),
        {
            match http::request_head_len(buf.as_slice()) {
                Some(n) => {
                    let mut head: Vec<u8> = buf.split_off(n);
                    std::mem::swap(&mut head, buf);
                    match http::parse_request(head.as_slice()) {
                        Some(req) => {
                            let response: Vec<u8> = http::response(&req);
                            self.conn.write(response.as_slice());
                            if !req.keep_alive {
                                return true;
                            }
                        },
                        None => {
                            return true;
                        },
                    }
                },
                None => {
                    return false;
                },
            }
        }
    }

    /// The application: read what has arrived and respond.
    fn respond(&mut self)
        requires
            old(self).wf(),
        ensures
            final(self)@ == app_step(old(self)@),
            final(self).wf(),
    {
        let received: Vec<u8> = self.conn.take_received();
        if received.len() == 0 || self.closing {
            return;
        }
        if self.http.is_some() || http::looks_like_request(received.as_slice()) {
            let mut buf: Vec<u8> = match self.http.take() {
                Some(bytes) => bytes,
                None => Vec::new(),
            };
            push_all(&mut buf, received.as_slice());
            let closing: bool = self.serve(&mut buf);
            self.http = Some(buf);
            self.closing = closing;
        } else {
            self.conn.write(received.as_slice());
        }
    }

    /// Close our side if it is time. Returns the FIN to send, if any.
    fn settle(&mut self, now_ms: u64) -> (r: Option<Vec<u8>>)
        requires
            old(self).wf(),
        ensures
            (final(self)@, crate::tcp::retx::opt_view(r)) == settled(old(self)@, now_ms),
            final(self).wf(),
    {
        if (self.closing || self.conn.state() == State::CloseWait) && self.conn.send_buffer_empty() {
            let fin: Option<Vec<u8>> = self.conn.close(now_ms);
            if self.closing {
                self.http = None;
                self.closing = false;
            }
            fin
        } else {
            None
        }
    }

    /// Send what may be sent, then close if it is time. Packets are appended to `out`.
    fn flush(&mut self, now_ms: u64, out: &mut Vec<Vec<u8>>)
        requires
            old(self).wf(),
        ensures
            (final(self)@, crate::utils::contents(final(out)@)) == session_flush(
                old(self)@,
                now_ms,
                crate::utils::contents(old(out)@),
            ),
            final(self).wf(),
    {
        let sent: Vec<Vec<u8>> = self.conn.poll_transmit(now_ms);
        append_packets(out, sent);
        let fin: Option<Vec<u8>> = self.settle(now_ms);
        push_packet(out, fin);
    }

    fn on_segment(&mut self, a: &Arrival, now_ms: u64, draw: u32) -> (out: Vec<Vec<u8>>)
        requires
            old(self).wf(),
            a.opts@.wf(),
        ensures
            (final(self)@, crate::utils::contents(out@)) == session_segment(
                old(self)@,
                a@,
                now_ms,
                draw,
            ),
            final(self).wf(),
    {
        let mut out: Vec<Vec<u8>> = Vec::new();
        assert(crate::utils::contents(out@) =~= Seq::<Seq<u8>>::empty());
        let reply: Option<Vec<u8>> = self.conn.on_segment_drawn(
            &a.th,
            a.payload.as_slice(),
            &a.opts,
            now_ms,
            draw,
        );
        push_packet(&mut out, reply);
        self.respond();
        self.flush(now_ms, &mut out);
        out
    }

    fn on_tick(&mut self, now_ms: u64) -> (out: Vec<Vec<u8>>)
        requires
            old(self).wf(),
        ensures
            (final(self)@, crate::utils::contents(out@)) == session_tick(old(self)@, now_ms),
            final(self).wf(),
    {
        self.conn.on_tick(now_ms)
    }
}

/// The host with its table of connections.
#[derive(Debug)]
pub struct Stack {
    served: Vec<Served>,
}

impl Stack {
    /// The served connections, oldest first.
    pub closed spec fn sessions(self) -> Seq<Session> {
        views(self.served@)
    }

    /// No two sessions share endpoints, and each connection is in a proper state.
    pub open spec fn wf(self) -> bool {
        distinct(self.sessions()) && forall|i: int|
            0 <= i < self.sessions().len() ==> (#[trigger] self.sessions()[i]).conn.wf()
    }

    pub fn new() -> (s: Stack)
        ensures
            s.sessions() == Seq::<Session>::empty(),
            s.wf(),
    {
        let s = Stack { served: Vec::new() };
        assert(s.sessions() =~= Seq::<Session>::empty());
        s
    }

    /// How many connections are served.
    pub fn len(&self) -> (n: usize)
        ensures
            n == self.sessions().len(),
    {
        self.served.len()
    }

    /// The state of the connection `quad`, if there is one.
    pub fn state_of(&self, quad: &Quad) -> (r: Option<State>)
        ensures
            r == (if session_index(self.sessions(), *quad) < self.sessions().len() {
                Some(
                    self.sessions()[session_index(self.sessions(), *quad)].conn.tcb.state,
                )
            } else {
                None
            }),
    {
        let i: usize = self.position(quad);
        if i < self.served.len() {
            assert(self.sessions()[i as int] == self.served@[i as int]@);
            Some(self.served[i].conn.state())
        } else {
            None
        }
    }

    /// The modelled send rate of the connection `quad`, if there is one.
    pub fn pace_of(&self, quad: &Quad) -> (r: Option<Pace>)
        ensures
            r == (if session_index(self.sessions(), *quad) < self.sessions().len() {
                Some(
                    self.sessions()[session_index(self.sessions(), *quad)].conn.cong.pace(),
                )
            } else {
                None
            }),
    {
        let i: usize = self.position(quad);
        if i < self.served.len() {
            assert(self.sessions()[i as int] == self.served@[i as int]@);
            Some(self.served[i].conn.pacing_rate_bps())
        } else {
            None
        }
    }

    /// The index of the session for `quad`, or the number of sessions.
    fn position(&self, quad: &Quad) -> (i: usize)
        ensures
            i == session_index(self.sessions(), *quad),
            i <= self.served@.len(),
    {
        let mut i: usize = 0;
        while i < self.served.len() && !self.served[i].quad.same(quad)
            invariant
                i <= self.served@.len(),
                forall|j: int| 0 <= j < i ==> (#[trigger] self.sessions()[j]).quad != *quad,
            decreases self.served@.len() - i,
        {
            assert(self.sessions()[i as int] == self.served@[i as int]@);
            i += 1;
        }
        proof {
            if i < self.served@.len() {
                assert(self.sessions()[i as int] == self.served@[i as int]@);
            }
            crate::table::lemma_index(session_quads(self.sessions()), *quad, i as int);
        }
        i
    }

    /// Fire every connection's timers; connections that are closed leave the table. Returns the
    /// packets to send.
    pub fn on_tick(&mut self, now_ms: u64) -> (out: Vec<Vec<u8>>)
        requires
            old(self).wf(),
        ensures
            (final(self).sessions(), crate::utils::contents(out@)) == tick_all(
                old(self).sessions(),
                now_ms,
            ),
            final(self).wf(),
    {
        let ghost all = self.sessions();
        let mut served: Vec<Served> = Vec::new();
        std::mem::swap(&mut served, &mut self.served);
        let mut kept: Vec<Served> = Vec::new();
        let mut out: Vec<Vec<u8>> = Vec::new();
        assert(all.take(0) =~= Seq::<Session>::empty());
        assert(views(kept@) =~= Seq::<Session>::empty());
        assert(crate::utils::contents(out@) =~= Seq::<Seq<u8>>::empty());
        for s in it: served.into_iter()
            invariant
                views(it.seq()) == all,
                forall|j: int| 0 <= j < all.len() ==> (#[trigger] all[j]).conn.wf(),
                (views(kept@), crate::utils::contents(out@)) == tick_all(
                    all.take(it.index()),
                    now_ms,
                ),
                forall|j: int|
                    0 <= j < kept@.len() ==> (#[trigger] views(kept@)[j]).conn.wf(),
        {
            let ghost i = it.index();
            assert(all.take(i + 1).drop_last() =~= all.take(i));
            assert(all[i] == s@);
            let ghost kept_before = views(kept@);
            let mut s: Served = s;
            let sent: Vec<Vec<u8>> = s.on_tick(now_ms);
            append_packets(&mut out, sent);
            if s.conn.state() != State::Closed {
                kept.push(s);
                assert(views(kept@) =~= kept_before.push(s@));
            }
        }
        assert(all.take(all.len() as int) =~= all);
        self.served = kept;
        proof {
            lemma_tick_keeps_distinct(all, now_ms);
        }
        out
    }

    /// Send what may be sent now on every connection. A segment that arrives makes its own
    /// connection transmit; this is for data that waits for the clock alone, because pacing held it
    /// back. Returns the packets to send.
    pub fn poll_transmit(&mut self, now_ms: u64) -> (out: Vec<Vec<u8>>)
        requires
            old(self).wf(),
        ensures
            (final(self).sessions(), crate::utils::contents(out@)) == transmit_all(
                old(self).sessions(),
                now_ms,
            ),
            final(self).wf(),
    {
        let ghost all = self.sessions();
        let mut out: Vec<Vec<u8>> = Vec::new();
        let mut i: usize = 0;
        assert(crate::utils::contents(out@) =~= Seq::<Seq<u8>>::empty());
        assert(self.sessions().take(0) =~= Seq::<Session>::empty());
        while i < self.served.len()
            invariant
                i <= self.served@.len() == all.len(),
                self.sessions().len() == all.len(),
                forall|j: int| i <= j < all.len() ==> (#[trigger] self.sessions()[j]) == all[j],
                forall|j: int|
                    0 <= j < all.len() ==> (#[trigger] self.sessions()[j]).conn.wf(),
                (self.sessions().take(i as int), crate::utils::contents(out@)) == transmit_all(
                    all.take(i as int),
                    now_ms,
                ),
            decreases all.len() - i,
        {
            let ghost before = self.sessions();
            assert(before[i as int] == self.served@[i as int]@);
            self.served[i].flush(now_ms, &mut out);
            let ghost after = self.served@[i as int]@;
            assert(self.sessions() =~= before.update(i as int, after));
            assert(all.take(i + 1).drop_last() =~= all.take(i as int));
            assert(self.sessions().take(i + 1) =~= before.take(i as int).push(after));
            i += 1;
        }
        proof {
            assert(all.take(all.len() as int) =~= all);
            assert(self.sessions().take(all.len() as int) =~= self.sessions());
            lemma_transmitting_keeps_quads(all, now_ms);
        }
        out
    }

    /// Take in a datagram. Returns the packets to send in answer.
    pub fn on_packet(&mut self, packet: &[u8], now_ms: u64) -> (out: Vec<Vec<u8>>)
        requires
            old(self).wf(),
        ensures
            exists|iss: u32, draw: u32|
                (final(self).sessions(), crate::utils::contents(out@)) == #[trigger] packet_step(
                    old(self).sessions(),
                    packet@,
                    now_ms,
                    iss,
                    draw,
                ),
            final(self).wf(),
    {
        self.on_packet_drawn(packet, now_ms, random_u32(), random_u32())
    }

    /// `on_packet` with the random numbers given: the initial sequence number of a connection it
    /// may open, and the number for the challenge-ACK budget.
    pub fn on_packet_drawn(&mut self, packet: &[u8], now_ms: u64, iss: u32, draw: u32) -> (out: Vec<
        Vec<u8>,
    >)
        requires
            old(self).wf(),
        ensures
            (final(self).sessions(), crate::utils::contents(out@)) == packet_step(
                old(self).sessions(),
                packet@,
                now_ms,
                iss,
                draw,
            ),
            final(self).wf(),
    {
        let h: ip::Ipv4Header = match ip::parse(packet) {
            Ok(h) => h,
            Err(_) => {
                return nothing();
            },
        };
        if !header_verifies(packet, h.header_len) {
            return nothing();
        }
        if h.protocol == 1 {
            match icmp::build_echo_reply(packet, h.header_len) {
                Some(reply) => just(reply),
                None => nothing(),
            }
        } else if h.protocol == 17 {
            match udp::build_echo_reply(packet, h.header_len) {
                Some(reply) => just(reply),
                None => nothing(),
            }
        } else {
            match parse_datagram(packet) {
                Some(a) => self.on_tcp(&a, now_ms, iss, draw),
                None => nothing(),
            }
        }
    }

    fn on_tcp(&mut self, a: &Arrival, now_ms: u64, iss: u32, draw: u32) -> (out: Vec<Vec<u8>>)
        requires
            old(self).wf(),
            a.opts@.wf(),
        ensures
            (final(self).sessions(), crate::utils::contents(out@)) == tcp_step(
                old(self).sessions(),
                a@,
                now_ms,
                iss,
                draw,
            ),
            final(self).wf(),
    {
        let ghost before = self.sessions();
        let i: usize = self.position(&a.quad);
        proof {
            lemma_session_index_found(before, a.quad);
        }
        if i < self.served.len() {
            assert(before[i as int] == self.served@[i as int]@);
            let out: Vec<Vec<u8>> = self.served[i].on_segment(a, now_ms, draw);
            let ghost after = self.served@[i as int]@;
            assert(self.sessions() =~= before.update(i as int, after));
            proof {
                lemma_stays_distinct(before, i as int, after);
            }
            if self.served[i].conn.state() == State::Closed {
                self.served.remove(i);
                assert(self.sessions() =~= before.remove(i as int));
            }
            return out;
        }
        match Connection::accept_drawn(
            a.quad.remote.0,
            a.quad.local.0,
            &a.th,
            &a.opts,
            iss,
            draw,
            now_ms,
        ) {
            Some((conn, synack)) => {
                let mut conn: Connection = conn;
                conn.use_bbr();
                let s = Served { quad: a.quad, conn, http: None, closing: false };
                self.served.push(s);
                assert(self.sessions() =~= before.push(s@));
                proof {
                    lemma_stays_distinct(before, i as int, s@);
                }
                just(synack)
            },
            None => just(build_rst(a.quad.remote.0, a.quad.local.0, &a.th, a.payload.len())),
        }
    }
}

/// Whether the first `header_len` bytes of `packet` carry a correct header checksum.
fn header_verifies(packet: &[u8], header_len: usize) -> (ok: bool)
    requires
        header_len <= packet@.len(),
    ensures
        ok == (crate::utils::internet_checksum(packet@.take(header_len as int)) == 0),
{
    let header: Vec<u8> = copy_range(packet, 0, header_len);
    assert(header@ =~= packet@.take(header_len as int));
    ip::verify_checksum(header.as_slice())
}

fn nothing() -> (out: Vec<Vec<u8>>)
    ensures
        crate::utils::contents(out@) == Seq::<Seq<u8>>::empty(),
{
    let out: Vec<Vec<u8>> = Vec::new();
    assert(crate::utils::contents(out@) =~= Seq::<Seq<u8>>::empty());
    out
}

fn just(packet: Vec<u8>) -> (out: Vec<Vec<u8>>)
    ensures
        crate::utils::contents(out@) == seq![packet@],
{
    let mut out: Vec<Vec<u8>> = Vec::new();
    out.push(packet);
    assert(crate::utils::contents(out@) =~= seq![packet@]);
    out
}

/// The session found is the first with the endpoints.
proof fn lemma_session_index_found(sessions: Seq<Session>, quad: Quad)
    ensures
        0 <= session_index(sessions, quad) <= sessions.len(),
        session_index(sessions, quad) < sessions.len() ==> sessions[session_index(sessions, quad)].quad == quad,
        forall|j: int|
            0 <= j < session_index(sessions, quad) ==> (#[trigger] sessions[j]).quad != quad,
{
    let quads = session_quads(sessions);
    crate::table::lemma_index_found(quads, quad);
    assert forall|j: int| 0 <= j < session_index(sessions, quad) implies (#[trigger] sessions[j]).quad != quad by {
        assert(quads[j] != quad);
    }
}

/// A table of sessions stays distinct when one changes but for its endpoints, when one leaves, or
/// when one joins that was not there.
proof fn lemma_stays_distinct(sessions: Seq<Session>, i: int, s: Session)
    requires
        distinct(sessions),
    ensures
        0 <= i < sessions.len() && sessions[i].quad == s.quad ==> distinct(sessions.update(i, s)),
        0 <= i < sessions.len() ==> distinct(sessions.remove(i)),
        session_index(sessions, s.quad) == sessions.len() ==> distinct(sessions.push(s)),
{
    let quads = session_quads(sessions);
    crate::table::lemma_changing_one(quads, s.quad);
    if 0 <= i < sessions.len() {
        assert(session_quads(sessions.remove(i)) =~= quads.remove(i));
        if sessions[i].quad == s.quad {
            assert(session_quads(sessions.update(i, s)) =~= quads);
        }
    }
    assert(session_quads(sessions.push(s)) =~= quads.push(s.quad));
}

/// Transmitting changes no endpoints.
proof fn lemma_transmitting_keeps_quads(sessions: Seq<Session>, now_ms: u64)
    ensures
        session_quads(transmit_all(sessions, now_ms).0) == session_quads(sessions),
    decreases sessions.len(),
{
    let after = transmit_all(sessions, now_ms).0;
    if sessions.len() > 0 {
        let short = sessions.drop_last();
        lemma_transmitting_keeps_quads(short, now_ms);
        let rest = transmit_all(short, now_ms).0;
        assert(session_quads(rest).len() == session_quads(short).len());
        assert forall|i: int| 0 <= i < short.len() implies (#[trigger] after[i]).quad
            == sessions[i].quad by {
            assert(session_quads(rest)[i] == session_quads(short)[i]);
        }
        assert(session_quads(after) =~= session_quads(sessions));
    } else {
        assert(session_quads(after) =~= session_quads(sessions));
    }
}

proof fn lemma_tick_keeps_distinct(sessions: Seq<Session>, now_ms: u64)
    requires
        distinct(sessions),
    ensures
        distinct(tick_all(sessions, now_ms).0),
        crate::table::drawn_from(session_quads(tick_all(sessions, now_ms).0), session_quads(sessions)),
    decreases sessions.len(),
{
    if sessions.len() > 0 {
        let short = sessions.drop_last();
        let quads = session_quads(sessions);
        assert(session_quads(short) =~= quads.drop_last());
        assert(distinct(short)) by {
            assert forall|i: int, j: int| 0 <= i < j < short.len() implies #[trigger] session_quads(
                short,
            )[i] != #[trigger] session_quads(short)[j] by {
                assert(quads[i] != quads[j]);
            }
        }
        lemma_tick_keeps_distinct(short, now_ms);
        let rest = tick_all(short, now_ms).0;
        let few = session_quads(rest);
        crate::table::lemma_keeping_some(few, quads);
        let all = tick_all(sessions, now_ms).0;
        if all.len() > rest.len() {
            assert(session_quads(all) =~= few.push(quads.last()));
        } else {
            assert(all == rest);
        }
    }
}

/// Garbage is dropped: a datagram whose header is malformed or does not verify changes nothing and
/// gets no answer.
pub proof fn law_garbage_is_dropped(
    sessions: Seq<Session>,
    packet: Seq<u8>,
    now_ms: u64,
    iss: u32,
    draw: u32,
)
    requires
        !well_headed(packet),
    ensures
        packet_step(sessions, packet, now_ms, iss, draw) == (sessions, Seq::<Seq<u8>>::empty()),
{
}

/// Connections are isolated: a segment leaves every session but its own as it is, and no session
/// comes into being but its own.
pub proof fn law_sessions_are_isolated(
    sessions: Seq<Session>,
    seg: crate::tcp::arrival::Segment,
    now_ms: u64,
    iss: u32,
    draw: u32,
)
    requires
        distinct(sessions),
    ensures
        ({
            let after = tcp_step(sessions, seg, now_ms, iss, draw).0;
            &&& forall|i: int|
                0 <= i < sessions.len() && (#[trigger] sessions[i]).quad != seg.quad
                    ==> after.contains(sessions[i])
            &&& forall|i: int|
                0 <= i < after.len() && (#[trigger] after[i]).quad != seg.quad
                    ==> sessions.contains(after[i])
        }),
{
    let after = tcp_step(sessions, seg, now_ms, iss, draw).0;
    let k = session_index(sessions, seg.quad);
    lemma_session_index_found(sessions, seg.quad);
    assert forall|i: int|
        0 <= i < sessions.len() && (#[trigger] sessions[i]).quad != seg.quad implies after.contains(
        sessions[i],
    ) by {
        if k < sessions.len() && after.len() < sessions.len() && i > k {
            assert(after[i - 1] == sessions[i]);
        } else {
            assert(after[i] == sessions[i]);
        }
    }
    assert forall|i: int|
        0 <= i < after.len() && (#[trigger] after[i]).quad != seg.quad implies sessions.contains(
        after[i],
    ) by {
        if k < sessions.len() && after.len() < sessions.len() && i >= k {
            assert(sessions[i + 1] == after[i]);
        } else {
            assert(sessions[i] == after[i]);
        }
    }
}

/// Nothing closed stays in the table: if none of the sessions is closed, none is after a segment;
/// and none is after a tick, whatever was before.
#[verifier::rlimit(40)]
pub proof fn law_closed_sessions_leave(
    sessions: Seq<Session>,
    seg: crate::tcp::arrival::Segment,
    now_ms: u64,
    iss: u32,
    draw: u32,
)
    ensures
        (forall|i: int|
            0 <= i < sessions.len() ==> (#[trigger] sessions[i]).conn.tcb.state != State::Closed)
            ==> forall|i: int|
            0 <= i < tcp_step(sessions, seg, now_ms, iss, draw).0.len() ==> (
            #[trigger] tcp_step(sessions, seg, now_ms, iss, draw).0[i]).conn.tcb.state
                != State::Closed,
        forall|i: int|
            0 <= i < tick_all(sessions, now_ms).0.len() ==> (#[trigger] tick_all(
                sessions,
                now_ms,
            ).0[i]).conn.tcb.state != State::Closed,
    decreases sessions.len(),
{
    lemma_session_index_found(sessions, seg.quad);
    if sessions.len() > 0 {
        law_closed_sessions_leave(sessions.drop_last(), seg, now_ms, iss, draw);
    }
}

/// A segment for no connection that opens none is answered with exactly one RST, back to where it
/// came from, and leaves no trace: at the acknowledged number if it carried an ACK, else with an
/// ACK of everything the segment occupies.
pub proof fn law_stray_segments_are_reset(
    sessions: Seq<Session>,
    seg: crate::tcp::arrival::Segment,
    now_ms: u64,
    iss: u32,
    draw: u32,
)
    requires
        forall|i: int| 0 <= i < sessions.len() ==> (#[trigger] sessions[i]).quad != seg.quad,
        seg.th.flags & SYN == 0,
        seg.th.src_port == seg.quad.remote.1,
        seg.th.dst_port == seg.quad.local.1,
    ensures
        ({
            let (after, out) = tcp_step(sessions, seg, now_ms, iss, draw);
            let rst = crate::tcp::arrival::segment_in(out[0]);
            let th = (rst->0).th;
            &&& after == sessions && out.len() == 1 && rst is Some
            &&& (rst->0).quad == (Quad { remote: seg.quad.local, local: seg.quad.remote })
            &&& (rst->0).payload == Seq::<u8>::empty()
            &&& if seg.th.flags & crate::tcp::header::ACK != 0 {
                th.flags == crate::tcp::header::RST && th.seq == seg.th.ack
            } else {
                &&& th.flags == crate::tcp::header::RST | crate::tcp::header::ACK
                &&& th.seq == 0
                &&& th.ack == crate::seq::advance(
                    seg.th.seq,
                    crate::tcp::packet::segment_len(seg.th, seg.payload.len() as int),
                )
            }
        }),
{
    lemma_session_index_found(sessions, seg.quad);
    let us = seg.quad.local;
    let peer = seg.quad.remote;
    let end = crate::seq::advance(
        seg.th.seq,
        crate::tcp::packet::segment_len(seg.th, seg.payload.len() as int),
    );
    let none = Seq::<u8>::empty();
    crate::tcp::arrival::law_packet_reads_back(
        us,
        peer,
        seg.th.ack,
        0,
        crate::tcp::header::RST,
        0,
        none,
        none,
    );
    crate::tcp::arrival::law_packet_reads_back(
        us,
        peer,
        0,
        end,
        crate::tcp::header::RST | crate::tcp::header::ACK,
        0,
        none,
        none,
    );
}

/// A SYN from an unknown peer opens exactly one session, and is answered with its SYN-ACK.
pub proof fn law_syn_opens_a_session(
    sessions: Seq<Session>,
    seg: crate::tcp::arrival::Segment,
    now_ms: u64,
    iss: u32,
    draw: u32,
)
    requires
        forall|i: int| 0 <= i < sessions.len() ==> (#[trigger] sessions[i]).quad != seg.quad,
        seg.th.flags & SYN != 0,
    ensures
        ({
            let (after, out) = tcp_step(sessions, seg, now_ms, iss, draw);
            let (s, synack) = opened(seg, iss, draw, now_ms);
            &&& after == sessions.push(s) && out == seq![synack]
            &&& s.quad == seg.quad && s.conn.tcb.state == State::SynRcvd
        }),
{
    lemma_session_index_found(sessions, seg.quad);
}

/// Paced data waits for the clock alone. Once everything before it is acknowledged, nothing is in
/// flight, so no arrival is owed and no timer runs for it: a tick sends nothing and leaves the data
/// where it is. Transmission sends it, as soon as the pacing clock allows.
pub proof fn law_transmission_releases_paced_data(s: Session, now_ms: u64)
    requires
        crate::tcp::model::sends_data(s.conn.tcb.state),
        !crate::tcp::model::expired(s.conn.tcb, now_ms),
        s.conn.retx.segments.len() == 0,
        s.conn.tcb.una == s.conn.tcb.nxt,
        s.conn.send_buf.len() > 0,
        !s.conn.cong.in_recovery(),
        s.conn.tcb.send_mss > 0,
        crate::tcp::model::usable(s.conn) > 0,
        now_ms >= s.conn.tcb.next_send_ms,
    ensures
        session_tick(s, now_ms).1.len() == 0,
        session_tick(s, now_ms).0.conn.send_buf == s.conn.send_buf,
        session_flush(s, now_ms, Seq::empty()).1.len() > 0,
        session_flush(s, now_ms, Seq::empty()).0.conn.send_buf.len() < s.conn.send_buf.len(),
{
    let c = s.conn;
    let c0 = crate::tcp::model::Conn { tcb: crate::tcp::model::clock_step(c.tcb, now_ms), ..c };
    let (c1, overtaken) = crate::tcp::model::rack_step(c0, now_ms);
    let (c2, tail) = crate::tcp::model::tlp_step(c1, now_ms);
    let (c3, due) = crate::tcp::model::rto_step(c2, now_ms);
    let (c4, probe) = crate::tcp::model::persist_step(c3, now_ms);
    let (c5, alive) = crate::tcp::model::keepalive_step(c4, now_ms);
    assert(overtaken.len() == 0 && tail is None && due.len() == 0);
    assert(probe is None && alive is None);
    assert(c5.send_buf == c.send_buf);
    let d = crate::tcp::model::Conn {
        tcb: crate::tcp::model::Tcb { ts_val: crate::tcp::model::clock_of(now_ms), ..c.tcb },
        ..c
    };
    lemma_flush_takes_data(d, now_ms);
    let (d1, sent) = crate::tcp::model::transmit_step(c, now_ms);
    assert(sent.len() > 0 && d1.send_buf.len() < c.send_buf.len());
}

/// A segment that nothing holds back leaves the send buffer.
proof fn lemma_flush_takes_data(c: crate::tcp::model::Conn, now_ms: u64)
    requires
        c.send_buf.len() > 0,
        crate::tcp::model::flight_size(c.tcb) == 0,
        c.tcb.send_mss > 0,
        crate::tcp::model::usable(c) > 0,
        now_ms >= c.tcb.next_send_ms,
    ensures
        crate::tcp::model::flushed(c, now_ms, Seq::empty()).1.len() > 0,
        crate::tcp::model::flushed(c, now_ms, Seq::empty()).0.send_buf.len() < c.send_buf.len(),
{
    let n = crate::tcp::model::chunk(c, crate::tcp::model::usable(c) as int);
    let flags = crate::tcp::header::PSH | crate::tcp::header::ACK;
    let c1 = crate::tcp::model::clocked(c, n, now_ms);
    let next = crate::tcp::model::sent(c1, n, flags, now_ms);
    let none = Seq::<Seq<u8>>::empty();
    let p = crate::tcp::model::sent_packet(c1, n, flags);
    crate::tcp::laws::lemma_flush_appends(next, now_ms, none.push(p));
    lemma_flush_never_adds(next, now_ms, none);
}

/// Sending never lengthens the send buffer.
proof fn lemma_flush_never_adds(c: crate::tcp::model::Conn, now_ms: u64, out: Seq<Seq<u8>>)
    ensures
        crate::tcp::model::flushed(c, now_ms, out).0.send_buf.len() <= c.send_buf.len(),
    decreases c.send_buf.len(),
{
    let n = crate::tcp::model::chunk(c, crate::tcp::model::usable(c) as int);
    if c.send_buf.len() > 0 && !crate::tcp::model::held_back(c, n, now_ms) && n > 0 {
        let flags = crate::tcp::header::PSH | crate::tcp::header::ACK;
        let c1 = crate::tcp::model::clocked(c, n, now_ms);
        lemma_flush_never_adds(
            crate::tcp::model::sent(c1, n, flags, now_ms),
            now_ms,
            out.push(crate::tcp::model::sent_packet(c1, n, flags)),
        );
    }
}

/// Echo: a client that does not speak HTTP gets back exactly what it sent, behind whatever is
/// still waiting to be sent.
pub proof fn law_echo_returns_the_bytes(s: Session)
    requires
        !s.closing,
        s.http is None,
        !http::sniffed(s.conn.recv_buf),
    ensures
        app_step(s).conn.send_buf == s.conn.send_buf + s.conn.recv_buf,
        app_step(s).conn.recv_buf == Seq::<u8>::empty(),
{
    assert(s.conn.recv_buf.len() == 0 ==> s.conn.send_buf + s.conn.recv_buf =~= s.conn.send_buf);
}

/// Pipelining and persistence: a complete keep-alive request is answered, and the bytes behind it
/// are served as if they had come alone.
pub proof fn law_requests_are_served_in_order(
    conn: crate::tcp::model::Conn,
    head: Seq<u8>,
    rest: Seq<u8>,
)
    requires
        http::head_len(head) == Some(head.len() as int),
        http::parsed_request(head) is Some,
        (http::parsed_request(head)->0).keep_alive,
    ensures
        served(conn, head + rest) == served(
            wrote(conn, http::response_bytes(http::parsed_request(head)->0)),
            rest,
        ),
{
    http::law_head_ends_at_first_blank_line(head);
    http::law_pipelined_bytes_stay_behind(head, rest);
    assert(head.take(head.len() as int) =~= head);
    assert(head.skip(head.len() as int) + rest =~= rest);
}

/// A request that asks to close, or cannot be understood, is the last one served: what follows it
/// is left unanswered and the connection closes.
pub proof fn law_close_ends_the_service(
    conn: crate::tcp::model::Conn,
    head: Seq<u8>,
    rest: Seq<u8>,
)
    requires
        http::head_len(head) == Some(head.len() as int),
        match http::parsed_request(head) {
            Some(req) => !req.keep_alive,
            None => true,
        },
    ensures
        served(conn, head + rest) == (
            match http::parsed_request(head) {
                Some(req) => wrote(conn, http::response_bytes(req)),
                None => conn,
            },
            rest,
            true,
        ),
{
    http::law_head_ends_at_first_blank_line(head);
    http::law_pipelined_bytes_stay_behind(head, rest);
    assert(head.take(head.len() as int) =~= head);
    assert(head.skip(head.len() as int) + rest =~= rest);
}

} // verus!
