//! Sockets over the connection state machine: `TcpStream`, `TcpListener` and the multi-connection
//! `TcpServer`.
//!
//! They do no I/O of their own. Datagrams that are ready go in, datagrams to send come out; the
//! program around them owns the transport and the clock.
use std::collections::VecDeque;

use vstd::prelude::*;

use crate::entropy::random_u32;
use crate::tcp::arrival::{parse_datagram, Arrival};
use crate::tcp::connection::{append_packets, push_packet, Connection};
use crate::tcp::header::{Quad, State, ACK, SYN};
use crate::tcp::packet::{build_rst, Endpoint};

verus! {

/// The state of a stream.
#[verifier::ext_equal]
pub struct Stream {
    pub quad: Quad,
    pub conn: crate::tcp::model::Conn,
    /// Received bytes handed over by the connection and not yet read.
    pub rbuf: Seq<u8>,
}

/// A stream takes in a datagram: one for another connection, or none of TCP at all, is ignored.
pub open spec fn datagram_step(s: Stream, packet: Seq<u8>, now_ms: u64, draw: u32) -> (
    Stream,
    Option<Seq<u8>>,
) {
    match crate::tcp::arrival::segment_in(packet) {
        Some(seg) if seg.quad == s.quad => {
            let (conn, reply) = crate::tcp::model::segment_step(
                s.conn,
                seg.th,
                seg.payload,
                seg.opts,
                now_ms,
                draw,
            );
            (Stream { conn, ..s }, reply)
        },
        _ => (s, None),
    }
}

/// A stream takes in `inbox`, in order, with one random number for each; replies go to `out`.
pub open spec fn inbox_step(
    s: Stream,
    inbox: Seq<Seq<u8>>,
    now_ms: u64,
    draws: Seq<u32>,
    out: Seq<Seq<u8>>,
) -> (Stream, Seq<Seq<u8>>)
    decreases inbox.len(),
{
    if inbox.len() == 0 {
        (s, out)
    } else {
        let (s1, sent) = inbox_step(s, inbox.drop_last(), now_ms, draws, out);
        let (s2, reply) = datagram_step(s1, inbox.last(), now_ms, draws[inbox.len() - 1]);
        (s2, crate::tcp::model::appended(sent, reply))
    }
}

/// One pump of a stream: timers, then every datagram that is ready, then new data.
pub open spec fn poll_step(s: Stream, inbox: Seq<Seq<u8>>, now_ms: u64, draws: Seq<u32>) -> (
    Stream,
    Seq<Seq<u8>>,
) {
    let (c1, ticked) = crate::tcp::model::tick_step(s.conn, now_ms);
    let (s2, replied) = inbox_step(Stream { conn: c1, ..s }, inbox, now_ms, draws, ticked);
    let (c3, sent) = crate::tcp::model::transmit_step(s2.conn, now_ms);
    (Stream { conn: c3, ..s2 }, replied + sent)
}

/// A stream after handing over what the connection has received.
pub open spec fn drained(s: Stream) -> Stream {
    Stream {
        conn: crate::tcp::model::Conn { recv_buf: Seq::empty(), ..s.conn },
        rbuf: s.rbuf + s.conn.recv_buf,
        ..s
    }
}

/// What one step of a blocking read comes to.
#[derive(Debug)]
pub enum ReadStep {
    /// Received bytes.
    Data(Vec<u8>),
    /// The peer has closed its half and everything has been read.
    Eof,
    /// Nothing yet.
    Wait,
}

/// A connected TCP endpoint: a connection, and a buffer for what a short read leaves over.
#[derive(Debug)]
pub struct TcpStream {
    conn: Connection,
    quad: Quad,
    rbuf: VecDeque<u8>,
}

impl View for TcpStream {
    type V = Stream;

    closed spec fn view(&self) -> Stream {
        Stream { quad: self.quad, conn: self.conn@, rbuf: self.rbuf@ }
    }
}

impl TcpStream {
    pub open spec fn wf(self) -> bool {
        self@.conn.wf()
    }

    /// A stream around a connection.
    fn around(conn: Connection, quad: Quad) -> (s: TcpStream)
        requires
            conn.wf(),
        ensures
            s@ == (Stream { quad, conn: conn@, rbuf: Seq::empty() }),
            s.wf(),
    {
        TcpStream { conn, quad, rbuf: VecDeque::new() }
    }

    /// Active open: the stream in SYN_SENT, and the SYN to send. Pump it (`poll`) to complete the
    /// handshake.
    pub fn connect(local: Endpoint, remote: Endpoint, now_ms: u64) -> (r: (TcpStream, Vec<u8>))
        ensures
            exists|iss: u32, draw: u32|
                (r.0@.conn, r.1@) == #[trigger] crate::tcp::model::connecting(
                    local,
                    remote,
                    iss,
                    draw,
                    now_ms,
                ),
            r.0@.quad == (Quad { remote, local }),
            r.0@.rbuf == Seq::<u8>::empty(),
            r.0.wf(),
    {
        let (conn, syn): (Connection, Vec<u8>) = Connection::connect(local, remote, now_ms);
        (Self::around(conn, Quad { remote, local }), syn)
    }

    /// Take in one datagram. Returns the answer to send, if any.
    pub fn on_datagram(&mut self, packet: &[u8], now_ms: u64) -> (r: Option<Vec<u8>>)
        requires
            old(self).wf(),
        ensures
            exists|draw: u32|
                (final(self)@, crate::tcp::retx::opt_view(r)) == #[trigger] datagram_step(
                    old(self)@,
                    packet@,
                    now_ms,
                    draw,
                ),
            final(self).wf(),
    {
        self.on_datagram_drawn(packet, now_ms, random_u32())
    }

    /// `on_datagram` with the random number given.
    pub fn on_datagram_drawn(&mut self, packet: &[u8], now_ms: u64, draw: u32) -> (r: Option<
        Vec<u8>,
    >)
        requires
            old(self).wf(),
        ensures
            (final(self)@, crate::tcp::retx::opt_view(r)) == datagram_step(
                old(self)@,
                packet@,
                now_ms,
                draw,
            ),
            final(self).wf(),
    {
        match parse_datagram(packet) {
            Some(a) => {
                if a.quad.same(&self.quad) {
                    self.conn.on_segment_drawn(
                        &a.th,
                        a.payload.as_slice(),
                        &a.opts,
                        now_ms,
                        draw,
                    )
                } else {
                    None
                }
            },
            None => None,
        }
    }

    /// Fire the timers. Returns the packets to send.
    pub fn on_tick(&mut self, now_ms: u64) -> (out: Vec<Vec<u8>>)
        requires
            old(self).wf(),
        ensures
            ({
                let (conn, sent) = crate::tcp::model::tick_step(old(self)@.conn, now_ms);
                &&& final(self)@ == (Stream { conn, ..old(self)@ })
                &&& crate::utils::contents(out@) == sent
            }),
            final(self).wf(),
    {
        self.conn.on_tick(now_ms)
    }

    /// Send what may be sent. Returns the packets.
    pub fn poll_transmit(&mut self, now_ms: u64) -> (out: Vec<Vec<u8>>)
        requires
            old(self).wf(),
        ensures
            ({
                let (conn, sent) = crate::tcp::model::transmit_step(old(self)@.conn, now_ms);
                &&& final(self)@ == (Stream { conn, ..old(self)@ })
                &&& crate::utils::contents(out@) == sent
            }),
            final(self).wf(),
    {
        self.conn.poll_transmit(now_ms)
    }

    /// One non-blocking pump: fire the timers, take in every ready datagram, then send what may be
    /// sent. Returns the packets in the order in which they go out.
    pub fn poll(&mut self, inbox: &Vec<Vec<u8>>, now_ms: u64) -> (out: Vec<Vec<u8>>)
        requires
            old(self).wf(),
        ensures
            exists|draws: Seq<u32>|
                draws.len() == inbox@.len() && (final(self)@, crate::utils::contents(out@))
                    == #[trigger] poll_step(
                    old(self)@,
                    crate::utils::contents(inbox@),
                    now_ms,
                    draws,
                ),
            final(self).wf(),
    {
        let mut out: Vec<Vec<u8>> = self.on_tick(now_ms);
        let ghost ticked = crate::utils::contents(out@);
        let ghost start = self@;
        let ghost all = crate::utils::contents(inbox@);
        let ghost mut draws: Seq<u32> = Seq::empty();
        let mut i: usize = 0;
        while i < inbox.len()
            invariant
                i <= inbox@.len() == all.len(),
                all == crate::utils::contents(inbox@),
                draws.len() == i,
                self.wf(),
                (self@, crate::utils::contents(out@)) == inbox_step(
                    start,
                    all.take(i as int),
                    now_ms,
                    draws,
                    ticked,
                ),
            decreases inbox@.len() - i,
        {
            let draw: u32 = random_u32();
            let reply: Option<Vec<u8>> = self.on_datagram_drawn(
                inbox[i].as_slice(),
                now_ms,
                draw,
            );
            push_packet(&mut out, reply);
            proof {
                let longer = draws.push(draw);
                lemma_inbox_ignores_later_draws(
                    start,
                    all.take(i as int),
                    now_ms,
                    draws,
                    longer,
                    ticked,
                );
                assert(all.take(i + 1).drop_last() =~= all.take(i as int));
                draws = longer;
            }
            i += 1;
        }
        assert(all.take(all.len() as int) =~= all);
        let sent: Vec<Vec<u8>> = self.poll_transmit(now_ms);
        append_packets(&mut out, sent);
        assert((self@, crate::utils::contents(out@)) == poll_step(
            old(self)@,
            all,
            now_ms,
            draws,
        ));
        out
    }

    pub fn state(&self) -> (s: State)
        ensures
            s == self@.conn.tcb.state,
    {
        self.conn.state()
    }

    pub fn established(&self) -> (r: bool)
        ensures
            r == (self@.conn.tcb.state == State::Established),
    {
        self.conn.state() == State::Established
    }

    /// Has the peer closed its half? Once true and everything is read, reads are at the end.
    pub fn peer_closed(&self) -> (r: bool)
        ensures
            r == self@.conn.tcb.peer_fin,
    {
        self.conn.peer_closed()
    }

    /// Has everything fed been put on the wire?
    pub fn send_buffer_empty(&self) -> (r: bool)
        ensures
            r == (self@.conn.send_buf.len() == 0),
    {
        self.conn.send_buffer_empty()
    }

    /// Queue application bytes; they go out on the next `poll`.
    pub fn feed(&mut self, data: &[u8])
        requires
            old(self).wf(),
        ensures
            final(self)@ == (Stream {
                conn: crate::tcp::model::Conn {
                    send_buf: old(self)@.conn.send_buf + data@,
                    ..old(self)@.conn
                },
                ..old(self)@
            }),
            final(self).wf(),
    {
        self.conn.write(data);
    }

    /// Take all received bytes: what short reads left over, then what has been delivered since.
    pub fn recv_all(&mut self) -> (data: Vec<u8>)
        requires
            old(self).wf(),
        ensures
            data@ == drained(old(self)@).rbuf,
            final(self)@ == (Stream { rbuf: Seq::empty(), ..drained(old(self)@) }),
            final(self).wf(),
    {
        self.drain_delivered();
        let ghost s = self@;
        assert(s.rbuf + s.conn.recv_buf =~= s.rbuf);
        let n: usize = self.rbuf.len();
        let data: Vec<u8> = self.recv_some(n);
        assert(s.rbuf.take(n as int) =~= s.rbuf);
        assert(s.rbuf.skip(n as int) =~= Seq::<u8>::empty());
        data
    }

    /// Take at most `max` received bytes, oldest first; the rest stays for the next read.
    pub fn recv_some(&mut self, max: usize) -> (data: Vec<u8>)
        requires
            old(self).wf(),
        ensures
            ({
                let all = drained(old(self)@).rbuf;
                let n = if max < all.len() {
                    max as int
                } else {
                    all.len() as int
                };
                &&& data@ == all.take(n)
                &&& final(self)@ == (Stream { rbuf: all.skip(n), ..drained(old(self)@) })
            }),
            final(self).wf(),
    {
        self.drain_delivered();
        let ghost all = self.rbuf@;
        let mut data: Vec<u8> = Vec::new();
        let mut i: usize = 0;
        assert(all.skip(0) =~= all);
        while i < max && self.rbuf.len() > 0
            invariant
                i <= max,
                i <= all.len(),
                data@ == all.take(i as int),
                self.rbuf@ == all.skip(i as int),
                self.conn@ == drained(old(self)@).conn,
                self.quad == old(self).quad,
            decreases self.rbuf@.len(),
        {
            match self.rbuf.pop_front() {
                Some(byte) => {
                    data.push(byte);
                },
                None => {},
            }
            i += 1;
            assert(data@ =~= all.take(i as int));
            assert(self.rbuf@ =~= all.skip(i as int));
        }
        data
    }

    /// One step of a blocking read of at most `max` bytes: received bytes if there are any, the end
    /// of the stream if the peer has closed its half, else wait for more.
    pub fn try_read(&mut self, max: usize) -> (r: ReadStep)
        requires
            old(self).wf(),
        ensures
            ({
                let s = drained(old(self)@);
                let n = if max < s.rbuf.len() {
                    max as int
                } else {
                    s.rbuf.len() as int
                };
                if s.rbuf.len() > 0 {
                    &&& r is Data && (r->Data_0)@ == s.rbuf.take(n)
                    &&& final(self)@ == (Stream { rbuf: s.rbuf.skip(n), ..s })
                } else {
                    &&& r == (if s.conn.tcb.peer_fin {
                        ReadStep::Eof
                    } else {
                        ReadStep::Wait
                    })
                    &&& final(self)@ == s
                }
            }),
            final(self).wf(),
    {
        self.drain_delivered();
        let ghost s = self@;
        assert(s.rbuf + s.conn.recv_buf =~= s.rbuf);
        if self.rbuf.len() > 0 {
            ReadStep::Data(self.recv_some(max))
        } else if self.conn.peer_closed() {
            ReadStep::Eof
        } else {
            ReadStep::Wait
        }
    }

    fn drain_delivered(&mut self)
        requires
            old(self).wf(),
        ensures
            final(self)@ == drained(old(self)@),
            final(self).wf(),
    {
        let delivered: Vec<u8> = self.conn.take_received();
        let mut i: usize = 0;
        assert(self.rbuf@ + delivered@.take(0) =~= self.rbuf@);
        while i < delivered.len()
            invariant
                i <= delivered@.len(),
                self.rbuf@ == old(self).rbuf@ + delivered@.take(i as int),
                self.conn@ == drained(old(self)@).conn,
                self.quad == old(self).quad,
            decreases delivered@.len() - i,
        {
            self.rbuf.push_back(delivered[i]);
            i += 1;
            assert(self.rbuf@ =~= old(self).rbuf@ + delivered@.take(i as int));
        }
        assert(delivered@.take(delivered@.len() as int) =~= delivered@);
    }

    /// Close our send side. Returns the FIN to send, if one may be sent.
    pub fn close(&mut self, now_ms: u64) -> (r: Option<Vec<u8>>)
        requires
            old(self).wf(),
        ensures
            ({
                let (conn, fin) = crate::tcp::model::closed_by_us(old(self)@.conn, now_ms);
                &&& final(self)@ == (Stream { conn, ..old(self)@ })
                &&& crate::tcp::retx::opt_view(r) == fin
            }),
            final(self).wf(),
    {
        self.conn.close(now_ms)
    }
}

/// Random numbers behind those that an inbox needs do not matter.
proof fn lemma_inbox_ignores_later_draws(
    s: Stream,
    inbox: Seq<Seq<u8>>,
    now_ms: u64,
    draws: Seq<u32>,
    longer: Seq<u32>,
    out: Seq<Seq<u8>>,
)
    requires
        inbox.len() <= draws.len() <= longer.len(),
        forall|i: int| 0 <= i < draws.len() ==> draws[i] == longer[i],
    ensures
        inbox_step(s, inbox, now_ms, draws, out) == inbox_step(s, inbox, now_ms, longer, out),
    decreases inbox.len(),
{
    if inbox.len() > 0 {
        lemma_inbox_ignores_later_draws(s, inbox.drop_last(), now_ms, draws, longer, out);
    }
}

/// A passive-open listener for a single connection.
#[derive(Debug)]
pub struct TcpListener {
    local: Endpoint,
    taken: bool,
}

/// What a listener accepts: the SYN for its endpoint in a datagram.
pub open spec fn syn_for(local: Endpoint, packet: Seq<u8>) -> bool {
    match crate::tcp::arrival::segment_in(packet) {
        Some(seg) => seg.quad.local == local && seg.th.flags & SYN != 0,
        None => false,
    }
}

/// The stream and the SYN-ACK for a SYN.
pub open spec fn accepted_stream(
    seg: crate::tcp::arrival::Segment,
    iss: u32,
    draw: u32,
    now_ms: u64,
) -> (Stream, Seq<u8>) {
    let (conn, synack) = crate::tcp::model::accepted(
        seg.quad.remote.0,
        seg.quad.local.0,
        seg.th,
        seg.opts,
        iss,
        draw,
        now_ms,
    );
    (Stream { quad: seg.quad, conn, rbuf: Seq::empty() }, synack)
}

/// Passive open for a segment that arrived, with both random numbers given.
fn accept_stream(a: &Arrival, iss: u32, draw: u32, now_ms: u64) -> (r: Option<
    (TcpStream, Vec<u8>),
>)
    requires
        a.opts@.wf(),
    ensures
        r is Some <==> a.th.flags & SYN != 0,
        r is Some ==> ((r->0).0@, (r->0).1@) == accepted_stream(a@, iss, draw, now_ms),
        r is Some ==> (r->0).0.wf(),
{
    match Connection::accept_drawn(
        a.quad.remote.0,
        a.quad.local.0,
        &a.th,
        &a.opts,
        iss,
        draw,
        now_ms,
    ) {
        Some((conn, synack)) => Some((TcpStream::around(conn, a.quad), synack)),
        None => None,
    }
}

impl TcpListener {
    /// The endpoint it listens on.
    pub closed spec fn local(self) -> Endpoint {
        self.local
    }

    /// Whether it has produced its one stream.
    pub closed spec fn taken(self) -> bool {
        self.taken
    }

    pub fn bind(local: Endpoint) -> (l: TcpListener)
        ensures
            l.local() == local,
            !l.taken(),
    {
        TcpListener { local, taken: false }
    }

    /// Offer a received datagram. On the first SYN addressed to us, returns the stream in SYN_RCVD
    /// and the SYN-ACK to send; `None` for anything else, and once the one stream is taken.
    pub fn poll_accept(&mut self, packet: &[u8], now_ms: u64) -> (r: Option<(TcpStream, Vec<u8>)>)
        ensures
            r is Some <==> !old(self).taken() && syn_for(old(self).local(), packet@),
            exists|iss: u32, draw: u32|
                (final(self).taken(), accepted_view(r)) == #[trigger] listen_step(
                    old(self).local(),
                    old(self).taken(),
                    packet@,
                    now_ms,
                    iss,
                    draw,
                ),
            r is Some ==> (r->0).0.wf(),
            final(self).local() == old(self).local(),
    {
        self.poll_accept_drawn(packet, now_ms, random_u32(), random_u32())
    }

    /// `poll_accept` with the random numbers given: the initial sequence number of the connection it
    /// may open, and the number for the challenge-ACK budget.
    pub fn poll_accept_drawn(&mut self, packet: &[u8], now_ms: u64, iss: u32, draw: u32) -> (r:
        Option<(TcpStream, Vec<u8>)>)
        ensures
            (final(self).taken(), accepted_view(r)) == listen_step(
                old(self).local(),
                old(self).taken(),
                packet@,
                now_ms,
                iss,
                draw,
            ),
            r is Some ==> (r->0).0.wf(),
            final(self).local() == old(self).local(),
    {
        if self.taken {
            return None;
        }
        match parse_datagram(packet) {
            Some(a) => {
                if a.quad.local.0 == self.local.0 && a.quad.local.1 == self.local.1 {
                    let r: Option<(TcpStream, Vec<u8>)> = accept_stream(&a, iss, draw, now_ms);
                    if r.is_some() {
                        self.taken = true;
                    }
                    r
                } else {
                    None
                }
            },
            None => None,
        }
    }
}

/// A stream and its SYN-ACK, if there are any.
pub open spec fn accepted_view(r: Option<(TcpStream, Vec<u8>)>) -> Option<(Stream, Seq<u8>)> {
    match r {
        Some((stream, synack)) => Some((stream@, synack@)),
        None => None,
    }
}

/// A listener is offered a datagram: whether its one stream is taken afterwards, and what it gives.
pub open spec fn listen_step(
    local: Endpoint,
    taken: bool,
    packet: Seq<u8>,
    now_ms: u64,
    iss: u32,
    draw: u32,
) -> (bool, Option<(Stream, Seq<u8>)>) {
    if !taken && syn_for(local, packet) {
        (
            true,
            Some(
                accepted_stream(
                    crate::tcp::arrival::segment_in(packet)->0,
                    iss,
                    draw,
                    now_ms,
                ),
            ),
        )
    } else {
        (taken, None)
    }
}

/// A datagram offered to a listener, with the time and the random numbers.
pub struct Offer {
    pub packet: Seq<u8>,
    pub now_ms: u64,
    pub iss: u32,
    pub draw: u32,
}

/// A new listener is offered datagrams one after the other: whether its stream is taken, and what
/// each of them gave.
pub open spec fn listen_run(local: Endpoint, offers: Seq<Offer>) -> (
    bool,
    Seq<Option<(Stream, Seq<u8>)>>,
)
    decreases offers.len(),
{
    if offers.len() == 0 {
        (false, Seq::empty())
    } else {
        let (taken, given) = listen_run(local, offers.drop_last());
        let o = offers.last();
        let (taken, r) = listen_step(local, taken, o.packet, o.now_ms, o.iss, o.draw);
        (taken, given.push(r))
    }
}

/// A SYN-ACK goes back to where the SYN came from and acknowledges it.
proof fn lemma_synack_goes_back(
    seg: crate::tcp::arrival::Segment,
    iss: u32,
    draw: u32,
    now_ms: u64,
)
    requires
        seg.th.src_port == seg.quad.remote.1,
        seg.th.dst_port == seg.quad.local.1,
    ensures
        answers_syn(accepted_stream(seg, iss, draw, now_ms), seg, iss),
{
    let t = crate::tcp::model::accepted_tcb(
        seg.quad.remote.0,
        seg.quad.local.0,
        seg.th,
        seg.opts,
        iss,
        draw,
        now_ms,
    );
    let options = crate::tcp::model::synack_options(t, seg.opts.window_scale is Some);
    assert(crate::tcp::packet::options_fit(options)) by {
        assert(crate::tcp::options::ts_bytes(t.ts_val, t.ts_recent).len() == 12);
    }
    crate::tcp::arrival::law_packet_reads_back(
        t.local,
        t.remote,
        t.iss,
        t.rcv_nxt,
        SYN | ACK,
        t.rcv_wnd,
        options,
        Seq::empty(),
    );
}

/// The stream is in SYN_RCVD with the SYN's endpoints, and the packet is the SYN-ACK back to where
/// the SYN came from.
pub open spec fn answers_syn(
    given: (Stream, Seq<u8>),
    syn: crate::tcp::arrival::Segment,
    iss: u32,
) -> bool {
    let synack = crate::tcp::arrival::segment_in(given.1);
    &&& given.0.conn.tcb.state == State::SynRcvd && given.0.quad == syn.quad
    &&& synack is Some
    &&& (synack->0).quad == (Quad { remote: syn.quad.local, local: syn.quad.remote })
    &&& (synack->0).th.flags == SYN | ACK
    &&& (synack->0).th.seq == iss && (synack->0).th.ack == syn.th.seq.wrapping_add(1)
}

/// A listener gives one stream, for the first SYN that is ours. Of datagrams offered in turn, the
/// first SYN for its endpoint, number `i`, gives the stream in SYN_RCVD and its SYN-ACK, back to
/// where the SYN came from. All before it and all after it give nothing. Without one (`i` is the
/// number of datagrams) nothing is given at all.
pub proof fn law_the_first_syn_is_accepted(local: Endpoint, offers: Seq<Offer>, i: int)
    requires
        0 <= i <= offers.len(),
        i < offers.len() ==> syn_for(local, offers[i].packet),
        forall|j: int| 0 <= j < i ==> !syn_for(local, (#[trigger] offers[j]).packet),
    ensures
        ({
            let (taken, given) = listen_run(local, offers);
            &&& taken == (i < offers.len())
            &&& given.len() == offers.len()
            &&& forall|k: int| 0 <= k < offers.len() && k != i ==> #[trigger] given[k] is None
            &&& i < offers.len() ==> {
                let syn = crate::tcp::arrival::segment_in(offers[i].packet)->0;
                &&& given[i] == Some(
                    accepted_stream(syn, offers[i].iss, offers[i].draw, offers[i].now_ms),
                )
                &&& answers_syn(given[i]->0, syn, offers[i].iss)
            }
        }),
    decreases offers.len(),
{
    if offers.len() > 0 {
        let n = offers.len() - 1;
        let short = offers.drop_last();
        assert(offers[n] == offers.last());
        assert forall|j: int| 0 <= j < short.len() implies short[j] == #[trigger] offers[j] by {}
        if i <= n {
            law_the_first_syn_is_accepted(local, short, i);
        } else {
            law_the_first_syn_is_accepted(local, short, n);
        }
        let given0 = listen_run(local, short).1;
        let given = listen_run(local, offers).1;
        assert forall|k: int| 0 <= k < n implies #[trigger] given[k] == given0[k] by {}
        if i == n {
            let syn = crate::tcp::arrival::segment_in(offers[i].packet)->0;
            lemma_synack_goes_back(syn, offers[i].iss, offers[i].draw, offers[i].now_ms);
        }
    }
}

/// The endpoints of streams.
pub open spec fn stream_quads(streams: Seq<Stream>) -> Seq<Quad> {
    Seq::new(streams.len(), |i: int| streams[i].quad)
}

/// The index of the stream for `quad`, or the length if there is none.
pub open spec fn stream_index(streams: Seq<Stream>, quad: Quad) -> int {
    crate::table::index_of(stream_quads(streams), quad)
}

/// No two streams have the same endpoints.
pub open spec fn distinct(streams: Seq<Stream>) -> bool {
    crate::table::distinct(stream_quads(streams))
}

/// A server takes in a datagram: it goes to the stream it belongs to; a SYN for our endpoint opens
/// a new one; anything else for our endpoint is answered with a RST. What is not for our endpoint
/// is ignored.
pub open spec fn server_step(
    local: Endpoint,
    streams: Seq<Stream>,
    packet: Seq<u8>,
    now_ms: u64,
    iss: u32,
    draw: u32,
) -> (Seq<Stream>, Option<Seq<u8>>) {
    match crate::tcp::arrival::segment_in(packet) {
        Some(seg) if seg.quad.local == local => {
            let i = stream_index(streams, seg.quad);
            if i < streams.len() {
                let (s, reply) = datagram_step(streams[i], packet, now_ms, draw);
                (streams.update(i, s), reply)
            } else if seg.th.flags & SYN != 0 {
                let (s, synack) = accepted_stream(seg, iss, draw, now_ms);
                (streams.push(s), Some(synack))
            } else {
                (
                    streams,
                    Some(
                        crate::tcp::packet::rst_bytes(
                            seg.quad.remote.0,
                            seg.quad.local.0,
                            seg.th,
                            seg.payload.len() as int,
                        ),
                    ),
                )
            }
        },
        _ => (streams, None),
    }
}

/// One stream's share of a pump: timers, then new data.
pub open spec fn stream_pump(s: Stream, now_ms: u64) -> (Stream, Seq<Seq<u8>>) {
    let (c1, ticked) = crate::tcp::model::tick_step(s.conn, now_ms);
    let (c2, sent) = crate::tcp::model::transmit_step(c1, now_ms);
    (Stream { conn: c2, ..s }, ticked + sent)
}

/// A pump of all streams in order; closed ones leave the table.
pub open spec fn pump_step(streams: Seq<Stream>, now_ms: u64) -> (Seq<Stream>, Seq<Seq<u8>>)
    decreases streams.len(),
{
    if streams.len() == 0 {
        (Seq::empty(), Seq::empty())
    } else {
        let (rest, out) = pump_step(streams.drop_last(), now_ms);
        let (s, sent) = stream_pump(streams.last(), now_ms);
        if s.conn.tcb.state == State::Closed {
            (rest, out + sent)
        } else {
            (rest.push(s), out + sent)
        }
    }
}

/// The streams of a server.
pub open spec fn stream_views(streams: Seq<TcpStream>) -> Seq<Stream> {
    streams.map_values(|s: TcpStream| s@)
}

/// A server for many connections on one endpoint: datagrams are told apart by both endpoints.
#[derive(Debug)]
pub struct TcpServer {
    local: Endpoint,
    streams: Vec<TcpStream>,
}

impl TcpServer {
    /// The endpoint it serves.
    pub closed spec fn local(self) -> Endpoint {
        self.local
    }

    /// Its streams, oldest first.
    pub closed spec fn streams(self) -> Seq<Stream> {
        stream_views(self.streams@)
    }

    /// No two streams share endpoints, and each is in a proper state.
    pub open spec fn wf(self) -> bool {
        distinct(self.streams()) && forall|i: int|
            0 <= i < self.streams().len() ==> (#[trigger] self.streams()[i]).conn.wf()
    }

    pub fn bind(local: Endpoint) -> (s: TcpServer)
        ensures
            s.local() == local,
            s.streams() == Seq::<Stream>::empty(),
            s.wf(),
    {
        let s = TcpServer { local, streams: Vec::new() };
        assert(s.streams() =~= Seq::<Stream>::empty());
        s
    }

    /// The index of the stream for `quad`, or the number of streams.
    fn position(&self, quad: &Quad) -> (i: usize)
        ensures
            i == stream_index(self.streams(), *quad),
            i <= self.streams@.len(),
    {
        let mut i: usize = 0;
        while i < self.streams.len() && !self.streams[i].quad.same(quad)
            invariant
                i <= self.streams@.len(),
                forall|j: int| 0 <= j < i ==> (#[trigger] self.streams()[j]).quad != *quad,
            decreases self.streams@.len() - i,
        {
            assert(self.streams()[i as int] == self.streams@[i as int]@);
            i += 1;
        }
        proof {
            if i < self.streams@.len() {
                assert(self.streams()[i as int] == self.streams@[i as int]@);
            }
            crate::table::lemma_index(stream_quads(self.streams()), *quad, i as int);
        }
        i
    }

    /// Take in a received datagram. Returns the answer to send, if any.
    pub fn on_datagram(&mut self, packet: &[u8], now_ms: u64) -> (r: Option<Vec<u8>>)
        requires
            old(self).wf(),
        ensures
            exists|iss: u32, draw: u32|
                (final(self).streams(), crate::tcp::retx::opt_view(r)) == #[trigger] server_step(
                    old(self).local(),
                    old(self).streams(),
                    packet@,
                    now_ms,
                    iss,
                    draw,
                ),
            final(self).local() == old(self).local(),
            final(self).wf(),
    {
        self.on_datagram_drawn(packet, now_ms, random_u32(), random_u32())
    }

    /// `on_datagram` with the random numbers given: the initial sequence number of a connection it
    /// may open, and the number for the challenge-ACK budget.
    pub fn on_datagram_drawn(&mut self, packet: &[u8], now_ms: u64, iss: u32, draw: u32) -> (r:
        Option<Vec<u8>>)
        requires
            old(self).wf(),
        ensures
            (final(self).streams(), crate::tcp::retx::opt_view(r)) == server_step(
                old(self).local(),
                old(self).streams(),
                packet@,
                now_ms,
                iss,
                draw,
            ),
            final(self).local() == old(self).local(),
            final(self).wf(),
    {
        let a: Arrival = match parse_datagram(packet) {
            Some(a) => a,
            None => {
                return None;
            },
        };
        if !(a.quad.local.0 == self.local.0 && a.quad.local.1 == self.local.1) {
            return None;
        }
        let ghost before = self.streams();
        let i: usize = self.position(&a.quad);
        proof {
            lemma_stream_index_found(before, a.quad);
        }
        if i < self.streams.len() {
            assert(before[i as int] == self.streams@[i as int]@);
            let reply: Option<Vec<u8>> = self.streams[i].on_datagram_drawn(packet, now_ms, draw);
            let ghost after = self.streams@[i as int]@;
            assert(self.streams() =~= before.update(i as int, after));
            proof {
                lemma_stays_distinct(before, i as int, after);
            }
            return reply;
        }
        match accept_stream(&a, iss, draw, now_ms) {
            Some((stream, synack)) => {
                self.streams.push(stream);
                assert(self.streams() =~= before.push(stream@));
                proof {
                    lemma_stays_distinct(before, i as int, stream@);
                }
                Some(synack)
            },
            None => Some(
                build_rst(a.quad.remote.0, a.quad.local.0, &a.th, a.payload.len()),
            ),
        }
    }

    /// Pump every connection: timers, then new data. Closed connections leave the table. Returns
    /// the packets to send.
    pub fn poll(&mut self, now_ms: u64) -> (out: Vec<Vec<u8>>)
        requires
            old(self).wf(),
        ensures
            (final(self).streams(), crate::utils::contents(out@)) == pump_step(
                old(self).streams(),
                now_ms,
            ),
            final(self).local() == old(self).local(),
            final(self).wf(),
    {
        let ghost all = self.streams();
        let mut streams: Vec<TcpStream> = Vec::new();
        std::mem::swap(&mut streams, &mut self.streams);
        let mut kept: Vec<TcpStream> = Vec::new();
        let mut out: Vec<Vec<u8>> = Vec::new();
        assert(all.take(0) =~= Seq::<Stream>::empty());
        assert(stream_views(kept@) =~= Seq::<Stream>::empty());
        assert(crate::utils::contents(out@) =~= Seq::<Seq<u8>>::empty());
        for s in it: streams.into_iter()
            invariant
                stream_views(it.seq()) == all,
                forall|j: int| 0 <= j < all.len() ==> (#[trigger] all[j]).conn.wf(),
                (stream_views(kept@), crate::utils::contents(out@)) == pump_step(
                    all.take(it.index()),
                    now_ms,
                ),
                forall|j: int|
                    0 <= j < stream_views(kept@).len() ==> (#[trigger] stream_views(
                        kept@,
                    )[j]).conn.wf(),
        {
            let ghost i = it.index();
            assert(all.take(i + 1).drop_last() =~= all.take(i));
            assert(all[i] == s@);
            let ghost kept_before = stream_views(kept@);
            let mut s: TcpStream = s;
            let ticked: Vec<Vec<u8>> = s.on_tick(now_ms);
            let sent: Vec<Vec<u8>> = s.poll_transmit(now_ms);
            let ghost out_before = crate::utils::contents(out@);
            let ghost ticked_view = crate::utils::contents(ticked@);
            let ghost sent_view = crate::utils::contents(sent@);
            append_packets(&mut out, ticked);
            append_packets(&mut out, sent);
            assert(crate::utils::contents(out@) =~= out_before + (ticked_view + sent_view));
            if s.state() != State::Closed {
                kept.push(s);
                assert(stream_views(kept@) =~= kept_before.push(s@));
            }
        }
        assert(all.take(all.len() as int) =~= all);
        self.streams = kept;
        proof {
            lemma_pump_keeps_distinct(all, now_ms);
        }
        out
    }

    /// How many connections are open.
    pub fn len(&self) -> (n: usize)
        ensures
            n == self.streams().len(),
    {
        self.streams.len()
    }

    /// The endpoints of every connection, oldest first.
    pub fn quads(&self) -> (quads: Vec<Quad>)
        ensures
            quads@ == stream_quads(self.streams()),
    {
        let mut quads: Vec<Quad> = Vec::new();
        let mut i: usize = 0;
        while i < self.streams.len()
            invariant
                i <= self.streams@.len(),
                quads@.len() == i,
                forall|j: int| 0 <= j < i ==> #[trigger] quads@[j] == self.streams()[j].quad,
            decreases self.streams@.len() - i,
        {
            quads.push(self.streams[i].quad);
            i += 1;
        }
        assert(quads@ =~= stream_quads(self.streams()));
        quads
    }

    /// Take all bytes received on the connection `quad`; `None` if there is no such connection.
    pub fn recv_all(&mut self, quad: Quad) -> (r: Option<Vec<u8>>)
        requires
            old(self).wf(),
        ensures
            ({
                let i = stream_index(old(self).streams(), quad);
                if i < old(self).streams().len() {
                    &&& crate::tcp::retx::opt_view(r) == Some(
                        drained(old(self).streams()[i]).rbuf,
                    )
                    &&& final(self).streams() == old(self).streams().update(
                        i,
                        Stream { rbuf: Seq::empty(), ..drained(old(self).streams()[i]) },
                    )
                } else {
                    r is None && final(self).streams() == old(self).streams()
                }
            }),
            final(self).local() == old(self).local(),
            final(self).wf(),
    {
        let ghost before = self.streams();
        let i: usize = self.position(&quad);
        proof {
            lemma_stream_index_found(before, quad);
        }
        if i < self.streams.len() {
            assert(before[i as int] == self.streams@[i as int]@);
            let data: Vec<u8> = self.streams[i].recv_all();
            let ghost after = self.streams@[i as int]@;
            assert(self.streams() =~= before.update(i as int, after));
            proof {
                lemma_stays_distinct(before, i as int, after);
            }
            Some(data)
        } else {
            None
        }
    }

    /// Queue bytes on the connection `quad`. `false` if there is no such connection.
    pub fn feed(&mut self, quad: Quad, data: &[u8]) -> (found: bool)
        requires
            old(self).wf(),
        ensures
            ({
                let i = stream_index(old(self).streams(), quad);
                let s = old(self).streams()[i];
                &&& found == (i < old(self).streams().len())
                &&& final(self).streams() == if found {
                    old(self).streams().update(
                        i,
                        Stream {
                            conn: crate::tcp::model::Conn {
                                send_buf: s.conn.send_buf + data@,
                                ..s.conn
                            },
                            ..s
                        },
                    )
                } else {
                    old(self).streams()
                }
            }),
            final(self).local() == old(self).local(),
            final(self).wf(),
    {
        let ghost before = self.streams();
        let i: usize = self.position(&quad);
        proof {
            lemma_stream_index_found(before, quad);
        }
        if i < self.streams.len() {
            assert(before[i as int] == self.streams@[i as int]@);
            self.streams[i].feed(data);
            let ghost after = self.streams@[i as int]@;
            assert(self.streams() =~= before.update(i as int, after));
            proof {
                lemma_stays_distinct(before, i as int, after);
            }
            true
        } else {
            false
        }
    }

    /// Close our side of the connection `quad`. Returns the FIN to send, if one may be sent.
    pub fn close(&mut self, quad: Quad, now_ms: u64) -> (r: Option<Vec<u8>>)
        requires
            old(self).wf(),
        ensures
            ({
                let i = stream_index(old(self).streams(), quad);
                let s = old(self).streams()[i];
                let (conn, fin) = crate::tcp::model::closed_by_us(s.conn, now_ms);
                if i < old(self).streams().len() {
                    &&& crate::tcp::retx::opt_view(r) == fin
                    &&& final(self).streams() == old(self).streams().update(
                        i,
                        Stream { conn, ..s },
                    )
                } else {
                    r is None && final(self).streams() == old(self).streams()
                }
            }),
            final(self).local() == old(self).local(),
            final(self).wf(),
    {
        let ghost before = self.streams();
        let i: usize = self.position(&quad);
        proof {
            lemma_stream_index_found(before, quad);
        }
        if i < self.streams.len() {
            assert(before[i as int] == self.streams@[i as int]@);
            let fin: Option<Vec<u8>> = self.streams[i].close(now_ms);
            let ghost after = self.streams@[i as int]@;
            assert(self.streams() =~= before.update(i as int, after));
            proof {
                lemma_stays_distinct(before, i as int, after);
            }
            fin
        } else {
            None
        }
    }
}

/// The stream found is the first with the endpoints.
proof fn lemma_stream_index_found(streams: Seq<Stream>, quad: Quad)
    ensures
        0 <= stream_index(streams, quad) <= streams.len(),
        stream_index(streams, quad) < streams.len() ==> streams[stream_index(streams, quad)].quad == quad,
        forall|j: int|
            0 <= j < stream_index(streams, quad) ==> (#[trigger] streams[j]).quad != quad,
{
    let quads = stream_quads(streams);
    crate::table::lemma_index_found(quads, quad);
    assert forall|j: int| 0 <= j < stream_index(streams, quad) implies (#[trigger] streams[j]).quad != quad by {
        assert(quads[j] != quad);
    }
}

/// A table of streams stays distinct when one changes but for its endpoints, when one leaves, or
/// when one joins that was not there.
proof fn lemma_stays_distinct(streams: Seq<Stream>, i: int, s: Stream)
    requires
        distinct(streams),
    ensures
        0 <= i < streams.len() && streams[i].quad == s.quad ==> distinct(streams.update(i, s)),
        0 <= i < streams.len() ==> distinct(streams.remove(i)),
        stream_index(streams, s.quad) == streams.len() ==> distinct(streams.push(s)),
{
    let quads = stream_quads(streams);
    crate::table::lemma_changing_one(quads, s.quad);
    if 0 <= i < streams.len() {
        assert(stream_quads(streams.remove(i)) =~= quads.remove(i));
        if streams[i].quad == s.quad {
            assert(stream_quads(streams.update(i, s)) =~= quads);
        }
    }
    assert(stream_quads(streams.push(s)) =~= quads.push(s.quad));
}

proof fn lemma_pump_keeps_distinct(streams: Seq<Stream>, now_ms: u64)
    requires
        distinct(streams),
    ensures
        distinct(pump_step(streams, now_ms).0),
        crate::table::drawn_from(stream_quads(pump_step(streams, now_ms).0), stream_quads(streams)),
    decreases streams.len(),
{
    if streams.len() > 0 {
        let short = streams.drop_last();
        let quads = stream_quads(streams);
        assert(stream_quads(short) =~= quads.drop_last());
        assert(distinct(short)) by {
            assert forall|i: int, j: int| 0 <= i < j < short.len() implies #[trigger] stream_quads(
                short,
            )[i] != #[trigger] stream_quads(short)[j] by {
                assert(quads[i] != quads[j]);
            }
        }
        lemma_pump_keeps_distinct(short, now_ms);
        let rest = pump_step(short, now_ms).0;
        let few = stream_quads(rest);
        crate::table::lemma_keeping_some(few, quads);
        let all = pump_step(streams, now_ms).0;
        if all.len() > rest.len() {
            assert(stream_quads(all) =~= few.push(quads.last()));
        } else {
            assert(all == rest);
        }
    }
}

/// Connections do not disturb each other: a datagram changes at most the stream whose endpoints it
/// carries, never removes one, and keeps all endpoints distinct.
pub proof fn law_connections_are_isolated(
    local: Endpoint,
    streams: Seq<Stream>,
    packet: Seq<u8>,
    now_ms: u64,
    iss: u32,
    draw: u32,
    k: int,
)
    requires
        distinct(streams),
        0 <= k < streams.len(),
        match crate::tcp::arrival::segment_in(packet) {
            Some(seg) => seg.quad != streams[k].quad,
            None => true,
        },
    ensures
        server_step(local, streams, packet, now_ms, iss, draw).0.len() >= streams.len(),
        server_step(local, streams, packet, now_ms, iss, draw).0[k] == streams[k],
        distinct(server_step(local, streams, packet, now_ms, iss, draw).0),
{
    match crate::tcp::arrival::segment_in(packet) {
        Some(seg) => {
            lemma_stream_index_found(streams, seg.quad);
            let i = stream_index(streams, seg.quad);
            lemma_stays_distinct(
                streams,
                i,
                datagram_step(streams[i], packet, now_ms, draw).0,
            );
            lemma_stays_distinct(streams, i, accepted_stream(seg, iss, draw, now_ms).0);
        },
        None => {},
    }
}

/// A stray segment gets a RST: one for our endpoint that belongs to no connection and is no SYN is
/// answered with a reset, and no connection comes into being.
pub proof fn law_stray_segments_are_reset(
    local: Endpoint,
    streams: Seq<Stream>,
    packet: Seq<u8>,
    now_ms: u64,
    iss: u32,
    draw: u32,
)
    requires
        crate::tcp::arrival::segment_in(packet) is Some,
        (crate::tcp::arrival::segment_in(packet)->0).quad.local == local,
        (crate::tcp::arrival::segment_in(packet)->0).th.flags & SYN == 0,
        forall|i: int|
            0 <= i < streams.len() ==> (#[trigger] streams[i]).quad != (
            crate::tcp::arrival::segment_in(packet)->0).quad,
    ensures
        server_step(local, streams, packet, now_ms, iss, draw).0 == streams,
        server_step(local, streams, packet, now_ms, iss, draw).1 is Some,
{
    lemma_stream_index_found(streams, (crate::tcp::arrival::segment_in(packet)->0).quad);
}

} // verus!
