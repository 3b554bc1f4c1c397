//! What the host and the sockets do with many connections: which of them a datagram reaches, what
//! the application answers, and that each connection is driven as if it were alone.
use vstd::prelude::*;

use crate::socket::Stream;
use crate::stack::Session;
use crate::tcp::arrival::Segment;
use crate::tcp::header::State;
use crate::tcp::packet::Endpoint;

verus! {

/// The packets of an optional reply.
pub open spec fn one(reply: Option<Seq<u8>>) -> Seq<Seq<u8>> {
    match reply {
        Some(p) => seq![p],
        None => Seq::empty(),
    }
}

/// A datagram is taken by its protocol. With a bad header or header checksum nothing happens. ICMP
/// and UDP never touch a connection: an echo request or a datagram is answered with one packet,
/// anything else of theirs with none. TCP goes to the connections if it holds a segment. Any other
/// protocol is ignored.
pub proof fn law_datagrams_go_by_protocol(
    sessions: Seq<Session>,
    packet: Seq<u8>,
    now_ms: u64,
    iss: u32,
    draw: u32,
)
    ensures
        ({
            let (after, out) = crate::stack::packet_step(sessions, packet, now_ms, iss, draw);
            let none = Seq::<Seq<u8>>::empty();
            match crate::ip::parsed(packet) {
                Err(_) => after == sessions && out == none,
                Ok(h) => {
                    let n = h.header_len;
                    let seg = crate::tcp::arrival::segment_in(packet);
                    if crate::utils::internet_checksum(packet.take(n + 0)) != 0 {
                        after == sessions && out == none
                    } else if h.protocol == 1 {
                        after == sessions && out == (if crate::icmp::is_echo_request(packet, n + 0) {
                            seq![crate::icmp::echo_reply(packet, n + 0)]
                        } else {
                            none
                        })
                    } else if h.protocol == 17 {
                        after == sessions && out == (if crate::udp::is_datagram(packet, n + 0) {
                            seq![crate::udp::echo_reply(packet, n + 0)]
                        } else {
                            none
                        })
                    } else if h.protocol == 6 && seg is Some {
                        (after, out) == crate::stack::tcp_step(
                            sessions,
                            seg->0,
                            now_ms,
                            iss,
                            draw,
                        )
                    } else {
                        after == sessions && out == none
                    }
                },
            }
        }),
{
}

/// What a TCP segment is read as: the addresses and ports, the rest of the packet behind the header
/// as data, and the bytes between the fixed header and the data as options.
pub proof fn law_segment_is_read_from_its_packet(packet: Seq<u8>)
    ensures
        match crate::tcp::arrival::segment_in(packet) {
            Some(seg) => {
                let h = crate::ip::parsed(packet)->Ok_0;
                let l4 = packet.skip(h.header_len + 0);
                let th = crate::tcp::header::parsed(l4)->0;
                &&& crate::ip::parsed(packet) is Ok && h.protocol == 6
                &&& crate::tcp::header::parsed(l4) is Some && seg.th == th
                &&& seg.quad.remote == (h.src, th.src_port) && seg.quad.local == (
                    h.dst,
                    th.dst_port,
                )
                &&& seg.payload == l4.skip(th.data_offset + 0)
                &&& seg.opts == crate::tcp::options::parsed_options(
                    l4.subrange(20, th.data_offset + 0),
                )
            },
            None => match crate::ip::parsed(packet) {
                Ok(h) => h.protocol != 6 || crate::tcp::header::parsed(
                    packet.skip(h.header_len + 0),
                ) is None,
                Err(_) => true,
            },
        },
{
}

/// A segment for a served connection: the state machine's reply, then what the application's answer
/// lets out, then the FIN if it is time. The connection leaves the table if that closed it, and keeps
/// its place if not.
pub proof fn law_segment_is_served(
    sessions: Seq<Session>,
    i: int,
    seg: Segment,
    now_ms: u64,
    iss: u32,
    draw: u32,
)
    requires
        0 <= i < sessions.len(),
        sessions[i].quad == seg.quad,
        forall|j: int| 0 <= j < i ==> (#[trigger] sessions[j]).quad != seg.quad,
    ensures
        ({
            let (after, out) = crate::stack::tcp_step(sessions, seg, now_ms, iss, draw);
            let s = sessions[i];
            let (conn, reply) = crate::tcp::model::segment_step(
                s.conn,
                seg.th,
                seg.payload,
                seg.opts,
                now_ms,
                draw,
            );
            let answered = crate::stack::app_step(Session { conn, ..s });
            let (flushed, sent) = crate::tcp::model::transmit_step(answered.conn, now_ms);
            let (last, fin) = crate::stack::settled(
                Session { conn: flushed, ..answered },
                now_ms,
            );
            &&& out == one(reply) + sent + one(fin)
            &&& after == (if last.conn.tcb.state == State::Closed {
                sessions.take(i) + sessions.skip(i + 1)
            } else {
                sessions.take(i) + seq![last] + sessions.skip(i + 1)
            })
        }),
{
    let quads = crate::stack::session_quads(sessions);
    crate::table::lemma_index_found(quads, seg.quad);
    let k = crate::stack::session_index(sessions, seg.quad);
    if k < i {
        assert(quads[k] == sessions[k].quad);
    }
    if k > i {
        assert(quads[i] == sessions[i].quad);
    }
    let s = sessions[i];
    let (conn, reply) = crate::tcp::model::segment_step(
        s.conn,
        seg.th,
        seg.payload,
        seg.opts,
        now_ms,
        draw,
    );
    let answered = crate::stack::app_step(Session { conn, ..s });
    let (flushed, sent) = crate::tcp::model::transmit_step(answered.conn, now_ms);
    let (last, fin) = crate::stack::settled(Session { conn: flushed, ..answered }, now_ms);
    let out = crate::stack::tcp_step(sessions, seg, now_ms, iss, draw).1;
    assert(out =~= one(reply) + sent + one(fin));
    assert(sessions.remove(i) =~= sessions.take(i) + sessions.skip(i + 1));
    assert(sessions.update(i, last) =~= sessions.take(i) + seq![last] + sessions.skip(i + 1));
}

/// A SYN from an unknown peer opens a connection that runs BBR, has nothing to close, and is not
/// yet taken for an HTTP client; but for the controller it is the one that a listener would accept.
pub proof fn law_new_sessions(seg: Segment, iss: u32, draw: u32, now_ms: u64)
    ensures
        ({
            let (s, synack) = crate::stack::opened(seg, iss, draw, now_ms);
            let (stream, packet) = crate::socket::accepted_stream(seg, iss, draw, now_ms);
            &&& synack == packet
            &&& s.quad == seg.quad && s.http is None && !s.closing
            &&& s.conn == (crate::tcp::model::Conn { cong: s.conn.cong, ..stream.conn })
            &&& s.conn.cong is Bbr && stream.conn.cong is Cubic
            &&& s.conn.cong.window() == 5840
            &&& stream.quad == seg.quad && stream.rbuf.len() == 0
        }),
{
}

/// The application takes all that has arrived. It answers nothing once it is closing, or if nothing
/// came. The first bytes of a client decide whether it speaks HTTP, and it stays at that. An HTTP
/// client's bytes are added to what was left of the last ones and served; anyone else's come back.
pub proof fn law_application_answers(s: Session)
    ensures
        ({
            let a = crate::stack::app_step(s);
            let got = s.conn.recv_buf;
            let idle = crate::tcp::model::Conn { recv_buf: Seq::empty(), ..s.conn };
            &&& a.quad == s.quad && a.conn.recv_buf.len() == 0
            &&& a.conn == (crate::tcp::model::Conn { send_buf: a.conn.send_buf, ..idle })
            &&& got.len() == 0 || s.closing ==> a == (Session { conn: idle, ..s })
            &&& got.len() > 0 && !s.closing && s.http is None && !crate::http::sniffed(got)
                ==> a.http is None && !a.closing && a.conn.send_buf == s.conn.send_buf + got
            &&& got.len() > 0 && !s.closing && (s.http is Some || crate::http::sniffed(got)) ==> {
                let pending = if s.http is Some {
                    s.http->0
                } else {
                    Seq::empty()
                };
                a.http is Some && (a.conn, a.http->0, a.closing) == crate::stack::served(
                    idle,
                    pending + got,
                )
            }
        }),
{
    let got = s.conn.recv_buf;
    let idle = crate::tcp::model::Conn { recv_buf: Seq::empty(), ..s.conn };
    let pending = if s.http is Some {
        s.http->0
    } else {
        Seq::empty()
    };
    lemma_serving_only_writes(idle, pending + got);
}

proof fn lemma_serving_only_writes(conn: crate::tcp::model::Conn, buf: Seq<u8>)
    ensures
        ({
            let c = crate::stack::served(conn, buf).0;
            c == (crate::tcp::model::Conn { send_buf: c.send_buf, ..conn })
        }),
    decreases buf.len(),
{
    match crate::http::head_len(buf) {
        Some(n) => {
            if 4 <= n <= buf.len() {
                match crate::http::parsed_request(buf.take(n)) {
                    Some(req) => {
                        if req.keep_alive {
                            lemma_serving_only_writes(
                                crate::stack::wrote(conn, crate::http::response_bytes(req)),
                                buf.skip(n),
                            );
                        }
                    },
                    None => {},
                }
            }
        },
        None => {},
    }
}

/// A head that is still arriving is kept whole, and nothing is answered.
pub proof fn law_incomplete_heads_wait(conn: crate::tcp::model::Conn, buf: Seq<u8>)
    requires
        forall|i: int|
            0 <= i && i + 4 <= buf.len() ==> !(#[trigger] buf[i] == 13 && buf[i + 1] == 10 && buf[i
                + 2] == 13 && buf[i + 3] == 10),
    ensures
        crate::stack::served(conn, buf) == (conn, buf, false),
{
    crate::http::law_head_ends_at_first_blank_line(buf);
    match crate::http::head_len(buf) {
        Some(n) => {
            assert(crate::http::blank_line_at(buf, n - 4));
            assert(buf[n - 4] == 13);
        },
        None => {},
    }
}

/// A stream of keep-alive requests is answered one by one: after the responses to all of them, in
/// order, the rest is served as if it had come alone.
pub proof fn law_pipelined_requests_are_all_answered(
    conn: crate::tcp::model::Conn,
    heads: Seq<Seq<u8>>,
    rest: Seq<u8>,
)
    requires
        forall|i: int|
            0 <= i < heads.len() ==> {
                &&& crate::http::head_len(#[trigger] heads[i]) == Some(heads[i].len() + 0int)
                &&& crate::http::parsed_request(heads[i]) is Some
                &&& (crate::http::parsed_request(heads[i])->0).keep_alive
            },
    ensures
        ({
            let responses = heads.map_values(
                |h: Seq<u8>| crate::http::response_bytes(crate::http::parsed_request(h)->0),
            );
            crate::stack::served(conn, heads.flatten() + rest) == crate::stack::served(
                crate::tcp::model::Conn {
                    send_buf: conn.send_buf + responses.flatten(),
                    ..conn
                },
                rest,
            )
        }),
    decreases heads.len(),
{
    let reply = |h: Seq<u8>| crate::http::response_bytes(crate::http::parsed_request(h)->0);
    let responses = heads.map_values(reply);
    if heads.len() == 0 {
        assert(heads.flatten() + rest =~= rest);
        assert(conn.send_buf + responses.flatten() =~= conn.send_buf);
    } else {
        let more = heads.drop_first();
        assert(responses.drop_first() =~= more.map_values(reply));
        assert(heads.flatten() + rest =~= heads[0] + (more.flatten() + rest));
        crate::stack::law_requests_are_served_in_order(conn, heads[0], more.flatten() + rest);
        assert forall|i: int| 0 <= i < more.len() implies {
            &&& crate::http::head_len(#[trigger] more[i]) == Some(more[i].len() + 0int)
            &&& crate::http::parsed_request(more[i]) is Some
            &&& (crate::http::parsed_request(more[i])->0).keep_alive
        } by {
            assert(more[i] == heads[i + 1]);
        }
        let next = crate::stack::wrote(conn, reply(heads[0]));
        law_pipelined_requests_are_all_answered(next, more, rest);
        assert(responses[0] == reply(heads[0]));
        assert(next.send_buf + responses.drop_first().flatten() =~= conn.send_buf
            + responses.flatten());
    }
}

/// Our side closes when all that was written has left, if the application asked for it or the peer
/// has closed its half; until then nothing happens.
pub proof fn law_closing_waits_for_the_data(s: Session, now_ms: u64)
    ensures
        ({
            let (a, fin) = crate::stack::settled(s, now_ms);
            let due = (s.closing || s.conn.tcb.state == State::CloseWait) && s.conn.send_buf.len()
                == 0;
            &&& !due ==> a == s && fin is None
            &&& due ==> (a.conn, fin) == crate::tcp::model::closed_by_us(s.conn, now_ms)
                && !a.closing && a.quad == s.quad
            &&& due && s.closing ==> a.http is None
            &&& due && !s.closing ==> a.http == s.http
        }),
{
}

/// Transmission drives each connection as if it were alone: every session is flushed where it
/// stands, and the packets follow one another in the order of the table.
#[verifier::rlimit(40)]
pub proof fn law_transmission_drives_each_alone(sessions: Seq<Session>, now_ms: u64)
    ensures
        ({
            let (after, out) = crate::stack::transmit_all(sessions, now_ms);
            let each = sessions.map_values(
                |s: Session| crate::stack::session_flush(s, now_ms, Seq::empty()),
            );
            &&& after == each.map_values(|r: (Session, Seq<Seq<u8>>)| r.0)
            &&& out == each.map_values(|r: (Session, Seq<Seq<u8>>)| r.1).flatten()
        }),
    decreases sessions.len(),
{
    let flush = |s: Session| crate::stack::session_flush(s, now_ms, Seq::empty());
    let first = |r: (Session, Seq<Seq<u8>>)| r.0;
    let second = |r: (Session, Seq<Seq<u8>>)| r.1;
    let each = sessions.map_values(flush);
    let (after, out) = crate::stack::transmit_all(sessions, now_ms);
    if sessions.len() == 0 {
        assert(after =~= each.map_values(first));
        assert(out =~= each.map_values(second).flatten());
    } else {
        let short = sessions.drop_last();
        law_transmission_drives_each_alone(short, now_ms);
        let (rest, before) = crate::stack::transmit_all(short, now_ms);
        let (s, sent) = crate::stack::session_flush(sessions.last(), now_ms, Seq::empty());
        assert(crate::stack::session_flush(sessions.last(), now_ms, before) == (s, before + sent))
            by {
            let moved = crate::tcp::model::transmit_step(sessions.last().conn, now_ms);
            let end = crate::stack::settled(
                Session { conn: moved.0, ..sessions.last() },
                now_ms,
            );
            assert(crate::tcp::model::appended(before + moved.1, end.1) =~= before
                + crate::tcp::model::appended(Seq::<Seq<u8>>::empty() + moved.1, end.1));
        }
        assert(each.drop_last() =~= short.map_values(flush));
        assert(after =~= each.map_values(first));
        lemma_flatten_grows(short.map_values(flush).map_values(second), sent);
        assert(each.map_values(second) =~= short.map_values(flush).map_values(second).push(sent));
    }
}

proof fn lemma_flatten_grows(lists: Seq<Seq<Seq<u8>>>, more: Seq<Seq<u8>>)
    ensures
        lists.push(more).flatten() == lists.flatten() + more,
    decreases lists.len(),
{
    if lists.len() == 0 {
        assert(lists.push(more).drop_first() =~= lists);
        assert(lists.flatten() =~= Seq::<Seq<u8>>::empty());
        assert(lists.push(more).first() == more);
        assert(lists.push(more).flatten() =~= more + lists.flatten());
        assert(lists.flatten() + more =~= more);
    } else {
        assert(lists.push(more).drop_first() =~= lists.drop_first().push(more));
        lemma_flatten_grows(lists.drop_first(), more);
        assert(lists.push(more).flatten() =~= lists.flatten() + more);
    }
}

proof fn lemma_filter_grows<A>(list: Seq<A>, last: A, keep: spec_fn(A) -> bool)
    ensures
        list.push(last).filter(keep) == (if keep(last) {
            list.filter(keep).push(last)
        } else {
            list.filter(keep)
        }),
        Seq::<A>::empty().filter(keep) == Seq::<A>::empty(),
{
    reveal(Seq::filter);
    assert(list.push(last).drop_last() =~= list);
}

/// A tick drives each connection as if it were alone: the timers of every session run, the packets
/// follow one another in the order of the table, and those sessions stay that are not closed then.
#[verifier::rlimit(40)]
pub proof fn law_a_tick_drives_each_alone(sessions: Seq<Session>, now_ms: u64)
    ensures
        ({
            let (after, out) = crate::stack::tick_all(sessions, now_ms);
            let each = sessions.map_values(
                |s: Session|
                    (
                        Session { conn: crate::tcp::model::tick_step(s.conn, now_ms).0, ..s },
                        crate::tcp::model::tick_step(s.conn, now_ms).1,
                    ),
            );
            &&& after == each.map_values(|r: (Session, Seq<Seq<u8>>)| r.0).filter(
                |s: Session| s.conn.tcb.state != State::Closed,
            )
            &&& out == each.map_values(|r: (Session, Seq<Seq<u8>>)| r.1).flatten()
        }),
    decreases sessions.len(),
{
    let tick = |s: Session|
        (
            Session { conn: crate::tcp::model::tick_step(s.conn, now_ms).0, ..s },
            crate::tcp::model::tick_step(s.conn, now_ms).1,
        );
    let first = |r: (Session, Seq<Seq<u8>>)| r.0;
    let second = |r: (Session, Seq<Seq<u8>>)| r.1;
    let alive = |s: Session| s.conn.tcb.state != State::Closed;
    let each = sessions.map_values(tick);
    let (after, out) = crate::stack::tick_all(sessions, now_ms);
    if sessions.len() == 0 {
        assert(each.map_values(first) =~= Seq::<Session>::empty());
        assert(each.map_values(second) =~= Seq::<Seq<Seq<u8>>>::empty());
        lemma_filter_grows(each.map_values(first), tick(sessions[0]).0, alive);
    } else {
        let short = sessions.drop_last();
        law_a_tick_drives_each_alone(short, now_ms);
        let (moved, sent) = tick(sessions.last());
        let before = short.map_values(tick).map_values(first);
        lemma_filter_grows(before, moved, alive);
        assert(each.map_values(first) =~= before.push(moved));
        lemma_flatten_grows(short.map_values(tick).map_values(second), sent);
        assert(each.map_values(second) =~= short.map_values(tick).map_values(second).push(sent));
    }
}

/// A stream takes only what is addressed from its peer to it; anything else leaves it as it is,
/// without an answer.
pub proof fn law_streams_take_their_own(s: Stream, packet: Seq<u8>, now_ms: u64, draw: u32)
    ensures
        ({
            let (a, reply) = crate::socket::datagram_step(s, packet, now_ms, draw);
            let seg = crate::tcp::arrival::segment_in(packet);
            let own = seg is Some && (seg->0).quad.remote == s.quad.remote && (seg->0).quad.local
                == s.quad.local;
            &&& !own ==> a == s && reply is None
            &&& own ==> a.quad == s.quad && a.rbuf == s.rbuf && (a.conn, reply)
                == crate::tcp::model::segment_step(
                s.conn,
                (seg->0).th,
                (seg->0).payload,
                (seg->0).opts,
                now_ms,
                draw,
            )
        }),
{
}

/// A poll fires the timers first, then takes in the datagrams one after the other, then sends new
/// data; the packets leave in this order. Taking in one more datagram comes after all before it.
pub proof fn law_poll_in_order(
    s: Stream,
    inbox: Seq<Seq<u8>>,
    packet: Seq<u8>,
    now_ms: u64,
    draws: Seq<u32>,
    out: Seq<Seq<u8>>,
)
    ensures
        ({
            let none = Seq::<Seq<u8>>::empty();
            let ticked = crate::tcp::model::tick_step(s.conn, now_ms);
            let read = crate::socket::inbox_step(
                Stream { conn: ticked.0, ..s },
                inbox,
                now_ms,
                draws,
                none,
            );
            let sent = crate::tcp::model::transmit_step(read.0.conn, now_ms);
            crate::socket::poll_step(s, inbox, now_ms, draws) == (
                Stream { conn: sent.0, ..read.0 },
                ticked.1 + read.1 + sent.1,
            )
        }),
        crate::socket::inbox_step(s, Seq::empty(), now_ms, draws, out) == (s, out),
        ({
            let read = crate::socket::inbox_step(s, inbox, now_ms, draws, out);
            let next = crate::socket::datagram_step(
                read.0,
                packet,
                now_ms,
                draws[inbox.len() + 0int],
            );
            crate::socket::inbox_step(s, inbox.push(packet), now_ms, draws, out) == (
                next.0,
                read.1 + one(next.1),
            )
        }),
{
    let ticked = crate::tcp::model::tick_step(s.conn, now_ms);
    lemma_inbox_appends(Stream { conn: ticked.0, ..s }, inbox, now_ms, draws, ticked.1);
    let more = inbox.push(packet);
    assert(more.drop_last() =~= inbox);
    assert(more.last() == packet);
    let read = crate::socket::inbox_step(s, inbox, now_ms, draws, out);
    let next = crate::socket::datagram_step(read.0, packet, now_ms, draws[inbox.len() + 0int]);
    assert(crate::tcp::model::appended(read.1, next.1) =~= read.1 + one(next.1));
}

proof fn lemma_inbox_appends(
    s: Stream,
    inbox: Seq<Seq<u8>>,
    now_ms: u64,
    draws: Seq<u32>,
    out: Seq<Seq<u8>>,
)
    ensures
        ({
            let none = Seq::<Seq<u8>>::empty();
            let read = crate::socket::inbox_step(s, inbox, now_ms, draws, none);
            crate::socket::inbox_step(s, inbox, now_ms, draws, out) == (read.0, out + read.1)
        }),
    decreases inbox.len(),
{
    let none = Seq::<Seq<u8>>::empty();
    if inbox.len() == 0 {
        assert(out + none =~= out);
    } else {
        lemma_inbox_appends(s, inbox.drop_last(), now_ms, draws, out);
        let before = crate::socket::inbox_step(s, inbox.drop_last(), now_ms, draws, none);
        let next = crate::socket::datagram_step(
            before.0,
            inbox.last(),
            now_ms,
            draws[inbox.len() - 1],
        );
        assert(crate::tcp::model::appended(out + before.1, next.1) =~= out
            + crate::tcp::model::appended(before.1, next.1));
    }
}

/// A server takes what is addressed to it. A segment of one of its streams changes that stream
/// alone; a SYN of none adds a stream at the end and is answered with its SYN-ACK; any other is
/// reset. What is addressed elsewhere is ignored.
pub proof fn law_server_serves_its_endpoint(
    local: Endpoint,
    streams: Seq<Stream>,
    packet: Seq<u8>,
    now_ms: u64,
    iss: u32,
    draw: u32,
    i: int,
)
    requires
        0 <= i <= streams.len(),
        crate::tcp::arrival::segment_in(packet) is Some,
        i < streams.len() ==> streams[i].quad == (crate::tcp::arrival::segment_in(packet)->0).quad,
        forall|j: int|
            0 <= j < i ==> (#[trigger] streams[j]).quad != (crate::tcp::arrival::segment_in(
                packet,
            )->0).quad,
    ensures
        ({
            let seg = crate::tcp::arrival::segment_in(packet)->0;
            let (after, reply) = crate::socket::server_step(
                local,
                streams,
                packet,
                now_ms,
                iss,
                draw,
            );
            let next = crate::socket::datagram_step(streams[i], packet, now_ms, draw);
            let new = crate::socket::accepted_stream(seg, iss, draw, now_ms);
            if seg.quad.local != local {
                after == streams && reply is None
            } else if i < streams.len() {
                after == streams.take(i) + seq![next.0] + streams.skip(i + 1) && reply == next.1
            } else if seg.th.flags & 0x02u8 != 0 {
                after == streams.push(new.0) && reply == Some(new.1)
            } else {
                after == streams && reply == Some(
                    crate::tcp::packet::rst_bytes(
                        seg.quad.remote.0,
                        seg.quad.local.0,
                        seg.th,
                        seg.payload.len() + 0int,
                    ),
                )
            }
        }),
{
    let seg = crate::tcp::arrival::segment_in(packet)->0;
    let quads = crate::socket::stream_quads(streams);
    crate::table::lemma_index_found(quads, seg.quad);
    let k = crate::socket::stream_index(streams, seg.quad);
    if k < i {
        assert(quads[k] == streams[k].quad);
    }
    if k > i {
        assert(quads[i] == streams[i].quad);
    }
    if i < streams.len() {
        let next = crate::socket::datagram_step(streams[i], packet, now_ms, draw).0;
        assert(streams.update(i, next) =~= streams.take(i) + seq![next] + streams.skip(i + 1));
    }
}

/// A pump of one stream: its timers, then new data, and the packets in this order.
pub proof fn law_a_pump_fires_timers_first(s: Stream, now_ms: u64)
    ensures
        ({
            let ticked = crate::tcp::model::tick_step(s.conn, now_ms);
            let sent = crate::tcp::model::transmit_step(ticked.0, now_ms);
            crate::socket::stream_pump(s, now_ms) == (
                Stream { conn: sent.0, ..s },
                ticked.1 + sent.1,
            )
        }),
{
}

/// A pump drives each stream as if it were alone, in the order of the table; those streams stay that
/// are not closed then.
#[verifier::rlimit(40)]
pub proof fn law_a_pump_drives_each_alone(streams: Seq<Stream>, now_ms: u64)
    ensures
        ({
            let (after, out) = crate::socket::pump_step(streams, now_ms);
            let each = streams.map_values(|s: Stream| crate::socket::stream_pump(s, now_ms));
            &&& after == each.map_values(|r: (Stream, Seq<Seq<u8>>)| r.0).filter(
                |s: Stream| s.conn.tcb.state != State::Closed,
            )
            &&& out == each.map_values(|r: (Stream, Seq<Seq<u8>>)| r.1).flatten()
        }),
    decreases streams.len(),
{
    let pump = |s: Stream| crate::socket::stream_pump(s, now_ms);
    let first = |r: (Stream, Seq<Seq<u8>>)| r.0;
    let second = |r: (Stream, Seq<Seq<u8>>)| r.1;
    let alive = |s: Stream| s.conn.tcb.state != State::Closed;
    let each = streams.map_values(pump);
    let (after, out) = crate::socket::pump_step(streams, now_ms);
    if streams.len() == 0 {
        assert(each.map_values(first) =~= Seq::<Stream>::empty());
        assert(each.map_values(second) =~= Seq::<Seq<Seq<u8>>>::empty());
        lemma_filter_grows(each.map_values(first), pump(streams[0]).0, alive);
    } else {
        let short = streams.drop_last();
        law_a_pump_drives_each_alone(short, now_ms);
        let (moved, sent) = pump(streams.last());
        let before = short.map_values(pump).map_values(first);
        lemma_filter_grows(before, moved, alive);
        assert(each.map_values(first) =~= before.push(moved));
        lemma_flatten_grows(short.map_values(pump).map_values(second), sent);
        assert(each.map_values(second) =~= short.map_values(pump).map_values(second).push(sent));
    }
}

/// Nothing is lost between reads: what short reads left over comes first, then what has been
/// delivered since; handing it over changes nothing else, and doing so twice is doing it once.
pub proof fn law_reads_go_on_where_they_stopped(s: Stream)
    ensures
        ({
            let a = crate::socket::drained(s);
            &&& a.rbuf == s.rbuf + s.conn.recv_buf && a.conn.recv_buf.len() == 0
            &&& a.quad == s.quad
            &&& a.conn == (crate::tcp::model::Conn { recv_buf: Seq::empty(), ..s.conn })
            &&& crate::socket::drained(a) == a
        }),
{
    let a = crate::socket::drained(s);
    assert(a.rbuf + a.conn.recv_buf =~= a.rbuf);
}

/// A listener accepts the datagrams that hold a SYN for its own address and port, and no others, and
/// only as long as it has accepted none.
pub proof fn law_listener_accepts(
    local: Endpoint,
    taken: bool,
    packet: Seq<u8>,
    now_ms: u64,
    iss: u32,
    draw: u32,
)
    ensures
        ({
            let seg = crate::tcp::arrival::segment_in(packet);
            let ours = seg is Some && (seg->0).quad.local.0 == local.0 && (seg->0).quad.local.1
                == local.1 && (seg->0).th.flags & 0x02u8 != 0;
            let (after, given) = crate::socket::listen_step(
                local,
                taken,
                packet,
                now_ms,
                iss,
                draw,
            );
            &&& crate::socket::syn_for(local, packet) <==> ours
            &&& after == (taken || ours)
            &&& given == (if ours && !taken {
                Some(crate::socket::accepted_stream(seg->0, iss, draw, now_ms))
            } else {
                None
            })
        }),
{
}

} // verus!
