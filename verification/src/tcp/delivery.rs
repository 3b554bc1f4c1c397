//! What the receiver makes of a whole run of segments: however the peer's stream is cut and in
//! whatever order the pieces come, the application reads the stream.
use vstd::prelude::*;

use crate::reassembly::MAX_AHEAD;
use crate::tcp::header::{State, ACK, FIN, RST, SYN};
use crate::tcp::laws::Event;
use crate::tcp::model::{Conn, Tcb, RECV_WINDOW};

verus! {

/// `c` after segments arrived one after the other, the application reading all there is after
/// each; everything it read; and the answer to the last segment.
pub open spec fn read_along(c: Conn, events: Seq<Event>) -> (Conn, Seq<u8>, Option<Seq<u8>>)
    decreases events.len(),
{
    if events.len() == 0 {
        (c, Seq::empty(), None)
    } else {
        let (c0, read, _) = read_along(c, events.drop_last());
        let e = events.last();
        let (c1, reply) = crate::tcp::model::segment_step(
            c0,
            e.th,
            e.payload,
            e.opts,
            e.now_ms,
            e.draw,
        );
        (Conn { recv_buf: Seq::empty(), ..c1 }, read + c1.recv_buf, reply)
    }
}

/// An open end that expects the stream's first byte next: nothing is unread, nothing is out of
/// order, no FIN is known, and it is not recovering from a loss.
pub open spec fn expects(c: Conn, stream: Seq<u8>) -> bool {
    &&& c.wf() && receives(c)
    &&& c.reasm.frags == Map::<u32, Seq<u8>>::empty()
    &&& crate::seq::distance(c.reasm.base, c.tcb.rcv_nxt) + stream.len() < 0x1_0000_0000
}

/// An open end with nothing unread and no FIN known, not recovering from a loss.
pub open spec fn receives(c: Conn) -> bool {
    &&& c.tcb.state == State::Established
    &&& c.recv_buf == Seq::<u8>::empty()
    &&& c.tcb.pending_fin is None
    &&& !c.cong.in_recovery()
    &&& c.tcb.rcv_wnd == RECV_WINDOW
}

/// A plain segment that `c` acts upon: no SYN, RST or FIN, a timestamp that is not stale, and an
/// acknowledgement, if any, that is acceptable.
pub open spec fn is_plain(c: Conn, e: Event) -> bool {
    &&& e.th.flags & SYN == 0 && e.th.flags & RST == 0 && e.th.flags & FIN == 0
    &&& !crate::tcp::model::stale(c.tcb, e.opts)
    &&& e.th.flags & ACK != 0 ==> crate::tcp::model::ack_acceptable(c.tcb, e.th)
}

/// The segment carries the given piece of the stream, whose first byte has the number `first`.
pub open spec fn carries_piece(e: Event, first: u32, stream: Seq<u8>, piece: (int, int)) -> bool {
    &&& e.th.seq == crate::seq::advance(first, piece.0)
    &&& e.payload == stream.subrange(piece.0, piece.1)
}

/// The segments bring the pieces of the stream, one each: plain segments, each beginning at most
/// `MAX_AHEAD` past what is expected when it comes.
pub open spec fn brings(c: Conn, stream: Seq<u8>, pieces: Seq<(int, int)>, events: Seq<Event>) -> bool {
    &&& events.len() == pieces.len()
    &&& crate::reassembly::is_cut(pieces, stream.len() as int)
    &&& forall|k: int|
        0 <= k < events.len() ==> is_plain(
            read_along(c, events.take(k)).0,
            #[trigger] events[k],
        ) && carries_piece(events[k], c.tcb.rcv_nxt, stream, pieces[k]) && pieces[k].0
            <= read_along(c, events.take(k)).1.len() + MAX_AHEAD
}

/// What was read is the longest prefix of the stream wholly arrived, and the answer to the last
/// segment is a bare ACK of exactly that much, with our own window.
pub open spec fn read_right(
    c: Conn,
    stream: Seq<u8>,
    pieces: Seq<(int, int)>,
    events: Seq<Event>,
) -> bool {
    let (c1, read, reply) = read_along(c, events);
    &&& crate::reassembly::is_longest_prefix(pieces, stream.len() as int, read.len() as int)
    &&& read == stream.take(read.len() as int)
    &&& c1.tcb.rcv_nxt == crate::seq::advance(c.tcb.rcv_nxt, read.len() as int)
    &&& c1.tcb.rcv_wnd == RECV_WINDOW
    &&& events.len() > 0 ==> reply is Some && acknowledges(reply->0, c1.tcb)
}

/// A bare ACK with whatever options fit is read back as what it says.
proof fn lemma_ack_arrives(t: Tcb, options: Seq<u8>)
    requires
        crate::tcp::packet::options_fit(options),
    ensures
        acknowledges(
            crate::tcp::model::segment_with(t, t.nxt, t.rcv_nxt, ACK, options, Seq::empty()),
            t,
        ),
{
    crate::tcp::arrival::law_packet_reads_back(
        t.local,
        t.remote,
        t.nxt,
        t.rcv_nxt,
        ACK,
        t.rcv_wnd,
        options,
        Seq::empty(),
    );
}

/// `packet` is a bare ACK of the state `t`, with our own window.
pub open spec fn acknowledges(packet: Seq<u8>, t: Tcb) -> bool {
    match crate::tcp::arrival::segment_in(packet) {
        Some(seg) => {
            &&& seg.th.flags == ACK && seg.payload == Seq::<u8>::empty()
            &&& seg.th.ack == t.rcv_nxt && seg.th.seq == t.nxt
            &&& seg.th.window == t.rcv_wnd
        },
        None => false,
    }
}

/// The options of an ACK of data fit.
proof fn lemma_ack_options_fit(c: Conn)
    ensures
        crate::tcp::packet::options_fit(crate::tcp::model::ack_options(c)),
{
    crate::tcp::options::lemma_sack_bytes_len(crate::reassembly::sack_ranges(c.reasm));
    assert(crate::tcp::options::ts_bytes(c.tcb.ts_val, c.tcb.ts_recent).len() == 12);
}

/// A plain segment with data goes through to the reassembly buffer, and its answer is the ACK of
/// what that gave.
proof fn lemma_data_is_absorbed(c: Conn, e: Event)
    requires
        receives(c),
        is_plain(c, e),
        e.payload.len() > 0,
    ensures
        ({
            let (c1, reply) = crate::tcp::model::segment_step(
                c,
                e.th,
                e.payload,
                e.opts,
                e.now_ms,
                e.draw,
            );
            let out = crate::reassembly::delivered(c.reasm, e.th.seq, e.payload, c.tcb.rcv_nxt);
            &&& reply == Some(crate::tcp::model::data_ack(c1))
            &&& c1.recv_buf == out
            &&& c1.reasm == crate::reassembly::received(
                c.reasm,
                e.th.seq,
                e.payload,
                c.tcb.rcv_nxt,
            )
            &&& c1.tcb.rcv_nxt == crate::seq::advance(c.tcb.rcv_nxt, out.len() as int)
            &&& receives((Conn { recv_buf: Seq::empty(), ..c1 }))
        }),
{
    let c0 = Conn { tcb: crate::tcp::model::touched(c.tcb, e.now_ms), ..c };
    let c1 = Conn { tcb: crate::tcp::model::window_updated(c0.tcb, e.th, e.opts), ..c0 };
    let (c2, reply) = if e.th.flags & ACK == 0 {
        (c1, None)
    } else {
        crate::tcp::model::ack_step(
            c1,
            e.th,
            e.payload.len() as int,
            e.opts,
            c0.tcb.snd_wnd,
            e.now_ms,
        )
    };
    assert(crate::tcp::laws::same_receive_side(c2, c));
    assert(receives(c2) && reply is None);
    let out = crate::reassembly::delivered(c.reasm, e.th.seq, e.payload, c.tcb.rcv_nxt);
    assert(Seq::<u8>::empty() + out =~= out);
    let c3 = crate::tcp::model::absorbed(c2, e.th.seq, e.payload);
    assert(crate::tcp::model::segment_step(c, e.th, e.payload, e.opts, e.now_ms, e.draw)
        == crate::tcp::model::data_step(c2, e.th, e.payload));
    assert(crate::tcp::model::data_step(c2, e.th, e.payload) == (
        c3,
        Some(crate::tcp::model::data_ack(c3)),
    ));
}

/// The beginning of a run is a run.
proof fn lemma_shorter_run(
    c: Conn,
    stream: Seq<u8>,
    pieces: Seq<(int, int)>,
    events: Seq<Event>,
    n: int,
)
    requires
        brings(c, stream, pieces, events),
        0 <= n <= events.len(),
    ensures
        brings(c, stream, pieces.take(n), events.take(n)),
{
    let short = events.take(n);
    let few = pieces.take(n);
    assert forall|i: int| 0 <= i < n implies few[i] == #[trigger] pieces[i] by {}
    assert(crate::reassembly::is_cut(few, stream.len() as int)) by {
        assert forall|i: int| 0 <= i < few.len() implies 0 <= (#[trigger] few[i]).0 < few[i].1
            <= stream.len() by {
            assert(few[i] == pieces[i]);
        }
        assert forall|i: int, j: int| 0 <= i < j < few.len() implies (#[trigger] few[i]).1 <= (
        #[trigger] few[j]).0 || few[j].1 <= few[i].0 by {
            assert(few[i] == pieces[i] && few[j] == pieces[j]);
        }
    }
    assert forall|k: int| 0 <= k < short.len() implies is_plain(
        read_along(c, short.take(k)).0,
        #[trigger] short[k],
    ) && carries_piece(short[k], c.tcb.rcv_nxt, stream, few[k]) && few[k].0 <= read_along(
        c,
        short.take(k),
    ).1.len() + MAX_AHEAD by {
        assert(short[k] == events[k]);
        assert(short.take(k) =~= events.take(k));
    }
}

/// Where a run that began at `c` stands: `read` is the longest prefix received, and the buffer of
/// `c1` holds the rest of the pieces.
#[verifier::opaque]
spec fn stands(c: Conn, c1: Conn, read: Seq<u8>, stream: Seq<u8>, pieces: Seq<(int, int)>) -> bool {
    let start = crate::seq::distance(c.reasm.base, c.tcb.rcv_nxt) as u32;
    &&& receives(c1)
    &&& c1.reasm.base == c.reasm.base
    &&& c1.tcb.rcv_nxt == crate::seq::advance(c.reasm.base, start + read.len())
    &&& read == stream.take(read.len() as int)
    &&& crate::reassembly::gathered(c1.reasm.frags, start, stream, pieces, read.len() as int)
}

/// One more segment.
#[verifier::spinoff_prover]
proof fn lemma_segment_is_read(
    c: Conn,
    c0: Conn,
    read: Seq<u8>,
    stream: Seq<u8>,
    pieces: Seq<(int, int)>,
    piece: (int, int),
    e: Event,
)
    requires
        expects(c, stream),
        stands(c, c0, read, stream, pieces),
        crate::reassembly::is_cut(pieces.push(piece), stream.len() as int),
        is_plain(c0, e),
        carries_piece(e, c.tcb.rcv_nxt, stream, piece),
        piece.0 <= read.len() + MAX_AHEAD,
    ensures
        ({
            let (c1, reply) = crate::tcp::model::segment_step(
                c0,
                e.th,
                e.payload,
                e.opts,
                e.now_ms,
                e.draw,
            );
            &&& stands(
                c,
                (Conn { recv_buf: Seq::empty(), ..c1 }),
                read + c1.recv_buf,
                stream,
                pieces.push(piece),
            )
            &&& reply is Some && acknowledges(reply->0, c1.tcb)
        }),
{
    reveal(stands);
    let base = c.reasm.base;
    let first = c.tcb.rcv_nxt;
    let start = crate::seq::distance(base, first) as u32;
    let at = read.len() as int;
    crate::seq::law_distance_advance(base, first, 0);
    crate::seq::law_advance_adds_up(base, start as int, piece.0);
    assert(e.th.seq == crate::seq::advance(base, start + piece.0));
    assert(pieces.push(piece)[pieces.len() as int] == piece);
    lemma_data_is_absorbed(c0, e);
    crate::reassembly::lemma_piece_gathers(c0.reasm, start, stream, pieces, piece, at);
    let (c1, reply) = crate::tcp::model::segment_step(
        c0,
        e.th,
        e.payload,
        e.opts,
        e.now_ms,
        e.draw,
    );
    crate::seq::law_advance_adds_up(base, start + at, c1.recv_buf.len() as int);
    assert(read + c1.recv_buf =~= stream.take(at + c1.recv_buf.len()));
    lemma_ack_options_fit(c1);
    lemma_ack_arrives(c1.tcb, crate::tcp::model::ack_options(c1));
}

/// What `stands` says of what was read.
proof fn lemma_standing_is_right(
    c: Conn,
    c1: Conn,
    read: Seq<u8>,
    stream: Seq<u8>,
    pieces: Seq<(int, int)>,
)
    requires
        expects(c, stream),
        stands(c, c1, read, stream, pieces),
    ensures
        crate::reassembly::is_longest_prefix(pieces, stream.len() as int, read.len() as int),
        read == stream.take(read.len() as int),
        c1.tcb.rcv_nxt == crate::seq::advance(c.tcb.rcv_nxt, read.len() as int),
        c1.tcb.rcv_wnd == RECV_WINDOW,
{
    reveal(stands);
    let base = c.reasm.base;
    let start = crate::seq::distance(base, c.tcb.rcv_nxt);
    crate::seq::law_distance_advance(base, c.tcb.rcv_nxt, 0);
    crate::seq::law_advance_adds_up(base, start, read.len() as int);
}

#[verifier::spinoff_prover]
proof fn lemma_run_is_read(c: Conn, stream: Seq<u8>, pieces: Seq<(int, int)>, events: Seq<Event>)
    requires
        expects(c, stream),
        brings(c, stream, pieces, events),
    ensures
        stands(c, read_along(c, events).0, read_along(c, events).1, stream, pieces),
        events.len() > 0 ==> read_along(c, events).2 is Some && acknowledges(
            read_along(c, events).2->0,
            read_along(c, events).0.tcb,
        ),
        read_right(c, stream, pieces, events),
    decreases events.len(),
{
    let (c1, read, reply) = read_along(c, events);
    if events.len() == 0 {
        reveal(stands);
        crate::seq::law_distance_advance(c.reasm.base, c.tcb.rcv_nxt, 0);
        assert(!crate::reassembly::reported(pieces, 0));
        assert(read =~= stream.take(0));
    } else {
        let n = events.len() - 1;
        let e = events.last();
        let piece = pieces.last();
        let few = pieces.drop_last();
        assert(events[n] == e && pieces[n] == piece);
        assert(events.take(n) =~= events.drop_last());
        assert(pieces.take(n) =~= few && few.push(piece) =~= pieces);
        lemma_shorter_run(c, stream, pieces, events, n);
        lemma_run_is_read(c, stream, few, events.drop_last());
        let (c0, read0, _) = read_along(c, events.drop_last());
        lemma_segment_is_read(c, c0, read0, stream, few, piece, e);
    }
    lemma_standing_is_right(c, c1, read, stream, pieces);
}

/// The receiver over a whole run. The peer's stream is cut into pieces that arrive in any order:
/// after each segment, what the application has read is the longest prefix of the stream wholly
/// arrived, byte for byte, and the answer acknowledges exactly that much and offers our own
/// window. Once every piece is in, the application has read the stream.
pub proof fn law_any_order_is_read_as_the_stream(
    c: Conn,
    stream: Seq<u8>,
    pieces: Seq<(int, int)>,
    events: Seq<Event>,
)
    requires
        expects(c, stream),
        brings(c, stream, pieces, events),
    ensures
        forall|k: int|
            0 <= k <= events.len() ==> read_right(
                c,
                stream,
                pieces.take(k),
                #[trigger] events.take(k),
            ),
        (forall|x: int|
            0 <= x < stream.len() ==> #[trigger] crate::reassembly::reported(pieces, x))
            ==> read_along(c, events).1 == stream,
{
    assert forall|k: int| 0 <= k <= events.len() implies read_right(
        c,
        stream,
        pieces.take(k),
        #[trigger] events.take(k),
    ) by {
        lemma_shorter_run(c, stream, pieces, events, k);
        lemma_run_is_read(c, stream, pieces.take(k), events.take(k));
    }
    lemma_run_is_read(c, stream, pieces, events);
    let n = read_along(c, events).1.len() as int;
    if forall|x: int|
        0 <= x < stream.len() ==> #[trigger] crate::reassembly::reported(pieces, x) {
        if n < stream.len() {
            assert(crate::reassembly::reported(pieces, n));
        }
        assert(stream.take(n) =~= stream);
    }
}

} // verus!
