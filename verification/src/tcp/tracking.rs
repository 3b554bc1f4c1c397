//! Nothing sent is forgotten: what is unacknowledged is in the retransmission queue, always.
use vstd::prelude::*;

use crate::tcp::header::{State, TcpHeader, ACK, FIN, PSH};
use crate::tcp::model::{Conn, Tcb};
use crate::tcp::packet::Endpoint;

verus! {

/// The segments cover everything from `una` to `nxt` without gap or overlap, in order; only the
/// first may begin before `una`.
pub open spec fn tiles(segments: Seq<crate::tcp::retx::Segment>, una: u32, nxt: u32) -> bool
    decreases segments.len(),
{
    if segments.len() == 0 {
        una == nxt
    } else {
        let last = segments.last();
        let len = crate::seq::distance(last.start_seq, nxt);
        &&& last.end_seq == nxt
        &&& 0 < len < 0x8000_0000
        &&& 0 < crate::seq::distance(una, nxt) < 0x8000_0000
        &&& if crate::seq::distance(una, nxt) <= len {
            segments.len() == 1
        } else {
            tiles(segments.drop_last(), una, last.start_seq)
        }
    }
}

/// All that `c` has sent and not seen acknowledged is queued for retransmission. Once our FIN is
/// acknowledged nothing is left; a closed connection owes nothing.
pub open spec fn accounted(c: Conn) -> bool {
    match c.tcb.state {
        State::FinWait2 | State::TimeWait => c.retx.segments.len() == 0,
        State::Closed => true,
        _ => tiles(c.retx.segments, c.tcb.una, c.tcb.nxt),
    }
}

/// Only the edges count.
proof fn lemma_same_edges_tile(
    a: Seq<crate::tcp::retx::Segment>,
    b: Seq<crate::tcp::retx::Segment>,
    una: u32,
    nxt: u32,
)
    requires
        a.len() == b.len(),
        forall|i: int|
            0 <= i < a.len() ==> (#[trigger] a[i]).start_seq == b[i].start_seq && a[i].end_seq
                == b[i].end_seq,
    ensures
        tiles(a, una, nxt) == tiles(b, una, nxt),
    decreases a.len(),
{
    if a.len() > 0 {
        let x = a.drop_last();
        let y = b.drop_last();
        assert forall|i: int| 0 <= i < x.len() implies (#[trigger] x[i]).start_seq
            == y[i].start_seq && x[i].end_seq == y[i].end_seq by {
            assert(x[i] == a[i]);
        }
        assert(a.last() == a[a.len() - 1]);
        lemma_same_edges_tile(x, y, una, a.last().start_seq);
    }
}

/// A segment sent at `nxt` extends the cover.
proof fn lemma_recording_tiles(
    segments: Seq<crate::tcp::retx::Segment>,
    s: crate::tcp::retx::Segment,
    una: u32,
    nxt: u32,
    n: int,
)
    requires
        tiles(segments, una, nxt),
        s.start_seq == nxt,
        s.end_seq == crate::seq::advance(nxt, n),
        0 < n,
        crate::seq::distance(una, nxt) + n < 0x8000_0000,
    ensures
        tiles(segments.push(s), una, crate::seq::advance(nxt, n)),
{
    assert(segments.push(s).drop_last() =~= segments);
}

/// An acknowledgement at or past the end of the cover drops all of it.
proof fn lemma_past_the_end_drops_all(
    segments: Seq<crate::tcp::retx::Segment>,
    una: u32,
    nxt: u32,
    ack: u32,
)
    requires
        tiles(segments, una, nxt),
        crate::seq::distance(una, nxt) + crate::seq::distance(nxt, ack) < 0x8000_0000,
    ensures
        crate::tcp::retx::still_unacked(segments, ack).len() == 0,
    decreases segments.len(),
{
    if segments.len() > 0 {
        let last = segments.last();
        let len = crate::seq::distance(last.start_seq, nxt);
        if crate::seq::distance(una, nxt) <= len {
            assert(crate::tcp::retx::still_unacked(segments.drop_last(), ack).len() == 0);
        } else {
            lemma_past_the_end_drops_all(segments.drop_last(), una, last.start_seq, ack);
        }
    }
}

/// An acknowledgement inside the cover leaves a cover of what follows it.
proof fn lemma_acking_tiles(
    segments: Seq<crate::tcp::retx::Segment>,
    una: u32,
    nxt: u32,
    ack: u32,
)
    requires
        tiles(segments, una, nxt),
        crate::seq::distance(una, nxt) < 0x8000_0000,
        crate::seq::distance(una, ack) <= crate::seq::distance(una, nxt),
    ensures
        tiles(crate::tcp::retx::still_unacked(segments, ack), ack, nxt),
    decreases segments.len(),
{
    if segments.len() > 0 {
        let last = segments.last();
        let short = segments.drop_last();
        let len = crate::seq::distance(last.start_seq, nxt);
        let rest = crate::tcp::retx::still_unacked(short, ack);
        if ack == nxt {
            lemma_past_the_end_drops_all(segments, una, nxt, ack);
        } else if crate::seq::distance(una, nxt) <= len {
            assert(short.len() == 0);
            assert(rest.push(last).drop_last() =~= rest);
        } else if crate::seq::distance(ack, nxt) <= len {
            lemma_past_the_end_drops_all(short, una, last.start_seq, ack);
            assert(rest.push(last).drop_last() =~= rest);
        } else {
            lemma_acking_tiles(short, una, last.start_seq, ack);
            assert(rest.push(last).drop_last() =~= rest);
        }
    }
}

/// Every unacknowledged sequence number lies in a queued segment.
pub proof fn law_unacknowledged_is_queued(
    segments: Seq<crate::tcp::retx::Segment>,
    una: u32,
    nxt: u32,
    x: u32,
)
    requires
        tiles(segments, una, nxt),
        crate::seq::distance(una, x) < crate::seq::distance(una, nxt),
    ensures
        exists|i: int|
            0 <= i < segments.len() && crate::seq::distance((#[trigger] segments[i]).start_seq, x)
                < crate::seq::distance(segments[i].start_seq, segments[i].end_seq),
    decreases segments.len(),
{
    let last = segments.last();
    let n = segments.len() - 1;
    let len = crate::seq::distance(last.start_seq, nxt);
    if crate::seq::distance(una, nxt) <= len || crate::seq::distance(una, x)
        >= crate::seq::distance(una, last.start_seq) {
        assert(segments[n] == last);
        assert(crate::seq::distance(segments[n].start_seq, x) < len);
    } else {
        let short = segments.drop_last();
        law_unacknowledged_is_queued(short, una, last.start_seq, x);
        let i = choose|i: int|
            0 <= i < short.len() && crate::seq::distance((#[trigger] short[i]).start_seq, x)
                < crate::seq::distance(short[i].start_seq, short[i].end_seq);
        assert(segments[i] == short[i]);
    }
}

/// New connections account for their SYN or SYN-ACK.
pub proof fn law_opening_accounts(
    local: Endpoint,
    remote: Endpoint,
    th: TcpHeader,
    opts: crate::tcp::options::OptionSet,
    iss: u32,
    peer_isn: u32,
    send_mss: u16,
    draw: u32,
    now_ms: u64,
)
    ensures
        accounted(crate::tcp::model::connecting(local, remote, iss, draw, now_ms).0),
        accounted(
            crate::tcp::model::accepted(remote.0, local.0, th, opts, iss, draw, now_ms).0,
        ),
        accounted(
            crate::tcp::model::from_cookie(
                local,
                remote,
                peer_isn,
                iss,
                send_mss,
                draw,
                now_ms,
            ),
        ),
{
    let nxt = iss.wrapping_add(1);
    assert(crate::seq::distance(iss, nxt) == 1);
}

/// Sending the first `n` bytes of the buffer accounts for them.
proof fn lemma_sending_accounts(c: Conn, n: int, flags: u8, now_ms: u64)
    requires
        accounted(c),
        crate::tcp::model::sends_data(c.tcb.state),
        0 < n <= c.send_buf.len(),
        crate::tcp::model::flight_size(c.tcb) + n < 0x8000_0000,
    ensures
        ({
            let next = crate::tcp::model::sent(c, n, flags, now_ms);
            &&& accounted(next)
            &&& crate::tcp::model::flight_size(next.tcb) == crate::tcp::model::flight_size(c.tcb)
                + n
            &&& next.tcb.state == c.tcb.state
            &&& next.tcb.una == c.tcb.una
            &&& next.send_buf.len() == c.send_buf.len() - n
        }),
{
    let next = crate::tcp::model::sent(c, n, flags, now_ms);
    lemma_recording_tiles(
        c.retx.segments,
        next.retx.segments.last(),
        c.tcb.una,
        c.tcb.nxt,
        n,
    );
    assert(next.retx.segments.drop_last() =~= c.retx.segments);
    assert(next.retx.segments =~= c.retx.segments.push(next.retx.segments.last()));
}

proof fn lemma_flush_accounts(c: Conn, now_ms: u64, out: Seq<Seq<u8>>)
    requires
        accounted(c),
        crate::tcp::model::sends_data(c.tcb.state),
        crate::tcp::model::flight_size(c.tcb) + c.send_buf.len() < 0x8000_0000,
    ensures
        accounted(crate::tcp::model::flushed(c, now_ms, out).0),
    decreases c.send_buf.len(),
{
    let n = crate::tcp::model::chunk(c, crate::tcp::model::usable(c) as int);
    if c.send_buf.len() > 0 && !crate::tcp::model::held_back(c, n, now_ms) && n > 0 {
        let ready = crate::tcp::model::clocked(c, n, now_ms);
        lemma_sending_accounts(ready, n, PSH | ACK, now_ms);
        lemma_flush_accounts(
            crate::tcp::model::sent(ready, n, PSH | ACK, now_ms),
            now_ms,
            out.push(crate::tcp::model::sent_packet(ready, n, PSH | ACK)),
        );
    }
}

proof fn lemma_top_up_accounts(c: Conn, limit: u32, now_ms: u64, out: Seq<Seq<u8>>)
    requires
        accounted(c),
        crate::tcp::model::sends_data(c.tcb.state),
        crate::tcp::model::flight_size(c.tcb) + c.send_buf.len() < 0x8000_0000,
    ensures
        accounted(crate::tcp::model::topped_up(c, limit, now_ms, out).0),
    decreases c.send_buf.len(),
{
    let n = crate::tcp::model::chunk(c, limit - crate::tcp::model::pipe(c.retx));
    if c.send_buf.len() > 0 && crate::tcp::model::pipe(c.retx) < limit && n > 0 {
        lemma_sending_accounts(c, n, PSH | ACK, now_ms);
        lemma_top_up_accounts(
            crate::tcp::model::sent(c, n, PSH | ACK, now_ms),
            limit,
            now_ms,
            out.push(crate::tcp::model::sent_packet(c, n, PSH | ACK)),
        );
    }
}

proof fn lemma_resend_at_tiles(
    q: crate::tcp::retx::Queue,
    i: int,
    now_ms: u64,
    una: u32,
    nxt: u32,
)
    ensures
        tiles(crate::tcp::retx::resent_at(q, i, now_ms).segments, una, nxt) == tiles(
            q.segments,
            una,
            nxt,
        ),
        crate::tcp::retx::resent_at(q, i, now_ms).segments.len() == q.segments.len(),
{
    lemma_same_edges_tile(
        crate::tcp::retx::resent_at(q, i, now_ms).segments,
        q.segments,
        una,
        nxt,
    );
}

proof fn lemma_repair_tiles(
    q: crate::tcp::retx::Queue,
    limit: u32,
    now_ms: u64,
    out: Seq<Seq<u8>>,
    una: u32,
    nxt: u32,
)
    ensures
        tiles(crate::tcp::model::repaired(q, limit, now_ms, out).0.segments, una, nxt) == tiles(
            q.segments,
            una,
            nxt,
        ),
    decreases crate::tcp::model::untried(q.segments),
{
    let i = crate::tcp::model::next_lost(q);
    crate::tcp::retx::lemma_first_is_picked(
        q.segments,
        crate::tcp::retx::awaits_resend(q.segments, crate::tcp::model::DUP_THRESH),
    );
    if crate::tcp::model::pipe(q) < limit && i < q.segments.len() {
        crate::tcp::model::lemma_untried_falls(q.segments, i, now_ms);
        lemma_resend_at_tiles(q, i, now_ms, una, nxt);
        lemma_repair_tiles(
            crate::tcp::retx::resent_at(q, i, now_ms),
            limit,
            now_ms,
            out.push(q.segments[i].packet),
            una,
            nxt,
        );
    }
}

/// Transmission accounts for every byte it sends. (What is in flight and what is waiting stay
/// below half the sequence space, as RFC 9293 requires.)
pub proof fn law_transmission_accounts(c: Conn, now_ms: u64)
    requires
        accounted(c),
        crate::tcp::model::flight_size(c.tcb) + c.send_buf.len() < 0x8000_0000,
    ensures
        accounted(crate::tcp::model::transmit_step(c, now_ms).0),
{
    if crate::tcp::model::sends_data(c.tcb.state) {
        let c0 = Conn { tcb: Tcb { ts_val: crate::tcp::model::clock_of(now_ms), ..c.tcb }, ..c };
        let limit = crate::tcp::model::send_limit(c0);
        let (q, out) = crate::tcp::model::repaired(c0.retx, limit, now_ms, Seq::empty());
        lemma_repair_tiles(c0.retx, limit, now_ms, Seq::empty(), c.tcb.una, c.tcb.nxt);
        lemma_top_up_accounts(Conn { retx: q, ..c0 }, limit, now_ms, out);
        lemma_flush_accounts(c0, now_ms, Seq::empty());
        lemma_flush_keeps_the_state(c0, now_ms, Seq::empty());
    }
}

proof fn lemma_flush_keeps_the_state(c: Conn, now_ms: u64, out: Seq<Seq<u8>>)
    ensures
        crate::tcp::model::flushed(c, now_ms, out).0.tcb.state == c.tcb.state,
    decreases c.send_buf.len(),
{
    let n = crate::tcp::model::chunk(c, crate::tcp::model::usable(c) as int);
    if c.send_buf.len() > 0 && !crate::tcp::model::held_back(c, n, now_ms) && n > 0 {
        let ready = crate::tcp::model::clocked(c, n, now_ms);
        lemma_flush_keeps_the_state(
            crate::tcp::model::sent(ready, n, PSH | ACK, now_ms),
            now_ms,
            out.push(crate::tcp::model::sent_packet(ready, n, PSH | ACK)),
        );
    }
}

/// Closing our side accounts for our FIN.
pub proof fn law_closing_accounts(c: Conn, now_ms: u64)
    requires
        accounted(c),
        crate::tcp::model::flight_size(c.tcb) + 1 < 0x8000_0000,
    ensures
        accounted(crate::tcp::model::closed_by_us(c, now_ms).0),
{
    let c1 = crate::tcp::model::closed_by_us(c, now_ms).0;
    if crate::tcp::model::after_our_fin(c.tcb.state) is Some {
        lemma_recording_tiles(
            c.retx.segments,
            c1.retx.segments.last(),
            c.tcb.una,
            c.tcb.nxt,
            1,
        );
        assert(c1.retx.segments =~= c.retx.segments.push(c1.retx.segments.last()));
    }
}

/// Timers resend, but forget nothing.
pub proof fn law_ticks_account(c: Conn, now_ms: u64)
    requires
        accounted(c),
    ensures
        accounted(crate::tcp::model::tick_step(c, now_ms).0),
{
    let c0 = Conn { tcb: crate::tcp::model::clock_step(c.tcb, now_ms), ..c };
    let una = c.tcb.una;
    let nxt = c.tcb.nxt;
    let c1 = crate::tcp::model::rack_step(c0, now_ms).0;
    lemma_same_edges_tile(c1.retx.segments, c0.retx.segments, una, nxt);
    assert(accounted(c1));
    let i = crate::tcp::retx::last_where(c1.retx.segments, crate::tcp::retx::is_hole());
    let c2 = crate::tcp::model::tlp_step(c1, now_ms).0;
    lemma_resend_at_tiles(c1.retx, i, now_ms, una, nxt);
    assert(accounted(c2));
    let c3 = crate::tcp::model::rto_step(c2, now_ms).0;
    lemma_same_edges_tile(c3.retx.segments, c2.retx.segments, una, nxt);
    assert(accounted(c3));
    let c4 = crate::tcp::model::persist_step(c3, now_ms).0;
    if crate::tcp::model::stalled(c3) {
        lemma_sending_accounts(c3, 1, ACK, now_ms);
    }
    assert(accounted(c4));
}

/// An acknowledgement within what is in flight keeps the account.
proof fn lemma_ack_step_accounts(
    c: Conn,
    th: TcpHeader,
    payload_len: int,
    opts: crate::tcp::options::OptionSet,
    prev_wnd: u32,
    now_ms: u64,
)
    requires
        accounted(c),
        crate::tcp::model::sends_data(c.tcb.state),
    ensures
        accounted(
            crate::tcp::model::ack_step(c, th, payload_len, opts, prev_wnd, now_ms).0,
        ),
        crate::tcp::model::ack_step(c, th, payload_len, opts, prev_wnd, now_ms).0.tcb.state
            == c.tcb.state,
{
    let una = c.tcb.una;
    let nxt = c.tcb.nxt;
    let c1 = crate::tcp::model::sacks_taken(c, opts);
    lemma_same_edges_tile(c1.retx.segments, c.retx.segments, una, nxt);
    let hole = crate::tcp::retx::is_hole();
    if crate::seq::in_window(una, th.ack, nxt) {
        assert(crate::seq::distance(una, th.ack) <= crate::seq::distance(una, nxt));
        lemma_acking_tiles(c1.retx.segments, una, nxt, th.ack);
        let q = crate::tcp::retx::acked_to(c1.retx, th.ack);
        let i = crate::tcp::retx::first_where(q.segments, hole);
        lemma_resend_at_tiles(q, i, now_ms, th.ack, nxt);
    } else {
        let i = crate::tcp::retx::first_where(c1.retx.segments, hole);
        lemma_resend_at_tiles(c1.retx, i, now_ms, una, nxt);
    }
}

/// Data and a FIN do not touch what we have sent.
proof fn lemma_data_step_accounts(c: Conn, th: TcpHeader, payload: Seq<u8>)
    requires
        accounted(c),
        crate::tcp::model::sends_data(c.tcb.state),
    ensures
        accounted(crate::tcp::model::data_step(c, th, payload).0),
{
    let c1 = crate::tcp::model::data_step(c, th, payload).0;
    assert(c1.retx == c.retx && c1.tcb.una == c.tcb.una && c1.tcb.nxt == c.tcb.nxt);
    assert(crate::tcp::model::sends_data(c1.tcb.state));
}

/// A segment in ESTABLISHED or CLOSE_WAIT keeps the account.
proof fn lemma_open_step_accounts(
    c: Conn,
    th: TcpHeader,
    payload: Seq<u8>,
    opts: crate::tcp::options::OptionSet,
    now_ms: u64,
    draw: u32,
)
    requires
        accounted(c),
        crate::tcp::model::sends_data(c.tcb.state),
    ensures
        accounted(crate::tcp::model::open_step(c, th, payload, opts, now_ms, draw).0),
{
    let c1 = Conn { tcb: crate::tcp::model::window_updated(c.tcb, th, opts), ..c };
    lemma_ack_step_accounts(c1, th, payload.len() as int, opts, c.tcb.snd_wnd, now_ms);
    let c2 = crate::tcp::model::ack_step(
        c1,
        th,
        payload.len() as int,
        opts,
        c.tcb.snd_wnd,
        now_ms,
    ).0;
    lemma_data_step_accounts(c1, th, payload);
    lemma_data_step_accounts(c2, th, payload);
    assert(accounted(crate::tcp::model::challenged(c, now_ms, draw).0));
}

/// Whatever arrives, what is still unacknowledged stays queued.
#[verifier::rlimit(40)]
pub proof fn law_arrivals_account(
    c: Conn,
    th: TcpHeader,
    payload: Seq<u8>,
    opts: crate::tcp::options::OptionSet,
    now_ms: u64,
    draw: u32,
)
    requires
        accounted(c),
    ensures
        accounted(crate::tcp::model::segment_step(c, th, payload, opts, now_ms, draw).0),
{
    let c0 = Conn { tcb: crate::tcp::model::touched(c.tcb, now_ms), ..c };
    let una = c.tcb.una;
    let nxt = c.tcb.nxt;
    if tiles(c.retx.segments, una, nxt) {
        lemma_past_the_end_drops_all(c.retx.segments, una, nxt, nxt);
    }
    if c.tcb.state == State::SynRcvd {
        let c1 = crate::tcp::model::handshake_completed(c0, th);
        if th.ack == nxt {
            lemma_open_step_accounts(c1, th, payload, opts, now_ms, draw);
        }
    } else if crate::tcp::model::sends_data(c.tcb.state) {
        lemma_open_step_accounts(c0, th, payload, opts, now_ms, draw);
    }
}

/// An acknowledgement of everything sent settles the account: nothing is in flight any more and
/// nothing is queued.
pub proof fn law_full_ack_settles_the_account(
    c: Conn,
    th: TcpHeader,
    opts: crate::tcp::options::OptionSet,
    now_ms: u64,
    draw: u32,
)
    requires
        accounted(c),
        crate::tcp::model::sends_data(c.tcb.state),
        th.flags & crate::tcp::header::RST == 0,
        th.flags & crate::tcp::header::SYN == 0,
        th.flags & ACK != 0,
        th.ack == c.tcb.nxt,
        !crate::tcp::model::stale(c.tcb, opts),
        crate::tcp::model::ack_acceptable(c.tcb, th),
    ensures
        ({
            let c1 = crate::tcp::model::segment_step(
                c,
                th,
                Seq::empty(),
                opts,
                now_ms,
                draw,
            ).0;
            &&& c1.tcb.una == c1.tcb.nxt == c.tcb.nxt
            &&& crate::tcp::model::flight_size(c1.tcb) == 0
            &&& c1.retx.segments.len() == 0
        }),
{
    let c0 = Conn { tcb: crate::tcp::model::touched(c.tcb, now_ms), ..c };
    let c1 = Conn { tcb: crate::tcp::model::window_updated(c0.tcb, th, opts), ..c0 };
    let c2 = crate::tcp::model::sacks_taken(c1, opts);
    let una = c.tcb.una;
    let nxt = c.tcb.nxt;
    lemma_same_edges_tile(c2.retx.segments, c.retx.segments, una, nxt);
    if una == nxt {
        assert(c2.retx.segments.len() == 0);
    } else {
        lemma_past_the_end_drops_all(c2.retx.segments, una, nxt, nxt);
    }
    let (c3, reply) = crate::tcp::model::ack_step(c1, th, 0, opts, c0.tcb.snd_wnd, now_ms);
    assert(c3.retx.segments.len() == 0);
    assert(c3.tcb.una == nxt && c3.tcb.nxt == nxt);
    let c4 = crate::tcp::model::data_step(c3, th, Seq::empty()).0;
    assert(c4.retx == c3.retx && c4.tcb.una == c3.tcb.una && c4.tcb.nxt == c3.tcb.nxt);
}

} // verus!
