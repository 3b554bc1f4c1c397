//! How connections end: both orderly closes, and the half-closed time between.
use vstd::prelude::*;

use crate::tcp::header::{State, ACK, FIN, PSH};
use crate::tcp::model::{Conn, TIME_WAIT_MS};

verus! {

/// `b` will not take a segment stamped at `now_ms` for an old one, and its send window is sane.
pub open spec fn admits(b: Conn, now_ms: u64) -> bool {
    &&& b.tcb.max_snd_wnd < 0x8000_0000 && b.tcb.snd_wscale <= 14
    &&& b.tcb.ts_enabled ==> !crate::seq::is_before(
        crate::tcp::model::clock_of(now_ms),
        b.tcb.ts_recent,
    )
}

/// A FIN that arrives in order at an open end with nothing in flight is acknowledged at once, and
/// leaves that end in CLOSE_WAIT.
proof fn lemma_fin_half_closes(a: Conn, b: Conn, close_ms: u64, now_ms: u64, draw: u32)
    requires
        crate::tcp::laws::established_pair(a, b),
        admits(b, close_ms),
    ensures
        ({
            let (a1, fin) = crate::tcp::model::closed_by_us(a, close_ms);
            let (b1, reply) = crate::tcp::laws::arrived(b, fin->0, now_ms, draw);
            &&& fin is Some
            &&& a1.tcb.state == State::FinWait1
            &&& a1.tcb.nxt == a.tcb.nxt.wrapping_add(1) && a1.tcb.rcv_nxt == a.tcb.rcv_nxt
            &&& b1.tcb.state == State::CloseWait && b1.tcb.peer_fin
            &&& b1.tcb.rcv_nxt == a1.tcb.nxt && b1.tcb.nxt == b.tcb.nxt
            &&& b1.recv_buf == b.recv_buf && b1.send_buf == b.send_buf
            &&& reply == Some(crate::tcp::model::bare_ack(b1.tcb))
        }),
{
    crate::tcp::laws::lemma_flag_bits();
    let (a1, fin) = crate::tcp::model::closed_by_us(a, close_ms);
    let t = crate::tcp::model::Tcb {
        ts_val: crate::tcp::model::clock_of(close_ms),
        ..a.tcb
    };
    crate::tcp::laws::lemma_segment_arrives(t, t.nxt, t.rcv_nxt, FIN | ACK, Seq::empty());
    let window = t.rcv_wnd;
    let shift = b.tcb.snd_wscale;
    assert((window as u32) << (shift as u32) < 0x8000_0000) by (bit_vector)
        requires
            shift <= 14,
    ;
    let seg = crate::tcp::arrival::segment_in(fin->0)->0;
    let b0 = Conn { tcb: crate::tcp::model::touched(b.tcb, now_ms), ..b };
    let b1 = Conn { tcb: crate::tcp::model::window_updated(b0.tcb, seg.th, seg.opts), ..b0 };
    assert(!crate::tcp::model::stale(b0.tcb, seg.opts));
    assert(crate::tcp::model::ack_acceptable(b0.tcb, seg.th));
    assert(crate::tcp::model::ack_step(
        b1,
        seg.th,
        0,
        seg.opts,
        b0.tcb.snd_wnd,
        now_ms,
    ) == (b1, None::<Seq<u8>>));
    assert(crate::tcp::model::fin_seq(seg.th, 0) == b.tcb.rcv_nxt);
}

/// The four-way close: one end closes, the other acknowledges (the first is half closed), later
/// closes too, and the first acknowledges that. The end that closed first lingers in TIME_WAIT
/// until twice the maximum segment lifetime has passed; the other is closed at once.
pub proof fn law_orderly_close(
    a: Conn,
    b: Conn,
    close_ms: u64,
    fin_ms: u64,
    ack_ms: u64,
    other_close_ms: u64,
    other_fin_ms: u64,
    last_ms: u64,
    draw: u32,
)
    requires
        crate::tcp::laws::established_pair(a, b),
        admits(b, close_ms),
        other_fin_ms + TIME_WAIT_MS <= u64::MAX,
    ensures
        ({
            let (a1, fin) = crate::tcp::model::closed_by_us(a, close_ms);
            let (b1, ack) = crate::tcp::laws::arrived(b, fin->0, fin_ms, draw);
            let (a2, quiet) = crate::tcp::laws::arrived(a1, ack->0, ack_ms, draw);
            let (b2, other_fin) = crate::tcp::model::closed_by_us(b1, other_close_ms);
            let (a3, last_ack) = crate::tcp::laws::arrived(a2, other_fin->0, other_fin_ms, draw);
            let (b3, nothing) = crate::tcp::laws::arrived(b2, last_ack->0, last_ms, draw);
            &&& fin is Some && ack is Some && other_fin is Some && last_ack is Some
            &&& quiet is None && nothing is None
            &&& a1.tcb.state == State::FinWait1 && b1.tcb.state == State::CloseWait
            &&& a2.tcb.state == State::FinWait2 && b2.tcb.state == State::LastAck
            &&& a3.tcb.state == State::TimeWait && b3.tcb.state == State::Closed
            &&& crate::tcp::model::tick_step(
                a3,
                (other_fin_ms + TIME_WAIT_MS) as u64,
            ).0.tcb.state == State::Closed
            &&& crate::tcp::model::tick_step(
                a3,
                (other_fin_ms + TIME_WAIT_MS - 1) as u64,
            ).0.tcb.state == State::TimeWait
        }),
{
    lemma_fin_half_closes(a, b, close_ms, fin_ms, draw);
    let (a1, fin) = crate::tcp::model::closed_by_us(a, close_ms);
    let (b1, ack) = crate::tcp::laws::arrived(b, fin->0, fin_ms, draw);
    lemma_our_fin_is_acked(a1, b1, ack_ms, draw);
    let (a2, quiet) = crate::tcp::laws::arrived(a1, ack->0, ack_ms, draw);
    lemma_other_fin_arrives(a2, b1, other_close_ms, other_fin_ms, draw);
    let (b2, other_fin) = crate::tcp::model::closed_by_us(b1, other_close_ms);
    let (a3, last_ack) = crate::tcp::laws::arrived(a2, other_fin->0, other_fin_ms, draw);
    let t = crate::tcp::model::fin_consumed(crate::tcp::model::touched(a2.tcb, other_fin_ms));
    lemma_last_ack_arrives(b2, t, last_ms, draw);
    lemma_lingering_ends(a3, (other_fin_ms + TIME_WAIT_MS) as u64);
    lemma_lingering_ends(a3, (other_fin_ms + TIME_WAIT_MS - 1) as u64);
}

/// In FIN_WAIT_1, the acknowledgement of our FIN leaves us half closed.
proof fn lemma_our_fin_is_acked(a: Conn, b: Conn, now_ms: u64, draw: u32)
    requires
        a.tcb.state == State::FinWait1,
        b.tcb.rcv_nxt == a.tcb.nxt,
    ensures
        ({
            let (a1, reply) = crate::tcp::laws::arrived(a, crate::tcp::model::bare_ack(b.tcb), now_ms, draw);
            &&& a1.tcb.state == State::FinWait2 && reply is None
            &&& a1.tcb.nxt == a.tcb.nxt && a1.tcb.rcv_nxt == a.tcb.rcv_nxt
        }),
{
    crate::tcp::laws::lemma_flag_bits();
    crate::tcp::laws::lemma_segment_arrives(b.tcb, b.tcb.nxt, b.tcb.rcv_nxt, ACK, Seq::empty());
}

/// In FIN_WAIT_2, the other end's FIN leads to TIME_WAIT and is acknowledged.
proof fn lemma_other_fin_arrives(a: Conn, b: Conn, close_ms: u64, now_ms: u64, draw: u32)
    requires
        a.tcb.state == State::FinWait2,
        b.tcb.state == State::CloseWait,
        a.tcb.rcv_nxt == b.tcb.nxt,
    ensures
        ({
            let (b1, fin) = crate::tcp::model::closed_by_us(b, close_ms);
            let (a1, ack) = crate::tcp::laws::arrived(a, fin->0, now_ms, draw);
            let t = crate::tcp::model::fin_consumed(crate::tcp::model::touched(a.tcb, now_ms));
            &&& fin is Some && b1.tcb.state == State::LastAck
            &&& a1.tcb.state == State::TimeWait && a1.tcb.time_wait_ms == now_ms
            &&& ack == Some(crate::tcp::model::bare_ack(t))
            &&& t.rcv_nxt == b1.tcb.nxt
        }),
{
    crate::tcp::laws::lemma_flag_bits();
    let t = crate::tcp::model::Tcb {
        ts_val: crate::tcp::model::clock_of(close_ms),
        ..b.tcb
    };
    crate::tcp::laws::lemma_segment_arrives(t, t.nxt, t.rcv_nxt, FIN | ACK, Seq::empty());
}

/// In LAST_ACK, the acknowledgement of our FIN closes the connection.
proof fn lemma_last_ack_arrives(
    b: Conn,
    t: crate::tcp::model::Tcb,
    now_ms: u64,
    draw: u32,
)
    requires
        b.tcb.state == State::LastAck,
        t.rcv_nxt == b.tcb.nxt,
    ensures
        ({
            let (b1, reply) = crate::tcp::laws::arrived(b, crate::tcp::model::bare_ack(t), now_ms, draw);
            b1.tcb.state == State::Closed && reply is None
        }),
{
    crate::tcp::laws::lemma_flag_bits();
    crate::tcp::laws::lemma_segment_arrives(t, t.nxt, t.rcv_nxt, ACK, Seq::empty());
}

/// TIME_WAIT ends on time, and not before.
proof fn lemma_lingering_ends(c: Conn, now_ms: u64)
    requires
        c.tcb.state == State::TimeWait,
    ensures
        crate::tcp::model::tick_step(c, now_ms).0.tcb.state == (if crate::congestion::elapsed(
            now_ms,
            c.tcb.time_wait_ms,
        ) >= TIME_WAIT_MS {
            State::Closed
        } else {
            State::TimeWait
        }),
{
}

/// The simultaneous close: both ends close before either FIN arrives. Each takes the other's FIN
/// in CLOSING, each acknowledgement then leads to TIME_WAIT.
pub proof fn law_simultaneous_close(
    a: Conn,
    b: Conn,
    close_ms: u64,
    fin_ms: u64,
    ack_ms: u64,
    draw: u32,
)
    requires
        crate::tcp::laws::established_pair(a, b),
    ensures
        ({
            let (a1, a_fin) = crate::tcp::model::closed_by_us(a, close_ms);
            let (b1, b_fin) = crate::tcp::model::closed_by_us(b, close_ms);
            let (a2, a_ack) = crate::tcp::laws::arrived(a1, b_fin->0, fin_ms, draw);
            let (b2, b_ack) = crate::tcp::laws::arrived(b1, a_fin->0, fin_ms, draw);
            let a3 = crate::tcp::laws::arrived(a2, b_ack->0, ack_ms, draw).0;
            let b3 = crate::tcp::laws::arrived(b2, a_ack->0, ack_ms, draw).0;
            &&& a_fin is Some && b_fin is Some && a_ack is Some && b_ack is Some
            &&& a2.tcb.state == State::Closing && b2.tcb.state == State::Closing
            &&& a3.tcb.state == State::TimeWait && b3.tcb.state == State::TimeWait
        }),
{
    lemma_crossing_fin(a, b, close_ms, fin_ms, draw);
    lemma_crossing_fin(b, a, close_ms, fin_ms, draw);
    let (a1, a_fin) = crate::tcp::model::closed_by_us(a, close_ms);
    let (b1, b_fin) = crate::tcp::model::closed_by_us(b, close_ms);
    let (a2, a_ack) = crate::tcp::laws::arrived(a1, b_fin->0, fin_ms, draw);
    let (b2, b_ack) = crate::tcp::laws::arrived(b1, a_fin->0, fin_ms, draw);
    lemma_closing_ack(a2, b2, ack_ms, draw);
    lemma_closing_ack(b2, a2, ack_ms, draw);
}

/// The other end's FIN arrives in FIN_WAIT_1 without an acknowledgement of ours.
proof fn lemma_crossing_fin(a: Conn, b: Conn, close_ms: u64, fin_ms: u64, draw: u32)
    requires
        crate::tcp::laws::established_pair(a, b),
    ensures
        ({
            let (a1, a_fin) = crate::tcp::model::closed_by_us(a, close_ms);
            let (b1, b_fin) = crate::tcp::model::closed_by_us(b, close_ms);
            let (a2, a_ack) = crate::tcp::laws::arrived(a1, b_fin->0, fin_ms, draw);
            &&& a_fin is Some && b_fin is Some
            &&& a2.tcb.state == State::Closing
            &&& a2.tcb.nxt == a.tcb.nxt.wrapping_add(1)
            &&& a2.tcb.rcv_nxt == b.tcb.nxt.wrapping_add(1)
            &&& a_ack == Some(crate::tcp::model::bare_ack(a2.tcb))
        }),
{
    crate::tcp::laws::lemma_flag_bits();
    let t = crate::tcp::model::Tcb {
        ts_val: crate::tcp::model::clock_of(close_ms),
        ..b.tcb
    };
    crate::tcp::laws::lemma_segment_arrives(t, t.nxt, t.rcv_nxt, FIN | ACK, Seq::empty());
}

/// In CLOSING, the acknowledgement of our FIN leads to TIME_WAIT.
proof fn lemma_closing_ack(a: Conn, b: Conn, now_ms: u64, draw: u32)
    requires
        a.tcb.state == State::Closing,
        b.tcb.rcv_nxt == a.tcb.nxt,
    ensures
        crate::tcp::laws::arrived(a, crate::tcp::model::bare_ack(b.tcb), now_ms, draw).0.tcb.state
            == State::TimeWait,
{
    crate::tcp::laws::lemma_flag_bits();
    crate::tcp::laws::lemma_segment_arrives(b.tcb, b.tcb.nxt, b.tcb.rcv_nxt, ACK, Seq::empty());
}

/// Half close: an end that has closed its own side still receives. Data that arrives in order in
/// FIN_WAIT_2 is delivered and acknowledged, and the state stays.
pub proof fn law_half_closed_end_still_receives(
    s: Conn,
    c: Conn,
    n: int,
    now_ms: u64,
    draw: u32,
)
    requires
        s.tcb.state == State::FinWait2,
        s.reasm.frags == Map::<u32, Seq<u8>>::empty(),
        s.tcb.rcv_nxt == c.tcb.nxt,
        0 < n <= c.send_buf.len(),
        n <= 1460,
    ensures
        ({
            let (s1, reply) = crate::tcp::laws::arrived(
                s,
                crate::tcp::model::sent_packet(c, n, PSH | ACK),
                now_ms,
                draw,
            );
            &&& s1.recv_buf == s.recv_buf + c.send_buf.take(n)
            &&& s1.tcb.rcv_nxt == crate::seq::advance(s.tcb.rcv_nxt, n)
            &&& s1.tcb.state == State::FinWait2
            &&& reply == Some(crate::tcp::model::bare_ack(s1.tcb))
        }),
{
    let data = c.send_buf.take(n);
    crate::tcp::laws::lemma_flag_bits();
    crate::tcp::laws::lemma_segment_arrives(c.tcb, c.tcb.nxt, c.tcb.rcv_nxt, PSH | ACK, data);
    crate::tcp::laws::lemma_in_order_passes_through(s.reasm, c.tcb.nxt, data);
}

} // verus!
