//! What a stranger who guesses cannot do to a connection: resets, SYNs, data and acknowledgements
//! that do not fit are challenged, throttled or ignored (RFC 5961, RFC 1337, RFC 7323).
use vstd::prelude::*;

use crate::tcp::header::{State, TcpHeader, ACK, RST, SYN};
use crate::tcp::laws::Event;
use crate::tcp::model::{Conn, Tcb, CHALLENGE_ACK_MAX, CHALLENGE_WINDOW_MS};

verus! {

/// Only the bookkeeping of arrivals and of the challenge budget differs.
pub open spec fn same_but_bookkeeping(a: Conn, b: Conn) -> bool {
    a == (Conn {
        tcb: Tcb {
            ts_val: a.tcb.ts_val,
            last_active_ms: a.tcb.last_active_ms,
            keepalive_probes_sent: a.tcb.keepalive_probes_sent,
            challenge_budget: a.tcb.challenge_budget,
            challenge_window_ms: a.tcb.challenge_window_ms,
            ..b.tcb
        },
        ..b
    })
}

/// What a RST does, by state. In SYN_SENT it counts if and only if it acknowledges our SYN; in
/// TIME_WAIT never (RFC 1337); in every other state if and only if its number is exactly the one
/// expected next. One that counts closes the connection; any other changes nothing. None is
/// answered, but for one elsewhere inside the window, which gets a challenge ACK while the budget
/// lasts.
pub proof fn law_resets_must_be_exact(
    c: Conn,
    th: TcpHeader,
    payload: Seq<u8>,
    opts: crate::tcp::options::OptionSet,
    now_ms: u64,
    draw: u32,
)
    requires
        th.flags & RST != 0,
        c.tcb.state != State::Closed,
    ensures
        ({
            let (c1, reply) = crate::tcp::model::segment_step(
                c,
                th,
                payload,
                opts,
                now_ms,
                draw,
            );
            let ahead = crate::seq::distance(c.tcb.rcv_nxt, th.seq);
            let counts = match c.tcb.state {
                State::SynSent => th.flags & ACK != 0 && th.ack == c.tcb.nxt,
                State::TimeWait => false,
                _ => ahead == 0,
            };
            let challenged = c.tcb.state != State::SynSent && c.tcb.state != State::TimeWait && 0
                < ahead < c.tcb.rcv_wnd;
            &&& counts ==> same_but_bookkeeping(
                c1,
                crate::tcp::model::in_state(c, State::Closed),
            )
            &&& !counts ==> same_but_bookkeeping(c1, c)
            &&& c1.tcb.state == State::Closed <==> counts
            &&& reply is Some <==> challenged && crate::tcp::model::refilled(
                c.tcb,
                now_ms,
                draw,
            ).challenge_budget > 0
            &&& reply is Some ==> reply == Some(crate::tcp::model::bare_ack(c1.tcb))
        }),
{
}

/// A SYN never disturbs a synchronized connection: it changes nothing, and is answered at most
/// with a challenge ACK.
pub proof fn law_syn_is_only_challenged(
    c: Conn,
    th: TcpHeader,
    payload: Seq<u8>,
    opts: crate::tcp::options::OptionSet,
    now_ms: u64,
    draw: u32,
)
    requires
        th.flags & RST == 0,
        th.flags & SYN != 0,
        crate::tcp::model::synchronized(c.tcb.state),
    ensures
        ({
            let (c1, reply) = crate::tcp::model::segment_step(
                c,
                th,
                payload,
                opts,
                now_ms,
                draw,
            );
            &&& same_but_bookkeeping(c1, c)
            &&& reply is Some ==> reply == Some(crate::tcp::model::bare_ack(c1.tcb))
        }),
{
}

/// A segment with an acknowledgement we cannot have earned is not acted upon: it changes nothing,
/// neither data nor window nor timestamp is taken in, and it is answered at most with a challenge
/// ACK.
pub proof fn law_blind_data_is_not_accepted(
    c: Conn,
    th: TcpHeader,
    payload: Seq<u8>,
    opts: crate::tcp::options::OptionSet,
    now_ms: u64,
    draw: u32,
)
    requires
        th.flags & RST == 0,
        th.flags & SYN == 0,
        th.flags & ACK != 0,
        crate::tcp::model::sends_data(c.tcb.state),
        !crate::tcp::model::stale(c.tcb, opts),
        !crate::tcp::model::ack_acceptable(c.tcb, th),
    ensures
        ({
            let (c1, reply) = crate::tcp::model::segment_step(
                c,
                th,
                payload,
                opts,
                now_ms,
                draw,
            );
            &&& same_but_bookkeeping(c1, c)
            &&& reply is Some ==> reply == Some(crate::tcp::model::bare_ack(c1.tcb))
        }),
{
}

/// PAWS: a segment whose timestamp is older than the last one seen changes nothing and is answered
/// with an ACK of the current state.
pub proof fn law_stale_segments_change_nothing(
    c: Conn,
    th: TcpHeader,
    payload: Seq<u8>,
    opts: crate::tcp::options::OptionSet,
    now_ms: u64,
    draw: u32,
)
    requires
        th.flags & RST == 0,
        th.flags & SYN == 0,
        crate::tcp::model::sends_data(c.tcb.state),
        crate::tcp::model::stale(c.tcb, opts),
    ensures
        ({
            let (c1, reply) = crate::tcp::model::segment_step(
                c,
                th,
                payload,
                opts,
                now_ms,
                draw,
            );
            same_but_bookkeeping(c1, c) && reply == Some(crate::tcp::model::bare_ack(c1.tcb))
        }),
{
}

/// In SYN_SENT, only an acknowledgement of our own SYN counts: without it, neither a SYN-ACK nor a
/// RST changes anything.
pub proof fn law_connecting_trusts_only_its_own_number(
    c: Conn,
    th: TcpHeader,
    payload: Seq<u8>,
    opts: crate::tcp::options::OptionSet,
    now_ms: u64,
    draw: u32,
)
    requires
        c.tcb.state == State::SynSent,
        th.ack != c.tcb.nxt,
    ensures
        ({
            let (c1, reply) = crate::tcp::model::segment_step(
                c,
                th,
                payload,
                opts,
                now_ms,
                draw,
            );
            same_but_bookkeeping(c1, c) && reply is None
        }),
{
}

/// How many of a series of challenges are answered, one at each of the given times.
pub open spec fn answered(c: Conn, times: Seq<u64>, draw: u32) -> nat
    decreases times.len(),
{
    if times.len() == 0 {
        0
    } else {
        let (c1, reply) = crate::tcp::model::challenged(c, times[0], draw);
        answered(c1, times.drop_first(), draw) + (if reply is Some {
            1nat
        } else {
            0
        })
    }
}

/// Challenge ACKs are throttled: within one window no more are sent than the budget holds, however
/// many segments ask for them.
pub proof fn law_challenges_are_throttled(c: Conn, times: Seq<u64>, draw: u32)
    requires
        forall|i: int|
            0 <= i < times.len() ==> !crate::tcp::model::refill_due(c.tcb, #[trigger] times[i]),
    ensures
        answered(c, times, draw) <= c.tcb.challenge_budget,
    decreases times.len(),
{
    if times.len() > 0 {
        let c1 = crate::tcp::model::challenged(c, times[0], draw).0;
        let rest = times.drop_first();
        assert(!crate::tcp::model::refill_due(c.tcb, times[0]));
        assert forall|i: int| 0 <= i < rest.len() implies !crate::tcp::model::refill_due(
            c1.tcb,
            #[trigger] rest[i],
        ) by {
            assert(rest[i] == times[i + 1]);
        }
        law_challenges_are_throttled(c1, rest, draw);
    }
}

/// A budget is at least one and at most the ceiling, and every such value can be drawn.
pub proof fn law_budgets_are_bounded(draw: u32, budget: u32)
    ensures
        1 <= crate::tcp::model::budget_of(draw) <= CHALLENGE_ACK_MAX,
        1 <= budget <= CHALLENGE_ACK_MAX ==> exists|d: u32| #[trigger]
            crate::tcp::model::budget_of(d) == budget,
{
    if 1 <= budget <= CHALLENGE_ACK_MAX {
        assert(crate::tcp::model::budget_of((budget - 1) as u32) == budget);
    }
}

/// A segment that is answered with a challenge ACK: a RST inside the window but not at RCV.NXT, a
/// SYN on a synchronized connection, or an acknowledgement we cannot have earned.
pub open spec fn asks_for_challenge(
    c: Conn,
    th: TcpHeader,
    opts: crate::tcp::options::OptionSet,
) -> bool {
    if th.flags & RST != 0 {
        &&& c.tcb.state != State::SynSent && c.tcb.state != State::TimeWait
        &&& th.seq != c.tcb.rcv_nxt && crate::tcp::model::in_receive_window(c.tcb, th.seq)
    } else if th.flags & SYN != 0 {
        crate::tcp::model::synchronized(c.tcb.state)
    } else {
        &&& crate::tcp::model::sends_data(c.tcb.state) && !crate::tcp::model::stale(c.tcb, opts)
        &&& th.flags & ACK != 0 && !crate::tcp::model::ack_acceptable(c.tcb, th)
    }
}

proof fn lemma_challenge_asked(c: Conn, c0: Conn, e: Event)
    requires
        same_but_bookkeeping(c, c0),
        asks_for_challenge(c0, e.th, e.opts),
    ensures
        ({
            let touched = Conn { tcb: crate::tcp::model::touched(c.tcb, e.now_ms), ..c };
            crate::tcp::model::segment_step(c, e.th, e.payload, e.opts, e.now_ms, e.draw)
                == crate::tcp::model::challenged(touched, e.now_ms, e.draw)
        }),
{
}

/// From the refill on, the budget decides: of any number of segments within one window that ask
/// for a challenge, the first is answered, the answered ones come first, and there are as many as
/// the budget drawn, between one and the ceiling. Each answer is an ACK of the unchanged state,
/// and nothing else changes.
pub proof fn law_a_refill_is_spent_in_order(c: Conn, events: Seq<Event>)
    requires
        events.len() > 0,
        crate::tcp::model::refill_due(c.tcb, events[0].now_ms),
        forall|i: int|
            0 <= i < events.len() ==> asks_for_challenge(
                c,
                (#[trigger] events[i]).th,
                events[i].opts,
            ) && events[i].now_ms.wrapping_sub(events[0].now_ms) < CHALLENGE_WINDOW_MS,
    ensures
        ({
            let (c1, replies) = crate::tcp::laws::after_events(c, events);
            let budget = crate::tcp::model::budget_of(events[0].draw);
            &&& 1 <= budget <= CHALLENGE_ACK_MAX
            &&& replies.len() == events.len()
            &&& forall|i: int|
                0 <= i < replies.len() ==> (#[trigger] replies[i]) == (if i < budget {
                    Some(
                        crate::tcp::model::bare_ack(
                            Tcb {
                                ts_val: crate::tcp::model::clock_of(events[i].now_ms),
                                ..c.tcb
                            },
                        ),
                    )
                } else {
                    None
                })
            &&& same_but_bookkeeping(c1, c)
            &&& c1.tcb.challenge_window_ms == events[0].now_ms
            &&& c1.tcb.challenge_budget == (if events.len() < budget {
                budget - events.len()
            } else {
                0
            })
        }),
    decreases events.len(),
{
    let n = events.len() - 1;
    let short = events.drop_last();
    let e = events.last();
    assert(events[n] == e);
    let (c0, replies0) = crate::tcp::laws::after_events(c, short);
    if n > 0 {
        assert(short[0] == events[0]);
        assert forall|i: int| 0 <= i < short.len() implies short[i] == #[trigger] events[i] by {}
        law_a_refill_is_spent_in_order(c, short);
    } else {
        assert(short =~= Seq::<Event>::empty());
        assert(replies0 =~= Seq::<Option<Seq<u8>>>::empty());
    }
    assert(same_but_bookkeeping(c0, c));
    lemma_challenge_asked(c0, c, e);
    let replies = crate::tcp::laws::after_events(c, events).1;
    assert forall|i: int| 0 <= i < n implies (#[trigger] replies[i]) == replies0[i] by {}
}

/// A challenge is answered if and only if the budget is not spent. A second after the last refill, or
/// later, the budget is drawn anew, between one and five; each answer takes one. The answer is an ACK
/// of the unchanged state. A SYN asks for one in every state but the first two and the last; a RST
/// does if it lies behind the next number expected and inside the window.
pub proof fn law_challenges_are_answered_while_the_budget_lasts(c: Conn, e: Event)
    requires
        c.tcb.state != State::Closed,
        if e.th.flags & RST != 0 {
            c.tcb.state != State::SynSent && c.tcb.state != State::TimeWait && 0 < (e.th.seq
                - c.tcb.rcv_nxt) % 0x1_0000_0000 < c.tcb.rcv_wnd
        } else {
            e.th.flags & SYN != 0 && c.tcb.state != State::SynSent && c.tcb.state != State::SynRcvd
        },
    ensures
        ({
            let (c1, reply) = crate::tcp::model::segment_step(
                c,
                e.th,
                e.payload,
                e.opts,
                e.now_ms,
                e.draw,
            );
            let over = (e.now_ms - c.tcb.challenge_window_ms) % 0x1_0000_0000_0000_0000 >= 1000;
            let budget = if over {
                1 + e.draw as int % 5
            } else {
                c.tcb.challenge_budget as int
            };
            &&& reply is Some <==> budget > 0
            &&& reply is Some ==> reply == Some(
                crate::tcp::model::segment_bytes(
                    c1.tcb,
                    c.tcb.nxt,
                    c.tcb.rcv_nxt,
                    0x10,
                    Seq::empty(),
                ),
            )
            &&& c1.tcb.challenge_budget == (if budget > 0 {
                budget - 1
            } else {
                0
            })
            &&& c1.tcb.challenge_window_ms == (if over {
                e.now_ms
            } else {
                c.tcb.challenge_window_ms
            })
            &&& same_but_bookkeeping(c1, c)
        }),
{
}

} // verus!
