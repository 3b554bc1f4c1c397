//! 32-bit sequence-number arithmetic (RFC 9293 section 3.4, built on RFC 1982 serial numbers).
//!
//! Sequence numbers live on a circle of 2^32 points, so "is A before B?" is a question about the
//! distance around the circle and not about plain integer order.
use vstd::prelude::*;

verus! {

/// How many steps forward on the circle lead from `from` to `to`.
pub open spec fn distance(from: u32, to: u32) -> int {
    if to >= from {
        to - from
    } else {
        to - from + 0x1_0000_0000
    }
}

/// The point `n` steps forward of `from`.
pub open spec fn advance(from: u32, n: int) -> u32 {
    ((from + n) % 0x1_0000_0000) as u32
}

/// `a` lies behind `b` by at most half the circle.
pub open spec fn is_before(a: u32, b: u32) -> bool {
    distance(b, a) >= 0x8000_0000
}

/// `x` lies in the half-open window `(start, end]`.
pub open spec fn in_window(start: u32, x: u32, end: u32) -> bool {
    is_before(start, x) && !is_before(end, x)
}

/// Modular "is `a` strictly before `b`" on the 32-bit sequence circle.
pub fn before(a: u32, b: u32) -> (r: bool)
    ensures
        r == is_before(a, b),
{
    a.wrapping_sub(b) >= 0x8000_0000
}

/// Modular "is `a` strictly after `b`": `before` with the arguments swapped.
pub fn after(a: u32, b: u32) -> (r: bool)
    ensures
        r == is_before(b, a),
{
    before(b, a)
}

/// True if `x` lies in the half-open window `(start, end]` on the wrapping circle. This is the
/// shape of TCP's acceptability tests: an acknowledgement counts when `SND.UNA < ACK <= SND.NXT`.
pub fn between(start: u32, x: u32, end: u32) -> (r: bool)
    ensures
        r == in_window(start, x, end),
{
    after(x, start) && !after(x, end)
}

/// The sequence number `n` bytes past `from`.
pub fn advance_by(from: u32, n: usize) -> (r: u32)
    ensures
        r == advance(from, n as int),
{
    from.wrapping_add((n as u64 % 0x1_0000_0000) as u32)
}

/// Two advances add up.
pub proof fn law_advance_adds_up(from: u32, m: int, n: int)
    ensures
        advance(advance(from, m), n) == advance(from, m + n),
{
}

/// Walking from `from` to `to` covers exactly their distance, and distance undoes `advance`.
pub proof fn law_distance_advance(from: u32, to: u32, n: int)
    requires
        0 <= n < 0x1_0000_0000,
    ensures
        0 <= distance(from, to) < 0x1_0000_0000,
        advance(from, distance(from, to)) == to,
        distance(from, advance(from, n)) == n,
{
}

/// No sequence number is before itself.
pub proof fn law_before_irreflexive(a: u32)
    ensures
        !is_before(a, a),
{
}

/// Of two different numbers that are not exactly opposite on the circle, one is before the other
/// and not the other way round.
pub proof fn law_before_total_and_antisymmetric(a: u32, b: u32)
    requires
        a != b,
        distance(a, b) != 0x8000_0000,
    ensures
        is_before(a, b) != is_before(b, a),
{
}

/// The order depends only on relative position: moving both numbers along the circle by the same
/// amount, across the wrap or not, changes nothing.
pub proof fn law_before_shift_invariant(a: u32, b: u32, n: int)
    requires
        0 <= n < 0x1_0000_0000,
    ensures
        is_before(advance(a, n), advance(b, n)) == is_before(a, b),
{
}

/// Inside any stretch shorter than half the circle, the modular order is the plain order of the
/// offsets, wherever the stretch begins.
pub proof fn law_before_matches_offsets(base: u32, i: int, j: int)
    requires
        0 <= i < 0x8000_0000,
        0 <= j < 0x8000_0000,
    ensures
        is_before(advance(base, i), advance(base, j)) == (i < j),
{
}

/// A window of at most half the circle holds exactly the points at a forward distance of at
/// least one and at most its length from its start.
pub proof fn law_window_is_a_range(start: u32, x: u32, end: u32)
    requires
        distance(start, end) <= 0x8000_0000,
    ensures
        in_window(start, x, end) == (0 < distance(start, x) <= distance(start, end)),
{
}

} // verus!
