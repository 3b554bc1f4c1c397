//! Delivery rates and gains as exact fractions.
use vstd::prelude::*;

verus! {

/// A delivery rate: `bytes` in `ms` milliseconds. Kept as measured, so nothing is rounded.
#[derive(Debug, Clone, Copy, PartialEq, Eq, Structural)]
pub struct Rate {
    pub bytes: u32,
    pub ms: u64,
}

/// A dimensionless multiplier, `num / den`.
#[derive(Debug, Clone, Copy, PartialEq, Eq, Structural)]
pub struct Gain {
    pub num: u64,
    pub den: u64,
}

/// A rate scaled by a gain: `gain * rate`, the rate at which a sender paces itself.
#[derive(Debug, Clone, Copy, PartialEq, Eq, Structural)]
pub struct Pace {
    pub gain: Gain,
    pub rate: Rate,
}

/// `a >= b`, the fractions compared by cross-multiplication.
#[verifier::opaque]
pub open spec fn rate_at_least(a: Rate, b: Rate) -> bool {
    a.bytes * b.ms >= b.bytes * a.ms
}

/// No bytes at all.
pub open spec fn zero_rate() -> Rate {
    Rate { bytes: 0, ms: 1 }
}

/// The bytes that `gain * rate` delivers in `ms` milliseconds, rounded down.
pub open spec fn delivered_in(gain: Gain, rate: Rate, ms: int) -> int {
    (gain.num * (rate.bytes * ms)) / (gain.den * rate.ms)
}

/// The whole milliseconds that `pace` needs for `n` bytes, rounded up, and at least one.
pub open spec fn gap_for(pace: Pace, n: int) -> int {
    let exact = n * (pace.gain.den * pace.rate.ms);
    let speed = pace.gain.num * pace.rate.bytes as int;
    if exact <= speed {
        1
    } else {
        (exact + speed - 1) / speed
    }
}

/// The largest numerator or denominator of a gain.
pub const GAIN_LIMIT: u64 = 2_885_390_081_777_927;

impl Gain {
    /// A fraction of at least a quarter, with parts of bounded size.
    pub open spec fn wf(self) -> bool {
        self.num <= GAIN_LIMIT && 0 < self.den <= GAIN_LIMIT && self.den <= 4 * self.num
    }
}

impl Rate {
    /// Measured over a time that is not zero.
    pub open spec fn wf(self) -> bool {
        self.ms > 0
    }

    pub fn zero() -> (r: Rate)
        ensures
            r == zero_rate(),
            r.wf(),
    {
        Rate { bytes: 0, ms: 1 }
    }

    /// Is this rate at least `other`?
    pub fn at_least(&self, other: &Rate) -> (r: bool)
        ensures
            r == rate_at_least(*self, *other),
    {
        proof {
            reveal(rate_at_least);
            lemma_product_bound(self.bytes, other.ms);
            lemma_product_bound(other.bytes, self.ms);
        }
        self.bytes as u128 * other.ms as u128 >= other.bytes as u128 * self.ms as u128
    }

    /// Is this rate at least five quarters of `other`?
    pub fn grew_by_a_quarter(&self, other: &Rate) -> (r: bool)
        ensures
            r == (4 * (self.bytes * other.ms) >= 5 * (other.bytes * self.ms)),
    {
        proof {
            lemma_product_bound(self.bytes, other.ms);
            lemma_product_bound(other.bytes, self.ms);
        }
        4 * (self.bytes as u128 * other.ms as u128) >= 5 * (other.bytes as u128
            * self.ms as u128)
    }

    /// The bytes that `gain` times this rate delivers in `ms` milliseconds, rounded down and cut
    /// off at the largest 32-bit number.
    pub fn delivered(&self, gain: Gain, ms: u64) -> (bytes: u32)
        requires
            self.wf(),
            gain.wf(),
        ensures
            bytes == crate::congestion::sat32(delivered_in(gain, *self, ms as int)),
    {
        proof {
            lemma_product_bound(self.bytes, ms);
        }
        let x: u128 = self.bytes as u128 * ms as u128;
        let q: u128 = x / self.ms as u128;
        let r: u128 = x % self.ms as u128;
        proof {
            lemma_scaled_quotient(gain.num as int, gain.den as int, x as int, self.ms as int);
        }
        // The fractional part of the quotient, scaled by the gain's numerator.
        assert(gain.num * r < 0x10_0000_0000_0000_0000_0000_0000_0000) by (nonlinear_arith)
            requires
                0 <= gain.num <= 2_885_390_081_777_927,
                0 <= r < 0x1_0000_0000_0000_0000,
        ;
        let part: u128 = gain.num as u128 * r / self.ms as u128;
        // A gain of at least a quarter takes a quotient this large past 32 bits.
        if q >= 0x4_0000_0000 {
            assert((gain.num * q + part) / (gain.den as int) >= 0x1_0000_0000) by (nonlinear_arith)
                requires
                    q >= 0x4_0000_0000,
                    part >= 0,
                    0 < gain.den <= 4 * gain.num,
            ;
            return u32::MAX;
        }
        assert(gain.num * q <= 2_885_390_081_777_927 * 0x4_0000_0000) by (nonlinear_arith)
            requires
                0 <= gain.num <= 2_885_390_081_777_927,
                0 <= q < 0x4_0000_0000,
        ;
        let whole: u128 = (gain.num as u128 * q + part) / gain.den as u128;
        if whole > u32::MAX as u128 {
            u32::MAX
        } else {
            whole as u32
        }
    }
}

impl Pace {
    /// Is this a standstill? A sender without a modelled rate does not pace.
    pub fn is_zero(&self) -> (r: bool)
        ensures
            r == (self.rate.bytes == 0),
    {
        self.rate.bytes == 0
    }

    /// The milliseconds to leave after sending `n` bytes: `n / pace` rounded up, at least one, and
    /// cut off at the largest 64-bit number.
    pub fn gap_ms(&self, n: u32) -> (ms: u64)
        requires
            self.gain.wf(),
            self.rate.bytes > 0,
            n <= 1460,
        ensures
            ms == (if gap_for(*self, n as int) > u64::MAX {
                u64::MAX as int
            } else {
                gap_for(*self, n as int)
            }),
    {
        assert(self.gain.den * self.rate.ms <= 2_885_390_081_777_927 * 0xffff_ffff_ffff_ffff)
            by (nonlinear_arith)
            requires
                0 <= self.gain.den <= 2_885_390_081_777_927,
                0 <= self.rate.ms <= 0xffff_ffff_ffff_ffff,
        ;
        let per_byte: u128 = self.gain.den as u128 * self.rate.ms as u128;
        assert(n * per_byte <= 1460 * (2_885_390_081_777_927 * 0xffff_ffff_ffff_ffff))
            by (nonlinear_arith)
            requires
                0 <= n <= 1460,
                0 <= per_byte <= 2_885_390_081_777_927 * 0xffff_ffff_ffff_ffff,
        ;
        let exact: u128 = n as u128 * per_byte;
        assert(1 <= self.gain.num * self.rate.bytes <= 2_885_390_081_777_927 * 0xffff_ffff)
            by (nonlinear_arith)
            requires
                1 <= self.gain.num <= 2_885_390_081_777_927,
                1 <= self.rate.bytes <= 0xffff_ffff,
        ;
        let speed: u128 = self.gain.num as u128 * self.rate.bytes as u128;
        if exact <= speed {
            1
        } else {
            let gap: u128 = (exact + (speed - 1)) / speed;
            if gap > u64::MAX as u128 {
                u64::MAX
            } else {
                gap as u64
            }
        }
    }
}

/// The order of rates is transitive.
pub proof fn lemma_rate_order_transitive(a: Rate, b: Rate, c: Rate)
    requires
        b.wf(),
        rate_at_least(a, b),
        rate_at_least(b, c),
    ensures
        rate_at_least(a, c),
{
    reveal(rate_at_least);
    let (ab, am, bb, bm, cb, cm) = (
        a.bytes as int,
        a.ms as int,
        b.bytes as int,
        b.ms as int,
        c.bytes as int,
        c.ms as int,
    );
    assert((ab * bm) * cm >= (bb * am) * cm) by (nonlinear_arith)
        requires
            ab * bm >= bb * am,
            cm >= 0,
    ;
    assert((bb * cm) * am >= (cb * bm) * am) by (nonlinear_arith)
        requires
            bb * cm >= cb * bm,
            am >= 0,
    ;
    assert((bb * am) * cm == (bb * cm) * am) by (nonlinear_arith);
    assert((ab * bm) * cm == bm * (ab * cm)) by (nonlinear_arith);
    assert((cb * bm) * am == bm * (cb * am)) by (nonlinear_arith);
    assert(ab * cm >= cb * am) by (nonlinear_arith)
        requires
            bm * (ab * cm) >= bm * (cb * am),
            bm > 0,
    ;
}

/// Any two rates can be compared.
pub proof fn lemma_rate_order_total(a: Rate, b: Rate)
    ensures
        rate_at_least(a, b) || rate_at_least(b, a),
{
    reveal(rate_at_least);
}

proof fn lemma_product_bound(a: u32, b: u64)
    ensures
        0 <= a * b < 0x1_0000_0000_0000_0000_0000_0000,
{
    assert(0 <= a * b < 0x1_0000_0000 * 0x1_0000_0000_0000_0000) by (nonlinear_arith)
        requires
            0 <= a < 0x1_0000_0000,
            0 <= b < 0x1_0000_0000_0000_0000,
    ;
}

/// Dividing a scaled number in two steps: `gn * x / (gd * y)` from the quotient and the remainder
/// of `x` by `y`.
proof fn lemma_scaled_quotient(gn: int, gd: int, x: int, y: int)
    requires
        0 <= gn,
        0 < gd,
        0 <= x,
        0 < y,
    ensures
        (gn * x) / (gd * y) == (gn * (x / y) + (gn * (x % y)) / y) / gd,
{
    vstd::arithmetic::div_mod::lemma_fundamental_div_mod(x, y);
    let q = x / y;
    let r = x % y;
    assert(gn * x == y * (gn * q) + gn * r) by (nonlinear_arith)
        requires
            x == y * q + r,
    ;
    assert(0 <= gn * x) by (nonlinear_arith)
        requires
            0 <= gn,
            0 <= x,
    ;
    vstd::arithmetic::div_mod::lemma_hoist_over_denominator(gn * r, gn * q, y as nat);
    assert((gn * x) / y == gn * q + (gn * r) / y) by {
        assert((gn * r) / y + gn * q == (gn * r + (gn * q) * y) / y);
        assert((gn * q) * y == y * (gn * q)) by (nonlinear_arith);
    }
    vstd::arithmetic::div_mod::lemma_div_denominator(gn * x, y, gd);
    assert(y * gd == gd * y) by (nonlinear_arith);
}

/// What a rate delivers in a time is the largest whole number of bytes that does not exceed
/// `gain * rate * time`.
pub proof fn law_delivery_is_rate_times_time(gain: Gain, rate: Rate, ms: int)
    requires
        gain.den > 0,
        rate.ms > 0,
        0 <= ms,
    ensures
        ({
            let n = delivered_in(gain, rate, ms);
            n * (gain.den * rate.ms) <= gain.num * rate.bytes * ms < (n + 1) * (gain.den * rate.ms)
        }),
{
    let x = gain.num * (rate.bytes * ms);
    let d = gain.den * rate.ms;
    let n = delivered_in(gain, rate, ms);
    assert(d > 0) by (nonlinear_arith)
        requires
            d == gain.den * rate.ms,
            gain.den > 0,
            rate.ms > 0,
    ;
    assert(x == gain.num * rate.bytes * ms) by (nonlinear_arith)
        requires
            x == gain.num * (rate.bytes * ms),
    ;
    vstd::arithmetic::div_mod::lemma_fundamental_div_mod(x, d);
    vstd::arithmetic::div_mod::lemma_mod_bound(x, d);
    assert(n * d == d * n && (n + 1) * d == d * n + d) by (nonlinear_arith);
}

/// The gap after a segment is the shortest whole time, at least a millisecond, in which the paced
/// rate delivers as many bytes.
pub proof fn law_gap_is_time_at_the_paced_rate(pace: Pace, n: int)
    requires
        pace.gain.num > 0,
        pace.rate.bytes > 0,
        0 <= n,
    ensures
        ({
            let gap = gap_for(pace, n);
            let speed = pace.gain.num * pace.rate.bytes;
            let need = n * (pace.gain.den * pace.rate.ms);
            &&& gap >= 1
            &&& gap * speed >= need
            &&& gap > 1 ==> (gap - 1) * speed < need
        }),
{
    let speed = pace.gain.num * pace.rate.bytes as int;
    let need = n * (pace.gain.den * pace.rate.ms);
    let gap = gap_for(pace, n);
    assert(speed > 0) by (nonlinear_arith)
        requires
            speed == pace.gain.num * pace.rate.bytes as int,
            pace.gain.num > 0,
            pace.rate.bytes > 0,
    ;
    if need <= speed {
        assert(1 * speed == speed);
    } else {
        vstd::arithmetic::div_mod::lemma_fundamental_div_mod(need + speed - 1, speed);
        vstd::arithmetic::div_mod::lemma_mod_bound(need + speed - 1, speed);
        assert(gap * speed == speed * gap && (gap - 1) * speed == speed * gap - speed)
            by (nonlinear_arith);
        assert(gap >= 1) by (nonlinear_arith)
            requires
                speed * gap >= need,
                need > speed,
                speed > 0,
        ;
    }
}

} // verus!
