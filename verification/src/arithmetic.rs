//! A bitwise binary arithmetic coder.
//!
//! Intervals inside `[0, 1]` are held in fixed point with denominator
//! `2^32`: `below` is the lower bound and `above` is one minus the upper
//! bound, both times `2^32`. A probability model ([`Split`]) partitions
//! an interval in two; writing a bit keeps one part and renormalises by
//! repeatedly doubling ("growing") the working interval, emitting bits
//! as the interval commits to the lower or upper half of `[0, 1]` and
//! counting pending inversion bits while it straddles the middle.

use vstd::prelude::*;
use vstd::arithmetic::div_mod::{
    lemma_fundamental_div_mod, lemma_div_multiples_vanish_fancy,
};
use vstd::arithmetic::power2::{pow2, lemma_pow2_unfold, lemma2_to64};

use crate::bits::BitString;

verus! {

/// The fixed-point denominator.
pub const SCALE: u64 = 0x1_0000_0000;

/// Division of `x` by `2^32`, rounding to even.
pub open spec fn round_div_even(x: int) -> int {
    (x + 0x7FFF_FFFF + ((x / 0x1_0000_0000) % 2)) / 0x1_0000_0000
}

/// `(q * 2^32 + c) / 2^32` for a remainder-like `c` below `2^33`.
proof fn lemma_qs_plus(q: int, c: int)
    requires
        0 <= c < 2 * 0x1_0000_0000,
    ensures
        (q * 0x1_0000_0000 + c) / 0x1_0000_0000 == if c < 0x1_0000_0000 {
            q
        } else {
            q + 1
        },
{
    let s = 0x1_0000_0000 as int;
    if c < s {
        lemma_div_multiples_vanish_fancy(q, c, s);
        assert(s * q == q * s) by (nonlinear_arith);
    } else {
        lemma_div_multiples_vanish_fancy(q + 1, c - s, s);
        assert(s * (q + 1) + (c - s) == q * s + c) by (nonlinear_arith);
    }
}

/// Divide by [`SCALE`], rounding to even.
fn divide_by_scale(x: u64) -> (r: u32)
    requires
        x <= u64::MAX - 0x8000_0000,
    ensures
        r == round_div_even(x as int),
{
    let nudge = (x / SCALE) % 2;
    let y = x + 0x7FFF_FFFF + nudge;
    proof {
        let s = 0x1_0000_0000 as int;
        lemma_fundamental_div_mod(y as int, s);
        assert((y as int) / s <= u32::MAX) by (nonlinear_arith)
            requires
                y as int == s * ((y as int) / s) + ((y as int) % s),
                0 <= (y as int) % s,
                y <= u64::MAX,
                s == 0x1_0000_0000,
        ;
    }
    (y / SCALE) as u32
}

// ----------------------------------------------------------------------------

/// Represents a model of the relative probability of `false` and `true`.
#[derive(Debug, Copy, Clone, PartialEq, Eq, Structural)]
pub struct Split {
    /// [`SCALE`] times the probability of `true`, clipped away from both
    /// ends so that a split always moves both boundaries.
    p1: u32,
}

/// Clip a probability so that `4 <= p1 <= 2^32 - 4`.
pub open spec fn clip_p1(p1: int) -> int {
    if p1 < 4 {
        4
    } else if p1 > 0xFFFF_FFFC {
        0xFFFF_FFFC
    } else {
        p1
    }
}

/// The probability, rounded to nearest, that [`Split::new_ratio`] clips.
pub open spec fn ratio_p1(f0: int, f1: int) -> int {
    (f1 * 0x1_0000_0000 + (f0 + f1) / 2) / (f0 + f1)
}

impl Split {
    /// [`SCALE`] times the probability of `true`.
    pub closed spec fn p1(self) -> int {
        self.p1 as int
    }

    /// The probability is clipped away from both ends.
    pub closed spec fn wf(self) -> bool {
        4 <= self.p1 <= 0xFFFF_FFFCu32
    }

    /// Constructs a `Split` given [`SCALE`] times the probability of
    /// `true`, clipping it away from the exact ends.
    pub fn new_inner(p1: u32) -> (r: Self)
        ensures
            r.wf(),
            r.p1() == clip_p1(p1 as int),
    {
        let p1 = if p1 > 0xFFFF_FFFC { 0xFFFF_FFFC } else { p1 };
        let p1 = if p1 < 4 { 4 } else { p1 };
        Self { p1 }
    }

    /// Constructs a `Split` given the frequency of `false` and the
    /// frequency of `true`.
    pub fn new_ratio(f0: u64, f1: u64) -> (r: Self)
        requires
            0 < f0 + f1 <= u64::MAX,
        ensures
            r.wf(),
            r.p1() == clip_p1(ratio_p1(f0 as int, f1 as int)),
    {
        let total = f0 + f1;
        proof {
            assert((f1 as int) * 0x1_0000_0000 <= 0xFFFF_FFFF_FFFF_FFFF * 0x1_0000_0000)
                by (nonlinear_arith)
                requires
                    f1 <= 0xFFFF_FFFF_FFFF_FFFFu64,
            ;
        }
        let q: u128 = ((f1 as u128) * 0x1_0000_0000u128 + ((total / 2) as u128)) / (total as u128);
        proof {
            let s = 0x1_0000_0000 as int;
            let t = total as int;
            let num = f1 as int * s + t / 2;
            lemma_fundamental_div_mod(num, t);
            assert(f1 <= total);
            assert(num <= t * s + t / 2) by (nonlinear_arith)
                requires
                    num == f1 as int * s + t / 2,
                    0 <= f1 as int <= t,
                    0 < s,
            ;
            assert(num < t * (s + 1)) by (nonlinear_arith)
                requires
                    num <= t * s + t / 2,
                    0 < t,
            ;
            assert(num / t <= s) by (nonlinear_arith)
                requires
                    num == t * (num / t) + num % t,
                    0 <= num % t,
                    0 < t,
                    num < t * (s + 1),
            ;
        }
        let p1: u32 = if q > 0xFFFF_FFFC { 0xFFFF_FFFC } else { q as u32 };
        let r = Self::new_inner(p1);
        proof {
            assert(clip_p1(p1 as int) == clip_p1(ratio_p1(f0 as int, f1 as int)));
        }
        r
    }
}

// ----------------------------------------------------------------------------

/// Represents an interval inside `[0, 1]`, in fixed point.
#[derive(Debug, Copy, Clone, PartialEq, Eq, Structural)]
pub struct Interval {
    /// The lower bound minus `0`, times [`SCALE`].
    pub below: u32,

    /// `1` minus the upper bound, times [`SCALE`].
    pub above: u32,
}

impl Interval {
    /// The width of the interval, times [`SCALE`]. A well-formed
    /// interval is non-empty.
    pub open spec fn width(self) -> int {
        0x1_0000_0000 - self.below - self.above
    }

    /// The interval is non-empty.
    pub open spec fn wf(self) -> bool {
        self.below + self.above <= u32::MAX
    }

    /// `self` contains (inclusively) `other`.
    pub open spec fn spec_contains(self, other: Self) -> bool {
        self.below <= other.below && self.above <= other.above
    }

    /// The boundary where a split of `self` under probability `p1` puts
    /// the upper end of the `false` part, measured as an `above` value.
    pub open spec fn split_above(self, p1: int) -> int {
        round_div_even(self.above * 0x1_0000_0000 + p1 * self.width())
    }

    /// The part of `self` that a split keeps for bit `data`.
    pub open spec fn split_part(self, p1: int, data: bool) -> Interval {
        if data {
            Interval { below: (0x1_0000_0000 - self.split_above(p1)) as u32, above: self.above }
        } else {
            Interval { below: self.below, above: self.split_above(p1) as u32 }
        }
    }

    pub fn new(below: u32, above: u32) -> (r: Self)
        requires
            below + above <= u32::MAX,
        ensures
            r == (Interval { below, above }),
    {
        Self { below, above }
    }

    /// Split this `Interval` into two: one for `false` and one for
    /// `true`. The two parts share the outer boundaries of `self` and
    /// meet at the split point, and both are non-empty.
    #[must_use]
    pub fn split(self, model: Split) -> (r: (Self, Self))
        requires
            self.wf(),
            model.wf(),
            model.p1() * self.width() > 0x8000_0000,
            (0x1_0000_0000 - model.p1()) * self.width() > 0x8000_0000,
        ensures
            r.0 == self.split_part(model.p1(), false),
            r.1 == self.split_part(model.p1(), true),
            self.above < self.split_above(model.p1()) <= 0xFFFF_FFFF - self.below,
            r.0.wf() && r.0.width() >= 1,
            r.1.wf() && r.1.width() >= 1,
            r.0.below == self.below && r.1.above == self.above,
            r.1.below + r.0.above == 0x1_0000_0000,
            r.0.width() + r.1.width() == self.width(),
            self.spec_contains(r.0) && self.spec_contains(r.1),
    {
        let p1 = model.p1 as u64;
        let p0 = SCALE - p1;
        let b = self.below as u64;
        let a = self.above as u64;
        proof {
            lemma_split_products(b as int, a as int, p0 as int, p1 as int);
        }
        let x_below = b * p1 + SCALE * p0 - a * p0;
        let x_above = a * p0 + SCALE * p1 - b * p1;
        let below = divide_by_scale(x_below);
        let above = divide_by_scale(x_above);
        proof {
            let s = 0x1_0000_0000 as int;
            let w = self.width();
            lemma_split_bounds(a as int, p1 as int, w);
            lemma_split_bounds(b as int, p0 as int, w);
            lemma_round_pair(a as int * s + p1 as int * w, b as int * s + p0 as int * w);
        }
        (Self::new(self.below, above), Self::new(below, self.above))
    }

    /// Equivalent to splitting under the fair model, but accepts any
    /// non-empty interval of width at least `2`.
    #[must_use]
    pub fn half(self) -> (r: (Self, Self))
        requires
            self.wf(),
            self.width() >= 2,
        ensures
            r.0 == self.split_part(0x8000_0000, false),
            r.1 == self.split_part(0x8000_0000, true),
            self.above < self.split_above(0x8000_0000) <= 0xFFFF_FFFF - self.below,
            r.0.wf() && r.0.width() >= 1,
            r.1.wf() && r.1.width() >= 1,
            r.0.below == self.below && r.1.above == self.above,
            r.0.width() + r.1.width() == self.width(),
            self.spec_contains(r.0) && self.spec_contains(r.1),
    {
        proof {
            assert(0x8000_0000 * self.width() > 0x8000_0000) by (nonlinear_arith)
                requires
                    self.width() >= 2,
            ;
        }
        self.split(Split { p1: 0x8000_0000 })
    }

    /// Returns `true` if `self` contains (inclusively) `other`.
    pub fn contains(self, other: Self) -> (r: bool)
        ensures
            r == self.spec_contains(other),
    {
        self.below <= other.below && self.above <= other.above
    }

    /// The result of mapping `half` to the whole of `[0, 1]` and `self`
    /// along with it.
    pub open spec fn grown(self, half: Interval) -> Interval {
        Interval {
            below: (2 * (self.below - half.below)) as u32,
            above: (2 * (self.above - half.above)) as u32,
        }
    }

    /// Applies a twofold enlargement that maps `half` to the whole of
    /// `[0, 1]`. `half` must contain `self` and must be exactly half the
    /// size of the whole interval.
    pub fn grow(&mut self, half: Interval)
        requires
            old(self).wf(),
            half.spec_contains(*old(self)),
            half.below + half.above == 0x8000_0000,
        ensures
            *final(self) == old(self).grown(half),
            final(self).wf(),
            final(self).width() == 2 * old(self).width(),
    {
        self.below = 2 * (self.below - half.below);
        self.above = 2 * (self.above - half.above);
    }
}

/// The exact products that `Interval::split` computes, rewritten over
/// the interval's width.
proof fn lemma_split_products(b: int, a: int, p0: int, p1: int)
    by (nonlinear_arith)
    requires
        0 <= b,
        0 <= a,
        a + b < 0x1_0000_0000,
        4 <= p1,
        p0 == 0x1_0000_0000 - p1,
        4 <= p0,
    ensures
        b * p1 + 0x1_0000_0000 * p0 - a * p0 == b * 0x1_0000_0000 + p0 * (0x1_0000_0000 - a - b),
        a * p0 + 0x1_0000_0000 * p1 - b * p1 == a * 0x1_0000_0000 + p1 * (0x1_0000_0000 - a - b),
        a * p0 <= a * p0 + 0x1_0000_0000 * p1,
        b * p1 <= b * p1 + 0x1_0000_0000 * p0,
        b * p1 + 0x1_0000_0000 * p0 <= 0xFFFF_FFFF_FFFF_FFFF,
        a * p0 + 0x1_0000_0000 * p1 <= 0xFFFF_FFFF_FFFF_FFFF,
{
}

/// Bounds on the rounded split boundary `round((e*2^32 + p*w) / 2^32)`:
/// it moves strictly past `e` and leaves at least one unit of width on
/// the other side.
proof fn lemma_split_bounds(e: int, p: int, w: int)
    requires
        0 <= e,
        1 <= w,
        e + w <= 0x1_0000_0000,
        0 < p < 0x1_0000_0000,
        p * w > 0x8000_0000,
        (0x1_0000_0000 - p) * w > 0x8000_0000,
    ensures
        e + 1 <= round_div_even(e * 0x1_0000_0000 + p * w) <= e + w - 1,
        e * 0x1_0000_0000 + p * w <= 0xFFFF_FFFF_FFFF_FFFF - 0x8000_0000,
{
    let s = 0x1_0000_0000 as int;
    let x = e * s + p * w;
    assert(0 <= p * w <= s * w - 0x8000_0000 - 1) by (nonlinear_arith)
        requires
            0 < p < s,
            1 <= w,
            (s - p) * w > 0x8000_0000,
            s == 0x1_0000_0000,
    ;
    assert(e * s + s * w <= s * s) by (nonlinear_arith)
        requires
            0 <= e,
            e + w <= s,
            s == 0x1_0000_0000,
    ;
    // So x <= s*s - 0x8000_0000 - 1, which gives the overflow bound.
    let q = x / s;
    let r = x % s;
    lemma_fundamental_div_mod(x, s);
    let c = r + 0x7FFF_FFFF + (q % 2);
    lemma_qs_plus(q, c);
    assert(x + 0x7FFF_FFFF + (q % 2) == q * s + c);
    assert(round_div_even(x) == (q * s + c) / s);
    // Lower bound: x >= e*s + 0x8000_0000 + 1, so round(x) >= e + 1.
    assert(x >= e * s + 0x8000_0000 + 1);
    assert(q * s + r >= e * s + 0x8000_0000 + 1);
    assert(q >= e ==> true);
    assert((q - e) * s >= 0x8000_0000 + 1 - r) by (nonlinear_arith)
        requires
            q * s + r >= e * s + 0x8000_0000 + 1,
    ;
    if q == e {
        assert(r >= 0x8000_0000 + 1);
        assert(c >= s);
        assert(round_div_even(x) == q + 1);
    } else {
        assert(q >= e + 1) by (nonlinear_arith)
            requires
                (q - e) * s >= 0x8000_0000 + 1 - r,
                0 <= r < s,
                s == 0x1_0000_0000,
                q != e,
        ;
        assert(round_div_even(x) >= q);
    }
    // Upper bound: x <= (e + w)*s - 0x8000_0000 - 1.
    assert(x <= (e + w) * s - 0x8000_0000 - 1) by (nonlinear_arith)
        requires
            x == e * s + p * w,
            p * w <= s * w - 0x8000_0000 - 1,
            s == 0x1_0000_0000,
    ;
    assert((e + w - q) * s >= r + 0x8000_0000 + 1 - s + s) by (nonlinear_arith)
        requires
            q * s + r == x,
            x <= (e + w) * s - 0x8000_0000 - 1,
    ;
    if q == e + w - 1 {
        assert((e + w - q) * s == s);
        assert(r <= s - 0x8000_0000 - 1);
        assert(c < s);
        assert(round_div_even(x) == q);
    } else {
        assert(q <= e + w - 2) by (nonlinear_arith)
            requires
                (e + w - q) * s >= r + 0x8000_0000 + 1,
                r >= 0,
                s == 0x1_0000_0000,
                q != e + w - 1,
                q * s + r == x,
                x >= e * s + 0x8000_0000 + 1,
                x <= (e + w) * s - 0x8000_0000 - 1,
        ;
        assert(round_div_even(x) <= q + 1);
    }
}

/// The two rounded boundaries of a split are complementary: rounding to
/// even sends complementary remainders in opposite directions.
proof fn lemma_round_pair(x0: int, x1: int)
    requires
        0 <= x0,
        0 <= x1,
        x0 + x1 == 0x1_0000_0000_0000_0000,
    ensures
        round_div_even(x0) + round_div_even(x1) == 0x1_0000_0000,
{
    let s = 0x1_0000_0000 as int;
    let q0 = x0 / s;
    let r0 = x0 % s;
    let q1 = x1 / s;
    let r1 = x1 % s;
    lemma_fundamental_div_mod(x0, s);
    lemma_fundamental_div_mod(x1, s);
    assert(s * (q0 + q1) + (r0 + r1) == s * s) by (nonlinear_arith)
        requires
            x0 == s * q0 + r0,
            x1 == s * q1 + r1,
            x0 + x1 == s * s,
    ;
    assert(r0 + r1 == s * (s - q0 - q1)) by (nonlinear_arith)
        requires
            s * (q0 + q1) + (r0 + r1) == s * s,
    ;
    assert(0 <= r0 < s);
    assert(0 <= r1 < s);
    // r0 + r1 is a multiple of s in [0, 2s), hence 0 or s.
    let k = s - q0 - q1;
    assert(0 <= s * k < 2 * s ==> k == 0 || k == 1) by (nonlinear_arith)
        requires
            s == 0x1_0000_0000,
    ;
    let c0 = r0 + 0x7FFF_FFFF + (q0 % 2);
    let c1 = r1 + 0x7FFF_FFFF + (q1 % 2);
    lemma_qs_plus(q0, c0);
    lemma_qs_plus(q1, c1);
    assert(round_div_even(x0) == (q0 * s + c0) / s);
    assert(round_div_even(x1) == (q1 * s + c1) / s);
    if k == 0 {
        // r0 == r1 == 0 and q0 + q1 == s.
        assert(r0 == 0 && r1 == 0);
        assert(c0 < s && c1 < s);
    } else {
        // r0 + r1 == s and q0 + q1 == s - 1, an odd total.
        assert(r0 + r1 == s);
        assert(q0 + q1 == s - 1);
        assert((q0 % 2) + (q1 % 2) == 1) by (nonlinear_arith)
            requires
                q0 + q1 == 0x1_0000_0000 - 1,
                0 <= q0,
                0 <= q1,
        ;
        if r0 < 0x8000_0000 {
            assert(c0 < s);
            assert(r1 > 0x8000_0000 || (r1 == 0x8000_0000 && r0 == 0x8000_0000));
            assert(c1 >= s);
        } else if r0 > 0x8000_0000 {
            assert(c0 >= s);
            assert(r1 < 0x8000_0000);
            assert(c1 < s);
        } else {
            // Both remainders sit exactly at one half; exactly one
            // quotient is odd, and only that one rounds up.
            assert(r1 == 0x8000_0000);
            if q0 % 2 == 1 {
                assert(c0 >= s && c1 < s);
            } else {
                assert(c0 < s && c1 >= s);
            }
        }
    }
}

/// The lower half `[0, 0.5]` of the whole interval.
pub open spec fn lower_half() -> Interval {
    Interval { below: 0u32, above: 0x8000_0000u32 }
}

/// The upper half `[0.5, 1]` of the whole interval.
pub open spec fn upper_half() -> Interval {
    Interval { below: 0x8000_0000u32, above: 0u32 }
}

/// The middle half `[0.25, 0.75]` of the whole interval.
pub open spec fn middle_half() -> Interval {
    Interval { below: 0x4000_0000u32, above: 0x4000_0000u32 }
}

/// The whole interval `[0, 1]`.
pub open spec fn whole() -> Interval {
    Interval { below: 0u32, above: 0u32 }
}

/// A working interval is renormalised until it is contained in none of
/// the three growable halves.
pub open spec fn normalized(i: Interval) -> bool {
    &&& !lower_half().spec_contains(i)
    &&& !upper_half().spec_contains(i)
    &&& !middle_half().spec_contains(i)
}

/// How many doublings take a width of `w` up to the whole scale.
pub open spec fn doublings(w: int) -> nat
    decreases 0x1_0000_0000 - w,
{
    if w < 1 || w >= 0x1_0000_0000 {
        0
    } else if 2 * w >= 0x1_0000_0000 {
        1
    } else {
        1 + doublings(2 * w)
    }
}

/// A positive width reaches the whole scale within 32 doublings.
proof fn lemma_doublings_le(w: int, k: nat)
    requires
        1 <= w,
        vstd::arithmetic::power2::pow2(k) * w >= 0x1_0000_0000,
    ensures
        doublings(w) <= k,
    decreases k,
{
    if w >= 0x1_0000_0000 {
    } else {
        if k == 0 {
            assert(pow2(0) == 1) by {
                lemma2_to64();
            }
        }
        assert(k >= 1);
        if 2 * w < 0x1_0000_0000 {
            assert(pow2(k) == 2 * pow2((k - 1) as nat)) by {
                lemma_pow2_unfold(k);
            }
            assert(pow2((k - 1) as nat) * (2 * w) >= 0x1_0000_0000) by (nonlinear_arith)
                requires
                    pow2(k) * w >= 0x1_0000_0000,
                    pow2(k) == 2 * pow2((k - 1) as nat),
            ;
            lemma_doublings_le(2 * w, (k - 1) as nat);
        }
    }
}

/// A positive width is at most 32 doublings from the whole scale.
proof fn lemma_doublings_le_32(w: int)
    requires
        1 <= w,
    ensures
        doublings(w) <= 32,
{
    assert(pow2(32) == 0x1_0000_0000) by {
        lemma2_to64();
    }
    assert(pow2(32) * w >= 0x1_0000_0000) by (nonlinear_arith)
        requires
            pow2(32) == 0x1_0000_0000,
            w >= 1,
    ;
    lemma_doublings_le(w, 32);
}

/// What the encoder's renormalisation loop does to the working interval
/// `i`, the pending middle count `mc` and the emitted bits `out`: map
/// the lower or upper half to the whole, emitting the decided bit and
/// the pending inversions, or count a middle containment, until the
/// interval is contained in none of the three halves.
pub open spec fn write_norm(i: Interval, mc: nat, out: Seq<bool>) -> (Interval, nat, Seq<bool>)
    decreases 0x1_0000_0000 - i.width(),
{
    if i.width() < 1 {
        (i, mc, out)
    } else if lower_half().spec_contains(i) {
        write_norm(i.grown(lower_half()), 0, out.push(false) + Seq::new(mc, |j: int| true))
    } else if upper_half().spec_contains(i) {
        write_norm(i.grown(upper_half()), 0, out.push(true) + Seq::new(mc, |j: int| false))
    } else if middle_half().spec_contains(i) {
        write_norm(i.grown(middle_half()), mc + 1, out)
    } else {
        (i, mc, out)
    }
}

/// Renormalisation only appends to the emitted bits: what was written
/// before a call of [`Writer::write`] is a prefix of what stands
/// written after it.
pub proof fn lemma_write_norm_appends(i: Interval, mc: nat, out: Seq<bool>)
    ensures
        out.is_prefix_of(write_norm(i, mc, out).2),
    decreases 0x1_0000_0000 - i.width(),
{
    if i.width() < 1 {
    } else if lower_half().spec_contains(i) {
        lemma_write_norm_appends(
            i.grown(lower_half()),
            0,
            out.push(false) + Seq::new(mc, |j: int| true),
        );
        assert(out.is_prefix_of(out.push(false) + Seq::new(mc, |j: int| true)));
    } else if upper_half().spec_contains(i) {
        lemma_write_norm_appends(
            i.grown(upper_half()),
            0,
            out.push(true) + Seq::new(mc, |j: int| false),
        );
        assert(out.is_prefix_of(out.push(true) + Seq::new(mc, |j: int| false)));
    } else if middle_half().spec_contains(i) {
        lemma_write_norm_appends(i.grown(middle_half()), mc + 1, out);
    } else {
    }
}

/// The decoder's bisection only moves forward in the input: the read
/// position that [`decide`] reports never precedes the one it started
/// from.
pub proof fn lemma_decide_advances(
    i0: Interval,
    i1: Interval,
    fair: Interval,
    bits: Seq<bool>,
    pos: int,
)
    ensures
        decide(i0, i1, fair, bits, pos).2 >= pos,
    decreases bits.len() - pos,
{
    if i0.spec_contains(fair) || i1.spec_contains(fair) || fair.width() < 2 || pos < 0 || pos
        >= bits.len() {
    } else {
        lemma_decide_advances(i0, i1, fair.split_part(0x8000_0000, bits[pos]), bits, pos + 1);
    }
}

/// What the decoder's renormalisation loop does to the unfair and fair
/// intervals: both are grown by the same halves, steered by the unfair
/// one.
pub open spec fn read_norm(u: Interval, f: Interval) -> (Interval, Interval)
    decreases 0x1_0000_0000 - u.width(),
{
    if u.width() < 1 {
        (u, f)
    } else if lower_half().spec_contains(u) {
        read_norm(u.grown(lower_half()), f.grown(lower_half()))
    } else if upper_half().spec_contains(u) {
        read_norm(u.grown(upper_half()), f.grown(upper_half()))
    } else if middle_half().spec_contains(u) {
        read_norm(u.grown(middle_half()), f.grown(middle_half()))
    } else {
        (u, f)
    }
}

/// What the decoder's bisection loop decides: starting from the fair
/// interval `fair` and the input bits at `pos`, the fair interval is
/// halved along consumed bits until it lies in the `false` part `i0` or
/// the `true` part `i1` of the working interval. The result carries the
/// decoded bit (absent at the end of input), the final fair interval
/// and the new read position.
pub open spec fn decide(
    i0: Interval,
    i1: Interval,
    fair: Interval,
    bits: Seq<bool>,
    pos: int,
) -> (Option<bool>, Interval, int)
    decreases bits.len() - pos,
{
    if i0.spec_contains(fair) {
        (Some(false), fair, pos)
    } else if i1.spec_contains(fair) {
        (Some(true), fair, pos)
    } else if fair.width() < 2 {
        (None, fair, pos)
    } else if pos < 0 || pos >= bits.len() {
        (None, fair, pos)
    } else {
        decide(i0, i1, fair.split_part(0x8000_0000, bits[pos]), bits, pos + 1)
    }
}

// ----------------------------------------------------------------------------

/// Reads a stream of bits from a [`BitString`].
#[derive(Debug)]
pub struct BitReader {
    inner: BitString,
    pos: usize,
}

impl BitReader {
    /// The bits being read.
    pub closed spec fn bits(self) -> Seq<bool> {
        self.inner@
    }

    /// The position of the next bit to read.
    pub closed spec fn pos(self) -> int {
        self.pos as int
    }

    /// The bit string is well formed and the position is within range.
    pub closed spec fn wf(self) -> bool {
        &&& self.inner.wf()
        &&& self.pos <= self.inner@.len()
    }

    pub fn new(inner: BitString) -> (r: Self)
        requires
            inner.wf(),
        ensures
            r.wf(),
            r.bits() == inner@,
            r.pos() == 0,
    {
        Self { inner, pos: 0 }
    }

    /// Read one bit, or return `None` at the end of the stream.
    pub fn read(&mut self) -> (r: Option<bool>)
        requires
            old(self).wf(),
        ensures
            final(self).wf(),
            final(self).bits() == old(self).bits(),
            old(self).pos() < old(self).bits().len() ==> r == Some(
                old(self).bits()[old(self).pos()],
            ) && final(self).pos() == old(self).pos() + 1,
            old(self).pos() >= old(self).bits().len() ==> r == Option::<bool>::None
                && final(self).pos() == old(self).pos(),
    {
        if self.pos < self.inner.len() {
            let b = self.inner.bit_at(self.pos);
            self.pos = self.pos + 1;
            Some(b)
        } else {
            None
        }
    }

    /// Hand back the underlying bit sequence.
    pub fn close(self) -> (r: BitString)
        ensures
            r@ == self.bits(),
            self.wf() ==> r.wf(),
    {
        self.inner
    }
}

// ----------------------------------------------------------------------------

/// Writes a stream of bits into a [`BitString`].
#[derive(Debug)]
pub struct BitWriter {
    inner: BitString,
}

impl BitWriter {
    /// The bits written so far.
    pub closed spec fn bits(self) -> Seq<bool> {
        self.inner@
    }

    /// The bit string is well formed.
    pub closed spec fn wf(self) -> bool {
        self.inner.wf()
    }

    pub fn new(inner: BitString) -> (r: Self)
        requires
            inner.wf(),
        ensures
            r.wf(),
            r.bits() == inner@,
    {
        Self { inner }
    }

    /// Write one bit.
    pub fn write(&mut self, data: bool)
        requires
            old(self).wf(),
            old(self).bits().len() < usize::MAX,
        ensures
            final(self).wf(),
            final(self).bits() == old(self).bits().push(data),
    {
        self.inner.push(data);
    }

    /// Hand back the underlying bit sequence. The sequence has bit
    /// granularity, so no padding is needed.
    pub fn close(self) -> (r: BitString)
        ensures
            r@ == self.bits(),
            self.wf() ==> r.wf(),
    {
        self.inner
    }
}

// ----------------------------------------------------------------------------

/// Write arithmetic-encoded data.
#[derive(Debug)]
pub struct Writer {
    inner: BitWriter,
    unfair: Interval,
    middle_count: usize,
}

impl Writer {
    /// The bits emitted so far.
    pub closed spec fn bits(self) -> Seq<bool> {
        self.inner.bits()
    }

    /// The working interval.
    pub closed spec fn unfair(self) -> Interval {
        self.unfair
    }

    /// The number of pending inversion bits.
    pub closed spec fn middle_count(self) -> nat {
        self.middle_count as nat
    }

    /// The output is well formed and the working interval is non-empty
    /// and renormalised.
    pub closed spec fn wf(self) -> bool {
        &&& self.inner.wf()
        &&& self.unfair.wf()
        &&& normalized(self.unfair)
    }

    pub fn new(inner: BitWriter) -> (r: Self)
        requires
            inner.wf(),
        ensures
            r.wf(),
            r.bits() == inner.bits(),
            r.unfair() == whole(),
            r.middle_count() == 0,
    {
        Self { inner, unfair: Interval { below: 0, above: 0 }, middle_count: 0 }
    }

    /// If `half` contains the working interval, map `half` to the whole
    /// interval and return `true`.
    fn grow(&mut self, half: Interval) -> (r: bool)
        requires
            old(self).unfair.wf(),
            half.below + half.above == 0x8000_0000,
        ensures
            r == half.spec_contains(old(self).unfair),
            r ==> final(self).unfair == old(self).unfair.grown(half),
            !r ==> final(self).unfair == old(self).unfair,
            final(self).unfair.wf(),
            final(self).inner == old(self).inner,
            final(self).middle_count == old(self).middle_count,
    {
        if !half.contains(self.unfair) {
            return false;
        }
        self.unfair.grow(half);
        true
    }

    /// Write `data` and then `middle_count` copies of `!data`, and
    /// reset `middle_count`.
    fn inner_write(&mut self, data: bool)
        requires
            old(self).inner.wf(),
            old(self).bits().len() + old(self).middle_count + 1 <= usize::MAX,
        ensures
            final(self).inner.wf(),
            final(self).bits() == old(self).bits().push(data) + Seq::new(
                old(self).middle_count as nat,
                |j: int| !data,
            ),
            final(self).middle_count == 0,
            final(self).unfair == old(self).unfair,
    {
        let ghost bits0 = self.bits();
        let ghost uf0 = self.unfair;
        self.inner.write(data);
        let mc = self.middle_count;
        let mut k: usize = 0;
        while k < mc
            invariant
                k <= mc,
                self.inner.wf(),
                self.bits() == bits0.push(data) + Seq::new(k as nat, |j: int| !data),
                bits0.len() + mc + 1 <= usize::MAX,
                self.unfair == uf0,
                self.middle_count == mc,
            decreases mc - k,
        {
            self.inner.write(!data);
            k = k + 1;
            proof {
                assert(bits0.push(data) + Seq::new(k as nat, |j: int| !data) =~= (bits0.push(
                    data,
                ) + Seq::new((k - 1) as nat, |j: int| !data)).push(!data));
            }
        }
        self.middle_count = 0;
        proof {
            assert(self.bits() =~= bits0.push(data) + Seq::new(mc as nat, |j: int| !data));
        }
    }

    /// Write one biased bit: keep the part of the working interval that
    /// the model assigns to `data`, then renormalise, emitting bits as
    /// the interval commits to the lower or upper half of `[0, 1]`.
    pub fn write(&mut self, model: Split, data: bool)
        requires
            old(self).wf(),
            model.wf(),
            old(self).bits().len() + old(self).middle_count() + 66 <= usize::MAX,
        ensures
            final(self).wf(),
            old(self).bits().is_prefix_of(final(self).bits()),
            ({
                let n = write_norm(
                    old(self).unfair().split_part(model.p1(), data),
                    old(self).middle_count(),
                    old(self).bits(),
                );
                final(self).unfair() == n.0 && final(self).middle_count() == n.1
                    && final(self).bits() == n.2
            }),
    {
        proof {
            lemma_write_norm_appends(
                self.unfair.split_part(model.p1(), data),
                self.middle_count as nat,
                self.bits(),
            );
            lemma_normalized_wide(self.unfair);
            assert(model.p1() * self.unfair.width() > 0x8000_0000) by (nonlinear_arith)
                requires
                    model.p1() >= 4,
                    self.unfair.width() > 0x4000_0000,
            ;
            assert((0x1_0000_0000 - model.p1()) * self.unfair.width() > 0x8000_0000)
                by (nonlinear_arith)
                requires
                    model.p1() <= 0xFFFF_FFFC,
                    self.unfair.width() > 0x4000_0000,
            ;
        }
        let (i0, i1) = self.unfair.split(model);
        self.unfair = if data {
            i1
        } else {
            i0
        };
        let ghost part = self.unfair;
        let ghost mc0 = old(self).middle_count as nat;
        let ghost bits0 = old(self).bits();
        let ghost budget = bits0.len() + mc0 + 66;
        proof {
            lemma_doublings_le_32(self.unfair.width());
        }
        loop
            invariant
                self.inner.wf(),
                self.unfair.wf(),
                write_norm(self.unfair, self.middle_count as nat, self.bits()) == write_norm(
                    part,
                    mc0,
                    bits0,
                ),
                self.bits().len() + self.middle_count + 2 * doublings(self.unfair.width())
                    <= budget,
                budget <= usize::MAX,
            ensures
                self.inner.wf(),
                self.unfair.wf(),
                normalized(self.unfair),
                write_norm(self.unfair, self.middle_count as nat, self.bits()) == write_norm(
                    part,
                    mc0,
                    bits0,
                ),
            decreases doublings(self.unfair.width()),
        {
            let lower = Interval { below: 0, above: 0x8000_0000 };
            let upper = Interval { below: 0x8000_0000, above: 0 };
            let middle = Interval { below: 0x4000_0000, above: 0x4000_0000 };
            let ghost u = self.unfair;
            let ghost mc = self.middle_count as nat;
            if self.grow(lower) {
                proof {
                    assert(doublings(u.width()) == 1 + doublings(self.unfair.width()));
                }
                self.inner_write(false);
            } else if self.grow(upper) {
                proof {
                    assert(doublings(u.width()) == 1 + doublings(self.unfair.width()));
                }
                self.inner_write(true);
            } else if self.grow(middle) {
                proof {
                    assert(doublings(u.width()) == 1 + doublings(self.unfair.width()));
                }
                self.middle_count = self.middle_count + 1;
            } else {
                break;
            }
        }
        proof {
            assert(write_norm(self.unfair, self.middle_count as nat, self.bits()) == (
            self.unfair,
            self.middle_count as nat,
            self.bits(),
            ));
        }
    }

    /// The bits that `close` appends: one disambiguating bit, its
    /// pending inversions, and a second bit where the first does not
    /// already pick out the surviving interval.
    pub open spec fn close_bits(i: Interval, mc: nat) -> Seq<bool> {
        if i.above > i.below {
            seq![false] + Seq::new(mc, |j: int| true) + if i.below > 0 {
                seq![true]
            } else {
                Seq::empty()
            }
        } else if i.below > i.above {
            seq![true] + Seq::new(mc, |j: int| false) + if i.above > 0 {
                seq![false]
            } else {
                Seq::empty()
            }
        } else {
            Seq::empty()
        }
    }

    /// Write enough bits to single out the surviving interval, then
    /// hand back the bit stream.
    pub fn close(self) -> (r: BitWriter)
        requires
            self.wf(),
            self.bits().len() + self.middle_count() + 2 <= usize::MAX,
        ensures
            r.wf(),
            r.bits() == self.bits() + Self::close_bits(self.unfair(), self.middle_count()),
    {
        let ghost bits0 = self.bits();
        let ghost i = self.unfair;
        let ghost mc = self.middle_count as nat;
        let mut this = self;
        if this.unfair.above > this.unfair.below {
            this.inner_write(false);
            if this.unfair.below > 0 {
                this.inner_write(true);
            }
        } else if this.unfair.below > this.unfair.above {
            this.inner_write(true);
            if this.unfair.above > 0 {
                this.inner_write(false);
            }
        }
        proof {
            assert(this.bits() =~= bits0 + Self::close_bits(i, mc));
        }
        this.inner
    }
}

/// Read arithmetic-encoded data.
#[derive(Debug)]
pub struct Reader {
    inner: BitReader,
    unfair: Interval,
    fair: Interval,
}

impl Reader {
    /// The bits being read.
    pub closed spec fn bits(self) -> Seq<bool> {
        self.inner.bits()
    }

    /// The position of the next bit to read.
    pub closed spec fn pos(self) -> int {
        self.inner.pos()
    }

    /// The working interval.
    pub closed spec fn unfair(self) -> Interval {
        self.unfair
    }

    /// The interval that the consumed bits pin down.
    pub closed spec fn fair(self) -> Interval {
        self.fair
    }

    /// The input is well formed, the working interval is non-empty and
    /// renormalised, and it contains the fair interval.
    pub closed spec fn wf(self) -> bool {
        &&& self.inner.wf()
        &&& self.unfair.wf()
        &&& normalized(self.unfair)
        &&& self.fair.wf()
        &&& self.unfair.spec_contains(self.fair)
    }

    pub fn new(inner: BitReader) -> (r: Self)
        requires
            inner.wf(),
        ensures
            r.wf(),
            r.bits() == inner.bits(),
            r.pos() == inner.pos(),
            r.unfair() == whole(),
            r.fair() == whole(),
    {
        Self {
            inner,
            unfair: Interval { below: 0, above: 0 },
            fair: Interval { below: 0, above: 0 },
        }
    }

    /// If `half` contains the working interval, map `half` to the whole
    /// interval, carrying the fair interval along, and return `true`.
    fn grow(&mut self, half: Interval) -> (r: bool)
        requires
            old(self).unfair.wf(),
            old(self).fair.wf(),
            old(self).unfair.spec_contains(old(self).fair),
            half.below + half.above == 0x8000_0000,
        ensures
            r == half.spec_contains(old(self).unfair),
            r ==> final(self).unfair == old(self).unfair.grown(half) && final(self).fair == old(
                self,
            ).fair.grown(half),
            !r ==> final(self).unfair == old(self).unfair && final(self).fair == old(self).fair,
            final(self).unfair.wf(),
            final(self).fair.wf(),
            final(self).unfair.spec_contains(final(self).fair),
            final(self).inner == old(self).inner,
    {
        if !half.contains(self.unfair) {
            return false;
        }
        self.unfair.grow(half);
        self.fair.grow(half);
        true
    }

    /// Halve the fair interval along consumed bits until it lies in
    /// `i0` or `i1`, deciding the bit.
    fn bisect(&mut self, i0: Interval, i1: Interval) -> (r: Option<bool>)
        requires
            old(self).inner.wf(),
            old(self).fair.wf(),
        ensures
            final(self).inner.wf(),
            final(self).bits() == old(self).bits(),
            final(self).unfair == old(self).unfair,
            final(self).fair.wf(),
            old(self).fair.spec_contains(final(self).fair),
            (r, final(self).fair, final(self).pos()) == decide(
                i0,
                i1,
                old(self).fair,
                old(self).bits(),
                old(self).pos(),
            ),
            r == Some(false) ==> i0.spec_contains(final(self).fair),
            r == Some(true) ==> i1.spec_contains(final(self).fair),
        decreases old(self).bits().len() - old(self).pos(),
    {
        if i0.contains(self.fair) {
            return Some(false);
        }
        if i1.contains(self.fair) {
            return Some(true);
        }
        if self.fair.below >= 0xFFFF_FFFF - self.fair.above {
            // The fair interval cannot be halved further; with a
            // well-formed working interval this cannot happen, because
            // a unit-width fair interval lies in one of the two parts.
            return None;
        }
        match self.inner.read() {
            None => None,
            Some(bit) => {
                let (h0, h1) = self.fair.half();
                self.fair = if bit {
                    h1
                } else {
                    h0
                };
                self.bisect(i0, i1)
            },
        }
    }

    /// Read one biased bit: bisect the fair interval along input bits
    /// until it decides between the two parts of the working interval,
    /// keep that part, and renormalise both intervals. Returns `None`
    /// at the end of the input.
    pub fn read(&mut self, model: Split) -> (r: Option<bool>)
        requires
            old(self).wf(),
            model.wf(),
        ensures
            final(self).wf(),
            final(self).bits() == old(self).bits(),
            final(self).pos() >= old(self).pos(),
            ({
                let i0 = old(self).unfair().split_part(model.p1(), false);
                let i1 = old(self).unfair().split_part(model.p1(), true);
                let d = decide(i0, i1, old(self).fair(), old(self).bits(), old(self).pos());
                &&& r == d.0
                &&& final(self).pos() == d.2
                &&& r is None ==> final(self).unfair() == old(self).unfair() && final(self).fair()
                    == d.1
                &&& r is Some ==> ({
                    let n = read_norm(
                        if r == Some(true) {
                            i1
                        } else {
                            i0
                        },
                        d.1,
                    );
                    final(self).unfair() == n.0 && final(self).fair() == n.1
                })
            }),
    {
        proof {
            lemma_decide_advances(
                self.unfair.split_part(model.p1(), false),
                self.unfair.split_part(model.p1(), true),
                self.fair,
                self.bits(),
                self.pos(),
            );
            lemma_normalized_wide(self.unfair);
            assert(model.p1() * self.unfair.width() > 0x8000_0000) by (nonlinear_arith)
                requires
                    model.p1() >= 4,
                    self.unfair.width() > 0x4000_0000,
            ;
            assert((0x1_0000_0000 - model.p1()) * self.unfair.width() > 0x8000_0000)
                by (nonlinear_arith)
                requires
                    model.p1() <= 0xFFFF_FFFC,
                    self.unfair.width() > 0x4000_0000,
            ;
        }
        let (i0, i1) = self.unfair.split(model);
        let decision = self.bisect(i0, i1);
        let data: bool;
        match decision {
            None => {
                return None;
            },
            Some(d) => {
                data = d;
            },
        }
        self.unfair = if data {
            i1
        } else {
            i0
        };
        let ghost u0 = self.unfair;
        let ghost f0 = self.fair;
        let ghost inner1 = self.inner;
        loop
            invariant
                self.inner.wf(),
                self.unfair.wf(),
                self.fair.wf(),
                self.unfair.spec_contains(self.fair),
                self.inner == inner1,
                read_norm(self.unfair, self.fair) == read_norm(u0, f0),
            ensures
                self.inner.wf(),
                self.unfair.wf(),
                self.fair.wf(),
                self.unfair.spec_contains(self.fair),
                normalized(self.unfair),
                self.inner == inner1,
                read_norm(self.unfair, self.fair) == read_norm(u0, f0),
            decreases doublings(self.unfair.width()),
        {
            let lower = Interval { below: 0, above: 0x8000_0000 };
            let upper = Interval { below: 0x8000_0000, above: 0 };
            let middle = Interval { below: 0x4000_0000, above: 0x4000_0000 };
            let ghost u = self.unfair;
            if self.grow(lower) {
                proof {
                    assert(doublings(u.width()) == 1 + doublings(self.unfair.width()));
                }
            } else if self.grow(upper) {
                proof {
                    assert(doublings(u.width()) == 1 + doublings(self.unfair.width()));
                }
            } else if self.grow(middle) {
                proof {
                    assert(doublings(u.width()) == 1 + doublings(self.unfair.width()));
                }
            } else {
                break;
            }
        }
        proof {
            assert(read_norm(self.unfair, self.fair) == (self.unfair, self.fair));
        }
        Some(data)
    }

    /// Hand back the underlying bit reader.
    pub fn close(self) -> (r: BitReader)
        requires
            self.wf(),
        ensures
            r.wf(),
            r.bits() == self.bits(),
            r.pos() == self.pos(),
    {
        self.inner
    }
}

/// A renormalised non-empty interval is wider than a quarter of the
/// whole scale.
proof fn lemma_normalized_wide(i: Interval)
    requires
        i.wf(),
        normalized(i),
    ensures
        i.width() > 0x4000_0000,
{
}

} // verus!
