//! The shifted body-centred cubic (BCC) lattice used to quantise
//! wavelet-coefficient triplets, and the residual chains that represent
//! its points.
//!
//! A [`ShiftedBCC`] holds an integer triple `(v, h, c)` standing for the
//! point `(v + 1, h, c + 0.5)` in 3-space; the triple is on the lattice
//! iff `v`, `h` and `c` all have the same parity. Geometric statements
//! below are made in quarter units, where every quantity of interest is
//! an integer: the point itself is `(4v + 4, 4h, 4c + 2)`.
//!
//! The "arrow" maps a lattice point `A` to the nearest lattice point
//! `B` to `½A`, together with the [`Residual`] `½A - B`, one of eight
//! values. Iterating the arrow reaches one of eight fixed points; the
//! residuals pushed along the way form a [`Chain`], from which the
//! original point is reconstructed exactly.

use vstd::prelude::*;
use vstd::arithmetic::div_mod::{lemma_fundamental_div_mod, lemma_mod_multiples_vanish};
use vstd::arithmetic::div_mod::{lemma_div_multiples_vanish, lemma_div_multiples_vanish_fancy};
use vstd::math::abs;
use vstd::math::max3;

verus! {

/// The step that the arrow subtracts before halving, for each of the
/// eight residuals.
pub open spec fn delta(k: int) -> (int, int, int) {
    if k == 0 {
        (0, 0, 2)
    } else if k == 1 {
        (1, -1, -1)
    } else if k == 2 {
        (1, 1, -1)
    } else if k == 3 {
        (2, 0, 2)
    } else if k == 4 {
        (0, 0, 0)
    } else if k == 5 {
        (1, -1, 1)
    } else if k == 6 {
        (1, 1, 1)
    } else {
        (2, 0, 0)
    }
}

/// Which residual the arrow produces, given bit `1` of `v` and of `h`
/// and the two low bits of `c`.
pub open spec fn syndrome(vb: int, hb: int, cb: int) -> int {
    if vb == 0 {
        if hb == 0 {
            if cb == 0 {
                4
            } else if cb == 1 {
                6
            } else if cb == 2 {
                0
            } else {
                2
            }
        } else {
            if cb == 0 {
                3
            } else if cb == 1 {
                5
            } else if cb == 2 {
                7
            } else {
                1
            }
        }
    } else {
        if hb == 0 {
            if cb == 0 {
                7
            } else if cb == 1 {
                1
            } else if cb == 2 {
                3
            } else {
                5
            }
        } else {
            if cb == 0 {
                0
            } else if cb == 1 {
                2
            } else if cb == 2 {
                4
            } else {
                6
            }
        }
    }
}

/// The components of residual `k`, in quarter units.
pub open spec fn residual_quarters(k: int) -> (int, int, int) {
    (2 * delta(k).0 - 2, 2 * delta(k).1, 2 * delta(k).2 - 1)
}

/// The coordinates of the unique fixed point whose arrow produces
/// residual `k`.
pub open spec fn fixed_coords(k: int) -> (int, int, int) {
    (-delta(k).0, -delta(k).1, -delta(k).2)
}

/// Round `n / 8` to the nearest integer, halves away from zero.
pub open spec fn rnd8(n: int) -> int {
    if n >= 0 {
        (n + 4) / 8
    } else {
        -((4 - n) / 8)
    }
}

/// The candidate of the even sublattice nearest to the point with
/// quarter-unit coordinates `n`: round each coordinate to the nearest
/// even integer after removing the shift `(1, 0, 0.5)`. Returned in
/// internal coordinates.
pub open spec fn round_even_sub(n: (int, int, int)) -> (int, int, int) {
    (2 * rnd8(n.0 - 4), 2 * rnd8(n.1), 2 * rnd8(n.2 - 2))
}

/// The candidate of the odd sublattice nearest to the point with
/// quarter-unit coordinates `n`: round each coordinate to the nearest
/// even integer after removing the shift `(0, -1, -0.5)`. Returned in
/// internal coordinates.
pub open spec fn round_odd_sub(n: (int, int, int)) -> (int, int, int) {
    (2 * rnd8(n.0) - 1, 2 * rnd8(n.1 + 4) - 1, 2 * rnd8(n.2 + 2) - 1)
}

/// Sixteen times the squared distance between the point with
/// quarter-unit coordinates `n` and the lattice point with internal
/// coordinates `a`.
pub open spec fn dist16(n: (int, int, int), a: (int, int, int)) -> int {
    let q = quarters_of(a);
    (n.0 - q.0) * (n.0 - q.0) + (n.1 - q.1) * (n.1 - q.1) + (n.2 - q.2) * (n.2 - q.2)
}

/// The nearest `ShiftedBCC` to the point with quarter-unit coordinates
/// `n`, as internal coordinates, together with sixteen times the
/// squared rounding error: round onto each of the two shifted
/// sublattices and keep the nearer candidate, the odd one on ties.
pub open spec fn quantize16(n: (int, int, int)) -> ((int, int, int), int) {
    let a1 = round_even_sub(n);
    let a2 = round_odd_sub(n);
    let d1 = dist16(n, a1);
    let d2 = dist16(n, a2);
    if d1 < d2 {
        (a1, d1)
    } else {
        (a2, d2)
    }
}

/// Half of the point `p`, in quarter units.
pub open spec fn half_quarters(p: (int, int, int)) -> (int, int, int) {
    (2 * p.0 + 2, 2 * p.1, 2 * p.2 + 1)
}

/// Sixteen times the squared length of residual `k`.
pub open spec fn norm16(k: int) -> int {
    let rq = residual_quarters(k);
    rq.0 * rq.0 + rq.1 * rq.1 + rq.2 * rq.2
}

/// Evaluating [`rnd8`] after splitting off a multiple of 8: the
/// quotient shifts the result, the remainder picks the rounding, and
/// remainders of exactly half round away from zero.
proof fn lemma_rnd8_at(q: int, e: int)
    requires
        -4 <= e <= 12,
    ensures
        -3 <= e <= 3 ==> rnd8(8 * q + e) == q,
        5 <= e <= 11 ==> rnd8(8 * q + e) == q + 1,
        e == 4 ==> rnd8(8 * q + e) == (if q >= 0 { q + 1 } else { q }),
        e == -4 ==> rnd8(8 * q + e) == (if q >= 1 { q } else { q - 1 }),
        e == 12 ==> rnd8(8 * q + e) == (if q >= -1 { q + 2 } else { q + 1 }),
{
    let n = 8 * q + e;
    if n >= 0 {
        // rnd8(n) == (8q + e + 4) / 8, with 0 <= e + 4 <= 16.
        if e + 4 < 8 {
            lemma_div_multiples_vanish_fancy(q, e + 4, 8);
        } else if e + 4 < 16 {
            assert(8 * q + e + 4 == 8 * (q + 1) + (e - 4));
            lemma_div_multiples_vanish_fancy(q + 1, e - 4, 8);
        } else {
            assert(8 * q + e + 4 == 8 * (q + 2) + 0);
            lemma_div_multiples_vanish_fancy(q + 2, 0, 8);
        }
    } else {
        // rnd8(n) == -((4 - e - 8q) / 8), with -8 <= 4 - e <= 8.
        if 0 <= 4 - e {
            if 4 - e < 8 {
                assert(4 - n == 8 * (-q) + (4 - e));
                lemma_div_multiples_vanish_fancy(-q, 4 - e, 8);
            } else {
                assert(4 - n == 8 * (1 - q) + 0);
                lemma_div_multiples_vanish_fancy(1 - q, 0, 8);
            }
        } else {
            assert(4 - n == 8 * (-1 - q) + (12 - e));
            lemma_div_multiples_vanish_fancy(-1 - q, 12 - e, 8);
        }
    }
}

/// The integer triple `(v, h, c)` is on the shifted BCC lattice.
pub open spec fn on_lattice(p: (int, int, int)) -> bool {
    p.0 % 2 == p.2 % 2 && p.1 % 2 == p.2 % 2
}

/// The residual index that the arrow produces at the point `p`.
pub open spec fn syndrome_of(p: (int, int, int)) -> int {
    syndrome((p.0 % 4) / 2, (p.1 % 4) / 2, p.2 % 4)
}

/// The coordinates of the arrow's destination from the point `p`.
pub open spec fn arrow_dest(p: (int, int, int)) -> (int, int, int) {
    let d = delta(syndrome_of(p));
    ((p.0 - d.0) / 2, (p.1 - d.1) / 2, (p.2 - d.2) / 2)
}

/// The point `(v + 1, h, c + 0.5)`, in quarter units.
pub open spec fn quarters_of(p: (int, int, int)) -> (int, int, int) {
    (4 * p.0 + 4, 4 * p.1, 4 * p.2 + 2)
}

/// The largest quarter-unit coordinate of the point, in absolute value.
pub open spec fn mag_of(p: (int, int, int)) -> int {
    max3(abs(4 * p.0 + 4) as int, abs(4 * p.1) as int, abs(4 * p.2 + 2) as int)
}

/// The triple fits the 16-bit coordinate fields.
pub open spec fn fits_i16(p: (int, int, int)) -> bool {
    &&& -0x8000 <= p.0 <= 0x7FFF
    &&& -0x8000 <= p.1 <= 0x7FFF
    &&& -0x8000 <= p.2 <= 0x7FFF
}

// ----------------------------------------------------------------------------

/// A point of the shifted body-centred cubic lattice.
#[derive(Debug, Default, Copy, Clone, Hash, PartialEq, Eq, Structural)]
pub struct ShiftedBCC {
    /// The `v` coordinate minus `1.0`.
    v: i16,
    /// The `h` coordinate.
    h: i16,
    /// The `c` coordinate minus `0.5`.
    c: i16,
}

/// Euclidean remainder of a 16-bit coordinate by 4.
fn mod4(x: i16) -> (m: u8)
    ensures
        m == (x as int) % 4,
{
    proof {
        lemma_mod_multiples_vanish(8192, x as int, 4);
    }
    (((x as i32 + 0x8000) as u32) % 4) as u8
}

/// Exact halving of an even value in the range of a 17-bit signed
/// integer.
fn half_even(x: i32) -> (h: i16)
    requires
        (x as int) % 2 == 0,
        -0x1_0000 <= x < 0x1_0000,
        -0x8000 <= (x as int) / 2 <= 0x7FFF,
    ensures
        h as int == (x as int) / 2,
{
    proof {
        lemma_fundamental_div_mod(x as int, 2);
        lemma_div_multiples_vanish((x as int) / 2 + 0x8000, 2);
    }
    (((x + 0x1_0000) as u32 / 2) as i32 - 0x8000) as i16
}

/// The arrow step for residual `k`.
fn delta_parts(k: u8) -> (d: (i16, i16, i16))
    requires
        k < 8,
    ensures
        (d.0 as int, d.1 as int, d.2 as int) == delta(k as int),
{
    match k {
        0 => (0, 0, 2),
        1 => (1, -1, -1),
        2 => (1, 1, -1),
        3 => (2, 0, 2),
        4 => (0, 0, 0),
        5 => (1, -1, 1),
        6 => (1, 1, 1),
        _ => (2, 0, 0),
    }
}

impl ShiftedBCC {
    /// The integer coordinates `(v, h, c)`.
    pub closed spec fn coords(self) -> (int, int, int) {
        (self.v as int, self.h as int, self.c as int)
    }

    /// The coordinates have equal parities: the point is on the
    /// lattice.
    pub open spec fn wf(self) -> bool {
        on_lattice(self.coords())
    }

    /// Construct a `ShiftedBCC` from its integer coordinates, which
    /// must have equal parities.
    pub fn new_inner(v: i16, h: i16, c: i16) -> (r: Self)
        requires
            on_lattice((v as int, h as int, c as int)),
        ensures
            r.wf(),
            r.coords() == (v as int, h as int, c as int),
    {
        Self { v, h, c }
    }

    /// The coordinates of the point itself, `(v + 1, h, c + 0.5)`, in
    /// quarter units.
    pub fn vhc_quarters(self) -> (r: (i32, i32, i32))
        ensures
            (r.0 as int, r.1 as int, r.2 as int) == quarters_of(self.coords()),
    {
        (4 * (self.v as i32) + 4, 4 * (self.h as i32), 4 * (self.c as i32) + 2)
    }

    /// Finds the nearest `ShiftedBCC` to `½ self`, and returns it and
    /// the [`Residual`] `½ self` minus it: the destination is exactly
    /// what [`quantize16`] rounds `½ self` to, and the residual is the
    /// rounding error, within the lattice covering radius.
    #[verifier::rlimit(60)]
    pub fn arrow(self) -> (r: (Self, Residual))
        requires
            self.wf(),
        ensures
            r.0.wf(),
            r.1.wf(),
            r.1.idx() == syndrome_of(self.coords()),
            r.0.coords() == arrow_dest(self.coords()),
            self.coords().0 == 2 * r.0.coords().0 + delta(r.1.idx()).0,
            self.coords().1 == 2 * r.0.coords().1 + delta(r.1.idx()).1,
            self.coords().2 == 2 * r.0.coords().2 + delta(r.1.idx()).2,
            (r.0 == self) <==> self.coords() == fixed_coords(r.1.idx()),
            r.0 != self ==> mag_of(r.0.coords()) < mag_of(self.coords()),
            quantize16(half_quarters(self.coords())) == (r.0.coords(), norm16(r.1.idx())),
            norm16(r.1.idx()) <= 13,
    {
        let vm = mod4(self.v);
        let hm = mod4(self.h);
        let cm = mod4(self.c);
        let vb = vm / 2;
        let hb = hm / 2;
        let k: u8 = if vb == 0 {
            if hb == 0 {
                if cm == 0 {
                    4
                } else if cm == 1 {
                    6
                } else if cm == 2 {
                    0
                } else {
                    2
                }
            } else {
                if cm == 0 {
                    3
                } else if cm == 1 {
                    5
                } else if cm == 2 {
                    7
                } else {
                    1
                }
            }
        } else {
            if hb == 0 {
                if cm == 0 {
                    7
                } else if cm == 1 {
                    1
                } else if cm == 2 {
                    3
                } else {
                    5
                }
            } else {
                if cm == 0 {
                    0
                } else if cm == 1 {
                    2
                } else if cm == 2 {
                    4
                } else {
                    6
                }
            }
        };
        proof {
            lemma_arrow_cases(self.v as int, self.h as int, self.c as int, k as int);
            lemma_arrow_quantize(self.v as int, self.h as int, self.c as int, k as int);
        }
        let (dv, dh, dc) = delta_parts(k);
        let destination = Self {
            v: half_even((self.v as i32) - (dv as i32)),
            h: half_even((self.h as i32) - (dh as i32)),
            c: half_even((self.c as i32) - (dc as i32)),
        };
        proof {
            let d = delta(k as int);
            let p = self.coords();
            let p2 = destination.coords();
            assert(2 * (4 * p2.0 + 4) == (4 * p.0 + 4) - (4 * d.0 - 4));
            assert(2 * (4 * p2.1) == 4 * p.1 - 4 * d.1);
            assert(2 * (4 * p2.2 + 2) == (4 * p.2 + 2) - (4 * d.2 - 2));
            if mag_of(p) >= 7 {
                assert(mag_of(p2) < mag_of(p));
            }
        }
        (destination, Residual(k))
    }
}

// ----------------------------------------------------------------------------

/// A self-inverse symmetry operation on the lattice: a subset of
/// - exchange `v` with `h` and negate `c`;
/// - exchange `v` with `-h` and negate `c`;
/// represented by bits `0` and `1` respectively of a 2-bit tag. The
/// four symmetries compose by XOR of the tags.
#[derive(Debug, Default, Copy, Clone, Hash, PartialEq, Eq, Structural)]
pub struct Symmetry(u8);

impl Symmetry {
    /// The 2-bit tag.
    pub closed spec fn sym(self) -> u8 {
        self.0
    }

    /// The tag has only its two low bits.
    pub closed spec fn wf(self) -> bool {
        self.0 < 4
    }

    /// Construct the symmetry with the given 2-bit tag.
    pub fn new(tag: u8) -> (r: Self)
        requires
            tag < 4,
        ensures
            r.wf(),
            r.sym() == tag,
    {
        Symmetry(tag)
    }
}

// ----------------------------------------------------------------------------

/// Represents `½A - B` where the arrow maps `A` to `B`: one of eight
/// values, held as an index into the residual tables.
#[derive(Debug, Default, Copy, Clone, Hash, PartialEq, Eq, Structural)]
pub struct Residual(u8);

impl Residual {
    /// The index into the residual tables.
    pub closed spec fn idx(self) -> int {
        self.0 as int
    }

    /// The index as the stored byte.
    pub closed spec fn idx8(self) -> u8 {
        self.0
    }

    /// The index is one of the eight residuals.
    pub closed spec fn wf(self) -> bool {
        self.0 < 8
    }

    /// Construct the residual with the given index.
    pub fn new(index: u8) -> (r: Self)
        requires
            index < 8,
        ensures
            r.wf(),
            r.idx() == index,
    {
        Residual(index)
    }

    /// The components of `self`, in quarter units.
    pub fn vhc_quarters(self) -> (r: (i16, i16, i16))
        requires
            self.wf(),
        ensures
            (r.0 as int, r.1 as int, r.2 as int) == residual_quarters(self.idx()),
    {
        match self.0 {
            0 => (-2, 0, 3),
            1 => (0, -2, -3),
            2 => (0, 2, -3),
            3 => (2, 0, 3),
            4 => (-2, 0, -1),
            5 => (0, -2, 1),
            6 => (0, 2, 1),
            _ => (2, 0, -1),
        }
    }

    /// The coordinates of the unique [`ShiftedBCC`] `fp` such that
    /// `fp.arrow()` is `(fp, self)`.
    pub fn fixed_point_coords(self) -> (r: (i16, i16, i16))
        requires
            self.wf(),
        ensures
            (r.0 as int, r.1 as int, r.2 as int) == fixed_coords(self.idx()),
            on_lattice(fixed_coords(self.idx())),
    {
        match self.0 {
            0 => (0, 0, -2),
            1 => (-1, 1, 1),
            2 => (-1, -1, 1),
            3 => (-2, 0, -2),
            4 => (0, 0, 0),
            5 => (-1, 1, -1),
            6 => (-1, -1, -1),
            _ => (-2, 0, 0),
        }
    }

    /// Returns the unique [`Symmetry`] that maps `self` onto the
    /// residual of index 0 or 4.
    pub fn recommend_symmetry(self) -> (s: Symmetry)
        requires
            self.wf(),
        ensures
            s.wf(),
            s.sym() == self.idx8() & 3,
            self.idx8() ^ s.sym() == (if self.idx() < 4 {
                0u8
            } else {
                4u8
            }),
    {
        proof {
            let x = self.0;
            assert(x < 8 ==> (x & 3) < 4 && (x ^ (x & 3)) == (if x < 4 {
                0u8
            } else {
                4u8
            })) by (bit_vector);
        }
        Symmetry(self.0 & 3)
    }

    /// Applies `symmetry` to `self`. This is its own inverse.
    pub fn apply_symmetry(self, s: Symmetry) -> (r: Self)
        requires
            self.wf(),
            s.wf(),
        ensures
            r.wf(),
            r.idx8() == self.idx8() ^ s.sym(),
    {
        proof {
            lemma_symmetry_involution(self.0, s.0);
        }
        Residual(self.0 ^ s.0)
    }
}

/// Applying a symmetry tag to a residual index twice gives the index
/// back, and keeps it in range: symmetries are self-inverse.
pub proof fn lemma_symmetry_involution(x: u8, s: u8)
    by (bit_vector)
    requires
        x < 8,
        s < 4,
    ensures
        (x ^ s) < 8,
        (x ^ s) ^ s == x,
{
}

/// Applying one symmetry tag after another is applying the XOR of the
/// two tags: the four symmetries form a group of order 4.
pub proof fn lemma_symmetry_compose(x: u8, s1: u8, s2: u8)
    by (bit_vector)
    requires
        x < 8,
        s1 < 4,
        s2 < 4,
    ensures
        (s1 ^ s2) < 4,
        (x ^ s1) ^ s2 == x ^ (s1 ^ s2),
{
}

/// The case analysis behind [`ShiftedBCC::arrow`]: for a lattice point,
/// the residual chosen by the syndrome makes all three coordinate
/// differences even, the halved point is again on the lattice, and any
/// lattice point whose quarter-unit coordinates are at most 6 in
/// absolute value is the fixed point of its own residual.
proof fn lemma_arrow_cases(v: int, h: int, c: int, k: int)
    requires
        v % 2 == c % 2,
        h % 2 == c % 2,
        k == syndrome((v % 4) / 2, (h % 4) / 2, c % 4),
    ensures
        0 <= k < 8,
        (v - delta(k).0) % 2 == 0,
        (h - delta(k).1) % 2 == 0,
        (c - delta(k).2) % 2 == 0,
        ((v - delta(k).0) / 2) % 2 == ((c - delta(k).2) / 2) % 2,
        ((h - delta(k).1) / 2) % 2 == ((c - delta(k).2) / 2) % 2,
        mag_of((v, h, c)) <= 6 ==> (v, h, c) == fixed_coords(k),
{
    let vm = v % 4;
    let hm = h % 4;
    let cm = c % 4;
    lemma_fundamental_div_mod(v, 4);
    lemma_fundamental_div_mod(h, 4);
    lemma_fundamental_div_mod(c, 4);
    lemma_parity4(v);
    lemma_parity4(h);
    lemma_parity4(c);
    lemma_fundamental_div_mod(vm, 2);
    lemma_fundamental_div_mod(hm, 2);
    lemma_fundamental_div_mod(cm, 2);
    let qv = v / 4;
    let qh = h / 4;
    let qc = c / 4;
    let dv = delta(k).0;
    let dh = delta(k).1;
    let dc = delta(k).2;
    assert(v - dv == 4 * qv + (vm - dv));
    assert(h - dh == 4 * qh + (hm - dh));
    assert(c - dc == 4 * qc + (cm - dc));
    assert((vm - dv) % 2 == 0 && (hm - dh) % 2 == 0 && (cm - dc) % 2 == 0);
    lemma_step_mod(qv, vm - dv);
    lemma_step_mod(qh, hm - dh);
    lemma_step_mod(qc, cm - dc);
    if mag_of((v, h, c)) <= 6 {
        assert(-2 <= v <= 0 && -1 <= h <= 1 && -2 <= c <= 1);
        assert((v, h, c) == fixed_coords(k));
    }
}

// ----------------------------------------------------------------------------

/// One inverse arrow step: double the point and add back the step of
/// residual `r`.
pub open spec fn chain_step(p: (int, int, int), r: Residual) -> (int, int, int) {
    (2 * p.0 + delta(r.idx()).0, 2 * p.1 + delta(r.idx()).1, 2 * p.2 + delta(r.idx()).2)
}

/// The point reconstructed by applying the inverse arrow for each
/// residual, most significant (last) first, starting from `p`.
pub open spec fn coords_from(rs: Seq<Residual>, p: (int, int, int)) -> (int, int, int)
    decreases rs.len(),
{
    if rs.len() == 0 {
        p
    } else {
        chain_step(coords_from(rs.drop_first(), p), rs[0])
    }
}

/// The point that a chain with residuals `rs` and terminal residual
/// `last` reconstructs: the inverse arrow steps applied to the fixed
/// point of `last`.
pub open spec fn chain_coords(rs: Seq<Residual>, last: Residual) -> (int, int, int) {
    coords_from(rs, fixed_coords(last.idx()))
}

/// Appending a residual at the little end folds into the start point.
proof fn lemma_coords_from_push(rs: Seq<Residual>, r: Residual, p: (int, int, int))
    ensures
        coords_from(rs.push(r), p) == coords_from(rs, chain_step(p, r)),
    decreases rs.len(),
{
    if rs.len() == 0 {
        assert(rs.push(r)[0] == r);
        assert(rs.push(r).drop_first() =~= Seq::<Residual>::empty());
        assert(coords_from(rs.push(r), p) == chain_step(coords_from(Seq::empty(), p), r));
    } else {
        assert(rs.push(r)[0] == rs[0]);
        assert(rs.push(r).drop_first() =~= rs.drop_first().push(r));
        lemma_coords_from_push(rs.drop_first(), r, p);
        assert(coords_from(rs.push(r), p) == chain_step(
            coords_from(rs.drop_first().push(r), p),
            rs[0],
        ));
        assert(coords_from(rs, chain_step(p, r)) == chain_step(
            coords_from(rs.drop_first(), chain_step(p, r)),
            rs[0],
        ));
    }
}

/// Every suffix of a chain reconstructs a point that fits the 16-bit
/// coordinate fields, provided the whole chain's point does: each
/// inverse step roughly doubles the point, so earlier points are
/// smaller.
proof fn lemma_suffix_fits(rs: Seq<Residual>, last: Residual, j: int)
    requires
        forall|i: int| 0 <= i < rs.len() ==> (#[trigger] rs[i]).wf(),
        last.wf(),
        fits_i16(chain_coords(rs, last)),
        0 <= j <= rs.len(),
    ensures
        fits_i16(chain_coords(rs.subrange(j, rs.len() as int), last)),
        j < rs.len() ==> chain_coords(rs.subrange(j, rs.len() as int), last) == chain_step(
            chain_coords(rs.subrange(j + 1, rs.len() as int), last),
            rs[j],
        ),
    decreases j + 1,
{
    let n = rs.len() as int;
    if j == 0 {
        assert(rs.subrange(0, n) =~= rs);
        if 0 < n {
            assert(rs.subrange(0, n).drop_first() =~= rs.subrange(1, n));
        }
    } else {
        lemma_suffix_fits(rs, last, j - 1);
        // The point at j - 1 fits, and it is twice the point at j plus
        // a small step, so the point at j fits with room to spare.
        if j < n {
            assert(rs.subrange(j, n).drop_first() =~= rs.subrange(j + 1, n));
        }
        if j - 1 < n {
            assert(rs.subrange(j - 1, n).drop_first() =~= rs.subrange(j, n));
        }
    }
}

/// An arrow step from a lattice point lands on the lattice, and
/// strictly shrinks any point that is not a fixed point.
proof fn lemma_arrow_step(p: (int, int, int))
    requires
        on_lattice(p),
    ensures
        on_lattice(arrow_dest(p)),
        arrow_dest(p) != p ==> mag_of(arrow_dest(p)) < mag_of(p),
{
    let k = syndrome_of(p);
    let d = delta(k);
    lemma_arrow_cases(p.0, p.1, p.2, k);
    lemma_fundamental_div_mod(p.0 - d.0, 2);
    lemma_fundamental_div_mod(p.1 - d.1, 2);
    lemma_fundamental_div_mod(p.2 - d.2, 2);
    let p2 = arrow_dest(p);
    assert(p.0 - d.0 == 2 * p2.0 && p.1 - d.1 == 2 * p2.1 && p.2 - d.2 == 2 * p2.2);
    assert(2 * (4 * p2.0 + 4) == (4 * p.0 + 4) - (4 * d.0 - 4));
    assert(2 * (4 * p2.1) == 4 * p.1 - 4 * d.1);
    assert(2 * (4 * p2.2 + 2) == (4 * p.2 + 2) - (4 * d.2 - 2));
    if mag_of(p) >= 7 {
        assert(mag_of(p2) < mag_of(p));
    } else {
        assert(p == fixed_coords(k));
        assert(p2 == p);
    }
}

/// The residual indices that iterating the arrow from `p` pushes, least
/// significant first, together with the index of the fixed point where
/// the iteration halts.
pub open spec fn arrow_chain(p: (int, int, int)) -> (Seq<int>, int)
    decreases mag_of(p)
        when on_lattice(p)
        via arrow_chain_decreases
{
    if arrow_dest(p) == p {
        (Seq::empty(), syndrome_of(p))
    } else {
        let rest = arrow_chain(arrow_dest(p));
        (seq![syndrome_of(p)] + rest.0, rest.1)
    }
}

#[via_fn]
proof fn arrow_chain_decreases(p: (int, int, int)) {
    lemma_arrow_step(p);
}

// ----------------------------------------------------------------------------

/// Represents a [`ShiftedBCC`] as a chain of arrow steps.
///
/// Each arrow step roughly halves the point and produces a
/// [`Residual`]. Eventually the chain reaches a fixed point of the
/// arrow, which is recorded by its own residual.
#[derive(Debug, Default, Clone, Hash, Eq)]
pub struct Chain {
    /// The [`Residual`]s, listed from least to most significant.
    pub residuals: Vec<Residual>,
    /// The residual of the fixed point at which the chain ends. It is
    /// even more significant.
    pub last_residual: Residual,
}

impl Chain {
    /// Every residual is one of the eight.
    pub open spec fn wf(self) -> bool {
        &&& forall|i: int| 0 <= i < self.residuals@.len() ==> (#[trigger] self.residuals@[i]).wf()
        &&& self.last_residual.wf()
    }

    /// The point that this chain reconstructs.
    pub open spec fn coords(self) -> (int, int, int) {
        chain_coords(self.residuals@, self.last_residual)
    }

    /// Convert a [`ShiftedBCC`] to a chain: iterate the arrow, pushing
    /// each residual, until the fixed point is reached.
    pub fn from_bcc(bcc: ShiftedBCC) -> (r: Self)
        requires
            bcc.wf(),
        ensures
            r.wf(),
            r.coords() == bcc.coords(),
            r.residuals@.map_values(|x: Residual| x.idx()) == arrow_chain(bcc.coords()).0,
            r.last_residual.idx() == arrow_chain(bcc.coords()).1,
    {
        let mut residuals: Vec<Residual> = Vec::new();
        let mut cur = bcc;
        proof {
            assert(residuals@.map_values(|x: Residual| x.idx()) =~= Seq::<int>::empty());
            assert(Seq::<int>::empty() + arrow_chain(bcc.coords()).0 =~= arrow_chain(
                bcc.coords(),
            ).0);
        }
        loop
            invariant
                cur.wf(),
                forall|i: int| 0 <= i < residuals@.len() ==> (#[trigger] residuals@[i]).wf(),
                coords_from(residuals@, cur.coords()) == bcc.coords(),
                arrow_chain(bcc.coords()).0 == residuals@.map_values(|x: Residual| x.idx())
                    + arrow_chain(cur.coords()).0,
                arrow_chain(bcc.coords()).1 == arrow_chain(cur.coords()).1,
            decreases mag_of(cur.coords()),
        {
            let (half, last_residual) = cur.arrow();
            if cur == half {
                proof {
                    lemma_chain_from_fixed(residuals@, last_residual, cur.coords());
                    assert(arrow_chain(cur.coords()).0 =~= Seq::<int>::empty());
                    assert(residuals@.map_values(|x: Residual| x.idx()) + Seq::<int>::empty()
                        =~= residuals@.map_values(|x: Residual| x.idx()));
                }
                return Chain { residuals, last_residual };
            }
            proof {
                lemma_coords_from_push(residuals@, last_residual, half.coords());
                assert(cur.coords() != half.coords());
                assert(arrow_chain(cur.coords()).0 == seq![last_residual.idx()] + arrow_chain(
                    half.coords(),
                ).0);
                assert(residuals@.push(last_residual).map_values(|x: Residual| x.idx())
                    =~= residuals@.map_values(|x: Residual| x.idx()) + seq![
                    last_residual.idx(),
                ]);
                assert((residuals@.map_values(|x: Residual| x.idx()) + seq![
                    last_residual.idx(),
                ]) + arrow_chain(half.coords()).0 =~= residuals@.map_values(
                    |x: Residual| x.idx(),
                ) + (seq![last_residual.idx()] + arrow_chain(half.coords()).0));
            }
            residuals.push(last_residual);
            cur = half;
        }
    }

    /// Convert this chain back to a [`ShiftedBCC`]: start at the fixed
    /// point of the terminal residual and apply the inverse arrow for
    /// each residual, most significant first.
    pub fn to_bcc(&self) -> (r: ShiftedBCC)
        requires
            self.wf(),
            fits_i16(self.coords()),
        ensures
            r.wf(),
            r.coords() == self.coords(),
    {
        let fp = self.last_residual.fixed_point_coords();
        let mut v: i32 = fp.0 as i32;
        let mut h: i32 = fp.1 as i32;
        let mut c: i32 = fp.2 as i32;
        let ghost n = self.residuals@.len() as int;
        let mut i = self.residuals.len();
        proof {
            assert(self.residuals@.subrange(n, n) =~= Seq::<Residual>::empty());
            lemma_fixed_on_lattice(self.last_residual.idx());
        }
        while i > 0
            invariant
                self.wf(),
                fits_i16(self.coords()),
                n == self.residuals@.len(),
                i <= n,
                (v as int, h as int, c as int) == chain_coords(
                    self.residuals@.subrange(i as int, n),
                    self.last_residual,
                ),
                fits_i16((v as int, h as int, c as int)),
                on_lattice((v as int, h as int, c as int)),
            decreases i,
        {
            proof {
                lemma_suffix_fits(self.residuals@, self.last_residual, i - 1);
            }
            i = i - 1;
            let d = delta_parts(self.residuals[i].0);
            let ghost p = (v as int, h as int, c as int);
            let ghost r = self.residuals@[i as int];
            v = 2 * v + (d.0 as i32);
            h = 2 * h + (d.1 as i32);
            c = 2 * c + (d.2 as i32);
            proof {
                assert((v as int, h as int, c as int) == chain_step(p, r));
                lemma_step_lattice(p, r);
            }
        }
        proof {
            assert(self.residuals@.subrange(0, n) =~= self.residuals@);
        }
        ShiftedBCC::new_inner(v as i16, h as i16, c as i16)
    }

    /// Applies `symmetry` to every residual of `self`, including the
    /// terminal one. This is its own inverse.
    pub fn apply_symmetry(&self, s: Symmetry) -> (r: Self)
        requires
            self.wf(),
            s.wf(),
        ensures
            r.wf(),
            r.residuals@.len() == self.residuals@.len(),
            forall|i: int| 0 <= i < self.residuals@.len() ==> (#[trigger] r.residuals@[i]).idx8()
                == self.residuals@[i].idx8() ^ s.sym(),
            r.last_residual.idx8() == self.last_residual.idx8() ^ s.sym(),
    {
        let mut residuals: Vec<Residual> = Vec::new();
        let mut i: usize = 0;
        while i < self.residuals.len()
            invariant
                self.wf(),
                s.wf(),
                i <= self.residuals@.len(),
                residuals@.len() == i,
                forall|j: int| 0 <= j < i as int ==> (#[trigger] residuals@[j]).wf()
                    && residuals@[j].idx8() == self.residuals@[j].idx8() ^ s.sym(),
            decreases self.residuals@.len() - i,
        {
            residuals.push(self.residuals[i].apply_symmetry(s));
            i = i + 1;
        }
        Chain { residuals, last_residual: self.last_residual.apply_symmetry(s) }
    }
}

impl PartialEq for Chain {
    /// Chains are compared by their residuals and terminal residual.
    fn eq(&self, other: &Self) -> (r: bool) {
        if self.residuals.len() != other.residuals.len() {
            return false;
        }
        if self.last_residual.0 != other.last_residual.0 {
            return false;
        }
        let mut i: usize = 0;
        while i < self.residuals.len()
            invariant
                i <= self.residuals@.len(),
                self.residuals@.len() == other.residuals@.len(),
                forall|j: int| 0 <= j < i as int ==> self.residuals@[j] == other.residuals@[j],
            decreases self.residuals@.len() - i,
        {
            if self.residuals[i].0 != other.residuals[i].0 {
                return false;
            }
            i = i + 1;
        }
        proof {
            assert(self.residuals@ =~= other.residuals@);
        }
        true
    }
}

impl vstd::std_specs::cmp::PartialEqSpecImpl for Chain {
    open spec fn obeys_eq_spec() -> bool {
        true
    }

    open spec fn eq_spec(&self, other: &Self) -> bool {
        self.residuals@ == other.residuals@ && self.last_residual == other.last_residual
    }
}

/// A chain whose current point is the fixed point of the residual the
/// arrow just produced reconstructs that same point.
proof fn lemma_chain_from_fixed(rs: Seq<Residual>, last: Residual, p: (int, int, int))
    requires
        p == fixed_coords(last.idx()),
    ensures
        chain_coords(rs, last) == coords_from(rs, p),
{
}

/// The fixed point of every residual is on the lattice.
proof fn lemma_fixed_on_lattice(k: int)
    requires
        0 <= k < 8,
    ensures
        on_lattice(fixed_coords(k)),
{
}

/// An inverse arrow step keeps a point on the lattice.
proof fn lemma_step_lattice(p: (int, int, int), r: Residual)
    requires
        on_lattice(p),
        r.wf(),
    ensures
        on_lattice(chain_step(p, r)),
{
    let q = chain_step(p, r);
    lemma_mod_multiples_vanish(p.0, delta(r.idx()).0, 2);
    lemma_mod_multiples_vanish(p.1, delta(r.idx()).1, 2);
    lemma_mod_multiples_vanish(p.2, delta(r.idx()).2, 2);
}

/// The arrow agrees with rounding to the nearest lattice point: for a
/// lattice point `(v, h, c)`, halving it and rounding it back onto the
/// lattice by [`quantize16`] gives exactly the destination that the
/// syndrome and step tables produce, and the rounding error is the
/// residual's norm, at most the lattice covering radius.
proof fn lemma_arrow_quantize(v: int, h: int, c: int, k: int)
    requires
        v % 2 == c % 2,
        h % 2 == c % 2,
        k == syndrome((v % 4) / 2, (h % 4) / 2, c % 4),
    ensures
        quantize16(half_quarters((v, h, c))) == (
            ((v - delta(k).0) / 2, (h - delta(k).1) / 2, (c - delta(k).2) / 2),
            norm16(k),
        ),
        norm16(k) <= 13,
{
    if (v % 4) / 2 == 0 {
        if (h % 4) / 2 == 0 {
            lemma_arrow_quantize_00(v, h, c, k);
        } else {
            lemma_arrow_quantize_01(v, h, c, k);
        }
    } else {
        if (h % 4) / 2 == 0 {
            lemma_arrow_quantize_10(v, h, c, k);
        } else {
            lemma_arrow_quantize_11(v, h, c, k);
        }
    }
}

/// One quadrant of the case analysis behind
/// [`lemma_arrow_quantize`], fixed by bit 1 of `v` and of `h`.
#[verifier::rlimit(100)]
#[verifier::spinoff_prover]
proof fn lemma_arrow_quantize_00(v: int, h: int, c: int, k: int)
    requires
        v % 2 == c % 2,
        h % 2 == c % 2,
        (v % 4) / 2 == 0,
        (h % 4) / 2 == 0,
        k == syndrome(0, 0, c % 4),
    ensures
        quantize16(half_quarters((v, h, c))) == (
            ((v - delta(k).0) / 2, (h - delta(k).1) / 2, (c - delta(k).2) / 2),
            norm16(k),
        ),
        norm16(k) <= 13,
{
    let vm = v % 4;
    let hm = h % 4;
    let cm = c % 4;
    lemma_fundamental_div_mod(v, 4);
    lemma_fundamental_div_mod(h, 4);
    lemma_fundamental_div_mod(c, 4);
    lemma_parity4(v);
    lemma_parity4(h);
    lemma_parity4(c);
    lemma_fundamental_div_mod(vm, 2);
    lemma_fundamental_div_mod(hm, 2);
    lemma_fundamental_div_mod(cm, 2);
    let qv = v / 4;
    let qh = h / 4;
    let qc = c / 4;
    let n = half_quarters((v, h, c));
    assert(n.0 - 4 == 8 * qv + (2 * vm - 2));
    assert(n.0 == 8 * qv + (2 * vm + 2));
    assert(n.1 == 8 * qh + 2 * hm);
    assert(n.1 + 4 == 8 * qh + (2 * hm + 4));
    assert(n.2 - 2 == 8 * qc + (2 * cm - 1));
    assert(n.2 + 2 == 8 * qc + (2 * cm + 3));
    lemma_rnd8_at(qv, 2 * vm - 2);
    lemma_rnd8_at(qv, 2 * vm + 2);
    lemma_rnd8_at(qh, 2 * hm);
    lemma_rnd8_at(qh, 2 * hm + 4);
    lemma_rnd8_at(qc, 2 * cm - 1);
    lemma_rnd8_at(qc, 2 * cm + 3);
    assert((vm - delta(k).0) % 2 == 0 && (hm - delta(k).1) % 2 == 0 && (cm - delta(k).2) % 2
        == 0);
    lemma_step_mod(qv, vm - delta(k).0);
    lemma_step_mod(qh, hm - delta(k).1);
    lemma_step_mod(qc, cm - delta(k).2);
    assert(v - delta(k).0 == 4 * qv + (vm - delta(k).0));
    assert(h - delta(k).1 == 4 * qh + (hm - delta(k).1));
    assert(c - delta(k).2 == 4 * qc + (cm - delta(k).2));
    let dest = ((v - delta(k).0) / 2, (h - delta(k).1) / 2, (c - delta(k).2) / 2);
    let a1 = round_even_sub(n);
    let a2 = round_odd_sub(n);
    lemma_small_squares();
    // In every class, the winning candidate's rounding has no ties;
    // the losing candidate has exactly one, whose squared contribution
    // is 16 either way.
    if cm == 0 {
        lemma_dist16_val(n, a1, -2, 0, -1);
        if qh >= 0 {
            lemma_dist16_val(n, a2, 2, -4, 3);
        } else {
            lemma_dist16_val(n, a2, 2, 4, 3);
        }
        assert(dist16(n, a1) == 5);
        assert(dist16(n, a2) == 29);
        assert(norm16(k) == 5);
        assert(a1 == dest);
        assert(quantize16(n) == (dest, norm16(k)));
    } else if cm == 1 {
        lemma_dist16_val(n, a1, 0, 2, 1);
        if qv >= 0 {
            lemma_dist16_val(n, a2, -4, -2, -3);
        } else {
            lemma_dist16_val(n, a2, 4, -2, -3);
        }
        assert(dist16(n, a1) == 5);
        assert(dist16(n, a2) == 29);
        assert(norm16(k) == 5);
        assert(a1 == dest);
        assert(quantize16(n) == (dest, norm16(k)));
    } else if cm == 2 {
        lemma_dist16_val(n, a1, -2, 0, 3);
        if qh >= 0 {
            lemma_dist16_val(n, a2, 2, -4, -1);
        } else {
            lemma_dist16_val(n, a2, 2, 4, -1);
        }
        assert(dist16(n, a1) == 13);
        assert(dist16(n, a2) == 21);
        assert(norm16(k) == 13);
        assert(a1 == dest);
        assert(quantize16(n) == (dest, norm16(k)));
    } else {
        lemma_dist16_val(n, a1, 0, 2, -3);
        if qv >= 0 {
            lemma_dist16_val(n, a2, -4, -2, 1);
        } else {
            lemma_dist16_val(n, a2, 4, -2, 1);
        }
        assert(dist16(n, a1) == 13);
        assert(dist16(n, a2) == 21);
        assert(norm16(k) == 13);
        assert(a1 == dest);
        assert(quantize16(n) == (dest, norm16(k)));
    }
    assert(quantize16(n) == (dest, norm16(k)));
}

/// One quadrant of the case analysis behind
/// [`lemma_arrow_quantize`], fixed by bit 1 of `v` and of `h`.
#[verifier::rlimit(100)]
#[verifier::spinoff_prover]
proof fn lemma_arrow_quantize_01(v: int, h: int, c: int, k: int)
    requires
        v % 2 == c % 2,
        h % 2 == c % 2,
        (v % 4) / 2 == 0,
        (h % 4) / 2 == 1,
        k == syndrome(0, 1, c % 4),
    ensures
        quantize16(half_quarters((v, h, c))) == (
            ((v - delta(k).0) / 2, (h - delta(k).1) / 2, (c - delta(k).2) / 2),
            norm16(k),
        ),
        norm16(k) <= 13,
{
    let vm = v % 4;
    let hm = h % 4;
    let cm = c % 4;
    lemma_fundamental_div_mod(v, 4);
    lemma_fundamental_div_mod(h, 4);
    lemma_fundamental_div_mod(c, 4);
    lemma_parity4(v);
    lemma_parity4(h);
    lemma_parity4(c);
    lemma_fundamental_div_mod(vm, 2);
    lemma_fundamental_div_mod(hm, 2);
    lemma_fundamental_div_mod(cm, 2);
    let qv = v / 4;
    let qh = h / 4;
    let qc = c / 4;
    let n = half_quarters((v, h, c));
    assert(n.0 - 4 == 8 * qv + (2 * vm - 2));
    assert(n.0 == 8 * qv + (2 * vm + 2));
    assert(n.1 == 8 * qh + 2 * hm);
    assert(n.1 + 4 == 8 * qh + (2 * hm + 4));
    assert(n.2 - 2 == 8 * qc + (2 * cm - 1));
    assert(n.2 + 2 == 8 * qc + (2 * cm + 3));
    lemma_rnd8_at(qv, 2 * vm - 2);
    lemma_rnd8_at(qv, 2 * vm + 2);
    lemma_rnd8_at(qh, 2 * hm);
    lemma_rnd8_at(qh, 2 * hm + 4);
    lemma_rnd8_at(qc, 2 * cm - 1);
    lemma_rnd8_at(qc, 2 * cm + 3);
    assert((vm - delta(k).0) % 2 == 0 && (hm - delta(k).1) % 2 == 0 && (cm - delta(k).2) % 2
        == 0);
    lemma_step_mod(qv, vm - delta(k).0);
    lemma_step_mod(qh, hm - delta(k).1);
    lemma_step_mod(qc, cm - delta(k).2);
    assert(v - delta(k).0 == 4 * qv + (vm - delta(k).0));
    assert(h - delta(k).1 == 4 * qh + (hm - delta(k).1));
    assert(c - delta(k).2 == 4 * qc + (cm - delta(k).2));
    let dest = ((v - delta(k).0) / 2, (h - delta(k).1) / 2, (c - delta(k).2) / 2);
    let a1 = round_even_sub(n);
    let a2 = round_odd_sub(n);
    lemma_small_squares();
    // In every class, the winning candidate's rounding has no ties;
    // the losing candidate has exactly one, whose squared contribution
    // is 16 either way.
    if cm == 0 {
        lemma_dist16_val(n, a2, 2, 0, 3);
        if qh >= 0 {
            lemma_dist16_val(n, a1, -2, -4, -1);
        } else {
            lemma_dist16_val(n, a1, -2, 4, -1);
        }
        assert(dist16(n, a2) == 13);
        assert(dist16(n, a1) == 21);
        assert(norm16(k) == 13);
        assert(a2 == dest);
        assert(quantize16(n) == (dest, norm16(k)));
    } else if cm == 1 {
        lemma_dist16_val(n, a1, 0, -2, 1);
        if qv >= 0 {
            lemma_dist16_val(n, a2, -4, 2, -3);
        } else {
            lemma_dist16_val(n, a2, 4, 2, -3);
        }
        assert(dist16(n, a1) == 5);
        assert(dist16(n, a2) == 29);
        assert(norm16(k) == 5);
        assert(a1 == dest);
        assert(quantize16(n) == (dest, norm16(k)));
    } else if cm == 2 {
        lemma_dist16_val(n, a2, 2, 0, -1);
        if qh >= 0 {
            lemma_dist16_val(n, a1, -2, -4, 3);
        } else {
            lemma_dist16_val(n, a1, -2, 4, 3);
        }
        assert(dist16(n, a2) == 5);
        assert(dist16(n, a1) == 29);
        assert(norm16(k) == 5);
        assert(a2 == dest);
        assert(quantize16(n) == (dest, norm16(k)));
    } else {
        lemma_dist16_val(n, a1, 0, -2, -3);
        if qv >= 0 {
            lemma_dist16_val(n, a2, -4, 2, 1);
        } else {
            lemma_dist16_val(n, a2, 4, 2, 1);
        }
        assert(dist16(n, a1) == 13);
        assert(dist16(n, a2) == 21);
        assert(norm16(k) == 13);
        assert(a1 == dest);
        assert(quantize16(n) == (dest, norm16(k)));
    }
    assert(quantize16(n) == (dest, norm16(k)));
}

/// One quadrant of the case analysis behind
/// [`lemma_arrow_quantize`], fixed by bit 1 of `v` and of `h`.
#[verifier::rlimit(100)]
#[verifier::spinoff_prover]
proof fn lemma_arrow_quantize_10(v: int, h: int, c: int, k: int)
    requires
        v % 2 == c % 2,
        h % 2 == c % 2,
        (v % 4) / 2 == 1,
        (h % 4) / 2 == 0,
        k == syndrome(1, 0, c % 4),
    ensures
        quantize16(half_quarters((v, h, c))) == (
            ((v - delta(k).0) / 2, (h - delta(k).1) / 2, (c - delta(k).2) / 2),
            norm16(k),
        ),
        norm16(k) <= 13,
{
    let vm = v % 4;
    let hm = h % 4;
    let cm = c % 4;
    lemma_fundamental_div_mod(v, 4);
    lemma_fundamental_div_mod(h, 4);
    lemma_fundamental_div_mod(c, 4);
    lemma_parity4(v);
    lemma_parity4(h);
    lemma_parity4(c);
    lemma_fundamental_div_mod(vm, 2);
    lemma_fundamental_div_mod(hm, 2);
    lemma_fundamental_div_mod(cm, 2);
    let qv = v / 4;
    let qh = h / 4;
    let qc = c / 4;
    let n = half_quarters((v, h, c));
    assert(n.0 - 4 == 8 * qv + (2 * vm - 2));
    assert(n.0 == 8 * qv + (2 * vm + 2));
    assert(n.1 == 8 * qh + 2 * hm);
    assert(n.1 + 4 == 8 * qh + (2 * hm + 4));
    assert(n.2 - 2 == 8 * qc + (2 * cm - 1));
    assert(n.2 + 2 == 8 * qc + (2 * cm + 3));
    lemma_rnd8_at(qv, 2 * vm - 2);
    lemma_rnd8_at(qv, 2 * vm + 2);
    lemma_rnd8_at(qh, 2 * hm);
    lemma_rnd8_at(qh, 2 * hm + 4);
    lemma_rnd8_at(qc, 2 * cm - 1);
    lemma_rnd8_at(qc, 2 * cm + 3);
    assert((vm - delta(k).0) % 2 == 0 && (hm - delta(k).1) % 2 == 0 && (cm - delta(k).2) % 2
        == 0);
    lemma_step_mod(qv, vm - delta(k).0);
    lemma_step_mod(qh, hm - delta(k).1);
    lemma_step_mod(qc, cm - delta(k).2);
    assert(v - delta(k).0 == 4 * qv + (vm - delta(k).0));
    assert(h - delta(k).1 == 4 * qh + (hm - delta(k).1));
    assert(c - delta(k).2 == 4 * qc + (cm - delta(k).2));
    let dest = ((v - delta(k).0) / 2, (h - delta(k).1) / 2, (c - delta(k).2) / 2);
    let a1 = round_even_sub(n);
    let a2 = round_odd_sub(n);
    lemma_small_squares();
    // In every class, the winning candidate's rounding has no ties;
    // the losing candidate has exactly one, whose squared contribution
    // is 16 either way.
    if cm == 0 {
        lemma_dist16_val(n, a1, 2, 0, -1);
        if qh >= 0 {
            lemma_dist16_val(n, a2, -2, -4, 3);
        } else {
            lemma_dist16_val(n, a2, -2, 4, 3);
        }
        assert(dist16(n, a1) == 5);
        assert(dist16(n, a2) == 29);
        assert(norm16(k) == 5);
        assert(a1 == dest);
        assert(quantize16(n) == (dest, norm16(k)));
    } else if cm == 1 {
        lemma_dist16_val(n, a2, 0, -2, -3);
        if qv >= 0 {
            lemma_dist16_val(n, a1, -4, 2, 1);
        } else {
            lemma_dist16_val(n, a1, 4, 2, 1);
        }
        assert(dist16(n, a2) == 13);
        assert(dist16(n, a1) == 21);
        assert(norm16(k) == 13);
        assert(a2 == dest);
        assert(quantize16(n) == (dest, norm16(k)));
    } else if cm == 2 {
        lemma_dist16_val(n, a1, 2, 0, 3);
        if qh >= 0 {
            lemma_dist16_val(n, a2, -2, -4, -1);
        } else {
            lemma_dist16_val(n, a2, -2, 4, -1);
        }
        assert(dist16(n, a1) == 13);
        assert(dist16(n, a2) == 21);
        assert(norm16(k) == 13);
        assert(a1 == dest);
        assert(quantize16(n) == (dest, norm16(k)));
    } else {
        lemma_dist16_val(n, a2, 0, -2, 1);
        if qv >= 0 {
            lemma_dist16_val(n, a1, -4, 2, -3);
        } else {
            lemma_dist16_val(n, a1, 4, 2, -3);
        }
        assert(dist16(n, a2) == 5);
        assert(dist16(n, a1) == 29);
        assert(norm16(k) == 5);
        assert(a2 == dest);
        assert(quantize16(n) == (dest, norm16(k)));
    }
    assert(quantize16(n) == (dest, norm16(k)));
}

/// One quadrant of the case analysis behind
/// [`lemma_arrow_quantize`], fixed by bit 1 of `v` and of `h`.
#[verifier::rlimit(100)]
#[verifier::spinoff_prover]
proof fn lemma_arrow_quantize_11(v: int, h: int, c: int, k: int)
    requires
        v % 2 == c % 2,
        h % 2 == c % 2,
        (v % 4) / 2 == 1,
        (h % 4) / 2 == 1,
        k == syndrome(1, 1, c % 4),
    ensures
        quantize16(half_quarters((v, h, c))) == (
            ((v - delta(k).0) / 2, (h - delta(k).1) / 2, (c - delta(k).2) / 2),
            norm16(k),
        ),
        norm16(k) <= 13,
{
    let vm = v % 4;
    let hm = h % 4;
    let cm = c % 4;
    lemma_fundamental_div_mod(v, 4);
    lemma_fundamental_div_mod(h, 4);
    lemma_fundamental_div_mod(c, 4);
    lemma_parity4(v);
    lemma_parity4(h);
    lemma_parity4(c);
    lemma_fundamental_div_mod(vm, 2);
    lemma_fundamental_div_mod(hm, 2);
    lemma_fundamental_div_mod(cm, 2);
    let qv = v / 4;
    let qh = h / 4;
    let qc = c / 4;
    let n = half_quarters((v, h, c));
    assert(n.0 - 4 == 8 * qv + (2 * vm - 2));
    assert(n.0 == 8 * qv + (2 * vm + 2));
    assert(n.1 == 8 * qh + 2 * hm);
    assert(n.1 + 4 == 8 * qh + (2 * hm + 4));
    assert(n.2 - 2 == 8 * qc + (2 * cm - 1));
    assert(n.2 + 2 == 8 * qc + (2 * cm + 3));
    lemma_rnd8_at(qv, 2 * vm - 2);
    lemma_rnd8_at(qv, 2 * vm + 2);
    lemma_rnd8_at(qh, 2 * hm);
    lemma_rnd8_at(qh, 2 * hm + 4);
    lemma_rnd8_at(qc, 2 * cm - 1);
    lemma_rnd8_at(qc, 2 * cm + 3);
    assert((vm - delta(k).0) % 2 == 0 && (hm - delta(k).1) % 2 == 0 && (cm - delta(k).2) % 2
        == 0);
    lemma_step_mod(qv, vm - delta(k).0);
    lemma_step_mod(qh, hm - delta(k).1);
    lemma_step_mod(qc, cm - delta(k).2);
    assert(v - delta(k).0 == 4 * qv + (vm - delta(k).0));
    assert(h - delta(k).1 == 4 * qh + (hm - delta(k).1));
    assert(c - delta(k).2 == 4 * qc + (cm - delta(k).2));
    let dest = ((v - delta(k).0) / 2, (h - delta(k).1) / 2, (c - delta(k).2) / 2);
    let a1 = round_even_sub(n);
    let a2 = round_odd_sub(n);
    lemma_small_squares();
    // In every class, the winning candidate's rounding has no ties;
    // the losing candidate has exactly one, whose squared contribution
    // is 16 either way.
    if cm == 0 {
        lemma_dist16_val(n, a2, -2, 0, 3);
        if qh >= 0 {
            lemma_dist16_val(n, a1, 2, -4, -1);
        } else {
            lemma_dist16_val(n, a1, 2, 4, -1);
        }
        assert(dist16(n, a2) == 13);
        assert(dist16(n, a1) == 21);
        assert(norm16(k) == 13);
        assert(a2 == dest);
        assert(quantize16(n) == (dest, norm16(k)));
    } else if cm == 1 {
        lemma_dist16_val(n, a2, 0, 2, -3);
        if qv >= 0 {
            lemma_dist16_val(n, a1, -4, -2, 1);
        } else {
            lemma_dist16_val(n, a1, 4, -2, 1);
        }
        assert(dist16(n, a2) == 13);
        assert(dist16(n, a1) == 21);
        assert(norm16(k) == 13);
        assert(a2 == dest);
        assert(quantize16(n) == (dest, norm16(k)));
    } else if cm == 2 {
        lemma_dist16_val(n, a2, -2, 0, -1);
        if qh >= 0 {
            lemma_dist16_val(n, a1, 2, -4, 3);
        } else {
            lemma_dist16_val(n, a1, 2, 4, 3);
        }
        assert(dist16(n, a2) == 5);
        assert(dist16(n, a1) == 29);
        assert(norm16(k) == 5);
        assert(a2 == dest);
        assert(quantize16(n) == (dest, norm16(k)));
    } else {
        lemma_dist16_val(n, a2, 0, 2, 1);
        if qv >= 0 {
            lemma_dist16_val(n, a1, -4, -2, -3);
        } else {
            lemma_dist16_val(n, a1, 4, -2, -3);
        }
        assert(dist16(n, a2) == 5);
        assert(dist16(n, a1) == 29);
        assert(norm16(k) == 5);
        assert(a2 == dest);
        assert(quantize16(n) == (dest, norm16(k)));
    }
    assert(quantize16(n) == (dest, norm16(k)));
}
/// The squares of the small coordinate differences that lattice
/// rounding can produce.
proof fn lemma_small_squares()
    ensures
        0 * 0 == 0,
        1 * 1 == 1,
        (-1) * (-1) == 1,
        2 * 2 == 4,
        (-2) * (-2) == 4,
        3 * 3 == 9,
        (-3) * (-3) == 9,
        4 * 4 == 16,
        (-4) * (-4) == 16,
{
    assert(0 * 0 == 0 && 1 * 1 == 1 && (-1) * (-1) == 1 && 2 * 2 == 4 && (-2) * (-2) == 4
        && 3 * 3 == 9 && (-3) * (-3) == 9 && 4 * 4 == 16 && (-4) * (-4) == 16)
        by (nonlinear_arith);
}

/// Sixteen times a squared distance, evaluated from the three
/// coordinate differences.
proof fn lemma_dist16_val(n: (int, int, int), a: (int, int, int), dv: int, dh: int, dc: int)
    requires
        n.0 - (4 * a.0 + 4) == dv,
        n.1 - 4 * a.1 == dh,
        n.2 - (4 * a.2 + 2) == dc,
    ensures
        dist16(n, a) == dv * dv + dh * dh + dc * dc,
{
    let q = quarters_of(a);
    assert((n.0 - q.0) * (n.0 - q.0) == dv * dv) by (nonlinear_arith)
        requires
            n.0 - q.0 == dv,
    ;
    assert((n.1 - q.1) * (n.1 - q.1) == dh * dh) by (nonlinear_arith)
        requires
            n.1 - q.1 == dh,
    ;
    assert((n.2 - q.2) * (n.2 - q.2) == dc * dc) by (nonlinear_arith)
        requires
            n.2 - q.2 == dc,
    ;
}

/// A coordinate's parity is the parity of its remainder by 4.
proof fn lemma_parity4(x: int)
    ensures
        x % 2 == (x % 4) % 2,
{
    lemma_fundamental_div_mod(x, 4);
    lemma_mod_multiples_vanish(2 * (x / 4), x % 4, 2);
}

/// Splitting off a multiple of 4 before halving: the half of
/// `4q + e`, for even `e`, is `2q + e/2`, whose parity is that of
/// `e/2`.
proof fn lemma_step_mod(q: int, e: int)
    requires
        e % 2 == 0,
    ensures
        (4 * q + e) % 2 == 0,
        (4 * q + e) / 2 == 2 * q + e / 2,
        ((4 * q + e) / 2) % 2 == (e / 2) % 2,
{
    lemma_fundamental_div_mod(e, 2);
    let f = e / 2;
    assert(4 * q + e == 2 * (2 * q + f));
    lemma_div_multiples_vanish(2 * q + f, 2);
    lemma_mod_multiples_vanish(2 * q + f, 0, 2);
    lemma_mod_multiples_vanish(q, f, 2);
}

} // verus!
