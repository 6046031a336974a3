//! Tests for the shifted BCC lattice, its residual chains and its
//! symmetries.

use fvq::bcc::{Chain, Residual, ShiftedBCC, Symmetry};

const FIXED_POINTS: [(f32, f32, f32); 8] = [
    (0.0, -1.0, 1.5),
    (0.0, 1.0, 1.5),
    (-1.0, 0.0, 0.5),
    (1.0, 0.0, 0.5),
    (0.0, -1.0, -0.5),
    (0.0, 1.0, -0.5),
    (-1.0, 0.0, -1.5),
    (1.0, 0.0, -1.5),
];

/// Construct a `ShiftedBCC` from its 3D coordinates, which must be a
/// quantisation point.
fn new_bcc(v: f32, h: f32, c: f32) -> ShiftedBCC {
    let vi = (v - 1.0) as i16;
    let hi = (h - 0.0) as i16;
    let ci = (c - 0.5) as i16;
    assert_eq!(vi.rem_euclid(2), ci.rem_euclid(2), "Not a quantisation point");
    assert_eq!(hi.rem_euclid(2), ci.rem_euclid(2), "Not a quantisation point");
    ShiftedBCC::new_inner(vi, hi, ci)
}

/// The coordinates of `bcc`.
fn vhc(bcc: ShiftedBCC) -> (f32, f32, f32) {
    let q = bcc.vhc_quarters();
    (q.0 as f32 * 0.25, q.1 as f32 * 0.25, q.2 as f32 * 0.25)
}

/// The components of a residual.
fn residual_vhc(r: Residual) -> (f32, f32, f32) {
    let q = r.vhc_quarters();
    (q.0 as f32 * 0.25, q.1 as f32 * 0.25, q.2 as f32 * 0.25)
}

/// Round to the nearest even integer.
fn round2(x: f32) -> f32 { 2.0 * (x * 0.5).round() }

/// L2 norm.
fn norm(v: f32, h: f32, c: f32) -> f32 { v * v + h * h + c * c }

/// Returns the nearest `ShiftedBCC` to `(v, h, c)`, and the L2 norm of
/// the difference.
fn quantize(v: f32, h: f32, c: f32) -> (ShiftedBCC, f32) {
    let v1 = round2(v - 1.0) + 1.0;
    let h1 = round2(h - 0.0) + 0.0;
    let c1 = round2(c - 0.5) + 0.5;
    let norm1 = norm(v - v1, h - h1, c - c1);
    let v2 = round2(v + 0.0) - 0.0;
    let h2 = round2(h + 1.0) - 1.0;
    let c2 = round2(c + 0.5) - 0.5;
    let norm2 = norm(v - v2, h - h2, c - c2);
    if norm1 < norm2 {
        (new_bcc(v1, h1, c1), norm1)
    } else {
        (new_bcc(v2, h2, c2), norm2)
    }
}

/// Generate a list of 250 `ShiftedBCC` values.
fn some_bccs() -> Vec<ShiftedBCC> {
    const RANGE: [f32; 5] = [-4.0, -2.0, 0.0, 2.0, 4.0];
    let mut ret = Vec::new();
    for &v in &RANGE {
        for &h in &RANGE {
            for &c in &RANGE {
                ret.push(new_bcc(v + 1.0, h, c + 0.5));
                ret.push(new_bcc(v, h - 1.0, c - 0.5));
            }
        }
    }
    ret
}

fn all_symmetries() -> [Symmetry; 4] {
    [
        Symmetry::new(0),
        Symmetry::new(1),
        Symmetry::new(2),
        Symmetry::new(3),
    ]
}

fn all_residuals() -> Vec<Residual> {
    (0u8..8).map(Residual::new).collect()
}

#[test]
fn bcc_round_trip() {
    for &(v, h, c) in &FIXED_POINTS {
        let bcc = new_bcc(v, h, c);
        assert_eq!(vhc(bcc), (v, h, c));
    }
}

#[test]
fn arrow() {
    for a in some_bccs().into_iter() {
        let (observed_b, observed_r) = a.arrow();
        // Check the destination.
        let (av, ah, ac) = vhc(a);
        let (expected_b, error_norm) = quantize(0.5 * av, 0.5 * ah, 0.5 * ac);
        assert!(error_norm <= 1.25);
        assert_eq!(observed_b, expected_b,
            "{:?}.arrow() gives destination {:?} (should be {:?})", a, observed_b, expected_b,
        );
        // Check the residual.
        let (bv, bh, bc) = vhc(expected_b);
        let expected_r = (0.5 * av - bv, 0.5 * ah - bh, 0.5 * ac - bc);
        assert_eq!(residual_vhc(observed_r), expected_r,
            "{:?}.arrow() gives residual {:?} (should be {:?})",
            a, residual_vhc(observed_r), expected_r,
        );
    }
}

#[test]
fn symmetries() {
    // Test the symmetry with tag 1.
    for &r in &all_residuals() {
        let (v, h, c) = residual_vhc(r);
        let sr = r.apply_symmetry(Symmetry::new(1));
        let (sv, sh, sc) = residual_vhc(sr);
        assert_eq!(v, sh);
        assert_eq!(h, sv);
        assert_eq!(c, -sc);
    }
    // Test the symmetry with tag 2.
    for &r in &all_residuals() {
        let (v, h, c) = residual_vhc(r);
        let sr = r.apply_symmetry(Symmetry::new(2));
        let (sv, sh, sc) = residual_vhc(sr);
        assert_eq!(v, -sh);
        assert_eq!(h, -sv);
        assert_eq!(c, -sc);
    }
    // Test recommend_symmetry(): it canonicalises to residual 0 or 4.
    for &r in &all_residuals() {
        let s = r.recommend_symmetry();
        let sr = r.apply_symmetry(s);
        assert!(sr == Residual::new(0) || sr == Residual::new(4));
    }
    // Test the self-inverse property.
    for &s in &all_symmetries() {
        for &r in &all_residuals() {
            let sr = r.apply_symmetry(s);
            let ssr = sr.apply_symmetry(s);
            assert_eq!(r, ssr);
        }
    }
}

#[test]
fn short_chain() {
    for &(v, h, c) in &FIXED_POINTS {
        let bcc = new_bcc(v, h, c);
        let chain = Chain::from_bcc(bcc);
        assert_eq!(chain.residuals, []);
        assert_eq!(vhc(chain.to_bcc()), (v, h, c));
        let (bcc2, residual) = bcc.arrow();
        assert_eq!(bcc, bcc2);
        assert_eq!(residual, chain.last_residual);
    }
}

#[test]
fn long_chain() {
    for &bcc in some_bccs().iter() {
        let chain = Chain::from_bcc(bcc);
        let new_bcc = chain.to_bcc();
        assert_eq!(bcc, new_bcc);
    }
}

#[test]
fn chain_symmetries() {
    for &bcc in some_bccs().iter() {
        let chain = Chain::from_bcc(bcc);
        for &s in &all_symmetries() {
            let schain = chain.apply_symmetry(s);
            let sschain = schain.apply_symmetry(s);
            assert_eq!(chain, sschain);
        }
    }
}

#[test]
fn arrow_is_nearest() {
    // The arrow's destination is a nearest lattice point to half the
    // source: no lattice point is closer, measured in sixteenths of a
    // squared unit on quarter-unit coordinates.
    for &a in some_bccs().iter() {
        let (b, r) = a.arrow();
        let qa = a.vhc_quarters();
        let half = (qa.0 / 2, qa.1 / 2, qa.2 / 2);
        let qr = r.vhc_quarters();
        let err16 = (qr.0 as i32).pow(2) + (qr.1 as i32).pow(2) + (qr.2 as i32).pow(2);
        let qb = b.vhc_quarters();
        let dest16 = (half.0 - qb.0).pow(2) + (half.1 - qb.1).pow(2) + (half.2 - qb.2).pow(2);
        assert_eq!(dest16, err16);
        for v in -6i32..=6 {
            for h in -6i32..=6 {
                for c in -6i32..=6 {
                    if (v - c) % 2 != 0 || (h - c) % 2 != 0 {
                        continue;
                    }
                    let q = (4 * v + 4, 4 * h, 4 * c + 2);
                    let d = (half.0 - q.0).pow(2) + (half.1 - q.1).pow(2) + (half.2 - q.2).pow(2);
                    assert!(d >= err16, "{:?} is closer to half of {:?}", (v, h, c), a);
                }
            }
        }
    }
}
