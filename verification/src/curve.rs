//! Short-Weierstrass curve model: membership test, point compression and
//! decompression.

use vstd::prelude::*;
use vstd::arithmetic::div_mod::{
    lemma_mul_mod_noop_general,
    lemma_small_mod,
    lemma_mod_multiples_vanish,
    lemma_add_mod_noop,
};
use crate::field::{Fe, fe_add, fe_sub, fe_mul, fe_rem};
use crate::legendre::legendre_value;
use crate::primes::{is_prime, lemma_square_roots_paired};
use crate::sqrt::{has_euler_nonresidue, modular_sqrt};

verus! {

/// An affine curve point `(x, y)`, or the point at infinity (the identity),
/// which has no coordinates of its own.
pub struct ECPoint {
    pub x: Fe,
    pub y: Fe,
    pub is_infinity: bool,
}

/// A short-Weierstrass curve `y^2 = x^3 + a*x + b` over the prime field of
/// modulus `p`.
pub struct EllipticCurve {
    pub a: Fe,
    pub b: Fe,
    pub p: Fe,
}

impl EllipticCurve {
    /// Well-formed curve parameters: `p` is 2 or odd (and, by the caller's
    /// contract, prime), and the coefficients are reduced modulo `p`.
    pub open spec fn wf(&self) -> bool {
        &&& self.p@ >= 2
        &&& (self.p@ == 2 || self.p@ % 2 == 1)
        &&& self.a@ < self.p@
        &&& self.b@ < self.p@
    }

    /// The curve equation's right-hand side `x^3 + a*x + b`, reduced mod `p`.
    pub open spec fn spec_rhs(&self, x: nat) -> nat {
        (x * x * x + self.a@ * x + self.b@) % self.p@
    }

    /// Membership: the identity is on the curve; an affine point is on the
    /// curve iff its coordinates satisfy the curve equation modulo `p`.
    pub open spec fn spec_on_curve(&self, point: &ECPoint) -> bool {
        point.is_infinity || (point.y@ * point.y@) % self.p@ == self.spec_rhs(point.x@)
    }

    /// Evaluates the curve equation's right-hand side at `x`, modulo `p`.
    pub fn rhs_at(&self, x: &Fe) -> (r: Fe)
        requires
            self.p@ >= 1,
        ensures
            r@ == self.spec_rhs(x@),
            r@ < self.p@,
    {
        let x2 = fe_mul(x, x);
        let x3 = fe_mul(&x2, x);
        let ax = fe_mul(&self.a, x);
        let sum = fe_add(&fe_add(&x3, &ax), &self.b);
        fe_rem(&sum, &self.p)
    }

    /// True iff `point` is the identity or satisfies the curve equation.
    pub fn is_on_curve(&self, point: &ECPoint) -> (r: bool)
        requires
            self.p@ >= 1,
        ensures
            r == self.spec_on_curve(point),
    {
        if point.is_infinity {
            return true;
        }
        let lhs = fe_rem(&fe_mul(&point.y, &point.y), &self.p);
        let rhs = self.rhs_at(&point.x);
        lhs.equals(&rhs)
    }

    /// Compresses a point to its x-coordinate and the parity of its
    /// y-coordinate (`true` for odd). The identity has no compressed form.
    pub fn compress(&self, point: &ECPoint) -> (r: Option<(Fe, bool)>)
        ensures
            point.is_infinity <==> r is None,
            r matches Some(c) ==> c.0@ == point.x@ && c.1 == (point.y@ % 2 == 1),
    {
        if point.is_infinity {
            return None;
        }
        Some((point.x.dup(), point.y.is_odd()))
    }

    /// Decompresses `(x, parity)` back to an affine point: solves the curve
    /// equation for `y` and picks, of the two opposite roots, the one whose
    /// parity matches `is_odd`. Returns `None` when `x` is not the abscissa
    /// of any point, that is when the right-hand side has no square root.
    ///
    /// A returned point always lies on the curve and keeps `x`; its parity
    /// matches the request except in the degenerate cases (`p = 2`, or a
    /// zero `y`, which is its own negation and is returned for either
    /// requested parity).
    pub fn decompress(&self, x: Fe, is_odd: bool) -> (r: Option<ECPoint>)
        requires
            self.wf(),
            x@ < self.p@,
        ensures
            r matches Some(pt) ==> {
                &&& !pt.is_infinity
                &&& pt.x@ == x@
                &&& pt.y@ < self.p@
                &&& self.spec_on_curve(&pt)
            },
            r matches Some(pt) ==> (self.p@ % 2 == 1 && pt.y@ != 0 ==> ((pt.y@ % 2 == 1)
                == is_odd)),
            (self.p@ != 2 && self.spec_rhs(x@) != 0 && legendre_value(self.spec_rhs(x@), self.p@)
                != 1) ==> r is None,
            self.p@ == 2 ==> r is Some,
            self.spec_rhs(x@) == 0 ==> (r matches Some(pt) && pt.y@ == 0),
            (is_prime(self.p@) && self.p@ % 2 == 1 && has_euler_nonresidue(self.p@)
                && legendre_value(self.spec_rhs(x@), self.p@) == 1) ==> r is Some,
    {
        let rhs = self.rhs_at(&x);
        match modular_sqrt(&rhs, &self.p) {
            None => None,
            Some(y) => {
                let y_matches = y.is_odd() == is_odd;
                let selected = if y_matches {
                    y
                } else {
                    proof {
                        lemma_other_root(y@, rhs@, self.p@);
                    }
                    fe_rem(&fe_sub(&self.p, &y), &self.p)
                };
                Some(ECPoint { x, y: selected, is_infinity: false })
            },
        }
    }
}

/// Compression round-trips: over an odd prime modulus, a non-identity curve
/// point is determined by its x-coordinate together with the parity of its
/// y-coordinate, so a point decompressed from a point's compressed form can
/// only be that point itself. With `decompress`'s postconditions this law
/// pins the decompressed point's y-coordinate to the original's whenever
/// decompression succeeds.
pub proof fn lemma_compressed_form_determines_point(
    c: &EllipticCurve,
    p1: &ECPoint,
    p2: &ECPoint,
)
    requires
        c.wf(),
        is_prime(c.p@),
        c.p@ % 2 == 1,
        !p1.is_infinity,
        !p2.is_infinity,
        c.spec_on_curve(p1),
        c.spec_on_curve(p2),
        p1.x@ == p2.x@,
        p1.y@ < c.p@,
        p2.y@ < c.p@,
        (p1.y@ % 2 == 1) == (p2.y@ % 2 == 1),
    ensures
        p1.y@ == p2.y@,
{
    lemma_square_roots_paired(p1.y@, p2.y@, c.p@);
    if p2.y@ != p1.y@ {
        // the two y-values would sum to the odd p while having equal parity
        lemma_add_mod_noop(p1.y@ as int, p2.y@ as int, 2);
        assert(false);
    }
}

/// The other square root: if `y^2 ≡ v (mod p)` and `y < p`, then
/// `w = (p - y) mod p` also satisfies `w^2 ≡ v (mod p)`; it is `p - y` when
/// `y` is nonzero, hence of the opposite parity for odd `p`, and `0` when
/// `y` is zero.
proof fn lemma_other_root(y: nat, v: nat, p: nat)
    requires
        p >= 2,
        y < p,
        (y * y) % p == v,
    ensures
        ({
            let w = ((p - y) as nat) % p;
            &&& (w * w) % p == v
            &&& (y != 0 ==> w == p - y)
            &&& (y == 0 ==> w == 0)
            &&& (y != 0 && p % 2 == 1 ==> (w % 2 == 1) != (y % 2 == 1))
        }),
{
    let pi = p as int;
    let yi = y as int;
    let d = (p - y) as nat;
    if y == 0 {
        lemma_small_mod(0, p);
        assert(d == p);
        assert(p % p == 0) by {
            vstd::arithmetic::div_mod::lemma_mod_self_0(pi);
        }
    } else {
        lemma_small_mod(d, p);
        let w = d;
        // (p - y)^2 == p * (p - 2y) + y * y
        assert((pi - yi) * (pi - yi) == pi * (pi - 2 * yi) + yi * yi) by (nonlinear_arith);
        lemma_mod_multiples_vanish(pi - 2 * yi, yi * yi, pi);
        assert((w * w) % p == (y * y) % p);
        if p % 2 == 1 {
            // p == d + y, so d and y have opposite parities
            lemma_add_mod_noop(d as int, yi, 2);
            if d % 2 == y % 2 {
                assert(false);
            }
        }
    }
}

} // verus!
