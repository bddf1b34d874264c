//! Modular square roots by the Tonelli-Shanks algorithm.

use vstd::prelude::*;
use vstd::arithmetic::power::{
    pow,
    lemma_pow_adds,
    lemma_pow1,
    lemma_pow_positive,
    lemma_pow_multiplies,
    lemma_pow_distributes,
    lemma_pow_mod_noop,
};
use vstd::arithmetic::power2::{pow2, lemma_pow2_adds, lemma_pow2_strictly_increases, lemma2_to64};
use vstd::arithmetic::div_mod::{
    lemma_mul_mod_noop_general,
    lemma_mul_mod_noop_right,
    lemma_small_mod,
    lemma_fundamental_div_mod,
    lemma_mod_multiples_vanish,
};
use crate::primes::{is_prime, lemma_square_roots_paired};
use crate::field::{
    Fe,
    pow_mod,
    fe_add,
    fe_sub,
    fe_mul,
    fe_rem,
    fe_div2,
    fe_modpow,
    lemma_bytes_value_bound,
};
use crate::legendre::{Legendre, legendre_value, legendre_symbol};

verus! {

/// `a` is a square modulo `p`: some reduced element has square `a` mod `p`.
pub open spec fn is_quadratic_residue(a: nat, p: nat) -> bool {
    exists|y: nat| y < p && #[trigger] ((y * y) % p) == a
}

/// Some element of `[1, p)` has Euler value `p - 1`, the non-residue marker:
/// a quadratic non-residue exists. Every odd prime has one; this crate proves
/// it for `p ≡ 3 (mod 4)` (`lemma_three_mod_four_has_nonresidue`) and takes
/// it as a premise of the success clause otherwise, since deriving it from
/// primality alone needs root-counting arguments beyond this library.
pub open spec fn has_euler_nonresidue(p: nat) -> bool {
    exists|z: nat| 1 <= z < p && #[trigger] legendre_value(z, p) == p - 1
}

/// Composing modular powers multiplies the exponents.
proof fn lemma_pow_mod_compose(x: nat, e1: nat, e2: nat, p: nat)
    requires
        p >= 2,
    ensures
        pow_mod(pow_mod(x, e1, p), e2, p) == pow_mod(x, e1 * e2, p),
{
    lemma_pow_mod_noop(pow(x as int, e1), e2, p as int);
    lemma_pow_multiplies(x as int, e1, e2);
}

/// Squaring a modular power doubles the exponent.
proof fn lemma_pow_mod_square(x: nat, e: nat, p: nat)
    requires
        p >= 2,
    ensures
        (pow_mod(x, e, p) * pow_mod(x, e, p)) % p == pow_mod(x, e + e, p),
{
    lemma_mul_mod_noop_general(pow(x as int, e), pow(x as int, e), p as int);
    lemma_pow_adds(x as int, e, e);
}

/// `(p - 1)^2 ≡ 1 (mod p)`.
proof fn lemma_minus_one_squared(p: nat)
    requires
        p >= 2,
    ensures
        (((p - 1) as nat) * ((p - 1) as nat)) % p == 1,
{
    let pi = p as int;
    assert((pi - 1) * (pi - 1) == pi * (pi - 2) + 1) by (nonlinear_arith);
    lemma_mod_multiples_vanish(pi - 2, 1, pi);
    lemma_small_mod(1, p);
}

/// Raising `x^q mod p` to the `2^(s-1)`-th power yields the Euler value of
/// `x`, because `q * 2^(s-1) == (p-1)/2`.
proof fn lemma_euler_power(x: nat, q: nat, s: nat, p: nat)
    requires
        p >= 3,
        p % 2 == 1,
        s >= 1,
        q * pow2(s) == p - 1,
    ensures
        pow_mod(pow_mod(x, q, p), pow2((s - 1) as nat), p) == legendre_value(x, p),
{
    let half = pow2((s - 1) as nat);
    lemma_pow_mod_compose(x, q, half, p);
    assert(pow2(s) == 2 * half) by {
        lemma_pow2_adds((s - 1) as nat, 1);
        lemma2_to64();
    }
    assert(q * half + q * half == p - 1) by (nonlinear_arith)
        requires
            q * pow2(s) == p - 1,
            pow2(s) == 2 * half,
    ;
    assert(q * half == ((p - 1) as nat) / 2);
}

/// One iteration of the order-reduction loop preserves the success
/// invariants: with `i` the least exponent at which `t^(2^i) ≡ 1`, and
/// `b == c^(2^(m-i-1)) mod p`, the updated values `cn == b^2 mod p` and
/// `tn == t * cn mod p` satisfy the same invariants with `m` replaced by
/// `i`. The heart is that `t^(2^(i-1))`, a square root of 1 other than 1,
/// must be `p - 1` (Euclid's lemma), cancelling `cn^(2^(i-1)) ≡ p - 1`.
proof fn lemma_order_step(t: nat, c: nat, tn: nat, cn: nat, b: nat, m: nat, i: nat, p: nat)
    requires
        is_prime(p),
        p >= 3,
        t < p,
        c < p,
        1 <= i,
        i + 1 <= m,
        b == pow_mod(c, pow2((m - i - 1) as nat), p),
        cn == (b * b) % p,
        tn == (t * cn) % p,
        pow_mod(c, pow2((m - 1) as nat), p) == p - 1,
        pow_mod(t, pow2(i), p) == 1,
        pow_mod(t, pow2((i - 1) as nat), p) != 1,
    ensures
        pow_mod(tn, pow2((i - 1) as nat), p) == 1,
        pow_mod(cn, pow2((i - 1) as nat), p) == p - 1,
{
    let pi = p as int;
    let k = (i - 1) as nat;
    // cn == c^(2^(m-i)) mod p
    lemma_pow_mod_square(c, pow2((m - i - 1) as nat), p);
    assert(pow2((m - i - 1) as nat) + pow2((m - i - 1) as nat) == pow2((m - i) as nat)) by {
        lemma_pow2_adds((m - i - 1) as nat, 1);
        lemma2_to64();
    }
    assert(cn == pow_mod(c, pow2((m - i) as nat), p));
    // cn^(2^(i-1)) ≡ c^(2^(m-1)) ≡ p - 1
    lemma_pow_mod_compose(c, pow2((m - i) as nat), pow2(k), p);
    lemma_pow2_adds((m - i) as nat, k);
    assert(pow_mod(cn, pow2(k), p) == p - 1);
    // u := t^(2^(i-1)) mod p squares to 1 but is not 1, so it is p - 1
    let u = pow_mod(t, pow2(k), p);
    lemma_pow_mod_square(t, pow2(k), p);
    assert(pow2(k) + pow2(k) == pow2(i)) by {
        lemma_pow2_adds(k, 1);
        lemma2_to64();
    }
    assert((u * u) % p == 1);
    lemma_small_mod(1, p);
    assert((1 * 1) % p == 1);
    lemma_square_roots_paired(u, 1, p);
    assert(u == p - 1);
    // tn^(2^(i-1)) ≡ t^(2^(i-1)) * cn^(2^(i-1)) ≡ (p-1)(p-1) ≡ 1
    lemma_pow_mod_noop((t * cn) as int, pow2(k), pi);
    lemma_pow_distributes(t as int, cn as int, pow2(k));
    lemma_mul_mod_noop_general(pow(t as int, pow2(k)), pow(cn as int, pow2(k)), pi);
    assert(pow_mod(tn, pow2(k), p) == (u * ((p - 1) as nat)) % p);
    lemma_minus_one_squared(p);
}

/// `(p - 1)^e ≡ p - 1 (mod p)` for odd `e`: the element `p - 1` stands for
/// `-1`, whose odd powers are `-1`.
proof fn lemma_minus_one_odd_power(e: nat, p: nat)
    requires
        p >= 2,
        e % 2 == 1,
    ensures
        pow_mod((p - 1) as nat, e, p) == p - 1,
    decreases e,
{
    let x = (p - 1) as nat;
    let pi = p as int;
    if e == 1 {
        lemma_pow1(x as int);
        lemma_small_mod(x, p);
    } else {
        lemma_minus_one_odd_power((e - 2) as nat, p);
        lemma_pow_adds(x as int, (e - 2) as nat, 2);
        lemma_pow1(x as int);
        lemma_pow_adds(x as int, 1, 1);
        assert(pow(x as int, 2) == (x * x) as int);
        lemma_minus_one_squared(p);
        lemma_mul_mod_noop_general(pow(x as int, (e - 2) as nat), pow(x as int, 2), pi);
        lemma_small_mod(x, p);
        assert((x * 1) % p == p - 1);
    }
}

/// For `p ≡ 3 (mod 4)`, the element `p - 1` is a quadratic non-residue: the
/// exponent `(p-1)/2` is odd, so its Euler value is `p - 1`. Every such
/// modulus therefore has a non-residue, and `modular_sqrt`'s success clause
/// needs no separate existence premise there.
pub proof fn lemma_three_mod_four_has_nonresidue(p: nat)
    requires
        p >= 3,
        p % 4 == 3,
    ensures
        has_euler_nonresidue(p),
{
    let k = p / 4;
    vstd::arithmetic::div_mod::lemma_fundamental_div_mod(p as int, 4);
    assert(p == 4 * k + 3);
    let e = ((p - 1) as nat) / 2;
    assert(p - 1 == 2 * (2 * k + 1));
    assert(e == 2 * k + 1);
    lemma_minus_one_odd_power(e, p);
    assert(legendre_value((p - 1) as nat, p) == p - 1);
    assert(has_euler_nonresidue(p));
}

/// Non-strict monotonicity of `pow2`.
proof fn lemma_pow2_le(e1: nat, e2: nat)
    requires
        e1 <= e2,
    ensures
        pow2(e1) <= pow2(e2),
{
    if e1 < e2 {
        lemma_pow2_strictly_increases(e1, e2);
    }
}

/// If `2k == q + 1`, then the square of `a^k mod p` is `a * (a^q mod p)`
/// modulo `p`: the half-exponent power is a square root of `a` up to the
/// residual factor `a^q`.
proof fn lemma_pow_half_square(a: nat, q: nat, k: nat, p: nat)
    requires
        p >= 2,
        1 <= a < p,
        2 * k == q + 1,
    ensures
        (pow_mod(a, k, p) * pow_mod(a, k, p)) % p == (a * pow_mod(a, q, p)) % p,
{
    let ai = a as int;
    let pi = p as int;
    lemma_pow_positive(ai, k);
    lemma_pow_positive(ai, q);
    let pk = pow(ai, k);
    let pq = pow(ai, q);
    lemma_mul_mod_noop_general(pk, pk, pi);
    lemma_pow_adds(ai, k, k);
    lemma_pow_adds(ai, q, 1);
    lemma_pow1(ai);
    assert(pk * pk == pq * ai);
    lemma_mul_mod_noop_right(ai, pq, pi);
    assert(((pk % pi) * (pk % pi)) % pi == (ai * (pq % pi)) % pi);
}

/// One Tonelli-Shanks update step keeps `r^2 ≡ a * t (mod p)`: with any `b`,
/// replacing `c` by `b^2 mod p`, `t` by `t * c mod p` and `r` by `r * b mod p`
/// preserves the relation.
proof fn lemma_sqrt_step(a: nat, r: nat, t: nat, b: nat, p: nat)
    requires
        p >= 2,
        a < p,
        (r * r) % p == (a * t) % p,
    ensures
        ({
            let c1 = (b * b) % p;
            let t1 = (t * c1) % p;
            let r1 = (r * b) % p;
            (r1 * r1) % p == (a * t1) % p
        }),
{
    let pi = p as int;
    let c1 = (b * b) % p;
    let t1 = (t * c1) % p;
    let r1 = (r * b) % p;
    lemma_mul_mod_noop_general((r * b) as int, (r * b) as int, pi);
    assert((r * b) * (r * b) == (r * r) * (b * b)) by (nonlinear_arith);
    lemma_mul_mod_noop_general((r * r) as int, (b * b) as int, pi);
    lemma_small_mod(c1, p);
    lemma_mul_mod_noop_general((a * t) as int, c1 as int, pi);
    assert((a * t) * c1 == a * (t * c1)) by (nonlinear_arith);
    lemma_mul_mod_noop_general(a as int, (t * c1) as int, pi);
    lemma_small_mod(a, p);
    lemma_small_mod(t1, p);
    lemma_mul_mod_noop_general(a as int, t1 as int, pi);
}

/// True iff the Euler value `x^((p-1)/2) mod p` equals `p - 1`, the
/// non-residue marker (the value every non-residue has when `p` is prime).
fn euler_nonresidue(x: &Fe, p: &Fe) -> (r: bool)
    requires
        p@ >= 3,
        p@ % 2 == 1,
    ensures
        r == (legendre_value(x@, p@) == p@ - 1),
{
    let one = Fe::from_u64(1);
    let pm1 = fe_sub(p, &one);
    let e = fe_div2(&pm1);
    let ev = fe_modpow(x, &e, p);
    ev.equals(&pm1)
}

/// Modular square root of `a` modulo the prime `p` (Tonelli-Shanks).
///
/// Returns a root `r` with `r^2 ≡ a (mod p)` when one exists, `None` when
/// `a` is a non-residue. `p = 2` is the degenerate case in which every
/// element is its own root; `a = 0` always has the root `0`. When `p` is an
/// odd prime with a quadratic non-residue (every odd prime has one; see
/// `lemma_three_mod_four_has_nonresidue` for `p ≡ 3 (mod 4)`), a residue
/// input is guaranteed a root: the search loops provably succeed. For a
/// modulus that is not prime the loops may fail to find the values they
/// need; every such exit returns `None`, never a wrong root.
#[verifier::loop_isolation(false)]
pub fn modular_sqrt(a: &Fe, p: &Fe) -> (result: Option<Fe>)
    requires
        a@ < p@,
        p@ >= 2,
        p@ == 2 || p@ % 2 == 1,
    ensures
        result matches Some(r) ==> r@ < p@ && (r@ * r@) % p@ == a@,
        result is Some ==> is_quadratic_residue(a@, p@),
        p@ == 2 ==> (result matches Some(r) && r@ == a@),
        a@ == 0 ==> (result matches Some(r) && r@ == 0),
        p@ != 2 && a@ != 0 && legendre_value(a@, p@) != 1 ==> result is None,
        p@ != 2 && a@ != 0 && result is Some ==> legendre_value(a@, p@) == 1,
        is_prime(p@) && p@ % 2 == 1 && has_euler_nonresidue(p@) && legendre_value(a@, p@) == 1
            ==> result is Some,
{
    let two = Fe::from_u64(2);
    if p.equals(&two) {
        let r = a.dup();
        proof {
            assert(a@ == 0 || a@ == 1);
            assert((a@ * a@) % p@ == a@);
        }
        return Some(r);
    }
    let zero = Fe::from_u64(0);
    let one = Fe::from_u64(1);
    if a.equals(&zero) {
        proof {
            lemma_small_mod(0, p@);
            assert((0 * 0) % p@ == a@);
        }
        return Some(zero);
    }
    match legendre_symbol(a, p) {
        Legendre::Residue => {},
        _ => {
            return None;
        },
    }
    // factor p - 1 == q * 2^s with q odd
    let nb: usize = p.bytes.len();
    proof {
        lemma_bytes_value_bound(p.bytes@);
        lemma2_to64();
    }
    let mut q = fe_sub(p, &one);
    let mut s: u128 = 0;
    while !q.is_odd()
        invariant
            q@ >= 1,
            q@ * pow2(s as nat) == p@ - 1,
            s <= 8 * (nb as u128),
        decreases q@,
    {
        proof {
            assert(pow2(s as nat) <= p@ - 1) by (nonlinear_arith)
                requires
                    q@ >= 1,
                    q@ * pow2(s as nat) == p@ - 1,
            ;
            if s >= 8 * (nb as u128) {
                lemma_pow2_le(8 * (nb as nat), s as nat);
                assert(false);
            }
            lemma_fundamental_div_mod(q@ as int, 2);
            assert(pow2((s + 1) as nat) == 2 * pow2(s as nat)) by {
                lemma_pow2_adds(s as nat, 1);
                lemma2_to64();
            }
            assert((q@ / 2) * pow2((s + 1) as nat) == q@ * pow2(s as nat)) by (nonlinear_arith)
                requires
                    q@ == 2 * (q@ / 2),
                    pow2((s + 1) as nat) == 2 * pow2(s as nat),
            ;
        }
        q = fe_div2(&q);
        s = s + 1;
    }
    proof {
        if s == 0 {
            assert(q@ * 1 == q@);
            assert(false);
        }
    }
    if s == 1 {
        let pp1 = fe_add(p, &one);
        let e = fe_div2(&fe_div2(&pp1));
        let r = fe_modpow(a, &e, p);
        proof {
            assert(q@ * 2 == p@ - 1);
            let k = ((q@ + 1) / 2) as nat;
            lemma_fundamental_div_mod((q@ + 1) as int, 2);
            assert(2 * k == q@ + 1);
            assert(p@ + 1 == 2 * (q@ + 1));
            lemma_fundamental_div_mod((p@ + 1) as int, 2);
            assert((p@ + 1) / 2 == q@ + 1);
            assert(e@ == k);
            assert(((p@ - 1) as nat) / 2 == q@);
            lemma_pow_half_square(a@, q@, k, p@);
            assert(pow_mod(a@, q@, p@) == 1);
            assert((r@ * r@) % p@ == (a@ * 1) % p@);
            lemma_small_mod(a@, p@);
        }
        return Some(r);
    }
    // find the least quadratic non-residue z, by its Euler value p - 1
    let mut z = Fe::from_u64(1);
    while !euler_nonresidue(&z, p)
        invariant
            1 <= z@ < p@,
            forall|w: nat| 1 <= w < z@ ==> #[trigger] legendre_value(w, p@) != p@ - 1,
        decreases p@ - z@,
    {
        z = fe_add(&z, &one);
        if !z.less_than(p) {
            proof {
                if has_euler_nonresidue(p@) {
                    let zw = choose|zz: nat|
                        1 <= zz < p@ && #[trigger] legendre_value(zz, p@) == p@ - 1;
                    assert(legendre_value(zw, p@) != p@ - 1);
                    assert(false);
                }
            }
            return None;
        }
    }
    let mut m: u128 = s;
    let mut c = fe_modpow(&z, &q, p);
    let mut t = fe_modpow(a, &q, p);
    let qp1half = fe_div2(&fe_add(&q, &one));
    let mut r = fe_modpow(a, &qp1half, p);
    proof {
        let k = ((q@ + 1) / 2) as nat;
        lemma_fundamental_div_mod((q@ + 1) as int, 2);
        assert(2 * k == q@ + 1);
        assert(qp1half@ == k);
        lemma_pow_half_square(a@, q@, k, p@);
        // the success invariants at entry: raising t and c to the
        // 2^(s-1)-th power yields the Euler values of a and z
        lemma_euler_power(a@, q@, s as nat, p@);
        lemma_euler_power(z@, q@, s as nat, p@);
    }
    while !t.equals(&one)
        invariant
            t@ < p@,
            r@ < p@,
            c@ < p@,
            m >= 1,
            (r@ * r@) % p@ == (a@ * t@) % p@,
            is_prime(p@) ==> pow_mod(t@, pow2((m - 1) as nat), p@) == 1,
            is_prime(p@) ==> pow_mod(c@, pow2((m - 1) as nat), p@) == p@ - 1,
        decreases m,
    {
        // order of t in the 2-power subgroup: least i with t^(2^i) == 1
        let mut i: u128 = 0;
        let mut t2i = t.dup();
        proof {
            lemma_pow1(t@ as int);
            lemma_small_mod(t@, p@);
            assert(pow_mod(t@, pow2(0), p@) == t@);
        }
        while !t2i.equals(&one)
            invariant
                i <= m - 1,
                i == 0 ==> t2i@ == t@,
                t2i@ == pow_mod(t@, pow2(i as nat), p@),
                i >= 1 ==> pow_mod(t@, pow2((i - 1) as nat), p@) != 1,
            decreases m - i,
        {
            if i + 1 >= m {
                proof {
                    if is_prime(p@) {
                        assert(t2i@ == pow_mod(t@, pow2((m - 1) as nat), p@));
                        assert(false);
                    }
                }
                return None;
            }
            proof {
                lemma_pow_mod_square(t@, pow2(i as nat), p@);
                assert(pow2(i as nat) + pow2(i as nat) == pow2((i + 1) as nat)) by {
                    lemma_pow2_adds(i as nat, 1);
                    lemma2_to64();
                }
            }
            t2i = fe_rem(&fe_mul(&t2i, &t2i), p);
            i = i + 1;
        }
        proof {
            assert(i >= 1);
        }
        // b = c^(2^(m - i - 1)) mod p, by repeated squaring
        let steps: u128 = m - i - 1;
        let mut b = c.dup();
        let mut j: u128 = 0;
        proof {
            lemma_pow1(c@ as int);
            lemma_small_mod(c@, p@);
            assert(pow_mod(c@, pow2(0), p@) == c@);
        }
        while j < steps
            invariant
                j <= steps,
                b@ == pow_mod(c@, pow2(j as nat), p@),
            decreases steps - j,
        {
            proof {
                lemma_pow_mod_square(c@, pow2(j as nat), p@);
                assert(pow2(j as nat) + pow2(j as nat) == pow2((j + 1) as nat)) by {
                    lemma_pow2_adds(j as nat, 1);
                    lemma2_to64();
                }
            }
            b = fe_rem(&fe_mul(&b, &b), p);
            j = j + 1;
        }
        proof {
            lemma_sqrt_step(a@, r@, t@, b@, p@);
        }
        let c_new = fe_rem(&fe_mul(&b, &b), p);
        let t_new = fe_rem(&fe_mul(&t, &c_new), p);
        let r_new = fe_rem(&fe_mul(&r, &b), p);
        proof {
            if is_prime(p@) {
                lemma_order_step(t@, c@, t_new@, c_new@, b@, m as nat, i as nat, p@);
            }
        }
        c = c_new;
        t = t_new;
        r = r_new;
        m = i;
    }
    proof {
        assert((r@ * r@) % p@ == (a@ * 1) % p@);
        lemma_small_mod(a@, p@);
    }
    Some(r)
}

} // verus!
