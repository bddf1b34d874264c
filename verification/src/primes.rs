//! Primality, and the facts about roots modulo a prime that make point
//! decompression unambiguous.

use vstd::prelude::*;
use vstd::arithmetic::div_mod::{
    lemma_fundamental_div_mod,
    lemma_mod_bound,
    lemma_mod_multiples_basic,
    lemma_mul_mod_noop_general,
    lemma_small_mod,
    lemma_sub_mod_noop,
};

verus! {

/// `p` is prime: at least 2, and no `d` with `2 <= d < p` divides it.
pub open spec fn is_prime(p: nat) -> bool {
    p >= 2 && forall|d: nat| 2 <= d < p ==> #[trigger] (p % d) != 0
}

/// Euclid's lemma in descent form: a prime `p` dividing `a * b` with
/// `1 <= a < p` divides `b`. The descent replaces `a` by `p % a`, which is
/// smaller and nonzero because `p` is prime.
proof fn lemma_prime_divides_factor(a: nat, b: nat, p: nat)
    requires
        is_prime(p),
        1 <= a < p,
        (a * b) % p == 0,
    ensures
        b % p == 0,
    decreases a,
{
    let pi = p as int;
    let ai = a as int;
    let bi = b as int;
    if a == 1 {
        assert(1 * b == b);
    } else {
        assert(p % a != 0);
        let a2 = p % a;
        lemma_mod_bound(pi, ai);
        let k = pi / ai;
        lemma_fundamental_div_mod(pi, ai);
        lemma_fundamental_div_mod((a * b) as int, pi);
        let l = ((a * b) as int) / pi;
        assert((a * b) as int == ai * bi);
        assert((a2 as int) * bi == pi * (bi - k * l)) by (nonlinear_arith)
            requires
                pi == ai * k + a2 as int,
                ai * bi == pi * l,
        ;
        lemma_mod_multiples_basic(bi - k * l, pi);
        assert((a2 * b) as int == (a2 as int) * bi);
        assert((a2 * b) % p == 0);
        lemma_prime_divides_factor(a2, b, p);
    }
}

/// Euclid's lemma over the integers: a prime dividing `u * v` divides one of
/// the factors.
pub proof fn lemma_prime_divides_product(u: int, v: int, p: nat)
    requires
        is_prime(p),
        (u * v) % (p as int) == 0,
    ensures
        u % (p as int) == 0 || v % (p as int) == 0,
{
    let pi = p as int;
    let u1 = u % pi;
    let v1 = v % pi;
    lemma_mul_mod_noop_general(u, v, pi);
    lemma_mod_bound(u, pi);
    lemma_mod_bound(v, pi);
    if u1 != 0 && v1 != 0 {
        assert((u1 * v1) % pi == 0);
        assert((u1 as nat) * (v1 as nat) == u1 * v1);
        lemma_prime_divides_factor(u1 as nat, v1 as nat, p);
        lemma_small_mod(v1 as nat, p);
        assert(false);
    }
}

/// Two square roots of the same value modulo a prime are equal or opposite:
/// from `y1^2 ≡ y2^2 (mod p)` follows `y2 == y1` or `y1 + y2 == p`.
pub proof fn lemma_square_roots_paired(y1: nat, y2: nat, p: nat)
    requires
        is_prime(p),
        y1 < p,
        y2 < p,
        (y1 * y1) % p == (y2 * y2) % p,
    ensures
        y2 == y1 || y1 + y2 == p,
{
    let pi = p as int;
    let d = y1 as int - y2 as int;
    let s = y1 as int + y2 as int;
    assert(d * s == (y1 * y1) as int - (y2 * y2) as int) by (nonlinear_arith)
        requires
            d == y1 as int - y2 as int,
            s == y1 as int + y2 as int,
    ;
    lemma_sub_mod_noop((y1 * y1) as int, (y2 * y2) as int, pi);
    assert(((y1 * y1) as int) % pi == ((y2 * y2) as int) % pi);
    lemma_small_mod(0, p);
    assert(((y1 * y1) as int - (y2 * y2) as int) % pi == 0);
    assert((d * s) % pi == 0);
    lemma_prime_divides_product(d, s, p);
    if d % pi == 0 {
        lemma_fundamental_div_mod(d, pi);
        assert(d == 0) by (nonlinear_arith)
            requires
                d == pi * (d / pi),
                -pi < d < pi,
                pi >= 2,
        ;
    } else {
        lemma_fundamental_div_mod(s, pi);
        assert(s == 0 || s == pi) by (nonlinear_arith)
            requires
                s == pi * (s / pi),
                0 <= s < 2 * pi,
                pi >= 2,
        ;
    }
}

} // verus!
