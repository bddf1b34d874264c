//! The Legendre symbol: a three-valued quadratic-residue indicator.

use vstd::prelude::*;
use vstd::arithmetic::power::lemma0_pow;
use crate::field::{Fe, fe_div2, fe_modpow, fe_sub, pow_mod};

verus! {

/// Outcome of the Legendre symbol: the element is zero, a nonzero quadratic
/// residue, or a non-residue modulo the odd prime.
#[derive(Clone, Copy, Debug, PartialEq, Eq, Structural)]
pub enum Legendre {
    Zero,
    Residue,
    NonResidue,
}

/// `a ^ ((p-1)/2) mod p`, the Euler-criterion value the symbol is read from.
pub open spec fn legendre_value(a: nat, p: nat) -> nat {
    pow_mod(a, ((p - 1) as nat) / 2, p)
}

/// Legendre symbol of `a` modulo the odd prime `p`, computed as
/// `a^((p-1)/2) mod p` and mapped: 0 to `Zero`, 1 to `Residue`, anything else
/// to `NonResidue`. For a prime modulus the value is always 0, 1 or `p - 1`;
/// for a non-prime modulus the `NonResidue` arm acts as a catch-all and the
/// result is meaningless.
pub fn legendre_symbol(a: &Fe, p: &Fe) -> (r: Legendre)
    requires
        p@ >= 3,
        p@ % 2 == 1,
    ensures
        (r == Legendre::Zero) <==> legendre_value(a@, p@) == 0,
        (r == Legendre::Residue) <==> legendre_value(a@, p@) == 1,
        (r == Legendre::NonResidue) <==> (legendre_value(a@, p@) != 0 && legendre_value(a@, p@)
            != 1),
        a@ == 0 ==> r == Legendre::Zero,
{
    let one = Fe::from_u64(1);
    let pm1 = fe_sub(p, &one);
    let e = fe_div2(&pm1);
    let ls = fe_modpow(a, &e, p);
    proof {
        if a@ == 0 {
            lemma0_pow(((p@ - 1) as nat) / 2);
            assert(vstd::arithmetic::power::pow(0, ((p@ - 1) as nat) / 2) == 0);
            vstd::arithmetic::div_mod::lemma_small_mod(0, p@);
            assert(legendre_value(0, p@) == 0);
        }
    }
    let zero = Fe::from_u64(0);
    if ls.equals(&zero) {
        Legendre::Zero
    } else if ls.equals(&one) {
        Legendre::Residue
    } else {
        Legendre::NonResidue
    }
}

} // verus!
