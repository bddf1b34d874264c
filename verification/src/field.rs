//! Unbounded non-negative field elements, stored as little-endian bytes.
//!
//! The mathematical value of an element is given by `bytes_value`; all
//! arbitrary-precision arithmetic is delegated to `num_bigint::BigUint`
//! through contracts stated over that value.

use vstd::prelude::*;
use vstd::arithmetic::power::pow;

verus! {

/// Value of a byte sequence read as a little-endian base-256 number.
pub open spec fn bytes_value(s: Seq<u8>) -> nat
    decreases s.len(),
{
    if s.len() == 0 {
        0
    } else {
        s[0] as nat + 256 * bytes_value(s.skip(1))
    }
}

/// `b ^ e` reduced modulo `m` (meaningful for `m > 0`).
pub open spec fn pow_mod(b: nat, e: nat, m: nat) -> nat {
    (pow(b as int, e) % (m as int)) as nat
}

/// An unbounded non-negative integer, conceptually a value reduced modulo a
/// prime when used as a field element. The byte order is little-endian and
/// trailing zero bytes are allowed (they do not change the value).
pub struct Fe {
    pub bytes: Vec<u8>,
}

impl View for Fe {
    type V = nat;

    open spec fn view(&self) -> nat {
        bytes_value(self.bytes@)
    }
}

impl Fe {
    /// Builds the element with value `n`, as its little-endian bytes.
    pub fn from_u64(n: u64) -> (r: Fe)
        ensures
            r@ == n as nat,
    {
        let mut bytes: Vec<u8> = Vec::new();
        let mut rem: u64 = n;
        proof {
            vstd::arithmetic::power2::lemma2_to64();
            assert(bytes@ =~= Seq::<u8>::empty());
            assert(bytes_value(bytes@) == 0);
            assert(vstd::arithmetic::power2::pow2(8 * bytes@.len()) == 1);
        }
        while rem > 0
            invariant
                bytes_value(bytes@) + (rem as nat) * vstd::arithmetic::power2::pow2(
                    8 * bytes@.len(),
                ) == n as nat,
            decreases rem,
        {
            let byte = (rem % 256) as u8;
            proof {
                lemma_bytes_value_push(bytes@, byte);
                let t = vstd::arithmetic::power2::pow2(8 * bytes@.len());
                vstd::arithmetic::power2::lemma_pow2_adds(8 * bytes@.len(), 8);
                vstd::arithmetic::power2::lemma2_to64();
                vstd::arithmetic::div_mod::lemma_fundamental_div_mod(rem as int, 256);
                assert((byte as nat) * t + ((rem / 256) as nat) * (t * 256) == (rem as nat) * t)
                    by (nonlinear_arith)
                    requires
                        rem as nat == 256 * ((rem / 256) as nat) + byte as nat,
                ;
            }
            bytes.push(byte);
            rem = rem / 256;
        }
        proof {
            assert((rem as nat) * vstd::arithmetic::power2::pow2(8 * bytes@.len()) == 0)
                by (nonlinear_arith)
                requires
                    rem == 0,
            ;
        }
        Fe { bytes }
    }

    /// An identical copy of this element.
    pub fn dup(&self) -> (r: Fe)
        ensures
            r.bytes@ == self.bytes@,
            r@ == self@,
    {
        let mut v: Vec<u8> = Vec::new();
        let mut i: usize = 0;
        while i < self.bytes.len()
            invariant
                i <= self.bytes.len(),
                v@ == self.bytes@.subrange(0, i as int),
            decreases self.bytes.len() - i,
        {
            v.push(self.bytes[i]);
            i = i + 1;
        }
        proof {
            assert(v@ =~= self.bytes@);
        }
        Fe { bytes: v }
    }

    /// True iff the value is odd; decided by the lowest byte alone.
    pub fn is_odd(&self) -> (r: bool)
        ensures
            r == (self@ % 2 == 1),
    {
        if self.bytes.len() == 0 {
            false
        } else {
            proof {
                lemma_bytes_value_parity(self.bytes@);
            }
            self.bytes[0] % 2 == 1
        }
    }

    /// Numeric order, decided from the most significant digit downward,
    /// with positions past an end reading as zero.
    pub fn less_than(&self, other: &Fe) -> (r: bool)
        ensures
            r == (self@ < other@),
    {
        let n1 = self.bytes.len();
        let n2 = other.bytes.len();
        let mut i: usize = if n1 > n2 {
            n1
        } else {
            n2
        };
        while i > 0
            invariant
                n1 == self.bytes@.len() && n2 == other.bytes@.len(),
                forall|j: int| j >= i ==> byte_at(self.bytes@, j) == byte_at(other.bytes@, j),
            decreases i,
        {
            i = i - 1;
            let b1 = if i < n1 {
                self.bytes[i]
            } else {
                0
            };
            let b2 = if i < n2 {
                other.bytes[i]
            } else {
                0
            };
            if b1 < b2 {
                proof {
                    lemma_high_digit_decides(self.bytes@, other.bytes@, i as int);
                }
                return true;
            }
            if b2 < b1 {
                proof {
                    lemma_high_digit_decides(other.bytes@, self.bytes@, i as int);
                }
                return false;
            }
            proof {
                assert(byte_at(self.bytes@, i as int) == byte_at(other.bytes@, i as int));
            }
        }
        proof {
            lemma_equal_digits_equal_values(self.bytes@, other.bytes@);
        }
        false
    }

    /// Numeric equality (representations may differ in trailing zero bytes),
    /// decided digit by digit with positions past an end reading as zero.
    pub fn equals(&self, other: &Fe) -> (r: bool)
        ensures
            r == (self@ == other@),
    {
        let n1 = self.bytes.len();
        let n2 = other.bytes.len();
        let n = if n1 > n2 {
            n1
        } else {
            n2
        };
        let mut i: usize = 0;
        while i < n
            invariant
                i <= n,
                n1 <= n && n2 <= n,
                n1 == self.bytes@.len() && n2 == other.bytes@.len(),
                forall|j: int|
                    0 <= j < i ==> byte_at(self.bytes@, j) == byte_at(other.bytes@, j),
            decreases n - i,
        {
            let b1 = if i < n1 {
                self.bytes[i]
            } else {
                0
            };
            let b2 = if i < n2 {
                other.bytes[i]
            } else {
                0
            };
            if b1 != b2 {
                proof {
                    assert(b1 == byte_at(self.bytes@, i as int));
                    assert(b2 == byte_at(other.bytes@, i as int));
                    if self@ == other@ {
                        lemma_equal_values_equal_digits(self.bytes@, other.bytes@);
                        assert(byte_at(self.bytes@, i as int) == byte_at(
                            other.bytes@,
                            i as int,
                        ));
                        assert(false);
                    }
                }
                return false;
            }
            i = i + 1;
        }
        proof {
            assert forall|j: int| byte_at(self.bytes@, j) == byte_at(other.bytes@, j) by {
                if 0 <= j < n {
                } else {
                    assert(byte_at(self.bytes@, j) == 0 && byte_at(other.bytes@, j) == 0);
                }
            }
            lemma_equal_digits_equal_values(self.bytes@, other.bytes@);
        }
        true
    }
}

/// The digit of `s` at position `i`, with positions past the end (or before
/// the start) reading as zero.
pub open spec fn byte_at(s: Seq<u8>, i: int) -> u8 {
    if 0 <= i < s.len() {
        s[i]
    } else {
        0
    }
}

/// A value of zero forces every digit to be zero.
proof fn lemma_zero_value_zero_digits(s: Seq<u8>)
    requires
        bytes_value(s) == 0,
    ensures
        forall|i: int| byte_at(s, i) == 0,
    decreases s.len(),
{
    if s.len() > 0 {
        assert(bytes_value(s) == s[0] as nat + 256 * bytes_value(s.skip(1)));
        assert(s[0] == 0 && bytes_value(s.skip(1)) == 0);
        lemma_zero_value_zero_digits(s.skip(1));
        assert forall|i: int| byte_at(s, i) == 0 by {
            if i >= 1 {
                assert(byte_at(s.skip(1), i - 1) == 0);
            }
        }
    }
}

/// Equal values have equal digits: the little-endian base-256 digits of a
/// number are unique once padded with zeros.
pub proof fn lemma_equal_values_equal_digits(s1: Seq<u8>, s2: Seq<u8>)
    requires
        bytes_value(s1) == bytes_value(s2),
    ensures
        forall|i: int| byte_at(s1, i) == byte_at(s2, i),
    decreases s1.len() + s2.len(),
{
    if s1.len() == 0 || s2.len() == 0 {
        lemma_zero_value_zero_digits(s1);
        lemma_zero_value_zero_digits(s2);
    } else {
        let r1 = bytes_value(s1.skip(1));
        let r2 = bytes_value(s2.skip(1));
        assert(s1[0] as nat + 256 * r1 == s2[0] as nat + 256 * r2);
        assert(s1[0] == s2[0] && r1 == r2);
        lemma_equal_values_equal_digits(s1.skip(1), s2.skip(1));
        assert forall|i: int| byte_at(s1, i) == byte_at(s2, i) by {
            if i >= 1 {
                assert(byte_at(s1.skip(1), i - 1) == byte_at(s2.skip(1), i - 1));
                assert(byte_at(s1, i) == byte_at(s1.skip(1), i - 1));
                assert(byte_at(s2, i) == byte_at(s2.skip(1), i - 1));
            }
        }
    }
}

/// Equal digits give equal values: the converse direction of uniqueness.
pub proof fn lemma_equal_digits_equal_values(s1: Seq<u8>, s2: Seq<u8>)
    requires
        forall|i: int| byte_at(s1, i) == byte_at(s2, i),
    ensures
        bytes_value(s1) == bytes_value(s2),
    decreases s1.len() + s2.len(),
{
    if s1.len() == 0 && s2.len() == 0 {
    } else if s1.len() == 0 {
        assert(byte_at(s2, 0) == byte_at(s1, 0) && byte_at(s1, 0) == 0);
        assert forall|i: int| byte_at(s1, i) == byte_at(s2.skip(1), i) by {
            if i >= 0 {
                assert(byte_at(s2.skip(1), i) == byte_at(s2, i + 1));
                assert(byte_at(s1, i + 1) == byte_at(s2, i + 1));
            }
        }
        lemma_equal_digits_equal_values(s1, s2.skip(1));
        assert(bytes_value(s2) == s2[0] as nat + 256 * bytes_value(s2.skip(1)));
    } else if s2.len() == 0 {
        assert(byte_at(s1, 0) == byte_at(s2, 0) && byte_at(s2, 0) == 0);
        assert forall|i: int| byte_at(s1.skip(1), i) == byte_at(s2, i) by {
            if i >= 0 {
                assert(byte_at(s1.skip(1), i) == byte_at(s1, i + 1));
                assert(byte_at(s1, i + 1) == byte_at(s2, i + 1));
                assert(byte_at(s2, i + 1) == 0 && byte_at(s2, i) == 0);
            }
        }
        lemma_equal_digits_equal_values(s1.skip(1), s2);
        assert(bytes_value(s1) == s1[0] as nat + 256 * bytes_value(s1.skip(1)));
    } else {
        assert(s1[0] == byte_at(s1, 0) && s2[0] == byte_at(s2, 0));
        assert forall|i: int| byte_at(s1.skip(1), i) == byte_at(s2.skip(1), i) by {
            if i >= 0 {
                assert(byte_at(s1.skip(1), i) == byte_at(s1, i + 1));
                assert(byte_at(s2.skip(1), i) == byte_at(s2, i + 1));
            }
        }
        lemma_equal_digits_equal_values(s1.skip(1), s2.skip(1));
    }
}

/// The highest differing digit decides the order: if the digits above
/// position `k` agree and the digit of `s1` at `k` is smaller, then `s1`
/// holds the smaller value.
proof fn lemma_high_digit_decides(s1: Seq<u8>, s2: Seq<u8>, k: int)
    requires
        0 <= k,
        byte_at(s1, k) < byte_at(s2, k),
        forall|j: int| j > k ==> byte_at(s1, j) == byte_at(s2, j),
    ensures
        bytes_value(s1) < bytes_value(s2),
    decreases k,
{
    if bytes_value(s1) == 0 {
        // a zero value has only zero digits, while s2 has a nonzero digit
        lemma_zero_value_zero_digits(s1);
        if bytes_value(s2) == 0 {
            lemma_zero_value_zero_digits(s2);
            assert(byte_at(s2, k) == 0);
            assert(false);
        }
    } else {
        assert(s1.len() > 0);
        if s2.len() == 0 {
            assert(byte_at(s2, k) == 0);
            assert(false);
        }
        let r1 = bytes_value(s1.skip(1));
        let r2 = bytes_value(s2.skip(1));
        if k == 0 {
            assert forall|i: int| byte_at(s1.skip(1), i) == byte_at(s2.skip(1), i) by {
                if i >= 0 {
                    assert(byte_at(s1.skip(1), i) == byte_at(s1, i + 1));
                    assert(byte_at(s2.skip(1), i) == byte_at(s2, i + 1));
                }
            }
            lemma_equal_digits_equal_values(s1.skip(1), s2.skip(1));
            assert(bytes_value(s1) == s1[0] as nat + 256 * r1);
            assert(bytes_value(s2) == s2[0] as nat + 256 * r2);
            assert(s1[0] < s2[0]);
        } else {
            assert forall|j: int| j > k - 1 implies byte_at(s1.skip(1), j) == byte_at(
                s2.skip(1),
                j,
            ) by {
                if j >= 0 {
                    assert(byte_at(s1.skip(1), j) == byte_at(s1, j + 1));
                    assert(byte_at(s2.skip(1), j) == byte_at(s2, j + 1));
                }
            }
            assert(byte_at(s1.skip(1), k - 1) == byte_at(s1, k));
            assert(byte_at(s2.skip(1), k - 1) == byte_at(s2, k));
            lemma_high_digit_decides(s1.skip(1), s2.skip(1), k - 1);
            assert(bytes_value(s1) == s1[0] as nat + 256 * r1);
            assert(bytes_value(s2) == s2[0] as nat + 256 * r2);
            assert(r1 < r2);
        }
    }
}

/// The low byte decides parity: every higher byte contributes a multiple of 256.
pub proof fn lemma_bytes_value_parity(s: Seq<u8>)
    requires
        s.len() > 0,
    ensures
        bytes_value(s) % 2 == (s[0] as nat) % 2,
{
    let rest = bytes_value(s.skip(1));
    assert(bytes_value(s) == s[0] as nat + 256 * rest);
    assert(256 * rest == (128 * rest) * 2);
    vstd::arithmetic::div_mod::lemma_mod_multiples_vanish(
        128 * rest as int,
        s[0] as int,
        2,
    );
}

/// A sequence of `n` bytes holds a value below `2^(8n)`.
pub proof fn lemma_bytes_value_bound(s: Seq<u8>)
    ensures
        bytes_value(s) < vstd::arithmetic::power2::pow2(8 * s.len()),
    decreases s.len(),
{
    if s.len() == 0 {
        assert(vstd::arithmetic::power2::pow2(0) == 1) by {
            vstd::arithmetic::power2::lemma_pow2(0);
            vstd::arithmetic::power::lemma_pow0(2);
        }
    } else {
        let rest = s.skip(1);
        lemma_bytes_value_bound(rest);
        let t = vstd::arithmetic::power2::pow2(8 * rest.len());
        assert(bytes_value(rest) <= t - 1);
        assert(256 * bytes_value(rest) <= 256 * (t - 1)) by (nonlinear_arith)
            requires
                bytes_value(rest) <= t - 1,
        ;
        vstd::arithmetic::power2::lemma_pow2_adds(8, 8 * rest.len());
        assert(vstd::arithmetic::power2::pow2(8) == 256) by {
            vstd::arithmetic::power2::lemma2_to64();
        }
        assert(bytes_value(s) == s[0] as nat + 256 * bytes_value(rest));
        assert(8 * s.len() == 8 + 8 * rest.len());
    }
}

/// Appending a high byte adds its value scaled by the weight of its position.
pub proof fn lemma_bytes_value_push(s: Seq<u8>, b: u8)
    ensures
        bytes_value(s.push(b)) == bytes_value(s) + (b as nat) * vstd::arithmetic::power2::pow2(
            8 * s.len(),
        ),
    decreases s.len(),
{
    vstd::arithmetic::power2::lemma2_to64();
    if s.len() == 0 {
        assert(s.push(b).skip(1) =~= Seq::<u8>::empty());
        assert(s.push(b)[0] == b);
        assert(bytes_value(s.push(b).skip(1)) == 0);
        assert(bytes_value(s.push(b)) == b as nat + 256 * 0);
        assert(vstd::arithmetic::power2::pow2(8 * s.len()) == 1);
        assert((b as nat) * 1 == b as nat);
    } else {
        assert(s.push(b).skip(1) =~= s.skip(1).push(b));
        lemma_bytes_value_push(s.skip(1), b);
        let t = vstd::arithmetic::power2::pow2((8 * (s.len() - 1)) as nat);
        vstd::arithmetic::power2::lemma_pow2_adds(8, (8 * (s.len() - 1)) as nat);
        assert(256 * (bytes_value(s.skip(1)) + (b as nat) * t) == 256 * bytes_value(s.skip(1)) + (
        b as nat) * (256 * t)) by (nonlinear_arith);
        assert(bytes_value(s.push(b)) == s[0] as nat + 256 * bytes_value(s.skip(1).push(b)));
        assert(bytes_value(s.skip(1).push(b)) == bytes_value(s.skip(1)) + (b as nat) * t);
        assert(256 * t == vstd::arithmetic::power2::pow2(8 * s.len()));
        assert(bytes_value(s) == s[0] as nat + 256 * bytes_value(s.skip(1)));
        assert((b as nat) * (256 * t) == (b as nat) * vstd::arithmetic::power2::pow2(
            8 * s.len(),
        ));
        assert(bytes_value(s.push(b)) == bytes_value(s) + (b as nat)
            * vstd::arithmetic::power2::pow2(8 * s.len()));
    }
}

/// Relies on `num_bigint::BigUint` addition (`Add`), with `from_bytes_le` /
/// `to_bytes_le` converting between little-endian bytes and big integers.
#[verifier::external_body]
pub(crate) fn fe_add(a: &Fe, b: &Fe) -> (r: Fe)
    ensures
        r@ == a@ + b@,
{
    let x = num_bigint::BigUint::from_bytes_le(&a.bytes)
        + num_bigint::BigUint::from_bytes_le(&b.bytes);
    Fe { bytes: x.to_bytes_le() }
}

/// Relies on `num_bigint::BigUint` subtraction (`Sub`), which panics on
/// underflow; the precondition rules that out.
#[verifier::external_body]
pub(crate) fn fe_sub(a: &Fe, b: &Fe) -> (r: Fe)
    requires
        b@ <= a@,
    ensures
        r@ == a@ - b@,
{
    let x = num_bigint::BigUint::from_bytes_le(&a.bytes)
        - num_bigint::BigUint::from_bytes_le(&b.bytes);
    Fe { bytes: x.to_bytes_le() }
}

/// Relies on `num_bigint::BigUint` multiplication (`Mul`).
#[verifier::external_body]
pub(crate) fn fe_mul(a: &Fe, b: &Fe) -> (r: Fe)
    ensures
        r@ == a@ * b@,
{
    let x = num_bigint::BigUint::from_bytes_le(&a.bytes)
        * num_bigint::BigUint::from_bytes_le(&b.bytes);
    Fe { bytes: x.to_bytes_le() }
}

/// Relies on `num_bigint::BigUint` remainder (`Rem`), which panics on a zero
/// divisor; the precondition rules that out.
#[verifier::external_body]
pub(crate) fn fe_rem(a: &Fe, m: &Fe) -> (r: Fe)
    requires
        m@ > 0,
    ensures
        r@ == a@ % m@,
{
    let x = num_bigint::BigUint::from_bytes_le(&a.bytes)
        % num_bigint::BigUint::from_bytes_le(&m.bytes);
    Fe { bytes: x.to_bytes_le() }
}

/// Relies on `num_bigint::BigUint` division by a primitive (`Div<u32>`),
/// which floors; division by the constant 2 cannot panic.
#[verifier::external_body]
pub(crate) fn fe_div2(a: &Fe) -> (r: Fe)
    ensures
        r@ == a@ / 2,
{
    let x = num_bigint::BigUint::from_bytes_le(&a.bytes) / 2u32;
    Fe { bytes: x.to_bytes_le() }
}

/// Relies on `num_bigint::BigUint::modpow`, documented as
/// `(self ^ exponent) % modulus`, panicking on a zero modulus; the
/// precondition rules that out.
#[verifier::external_body]
pub(crate) fn fe_modpow(base: &Fe, exponent: &Fe, modulus: &Fe) -> (r: Fe)
    requires
        modulus@ > 0,
    ensures
        r@ == pow_mod(base@, exponent@, modulus@),
{
    let x = num_bigint::BigUint::from_bytes_le(&base.bytes).modpow(
        &num_bigint::BigUint::from_bytes_le(&exponent.bytes),
        &num_bigint::BigUint::from_bytes_le(&modulus.bytes),
    );
    Fe { bytes: x.to_bytes_le() }
}

} // verus!
