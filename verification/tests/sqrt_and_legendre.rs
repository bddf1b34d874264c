use ec_compress::{legendre_symbol, modular_sqrt, Fe, Legendre};
use num_bigint::BigUint;
use num_traits::ToPrimitive;

fn fe(n: u64) -> Fe {
    Fe::from_u64(n)
}

fn val(f: &Fe) -> u64 {
    BigUint::from_bytes_le(&f.bytes).to_u64().expect("fits in u64")
}

#[test]
fn legendre_of_zero_is_zero() {
    assert_eq!(legendre_symbol(&fe(0), &fe(7)), Legendre::Zero);
    assert_eq!(legendre_symbol(&fe(0), &fe(13)), Legendre::Zero);
    assert_eq!(legendre_symbol(&fe(0), &fe(3)), Legendre::Zero);
}

#[test]
fn legendre_classifies_residues_mod_7() {
    // squares mod 7: 1, 2, 4
    for &r in [1u64, 2, 4].iter() {
        assert_eq!(legendre_symbol(&fe(r), &fe(7)), Legendre::Residue);
    }
    for &n in [3u64, 5, 6].iter() {
        assert_eq!(legendre_symbol(&fe(n), &fe(7)), Legendre::NonResidue);
    }
}

#[test]
fn sqrt_degenerate_modulus_two_returns_input() {
    let r0 = modular_sqrt(&fe(0), &fe(2)).expect("0 has a root mod 2");
    assert_eq!(val(&r0), 0);
    let r1 = modular_sqrt(&fe(1), &fe(2)).expect("1 has a root mod 2");
    assert_eq!(val(&r1), 1);
}

#[test]
fn sqrt_of_zero_is_zero() {
    let r = modular_sqrt(&fe(0), &fe(7)).expect("0 has a root");
    assert_eq!(val(&r), 0);
    let r13 = modular_sqrt(&fe(0), &fe(13)).expect("0 has a root");
    assert_eq!(val(&r13), 0);
}

#[test]
fn sqrt_fast_path_mod_7() {
    // 7 ≡ 3 (mod 4): the direct-formula branch
    let r = modular_sqrt(&fe(2), &fe(7)).expect("2 is a residue mod 7");
    assert_eq!(val(&r) * val(&r) % 7, 2);
    let r4 = modular_sqrt(&fe(4), &fe(7)).expect("4 is a residue mod 7");
    assert_eq!(val(&r4) * val(&r4) % 7, 4);
}

#[test]
fn sqrt_general_path_mod_13() {
    // 13 ≡ 1 (mod 4): the iterative branch; the roots of 4 are 2 and 11
    let r = modular_sqrt(&fe(4), &fe(13)).expect("4 is a residue mod 13");
    let v = val(&r);
    assert_eq!(v * v % 13, 4);
    assert!(v == 2 || v == 11);
}

#[test]
fn sqrt_exhaustive_small_primes() {
    for &p in [3u64, 5, 7, 11, 13, 17].iter() {
        let mut residues = vec![false; p as usize];
        for y in 0..p {
            residues[(y * y % p) as usize] = true;
        }
        for a in 0..p {
            match modular_sqrt(&fe(a), &fe(p)) {
                Some(r) => {
                    let v = val(&r);
                    assert!(v < p);
                    assert_eq!(v * v % p, a);
                }
                None => {
                    assert!(!residues[a as usize], "{} is a residue mod {}", a, p);
                }
            }
        }
    }
}

#[test]
fn sqrt_large_prime_fast_path() {
    // 1000003 ≡ 3 (mod 4)
    let p: u64 = 1000003;
    for &a in [4u64, 9, 998877, 123456].iter() {
        let a_red = a % p;
        match modular_sqrt(&fe(a_red), &fe(p)) {
            Some(r) => {
                let v = val(&r) as u128;
                assert_eq!(v * v % (p as u128), a_red as u128);
            }
            None => {
                // verify absence: a must be a non-residue by Euler's criterion
                let ls = BigUint::from(a_red).modpow(
                    &BigUint::from((p - 1) / 2),
                    &BigUint::from(p),
                );
                assert_eq!(ls, BigUint::from(p - 1));
            }
        }
    }
}

#[test]
fn sqrt_large_prime_general_path() {
    // 1000033 ≡ 1 (mod 4), so the iterative branch runs
    let p: u64 = 1000033;
    for &a in [4u64, 25, 777777, 31415].iter() {
        match modular_sqrt(&fe(a), &fe(p)) {
            Some(r) => {
                let v = val(&r) as u128;
                assert_eq!(v * v % (p as u128), (a % p) as u128);
            }
            None => {
                let ls = BigUint::from(a).modpow(
                    &BigUint::from((p - 1) / 2),
                    &BigUint::from(p),
                );
                assert_eq!(ls, BigUint::from(p - 1));
            }
        }
    }
}

#[test]
fn sqrt_nonresidue_is_absent() {
    assert!(modular_sqrt(&fe(3), &fe(7)).is_none());
    assert!(modular_sqrt(&fe(5), &fe(13)).is_none());
}

#[test]
fn element_parity_and_equality() {
    assert!(fe(5).is_odd());
    assert!(!fe(6).is_odd());
    assert!(!fe(0).is_odd());
    assert!(fe(300).equals(&fe(300)));
    assert!(!fe(300).equals(&fe(301)));
    let big = Fe { bytes: vec![1, 2, 3, 0, 0] };
    let canonical = Fe { bytes: vec![1, 2, 3] };
    assert!(big.equals(&canonical));
}

#[test]
fn element_ordering() {
    assert!(fe(5).less_than(&fe(7)));
    assert!(!fe(7).less_than(&fe(7)));
    assert!(!fe(8).less_than(&fe(7)));
    assert!(fe(255).less_than(&fe(256)));
    let padded = Fe { bytes: vec![9, 0, 0, 0] };
    assert!(padded.less_than(&fe(10)));
    assert!(!fe(10).less_than(&padded));
}
