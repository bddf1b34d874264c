use ec_compress::{ECPoint, EllipticCurve, Fe};

fn fe(n: u64) -> Fe {
    Fe::from_u64(n)
}

fn toy_curve() -> EllipticCurve {
    EllipticCurve { a: fe(3), b: fe(4), p: fe(7) }
}

fn affine(x: u64, y: u64) -> ECPoint {
    ECPoint { x: fe(x), y: fe(y), is_infinity: false }
}

fn identity() -> ECPoint {
    ECPoint { x: fe(0), y: fe(0), is_infinity: true }
}

#[test]
fn known_point_is_on_curve() {
    // 5^2 mod 7 == 4 and 2^3 + 3*2 + 4 == 18, 18 mod 7 == 4
    let curve = toy_curve();
    assert!(curve.is_on_curve(&affine(2, 5)));
}

#[test]
fn off_curve_point_is_rejected() {
    let curve = toy_curve();
    assert!(!curve.is_on_curve(&affine(2, 3)));
    assert!(!curve.is_on_curve(&affine(4, 1)));
}

#[test]
fn identity_is_on_curve() {
    let curve = toy_curve();
    assert!(curve.is_on_curve(&identity()));
}

#[test]
fn compress_known_point() {
    let curve = toy_curve();
    let compressed = curve.compress(&affine(2, 5));
    let (x, is_odd) = compressed.expect("affine point must compress");
    assert!(x.equals(&fe(2)));
    assert!(is_odd);
}

#[test]
fn compress_identity_is_absent() {
    let curve = toy_curve();
    assert!(curve.compress(&identity()).is_none());
}

#[test]
fn decompress_both_parities() {
    let curve = toy_curve();
    let odd = curve.decompress(fe(2), true).expect("x = 2 is a valid abscissa");
    assert!(odd.x.equals(&fe(2)));
    assert!(odd.y.equals(&fe(5)));
    assert!(!odd.is_infinity);

    let even = curve.decompress(fe(2), false).expect("x = 2 is a valid abscissa");
    assert!(even.x.equals(&fe(2)));
    assert!(even.y.equals(&fe(2)));
    assert!(!even.is_infinity);
}

#[test]
fn decompress_invalid_abscissa_is_absent() {
    // rhs(3) = 27 + 9 + 4 = 40, 40 mod 7 == 5, a non-residue mod 7
    let curve = toy_curve();
    assert!(curve.decompress(fe(3), true).is_none());
    assert!(curve.decompress(fe(3), false).is_none());
}

#[test]
fn roundtrip_all_affine_points() {
    // the affine points of y^2 = x^3 + 3x + 4 over F_7
    let curve = toy_curve();
    let points: Vec<(u64, u64)> =
        vec![(0, 2), (0, 5), (1, 1), (1, 6), (2, 2), (2, 5), (5, 2), (5, 5), (6, 0)];
    for &(x, y) in points.iter() {
        let point = affine(x, y);
        assert!(curve.is_on_curve(&point));
        let (cx, parity) = curve.compress(&point).expect("affine point must compress");
        let back = curve.decompress(cx, parity).expect("compressed point must decompress");
        assert!(back.x.equals(&point.x));
        assert!(back.y.equals(&point.y));
        assert!(!back.is_infinity);
        assert!(curve.is_on_curve(&back));
    }
}

#[test]
fn zero_ordinate_satisfies_either_parity_request() {
    // (6, 0) lies on the curve; y = 0 is its own negation, so either
    // requested parity yields it back
    let curve = toy_curve();
    for &parity in [false, true].iter() {
        let back = curve.decompress(fe(6), parity).expect("x = 6 is a valid abscissa");
        assert!(back.x.equals(&fe(6)));
        assert!(back.y.equals(&fe(0)));
    }
}
