use elliptic_curve_ops::{mod_inverse, mod_pow, EllipticCurve, Point};

// y² = x³ + 2x + 3 over GF(97)
fn test_curve() -> EllipticCurve {
    EllipticCurve::new(2, 3, 97)
}

#[test]
fn test_curve_creation() {
    let curve = test_curve();
    assert_eq!(curve.a, 2);
    assert_eq!(curve.b, 3);
    assert_eq!(curve.p, 97);
}

#[test]
#[should_panic]
fn test_singular_curve_panics() {
    // 4*0³ + 27*0² = 0 mod p → singular
    EllipticCurve::new(0, 0, 97);
}

#[test]
fn test_point_on_curve() {
    let curve = test_curve();
    // (3, 6): 36 mod 97 = 36; 27+6+3=36 mod 97 ✓
    let p = Point::new(3, 6);
    assert!(curve.is_on_curve(&p));
}

#[test]
fn test_point_not_on_curve() {
    let curve = test_curve();
    let p = Point::new(1, 1);
    assert!(!curve.is_on_curve(&p));
}

#[test]
fn test_infinity_on_curve() {
    let curve = test_curve();
    assert!(curve.is_on_curve(&Point::infinity()));
}

#[test]
fn test_point_addition_distinct() {
    let curve = test_curve();
    let p = Point::new(3, 6);
    let q = Point::new(1, 43);
    let r = curve.add(&p, &q);
    assert!(curve.is_on_curve(&r));
    assert!(!r.is_infinity);
}

#[test]
fn test_point_doubling() {
    let curve = test_curve();
    let p = Point::new(3, 6);
    let doubled = curve.add(&p, &p);
    assert!(curve.is_on_curve(&doubled));
}

#[test]
fn test_add_inverse_gives_infinity() {
    let curve = test_curve();
    let p = Point::new(3, 6);
    let neg_p = p.negate(97);
    let r = curve.add(&p, &neg_p);
    assert!(r.is_infinity);
}

#[test]
fn test_add_identity() {
    let curve = test_curve();
    let p = Point::new(3, 6);
    let r = curve.add(&p, &Point::infinity());
    assert_eq!(r, p);
}

#[test]
fn test_scalar_multiplication() {
    let curve = test_curve();
    let p = Point::new(3, 6);
    let double = curve.add(&p, &p);
    let scalar_double = curve.scalar_mul(&p, 2);
    assert_eq!(double, scalar_double);
}

#[test]
fn test_scalar_mul_zero() {
    let curve = test_curve();
    let p = Point::new(3, 6);
    let r = curve.scalar_mul(&p, 0);
    assert!(r.is_infinity);
}

#[test]
fn test_scalar_mul_identity() {
    let curve = test_curve();
    let p = Point::new(3, 6);
    let r = curve.scalar_mul(&p, 1);
    assert_eq!(r, p);
}

#[test]
fn test_curve_order() {
    let curve = test_curve();
    let order = curve.curve_order();
    assert!(order > 0);
    assert!(order <= 2 * curve.p + 1); // Hasse bound
}

#[test]
fn test_hasse_bound() {
    let curve = test_curve();
    let n = curve.curve_order();
    let p = curve.p as f64;
    let lower = (p + 1.0 - 2.0 * p.sqrt()).ceil() as i64;
    let upper = (p + 1.0 + 2.0 * p.sqrt()).floor() as i64;
    assert!(n >= lower && n <= upper, "Order {} violates Hasse bound [{}, {}]", n, lower, upper);
}

#[test]
fn test_point_order() {
    let curve = test_curve();
    let p = Point::new(3, 6);
    let order = curve.point_order(&p);
    assert!(order > 0);
    let result = curve.scalar_mul(&p, order);
    assert!(result.is_infinity);
}

#[test]
fn test_compression_decompression() {
    let curve = test_curve();
    let p = Point::new(3, 6);
    let (x, is_odd) = curve.compress(&p).unwrap();
    let decompressed = curve.decompress(x, is_odd).unwrap();
    assert_eq!(decompressed, p);
}

#[test]
fn test_compress_infinity_returns_none() {
    let curve = test_curve();
    assert!(curve.compress(&Point::infinity()).is_none());
}

#[test]
fn test_all_points_count_matches_order() {
    let curve = test_curve();
    let points = curve.all_points();
    assert_eq!(points.len() as i64, curve.curve_order());
}

#[test]
fn test_negate() {
    let curve = test_curve();
    let p = Point::new(3, 6);
    let neg = p.negate(curve.p);
    assert!(curve.is_on_curve(&neg));
    let sum = curve.add(&p, &neg);
    assert!(sum.is_infinity);
}

#[test]
fn test_mod_inverse() {
    assert_eq!(mod_inverse(3, 7), 5);
    assert_eq!((3 * mod_inverse(3, 7)) % 7, 1);
}

#[test]
fn test_mod_pow() {
    assert_eq!(mod_pow(2, 10, 1000), 1024 % 1000);
    assert_eq!(mod_pow(3, 4, 5), 81 % 5);
}
