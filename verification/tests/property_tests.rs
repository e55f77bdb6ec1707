use elliptic_curve_ops::{extended_gcd, mod_inverse, mod_pow, mod_sqrt, EllipticCurve, Point};

fn curve97() -> EllipticCurve {
    EllipticCurve::new(2, 3, 97)
}

fn reduced_points(curve: &EllipticCurve) -> Vec<Point> {
    curve.all_points()
}

#[test]
fn try_new_rejects_singular_and_zero_modulus() {
    assert!(EllipticCurve::try_new(0, 0, 97).is_none());
    assert!(EllipticCurve::try_new(2, 3, 0).is_none());
    // 4·(-3)³ + 27·2² = -108 + 108 = 0
    assert!(EllipticCurve::try_new(-3, 2, 101).is_none());
    let c = EllipticCurve::try_new(2, 3, 97).unwrap();
    assert_eq!((c.a, c.b, c.p), (2, 3, 97));
}

#[test]
fn identity_on_both_sides() {
    let curve = curve97();
    for p in reduced_points(&curve) {
        assert_eq!(curve.add(&p, &Point::infinity()), p);
        assert_eq!(curve.add(&Point::infinity(), &p), p);
    }
}

#[test]
fn every_point_has_an_inverse() {
    let curve = curve97();
    for p in reduced_points(&curve) {
        let neg = p.negate(curve.p);
        assert!(curve.is_on_curve(&neg));
        assert!(curve.add(&p, &neg).is_infinity);
    }
}

#[test]
fn addition_is_closed_and_commutative() {
    let curve = curve97();
    let points = reduced_points(&curve);
    for p in &points {
        for q in &points {
            let r = curve.add(p, q);
            assert!(curve.is_on_curve(&r));
            assert!(r.is_infinity || (0 <= r.x && r.x < 97 && 0 <= r.y && r.y < 97));
            assert_eq!(r, curve.add(q, p));
        }
    }
}

#[test]
fn addition_exact_values() {
    let curve = curve97();
    assert_eq!(curve.add(&Point::new(3, 6), &Point::new(1, 43)), Point::new(23, 73));
    assert_eq!(curve.add(&Point::new(3, 6), &Point::new(3, 6)), Point::new(80, 10));
    assert_eq!(curve.add(&Point::new(3, 6), &Point::new(10, 28)), Point::new(82, 9));
    // same abscissa, different ordinates
    assert!(curve.add(&Point::new(3, 6), &Point::new(3, 7)).is_infinity);
}

#[test]
fn doubling_a_point_of_order_two() {
    // y² = x³ + 7 over GF(13) has no point with y = 0; use y² = x³ - x over GF(11): (0, 0)
    let curve = EllipticCurve::new(-1, 0, 11);
    let p = Point::new(0, 0);
    assert!(curve.is_on_curve(&p));
    assert!(curve.add(&p, &p).is_infinity);
}

#[test]
fn compression_round_trips_for_every_point() {
    let curve = curve97();
    for p in reduced_points(&curve) {
        match curve.compress(&p) {
            None => assert!(p.is_infinity),
            Some((x, odd)) => {
                assert_eq!(x, p.x);
                assert_eq!(odd, p.y % 2 != 0);
                assert_eq!(curve.decompress(x, odd), Some(p));
            }
        }
    }
}

#[test]
fn decompress_without_square_root() {
    let curve = curve97();
    // x = 2: 8 + 4 + 3 = 15 is not a square modulo 97
    assert_eq!(curve.decompress(2, true), None);
    assert_eq!(curve.decompress(2, false), None);
    // x = 3: roots 6 and 91
    assert_eq!(curve.decompress(3, false), Some(Point::new(3, 6)));
    assert_eq!(curve.decompress(3, true), Some(Point::new(3, 91)));
}

#[test]
fn all_points_are_distinct_curve_points() {
    let curve = curve97();
    let points = curve.all_points();
    assert_eq!(points.len(), 100);
    assert!(points[0].is_infinity);
    for (i, p) in points.iter().enumerate() {
        assert!(curve.is_on_curve(p));
        for q in &points[i + 1..] {
            assert_ne!(p, q);
        }
    }
    // every affine solution appears
    for x in 0..97 {
        for y in 0..97 {
            let p = Point::new(x, y);
            if curve.is_on_curve(&p) {
                assert!(points.contains(&p));
            }
        }
    }
}

#[test]
fn curve_order_bounds_and_value() {
    let curve = curve97();
    assert_eq!(curve.curve_order(), 100);
    let n = curve.curve_order();
    assert!(1 <= n && n <= 2 * curve.p + 1);
    // a non-positive modulus has no abscissas to enumerate
    let c = EllipticCurve { a: 2, b: 3, p: -97 };
    assert_eq!(c.curve_order(), 1);
    assert_eq!(c.all_points(), vec![Point::infinity()]);
}

#[test]
fn scalar_multiplication_small_multiples() {
    let curve = curve97();
    let p = Point::new(3, 6);
    assert!(curve.scalar_mul(&p, 0).is_infinity);
    assert_eq!(curve.scalar_mul(&p, 1), p);
    assert_eq!(curve.scalar_mul(&p, 2), curve.add(&p, &p));
    // 5P = P + P + P + P + P
    let mut check = p;
    for _ in 0..4 {
        check = curve.add(&check, &p);
    }
    assert_eq!(curve.scalar_mul(&p, 5), check);
    assert!(check.is_infinity);
    assert!(curve.scalar_mul(&Point::infinity(), 3).is_infinity);
}

#[test]
fn scalar_multiplication_beyond_the_modulus() {
    // P = (3, 6) has order 5, so 97P = 2P and 98P = 3P
    let curve = curve97();
    let p = Point::new(3, 6);
    assert_eq!(curve.scalar_mul(&p, 97), Point::new(80, 10));
    assert_eq!(curve.scalar_mul(&p, 98), Point::new(80, 87));
    assert_eq!(curve.scalar_mul(&p, 4), Point::new(3, 91));
    // 2^63 - 1 = 2 (mod 5)
    assert_eq!(curve.scalar_mul(&p, i64::MAX), Point::new(80, 10));
}

#[test]
fn scalar_multiplication_negative_scalars() {
    let curve = curve97();
    let p = Point::new(3, 6);
    // -k·P = k·(-P)
    assert_eq!(curve.scalar_mul(&p, -1), Point::new(3, 91));
    assert_eq!(curve.scalar_mul(&p, -7), Point::new(80, 87));
    assert!(curve.scalar_mul(&p, -5).is_infinity);
    // 2^63 = 3 (mod 5): -(2^63)·P = -3P = 2P
    assert_eq!(curve.scalar_mul(&p, i64::MIN), Point::new(80, 10));
}

#[test]
fn scalar_multiplication_is_repeated_addition() {
    let curve = curve97();
    for q in curve.all_points() {
        let mut sum = Point::infinity();
        for k in 0..12 {
            assert_eq!(curve.scalar_mul(&q, k), sum);
            sum = curve.add(&sum, &q);
        }
    }
}

#[test]
fn point_order_exact() {
    let curve = curve97();
    assert_eq!(curve.point_order(&Point::new(3, 6)), 5);
    assert_eq!(curve.point_order(&Point::infinity()), 1);
}

#[test]
fn point_order_is_the_smallest_order() {
    // y² = x³ + 2 over GF(5) has 6 points; (2, 0) has order 2, (3, 2) order 3
    let curve = EllipticCurve::new(0, 2, 5);
    assert_eq!(curve.curve_order(), 6);
    assert_eq!(curve.point_order(&Point::new(2, 0)), 2);
    assert_eq!(curve.point_order(&Point::new(3, 2)), 3);
    assert_eq!(curve.point_order(&Point::new(4, 1)), 6);
    for q in curve.all_points() {
        let n = curve.point_order(&q);
        assert!(curve.scalar_mul(&q, n as i64).is_infinity);
        for m in 1..n {
            assert!(!curve.scalar_mul(&q, m).is_infinity);
        }
    }
}

#[test]
fn operations_on_infinity_ignore_the_modulus() {
    let c = EllipticCurve { a: 1, b: 1, p: 0 };
    let q = Point::new(4, 5);
    assert_eq!(c.add(&Point::infinity(), &q), q);
    assert_eq!(c.add(&q, &Point::infinity()), q);
    assert!(c.scalar_mul(&q, 0).is_infinity);
    assert!(c.scalar_mul(&Point::infinity(), 9).is_infinity);
    assert!(c.is_on_curve(&Point::infinity()));
    assert_eq!(Point::infinity().negate(0), Point::infinity());
}

#[test]
fn negate_values() {
    assert_eq!(Point::new(3, 6).negate(97), Point::new(3, 91));
    assert_eq!(Point::new(3, 0).negate(97), Point::new(3, 0));
    assert_eq!(Point::new(3, -5).negate(97), Point::new(3, 5));
    assert_eq!(Point::infinity().negate(97), Point::infinity());
}

#[test]
fn is_on_curve_with_unreduced_and_negative_modulus() {
    let curve = curve97();
    assert!(curve.is_on_curve(&Point::new(3 + 97, 6 - 97)));
    let neg = EllipticCurve { a: 2, b: 3, p: -97 };
    assert!(neg.is_on_curve(&Point::new(3, 6)));
    assert!(!neg.is_on_curve(&Point::new(1, 1)));
}

#[test]
fn mod_pow_values() {
    assert_eq!(mod_pow(2, 10, 1000), 24);
    assert_eq!(mod_pow(3, 4, 5), 1);
    assert_eq!(mod_pow(7, 0, 13), 1);
    assert_eq!(mod_pow(7, -3, 13), 1);
    assert_eq!(mod_pow(7, 5, 1), 0);
    assert_eq!(mod_pow(-2, 3, 7), 6);
    assert_eq!(mod_pow(2, 3, -7), 1);
    assert_eq!(mod_pow(i64::MAX, 2, 1_000_000_007), ((i64::MAX as i128 % 1_000_000_007).pow(2) % 1_000_000_007) as i64);
}

#[test]
fn mod_inverse_values() {
    assert_eq!(mod_inverse(10, 17), 12);
    assert_eq!(mod_inverse(-3, 7), 2);
    assert_eq!((10 * mod_inverse(10, 17)) % 17, 1);
    for a in 1..97 {
        assert_eq!((a * mod_inverse(a, 97)) % 97, 1);
    }
    // no inverse when the gcd is not 1: the Bezout coefficient is returned
    assert_eq!(mod_inverse(0, 7), 0);
}

#[test]
fn extended_gcd_values() {
    assert_eq!(extended_gcd(240, 46), (2, -9, 47));
    assert_eq!(extended_gcd(46, 240), (2, 47, -9));
    assert_eq!(extended_gcd(-240, 46), (2, 9, 47));
    assert_eq!(extended_gcd(0, 5), (5, 0, 1));
    assert_eq!(extended_gcd(7, 0), (7, 1, 0));
    for a in 0..40i64 {
        for b in 0..40i64 {
            let (g, x, y) = extended_gcd(a, b);
            assert_eq!(a * x + b * y, g);
        }
    }
}

#[test]
fn mod_sqrt_values() {
    // p = 2 returns n % 2
    assert_eq!(mod_sqrt(5, 2), Some(1));
    assert_eq!(mod_sqrt(-3, 2), Some(-1));
    // p ≡ 3 (mod 4): the root is n^((p+1)/4) mod p
    assert_eq!(mod_sqrt(2, 7), Some(4));
    assert_eq!(mod_sqrt(4, 103), Some(2));
    assert_eq!(mod_sqrt(9, 103), Some(100));
    assert_eq!(mod_sqrt(-99, 103), Some(2));
    // p ≡ 1 (mod 4): the root that the Tonelli-Shanks iteration reaches
    assert_eq!(mod_sqrt(10, 13), Some(7));
    assert_eq!(mod_sqrt(2, 97), Some(83));
    assert_eq!(mod_sqrt(-1, 97), Some(22));
    assert_eq!(mod_sqrt(50, 97), Some(27));
    assert_eq!(mod_sqrt(2, 17), Some(6));
    assert_eq!(mod_sqrt(4, 113), Some(2));
    assert_eq!(mod_sqrt(11, 113), Some(89));
    assert_eq!(mod_sqrt(5, 13), None);
    assert_eq!(mod_sqrt(0, 13), Some(0));
    assert_eq!(mod_sqrt(26, 13), Some(0));
    // Euler's criterion, exhaustively for p = 97 and p = 17
    for &p in &[17i64, 97, 113] {
        for n in -5..2 * p {
            let squares: Vec<i64> = (0..p).filter(|y| (y * y - n).rem_euclid(p) == 0).collect();
            match mod_sqrt(n, p) {
                Some(y) => {
                    assert!(0 <= y && y < p);
                    assert!(squares.contains(&y));
                }
                None => assert!(squares.is_empty()),
            }
        }
    }
}

#[test]
fn point_text() {
    assert_eq!(Point::new(3, 6).to_string(), "(3, 6)");
    assert_eq!(Point::new(-3, 60).to_string(), "(-3, 60)");
    assert_eq!(Point::new(0, 1234567890).to_string(), "(0, 1234567890)");
    assert_eq!(Point::new(i64::MIN, i64::MAX).to_string(), "(-9223372036854775808, 9223372036854775807)");
    assert_eq!(Point::new(-10, 10).to_string(), "(-10, 10)");
    assert_eq!(Point::infinity().to_string(), "O (∞)");
}

#[test]
fn basic_point_operations_scenario() {
    // y² = x³ + 2x + 3 over GF(97)
    let curve = EllipticCurve::new(2, 3, 97);
    let p = Point::new(3, 6);
    // 28² ≡ 8 but 10³ + 2·10 + 3 ≡ 53 (mod 97): (10, 28) is not a curve point
    assert!(!curve.is_on_curve(&Point::new(10, 28)));
    let q = Point::new(1, 43);
    assert!(curve.is_on_curve(&p));
    assert!(curve.is_on_curve(&q));
    let sum = curve.add(&p, &q);
    assert_eq!(sum.to_string(), "(23, 73)");
    let doubled = curve.add(&p, &p);
    assert_eq!(doubled.to_string(), "(80, 10)");
    assert!(curve.is_on_curve(&sum) && curve.is_on_curve(&doubled));
}

#[test]
fn curve_and_point_order_scenario() {
    let curve = EllipticCurve::new(2, 3, 97);
    let p = Point::new(3, 6);
    let order = curve.curve_order();
    let pt_order = curve.point_order(&p);
    assert_eq!(order % pt_order, 0);
    assert!(curve.scalar_mul(&p, pt_order).is_infinity);
}

#[test]
fn adding_then_subtracting_a_point() {
    // (Q + P) + (-P) = Q for every pair of points of two small curves
    for curve in [EllipticCurve::new(2, 3, 97), EllipticCurve::new(0, 2, 5), EllipticCurve::new(1, 1, 13)] {
        let points = curve.all_points();
        for q in &points {
            for p in &points {
                let sum = curve.add(q, p);
                assert_eq!(curve.add(&sum, &p.negate(curve.p)), *q);
            }
        }
    }
}

#[test]
fn every_point_has_an_order_dividing_the_curve_order() {
    for curve in [EllipticCurve::new(2, 3, 97), EllipticCurve::new(0, 2, 5), EllipticCurve::new(1, 1, 13)] {
        let n = curve.curve_order();
        for q in curve.all_points() {
            let r = curve.point_order(&q);
            assert!(r >= 1 && r <= n);
            assert_eq!(n % r, 0);
            assert!(curve.scalar_mul(&q, r).is_infinity);
            for m in 1..r {
                assert!(!curve.scalar_mul(&q, m).is_infinity);
            }
        }
    }
}

#[test]
fn mod_inverse_modulo_i64_min() {
    let r = mod_inverse(3, i64::MIN);
    assert_eq!(r, 3074457345618258603);
    assert_eq!((r as u128 * 3) % (1u128 << 63), 1);
}
