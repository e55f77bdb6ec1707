//! Properties of the curve operations that span several functions.
use crate::curve::{
    add_spec, affine_point, compress_spec, count_below, curve_order_spec, curve_rhs, decompress_spec,
    infinity_point, is_curve_point, is_order, lemma_repeated_add_periodic, negate_spec, on_curve,
    points_at, repeated_add, scalar_mul_spec, slope, EllipticCurve, Point,
};
use crate::listing::{
    lemma_points_listing_complete, lemma_points_listing_distinct, lemma_points_listing_len,
    lemma_points_listing_sound, points_listing, roots_valid,
};
use crate::modular::{
    abs, egcd, is_prime, lemma_add_mod, lemma_egcd_prime, lemma_euclid, lemma_mod_abs, lemma_mod_inverse_spec,
    lemma_mod_mod, lemma_mod_small, lemma_mul_mod, mod_inverse_spec, mod_pow_spec,
};
use crate::residues::{
    is_parity_root, is_square_mod, lemma_distinct_residues, lemma_euler_converse,
    lemma_parity_root_unique, parity_root,
};
use vstd::prelude::*;

verus! {

/// The point at infinity is the identity of addition, on either side:
/// P + O = P and O + P = P (for a point built by `Point::new` or
/// `Point::infinity`).
pub proof fn lemma_add_identity(c: EllipticCurve, pt: Point)
    requires
        !pt.is_infinity || pt == infinity_point(),
    ensures
        add_spec(c, pt, infinity_point()) == pt,
        add_spec(c, infinity_point(), pt) == pt,
{
}

/// The negation -P = (x, -y mod p) is the inverse of P: P + (-P) = O, for
/// every point, on a curve whose modulus is odd.
pub proof fn lemma_add_inverse(c: EllipticCurve, pt: Point)
    requires
        c.p % 2 == 1,
    ensures
        add_spec(c, pt, negate_spec(pt, c.p as int)).is_infinity,
{
    if !pt.is_infinity {
        let p = c.p as int;
        let y = pt.y as int;
        let ny = (-y) % p;
        lemma_mod_abs(-y, p);
        if ny == y {
            // y lies in [0, |p|) and 2y ≡ 0, which for an odd modulus means y = 0
            assert(y == 0) by {
                lemma_add_mod(-y, y, p);
                lemma_mod_abs(0, p);
                lemma_mod_abs(y, p);
                crate::modular::lemma_mod_small(y, p);
                assert((ny + y) % p == 0int % p);
                assert((2 * y) % p == 0);
                lemma_double_zero(y, p);
            }
        }
    }
}

/// With an odd modulus, `2y ≡ 0` and `0 <= y < |p|` force `y = 0`.
proof fn lemma_double_zero(y: int, p: int)
    requires
        p % 2 == 1,
        0 <= y < abs(p),
        (2 * y) % p == 0,
    ensures
        y == 0,
{
    lemma_mod_abs(2 * y, p);
    let n = abs(p);
    vstd::arithmetic::div_mod::lemma_fundamental_div_mod(2 * y, n);
    let k = (2 * y) / n;
    assert(2 * y == n * k);
    assert(0 <= k < 2) by (nonlinear_arith)
        requires
            2 * y == n * k,
            0 <= y < n,
            n > 0,
    ;
    if k == 0 {
        assert(y == 0) by (nonlinear_arith)
            requires
                2 * y == n * k,
                k == 0,
        ;
    }
    if k == 1 {
        assert(2 * y == n) by (nonlinear_arith)
            requires
                2 * y == n * k,
                k == 1,
        ;
        // 2y = |p|, but |p| is odd
        assert(n % 2 == 1) by {
            lemma_mod_abs(p, 2);
            if p < 0 {
                assert(n == -p);
                crate::modular::lemma_mod_add_multiple(-p, p, 2);
                assert((-p + 2 * p) % 2 == (-p) % 2);
                assert(-p + 2 * p == p);
                vstd::arithmetic::div_mod::lemma_fundamental_div_mod(-p, 2);
                vstd::arithmetic::div_mod::lemma_fundamental_div_mod(p, 2);
                vstd::arithmetic::div_mod::lemma_mod_bound(-p, 2);
            }
        }
        vstd::arithmetic::div_mod::lemma_fundamental_div_mod(n, 2);
        assert(false);
    }
}

/// Negation keeps a point on the curve: (-y)² = y².
pub proof fn lemma_negate_on_curve(c: EllipticCurve, pt: Point)
    requires
        c.p != 0,
        on_curve(c, pt),
    ensures
        on_curve(c, negate_spec(pt, c.p as int)),
{
    if !pt.is_infinity {
        let p = c.p as int;
        let y = pt.y as int;
        lemma_mod_abs(-y, p);
        lemma_mul_mod(-y, -y, p);
        assert((-y) * (-y) == y * y) by (nonlinear_arith);
        let ny = (-y) % p;
        assert(negate_spec(pt, p).y == ny);
    }
}

/// Multiplying by zero gives the point at infinity.
pub proof fn lemma_scalar_mul_zero(c: EllipticCurve, pt: Point)
    ensures
        scalar_mul_spec(c, pt, 0) == infinity_point(),
{
}

/// Multiplying by one gives the point itself (for a point built by
/// `Point::new` or `Point::infinity`).
pub proof fn lemma_scalar_mul_one(c: EllipticCurve, pt: Point)
    requires
        !pt.is_infinity || pt == infinity_point(),
    ensures
        scalar_mul_spec(c, pt, 1) == pt,
{
    reveal_with_fuel(repeated_add, 2);
}

/// Multiplying by two is adding the point to itself (for a point built by
/// `Point::new` or `Point::infinity`).
pub proof fn lemma_scalar_mul_two(c: EllipticCurve, pt: Point)
    requires
        !pt.is_infinity || pt == infinity_point(),
    ensures
        scalar_mul_spec(c, pt, 2) == add_spec(c, pt, pt),
{
    reveal_with_fuel(repeated_add, 3);
}

/// Scalar multiplication is repeated addition: (k+1)·P = kP + P for every
/// k >= 0 (for a point built by `Point::new` or `Point::infinity`).
pub proof fn lemma_scalar_mul_successor(c: EllipticCurve, pt: Point, k: int)
    requires
        k >= 0,
        !pt.is_infinity || pt == infinity_point(),
    ensures
        scalar_mul_spec(c, pt, k + 1) == add_spec(c, scalar_mul_spec(c, pt, k), pt),
{
    reveal_with_fuel(repeated_add, 2);
}

/// A negative scalar multiplies the negated point: (-k)·P = k·(-P).
pub proof fn lemma_scalar_mul_negative(c: EllipticCurve, pt: Point, k: int)
    requires
        k > 0,
    ensures
        scalar_mul_spec(c, pt, -k) == scalar_mul_spec(c, negate_spec(pt, c.p as int), k),
{
}

/// Once nP is the point at infinity (n > 0), multiples repeat with period n:
/// kP = (k mod n)·P for every k >= 0.
pub proof fn lemma_scalar_mul_periodic(c: EllipticCurve, pt: Point, n: int, k: int)
    requires
        n > 0,
        k >= 0,
        scalar_mul_spec(c, pt, n).is_infinity,
    ensures
        scalar_mul_spec(c, pt, k) == scalar_mul_spec(c, pt, k % n),
{
    if !pt.is_infinity {
        lemma_repeated_add_periodic(c, pt, n as nat, k as nat);
        if k % n == 0 {
            assert(repeated_add(c, pt, 0) == infinity_point());
        }
    }
}

/// The order that `point_order` finds annihilates the point: multiplying by
/// it gives the point at infinity, and by no smaller positive number.
pub proof fn lemma_scalar_mul_order(c: EllipticCurve, pt: Point, n: int)
    requires
        !pt.is_infinity,
        is_order(c, pt, n),
    ensures
        scalar_mul_spec(c, pt, n).is_infinity,
        forall|m: int| 0 < m < n ==> !(#[trigger] scalar_mul_spec(c, pt, m)).is_infinity,
{
    assert forall|m: int| 0 < m < n implies !(#[trigger] scalar_mul_spec(c, pt, m)).is_infinity by {
        assert(!repeated_add(c, pt, m as nat).is_infinity);
    }
}

/// `curve_order` counts the rational points: for an odd prime modulus it is
/// the number of curve points, the point at infinity and the affine solutions
/// with coordinates below p.
pub proof fn lemma_curve_order_counts_points(c: EllipticCurve)
    requires
        is_prime(c.p as int),
        c.p != 2,
    ensures
        Set::new(|pt: Point| is_curve_point(c, pt)).finite(),
        curve_order_spec(c) == Set::new(|pt: Point| is_curve_point(c, pt)).len(),
{
    let p = c.p as int;
    let ys = Seq::new(
        p as nat,
        |x: int| choose|y: int| 0 <= y < p && #[trigger] ((y * y) % p) == curve_rhs(c, x),
    );
    crate::modular::lemma_odd_prime(p);
    assert forall|x: int|
        0 <= x < ys.len() && curve_rhs(c, x) != 0 && mod_pow_spec(
            curve_rhs(c, x),
            (c.p - 1) / 2,
            p,
        ) == 1 implies 0 <= #[trigger] ys[x] < c.p && (ys[x] * ys[x]) % p == curve_rhs(c, x) by {
        let rhs = curve_rhs(c, x);
        vstd::arithmetic::div_mod::lemma_mod_bound(x * x * x + (c.a as int) * x + (c.b as int), p);
        lemma_mod_small(rhs, p);
        lemma_euler_converse(rhs, p);
        let y = choose|y: int| 0 <= y < p && #[trigger] ((y * y) % p) == rhs % p;
        assert(0 <= y < p && (y * y) % p == curve_rhs(c, x));
    }
    assert(roots_valid(c, ys));
    let l = points_listing(c, ys, p);
    let pts = Set::new(|pt: Point| is_curve_point(c, pt));
    lemma_points_listing_len(c, ys, p);
    lemma_points_listing_distinct(c, ys, p);
    assert forall|pt: Point| l.contains(pt) implies pts.contains(pt) by {
        let i = choose|i: int| 0 <= i < l.len() && l[i] == pt;
        lemma_points_listing_sound(c, ys, p, i);
    }
    assert forall|pt: Point| pts.contains(pt) implies l.contains(pt) by {
        lemma_points_listing_complete(c, ys, pt);
    }
    assert(l.to_set() =~= pts);
    assert(l.no_duplicates());
    l.unique_seq_to_set();
    vstd::seq_lib::seq_to_set_is_finite(l);
}

/// The count of `curve_order` is at least one (the point at infinity) and at
/// most `2p + 1`: each abscissa contributes at most two points.
pub proof fn lemma_curve_order_bounds(c: EllipticCurve)
    ensures
        1 <= curve_order_spec(c),
        c.p > 0 ==> curve_order_spec(c) <= 2 * c.p + 1,
{
    lemma_count_below_bounds(c, c.p as int);
}

proof fn lemma_count_below_bounds(c: EllipticCurve, n: int)
    ensures
        1 <= count_below(c, n),
        n > 0 ==> count_below(c, n) <= 2 * n + 1,
    decreases n,
{
    if n > 0 {
        lemma_count_below_bounds(c, n - 1);
        assert(0 <= points_at(c, n - 1) <= 2);
    }
}

// ---------------------------------------------------------------------------
// Closure of the chord-tangent law
// ---------------------------------------------------------------------------

/// `x³ + ax + b`.
pub open spec fn cubic(a: int, b: int, x: int) -> int {
    x * x * x + a * x + b
}

/// The line of slope `l` through `(x1, y1)`, evaluated at `x`.
pub open spec fn line_at(l: int, x1: int, y1: int, x: int) -> int {
    l * (x - x1) + y1
}

/// The factor `W(z)` in `cubic(z) - line(z)² = (cubic(x1) - y1²) + (z - x1)·W(z)`,
/// with `ll` standing for the squared slope.
pub open spec fn chord_factor(a: int, l: int, ll: int, x1: int, y1: int, z: int) -> int {
    z * z + z * x1 + x1 * x1 + a - ll * (z - x1) - 2 * l * y1
}

/// Subtracting the squared line through `(x1, y1)` from the cubic leaves the
/// defect of `(x1, y1)` plus a multiple of `z - x1`.
proof fn lemma_cubic_minus_line(a: int, b: int, l: int, x1: int, y1: int, z: int)
    ensures
        cubic(a, b, z) - line_at(l, x1, y1, z) * line_at(l, x1, y1, z) == (cubic(a, b, x1) - y1
            * y1) + (z - x1) * chord_factor(a, l, l * l, x1, y1, z),
{
    let t = z - x1;
    let ll = l * l;
    let w = z * z + z * x1 + x1 * x1 + a - ll * t - 2 * l * y1;
    assert(w == chord_factor(a, l, ll, x1, y1, z));
    assert(z * z * z - x1 * x1 * x1 == t * (z * z + z * x1 + x1 * x1)) by (nonlinear_arith)
        requires
            t == z - x1,
    ;
    assert(a * z - a * x1 == a * t) by (nonlinear_arith)
        requires
            t == z - x1,
    ;
    assert((l * t + y1) * (l * t + y1) - y1 * y1 == t * (ll * t + 2 * l * y1)) by (nonlinear_arith)
        requires
            ll == l * l,
    ;
    assert(t * (z * z + z * x1 + x1 * x1) + a * t - t * (ll * t + 2 * l * y1) == t * w)
        by (nonlinear_arith)
        requires
            w == z * z + z * x1 + x1 * x1 + a - ll * t - 2 * l * y1,
    ;
    assert(line_at(l, x1, y1, z) == l * t + y1);
}

/// For the chord, the factor is the same at the third point and at `x2`.
proof fn lemma_chord_factor_shared(a: int, l: int, x1: int, y1: int, x2: int, x3: int)
    requires
        x3 == l * l - x1 - x2,
    ensures
        chord_factor(a, l, l * l, x1, y1, x3) == chord_factor(a, l, l * l, x1, y1, x2),
{
    let ll = l * l;
    assert(x3 * x3 + x3 * x1 - ll * (x3 - x1) - (x2 * x2 + x2 * x1 - ll * (x2 - x1)) == (x3 - x2) * (
    x3 + x2 + x1 - ll)) by (nonlinear_arith);
    assert((x3 - x2) * (x3 + x2 + x1 - ll) == 0) by (nonlinear_arith)
        requires
            x3 + x2 + x1 - ll == 0,
    ;
}

/// For the tangent, the factor at the third point is `3x1² + a - 2·l·y1`.
proof fn lemma_tangent_factor(a: int, l: int, x1: int, y1: int, x3: int)
    requires
        x3 == l * l - 2 * x1,
    ensures
        chord_factor(a, l, l * l, x1, y1, x3) == 3 * (x1 * x1) + a - 2 * l * y1,
{
    let ll = l * l;
    assert(x3 * x3 + x3 * x1 + x1 * x1 - ll * (x3 - x1) == 3 * (x1 * x1)) by (nonlinear_arith)
        requires
            ll == x3 + 2 * x1,
    ;
}

/// Congruent values have congruent squares.
proof fn lemma_square_cong(u: int, v: int, p: int)
    requires
        p > 0,
        u % p == v % p,
    ensures
        (u * u) % p == (v * v) % p,
{
    lemma_mul_mod(u, u, p);
    lemma_mul_mod(v, v, p);
}

/// Congruent abscissas give congruent right-hand sides.
proof fn lemma_cubic_cong(a: int, b: int, u: int, v: int, p: int)
    requires
        p > 0,
        u % p == v % p,
    ensures
        cubic(a, b, u) % p == cubic(a, b, v) % p,
{
    lemma_square_cong(u, v, p);
    lemma_mul_mod(u * u, u, p);
    lemma_mul_mod(v * v, v, p);
    lemma_mul_mod(a, u, p);
    lemma_mul_mod(a, v, p);
    lemma_add_mod(u * u * u, a * u, p);
    lemma_add_mod(v * v * v, a * v, p);
    lemma_add_mod(u * u * u + a * u, b, p);
    lemma_add_mod(v * v * v + a * v, b, p);
}

/// `u ≡ v` when `u - v ≡ 0`.
proof fn lemma_cong_of_difference(u: int, v: int, p: int)
    requires
        p > 0,
        (u - v) % p == 0,
    ensures
        u % p == v % p,
{
    lemma_add_mod(u - v, v, p);
    lemma_mod_mod(v, p);
}

/// `u - v ≡ 0` when `u ≡ v`.
proof fn lemma_difference_of_cong(u: int, v: int, p: int)
    requires
        p > 0,
        u % p == v % p,
    ensures
        (u - v) % p == 0,
{
    lemma_add_mod(u, -v, p);
    lemma_add_mod(v, -v, p);
    crate::modular::lemma_mod_small(0, p);
}

/// The third point of the line through `(x1, y1)` of slope `l` that meets the
/// cubic again at `x2` lies on the curve, once its coordinates are reduced:
/// given that `(x1, y1)` is on the curve and the factor `W` vanishes.
proof fn lemma_third_point(a: int, b: int, p: int, l: int, x1: int, y1: int, x2: int)
    requires
        p > 0,
        (y1 * y1) % p == cubic(a, b, x1) % p,
        chord_factor(a, l, l * l, x1, y1, l * l - x1 - x2) % p == 0,
    ensures
        ({
            let x3 = (l * l - x1 - x2) % p;
            let y3 = (l * (x1 - x3) - y1) % p;
            (y3 * y3) % p == cubic(a, b, x3) % p
        }),
{
    let big_x = l * l - x1 - x2;
    let w = chord_factor(a, l, l * l, x1, y1, big_x);
    let d1 = cubic(a, b, x1) - y1 * y1;
    let ln = line_at(l, x1, y1, big_x);
    lemma_cubic_minus_line(a, b, l, x1, y1, big_x);
    // the defect of (x1, y1) and the multiple of W both vanish
    lemma_difference_of_cong(cubic(a, b, x1), y1 * y1, p);
    lemma_mul_mod(big_x - x1, w, p);
    crate::modular::lemma_mod_small(0, p);
    assert(((big_x - x1) * w) % p == 0) by {
        assert((big_x - x1) * (w % p) == 0);
    }
    lemma_add_mod(d1, (big_x - x1) * w, p);
    assert((cubic(a, b, big_x) - ln * ln) % p == 0);
    lemma_cong_of_difference(cubic(a, b, big_x), ln * ln, p);
    // the reduced ordinate is congruent to minus the line at the third point
    let x3 = big_x % p;
    let yy = l * (x1 - x3) - y1;
    let q = big_x / p;
    vstd::arithmetic::div_mod::lemma_fundamental_div_mod(big_x, p);
    assert(yy == -ln + p * (l * q)) by (nonlinear_arith)
        requires
            big_x == p * q + x3,
            yy == l * (x1 - x3) - y1,
            ln == l * (big_x - x1) + y1,
    ;
    crate::modular::lemma_mod_add_multiple(-ln, l * q, p);
    lemma_mod_mod(yy, p);
    lemma_square_cong(yy % p, -ln, p);
    assert((-ln) * (-ln) == ln * ln) by (nonlinear_arith);
    lemma_mod_mod(big_x, p);
    lemma_cubic_cong(a, b, x3, big_x, p);
}

/// Dividing by a non-zero residue and multiplying back gives the numerator:
/// `slope(num, den)·den ≡ num (mod p)`.
pub proof fn lemma_slope_times_denominator(num: int, den: int, p: int)
    requires
        is_prime(p),
        den % p != 0,
    ensures
        (slope(num, den, p) * den) % p == num % p,
{
    let inv = mod_inverse_spec(den, p);
    lemma_egcd_prime(den, p);
    lemma_mod_inverse_spec(den, p);
    lemma_mod_small(1, p);
    assert((den * inv) % p == 1);
    let l = slope(num, den, p);
    assert(l == (num * inv) % p);
    lemma_mul_mod(num * inv, den, p);
    assert((num * inv) * den == num * (den * inv)) by (nonlinear_arith);
    lemma_mul_mod(num, den * inv, p);
    assert(num * ((den * inv) % p) == num * 1);
}

/// The chord-tangent sum of two curve points is a curve point, for an odd
/// prime modulus: the group law is closed.
pub proof fn lemma_add_closed(c: EllipticCurve, p1: Point, p2: Point)
    requires
        is_prime(c.p as int),
        c.p != 2,
        is_curve_point(c, p1),
        is_curve_point(c, p2),
    ensures
        is_curve_point(c, add_spec(c, p1, p2)),
{
    let p = c.p as int;
    let (a, b) = (c.a as int, c.b as int);
    let (x1, y1, x2, y2) = (p1.x as int, p1.y as int, p2.x as int, p2.y as int);
    let r = add_spec(c, p1, p2);
    if !p1.is_infinity && !p2.is_infinity && !(x1 == x2 && y1 != y2) && !(p1 == p2 && y1 == 0) {
        assert(on_curve(c, p1));
        assert((y1 * y1) % p == cubic(a, b, x1) % p);
        if p1 == p2 {
            // tangent: λ·2y₁ ≡ 3x₁² + a
            let num = (3 * (x1 * x1) + a) % p;
            let den = (2 * y1) % p;
            let l = slope(num, den, p);
            lemma_mod_mod(2 * y1, p);
            if (2 * y1) % p == 0 {
                lemma_euclid(2, y1, p);
                lemma_mod_small(2, p);
                lemma_mod_small(y1, p);
                assert(false);
            }
            lemma_slope_times_denominator(num, den, p);
            lemma_mul_mod(l, 2 * y1, p);
            lemma_mod_mod(3 * (x1 * x1) + a, p);
            assert((l * (2 * y1)) % p == (3 * (x1 * x1) + a) % p);
            let big_x = l * l - x1 - x2;
            lemma_tangent_factor(a, l, x1, y1, big_x);
            assert(2 * l * y1 == l * (2 * y1)) by (nonlinear_arith);
            lemma_difference_of_cong(3 * (x1 * x1) + a, l * (2 * y1), p);
            lemma_third_point(a, b, p, l, x1, y1, x2);
        } else {
            // chord: λ·(x₂ - x₁) ≡ y₂ - y₁
            assert(x1 != x2);
            let num = (y2 - y1) % p;
            let den = (x2 - x1) % p;
            let l = slope(num, den, p);
            lemma_distinct_residues(x2, x1, p);
            lemma_mod_mod(x2 - x1, p);
            lemma_slope_times_denominator(num, den, p);
            lemma_mul_mod(l, x2 - x1, p);
            lemma_mod_mod(y2 - y1, p);
            assert((l * (x2 - x1)) % p == (y2 - y1) % p);
            // the line meets the curve at (x₂, y₂)
            let ln = line_at(l, x1, y1, x2);
            lemma_add_mod(l * (x2 - x1), y1, p);
            lemma_add_mod(y2 - y1, y1, p);
            assert(ln % p == y2 % p);
            lemma_square_cong(ln, y2, p);
            assert(on_curve(c, p2));
            assert((ln * ln) % p == cubic(a, b, x2) % p);
            lemma_difference_of_cong(cubic(a, b, x2), ln * ln, p);
            lemma_cubic_minus_line(a, b, l, x1, y1, x2);
            let w = chord_factor(a, l, l * l, x1, y1, x2);
            let d1 = cubic(a, b, x1) - y1 * y1;
            lemma_difference_of_cong(cubic(a, b, x1), y1 * y1, p);
            lemma_add_mod(d1, (x2 - x1) * w, p);
            lemma_mod_mod((x2 - x1) * w, p);
            lemma_mod_small(0, p);
            assert(((x2 - x1) * w) % p == 0);
            lemma_euclid(x2 - x1, w, p);
            lemma_chord_factor_shared(a, l, x1, y1, x2, l * l - x1 - x2);
            lemma_third_point(a, b, p, l, x1, y1, x2);
        }
        let x3 = (r.x as int);
        let y3 = (r.y as int);
        vstd::arithmetic::div_mod::lemma_mod_bound(x3, p);
    }
}

/// Compression loses nothing: decompressing the compressed form of a curve
/// point gives the point back.
pub proof fn lemma_compress_roundtrip(c: EllipticCurve, pt: Point)
    requires
        is_prime(c.p as int),
        is_curve_point(c, pt),
        !pt.is_infinity,
    ensures
        compress_spec(pt) == Some((pt.x, (pt.y as int) % 2 == 1)),
        decompress_spec(c, pt.x as int, (pt.y as int) % 2 == 1) == Some(pt),
{
    let p = c.p as int;
    let (x, y) = (pt.x as int, pt.y as int);
    let odd = y % 2 == 1;
    let rhs = curve_rhs(c, x);
    vstd::arithmetic::div_mod::lemma_mod_bound(x * x * x + (c.a as int) * x + (c.b as int), p);
    lemma_mod_small(rhs, p);
    assert((y * y) % p == rhs);
    if c.p == 2 {
        assert(y == 0 || y == 1);
        assert(y * y == y) by (nonlinear_arith)
            requires
                y == 0 || y == 1,
        ;
        lemma_mod_small(y, 2);
        assert(rhs == y);
    } else {
        assert(is_parity_root(y, rhs, p, odd));
        assert(is_square_mod(rhs, p));
        let w = parity_root(rhs, p, odd);
        assert(is_parity_root(w, rhs, p, odd));
        crate::modular::lemma_odd_prime(p);
        lemma_parity_root_unique(w, y, rhs, p, odd);
    }
}

/// Negation maps curve points to curve points.
pub proof fn lemma_negate_closed(c: EllipticCurve, pt: Point)
    requires
        c.p > 0,
        is_curve_point(c, pt),
    ensures
        is_curve_point(c, negate_spec(pt, c.p as int)),
{
    if !pt.is_infinity {
        lemma_negate_on_curve(c, pt);
        vstd::arithmetic::div_mod::lemma_mod_bound(-(pt.y as int), c.p as int);
    }
}

/// Two residues that solve `l·d ≡ v` for a `d` not divisible by the prime `p`
/// are equal.
proof fn lemma_quotient_unique(l1: int, l2: int, d: int, v: int, p: int)
    requires
        is_prime(p),
        0 <= l1 < p,
        0 <= l2 < p,
        d % p != 0,
        (l1 * d) % p == v % p,
        (l2 * d) % p == v % p,
    ensures
        l1 == l2,
{
    lemma_difference_of_cong(l1 * d, l2 * d, p);
    assert(l1 * d - l2 * d == (l1 - l2) * d) by (nonlinear_arith);
    lemma_euclid(l1 - l2, d, p);
    if l1 != l2 {
        lemma_distinct_residues(l1, l2, p);
    }
}

/// The chord slope from `P2` to `P1` also solves `l·(x₂ - x₁) ≡ y₂ - y₁`.
proof fn lemma_reversed_slope(l: int, x1: int, y1: int, x2: int, y2: int, p: int)
    requires
        p > 0,
        (l * (x1 - x2)) % p == (y1 - y2) % p,
    ensures
        (l * (x2 - x1)) % p == (y2 - y1) % p,
{
    lemma_difference_of_cong(l * (x1 - x2), y1 - y2, p);
    assert(l * (x2 - x1) - (y2 - y1) == -(l * (x1 - x2) - (y1 - y2))) by (nonlinear_arith);
    lemma_neg_zero_mod(l * (x1 - x2) - (y1 - y2), p);
    lemma_cong_of_difference(l * (x2 - x1), y2 - y1, p);
}

/// Addition of curve points is commutative, for a prime modulus:
/// P + Q = Q + P.
pub proof fn lemma_add_commutative(c: EllipticCurve, p1: Point, p2: Point)
    requires
        is_prime(c.p as int),
        is_curve_point(c, p1),
        is_curve_point(c, p2),
    ensures
        add_spec(c, p1, p2) == add_spec(c, p2, p1),
{
    let p = c.p as int;
    let (x1, y1, x2, y2) = (p1.x as int, p1.y as int, p2.x as int, p2.y as int);
    if !p1.is_infinity && !p2.is_infinity && x1 != x2 {
        let l12 = slope((y2 - y1) % p, (x2 - x1) % p, p);
        let l21 = slope((y1 - y2) % p, (x1 - x2) % p, p);
        // both slopes solve l·(x₂ - x₁) ≡ y₂ - y₁, so they are the same residue
        lemma_distinct_residues(x2, x1, p);
        lemma_distinct_residues(x1, x2, p);
        lemma_mod_mod(x2 - x1, p);
        lemma_mod_mod(x1 - x2, p);
        lemma_mod_mod(y2 - y1, p);
        lemma_mod_mod(y1 - y2, p);
        lemma_slope_times_denominator((y2 - y1) % p, (x2 - x1) % p, p);
        lemma_slope_times_denominator((y1 - y2) % p, (x1 - x2) % p, p);
        lemma_mul_mod(l12, x2 - x1, p);
        lemma_mul_mod(l21, x1 - x2, p);
        lemma_reversed_slope(l21, x1, y1, x2, y2, p);
        vstd::arithmetic::div_mod::lemma_mod_bound((y2 - y1) % p * mod_inverse_spec((x2 - x1) % p, p), p);
        vstd::arithmetic::div_mod::lemma_mod_bound((y1 - y2) % p * mod_inverse_spec((x1 - x2) % p, p), p);
        lemma_quotient_unique(l12, l21, x2 - x1, y2 - y1, p);
        // the ordinates l·(x₁ - x₃) - y₁ and l·(x₂ - x₃) - y₂ differ by l·(x₁ - x₂) - (y₁ - y₂)
        let l = l12;
        let x3 = (l * l - x1 - x2) % p;
        assert(l * l - x2 - x1 == l * l - x1 - x2);
        let u = l * (x1 - x3) - y1;
        let v = l * (x2 - x3) - y2;
        assert(u - v == l * (x1 - x2) - (y1 - y2)) by (nonlinear_arith)
            requires
                u == l * (x1 - x3) - y1,
                v == l * (x2 - x3) - y2,
        ;
        lemma_difference_of_cong(l * (x1 - x2), y1 - y2, p);
        lemma_cong_of_difference(u, v, p);
    }
}

/// `-u ≡ 0` when `u ≡ 0`.
proof fn lemma_neg_zero_mod(u: int, p: int)
    requires
        p > 0,
        u % p == 0,
    ensures
        (-u) % p == 0,
{
    vstd::arithmetic::div_mod::lemma_fundamental_div_mod(u, p);
    let q = u / p;
    assert(-u == p * (-q)) by (nonlinear_arith)
        requires
            u == p * q + u % p,
            u % p == 0,
    ;
    crate::modular::lemma_mod_add_multiple(0, -q, p);
    lemma_mod_small(0, p);
}

} // verus!
