//! Adding a point and then its negation gives back where one started, and
//! from that, every curve point has an order no larger than the curve order.
use crate::curve::{
    add_spec, affine_point, curve_order_spec, discriminant, infinity_point, is_curve_point, negate_spec,
    on_curve, repeated_add, slope, vanishes_within, EllipticCurve, Point,
};
use crate::laws::{cubic, lemma_add_closed, lemma_add_inverse, lemma_slope_times_denominator};
use crate::modular::{
    is_prime, lemma_euclid, lemma_mod_add_multiple, lemma_mod_mod, lemma_mod_small,
    lemma_mul_mod, lemma_odd_prime,
};
use crate::residues::{lemma_distinct_residues, lemma_square_roots};
use vstd::prelude::*;

verus! {

// ---------------------------------------------------------------------------
// Congruences as explicit multiples
// ---------------------------------------------------------------------------

/// `u ≡ v (mod p)` gives the multiple `t` with `u - v = p·t`.
proof fn cong_witness(u: int, v: int, p: int) -> (t: int)
    requires
        p > 0,
        u % p == v % p,
    ensures
        u - v == p * t,
{
    vstd::arithmetic::div_mod::lemma_fundamental_div_mod(u, p);
    vstd::arithmetic::div_mod::lemma_fundamental_div_mod(v, p);
    let t = u / p - v / p;
    assert(u - v == p * t) by (nonlinear_arith)
        requires
            u == p * (u / p) + u % p,
            v == p * (v / p) + v % p,
            u % p == v % p,
            t == u / p - v / p,
    ;
    t
}

/// `u - v = p·t` gives `u ≡ v (mod p)`.
proof fn lemma_multiple_cong(u: int, v: int, t: int, p: int)
    requires
        p > 0,
        u - v == p * t,
    ensures
        u % p == v % p,
{
    lemma_mod_add_multiple(v, t, p);
}

/// Two residues in `[0, p)` that differ by a multiple of `p` are equal.
proof fn lemma_multiple_eq(u: int, v: int, t: int, p: int)
    requires
        p > 0,
        0 <= u < p,
        0 <= v < p,
        u - v == p * t,
    ensures
        u == v,
{
    lemma_multiple_cong(u, v, t, p);
    lemma_mod_small(u, p);
    lemma_mod_small(v, p);
}

/// A prime that divides `d·w` but not `d` divides `w`.
proof fn lemma_cancel_factor(d: int, w: int, p: int)
    requires
        is_prime(p),
        (d * w) % p == 0,
        d % p != 0,
    ensures
        w % p == 0,
{
    lemma_euclid(d, w, p);
}

// ---------------------------------------------------------------------------
// The algebra of the reflected line
// ---------------------------------------------------------------------------

/// The chord from `P + Q` back through `-Q` has the opposite slope and meets
/// the curve again at `P`: with `P = (x1, y1)`, `Q = (x2, y2)`, the slope `l`
/// through them and `P + Q = (x3, y3)` off the vertical through `Q`, the chord
/// sum of `P + Q` and `-Q` is `P`.
proof fn lemma_reflected_chord(p: int, l: int, x1: int, y1: int, x2: int, y2: int)
    requires
        is_prime(p),
        0 <= x1 < p,
        0 <= y1 < p,
        (l * (x2 - x1)) % p == (y2 - y1) % p,
        (x2 - (l * l - x1 - x2) % p) % p != 0,
    ensures
        ({
            let x3 = (l * l - x1 - x2) % p;
            let y3 = (l * (x1 - x3) - y1) % p;
            let mu = slope(((-y2) % p - y3) % p, (x2 - x3) % p, p);
            &&& (mu * mu - x3 - x2) % p == x1
            &&& (mu * (x3 - (mu * mu - x3 - x2) % p) - y3) % p == y1
        }),
{
    let x3 = (l * l - x1 - x2) % p;
    let y3 = (l * (x1 - x3) - y1) % p;
    let ny2 = (-y2) % p;
    let num = (ny2 - y3) % p;
    let den = (x2 - x3) % p;
    let mu = slope(num, den, p);
    lemma_mod_mod(l * l - x1 - x2, p);
    let q3 = cong_witness(l * l - x1 - x2, x3, p);
    lemma_mod_mod(l * (x1 - x3) - y1, p);
    let r3 = cong_witness(l * (x1 - x3) - y1, y3, p);
    lemma_mod_mod(-y2, p);
    let s = cong_witness(l * (x2 - x1), y2 - y1, p);
    let n2 = cong_witness(-y2, ny2, p);
    // μ·(x2 - x3) ≡ ny2 - y3
    lemma_mod_mod(x2 - x3, p);
    lemma_slope_times_denominator(num, den, p);
    lemma_mul_mod(mu, x2 - x3, p);
    lemma_mod_mod(ny2 - y3, p);
    assert((mu * (x2 - x3)) % p == (ny2 - y3) % p);
    assert((x2 - x3) * (mu + l) == (mu + l) * (x2 - x3)) by (nonlinear_arith);
    let t1 = cong_witness(mu * (x2 - x3), ny2 - y3, p);
    // so (μ + l)·(x2 - x3) ≡ 0
    assert((mu + l) * (x2 - x3) == p * (t1 + s + r3 - n2)) by (nonlinear_arith)
        requires
            mu * (x2 - x3) - (ny2 - y3) == p * t1,
            -y2 - ny2 == p * n2,
            l * (x1 - x3) - y1 - y3 == p * r3,
            l * (x2 - x1) - (y2 - y1) == p * s,
    ;
    lemma_multiple_cong((mu + l) * (x2 - x3), 0, t1 + s + r3 - n2, p);
    lemma_mod_small(0, p);
    assert((2 * ny2) * (mu + l) == (mu + l) * (2 * ny2)) by (nonlinear_arith);
    lemma_cancel_factor(x2 - x3, mu + l, p);
    lemma_mod_mod(mu * mu - x3 - x2, p);
    let m = cong_witness(mu + l, 0, p);
    // x4 ≡ x1
    let x4 = (mu * mu - x3 - x2) % p;
    let q4 = cong_witness(mu * mu - x3 - x2, x4, p);
    assert(x4 - x1 == p * (q3 - q4 - 2 * l * m + p * m * m)) by (nonlinear_arith)
        requires
            mu + l == p * m,
            l * l - x1 - x2 - x3 == p * q3,
            mu * mu - x3 - x2 - x4 == p * q4,
    ;
    vstd::arithmetic::div_mod::lemma_mod_bound(mu * mu - x3 - x2, p);
    lemma_multiple_eq(x4, x1, q3 - q4 - 2 * l * m + p * m * m, p);
    // y4 ≡ y1
    assert((mu * (x3 - x1) - y3) - y1 == p * (m * (x3 - x1) + r3)) by (nonlinear_arith)
        requires
            mu + l == p * m,
            l * (x1 - x3) - y1 - y3 == p * r3,
    ;
    lemma_multiple_cong(mu * (x3 - x1) - y3, y1, m * (x3 - x1) + r3, p);
    lemma_mod_small(y1, p);
}

/// When `P + Q = -Q` (the line through `P` and `Q` is the tangent at `Q`),
/// doubling `-Q` along its tangent gives back `P`.
proof fn lemma_reflected_tangent(p: int, a: int, l: int, x1: int, y1: int, x2: int, y2: int)
    requires
        is_prime(p),
        p != 2,
        0 <= x1 < p,
        0 <= y1 < p,
        (l * (x2 - x1)) % p == (y2 - y1) % p,
        (l * l - x1 - x2) % p == x2,
        (l * (2 * y2)) % p == (3 * (x2 * x2) + a) % p,
        (-y2) % p != 0,
    ensures
        ({
            let ny2 = (-y2) % p;
            let mu = slope((3 * (x2 * x2) + a) % p, (2 * ny2) % p, p);
            let x4 = (mu * mu - x2 - x2) % p;
            &&& x4 == x1
            &&& (mu * (x2 - x4) - ny2) % p == y1
        }),
{
    let ny2 = (-y2) % p;
    let num = (3 * (x2 * x2) + a) % p;
    let den = (2 * ny2) % p;
    let mu = slope(num, den, p);
    lemma_odd_prime(p);
    vstd::arithmetic::div_mod::lemma_mod_bound(-y2, p);
    // 2·ny2 is not a multiple of p
    if den == 0 {
        lemma_euclid(2, ny2, p);
        lemma_mod_small(2, p);
        lemma_mod_small(ny2, p);
        assert(false);
    }
    lemma_mod_mod(2 * ny2, p);
    lemma_slope_times_denominator(num, den, p);
    lemma_mul_mod(mu, 2 * ny2, p);
    lemma_mod_mod(3 * (x2 * x2) + a, p);
    lemma_mod_mod(-y2, p);
    let t1 = cong_witness(mu * (2 * ny2), 3 * (x2 * x2) + a, p);
    let t2 = cong_witness(l * (2 * y2), 3 * (x2 * x2) + a, p);
    let n2 = cong_witness(-y2, ny2, p);
    // (μ + l)·(2·ny2) ≡ 0
    assert((mu + l) * (2 * ny2) == p * (t1 - t2 - 2 * l * n2)) by (nonlinear_arith)
        requires
            mu * (2 * ny2) - (3 * (x2 * x2) + a) == p * t1,
            l * (2 * y2) - (3 * (x2 * x2) + a) == p * t2,
            -y2 - ny2 == p * n2,
    ;
    lemma_multiple_cong((mu + l) * (2 * ny2), 0, t1 - t2 - 2 * l * n2, p);
    lemma_mod_small(0, p);
    lemma_cancel_factor(2 * ny2, mu + l, p);
    lemma_mod_mod(l * l - x1 - x2, p);
    vstd::arithmetic::div_mod::lemma_mod_bound(l * l - x1 - x2, p);
    lemma_mod_small(x2, p);
    let m = cong_witness(mu + l, 0, p);
    let q = cong_witness(l * l - x1 - x2, x2, p);
    let x4 = (mu * mu - x2 - x2) % p;
    lemma_mod_mod(mu * mu - x2 - x2, p);
    let q4 = cong_witness(mu * mu - x2 - x2, x4, p);
    assert(x4 - x1 == p * (q - q4 - 2 * l * m + p * m * m)) by (nonlinear_arith)
        requires
            mu + l == p * m,
            l * l - x1 - x2 - x2 == p * q,
            mu * mu - x2 - x2 - x4 == p * q4,
    ;
    vstd::arithmetic::div_mod::lemma_mod_bound(mu * mu - x2 - x2, p);
    lemma_multiple_eq(x4, x1, q - q4 - 2 * l * m + p * m * m, p);
    let s = cong_witness(l * (x2 - x1), y2 - y1, p);
    assert((mu * (x2 - x1) - ny2) - y1 == p * (m * (x2 - x1) - s + n2)) by (nonlinear_arith)
        requires
            mu + l == p * m,
            l * (x2 - x1) - (y2 - y1) == p * s,
            -y2 - ny2 == p * n2,
    ;
    lemma_multiple_cong(mu * (x2 - x1) - ny2, y1, m * (x2 - x1) - s + n2, p);
    lemma_mod_small(y1, p);
}

/// A line through two curve points with distinct abscissas whose third
/// intersection lies on the vertical through the second one is the tangent
/// there: `2·l·y2 ≡ 3x2² + a`.
proof fn lemma_chord_is_tangent(p: int, a: int, b: int, l: int, x1: int, y1: int, x2: int, y2: int)
    requires
        is_prime(p),
        (y1 * y1) % p == cubic(a, b, x1) % p,
        (y2 * y2) % p == cubic(a, b, x2) % p,
        (l * (x2 - x1)) % p == (y2 - y1) % p,
        (l * l - x1 - x2) % p == x2 % p,
        (x1 - x2) % p != 0,
    ensures
        (l * (2 * y2)) % p == (3 * (x2 * x2) + a) % p,
{
    let t1 = cong_witness(y1 * y1, cubic(a, b, x1), p);
    let t2 = cong_witness(y2 * y2, cubic(a, b, x2), p);
    let s = cong_witness(l * (x2 - x1), y2 - y1, p);
    let q = cong_witness(l * l - x1 - x2, x2, p);
    let d = x1 - x2;
    lemma_tangent_identity(a, b, l, x1, y1, x2, y2);
    let big_s = y1 - y2 - l * d;
    let big_q = l * l - x1 - x2 - x2;
    assert(l * (x1 - x2) == -(l * (x2 - x1))) by (nonlinear_arith);
    assert(big_s == p * s);
    assert(big_q == p * q);
    let k = t1 - t2 - s * (y1 + y2 + l * d) - q * (d * d);
    assert(p * t1 - p * t2 - (p * s) * (y1 + y2 + l * d) - (p * q) * (d * d) == p * k)
        by (nonlinear_arith)
        requires
            k == t1 - t2 - s * (y1 + y2 + l * d) - q * (d * d),
    ;
    assert(d * (l * (2 * y2) - (3 * (x2 * x2) + a)) == p * k);
    lemma_multiple_cong(d * (l * (2 * y2) - (3 * (x2 * x2) + a)), 0, k, p);
    lemma_mod_small(0, p);
    lemma_cancel_factor(d, l * (2 * y2) - (3 * (x2 * x2) + a), p);
    let w = cong_witness(l * (2 * y2) - (3 * (x2 * x2) + a), 0, p);
    lemma_multiple_cong(l * (2 * y2), 3 * (x2 * x2) + a, w, p);
}

/// A curve point `(u, 0)` at which `3u² + a` vanishes makes the curve
/// singular: the discriminant is zero.
proof fn lemma_singular_point(p: int, a: int, b: int, u: int)
    requires
        p > 0,
        cubic(a, b, u) % p == 0,
        (3 * (u * u) + a) % p == 0,
    ensures
        discriminant(a, b, p) == 0,
{
    lemma_mod_small(0, p);
    let sa = cong_witness(3 * (u * u) + a, 0, p);
    let sb = cong_witness(cubic(a, b, u), 0, p);
    lemma_discriminant_identity(a, b, u);
    let big_a = a + 3 * (u * u);
    let big_b = u * u * u + a * u + b;
    let xa = 4 * (big_a * big_a) - 9 * big_a * (u * u) - 54 * big_b * u;
    let xb = 27 * big_b + 108 * (u * u * u);
    assert(big_a == p * sa);
    assert(big_b == p * sb);
    let k = sa * xa + sb * xb;
    assert((p * sa) * xa + (p * sb) * xb == p * k) by (nonlinear_arith)
        requires
            k == sa * xa + sb * xb,
    ;
    assert(4 * (a * a * a) + 27 * (b * b) == big_a * xa + big_b * xb);
    lemma_multiple_cong(4 * (a * a * a) + 27 * (b * b), 0, k, p);
}

/// `d·(2·l·y2 - 3x2² - a)` written through the defects of the two points, of
/// the line and of the third abscissa, with `d = x1 - x2`.
proof fn lemma_tangent_identity(a: int, b: int, l: int, x1: int, y1: int, x2: int, y2: int)
    ensures
        (x1 - x2) * (l * (2 * y2) - (3 * (x2 * x2) + a)) == (y1 * y1 - (x1 * x1 * x1 + a * x1 + b))
            - (y2 * y2 - (x2 * x2 * x2 + a * x2 + b)) - (y1 - y2 - l * (x1 - x2)) * (y1 + y2 + l * (x1
            - x2)) - (l * l - x1 - x2 - x2) * ((x1 - x2) * (x1 - x2)),
{
    let d = x1 - x2;
    let w = l * d;
    let st = (y1 - y2 - w) * (y1 + y2 + w);
    let qd = (l * l - x1 - x2 - x2) * (d * d);
    assert(st == y1 * y1 - y2 * y2 - 2 * (y2 * w) - w * w) by (nonlinear_arith)
        requires
            st == (y1 - y2 - w) * (y1 + y2 + w),
    ;
    assert(w * w == (l * l) * (d * d)) by (nonlinear_arith)
        requires
            w == l * d,
    ;
    assert(2 * (y2 * w) == d * (l * (2 * y2))) by (nonlinear_arith)
        requires
            w == l * d,
    ;
    assert(qd == (l * l) * (d * d) - (x1 + 2 * x2) * (d * d)) by (nonlinear_arith)
        requires
            qd == (l * l - x1 - x2 - x2) * (d * d),
    ;
    assert((x1 + 2 * x2) * (d * d) == d * (x1 * x1 + x1 * x2 - 2 * (x2 * x2))) by (nonlinear_arith)
        requires
            d == x1 - x2,
    ;
    assert((x1 * x1 * x1 + a * x1 + b) - (x2 * x2 * x2 + a * x2 + b) == d * (x1 * x1 + x1 * x2 + x2
        * x2) + a * d) by (nonlinear_arith)
        requires
            d == x1 - x2,
    ;
    assert(d * (x1 * x1 + x1 * x2 + x2 * x2) - d * (x1 * x1 + x1 * x2 - 2 * (x2 * x2)) == d * (3 * (
    x2 * x2))) by (nonlinear_arith);
    assert(d * (l * (2 * y2) - (3 * (x2 * x2) + a)) == d * (l * (2 * y2)) - d * (3 * (x2 * x2)) - a
        * d) by (nonlinear_arith);
}

/// `4a³ + 27b²` as a combination of `a + 3u²` and `u³ + au + b`.
proof fn lemma_discriminant_identity(a: int, b: int, u: int)
    ensures
        4 * (a * a * a) + 27 * (b * b) == (a + 3 * (u * u)) * (4 * ((a + 3 * (u * u)) * (a + 3 * (u
            * u))) - 9 * (a + 3 * (u * u)) * (u * u) - 54 * (u * u * u + a * u + b) * u) + (u * u * u
            + a * u + b) * (27 * (u * u * u + a * u + b) + 108 * (u * u * u)),
{
    let u2 = u * u;
    let u3 = u * u * u;
    let big_a = a + 3 * u2;
    let big_b = u3 + a * u + b;
    let w = big_a * u;
    assert(a * u == w - 3 * u3) by (nonlinear_arith)
        requires
            w == big_a * u,
            big_a == a + 3 * u2,
            u2 == u * u,
            u3 == u * u * u,
    ;
    assert(b == big_b + 2 * u3 - w);
    assert(a * a * a == big_a * big_a * big_a - 9 * (big_a * big_a * u2) + 27 * (big_a * (u2 * u2))
        - 27 * (u2 * u2 * u2)) by (nonlinear_arith)
        requires
            a == big_a - 3 * u2,
    ;
    assert(b * b == big_b * big_b + 4 * (u3 * u3) + w * w + 4 * (big_b * u3) - 2 * (big_b * w) - 4
        * (u3 * w)) by (nonlinear_arith)
        requires
            b == big_b + 2 * u3 - w,
    ;
    assert(u3 * u3 == u2 * u2 * u2) by (nonlinear_arith)
        requires
            u2 == u * u,
            u3 == u * u * u,
    ;
    assert(w * w == big_a * big_a * u2) by (nonlinear_arith)
        requires
            w == big_a * u,
            u2 == u * u,
    ;
    assert(u3 * w == big_a * (u2 * u2)) by (nonlinear_arith)
        requires
            w == big_a * u,
            u2 == u * u,
            u3 == u * u * u,
    ;
    assert(big_b * w == big_a * big_b * u) by (nonlinear_arith)
        requires
            w == big_a * u,
    ;
    assert(big_a * (4 * (big_a * big_a) - 9 * big_a * u2 - 54 * big_b * u) + big_b * (27 * big_b
        + 108 * u3) == 4 * (big_a * big_a * big_a) - 9 * (big_a * big_a * u2) - 54 * (big_a * big_b
        * u) + 27 * (big_b * big_b) + 108 * (big_b * u3)) by (nonlinear_arith);
}

// ---------------------------------------------------------------------------
// Points
// ---------------------------------------------------------------------------

/// Adding a point and then its negation gives back the starting point:
/// (Q + P) + (-P) = Q, for curve points on a non-singular curve over an odd
/// prime field.
pub proof fn lemma_add_then_subtract(c: EllipticCurve, q: Point, pt: Point)
    requires
        is_prime(c.p as int),
        c.p != 2,
        discriminant(c.a as int, c.b as int, c.p as int) != 0,
        is_curve_point(c, q),
        is_curve_point(c, pt),
    ensures
        add_spec(c, add_spec(c, q, pt), negate_spec(pt, c.p as int)) == q,
{
    let p = c.p as int;
    let (a, b) = (c.a as int, c.b as int);
    lemma_odd_prime(p);
    let np = negate_spec(pt, p);
    if pt.is_infinity {
    } else if q.is_infinity {
        lemma_add_inverse(c, pt);
        assert(add_spec(c, q, pt) == pt);
    } else {
        let (x1, y1, x2, y2) = (q.x as int, q.y as int, pt.x as int, pt.y as int);
        let ny2 = (-y2) % p;
        vstd::arithmetic::div_mod::lemma_mod_bound(-y2, p);
        assert(np == affine_point(x2, ny2));
        assert(on_curve(c, q) && on_curve(c, pt));
        assert((y1 * y1) % p == cubic(a, b, x1) % p);
        assert((y2 * y2) % p == cubic(a, b, x2) % p);
        if x1 == x2 && y1 != y2 {
            lemma_square_roots(y1, y2, p);
            lemma_mod_add_multiple(y1, -1, p);
            lemma_mod_small(y1, p);
            assert(-y2 == y1 + p * (-1));
            assert(ny2 == y1);
        } else if q == pt && y1 == 0 {
            lemma_mod_small(0, p);
            assert(ny2 == 0);
        } else {
            let z = add_spec(c, q, pt);
            let l = if q == pt {
                slope((3 * (x1 * x1) + a) % p, (2 * y1) % p, p)
            } else {
                slope((y2 - y1) % p, (x2 - x1) % p, p)
            };
            let x3 = (l * l - x1 - x2) % p;
            let y3 = (l * (x1 - x3) - y1) % p;
            assert(z == affine_point(x3, y3));
            vstd::arithmetic::div_mod::lemma_mod_bound(l * l - x1 - x2, p);
            vstd::arithmetic::div_mod::lemma_mod_bound(l * (x1 - x3) - y1, p);
            lemma_mod_small(x2, p);
            lemma_mod_small(y2, p);
            // the line through q and pt has slope l
            if q == pt {
                assert(l * (x2 - x1) == 0) by (nonlinear_arith)
                    requires
                        x2 == x1,
                ;
                assert(y2 - y1 == 0);
                // and it is the tangent there
                let num = (3 * (x1 * x1) + a) % p;
                let den = (2 * y1) % p;
                if den == 0 {
                    lemma_euclid(2, y1, p);
                    lemma_mod_small(2, p);
                    lemma_mod_small(y1, p);
                    assert(false);
                }
                lemma_mod_mod(2 * y1, p);
                lemma_slope_times_denominator(num, den, p);
                lemma_mul_mod(l, 2 * y1, p);
                lemma_mod_mod(3 * (x1 * x1) + a, p);
                assert((l * (2 * y2)) % p == (3 * (x2 * x2) + a) % p);
            } else {
                assert(x1 != x2);
                lemma_distinct_residues(x2, x1, p);
                lemma_mod_mod(x2 - x1, p);
                lemma_slope_times_denominator((y2 - y1) % p, (x2 - x1) % p, p);
                lemma_mul_mod(l, x2 - x1, p);
                lemma_mod_mod(y2 - y1, p);
            }
            assert((l * (x2 - x1)) % p == (y2 - y1) % p);
            if x3 == x2 {
                // the third point lies above pt: z = -pt
                let s = cong_witness(l * (x2 - x1), y2 - y1, p);
                assert(l * (x1 - x3) == -(l * (x2 - x1))) by (nonlinear_arith)
                    requires
                        x3 == x2,
                ;
                assert(p * (-s) == -(p * s)) by (nonlinear_arith);
                assert(l * (x1 - x3) - y1 == -y2 + p * (-s));
                lemma_mod_add_multiple(-y2, -s, p);
                assert(y3 == ny2);
                assert(z == np);
                if q != pt {
                    lemma_distinct_residues(x1, x2, p);
                    lemma_chord_is_tangent(p, a, b, l, x1, y1, x2, y2);
                }
                assert((l * (2 * y2)) % p == (3 * (x2 * x2) + a) % p);
                if ny2 == 0 {
                    // then pt = (x2, 0) and the tangent there is vertical only
                    // on a singular curve
                    if y2 != 0 {
                        lemma_distinct_residues(0, y2, p);
                        assert(false);
                    }
                    assert(l * (2 * y2) == 0) by (nonlinear_arith)
                        requires
                            y2 == 0,
                    ;
                    lemma_mod_small(0, p);
                    assert(y2 * y2 == 0) by (nonlinear_arith)
                        requires
                            y2 == 0,
                    ;
                    lemma_singular_point(p, a, b, x2);
                    assert(false);
                } else {
                    lemma_reflected_tangent(p, a, l, x1, y1, x2, y2);
                }
            } else {
                lemma_distinct_residues(x2, x3, p);
                lemma_reflected_chord(p, l, x1, y1, x2, y2);
            }
        }
    }
}

/// Every multiple of a curve point is a curve point, over an odd prime field.
pub proof fn lemma_multiples_on_curve(c: EllipticCurve, pt: Point, n: nat)
    requires
        is_prime(c.p as int),
        c.p != 2,
        is_curve_point(c, pt),
    ensures
        is_curve_point(c, repeated_add(c, pt, n)),
    decreases n,
{
    if n > 0 {
        lemma_multiples_on_curve(c, pt, (n - 1) as nat);
        lemma_add_closed(c, repeated_add(c, pt, (n - 1) as nat), pt);
    }
}

/// Equal multiples `iP = jP` with `i <= j` give `(j - i)·P = O`.
proof fn lemma_equal_multiples(c: EllipticCurve, pt: Point, i: nat, j: nat)
    requires
        is_prime(c.p as int),
        c.p != 2,
        discriminant(c.a as int, c.b as int, c.p as int) != 0,
        is_curve_point(c, pt),
        i <= j,
        repeated_add(c, pt, i) == repeated_add(c, pt, j),
    ensures
        repeated_add(c, pt, (j - i) as nat) == infinity_point(),
    decreases i,
{
    if i > 0 {
        let np = negate_spec(pt, c.p as int);
        lemma_multiples_on_curve(c, pt, (i - 1) as nat);
        lemma_multiples_on_curve(c, pt, (j - 1) as nat);
        lemma_add_then_subtract(c, repeated_add(c, pt, (i - 1) as nat), pt);
        lemma_add_then_subtract(c, repeated_add(c, pt, (j - 1) as nat), pt);
        assert(repeated_add(c, pt, i) == add_spec(c, repeated_add(c, pt, (i - 1) as nat), pt));
        assert(repeated_add(c, pt, j) == add_spec(c, repeated_add(c, pt, (j - 1) as nat), pt));
        lemma_equal_multiples(c, pt, (i - 1) as nat, (j - 1) as nat);
        assert((j - 1 - (i - 1)) as nat == (j - i) as nat);
    }
}

/// Every curve point of a non-singular curve over an odd prime field has an
/// order, and it is at most the curve order N: some multiple mP with
/// 0 < m <= N is the point at infinity.
pub proof fn lemma_order_exists(c: EllipticCurve, pt: Point)
    requires
        is_prime(c.p as int),
        c.p != 2,
        discriminant(c.a as int, c.b as int, c.p as int) != 0,
        is_curve_point(c, pt),
    ensures
        vanishes_within(c, pt, curve_order_spec(c)),
{
    let n = curve_order_spec(c);
    crate::laws::lemma_curve_order_counts_points(c);
    crate::curve::lemma_count_below_positive(c, c.p as int);
    if pt.is_infinity {
        reveal_with_fuel(repeated_add, 2);
        let m: int = 1;
        assert(repeated_add(c, pt, m as nat) == add_spec(c, infinity_point(), pt));
        assert(repeated_add(c, pt, m as nat).is_infinity);
    } else if !vanishes_within(c, pt, n) {
        let s = Seq::new((n + 1) as nat, |i: int| repeated_add(c, pt, i as nat));
        let curve_points = Set::new(|q: Point| is_curve_point(c, q));
        assert forall|i: int, j: int| 0 <= i < s.len() && 0 <= j < s.len() && i != j implies s[i]
            != s[j] by {
            if s[i] == s[j] {
                let (lo, hi) = if i < j { (i, j) } else { (j, i) };
                lemma_equal_multiples(c, pt, lo as nat, hi as nat);
                assert(0 < hi - lo <= n);
                assert(repeated_add(c, pt, (hi - lo) as nat).is_infinity);
                assert(false);
            }
        }
        assert(s.no_duplicates());
        s.unique_seq_to_set();
        assert forall|q: Point| s.to_set().contains(q) implies curve_points.contains(q) by {
            let i = choose|i: int| 0 <= i < s.len() && s[i] == q;
            lemma_multiples_on_curve(c, pt, i as nat);
        }
        vstd::set_lib::lemma_len_subset(s.to_set(), curve_points);
        assert(false);
    }
}

} // verus!
