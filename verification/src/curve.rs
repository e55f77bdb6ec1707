//! Points and curves in short Weierstrass form y² = x³ + ax + b over GF(p),
//! with the chord-tangent addition, scalar multiplication, counting and
//! compression.
use crate::modular::{
    abs, is_prime, lemma_add_mod, lemma_mod_abs, lemma_mod_mod, lemma_mod_small, lemma_mul_mod,
    lemma_trunc_div_rem, lemma_trunc_rem_two, mod_inverse, mod_inverse_spec, mod_pow, mod_pow_spec,
    mod_sqrt, mul_mod, reduce, sqrt_root, trunc_rem, trunc_rem_exec,
};
use crate::listing::{
    lemma_points_listing_complete, lemma_points_listing_distinct, lemma_points_listing_len,
    lemma_points_listing_prefix, lemma_points_listing_sound, points_listing, roots_valid,
};
use crate::residues::{is_parity_root, is_square_mod, lemma_parity_root_unique, parity_root};
use vstd::prelude::*;
use vstd::string::StringExecFns;

verus! {

/// A point on an elliptic curve, or the point at infinity.
#[derive(Debug, Clone, Copy, PartialEq, Eq, Structural)]
pub struct Point {
    pub x: i64,
    pub y: i64,
    pub is_infinity: bool,
}

/// An elliptic curve in short Weierstrass form: y² = x³ + ax + b over GF(p).
#[derive(Debug, Clone, Copy)]
pub struct EllipticCurve {
    pub a: i64,
    pub b: i64,
    pub p: i64,
}

// ---------------------------------------------------------------------------
// Specifications
// ---------------------------------------------------------------------------

/// The point at infinity as `Point::infinity` builds it.
pub open spec fn infinity_point() -> Point {
    Point { x: 0, y: 0, is_infinity: true }
}

/// An affine point as `Point::new` builds it.
pub open spec fn affine_point(x: int, y: int) -> Point {
    Point { x: x as i64, y: y as i64, is_infinity: false }
}

/// `4a³ + 27b² mod p`; the curve is singular when it is zero.
pub open spec fn discriminant(a: int, b: int, p: int) -> int {
    (4 * (a * a * a) + 27 * (b * b)) % p
}

/// `x³ + ax + b mod p`, the right-hand side of the curve equation.
pub open spec fn curve_rhs(c: EllipticCurve, x: int) -> int {
    (x * x * x + (c.a as int) * x + (c.b as int)) % (c.p as int)
}

/// `pt` satisfies the curve equation modulo p, or is the point at infinity.
pub open spec fn on_curve(c: EllipticCurve, pt: Point) -> bool {
    pt.is_infinity || ((pt.y as int) * (pt.y as int)) % (c.p as int) == curve_rhs(c, pt.x as int)
}

/// A point as the library's operations produce them from curve points: on
/// the curve with both coordinates reduced modulo p, or the point at infinity
/// as `Point::infinity` builds it.
pub open spec fn is_curve_point(c: EllipticCurve, pt: Point) -> bool {
    if pt.is_infinity {
        pt == infinity_point()
    } else {
        &&& 0 <= pt.x < c.p
        &&& 0 <= pt.y < c.p
        &&& on_curve(c, pt)
    }
}

/// `num / den mod p`, the division using the inverse that `mod_inverse` finds.
pub open spec fn slope(num: int, den: int, p: int) -> int {
    (num * mod_inverse_spec(den, p)) % p
}

/// The chord-tangent sum of two points, as `EllipticCurve::add` computes it.
pub open spec fn add_spec(c: EllipticCurve, p1: Point, p2: Point) -> Point {
    let p = c.p as int;
    let (x1, y1, x2, y2) = (p1.x as int, p1.y as int, p2.x as int, p2.y as int);
    if p1.is_infinity {
        p2
    } else if p2.is_infinity {
        p1
    } else if x1 == x2 && y1 != y2 {
        infinity_point()
    } else if p1 == p2 && y1 == 0 {
        infinity_point()
    } else {
        let lambda = if p1 == p2 {
            slope((3 * (x1 * x1) + (c.a as int)) % p, (2 * y1) % p, p)
        } else {
            slope((y2 - y1) % p, (x2 - x1) % p, p)
        };
        let x3 = (lambda * lambda - x1 - x2) % p;
        let y3 = (lambda * (x1 - x3) - y1) % p;
        affine_point(x3, y3)
    }
}

/// kP for k >= 0 as the k-fold sum P + P + ... + P, added one term at a time
/// from the point at infinity: 0·P = O and (k+1)·P = kP + P.
pub open spec fn repeated_add(c: EllipticCurve, pt: Point, k: nat) -> Point
    decreases k,
{
    if k == 0 {
        infinity_point()
    } else {
        add_spec(c, repeated_add(c, pt, (k - 1) as nat), pt)
    }
}

/// What `scalar_mul(point, k)` returns: the point at infinity for k = 0 or
/// for the point at infinity, the k-fold sum kP for k > 0, and |k|·(-P) for
/// k < 0.
pub open spec fn scalar_mul_spec(c: EllipticCurve, pt: Point, k: int) -> Point {
    if k == 0 || pt.is_infinity {
        infinity_point()
    } else if k > 0 {
        repeated_add(c, pt, k as nat)
    } else {
        repeated_add(c, negate_spec(pt, c.p as int), (-k) as nat)
    }
}

/// `n` is the order of `pt`: nP is the point at infinity and no smaller
/// positive multiple is.
pub open spec fn is_order(c: EllipticCurve, pt: Point, n: int) -> bool {
    &&& n > 0
    &&& repeated_add(c, pt, n as nat).is_infinity
    &&& forall|m: int| 0 < m < n ==> !(#[trigger] repeated_add(c, pt, m as nat)).is_infinity
}

/// Some multiple mP with 0 < m <= n is the point at infinity.
pub open spec fn vanishes_within(c: EllipticCurve, pt: Point, n: int) -> bool {
    exists|m: int| 0 < m <= n && (#[trigger] repeated_add(c, pt, m as nat)).is_infinity
}
/// The number of affine points with abscissa `x` that the counting of
/// `curve_order` credits: one where the right-hand side is zero, two where
/// Euler's test finds a quadratic residue, none otherwise.
pub open spec fn points_at(c: EllipticCurve, x: int) -> int {
    let rhs = curve_rhs(c, x);
    if rhs == 0 {
        1
    } else if mod_pow_spec(rhs, (c.p - 1) / 2, c.p as int) == 1 {
        2
    } else {
        0
    }
}

/// The point at infinity plus the points credited to abscissas `0 .. n`.
pub open spec fn count_below(c: EllipticCurve, n: int) -> int
    decreases n,
{
    if n <= 0 {
        1
    } else {
        count_below(c, n - 1) + points_at(c, n - 1)
    }
}

/// What `curve_order` returns.
pub open spec fn curve_order_spec(c: EllipticCurve) -> int {
    count_below(c, c.p as int)
}

/// Points credited to an abscissa are never negative, so the count grows.
pub proof fn lemma_count_below_monotone(c: EllipticCurve, n: int, m: int)
    requires
        n <= m,
    ensures
        count_below(c, n) <= count_below(c, m),
    decreases m - n,
{
    if n < m {
        lemma_count_below_monotone(c, n, m - 1);
        if m > 0 {
            assert(points_at(c, m - 1) >= 0);
        }
    }
}

/// The count always includes the point at infinity.
pub proof fn lemma_count_below_positive(c: EllipticCurve, n: int)
    ensures
        count_below(c, n) >= 1,
    decreases n,
{
    if n > 0 {
        lemma_count_below_positive(c, n - 1);
    }
}

/// The point `decompress(x, is_y_odd)` recovers: the abscissa with the square
/// root of `x³ + ax + b` of the requested parity (zero when that root is zero);
/// `None` when `x³ + ax + b` is not a square modulo an odd prime.
pub open spec fn decompress_spec(c: EllipticCurve, x: int, is_y_odd: bool) -> Option<Point> {
    let rhs = curve_rhs(c, x);
    if c.p == 2 {
        Some(affine_point(x, rhs))
    } else if is_square_mod(rhs, c.p as int) {
        Some(affine_point(x, parity_root(rhs, c.p as int, is_y_odd)))
    } else {
        None
    }
}

/// What `compress` returns: the abscissa and whether the ordinate is odd.
pub open spec fn compress_spec(pt: Point) -> Option<(i64, bool)> {
    if pt.is_infinity {
        None
    } else {
        Some((pt.x, (pt.y as int) % 2 == 1))
    }
}

/// For a point other than infinity, a positive multiple that is infinite is
/// the point at infinity as `Point::infinity` builds it.
pub proof fn lemma_repeated_add_infinite(c: EllipticCurve, pt: Point, m: nat)
    requires
        !pt.is_infinity,
        m > 0,
        repeated_add(c, pt, m).is_infinity,
    ensures
        repeated_add(c, pt, m) == infinity_point(),
{
}

/// Once mP is the point at infinity (m > 0), the multiples start over:
/// (m + j)·P = jP.
pub proof fn lemma_repeated_add_shift(c: EllipticCurve, pt: Point, m: nat, j: nat)
    requires
        !pt.is_infinity,
        m > 0,
        repeated_add(c, pt, m).is_infinity,
    ensures
        repeated_add(c, pt, m + j) == repeated_add(c, pt, j),
    decreases j,
{
    if j == 0 {
        lemma_repeated_add_infinite(c, pt, m);
    } else {
        lemma_repeated_add_shift(c, pt, m, (j - 1) as nat);
        assert(repeated_add(c, pt, m + j) == add_spec(c, repeated_add(c, pt, (m + j - 1) as nat), pt));
    }
}

/// Once mP is the point at infinity (m > 0), the multiples repeat with period
/// m: nP = (n mod m)·P.
pub proof fn lemma_repeated_add_periodic(c: EllipticCurve, pt: Point, m: nat, n: nat)
    requires
        !pt.is_infinity,
        m > 0,
        repeated_add(c, pt, m).is_infinity,
    ensures
        repeated_add(c, pt, n) == repeated_add(c, pt, n % m),
    decreases n,
{
    if n < m {
        vstd::arithmetic::div_mod::lemma_small_mod(n, m);
    } else {
        let j = (n - m) as nat;
        lemma_repeated_add_shift(c, pt, m, j);
        lemma_repeated_add_periodic(c, pt, m, j);
        vstd::arithmetic::div_mod::lemma_mod_sub_multiples_vanish(n as int, m as int);
    }
}

/// A point has at most one order.
pub proof fn lemma_order_unique(c: EllipticCurve, pt: Point, n1: int, n2: int)
    requires
        is_order(c, pt, n1),
        is_order(c, pt, n2),
    ensures
        n1 == n2,
{
    if n1 < n2 {
        assert(!repeated_add(c, pt, n1 as nat).is_infinity);
    } else if n2 < n1 {
        assert(!repeated_add(c, pt, n2 as nat).is_infinity);
    }
}

/// `p - y` is a square root of whatever `y` is a square root of.
pub proof fn lemma_negated_root(y: int, p: int)
    requires
        p > 0,
    ensures
        (((p - y) % p) * ((p - y) % p)) % p == (y * y) % p,
{
    crate::modular::lemma_mul_mod(p - y, p - y, p);
    assert((p - y) * (p - y) == y * y + p * (p - 2 * y)) by (nonlinear_arith);
    crate::modular::lemma_mod_add_multiple(y * y, p - 2 * y, p);
}

/// For odd `p` and `0 < y < p`, `p - y` and `y` have opposite parities.
pub proof fn lemma_parity_of_complement(y: int, p: int)
    requires
        p % 2 == 1,
        0 < y < p,
    ensures
        ((p - y) % 2 == 1) != (y % 2 == 1),
{
    vstd::arithmetic::div_mod::lemma_fundamental_div_mod(p, 2);
    vstd::arithmetic::div_mod::lemma_fundamental_div_mod(y, 2);
    vstd::arithmetic::div_mod::lemma_fundamental_div_mod(p - y, 2);
    vstd::arithmetic::div_mod::lemma_mod_bound(y, 2);
    vstd::arithmetic::div_mod::lemma_mod_bound(p - y, 2);
}

// ---------------------------------------------------------------------------
// Points
// ---------------------------------------------------------------------------

impl Point {
    /// Create a new affine point.
    pub fn new(x: i64, y: i64) -> (r: Self)
        ensures
            r == affine_point(x as int, y as int),
    {
        Point { x, y, is_infinity: false }
    }

    /// The point at infinity (additive identity).
    pub fn infinity() -> (r: Self)
        ensures
            r == infinity_point(),
    {
        Point { x: 0, y: 0, is_infinity: true }
    }

    /// Negate a point: -(x, y) = (x, -y).
    pub fn negate(&self, p: i64) -> (r: Self)
        requires
            !self.is_infinity ==> p != 0,
        ensures
            r == negate_spec(*self, p as int),
    {
        if self.is_infinity {
            return Self::infinity();
        }
        Point::new(self.x, reduce(-(self.y as i128), p))
    }

    /// The text of the point: `O (∞)` for the point at infinity, `(x, y)`
    /// otherwise.
    pub fn to_string(&self) -> (s: String)
        ensures
            s@ == (if self.is_infinity {
                "O (∞)"@
            } else {
                coordinates_text(self.x as int, self.y as int)
            }),
    {
        if self.is_infinity {
            "O (∞)".to_owned()
        } else {
            let mut text = "(".to_owned();
            text.append(integer_text(self.x).as_str());
            text.append(", ");
            text.append(integer_text(self.y).as_str());
            text.append(")");
            proof {
                reveal_strlit("(");
                reveal_strlit(", ");
                reveal_strlit(")");
                assert(text@ =~= coordinates_text(self.x as int, self.y as int));
            }
            text
        }
    }
}

/// The decimal digits of a natural number, most significant first.
pub open spec fn decimal_digits(n: nat) -> Seq<char>
    decreases n,
{
    if n < 10 {
        seq![(48 + n) as char]
    } else {
        decimal_digits(n / 10) + seq![(48 + n % 10) as char]
    }
}

/// An integer written in decimal, with a leading `-` when negative.
pub open spec fn decimal(v: int) -> Seq<char> {
    if v < 0 {
        seq!['-'] + decimal_digits((-v) as nat)
    } else {
        decimal_digits(v as nat)
    }
}

/// `(x, y)`, the text of an affine point.
pub open spec fn coordinates_text(x: int, y: int) -> Seq<char> {
    seq!['('] + decimal(x) + seq![',', ' '] + decimal(y) + seq![')']
}

/// The text of one decimal digit.
fn digit_text(d: u64) -> (s: String)
    requires
        d < 10,
    ensures
        s@ == seq![(48 + d) as char],
{
    proof {
        reveal_strlit("0");
        reveal_strlit("1");
        reveal_strlit("2");
        reveal_strlit("3");
        reveal_strlit("4");
        reveal_strlit("5");
        reveal_strlit("6");
        reveal_strlit("7");
        reveal_strlit("8");
        reveal_strlit("9");
    }
    let t = if d == 0 {
        "0"
    } else if d == 1 {
        "1"
    } else if d == 2 {
        "2"
    } else if d == 3 {
        "3"
    } else if d == 4 {
        "4"
    } else if d == 5 {
        "5"
    } else if d == 6 {
        "6"
    } else if d == 7 {
        "7"
    } else if d == 8 {
        "8"
    } else {
        "9"
    };
    let s = t.to_owned();
    proof {
        assert(s@ =~= seq![(48 + d) as char]);
    }
    s
}

/// The decimal digits of `n`, most significant first.
fn digits_text(n: u64) -> (s: String)
    ensures
        s@ == decimal_digits(n as nat),
    decreases n,
{
    if n < 10 {
        digit_text(n)
    } else {
        let mut s = digits_text(n / 10);
        let d = digit_text(n % 10);
        s.append(d.as_str());
        s
    }
}

/// An integer in decimal, with a leading `-` when it is negative.
fn integer_text(v: i64) -> (s: String)
    ensures
        s@ == decimal(v as int),
{
    if v < 0 {
        let magnitude = (-(v as i128)) as u64;
        let mut s = "-".to_owned();
        s.append(digits_text(magnitude).as_str());
        proof {
            reveal_strlit("-");
            assert(s@ =~= decimal(v as int));
        }
        s
    } else {
        digits_text(v as u64)
    }
}

/// The ordinate `all_points` lists first at each abscissa below p: the square
/// root of `x³ + ax + b` that `mod_sqrt` returns.
pub open spec fn listed_roots(c: EllipticCurve) -> Seq<int> {
    Seq::new(c.p as nat, |x: int| sqrt_root(curve_rhs(c, x), c.p as int))
}

/// What `negate(p)` returns: `(x, -y mod p)`, and infinity for infinity.
pub open spec fn negate_spec(pt: Point, p: int) -> Point {
    if pt.is_infinity {
        infinity_point()
    } else {
        affine_point(pt.x as int, (-(pt.y as int)) % p)
    }
}

// ---------------------------------------------------------------------------
// Curves
// ---------------------------------------------------------------------------

impl EllipticCurve {
    /// Create the curve y² = x³ + ax + b over GF(p), or `None` when p is zero
    /// or the curve is singular (4a³ + 27b² ≡ 0 mod p).
    pub fn try_new(a: i64, b: i64, p: i64) -> (r: Option<Self>)
        ensures
            r is Some <==> p != 0 && discriminant(a as int, b as int, p as int) != 0,
            r matches Some(c) ==> c.a == a && c.b == b && c.p == p,
    {
        if p == 0 {
            return None;
        }
        let a3 = mul_mod(mul_mod(a, a, p), a, p);
        let b2 = mul_mod(b, b, p);
        let disc = reduce(4 * (a3 as i128) + 27 * (b2 as i128), p);
        proof {
            let (ai, bi, pi) = (a as int, b as int, p as int);
            lemma_mul_mod(ai * ai, ai, pi);
            lemma_mul_mod(ai, ai, pi);
            assert(a3 == (ai * ai * ai) % pi);
            lemma_mul_mod(4, ai * ai * ai, pi);
            lemma_mul_mod(27, bi * bi, pi);
            lemma_add_mod(4 * (ai * ai * ai), 27 * (bi * bi), pi);
            lemma_mod_mod(4, pi);
            lemma_mod_mod(27, pi);
            lemma_add_mod(4 * (a3 as int), 27 * (b2 as int), pi);
            lemma_mul_mod(4, a3 as int, pi);
            lemma_mul_mod(27, b2 as int, pi);
            assert(disc == discriminant(ai, bi, pi));
        }
        if disc == 0 {
            None
        } else {
            Some(EllipticCurve { a, b, p })
        }
    }

    /// Create a new curve y² = x³ + ax + b over GF(p).
    ///
    /// # Panics
    /// Panics if the discriminant 4a³ + 27b² ≡ 0 (mod p) (singular curve).
    pub fn new(a: i64, b: i64, p: i64) -> (r: Self)
        requires
            p != 0,
            discriminant(a as int, b as int, p as int) != 0,
        ensures
            r.a == a && r.b == b && r.p == p,
    {
        Self::try_new(a, b, p).unwrap()
    }

    /// `x³ + ax + b mod p`.
    fn rhs(&self, x: i64) -> (r: i64)
        requires
            self.p != 0,
        ensures
            r == curve_rhs(*self, x as int),
            0 <= r < abs(self.p as int),
    {
        let p = self.p;
        let x2 = mul_mod(x, x, p);
        let ax = mul_mod(self.a, x, p);
        proof {
            assert(-0x8000_0000_0000_0000 * 0x8000_0000_0000_0000 <= (x2 as int) * (x as int)
                <= 0x8000_0000_0000_0000 * 0x8000_0000_0000_0000) by (nonlinear_arith)
                requires
                    0 <= x2 <= 0x8000_0000_0000_0000,
                    -0x8000_0000_0000_0000 <= x <= 0x8000_0000_0000_0000,
            ;
        }
        let v = (x2 as i128) * (x as i128) + (ax as i128) + (self.b as i128);
        let r = reduce(v, p);
        proof {
            let (xi, ai, bi, pi) = (x as int, self.a as int, self.b as int, p as int);
            lemma_mul_mod(xi * xi, xi, pi);
            lemma_add_mod(xi * xi * xi + ai * xi, bi, pi);
            lemma_add_mod(xi * xi * xi, ai * xi, pi);
            lemma_add_mod((x2 as int) * xi, ai * xi, pi);
            lemma_add_mod((x2 as int) * xi + (ax as int), bi, pi);
            lemma_mod_mod(ai * xi, pi);
            lemma_add_mod((x2 as int) * xi, ax as int, pi);
            assert(r == curve_rhs(*self, xi));
        }
        r
    }

    /// Check if a point lies on the curve.
    pub fn is_on_curve(&self, point: &Point) -> (r: bool)
        requires
            !point.is_infinity ==> self.p != 0,
        ensures
            r == on_curve(*self, *point),
    {
        if point.is_infinity {
            return true;
        }
        let lhs = mul_mod(point.y, point.y, self.p);
        let rhs = self.rhs(point.x);
        lhs == rhs
    }

    /// `num · den⁻¹ mod p`, with the inverse of `mod_inverse`.
    fn divide(&self, num: i64, den: i64) -> (r: i64)
        requires
            self.p != 0,
            self.p != i64::MIN,
        ensures
            r == slope(num as int, den as int, self.p as int),
            0 <= r < abs(self.p as int),
    {
        let inv = mod_inverse(den, self.p);
        mul_mod(num, inv, self.p)
    }

    /// Point addition using the chord-tangent construction.
    ///
    /// If P = Q, uses the tangent line (doubling).
    /// If P = -Q, returns the point at infinity.
    /// If one point is infinity, returns the other.
    pub fn add(&self, p1: &Point, p2: &Point) -> (r: Point)
        requires
            !p1.is_infinity && !p2.is_infinity ==> self.p != 0 && self.p != i64::MIN,
        ensures
            r == add_spec(*self, *p1, *p2),
    {
        if p1.is_infinity {
            return *p2;
        }
        if p2.is_infinity {
            return *p1;
        }
        if p1.x == p2.x && p1.y != p2.y {
            return Point::infinity();
        }
        if *p1 == *p2 && p1.y == 0 {
            return Point::infinity();
        }
        let p = self.p;
        let (x1, y1, x2, y2) = (p1.x as i128, p1.y as i128, p2.x as i128, p2.y as i128);
        let lambda = if *p1 == *p2 {
            // Tangent: λ = (3x₁² + a) / (2y₁)
            let sq = mul_mod(p1.x, p1.x, p);
            let num = reduce(3 * (sq as i128) + (self.a as i128), p);
            let den = reduce(2 * y1, p);
            proof {
                let (xi, ai, pi) = (p1.x as int, self.a as int, p as int);
                lemma_mul_mod(3, xi * xi, pi);
                lemma_mod_mod(3, pi);
                lemma_mul_mod(3, sq as int, pi);
                lemma_add_mod(3 * (xi * xi), ai, pi);
                lemma_add_mod(3 * (sq as int), ai, pi);
                assert(num == (3 * (xi * xi) + ai) % pi);
            }
            self.divide(num, den)
        } else {
            // Chord: λ = (y₂ - y₁) / (x₂ - x₁)
            let num = reduce(y2 - y1, p);
            let den = reduce(x2 - x1, p);
            self.divide(num, den)
        };
        let l = lambda as i128;
        proof {
            assert(0 <= l * l <= 0x8000_0000_0000_0000 * 0x8000_0000_0000_0000) by (nonlinear_arith)
                requires
                    0 <= l <= 0x8000_0000_0000_0000,
            ;
        }
        let x3 = reduce(l * l - x1 - x2, p);
        let d = x1 - (x3 as i128);
        proof {
            assert(-0x7fff_ffff_ffff_ffff * 0x1_0000_0000_0000_0000 <= l * d
                <= 0x7fff_ffff_ffff_ffff * 0x1_0000_0000_0000_0000) by (nonlinear_arith)
                requires
                    0 <= l <= 0x7fff_ffff_ffff_ffff,
                    -0x1_0000_0000_0000_0000 <= d <= 0x1_0000_0000_0000_0000,
            ;
        }
        let y3 = reduce(l * d - y1, p);
        Point::new(x3, y3)
    }

    /// Compress a point to a single x-coordinate and a sign bit.
    ///
    /// Returns `(x, is_y_odd)`.
    pub fn compress(&self, point: &Point) -> (r: Option<(i64, bool)>)
        ensures
            r == compress_spec(*point),
    {
        if point.is_infinity {
            return None;
        }
        let is_odd = trunc_rem_exec(point.y as i128, 2) != 0;
        proof {
            lemma_trunc_rem_two(point.y as int);
        }
        Some((point.x, is_odd))
    }

    /// Decompress a point from an x-coordinate and sign bit.
    pub fn decompress(&self, x: i64, is_y_odd: bool) -> (r: Option<Point>)
        requires
            is_prime(self.p as int),
        ensures
            r == decompress_spec(*self, x as int, is_y_odd),
            r matches Some(pt) ==> {
                &&& pt.x == x
                &&& !pt.is_infinity
                &&& 0 <= pt.y < self.p
                &&& on_curve(*self, pt)
                &&& self.p != 2 ==> ((pt.y as int) % 2 == 1) == is_y_odd || pt.y == 0
                &&& self.p == 2 ==> pt.y == curve_rhs(*self, x as int)
            },
    {
        let p = self.p;
        let rhs = self.rhs(x);
        proof {
            lemma_mod_small(rhs as int, p as int);
        }
        let y = match mod_sqrt(rhs, p) {
            Some(y) => y,
            None => {
                return None;
            },
        };
        proof {
            if p == 2 {
                lemma_trunc_div_rem(rhs as int, 2);
                lemma_mod_small(rhs as int, 2);
                assert(y == rhs);
            }
            lemma_trunc_rem_two(y as int);
        }
        let y_odd = trunc_rem_exec(y as i128, 2) != 0;
        let y_final = if y_odd == is_y_odd {
            y
        } else {
            reduce((p - y) as i128, p)
        };
        proof {
            let (pi, yi) = (p as int, y as int);
            lemma_negated_root(yi, pi);
            if y_odd != is_y_odd {
                if yi == 0 {
                    lemma_mod_small(0, pi);
                    assert(pi % pi == 0) by {
                        vstd::arithmetic::div_mod::lemma_mod_self_0(pi);
                    }
                } else {
                    lemma_mod_small(pi - yi, pi);
                    if p != 2 {
                        crate::modular::lemma_odd_prime(pi);
                        lemma_parity_of_complement(yi, pi);
                    } else {
                        assert(yi == 1);
                    }
                }
            }
        }
        proof {
            let (pi, yi, yf) = (p as int, y as int, y_final as int);
            if p == 2 {
                assert(rhs == 0 || rhs == 1);
                assert(yi * yi == yi) by (nonlinear_arith)
                    requires
                        yi == 0 || yi == 1,
                ;
                lemma_mod_small(yi, 2);
            }
            assert((yi * yi) % pi == rhs);
            assert(0 <= yf < pi);
            assert((yf * yf) % pi == rhs);
            if p != 2 {
                assert(is_parity_root(yf, rhs as int, pi, is_y_odd));
                let w = parity_root(rhs as int, pi, is_y_odd);
                assert(is_parity_root(w, rhs as int, pi, is_y_odd));
                crate::modular::lemma_odd_prime(pi);
                lemma_parity_root_unique(w, yf, rhs as int, pi, is_y_odd);
                assert(is_square_mod(rhs as int, pi)) by {
                    assert(((yf * yf) % pi) == (rhs as int) % pi);
                }
            }
        }
        let point = Point::new(x, y_final);
        Some(point)
    }

    /// Find all points on the curve (enumeration).
    pub fn all_points(&self) -> (r: Vec<Point>)
        requires
            self.p <= 0 || is_prime(self.p as int),
        ensures
            exists|ys: Seq<int>|
                #[trigger] roots_valid(*self, ys) && r@ == points_listing(*self, ys, self.p as int),
            r@.len() == curve_order_spec(*self),
            forall|i: int| 0 <= i < r@.len() ==> #[trigger] is_curve_point(*self, r@[i]),
            forall|pt: Point| #[trigger] is_curve_point(*self, pt) ==> r@.contains(pt),
            self.p != 2 ==> forall|i: int, j: int| 0 <= i < j < r@.len() ==> r@[i] != r@[j],
            self.p > 2 ==> r@ == points_listing(*self, listed_roots(*self), self.p as int),
    {
        let mut points = vec![Point::infinity()];
        let ghost mut ys: Seq<int> = Seq::empty();
        let mut x: i64 = 0;
        while x < self.p
            invariant
                self.p <= 0 || is_prime(self.p as int),
                0 <= x,
                self.p > 0 ==> x <= self.p,
                self.p <= 0 ==> x == 0,
                ys.len() == x,
                forall|v: int|
                    0 <= v < x && curve_rhs(*self, v) != 0 && mod_pow_spec(
                        curve_rhs(*self, v),
                        (self.p - 1) / 2,
                        self.p as int,
                    ) == 1 ==> 0 <= #[trigger] ys[v] < self.p && (ys[v] * ys[v]) % (self.p as int)
                        == curve_rhs(*self, v),
                points@ == points_listing(*self, ys, x as int),
                self.p > 2 ==> forall|v: int|
                    0 <= v < x ==> #[trigger] ys[v] == sqrt_root(curve_rhs(*self, v), self.p as int),
            decreases self.p - x,
        {
            let ghost ys_before = ys;
            let rhs = self.rhs(x);
            let ghost mut y_chosen: int = sqrt_root(rhs as int, self.p as int);
            proof {
                if rhs == 0 {
                    lemma_mod_small(0, self.p as int);
                }
            }
            if rhs == 0 {
                points.push(Point::new(x, 0));
            } else {
                let half = (((self.p - 1) as u64) / 2) as i64;
                let legendre = mod_pow(rhs, half, self.p);
                if legendre == 1 {
                    proof {
                        lemma_mod_small(rhs as int, self.p as int);
                        if self.p == 2 {
                            lemma_trunc_div_rem(rhs as int, 2);
                        }
                    }
                    let y = mod_sqrt(rhs, self.p).unwrap();
                    proof {
                        y_chosen = y as int;
                        if self.p == 2 {
                            lemma_mod_small(rhs as int, 2);
                            assert(y == rhs);
                            assert(rhs == 1);
                            assert((y as int) * (y as int) == 1) by (nonlinear_arith)
                                requires
                                    y == 1,
                            ;
                            lemma_mod_small(1, 2);
                        }
                    }
                    points.push(Point::new(x, y));
                    points.push(Point::new(x, reduce((self.p - y) as i128, self.p)));
                }
            }
            proof {
                if self.p > 2 {
                    assert(y_chosen == sqrt_root(curve_rhs(*self, x as int), self.p as int));
                }
                ys = ys.push(y_chosen);
                assert forall|v: int| 0 <= v < x implies #[trigger] ys[v] == ys_before[v] by {}
                assert(points_listing(*self, ys, x as int) == points_listing(*self, ys_before, x as int)) by {
                    lemma_points_listing_prefix(*self, ys_before, ys, x as int);
                }
            }
            x += 1;
        }
        proof {
            let n = if self.p > 0 { self.p as int } else { 0 };
            assert(x == n);
            if self.p > 2 {
                assert(ys =~= listed_roots(*self));
            }
            lemma_points_listing_len(*self, ys, self.p as int);
            assert(roots_valid(*self, ys));
            if self.p <= 0 {
                assert(points_listing(*self, ys, self.p as int) == points_listing(*self, ys, 0));
            }
            assert forall|i: int| 0 <= i < points@.len() implies #[trigger] is_curve_point(
                *self,
                points@[i],
            ) by {
                if self.p > 0 {
                    lemma_points_listing_sound(*self, ys, self.p as int, i);
                } else {
                    assert(points@ == seq![infinity_point()]);
                }
            }
            if self.p > 0 && self.p != 2 {
                lemma_points_listing_distinct(*self, ys, self.p as int);
            }
            assert forall|pt: Point| #[trigger] is_curve_point(*self, pt) implies points@.contains(pt) by {
                if self.p > 0 {
                    lemma_points_listing_complete(*self, ys, pt);
                } else {
                    assert(points@[0] == infinity_point());
                }
            }
        }
        points
    }

    /// Compute the order of the curve (number of rational points) via enumeration.
    ///
    /// Note: O(√p) Schoof's algorithm is not implemented; this uses direct enumeration.
    pub fn curve_order(&self) -> (r: i64)
        requires
            curve_order_spec(*self) <= i64::MAX,
        ensures
            r == curve_order_spec(*self),
    {
        let mut count: i64 = 1;  // point at infinity
        let mut x: i64 = 0;
        while x < self.p
            invariant
                0 <= x,
                self.p > 0 ==> x <= self.p,
                self.p <= 0 ==> x == 0,
                count == count_below(*self, x as int),
                curve_order_spec(*self) <= i64::MAX,
            decreases self.p - x,
        {
            proof {
                lemma_count_below_monotone(*self, x + 1, self.p as int);
            }
            let rhs = self.rhs(x);
            if rhs == 0 {
                count += 1;  // (x, 0)
            } else {
                // Check if rhs is a quadratic residue
                let half = (((self.p - 1) as u64) / 2) as i64;
                let legendre = mod_pow(rhs, half, self.p);
                if legendre == 1 {
                    count += 2;  // (x, y) and (x, -y)
                }
            }
            x += 1;
        }
        count
    }

    /// Compute the order of a point (smallest n > 0 such that nP = O).
    ///
    /// The multiples P, 2P, 3P, ... are walked up to the curve order N. On a
    /// non-singular curve over an odd prime field every curve point has an
    /// order no larger than N; for other inputs, should no multiple up to N
    /// be the point at infinity, N is returned.
    pub fn point_order(&self, point: &Point) -> (r: i64)
        requires
            !point.is_infinity ==> self.p != 0 && self.p != i64::MIN,
            curve_order_spec(*self) <= i64::MAX,
        ensures
            point.is_infinity ==> r == 1,
            !point.is_infinity && vanishes_within(*self, *point, curve_order_spec(*self))
                ==> is_order(*self, *point, r as int),
            !point.is_infinity && !vanishes_within(*self, *point, curve_order_spec(*self))
                ==> r == curve_order_spec(*self),
            is_prime(self.p as int) && self.p != 2 && discriminant(
                self.a as int,
                self.b as int,
                self.p as int,
            ) != 0 && is_curve_point(*self, *point) ==> is_order(*self, *point, r as int) && r
                <= curve_order_spec(*self),
    {
        if point.is_infinity {
            proof {
                reveal_with_fuel(repeated_add, 2);
                lemma_count_below_positive(*self, self.p as int);
            }
            return 1;
        }
        let curve_order = self.curve_order();
        proof {
            if is_prime(self.p as int) && self.p != 2 && discriminant(
                self.a as int,
                self.b as int,
                self.p as int,
            ) != 0 && is_curve_point(*self, *point) {
                crate::cancellation::lemma_order_exists(*self, *point);
            }
        }
        proof {
            lemma_count_below_positive(*self, self.p as int);
        }
        let (m, multiple) = self.walk_multiples(point, curve_order as u64);
        if multiple.is_infinity {
            proof {
                let mi = m as int;
                assert(0 < mi <= curve_order && repeated_add(*self, *point, mi as nat).is_infinity);
                assert(vanishes_within(*self, *point, curve_order as int));
            }
            m as i64
        } else {
            proof {
                let n = curve_order as int;
                assert(m == n);
                assert forall|j: int| 0 < j <= n implies !(#[trigger] repeated_add(
                    *self,
                    *point,
                    j as nat,
                )).is_infinity by {
                    if j < n {
                        assert(0 < j < m);
                    }
                }
            }
            curve_order
        }
    }

    /// Walks the multiples P, 2P, 3P, ... by adding P each time, and stops at
    /// the first one that is the point at infinity, or at `bound`·P.
    fn walk_multiples(&self, point: &Point, bound: u64) -> (r: (u64, Point))
        requires
            !point.is_infinity,
            self.p != 0,
            self.p != i64::MIN,
            bound >= 1,
        ensures
            1 <= r.0 <= bound,
            r.1 == repeated_add(*self, *point, r.0 as nat),
            r.0 < bound ==> r.1.is_infinity,
            forall|m: int| 0 < m < r.0 ==> !(#[trigger] repeated_add(*self, *point, m as nat)).is_infinity,
    {
        let mut acc = *point;
        let mut i: u64 = 1;
        proof {
            reveal_with_fuel(repeated_add, 2);
        }
        while i < bound && !acc.is_infinity
            invariant
                !point.is_infinity,
                self.p != 0,
                self.p != i64::MIN,
                1 <= i <= bound,
                acc == repeated_add(*self, *point, i as nat),
                forall|m: int| 0 < m < i ==> !(#[trigger] repeated_add(*self, *point, m as nat)).is_infinity,
            decreases bound - i,
        {
            acc = self.add(&acc, point);
            i += 1;
            proof {
                assert(acc == repeated_add(*self, *point, i as nat));
            }
        }
        (i, acc)
    }

    /// nP, by n additions of P starting from the point at infinity.
    fn multiple(&self, point: &Point, n: u64) -> (r: Point)
        requires
            !point.is_infinity,
            self.p != 0,
            self.p != i64::MIN,
        ensures
            r == repeated_add(*self, *point, n as nat),
    {
        let mut acc = Point::infinity();
        let mut i: u64 = 0;
        while i < n
            invariant
                !point.is_infinity,
                self.p != 0,
                self.p != i64::MIN,
                i <= n,
                acc == repeated_add(*self, *point, i as nat),
            decreases n - i,
        {
            acc = self.add(&acc, point);
            i += 1;
        }
        acc
    }

    /// Scalar multiplication: kP = P + P + ... + P (k times), and
    /// |k|·(-P) for negative k.
    ///
    /// The multiples of P are walked until one is the point at infinity;
    /// from there they repeat, so only k mod (order of P) further additions
    /// are made.
    pub fn scalar_mul(&self, point: &Point, k: i64) -> (r: Point)
        requires
            !point.is_infinity && k != 0 ==> self.p != 0 && self.p != i64::MIN,
        ensures
            r == scalar_mul_spec(*self, *point, k as int),
    {
        if k == 0 || point.is_infinity {
            return Point::infinity();
        }
        let (base, n): (Point, u64) = if k > 0 {
            (*point, k as u64)
        } else {
            (point.negate(self.p), (-(k as i128)) as u64)
        };
        let (m, multiple) = self.walk_multiples(&base, n);
        if m == n {
            return multiple;
        }
        proof {
            lemma_repeated_add_periodic(*self, base, m as nat, n as nat);
        }
        self.multiple(&base, n % m)
    }
}

} // verus!
