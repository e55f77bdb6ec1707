//! Modular arithmetic over the integers: reduction, exponentiation,
//! the extended Euclidean algorithm, inverses and square roots.
//!
//! All specifications are stated over mathematical integers. The `%` of
//! specifications is the Euclidean remainder (it lies between 0 and |m| - 1), which is
//! what `i64::rem_euclid` computes.
use vstd::arithmetic::div_mod::*;
use vstd::arithmetic::mul::*;
use vstd::arithmetic::power::*;
use crate::residues::{is_square_mod, lemma_non_residue_exists, lemma_square_passes_euler};
use vstd::prelude::*;

verus! {

// ---------------------------------------------------------------------------
// Basic specifications
// ---------------------------------------------------------------------------

/// Whether an integer is representable as an `i64`.
pub open spec fn fits_i64(v: int) -> bool {
    i64::MIN <= v <= i64::MAX
}

/// Absolute value.
pub open spec fn abs(v: int) -> int {
    if v < 0 { -v } else { v }
}

/// Quotient of Rust's `/` on signed integers: rounds toward zero.
pub open spec fn trunc_div(x: int, d: int) -> int {
    if (x >= 0) == (d > 0) {
        abs(x) / abs(d)
    } else {
        -(abs(x) / abs(d))
    }
}

/// Remainder of Rust's `%` on signed integers: takes the sign of `x`.
pub open spec fn trunc_rem(x: int, d: int) -> int {
    x - d * trunc_div(x, d)
}

/// `d` divides `x`.
pub open spec fn divides(d: int, x: int) -> bool {
    exists|k: int| #[trigger] (d * k) == x
}

/// `p` is a prime number.
pub open spec fn is_prime(p: int) -> bool {
    &&& p > 1
    &&& forall|d: int| 1 < d < p ==> #[trigger] (p % d) != 0
}

// ---------------------------------------------------------------------------
// Lemmas on remainders for any non-zero modulus
// ---------------------------------------------------------------------------

/// A Euclidean remainder by `m` is the remainder by `|m|`.
pub proof fn lemma_mod_abs(x: int, m: int)
    requires
        m != 0,
    ensures
        x % m == x % abs(m),
        0 <= x % m < abs(m),
{
    if m < 0 {
        lemma_fundamental_div_mod(x, m);
        assert(x == (-(x / m)) * (-m) + x % m) by (nonlinear_arith)
            requires
                x == m * (x / m) + (x % m),
        ;
        assert(0 <= x % m < -m);
        lemma_fundamental_div_mod_converse(x, -m, -(x / m), x % m);
    } else {
        lemma_mod_bound(x, m);
    }
}

/// Multiplication commutes with reduction, for any non-zero modulus.
pub proof fn lemma_mul_mod(x: int, y: int, m: int)
    requires
        m != 0,
    ensures
        ((x % m) * (y % m)) % m == (x * y) % m,
        ((x % m) * y) % m == (x * y) % m,
        (x * (y % m)) % m == (x * y) % m,
{
    let n = abs(m);
    lemma_mod_abs(x, m);
    lemma_mod_abs(y, m);
    lemma_mod_abs(x * y, m);
    lemma_mod_abs((x % m) * (y % m), m);
    lemma_mod_abs((x % m) * y, m);
    lemma_mod_abs(x * (y % m), m);
    lemma_mul_mod_noop_general(x, y, n);
}

/// Addition commutes with reduction, for any non-zero modulus.
pub proof fn lemma_add_mod(x: int, y: int, m: int)
    requires
        m != 0,
    ensures
        ((x % m) + (y % m)) % m == (x + y) % m,
        ((x % m) + y) % m == (x + y) % m,
        (x + (y % m)) % m == (x + y) % m,
        ((x % m) - (y % m)) % m == (x - y) % m,
        ((x % m) - y) % m == (x - y) % m,
        (x - (y % m)) % m == (x - y) % m,
{
    let n = abs(m);
    lemma_mod_abs(x, m);
    lemma_mod_abs(y, m);
    lemma_mod_abs(x + y, m);
    lemma_mod_abs(x - y, m);
    lemma_mod_abs((x % m) + (y % m), m);
    lemma_mod_abs((x % m) + y, m);
    lemma_mod_abs(x + (y % m), m);
    lemma_mod_abs((x % m) - (y % m), m);
    lemma_mod_abs((x % m) - y, m);
    lemma_mod_abs(x - (y % m), m);
    lemma_add_mod_noop(x, y, n);
    lemma_add_mod_noop_right(x, y, n);
    lemma_sub_mod_noop(x, y, n);
    lemma_sub_mod_noop_right(x, y, n);
    lemma_mod_twice(x, n);
    lemma_mod_twice(y, n);
    lemma_add_mod_noop(x % n, y, n);
    lemma_add_mod_noop(x, y % n, n);
    lemma_sub_mod_noop(x % n, y, n);
    lemma_sub_mod_noop(x, y % n, n);
}

/// Reducing twice is reducing once.
pub proof fn lemma_mod_mod(x: int, m: int)
    requires
        m != 0,
    ensures
        (x % m) % m == x % m,
{
    lemma_mod_abs(x, m);
    lemma_mod_abs(x % m, m);
    lemma_mod_twice(x, abs(m));
}

/// A value from 0 to |m| - 1 is its own remainder.
pub proof fn lemma_mod_small(x: int, m: int)
    requires
        m != 0,
        0 <= x < abs(m),
    ensures
        x % m == x,
{
    lemma_mod_abs(x, m);
    lemma_small_mod(x as nat, abs(m) as nat);
}

// ---------------------------------------------------------------------------
// Executable reduction
// ---------------------------------------------------------------------------

/// The Euclidean remainder of a wide value: what `rem_euclid` computes.
pub fn reduce(v: i128, m: i64) -> (r: i64)
    requires
        m != 0,
        v > i128::MIN,
    ensures
        r == (v as int) % (m as int),
        0 <= r < abs(m as int),
{
    proof {
        lemma_mod_abs(v as int, m as int);
    }
    let w = v.checked_rem_euclid(m as i128).unwrap();
    w as i64
}

/// `(x * y) mod m`, computed without overflow.
pub fn mul_mod(x: i64, y: i64, m: i64) -> (r: i64)
    requires
        m != 0,
    ensures
        r == ((x as int) * (y as int)) % (m as int),
        0 <= r < abs(m as int),
{
    proof {
        lemma_mul_bounds_i64(x, y);
    }
    reduce((x as i128) * (y as i128), m)
}

proof fn lemma_mul_bounds_i64(x: i64, y: i64)
    ensures
        -0x4000_0000_0000_0000_0000_0000_0000_0000 <= (x as int) * (y as int)
            <= 0x4000_0000_0000_0000_0000_0000_0000_0000,
{
    assert(-0x4000_0000_0000_0000_0000_0000_0000_0000 <= (x as int) * (y as int)
        <= 0x4000_0000_0000_0000_0000_0000_0000_0000) by (nonlinear_arith)
        requires
            -0x8000_0000_0000_0000 <= x <= 0x7fff_ffff_ffff_ffff,
            -0x8000_0000_0000_0000 <= y <= 0x7fff_ffff_ffff_ffff,
    ;
}


// ---------------------------------------------------------------------------
// Modular exponentiation
// ---------------------------------------------------------------------------

/// What `mod_pow(base, exp, modulus)` returns: `base^exp mod modulus` for a
/// positive exponent, `1` for an exponent that is not positive, and `0`
/// whenever the modulus is `1`.
pub open spec fn mod_pow_spec(base: int, exp: int, modulus: int) -> int {
    if modulus == 1 {
        0
    } else if exp <= 0 {
        1
    } else {
        pow(base, exp as nat) % modulus
    }
}

/// One step of square-and-multiply keeps `result * b^e (mod n)` unchanged.
proof fn lemma_square_multiply_step(result: int, b: int, e: int, n: int)
    requires
        n > 0,
        e > 0,
    ensures
        ((if e % 2 == 1 { (result * b) % n } else { result }) * pow((b * b) % n, (e / 2) as nat))
            % n == (result * pow(b, e as nat)) % n,
{
    let k = (e / 2) as nat;
    let bit = (e % 2) as nat;
    let y = pow(b * b, k);
    assert(e == 2 * k + bit);
    lemma_pow_adds(b, 2 * k, bit);
    lemma_pow_multiplies(b, 2, k);
    reveal_with_fuel(pow, 3);
    assert(pow(b, 2) == b * b);
    assert(pow(b, e as nat) == y * pow(b, bit));
    lemma_pow_mod_noop(b * b, k, n);
    let yr = pow((b * b) % n, k);
    assert(yr % n == y % n);
    let r2 = if e % 2 == 1 { (result * b) % n } else { result };
    lemma_mul_mod_noop_right(r2, yr, n);
    lemma_mul_mod_noop_right(r2, y, n);
    assert((r2 * yr) % n == (r2 * y) % n);
    if e % 2 == 1 {
        assert(pow(b, bit) == b);
        lemma_mul_mod_noop_left(result * b, y, n);
        lemma_mul_is_associative(result, b, y);
        lemma_mul_is_commutative(b, y);
        assert((r2 * y) % n == (result * (y * b)) % n);
    } else {
        assert(pow(b, bit) == 1);
        assert(pow(b, e as nat) == y);
    }
}

/// Modular exponentiation via repeated squaring.
pub fn mod_pow(base: i64, exp: i64, modulus: i64) -> (r: i64)
    requires
        modulus != 0,
    ensures
        r == mod_pow_spec(base as int, exp as int, modulus as int),
        modulus != 1 ==> 0 <= r < abs(modulus as int) || (r == 1 && exp <= 0),
{
    if modulus == 1 {
        return 0;
    }
    let n: i128 = if modulus < 0 { -(modulus as i128) } else { modulus as i128 };
    let mut result: i128 = 1;
    let mut b: i128 = reduce(base as i128, modulus) as i128;
    let mut e: i64 = exp;
    proof {
        lemma_mod_abs(base as int, modulus as int);
        if exp > 0 {
            lemma_pow_mod_noop(base as int, exp as nat, n as int);
            assert(b == (base as int) % (n as int));
            assert(1 * pow(b as int, e as nat) == pow(b as int, e as nat));
        }
    }
    while e > 0
        invariant
            n == abs(modulus as int),
            n >= 1,
            n <= 0x8000_0000_0000_0000,
            0 <= b < n,
            0 <= result,
            result < n || (result == 1 && (e > 0 || exp <= 0)),
            e <= exp,
            exp > 0 ==> e >= 0,
            exp <= 0 ==> result == 1,
            exp > 0 ==> (result * pow(b as int, e as nat)) % (n as int) == pow(
                base as int,
                exp as nat,
            ) % (n as int),
        decreases e,
    {
        proof {
            lemma_square_multiply_step(result as int, b as int, e as int, n as int);
            assert(result * b <= 0x8000_0000_0000_0000 * 0x8000_0000_0000_0000) by (nonlinear_arith)
                requires
                    0 <= result <= 0x8000_0000_0000_0000,
                    0 <= b <= 0x8000_0000_0000_0000,
            ;
            assert(b * b <= 0x8000_0000_0000_0000 * 0x8000_0000_0000_0000) by (nonlinear_arith)
                requires
                    0 <= b <= 0x8000_0000_0000_0000,
            ;
            lemma_mod_bound((b * b) as int, n as int);
        }
        if e % 2 == 1 {
            proof {
                lemma_mod_bound((result * b) as int, n as int);
            }
            result = (result * b) % n;
        }
        b = (b * b) % n;
        e = e / 2;
    }
    proof {
        if exp > 0 {
            reveal(pow);
            assert(pow(b as int, 0) == 1);
            assert(result < n);
            assert(result * pow(b as int, e as nat) == result);
            lemma_small_mod(result as nat, n as nat);
            lemma_mod_abs(pow(base as int, exp as nat), modulus as int);
            assert(result == pow(base as int, exp as nat) % (modulus as int));
        }
    }
    result as i64
}

// ---------------------------------------------------------------------------
// Truncating division
// ---------------------------------------------------------------------------

/// The facts about Rust's truncating `/` and `%` that the Euclidean algorithm uses.
pub proof fn lemma_trunc_div_rem(x: int, d: int)
    requires
        d != 0,
    ensures
        x == d * trunc_div(x, d) + trunc_rem(x, d),
        abs(trunc_rem(x, d)) < abs(d),
        abs(trunc_div(x, d)) == abs(x) / abs(d),
        abs(trunc_rem(x, d)) == abs(x) % abs(d),
        abs(x) == abs(trunc_div(x, d)) * abs(d) + abs(trunc_rem(x, d)),
        trunc_rem(x, d) * x >= 0,
        trunc_rem(x, d) == (if x >= 0 { abs(x) % abs(d) } else { -(abs(x) % abs(d)) }),
        trunc_div(x, d) * x * d >= 0,
        x >= 0 && d > 0 ==> trunc_div(x, d) == x / d && trunc_rem(x, d) == x % d,
{
    let ax = abs(x);
    let ad = abs(d);
    let q = ax / ad;
    let r = ax % ad;
    lemma_fundamental_div_mod(ax, ad);
    lemma_mod_bound(ax, ad);
    lemma_div_pos_is_pos(ax, ad);
    assert(ax == ad * q + r);
    if x >= 0 && d > 0 {
        assert(trunc_rem(x, d) == r);
    } else if x < 0 && d < 0 {
        assert(trunc_div(x, d) == q);
        assert(trunc_rem(x, d) == x - d * q);
        assert(x - d * q == -r) by (nonlinear_arith)
            requires
                ax == -x,
                ad == -d,
                ax == ad * q + r,
        ;
    } else if x < 0 {
        assert(trunc_div(x, d) == -q);
        assert(x - d * (-q) == -r) by (nonlinear_arith)
            requires
                ax == -x,
                ad == d,
                ax == ad * q + r,
        ;
    } else {
        assert(trunc_div(x, d) == -q);
        assert(x - d * (-q) == r) by (nonlinear_arith)
            requires
                ax == x,
                ad == -d,
                ax == ad * q + r,
        ;
    }
    assert(trunc_div(x, d) * x * d >= 0) by (nonlinear_arith)
        requires
            q >= 0,
            (x >= 0) == (d > 0) ==> trunc_div(x, d) == q,
            (x >= 0) != (d > 0) ==> trunc_div(x, d) == -q,
            d != 0,
    ;
    assert(ax == q * ad + r) by (nonlinear_arith)
        requires
            ax == ad * q + r,
    ;
    assert(trunc_rem(x, d) * x >= 0) by (nonlinear_arith)
        requires
            x >= 0 ==> trunc_rem(x, d) >= 0,
            x < 0 ==> trunc_rem(x, d) <= 0,
    ;
}

/// Rust's `%` on `i128`, as `trunc_rem`.
pub fn trunc_rem_exec(x: i128, d: i128) -> (r: i128)
    requires
        d != 0,
        x > i128::MIN,
    ensures
        r == trunc_rem(x as int, d as int),
{
    proof {
        lemma_trunc_div_rem(x as int, d as int);
        let ax = abs(x as int);
        let ad = abs(d as int);
        if x < 0 && d < 0 {
            assert(x * -1 == ax && d * -1 == ad);
        } else if x < 0 {
            assert(x * -1 == ax);
        } else if d < 0 && x > 0 {
            assert(d * -1 == ad);
        }
    }
    x.checked_rem(d).unwrap()
}

/// Rust's `/` on `i128`, as `trunc_div`.
pub fn trunc_div_exec(x: i128, d: i128) -> (r: i128)
    requires
        d != 0,
        x > i128::MIN,
    ensures
        r == trunc_div(x as int, d as int),
{
    proof {
        lemma_trunc_div_rem(x as int, d as int);
        let ax = abs(x as int);
        let ad = abs(d as int);
        lemma_div_pos_is_pos(ax, ad);
        assert(ax / ad <= ax) by {
            lemma_div_is_ordered_by_denominator(ax, 1, ad);
        }
        if x < 0 && d < 0 {
            assert(x * -1 == ax && d * -1 == ad);
        } else if x < 0 {
            assert(x * -1 == ax);
        } else if d < 0 && x > 0 {
            assert(d * -1 == ad);
        }
    }
    x.checked_div(d).unwrap()
}

// ---------------------------------------------------------------------------
// Extended Euclidean algorithm
// ---------------------------------------------------------------------------

/// What `extended_gcd(a, b)` returns, by the recursion it performs with
/// Rust's truncating division.
pub open spec fn egcd(a: int, b: int) -> (int, int, int)
    decreases abs(a),
{
    if a == 0 {
        (b, 0, 1)
    } else {
        proof {
            lemma_trunc_div_rem(b, a);
        }
        let t = egcd(trunc_rem(b, a), a);
        (t.0, t.2 - trunc_div(b, a) * t.1, t.1)
    }
}

/// Every triple of the recursion `extended_gcd(a, b)` goes through fits in `i64`.
pub open spec fn egcd_fits(a: int, b: int) -> bool
    decreases abs(a),
{
    &&& fits_i64(egcd(a, b).0)
    &&& fits_i64(egcd(a, b).1)
    &&& fits_i64(egcd(a, b).2)
    &&& (a != 0 ==> {
        proof {
            lemma_trunc_div_rem(b, a);
        }
        egcd_fits(trunc_rem(b, a), a)
    })
}

/// Bezout's identity for the triple of `egcd`.
pub proof fn lemma_egcd_bezout(a: int, b: int)
    ensures
        a * egcd(a, b).1 + b * egcd(a, b).2 == egcd(a, b).0,
    decreases abs(a),
{
    if a != 0 {
        lemma_trunc_div_rem(b, a);
        let q = trunc_div(b, a);
        let r = trunc_rem(b, a);
        lemma_egcd_bezout(r, a);
        let t = egcd(r, a);
        assert(a * (t.2 - q * t.1) + b * t.1 == t.0) by (nonlinear_arith)
            requires
                r * t.1 + a * t.2 == t.0,
                b == a * q + r,
        ;
    }
}

/// Larger of two integers.
pub open spec fn max(x: int, y: int) -> int {
    if x >= y { x } else { y }
}

/// The size of the triple `egcd(a, b)` when `|a| <= |b|`: the gcd is no larger
/// than either non-zero argument, and each coefficient times the gcd is
/// bounded by an argument.
pub proof fn lemma_egcd_bound(a: int, b: int)
    requires
        abs(a) <= abs(b),
        b != 0,
    ensures
        ({
            let t = egcd(a, b);
            &&& abs(t.0) > 0
            &&& abs(t.0) <= abs(b)
            &&& (a != 0 ==> abs(t.0) <= abs(a))
            &&& abs(t.1) * abs(t.0) <= abs(b)
            &&& abs(t.2) * abs(t.0) <= max(abs(a), abs(t.0))
        }),
    decreases abs(a),
{
    if a != 0 {
        lemma_trunc_div_rem(b, a);
        let q = trunc_div(b, a);
        let r = trunc_rem(b, a);
        let t = egcd(a, b);
        if r == 0 {
            assert(egcd(r, a) == (a, 0int, 1int));
            assert(t == (a, 1int, 0int));
            assert(t.1 == 1 && t.2 == 0 && t.0 == a);
            assert(abs(t.1) * abs(t.0) == abs(a)) by (nonlinear_arith)
                requires
                    abs(t.1) == 1,
                    t.0 == a,
            ;
            assert(abs(t.2) * abs(t.0) == 0) by (nonlinear_arith)
                requires
                    abs(t.2) == 0,
            ;
        } else {
            lemma_egcd_bound(r, a);
            let s = egcd(r, a);
            let g = abs(s.0);
            assert(t == (s.0, s.2 - q * s.1, s.1));
            assert(abs(s.2 - q * s.1) * g <= abs(b)) by (nonlinear_arith)
                requires
                    g > 0,
                    abs(s.2) * g <= max(abs(r), g),
                    g <= abs(r),
                    abs(s.1) * g <= abs(a),
                    abs(b) == abs(q) * abs(a) + abs(r),
            ;
            assert(abs(s.1) * g <= max(abs(a), g));
        }
    } else {
        let t = egcd(a, b);
        assert(t == (b, 0int, 1int));
        assert(t.1 == 0 && t.2 == 1 && t.0 == b);
        assert(abs(t.1) * abs(t.0) == 0) by (nonlinear_arith)
            requires
                abs(t.1) == 0,
        ;
        assert(abs(t.2) * abs(t.0) == abs(b)) by (nonlinear_arith)
            requires
                abs(t.2) == 1,
                t.0 == b,
        ;
    }
}

/// Each triple of `extended_gcd(a, b)` fits in `i64` when neither argument is
/// `i64::MIN`.
pub proof fn lemma_egcd_fits(a: int, b: int)
    requires
        i64::MIN < a <= i64::MAX,
        i64::MIN < b <= i64::MAX,
    ensures
        egcd_fits(a, b),
    decreases abs(a),
{
    if a != 0 {
        lemma_trunc_div_rem(b, a);
        let q = trunc_div(b, a);
        let r = trunc_rem(b, a);
        lemma_egcd_fits(r, a);
        let t = egcd(a, b);
        if abs(a) <= abs(b) {
            lemma_egcd_bound(a, b);
            assert(abs(t.1) <= abs(t.1) * abs(t.0)) by (nonlinear_arith)
                requires
                    abs(t.0) >= 1,
            ;
            assert(abs(t.2) <= abs(t.2) * abs(t.0)) by (nonlinear_arith)
                requires
                    abs(t.0) >= 1,
            ;
        } else {
            assert(abs(q) == 0) by {
                lemma_basic_div(abs(b), abs(a));
            }
            assert(q == 0);
            assert(r == b - a * 0);
            let s = egcd(b, a);
            assert(t == (s.0, s.2 - q * s.1, s.1));
            assert(q * s.1 == 0);
            assert(t == (s.0, s.2, s.1));
            if b != 0 {
                lemma_egcd_bound(b, a);
                assert(abs(s.1) <= abs(s.1) * abs(s.0)) by (nonlinear_arith)
                    requires
                        abs(s.0) >= 1,
                ;
                assert(abs(s.2) <= abs(s.2) * abs(s.0)) by (nonlinear_arith)
                    requires
                        abs(s.0) >= 1,
                ;
            } else {
                assert(s == (a, 0int, 1int));
            }
        }
    }
}

/// Extended GCD: returns (gcd, x, y) such that a*x + b*y = gcd.
pub fn extended_gcd(a: i64, b: i64) -> (r: (i64, i64, i64))
    requires
        egcd_fits(a as int, b as int),
    ensures
        r.0 == egcd(a as int, b as int).0,
        r.1 == egcd(a as int, b as int).1,
        r.2 == egcd(a as int, b as int).2,
        a * r.1 + b * r.2 == r.0,
    decreases abs(a as int),
{
    proof {
        lemma_egcd_bezout(a as int, b as int);
    }
    if a == 0 {
        return (b, 0, 1);
    }
    proof {
        lemma_trunc_div_rem(b as int, a as int);
    }
    let wa = a as i128;
    let wb = b as i128;
    let rem = trunc_rem_exec(wb, wa);
    let q = trunc_div_exec(wb, wa);
    let (g, x, y) = extended_gcd(rem as i64, a);
    proof {
        assert(abs(q as int) <= 0x8000_0000_0000_0000) by (nonlinear_arith)
            requires
                abs(q as int) == abs(b as int) / abs(a as int),
                abs(a as int) >= 1,
                abs(b as int) <= 0x8000_0000_0000_0000,
        ;
        assert(abs(q * x) <= 0x8000_0000_0000_0000 * 0x8000_0000_0000_0000) by (nonlinear_arith)
            requires
                abs(q as int) <= 0x8000_0000_0000_0000,
                abs(x as int) <= 0x8000_0000_0000_0000,
        ;
    }
    let ny = (y as i128) - q * (x as i128);
    (g, ny as i64, x)
}

/// Adding a multiple of the modulus does not change the remainder.
pub proof fn lemma_mod_add_multiple(x: int, k: int, m: int)
    requires
        m != 0,
    ensures
        (x + m * k) % m == x % m,
{
    let n = abs(m);
    let j = if m < 0 { -k } else { k };
    assert(m * k == n * j) by (nonlinear_arith)
        requires
            n == abs(m),
            j == (if m < 0 { -k } else { k }),
    ;
    lemma_mod_multiples_vanish(j, x, n);
    lemma_mod_abs(x + m * k, m);
    lemma_mod_abs(x, m);
}

/// The first component of `egcd(a, b)` divides both arguments.
pub proof fn lemma_egcd_divides(a: int, b: int)
    ensures
        divides(egcd(a, b).0, a),
        divides(egcd(a, b).0, b),
    decreases abs(a),
{
    let g = egcd(a, b).0;
    if a == 0 {
        assert(g * 0 == a);
        assert(g * 1 == b);
    } else {
        lemma_trunc_div_rem(b, a);
        let q = trunc_div(b, a);
        let r = trunc_rem(b, a);
        lemma_egcd_divides(r, a);
        let kr = choose|k: int| #[trigger] (g * k) == r;
        let ka = choose|k: int| #[trigger] (g * k) == a;
        assert(g * ka == a);
        assert(g * (ka * q + kr) == b) by (nonlinear_arith)
            requires
                g * ka == a,
                g * kr == r,
                b == a * q + r,
        ;
    }
}

/// For non-negative arguments, not both zero, the first component of
/// `egcd(a, b)` is positive.
pub proof fn lemma_egcd_positive(a: int, b: int)
    requires
        a >= 0,
        b >= 0,
        a > 0 || b > 0,
    ensures
        egcd(a, b).0 > 0,
    decreases a,
{
    if a != 0 {
        lemma_trunc_div_rem(b, a);
        lemma_egcd_positive(trunc_rem(b, a), a);
    }
}

/// For a prime `p` and `a` not divisible by `p`, the gcd that
/// `extended_gcd(a mod p, p)` finds is 1.
pub proof fn lemma_egcd_prime(a: int, p: int)
    requires
        is_prime(p),
        a % p != 0,
    ensures
        egcd(a % p, p).0 == 1,
{
    let ar = a % p;
    lemma_mod_bound(a, p);
    lemma_egcd_divides(ar, p);
    lemma_egcd_positive(ar, p);
    lemma_egcd_bound(ar, p);
    let g = egcd(ar, p).0;
    let k = choose|k: int| #[trigger] (g * k) == p;
    assert(g * k == p);
    if g > 1 {
        assert(g < p);
        lemma_mod_multiples_basic(k, g);
        assert(k * g == p) by (nonlinear_arith)
            requires
                g * k == p,
        ;
        assert(p % g == 0);
        assert(false);
    }
}

/// What `mod_inverse(a, m)` returns: the Bezout coefficient of `a mod m`,
/// reduced modulo `m`.
pub open spec fn mod_inverse_spec(a: int, m: int) -> int {
    egcd(a % m, m).1 % m
}

/// The inverse that `mod_inverse` finds lies between 0 and |m| - 1 and, when the
/// gcd it finds is 1, is an inverse: `a · inv ≡ 1 (mod m)`.
pub proof fn lemma_mod_inverse_spec(a: int, m: int)
    requires
        m != 0,
    ensures
        0 <= mod_inverse_spec(a, m) < abs(m),
        egcd(a % m, m).0 == 1 ==> (a * mod_inverse_spec(a, m)) % m == 1int % m,
{
    let ar = a % m;
    let t = egcd(ar, m);
    let x = t.1;
    lemma_mod_abs(x, m);
    lemma_egcd_bezout(ar, m);
    if t.0 == 1 {
        lemma_mul_mod(a, x, m);
        lemma_mod_mod(a, m);
        lemma_mul_mod(ar, x, m);
        assert(ar * x + m * t.2 == 1);
        lemma_mod_add_multiple(ar * x, t.2, m);
        assert((ar * x) % m == 1int % m);
    }
}

/// For a prime modulus, what `mod_inverse` finds for `a` not divisible by `p`
/// is its inverse: `a · inv ≡ 1 (mod p)`.
pub proof fn lemma_mod_inverse_prime(a: int, p: int)
    requires
        is_prime(p),
        a % p != 0,
    ensures
        0 < mod_inverse_spec(a, p) < p,
        (a * mod_inverse_spec(a, p)) % p == 1,
{
    lemma_egcd_prime(a, p);
    lemma_mod_inverse_spec(a, p);
    lemma_mod_small(1, p);
    if mod_inverse_spec(a, p) == 0 {
        assert(a * 0 == 0);
        lemma_mod_small(0, p);
    }
}

/// Modular inverse via extended Euclidean algorithm.
pub fn mod_inverse(a: i64, m: i64) -> (r: i64)
    requires
        m != 0,
        m == i64::MIN ==> egcd_fits((a as int) % (m as int), m as int),
    ensures
        r == mod_inverse_spec(a as int, m as int),
        0 <= r < abs(m as int),
        egcd((a as int) % (m as int), m as int).0 == 1 ==> ((a as int) * r) % (m as int) == 1int
            % (m as int),
{
    let ar = reduce(a as i128, m);
    proof {
        if m != i64::MIN {
            lemma_egcd_fits(ar as int, m as int);
        }
        lemma_mod_inverse_spec(a as int, m as int);
    }
    let (_, x, _) = extended_gcd(ar, m);
    let r = reduce(x as i128, m);
    r
}

/// A truncating remainder by two is non-zero exactly for odd numbers.
pub proof fn lemma_trunc_rem_two(y: int)
    ensures
        (trunc_rem(y, 2) != 0) == (y % 2 == 1),
{
    lemma_trunc_div_rem(y, 2);
    let r = trunc_rem(y, 2);
    let q = trunc_div(y, 2);
    assert(-1 <= r <= 1);
    lemma_mod_add_multiple(r, q, 2);
    assert(y == r + 2 * q);
    lemma_mod_bound(y, 2);
}

// ---------------------------------------------------------------------------
// Primes
// ---------------------------------------------------------------------------

/// A prime other than 2 is odd.
pub proof fn lemma_odd_prime(p: int)
    requires
        is_prime(p),
        p != 2,
    ensures
        p % 2 == 1,
{
    lemma_mod_bound(p, 2);
    assert(p % 2 != 0);
}

/// Euclid's lemma: a prime dividing a product divides one of the factors.
pub proof fn lemma_euclid(a: int, b: int, p: int)
    requires
        is_prime(p),
        (a * b) % p == 0,
    ensures
        a % p == 0 || b % p == 0,
{
    if a % p != 0 {
        let ar = a % p;
        lemma_egcd_prime(a, p);
        lemma_egcd_bezout(ar, p);
        let t = egcd(ar, p);
        // b = b·(ar·X + p·Y) = (ar·b)·X + p·(b·Y)
        assert(b == (ar * b) * t.1 + p * (b * t.2)) by (nonlinear_arith)
            requires
                ar * t.1 + p * t.2 == 1,
        ;
        lemma_mod_add_multiple((ar * b) * t.1, b * t.2, p);
        lemma_mul_mod(a, b, p);
        lemma_mod_mod(b, p);
        assert((ar * b) % p == 0);
        lemma_mul_mod(ar * b, t.1, p);
        assert(((ar * b) % p) * (t.1 % p) == 0);
        assert(0int % p == 0);
    }
}

/// In a prime field the only square roots of one are 1 and -1.
pub proof fn lemma_square_root_of_one(x: int, p: int)
    requires
        is_prime(p),
        0 <= x < p,
        (x * x) % p == 1,
    ensures
        x == 1 || x == p - 1,
{
    assert((x * x - 1) % p == 0) by {
        lemma_add_mod(x * x, -1, p);
        assert(((x * x) % p + (-1)) % p == (x * x - 1) % p);
        assert(((x * x) % p + (-1)) == 0);
    }
    assert((x - 1) * (x + 1) == x * x - 1) by (nonlinear_arith);
    lemma_euclid(x - 1, x + 1, p);
    if (x - 1) % p == 0 {
        if x == 0 {
            lemma_mod_small(p - 1, p);
            lemma_mod_add_multiple(p - 1, -1, p);
            assert(false);
        } else {
            lemma_mod_small(x - 1, p);
        }
    } else {
        if x + 1 < p {
            lemma_mod_small(x + 1, p);
        }
    }
}

// ---------------------------------------------------------------------------
// Repeated squaring modulo p
// ---------------------------------------------------------------------------

/// `x^(2^k) mod p`.
pub open spec fn pow2k_mod(x: int, k: nat, p: int) -> int {
    pow(x, pow(2, k) as nat) % p
}

/// `2^k` is positive, and `2^(k+1) = 2·2^k`.
pub proof fn lemma_pow2_facts(k: nat)
    ensures
        pow(2, k) >= 1,
        pow(2, k + 1) == 2 * pow(2, k),
{
    lemma_pow_positive(2, k);
    lemma_pow_adds(2, k, 1);
    reveal_with_fuel(pow, 2);
}

/// Squaring once more: `x^(2^(k+1)) ≡ (x^(2^k))²`.
pub proof fn lemma_pow2k_mod_step(x: int, k: nat, p: int)
    requires
        p > 0,
    ensures
        pow2k_mod(x, k + 1, p) == (pow2k_mod(x, k, p) * pow2k_mod(x, k, p)) % p,
{
    lemma_pow2_facts(k);
    let n = pow(2, k) as nat;
    assert(pow(2, k + 1) as nat == n + n);
    lemma_pow_adds(x, n, n);
    lemma_mul_mod_noop_general(pow(x, n), pow(x, n), p);
}

/// Reducing the base first changes nothing.
pub proof fn lemma_pow2k_mod_base(x: int, k: nat, p: int)
    requires
        p > 0,
    ensures
        pow2k_mod(x % p, k, p) == pow2k_mod(x, k, p),
{
    lemma_pow_mod_noop(x, pow(2, k) as nat, p);
}

/// The power of a product is the product of the powers.
pub proof fn lemma_pow2k_mod_mul(x: int, y: int, k: nat, p: int)
    requires
        p > 0,
    ensures
        pow2k_mod((x * y) % p, k, p) == (pow2k_mod(x, k, p) * pow2k_mod(y, k, p)) % p,
{
    let n = pow(2, k) as nat;
    lemma_pow2k_mod_base(x * y, k, p);
    lemma_pow_distributes(x, y, n);
    lemma_mul_mod_noop_general(pow(x, n), pow(y, n), p);
}

/// Squaring `a` times and then `b` times is squaring `a + b` times.
pub proof fn lemma_pow2k_mod_compose(x: int, a: nat, b: nat, p: int)
    requires
        p > 0,
    ensures
        pow2k_mod(pow2k_mod(x, a, p), b, p) == pow2k_mod(x, a + b, p),
    decreases b,
{
    let s = pow2k_mod(x, a, p);
    if b == 0 {
        reveal_with_fuel(pow, 2);
        assert(pow(2, 0) == 1);
        assert(pow(s, 1) == s);
        lemma_mod_bound(pow(x, pow(2, a) as nat), p);
        lemma_small_mod(s as nat, p as nat);
    } else {
        lemma_pow2k_mod_compose(x, a, (b - 1) as nat, p);
        lemma_pow2k_mod_step(s, (b - 1) as nat, p);
        lemma_pow2k_mod_step(x, (a + b - 1) as nat, p);
    }
}

/// Raising to `q` and then squaring `k` times is raising to `q·2^k`.
pub proof fn lemma_pow2k_mod_of_pow(x: int, q: nat, k: nat, p: int)
    requires
        p > 0,
    ensures
        pow2k_mod(pow(x, q) % p, k, p) == pow(x, q * (pow(2, k) as nat)) % p,
{
    lemma_pow2k_mod_base(pow(x, q), k, p);
    lemma_pow2_facts(k);
    lemma_pow_multiplies(x, q, pow(2, k) as nat);
}

/// Whether some `z` with 2 <= z < p passes Euler's test as a quadratic non-residue:
/// `z^((p-1)/2) ≡ -1 (mod p)`.
pub open spec fn has_non_residue(p: int) -> bool {
    exists|z: int| 2 <= z < p && #[trigger] mod_pow_spec(z, (p - 1) / 2, p) == p - 1
}

/// One step of Tonelli-Shanks keeps `r² ≡ n·t (mod p)`.
proof fn lemma_root_step(r: int, b: int, t: int, n: int, p: int)
    requires
        p > 0,
        (r * r) % p == (n * t) % p,
    ensures
        (((r * b) % p) * ((r * b) % p)) % p == (n * ((t * ((b * b) % p)) % p)) % p,
{
    let bb = (b * b) % p;
    lemma_mul_mod_noop_general(r * b, r * b, p);
    assert((r * b) * (r * b) == (r * r) * (b * b)) by (nonlinear_arith);
    lemma_mul_mod_noop_general(r * r, b * b, p);
    lemma_mul_mod_noop_general(n * t, b * b, p);
    assert((n * t) * (b * b) == n * (t * (b * b))) by (nonlinear_arith);
    lemma_mul_mod_noop_general(t, b * b, p);
    lemma_mul_mod_noop_general(n, t * (b * b), p);
    lemma_mul_mod_noop_general(n, t * bb, p);
    lemma_mod_twice(b * b, p);
    assert((t * bb) % p == (t * (b * b)) % p);
}

/// `(p-1)² ≡ 1 (mod p)`.
proof fn lemma_minus_one_squared(p: int)
    requires
        p > 1,
    ensures
        ((p - 1) * (p - 1)) % p == 1,
{
    assert((p - 1) * (p - 1) == 1 + p * (p - 2)) by (nonlinear_arith);
    lemma_mod_add_multiple(1, p - 2, p);
    lemma_small_mod(1, p as nat);
}

/// `p - 1 = q·2^s` with `q` odd and `s >= 1` fixes `p mod 4`.
proof fn lemma_two_adic_mod4(p: int, q: int, s: nat)
    requires
        s >= 1,
        q >= 1,
        q % 2 == 1,
        q * pow(2, s) == p - 1,
    ensures
        s == 1 ==> p % 4 == 3,
        s >= 2 ==> p % 4 == 1,
{
    if s == 1 {
        reveal_with_fuel(pow, 2);
        assert(pow(2, 1) == 2);
        let k = q / 2;
        lemma_fundamental_div_mod(q, 2);
        assert(p == 3 + 4 * k);
        lemma_mod_add_multiple(3, k, 4);
    } else {
        lemma_pow_adds(2, 2, (s - 2) as nat);
        reveal_with_fuel(pow, 3);
        assert(pow(2, 2) == 4);
        let j = q * pow(2, (s - 2) as nat);
        assert(p == 1 + 4 * j) by (nonlinear_arith)
            requires
                q * pow(2, s) == p - 1,
                pow(2, s) == 4 * pow(2, (s - 2) as nat),
                j == q * pow(2, (s - 2) as nat),
        ;
        lemma_mod_add_multiple(1, j, 4);
    }
}

/// `s < 2^s`.
proof fn lemma_pow2_exceeds(s: nat)
    ensures
        s < pow(2, s),
    decreases s,
{
    reveal(pow);
    if s > 0 {
        lemma_pow2_exceeds((s - 1) as nat);
        lemma_pow2_facts((s - 1) as nat);
    }
}

/// The exponent of 2 in `n`: `n = odd · 2^s` for `n > 0`.
pub open spec fn two_exponent(n: int) -> nat
    decreases n,
{
    if n > 0 && n % 2 == 0 {
        1 + two_exponent(n / 2)
    } else {
        0
    }
}

/// The odd part of `n`: `n / 2^s` for `n > 0`.
pub open spec fn odd_part(n: int) -> int
    decreases n,
{
    if n > 0 && n % 2 == 0 {
        odd_part(n / 2)
    } else {
        n
    }
}

/// `w` is the least `w >= 2` that Euler's test finds to be a non-residue mod p.
pub open spec fn is_least_non_residue(w: int, p: int) -> bool {
    &&& 2 <= w < p
    &&& mod_pow_spec(w, (p - 1) / 2, p) == p - 1
    &&& forall|v: int| 2 <= v < w ==> #[trigger] mod_pow_spec(v, (p - 1) / 2, p) != p - 1
}

/// The least `w >= 2` that Euler's test finds to be a non-residue mod p.
pub open spec fn least_non_residue(p: int) -> int {
    choose|w: int| is_least_non_residue(w, p)
}

/// `i` is the least `i` in `[1, m)` with `t^(2^i) ≡ 1 (mod p)`.
pub open spec fn is_least_unit_power(i: int, t: int, m: int, p: int) -> bool {
    &&& 1 <= i < m
    &&& pow2k_mod(t, i as nat, p) == 1
    &&& forall|j: int| 1 <= j < i ==> #[trigger] pow2k_mod(t, j as nat, p) != 1
}

/// The Tonelli-Shanks iteration from the state `(m, c, t, r)`: stop with `r`
/// once `t = 1`; otherwise find the least `i` with `t^(2^i) = 1`, set
/// `b = c^(2^(m-i-1))` and continue from `(i, b², t·b², r·b)`.
pub open spec fn tonelli_shanks_steps(p: int, m: int, c: int, t: int, r: int) -> int
    decreases m,
{
    if t == 1 {
        r
    } else if exists|i: int| is_least_unit_power(i, t, m, p) {
        let i = choose|i: int| is_least_unit_power(i, t, m, p);
        let b = mod_pow_spec(c, mod_pow_spec(2, m - i - 1, p - 1), p);
        let c2 = (b * b) % p;
        tonelli_shanks_steps(p, i, c2, (t * c2) % p, (r * b) % p)
    } else {
        r
    }
}

/// The square root of `n` (not a multiple of p) that Tonelli-Shanks finds for
/// a prime `p ≡ 1 (mod 4)`: with `p - 1 = q·2^s`, `q` odd, and `z` the least
/// non-residue, the iteration starts from `(s, z^q, n^q, n^((q+1)/2))`.
pub open spec fn tonelli_shanks_root(n: int, p: int) -> int {
    let q = odd_part(p - 1);
    tonelli_shanks_steps(
        p,
        two_exponent(p - 1) as int,
        mod_pow_spec(least_non_residue(p), q, p),
        mod_pow_spec(n, q, p),
        mod_pow_spec(n, (q + 1) / 2, p),
    )
}

/// The square root that `mod_sqrt` returns modulo an odd prime `p` when `n`
/// has one: zero for a multiple of p, `n^((p+1)/4) mod p` for `p ≡ 3 (mod 4)`,
/// and the Tonelli-Shanks root for `p ≡ 1 (mod 4)`.
pub open spec fn sqrt_root(n: int, p: int) -> int {
    if n % p == 0 {
        0
    } else if p % 4 == 3 {
        mod_pow_spec(n % p, (p + 1) / 4, p)
    } else {
        tonelli_shanks_root(n % p, p)
    }
}

/// For `2e = h + 1`, when `n^h ≡ 1 (mod p)` the power `n^e mod p` is a square
/// root of `n`: `(n^e)² = n^h · n`.
proof fn lemma_root_three_mod_four(nr: int, e: int, h: int, pi: int)
    requires
        pi > 1,
        e > 0,
        h > 0,
        2 * e == h + 1,
        pow(nr, h as nat) % pi == 1,
    ensures
        ((pow(nr, e as nat) % pi) * (pow(nr, e as nat) % pi)) % pi == nr % pi,
{
    reveal_with_fuel(pow, 2);
    lemma_pow_adds(nr, e as nat, e as nat);
    lemma_pow_adds(nr, h as nat, 1);
    let pe = pow(nr, e as nat);
    let ph = pow(nr, h as nat);
    assert(pow(nr, 1) == nr);
    assert((e + e) as nat == (h + 1) as nat);
    assert(pe * pe == ph * nr);
    lemma_mul_mod_noop_general(pe, pe, pi);
    lemma_mul_mod_noop_general(ph, nr, pi);
    assert((ph * nr) % pi == (1 * nr) % pi);
}

/// Modular square root via Tonelli-Shanks algorithm.
///
/// For `p = 2` it returns `n % 2`. For an odd prime it returns `None` when
/// `n` is not a square modulo `p` (exactly when `n` is not zero modulo `p`
/// and fails Euler's test), and otherwise a square root of `n` below `p`.
pub fn mod_sqrt(n: i64, p: i64) -> (r: Option<i64>)
    requires
        is_prime(p as int),
    ensures
        p == 2 ==> r == Some(trunc_rem(n as int, 2) as i64),
        p != 2 ==> (r is None <==> !is_square_mod(n as int, p as int)),
        p != 2 ==> (r is None <==> ((n as int) % (p as int) != 0 && mod_pow_spec(
            (n as int) % (p as int),
            (p - 1) / 2,
            p as int,
        ) != 1)),
        p != 2 ==> (r matches Some(y) ==> 0 <= y < p && ((y as int) * (y as int)) % (p as int) == (
        n as int) % (p as int)),
        p != 2 && (n as int) % (p as int) == 0 ==> r == Some(0i64),
        p % 4 == 3 && (n as int) % (p as int) != 0 && r is Some ==> r == Some(
            mod_pow_spec((n as int) % (p as int), (p + 1) / 4, p as int) as i64,
        ),
        p % 4 == 1 && (n as int) % (p as int) != 0 && r is Some ==> r == Some(
            tonelli_shanks_root((n as int) % (p as int), p as int) as i64,
        ),
        p != 2 ==> (r matches Some(y) ==> y == sqrt_root(n as int, p as int)),
{
    if p == 2 {
        proof {
            lemma_trunc_div_rem(n as int, 2);
        }
        return Some(trunc_rem_exec(n as i128, 2) as i64);
    }
    let ghost pi = p as int;
    let ghost n0 = (n as int) % pi;
    let nr = reduce(n as i128, p);
    if nr == 0 {
        proof {
            lemma_mod_small(0, pi);
            assert(0int * 0int == 0);
            assert(is_square_mod(n as int, pi));
        }
        return Some(0);
    }
    proof {
        assert(pi % 2 != 0);
    }
    let h = (((p - 1) as u64) / 2) as i64;
    assert(h == (p - 1) / 2);
    // Check QR
    if mod_pow(nr, h, p) != 1 {
        proof {
            if is_square_mod(n as int, pi) {
                let y = choose|y: int| 0 <= y < pi && #[trigger] ((y * y) % pi) == (n as int) % pi;
                assert((y * y) % pi == nr);
                lemma_square_passes_euler(y, pi);
            }
        }
        return None;
    }
    // Factor out powers of 2 from p-1: p-1 = Q * 2^S
    let mut s: i64 = 0;
    let mut q: i64 = p - 1;
    proof {
        reveal(pow);
        assert(pow(2, 0) == 1);
    }
    while (q as u64) % 2 == 0
        invariant
            q >= 1,
            s >= 0,
            q * pow(2, s as nat) == p - 1,
            p < 0x8000_0000_0000_0000,
            odd_part(q as int) == odd_part(p - 1),
            s + two_exponent(q as int) == two_exponent(p - 1),
        decreases q,
    {
        proof {
            lemma_pow2_facts(s as nat);
            lemma_pow2_exceeds(s as nat);
            lemma_fundamental_div_mod(q as int, 2);
            assert(pow(2, s as nat) <= p - 1) by (nonlinear_arith)
                requires
                    q * pow(2, s as nat) == p - 1,
                    q >= 1,
                    pow(2, s as nat) >= 1,
            ;
            assert((q / 2) * pow(2, (s + 1) as nat) == p - 1) by (nonlinear_arith)
                requires
                    q * pow(2, s as nat) == p - 1,
                    q == 2 * (q / 2) + q % 2,
                    q % 2 == 0,
                    pow(2, (s + 1) as nat) == 2 * pow(2, s as nat),
            ;
        }
        q = ((q as u64) / 2) as i64;
        s += 1;
    }
    proof {
        lemma_pow2_facts(s as nat);
        reveal(pow);
        if s == 0 {
            assert(pow(2, 0) == 1);
            assert(q == p - 1) by (nonlinear_arith)
                requires
                    q * pow(2, s as nat) == p - 1,
                    s == 0,
                    pow(2, 0) == 1,
            ;
            lemma_fundamental_div_mod(q as int, 2);
            lemma_fundamental_div_mod(pi, 2);
            assert(false);
        }
        assert(q % 2 == 1);
        assert(pow(2, s as nat) <= p - 1) by (nonlinear_arith)
            requires
                q * pow(2, s as nat) == p - 1,
                q >= 1,
                pow(2, s as nat) >= 1,
        ;
        lemma_two_adic_mod4(pi, q as int, s as nat);
        lemma_pow2_facts((s - 1) as nat);
        assert(q * pow(2, (s - 1) as nat) == h) by (nonlinear_arith)
            requires
                q * pow(2, s as nat) == p - 1,
                pow(2, s as nat) == 2 * pow(2, (s - 1) as nat),
                h == (p - 1) / 2,
        ;
    }
    if s == 1 {
        let e = (((p as u64) + 1) / 4) as i64;
        let r = mod_pow(nr, e, p);
        proof {
            assert(e == (p + 1) / 4);
            assert(2 * e == h + 1);
            lemma_root_three_mod_four(nr as int, e as int, h as int, pi);
            lemma_mod_small(nr as int, pi);
        }
        return Some(r);
    }
    // Find a non-residue z
    proof {
        lemma_non_residue_exists(pi);
    }
    let mut z: i64 = 2;
    while mod_pow(z, h, p) != p - 1
        invariant
            p % 4 != 3,
            pi == p,
            p > 2,
            h == (p - 1) / 2,
            2 <= z < p,
            has_non_residue(pi),
            forall|w: int| 2 <= w < z ==> #[trigger] mod_pow_spec(w, (p - 1) / 2, pi) != p - 1,
        decreases p - z,
    {
        proof {
            let w = choose|w: int| 2 <= w < pi && #[trigger] mod_pow_spec(w, (pi - 1) / 2, pi) == pi - 1;
            assert(mod_pow_spec(w, (p - 1) / 2, pi) == p - 1);
            if w <= z {
                assert(w != z);
                assert(mod_pow_spec(w, (p - 1) / 2, pi) != p - 1);
            }
        }
        z += 1;
    }
    proof {
        assert(is_least_non_residue(z as int, pi));
        let w = least_non_residue(pi);
        assert(is_least_non_residue(w, pi));
        if w < z {
            assert(mod_pow_spec(w, (p - 1) / 2, pi) != p - 1);
        } else if z < w {
            assert(mod_pow_spec(z as int, (pi - 1) / 2, pi) != pi - 1);
        }
        assert(w == z);
        assert(odd_part(q as int) == q as int);
        assert(two_exponent(q as int) == 0);
    }
    let mut m = s;
    let mut c = mod_pow(z, q, p);
    let mut t = mod_pow(nr, q, p);
    let mut r = mod_pow(nr, (((q as u64) + 1) / 2) as i64, p);
    proof {
        lemma_pow2k_mod_of_pow(z as int, q as nat, (s - 1) as nat, pi);
        lemma_pow2k_mod_of_pow(nr as int, q as nat, (s - 1) as nat, pi);
        let e = (q + 1) / 2;
        reveal_with_fuel(pow, 2);
        assert(2 * e == q + 1);
        lemma_pow_adds(nr as int, e as nat, e as nat);
        lemma_pow_adds(nr as int, q as nat, 1);
        lemma_mul_mod_noop_general(pow(nr as int, e as nat), pow(nr as int, e as nat), pi);
        lemma_mul_mod_noop_general(pow(nr as int, q as nat), nr as int, pi);
        lemma_mul_mod_noop_general(nr as int, pow(nr as int, q as nat), pi);
        lemma_mod_small(nr as int, pi);
        assert(((r as int) * (r as int)) % pi == ((nr as int) * (t as int)) % pi);
        assert(tonelli_shanks_root(n0, pi) == tonelli_shanks_steps(
            pi,
            m as int,
            c as int,
            t as int,
            r as int,
        ));
    }
    loop
        invariant
            tonelli_shanks_root(n0, pi) == tonelli_shanks_steps(pi, m as int, c as int, t as int, r as int),
            p % 4 != 3,
            is_prime(pi),
            pi == p,
            p != 2,
            nr == n0,
            n0 == (n as int) % pi,
            mod_pow_spec(n0, (p - 1) / 2, pi) == 1,
            0 < nr < p,
            1 <= m <= s,
            pow(2, s as nat) <= p - 1,
            0 <= c < p,
            0 <= t < p,
            0 <= r < p,
            ((r as int) * (r as int)) % pi == ((nr as int) * (t as int)) % pi,
            pow2k_mod(t as int, (m - 1) as nat, pi) == 1,
            pow2k_mod(c as int, (m - 1) as nat, pi) == p - 1,
        decreases m,
    {
        if t == 1 {
            proof {
                lemma_mod_small(nr as int, pi);
                assert((nr as int) * (t as int) == nr);
            }
            return Some(r);
        }
        proof {
            reveal_with_fuel(pow, 2);
            assert(pow(2, 0) == 1);
            assert(pow(t as int, 1) == t);
            lemma_mod_small(t as int, pi);
            if m == 1 {
                assert(pow2k_mod(t as int, 0, pi) == t);
                assert(false);
            }
            lemma_pow2k_mod_step(t as int, 0, pi);
        }
        let mut i: i64 = 1;
        let mut t2i = mul_mod(t, t, p);
        while t2i != 1
            invariant
                p % 4 != 3,
                is_prime(pi),
                pi == p,
                0 <= t < p,
                t != 1,
                2 <= m,
                1 <= i <= m - 1,
                t2i == pow2k_mod(t as int, i as nat, pi),
                pow2k_mod(t as int, (m - 1) as nat, pi) == 1,
                forall|j: int| 0 <= j < i ==> #[trigger] pow2k_mod(t as int, j as nat, pi) != 1,
            decreases m - i,
        {
            proof {
                lemma_pow2k_mod_step(t as int, i as nat, pi);
                lemma_mod_bound(pow(t as int, pow(2, i as nat) as nat), pi);
            }
            t2i = mul_mod(t2i, t2i, p);
            i += 1;
        }
        proof {
            assert(is_least_unit_power(i as int, t as int, m as int, pi));
            let i2 = choose|i2: int| is_least_unit_power(i2, t as int, m as int, pi);
            assert(is_least_unit_power(i2, t as int, m as int, pi));
            if i2 < i {
                assert(pow2k_mod(t as int, i2 as nat, pi) != 1);
            } else if i < i2 {
                assert(pow2k_mod(t as int, i as nat, pi) != 1);
            }
            assert(i2 == i);
        }
        let ghost x = pow2k_mod(t as int, (i - 1) as nat, pi);
        proof {
            lemma_pow2k_mod_step(t as int, (i - 1) as nat, pi);
            lemma_mod_bound(pow(t as int, pow(2, (i - 1) as nat) as nat), pi);
            lemma_square_root_of_one(x, pi);
            assert(x == p - 1);
            // 2^(m-i-1) < p - 1, so reducing the exponent modulo p - 1 keeps it
            vstd::arithmetic::power::lemma_pow_strictly_increases(2, (m - i - 1) as nat, s as nat);
        }
        let e = mod_pow(2, m - i - 1, p - 1);
        proof {
            if m - i - 1 > 0 {
                lemma_pow_positive(2, (m - i - 1) as nat);
                lemma_small_mod(pow(2, (m - i - 1) as nat) as nat, (p - 1) as nat);
            } else {
                assert(pow(2, 0) == 1) by {
                    reveal(pow);
                }
            }
            assert(e == pow(2, (m - i - 1) as nat));
            lemma_pow2_facts((m - i - 1) as nat);
        }
        let b = mod_pow(c, e, p);
        let ghost old_c = c as int;
        let ghost old_t = t as int;
        let ghost old_r = r as int;
        let ghost old_m = m as int;
        m = i;
        c = mul_mod(b, b, p);
        t = mul_mod(t, c, p);
        r = mul_mod(r, b, p);
        proof {
            let k = (old_m - i - 1) as nat;
            assert(b == pow2k_mod(old_c, k, pi));
            lemma_pow2k_mod_step(old_c, k, pi);
            assert(c == pow2k_mod(old_c, k + 1, pi));
            lemma_pow2k_mod_compose(old_c, k + 1, (i - 1) as nat, pi);
            assert(k + 1 + (i - 1) == old_m - 1);
            assert(pow2k_mod(c as int, (m - 1) as nat, pi) == p - 1);
            lemma_pow2k_mod_mul(old_t, c as int, (i - 1) as nat, pi);
            lemma_minus_one_squared(pi);
            assert(pow2k_mod(t as int, (m - 1) as nat, pi) == 1);
            lemma_root_step(old_r, b as int, old_t, nr as int, pi);
        }
    }
}

} // verus!
