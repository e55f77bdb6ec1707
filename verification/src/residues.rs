//! Quadratic residues modulo a prime: Fermat's little theorem, a bound on
//! the roots of a polynomial, and from them Euler's criterion.
use crate::modular::{
    has_non_residue, is_prime, lemma_euclid, lemma_mod_add_multiple, lemma_mod_mod, lemma_mod_small,
    lemma_mul_mod, lemma_add_mod, lemma_square_root_of_one, mod_pow_spec,
};
use vstd::arithmetic::div_mod::*;
use vstd::arithmetic::power::*;
use vstd::prelude::*;

verus! {

// ---------------------------------------------------------------------------
// Binomial coefficients
// ---------------------------------------------------------------------------

/// The binomial coefficient `C(n, k)`, by Pascal's rule.
pub open spec fn binom(n: nat, k: nat) -> nat
    decreases n,
{
    if k == 0 {
        1
    } else if n == 0 {
        0
    } else {
        binom((n - 1) as nat, (k - 1) as nat) + binom((n - 1) as nat, k)
    }
}

/// `C(n, k) = 0` for `k > n`.
pub proof fn lemma_binom_zero(n: nat, k: nat)
    requires
        k > n,
    ensures
        binom(n, k) == 0,
    decreases n,
{
    if n > 0 {
        lemma_binom_zero((n - 1) as nat, (k - 1) as nat);
        lemma_binom_zero((n - 1) as nat, k);
    }
}

/// `C(n, n) = 1`.
pub proof fn lemma_binom_diag(n: nat)
    ensures
        binom(n, n) == 1,
    decreases n,
{
    if n > 0 {
        lemma_binom_diag((n - 1) as nat);
        lemma_binom_zero((n - 1) as nat, n);
    }
}

/// Absorption: `k·C(n, k) = n·C(n-1, k-1)`.
pub proof fn lemma_binom_absorb(n: nat, k: nat)
    requires
        n >= 1,
        k >= 1,
    ensures
        k * binom(n, k) == n * binom((n - 1) as nat, (k - 1) as nat),
    decreases n,
{
    let c1 = binom((n - 1) as nat, (k - 1) as nat);
    let c2 = binom((n - 1) as nat, k);
    assert(binom(n, k) == c1 + c2);
    if n == 1 {
        if k == 1 {
            assert(binom(0, 0) == 1);
            assert(binom(0, 1) == 0);
            assert(binom(1, 1) == 1);
        } else {
            lemma_binom_zero(1, k);
            lemma_binom_zero(0, (k - 1) as nat);
            assert(k * binom(n, k) == 0) by (nonlinear_arith)
                requires
                    binom(n, k) == 0,
            ;
            assert(n * binom((n - 1) as nat, (k - 1) as nat) == 0) by (nonlinear_arith)
                requires
                    binom((n - 1) as nat, (k - 1) as nat) == 0,
            ;
        }
    } else {
        // k·C(n-1, k) = (n-1)·C(n-2, k-1)
        lemma_binom_absorb((n - 1) as nat, k);
        let d1 = binom((n - 2) as nat, (k - 1) as nat);
        assert(k * c2 == (n - 1) * d1);
        if k == 1 {
            assert(c1 == 1);
            assert(binom((n - 1) as nat, 0) == 1);
            assert(d1 == 1);
            assert(k * binom(n, k) == n * c1) by (nonlinear_arith)
                requires
                    k == 1,
                    binom(n, k) == c1 + c2,
                    c1 == 1,
                    d1 == 1,
                    k * c2 == (n - 1) * d1,
            ;
        } else {
            // (k-1)·C(n-1, k-1) = (n-1)·C(n-2, k-2)
            lemma_binom_absorb((n - 1) as nat, (k - 1) as nat);
            let d0 = binom((n - 2) as nat, (k - 2) as nat);
            assert((k - 1) * c1 == (n - 1) * d0);
            assert(c1 == d0 + d1);
            assert(k * (c1 + c2) == n * c1) by (nonlinear_arith)
                requires
                    (k - 1) * c1 == (n - 1) * d0,
                    k * c2 == (n - 1) * d1,
                    c1 == d0 + d1,
            ;
        }
    }
}

/// A prime `p` divides `C(p, k)` for `0 < k < p`.
pub proof fn lemma_prime_divides_binom(p: nat, k: nat)
    requires
        is_prime(p as int),
        0 < k < p,
    ensures
        (binom(p, k) as int) % (p as int) == 0,
{
    lemma_binom_absorb(p, k);
    let c = binom((p - 1) as nat, (k - 1) as nat);
    assert((k as int) * (binom(p, k) as int) == (p as int) * (c as int));
    lemma_mod_multiples_basic(c as int, p as int);
    assert((c as int) * (p as int) == (p as int) * (c as int)) by (nonlinear_arith);
    lemma_euclid(k as int, binom(p, k) as int, p as int);
    lemma_mod_small(k as int, p as int);
}

// ---------------------------------------------------------------------------
// The binomial theorem and Fermat's little theorem
// ---------------------------------------------------------------------------

/// `C(n, 0)·a⁰ + C(n, 1)·a¹ + ... + C(n, j)·aʲ`.
pub open spec fn binom_sum(n: nat, a: int, j: nat) -> int
    decreases j,
{
    if j == 0 {
        binom(n, 0) as int
    } else {
        binom_sum(n, a, (j - 1) as nat) + (binom(n, j) as int) * pow(a, j)
    }
}

/// Multiplying the partial sum for `n - 1` by `a + 1` gives the partial sum
/// for `n`, plus the last term shifted by one power.
proof fn lemma_binom_sum_step(n: nat, a: int, j: nat)
    requires
        n >= 1,
    ensures
        (a + 1) * binom_sum((n - 1) as nat, a, j) == binom_sum(n, a, j) + (binom(
            (n - 1) as nat,
            j,
        ) as int) * pow(a, j + 1),
    decreases j,
{
    reveal(pow);
    if j == 0 {
        assert(pow(a, 1) == a * pow(a, 0));
        assert(pow(a, 0) == 1);
        assert(binom((n - 1) as nat, 0) == 1);
        assert(binom(n, 0) == 1);
        assert(binom_sum((n - 1) as nat, a, 0) == 1);
        assert(binom_sum(n, a, 0) == 1);
        assert((a + 1) * 1 == 1 + 1 * pow(a, 1)) by (nonlinear_arith)
            requires
                pow(a, 1) == a * pow(a, 0),
                pow(a, 0) == 1,
        ;
    } else {
        lemma_binom_sum_step(n, a, (j - 1) as nat);
        let c0 = binom((n - 1) as nat, (j - 1) as nat) as int;
        let c1 = binom((n - 1) as nat, j) as int;
        let aj = pow(a, j);
        assert(pow(a, j + 1) == a * aj);
        assert(binom(n, j) == binom((n - 1) as nat, (j - 1) as nat) + binom((n - 1) as nat, j));
        let sp = binom_sum((n - 1) as nat, a, (j - 1) as nat);
        let bp = binom_sum(n, a, (j - 1) as nat);
        assert((a + 1) * (sp + c1 * aj) == (bp + (c0 + c1) * aj) + c1 * (a * aj)) by (nonlinear_arith)
            requires
                (a + 1) * sp == bp + c0 * aj,
        ;
        assert(binom_sum(n, a, j) == bp + (c0 + c1) * aj);
        assert(binom_sum((n - 1) as nat, a, j) == sp + c1 * aj);
        assert(c1 * (a * aj) == c1 * pow(a, j + 1));
    }
}

/// The binomial theorem for `(a + 1)ⁿ`.
pub proof fn lemma_binomial_theorem(n: nat, a: int)
    ensures
        pow(a + 1, n) == binom_sum(n, a, n),
    decreases n,
{
    reveal(pow);
    if n > 0 {
        lemma_binomial_theorem((n - 1) as nat, a);
        lemma_binom_sum_step(n, a, (n - 1) as nat);
        lemma_binom_diag((n - 1) as nat);
        lemma_binom_diag(n);
        assert(pow(a + 1, n) == (a + 1) * pow(a + 1, (n - 1) as nat));
    }
}

/// The terms strictly between the first and the last vanish modulo a prime.
proof fn lemma_binom_sum_prime(p: nat, a: int, j: nat)
    requires
        is_prime(p as int),
        j < p,
    ensures
        binom_sum(p, a, j) % (p as int) == 1,
    decreases j,
{
    let pi = p as int;
    if j == 0 {
        lemma_mod_small(1, pi);
    } else {
        lemma_binom_sum_prime(p, a, (j - 1) as nat);
        lemma_prime_divides_binom(p, j);
        let c = binom(p, j) as int;
        lemma_fundamental_div_mod(c, pi);
        let m = c / pi;
        assert(c * pow(a, j) == pi * (m * pow(a, j))) by (nonlinear_arith)
            requires
                c == pi * m + c % pi,
                c % pi == 0,
        ;
        lemma_mod_add_multiple(binom_sum(p, a, (j - 1) as nat), m * pow(a, j), pi);
    }
}

/// Freshman's dream modulo a prime: `(a + 1)ᵖ ≡ aᵖ + 1`.
proof fn lemma_frobenius_step(p: nat, a: int)
    requires
        is_prime(p as int),
    ensures
        pow(a + 1, p) % (p as int) == (pow(a, p) + 1) % (p as int),
{
    let pi = p as int;
    lemma_binomial_theorem(p, a);
    lemma_binom_sum_prime(p, a, (p - 1) as nat);
    lemma_binom_diag(p);
    assert(binom_sum(p, a, p) == binom_sum(p, a, (p - 1) as nat) + pow(a, p));
    lemma_add_mod(binom_sum(p, a, (p - 1) as nat), pow(a, p), pi);
    lemma_add_mod(1, pow(a, p), pi);
    lemma_mod_small(1, pi);
}

/// `aᵖ ≡ a (mod p)` for every natural `a`.
pub proof fn lemma_frobenius(p: nat, a: nat)
    requires
        is_prime(p as int),
    ensures
        pow(a as int, p) % (p as int) == (a as int) % (p as int),
    decreases a,
{
    let pi = p as int;
    if a == 0 {
        lemma0_pow(p);
    } else {
        let b = (a - 1) as nat;
        lemma_frobenius(p, b);
        lemma_frobenius_step(p, b as int);
        lemma_add_mod(pow(b as int, p), 1, pi);
        lemma_add_mod(b as int, 1, pi);
    }
}

/// Fermat's little theorem: `a^(p-1) ≡ 1 (mod p)` when `p` does not divide `a`.
pub proof fn lemma_fermat(a: int, p: int)
    requires
        is_prime(p),
        a % p != 0,
    ensures
        pow(a, (p - 1) as nat) % p == 1,
{
    let b = a % p;
    lemma_mod_bound(a, p);
    lemma_frobenius(p as nat, b as nat);
    let e = (p - 1) as nat;
    lemma_pow_adds(b, e, 1);
    reveal_with_fuel(pow, 2);
    assert(pow(b, 1) == b);
    let f = pow(b, e);
    // b·(f - 1) ≡ 0
    lemma_mod_small(b, p);
    assert(b * f - b == b * (f - 1)) by (nonlinear_arith);
    lemma_add_mod(b * f, -b, p);
    lemma_add_mod(b, -b, p);
    assert((b * (f - 1)) % p == 0) by {
        assert((b * f) % p == b % p);
        lemma_add_mod(b * f, -b, p);
        lemma_add_mod(b, -b, p);
        lemma_mod_small(0, p);
    }
    lemma_euclid(b, f - 1, p);
    lemma_add_mod(f - 1, 1, p);
    lemma_mod_small(1, p);
    lemma_pow_mod_noop(a, e, p);
}

// ---------------------------------------------------------------------------
// Roots of polynomials modulo a prime
// ---------------------------------------------------------------------------

/// The value at `x` of the polynomial with coefficients `c`, lowest degree
/// first (Horner's scheme).
pub open spec fn poly_eval(c: Seq<int>, x: int) -> int
    decreases c.len(),
{
    if c.len() == 0 {
        0
    } else {
        c[0] + x * poly_eval(c.drop_first(), x)
    }
}

/// The quotient of `c` by `X - r` (synthetic division).
pub open spec fn poly_div(c: Seq<int>, r: int) -> Seq<int>
    decreases c.len(),
{
    if c.len() <= 1 {
        seq![]
    } else {
        seq![poly_eval(c.drop_first(), r)] + poly_div(c.drop_first(), r)
    }
}

/// Division by `X - r`: `c(x) = (x - r)·q(x) + c(r)`, where `q` has one
/// coefficient fewer and the same leading coefficient.
pub proof fn lemma_poly_div(c: Seq<int>, r: int, x: int)
    requires
        c.len() >= 1,
    ensures
        poly_eval(c, x) == (x - r) * poly_eval(poly_div(c, r), x) + poly_eval(c, r),
        poly_div(c, r).len() == c.len() - 1,
        c.len() >= 2 ==> poly_div(c, r).last() == c.last(),
    decreases c.len(),
{
    let t = c.drop_first();
    if c.len() == 1 {
        assert(t.len() == 0);
        assert(poly_eval(t, x) == 0);
        assert(poly_eval(t, r) == 0);
        assert(poly_eval(poly_div(c, r), x) == 0);
        assert(poly_eval(c, x) == c[0] + x * 0);
        assert(poly_eval(c, r) == c[0] + r * 0);
    } else {
        lemma_poly_div(t, r, x);
        let q = poly_div(c, r);
        let qt = poly_div(t, r);
        let e = poly_eval(t, r);
        assert(q == seq![e] + qt);
        assert(q.drop_first() == qt);
        assert(poly_eval(q, x) == e + x * poly_eval(qt, x));
        assert(poly_eval(c, x) == c[0] + x * poly_eval(t, x));
        assert(poly_eval(c, r) == c[0] + r * e);
        assert(poly_eval(c, x) == (x - r) * poly_eval(q, x) + poly_eval(c, r)) by (nonlinear_arith)
            requires
                poly_eval(t, x) == (x - r) * poly_eval(qt, x) + e,
                poly_eval(q, x) == e + x * poly_eval(qt, x),
                poly_eval(c, x) == c[0] + x * poly_eval(t, x),
                poly_eval(c, r) == c[0] + r * e,
        ;
        if t.len() == 1 {
            assert(qt.len() == 0);
            assert(poly_eval(t.drop_first(), r) == 0);
            assert(e == t[0] + r * 0);
            assert(q.last() == e);
        } else {
            assert(q.last() == qt.last());
        }
    }
}

/// A difference of two distinct values in `[0, p)` is not divisible by `p`.
pub proof fn lemma_distinct_residues(u: int, v: int, p: int)
    requires
        p > 0,
        0 <= u < p,
        0 <= v < p,
        u != v,
    ensures
        (u - v) % p != 0,
{
    if u > v {
        lemma_mod_small(u - v, p);
    } else {
        lemma_mod_add_multiple(u - v, 1, p);
        lemma_mod_small(u - v + p, p);
    }
}

/// A polynomial whose leading coefficient is not divisible by the prime `p`
/// has at most its degree of distinct roots modulo `p`.
pub proof fn lemma_root_bound(c: Seq<int>, rs: Seq<int>, p: int)
    requires
        is_prime(p),
        c.len() >= 1,
        c.last() % p != 0,
        forall|i: int| 0 <= i < rs.len() ==> 0 <= #[trigger] rs[i] < p,
        forall|i: int| 0 <= i < rs.len() ==> #[trigger] poly_eval(c, rs[i]) % p == 0,
        forall|i: int, j: int| 0 <= i < j < rs.len() ==> rs[i] != rs[j],
    ensures
        rs.len() <= c.len() - 1,
    decreases c.len(),
{
    if rs.len() > 0 {
        let r = rs[0];
        assert(poly_eval(c, rs[0]) % p == 0);
        if c.len() == 1 {
            assert(c.drop_first().len() == 0);
            assert(poly_eval(c.drop_first(), r) == 0);
            assert(poly_eval(c, r) == c[0] + r * 0);
            assert(c.last() == c[0]);
            assert(false);
        }
        let q = poly_div(c, r);
        let rest = rs.drop_first();
        lemma_poly_div(c, r, r);
        assert forall|i: int| 0 <= i < rest.len() implies #[trigger] poly_eval(q, rest[i]) % p == 0 by {
            let u = rest[i];
            assert(u == rs[i + 1]);
            assert(poly_eval(c, rs[i + 1]) % p == 0);
            assert(rs[0] != rs[i + 1]);
            lemma_poly_div(c, r, u);
            let w = (u - r) * poly_eval(q, u);
            // w + c(r) ≡ 0 and c(r) ≡ 0, so w ≡ 0
            lemma_add_mod(w, poly_eval(c, r), p);
            lemma_mod_small(0, p);
            assert((w + poly_eval(c, r)) % p == 0);
            assert((w % p + 0) % p == 0);
            lemma_mod_mod(w, p);
            assert(w % p == 0);
            lemma_distinct_residues(u, r, p);
            lemma_euclid(u - r, poly_eval(q, u), p);
        }
        assert forall|i: int| 0 <= i < rest.len() implies 0 <= #[trigger] rest[i] < p by {
            assert(rest[i] == rs[i + 1]);
        }
        assert forall|i: int, j: int| 0 <= i < j < rest.len() implies rest[i] != rest[j] by {
            assert(rest[i] == rs[i + 1] && rest[j] == rs[j + 1]);
        }
        lemma_root_bound(q, rest, p);
    }
}

/// The monomial `Xʰ`.
pub open spec fn monomial(h: nat) -> Seq<int> {
    Seq::new(h + 1, |i: int| if i == h { 1int } else { 0int })
}

/// `Xʰ` evaluates to `xʰ`.
proof fn lemma_monomial_eval(h: nat, x: int)
    ensures
        poly_eval(monomial(h), x) == pow(x, h),
    decreases h,
{
    reveal(pow);
    let m = monomial(h);
    if h == 0 {
        assert(m.drop_first().len() == 0);
        assert(poly_eval(m.drop_first(), x) == 0);
        assert(poly_eval(m, x) == 1 + x * 0);
    } else {
        lemma_monomial_eval((h - 1) as nat, x);
        assert(m.drop_first() == monomial((h - 1) as nat));
        assert(poly_eval(m, x) == 0 + x * pow(x, (h - 1) as nat));
    }
}

/// The polynomial `Xʰ - 1`.
pub open spec fn power_minus_one(h: nat) -> Seq<int> {
    monomial(h).update(0, -1)
}

/// `Xʰ - 1` evaluates to `xʰ - 1` and has leading coefficient 1.
proof fn lemma_power_minus_one(h: nat, x: int)
    requires
        h >= 1,
    ensures
        poly_eval(power_minus_one(h), x) == pow(x, h) - 1,
        power_minus_one(h).len() == h + 1,
        power_minus_one(h).last() == 1,
{
    reveal(pow);
    let c = power_minus_one(h);
    assert(c.drop_first() == monomial(h).drop_first());
    assert(monomial(h).drop_first() == monomial((h - 1) as nat));
    lemma_monomial_eval((h - 1) as nat, x);
    assert(poly_eval(c, x) == -1 + x * pow(x, (h - 1) as nat));
}

// ---------------------------------------------------------------------------
// Euler's criterion
// ---------------------------------------------------------------------------

/// `v` is a square modulo `p`: some `y` with `0 <= y < p` has `y² ≡ v`.
pub open spec fn is_square_mod(v: int, p: int) -> bool {
    exists|y: int| 0 <= y < p && #[trigger] ((y * y) % p) == v % p
}

/// Some residue fails `a^((p-1)/2) ≡ 1`: otherwise `X^((p-1)/2) - 1` would
/// have `p - 1` roots.
proof fn lemma_euler_test_fails_somewhere(p: int)
    requires
        is_prime(p),
        p % 2 == 1,
    ensures
        exists|a: int| 1 <= a < p && #[trigger] (pow(a, ((p - 1) / 2) as nat) % p) != 1,
{
    let h = ((p - 1) / 2) as nat;
    if forall|a: int| 1 <= a < p ==> #[trigger] (pow(a, h) % p) == 1 {
        let rs = Seq::new((p - 1) as nat, |i: int| i + 1);
        let c = power_minus_one(h);
        assert(h >= 1);
        lemma_power_minus_one(h, 0);
        assert forall|i: int| 0 <= i < rs.len() implies #[trigger] poly_eval(c, rs[i]) % p == 0 by {
            lemma_power_minus_one(h, rs[i]);
            assert(pow(rs[i], h) % p == 1);
            lemma_add_mod(pow(rs[i], h), -1, p);
            lemma_mod_small(1, p);
            lemma_mod_small(0, p);
        }
        lemma_mod_small(1, p);
        lemma_root_bound(c, rs, p);
        assert(false);
    }
}

/// For an odd prime `p`, some `z` with `2 <= z < p` has `z^((p-1)/2) ≡ -1`.
pub proof fn lemma_non_residue_exists(p: int)
    requires
        is_prime(p),
        p % 2 == 1,
    ensures
        has_non_residue(p),
{
    let h = ((p - 1) / 2) as nat;
    lemma_euler_test_fails_somewhere(p);
    let a = choose|a: int| 1 <= a < p && #[trigger] (pow(a, h) % p) != 1;
    assert(1 <= a < p && pow(a, h) % p != 1);
    // a^(p-1) = (a^h)² ≡ 1, so a^h ≡ -1
    lemma_mod_small(a, p);
    lemma_fermat(a, p);
    assert((p - 1) as nat == h + h);
    lemma_pow_adds(a, h, h);
    let u = pow(a, h) % p;
    lemma_mod_bound(pow(a, h), p);
    lemma_mul_mod(pow(a, h), pow(a, h), p);
    lemma_square_root_of_one(u, p);
    if a == 1 {
        lemma1_pow(h);
        lemma_mod_small(1, p);
    }
    assert(mod_pow_spec(a, (p - 1) / 2, p) == p - 1);
}

/// Euler's criterion, one direction: a non-zero square passes the test
/// `v^((p-1)/2) ≡ 1 (mod p)`.
pub proof fn lemma_square_passes_euler(y: int, p: int)
    requires
        is_prime(p),
        p % 2 == 1,
        (y * y) % p != 0,
    ensures
        pow((y * y) % p, ((p - 1) / 2) as nat) % p == 1,
{
    let h = ((p - 1) / 2) as nat;
    if y % p == 0 {
        lemma_mul_mod(y, y, p);
        lemma_mod_small(0, p);
        assert((y % p) * (y % p) == 0);
        assert(false);
    }
    lemma_fermat(y, p);
    lemma_pow_mod_noop(y * y, h, p);
    lemma_pow_multiplies(y, 2, h);
    reveal_with_fuel(pow, 3);
    assert(pow(y, 0) == 1);
    assert(pow(y, 1) == y * pow(y, 0));
    assert(pow(y, 1) == y);
    assert(pow(y, 2) == y * pow(y, 1));
    assert(pow(y, 2) == y * y);
    assert(2 * h == (p - 1) as nat);
}

/// Modulo a prime, two squares agree only for equal or opposite roots.
pub proof fn lemma_square_roots(y1: int, y2: int, p: int)
    requires
        is_prime(p),
        0 <= y1 < p,
        0 <= y2 < p,
        (y1 * y1) % p == (y2 * y2) % p,
    ensures
        y1 == y2 || y1 + y2 == p,
{
    assert((y1 - y2) * (y1 + y2) == y1 * y1 - y2 * y2) by (nonlinear_arith);
    lemma_add_mod(y1 * y1, -(y2 * y2), p);
    lemma_add_mod(y2 * y2, -(y2 * y2), p);
    lemma_mod_small(0, p);
    assert((y1 * y1 - y2 * y2) % p == 0);
    lemma_euclid(y1 - y2, y1 + y2, p);
    if (y1 - y2) % p == 0 {
        if y1 != y2 {
            lemma_distinct_residues(y1, y2, p);
        }
    } else {
        if y1 + y2 != 0 && y1 + y2 != p {
            if y1 + y2 < p {
                lemma_mod_small(y1 + y2, p);
            } else {
                lemma_mod_add_multiple(y1 + y2 - p, 1, p);
                lemma_mod_small(y1 + y2 - p, p);
            }
        }
    }
}

/// The root of `v` below `p` whose parity is `odd` (or zero, when `v ≡ 0`).
pub open spec fn parity_root(v: int, p: int, odd: bool) -> int {
    choose|y: int| is_parity_root(y, v, p, odd)
}

/// `y` is a square root of `v` below `p` with parity `odd`, or zero.
pub open spec fn is_parity_root(y: int, v: int, p: int, odd: bool) -> bool {
    &&& 0 <= y < p
    &&& (y * y) % p == v % p
    &&& ((y % 2 == 1) == odd || y == 0)
}

/// For an odd prime there is at most one root of a given parity.
pub proof fn lemma_parity_root_unique(y1: int, y2: int, v: int, p: int, odd: bool)
    requires
        is_prime(p),
        p % 2 == 1,
        is_parity_root(y1, v, p, odd),
        is_parity_root(y2, v, p, odd),
    ensures
        y1 == y2,
{
    lemma_square_roots(y1, y2, p);
    if y1 != y2 {
        assert(y1 + y2 == p);
        assert(y1 != 0 && y2 != 0);
        lemma_fundamental_div_mod(p, 2);
        lemma_fundamental_div_mod(y1, 2);
        lemma_fundamental_div_mod(y2, 2);
        lemma_mod_bound(y1, 2);
        lemma_mod_bound(y2, 2);
    }
}

/// Euler's criterion, other direction: a value passing the test
/// `v^((p-1)/2) ≡ 1 (mod p)` is a square. The squares of `1, ..., (p-1)/2`
/// are `(p-1)/2` distinct roots of `X^((p-1)/2) - 1`; a non-square root would
/// be one too many.
pub proof fn lemma_euler_converse(v: int, p: int)
    requires
        is_prime(p),
        p % 2 == 1,
        v % p != 0,
        pow(v % p, ((p - 1) / 2) as nat) % p == 1,
    ensures
        is_square_mod(v, p),
{
    let h = ((p - 1) / 2) as nat;
    if !is_square_mod(v, p) {
        let rs = Seq::new(h + 1, |i: int| if i < h { ((i + 1) * (i + 1)) % p } else { v % p });
        let c = power_minus_one(h);
        lemma_power_minus_one(h, 0);
        lemma_mod_small(1, p);
        assert forall|i: int| 0 <= i < rs.len() implies 0 <= #[trigger] rs[i] < p by {
            if i < h {
                lemma_mod_bound((i + 1) * (i + 1), p);
            } else {
                lemma_mod_bound(v, p);
            }
        }
        assert forall|i: int| 0 <= i < rs.len() implies #[trigger] poly_eval(c, rs[i]) % p == 0 by {
            lemma_power_minus_one(h, rs[i]);
            if i < h {
                let y = i + 1;
                if (y * y) % p == 0 {
                    lemma_euclid(y, y, p);
                    lemma_mod_small(y, p);
                }
                lemma_square_passes_euler(y, p);
            }
            assert(pow(rs[i], h) % p == 1);
            lemma_add_mod(pow(rs[i], h), -1, p);
            lemma_mod_small(0, p);
        }
        assert forall|i: int, j: int| 0 <= i < j < rs.len() implies rs[i] != rs[j] by {
            let yi = i + 1;
            if j < h {
                let yj = j + 1;
                if rs[i] == rs[j] {
                    lemma_square_roots(yi, yj, p);
                }
            } else {
                if rs[i] == rs[j] {
                    assert(((yi * yi) % p) == v % p);
                    assert(is_square_mod(v, p));
                }
            }
        }
        lemma_root_bound(c, rs, p);
        assert(false);
    }
}

} // verus!
