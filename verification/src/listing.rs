//! The enumeration of curve points that `all_points` performs, as a
//! sequence: what it lists, and that it lists every curve point once.
use crate::curve::{
    affine_point, count_below, curve_rhs, infinity_point, is_curve_point, lemma_negated_root,
    EllipticCurve, Point,
};
use crate::modular::{is_prime, lemma_mod_small, mod_pow_spec};
use crate::residues::{lemma_square_passes_euler, lemma_square_roots};
use vstd::prelude::*;

verus! {

/// The points `all_points` lists for abscissa `x`, given the square root `y`
/// of the right-hand side that it found.
pub open spec fn abscissa_points(c: EllipticCurve, x: int, y: int) -> Seq<Point> {
    let rhs = curve_rhs(c, x);
    if rhs == 0 {
        seq![affine_point(x, 0)]
    } else if mod_pow_spec(rhs, (c.p - 1) / 2, c.p as int) == 1 {
        seq![affine_point(x, y), affine_point(x, ((c.p as int) - y) % (c.p as int))]
    } else {
        seq![]
    }
}

/// The point at infinity followed by the points of abscissas `0 .. n`, in order.
pub open spec fn points_listing(c: EllipticCurve, ys: Seq<int>, n: int) -> Seq<Point>
    decreases n,
{
    if n <= 0 {
        seq![infinity_point()]
    } else {
        points_listing(c, ys, n - 1) + abscissa_points(c, n - 1, ys[n - 1])
    }
}

/// `ys` holds, for each abscissa whose right-hand side passes Euler's test, a
/// square root of that right-hand side below p.
pub open spec fn roots_valid(c: EllipticCurve, ys: Seq<int>) -> bool {
    &&& ys.len() == (if c.p > 0 { c.p as int } else { 0 })
    &&& forall|x: int|
        0 <= x < ys.len() && curve_rhs(c, x) != 0 && mod_pow_spec(
            curve_rhs(c, x),
            (c.p - 1) / 2,
            c.p as int,
        ) == 1 ==> 0 <= #[trigger] ys[x] < c.p && (ys[x] * ys[x]) % (c.p as int) == curve_rhs(c, x)
}

/// The listing has one entry per point that `curve_order` counts.
pub proof fn lemma_points_listing_len(c: EllipticCurve, ys: Seq<int>, n: int)
    ensures
        points_listing(c, ys, n).len() == count_below(c, n),
    decreases n,
{
    if n > 0 {
        lemma_points_listing_len(c, ys, n - 1);
    }
}

/// The listing starts with the point at infinity.
pub proof fn lemma_points_listing_first(c: EllipticCurve, ys: Seq<int>, n: int)
    ensures
        points_listing(c, ys, n).len() >= 1,
        points_listing(c, ys, n)[0] == infinity_point(),
    decreases n,
{
    if n > 0 {
        lemma_points_listing_first(c, ys, n - 1);
    }
}

/// Every entry of the listing is a curve point.
pub proof fn lemma_points_listing_sound(c: EllipticCurve, ys: Seq<int>, n: int, i: int)
    requires
        roots_valid(c, ys),
        n <= c.p,
        0 <= i < points_listing(c, ys, n).len(),
    ensures
        is_curve_point(c, points_listing(c, ys, n)[i]),
    decreases n,
{
    if n > 0 {
        let prev = points_listing(c, ys, n - 1);
        let x = n - 1;
        if i < prev.len() {
            lemma_points_listing_sound(c, ys, n - 1, i);
        } else {
            let p = c.p as int;
            let blk = abscissa_points(c, x, ys[x]);
            let pt = blk[i - prev.len()];
            assert(pt == points_listing(c, ys, n)[i]);
            let rhs = curve_rhs(c, x);
            if rhs == 0 {
                lemma_mod_small(0, p);
                assert(pt == affine_point(x, 0));
            } else {
                let y = ys[x];
                assert(0 <= y < c.p && (y * y) % p == rhs);
                lemma_negated_root(y, p);
                vstd::arithmetic::div_mod::lemma_mod_bound(p - y, p);
            }
        }
    } else {
        assert(points_listing(c, ys, n) == seq![infinity_point()]);
    }
}

/// After the point at infinity, the listing up to `n` holds affine points
/// with abscissas below `n`.
pub proof fn lemma_points_listing_abscissas(c: EllipticCurve, ys: Seq<int>, n: int, i: int)
    requires
        1 <= i < points_listing(c, ys, n).len(),
        n <= c.p,
    ensures
        !points_listing(c, ys, n)[i].is_infinity,
        0 <= points_listing(c, ys, n)[i].x < n,
    decreases n,
{
    if n > 0 {
        let prev = points_listing(c, ys, n - 1);
        if i < prev.len() {
            lemma_points_listing_abscissas(c, ys, n - 1, i);
        } else {
            let x = n - 1;
            let blk = abscissa_points(c, x, ys[x]);
            assert(points_listing(c, ys, n)[i] == blk[i - prev.len()]);
        }
    }
}

/// For an odd prime the listing holds no point twice.
pub proof fn lemma_points_listing_distinct(c: EllipticCurve, ys: Seq<int>, n: int)
    requires
        is_prime(c.p as int),
        c.p != 2,
        roots_valid(c, ys),
        n <= c.p,
    ensures
        forall|i: int, j: int|
            0 <= i < j < points_listing(c, ys, n).len() ==> points_listing(c, ys, n)[i]
                != points_listing(c, ys, n)[j],
    decreases n,
{
    if n > 0 {
        lemma_points_listing_distinct(c, ys, n - 1);
        let prev = points_listing(c, ys, n - 1);
        let cur = points_listing(c, ys, n);
        let x = n - 1;
        let blk = abscissa_points(c, x, ys[x]);
        let p = c.p as int;
        lemma_points_listing_first(c, ys, n - 1);
        assert forall|i: int, j: int| 0 <= i < j < cur.len() implies cur[i] != cur[j] by {
            if j < prev.len() {
                assert(cur[i] == prev[i] && cur[j] == prev[j]);
            } else if i < prev.len() {
                assert(cur[j] == blk[j - prev.len()]);
                if i > 0 {
                    lemma_points_listing_abscissas(c, ys, n - 1, i);
                }
                assert(cur[i] == prev[i]);
            } else {
                // the two roots ±y of a non-zero right-hand side differ
                let y = ys[x];
                let rhs = curve_rhs(c, x);
                assert(blk.len() == 2);
                assert(0 <= y < p && (y * y) % p == rhs);
                assert(rhs != 0);
                if y == 0 {
                    assert(y * y == 0) by (nonlinear_arith)
                        requires
                            y == 0,
                    ;
                    lemma_mod_small(0, p);
                    assert(false);
                }
                lemma_mod_small(p - y, p);
                crate::modular::lemma_odd_prime(p);
                assert(p - y != y);
                assert(cur[i] == blk[0] && cur[j] == blk[1]);
            }
        }
    }
}

/// Every block of the listing for an abscissa below `n` is in the listing.
pub proof fn lemma_points_listing_contains(c: EllipticCurve, ys: Seq<int>, n: int, x: int, j: int)
    requires
        0 <= x < n,
        0 <= j < abscissa_points(c, x, ys[x]).len(),
    ensures
        points_listing(c, ys, n).contains(abscissa_points(c, x, ys[x])[j]),
    decreases n,
{
    let prev = points_listing(c, ys, n - 1);
    let cur = points_listing(c, ys, n);
    let pt = abscissa_points(c, x, ys[x])[j];
    if x == n - 1 {
        assert(cur[prev.len() + j] == pt);
    } else {
        lemma_points_listing_contains(c, ys, n - 1, x, j);
        let k = choose|k: int| 0 <= k < prev.len() && prev[k] == pt;
        assert(cur[k] == pt);
    }
}

/// Every curve point is in the listing up to p.
pub proof fn lemma_points_listing_complete(c: EllipticCurve, ys: Seq<int>, pt: Point)
    requires
        is_prime(c.p as int),
        roots_valid(c, ys),
        is_curve_point(c, pt),
    ensures
        points_listing(c, ys, c.p as int).contains(pt),
{
    let p = c.p as int;
    lemma_points_listing_first(c, ys, p);
    if !pt.is_infinity {
        let (x, y) = (pt.x as int, pt.y as int);
        let rhs = curve_rhs(c, x);
        vstd::arithmetic::div_mod::lemma_mod_bound(x * x * x + (c.a as int) * x + (c.b as int), p);
        lemma_mod_small(rhs, p);
        assert((y * y) % p == rhs);
        assert(pt == affine_point(x, y));
        if rhs == 0 {
            crate::modular::lemma_euclid(y, y, p);
            lemma_mod_small(y, p);
            assert(y == 0);
            lemma_points_listing_contains(c, ys, p, x, 0);
        } else {
            if p != 2 {
                crate::modular::lemma_odd_prime(p);
                lemma_square_passes_euler(y, p);
            }
            assert(mod_pow_spec(rhs, (c.p - 1) / 2, p) == 1);
            let w = ys[x];
            assert(0 <= w < p && (w * w) % p == rhs);
            lemma_square_roots(y, w, p);
            if y == w {
                lemma_points_listing_contains(c, ys, p, x, 0);
            } else {
                lemma_mod_small(p - w, p);
                assert(pt == affine_point(x, (p - w) % p));
                lemma_points_listing_contains(c, ys, p, x, 1);
            }
        }
    }
}

/// The listing up to `n` only reads the roots of abscissas below `n`.
pub proof fn lemma_points_listing_prefix(c: EllipticCurve, ys1: Seq<int>, ys2: Seq<int>, n: int)
    requires
        forall|v: int| 0 <= v < n ==> #[trigger] ys1[v] == ys2[v],
    ensures
        points_listing(c, ys1, n) == points_listing(c, ys2, n),
    decreases n,
{
    if n > 0 {
        lemma_points_listing_prefix(c, ys1, ys2, n - 1);
    }
}

} // verus!
