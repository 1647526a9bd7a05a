//! Exact segment tests: on which side of a directed line a point lies, and
//! whether a segment meets a box.  Every answer is exact for all `i64`
//! coordinates.
use vstd::prelude::*;

use crate::geom::{Aabb, Pt};

verus! {

/// Twice the signed area of the triangle `p0, p1, (x, y)`.
pub open spec fn left_xy(p0: Pt, p1: Pt, x: int, y: int) -> int {
    (p1[0] - p0[0]) * (y - p0[1]) - (x - p0[0]) * (p1[1] - p0[1])
}

/// Twice the signed area of the triangle `p0, p1, p2`: positive exactly when
/// `p2` lies to the left of the directed line from `p0` to `p1`.
pub open spec fn left_of(p0: Pt, p1: Pt, p2: Pt) -> int {
    left_xy(p0, p1, p2[0] as int, p2[1] as int)
}

/// The sign of an integer.
pub open spec fn sign(v: int) -> int {
    if v > 0 {
        1
    } else if v < 0 {
        -1
    } else {
        0
    }
}

/// The low corner is not above the high corner on either axis.
pub open spec fn is_box(a: Aabb) -> bool {
    a[0][0] <= a[1][0] && a[0][1] <= a[1][1]
}

/// The closed box holds the point.
pub open spec fn in_box(p: Pt, a: Aabb) -> bool {
    a[0][0] <= p[0] <= a[1][0] && a[0][1] <= p[1] <= a[1][1]
}

/// The point that divides the segment `p0 p1` at the fraction `n / d` lies in
/// the closed box (all coordinates multiplied by `d`).
pub open spec fn divides_in_box(a: Aabb, p0: Pt, p1: Pt, n: int, d: int) -> bool {
    &&& 0 <= n <= d
    &&& 0 < d
    &&& d * a[0][0] <= d * p0[0] + n * (p1[0] - p0[0]) <= d * a[1][0]
    &&& d * a[0][1] <= d * p0[1] + n * (p1[1] - p0[1]) <= d * a[1][1]
}

/// The closed segment `p0 p1` and the closed box have a point in common.
pub open spec fn meets_box(a: Aabb, p0: Pt, p1: Pt) -> bool {
    exists|n: int, d: int| divides_in_box(a, p0, p1, n, d)
}

/// On neither axis do both end points lie beyond the same side of the box.
pub open spec fn spans_overlap(a: Aabb, p0: Pt, p1: Pt) -> bool {
    &&& !(p0[0] < a[0][0] && p1[0] < a[0][0])
    &&& !(p0[0] > a[1][0] && p1[0] > a[1][0])
    &&& !(p0[1] < a[0][1] && p1[1] < a[0][1])
    &&& !(p0[1] > a[1][1] && p1[1] > a[1][1])
}

/// All four corners of the box lie strictly to the left of the line.
pub open spec fn corners_left(a: Aabb, p0: Pt, p1: Pt) -> bool {
    &&& left_xy(p0, p1, a[0][0] as int, a[0][1] as int) > 0
    &&& left_xy(p0, p1, a[1][0] as int, a[0][1] as int) > 0
    &&& left_xy(p0, p1, a[1][0] as int, a[1][1] as int) > 0
    &&& left_xy(p0, p1, a[0][0] as int, a[1][1] as int) > 0
}

/// All four corners of the box lie strictly to the right of the line.
pub open spec fn corners_right(a: Aabb, p0: Pt, p1: Pt) -> bool {
    &&& left_xy(p0, p1, a[0][0] as int, a[0][1] as int) < 0
    &&& left_xy(p0, p1, a[1][0] as int, a[0][1] as int) < 0
    &&& left_xy(p0, p1, a[1][0] as int, a[1][1] as int) < 0
    &&& left_xy(p0, p1, a[0][0] as int, a[1][1] as int) < 0
}

/// No axis and no side of the line separates the segment from the box.
pub open spec fn not_separated(a: Aabb, p0: Pt, p1: Pt) -> bool {
    spans_overlap(a, p0, p1) && !corners_left(a, p0, p1) && !corners_right(a, p0, p1)
}

proof fn lemma_mul_le(d: int, x: int, y: int)
    requires
        d >= 0,
        x <= y,
    ensures
        d * x <= d * y,
{
    assert(d * x <= d * y) by (nonlinear_arith)
        requires
            d >= 0,
            x <= y,
    ;
}

/// A segment that lies beyond one side of the box does not meet it.
proof fn lemma_apart_on_axis(lo: int, hi: int, p: int, q: int, n: int, d: int)
    requires
        0 <= n <= d,
        0 < d,
        d * lo <= d * p + n * (q - p) <= d * hi,
    ensures
        !(p < lo && q < lo),
        !(p > hi && q > hi),
{
    assert(d * p + n * (q - p) == (d - n) * p + n * q) by (nonlinear_arith);
    if p < lo && q < lo {
        lemma_mul_le(d - n, p, lo - 1);
        lemma_mul_le(n, q, lo - 1);
        assert((d - n) * (lo - 1) + n * (lo - 1) == d * lo - d) by (nonlinear_arith);
    }
    if p > hi && q > hi {
        lemma_mul_le(d - n, hi + 1, p);
        lemma_mul_le(n, hi + 1, q);
        assert((d - n) * (hi + 1) + n * (hi + 1) == d * hi + d) by (nonlinear_arith);
    }
}

/// The least value of `u * x` over `lo <= x <= hi` is taken at an end.
proof fn lemma_linear_min(u: int, d: int, lo: int, hi: int, x: int)
    requires
        d > 0,
        d * lo <= x <= d * hi,
    ensures
        u * x >= d * (u * lo) || u * x >= d * (u * hi),
        u * x <= d * (u * lo) || u * x <= d * (u * hi),
{
    assert(u * (d * lo) == d * (u * lo)) by (nonlinear_arith);
    assert(u * (d * hi) == d * (u * hi)) by (nonlinear_arith);
    if u >= 0 {
        lemma_mul_le(u, d * lo, x);
        lemma_mul_le(u, x, d * hi);
    } else {
        lemma_mul_le(-u, d * lo, x);
        lemma_mul_le(-u, x, d * hi);
        assert((-u) * (d * lo) == -(u * (d * lo))) by (nonlinear_arith);
        assert((-u) * (d * hi) == -(u * (d * hi))) by (nonlinear_arith);
        assert((-u) * x == -(u * x)) by (nonlinear_arith);
    }
}

proof fn lemma_meets_not_separated(a: Aabb, p0: Pt, p1: Pt, n: int, d: int)
    requires
        is_box(a),
        divides_in_box(a, p0, p1, n, d),
    ensures
        not_separated(a, p0, p1),
{
    let (lox, loy, hix, hiy) = (a[0][0] as int, a[0][1] as int, a[1][0] as int, a[1][1] as int);
    lemma_apart_on_axis(lox, hix, p0[0] as int, p1[0] as int, n, d);
    lemma_apart_on_axis(loy, hiy, p0[1] as int, p1[1] as int, n, d);
    let dx = p1[0] - p0[0];
    let dy = p1[1] - p0[1];
    // the common point, relative to p0 and scaled by d
    let x = n * dx;
    let y = n * dy;
    let (lx, hx) = (lox - p0[0], hix - p0[0]);
    let (ly, hy) = (loy - p0[1], hiy - p0[1]);
    assert(d * lx == d * lox - d * p0[0]) by (nonlinear_arith)
        requires
            lx == lox - p0[0],
    ;
    assert(d * hx == d * hix - d * p0[0]) by (nonlinear_arith)
        requires
            hx == hix - p0[0],
    ;
    assert(d * ly == d * loy - d * p0[1]) by (nonlinear_arith)
        requires
            ly == loy - p0[1],
    ;
    assert(d * hy == d * hiy - d * p0[1]) by (nonlinear_arith)
        requires
            hy == hiy - p0[1],
    ;
    lemma_linear_min(dx, d, ly, hy, y);
    lemma_linear_min(-dy, d, lx, hx, x);
    assert(dx * y + (-dy) * x == 0) by (nonlinear_arith)
        requires
            x == n * dx,
            y == n * dy,
    ;
    // the four corner values, scaled by d
    assert forall|cx: int, cy: int| #[trigger]
        left_xy(p0, p1, cx, cy) == dx * (cy - p0[1]) + (-dy) * (cx - p0[0]) by {
        assert((cx - p0[0]) * dy == -((-dy) * (cx - p0[0]))) by (nonlinear_arith);
    }
    let ll = left_xy(p0, p1, lox, loy);
    let hl = left_xy(p0, p1, hix, loy);
    let hh = left_xy(p0, p1, hix, hiy);
    let lh = left_xy(p0, p1, lox, hiy);
    assert(d * ll == d * (dx * ly) + d * ((-dy) * lx)) by (nonlinear_arith)
        requires
            ll == dx * ly + (-dy) * lx,
    ;
    assert(d * hl == d * (dx * ly) + d * ((-dy) * hx)) by (nonlinear_arith)
        requires
            hl == dx * ly + (-dy) * hx,
    ;
    assert(d * hh == d * (dx * hy) + d * ((-dy) * hx)) by (nonlinear_arith)
        requires
            hh == dx * hy + (-dy) * hx,
    ;
    assert(d * lh == d * (dx * hy) + d * ((-dy) * lx)) by (nonlinear_arith)
        requires
            lh == dx * hy + (-dy) * lx,
    ;
    if corners_left(a, p0, p1) {
        lemma_mul_le(d, 1, ll);
        lemma_mul_le(d, 1, hl);
        lemma_mul_le(d, 1, hh);
        lemma_mul_le(d, 1, lh);
    }
    if corners_right(a, p0, p1) {
        lemma_mul_le(d, ll, -1);
        lemma_mul_le(d, hl, -1);
        lemma_mul_le(d, hh, -1);
        lemma_mul_le(d, lh, -1);
    }
}

/// The fraction of the way along an axis at which a moving coordinate enters
/// `[lo, hi]`, as numerator and denominator.
spec fn enters(lo: int, hi: int, p: int, dp: int) -> (int, int) {
    if dp > 0 {
        (lo - p, dp)
    } else if dp < 0 {
        (p - hi, -dp)
    } else {
        (0, 1)
    }
}

/// The fraction at which it leaves `[lo, hi]` again.
spec fn leaves(lo: int, hi: int, p: int, dp: int) -> (int, int) {
    if dp > 0 {
        (hi - p, dp)
    } else if dp < 0 {
        (p - lo, -dp)
    } else {
        (1, 1)
    }
}

spec fn frac_le(f: (int, int), g: (int, int)) -> bool {
    f.0 * g.1 <= g.0 * f.1
}

proof fn lemma_between_on_axis(lo: int, hi: int, p: int, dp: int, f: (int, int))
    requires
        lo <= hi,
        dp == 0 ==> lo <= p <= hi,
        f.1 > 0,
        frac_le(enters(lo, hi, p, dp), f),
        frac_le(f, leaves(lo, hi, p, dp)),
    ensures
        f.1 * lo <= f.1 * p + f.0 * dp <= f.1 * hi,
{
    let (n, d) = f;
    if dp > 0 {
        assert((lo - p) * d == d * lo - d * p) by (nonlinear_arith);
        assert((hi - p) * d == d * hi - d * p) by (nonlinear_arith);
    } else if dp < 0 {
        assert((p - hi) * d == d * p - d * hi) by (nonlinear_arith);
        assert((p - lo) * d == d * p - d * lo) by (nonlinear_arith);
        assert(n * (-dp) == -(n * dp)) by (nonlinear_arith);
    } else {
        lemma_mul_le(d, lo, p);
        lemma_mul_le(d, p, hi);
        assert(n * dp == 0) by (nonlinear_arith)
            requires
                dp == 0,
        ;
    }
}

/// Comparisons with the start (0) and the end (1) of the segment.
proof fn lemma_frac_ends(f: (int, int))
    ensures
        frac_le(f, (1, 1)) <==> f.0 <= f.1,
        frac_le((0, 1), f) <==> 0 <= f.0,
        frac_le(f, (0, 1)) <==> f.0 <= 0,
{
    assert(f.0 * 1 == f.0 && 1 * f.1 == f.1 && 0 * f.1 == 0) by (nonlinear_arith);
}

proof fn lemma_corner_order(a: Aabb, p0: Pt, p1: Pt)
    requires
        is_box(a),
        not_separated(a, p0, p1),
    ensures
        ({
            let (dx, dy) = (p1[0] - p0[0], p1[1] - p0[1]);
            let ex = enters(a[0][0] as int, a[1][0] as int, p0[0] as int, dx);
            let ey = enters(a[0][1] as int, a[1][1] as int, p0[1] as int, dy);
            let lx = leaves(a[0][0] as int, a[1][0] as int, p0[0] as int, dx);
            let ly = leaves(a[0][1] as int, a[1][1] as int, p0[1] as int, dy);
            &&& dx != 0 && dy != 0 ==> frac_le(ex, ly) && frac_le(ey, lx)
        }),
{
    let (dx, dy) = (p1[0] - p0[0], p1[1] - p0[1]);
    let (lox, loy, hix, hiy) = (a[0][0] as int, a[0][1] as int, a[1][0] as int, a[1][1] as int);
    let (px, py) = (p0[0] as int, p0[1] as int);
    assert(dx * (hiy - py) - dx * (loy - py) == dx * (hiy - loy)) by (nonlinear_arith);
    assert((hix - px) * dy - (lox - px) * dy == (hix - lox) * dy) by (nonlinear_arith);
    if dx > 0 {
        lemma_mul_le(dx, 0, hiy - loy);
    } else {
        lemma_mul_le(-dx, 0, hiy - loy);
        assert((-dx) * (hiy - loy) == -(dx * (hiy - loy))) by (nonlinear_arith);
    }
    if dy > 0 {
        lemma_mul_le(hix - lox, 0, dy);
    } else {
        lemma_mul_le(hix - lox, 0, -dy);
        assert((hix - lox) * (-dy) == -((hix - lox) * dy)) by (nonlinear_arith);
    }
    assert((hiy - py) * dx == dx * (hiy - py)) by (nonlinear_arith);
    assert((loy - py) * dx == dx * (loy - py)) by (nonlinear_arith);
    assert((py - hiy) * dx == -(dx * (hiy - py))) by (nonlinear_arith);
    assert((py - loy) * dx == -(dx * (loy - py))) by (nonlinear_arith);
    assert((px - hix) * dy == -((hix - px) * dy)) by (nonlinear_arith);
    assert((px - lox) * dy == -((lox - px) * dy)) by (nonlinear_arith);
    assert((lox - px) * (-dy) == -((lox - px) * dy)) by (nonlinear_arith);
    assert((hix - px) * (-dy) == -((hix - px) * dy)) by (nonlinear_arith);
    assert((px - hix) * (-dy) == (hix - px) * dy) by (nonlinear_arith);
    assert((px - lox) * (-dy) == (lox - px) * dy) by (nonlinear_arith);
    assert((loy - py) * (-dx) == -(dx * (loy - py))) by (nonlinear_arith);
    assert((hiy - py) * (-dx) == -(dx * (hiy - py))) by (nonlinear_arith);
    assert((py - hiy) * (-dx) == dx * (hiy - py)) by (nonlinear_arith);
    assert((py - loy) * (-dx) == dx * (loy - py)) by (nonlinear_arith);
}

proof fn lemma_not_separated_meets(a: Aabb, p0: Pt, p1: Pt)
    requires
        is_box(a),
        not_separated(a, p0, p1),
    ensures
        meets_box(a, p0, p1),
{
    let (dx, dy) = (p1[0] - p0[0], p1[1] - p0[1]);
    let (lox, loy, hix, hiy) = (a[0][0] as int, a[0][1] as int, a[1][0] as int, a[1][1] as int);
    let (px, py) = (p0[0] as int, p0[1] as int);
    let ex = enters(lox, hix, px, dx);
    let ey = enters(loy, hiy, py, dy);
    let lx = leaves(lox, hix, px, dx);
    let ly = leaves(loy, hiy, py, dy);
    let start = (0int, 1int);
    let stop = (1int, 1int);
    lemma_corner_order(a, p0, p1);
    lemma_frac_ends(ex);
    lemma_frac_ends(ey);
    lemma_frac_ends(lx);
    lemma_frac_ends(ly);
    lemma_frac_ends(start);
    assert(frac_le(ex, lx)) by {
        if dx > 0 {
            lemma_mul_le(dx, lox - px, hix - px);
            assert((lox - px) * dx == dx * (lox - px)) by (nonlinear_arith);
            assert((hix - px) * dx == dx * (hix - px)) by (nonlinear_arith);
        } else if dx < 0 {
            lemma_mul_le(-dx, px - hix, px - lox);
            assert((px - hix) * (-dx) == (-dx) * (px - hix)) by (nonlinear_arith);
            assert((px - lox) * (-dx) == (-dx) * (px - lox)) by (nonlinear_arith);
        }
    }
    assert(frac_le(ey, ly)) by {
        if dy > 0 {
            lemma_mul_le(dy, loy - py, hiy - py);
            assert((loy - py) * dy == dy * (loy - py)) by (nonlinear_arith);
            assert((hiy - py) * dy == dy * (hiy - py)) by (nonlinear_arith);
        } else if dy < 0 {
            lemma_mul_le(-dy, py - hiy, py - loy);
            assert((py - hiy) * (-dy) == (-dy) * (py - hiy)) by (nonlinear_arith);
            assert((py - loy) * (-dy) == (-dy) * (py - loy)) by (nonlinear_arith);
        }
    }
    assert(frac_le(ex, stop) && frac_le(ey, stop) && frac_le(start, lx) && frac_le(start, ly));
    assert(frac_le(ex, ly));
    assert(frac_le(ey, lx));
    // the segment is in the box at the latest of the three lower bounds
    let m = if frac_le(ex, start) {
        start
    } else {
        ex
    };
    let f = if frac_le(ey, m) {
        m
    } else {
        ey
    };
    assert(f.1 > 0);
    assert(frac_le(start, m) && frac_le(ex, m));
    if f == ey {
        // m < ey, so everything not after m is not after ey
        assert(frac_le(m, ey));
        assert(frac_le(ex, ey)) by {
            if m == start {
                assert(ex.0 <= 0);
                assert(ey.0 >= 0);
                assert(ex.0 * ey.1 <= 0) by (nonlinear_arith)
                    requires
                        ex.0 <= 0,
                        ey.1 > 0,
                ;
                assert(ey.0 * ex.1 >= 0) by (nonlinear_arith)
                    requires
                        ey.0 >= 0,
                        ex.1 > 0,
                ;
            }
        }
        assert(frac_le(start, ey)) by {
            if !frac_le(ex, start) {
                assert(ex.0 > 0);
                assert(ex.0 * ey.1 > 0) by (nonlinear_arith)
                    requires
                        ex.0 > 0,
                        ey.1 > 0,
                ;
                assert(ey.0 > 0) by (nonlinear_arith)
                    requires
                        ey.0 * ex.1 > 0,
                        ex.1 > 0,
                ;
            }
        }
    }
    assert(frac_le(ex, f) && frac_le(ey, f) && frac_le(start, f));
    assert(frac_le(f, lx) && frac_le(f, ly) && frac_le(f, stop));
    lemma_between_on_axis(lox, hix, px, dx, f);
    lemma_between_on_axis(loy, hiy, py, dy, f);
    assert(divides_in_box(a, p0, p1, f.0, f.1));
}

/// A segment meets a box exactly when neither an axis nor its own line
/// separates the two.
pub proof fn lemma_meets_box(a: Aabb, p0: Pt, p1: Pt)
    requires
        is_box(a),
    ensures
        meets_box(a, p0, p1) <==> not_separated(a, p0, p1),
{
    if meets_box(a, p0, p1) {
        let (n, d) = choose|n: int, d: int| divides_in_box(a, p0, p1, n, d);
        lemma_meets_not_separated(a, p0, p1, n, d);
    }
    if not_separated(a, p0, p1) {
        lemma_not_separated_meets(a, p0, p1);
    }
}

/// Sign and magnitude of a difference.
fn gap(a: i64, b: i64) -> (r: (bool, u64))
    ensures
        r.0 == (a < b),
        r.1 == if a < b {
            b - a
        } else {
            a - b
        },
{
    if a < b {
        (true, (b as i128 - a as i128) as u64)
    } else {
        (false, (a as i128 - b as i128) as u64)
    }
}

/// Which side of the directed line `p0 -> p1` the point `p2` lies on: 1 for
/// left, -1 for right, 0 on the line.  Exact for all coordinates.
pub fn side(p0: Pt, p1: Pt, p2: Pt) -> (s: i8)
    ensures
        s == sign(left_of(p0, p1, p2)),
{
    let (na, a) = gap(p1[0], p0[0]);
    let (nb, b) = gap(p2[1], p0[1]);
    let (nc, c) = gap(p2[0], p0[0]);
    let (nd, d) = gap(p1[1], p0[1]);
    proof {
        assert(a * b <= u64::MAX * u64::MAX) by (nonlinear_arith)
            requires
                a <= u64::MAX,
                b <= u64::MAX,
        ;
        assert(c * d <= u64::MAX * u64::MAX) by (nonlinear_arith)
            requires
                c <= u64::MAX,
                d <= u64::MAX,
        ;
        assert(0 <= a * b && 0 <= c * d) by (nonlinear_arith);
    }
    let m1: u128 = a as u128 * b as u128;
    let m2: u128 = c as u128 * d as u128;
    let n1: bool = na != nb;
    let n2: bool = nc != nd;
    proof {
        let (sa, sb, sc, sd) = (
            p1[0] - p0[0],
            p2[1] - p0[1],
            p2[0] - p0[0],
            p1[1] - p0[1],
        );
        assert(sa * sb == if n1 {
            -m1
        } else {
            m1 as int
        }) by {
            assert((-sa) * sb == -(sa * sb)) by (nonlinear_arith);
            assert(sa * (-sb) == -(sa * sb)) by (nonlinear_arith);
            assert((-sa) * (-sb) == sa * sb) by (nonlinear_arith);
        }
        assert(sc * sd == if n2 {
            -m2
        } else {
            m2 as int
        }) by {
            assert((-sc) * sd == -(sc * sd)) by (nonlinear_arith);
            assert(sc * (-sd) == -(sc * sd)) by (nonlinear_arith);
            assert((-sc) * (-sd) == sc * sd) by (nonlinear_arith);
        }
    }
    if n1 && !n2 {
        if m1 == 0 && m2 == 0 {
            0
        } else {
            -1
        }
    } else if !n1 && n2 {
        if m1 == 0 && m2 == 0 {
            0
        } else {
            1
        }
    } else if m1 == m2 {
        0
    } else if (m1 > m2) != n1 {
        1
    } else {
        -1
    }
}

} // verus!
