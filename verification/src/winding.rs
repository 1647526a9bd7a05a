//! Winding numbers and how they change along a segment.
//!
//! The winding number of a point is counted along the ray to its right.  When
//! the point moves from `c` to `q`, the count changes by the signed crossings
//! of the segment `c q` and by nothing else: what a single edge contributes
//! beyond that depends on its two end points separately, so it cancels around
//! a closed ring.
use vstd::prelude::*;

use crate::geom::{Aabb, Pt};
use crate::segment::{
    corners_left, corners_right, divides_in_box, in_box, left_of, lemma_meets_box, meets_box, sign,
};

verus! {

/// The contribution of the directed edge `a b` to the winding number of `p`:
/// 1 where it crosses the ray upwards, -1 where it crosses it downwards.
pub open spec fn edge_winding(a: Pt, b: Pt, p: Pt) -> int {
    if a[1] <= p[1] {
        if b[1] > p[1] && left_of(a, b, p) > 0 {
            1
        } else {
            0
        }
    } else if b[1] <= p[1] && left_of(a, b, p) < 0 {
        -1
    } else {
        0
    }
}

/// The vertices of a ring in order, followed by the first one again.
pub open spec fn closed(ring: Seq<Pt>) -> Seq<Pt> {
    if ring.len() == 0 {
        ring
    } else {
        ring.push(ring[0])
    }
}

/// The edges of an open path, summed.
pub open spec fn path_winding(path: Seq<Pt>, p: Pt) -> int
    decreases path.len(),
{
    if path.len() < 2 {
        0
    } else {
        path_winding(path.drop_last(), p) + edge_winding(
            path[path.len() - 2],
            path[path.len() - 1],
            p,
        )
    }
}

/// The signed winding number of `p` with respect to a closed ring.
pub open spec fn winding(ring: Seq<Pt>, p: Pt) -> int {
    path_winding(closed(ring), p)
}

/// Some edge of the path meets the closed box.
pub open spec fn path_touches(path: Seq<Pt>, a: Aabb) -> bool {
    exists|i: int| 0 <= i < path.len() - 1 && meets_box(a, #[trigger] path[i], path[i + 1])
}

/// Some edge of the closed ring meets the closed box.
pub open spec fn ring_touches(ring: Seq<Pt>, a: Aabb) -> bool {
    path_touches(closed(ring), a)
}

/// How the directed segment `c q` crosses the edge `a b`: 1 from its right to
/// its left, -1 from its left to its right, 0 not at all; `None` where an end
/// point lies on the other line and the orientations do not decide.
pub open spec fn edge_crossing(c: Pt, q: Pt, a: Pt, b: Pt) -> Option<int> {
    let (o1, o2) = (left_of(a, b, c), left_of(a, b, q));
    let (o3, o4) = (left_of(c, q, a), left_of(c, q, b));
    if o1 == 0 || o2 == 0 {
        None
    } else if (o1 > 0) == (o2 > 0) {
        Some(0)
    } else if o3 == 0 || o4 == 0 {
        None
    } else if (o3 > 0) == (o4 > 0) {
        Some(0)
    } else if o2 > 0 {
        Some(1)
    } else {
        Some(-1)
    }
}

/// `v` lies above `c`, not above `q`, and to the right of the segment.
spec fn right_of_rising(c: Pt, q: Pt, v: Pt) -> int {
    if c[1] < v[1] <= q[1] && left_of(c, q, v) < 0 {
        1
    } else {
        0
    }
}

/// What an end point of an edge adds when the ray's origin moves from `c` to
/// `q`.
spec fn end_share(c: Pt, q: Pt, v: Pt) -> int {
    if c[1] < q[1] {
        right_of_rising(c, q, v)
    } else if q[1] < c[1] {
        -right_of_rising(q, c, v)
    } else {
        0
    }
}

proof fn lemma_product_sign(x: int, y: int)
    ensures
        x > 0 && y > 0 ==> x * y > 0,
        x > 0 && y < 0 ==> x * y < 0,
        x < 0 && y > 0 ==> x * y < 0,
        x < 0 && y < 0 ==> x * y > 0,
        x == 0 || y == 0 ==> x * y == 0,
{
    assert(x > 0 && y > 0 ==> x * y > 0) by (nonlinear_arith);
    assert(x > 0 && y < 0 ==> x * y < 0) by (nonlinear_arith);
    assert(x < 0 && y > 0 ==> x * y < 0) by (nonlinear_arith);
    assert(x < 0 && y < 0 ==> x * y > 0) by (nonlinear_arith);
    assert(x == 0 || y == 0 ==> x * y == 0) by (nonlinear_arith);
}

/// The four orientations of a segment and an edge, weighted by heights.
proof fn lemma_orientation_identities(c: Pt, q: Pt, a: Pt, b: Pt)
    ensures
        ({
            let (o1, o2) = (left_of(a, b, c), left_of(a, b, q));
            let (o3, o4) = (left_of(c, q, a), left_of(c, q, b));
            &&& (q[1] - c[1]) * o1 + (b[1] - c[1]) * o3 + (c[1] - a[1]) * o4 == 0
            &&& (q[1] - c[1]) * o2 + (b[1] - q[1]) * o3 + (q[1] - a[1]) * o4 == 0
            &&& (b[1] - a[1]) * o3 + (q[1] - a[1]) * o1 - (c[1] - a[1]) * o2 == 0
            &&& (b[1] - a[1]) * o4 - (b[1] - q[1]) * o1 + (b[1] - c[1]) * o2 == 0
        }),
{
    let (o1, o2) = (left_of(a, b, c), left_of(a, b, q));
    let (o3, o4) = (left_of(c, q, a), left_of(c, q, b));
    // everything relative to c
    let (qx, qy) = (q[0] - c[0], q[1] - c[1]);
    let (ax, ay) = (a[0] - c[0], a[1] - c[1]);
    let (bx, by) = (b[0] - c[0], b[1] - c[1]);
    assert(o1 == ax * by - bx * ay) by (nonlinear_arith)
        requires
            o1 == (bx - ax) * (0 - ay) - (0 - ax) * (by - ay),
    ;
    assert(o2 == o1 + o3 - o4) by (nonlinear_arith)
        requires
            o1 == ax * by - bx * ay,
            o2 == (bx - ax) * (qy - ay) - (qx - ax) * (by - ay),
            o3 == qx * ay - ax * qy,
            o4 == qx * by - bx * qy,
    ;
    assert(qy * o1 == qy * (ax * by) - qy * (bx * ay)) by (nonlinear_arith)
        requires
            o1 == ax * by - bx * ay,
    ;
    assert(by * o3 == by * (qx * ay) - by * (ax * qy)) by (nonlinear_arith)
        requires
            o3 == qx * ay - ax * qy,
    ;
    assert(ay * o4 == ay * (qx * by) - ay * (bx * qy)) by (nonlinear_arith)
        requires
            o4 == qx * by - bx * qy,
    ;
    assert(qy * (ax * by) == by * (ax * qy)) by (nonlinear_arith);
    assert(qy * (bx * ay) == ay * (bx * qy)) by (nonlinear_arith);
    assert(by * (qx * ay) == ay * (qx * by)) by (nonlinear_arith);
    assert((0 - ay) * o4 == -(ay * o4)) by (nonlinear_arith);
    assert(qy * o2 == qy * o1 + qy * o3 - qy * o4) by (nonlinear_arith)
        requires
            o2 == o1 + o3 - o4,
    ;
    assert(ay * o2 == ay * o1 + ay * o3 - ay * o4) by (nonlinear_arith)
        requires
            o2 == o1 + o3 - o4,
    ;
    assert(by * o2 == by * o1 + by * o3 - by * o4) by (nonlinear_arith)
        requires
            o2 == o1 + o3 - o4,
    ;
    assert((by - qy) * o3 == by * o3 - qy * o3) by (nonlinear_arith);
    assert((qy - ay) * o4 == qy * o4 - ay * o4) by (nonlinear_arith);
    assert((by - ay) * o3 == by * o3 - ay * o3) by (nonlinear_arith);
    assert((qy - ay) * o1 == qy * o1 - ay * o1) by (nonlinear_arith);
    assert((0 - ay) * o2 == -(ay * o2)) by (nonlinear_arith);
    assert((by - ay) * o4 == by * o4 - ay * o4) by (nonlinear_arith);
    assert((by - qy) * o1 == by * o1 - qy * o1) by (nonlinear_arith);
    assert(b[1] - a[1] == by - ay && b[1] - q[1] == by - qy && q[1] - a[1] == qy - ay && c[1] - a[1]
        == 0 - ay);
}

proof fn lemma_edge_step_rising(c: Pt, q: Pt, a: Pt, b: Pt)
    requires
        c[1] < q[1],
        edge_crossing(c, q, a, b) is Some,
    ensures
        edge_winding(a, b, q) - edge_winding(a, b, c) == edge_crossing(c, q, a, b)->0
            + right_of_rising(c, q, a) - right_of_rising(c, q, b),
{
    let (o1, o2) = (left_of(a, b, c), left_of(a, b, q));
    let (o3, o4) = (left_of(c, q, a), left_of(c, q, b));
    lemma_orientation_identities(c, q, a, b);
    let h = q[1] - c[1];
    let e = b[1] - a[1];
    let u = b[1] - c[1];
    let v = c[1] - a[1];
    let s = b[1] - q[1];
    let t = q[1] - a[1];
    lemma_product_sign(h, o1);
    lemma_product_sign(u, o3);
    lemma_product_sign(v, o4);
    lemma_product_sign(h, o2);
    lemma_product_sign(s, o3);
    lemma_product_sign(t, o4);
    lemma_product_sign(e, o3);
    lemma_product_sign(t, o1);
    lemma_product_sign(v, o2);
    lemma_product_sign(e, o4);
    lemma_product_sign(s, o1);
    lemma_product_sign(u, o2);
}

/// The two orientations of a segment and of its reverse are opposite.
pub proof fn lemma_left_of_reverse(a: Pt, b: Pt, p: Pt)
    ensures
        left_of(b, a, p) == -left_of(a, b, p),
{
    let (ax, ay, bx, by) = (a[0] as int, a[1] as int, b[0] as int, b[1] as int);
    let (px, py) = (p[0] as int, p[1] as int);
    assert((ax - bx) * (py - by) - (px - bx) * (ay - by) == -((bx - ax) * (py - ay) - (px - ax) * (
    by - ay))) by (nonlinear_arith);
}

proof fn lemma_edge_step_level(c: Pt, q: Pt, a: Pt, b: Pt)
    requires
        c[1] == q[1],
        edge_crossing(c, q, a, b) is Some,
    ensures
        edge_winding(a, b, q) - edge_winding(a, b, c) == edge_crossing(c, q, a, b)->0,
{
    let (o1, o2) = (left_of(a, b, c), left_of(a, b, q));
    let (o3, o4) = (left_of(c, q, a), left_of(c, q, b));
    lemma_orientation_identities(c, q, a, b);
    let w = q[0] - c[0];
    let e = b[1] - a[1];
    assert(o3 == w * (a[1] - c[1])) by (nonlinear_arith)
        requires
            o3 == (q[0] - c[0]) * (a[1] - c[1]) - (a[0] - c[0]) * (q[1] - c[1]),
            q[1] == c[1],
            w == q[0] - c[0],
    ;
    assert(o4 == w * (b[1] - c[1])) by (nonlinear_arith)
        requires
            o4 == (q[0] - c[0]) * (b[1] - c[1]) - (b[0] - c[0]) * (q[1] - c[1]),
            q[1] == c[1],
            w == q[0] - c[0],
    ;
    assert(o2 - o1 == -(w * e)) by (nonlinear_arith)
        requires
            o1 == (b[0] - a[0]) * (c[1] - a[1]) - (c[0] - a[0]) * (b[1] - a[1]),
            o2 == (b[0] - a[0]) * (q[1] - a[1]) - (q[0] - a[0]) * (b[1] - a[1]),
            q[1] == c[1],
            w == q[0] - c[0],
            e == b[1] - a[1],
    ;
    lemma_product_sign(w, e);
    lemma_product_sign(w, a[1] - c[1]);
    lemma_product_sign(w, b[1] - c[1]);
}

/// One edge, when the ray's origin moves from `c` to `q` and the orientations
/// decide how the edge is crossed.
proof fn lemma_edge_step(c: Pt, q: Pt, a: Pt, b: Pt)
    requires
        edge_crossing(c, q, a, b) is Some,
    ensures
        edge_winding(a, b, q) - edge_winding(a, b, c) == edge_crossing(c, q, a, b)->0 + end_share(
            c,
            q,
            a,
        ) - end_share(c, q, b),
{
    if c[1] < q[1] {
        lemma_edge_step_rising(c, q, a, b);
    } else if q[1] < c[1] {
        lemma_left_of_reverse(c, q, a);
        lemma_left_of_reverse(c, q, b);
        lemma_edge_step_rising(q, c, a, b);
    } else {
        lemma_edge_step_level(c, q, a, b);
    }
}

/// A point of a box lies on the side of a line on which all its corners lie.
pub proof fn lemma_box_side(a: Aabb, p0: Pt, p1: Pt, c: Pt)
    requires
        in_box(c, a),
    ensures
        corners_left(a, p0, p1) ==> left_of(p0, p1, c) > 0,
        corners_right(a, p0, p1) ==> left_of(p0, p1, c) < 0,
{
    let (dx, dy) = (p1[0] - p0[0], p1[1] - p0[1]);
    let (lx, ly) = (a[0][0] - p0[0], a[0][1] - p0[1]);
    let (hx, hy) = (a[1][0] - p0[0], a[1][1] - p0[1]);
    let (x, y) = (c[0] - p0[0], c[1] - p0[1]);
    assert(dx >= 0 ==> dx * ly <= dx * y <= dx * hy) by (nonlinear_arith)
        requires
            ly <= y <= hy,
    ;
    assert(dx < 0 ==> dx * hy <= dx * y <= dx * ly) by (nonlinear_arith)
        requires
            ly <= y <= hy,
    ;
    assert(dy >= 0 ==> lx * dy <= x * dy <= hx * dy) by (nonlinear_arith)
        requires
            lx <= x <= hx,
    ;
    assert(dy < 0 ==> hx * dy <= x * dy <= lx * dy) by (nonlinear_arith)
        requires
            lx <= x <= hx,
    ;
}

/// A segment beyond one vertical side of both end points of `c q` neither
/// crosses it nor changes what it adds.
proof fn lemma_edge_step_beside(c: Pt, q: Pt, a: Pt, b: Pt)
    requires
        ({
            ||| a[0] < c[0] && b[0] < c[0] && a[0] < q[0] && b[0] < q[0]
            ||| a[0] > c[0] && b[0] > c[0] && a[0] > q[0] && b[0] > q[0]
        }),
    ensures
        edge_winding(a, b, q) - edge_winding(a, b, c) == end_share(c, q, a) - end_share(c, q, b),
{
    lemma_beside_left_of(a, b, c);
    lemma_beside_left_of(a, b, q);
    lemma_beside_left_of(b, a, c);
    lemma_beside_left_of(b, a, q);
    lemma_left_of_reverse(a, b, c);
    lemma_left_of_reverse(a, b, q);
    lemma_beside_left_of(c, q, a);
    lemma_beside_left_of(c, q, b);
    lemma_beside_left_of(q, c, a);
    lemma_beside_left_of(q, c, b);
}

/// A point level with a rising segment and strictly beside it.
proof fn lemma_beside_left_of(p0: Pt, p1: Pt, v: Pt)
    ensures
        p0[1] <= v[1] <= p1[1] && p0[1] < p1[1] && v[0] < p0[0] && v[0] < p1[0] ==> left_of(
            p0,
            p1,
            v,
        ) > 0,
        p0[1] <= v[1] <= p1[1] && p0[1] < p1[1] && v[0] > p0[0] && v[0] > p1[0] ==> left_of(
            p0,
            p1,
            v,
        ) < 0,
{
    let (ax, ay, bx, by) = (p0[0] as int, p0[1] as int, p1[0] as int, p1[1] as int);
    let (x, y) = (v[0] as int, v[1] as int);
    if ay <= y <= by && ay < by {
        // (bx - ax)(y - ay) - (x - ax)(by - ay) = (bx - x)(y - ay) + (ax - x)(by - y)
        assert((bx - ax) * (y - ay) - (x - ax) * (by - ay) == (bx - x) * (y - ay) + (ax - x) * (by
            - y)) by (nonlinear_arith);
        lemma_product_sign(bx - x, y - ay);
        lemma_product_sign(ax - x, by - y);
    }
}

/// One edge that does not meet a box, when the ray's origin moves within it.
proof fn lemma_edge_step_clear(bx: Aabb, c: Pt, q: Pt, a: Pt, b: Pt)
    requires
        in_box(c, bx),
        in_box(q, bx),
        !meets_box(bx, a, b),
    ensures
        edge_winding(a, b, q) - edge_winding(a, b, c) == end_share(c, q, a) - end_share(c, q, b),
{
    lemma_meets_box(bx, a, b);
    if corners_left(bx, a, b) || corners_right(bx, a, b) {
        lemma_box_side(bx, a, b, c);
        lemma_box_side(bx, a, b, q);
        lemma_edge_step(c, q, a, b);
    } else if a[1] < bx[0][1] && b[1] < bx[0][1] || a[1] > bx[1][1] && b[1] > bx[1][1] {
    } else {
        lemma_edge_step_beside(c, q, a, b);
    }
}

/// The crossings of the edges of a path that meet the box, summed, or `None`
/// if one of them is undecided.
pub open spec fn path_crossings_in(bx: Aabb, path: Seq<Pt>, c: Pt, q: Pt) -> Option<int>
    decreases path.len(),
{
    if path.len() < 2 {
        Some(0)
    } else {
        let (a, b) = (path[path.len() - 2], path[path.len() - 1]);
        match path_crossings_in(bx, path.drop_last(), c, q) {
            None => None,
            Some(t) => if !meets_box(bx, a, b) {
                Some(t)
            } else {
                match edge_crossing(c, q, a, b) {
                    None => None,
                    Some(d) => Some(t + d),
                }
            },
        }
    }
}

proof fn lemma_path_step(bx: Aabb, path: Seq<Pt>, c: Pt, q: Pt)
    requires
        in_box(c, bx),
        in_box(q, bx),
        path_crossings_in(bx, path, c, q) is Some,
        path.len() > 0,
    ensures
        path_winding(path, q) - path_winding(path, c) == path_crossings_in(bx, path, c, q)->0
            + end_share(c, q, path[0]) - end_share(c, q, path.last()),
    decreases path.len(),
{
    if path.len() >= 2 {
        let (a, b) = (path[path.len() - 2], path[path.len() - 1]);
        lemma_path_step(bx, path.drop_last(), c, q);
        if meets_box(bx, a, b) {
            lemma_edge_step(c, q, a, b);
        } else {
            lemma_edge_step_clear(bx, c, q, a, b);
        }
    }
}

/// The localized winding test: for two points of a box, the winding number of
/// the second is that of the first plus the signed crossings of only those
/// ring edges that meet the box.
pub proof fn theorem_localized_winding(bx: Aabb, ring: Seq<Pt>, c: Pt, q: Pt)
    requires
        in_box(c, bx),
        in_box(q, bx),
        path_crossings_in(bx, closed(ring), c, q) is Some,
    ensures
        winding(ring, q) == winding(ring, c) + path_crossings_in(bx, closed(ring), c, q)->0,
{
    if ring.len() > 0 {
        lemma_path_step(bx, closed(ring), c, q);
    }
}

proof fn lemma_clear_path_crossings(bx: Aabb, path: Seq<Pt>, c: Pt, q: Pt)
    requires
        !path_touches(path, bx),
    ensures
        path_crossings_in(bx, path, c, q) == Some(0int),
    decreases path.len(),
{
    if path.len() >= 2 {
        assert(!meets_box(bx, path[path.len() - 2], path[path.len() - 2 + 1]));
        assert(!path_touches(path.drop_last(), bx)) by {
            if path_touches(path.drop_last(), bx) {
                let i = choose|i: int|
                    0 <= i < path.drop_last().len() - 1 && meets_box(
                        bx,
                        #[trigger] path.drop_last()[i],
                        path.drop_last()[i + 1],
                    );
                assert(meets_box(bx, path[i], path[i + 1]));
            }
        }
        lemma_clear_path_crossings(bx, path.drop_last(), c, q);
    }
}

/// A ring whose boundary stays clear of a box winds equally often around all
/// points of the box.
pub proof fn theorem_winding_constant_in_clear_box(bx: Aabb, ring: Seq<Pt>, c: Pt, q: Pt)
    requires
        in_box(c, bx),
        in_box(q, bx),
        !ring_touches(ring, bx),
    ensures
        winding(ring, c) == winding(ring, q),
{
    lemma_clear_path_crossings(bx, closed(ring), c, q);
    theorem_localized_winding(bx, ring, c, q);
}

/// 1 where `v` lies above the level of `p`.
spec fn above(v: Pt, p: Pt) -> int {
    if v[1] > p[1] {
        1
    } else {
        0
    }
}

/// A path that crosses a level upwards has to come back down before it can do
/// so again.
pub proof fn lemma_path_winding_bound(path: Seq<Pt>, p: Pt)
    ensures
        -path.len() <= 2 * path_winding(path, p) <= path.len(),
        path.len() > 0 && path[0] == path.last() ==> -path.len() < 2 * path_winding(path, p)
            < path.len(),
{
    if path.len() > 0 {
        lemma_path_winding_levels(path, p);
    }
}

proof fn lemma_path_winding_levels(path: Seq<Pt>, p: Pt)
    requires
        path.len() > 0,
    ensures
        2 * path_winding(path, p) <= path.len() - 1 + above(path.last(), p) - above(path[0], p),
        -2 * path_winding(path, p) <= path.len() - 1 - above(path.last(), p) + above(path[0], p),
    decreases path.len(),
{
    if path.len() >= 2 {
        lemma_path_winding_levels(path.drop_last(), p);
    }
}

/// Two paths that join end to start.
pub open spec fn join(first: Seq<Pt>, second: Seq<Pt>) -> Seq<Pt> {
    first + second.drop_first()
}

pub proof fn lemma_path_winding_join(first: Seq<Pt>, second: Seq<Pt>, p: Pt)
    requires
        first.len() > 0,
        second.len() > 0,
        first.last() == second[0],
    ensures
        path_winding(join(first, second), p) == path_winding(first, p) + path_winding(second, p),
    decreases second.len(),
{
    let whole = join(first, second);
    if second.len() == 1 {
        assert(whole =~= first);
    } else {
        lemma_path_winding_join(first, second.drop_last(), p);
        assert(whole.drop_last() =~= join(first, second.drop_last()));
        assert(whole[whole.len() - 2] == second[second.len() - 2]);
        assert(whole.last() == second.last());
    }
}

pub proof fn lemma_path_crossings_join(
    bx: Aabb,
    first: Seq<Pt>,
    second: Seq<Pt>,
    c: Pt,
    q: Pt,
)
    requires
        first.len() > 0,
        second.len() > 0,
        first.last() == second[0],
    ensures
        path_crossings_in(bx, join(first, second), c, q) == match (
            path_crossings_in(bx, first, c, q),
            path_crossings_in(bx, second, c, q),
        ) {
            (Some(s), Some(t)) => Some(s + t),
            _ => None::<int>,
        },
    decreases second.len(),
{
    let whole = join(first, second);
    if second.len() == 1 {
        assert(whole =~= first);
    } else {
        lemma_path_crossings_join(bx, first, second.drop_last(), c, q);
        assert(whole.drop_last() =~= join(first, second.drop_last()));
        assert(whole[whole.len() - 2] == second[second.len() - 2]);
        assert(whole.last() == second.last());
    }
}

/// The ring that starts at vertex `k`.
pub open spec fn rotated(ring: Seq<Pt>, k: int) -> Seq<Pt> {
    ring.skip(k) + ring.take(k)
}

/// The winding number does not depend on the vertex at which a ring starts.
pub proof fn theorem_winding_rotation(ring: Seq<Pt>, k: int, p: Pt)
    requires
        0 <= k <= ring.len(),
    ensures
        winding(rotated(ring, k), p) == winding(ring, p),
{
    if k == 0 || k == ring.len() {
        assert(rotated(ring, k) =~= ring);
    } else {
        let head = ring.take(k + 1);
        let tail = ring.skip(k).push(ring[0]);
        assert(closed(ring) =~= join(head, tail));
        assert(closed(rotated(ring, k)) =~= join(tail, head));
        lemma_path_winding_join(head, tail, p);
        lemma_path_winding_join(tail, head, p);
    }
}

proof fn lemma_edge_winding_reverse(a: Pt, b: Pt, p: Pt)
    ensures
        edge_winding(b, a, p) == -edge_winding(a, b, p),
{
    lemma_left_of_reverse(a, b, p);
}

proof fn lemma_path_winding_reverse(path: Seq<Pt>, p: Pt)
    ensures
        path_winding(path.reverse(), p) == -path_winding(path, p),
    decreases path.len(),
{
    if path.len() >= 2 {
        let (a, b) = (path[path.len() - 2], path.last());
        let rest = path.drop_last();
        let edge = seq![b, a];
        lemma_path_winding_reverse(rest, p);
        assert(path.reverse() =~= join(edge, rest.reverse()));
        lemma_path_winding_join(edge, rest.reverse(), p);
        assert(edge.drop_last().len() == 1);
        assert(path_winding(edge.drop_last(), p) == 0);
        lemma_edge_winding_reverse(a, b, p);
    } else {
        assert(path.reverse().len() == path.len());
    }
}

/// A ring traversed the other way round has the opposite winding number.
pub proof fn theorem_winding_reverse(ring: Seq<Pt>, p: Pt)
    ensures
        winding(ring.reverse(), p) == -winding(ring, p),
{
    if ring.len() > 0 {
        let back = ring.reverse();
        assert(closed(ring).reverse() =~= seq![ring[0]] + back);
        lemma_path_winding_reverse(closed(ring), p);
        assert(rotated(back, back.len() - 1) =~= seq![ring[0]] + back.drop_last());
        assert(closed(rotated(back, back.len() - 1)) =~= seq![ring[0]] + back);
        theorem_winding_rotation(back, back.len() - 1, p);
    } else {
        assert(ring.reverse() =~= ring);
    }
}

/// Reversing a segment does not change what it meets.
pub proof fn lemma_meets_box_reverse(bx: Aabb, a: Pt, b: Pt)
    ensures
        meets_box(bx, a, b) <==> meets_box(bx, b, a),
{
    if meets_box(bx, a, b) {
        lemma_meets_box_reverse_one(bx, a, b);
    }
    if meets_box(bx, b, a) {
        lemma_meets_box_reverse_one(bx, b, a);
    }
}

proof fn lemma_meets_box_reverse_one(bx: Aabb, a: Pt, b: Pt)
    requires
        meets_box(bx, a, b),
    ensures
        meets_box(bx, b, a),
{
    let (n, d) = choose|n: int, d: int| divides_in_box(bx, a, b, n, d);
    assert(d * b[0] + (d - n) * (a[0] - b[0]) == d * a[0] + n * (b[0] - a[0])) by (nonlinear_arith);
    assert(d * b[1] + (d - n) * (a[1] - b[1]) == d * a[1] + n * (b[1] - a[1])) by (nonlinear_arith);
    assert(divides_in_box(bx, b, a, d - n, d));
}

/// Which boxes a ring touches does not depend on the direction of traversal.
pub proof fn theorem_ring_touches_reverse(ring: Seq<Pt>, bx: Aabb)
    ensures
        ring_touches(ring.reverse(), bx) <==> ring_touches(ring, bx),
{
    assert(ring.reverse().reverse() =~= ring);
    if ring_touches(ring, bx) {
        lemma_ring_touches_reverse_one(ring, bx);
    }
    if ring_touches(ring.reverse(), bx) {
        lemma_ring_touches_reverse_one(ring.reverse(), bx);
    }
}

proof fn lemma_ring_touches_reverse_one(ring: Seq<Pt>, bx: Aabb)
    requires
        ring_touches(ring, bx),
    ensures
        ring_touches(ring.reverse(), bx),
{
    let path = closed(ring);
    let i = choose|i: int|
        0 <= i < path.len() - 1 && meets_box(bx, #[trigger] path[i], path[i + 1]);
    lemma_meets_box_reverse(bx, path[i], path[i + 1]);
    let back = closed(ring.reverse());
    let n = ring.len() as int;
    let j = if i == n - 1 {
        n - 1
    } else {
        n - 2 - i
    };
    assert(back[j] == path[i + 1]);
    assert(back[j + 1] == path[i]);
}

/// A ring inside a box does not wind around a point outside it.
pub proof fn theorem_winding_outside_box(bx: Aabb, ring: Seq<Pt>, p: Pt)
    requires
        forall|i: int| 0 <= i < ring.len() ==> in_box(#[trigger] ring[i], bx),
        !in_box(p, bx),
    ensures
        winding(ring, p) == 0,
{
    if ring.len() > 0 {
        let path = closed(ring);
        assert forall|i: int| 0 <= i < path.len() implies in_box(#[trigger] path[i], bx) by {
            if i == ring.len() {
                assert(in_box(ring[0], bx));
            } else {
                assert(in_box(ring[i], bx));
            }
        }
        lemma_path_winding_outside(bx, path, p);
    }
}

proof fn lemma_path_winding_outside(bx: Aabb, path: Seq<Pt>, p: Pt)
    requires
        path.len() > 0,
        forall|i: int| 0 <= i < path.len() ==> in_box(#[trigger] path[i], bx),
        !in_box(p, bx),
    ensures
        path_winding(path, p) == if bx[0][1] <= p[1] <= bx[1][1] && p[0] < bx[0][0] {
            above(path.last(), p) - above(path[0], p)
        } else {
            0
        },
    decreases path.len(),
{
    if path.len() >= 2 {
        let (a, b) = (path[path.len() - 2], path.last());
        assert(in_box(a, bx) && in_box(b, bx));
        assert forall|i: int| 0 <= i < path.drop_last().len() implies in_box(
            #[trigger] path.drop_last()[i],
            bx,
        ) by {
            assert(in_box(path[i], bx));
        }
        lemma_path_winding_outside(bx, path.drop_last(), p);
        lemma_beside_left_of(a, b, p);
        lemma_beside_left_of(b, a, p);
        lemma_left_of_reverse(a, b, p);
    }
}

/// A crossing is undecided only where an end point of the segment or of the edge
/// lies on the other's line.  Where none does, the segment crosses the edge
/// exactly if each has its end points on both sides of the other, and it crosses
/// from the side of its start to the side of its end.
pub proof fn law_crossings_are_decided_in_general_position(c: Pt, q: Pt, a: Pt, b: Pt)
    ensures
        edge_crossing(c, q, a, b) is None ==> left_of(a, b, c) == 0 || left_of(a, b, q) == 0
            || left_of(c, q, a) == 0 || left_of(c, q, b) == 0,
        left_of(a, b, c) != 0 && left_of(a, b, q) != 0 && left_of(c, q, a) != 0 && left_of(c, q, b)
            != 0 ==> {
            let apart = sign(left_of(a, b, c)) != sign(left_of(a, b, q)) && sign(left_of(c, q, a))
                != sign(left_of(c, q, b));
            &&& edge_crossing(c, q, a, b) matches Some(d) && d == (if apart {
                sign(left_of(a, b, q))
            } else {
                0
            })
        },
{
}

} // verus!
