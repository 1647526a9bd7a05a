//! Geometry primitives on quantized integer points: boxes, orientation,
//! winding numbers and areas.  None of the answers depends on the direction in
//! which a ring is traversed, save for the sign of its winding number and area.
use vstd::prelude::*;

use crate::segment::{in_box, is_box, left_of, lemma_meets_box, meets_box, side};
use crate::winding::{
    closed, edge_winding, lemma_path_winding_bound, path_winding, ring_touches, rotated,
    theorem_ring_touches_reverse, theorem_winding_constant_in_clear_box, theorem_winding_reverse,
    winding,
};

verus! {

/// A quantized point: `[x, y]` in fixed-point units.
pub type Pt = [i64; 2];

/// An axis-aligned box: `[[xLo, yLo], [xHi, yHi]]`.
pub type Aabb = [Pt; 2];

/// How a polygon relates to a box.
#[derive(Debug, Clone, Copy, PartialEq, Eq, Structural)]
pub enum AabbPoly {
    /// No overlap.
    Disjoint,
    /// The polygon boundary crosses the box, or the polygon lies inside it.
    Crosses,
    /// The polygon strictly encloses the whole box.
    Contains,
}

/// How a segment relates to a box.
#[derive(Debug, Clone, Copy, PartialEq, Eq, Structural)]
pub enum SegRel {
    /// No point in common.
    Outside,
    /// Both end points in the box.
    Inside,
    /// A point in common, and an end point outside.
    Crosses,
}

/// The closed boxes have a point in common.
pub open spec fn boxes_overlap(a: Aabb, b: Aabb) -> bool {
    &&& a[0][0] <= b[1][0] && b[0][0] <= a[1][0]
    &&& a[0][1] <= b[1][1] && b[0][1] <= a[1][1]
}

/// `a` is the smallest box that holds every vertex: it holds them all, and
/// each of its four sides passes through one.  The box of no vertices at all
/// is the inside-out box that every vertex would enlarge.
pub open spec fn is_aabb_of(a: Aabb, poly: Seq<Pt>) -> bool {
    if poly.len() == 0 {
        a[0][0] == i64::MAX && a[0][1] == i64::MAX && a[1][0] == i64::MIN && a[1][1] == i64::MIN
    } else {
        &&& forall|i: int| 0 <= i < poly.len() ==> in_box(#[trigger] poly[i], a)
        &&& exists|i: int| 0 <= i < poly.len() && (#[trigger] poly[i])[0] == a[0][0]
        &&& exists|i: int| 0 <= i < poly.len() && (#[trigger] poly[i])[1] == a[0][1]
        &&& exists|i: int| 0 <= i < poly.len() && (#[trigger] poly[i])[0] == a[1][0]
        &&& exists|i: int| 0 <= i < poly.len() && (#[trigger] poly[i])[1] == a[1][1]
    }
}

/// The relation of the segment `p0 p1` to a box.
pub open spec fn segment_relation(a: Aabb, p0: Pt, p1: Pt) -> SegRel {
    if in_box(p0, a) && in_box(p1, a) {
        SegRel::Inside
    } else if meets_box(a, p0, p1) {
        SegRel::Crosses
    } else {
        SegRel::Outside
    }
}

/// Every corner of the box has a non-zero winding number.
pub open spec fn encloses_corners(ring: Seq<Pt>, a: Aabb) -> bool {
    &&& winding(ring, [a[0][0], a[0][1]]) != 0
    &&& winding(ring, [a[1][0], a[0][1]]) != 0
    &&& winding(ring, [a[1][0], a[1][1]]) != 0
    &&& winding(ring, [a[0][0], a[1][1]]) != 0
}

/// The relation of a polygon to a box.
pub open spec fn polygon_relation(a: Aabb, ring: Seq<Pt>) -> AabbPoly {
    if ring_touches(ring, a) {
        AabbPoly::Crosses
    } else if encloses_corners(ring, a) {
        AabbPoly::Contains
    } else {
        AabbPoly::Disjoint
    }
}

/// Inside the exterior ring and outside every hole.
pub open spec fn rings_contain(outer: Seq<Pt>, holes: Seq<Vec<Pt>>, p: Pt) -> bool {
    &&& winding(outer, p) != 0
    &&& forall|i: int| 0 <= i < holes.len() ==> winding((#[trigger] holes[i])@, p) == 0
}

/// Twice the signed area swept from the origin along an edge.
pub open spec fn edge_area2(a: Pt, b: Pt) -> int {
    a[0] * b[1] - b[0] * a[1]
}

/// Twice the signed area swept along an open path.
pub open spec fn path_area2(path: Seq<Pt>) -> int
    decreases path.len(),
{
    if path.len() < 2 {
        0
    } else {
        path_area2(path.drop_last()) + edge_area2(path[path.len() - 2], path[path.len() - 1])
    }
}

/// The signed doubled area of a ring.
pub open spec fn area2(ring: Seq<Pt>) -> int {
    path_area2(closed(ring))
}

/// The second path is the first one, each vertex moved by the same vector.
pub open spec fn is_moved(path: Seq<Pt>, moved: Seq<Pt>, dx: int, dy: int) -> bool {
    &&& moved.len() == path.len()
    &&& forall|i: int|
        0 <= i < path.len() ==> (#[trigger] moved[i])[0] == path[i][0] + dx && moved[i][1]
            == path[i][1] + dy
}

pub open spec fn fits_i64(v: int) -> bool {
    i64::MIN <= v <= i64::MAX
}

/// The doubled area stays within `i64`, and so does what each edge adds to it.
pub open spec fn area2_fits(ring: Seq<Pt>) -> bool {
    let path = closed(ring);
    &&& fits_i64(area2(ring))
    &&& forall|k: int|
        0 <= k < path.len() - 1 ==> fits_i64((#[trigger] path[k])[0] * path[k + 1][1]) && fits_i64(
            path[k + 1][0] * path[k][1],
        ) && fits_i64(edge_area2(path[k], path[k + 1]))
}

/// Every intermediate value of the triangle's doubled area stays within `i64`.
pub open spec fn left_of_fits(p0: Pt, p1: Pt, p2: Pt) -> bool {
    &&& fits_i64(p1[0] - p0[0]) && fits_i64(p2[1] - p0[1])
    &&& fits_i64(p2[0] - p0[0]) && fits_i64(p1[1] - p0[1])
    &&& fits_i64((p1[0] - p0[0]) * (p2[1] - p0[1]))
    &&& fits_i64((p2[0] - p0[0]) * (p1[1] - p0[1]))
    &&& fits_i64(left_of(p0, p1, p2))
}

/// Do the two closed boxes overlap?
pub fn aabbs_overlap(a: &Aabb, b: &Aabb) -> (r: bool)
    ensures
        r == boxes_overlap(*a, *b),
{
    !(a[1][0] < b[0][0] || a[0][0] > b[1][0] || a[1][1] < b[0][1] || a[0][1] > b[1][1])
}

/// Does the closed box hold the point?
pub fn point_in_aabb(p: Pt, a: &Aabb) -> (r: bool)
    ensures
        r == in_box(p, *a),
{
    p[0] >= a[0][0] && p[0] <= a[1][0] && p[1] >= a[0][1] && p[1] <= a[1][1]
}

/// The bounding box of a vertex list.
pub fn poly_aabb(poly: &[Pt]) -> (r: Aabb)
    ensures
        is_aabb_of(r, poly@),
{
    let n = poly.len();
    if n == 0 {
        return [[i64::MAX, i64::MAX], [i64::MIN, i64::MIN]];
    }
    let mut lo: Pt = poly[0];
    let mut hi: Pt = poly[0];
    let mut i: usize = 1;
    proof {
        assert(poly@.take(1)[0] == poly@[0]);
    }
    while i < n
        invariant
            n == poly@.len(),
            1 <= i <= n,
            is_aabb_of([lo, hi], poly@.take(i as int)),
        decreases n - i,
    {
        let v = poly[i];
        let ghost old_lo = lo;
        let ghost old_hi = hi;
        if v[0] < lo[0] {
            lo[0] = v[0];
        }
        if v[0] > hi[0] {
            hi[0] = v[0];
        }
        if v[1] < lo[1] {
            lo[1] = v[1];
        }
        if v[1] > hi[1] {
            hi[1] = v[1];
        }
        proof {
            lemma_aabb_grows(old_lo, old_hi, lo, hi, poly@, i as int);
        }
        i += 1;
    }
    proof {
        assert(poly@.take(n as int) =~= poly@);
    }
    [lo, hi]
}

proof fn lemma_aabb_grows(lo: Pt, hi: Pt, lo2: Pt, hi2: Pt, poly: Seq<Pt>, k: int)
    requires
        1 <= k < poly.len(),
        is_aabb_of([lo, hi], poly.take(k)),
        ({
            let v = poly[k];
            &&& lo2[0] == if v[0] < lo[0] { v[0] } else { lo[0] }
            &&& hi2[0] == if v[0] > hi[0] { v[0] } else { hi[0] }
            &&& lo2[1] == if v[1] < lo[1] { v[1] } else { lo[1] }
            &&& hi2[1] == if v[1] > hi[1] { v[1] } else { hi[1] }
        }),
    ensures
        is_aabb_of([lo2, hi2], poly.take(k + 1)),
{
    let a: Aabb = [lo, hi];
    let b: Aabb = [lo2, hi2];
    let (s, t) = (poly.take(k), poly.take(k + 1));
    assert(t[k] == poly[k]);
    assert forall|i: int| 0 <= i < t.len() implies in_box(#[trigger] t[i], b) by {
        if i < k {
            assert(in_box(s[i], a));
        }
    }
    let i0 = choose|i: int| 0 <= i < s.len() && (#[trigger] s[i])[0] == a[0][0];
    let i1 = choose|i: int| 0 <= i < s.len() && (#[trigger] s[i])[1] == a[0][1];
    let i2 = choose|i: int| 0 <= i < s.len() && (#[trigger] s[i])[0] == a[1][0];
    let i3 = choose|i: int| 0 <= i < s.len() && (#[trigger] s[i])[1] == a[1][1];
    assert(t[i0] == s[i0] && t[i1] == s[i1] && t[i2] == s[i2] && t[i3] == s[i3]);
    let j0 = if lo2[0] == lo[0] { i0 } else { k };
    let j1 = if lo2[1] == lo[1] { i1 } else { k };
    let j2 = if hi2[0] == hi[0] { i2 } else { k };
    let j3 = if hi2[1] == hi[1] { i3 } else { k };
    assert(t[j0][0] == b[0][0]);
    assert(t[j1][1] == b[0][1]);
    assert(t[j2][0] == b[1][0]);
    assert(t[j3][1] == b[1][1]);
}

/// The relation of the segment `p0 p1` to a box.
pub fn seg_intersects_aabb(a: &Aabb, p0: Pt, p1: Pt) -> (r: SegRel)
    requires
        is_box(*a),
    ensures
        r == segment_relation(*a, p0, p1),
{
    proof {
        lemma_meets_box(*a, p0, p1);
    }
    if point_in_aabb(p0, a) && point_in_aabb(p1, a) {
        return SegRel::Inside;
    }
    if p0[0] < a[0][0] && p1[0] < a[0][0] || p0[0] > a[1][0] && p1[0] > a[1][0] || p0[1] < a[0][1]
        && p1[1] < a[0][1] || p0[1] > a[1][1] && p1[1] > a[1][1] {
        return SegRel::Outside;
    }
    let s0 = side(p0, p1, [a[0][0], a[0][1]]);
    let s1 = side(p0, p1, [a[1][0], a[0][1]]);
    let s2 = side(p0, p1, [a[1][0], a[1][1]]);
    let s3 = side(p0, p1, [a[0][0], a[1][1]]);
    if s0 > 0 && s1 > 0 && s2 > 0 && s3 > 0 || s0 < 0 && s1 < 0 && s2 < 0 && s3 < 0 {
        SegRel::Outside
    } else {
        SegRel::Crosses
    }
}

/// Does edge `p0 -> p1` touch or cross the box (fully inside counts)?
pub fn edge_touches_aabb(a: &Aabb, p0: Pt, p1: Pt) -> (r: bool)
    requires
        is_box(*a),
    ensures
        r == meets_box(*a, p0, p1),
{
    proof {
        lemma_inside_meets(*a, p0, p1);
    }
    seg_intersects_aabb(a, p0, p1) != SegRel::Outside
}

/// A segment that starts in a box meets it.
pub proof fn lemma_inside_meets(a: Aabb, p0: Pt, p1: Pt)
    requires
        is_box(a),
    ensures
        in_box(p0, a) || in_box(p1, a) ==> meets_box(a, p0, p1),
{
    lemma_meets_box(a, p0, p1);
    let l0 = left_of(p0, p1, p0);
    assert(l0 == 0) by (nonlinear_arith)
        requires
            l0 == (p1[0] - p0[0]) * (p0[1] - p0[1]) - (p0[0] - p0[0]) * (p1[1] - p0[1]),
    ;
    let l1 = left_of(p0, p1, p1);
    assert(l1 == 0) by (nonlinear_arith)
        requires
            l1 == (p1[0] - p0[0]) * (p1[1] - p0[1]) - (p1[0] - p0[0]) * (p1[1] - p0[1]),
    ;
    if in_box(p0, a) {
        crate::winding::lemma_box_side(a, p0, p1, p0);
    }
    if in_box(p1, a) {
        crate::winding::lemma_box_side(a, p0, p1, p1);
    }
}

/// Twice the signed area of triangle `p0, p1, p2`: positive if `p2` is left of
/// `p0 -> p1`.
pub fn is_left(p0: Pt, p1: Pt, p2: Pt) -> (r: i64)
    requires
        left_of_fits(p0, p1, p2),
    ensures
        r == left_of(p0, p1, p2),
{
    (p1[0] - p0[0]) * (p2[1] - p0[1]) - (p2[0] - p0[0]) * (p1[1] - p0[1])
}

/// The contribution of one edge to the winding number of a point.
fn edge_turn(cur: Pt, next: Pt, point: Pt) -> (r: i64)
    ensures
        r == edge_winding(cur, next, point),
{
    if cur[1] <= point[1] {
        if next[1] > point[1] && side(cur, next, point) > 0 {
            return 1;
        }
    } else if next[1] <= point[1] && side(cur, next, point) < 0 {
        return -1;
    }
    0
}

/// Classify a polygon against a box, independent of winding order: the box is
/// contained iff no edge touches it and every corner has a non-zero winding
/// number.
pub fn aabb_intersects_poly(aabb: &Aabb, poly: &[Pt]) -> (r: AabbPoly)
    requires
        is_box(*aabb),
    ensures
        r == polygon_relation(*aabb, poly@),
{
    let c0: Pt = [aabb[0][0], aabb[0][1]];
    let c1: Pt = [aabb[1][0], aabb[0][1]];
    let c2: Pt = [aabb[1][0], aabb[1][1]];
    let c3: Pt = [aabb[0][0], aabb[1][1]];
    let (mut w0, mut w1, mut w2, mut w3) = (0i64, 0i64, 0i64, 0i64);
    let n = poly.len();
    let ghost path = closed(poly@);
    let mut i: usize = 0;
    proof {
        assert(path.len() > 0 ==> path.take(1).len() == 1);
    }
    while i < n
        invariant
            n == poly@.len(),
            0 <= i <= n,
            is_box(*aabb),
            path == closed(poly@),
            n > 0 ==> w0 == path_winding(path.take(i + 1), c0),
            n > 0 ==> w1 == path_winding(path.take(i + 1), c1),
            n > 0 ==> w2 == path_winding(path.take(i + 1), c2),
            n > 0 ==> w3 == path_winding(path.take(i + 1), c3),
            n == 0 ==> w0 == 0,
            forall|k: int| 0 <= k < i ==> !meets_box(*aabb, #[trigger] path[k], path[k + 1]),
        decreases n - i,
    {
        let cur = poly[i];
        let next = poly[if i == n - 1 {
            0
        } else {
            i + 1
        }];
        assert(cur == path[i as int] && next == path[i + 1]);
        proof {
            lemma_inside_meets(*aabb, cur, next);
        }
        // a polygon vertex inside the box means overlap even if no edge crosses
        if point_in_aabb(cur, aabb) {
            return AabbPoly::Crosses;
        }
        if seg_intersects_aabb(aabb, cur, next) == SegRel::Crosses {
            return AabbPoly::Crosses;
        }
        proof {
            assert(path.take(i + 2).drop_last() =~= path.take(i + 1));
            lemma_path_winding_bound(path.take(i + 2), c0);
            lemma_path_winding_bound(path.take(i + 2), c1);
            lemma_path_winding_bound(path.take(i + 2), c2);
            lemma_path_winding_bound(path.take(i + 2), c3);
        }
        w0 = w0 + edge_turn(cur, next, c0);
        w1 = w1 + edge_turn(cur, next, c1);
        w2 = w2 + edge_turn(cur, next, c2);
        w3 = w3 + edge_turn(cur, next, c3);
        i += 1;
    }
    proof {
        assert(n > 0 ==> path.take(n + 1) =~= path);
        assert(!ring_touches(poly@, *aabb));
    }
    if w0 != 0 && w1 != 0 && w2 != 0 && w3 != 0 {
        AabbPoly::Contains
    } else {
        AabbPoly::Disjoint
    }
}

/// Signed winding number of `point` with respect to the closed ring `poly`.
pub fn poly_winding(poly: &[Pt], point: Pt) -> (r: i64)
    ensures
        r == winding(poly@, point),
{
    let mut wn: i64 = 0;
    let n = poly.len();
    let ghost path = closed(poly@);
    let mut i: usize = 0;
    proof {
        assert(path.len() > 0 ==> path.take(1).len() == 1);
    }
    while i < n
        invariant
            n == poly@.len(),
            0 <= i <= n,
            path == closed(poly@),
            n > 0 ==> wn == path_winding(path.take(i + 1), point),
            n == 0 ==> wn == 0,
        decreases n - i,
    {
        let cur = poly[i];
        let next = poly[if i == n - 1 {
            0
        } else {
            i + 1
        }];
        proof {
            assert(path.take(i + 2).drop_last() =~= path.take(i + 1));
            lemma_path_winding_bound(path.take(i + 2), point);
        }
        wn = wn + edge_turn(cur, next, point);
        i += 1;
    }
    proof {
        assert(n > 0 ==> path.take(n + 1) =~= path);
    }
    wn
}

/// Does the ring wind around the point?
pub fn poly_contains_point(poly: &[Pt], point: Pt) -> (r: bool)
    ensures
        r == (winding(poly@, point) != 0),
{
    poly_winding(poly, point) != 0
}

/// Containment for a polygon with holes: inside the exterior and outside every
/// interior ring.
pub fn rings_contain_point(outer: &[Pt], holes: &[Vec<Pt>], point: Pt) -> (r: bool)
    ensures
        r == rings_contain(outer@, holes@, point),
{
    if !poly_contains_point(outer, point) {
        return false;
    }
    let mut i: usize = 0;
    while i < holes.len()
        invariant
            0 <= i <= holes@.len(),
            winding(outer@, point) != 0,
            forall|k: int| 0 <= k < i ==> winding((#[trigger] holes@[k])@, point) == 0,
        decreases holes.len() - i,
    {
        if poly_contains_point(holes[i].as_slice(), point) {
            return false;
        }
        i += 1;
    }
    true
}

/// Signed doubled area of a ring (sign = winding, magnitude = twice the area).
pub fn ring_area2(poly: &[Pt]) -> (r: i64)
    requires
        area2_fits(poly@),
    ensures
        r == area2(poly@),
{
    let mut a: i128 = 0;
    let n = poly.len();
    let ghost path = closed(poly@);
    let mut i: usize = 0;
    proof {
        assert(path.len() > 0 ==> path.take(1).len() == 1);
    }
    while i < n
        invariant
            n == poly@.len(),
            0 <= i <= n,
            path == closed(poly@),
            area2_fits(poly@),
            n > 0 ==> a == path_area2(path.take(i + 1)),
            n == 0 ==> a == 0,
            -0x8000_0000_0000_0000 * i <= a <= 0x8000_0000_0000_0000 * i,
        decreases n - i,
    {
        let cur = poly[i];
        let next = poly[if i == n - 1 {
            0
        } else {
            i + 1
        }];
        proof {
            assert(cur == path[i as int] && next == path[i + 1]);
            assert(path.take(i + 2).drop_last() =~= path.take(i + 1));
        }
        a = a + (cur[0] * next[1] - next[0] * cur[1]) as i128;
        i += 1;
    }
    proof {
        assert(n > 0 ==> path.take(n + 1) =~= path);
    }
    a as i64
}

/// The classification of a polygon does not depend on its winding order.
pub proof fn law_classification_ignores_winding_order(a: Aabb, ring: Seq<Pt>)
    ensures
        polygon_relation(a, ring.reverse()) == polygon_relation(a, ring),
{
    theorem_ring_touches_reverse(ring, a);
    theorem_winding_reverse(ring, [a[0][0], a[0][1]]);
    theorem_winding_reverse(ring, [a[1][0], a[0][1]]);
    theorem_winding_reverse(ring, [a[1][0], a[1][1]]);
    theorem_winding_reverse(ring, [a[0][0], a[1][1]]);
}

/// The classification decides every point of the box at once: a containing
/// polygon winds around all of them, a disjoint one around none.
pub proof fn law_classification_holds_throughout_box(a: Aabb, ring: Seq<Pt>, p: Pt)
    requires
        in_box(p, a),
    ensures
        polygon_relation(a, ring) is Contains ==> winding(ring, p) != 0,
        polygon_relation(a, ring) is Disjoint ==> winding(ring, p) == 0,
{
    if !ring_touches(ring, a) {
        theorem_winding_constant_in_clear_box(a, ring, [a[0][0], a[0][1]], p);
        theorem_winding_constant_in_clear_box(a, ring, [a[1][0], a[0][1]], p);
        theorem_winding_constant_in_clear_box(a, ring, [a[1][0], a[1][1]], p);
        theorem_winding_constant_in_clear_box(a, ring, [a[0][0], a[1][1]], p);
    }
}

/// A ring has the opposite doubled area when traversed the other way round.
pub proof fn law_area_reverse(ring: Seq<Pt>)
    ensures
        area2(ring.reverse()) == -area2(ring),
{
    if ring.len() > 0 {
        let back = ring.reverse();
        let path = closed(ring);
        lemma_path_area2_reverse(path);
        // closed(back) and the reversed path go round the same edges from
        // different starting points
        let step = seq![ring[0], back[0]];
        let last = seq![back.last(), ring.reverse()[0]];
        assert(back.last() == ring[0]);
        assert(path.reverse() =~= crate::winding::join(step, back));
        assert(closed(back) =~= crate::winding::join(back, last));
        lemma_path_area2_join(step, back);
        lemma_path_area2_join(back, last);
        assert(step =~= last);
    } else {
        assert(ring.reverse() =~= ring);
    }
}

/// The doubled area of a ring does not depend on the vertex at which it starts.
pub proof fn law_area_rotation(ring: Seq<Pt>, k: int)
    requires
        0 <= k <= ring.len(),
    ensures
        area2(rotated(ring, k)) == area2(ring),
{
    if k == 0 || k == ring.len() {
        assert(rotated(ring, k) =~= ring);
    } else {
        let head = ring.take(k + 1);
        let tail = ring.skip(k).push(ring[0]);
        assert(closed(ring) =~= crate::winding::join(head, tail));
        assert(closed(rotated(ring, k)) =~= crate::winding::join(tail, head));
        lemma_path_area2_join(head, tail);
        lemma_path_area2_join(tail, head);
    }
}

/// The doubled area of a ring does not change when the ring is moved.
pub proof fn law_area_translation(ring: Seq<Pt>, moved: Seq<Pt>, dx: int, dy: int)
    requires
        is_moved(ring, moved, dx, dy),
    ensures
        area2(moved) == area2(ring),
{
    if ring.len() > 0 {
        let path = closed(ring);
        assert(is_moved(path, closed(moved), dx, dy));
        lemma_path_area2_translation(path, closed(moved), dx, dy);
        assert(path.last() == path[0]);
        assert(dx * 0 == 0 && dy * 0 == 0);
    } else {
        assert(moved =~= ring);
    }
}

proof fn lemma_path_area2_translation(path: Seq<Pt>, moved: Seq<Pt>, dx: int, dy: int)
    requires
        path.len() > 0,
        is_moved(path, moved, dx, dy),
    ensures
        path_area2(moved) == path_area2(path) + dx * (path.last()[1] - path[0][1]) - dy * (
        path.last()[0] - path[0][0]),
    decreases path.len(),
{
    if path.len() >= 2 {
        let rest = path.drop_last();
        let (a, b) = (path[path.len() - 2], path.last());
        let (c, d) = (moved[moved.len() - 2], moved.last());
        assert forall|i: int| 0 <= i < rest.len() implies (#[trigger] moved.drop_last()[i])[0]
            == rest[i][0] + dx && moved.drop_last()[i][1] == rest[i][1] + dy by {
            assert(moved[i][0] == path[i][0] + dx);
        }
        lemma_path_area2_translation(rest, moved.drop_last(), dx, dy);
        assert(rest.last() == a && rest[0] == path[0]);
        assert(c[0] == a[0] + dx && c[1] == a[1] + dy && d[0] == b[0] + dx && d[1] == b[1] + dy) by {
            assert(moved[moved.len() - 1][0] == path[path.len() - 1][0] + dx);
        }
        lemma_edge_area2_translation(
            a[0] as int,
            a[1] as int,
            b[0] as int,
            b[1] as int,
            path[0][0] as int,
            path[0][1] as int,
            dx,
            dy,
        );
    } else {
        assert(path.last() == path[0]);
        assert(dx * 0 == 0 && dy * 0 == 0);
    }
}

proof fn lemma_edge_area2_translation(
    ax: int,
    ay: int,
    bx: int,
    by: int,
    ox: int,
    oy: int,
    dx: int,
    dy: int,
)
    ensures
        (ax + dx) * (by + dy) - (bx + dx) * (ay + dy) + dx * (ay - oy) - dy * (ax - ox) == (ax * by
            - bx * ay) + dx * (by - oy) - dy * (bx - ox),
{
    assert((ax + dx) * (by + dy) == ax * by + dy * ax + dx * by + dx * dy) by (nonlinear_arith);
    assert((bx + dx) * (ay + dy) == bx * ay + dy * bx + dx * ay + dx * dy) by (nonlinear_arith);
    assert(dx * (ay - oy) == dx * ay - dx * oy) by (nonlinear_arith);
    assert(dx * (by - oy) == dx * by - dx * oy) by (nonlinear_arith);
    assert(dy * (ax - ox) == dy * ax - dy * ox) by (nonlinear_arith);
    assert(dy * (bx - ox) == dy * bx - dy * ox) by (nonlinear_arith);
}

proof fn lemma_path_area2_join(first: Seq<Pt>, second: Seq<Pt>)
    requires
        first.len() > 0,
        second.len() > 0,
        first.last() == second[0],
    ensures
        path_area2(crate::winding::join(first, second)) == path_area2(first) + path_area2(second),
    decreases second.len(),
{
    let whole = crate::winding::join(first, second);
    if second.len() == 1 {
        assert(whole =~= first);
    } else {
        lemma_path_area2_join(first, second.drop_last());
        assert(whole.drop_last() =~= crate::winding::join(first, second.drop_last()));
        assert(whole[whole.len() - 2] == second[second.len() - 2]);
        assert(whole.last() == second.last());
    }
}

proof fn lemma_path_area2_reverse(path: Seq<Pt>)
    ensures
        path_area2(path.reverse()) == -path_area2(path),
    decreases path.len(),
{
    if path.len() >= 2 {
        let (a, b) = (path[path.len() - 2], path.last());
        let rest = path.drop_last();
        let edge = seq![b, a];
        lemma_path_area2_reverse(rest);
        assert(path.reverse() =~= crate::winding::join(edge, rest.reverse()));
        lemma_path_area2_join(edge, rest.reverse());
        assert(path_area2(edge.drop_last()) == 0);
        assert(edge_area2(b, a) == -edge_area2(a, b)) by (nonlinear_arith)
            requires
                edge_area2(b, a) == b[0] * a[1] - a[0] * b[1],
                edge_area2(a, b) == a[0] * b[1] - b[0] * a[1],
        ;
    } else {
        assert(path.reverse().len() == path.len());
    }
}

/// The corners of a box, counterclockwise from the low one.
pub open spec fn corners(a: Aabb) -> Seq<Pt> {
    seq![
        [a[0][0], a[0][1]],
        [a[1][0], a[0][1]],
        [a[1][0], a[1][1]],
        [a[0][0], a[1][1]],
    ]
}

proof fn lemma_corner_sides(a: Aabb, p: Pt)
    requires
        is_box(a),
    ensures
        left_of([a[1][0], a[0][1]], [a[1][0], a[1][1]], p) == (a[1][0] - p[0]) * (a[1][1]
            - a[0][1]),
        left_of([a[0][0], a[1][1]], [a[0][0], a[0][1]], p) == (p[0] - a[0][0]) * (a[1][1]
            - a[0][1]),
{
    let (x0, y0, x1, y1) = (a[0][0] as int, a[0][1] as int, a[1][0] as int, a[1][1] as int);
    let (x, y) = (p[0] as int, p[1] as int);
    assert((x1 - x1) * (y - y0) - (x - x1) * (y1 - y0) == (x1 - x) * (y1 - y0))
        by (nonlinear_arith);
    assert((x0 - x0) * (y - y1) - (x - x0) * (y0 - y1) == (x - x0) * (y1 - y0))
        by (nonlinear_arith);
}

proof fn lemma_product_positive(x: int, y: int)
    by (nonlinear_arith)
    requires
        y > 0,
    ensures
        x > 0 <==> x * y > 0,
        x < 0 <==> x * y < 0,
{
}

/// A rectangle winds once, counterclockwise, around exactly the points of its
/// half-open cell: its western and southern sides belong to it, its eastern and
/// northern sides do not.  So rectangles side by side share no point.
pub proof fn law_rectangle_holds_its_half_open_cell(a: Aabb, p: Pt)
    requires
        a[0][0] < a[1][0],
        a[0][1] < a[1][1],
    ensures
        winding(corners(a), p) == (if a[0][0] <= p[0] < a[1][0] && a[0][1] <= p[1] < a[1][1] {
            1int
        } else {
            0
        }),
{
    let ring = corners(a);
    let path = closed(ring);
    assert(path.drop_last() =~= ring);
    reveal_with_fuel(path_winding, 6);
    let three = ring.drop_last();
    let two = three.drop_last();
    let one = two.drop_last();
    lemma_corner_sides(a, p);
    let h = a[1][1] - a[0][1];
    lemma_product_positive(a[1][0] - p[0], h);
    lemma_product_positive(p[0] - a[0][0], h);
    assert(path_winding(one, p) == 0);
    assert(path_winding(two, p) == edge_winding(ring[0], ring[1], p));
    assert(path_winding(three, p) == path_winding(two, p) + edge_winding(ring[1], ring[2], p));
    assert(path_winding(ring, p) == path_winding(three, p) + edge_winding(ring[2], ring[3], p));
    assert(winding(ring, p) == path_winding(ring, p) + edge_winding(ring[3], ring[0], p));
    assert(edge_winding(ring[0], ring[1], p) == 0);
    assert(edge_winding(ring[2], ring[3], p) == 0);
}

/// The doubled area of a counterclockwise rectangle is twice its width times its
/// height.
pub proof fn law_rectangle_area(a: Aabb)
    ensures
        area2(corners(a)) == 2 * ((a[1][0] - a[0][0]) * (a[1][1] - a[0][1])),
{
    let ring = corners(a);
    let path = closed(ring);
    assert(path.drop_last() =~= ring);
    let three = ring.drop_last();
    let two = three.drop_last();
    let one = two.drop_last();
    assert(path_area2(one) == 0);
    assert(path_area2(two) == edge_area2(ring[0], ring[1]));
    assert(path_area2(three) == path_area2(two) + edge_area2(ring[1], ring[2]));
    assert(path_area2(ring) == path_area2(three) + edge_area2(ring[2], ring[3]));
    assert(area2(ring) == path_area2(ring) + edge_area2(ring[3], ring[0]));
    let (x0, y0, x1, y1) = (a[0][0] as int, a[0][1] as int, a[1][0] as int, a[1][1] as int);
    assert((x0 * y0 - x1 * y0) + (x1 * y1 - x1 * y0) + (x1 * y1 - x0 * y1) + (x0 * y0 - x0 * y1)
        == 2 * ((x1 - x0) * (y1 - y0))) by (nonlinear_arith);
}

/// A segment is outside of a box exactly where they have no point in common, and
/// inside exactly where both its ends are.
pub proof fn law_segment_relation(a: Aabb, p0: Pt, p1: Pt)
    requires
        is_box(a),
    ensures
        segment_relation(a, p0, p1) is Outside <==> !meets_box(a, p0, p1),
        segment_relation(a, p0, p1) is Inside <==> in_box(p0, a) && in_box(p1, a),
{
    if in_box(p0, a) && in_box(p1, a) {
        lemma_inside_meets(a, p0, p1);
    }
}

/// Boxes overlap exactly where they have a point in common.
pub proof fn law_overlapping_boxes_share_a_point(a: Aabb, b: Aabb)
    requires
        is_box(a),
        is_box(b),
    ensures
        boxes_overlap(a, b) <==> exists|p: Pt| #[trigger] in_box(p, a) && in_box(p, b),
{
    if boxes_overlap(a, b) {
        let x = if a[0][0] < b[0][0] {
            b[0][0]
        } else {
            a[0][0]
        };
        let y = if a[0][1] < b[0][1] {
            b[0][1]
        } else {
            a[0][1]
        };
        let p: Pt = [x, y];
        assert(in_box(p, a) && in_box(p, b));
    }
}

} // verus!
