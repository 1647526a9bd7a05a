//! The quantization domain and ring simplification.
use vstd::prelude::*;

use crate::domain::in_domain;
use crate::geom::{Aabb, Pt};
use crate::segment::in_box;
use crate::topology::{copy_points, same_point};
use crate::winding::rotated;

verus! {

// The quantization domain: half-open `[-2^19, 2^19) x [-2^18, 2^18)`, both axes
// at the same scale so cells keep their shape and every cell midpoint is exact.
pub const X_MIN: i64 = -524288;

pub const X_MAX: i64 = 524288;

pub const Y_MIN: i64 = -262144;

pub const Y_MAX: i64 = 262144;

/// Root cell of the quadtree, half-open on both axes.
pub const ROOT_CELL: Aabb = [[X_MIN, Y_MIN], [X_MAX, Y_MAX]];

/// Maximum subdivision depth (keeps the narrow axis at 2 units or more, so
/// midpoints stay exact).
pub const MAX_DEPTH: usize = 16;

/// The nearest value in the range.
pub open spec fn clamped(v: i64, lo: i64, hi: i64) -> i64 {
    if v < lo {
        lo
    } else if v > hi {
        hi
    } else {
        v
    }
}

/// The nearest point in the half-open domain.
pub open spec fn clamped_point(p: Pt) -> Pt {
    [clamped(p[0], X_MIN, (X_MAX - 1) as i64), clamped(p[1], Y_MIN, (Y_MAX - 1) as i64)]
}

/// The points moved into the domain.
pub open spec fn clamped_points(points: Seq<Pt>) -> Seq<Pt> {
    Seq::new(points.len(), |i: int| clamped_point(points[i]))
}

/// The points without those that repeat the one before.
pub open spec fn without_repeats(points: Seq<Pt>) -> Seq<Pt>
    decreases points.len(),
{
    if points.len() == 0 {
        points
    } else {
        let before = without_repeats(points.drop_last());
        if points.len() > 1 && points.last() == points[points.len() - 2] {
            before
        } else {
            before.push(points.last())
        }
    }
}

/// The ring without closing vertices that repeat the first one.
pub open spec fn opened(points: Seq<Pt>) -> Seq<Pt>
    decreases points.len(),
{
    if points.len() > 1 && points[0] == points.last() {
        opened(points.drop_last())
    } else {
        points
    }
}

/// The quantized ring of points already scaled and rounded.
pub open spec fn quantized(rounded: Seq<Pt>) -> Seq<Pt> {
    opened(without_repeats(clamped_points(rounded)))
}

/// The value moved into the range.
pub fn clamp(v: i64, lo: i64, hi: i64) -> (r: i64)
    requires
        lo <= hi,
    ensures
        r == clamped(v, lo, hi),
{
    if v < lo {
        lo
    } else if v > hi {
        hi
    } else {
        v
    }
}

/// Turn scaled and rounded vertices into a ring: clamp into the domain, drop
/// consecutive duplicates, and drop the repeated closing vertex (closure is
/// implicit everywhere).
pub fn quantize(rounded: &[Pt]) -> (r: Vec<Pt>)
    ensures
        r@ == quantized(rounded@),
        in_domain(r@),
{
    proof {
        law_quantized_ring(rounded@);
    }
    let mut points: Vec<Pt> = Vec::new();
    let mut last: Pt = [0, 0];
    let mut i: usize = 0;
    let ghost all = clamped_points(rounded@);
    while i < rounded.len()
        invariant
            0 <= i <= rounded@.len(),
            all == clamped_points(rounded@),
            points@ == without_repeats(all.take(i as int)),
            i > 0 ==> last == all[i - 1],
        decreases rounded.len() - i,
    {
        let x = clamp(rounded[i][0], X_MIN, X_MAX - 1);
        let y = clamp(rounded[i][1], Y_MIN, Y_MAX - 1);
        let p = [x, y];
        proof {
            assert(p =~= all[i as int]);
            let longer = all.take(i + 1);
            assert(longer.drop_last() =~= all.take(i as int));
            assert(longer.last() == p);
            if i > 0 {
                assert(longer[longer.len() - 2] == last);
            }
        }
        if i == 0 || !same_point(p, last) {
            points.push(p);
        }
        last = p;
        i += 1;
    }
    proof {
        assert(all.take(i as int) =~= all);
    }
    while points.len() > 1 && same_point(points[0], points[points.len() - 1])
        invariant
            opened(points@) == quantized(rounded@),
        decreases points.len(),
    {
        let ghost before = points@;
        points.pop();
        proof {
            assert(points@ =~= before.drop_last());
        }
    }
    points
}

/// All points lie in the half-open domain.
pub open spec fn in_half_open_domain(points: Seq<Pt>) -> bool {
    forall|i: int|
        0 <= i < points.len() ==> X_MIN <= (#[trigger] points[i])[0] < X_MAX && Y_MIN
            <= points[i][1] < Y_MAX
}

proof fn lemma_without_repeats(points: Seq<Pt>)
    ensures
        in_half_open_domain(points) ==> in_half_open_domain(without_repeats(points)),
        without_repeats(points).len() <= points.len(),
        points.len() > 0 ==> without_repeats(points).len() > 0 && without_repeats(points).last()
            == points.last(),
        forall|i: int|
            0 < i < without_repeats(points).len() ==> (#[trigger] without_repeats(points)[i])
                != without_repeats(points)[i - 1],
    decreases points.len(),
{
    if points.len() > 0 {
        let shorter = points.drop_last();
        lemma_without_repeats(shorter);
        let before = without_repeats(shorter);
        let after = without_repeats(points);
        if in_half_open_domain(points) {
            assert(in_half_open_domain(shorter));
            assert forall|i: int| 0 <= i < after.len() implies X_MIN <= (#[trigger] after[i])[0]
                < X_MAX && Y_MIN <= after[i][1] < Y_MAX by {
                if i < before.len() {
                    assert(after[i] == before[i]);
                }
            }
        }
        assert forall|i: int| 0 < i < after.len() implies (#[trigger] after[i]) != after[i - 1] by {
            if i < before.len() {
                assert(after[i] == before[i] && after[i - 1] == before[i - 1]);
            } else {
                assert(shorter.last() == points[points.len() - 2]);
            }
        }
    }
}

proof fn lemma_opened(points: Seq<Pt>)
    ensures
        opened(points).len() <= points.len(),
        opened(points) == points.take(opened(points).len() as int),
        points.len() > 0 ==> opened(points).len() > 0,
        opened(points).len() > 1 ==> opened(points)[0] != opened(points).last(),
    decreases points.len(),
{
    if points.len() > 1 && points[0] == points.last() {
        lemma_opened(points.drop_last());
        let n = opened(points).len() as int;
        assert(points.drop_last().take(n) =~= points.take(n));
    } else {
        assert(points.take(points.len() as int) =~= points);
    }
}

/// A quantized ring lies in the domain, has no two equal vertices in a row, and
/// does not repeat its first vertex at the end.
pub proof fn law_quantized_ring(rounded: Seq<Pt>)
    ensures
        in_half_open_domain(quantized(rounded)),
        in_domain(quantized(rounded)),
        forall|i: int|
            0 < i < quantized(rounded).len() ==> (#[trigger] quantized(rounded)[i]) != quantized(
                rounded,
            )[i - 1],
        quantized(rounded).len() > 1 ==> quantized(rounded)[0] != quantized(rounded).last(),
        rounded.len() > 0 ==> quantized(rounded).len() > 0,
        quantized(rounded).len() <= rounded.len(),
{
    let all = clamped_points(rounded);
    let once = without_repeats(all);
    let q = quantized(rounded);
    assert(in_half_open_domain(all));
    lemma_without_repeats(all);
    lemma_opened(once);
    assert forall|i: int| 0 <= i < q.len() implies X_MIN <= (#[trigger] q[i])[0] < X_MAX && Y_MIN
        <= q[i][1] < Y_MAX by {
        assert(q[i] == once[i]);
    }
    assert forall|i: int| 0 <= i < q.len() implies in_box(#[trigger] q[i], ROOT_CELL) by {}
    assert forall|i: int| 0 < i < q.len() implies (#[trigger] q[i]) != q[i - 1] by {
        assert(q[i] == once[i] && q[i - 1] == once[i - 1]);
    }
}

/// Lexicographic order of points.
pub open spec fn lex_less(a: Pt, b: Pt) -> bool {
    a[0] < b[0] || (a[0] == b[0] && a[1] < b[1])
}

/// The first of the lexicographically smallest vertices.
pub open spec fn is_extreme(points: Seq<Pt>, r: int) -> bool {
    &&& 0 <= r < points.len()
    &&& forall|i: int| 0 <= i < points.len() ==> !lex_less(#[trigger] points[i], points[r])
    &&& forall|i: int| 0 <= i < r ==> lex_less(points[r], #[trigger] points[i])
}

/// Index of the lexicographically smallest vertex -- always on the convex hull,
/// so a deterministic, safe anchor for closed-ring simplification.
pub fn extreme_vertex_index(points: &[Pt]) -> (r: usize)
    ensures
        points@.len() == 0 ==> r == 0,
        points@.len() > 0 ==> is_extreme(points@, r as int),
{
    let mut best: usize = 0;
    if points.len() == 0 {
        return 0;
    }
    let mut i: usize = 1;
    while i < points.len()
        invariant
            1 <= i <= points@.len(),
            is_extreme(points@.take(i as int), best as int),
        decreases points.len() - i,
    {
        let ghost before = points@.take(i as int);
        let ghost after = points@.take(i + 1);
        proof {
            assert(forall|k: int| 0 <= k < i ==> before[k] == after[k]);
            assert(after[best as int] == points@[best as int]);
            assert(after[i as int] == points@[i as int]);
        }
        if points[i][0] < points[best][0] || (points[i][0] == points[best][0] && points[i][1]
            < points[best][1]) {
            proof {
                assert forall|k: int| 0 <= k < after.len() implies !lex_less(
                    #[trigger] after[k],
                    after[i as int],
                ) by {
                    if k < i {
                        assert(!lex_less(before[k], before[best as int]));
                    }
                }
                assert forall|k: int| 0 <= k < i implies lex_less(
                    after[i as int],
                    #[trigger] after[k],
                ) by {
                    assert(!lex_less(before[k], before[best as int]));
                }
            }
            best = i;
        } else {
            proof {
                assert forall|k: int| 0 <= k < after.len() implies !lex_less(
                    #[trigger] after[k],
                    after[best as int],
                ) by {
                    if k < i {
                        assert(!lex_less(before[k], before[best as int]));
                    }
                }
                assert forall|k: int| 0 <= k < best implies lex_less(
                    after[best as int],
                    #[trigger] after[k],
                ) by {
                    assert(lex_less(before[best as int], before[k]));
                }
            }
        }
        i += 1;
    }
    proof {
        assert(points@.take(i as int) =~= points@);
    }
    best
}

/// The square of the distance between two points.
pub open spec fn distance2(a: Pt, b: Pt) -> int {
    (a[0] - b[0]) * (a[0] - b[0]) + (a[1] - b[1]) * (a[1] - b[1])
}

/// The first of the vertices furthest from the first one, itself aside.
pub open spec fn is_furthest(points: Seq<Pt>, r: int) -> bool {
    &&& 1 <= r < points.len()
    &&& forall|i: int|
        1 <= i < points.len() ==> distance2(#[trigger] points[i], points[0]) <= distance2(
            points[r],
            points[0],
        )
    &&& forall|i: int|
        1 <= i < r ==> distance2(#[trigger] points[i], points[0]) < distance2(points[r], points[0])
}

fn square_distance(a: Pt, b: Pt) -> (r: i128)
    requires
        in_box(a, ROOT_CELL),
        in_box(b, ROOT_CELL),
    ensures
        r == distance2(a, b),
{
    let dx = a[0] as i128 - b[0] as i128;
    let dy = a[1] as i128 - b[1] as i128;
    proof {
        assert(0 <= dx * dx <= 1048576 * 1048576) by (nonlinear_arith)
            requires
                -1048576 <= dx <= 1048576,
        ;
        assert(0 <= dy * dy <= 1048576 * 1048576) by (nonlinear_arith)
            requires
                -1048576 <= dy <= 1048576,
        ;
    }
    dx * dx + dy * dy
}

/// Index of the vertex furthest from the first one.
fn furthest_vertex_index(points: &[Pt]) -> (r: usize)
    requires
        points@.len() >= 2,
        in_domain(points@),
    ensures
        is_furthest(points@, r as int),
{
    let mut far: usize = 1;
    proof {
        assert(in_box(points@[0], ROOT_CELL) && in_box(points@[1], ROOT_CELL));
    }
    let mut far_dist = square_distance(points[1], points[0]);
    let mut i: usize = 2;
    while i < points.len()
        invariant
            2 <= i <= points@.len(),
            in_domain(points@),
            1 <= far < i,
            far_dist == distance2(points@[far as int], points@[0]),
            forall|k: int|
                1 <= k < i ==> distance2(#[trigger] points@[k], points@[0]) <= far_dist,
            forall|k: int|
                1 <= k < far ==> distance2(#[trigger] points@[k], points@[0]) < far_dist,
        decreases points.len() - i,
    {
        proof {
            assert(in_box(points@[0], ROOT_CELL) && in_box(points@[i as int], ROOT_CELL));
        }
        let d = square_distance(points[i], points[0]);
        if d > far_dist {
            far_dist = d;
            far = i;
        }
        i += 1;
    }
    far
}

/// A decision for every chain: where to split it, or `None` to drop what lies
/// between its ends.
pub type Decisions = spec_fn(int, int) -> Option<int>;

/// The vertex strictly within the chain from `s` to `e` is kept by these
/// decisions.
pub open spec fn keeps(d: Decisions, s: int, e: int, i: int) -> bool
    decreases e - s,
{
    match d(s, e) {
        None => false,
        Some(f) => if s < f < e {
            if i == f {
                true
            } else if i < f {
                keeps(d, s, f, i)
            } else {
                keeps(d, f, e, i)
            }
        } else {
            false
        },
    }
}

/// A Ramer-Douglas-Peucker simplification under way: the ring from its anchor
/// on, the vertices dropped so far, and the chains still to be measured, the
/// next one last.
pub struct Rdp {
    pub points: Vec<Pt>,
    pub dropped: Vec<bool>,
    pub pending: Vec<(usize, usize)>,
}

impl Rdp {
    /// Chains run forward between vertices of the ring.
    pub open spec fn well_formed(&self) -> bool {
        &&& self.dropped@.len() == self.points@.len()
        &&& forall|k: int|
            0 <= k < self.pending@.len() ==> (#[trigger] self.pending@[k]).0 < self.pending@[k].1
                && self.pending@[k].1 < self.points@.len()
    }

    /// The vertex is in the result, if the pending chains are decided so.
    pub open spec fn survives(&self, d: Decisions, i: int) -> bool {
        !self.dropped@[i] && forall|k: int|
            0 <= k < self.pending@.len() && (#[trigger] self.pending@[k]).0 < i
                < self.pending@[k].1 ==> keeps(
                d,
                self.pending@[k].0 as int,
                self.pending@[k].1 as int,
                i,
            )
    }
}

/// The vertices that are not dropped, among the first `k`.
pub open spec fn undropped(points: Seq<Pt>, dropped: Seq<bool>, k: int) -> Seq<Pt>
    decreases k,
{
    if k <= 0 {
        Seq::empty()
    } else if dropped[k - 1] {
        undropped(points, dropped, k - 1)
    } else {
        undropped(points, dropped, k - 1).push(points[k - 1])
    }
}

/// The ring that a simplification comes to by these decisions.
pub open spec fn outcome_of(task: Rdp, d: Decisions) -> Seq<Pt> {
    undropped(
        task.points@,
        Seq::new(task.points@.len(), |i: int| !task.survives(d, i)),
        task.points@.len() as int,
    )
}

/// One simplification was carried on to the other by these decisions: the
/// points are the same, and so are the vertices that survive.
pub open spec fn carried_on(before: Rdp, after: Rdp, d: Decisions) -> bool {
    &&& after.points@ == before.points@
    &&& forall|i: int|
        0 <= i < before.points@.len() ==> #[trigger] after.survives(d, i) == before.survives(d, i)
}

/// What a ring's simplification keeps: the anchor, the vertex furthest from it,
/// the last vertex, and what the decisions keep of the two chains between them.
/// Rings of fewer than four vertices, and those whose furthest vertex is the
/// last, are kept whole.
pub open spec fn ring_keeps(d: Decisions, n: int, far: int, i: int) -> bool {
    if n < 4 || far >= n - 1 {
        true
    } else if i == 0 || i == far || i == n - 1 {
        true
    } else if i < far {
        keeps(d, 0, far, i)
    } else {
        keeps(d, far, n - 1, i)
    }
}

/// How a simplification starts: a ring of four vertices or more is turned to
/// its extreme vertex and cut at the vertex furthest from that one.
pub open spec fn rdp_start(points: Seq<Pt>, task: Rdp) -> bool {
    &&& forall|i: int| 0 <= i < task.dropped@.len() ==> !(#[trigger] task.dropped@[i])
    &&& task.dropped@.len() == task.points@.len()
    &&& if points.len() < 4 {
        task.points@ == points && task.pending@.len() == 0
    } else {
        exists|pivot: int, far: int|
            #![trigger is_extreme(points, pivot), is_furthest(task.points@, far)]
            {
                &&& is_extreme(points, pivot)
                &&& task.points@ == rotated(points, pivot)
                &&& is_furthest(task.points@, far)
                &&& task.pending@ == if far >= points.len() - 1 {
                    Seq::<(usize, usize)>::empty()
                } else {
                    seq![(0usize, far as usize), (far as usize, (points.len() - 1) as usize)]
                }
            }
    }
}

fn rotate(points: &[Pt], k: usize) -> (r: Vec<Pt>)
    requires
        k <= points@.len(),
    ensures
        r@ == rotated(points@, k as int),
{
    let mut out: Vec<Pt> = Vec::with_capacity(points.len());
    let n = points.len();
    let mut i: usize = 0;
    while i < n
        invariant
            n == points@.len(),
            k <= n,
            0 <= i <= n,
            out@ == rotated(points@, k as int).take(i as int),
        decreases n - i,
    {
        let at = if i < n - k {
            k + i
        } else {
            i - (n - k)
        };
        out.push(points[at]);
        proof {
            let all = rotated(points@, k as int);
            assert(all[i as int] == points@[at as int]);
            assert(all.take(i + 1) =~= all.take(i as int).push(points@[at as int]));
        }
        i += 1;
    }
    proof {
        let all = rotated(points@, k as int);
        assert(all.take(i as int) =~= all);
    }
    out
}

/// Start the Ramer-Douglas-Peucker simplification of a closed ring.  Anchored
/// on a hull vertex and the vertex furthest from it (an O(n) diameter
/// estimate), so the result does not depend on where the ring happens to start.
pub fn simplify_rdp(points: &[Pt]) -> (r: Rdp)
    requires
        in_domain(points@),
    ensures
        r.well_formed(),
        rdp_start(points@, r),
        in_domain(r.points@),
{
    let n = points.len();
    let mut dropped: Vec<bool> = Vec::with_capacity(n);
    let mut i: usize = 0;
    while i < n
        invariant
            0 <= i <= n,
            dropped@.len() == i,
            forall|k: int| 0 <= k < i ==> !(#[trigger] dropped@[k]),
        decreases n - i,
    {
        dropped.push(false);
        i += 1;
    }
    if n < 4 {
        return Rdp { points: copy_points(points), dropped, pending: Vec::new() };
    }
    let pivot = extreme_vertex_index(points);
    let p = rotate(points, pivot);
    proof {
        assert forall|i: int| 0 <= i < p@.len() implies in_box(#[trigger] p@[i], ROOT_CELL) by {
            if i < n - pivot {
                assert(p@[i] == points@[pivot + i]);
            } else {
                assert(p@[i] == points@[i - (n - pivot)]);
            }
        }
    }
    let far = furthest_vertex_index(p.as_slice());
    let mut pending: Vec<(usize, usize)> = Vec::new();
    if far < n - 1 {
        pending.push((0, far));
        pending.push((far, n - 1));
    }
    let r = Rdp { points: p, dropped, pending };
    proof {
        assert(is_extreme(points@, pivot as int) && is_furthest(r.points@, far as int));
        if far < n - 1 {
            assert(r.pending@ =~= seq![(0usize, far), (far, (n - 1) as usize)]);
        } else {
            assert(r.pending@ =~= Seq::<(usize, usize)>::empty());
        }
    }
    r
}

impl Rdp {
    /// The chain to be measured next: the indices of its two ends.
    pub fn next_chain(&self) -> (r: Option<(usize, usize)>)
        ensures
            r == if self.pending@.len() == 0 {
                None
            } else {
                Some(self.pending@.last())
            },
    {
        if self.pending.len() == 0 {
            None
        } else {
            Some(self.pending[self.pending.len() - 1])
        }
    }

    /// Decide the next chain: split it at a vertex, to measure the far part
    /// next and then the near one, or drop what lies between its ends.
    pub fn decide(&mut self, split: Option<usize>)
        requires
            old(self).well_formed(),
            old(self).pending@.len() > 0,
            split matches Some(f) ==> old(self).pending@.last().0 < f < old(
                self,
            ).pending@.last().1,
        ensures
            final(self).well_formed(),
            final(self).points == old(self).points,
            match split {
                Some(f) => {
                    let (s, e) = old(self).pending@.last();
                    &&& final(self).pending@ == old(self).pending@.drop_last().push((s, f)).push(
                        (f, e),
                    )
                    &&& final(self).dropped == old(self).dropped
                },
                None => {
                    let (s, e) = old(self).pending@.last();
                    &&& final(self).pending@ == old(self).pending@.drop_last()
                    &&& forall|i: int|
                        0 <= i < old(self).dropped@.len() ==> #[trigger] final(self).dropped@[i] == (
                        old(self).dropped@[i] || s < i < e)
                },
            },
            forall|d: Decisions, i: int|
                0 <= i < old(self).points@.len() && #[trigger] d(
                    old(self).pending@.last().0 as int,
                    old(self).pending@.last().1 as int,
                ) == (match split {
                    Some(f) => Some(f as int),
                    None => None,
                }) ==> #[trigger] final(self).survives(d, i) == old(self).survives(d, i),
            forall|d: Decisions| #[trigger]
                d(
                    old(self).pending@.last().0 as int,
                    old(self).pending@.last().1 as int,
                ) == (match split {
                    Some(f) => Some(f as int),
                    None => None,
                }) ==> carried_on(*old(self), *final(self), d),
    {
        let n = self.pending.len();
        let (s, e) = self.pending[n - 1];
        let ghost before = *self;
        self.pending.pop();
        proof {
            assert(self.pending@ =~= before.pending@.drop_last());
            assert(before.pending@[n - 1] == (s, e));
            assert forall|k: int| 0 <= k < self.pending@.len() implies (
            #[trigger] self.pending@[k]).0 < self.pending@[k].1 && self.pending@[k].1
                < self.points@.len() by {
                assert(self.pending@[k] == before.pending@[k]);
            }
        }
        match split {
            Some(f) => {
                self.pending.push((s, f));
                self.pending.push((f, e));
                proof {
                    assert forall|k: int| 0 <= k < self.pending@.len() implies (
                    #[trigger] self.pending@[k]).0 < self.pending@[k].1 && self.pending@[k].1
                        < self.points@.len() by {
                        if k < n - 1 {
                            assert(self.pending@[k] == before.pending@[k]);
                        }
                    }
                    assert forall|d: Decisions, i: int|
                        0 <= i < before.points@.len() && #[trigger] d(s as int, e as int) == Some(
                            f as int,
                        ) implies #[trigger] self.survives(d, i) == before.survives(d, i) by {
                        lemma_split_survives(before, *self, s, e, f, d, i);
                    }
                }
            },
            None => {
                let mut i: usize = s + 1;
                while i < e
                    invariant
                        s < i <= e,
                        e < self.points@.len(),
                        self.points == before.points,
                        self.pending@ == before.pending@.drop_last(),
                        self.dropped@.len() == self.points@.len(),
                        self.dropped@.len() == before.dropped@.len(),
                        forall|j: int|
                            0 <= j < self.dropped@.len() ==> #[trigger] self.dropped@[j] == (
                            before.dropped@[j] || s < j < i),
                    decreases e - i,
                {
                    self.dropped.set(i, true);
                    i += 1;
                }
                proof {
                    assert forall|k: int| 0 <= k < self.pending@.len() implies (
                    #[trigger] self.pending@[k]).0 < self.pending@[k].1 && self.pending@[k].1
                        < self.points@.len() by {
                        assert(self.pending@[k] == before.pending@[k]);
                    }
                    assert forall|d: Decisions, i: int|
                        0 <= i < before.points@.len() && #[trigger] d(s as int, e as int)
                            == None::<int> implies #[trigger] self.survives(d, i)
                        == before.survives(d, i) by {
                        lemma_drop_survives(before, *self, s, e, d, i);
                    }
                }
            },
        }
    }

    /// The simplified ring, once every chain has been decided.
    pub fn finish(&self) -> (r: Vec<Pt>)
        requires
            self.well_formed(),
            self.pending@.len() == 0,
        ensures
            r@ == undropped(self.points@, self.dropped@, self.points@.len() as int),
            in_domain(self.points@) ==> in_domain(r@),
    {
        let mut out: Vec<Pt> = Vec::new();
        let mut i: usize = 0;
        while i < self.points.len()
            invariant
                0 <= i <= self.points@.len(),
                self.dropped@.len() == self.points@.len(),
                out@ == undropped(self.points@, self.dropped@, i as int),
                in_domain(self.points@) ==> in_domain(out@),
            decreases self.points.len() - i,
        {
            if !self.dropped[i] {
                out.push(self.points[i]);
            }
            i += 1;
        }
        out
    }
}

proof fn lemma_split_survives(
    before: Rdp,
    after: Rdp,
    s: usize,
    e: usize,
    f: usize,
    d: Decisions,
    i: int,
)
    requires
        before.pending@.len() > 0,
        before.pending@.last() == (s, e),
        s < f < e,
        after.pending@ == before.pending@.drop_last().push((s, f)).push((f, e)),
        after.dropped == before.dropped,
        d(s as int, e as int) == Some(f as int),
    ensures
        after.survives(d, i) == before.survives(d, i),
{
    let n = before.pending@.len() as int;
    assert(before.pending@[n - 1] == (s, e));
    assert(after.pending@[n - 1] == (s, f));
    assert(after.pending@[n] == (f, e));
    if before.survives(d, i) {
        assert forall|k: int|
            0 <= k < after.pending@.len() && (#[trigger] after.pending@[k]).0 < i
                < after.pending@[k].1 implies keeps(
            d,
            after.pending@[k].0 as int,
            after.pending@[k].1 as int,
            i,
        ) by {
            if k < n - 1 {
                assert(after.pending@[k] == before.pending@[k]);
            } else {
                assert(keeps(d, s as int, e as int, i));
            }
        }
    }
    if after.survives(d, i) {
        assert forall|k: int|
            0 <= k < before.pending@.len() && (#[trigger] before.pending@[k]).0 < i
                < before.pending@[k].1 implies keeps(
            d,
            before.pending@[k].0 as int,
            before.pending@[k].1 as int,
            i,
        ) by {
            if k < n - 1 {
                assert(after.pending@[k] == before.pending@[k]);
            } else if i < f {
                assert(keeps(d, s as int, f as int, i));
            } else if i > f {
                assert(keeps(d, f as int, e as int, i));
            }
        }
    }
}

proof fn lemma_drop_survives(
    before: Rdp,
    after: Rdp,
    s: usize,
    e: usize,
    d: Decisions,
    i: int,
)
    requires
        before.pending@.len() > 0,
        before.pending@.last() == (s, e),
        after.pending@ == before.pending@.drop_last(),
        0 <= i < before.dropped@.len(),
        after.dropped@[i] == (before.dropped@[i] || s < i < e),
        d(s as int, e as int) == None::<int>,
    ensures
        after.survives(d, i) == before.survives(d, i),
{
    let n = before.pending@.len() as int;
    assert(before.pending@[n - 1] == (s, e));
    if before.survives(d, i) {
        assert forall|k: int|
            0 <= k < after.pending@.len() && (#[trigger] after.pending@[k]).0 < i
                < after.pending@[k].1 implies keeps(
            d,
            after.pending@[k].0 as int,
            after.pending@[k].1 as int,
            i,
        ) by {
            assert(after.pending@[k] == before.pending@[k]);
        }
        assert(!(s < i < e)) by {
            if s < i < e {
                assert(keeps(d, s as int, e as int, i));
            }
        }
    }
    if after.survives(d, i) {
        assert forall|k: int|
            0 <= k < before.pending@.len() && (#[trigger] before.pending@[k]).0 < i
                < before.pending@[k].1 implies keeps(
            d,
            before.pending@[k].0 as int,
            before.pending@[k].1 as int,
            i,
        ) by {
            if k < n - 1 {
                assert(after.pending@[k] == before.pending@[k]);
            }
        }
    }
}

/// A simplification starts out to keep what the decisions keep of its two
/// chains, whatever they are.
pub proof fn law_rdp_start(points: Seq<Pt>, task: Rdp, far: int, d: Decisions, i: int)
    requires
        task.well_formed(),
        rdp_start(points, task),
        points.len() >= 4 ==> is_furthest(task.points@, far),
        0 <= i < task.points@.len(),
    ensures
        task.points@.len() == points.len(),
        task.survives(d, i) == ring_keeps(d, points.len() as int, far, i),
{
    assert(!task.dropped@[i]);
    if points.len() >= 4 {
        let (pivot, g) = choose|pivot: int, g: int|
            #![trigger is_extreme(points, pivot), is_furthest(task.points@, g)]
            {
                &&& is_extreme(points, pivot)
                &&& task.points@ == rotated(points, pivot)
                &&& is_furthest(task.points@, g)
                &&& task.pending@ == if g >= points.len() - 1 {
                    Seq::<(usize, usize)>::empty()
                } else {
                    seq![(0usize, g as usize), (g as usize, (points.len() - 1) as usize)]
                }
            };
        lemma_furthest_unique(task.points@, far, g);
        let n = points.len() as int;
        assert(task.points.len() == n);
        if far < n - 1 {
            assert(task.pending@[0] == (0usize, far as usize));
            assert(task.pending@[1] == (far as usize, (n - 1) as usize));
            if task.survives(d, i) {
                if 0 < i < far {
                    assert(keeps(d, task.pending@[0].0 as int, task.pending@[0].1 as int, i));
                } else if far < i < n - 1 {
                    assert(keeps(d, task.pending@[1].0 as int, task.pending@[1].1 as int, i));
                }
            }
            if ring_keeps(d, n, far, i) {
                assert forall|k: int|
                    0 <= k < task.pending@.len() && (#[trigger] task.pending@[k]).0 < i
                        < task.pending@[k].1 implies keeps(
                    d,
                    task.pending@[k].0 as int,
                    task.pending@[k].1 as int,
                    i,
                ) by {
                    assert(k == 0 || k == 1);
                }
            }
        }
    }
}

/// When every chain has been decided, the vertices left are those that survive.
pub proof fn law_rdp_finish(task: Rdp, d: Decisions, i: int)
    requires
        task.pending@.len() == 0,
    ensures
        task.survives(d, i) == !task.dropped@[i],
{
}

proof fn lemma_undropped_same(points: Seq<Pt>, a: Seq<bool>, b: Seq<bool>, k: int)
    requires
        0 <= k <= points.len(),
        forall|i: int| 0 <= i < k ==> a[i] == b[i],
    ensures
        undropped(points, a, k) == undropped(points, b, k),
    decreases k,
{
    if k > 0 {
        lemma_undropped_same(points, a, b, k - 1);
    }
}

/// The finished ring is a matter of the start and of the decisions alone.
pub proof fn law_rdp_outcome(start: Rdp, end: Rdp, d: Decisions)
    requires
        carried_on(start, end, d),
        end.well_formed(),
        end.pending@.len() == 0,
    ensures
        undropped(end.points@, end.dropped@, end.points@.len() as int) == outcome_of(start, d),
{
    let n = start.points@.len() as int;
    let fate = Seq::new(n as nat, |i: int| !start.survives(d, i));
    assert forall|i: int| 0 <= i < n implies end.dropped@[i] == fate[i] by {
        law_rdp_finish(end, d, i);
        assert(end.survives(d, i) == start.survives(d, i));
    }
    lemma_undropped_same(start.points@, end.dropped@, fate, n);
}

proof fn lemma_furthest_unique(points: Seq<Pt>, f: int, g: int)
    requires
        is_furthest(points, f),
        is_furthest(points, g),
    ensures
        f == g,
{
    if g < f {
        assert(distance2(points[g], points[0]) < distance2(points[f], points[0]));
        assert(distance2(points[f], points[0]) <= distance2(points[g], points[0]));
    } else if f < g {
        assert(distance2(points[f], points[0]) < distance2(points[g], points[0]));
        assert(distance2(points[g], points[0]) <= distance2(points[f], points[0]));
    }
}

/// The result does not depend on where the ring happens to start: rotations of
/// a ring with a single lexicographically smallest vertex start the same
/// simplification.
pub proof fn law_rdp_ignores_rotation(points: Seq<Pt>, k: int, least: int, a: Rdp, b: Rdp)
    requires
        points.len() >= 4,
        0 <= k < points.len(),
        0 <= least < points.len(),
        forall|i: int|
            0 <= i < points.len() && i != least ==> lex_less(points[least], #[trigger] points[i]),
        rdp_start(points, a),
        rdp_start(rotated(points, k), b),
    ensures
        a.points@ == b.points@,
        a.dropped@ == b.dropped@,
        a.pending@ == b.pending@,
{
    let n = points.len() as int;
    let turned = rotated(points, k);
    let (p, f) = choose|pivot: int, g: int|
        #![trigger is_extreme(points, pivot), is_furthest(a.points@, g)]
        {
            &&& is_extreme(points, pivot)
            &&& a.points@ == rotated(points, pivot)
            &&& is_furthest(a.points@, g)
            &&& a.pending@ == if g >= points.len() - 1 {
                Seq::<(usize, usize)>::empty()
            } else {
                seq![(0usize, g as usize), (g as usize, (points.len() - 1) as usize)]
            }
        };
    let (q, g) = choose|pivot: int, g: int|
        #![trigger is_extreme(turned, pivot), is_furthest(b.points@, g)]
        {
            &&& is_extreme(turned, pivot)
            &&& b.points@ == rotated(turned, pivot)
            &&& is_furthest(b.points@, g)
            &&& b.pending@ == if g >= turned.len() - 1 {
                Seq::<(usize, usize)>::empty()
            } else {
                seq![(0usize, g as usize), (g as usize, (turned.len() - 1) as usize)]
            }
        };
    assert(p == least) by {
        if p != least {
            assert(lex_less(points[least], points[p]));
            assert(!lex_less(points[least], points[p]));
        }
    }
    let at = if q < n - k {
        k + q
    } else {
        q - (n - k)
    };
    let back = if least >= k {
        least - k
    } else {
        least + n - k
    };
    assert(turned[q] == points[at]);
    assert(turned[back] == points[least]);
    assert(at == least) by {
        if at != least {
            assert(lex_less(points[least], points[at]));
            assert(!lex_less(turned[back], turned[q]));
        }
    }
    assert(rotated(turned, q) =~= rotated(points, least));
    lemma_furthest_unique(a.points@, f, g);
    assert(a.dropped@ =~= b.dropped@);
}

/// Nor does the finished ring depend on where the ring happens to start: by the
/// same decisions, rotations of a ring with a single lexicographically smallest
/// vertex are simplified to the same ring.
pub proof fn law_rdp_outcome_ignores_rotation(
    points: Seq<Pt>,
    k: int,
    least: int,
    a: Rdp,
    a_end: Rdp,
    b: Rdp,
    b_end: Rdp,
    d: Decisions,
)
    requires
        points.len() >= 4,
        0 <= k < points.len(),
        0 <= least < points.len(),
        forall|i: int|
            0 <= i < points.len() && i != least ==> lex_less(points[least], #[trigger] points[i]),
        rdp_start(points, a),
        rdp_start(rotated(points, k), b),
        carried_on(a, a_end, d),
        carried_on(b, b_end, d),
        a_end.well_formed(),
        b_end.well_formed(),
        a_end.pending@.len() == 0,
        b_end.pending@.len() == 0,
    ensures
        undropped(a_end.points@, a_end.dropped@, a_end.points@.len() as int) == undropped(
            b_end.points@,
            b_end.dropped@,
            b_end.points@.len() as int,
        ),
{
    law_rdp_ignores_rotation(points, k, least, a, b);
    law_rdp_outcome(a, a_end, d);
    law_rdp_outcome(b, b_end, d);
    let n = a.points@.len() as int;
    let x = Seq::new(n as nat, |i: int| !a.survives(d, i));
    let y = Seq::new(n as nat, |i: int| !b.survives(d, i));
    assert forall|i: int| 0 <= i < n implies x[i] == y[i] by {
        assert(a.survives(d, i) == b.survives(d, i));
    }
    assert(x =~= y);
}

/// The value in the range that is nearest to `v`.
pub open spec fn is_nearest(v: int, lo: int, hi: int, r: int) -> bool {
    &&& lo <= r <= hi
    &&& forall|w: int|
        lo <= w <= hi ==> (#[trigger] distance1(v, r)) <= #[trigger] distance1(v, w)
}

pub open spec fn distance1(a: int, b: int) -> int {
    if a < b {
        b - a
    } else {
        a - b
    }
}

/// A value within the range is not moved, and one outside goes to the nearest
/// end.
pub proof fn law_clamped_is_nearest(v: i64, lo: i64, hi: i64)
    requires
        lo <= hi,
    ensures
        is_nearest(v as int, lo as int, hi as int, clamped(v, lo, hi) as int),
        lo <= v <= hi ==> clamped(v, lo, hi) == v,
{
}

/// The second point is the nearest one to the first in the half-open domain.
pub open spec fn is_moved_in(p: Pt, q: Pt) -> bool {
    &&& is_nearest(p[0] as int, -524288, 524287, q[0] as int)
    &&& is_nearest(p[1] as int, -262144, 262143, q[1] as int)
}

/// The positions at which the vertices were given, in order.
pub open spec fn comes_from(given: Seq<Pt>, ring: Seq<Pt>, at: Seq<int>) -> bool {
    &&& at.len() == ring.len()
    &&& forall|j: int|
        0 <= j < at.len() ==> 0 <= (#[trigger] at[j]) < given.len() && is_moved_in(
            given[at[j]],
            ring[j],
        )
    &&& forall|i: int, j: int| 0 <= i < j < at.len() ==> #[trigger] at[i] < #[trigger] at[j]
}

/// Every vertex of the quantized ring is the nearest one in the domain to some
/// vertex given, in the order of those, and of every vertex given the nearest one
/// is there.
pub proof fn law_quantized_vertices(rounded: Seq<Pt>)
    ensures
        exists|at: Seq<int>| comes_from(rounded, quantized(rounded), at),
        forall|i: int|
            0 <= i < rounded.len() ==> exists|j: int|
                0 <= j < quantized(rounded).len() && is_moved_in(
                    #[trigger] rounded[i],
                    #[trigger] quantized(rounded)[j],
                ),
{
    let all = clamped_points(rounded);
    let once = without_repeats(all);
    let q = quantized(rounded);
    lemma_repeats_at(all);
    lemma_opened(once);
    let at = choose|at: Seq<int>| is_kept_at(all, once, at);
    let cut = at.take(q.len() as int);
    assert forall|j: int| 0 <= j < cut.len() implies 0 <= (#[trigger] cut[j]) < rounded.len()
        && is_moved_in(rounded[cut[j]], q[j]) by {
        assert(cut[j] == at[j] && q[j] == once[j]);
        assert(all[at[j]] == clamped_point(rounded[at[j]]));
    }
    assert forall|i: int, j: int| 0 <= i < j < cut.len() implies #[trigger] cut[i]
        < #[trigger] cut[j] by {
        assert(at[i] < at[j]);
    }
    assert(comes_from(rounded, q, cut));
    assert forall|i: int| 0 <= i < rounded.len() implies exists|j: int|
        0 <= j < q.len() && is_moved_in(#[trigger] rounded[i], #[trigger] q[j]) by {
        assert(once.contains(all[i]));
        let m = choose|m: int| 0 <= m < once.len() && once[m] == all[i];
        lemma_opened_keeps(once, m);
        let j = choose|j: int| 0 <= j < q.len() && q[j] == once[m];
        assert(is_moved_in(rounded[i], q[j]));
    }
}

/// The positions of the vertices kept, and that every vertex is among them.
spec fn is_kept_at(all: Seq<Pt>, once: Seq<Pt>, at: Seq<int>) -> bool {
    &&& at.len() == once.len()
    &&& forall|j: int| 0 <= j < at.len() ==> 0 <= (#[trigger] at[j]) < all.len() && all[at[j]]
        == once[j]
    &&& forall|i: int, j: int| 0 <= i < j < at.len() ==> #[trigger] at[i] < #[trigger] at[j]
}

proof fn lemma_repeats_at(all: Seq<Pt>)
    ensures
        exists|at: Seq<int>| is_kept_at(all, without_repeats(all), at),
        forall|i: int| 0 <= i < all.len() ==> without_repeats(all).contains(#[trigger] all[i]),
    decreases all.len(),
{
    let once = without_repeats(all);
    if all.len() == 0 {
        assert(is_kept_at(all, once, Seq::empty()));
    } else {
        let shorter = all.drop_last();
        let before = without_repeats(shorter);
        lemma_repeats_at(shorter);
        lemma_without_repeats(all);
        let at = choose|at: Seq<int>| is_kept_at(shorter, before, at);
        assert forall|i: int| 0 <= i < all.len() implies once.contains(#[trigger] all[i]) by {
            if i < shorter.len() {
                assert(shorter[i] == all[i]);
                assert(before.contains(shorter[i]));
                let m = choose|m: int| 0 <= m < before.len() && before[m] == all[i];
                assert(once[m] == all[i]);
            } else {
                assert(once[once.len() - 1] == all[i]);
            }
        }
        if once.len() == before.len() {
            assert(once =~= before);
            assert(is_kept_at(all, once, at));
        } else {
            let longer = at.push(all.len() - 1);
            assert forall|j: int| 0 <= j < longer.len() implies 0 <= (#[trigger] longer[j])
                < all.len() && all[longer[j]] == once[j] by {
                if j < at.len() {
                    assert(shorter[at[j]] == before[j]);
                }
            }
            assert forall|i: int, j: int| 0 <= i < j < longer.len() implies #[trigger] longer[i]
                < #[trigger] longer[j] by {
                if j < at.len() {
                    assert(at[i] < at[j]);
                }
            }
            assert(is_kept_at(all, once, longer));
        }
    }
}

proof fn lemma_opened_keeps(points: Seq<Pt>, m: int)
    requires
        0 <= m < points.len(),
    ensures
        exists|j: int| 0 <= j < opened(points).len() && opened(points)[j] == points[m],
    decreases points.len(),
{
    lemma_opened(points);
    if points.len() > 1 && points[0] == points.last() {
        if m < points.len() - 1 {
            lemma_opened_keeps(points.drop_last(), m);
        } else {
            assert(opened(points)[0] == points[0]);
        }
    } else {
        assert(opened(points)[m] == points[m]);
    }
}

/// A ring in the domain of which no two neighbours are equal, the last vertex
/// and the first included, is left as it is.
pub proof fn law_quantized_ring_is_kept(ring: Seq<Pt>)
    requires
        in_half_open_domain(ring),
        forall|i: int| 0 < i < ring.len() ==> (#[trigger] ring[i]) != ring[i - 1],
        ring.len() > 1 ==> ring[0] != ring.last(),
    ensures
        quantized(ring) == ring,
{
    assert forall|i: int| 0 <= i < ring.len() implies clamped_point(#[trigger] ring[i])
        == ring[i] by {
        assert(clamped_point(ring[i]) =~= ring[i]);
    }
    assert(clamped_points(ring) =~= ring);
    lemma_no_repeats(ring);
}

proof fn lemma_no_repeats(points: Seq<Pt>)
    requires
        forall|i: int| 0 < i < points.len() ==> (#[trigger] points[i]) != points[i - 1],
    ensures
        without_repeats(points) == points,
    decreases points.len(),
{
    if points.len() > 0 {
        let shorter = points.drop_last();
        assert forall|i: int| 0 < i < shorter.len() implies (#[trigger] shorter[i]) != shorter[i
            - 1] by {
            assert(shorter[i] == points[i] && shorter[i - 1] == points[i - 1]);
        }
        lemma_no_repeats(shorter);
        assert(points.len() > 1 ==> points[points.len() - 1] != points[points.len() - 2]);
        assert(shorter.push(points.last()) =~= points);
    }
}

/// Quantizing a quantized ring changes nothing.
pub proof fn law_quantization_is_stable(rounded: Seq<Pt>)
    ensures
        quantized(quantized(rounded)) == quantized(rounded),
{
    law_quantized_ring(rounded);
    law_quantized_ring_is_kept(quantized(rounded));
}

/// A vertex given twice in a row counts once, and a closing vertex that repeats
/// the first one does not count.
pub proof fn law_repeats_do_not_count(a: Seq<Pt>, p: Pt, b: Seq<Pt>)
    ensures
        quantized(a + seq![p, p] + b) == quantized(a + seq![p] + b),
        quantized(seq![p] + b + seq![p]) == quantized(seq![p] + b),
{
    let c = clamped_point(p);
    let (x, y) = (clamped_points(a), clamped_points(b));
    assert(clamped_points(a + seq![p, p] + b) =~= x + seq![c, c] + y);
    assert(clamped_points(a + seq![p] + b) =~= x + seq![c] + y);
    lemma_repeat_once(x, c, y);
    let open = seq![c] + y;
    let shut = open.push(c);
    assert(clamped_points(seq![p] + b) =~= open);
    assert(clamped_points(seq![p] + b + seq![p]) =~= shut);
    assert(shut.drop_last() =~= open);
    lemma_without_repeats(open);
    lemma_first_kept(open);
    if open.last() != c {
        let once = without_repeats(open);
        assert(without_repeats(shut) == once.push(c));
        assert(once.push(c).drop_last() =~= once);
        assert(once.push(c)[0] == once[0]);
    }
}

proof fn lemma_first_kept(points: Seq<Pt>)
    requires
        points.len() > 0,
    ensures
        without_repeats(points).len() > 0,
        without_repeats(points)[0] == points[0],
    decreases points.len(),
{
    if points.len() > 1 {
        lemma_first_kept(points.drop_last());
    } else {
        assert(without_repeats(points.drop_last()) =~= Seq::empty());
    }
}

proof fn lemma_repeat_once(a: Seq<Pt>, p: Pt, b: Seq<Pt>)
    ensures
        without_repeats(a + seq![p, p] + b) == without_repeats(a + seq![p] + b),
    decreases b.len(),
{
    let (x, y) = (a + seq![p, p] + b, a + seq![p] + b);
    if b.len() == 0 {
        assert(x.drop_last() =~= y);
        assert(x.last() == p && x[x.len() - 2] == p);
    } else {
        lemma_repeat_once(a, p, b.drop_last());
        assert(x.drop_last() =~= a + seq![p, p] + b.drop_last());
        assert(y.drop_last() =~= a + seq![p] + b.drop_last());
        assert(x.last() == y.last());
        assert(x[x.len() - 2] == y[y.len() - 2]);
    }
}

/// The extreme vertex is a westernmost one, of those a southernmost one, and of
/// those the first.
pub proof fn law_extreme_vertex_is_westernmost(points: Seq<Pt>, r: int, i: int)
    requires
        is_extreme(points, r),
        0 <= i < points.len(),
    ensures
        points[r][0] <= points[i][0],
        points[r][0] == points[i][0] ==> points[r][1] <= points[i][1],
        points[r][0] == points[i][0] && points[r][1] == points[i][1] ==> r <= i,
{
    assert(!lex_less(points[i], points[r]));
    if i < r {
        assert(lex_less(points[r], points[i]));
    }
}

/// The squared distance is that along one axis and that along the other together;
/// along an axis it is the square of the difference.
pub proof fn law_squared_distance_is_pythagorean(a: Pt, b: Pt)
    ensures
        distance2(a, b) == distance2(a, [b[0], a[1]]) + distance2([b[0], a[1]], b),
        distance2(a, [b[0], a[1]]) == (b[0] - a[0]) * (b[0] - a[0]),
        distance2([b[0], a[1]], b) == (b[1] - a[1]) * (b[1] - a[1]),
        distance2(a, b) == distance2(b, a),
{
    let (x, y) = (a[0] - b[0], a[1] - b[1]);
    let corner: Pt = [b[0], a[1]];
    let (u, v) = (corner[0] - b[0], a[1] - corner[1]);
    assert(u * u == 0 && v * v == 0) by (nonlinear_arith)
        requires
            u == 0,
            v == 0,
    ;
    assert(x * x == (-x) * (-x)) by (nonlinear_arith);
    assert(y * y == (-y) * (-y)) by (nonlinear_arith);
}

/// The vertices that are left are those not dropped, in their order.
pub proof fn law_vertices_left_are_those_not_dropped(points: Seq<Pt>, dropped: Seq<bool>, k: int)
    requires
        0 <= k <= points.len(),
    ensures
        undropped(points, dropped, k) == Seq::new(k as nat, |i: int| i).filter(
            |i: int| !dropped[i],
        ).map_values(|i: int| points[i]),
    decreases k,
{
    reveal(Seq::filter);
    let all = Seq::new(k as nat, |i: int| i);
    let left = |i: int| !dropped[i];
    let vertex = |i: int| points[i];
    if k == 0 {
        assert(all.filter(left).map_values(vertex) =~= Seq::empty());
    } else {
        law_vertices_left_are_those_not_dropped(points, dropped, k - 1);
        let fewer = Seq::new((k - 1) as nat, |i: int| i);
        assert(all.drop_last() =~= fewer);
        if left(k - 1) {
            assert(all.filter(left) == fewer.filter(left).push(k - 1));
            assert(all.filter(left).map_values(vertex) =~= fewer.filter(left).map_values(
                vertex,
            ).push(points[k - 1]));
        } else {
            assert(all.filter(left) == fewer.filter(left));
        }
    }
}

/// Of a chain that is not split no vertex between its ends is kept; of one that is
/// split the vertex at which it is split is, and the others as in the two parts.
pub proof fn law_rdp_keeps_where_it_splits(d: Decisions, s: int, e: int, i: int)
    ensures
        d(s, e) is None ==> !keeps(d, s, e, i),
        d(s, e) matches Some(f) ==> (s < f < e ==> {
            &&& keeps(d, s, e, f)
            &&& i < f ==> keeps(d, s, e, i) == keeps(d, s, f, i)
            &&& i > f ==> keeps(d, s, e, i) == keeps(d, f, e, i)
        }),
{
}

} // verus!
