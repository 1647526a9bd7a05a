//! Quadtree cell arithmetic and the localized crossing count behind the
//! point-in-polygon test.
use vstd::prelude::*;

use crate::geom::{fits_i64, Aabb, Pt};
use crate::quant::{ROOT_CELL, X_MAX, X_MIN, Y_MAX, Y_MIN};
use crate::segment::{in_box, side};
use crate::winding::edge_crossing;

verus! {

/// The midpoint of an interval, rounded down.
pub open spec fn mid(lo: i64, hi: i64) -> int {
    (lo + hi) / 2
}

/// Both midpoints of the cell can be computed.
pub open spec fn has_midpoints(cell: Aabb) -> bool {
    fits_i64(cell[0][0] + cell[1][0]) && fits_i64(cell[0][1] + cell[1][1])
}

/// The midpoint of a cell.
pub open spec fn center_of(cell: Aabb) -> Pt {
    [mid(cell[0][0], cell[1][0]) as i64, mid(cell[0][1], cell[1][1]) as i64]
}

/// The child of a cell in the given quadrant: 0 = +x+y, 1 = -x+y, 2 = -x-y,
/// 3 = +x-y.
pub open spec fn child_cell(cell: Aabb, quadrant: int) -> Aabb {
    let m = center_of(cell);
    if quadrant == 0 {
        [[m[0], m[1]], [cell[1][0], cell[1][1]]]
    } else if quadrant == 1 {
        [[cell[0][0], m[1]], [m[0], cell[1][1]]]
    } else if quadrant == 2 {
        [[cell[0][0], cell[0][1]], [m[0], m[1]]]
    } else {
        [[m[0], cell[0][1]], [cell[1][0], m[1]]]
    }
}

/// The quadrant whose half-open child holds the point.
pub open spec fn quadrant_of(cell: Aabb, p: Pt) -> int {
    let m = center_of(cell);
    if p[0] >= m[0] {
        if p[1] >= m[1] {
            0
        } else {
            3
        }
    } else if p[1] >= m[1] {
        1
    } else {
        2
    }
}

/// The half-open cell holds the point.
pub open spec fn in_cell(p: Pt, cell: Aabb) -> bool {
    cell[0][0] <= p[0] < cell[1][0] && cell[0][1] <= p[1] < cell[1][1]
}

/// The height of the cells at a depth; they are twice as wide.
pub open spec fn cell_height(depth: nat) -> int
    decreases depth,
{
    if depth == 0 {
        524288
    } else {
        cell_height((depth - 1) as nat) / 2
    }
}

/// A cell of the size that cells have at this depth, within the root cell.
pub open spec fn is_cell_at(cell: Aabb, depth: nat) -> bool {
    &&& cell[1][1] - cell[0][1] == cell_height(depth)
    &&& cell[1][0] - cell[0][0] == 2 * cell_height(depth)
    &&& X_MIN <= cell[0][0] && cell[1][0] <= X_MAX
    &&& Y_MIN <= cell[0][1] && cell[1][1] <= Y_MAX
}

/// Split a cell into the child of the given quadrant.
pub fn split_cell(cell: &Aabb, quadrant: usize) -> (r: Aabb)
    requires
        quadrant < 4,
        has_midpoints(*cell),
    ensures
        r == child_cell(*cell, quadrant as int),
{
    let sx = cell[0][0] + cell[1][0];
    let sy = cell[0][1] + cell[1][1];
    proof {
        lemma_half(sx);
        lemma_half(sy);
    }
    let mx = sx >> 1;
    let my = sy >> 1;
    if quadrant == 0 {
        [[mx, my], [cell[1][0], cell[1][1]]]
    } else if quadrant == 1 {
        [[cell[0][0], my], [mx, cell[1][1]]]
    } else if quadrant == 2 {
        [[cell[0][0], cell[0][1]], [mx, my]]
    } else {
        [[mx, cell[0][1]], [cell[1][0], my]]
    }
}

proof fn lemma_half(x: i64)
    ensures
        x >> 1 == x / 2,
{
    assert(x >> 1 == x / 2) by (bit_vector);
}

/// The midpoint of a cell.
pub fn cell_center(cell: &Aabb) -> (r: Pt)
    requires
        has_midpoints(*cell),
    ensures
        r == center_of(*cell),
{
    let sx = cell[0][0] + cell[1][0];
    let sy = cell[0][1] + cell[1][1];
    proof {
        lemma_half(sx);
        lemma_half(sy);
    }
    [sx >> 1, sy >> 1]
}

/// Which child quadrant of `cell` contains `point`, under half-open bounds.
pub fn quadrant_for_point(cell: &Aabb, point: Pt) -> (r: usize)
    requires
        has_midpoints(*cell),
    ensures
        r == quadrant_of(*cell, point),
        r < 4,
{
    let m = cell_center(cell);
    if point[0] >= m[0] {
        if point[1] >= m[1] {
            0
        } else {
            3
        }
    } else if point[1] >= m[1] {
        1
    } else {
        2
    }
}

/// The crossings of the ring edges `first ..= last`, summed, or `None` if one
/// of them is undecided.
pub open spec fn run_crossings(c: Pt, q: Pt, ring: Seq<Pt>, first: int, last: int) -> Option<int>
    decreases last - first + 1,
{
    if first > last {
        Some(0)
    } else {
        match (
            run_crossings(c, q, ring, first, last - 1),
            edge_crossing(c, q, ring[last], ring[(last + 1) % ring.len() as int]),
        ) {
            (Some(t), Some(d)) => Some(t + d),
            _ => None,
        }
    }
}

/// The crossings over all runs of edges.
pub open spec fn crossings(c: Pt, q: Pt, ring: Seq<Pt>, runs: Seq<(u32, u32)>) -> Option<int>
    decreases runs.len(),
{
    if runs.len() == 0 {
        Some(0)
    } else {
        match (
            crossings(c, q, ring, runs.drop_last()),
            run_crossings(c, q, ring, runs.last().0 as int, runs.last().1 as int),
        ) {
            (Some(t), Some(d)) => Some(t + d),
            _ => None,
        }
    }
}

/// The number of edges in a run.
pub open spec fn run_len(run: (u32, u32)) -> int {
    if run.0 > run.1 {
        0
    } else {
        run.1 - run.0 + 1
    }
}

/// The number of edges in all runs.
pub open spec fn total_edges(runs: Seq<(u32, u32)>) -> int
    decreases runs.len(),
{
    if runs.len() == 0 {
        0
    } else {
        total_edges(runs.drop_last()) + run_len(runs.last())
    }
}

/// Every run is empty or lies within a ring of `n` edges.
pub open spec fn runs_within(runs: Seq<(u32, u32)>, n: int) -> bool {
    forall|k: int|
        0 <= k < runs.len() ==> (#[trigger] runs[k]).0 > runs[k].1 || runs[k].1 < n
}

proof fn lemma_run_crossings_bound(c: Pt, q: Pt, ring: Seq<Pt>, first: int, last: int)
    ensures
        run_crossings(c, q, ring, first, last) matches Some(t) ==> {
            if first > last {
                t == 0
            } else {
                -(last - first + 1) <= t <= last - first + 1
            }
        },
    decreases last - first + 1,
{
    if first <= last {
        lemma_run_crossings_bound(c, q, ring, first, last - 1);
    }
}

pub proof fn lemma_crossings_bound(c: Pt, q: Pt, ring: Seq<Pt>, runs: Seq<(u32, u32)>)
    ensures
        crossings(c, q, ring, runs) matches Some(t) ==> -total_edges(runs) <= t <= total_edges(
            runs,
        ),
        total_edges(runs) >= 0,
    decreases runs.len(),
{
    if runs.len() > 0 {
        lemma_crossings_bound(c, q, ring, runs.drop_last());
        lemma_run_crossings_bound(c, q, ring, runs.last().0 as int, runs.last().1 as int);
    }
}

proof fn lemma_total_edges_take(runs: Seq<(u32, u32)>, k: int)
    requires
        0 <= k <= runs.len(),
    ensures
        0 <= total_edges(runs.take(k)) <= total_edges(runs),
    decreases runs.len(),
{
    if k == runs.len() {
        assert(runs.take(k) =~= runs);
        if k > 0 {
            lemma_total_edges_take(runs.drop_last(), k - 1);
        }
    } else {
        lemma_total_edges_take(runs.drop_last(), k);
        assert(runs.drop_last().take(k) =~= runs.take(k));
    }
}

/// An undecided crossing makes the whole count undecided.
proof fn lemma_crossings_none(c: Pt, q: Pt, ring: Seq<Pt>, runs: Seq<(u32, u32)>, k: int)
    requires
        0 <= k <= runs.len(),
        crossings(c, q, ring, runs.take(k)) is None,
    ensures
        crossings(c, q, ring, runs) is None,
    decreases runs.len(),
{
    if k == runs.len() {
        assert(runs.take(k) =~= runs);
    } else {
        assert(runs.drop_last().take(k) =~= runs.take(k));
        lemma_crossings_none(c, q, ring, runs.drop_last(), k);
    }
}

proof fn lemma_run_crossings_none(c: Pt, q: Pt, ring: Seq<Pt>, first: int, mid: int, last: int)
    requires
        first <= mid <= last,
        run_crossings(c, q, ring, first, mid) is None,
    ensures
        run_crossings(c, q, ring, first, last) is None,
    decreases last - mid,
{
    if mid < last {
        lemma_run_crossings_none(c, q, ring, first, mid, last - 1);
    }
}

/// The index after `i`, going round a ring of `n` vertices.
pub proof fn lemma_next_index(i: int, n: int)
    requires
        0 <= i < n,
    ensures
        (i + 1) % n == if i + 1 == n {
            0
        } else {
            i + 1
        },
{
    if i + 1 == n {
        assert(n % n == 0) by (nonlinear_arith)
            requires
                n > 0,
        ;
    } else {
        assert((i + 1) % n == i + 1) by (nonlinear_arith)
            requires
                0 <= i + 1 < n,
        ;
    }
}

/// How the directed segment `c -> q` crosses one edge.
fn crossing_of_edge(c: Pt, q: Pt, a: Pt, b: Pt) -> (r: Option<i64>)
    ensures
        r is Some <==> edge_crossing(c, q, a, b) is Some,
        r is Some ==> r->0 == edge_crossing(c, q, a, b)->0 && -1 <= r->0 <= 1,
{
    let o1 = side(a, b, c);
    let o2 = side(a, b, q);
    if o1 == 0 || o2 == 0 {
        return None;
    }
    if (o1 > 0) == (o2 > 0) {
        return Some(0);  // c and q on the same side
    }
    let o3 = side(c, q, a);
    let o4 = side(c, q, b);
    if o3 == 0 || o4 == 0 {
        return None;
    }
    if (o3 > 0) == (o4 > 0) {
        return Some(0);  // a and b on the same side
    }
    if o2 > 0 {
        Some(1)
    } else {
        Some(-1)
    }
}

/// Signed number of times the directed segment `c -> q` crosses the ring edges
/// in `runs` (inclusive `[first, last]` edge-index ranges).  `None` signals a
/// degenerate orientation (a vertex on `c -> q`, or a collinear edge) so the
/// caller falls back to a full point-in-polygon test.
pub fn segment_crossings(c: Pt, q: Pt, ring: &[Pt], runs: &[(u32, u32)]) -> (r: Option<i64>)
    requires
        runs_within(runs@, ring@.len() as int),
        total_edges(runs@) <= i64::MAX,
    ensures
        match crossings(c, q, ring@, runs@) {
            Some(t) => r == Some(t as i64) && fits_i64(t),
            None => r is None,
        },
{
    let n = ring.len();
    let mut delta: i64 = 0;
    let mut k: usize = 0;
    while k < runs.len()
        invariant
            n == ring@.len(),
            0 <= k <= runs@.len(),
            runs_within(runs@, ring@.len() as int),
            total_edges(runs@) <= i64::MAX,
            crossings(c, q, ring@, runs@.take(k as int)) == Some(delta as int),
        decreases runs.len() - k,
    {
        let (first, last) = runs[k];
        let mut i: u64 = first as u64;
        let ghost base = delta as int;
        proof {
            assert(runs@.take(k + 1).drop_last() =~= runs@.take(k as int));
            assert(runs@.take(k + 1).last() == runs@[k as int]);
            lemma_total_edges_take(runs@, k + 1);
            lemma_crossings_bound(c, q, ring@, runs@.take(k as int));
        }
        while i <= last as u64
            invariant
                n == ring@.len(),
                first <= i,
                i <= last + 1 || i == first,
                first <= last ==> last < n,
                run_crossings(c, q, ring@, first as int, i - 1) == Some(delta - base),
                -(i - first) <= delta - base <= i - first,
                total_edges(runs@.take(k as int)) + run_len((first, last)) <= i64::MAX,
                -total_edges(runs@.take(k as int)) <= base <= total_edges(runs@.take(k as int)),
                crossings(c, q, ring@, runs@.take(k as int)) == Some(base),
                0 <= k < runs@.len(),
                runs@[k as int] == (first, last),
                runs@.take(k + 1).drop_last() == runs@.take(k as int),
                runs@.take(k + 1).last() == runs@[k as int],
            decreases last + 1 - i,
        {
            let j = i as usize;
            let a = ring[j];
            let b = ring[if j + 1 == n {
                0
            } else {
                j + 1
            }];
            proof {
                lemma_next_index(i as int, n as int);
            }
            match crossing_of_edge(c, q, a, b) {
                None => {
                    proof {
                        lemma_run_crossings_none(
                            c,
                            q,
                            ring@,
                            first as int,
                            i as int,
                            last as int,
                        );
                        lemma_crossings_none(c, q, ring@, runs@, k + 1);
                    }
                    return None;
                },
                Some(d) => {
                    delta = delta + d;
                },
            }
            i += 1;
        }
        k += 1;
    }
    proof {
        assert(runs@.take(runs@.len() as int) =~= runs@);
        lemma_crossings_bound(c, q, ring@, runs@);
    }
    Some(delta)
}

/// The child chosen for a point holds it, and no other child does.
pub proof fn law_quadrant_is_the_only_child(cell: Aabb, p: Pt, quadrant: int)
    requires
        has_midpoints(cell),
        in_cell(p, cell),
        0 <= quadrant < 4,
    ensures
        0 <= quadrant_of(cell, p) < 4,
        in_cell(p, child_cell(cell, quadrant)) <==> quadrant == quadrant_of(cell, p),
{
}

/// The values of the cell height, level by level.
pub proof fn lemma_cell_height(depth: nat)
    requires
        depth <= 19,
    ensures
        1 <= cell_height(depth) <= 524288,
        depth <= 18 ==> cell_height(depth) % 2 == 0 && cell_height(depth) >= 2,
        depth <= 18 ==> cell_height(depth + 1) * 2 == cell_height(depth),
    decreases depth,
{
    reveal_with_fuel(cell_height, 21);
    assert(cell_height(19) == 1);
}

/// Down to the maximum depth every cell has exact midpoints: the sums of its
/// bounds are even, and its children have the size of the next level.
pub proof fn law_midpoints_exact(cell: Aabb, depth: nat, quadrant: int)
    requires
        depth <= 18,
        is_cell_at(cell, depth),
        0 <= quadrant < 4,
    ensures
        has_midpoints(cell),
        (cell[0][0] + cell[1][0]) % 2 == 0,
        (cell[0][1] + cell[1][1]) % 2 == 0,
        is_cell_at(child_cell(cell, quadrant), depth + 1),
{
    lemma_cell_height(depth);
    let h = cell_height(depth);
    let (x, y) = (cell[0][0] as int, cell[0][1] as int);
    assert(cell[0][0] + cell[1][0] == 2 * (x + h));
    assert(cell[0][1] + cell[1][1] == 2 * (y + h / 2));
    assert(mid(cell[0][0], cell[1][0]) == x + h);
    assert(mid(cell[0][1], cell[1][1]) == y + h / 2);
}

/// The root cell is the cell at depth zero.
pub proof fn lemma_root_cell()
    ensures
        is_cell_at(ROOT_CELL, 0),
{
}

/// A child lies within its parent.
pub proof fn lemma_child_within(cell: Aabb, depth: nat, quadrant: int, p: Pt)
    requires
        depth <= 18,
        is_cell_at(cell, depth),
        0 <= quadrant < 4,
    ensures
        in_box(p, child_cell(cell, quadrant)) ==> in_box(p, cell),
        in_cell(p, child_cell(cell, quadrant)) ==> in_cell(p, cell),
        in_box(center_of(cell), cell),
{
    law_midpoints_exact(cell, depth, quadrant);
    lemma_cell_height(depth);
}

/// The quadrants lie round the center counterclockwise from the north-east: the
/// first and the last are the eastern ones, the first and the second the northern
/// ones.
pub proof fn law_quadrants_go_round(cell: Aabb, quadrant: int, p: Pt)
    requires
        0 <= quadrant < 4,
        in_cell(p, child_cell(cell, quadrant)),
    ensures
        p[0] >= center_of(cell)[0] <==> quadrant == 0 || quadrant == 3,
        p[1] >= center_of(cell)[1] <==> quadrant == 0 || quadrant == 1,
{
}

/// The center is midway between the sides, so that the four children have the
/// same size.
pub proof fn law_children_are_alike(cell: Aabb, depth: nat, quadrant: int)
    requires
        depth <= 18,
        is_cell_at(cell, depth),
        0 <= quadrant < 4,
    ensures
        center_of(cell)[0] - cell[0][0] == cell[1][0] - center_of(cell)[0],
        center_of(cell)[1] - cell[0][1] == cell[1][1] - center_of(cell)[1],
        2 * (child_cell(cell, quadrant)[1][0] - child_cell(cell, quadrant)[0][0]) == cell[1][0]
            - cell[0][0],
        2 * (child_cell(cell, quadrant)[1][1] - child_cell(cell, quadrant)[0][1]) == cell[1][1]
            - cell[0][1],
{
    law_midpoints_exact(cell, depth, quadrant);
    lemma_cell_height(depth);
}

/// Some edge of the run is undecided.
pub open spec fn has_undecided(c: Pt, q: Pt, ring: Seq<Pt>, first: int, last: int) -> bool {
    exists|i: int|
        first <= i <= last && edge_crossing(c, q, #[trigger] ring[i], ring[(i + 1)
            % ring.len() as int]) is None
}

proof fn lemma_run_undecided(c: Pt, q: Pt, ring: Seq<Pt>, first: int, last: int)
    ensures
        run_crossings(c, q, ring, first, last) is None <==> has_undecided(c, q, ring, first, last),
    decreases last - first + 1,
{
    if first <= last {
        lemma_run_undecided(c, q, ring, first, last - 1);
        if has_undecided(c, q, ring, first, last - 1) {
            let i = choose|i: int|
                first <= i <= last - 1 && edge_crossing(
                    c,
                    q,
                    #[trigger] ring[i],
                    ring[(i + 1) % ring.len() as int],
                ) is None;
            assert(edge_crossing(c, q, ring[i], ring[(i + 1) % ring.len() as int]) is None);
            assert(has_undecided(c, q, ring, first, last));
        }
        if edge_crossing(c, q, ring[last], ring[(last + 1) % ring.len() as int]) is None {
            assert(has_undecided(c, q, ring, first, last));
        }
        if has_undecided(c, q, ring, first, last) && edge_crossing(
            c,
            q,
            ring[last],
            ring[(last + 1) % ring.len() as int],
        ) is Some {
            let i = choose|i: int|
                first <= i <= last && edge_crossing(
                    c,
                    q,
                    #[trigger] ring[i],
                    ring[(i + 1) % ring.len() as int],
                ) is None;
            assert(i < last);
            assert(edge_crossing(c, q, ring[i], ring[(i + 1) % ring.len() as int]) is None);
            assert(has_undecided(c, q, ring, first, last - 1));
        }
    }
}

/// The crossings over some runs are undecided exactly where an edge of a run is.
pub proof fn law_crossings_are_undecided_by_an_edge(
    c: Pt,
    q: Pt,
    ring: Seq<Pt>,
    runs: Seq<(u32, u32)>,
)
    ensures
        crossings(c, q, ring, runs) is None <==> exists|k: int|
            0 <= k < runs.len() && has_undecided(
                c,
                q,
                ring,
                (#[trigger] runs[k]).0 as int,
                runs[k].1 as int,
            ),
    decreases runs.len(),
{
    if runs.len() > 0 {
        let shorter = runs.drop_last();
        let last = runs.len() - 1;
        law_crossings_are_undecided_by_an_edge(c, q, ring, shorter);
        lemma_run_undecided(c, q, ring, runs[last].0 as int, runs[last].1 as int);
        assert forall|k: int| 0 <= k < last implies #[trigger] shorter[k] == runs[k] by {}
        if crossings(c, q, ring, shorter) is None {
            let k = choose|k: int|
                0 <= k < shorter.len() && has_undecided(
                    c,
                    q,
                    ring,
                    (#[trigger] shorter[k]).0 as int,
                    shorter[k].1 as int,
                );
            assert(runs[k] == shorter[k]);
        }
        if exists|k: int|
            0 <= k < runs.len() && has_undecided(
                c,
                q,
                ring,
                (#[trigger] runs[k]).0 as int,
                runs[k].1 as int,
            ) {
            let k = choose|k: int|
                0 <= k < runs.len() && has_undecided(
                    c,
                    q,
                    ring,
                    (#[trigger] runs[k]).0 as int,
                    runs[k].1 as int,
                );
            if k < last {
                assert(shorter[k] == runs[k]);
            }
        }
    }
}

/// The crossings over two lists of runs add up.
pub proof fn law_crossings_add_up(
    c: Pt,
    q: Pt,
    ring: Seq<Pt>,
    a: Seq<(u32, u32)>,
    b: Seq<(u32, u32)>,
)
    ensures
        crossings(c, q, ring, a + b) == (match (crossings(c, q, ring, a), crossings(c, q, ring, b)) {
            (Some(x), Some(y)) => Some(x + y),
            _ => None,
        }),
    decreases b.len(),
{
    if b.len() == 0 {
        assert(a + b =~= a);
    } else {
        law_crossings_add_up(c, q, ring, a, b.drop_last());
        assert((a + b).drop_last() =~= a + b.drop_last());
        assert((a + b).last() == b.last());
    }
}

} // verus!
