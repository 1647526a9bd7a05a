//! Why a shared border is stored once: but for rings without junctions, no edge
//! lies in two arcs.
use vstd::prelude::*;

use crate::arcs::{
    arc_from, cut, is_junction, junction_positions, lemma_junction_positions, lemma_topology_of,
    next_index, occurs, place_all, place_arc, prev_index, same_neighbours, same_pair,
    steps_between, topology_of, wrap,
};
use crate::geom::Pt;
use crate::winding::closed;

verus! {

/// The paths have an edge in common, in one direction or the other: that at `x`
/// of the first is that at `y` of the second.
pub open spec fn same_edge(a: Seq<Pt>, x: int, b: Seq<Pt>, y: int) -> bool {
    same_pair(a[x], a[x + 1], b[y], b[y + 1])
}

/// No edge lies in two arcs, unless both of them are rings without junctions.
pub open spec fn borders_once(rings: Seq<Seq<Pt>>, arcs: Seq<Seq<Pt>>) -> bool {
    forall|i: int, x: int, j: int, y: int|
        #![trigger arcs[i][x], arcs[j][y]]
        0 <= i < arcs.len() && 0 <= j < arcs.len() && i != j && (is_junction(rings, arcs[i][0])
            || is_junction(rings, arcs[j][0])) && 0 <= x < arcs[i].len() - 1 && 0 <= y
            < arcs[j].len() - 1 ==> !same_edge(arcs[i], x, arcs[j], y)
}

/// An inner vertex of the path stands in some ring between the same neighbours.
spec fn flanked(rings: Seq<Seq<Pt>>, path: Seq<Pt>, i: int) -> bool {
    exists|r: int, t: int| #[trigger]
        occurs(rings, path[i], r, t) && same_pair(
            rings[r][prev_index(t, rings[r].len() as int)],
            rings[r][next_index(t, rings[r].len() as int)],
            path[i - 1],
            path[i + 1],
        )
}

/// A stretch of a ring from one junction to the next.
spec fn is_run(rings: Seq<Seq<Pt>>, path: Seq<Pt>) -> bool {
    &&& path.len() >= 2
    &&& is_junction(rings, path[0])
    &&& is_junction(rings, path.last())
    &&& forall|i: int|
        0 < i < path.len() - 1 ==> !is_junction(rings, #[trigger] path[i]) && flanked(
            rings,
            path,
            i,
        )
}

proof fn lemma_run_reverse(rings: Seq<Seq<Pt>>, path: Seq<Pt>)
    requires
        is_run(rings, path),
    ensures
        is_run(rings, path.reverse()),
{
    let back = path.reverse();
    let n = path.len() as int;
    assert forall|i: int| 0 < i < n - 1 implies !is_junction(rings, #[trigger] back[i])
        && flanked(rings, back, i) by {
        let k = n - 1 - i;
        assert(back[i] == path[k]);
        assert(flanked(rings, path, k));
        let (r, t) = choose|r: int, t: int| #[trigger]
            occurs(rings, path[k], r, t) && same_pair(
                rings[r][prev_index(t, rings[r].len() as int)],
                rings[r][next_index(t, rings[r].len() as int)],
                path[k - 1],
                path[k + 1],
            );
        assert(back[i - 1] == path[k + 1] && back[i + 1] == path[k - 1]);
        assert(occurs(rings, back[i], r, t));
    }
}

/// Runs continue alike through a vertex that is no junction.
proof fn lemma_same_flanks(rings: Seq<Seq<Pt>>, a: Seq<Pt>, i: int, b: Seq<Pt>, j: int)
    requires
        !is_junction(rings, a[i]),
        a[i] == b[j],
        flanked(rings, a, i),
        flanked(rings, b, j),
    ensures
        same_pair(a[i - 1], a[i + 1], b[j - 1], b[j + 1]),
{
    let (r, t) = choose|r: int, t: int| #[trigger]
        occurs(rings, a[i], r, t) && same_pair(
            rings[r][prev_index(t, rings[r].len() as int)],
            rings[r][next_index(t, rings[r].len() as int)],
            a[i - 1],
            a[i + 1],
        );
    let (s, u) = choose|s: int, u: int| #[trigger]
        occurs(rings, b[j], s, u) && same_pair(
            rings[s][prev_index(u, rings[s].len() as int)],
            rings[s][next_index(u, rings[s].len() as int)],
            b[j - 1],
            b[j + 1],
        );
    assert(occurs(rings, a[i], s, u));
    assert(same_neighbours(rings[r], t, rings[s], u));
}

/// Runs with an edge in common have the same vertices before it.
proof fn lemma_same_before(rings: Seq<Seq<Pt>>, a: Seq<Pt>, x: int, b: Seq<Pt>, y: int)
    requires
        is_run(rings, a),
        is_run(rings, b),
        0 <= x < a.len() - 1,
        0 <= y < b.len() - 1,
        a[x] == b[y],
        a[x + 1] == b[y + 1],
    ensures
        x == y,
        forall|i: int| 0 <= i <= x + 1 ==> a[i] == b[i],
    decreases x,
{
    if is_junction(rings, a[x]) {
        assert(x == 0 && y == 0);
    } else {
        assert(x > 0 && y > 0);
        lemma_same_flanks(rings, a, x, b, y);
        lemma_same_before(rings, a, x - 1, b, y - 1);
        assert forall|i: int| 0 <= i <= x + 1 implies a[i] == b[i] by {}
    }
}

/// Runs with an edge in common are the same, in one direction or the other.
proof fn lemma_run_unique(rings: Seq<Seq<Pt>>, a: Seq<Pt>, x: int, b: Seq<Pt>, y: int)
    requires
        is_run(rings, a),
        is_run(rings, b),
        0 <= x < a.len() - 1,
        0 <= y < b.len() - 1,
        same_edge(a, x, b, y),
    ensures
        a == b || a == b.reverse(),
{
    if a[x] == b[y] && a[x + 1] == b[y + 1] {
        lemma_run_alike(rings, a, x, b, y);
    } else {
        let back = b.reverse();
        lemma_run_reverse(rings, b);
        assert(back[b.len() - 2 - y] == b[y + 1] && back[b.len() - 1 - y] == b[y]);
        lemma_run_alike(rings, a, x, back, b.len() - 2 - y);
    }
}

proof fn lemma_run_alike(rings: Seq<Seq<Pt>>, a: Seq<Pt>, x: int, b: Seq<Pt>, y: int)
    requires
        is_run(rings, a),
        is_run(rings, b),
        0 <= x < a.len() - 1,
        0 <= y < b.len() - 1,
        a[x] == b[y],
        a[x + 1] == b[y + 1],
    ensures
        a == b,
{
    let (c, d) = (a.reverse(), b.reverse());
    lemma_same_before(rings, a, x, b, y);
    lemma_run_reverse(rings, a);
    lemma_run_reverse(rings, b);
    assert(c[a.len() - 2 - x] == a[x + 1] && c[a.len() - 1 - x] == a[x]);
    assert(d[b.len() - 2 - y] == b[y + 1] && d[b.len() - 1 - y] == b[y]);
    lemma_same_before(rings, c, a.len() - 2 - x, d, b.len() - 2 - y);
    assert forall|i: int| 0 <= i < a.len() implies a[i] == b[i] by {
        if i > x + 1 {
            assert(c[a.len() - 1 - i] == d[a.len() - 1 - i]);
        }
    }
    assert(a =~= b);
}

/// The positions of junctions are all of them and nothing else.
proof fn lemma_positions_complete(ring: Seq<Pt>, rings: Seq<Seq<Pt>>, k: int)
    requires
        0 <= k <= ring.len(),
    ensures
        ({
            let js = junction_positions(ring, rings, k);
            &&& forall|i: int| 0 <= i < js.len() ==> is_junction(rings, ring[#[trigger] js[i]])
            &&& forall|p: int|
                0 <= p < k && is_junction(rings, #[trigger] ring[p]) ==> js.contains(p)
        }),
    decreases k,
{
    if k > 0 {
        lemma_positions_complete(ring, rings, k - 1);
        lemma_junction_positions(ring, rings, k - 1);
        let before = junction_positions(ring, rings, k - 1);
        let js = junction_positions(ring, rings, k);
        assert forall|p: int|
            0 <= p < k && is_junction(rings, #[trigger] ring[p]) implies js.contains(p) by {
            if p == k - 1 {
                assert(js[js.len() - 1] == p);
            } else {
                let i = choose|i: int| 0 <= i < before.len() && before[i] == p;
                assert(js[i] == p);
            }
        }
    }
}

/// The arcs of a ring with junctions are runs.
proof fn lemma_cut_is_run(rings: Seq<Seq<Pt>>, r: int, k: int)
    requires
        0 <= r < rings.len(),
        junction_positions(rings[r], rings, rings[r].len() as int).len() > 0,
        0 <= k < cut(rings[r], rings).len(),
    ensures
        is_run(rings, cut(rings[r], rings)[k]),
{
    let ring = rings[r];
    let n = ring.len() as int;
    let js = junction_positions(ring, rings, n);
    let m = js.len() as int;
    lemma_junction_positions(ring, rings, n);
    lemma_positions_complete(ring, rings, n);
    let (s, e) = (js[k], js[next_index(k, m)]);
    let steps = steps_between(s, e, n);
    let path = cut(ring, rings)[k];
    assert(path == arc_from(ring, s, steps));
    assert(k + 1 < m ==> js[k] < js[k + 1]);
    assert(k + 1 == m ==> js[0] <= js[k]);
    assert(path[0] == ring[s]);
    assert(wrap(s + steps, n) == e);
    assert(path.last() == ring[e]);
    assert(is_junction(rings, ring[js[k]]) && is_junction(rings, ring[js[next_index(k, m)]]));
    assert forall|i: int| 0 < i < path.len() - 1 implies !is_junction(rings, #[trigger] path[i])
        && flanked(rings, path, i) by {
        let w = wrap(s + i, n);
        assert(path[i] == ring[w]);
        if is_junction(rings, ring[w]) {
            assert(js.contains(w));
            let c = choose|c: int| 0 <= c < m && js[c] == w;
            assert(c > 0 ==> js[0] < js[c]);
            assert(c < m - 1 ==> js[c] < js[m - 1]);
            if k + 1 < m {
                assert(c < k ==> js[c] < js[k]);
                assert(c > k + 1 ==> js[k + 1] < js[c]);
            }
            assert(false);
        }
        assert(occurs(rings, path[i], r, w));
        assert(path[i - 1] == ring[wrap(s + i - 1, n)]);
        assert(path[i + 1] == ring[wrap(s + i + 1, n)]);
        assert(wrap(s + i - 1, n) == prev_index(w, n));
        assert(wrap(s + i + 1, n) == next_index(w, n));
    }
    assert(is_run(rings, path));
}

/// A run has no vertex in common with a ring without junctions.
proof fn lemma_run_avoids_free_ring(
    rings: Seq<Seq<Pt>>,
    a: Seq<Pt>,
    x: int,
    r: int,
    t: int,
)
    requires
        is_run(rings, a),
        0 <= x < a.len(),
        0 <= r < rings.len(),
        junction_positions(rings[r], rings, rings[r].len() as int).len() == 0,
        0 <= t < rings[r].len(),
    ensures
        rings[r][t] != a[x],
    decreases x,
{
    let ring = rings[r];
    let n = ring.len() as int;
    if ring[t] == a[x] {
        lemma_positions_complete(ring, rings, n);
        assert(!is_junction(rings, ring[t]));
        assert(0 < x < a.len() - 1);
        assert(flanked(rings, a, x));
        let (s, u) = choose|s: int, u: int| #[trigger]
            occurs(rings, a[x], s, u) && same_pair(
                rings[s][prev_index(u, rings[s].len() as int)],
                rings[s][next_index(u, rings[s].len() as int)],
                a[x - 1],
                a[x + 1],
            );
        assert(occurs(rings, a[x], r, t));
        assert(same_neighbours(rings[s], u, ring, t));
        lemma_run_avoids_free_ring(rings, a, x - 1, r, prev_index(t, n));
        lemma_run_avoids_free_ring(rings, a, x - 1, r, next_index(t, n));
    }
}

proof fn lemma_place_all_source(arcs: Seq<Seq<Pt>>, cuts: Seq<Seq<Pt>>, i: int)
    requires
        0 <= i < place_all(arcs, cuts).0.len(),
    ensures
        (i < arcs.len() && place_all(arcs, cuts).0[i] == arcs[i]) || cuts.contains(
            place_all(arcs, cuts).0[i],
        ),
    decreases cuts.len(),
{
    if cuts.len() > 0 {
        let before = place_all(arcs, cuts.drop_last()).0;
        let after = place_arc(before, cuts.last()).0;
        if i < before.len() {
            assert(after[i] == before[i]);
            lemma_place_all_source(arcs, cuts.drop_last(), i);
            if cuts.drop_last().contains(before[i]) {
                let c = choose|c: int|
                    0 <= c < cuts.drop_last().len() && cuts.drop_last()[c] == before[i];
                assert(cuts[c] == before[i]);
            }
        } else {
            assert(after[i] == cuts.last());
            assert(cuts[cuts.len() - 1] == after[i]);
        }
    }
}

/// Every stored arc is one that some ring was cut into.
proof fn lemma_arc_source(rings: Seq<Seq<Pt>>, k: int, i: int) -> (at: (int, int))
    requires
        0 <= k <= rings.len(),
        0 <= i < topology_of(rings, k).0.len(),
    ensures
        0 <= at.0 < k,
        0 <= at.1 < cut(rings[at.0], rings).len(),
        topology_of(rings, k).0[i] == cut(rings[at.0], rings)[at.1],
    decreases k,
{
    if k <= 0 {
        (0, 0)
    } else {
        let before = topology_of(rings, k - 1).0;
        let cuts = cut(rings[k - 1], rings);
        let after = place_all(before, cuts).0;
        lemma_place_all_source(before, cuts, i);
        if i < before.len() && after[i] == before[i] {
            lemma_arc_source(rings, k - 1, i)
        } else {
            let c = choose|c: int| 0 <= c < cuts.len() && cuts[c] == after[i];
            (k - 1, c)
        }
    }
}

/// Where an arc comes from: a ring with junctions if it starts at one, a whole
/// ring without junctions if not.
proof fn lemma_arc_kind(rings: Seq<Seq<Pt>>, i: int) -> (r: int)
    requires
        forall|k: int| 0 <= k < rings.len() ==> (#[trigger] rings[k]).len() > 0,
        0 <= i < topology_of(rings, rings.len() as int).0.len(),
    ensures
        0 <= r < rings.len(),
        ({
            let arc = topology_of(rings, rings.len() as int).0[i];
            if is_junction(rings, arc[0]) {
                is_run(rings, arc)
            } else {
                &&& junction_positions(rings[r], rings, rings[r].len() as int).len() == 0
                &&& arc == closed(rings[r])
            }
        }),
{
    let (r, c) = lemma_arc_source(rings, rings.len() as int, i);
    let ring = rings[r];
    let n = ring.len() as int;
    lemma_positions_complete(ring, rings, n);
    if junction_positions(ring, rings, n).len() > 0 {
        lemma_cut_is_run(rings, r, c);
    } else {
        assert(closed(ring)[0] == ring[0]);
        assert(!is_junction(rings, ring[0]));
    }
    r
}

proof fn lemma_run_apart(rings: Seq<Seq<Pt>>, i: int, x: int, j: int, y: int)
    requires
        forall|k: int| 0 <= k < rings.len() ==> (#[trigger] rings[k]).len() > 0,
        topology_of(rings, rings.len() as int).0.len() <= usize::MAX,
        ({
            let arcs = topology_of(rings, rings.len() as int).0;
            &&& 0 <= i < arcs.len() && 0 <= j < arcs.len() && i != j
            &&& is_junction(rings, arcs[i][0])
            &&& 0 <= x < arcs[i].len() - 1
            &&& 0 <= y < arcs[j].len() - 1
        }),
    ensures
        ({
            let arcs = topology_of(rings, rings.len() as int).0;
            !same_edge(arcs[i], x, arcs[j], y) && !same_edge(arcs[j], y, arcs[i], x)
        }),
{
    let arcs = topology_of(rings, rings.len() as int).0;
    let (a, b) = (arcs[i], arcs[j]);
    lemma_topology_of(rings, rings.len() as int);
    lemma_arc_kind(rings, i);
    let s = lemma_arc_kind(rings, j);
    if same_edge(a, x, b, y) || same_edge(b, y, a, x) {
        if is_junction(rings, b[0]) {
            lemma_run_unique(rings, a, x, b, y);
            assert(a.reverse().reverse() =~= a);
            assert(b.reverse().reverse() =~= b);
            if i < j {
                assert(arcs[i] != arcs[j] && arcs[i] != arcs[j].reverse());
            } else {
                assert(arcs[j] != arcs[i] && arcs[j] != arcs[i].reverse());
            }
        } else {
            assert(b[y] == rings[s][y]);
            lemma_run_avoids_free_ring(rings, a, x, s, y);
            lemma_run_avoids_free_ring(rings, a, x + 1, s, y);
        }
    }
}

/// Each shared border is stored once: of two different arcs of which one starts
/// at a junction, none of the edges is the same, in either direction.  Only two
/// whole rings without junctions can run along the same edges, if they start at
/// different vertices.
pub proof fn law_no_edge_in_two_arcs(rings: Seq<Seq<Pt>>)
    requires
        forall|k: int| 0 <= k < rings.len() ==> (#[trigger] rings[k]).len() > 0,
        topology_of(rings, rings.len() as int).0.len() <= usize::MAX,
    ensures
        borders_once(rings, topology_of(rings, rings.len() as int).0),
{
    let arcs = topology_of(rings, rings.len() as int).0;
    assert forall|i: int, x: int, j: int, y: int|
        #![trigger arcs[i][x], arcs[j][y]]
        0 <= i < arcs.len() && 0 <= j < arcs.len() && i != j && (is_junction(rings, arcs[i][0])
            || is_junction(rings, arcs[j][0])) && 0 <= x < arcs[i].len() - 1 && 0 <= y
            < arcs[j].len() - 1 implies !same_edge(arcs[i], x, arcs[j], y) by {
        if is_junction(rings, arcs[i][0]) {
            lemma_run_apart(rings, i, x, j, y);
        } else {
            lemma_run_apart(rings, j, y, i, x);
        }
    }
}

/// An arc runs from junction to junction, with none on its way; only a ring that
/// has no junction at all is one arc from its first vertex round to it again.
pub proof fn law_arcs_run_from_junction_to_junction(rings: Seq<Seq<Pt>>, i: int)
    requires
        forall|k: int| 0 <= k < rings.len() ==> (#[trigger] rings[k]).len() > 0,
        0 <= i < topology_of(rings, rings.len() as int).0.len(),
    ensures
        ({
            let arc = topology_of(rings, rings.len() as int).0[i];
            &&& arc.len() >= 2
            &&& is_junction(rings, arc[0]) <==> is_junction(rings, arc.last())
            &&& forall|x: int| 0 < x < arc.len() - 1 ==> !is_junction(rings, #[trigger] arc[x])
            &&& !is_junction(rings, arc[0]) ==> exists|r: int|
                0 <= r < rings.len() && arc == closed(#[trigger] rings[r])
        }),
{
    let arc = topology_of(rings, rings.len() as int).0[i];
    let r = lemma_arc_kind(rings, i);
    let ring = rings[r];
    if !is_junction(rings, arc[0]) {
        lemma_positions_complete(ring, rings, ring.len() as int);
        assert(arc.last() == ring[0]);
        assert(arc[0] == ring[0]);
        assert forall|x: int| 0 < x < arc.len() - 1 implies !is_junction(rings, #[trigger] arc[x]) by {
            assert(arc[x] == ring[x]);
        }
    }
}

/// The vertices before and behind a vertex of a ring.
pub open spec fn neighbours(ring: Seq<Pt>, i: int) -> Set<Pt> {
    let n = ring.len() as int;
    set![ring[(i + n - 1) % n], ring[(i + 1) % n]]
}

/// A vertex is a junction exactly where it occurs with different neighbours,
/// whichever way round the rings run.  A vertex that occurs only once is none.
pub proof fn law_junctions_have_different_neighbours(rings: Seq<Seq<Pt>>, p: Pt)
    ensures
        is_junction(rings, p) <==> exists|r: int, i: int, s: int, j: int|
            #![trigger occurs(rings, p, r, i), occurs(rings, p, s, j)]
            occurs(rings, p, r, i) && occurs(rings, p, s, j) && neighbours(rings[r], i)
                != neighbours(rings[s], j),
{
    assert forall|r: int, i: int, s: int, j: int|
        #![trigger occurs(rings, p, r, i), occurs(rings, p, s, j)]
        occurs(rings, p, r, i) && occurs(rings, p, s, j) implies (same_neighbours(
        rings[r],
        i,
        rings[s],
        j,
    ) <==> neighbours(rings[r], i) == neighbours(rings[s], j)) by {
        lemma_neighbours(rings[r], i);
        lemma_neighbours(rings[s], j);
        let (n, m) = (rings[r].len() as int, rings[s].len() as int);
        lemma_pair_set(
            rings[r][prev_index(i, n)],
            rings[r][next_index(i, n)],
            rings[s][prev_index(j, m)],
            rings[s][next_index(j, m)],
        );
    }
}

proof fn lemma_neighbours(ring: Seq<Pt>, i: int)
    requires
        0 <= i < ring.len(),
    ensures
        neighbours(ring, i) == set![
            ring[prev_index(i, ring.len() as int)],
            ring[next_index(i, ring.len() as int)],
        ],
{
    let n = ring.len() as int;
    if i == 0 {
        assert((i + n - 1) % n == n - 1) by (nonlinear_arith)
            requires
                i == 0,
                n > 0,
        ;
    } else {
        assert((i + n - 1) % n == i - 1) by (nonlinear_arith)
            requires
                0 < i < n,
        ;
    }
    if i + 1 == n {
        assert((i + 1) % n == 0) by (nonlinear_arith)
            requires
                i + 1 == n,
                n > 0,
        ;
    } else {
        assert((i + 1) % n == i + 1) by (nonlinear_arith)
            requires
                0 <= i + 1 < n,
        ;
    }
}

proof fn lemma_pair_set(a: Pt, b: Pt, c: Pt, d: Pt)
    ensures
        same_pair(a, b, c, d) <==> set![a, b] == set![c, d],
{
    let (x, y) = (set![a, b], set![c, d]);
    if same_pair(a, b, c, d) {
        assert(x =~= y);
    }
    if x == y {
        assert(x.contains(a) && x.contains(b));
        assert(y.contains(c) && y.contains(d));
        assert(y.contains(a) && y.contains(b));
        assert(x.contains(c) && x.contains(d));
    }
}

} // verus!
