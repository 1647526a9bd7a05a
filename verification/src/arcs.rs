//! The shared-arc model: what the junctions of a set of rings are, how a ring
//! is cut into arcs at them, and why the arcs give every ring back.
use vstd::prelude::*;

use crate::geom::Pt;
use crate::topology::ArcRef;
use crate::winding::{closed, join, rotated};

verus! {

/// The vertex lists behind a list of vectors.
pub open spec fn deep(rings: Seq<Vec<Pt>>) -> Seq<Seq<Pt>> {
    Seq::new(rings.len(), |i: int| rings[i]@)
}

pub open spec fn prev_index(i: int, n: int) -> int {
    if i == 0 {
        n - 1
    } else {
        i - 1
    }
}

pub open spec fn next_index(i: int, n: int) -> int {
    if i + 1 == n {
        0
    } else {
        i + 1
    }
}

/// The unordered pair `{a, b}` is the pair `{c, d}`.
pub open spec fn same_pair(a: Pt, b: Pt, c: Pt, d: Pt) -> bool {
    (a == c && b == d) || (a == d && b == c)
}

/// The two occurrences are flanked by the same unordered pair of neighbours.
pub open spec fn same_neighbours(r: Seq<Pt>, i: int, s: Seq<Pt>, j: int) -> bool {
    same_pair(
        r[prev_index(i, r.len() as int)],
        r[next_index(i, r.len() as int)],
        s[prev_index(j, s.len() as int)],
        s[next_index(j, s.len() as int)],
    )
}

/// Vertex `i` of ring `r` is the point `p`.
pub open spec fn occurs(rings: Seq<Seq<Pt>>, p: Pt, r: int, i: int) -> bool {
    0 <= r < rings.len() && 0 <= i < rings[r].len() && rings[r][i] == p
}

/// A point is a junction if, across all its occurrences, it is not always
/// flanked by the same unordered pair of neighbours.
pub open spec fn is_junction(rings: Seq<Seq<Pt>>, p: Pt) -> bool {
    exists|r: int, i: int, s: int, j: int|
        #![trigger occurs(rings, p, r, i), occurs(rings, p, s, j)]
        occurs(rings, p, r, i) && occurs(rings, p, s, j) && !same_neighbours(
            rings[r],
            i,
            rings[s],
            j,
        )
}

/// The positions below `k` at which a ring passes through a junction.
pub open spec fn junction_positions(ring: Seq<Pt>, rings: Seq<Seq<Pt>>, k: int) -> Seq<int>
    decreases k,
{
    if k <= 0 {
        Seq::empty()
    } else if is_junction(rings, ring[k - 1]) {
        junction_positions(ring, rings, k - 1).push(k - 1)
    } else {
        junction_positions(ring, rings, k - 1)
    }
}

pub open spec fn wrap(i: int, n: int) -> int {
    if i < n {
        i
    } else {
        i - n
    }
}

/// The vertices from position `start` over `steps` edges, going round the ring.
pub open spec fn arc_from(ring: Seq<Pt>, start: int, steps: int) -> Seq<Pt> {
    Seq::new((steps + 1) as nat, |i: int| ring[wrap(start + i, ring.len() as int)])
}

/// The number of edges from position `s` on to position `e`, at least one.
pub open spec fn steps_between(s: int, e: int, n: int) -> int {
    if e > s {
        e - s
    } else {
        e - s + n
    }
}

/// The arcs of a ring: from each junction to the next, both included.  A ring
/// without junctions is one closed arc.
pub open spec fn cut(ring: Seq<Pt>, rings: Seq<Seq<Pt>>) -> Seq<Seq<Pt>> {
    let n = ring.len() as int;
    let js = junction_positions(ring, rings, n);
    if js.len() == 0 {
        seq![closed(ring)]
    } else {
        Seq::new(
            js.len(),
            |k: int|
                arc_from(
                    ring,
                    js[k],
                    steps_between(js[k], js[next_index(k, js.len() as int)], n),
                ),
        )
    }
}

/// The first index from `k` on at which the arc is stored.
pub open spec fn find_arc(arcs: Seq<Seq<Pt>>, arc: Seq<Pt>, k: int) -> Option<int>
    decreases arcs.len() - k,
{
    if k < 0 || k >= arcs.len() {
        None
    } else if arcs[k] == arc {
        Some(k)
    } else {
        find_arc(arcs, arc, k + 1)
    }
}

/// Store an arc unless it is there already, forwards or backwards.
pub open spec fn place_arc(arcs: Seq<Seq<Pt>>, arc: Seq<Pt>) -> (Seq<Seq<Pt>>, ArcRef) {
    match find_arc(arcs, arc, 0) {
        Some(i) => (arcs, ArcRef { arc: i as usize, rev: false }),
        None => match find_arc(arcs, arc.reverse(), 0) {
            Some(i) => (arcs, ArcRef { arc: i as usize, rev: true }),
            None => (arcs.push(arc), ArcRef { arc: arcs.len() as usize, rev: false }),
        },
    }
}

/// Store the arcs of one ring in order.
pub open spec fn place_all(arcs: Seq<Seq<Pt>>, cuts: Seq<Seq<Pt>>) -> (
    Seq<Seq<Pt>>,
    Seq<ArcRef>,
)
    decreases cuts.len(),
{
    if cuts.len() == 0 {
        (arcs, Seq::empty())
    } else {
        let (before, refs) = place_all(arcs, cuts.drop_last());
        let (after, r) = place_arc(before, cuts.last());
        (after, refs.push(r))
    }
}

/// The arcs of the first `k` rings, and the references of each of them.
pub open spec fn topology_of(rings: Seq<Seq<Pt>>, k: int) -> (
    Seq<Seq<Pt>>,
    Seq<Seq<ArcRef>>,
)
    decreases k,
{
    if k <= 0 {
        (Seq::empty(), Seq::empty())
    } else {
        let (before, lists) = topology_of(rings, k - 1);
        let (after, refs) = place_all(before, cut(rings[k - 1], rings));
        (after, lists.push(refs))
    }
}

/// The vertices of a referenced arc in ring order.
pub open spec fn oriented(arcs: Seq<Seq<Pt>>, r: ArcRef) -> Seq<Pt> {
    if r.rev {
        arcs[r.arc as int].reverse()
    } else {
        arcs[r.arc as int]
    }
}

/// The referenced arcs one after the other, each joined to the one before.
pub open spec fn path_of(arcs: Seq<Seq<Pt>>, refs: Seq<ArcRef>) -> Seq<Pt>
    decreases refs.len(),
{
    if refs.len() == 0 {
        Seq::empty()
    } else if refs.len() == 1 {
        oriented(arcs, refs[0])
    } else {
        join(path_of(arcs, refs.drop_last()), oriented(arcs, refs.last()))
    }
}

/// The ring behind a list of references: the path without its closing vertex.
pub open spec fn ring_of(arcs: Seq<Seq<Pt>>, refs: Seq<ArcRef>) -> Seq<Pt> {
    let path = path_of(arcs, refs);
    if path.len() == 0 {
        path
    } else {
        path.drop_last()
    }
}

/// Every reference names an arc that has a vertex.
pub open spec fn refs_valid(arcs: Seq<Seq<Pt>>, refs: Seq<ArcRef>) -> bool {
    forall|k: int|
        0 <= k < refs.len() ==> (#[trigger] refs[k]).arc < arcs.len() && arcs[refs[k].arc as int].len()
            > 0
}

/// The `k`-th arc of the cycle ends where the next one starts.
pub open spec fn meets_next(arcs: Seq<Seq<Pt>>, refs: Seq<ArcRef>, k: int) -> bool {
    oriented(arcs, refs[k]).last() == oriented(arcs, refs[next_index(k, refs.len() as int)])[0]
}

/// Each arc starts where the one before it ends, and the last one ends where
/// the first one starts.
pub open spec fn chained(arcs: Seq<Seq<Pt>>, refs: Seq<ArcRef>) -> bool {
    &&& refs.len() > 0
    &&& forall|k: int|
        0 <= k < refs.len() ==> (#[trigger] refs[k]).arc < arcs.len() && arcs[refs[k].arc as int].len()
            >= 2
    &&& forall|k: int| 0 <= k < refs.len() ==> #[trigger] meets_next(arcs, refs, k)
}

/// No arc is stored twice, forwards or backwards.
pub open spec fn arcs_distinct(arcs: Seq<Seq<Pt>>) -> bool {
    forall|i: int, j: int|
        #![trigger arcs[i], arcs[j]]
        0 <= i < j < arcs.len() ==> arcs[i] != arcs[j] && arcs[i] != arcs[j].reverse()
}

pub proof fn lemma_find_arc(arcs: Seq<Seq<Pt>>, arc: Seq<Pt>, k: int)
    requires
        0 <= k <= arcs.len(),
    ensures
        match find_arc(arcs, arc, k) {
            Some(i) => k <= i < arcs.len() && arcs[i] == arc,
            None => forall|i: int| k <= i < arcs.len() ==> #[trigger] arcs[i] != arc,
        },
    decreases arcs.len() - k,
{
    if k < arcs.len() && arcs[k] != arc {
        lemma_find_arc(arcs, arc, k + 1);
    }
}

/// Storing an arc keeps the others and makes it available.
pub proof fn lemma_place_arc(arcs: Seq<Seq<Pt>>, arc: Seq<Pt>)
    requires
        place_arc(arcs, arc).0.len() <= usize::MAX,
    ensures
        ({
            let (after, r) = place_arc(arcs, arc);
            &&& arcs.len() <= after.len() <= arcs.len() + 1
            &&& after.take(arcs.len() as int) == arcs
            &&& r.arc < after.len()
            &&& oriented(after, r) == arc
            &&& arcs_distinct(arcs) ==> arcs_distinct(after)
        }),
{
    let (after, r) = place_arc(arcs, arc);
    lemma_find_arc(arcs, arc, 0);
    lemma_find_arc(arcs, arc.reverse(), 0);
    assert(arc.reverse().reverse() =~= arc);
    assert(after.take(arcs.len() as int) =~= arcs);
    if after.len() > arcs.len() && arcs_distinct(arcs) {
        assert forall|i: int, j: int|
            #![trigger after[i], after[j]]
            0 <= i < j < after.len() implies after[i] != after[j] && after[i]
            != after[j].reverse() by {
            assert(after[i] == arcs[i]);
            if j < arcs.len() {
                assert(after[j] == arcs[j]);
            }
        }
    }
}

/// Arcs stored later do not disturb references made earlier.
proof fn lemma_oriented_stable(arcs: Seq<Seq<Pt>>, after: Seq<Seq<Pt>>, r: ArcRef)
    requires
        r.arc < arcs.len(),
        arcs.len() <= after.len(),
        after.take(arcs.len() as int) == arcs,
    ensures
        oriented(after, r) == oriented(arcs, r),
{
    assert(after.take(arcs.len() as int)[r.arc as int] == after[r.arc as int]);
}

pub proof fn lemma_place_all(arcs: Seq<Seq<Pt>>, cuts: Seq<Seq<Pt>>)
    requires
        place_all(arcs, cuts).0.len() <= usize::MAX,
    ensures
        ({
            let (after, refs) = place_all(arcs, cuts);
            &&& arcs.len() <= after.len()
            &&& after.take(arcs.len() as int) == arcs
            &&& refs.len() == cuts.len()
            &&& forall|k: int|
                0 <= k < refs.len() ==> (#[trigger] refs[k]).arc < after.len() && oriented(
                    after,
                    refs[k],
                ) == cuts[k]
            &&& arcs_distinct(arcs) ==> arcs_distinct(after)
        }),
    decreases cuts.len(),
{
    if cuts.len() == 0 {
        assert(arcs.take(arcs.len() as int) =~= arcs);
    } else {
        let (before, refs) = place_all(arcs, cuts.drop_last());
        let (after, r) = place_arc(before, cuts.last());
        lemma_place_arc(before, cuts.last());
        lemma_place_all(arcs, cuts.drop_last());
        assert(after.take(arcs.len() as int) =~= before.take(arcs.len() as int)) by {
            assert forall|i: int| 0 <= i < arcs.len() implies after[i] == before[i] by {
                assert(after.take(before.len() as int)[i] == after[i]);
            }
        }
        let all = refs.push(r);
        assert forall|k: int| 0 <= k < all.len() implies (#[trigger] all[k]).arc < after.len()
            && oriented(after, all[k]) == cuts[k] by {
            if k < refs.len() {
                assert(refs[k].arc < before.len());
                lemma_oriented_stable(before, after, refs[k]);
            }
        }
    }
}

/// Storing more arcs only adds to the list.
proof fn lemma_place_all_len(arcs: Seq<Seq<Pt>>, cuts: Seq<Seq<Pt>>)
    ensures
        arcs.len() <= place_all(arcs, cuts).0.len(),
    decreases cuts.len(),
{
    if cuts.len() > 0 {
        lemma_place_all_len(arcs, cuts.drop_last());
    }
}

pub proof fn lemma_topology_of(rings: Seq<Seq<Pt>>, k: int)
    requires
        0 <= k <= rings.len(),
        topology_of(rings, k).0.len() <= usize::MAX,
    ensures
        ({
            let (arcs, lists) = topology_of(rings, k);
            &&& lists.len() == k
            &&& arcs_distinct(arcs)
            &&& forall|r: int, i: int|
                #![trigger lists[r][i]]
                0 <= r < k && 0 <= i < lists[r].len() ==> lists[r][i].arc < arcs.len()
                    && oriented(arcs, lists[r][i]) == cut(rings[r], rings)[i]
            &&& forall|r: int| 0 <= r < k ==> (#[trigger] lists[r]).len() == cut(rings[r], rings).len()
        }),
    decreases k,
{
    if k > 0 {
        let (before, lists) = topology_of(rings, k - 1);
        let (after, refs) = place_all(before, cut(rings[k - 1], rings));
        lemma_place_all_len(before, cut(rings[k - 1], rings));
        lemma_topology_of(rings, k - 1);
        lemma_place_all(before, cut(rings[k - 1], rings));
        let all = lists.push(refs);
        assert forall|r: int, i: int|
            #![trigger all[r][i]]
            0 <= r < k && 0 <= i < all[r].len() implies all[r][i].arc < after.len() && oriented(
            after,
            all[r][i],
        ) == cut(rings[r], rings)[i] by {
            if r < k - 1 {
                assert(all[r] == lists[r]);
                assert(lists[r][i].arc < before.len());
                lemma_oriented_stable(before, after, lists[r][i]);
            } else {
                assert(all[r] == refs);
                assert(refs[i].arc < after.len());
            }
        }
        assert forall|r: int| 0 <= r < k implies (#[trigger] all[r]).len() == cut(
            rings[r],
            rings,
        ).len() by {
            if r < k - 1 {
                assert(all[r] == lists[r]);
            }
        }
    }
}

/// The positions are in order, below `k`, and exactly those of junctions.
pub proof fn lemma_junction_positions(ring: Seq<Pt>, rings: Seq<Seq<Pt>>, k: int)
    requires
        0 <= k <= ring.len(),
    ensures
        ({
            let js = junction_positions(ring, rings, k);
            &&& js.len() <= k
            &&& forall|i: int| 0 <= i < js.len() ==> 0 <= #[trigger] js[i] < k
            &&& forall|i: int, j: int| 0 <= i < j < js.len() ==> #[trigger] js[i] < #[trigger] js[j]
        }),
    decreases k,
{
    if k > 0 {
        lemma_junction_positions(ring, rings, k - 1);
    }
}

/// Two stretches of a ring that follow each other.
proof fn lemma_arc_from_join(ring: Seq<Pt>, start: int, a: int, b: int)
    requires
        0 <= start < ring.len(),
        a >= 0,
        b >= 0,
        a + b <= ring.len(),
    ensures
        join(
            arc_from(ring, start, a),
            arc_from(ring, wrap(start + a, ring.len() as int), b),
        ) =~= arc_from(ring, start, a + b),
{
    let n = ring.len() as int;
    let whole = arc_from(ring, start, a + b);
    let first = arc_from(ring, start, a);
    let second = arc_from(ring, wrap(start + a, n), b);
    assert forall|i: int| 0 <= i < whole.len() implies whole[i] == join(first, second)[i] by {
        if i > a {
            assert(join(first, second)[i] == second[i - a]);
            // a full round trip ends where it started
            if a == n {
                assert(b == 0);
            } else {
                assert(wrap(wrap(start + a, n) + (i - a), n) == wrap(start + i, n)
                    || wrap(start + a, n) + (i - a) == n);
            }
        }
    }
}

/// The first `k` arcs of a ring lie end to end.
proof fn lemma_cut_prefix(
    arcs: Seq<Seq<Pt>>,
    refs: Seq<ArcRef>,
    ring: Seq<Pt>,
    rings: Seq<Seq<Pt>>,
    k: int,
)
    requires
        ring.len() > 0,
        refs.len() == cut(ring, rings).len(),
        forall|i: int| 0 <= i < refs.len() ==> oriented(arcs, #[trigger] refs[i]) == cut(ring, rings)[i],
        junction_positions(ring, rings, ring.len() as int).len() > 0,
        1 <= k <= refs.len(),
    ensures
        ({
            let js = junction_positions(ring, rings, ring.len() as int);
            let steps = if k < js.len() {
                js[k] - js[0]
            } else {
                ring.len() as int
            };
            path_of(arcs, refs.take(k)) == arc_from(ring, js[0], steps)
        }),
    decreases k,
{
    let n = ring.len() as int;
    let js = junction_positions(ring, rings, n);
    lemma_junction_positions(ring, rings, n);
    let last = oriented(arcs, refs[k - 1]);
    assert(last == cut(ring, rings)[k - 1]);
    if k == 1 {
        assert(refs.take(1)[0] == refs[0]);
    } else {
        lemma_cut_prefix(arcs, refs, ring, rings, k - 1);
        assert(refs.take(k).drop_last() =~= refs.take(k - 1));
        assert(refs.take(k).last() == refs[k - 1]);
        let a = js[k - 1] - js[0];
        let b = steps_between(js[k - 1], js[next_index(k - 1, js.len() as int)], n);
        assert(js[0] < js[k - 1]);
        assert(wrap(js[0] + a, n) == js[k - 1]);
        if k < js.len() {
            assert(js[0] < js[k] && js[k - 1] < js[k]);
        }
        lemma_arc_from_join(ring, js[0], a, b);
    }
}

/// The rotation at which a ring comes back: its first junction.
pub open spec fn first_junction(ring: Seq<Pt>, rings: Seq<Seq<Pt>>) -> int {
    let js = junction_positions(ring, rings, ring.len() as int);
    if js.len() == 0 {
        0
    } else {
        js[0]
    }
}

/// References whose arcs are those that a ring was cut into lead back to the
/// ring, starting at its first junction.
pub proof fn lemma_cut_gives_ring_back(
    arcs: Seq<Seq<Pt>>,
    refs: Seq<ArcRef>,
    ring: Seq<Pt>,
    rings: Seq<Seq<Pt>>,
)
    requires
        ring.len() > 0,
        refs.len() == cut(ring, rings).len(),
        forall|i: int|
            0 <= i < refs.len() ==> (#[trigger] refs[i]).arc < arcs.len() && oriented(arcs, refs[i])
                == cut(ring, rings)[i],
    ensures
        0 <= first_junction(ring, rings) < ring.len(),
        path_of(arcs, refs) == closed(rotated(ring, first_junction(ring, rings))),
        ring_of(arcs, refs) == rotated(ring, first_junction(ring, rings)),
        chained(arcs, refs),
{
    let n = ring.len() as int;
    let js = junction_positions(ring, rings, n);
    let f = first_junction(ring, rings);
    lemma_junction_positions(ring, rings, n);
    let cuts = cut(ring, rings);
    assert forall|k: int| 0 <= k < refs.len() implies (#[trigger] refs[k]).arc < arcs.len()
        && arcs[refs[k].arc as int].len() >= 2 by {
        assert(oriented(arcs, refs[k]) == cuts[k]);
        assert(cuts[k].len() >= 2);
    }
    if js.len() == 0 {
        assert(rotated(ring, 0) =~= ring);
        assert(refs.len() == 1);
        assert(oriented(arcs, refs[0]) == cuts[0]);
        assert(path_of(arcs, refs) == closed(ring));
    } else {
        lemma_cut_prefix(arcs, refs, ring, rings, refs.len() as int);
        assert(refs.take(refs.len() as int) =~= refs);
        assert(arc_from(ring, js[0], n) =~= closed(rotated(ring, js[0])));
        assert forall|k: int| 0 <= k < refs.len() implies oriented(arcs, #[trigger] refs[k]).last()
            == oriented(arcs, refs[next_index(k, refs.len() as int)])[0] by {
            let k2 = next_index(k, refs.len() as int);
            assert(oriented(arcs, refs[k2]) == cuts[k2]);
            assert(oriented(arcs, refs[k]) == cuts[k]);
            let b = steps_between(js[k], js[k2], n);
            if k + 1 < js.len() {
                assert(js[k] < js[k + 1]);
            } else {
                assert(js[0] <= js[k]);
            }
            assert(cuts[k].last() == ring[wrap(js[k] + b, n)]);
        }
    }
    assert(closed(rotated(ring, f)).drop_last() =~= rotated(ring, f));
}

/// A chained list of references closes: its path ends where it starts, and is
/// the closed form of its ring.
pub proof fn lemma_chained_path(arcs: Seq<Seq<Pt>>, refs: Seq<ArcRef>)
    requires
        chained(arcs, refs),
    ensures
        path_of(arcs, refs).len() >= 2,
        path_of(arcs, refs) == closed(ring_of(arcs, refs)),
        ring_of(arcs, refs).len() > 0,
{
    lemma_chained_prefix(arcs, refs, refs.len() as int);
    assert(refs.take(refs.len() as int) =~= refs);
    let path = path_of(arcs, refs);
    assert(meets_next(arcs, refs, refs.len() - 1));
    assert(path =~= closed(ring_of(arcs, refs)));
}

pub proof fn lemma_chained_prefix(arcs: Seq<Seq<Pt>>, refs: Seq<ArcRef>, k: int)
    requires
        chained(arcs, refs),
        1 <= k <= refs.len(),
    ensures
        path_of(arcs, refs.take(k)).len() >= 2,
        path_of(arcs, refs.take(k))[0] == oriented(arcs, refs[0])[0],
        path_of(arcs, refs.take(k)).last() == oriented(arcs, refs[k - 1]).last(),
    decreases k,
{
    assert(refs[k - 1].arc < arcs.len());
    if k == 1 {
        assert(refs.take(1)[0] == refs[0]);
    } else {
        lemma_chained_prefix(arcs, refs, k - 1);
        assert(refs.take(k).drop_last() =~= refs.take(k - 1));
        assert(refs.take(k).last() == refs[k - 1]);
    }
}

/// The arcs a ring is cut into are no more than its vertices (one if there is
/// no junction).
pub proof fn lemma_cut_len(ring: Seq<Pt>, rings: Seq<Seq<Pt>>)
    requires
        ring.len() > 0,
    ensures
        1 <= cut(ring, rings).len() <= ring.len(),
{
    lemma_junction_positions(ring, rings, ring.len() as int);
}

} // verus!
