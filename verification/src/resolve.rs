//! The reader's side: which zone holds a point, through the tree and by brute
//! force, and the check of one against the other.
use vstd::prelude::*;

use crate::annotate::{
    candidate, crossing_arcs, crossing_holes, crossing_runs, lemma_crossing_runs, lemma_runs_upto,
    localized, ring_indexable, ring_runs, runs_upto, zone_indexable,
};
use crate::arcs::{
    chained, deep, lemma_chained_path, lemma_chained_prefix, meets_next, oriented, path_of, ring_of,
};
use crate::artifact::{
    arena_view, cands_view, lemma_far_ring, runs_view, ArcRun, Cand, CandView, HoleView, NodeView,
    Output, RunsView, Zone,
};
use crate::cost::{
    edges_in, lemma_edges_in, lemma_holes_weight_prefix, lemma_ring_weight_prefix, ring_weight,
    zone_weight, WEIGHT_LIMIT,
};
use crate::geom::{boxes_overlap, polygon_relation, rings_contain_point, Aabb, Pt};
use crate::lookup::{
    cell_center, center_of, child_cell, crossings, in_cell, is_cell_at, law_midpoints_exact,
    law_quadrant_is_the_only_child, lemma_child_within, lemma_crossings_bound, lemma_next_index,
    quadrant_for_point, quadrant_of, run_crossings, runs_within, segment_crossings, split_cell,
    total_edges,
};
use crate::quant::{MAX_DEPTH, ROOT_CELL, X_MIN, Y_MIN};
use crate::segment::{in_box, meets_box};
use crate::subdivide::{
    accounts_for, child_placed, framed, ids_below, lemma_cell_is_box, lists, node_framed, Frame,
};
use crate::topology::{copy_points, copy_reversed, ArcRef};
use crate::winding::{
    closed, lemma_path_crossings_join, lemma_path_winding_bound, path_crossings_in, path_touches,
    ring_touches, theorem_localized_winding, winding,
};

verus! {

/// The crossings over the runs of the first `k` listed arcs.
pub open spec fn runs_total(
    runs: RunsView,
    refs: Seq<ArcRef>,
    arcs: Seq<Seq<Pt>>,
    c: Pt,
    q: Pt,
    k: int,
) -> Option<int>
    decreases k,
{
    if k <= 0 {
        Some(0)
    } else {
        match (
            runs_total(runs, refs, arcs, c, q, k - 1),
            crossings(c, q, oriented(arcs, refs[runs[k - 1].0 as int]), runs[k - 1].1),
        ) {
            (Some(t), Some(d)) => Some(t + d),
            _ => None,
        }
    }
}

/// The number of edges in the runs of the first `k` listed arcs.
pub open spec fn runs_edges(runs: RunsView, k: int) -> int
    decreases k,
{
    if k <= 0 {
        0
    } else {
        runs_edges(runs, k - 1) + total_edges(runs[k - 1].1)
    }
}

/// Every listed arc exists, its runs lie within it, and the edges can be
/// counted.
pub open spec fn runs_fit(runs: RunsView, refs: Seq<ArcRef>, arcs: Seq<Seq<Pt>>) -> bool {
    &&& forall|k: int|
        0 <= k < runs.len() ==> {
            &&& (#[trigger] runs[k]).0 < refs.len()
            &&& refs[runs[k].0 as int].arc < arcs.len()
            &&& runs_within(runs[k].1, arcs[refs[runs[k].0 as int].arc as int].len() as int)
            &&& total_edges(runs[k].1) >= 0
        }
    &&& runs_edges(runs, runs.len() as int) <= WEIGHT_LIMIT
}

/// The listed holes from `k` on leave the point in the zone.  Where the
/// localized test of a hole is degenerate the full test decides.
pub open spec fn holes_spare(
    h: Seq<HoleView>,
    zone: Zone,
    arcs: Seq<Seq<Pt>>,
    c: Pt,
    q: Pt,
    k: int,
) -> bool
    decreases h.len() - k,
{
    if k < 0 || k >= h.len() {
        true
    } else {
        match runs_total(
            h[k].e,
            zone.hole_refs@[h[k].i as int]@,
            arcs,
            c,
            q,
            h[k].e.len() as int,
        ) {
            None => zone.contains(q),
            Some(d) => h[k].w + d == 0 && holes_spare(h, zone, arcs, c, q, k + 1),
        }
    }
}

/// The localized test: the winding at the cell centre plus the crossings on the
/// way from the centre to the point.  Where it is degenerate the full test
/// decides.
pub open spec fn locally_contains(
    cand: CandView,
    zone: Zone,
    arcs: Seq<Seq<Pt>>,
    c: Pt,
    q: Pt,
) -> bool {
    match runs_total(cand.e, zone.outer_refs@, arcs, c, q, cand.e.len() as int) {
        None => zone.contains(q),
        Some(d) => cand.w + d != 0 && holes_spare(cand.h, zone, arcs, c, q, 0),
    }
}

/// The zone of smallest area among those listed, the first of equals.
pub open spec fn smallest(zones: Seq<Zone>, ids: Seq<usize>) -> Option<usize>
    decreases ids.len(),
{
    if ids.len() == 0 {
        None
    } else {
        match smallest(zones, ids.drop_last()) {
            None => Some(ids.last()),
            Some(b) => if zones[ids.last() as int].a < zones[b as int].a {
                Some(ids.last())
            } else {
                Some(b)
            },
        }
    }
}

/// The zones of the first `k` candidates that pass the localized test.
pub open spec fn passing(
    cands: Seq<CandView>,
    zones: Seq<Zone>,
    arcs: Seq<Seq<Pt>>,
    c: Pt,
    q: Pt,
    k: int,
) -> Seq<usize>
    decreases k,
{
    if k <= 0 {
        Seq::empty()
    } else {
        let before = passing(cands, zones, arcs, c, q, k - 1);
        if locally_contains(cands[k - 1], zones[cands[k - 1].z as int], arcs, c, q) {
            before.push(cands[k - 1].z)
        } else {
            before
        }
    }
}

/// Where the descent for a point ends: the leaf, its cell, and the zones
/// settled on the way.
pub open spec fn descent(
    arena: Seq<NodeView>,
    idx: int,
    cell: Aabb,
    settled: Seq<usize>,
    p: Pt,
) -> (int, Aabb, Seq<usize>)
    decreases arena.len() - idx,
{
    let now = settled + arena[idx].eref;
    match arena[idx].q {
        Some(ch) => {
            let qi = quadrant_of(cell, p);
            let next = ch[qi] as int;
            if 0 <= idx < next < arena.len() {
                descent(arena, next, child_cell(cell, qi), now, p)
            } else {
                (idx, cell, now)
            }
        },
        None => (idx, cell, now),
    }
}

/// The zones that a lookup finds: those settled on the way down, then the leaf
/// candidates that pass the localized test.
pub open spec fn found(
    arena: Seq<NodeView>,
    zones: Seq<Zone>,
    arcs: Seq<Seq<Pt>>,
    p: Pt,
) -> Seq<usize> {
    let (leaf, cell, settled) = descent(arena, 0, ROOT_CELL, Seq::empty(), p);
    let cands = arena[leaf].cands;
    settled + passing(cands, zones, arcs, center_of(cell), p, cands.len() as int)
}

/// What a lookup answers.
pub open spec fn resolved(
    arena: Seq<NodeView>,
    zones: Seq<Zone>,
    arcs: Seq<Seq<Pt>>,
    p: Pt,
) -> Option<usize> {
    smallest(zones, found(arena, zones, arcs, p))
}

/// The first `k` zones, those that hold the point.
pub open spec fn holding(zones: Seq<Zone>, p: Pt, k: int) -> Seq<usize>
    decreases k,
{
    if k <= 0 {
        Seq::empty()
    } else {
        let before = holding(zones, p, k - 1);
        if zones[k - 1].contains(p) {
            before.push((k - 1) as usize)
        } else {
            before
        }
    }
}

/// The smallest-area zone that holds the point.
pub open spec fn expected(zones: Seq<Zone>, p: Pt) -> Option<usize> {
    smallest(zones, holding(zones, p, zones.len() as int))
}

/// The zone's rings are what its arc references rebuild to.
pub open spec fn zone_rebuilt(zone: Zone, arcs: Seq<Seq<Pt>>) -> bool {
    &&& chained(arcs, zone.outer_refs@)
    &&& zone.outer@ == ring_of(arcs, zone.outer_refs@)
    &&& zone.hole_refs@.len() == zone.holes@.len()
    &&& forall|i: int|
        0 <= i < zone.holes@.len() ==> {
            &&& chained(arcs, (#[trigger] zone.hole_refs@[i])@)
            &&& zone.holes@[i]@ == ring_of(arcs, zone.hole_refs@[i]@)
        }
}

/// Every zone's rings are what its arcs rebuild to, and their edges can be
/// indexed and counted.
pub open spec fn zones_rebuilt(zones: Seq<Zone>, arcs: Seq<Seq<Pt>>) -> bool {
    forall|i: int|
        0 <= i < zones.len() ==> {
            &&& zone_rebuilt(#[trigger] zones[i], arcs)
            &&& zone_indexable(zones[i], arcs)
            &&& zone_weight(arcs, zones[i]) <= WEIGHT_LIMIT
        }
}

/// The boxes of every zone are those of its rings.
pub open spec fn zones_boxed(zones: Seq<Zone>) -> bool {
    forall|i: int| 0 <= i < zones.len() ==> (#[trigger] zones[i]).boxes_match()
}

impl Output {
    /// Every ring is what its arcs rebuild to, and its edges can be indexed and
    /// counted.
    pub open spec fn is_rebuilt(&self) -> bool {
        zones_rebuilt(self.zones@, deep(self.arcs@))
    }

    /// The artifact answers lookups.
    pub open spec fn is_readable(&self) -> bool {
        &&& self.well_formed()
        &&& self.root == 0
        &&& self.is_rebuilt()
        &&& self.is_annotated()
    }
}

/// Along the first edges of a path the runs in the cell have the crossings of
/// the edges that meet it.
proof fn lemma_runs_crossings(path: Seq<Pt>, cell: Aabb, c: Pt, q: Pt, k: int)
    requires
        0 <= k <= path.len() - 1,
        path.len() <= u32::MAX,
    ensures
        crossings(c, q, path, runs_upto(path, cell, k)) == path_crossings_in(
            cell,
            path.take(k + 1),
            c,
            q,
        ),
    decreases k,
{
    let longer = path.take(k + 1);
    if k > 0 {
        lemma_runs_crossings(path, cell, c, q, k - 1);
        lemma_runs_upto(path, cell, k - 1);
        let before = runs_upto(path, cell, k - 1);
        let runs = runs_upto(path, cell, k);
        assert(longer.drop_last() =~= path.take(k));
        assert(longer[longer.len() - 2] == path[k - 1]);
        assert(longer.last() == path[k]);
        if meets_box(cell, path[k - 1], path[k]) {
            lemma_next_index(k - 1, path.len() as int);
            if before.len() > 0 && before.last().1 + 1 == k - 1 {
                assert(runs.drop_last() =~= before.drop_last());
                assert(before[before.len() - 1].0 <= before[before.len() - 1].1);
                assert(runs.last() == (before.last().0, (k - 1) as u32));
            } else {
                assert(runs.drop_last() =~= before);
                assert(run_crossings(c, q, path, k - 1, k - 2) == Some(0int));
            }
        }
    }
}

proof fn lemma_arc_crossings(path: Seq<Pt>, cell: Aabb, c: Pt, q: Pt)
    requires
        0 < path.len() <= u32::MAX,
    ensures
        crossings(c, q, path, crossing_runs(path, cell)) == path_crossings_in(cell, path, c, q),
{
    lemma_runs_crossings(path, cell, c, q, path.len() - 1);
    assert(path.take(path.len() as int) =~= path);
}

/// Appending the runs of one more arc.
proof fn lemma_runs_push(
    before: RunsView,
    next: (u32, Seq<(u32, u32)>),
    refs: Seq<ArcRef>,
    arcs: Seq<Seq<Pt>>,
    c: Pt,
    q: Pt,
)
    ensures
        runs_edges(before.push(next), before.len() as int + 1) == runs_edges(before, before.len() as int)
            + total_edges(next.1),
        runs_total(before.push(next), refs, arcs, c, q, before.len() as int + 1) == match (
            runs_total(before, refs, arcs, c, q, before.len() as int),
            crossings(c, q, oriented(arcs, refs[next.0 as int]), next.1),
        ) {
            (Some(t), Some(d)) => Some(t + d),
            _ => None::<int>,
        },
{
    let after = before.push(next);
    lemma_runs_prefix(before, after, refs, arcs, c, q, before.len() as int);
    assert(after[before.len() as int] == next);
}

/// The runs of a list of arcs fit.
proof fn lemma_crossing_arcs_fit(
    refs: Seq<ArcRef>,
    arcs: Seq<Seq<Pt>>,
    cell: Aabb,
    k: int,
)
    requires
        chained(arcs, refs),
        ring_indexable(refs, arcs),
        0 <= k <= refs.len(),
    ensures
        ({
            let e = crossing_arcs(refs, arcs, cell, k);
            &&& forall|j: int|
                0 <= j < e.len() ==> {
                    &&& (#[trigger] e[j]).0 < refs.len()
                    &&& refs[e[j].0 as int].arc < arcs.len()
                    &&& runs_within(e[j].1, arcs[refs[e[j].0 as int].arc as int].len() as int)
                    &&& total_edges(e[j].1) >= 0
                }
            &&& 0 <= runs_edges(e, e.len() as int) <= ring_weight(arcs, refs.take(k))
        }),
    decreases k,
{
    if k > 0 {
        lemma_crossing_arcs_fit(refs, arcs, cell, k - 1);
        let before = crossing_arcs(refs, arcs, cell, k - 1);
        let path = oriented(arcs, refs[k - 1]);
        let runs = crossing_runs(path, cell);
        let longer = refs.take(k);
        assert(longer.drop_last() =~= refs.take(k - 1));
        assert(longer.last() == refs[k - 1]);
        assert(refs[k - 1].arc < arcs.len() && arcs[refs[k - 1].arc as int].len() >= 2);
        lemma_crossing_runs(path, cell);
        lemma_edges_in(path, cell);
        if runs.len() > 0 {
            lemma_runs_push(before, ((k - 1) as u32, runs), refs, arcs, [0, 0], [0, 0]);
        }
    }
}

/// The runs of a list of arcs have the crossings of the path that the arcs
/// form.
proof fn lemma_crossing_arcs_total(
    refs: Seq<ArcRef>,
    arcs: Seq<Seq<Pt>>,
    cell: Aabb,
    c: Pt,
    q: Pt,
    k: int,
)
    requires
        chained(arcs, refs),
        ring_indexable(refs, arcs),
        1 <= k <= refs.len(),
    ensures
        ({
            let e = crossing_arcs(refs, arcs, cell, k);
            runs_total(e, refs, arcs, c, q, e.len() as int) == path_crossings_in(
                cell,
                path_of(arcs, refs.take(k)),
                c,
                q,
            )
        }),
    decreases k,
{
    let before = crossing_arcs(refs, arcs, cell, k - 1);
    let path = oriented(arcs, refs[k - 1]);
    let runs = crossing_runs(path, cell);
    let shorter = refs.take(k - 1);
    let longer = refs.take(k);
    assert(longer.drop_last() =~= shorter);
    assert(longer.last() == refs[k - 1]);
    assert(refs[k - 1].arc < arcs.len() && arcs[refs[k - 1].arc as int].len() >= 2);
    lemma_arc_crossings(path, cell, c, q);
    if runs.len() == 0 {
        assert(crossings(c, q, path, runs) == Some(0int));
    } else {
        lemma_runs_push(before, ((k - 1) as u32, runs), refs, arcs, c, q);
    }
    if k == 1 {
        assert(before =~= Seq::empty());
        assert(longer =~= seq![refs[0]]);
        assert(path_of(arcs, longer) == path);
    } else {
        lemma_crossing_arcs_total(refs, arcs, cell, c, q, k - 1);
        lemma_chained_prefix(arcs, refs, k - 1);
        assert(meets_next(arcs, refs, k - 2));
        lemma_path_crossings_join(cell, path_of(arcs, shorter), path, c, q);
    }
}

proof fn lemma_runs_prefix(
    before: RunsView,
    after: RunsView,
    refs: Seq<ArcRef>,
    arcs: Seq<Seq<Pt>>,
    c: Pt,
    q: Pt,
    k: int,
)
    requires
        0 <= k <= before.len(),
        before.len() <= after.len(),
        forall|i: int| 0 <= i < before.len() ==> before[i] == after[i],
    ensures
        runs_total(before, refs, arcs, c, q, k) == runs_total(after, refs, arcs, c, q, k),
        runs_edges(before, k) == runs_edges(after, k),
    decreases k,
{
    if k > 0 {
        lemma_runs_prefix(before, after, refs, arcs, c, q, k - 1);
    }
}

/// The runs of a ring in a cell fit and have the crossings of the ring's edges
/// that meet the cell.
proof fn lemma_ring_runs(refs: Seq<ArcRef>, arcs: Seq<Seq<Pt>>, cell: Aabb, c: Pt, q: Pt)
    requires
        chained(arcs, refs),
        ring_indexable(refs, arcs),
        ring_weight(arcs, refs) <= WEIGHT_LIMIT,
    ensures
        runs_fit(ring_runs(refs, arcs, cell), refs, arcs),
        runs_total(
            ring_runs(refs, arcs, cell),
            refs,
            arcs,
            c,
            q,
            ring_runs(refs, arcs, cell).len() as int,
        ) == path_crossings_in(cell, closed(ring_of(arcs, refs)), c, q),
{
    lemma_crossing_arcs_fit(refs, arcs, cell, refs.len() as int);
    lemma_crossing_arcs_total(refs, arcs, cell, c, q, refs.len() as int);
    assert(refs.take(refs.len() as int) =~= refs);
    lemma_chained_path(arcs, refs);
}

/// A ring without runs in the cell does not touch it.
proof fn lemma_no_runs(refs: Seq<ArcRef>, arcs: Seq<Seq<Pt>>, cell: Aabb, k: int)
    requires
        chained(arcs, refs),
        ring_indexable(refs, arcs),
        1 <= k <= refs.len(),
        crossing_arcs(refs, arcs, cell, k).len() == 0,
    ensures
        edges_in(path_of(arcs, refs.take(k)), cell) == 0,
    decreases k,
{
    let path = oriented(arcs, refs[k - 1]);
    let shorter = refs.take(k - 1);
    let longer = refs.take(k);
    assert(longer.drop_last() =~= shorter);
    assert(longer.last() == refs[k - 1]);
    assert(refs[k - 1].arc < arcs.len() && arcs[refs[k - 1].arc as int].len() >= 2);
    assert(crossing_runs(path, cell).len() == 0);
    lemma_crossing_runs(path, cell);
    if k == 1 {
        assert(longer =~= seq![refs[0]]);
    } else {
        lemma_no_runs(refs, arcs, cell, k - 1);
        lemma_chained_prefix(arcs, refs, k - 1);
        assert(meets_next(arcs, refs, k - 2));
        lemma_edges_join(path_of(arcs, shorter), path, cell);
    }
}

proof fn lemma_edges_join(first: Seq<Pt>, second: Seq<Pt>, cell: Aabb)
    requires
        first.len() > 0,
        second.len() > 0,
        first.last() == second[0],
    ensures
        edges_in(crate::winding::join(first, second), cell) == edges_in(first, cell) + edges_in(
            second,
            cell,
        ),
    decreases second.len(),
{
    let joined = crate::winding::join(first, second);
    if second.len() == 1 {
        assert(joined =~= first);
    } else {
        lemma_edges_join(first, second.drop_last(), cell);
        assert(joined.drop_last() =~= crate::winding::join(first, second.drop_last()));
        assert(joined.last() == second.last());
        assert(joined[joined.len() - 2] == second[second.len() - 2]);
    }
}

proof fn lemma_no_edges(path: Seq<Pt>, cell: Aabb)
    requires
        edges_in(path, cell) == 0,
    ensures
        !path_touches(path, cell),
    decreases path.len(),
{
    if path.len() >= 2 {
        lemma_edges_in(path.drop_last(), cell);
        lemma_no_edges(path.drop_last(), cell);
        if path_touches(path, cell) {
            let i = choose|i: int|
                0 <= i < path.len() - 1 && meets_box(cell, #[trigger] path[i], path[i + 1]);
            if i < path.len() - 2 {
                let p = path.drop_last();
                assert(meets_box(cell, p[i], p[i + 1]));
            }
        }
    }
}

proof fn lemma_path_len(arcs: Seq<Seq<Pt>>, refs: Seq<ArcRef>)
    requires
        forall|k: int| 0 <= k < refs.len() ==> arcs[(#[trigger] refs[k]).arc as int].len() >= 2,
    ensures
        path_of(arcs, refs).len() <= ring_weight(arcs, refs),
    decreases refs.len(),
{
    if refs.len() == 1 {
        assert(ring_weight(arcs, refs.drop_last()) == 0);
        assert(refs.last() == refs[0]);
    } else if refs.len() > 1 {
        assert(arcs[refs[refs.len() - 1].arc as int].len() >= 2);
        lemma_path_len(arcs, refs.drop_last());
    }
}

/// The winding around a ring of countable length can be written down.
proof fn lemma_ring_winding_bound(arcs: Seq<Seq<Pt>>, refs: Seq<ArcRef>, p: Pt)
    requires
        chained(arcs, refs),
        ring_weight(arcs, refs) <= WEIGHT_LIMIT,
    ensures
        -WEIGHT_LIMIT <= winding(ring_of(arcs, refs), p) <= WEIGHT_LIMIT,
{
    lemma_chained_path(arcs, refs);
    lemma_path_len(arcs, refs);
    lemma_path_winding_bound(path_of(arcs, refs), p);
}

/// A hole's reference list weighs no more than the zone.
proof fn lemma_hole_weight(arcs: Seq<Seq<Pt>>, zone: Zone, i: int)
    requires
        0 <= i < zone.hole_refs@.len(),
    ensures
        ring_weight(arcs, zone.outer_refs@) <= zone_weight(arcs, zone),
        ring_weight(arcs, zone.hole_refs@[i]@) <= zone_weight(arcs, zone),
{
    lemma_holes_weight_prefix(arcs, zone, i, i + 1);
    lemma_holes_weight_prefix(arcs, zone, i + 1, zone.hole_refs@.len() as int);
    let refs = zone.outer_refs@;
    lemma_ring_weight_prefix(arcs, refs, refs.len() as int);
    assert(refs.take(refs.len() as int) =~= refs);
}

proof fn lemma_outer_weight(arcs: Seq<Seq<Pt>>, zone: Zone)
    ensures
        ring_weight(arcs, zone.outer_refs@) <= zone_weight(arcs, zone),
{
    lemma_holes_weight_prefix(arcs, zone, 0, zone.hole_refs@.len() as int);
}

/// The record of a hole is that of its crossings with the cell.
spec fn hole_recorded(h: HoleView, zone: Zone, arcs: Seq<Seq<Pt>>, cell: Aabb) -> bool {
    &&& h.i < zone.holes@.len()
    &&& h.w == winding(zone.holes@[h.i as int]@, center_of(cell)) as i64
    &&& h.e == ring_runs(zone.hole_refs@[h.i as int]@, arcs, cell)
}

/// Among the first `k` holes, those with edges in the cell are recorded.
proof fn lemma_crossing_holes(zone: Zone, arcs: Seq<Seq<Pt>>, cell: Aabb, k: int)
    requires
        0 <= k <= zone.holes@.len(),
        zone.holes@.len() <= usize::MAX,
    ensures
        ({
            let h = crossing_holes(zone, arcs, cell, k);
            &&& forall|j: int| 0 <= j < h.len() ==> hole_recorded(#[trigger] h[j], zone, arcs, cell)
            &&& forall|i: int|
                0 <= i < k && boxes_overlap(cell, #[trigger] zone.hole_aabbs@[i]) && ring_runs(
                    zone.hole_refs@[i]@,
                    arcs,
                    cell,
                ).len() > 0 ==> exists|j: int| 0 <= j < h.len() && (#[trigger] h[j]).i == i
        }),
    decreases k,
{
    if k > 0 {
        lemma_crossing_holes(zone, arcs, cell, k - 1);
        let before = crossing_holes(zone, arcs, cell, k - 1);
        let h = crossing_holes(zone, arcs, cell, k);
        assert forall|i: int|
            0 <= i < k && boxes_overlap(cell, #[trigger] zone.hole_aabbs@[i]) && ring_runs(
                zone.hole_refs@[i]@,
                arcs,
                cell,
            ).len() > 0 implies exists|j: int| 0 <= j < h.len() && (#[trigger] h[j]).i == i by {
            if i < k - 1 {
                let j = choose|j: int| 0 <= j < before.len() && (#[trigger] before[j]).i == i;
                assert(h[j].i == i);
            } else {
                assert(h[h.len() - 1].i == i);
            }
        }
    }
}

/// A hole whose edges do not meet the cell and that does not enclose it winds
/// around none of its points.
proof fn lemma_unrecorded_hole(zone: Zone, arcs: Seq<Seq<Pt>>, cell: Aabb, i: int, p: Pt)
    requires
        zone_rebuilt(zone, arcs),
        zone_indexable(zone, arcs),
        zone.boxes_match(),
        0 <= i < zone.holes@.len(),
        in_box(p, cell),
        !boxes_overlap(cell, zone.hole_aabbs@[i]) || ring_runs(
            zone.hole_refs@[i]@,
            arcs,
            cell,
        ).len() == 0,
        !(polygon_relation(cell, zone.holes@[i]@) is Contains),
    ensures
        winding(zone.holes@[i]@, p) == 0,
{
    let hole = zone.holes@[i]@;
    let refs = zone.hole_refs@[i]@;
    assert(crate::geom::is_aabb_of(zone.hole_aabbs@[i], hole));
    if !boxes_overlap(cell, zone.hole_aabbs@[i]) {
        lemma_far_ring(cell, zone.hole_aabbs@[i], hole, p);
    } else {
        assert(chained(arcs, refs));
        assert(ring_indexable(refs, arcs));
        lemma_no_runs(refs, arcs, cell, refs.len() as int);
        assert(refs.take(refs.len() as int) =~= refs);
        lemma_chained_path(arcs, refs);
        lemma_no_edges(path_of(arcs, refs), cell);
        assert(!ring_touches(hole, cell));
        crate::geom::law_classification_holds_throughout_box(cell, hole, p);
    }
}

/// The localized test of a recorded hole.
proof fn lemma_recorded_hole(
    h: HoleView,
    zone: Zone,
    arcs: Seq<Seq<Pt>>,
    cell: Aabb,
    q: Pt,
)
    requires
        zone_rebuilt(zone, arcs),
        zone_indexable(zone, arcs),
        zone_weight(arcs, zone) <= WEIGHT_LIMIT,
        hole_recorded(h, zone, arcs, cell),
        in_box(center_of(cell), cell),
        in_box(q, cell),
    ensures
        runs_fit(h.e, zone.hole_refs@[h.i as int]@, arcs),
        -WEIGHT_LIMIT <= h.w <= WEIGHT_LIMIT,
        runs_total(
            h.e,
            zone.hole_refs@[h.i as int]@,
            arcs,
            center_of(cell),
            q,
            h.e.len() as int,
        ) matches Some(d) ==> winding(zone.holes@[h.i as int]@, q) == h.w + d,
{
    let i = h.i as int;
    let refs = zone.hole_refs@[i]@;
    assert(chained(arcs, refs));
    assert(ring_indexable(refs, arcs));
    lemma_hole_weight(arcs, zone, i);
    lemma_ring_runs(refs, arcs, cell, center_of(cell), q);
    lemma_ring_winding_bound(arcs, refs, center_of(cell));
    let path = closed(zone.holes@[i]@);
    if path_crossings_in(cell, path, center_of(cell), q) is Some {
        theorem_localized_winding(cell, zone.holes@[i]@, center_of(cell), q);
    }
}

/// The localized test of the outer ring.
proof fn lemma_recorded_outer(
    z: usize,
    zone: Zone,
    arcs: Seq<Seq<Pt>>,
    cell: Aabb,
    q: Pt,
)
    requires
        zone_rebuilt(zone, arcs),
        zone_indexable(zone, arcs),
        zone_weight(arcs, zone) <= WEIGHT_LIMIT,
        in_box(center_of(cell), cell),
        in_box(q, cell),
    ensures
        ({
            let cand = candidate(z, zone, arcs, cell);
            &&& runs_fit(cand.e, zone.outer_refs@, arcs)
            &&& -WEIGHT_LIMIT <= cand.w <= WEIGHT_LIMIT
            &&& runs_total(
                cand.e,
                zone.outer_refs@,
                arcs,
                center_of(cell),
                q,
                cand.e.len() as int,
            ) matches Some(d) ==> winding(zone.outer@, q) == cand.w + d
        }),
{
    let refs = zone.outer_refs@;
    lemma_outer_weight(arcs, zone);
    lemma_ring_runs(refs, arcs, cell, center_of(cell), q);
    lemma_ring_winding_bound(arcs, refs, center_of(cell));
    if path_crossings_in(cell, closed(zone.outer@), center_of(cell), q) is Some {
        theorem_localized_winding(cell, zone.outer@, center_of(cell), q);
    }
}

proof fn lemma_holes_spare(
    h: Seq<HoleView>,
    zone: Zone,
    arcs: Seq<Seq<Pt>>,
    cell: Aabb,
    q: Pt,
    k: int,
)
    requires
        zone_rebuilt(zone, arcs),
        zone_indexable(zone, arcs),
        zone_weight(arcs, zone) <= WEIGHT_LIMIT,
        in_box(center_of(cell), cell),
        in_box(q, cell),
        0 <= k <= h.len(),
        forall|j: int| 0 <= j < h.len() ==> hole_recorded(#[trigger] h[j], zone, arcs, cell),
        winding(zone.outer@, q) != 0,
        forall|i: int|
            0 <= i < zone.holes@.len() && winding((#[trigger] zone.holes@[i])@, q) != 0
                ==> exists|j: int| k <= j < h.len() && (#[trigger] h[j]).i == i,
    ensures
        holes_spare(h, zone, arcs, center_of(cell), q, k) == zone.contains(q),
    decreases h.len() - k,
{
    if k < h.len() {
        lemma_recorded_hole(h[k], zone, arcs, cell, q);
        let i = h[k].i as int;
        match runs_total(
            h[k].e,
            zone.hole_refs@[i]@,
            arcs,
            center_of(cell),
            q,
            h[k].e.len() as int,
        ) {
            None => {},
            Some(d) => {
                if h[k].w + d == 0 {
                    assert forall|x: int|
                        0 <= x < zone.holes@.len() && winding((#[trigger] zone.holes@[x])@, q)
                            != 0 implies exists|j: int|
                        k + 1 <= j < h.len() && (#[trigger] h[j]).i == x by {
                        let j = choose|j: int| k <= j < h.len() && (#[trigger] h[j]).i == x;
                        assert(j != k);
                        assert(k + 1 <= j < h.len() && h[j].i == x);
                    }
                    lemma_holes_spare(h, zone, arcs, cell, q, k + 1);
                } else {
                    assert(winding(zone.holes@[i]@, q) != 0);
                }
            },
        }
    }
}

/// The localized test of a candidate decides whether the zone holds a point of
/// the cell.  (A hole that encloses the whole cell leaves no edge in it, so it
/// goes unrecorded: the test is right where no such hole meets a point inside
/// the outer ring.)
pub proof fn law_localized_test_is_exact(
    z: usize,
    zone: Zone,
    arcs: Seq<Seq<Pt>>,
    cell: Aabb,
    q: Pt,
)
    requires
        zone_rebuilt(zone, arcs),
        zone_indexable(zone, arcs),
        zone_weight(arcs, zone) <= WEIGHT_LIMIT,
        zone.boxes_match(),
        in_box(center_of(cell), cell),
        in_box(q, cell),
        no_hole_swallows(zone, cell, q),
    ensures
        locally_contains(candidate(z, zone, arcs, cell), zone, arcs, center_of(cell), q)
            == zone.contains(q),
{
    let cand = candidate(z, zone, arcs, cell);
    lemma_recorded_outer(z, zone, arcs, cell, q);
    if let Some(d) = runs_total(
        cand.e,
        zone.outer_refs@,
        arcs,
        center_of(cell),
        q,
        cand.e.len() as int,
    ) {
        if cand.w + d != 0 {
            lemma_hole_records(z, zone, arcs, cell, q);
            lemma_holes_spare(cand.h, zone, arcs, cell, q, 0);
        }
    }
}

/// Every hole that winds around the point is recorded.
proof fn lemma_hole_records(z: usize, zone: Zone, arcs: Seq<Seq<Pt>>, cell: Aabb, q: Pt)
    requires
        zone_rebuilt(zone, arcs),
        zone_indexable(zone, arcs),
        zone.boxes_match(),
        in_box(q, cell),
        forall|i: int|
            0 <= i < zone.holes@.len() ==> !(polygon_relation(cell, (#[trigger] zone.holes@[i])@) is Contains),
    ensures
        ({
            let h = candidate(z, zone, arcs, cell).h;
            &&& forall|j: int| 0 <= j < h.len() ==> hole_recorded(#[trigger] h[j], zone, arcs, cell)
            &&& forall|i: int|
                0 <= i < zone.holes@.len() && winding((#[trigger] zone.holes@[i])@, q) != 0
                    ==> exists|j: int| 0 <= j < h.len() && (#[trigger] h[j]).i == i
        }),
{
    let h = candidate(z, zone, arcs, cell).h;
    let n = zone.holes@.len() as int;
    assert(zone.holes.len() == n);
    lemma_crossing_holes(zone, arcs, cell, n);
    assert forall|i: int| 0 <= i < n && winding((#[trigger] zone.holes@[i])@, q) != 0 implies (exists|
        j: int,
    | 0 <= j < h.len() && (#[trigger] h[j]).i == i) by {
        assert(!(polygon_relation(cell, zone.holes@[i]@) is Contains));
        if !boxes_overlap(cell, zone.hole_aabbs@[i]) || ring_runs(
            zone.hole_refs@[i]@,
            arcs,
            cell,
        ).len() == 0 {
            lemma_unrecorded_hole(zone, arcs, cell, i, q);
        }
    }
}

/// No hole encloses the whole cell while the outer ring winds around the point.
pub open spec fn no_hole_swallows(zone: Zone, cell: Aabb, q: Pt) -> bool {
    winding(zone.outer@, q) != 0 ==> forall|i: int|
        0 <= i < zone.holes@.len() ==> !(polygon_relation(cell, (#[trigger] zone.holes@[i])@) is Contains)
}

/// The smallest of a list is in it, and none in it is smaller.
pub proof fn lemma_smallest(zones: Seq<Zone>, ids: Seq<usize>)
    ensures
        smallest(zones, ids) is None <==> ids.len() == 0,
        smallest(zones, ids) matches Some(b) ==> {
            &&& ids.contains(b)
            &&& forall|i: int|
                0 <= i < ids.len() ==> zones[b as int].a <= zones[(#[trigger] ids[i]) as int].a
        },
    decreases ids.len(),
{
    if ids.len() > 0 {
        let shorter = ids.drop_last();
        lemma_smallest(zones, shorter);
        let b = smallest(zones, ids)->0;
        match smallest(zones, shorter) {
            None => {
                assert(ids[ids.len() - 1] == b);
            },
            Some(c) => {
                let j = choose|j: int| 0 <= j < shorter.len() && shorter[j] == c;
                assert(ids[j] == c);
                assert(ids[ids.len() - 1] == ids.last());
                assert forall|i: int| 0 <= i < ids.len() implies zones[b as int].a <= zones[(
                #[trigger] ids[i]) as int].a by {
                    if i < shorter.len() {
                        assert(shorter[i] == ids[i]);
                    }
                }
            },
        }
    }
}

/// The descent ends in the leaf of the point's cell, with the zones settled
/// above it.
proof fn lemma_descent(
    arena: Seq<NodeView>,
    zones: Seq<Zone>,
    f: Frame,
    idx: int,
    settled: Seq<usize>,
    p: Pt,
)
    requires
        framed(arena, zones, f),
        0 <= idx < arena.len(),
        in_cell(p, f.cells[idx]),
        settled + arena[idx].eref == f.above[idx],
    ensures
        ({
            let (leaf, cell, above) = descent(arena, idx, f.cells[idx], settled, p);
            &&& idx <= leaf < arena.len()
            &&& arena[leaf].q is None
            &&& cell == f.cells[leaf]
            &&& above == f.above[leaf]
            &&& in_cell(p, cell)
        }),
    decreases arena.len() - idx,
{
    assert(node_framed(arena, zones, f, idx));
    if let Some(ch) = arena[idx].q {
        let cell = f.cells[idx];
        law_midpoints_exact(cell, f.depths[idx], 0);
        law_quadrant_is_the_only_child(cell, p, quadrant_of(cell, p));
        let qi = quadrant_of(cell, p);
        assert(child_placed(arena, f, idx, ch[qi] as int, qi));
        lemma_descent(arena, zones, f, ch[qi] as int, f.above[idx], p);
    }
}

proof fn lemma_passing(
    cands: Seq<CandView>,
    zones: Seq<Zone>,
    arcs: Seq<Seq<Pt>>,
    c: Pt,
    q: Pt,
    k: int,
    z: usize,
)
    requires
        0 <= k <= cands.len(),
    ensures
        passing(cands, zones, arcs, c, q, k).contains(z) <==> exists|i: int|
            0 <= i < k && (#[trigger] cands[i]).z == z && locally_contains(
                cands[i],
                zones[z as int],
                arcs,
                c,
                q,
            ),
    decreases k,
{
    if k > 0 {
        lemma_passing(cands, zones, arcs, c, q, k - 1, z);
        let before = passing(cands, zones, arcs, c, q, k - 1);
        let after = passing(cands, zones, arcs, c, q, k);
        let last = cands[k - 1];
        if before.contains(z) {
            let j = choose|j: int| 0 <= j < before.len() && before[j] == z;
            assert(after[j] == z);
        }
        if locally_contains(last, zones[last.z as int], arcs, c, q) {
            assert(after[after.len() - 1] == last.z);
            if after.contains(z) && z != last.z {
                let j = choose|j: int| 0 <= j < after.len() && after[j] == z;
                assert(before[j] == z);
            }
        }
        if exists|i: int|
            0 <= i < k && (#[trigger] cands[i]).z == z && locally_contains(
                cands[i],
                zones[z as int],
                arcs,
                c,
                q,
            ) {
            let i = choose|i: int|
                0 <= i < k && (#[trigger] cands[i]).z == z && locally_contains(
                    cands[i],
                    zones[z as int],
                    arcs,
                    c,
                    q,
                );
            if i < k - 1 {
                assert(before.contains(z));
            }
        }
    }
}

proof fn lemma_holding(zones: Seq<Zone>, p: Pt, k: int, z: usize)
    requires
        0 <= k <= zones.len(),
        zones.len() <= usize::MAX,
    ensures
        holding(zones, p, k).contains(z) <==> z < k && zones[z as int].contains(p),
    decreases k,
{
    if k > 0 {
        lemma_holding(zones, p, k - 1, z);
        let before = holding(zones, p, k - 1);
        let after = holding(zones, p, k);
        if before.contains(z) {
            let j = choose|j: int| 0 <= j < before.len() && before[j] == z;
            assert(after[j] == z);
        }
        if zones[k - 1].contains(p) {
            assert(after[after.len() - 1] == (k - 1) as usize);
            if after.contains(z) && z != k - 1 {
                let j = choose|j: int| 0 <= j < after.len() && after[j] == z;
                assert(before[j] == z);
            }
        }
    }
}

/// No candidate of the leaf that the point's descent ends in has a hole that
/// encloses the leaf's whole cell while its outer ring winds around the point.
pub open spec fn no_candidate_swallowed(
    arena: Seq<NodeView>,
    zones: Seq<Zone>,
    p: Pt,
) -> bool {
    let (leaf, cell, _) = descent(arena, 0, ROOT_CELL, Seq::empty(), p);
    forall|i: int|
        0 <= i < arena[leaf].cands.len() ==> no_hole_swallows(
            zones[(#[trigger] arena[leaf].cands[i]).z as int],
            cell,
            p,
        )
}

/// A lookup finds exactly the zones that hold the point.
#[verifier::spinoff_prover]
pub proof fn law_lookup_finds_the_zones_that_hold_the_point(
    arena: Seq<NodeView>,
    zones: Seq<Zone>,
    arcs: Seq<Seq<Pt>>,
    f: Frame,
    p: Pt,
    z: usize,
)
    requires
        framed(arena, zones, f),
        localized(arena, zones, arcs, f),
        zones_rebuilt(zones, arcs),
        zones_boxed(zones),
        in_cell(p, ROOT_CELL),
        no_candidate_swallowed(arena, zones, p),
    ensures
        found(arena, zones, arcs, p).contains(z) <==> z < zones.len() && zones[z as int].contains(p),
{
    let (leaf, cell, settled) = descent(arena, 0, ROOT_CELL, Seq::empty(), p);
    assert(Seq::<usize>::empty() + arena[0].eref =~= arena[0].eref);
    lemma_descent(arena, zones, f, 0, Seq::empty(), p);
    assert(node_framed(arena, zones, f, leaf));
    law_midpoints_exact(cell, f.depths[leaf], 0);
    lemma_child_within(cell, f.depths[leaf], 0, p);
    lemma_cell_is_box(cell, f.depths[leaf]);
    let cands = arena[leaf].cands;
    assert(accounts_for(zones, arena[leaf], f.above[leaf], p));
    assert forall|i: int| 0 <= i < cands.len() implies (#[trigger] cands[i]).z < zones.len()
        && cands[i] == candidate(cands[i].z, zones[cands[i].z as int], arcs, cell) by {
        assert(cands[i] == arena[leaf].cands[i]);
    }
    lemma_leaf_zones(arena[leaf], zones, arcs, cell, settled, p, z);
    lemma_concat_contains(
        settled,
        passing(cands, zones, arcs, center_of(cell), p, cands.len() as int),
        z,
    );
}

proof fn lemma_concat_contains(a: Seq<usize>, b: Seq<usize>, z: usize)
    ensures
        (a + b).contains(z) <==> a.contains(z) || b.contains(z),
{
    let all = a + b;
    if a.contains(z) {
        let j = choose|j: int| 0 <= j < a.len() && a[j] == z;
        assert(all[j] == z);
    }
    if b.contains(z) {
        let j = choose|j: int| 0 <= j < b.len() && b[j] == z;
        assert(all[a.len() + j] == z);
    }
    if all.contains(z) {
        let j = choose|j: int| 0 <= j < all.len() && all[j] == z;
        if j < a.len() {
            assert(a[j] == z);
        } else {
            assert(b[j - a.len()] == z);
        }
    }
}

/// In a leaf that accounts for the point, the settled zones and the candidates
/// that pass the localized test are the zones that hold the point.
proof fn lemma_leaf_zones(
    node: NodeView,
    zones: Seq<Zone>,
    arcs: Seq<Seq<Pt>>,
    cell: Aabb,
    above: Seq<usize>,
    p: Pt,
    z: usize,
)
    requires
        node.refz.len() == 0,
        accounts_for(zones, node, above, p),
        ids_below(above, zones.len() as int),
        forall|i: int|
            0 <= i < node.cands.len() ==> (#[trigger] node.cands[i]).z < zones.len()
                && node.cands[i] == candidate(
                node.cands[i].z,
                zones[node.cands[i].z as int],
                arcs,
                cell,
            ),
        zones_rebuilt(zones, arcs),
        zones_boxed(zones),
        in_box(center_of(cell), cell),
        in_box(p, cell),
        forall|i: int|
            0 <= i < node.cands.len() ==> no_hole_swallows(
                zones[(#[trigger] node.cands[i]).z as int],
                cell,
                p,
            ),
    ensures
        above.contains(z) || passing(
            node.cands,
            zones,
            arcs,
            center_of(cell),
            p,
            node.cands.len() as int,
        ).contains(z) <==> z < zones.len() && zones[z as int].contains(p),
{
    let cands = node.cands;
    let c = center_of(cell);
    lemma_passing(cands, zones, arcs, c, p, cands.len() as int, z);
    assert forall|i: int| 0 <= i < cands.len() && (#[trigger] cands[i]).z == z implies z
        < zones.len() && locally_contains(cands[i], zones[z as int], arcs, c, p)
        == zones[z as int].contains(p) by {
        law_localized_test_is_exact(z, zones[z as int], arcs, cell, p);
    }
    if above.contains(z) {
        let j = choose|j: int| 0 <= j < above.len() && above[j] == z;
        assert(above[j] < zones.len());
    }
    if z < zones.len() && zones[z as int].contains(p) && !above.contains(z) {
        assert(lists(node, z));
        let i = choose|i: int| 0 <= i < cands.len() && (#[trigger] cands[i]).z == z;
        assert(locally_contains(cands[i], zones[z as int], arcs, c, p));
    }
}

/// A lookup agrees with brute force: it finds a zone exactly when some zone
/// holds the point, and the zone it finds holds the point and is of the same,
/// smallest, area.
pub proof fn law_lookup_agrees_with_brute_force(
    arena: Seq<NodeView>,
    zones: Seq<Zone>,
    arcs: Seq<Seq<Pt>>,
    f: Frame,
    p: Pt,
)
    requires
        zones.len() <= usize::MAX,
        framed(arena, zones, f),
        localized(arena, zones, arcs, f),
        zones_rebuilt(zones, arcs),
        zones_boxed(zones),
        in_cell(p, ROOT_CELL),
        no_candidate_swallowed(arena, zones, p),
    ensures
        match (resolved(arena, zones, arcs, p), expected(zones, p)) {
            (None, None) => forall|z: int| 0 <= z < zones.len() ==> !(#[trigger] zones[z]).contains(p),
            (Some(a), Some(e)) => {
                &&& a < zones.len() && zones[a as int].contains(p)
                &&& e < zones.len() && zones[e as int].contains(p)
                &&& zones[a as int].a == zones[e as int].a
                &&& forall|z: int|
                    0 <= z < zones.len() && (#[trigger] zones[z]).contains(p) ==> zones[a as int].a
                        <= zones[z].a
            },
            _ => false,
        },
{
    let all = found(arena, zones, arcs, p);
    let brute = holding(zones, p, zones.len() as int);
    lemma_smallest(zones, all);
    lemma_smallest(zones, brute);
    assert forall|z: usize| #[trigger] all.contains(z) <==> z < zones.len() && zones[z as int].contains(
        p,
    ) by {
        law_lookup_finds_the_zones_that_hold_the_point(arena, zones, arcs, f, p, z);
    }
    assert forall|z: usize| #[trigger] brute.contains(z) <==> z < zones.len() && zones[z as int].contains(
        p,
    ) by {
        lemma_holding(zones, p, zones.len() as int, z);
    }
    assert forall|z: int| 0 <= z < zones.len() && (#[trigger] zones[z]).contains(p) implies all.contains(
        z as usize,
    ) && brute.contains(z as usize) by {}
    if all.len() > 0 {
        assert(all.contains(all[0]));
        assert(brute.contains(all[0]));
    }
    if brute.len() > 0 {
        assert(brute.contains(brute[0]));
        assert(all.contains(brute[0]));
    }
    if all.len() > 0 && brute.len() > 0 {
        let a = resolved(arena, zones, arcs, p)->0;
        let e = expected(zones, p)->0;
        assert(brute.contains(a));
        assert(all.contains(e));
        let i = choose|i: int| 0 <= i < brute.len() && brute[i] == a;
        let j = choose|j: int| 0 <= j < all.len() && all[j] == e;
        assert(zones[e as int].a <= zones[brute[i] as int].a);
        assert(zones[a as int].a <= zones[all[j] as int].a);
        assert forall|z: int| 0 <= z < zones.len() && (#[trigger] zones[z]).contains(p) implies zones[a as int].a
            <= zones[z].a by {
            assert(all.contains(z as usize));
            let k = choose|k: int| 0 <= k < all.len() && all[k] == z as usize;
            assert(zones[a as int].a <= zones[all[k] as int].a);
        }
    }
}

/// Sum of signed center-to-point ray crossings over a ring's localized arc runs
/// (decoding only those arcs), or `None` if any arc's test is degenerate.
pub fn arc_crossings(
    runs: &[ArcRun],
    refs: &[ArcRef],
    arcs: &[Vec<Pt>],
    center: Pt,
    point: Pt,
) -> (r: Option<i64>)
    requires
        runs_fit(runs_view(runs@), refs@, deep(arcs@)),
    ensures
        match runs_total(
            runs_view(runs@),
            refs@,
            deep(arcs@),
            center,
            point,
            runs@.len() as int,
        ) {
            Some(t) => r == Some(t as i64) && -WEIGHT_LIMIT <= t <= WEIGHT_LIMIT,
            None => r is None,
        },
{
    let ghost view = runs_view(runs@);
    let ghost model = deep(arcs@);
    let mut total: i64 = 0;
    let mut k: usize = 0;
    while k < runs.len()
        invariant
            0 <= k <= runs@.len(),
            view == runs_view(runs@),
            model == deep(arcs@),
            runs_fit(view, refs@, model),
            runs_total(view, refs@, model, center, point, k as int) == Some(total as int),
            -runs_edges(view, k as int) <= total <= runs_edges(view, k as int),
        decreases runs.len() - k,
    {
        proof {
            assert(view[k as int].0 < refs@.len());
            assert(view[k as int] == (runs@[k as int].a, runs@[k as int].runs@));
            lemma_runs_edges(view, refs@, model, k + 1, view.len() as int);
            lemma_runs_edges(view, refs@, model, k as int, view.len() as int);
        }
        let r = refs[runs[k].a as usize];
        let arc = if r.rev {
            copy_reversed(arcs[r.arc].as_slice())
        } else {
            copy_points(arcs[r.arc].as_slice())
        };
        proof {
            assert(arc@ == oriented(model, r));
            lemma_crossings_bound(center, point, arc@, runs@[k as int].runs@);
        }
        match segment_crossings(center, point, arc.as_slice(), runs[k].runs.as_slice()) {
            None => {
                proof {
                    lemma_runs_total_none(view, refs@, model, center, point, k + 1, view.len() as int);
                }
                return None;
            },
            Some(d) => {
                total += d;
            },
        }
        k += 1;
    }
    Some(total)
}

proof fn lemma_runs_edges(
    runs: RunsView,
    refs: Seq<ArcRef>,
    arcs: Seq<Seq<Pt>>,
    j: int,
    k: int,
)
    requires
        runs_fit(runs, refs, arcs),
        0 <= j <= k <= runs.len(),
    ensures
        0 <= runs_edges(runs, j) <= runs_edges(runs, k),
    decreases k,
{
    if k > 0 {
        assert(total_edges(runs[k - 1].1) >= 0);
        if j == k {
            lemma_runs_edges(runs, refs, arcs, j - 1, k - 1);
        } else {
            lemma_runs_edges(runs, refs, arcs, j, k - 1);
        }
    }
}

proof fn lemma_runs_total_none(
    runs: RunsView,
    refs: Seq<ArcRef>,
    arcs: Seq<Seq<Pt>>,
    c: Pt,
    q: Pt,
    j: int,
    k: int,
)
    requires
        0 < j <= k,
        runs_total(runs, refs, arcs, c, q, j) is None,
    ensures
        runs_total(runs, refs, arcs, c, q, k) is None,
    decreases k,
{
    if j < k {
        lemma_runs_total_none(runs, refs, arcs, c, q, j, k - 1);
    }
}

/// What the localized test of a candidate needs of its record.
pub open spec fn cand_fits(cand: CandView, zone: Zone, arcs: Seq<Seq<Pt>>) -> bool {
    &&& runs_fit(cand.e, zone.outer_refs@, arcs)
    &&& -WEIGHT_LIMIT <= cand.w <= WEIGHT_LIMIT
    &&& forall|j: int|
        0 <= j < cand.h.len() ==> {
            &&& (#[trigger] cand.h[j]).i < zone.hole_refs@.len()
            &&& -WEIGHT_LIMIT <= cand.h[j].w <= WEIGHT_LIMIT
            &&& runs_fit(cand.h[j].e, zone.hole_refs@[cand.h[j].i as int]@, arcs)
        }
}

proof fn lemma_cand_fits(z: usize, zone: Zone, arcs: Seq<Seq<Pt>>, cell: Aabb)
    requires
        zone_rebuilt(zone, arcs),
        zone_indexable(zone, arcs),
        zone_weight(arcs, zone) <= WEIGHT_LIMIT,
        in_box(center_of(cell), cell),
    ensures
        cand_fits(candidate(z, zone, arcs, cell), zone, arcs),
{
    let cand = candidate(z, zone, arcs, cell);
    let n = zone.holes@.len() as int;
    assert(zone.holes.len() == n);
    lemma_recorded_outer(z, zone, arcs, cell, center_of(cell));
    lemma_crossing_holes(zone, arcs, cell, n);
    assert forall|j: int| 0 <= j < cand.h.len() implies {
        &&& (#[trigger] cand.h[j]).i < zone.hole_refs@.len()
        &&& -WEIGHT_LIMIT <= cand.h[j].w <= WEIGHT_LIMIT
        &&& runs_fit(cand.h[j].e, zone.hole_refs@[cand.h[j].i as int]@, arcs)
    } by {
        assert(hole_recorded(cand.h[j], zone, arcs, cell));
        lemma_recorded_hole(cand.h[j], zone, arcs, cell, center_of(cell));
    }
}

/// Every candidate names a zone and fits it.
pub open spec fn cands_fit(cands: Seq<CandView>, zones: Seq<Zone>, arcs: Seq<Seq<Pt>>) -> bool {
    forall|i: int|
        0 <= i < cands.len() ==> (#[trigger] cands[i]).z < zones.len() && cand_fits(
            cands[i],
            zones[cands[i].z as int],
            arcs,
        )
}

/// The candidates of a leaf fit their zones.
proof fn lemma_leaf_fits(
    arena: Seq<NodeView>,
    zones: Seq<Zone>,
    arcs: Seq<Seq<Pt>>,
    f: Frame,
    leaf: int,
)
    requires
        framed(arena, zones, f),
        localized(arena, zones, arcs, f),
        zones_rebuilt(zones, arcs),
        0 <= leaf < arena.len(),
    ensures
        is_cell_at(f.cells[leaf], f.depths[leaf]),
        f.depths[leaf] <= MAX_DEPTH,
        cands_fit(arena[leaf].cands, zones, arcs),
{
    let cell = f.cells[leaf];
    assert(node_framed(arena, zones, f, leaf));
    law_midpoints_exact(cell, f.depths[leaf], 0);
    lemma_child_within(cell, f.depths[leaf], 0, [0, 0]);
    assert forall|i: int| 0 <= i < arena[leaf].cands.len() implies (
    #[trigger] arena[leaf].cands[i]).z < zones.len() && cand_fits(
        arena[leaf].cands[i],
        zones[arena[leaf].cands[i].z as int],
        arcs,
    ) by {
        let cand = arena[leaf].cands[i];
        assert(zone_rebuilt(zones[cand.z as int], arcs));
        lemma_cand_fits(cand.z, zones[cand.z as int], arcs, cell);
    }
}

/// Whether the listed holes leave the point in the zone.
fn holes_leave(
    h: &[crate::artifact::HoleCand],
    zone: &Zone,
    arcs: &[Vec<Pt>],
    center: Pt,
    point: Pt,
) -> (r: bool)
    requires
        forall|j: int|
            0 <= j < h@.len() ==> {
                &&& (#[trigger] h@[j]).i < zone.hole_refs@.len()
                &&& -WEIGHT_LIMIT <= h@[j].w <= WEIGHT_LIMIT
                &&& runs_fit(runs_view(h@[j].e@), zone.hole_refs@[h@[j].i as int]@, deep(arcs@))
            },
    ensures
        r == holes_spare(
            Seq::new(h@.len(), |i: int| h@[i]@),
            *zone,
            deep(arcs@),
            center,
            point,
            0,
        ),
{
    let ghost view = Seq::new(h@.len(), |i: int| h@[i]@);
    let mut k: usize = 0;
    while k < h.len()
        invariant
            0 <= k <= h@.len(),
            view == Seq::new(h@.len(), |i: int| h@[i]@),
            forall|j: int|
                0 <= j < h@.len() ==> {
                    &&& (#[trigger] h@[j]).i < zone.hole_refs@.len()
                    &&& -WEIGHT_LIMIT <= h@[j].w <= WEIGHT_LIMIT
                    &&& runs_fit(
                        runs_view(h@[j].e@),
                        zone.hole_refs@[h@[j].i as int]@,
                        deep(arcs@),
                    )
                },
            holes_spare(view, *zone, deep(arcs@), center, point, 0) == holes_spare(
                view,
                *zone,
                deep(arcs@),
                center,
                point,
                k as int,
            ),
        decreases h.len() - k,
    {
        proof {
            assert(view[k as int] == h@[k as int]@);
        }
        match arc_crossings(
            h[k].e.as_slice(),
            zone.hole_refs[h[k].i].as_slice(),
            arcs,
            center,
            point,
        ) {
            None => {
                return rings_contain_point(zone.outer.as_slice(), zone.holes.as_slice(), point);
            },
            Some(d) => {
                if h[k].w + d != 0 {
                    return false;
                }
            },
        }
        k += 1;
    }
    true
}

impl Output {
    /// Whether the candidate's zone holds the point, tested over the edges in
    /// the leaf's cell alone.  A degenerate test falls back to the full one.
    pub fn local_contains(&self, cand: &Cand, center: Pt, point: Pt) -> (r: bool)
        requires
            cand.z < self.zones@.len(),
            cand_fits(cand@, self.zones@[cand.z as int], deep(self.arcs@)),
        ensures
            r == locally_contains(
                cand@,
                self.zones@[cand.z as int],
                deep(self.arcs@),
                center,
                point,
            ),
    {
        let zone = &self.zones[cand.z];
        let arcs = self.arcs.as_slice();
        match arc_crossings(cand.e.as_slice(), zone.outer_refs.as_slice(), arcs, center, point) {
            None => rings_contain_point(zone.outer.as_slice(), zone.holes.as_slice(), point),
            Some(d) => {
                if cand.w + d == 0 {
                    return false;
                }
                proof {
                    assert forall|j: int| 0 <= j < cand.h@.len() implies {
                        &&& (#[trigger] cand.h@[j]).i < zone.hole_refs@.len()
                        &&& -WEIGHT_LIMIT <= cand.h@[j].w <= WEIGHT_LIMIT
                        &&& runs_fit(
                            runs_view(cand.h@[j].e@),
                            zone.hole_refs@[cand.h@[j].i as int]@,
                            deep(arcs@),
                        )
                    } by {
                        assert(cand@.h[j] == cand.h@[j]@);
                    }
                }
                holes_leave(cand.h.as_slice(), zone, arcs, center, point)
            },
        }
    }

    /// The better of the best so far and one more zone.
    fn better(&self, best: Option<usize>, z: usize) -> (r: Option<usize>)
        requires
            z < self.zones@.len(),
            best matches Some(b) ==> b < self.zones@.len(),
        ensures
            r == match best {
                None => Some(z),
                Some(b) => if self.zones@[z as int].a < self.zones@[b as int].a {
                    Some(z)
                } else {
                    Some(b)
                },
            },
    {
        match best {
            None => Some(z),
            Some(b) => if self.zones[z].a < self.zones[b].a {
                Some(z)
            } else {
                Some(b)
            },
        }
    }

    /// The best of the zones so far and all of `ids`.
    fn settle(
        &self,
        ids: &[usize],
        best: Option<usize>,
        Ghost(before): Ghost<Seq<usize>>,
    ) -> (r: Option<usize>)
        requires
            ids_below(ids@, self.zones@.len() as int),
            best == smallest(self.zones@, before),
            best matches Some(b) ==> b < self.zones@.len(),
        ensures
            r == smallest(self.zones@, before + ids@),
            r matches Some(b) ==> b < self.zones@.len(),
    {
        let mut best = best;
        let mut i: usize = 0;
        proof {
            assert(before + ids@.take(0) =~= before);
        }
        while i < ids.len()
            invariant
                0 <= i <= ids@.len(),
                ids_below(ids@, self.zones@.len() as int),
                best == smallest(self.zones@, before + ids@.take(i as int)),
                best matches Some(b) ==> b < self.zones@.len(),
            decreases ids.len() - i,
        {
            best = self.better(best, ids[i]);
            proof {
                let next = before + ids@.take(i + 1);
                assert(next.drop_last() =~= before + ids@.take(i as int));
                assert(next.last() == ids@[i as int]);
            }
            i += 1;
        }
        proof {
            assert(ids@.take(i as int) =~= ids@);
        }
        best
    }

    /// The best of the zones so far and the candidates that pass the localized
    /// test.
    fn test_candidates(
        &self,
        cands: &[Cand],
        center: Pt,
        point: Pt,
        best: Option<usize>,
        Ghost(before): Ghost<Seq<usize>>,
    ) -> (r: Option<usize>)
        requires
            cands_fit(cands_view(cands@), self.zones@, deep(self.arcs@)),
            best == smallest(self.zones@, before),
            best matches Some(b) ==> b < self.zones@.len(),
        ensures
            r == smallest(
                self.zones@,
                before + passing(
                    cands_view(cands@),
                    self.zones@,
                    deep(self.arcs@),
                    center,
                    point,
                    cands@.len() as int,
                ),
            ),
            r matches Some(b) ==> b < self.zones@.len(),
    {
        let ghost view = cands_view(cands@);
        let ghost arcs = deep(self.arcs@);
        let mut best = best;
        let mut k: usize = 0;
        proof {
            assert(before + passing(view, self.zones@, arcs, center, point, 0) =~= before);
        }
        while k < cands.len()
            invariant
                0 <= k <= cands@.len(),
                view == cands_view(cands@),
                arcs == deep(self.arcs@),
                cands_fit(view, self.zones@, arcs),
                best == smallest(
                    self.zones@,
                    before + passing(view, self.zones@, arcs, center, point, k as int),
                ),
                best matches Some(b) ==> b < self.zones@.len(),
            decreases cands.len() - k,
        {
            let ghost list = before + passing(view, self.zones@, arcs, center, point, k as int);
            proof {
                assert(view[k as int] == cands@[k as int]@);
                assert(view[k as int].z < self.zones@.len());
            }
            if self.local_contains(&cands[k], center, point) {
                best = self.better(best, cands[k].z);
                proof {
                    let next = before + passing(view, self.zones@, arcs, center, point, k + 1);
                    assert(next.drop_last() =~= list);
                    assert(next.last() == cands@[k as int].z);
                }
            }
            k += 1;
        }
        best
    }

    /// The smallest-area zone that the tree finds for the point (or `None`).
    pub fn resolve(&self, point: Pt) -> (r: Option<usize>)
        requires
            self.is_readable(),
            in_cell(point, ROOT_CELL),
        ensures
            r == resolved(arena_view(self.arena@), self.zones@, deep(self.arcs@), point),
            r matches Some(z) ==> z < self.zones@.len(),
    {
        let ghost arena = arena_view(self.arena@);
        let ghost arcs = deep(self.arcs@);
        let ghost f = choose|f: Frame|
            #![trigger framed(arena_view(self.arena@), self.zones@, f)]
            framed(arena_view(self.arena@), self.zones@, f) && localized(
                arena_view(self.arena@),
                self.zones@,
                deep(self.arcs@),
                f,
            );
        let ghost whole = descent(arena, 0, ROOT_CELL, Seq::empty(), point);
        let mut node = self.root;
        let mut cell = ROOT_CELL;
        let mut best: Option<usize> = None;
        let ghost mut settled = Seq::<usize>::empty();
        let mut at_leaf = false;
        proof {
            assert(Seq::<usize>::empty() + arena[0].eref =~= arena[0].eref);
        }
        while !at_leaf
            invariant
                arena == arena_view(self.arena@),
                framed(arena, self.zones@, f),
                node < arena.len(),
                cell == f.cells[node as int],
                in_cell(point, cell),
                best == smallest(self.zones@, settled),
                best matches Some(b) ==> b < self.zones@.len(),
                !at_leaf ==> settled + arena[node as int].eref == f.above[node as int],
                !at_leaf ==> descent(arena, node as int, cell, settled, point) == whole,
                at_leaf ==> arena[node as int].q is None,
                at_leaf ==> (node as int, cell, settled) == whole,
            decreases arena.len() - node, !at_leaf as int,
        {
            proof {
                assert(node_framed(arena, self.zones@, f, node as int));
                assert(arena[node as int] == self.arena@[node as int]@);
            }
            best = self.settle(self.arena[node].eref.as_slice(), best, Ghost(settled));
            proof {
                settled = settled + arena[node as int].eref;
            }
            match self.arena[node].q {
                Some(ch) => {
                    proof {
                        law_midpoints_exact(cell, f.depths[node as int], 0);
                        law_quadrant_is_the_only_child(cell, point, quadrant_of(cell, point));
                    }
                    let qi = quadrant_for_point(&cell, point);
                    proof {
                        assert(child_placed(arena, f, node as int, ch[qi as int] as int, qi as int));
                    }
                    cell = split_cell(&cell, qi);
                    node = ch[qi];
                },
                None => {
                    at_leaf = true;
                },
            }
        }
        proof {
            lemma_leaf_fits(arena, self.zones@, arcs, f, node as int);
            law_midpoints_exact(cell, f.depths[node as int], 0);
        }
        let center = cell_center(&cell);
        self.test_candidates(self.arena[node].cands.as_slice(), center, point, best, Ghost(settled))
    }

    /// Brute-force smallest-area zone containing the point (or `None`).
    pub fn brute(&self, point: Pt) -> (r: Option<usize>)
        ensures
            r == expected(self.zones@, point),
            r matches Some(z) ==> z < self.zones@.len(),
    {
        let mut best: Option<usize> = None;
        let mut k: usize = 0;
        while k < self.zones.len()
            invariant
                0 <= k <= self.zones@.len(),
                best == smallest(self.zones@, holding(self.zones@, point, k as int)),
                best matches Some(b) ==> b < self.zones@.len(),
            decreases self.zones.len() - k,
        {
            let ghost before = holding(self.zones@, point, k as int);
            if rings_contain_point(
                self.zones[k].outer.as_slice(),
                self.zones[k].holes.as_slice(),
                point,
            ) {
                best = self.better(best, k);
                proof {
                    assert(before.push(k).drop_last() =~= before);
                }
            }
            k += 1;
        }
        best
    }
}

/// The seed of the check's sample points.
pub const SAMPLE_SEED: u64 = 0x2545F4914F6CDD1D;

/// Small deterministic pseudo-random generator for the check's sample points.
pub struct Lcg {
    pub state: u64,
}

/// The state that follows another, modulo two to the power of 64.
pub open spec fn lcg_next(state: u64) -> u64 {
    ((state * 6364136223846793005 + 1442695040888963407) % 0x1_0000_0000_0000_0000) as u64
}

/// The state after `n` steps.
pub open spec fn lcg_after(state: u64, n: nat) -> u64
    decreases n,
{
    if n == 0 {
        state
    } else {
        lcg_next(lcg_after(state, (n - 1) as nat))
    }
}

impl Lcg {
    pub fn new(seed: u64) -> (r: Lcg)
        ensures
            r.state == seed,
    {
        Lcg { state: seed }
    }

    pub fn next(&mut self) -> (r: u64)
        ensures
            r == lcg_next(old(self).state),
            final(self).state == r,
    {
        let product = (self.state as u128 * 6364136223846793005u128) % 0x1_0000_0000_0000_0000u128;
        let sum = (product + 1442695040888963407u128) % 0x1_0000_0000_0000_0000u128;
        proof {
            let a = self.state * 6364136223846793005;
            vstd::arithmetic::div_mod::lemma_add_mod_noop(
                a,
                1442695040888963407,
                0x1_0000_0000_0000_0000,
            );
            assert(1442695040888963407int % 0x1_0000_0000_0000_0000 == 1442695040888963407);
        }
        self.state = sum as u64;
        self.state
    }
}

/// The `k`-th sample point of the check: the high bits of two successive states
/// spread over the root cell.
pub open spec fn sample_point(k: nat) -> Pt {
    let sx = lcg_after(SAMPLE_SEED, 2 * k + 1);
    let sy = lcg_after(SAMPLE_SEED, 2 * k + 2);
    [(X_MIN + sx / 0x1000_0000_0000) as i64, (Y_MIN + sy / 0x2000_0000_0000) as i64]
}

/// Both found nothing, or both found zones of the same area and timezone.
pub open spec fn answers_agree(
    zones: Seq<Zone>,
    expected: Option<usize>,
    actual: Option<usize>,
) -> bool {
    match (expected, actual) {
        (None, None) => true,
        (Some(e), Some(a)) => zones[a as int].a == zones[e as int].a && zones[a as int].tzid
            == zones[e as int].tzid,
        _ => false,
    }
}

/// On how many of the first `n` sample points the tree and brute force differ.
pub open spec fn disagreements(
    arena: Seq<NodeView>,
    zones: Seq<Zone>,
    arcs: Seq<Seq<Pt>>,
    n: nat,
) -> int
    decreases n,
{
    if n == 0 {
        0
    } else {
        let p = sample_point((n - 1) as nat);
        disagreements(arena, zones, arcs, (n - 1) as nat) + if answers_agree(
            zones,
            expected(zones, p),
            resolved(arena, zones, arcs, p),
        ) {
            0int
        } else {
            1
        }
    }
}

/// The sample points lie in the root cell.
pub proof fn lemma_sample_point(k: nat)
    ensures
        in_cell(sample_point(k), ROOT_CELL),
{
}

impl Lcg {
    /// The next sample point.
    pub fn next_point(&mut self) -> (r: Pt)
        ensures
            r == [
                (X_MIN + lcg_next(old(self).state) / 0x1000_0000_0000) as i64,
                (Y_MIN + lcg_next(lcg_next(old(self).state)) / 0x2000_0000_0000) as i64,
            ],
            final(self).state == lcg_next(lcg_next(old(self).state)),
    {
        let sx = self.next();
        let sy = self.next();
        let x = X_MIN + (sx / 0x1000_0000_0000) as i64;
        let y = Y_MIN + (sy / 0x2000_0000_0000) as i64;
        [x, y]
    }
}

impl Output {
    /// Whether the tree and brute force agree on a point.
    fn agrees_at(&self, point: Pt) -> (r: bool)
        requires
            self.is_readable(),
            in_cell(point, ROOT_CELL),
        ensures
            r == answers_agree(
                self.zones@,
                expected(self.zones@, point),
                resolved(arena_view(self.arena@), self.zones@, deep(self.arcs@), point),
            ),
    {
        let wanted = self.brute(point);
        let actual = self.resolve(point);
        match (wanted, actual) {
            (None, None) => true,
            (Some(e), Some(a)) => self.zones[a].a == self.zones[e].a && self.zones[a].tzid
                == self.zones[e].tzid,
            _ => false,
        }
    }

    /// Cross-check the tree against brute force over `samples` pseudo-random
    /// points.  Returns the number of disagreements.
    pub fn verify(&self, samples: usize) -> (r: usize)
        requires
            self.is_readable(),
        ensures
            r == disagreements(
                arena_view(self.arena@),
                self.zones@,
                deep(self.arcs@),
                samples as nat,
            ),
    {
        let mut failures: usize = 0;
        let mut rng = Lcg::new(SAMPLE_SEED);
        let mut k: usize = 0;
        while k < samples
            invariant
                self.is_readable(),
                0 <= k <= samples,
                failures <= k,
                rng.state == lcg_after(SAMPLE_SEED, 2 * k as nat),
                failures == disagreements(
                    arena_view(self.arena@),
                    self.zones@,
                    deep(self.arcs@),
                    k as nat,
                ),
            decreases samples - k,
        {
            let ghost before = rng.state;
            let point = rng.next_point();
            proof {
                assert(lcg_next(before) == lcg_after(SAMPLE_SEED, 2 * k as nat + 1));
                assert(lcg_next(lcg_next(before)) == lcg_after(SAMPLE_SEED, 2 * k as nat + 2));
                assert(point =~= sample_point(k as nat));
                lemma_sample_point(k as nat);
            }
            if !self.agrees_at(point) {
                failures += 1;
            }
            k += 1;
        }
        failures
    }
}

/// The check finds nothing wrong: where the tree is annotated for its zones, no
/// candidate is swallowed by a hole, and no two zones of equal area but
/// different timezones hold the same point, the tree and brute force agree.
pub proof fn law_check_passes(
    arena: Seq<NodeView>,
    zones: Seq<Zone>,
    arcs: Seq<Seq<Pt>>,
    f: Frame,
    n: nat,
)
    requires
        zones.len() <= usize::MAX,
        framed(arena, zones, f),
        localized(arena, zones, arcs, f),
        zones_rebuilt(zones, arcs),
        zones_boxed(zones),
        forall|k: nat| k < n ==> no_candidate_swallowed(arena, zones, #[trigger] sample_point(k)),
        forall|k: nat, i: int, j: int|
            #![trigger zones[i].contains(sample_point(k)), zones[j].contains(sample_point(k))]
            k < n && 0 <= i < zones.len() && 0 <= j < zones.len() && zones[i].contains(
                sample_point(k),
            ) && zones[j].contains(sample_point(k)) && zones[i].a == zones[j].a ==> zones[i].tzid
                == zones[j].tzid,
    ensures
        disagreements(arena, zones, arcs, n) == 0,
    decreases n,
{
    if n > 0 {
        let k = (n - 1) as nat;
        law_check_passes(arena, zones, arcs, f, k);
        lemma_sample_point(k);
        law_lookup_agrees_with_brute_force(arena, zones, arcs, f, sample_point(k));
    }
}

/// The answer among some zones is one of them, none of them is smaller, and of
/// those listed before it each is larger.  There is an answer where any is listed.
pub proof fn law_answer_is_the_first_of_the_smallest(zones: Seq<Zone>, ids: Seq<usize>)
    ensures
        smallest(zones, ids) is None <==> ids.len() == 0,
        smallest(zones, ids) matches Some(b) ==> exists|i: int| #[trigger]
            is_first_of_the_smallest(zones, ids, b, i),
    decreases ids.len(),
{
    if ids.len() > 0 {
        let shorter = ids.drop_last();
        law_answer_is_the_first_of_the_smallest(zones, shorter);
        let last = ids.len() - 1;
        let b = smallest(zones, ids)->0;
        if shorter.len() == 0 {
            assert(is_first_of_the_smallest(zones, ids, b, last));
        } else {
            let before = smallest(zones, shorter)->0;
            let i = choose|i: int| #[trigger]
                is_first_of_the_smallest(zones, shorter, before, i);
            assert forall|j: int| 0 <= j < shorter.len() implies #[trigger] ids[j] == shorter[j] by {}
            assert(zones[before as int].a <= zones[shorter[i] as int].a);
            if zones[ids.last() as int].a < zones[before as int].a {
                assert forall|j: int| 0 <= j < ids.len() implies {
                    &&& zones[b as int].a <= zones[#[trigger] ids[j] as int].a
                    &&& j < last ==> zones[b as int].a < zones[ids[j] as int].a
                } by {
                    if j < last {
                        assert(ids[j] == shorter[j]);
                        assert(zones[before as int].a <= zones[shorter[j] as int].a);
                    }
                }
                assert(is_first_of_the_smallest(zones, ids, b, last));
            } else {
                assert forall|j: int| 0 <= j < ids.len() implies {
                    &&& zones[b as int].a <= zones[#[trigger] ids[j] as int].a
                    &&& j < i ==> zones[b as int].a < zones[ids[j] as int].a
                } by {
                    if j < last {
                        assert(ids[j] == shorter[j]);
                        assert(zones[before as int].a <= zones[shorter[j] as int].a);
                    }
                }
                assert(ids[i] == shorter[i]);
                assert(is_first_of_the_smallest(zones, ids, b, i));
            }
        }
    }
}

/// The id stands at the position, no listed zone is smaller, and those before it
/// are larger.
pub open spec fn is_first_of_the_smallest(
    zones: Seq<Zone>,
    ids: Seq<usize>,
    b: usize,
    i: int,
) -> bool {
    &&& 0 <= i < ids.len()
    &&& ids[i] == b
    &&& forall|j: int|
        0 <= j < ids.len() ==> {
            &&& zones[b as int].a <= zones[#[trigger] ids[j] as int].a
            &&& j < i ==> zones[b as int].a < zones[ids[j] as int].a
        }
}

/// The zones that hold a point are listed in the order of their ids.
pub proof fn law_holding_zones_in_order(zones: Seq<Zone>, p: Pt, k: int)
    requires
        0 <= k <= zones.len(),
        zones.len() <= usize::MAX,
    ensures
        forall|z: usize| #[trigger]
            holding(zones, p, k).contains(z) <==> z < k && zones[z as int].contains(p),
        forall|i: int, j: int|
            0 <= i < j < holding(zones, p, k).len() ==> holding(zones, p, k)[i] < holding(
                zones,
                p,
                k,
            )[j],
    decreases k,
{
    if k > 0 {
        law_holding_zones_in_order(zones, p, k - 1);
        let before = holding(zones, p, k - 1);
        let all = holding(zones, p, k);
        assert forall|i: int| 0 <= i < before.len() implies (#[trigger] before[i]) < k - 1 by {
            assert(before.contains(before[i]));
        }
        assert forall|z: usize| #[trigger] all.contains(z) <==> z < k && zones[z as int].contains(
            p,
        ) by {
            if before.contains(z) {
                let i = choose|i: int| 0 <= i < before.len() && before[i] == z;
                assert(all[i] == z);
            }
            if zones[k - 1].contains(p) {
                assert(all[before.len() as int] == (k - 1) as usize);
            }
            if all.contains(z) && z != k - 1 {
                let i = choose|i: int| 0 <= i < all.len() && all[i] == z;
                assert(before[i] == z);
            }
        }
    }
}

/// Brute force answers with a zone that holds the point exactly where there is
/// one; no zone that holds the point is smaller, and none of the same size has a
/// lower id.
pub proof fn law_brute_force_answers(zones: Seq<Zone>, p: Pt)
    requires
        zones.len() <= usize::MAX,
    ensures
        expected(zones, p) is None <==> forall|z: int|
            0 <= z < zones.len() ==> !(#[trigger] zones[z]).contains(p),
        expected(zones, p) matches Some(b) ==> {
            &&& b < zones.len()
            &&& zones[b as int].contains(p)
            &&& forall|z: int|
                0 <= z < zones.len() && (#[trigger] zones[z]).contains(p) ==> {
                    &&& zones[b as int].a <= zones[z].a
                    &&& z < b ==> zones[b as int].a < zones[z].a
                }
        },
{
    let n = zones.len() as int;
    let ids = holding(zones, p, n);
    law_holding_zones_in_order(zones, p, n);
    law_answer_is_the_first_of_the_smallest(zones, ids);
    assert forall|z: int| 0 <= z < n && (#[trigger] zones[z]).contains(p) implies ids.contains(
        z as usize,
    ) by {
        assert(zones[(z as usize) as int] == zones[z]);
    }
    if ids.len() > 0 {
        let b = smallest(zones, ids)->0;
        let i = choose|i: int| #[trigger] is_first_of_the_smallest(zones, ids, b, i);
        assert(ids.contains(b));
        assert forall|z: int| 0 <= z < n && (#[trigger] zones[z]).contains(p) implies {
            &&& zones[b as int].a <= zones[z].a
            &&& z < b ==> zones[b as int].a < zones[z].a
        } by {
            let j = choose|j: int| 0 <= j < ids.len() && ids[j] == z as usize;
            assert(zones[b as int].a <= zones[ids[j] as int].a);
            if z < b && j >= i {
                assert(j != i);
                assert(ids[i] < ids[j]);
            }
        }
    } else {
        assert forall|z: int| 0 <= z < n implies !(#[trigger] zones[z]).contains(p) by {
            if zones[z].contains(p) {
                assert(ids.contains(z as usize));
            }
        }
    }
}

/// Two answers agree only where both are none, or both name zones of one timezone
/// and of one size; every answer agrees with itself, and agreeing goes both ways.
pub proof fn law_agreeing_answers(zones: Seq<Zone>, a: Option<usize>, b: Option<usize>)
    ensures
        answers_agree(zones, a, a),
        answers_agree(zones, a, b) == answers_agree(zones, b, a),
        answers_agree(zones, a, b) ==> (a is None <==> b is None),
        answers_agree(zones, a, b) && a is Some ==> zones[a->0 as int].tzid == zones[b->0 as int].tzid
            && zones[a->0 as int].a == zones[b->0 as int].a,
        a is Some && b is Some && zones[a->0 as int].tzid == zones[b->0 as int].tzid
            && zones[a->0 as int].a == zones[b->0 as int].a ==> answers_agree(zones, a, b),
{
}

/// The samples among the first `n` on which the tree and brute force differ.
pub open spec fn differing_samples(
    arena: Seq<NodeView>,
    zones: Seq<Zone>,
    arcs: Seq<Seq<Pt>>,
    n: nat,
) -> Set<int> {
    Set::new(
        |k: int|
            0 <= k < n && !answers_agree(
                zones,
                expected(zones, sample_point(k as nat)),
                resolved(arena, zones, arcs, sample_point(k as nat)),
            ),
    )
}

/// Each sample on which the tree and brute force differ counts once.
pub proof fn law_every_disagreement_counts(
    arena: Seq<NodeView>,
    zones: Seq<Zone>,
    arcs: Seq<Seq<Pt>>,
    n: nat,
)
    ensures
        differing_samples(arena, zones, arcs, n).finite(),
        disagreements(arena, zones, arcs, n) == differing_samples(arena, zones, arcs, n).len(),
    decreases n,
{
    let all = differing_samples(arena, zones, arcs, n);
    if n == 0 {
        assert(all =~= Set::empty());
    } else {
        let k = (n - 1) as nat;
        law_every_disagreement_counts(arena, zones, arcs, k);
        let before = differing_samples(arena, zones, arcs, k);
        let p = sample_point(k);
        if answers_agree(zones, expected(zones, p), resolved(arena, zones, arcs, p)) {
            assert(all =~= before);
        } else {
            assert(all =~= before.insert(k as int));
        }
    }
}

/// The generator is an affine map modulo two to the power of 64: its constant is
/// what it makes of zero, and states that differ by some amount become states that
/// differ by the multiple of that amount.
pub proof fn law_generator_is_affine(a: u64, b: u64)
    ensures
        (lcg_next(a) - lcg_next(b) - 6364136223846793005 * (a - b)) % 0x1_0000_0000_0000_0000 == 0,
        (lcg_next(a) - 6364136223846793005 * a - 1442695040888963407) % 0x1_0000_0000_0000_0000 == 0,
{
    let m: int = 0x1_0000_0000_0000_0000;
    let x = a * 6364136223846793005 + 1442695040888963407;
    let y = b * 6364136223846793005 + 1442695040888963407;
    assert(lcg_next(a) == x % m);
    assert(lcg_next(b) == y % m);
    let (p, q) = (x / m, y / m);
    assert(x == m * p + x % m);
    assert(y == m * q + y % m);
    assert(lcg_next(a) - lcg_next(b) - 6364136223846793005 * (a - b) == m * (q - p));
    assert(lcg_next(a) - 6364136223846793005 * a - 1442695040888963407 == m * (-p));
    assert((m * (q - p)) % m == 0);
    assert((m * (-p)) % m == 0);
}

/// A sample point takes the high bits of two states in a row: the root cell is as
/// wide as twenty bits reach and as high as nineteen, so that every point of it can
/// come, each for as many states.
pub proof fn law_samples_spread_over_the_root_cell(k: nat)
    ensures
        in_cell(sample_point(k), ROOT_CELL),
        ({
            let sx = lcg_after(SAMPLE_SEED, 2 * k + 1);
            let p = sample_point(k);
            &&& (p[0] - ROOT_CELL[0][0]) * 0x1000_0000_0000 <= sx < (p[0] - ROOT_CELL[0][0] + 1)
                * 0x1000_0000_0000
            &&& (p[1] - ROOT_CELL[0][1]) * 0x2000_0000_0000 <= lcg_next(sx) < (p[1]
                - ROOT_CELL[0][1] + 1) * 0x2000_0000_0000
        }),
        (ROOT_CELL[1][0] - ROOT_CELL[0][0]) * 0x1000_0000_0000 == 0x1_0000_0000_0000_0000,
        (ROOT_CELL[1][1] - ROOT_CELL[0][1]) * 0x2000_0000_0000 == 0x1_0000_0000_0000_0000,
        lcg_after(SAMPLE_SEED, 2 * (k + 1) + 1) == lcg_next(
            lcg_next(lcg_after(SAMPLE_SEED, 2 * k + 1)),
        ),
{
    reveal_with_fuel(lcg_after, 3);
    assert(lcg_after(SAMPLE_SEED, 2 * k + 2) == lcg_next(lcg_after(SAMPLE_SEED, 2 * k + 1)));
    assert(lcg_after(SAMPLE_SEED, 2 * k + 3) == lcg_next(lcg_after(SAMPLE_SEED, 2 * k + 2)));
}

/// The answer among two lists, one behind the other, is that among the first unless
/// the one among the second is smaller.
pub proof fn law_answers_combine(zones: Seq<Zone>, a: Seq<usize>, b: Seq<usize>)
    ensures
        smallest(zones, a + b) == (match (smallest(zones, a), smallest(zones, b)) {
            (Some(x), Some(y)) => if zones[y as int].a < zones[x as int].a {
                Some(y)
            } else {
                Some(x)
            },
            (Some(x), None) => Some(x),
            (None, y) => y,
        }),
    decreases b.len(),
{
    if b.len() == 0 {
        assert(a + b =~= a);
    } else {
        law_answers_combine(zones, a, b.drop_last());
        assert((a + b).drop_last() =~= a + b.drop_last());
        assert((a + b).last() == b.last());
    }
}

/// Of zones of one size a lookup answers with one settled on the way down before one
/// tested in the leaf.
pub proof fn law_settled_zones_win_ties(
    arena: Seq<NodeView>,
    zones: Seq<Zone>,
    arcs: Seq<Seq<Pt>>,
    p: Pt,
)
    ensures
        ({
            let (leaf, cell, settled) = descent(arena, 0, ROOT_CELL, Seq::empty(), p);
            let cands = arena[leaf].cands;
            let tested = passing(cands, zones, arcs, center_of(cell), p, cands.len() as int);
            smallest(zones, settled) matches Some(b) ==> {
                &&& (forall|i: int|
                    0 <= i < tested.len() ==> zones[b as int].a <= zones[(#[trigger] tested[
                    i]) as int].a) ==> resolved(arena, zones, arcs, p) == Some(b)
            }
        }),
{
    let (leaf, cell, settled) = descent(arena, 0, ROOT_CELL, Seq::empty(), p);
    let cands = arena[leaf].cands;
    let tested = passing(cands, zones, arcs, center_of(cell), p, cands.len() as int);
    law_answers_combine(zones, settled, tested);
    lemma_smallest(zones, tested);
    if let Some(y) = smallest(zones, tested) {
        let i = choose|i: int| 0 <= i < tested.len() && tested[i] == y;
        assert(tested[i] == y);
    }
}

/// The zones that pass in a leaf are those of its candidates that hold the point by
/// the localized test, in the order of the candidates.
pub proof fn law_passing_zones_in_order(
    cands: Seq<CandView>,
    zones: Seq<Zone>,
    arcs: Seq<Seq<Pt>>,
    c: Pt,
    q: Pt,
    k: int,
)
    requires
        0 <= k <= cands.len(),
    ensures
        passing(cands, zones, arcs, c, q, k) == cands.take(k).filter(
            |cand: CandView| locally_contains(cand, zones[cand.z as int], arcs, c, q),
        ).map_values(|cand: CandView| cand.z),
    decreases k,
{
    reveal(Seq::filter);
    let passes = |cand: CandView| locally_contains(cand, zones[cand.z as int], arcs, c, q);
    let id = |cand: CandView| cand.z;
    if k == 0 {
        assert(cands.take(0).filter(passes).map_values(id) =~= Seq::empty());
    } else {
        law_passing_zones_in_order(cands, zones, arcs, c, q, k - 1);
        let fewer = cands.take(k - 1);
        assert(cands.take(k).drop_last() =~= fewer);
        if passes(cands[k - 1]) {
            assert(cands.take(k).filter(passes) == fewer.filter(passes).push(cands[k - 1]));
            assert(cands.take(k).filter(passes).map_values(id) =~= fewer.filter(passes).map_values(
                id,
            ).push(cands[k - 1].z));
        } else {
            assert(cands.take(k).filter(passes) == fewer.filter(passes));
        }
    }
}

} // verus!
