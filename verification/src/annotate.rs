//! Leaf annotation: the ring edges that pass through each leaf cell, so that a
//! lookup tests only those.
use vstd::multiset::Multiset;
use vstd::prelude::*;

use crate::arcs::{deep, oriented};
use crate::artifact::{
    all_ids, arena_view, cands_view, empty_leaf, runs_view, ArcRun, Cand, CandView, HoleCand,
    HoleView, NodeView, Output, RunsView, Zone,
};
use crate::cost::{
    edges_in, leaf_cost, leaf_true_cost, list_exists, list_weight, reducible_cost, true_cost,
    WEIGHT_LIMIT,
};
use crate::geom::{aabbs_overlap, boxes_overlap, edge_touches_aabb, poly_winding, Aabb, Pt};
use crate::lookup::{
    cell_center, center_of, child_cell, in_cell, law_midpoints_exact, runs_within, split_cell,
    total_edges,
};
use crate::heap::{law_pop, law_push, popped, pushed, Entry};
use crate::quant::{MAX_DEPTH, ROOT_CELL};
use crate::segment::{is_box, meets_box};
use crate::subdivide::{
    accounts_for, child_entry, child_node, child_placed, count_over, entry_of, flat_frame,
    flat_state, framed, ids_below, is_index, lemma_cell_is_box, lemma_cost_fits, lemma_flat,
    lemma_step, lists, node_framed, run, stands_for, step, step_frame, stopped, subdivided,
    under_way, Frame, SubState, SubStats,
};
use crate::topology::{copy_points, copy_reversed, ArcRef};
use crate::winding::{path_touches, winding};

verus! {

/// The edges among the first `k` of the path that meet the cell, as maximal
/// runs of consecutive edges `(first, last)`.
pub open spec fn runs_upto(path: Seq<Pt>, cell: Aabb, k: int) -> Seq<(u32, u32)>
    decreases k,
{
    if k <= 0 {
        Seq::empty()
    } else {
        let before = runs_upto(path, cell, k - 1);
        if !meets_box(cell, path[k - 1], path[k]) {
            before
        } else if before.len() > 0 && before.last().1 + 1 == k - 1 {
            before.drop_last().push((before.last().0, (k - 1) as u32))
        } else {
            before.push(((k - 1) as u32, (k - 1) as u32))
        }
    }
}

/// The edges of an open path that meet the cell, as runs.
pub open spec fn crossing_runs(path: Seq<Pt>, cell: Aabb) -> Seq<(u32, u32)> {
    runs_upto(path, cell, path.len() - 1)
}

/// The first `k` arcs of a ring, those that cross the cell, each with its runs.
pub open spec fn crossing_arcs(
    refs: Seq<ArcRef>,
    arcs: Seq<Seq<Pt>>,
    cell: Aabb,
    k: int,
) -> RunsView
    decreases k,
{
    if k <= 0 {
        Seq::empty()
    } else {
        let before = crossing_arcs(refs, arcs, cell, k - 1);
        let runs = crossing_runs(oriented(arcs, refs[k - 1]), cell);
        if runs.len() == 0 {
            before
        } else {
            before.push(((k - 1) as u32, runs))
        }
    }
}

/// The arcs of a ring that cross the cell, each with its runs.
pub open spec fn ring_runs(refs: Seq<ArcRef>, arcs: Seq<Seq<Pt>>, cell: Aabb) -> RunsView {
    crossing_arcs(refs, arcs, cell, refs.len() as int)
}

/// The first `k` holes of a zone, those that cross the cell.
pub open spec fn crossing_holes(
    zone: Zone,
    arcs: Seq<Seq<Pt>>,
    cell: Aabb,
    k: int,
) -> Seq<HoleView>
    decreases k,
{
    if k <= 0 {
        Seq::empty()
    } else {
        let before = crossing_holes(zone, arcs, cell, k - 1);
        let e = ring_runs(zone.hole_refs@[k - 1]@, arcs, cell);
        if !boxes_overlap(cell, zone.hole_aabbs@[k - 1]) || e.len() == 0 {
            before
        } else {
            before.push(
                HoleView {
                    i: (k - 1) as usize,
                    w: winding(zone.holes@[k - 1]@, center_of(cell)) as i64,
                    e,
                },
            )
        }
    }
}

/// A zone as a candidate of a leaf: the winding is with respect to the full
/// rings, the edges are those in the cell.
pub open spec fn candidate(z: usize, zone: Zone, arcs: Seq<Seq<Pt>>, cell: Aabb) -> CandView {
    CandView {
        z,
        w: winding(zone.outer@, center_of(cell)) as i64,
        e: ring_runs(zone.outer_refs@, arcs, cell),
        h: crossing_holes(zone, arcs, cell, zone.holes@.len() as int),
    }
}

/// The candidates of a leaf.
pub open spec fn candidates(
    refz: Seq<usize>,
    zones: Seq<Zone>,
    arcs: Seq<Seq<Pt>>,
    cell: Aabb,
) -> Seq<CandView> {
    Seq::new(refz.len(), |i: int| candidate(refz[i], zones[refz[i] as int], arcs, cell))
}

/// A node once annotated: a leaf's candidate ids give way to its candidates.
pub open spec fn annotated_node(
    node: NodeView,
    zones: Seq<Zone>,
    arcs: Seq<Seq<Pt>>,
    cell: Aabb,
) -> NodeView {
    if node.q is Some {
        node
    } else {
        NodeView { refz: Seq::empty(), cands: candidates(node.refz, zones, arcs, cell), ..node }
    }
}

pub open spec fn annotated(
    arena: Seq<NodeView>,
    zones: Seq<Zone>,
    arcs: Seq<Seq<Pt>>,
    f: Frame,
) -> Seq<NodeView> {
    Seq::new(arena.len(), |k: int| annotated_node(arena[k], zones, arcs, f.cells[k]))
}

/// Every leaf's ids have given way to candidates, which are those of its cell.
pub open spec fn localized(
    arena: Seq<NodeView>,
    zones: Seq<Zone>,
    arcs: Seq<Seq<Pt>>,
    f: Frame,
) -> bool {
    &&& forall|k: int| 0 <= k < arena.len() ==> (#[trigger] arena[k]).refz.len() == 0
    &&& forall|k: int, i: int|
        #![trigger arena[k].cands[i]]
        0 <= k < arena.len() && 0 <= i < arena[k].cands.len() ==> {
            let cand = arena[k].cands[i];
            &&& cand.z < zones.len()
            &&& cand == candidate(cand.z, zones[cand.z as int], arcs, f.cells[k])
        }
}

/// Positions in the list and within the arcs fit in their fields.
pub open spec fn ring_indexable(refs: Seq<ArcRef>, arcs: Seq<Seq<Pt>>) -> bool {
    &&& refs.len() <= u32::MAX
    &&& forall|k: int|
        0 <= k < refs.len() ==> (#[trigger] refs[k]).arc < arcs.len() && arcs[refs[k].arc as int].len()
            <= u32::MAX
}

/// The zone has references and a box for each hole, and the positions in its
/// rings can be written down.
pub open spec fn zone_indexable(zone: Zone, arcs: Seq<Seq<Pt>>) -> bool {
    &&& ring_indexable(zone.outer_refs@, arcs)
    &&& zone.hole_refs@.len() == zone.holes@.len()
    &&& zone.hole_aabbs@.len() == zone.holes@.len()
    &&& forall|k: int|
        0 <= k < zone.hole_refs@.len() ==> ring_indexable((#[trigger] zone.hole_refs@[k])@, arcs)
}

/// Runs within the first `k` edges, in order and apart from each other.
pub proof fn lemma_runs_upto(path: Seq<Pt>, cell: Aabb, k: int)
    requires
        0 <= k <= path.len() - 1,
        path.len() <= u32::MAX,
    ensures
        ({
            let runs = runs_upto(path, cell, k);
            &&& forall|j: int|
                0 <= j < runs.len() ==> (#[trigger] runs[j]).0 <= runs[j].1 && runs[j].1 < k
            &&& total_edges(runs) == edges_in(path.take(k + 1), cell)
        }),
    decreases k,
{
    if k > 0 {
        lemma_runs_upto(path, cell, k - 1);
        let before = runs_upto(path, cell, k - 1);
        let runs = runs_upto(path, cell, k);
        let longer = path.take(k + 1);
        assert(longer.drop_last() =~= path.take(k));
        assert(longer[longer.len() - 2] == path[k - 1]);
        assert(longer.last() == path[k]);
        if meets_box(cell, path[k - 1], path[k]) {
            if before.len() > 0 && before.last().1 + 1 == k - 1 {
                assert(runs.drop_last() =~= before.drop_last());
                assert(before[before.len() - 1].0 <= before[before.len() - 1].1);
            } else {
                assert(runs.drop_last() =~= before);
            }
        }
    }
}

pub proof fn lemma_crossing_runs(path: Seq<Pt>, cell: Aabb)
    requires
        0 < path.len() <= u32::MAX,
    ensures
        runs_within(crossing_runs(path, cell), path.len() as int),
        total_edges(crossing_runs(path, cell)) == edges_in(path, cell),
{
    lemma_runs_upto(path, cell, path.len() - 1);
    assert(path.take(path.len() as int) =~= path);
}

/// The runs of one arc's edges, read in ring orientation, that cross the cell.
pub fn arc_edge_runs(arc: &[Pt], rev: bool, cell: &Aabb) -> (r: Vec<(u32, u32)>)
    requires
        is_box(*cell),
        arc@.len() <= u32::MAX,
    ensures
        r@ == crossing_runs(
            if rev {
                arc@.reverse()
            } else {
                arc@
            },
            *cell,
        ),
{
    let path = if rev {
        copy_reversed(arc)
    } else {
        copy_points(arc)
    };
    let mut runs: Vec<(u32, u32)> = Vec::new();
    if path.len() == 0 {
        return runs;
    }
    let mut i: usize = 0;
    while i < path.len() - 1
        invariant
            is_box(*cell),
            0 < path@.len() <= u32::MAX,
            0 <= i <= path@.len() - 1,
            runs@ == runs_upto(path@, *cell, i as int),
        decreases path.len() - i,
    {
        proof {
            lemma_runs_upto(path@, *cell, i as int);
        }
        if edge_touches_aabb(cell, path[i], path[i + 1]) {
            let iu = i as u32;
            let n = runs.len();
            if n > 0 && runs[n - 1].1 + 1 == iu {
                let first = runs[n - 1].0;
                let ghost before = runs@;
                runs.set(n - 1, (first, iu));
                proof {
                    assert(runs@ =~= before.drop_last().push((first, iu)));
                }
            } else {
                runs.push((iu, iu));
            }
        }
        i += 1;
    }
    runs
}

/// For a ring (its arc-ref list), the arcs that cross the cell, each with the
/// local edge runs, in ring orientation, that cross.  Only these arcs need
/// decoding.
pub fn arc_runs(refs: &[ArcRef], arcs: &[Vec<Pt>], cell: &Aabb) -> (r: Vec<ArcRun>)
    requires
        is_box(*cell),
        ring_indexable(refs@, deep(arcs@)),
    ensures
        runs_view(r@) == ring_runs(refs@, deep(arcs@), *cell),
{
    let mut out: Vec<ArcRun> = Vec::new();
    let mut k: usize = 0;
    proof {
        assert(runs_view(out@) =~= Seq::empty());
    }
    while k < refs.len()
        invariant
            is_box(*cell),
            ring_indexable(refs@, deep(arcs@)),
            0 <= k <= refs@.len(),
            runs_view(out@) == crossing_arcs(refs@, deep(arcs@), *cell, k as int),
        decreases refs.len() - k,
    {
        let r = refs[k];
        proof {
            assert(deep(arcs@)[r.arc as int] == arcs@[r.arc as int]@);
        }
        let runs = arc_edge_runs(arcs[r.arc].as_slice(), r.rev, cell);
        if runs.len() > 0 {
            let ghost before = out@;
            out.push(ArcRun { a: k as u32, runs });
            proof {
                assert(runs_view(out@) =~= runs_view(before).push((k as u32, runs@)));
            }
        }
        k += 1;
    }
    out
}

/// The candidate record of a zone in a leaf cell.
fn localize(z: usize, zone: &Zone, arcs: &[Vec<Pt>], cell: &Aabb, center: Pt) -> (r: Cand)
    requires
        is_box(*cell),
        center == center_of(*cell),
        zone_indexable(*zone, deep(arcs@)),
    ensures
        r@ == candidate(z, *zone, deep(arcs@), *cell),
{
    let e = arc_runs(zone.outer_refs.as_slice(), arcs, cell);
    let w = poly_winding(zone.outer.as_slice(), center);
    let mut h: Vec<HoleCand> = Vec::new();
    let mut k: usize = 0;
    let ghost seen = Seq::new(h@.len(), |i: int| h@[i]@);
    proof {
        assert(seen =~= Seq::empty());
    }
    while k < zone.holes.len()
        invariant
            is_box(*cell),
            center == center_of(*cell),
            zone_indexable(*zone, deep(arcs@)),
            0 <= k <= zone.holes@.len(),
            Seq::new(h@.len(), |i: int| h@[i]@) == crossing_holes(
                *zone,
                deep(arcs@),
                *cell,
                k as int,
            ),
        decreases zone.holes.len() - k,
    {
        if aabbs_overlap(cell, &zone.hole_aabbs[k]) {
            let he = arc_runs(zone.hole_refs[k].as_slice(), arcs, cell);
            proof {
                assert(runs_view(he@).len() == he@.len());
            }
            if he.len() > 0 {
                let hw = poly_winding(zone.holes[k].as_slice(), center);
                let ghost before = h@;
                let entry = HoleCand { i: k, w: hw, e: he };
                h.push(entry);
                proof {
                    assert(Seq::new(h@.len(), |i: int| h@[i]@) =~= Seq::new(
                        before.len(),
                        |i: int| before[i]@,
                    ).push(entry@));
                }
            }
        }
        k += 1;
    }
    Cand { z, w, e, h }
}

impl Output {
    /// The positions in all rings can be written down.
    pub open spec fn is_indexable(&self) -> bool {
        forall|i: int|
            0 <= i < self.zones@.len() ==> zone_indexable(#[trigger] self.zones@[i], deep(self.arcs@))
    }

    /// The cell and the depth of every node.
    pub fn layout(&self) -> (r: (Vec<Aabb>, Vec<usize>))
        requires
            is_index(arena_view(self.arena@), self.zones@),
        ensures
            forall|f: Frame| #[trigger]
                framed(arena_view(self.arena@), self.zones@, f) ==> {
                    &&& r.0@ == f.cells
                    &&& r.1@.len() == f.depths.len()
                    &&& forall|k: int| 0 <= k < r.1@.len() ==> #[trigger] r.1@[k] == f.depths[k]
                },
    {
        let n = self.arena.len();
        let mut cells: Vec<Aabb> = Vec::with_capacity(n);
        let mut depths: Vec<usize> = Vec::with_capacity(n);
        let ghost arena = arena_view(self.arena@);
        let mut k: usize = 0;
        while k < n
            invariant
                0 <= k <= n,
                cells@.len() == k,
                depths@.len() == k,
                forall|j: int| 0 <= j < k ==> #[trigger] cells@[j] == ROOT_CELL,
                forall|j: int| 0 <= j < k ==> #[trigger] depths@[j] == 0,
            decreases n - k,
        {
            cells.push(ROOT_CELL);
            depths.push(0);
            k += 1;
        }
        let mut idx: usize = 0;
        proof {
            assert forall|f: Frame| #[trigger] framed(arena, self.zones@, f) implies laid_out(
                arena,
                f,
                cells@,
                depths@,
                0,
            ) by {
                assert forall|j: int| 0 <= j < arena.len() && (j == 0 || f.parents[j].0 < 0) implies (
                #[trigger] cells@[j]) == f.cells[j] && depths@[j] == f.depths[j] by {
                    assert(node_framed(arena, self.zones@, f, j));
                }
            }
        }
        while idx < n
            invariant
                0 <= idx <= n,
                n == self.arena@.len(),
                arena == arena_view(self.arena@),
                cells@.len() == n,
                depths@.len() == n,
                is_index(arena, self.zones@),
                forall|f: Frame| #[trigger]
                    framed(arena, self.zones@, f) ==> laid_out(
                        arena,
                        f,
                        cells@,
                        depths@,
                        idx as int,
                    ),
            decreases n - idx,
        {
            let ghost g = choose|f: Frame| framed(arena, self.zones@, f);
            proof {
                assert(framed(arena, self.zones@, g));
                assert(node_framed(arena, self.zones@, g, idx as int));
                assert(laid_out(arena, g, cells@, depths@, idx as int));
                assert(cells@[idx as int] == g.cells[idx as int]);
                assert(arena[idx as int].q == self.arena@[idx as int].q);
            }
            let ghost before = (cells@, depths@);
            let cell = cells[idx];
            let depth = depths[idx];
            if let Some(ch) = self.arena[idx].q {
                proof {
                    law_midpoints_exact(cell, depth as nat, 0);
                }
                cells.set(ch[0], split_cell(&cell, 0));
                cells.set(ch[1], split_cell(&cell, 1));
                cells.set(ch[2], split_cell(&cell, 2));
                cells.set(ch[3], split_cell(&cell, 3));
                depths.set(ch[0], depth + 1);
                depths.set(ch[1], depth + 1);
                depths.set(ch[2], depth + 1);
                depths.set(ch[3], depth + 1);
            }
            proof {
                assert forall|f: Frame| #[trigger] framed(arena, self.zones@, f) implies laid_out(
                    arena,
                    f,
                    cells@,
                    depths@,
                    idx + 1,
                ) by {
                    lemma_layout_step(
                        arena,
                        self.zones@,
                        f,
                        before.0,
                        before.1,
                        cells@,
                        depths@,
                        idx as int,
                    );
                }
            }
            idx += 1;
        }
        proof {
            assert forall|f: Frame| #[trigger] framed(arena, self.zones@, f) implies {
                &&& cells@ == f.cells
                &&& depths@.len() == f.depths.len()
                &&& forall|k: int| 0 <= k < depths@.len() ==> #[trigger] depths@[k] == f.depths[k]
            } by {
                assert forall|j: int| 0 <= j < arena.len() implies (#[trigger] cells@[j])
                    == f.cells[j] && depths@[j] == f.depths[j] by {
                    assert(node_framed(arena, self.zones@, f, j));
                }
                assert(cells@ =~= f.cells);
                assert forall|k: int| 0 <= k < depths@.len() implies #[trigger] depths@[k]
                    == f.depths[k] by {
                    assert(cells@[k] == f.cells[k]);
                }
            }
        }
        (cells, depths)
    }
}

/// The places of the root and of all children of the first `k` nodes are known.
pub open spec fn laid_out(
    arena: Seq<NodeView>,
    f: Frame,
    cells: Seq<Aabb>,
    depths: Seq<usize>,
    k: int,
) -> bool {
    forall|j: int|
        0 <= j < arena.len() && (j == 0 || f.parents[j].0 < k) ==> (#[trigger] cells[j])
            == f.cells[j] && depths[j] == f.depths[j]
}

/// One value for each of four positions.
spec fn four_set<T>(s: Seq<T>, at: [usize; 4], a: T, b: T, c: T, d: T) -> Seq<T> {
    s.update(at[0] as int, a).update(at[1] as int, b).update(at[2] as int, c).update(
        at[3] as int,
        d,
    )
}

/// Placing the children of one more node.
#[verifier::spinoff_prover]
proof fn lemma_layout_step(
    arena: Seq<NodeView>,
    zones: Seq<Zone>,
    f: Frame,
    cells: Seq<Aabb>,
    depths: Seq<usize>,
    next_cells: Seq<Aabb>,
    next_depths: Seq<usize>,
    idx: int,
)
    requires
        framed(arena, zones, f),
        0 <= idx < arena.len(),
        cells.len() == arena.len(),
        depths.len() == arena.len(),
        laid_out(arena, f, cells, depths, idx),
        match arena[idx].q {
            None => next_cells == cells && next_depths == depths,
            Some(ch) => {
                let (cell, d) = (cells[idx], (depths[idx] + 1) as usize);
                &&& next_cells == four_set(
                    cells,
                    ch,
                    child_cell(cell, 0),
                    child_cell(cell, 1),
                    child_cell(cell, 2),
                    child_cell(cell, 3),
                )
                &&& next_depths == four_set(depths, ch, d, d, d, d)
            },
        },
    ensures
        laid_out(arena, f, next_cells, next_depths, idx + 1),
{
    assert(node_framed(arena, zones, f, idx));
    assert(cells[idx] == f.cells[idx] && depths[idx] == f.depths[idx]);
    assert(f.depths[idx] + 1 <= usize::MAX);
    assert forall|j: int|
        0 <= j < arena.len() && (j == 0 || f.parents[j].0 < idx + 1) implies next_cells[j]
        == f.cells[j] && next_depths[j] == f.depths[j] by {
        assert(node_framed(arena, zones, f, j));
        if let Some(ch) = arena[idx].q {
            assert(child_placed(arena, f, idx, ch[0] as int, 0));
            assert(child_placed(arena, f, idx, ch[1] as int, 1));
            assert(child_placed(arena, f, idx, ch[2] as int, 2));
            assert(child_placed(arena, f, idx, ch[3] as int, 3));
            if j != ch[0] && j != ch[1] && j != ch[2] && j != ch[3] {
                assert(next_cells[j] == cells[j] && next_depths[j] == depths[j]);
                if j > 0 {
                    let (up, i) = f.parents[j];
                    if up == idx {
                        assert(i == 0 || i == 1 || i == 2 || i == 3);
                        assert(ch[i] == j);
                    }
                }
            }
        } else if j > 0 {
            assert(f.parents[j].0 != idx);
        }
        assert(next_cells[j] == f.cells[j]);
        assert(next_depths[j] == f.depths[j]);
    }
    assert(laid_out(arena, f, next_cells, next_depths, idx + 1));
}

/// Annotation keeps the tree accounting for every point: what was listed by id
/// is listed as a candidate.
pub proof fn lemma_annotated_framed(
    arena: Seq<NodeView>,
    zones: Seq<Zone>,
    arcs: Seq<Seq<Pt>>,
    f: Frame,
)
    requires
        framed(arena, zones, f),
        forall|k: int| 0 <= k < arena.len() ==> (#[trigger] arena[k]).cands.len() == 0,
    ensures
        framed(annotated(arena, zones, arcs, f), zones, f),
        localized(annotated(arena, zones, arcs, f), zones, arcs, f),
{
    let after = annotated(arena, zones, arcs, f);
    assert forall|k: int| 0 <= k < after.len() implies #[trigger] node_framed(after, zones, f, k) by {
        assert(node_framed(arena, zones, f, k));
        assert(after[k] == annotated_node(arena[k], zones, arcs, f.cells[k]));
        if k > 0 {
            let up = f.parents[k].0;
            assert(after[up].q == arena[up].q);
        }
        match arena[k].q {
            Some(ch) => {
                assert(after[ch[0] as int].eref == arena[ch[0] as int].eref);
                assert(after[ch[1] as int].eref == arena[ch[1] as int].eref);
                assert(after[ch[2] as int].eref == arena[ch[2] as int].eref);
                assert(after[ch[3] as int].eref == arena[ch[3] as int].eref);
            },
            None => {
                assert forall|p: Pt| #[trigger] in_cell(p, f.cells[k]) implies accounts_for(
                    zones,
                    after[k],
                    f.above[k],
                    p,
                ) by {
                    assert(accounts_for(zones, arena[k], f.above[k], p));
                    assert forall|z: usize| #[trigger] lists(arena[k], z) implies lists(
                        after[k],
                        z,
                    ) by {
                        let i = choose|i: int|
                            0 <= i < arena[k].refz.len() && arena[k].refz[i] == z;
                        assert(after[k].cands[i].z == z);
                    }
                    assert forall|z: usize|
                        #![trigger f.above[k].contains(z)]
                        #![trigger lists(after[k], z)]
                        z < zones.len() implies {
                        &&& f.above[k].contains(z) ==> zones[z as int].contains(p)
                        &&& zones[z as int].contains(p) ==> f.above[k].contains(z) || lists(
                            after[k],
                            z,
                        )
                    } by {
                        assert(f.above[k].contains(z) || lists(arena[k], z) || !zones[z as int].contains(
                            p,
                        ));
                    }
                }
            },
        }
    }
    assert(node_framed(arena, zones, f, 0));
    assert forall|k: int, i: int|
        #![trigger after[k].cands[i]]
        0 <= k < after.len() && 0 <= i < after[k].cands.len() implies {
        let cand = after[k].cands[i];
        &&& cand.z < zones.len()
        &&& cand == candidate(cand.z, zones[cand.z as int], arcs, f.cells[k])
    } by {
        assert(node_framed(arena, zones, f, k));
        assert(arena[k].cands.len() == 0);
        assert(arena[k].refz[i] < zones.len());
    }
    assert forall|k: int| 0 <= k < after.len() implies (#[trigger] after[k]).refz.len() == 0 by {
        assert(node_framed(arena, zones, f, k));
    }
}

impl Output {
    /// The tree is annotated for its zones.
    pub open spec fn is_annotated(&self) -> bool {
        exists|f: Frame|
            #![trigger framed(arena_view(self.arena@), self.zones@, f)]
            framed(arena_view(self.arena@), self.zones@, f) && localized(
                arena_view(self.arena@),
                self.zones@,
                deep(self.arcs@),
                f,
            )
    }

    /// Attach per-leaf edge subsets so lookups test only the ring edges that
    /// pass through each leaf cell.
    pub fn annotate(&mut self)
        requires
            old(self).well_formed(),
            is_index(arena_view(old(self).arena@), old(self).zones@),
            old(self).is_indexable(),
        ensures
            final(self).root == old(self).root,
            final(self).zones == old(self).zones,
            final(self).tz == old(self).tz,
            final(self).arcs == old(self).arcs,
            final(self).arc_packed == old(self).arc_packed,
            forall|f: Frame| #[trigger]
                framed(arena_view(old(self).arena@), old(self).zones@, f) ==> arena_view(
                    final(self).arena@,
                ) == annotated(
                    arena_view(old(self).arena@),
                    old(self).zones@,
                    deep(old(self).arcs@),
                    f,
                ),
            (forall|k: int|
                0 <= k < old(self).arena@.len() ==> (#[trigger] old(self).arena@[k]).cands@.len() == 0)
                ==> final(self).is_annotated(),
            final(self).well_formed(),
    {
        let (cells, _) = self.layout();
        let ghost f = choose|f: Frame| framed(arena_view(self.arena@), self.zones@, f);
        let ghost start = self.arena@;
        let ghost arcs = deep(self.arcs@);
        let n = self.arena.len();
        let mut k: usize = 0;
        while k < n
            invariant
                0 <= k <= n,
                n == self.arena@.len(),
                n == start.len(),
                start == old(self).arena@,
                self.well_formed(),
                self.is_indexable(),
                self.root == old(self).root,
                self.zones == old(self).zones,
                self.tz == old(self).tz,
                self.arcs == old(self).arcs,
                self.arc_packed == old(self).arc_packed,
                arcs == deep(self.arcs@),
                framed(arena_view(start), self.zones@, f),
                cells@ == f.cells,
                forall|j: int| k <= j < n ==> #[trigger] self.arena@[j] == start[j],
                forall|j: int|
                    0 <= j < k ==> (#[trigger] self.arena@[j])@ == annotated_node(
                        start[j]@,
                        self.zones@,
                        arcs,
                        f.cells[j],
                    ),
            decreases n - k,
        {
            let ghost before = self.arena@;
            proof {
                assert(self.arena@[k as int] == start[k as int]);
                assert(node_framed(arena_view(start), self.zones@, f, k as int));
                assert(arena_view(start)[k as int] == start[k as int]@);
            }
            if self.arena[k].q.is_none() {
                let cell = cells[k];
                proof {
                    law_midpoints_exact(cell, f.depths[k as int], 0);
                    lemma_cell_is_box(cell, f.depths[k as int]);
                }
                let mut refz: Vec<usize> = Vec::new();
                std::mem::swap(&mut refz, &mut self.arena[k].refz);
                let center = cell_center(&cell);
                let cands = localize_all(
                    refz.as_slice(),
                    self.zones.as_slice(),
                    self.arcs.as_slice(),
                    &cell,
                    center,
                );
                self.arena[k].cands = cands;
                proof {
                    assert(self.arena@[k as int]@ =~= annotated_node(
                        start[k as int]@,
                        self.zones@,
                        arcs,
                        f.cells[k as int],
                    ));
                }
            }
            proof {
                assert forall|j: int| 0 <= j < k + 1 implies (#[trigger] self.arena@[j])@
                    == annotated_node(start[j]@, self.zones@, arcs, f.cells[j]) by {
                    if j < k {
                        assert(self.arena@[j] == before[j]);
                    }
                }
            }
            k += 1;
        }
        proof {
            assert forall|g: Frame| #[trigger] framed(arena_view(start), self.zones@, g) implies arena_view(
                self.arena@,
            ) == annotated(arena_view(start), self.zones@, arcs, g) by {
                assert(cells@ == g.cells);
                assert(arena_view(self.arena@) =~= annotated(
                    arena_view(start),
                    self.zones@,
                    arcs,
                    g,
                ));
            }
            if forall|k: int|
                0 <= k < old(self).arena@.len() ==> (#[trigger] old(self).arena@[k]).cands@.len() == 0 {
                assert forall|k: int| 0 <= k < arena_view(start).len() implies (
                #[trigger] arena_view(start)[k]).cands.len() == 0 by {
                    assert(start[k].cands@.len() == 0);
                }
                lemma_annotated_framed(arena_view(start), self.zones@, arcs, f);
                assert(framed(arena_view(self.arena@), self.zones@, f));
            }
        }
    }
}

/// The candidate records of all listed zones in a leaf cell.
fn localize_all(
    refz: &[usize],
    zones: &[Zone],
    arcs: &[Vec<Pt>],
    cell: &Aabb,
    center: Pt,
) -> (r: Vec<Cand>)
    requires
        is_box(*cell),
        center == center_of(*cell),
        ids_below(refz@, zones@.len() as int),
        forall|i: int| 0 <= i < zones@.len() ==> zone_indexable(#[trigger] zones@[i], deep(arcs@)),
    ensures
        cands_view(r@) == candidates(refz@, zones@, deep(arcs@), *cell),
{
    let mut cands: Vec<Cand> = Vec::with_capacity(refz.len());
    let mut i: usize = 0;
    while i < refz.len()
        invariant
            is_box(*cell),
            center == center_of(*cell),
            ids_below(refz@, zones@.len() as int),
            forall|i: int|
                0 <= i < zones@.len() ==> zone_indexable(#[trigger] zones@[i], deep(arcs@)),
            0 <= i <= refz@.len(),
            cands@.len() == i,
            forall|j: int|
                0 <= j < i ==> (#[trigger] cands@[j])@ == candidate(
                    refz@[j],
                    zones@[refz@[j] as int],
                    deep(arcs@),
                    *cell,
                ),
        decreases refz.len() - i,
    {
        let z = refz[i];
        cands.push(localize(z, &zones[z], arcs, cell, center));
        i += 1;
    }
    proof {
        assert(cands_view(cands@) =~= candidates(refz@, zones@, deep(arcs@), *cell));
    }
    cands
}

/// An edge is in one of the runs exactly when it meets the cell.
pub proof fn law_runs_are_the_edges_in_the_cell(path: Seq<Pt>, cell: Aabb, k: int, i: int)
    requires
        0 <= k <= path.len() - 1,
        path.len() <= u32::MAX,
        0 <= i < k,
    ensures
        meets_box(cell, path[i], path[i + 1]) <==> exists|j: int|
            0 <= j < runs_upto(path, cell, k).len() && (#[trigger] runs_upto(path, cell, k)[j]).0
                <= i <= runs_upto(path, cell, k)[j].1,
    decreases k,
{
    let before = runs_upto(path, cell, k - 1);
    let runs = runs_upto(path, cell, k);
    lemma_runs_upto(path, cell, k - 1);
    lemma_runs_upto(path, cell, k);
    if i < k - 1 {
        law_runs_are_the_edges_in_the_cell(path, cell, k - 1, i);
        if exists|j: int| 0 <= j < before.len() && (#[trigger] before[j]).0 <= i <= before[j].1 {
            let j = choose|j: int|
                0 <= j < before.len() && (#[trigger] before[j]).0 <= i <= before[j].1;
            assert(runs[j].0 <= i <= runs[j].1);
        }
        if exists|j: int| 0 <= j < runs.len() && (#[trigger] runs[j]).0 <= i <= runs[j].1 {
            let j = choose|j: int| 0 <= j < runs.len() && (#[trigger] runs[j]).0 <= i <= runs[j].1;
            assert(before[j].0 <= i <= before[j].1);
        }
    } else {
        if meets_box(cell, path[i], path[i + 1]) {
            assert(runs[runs.len() - 1].0 <= i <= runs[runs.len() - 1].1);
        } else {
            assert(runs == before);
            assert forall|j: int| 0 <= j < runs.len() implies !((#[trigger] runs[j]).0 <= i
                <= runs[j].1) by {
                assert(before[j].1 < k - 1);
            }
        }
    }
}

/// Tree and cost statistics.
#[derive(Debug, Clone, Copy, PartialEq, Eq, Structural)]
pub struct Stats {
    pub nodes: usize,
    pub leaves: usize,
    pub refs: usize,
    pub erefs: usize,
    pub max_depth: usize,
    pub max_leaf_refs: usize,
    pub max_leaf_cost: i64,
    pub max_leaf_true_cost: i64,
    pub leaves_over_limit: Option<usize>,
}

/// Statistics as mathematical numbers.
pub struct Tally {
    pub leaves: int,
    pub refs: int,
    pub erefs: int,
    pub max_depth: int,
    pub max_leaf_refs: int,
    pub max_leaf_cost: int,
    pub max_leaf_true_cost: int,
    pub over: int,
}

pub open spec fn larger(a: int, b: int) -> int {
    if a < b {
        b
    } else {
        a
    }
}

/// The tally of the first `k` nodes.
pub open spec fn tally(
    arena: Seq<NodeView>,
    zones: Seq<Zone>,
    arcs: Seq<Seq<Pt>>,
    f: Frame,
    op_limit: Option<i64>,
    k: int,
) -> Tally
    decreases k,
{
    if k <= 0 {
        Tally {
            leaves: 0,
            refs: 0,
            erefs: 0,
            max_depth: 0,
            max_leaf_refs: 0,
            max_leaf_cost: 0,
            max_leaf_true_cost: 0,
            over: 0,
        }
    } else {
        let t = tally(arena, zones, arcs, f, op_limit, k - 1);
        let node = arena[k - 1];
        let depth = f.depths[k - 1] as int;
        let t = Tally {
            refs: t.refs + node.refz.len(),
            erefs: t.erefs + node.eref.len(),
            max_depth: larger(t.max_depth, depth),
            ..t
        };
        if node.q is Some {
            t
        } else {
            let cost = reducible_cost(node.refz, zones, arcs, f.cells[k - 1], depth);
            let full = true_cost(node.refz, zones, arcs, f.cells[k - 1], depth);
            Tally {
                leaves: t.leaves + 1,
                max_leaf_refs: larger(t.max_leaf_refs, node.refz.len() as int),
                max_leaf_cost: larger(t.max_leaf_cost, cost),
                max_leaf_true_cost: larger(t.max_leaf_true_cost, full),
                over: t.over + if op_limit matches Some(limit) && cost > limit {
                    1int
                } else {
                    0
                },
                ..t
            }
        }
    }
}

/// How many zone ids the first `k` nodes list.
pub open spec fn ids_listed(arena: Seq<NodeView>, k: int) -> int
    decreases k,
{
    if k <= 0 {
        0
    } else {
        ids_listed(arena, k - 1) + arena[k - 1].refz.len() + arena[k - 1].eref.len()
    }
}

proof fn lemma_ids_listed(arena: Seq<NodeView>, j: int, k: int)
    requires
        j <= k,
    ensures
        0 <= ids_listed(arena, j) <= ids_listed(arena, k),
    decreases k,
{
    if k > 0 {
        if j == k {
            lemma_ids_listed(arena, j - 1, k - 1);
        } else {
            lemma_ids_listed(arena, j, k - 1);
        }
    }
}

proof fn lemma_tally_refs(
    arena: Seq<NodeView>,
    zones: Seq<Zone>,
    arcs: Seq<Seq<Pt>>,
    f: Frame,
    op_limit: Option<i64>,
    k: int,
)
    ensures
        ({
            let t = tally(arena, zones, arcs, f, op_limit, k);
            &&& t.refs >= 0 && t.erefs >= 0
            &&& t.refs + t.erefs == ids_listed(arena, k)
        }),
    decreases k,
{
    if k > 0 {
        lemma_tally_refs(arena, zones, arcs, f, op_limit, k - 1);
    }
}

/// The statistics say what the tally says.
pub open spec fn reports(stats: Stats, t: Tally, nodes: int, op_limit: Option<i64>) -> bool {
    &&& stats.nodes == nodes
    &&& stats.leaves == t.leaves
    &&& stats.refs == t.refs
    &&& stats.erefs == t.erefs
    &&& stats.max_depth == t.max_depth
    &&& stats.max_leaf_refs == t.max_leaf_refs
    &&& stats.max_leaf_cost == t.max_leaf_cost
    &&& stats.max_leaf_true_cost == t.max_leaf_true_cost
    &&& match op_limit {
        Some(_) => stats.leaves_over_limit matches Some(over) && over == t.over,
        None => stats.leaves_over_limit is None,
    }
}

impl Output {
    /// Tree and cost statistics.  The cost fields are those of the candidate
    /// ids, so call this before the leaves are annotated.
    pub fn tree_stats(&self, op_limit: Option<i64>) -> (r: Stats)
        requires
            self.refs_in_range(),
            is_index(arena_view(self.arena@), self.zones@),
            ids_listed(arena_view(self.arena@), self.arena@.len() as int) <= usize::MAX,
            forall|k: int|
                0 <= k < self.arena@.len() ==> list_weight(
                    (#[trigger] self.arena@[k]).refz@,
                    self.zones@,
                    deep(self.arcs@),
                ) <= WEIGHT_LIMIT,
        ensures
            forall|f: Frame| #[trigger]
                framed(arena_view(self.arena@), self.zones@, f) ==> reports(
                    r,
                    tally(
                        arena_view(self.arena@),
                        self.zones@,
                        deep(self.arcs@),
                        f,
                        op_limit,
                        self.arena@.len() as int,
                    ),
                    self.arena@.len() as int,
                    op_limit,
                ),
    {
        let (cells, depths) = self.layout();
        let ghost arena = arena_view(self.arena@);
        let ghost arcs = deep(self.arcs@);
        let ghost g = choose|f: Frame| framed(arena, self.zones@, f);
        let n = self.arena.len();
        let mut leaves: usize = 0;
        let mut refs: usize = 0;
        let mut erefs: usize = 0;
        let mut max_depth: usize = 0;
        let mut max_leaf_refs: usize = 0;
        let mut max_cost: i64 = 0;
        let mut max_true_cost: i64 = 0;
        let mut over: usize = 0;
        let mut k: usize = 0;
        while k < n
            invariant
                0 <= k <= n,
                n == self.arena@.len(),
                arena == arena_view(self.arena@),
                arcs == deep(self.arcs@),
                self.refs_in_range(),
                framed(arena, self.zones@, g),
                cells@ == g.cells,
                depths@.len() == n,
                forall|j: int| 0 <= j < n ==> #[trigger] depths@[j] == g.depths[j],
                ids_listed(arena, n as int) <= usize::MAX,
                forall|k: int|
                    0 <= k < self.arena@.len() ==> list_weight(
                        (#[trigger] self.arena@[k]).refz@,
                        self.zones@,
                        arcs,
                    ) <= WEIGHT_LIMIT,
                leaves <= k,
                over <= k,
                ({
                    let t = tally(arena, self.zones@, arcs, g, op_limit, k as int);
                    &&& leaves == t.leaves
                    &&& refs == t.refs
                    &&& erefs == t.erefs
                    &&& max_depth == t.max_depth
                    &&& max_leaf_refs == t.max_leaf_refs
                    &&& max_cost == t.max_leaf_cost
                    &&& max_true_cost == t.max_leaf_true_cost
                    &&& over == t.over
                }),
            decreases n - k,
        {
            let cell = cells[k];
            let depth = depths[k];
            proof {
                assert(arena[k as int] == self.arena@[k as int]@);
                assert(node_framed(arena, self.zones@, g, k as int));
                lemma_ids_listed(arena, k + 1, n as int);
                lemma_tally_refs(arena, self.zones@, arcs, g, op_limit, k as int);
                lemma_cell_is_box(cell, depth as nat);
            }
            refs += self.arena[k].refz.len();
            erefs += self.arena[k].eref.len();
            if max_depth < depth {
                max_depth = depth;
            }
            if self.arena[k].q.is_none() {
                leaves += 1;
                let listed = self.arena[k].refz.len();
                if max_leaf_refs < listed {
                    max_leaf_refs = listed;
                }
                proof {
                    assert(list_exists(
                        self.arena@[k as int].refz@,
                        self.zones@,
                        self.arcs@.len() as int,
                    ));
                }
                let cost = leaf_cost(
                    self.arena[k].refz.as_slice(),
                    self.zones.as_slice(),
                    self.arcs.as_slice(),
                    &cell,
                    depth,
                );
                if max_cost < cost {
                    max_cost = cost;
                }
                let full = leaf_true_cost(
                    self.arena[k].refz.as_slice(),
                    self.zones.as_slice(),
                    self.arcs.as_slice(),
                    &cell,
                    depth,
                );
                if max_true_cost < full {
                    max_true_cost = full;
                }
                if let Some(limit) = op_limit {
                    if cost > limit {
                        over += 1;
                    }
                }
            }
            k += 1;
        }
        let leaves_over_limit = match op_limit {
            Some(_) => Some(over),
            None => None,
        };
        proof {
            assert forall|f: Frame| #[trigger] framed(arena, self.zones@, f) implies tally(
                arena,
                self.zones@,
                arcs,
                f,
                op_limit,
                n as int,
            ) == tally(arena, self.zones@, arcs, g, op_limit, n as int) by {
                assert forall|j: int| 0 <= j < f.depths.len() implies #[trigger] f.depths[j]
                    == g.depths[j] by {
                    assert(depths@[j] == f.depths[j]);
                }
                lemma_tally_frame(arena, self.zones@, arcs, f, g, op_limit, n as int);
            }
        }
        Stats {
            nodes: n,
            leaves,
            refs,
            erefs,
            max_depth,
            max_leaf_refs,
            max_leaf_cost: max_cost,
            max_leaf_true_cost: max_true_cost,
            leaves_over_limit,
        }
    }
}

proof fn lemma_tally_frame(
    arena: Seq<NodeView>,
    zones: Seq<Zone>,
    arcs: Seq<Seq<Pt>>,
    f: Frame,
    g: Frame,
    op_limit: Option<i64>,
    k: int,
)
    requires
        k <= f.depths.len(),
        f.cells == g.cells,
        f.depths.len() == g.depths.len(),
        forall|j: int| 0 <= j < f.depths.len() ==> #[trigger] f.depths[j] == g.depths[j],
    ensures
        tally(arena, zones, arcs, f, op_limit, k) == tally(arena, zones, arcs, g, op_limit, k),
    decreases k,
{
    if k > 0 {
        lemma_tally_frame(arena, zones, arcs, f, g, op_limit, k - 1);
        assert(f.depths[k - 1] == g.depths[k - 1]);
    }
}

/// Runs come in order, and between two of them at least one edge is left out.
pub proof fn law_runs_are_apart(path: Seq<Pt>, cell: Aabb, k: int)
    requires
        0 <= k <= path.len() - 1,
        path.len() <= u32::MAX,
    ensures
        forall|i: int, j: int|
            0 <= i < j < runs_upto(path, cell, k).len() ==> runs_upto(path, cell, k)[i].1 + 1
                < runs_upto(path, cell, k)[j].0,
        forall|i: int|
            0 <= i < runs_upto(path, cell, k).len() ==> (#[trigger] runs_upto(path, cell, k)[i]).0
                <= runs_upto(path, cell, k)[i].1 < k,
    decreases k,
{
    lemma_runs_upto(path, cell, k);
    if k > 0 {
        law_runs_are_apart(path, cell, k - 1);
        let before = runs_upto(path, cell, k - 1);
        let runs = runs_upto(path, cell, k);
        assert forall|i: int, j: int| 0 <= i < j < runs.len() implies runs[i].1 + 1 < runs[j].0 by {
            if j < before.len() {
                assert(before[i].1 + 1 < before[j].0);
            } else {
                assert(before[i].1 < k - 1);
                if i < before.len() - 1 {
                    assert(before[i].1 + 1 < before[before.len() - 1].0);
                    assert(before[before.len() - 1].0 <= before[before.len() - 1].1);
                }
            }
        }
    }
}

/// There are runs exactly where the path meets the cell.
proof fn lemma_some_run(path: Seq<Pt>, cell: Aabb)
    requires
        path.len() <= u32::MAX,
    ensures
        crossing_runs(path, cell).len() > 0 <==> path_touches(path, cell),
{
    if path.len() > 0 {
        let k = path.len() - 1;
        let runs = runs_upto(path, cell, k);
        law_runs_are_apart(path, cell, k);
        if runs.len() > 0 {
            let i = runs[0].0 as int;
            assert(runs[0].0 <= i <= runs[0].1);
            law_runs_are_the_edges_in_the_cell(path, cell, k, i);
            assert(meets_box(cell, path[i], path[i + 1]));
        }
        if path_touches(path, cell) {
            let i = choose|i: int|
                0 <= i < path.len() - 1 && meets_box(cell, #[trigger] path[i], path[i + 1]);
            law_runs_are_the_edges_in_the_cell(path, cell, k, i);
        }
    }
}

/// The arc is one of those listed.
pub open spec fn lists_arc(e: RunsView, a: int) -> bool {
    exists|j: int| 0 <= j < e.len() && (#[trigger] e[j]).0 == a
}

/// Of a ring's arcs exactly those that meet the cell are listed, in the order of
/// the ring, each with its own runs.
pub proof fn law_arcs_in_the_cell_are_listed(
    refs: Seq<ArcRef>,
    arcs: Seq<Seq<Pt>>,
    cell: Aabb,
    k: int,
)
    requires
        0 <= k <= refs.len(),
        refs.len() <= u32::MAX,
        forall|i: int| 0 <= i < refs.len() ==> oriented(arcs, #[trigger] refs[i]).len() <= u32::MAX,
    ensures
        forall|a: int|
            0 <= a < k ==> (#[trigger] lists_arc(crossing_arcs(refs, arcs, cell, k), a)
                <==> path_touches(oriented(arcs, refs[a]), cell)),
        forall|i: int, j: int|
            0 <= i < j < crossing_arcs(refs, arcs, cell, k).len() ==> crossing_arcs(
                refs,
                arcs,
                cell,
                k,
            )[i].0 < crossing_arcs(refs, arcs, cell, k)[j].0,
        forall|j: int|
            0 <= j < crossing_arcs(refs, arcs, cell, k).len() ==> ({
                let (a, runs) = #[trigger] crossing_arcs(refs, arcs, cell, k)[j];
                &&& a < k
                &&& runs == crossing_runs(oriented(arcs, refs[a as int]), cell)
            }),
    decreases k,
{
    if k > 0 {
        law_arcs_in_the_cell_are_listed(refs, arcs, cell, k - 1);
        let before = crossing_arcs(refs, arcs, cell, k - 1);
        let e = crossing_arcs(refs, arcs, cell, k);
        let last = oriented(arcs, refs[k - 1]);
        lemma_some_run(last, cell);
        assert forall|a: int| 0 <= a < k implies (#[trigger] lists_arc(e, a) <==> path_touches(
            oriented(arcs, refs[a]),
            cell,
        )) by {
            if a < k - 1 {
                assert(lists_arc(before, a) <==> path_touches(oriented(arcs, refs[a]), cell));
                if lists_arc(before, a) {
                    let j = choose|j: int| 0 <= j < before.len() && (#[trigger] before[j]).0 == a;
                    assert(e[j].0 == a);
                }
                if lists_arc(e, a) {
                    let j = choose|j: int| 0 <= j < e.len() && (#[trigger] e[j]).0 == a;
                    assert(before[j].0 == a);
                }
            } else {
                if crossing_runs(last, cell).len() > 0 {
                    assert(e[e.len() - 1].0 == a);
                } else if lists_arc(e, a) {
                    let j = choose|j: int| 0 <= j < e.len() && (#[trigger] e[j]).0 == a;
                    assert(before[j].0 < k - 1);
                }
            }
        }
    }
}

/// The hole is one of those listed.
pub open spec fn lists_hole(h: Seq<HoleView>, i: int) -> bool {
    exists|j: int| 0 <= j < h.len() && (#[trigger] h[j]).i == i
}

/// Of a zone's holes exactly those with an edge in the cell are listed, in order,
/// each with its winding around the center of the cell and with its own runs.
pub proof fn law_holes_in_the_cell_are_listed(zone: Zone, arcs: Seq<Seq<Pt>>, cell: Aabb, k: int)
    requires
        0 <= k <= zone.holes@.len(),
        zone.holes@.len() <= usize::MAX,
    ensures
        forall|i: int|
            0 <= i < k ==> (#[trigger] lists_hole(crossing_holes(zone, arcs, cell, k), i)
                <==> boxes_overlap(cell, zone.hole_aabbs@[i]) && ring_runs(
                zone.hole_refs@[i]@,
                arcs,
                cell,
            ).len() > 0),
        forall|a: int, b: int|
            0 <= a < b < crossing_holes(zone, arcs, cell, k).len() ==> crossing_holes(
                zone,
                arcs,
                cell,
                k,
            )[a].i < crossing_holes(zone, arcs, cell, k)[b].i,
        forall|j: int|
            0 <= j < crossing_holes(zone, arcs, cell, k).len() ==> ({
                let h = #[trigger] crossing_holes(zone, arcs, cell, k)[j];
                &&& h.i < k
                &&& h.w == winding(zone.holes@[h.i as int]@, center_of(cell)) as i64
                &&& h.e == ring_runs(zone.hole_refs@[h.i as int]@, arcs, cell)
            }),
    decreases k,
{
    if k > 0 {
        law_holes_in_the_cell_are_listed(zone, arcs, cell, k - 1);
        let before = crossing_holes(zone, arcs, cell, k - 1);
        let h = crossing_holes(zone, arcs, cell, k);
        assert forall|i: int| 0 <= i < k implies (#[trigger] lists_hole(h, i) <==> boxes_overlap(
            cell,
            zone.hole_aabbs@[i],
        ) && ring_runs(zone.hole_refs@[i]@, arcs, cell).len() > 0) by {
            if i < k - 1 {
                assert(lists_hole(before, i) <==> boxes_overlap(cell, zone.hole_aabbs@[i])
                    && ring_runs(zone.hole_refs@[i]@, arcs, cell).len() > 0);
                if lists_hole(before, i) {
                    let j = choose|j: int| 0 <= j < before.len() && (#[trigger] before[j]).i == i;
                    assert(h[j].i == i);
                }
                if lists_hole(h, i) {
                    let j = choose|j: int| 0 <= j < h.len() && (#[trigger] h[j]).i == i;
                    assert(before[j].i == i);
                }
            } else {
                if boxes_overlap(cell, zone.hole_aabbs@[i]) && ring_runs(
                    zone.hole_refs@[i]@,
                    arcs,
                    cell,
                ).len() > 0 {
                    assert(h[h.len() - 1].i == i);
                } else if lists_hole(h, i) {
                    let j = choose|j: int| 0 <= j < h.len() && (#[trigger] h[j]).i == i;
                    assert(before[j].i < k - 1);
                }
            }
        }
    }
}

// --- what the statistics say ---

/// The leaves among the first `k` nodes.
pub open spec fn leaves_of(arena: Seq<NodeView>, k: int) -> Set<int> {
    Set::new(|i: int| 0 <= i < k && arena[i].q is None)
}

/// The part of a leaf's cost that splitting it can lower.
pub open spec fn cost_at(
    arena: Seq<NodeView>,
    zones: Seq<Zone>,
    arcs: Seq<Seq<Pt>>,
    f: Frame,
    i: int,
) -> int {
    reducible_cost(arena[i].refz, zones, arcs, f.cells[i], f.depths[i] as int)
}

/// What a lookup that ends in a leaf costs altogether.
pub open spec fn full_cost_at(
    arena: Seq<NodeView>,
    zones: Seq<Zone>,
    arcs: Seq<Seq<Pt>>,
    f: Frame,
    i: int,
) -> int {
    true_cost(arena[i].refz, zones, arcs, f.cells[i], f.depths[i] as int)
}

/// The leaves among the first `k` nodes that cost more than the limit.
pub open spec fn costly_leaves(
    arena: Seq<NodeView>,
    zones: Seq<Zone>,
    arcs: Seq<Seq<Pt>>,
    f: Frame,
    limit: i64,
    k: int,
) -> Set<int> {
    Set::new(
        |i: int| 0 <= i < k && arena[i].q is None && cost_at(arena, zones, arcs, f, i) > limit,
    )
}

/// All the ids that the nodes list for testing, one list behind the other.
pub open spec fn all_tested(arena: Seq<NodeView>) -> Seq<usize> {
    arena.map_values(|node: NodeView| node.refz).flatten()
}

/// All the ids that the nodes settle, one list behind the other.
pub open spec fn all_settled(arena: Seq<NodeView>) -> Seq<usize> {
    arena.map_values(|node: NodeView| node.eref).flatten()
}

/// Leaves are counted one by one, and so are the leaves over the limit.
pub proof fn law_statistics_count_leaves(
    arena: Seq<NodeView>,
    zones: Seq<Zone>,
    arcs: Seq<Seq<Pt>>,
    f: Frame,
    op_limit: Option<i64>,
    k: int,
)
    requires
        0 <= k <= arena.len(),
    ensures
        leaves_of(arena, k).finite(),
        tally(arena, zones, arcs, f, op_limit, k).leaves == leaves_of(arena, k).len(),
        op_limit matches Some(limit) ==> {
            &&& costly_leaves(arena, zones, arcs, f, limit, k).finite()
            &&& tally(arena, zones, arcs, f, op_limit, k).over == costly_leaves(
                arena,
                zones,
                arcs,
                f,
                limit,
                k,
            ).len()
        },
    decreases k,
{
    let all = leaves_of(arena, k);
    if k == 0 {
        assert(all =~= Set::empty());
        if let Some(limit) = op_limit {
            assert(costly_leaves(arena, zones, arcs, f, limit, k) =~= Set::empty());
        }
    } else {
        law_statistics_count_leaves(arena, zones, arcs, f, op_limit, k - 1);
        let before = leaves_of(arena, k - 1);
        let leaf = arena[k - 1].q is None;
        assert(all =~= if leaf {
            before.insert(k - 1)
        } else {
            before
        });
        if let Some(limit) = op_limit {
            let costly = costly_leaves(arena, zones, arcs, f, limit, k);
            let cheaper = costly_leaves(arena, zones, arcs, f, limit, k - 1);
            assert(costly =~= if leaf && cost_at(arena, zones, arcs, f, k - 1) > limit {
                cheaper.insert(k - 1)
            } else {
                cheaper
            });
        }
    }
}

/// The references are counted one by one.
pub proof fn law_statistics_count_references(
    arena: Seq<NodeView>,
    zones: Seq<Zone>,
    arcs: Seq<Seq<Pt>>,
    f: Frame,
    op_limit: Option<i64>,
    k: int,
)
    requires
        0 <= k <= arena.len(),
    ensures
        tally(arena, zones, arcs, f, op_limit, k).refs == all_tested(arena.take(k)).len(),
        tally(arena, zones, arcs, f, op_limit, k).erefs == all_settled(arena.take(k)).len(),
    decreases k,
{
    let tested = |node: NodeView| node.refz;
    let settled = |node: NodeView| node.eref;
    if k == 0 {
        assert(arena.take(0).map_values(tested) =~= Seq::empty());
        assert(arena.take(0).map_values(settled) =~= Seq::empty());
    } else {
        law_statistics_count_references(arena, zones, arcs, f, op_limit, k - 1);
        let before = arena.take(k - 1);
        let node = arena[k - 1];
        assert(arena.take(k).map_values(tested) =~= before.map_values(tested).push(node.refz));
        assert(arena.take(k).map_values(settled) =~= before.map_values(settled).push(node.eref));
        before.map_values(tested).lemma_flatten_push(node.refz);
        before.map_values(settled).lemma_flatten_push(node.eref);
    }
}

/// The value is reached by a leaf among the first `k` nodes.
pub open spec fn is_reached(values: Seq<int>, arena: Seq<NodeView>, most: int, k: int) -> bool {
    exists|i: int| 0 <= i < k && (#[trigger] arena[i]).q is None && values[i] == most
}

/// The value of each node of an arena.
pub open spec fn per_node(arena: Seq<NodeView>, value: spec_fn(int) -> int) -> Seq<int> {
    Seq::new(arena.len(), value)
}

/// The greatest depth, the longest list and the greatest costs are no less than
/// those of any leaf, and a leaf has them, unless they are zero.
#[verifier::spinoff_prover]
pub proof fn law_statistics_report_the_greatest(
    arena: Seq<NodeView>,
    zones: Seq<Zone>,
    arcs: Seq<Seq<Pt>>,
    f: Frame,
    op_limit: Option<i64>,
    k: int,
)
    requires
        0 <= k <= arena.len(),
    ensures
        ({
            let t = tally(arena, zones, arcs, f, op_limit, k);
            let lists = per_node(arena, |i: int| arena[i].refz.len() as int);
            let costs = per_node(arena, |i: int| cost_at(arena, zones, arcs, f, i));
            let fulls = per_node(arena, |i: int| full_cost_at(arena, zones, arcs, f, i));
            &&& forall|i: int| 0 <= i < k ==> #[trigger] f.depths[i] <= t.max_depth
            &&& t.max_depth == 0 || exists|i: int| 0 <= i < k && #[trigger] f.depths[i] == t.max_depth
            &&& forall|i: int|
                0 <= i < k && (#[trigger] arena[i]).q is None ==> {
                    &&& lists[i] <= t.max_leaf_refs
                    &&& costs[i] <= t.max_leaf_cost
                    &&& fulls[i] <= t.max_leaf_true_cost
                }
            &&& t.max_leaf_refs == 0 || is_reached(lists, arena, t.max_leaf_refs, k)
            &&& t.max_leaf_cost == 0 || is_reached(costs, arena, t.max_leaf_cost, k)
            &&& t.max_leaf_true_cost == 0 || is_reached(fulls, arena, t.max_leaf_true_cost, k)
        }),
    decreases k,
{
    if k > 0 {
        law_statistics_report_the_greatest(arena, zones, arcs, f, op_limit, k - 1);
        let t = tally(arena, zones, arcs, f, op_limit, k);
        let s = tally(arena, zones, arcs, f, op_limit, k - 1);
        let lists = per_node(arena, |i: int| arena[i].refz.len() as int);
        let costs = per_node(arena, |i: int| cost_at(arena, zones, arcs, f, i));
        let fulls = per_node(arena, |i: int| full_cost_at(arena, zones, arcs, f, i));
        assert(s.max_depth <= t.max_depth);
        assert(f.depths[k - 1] <= t.max_depth);
        if arena[k - 1].q is None {
            assert(lists[k - 1] == arena[k - 1].refz.len());
            assert(is_reached(lists, arena, lists[k - 1], k)) by {
                assert(arena[k - 1].q is None);
            }
            assert(is_reached(costs, arena, costs[k - 1], k)) by {
                assert(arena[k - 1].q is None);
            }
            assert(is_reached(fulls, arena, fulls[k - 1], k)) by {
                assert(arena[k - 1].q is None);
            }
        }
        lemma_reached(lists, arena, s.max_leaf_refs, k);
        lemma_reached(costs, arena, s.max_leaf_cost, k);
        lemma_reached(fulls, arena, s.max_leaf_true_cost, k);
    }
}

proof fn lemma_reached(values: Seq<int>, arena: Seq<NodeView>, most: int, k: int)
    requires
        0 < k,
    ensures
        is_reached(values, arena, most, k - 1) ==> is_reached(values, arena, most, k),
{
    if is_reached(values, arena, most, k - 1) {
        let i = choose|i: int|
            0 <= i < k - 1 && (#[trigger] arena[i]).q is None && values[i] == most;
        assert(arena[i].q is None);
    }
}

// --- what a subdivision reports, and what the statistics count ---

/// How many entries cost more than the limit.
spec fn costly_entries(heap: Multiset<Entry>, limit: i64) -> nat {
    heap.filter(|e: Entry| e.cost > limit).len()
}

proof fn lemma_costly_inserted(heap: Multiset<Entry>, limit: i64, e: Entry)
    ensures
        costly_entries(heap.insert(e), limit) == costly_entries(heap, limit) + (if e.cost > limit {
            1nat
        } else {
            0
        }),
{
    let costly = |x: Entry| x.cost > limit;
    let (before, after) = (heap.filter(costly), heap.insert(e).filter(costly));
    if e.cost > limit {
        assert(after =~= before.insert(e));
    } else {
        assert(after =~= before);
    }
}

proof fn lemma_costly_removed(heap: Multiset<Entry>, limit: i64, e: Entry)
    requires
        heap.count(e) > 0,
        e.cost > limit,
    ensures
        costly_entries(heap.remove(e), limit) == costly_entries(heap, limit) - 1,
{
    lemma_costly_inserted(heap.remove(e), limit, e);
    assert(heap.remove(e).insert(e) =~= heap);
}

proof fn lemma_count_over(heap: Seq<Entry>, limit: i64, k: int)
    requires
        0 <= k <= heap.len(),
    ensures
        count_over(heap, limit, k) == costly_entries(heap.take(k).to_multiset(), limit),
    decreases k,
{
    if k == 0 {
        assert(heap.take(0) =~= Seq::empty());
        assert(heap.take(0).to_multiset() =~= Multiset::empty()) by {
            broadcast use vstd::seq_lib::group_to_multiset_ensures;

        }
        assert(Multiset::<Entry>::empty().filter(|e: Entry| e.cost > limit) =~= Multiset::empty());
    } else {
        lemma_count_over(heap, limit, k - 1);
        let before = heap.take(k - 1);
        assert(heap.take(k) =~= before.push(heap[k - 1]));
        vstd::seq_lib::to_multiset_build(before, heap[k - 1]);
        lemma_costly_inserted(before.to_multiset(), limit, heap[k - 1]);
    }
}

/// How many of the first `k` leaves cost more than the limit.
spec fn over_among(
    arena: Seq<NodeView>,
    zones: Seq<Zone>,
    arcs: Seq<Seq<Pt>>,
    f: Frame,
    limit: i64,
    k: int,
) -> int {
    tally(arena, zones, arcs, f, Some(limit), k).over
}

/// A leaf that becomes an inner node is counted no longer; the others are counted
/// as before.
proof fn lemma_leaf_gone(
    a: Seq<NodeView>,
    f: Frame,
    b: Seq<NodeView>,
    g: Frame,
    zones: Seq<Zone>,
    arcs: Seq<Seq<Pt>>,
    limit: i64,
    idx: int,
    k: int,
)
    requires
        0 <= idx < a.len(),
        0 <= k <= a.len() <= b.len(),
        a[idx].q is None,
        b[idx].q is Some,
        forall|i: int| 0 <= i < a.len() && i != idx ==> #[trigger] b[i] == a[i],
        forall|i: int|
            0 <= i < a.len() ==> #[trigger] g.cells[i] == f.cells[i] && g.depths[i] == f.depths[i],
    ensures
        over_among(b, zones, arcs, g, limit, k) == over_among(a, zones, arcs, f, limit, k) - (
        if idx < k && cost_at(a, zones, arcs, f, idx) > limit {
            1int
        } else {
            0
        }),
    decreases k,
{
    if k > 0 {
        lemma_leaf_gone(a, f, b, g, zones, arcs, limit, idx, k - 1);
        assert(g.cells[k - 1] == f.cells[k - 1]);
        if k - 1 != idx {
            assert(b[k - 1] == a[k - 1]);
        }
    }
}

/// The leaves over the limit are those that the subdivision has counted and those
/// that still wait.
spec fn accounted(
    st: SubState,
    zones: Seq<Zone>,
    arcs: Seq<Seq<Pt>>,
    f: Frame,
    limit: i64,
) -> bool {
    over_among(st.arena, zones, arcs, f, limit, st.arena.len() as int) == st.at_max_depth
        + st.over_limit + costly_entries(st.heap.to_multiset(), limit)
}

/// The cost of an entry is the cost of its leaf.
proof fn lemma_entry_cost(
    arena: Seq<NodeView>,
    zones: Seq<Zone>,
    arcs: Seq<Seq<Pt>>,
    f: Frame,
    k: int,
)
    requires
        0 <= k < arena.len(),
        framed(arena, zones, f),
        list_weight(arena[k].refz, zones, arcs) <= WEIGHT_LIMIT,
    ensures
        entry_of(arena[k], k, f.cells[k], f.depths[k] as int, zones, arcs).cost == cost_at(
            arena,
            zones,
            arcs,
            f,
            k,
        ),
{
    assert(node_framed(arena, zones, f, k));
    lemma_cost_fits(arena[k].refz, zones, arcs, f.cells[k], f.depths[k] as int);
}

#[verifier::spinoff_prover]
#[verifier::rlimit(60)]
proof fn lemma_step_accounted(
    st: SubState,
    zones: Seq<Zone>,
    arcs: Seq<Seq<Pt>>,
    f: Frame,
    limit: i64,
    max_splits: Option<usize>,
)
    requires
        under_way(st, zones, arcs, f),
        accounted(st, zones, arcs, f, limit),
        !stopped(st, limit, max_splits),
        forall|i: int| 0 <= i < zones.len() ==> (#[trigger] zones[i]).boxes_match(),
        step(st, zones, arcs).arena.len() <= usize::MAX,
    ensures
        accounted(step(st, zones, arcs), zones, arcs, step_frame(st, zones, f), limit),
{
    let leaf = st.heap[0];
    let idx = leaf.idx as int;
    let after = step(st, zones, arcs);
    let g = step_frame(st, zones, f);
    let rest = popped(st.heap);
    lemma_step(st, zones, arcs, f);
    law_pop(st.heap);
    assert(st.heap.contains(leaf));
    assert(st.heap.to_multiset().count(leaf) > 0) by {
        broadcast use vstd::seq_lib::group_to_multiset_ensures;

    }
    lemma_costly_removed(st.heap.to_multiset(), limit, leaf);
    if !(leaf.depth >= MAX_DEPTH || st.arena[idx].refz.len() == 0) {
        let n = st.arena.len() as int;
        let e0 = child_entry(st.arena, leaf, zones, arcs, 0);
        let e1 = child_entry(st.arena, leaf, zones, arcs, 1);
        let e2 = child_entry(st.arena, leaf, zones, arcs, 2);
        let e3 = child_entry(st.arena, leaf, zones, arcs, 3);
        let h1 = pushed(rest, e0);
        let h2 = pushed(h1, e1);
        let h3 = pushed(h2, e2);
        law_push(rest, e0);
        law_push(h1, e1);
        law_push(h2, e2);
        law_push(h3, e3);
        lemma_costly_inserted(rest.to_multiset(), limit, e0);
        lemma_costly_inserted(h1.to_multiset(), limit, e1);
        lemma_costly_inserted(h2.to_multiset(), limit, e2);
        lemma_costly_inserted(h3.to_multiset(), limit, e3);
        assert(after.heap == pushed(h3, e3));
        lemma_split_costs(st, zones, arcs, f, limit, e0, e1, e2, e3);
    }
}

/// A split takes the cost of the leaf away and adds those of its children.
#[verifier::spinoff_prover]
proof fn lemma_split_costs(
    st: SubState,
    zones: Seq<Zone>,
    arcs: Seq<Seq<Pt>>,
    f: Frame,
    limit: i64,
    e0: Entry,
    e1: Entry,
    e2: Entry,
    e3: Entry,
)
    requires
        under_way(st, zones, arcs, f),
        under_way(step(st, zones, arcs), zones, arcs, step_frame(st, zones, f)),
        st.heap.len() > 0,
        st.heap[0].cost > limit,
        !(st.heap[0].depth >= MAX_DEPTH || st.arena[st.heap[0].idx as int].refz.len() == 0),
        e0 == child_entry(st.arena, st.heap[0], zones, arcs, 0),
        e1 == child_entry(st.arena, st.heap[0], zones, arcs, 1),
        e2 == child_entry(st.arena, st.heap[0], zones, arcs, 2),
        e3 == child_entry(st.arena, st.heap[0], zones, arcs, 3),
    ensures
        ({
            let after = step(st, zones, arcs);
            let g = step_frame(st, zones, f);
            over_among(after.arena, zones, arcs, g, limit, after.arena.len() as int) == over_among(
                st.arena,
                zones,
                arcs,
                f,
                limit,
                st.arena.len() as int,
            ) - 1 + (if e0.cost > limit { 1int } else { 0 }) + (if e1.cost > limit {
                1int
            } else {
                0
            }) + (if e2.cost > limit { 1int } else { 0 }) + (if e3.cost > limit {
                1int
            } else {
                0
            })
        }),
{
    let leaf = st.heap[0];
    let idx = leaf.idx as int;
    let after = step(st, zones, arcs);
    let g = step_frame(st, zones, f);
    let n = st.arena.len() as int;
    assert(st.heap.contains(leaf));
    assert(stands_for(st.arena, f, zones, arcs, leaf));
    assert(st.arena[idx].cands.len() == 0);
    lemma_entry_cost(st.arena, zones, arcs, f, idx);
    lemma_leaf_gone(st.arena, f, after.arena, g, zones, arcs, limit, idx, n);
    assert forall|i: int| 0 <= i < 4 implies {
        &&& (#[trigger] after.arena[n + i]).q is None
        &&& cost_at(after.arena, zones, arcs, g, n + i) == child_entry(
            st.arena,
            leaf,
            zones,
            arcs,
            i,
        ).cost
    } by {
        assert(after.arena[n + i] == child_node(
            st.arena[idx].refz,
            zones,
            child_cell(leaf.cell, i),
        ));
        assert(g.cells[n + i] == child_cell(leaf.cell, i));
        assert(g.depths[n + i] == leaf.depth + 1);
        lemma_entry_cost(after.arena, zones, arcs, g, n + i);
    }
    assert(after.arena[n].q is None);
    assert(after.arena[n + 1].q is None);
    assert(after.arena[n + 2].q is None);
    assert(after.arena[n + 3].q is None);
    assert(over_among(after.arena, zones, arcs, g, limit, n + 1) == over_among(
        after.arena,
        zones,
        arcs,
        g,
        limit,
        n,
    ) + (if e0.cost > limit { 1int } else { 0 }));
    assert(over_among(after.arena, zones, arcs, g, limit, n + 2) == over_among(
        after.arena,
        zones,
        arcs,
        g,
        limit,
        n + 1,
    ) + (if e1.cost > limit { 1int } else { 0 }));
    assert(over_among(after.arena, zones, arcs, g, limit, n + 3) == over_among(
        after.arena,
        zones,
        arcs,
        g,
        limit,
        n + 2,
    ) + (if e2.cost > limit { 1int } else { 0 }));
    assert(over_among(after.arena, zones, arcs, g, limit, n + 4) == over_among(
        after.arena,
        zones,
        arcs,
        g,
        limit,
        n + 3,
    ) + (if e3.cost > limit { 1int } else { 0 }));
}

/// How many nodes there are after that many steps.
pub open spec fn nodes_after(
    root: NodeView,
    zones: Seq<Zone>,
    arcs: Seq<Seq<Pt>>,
    limit: i64,
    max_splits: Option<usize>,
    n: nat,
) -> int {
    run(flat_state(root, zones, arcs), zones, arcs, limit, max_splits, n).arena.len() as int
}

/// At no time are there more nodes than can be numbered.
pub open spec fn stays_numbered(
    root: NodeView,
    zones: Seq<Zone>,
    arcs: Seq<Seq<Pt>>,
    limit: i64,
    max_splits: Option<usize>,
    n: nat,
) -> bool {
    forall|m: nat|
        m <= n ==> #[trigger] nodes_after(root, zones, arcs, limit, max_splits, m) <= usize::MAX
}

proof fn lemma_run_accounted(
    root: NodeView,
    zones: Seq<Zone>,
    arcs: Seq<Seq<Pt>>,
    limit: i64,
    max_splits: Option<usize>,
    n: nat,
) -> (f: Frame)
    requires
        root == (NodeView { refz: all_ids(zones.len() as int), ..empty_leaf() }),
        zones.len() <= usize::MAX,
        list_weight(root.refz, zones, arcs) <= WEIGHT_LIMIT,
        forall|i: int| 0 <= i < zones.len() ==> (#[trigger] zones[i]).boxes_match(),
        stays_numbered(root, zones, arcs, limit, max_splits, n),
    ensures
        ({
            let st = run(flat_state(root, zones, arcs), zones, arcs, limit, max_splits, n);
            &&& under_way(st, zones, arcs, f)
            &&& accounted(st, zones, arcs, f, limit)
        }),
    decreases n,
{
    let start = flat_state(root, zones, arcs);
    if n == 0 {
        let f = flat_frame(root);
        let e = start.heap[0];
        lemma_flat(root, zones, arcs);
        lemma_entry_cost(start.arena, zones, arcs, f, 0);
        assert(start.heap =~= Seq::<Entry>::empty().push(e));
        vstd::seq_lib::to_multiset_build(Seq::<Entry>::empty(), e);
        assert(Seq::<Entry>::empty().to_multiset() =~= Multiset::empty()) by {
            broadcast use vstd::seq_lib::group_to_multiset_ensures;

        }
        lemma_costly_inserted(Multiset::empty(), limit, e);
        assert(Multiset::<Entry>::empty().filter(|x: Entry| x.cost > limit) =~= Multiset::empty());
        assert(over_among(start.arena, zones, arcs, f, limit, 0) == 0);
        assert(start.arena[0].q is None);
        f
    } else {
        let m = (n - 1) as nat;
        let before = run(start, zones, arcs, limit, max_splits, m);
        assert(nodes_after(root, zones, arcs, limit, max_splits, n) <= usize::MAX);
        let f = lemma_run_accounted(root, zones, arcs, limit, max_splits, m);
        if stopped(before, limit, max_splits) {
            f
        } else {
            lemma_step(before, zones, arcs, f);
            lemma_step_accounted(before, zones, arcs, f, limit, max_splits);
            step_frame(before, zones, f)
        }
    }
}

/// A subdivision reports each leaf that is left over the limit once: those that it
/// could not split because of their depth, and the others.  Together they are the
/// leaves over the limit that the statistics count.
pub proof fn law_subdivision_reports_the_costly_leaves(
    root: NodeView,
    zones: Seq<Zone>,
    arcs: Seq<Seq<Pt>>,
    limit: i64,
    max_splits: Option<usize>,
    after: Seq<NodeView>,
    stats: SubStats,
    n: nat,
)
    requires
        root == (NodeView { refz: all_ids(zones.len() as int), ..empty_leaf() }),
        zones.len() <= usize::MAX,
        list_weight(root.refz, zones, arcs) <= WEIGHT_LIMIT,
        forall|i: int| 0 <= i < zones.len() ==> (#[trigger] zones[i]).boxes_match(),
        subdivided(root, zones, arcs, limit, max_splits, after, stats, n),
        stays_numbered(root, zones, arcs, limit, max_splits, n),
    ensures
        exists|f: Frame| #[trigger]
            framed(after, zones, f) && tally(
                after,
                zones,
                arcs,
                f,
                Some(limit),
                after.len() as int,
            ).over == stats.at_max_depth + stats.over_limit,
{
    let f = lemma_run_accounted(root, zones, arcs, limit, max_splits, n);
    let st = run(flat_state(root, zones, arcs), zones, arcs, limit, max_splits, n);
    lemma_count_over(st.heap, limit, st.heap.len() as int);
    assert(st.heap.take(st.heap.len() as int) =~= st.heap);
    assert(framed(after, zones, f));
}

} // verus!
