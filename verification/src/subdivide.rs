//! Greedy, cost-driven subdivision of the flat root into a quadtree.
use vstd::prelude::*;

use crate::arcs::deep;
use crate::artifact::{
    all_ids, arena_view, classify, empty_leaf, law_only_a_boundary_leaves_a_zone_open,
    law_zone_relation_holds_throughout_cell, some_hole_touches, zone_relation, Node, NodeView,
    Output, Rel, Zone,
};
use crate::cost::{
    leaf_cost, lemma_list_cost, list_exists, list_weight, reducible_cost, zone_refs_exist,
    lemma_zone_cost, WEIGHT_LIMIT,
};
use crate::geom::{Aabb, Pt};
use crate::heap::{
    is_heap, law_pop, law_push, lemma_top_is_costliest, popped, pushed, Entry, MaxHeap,
};
use crate::lookup::{
    child_cell, in_cell, is_cell_at, law_midpoints_exact, lemma_cell_height, lemma_child_within,
    lemma_root_cell, split_cell,
};
use crate::quant::{MAX_DEPTH, ROOT_CELL};
use crate::segment::{in_box, is_box};
use crate::winding::ring_touches;

verus! {

/// What a subdivision did.
pub struct SubStats {
    pub splits: usize,
    pub at_max_depth: usize,
    pub over_limit: usize,
}

/// The listed zones that have this relation to the cell, in list order.
pub open spec fn with_relation(
    refz: Seq<usize>,
    zones: Seq<Zone>,
    cell: Aabb,
    rel: Rel,
) -> Seq<usize>
    decreases refz.len(),
{
    if refz.len() == 0 {
        refz
    } else {
        let before = with_relation(refz.drop_last(), zones, cell, rel);
        if zone_relation(cell, zones[refz.last() as int]) == rel {
            before.push(refz.last())
        } else {
            before
        }
    }
}

/// The new leaf for a cell: the definite zones are settled, the candidates are
/// left to test, the disjoint ones are gone.
pub open spec fn child_node(refz: Seq<usize>, zones: Seq<Zone>, cell: Aabb) -> NodeView {
    NodeView {
        eref: with_relation(refz, zones, cell, Rel::Definite),
        refz: with_relation(refz, zones, cell, Rel::Candidate),
        ..empty_leaf()
    }
}

/// The heap entry of a leaf.
pub open spec fn entry_of(
    node: NodeView,
    idx: int,
    cell: Aabb,
    depth: int,
    zones: Seq<Zone>,
    arcs: Seq<Seq<Pt>>,
) -> Entry {
    Entry {
        cost: reducible_cost(node.refz, zones, arcs, cell, depth) as i64,
        idx: idx as usize,
        cell,
        depth: depth as usize,
    }
}

/// A subdivision under way.
#[verifier::ext_equal]
pub struct SubState {
    pub arena: Seq<NodeView>,
    pub heap: Seq<Entry>,
    pub splits: int,
    pub at_max_depth: int,
    pub over_limit: int,
}

/// The four new leaves of a split.
pub open spec fn four_children(
    leaf: Entry,
    refz: Seq<usize>,
    zones: Seq<Zone>,
) -> Seq<NodeView> {
    Seq::new(4, |i: int| child_node(refz, zones, child_cell(leaf.cell, i)))
}

/// The arena once a leaf has become an inner node with four new leaves.
pub open spec fn split_arena(
    arena: Seq<NodeView>,
    leaf: Entry,
    zones: Seq<Zone>,
) -> Seq<NodeView> {
    let idx = leaf.idx as int;
    let n = arena.len();
    arena.update(
        idx,
        NodeView {
            q: Some([n as usize, (n + 1) as usize, (n + 2) as usize, (n + 3) as usize]),
            refz: Seq::empty(),
            ..arena[idx]
        },
    ) + four_children(leaf, arena[idx].refz, zones)
}

/// The entry of the `i`-th new leaf of a split.
pub open spec fn child_entry(
    arena: Seq<NodeView>,
    leaf: Entry,
    zones: Seq<Zone>,
    arcs: Seq<Seq<Pt>>,
    i: int,
) -> Entry {
    let cell = child_cell(leaf.cell, i);
    entry_of(
        child_node(arena[leaf.idx as int].refz, zones, cell),
        arena.len() + i,
        cell,
        leaf.depth + 1,
        zones,
        arcs,
    )
}

/// The costliest waiting leaf is dealt with: dropped at the depth limit,
/// dropped when it has no candidates (splitting only adds depth), split
/// otherwise.
pub open spec fn step(st: SubState, zones: Seq<Zone>, arcs: Seq<Seq<Pt>>) -> SubState {
    let leaf = st.heap[0];
    let rest = popped(st.heap);
    if leaf.depth >= MAX_DEPTH {
        SubState { heap: rest, at_max_depth: st.at_max_depth + 1, ..st }
    } else if st.arena[leaf.idx as int].refz.len() == 0 {
        SubState { heap: rest, over_limit: st.over_limit + 1, ..st }
    } else {
        let e = |i: int| child_entry(st.arena, leaf, zones, arcs, i);
        SubState {
            arena: split_arena(st.arena, leaf, zones),
            heap: pushed(pushed(pushed(pushed(rest, e(0)), e(1)), e(2)), e(3)),
            splits: st.splits + 1,
            ..st
        }
    }
}

/// Nothing waits, the costliest waiting leaf is within the limit, or the split
/// budget is spent.
pub open spec fn stopped(st: SubState, op_limit: i64, max_splits: Option<usize>) -> bool {
    ||| st.heap.len() == 0
    ||| st.heap[0].cost <= op_limit
    ||| max_splits matches Some(ms) && st.splits >= ms
}

/// At most `n` steps, none once stopped.
pub open spec fn run(
    st: SubState,
    zones: Seq<Zone>,
    arcs: Seq<Seq<Pt>>,
    op_limit: i64,
    max_splits: Option<usize>,
    n: nat,
) -> SubState
    decreases n,
{
    if n == 0 {
        st
    } else {
        let before = run(st, zones, arcs, op_limit, max_splits, (n - 1) as nat);
        if stopped(before, op_limit, max_splits) {
            before
        } else {
            step(before, zones, arcs)
        }
    }
}

/// The start: the root alone waits.
pub open spec fn flat_state(root: NodeView, zones: Seq<Zone>, arcs: Seq<Seq<Pt>>) -> SubState {
    SubState {
        arena: seq![root],
        heap: seq![entry_of(root, 0, ROOT_CELL, 0, zones, arcs)],
        splits: 0,
        at_max_depth: 0,
        over_limit: 0,
    }
}

/// How many of the first `k` entries cost more than the limit.
pub open spec fn count_over(heap: Seq<Entry>, op_limit: i64, k: int) -> int
    decreases k,
{
    if k <= 0 {
        0
    } else {
        count_over(heap, op_limit, k - 1) + if heap[k - 1].cost > op_limit {
            1int
        } else {
            0
        }
    }
}

/// Where each node of an arena lies: its cell, its depth, its parent and which
/// of the parent's quadrants it is, and the zones settled on the way down to it.
#[verifier::ext_equal]
pub struct Frame {
    pub cells: Seq<Aabb>,
    pub depths: Seq<nat>,
    pub parents: Seq<(int, int)>,
    pub above: Seq<Seq<usize>>,
}

/// The node lists the zone for testing.
pub open spec fn lists(node: NodeView, z: usize) -> bool {
    node.refz.contains(z) || exists|i: int|
        0 <= i < node.cands.len() && (#[trigger] node.cands[i]).z == z
}

/// Every zone settled on the way holds the point, and every zone that holds
/// the point is settled or listed.
pub open spec fn accounts_for(
    zones: Seq<Zone>,
    node: NodeView,
    above: Seq<usize>,
    p: Pt,
) -> bool {
    forall|z: usize|
        #![trigger above.contains(z)]
        #![trigger lists(node, z)]
        z < zones.len() ==> {
            &&& above.contains(z) ==> zones[z as int].contains(p)
            &&& zones[z as int].contains(p) ==> above.contains(z) || lists(node, z)
        }
}

/// The `i`-th child of a node lies where it should.
pub open spec fn child_placed(arena: Seq<NodeView>, f: Frame, idx: int, ch: int, i: int) -> bool {
    &&& idx < ch < arena.len()
    &&& f.cells[ch] == child_cell(f.cells[idx], i)
    &&& f.depths[ch] == f.depths[idx] + 1
    &&& f.above[ch] == f.above[idx] + arena[ch].eref
}

/// All ids are those of zones.
pub open spec fn ids_below(ids: Seq<usize>, n: int) -> bool {
    forall|i: int| 0 <= i < ids.len() ==> (#[trigger] ids[i]) < n
}

/// One node of the arena lies where the frame says, and accounts for every
/// point of its cell if it is a leaf.
pub open spec fn node_framed(arena: Seq<NodeView>, zones: Seq<Zone>, f: Frame, idx: int) -> bool {
    let node = arena[idx];
    &&& f.depths[idx] <= MAX_DEPTH
    &&& is_cell_at(f.cells[idx], f.depths[idx])
    &&& ids_below(node.eref, zones.len() as int)
    &&& ids_below(node.refz, zones.len() as int)
    &&& ids_below(f.above[idx], zones.len() as int)
    &&& idx > 0 ==> {
        let (up, i) = f.parents[idx];
        &&& 0 <= up < idx
        &&& 0 <= i < 4
        &&& arena[up].q matches Some(ch) && ch[i] == idx
    }
    &&& match node.q {
        Some(ch) => {
            &&& f.depths[idx] < MAX_DEPTH
            &&& node.refz.len() == 0
            &&& node.cands.len() == 0
            &&& child_placed(arena, f, idx, ch[0] as int, 0)
            &&& child_placed(arena, f, idx, ch[1] as int, 1)
            &&& child_placed(arena, f, idx, ch[2] as int, 2)
            &&& child_placed(arena, f, idx, ch[3] as int, 3)
        },
        None => forall|p: Pt| #[trigger]
            in_cell(p, f.cells[idx]) ==> accounts_for(zones, node, f.above[idx], p),
    }
}

/// The frame fits the arena: a quadtree over the root cell whose leaves account
/// for every point.
pub open spec fn framed(arena: Seq<NodeView>, zones: Seq<Zone>, f: Frame) -> bool {
    &&& arena.len() > 0
    &&& f.cells.len() == arena.len()
    &&& f.depths.len() == arena.len()
    &&& f.parents.len() == arena.len()
    &&& f.above.len() == arena.len()
    &&& f.cells[0] == ROOT_CELL
    &&& f.depths[0] == 0
    &&& f.above[0] == arena[0].eref
    &&& forall|idx: int| 0 <= idx < arena.len() ==> #[trigger] node_framed(arena, zones, f, idx)
}

/// The arena is a quadtree over the root cell whose leaves account for every
/// point.
pub open spec fn is_index(arena: Seq<NodeView>, zones: Seq<Zone>) -> bool {
    exists|f: Frame| framed(arena, zones, f)
}

/// The frame of a lone root leaf.
pub open spec fn flat_frame(root: NodeView) -> Frame {
    Frame {
        cells: seq![ROOT_CELL],
        depths: seq![0nat],
        parents: seq![(0int, 0int)],
        above: seq![root.eref],
    }
}

/// The frame once a leaf has been split.
pub open spec fn split_frame(f: Frame, arena: Seq<NodeView>, leaf: Entry, zones: Seq<Zone>) -> Frame {
    let idx = leaf.idx as int;
    let kids = four_children(leaf, arena[idx].refz, zones);
    Frame {
        cells: f.cells + Seq::new(4, |i: int| child_cell(leaf.cell, i)),
        depths: f.depths + Seq::new(4, |i: int| (leaf.depth + 1) as nat),
        parents: f.parents + Seq::new(4, |i: int| (idx, i)),
        above: f.above + Seq::new(4, |i: int| f.above[idx] + kids[i].eref),
    }
}

/// The filtered list holds the ids of the list that have the relation.
pub proof fn lemma_with_relation(refz: Seq<usize>, zones: Seq<Zone>, cell: Aabb, rel: Rel, z: usize)
    ensures
        with_relation(refz, zones, cell, rel).contains(z) <==> refz.contains(z) && zone_relation(
            cell,
            zones[z as int],
        ) == rel,
    decreases refz.len(),
{
    if refz.len() > 0 {
        let shorter = refz.drop_last();
        let before = with_relation(shorter, zones, cell, rel);
        lemma_with_relation(shorter, zones, cell, rel, z);
        if before.contains(z) {
            let i = choose|i: int| 0 <= i < before.len() && before[i] == z;
            assert(before.push(refz.last())[i] == z);
        }
        if shorter.contains(z) {
            let i = choose|i: int| 0 <= i < shorter.len() && shorter[i] == z;
            assert(refz[i] == z);
        }
        assert(before.push(refz.last())[before.len() as int] == refz.last());
        if refz.contains(z) && z != refz.last() {
            let i = choose|i: int| 0 <= i < refz.len() && refz[i] == z;
            assert(shorter[i] == z);
        }
    }
}

/// The filtered list holds ids of zones.
pub proof fn lemma_with_relation_ids(refz: Seq<usize>, zones: Seq<Zone>, cell: Aabb, rel: Rel, n: int)
    requires
        ids_below(refz, n),
    ensures
        ids_below(with_relation(refz, zones, cell, rel), n),
    decreases refz.len(),
{
    if refz.len() > 0 {
        lemma_with_relation_ids(refz.drop_last(), zones, cell, rel, n);
    }
}

proof fn lemma_with_relation_weight(
    refz: Seq<usize>,
    zones: Seq<Zone>,
    arcs: Seq<Seq<Pt>>,
    cell: Aabb,
    rel: Rel,
)
    ensures
        list_weight(with_relation(refz, zones, cell, rel), zones, arcs) <= list_weight(
            refz,
            zones,
            arcs,
        ),
    decreases refz.len(),
{
    if refz.len() > 0 {
        let before = with_relation(refz.drop_last(), zones, cell, rel);
        lemma_with_relation_weight(refz.drop_last(), zones, arcs, cell, rel);
        lemma_zone_cost(arcs, zones[refz.last() as int], cell);
        assert(before.push(refz.last()).drop_last() =~= before);
    }
}

/// A cell of the tree has an inside.
pub proof fn lemma_cell_is_box(cell: Aabb, depth: nat)
    requires
        depth <= MAX_DEPTH + 1,
        is_cell_at(cell, depth),
    ensures
        is_box(cell),
        forall|p: Pt| #[trigger] in_cell(p, cell) ==> in_box(p, cell),
{
    lemma_cell_height(depth);
}

/// A child leaf accounts for every point of its cell.
proof fn lemma_child_accounts(
    zones: Seq<Zone>,
    node: NodeView,
    above: Seq<usize>,
    cell: Aabb,
    p: Pt,
)
    requires
        forall|i: int| 0 <= i < zones.len() ==> (#[trigger] zones[i]).boxes_match(),
        node.cands.len() == 0,
        accounts_for(zones, node, above, p),
        in_box(p, cell),
    ensures
        ({
            let child = child_node(node.refz, zones, cell);
            accounts_for(zones, child, above + child.eref, p)
        }),
{
    let child = child_node(node.refz, zones, cell);
    let longer = above + child.eref;
    assert forall|z: usize|
        #![trigger longer.contains(z)]
        #![trigger lists(child, z)]
        z < zones.len() implies {
        &&& longer.contains(z) ==> zones[z as int].contains(p)
        &&& zones[z as int].contains(p) ==> longer.contains(z) || lists(child, z)
    } by {
        let zone = zones[z as int];
        assert(zone.boxes_match());
        law_zone_relation_holds_throughout_cell(cell, zone, p);
        lemma_with_relation(node.refz, zones, cell, Rel::Definite, z);
        lemma_with_relation(node.refz, zones, cell, Rel::Candidate, z);
        if longer.contains(z) {
            let i = choose|i: int| 0 <= i < longer.len() && longer[i] == z;
            if i < above.len() {
                assert(above[i] == z);
                assert(above.contains(z));
            } else {
                assert(child.eref[i - above.len()] == z);
                assert(child.eref.contains(z));
            }
        }
        if zone.contains(p) {
            assert(above.contains(z) || lists(node, z));
            if above.contains(z) {
                let i = choose|i: int| 0 <= i < above.len() && above[i] == z;
                assert(longer[i] == z);
            } else {
                assert(node.refz.contains(z));
                if child.eref.contains(z) {
                    let i = choose|i: int| 0 <= i < child.eref.len() && child.eref[i] == z;
                    assert(longer[above.len() + i] == z);
                }
            }
        }
    }
}

/// The leaf that an entry stands for.
pub open spec fn stands_for(
    arena: Seq<NodeView>,
    f: Frame,
    zones: Seq<Zone>,
    arcs: Seq<Seq<Pt>>,
    e: Entry,
) -> bool {
    let idx = e.idx as int;
    &&& 0 <= idx < arena.len()
    &&& arena[idx].q is None
    &&& e == entry_of(arena[idx], idx, f.cells[idx], f.depths[idx] as int, zones, arcs)
}

/// Splitting a leaf keeps the frame fitting.
#[verifier::spinoff_prover]
proof fn lemma_split_framed(arena: Seq<NodeView>, f: Frame, leaf: Entry, zones: Seq<Zone>)
    requires
        framed(arena, zones, f),
        forall|i: int| 0 <= i < zones.len() ==> (#[trigger] zones[i]).boxes_match(),
        leaf.idx < arena.len(),
        arena[leaf.idx as int].q is None,
        arena[leaf.idx as int].cands.len() == 0,
        leaf.cell == f.cells[leaf.idx as int],
        leaf.depth == f.depths[leaf.idx as int],
        leaf.depth < MAX_DEPTH,
        arena.len() + 4 <= usize::MAX,
    ensures
        framed(split_arena(arena, leaf, zones), zones, split_frame(f, arena, leaf, zones)),
{
    let idx = leaf.idx as int;
    let n = arena.len() as int;
    let after = split_arena(arena, leaf, zones);
    let g = split_frame(f, arena, leaf, zones);
    let refz = arena[idx].refz;
    assert(node_framed(arena, zones, f, idx));
    assert(after.len() == n + 4);
    assert forall|i: int| 0 <= i < 4 implies #[trigger] node_framed(after, zones, g, n + i) by {
        let cell = child_cell(leaf.cell, i);
        let child = child_node(refz, zones, cell);
        law_midpoints_exact(leaf.cell, leaf.depth as nat, i);
        lemma_cell_is_box(cell, (leaf.depth + 1) as nat);
        assert(after[n + i] == child);
        assert(g.cells[n + i] == cell);
        lemma_with_relation_ids(refz, zones, cell, Rel::Definite, zones.len() as int);
        lemma_with_relation_ids(refz, zones, cell, Rel::Candidate, zones.len() as int);
        let longer = f.above[idx] + child.eref;
        assert(g.above[n + i] == longer);
        assert(ids_below(longer, zones.len() as int));
        assert(g.parents[n + i] == (idx, i));
        let ch = after[idx].q->0;
        assert(ch[i] == n + i);
        assert forall|p: Pt| #[trigger] in_cell(p, cell) implies accounts_for(
            zones,
            child,
            longer,
            p,
        ) by {
            lemma_child_within(leaf.cell, leaf.depth as nat, i, p);
            lemma_child_accounts(zones, arena[idx], f.above[idx], cell, p);
        }
    }
    assert forall|k: int| 0 <= k < after.len() implies #[trigger] node_framed(after, zones, g, k) by {
        if k >= n {
            assert(node_framed(after, zones, g, n + (k - n)));
        } else {
            assert(node_framed(arena, zones, f, k));
            assert(g.cells[k] == f.cells[k]);
            assert(g.depths[k] == f.depths[k]);
            assert(g.above[k] == f.above[k]);
            assert(g.parents[k] == f.parents[k]);
            if k > 0 {
                let up = f.parents[k].0;
                assert(node_framed(arena, zones, f, up));
                assert(up != idx);
                assert(after[up] == arena[up]);
            }
            if k == idx {
                let ch = after[k].q->0;
                assert(child_placed(after, g, k, ch[0] as int, 0));
                assert(child_placed(after, g, k, ch[1] as int, 1));
                assert(child_placed(after, g, k, ch[2] as int, 2));
                assert(child_placed(after, g, k, ch[3] as int, 3));
            } else {
                assert(after[k] == arena[k]);
                match arena[k].q {
                    Some(ch) => {
                        lemma_child_still_placed(arena, f, leaf, zones, k, ch[0] as int, 0);
                        lemma_child_still_placed(arena, f, leaf, zones, k, ch[1] as int, 1);
                        lemma_child_still_placed(arena, f, leaf, zones, k, ch[2] as int, 2);
                        lemma_child_still_placed(arena, f, leaf, zones, k, ch[3] as int, 3);
                    },
                    None => {},
                }
            }
        }
    }
    assert(node_framed(after, zones, g, 0));
    assert(after[0].eref == arena[0].eref);
}

proof fn lemma_child_still_placed(
    arena: Seq<NodeView>,
    f: Frame,
    leaf: Entry,
    zones: Seq<Zone>,
    k: int,
    ch: int,
    i: int,
)
    requires
        framed(arena, zones, f),
        0 <= k < arena.len(),
        leaf.idx < arena.len(),
        child_placed(arena, f, k, ch, i),
    ensures
        child_placed(
            split_arena(arena, leaf, zones),
            split_frame(f, arena, leaf, zones),
            k,
            ch,
            i,
        ),
{
    let after = split_arena(arena, leaf, zones);
    assert(after[ch].eref == arena[ch].eref);
}

/// What the waiting entries, the arena and its frame have to do with each
/// other while a subdivision is under way.
pub open spec fn under_way(
    st: SubState,
    zones: Seq<Zone>,
    arcs: Seq<Seq<Pt>>,
    f: Frame,
) -> bool {
    &&& framed(st.arena, zones, f)
    &&& is_heap(st.heap)
    &&& forall|e: Entry| #[trigger] st.heap.contains(e) ==> stands_for(st.arena, f, zones, arcs, e)
    &&& forall|e: Entry| #[trigger] st.heap.to_multiset().count(e) <= 1
    &&& forall|k: int|
        0 <= k < st.arena.len() ==> (#[trigger] st.arena[k]).cands.len() == 0 && list_weight(
            st.arena[k].refz,
            zones,
            arcs,
        ) <= WEIGHT_LIMIT
    &&& st.splits >= 0 && st.at_max_depth >= 0 && st.over_limit >= 0
    &&& st.splits + st.at_max_depth + st.over_limit + st.heap.len() == st.arena.len()
    &&& forall|k: int| 0 <= k < st.arena.len() ==> #[trigger] leaf_settled(st, zones, arcs, f, k)
}

/// A leaf still waits, or it was left as it is: at the depth limit, or without
/// candidates.
pub open spec fn leaf_settled(
    st: SubState,
    zones: Seq<Zone>,
    arcs: Seq<Seq<Pt>>,
    f: Frame,
    k: int,
) -> bool {
    st.arena[k].q is None ==> {
        ||| st.heap.contains(
            entry_of(st.arena[k], k, f.cells[k], f.depths[k] as int, zones, arcs),
        )
        ||| f.depths[k] >= MAX_DEPTH && st.at_max_depth > 0
        ||| st.arena[k].refz.len() == 0 && st.over_limit > 0
    }
}

/// The frame after a step.
pub open spec fn step_frame(st: SubState, zones: Seq<Zone>, f: Frame) -> Frame {
    let leaf = st.heap[0];
    if leaf.depth >= MAX_DEPTH || st.arena[leaf.idx as int].refz.len() == 0 {
        f
    } else {
        split_frame(f, st.arena, leaf, zones)
    }
}

/// Taking the top out leaves the others, and not the top itself.
proof fn lemma_rest(heap: Seq<Entry>)
    requires
        is_heap(heap),
        heap.len() > 0,
        forall|e: Entry| #[trigger] heap.to_multiset().count(e) <= 1,
    ensures
        is_heap(popped(heap)),
        popped(heap).len() == heap.len() - 1,
        heap.contains(heap[0]),
        forall|e: Entry| #[trigger] popped(heap).contains(e) <==> heap.contains(e) && e != heap[0],
        forall|e: Entry| #[trigger] popped(heap).to_multiset().count(e) <= 1,
{
    broadcast use vstd::seq_lib::group_to_multiset_ensures;

    law_pop(heap);
    let rest = popped(heap);
    assert(heap.contains(heap[0]));
    assert(heap.to_multiset().count(heap[0]) > 0);
    assert(rest.to_multiset().len() == heap.to_multiset().len() - 1);
    assert forall|e: Entry| #[trigger] rest.contains(e) <==> heap.contains(e) && e != heap[0] by {
        assert(rest.contains(e) <==> rest.to_multiset().count(e) > 0);
        assert(heap.contains(e) <==> heap.to_multiset().count(e) > 0);
        assert(heap.to_multiset().count(e) <= 1);
    }
    assert forall|e: Entry| #[trigger] rest.to_multiset().count(e) <= 1 by {
        assert(heap.to_multiset().count(e) <= 1);
    }
}

/// A new entry joins the others.
proof fn lemma_joined(heap: Seq<Entry>, new: Entry)
    requires
        is_heap(heap),
        forall|e: Entry| #[trigger] heap.to_multiset().count(e) <= 1,
        !heap.contains(new),
    ensures
        is_heap(pushed(heap, new)),
        pushed(heap, new).len() == heap.len() + 1,
        forall|e: Entry| #[trigger] pushed(heap, new).contains(e) <==> heap.contains(e) || e == new,
        forall|e: Entry| #[trigger] pushed(heap, new).to_multiset().count(e) <= 1,
{
    broadcast use vstd::seq_lib::group_to_multiset_ensures;

    law_push(heap, new);
    let after = pushed(heap, new);
    assert(heap.contains(new) <==> heap.to_multiset().count(new) > 0);
    assert(after.to_multiset().len() == heap.to_multiset().len() + 1);
    assert forall|e: Entry| #[trigger] after.contains(e) <==> heap.contains(e) || e == new by {
        assert(after.contains(e) <==> after.to_multiset().count(e) > 0);
        assert(heap.contains(e) <==> heap.to_multiset().count(e) > 0);
    }
    assert forall|e: Entry| #[trigger] after.to_multiset().count(e) <= 1 by {
        assert(heap.to_multiset().count(e) <= 1);
    }
}

/// A step keeps what holds of a subdivision under way.
#[verifier::spinoff_prover]
#[verifier::rlimit(60)]
pub proof fn lemma_step(st: SubState, zones: Seq<Zone>, arcs: Seq<Seq<Pt>>, f: Frame)
    requires
        under_way(st, zones, arcs, f),
        forall|i: int| 0 <= i < zones.len() ==> (#[trigger] zones[i]).boxes_match(),
        st.heap.len() > 0,
        step(st, zones, arcs).arena.len() <= usize::MAX,
    ensures
        under_way(step(st, zones, arcs), zones, arcs, step_frame(st, zones, f)),
{
    let leaf = st.heap[0];
    let idx = leaf.idx as int;
    let rest = popped(st.heap);
    let after = step(st, zones, arcs);
    lemma_rest(st.heap);
    assert(stands_for(st.arena, f, zones, arcs, leaf));
    assert(node_framed(st.arena, zones, f, idx));
    if leaf.depth >= MAX_DEPTH || st.arena[idx].refz.len() == 0 {
        assert forall|k: int| 0 <= k < after.arena.len() implies #[trigger] leaf_settled(
            after,
            zones,
            arcs,
            f,
            k,
        ) by {
            assert(leaf_settled(st, zones, arcs, f, k));
        }
    } else {
        let n = st.arena.len() as int;
        let g = split_frame(f, st.arena, leaf, zones);
        lemma_split_framed(st.arena, f, leaf, zones);
        let e0 = child_entry(st.arena, leaf, zones, arcs, 0);
        let e1 = child_entry(st.arena, leaf, zones, arcs, 1);
        let e2 = child_entry(st.arena, leaf, zones, arcs, 2);
        let e3 = child_entry(st.arena, leaf, zones, arcs, 3);
        let h1 = pushed(rest, e0);
        let h2 = pushed(h1, e1);
        let h3 = pushed(h2, e2);
        let h4 = pushed(h3, e3);
        assert(forall|e: Entry| #[trigger] rest.contains(e) ==> e.idx < n);
        lemma_joined(rest, e0);
        lemma_joined(h1, e1);
        lemma_joined(h2, e2);
        lemma_joined(h3, e3);
        assert(after.heap == h4);
        assert forall|e: Entry| #[trigger] h4.contains(e) implies stands_for(
            after.arena,
            g,
            zones,
            arcs,
            e,
        ) by {
            if rest.contains(e) {
                assert(st.heap.contains(e));
                assert(stands_for(st.arena, f, zones, arcs, e));
                if e.idx == leaf.idx {
                    assert(e == leaf);
                }
                assert(after.arena[e.idx as int] == st.arena[e.idx as int]);
                assert(g.cells[e.idx as int] == f.cells[e.idx as int]);
                assert(g.depths[e.idx as int] == f.depths[e.idx as int]);
            } else {
                let i = e.idx - n;
                assert(0 <= i < 4);
                assert(after.arena[n + i] == child_node(
                    st.arena[idx].refz,
                    zones,
                    child_cell(leaf.cell, i),
                ));
                assert(g.cells[n + i] == child_cell(leaf.cell, i));
                assert(g.depths[n + i] == leaf.depth + 1);
            }
        }
        assert forall|k: int| 0 <= k < after.arena.len() implies (
        #[trigger] after.arena[k]).cands.len() == 0 && list_weight(
            after.arena[k].refz,
            zones,
            arcs,
        ) <= WEIGHT_LIMIT by {
            if k >= n {
                let cell = child_cell(leaf.cell, k - n);
                assert(after.arena[k] == child_node(st.arena[idx].refz, zones, cell));
                assert(st.arena[idx].cands.len() == 0);
                lemma_with_relation_weight(st.arena[idx].refz, zones, arcs, cell, Rel::Candidate);
            } else {
                assert(st.arena[k].cands.len() == 0);
            }
        }
        assert forall|k: int| 0 <= k < after.arena.len() implies #[trigger] leaf_settled(
            after,
            zones,
            arcs,
            g,
            k,
        ) by {
            if k >= n {
                let i = k - n;
                assert(after.arena[n + i] == child_node(
                    st.arena[idx].refz,
                    zones,
                    child_cell(leaf.cell, i),
                ));
                assert(g.cells[n + i] == child_cell(leaf.cell, i));
                assert(g.depths[n + i] == leaf.depth + 1);
                assert(h4.contains(child_entry(st.arena, leaf, zones, arcs, i)));
            } else if k != idx {
                assert(leaf_settled(st, zones, arcs, f, k));
                assert(after.arena[k] == st.arena[k]);
                assert(g.cells[k] == f.cells[k]);
                assert(g.depths[k] == f.depths[k]);
                let e = entry_of(st.arena[k], k, f.cells[k], f.depths[k] as int, zones, arcs);
                assert(e.idx == k);
                assert(st.heap.contains(e) ==> rest.contains(e));
            }
        }
        assert(after.arena.len() == n + 4);
    }
}

spec fn pow5(n: nat) -> int
    decreases n,
{
    if n == 0 {
        1
    } else {
        5 * pow5((n - 1) as nat)
    }
}

proof fn lemma_pow5(n: nat)
    ensures
        pow5(n) >= 1,
    decreases n,
{
    if n > 0 {
        lemma_pow5((n - 1) as nat);
    }
}

/// An upper bound on the splits that the first `k` nodes can still see.
spec fn split_room(arena: Seq<NodeView>, depths: Seq<nat>, k: int) -> int
    decreases k,
{
    if k <= 0 {
        0
    } else {
        split_room(arena, depths, k - 1) + if arena[k - 1].q is None {
            pow5((MAX_DEPTH + 1 - depths[k - 1]) as nat)
        } else {
            0
        }
    }
}

proof fn lemma_split_room_nonnegative(arena: Seq<NodeView>, depths: Seq<nat>, k: int)
    ensures
        split_room(arena, depths, k) >= 0,
    decreases k,
{
    if k > 0 {
        lemma_split_room_nonnegative(arena, depths, k - 1);
        lemma_pow5((MAX_DEPTH + 1 - depths[k - 1]) as nat);
    }
}

proof fn lemma_split_room_prefix(
    arena: Seq<NodeView>,
    f: Frame,
    leaf: Entry,
    zones: Seq<Zone>,
    k: int,
)
    requires
        0 <= k <= arena.len(),
        f.depths.len() == arena.len(),
        leaf.idx < arena.len(),
        arena[leaf.idx as int].q is None,
    ensures
        split_room(
            split_arena(arena, leaf, zones),
            split_frame(f, arena, leaf, zones).depths,
            k,
        ) == split_room(arena, f.depths, k) - if k > leaf.idx {
            pow5((MAX_DEPTH + 1 - f.depths[leaf.idx as int]) as nat)
        } else {
            0
        },
    decreases k,
{
    if k > 0 {
        lemma_split_room_prefix(arena, f, leaf, zones, k - 1);
    }
}

/// A split uses room up.
proof fn lemma_split_room(arena: Seq<NodeView>, f: Frame, leaf: Entry, zones: Seq<Zone>)
    requires
        f.depths.len() == arena.len(),
        leaf.idx < arena.len(),
        arena[leaf.idx as int].q is None,
        leaf.depth == f.depths[leaf.idx as int],
        leaf.depth < MAX_DEPTH,
    ensures
        split_room(
            split_arena(arena, leaf, zones),
            split_frame(f, arena, leaf, zones).depths,
            arena.len() as int + 4,
        ) < split_room(arena, f.depths, arena.len() as int),
{
    let after = split_arena(arena, leaf, zones);
    let depths = split_frame(f, arena, leaf, zones).depths;
    let n = arena.len() as int;
    lemma_split_room_prefix(arena, f, leaf, zones, n);
    reveal_with_fuel(split_room, 5);
    assert(forall|i: int| 0 <= i < 4 ==> after[#[trigger] (n + i)].q is None && depths[n + i]
        == leaf.depth + 1);
    assert(after[n + 0].q is None && after[n + 1].q is None && after[n + 2].q is None
        && after[n + 3].q is None);
    lemma_pow5((MAX_DEPTH - leaf.depth) as nat);
    assert(pow5((MAX_DEPTH + 1 - leaf.depth) as nat) == 5 * pow5((MAX_DEPTH - leaf.depth) as nat));
}

/// The leaf for a cell, out of the zones that its parent left to test.
fn child_leaf(cell: &Aabb, refz: &[usize], zones: &[Zone]) -> (r: Node)
    requires
        is_box(*cell),
        ids_below(refz@, zones@.len() as int),
        forall|i: int| 0 <= i < zones@.len() ==> (#[trigger] zones@[i]).boxes_match(),
    ensures
        r@ == child_node(refz@, zones@, *cell),
{
    let mut child = Node::leaf();
    let mut k: usize = 0;
    while k < refz.len()
        invariant
            is_box(*cell),
            ids_below(refz@, zones@.len() as int),
            forall|i: int| 0 <= i < zones@.len() ==> (#[trigger] zones@[i]).boxes_match(),
            0 <= k <= refz@.len(),
            child@ == child_node(refz@.take(k as int), zones@, *cell),
        decreases refz.len() - k,
    {
        let z = refz[k];
        let ghost longer = refz@.take(k + 1);
        let ghost before = child@;
        proof {
            assert(longer.drop_last() =~= refz@.take(k as int));
            assert(longer.last() == z);
            assert(zones@[z as int].boxes_match());
        }
        match classify(cell, &zones[z]) {
            Rel::Definite => {
                child.eref.push(z);
                assert(child@.eref =~= before.eref.push(z));
            },
            Rel::Candidate => {
                child.refz.push(z);
                assert(child@.refz =~= before.refz.push(z));
            },
            Rel::Disjoint => {},
        }
        proof {
            assert(child@ =~= child_node(longer, zones@, *cell));
        }
        k += 1;
    }
    proof {
        assert(refz@.take(k as int) =~= refz@);
    }
    child
}

proof fn lemma_ids_exist(refz: Seq<usize>, zones: Seq<Zone>, n: int)
    requires
        ids_below(refz, zones.len() as int),
        forall|i: int| 0 <= i < zones.len() ==> zone_refs_exist(#[trigger] zones[i], n),
    ensures
        list_exists(refz, zones, n),
{
}

/// A cost that can be computed.
pub proof fn lemma_cost_fits(
    refz: Seq<usize>,
    zones: Seq<Zone>,
    arcs: Seq<Seq<Pt>>,
    cell: Aabb,
    depth: int,
)
    requires
        list_weight(refz, zones, arcs) <= WEIGHT_LIMIT,
        0 <= depth <= MAX_DEPTH,
    ensures
        0 <= reducible_cost(refz, zones, arcs, cell, depth) <= i64::MAX,
{
    lemma_list_cost(refz, zones, arcs, cell);
}

impl Output {
    /// Every zone's references name arcs.
    pub open spec fn refs_in_range(&self) -> bool {
        forall|i: int|
            0 <= i < self.zones@.len() ==> zone_refs_exist(
                #[trigger] self.zones@[i],
                self.arcs@.len() as int,
            )
    }

    /// Turn a leaf into an inner node with four new leaves, and give their
    /// entries.
    fn split_leaf(&mut self, leaf: Entry) -> (r: Vec<Entry>)
        requires
            old(self).well_formed(),
            old(self).refs_in_range(),
            leaf.idx < old(self).arena@.len(),
            leaf.depth < MAX_DEPTH,
            is_cell_at(leaf.cell, leaf.depth as nat),
            ids_below(old(self).arena@[leaf.idx as int].refz@, old(self).zones@.len() as int),
            list_weight(
                old(self).arena@[leaf.idx as int].refz@,
                old(self).zones@,
                deep(old(self).arcs@),
            ) <= WEIGHT_LIMIT,
        ensures
            arena_view(final(self).arena@) == split_arena(
                arena_view(old(self).arena@),
                leaf,
                old(self).zones@,
            ),
            final(self).root == old(self).root,
            final(self).zones == old(self).zones,
            final(self).tz == old(self).tz,
            final(self).arcs == old(self).arcs,
            final(self).arc_packed == old(self).arc_packed,
            r@.len() == 4,
            forall|i: int|
                0 <= i < 4 ==> #[trigger] r@[i] == child_entry(
                    arena_view(old(self).arena@),
                    leaf,
                    old(self).zones@,
                    deep(old(self).arcs@),
                    i,
                ),
    {
        let mut refz: Vec<usize> = Vec::new();
        let idx = leaf.idx;
        std::mem::swap(&mut refz, &mut self.arena[idx].refz);
        let ghost start = old(self).arena@;
        let ghost emptied = self.arena@;
        let mut entries: Vec<Entry> = Vec::with_capacity(4);
        let base = self.arena.len();
        let mut i: usize = 0;
        while i < 4
            invariant
                0 <= i <= 4,
                self.well_formed(),
                self.refs_in_range(),
                self.root == old(self).root,
                self.zones == old(self).zones,
                self.tz == old(self).tz,
                self.arcs == old(self).arcs,
                self.arc_packed == old(self).arc_packed,
                base == start.len(),
                start == old(self).arena@,
                emptied.len() == start.len(),
                emptied[idx as int]@ == (NodeView {
                    refz: Seq::empty(),
                    ..start[idx as int]@
                }),
                forall|k: int| 0 <= k < start.len() && k != idx ==> emptied[k] == start[k],
                idx == leaf.idx,
                idx < start.len(),
                refz@ == start[idx as int].refz@,
                leaf.depth < MAX_DEPTH,
                is_cell_at(leaf.cell, leaf.depth as nat),
                ids_below(refz@, self.zones@.len() as int),
                list_weight(refz@, self.zones@, deep(self.arcs@)) <= WEIGHT_LIMIT,
                self.arena@.len() == base + i,
                self.arena@.take(base as int) == emptied,
                forall|k: int|
                    0 <= k < i ==> (#[trigger] self.arena@[base + k])@ == child_node(
                        refz@,
                        self.zones@,
                        child_cell(leaf.cell, k),
                    ),
                entries@.len() == i,
                forall|k: int|
                    0 <= k < i ==> #[trigger] entries@[k] == child_entry(
                        arena_view(start),
                        leaf,
                        self.zones@,
                        deep(self.arcs@),
                        k,
                    ),
            decreases 4 - i,
        {
            proof {
                law_midpoints_exact(leaf.cell, leaf.depth as nat, i as int);
                lemma_cell_is_box(child_cell(leaf.cell, i as int), (leaf.depth + 1) as nat);
            }
            let cell = split_cell(&leaf.cell, i);
            let child = child_leaf(&cell, refz.as_slice(), self.zones.as_slice());
            proof {
                lemma_with_relation_ids(
                    refz@,
                    self.zones@,
                    cell,
                    Rel::Candidate,
                    self.zones@.len() as int,
                );
                lemma_with_relation_weight(
                    refz@,
                    self.zones@,
                    deep(self.arcs@),
                    cell,
                    Rel::Candidate,
                );
                assert(child.refz@ == child@.refz);
                lemma_ids_exist(child.refz@, self.zones@, self.arcs@.len() as int);
                lemma_cost_fits(
                    child.refz@,
                    self.zones@,
                    deep(self.arcs@),
                    cell,
                    leaf.depth + 1,
                );
            }
            let cost = leaf_cost(
                child.refz.as_slice(),
                self.zones.as_slice(),
                self.arcs.as_slice(),
                &cell,
                leaf.depth + 1,
            );
            let at = self.arena.len();
            let ghost before = self.arena@;
            self.arena.push(child);
            entries.push(Entry { cost, idx: at, cell, depth: leaf.depth + 1 });
            proof {
                assert(self.arena@.take(base as int) =~= before.take(base as int));
                assert(arena_view(start)[idx as int].refz == refz@);
                assert forall|k: int| 0 <= k < i + 1 implies (#[trigger] self.arena@[base + k])@
                    == child_node(refz@, self.zones@, child_cell(leaf.cell, k)) by {
                    if k < i {
                        assert(self.arena@[base + k] == before[base + k]);
                    }
                }
            }
            i += 1;
        }
        let grown_len = self.arena.len();
        proof {
            assert(base + 4 == grown_len);
            assert(self.arena@.take(base as int)[idx as int] == self.arena@[idx as int]);
        }
        let ghost grown = self.arena@;
        self.arena[idx].q = Some([base, base + 1, base + 2, base + 3]);
        proof {
            let want = split_arena(arena_view(start), leaf, self.zones@);
            let got = arena_view(self.arena@);
            assert(got.len() == want.len());
            assert forall|k: int| 0 <= k < got.len() implies got[k] == want[k] by {
                if k < base {
                    assert(grown.take(base as int)[k] == grown[k]);
                    if k == idx {
                        assert(got[k] =~= want[k]);
                    }
                } else {
                    assert(self.arena@[base + (k - base)]@ == child_node(
                        refz@,
                        self.zones@,
                        child_cell(leaf.cell, k - base),
                    ));
                }
            }
            assert(got =~= want);
        }
        entries
    }
}

/// Every leaf is within the limit, except where subdivision stopped short: at
/// the depth limit, for want of candidates, or for want of budget.
pub open spec fn within_limit(
    arena: Seq<NodeView>,
    zones: Seq<Zone>,
    arcs: Seq<Seq<Pt>>,
    f: Frame,
    op_limit: i64,
    max_splits: Option<usize>,
    stats: SubStats,
) -> bool {
    ||| max_splits matches Some(ms) && stats.splits >= ms
    ||| forall|k: int|
        0 <= k < arena.len() && (#[trigger] arena[k]).q is None ==> {
            ||| reducible_cost(arena[k].refz, zones, arcs, f.cells[k], f.depths[k] as int)
                <= op_limit
            ||| f.depths[k] >= MAX_DEPTH && stats.at_max_depth > 0
            ||| arena[k].refz.len() == 0 && stats.over_limit > 0
        }
}

/// The flat root is a subdivision under way.
pub proof fn lemma_flat(root: NodeView, zones: Seq<Zone>, arcs: Seq<Seq<Pt>>)
    requires
        root == (NodeView { refz: all_ids(zones.len() as int), ..empty_leaf() }),
        zones.len() <= usize::MAX,
        list_weight(root.refz, zones, arcs) <= WEIGHT_LIMIT,
    ensures
        under_way(flat_state(root, zones, arcs), zones, arcs, flat_frame(root)),
{
    let st = flat_state(root, zones, arcs);
    let f = flat_frame(root);
    let e = st.heap[0];
    lemma_root_cell();
    assert forall|p: Pt| #[trigger] in_cell(p, ROOT_CELL) implies accounts_for(
        zones,
        root,
        root.eref,
        p,
    ) by {
        assert forall|z: usize| z < zones.len() implies #[trigger] lists(root, z) by {
            assert(root.refz[z as int] == z);
        }
    }
    assert(node_framed(st.arena, zones, f, 0));
    broadcast use vstd::seq_lib::group_to_multiset_ensures;

    assert(st.heap =~= Seq::<Entry>::empty().push(e));
    vstd::seq_lib::to_multiset_build(Seq::<Entry>::empty(), e);
    assert forall|x: Entry| #[trigger] st.heap.to_multiset().count(x) <= 1 by {
        assert(Seq::<Entry>::empty().to_multiset().len() == 0);
        assert(!Seq::<Entry>::empty().contains(x));
        assert(Seq::<Entry>::empty().to_multiset().count(x) == 0);
    }
    assert forall|x: Entry| #[trigger] st.heap.contains(x) implies stands_for(
        st.arena,
        f,
        zones,
        arcs,
        x,
    ) by {
        assert(x == e);
    }
    assert(st.heap.contains(st.heap[0]));
    assert(leaf_settled(st, zones, arcs, f, 0));
}

/// When a subdivision under way has stopped, its leaves are within the limit.
proof fn lemma_within_limit(
    st: SubState,
    zones: Seq<Zone>,
    arcs: Seq<Seq<Pt>>,
    f: Frame,
    op_limit: i64,
    max_splits: Option<usize>,
    stats: SubStats,
)
    requires
        under_way(st, zones, arcs, f),
        stopped(st, op_limit, max_splits),
        stats.splits == st.splits,
        stats.at_max_depth == st.at_max_depth,
        stats.over_limit >= st.over_limit,
    ensures
        within_limit(st.arena, zones, arcs, f, op_limit, max_splits, stats),
{
    if !(max_splits matches Some(ms) && stats.splits >= ms) {
        assert forall|k: int| 0 <= k < st.arena.len() && (#[trigger] st.arena[k]).q is None implies {
            ||| reducible_cost(st.arena[k].refz, zones, arcs, f.cells[k], f.depths[k] as int)
                <= op_limit
            ||| f.depths[k] >= MAX_DEPTH && stats.at_max_depth > 0
            ||| st.arena[k].refz.len() == 0 && stats.over_limit > 0
        } by {
            assert(leaf_settled(st, zones, arcs, f, k));
            assert(node_framed(st.arena, zones, f, k));
            let e = entry_of(st.arena[k], k, f.cells[k], f.depths[k] as int, zones, arcs);
            lemma_cost_fits(st.arena[k].refz, zones, arcs, f.cells[k], f.depths[k] as int);
            if st.heap.contains(e) {
                let i = choose|i: int| 0 <= i < st.heap.len() && st.heap[i] == e;
                lemma_top_is_costliest(st.heap, i);
            }
        }
    }
}

/// What `subdivide` leaves behind.
pub open spec fn subdivided(
    root: NodeView,
    zones: Seq<Zone>,
    arcs: Seq<Seq<Pt>>,
    op_limit: i64,
    max_splits: Option<usize>,
    after: Seq<NodeView>,
    stats: SubStats,
    n: nat,
) -> bool {
    let st = run(flat_state(root, zones, arcs), zones, arcs, op_limit, max_splits, n);
    &&& stopped(st, op_limit, max_splits)
    &&& after == st.arena
    &&& stats.splits == st.splits
    &&& stats.at_max_depth == st.at_max_depth
    &&& stats.over_limit == st.over_limit + count_over(st.heap, op_limit, st.heap.len() as int)
}

/// How many of the entries cost more than the limit.
fn entries_over(heap: &MaxHeap, op_limit: i64) -> (r: usize)
    ensures
        r == count_over(heap.a@, op_limit, heap.a@.len() as int),
        r <= heap.a@.len(),
{
    let mut over: usize = 0;
    let mut k: usize = 0;
    while k < heap.a.len()
        invariant
            0 <= k <= heap.a@.len(),
            over == count_over(heap.a@, op_limit, k as int),
            over <= k,
        decreases heap.a.len() - k,
    {
        if heap.a[k].cost > op_limit {
            over += 1;
        }
        k += 1;
    }
    over
}

impl Output {
    /// Subdivide the flat root into a quadtree driven by the cost model.
    /// Greedy: repeatedly split the most expensive leaf until every leaf is
    /// within `op_limit`, or the split budget (`max_splits`, which takes
    /// precedence) runs out.
    #[verifier::rlimit(40)]
    pub fn subdivide(&mut self, op_limit: i64, max_splits: Option<usize>) -> (r: SubStats)
        requires
            old(self).well_formed(),
            old(self).is_flat(),
            old(self).refs_in_range(),
            list_weight(
                all_ids(old(self).zones@.len() as int),
                old(self).zones@,
                deep(old(self).arcs@),
            ) <= WEIGHT_LIMIT,
        ensures
            final(self).root == old(self).root,
            final(self).zones == old(self).zones,
            final(self).tz == old(self).tz,
            final(self).arcs == old(self).arcs,
            final(self).arc_packed == old(self).arc_packed,
            exists|n: nat|
                subdivided(
                    old(self).arena@[0]@,
                    old(self).zones@,
                    deep(old(self).arcs@),
                    op_limit,
                    max_splits,
                    arena_view(final(self).arena@),
                    r,
                    n,
                ),
            exists|f: Frame|
                #![trigger framed(arena_view(final(self).arena@), old(self).zones@, f)]
                framed(arena_view(final(self).arena@), old(self).zones@, f) && within_limit(
                    arena_view(final(self).arena@),
                    old(self).zones@,
                    deep(old(self).arcs@),
                    f,
                    op_limit,
                    max_splits,
                    r,
                ),
            is_index(arena_view(final(self).arena@), old(self).zones@),
            forall|k: int|
                0 <= k < final(self).arena@.len() ==> {
                    &&& (#[trigger] final(self).arena@[k]).cands@.len() == 0
                    &&& list_weight(
                        final(self).arena@[k].refz@,
                        old(self).zones@,
                        deep(old(self).arcs@),
                    ) <= WEIGHT_LIMIT
                },
            final(self).well_formed(),
            final(self).refs_in_range(),
    {
        let ghost zones = self.zones@;
        let ghost arcs = deep(self.arcs@);
        let ghost root = self.arena@[0]@;
        let ghost first = flat_state(root, zones, arcs);
        let ghost mut st = first;
        let ghost mut f = flat_frame(root);
        let ghost mut n: nat = 0;
        let mut heap = MaxHeap::new();
        let zone_count = self.zones.len();
        proof {
            assert(zones.len() == zone_count);
            lemma_root_cell();
            lemma_cell_is_box(ROOT_CELL, 0);
            lemma_ids_exist(root.refz, zones, self.arcs@.len() as int);
            lemma_cost_fits(root.refz, zones, arcs, ROOT_CELL, 0);
            lemma_flat(root, zones, arcs);
            assert(self.root == 0);
        }
        let root_cost = leaf_cost(
            self.arena[self.root].refz.as_slice(),
            self.zones.as_slice(),
            self.arcs.as_slice(),
            &ROOT_CELL,
            0,
        );
        heap.push(Entry { cost: root_cost, idx: self.root, cell: ROOT_CELL, depth: 0 });
        proof {
            assert(arena_view(self.arena@) =~= first.arena);
            assert(heap.a@ =~= first.heap);
        }
        let mut splits: usize = 0;
        let mut at_max_depth: usize = 0;
        let mut over_limit: usize = 0;
        let mut done = false;
        while !done
            invariant
                self.well_formed(),
                self.refs_in_range(),
                self.root == old(self).root,
                self.zones == old(self).zones,
                self.tz == old(self).tz,
                self.arcs == old(self).arcs,
                self.arc_packed == old(self).arc_packed,
                zones == self.zones@,
                arcs == deep(self.arcs@),
                first == flat_state(root, zones, arcs),
                under_way(st, zones, arcs, f),
                st == run(first, zones, arcs, op_limit, max_splits, n),
                st.arena == arena_view(self.arena@),
                st.heap == heap.a@,
                st.splits == splits,
                st.at_max_depth == at_max_depth,
                st.over_limit == over_limit,
                done ==> stopped(st, op_limit, max_splits),
            decreases
                    split_room(st.arena, f.depths, st.arena.len() as int),
                    st.heap.len(),
                    !done as int,
        {
            let top = heap.peek();
            let finished = match top {
                None => true,
                Some(e) => e.cost <= op_limit || match max_splits {
                    Some(ms) => splits >= ms,
                    None => false,
                },
            };
            if finished {
                done = true;
            } else {
                let size = self.arena.len();
                let ghost before = st;
                let ghost f_before = f;
                let popped_leaf = heap.pop();
                match popped_leaf {
                    None => {
                        done = true;
                    },
                    Some(leaf) => {
                        proof {
                            assert(st.heap.contains(st.heap[0]));
                            assert(stands_for(st.arena, f, zones, arcs, leaf));
                            assert(node_framed(st.arena, zones, f, leaf.idx as int));
                            assert(st.arena[leaf.idx as int].cands.len() == 0);
                            lemma_rest(st.heap);
                            lemma_split_room_nonnegative(
                                st.arena,
                                f.depths,
                                st.arena.len() as int,
                            );
                            st = step(before, zones, arcs);
                            f = step_frame(before, zones, f_before);
                            n = n + 1;
                        }
                        if leaf.depth >= MAX_DEPTH {
                            at_max_depth += 1;
                        } else if self.arena[leaf.idx].refz.len() == 0 {
                            // splitting an edgeless leaf only adds depth
                            over_limit += 1;
                        } else {
                            let entries = self.split_leaf(leaf);
                            splits += 1;
                            heap.push(entries[0]);
                            heap.push(entries[1]);
                            heap.push(entries[2]);
                            heap.push(entries[3]);
                            let grown = self.arena.len();
                            proof {
                                assert(arena_view(self.arena@).len() == grown);
                                lemma_split_room(before.arena, f_before, leaf, zones);
                                lemma_split_room_nonnegative(
                                    st.arena,
                                    f.depths,
                                    st.arena.len() as int,
                                );
                            }
                        }
                        proof {
                            assert(st.arena =~= arena_view(self.arena@));
                            lemma_step(before, zones, arcs, f_before);
                        }
                    },
                }
            }
        }
        // leaves still over the limit when the split budget ran out
        let left = entries_over(&heap, op_limit);
        proof {
            assert(self.arena.len() == self.arena@.len());
        }
        let r = SubStats { splits, at_max_depth, over_limit: over_limit + left };
        proof {
            lemma_within_limit(st, zones, arcs, f, op_limit, max_splits, r);
            assert(subdivided(
                root,
                zones,
                arcs,
                op_limit,
                max_splits,
                arena_view(self.arena@),
                r,
                n,
            ));
            assert(framed(arena_view(self.arena@), zones, f));
            assert forall|k: int| 0 <= k < self.arena@.len() implies {
                &&& (#[trigger] self.arena@[k]).cands@.len() == 0
                &&& list_weight(self.arena@[k].refz@, zones, arcs) <= WEIGHT_LIMIT
            } by {
                assert(st.arena[k] == self.arena@[k]@);
            }
        }
        r
    }
}

/// The ids stand in ascending order, each once.
pub open spec fn is_ascending(ids: Seq<usize>) -> bool {
    forall|i: int, j: int| 0 <= i < j < ids.len() ==> ids[i] < ids[j]
}

/// The zones that a child takes over from its parent stay in their order: those
/// that a child settles and those that it keeps for testing are, each, the ids of
/// the parent's list with that relation to the child's cell, in ascending order
/// where the parent's list is.
pub proof fn law_children_keep_the_order(
    refz: Seq<usize>,
    zones: Seq<Zone>,
    cell: Aabb,
    rel: Rel,
)
    requires
        is_ascending(refz),
    ensures
        is_ascending(with_relation(refz, zones, cell, rel)),
        forall|z: usize| #[trigger]
            with_relation(refz, zones, cell, rel).contains(z) <==> refz.contains(z)
                && zone_relation(cell, zones[z as int]) == rel,
    decreases refz.len(),
{
    assert forall|z: usize| #[trigger]
        with_relation(refz, zones, cell, rel).contains(z) <==> refz.contains(z) && zone_relation(
            cell,
            zones[z as int],
        ) == rel by {
        lemma_with_relation(refz, zones, cell, rel, z);
    }
    if refz.len() > 0 {
        let shorter = refz.drop_last();
        let before = with_relation(shorter, zones, cell, rel);
        law_children_keep_the_order(shorter, zones, cell, rel);
        assert forall|i: int| 0 <= i < before.len() implies (#[trigger] before[i]) < refz.last() by {
            assert(before.contains(before[i]));
            assert(shorter.contains(before[i]));
            let k = choose|k: int| 0 <= k < shorter.len() && shorter[k] == before[i];
            assert(refz[k] == before[i]);
        }
    }
}

/// A zone that stays open in a leaf has its boundary in the leaf's cell; one whose
/// boundary is not there is settled or gone.
pub proof fn law_children_test_only_what_is_open(
    refz: Seq<usize>,
    zones: Seq<Zone>,
    cell: Aabb,
    z: usize,
)
    requires
        zones[z as int].boxes_match(),
        child_node(refz, zones, cell).refz.contains(z),
    ensures
        ring_touches(zones[z as int].outer@, cell) || some_hole_touches(cell, zones[z as int]),
        !child_node(refz, zones, cell).eref.contains(z),
{
    lemma_with_relation(refz, zones, cell, Rel::Candidate, z);
    lemma_with_relation(refz, zones, cell, Rel::Definite, z);
    law_only_a_boundary_leaves_a_zone_open(cell, zones[z as int]);
}

/// The positions among the first `k` whose entries cost more than the limit.
pub open spec fn positions_over(heap: Seq<Entry>, op_limit: i64, k: int) -> Set<int> {
    Set::new(|i: int| 0 <= i < k && heap[i].cost > op_limit)
}

/// The leaves that are left over the limit are counted one by one.
pub proof fn law_every_costly_leaf_counts(heap: Seq<Entry>, op_limit: i64, k: int)
    requires
        0 <= k <= heap.len(),
    ensures
        positions_over(heap, op_limit, k).finite(),
        count_over(heap, op_limit, k) == positions_over(heap, op_limit, k).len(),
    decreases k,
{
    let all = positions_over(heap, op_limit, k);
    if k == 0 {
        assert(all =~= Set::empty());
    } else {
        law_every_costly_leaf_counts(heap, op_limit, k - 1);
        let before = positions_over(heap, op_limit, k - 1);
        if heap[k - 1].cost > op_limit {
            assert(all =~= before.insert(k - 1));
        } else {
            assert(all =~= before);
        }
    }
}

/// The budget is kept: never are more leaves split than it allows.
pub proof fn law_budget_is_kept(
    st: SubState,
    zones: Seq<Zone>,
    arcs: Seq<Seq<Pt>>,
    op_limit: i64,
    budget: usize,
    n: nat,
)
    requires
        st.splits <= budget,
    ensures
        run(st, zones, arcs, op_limit, Some(budget), n).splits <= budget,
    decreases n,
{
    if n > 0 {
        law_budget_is_kept(st, zones, arcs, op_limit, budget, (n - 1) as nat);
    }
}

/// What one step of a subdivision does: the leaf that it takes is a costliest of
/// those that wait, costs more than the limit, and is within the budget.  A leaf
/// that can be split gets four children in the order of the quadrants, which join
/// those that wait; any other is counted once and waits no longer.  No other node
/// changes.
pub proof fn law_step_takes_the_costliest_leaf(
    st: SubState,
    zones: Seq<Zone>,
    arcs: Seq<Seq<Pt>>,
    f: Frame,
    op_limit: i64,
    max_splits: Option<usize>,
)
    requires
        under_way(st, zones, arcs, f),
        !stopped(st, op_limit, max_splits),
        st.arena.len() + 4 <= usize::MAX,
    ensures
        ({
            let leaf = st.heap[0];
            let idx = leaf.idx as int;
            let after = step(st, zones, arcs);
            let splits = f.depths[idx] < MAX_DEPTH && st.arena[idx].refz.len() > 0;
            &&& 0 <= idx < st.arena.len()
            &&& st.arena[idx].q is None
            &&& leaf.cost > op_limit
            &&& forall|e: Entry| #[trigger] st.heap.contains(e) ==> e.cost <= leaf.cost
            &&& max_splits matches Some(budget) ==> st.splits < budget
            &&& forall|k: int|
                0 <= k < st.arena.len() && k != idx ==> #[trigger] after.arena[k] == st.arena[k]
            &&& after.heap.len() == st.heap.len() - 1 + (if splits {
                4int
            } else {
                0
            })
            &&& splits ==> {
                &&& after.splits == st.splits + 1
                &&& after.at_max_depth == st.at_max_depth
                &&& after.over_limit == st.over_limit
                &&& after.arena.len() == st.arena.len() + 4
                &&& after.arena[idx].refz.len() == 0
                &&& after.arena[idx].eref == st.arena[idx].eref
                &&& after.arena[idx].q matches Some(ch) && forall|i: int|
                    0 <= i < 4 ==> #[trigger] ch[i] == st.arena.len() + i
            }
            &&& !splits ==> {
                &&& after.splits == st.splits
                &&& after.arena == st.arena
                &&& after.at_max_depth + after.over_limit == st.at_max_depth + st.over_limit + 1
                &&& after.at_max_depth > st.at_max_depth <==> f.depths[idx] == MAX_DEPTH
                &&& after.over_limit >= st.over_limit
            }
        }),
{
    let leaf = st.heap[0];
    let idx = leaf.idx as int;
    let after = step(st, zones, arcs);
    assert(st.heap.contains(leaf));
    assert(stands_for(st.arena, f, zones, arcs, leaf));
    assert(node_framed(st.arena, zones, f, idx));
    assert forall|e: Entry| #[trigger] st.heap.contains(e) implies e.cost <= leaf.cost by {
        let i = choose|i: int| 0 <= i < st.heap.len() && st.heap[i] == e;
        lemma_top_is_costliest(st.heap, i);
    }
    let rest = popped(st.heap);
    law_pop(st.heap);
    lemma_multiset_len(st.heap);
    lemma_multiset_len(rest);
    assert(st.heap.to_multiset().count(leaf) > 0) by {
        broadcast use vstd::seq_lib::group_to_multiset_ensures;

    }
    assert(rest.len() == st.heap.len() - 1);
    if leaf.depth < MAX_DEPTH && st.arena[idx].refz.len() > 0 {
        let e0 = child_entry(st.arena, leaf, zones, arcs, 0);
        let e1 = child_entry(st.arena, leaf, zones, arcs, 1);
        let e2 = child_entry(st.arena, leaf, zones, arcs, 2);
        let e3 = child_entry(st.arena, leaf, zones, arcs, 3);
        let h1 = pushed(rest, e0);
        let h2 = pushed(h1, e1);
        let h3 = pushed(h2, e2);
        law_push(rest, e0);
        law_push(h1, e1);
        law_push(h2, e2);
        law_push(h3, e3);
        lemma_multiset_len(h1);
        lemma_multiset_len(h2);
        lemma_multiset_len(h3);
        lemma_multiset_len(pushed(h3, e3));
        assert(after.heap == pushed(h3, e3));
    }
}

proof fn lemma_multiset_len(a: Seq<Entry>)
    ensures
        a.to_multiset().len() == a.len(),
{
    broadcast use vstd::seq_lib::group_to_multiset_ensures;

}

} // verus!
