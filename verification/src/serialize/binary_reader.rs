//! What a reader of the binary format gets back: the counts of the header, the
//! tree that it descends, and the records behind the ranks that the tree names.
use vstd::prelude::*;
use vstd::utf8::encode_utf8;

use crate::artifact::{arena_view, CandView, NodeView, Output, RunsView, Zone};
use crate::geom::{Aabb, Pt};
use crate::lookup::{child_cell, quadrant_of};
use crate::quant::{MAX_DEPTH, X_MAX, X_MIN, Y_MAX, Y_MIN};
use crate::resolve::descent;
use crate::serialize::binary::{
    artifact_header, binary_bytes, binary_outcome, header_bytes, law_binary_round_trip, le_bytes,
    ranked_names, ranked_zones, times_listed, times_named, tz_names, tz_order, wire_tree, zone_keys,
    zone_order, SCALE_BITS, VERSION,
};
use crate::serialize::names::{get_names, names_bytes, names_writable};
use crate::serialize::order::{
    by_key, by_name, in_order, lemma_in_order, lemma_in_order_sorted, lists_all, ranks_in,
};
use crate::serialize::sections::{
    arcs_bytes, get_arc_section, get_zones, wire_arcs, wire_refs, wire_zone, zones_bytes, WireArcs,
    WireRefs, WireZone,
};
use crate::serialize::stream::{holds_at, lemma_holds_two};
use crate::serialize::tree::{get_node, node_bytes, WireCand, WireNode, WireRuns};
use crate::serialize::tree_writer::{
    cand_zones, node_writable, ranks_of, tree_writable, wire_cand, wire_cands, wire_eref, wire_node,
    wire_pairs, wire_runs,
};
use crate::serialize::Outcome;
use crate::topology::ArcRef;

verus! {

// --- the header ---

/// The number that bytes stand for, the lowest first.
pub open spec fn le_value(bytes: Seq<u8>) -> int
    decreases bytes.len(),
{
    if bytes.len() == 0 {
        0
    } else {
        bytes[0] + 256 * le_value(bytes.skip(1))
    }
}

/// An unsigned number of that many bytes at the position.
pub open spec fn get_unsigned(bytes: Seq<u8>, pos: int, n: int) -> int {
    le_value(bytes.subrange(pos, pos + n))
}

/// A signed number of four bytes at the position, in two's complement.
pub open spec fn get_signed32(bytes: Seq<u8>, pos: int) -> int {
    let v = get_unsigned(bytes, pos, 4);
    if v >= 0x8000_0000 {
        v - 0x1_0000_0000
    } else {
        v
    }
}

proof fn lemma_le_value(v: int)
    ensures
        le_bytes(v, 2).len() == 2,
        le_value(le_bytes(v, 2)) == v % 0x1_0000,
        le_bytes(v, 4).len() == 4,
        le_value(le_bytes(v, 4)) == v % 0x1_0000_0000,
{
    let (a, b, c) = (v / 256, v / 256 / 256, v / 256 / 256 / 256);
    let (b0, b1, b2, b3) = (
        (v % 256) as u8,
        (a % 256) as u8,
        (b % 256) as u8,
        (c % 256) as u8,
    );
    assert(le_bytes(v / 65536, 0) =~= Seq::empty());
    assert(le_bytes(c / 256, 0) =~= Seq::<u8>::empty());
    assert(le_bytes(c, 1) =~= seq![b3]);
    assert(le_bytes(b, 2) =~= seq![b2, b3]);
    assert(le_bytes(a, 3) =~= seq![b1, b2, b3]);
    assert(le_bytes(v, 4) =~= seq![b0, b1, b2, b3]);
    assert(le_bytes(b, 0) =~= Seq::<u8>::empty());
    assert(le_bytes(a, 1) =~= seq![b1]);
    assert(le_bytes(v, 2) =~= seq![b0, b1]);
    lemma_two_bytes(b0, b1);
    lemma_four_bytes(b0, b1, b2, b3);
}

proof fn lemma_two_bytes(b0: u8, b1: u8)
    ensures
        le_value(seq![b0, b1]) == b0 + 256 * b1,
{
    assert(seq![b0, b1].skip(1) =~= seq![b1]);
    assert(seq![b1].skip(1) =~= Seq::empty());
    assert(le_value(Seq::<u8>::empty()) == 0);
    assert(le_value(seq![b1]) == b1);
}

proof fn lemma_four_bytes(b0: u8, b1: u8, b2: u8, b3: u8)
    ensures
        le_value(seq![b0, b1, b2, b3]) == b0 + 256 * b1 + 65536 * b2 + 16777216 * b3,
{
    lemma_two_bytes(b2, b3);
    assert(seq![b0, b1, b2, b3].skip(1) =~= seq![b1, b2, b3]);
    assert(seq![b1, b2, b3].skip(1) =~= seq![b2, b3]);
    assert(le_value(seq![b1, b2, b3]) == b1 + 256 * le_value(seq![b2, b3]));
}

proof fn lemma_le_len(v: int, n: int)
    requires
        0 <= n,
    ensures
        le_bytes(v, n).len() == n,
    decreases n,
{
    if n > 0 {
        lemma_le_len(v / 256, n - 1);
    }
}

/// The stretch that is read stands there.
proof fn lemma_get(bytes: Seq<u8>, pos: int, v: int)
    ensures
        holds_at(bytes, pos, le_bytes(v, 2)) ==> get_unsigned(bytes, pos, 2) == v % 0x1_0000,
        holds_at(bytes, pos, le_bytes(v, 4)) ==> get_unsigned(bytes, pos, 4) == v % 0x1_0000_0000,
{
    lemma_le_value(v);
}

/// The header shows the counts, the domain and the greatest depth, each at its
/// place.
pub open spec fn shows_header(bytes: Seq<u8>, out: Output) -> bool {
    &&& bytes.len() >= 56
    &&& bytes.subrange(0, 4) == seq![84u8, 90, 81, 84]
    &&& get_unsigned(bytes, 4, 2) == VERSION
    &&& get_signed32(bytes, 6) == X_MIN
    &&& get_signed32(bytes, 10) == X_MAX
    &&& get_signed32(bytes, 14) == Y_MIN
    &&& get_signed32(bytes, 18) == Y_MAX
    &&& get_unsigned(bytes, 38, 2) == MAX_DEPTH
    &&& get_unsigned(bytes, 40, 4) == out.zones@.len() % 0x1_0000_0000
    &&& get_unsigned(bytes, 44, 4) == out.tz@.len() % 0x1_0000_0000
    &&& get_unsigned(bytes, 48, 4) == out.arena@.len() % 0x1_0000_0000
    &&& get_unsigned(bytes, 52, 4) == out.arc_packed@.len() % 0x1_0000_0000
}

/// The fields of the header follow each other at fixed places.
#[verifier::spinoff_prover]
proof fn lemma_header_fields(
    bytes: Seq<u8>,
    pos: int,
    zones: int,
    tz: int,
    nodes: int,
    arcs: int,
)
    requires
        pos == 0,
        holds_at(bytes, pos, header_bytes(zones, tz, nodes, arcs)),
    ensures
        header_bytes(zones, tz, nodes, arcs).len() == 56,
        holds_at(bytes, 0, seq![84u8, 90, 81, 84]),
        holds_at(bytes, 4, le_bytes(VERSION as int, 2)),
        holds_at(bytes, 6, le_bytes(X_MIN as int, 4)),
        holds_at(bytes, 10, le_bytes(X_MAX as int, 4)),
        holds_at(bytes, 14, le_bytes(Y_MIN as int, 4)),
        holds_at(bytes, 18, le_bytes(Y_MAX as int, 4)),
        holds_at(bytes, 38, le_bytes(MAX_DEPTH as int, 2)),
        holds_at(bytes, 40, le_bytes(zones, 4)),
        holds_at(bytes, 44, le_bytes(tz, 4)),
        holds_at(bytes, 48, le_bytes(nodes, 4)),
        holds_at(bytes, 52, le_bytes(arcs, 4)),
{
    lemma_le_len(VERSION as int, 2);
    lemma_le_len(X_MIN as int, 4);
    lemma_le_len(X_MAX as int, 4);
    lemma_le_len(Y_MIN as int, 4);
    lemma_le_len(Y_MAX as int, 4);
    lemma_le_len(SCALE_BITS as int, 8);
    lemma_le_len(MAX_DEPTH as int, 2);
    lemma_le_len(zones, 4);
    lemma_le_len(tz, 4);
    lemma_le_len(nodes, 4);
    lemma_le_len(arcs, 4);
    let h0 = seq![84u8, 90, 81, 84];
    let h1 = h0 + le_bytes(VERSION as int, 2);
    let h2 = h1 + le_bytes(X_MIN as int, 4);
    let h3 = h2 + le_bytes(X_MAX as int, 4);
    let h4 = h3 + le_bytes(Y_MIN as int, 4);
    let h5 = h4 + le_bytes(Y_MAX as int, 4);
    let h6 = h5 + le_bytes(SCALE_BITS as int, 8);
    let h7 = h6 + le_bytes(SCALE_BITS as int, 8);
    let h8 = h7 + le_bytes(MAX_DEPTH as int, 2);
    let h9 = h8 + le_bytes(zones, 4);
    let h10 = h9 + le_bytes(tz, 4);
    let h11 = h10 + le_bytes(nodes, 4);
    lemma_holds_two(bytes, 0, h11, le_bytes(arcs, 4));
    lemma_holds_two(bytes, 0, h10, le_bytes(nodes, 4));
    lemma_holds_two(bytes, 0, h9, le_bytes(tz, 4));
    lemma_holds_two(bytes, 0, h8, le_bytes(zones, 4));
    lemma_holds_two(bytes, 0, h7, le_bytes(MAX_DEPTH as int, 2));
    lemma_holds_two(bytes, 0, h6, le_bytes(SCALE_BITS as int, 8));
    lemma_holds_two(bytes, 0, h5, le_bytes(SCALE_BITS as int, 8));
    lemma_holds_two(bytes, 0, h4, le_bytes(Y_MAX as int, 4));
    lemma_holds_two(bytes, 0, h3, le_bytes(Y_MIN as int, 4));
    lemma_holds_two(bytes, 0, h2, le_bytes(X_MAX as int, 4));
    lemma_holds_two(bytes, 0, h1, le_bytes(X_MIN as int, 4));
    lemma_holds_two(bytes, 0, h0, le_bytes(VERSION as int, 2));
}

/// What stands at the front stays there when more follows.
proof fn lemma_holds_longer(front: Seq<u8>, more: Seq<u8>, chunk: Seq<u8>)
    requires
        holds_at(front, 0, chunk),
    ensures
        holds_at(front + more, 0, chunk),
{
    assert((front + more).subrange(0, chunk.len() as int) =~= front.subrange(
        0,
        chunk.len() as int,
    ));
}

/// Behind a header the sections follow.
proof fn lemma_header_first(
    head: Seq<u8>,
    tree: Seq<u8>,
    arcs: Seq<u8>,
    zones: Seq<u8>,
    names: Seq<u8>,
)
    ensures
        holds_at(head + tree + arcs + zones + names, 0, head),
{
    assert(head.subrange(0, head.len() as int) =~= head);
    lemma_holds_longer(head, tree, head);
    lemma_holds_longer(head + tree, arcs, head);
    lemma_holds_longer(head + tree + arcs, zones, head);
    lemma_holds_longer(head + tree + arcs + zones, names, head);
}

/// The header reads back, wherever bytes start with one.
proof fn lemma_header_reads(bytes: Seq<u8>, zones: int, tz: int, nodes: int, arcs: int)
    requires
        holds_at(bytes, 0, header_bytes(zones, tz, nodes, arcs)),
    ensures
        bytes.len() >= 56,
        header_bytes(zones, tz, nodes, arcs).len() == 56,
        bytes.subrange(0, 4) == seq![84u8, 90, 81, 84],
        get_unsigned(bytes, 4, 2) == VERSION,
        get_signed32(bytes, 6) == X_MIN,
        get_signed32(bytes, 10) == X_MAX,
        get_signed32(bytes, 14) == Y_MIN,
        get_signed32(bytes, 18) == Y_MAX,
        get_unsigned(bytes, 38, 2) == MAX_DEPTH,
        get_unsigned(bytes, 40, 4) == zones % 0x1_0000_0000,
        get_unsigned(bytes, 44, 4) == tz % 0x1_0000_0000,
        get_unsigned(bytes, 48, 4) == nodes % 0x1_0000_0000,
        get_unsigned(bytes, 52, 4) == arcs % 0x1_0000_0000,
{
    lemma_header_fields(bytes, 0, zones, tz, nodes, arcs);
    lemma_get(bytes, 4, VERSION as int);
    lemma_get(bytes, 6, X_MIN as int);
    lemma_get(bytes, 10, X_MAX as int);
    lemma_get(bytes, 14, Y_MIN as int);
    lemma_get(bytes, 18, Y_MAX as int);
    lemma_get(bytes, 38, MAX_DEPTH as int);
    lemma_get(bytes, 40, zones);
    lemma_get(bytes, 44, tz);
    lemma_get(bytes, 48, nodes);
    lemma_get(bytes, 52, arcs);
}

/// What a reader finds in the header of the file.
pub proof fn law_header_shows_the_counts(out: Output)
    ensures
        shows_header(binary_bytes(out), out),
        artifact_header(out).len() == 56,
{
    lemma_header_first(
        artifact_header(out),
        node_bytes(wire_tree(out)),
        arcs_bytes(wire_arcs(out.arc_packed@), 0),
        zones_bytes(ranked_zones(out), 0),
        names_bytes(ranked_names(out)),
    );
    lemma_header_reads(
        binary_bytes(out),
        out.zones@.len() as int,
        out.tz@.len() as int,
        out.arena@.len() as int,
        out.arc_packed@.len() as int,
    );
}

// --- the tree ---

/// A descent for a point through the tree as it is read: the ranks settled on the
/// way, the cell of the leaf, and the candidates of the leaf.
pub open spec fn wire_walk(
    node: WireNode,
    cell: Aabb,
    settled: Seq<int>,
    p: Pt,
) -> (Seq<int>, Aabb, Seq<WireCand>)
    decreases node,
{
    match node {
        WireNode::Leaf(eref, cands) => (settled + eref, cell, cands),
        WireNode::Inner(eref, a, b, c, d) => {
            let qi = quadrant_of(cell, p);
            let below = child_cell(cell, qi);
            if qi == 0 {
                wire_walk(*a, below, settled + eref, p)
            } else if qi == 1 {
                wire_walk(*b, below, settled + eref, p)
            } else if qi == 2 {
                wire_walk(*c, below, settled + eref, p)
            } else {
                wire_walk(*d, below, settled + eref, p)
            }
        },
    }
}

/// The ranks are those of the zones: as many, and the same zones.
pub open spec fn same_zones(ranks: Seq<int>, ids: Seq<usize>, order: Seq<int>) -> bool {
    &&& ranks.len() == ids.len()
    &&& forall|i: int|
        0 <= i < ranks.len() ==> 0 <= (#[trigger] ranks[i]) < order.len() && names_zone(
            ids,
            order[ranks[i]],
        )
    &&& forall|i: int| 0 <= i < ids.len() ==> has_rank_of(ranks, order, #[trigger] ids[i] as int)
}

/// The zone is among the ids.
pub open spec fn names_zone(ids: Seq<usize>, z: int) -> bool {
    exists|k: int| 0 <= k < ids.len() && (#[trigger] ids[k]) == z
}

/// The zone's rank is among the ranks.
pub open spec fn has_rank_of(ranks: Seq<int>, order: Seq<int>, z: int) -> bool {
    exists|k: int| 0 <= k < ranks.len() && order[#[trigger] ranks[k]] == z
}

/// The runs are the runs.
pub open spec fn same_runs(w: WireRuns, e: RunsView) -> bool {
    &&& w.len() == e.len()
    &&& forall|k: int|
        0 <= k < e.len() ==> {
            &&& (#[trigger] w[k]).0 == e[k].0
            &&& w[k].1.len() == e[k].1.len()
            &&& forall|j: int|
                0 <= j < e[k].1.len() ==> (#[trigger] w[k].1[j]).0 == e[k].1[j].0 && w[k].1[j].1
                    == e[k].1[j].1
        }
}

/// The candidate read is the candidate, under its zone's rank.
pub open spec fn same_candidate(w: WireCand, c: CandView, order: Seq<int>) -> bool {
    &&& 0 <= w.z < order.len()
    &&& order[w.z] == c.z
    &&& w.w == c.w
    &&& same_runs(w.e, c.e)
    &&& w.h.len() == c.h.len()
    &&& forall|k: int|
        0 <= k < c.h.len() ==> {
            &&& (#[trigger] w.h[k]).i == c.h[k].i
            &&& w.h[k].w == c.h[k].w
            &&& same_runs(w.h[k].e, c.h[k].e)
        }
}

/// The candidates read are the candidates: as many, each of them there, in
/// ascending order of rank.
pub open spec fn same_candidates(ws: Seq<WireCand>, cs: Seq<CandView>, order: Seq<int>) -> bool {
    &&& ws.len() == cs.len()
    &&& forall|i: int| 0 <= i < ws.len() ==> is_candidate(#[trigger] ws[i], cs, order)
    &&& forall|i: int| 0 <= i < cs.len() ==> is_read(ws, #[trigger] cs[i], order)
    &&& forall|i: int, j: int| 0 <= i < j < ws.len() ==> ws[i].z <= ws[j].z
}

/// The candidate read is one of the candidates.
pub open spec fn is_candidate(w: WireCand, cs: Seq<CandView>, order: Seq<int>) -> bool {
    exists|k: int| 0 <= k < cs.len() && same_candidate(w, #[trigger] cs[k], order)
}

/// The candidate is among those read.
pub open spec fn is_read(ws: Seq<WireCand>, c: CandView, order: Seq<int>) -> bool {
    exists|k: int| 0 <= k < ws.len() && same_candidate(#[trigger] ws[k], c, order)
}

proof fn lemma_rank(order: Seq<int>, z: int)
    requires
        lists_all(order, order.len() as int),
        order.len() <= u64::MAX,
        0 <= z < order.len(),
    ensures
        0 <= ranks_in(order)[z] < order.len(),
        order[ranks_in(order)[z] as int] == z,
{
    assert(order.contains(z));
    let r = order.index_of(z);
    assert(0 <= r < order.len() && order[r] == z);
}

proof fn lemma_settled(eref: Seq<usize>, order: Seq<int>)
    requires
        lists_all(order, order.len() as int),
        order.len() <= u64::MAX,
        forall|i: int| 0 <= i < eref.len() ==> (#[trigger] eref[i]) < order.len(),
    ensures
        same_zones(wire_eref(eref, ranks_in(order)), eref, order),
{
    let ranks = ranks_in(order);
    let keys = ranks_of(eref, ranks);
    let sorted = in_order(by_key(keys), keys.len() as int);
    let w = wire_eref(eref, ranks);
    lemma_in_order(by_key(keys), keys.len() as int);
    assert forall|i: int| 0 <= i < w.len() implies 0 <= (#[trigger] w[i]) < order.len()
        && names_zone(eref, order[w[i]]) by {
        let k = sorted[i];
        assert(0 <= k < eref.len());
        assert(eref[k] < order.len());
        lemma_rank(order, eref[k] as int);
        assert(eref[k] == order[w[i]]);
    }
    assert forall|i: int| 0 <= i < eref.len() implies has_rank_of(
        w,
        order,
        #[trigger] eref[i] as int,
    ) by {
        assert(sorted.contains(i));
        let k = choose|k: int| 0 <= k < sorted.len() && sorted[k] == i;
        lemma_rank(order, eref[i] as int);
        assert(w[k] == keys[i]);
        assert(order[w[k]] == eref[i]);
    }
}

proof fn lemma_same_runs(e: RunsView)
    ensures
        same_runs(wire_runs(e), e),
{
    let w = wire_runs(e);
    assert forall|k: int| 0 <= k < e.len() implies {
        &&& (#[trigger] w[k]).0 == e[k].0
        &&& w[k].1.len() == e[k].1.len()
        &&& forall|j: int|
            0 <= j < e[k].1.len() ==> (#[trigger] w[k].1[j]).0 == e[k].1[j].0 && w[k].1[j].1
                == e[k].1[j].1
    } by {
        assert(w[k].1 == wire_pairs(e[k].1));
    }
}

proof fn lemma_same_candidate(c: CandView, order: Seq<int>, rank: int)
    requires
        0 <= rank < order.len(),
        order[rank] == c.z,
    ensures
        same_candidate(wire_cand(c, rank), c, order),
{
    let w = wire_cand(c, rank);
    lemma_same_runs(c.e);
    assert forall|k: int| 0 <= k < c.h.len() implies {
        &&& (#[trigger] w.h[k]).i == c.h[k].i
        &&& w.h[k].w == c.h[k].w
        &&& same_runs(w.h[k].e, c.h[k].e)
    } by {
        lemma_same_runs(c.h[k].e);
    }
}

#[verifier::spinoff_prover]
proof fn lemma_same_candidates(cands: Seq<CandView>, order: Seq<int>)
    requires
        lists_all(order, order.len() as int),
        order.len() <= u64::MAX,
        forall|i: int| 0 <= i < cands.len() ==> (#[trigger] cands[i]).z < order.len(),
    ensures
        same_candidates(wire_cands(cands, ranks_in(order)), cands, order),
{
    let ranks = ranks_in(order);
    let keys = ranks_of(cand_zones(cands), ranks);
    let before = by_key(keys);
    let sorted = in_order(before, keys.len() as int);
    let ws = wire_cands(cands, ranks);
    lemma_in_order(before, keys.len() as int);
    lemma_in_order_sorted(before, keys.len() as int);
    assert forall|i: int| 0 <= i < ws.len() implies is_candidate(#[trigger] ws[i], cands, order) by {
        let k = sorted[i];
        assert(0 <= k < cands.len());
        assert(cands[k].z < order.len());
        lemma_rank(order, cands[k].z as int);
        lemma_same_candidate(cands[k], order, keys[k] as int);
        assert(same_candidate(ws[i], cands[k], order));
    }
    assert forall|i: int| 0 <= i < cands.len() implies is_read(ws, #[trigger] cands[i], order) by {
        assert(sorted.contains(i));
        let k = choose|k: int| 0 <= k < sorted.len() && sorted[k] == i;
        lemma_rank(order, cands[i].z as int);
        lemma_same_candidate(cands[i], order, keys[i] as int);
        assert(ws[k] == wire_cand(cands[i], keys[i] as int));
        assert(same_candidate(ws[k], cands[i], order));
    }
    assert forall|i: int, j: int| 0 <= i < j < ws.len() implies ws[i].z <= ws[j].z by {
        assert(before(sorted[i], sorted[j]));
    }
}

proof fn lemma_same_zones_join(
    a: Seq<int>,
    x: Seq<usize>,
    b: Seq<int>,
    y: Seq<usize>,
    order: Seq<int>,
)
    requires
        same_zones(a, x, order),
        same_zones(b, y, order),
    ensures
        same_zones(a + b, x + y, order),
{
    let (w, ids) = (a + b, x + y);
    assert forall|i: int| 0 <= i < w.len() implies 0 <= (#[trigger] w[i]) < order.len()
        && names_zone(ids, order[w[i]]) by {
        if i < a.len() {
            assert(w[i] == a[i]);
            assert(names_zone(x, order[a[i]]));
            let k = choose|k: int| 0 <= k < x.len() && (#[trigger] x[k]) == order[a[i]];
            assert(ids[k] == order[w[i]]);
        } else {
            assert(w[i] == b[i - a.len()]);
            assert(names_zone(y, order[b[i - a.len()]]));
            let k = choose|k: int|
                0 <= k < y.len() && (#[trigger] y[k]) == order[b[i - a.len()]];
            assert(ids[x.len() + k] == order[w[i]]);
        }
    }
    assert forall|i: int| 0 <= i < ids.len() implies has_rank_of(
        w,
        order,
        #[trigger] ids[i] as int,
    ) by {
        if i < x.len() {
            assert(ids[i] == x[i]);
            assert(has_rank_of(a, order, x[i] as int));
            let k = choose|k: int| 0 <= k < a.len() && order[#[trigger] a[k]] == x[i];
            assert(order[w[k]] == ids[i]);
        } else {
            assert(ids[i] == y[i - x.len()]);
            assert(has_rank_of(b, order, y[i - x.len()] as int));
            let k = choose|k: int| 0 <= k < b.len() && order[#[trigger] b[k]] == y[i - x.len()];
            assert(order[w[a.len() + k]] == ids[i]);
        }
    }
}

/// A descent through the tree as it is read arrives, for every point, where the
/// descent through the arena does: it settles the ranks of the same zones, ends in
/// the same cell, and finds the same candidates there.
pub proof fn law_wire_descent_is_the_descent(
    arena: Seq<NodeView>,
    order: Seq<int>,
    idx: int,
    cell: Aabb,
    w: Seq<int>,
    settled: Seq<usize>,
    p: Pt,
)
    requires
        tree_writable(arena, order.len() as int),
        lists_all(order, order.len() as int),
        order.len() <= u64::MAX,
        0 <= idx < arena.len(),
        same_zones(w, settled, order),
    ensures
        ({
            let (ranks, last, cands) = wire_walk(
                wire_node(arena, ranks_in(order), idx),
                cell,
                w,
                p,
            );
            let (leaf, end, ids) = descent(arena, idx, cell, settled, p);
            &&& 0 <= leaf < arena.len()
            &&& last == end
            &&& same_zones(ranks, ids, order)
            &&& same_candidates(cands, arena[leaf].cands, order)
        }),
    decreases arena.len() - idx,
{
    let node = arena[idx];
    let ranks = ranks_in(order);
    assert(node_writable(arena, order.len() as int, idx));
    let eref = wire_eref(node.eref, ranks);
    lemma_settled(node.eref, order);
    lemma_same_zones_join(w, settled, eref, node.eref, order);
    match node.q {
        None => {
            lemma_same_candidates(node.cands, order);
        },
        Some(ch) => {
            let qi = quadrant_of(cell, p);
            law_wire_descent_is_the_descent(
                arena,
                order,
                ch[qi] as int,
                child_cell(cell, qi),
                w + eref,
                settled + node.eref,
                p,
            );
        },
    }
}

// --- zones and arcs ---

/// The references are the references.
pub open spec fn same_refs(w: WireRefs, refs: Seq<ArcRef>) -> bool {
    &&& w.len() == refs.len()
    &&& forall|k: int|
        0 <= k < refs.len() ==> (#[trigger] w[k]).0 == refs[k].arc && w[k].1 == refs[k].rev
}

/// The record shows the zone; its timezone is a rank in the table of names.
pub open spec fn shows_zone(w: WireZone, zone: Zone, names: Seq<Seq<u8>>, out: Output) -> bool {
    &&& 0 <= w.tzid < names.len()
    &&& names[w.tzid] == encode_utf8(out.tz@[zone.tzid as int].n@)
    &&& zone.a >= 0 ==> w.area == zone.a
    &&& w.lo == (zone.aabb[0][0] as int, zone.aabb[0][1] as int)
    &&& w.hi == (zone.aabb[1][0] as int, zone.aabb[1][1] as int)
    &&& same_refs(w.outer, zone.outer_refs@)
    &&& w.holes.len() == zone.hole_refs@.len()
    &&& forall|k: int|
        0 <= k < zone.hole_refs@.len() ==> same_refs(#[trigger] w.holes[k], zone.hole_refs@[k]@)
}

/// The records show the packed arcs in order.
pub open spec fn shows_arcs(w: WireArcs, arcs: Seq<(Pt, Vec<u8>)>) -> bool {
    &&& w.len() == arcs.len()
    &&& forall|k: int|
        0 <= k < arcs.len() ==> (#[trigger] w[k]).0 == arcs[k].0 && w[k].1 == arcs[k].1@
}

/// The record at a rank shows the zone that has the rank.
pub proof fn law_records_show_the_zones(out: Output, r: int)
    requires
        out.zones@.len() <= u64::MAX,
        out.tz@.len() <= u64::MAX,
        0 <= r < out.zones@.len(),
        forall|i: int|
            0 <= i < out.zones@.len() ==> (#[trigger] out.zones@[i]).tzid < out.tz@.len(),
    ensures
        ({
            let order = zone_order(arena_view(out.arena@), out.zones@.len() as int);
            &&& ranked_zones(out).len() == out.zones@.len()
            &&& 0 <= order[r] < out.zones@.len()
            &&& shows_zone(ranked_zones(out)[r], out.zones@[order[r]], ranked_names(out), out)
        }),
{
    let arena = arena_view(out.arena@);
    let n = out.zones@.len() as int;
    let order = zone_order(arena, n);
    lemma_in_order(by_key(zone_keys(arena, n)), n);
    let zone = out.zones@[order[r]];
    let names = tz_names(out.tz@);
    let tz = tz_order(out.tz@);
    lemma_in_order(by_name(names), out.tz@.len() as int);
    assert(zone.tzid < out.tz@.len());
    lemma_rank(tz, zone.tzid as int);
    let w = ranked_zones(out)[r];
    assert(w == wire_zone(zone, ranks_in(tz)));
    assert(ranked_names(out)[w.tzid] == names[tz[w.tzid]]);
    assert forall|k: int| 0 <= k < zone.hole_refs@.len() implies same_refs(
        #[trigger] w.holes[k],
        zone.hole_refs@[k]@,
    ) by {
        assert(w.holes[k] == wire_refs(zone.hole_refs@[k]@));
    }
}

/// What a reader gets from the binary file is the artifact: the header shows its
/// counts; behind it the tree, the arcs, the zones and the names are read one after
/// the other to the end of the file; a descent through the tree arrives, for every
/// point, where the descent through the arena does; and the records show the arcs
/// and the zones.
pub proof fn law_binary_file_is_the_artifact(out: Output, bytes: Seq<u8>, p: Pt, cell: Aabb, r: int)
    requires
        out.is_writable(),
        binary_outcome(out) == Outcome::Ok(bytes),
        names_writable(ranked_names(out)),
        out.zones@.len() <= u64::MAX,
        out.tz@.len() <= u64::MAX,
        0 <= r < out.zones@.len(),
    ensures
        shows_header(bytes, out),
        ({
            let order = zone_order(arena_view(out.arena@), out.zones@.len() as int);
            &&& lists_all(order, out.zones@.len() as int)
            &&& get_node(bytes, 56) matches Some((tree, p1)) && {
                let (ranks, last, cands) = wire_walk(tree, cell, Seq::empty(), p);
                let (leaf, end, ids) = descent(
                    arena_view(out.arena@),
                    out.root as int,
                    cell,
                    Seq::empty(),
                    p,
                );
                &&& last == end
                &&& same_zones(ranks, ids, order)
                &&& same_candidates(cands, arena_view(out.arena@)[leaf].cands, order)
                &&& get_arc_section(bytes, p1, out.arc_packed@.len() as int, [0, 0]) matches Some(
                    (arcs, p2),
                ) && {
                    &&& shows_arcs(arcs, out.arc_packed@)
                    &&& get_zones(bytes, p2, out.zones@.len() as int) matches Some((zones, p3)) && {
                        &&& get_names(bytes, p3) matches Some((names, p4)) && {
                            &&& p4 == bytes.len()
                            &&& zones.len() == out.zones@.len()
                            &&& shows_zone(zones[r], out.zones@[order[r]], names, out)
                        }
                    }
                }
            }
        }),
{
    let arena = arena_view(out.arena@);
    let n = out.zones@.len() as int;
    let order = zone_order(arena, n);
    law_binary_round_trip(out);
    law_header_shows_the_counts(out);
    lemma_in_order(by_key(zone_keys(arena, n)), n);
    assert(same_zones(Seq::empty(), Seq::empty(), order));
    law_wire_descent_is_the_descent(
        arena,
        order,
        out.root as int,
        cell,
        Seq::empty(),
        Seq::empty(),
        p,
    );
    law_records_show_the_zones(out, r);
    assert(shows_arcs(wire_arcs(out.arc_packed@), out.arc_packed@));
}

// --- ranks ---

/// All the zones that the first `k` nodes name, one list behind the other.
pub open spec fn all_named(arena: Seq<NodeView>, k: int) -> Seq<usize>
    decreases k,
{
    if k <= 0 {
        Seq::empty()
    } else {
        all_named(arena, k - 1) + arena[k - 1].eref + arena[k - 1].cands.map_values(
            |c: CandView| c.z,
        )
    }
}

proof fn lemma_times_listed(ids: Seq<usize>, z: usize)
    ensures
        times_listed(ids, z as int) == ids.to_multiset().count(z),
    decreases ids.len(),
{
    if ids.len() == 0 {
        broadcast use vstd::seq_lib::group_to_multiset_ensures;

        assert(ids =~= Seq::empty());
    } else {
        lemma_times_listed(ids.drop_last(), z);
        vstd::seq_lib::to_multiset_build(ids.drop_last(), ids.last());
        assert(ids.drop_last().push(ids.last()) =~= ids);
    }
}

/// The references that rank the zones are counted one by one: a zone is counted
/// each time that a node settles it and each time that a leaf lists it.
pub proof fn law_every_reference_counts(arena: Seq<NodeView>, z: usize, k: int)
    requires
        0 <= k <= arena.len(),
    ensures
        times_named(arena, z as int, k) == all_named(arena, k).to_multiset().count(z),
    decreases k,
{
    if k == 0 {
        broadcast use vstd::seq_lib::group_to_multiset_ensures;

        assert(all_named(arena, 0) =~= Seq::empty());
    } else {
        law_every_reference_counts(arena, z, k - 1);
        let node = arena[k - 1];
        let listed = node.cands.map_values(|c: CandView| c.z);
        assert(cand_zones(node.cands) =~= listed);
        lemma_times_listed(node.eref, z);
        lemma_times_listed(listed, z);
        let before = all_named(arena, k - 1);
        vstd::seq_lib::lemma_multiset_commutative(before, node.eref);
        vstd::seq_lib::lemma_multiset_commutative(before + node.eref, listed);
    }
}

} // verus!
