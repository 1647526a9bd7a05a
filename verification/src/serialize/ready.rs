//! What an artifact must be for the binary format to hold it, and that a built
//! one is.
use vstd::prelude::*;

use crate::annotate::{
    candidate, crossing_arcs, crossing_holes, crossing_runs, localized, ring_indexable, runs_upto,
    zone_indexable,
};
use crate::arcs::{deep, oriented};
use crate::artifact::{arena_view, NodeView, Output, Zone};
use crate::cost::WEIGHT_LIMIT;
use crate::domain::{arcs_bounded, in_domain, lemma_ring_domain, RING_LIMIT};
use crate::geom::{fits_i64, is_aabb_of, Aabb, Pt};
use crate::packing::packs;
use crate::quant::ROOT_CELL;
use crate::resolve::zone_rebuilt;
use crate::segment::{in_box, meets_box};
use crate::serialize::sections::{
    arcs_writable, origin_before, refs_codable, wire_arcs, wire_refs, wire_zone, zone_codable,
};
use crate::serialize::tree_writer::{
    cand_ascends, node_writable, pairs_ascend, runs_ascend, tree_writable,
};
use crate::subdivide::{framed, node_framed, Frame};
use crate::topology::ArcRef;

verus! {

/// How often the nodes' settled and candidate lists name a zone, over the first
/// `k` nodes.
pub open spec fn zones_named(arena: Seq<NodeView>, k: int) -> int
    decreases k,
{
    if k <= 0 {
        0
    } else {
        zones_named(arena, k - 1) + arena[k - 1].eref.len() + arena[k - 1].cands.len()
    }
}

/// The zone's box has an extent that can be computed, and its references can be
/// coded.
pub open spec fn zone_writable(zone: Zone) -> bool {
    &&& 0 <= zone.aabb[1][0] - zone.aabb[0][0] <= i64::MAX
    &&& 0 <= zone.aabb[1][1] - zone.aabb[0][1] <= i64::MAX
    &&& refs_codable(wire_refs(zone.outer_refs@))
    &&& forall|k: int|
        0 <= k < zone.hole_refs@.len() ==> refs_codable(wire_refs((#[trigger] zone.hole_refs@[k])@))
}

impl Output {
    /// The binary format can hold the artifact.
    pub open spec fn is_writable(&self) -> bool {
        &&& self.root < self.arena@.len()
        &&& forall|i: int|
            0 <= i < self.zones@.len() ==> (#[trigger] self.zones@[i]).tzid < self.tz@.len()
                && zone_writable(self.zones@[i])
        &&& tree_writable(arena_view(self.arena@), self.zones@.len() as int)
        &&& zones_named(arena_view(self.arena@), self.arena@.len() as int) <= u64::MAX
        &&& arcs_writable(wire_arcs(self.arc_packed@))
    }
}

pub proof fn lemma_zone_codable(zone: Zone, tz_ranks: Seq<u64>)
    requires
        zone_writable(zone),
    ensures
        zone_codable(wire_zone(zone, tz_ranks)),
{
    let w = wire_zone(zone, tz_ranks);
    assert(zone.outer_refs.len() == w.outer.len());
    assert(zone.hole_refs.len() == w.holes.len());
    assert forall|k: int| 0 <= k < w.holes.len() implies refs_codable(#[trigger] w.holes[k])
        && w.holes[k].len() <= u64::MAX by {
        assert(w.holes[k] == wire_refs(zone.hole_refs@[k]@));
        assert(zone.hole_refs@[k].len() == w.holes[k].len());
    }
}

proof fn lemma_runs_apart(path: Seq<Pt>, cell: Aabb, k: int)
    requires
        0 <= k <= path.len() - 1,
        path.len() <= u32::MAX,
    ensures
        ({
            let runs = runs_upto(path, cell, k);
            &&& forall|j: int| 0 <= j < runs.len() ==> (#[trigger] runs[j]).0 <= runs[j].1 < k
            &&& forall|j: int| 1 <= j < runs.len() ==> runs[j - 1].1 < (#[trigger] runs[j]).0
        }),
    decreases k,
{
    if k > 0 {
        lemma_runs_apart(path, cell, k - 1);
        let before = runs_upto(path, cell, k - 1);
        if meets_box(cell, path[k - 1], path[k]) && before.len() > 0 {
            let last = before[before.len() - 1];
            assert(last.0 <= last.1 < k - 1);
        }
    }
}

proof fn lemma_arcs_ascend(refs: Seq<ArcRef>, arcs: Seq<Seq<Pt>>, cell: Aabb, k: int)
    requires
        ring_indexable(refs, arcs),
        0 <= k <= refs.len(),
    ensures
        runs_ascend(crossing_arcs(refs, arcs, cell, k)),
        forall|j: int|
            0 <= j < crossing_arcs(refs, arcs, cell, k).len() ==> (#[trigger] crossing_arcs(
                refs,
                arcs,
                cell,
                k,
            )[j]).0 < k,
    decreases k,
{
    if k > 0 {
        lemma_arcs_ascend(refs, arcs, cell, k - 1);
        let before = crossing_arcs(refs, arcs, cell, k - 1);
        let path = oriented(arcs, refs[k - 1]);
        let runs = crossing_runs(path, cell);
        assert(refs[k - 1].arc < arcs.len() && arcs[refs[k - 1].arc as int].len() <= u32::MAX);
        if runs.len() > 0 {
            assert(path.len() > 0);
            lemma_runs_apart(path, cell, path.len() - 1);
            assert(pairs_ascend(runs));
            let e = crossing_arcs(refs, arcs, cell, k);
            assert forall|j: int| 0 <= j < e.len() implies pairs_ascend((#[trigger] e[j]).1) by {
                if j < before.len() {
                    assert(e[j] == before[j]);
                }
            }
            assert forall|j: int| 1 <= j < e.len() implies e[j - 1].0 <= (#[trigger] e[j]).0 by {
                assert(e[j - 1] == before[j - 1]);
                if j < before.len() {
                    assert(e[j] == before[j]);
                }
            }
        }
    }
}

proof fn lemma_holes_ascend(zone: Zone, arcs: Seq<Seq<Pt>>, cell: Aabb, k: int)
    requires
        zone_indexable(zone, arcs),
        0 <= k <= zone.holes@.len(),
    ensures
        forall|j: int|
            0 <= j < crossing_holes(zone, arcs, cell, k).len() ==> runs_ascend(
                (#[trigger] crossing_holes(zone, arcs, cell, k)[j]).e,
            ),
    decreases k,
{
    if k > 0 {
        lemma_holes_ascend(zone, arcs, cell, k - 1);
        let refs = zone.hole_refs@[k - 1]@;
        lemma_arcs_ascend(refs, arcs, cell, refs.len() as int);
        let before = crossing_holes(zone, arcs, cell, k - 1);
        let holes = crossing_holes(zone, arcs, cell, k);
        assert forall|j: int| 0 <= j < holes.len() implies runs_ascend((#[trigger] holes[j]).e) by {
            if j < before.len() {
                assert(holes[j] == before[j]);
            }
        }
    }
}

proof fn lemma_tree_writable(
    arena: Seq<NodeView>,
    zones: Seq<Zone>,
    arcs: Seq<Seq<Pt>>,
    f: Frame,
)
    requires
        framed(arena, zones, f),
        localized(arena, zones, arcs, f),
        forall|i: int| 0 <= i < zones.len() ==> zone_indexable(#[trigger] zones[i], arcs),
    ensures
        tree_writable(arena, zones.len() as int),
{
    assert forall|idx: int| 0 <= idx < arena.len() implies #[trigger] node_writable(
        arena,
        zones.len() as int,
        idx,
    ) by {
        assert(node_framed(arena, zones, f, idx));
        let node = arena[idx];
        assert forall|i: int| 0 <= i < node.cands.len() implies (#[trigger] node.cands[i]).z
            < zones.len() && cand_ascends(node.cands[i]) by {
            let cand = arena[idx].cands[i];
            assert(cand.z < zones.len());
            let zone = zones[cand.z as int];
            let cell = f.cells[idx];
            assert(cand == candidate(cand.z, zone, arcs, cell));
            assert(zone_indexable(zone, arcs));
            lemma_arcs_ascend(zone.outer_refs@, arcs, cell, zone.outer_refs@.len() as int);
            lemma_holes_ascend(zone, arcs, cell, zone.holes@.len() as int);
        }
    }
}

proof fn lemma_refs_codable(refs: Seq<ArcRef>, arcs: Seq<Seq<Pt>>)
    requires
        ring_indexable(refs, arcs),
        arcs.len() <= WEIGHT_LIMIT,
    ensures
        refs_codable(wire_refs(refs)),
{
    let w = wire_refs(refs);
    assert forall|k: int| 0 <= k < w.len() implies 0 <= (#[trigger] w[k]).0
        <= 0x1000_0000_0000_0000 by {
        assert(refs[k].arc < arcs.len());
    }
}

/// A box of vertices of the domain lies in the domain.
proof fn lemma_box_domain(a: Aabb, ring: Seq<Pt>)
    requires
        is_aabb_of(a, ring),
        ring.len() > 0,
        in_domain(ring),
    ensures
        0 <= a[1][0] - a[0][0] <= i64::MAX,
        0 <= a[1][1] - a[0][1] <= i64::MAX,
{
    let i0 = choose|i: int| 0 <= i < ring.len() && (#[trigger] ring[i])[0] == a[0][0];
    let i1 = choose|i: int| 0 <= i < ring.len() && (#[trigger] ring[i])[1] == a[0][1];
    let i2 = choose|i: int| 0 <= i < ring.len() && (#[trigger] ring[i])[0] == a[1][0];
    let i3 = choose|i: int| 0 <= i < ring.len() && (#[trigger] ring[i])[1] == a[1][1];
    assert(in_box(ring[i0], ROOT_CELL) && in_box(ring[i0], a));
    assert(in_box(ring[i1], ROOT_CELL) && in_box(ring[i1], a));
    assert(in_box(ring[i2], ROOT_CELL) && in_box(ring[i2], a));
    assert(in_box(ring[i3], ROOT_CELL) && in_box(ring[i3], a));
}

/// A built artifact can be written: annotated for lookups, its arcs in the
/// domain and packed.
pub proof fn law_built_artifact_is_writable(out: Output)
    requires
        out.is_readable(),
        out.is_packed(),
        arcs_bounded(deep(out.arcs@), RING_LIMIT + 1),
        out.arcs@.len() <= WEIGHT_LIMIT,
        zones_named(arena_view(out.arena@), out.arena@.len() as int) <= u64::MAX,
    ensures
        out.is_writable(),
{
    let arena = arena_view(out.arena@);
    let arcs = deep(out.arcs@);
    let f = choose|f: Frame|
        #![trigger framed(arena, out.zones@, f)]
        framed(arena, out.zones@, f) && localized(arena, out.zones@, arcs, f);
    assert forall|i: int| 0 <= i < out.zones@.len() implies zone_indexable(
        #[trigger] out.zones@[i],
        arcs,
    ) by {
        assert(zone_rebuilt(out.zones@[i], arcs));
    }
    lemma_tree_writable(arena, out.zones@, arcs, f);
    assert forall|i: int| 0 <= i < out.zones@.len() implies (#[trigger] out.zones@[i]).tzid
        < out.tz@.len() && zone_writable(out.zones@[i]) by {
        let zone = out.zones@[i];
        assert(zone.boxes_match() && zone.outer@.len() >= 3);
        assert(zone_rebuilt(zone, arcs));
        assert(zone_indexable(zone, arcs));
        lemma_ring_domain(arcs, zone.outer_refs@);
        lemma_box_domain(zone.aabb, zone.outer@);
        lemma_refs_codable(zone.outer_refs@, arcs);
        assert forall|k: int| 0 <= k < zone.hole_refs@.len() implies refs_codable(
            wire_refs((#[trigger] zone.hole_refs@[k])@),
        ) by {
            lemma_refs_codable(zone.hole_refs@[k]@, arcs);
        }
    }
    let w = wire_arcs(out.arc_packed@);
    assert forall|k: int| 0 <= k < w.len() implies fits_i64(
        (#[trigger] w[k]).0[0] - origin_before(w, k)[0],
    ) && fits_i64(w[k].0[1] - origin_before(w, k)[1]) && w[k].1.len() <= u64::MAX by {
        assert(packs(out.arc_packed@[k], out.arcs@[k]@));
        assert(arcs[k] == out.arcs@[k]@);
        assert(in_domain(arcs[k]) && arcs[k].len() >= 2);
        assert(in_box(arcs[k][0], ROOT_CELL));
        assert(out.arc_packed@[k].1.len() == w[k].1.len());
        if k > 0 {
            assert(packs(out.arc_packed@[k - 1], out.arcs@[k - 1]@));
            assert(arcs[k - 1] == out.arcs@[k - 1]@);
            assert(in_domain(arcs[k - 1]) && arcs[k - 1].len() >= 2);
            assert(in_box(arcs[k - 1][0], ROOT_CELL));
        }
    }
}

} // verus!
