//! Factoring every zone's rings into shared arcs, simplifying the arcs, and
//! rebuilding the rings from them.
use vstd::prelude::*;

use crate::annotate::{ring_indexable, zone_indexable};
use crate::arcs::{chained, deep, first_junction, path_of, refs_valid, ring_of, topology_of};
use crate::artifact::{
    all_ids, can_measure, has_area, ids_match, ring_size, unsigned_area2, Output, Zone,
};
use crate::cost::{
    holes_weight, list_weight, refs_exist, ring_weight, zone_refs_exist, zone_weight, WEIGHT_LIMIT,
};
use crate::domain::{
    arcs_bounded, in_domain, lemma_edges_fit, lemma_kept_arc, lemma_longer_arcs_longer_ring,
    lemma_stands_in_chained, lemma_topology_bounded, lemma_triples_fit, rings_bounded, stands_in,
    vertex_count, RING_LIMIT,
};
use crate::geom::{
    area2, edge_area2, fits_i64, is_aabb_of, law_area_rotation, poly_aabb, Aabb, Pt,
};
use crate::resolve::zone_rebuilt;
use crate::topology::{
    build, copy_points, deep_refs, kept_arc, reconstruct, triples_fit, vw_simplify_all, ArcRef,
};
use crate::winding::{closed, rotated};

verus! {

/// All rings of the first `k` zones: of each zone the outer ring, then the
/// holes.
pub open spec fn flat_rings(zones: Seq<Zone>, k: int) -> Seq<Seq<Pt>>
    decreases k,
{
    if k <= 0 {
        Seq::empty()
    } else {
        flat_rings(zones, k - 1).push(zones[k - 1].outer@) + deep(zones[k - 1].holes@)
    }
}

/// Where the rings of zone `k` start among all rings.
pub open spec fn first_ring(zones: Seq<Zone>, k: int) -> int {
    flat_rings(zones, k).len() as int
}

/// The list names the arc.
pub open spec fn names(refs: Seq<ArcRef>, i: int) -> bool {
    exists|k: int| 0 <= k < refs.len() && (#[trigger] refs[k]).arc == i
}

/// The arcs with those that the list names at full resolution.
pub open spec fn with_full(
    arcs: Seq<Seq<Pt>>,
    full: Seq<Seq<Pt>>,
    refs: Seq<ArcRef>,
) -> Seq<Seq<Pt>> {
    Seq::new(
        arcs.len(),
        |i: int|
            if names(refs, i) {
                full[i]
            } else {
                arcs[i]
            },
    )
}

/// The arcs once the outer rings of the first `k` zones have been looked at in
/// turn: where one has collapsed below three vertices, its arcs are restored.
pub open spec fn restored(
    arcs: Seq<Seq<Pt>>,
    full: Seq<Seq<Pt>>,
    lists: Seq<Seq<ArcRef>>,
    zones: Seq<Zone>,
    k: int,
) -> Seq<Seq<Pt>>
    decreases k,
{
    if k <= 0 {
        arcs
    } else {
        let before = restored(arcs, full, lists, zones, k - 1);
        let refs = lists[first_ring(zones, k - 1)];
        if ring_of(before, refs).len() < 3 {
            with_full(before, full, refs)
        } else {
            before
        }
    }
}

/// The stored arcs of a set of zones: the arcs of their rings, simplified, and
/// restored where an outer ring would have collapsed.
pub open spec fn stored_arcs(zones: Seq<Zone>, keep: Seq<usize>) -> Seq<Seq<Pt>> {
    let rings = flat_rings(zones, zones.len() as int);
    let (full, lists) = topology_of(rings, rings.len() as int);
    let kept = Seq::new(full.len(), |i: int| kept_arc(full[i], keep));
    restored(kept, full, lists, zones, zones.len() as int)
}

/// Which of `m` holes, whose lists start at `base`, still have three vertices.
pub open spec fn surviving(
    arcs: Seq<Seq<Pt>>,
    lists: Seq<Seq<ArcRef>>,
    base: int,
    m: int,
) -> Seq<int>
    decreases m,
{
    if m <= 0 {
        Seq::empty()
    } else {
        let before = surviving(arcs, lists, base, m - 1);
        if ring_of(arcs, lists[base + m - 1]).len() >= 3 {
            before.push(m - 1)
        } else {
            before
        }
    }
}

/// The zone rebuilt from the arcs: its outer ring, and its holes without those
/// that have collapsed.
pub open spec fn rebuilt_as(
    before: Zone,
    after: Zone,
    arcs: Seq<Seq<Pt>>,
    lists: Seq<Seq<ArcRef>>,
    base: int,
) -> bool {
    let kept = surviving(arcs, lists, base + 1, before.holes@.len() as int);
    &&& after.id == before.id && after.tzid == before.tzid
    &&& after.outer_refs@ == lists[base]
    &&& after.outer@ == ring_of(arcs, lists[base])
    &&& after.a == unsigned_area2(after.outer@)
    &&& after.boxes_match()
    &&& after.holes@.len() == kept.len() && after.hole_refs@.len() == kept.len()
    &&& forall|j: int|
        0 <= j < kept.len() ==> (#[trigger] after.hole_refs@[j])@ == lists[base + 1 + kept[j]]
            && after.holes@[j]@ == ring_of(arcs, lists[base + 1 + kept[j]])
}

/// A list of references rebuilds to a ring of at most `n` vertices.
pub open spec fn list_fits(arcs: Seq<Seq<Pt>>, refs: Seq<ArcRef>, n: int) -> bool {
    &&& chained(arcs, refs)
    &&& ring_weight(arcs, refs) <= 2 * n
    &&& ring_of(arcs, refs).len() <= n
    &&& refs.len() <= n
}

proof fn lemma_flat_rings(zones: Seq<Zone>, k: int, n: int)
    requires
        0 <= k < n <= zones.len(),
    ensures
        0 <= first_ring(zones, k),
        first_ring(zones, k) + 1 + zones[k].holes@.len() == first_ring(zones, k + 1),
        first_ring(zones, k + 1) <= first_ring(zones, n),
        flat_rings(zones, n)[first_ring(zones, k)] == zones[k].outer@,
        forall|h: int|
            0 <= h < zones[k].holes@.len() ==> #[trigger] flat_rings(zones, n)[first_ring(zones, k)
                + 1 + h] == zones[k].holes@[h]@,
    decreases n - k,
{
    let base = first_ring(zones, k);
    if n == k + 1 {
        let rings = flat_rings(zones, n);
        assert(flat_rings(zones, k).push(zones[k].outer@)[base] == zones[k].outer@);
    } else {
        lemma_flat_rings(zones, k, n - 1);
        lemma_flat_rings(zones, n - 1, n);
        let before = flat_rings(zones, n - 1);
        let rings = flat_rings(zones, n);
        assert(forall|i: int| 0 <= i < before.len() ==> rings[i] == before[i]);
    }
}

/// A copy of a reference list.
fn copy_refs(refs: &[ArcRef]) -> (r: Vec<ArcRef>)
    ensures
        r@ == refs@,
{
    let mut out: Vec<ArcRef> = Vec::with_capacity(refs.len());
    let mut i: usize = 0;
    while i < refs.len()
        invariant
            0 <= i <= refs@.len(),
            out@ == refs@.take(i as int),
        decreases refs.len() - i,
    {
        out.push(refs[i]);
        proof {
            assert(refs@.take(i + 1) =~= refs@.take(i as int).push(refs@[i as int]));
        }
        i += 1;
    }
    proof {
        assert(refs@.take(i as int) =~= refs@);
    }
    out
}

/// All rings of the zones in a row, and where each zone's rings start.
pub fn flatten(zones: &[Zone]) -> (r: (Vec<Vec<Pt>>, Vec<usize>))
    ensures
        deep(r.0@) == flat_rings(zones@, zones@.len() as int),
        r.1@.len() == zones@.len(),
        forall|k: int| 0 <= k < zones@.len() ==> #[trigger] r.1@[k] == first_ring(zones@, k),
{
    let mut rings: Vec<Vec<Pt>> = Vec::new();
    let mut starts: Vec<usize> = Vec::with_capacity(zones.len());
    let mut k: usize = 0;
    proof {
        assert(deep(rings@) =~= flat_rings(zones@, 0));
    }
    while k < zones.len()
        invariant
            0 <= k <= zones@.len(),
            deep(rings@) == flat_rings(zones@, k as int),
            starts@.len() == k,
            forall|j: int| 0 <= j < k ==> #[trigger] starts@[j] == first_ring(zones@, j),
        decreases zones.len() - k,
    {
        starts.push(rings.len());
        let outer = copy_points(zones[k].outer.as_slice());
        rings.push(outer);
        let ghost start = deep(rings@);
        proof {
            assert(start =~= flat_rings(zones@, k as int).push(zones@[k as int].outer@));
            assert(start + deep(zones@[k as int].holes@).take(0) =~= start);
        }
        let mut h: usize = 0;
        while h < zones[k].holes.len()
            invariant
                k < zones@.len(),
                0 <= h <= zones@[k as int].holes@.len(),
                deep(rings@) == start + deep(zones@[k as int].holes@).take(h as int),
            decreases zones@[k as int].holes@.len() - h,
        {
            let ghost mid = rings@;
            let hole = copy_points(zones[k].holes[h].as_slice());
            rings.push(hole);
            proof {
                let all = deep(zones@[k as int].holes@);
                assert(all[h as int] == hole@);
                assert(all.take(h + 1) =~= all.take(h as int).push(hole@));
                assert(deep(rings@) =~= deep(mid).push(hole@));
                assert(deep(rings@) =~= start + all.take(h + 1));
            }
            h += 1;
        }
        proof {
            let all = deep(zones@[k as int].holes@);
            assert(all.take(h as int) =~= all);
        }
        k += 1;
    }
    (rings, starts)
}

proof fn lemma_names_push(refs: Seq<ArcRef>, k: int, i: int)
    requires
        0 <= k < refs.len(),
    ensures
        names(refs.take(k + 1), i) <==> names(refs.take(k), i) || refs[k].arc == i,
{
    let longer = refs.take(k + 1);
    let shorter = refs.take(k);
    if names(longer, i) {
        let j = choose|j: int| 0 <= j < longer.len() && (#[trigger] longer[j]).arc == i;
        if j < k {
            assert(shorter[j].arc == i);
        }
    }
    if names(shorter, i) {
        let j = choose|j: int| 0 <= j < shorter.len() && (#[trigger] shorter[j]).arc == i;
        assert(longer[j].arc == i);
    }
    assert(longer[k].arc == refs[k].arc);
}

/// Put the arcs that a list names back to full resolution.
fn restore(arcs: &mut Vec<Vec<Pt>>, full: &[Vec<Pt>], refs: &[ArcRef])
    requires
        refs_exist(refs@, old(arcs)@.len() as int),
        full@.len() == old(arcs)@.len(),
    ensures
        deep(final(arcs)@) == with_full(deep(old(arcs)@), deep(full@), refs@),
{
    let ghost start = deep(arcs@);
    let mut k: usize = 0;
    proof {
        assert(deep(arcs@) =~= with_full(start, deep(full@), refs@.take(0)));
    }
    while k < refs.len()
        invariant
            0 <= k <= refs@.len(),
            start == deep(old(arcs)@),
            arcs@.len() == full@.len(),
            start.len() == full@.len(),
            refs_exist(refs@, full@.len() as int),
            deep(arcs@) == with_full(start, deep(full@), refs@.take(k as int)),
        decreases refs.len() - k,
    {
        let i = refs[k].arc;
        let ghost before = deep(arcs@);
        let copy = copy_points(full[i].as_slice());
        arcs.set(i, copy);
        proof {
            let after = deep(arcs@);
            let want = with_full(start, deep(full@), refs@.take(k + 1));
            assert forall|j: int| 0 <= j < after.len() implies after[j] == want[j] by {
                lemma_names_push(refs@, k as int, j);
                if j != i {
                    assert(after[j] == before[j]);
                }
            }
            assert(after =~= want);
        }
        k += 1;
    }
    proof {
        assert(refs@.take(k as int) =~= refs@);
    }
}

/// Arcs at full resolution rebuild the ring at full resolution.
proof fn lemma_with_full_path(
    arcs: Seq<Seq<Pt>>,
    full: Seq<Seq<Pt>>,
    refs: Seq<ArcRef>,
    k: int,
)
    requires
        arcs.len() == full.len(),
        refs_exist(refs, full.len() as int),
        0 <= k <= refs.len(),
    ensures
        path_of(with_full(arcs, full, refs), refs.take(k)) == path_of(full, refs.take(k)),
    decreases k,
{
    let after = with_full(arcs, full, refs);
    if k > 0 {
        lemma_with_full_path(arcs, full, refs, k - 1);
        let list = refs.take(k);
        assert(list.drop_last() =~= refs.take(k - 1));
        assert(refs[k - 1].arc < full.len());
        assert(names(refs, refs[k - 1].arc as int));
        assert(after[refs[k - 1].arc as int] == full[refs[k - 1].arc as int]);
        assert(list.last() == refs[k - 1]);
        assert(list[k - 1] == refs[k - 1]);
    }
}

proof fn lemma_with_full_stands_in(
    arcs: Seq<Seq<Pt>>,
    full: Seq<Seq<Pt>>,
    refs: Seq<ArcRef>,
)
    requires
        stands_in(arcs, full),
        stands_in(full, full),
    ensures
        stands_in(with_full(arcs, full, refs), full),
        forall|i: int|
            0 <= i < full.len() ==> arcs[i].len() <= (#[trigger] with_full(arcs, full, refs)[i]).len(),
{
    let after = with_full(arcs, full, refs);
    assert forall|i: int| 0 <= i < full.len() implies {
        &&& 2 <= (#[trigger] after[i]).len() <= full[i].len()
        &&& after[i][0] == full[i][0]
        &&& after[i].last() == full[i].last()
        &&& in_domain(after[i])
        &&& arcs[i].len() <= after[i].len()
    } by {
        assert(2 <= arcs[i].len() <= full[i].len());
        assert(in_domain(full[i]));
    }
}

/// After the pass every outer ring looked at has its three vertices.
proof fn lemma_restored(
    arcs: Seq<Seq<Pt>>,
    full: Seq<Seq<Pt>>,
    lists: Seq<Seq<ArcRef>>,
    zones: Seq<Zone>,
    k: int,
)
    requires
        0 <= k <= zones.len(),
        stands_in(arcs, full),
        stands_in(full, full),
        forall|z: int|
            0 <= z < zones.len() ==> chained(full, #[trigger] lists[first_ring(zones, z)])
                && ring_of(full, lists[first_ring(zones, z)]).len() >= 3,
    ensures
        stands_in(restored(arcs, full, lists, zones, k), full),
        forall|z: int|
            0 <= z < k ==> ring_of(
                restored(arcs, full, lists, zones, k),
                #[trigger] lists[first_ring(zones, z)],
            ).len() >= 3,
    decreases k,
{
    if k > 0 {
        lemma_restored(arcs, full, lists, zones, k - 1);
        let before = restored(arcs, full, lists, zones, k - 1);
        let after = restored(arcs, full, lists, zones, k);
        let refs = lists[first_ring(zones, k - 1)];
        assert(chained(full, refs));
        lemma_with_full_stands_in(before, full, refs);
        assert(refs_exist(refs, full.len() as int));
        lemma_with_full_path(before, full, refs, refs.len() as int);
        assert(refs.take(refs.len() as int) =~= refs);
        assert forall|z: int| 0 <= z < k implies ring_of(
            after,
            #[trigger] lists[first_ring(zones, z)],
        ).len() >= 3 by {
            let list = lists[first_ring(zones, z)];
            if z < k - 1 {
                lemma_stands_in_chained(before, full, list);
                lemma_stands_in_chained(after, full, list);
                assert forall|i: int| 0 <= i < before.len() implies (#[trigger] before[i]).len()
                    <= after[i].len() by {
                    let _ = with_full(before, full, refs)[i];
                }
                lemma_longer_arcs_longer_ring(before, after, list);
            }
        }
    }
}

/// What the rings' bounds give for the lists over the stored arcs.
proof fn lemma_list_fits(
    arcs: Seq<Seq<Pt>>,
    full: Seq<Seq<Pt>>,
    refs: Seq<ArcRef>,
    n: int,
)
    requires
        stands_in(arcs, full),
        chained(full, refs),
        ring_of(full, refs).len() == n,
    ensures
        list_fits(arcs, refs, n),
{
    lemma_stands_in_chained(arcs, full, refs);
    lemma_longer_arcs_longer_ring(arcs, full, refs);
}

/// The total length of the arcs of the first `k` lists.
spec fn lists_weight(arcs: Seq<Seq<Pt>>, lists: Seq<Vec<ArcRef>>, k: int) -> int
    decreases k,
{
    if k <= 0 {
        0
    } else {
        lists_weight(arcs, lists, k - 1) + ring_weight(arcs, lists[k - 1]@)
    }
}

proof fn lemma_lists_weight(
    arcs: Seq<Seq<Pt>>,
    a: Seq<Vec<ArcRef>>,
    b: Seq<Vec<ArcRef>>,
    k: int,
)
    requires
        0 <= k <= a.len(),
        k <= b.len(),
        forall|i: int| 0 <= i < k ==> a[i] == b[i],
    ensures
        lists_weight(arcs, a, k) == lists_weight(arcs, b, k),
    decreases k,
{
    if k > 0 {
        lemma_lists_weight(arcs, a, b, k - 1);
    }
}

proof fn lemma_holes_weight(arcs: Seq<Seq<Pt>>, zone: Zone, k: int)
    requires
        0 <= k <= zone.hole_refs@.len(),
    ensures
        holes_weight(arcs, zone, k) == lists_weight(arcs, zone.hole_refs@, k),
    decreases k,
{
    if k > 0 {
        lemma_holes_weight(arcs, zone, k - 1);
    }
}

/// The lists from `base` on fit their rings.
spec fn lists_fit(
    arcs: Seq<Seq<Pt>>,
    lists: Seq<Seq<ArcRef>>,
    rings: Seq<Seq<Pt>>,
) -> bool {
    &&& lists.len() == rings.len()
    &&& forall|r: int|
        0 <= r < rings.len() ==> list_fits(arcs, #[trigger] lists[r], rings[r].len() as int)
}

/// A ring of the stored arcs as far as the bounds go.
proof fn lemma_stored_ring(
    arcs: Seq<Seq<Pt>>,
    lists: Seq<Seq<ArcRef>>,
    rings: Seq<Seq<Pt>>,
    r: int,
)
    requires
        stands_in(arcs, arcs),
        arcs_bounded(arcs, RING_LIMIT + 1),
        rings_bounded(rings),
        lists_fit(arcs, lists, rings),
        0 <= r < rings.len(),
    ensures
        refs_valid(arcs, lists[r]),
        refs_exist(lists[r], arcs.len() as int),
        ring_indexable(lists[r], arcs),
{
    let refs = lists[r];
    assert(list_fits(arcs, refs, rings[r].len() as int));
    assert(0 < rings[r].len() <= RING_LIMIT);
    assert forall|k: int| 0 <= k < refs.len() implies (#[trigger] refs[k]).arc < arcs.len()
        && arcs[refs[k].arc as int].len() > 0 && arcs[refs[k].arc as int].len() <= u32::MAX by {
        assert(2 <= arcs[refs[k].arc as int].len() <= RING_LIMIT + 1);
    }
}

/// A hole as rebuilt from its list.
spec fn hole_built(
    hole: Seq<Pt>,
    bx: Aabb,
    refs: Seq<ArcRef>,
    arcs: Seq<Seq<Pt>>,
    list: Seq<ArcRef>,
) -> bool {
    &&& refs == list
    &&& hole == ring_of(arcs, list)
    &&& is_aabb_of(bx, hole)
    &&& chained(arcs, list)
    &&& ring_indexable(list, arcs)
    &&& refs_exist(list, arcs.len() as int)
}

/// The holes whose lists are at these indices from `base` on, as rebuilt.
spec fn holes_built(
    holes: Seq<Vec<Pt>>,
    aabbs: Seq<Aabb>,
    refs: Seq<Vec<ArcRef>>,
    arcs: Seq<Seq<Pt>>,
    lists: Seq<Seq<ArcRef>>,
    base: int,
    kept: Seq<int>,
) -> bool {
    &&& holes.len() == kept.len() && aabbs.len() == kept.len() && refs.len() == kept.len()
    &&& forall|j: int|
        0 <= j < kept.len() ==> hole_built(
            holes[j]@,
            aabbs[j],
            (#[trigger] refs[j])@,
            arcs,
            lists[base + kept[j]],
        )
}

proof fn lemma_hole_added(
    holes: Seq<Vec<Pt>>,
    aabbs: Seq<Aabb>,
    refs: Seq<Vec<ArcRef>>,
    arcs: Seq<Seq<Pt>>,
    lists: Seq<Seq<ArcRef>>,
    base: int,
    kept: Seq<int>,
    hole: Vec<Pt>,
    bx: Aabb,
    list: Vec<ArcRef>,
    h: int,
)
    requires
        holes_built(holes, aabbs, refs, arcs, lists, base, kept),
        hole_built(hole@, bx, list@, arcs, lists[base + h]),
    ensures
        holes_built(
            holes.push(hole),
            aabbs.push(bx),
            refs.push(list),
            arcs,
            lists,
            base,
            kept.push(h),
        ),
{
    assert forall|j: int| 0 <= j < kept.push(h).len() implies hole_built(
        holes.push(hole)[j]@,
        aabbs.push(bx)[j],
        (#[trigger] refs.push(list)[j])@,
        arcs,
        lists[base + kept.push(h)[j]],
    ) by {
        if j < kept.len() {
            assert(hole_built(holes[j]@, aabbs[j], refs[j]@, arcs, lists[base + kept[j]]));
        }
    }
}

/// The arcs rebuild the rings by these lists.
#[verifier::opaque]
spec fn rebuildable(
    arcs: Seq<Seq<Pt>>,
    lists: Seq<Seq<ArcRef>>,
    rings: Seq<Seq<Pt>>,
) -> bool {
    &&& stands_in(arcs, arcs)
    &&& arcs_bounded(arcs, RING_LIMIT + 1)
    &&& rings_bounded(rings)
    &&& lists_fit(arcs, lists, rings)
}

/// Rebuild one hole, unless it collapses.
fn rebuild_hole(
    at: usize,
    arcs: &[Vec<Pt>],
    lists: &[Vec<ArcRef>],
    Ghost(rings): Ghost<Seq<Seq<Pt>>>,
) -> (r: Option<(Vec<Pt>, Aabb, Vec<ArcRef>)>)
    requires
        rebuildable(deep(arcs@), deep_refs(lists@), rings),
        at < lists@.len() == rings.len(),
    ensures
        r is Some <==> ring_of(deep(arcs@), deep_refs(lists@)[at as int]).len() >= 3,
        r matches Some((hole, bx, refs)) ==> hole_built(
            hole@,
            bx,
            refs@,
            deep(arcs@),
            deep_refs(lists@)[at as int],
        ),
        ring_weight(deep(arcs@), deep_refs(lists@)[at as int]) <= 2 * rings[at as int].len(),
{
    let ghost model = deep(arcs@);
    let ghost all = deep_refs(lists@);
    proof {
        reveal(rebuildable);
        lemma_stored_ring(model, all, rings, at as int);
        assert(list_fits(model, all[at as int], rings[at as int].len() as int));
        assert(all[at as int] == lists@[at as int]@);
    }
    let hole = reconstruct(arcs, lists[at].as_slice());
    if hole.len() < 3 {
        return None;
    }
    let bx = poly_aabb(hole.as_slice());
    let refs = copy_refs(lists[at].as_slice());
    Some((hole, bx, refs))
}

/// Rebuild the holes whose lists start at `base`, without the collapsed ones.
#[verifier::spinoff_prover]
fn rebuild_holes(
    base: usize,
    m: usize,
    arcs: &[Vec<Pt>],
    lists: &[Vec<ArcRef>],
    Ghost(rings): Ghost<Seq<Seq<Pt>>>,
) -> (r: (Vec<Vec<Pt>>, Vec<Aabb>, Vec<Vec<ArcRef>>))
    requires
        rebuildable(deep(arcs@), deep_refs(lists@), rings),
        lists@.len() == rings.len(),
        base + m <= rings.len(),
    ensures
        ({
            let kept = surviving(deep(arcs@), deep_refs(lists@), base as int, m as int);
            holes_built(r.0@, r.1@, r.2@, deep(arcs@), deep_refs(lists@), base as int, kept)
        }),
        lists_weight(deep(arcs@), r.2@, r.2@.len() as int) <= 2 * (vertex_count(rings, base + m)
            - vertex_count(rings, base as int)),
{
    let ghost model = deep(arcs@);
    let ghost all = deep_refs(lists@);
    let count = lists.len();
    let mut holes: Vec<Vec<Pt>> = Vec::new();
    let mut hole_aabbs: Vec<Aabb> = Vec::new();
    let mut hole_refs: Vec<Vec<ArcRef>> = Vec::new();
    let ghost mut kept = Seq::<int>::empty();
    let mut h: usize = 0;
    while h < m
        invariant
            0 <= h <= m,
            count == lists@.len(),
            count == rings.len(),
            base + m <= count,
            model == deep(arcs@),
            all == deep_refs(lists@),
            rebuildable(model, all, rings),
            kept == surviving(model, all, base as int, h as int),
            holes_built(holes@, hole_aabbs@, hole_refs@, model, all, base as int, kept),
            lists_weight(model, hole_refs@, hole_refs@.len() as int) <= 2 * (vertex_count(
                rings,
                base + h,
            ) - vertex_count(rings, base as int)),
        decreases m - h,
    {
        let at = base + h;
        let ghost next = surviving(model, all, base as int, h + 1);
        proof {
            assert(vertex_count(rings, at + 1) == vertex_count(rings, at as int)
                + rings[at as int].len());
        }
        if let Some((hole, bx, refs)) = rebuild_hole(at, arcs, lists, Ghost(rings)) {
            let ghost old_refs = hole_refs@;
            proof {
                lemma_hole_added(
                    holes@,
                    hole_aabbs@,
                    old_refs,
                    model,
                    all,
                    base as int,
                    kept,
                    hole,
                    bx,
                    refs,
                    h as int,
                );
            }
            hole_aabbs.push(bx);
            holes.push(hole);
            hole_refs.push(refs);
            proof {
                lemma_lists_weight(model, old_refs, hole_refs@, old_refs.len() as int);
                assert(next == kept.push(h as int));
            }
        }
        proof {
            kept = next;
        }
        h += 1;
    }
    (holes, hole_aabbs, hole_refs)
}

/// Rebuild a zone from the stored arcs.
#[verifier::spinoff_prover]
fn rebuild_zone(
    zone: &Zone,
    base: usize,
    arcs: &[Vec<Pt>],
    lists: &[Vec<ArcRef>],
    Ghost(rings): Ghost<Seq<Seq<Pt>>>,
) -> (r: Zone)
    requires
        stands_in(deep(arcs@), deep(arcs@)),
        arcs_bounded(deep(arcs@), RING_LIMIT + 1),
        rings_bounded(rings),
        lists_fit(deep(arcs@), deep_refs(lists@), rings),
        base + 1 + zone.holes@.len() <= rings.len(),
        has_area(ring_of(deep(arcs@), deep_refs(lists@)[base as int])),
    ensures
        rebuilt_as(*zone, r, deep(arcs@), deep_refs(lists@), base as int),
        zone_rebuilt(r, deep(arcs@)),
        zone_indexable(r, deep(arcs@)),
        zone_refs_exist(r, arcs@.len() as int),
        zone_weight(deep(arcs@), r) <= 2 * (vertex_count(rings, base + 1 + zone.holes@.len())
            - vertex_count(rings, base as int)),
{
    let ghost model = deep(arcs@);
    let ghost all = deep_refs(lists@);
    let count = lists.len();
    proof {
        assert(count == rings.len());
        lemma_stored_ring(model, all, rings, base as int);
        assert(list_fits(model, all[base as int], rings[base as int].len() as int));
        assert(all[base as int] == lists@[base as int]@);
        reveal(rebuildable);
    }
    let outer_refs = copy_refs(lists[base].as_slice());
    let outer = reconstruct(arcs, lists[base].as_slice());
    let a = ring_size(outer.as_slice());
    let aabb = poly_aabb(outer.as_slice());
    let (holes, hole_aabbs, hole_refs) = rebuild_holes(
        base + 1,
        zone.holes.len(),
        arcs,
        lists,
        Ghost(rings),
    );
    let r = Zone {
        id: zone.id,
        tzid: zone.tzid,
        aabb,
        a,
        outer,
        holes,
        hole_aabbs,
        outer_refs,
        hole_refs,
    };
    proof {
        let kept = surviving(model, all, base + 1, zone.holes@.len() as int);
        lemma_holes_weight(model, r, r.hole_refs@.len() as int);
        assert(vertex_count(rings, base + 1) == vertex_count(rings, base as int)
            + rings[base as int].len());
        assert forall|j: int| 0 <= j < kept.len() implies is_aabb_of(
            #[trigger] r.hole_aabbs@[j],
            r.holes@[j]@,
        ) by {
            assert(r.hole_refs@[j]@ == all[base + 1 + kept[j]]);
        }
    }
    r
}

/// The number of vertices of all the arcs.
fn count_vertices(arcs: &[Vec<Pt>]) -> (r: usize)
    requires
        vertex_count(deep(arcs@), arcs@.len() as int) <= usize::MAX,
    ensures
        r == vertex_count(deep(arcs@), arcs@.len() as int),
{
    let mut total: usize = 0;
    let mut k: usize = 0;
    while k < arcs.len()
        invariant
            0 <= k <= arcs@.len(),
            vertex_count(deep(arcs@), arcs@.len() as int) <= usize::MAX,
            total == vertex_count(deep(arcs@), k as int),
        decreases arcs.len() - k,
    {
        proof {
            lemma_vertex_count_monotone(deep(arcs@), k + 1, arcs@.len() as int);
        }
        total += arcs[k].len();
        k += 1;
    }
    total
}

proof fn lemma_vertex_count_monotone(paths: Seq<Seq<Pt>>, j: int, k: int)
    requires
        j <= k,
    ensures
        0 <= vertex_count(paths, j) <= vertex_count(paths, k),
    decreases k,
{
    if k > 0 {
        if j == k {
            lemma_vertex_count_monotone(paths, j - 1, k - 1);
        } else {
            lemma_vertex_count_monotone(paths, j, k - 1);
        }
    }
}

proof fn lemma_fewer_vertices(a: Seq<Seq<Pt>>, b: Seq<Seq<Pt>>, k: int)
    requires
        stands_in(a, b),
        k <= b.len(),
    ensures
        vertex_count(a, k) <= vertex_count(b, k),
    decreases k,
{
    if k > 0 {
        lemma_fewer_vertices(a, b, k - 1);
        assert(2 <= a[k - 1].len() <= b[k - 1].len());
    }
}

/// Restore the arcs of every outer ring that has collapsed.
fn restore_collapsed(
    arcs: &mut Vec<Vec<Pt>>,
    full: &[Vec<Pt>],
    lists: &[Vec<ArcRef>],
    starts: &[usize],
    Ghost(zones): Ghost<Seq<Zone>>,
)
    requires
        stands_in(deep(old(arcs)@), deep(full@)),
        stands_in(deep(full@), deep(full@)),
        starts@.len() == zones.len(),
        forall|z: int|
            0 <= z < zones.len() ==> (#[trigger] starts@[z]) == first_ring(zones, z) && starts@[z]
                < lists@.len(),
        forall|z: int|
            0 <= z < zones.len() ==> chained(
                deep(full@),
                #[trigger] deep_refs(lists@)[first_ring(zones, z)],
            ) && ring_of(deep(full@), deep_refs(lists@)[first_ring(zones, z)]).len() >= 3,
    ensures
        deep(final(arcs)@) == restored(
            deep(old(arcs)@),
            deep(full@),
            deep_refs(lists@),
            zones,
            zones.len() as int,
        ),
{
    let ghost first = deep(arcs@);
    let ghost model = deep(full@);
    let ghost all = deep_refs(lists@);
    let mut k: usize = 0;
    while k < starts.len()
        invariant
            0 <= k <= starts@.len(),
            starts@.len() == zones.len(),
            first == deep(old(arcs)@),
            model == deep(full@),
            all == deep_refs(lists@),
            stands_in(first, model),
            stands_in(model, model),
            forall|z: int|
                0 <= z < zones.len() ==> (#[trigger] starts@[z]) == first_ring(zones, z)
                    && starts@[z] < lists@.len(),
            forall|z: int|
                0 <= z < zones.len() ==> chained(model, #[trigger] all[first_ring(zones, z)])
                    && ring_of(model, all[first_ring(zones, z)]).len() >= 3,
            deep(arcs@) == restored(first, model, all, zones, k as int),
        decreases starts.len() - k,
    {
        let at = starts[k];
        let ghost now = deep(arcs@);
        proof {
            lemma_restored(first, model, all, zones, k as int);
            let refs = all[first_ring(zones, k as int)];
            assert(refs == lists@[at as int]@);
            lemma_stands_in_chained(now, model, refs);
            assert(refs_valid(now, refs));
            assert(refs_exist(refs, now.len() as int));
        }
        let ring = reconstruct(arcs.as_slice(), lists[at].as_slice());
        if ring.len() < 3 {
            restore(arcs, full, lists[at].as_slice());
        }
        k += 1;
    }
}

/// The simplified arcs stand in for the full ones.
proof fn lemma_kept_stand_in(full: Seq<Seq<Pt>>, keep: Seq<usize>)
    requires
        arcs_bounded(full, RING_LIMIT + 1),
    ensures
        stands_in(Seq::new(full.len(), |i: int| kept_arc(full[i], keep)), full),
        stands_in(full, full),
{
    let kept = Seq::new(full.len(), |i: int| kept_arc(full[i], keep));
    assert forall|i: int| 0 <= i < full.len() implies {
        &&& 2 <= (#[trigger] kept[i]).len() <= full[i].len()
        &&& kept[i][0] == full[i][0]
        &&& kept[i].last() == full[i].last()
        &&& in_domain(kept[i])
    } by {
        assert(2 <= full[i].len());
        lemma_kept_arc(full[i], keep);
    }
}

proof fn lemma_stands_in_self(arcs: Seq<Seq<Pt>>, full: Seq<Seq<Pt>>)
    requires
        stands_in(arcs, full),
        arcs_bounded(full, RING_LIMIT + 1),
    ensures
        stands_in(arcs, arcs),
        arcs_bounded(arcs, RING_LIMIT + 1),
{
    assert forall|i: int| 0 <= i < arcs.len() implies 2 <= (#[trigger] arcs[i]).len() <= RING_LIMIT
        + 1 && in_domain(arcs[i]) by {
        assert(2 <= full[i].len() <= RING_LIMIT + 1);
    }
}

/// The zones' weights add up to at most twice their vertices.
proof fn lemma_list_weight(
    before: Seq<Zone>,
    after: Seq<Zone>,
    arcs: Seq<Seq<Pt>>,
    rings: Seq<Seq<Pt>>,
    k: int,
)
    requires
        0 <= k <= before.len(),
        after.len() == before.len(),
        before.len() <= usize::MAX,
        forall|z: int|
            0 <= z < before.len() ==> zone_weight(arcs, #[trigger] after[z]) <= 2 * (vertex_count(
                rings,
                first_ring(before, z + 1),
            ) - vertex_count(rings, first_ring(before, z))),
    ensures
        list_weight(all_ids(k), after, arcs) <= 2 * vertex_count(rings, first_ring(before, k)),
    decreases k,
{
    if k > 0 {
        lemma_list_weight(before, after, arcs, rings, k - 1);
        assert(all_ids(k).drop_last() =~= all_ids(k - 1));
        assert(all_ids(k).last() == k - 1);
        assert(zone_weight(arcs, after[k - 1]) <= 2 * (vertex_count(
            rings,
            first_ring(before, k),
        ) - vertex_count(rings, first_ring(before, k - 1))));
    } else {
        assert(all_ids(0) =~= Seq::<usize>::empty());
        assert(flat_rings(before, 0).len() == 0);
        assert(vertex_count(rings, 0) == 0);
    }
}

/// The full arcs and lists of the zones' rings.
proof fn lemma_full_lists(zones: Seq<Zone>)
    requires
        rings_bounded(flat_rings(zones, zones.len() as int)),
        forall|k: int| 0 <= k < zones.len() ==> (#[trigger] zones[k]).outer@.len() >= 3,
        ({
            let rings = flat_rings(zones, zones.len() as int);
            topology_of(rings, rings.len() as int).0.len() <= usize::MAX
        }),
    ensures
        ({
            let rings = flat_rings(zones, zones.len() as int);
            let (full, lists) = topology_of(rings, rings.len() as int);
            &&& lists.len() == rings.len()
            &&& arcs_bounded(full, RING_LIMIT + 1)
            &&& forall|r: int|
                0 <= r < rings.len() ==> chained(full, #[trigger] lists[r]) && ring_of(
                    full,
                    lists[r],
                ).len() == rings[r].len()
            &&& forall|z: int|
                0 <= z < zones.len() ==> chained(full, #[trigger] lists[first_ring(zones, z)])
                    && ring_of(full, lists[first_ring(zones, z)]).len() >= 3
        }),
{
    let n = zones.len() as int;
    let rings = flat_rings(zones, n);
    let (full, lists) = topology_of(rings, rings.len() as int);
    crate::arcs::lemma_topology_of(rings, rings.len() as int);
    lemma_topology_bounded(rings, rings.len() as int);
    assert forall|r: int| 0 <= r < rings.len() implies chained(full, #[trigger] lists[r])
        && ring_of(full, lists[r]).len() == rings[r].len() by {
        lemma_topology_ring(rings, r);
    }
    assert forall|z: int| 0 <= z < zones.len() implies chained(
        full,
        #[trigger] lists[first_ring(zones, z)],
    ) && ring_of(full, lists[first_ring(zones, z)]).len() >= 3 by {
        lemma_flat_rings(zones, z, n);
        assert(zones[z].outer@.len() >= 3);
    }
}

/// The stored arcs and the lists of the zones' rings over them.
proof fn lemma_stored_lists(zones: Seq<Zone>, keep: Seq<usize>)
    requires
        rings_bounded(flat_rings(zones, zones.len() as int)),
        forall|k: int| 0 <= k < zones.len() ==> (#[trigger] zones[k]).outer@.len() >= 3,
        ({
            let rings = flat_rings(zones, zones.len() as int);
            topology_of(rings, rings.len() as int).0.len() <= usize::MAX
        }),
    ensures
        ({
            let rings = flat_rings(zones, zones.len() as int);
            let (full, lists) = topology_of(rings, rings.len() as int);
            let stored = stored_arcs(zones, keep);
            &&& stands_in(Seq::new(full.len(), |i: int| kept_arc(full[i], keep)), full)
            &&& stands_in(full, full)
            &&& stands_in(stored, full)
            &&& stands_in(stored, stored)
            &&& arcs_bounded(stored, RING_LIMIT + 1)
            &&& lists_fit(stored, lists, rings)
            &&& forall|z: int|
                0 <= z < zones.len() ==> ring_of(
                    stored,
                    #[trigger] lists[first_ring(zones, z)],
                ).len() >= 3
        }),
{
    let n = zones.len() as int;
    let rings = flat_rings(zones, n);
    let (full, lists) = topology_of(rings, rings.len() as int);
    let kept = Seq::new(full.len(), |i: int| kept_arc(full[i], keep));
    let stored = stored_arcs(zones, keep);
    lemma_full_lists(zones);
    lemma_kept_stand_in(full, keep);
    lemma_restored(kept, full, lists, zones, n);
    lemma_stands_in_self(stored, full);
    assert forall|r: int| 0 <= r < rings.len() implies list_fits(
        stored,
        #[trigger] lists[r],
        rings[r].len() as int,
    ) by {
        lemma_list_fits(stored, full, lists[r], rings[r].len() as int);
    }
}

/// The rings of the zone have vertices, and all of them lie in the domain.
pub open spec fn zone_in_domain(zone: Zone) -> bool {
    &&& zone.outer@.len() > 0 && in_domain(zone.outer@)
    &&& forall|h: int|
        0 <= h < zone.holes@.len() ==> (#[trigger] zone.holes@[h])@.len() > 0 && in_domain(
            zone.holes@[h]@,
        )
}

proof fn lemma_flat_in_domain(zones: Seq<Zone>, k: int)
    requires
        0 <= k <= zones.len(),
        forall|z: int| 0 <= z < zones.len() ==> zone_in_domain(#[trigger] zones[z]),
    ensures
        forall|r: int|
            0 <= r < flat_rings(zones, k).len() ==> (#[trigger] flat_rings(zones, k)[r]).len() > 0
                && in_domain(flat_rings(zones, k)[r]),
    decreases k,
{
    if k > 0 {
        lemma_flat_in_domain(zones, k - 1);
        let before = flat_rings(zones, k - 1);
        let rings = flat_rings(zones, k);
        let zone = zones[k - 1];
        assert(zone_in_domain(zone));
        assert forall|r: int| 0 <= r < rings.len() implies (#[trigger] rings[r]).len() > 0
            && in_domain(rings[r]) by {
            if r < before.len() {
                assert(rings[r] == before[r]);
            } else if r > before.len() {
                assert(rings[r] == zone.holes@[r - before.len() - 1]@);
            }
        }
    }
}

proof fn lemma_rings_bounded(out: Output)
    requires
        out.rings_in_domain(),
        out.rings_countable(),
    ensures
        rings_bounded(flat_rings(out.zones@, out.zones@.len() as int)),
{
    lemma_flat_in_domain(out.zones@, out.zones@.len() as int);
}

/// The areas of the outer rings that the stored arcs rebuild can be computed.
pub open spec fn areas_fit(zones: Seq<Zone>, keep: Seq<usize>) -> bool {
    let rings = flat_rings(zones, zones.len() as int);
    let lists = topology_of(rings, rings.len() as int).1;
    forall|z: int|
        0 <= z < zones.len() ==> has_area(
            ring_of(stored_arcs(zones, keep), #[trigger] lists[first_ring(zones, z)]),
        )
}

/// The stored arcs, the references of every ring, and the index of each zone's
/// first ring.
spec fn factored(
    zones: Seq<Zone>,
    keep: Seq<usize>,
    arcs: Seq<Vec<Pt>>,
    lists: Seq<Vec<ArcRef>>,
    starts: Seq<usize>,
) -> bool {
    let rings = flat_rings(zones, zones.len() as int);
    &&& topology_of(rings, rings.len() as int).0.len() <= usize::MAX
    &&& deep(arcs) == stored_arcs(zones, keep)
    &&& deep_refs(lists) == topology_of(rings, rings.len() as int).1
    &&& starts.len() == zones.len()
    &&& forall|z: int|
        0 <= z < zones.len() ==> (#[trigger] starts[z]) == first_ring(zones, z) && starts[z]
            < lists.len()
}

/// The zones are rebuilt from their shared arcs, and `r` counts the arcs and
/// their vertices.
pub open spec fn refitted(
    before: Output,
    after: Output,
    keep: Seq<usize>,
    r: (usize, usize),
) -> bool {
    let rings = flat_rings(before.zones@, before.zones@.len() as int);
    let arcs = deep(after.arcs@);
    &&& arcs == stored_arcs(before.zones@, keep)
    &&& after.zones@.len() == before.zones@.len()
    &&& forall|k: int|
        0 <= k < before.zones@.len() ==> rebuilt_as(
            before.zones@[k],
            #[trigger] after.zones@[k],
            arcs,
            topology_of(rings, rings.len() as int).1,
            first_ring(before.zones@, k),
        )
    &&& after.arena == before.arena
    &&& after.root == before.root
    &&& after.tz == before.tz
    &&& after.arc_packed == before.arc_packed
    &&& r.0 == after.arcs@.len()
    &&& r.1 == vertex_count(arcs, after.arcs@.len() as int)
    &&& after.well_formed()
    &&& before.is_flat() ==> after.is_flat()
    &&& after.refs_in_range()
    &&& after.is_indexable()
    &&& after.is_rebuilt()
    &&& arcs_bounded(arcs, RING_LIMIT + 1)
    &&& after.arcs@.len() <= WEIGHT_LIMIT
    &&& list_weight(all_ids(after.zones@.len() as int), after.zones@, arcs) <= WEIGHT_LIMIT
}

impl Output {
    /// The rings of all zones have vertices, and all of them lie in the domain, as
    /// quantization leaves them.
    pub open spec fn rings_in_domain(&self) -> bool {
        forall|z: int| 0 <= z < self.zones@.len() ==> zone_in_domain(#[trigger] self.zones@[z])
    }

    /// The vertices of all rings can be numbered and counted.
    pub open spec fn rings_countable(&self) -> bool {
        let rings = flat_rings(self.zones@, self.zones@.len() as int);
        &&& forall|r: int| 0 <= r < rings.len() ==> (#[trigger] rings[r]).len() <= RING_LIMIT
        &&& 2 * vertex_count(rings, rings.len() as int) <= usize::MAX
        &&& 2 * vertex_count(rings, rings.len() as int) <= WEIGHT_LIMIT
    }

    /// Factor every zone's rings into shared arcs and simplify each arc by the
    /// table; the arcs of an outer ring that would collapse are kept in full.
    /// Gives the arcs, the references of every ring, and the index of each
    /// zone's first ring.
    #[verifier::spinoff_prover]
    fn factor(&self, keep: &[usize]) -> (r: (Vec<Vec<Pt>>, Vec<Vec<ArcRef>>, Vec<usize>))
        requires
            self.well_formed(),
            self.rings_in_domain(),
            self.rings_countable(),
        ensures
            factored(self.zones@, keep@, r.0@, r.1@, r.2@),
    {
        let ghost zones = self.zones@;
        let n = self.zones.len();
        let (rings, starts) = flatten(self.zones.as_slice());
        let ghost flat = flat_rings(zones, n as int);
        proof {
            lemma_rings_bounded(*self);
            assert forall|k: int| 0 <= k < rings@.len() implies (#[trigger] rings@[k])@.len() > 0 by {
                assert(flat[k] == rings@[k]@);
            }
        }
        let (full, lists) = build(rings.as_slice());
        let ghost model = deep(full@);
        let ghost all = deep_refs(lists@);
        proof {
            assert(flat.len() == rings@.len());
            lemma_topology_bounded(flat, flat.len() as int);
            assert forall|k: int| 0 <= k < full@.len() implies triples_fit((#[trigger] full@[k])@) by {
                assert(in_domain(model[k]));
                lemma_triples_fit(model[k]);
            }
        }
        let mut arcs = vw_simplify_all(full.as_slice(), keep);
        let ghost kept = Seq::new(model.len(), |i: int| kept_arc(model[i], keep@));
        let arc_count = full.len();
        proof {
            assert(deep(arcs@) =~= kept);
            assert(model.len() == arc_count);
            lemma_outer_sizes(*self);
            lemma_full_lists(zones);
            assert forall|z: int| 0 <= z < zones.len() implies (#[trigger] starts@[z])
                == first_ring(zones, z) && starts@[z] < lists@.len() by {
                lemma_flat_rings(zones, z, n as int);
            }
            lemma_stored_lists(zones, keep@);
        }
        restore_collapsed(
            &mut arcs,
            full.as_slice(),
            lists.as_slice(),
            starts.as_slice(),
            Ghost(zones),
        );
        (arcs, lists, starts)
    }

    /// Rebuild every zone from the arcs.
    #[verifier::spinoff_prover]
    #[verifier::rlimit(60)]
    fn refit(
        &mut self,
        arcs: Vec<Vec<Pt>>,
        lists: Vec<Vec<ArcRef>>,
        starts: Vec<usize>,
        Ghost(keep): Ghost<Seq<usize>>,
    ) -> (r: (usize, usize))
        requires
            old(self).well_formed(),
            old(self).rings_in_domain(),
            old(self).rings_countable(),
            factored(old(self).zones@, keep, arcs@, lists@, starts@),
            areas_fit(old(self).zones@, keep),
        ensures
            refitted(*old(self), *final(self), keep, r),
    {
        let ghost zones = self.zones@;
        let n = self.zones.len();
        let ghost flat = flat_rings(zones, n as int);
        let ghost model = topology_of(flat, flat.len() as int).0;
        let ghost all = deep_refs(lists@);
        let ghost stored = deep(arcs@);
        proof {
            lemma_rings_bounded(*self);
            lemma_outer_sizes(*self);
            lemma_topology_bounded(flat, flat.len() as int);
            lemma_full_lists(zones);
            lemma_stored_lists(zones, keep);
        }
        let mut rebuilt: Vec<Zone> = Vec::with_capacity(n);
        let mut k: usize = 0;
        while k < n
            invariant
                0 <= k <= n,
                n == zones.len(),
                zones == self.zones@,
                self.zones == old(self).zones,
                starts@.len() == n,
                flat == flat_rings(zones, n as int),
                stored == deep(arcs@),
                all == deep_refs(lists@),
                stands_in(stored, stored),
                arcs_bounded(stored, RING_LIMIT + 1),
                rings_bounded(flat),
                lists_fit(stored, all, flat),
                forall|z: int|
                    0 <= z < zones.len() ==> has_area(
                        ring_of(stored, #[trigger] all[first_ring(zones, z)]),
                    ),
                forall|z: int|
                    0 <= z < zones.len() ==> (#[trigger] starts@[z]) == first_ring(zones, z)
                        && starts@[z] < lists@.len(),
                rebuilt@.len() == k,
                forall|z: int|
                    0 <= z < k ==> rebuilt_as(
                        zones[z],
                        #[trigger] rebuilt@[z],
                        stored,
                        all,
                        first_ring(zones, z),
                    ),
                forall|z: int|
                    0 <= z < k ==> {
                        &&& zone_rebuilt(#[trigger] rebuilt@[z], stored)
                        &&& zone_indexable(rebuilt@[z], stored)
                        &&& zone_refs_exist(rebuilt@[z], stored.len() as int)
                        &&& zone_weight(stored, rebuilt@[z]) <= 2 * (vertex_count(
                            flat,
                            first_ring(zones, z + 1),
                        ) - vertex_count(flat, first_ring(zones, z)))
                    },
                self.arena == old(self).arena,
                self.root == old(self).root,
                self.tz == old(self).tz,
                self.arc_packed == old(self).arc_packed,
            decreases n - k,
        {
            proof {
                lemma_flat_rings(zones, k as int, n as int);
                assert(starts@[k as int] == first_ring(zones, k as int));
                assert(has_area(ring_of(stored, all[first_ring(zones, k as int)])));
            }
            let zone = rebuild_zone(
                &self.zones[k],
                starts[k],
                arcs.as_slice(),
                lists.as_slice(),
                Ghost(flat),
            );
            rebuilt.push(zone);
            k += 1;
        }
        proof {
            lemma_fewer_vertices(stored, model, model.len() as int);
            lemma_arcs_counted(stored, stored.len() as int);
            lemma_list_weight(zones, rebuilt@, stored, flat, n as int);
            assert forall|i: int| 0 <= i < rebuilt@.len() implies (#[trigger] rebuilt@[i]).id == i
                && rebuilt@[i].tzid == zones[i].tzid && rebuilt@[i].boxes_match()
                && rebuilt@[i].outer@.len() >= 3 by {
                assert(rebuilt_as(zones[i], rebuilt@[i], stored, all, first_ring(zones, i)));
                assert(zones[i].id == i);
                assert(ring_of(stored, all[first_ring(zones, i)]).len() >= 3);
            }
            assert(ids_match(rebuilt@, self.tz@)) by {
                assert forall|i: int| 0 <= i < rebuilt@.len() implies (#[trigger] rebuilt@[i]).id == i
                    && rebuilt@[i].tzid < self.tz@.len()
                    && self.tz@[rebuilt@[i].tzid as int].refs@.contains(i as usize) by {
                    assert(zones[i].id == i);
                }
                assert forall|t: int, j: int|
                    #![trigger self.tz@[t].refs@[j]]
                    0 <= t < self.tz@.len() && 0 <= j < self.tz@[t].refs@.len() implies self.tz@[t].refs@[j]
                    < rebuilt@.len() && rebuilt@[self.tz@[t].refs@[j] as int].tzid == t by {
                    assert(zones[self.tz@[t].refs@[j] as int].tzid == t);
                }
            }
        }
        let verts = count_vertices(arcs.as_slice());
        let count = arcs.len();
        self.zones = rebuilt;
        self.arcs = arcs;
        proof {
            lemma_weights_within(self.zones@, stored, n as int);
        }
        (count, verts)
    }

    /// Factor every zone's rings into shared arcs, simplify each arc by the
    /// table of targets (`keep[n]` vertices of an arc of `n`; an empty table
    /// loses nothing), then rebuild each zone's rings from the arcs.  The arcs
    /// of an outer ring that would collapse are kept in full; a hole that
    /// collapses is dropped.  Returns the number of arcs and of their vertices.
    pub fn build_topology(&mut self, keep: &[usize]) -> (r: (usize, usize))
        requires
            old(self).well_formed(),
            old(self).rings_in_domain(),
            old(self).rings_countable(),
            areas_fit(old(self).zones@, keep@),
        ensures
            refitted(*old(self), *final(self), keep@, r),
    {
        let (arcs, lists, starts) = self.factor(keep);
        self.refit(arcs, lists, starts, Ghost(keep@))
    }

    /// As `build_topology`, unless the area of a rebuilt outer ring cannot be
    /// computed: then nothing is changed.
    pub fn try_build_topology(&mut self, keep: &[usize]) -> (r: Option<(usize, usize)>)
        requires
            old(self).well_formed(),
            old(self).rings_in_domain(),
            old(self).rings_countable(),
        ensures
            r is Some <==> areas_fit(old(self).zones@, keep@),
            r matches Some(counts) ==> refitted(*old(self), *final(self), keep@, counts),
            r is None ==> *final(self) == *old(self),
    {
        let (arcs, lists, starts) = self.factor(keep);
        let ghost zones = self.zones@;
        let n = self.zones.len();
        let ghost flat = flat_rings(zones, n as int);
        let ghost all = deep_refs(lists@);
        let ghost stored = deep(arcs@);
        proof {
            lemma_rings_bounded(*self);
            lemma_outer_sizes(*self);
            lemma_stored_lists(zones, keep@);
        }
        let mut k: usize = 0;
        while k < n
            invariant
                0 <= k <= n,
                n == zones.len(),
                zones == self.zones@,
                *self == *old(self),
                starts@.len() == n,
                flat == flat_rings(zones, n as int),
                all == topology_of(flat, flat.len() as int).1,
                stored == stored_arcs(zones, keep@),
                stored == deep(arcs@),
                all == deep_refs(lists@),
                stands_in(stored, stored),
                arcs_bounded(stored, RING_LIMIT + 1),
                rings_bounded(flat),
                lists_fit(stored, all, flat),
                forall|z: int|
                    0 <= z < zones.len() ==> (#[trigger] starts@[z]) == first_ring(zones, z)
                        && starts@[z] < lists@.len(),
                forall|z: int|
                    0 <= z < k ==> has_area(ring_of(stored, #[trigger] all[first_ring(zones, z)])),
            decreases n - k,
        {
            let at = starts[k];
            proof {
                lemma_flat_rings(zones, k as int, n as int);
                assert(at == first_ring(zones, k as int));
                lemma_stored_ring(stored, all, flat, at as int);
                assert(all[at as int] == lists@[at as int]@);
            }
            let ring = reconstruct(arcs.as_slice(), lists[at].as_slice());
            if !can_measure(ring.as_slice()) {
                proof {
                    assert(!has_area(ring_of(stored, all[first_ring(zones, k as int)])));
                }
                return None;
            }
            k += 1;
        }
        Some(self.refit(arcs, lists, starts, Ghost(keep@)))
    }
}

/// Every zone of a well-formed artifact has an outer ring.
proof fn lemma_outer_sizes(out: Output)
    requires
        out.well_formed(),
    ensures
        forall|z: int| 0 <= z < out.zones@.len() ==> (#[trigger] out.zones@[z]).outer@.len() >= 3,
{
    assert forall|z: int| 0 <= z < out.zones@.len() implies (#[trigger] out.zones@[z]).outer@.len()
        >= 3 by {
        assert(out.zones@[z].boxes_match());
    }
}

/// There are no more arcs than vertices.
proof fn lemma_arcs_counted(arcs: Seq<Seq<Pt>>, k: int)
    requires
        arcs_bounded(arcs, RING_LIMIT + 1),
        0 <= k <= arcs.len(),
    ensures
        k <= vertex_count(arcs, k),
    decreases k,
{
    if k > 0 {
        lemma_arcs_counted(arcs, k - 1);
        assert(2 <= arcs[k - 1].len());
    }
}

/// Each zone weighs no more than all of them.
proof fn lemma_weights_within(zones: Seq<Zone>, arcs: Seq<Seq<Pt>>, k: int)
    requires
        0 <= k <= zones.len() <= usize::MAX,
    ensures
        0 <= list_weight(all_ids(k), zones, arcs),
        forall|z: int|
            0 <= z < k ==> zone_weight(arcs, #[trigger] zones[z]) <= list_weight(
                all_ids(k),
                zones,
                arcs,
            ),
    decreases k,
{
    if k > 0 {
        lemma_weights_within(zones, arcs, k - 1);
        assert(all_ids(k).drop_last() =~= all_ids(k - 1));
        assert(all_ids(k).last() == k - 1);
        crate::cost::lemma_zone_cost(arcs, zones[k - 1], [[0, 0], [0, 0]]);
    }
}

/// Without a table nothing is lost: the stored arcs are those of the rings, so
/// every outer ring comes back as a rotation of itself.
pub proof fn law_empty_table_loses_nothing(zones: Seq<Zone>, z: int)
    requires
        0 <= z < zones.len(),
        rings_bounded(flat_rings(zones, zones.len() as int)),
        forall|k: int| 0 <= k < zones.len() ==> (#[trigger] zones[k]).outer@.len() >= 3,
        ({
            let rings = flat_rings(zones, zones.len() as int);
            topology_of(rings, rings.len() as int).0.len() <= usize::MAX
        }),
    ensures
        ({
            let rings = flat_rings(zones, zones.len() as int);
            let (full, lists) = topology_of(rings, rings.len() as int);
            &&& stored_arcs(zones, Seq::empty()) == full
            &&& ring_of(full, lists[first_ring(zones, z)]) == rotated(
                zones[z].outer@,
                first_junction(zones[z].outer@, rings),
            )
            &&& forall|h: int|
                0 <= h < zones[z].holes@.len() ==> ring_of(
                    full,
                    #[trigger] lists[first_ring(zones, z) + 1 + h],
                ) == rotated(zones[z].holes@[h]@, first_junction(zones[z].holes@[h]@, rings))
        }),
{
    let n = zones.len() as int;
    let rings = flat_rings(zones, n);
    let (full, lists) = topology_of(rings, rings.len() as int);
    let kept = Seq::new(full.len(), |i: int| kept_arc(full[i], Seq::<usize>::empty()));
    assert(kept =~= full);
    lemma_full_lists(zones);
    lemma_flat_rings(zones, z, n);
    lemma_topology_ring(rings, first_ring(zones, z));
    assert forall|h: int| 0 <= h < zones[z].holes@.len() implies ring_of(
        full,
        #[trigger] lists[first_ring(zones, z) + 1 + h],
    ) == rotated(zones[z].holes@[h]@, first_junction(zones[z].holes@[h]@, rings)) by {
        let at = first_ring(zones, z) + 1 + h;
        assert(rings[at] == zones[z].holes@[h]@);
        lemma_topology_ring(rings, at);
    }
    lemma_nothing_restored(full, lists, zones, n);
}

/// Without a table the areas of the rebuilt rings are those of the rings, so
/// that they can be computed if the zones' own areas can.
pub proof fn law_lossless_areas_fit(zones: Seq<Zone>)
    requires
        rings_bounded(flat_rings(zones, zones.len() as int)),
        forall|k: int|
            0 <= k < zones.len() ==> (#[trigger] zones[k]).outer@.len() >= 3 && has_area(
                zones[k].outer@,
            ),
        ({
            let rings = flat_rings(zones, zones.len() as int);
            topology_of(rings, rings.len() as int).0.len() <= usize::MAX
        }),
    ensures
        areas_fit(zones, Seq::empty()),
{
    let rings = flat_rings(zones, zones.len() as int);
    let (full, lists) = topology_of(rings, rings.len() as int);
    assert forall|z: int| 0 <= z < zones.len() implies has_area(
        ring_of(stored_arcs(zones, Seq::empty()), #[trigger] lists[first_ring(zones, z)]),
    ) by {
        let ring = zones[z].outer@;
        law_empty_table_loses_nothing(zones, z);
        lemma_flat_rings(zones, z, zones.len() as int);
        assert(rings[first_ring(zones, z)] == ring);
        assert(in_domain(ring));
        assert(has_area(ring));
        let at = first_junction(ring, rings);
        crate::arcs::lemma_junction_positions(ring, rings, ring.len() as int);
        law_area_rotation(ring, at);
        let turned = rotated(ring, at);
        assert(in_domain(turned));
        let path = closed(turned);
        assert forall|k: int| 0 <= k < path.len() - 1 implies fits_i64(
            (#[trigger] path[k])[0] * path[k + 1][1],
        ) && fits_i64(path[k + 1][0] * path[k][1]) && fits_i64(
            edge_area2(path[k], path[k + 1]),
        ) by {
            lemma_edges_fit(turned, k);
        }
        assert(area2(turned) == area2(ring));
    }
}

proof fn lemma_topology_ring(rings: Seq<Seq<Pt>>, r: int)
    requires
        rings_bounded(rings),
        0 <= r < rings.len(),
        topology_of(rings, rings.len() as int).0.len() <= usize::MAX,
    ensures
        ({
            let (full, lists) = topology_of(rings, rings.len() as int);
            &&& ring_of(full, lists[r]) == rotated(rings[r], first_junction(rings[r], rings))
            &&& chained(full, lists[r])
            &&& ring_of(full, lists[r]).len() == rings[r].len()
        }),
{
    let (full, lists) = topology_of(rings, rings.len() as int);
    crate::arcs::lemma_topology_of(rings, rings.len() as int);
    assert(0 < rings[r].len());
    let refs = lists[r];
    assert forall|i: int| 0 <= i < refs.len() implies (#[trigger] refs[i]).arc < full.len()
        && crate::arcs::oriented(full, refs[i]) == crate::arcs::cut(rings[r], rings)[i] by {
        assert(lists[r][i].arc < full.len());
    }
    crate::arcs::lemma_cut_gives_ring_back(full, refs, rings[r], rings);
}

proof fn lemma_nothing_restored(
    full: Seq<Seq<Pt>>,
    lists: Seq<Seq<ArcRef>>,
    zones: Seq<Zone>,
    k: int,
)
    requires
        0 <= k <= zones.len(),
        forall|z: int|
            0 <= z < zones.len() ==> ring_of(full, #[trigger] lists[first_ring(zones, z)]).len()
                >= 3,
    ensures
        restored(full, full, lists, zones, k) == full,
    decreases k,
{
    if k > 0 {
        lemma_nothing_restored(full, lists, zones, k - 1);
        assert(ring_of(full, lists[first_ring(zones, k - 1)]).len() >= 3);
    }
}

/// The rings stand zone after zone, each outer ring before its holes.
pub proof fn law_rings_in_the_order_of_the_zones(zones: Seq<Zone>, k: int)
    requires
        0 <= k < zones.len(),
    ensures
        first_ring(zones, 0) == 0,
        first_ring(zones, k + 1) == first_ring(zones, k) + 1 + zones[k].holes@.len(),
        flat_rings(zones, zones.len() as int).len() == first_ring(zones, zones.len() as int),
        flat_rings(zones, zones.len() as int)[first_ring(zones, k)] == zones[k].outer@,
        forall|h: int|
            0 <= h < zones[k].holes@.len() ==> #[trigger] flat_rings(
                zones,
                zones.len() as int,
            )[first_ring(zones, k) + 1 + h] == zones[k].holes@[h]@,
{
    lemma_flat_rings(zones, k, zones.len() as int);
}

/// Exactly the holes that keep three vertices survive, in their order.
pub proof fn law_holes_with_three_vertices_survive(
    arcs: Seq<Seq<Pt>>,
    lists: Seq<Seq<ArcRef>>,
    base: int,
    m: int,
)
    requires
        0 <= m,
    ensures
        forall|h: int| #[trigger]
            surviving(arcs, lists, base, m).contains(h) <==> 0 <= h < m && ring_of(
                arcs,
                lists[base + h],
            ).len() >= 3,
        forall|i: int, j: int|
            0 <= i < j < surviving(arcs, lists, base, m).len() ==> surviving(
                arcs,
                lists,
                base,
                m,
            )[i] < surviving(arcs, lists, base, m)[j],
    decreases m,
{
    if m > 0 {
        law_holes_with_three_vertices_survive(arcs, lists, base, m - 1);
        let before = surviving(arcs, lists, base, m - 1);
        let all = surviving(arcs, lists, base, m);
        assert forall|i: int| 0 <= i < before.len() implies 0 <= (#[trigger] before[i]) < m - 1 by {
            assert(before.contains(before[i]));
        }
        assert forall|h: int| #[trigger] all.contains(h) <==> 0 <= h < m && ring_of(
            arcs,
            lists[base + h],
        ).len() >= 3 by {
            if before.contains(h) {
                let i = choose|i: int| 0 <= i < before.len() && before[i] == h;
                assert(all[i] == h);
            }
            if all.len() > before.len() {
                assert(all[before.len() as int] == m - 1);
            }
            if all.contains(h) && h != m - 1 {
                let i = choose|i: int| 0 <= i < all.len() && all[i] == h;
                assert(before[i] == h);
            }
            if all.contains(h) && h == m - 1 && all.len() == before.len() {
                let i = choose|i: int| 0 <= i < all.len() && all[i] == h;
                assert(before[i] == h);
            }
        }
    }
}

/// Some zone's outer ring names the arc and has collapsed over these arcs.
pub open spec fn is_named_by_collapsed(
    arcs: Seq<Seq<Pt>>,
    lists: Seq<Seq<ArcRef>>,
    zones: Seq<Zone>,
    k: int,
    i: int,
) -> bool {
    exists|z: int|
        0 <= z < k && names(#[trigger] lists[first_ring(zones, z)], i) && ring_of(
            arcs,
            lists[first_ring(zones, z)],
        ).len() < 3
}

proof fn lemma_restored_arc(
    arcs: Seq<Seq<Pt>>,
    full: Seq<Seq<Pt>>,
    lists: Seq<Seq<ArcRef>>,
    zones: Seq<Zone>,
    k: int,
    i: int,
)
    requires
        0 <= k <= zones.len(),
        0 <= i < full.len(),
        stands_in(arcs, full),
        stands_in(full, full),
        forall|z: int|
            0 <= z < zones.len() ==> chained(full, #[trigger] lists[first_ring(zones, z)])
                && ring_of(full, lists[first_ring(zones, z)]).len() >= 3,
    ensures
        restored(arcs, full, lists, zones, k)[i] == arcs[i] || (restored(
            arcs,
            full,
            lists,
            zones,
            k,
        )[i] == full[i] && is_named_by_collapsed(arcs, lists, zones, k, i)),
        forall|j: int|
            0 <= j < full.len() ==> arcs[j].len() <= (#[trigger] restored(
                arcs,
                full,
                lists,
                zones,
                k,
            )[j]).len(),
    decreases k,
{
    if k > 0 {
        lemma_restored_arc(arcs, full, lists, zones, k - 1, i);
        lemma_restored(arcs, full, lists, zones, k - 1);
        let before = restored(arcs, full, lists, zones, k - 1);
        let after = restored(arcs, full, lists, zones, k);
        let refs = lists[first_ring(zones, k - 1)];
        assert(chained(full, refs));
        lemma_with_full_stands_in(before, full, refs);
        assert forall|j: int| 0 <= j < full.len() implies arcs[j].len() <= (#[trigger] after[j]).len() by {
            assert(arcs[j].len() <= before[j].len());
            let _ = with_full(before, full, refs)[j];
        }
        if is_named_by_collapsed(arcs, lists, zones, k - 1, i) {
            let z = choose|z: int|
                0 <= z < k - 1 && names(#[trigger] lists[first_ring(zones, z)], i) && ring_of(
                    arcs,
                    lists[first_ring(zones, z)],
                ).len() < 3;
            assert(names(lists[first_ring(zones, z)], i));
            assert(is_named_by_collapsed(arcs, lists, zones, k, i));
        }
        if ring_of(before, refs).len() < 3 && names(refs, i) {
            lemma_stands_in_chained(arcs, full, refs);
            lemma_stands_in_chained(before, full, refs);
            lemma_longer_arcs_longer_ring(arcs, before, refs);
            assert(names(lists[first_ring(zones, k - 1)], i));
            assert(is_named_by_collapsed(arcs, lists, zones, k, i));
        }
    }
}

/// An arc is stored as simplified, but for those of outer rings that would
/// collapse: an arc that is not stored as simplified is stored in full, and some
/// outer ring that names it would be left with fewer than three vertices.  So where
/// no outer ring collapses every arc is stored as simplified; and no outer ring is
/// stored collapsed.
pub proof fn law_only_collapsed_rings_are_restored(zones: Seq<Zone>, keep: Seq<usize>, i: int)
    requires
        rings_bounded(flat_rings(zones, zones.len() as int)),
        forall|k: int| 0 <= k < zones.len() ==> (#[trigger] zones[k]).outer@.len() >= 3,
        ({
            let rings = flat_rings(zones, zones.len() as int);
            let full = topology_of(rings, rings.len() as int).0;
            &&& full.len() <= usize::MAX
            &&& 0 <= i < full.len()
        }),
    ensures
        ({
            let rings = flat_rings(zones, zones.len() as int);
            let (full, lists) = topology_of(rings, rings.len() as int);
            let kept = Seq::new(full.len(), |j: int| kept_arc(full[j], keep));
            let stored = stored_arcs(zones, keep);
            &&& stored.len() == full.len()
            &&& stored[i] == kept[i] || (stored[i] == full[i] && is_named_by_collapsed(
                kept,
                lists,
                zones,
                zones.len() as int,
                i,
            ))
            &&& forall|z: int|
                0 <= z < zones.len() ==> ring_of(
                    stored,
                    #[trigger] lists[first_ring(zones, z)],
                ).len() >= 3
        }),
{
    let n = zones.len() as int;
    let rings = flat_rings(zones, n);
    let (full, lists) = topology_of(rings, rings.len() as int);
    let kept = Seq::new(full.len(), |j: int| kept_arc(full[j], keep));
    lemma_full_lists(zones);
    lemma_kept_stand_in(full, keep);
    lemma_restored(kept, full, lists, zones, n);
    lemma_restored_arc(kept, full, lists, zones, n, i);
}

} // verus!
