//! The lookup cost model.
//!
//! A lookup pays one operation per quadtree level descended, one per arc vertex
//! decoded to rebuild the arcs the localized test needs (a reader decodes the
//! whole of every arc that crosses the cell), and two per ring edge evaluated
//! in the localized point-in-polygon test.  Counting only the arcs that cross
//! the cell keeps the cost subdivision-reducible: a smaller cell is crossed by
//! fewer arcs.
use vstd::prelude::*;

use crate::arcs::{
    chained, deep, lemma_chained_path, lemma_chained_prefix, meets_next, oriented, path_of, ring_of,
};
use crate::artifact::{Zone, RECON_OP, TRAVERSAL_OP, VERTEX_OP};
use crate::geom::{aabbs_overlap, boxes_overlap, edge_touches_aabb, Aabb, Pt};
use crate::segment::{divides_in_box, is_box, meets_box};
use crate::topology::ArcRef;
use crate::winding::{closed, join, lemma_meets_box_reverse};

verus! {

/// The largest total arc length for which costs are computed.
pub const WEIGHT_LIMIT: i64 = 0x1000_0000_0000_0000;

/// How many edges of the open path meet the cell.
pub open spec fn edges_in(path: Seq<Pt>, cell: Aabb) -> int
    decreases path.len(),
{
    if path.len() < 2 {
        0
    } else {
        edges_in(path.drop_last(), cell) + if meets_box(cell, path[path.len() - 2], path.last()) {
            1int
        } else {
            0
        }
    }
}

/// What a reader pays for one arc: all of its vertices decoded, and the edges
/// in the cell evaluated.  Nothing if no edge meets the cell.
pub open spec fn arc_cost(arc: Seq<Pt>, cell: Aabb) -> (int, int) {
    if edges_in(arc, cell) > 0 {
        (arc.len() as int, edges_in(arc, cell))
    } else {
        (0, 0)
    }
}

/// What a reader pays for the arcs of a ring, as vertices decoded and edges
/// evaluated.
pub open spec fn ring_cost(arcs: Seq<Seq<Pt>>, refs: Seq<ArcRef>, cell: Aabb) -> (int, int)
    decreases refs.len(),
{
    if refs.len() == 0 {
        (0, 0)
    } else {
        let before = ring_cost(arcs, refs.drop_last(), cell);
        let last = arc_cost(arcs[refs.last().arc as int], cell);
        (before.0 + last.0, before.1 + last.1)
    }
}

/// What a reader pays for the first `k` holes of a zone; those away from the
/// cell are free.
pub open spec fn holes_cost(arcs: Seq<Seq<Pt>>, zone: Zone, cell: Aabb, k: int) -> (int, int)
    decreases k,
{
    if k <= 0 {
        (0, 0)
    } else {
        let before = holes_cost(arcs, zone, cell, k - 1);
        if boxes_overlap(cell, zone.hole_aabbs@[k - 1]) {
            let last = ring_cost(arcs, zone.hole_refs@[k - 1]@, cell);
            (before.0 + last.0, before.1 + last.1)
        } else {
            before
        }
    }
}

/// What a reader pays for testing one zone in one cell.
pub open spec fn zone_cost(arcs: Seq<Seq<Pt>>, zone: Zone, cell: Aabb) -> (int, int) {
    let outer = ring_cost(arcs, zone.outer_refs@, cell);
    let holes = holes_cost(arcs, zone, cell, zone.hole_refs@.len() as int);
    (outer.0 + holes.0, outer.1 + holes.1)
}

/// What a reader pays for testing all the listed zones in one cell.
pub open spec fn list_cost(
    refz: Seq<usize>,
    zones: Seq<Zone>,
    arcs: Seq<Seq<Pt>>,
    cell: Aabb,
) -> (int, int)
    decreases refz.len(),
{
    if refz.len() == 0 {
        (0, 0)
    } else {
        let before = list_cost(refz.drop_last(), zones, arcs, cell);
        let last = zone_cost(arcs, zones[refz.last() as int], cell);
        (before.0 + last.0, before.1 + last.1)
    }
}

/// The part of the cost that splitting a cell can lower: the descent and the
/// edges evaluated.
pub open spec fn reducible_cost(
    refz: Seq<usize>,
    zones: Seq<Zone>,
    arcs: Seq<Seq<Pt>>,
    cell: Aabb,
    depth: int,
) -> int {
    depth * TRAVERSAL_OP + list_cost(refz, zones, arcs, cell).1 * VERTEX_OP
}

/// The whole cost of a lookup that ends in the cell.
pub open spec fn true_cost(
    refz: Seq<usize>,
    zones: Seq<Zone>,
    arcs: Seq<Seq<Pt>>,
    cell: Aabb,
    depth: int,
) -> int {
    let (recon, edges) = list_cost(refz, zones, arcs, cell);
    depth * TRAVERSAL_OP + recon * RECON_OP + edges * VERTEX_OP
}

/// The total length of a ring's arcs.
pub open spec fn ring_weight(arcs: Seq<Seq<Pt>>, refs: Seq<ArcRef>) -> int
    decreases refs.len(),
{
    if refs.len() == 0 {
        0
    } else {
        ring_weight(arcs, refs.drop_last()) + arcs[refs.last().arc as int].len()
    }
}

pub open spec fn holes_weight(arcs: Seq<Seq<Pt>>, zone: Zone, k: int) -> int
    decreases k,
{
    if k <= 0 {
        0
    } else {
        holes_weight(arcs, zone, k - 1) + ring_weight(arcs, zone.hole_refs@[k - 1]@)
    }
}

/// The total length of a zone's arcs.
pub open spec fn zone_weight(arcs: Seq<Seq<Pt>>, zone: Zone) -> int {
    ring_weight(arcs, zone.outer_refs@) + holes_weight(arcs, zone, zone.hole_refs@.len() as int)
}

/// The total length of the listed zones' arcs.
pub open spec fn list_weight(refz: Seq<usize>, zones: Seq<Zone>, arcs: Seq<Seq<Pt>>) -> int
    decreases refz.len(),
{
    if refz.len() == 0 {
        0
    } else {
        list_weight(refz.drop_last(), zones, arcs) + zone_weight(arcs, zones[refz.last() as int])
    }
}

/// Each reference names one of the `n` arcs.
pub open spec fn refs_exist(refs: Seq<ArcRef>, n: int) -> bool {
    forall|k: int| 0 <= k < refs.len() ==> (#[trigger] refs[k]).arc < n
}

/// Each reference of the zone's rings names one of the `n` arcs, and each hole
/// has its box and its references.
pub open spec fn zone_refs_exist(zone: Zone, n: int) -> bool {
    &&& refs_exist(zone.outer_refs@, n)
    &&& zone.hole_refs@.len() == zone.hole_aabbs@.len()
    &&& forall|k: int|
        0 <= k < zone.hole_refs@.len() ==> refs_exist((#[trigger] zone.hole_refs@[k])@, n)
}

/// Each listed id names a zone whose references exist.
pub open spec fn list_exists(refz: Seq<usize>, zones: Seq<Zone>, n: int) -> bool {
    forall|k: int|
        0 <= k < refz.len() ==> (#[trigger] refz[k]) < zones.len() && zone_refs_exist(
            zones[refz[k] as int],
            n,
        )
}

pub proof fn lemma_edges_in(path: Seq<Pt>, cell: Aabb)
    ensures
        0 <= edges_in(path, cell) <= path.len(),
        path.len() > 0 ==> edges_in(path, cell) <= path.len() - 1,
    decreases path.len(),
{
    if path.len() >= 2 {
        lemma_edges_in(path.drop_last(), cell);
    }
}

proof fn lemma_ring_cost(arcs: Seq<Seq<Pt>>, refs: Seq<ArcRef>, cell: Aabb)
    ensures
        0 <= ring_cost(arcs, refs, cell).0 <= ring_weight(arcs, refs),
        0 <= ring_cost(arcs, refs, cell).1 <= ring_weight(arcs, refs),
    decreases refs.len(),
{
    if refs.len() > 0 {
        lemma_ring_cost(arcs, refs.drop_last(), cell);
        lemma_edges_in(arcs[refs.last().arc as int], cell);
    }
}

pub proof fn lemma_ring_weight_prefix(arcs: Seq<Seq<Pt>>, refs: Seq<ArcRef>, k: int)
    requires
        0 <= k <= refs.len(),
    ensures
        0 <= ring_weight(arcs, refs.take(k)) <= ring_weight(arcs, refs),
    decreases refs.len(),
{
    if k == refs.len() {
        assert(refs.take(k) =~= refs);
        if refs.len() > 0 {
            lemma_ring_weight_prefix(arcs, refs.drop_last(), k - 1);
            assert(refs.drop_last().take(k - 1) =~= refs.drop_last());
        }
    } else {
        lemma_ring_weight_prefix(arcs, refs.drop_last(), k);
        assert(refs.drop_last().take(k) =~= refs.take(k));
    }
}

proof fn lemma_holes_cost(arcs: Seq<Seq<Pt>>, zone: Zone, cell: Aabb, k: int)
    ensures
        0 <= holes_cost(arcs, zone, cell, k).0 <= holes_weight(arcs, zone, k),
        0 <= holes_cost(arcs, zone, cell, k).1 <= holes_weight(arcs, zone, k),
    decreases k,
{
    if k > 0 {
        lemma_holes_cost(arcs, zone, cell, k - 1);
        lemma_ring_cost(arcs, zone.hole_refs@[k - 1]@, cell);
    }
}

pub proof fn lemma_holes_weight_prefix(arcs: Seq<Seq<Pt>>, zone: Zone, j: int, k: int)
    requires
        j <= k,
    ensures
        0 <= holes_weight(arcs, zone, j) <= holes_weight(arcs, zone, k),
    decreases k,
{
    if k > 0 {
        lemma_ring_cost(arcs, zone.hole_refs@[k - 1]@, [[0, 0], [0, 0]]);
        if j == k {
            lemma_holes_weight_prefix(arcs, zone, j - 1, k - 1);
        } else {
            lemma_holes_weight_prefix(arcs, zone, j, k - 1);
        }
    }
}

pub proof fn lemma_zone_cost(arcs: Seq<Seq<Pt>>, zone: Zone, cell: Aabb)
    ensures
        0 <= zone_cost(arcs, zone, cell).0 <= zone_weight(arcs, zone),
        0 <= zone_cost(arcs, zone, cell).1 <= zone_weight(arcs, zone),
{
    lemma_ring_cost(arcs, zone.outer_refs@, cell);
    lemma_holes_cost(arcs, zone, cell, zone.hole_refs@.len() as int);
}

/// The cost of a list is bounded by the length of its zones' arcs.
pub proof fn lemma_list_cost(
    refz: Seq<usize>,
    zones: Seq<Zone>,
    arcs: Seq<Seq<Pt>>,
    cell: Aabb,
)
    ensures
        0 <= list_cost(refz, zones, arcs, cell).0 <= list_weight(refz, zones, arcs),
        0 <= list_cost(refz, zones, arcs, cell).1 <= list_weight(refz, zones, arcs),
    decreases refz.len(),
{
    if refz.len() > 0 {
        lemma_list_cost(refz.drop_last(), zones, arcs, cell);
        lemma_zone_cost(arcs, zones[refz.last() as int], cell);
    }
}

proof fn lemma_list_weight_prefix(refz: Seq<usize>, zones: Seq<Zone>, arcs: Seq<Seq<Pt>>, k: int)
    requires
        0 <= k <= refz.len(),
    ensures
        0 <= list_weight(refz.take(k), zones, arcs) <= list_weight(refz, zones, arcs),
    decreases refz.len(),
{
    if k == refz.len() {
        assert(refz.take(k) =~= refz);
        lemma_list_cost(refz, zones, arcs, [[0, 0], [0, 0]]);
    } else {
        lemma_list_weight_prefix(refz.drop_last(), zones, arcs, k);
        assert(refz.drop_last().take(k) =~= refz.take(k));
        lemma_zone_cost(arcs, zones[refz.last() as int], [[0, 0], [0, 0]]);
    }
}

/// How many edges of one arc (an open polyline) cross the cell.
pub fn arc_edges_in_cell(arc: &[Pt], cell: &Aabb) -> (r: usize)
    requires
        is_box(*cell),
    ensures
        r == edges_in(arc@, *cell),
{
    let mut count: usize = 0;
    if arc.len() == 0 {
        return 0;
    }
    let mut i: usize = 0;
    while i < arc.len() - 1
        invariant
            is_box(*cell),
            0 <= i <= arc@.len() - 1,
            count == edges_in(arc@.take(i + 1), *cell),
            count <= i,
        decreases arc.len() - i,
    {
        proof {
            let longer = arc@.take(i + 2);
            assert(longer.drop_last() =~= arc@.take(i + 1));
            assert(longer[longer.len() - 2] == arc@[i as int]);
            assert(longer.last() == arc@[i + 1]);
        }
        if edge_touches_aabb(cell, arc[i], arc[i + 1]) {
            count += 1;
        }
        i += 1;
    }
    proof {
        assert(arc@.take(i + 1) =~= arc@);
    }
    count
}

/// The cost of a ring's arcs, as (vertices decoded, edges evaluated).
fn ring_arcs_cost(refs: &[ArcRef], cell: &Aabb, arcs: &[Vec<Pt>]) -> (r: (i64, i64))
    requires
        is_box(*cell),
        refs_exist(refs@, arcs@.len() as int),
        ring_weight(deep(arcs@), refs@) <= WEIGHT_LIMIT,
    ensures
        r.0 == ring_cost(deep(arcs@), refs@, *cell).0,
        r.1 == ring_cost(deep(arcs@), refs@, *cell).1,
{
    let mut recon: i64 = 0;
    let mut edges: i64 = 0;
    let mut k: usize = 0;
    while k < refs.len()
        invariant
            is_box(*cell),
            refs_exist(refs@, arcs@.len() as int),
            ring_weight(deep(arcs@), refs@) <= WEIGHT_LIMIT,
            0 <= k <= refs@.len(),
            recon == ring_cost(deep(arcs@), refs@.take(k as int), *cell).0,
            edges == ring_cost(deep(arcs@), refs@.take(k as int), *cell).1,
        decreases refs.len() - k,
    {
        let r = refs[k];
        proof {
            let longer = refs@.take(k + 1);
            assert(longer.drop_last() =~= refs@.take(k as int));
            assert(longer.last() == r);
            lemma_ring_cost(deep(arcs@), refs@.take(k as int), *cell);
            lemma_ring_cost(deep(arcs@), longer, *cell);
            lemma_ring_weight_prefix(deep(arcs@), refs@, k + 1);
            lemma_edges_in(deep(arcs@)[r.arc as int], *cell);
            lemma_ring_weight_prefix(deep(arcs@), longer, k as int);
            assert(longer.take(k as int) =~= refs@.take(k as int));
        }
        let c = arc_edges_in_cell(arcs[r.arc].as_slice(), cell);
        if c > 0 {
            recon += arcs[r.arc].len() as i64;
            edges += c as i64;
        }
        k += 1;
    }
    proof {
        assert(refs@.take(k as int) =~= refs@);
    }
    (recon, edges)
}

/// Cost of testing one candidate zone in one cell, as (arc vertices a reader
/// decodes, ring edges it then evaluates).  Holes away from the cell cost
/// nothing.
pub fn candidate_cost(zone: &Zone, cell: &Aabb, arcs: &[Vec<Pt>]) -> (r: (i64, i64))
    requires
        is_box(*cell),
        zone_refs_exist(*zone, arcs@.len() as int),
        zone_weight(deep(arcs@), *zone) <= WEIGHT_LIMIT,
    ensures
        r.0 == zone_cost(deep(arcs@), *zone, *cell).0,
        r.1 == zone_cost(deep(arcs@), *zone, *cell).1,
{
    proof {
        lemma_holes_weight_prefix(deep(arcs@), *zone, 0, zone.hole_refs@.len() as int);
        lemma_ring_cost(deep(arcs@), zone.outer_refs@, *cell);
    }
    let (mut recon, mut edges) = ring_arcs_cost(zone.outer_refs.as_slice(), cell, arcs);
    let mut k: usize = 0;
    while k < zone.hole_refs.len()
        invariant
            is_box(*cell),
            zone_refs_exist(*zone, arcs@.len() as int),
            zone_weight(deep(arcs@), *zone) <= WEIGHT_LIMIT,
            0 <= k <= zone.hole_refs@.len(),
            recon == ring_cost(deep(arcs@), zone.outer_refs@, *cell).0 + holes_cost(
                deep(arcs@),
                *zone,
                *cell,
                k as int,
            ).0,
            edges == ring_cost(deep(arcs@), zone.outer_refs@, *cell).1 + holes_cost(
                deep(arcs@),
                *zone,
                *cell,
                k as int,
            ).1,
        decreases zone.hole_refs.len() - k,
    {
        proof {
            lemma_ring_cost(deep(arcs@), zone.outer_refs@, *cell);
            lemma_holes_cost(deep(arcs@), *zone, *cell, k as int);
            lemma_holes_cost(deep(arcs@), *zone, *cell, k + 1);
            lemma_holes_weight_prefix(deep(arcs@), *zone, k + 1, zone.hole_refs@.len() as int);
            lemma_ring_cost(deep(arcs@), zone.hole_refs@[k as int]@, *cell);
        }
        if aabbs_overlap(cell, &zone.hole_aabbs[k]) {
            let (hr, he) = ring_arcs_cost(zone.hole_refs[k].as_slice(), cell, arcs);
            recon += hr;
            edges += he;
        }
        k += 1;
    }
    (recon, edges)
}

/// The costs of all the listed zones together.
fn candidates_cost(
    refz: &[usize],
    zones: &[Zone],
    arcs: &[Vec<Pt>],
    cell: &Aabb,
) -> (r: (i64, i64))
    requires
        is_box(*cell),
        list_exists(refz@, zones@, arcs@.len() as int),
        list_weight(refz@, zones@, deep(arcs@)) <= WEIGHT_LIMIT,
    ensures
        r.0 == list_cost(refz@, zones@, deep(arcs@), *cell).0,
        r.1 == list_cost(refz@, zones@, deep(arcs@), *cell).1,
{
    let mut recon: i64 = 0;
    let mut edges: i64 = 0;
    let mut k: usize = 0;
    while k < refz.len()
        invariant
            is_box(*cell),
            list_exists(refz@, zones@, arcs@.len() as int),
            list_weight(refz@, zones@, deep(arcs@)) <= WEIGHT_LIMIT,
            0 <= k <= refz@.len(),
            recon == list_cost(refz@.take(k as int), zones@, deep(arcs@), *cell).0,
            edges == list_cost(refz@.take(k as int), zones@, deep(arcs@), *cell).1,
        decreases refz.len() - k,
    {
        proof {
            let longer = refz@.take(k + 1);
            assert(longer.drop_last() =~= refz@.take(k as int));
            assert(longer.last() == refz@[k as int]);
            lemma_list_cost(refz@.take(k as int), zones@, deep(arcs@), *cell);
            lemma_list_cost(longer, zones@, deep(arcs@), *cell);
            lemma_list_weight_prefix(refz@, zones@, deep(arcs@), k + 1);
            lemma_zone_cost(deep(arcs@), zones@[refz@[k as int] as int], *cell);
        }
        let (cr, ce) = candidate_cost(&zones[refz[k]], cell, arcs);
        recon += cr;
        edges += ce;
        k += 1;
    }
    proof {
        assert(refz@.take(k as int) =~= refz@);
    }
    (recon, edges)
}

/// The subdivision-reducible lookup cost of a leaf: the descent and the
/// localized point-in-polygon edge tests.  Arc decoding is left out: a single
/// long arc that crosses a cell must be decoded in full no matter how small the
/// cell, so counting it would make a budget unsatisfiable.
pub fn leaf_cost(
    refz: &[usize],
    zones: &[Zone],
    arcs: &[Vec<Pt>],
    cell: &Aabb,
    depth: usize,
) -> (r: i64)
    requires
        is_box(*cell),
        list_exists(refz@, zones@, arcs@.len() as int),
        list_weight(refz@, zones@, deep(arcs@)) <= WEIGHT_LIMIT,
        depth <= WEIGHT_LIMIT,
    ensures
        r == reducible_cost(refz@, zones@, deep(arcs@), *cell, depth as int),
{
    let (_, edges) = candidates_cost(refz, zones, arcs, cell);
    proof {
        lemma_list_cost(refz@, zones@, deep(arcs@), *cell);
    }
    depth as i64 * TRAVERSAL_OP + edges * VERTEX_OP
}

/// The full worst-case lookup cost a reader pays for this leaf, arc decoding
/// included.
pub fn leaf_true_cost(
    refz: &[usize],
    zones: &[Zone],
    arcs: &[Vec<Pt>],
    cell: &Aabb,
    depth: usize,
) -> (r: i64)
    requires
        is_box(*cell),
        list_exists(refz@, zones@, arcs@.len() as int),
        list_weight(refz@, zones@, deep(arcs@)) <= WEIGHT_LIMIT,
        depth <= WEIGHT_LIMIT,
    ensures
        r == true_cost(refz@, zones@, deep(arcs@), *cell, depth as int),
{
    let (recon, edges) = candidates_cost(refz, zones, arcs, cell);
    proof {
        lemma_list_cost(refz@, zones@, deep(arcs@), *cell);
    }
    depth as i64 * TRAVERSAL_OP + recon * RECON_OP + edges * VERTEX_OP
}

/// The first box lies within the second.
pub open spec fn box_within(small: Aabb, big: Aabb) -> bool {
    &&& big[0][0] <= small[0][0] && big[0][1] <= small[0][1]
    &&& small[1][0] <= big[1][0] && small[1][1] <= big[1][1]
}

proof fn lemma_meets_within(small: Aabb, big: Aabb, p0: Pt, p1: Pt)
    requires
        box_within(small, big),
        meets_box(small, p0, p1),
    ensures
        meets_box(big, p0, p1),
{
    let (n, d) = choose|n: int, d: int| divides_in_box(small, p0, p1, n, d);
    assert(d * big[0][0] <= d * small[0][0]) by (nonlinear_arith)
        requires
            d > 0,
            big[0][0] <= small[0][0],
    ;
    assert(d * big[0][1] <= d * small[0][1]) by (nonlinear_arith)
        requires
            d > 0,
            big[0][1] <= small[0][1],
    ;
    assert(d * small[1][0] <= d * big[1][0]) by (nonlinear_arith)
        requires
            d > 0,
            small[1][0] <= big[1][0],
    ;
    assert(d * small[1][1] <= d * big[1][1]) by (nonlinear_arith)
        requires
            d > 0,
            small[1][1] <= big[1][1],
    ;
    assert(divides_in_box(big, p0, p1, n, d));
}

proof fn lemma_edges_within(path: Seq<Pt>, small: Aabb, big: Aabb)
    requires
        box_within(small, big),
    ensures
        edges_in(path, small) <= edges_in(path, big),
    decreases path.len(),
{
    if path.len() >= 2 {
        lemma_edges_within(path.drop_last(), small, big);
        if meets_box(small, path[path.len() - 2], path.last()) {
            lemma_meets_within(small, big, path[path.len() - 2], path.last());
        }
    }
}

proof fn lemma_ring_cost_within(
    arcs: Seq<Seq<Pt>>,
    refs: Seq<ArcRef>,
    small: Aabb,
    big: Aabb,
)
    requires
        box_within(small, big),
    ensures
        ring_cost(arcs, refs, small).0 <= ring_cost(arcs, refs, big).0,
        ring_cost(arcs, refs, small).1 <= ring_cost(arcs, refs, big).1,
    decreases refs.len(),
{
    if refs.len() > 0 {
        lemma_ring_cost_within(arcs, refs.drop_last(), small, big);
        lemma_edges_within(arcs[refs.last().arc as int], small, big);
        lemma_edges_in(arcs[refs.last().arc as int], big);
    }
}

proof fn lemma_holes_cost_within(
    arcs: Seq<Seq<Pt>>,
    zone: Zone,
    small: Aabb,
    big: Aabb,
    k: int,
)
    requires
        box_within(small, big),
    ensures
        holes_cost(arcs, zone, small, k).0 <= holes_cost(arcs, zone, big, k).0,
        holes_cost(arcs, zone, small, k).1 <= holes_cost(arcs, zone, big, k).1,
    decreases k,
{
    if k > 0 {
        lemma_holes_cost_within(arcs, zone, small, big, k - 1);
        lemma_ring_cost_within(arcs, zone.hole_refs@[k - 1]@, small, big);
        lemma_ring_cost(arcs, zone.hole_refs@[k - 1]@, big);
    }
}

/// The cost is reducible by subdivision: in a cell within another the same
/// zones have no more vertices to decode and no more edges to evaluate.
pub proof fn law_smaller_cell_costs_no_more(
    refz: Seq<usize>,
    zones: Seq<Zone>,
    arcs: Seq<Seq<Pt>>,
    small: Aabb,
    big: Aabb,
)
    requires
        box_within(small, big),
    ensures
        list_cost(refz, zones, arcs, small).0 <= list_cost(refz, zones, arcs, big).0,
        list_cost(refz, zones, arcs, small).1 <= list_cost(refz, zones, arcs, big).1,
    decreases refz.len(),
{
    if refz.len() > 0 {
        law_smaller_cell_costs_no_more(refz.drop_last(), zones, arcs, small, big);
        let zone = zones[refz.last() as int];
        lemma_ring_cost_within(arcs, zone.outer_refs@, small, big);
        lemma_holes_cost_within(arcs, zone, small, big, zone.hole_refs@.len() as int);
    }
}

/// The positions of the path's edges that meet the cell.
pub open spec fn edge_positions(path: Seq<Pt>, cell: Aabb) -> Set<int> {
    Set::new(|i: int| 0 <= i < path.len() - 1 && meets_box(cell, path[i], path[i + 1]))
}

/// The edges in a cell are counted one by one.
pub proof fn law_every_edge_counts(path: Seq<Pt>, cell: Aabb)
    ensures
        edge_positions(path, cell).finite(),
        edges_in(path, cell) == edge_positions(path, cell).len(),
    decreases path.len(),
{
    let all = edge_positions(path, cell);
    if path.len() < 2 {
        assert(all =~= Set::empty());
    } else {
        let shorter = path.drop_last();
        let before = edge_positions(shorter, cell);
        let last = path.len() - 2;
        law_every_edge_counts(shorter, cell);
        assert forall|i: int| before.contains(i) implies all.contains(i) && i != last by {
            assert(shorter[i] == path[i] && shorter[i + 1] == path[i + 1]);
        }
        assert forall|i: int| all.contains(i) && i != last implies before.contains(i) by {
            assert(shorter[i] == path[i] && shorter[i + 1] == path[i + 1]);
        }
        if meets_box(cell, path[last], path.last()) {
            assert(all.contains(last));
            assert(all =~= before.insert(last));
        } else {
            assert(all =~= before);
        }
    }
}

/// What a reader pays for two stretches of a ring's arcs is the sum of what it
/// pays for each; for one arc it pays all of the vertices and the edges in the
/// cell, and nothing if there are none.
pub proof fn law_ring_cost_adds_up(
    arcs: Seq<Seq<Pt>>,
    a: Seq<ArcRef>,
    b: Seq<ArcRef>,
    r: ArcRef,
    cell: Aabb,
)
    ensures
        ring_cost(arcs, a + b, cell).0 == ring_cost(arcs, a, cell).0 + ring_cost(arcs, b, cell).0,
        ring_cost(arcs, a + b, cell).1 == ring_cost(arcs, a, cell).1 + ring_cost(arcs, b, cell).1,
        ({
            let arc = arcs[r.arc as int];
            let met = edge_positions(arc, cell);
            &&& ring_cost(arcs, seq![r], cell).0 == if met.is_empty() {
                0
            } else {
                arc.len() as int
            }
            &&& ring_cost(arcs, seq![r], cell).1 == met.len()
        }),
    decreases b.len(),
{
    let arc = arcs[r.arc as int];
    let met = edge_positions(arc, cell);
    law_every_edge_counts(arc, cell);
    assert(seq![r].drop_last() =~= Seq::<ArcRef>::empty());
    assert(ring_cost(arcs, Seq::empty(), cell) == (0int, 0int));
    assert(seq![r].last() == r);
    assert(met.is_empty() == (met.len() == 0)) by {
        if met.len() == 0 {
            assert(met =~= Set::empty());
        }
    }
    if b.len() == 0 {
        assert(a + b =~= a);
    } else {
        law_ring_cost_adds_up(arcs, a, b.drop_last(), r, cell);
        assert((a + b).drop_last() =~= a + b.drop_last());
        assert((a + b).last() == b.last());
    }
}

/// What a reader pays for a hole is added to what it pays for those before it,
/// if the hole's box meets the cell; the outer ring is always paid for.
pub proof fn law_zone_cost_adds_up(arcs: Seq<Seq<Pt>>, zone: Zone, cell: Aabb, k: int)
    requires
        0 <= k < zone.hole_refs@.len(),
    ensures
        holes_cost(arcs, zone, cell, 0) == (0int, 0int),
        ({
            let before = holes_cost(arcs, zone, cell, k);
            let after = holes_cost(arcs, zone, cell, k + 1);
            let hole = ring_cost(arcs, zone.hole_refs@[k]@, cell);
            if boxes_overlap(cell, zone.hole_aabbs@[k]) {
                after.0 - before.0 == hole.0 && after.1 - before.1 == hole.1
            } else {
                after == before
            }
        }),
        ({
            let all = holes_cost(arcs, zone, cell, zone.hole_refs@.len() as int);
            let outer = ring_cost(arcs, zone.outer_refs@, cell);
            &&& zone_cost(arcs, zone, cell).0 - all.0 == outer.0
            &&& zone_cost(arcs, zone, cell).1 - all.1 == outer.1
        }),
{
}

/// What a reader pays for two lists of zones is the sum of what it pays for
/// each, and for one zone what that zone costs.
pub proof fn law_list_cost_adds_up(
    a: Seq<usize>,
    b: Seq<usize>,
    z: usize,
    zones: Seq<Zone>,
    arcs: Seq<Seq<Pt>>,
    cell: Aabb,
)
    ensures
        ({
            let (x, y, both) = (
                list_cost(a, zones, arcs, cell),
                list_cost(b, zones, arcs, cell),
                list_cost(a + b, zones, arcs, cell),
            );
            both.0 == x.0 + y.0 && both.1 == x.1 + y.1
        }),
        list_cost(seq![z], zones, arcs, cell) == zone_cost(arcs, zones[z as int], cell),
    decreases b.len(),
{
    assert(seq![z].drop_last() =~= Seq::<usize>::empty());
    assert(list_cost(Seq::empty(), zones, arcs, cell) == (0int, 0int));
    assert(seq![z].last() == z);
    if b.len() == 0 {
        assert(a + b =~= a);
    } else {
        law_list_cost_adds_up(a, b.drop_last(), z, zones, arcs, cell);
        assert((a + b).drop_last() =~= a + b.drop_last());
        assert((a + b).last() == b.last());
    }
}

/// A leaf one level further down costs one operation more.  Listing further
/// zones costs two operations for each of their edges in the cell, and on the
/// whole one more for every vertex of an arc that crosses it, no matter what else
/// is listed.
pub proof fn law_leaf_cost_adds_up(
    a: Seq<usize>,
    b: Seq<usize>,
    zones: Seq<Zone>,
    arcs: Seq<Seq<Pt>>,
    cell: Aabb,
    depth: int,
)
    ensures
        reducible_cost(a, zones, arcs, cell, depth + 1) == reducible_cost(
            a,
            zones,
            arcs,
            cell,
            depth,
        ) + 1,
        true_cost(a, zones, arcs, cell, depth + 1) == true_cost(a, zones, arcs, cell, depth) + 1,
        reducible_cost(Seq::empty(), zones, arcs, cell, 0) == 0,
        true_cost(Seq::empty(), zones, arcs, cell, 0) == 0,
        ({
            let more = list_cost(b, zones, arcs, cell);
            &&& reducible_cost(a + b, zones, arcs, cell, depth) == reducible_cost(
                a,
                zones,
                arcs,
                cell,
                depth,
            ) + 2 * more.1
            &&& true_cost(a + b, zones, arcs, cell, depth) == true_cost(
                a,
                zones,
                arcs,
                cell,
                depth,
            ) + more.0 + 2 * more.1
        }),
{
    law_list_cost_adds_up(a, b, 0, zones, arcs, cell);
}

proof fn lemma_edges_join(first: Seq<Pt>, second: Seq<Pt>, cell: Aabb)
    requires
        first.len() > 0,
        second.len() > 0,
        first.last() == second[0],
    ensures
        edges_in(join(first, second), cell) == edges_in(first, cell) + edges_in(second, cell),
    decreases second.len(),
{
    let whole = join(first, second);
    if second.len() == 1 {
        assert(whole =~= first);
    } else {
        lemma_edges_join(first, second.drop_last(), cell);
        assert(whole.drop_last() =~= join(first, second.drop_last()));
        assert(whole[whole.len() - 2] == second[second.len() - 2]);
        assert(whole.last() == second.last());
    }
}

proof fn lemma_edges_reverse(path: Seq<Pt>, cell: Aabb)
    ensures
        edges_in(path.reverse(), cell) == edges_in(path, cell),
    decreases path.len(),
{
    if path.len() >= 2 {
        let shorter = path.drop_last();
        let (a, b) = (path[path.len() - 2], path.last());
        lemma_edges_reverse(shorter, cell);
        let edge = seq![b, a];
        assert(path.reverse() =~= join(edge, shorter.reverse()));
        lemma_edges_join(edge, shorter.reverse(), cell);
        assert(edge.drop_last().len() < 2);
        assert(edges_in(edge.drop_last(), cell) == 0);
        lemma_meets_box_reverse(cell, a, b);
    }
}

proof fn lemma_edges_of_arcs(arcs: Seq<Seq<Pt>>, refs: Seq<ArcRef>, cell: Aabb, k: int)
    requires
        chained(arcs, refs),
        1 <= k <= refs.len(),
    ensures
        ring_cost(arcs, refs.take(k), cell).1 == edges_in(path_of(arcs, refs.take(k)), cell),
    decreases k,
{
    let list = refs.take(k);
    let last = oriented(arcs, refs[k - 1]);
    assert(list.last() == refs[k - 1]);
    assert(refs[k - 1].arc < arcs.len());
    lemma_edges_reverse(arcs[refs[k - 1].arc as int], cell);
    lemma_edges_in(arcs[refs[k - 1].arc as int], cell);
    if k == 1 {
        assert(list.drop_last() =~= Seq::empty());
        assert(ring_cost(arcs, Seq::empty(), cell) == (0int, 0int));
        assert(list[0] == refs[0]);
    } else {
        lemma_edges_of_arcs(arcs, refs, cell, k - 1);
        assert(list.drop_last() =~= refs.take(k - 1));
        lemma_chained_prefix(arcs, refs, k - 1);
        assert(meets_next(arcs, refs, k - 2));
        lemma_edges_join(path_of(arcs, refs.take(k - 1)), last, cell);
    }
}

/// The edges that a reader pays for are those of the ring itself that meet the
/// cell, however the ring is cut into arcs and whichever way round they are stored.
pub proof fn law_cost_counts_the_edges_of_the_ring(
    arcs: Seq<Seq<Pt>>,
    refs: Seq<ArcRef>,
    cell: Aabb,
)
    requires
        chained(arcs, refs),
    ensures
        ring_cost(arcs, refs, cell).1 == edges_in(closed(ring_of(arcs, refs)), cell),
{
    lemma_edges_of_arcs(arcs, refs, cell, refs.len() as int);
    assert(refs.take(refs.len() as int) =~= refs);
    lemma_chained_path(arcs, refs);
}

} // verus!
