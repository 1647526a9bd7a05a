//! The localized containment test of the rough quadtree, on whole rings.
use vstd::prelude::*;

use crate::annotate::{crossing_runs, lemma_runs_upto, runs_upto};
use crate::artifact::{lemma_far_ring, Zone};
use crate::geom::{
    aabbs_overlap, boxes_overlap, edge_touches_aabb, is_aabb_of,
    law_classification_holds_throughout_box, poly_winding, polygon_relation, rings_contain_point,
    Aabb, Pt,
};
use crate::lookup::{
    center_of, crossings, lemma_crossings_bound, run_crossings, runs_within, segment_crossings,
    total_edges,
};
use crate::resolve::no_hole_swallows;
use crate::segment::{in_box, is_box, meets_box};
use crate::winding::{
    closed, lemma_path_winding_bound, path_crossings_in, ring_touches, theorem_localized_winding,
    winding,
};

verus! {

/// The edges of a ring that meet the cell, as runs.
pub open spec fn ring_edges(ring: Seq<Pt>, cell: Aabb) -> Seq<(u32, u32)> {
    crossing_runs(closed(ring), cell)
}

/// A hole near the cell: its position, its winding around the cell's centre,
/// and its edges in the cell.
#[verifier::ext_equal]
pub struct LocalHoleView {
    pub i: int,
    pub w: int,
    pub e: Seq<(u32, u32)>,
}

/// The holes among the first `k` with edges in the cell.
pub open spec fn holes_near(zone: Zone, cell: Aabb, k: int) -> Seq<LocalHoleView>
    decreases k,
{
    if k <= 0 {
        Seq::empty()
    } else {
        let before = holes_near(zone, cell, k - 1);
        let hole = zone.holes@[k - 1]@;
        let e = ring_edges(hole, cell);
        if !boxes_overlap(cell, zone.hole_aabbs@[k - 1]) || e.len() == 0 {
            before
        } else {
            before.push(LocalHoleView { i: k - 1, w: winding(hole, center_of(cell)), e })
        }
    }
}

/// The holes from `k` on leave the point in the zone.  Where the localized test
/// of a hole is degenerate the full test decides.
pub open spec fn holes_clear(
    h: Seq<LocalHoleView>,
    zone: Zone,
    c: Pt,
    q: Pt,
    k: int,
) -> bool
    decreases h.len() - k,
{
    if k < 0 || k >= h.len() {
        true
    } else {
        match crossings(c, q, zone.holes@[h[k].i]@, h[k].e) {
            None => zone.contains(q),
            Some(d) => h[k].w + d == 0 && holes_clear(h, zone, c, q, k + 1),
        }
    }
}

/// The localized test of a zone in a cell: the winding at the centre plus the
/// crossings on the way from the centre to the point.  Where it is degenerate
/// the full test decides.
pub open spec fn holds_locally(zone: Zone, cell: Aabb, q: Pt) -> bool {
    let c = center_of(cell);
    match crossings(c, q, zone.outer@, ring_edges(zone.outer@, cell)) {
        None => zone.contains(q),
        Some(d) => winding(zone.outer@, c) + d != 0 && holes_clear(
            holes_near(zone, cell, zone.holes@.len() as int),
            zone,
            c,
            q,
            0,
        ),
    }
}

/// The edges of every ring of the zone can be numbered.
pub open spec fn rings_numberable(zone: Zone) -> bool {
    &&& zone.outer@.len() < u32::MAX
    &&& zone.hole_aabbs@.len() == zone.holes@.len()
    &&& forall|i: int| 0 <= i < zone.holes@.len() ==> (#[trigger] zone.holes@[i])@.len() < u32::MAX
}

/// A hole near a cell.
pub struct LocalHole {
    pub i: usize,
    pub w: i64,
    pub e: Vec<(u32, u32)>,
}

impl View for LocalHole {
    type V = LocalHoleView;

    open spec fn view(&self) -> LocalHoleView {
        LocalHoleView { i: self.i as int, w: self.w as int, e: self.e@ }
    }
}

/// A zone near a cell: its winding around the cell's centre, its edges in the
/// cell, and its holes.
pub struct Local {
    pub zi: usize,
    pub w: i64,
    pub e: Vec<(u32, u32)>,
    pub holes: Vec<LocalHole>,
}

pub open spec fn hole_views(holes: Seq<LocalHole>) -> Seq<LocalHoleView> {
    Seq::new(holes.len(), |k: int| holes[k]@)
}

/// The record is that of the zone in the cell.
pub open spec fn records(local: Local, zi: usize, zone: Zone, cell: Aabb) -> bool {
    &&& local.zi == zi
    &&& local.w == winding(zone.outer@, center_of(cell))
    &&& local.e@ == ring_edges(zone.outer@, cell)
    &&& hole_views(local.holes@) == holes_near(zone, cell, zone.holes@.len() as int)
}

proof fn lemma_closed_edge(ring: Seq<Pt>, i: int)
    requires
        0 <= i < ring.len(),
    ensures
        closed(ring)[i] == ring[i],
        closed(ring)[i + 1] == ring[(i + 1) % ring.len() as int],
{
    if i + 1 < ring.len() {
        assert((i + 1) % ring.len() as int == i + 1) by (nonlinear_arith)
            requires
                0 <= i,
                i + 1 < ring.len(),
        ;
    } else {
        assert((i + 1) % ring.len() as int == 0) by (nonlinear_arith)
            requires
                i + 1 == ring.len(),
                0 < ring.len(),
        ;
    }
}

/// The runs of consecutive ring edges that meet the cell.
pub fn edge_runs(ring: &[Pt], cell: &Aabb) -> (r: Vec<(u32, u32)>)
    requires
        is_box(*cell),
        ring@.len() < u32::MAX,
    ensures
        r@ == ring_edges(ring@, *cell),
{
    let ghost path = closed(ring@);
    let mut runs: Vec<(u32, u32)> = Vec::new();
    let n = ring.len();
    let mut i: usize = 0;
    while i < n
        invariant
            n == ring@.len(),
            n < u32::MAX,
            0 <= i <= n,
            is_box(*cell),
            path == closed(ring@),
            runs@ == runs_upto(path, *cell, i as int),
        decreases n - i,
    {
        let next = if i + 1 < n {
            i + 1
        } else {
            0
        };
        proof {
            lemma_closed_edge(ring@, i as int);
            lemma_runs_upto(path, *cell, i as int);
        }
        if edge_touches_aabb(cell, ring[i], ring[next]) {
            let iu = i as u32;
            let m = runs.len();
            if m > 0 && runs[m - 1].1 + 1 == iu {
                let first = runs[m - 1].0;
                runs.pop();
                runs.push((first, iu));
            } else {
                runs.push((iu, iu));
            }
        }
        i += 1;
    }
    runs
}

/// What the localized test of a zone in a cell needs.
pub fn build_local(zone: &Zone, zi: usize, cell: &Aabb, center: Pt) -> (r: Local)
    requires
        is_box(*cell),
        center == center_of(*cell),
        rings_numberable(*zone),
    ensures
        records(r, zi, *zone, *cell),
{
    let mut holes: Vec<LocalHole> = Vec::new();
    let mut k: usize = 0;
    proof {
        assert(hole_views(holes@) =~= Seq::empty());
    }
    while k < zone.holes.len()
        invariant
            0 <= k <= zone.holes@.len(),
            is_box(*cell),
            center == center_of(*cell),
            rings_numberable(*zone),
            hole_views(holes@) == holes_near(*zone, *cell, k as int),
        decreases zone.holes.len() - k,
    {
        if aabbs_overlap(cell, &zone.hole_aabbs[k]) {
            proof {
                assert(zone.holes@[k as int]@.len() < u32::MAX);
            }
            let e = edge_runs(zone.holes[k].as_slice(), cell);
            if e.len() > 0 {
                let w = poly_winding(zone.holes[k].as_slice(), center);
                let ghost before = holes@;
                holes.push(LocalHole { i: k, w, e });
                proof {
                    assert(hole_views(holes@) =~= hole_views(before).push(
                        holes@[holes@.len() - 1]@,
                    ));
                }
            }
        }
        k += 1;
    }
    let w = poly_winding(zone.outer.as_slice(), center);
    let e = edge_runs(zone.outer.as_slice(), cell);
    Local { zi, w, e, holes }
}

/// Runs along a ring's edges have the crossings of the closed path.
proof fn lemma_ring_crossings(ring: Seq<Pt>, cell: Aabb, c: Pt, q: Pt, k: int)
    requires
        0 <= k <= ring.len(),
        0 < ring.len() < u32::MAX,
    ensures
        crossings(c, q, ring, runs_upto(closed(ring), cell, k)) == path_crossings_in(
            cell,
            closed(ring).take(k + 1),
            c,
            q,
        ),
    decreases k,
{
    let path = closed(ring);
    let longer = path.take(k + 1);
    if k > 0 {
        lemma_ring_crossings(ring, cell, c, q, k - 1);
        lemma_runs_upto(path, cell, k - 1);
        lemma_closed_edge(ring, k - 1);
        let before = runs_upto(path, cell, k - 1);
        let runs = runs_upto(path, cell, k);
        assert(longer.drop_last() =~= path.take(k));
        assert(longer[longer.len() - 2] == path[k - 1]);
        assert(longer.last() == path[k]);
        if meets_box(cell, path[k - 1], path[k]) {
            if before.len() > 0 && before.last().1 + 1 == k - 1 {
                assert(runs.drop_last() =~= before.drop_last());
                assert(before[before.len() - 1].0 <= before[before.len() - 1].1);
                assert(runs.last() == (before.last().0, (k - 1) as u32));
            } else {
                assert(runs.drop_last() =~= before);
                assert(run_crossings(c, q, ring, k - 1, k - 2) == Some(0int));
            }
        }
    }
}

/// A ring's runs lie within it, can be counted, and have the crossings of its
/// edges in the cell.
proof fn lemma_ring_edges(ring: Seq<Pt>, cell: Aabb, c: Pt, q: Pt)
    requires
        ring.len() < u32::MAX,
    ensures
        runs_within(ring_edges(ring, cell), ring.len() as int),
        0 <= total_edges(ring_edges(ring, cell)) <= ring.len(),
        crossings(c, q, ring, ring_edges(ring, cell)) == path_crossings_in(
            cell,
            closed(ring),
            c,
            q,
        ),
{
    let path = closed(ring);
    if ring.len() > 0 {
        lemma_ring_crossings(ring, cell, c, q, ring.len() as int);
        assert(path.take(path.len() as int) =~= path);
        lemma_runs_upto(path, cell, ring.len() as int);
        crate::cost::lemma_edges_in(path, cell);
    }
}

/// The record of a hole fits the hole.
spec fn hole_fits(h: LocalHoleView, zone: Zone, cell: Aabb) -> bool {
    &&& 0 <= h.i < zone.holes@.len()
    &&& h.w == winding(zone.holes@[h.i]@, center_of(cell))
    &&& h.e == ring_edges(zone.holes@[h.i]@, cell)
}

proof fn lemma_holes_near(zone: Zone, cell: Aabb, k: int)
    requires
        0 <= k <= zone.holes@.len(),
    ensures
        forall|j: int|
            0 <= j < holes_near(zone, cell, k).len() ==> hole_fits(
                #[trigger] holes_near(zone, cell, k)[j],
                zone,
                cell,
            ),
        forall|i: int|
            #![trigger zone.holes@[i]]
            0 <= i < k && boxes_overlap(cell, zone.hole_aabbs@[i]) && ring_edges(
                zone.holes@[i]@,
                cell,
            ).len() > 0 ==> exists|j: int|
                0 <= j < holes_near(zone, cell, k).len() && (#[trigger] holes_near(
                    zone,
                    cell,
                    k,
                )[j]).i == i,
    decreases k,
{
    if k > 0 {
        lemma_holes_near(zone, cell, k - 1);
        let before = holes_near(zone, cell, k - 1);
        let after = holes_near(zone, cell, k);
        assert forall|j: int| 0 <= j < after.len() implies hole_fits(#[trigger] after[j], zone, cell) by {
            if j < before.len() {
                assert(after[j] == before[j]);
            }
        }
        assert forall|i: int|
            #![trigger zone.holes@[i]]
            0 <= i < k && boxes_overlap(cell, zone.hole_aabbs@[i]) && ring_edges(
                zone.holes@[i]@,
                cell,
            ).len() > 0 implies exists|j: int|
            0 <= j < after.len() && (#[trigger] after[j]).i == i by {
            if i < k - 1 {
                let j = choose|j: int| 0 <= j < before.len() && (#[trigger] before[j]).i == i;
                assert(after[j] == before[j]);
            } else {
                assert(after[after.len() - 1].i == i);
            }
        }
    }
}

/// The localized test by the record of a zone.
fn decide_locally(local: &Local, zone: &Zone, cell: &Aabb, center: Pt, point: Pt) -> (r: bool)
    requires
        rings_numberable(*zone),
        center == center_of(*cell),
        records(*local, local.zi, *zone, *cell),
    ensures
        r == holds_locally(*zone, *cell, point),
{
    proof {
        lemma_ring_edges(zone.outer@, *cell, center, point);
        lemma_path_winding_bound(closed(zone.outer@), center);
        lemma_crossings_bound(center, point, zone.outer@, local.e@);
        lemma_holes_near(*zone, *cell, zone.holes@.len() as int);
    }
    match segment_crossings(center, point, zone.outer.as_slice(), local.e.as_slice()) {
        None => {
            return rings_contain_point(zone.outer.as_slice(), zone.holes.as_slice(), point);
        },
        Some(d) => {
            if local.w + d == 0 {
                return false;
            }
        },
    }
    let ghost near = holes_near(*zone, *cell, zone.holes@.len() as int);
    let mut k: usize = 0;
    while k < local.holes.len()
        invariant
            0 <= k <= local.holes@.len(),
            rings_numberable(*zone),
            center == center_of(*cell),
            near == hole_views(local.holes@),
            forall|j: int| 0 <= j < near.len() ==> hole_fits(#[trigger] near[j], *zone, *cell),
            holds_locally(*zone, *cell, point) == holes_clear(near, *zone, center, point, k as int),
        decreases local.holes.len() - k,
    {
        let h = &local.holes[k];
        proof {
            assert(near[k as int] == h@);
            assert(hole_fits(near[k as int], *zone, *cell));
            let ring = zone.holes@[h.i as int]@;
            assert(ring.len() < u32::MAX);
            lemma_ring_edges(ring, *cell, center, point);
            lemma_path_winding_bound(closed(ring), center);
            lemma_crossings_bound(center, point, ring, h.e@);
        }
        match segment_crossings(center, point, zone.holes[h.i].as_slice(), h.e.as_slice()) {
            None => {
                return rings_contain_point(zone.outer.as_slice(), zone.holes.as_slice(), point);
            },
            Some(d) => {
                if h.w + d != 0 {
                    return false;
                }
            },
        }
        k += 1;
    }
    true
}

/// The localized test; it is right about every point of the cell where no hole
/// that encloses the cell meets a point inside the outer ring.
pub fn local_contains(local: &Local, zone: &Zone, cell: &Aabb, center: Pt, point: Pt) -> (r: bool)
    requires
        rings_numberable(*zone),
        center == center_of(*cell),
        records(*local, local.zi, *zone, *cell),
    ensures
        r == holds_locally(*zone, *cell, point),
        zone.boxes_match() && in_box(center, *cell) && in_box(point, *cell) && no_hole_swallows(
            *zone,
            *cell,
            point,
        ) ==> r == zone.contains(point),
{
    proof {
        if zone.boxes_match() && in_box(center, *cell) && in_box(point, *cell) && no_hole_swallows(
            *zone,
            *cell,
            point,
        ) {
            law_local_test_is_exact(*zone, *cell, point);
        }
    }
    decide_locally(local, zone, cell, center, point)
}

/// A path without runs in the cell does not touch it.
proof fn lemma_no_runs(path: Seq<Pt>, cell: Aabb, k: int)
    requires
        0 <= k <= path.len() - 1,
        runs_upto(path, cell, k).len() == 0,
    ensures
        forall|i: int| 0 <= i < k ==> !meets_box(cell, #[trigger] path[i], path[i + 1]),
    decreases k,
{
    if k > 0 {
        assert(!meets_box(cell, path[k - 1], path[k]));
        lemma_no_runs(path, cell, k - 1);
    }
}

/// A hole that is not recorded and does not enclose the cell holds no point of
/// it.
proof fn lemma_hole_left_out(zone: Zone, cell: Aabb, i: int, p: Pt)
    requires
        zone.boxes_match(),
        0 <= i < zone.holes@.len(),
        in_box(p, cell),
        !boxes_overlap(cell, zone.hole_aabbs@[i]) || ring_edges(zone.holes@[i]@, cell).len() == 0,
        !(polygon_relation(cell, zone.holes@[i]@) is Contains),
    ensures
        winding(zone.holes@[i]@, p) == 0,
{
    let hole = zone.holes@[i]@;
    assert(is_aabb_of(zone.hole_aabbs@[i], hole));
    if !boxes_overlap(cell, zone.hole_aabbs@[i]) {
        lemma_far_ring(cell, zone.hole_aabbs@[i], hole, p);
    } else {
        let path = closed(hole);
        if path.len() > 0 {
            lemma_no_runs(path, cell, path.len() - 1);
        }
        assert(!ring_touches(hole, cell));
        law_classification_holds_throughout_box(cell, hole, p);
    }
}

proof fn lemma_holes_clear(
    h: Seq<LocalHoleView>,
    zone: Zone,
    cell: Aabb,
    q: Pt,
    k: int,
)
    requires
        rings_numberable(zone),
        in_box(center_of(cell), cell),
        in_box(q, cell),
        0 <= k <= h.len(),
        forall|j: int| 0 <= j < h.len() ==> hole_fits(#[trigger] h[j], zone, cell),
        winding(zone.outer@, q) != 0,
        forall|i: int|
            0 <= i < zone.holes@.len() && winding((#[trigger] zone.holes@[i])@, q) != 0
                ==> exists|j: int| k <= j < h.len() && (#[trigger] h[j]).i == i,
    ensures
        holes_clear(h, zone, center_of(cell), q, k) == zone.contains(q),
    decreases h.len() - k,
{
    if k < h.len() {
        let c = center_of(cell);
        assert(hole_fits(h[k], zone, cell));
        let ring = zone.holes@[h[k].i]@;
        assert(ring.len() < u32::MAX);
        lemma_ring_edges(ring, cell, c, q);
        match crossings(c, q, ring, h[k].e) {
            None => {},
            Some(d) => {
                theorem_localized_winding(cell, ring, c, q);
                if h[k].w + d == 0 {
                    assert forall|x: int|
                        0 <= x < zone.holes@.len() && winding((#[trigger] zone.holes@[x])@, q)
                            != 0 implies exists|j: int|
                        k + 1 <= j < h.len() && (#[trigger] h[j]).i == x by {
                        let j = choose|j: int| k <= j < h.len() && (#[trigger] h[j]).i == x;
                        assert(j != k);
                        assert(k + 1 <= j < h.len() && h[j].i == x);
                    }
                    lemma_holes_clear(h, zone, cell, q, k + 1);
                } else {
                    assert(winding(zone.holes@[h[k].i]@, q) != 0);
                }
            },
        }
    }
}

/// The localized test decides whether the zone holds a point of the cell.  (A
/// hole that encloses the whole cell leaves no edge in it, so it goes
/// unrecorded: the test is right where no such hole meets a point inside the
/// outer ring.)
pub proof fn law_local_test_is_exact(zone: Zone, cell: Aabb, q: Pt)
    requires
        rings_numberable(zone),
        zone.boxes_match(),
        in_box(center_of(cell), cell),
        in_box(q, cell),
        no_hole_swallows(zone, cell, q),
    ensures
        holds_locally(zone, cell, q) == zone.contains(q),
{
    let c = center_of(cell);
    lemma_ring_edges(zone.outer@, cell, c, q);
    if let Some(d) = crossings(c, q, zone.outer@, ring_edges(zone.outer@, cell)) {
        theorem_localized_winding(cell, zone.outer@, c, q);
        if winding(zone.outer@, c) + d != 0 {
            let n = zone.holes@.len() as int;
            let h = holes_near(zone, cell, n);
            lemma_holes_near(zone, cell, n);
            assert forall|i: int|
                0 <= i < n && winding((#[trigger] zone.holes@[i])@, q) != 0 implies exists|j: int|
                0 <= j < h.len() && (#[trigger] h[j]).i == i by {
                assert(!(polygon_relation(cell, zone.holes@[i]@) is Contains));
                if !boxes_overlap(cell, zone.hole_aabbs@[i]) || ring_edges(
                    zone.holes@[i]@,
                    cell,
                ).len() == 0 {
                    lemma_hole_left_out(zone, cell, i, q);
                }
            }
            lemma_holes_clear(h, zone, cell, q, 0);
        }
    }
}

} // verus!
