//! The build from polygons to an artifact that answers lookups and can be
//! written.
use vstd::prelude::*;
use vstd::string::StringExecFns;

use crate::annotate::{annotated, annotated_node, ids_listed, reports, tally, Stats};
use crate::arcs::{deep, topology_of};
use crate::artifact::{
    all_ids, arena_view, filed, has_area, tzid_for, unsigned_area2, NodeView, Output, Zone,
};
use crate::cost::{list_weight, WEIGHT_LIMIT};
use crate::domain::{arcs_bounded, in_domain, vertex_count, RING_LIMIT};
use crate::geom::{poly_aabb, Pt};
use crate::packing::law_bounded_arcs_are_packable;
use crate::quant::{ROOT_CELL, X_MAX, X_MIN};
use crate::rebuild::{
    areas_fit, first_ring, flat_rings, flatten, rebuilt_as, stored_arcs, zone_in_domain,
};
use crate::resolve::disagreements;
use crate::segment::in_box;
use crate::serialize::ready::{law_built_artifact_is_writable, zones_named};
use crate::serialize::text::{decimal, decimal_text};
use crate::subdivide::{framed, subdivided, Frame, SubStats};

verus! {

// --- polygons ---

/// The first `k` holes, those with at least three vertices.
pub open spec fn proper_holes(holes: Seq<Vec<Pt>>, k: int) -> Seq<Vec<Pt>>
    decreases k,
{
    if k <= 0 {
        Seq::empty()
    } else if holes[k - 1]@.len() >= 3 {
        proper_holes(holes, k - 1).push(holes[k - 1])
    } else {
        proper_holes(holes, k - 1)
    }
}

proof fn lemma_proper_holes(holes: Seq<Vec<Pt>>, k: int)
    requires
        0 <= k <= holes.len(),
        forall|h: int| 0 <= h < holes.len() ==> in_domain((#[trigger] holes[h])@),
    ensures
        forall|h: int|
            0 <= h < proper_holes(holes, k).len() ==> (#[trigger] proper_holes(holes, k)[h])@.len()
                >= 3 && in_domain(proper_holes(holes, k)[h]@),
    decreases k,
{
    if k > 0 {
        lemma_proper_holes(holes, k - 1);
        let before = proper_holes(holes, k - 1);
        let kept = proper_holes(holes, k);
        assert forall|h: int| 0 <= h < kept.len() implies (#[trigger] kept[h])@.len() >= 3
            && in_domain(kept[h]@) by {
            if h < before.len() {
                assert(kept[h] == before[h]);
            } else {
                assert(kept[h] == holes[k - 1]);
            }
        }
    }
}

/// The ring spans more than half the world in longitude.
pub open spec fn spans_half(ring: Seq<Pt>) -> bool {
    exists|i: int, j: int|
        #![trigger ring[i], ring[j]]
        0 <= i < ring.len() && 0 <= j < ring.len() && ring[i][0] - ring[j][0] > (X_MAX - X_MIN) / 2
}

/// What became of a polygon: its zone (none if the exterior ring has fewer than
/// three vertices), the number of holes kept, and whether the exterior ring
/// spans more than half the world in longitude, which is not handled.
pub struct Inserted {
    pub zone: Option<usize>,
    pub holes: usize,
    pub wrapped: bool,
}

fn is_wide(ring: &[Pt]) -> (r: bool)
    requires
        in_domain(ring@),
    ensures
        r == spans_half(ring@),
{
    if ring.len() == 0 {
        return false;
    }
    let a = poly_aabb(ring);
    proof {
        let lo = choose|i: int| 0 <= i < ring@.len() && (#[trigger] ring@[i])[0] == a[0][0];
        let hi = choose|i: int| 0 <= i < ring@.len() && (#[trigger] ring@[i])[0] == a[1][0];
        assert(in_box(ring@[lo], ROOT_CELL) && in_box(ring@[hi], ROOT_CELL));
        if a[1][0] - a[0][0] > (X_MAX - X_MIN) / 2 {
            assert(ring@[hi][0] - ring@[lo][0] > (X_MAX - X_MIN) / 2);
        }
        assert forall|i: int, j: int|
            #![trigger ring@[i], ring@[j]]
            0 <= i < ring@.len() && 0 <= j < ring@.len() implies ring@[i][0] - ring@[j][0]
            <= a[1][0] - a[0][0] by {
            assert(in_box(ring@[i], a) && in_box(ring@[j], a));
        }
    }
    a[1][0] - a[0][0] > (X_MAX - X_MIN) / 2
}

impl Output {
    /// Add a polygon (exterior ring and holes, already quantized and simplified)
    /// under timezone `name`.  Holes of fewer than three vertices are dropped, and
    /// so is the polygon where its exterior ring has fewer.
    pub fn insert_polygon(&mut self, outer: Vec<Pt>, holes: Vec<Vec<Pt>>, name: &str) -> (r:
        Inserted)
        requires
            old(self).well_formed(),
            old(self).is_flat(),
            old(self).rings_in_domain(),
            in_domain(outer@),
            forall|h: int| 0 <= h < holes@.len() ==> in_domain((#[trigger] holes@[h])@),
            outer@.len() >= 3 ==> has_area(outer@),
        ensures
            final(self).well_formed(),
            final(self).is_flat(),
            final(self).rings_in_domain(),
            r.wrapped == spans_half(outer@),
            r.holes == proper_holes(holes@, holes@.len() as int).len(),
            r.zone is Some <==> outer@.len() >= 3,
            outer@.len() < 3 ==> *final(self) == *old(self),
            outer@.len() >= 3 ==> {
                let id = old(self).zones@.len();
                let z = final(self).zones@[id as int];
                &&& r.zone == Some(id as usize)
                &&& final(self).zones@.len() == id + 1
                &&& forall|i: int|
                    0 <= i < id ==> #[trigger] final(self).zones@[i] == old(self).zones@[i]
                &&& z.id == id && z.tzid == tzid_for(old(self).tz@, name@)
                &&& z.outer == outer
                &&& z.holes@ == proper_holes(holes@, holes@.len() as int)
                &&& z.a == unsigned_area2(outer@)
                &&& z.outer_refs@.len() == 0 && z.hole_refs@.len() == 0
                &&& filed(old(self).tz@, final(self).tz@, name@, id as usize)
                &&& final(self).arcs == old(self).arcs
                &&& final(self).arc_packed == old(self).arc_packed
            },
    {
        let wrapped = is_wide(outer.as_slice());
        let kept = keep_proper(holes);
        let n = kept.len();
        proof {
            lemma_proper_holes(holes@, holes@.len() as int);
        }
        let zone = self.append_zone(outer, kept, name);
        proof {
            assert forall|z: int| 0 <= z < self.zones@.len() implies zone_in_domain(
                #[trigger] self.zones@[z],
            ) by {
                if z < old(self).zones@.len() {
                    assert(self.zones@[z] == old(self).zones@[z]);
                }
            }
        }
        Inserted { zone, holes: n, wrapped }
    }
}

/// Drop the holes of fewer than three vertices.
fn keep_proper(holes: Vec<Vec<Pt>>) -> (r: Vec<Vec<Pt>>)
    ensures
        r@ == proper_holes(holes@, holes@.len() as int),
{
    let ghost all = holes@;
    let mut rest = holes;
    let mut back: Vec<Vec<Pt>> = Vec::new();
    proof {
        assert(all.take(all.len() as int) =~= all);
        assert(proper_holes(all, all.len() as int) + back@.reverse() =~= proper_holes(
            all,
            all.len() as int,
        ));
    }
    while rest.len() > 0
        invariant
            rest@.len() <= all.len(),
            rest@ == all.take(rest@.len() as int),
            proper_holes(all, rest@.len() as int) + back@.reverse() == proper_holes(
                all,
                all.len() as int,
            ),
        decreases rest.len(),
    {
        let ghost k = rest@.len() as int;
        let ghost before = back@;
        if let Some(hole) = rest.pop() {
            proof {
                assert(hole == all[k - 1]);
                assert(rest@ =~= all.take(k - 1));
            }
            if hole.len() >= 3 {
                back.push(hole);
                proof {
                    assert(proper_holes(all, k - 1).push(hole) + before.reverse() =~= proper_holes(
                        all,
                        k - 1,
                    ) + back@.reverse());
                }
            }
        }
    }
    let mut out: Vec<Vec<Pt>> = Vec::new();
    let ghost whole = back@.reverse();
    proof {
        assert(proper_holes(all, 0) + whole =~= whole);
        assert(whole.take(0) =~= out@);
    }
    while back.len() > 0
        invariant
            whole.len() == out@.len() + back@.len(),
            whole == out@ + back@.reverse(),
        decreases back.len(),
    {
        let ghost before = back@;
        let ghost done = out@;
        if let Some(hole) = back.pop() {
            out.push(hole);
            proof {
                assert(done + before.reverse() =~= out@ + back@.reverse());
            }
        }
    }
    proof {
        assert(out@ + back@.reverse() =~= out@);
    }
    out
}

// --- the tree ---

impl Output {
    /// Whether the vertices of all rings can be numbered and counted.
    pub fn can_count_rings(&self) -> (r: bool)
        ensures
            r == self.rings_countable(),
    {
        let (rings, _) = flatten(self.zones.as_slice());
        let ghost all = flat_rings(self.zones@, self.zones@.len() as int);
        let limit: u64 = if (usize::MAX as u64) < WEIGHT_LIMIT as u64 {
            usize::MAX as u64
        } else {
            WEIGHT_LIMIT as u64
        };
        let mut total: u64 = 0;
        let mut fits = true;
        let mut k: usize = 0;
        while k < rings.len()
            invariant
                0 <= k <= rings@.len(),
                all == deep(rings@),
                all == flat_rings(self.zones@, self.zones@.len() as int),
                limit <= usize::MAX,
                limit <= WEIGHT_LIMIT,
                limit == usize::MAX || limit == WEIGHT_LIMIT,
                fits ==> total == 2 * vertex_count(all, k as int) && total <= limit,
                !fits ==> 2 * vertex_count(all, k as int) > limit,
                forall|j: int|
                    0 <= j < k ==> (#[trigger] all[j]).len() <= RING_LIMIT,
            decreases rings.len() - k,
        {
            let n = rings[k].len();
            proof {
                assert(all[k as int] == rings@[k as int]@);
            }
            if n > RING_LIMIT {
                proof {
                    assert(all[k as int].len() > RING_LIMIT);
                }
                return false;
            }
            if fits {
                let next = total + 2 * n as u64;
                if next > limit {
                    fits = false;
                } else {
                    total = next;
                }
            }
            k += 1;
        }
        fits
    }

    /// Whether the zone ids that the nodes list can be counted.
    fn can_count_ids(&self) -> (r: bool)
        ensures
            r == (ids_listed(arena_view(self.arena@), self.arena@.len() as int) <= usize::MAX),
    {
        let ghost view = arena_view(self.arena@);
        let mut total: usize = 0;
        let mut fits = true;
        let mut k: usize = 0;
        while k < self.arena.len()
            invariant
                0 <= k <= self.arena@.len(),
                view == arena_view(self.arena@),
                fits ==> total == ids_listed(view, k as int),
                !fits ==> ids_listed(view, k as int) > usize::MAX,
            decreases self.arena.len() - k,
        {
            let refs = self.arena[k].refz.len();
            let erefs = self.arena[k].eref.len();
            proof {
                assert(view[k as int] == self.arena@[k as int]@);
            }
            if fits {
                let sum = total as u128 + refs as u128 + erefs as u128;
                if sum > usize::MAX as u128 {
                    fits = false;
                } else {
                    total = sum as usize;
                }
            }
            k += 1;
        }
        fits
    }
}

/// The zones rebuilt from their shared arcs.
pub open spec fn is_refit(before: Output, after: Output, keep: Seq<usize>) -> bool {
    let rings = flat_rings(before.zones@, before.zones@.len() as int);
    &&& deep(after.arcs@) == stored_arcs(before.zones@, keep)
    &&& after.zones@.len() == before.zones@.len()
    &&& forall|k: int|
        0 <= k < before.zones@.len() ==> rebuilt_as(
            before.zones@[k],
            #[trigger] after.zones@[k],
            deep(after.arcs@),
            topology_of(rings, rings.len() as int).1,
            first_ring(before.zones@, k),
        )
    &&& after.tz == before.tz
    &&& after.root == before.root
}

/// The tree is the subdivided root (`mid`, reached in `n` steps), reported on and
/// then annotated.
pub open spec fn is_grown(
    root: NodeView,
    after: Output,
    max_ops: i64,
    max_splits: Option<usize>,
    report: Report,
    mid: Seq<NodeView>,
    f: Frame,
    n: nat,
) -> bool {
    let (zones, arcs) = (after.zones@, deep(after.arcs@));
    &&& subdivided(root, zones, arcs, max_ops, max_splits, mid, report.sub, n)
    &&& ids_listed(mid, mid.len() as int) <= usize::MAX
    &&& framed(mid, zones, f)
    &&& reports(
        report.stats,
        tally(mid, zones, arcs, f, Some(max_ops), mid.len() as int),
        mid.len() as int,
        Some(max_ops),
    )
    &&& arena_view(after.arena@) == annotated(mid, zones, arcs, f)
}

/// Annotation names no zone more often than the lists did before it.
proof fn lemma_zones_named(
    mid: Seq<NodeView>,
    zones: Seq<Zone>,
    arcs: Seq<Seq<Pt>>,
    f: Frame,
    k: int,
)
    requires
        0 <= k <= mid.len(),
        forall|i: int| 0 <= i < mid.len() ==> (#[trigger] mid[i]).cands.len() == 0,
    ensures
        zones_named(annotated(mid, zones, arcs, f), k) <= ids_listed(mid, k),
    decreases k,
{
    if k > 0 {
        lemma_zones_named(mid, zones, arcs, f, k - 1);
        assert(annotated(mid, zones, arcs, f)[k - 1] == annotated_node(
            mid[k - 1],
            zones,
            arcs,
            f.cells[k - 1],
        ));
    }
}

/// What a build reports: arcs and their vertices, splits, and statistics of the
/// tree.
pub struct Report {
    pub arcs: usize,
    pub vertices: usize,
    pub sub: SubStats,
    pub stats: Stats,
}

/// Why a build failed: the vertices or the listed ids cannot be counted, the area
/// of a rebuilt ring does not fit, or the check found lookups that disagree with
/// brute force.
pub enum BuildError {
    Rings,
    Areas,
    Ids,
    Disagreements(usize),
}

/// The text of an error.
pub open spec fn error_text(e: BuildError, samples: int) -> Seq<char> {
    match e {
        BuildError::Rings => "the rings cannot be counted"@,
        BuildError::Areas => "the area of a ring is too large"@,
        BuildError::Ids => "the zone references cannot be counted"@,
        BuildError::Disagreements(n) => decimal(n as int) + "/"@ + decimal(samples)
            + " lookups disagreed with brute force"@,
    }
}

impl BuildError {
    /// The text of the error, given the number of points sampled.
    pub fn text(&self, samples: usize) -> (r: String)
        ensures
            r@ == error_text(*self, samples as int),
    {
        match self {
            BuildError::Rings => "the rings cannot be counted".to_owned(),
            BuildError::Areas => "the area of a ring is too large".to_owned(),
            BuildError::Ids => "the zone references cannot be counted".to_owned(),
            BuildError::Disagreements(n) => {
                let mut s = decimal_text(*n as u64);
                s.append("/");
                s.append(decimal_text(samples as u64).as_str());
                s.append(" lookups disagreed with brute force");
                s
            },
        }
    }
}

/// The subdivided root (`mid`, reached in `n` steps) lists more ids than can be
/// counted.
pub open spec fn is_overgrown(
    root: NodeView,
    after: Output,
    max_ops: i64,
    max_splits: Option<usize>,
    mid: Seq<NodeView>,
    st: SubStats,
    n: nat,
) -> bool {
    &&& subdivided(root, after.zones@, deep(after.arcs@), max_ops, max_splits, mid, st, n)
    &&& ids_listed(mid, mid.len() as int) > usize::MAX
}

/// What growing the tree over rebuilt zones comes to: the tree checked and
/// packed, with its report; or too many ids to count; or lookups that disagree
/// with brute force.
pub open spec fn is_built(
    root: NodeView,
    after: Output,
    max_ops: i64,
    max_splits: Option<usize>,
    samples: usize,
    r: Result<Report, BuildError>,
) -> bool {
    let (zones, arcs) = (after.zones@, deep(after.arcs@));
    let wrong = disagreements(arena_view(after.arena@), zones, arcs, samples as nat);
    match r {
        Ok(report) => {
            &&& after.is_readable()
            &&& after.is_packed()
            &&& after.is_writable()
            &&& report.arcs == after.arcs@.len()
            &&& report.vertices == vertex_count(arcs, after.arcs@.len() as int)
            &&& wrong == 0
            &&& exists|mid: Seq<NodeView>, f: Frame, n: nat| #[trigger]
                is_grown(root, after, max_ops, max_splits, report, mid, f, n)
        },
        Err(BuildError::Disagreements(count)) => {
            &&& after.is_readable()
            &&& count == wrong
            &&& count > 0
            &&& exists|report: Report, mid: Seq<NodeView>, f: Frame, n: nat| #[trigger]
                is_grown(root, after, max_ops, max_splits, report, mid, f, n)
        },
        Err(BuildError::Ids) => exists|mid: Seq<NodeView>, st: SubStats, n: nat| #[trigger]
            is_overgrown(root, after, max_ops, max_splits, mid, st, n),
        _ => false,
    }
}

impl Output {
    /// Subdivide, report, annotate, check and pack zones rebuilt from their arcs.
    #[verifier::spinoff_prover]
    #[verifier::rlimit(40)]
    fn grow(
        &mut self,
        counts: (usize, usize),
        max_ops: i64,
        max_splits: Option<usize>,
        samples: usize,
    ) -> (r: Result<Report, BuildError>)
        requires
            old(self).well_formed(),
            old(self).is_flat(),
            old(self).refs_in_range(),
            old(self).is_indexable(),
            old(self).is_rebuilt(),
            arcs_bounded(deep(old(self).arcs@), RING_LIMIT + 1),
            old(self).arcs@.len() <= WEIGHT_LIMIT,
            list_weight(
                all_ids(old(self).zones@.len() as int),
                old(self).zones@,
                deep(old(self).arcs@),
            ) <= WEIGHT_LIMIT,
            counts.0 == old(self).arcs@.len(),
            counts.1 == vertex_count(deep(old(self).arcs@), old(self).arcs@.len() as int),
        ensures
            final(self).zones == old(self).zones,
            final(self).tz == old(self).tz,
            final(self).arcs == old(self).arcs,
            final(self).root == old(self).root,
            final(self).well_formed(),
            is_built(old(self).arena@[0]@, *final(self), max_ops, max_splits, samples, r),
    {
        let ghost root = self.arena@[0]@;
        let (arcs, vertices) = counts;
        let sub = self.subdivide(max_ops, max_splits);
        let ghost mid = arena_view(self.arena@);
        let ghost model = deep(self.arcs@);
        proof {
            assert forall|i: int| 0 <= i < mid.len() implies (#[trigger] mid[i]).cands.len() == 0 by {
                assert(self.arena@[i].cands@.len() == 0);
            }
        }
        let ghost n = choose|n: nat|
            subdivided(root, self.zones@, model, max_ops, max_splits, mid, sub, n);
        proof {
            assert(subdivided(root, self.zones@, model, max_ops, max_splits, mid, sub, n));
        }
        if !self.can_count_ids() {
            proof {
                assert(is_overgrown(root, *self, max_ops, max_splits, mid, sub, n));
            }
            return Err(BuildError::Ids);
        }
        let stats = self.tree_stats(Some(max_ops));
        let ghost f = choose|f: Frame| framed(mid, self.zones@, f);
        proof {
            assert(framed(mid, self.zones@, f));
        }
        self.annotate();
        let report = Report { arcs, vertices, sub, stats };
        proof {
            assert(is_grown(root, *self, max_ops, max_splits, report, mid, f, n));
        }
        let failures = self.verify(samples);
        if failures > 0 {
            return Err(BuildError::Disagreements(failures));
        }
        proof {
            law_bounded_arcs_are_packable(*self, RING_LIMIT + 1);
        }
        self.pack();
        proof {
            lemma_zones_named(mid, self.zones@, model, f, mid.len() as int);
            law_built_artifact_is_writable(*self);
            assert(is_grown(root, *self, max_ops, max_splits, report, mid, f, n));
        }
        Ok(report)
    }

    /// Build the tree and pack the geometry: factor the rings into shared arcs,
    /// subdivide, report, annotate, check `samples` lookups against brute force
    /// (zero checks none), and pack.
    #[verifier::spinoff_prover]
    pub fn build_tree(
        &mut self,
        keep: &[usize],
        max_ops: i64,
        max_splits: Option<usize>,
        samples: usize,
    ) -> (r: Result<Report, BuildError>)
        requires
            old(self).well_formed(),
            old(self).is_flat(),
            old(self).rings_in_domain(),
        ensures
            final(self).well_formed(),
            r == Err::<Report, BuildError>(BuildError::Rings) <==> !old(self).rings_countable(),
            r == Err::<Report, BuildError>(BuildError::Areas) <==> old(self).rings_countable()
                && !areas_fit(old(self).zones@, keep@),
            !(old(self).rings_countable() && areas_fit(old(self).zones@, keep@)) ==> *final(self)
                == *old(self),
            old(self).rings_countable() && areas_fit(old(self).zones@, keep@) ==> is_refit(
                *old(self),
                *final(self),
                keep@,
            ) && is_built(
                old(self).arena@[0]@,
                *final(self),
                max_ops,
                max_splits,
                samples,
                r,
            ),
    {
        if !self.can_count_rings() {
            return Err(BuildError::Rings);
        }
        match self.try_build_topology(keep) {
            None => Err(BuildError::Areas),
            Some(counts) => self.grow(counts, max_ops, max_splits, samples),
        }
    }
}

/// Of the holes exactly those with three vertices or more are kept, in their
/// order.
pub proof fn law_proper_holes_are_kept(holes: Seq<Vec<Pt>>, k: int)
    requires
        0 <= k <= holes.len(),
    ensures
        proper_holes(holes, k) == holes.take(k).filter(|h: Vec<Pt>| h@.len() >= 3),
    decreases k,
{
    reveal(Seq::filter);
    if k > 0 {
        law_proper_holes_are_kept(holes, k - 1);
        assert(holes.take(k).drop_last() =~= holes.take(k - 1));
    }
}

/// A ring is reported as wide exactly where two of its vertices are more than half
/// of the domain's width apart, whichever of them is the eastern one.
pub proof fn law_wide_rings_span_more_than_half(ring: Seq<Pt>)
    ensures
        spans_half(ring) <==> exists|i: int, j: int|
            #![trigger ring[i], ring[j]]
            0 <= i < ring.len() && 0 <= j < ring.len() && 2 * (ring[i][0] - ring[j][0])
                > ROOT_CELL[1][0] - ROOT_CELL[0][0],
{
}

} // verus!
