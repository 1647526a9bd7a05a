//! The built artifact: zones, timezones, shared arcs and the quadtree arena,
//! and how a zone relates to a cell.
use vstd::prelude::*;

use crate::geom::{
    aabb_intersects_poly, aabbs_overlap, area2, area2_fits, boxes_overlap, edge_area2, fits_i64,
    is_aabb_of, law_area_reverse, law_classification_holds_throughout_box, path_area2, poly_aabb, polygon_relation,
    ring_area2, rings_contain, Aabb, AabbPoly, Pt,
};
use crate::segment::{divides_in_box, in_box, is_box, meets_box};
use crate::topology::ArcRef;
use crate::winding::{closed, ring_touches, theorem_winding_outside_box, winding};

verus! {

/// Cost of one quadtree level descended.
pub const TRAVERSAL_OP: i64 = 1;

/// Cost of one arc vertex decoded.
pub const RECON_OP: i64 = 1;

/// Cost of one ring edge evaluated in the localized point-in-polygon test.
pub const VERTEX_OP: i64 = 2;

/// How a zone relates to a cell.
#[derive(Debug, Clone, Copy, PartialEq, Eq, Structural)]
pub enum Rel {
    Disjoint,
    Candidate,
    Definite,
}

/// A polygon record.  Carries build-time geometry (`outer`/`holes`), plus the
/// topological references (`outer_refs`/`hole_refs`) into `Output::arcs`.
/// Once the topology is built the rings are reconstructed from those arcs, so
/// `outer`/`holes` equal what a reader rebuilds from the serialized arcs.
pub struct Zone {
    pub id: usize,
    pub tzid: usize,
    pub aabb: Aabb,
    pub a: i64,
    pub outer: Vec<Pt>,
    pub holes: Vec<Vec<Pt>>,
    pub hole_aabbs: Vec<Aabb>,
    pub outer_refs: Vec<ArcRef>,
    pub hole_refs: Vec<Vec<ArcRef>>,
}

/// A timezone (a named group of zones).
pub struct Tz {
    pub id: usize,
    pub n: String,
    pub refs: Vec<usize>,
}

/// The edges of one arc that cross a leaf cell: `a` indexes the ring's arc-ref
/// list, and `runs` are inclusive `[first, last]` local edge ranges within that
/// arc, in ring orientation.  A reader decodes only the arcs named here.
pub struct ArcRun {
    pub a: u32,
    pub runs: Vec<(u32, u32)>,
}

/// Per-leaf localization for one hole of a candidate.
pub struct HoleCand {
    pub i: usize,
    pub w: i64,
    pub e: Vec<ArcRun>,
}

/// A leaf candidate: which zone, the winding of the cell centre with respect
/// to its full outer ring, and the crossing arcs (plus crossing holes) in this
/// cell.
pub struct Cand {
    pub z: usize,
    pub w: i64,
    pub e: Vec<ArcRun>,
    pub h: Vec<HoleCand>,
}

/// A quadtree node in the arena.  `refz` holds candidate zone ids until the
/// leaves are annotated, which replaces them with `cands`.
pub struct Node {
    pub q: Option<[usize; 4]>,
    pub eref: Vec<usize>,
    pub refz: Vec<usize>,
    pub cands: Vec<Cand>,
}

/// The whole built artifact.  `arcs` holds the shared polygon boundary arcs;
/// zones reference them.  `arc_packed` is the origin and delta packing of each
/// arc.
pub struct Output {
    pub arena: Vec<Node>,
    pub root: usize,
    pub zones: Vec<Zone>,
    pub tz: Vec<Tz>,
    pub arcs: Vec<Vec<Pt>>,
    pub arc_packed: Vec<(Pt, Vec<u8>)>,
}

/// The edge runs of the crossing arcs of a ring.
pub type RunsView = Seq<(u32, Seq<(u32, u32)>)>;

/// The contents of a hole candidate.
#[verifier::ext_equal]
pub struct HoleView {
    pub i: usize,
    pub w: i64,
    pub e: RunsView,
}

/// The contents of a candidate.
#[verifier::ext_equal]
pub struct CandView {
    pub z: usize,
    pub w: i64,
    pub e: RunsView,
    pub h: Seq<HoleView>,
}

/// The contents of a node.
#[verifier::ext_equal]
pub struct NodeView {
    pub q: Option<[usize; 4]>,
    pub eref: Seq<usize>,
    pub refz: Seq<usize>,
    pub cands: Seq<CandView>,
}

pub open spec fn runs_view(e: Seq<ArcRun>) -> RunsView {
    Seq::new(e.len(), |i: int| (e[i].a, e[i].runs@))
}

impl View for HoleCand {
    type V = HoleView;

    open spec fn view(&self) -> HoleView {
        HoleView { i: self.i, w: self.w, e: runs_view(self.e@) }
    }
}

impl View for Cand {
    type V = CandView;

    open spec fn view(&self) -> CandView {
        CandView {
            z: self.z,
            w: self.w,
            e: runs_view(self.e@),
            h: Seq::new(self.h@.len(), |i: int| self.h@[i]@),
        }
    }
}

impl View for Node {
    type V = NodeView;

    open spec fn view(&self) -> NodeView {
        NodeView {
            q: self.q,
            eref: self.eref@,
            refz: self.refz@,
            cands: cands_view(self.cands@),
        }
    }
}

pub open spec fn cands_view(cands: Seq<Cand>) -> Seq<CandView> {
    Seq::new(cands.len(), |i: int| cands[i]@)
}

/// The contents of an arena.
pub open spec fn arena_view(arena: Seq<Node>) -> Seq<NodeView> {
    Seq::new(arena.len(), |i: int| arena[i]@)
}

/// A leaf with nothing in it.
pub open spec fn empty_leaf() -> NodeView {
    NodeView {
        q: None,
        eref: Seq::empty(),
        refz: Seq::empty(),
        cands: Seq::empty(),
    }
}

impl Zone {
    /// The boxes are those of the rings.
    pub open spec fn boxes_match(&self) -> bool {
        &&& is_aabb_of(self.aabb, self.outer@)
        &&& self.hole_aabbs@.len() == self.holes@.len()
        &&& forall|i: int|
            0 <= i < self.holes@.len() ==> is_aabb_of(
                #[trigger] self.hole_aabbs@[i],
                self.holes@[i]@,
            )
    }

    /// The zone holds the point.
    pub open spec fn contains(&self, p: Pt) -> bool {
        rings_contain(self.outer@, self.holes@, p)
    }
}

/// Some hole near the cell has this relation to it.
pub open spec fn some_hole_is(cell: Aabb, zone: Zone, rel: AabbPoly) -> bool {
    exists|i: int|
        0 <= i < zone.holes@.len() && boxes_overlap(cell, #[trigger] zone.hole_aabbs@[i])
            && polygon_relation(cell, zone.holes@[i]@) == rel
}

/// The relation of a zone to a cell, accounting for holes.
pub open spec fn zone_relation(cell: Aabb, zone: Zone) -> Rel {
    if !boxes_overlap(cell, zone.aabb) {
        Rel::Disjoint
    } else {
        match polygon_relation(cell, zone.outer@) {
            AabbPoly::Disjoint => Rel::Disjoint,
            AabbPoly::Crosses => Rel::Candidate,
            AabbPoly::Contains => if some_hole_is(cell, zone, AabbPoly::Contains) {
                Rel::Disjoint
            } else if some_hole_is(cell, zone, AabbPoly::Crosses) {
                Rel::Candidate
            } else {
                Rel::Definite
            },
        }
    }
}

/// Classify a zone against a cell, accounting for holes.
pub fn classify(cell: &Aabb, zone: &Zone) -> (r: Rel)
    requires
        is_box(*cell),
        zone.hole_aabbs@.len() == zone.holes@.len(),
    ensures
        r == zone_relation(*cell, *zone),
{
    if !aabbs_overlap(cell, &zone.aabb) {
        return Rel::Disjoint;
    }
    match aabb_intersects_poly(cell, zone.outer.as_slice()) {
        AabbPoly::Disjoint => {
            return Rel::Disjoint;
        },
        AabbPoly::Crosses => {
            return Rel::Candidate;
        },
        AabbPoly::Contains => {},
    }
    let mut crossed = false;
    let mut i: usize = 0;
    while i < zone.holes.len()
        invariant
            0 <= i <= zone.holes@.len(),
            is_box(*cell),
            zone.hole_aabbs@.len() == zone.holes@.len(),
            boxes_overlap(*cell, zone.aabb),
            polygon_relation(*cell, zone.outer@) is Contains,
            forall|k: int|
                0 <= k < i && boxes_overlap(*cell, #[trigger] zone.hole_aabbs@[k])
                    ==> !(polygon_relation(*cell, zone.holes@[k]@) is Contains),
            crossed <==> exists|k: int|
                0 <= k < i && boxes_overlap(*cell, #[trigger] zone.hole_aabbs@[k])
                    && polygon_relation(*cell, zone.holes@[k]@) == AabbPoly::Crosses,
        decreases zone.holes.len() - i,
    {
        if aabbs_overlap(cell, &zone.hole_aabbs[i]) {
            match aabb_intersects_poly(cell, zone.holes[i].as_slice()) {
                AabbPoly::Contains => {
                    // the cell lies inside a hole
                    return Rel::Disjoint;
                },
                AabbPoly::Crosses => {
                    crossed = true;
                },
                AabbPoly::Disjoint => {},
            }
        }
        i += 1;
    }
    if crossed {
        Rel::Candidate
    } else {
        Rel::Definite
    }
}

/// A ring near whose box the cell does not come does not wind around any of
/// the cell's points.
pub proof fn lemma_far_ring(cell: Aabb, bx: Aabb, ring: Seq<Pt>, p: Pt)
    requires
        is_aabb_of(bx, ring),
        !boxes_overlap(cell, bx),
        in_box(p, cell),
    ensures
        winding(ring, p) == 0,
{
    if ring.len() > 0 {
        theorem_winding_outside_box(bx, ring, p);
    }
}

/// The classification decides every point of the cell at once: a definite zone
/// holds all of them, a disjoint one none.
pub proof fn law_zone_relation_holds_throughout_cell(cell: Aabb, zone: Zone, p: Pt)
    requires
        zone.boxes_match(),
        in_box(p, cell),
    ensures
        zone_relation(cell, zone) is Definite ==> zone.contains(p),
        zone_relation(cell, zone) is Disjoint ==> !zone.contains(p),
{
    law_classification_holds_throughout_box(cell, zone.outer@, p);
    if !boxes_overlap(cell, zone.aabb) {
        lemma_far_ring(cell, zone.aabb, zone.outer@, p);
    } else if polygon_relation(cell, zone.outer@) is Contains {
        if some_hole_is(cell, zone, AabbPoly::Contains) {
            let i = choose|i: int|
                0 <= i < zone.holes@.len() && boxes_overlap(cell, #[trigger] zone.hole_aabbs@[i])
                    && polygon_relation(cell, zone.holes@[i]@) == AabbPoly::Contains;
            law_classification_holds_throughout_box(cell, zone.holes@[i]@, p);
        } else if !some_hole_is(cell, zone, AabbPoly::Crosses) {
            assert forall|i: int| 0 <= i < zone.holes@.len() implies winding(
                (#[trigger] zone.holes@[i])@,
                p,
            ) == 0 by {
                assert(is_aabb_of(zone.hole_aabbs@[i], zone.holes@[i]@));
                if boxes_overlap(cell, zone.hole_aabbs@[i]) {
                    law_classification_holds_throughout_box(cell, zone.holes@[i]@, p);
                } else {
                    lemma_far_ring(cell, zone.hole_aabbs@[i], zone.holes@[i]@, p);
                }
            }
        }
    }
}

/// The doubled area of a ring without its sign.
pub open spec fn unsigned_area2(ring: Seq<Pt>) -> int {
    if area2(ring) < 0 {
        -area2(ring)
    } else {
        area2(ring)
    }
}

/// The doubled area of the ring can be computed, and so can its magnitude.
pub open spec fn has_area(ring: Seq<Pt>) -> bool {
    area2_fits(ring) && area2(ring) > i64::MIN
}

/// The product of two numbers, and whether it fits `i64`.
fn product(x: i64, y: i64) -> (r: (i128, bool))
    ensures
        r.0 == x * y,
        r.1 == fits_i64(x * y),
{
    proof {
        assert(-0x4000_0000_0000_0000_0000_0000_0000_0000 <= x * y
            <= 0x4000_0000_0000_0000_0000_0000_0000_0000) by (nonlinear_arith)
            requires
                -0x8000_0000_0000_0000 <= x <= 0x8000_0000_0000_0000,
                -0x8000_0000_0000_0000 <= y <= 0x8000_0000_0000_0000,
        ;
    }
    let v = x as i128 * y as i128;
    (v, i64::MIN as i128 <= v && v <= i64::MAX as i128)
}

/// Whether the doubled area of a ring can be computed, and so can its magnitude.
pub fn can_measure(ring: &[Pt]) -> (r: bool)
    ensures
        r == has_area(ring@),
{
    let mut a: i128 = 0;
    let n = ring.len();
    let ghost path = closed(ring@);
    let mut i: usize = 0;
    proof {
        assert(path.len() > 0 ==> path.take(1).len() == 1);
    }
    while i < n
        invariant
            n == ring@.len(),
            0 <= i <= n,
            path == closed(ring@),
            n > 0 ==> a == path_area2(path.take(i + 1)),
            n == 0 ==> a == 0,
            -0x8000_0000_0000_0000 * i <= a <= 0x8000_0000_0000_0000 * i,
            forall|k: int|
                0 <= k < i ==> fits_i64((#[trigger] path[k])[0] * path[k + 1][1]) && fits_i64(
                    path[k + 1][0] * path[k][1],
                ) && fits_i64(edge_area2(path[k], path[k + 1])),
        decreases n - i,
    {
        let cur = ring[i];
        let next = ring[if i == n - 1 {
            0
        } else {
            i + 1
        }];
        let (p, p_fits) = product(cur[0], next[1]);
        let (q, q_fits) = product(next[0], cur[1]);
        proof {
            assert(cur == path[i as int] && next == path[i + 1]);
            assert(path.take(i + 2).drop_last() =~= path.take(i + 1));
        }
        if !p_fits || !q_fits || p - q < i64::MIN as i128 || p - q > i64::MAX as i128 {
            proof {
                assert(!(fits_i64(path[i as int][0] * path[i + 1][1]) && fits_i64(
                    path[i + 1][0] * path[i as int][1],
                ) && fits_i64(edge_area2(path[i as int], path[i + 1]))));
            }
            return false;
        }
        a = a + (p - q);
        i += 1;
    }
    proof {
        assert(n > 0 ==> path.take(n + 1) =~= path);
    }
    a > i64::MIN as i128 && a <= i64::MAX as i128
}

/// The unsigned doubled area of a ring.
pub fn ring_size(ring: &[Pt]) -> (r: i64)
    requires
        has_area(ring@),
    ensures
        r == unsigned_area2(ring@),
        r >= 0,
{
    let a = ring_area2(ring);
    if a < 0 {
        -a
    } else {
        a
    }
}

/// The index of the timezone of this name from `k` on.
pub open spec fn tz_named(tz: Seq<Tz>, name: Seq<char>, k: int) -> Option<int>
    decreases tz.len() - k,
{
    if k < 0 || k >= tz.len() {
        None
    } else if tz[k].n@ == name {
        Some(k)
    } else {
        tz_named(tz, name, k + 1)
    }
}

proof fn lemma_tz_named(tz: Seq<Tz>, name: Seq<char>, k: int)
    requires
        0 <= k <= tz.len(),
    ensures
        match tz_named(tz, name, k) {
            Some(i) => k <= i < tz.len() && tz[i].n@ == name,
            None => forall|i: int| k <= i < tz.len() ==> (#[trigger] tz[i]).n@ != name,
        },
    decreases tz.len() - k,
{
    if k < tz.len() && tz[k].n@ != name {
        lemma_tz_named(tz, name, k + 1);
    }
}

/// Zone and timezone ids agree with their positions, timezone names are
/// distinct, and each timezone lists its zones.
pub open spec fn ids_match(zones: Seq<Zone>, tz: Seq<Tz>) -> bool {
    &&& forall|i: int|
        0 <= i < zones.len() ==> (#[trigger] zones[i]).id == i && zones[i].tzid < tz.len()
            && tz[zones[i].tzid as int].refs@.contains(i as usize)
    &&& forall|t: int| 0 <= t < tz.len() ==> (#[trigger] tz[t]).id == t
    &&& forall|t: int, k: int|
        #![trigger tz[t].refs@[k]]
        0 <= t < tz.len() && 0 <= k < tz[t].refs@.len() ==> tz[t].refs@[k] < zones.len()
            && zones[tz[t].refs@[k] as int].tzid == t
    &&& forall|t: int, u: int|
        #![trigger tz[t], tz[u]]
        0 <= t < u < tz.len() ==> tz[t].n@ != tz[u].n@
}

/// The timezone table once zone `id` has been filed under `name`: the entry of
/// that name lists one more zone, or a new entry is added at the end.
pub open spec fn filed(before: Seq<Tz>, after: Seq<Tz>, name: Seq<char>, id: usize) -> bool {
    match tz_named(before, name, 0) {
        Some(t) => {
            &&& after.len() == before.len()
            &&& after[t].id == before[t].id && after[t].n == before[t].n
            &&& after[t].refs@ == before[t].refs@.push(id)
            &&& forall|u: int| 0 <= u < before.len() && u != t ==> #[trigger] after[u] == before[u]
        },
        None => {
            &&& after.len() == before.len() + 1
            &&& after.last().id == before.len()
            &&& after.last().n@ == name
            &&& after.last().refs@ == seq![id]
            &&& forall|u: int| 0 <= u < before.len() ==> #[trigger] after[u] == before[u]
        },
    }
}

/// The id of the timezone of this name, the next free one if there is none.
pub open spec fn tzid_for(tz: Seq<Tz>, name: Seq<char>) -> int {
    match tz_named(tz, name, 0) {
        Some(t) => t,
        None => tz.len() as int,
    }
}

impl Node {
    /// A leaf with nothing in it.
    pub fn leaf() -> (r: Node)
        ensures
            r@ == empty_leaf(),
    {
        let r = Node { q: None, eref: Vec::new(), refz: Vec::new(), cands: Vec::new() };
        proof {
            assert(r@ =~= empty_leaf());
        }
        r
    }
}

/// The first `n` ids, in order.
pub open spec fn all_ids(n: int) -> Seq<usize> {
    Seq::new(n as nat, |i: int| i as usize)
}

impl Output {
    /// The tree is the root alone, a leaf with every zone left to test.
    pub open spec fn is_flat(&self) -> bool {
        &&& self.root == 0
        &&& self.arena@.len() == 1
        &&& self.arena@[0]@ == (NodeView {
            refz: all_ids(self.zones@.len() as int),
            ..empty_leaf()
        })
    }

    /// The root is a node, ids agree with positions, and every zone has an outer
    /// ring and the boxes of its rings.
    pub open spec fn well_formed(&self) -> bool {
        &&& self.root < self.arena@.len()
        &&& ids_match(self.zones@, self.tz@)
        &&& forall|i: int|
            0 <= i < self.zones@.len() ==> (#[trigger] self.zones@[i]).boxes_match()
                && self.zones@[i].outer@.len() >= 3
    }

    /// An artifact without zones: a single empty leaf.
    pub fn new() -> (r: Output)
        ensures
            r.well_formed(),
            r.is_flat(),
            r.root == 0,
            arena_view(r.arena@) == seq![empty_leaf()],
            r.zones@.len() == 0,
            r.tz@.len() == 0,
            r.arcs@.len() == 0,
            r.arc_packed@.len() == 0,
    {
        let mut arena: Vec<Node> = Vec::new();
        arena.push(Node::leaf());
        proof {
            assert(arena_view(arena@) =~= seq![empty_leaf()]);
            assert(all_ids(0) =~= Seq::<usize>::empty());
        }
        Output {
            arena,
            root: 0,
            zones: Vec::new(),
            tz: Vec::new(),
            arcs: Vec::new(),
            arc_packed: Vec::new(),
        }
    }

    /// The position of the timezone of this name.
    fn find_tz(&self, name: &String) -> (r: Option<usize>)
        ensures
            match tz_named(self.tz@, name@, 0) {
                Some(t) => r == Some(t as usize) && 0 <= t < self.tz@.len(),
                None => r is None,
            },
    {
        let mut k: usize = 0;
        while k < self.tz.len()
            invariant
                0 <= k <= self.tz@.len(),
                tz_named(self.tz@, name@, 0) == tz_named(self.tz@, name@, k as int),
            decreases self.tz.len() - k,
        {
            if self.tz[k].n == *name {
                return Some(k);
            }
            k += 1;
        }
        None
    }

    /// Add one polygon (exterior ring and holes, already quantized and
    /// simplified) under timezone `name`, as a candidate of the root leaf.  A
    /// ring of fewer than three vertices is not added.
    pub fn append_zone(&mut self, outer: Vec<Pt>, holes: Vec<Vec<Pt>>, name: &str) -> (r: Option<
        usize,
    >)
        requires
            old(self).well_formed(),
            outer@.len() >= 3 ==> has_area(outer@),
        ensures
            final(self).well_formed(),
            outer@.len() < 3 ==> r is None && *final(self) == *old(self),
            outer@.len() >= 3 ==> {
                let id = old(self).zones@.len();
                let z = final(self).zones@[id as int];
                let root = old(self).root as int;
                &&& r == Some(id as usize)
                &&& final(self).zones@.len() == id + 1
                &&& forall|i: int|
                    0 <= i < id ==> #[trigger] final(self).zones@[i] == old(self).zones@[i]
                &&& z.id == id && z.tzid == tzid_for(old(self).tz@, name@)
                &&& z.outer == outer && z.holes == holes
                &&& z.a == unsigned_area2(outer@)
                &&& z.outer_refs@.len() == 0 && z.hole_refs@.len() == 0
                &&& filed(old(self).tz@, final(self).tz@, name@, id as usize)
                &&& final(self).root == old(self).root
                &&& final(self).arena@.len() == old(self).arena@.len()
                &&& forall|i: int|
                    0 <= i < old(self).arena@.len() && i != root
                        ==> #[trigger] final(self).arena@[i] == old(self).arena@[i]
                &&& final(self).arena@[root]@ == (NodeView {
                    refz: old(self).arena@[root].refz@.push(id as usize),
                    ..old(self).arena@[root]@
                })
                &&& final(self).arcs == old(self).arcs
                &&& final(self).arc_packed == old(self).arc_packed
            },
            old(self).is_flat() ==> final(self).is_flat(),
    {
        if outer.len() < 3 {
            return None;
        }
        let key: String = name.to_owned();
        proof {
            lemma_tz_named(self.tz@, key@, 0);
        }
        let id = self.zones.len();
        let found = self.find_tz(&key);
        let tzid = match found {
            Some(t) => t,
            None => {
                let t = self.tz.len();
                self.tz.push(Tz { id: t, n: key, refs: Vec::new() });
                t
            },
        };
        let aabb = poly_aabb(outer.as_slice());
        let mut hole_aabbs: Vec<Aabb> = Vec::with_capacity(holes.len());
        let mut i: usize = 0;
        while i < holes.len()
            invariant
                0 <= i <= holes@.len(),
                hole_aabbs@.len() == i,
                forall|k: int|
                    0 <= k < i ==> is_aabb_of(#[trigger] hole_aabbs@[k], holes@[k]@),
            decreases holes.len() - i,
        {
            hole_aabbs.push(poly_aabb(holes[i].as_slice()));
            i += 1;
        }
        let a = ring_size(outer.as_slice());
        self.zones.push(
            Zone {
                id,
                tzid,
                aabb,
                a,
                outer,
                holes,
                hole_aabbs,
                outer_refs: Vec::new(),
                hole_refs: Vec::new(),
            },
        );
        let ghost mid_tz = self.tz@;
        self.tz[tzid].refs.push(id);
        let root = self.root;
        self.arena[root].refz.push(id);
        proof {
            let refs = self.tz@[tzid as int].refs@;
            assert(refs[refs.len() - 1] == id);
            if old(self).tz@.len() == mid_tz.len() {
                assert(mid_tz =~= old(self).tz@);
            } else {
                assert(refs =~= seq![id]);
            }
            assert forall|i: int| 0 <= i < self.zones@.len() implies (#[trigger] self.zones@[i]).id
                == i && self.zones@[i].tzid < self.tz@.len()
                && self.tz@[self.zones@[i].tzid as int].refs@.contains(i as usize) by {
                if i < id {
                    let z = old(self).zones@[i];
                    assert(self.zones@[i] == z);
                    let olds = old(self).tz@[z.tzid as int].refs@;
                    assert(olds.contains(i as usize));
                    let k = choose|k: int| 0 <= k < olds.len() && olds[k] == i as usize;
                    assert(self.tz@[z.tzid as int].refs@[k] == i as usize);
                }
            }
            assert forall|t: int, k: int|
                #![trigger self.tz@[t].refs@[k]]
                0 <= t < self.tz@.len() && 0 <= k < self.tz@[t].refs@.len() implies self.tz@[t].refs@[k]
                < self.zones@.len() && self.zones@[self.tz@[t].refs@[k] as int].tzid == t by {
                if t == tzid && k == refs.len() - 1 {
                } else {
                    assert(self.tz@[t].refs@[k] == old(self).tz@[t].refs@[k]);
                }
            }
            assert(self.arena@[root as int]@ =~= (NodeView {
                refz: old(self).arena@[root as int].refz@.push(id),
                ..old(self).arena@[root as int]@
            }));
            assert(all_ids(id as int).push(id) =~= all_ids(id + 1));
        }
        Some(id)
    }
}

/// A point that divides a segment between two values lies between them.
proof fn lemma_divides_between(lo: int, hi: int, x: int, y: int, n: int, d: int)
    by (nonlinear_arith)
    requires
        lo <= x <= hi,
        lo <= y <= hi,
        0 <= n <= d,
        0 < d,
    ensures
        d * lo <= d * x + n * (y - x) <= d * hi,
{
    assert(d * x + n * (y - x) == (d - n) * x + n * y);
    assert((d - n) * lo <= (d - n) * x <= (d - n) * hi);
    assert(n * lo <= n * y <= n * hi);
    assert((d - n) * lo + n * lo == d * lo);
    assert((d - n) * hi + n * hi == d * hi);
}

proof fn lemma_scaled_le(x: int, y: int, d: int)
    by (nonlinear_arith)
    requires
        d * x <= d * y,
        0 < d,
    ensures
        x <= y,
{
}

/// A ring that meets the cell has a box that overlaps it.
proof fn lemma_touching_ring(cell: Aabb, bx: Aabb, ring: Seq<Pt>)
    requires
        is_aabb_of(bx, ring),
        ring_touches(ring, cell),
    ensures
        boxes_overlap(cell, bx),
{
    let path = closed(ring);
    let i = choose|i: int| 0 <= i < path.len() - 1 && meets_box(cell, #[trigger] path[i], path[i + 1]);
    let (a, b) = (path[i], path[i + 1]);
    assert(in_box(a, bx) && in_box(b, bx)) by {
        assert(a == ring[i]);
        assert(i + 1 < ring.len() ==> b == ring[i + 1]);
        assert(i + 1 >= ring.len() ==> b == ring[0]);
    }
    let (n, d) = choose|n: int, d: int| divides_in_box(cell, a, b, n, d);
    lemma_divides_between(bx[0][0] as int, bx[1][0] as int, a[0] as int, b[0] as int, n, d);
    lemma_divides_between(bx[0][1] as int, bx[1][1] as int, a[1] as int, b[1] as int, n, d);
    lemma_scaled_le(bx[0][0] as int, cell[1][0] as int, d);
    lemma_scaled_le(cell[0][0] as int, bx[1][0] as int, d);
    lemma_scaled_le(bx[0][1] as int, cell[1][1] as int, d);
    lemma_scaled_le(cell[0][1] as int, bx[1][1] as int, d);
}

/// Some hole of the zone meets the cell.
pub open spec fn some_hole_touches(cell: Aabb, zone: Zone) -> bool {
    exists|i: int| 0 <= i < zone.holes@.len() && ring_touches((#[trigger] zone.holes@[i])@, cell)
}

/// A zone is left open in a cell only where its boundary meets the cell, and is
/// settled there only where it does not: the outer ring is met, or a hole is.
pub proof fn law_only_a_boundary_leaves_a_zone_open(cell: Aabb, zone: Zone)
    requires
        zone.boxes_match(),
    ensures
        ring_touches(zone.outer@, cell) ==> zone_relation(cell, zone) is Candidate,
        zone_relation(cell, zone) is Candidate ==> ring_touches(zone.outer@, cell)
            || some_hole_touches(cell, zone),
        zone_relation(cell, zone) is Definite ==> !some_hole_touches(cell, zone),
        !ring_touches(zone.outer@, cell) && zone_relation(cell, zone) is Candidate
            ==> !some_hole_is(cell, zone, AabbPoly::Contains),
{
    if ring_touches(zone.outer@, cell) {
        lemma_touching_ring(cell, zone.aabb, zone.outer@);
    }
    if zone_relation(cell, zone) is Definite && some_hole_touches(cell, zone) {
        let i = choose|i: int|
            0 <= i < zone.holes@.len() && ring_touches((#[trigger] zone.holes@[i])@, cell);
        assert(is_aabb_of(zone.hole_aabbs@[i], zone.holes@[i]@));
        lemma_touching_ring(cell, zone.hole_aabbs@[i], zone.holes@[i]@);
        assert(some_hole_is(cell, zone, AabbPoly::Crosses));
    }
}

/// The size of a ring does not depend on the way round that it runs, is never
/// negative, and is the doubled area of a ring that runs counterclockwise.
pub proof fn law_size_ignores_direction(ring: Seq<Pt>)
    ensures
        unsigned_area2(ring.reverse()) == unsigned_area2(ring),
        unsigned_area2(ring) >= 0,
        area2(ring) >= 0 ==> unsigned_area2(ring) == area2(ring),
{
    law_area_reverse(ring);
}

/// A timezone is found under its name exactly where there is one of that name, and
/// it is the first of that name.
pub proof fn law_timezones_are_found_by_name(tz: Seq<Tz>, name: Seq<char>, k: int)
    requires
        0 <= k <= tz.len(),
    ensures
        tz_named(tz, name, k) matches Some(t) ==> {
            &&& k <= t < tz.len()
            &&& tz[t].n@ == name
            &&& forall|i: int| k <= i < t ==> (#[trigger] tz[i]).n@ != name
        },
        tz_named(tz, name, k) is None ==> forall|i: int|
            k <= i < tz.len() ==> (#[trigger] tz[i]).n@ != name,
    decreases tz.len() - k,
{
    if k < tz.len() && tz[k].n@ != name {
        law_timezones_are_found_by_name(tz, name, k + 1);
    }
}

} // verus!
