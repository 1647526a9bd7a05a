//! Rings within the quantization domain: what can be computed of them, and how
//! the arcs they are cut into stay within the same bounds.
use vstd::prelude::*;

use crate::arcs::{
    arc_from, chained, cut, junction_positions, lemma_cut_gives_ring_back, lemma_cut_len,
    lemma_junction_positions, meets_next, next_index, oriented, path_of, place_all, place_arc,
    ring_of, steps_between, topology_of, wrap,
};
use crate::artifact::has_area;
use crate::cost::ring_weight;
use crate::geom::{edge_area2, fits_i64, path_area2, Pt};
use crate::quant::ROOT_CELL;
use crate::segment::in_box;
use crate::topology::{
    kept_arc, lemma_vw_simplified, triple_fits, triples_fit, vw_run, weakest, ArcRef,
};
use crate::winding::closed;

verus! {

/// The most vertices of a ring whose edges are numbered with 32 bits.
pub const RING_LIMIT: usize = 0xFFFF_FFFE;

/// All vertices lie in the quantization domain.
pub open spec fn in_domain(path: Seq<Pt>) -> bool {
    forall|i: int| 0 <= i < path.len() ==> in_box(#[trigger] path[i], ROOT_CELL)
}

/// The number of vertices of the first `k` paths.
pub open spec fn vertex_count(paths: Seq<Seq<Pt>>, k: int) -> int
    decreases k,
{
    if k <= 0 {
        0
    } else {
        vertex_count(paths, k - 1) + paths[k - 1].len()
    }
}

proof fn lemma_product_bound(x: int, y: int, a: int, b: int)
    requires
        -a <= x <= a,
        -b <= y <= b,
    ensures
        -(a * b) <= x * y <= a * b,
{
    assert(-(a * b) <= x * y <= a * b) by (nonlinear_arith)
        requires
            -a <= x <= a,
            -b <= y <= b,
    ;
}

pub proof fn lemma_triples_fit(path: Seq<Pt>)
    requires
        in_domain(path),
    ensures
        triples_fit(path),
{
    assert forall|i: int, j: int, k: int|
        0 <= i < j < k < path.len() implies #[trigger] triple_fits(path, i, j, k) by {
        let (a, b, c) = (path[i], path[j], path[k]);
        assert(in_box(a, ROOT_CELL) && in_box(b, ROOT_CELL) && in_box(c, ROOT_CELL));
        lemma_product_bound(b[0] - a[0], c[1] - a[1], 1048576, 524288);
        lemma_product_bound(c[0] - a[0], b[1] - a[1], 1048576, 524288);
    }
}

proof fn lemma_path_area_bound(path: Seq<Pt>)
    requires
        in_domain(path),
    ensures
        path.len() == 0 ==> path_area2(path) == 0,
        path.len() > 0 ==> -274877906944 * (path.len() - 1) <= path_area2(path) <= 274877906944 * (
        path.len() - 1),
    decreases path.len(),
{
    if path.len() >= 2 {
        lemma_path_area_bound(path.drop_last());
        let (a, b) = (path[path.len() - 2], path[path.len() - 1]);
        lemma_product_bound(a[0] as int, b[1] as int, 524288, 262144);
        lemma_product_bound(b[0] as int, a[1] as int, 524288, 262144);
    }
}

/// What each edge of a ring in the domain adds to its area can be computed.
pub proof fn lemma_edges_fit(ring: Seq<Pt>, k: int)
    requires
        in_domain(ring),
        0 <= k < closed(ring).len() - 1,
    ensures
        ({
            let (a, b) = (closed(ring)[k], closed(ring)[k + 1]);
            fits_i64(a[0] * b[1]) && fits_i64(b[0] * a[1]) && fits_i64(edge_area2(a, b))
        }),
{
    let path = closed(ring);
    assert(in_domain(path));
    let (a, b) = (path[k], path[k + 1]);
    lemma_product_bound(a[0] as int, b[1] as int, 524288, 262144);
    lemma_product_bound(b[0] as int, a[1] as int, 524288, 262144);
}

/// The area of every ring in the domain can be computed that has no more than
/// 33554431 vertices; longer ones could wind round the domain so often that it
/// does not fit.
pub proof fn law_short_ring_has_area(ring: Seq<Pt>)
    requires
        in_domain(ring),
        ring.len() <= 0x1FF_FFFF,
    ensures
        has_area(ring),
{
    let path = closed(ring);
    assert(in_domain(path));
    assert forall|k: int| 0 <= k < path.len() - 1 implies fits_i64(
        (#[trigger] path[k])[0] * path[k + 1][1],
    ) && fits_i64(path[k + 1][0] * path[k][1]) && fits_i64(edge_area2(path[k], path[k + 1])) by {
        lemma_edges_fit(ring, k);
    }
    lemma_path_area_bound(path);
}

/// Simplification adds no vertices.
proof fn lemma_vw_run_domain(pts: Seq<Pt>, target: int)
    requires
        in_domain(pts),
    ensures
        in_domain(vw_run(pts, target)),
    decreases pts.len(),
{
    let w = weakest(pts, pts.len() - 1);
    if !(pts.len() <= target || w <= 0 || w >= pts.len()) {
        assert(in_domain(pts.remove(w)));
        lemma_vw_run_domain(pts.remove(w), target);
    }
}

/// A simplified arc keeps its ends, is no longer than it was, and stays in the
/// domain.
pub proof fn lemma_kept_arc(arc: Seq<Pt>, keep: Seq<usize>)
    requires
        arc.len() >= 2,
    ensures
        2 <= kept_arc(arc, keep).len() <= arc.len(),
        kept_arc(arc, keep)[0] == arc[0],
        kept_arc(arc, keep).last() == arc.last(),
        in_domain(arc) ==> in_domain(kept_arc(arc, keep)),
{
    if arc.len() < keep.len() {
        let target = keep[arc.len() as int] as int;
        lemma_vw_simplified(arc, target);
        if in_domain(arc) {
            lemma_vw_run_domain(arc, 2);
            lemma_vw_run_domain(arc, 4);
            lemma_vw_run_domain(arc, target);
        }
    }
}

/// The arcs that a ring is cut into consist of its vertices, and have at least
/// two of them and at most one more than the ring.
proof fn lemma_cut_arcs(ring: Seq<Pt>, rings: Seq<Seq<Pt>>, k: int)
    requires
        ring.len() > 0,
        0 <= k < cut(ring, rings).len(),
    ensures
        2 <= cut(ring, rings)[k].len() <= ring.len() + 1,
        in_domain(ring) ==> in_domain(cut(ring, rings)[k]),
{
    let n = ring.len() as int;
    lemma_junction_positions(ring, rings, n);
    let js = junction_positions(ring, rings, n);
    if js.len() > 0 {
        let s = js[k];
        let e = js[next_index(k, js.len() as int)];
        assert(0 <= s < n && 0 <= e < n);
        let arc = cut(ring, rings)[k];
        assert(arc == arc_from(ring, s, steps_between(s, e, n)));
        if in_domain(ring) {
            assert forall|i: int| 0 <= i < arc.len() implies in_box(#[trigger] arc[i], ROOT_CELL) by {
                assert(arc[i] == ring[wrap(s + i, n)]);
            }
        }
    }
}

/// What holds of every arc.
pub open spec fn arcs_bounded(arcs: Seq<Seq<Pt>>, limit: int) -> bool {
    forall|i: int|
        0 <= i < arcs.len() ==> 2 <= (#[trigger] arcs[i]).len() <= limit && in_domain(arcs[i])
}

proof fn lemma_place_all_bounded(arcs: Seq<Seq<Pt>>, cuts: Seq<Seq<Pt>>, limit: int)
    requires
        arcs_bounded(arcs, limit),
        arcs_bounded(cuts, limit),
    ensures
        arcs_bounded(place_all(arcs, cuts).0, limit),
        vertex_count(place_all(arcs, cuts).0, place_all(arcs, cuts).0.len() as int) <= vertex_count(
            arcs,
            arcs.len() as int,
        ) + vertex_count(cuts, cuts.len() as int),
    decreases cuts.len(),
{
    if cuts.len() > 0 {
        let shorter = cuts.drop_last();
        assert forall|i: int| 0 <= i < shorter.len() implies 2 <= (#[trigger] shorter[i]).len()
            <= limit && in_domain(shorter[i]) by {
            assert(shorter[i] == cuts[i]);
        }
        lemma_place_all_bounded(arcs, shorter, limit);
        let before = place_all(arcs, shorter).0;
        let after = place_arc(before, cuts.last()).0;
        assert(cuts[cuts.len() - 1] == cuts.last());
        lemma_vertex_count_prefix(shorter, cuts, shorter.len() as int);
        if after.len() > before.len() {
            assert(after == before.push(cuts.last()));
            lemma_vertex_count_prefix(before, after, before.len() as int);
        } else {
            assert(after == before);
        }
    }
}

proof fn lemma_vertex_count_prefix(a: Seq<Seq<Pt>>, b: Seq<Seq<Pt>>, k: int)
    requires
        0 <= k <= a.len(),
        k <= b.len(),
        forall|i: int| 0 <= i < k ==> a[i] == b[i],
    ensures
        vertex_count(a, k) == vertex_count(b, k),
    decreases k,
{
    if k > 0 {
        lemma_vertex_count_prefix(a, b, k - 1);
    }
}

/// The path behind a list of references has the arcs' vertices, each shared one
/// once.
pub proof fn lemma_path_weight(arcs: Seq<Seq<Pt>>, refs: Seq<ArcRef>)
    requires
        refs.len() > 0,
        forall|k: int| 0 <= k < refs.len() ==> arcs[(#[trigger] refs[k]).arc as int].len() >= 2,
    ensures
        path_of(arcs, refs).len() == ring_weight(arcs, refs) - (refs.len() - 1),
        path_of(arcs, refs).len() >= refs.len() + 1,
    decreases refs.len(),
{
    assert(arcs[refs[refs.len() - 1].arc as int].len() >= 2);
    if refs.len() == 1 {
        assert(ring_weight(arcs, refs.drop_last()) == 0);
        assert(refs.last() == refs[0]);
    } else {
        lemma_path_weight(arcs, refs.drop_last());
    }
}

/// The references to a list of arcs, in order.
spec fn in_order(n: int) -> Seq<ArcRef> {
    Seq::new(n as nat, |i: int| ArcRef { arc: i as usize, rev: false })
}

proof fn lemma_in_order_weight(arcs: Seq<Seq<Pt>>, k: int)
    requires
        0 <= k <= arcs.len() <= usize::MAX,
    ensures
        ring_weight(arcs, in_order(k)) == vertex_count(arcs, k),
    decreases k,
{
    if k > 0 {
        lemma_in_order_weight(arcs, k - 1);
        assert(in_order(k).drop_last() =~= in_order(k - 1));
    }
}

/// Cutting a ring at most doubles its vertices.
proof fn lemma_cut_weight(ring: Seq<Pt>, rings: Seq<Seq<Pt>>)
    requires
        0 < ring.len() <= usize::MAX,
    ensures
        vertex_count(cut(ring, rings), cut(ring, rings).len() as int) == ring.len() + cut(
            ring,
            rings,
        ).len(),
        cut(ring, rings).len() <= ring.len(),
{
    let arcs = cut(ring, rings);
    let refs = in_order(arcs.len() as int);
    lemma_cut_len(ring, rings);
    assert forall|i: int| 0 <= i < refs.len() implies (#[trigger] refs[i]).arc < arcs.len()
        && oriented(arcs, refs[i]) == cut(ring, rings)[i] by {}
    assert forall|k: int| 0 <= k < refs.len() implies arcs[(#[trigger] refs[k]).arc as int].len()
        >= 2 by {
        lemma_cut_arcs(ring, rings, k);
    }
    lemma_cut_gives_ring_back(arcs, refs, ring, rings);
    lemma_path_weight(arcs, refs);
    lemma_in_order_weight(arcs, arcs.len() as int);
}

/// Every ring has vertices, all in the domain, and not too many of them.
pub open spec fn rings_bounded(rings: Seq<Seq<Pt>>) -> bool {
    forall|r: int|
        0 <= r < rings.len() ==> 0 < (#[trigger] rings[r]).len() <= RING_LIMIT && in_domain(rings[r])
}

/// The arcs of a set of rings stay within the rings' bounds.
pub proof fn lemma_topology_bounded(rings: Seq<Seq<Pt>>, k: int)
    requires
        0 <= k <= rings.len(),
        rings_bounded(rings),
    ensures
        arcs_bounded(topology_of(rings, k).0, RING_LIMIT + 1),
        vertex_count(topology_of(rings, k).0, topology_of(rings, k).0.len() as int) <= 2
            * vertex_count(rings, k),
    decreases k,
{
    if k > 0 {
        lemma_topology_bounded(rings, k - 1);
        let ring = rings[k - 1];
        let cuts = cut(ring, rings);
        assert(0 < ring.len() <= RING_LIMIT && in_domain(ring));
        assert forall|i: int| 0 <= i < cuts.len() implies 2 <= (#[trigger] cuts[i]).len()
            <= RING_LIMIT + 1 && in_domain(cuts[i]) by {
            lemma_cut_arcs(ring, rings, i);
        }
        lemma_cut_weight(ring, rings);
        lemma_place_all_bounded(topology_of(rings, k - 1).0, cuts, RING_LIMIT + 1);
    }
}

/// One set of arcs stands in for another: each arc keeps its ends, is no
/// longer, and stays in the domain.
pub open spec fn stands_in(arcs: Seq<Seq<Pt>>, full: Seq<Seq<Pt>>) -> bool {
    &&& arcs.len() == full.len()
    &&& forall|i: int|
        0 <= i < full.len() ==> {
            &&& 2 <= (#[trigger] arcs[i]).len() <= full[i].len()
            &&& arcs[i][0] == full[i][0]
            &&& arcs[i].last() == full[i].last()
            &&& in_domain(arcs[i])
        }
}

proof fn lemma_stands_in_ends(arcs: Seq<Seq<Pt>>, full: Seq<Seq<Pt>>, r: ArcRef)
    requires
        stands_in(arcs, full),
        r.arc < full.len(),
        full[r.arc as int].len() >= 2,
    ensures
        oriented(arcs, r)[0] == oriented(full, r)[0],
        oriented(arcs, r).last() == oriented(full, r).last(),
        2 <= oriented(arcs, r).len() <= oriented(full, r).len(),
        in_domain(oriented(arcs, r)),
{
    assert(2 <= arcs[r.arc as int].len());
    let o = oriented(arcs, r);
    assert forall|i: int| 0 <= i < o.len() implies in_box(#[trigger] o[i], ROOT_CELL) by {
        if r.rev {
            assert(o[i] == arcs[r.arc as int][o.len() - 1 - i]);
        }
    }
}

/// Rings stay rings when one set of arcs stands in for another.
pub proof fn lemma_stands_in_chained(arcs: Seq<Seq<Pt>>, full: Seq<Seq<Pt>>, refs: Seq<ArcRef>)
    requires
        stands_in(arcs, full),
        chained(full, refs),
    ensures
        chained(arcs, refs),
{
    assert forall|k: int| 0 <= k < refs.len() implies (#[trigger] refs[k]).arc < arcs.len()
        && arcs[refs[k].arc as int].len() >= 2 by {}
    assert forall|k: int| 0 <= k < refs.len() implies #[trigger] meets_next(arcs, refs, k) by {
        assert(meets_next(full, refs, k));
        lemma_stands_in_ends(arcs, full, refs[k]);
        lemma_stands_in_ends(arcs, full, refs[next_index(k, refs.len() as int)]);
    }
}

proof fn lemma_weight_monotone(a: Seq<Seq<Pt>>, b: Seq<Seq<Pt>>, refs: Seq<ArcRef>)
    requires
        forall|k: int|
            0 <= k < refs.len() ==> a[(#[trigger] refs[k]).arc as int].len()
                <= b[refs[k].arc as int].len(),
    ensures
        ring_weight(a, refs) <= ring_weight(b, refs),
    decreases refs.len(),
{
    if refs.len() > 0 {
        assert(a[refs[refs.len() - 1].arc as int].len() <= b[refs[refs.len() - 1].arc as int].len());
        assert forall|k: int| 0 <= k < refs.drop_last().len() implies a[(
        #[trigger] refs.drop_last()[k]).arc as int].len() <= b[refs.drop_last()[k].arc as int].len() by {
            assert(refs.drop_last()[k] == refs[k]);
        }
        lemma_weight_monotone(a, b, refs.drop_last());
    }
}

/// Longer arcs make longer rings.
pub proof fn lemma_longer_arcs_longer_ring(
    a: Seq<Seq<Pt>>,
    b: Seq<Seq<Pt>>,
    refs: Seq<ArcRef>,
)
    requires
        chained(a, refs),
        chained(b, refs),
        forall|i: int| 0 <= i < a.len() ==> (#[trigger] a[i]).len() <= b[i].len(),
    ensures
        ring_of(a, refs).len() <= ring_of(b, refs).len(),
        ring_weight(a, refs) <= ring_weight(b, refs),
        ring_of(b, refs).len() == ring_weight(b, refs) - refs.len(),
        refs.len() <= ring_of(b, refs).len(),
{
    assert forall|k: int| 0 <= k < refs.len() implies a[(#[trigger] refs[k]).arc as int].len()
        <= b[refs[k].arc as int].len() by {}
    lemma_weight_monotone(a, b, refs);
    lemma_path_weight(a, refs);
    lemma_path_weight(b, refs);
}

/// A ring of arcs in the domain is in the domain.
pub proof fn lemma_ring_domain(arcs: Seq<Seq<Pt>>, refs: Seq<ArcRef>)
    requires
        stands_in(arcs, arcs),
        forall|k: int| 0 <= k < refs.len() ==> (#[trigger] refs[k]).arc < arcs.len(),
    ensures
        in_domain(path_of(arcs, refs)),
        in_domain(ring_of(arcs, refs)),
    decreases refs.len(),
{
    if refs.len() == 1 {
        assert(refs[0].arc < arcs.len());
        lemma_stands_in_ends(arcs, arcs, refs[0]);
    } else if refs.len() > 1 {
        let shorter = refs.drop_last();
        assert forall|k: int| 0 <= k < shorter.len() implies (#[trigger] shorter[k]).arc
            < arcs.len() by {
            assert(shorter[k] == refs[k]);
        }
        lemma_ring_domain(arcs, shorter);
        assert(refs[refs.len() - 1].arc < arcs.len());
        lemma_stands_in_ends(arcs, arcs, refs.last());
        let second = oriented(arcs, refs.last());
        assert(in_domain(second.drop_first()));
        let first = path_of(arcs, shorter);
        let whole = path_of(arcs, refs);
        assert(whole == first + second.drop_first());
        assert forall|i: int| 0 <= i < whole.len() implies in_box(#[trigger] whole[i], ROOT_CELL) by {
            if i < first.len() {
                assert(whole[i] == first[i]);
            } else {
                assert(whole[i] == second.drop_first()[i - first.len()]);
            }
        }
    }
}

/// Vertices are counted one by one, path after path.
pub proof fn law_every_vertex_counts(paths: Seq<Seq<Pt>>, k: int)
    requires
        0 <= k <= paths.len(),
    ensures
        vertex_count(paths, k) == paths.take(k).flatten().len(),
    decreases k,
{
    if k == 0 {
        assert(paths.take(0) =~= Seq::empty());
    } else {
        law_every_vertex_counts(paths, k - 1);
        assert(paths.take(k) =~= paths.take(k - 1).push(paths[k - 1]));
        paths.take(k - 1).lemma_flatten_push(paths[k - 1]);
    }
}

} // verus!
