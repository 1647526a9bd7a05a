//! Topological shared-arc encoding and Visvalingam-Whyatt simplification.
//!
//! Adjacent polygons share their common border.  This module factors rings
//! into **arcs** -- maximal vertex runs bounded by *junctions* (points where the
//! sharing pattern changes) -- so each shared border is stored once.  (A ring
//! without junctions is one arc from its first vertex on, so that it shares its
//! arc only with rings that start at the same vertex.)  A ring becomes a list of
//! signed arc references (a reversed arc is the same vertices traversed
//! backwards).
//!
//! Reconstruction is exact: each ring comes back as a cyclic rotation of
//! itself, so the encoding is lossless.  The optional lossy layer is per-arc
//! Visvalingam-Whyatt: drop the interior vertices with the smallest triangle
//! area, keeping arc endpoints fixed so shared borders stay shared.
use std::collections::HashMap;

use vstd::prelude::*;

use crate::arcs::{
    arc_from, arcs_distinct, chained, cut, deep, find_arc, first_junction, is_junction,
    junction_positions, lemma_cut_gives_ring_back, lemma_find_arc, lemma_junction_positions,
    lemma_topology_of, next_index, occurs, oriented, path_of, place_all, place_arc, prev_index,
    refs_valid, ring_of, same_neighbours, same_pair, topology_of, wrap,
};
use crate::borders::{borders_once, law_no_edge_in_two_arcs};
use crate::geom::{area2, is_left, left_of_fits, path_area2, Pt};
use crate::segment::left_of;
use crate::winding::{closed, join, rotated};

verus! {

broadcast use vstd::std_specs::hash::group_hash_axioms;

/// A signed reference from a ring to an arc.
#[derive(Clone, Copy, Debug, PartialEq, Eq, Structural)]
pub struct ArcRef {
    pub arc: usize,
    pub rev: bool,
}

/// A copy of a vertex list.
pub fn copy_points(points: &[Pt]) -> (r: Vec<Pt>)
    ensures
        r@ == points@,
{
    let mut out: Vec<Pt> = Vec::with_capacity(points.len());
    let mut i: usize = 0;
    while i < points.len()
        invariant
            0 <= i <= points@.len(),
            out@ == points@.take(i as int),
        decreases points.len() - i,
    {
        out.push(points[i]);
        proof {
            assert(points@.take(i + 1) =~= points@.take(i as int).push(points@[i as int]));
        }
        i += 1;
    }
    proof {
        assert(points@.take(points@.len() as int) =~= points@);
    }
    out
}

/// A copy of a vertex list in reverse order.
pub fn copy_reversed(points: &[Pt]) -> (r: Vec<Pt>)
    ensures
        r@ == points@.reverse(),
{
    let mut out: Vec<Pt> = Vec::with_capacity(points.len());
    let n = points.len();
    let mut i: usize = 0;
    while i < n
        invariant
            n == points@.len(),
            0 <= i <= n,
            out@ == points@.reverse().take(i as int),
        decreases n - i,
    {
        out.push(points[n - 1 - i]);
        proof {
            assert(points@.reverse().take(i + 1) =~= points@.reverse().take(i as int).push(
                points@[n - 1 - i],
            ));
        }
        i += 1;
    }
    proof {
        assert(points@.reverse().take(n as int) =~= points@.reverse());
    }
    out
}

/// Are the two points the same?
pub fn same_point(a: Pt, b: Pt) -> (r: bool)
    ensures
        r == (a == b),
{
    let r = a[0] == b[0] && a[1] == b[1];
    proof {
        if r {
            assert(a =~= b);
        }
    }
    r
}

/// Are the two vertex lists the same?
pub fn same_points(a: &[Pt], b: &[Pt]) -> (r: bool)
    ensures
        r == (a@ == b@),
{
    if a.len() != b.len() {
        return false;
    }
    let mut i: usize = 0;
    while i < a.len()
        invariant
            0 <= i <= a@.len(),
            a@.len() == b@.len(),
            forall|k: int| 0 <= k < i ==> a@[k] == b@[k],
        decreases a.len() - i,
    {
        if !same_point(a[i], b[i]) {
            return false;
        }
        i += 1;
    }
    proof {
        assert(a@ =~= b@);
    }
    true
}

/// The number under which a point is filed.
spec fn key_of(p: Pt) -> int {
    (p[0] + 0x8000_0000_0000_0000) * 0x1_0000_0000_0000_0000 + (p[1] + 0x8000_0000_0000_0000)
}

proof fn lemma_key_unique(p: Pt, q: Pt)
    requires
        key_of(p) == key_of(q),
    ensures
        p == q,
{
    assert(p =~= q);
}

fn point_key(p: Pt) -> (r: u128)
    ensures
        r == key_of(p),
{
    let x: u128 = (p[0] as i128 + 0x8000_0000_0000_0000) as u128;
    let y: u128 = (p[1] as i128 + 0x8000_0000_0000_0000) as u128;
    x * 0x1_0000_0000_0000_0000 + y
}

/// What is known of a point: one pair of neighbours, and whether another
/// occurrence had a different one.
type Seen = HashMap<u128, (Pt, Pt, bool)>;

/// The map marks exactly the junctions.
spec fn marks(seen: Map<u128, (Pt, Pt, bool)>, rings: Seq<Seq<Pt>>) -> bool {
    forall|p: Pt|
        (seen.contains_key(#[trigger] key_of(p) as u128) && seen[key_of(p) as u128].2)
            <==> is_junction(rings, p)
}

/// Position `(r0, i0)` comes before `(r, i)`.
spec fn before(r0: int, i0: int, r: int, i: int) -> bool {
    r0 < r || (r0 == r && i0 < i)
}

/// What the map says once the positions before `(r, i)` have been looked at.
spec fn noted(seen: Map<u128, (Pt, Pt, bool)>, rings: Seq<Seq<Pt>>, r: int, i: int) -> bool {
    &&& forall|p: Pt| #[trigger]
        seen.contains_key(key_of(p) as u128) ==> exists|r0: int, i0: int| #[trigger]
            occurs(rings, p, r0, i0) && before(r0, i0, r, i) && rings[r0][prev_index(
                i0,
                rings[r0].len() as int,
            )] == seen[key_of(p) as u128].0 && rings[r0][next_index(i0, rings[r0].len() as int)]
                == seen[key_of(p) as u128].1
    &&& forall|p: Pt, r0: int, i0: int| #[trigger]
        occurs(rings, p, r0, i0) && before(r0, i0, r, i) ==> seen.contains_key(key_of(p) as u128)
            && (seen[key_of(p) as u128].2 || same_pair(
            rings[r0][prev_index(i0, rings[r0].len() as int)],
            rings[r0][next_index(i0, rings[r0].len() as int)],
            seen[key_of(p) as u128].0,
            seen[key_of(p) as u128].1,
        ))
    &&& forall|p: Pt| #[trigger]
        seen.contains_key(key_of(p) as u128) && seen[key_of(p) as u128].2 ==> is_junction(rings, p)
}

/// The map after one more occurrence of a point.
spec fn note(seen: Map<u128, (Pt, Pt, bool)>, cur: Pt, prev: Pt, next: Pt) -> Map<
    u128,
    (Pt, Pt, bool),
> {
    let k = key_of(cur) as u128;
    if !seen.contains_key(k) {
        seen.insert(k, (prev, next, false))
    } else if seen[k].2 || same_pair(prev, next, seen[k].0, seen[k].1) {
        seen
    } else {
        seen.insert(k, (seen[k].0, seen[k].1, true))
    }
}

fn note_vertex(seen: &mut Seen, cur: Pt, prev: Pt, next: Pt)
    ensures
        final(seen)@ == note(old(seen)@, cur, prev, next),
{
    let k = point_key(cur);
    let known: Option<(Pt, Pt, bool)> = match seen.get(&k) {
        None => None,
        Some(v) => Some((v.0, v.1, v.2)),
    };
    match known {
        None => {
            seen.insert(k, (prev, next, false));
        },
        Some((a, b, junction)) => {
            let same = (same_point(prev, a) && same_point(next, b)) || (same_point(prev, b)
                && same_point(next, a));
            if !junction && !same {
                seen.insert(k, (a, b, true));
            }
        },
    }
}

proof fn lemma_note(seen: Map<u128, (Pt, Pt, bool)>, rings: Seq<Seq<Pt>>, r: int, i: int)
    requires
        0 <= r < rings.len(),
        0 <= i < rings[r].len(),
        noted(seen, rings, r, i),
    ensures
        ({
            let ring = rings[r];
            let n = ring.len() as int;
            noted(
                note(seen, ring[i], ring[prev_index(i, n)], ring[next_index(i, n)]),
                rings,
                r,
                i + 1,
            )
        }),
{
    let ring = rings[r];
    let n = ring.len() as int;
    let (cur, prev, next) = (ring[i], ring[prev_index(i, n)], ring[next_index(i, n)]);
    let k = key_of(cur) as u128;
    let after = note(seen, cur, prev, next);
    assert(occurs(rings, cur, r, i));
    assert forall|p: Pt| #[trigger] after.contains_key(key_of(p) as u128) implies exists|
        r0: int,
        i0: int,
    | #[trigger]
        occurs(rings, p, r0, i0) && before(r0, i0, r, i + 1) && rings[r0][prev_index(
            i0,
            rings[r0].len() as int,
        )] == after[key_of(p) as u128].0 && rings[r0][next_index(i0, rings[r0].len() as int)]
            == after[key_of(p) as u128].1 by {
        if seen.contains_key(key_of(p) as u128) {
            let (r0, i0) = choose|r0: int, i0: int| #[trigger]
                occurs(rings, p, r0, i0) && before(r0, i0, r, i) && rings[r0][prev_index(
                    i0,
                    rings[r0].len() as int,
                )] == seen[key_of(p) as u128].0 && rings[r0][next_index(
                    i0,
                    rings[r0].len() as int,
                )] == seen[key_of(p) as u128].1;
            assert(occurs(rings, p, r0, i0) && before(r0, i0, r, i + 1));
        } else {
            lemma_key_unique(p, cur);
            assert(occurs(rings, p, r, i) && before(r, i, r, i + 1));
        }
    }
    assert forall|p: Pt, r0: int, i0: int| #[trigger]
        occurs(rings, p, r0, i0) && before(r0, i0, r, i + 1) implies after.contains_key(
        key_of(p) as u128,
    ) && (after[key_of(p) as u128].2 || same_pair(
        rings[r0][prev_index(i0, rings[r0].len() as int)],
        rings[r0][next_index(i0, rings[r0].len() as int)],
        after[key_of(p) as u128].0,
        after[key_of(p) as u128].1,
    )) by {
        if before(r0, i0, r, i) {
            assert(seen.contains_key(key_of(p) as u128));
        }
    }
    assert forall|p: Pt| #[trigger]
        after.contains_key(key_of(p) as u128) && after[key_of(p) as u128].2 implies is_junction(
        rings,
        p,
    ) by {
        if key_of(p) == key_of(cur) {
            lemma_key_unique(p, cur);
            if seen.contains_key(k) && !seen[k].2 {
                let (r0, i0) = choose|r0: int, i0: int| #[trigger]
                    occurs(rings, cur, r0, i0) && before(r0, i0, r, i) && rings[r0][prev_index(
                        i0,
                        rings[r0].len() as int,
                    )] == seen[k].0 && rings[r0][next_index(i0, rings[r0].len() as int)]
                        == seen[k].1;
                assert(occurs(rings, cur, r0, i0) && occurs(rings, cur, r, i));
                assert(!same_neighbours(rings[r0], i0, rings[r], i));
            } else {
                assert(seen.contains_key(key_of(cur) as u128));
            }
        } else {
            assert(seen.contains_key(key_of(p) as u128));
        }
    }
}

proof fn lemma_noted_all(seen: Map<u128, (Pt, Pt, bool)>, rings: Seq<Seq<Pt>>)
    requires
        noted(seen, rings, rings.len() as int, 0),
    ensures
        marks(seen, rings),
{
    assert forall|p: Pt|
        (seen.contains_key(#[trigger] key_of(p) as u128) && seen[key_of(p) as u128].2)
            <==> is_junction(rings, p) by {
        if is_junction(rings, p) {
            let (r, i, s, j) = choose|r: int, i: int, s: int, j: int|
                #![trigger occurs(rings, p, r, i), occurs(rings, p, s, j)]
                occurs(rings, p, r, i) && occurs(rings, p, s, j) && !same_neighbours(
                    rings[r],
                    i,
                    rings[s],
                    j,
                );
            assert(before(r, i, rings.len() as int, 0) && before(s, j, rings.len() as int, 0));
        }
    }
}

/// The points at which the neighbours of a vertex are not always the same.
fn junctions(rings: &[Vec<Pt>]) -> (seen: Seen)
    ensures
        marks(seen@, deep(rings@)),
{
    let mut seen: Seen = HashMap::new();
    let ghost model = deep(rings@);
    let mut r: usize = 0;
    while r < rings.len()
        invariant
            0 <= r <= rings@.len(),
            model == deep(rings@),
            noted(seen@, model, r as int, 0),
        decreases rings.len() - r,
    {
        let n = rings[r].len();
        let mut i: usize = 0;
        while i < n
            invariant
                0 <= r < rings@.len(),
                0 <= i <= n,
                n == rings@[r as int]@.len(),
                model == deep(rings@),
                noted(seen@, model, r as int, i as int),
            decreases n - i,
        {
            let cur = rings[r][i];
            let prev = rings[r][if i == 0 {
                n - 1
            } else {
                i - 1
            }];
            let next = rings[r][if i + 1 == n {
                0
            } else {
                i + 1
            }];
            proof {
                assert(model[r as int] == rings@[r as int]@);
                lemma_note(seen@, model, r as int, i as int);
            }
            note_vertex(&mut seen, cur, prev, next);
            i += 1;
        }
        proof {
            assert(forall|p: Pt, r0: int, i0: int| #[trigger]
                occurs(model, p, r0, i0) ==> (before(r0, i0, r as int, n as int) <==> before(
                    r0,
                    i0,
                    r + 1,
                    0,
                ))) by {
                assert(model[r as int] == rings@[r as int]@);
            }
            lemma_noted_moves_on(seen@, model, r as int, n as int);
        }
        r += 1;
    }
    proof {
        lemma_noted_all(seen@, model);
    }
    seen
}

/// At the end of a ring the next position is the start of the next one.
proof fn lemma_noted_moves_on(
    seen: Map<u128, (Pt, Pt, bool)>,
    rings: Seq<Seq<Pt>>,
    r: int,
    n: int,
)
    requires
        noted(seen, rings, r, n),
        forall|p: Pt, r0: int, i0: int| #[trigger]
            occurs(rings, p, r0, i0) ==> (before(r0, i0, r, n) <==> before(r0, i0, r + 1, 0)),
    ensures
        noted(seen, rings, r + 1, 0),
{
    assert forall|p: Pt| #[trigger] seen.contains_key(key_of(p) as u128) implies exists|
        r0: int,
        i0: int,
    | #[trigger]
        occurs(rings, p, r0, i0) && before(r0, i0, r + 1, 0) && rings[r0][prev_index(
            i0,
            rings[r0].len() as int,
        )] == seen[key_of(p) as u128].0 && rings[r0][next_index(i0, rings[r0].len() as int)]
            == seen[key_of(p) as u128].1 by {
        let (r0, i0) = choose|r0: int, i0: int| #[trigger]
            occurs(rings, p, r0, i0) && before(r0, i0, r, n) && rings[r0][prev_index(
                i0,
                rings[r0].len() as int,
            )] == seen[key_of(p) as u128].0 && rings[r0][next_index(i0, rings[r0].len() as int)]
                == seen[key_of(p) as u128].1;
        assert(occurs(rings, p, r0, i0) && before(r0, i0, r + 1, 0));
    }
}

fn is_marked(seen: &Seen, p: Pt) -> (r: bool)
    ensures
        r == (seen@.contains_key(key_of(p) as u128) && seen@[key_of(p) as u128].2),
{
    match seen.get(&point_key(p)) {
        None => false,
        Some(v) => v.2,
    }
}

/// Cut a ring at its junctions into arcs (each including both endpoint
/// junctions).  A ring with no junctions becomes one closed arc.
fn cut_ring(ring: &[Pt], seen: &Seen, rings: Ghost<Seq<Seq<Pt>>>) -> (r: Vec<Vec<Pt>>)
    requires
        ring@.len() > 0,
        marks(seen@, rings@),
    ensures
        deep(r@) == cut(ring@, rings@),
{
    let n = ring.len();
    let mut jpos: Vec<usize> = Vec::new();
    let mut i: usize = 0;
    while i < n
        invariant
            n == ring@.len(),
            0 <= i <= n,
            marks(seen@, rings@),
            jpos@.map_values(|x: usize| x as int) == junction_positions(
                ring@,
                rings@,
                i as int,
            ),
        decreases n - i,
    {
        if is_marked(seen, ring[i]) {
            let ghost old_pos = jpos@;
            jpos.push(i);
            proof {
                assert(jpos@.map_values(|x: usize| x as int) =~= old_pos.map_values(
                    |x: usize| x as int,
                ).push(i as int));
            }
        }
        proof {
            assert(is_junction(rings@, ring@[i as int]) <==> (seen@.contains_key(
                key_of(ring@[i as int]) as u128,
            ) && seen@[key_of(ring@[i as int]) as u128].2));
        }
        i += 1;
    }
    let ghost js = junction_positions(ring@, rings@, n as int);
    proof {
        lemma_junction_positions(ring@, rings@, n as int);
        assert forall|k: int| 0 <= k < jpos@.len() implies #[trigger] jpos@[k] == js[k] by {
            assert(jpos@.map_values(|x: usize| x as int)[k] == js[k]);
        }
        assert(jpos@.len() == js.len());
    }
    let mut arcs: Vec<Vec<Pt>> = Vec::new();
    if jpos.len() == 0 {
        let mut arc = copy_points(ring);
        arc.push(ring[0]);
        arcs.push(arc);
        proof {
            assert(deep(arcs@) =~= cut(ring@, rings@));
        }
        return arcs;
    }
    let m = jpos.len();
    let mut k: usize = 0;
    while k < m
        invariant
            n == ring@.len(),
            n > 0,
            m == jpos@.len(),
            m == js.len(),
            m > 0,
            0 <= k <= m,
            js == junction_positions(ring@, rings@, n as int),
            forall|i: int| 0 <= i < m ==> 0 <= #[trigger] js[i] < n,
            forall|i: int| 0 <= i < m ==> #[trigger] jpos@[i] == js[i],
            deep(arcs@) == cut(ring@, rings@).take(k as int),
            m == cut(ring@, rings@).len(),
        decreases m - k,
    {
        let start = jpos[k];
        let end = jpos[if k + 1 == m {
            0
        } else {
            k + 1
        }];
        let steps = if end > start {
            end - start
        } else {
            n - start + end
        };
        let mut arc: Vec<Pt> = Vec::with_capacity(steps);
        proof {
            assert(jpos@[k as int] == js[k as int]);
            assert(0 <= js[k as int] < n);
            assert(0 <= js[next_index(k as int, m as int)] < n);
            assert(arc@ =~= arc_from(ring@, start as int, steps as int).take(0));
        }
        let mut i: usize = start;
        let mut t: usize = 0;
        while t < steps
            invariant
                n == ring@.len(),
                0 <= t <= steps <= n,
                start < n,
                i == wrap(start + t, n as int),
                0 <= i < n,
                arc@ == arc_from(ring@, start as int, steps as int).take(t as int),
            decreases steps - t,
        {
            arc.push(ring[i]);
            proof {
                let whole = arc_from(ring@, start as int, steps as int);
                assert(whole.take(t + 1) =~= whole.take(t as int).push(whole[t as int]));
            }
            t += 1;
            i = if i + 1 == n {
                0
            } else {
                i + 1
            };
        }
        arc.push(ring[i]);
        proof {
            let whole = arc_from(ring@, start as int, steps as int);
            assert(whole.take(steps as int).push(whole[steps as int]) =~= whole);
            assert(arc@ == whole);
            assert(whole == cut(ring@, rings@)[k as int]);
        }
        let ghost old_arcs = arcs@;
        arcs.push(arc);
        proof {
            assert(deep(arcs@) =~= deep(old_arcs).push(cut(ring@, rings@)[k as int]));
            assert(cut(ring@, rings@).take(k + 1) =~= cut(ring@, rings@).take(k as int).push(
                cut(ring@, rings@)[k as int],
            ));
        }
        k += 1;
    }
    proof {
        assert(cut(ring@, rings@).take(m as int) =~= cut(ring@, rings@));
    }
    arcs
}

/// The first place at which an arc is stored.
fn position_of(arcs: &Vec<Vec<Pt>>, arc: &[Pt]) -> (r: Option<usize>)
    ensures
        match find_arc(deep(arcs@), arc@, 0) {
            Some(i) => r == Some(i as usize) && 0 <= i < arcs@.len(),
            None => r is None,
        },
{
    let mut k: usize = 0;
    while k < arcs.len()
        invariant
            0 <= k <= arcs@.len(),
            find_arc(deep(arcs@), arc@, 0) == find_arc(deep(arcs@), arc@, k as int),
        decreases arcs.len() - k,
    {
        proof {
            assert(deep(arcs@)[k as int] == arcs@[k as int]@);
        }
        if same_points(arcs[k].as_slice(), arc) {
            return Some(k);
        }
        k += 1;
    }
    None
}

/// Add an arc (or find it, forward or reversed) and return a reference to it.
fn dedup_arc(arc: Vec<Pt>, arcs: &mut Vec<Vec<Pt>>) -> (r: ArcRef)
    ensures
        (deep(final(arcs)@), r) == place_arc(deep(old(arcs)@), arc@),
{
    proof {
        lemma_find_arc(deep(arcs@), arc@, 0);
        lemma_find_arc(deep(arcs@), arc@.reverse(), 0);
    }
    if let Some(i) = position_of(arcs, arc.as_slice()) {
        return ArcRef { arc: i, rev: false };
    }
    let rev = copy_reversed(arc.as_slice());
    if let Some(i) = position_of(arcs, rev.as_slice()) {
        return ArcRef { arc: i, rev: true };
    }
    let i = arcs.len();
    let ghost old_arcs = arcs@;
    arcs.push(arc);
    proof {
        assert(deep(arcs@) =~= deep(old_arcs).push(arc@));
    }
    ArcRef { arc: i, rev: false }
}

/// The reference lists behind a list of vectors.
pub open spec fn deep_refs(lists: Seq<Vec<ArcRef>>) -> Seq<Seq<ArcRef>> {
    Seq::new(lists.len(), |i: int| lists[i]@)
}

/// Extract shared arcs from a set of rings (each a vertex list without a
/// repeated closing vertex).  Returns the deduplicated arcs and, per input
/// ring, its arc references in traversal order.
pub fn build(rings: &[Vec<Pt>]) -> (r: (Vec<Vec<Pt>>, Vec<Vec<ArcRef>>))
    requires
        forall|k: int| 0 <= k < rings@.len() ==> (#[trigger] rings@[k])@.len() > 0,
    ensures
        (deep(r.0@), deep_refs(r.1@)) == topology_of(deep(rings@), rings@.len() as int),
        arcs_distinct(deep(r.0@)),
        borders_once(deep(rings@), deep(r.0@)),
        r.1@.len() == rings@.len(),
        forall|k: int|
            0 <= k < rings@.len() ==> {
                &&& chained(deep(r.0@), (#[trigger] r.1@[k])@)
                &&& ring_of(deep(r.0@), r.1@[k]@) == rotated(
                    rings@[k]@,
                    first_junction(rings@[k]@, deep(rings@)),
                )
            },
{
    let seen = junctions(rings);
    let ghost model = deep(rings@);
    let mut arcs: Vec<Vec<Pt>> = Vec::new();
    let mut ring_refs: Vec<Vec<ArcRef>> = Vec::with_capacity(rings.len());
    proof {
        assert(deep(arcs@) =~= Seq::<Seq<Pt>>::empty());
        assert(deep_refs(ring_refs@) =~= Seq::<Seq<ArcRef>>::empty());
    }
    let mut k: usize = 0;
    while k < rings.len()
        invariant
            0 <= k <= rings@.len(),
            forall|k: int| 0 <= k < rings@.len() ==> (#[trigger] rings@[k])@.len() > 0,
            model == deep(rings@),
            marks(seen@, model),
            (deep(arcs@), deep_refs(ring_refs@)) == topology_of(model, k as int),
        decreases rings.len() - k,
    {
        let ghost start = deep(arcs@);
        let cuts = cut_ring(rings[k].as_slice(), &seen, Ghost(model));
        let mut refs: Vec<ArcRef> = Vec::with_capacity(cuts.len());
        let mut i: usize = 0;
        proof {
            assert(deep(cuts@).take(0) =~= Seq::<Seq<Pt>>::empty());
        }
        while i < cuts.len()
            invariant
                0 <= i <= cuts@.len(),
                (deep(arcs@), refs@) == place_all(start, deep(cuts@).take(i as int)),
            decreases cuts.len() - i,
        {
            proof {
                let next = deep(cuts@).take(i + 1);
                assert(next.drop_last() =~= deep(cuts@).take(i as int));
                assert(next.last() == cuts@[i as int]@);
            }
            let arc = copy_points(cuts[i].as_slice());
            let r = dedup_arc(arc, &mut arcs);
            refs.push(r);
            i += 1;
        }
        let ghost old_refs = ring_refs@;
        proof {
            assert(deep(cuts@).take(cuts@.len() as int) =~= deep(cuts@));
            assert(model[k as int] == rings@[k as int]@);
        }
        ring_refs.push(refs);
        proof {
            assert(deep_refs(ring_refs@) =~= deep_refs(old_refs).push(refs@));
        }
        k += 1;
    }
    proof {
        let (a, l) = topology_of(model, rings@.len() as int);
        assert(a.len() == arcs.len());
        lemma_topology_of(model, rings@.len() as int);
        assert forall|k: int| 0 <= k < model.len() implies (#[trigger] model[k]).len() > 0 by {
            assert(model[k] == rings@[k]@);
        }
        law_no_edge_in_two_arcs(model);
        assert forall|k: int| 0 <= k < rings@.len() implies {
            &&& chained(deep(arcs@), (#[trigger] ring_refs@[k])@)
            &&& ring_of(deep(arcs@), ring_refs@[k]@) == rotated(
                rings@[k]@,
                first_junction(rings@[k]@, model),
            )
        } by {
            assert(model[k] == rings@[k]@);
            assert(l[k] == ring_refs@[k]@);
            assert forall|i: int| 0 <= i < l[k].len() implies (#[trigger] l[k][i]).arc < a.len()
                && oriented(a, l[k][i]) == cut(model[k], model)[i] by {}
            lemma_cut_gives_ring_back(a, l[k], model[k], model);
        }
    }
    (arcs, ring_refs)
}

/// Rebuild a ring (no repeated closing vertex) from its arc references.
pub fn reconstruct(arcs: &[Vec<Pt>], refs: &[ArcRef]) -> (ring: Vec<Pt>)
    requires
        refs_valid(deep(arcs@), refs@),
    ensures
        ring@ == ring_of(deep(arcs@), refs@),
{
    let mut ring: Vec<Pt> = Vec::new();
    let ghost model = deep(arcs@);
    let mut k: usize = 0;
    proof {
        assert(refs@.take(0) =~= Seq::<ArcRef>::empty());
    }
    while k < refs.len()
        invariant
            0 <= k <= refs@.len(),
            model == deep(arcs@),
            refs_valid(model, refs@),
            ring@ == path_of(model, refs@.take(k as int)),
        decreases refs.len() - k,
    {
        let r = refs[k];
        proof {
            assert(refs@[k as int].arc < model.len());
            assert(model[r.arc as int] == arcs@[r.arc as int]@);
            assert(refs@.take(k + 1).drop_last() =~= refs@.take(k as int));
            assert(refs@.take(k + 1).last() == r);
        }
        let arc: &Vec<Pt> = &arcs[r.arc];
        let n = arc.len();
        let ghost head = ring@;
        let ghost whole = oriented(model, r);
        // drop the junction shared with the previous arc
        let from: usize = if k > 0 {
            1
        } else {
            0
        };
        let mut i: usize = from;
        proof {
            assert(whole.subrange(from as int, from as int) =~= Seq::<Pt>::empty());
            assert(head + whole.subrange(from as int, from as int) =~= head);
        }
        while i < n
            invariant
                n == arc@.len(),
                from <= i <= n,
                whole.len() == n,
                whole == if r.rev {
                    arc@.reverse()
                } else {
                    arc@
                },
                ring@ == head + whole.subrange(from as int, i as int),
            decreases n - i,
        {
            ring.push(if r.rev {
                arc[n - 1 - i]
            } else {
                arc[i]
            });
            proof {
                assert(head + whole.subrange(from as int, i + 1) =~= (head + whole.subrange(
                    from as int,
                    i as int,
                )).push(whole[i as int]));
            }
            i += 1;
        }
        proof {
            if k > 0 {
                assert(ring@ =~= join(head, whole));
            } else {
                assert(head =~= Seq::<Pt>::empty());
                assert(ring@ =~= whole);
                assert(refs@.take(1)[0] == r);
            }
        }
        k += 1;
    }
    proof {
        assert(refs@.take(refs@.len() as int) =~= refs@);
    }
    // the concatenation ends back at the start junction (the closure)
    let _ = ring.pop();
    proof {
        assert(ring@ =~= ring_of(model, refs@));
    }
    ring
}

/// Twice the area of triangle `a, b, c`: the effective area of vertex `b`.
pub open spec fn triangle_area2(a: Pt, b: Pt, c: Pt) -> int {
    if left_of(a, b, c) < 0 {
        -left_of(a, b, c)
    } else {
        left_of(a, b, c)
    }
}

/// The doubled area of any three vertices, taken in order, can be computed.
pub open spec fn triples_fit(pts: Seq<Pt>) -> bool {
    forall|i: int, j: int, k: int|
        0 <= i < j < k < pts.len() ==> #[trigger] triple_fits(pts, i, j, k)
}

/// The doubled area of these three vertices can be computed.
pub open spec fn triple_fits(pts: Seq<Pt>, i: int, j: int, k: int) -> bool {
    left_of_fits(pts[i], pts[j], pts[k]) && left_of(pts[i], pts[j], pts[k]) > i64::MIN
}

/// The effective area of the interior vertex `i`.
pub open spec fn effective_area(pts: Seq<Pt>, i: int) -> int {
    triangle_area2(pts[i - 1], pts[i], pts[i + 1])
}

/// The first interior vertex below `k` of least effective area, 0 if there is
/// none below the largest representable area.
pub open spec fn weakest(pts: Seq<Pt>, k: int) -> int
    decreases k,
{
    if k <= 1 {
        0
    } else {
        let w = weakest(pts, k - 1);
        let least = if w == 0 {
            i64::MAX as int
        } else {
            effective_area(pts, w)
        };
        if effective_area(pts, k - 1) < least {
            k - 1
        } else {
            w
        }
    }
}

/// Drop weakest vertices until `target` are left.
pub open spec fn vw_run(pts: Seq<Pt>, target: int) -> Seq<Pt>
    decreases pts.len(),
{
    let w = weakest(pts, pts.len() - 1);
    if pts.len() <= target || w <= 0 || w >= pts.len() {
        pts
    } else {
        vw_run(pts.remove(w), target)
    }
}

/// A path that ends where it starts.
pub open spec fn is_closed(arc: Seq<Pt>) -> bool {
    arc.len() > 0 && arc[0] == arc.last()
}

/// The simplified arc: a closed one keeps four vertices, an open one two.
pub open spec fn vw_simplified(arc: Seq<Pt>, target: int) -> Seq<Pt> {
    let least = if is_closed(arc) {
        4int
    } else {
        2int
    };
    if arc.len() <= 2 || target >= arc.len() {
        arc
    } else if target < least {
        vw_run(arc, least)
    } else {
        vw_run(arc, target)
    }
}

/// The positions of a part's vertices in the whole, in order.
pub open spec fn is_picked(part: Seq<Pt>, whole: Seq<Pt>, at: Seq<int>) -> bool {
    &&& at.len() == part.len()
    &&& forall|i: int|
        0 <= i < at.len() ==> 0 <= (#[trigger] at[i]) < whole.len() && whole[at[i]] == part[i]
    &&& forall|i: int, j: int| 0 <= i < j < at.len() ==> #[trigger] at[i] < #[trigger] at[j]
}

/// The part consists of vertices of the whole, in the order of the whole.
pub open spec fn is_subsequence(part: Seq<Pt>, whole: Seq<Pt>) -> bool {
    exists|at: Seq<int>| is_picked(part, whole, at)
}

proof fn lemma_picks_all(pts: Seq<Pt>)
    ensures
        is_subsequence(pts, pts),
{
    assert(is_picked(pts, pts, Seq::new(pts.len(), |i: int| i)));
}

/// Dropping weakest vertices leaves a subsequence.
proof fn lemma_vw_run_picks(pts: Seq<Pt>, target: int)
    ensures
        is_subsequence(vw_run(pts, target), pts),
    decreases pts.len(),
{
    let w = weakest(pts, pts.len() - 1);
    if pts.len() <= target || w <= 0 || w >= pts.len() {
        lemma_picks_all(pts);
    } else {
        let rest = pts.remove(w);
        let part = vw_run(rest, target);
        lemma_vw_run_picks(rest, target);
        let at = choose|at: Seq<int>| is_picked(part, rest, at);
        let moved = Seq::new(
            at.len(),
            |i: int|
                if at[i] < w {
                    at[i]
                } else {
                    at[i] + 1
                },
        );
        assert forall|i: int| 0 <= i < moved.len() implies 0 <= (#[trigger] moved[i]) < pts.len()
            && pts[moved[i]] == part[i] by {
            assert(0 <= at[i] < rest.len() && rest[at[i]] == part[i]);
        }
        assert forall|i: int, j: int| 0 <= i < j < moved.len() implies #[trigger] moved[i]
            < #[trigger] moved[j] by {
            assert(at[i] < at[j]);
        }
        assert(is_picked(part, pts, moved));
    }
}

proof fn lemma_weakest(pts: Seq<Pt>, k: int)
    requires
        k < pts.len(),
        pts.len() > 0,
    ensures
        0 <= weakest(pts, k) < pts.len(),
        weakest(pts, k) > 0 ==> 1 <= weakest(pts, k) < k,
    decreases k,
{
    if k > 1 {
        lemma_weakest(pts, k - 1);
    }
}

proof fn lemma_triples_fit_remove(pts: Seq<Pt>, w: int)
    requires
        triples_fit(pts),
        0 <= w < pts.len(),
    ensures
        triples_fit(pts.remove(w)),
{
    let rest = pts.remove(w);
    assert forall|i: int, j: int, k: int|
        0 <= i < j < k < rest.len() implies #[trigger] triple_fits(rest, i, j, k) by {
        let (i2, j2, k2) = (
            if i < w { i } else { i + 1 },
            if j < w { j } else { j + 1 },
            if k < w { k } else { k + 1 },
        );
        assert(rest[i] == pts[i2] && rest[j] == pts[j2] && rest[k] == pts[k2]);
        assert(triple_fits(pts, i2, j2, k2));
    }
}

/// Simplification keeps the two end vertices and adds none.
pub proof fn lemma_vw_run(pts: Seq<Pt>, target: int)
    requires
        pts.len() >= 2,
    ensures
        2 <= vw_run(pts, target).len() <= pts.len(),
        vw_run(pts, target)[0] == pts[0],
        vw_run(pts, target).last() == pts.last(),
        target <= pts.len() ==> target <= vw_run(pts, target).len(),
    decreases pts.len(),
{
    let w = weakest(pts, pts.len() - 1);
    lemma_weakest(pts, pts.len() - 1);
    if !(pts.len() <= target || w <= 0 || w >= pts.len()) {
        lemma_vw_run(pts.remove(w), target);
    }
}

pub proof fn lemma_vw_simplified(arc: Seq<Pt>, target: int)
    requires
        arc.len() >= 2,
    ensures
        2 <= vw_simplified(arc, target).len() <= arc.len(),
        vw_simplified(arc, target)[0] == arc[0],
        vw_simplified(arc, target).last() == arc.last(),
        is_closed(arc) && arc.len() >= 4 ==> vw_simplified(arc, target).len() >= 4,
{
    lemma_vw_run(arc, 4);
    lemma_vw_run(arc, 2);
    lemma_vw_run(arc, target);
}

fn tri_area2(a: Pt, b: Pt, c: Pt) -> (r: i64)
    requires
        left_of_fits(a, b, c),
        left_of(a, b, c) > i64::MIN,
    ensures
        r == triangle_area2(a, b, c),
{
    let v = is_left(a, b, c);
    if v < 0 {
        -v
    } else {
        v
    }
}

/// Visvalingam-Whyatt on one arc: keep the two endpoints, drop interior
/// vertices by ascending effective area until `target` vertices remain (at
/// least as many as there are leaves the arc untouched).  A closed arc (a ring
/// with no junctions) keeps four vertices so the reconstructed ring stays
/// valid; an open arc keeps its two endpoints.
pub fn vw_simplify(arc: &[Pt], target: usize) -> (r: Vec<Pt>)
    requires
        triples_fit(arc@),
        arc@.len() == 3 && is_closed(arc@) ==> target >= 3,
    ensures
        r@ == vw_simplified(arc@, target as int),
        arc@.len() > 0 ==> r@.len() > 0 && r@[0] == arc@[0] && r@.last() == arc@.last(),
        is_subsequence(r@, arc@),
        is_thinned(arc@, r@),
        r@.len() <= arc@.len(),
        target < arc@.len() && triples_below_max(arc@) ==> r@.len() == if target >= (if is_closed(
            arc@,
        ) { 4int } else { 2int }) {
            target as int
        } else if arc@.len() <= 2 {
            arc@.len() as int
        } else if is_closed(arc@) {
            4int
        } else {
            2int
        },
{
    let n = arc.len();
    proof {
        if n >= 2 {
            lemma_vw_simplified(arc@, target as int);
        }
        lemma_picks_all(arc@);
        law_simplification_drops_the_least(arc@, target as int);
    }
    if n <= 2 || target >= n {
        return copy_points(arc);
    }
    let least: usize = if same_point(arc[0], arc[n - 1]) {
        4
    } else {
        2
    };
    let goal: usize = if target < least {
        least
    } else {
        target
    };
    proof {
        lemma_vw_len(arc@, goal as int);
        lemma_vw_run_picks(arc@, goal as int);
    }
    vw_reduce(copy_points(arc), goal)
}

/// Drop weakest vertices until `goal` are left.
fn vw_reduce(arc: Vec<Pt>, goal: usize) -> (r: Vec<Pt>)
    requires
        2 <= goal,
        2 <= arc@.len(),
        triples_fit(arc@),
    ensures
        r@ == vw_run(arc@, goal as int),
{
    let mut pts = arc;
    while pts.len() > goal
        invariant
            2 <= goal,
            2 <= pts@.len(),
            triples_fit(pts@),
            vw_run(pts@, goal as int) == vw_run(arc@, goal as int),
        decreases pts.len(),
    {
        let mut least_area: i64 = i64::MAX;
        let mut w: usize = 0;
        let m = pts.len();
        let mut i: usize = 1;
        while i < m - 1
            invariant
                m == pts@.len(),
                m > 2,
                1 <= i <= m - 1,
                triples_fit(pts@),
                w == weakest(pts@, i as int),
                w < i,
                least_area == if w == 0 {
                    i64::MAX as int
                } else {
                    effective_area(pts@, w as int)
                },
            decreases m - 1 - i,
        {
            proof {
                assert(triple_fits(pts@, i - 1, i as int, i + 1));
            }
            let a = tri_area2(pts[i - 1], pts[i], pts[i + 1]);
            if a < least_area {
                least_area = a;
                w = i;
            }
            i += 1;
        }
        if w == 0 {
            return pts;
        }
        proof {
            lemma_triples_fit_remove(pts@, w as int);
        }
        let _ = pts.remove(w);
    }
    pts
}

/// The doubled area of any three vertices is below the largest one.
pub open spec fn triples_below_max(pts: Seq<Pt>) -> bool {
    forall|i: int, j: int, k: int|
        0 <= i < j < k < pts.len() ==> #[trigger] triple_below_max(pts, i, j, k)
}

pub open spec fn triple_below_max(pts: Seq<Pt>, i: int, j: int, k: int) -> bool {
    triangle_area2(pts[i], pts[j], pts[k]) < i64::MAX
}

/// Simplification reaches its goal.
proof fn lemma_vw_len(pts: Seq<Pt>, goal: int)
    requires
        2 <= goal,
        pts.len() >= 2,
    ensures
        triples_below_max(pts) && goal <= pts.len() ==> vw_run(pts, goal).len() == goal,
    decreases pts.len(),
{
    let k = pts.len() - 1;
    lemma_weakest(pts, k);
    if triples_below_max(pts) && pts.len() > goal {
        lemma_weakest_found(pts, k);
        let w = weakest(pts, k);
        let rest = pts.remove(w);
        assert forall|i: int, j: int, k: int|
            0 <= i < j < k < rest.len() implies #[trigger] triple_below_max(rest, i, j, k) by {
            let (i2, j2, k2) = (
                if i < w { i } else { i + 1 },
                if j < w { j } else { j + 1 },
                if k < w { k } else { k + 1 },
            );
            assert(rest[i] == pts[i2] && rest[j] == pts[j2] && rest[k] == pts[k2]);
            assert(triple_below_max(pts, i2, j2, k2));
        }
        lemma_vw_len(rest, goal);
    }
}

proof fn lemma_weakest_found(pts: Seq<Pt>, k: int)
    requires
        2 <= k < pts.len(),
        triples_below_max(pts),
    ensures
        weakest(pts, k) >= 1,
    decreases k,
{
    assert(triple_below_max(pts, k - 2, k - 1, k));
    assert(weakest(pts, 1) == 0);
    if k > 2 {
        lemma_weakest_found(pts, k - 1);
    }
}

/// What the table of targets by vertex count makes of an arc.  Counts beyond
/// the table, and closed arcs of three vertices, are left as they are.
pub open spec fn kept_arc(arc: Seq<Pt>, keep: Seq<usize>) -> Seq<Pt> {
    if arc.len() < keep.len() && !(arc.len() == 3 && is_closed(arc)) {
        vw_simplified(arc, keep[arc.len() as int] as int)
    } else {
        arc
    }
}

/// Simplify every arc; `keep[n]` is the number of vertices that an arc of `n`
/// vertices is to keep.
pub fn vw_simplify_all(arcs: &[Vec<Pt>], keep: &[usize]) -> (r: Vec<Vec<Pt>>)
    requires
        forall|k: int| 0 <= k < arcs@.len() ==> triples_fit((#[trigger] arcs@[k])@),
    ensures
        r@.len() == arcs@.len(),
        forall|k: int| 0 <= k < arcs@.len() ==> (#[trigger] r@[k])@ == kept_arc(arcs@[k]@, keep@),
{
    let mut out: Vec<Vec<Pt>> = Vec::with_capacity(arcs.len());
    let mut k: usize = 0;
    while k < arcs.len()
        invariant
            0 <= k <= arcs@.len(),
            out@.len() == k,
            forall|k: int| 0 <= k < arcs@.len() ==> triples_fit((#[trigger] arcs@[k])@),
            forall|i: int| 0 <= i < k ==> (#[trigger] out@[i])@ == kept_arc(arcs@[i]@, keep@),
        decreases arcs.len() - k,
    {
        let arc: &Vec<Pt> = &arcs[k];
        let n = arc.len();
        let kept = if n < keep.len() && !(n == 3 && same_point(arc[0], arc[2])) {
            vw_simplify(arc.as_slice(), keep[n])
        } else {
            copy_points(arc.as_slice())
        };
        out.push(kept);
        k += 1;
    }
    out
}

/// The unsigned doubled area of the triangle that a vertex makes with its two
/// neighbours.
pub open spec fn corner_area2(pts: Seq<Pt>, i: int) -> int {
    let a = area2(seq![pts[i - 1], pts[i], pts[i + 1]]);
    if a < 0 {
        -a
    } else {
        a
    }
}

/// The effective area of a vertex is that of its triangle.
pub proof fn law_effective_area_is_the_triangles(pts: Seq<Pt>, i: int)
    ensures
        effective_area(pts, i) == corner_area2(pts, i),
{
    let (a, b, c) = (pts[i - 1], pts[i], pts[i + 1]);
    let path = closed(seq![a, b, c]);
    assert(path =~= seq![a, b, c, a]);
    assert(path.drop_last() =~= seq![a, b, c]);
    assert(path.drop_last().drop_last() =~= seq![a, b]);
    assert(path.drop_last().drop_last().drop_last() =~= seq![a]);
    reveal_with_fuel(path_area2, 4);
    assert((b[0] - a[0]) * (c[1] - a[1]) == b[0] * c[1] - b[0] * a[1] - a[0] * c[1] + a[0] * a[1])
        by (nonlinear_arith);
    assert((c[0] - a[0]) * (b[1] - a[1]) == c[0] * b[1] - c[0] * a[1] - a[0] * b[1] + a[0] * a[1])
        by (nonlinear_arith);
}

/// One step of Visvalingam-Whyatt: a single interior vertex goes, the first one
/// of least effective area.
pub open spec fn drops_least(before: Seq<Pt>, after: Seq<Pt>, w: int) -> bool {
    &&& 1 <= w < before.len() - 1
    &&& after == before.remove(w)
    &&& forall|i: int|
        1 <= i < before.len() - 1 ==> corner_area2(before, w) <= #[trigger] corner_area2(before, i)
    &&& forall|i: int| 1 <= i < w ==> corner_area2(before, w) < #[trigger] corner_area2(before, i)
}

pub open spec fn is_step(before: Seq<Pt>, after: Seq<Pt>) -> bool {
    exists|w: int| drops_least(before, after, w)
}

/// The stages of a simplification, from the arc to what is left of it: from each
/// to the next the vertex of least effective area goes.
pub open spec fn is_thinning(stages: Seq<Seq<Pt>>, arc: Seq<Pt>, left: Seq<Pt>) -> bool {
    &&& stages.len() > 0
    &&& stages[0] == arc
    &&& stages.last() == left
    &&& forall|k: int| 0 < k < stages.len() ==> is_step(stages[k - 1], #[trigger] stages[k])
}

/// What is left of the arc after dropping vertices of least area one by one.
pub open spec fn is_thinned(arc: Seq<Pt>, left: Seq<Pt>) -> bool {
    exists|stages: Seq<Seq<Pt>>| is_thinning(stages, arc, left)
}

/// The vertex to be dropped has an effective area no larger than that of any
/// interior vertex, and less than that of those before it.  There is none to be
/// dropped only if all areas are the largest representable one.
pub proof fn law_weakest_is_least(pts: Seq<Pt>, k: int)
    requires
        k < pts.len(),
    ensures
        ({
            let w = weakest(pts, k);
            &&& 0 <= w
            &&& w > 0 ==> 1 <= w < k && effective_area(pts, w) < i64::MAX
            &&& w > 0 ==> forall|i: int|
                1 <= i < k ==> effective_area(pts, w) <= #[trigger] effective_area(pts, i)
            &&& w > 0 ==> forall|i: int|
                1 <= i < w ==> effective_area(pts, w) < #[trigger] effective_area(pts, i)
            &&& w == 0 ==> forall|i: int|
                1 <= i < k ==> #[trigger] effective_area(pts, i) >= i64::MAX
        }),
    decreases k,
{
    if k > 1 {
        law_weakest_is_least(pts, k - 1);
    }
}

proof fn lemma_thinning(pts: Seq<Pt>, target: int)
    ensures
        is_thinned(pts, vw_run(pts, target)),
    decreases pts.len(),
{
    let w = weakest(pts, pts.len() - 1);
    if pts.len() <= target || w <= 0 || w >= pts.len() {
        assert(is_thinning(seq![pts], pts, pts));
    } else {
        let rest = pts.remove(w);
        let left = vw_run(rest, target);
        lemma_thinning(rest, target);
        lemma_step(pts);
        let later = choose|stages: Seq<Seq<Pt>>| is_thinning(stages, rest, left);
        lemma_stage(pts, w, later, rest, left);
    }
}

proof fn lemma_step(pts: Seq<Pt>)
    requires
        0 < weakest(pts, pts.len() - 1) < pts.len(),
    ensures
        drops_least(
            pts,
            pts.remove(weakest(pts, pts.len() - 1)),
            weakest(pts, pts.len() - 1),
        ),
{
    let w = weakest(pts, pts.len() - 1);
    law_weakest_is_least(pts, pts.len() - 1);
    law_effective_area_is_the_triangles(pts, w);
    assert forall|i: int| 1 <= i < pts.len() - 1 implies corner_area2(pts, w)
        <= #[trigger] corner_area2(pts, i) by {
        law_effective_area_is_the_triangles(pts, i);
    }
    assert forall|i: int| 1 <= i < w implies corner_area2(pts, w) < #[trigger] corner_area2(
        pts,
        i,
    ) by {
        law_effective_area_is_the_triangles(pts, i);
    }
}

proof fn lemma_stage(
    pts: Seq<Pt>,
    w: int,
    later: Seq<Seq<Pt>>,
    rest: Seq<Pt>,
    left: Seq<Pt>,
)
    requires
        drops_least(pts, rest, w),
        is_thinning(later, rest, left),
    ensures
        is_thinned(pts, left),
{
    let stages = seq![pts] + later;
    assert forall|k: int| 0 < k < stages.len() implies is_step(
        stages[k - 1],
        #[trigger] stages[k],
    ) by {
        if k == 1 {
            assert(stages[0] == pts && stages[1] == later[0]);
        } else {
            assert(stages[k] == later[k - 1] && stages[k - 1] == later[k - 2]);
            assert(is_step(later[k - 2], later[k - 1]));
        }
    }
    assert(stages.last() == later.last());
    assert(is_thinning(stages, pts, left));
}

/// Simplification drops the vertices of least effective area first: what is
/// left comes of dropping, one by one, the interior vertex whose triangle with
/// its neighbours at that time is the smallest.  It goes on until the target is
/// reached (four vertices of a closed arc and two of an open one, if the target
/// is below that).
pub proof fn law_simplification_drops_the_least(arc: Seq<Pt>, target: int)
    ensures
        is_thinned(arc, vw_simplified(arc, target)),
        arc.len() <= target ==> vw_simplified(arc, target) == arc,
        triples_below_max(arc) && 2 <= target <= arc.len() && (arc[0] != arc.last() || target
            >= 4) ==> vw_simplified(arc, target).len() == target,
        triples_below_max(arc) && arc.len() >= 2 && target <= 2 && arc[0] != arc.last()
            ==> vw_simplified(arc, target) == seq![arc[0], arc.last()],
        triples_below_max(arc) && arc.len() >= 4 && target <= 4 && arc[0] == arc.last()
            ==> vw_simplified(arc, target).len() == 4,
{
    lemma_thinning(arc, 4);
    lemma_thinning(arc, 2);
    lemma_thinning(arc, target);
    assert(is_thinning(seq![arc], arc, arc));
    if triples_below_max(arc) && arc.len() >= 2 {
        lemma_thinned_len(arc, target);
    }
}

#[verifier::spinoff_prover]
proof fn lemma_thinned_len(arc: Seq<Pt>, target: int)
    requires
        triples_below_max(arc),
        arc.len() >= 2,
    ensures
        2 <= target <= arc.len() && (arc[0] != arc.last() || target >= 4) ==> vw_simplified(
            arc,
            target,
        ).len() == target,
        target <= 2 && arc[0] != arc.last() ==> vw_simplified(arc, target) == seq![
            arc[0],
            arc.last(),
        ],
        arc.len() >= 4 && target <= 4 && arc[0] == arc.last() ==> vw_simplified(arc, target).len()
            == 4,
{
    lemma_vw_simplified(arc, target);
    lemma_vw_len(arc, 2);
    if arc.len() >= 4 {
        lemma_vw_len(arc, 4);
    }
    if 2 <= target {
        lemma_vw_len(arc, target);
    }
    if target <= 2 && arc[0] != arc.last() {
        let left = vw_simplified(arc, target);
        assert(left.len() == 2);
        assert(left =~= seq![arc[0], arc.last()]);
    }
}

/// An arc is simplified to as many vertices as the table has for its length; one
/// that the table does not reach is left as it is.
pub proof fn law_table_gives_the_target(arc: Seq<Pt>, keep: Seq<usize>)
    ensures
        is_thinned(arc, kept_arc(arc, keep)),
        arc.len() >= keep.len() ==> kept_arc(arc, keep) == arc,
        arc.len() < keep.len() && triples_below_max(arc) && arc.len() >= 2 && arc[0] != arc.last()
            && 2 <= keep[arc.len() as int] <= arc.len() ==> kept_arc(arc, keep).len()
            == keep[arc.len() as int],
        arc.len() < keep.len() && triples_below_max(arc) && arc.len() >= 4 && arc[0] == arc.last()
            && 4 <= keep[arc.len() as int] <= arc.len() ==> kept_arc(arc, keep).len()
            == keep[arc.len() as int],
{
    assert(is_thinning(seq![arc], arc, arc));
    if arc.len() < keep.len() {
        law_simplification_drops_the_least(arc, keep[arc.len() as int] as int);
    }
}

} // verus!
