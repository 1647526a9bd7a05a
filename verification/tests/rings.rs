//! Quantization, simplification and shared arcs.
use tzconvert::geom::Pt;
use tzconvert::quant::{
    extreme_vertex_index, quantize, simplify_rdp, X_MAX, X_MIN, Y_MAX, Y_MIN,
};
use tzconvert::topology::{build, reconstruct, vw_simplify, vw_simplify_all, ArcRef};

const X_SCALE: f64 = 524288.0 / 180.0;
const Y_SCALE: f64 = 262144.0 / 90.0;

// Round half toward plus infinity.
fn round_up(x: f64) -> i64 {
    (x + 0.5).floor() as i64
}

fn quantize_degrees(lonlat: &[[f64; 2]]) -> Vec<Pt> {
    let rounded: Vec<Pt> =
        lonlat.iter().map(|v| [round_up(X_SCALE * v[0]), round_up(Y_SCALE * v[1])]).collect();
    quantize(&rounded)
}

fn length(a: [f64; 2]) -> f64 {
    (a[0] * a[0] + a[1] * a[1]).sqrt()
}

fn distance_to_line(a: Pt, b: Pt, p: Pt) -> f64 {
    let ab = [(b[0] - a[0]) as f64, (b[1] - a[1]) as f64];
    let ap = [(p[0] - a[0]) as f64, (p[1] - a[1]) as f64];
    let m = length(ab);
    if m == 0.0 {
        return length(ap);
    }
    let inv = 1.0 / m;
    let n = [ab[0] * inv, ab[1] * inv];
    let d = ap[0] * n[0] + ap[1] * n[1];
    length([ap[0] - n[0] * d, ap[1] - n[1] * d])
}

fn simplify(points: &[Pt], epsilon: f64) -> Vec<Pt> {
    let mut rdp = simplify_rdp(points);
    while let Some((start, end)) = rdp.next_chain() {
        let mut split = None;
        let mut furthest = 0.0;
        for i in start + 1..end {
            let d = distance_to_line(rdp.points[start], rdp.points[end], rdp.points[i]);
            if d > furthest {
                furthest = d;
                split = Some(i);
            }
        }
        rdp.decide(if furthest > epsilon { split } else { None });
    }
    rdp.finish()
}

#[test]
fn quantize_domain_and_closure() {
    assert_eq!(quantize_degrees(&[[180.0, 90.0]]), vec![[X_MAX - 1, Y_MAX - 1]]);
    assert_eq!(quantize_degrees(&[[-180.0, -90.0]]), vec![[X_MIN, Y_MIN]]);
    assert_eq!(quantize_degrees(&[[1e-7, 1e-7]]), vec![[0, 0]]);
    // Repeated closing vertex is dropped.
    assert_eq!(
        quantize_degrees(&[[0.0, 0.0], [1.0, 0.0], [1.0, 1.0], [0.0, 0.0]]).len(),
        3
    );
}

#[test]
fn rdp_keeps_corners_drops_collinear() {
    let filled = vec![[0, 0], [500, 0], [1000, 0], [1000, 500], [1000, 1000], [0, 1000]];
    assert_eq!(simplify(&filled, 5.0).len(), 4);
}

#[test]
fn rdp_rotation_invariant() {
    let a = vec![[0, 0], [100, 5], [200, 0], [200, 200], [100, 195], [0, 200]];
    let mut b = a[3..].to_vec();
    b.extend_from_slice(&a[..3]);
    assert_eq!(simplify(&a, 20.0).len(), simplify(&b, 20.0).len());
    assert_eq!(simplify(&a, 20.0), simplify(&b, 20.0));
}

#[test]
fn rdp_keeps_the_anchors() {
    // The anchor is the lexicographically smallest vertex, the other one the
    // vertex furthest from it.
    let ring = vec![[1000, 0], [1000, 1000], [0, 1000], [0, 0], [500, 0]];
    assert_eq!(extreme_vertex_index(&ring), 3);
    let simple = simplify(&ring, 1.0);
    assert_eq!(simple, vec![[0, 0], [1000, 0], [1000, 1000], [0, 1000]]);
    // Fewer than four vertices are left alone, in their order.
    let triangle = vec![[5, 5], [0, 0], [9, 1]];
    assert_eq!(simplify(&triangle, 1000.0), triangle);
}

#[test]
fn quantize_drops_repeats() {
    assert_eq!(
        quantize(&[[1, 1], [1, 1], [2, 2], [2, 2], [1, 1]]),
        vec![[1, 1], [2, 2]]
    );
    assert_eq!(quantize(&[[600000, -300000]]), vec![[X_MAX - 1, Y_MIN]]);
    assert_eq!(quantize(&[]), Vec::<Pt>::new());
}

// Is `b` a cyclic rotation of `a`?  Reconstruction preserves geometry but may
// start the ring at a different (junction) vertex.
fn is_rotation(a: &[Pt], b: &[Pt]) -> bool {
    let n = a.len();
    if b.len() != n {
        return false;
    }
    (0..n).any(|s| (0..n).all(|i| a[i] == b[(i + s) % n]))
}

#[test]
fn roundtrip_isolated_ring() {
    let ring = vec![[0, 0], [10, 0], [10, 10], [5, 15], [0, 10]];
    let (arcs, refs) = build(&[ring.clone()]);
    assert!(is_rotation(&ring, &reconstruct(&arcs, &refs[0])));
}

#[test]
fn shared_border_is_one_arc() {
    // Two squares sharing the vertical edge x=10 (vertices (10,0) and (10,10)).
    let a = vec![[0, 0], [10, 0], [10, 10], [0, 10]];
    let b = vec![[10, 0], [20, 0], [20, 10], [10, 10]];
    let (arcs, refs) = build(&[a.clone(), b.clone()]);
    assert!(is_rotation(&a, &reconstruct(&arcs, &refs[0])));
    assert!(is_rotation(&b, &reconstruct(&arcs, &refs[1])));
    // The shared border is stored once: some arc is referenced by both rings
    // (once forward, once reversed), so there are fewer arcs than arc-uses.
    let uses: usize = refs.iter().map(|r| r.len()).sum();
    assert!(arcs.len() < uses, "the shared border should be a single deduped arc");
    let shared = refs[0].iter().find(|r| refs[1].iter().any(|s| s.arc == r.arc)).unwrap();
    assert!(refs[1].iter().any(|s| s.arc == shared.arc && s.rev != shared.rev));
}

#[test]
fn single_junction_ring_survives() {
    // Two rings touching at exactly one shared vertex (10,0): that vertex is
    // the only junction of each ring.  Both must still reconstruct in full.
    let a = vec![[0, 0], [10, 0], [5, 8]];
    let b = vec![[10, 0], [20, 0], [15, 8]];
    let (arcs, refs) = build(&[a.clone(), b.clone()]);
    let ra = reconstruct(&arcs, &refs[0]);
    let rb = reconstruct(&arcs, &refs[1]);
    assert_eq!(ra.len(), a.len(), "single-junction ring A lost vertices");
    assert_eq!(rb.len(), b.len(), "single-junction ring B lost vertices");
    assert!(is_rotation(&a, &ra));
    assert!(is_rotation(&b, &rb));
}

#[test]
fn vw_keeps_endpoints_and_reduces() {
    let arc = vec![[0, 0], [10, 1], [20, 0], [30, 1], [40, 0]];
    let target = (arc.len() as f64 * 0.5).round() as usize;
    let s = vw_simplify(&arc, target);
    assert!(s.len() < arc.len());
    assert_eq!(s[0], arc[0]);
    assert_eq!(*s.last().unwrap(), *arc.last().unwrap());
}

#[test]
fn arcs_of_two_squares() {
    let a = vec![[0, 0], [10, 0], [10, 10], [0, 10]];
    let b = vec![[10, 0], [20, 0], [20, 10], [10, 10]];
    let (arcs, refs) = build(&[a, b]);
    assert_eq!(
        arcs,
        vec![
            vec![[10, 0], [10, 10]],
            vec![[10, 10], [0, 10], [0, 0], [10, 0]],
            vec![[10, 0], [20, 0], [20, 10], [10, 10]],
        ]
    );
    assert_eq!(refs[0], vec![ArcRef { arc: 0, rev: false }, ArcRef { arc: 1, rev: false }]);
    assert_eq!(refs[1], vec![ArcRef { arc: 2, rev: false }, ArcRef { arc: 0, rev: true }]);
}

#[test]
fn vw_drops_the_smallest_triangle() {
    let arc = vec![[0, 0], [10, 1], [20, 8], [30, 0]];
    assert_eq!(vw_simplify(&arc, 3), vec![[0, 0], [20, 8], [30, 0]]);
    assert_eq!(vw_simplify(&arc, 0), vec![[0, 0], [30, 0]]);
    assert_eq!(vw_simplify(&arc, 4), arc);
    // A closed arc keeps a valid ring.
    let ring = vec![[0, 0], [10, 0], [10, 10], [5, 11], [0, 10], [0, 0]];
    assert_eq!(
        vw_simplify(&ring, 2),
        vec![[0, 0], [10, 10], [0, 10], [0, 0]]
    );
}

#[test]
fn vw_table() {
    let short = vec![[0, 0], [10, 0]];
    let long = vec![[0, 0], [10, 1], [20, 8], [30, 0]];
    // Arcs that the table does not reach are left alone.
    let arcs = vec![short.clone(), long.clone()];
    assert_eq!(vw_simplify_all(&arcs, &[]), arcs);
    assert_eq!(
        vw_simplify_all(&arcs, &[0, 1, 2, 2, 3]),
        vec![short, vec![[0, 0], [20, 8], [30, 0]]]
    );
}

#[test]
fn edges_are_stored_once() {
    let a: Vec<Pt> = vec![[0, 0], [5, 1], [10, 0], [10, 10], [0, 10]];
    let b: Vec<Pt> = vec![[10, 0], [20, 0], [20, 10], [10, 10]];
    let c: Vec<Pt> = vec![[0, 0], [0, -9], [10, -9], [10, 0], [5, 1]];
    let (arcs, _) = build(&[a, b, c]);
    let mut edges: Vec<(Pt, Pt)> = Vec::new();
    for arc in &arcs {
        for e in arc.windows(2) {
            edges.push(if e[0] <= e[1] { (e[0], e[1]) } else { (e[1], e[0]) });
        }
    }
    let total = edges.len();
    edges.sort();
    edges.dedup();
    assert_eq!(edges.len(), total);
    // Rings without junctions are arcs of their own if they start elsewhere.
    let ring: Vec<Pt> = vec![[0, 0], [9, 0], [0, 9]];
    let turned: Vec<Pt> = vec![[9, 0], [0, 9], [0, 0]];
    assert_eq!(build(&[ring.clone(), ring.clone()]).0.len(), 1);
    assert_eq!(build(&[ring, turned]).0.len(), 2);
}

#[test]
fn vw_result_is_a_subsequence() {
    let arc: Vec<Pt> = vec![[0, 0], [1, 5], [2, 1], [3, 9], [4, 0], [5, 5]];
    for target in 2..6 {
        let kept = vw_simplify(&arc, target);
        assert_eq!(kept.len(), target);
        let mut rest = arc.iter();
        assert!(kept.iter().all(|p| rest.any(|q| q == p)));
    }
}

#[test]
fn rdp_outcome_ignores_the_start() {
    let ring: Vec<Pt> = vec![[0, 0], [100, 5], [200, 0], [200, 200], [100, 195], [0, 200]];
    let finish = |ring: &[Pt]| {
        let mut task = simplify_rdp(ring);
        while let Some((s, e)) = task.next_chain() {
            // Keep every other vertex of a chain.
            task.decide(if e - s > 2 { Some(s + 2) } else { None });
        }
        task.finish()
    };
    let whole = finish(&ring);
    for k in 1..ring.len() {
        let mut turned = ring[k..].to_vec();
        turned.extend_from_slice(&ring[..k]);
        assert_eq!(finish(&turned), whole);
    }
}
