//! From zones to a tree that answers lookups.
use tzconvert::artifact::{can_measure, classify, Output, Rel};
use tzconvert::geom::{ring_area2, Pt};
use tzconvert::heap::{Entry, MaxHeap};
use tzconvert::pipeline::BuildError;
use tzconvert::polycodec::decode_polygon;
use tzconvert::quant::ROOT_CELL;

fn square(x: i64, y: i64, side: i64) -> Vec<Pt> {
    vec![[x, y], [x + side, y], [x + side, y + side], [x, y + side]]
}

// Two neighbours that share a border, a third one with a hole, and one inside
// the hole.
fn sample() -> Output {
    let mut out = Output::new();
    out.append_zone(square(0, 0, 1000), vec![], "Etc/A");
    out.append_zone(square(1000, 0, 1000), vec![], "Etc/B");
    out.append_zone(square(-5000, -5000, 4000), vec![square(-4000, -4000, 1000)], "Etc/C");
    out.append_zone(square(-4000, -4000, 1000), vec![], "Etc/A");
    out
}

#[test]
fn zones_are_filed_by_name() {
    let mut out = sample();
    assert_eq!(out.zones.len(), 4);
    assert_eq!(out.tz.len(), 3);
    assert_eq!(out.tz[0].n, "Etc/A");
    assert_eq!(out.tz[0].refs, vec![0, 3]);
    assert_eq!(out.zones[2].tzid, 2);
    assert_eq!(out.zones[0].a, 2_000_000);
    assert_eq!(out.zones[0].aabb, [[0, 0], [1000, 1000]]);
    // A ring of fewer than three vertices is not added.
    assert_eq!(out.append_zone(vec![[0, 0], [1, 1]], vec![], "Etc/D"), None);
    assert_eq!(out.tz.len(), 3);
}

#[test]
fn zones_are_classified_with_their_holes() {
    let out = sample();
    let zone = &out.zones[2];
    assert_eq!(classify(&[[-4900, -4900], [-4800, -4800]], zone), Rel::Definite);
    assert_eq!(classify(&[[-3900, -3900], [-3800, -3800]], zone), Rel::Disjoint);
    assert_eq!(classify(&[[-4100, -4100], [-3800, -3800]], zone), Rel::Candidate);
    assert_eq!(classify(&[[100, 100], [200, 200]], zone), Rel::Disjoint);
}

#[test]
fn topology_without_a_table_is_lossless() {
    let mut out = sample();
    let (arcs, verts) = out.build_topology(&[]);
    assert_eq!(arcs, out.arcs.len());
    assert_eq!(verts, out.arcs.iter().map(|a| a.len()).sum::<usize>());
    // Four rings with a shared border and a shared hole: six arcs of rings, of
    // which the border and the hole are stored once.
    assert_eq!(arcs, 5);
    assert_eq!(out.zones[2].holes.len(), 1);
    assert_eq!(out.zones[2].a, 2 * 4000 * 4000);
    for z in &out.zones {
        assert_eq!(z.outer.len(), 4);
    }
}

#[test]
fn topology_restores_collapsed_rings_and_drops_collapsed_holes() {
    // The outer ring is cut into two open arcs at the points where it touches
    // its neighbours; a table that keeps two vertices of every arc would leave
    // two vertices, so the arcs are restored.
    let mut out = Output::new();
    out.append_zone(square(0, 0, 1000), vec![], "Etc/A");
    out.append_zone(square(1000, 0, 1000), vec![], "Etc/B");
    let (_, verts) = out.build_topology(&[2, 2, 2, 2, 2, 2]);
    assert_eq!(verts, 2 + 4 + 4);
    assert_eq!(out.zones[0].outer.len(), 4);
    assert_eq!(out.zones[1].outer.len(), 4);
}

#[test]
fn tree_answers_as_brute_force() {
    let mut out = sample();
    out.build_topology(&[]);
    let sub = out.subdivide(12, None);
    assert!(sub.splits > 0);
    let stats = out.tree_stats(Some(12));
    assert_eq!(stats.nodes, 1 + 4 * sub.splits);
    assert_eq!(stats.leaves, 1 + 3 * sub.splits);
    assert_eq!(stats.nodes, out.arena.len());
    out.annotate();
    let tz = |out: &Output, p: Pt| out.resolve(p).map(|z| out.tz[out.zones[z].tzid].n.clone());
    assert_eq!(tz(&out, [500, 500]), Some("Etc/A".to_string()));
    assert_eq!(tz(&out, [1500, 500]), Some("Etc/B".to_string()));
    assert_eq!(tz(&out, [-4500, -4500]), Some("Etc/C".to_string()));
    assert_eq!(tz(&out, [-3500, -3500]), Some("Etc/A".to_string()));
    assert_eq!(tz(&out, [100000, 100000]), None);
    for p in [[500, 500], [1500, 10], [-4500, -1500], [-3500, -3001], [0, 0], [-1, -1]] {
        assert_eq!(out.resolve(p), out.brute(p));
    }
    assert_eq!(out.verify(2000), 0);
}

#[test]
fn budget_takes_precedence() {
    let mut out = sample();
    out.build_topology(&[]);
    let sub = out.subdivide(0, Some(3));
    assert_eq!(sub.splits, 3);
    assert_eq!(out.arena.len(), 13);
    let mut flat = sample();
    flat.build_topology(&[]);
    let none = flat.subdivide(1_000_000, None);
    assert_eq!((none.splits, none.at_max_depth, none.over_limit), (0, 0, 0));
}

#[test]
fn root_leaf_statistics() {
    let mut out = Output::new();
    out.append_zone(square(0, 0, 1000), vec![], "Etc/A");
    out.build_topology(&[]);
    let stats = out.tree_stats(None);
    assert_eq!(stats.nodes, 1);
    assert_eq!(stats.refs, 1);
    assert_eq!(stats.erefs, 0);
    assert_eq!(stats.max_leaf_refs, 1);
    // Depth zero, four edges at two operations each.
    assert_eq!(stats.max_leaf_cost, 8);
    assert_eq!(stats.leaves_over_limit, None);
}

#[test]
fn annotation_lists_the_edges_in_the_cell() {
    let mut out = Output::new();
    out.append_zone(square(0, 0, 1000), vec![], "Etc/A");
    out.build_topology(&[]);
    out.annotate();
    let cand = &out.arena[0].cands[0];
    assert_eq!(cand.z, 0);
    assert_eq!(cand.w, 1);
    assert_eq!(cand.e.len(), 1);
    assert_eq!(cand.e[0].a, 0);
    assert_eq!(cand.e[0].runs, vec![(0, 3)]);
    assert!(out.arena[0].refz.is_empty());
}

#[test]
fn packed_arcs_unpack() {
    let mut out = sample();
    out.build_topology(&[]);
    out.pack();
    assert_eq!(out.arc_packed.len(), out.arcs.len());
    for (arc, (origin, bytes)) in out.arcs.iter().zip(&out.arc_packed) {
        assert_eq!(&decode_polygon(*origin, bytes), arc);
    }
}

#[test]
fn heap_pops_the_costliest() {
    let mut heap = MaxHeap::new();
    for (idx, cost) in [3, 9, 9, 1, 7].iter().enumerate() {
        heap.push(Entry { cost: *cost, idx, cell: ROOT_CELL, depth: 0 });
    }
    assert_eq!(heap.peek().map(|e| e.cost), Some(9));
    let mut costs = vec![];
    let mut order = vec![];
    while let Some(e) = heap.pop() {
        costs.push(e.cost);
        order.push(e.idx);
    }
    assert_eq!(costs, vec![9, 9, 7, 3, 1]);
    assert_eq!(order[0], 1);
}

#[test]
fn equal_areas_keep_the_first() {
    let mut out = Output::new();
    out.append_zone(square(0, 0, 1000), vec![], "Etc/A");
    out.append_zone(square(500, 0, 1000), vec![], "Etc/B");
    assert_eq!(out.brute([700, 500]), Some(0));
    assert_eq!(out.brute([1200, 500]), Some(1));
    assert_eq!(out.brute([2000, 500]), None);
}

#[test]
fn polygons_drop_degenerate_rings() {
    let mut out = Output::new();
    let done = out.insert_polygon(
        square(0, 0, 1000),
        vec![vec![[5, 5], [6, 6]], square(100, 100, 10), vec![], square(200, 200, 10)],
        "Etc/A",
    );
    assert_eq!(done.zone, Some(0));
    assert_eq!(done.holes, 2);
    assert!(!done.wrapped);
    assert_eq!(out.zones[0].holes, vec![square(100, 100, 10), square(200, 200, 10)]);
    let none = out.insert_polygon(vec![[0, 0], [1, 1]], vec![], "Etc/B");
    assert_eq!(none.zone, None);
    assert_eq!(out.zones.len(), 1);
}

#[test]
fn wide_polygons_are_reported() {
    let mut out = Output::new();
    let half: i64 = 524288;
    let exact = vec![[-262144, 0], [half - 262144, 0], [0, 9]];
    assert!(!out.insert_polygon(exact, vec![], "Etc/A").wrapped);
    let wide = vec![[-262144, 0], [half - 262143, 0], [0, 9]];
    assert!(out.insert_polygon(wide, vec![], "Etc/A").wrapped);
    assert_eq!(out.zones.len(), 2);
}

#[test]
fn long_polygons_are_taken() {
    let mut out = Output::new();
    let ring: Vec<Pt> = vec![[7, 7]; 0x200_0000];
    assert!(can_measure(&ring));
    let done = out.insert_polygon(ring, vec![], "Etc/A");
    assert_eq!(done.zone, Some(0));
    assert_eq!(out.zones[0].a, 0);
    assert_eq!(out.zones[0].outer.len(), 0x200_0000);
}

#[test]
fn areas_that_do_not_fit_are_recognized() {
    assert!(can_measure(&square(0, 0, 1000)));
    assert!(can_measure(&[]));
    // One edge alone is too much.
    assert!(!can_measure(&[[i64::MAX, 0], [0, 2], [1, 1]]));
    // Each edge fits, and so does no more than one of them together.
    let side: i64 = 3_037_000_499;
    assert!(!can_measure(&[[side, -side], [side, side], [-side, side], [-side, -side]]));
    // The sum goes out of range on the way and comes back.
    let s: i64 = 1_500_000_000;
    let there: Vec<Pt> = vec![[s, -s], [s, s], [-s, s], [-s, -s]];
    let mut both = there.clone();
    both.extend(there.iter().rev().map(|&p| p));
    assert!(can_measure(&both));
    assert_eq!(ring_area2(&both), 0);
}

#[test]
fn build_goes_from_polygons_to_a_packed_tree() {
    let mut out = sample();
    let report = match out.build_tree(&[], 12, None, 500) {
        Ok(report) => report,
        Err(e) => panic!("{}", e.text(500)),
    };
    assert_eq!(report.arcs, out.arcs.len());
    assert_eq!(report.vertices, out.arcs.iter().map(|a| a.len()).sum::<usize>());
    assert!(report.sub.splits > 0);
    assert_eq!(report.stats.nodes, out.arena.len());
    assert_eq!(out.arc_packed.len(), out.arcs.len());
    assert!(out.arena.iter().all(|n| n.refz.is_empty()));
    assert_eq!(out.resolve([1500, 500]), Some(1));
}

#[test]
fn rings_are_counted() {
    assert!(Output::new().can_count_rings());
    assert!(sample().can_count_rings());
}

#[test]
fn build_errors_have_texts() {
    let mut out = sample();
    assert!(out.build_tree(&[], 500, None, 0).is_ok());
    assert_eq!(
        BuildError::Disagreements(3).text(10),
        "3/10 lookups disagreed with brute force"
    );
    assert_eq!(BuildError::Rings.text(10), "the rings cannot be counted");
    assert_eq!(BuildError::Areas.text(10), "the area of a ring is too large");
    assert_eq!(BuildError::Ids.text(10), "the zone references cannot be counted");
}

#[test]
fn build_reports_disagreements() {
    // A hole that reaches beyond its exterior ring swallows the whole zone, which
    // the cells within the hole no longer see.
    let mut out = Output::new();
    out.append_zone(
        square(-100000, -100000, 200000),
        vec![square(-250000, -250000, 500000)],
        "Etc/A",
    );
    match out.build_tree(&[], 0, Some(100), 3000) {
        Err(BuildError::Disagreements(n)) => assert!(n > 0),
        Err(e) => panic!("{}", e.text(3000)),
        Ok(_) => panic!("lookups agree"),
    }
}

#[test]
fn area_fits_up_to_a_length() {
    let round: Vec<Pt> =
        vec![[-524288, -262144], [524288, -262144], [524288, 262144], [-524288, 262144]];
    assert_eq!(ring_area2(&round), 4 * 274877906944);
    let mut many: Vec<Pt> = Vec::with_capacity(0x200_0000);
    for _ in 0..1 << 23 {
        many.extend_from_slice(&round);
    }
    assert!(!can_measure(&many));
    many.truncate(0x1FF_FFFC);
    assert!(can_measure(&many));
    let mut out = sample();
    let (arcs, vertices) = out.try_build_topology(&[]).unwrap();
    assert_eq!(arcs, out.arcs.len());
    assert_eq!(vertices, out.arcs.iter().map(|a| a.len()).sum::<usize>());
}
