//! Boxes, winding, cells and localized crossings.
use tzconvert::geom::{
    aabb_intersects_poly, aabbs_overlap, edge_touches_aabb, is_left, point_in_aabb, poly_aabb,
    poly_contains_point, poly_winding, ring_area2, rings_contain_point, Aabb, AabbPoly, Pt,
};
use tzconvert::lookup::{cell_center, quadrant_for_point, segment_crossings, split_cell};
use tzconvert::quant::{MAX_DEPTH, ROOT_CELL};

#[test]
fn winding_independent_classification() {
    let cell: Aabb = [[100, 100], [1000, 1000]];
    let contains = [[10, 10], [1100, 10], [1100, 1100], [10, 1100]];
    let crosses = [[10, 10], [110, 10], [110, 110], [10, 110]];
    let disjoint = [[-1, -1], [-10, 1], [-10, -10], [-1, -10]];
    for poly in [&contains[..], &crosses[..], &disjoint[..]] {
        let rev: Vec<Pt> = poly.iter().rev().cloned().collect();
        assert_eq!(aabb_intersects_poly(&cell, poly), aabb_intersects_poly(&cell, &rev));
    }
    assert_eq!(aabb_intersects_poly(&cell, &contains), AabbPoly::Contains);
    assert_eq!(aabb_intersects_poly(&cell, &crosses), AabbPoly::Crosses);
    assert_eq!(aabb_intersects_poly(&cell, &disjoint), AabbPoly::Disjoint);
}

#[test]
fn winding_and_area() {
    let sq = [[0, 0], [10, 0], [10, 10], [0, 10]];
    assert_eq!(poly_winding(&sq, [5, 5]), 1);
    let rev: Vec<Pt> = sq.iter().rev().cloned().collect();
    assert_eq!(poly_winding(&rev, [5, 5]), -1);
    assert_eq!(poly_winding(&sq, [15, 5]), 0);
    assert_eq!(ring_area2(&sq), 200);
    assert_eq!(ring_area2(&rev), -200);
}

#[test]
fn holes() {
    let outer = vec![[0, 0], [100, 0], [100, 100], [0, 100]];
    let hole = vec![[40, 40], [60, 40], [60, 60], [40, 60]];
    assert!(!rings_contain_point(&outer, &[hole.clone()], [50, 50]));
    assert!(rings_contain_point(&outer, &[hole], [10, 10]));
}

#[test]
fn midpoints_exact_to_max_depth() {
    // >>1 == floor((lo+hi)/2) at every level, because sums stay even.
    let mut cell = ROOT_CELL;
    for _ in 0..=MAX_DEPTH {
        for axis in 0..2 {
            let sum = cell[0][axis] + cell[1][axis];
            assert_eq!(sum % 2, 0);
            assert_eq!(sum >> 1, (sum as f64 / 2.0).floor() as i64);
        }
        cell = split_cell(&cell, 0);
    }
}

#[test]
fn point_stays_in_chosen_cell() {
    let mut cell = ROOT_CELL;
    let p = [12345, -6789];
    for _ in 0..MAX_DEPTH {
        let q = quadrant_for_point(&cell, p);
        cell = split_cell(&cell, q);
        assert!(p[0] >= cell[0][0] && p[0] < cell[1][0]);
        assert!(p[1] >= cell[0][1] && p[1] < cell[1][1]);
    }
}

#[test]
fn boxes() {
    let a: Aabb = [[0, 0], [10, 10]];
    assert!(aabbs_overlap(&a, &[[10, 10], [20, 20]]));
    assert!(!aabbs_overlap(&a, &[[11, 0], [20, 10]]));
    assert!(point_in_aabb([10, 0], &a));
    assert!(!point_in_aabb([10, -1], &a));
    assert_eq!(poly_aabb(&[[3, -4], [-7, 9], [5, 5]]), [[-7, -4], [5, 9]]);
    assert_eq!(poly_aabb(&[]), [[i64::MAX, i64::MAX], [i64::MIN, i64::MIN]]);
}

#[test]
fn edges_in_boxes() {
    let a: Aabb = [[0, 0], [10, 10]];
    // Through the box, past a corner, and along a side.
    assert!(edge_touches_aabb(&a, [-5, 5], [15, 5]));
    assert!(!edge_touches_aabb(&a, [-5, 8], [2, 15]));
    assert!(edge_touches_aabb(&a, [-5, 10], [15, 10]));
    assert!(!edge_touches_aabb(&a, [-5, 11], [15, 11]));
}

#[test]
fn left_and_containment() {
    assert_eq!(is_left([0, 0], [10, 0], [5, 5]), 50);
    assert_eq!(is_left([0, 0], [10, 0], [5, -5]), -50);
    let sq = [[0, 0], [10, 0], [10, 10], [0, 10]];
    assert!(poly_contains_point(&sq, [1, 1]));
    assert!(!poly_contains_point(&sq, [11, 1]));
}

#[test]
fn quadrants_and_centers() {
    assert_eq!(cell_center(&ROOT_CELL), [0, 0]);
    assert_eq!(quadrant_for_point(&ROOT_CELL, [0, 0]), 0);
    assert_eq!(quadrant_for_point(&ROOT_CELL, [-1, 0]), 1);
    assert_eq!(quadrant_for_point(&ROOT_CELL, [-1, -1]), 2);
    assert_eq!(quadrant_for_point(&ROOT_CELL, [0, -1]), 3);
    assert_eq!(split_cell(&ROOT_CELL, 0), [[0, 0], [524288, 262144]]);
    assert_eq!(split_cell(&ROOT_CELL, 2), [[-524288, -262144], [0, 0]]);
}

#[test]
fn crossings_follow_the_segment() {
    let sq = [[0, 0], [10, 0], [10, 10], [0, 10]];
    // From outside to inside across the left edge: into a counterclockwise ring.
    assert_eq!(segment_crossings([-5, 4], [5, 5], &sq, &[(0, 3)]), Some(1));
    assert_eq!(segment_crossings([5, 5], [-5, 4], &sq, &[(0, 3)]), Some(-1));
    // Only the listed edges count.
    assert_eq!(segment_crossings([-5, 4], [5, 5], &sq, &[(0, 2)]), Some(0));
    // An end point on an edge's line leaves it undecided.
    assert_eq!(segment_crossings([-5, 0], [5, 5], &sq, &[(0, 0)]), None);
}

#[test]
fn area_ignores_start_and_place() {
    let ring: Vec<Pt> = vec![[0, 0], [10, 1], [7, 9], [-3, 4]];
    assert_eq!(ring_area2(&ring), 138);
    for k in 0..ring.len() {
        let mut turned = ring[k..].to_vec();
        turned.extend_from_slice(&ring[..k]);
        assert_eq!(ring_area2(&turned), 138);
    }
    let moved: Vec<Pt> = ring.iter().map(|p| [p[0] - 500, p[1] + 77]).collect();
    assert_eq!(ring_area2(&moved), 138);
}
