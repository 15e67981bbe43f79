//! Cross-algorithm and primitive-level tests: all four hull algorithms
//! agree on area and vertex count, produced hulls are convex and contain
//! the input, the pre-filter never changes the hull, degenerate inputs
//! pass through, and the primitives return their exact values.

use convex_hulls::{
    akl, andrew, area, chan, cross2d, dist2, jarvis, point_in_octagon, quickhull, side, tangent,
    Point, SVG,
};
use rand::{Rng, SeedableRng};
use rand_pcg::Pcg64;

fn pt(x: i64, y: i64) -> Point {
    Point { x, y }
}

fn square_points() -> Vec<Point> {
    vec![pt(0, 0), pt(2, 0), pt(0, 2), pt(2, 2), pt(1, 2), pt(1, 1)]
}

/// Eight points in strictly convex position (a slanted octagon) with no
/// interior point; their directional extremes are pairwise distinct.
fn octagon_points() -> Vec<Point> {
    vec![
        pt(0, 0),
        pt(4, 0),
        pt(4, 4),
        pt(0, 4),
        pt(2, -1),
        pt(5, 2),
        pt(2, 5),
        pt(-1, 2),
    ]
}

fn test_vector_2d(n: usize) -> Vec<Point> {
    let seed = 42;
    let rng: Pcg64 = SeedableRng::seed_from_u64(seed);
    let uniform = rand::distributions::Uniform::new(0.0, 1.0);
    let coords: Vec<f64> = rng.sample_iter(uniform).take(n * 2).collect();
    let scale = 4503599627370496.0; // 2^52
    coords
        .chunks(2)
        .map(|c| pt((c[0] * scale) as i64, (c[1] * scale) as i64))
        .collect()
}

/// Every cyclic vertex triple turns left; strictly when `strict`.
fn assert_convex(hull: &Vec<Point>, strict: bool) {
    let h = hull.len();
    assert!(h >= 3);
    for i in 0..h {
        let o = cross2d(hull[i], hull[(i + 1) % h], hull[(i + 2) % h]);
        if strict {
            assert!(o > 0, "triple {} not a strict left turn: {}", i, o);
        } else {
            assert!(o >= 0, "triple {} a right turn: {}", i, o);
        }
    }
}

/// No input point lies strictly outside any hull edge.
fn assert_contains(hull: &Vec<Point>, points: &Vec<Point>) {
    let h = hull.len();
    for p in points.iter() {
        for i in 0..h {
            let a = hull[i];
            let b = hull[(i + 1) % h];
            assert!(cross2d(a, b, *p) >= 0, "point {:?} outside edge {}", p, i);
        }
    }
}

#[test]
fn test_hull() {
    let p = square_points();

    let expected_area2 = 8; // 1.0 on the half-unit grid, doubled
    let hull_andrew = andrew(&p);
    let hull_qh = quickhull(&p);
    let hull_jarvis = jarvis(&p);
    let hull_chan = chan(&p);

    assert_eq!(hull_andrew.len(), 4);
    assert_eq!(hull_qh.len(), 4);
    assert_eq!(hull_jarvis.len(), 4);
    assert_eq!(hull_chan.len(), 4);
    assert_eq!(area(&hull_andrew), expected_area2);
    assert_eq!(area(&hull_qh), expected_area2);
    assert_eq!(area(&hull_jarvis), expected_area2);
    assert_eq!(area(&hull_chan), expected_area2);
}

#[test]
fn convexity_of_all_algorithms() {
    let v = test_vector_2d(512);
    assert_convex(&andrew(&v), true);
    assert_convex(&quickhull(&v), true);
    assert_convex(&chan(&v), true);
    assert_convex(&jarvis(&v), false);
}

#[test]
fn containment_of_all_algorithms() {
    let v = test_vector_2d(512);
    assert_contains(&andrew(&v), &v);
    assert_contains(&quickhull(&v), &v);
    assert_contains(&chan(&v), &v);
    assert_contains(&jarvis(&v), &v);
}

#[test]
fn cross_algorithm_agreement() {
    for v in [square_points(), octagon_points(), test_vector_2d(512)] {
        let a = area(&andrew(&v));
        assert!(a > 0);
        assert_eq!(area(&quickhull(&v)), a);
        assert_eq!(area(&jarvis(&v)), a);
        assert_eq!(area(&chan(&v)), a);
    }
}

#[test]
fn filter_idempotence() {
    for v in [square_points(), octagon_points(), test_vector_2d(512)] {
        let f = akl(&v);
        assert_eq!(andrew(&v), andrew(&f));
        assert_eq!(quickhull(&v), quickhull(&f));
        assert_eq!(jarvis(&v), jarvis(&f));
        assert_eq!(chan(&v), chan(&f));
    }
}

#[test]
fn degenerate_inputs_pass_through() {
    let sets = [vec![], vec![pt(3, 4)], vec![pt(3, 4), pt(-1, 2)]];
    for v in sets {
        assert_eq!(andrew(&v), v);
        assert_eq!(quickhull(&v), v);
        assert_eq!(jarvis(&v), v);
        assert_eq!(chan(&v), v);
    }
    // fewer than two points also pass the filter untouched
    let empty: Vec<Point> = vec![];
    assert_eq!(akl(&empty), empty);
    assert_eq!(akl(&vec![pt(3, 4)]), vec![pt(3, 4)]);
}

#[test]
fn few_distinct_points_pass_through() {
    // three or more points but fewer than three distinct values: no
    // hull is computable, the input comes back unchanged
    let all_same = vec![pt(5, 5), pt(5, 5), pt(5, 5), pt(5, 5)];
    let two_values = vec![pt(0, 0), pt(3, 1), pt(0, 0), pt(3, 1), pt(0, 0)];
    for v in [all_same, two_values] {
        assert_eq!(andrew(&v), v);
        assert_eq!(quickhull(&v), v);
        assert_eq!(jarvis(&v), v);
        assert_eq!(chan(&v), v);
    }
}

#[test]
fn convex_polygon_kept_whole() {
    let v = octagon_points();
    for hull in [andrew(&v), quickhull(&v), jarvis(&v), chan(&v)] {
        assert_eq!(hull.len(), 8);
        for p in v.iter() {
            assert!(hull.contains(p), "vertex {:?} discarded", p);
        }
    }
    // the filter discards nothing either
    assert_eq!(akl(&v).len(), 8);
}

#[test]
fn collinear_edge_points_removed() {
    // a square with edge midpoints and its center
    let v = vec![
        pt(0, 0),
        pt(4, 0),
        pt(4, 4),
        pt(0, 4),
        pt(2, 0),
        pt(4, 2),
        pt(2, 4),
        pt(0, 2),
        pt(2, 2),
    ];
    for hull in [andrew(&v), quickhull(&v), jarvis(&v), chan(&v)] {
        assert_eq!(hull.len(), 4, "midpoint kept in {:?}", hull);
        assert_eq!(area(&hull), 32);
    }
}

#[test]
fn primitives_exact_values() {
    // cross2d: signed doubled triangle area, sign by turn direction
    assert_eq!(cross2d(pt(0, 0), pt(4, 0), pt(0, 3)), 12);
    assert_eq!(cross2d(pt(0, 0), pt(0, 3), pt(4, 0)), -12);
    assert_eq!(cross2d(pt(0, 0), pt(2, 2), pt(4, 4)), 0);
    // dist2: squared euclidean distance
    assert_eq!(dist2(pt(1, 2), pt(4, 6)), 25);
    assert_eq!(dist2(pt(-3, -4), pt(0, 0)), 25);
    // side: linear functional of the octagon filter
    assert_eq!(side(pt(0, 0), pt(0, 4), pt(2, 2)), 8);
    assert_eq!(side(pt(0, 0), pt(0, 4), pt(-2, 2)), -8);
    // area: doubled shoelace, positive counter-clockwise
    assert_eq!(area(&vec![pt(0, 0), pt(4, 0), pt(0, 3)]), 12);
    assert_eq!(area(&vec![pt(0, 0), pt(0, 3), pt(4, 0)]), -12);
    assert_eq!(area(&vec![]), 0);
    assert_eq!(area(&vec![pt(7, 9)]), 0);
}

#[test]
fn octagon_membership() {
    // the eight directional extremes of `octagon_points`, in filter order
    let oct = [
        pt(-1, 2), // min x
        pt(0, 4),  // min x-y
        pt(2, 5),  // max y
        pt(4, 4),  // max x+y
        pt(5, 2),  // max x
        pt(4, 0),  // max x-y
        pt(2, -1), // min y
        pt(0, 0),  // min x+y
    ];
    assert!(point_in_octagon(oct, pt(2, 2)));
    // a vertex is on the boundary, not strictly inside
    assert!(!point_in_octagon(oct, pt(-1, 2)));
    // far outside
    assert!(!point_in_octagon(oct, pt(9, 9)));
}

#[test]
fn filter_drops_interior_point_only() {
    let mut v = octagon_points();
    v.push(pt(2, 2));
    let kept = akl(&v);
    assert_eq!(kept, octagon_points());
}

#[test]
fn tangent_of_square() {
    // cyclic vertex list of the unit-doubled square, first vertex repeated
    let mut poly = vec![pt(0, 0), pt(2, 0), pt(2, 2), pt(0, 2), pt(0, 0)];
    let t = tangent(pt(-1, -1), &mut poly);
    assert_eq!(t, pt(2, 0));
    assert_eq!(poly, vec![pt(0, 0), pt(2, 0), pt(2, 2), pt(0, 2), pt(0, 0)]);
}

#[test]
fn tangent_rotates_when_self_is_first() {
    let mut poly = vec![pt(0, 0), pt(2, 0), pt(2, 2), pt(0, 2), pt(0, 0)];
    let t = tangent(pt(0, 0), &mut poly);
    assert_eq!(t, pt(2, 0));
    // the repair rotated the list by one, keeping it cyclic
    assert_eq!(poly, vec![pt(2, 0), pt(2, 2), pt(0, 2), pt(0, 0), pt(2, 0)]);
}

#[test]
fn tangent_of_single_edge() {
    let mut poly = vec![pt(3, 3), pt(5, 1)];
    assert_eq!(tangent(pt(0, 0), &mut poly), pt(3, 3));
}

#[test]
fn svg_document_starts_with_prologue() {
    let s = SVG::new();
    assert!(s.buffer.starts_with("<?xml version='1.0'"));
    assert!(s.buffer.ends_with("fill='white' />\n"));
    let d = SVG::default();
    assert_eq!(d.buffer, s.buffer);
}
