//! Hull construction tests: the six-point square with interior points,
//! and 2048 points of a seeded uniform generator, each run through the
//! hull algorithms with and without the Akl-Toussaint pre-filter.

use convex_hulls::{akl, area, jarvis, quickhull, Point};
use rand::{Rng, SeedableRng};
use rand_pcg::Pcg64;

/// One grid unit per half: the square test data lives on a half-unit
/// grid, so coordinates are doubled onto the integer grid.
fn square_points() -> Vec<Point> {
    vec![
        Point { x: 0, y: 0 },
        Point { x: 2, y: 0 },
        Point { x: 0, y: 2 },
        Point { x: 2, y: 2 },
        Point { x: 1, y: 2 },
        Point { x: 1, y: 1 },
    ]
}

/// Uniform samples in the unit square from a fixed seed, mapped exactly
/// onto the integer grid: each sample is k / 2^52 for some integer k,
/// so multiplying by 2^52 loses nothing.
fn test_vector_2d(n: usize) -> Vec<Point> {
    let seed = 42;
    let rng: Pcg64 = SeedableRng::seed_from_u64(seed);
    let uniform = rand::distributions::Uniform::new(0.0, 1.0);
    let coords: Vec<f64> = rng.sample_iter(uniform).take(n * 2).collect();
    let scale = 4503599627370496.0; // 2^52
    coords
        .chunks(2)
        .map(|c| Point {
            x: (c[0] * scale) as i64,
            y: (c[1] * scale) as i64,
        })
        .collect()
}

/// Doubled area of the square hull: the square has area 1.0 in the
/// half-unit data, so 4 on the doubled grid, so 8 doubled.
const SQUARE_AREA2: i128 = 8;

/// The hull of the 2048-sample set: vertex count, and its doubled area
/// on the 2^52 grid (the exact-arithmetic regression values for this
/// generator and seed; the area is 0.98871116... in unit terms).
const TEST_2048_POINTS: usize = 19;
const TEST_2048_AREA2: i128 = 40106889460064572797202075579700;

fn check_square(algo: fn(&Vec<Point>) -> Vec<Point>) {
    let v = square_points();
    let hull = algo(&v);
    assert_eq!(hull.len(), 4);
    assert_eq!(area(&hull), SQUARE_AREA2);
}

fn check_2048(algo: fn(&Vec<Point>) -> Vec<Point>) {
    let v = test_vector_2d(2048);
    let hull = algo(&v);
    assert_eq!(area(&hull), TEST_2048_AREA2);
    assert_eq!(hull.len(), TEST_2048_POINTS);
}

#[test]
fn jarvis_square() {
    check_square(jarvis);
}

#[test]
fn jarvis_2048() {
    check_2048(jarvis);
}

#[test]
fn jarvis_akl_square() {
    check_square(|v| jarvis(&akl(v)));
}

#[test]
fn jarvis_akl_2048() {
    check_2048(|v| jarvis(&akl(v)));
}

#[test]
fn quickhull_square() {
    check_square(quickhull);
}

#[test]
fn quickhull_2048() {
    check_2048(quickhull);
}

#[test]
fn quickhull_akl_square() {
    check_square(|v| quickhull(&akl(v)));
}

#[test]
fn quickhull_akl_2048() {
    check_2048(|v| quickhull(&akl(v)));
}
