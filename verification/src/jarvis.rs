//! The Jarvis march (gift wrapping): start from the point with minimal x,
//! repeatedly scan the whole set for the most counter-clockwise candidate
//! relative to the current hull point, preferring the farthest point among
//! exactly collinear candidates, until the wrap returns to the start. The
//! scan is pinned exactly by `scan`, and the output is characterized as
//! the chain it generates from the starting point.

use vstd::prelude::*;

use crate::primitives::copy_points;
use crate::primitives::cross;
use crate::primitives::cross2d;
use crate::primitives::dist2;
use crate::primitives::has_three_distinct;
use crate::primitives::in_range;
use crate::primitives::in_range_seq;
use crate::primitives::sq_dist;
use crate::primitives::three_distinct;
use crate::primitives::Point;

verus! {

/// Index of the champion for minimal x among the first `n` points of `s`:
/// the comparison is strict, so the first point attaining the minimum
/// keeps it.
pub open spec fn min_x_upto(s: Seq<Point>, n: int) -> int
    recommends
        1 <= n <= s.len(),
    decreases n,
{
    if n <= 1 {
        0
    } else {
        let m = min_x_upto(s, n - 1);
        if s[n - 1].x < s[m].x {
            n - 1
        } else {
            m
        }
    }
}

/// The first point of `s` with minimal x.
pub open spec fn min_x_point(s: Seq<Point>) -> Point {
    s[min_x_upto(s, s.len() as int)]
}

/// The champion index is a valid index and its x is minimal among the
/// first `n` points.
pub proof fn lemma_min_x_upto(s: Seq<Point>, n: int)
    requires
        1 <= n <= s.len(),
    ensures
        0 <= min_x_upto(s, n) < n,
        forall|k: int| 0 <= k < n ==> s[min_x_upto(s, n)].x <= (#[trigger] s[k]).x,
    decreases n,
{
    if n > 1 {
        lemma_min_x_upto(s, n - 1);
    }
}

/// The champion after scanning the first `n` points, starting from the
/// candidate `p0`, as seen from the hull point `a`: a strictly more
/// counter-clockwise point replaces the candidate, and an exactly
/// collinear one replaces it when farther from `a`.
pub open spec fn scan_upto(s: Seq<Point>, a: Point, p0: Point, n: int) -> Point
    decreases n,
{
    if n <= 0 {
        p0
    } else {
        let p = scan_upto(s, a, p0, n - 1);
        let cand = s[n - 1];
        if cross(a, cand, p) > 0 {
            cand
        } else if cross(a, cand, p) == 0 && sq_dist(a, p) < sq_dist(a, cand) {
            cand
        } else {
            p
        }
    }
}

/// The most counter-clockwise point of `s` as seen from `a`, scanning
/// from the candidate `p0`.
pub open spec fn scan(s: Seq<Point>, a: Point, p0: Point) -> Point {
    scan_upto(s, a, p0, s.len() as int)
}

/// Index of the first point of `s` differing from `m`; the length when
/// all points equal `m`.
pub open spec fn first_differing(s: Seq<Point>, m: Point) -> int
    decreases s.len(),
{
    if s.len() == 0 {
        0
    } else if s[0] != m {
        0
    } else {
        1 + first_differing(s.drop_first(), m)
    }
}

proof fn lemma_first_differing_at(s: Seq<Point>, m: Point, j: int)
    requires
        0 <= j < s.len(),
        s[j] != m,
        forall|k: int| 0 <= k < j ==> s[k] == m,
    ensures
        first_differing(s, m) == j,
    decreases j,
{
    if j > 0 {
        let d = s.drop_first();
        assert(forall|k: int| 0 <= k < j - 1 ==> d[k] == m);
        lemma_first_differing_at(d, m, j - 1);
    }
}

/// Scan champion for minimal x, mirroring `min_x_upto`.
pub(crate) fn find_min_x(pointset: &Vec<Point>) -> (r: Point)
    requires
        pointset@.len() >= 1,
    ensures
        r == min_x_point(pointset@),
        pointset@.contains(r),
        forall|k: int| 0 <= k < pointset@.len() ==> r.x <= (#[trigger] pointset@[k]).x,
{
    let n = pointset.len();
    let mut min = pointset[0];
    let mut i: usize = 1;
    while i < n
        invariant
            1 <= i <= n,
            n == pointset@.len(),
            min == pointset@[min_x_upto(pointset@, i as int)],
        decreases n - i,
    {
        proof {
            lemma_min_x_upto(pointset@, i as int);
        }
        if pointset[i].x < min.x {
            min = pointset[i];
        }
        i = i + 1;
    }
    proof {
        lemma_min_x_upto(pointset@, n as int);
    }
    min
}

/// Convex hull by gift wrapping, counter-clockwise from the first point
/// with minimal x. The output is exactly the chain the `scan` champion
/// generates from that point until the wrap closes (or, on a set whose
/// scans never return to the start, which no consistent geometry
/// produces, until one step per input point has been taken). Fewer
/// than three distinct points pass through unchanged, no hull being
/// computable.
pub fn jarvis(pointset: &Vec<Point>) -> (r: Vec<Point>)
    requires
        in_range_seq(pointset@),
    ensures
        pointset@.len() < 3 || !three_distinct(pointset@) ==> r@ == pointset@,
        forall|k: int| 0 <= k < r@.len() ==> pointset@.contains(#[trigger] r@[k]),
        pointset@.len() >= 3 && three_distinct(pointset@) ==> {
            let s = pointset@;
            let m = min_x_point(s);
            let fo = s[first_differing(s, m)];
            &&& r@.len() >= 1
            &&& r@[0] == m
            &&& forall|i: int| 1 <= i < r@.len() ==> #[trigger] r@[i] != m
            &&& r@.len() >= 2 ==> r@[1] == scan(s, m, fo)
            &&& forall|i: int| 2 <= i < r@.len() ==> #[trigger] r@[i] == scan(s, r@[i - 1], r@[i
                - 1])
            &&& r@.len() == 1 ==> scan(s, m, fo) == m
            &&& 2 <= r@.len() && r@.len() <= s.len() ==> scan(
                s,
                r@[r@.len() - 1],
                r@[r@.len() - 1],
            ) == m
        },
{
    let n = pointset.len();
    if n < 3 {
        return copy_points(pointset);
    }
    if !has_three_distinct(pointset) {
        return copy_points(pointset);
    }
    let min = find_min_x(pointset);
    let mut p = min;
    let mut j: usize = 0;
    while j < n && p == min
        invariant
            j <= n,
            n == pointset@.len(),
            min == min_x_point(pointset@),
            p == min ==> forall|k: int| 0 <= k < j ==> pointset@[k] == min,
            p != min ==> p == pointset@[first_differing(pointset@, min)],
            p != min ==> pointset@.contains(p) && in_range(p),
            in_range_seq(pointset@),
            pointset@.contains(min),
            in_range(min),
        decreases n - j, (if p == min { 1int } else { 0int }),
    {
        if pointset[j] != min {
            proof {
                lemma_first_differing_at(pointset@, min, j as int);
            }
            p = pointset[j];
        } else {
            j = j + 1;
        }
    }
    proof {
        if p == min {
            // all points scanned equal the minimum, against distinctness
            let (i1, j1, k1) = choose|i1: int, j1: int, k1: int|
                0 <= i1 < pointset@.len() && 0 <= j1 < pointset@.len() && 0 <= k1
                    < pointset@.len() && #[trigger] pointset@[i1] != #[trigger] pointset@[j1]
                    && pointset@[i1] != #[trigger] pointset@[k1] && pointset@[j1]
                    != pointset@[k1];
            assert(pointset@[i1] == min && pointset@[j1] == min);
            assert(false);
        }
    }
    let ghost s = pointset@;
    let ghost fo = s[first_differing(s, min)];
    let mut hull: Vec<Point> = Vec::new();
    hull.push(min);
    // The hull of n points has at most n vertices, so the wrap closes
    // within n steps; the step bound keeps even an inconsistent scan
    // (which a convexity violation upstream could cause) from cycling.
    let mut steps: usize = 0;
    let mut closed = false;
    while steps < n && !closed
        invariant
            steps <= n,
            steps == hull@.len() - 1,
            n == pointset@.len(),
            s == pointset@,
            n >= 3,
            in_range_seq(pointset@),
            min == min_x_point(pointset@),
            fo == s[first_differing(s, min)],
            pointset@.contains(p),
            in_range(p),
            hull@.len() >= 1,
            hull@[0] == min,
            forall|i: int| 1 <= i < hull@.len() ==> #[trigger] hull@[i] != min,
            in_range_seq(hull@),
            pointset@.contains(min),
            forall|k: int| 0 <= k < hull@.len() ==> pointset@.contains(#[trigger] hull@[k]),
            !closed && hull@.len() == 1 ==> p == fo,
            !closed && hull@.len() >= 2 ==> p == hull@[hull@.len() - 1],
            hull@.len() >= 2 ==> hull@[1] == scan(s, min, fo),
            forall|i: int| 2 <= i < hull@.len() ==> #[trigger] hull@[i] == scan(s, hull@[i - 1],
                hull@[i - 1]),
            closed ==> (hull@.len() == 1 && scan(s, min, fo) == min) || (hull@.len() >= 2 && scan(
                s,
                hull@[hull@.len() - 1],
                hull@[hull@.len() - 1],
            ) == min),
        decreases n - steps, (if closed { 0int } else { 1int }),
    {
        let a = hull[hull.len() - 1];
        let ghost p_entry = p;
        let mut i: usize = 0;
        while i < n
            invariant
                i <= n,
                n == pointset@.len(),
                s == pointset@,
                in_range_seq(pointset@),
                pointset@.contains(a),
                pointset@.contains(p),
                in_range(a),
                in_range(p),
                p == scan_upto(s, a, p_entry, i as int),
            decreases n - i,
        {
            let cand = pointset[i];
            let orientation = cross2d(a, cand, p);
            if orientation > 0 {
                p = cand;
            } else if orientation == 0 {
                // among collinear candidates take the farthest, to avoid
                // emitting an interior collinear point as a hull vertex
                if dist2(a, p) < dist2(a, cand) {
                    p = cand;
                }
            }
            i = i + 1;
        }
        if p == min {
            closed = true;
        } else {
            hull.push(p);
            steps = steps + 1;
        }
    }
    hull
}

} // verus!
