//! Recursive quickhull: take the extreme points in x, split the set by
//! the directed line between them, recurse on the subset strictly to the
//! left of each directed edge with the farthest point as the new apex,
//! and emit an edge's endpoint once nothing is left of it. Collinear
//! points at a seam replace the previous emit instead of appending. The
//! recursion is pinned exactly by the `qh_emit` spec.

use vstd::prelude::*;

use crate::jarvis::min_x_point;
use crate::primitives::copy_points;
use crate::primitives::cross;
use crate::primitives::cross2d;
use crate::primitives::has_three_distinct;
use crate::primitives::in_range;
use crate::primitives::in_range_seq;
use crate::primitives::three_distinct;
use crate::primitives::Point;

verus! {

/// `p` lies strictly to the left of the directed edge `a -> b`, in the
/// sense of the recursion's filter: `a, p, b` make a counter-clockwise
/// turn.
pub open spec fn left_of_edge(a: Point, b: Point, p: Point) -> bool {
    cross(a, p, b) > 0
}

/// Index of the champion for maximal x among the first `n` points:
/// strict comparison, so the first point attaining the maximum keeps it.
pub open spec fn max_x_upto(s: Seq<Point>, n: int) -> int
    recommends
        1 <= n <= s.len(),
    decreases n,
{
    if n <= 1 {
        0
    } else {
        let m = max_x_upto(s, n - 1);
        if s[n - 1].x > s[m].x {
            n - 1
        } else {
            m
        }
    }
}

/// The first point of `s` with maximal x.
pub open spec fn max_x_point(s: Seq<Point>) -> Point {
    s[max_x_upto(s, s.len() as int)]
}

pub proof fn lemma_max_x_upto(s: Seq<Point>, n: int)
    requires
        1 <= n <= s.len(),
    ensures
        0 <= max_x_upto(s, n) < n,
        forall|k: int| 0 <= k < n ==> s[max_x_upto(s, n)].x >= (#[trigger] s[k]).x,
    decreases n,
{
    if n > 1 {
        lemma_max_x_upto(s, n - 1);
    }
}

/// A sequence that contains an element its filter drops is strictly
/// longer than the filter's result.
proof fn lemma_filter_drops_one(s: Seq<Point>, pred: spec_fn(Point) -> bool, x: Point)
    requires
        s.contains(x),
        !pred(x),
    ensures
        s.filter(pred).len() < s.len(),
    decreases s.len(),
{
    reveal(Seq::filter);
    broadcast use vstd::prelude::Seq::lemma_filter_len;

    let dl = s.drop_last();
    if s.last() == x {
        assert(dl.filter(pred).len() <= dl.len());
    } else {
        let i = choose|i: int| 0 <= i < s.len() && s[i] == x;
        assert(dl[i] == x);
        assert(dl.contains(x));
        lemma_filter_drops_one(dl, pred, x);
    }
}

/// The candidate farthest from the line `a -> b` among the first `n`
/// entries of `left` (largest cross value; later entries win ties),
/// scanning from `b`.
pub open spec fn farthest_upto(left: Seq<Point>, a: Point, b: Point, n: int) -> Point
    decreases n,
{
    if n <= 0 {
        b
    } else {
        let f = farthest_upto(left, a, b, n - 1);
        if cross(a, f, b) > cross(a, left[n - 1], b) {
            f
        } else {
            left[n - 1]
        }
    }
}

/// The farthest candidate is one of the candidates, every candidate
/// being strictly left of the edge while `b` is not.
proof fn lemma_farthest_contained(left: Seq<Point>, a: Point, b: Point, n: int)
    requires
        1 <= n <= left.len(),
        forall|k: int| 0 <= k < left.len() ==> left_of_edge(a, b, #[trigger] left[k]),
    ensures
        left.contains(farthest_upto(left, a, b, n)),
    decreases n,
{
    assert(cross(a, b, b) == 0) by (nonlinear_arith);
    assert(left.contains(left[n - 1]));
    let f = farthest_upto(left, a, b, n - 1);
    assert(farthest_upto(left, a, b, n) == if cross(a, f, b) > cross(a, left[n - 1], b) {
        f
    } else {
        left[n - 1]
    });
    if n > 1 {
        lemma_farthest_contained(left, a, b, n - 1);
    } else {
        assert(f == b);
        assert(left_of_edge(a, b, left[0]));
        assert(left.contains(left[0]));
    }
}

/// What one side of the divide-and-conquer appends to `out` for the
/// directed edge `a -> b`: with nothing strictly left of the edge, `b`
/// (replacing the previous vertex when collinear with the last emitted
/// edge); otherwise the emissions of the two sub-edges through the
/// farthest candidate.
pub open spec fn qh_emit(s: Seq<Point>, a: Point, b: Point, out: Seq<Point>) -> Seq<Point>
    decreases s.len()
        when s.contains(a) || s.contains(b)
        via qh_emit_decreases
{
    let left = s.filter(|p: Point| left_of_edge(a, b, p));
    if left.len() == 0 {
        if out.len() < 2 || cross(out[out.len() - 2], out[out.len() - 1], b) > 0 {
            out.push(b)
        } else {
            out.update(out.len() - 1, b)
        }
    } else {
        let q = farthest_upto(left, a, b, left.len() as int);
        qh_emit(left, q, b, qh_emit(left, a, q, out))
    }
}

#[via_fn]
proof fn qh_emit_decreases(s: Seq<Point>, a: Point, b: Point, out: Seq<Point>) {
    broadcast use vstd::seq_lib::group_filter_ensures;

    let pred = |p: Point| left_of_edge(a, b, p);
    assert(cross(a, a, b) == 0) by (nonlinear_arith);
    assert(cross(a, b, b) == 0) by (nonlinear_arith);
    if s.contains(a) {
        lemma_filter_drops_one(s, pred, a);
    } else {
        lemma_filter_drops_one(s, pred, b);
    }
}

/// The input points strictly to the left of the directed edge `a -> b`,
/// in input order.
fn points_left_of(pointset: &Vec<Point>, a: Point, b: Point) -> (r: Vec<Point>)
    requires
        in_range_seq(pointset@),
        in_range(a),
        in_range(b),
    ensures
        r@ == pointset@.filter(|p: Point| left_of_edge(a, b, p)),
        forall|k: int|
            0 <= k < r@.len() ==> pointset@.contains(#[trigger] r@[k]) && left_of_edge(
                a,
                b,
                r@[k],
            ),
        in_range_seq(r@),
{
    let ghost pred = |p: Point| left_of_edge(a, b, p);
    let n = pointset.len();
    let mut r: Vec<Point> = Vec::new();
    let mut i: usize = 0;
    while i < n
        invariant
            i <= n,
            n == pointset@.len(),
            in_range_seq(pointset@),
            in_range(a),
            in_range(b),
            pred == (|p: Point| left_of_edge(a, b, p)),
            r@ == pointset@.take(i as int).filter(pred),
            forall|k: int|
                0 <= k < r@.len() ==> pointset@.contains(#[trigger] r@[k]) && left_of_edge(
                    a,
                    b,
                    r@[k],
                ),
            in_range_seq(r@),
        decreases n - i,
    {
        let p = pointset[i];
        if cross2d(a, p, b) > 0 {
            r.push(p);
        }
        proof {
            reveal(Seq::filter);
            let pre = pointset@.take(i as int);
            let post = pointset@.take(i + 1 as int);
            assert(post.drop_last() =~= pre);
            assert(post.last() == pointset@[i as int]);
            if pred(pointset@[i as int]) {
                assert(post.filter(pred) =~= pre.filter(pred).push(pointset@[i as int]));
            } else {
                assert(post.filter(pred) =~= pre.filter(pred));
            }
        }
        i = i + 1;
    }
    proof {
        assert(pointset@.take(n as int) =~= pointset@);
    }
    r
}

/// One side of the divide-and-conquer: appends, onto `out`, exactly the
/// `qh_emit` chain of the directed edge `a -> b`.
fn qh_recursion(pointset: &Vec<Point>, a: Point, b: Point, out: &mut Vec<Point>)
    requires
        in_range_seq(pointset@),
        in_range(a),
        in_range(b),
        in_range_seq(old(out)@),
        pointset@.contains(a) || pointset@.contains(b),
    ensures
        final(out)@ == qh_emit(pointset@, a, b, old(out)@),
        final(out)@.len() >= old(out)@.len(),
        in_range_seq(final(out)@),
        forall|k: int|
            0 <= k < final(out)@.len() ==> old(out)@.contains(#[trigger] final(out)@[k])
                || pointset@.contains(final(out)@[k]) || final(out)@[k] == b,
    decreases pointset@.len(),
{
    let left_of = points_left_of(pointset, a, b);
    proof {
        assert(cross(a, a, b) == 0) by (nonlinear_arith);
        assert(cross(a, b, b) == 0) by (nonlinear_arith);
        let pred = |p: Point| left_of_edge(a, b, p);
        if pointset@.contains(a) {
            lemma_filter_drops_one(pointset@, pred, a);
        } else {
            lemma_filter_drops_one(pointset@, pred, b);
        }
    }
    if left_of.is_empty() {
        let m = out.len();
        if m < 2 || cross2d(out[m - 2], out[m - 1], b) > 0 {
            out.push(b);
        } else {
            let ghost pre = out@;
            let _ = out.pop();
            out.push(b);
            proof {
                assert(out@ =~= pre.update(pre.len() - 1, b));
            }
        }
    } else {
        let mut q = b;
        let mut i: usize = 0;
        while i < left_of.len()
            invariant
                i <= left_of@.len(),
                in_range_seq(left_of@),
                in_range(a),
                in_range(b),
                in_range(q),
                q == farthest_upto(left_of@, a, b, i as int),
                q == b || left_of@.contains(q),
                forall|k: int|
                    0 <= k < left_of@.len() ==> left_of_edge(a, b, #[trigger] left_of@[k]),
            decreases left_of@.len() - i,
        {
            let cand = left_of[i];
            if cross2d(a, q, b) > cross2d(a, cand, b) {
                // keep the current farthest
            } else {
                q = cand;
            }
            i = i + 1;
        }
        proof {
            lemma_farthest_contained(left_of@, a, b, left_of@.len() as int);
        }
        qh_recursion(&left_of, a, q, out);
        qh_recursion(&left_of, q, b, out);
    }
}

/// Convex hull by quickhull: exactly the `qh_emit` chains of the two
/// directed edges between the extreme points in x, which lists the hull
/// counter-clockwise with collinear points merged and no repeated
/// closing vertex. Fewer than three distinct points pass through
/// unchanged, no hull being computable.
pub fn quickhull(pointset: &Vec<Point>) -> (r: Vec<Point>)
    requires
        in_range_seq(pointset@),
    ensures
        pointset@.len() < 3 || !three_distinct(pointset@) ==> r@ == pointset@,
        pointset@.len() >= 3 && three_distinct(pointset@) ==> r@ == qh_emit(
            pointset@,
            max_x_point(pointset@),
            min_x_point(pointset@),
            qh_emit(pointset@, min_x_point(pointset@), max_x_point(pointset@), Seq::empty()),
        ),
        forall|k: int| 0 <= k < r@.len() ==> pointset@.contains(#[trigger] r@[k]),
{
    let n = pointset.len();
    if n < 3 {
        return copy_points(pointset);
    }
    if !has_three_distinct(pointset) {
        return copy_points(pointset);
    }
    let mut minp = pointset[0];
    let mut maxp = pointset[0];
    let mut i: usize = 1;
    while i < n
        invariant
            1 <= i <= n,
            n == pointset@.len(),
            in_range_seq(pointset@),
            minp == pointset@[crate::jarvis::min_x_upto(pointset@, i as int)],
            maxp == pointset@[max_x_upto(pointset@, i as int)],
            pointset@.contains(minp),
            pointset@.contains(maxp),
            in_range(minp),
            in_range(maxp),
        decreases n - i,
    {
        proof {
            crate::jarvis::lemma_min_x_upto(pointset@, i as int);
            lemma_max_x_upto(pointset@, i as int);
            crate::jarvis::lemma_min_x_upto(pointset@, i + 1 as int);
            lemma_max_x_upto(pointset@, i + 1 as int);
        }
        if pointset[i].x < minp.x {
            minp = pointset[i];
        }
        if pointset[i].x > maxp.x {
            maxp = pointset[i];
        }
        i = i + 1;
    }
    let mut hull: Vec<Point> = Vec::new();
    qh_recursion(pointset, minp, maxp, &mut hull);
    qh_recursion(pointset, maxp, minp, &mut hull);
    hull
}

} // verus!
