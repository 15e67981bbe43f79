//! The Akl-Toussaint pre-filter: one linear pass finds the eight
//! directional extremes of the point set, a second pass discards every
//! point strictly inside the octagon they span. Filtering never changes
//! the hull a downstream algorithm produces, it only shrinks the
//! candidate set.

use vstd::prelude::*;

use crate::primitives::copy_points;
use crate::primitives::in_octagon;
use crate::primitives::in_range;
use crate::primitives::in_range_seq;
use crate::primitives::point_in_octagon;
use crate::primitives::side_val;
use crate::primitives::Point;

verus! {

/// The eight directional extremes among the first `n` points of `s`, in
/// octagon order: min x, min x-y, max y, max x+y, max x, max x-y, min y,
/// min x+y. Comparisons are strict, so the first point reaching an
/// extreme keeps it.
pub open spec fn extremes_upto(s: Seq<Point>, n: int) -> Seq<Point>
    recommends
        1 <= n <= s.len(),
    decreases n,
{
    if n <= 1 {
        seq![s[0], s[0], s[0], s[0], s[0], s[0], s[0], s[0]]
    } else {
        let o = extremes_upto(s, n - 1);
        let p = s[n - 1];
        seq![
            if p.x < o[0].x { p } else { o[0] },
            if p.x - p.y < o[1].x - o[1].y { p } else { o[1] },
            if p.y > o[2].y { p } else { o[2] },
            if p.x + p.y > o[3].x + o[3].y { p } else { o[3] },
            if p.x > o[4].x { p } else { o[4] },
            if p.x - p.y > o[5].x - o[5].y { p } else { o[5] },
            if p.y < o[6].y { p } else { o[6] },
            if p.x + p.y < o[7].x + o[7].y { p } else { o[7] },
        ]
    }
}

/// The octagon of extremes of the whole point set.
pub open spec fn octagon_of(s: Seq<Point>) -> Seq<Point> {
    extremes_upto(s, s.len() as int)
}

/// Each entry of the octagon is one of the scanned points and is
/// extremal in its direction: least x, least x-y, greatest y, greatest
/// x+y, greatest x, greatest x-y, least y, least x+y, in that order.
pub proof fn lemma_extremes_upto(s: Seq<Point>, n: int)
    requires
        1 <= n <= s.len(),
    ensures
        ({
            let o = extremes_upto(s, n);
            &&& o.len() == 8
            &&& forall|j: int| 0 <= j < 8 ==> s.contains(#[trigger] o[j])
            &&& forall|k: int| 0 <= k < n ==> o[0].x <= (#[trigger] s[k]).x
            &&& forall|k: int| 0 <= k < n ==> o[1].x - o[1].y <= (#[trigger] s[k]).x - s[k].y
            &&& forall|k: int| 0 <= k < n ==> o[2].y >= (#[trigger] s[k]).y
            &&& forall|k: int| 0 <= k < n ==> o[3].x + o[3].y >= (#[trigger] s[k]).x + s[k].y
            &&& forall|k: int| 0 <= k < n ==> o[4].x >= (#[trigger] s[k]).x
            &&& forall|k: int| 0 <= k < n ==> o[5].x - o[5].y >= (#[trigger] s[k]).x - s[k].y
            &&& forall|k: int| 0 <= k < n ==> o[6].y <= (#[trigger] s[k]).y
            &&& forall|k: int| 0 <= k < n ==> o[7].x + o[7].y <= (#[trigger] s[k]).x + s[k].y
        }),
    decreases n,
{
    if n <= 1 {
        assert(s.contains(s[0]));
    } else {
        lemma_extremes_upto(s, n - 1);
        assert(s.contains(s[n - 1]));
    }
}

proof fn lemma_side_of_endpoint(p1: Point, p2: Point)
    ensures
        side_val(p1, p2, p1) == 0,
        side_val(p1, p2, p2) == 0,
{
    assert(side_val(p1, p2, p1) == 0 && side_val(p1, p2, p2) == 0) by (nonlinear_arith);
}

/// No extreme point is strictly inside the octagon (each lies on one of
/// its edges), so the filter keeps all eight; in particular filtering
/// never empties a set of two or more points.
pub proof fn lemma_filter_keeps_extremes(s: Seq<Point>)
    requires
        s.len() >= 2,
    ensures
        forall|j: int| 0 <= j < 8 ==> !in_octagon(octagon_of(s), #[trigger] octagon_of(s)[j]),
        akl_spec(s).contains(octagon_of(s)[0]),
        akl_spec(s).len() >= 1,
{
    broadcast use vstd::seq_lib::group_filter_ensures;

    let o = octagon_of(s);
    lemma_extremes_upto(s, s.len() as int);
    assert forall|j: int| 0 <= j < 8 implies !in_octagon(o, #[trigger] o[j]) by {
        lemma_side_of_endpoint(o[0], o[1]);
        lemma_side_of_endpoint(o[2], o[3]);
        lemma_side_of_endpoint(o[4], o[5]);
        lemma_side_of_endpoint(o[6], o[7]);
        lemma_side_of_endpoint(o[1], o[2]);
        lemma_side_of_endpoint(o[3], o[4]);
        lemma_side_of_endpoint(o[5], o[6]);
        lemma_side_of_endpoint(o[7], o[0]);
    }
    let wi = choose|wi: int| 0 <= wi < s.len() && s[wi] == o[0];
    let keep = |q: Point| !in_octagon(octagon_of(s), q);
    assert(keep(s[wi]));
    assert(s.filter(keep).contains(s[wi]));
}

/// The points of `s` that survive the filter: those not strictly inside
/// the octagon of extremes. A set of fewer than two points passes
/// through unchanged, its extremes being undefined or trivial.
pub open spec fn akl_spec(s: Seq<Point>) -> Seq<Point> {
    if s.len() < 2 {
        s
    } else {
        s.filter(|q: Point| !in_octagon(octagon_of(s), q))
    }
}

/// Discards every point strictly inside the octagon of the eight
/// directional extremes and returns the survivors in input order.
pub fn akl(pointset: &Vec<Point>) -> (r: Vec<Point>)
    requires
        in_range_seq(pointset@),
    ensures
        r@ == akl_spec(pointset@),
{
    let n = pointset.len();
    if n < 2 {
        return copy_points(pointset);
    }
    let s0 = pointset[0];
    let mut minx = s0;
    let mut minxmy = s0;
    let mut maxy = s0;
    let mut maxxpy = s0;
    let mut maxx = s0;
    let mut maxxmy = s0;
    let mut miny = s0;
    let mut minxpy = s0;
    let mut i: usize = 1;
    while i < n
        invariant
            1 <= i <= n,
            n == pointset@.len(),
            in_range_seq(pointset@),
            in_range(minx),
            in_range(minxmy),
            in_range(maxy),
            in_range(maxxpy),
            in_range(maxx),
            in_range(maxxmy),
            in_range(miny),
            in_range(minxpy),
            seq![minx, minxmy, maxy, maxxpy, maxx, maxxmy, miny, minxpy]
                =~= extremes_upto(pointset@, i as int),
        decreases n - i,
    {
        let p = pointset[i];
        if p.x < minx.x {
            minx = p;
        }
        if p.x - p.y < minxmy.x - minxmy.y {
            minxmy = p;
        }
        if p.y > maxy.y {
            maxy = p;
        }
        if p.x + p.y > maxxpy.x + maxxpy.y {
            maxxpy = p;
        }
        if p.x > maxx.x {
            maxx = p;
        }
        if p.x - p.y > maxxmy.x - maxxmy.y {
            maxxmy = p;
        }
        if p.y < miny.y {
            miny = p;
        }
        if p.x + p.y < minxpy.x + minxpy.y {
            minxpy = p;
        }
        i = i + 1;
    }
    let octagon = [minx, minxmy, maxy, maxxpy, maxx, maxxmy, miny, minxpy];
    proof {
        assert(octagon@ =~= octagon_of(pointset@));
    }
    let ghost keep = |q: Point| !in_octagon(octagon_of(pointset@), q);
    let mut r: Vec<Point> = Vec::new();
    let mut i: usize = 0;
    while i < n
        invariant
            i <= n,
            n == pointset@.len(),
            in_range_seq(pointset@),
            in_range_seq(octagon@),
            octagon@ =~= octagon_of(pointset@),
            keep == (|q: Point| !in_octagon(octagon_of(pointset@), q)),
            r@ == pointset@.take(i as int).filter(keep),
        decreases n - i,
    {
        let p = pointset[i];
        if !point_in_octagon(octagon, p) {
            r.push(p);
        }
        proof {
            reveal(Seq::filter);
            let pre = pointset@.take(i as int);
            let post = pointset@.take(i + 1 as int);
            assert(post.drop_last() =~= pre);
            assert(post.last() == pointset@[i as int]);
            if keep(pointset@[i as int]) {
                assert(post.filter(keep) =~= pre.filter(keep).push(pointset@[i as int]));
            } else {
                assert(post.filter(keep) =~= pre.filter(keep));
            }
        }
        i = i + 1;
    }
    proof {
        assert(pointset@.take(n as int) =~= pointset@);
    }
    r
}

} // verus!
