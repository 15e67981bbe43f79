//! Chan's output-sensitive algorithm: partition the points into groups
//! of at most `m`, hull each group by monotone chain, then gift-wrap over
//! the group hulls using a binary tangent search per group. If the wrap
//! has not closed after `m` steps the group size was too small: square
//! it (capped at the set size, which bounds the retries) and start over.
//! Every stage is pinned by spec functions: `chan` returns exactly
//! `chan_rounds` of its input.

use vstd::prelude::*;

use crate::andrew::andrew;
use crate::andrew::andrew_spec;
use crate::jarvis::find_min_x;
use crate::jarvis::min_x_point;
use crate::primitives::copy_points;
use crate::primitives::cross;
use crate::primitives::cross2d;
use crate::primitives::dist2;
use crate::primitives::has_three_distinct;
use crate::primitives::in_range;
use crate::primitives::in_range_seq;
use crate::primitives::rotate_one;
use crate::primitives::sq_dist;
use crate::primitives::tangent;
use crate::primitives::tangent_spec;
use crate::primitives::three_distinct;
use crate::primitives::Point;

verus! {

/// The character of each sub-hull list as a sequence of point
/// sequences.
pub open spec fn views(hs: Seq<Vec<Point>>) -> Seq<Seq<Point>> {
    hs.map_values(|v: Vec<Point>| v@)
}

/// The cyclic sub-hull of one group: its monotone-chain hull with the
/// first vertex repeated at the end, to ease the wraparound of the
/// tangent search.
pub open spec fn cyclic_hull(chunk: Seq<Point>) -> Seq<Point> {
    let h = andrew_spec(chunk);
    h.push(h[0])
}

/// The cyclic sub-hulls of the contiguous groups of at most `m` points,
/// from `start` on.
pub open spec fn group_hulls(s: Seq<Point>, m: int, start: int) -> Seq<Seq<Point>>
    recommends
        m >= 1,
        start >= 0,
    decreases s.len() - start,
        when m >= 1 && start >= 0
{
    if start >= s.len() {
        Seq::empty()
    } else {
        let end = if s.len() - start > m {
            start + m
        } else {
            s.len() as int
        };
        seq![cyclic_hull(s.subrange(start, end))] + group_hulls(s, m, end)
    }
}

/// One wrapping pass from the hull point `a` over the first `n`
/// sub-hulls: each answers its tangent (normalizing itself by one
/// rotation when `a` is its first vertex), and the champion keeps the
/// most counter-clockwise tangent, the farther one on exact ties.
pub open spec fn march_upto(hs: Seq<Seq<Point>>, a: Point, q0: Point, n: int) -> (Point, Seq<
    Seq<Point>,
>)
    decreases n,
{
    if n <= 0 {
        (q0, hs)
    } else {
        let (q, hs1) = march_upto(hs, a, q0, n - 1);
        let poly = hs1[n - 1];
        let t = tangent_spec(a, poly);
        let poly2 = if poly.len() > 2 && poly[0] == a {
            rotate_one(poly)
        } else {
            poly
        };
        let q2 = if cross(a, t, q) > 0 {
            t
        } else if cross(a, t, q) == 0 && sq_dist(a, q) < sq_dist(a, t) {
            t
        } else {
            q
        };
        (q2, hs1.update(n - 1, poly2))
    }
}

/// The wrap from `min` over the sub-hulls: each step appends the
/// champion of one full pass, until the champion returns to `min` (the
/// hull closed) or the step allowance runs out.
pub open spec fn wrap_steps(
    hs: Seq<Seq<Point>>,
    min: Point,
    hull: Seq<Point>,
    q: Point,
    steps: int,
) -> (Seq<Point>, bool)
    recommends
        hull.len() >= 1,
    decreases steps,
{
    if steps <= 0 {
        (hull, false)
    } else {
        let (q2, hs2) = march_upto(hs, hull.last(), q, hs.len() as int);
        if q2 == min {
            (hull, true)
        } else {
            wrap_steps(hs2, min, hull.push(q2), q2, steps - 1)
        }
    }
}

/// The next group size: the square, capped at the set size.
pub open spec fn grown(m: int, n: int) -> int {
    if m <= 0xFFFF {
        if m * m < n {
            m * m
        } else {
            n
        }
    } else {
        n
    }
}

/// The retry rounds of Chan's algorithm from group size `m`: the wrap
/// of one round if it closes, else the next round with the grown group
/// size; the last allowed size is the set size itself, whose round is
/// answered whether or not it closed.
pub open spec fn chan_rounds(s: Seq<Point>, min: Point, m: int, n: int) -> Seq<Point>
    recommends
        3 <= m <= n,
        n == s.len(),
    decreases n - m,
        when 3 <= m <= n
        via chan_rounds_decreases
{
    if m >= n {
        wrap_steps(group_hulls(s, n, 0), min, seq![min], min, n).0
    } else {
        let round = wrap_steps(group_hulls(s, m, 0), min, seq![min], min, m);
        if round.1 {
            round.0
        } else {
            chan_rounds(s, min, grown(m, n), n)
        }
    }
}

#[via_fn]
proof fn chan_rounds_decreases(s: Seq<Point>, min: Point, m: int, n: int) {
    if m < n && m <= 0xFFFF {
        assert(m * m > m) by (nonlinear_arith)
            requires
                3 <= m,
        ;
    }
}

/// Every sub-hull list is cyclic-ready (at least two entries) and made
/// of points of `s`, all within coordinate range.
spec fn subhulls_ok(hs: Seq<Vec<Point>>, s: Seq<Point>) -> bool {
    forall|i: int|
        0 <= i < hs.len() ==> (#[trigger] hs[i])@.len() >= 2 && in_range_seq(hs[i]@) && forall|
            k: int,
        | 0 <= k < hs[i]@.len() ==> s.contains(#[trigger] hs[i]@[k])
}

/// One wrapping round at group size `m`: sub-hull the groups, then
/// march at most `m` tangent steps from `min`. Returns exactly the
/// `wrap_steps` chain over the group hulls, and whether it closed.
fn chan_round(pointset: &Vec<Point>, min: Point, m: usize) -> (res: (Vec<Point>, bool))
    requires
        in_range_seq(pointset@),
        pointset@.len() >= 1,
        m >= 1,
        pointset@.contains(min),
        in_range(min),
    ensures
        (res.0@, res.1) == wrap_steps(
            group_hulls(pointset@, m as int, 0),
            min,
            seq![min],
            min,
            m as int,
        ),
        res.0@.len() >= 1,
        res.0@.len() <= m + 1,
        res.0@[0] == min,
        forall|k: int| 0 <= k < res.0@.len() ==> pointset@.contains(#[trigger] res.0@[k]),
{
    let n = pointset.len();
    let mut subhulls: Vec<Vec<Point>> = Vec::new();
    let mut start: usize = 0;
    proof {
        assert(views(subhulls@) + group_hulls(pointset@, m as int, 0) =~= group_hulls(
            pointset@,
            m as int,
            0,
        ));
    }
    while start < n
        invariant
            start <= n,
            n == pointset@.len(),
            m >= 1,
            in_range_seq(pointset@),
            subhulls_ok(subhulls@, pointset@),
            views(subhulls@) + group_hulls(pointset@, m as int, start as int) == group_hulls(
                pointset@,
                m as int,
                0,
            ),
        decreases n - start,
    {
        let end = if n - start > m {
            start + m
        } else {
            n
        };
        let mut chunk: Vec<Point> = Vec::new();
        let mut idx: usize = start;
        while idx < end
            invariant
                start <= idx <= end,
                start < end <= n,
                n == pointset@.len(),
                in_range_seq(pointset@),
                chunk@ == pointset@.subrange(start as int, idx as int),
                in_range_seq(chunk@),
                forall|k: int| 0 <= k < chunk@.len() ==> pointset@.contains(#[trigger] chunk@[k]),
            decreases end - idx,
        {
            chunk.push(pointset[idx]);
            proof {
                assert(chunk@ =~= pointset@.subrange(start as int, idx + 1 as int));
            }
            idx = idx + 1;
        }
        let mut h = andrew(&chunk);
        let f = h[0];
        h.push(f);
        proof {
            assert(h@ == cyclic_hull(pointset@.subrange(start as int, end as int)));
            assert forall|k: int| 0 <= k < h@.len() implies pointset@.contains(
                #[trigger] h@[k],
            ) by {
                if k < h@.len() - 1 {
                    assert(chunk@.contains(h@[k]));
                    let w = choose|w: int| 0 <= w < chunk@.len() && chunk@[w] == h@[k];
                    assert(pointset@.contains(chunk@[w]));
                } else {
                    assert(h@[k] == h@[0]);
                }
            }
            assert forall|k: int| 0 <= k < h@.len() implies in_range(#[trigger] h@[k]) by {
                assert(pointset@.contains(h@[k]));
                let w = choose|w: int| 0 <= w < pointset@.len() && pointset@[w] == h@[k];
                assert(in_range(pointset@[w]));
            }
        }
        let ghost pre_views = views(subhulls@);
        subhulls.push(h);
        proof {
            assert(views(subhulls@) =~= pre_views.push(h@));
            assert(views(subhulls@) + group_hulls(pointset@, m as int, end as int) =~= pre_views
                + (seq![h@] + group_hulls(pointset@, m as int, end as int)));
        }
        start = end;
    }
    let ghost hs0 = views(subhulls@);
    proof {
        assert(hs0 + group_hulls(pointset@, m as int, n as int) =~= hs0);
        assert(hs0 == group_hulls(pointset@, m as int, 0));
    }
    let mut hull: Vec<Point> = Vec::new();
    hull.push(min);
    let mut q = min;
    let mut it: usize = 0;
    let mut closed = false;
    while it < m && !closed
        invariant
            it <= m,
            hull@.len() == it + 1,
            n == pointset@.len(),
            in_range_seq(pointset@),
            subhulls_ok(subhulls@, pointset@),
            hull@.len() >= 1,
            hull@[0] == min,
            in_range_seq(hull@),
            forall|k: int| 0 <= k < hull@.len() ==> pointset@.contains(#[trigger] hull@[k]),
            pointset@.contains(q),
            in_range(q),
            !closed ==> wrap_steps(views(subhulls@), min, hull@, q, (m - it) as int)
                == wrap_steps(hs0, min, seq![min], min, m as int),
            closed ==> (hull@, true) == wrap_steps(hs0, min, seq![min], min, m as int),
        decreases m - it, (if closed { 0int } else { 1int }),
    {
        let a = hull[hull.len() - 1];
        let ghost entry_views = views(subhulls@);
        let ghost q_entry = q;
        let mut si: usize = 0;
        while si < subhulls.len()
            invariant
                si <= subhulls@.len(),
                n == pointset@.len(),
                in_range_seq(pointset@),
                subhulls_ok(subhulls@, pointset@),
                pointset@.contains(a),
                in_range(a),
                pointset@.contains(q),
                in_range(q),
                subhulls@.len() == entry_views.len(),
                (q, views(subhulls@)) == march_upto(entry_views, a, q_entry, si as int),
            decreases subhulls@.len() - si,
        {
            let ghost pre = subhulls@[si as int]@;
            let ghost pre_views = views(subhulls@);
            let t = tangent(a, &mut subhulls[si]);
            proof {
                assert(pre.contains(t));
                let w = choose|w: int| 0 <= w < pre.len() && pre[w] == t;
                assert(pointset@.contains(pre[w]));
                assert(views(subhulls@) =~= pre_views.update(
                    si as int,
                    subhulls@[si as int]@,
                ));
                assert forall|i: int| 0 <= i < subhulls@.len() implies (#[trigger] subhulls@[i])@.len()
                    >= 2 && in_range_seq(subhulls@[i]@) && forall|k: int|
                    0 <= k < subhulls@[i]@.len() ==> pointset@.contains(
                        #[trigger] subhulls@[i]@[k],
                    ) by {
                    if i == si {
                        assert forall|k: int| 0 <= k < subhulls@[i]@.len() implies pointset@.contains(
                            #[trigger] subhulls@[i]@[k],
                        ) by {
                            assert(pre.contains(subhulls@[i]@[k]));
                            let w2 = choose|w2: int|
                                0 <= w2 < pre.len() && pre[w2] == subhulls@[i]@[k];
                            assert(pointset@.contains(pre[w2]));
                        }
                    }
                }
            }
            let o = cross2d(a, t, q);
            if o > 0 {
                q = t;
            } else if o == 0 {
                // take the farthest among collinear tangent candidates,
                // not to stop the wrap early on a nearer one
                if dist2(a, q) < dist2(a, t) {
                    q = t;
                }
            }
            si = si + 1;
        }
        if q == min {
            closed = true;
        } else {
            hull.push(q);
            it = it + 1;
        }
    }
    (hull, closed)
}

/// Convex hull by Chan's algorithm: exactly the `chan_rounds` retry
/// chain of wrapping rounds, starting at group size 3, which lists the
/// hull counter-clockwise from the first point with minimal x, without
/// a repeated closing vertex. Fewer than three distinct points pass
/// through unchanged, no hull being computable. Group sizes grow by
/// squaring, capped at the set size, so the retry loop is bounded even
/// on inputs that defeat the wrap.
pub fn chan(pointset: &Vec<Point>) -> (r: Vec<Point>)
    requires
        in_range_seq(pointset@),
    ensures
        pointset@.len() < 3 || !three_distinct(pointset@) ==> r@ == pointset@,
        pointset@.len() >= 3 && three_distinct(pointset@) ==> r@ == chan_rounds(
            pointset@,
            min_x_point(pointset@),
            3,
            pointset@.len() as int,
        ),
        forall|k: int| 0 <= k < r@.len() ==> pointset@.contains(#[trigger] r@[k]),
        pointset@.len() >= 3 && three_distinct(pointset@) ==> r@.len() >= 1 && r@.len()
            <= pointset@.len() + 1 && r@[0] == min_x_point(pointset@),
{
    let n = pointset.len();
    if n < 3 {
        return copy_points(pointset);
    }
    if !has_three_distinct(pointset) {
        return copy_points(pointset);
    }
    let min = find_min_x(pointset);
    let mut m: usize = 3;
    while m < n
        invariant
            3 <= m,
            m <= n,
            n == pointset@.len(),
            n >= 3,
            three_distinct(pointset@),
            in_range_seq(pointset@),
            min == min_x_point(pointset@),
            pointset@.contains(min),
            in_range(min),
            chan_rounds(pointset@, min, m as int, n as int) == chan_rounds(
                pointset@,
                min,
                3,
                n as int,
            ),
        decreases n - m,
    {
        let (h, closed) = chan_round(pointset, min, m);
        if closed {
            return h;
        }
        // the hull exceeded m vertices: square the group size, capped at
        // the set size
        let next = if m <= 0xFFFF {
            proof {
                assert(m * m > m && m * m <= 0xFFFF * 0xFFFF) by (nonlinear_arith)
                    requires
                        3 <= m <= 0xFFFF,
                ;
            }
            let sq = m * m;
            if sq < n {
                sq
            } else {
                n
            }
        } else {
            n
        };
        proof {
            assert(next as int == grown(m as int, n as int));
        }
        m = next;
    }
    let (h, _) = chan_round(pointset, min, n);
    h
}

} // verus!
