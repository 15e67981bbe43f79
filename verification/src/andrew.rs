//! Andrew's monotone chain: sort the points by x (ties by y), build a
//! lower chain left to right and an upper chain right to left, popping
//! while the last two chain points and the candidate fail to make a
//! strict left turn, then join the chains. Also the sub-hull routine of
//! Chan's algorithm. The whole scan is pinned by spec functions:
//! `andrew` returns exactly `andrew_spec` of its input.

use vstd::prelude::*;

use crate::primitives::copy_points;
use crate::primitives::cross;
use crate::primitives::cross2d;
use crate::primitives::has_three_distinct;
use crate::primitives::in_range;
use crate::primitives::in_range_seq;
use crate::primitives::three_distinct;
use crate::primitives::Point;

verus! {

broadcast use vstd::seq_lib::group_to_multiset_ensures, vstd::seq_lib::to_multiset_insert;

/// Strict order by x ascending, ties by y ascending.
pub open spec fn lex_lt(a: Point, b: Point) -> bool {
    a.x < b.x || (a.x == b.x && a.y < b.y)
}

/// Weak order by x ascending, ties by y ascending.
pub open spec fn lex_le(a: Point, b: Point) -> bool {
    a.x < b.x || (a.x == b.x && a.y <= b.y)
}

/// The sequence is sorted by x ascending, ties by y ascending.
pub open spec fn sorted_lex(s: Seq<Point>) -> bool {
    forall|i: int, j: int| 0 <= i < j < s.len() ==> lex_le(#[trigger] s[i], #[trigger] s[j])
}

/// `p` is a point of `s` no greater than any point of `s` in the order
/// by x ascending, ties by y ascending.
pub open spec fn is_lex_min(s: Seq<Point>, p: Point) -> bool {
    &&& s.contains(p)
    &&& forall|k: int| 0 <= k < s.len() ==> lex_le(p, #[trigger] s[k])
}

/// `p` inserted into the sorted sequence `s`, before the first entry it
/// does not exceed.
pub open spec fn insert_sorted(s: Seq<Point>, p: Point) -> Seq<Point>
    decreases s.len(),
{
    if s.len() == 0 {
        seq![p]
    } else if lex_lt(s[0], p) {
        seq![s[0]] + insert_sorted(s.drop_first(), p)
    } else {
        seq![p] + s
    }
}

/// The first `n` points of `s`, sorted by repeated insertion.
pub open spec fn sort_upto(s: Seq<Point>, n: int) -> Seq<Point>
    decreases n,
{
    if n <= 0 {
        Seq::empty()
    } else {
        insert_sorted(sort_upto(s, n - 1), s[n - 1])
    }
}

/// The points of `s` sorted by x ascending, ties by y ascending.
pub open spec fn sorted_points(s: Seq<Point>) -> Seq<Point> {
    sort_upto(s, s.len() as int)
}

/// One scan step of the monotone chain: pop while the chain is longer
/// than `barrier` and its last two points together with the candidate
/// fail to make a strict left turn, then append the candidate.
pub open spec fn chain_step(chain: Seq<Point>, p: Point, barrier: int) -> Seq<Point>
    recommends
        barrier >= 1,
    decreases chain.len(),
{
    if chain.len() > barrier && chain.len() >= 2 && cross(
        chain[chain.len() - 2],
        chain[chain.len() - 1],
        p,
    ) <= 0 {
        chain_step(chain.drop_last(), p, barrier)
    } else {
        chain.push(p)
    }
}

/// The lower chain after scanning the first `n` sorted points.
pub open spec fn lower_upto(s: Seq<Point>, n: int) -> Seq<Point>
    decreases n,
{
    if n <= 0 {
        Seq::empty()
    } else {
        chain_step(lower_upto(s, n - 1), s[n - 1], 1)
    }
}

/// The chain after extending the finished lower chain `lo` with the
/// last `cnt` points of `s` in reverse order, never popping into `lo`.
pub open spec fn upper_upto(s: Seq<Point>, lo: Seq<Point>, cnt: int) -> Seq<Point>
    decreases cnt,
{
    if cnt <= 0 {
        lo
    } else {
        chain_step(upper_upto(s, lo, cnt - 1), s[s.len() - cnt], lo.len() as int)
    }
}

/// The whole monotone-chain scan: fewer than three distinct points pass
/// through, no hull being computable; otherwise sort, build the lower
/// chain, extend it by the reverse pass, and drop the re-appended
/// starting point.
pub open spec fn andrew_spec(s: Seq<Point>) -> Seq<Point> {
    if s.len() < 3 || !three_distinct(s) {
        s
    } else {
        let so = sorted_points(s);
        let lo = lower_upto(so, so.len() as int);
        upper_upto(so, lo, so.len() as int).drop_last()
    }
}

/// Every vertex triple ending at index `start + 2` or later turns
/// strictly left.
pub open spec fn left_turns_from(c: Seq<Point>, start: int) -> bool {
    forall|i: int| start + 2 <= i < c.len() ==> cross(c[i - 2], c[i - 1], #[trigger] c[i]) > 0
}

/// A scan step leaves at least one point and never touches the chain
/// below the barrier.
proof fn lemma_chain_step_shape(chain: Seq<Point>, p: Point, barrier: int)
    requires
        0 <= barrier,
    ensures
        chain_step(chain, p, barrier).len() >= 1,
        chain.len() >= barrier ==> chain_step(chain, p, barrier).len() >= barrier + 1,
        chain.len() >= barrier ==> chain_step(chain, p, barrier).take(barrier) == chain.take(
            barrier,
        ),
    decreases chain.len(),
{
    if chain.len() > barrier && chain.len() >= 2 && cross(
        chain[chain.len() - 2],
        chain[chain.len() - 1],
        p,
    ) <= 0 {
        lemma_chain_step_shape(chain.drop_last(), p, barrier);
        if chain.len() >= barrier {
            assert(chain.drop_last().take(barrier) =~= chain.take(barrier));
        }
    } else {
        if chain.len() >= barrier {
            assert(chain.push(p).take(barrier) =~= chain.take(barrier));
        }
    }
}

/// One scan step keeps all strict left turns above the barrier: pops
/// only shorten the chain, and a push above the barrier happens only
/// after the turn it closes was tested.
proof fn lemma_chain_step_turns(chain: Seq<Point>, p: Point, barrier: int)
    requires
        barrier >= 1,
        left_turns_from(chain, barrier - 1),
    ensures
        left_turns_from(chain_step(chain, p, barrier), barrier - 1),
    decreases chain.len(),
{
    if chain.len() > barrier && chain.len() >= 2 && cross(
        chain[chain.len() - 2],
        chain[chain.len() - 1],
        p,
    ) <= 0 {
        assert(left_turns_from(chain.drop_last(), barrier - 1));
        lemma_chain_step_turns(chain.drop_last(), p, barrier);
    } else {
        let c2 = chain.push(p);
        assert forall|i: int| barrier + 1 <= i < c2.len() implies cross(
            c2[i - 2],
            c2[i - 1],
            #[trigger] c2[i],
        ) > 0 by {
            if i < chain.len() {
                assert(c2[i] == chain[i] && c2[i - 1] == chain[i - 1] && c2[i - 2] == chain[i
                    - 2]);
            } else {
                assert(c2[i] == p);
                assert(c2[i - 1] == chain[chain.len() - 1] && c2[i - 2] == chain[chain.len()
                    - 2]);
            }
        }
    }
}

/// Every consecutive vertex triple of the lower chain turns strictly
/// left: the scan pops until the turn it is about to close is strict.
pub proof fn lemma_lower_chain_turns(s: Seq<Point>, n: int)
    ensures
        left_turns_from(lower_upto(s, n), 0),
        n >= 1 ==> lower_upto(s, n).len() >= 1,
    decreases n,
{
    if n > 0 {
        lemma_lower_chain_turns(s, n - 1);
        lemma_chain_step_turns(lower_upto(s, n - 1), s[n - 1], 1);
        lemma_chain_step_shape(lower_upto(s, n - 1), s[n - 1], 1);
    }
}

/// The reverse pass keeps the finished lower chain as a prefix and
/// closes only strict left turns above it.
proof fn lemma_upper_chain_turns(s: Seq<Point>, lo: Seq<Point>, cnt: int)
    requires
        lo.len() >= 1,
    ensures
        left_turns_from(upper_upto(s, lo, cnt), lo.len() - 1),
        upper_upto(s, lo, cnt).len() >= lo.len(),
        upper_upto(s, lo, cnt).take(lo.len() as int) == lo,
    decreases cnt,
{
    if cnt <= 0 {
        assert(lo.take(lo.len() as int) =~= lo);
    } else {
        lemma_upper_chain_turns(s, lo, cnt - 1);
        let prev = upper_upto(s, lo, cnt - 1);
        lemma_chain_step_turns(prev, s[s.len() - cnt], lo.len() as int);
        lemma_chain_step_shape(prev, s[s.len() - cnt], lo.len() as int);
        assert(chain_step(prev, s[s.len() - cnt], lo.len() as int).take(lo.len() as int)
            == prev.take(lo.len() as int));
    }
}

proof fn lemma_insert_sorted_len(s: Seq<Point>, p: Point)
    ensures
        insert_sorted(s, p).len() == s.len() + 1,
    decreases s.len(),
{
    if s.len() > 0 && lex_lt(s[0], p) {
        lemma_insert_sorted_len(s.drop_first(), p);
    }
}

proof fn lemma_sort_upto_len(s: Seq<Point>, n: int)
    requires
        0 <= n <= s.len(),
    ensures
        sort_upto(s, n).len() == n,
    decreases n,
{
    if n > 0 {
        lemma_sort_upto_len(s, n - 1);
        lemma_insert_sorted_len(sort_upto(s, n - 1), s[n - 1]);
    }
}

/// Convexity of the produced chain away from the seam: in the hull the
/// monotone-chain scan returns, every consecutive vertex triple turns
/// strictly left, except possibly the one triple at the index where the
/// reverse pass rejoins the lower chain; the two wrap-around triples of
/// the implicitly closed polygon are outside this statement.
pub proof fn lemma_andrew_spec_turns(s: Seq<Point>)
    requires
        s.len() >= 3,
        three_distinct(s),
    ensures
        ({
            let so = sorted_points(s);
            let lower_len = lower_upto(so, so.len() as int).len() as int;
            let r = andrew_spec(s);
            forall|i: int|
                2 <= i < r.len() && i != lower_len ==> cross(r[i - 2], r[i - 1], #[trigger] r[i])
                    > 0
        }),
{
    let so = sorted_points(s);
    let n = so.len() as int;
    lemma_sort_upto_len(s, s.len() as int);
    let lo = lower_upto(so, n);
    lemma_lower_chain_turns(so, n);
    lemma_upper_chain_turns(so, lo, n);
    let full = upper_upto(so, lo, n);
    let r = andrew_spec(s);
    assert(r == full.drop_last());
    assert forall|i: int| 2 <= i < r.len() && i != lo.len() implies cross(
        r[i - 2],
        r[i - 1],
        #[trigger] r[i],
    ) > 0 by {
        assert(r[i] == full[i] && r[i - 1] == full[i - 1] && r[i - 2] == full[i - 2]);
        if i < lo.len() {
            assert(full.take(lo.len() as int) == lo);
            assert(full[i] == lo[i] && full[i - 1] == lo[i - 1] && full[i - 2] == lo[i - 2]);
            assert(left_turns_from(lo, 0));
        } else {
            assert(i >= lo.len() + 1);
            assert(left_turns_from(full, lo.len() - 1));
        }
    }
}

/// Exec mirror of `lex_lt`.
fn lex_less(a: Point, b: Point) -> (r: bool)
    ensures
        r == lex_lt(a, b),
{
    a.x < b.x || (a.x == b.x && a.y < b.y)
}

/// Inserting at the first position whose entry does not fall below `p`
/// is what `insert_sorted` does.
proof fn lemma_insert_at(s: Seq<Point>, p: Point, pos: int)
    requires
        0 <= pos <= s.len(),
        forall|k: int| 0 <= k < pos ==> lex_lt(#[trigger] s[k], p),
        pos < s.len() ==> !lex_lt(s[pos], p),
    ensures
        insert_sorted(s, p) == s.insert(pos, p),
    decreases s.len(),
{
    if s.len() == 0 {
        assert(insert_sorted(s, p) =~= s.insert(0, p));
    } else if pos == 0 {
        assert(insert_sorted(s, p) =~= s.insert(0, p));
    } else {
        let d = s.drop_first();
        assert(forall|k: int| 0 <= k < pos - 1 ==> lex_lt(#[trigger] d[k], p));
        lemma_insert_at(d, p, pos - 1);
        assert(insert_sorted(s, p) =~= s.insert(pos, p));
    }
}

/// Insertion sort by x ascending, ties by y ascending: returns exactly
/// `sorted_points` of the input, which rearranges the input multiset
/// into sorted order. Points carry no identity beyond their
/// coordinates, so stability is immaterial.
pub(crate) fn sort_points(v: &Vec<Point>) -> (r: Vec<Point>)
    ensures
        r@ == sorted_points(v@),
        r@.len() == v@.len(),
        sorted_lex(r@),
        r@.to_multiset() == v@.to_multiset(),
        forall|k: int| 0 <= k < r@.len() ==> v@.contains(#[trigger] r@[k]),
        forall|k: int| 0 <= k < v@.len() ==> r@.contains(#[trigger] v@[k]),
{
    let mut r: Vec<Point> = Vec::new();
    let mut i: usize = 0;
    proof {
        assert(v@.take(0) =~= Seq::<Point>::empty());
    }
    while i < v.len()
        invariant
            i <= v@.len(),
            r@.len() == i,
            r@ == sort_upto(v@, i as int),
            sorted_lex(r@),
            r@.to_multiset() == v@.take(i as int).to_multiset(),
        decreases v@.len() - i,
    {
        let x = v[i];
        let mut p: usize = 0;
        while p < r.len() && lex_less(r[p], x)
            invariant
                p <= r@.len(),
                sorted_lex(r@),
                forall|k: int| 0 <= k < p ==> lex_lt(#[trigger] r@[k], x),
            decreases r@.len() - p,
        {
            p = p + 1;
        }
        let ghost old_r = r@;
        r.insert(p, x);
        proof {
            lemma_insert_at(old_r, x, p as int);
            assert(r@ == old_r.insert(p as int, x));
            assert forall|a: int, b: int| 0 <= a < b < r@.len() implies lex_le(
                #[trigger] r@[a],
                #[trigger] r@[b],
            ) by {
                assert(forall|k: int| 0 <= k < old_r.len() && k < p ==> r@[k] == old_r[k]);
                assert(forall|k: int| p <= k < old_r.len() ==> r@[k + 1] == old_r[k]);
            }
            assert(old_r.insert(p as int, x).to_multiset() == old_r.to_multiset().insert(x));
            assert(v@.take(i + 1 as int) =~= v@.take(i as int).push(v@[i as int]));
            assert((v@.take(i as int).push(v@[i as int])).to_multiset() == v@.take(
                i as int,
            ).to_multiset().insert(v@[i as int]));
        }
        i = i + 1;
    }
    proof {
        assert(v@.take(i as int) =~= v@);
        assert forall|k: int| 0 <= k < r@.len() implies v@.contains(#[trigger] r@[k]) by {
            assert(r@.to_multiset().count(r@[k]) > 0);
        }
        assert forall|k: int| 0 <= k < v@.len() implies r@.contains(#[trigger] v@[k]) by {
            assert(v@.to_multiset().count(v@[k]) > 0);
        }
    }
    r
}

/// Convex hull by monotone chain: exactly the `andrew_spec` scan of the
/// input, which lists the hull counter-clockwise starting from the
/// point least by x (ties by y), collinear points removed, without a
/// repeated closing vertex. Fewer than three distinct points pass
/// through unchanged.
pub fn andrew(pointset: &Vec<Point>) -> (r: Vec<Point>)
    requires
        in_range_seq(pointset@),
    ensures
        r@ == andrew_spec(pointset@),
        pointset@.len() < 3 || !three_distinct(pointset@) ==> r@
            == pointset@,
        forall|k: int| 0 <= k < r@.len() ==> pointset@.contains(#[trigger] r@[k]),
        pointset@.len() >= 1 ==> r@.len() >= 1,
        pointset@.len() >= 3 && three_distinct(pointset@) ==> r@.len() >= 2
            && is_lex_min(pointset@, r@[0]),
{
    let n = pointset.len();
    if n < 3 {
        return copy_points(pointset);
    }
    if !has_three_distinct(pointset) {
        return copy_points(pointset);
    }
    let sorted = sort_points(pointset);
    let mut hull: Vec<Point> = Vec::new();
    let mut i: usize = 0;
    while i < n
        invariant
            i <= n,
            n == pointset@.len() == sorted@.len(),
            n >= 3,
            in_range_seq(pointset@),
            in_range_seq(sorted@),
            forall|k: int| 0 <= k < sorted@.len() ==> pointset@.contains(#[trigger] sorted@[k]),
            hull@ == lower_upto(sorted@, i as int),
            hull@.len() <= i,
            i >= 1 ==> hull@.len() >= 1,
            i >= 2 ==> hull@.len() >= 2,
            hull@.len() >= 1 ==> hull@[0] == sorted@[0],
            in_range_seq(hull@),
            forall|k: int| 0 <= k < hull@.len() ==> pointset@.contains(#[trigger] hull@[k]),
        decreases n - i,
    {
        let ghost entry = hull@;
        let cand = sorted[i];
        while hull.len() >= 2 && cross2d(hull[hull.len() - 2], hull[hull.len() - 1], cand) <= 0
            invariant
                i < n,
                n == sorted@.len(),
                cand == sorted@[i as int],
                in_range_seq(sorted@),
                in_range(cand),
                in_range_seq(hull@),
                chain_step(hull@, cand, 1) == chain_step(entry, cand, 1),
                hull@.len() <= i,
                i >= 1 ==> hull@.len() >= 1,
                hull@.len() >= 1 ==> hull@[0] == sorted@[0],
                forall|k: int| 0 <= k < hull@.len() ==> pointset@.contains(#[trigger] hull@[k]),
            decreases hull@.len(),
        {
            hull.pop();
        }
        hull.push(cand);
        proof {
            assert(hull@ == chain_step(entry, cand, 1));
        }
        i = i + 1;
    }
    let lower = hull.len();
    let ghost lo = hull@;
    let mut j: usize = n;
    while j > 0
        invariant
            j <= n,
            n == pointset@.len() == sorted@.len(),
            n >= 3,
            in_range_seq(pointset@),
            in_range_seq(sorted@),
            forall|k: int| 0 <= k < sorted@.len() ==> pointset@.contains(#[trigger] sorted@[k]),
            2 <= lower,
            lower == lo.len(),
            lo == lower_upto(sorted@, n as int),
            hull@ == upper_upto(sorted@, lo, (n - j) as int),
            lower <= hull@.len(),
            j < n ==> lower + 1 <= hull@.len(),
            hull@[0] == sorted@[0],
            in_range_seq(hull@),
            forall|k: int| 0 <= k < hull@.len() ==> pointset@.contains(#[trigger] hull@[k]),
        decreases j,
    {
        j = j - 1;
        let ghost entry = hull@;
        let cand = sorted[j];
        while hull.len() > lower && cross2d(hull[hull.len() - 2], hull[hull.len() - 1], cand) <= 0
            invariant
                j < n,
                n == sorted@.len(),
                cand == sorted@[j as int],
                in_range_seq(sorted@),
                in_range(cand),
                in_range_seq(hull@),
                2 <= lower,
                lower == lo.len(),
                chain_step(hull@, cand, lower as int) == chain_step(entry, cand, lower as int),
                lower <= hull@.len(),
                hull@[0] == sorted@[0],
                forall|k: int| 0 <= k < hull@.len() ==> pointset@.contains(#[trigger] hull@[k]),
            decreases hull@.len(),
        {
            hull.pop();
        }
        hull.push(cand);
        proof {
            assert(hull@ == chain_step(entry, cand, lower as int));
            assert(n - (j + 1) >= 0);
            assert(sorted@[j as int] == sorted@[sorted@.len() - (n - j)]);
        }
    }
    hull.pop();
    proof {
        let s0 = sorted@[0];
        assert(pointset@.contains(s0));
        assert forall|k: int| 0 <= k < pointset@.len() implies lex_le(
            s0,
            #[trigger] pointset@[k],
        ) by {
            assert(sorted@.contains(pointset@[k]));
            let w = choose|w: int| 0 <= w < sorted@.len() && sorted@[w] == pointset@[k];
            if w > 0 {
                assert(lex_le(sorted@[0], sorted@[w]));
            }
        }
    }
    hull
}

} // verus!
