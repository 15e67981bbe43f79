//! Shared geometric primitives: the orientation test, squared distance,
//! the octagon membership test of the Akl-Toussaint filter, and the
//! shoelace area of a polygon.

use vstd::prelude::*;

verus! {

/// A planar point. Coordinates are exact integers; a coordinate stands for
/// one unit on a uniform grid fine enough for the caller's data (callers
/// with fractional data scale it onto the grid before building points).
#[derive(Clone, Copy, PartialEq, Eq, Structural, Debug)]
pub struct Point {
    pub x: i64,
    pub y: i64,
}

/// Largest coordinate magnitude the primitives accept, 2^53.
///
/// Every value of magnitude at most 2^53 is also exactly representable as
/// an IEEE double, so rendering front ends can convert coordinates without
/// rounding; and with coordinates bounded by 2^53 every cross product fits
/// comfortably in an `i128`.
pub const COORD_LIMIT: i64 = 0x20_0000_0000_0000;

/// Longest polygon `area` accepts, 2^18 vertices: keeps the running
/// shoelace sum below `i128::MAX`.
pub const MAX_AREA_LEN: usize = 0x40000;

/// The point has both coordinates within `COORD_LIMIT`.
pub open spec fn in_range(p: Point) -> bool {
    &&& -COORD_LIMIT <= p.x <= COORD_LIMIT
    &&& -COORD_LIMIT <= p.y <= COORD_LIMIT
}

/// Every point of the sequence is within `COORD_LIMIT`.
pub open spec fn in_range_seq(s: Seq<Point>) -> bool {
    forall|i: int| 0 <= i < s.len() ==> in_range(#[trigger] s[i])
}

/// The sequence holds at least three pairwise distinct points. With
/// fewer, no hull is computable and every algorithm returns its input
/// unchanged.
pub open spec fn three_distinct(s: Seq<Point>) -> bool {
    exists|i: int, j: int, k: int|
        0 <= i < s.len() && 0 <= j < s.len() && 0 <= k < s.len() && #[trigger] s[i]
            != #[trigger] s[j] && s[i] != #[trigger] s[k] && s[j] != s[k]
}

/// Two linear passes deciding `three_distinct`: find a point differing
/// from the first, then one differing from both.
pub(crate) fn has_three_distinct(v: &Vec<Point>) -> (r: bool)
    ensures
        r == three_distinct(v@),
{
    let n = v.len();
    if n == 0 {
        return false;
    }
    let u = v[0];
    let mut w = u;
    let mut j: usize = 0;
    while j < n && w == u
        invariant
            j <= n,
            n == v@.len(),
            u == v@[0],
            w == u ==> forall|k: int| 0 <= k < j ==> v@[k] == u,
            w != u ==> v@.contains(w),
        decreases n - j, (if w == u { 1int } else { 0int }),
    {
        if v[j] != u {
            w = v[j];
        } else {
            j = j + 1;
        }
    }
    if w == u {
        proof {
            assert(forall|k: int| 0 <= k < v@.len() ==> v@[k] == u);
        }
        return false;
    }
    let mut k: usize = 0;
    while k < n
        invariant
            k <= n,
            n == v@.len(),
            u == v@[0],
            w != u,
            v@.contains(w),
            forall|i: int| 0 <= i < k ==> v@[i] == u || #[trigger] v@[i] == w,
        decreases n - k,
    {
        if v[k] != u && v[k] != w {
            proof {
                let wi = choose|wi: int| 0 <= wi < v@.len() && v@[wi] == w;
                assert(v@[0] != v@[wi] && v@[0] != v@[k as int] && v@[wi] != v@[k as int]);
            }
            return true;
        }
        k = k + 1;
    }
    proof {
        assert(forall|i: int| 0 <= i < v@.len() ==> v@[i] == u || #[trigger] v@[i] == w);
    }
    false
}

/// Signed cross product of `(a - o)` and `(b - o)`: positive when `o, a, b`
/// turn left (counter-clockwise), negative on a right turn, zero when
/// collinear.
pub open spec fn cross(o: Point, a: Point, b: Point) -> int {
    (a.x - o.x) * (b.y - o.y) - (a.y - o.y) * (b.x - o.x)
}

/// Squared euclidean distance between `a` and `b`.
pub open spec fn sq_dist(a: Point, b: Point) -> int {
    (a.x - b.x) * (a.x - b.x) + (a.y - b.y) * (a.y - b.y)
}

/// Linear functional placing `p` relative to the directed line `p1 -> p2`;
/// positive on the right-hand side. This is the octagon filter's side test.
pub open spec fn side_val(p1: Point, p2: Point, p: Point) -> int {
    (p2.y - p1.y) * (p.x - p1.x) + (p1.x - p2.x) * (p.y - p1.y)
}

proof fn lemma_mul_bound(x: int, y: int, m: int)
    requires
        0 <= m,
        -m <= x <= m,
        -m <= y <= m,
    ensures
        -(m * m) <= x * y <= m * m,
{
    assert(-(m * m) <= x * y <= m * m) by (nonlinear_arith)
        requires
            0 <= m,
            -m <= x <= m,
            -m <= y <= m,
    ;
}

/// Exact orientation test. Returns the signed magnitude of the cross
/// product of `(a - o)` and `(b - o)`.
pub fn cross2d(o: Point, a: Point, b: Point) -> (r: i128)
    requires
        in_range(o),
        in_range(a),
        in_range(b),
    ensures
        r == cross(o, a, b),
{
    let ax = a.x as i128 - o.x as i128;
    let ay = a.y as i128 - o.y as i128;
    let bx = b.x as i128 - o.x as i128;
    let by = b.y as i128 - o.y as i128;
    proof {
        lemma_mul_bound(ax as int, by as int, 0x40_0000_0000_0000);
        lemma_mul_bound(ay as int, bx as int, 0x40_0000_0000_0000);
    }
    ax * by - ay * bx
}

/// Exact squared distance between `a` and `b`; used only to break ties
/// among collinear hull candidates.
pub fn dist2(a: Point, b: Point) -> (r: i128)
    requires
        in_range(a),
        in_range(b),
    ensures
        r == sq_dist(a, b),
{
    let dx = a.x as i128 - b.x as i128;
    let dy = a.y as i128 - b.y as i128;
    proof {
        lemma_mul_bound(dx as int, dx as int, 0x40_0000_0000_0000);
        lemma_mul_bound(dy as int, dy as int, 0x40_0000_0000_0000);
    }
    dx * dx + dy * dy
}

/// Exact side test of `p` against the directed line `p1 -> p2`.
pub fn side(p1: Point, p2: Point, p: Point) -> (r: i128)
    requires
        in_range(p1),
        in_range(p2),
        in_range(p),
    ensures
        r == side_val(p1, p2, p),
{
    let ey = p2.y as i128 - p1.y as i128;
    let px = p.x as i128 - p1.x as i128;
    let ex = p1.x as i128 - p2.x as i128;
    let py = p.y as i128 - p1.y as i128;
    proof {
        lemma_mul_bound(ey as int, px as int, 0x40_0000_0000_0000);
        lemma_mul_bound(ex as int, py as int, 0x40_0000_0000_0000);
    }
    ey * px + ex * py
}

/// Element-wise copy of a point buffer; the degenerate pass-through path
/// of every hull algorithm returns its input this way.
pub(crate) fn copy_points(v: &Vec<Point>) -> (r: Vec<Point>)
    ensures
        r@ == v@,
{
    let mut r: Vec<Point> = Vec::new();
    let mut i: usize = 0;
    while i < v.len()
        invariant
            i <= v@.len(),
            r@ == v@.take(i as int),
        decreases v@.len() - i,
    {
        r.push(v[i]);
        i = i + 1;
        proof {
            assert(r@ =~= v@.take(i as int));
        }
    }
    proof {
        assert(r@ =~= v@);
    }
    r
}

/// `p` lies strictly inside the octagon: strictly on the positive side of
/// all eight directed edges. The vertex order is the one the filter
/// builds: min-x, min-(x-y), max-y, max-(x+y), max-x, max-(x-y), min-y,
/// min-(x+y).
pub open spec fn in_octagon(oct: Seq<Point>, p: Point) -> bool
    recommends
        oct.len() == 8,
{
    &&& side_val(oct[0], oct[1], p) > 0
    &&& side_val(oct[2], oct[3], p) > 0
    &&& side_val(oct[4], oct[5], p) > 0
    &&& side_val(oct[6], oct[7], p) > 0
    &&& side_val(oct[1], oct[2], p) > 0
    &&& side_val(oct[3], oct[4], p) > 0
    &&& side_val(oct[5], oct[6], p) > 0
    &&& side_val(oct[7], oct[0], p) > 0
}

/// Strict membership test of `p` in the octagon spanned by the eight
/// directional extremes. Opposite edge pairs are compared first, so that
/// clearly outside points fail fast.
pub fn point_in_octagon(octagon: [Point; 8], p: Point) -> (r: bool)
    requires
        in_range_seq(octagon@),
        in_range(p),
    ensures
        r == in_octagon(octagon@, p),
{
    side(octagon[0], octagon[1], p) > 0
        && side(octagon[2], octagon[3], p) > 0
        && side(octagon[4], octagon[5], p) > 0
        && side(octagon[6], octagon[7], p) > 0
        && side(octagon[1], octagon[2], p) > 0
        && side(octagon[3], octagon[4], p) > 0
        && side(octagon[5], octagon[6], p) > 0
        && side(octagon[7], octagon[0], p) > 0
}

/// Clockwise test: `a` lies strictly clockwise of `b` as seen from `o`.
fn cw(o: Point, a: Point, b: Point) -> (r: bool)
    requires
        in_range(o),
        in_range(a),
        in_range(b),
    ensures
        r == (cross(o, a, b) > 0),
{
    cross2d(o, a, b) > 0
}

/// Counter-clockwise test: `a` lies strictly counter-clockwise of `b` as
/// seen from `o`.
fn ccw(o: Point, a: Point, b: Point) -> (r: bool)
    requires
        in_range(o),
        in_range(a),
        in_range(b),
    ensures
        r == (cross(o, a, b) < 0),
{
    cross2d(o, a, b) < 0
}

/// The cyclic list rotated by one: the repair applied when the query
/// point is the list's first vertex.
pub open spec fn rotate_one(poly: Seq<Point>) -> Seq<Point> {
    poly.subrange(1, poly.len() as int) + seq![poly[1]]
}

/// The binary search of the tangent, from the candidate range `[a, b]`
/// with `fuel` steps left: answer the successor on meeting `p` itself,
/// answer a local maximum of the angular order around `p`, otherwise
/// halve the range; out of fuel (which a convex polygon never causes),
/// fall back to the first vertex.
pub open spec fn tangent_search(p: Point, poly: Seq<Point>, a: int, b: int, fuel: int) -> Point
    recommends
        poly.len() >= 3,
        0 <= a <= b <= poly.len() - 1,
    decreases fuel,
{
    if fuel <= 0 {
        poly[0]
    } else {
        let c = a + (b - a) / 2;
        if poly[c] == p {
            poly[c + 1]
        } else {
            let cw_c = cross(p, poly[c + 1], poly[c]) < 0;
            if cw_c && c == 0 {
                poly[0]
            } else if cw_c && !(cross(p, poly[c - 1], poly[c]) > 0) {
                poly[c]
            } else {
                let ccw_a = cross(p, poly[a + 1], poly[a]) > 0;
                if ccw_a {
                    if cw_c {
                        tangent_search(p, poly, a, c, fuel - 1)
                    } else if cross(p, poly[a], poly[c]) > 0 {
                        tangent_search(p, poly, a, c, fuel - 1)
                    } else {
                        tangent_search(p, poly, c, b, fuel - 1)
                    }
                } else {
                    if !cw_c {
                        tangent_search(p, poly, c, b, fuel - 1)
                    } else if cross(p, poly[a], poly[c]) < 0 {
                        tangent_search(p, poly, a, c, fuel - 1)
                    } else {
                        tangent_search(p, poly, c, b, fuel - 1)
                    }
                }
            }
        }
    }
}

/// The tangent answered on an already normalized cyclic list (the query
/// point is not the first vertex): the first vertex when it is already
/// a local maximum, otherwise the binary search over the whole range,
/// with one fuel unit per vertex.
pub open spec fn tangent_from(p: Point, poly: Seq<Point>) -> Point
    recommends
        poly.len() >= 3,
{
    let n = poly.len() - 1;
    if cross(p, poly[1], poly[0]) < 0 && !(cross(p, poly[n - 1], poly[0]) > 0) {
        poly[0]
    } else {
        tangent_search(p, poly, 0, n as int, poly.len() as int)
    }
}

/// The vertex `tangent` answers: a two-entry list answers its first
/// entry, and a list starting with `p` itself is rotated by one first.
pub open spec fn tangent_spec(p: Point, poly: Seq<Point>) -> Point
    recommends
        poly.len() >= 2,
{
    if poly.len() == 2 {
        poly[0]
    } else if poly[0] == p {
        tangent_from(p, rotate_one(poly))
    } else {
        tangent_from(p, poly)
    }
}

/// Supporting tangent from the external point `p` to the convex cyclic
/// polygon `poly` (first vertex repeated at the end), by binary search
/// for the vertex that is a local maximum in the angular order around
/// `p`. A two-entry list is a single edge and answers immediately. When
/// `p` is the first vertex, the list is first rotated by one so that the
/// search never compares `p` against itself; the rotation keeps the list
/// cyclic and costs one linear pass. The search runs at most one step
/// per vertex: a convex polygon yields long before that, and the bound
/// keeps a malformed polygon (a convexity violation upstream) from
/// cycling, answering the first vertex instead.
pub fn tangent(p: Point, poly: &mut Vec<Point>) -> (t: Point)
    requires
        in_range(p),
        in_range_seq(old(poly)@),
        old(poly)@.len() >= 2,
    ensures
        final(poly)@.len() == old(poly)@.len(),
        in_range_seq(final(poly)@),
        forall|k: int|
            0 <= k < final(poly)@.len() ==> old(poly)@.contains(#[trigger] final(poly)@[k]),
        old(poly)@.contains(t),
        old(poly)@.len() == 2 ==> final(poly)@ == old(poly)@,
        old(poly)@.len() > 2 && old(poly)@[0] != p ==> final(poly)@ == old(poly)@,
        old(poly)@.len() > 2 && old(poly)@[0] == p ==> final(poly)@ == rotate_one(old(poly)@),
        t == tangent_spec(p, old(poly)@),
{
    let len = poly.len();
    if len == 2 {
        return poly[0];
    }
    if poly[0] == p {
        let first = poly[1];
        let mut i: usize = 0;
        while i < len - 1
            invariant
                i <= len - 1,
                len == poly@.len(),
                len >= 3,
                first == old(poly)@[1],
                forall|k: int| 0 <= k < i ==> poly@[k] == old(poly)@[k + 1],
                forall|k: int| i <= k < len ==> poly@[k] == old(poly)@[k],
            decreases len - 1 - i,
        {
            let next = poly[i + 1];
            poly[i] = next;
            i = i + 1;
        }
        poly[len - 1] = first;
        proof {
            assert forall|k: int| 0 <= k < poly@.len() implies old(poly)@.contains(
                #[trigger] poly@[k],
            ) by {
                if k < len - 1 {
                    assert(poly@[k] == old(poly)@[k + 1]);
                } else {
                    assert(poly@[k] == old(poly)@[1]);
                }
            }
            assert(poly@ =~= rotate_one(old(poly)@));
        }
    }
    let n = len - 1;
    if ccw(p, poly[1], poly[0]) && !cw(p, poly[n - 1], poly[0]) {
        return poly[0];
    }
    let mut a: usize = 0;
    let mut b: usize = n;
    let mut fuel: usize = len;
    while fuel > 0
        invariant
            len == poly@.len(),
            poly@.len() == old(poly)@.len(),
            len >= 3,
            n == len - 1,
            a <= b,
            b <= n,
            a <= n - 1,
            in_range(p),
            in_range_seq(poly@),
            forall|k: int| 0 <= k < poly@.len() ==> old(poly)@.contains(#[trigger] poly@[k]),
            old(poly)@[0] != p ==> poly@ == old(poly)@,
            old(poly)@[0] == p ==> poly@ == rotate_one(old(poly)@),
            !(cross(p, poly@[1], poly@[0]) < 0 && !(cross(p, poly@[n - 1], poly@[0]) > 0)),
            tangent_search(p, poly@, a as int, b as int, fuel as int) == tangent_from(p, poly@),
        decreases fuel,
    {
        let ghost a0 = a as int;
        let ghost b0 = b as int;
        let ghost f0 = fuel as int;
        let c = a + (b - a) / 2;
        if poly[c] == p {
            // meeting p itself, the next vertex is the tangent, the
            // polygon being convex
            return poly[c + 1];
        }
        let cw_c = ccw(p, poly[c + 1], poly[c]);
        if cw_c {
            if c == 0 {
                // the predecessor comparison would leave the range: the
                // polygon was not convex; yield the first vertex
                return poly[0];
            }
            if !cw(p, poly[c - 1], poly[c]) {
                return poly[c];
            }
        }
        let ccw_a = cw(p, poly[a + 1], poly[a]);
        if ccw_a {
            if cw_c {
                b = c;
            } else {
                if cw(p, poly[a], poly[c]) {
                    b = c;
                } else {
                    a = c;
                }
            }
        } else {
            if !cw_c {
                a = c;
            } else {
                if ccw(p, poly[a], poly[c]) {
                    b = c;
                } else {
                    a = c;
                }
            }
        }
        fuel = fuel - 1;
        proof {
            assert(tangent_search(p, poly@, a as int, b as int, fuel as int) == tangent_search(
                p,
                poly@,
                a0,
                b0,
                f0,
            ));
        }
    }
    poly[0]
}

/// Doubled shoelace term of the edge from vertex `i` to its cyclic
/// successor.
pub open spec fn shoelace_term(s: Seq<Point>, i: int) -> int {
    let j = if i + 1 == s.len() { 0 } else { i + 1 };
    (s[i].y + s[j].y) * (s[i].x - s[j].x)
}

/// Sum of the first `n` doubled shoelace terms.
pub open spec fn shoelace_sum(s: Seq<Point>, n: int) -> int
    decreases n,
{
    if n <= 0 {
        0
    } else {
        shoelace_sum(s, n - 1) + shoelace_term(s, n - 1)
    }
}

/// Twice the signed area of the implicitly closed polygon `s`: positive
/// when the vertices run counter-clockwise.
pub open spec fn doubled_area(s: Seq<Point>) -> int {
    shoelace_sum(s, s.len() as int)
}

/// Twice the signed area of the implicitly closed polygon, by the shoelace
/// formula. The doubled value is returned so that the result stays an
/// exact integer; halving it would lose the odd half-unit that lattice
/// polygons can carry.
pub fn area(poly: &Vec<Point>) -> (r: i128)
    requires
        in_range_seq(poly@),
        poly@.len() <= MAX_AREA_LEN,
    ensures
        r == doubled_area(poly@),
{
    let n = poly.len();
    let mut sum: i128 = 0;
    let mut i: usize = 0;
    while i < n
        invariant
            i <= n,
            n == poly@.len(),
            n <= MAX_AREA_LEN,
            in_range_seq(poly@),
            sum == shoelace_sum(poly@, i as int),
            -(0x1000_0000_0000_0000_0000_0000_0000 * (i as int)) <= sum
                <= 0x1000_0000_0000_0000_0000_0000_0000 * (i as int),
        decreases n - i,
    {
        let j = if i + 1 == n {
            0
        } else {
            i + 1
        };
        let yy = poly[i].y as i128 + poly[j].y as i128;
        let xx = poly[i].x as i128 - poly[j].x as i128;
        proof {
            lemma_mul_bound(yy as int, xx as int, 0x40_0000_0000_0000);
        }
        sum = sum + yy * xx;
        i = i + 1;
    }
    sum
}

} // verus!
