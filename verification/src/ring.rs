use vstd::prelude::*;

use crate::geom::{cross, cross_i, lemma_mul_bound, Point};

verus! {

/// Index of the vertex after `i` on a ring of `n` vertices.
pub open spec fn next_idx(n: int, i: int) -> int {
    if i + 1 < n {
        i + 1
    } else {
        0
    }
}

/// `c` lies in the closed interval spanned by `a` and `b`.
pub open spec fn between(a: int, b: int, c: int) -> bool {
    (a <= c && c <= b) || (b <= c && c <= a)
}

/// Dot product of the edge vectors (a - b) and (c - b).
pub open spec fn dot_at(b: Point, a: Point, c: Point) -> int {
    (a.x - b.x) * (c.x - b.x) + (a.y - b.y) * (c.y - b.y)
}

/// `p` lies on the closed segment from `a` to `b`.
pub open spec fn on_segment(a: Point, b: Point, p: Point) -> bool {
    cross(a, b, p) == 0 && between(a.x as int, b.x as int, p.x as int) && between(
        a.y as int,
        b.y as int,
        p.y as int,
    )
}

/// The closed segments (p1, p2) and (q1, q2) share at least one point: either
/// they cross properly (each segment's endpoints lie strictly on opposite
/// sides of the other's line), or some endpoint lies on the other segment.
pub open spec fn segs_intersect(p1: Point, p2: Point, q1: Point, q2: Point) -> bool {
    let d1 = cross(q1, q2, p1);
    let d2 = cross(q1, q2, p2);
    let d3 = cross(p1, p2, q1);
    let d4 = cross(p1, p2, q2);
    ((d1 > 0 && d2 < 0) || (d1 < 0 && d2 > 0)) && ((d3 > 0 && d4 < 0) || (d3 < 0 && d4 > 0))
        || on_segment(q1, q2, p1) || on_segment(q1, q2, p2) || on_segment(p1, p2, q1)
        || on_segment(p1, p2, q2)
}

/// No vertex value repeats on the ring.
pub open spec fn vertices_distinct(r: Seq<Point>) -> bool {
    forall|i: int, j: int| #![trigger r[i], r[j]] 0 <= i < j < r.len() ==> r[i] != r[j]
}

/// At no vertex does the outgoing edge fold back onto the incoming edge:
/// consecutive edges may only meet at their shared vertex.
pub open spec fn no_foldback(r: Seq<Point>) -> bool {
    forall|i: int| #![trigger r[i]]
        0 <= i < r.len() ==> {
            let n = r.len() as int;
            let a = r[i];
            let b = r[next_idx(n, i)];
            let c = r[next_idx(n, next_idx(n, i))];
            !(cross(a, b, c) == 0 && dot_at(b, a, c) > 0)
        }
}

/// Edges `i < j` of a ring of `n` vertices share a vertex.
pub open spec fn ring_adjacent(n: int, i: int, j: int) -> bool {
    j == i + 1 || (i == 0 && j == n - 1)
}

/// No two non-adjacent edges of the ring share any point.
pub open spec fn edges_disjoint(r: Seq<Point>) -> bool {
    forall|i: int, j: int| #![trigger ring_adjacent(r.len() as int, i, j)]
        0 <= i < j < r.len() && !ring_adjacent(r.len() as int, i, j) ==> {
            let n = r.len() as int;
            !segs_intersect(r[i], r[next_idx(n, i)], r[j], r[next_idx(n, j)])
        }
}

/// The ring is a simple polygon: at least three pairwise distinct vertices,
/// consecutive edges meet only at their shared vertex, and non-adjacent edges
/// do not touch at all.
#[verifier::opaque]
pub open spec fn is_simple_ring(r: Seq<Point>) -> bool {
    r.len() >= 3 && vertices_distinct(r) && no_foldback(r) && edges_disjoint(r)
}

/// Every cyclically consecutive vertex triple makes a strict counter-clockwise
/// turn: the ring is strictly convex with fixed orientation.
#[verifier::opaque]
pub open spec fn is_ccw_convex_ring(r: Seq<Point>) -> bool {
    r.len() >= 3 && forall|i: int| #![trigger r[i]]
        0 <= i < r.len() ==> {
            let n = r.len() as int;
            cross(r[i], r[next_idx(n, i)], r[next_idx(n, next_idx(n, i))]) > 0
        }
}

/// `p` lies inside or on the boundary of the counter-clockwise convex ring.
#[verifier::opaque]
pub open spec fn in_or_on_convex(r: Seq<Point>, p: Point) -> bool {
    forall|i: int| #![trigger r[i]]
        0 <= i < r.len() ==> cross(r[i], r[next_idx(r.len() as int, i)], p) >= 0
}

pub fn next_i(n: usize, i: usize) -> (r: usize)
    requires
        i < n,
    ensures
        r == next_idx(n as int, i as int),
{
    if i + 1 < n {
        i + 1
    } else {
        0
    }
}

fn between_i(a: i32, b: i32, c: i32) -> (r: bool)
    ensures
        r == between(a as int, b as int, c as int),
{
    (a <= c && c <= b) || (b <= c && c <= a)
}

pub fn dot_i(b: Point, a: Point, c: Point) -> (r: i128)
    ensures
        r == dot_at(b, a, c),
{
    let abx: i64 = a.x as i64 - b.x as i64;
    let aby: i64 = a.y as i64 - b.y as i64;
    let cbx: i64 = c.x as i64 - b.x as i64;
    let cby: i64 = c.y as i64 - b.y as i64;
    proof {
        lemma_mul_bound(abx as int, cbx as int, 0x1_0000_0000);
        lemma_mul_bound(aby as int, cby as int, 0x1_0000_0000);
    }
    (abx as i128) * (cbx as i128) + (aby as i128) * (cby as i128)
}

pub fn on_segment_i(a: Point, b: Point, p: Point) -> (r: bool)
    ensures
        r == on_segment(a, b, p),
{
    cross_i(a, b, p) == 0 && between_i(a.x, b.x, p.x) && between_i(a.y, b.y, p.y)
}

pub fn segs_intersect_i(p1: Point, p2: Point, q1: Point, q2: Point) -> (r: bool)
    ensures
        r == segs_intersect(p1, p2, q1, q2),
{
    let d1 = cross_i(q1, q2, p1);
    let d2 = cross_i(q1, q2, p2);
    let d3 = cross_i(p1, p2, q1);
    let d4 = cross_i(p1, p2, q2);
    if ((d1 > 0 && d2 < 0) || (d1 < 0 && d2 > 0)) && ((d3 > 0 && d4 < 0) || (d3 < 0 && d4 > 0)) {
        return true;
    }
    on_segment_i(q1, q2, p1) || on_segment_i(q1, q2, p2) || on_segment_i(p1, p2, q1)
        || on_segment_i(p1, p2, q2)
}

fn check_vertices_distinct(r: &Vec<Point>) -> (b: bool)
    ensures
        b == vertices_distinct(r@),
{
    let n = r.len();
    let mut i: usize = 0;
    while i < n
        invariant
            n == r@.len(),
            i <= n,
            forall|s: int, t: int| #![trigger r@[s], r@[t]] 0 <= s < t < r@.len() && s < i ==> r@[s] != r@[t],
        decreases n - i,
    {
        let mut j: usize = i + 1;
        while j < n
            invariant
                n == r@.len(),
                i < n,
                i + 1 <= j <= n,
                forall|t: int| i < t < j ==> r@[i as int] != r@[t],
            decreases n - j,
        {
            if r[i] == r[j] {
                return false;
            }
            j += 1;
        }
        i += 1;
    }
    true
}

fn check_no_foldback(r: &Vec<Point>) -> (b: bool)
    ensures
        b == no_foldback(r@),
{
    let n = r.len();
    let mut i: usize = 0;
    while i < n
        invariant
            n == r@.len(),
            i <= n,
            forall|s: int| #![trigger r@[s]]
                0 <= s < i ==> {
                    let m = r@.len() as int;
                    !(cross(r@[s], r@[next_idx(m, s)], r@[next_idx(m, next_idx(m, s))]) == 0
                        && dot_at(r@[next_idx(m, s)], r@[s], r@[next_idx(m, next_idx(m, s))]) > 0)
                },
        decreases n - i,
    {
        let i1 = next_i(n, i);
        let i2 = next_i(n, i1);
        let a = r[i];
        let b = r[i1];
        let c = r[i2];
        if cross_i(a, b, c) == 0 && dot_i(b, a, c) > 0 {
            return false;
        }
        i += 1;
    }
    true
}

fn check_edges_disjoint(r: &Vec<Point>) -> (b: bool)
    ensures
        b == edges_disjoint(r@),
{
    let n = r.len();
    let mut i: usize = 0;
    while i < n
        invariant
            n == r@.len(),
            i <= n,
            forall|s: int, t: int| #![trigger ring_adjacent(r@.len() as int, s, t)]
                0 <= s < t < r@.len() && s < i && !ring_adjacent(r@.len() as int, s, t) ==> {
                    let m = r@.len() as int;
                    !segs_intersect(r@[s], r@[next_idx(m, s)], r@[t], r@[next_idx(m, t)])
                },
        decreases n - i,
    {
        let mut j: usize = i + 1;
        while j < n
            invariant
                n == r@.len(),
                i < n,
                i + 1 <= j <= n,
                forall|t: int| #![trigger ring_adjacent(r@.len() as int, i as int, t)]
                    i < t < j && !ring_adjacent(r@.len() as int, i as int, t) ==> {
                        let m = r@.len() as int;
                        !segs_intersect(r@[i as int], r@[next_idx(m, i as int)], r@[t], r@[next_idx(m, t)])
                    },
            decreases n - j,
        {
            let adjacent = j == i + 1 || (i == 0 && j == n - 1);
            if !adjacent {
                let i1 = next_i(n, i);
                let j1 = next_i(n, j);
                if segs_intersect_i(r[i], r[i1], r[j], r[j1]) {
                    proof {
                        assert(ring_adjacent(r@.len() as int, i as int, j as int) == false);
                    }
                    return false;
                }
            }
            j += 1;
        }
        i += 1;
    }
    true
}

/// Decides exactly whether the vertex sequence forms a simple polygon.
pub fn check_simple_ring(r: &Vec<Point>) -> (b: bool)
    ensures
        b == is_simple_ring(r@),
{
    proof {
        reveal(is_simple_ring);
    }
    if r.len() < 3 {
        return false;
    }
    check_vertices_distinct(r) && check_no_foldback(r) && check_edges_disjoint(r)
}

/// Decides exactly whether the ring is strictly convex and counter-clockwise.
pub fn check_ccw_convex(r: &Vec<Point>) -> (b: bool)
    ensures
        b == is_ccw_convex_ring(r@),
{
    proof {
        reveal(is_ccw_convex_ring);
    }
    let n = r.len();
    if n < 3 {
        return false;
    }
    let mut i: usize = 0;
    while i < n
        invariant
            n == r@.len(),
            i <= n,
            n >= 3,
            forall|s: int| #![trigger r@[s]]
                0 <= s < i ==> {
                    let m = r@.len() as int;
                    cross(r@[s], r@[next_idx(m, s)], r@[next_idx(m, next_idx(m, s))]) > 0
                },
        decreases n - i,
    {
        proof {
            reveal(is_ccw_convex_ring);
        }
        let i1 = next_i(n, i);
        let i2 = next_i(n, i1);
        if cross_i(r[i], r[i1], r[i2]) <= 0 {
            return false;
        }
        i += 1;
    }
    true
}

/// Every point of `pts` lies inside or on the convex ring `r`.
#[verifier::opaque]
pub open spec fn all_in_or_on(r: Seq<Point>, pts: Seq<Point>) -> bool {
    forall|j: int| 0 <= j < pts.len() ==> in_or_on_convex(r, #[trigger] pts[j])
}

/// Decides exactly whether every point of `pts` lies inside or on the
/// counter-clockwise convex ring `r`.
#[verifier::rlimit(50)]
pub fn check_all_in_or_on(r: &Vec<Point>, pts: &Vec<Point>) -> (b: bool)
    ensures
        b == all_in_or_on(r@, pts@),
{
    proof {
        reveal(all_in_or_on);
    }
    let m = pts.len();
    let mut j: usize = 0;
    while j < m
        invariant
            m == pts@.len(),
            j <= m,
            forall|t: int| 0 <= t < j ==> in_or_on_convex(r@, #[trigger] pts@[t]),
        decreases m - j,
    {
        if !check_point_in_or_on(r, pts[j]) {
            proof {
                reveal(all_in_or_on);
                assert(!in_or_on_convex(r@, pts@[j as int]));
            }
            return false;
        }
        j += 1;
    }
    true
}

/// Decides exactly whether `p` lies inside or on the counter-clockwise convex
/// ring `r`.
pub fn check_point_in_or_on(r: &Vec<Point>, p: Point) -> (b: bool)
    ensures
        b == in_or_on_convex(r@, p),
{
    proof {
        reveal(in_or_on_convex);
    }
    let n = r.len();
    let mut i: usize = 0;
    while i < n
        invariant
            n == r@.len(),
            i <= n,
            forall|s: int| #![trigger r@[s]]
                0 <= s < i ==> cross(r@[s], r@[next_idx(r@.len() as int, s)], p) >= 0,
        decreases n - i,
    {
        let i1 = next_i(n, i);
        if cross_i(r[i], r[i1], p) < 0 {
            proof {
                reveal(in_or_on_convex);
            }
            return false;
        }
        i += 1;
    }
    true
}

/// Whether the sequence holds the point `p`.
pub fn contains_point(v: &Vec<Point>, p: Point) -> (b: bool)
    ensures
        b == v@.contains(p),
{
    let n = v.len();
    let mut i: usize = 0;
    while i < n
        invariant
            n == v@.len(),
            i <= n,
            forall|t: int| 0 <= t < i ==> v@[t] != p,
        decreases n - i,
    {
        if v[i] == p {
            return true;
        }
        i += 1;
    }
    false
}

/// A copy of `src` with `p` inserted at position `pos`.
pub fn vec_insert_copy(src: &Vec<Point>, pos: usize, p: Point) -> (v: Vec<Point>)
    requires
        pos <= src@.len(),
    ensures
        v@ == src@.insert(pos as int, p),
{
    let mut v: Vec<Point> = Vec::new();
    let mut i: usize = 0;
    while i < pos
        invariant
            i <= pos <= src@.len(),
            v@ == src@.subrange(0, i as int),
        decreases pos - i,
    {
        v.push(src[i]);
        proof {
            assert(v@ =~= src@.subrange(0, i + 1 as int));
        }
        i += 1;
    }
    v.push(p);
    let n = src.len();
    while i < n
        invariant
            pos <= src@.len(),
            n == src@.len(),
            pos <= i <= n,
            v@ == src@.subrange(0, pos as int).push(p) + src@.subrange(pos as int, i as int),
        decreases n - i,
    {
        v.push(src[i]);
        proof {
            assert(v@ =~= src@.subrange(0, pos as int).push(p) + src@.subrange(
                pos as int,
                i + 1 as int,
            ));
        }
        i += 1;
    }
    proof {
        assert(v@ =~= src@.insert(pos as int, p));
    }
    v
}

/// The edge from `a` to `b` crosses the horizontal ray going right from `p`:
/// the edge spans `p`'s height and passes strictly to the right of `p` at that
/// height. Decided exactly by comparing integer cross-multiplied slopes.
pub open spec fn edge_crosses(a: Point, b: Point, p: Point) -> bool {
    ((a.y > p.y) != (b.y > p.y)) && (if b.y > a.y {
        (b.x - a.x) * (p.y - a.y) > (p.x - a.x) * (b.y - a.y)
    } else {
        (b.x - a.x) * (p.y - a.y) < (p.x - a.x) * (b.y - a.y)
    })
}

/// How many of the first `i` ring edges cross the rightward ray from `p`.
pub open spec fn crossing_count(r: Seq<Point>, p: Point, i: int) -> int
    decreases i,
{
    if i <= 0 {
        0
    } else {
        crossing_count(r, p, i - 1) + (if edge_crosses(
            r[i - 1],
            r[next_idx(r.len() as int, i - 1)],
            p,
        ) {
            1int
        } else {
            0int
        })
    }
}

/// `p` lies on some edge of the ring.
pub open spec fn on_ring_boundary(r: Seq<Point>, p: Point) -> bool {
    exists|i: int| #![trigger r[i]]
        0 <= i < r.len() && on_segment(r[i], r[next_idx(r.len() as int, i)], p)
}

/// `p` lies on the boundary of the ring or inside it by the even-odd rule: an
/// odd number of ring edges cross the rightward ray from `p`. For a simple
/// ring this is exact membership in the closed enclosed region.
#[verifier::opaque]
pub open spec fn in_or_on_ring(r: Seq<Point>, p: Point) -> bool {
    on_ring_boundary(r, p) || crossing_count(r, p, r.len() as int) % 2 == 1
}

/// Every point of `pts` lies on the ring or inside it.
#[verifier::opaque]
pub open spec fn all_in_ring(r: Seq<Point>, pts: Seq<Point>) -> bool {
    forall|j: int| 0 <= j < pts.len() ==> in_or_on_ring(r, #[trigger] pts[j])
}

fn edge_crosses_i(a: Point, b: Point, p: Point) -> (res: bool)
    ensures
        res == edge_crosses(a, b, p),
{
    if (a.y > p.y) == (b.y > p.y) {
        return false;
    }
    let bax: i64 = b.x as i64 - a.x as i64;
    let pay: i64 = p.y as i64 - a.y as i64;
    let pax: i64 = p.x as i64 - a.x as i64;
    let bay: i64 = b.y as i64 - a.y as i64;
    proof {
        lemma_mul_bound(bax as int, pay as int, 0x1_0000_0000);
        lemma_mul_bound(pax as int, bay as int, 0x1_0000_0000);
    }
    let lhs = (bax as i128) * (pay as i128);
    let rhs = (pax as i128) * (bay as i128);
    if b.y > a.y {
        lhs > rhs
    } else {
        lhs < rhs
    }
}

/// Decides exactly whether `p` lies on the ring's boundary or inside it by
/// the even-odd rule.
pub fn check_point_in_ring(r: &Vec<Point>, p: Point) -> (b: bool)
    ensures
        b == in_or_on_ring(r@, p),
{
    let n = r.len();
    let mut i: usize = 0;
    while i < n
        invariant
            n == r@.len(),
            i <= n,
            forall|s: int| #![trigger r@[s]]
                0 <= s < i ==> !on_segment(r@[s], r@[next_idx(r@.len() as int, s)], p),
        decreases n - i,
    {
        let i1 = next_i(n, i);
        if on_segment_i(r[i], r[i1], p) {
            proof {
                reveal(in_or_on_ring);
                assert(on_ring_boundary(r@, p));
            }
            return true;
        }
        i += 1;
    }
    let mut par = false;
    let mut j: usize = 0;
    while j < n
        invariant
            n == r@.len(),
            j <= n,
            par == (crossing_count(r@, p, j as int) % 2 == 1),
        decreases n - j,
    {
        let j1 = next_i(n, j);
        if edge_crosses_i(r[j], r[j1], p) {
            par = !par;
        }
        proof {
            assert(crossing_count(r@, p, j + 1 as int) == crossing_count(r@, p, j as int) + (
            if edge_crosses(r@[j as int], r@[next_idx(r@.len() as int, j as int)], p) {
                1int
            } else {
                0int
            }));
        }
        j += 1;
    }
    proof {
        reveal(in_or_on_ring);
        if on_ring_boundary(r@, p) {
            let w = choose|s: int|
                0 <= s < r@.len() && on_segment(r@[s], r@[next_idx(r@.len() as int, s)], p);
            assert(false);
        }
    }
    par
}

/// Decides exactly whether every point of `pts` lies on or inside the ring.
pub fn check_all_in_ring(r: &Vec<Point>, pts: &Vec<Point>) -> (b: bool)
    ensures
        b == all_in_ring(r@, pts@),
{
    proof {
        reveal(all_in_ring);
    }
    let m = pts.len();
    let mut j: usize = 0;
    while j < m
        invariant
            m == pts@.len(),
            j <= m,
            forall|t: int| 0 <= t < j ==> in_or_on_ring(r@, #[trigger] pts@[t]),
        decreases m - j,
    {
        if !check_point_in_ring(r, pts[j]) {
            proof {
                reveal(all_in_ring);
                assert(!in_or_on_ring(r@, pts@[j as int]));
            }
            return false;
        }
        j += 1;
    }
    true
}

} // verus!
