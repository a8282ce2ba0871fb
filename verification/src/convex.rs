use vstd::multiset::Multiset;
use vstd::prelude::*;

use crate::geom::{
    all_collinear, cross, cross_i, has_three_distinct, lex_le, lex_lt, lex_lt_i, GeometryError,
    Point, Polygon,
};
use crate::pointset::PointSet;
use crate::ring::{
    all_in_or_on, check_all_in_or_on, check_ccw_convex, check_simple_ring, is_ccw_convex_ring,
    is_simple_ring, next_idx,
};
use crate::seqfacts::lemma_push_contains;

verus! {

/// Transfers membership along a sequence whose values all occur in another.
pub(crate) proof fn lemma_chain_contains(a: Seq<Point>, b: Seq<Point>, p: Point)
    requires
        forall|t: int| 0 <= t < a.len() ==> b.contains(#[trigger] a[t]),
        a.contains(p),
    ensures
        b.contains(p),
{
    let t = choose|t: int| 0 <= t < a.len() && a[t] == p;
    assert(b.contains(a[t]));
}

/// Three strictly ordered values that all occur in `pts` witness three
/// pairwise distinct points.
pub(crate) proof fn lemma_has3_of_values(d: Seq<Point>, pts: Seq<Point>)
    requires
        d.len() >= 3,
        lex_lt(d[0], d[1]),
        lex_lt(d[1], d[2]),
        lex_lt(d[0], d[2]),
        pts.contains(d[0]),
        pts.contains(d[1]),
        pts.contains(d[2]),
    ensures
        has_three_distinct(pts),
{
    let i = choose|t: int| 0 <= t < pts.len() && pts[t] == d[0];
    let j = choose|t: int| 0 <= t < pts.len() && pts[t] == d[1];
    let k = choose|t: int| 0 <= t < pts.len() && pts[t] == d[2];
    assert(pts[i] != pts[j] && pts[i] != pts[k] && pts[j] != pts[k]);
}

/// If three pairwise distinct points occur in `pts` and every value of `pts`
/// occurs in `d`, then `d` has at least three entries.
pub(crate) proof fn lemma_d_len3(d: Seq<Point>, pts: Seq<Point>)
    requires
        has_three_distinct(pts),
        forall|t: int| 0 <= t < pts.len() ==> d.contains(#[trigger] pts[t]),
    ensures
        d.len() >= 3,
{
    let (i, j, k) = choose|i: int, j: int, k: int|
        #![trigger pts[i], pts[j], pts[k]]
        0 <= i < pts.len() && 0 <= j < pts.len() && 0 <= k < pts.len() && pts[i] != pts[j]
            && pts[i] != pts[k] && pts[j] != pts[k];
    assert(d.contains(pts[i]));
    assert(d.contains(pts[j]));
    assert(d.contains(pts[k]));
    let a = choose|t: int| 0 <= t < d.len() && d[t] == pts[i];
    let b = choose|t: int| 0 <= t < d.len() && d[t] == pts[j];
    let c = choose|t: int| 0 <= t < d.len() && d[t] == pts[k];
    assert(a != b && a != c && b != c);
}

/// A strict counter-clockwise turn among points of `pts` refutes collinearity
/// of the whole set.
proof fn lemma_not_collinear(r: Seq<Point>, pts: Seq<Point>)
    requires
        r.len() >= 3,
        cross(r[0], r[1], r[2]) > 0,
        pts.contains(r[0]),
        pts.contains(r[1]),
        pts.contains(r[2]),
    ensures
        !all_collinear(pts),
{
    let i = choose|t: int| 0 <= t < pts.len() && pts[t] == r[0];
    let j = choose|t: int| 0 <= t < pts.len() && pts[t] == r[1];
    let k = choose|t: int| 0 <= t < pts.len() && pts[t] == r[2];
    if all_collinear(pts) {
        assert(cross(pts[i], pts[j], pts[k]) == 0);
    }
}

/// A copy of `pts` reordered into nondecreasing lexicographic order, holding
/// exactly the same values.
pub(crate) fn sort_lex(pts: &Vec<Point>) -> (r: Vec<Point>)
    ensures
        forall|i: int, j: int| #![trigger r@[i], r@[j]]
            0 <= i <= j < r@.len() ==> lex_le(r@[i], r@[j]),
        forall|t: int| 0 <= t < r@.len() ==> pts@.contains(#[trigger] r@[t]),
        forall|t: int| 0 <= t < pts@.len() ==> r@.contains(#[trigger] pts@[t]),
{
    let mut rest: Vec<Point> = Vec::new();
    let n = pts.len();
    let mut k: usize = 0;
    while k < n
        invariant
            n == pts@.len(),
            k <= n,
            rest@ == pts@.subrange(0, k as int),
        decreases n - k,
    {
        rest.push(pts[k]);
        proof {
            assert(rest@ =~= pts@.subrange(0, k + 1 as int));
        }
        k += 1;
    }
    proof {
        assert(rest@ =~= pts@);
    }
    let mut out: Vec<Point> = Vec::new();
    proof {
        broadcast use vstd::seq_lib::group_to_multiset_ensures;
        broadcast use vstd::multiset::group_multiset_axioms;

        assert(out@.to_multiset().len() == 0);
        assert(out@.to_multiset().add(rest@.to_multiset()) =~= pts@.to_multiset());
    }
    while rest.len() > 0
        invariant
            forall|i: int, j: int| #![trigger out@[i], out@[j]]
                0 <= i <= j < out@.len() ==> lex_le(out@[i], out@[j]),
            forall|i: int, j: int| #![trigger out@[i], rest@[j]]
                0 <= i < out@.len() && 0 <= j < rest@.len() ==> lex_le(out@[i], rest@[j]),
            out@.to_multiset().add(rest@.to_multiset()) == pts@.to_multiset(),
        decreases rest@.len(),
    {
        let mut bi: usize = 0;
        let mut m: usize = 1;
        while m < rest.len()
            invariant
                rest@.len() > 0,
                bi < m <= rest@.len(),
                forall|t: int| 0 <= t < m ==> lex_le(rest@[bi as int], #[trigger] rest@[t]),
            decreases rest@.len() - m,
        {
            if lex_lt_i(rest[m], rest[bi]) {
                bi = m;
            }
            m += 1;
        }
        let p = rest[bi];
        let ghost old_out = out@;
        let ghost old_rest = rest@;
        out.push(p);
        rest.remove(bi);
        proof {
            broadcast use vstd::seq_lib::group_to_multiset_ensures;
            broadcast use vstd::multiset::group_multiset_axioms;

            old_rest.remove_ensures(bi as int);
            assert(old_rest.contains(p));
            assert(out@.to_multiset() =~= old_out.to_multiset().insert(p));
            assert(rest@.to_multiset() =~= old_rest.to_multiset().remove(p));
            assert(out@.to_multiset().add(rest@.to_multiset()) =~= pts@.to_multiset());
            assert forall|i: int, j: int| #![trigger out@[i], rest@[j]]
                0 <= i < out@.len() && 0 <= j < rest@.len() implies lex_le(out@[i], rest@[j]) by {
                if i < old_out.len() {
                    assert(lex_le(out@[i], old_rest[if j < bi { j } else { j + 1 }]));
                } else {
                    assert(out@[i] == p);
                    assert(lex_le(p, old_rest[if j < bi { j } else { j + 1 }]));
                }
            }
        }
    }
    proof {
        broadcast use vstd::seq_lib::group_to_multiset_ensures;
        broadcast use vstd::multiset::group_multiset_axioms;

        assert(rest@.to_multiset() =~= Multiset::<Point>::empty());
        assert(out@.to_multiset() =~= pts@.to_multiset());
        assert forall|t: int| 0 <= t < out@.len() implies pts@.contains(#[trigger] out@[t]) by {
            assert(out@.contains(out@[t]));
            assert(out@.to_multiset().count(out@[t]) > 0);
            assert(pts@.to_multiset().count(out@[t]) > 0);
        }
        assert forall|t: int| 0 <= t < pts@.len() implies out@.contains(#[trigger] pts@[t]) by {
            assert(pts@.contains(pts@[t]));
            assert(pts@.to_multiset().count(pts@[t]) > 0);
            assert(out@.to_multiset().count(pts@[t]) > 0);
        }
    }
    out
}

/// The distinct values of a lexicographically sorted sequence, in strictly
/// increasing order.
pub(crate) fn dedup_sorted(s: &Vec<Point>) -> (r: Vec<Point>)
    requires
        forall|i: int, j: int| #![trigger s@[i], s@[j]]
            0 <= i <= j < s@.len() ==> lex_le(s@[i], s@[j]),
    ensures
        forall|i: int, j: int| #![trigger r@[i], r@[j]]
            0 <= i < j < r@.len() ==> lex_lt(r@[i], r@[j]),
        forall|t: int| 0 <= t < r@.len() ==> s@.contains(#[trigger] r@[t]),
        forall|t: int| 0 <= t < s@.len() ==> r@.contains(#[trigger] s@[t]),
{
    let mut r: Vec<Point> = Vec::new();
    let n = s.len();
    let mut i: usize = 0;
    while i < n
        invariant
            n == s@.len(),
            i <= n,
            forall|a: int, b: int| #![trigger s@[a], s@[b]]
                0 <= a <= b < s@.len() ==> lex_le(s@[a], s@[b]),
            i == 0 ==> r@.len() == 0,
            i > 0 ==> r@.len() > 0 && r@[r@.len() - 1] == s@[i - 1],
            forall|a: int, b: int| #![trigger r@[a], r@[b]]
                0 <= a < b < r@.len() ==> lex_lt(r@[a], r@[b]),
            forall|t: int| 0 <= t < r@.len() ==> s@.contains(#[trigger] r@[t]),
            forall|t: int| 0 <= t < i ==> r@.contains(#[trigger] s@[t]),
        decreases n - i,
    {
        let x = s[i];
        let ghost old_r = r@;
        if r.len() == 0 {
            r.push(x);
        } else {
            let last = r[r.len() - 1];
            if !(last.x == x.x && last.y == x.y) {
                r.push(x);
            }
        }
        proof {
            if r@.len() > old_r.len() {
                assert(r@ == old_r.push(x));
                if old_r.len() > 0 {
                    assert(old_r[old_r.len() - 1] == s@[i - 1]);
                    assert(lex_le(s@[i - 1], s@[i as int]));
                    assert(lex_lt(old_r[old_r.len() - 1], x));
                }
                assert forall|a: int, b: int| #![trigger r@[a], r@[b]]
                    0 <= a < b < r@.len() implies lex_lt(r@[a], r@[b]) by {
                    if b < old_r.len() {
                        assert(lex_lt(old_r[a], old_r[b]));
                    } else {
                        assert(r@[b] == x);
                        if a < old_r.len() - 1 {
                            assert(lex_lt(old_r[a], old_r[old_r.len() - 1]));
                        }
                    }
                }
                assert(s@.contains(s@[i as int]));
                assert forall|t: int| 0 <= t < i + 1 implies r@.contains(#[trigger] s@[t]) by {
                    lemma_push_contains(old_r, x, s@[t]);
                }
                assert forall|t: int| 0 <= t < r@.len() implies s@.contains(#[trigger] r@[t]) by {
                    if t < old_r.len() {
                        assert(s@.contains(old_r[t]));
                    }
                }
            } else {
                assert(old_r[old_r.len() - 1] == s@[i as int]);
                assert(r@.contains(s@[i as int]));
            }
        }
        i += 1;
    }
    r
}

/// Computes the convex hull of the point set with Andrew's monotone-chain
/// construction and then validates the result exactly, so that a returned
/// polygon is proved strictly convex, counter-clockwise, simple, made only of
/// input points, and containing every input point.
///
/// Errors: `InsufficientPoints` exactly when the set holds fewer than three
/// distinct points; `DegenerateGeometry` when no polygon of nonzero area
/// exists (in particular whenever all points are collinear).
pub fn convex_hull(points: &PointSet) -> (r: Result<Polygon, GeometryError>)
    ensures
        r == Err::<Polygon, GeometryError>(GeometryError::InsufficientPoints)
            <==> !has_three_distinct(points@),
        r matches Err(e) ==> e == GeometryError::InsufficientPoints || e
            == GeometryError::DegenerateGeometry,
        has_three_distinct(points@) && all_collinear(points@) ==> r == Err::<
            Polygon,
            GeometryError,
        >(GeometryError::DegenerateGeometry),
        r matches Ok(h) ==> h@.len() >= 3 && is_ccw_convex_ring(h@) && is_simple_ring(h@)
            && all_in_or_on(h@, points@) && (forall|i: int|
            0 <= i < h@.len() ==> points@.contains(#[trigger] h@[i])) && has_three_distinct(
            points@,
        ) && !all_collinear(points@),
{
    let sorted = sort_lex(&points.points);
    let d = dedup_sorted(&sorted);
    proof {
        assert(points@ == points.points@);
        if d@.len() >= 3 {
            assert(lex_lt(d@[0], d@[1]) && lex_lt(d@[1], d@[2]) && lex_lt(d@[0], d@[2]));
            assert(d@.contains(d@[0]) && d@.contains(d@[1]) && d@.contains(d@[2]));
            lemma_chain_contains(d@, sorted@, d@[0]);
            lemma_chain_contains(d@, sorted@, d@[1]);
            lemma_chain_contains(d@, sorted@, d@[2]);
            lemma_chain_contains(sorted@, points@, d@[0]);
            lemma_chain_contains(sorted@, points@, d@[1]);
            lemma_chain_contains(sorted@, points@, d@[2]);
            lemma_has3_of_values(d@, points@);
        } else {
            if has_three_distinct(points@) {
                assert forall|t: int| 0 <= t < points@.len() implies d@.contains(
                    #[trigger] points@[t],
                ) by {
                    assert(sorted@.contains(points@[t]));
                    lemma_chain_contains(sorted@, d@, points@[t]);
                }
                lemma_d_len3(d@, points@);
            }
        }
    }
    if d.len() < 3 {
        return Err(GeometryError::InsufficientPoints);
    }
    let n = d.len();

    let mut lower: Vec<Point> = Vec::new();
    let mut idx: usize = 0;
    while idx < n
        invariant
            n == d@.len(),
            idx <= n,
            forall|t: int| 0 <= t < lower@.len() ==> d@.contains(#[trigger] lower@[t]),
        decreases n - idx,
    {
        let p = d[idx];
        loop
            invariant
                forall|t: int| 0 <= t < lower@.len() ==> d@.contains(#[trigger] lower@[t]),
            decreases lower@.len(),
        {
            if lower.len() < 2 {
                break ;
            }
            let a = lower[lower.len() - 2];
            let b = lower[lower.len() - 1];
            if cross_i(a, b, p) > 0 {
                break ;
            }
            lower.pop();
        }
        lower.push(p);
        proof {
            assert(d@.contains(d@[idx as int]));
        }
        idx += 1;
    }

    let mut upper: Vec<Point> = Vec::new();
    let mut idx2: usize = n;
    while idx2 > 0
        invariant
            n == d@.len(),
            idx2 <= n,
            forall|t: int| 0 <= t < upper@.len() ==> d@.contains(#[trigger] upper@[t]),
        decreases idx2,
    {
        idx2 -= 1;
        let p = d[idx2];
        loop
            invariant
                forall|t: int| 0 <= t < upper@.len() ==> d@.contains(#[trigger] upper@[t]),
            decreases upper@.len(),
        {
            if upper.len() < 2 {
                break ;
            }
            let a = upper[upper.len() - 2];
            let b = upper[upper.len() - 1];
            if cross_i(a, b, p) > 0 {
                break ;
            }
            upper.pop();
        }
        upper.push(p);
        proof {
            assert(d@.contains(d@[idx2 as int]));
        }
    }

    let mut ring = lower;
    let um = upper.len();
    if um >= 2 {
        let mut t: usize = 1;
        while t < um - 1
            invariant
                um == upper@.len(),
                um >= 2,
                1 <= t <= um - 1,
                forall|s: int| 0 <= s < upper@.len() ==> d@.contains(#[trigger] upper@[s]),
                forall|s: int| 0 <= s < ring@.len() ==> d@.contains(#[trigger] ring@[s]),
            decreases um - 1 - t,
        {
            ring.push(upper[t]);
            t += 1;
        }
    }

    if ring.len() < 3 {
        return Err(GeometryError::DegenerateGeometry);
    }
    if !check_ccw_convex(&ring) {
        return Err(GeometryError::DegenerateGeometry);
    }
    if !check_simple_ring(&ring) {
        return Err(GeometryError::DegenerateGeometry);
    }
    if !check_all_in_or_on(&ring, &points.points) {
        return Err(GeometryError::DegenerateGeometry);
    }
    proof {
        reveal(is_ccw_convex_ring);
        assert(points@ == points.points@);
        assert forall|t: int| 0 <= t < ring@.len() implies points@.contains(#[trigger] ring@[t]) by {
            lemma_chain_contains(d@, sorted@, ring@[t]);
            lemma_chain_contains(sorted@, points@, ring@[t]);
        }
        let m = ring@.len() as int;
        assert(cross(ring@[0], ring@[next_idx(m, 0)], ring@[next_idx(m, next_idx(m, 0))]) > 0);
        assert(next_idx(m, 0) == 1 && next_idx(m, 1) == 2);
        lemma_not_collinear(ring@, points@);
    }
    Ok(Polygon { vertices: ring })
}

} // verus!
