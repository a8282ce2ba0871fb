use vstd::prelude::*;

use crate::convex::convex_hull;
use crate::geom::{
    all_collinear, dist2, dist2_i, has_three_distinct, lemma_square_bound, GeometryError, Point,
    Polygon,
};
use crate::pointset::PointSet;
use crate::ring::{
    all_in_or_on, all_in_ring, check_all_in_ring, check_simple_ring, contains_point,
    is_ccw_convex_ring, is_simple_ring, next_i, next_idx, vec_insert_copy,
};

verus! {

/// Squared length of edge `i` of the ring (the edge from vertex `i` to the
/// cyclically next vertex).
pub open spec fn edge_len2(r: Seq<Point>, i: int) -> int {
    dist2(r[i], r[next_idx(r.len() as int, i)])
}

/// The concavity knob as the algorithm uses it: thousandths, clamped to
/// `[0, 1000]`. Every clause of `concave_hull`'s contract depends on the
/// parameter only through this clamp, so an out-of-range value is never
/// rejected.
pub open spec fn clamped_concavity(c: u32) -> u32 {
    if c > 1000 {
        1000
    } else {
        c
    }
}

/// One refinement step of the concave hull: looks for the longest boundary
/// edge whose squared length exceeds `lam2` and that can be split at some
/// available interior point while keeping the ring simple and keeping every
/// point of `pts` on or inside it (a refinement that would orphan a point is
/// rejected). Among the candidates for an edge, the one nearest to the edge
/// (smallest maximum squared distance to the edge's endpoints) wins, and only
/// candidates that make both replacement edges shorter than the replaced edge
/// are considered.
fn find_insertion(ring: &Vec<Point>, avail: &Vec<Point>, pts: &Vec<Point>, lam2: i128) -> (r:
    Option<(usize, usize)>)
    requires
        ring@.len() >= 3,
    ensures
        r matches Some(ij) ==> ij.0 < ring@.len() && ij.1 < avail@.len() && is_simple_ring(
            ring@.insert(ij.0 as int + 1, avail@[ij.1 as int]),
        ) && all_in_ring(ring@.insert(ij.0 as int + 1, avail@[ij.1 as int]), pts@) && edge_len2(
            ring@,
            ij.0 as int,
        ) > lam2,
        (forall|i: int| 0 <= i < ring@.len() ==> #[trigger] edge_len2(ring@, i) <= lam2) ==> r
            is None,
{
    let n = ring.len();
    let mut found = false;
    let mut best_i: usize = 0;
    let mut best_j: usize = 0;
    let mut best_len2: i128 = 0;
    let mut i: usize = 0;
    while i < n
        invariant
            n == ring@.len(),
            n >= 3,
            i <= n,
            found ==> best_i < n && best_j < avail@.len() && is_simple_ring(
                ring@.insert(best_i as int + 1, avail@[best_j as int]),
            ) && all_in_ring(ring@.insert(best_i as int + 1, avail@[best_j as int]), pts@)
                && edge_len2(ring@, best_i as int) > lam2,
        decreases n - i,
    {
        let a = ring[i];
        let i1 = next_i(n, i);
        let b = ring[i1];
        let el2 = dist2_i(a, b);
        if el2 > lam2 && (!found || el2 > best_len2) {
            let mut have_c = false;
            let mut c_idx: usize = 0;
            let mut c_key: i128 = 0;
            let mut cj: usize = 0;
            let na = avail.len();
            while cj < na
                invariant
                    n == ring@.len(),
                    n >= 3,
                    i < n,
                    na == avail@.len(),
                    cj <= na,
                    el2 == edge_len2(ring@, i as int),
                    have_c ==> c_idx < na && is_simple_ring(
                        ring@.insert(i as int + 1, avail@[c_idx as int]),
                    ) && all_in_ring(ring@.insert(i as int + 1, avail@[c_idx as int]), pts@),
                decreases na - cj,
            {
                let p = avail[cj];
                let da = dist2_i(a, p);
                let db = dist2_i(b, p);
                let key = if da > db {
                    da
                } else {
                    db
                };
                if key < el2 && (!have_c || key < c_key) {
                    let cand = vec_insert_copy(ring, i + 1, p);
                    if check_simple_ring(&cand) && check_all_in_ring(&cand, pts) {
                        have_c = true;
                        c_idx = cj;
                        c_key = key;
                    }
                }
                cj += 1;
            }
            if have_c {
                found = true;
                best_i = i;
                best_j = c_idx;
                best_len2 = el2;
            }
        }
        i += 1;
    }
    if found {
        Some((best_i, best_j))
    } else {
        None
    }
}

/// Computes a concavity-parameterized concave hull: starting from the convex
/// hull, boundary edges longer than a threshold derived from `concavity` are
/// repeatedly split at the nearest available interior point, provided the ring
/// stays simple and keeps every input point on or inside it.
///
/// `concavity` is given in thousandths and clamped to `[0, 1000]`: at `0` the
/// length threshold equals the longest initial hull edge, so the boundary is
/// the convex hull itself; at `1000` it equals the shortest initial hull edge,
/// the most aggressive refinement this algorithm supports.
///
/// Errors are those of the convex hull: `InsufficientPoints` exactly when
/// fewer than three distinct points exist, and `DegenerateGeometry` when no
/// polygon of nonzero area does (in particular when all points are collinear).
pub fn concave_hull(points: &PointSet, concavity: u32) -> (r: Result<Polygon, GeometryError>)
    ensures
        r == Err::<Polygon, GeometryError>(GeometryError::InsufficientPoints)
            <==> !has_three_distinct(points@),
        r matches Err(e) ==> e == GeometryError::InsufficientPoints || e
            == GeometryError::DegenerateGeometry,
        has_three_distinct(points@) && all_collinear(points@) ==> r == Err::<
            Polygon,
            GeometryError,
        >(GeometryError::DegenerateGeometry),
        r matches Ok(h) ==> h@.len() >= 3 && is_simple_ring(h@) && all_in_ring(h@, points@) && (
        forall|i: int| 0 <= i < h@.len() ==> points@.contains(#[trigger] h@[i]))
            && has_three_distinct(points@) && !all_collinear(points@) && (clamped_concavity(concavity) == 0
            ==> is_ccw_convex_ring(h@) && all_in_or_on(h@, points@)),
{
    let hull = match convex_hull(points) {
        Ok(h) => h,
        Err(e) => {
            return Err(e);
        },
    };
    let mut ring = hull.vertices;
    let ghost hull0 = ring@;
    if !check_all_in_ring(&ring, &points.points) {
        return Err(GeometryError::DegenerateGeometry);
    }
    proof {
        assert(points@ == points.points@);
    }

    let mut avail: Vec<Point> = Vec::new();
    let np = points.points.len();
    let mut t: usize = 0;
    while t < np
        invariant
            np == points@.len(),
            t <= np,
            forall|s: int| 0 <= s < avail@.len() ==> points@.contains(#[trigger] avail@[s]),
        decreases np - t,
    {
        let p = points.points[t];
        if !contains_point(&ring, p) {
            avail.push(p);
            proof {
                assert(points@.contains(points@[t as int]));
            }
        }
        t += 1;
    }

    let n0 = ring.len();
    let i1 = next_i(n0, 0);
    let e0 = dist2_i(ring[0], ring[i1]);
    let mut max2: i128 = e0;
    let mut min2: i128 = e0;
    proof {
        lemma_square_bound(ring@[0].x - ring@[i1 as int].x, 0x1_0000_0000);
        lemma_square_bound(ring@[0].y - ring@[i1 as int].y, 0x1_0000_0000);
    }
    let mut i: usize = 1;
    while i < n0
        invariant
            n0 == ring@.len(),
            n0 >= 3,
            1 <= i <= n0,
            0 <= min2 <= max2 <= 0x2_0000_0000_0000_0000,
            forall|s: int| 0 <= s < i ==> #[trigger] edge_len2(ring@, s) <= max2,
        decreases n0 - i,
    {
        let j1 = next_i(n0, i);
        let e = dist2_i(ring[i], ring[j1]);
        proof {
            lemma_square_bound(ring@[i as int].x - ring@[j1 as int].x, 0x1_0000_0000);
            lemma_square_bound(ring@[i as int].y - ring@[j1 as int].y, 0x1_0000_0000);
        }
        if e > max2 {
            max2 = e;
        }
        if e < min2 {
            min2 = e;
        }
        i += 1;
    }

    let cc: u32 = if concavity > 1000 {
        1000
    } else {
        concavity
    };
    proof {
        assert(cc == clamped_concavity(concavity));
    }
    let c = cc as i128;
    let spread = max2 - min2;
    proof {
        crate::geom::lemma_mul_nonneg_bound(c as int, spread as int, 1000, 0x2_0000_0000_0000_0000);
    }
    proof {
        if cc == 0 {
            vstd::arithmetic::mul::lemma_mul_basics(spread as int);
        }
    }
    let lam2 = max2 - (c * spread) / 1000;

    loop
        invariant
            is_simple_ring(ring@),
            all_in_ring(ring@, points@),
            ring@.len() >= 3,
            forall|s: int| 0 <= s < ring@.len() ==> points@.contains(#[trigger] ring@[s]),
            forall|s: int| 0 <= s < avail@.len() ==> points@.contains(#[trigger] avail@[s]),
            cc == 0 ==> ring@ == hull0 && lam2 == max2 && (forall|s: int|
                0 <= s < hull0.len() ==> #[trigger] edge_len2(hull0, s) <= max2),
            is_ccw_convex_ring(hull0),
        decreases avail@.len(),
    {
        let step = find_insertion(&ring, &avail, &points.points, lam2);
        match step {
            None => {
                break ;
            },
            Some(pair) => {
                let ei = pair.0;
                let cj = pair.1;
                proof {
                    assert(step matches Some(ij) && ij == pair);
                    assert(ei < ring@.len() && cj < avail@.len());
                    if cc == 0 {
                        assert(edge_len2(ring@, ei as int) <= lam2);
                        assert(false);
                    }
                }
                let p = avail[cj];
                let ghost old_ring = ring@;
                let ghost old_avail = avail@;
                let rl = ring.len();
                proof {
                    assert(ei < rl);
                }
                ring.insert(ei + 1, p);
                avail.remove(cj);
                proof {
                    assert(ring@ == old_ring.insert(ei as int + 1, p));
                    old_ring.insert_ensures(ei as int + 1, p);
                    assert forall|s: int| 0 <= s < ring@.len() implies points@.contains(
                        #[trigger] ring@[s],
                    ) by {
                        if s < ei as int + 1 {
                            assert(ring@[s] == old_ring[s]);
                        } else if s == ei as int + 1 {
                            assert(ring@[s] == p);
                        } else {
                            assert(ring@[s] == old_ring[s - 1]);
                        }
                    }
                    old_avail.remove_ensures(cj as int);
                    assert forall|s: int| 0 <= s < avail@.len() implies points@.contains(
                        #[trigger] avail@[s],
                    ) by {
                        if s < cj as int {
                            assert(avail@[s] == old_avail[s]);
                        } else {
                            assert(avail@[s] == old_avail[s + 1]);
                        }
                    }
                }
            },
        }
    }
    Ok(Polygon { vertices: ring })
}

} // verus!
