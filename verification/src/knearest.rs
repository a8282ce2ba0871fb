use vstd::prelude::*;

use crate::convex::{
    dedup_sorted, lemma_chain_contains, lemma_d_len3, lemma_has3_of_values, sort_lex,
};
use crate::geom::{
    all_collinear, cross, cross_i, dist2_i, has_three_distinct, lemma_mul_bound, lex_lt,
    GeometryError, Point, Polygon,
};
use crate::pointset::PointSet;
use crate::ring::{
    all_in_ring, check_all_in_ring, check_simple_ring, dot_i, is_simple_ring, segs_intersect_i,
};

verus! {

proof fn lemma_factor_zero(u: int, v: int, t: int)
    by (nonlinear_arith)
    requires
        u * t == 0,
        v * t == 0,
        u != 0 || v != 0,
    ensures
        t == 0,
{
}

/// Three points on the line through two distinct points `a` and `b` are
/// themselves collinear.
proof fn lemma_collinear_three(a: Point, b: Point, g: Point, q: Point, w: Point)
    requires
        a != b,
        cross(a, b, g) == 0,
        cross(a, b, q) == 0,
        cross(a, b, w) == 0,
    ensures
        cross(g, q, w) == 0,
{
    let ux: int = b.x - a.x;
    let uy: int = b.y - a.y;
    let px: int = g.x - a.x;
    let py: int = g.y - a.y;
    let qx: int = q.x - a.x;
    let qy: int = q.y - a.y;
    let wx: int = w.x - a.x;
    let wy: int = w.y - a.y;
    assert(ux * py - uy * px == 0);
    assert(ux * qy - uy * qx == 0);
    assert(ux * wy - uy * wx == 0);
    assert(ux != 0 || uy != 0);
    assert(ux * (px * qy - py * qx) == px * (ux * qy - uy * qx) - qx * (ux * py - uy * px))
        by (nonlinear_arith);
    assert(uy * (px * qy - py * qx) == py * (ux * qy - uy * qx) - qy * (ux * py - uy * px))
        by (nonlinear_arith);
    lemma_factor_zero(ux, uy, px * qy - py * qx);
    assert(ux * (px * wy - py * wx) == px * (ux * wy - uy * wx) - wx * (ux * py - uy * px))
        by (nonlinear_arith);
    assert(uy * (px * wy - py * wx) == py * (ux * wy - uy * wx) - wy * (ux * py - uy * px))
        by (nonlinear_arith);
    lemma_factor_zero(ux, uy, px * wy - py * wx);
    assert(ux * (qx * wy - qy * wx) == qx * (ux * wy - uy * wx) - wx * (ux * qy - uy * qx))
        by (nonlinear_arith);
    assert(uy * (qx * wy - qy * wx) == qy * (ux * wy - uy * wx) - wy * (ux * qy - uy * qx))
        by (nonlinear_arith);
    lemma_factor_zero(ux, uy, qx * wy - qy * wx);
    assert((qx - px) * (wy - py) - (qy - py) * (wx - px) == (qx * wy - qy * wx) + (px * qy - py
        * qx) - (px * wy - py * wx)) by (nonlinear_arith);
    assert(cross(g, q, w) == (qx - px) * (wy - py) - (qy - py) * (wx - px));
}

/// If every distinct point lies on the line through the first two, the whole
/// input set is collinear.
proof fn lemma_all_collinear_of_line(d: Seq<Point>, pts: Seq<Point>)
    requires
        d.len() >= 2,
        d[0] != d[1],
        forall|t: int| 0 <= t < d.len() ==> cross(d[0], d[1], #[trigger] d[t]) == 0,
        forall|t: int| 0 <= t < pts.len() ==> d.contains(#[trigger] pts[t]),
    ensures
        all_collinear(pts),
{
    assert forall|i: int, j: int, k: int|
        0 <= i < pts.len() && 0 <= j < pts.len() && 0 <= k < pts.len() implies #[trigger] cross(
        pts[i],
        pts[j],
        pts[k],
    ) == 0 by {
        assert(d.contains(pts[i]));
        assert(d.contains(pts[j]));
        assert(d.contains(pts[k]));
        let a = choose|t: int| 0 <= t < d.len() && d[t] == pts[i];
        let b = choose|t: int| 0 <= t < d.len() && d[t] == pts[j];
        let c = choose|t: int| 0 <= t < d.len() && d[t] == pts[k];
        assert(cross(d[0], d[1], d[a]) == 0);
        assert(cross(d[0], d[1], d[b]) == 0);
        assert(cross(d[0], d[1], d[c]) == 0);
        lemma_collinear_three(d[0], d[1], pts[i], pts[j], pts[k]);
    }
}

/// `p` is a lowest point of the sequence: minimal y coordinate, ties broken by
/// minimal x coordinate.
pub open spec fn is_lowest(p: Point, s: Seq<Point>) -> bool {
    forall|t: int| #![trigger s[t]]
        0 <= t < s.len() ==> (p.y < s[t].y || (p.y == s[t].y && p.x <= s[t].x))
}

/// A candidate for the next boundary vertex: either an unused point (at
/// position `idx` of the available list) or the start point, closing the ring.
#[derive(Clone, Copy)]
struct Cand {
    p: Point,
    to_start: bool,
    idx: usize,
}

spec fn cand_ok(c: Cand, nchain: int, navail: int) -> bool {
    if c.to_start {
        nchain >= 3
    } else {
        c.idx < navail
    }
}

/// What the neighbour selection decided for one tracing step.
enum Choice {
    Extend(usize),
    CloseRing,
    Blocked,
}

/// Orders candidate directions by clockwise turning angle from the previous
/// boundary direction `(pdx, pdy)`, smallest first; going straight ahead
/// counts as no turn at all, and ties between parallel directions prefer the
/// nearer candidate. Decided exactly with integer cross and dot products.
fn angle_less(pdx: i64, pdy: i64, cur: Point, c1: Point, c2: Point) -> (r: bool)
    requires
        -0x1_0000_0000 <= pdx <= 0x1_0000_0000,
        -0x1_0000_0000 <= pdy <= 0x1_0000_0000,
{
    let e1x = c1.x as i64 - cur.x as i64;
    let e1y = c1.y as i64 - cur.y as i64;
    let e2x = c2.x as i64 - cur.x as i64;
    let e2y = c2.y as i64 - cur.y as i64;
    proof {
        lemma_mul_bound(pdx as int, e1y as int, 0x1_0000_0000);
        lemma_mul_bound(pdy as int, e1x as int, 0x1_0000_0000);
        lemma_mul_bound(pdx as int, e1x as int, 0x1_0000_0000);
        lemma_mul_bound(pdy as int, e1y as int, 0x1_0000_0000);
        lemma_mul_bound(pdx as int, e2y as int, 0x1_0000_0000);
        lemma_mul_bound(pdy as int, e2x as int, 0x1_0000_0000);
        lemma_mul_bound(pdx as int, e2x as int, 0x1_0000_0000);
        lemma_mul_bound(pdy as int, e2y as int, 0x1_0000_0000);
        lemma_mul_bound(e1x as int, e2y as int, 0x1_0000_0000);
        lemma_mul_bound(e1y as int, e2x as int, 0x1_0000_0000);
    }
    let cr1 = (pdx as i128) * (e1y as i128) - (pdy as i128) * (e1x as i128);
    let dt1 = (pdx as i128) * (e1x as i128) + (pdy as i128) * (e1y as i128);
    let cr2 = (pdx as i128) * (e2y as i128) - (pdy as i128) * (e2x as i128);
    let dt2 = (pdx as i128) * (e2x as i128) + (pdy as i128) * (e2y as i128);
    let s1: u32 = if cr1 == 0 && dt1 >= 0 {
        0
    } else if cr1 < 0 {
        1
    } else if cr1 == 0 {
        2
    } else {
        3
    };
    let s2: u32 = if cr2 == 0 && dt2 >= 0 {
        0
    } else if cr2 < 0 {
        1
    } else if cr2 == 0 {
        2
    } else {
        3
    };
    if s1 != s2 {
        return s1 < s2;
    }
    if s1 == 1 || s1 == 3 {
        let c12 = (e1x as i128) * (e2y as i128) - (e1y as i128) * (e2x as i128);
        if c12 != 0 {
            return c12 < 0;
        }
    }
    let d1 = dist2_i(cur, c1);
    let d2 = dist2_i(cur, c2);
    d1 < d2
}

/// Whether appending `p` to the open boundary chain keeps it a simple path:
/// the new edge may not revisit the current vertex, fold back onto the last
/// edge, or touch any earlier edge.
fn extension_ok(chain: &Vec<Point>, p: Point) -> (r: bool)
    requires
        chain@.len() >= 1,
{
    let n = chain.len();
    let cur = chain[n - 1];
    if p.x == cur.x && p.y == cur.y {
        return false;
    }
    if n >= 2 {
        let prev = chain[n - 2];
        if cross_i(prev, cur, p) == 0 && dot_i(cur, prev, p) > 0 {
            return false;
        }
        let mut t: usize = 0;
        while t < n - 2
            invariant
                n == chain@.len(),
                n >= 2,
                t <= n - 2,
            decreases n - 2 - t,
        {
            if segs_intersect_i(chain[t], chain[t + 1], cur, p) {
                return false;
            }
            t += 1;
        }
    }
    true
}

/// One step of the neighbour tracing: among the `k0` nearest candidates to the
/// current vertex (the unused points, and the start point once the chain can
/// close), ordered by smallest clockwise turning angle, picks the first whose
/// edge keeps the boundary simple. When no candidate qualifies the neighbour
/// count grows by one and the step is retried, up to the full candidate count.
fn pick_step(chain: &Vec<Point>, avail: &Vec<Point>, pdx: i64, pdy: i64, k0: usize, start: Point)
    -> (r: Choice)
    requires
        chain@.len() >= 1,
        -0x1_0000_0000 <= pdx <= 0x1_0000_0000,
        -0x1_0000_0000 <= pdy <= 0x1_0000_0000,
    ensures
        r matches Choice::Extend(j) ==> j < avail@.len(),
        r matches Choice::CloseRing ==> chain@.len() >= 3,
{
    let cur = chain[chain.len() - 1];
    let mut pool: Vec<Cand> = Vec::new();
    let na = avail.len();
    let mut j: usize = 0;
    while j < na
        invariant
            na == avail@.len(),
            j <= na,
            chain@.len() >= 1,
            forall|s: int|
                0 <= s < pool@.len() ==> cand_ok(
                    #[trigger] pool@[s],
                    chain@.len() as int,
                    avail@.len() as int,
                ),
        decreases na - j,
    {
        pool.push(Cand { p: avail[j], to_start: false, idx: j });
        j += 1;
    }
    if chain.len() >= 3 {
        pool.push(Cand { p: start, to_start: true, idx: 0 });
    }
    let mut by_dist: Vec<Cand> = Vec::new();
    while pool.len() > 0
        invariant
            chain@.len() >= 1,
            forall|s: int|
                0 <= s < pool@.len() ==> cand_ok(
                    #[trigger] pool@[s],
                    chain@.len() as int,
                    avail@.len() as int,
                ),
            forall|s: int|
                0 <= s < by_dist@.len() ==> cand_ok(
                    #[trigger] by_dist@[s],
                    chain@.len() as int,
                    avail@.len() as int,
                ),
        decreases pool@.len(),
    {
        let mut bi: usize = 0;
        let mut m: usize = 1;
        while m < pool.len()
            invariant
                pool@.len() > 0,
                bi < pool@.len(),
                m <= pool@.len(),
            decreases pool@.len() - m,
        {
            if dist2_i(pool[m].p, cur) < dist2_i(pool[bi].p, cur) {
                bi = m;
            }
            m += 1;
        }
        by_dist.push(pool[bi]);
        let ghost old_pool = pool@;
        pool.remove(bi);
        proof {
            old_pool.remove_ensures(bi as int);
            assert forall|s: int| 0 <= s < pool@.len() implies cand_ok(
                #[trigger] pool@[s],
                chain@.len() as int,
                avail@.len() as int,
            ) by {
                if s < bi {
                    assert(pool@[s] == old_pool[s]);
                } else {
                    assert(pool@[s] == old_pool[s + 1]);
                }
            }
        }
    }
    let nb = by_dist.len();
    if nb == 0 {
        return Choice::Blocked;
    }
    let mut kk = if k0 < 1 {
        1
    } else {
        k0
    };
    if kk > nb {
        kk = nb;
    }
    loop
        invariant
            1 <= kk <= nb,
            nb == by_dist@.len(),
            chain@.len() >= 1,
            -0x1_0000_0000 <= pdx <= 0x1_0000_0000,
            -0x1_0000_0000 <= pdy <= 0x1_0000_0000,
            forall|s: int|
                0 <= s < by_dist@.len() ==> cand_ok(
                    #[trigger] by_dist@[s],
                    chain@.len() as int,
                    avail@.len() as int,
                ),
        decreases nb - kk,
    {
        let mut cands: Vec<Cand> = Vec::new();
        let mut t: usize = 0;
        while t < kk
            invariant
                t <= kk <= nb,
                nb == by_dist@.len(),
                chain@.len() >= 1,
                forall|s: int|
                    0 <= s < by_dist@.len() ==> cand_ok(
                        #[trigger] by_dist@[s],
                        chain@.len() as int,
                        avail@.len() as int,
                    ),
                forall|s: int|
                    0 <= s < cands@.len() ==> cand_ok(
                        #[trigger] cands@[s],
                        chain@.len() as int,
                        avail@.len() as int,
                    ),
            decreases kk - t,
        {
            cands.push(by_dist[t]);
            t += 1;
        }
        loop
            invariant
                chain@.len() >= 1,
                -0x1_0000_0000 <= pdx <= 0x1_0000_0000,
                -0x1_0000_0000 <= pdy <= 0x1_0000_0000,
                forall|s: int|
                    0 <= s < cands@.len() ==> cand_ok(
                        #[trigger] cands@[s],
                        chain@.len() as int,
                        avail@.len() as int,
                    ),
            decreases cands@.len(),
        {
            if cands.len() == 0 {
                break ;
            }
            let mut best: usize = 0;
            let mut m: usize = 1;
            while m < cands.len()
                invariant
                    cands@.len() > 0,
                    best < cands@.len(),
                    m <= cands@.len(),
                    -0x1_0000_0000 <= pdx <= 0x1_0000_0000,
                    -0x1_0000_0000 <= pdy <= 0x1_0000_0000,
                decreases cands@.len() - m,
            {
                if angle_less(pdx, pdy, cur, cands[m].p, cands[best].p) {
                    best = m;
                }
                m += 1;
            }
            let cd = cands[best];
            if cd.to_start {
                if check_simple_ring(chain) {
                    return Choice::CloseRing;
                }
            } else {
                if extension_ok(chain, cd.p) {
                    return Choice::Extend(cd.idx);
                }
            }
            let ghost old_cands = cands@;
            cands.remove(best);
            proof {
                old_cands.remove_ensures(best as int);
                assert forall|s: int| 0 <= s < cands@.len() implies cand_ok(
                    #[trigger] cands@[s],
                    chain@.len() as int,
                    avail@.len() as int,
                ) by {
                    if s < best {
                        assert(cands@[s] == old_cands[s]);
                    } else {
                        assert(cands@[s] == old_cands[s + 1]);
                    }
                }
            }
        }
        if kk == nb {
            return Choice::Blocked;
        }
        kk += 1;
    }
}

/// One boundary-tracing attempt with neighbour count `k0`: starting from
/// `start`, repeatedly appends the vertex chosen by `pick_step` until the ring
/// closes (returning the validated simple ring) or no valid step exists.
fn trace_ring(avail0: &Vec<Point>, start: Point, k0: usize, pts: &Vec<Point>) -> (r: Option<
    Vec<Point>>)
    requires
        forall|s: int| 0 <= s < avail0@.len() ==> pts@.contains(#[trigger] avail0@[s]),
        pts@.contains(start),
    ensures
        r matches Some(v) ==> v@.len() >= 3 && is_simple_ring(v@) && v@[0] == start && (forall|
            t: int,
        | 0 <= t < v@.len() ==> pts@.contains(#[trigger] v@[t])),
{
    let mut avail: Vec<Point> = Vec::new();
    let na0 = avail0.len();
    let mut c: usize = 0;
    while c < na0
        invariant
            na0 == avail0@.len(),
            c <= na0,
            avail@ == avail0@.subrange(0, c as int),
        decreases na0 - c,
    {
        avail.push(avail0[c]);
        proof {
            assert(avail@ =~= avail0@.subrange(0, c + 1 as int));
        }
        c += 1;
    }
    proof {
        assert(avail@ =~= avail0@);
        assert forall|s: int| 0 <= s < avail@.len() implies pts@.contains(#[trigger] avail@[s]) by {
            assert(avail@[s] == avail0@[s]);
        }
    }
    let mut chain: Vec<Point> = Vec::new();
    chain.push(start);
    let mut pdx: i64 = -1;
    let mut pdy: i64 = 0;
    loop
        invariant
            chain@.len() >= 1,
            chain@[0] == start,
            -0x1_0000_0000 <= pdx <= 0x1_0000_0000,
            -0x1_0000_0000 <= pdy <= 0x1_0000_0000,
            forall|s: int| 0 <= s < chain@.len() ==> pts@.contains(#[trigger] chain@[s]),
            forall|s: int| 0 <= s < avail@.len() ==> pts@.contains(#[trigger] avail@[s]),
        decreases avail@.len(),
    {
        let step = pick_step(&chain, &avail, pdx, pdy, k0, start);
        match step {
            Choice::Blocked => {
                return None;
            },
            Choice::CloseRing => {
                if check_simple_ring(&chain) {
                    return Some(chain);
                } else {
                    return None;
                }
            },
            Choice::Extend(j) => {
                let cur = chain[chain.len() - 1];
                let p = avail[j];
                let ghost old_avail = avail@;
                chain.push(p);
                avail.remove(j);
                pdx = p.x as i64 - cur.x as i64;
                pdy = p.y as i64 - cur.y as i64;
                proof {
                    old_avail.remove_ensures(j as int);
                    assert forall|s: int| 0 <= s < avail@.len() implies pts@.contains(
                        #[trigger] avail@[s],
                    ) by {
                        if s < j {
                            assert(avail@[s] == old_avail[s]);
                        } else {
                            assert(avail@[s] == old_avail[s + 1]);
                        }
                    }
                    assert(pts@.contains(old_avail[j as int]));
                }
            },
        }
    }
}

/// Computes a concave hull by k-nearest-neighbour boundary tracing: starting
/// at the lowest point, the boundary repeatedly steps to the neighbour chosen
/// by `pick_step` until it closes back at the start. An attempt whose closed
/// ring leaves some input point outside, or that reaches a dead end, is
/// retried with the neighbour count grown by one, up to one less than the
/// number of distinct points. The accepted ring is validated exactly, so a
/// returned polygon is proved simple, containing every input point, and made
/// only of input points, with the lowest input point as its first vertex.
///
/// `k` is clamped to at least 3 and at most one less than the number of
/// distinct points.
///
/// Errors: `InsufficientPoints` exactly when fewer than three distinct points
/// exist; `DegenerateGeometry` when all points are collinear; and
/// `NoValidBoundary` when the tracing exhausts its retries without closing a
/// simple ring.
pub fn k_nearest_concave_hull(points: &PointSet, k: u32) -> (r: Result<Polygon, GeometryError>)
    ensures
        r == Err::<Polygon, GeometryError>(GeometryError::InsufficientPoints)
            <==> !has_three_distinct(points@),
        r == Err::<Polygon, GeometryError>(GeometryError::DegenerateGeometry)
            <==> has_three_distinct(points@) && all_collinear(points@),
        r matches Ok(h) ==> h@.len() >= 3 && is_simple_ring(h@) && all_in_ring(h@, points@) && (
        forall|i: int| 0 <= i < h@.len() ==> points@.contains(#[trigger] h@[i]))
            && points@.contains(h@[0]) && is_lowest(h@[0], points@) && has_three_distinct(points@)
            && !all_collinear(points@),
{
    let sorted = sort_lex(&points.points);
    let d = dedup_sorted(&sorted);
    proof {
        assert(points@ == points.points@);
        if d@.len() >= 3 {
            assert(lex_lt(d@[0], d@[1]) && lex_lt(d@[1], d@[2]) && lex_lt(d@[0], d@[2]));
            assert(d@.contains(d@[0]) && d@.contains(d@[1]) && d@.contains(d@[2]));
            lemma_chain_contains(d@, sorted@, d@[0]);
            lemma_chain_contains(d@, sorted@, d@[1]);
            lemma_chain_contains(d@, sorted@, d@[2]);
            lemma_chain_contains(sorted@, points@, d@[0]);
            lemma_chain_contains(sorted@, points@, d@[1]);
            lemma_chain_contains(sorted@, points@, d@[2]);
            lemma_has3_of_values(d@, points@);
        } else {
            if has_three_distinct(points@) {
                assert forall|t: int| 0 <= t < points@.len() implies d@.contains(
                    #[trigger] points@[t],
                ) by {
                    assert(sorted@.contains(points@[t]));
                    lemma_chain_contains(sorted@, d@, points@[t]);
                }
                lemma_d_len3(d@, points@);
            }
        }
    }
    if d.len() < 3 {
        return Err(GeometryError::InsufficientPoints);
    }
    let nd = d.len();
    proof {
        assert forall|t: int| 0 <= t < d@.len() implies points@.contains(#[trigger] d@[t]) by {
            assert(d@.contains(d@[t]));
            lemma_chain_contains(d@, sorted@, d@[t]);
            lemma_chain_contains(sorted@, points@, d@[t]);
        }
    }

    let mut col = true;
    let mut t: usize = 0;
    while t < nd
        invariant
            nd == d@.len(),
            nd >= 3,
            t <= nd,
            col == (forall|s: int| 0 <= s < t ==> cross(d@[0], d@[1], #[trigger] d@[s]) == 0),
        decreases nd - t,
    {
        if cross_i(d[0], d[1], d[t]) != 0 {
            col = false;
        }
        t += 1;
    }
    proof {
        if all_collinear(points@) {
            assert forall|s: int| 0 <= s < d@.len() implies cross(d@[0], d@[1], #[trigger] d@[s])
                == 0 by {
                let i0 = choose|u: int| 0 <= u < points@.len() && points@[u] == d@[0];
                let i1 = choose|u: int| 0 <= u < points@.len() && points@[u] == d@[1];
                let i2 = choose|u: int| 0 <= u < points@.len() && points@[u] == d@[s];
                assert(cross(points@[i0], points@[i1], points@[i2]) == 0);
            }
            assert(col);
        }
        if col {
            assert forall|u: int| 0 <= u < points@.len() implies d@.contains(
                #[trigger] points@[u],
            ) by {
                assert(sorted@.contains(points@[u]));
                lemma_chain_contains(sorted@, d@, points@[u]);
            }
            assert(lex_lt(d@[0], d@[1]));
            lemma_all_collinear_of_line(d@, points@);
        }
    }
    if col {
        return Err(GeometryError::DegenerateGeometry);
    }

    let mut si: usize = 0;
    let mut m: usize = 1;
    while m < nd
        invariant
            nd == d@.len(),
            si < nd,
            m <= nd,
            forall|s: int| #![trigger d@[s]]
                0 <= s < m ==> (d@[si as int].y < d@[s].y || (d@[si as int].y == d@[s].y
                    && d@[si as int].x <= d@[s].x)),
        decreases nd - m,
    {
        let c = d[m];
        let b = d[si];
        if c.y < b.y || (c.y == b.y && c.x < b.x) {
            si = m;
        }
        m += 1;
    }
    let start = d[si];
    proof {
        assert forall|u: int| 0 <= u < points@.len() implies (start.y < (#[trigger] points@[u]).y
            || (start.y == points@[u].y && start.x <= points@[u].x)) by {
            assert(sorted@.contains(points@[u]));
            lemma_chain_contains(sorted@, d@, points@[u]);
            let w = choose|w: int| 0 <= w < d@.len() && d@[w] == points@[u];
            assert(d@[si as int].y < d@[w].y || (d@[si as int].y == d@[w].y && d@[si as int].x
                <= d@[w].x));
        }
        assert(is_lowest(start, points@));
        assert(points@.contains(d@[si as int]));
    }

    let mut avail: Vec<Point> = Vec::new();
    let mut t2: usize = 0;
    while t2 < nd
        invariant
            nd == d@.len(),
            t2 <= nd,
            forall|s: int| 0 <= s < d@.len() ==> points@.contains(#[trigger] d@[s]),
            forall|s: int| 0 <= s < avail@.len() ==> points@.contains(#[trigger] avail@[s]),
        decreases nd - t2,
    {
        if t2 != si {
            avail.push(d[t2]);
        }
        t2 += 1;
    }

    let ku = k as usize;
    let mut k0 = if ku < 3 {
        3
    } else {
        ku
    };
    if k0 > nd - 1 {
        k0 = nd - 1;
    }

    let mut ak = k0;
    loop
        invariant
            nd == d@.len(),
            nd >= 3,
            ak <= nd - 1,
            forall|s: int| 0 <= s < avail@.len() ==> points@.contains(#[trigger] avail@[s]),
            points@.contains(start),
            is_lowest(start, points@),
            has_three_distinct(points@),
            !all_collinear(points@),
            points@ == points.points@,
        decreases nd - 1 - ak,
    {
        match trace_ring(&avail, start, ak, &points.points) {
            Some(ring) => {
                if check_all_in_ring(&ring, &points.points) {
                    return Ok(Polygon { vertices: ring });
                }
            },
            None => {},
        }
        if ak >= nd - 1 {
            return Err(GeometryError::NoValidBoundary);
        }
        ak += 1;
    }
}

} // verus!
