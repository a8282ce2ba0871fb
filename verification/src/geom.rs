use vstd::prelude::*;

verus! {

/// A planar point with integer coordinates.
///
/// Coordinates are exact, so every geometric predicate in this crate
/// (orientation, squared distance, collinearity) is decided exactly.
#[derive(Clone, Copy, PartialEq, Eq, Structural, Debug)]
pub struct Point {
    pub x: i32,
    pub y: i32,
}

impl Point {
    pub fn new(x: i32, y: i32) -> (p: Point)
        ensures
            p.x == x,
            p.y == y,
    {
        Point { x, y }
    }
}

/// Why a hull computation returned no polygon. All three conditions are
/// recoverable by the caller: they mean "nothing to draw yet", not a fault.
#[derive(Clone, Copy, PartialEq, Eq, Structural, Debug)]
pub enum GeometryError {
    /// Fewer than three distinct points were supplied.
    InsufficientPoints,
    /// The points admit no polygon of nonzero area (for example, all collinear).
    DegenerateGeometry,
    /// Neighbour tracing exhausted its retries without closing a simple ring.
    NoValidBoundary,
}

/// A closed polygon: an ordered ring of vertices, the last one implicitly
/// connected back to the first.
#[derive(Clone, PartialEq, Eq, Debug)]
pub struct Polygon {
    pub vertices: Vec<Point>,
}

impl View for Polygon {
    type V = Seq<Point>;

    open spec fn view(&self) -> Seq<Point> {
        self.vertices@
    }
}

/// Twice the signed area of the triangle (a, b, c): positive when the three
/// points make a counter-clockwise turn, negative when clockwise, zero when
/// collinear.
pub open spec fn cross(a: Point, b: Point, c: Point) -> int {
    (b.x - a.x) * (c.y - a.y) - (b.y - a.y) * (c.x - a.x)
}

/// Squared Euclidean distance between two points.
pub open spec fn dist2(a: Point, b: Point) -> int {
    (a.x - b.x) * (a.x - b.x) + (a.y - b.y) * (a.y - b.y)
}

/// Lexicographic order on points: by x, then by y.
pub open spec fn lex_lt(a: Point, b: Point) -> bool {
    a.x < b.x || (a.x == b.x && a.y < b.y)
}

pub open spec fn lex_le(a: Point, b: Point) -> bool {
    lex_lt(a, b) || a == b
}

/// Every triple of points in the sequence is collinear.
pub open spec fn all_collinear(s: Seq<Point>) -> bool {
    forall|i: int, j: int, k: int|
        0 <= i < s.len() && 0 <= j < s.len() && 0 <= k < s.len()
            ==> #[trigger] cross(s[i], s[j], s[k]) == 0
}

/// The sequence holds at least three pairwise distinct points.
pub open spec fn has_three_distinct(s: Seq<Point>) -> bool {
    exists|i: int, j: int, k: int|
        #![trigger s[i], s[j], s[k]]
        0 <= i < s.len() && 0 <= j < s.len() && 0 <= k < s.len()
            && s[i] != s[j] && s[i] != s[k] && s[j] != s[k]
}

pub proof fn lemma_mul_bound(a: int, b: int, m: int)
    by (nonlinear_arith)
    requires
        -m <= a <= m,
        -m <= b <= m,
        0 <= m,
    ensures
        -(m * m) <= a * b <= m * m,
{
}

pub proof fn lemma_square_bound(a: int, m: int)
    by (nonlinear_arith)
    requires
        -m <= a <= m,
        0 <= m,
    ensures
        0 <= a * a <= m * m,
{
}

pub proof fn lemma_mul_nonneg_bound(a: int, b: int, ma: int, mb: int)
    by (nonlinear_arith)
    requires
        0 <= a <= ma,
        0 <= b <= mb,
    ensures
        0 <= a * b <= ma * mb,
{
}

/// Exact orientation test; never overflows because coordinate differences of
/// `i32` values fit in `i64` and their products fit in `i128`.
pub fn cross_i(a: Point, b: Point, c: Point) -> (r: i128)
    ensures
        r == cross(a, b, c),
{
    let bax: i64 = b.x as i64 - a.x as i64;
    let bay: i64 = b.y as i64 - a.y as i64;
    let cax: i64 = c.x as i64 - a.x as i64;
    let cay: i64 = c.y as i64 - a.y as i64;
    proof {
        lemma_mul_bound(bax as int, cay as int, 0x1_0000_0000);
        lemma_mul_bound(bay as int, cax as int, 0x1_0000_0000);
    }
    (bax as i128) * (cay as i128) - (bay as i128) * (cax as i128)
}

/// Exact squared distance; never overflows, as in `cross_i`.
pub fn dist2_i(a: Point, b: Point) -> (r: i128)
    ensures
        r == dist2(a, b),
{
    let dx: i64 = a.x as i64 - b.x as i64;
    let dy: i64 = a.y as i64 - b.y as i64;
    proof {
        lemma_mul_bound(dx as int, dx as int, 0x1_0000_0000);
        lemma_mul_bound(dy as int, dy as int, 0x1_0000_0000);
    }
    (dx as i128) * (dx as i128) + (dy as i128) * (dy as i128)
}

pub fn lex_lt_i(a: Point, b: Point) -> (r: bool)
    ensures
        r == lex_lt(a, b),
{
    a.x < b.x || (a.x == b.x && a.y < b.y)
}

} // verus!
