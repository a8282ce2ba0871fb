use vstd::prelude::*;

use crate::geom::{dist2, dist2_i, Point};

verus! {

/// Distance threshold for click-to-toggle editing: a click within this
/// Euclidean distance of an existing point removes that point instead of
/// adding a new one.
pub const PROXIMITY_RADIUS: i32 = 10;

/// The click lands close enough to `p` to target it for removal.
pub open spec fn within_proximity(p: Point, q: Point) -> bool {
    dist2(p, q) < PROXIMITY_RADIUS * PROXIMITY_RADIUS
}

/// The editable set of points a boundary is derived from. Insertion order is
/// kept, but the hull functions treat the contents as an unordered collection;
/// duplicate points are permitted.
pub struct PointSet {
    pub points: Vec<Point>,
}

impl View for PointSet {
    type V = Seq<Point>;

    open spec fn view(&self) -> Seq<Point> {
        self.points@
    }
}

impl PointSet {
    pub fn new() -> (s: PointSet)
        ensures
            s@ == Seq::<Point>::empty(),
    {
        PointSet { points: Vec::new() }
    }

    /// Click-to-toggle editing: if some existing point lies strictly within
    /// the proximity radius of `(x, y)`, the first such point (in insertion
    /// order) is removed; otherwise `(x, y)` is appended.
    pub fn add_or_toggle(&mut self, x: i32, y: i32)
        ensures
            ({
                let p = Point { x, y };
                let s = old(self)@;
                if exists|i: int| 0 <= i < s.len() && within_proximity(s[i], p) {
                    exists|i: int|
                        0 <= i < s.len() && within_proximity(s[i], p)
                            && (forall|j: int| 0 <= j < i ==> !within_proximity(s[j], p))
                            && final(self)@ == s.remove(i)
                } else {
                    final(self)@ == s.push(p)
                }
            }),
    {
        let p = Point { x, y };
        let n = self.points.len();
        let mut i: usize = 0;
        while i < n
            invariant
                n == self@.len(),
                0 <= i <= n,
                self@ == old(self)@,
                forall|j: int| 0 <= j < i ==> !within_proximity(self@[j], p),
                p == (Point { x, y }),
            decreases n - i,
        {
            let d = dist2_i(self.points[i], p);
            proof {
                assert(PROXIMITY_RADIUS * PROXIMITY_RADIUS == 100);
            }
            if d < 100 {
                self.points.remove(i);
                return;
            }
            i += 1;
        }
        self.points.push(p);
    }

    /// Empties the set unconditionally.
    pub fn clear(&mut self)
        ensures
            final(self)@ == Seq::<Point>::empty(),
    {
        self.points.clear();
    }

    pub fn len(&self) -> (n: usize)
        ensures
            n == self@.len(),
    {
        self.points.len()
    }
}

} // verus!
