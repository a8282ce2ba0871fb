//! Planar boundary construction over an editable set of points with integer
//! coordinates: the convex hull, a concavity-parameterized concave hull, and a
//! k-nearest-neighbour concave hull. Every geometric predicate is decided with
//! exact integer arithmetic, so the three hull functions are deterministic and
//! their results carry proved guarantees: membership of every vertex in the
//! input, simplicity of the returned ring, and (for the convex hull)
//! counter-clockwise convexity and containment of every input point.

pub mod geom;
pub mod pointset;
pub mod ring;
pub mod seqfacts;
pub mod convex;
pub mod concave;
pub mod knearest;
