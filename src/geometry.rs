//! Integer line rasterization and radius queries over a point set, both
//! done by outside crates.

use vstd::multiset::Multiset;
use vstd::prelude::*;

verus! {

/// An integer pixel position `(x, y)`.
pub type Pixel = (i32, i32);

/// Largest magnitude of a coordinate handed to line rasterization, so that
/// its internal differences and error terms stay within `i32`.
pub const MAX_COORD: i32 = 0x1000_0000;

/// Bound on radius-query inputs: coordinates stay below it and the radius
/// at most reaches it, so that squared distances stay within `i32`.
pub const MAX_QUERY: i32 = 0x8000;

pub open spec fn line_coord_ok(p: (i32, i32)) -> bool {
    -MAX_COORD <= p.0 <= MAX_COORD && -MAX_COORD <= p.1 <= MAX_COORD
}

pub open spec fn query_coord_ok(p: (i32, i32)) -> bool {
    0 <= p.0 < MAX_QUERY && 0 <= p.1 < MAX_QUERY
}

/// Squared Euclidean distance.
pub open spec fn dist2(a: (i32, i32), b: (i32, i32)) -> int {
    (a.0 - b.0) * (a.0 - b.0) + (a.1 - b.1) * (a.1 - b.1)
}

/// The pixels that Bresenham's algorithm visits from `start` to `end`.
pub uninterp spec fn bresenham_of(start: (i32, i32), end: (i32, i32)) -> Seq<(i32, i32)>;

/// Relies on `line_drawing::Bresenham`: the pixels of the segment, in order,
/// which its documentation says include both the start and the end point.
#[verifier::external_body]
pub(crate) fn line_pixels(start: (i32, i32), end: (i32, i32)) -> (r: Vec<(i32, i32)>)
    requires
        line_coord_ok(start),
        line_coord_ok(end),
    ensures
        r@ == bresenham_of(start, end),
        r@.len() > 0,
        r@[0] == start,
        r@.last() == end,
{
    line_drawing::Bresenham::new(start, end).collect()
}

/// A two-dimensional k-d tree over integer points.
#[verifier::external_body]
pub struct PointIndex {
    tree: kd_tree::KdTree2<[i32; 2]>,
}

/// The points a `PointIndex` holds.
pub uninterp spec fn indexed_points(t: PointIndex) -> Multiset<(i32, i32)>;

/// Relies on `kd_tree::KdTree::build`: the tree holds exactly the given
/// points, which it only reorders.
#[verifier::external_body]
pub(crate) fn build_index(points: &Vec<(i32, i32)>) -> (t: PointIndex)
    ensures
        indexed_points(t) == points@.to_multiset(),
{
    PointIndex { tree: kd_tree::KdTree2::build(points.iter().map(|p| [p.0, p.1]).collect()) }
}

/// Relies on `kd_tree::KdSlice::within_radius`: the held points whose
/// squared distance to `query` is below `radius * radius`. It indexes the
/// middle of the tree, so the tree must not be empty.
#[verifier::external_body]
pub(crate) fn within_radius(t: &PointIndex, query: Pixel, radius: i32) -> (near: Vec<Pixel>)
    requires
        indexed_points(*t).len() > 0,
        forall|p: (i32, i32)| indexed_points(*t).contains(p) ==> query_coord_ok(p),
        query_coord_ok(query),
        0 <= radius <= MAX_QUERY,
    ensures
        forall|p: Pixel| #[trigger] near@.contains(p) == (indexed_points(*t).contains(p) && dist2(p, query) < radius * radius),
{
    t.tree.within_radius(&[query.0, query.1], radius).into_iter().map(|p| (p[0], p[1])).collect()
}

} // verus!
