//! Linking sparse boundary samples into continuous outlines.
//!
//! Every boundary pixel (slice alpha above 128) is joined by a Bresenham
//! segment to every boundary pixel closer than the linking radius, and each
//! pixel of each segment is stamped in the outline colour.

use vstd::prelude::*;

use crate::geometry::{
    bresenham_of, build_index, dist2, indexed_points, line_coord_ok, line_pixels,
    query_coord_ok, within_radius, Pixel, MAX_QUERY,
};
use crate::raster::{
    at, in_bounds, lemma_paint_twice, outline_spec, paint, Raster, Rgba, MAX_SIDE,
};

verus! {

/// The boundary pixels of a slice mask: those whose alpha exceeds 128.
pub open spec fn boundary_set(px: Seq<Rgba>, w: int, h: int) -> Set<Pixel> {
    Set::new(
        |p: Pixel|
            in_bounds(w, h, p.0 as int, p.1 as int) && at(px, w, p.0 as int, p.1 as int).a > 128,
    )
}

/// Every pixel on a segment between two boundary pixels closer than
/// `radius`.
pub open spec fn link_pixels(bnd: Set<Pixel>, radius: int) -> Set<Pixel> {
    Set::new(
        |p: Pixel|
            exists|a: Pixel, b: Pixel|
                bnd.contains(a) && bnd.contains(b) && dist2(b, a) < radius * radius
                    && #[trigger] bresenham_of(a, b).contains(p),
    )
}

/// The outline raster: the slice with every linking segment stamped in the
/// outline colour.
pub open spec fn linked(px: Seq<Rgba>, w: int, h: int, radius: int) -> Seq<Rgba> {
    paint(px, w, link_pixels(boundary_set(px, w, h), radius), outline_spec())
}

spec fn links_from(a: Pixel, close: Seq<Pixel>, j: int) -> Set<Pixel> {
    Set::new(|p: Pixel| exists|k: int| 0 <= k < j && #[trigger] bresenham_of(a, close[k]).contains(p))
}

spec fn links_upto(pts: Seq<Pixel>, i: int, bnd: Set<Pixel>, radius: int) -> Set<Pixel> {
    Set::new(
        |p: Pixel|
            exists|m: int, b: Pixel|
                0 <= m < i && bnd.contains(b) && dist2(b, pts[m]) < radius * radius
                    && #[trigger] bresenham_of(pts[m], b).contains(p),
    )
}

spec fn prefix_set(line: Seq<Pixel>, k: int) -> Set<Pixel> {
    Set::new(|p: Pixel| exists|m: int| 0 <= m < k && line[m] == p)
}

/// The boundary pixels of a slice mask, row by row.
pub fn boundary_points(slice: &Raster) -> (pts: Vec<Pixel>)
    requires
        slice.wf(),
    ensures
        forall|p: Pixel|
            #[trigger] pts@.contains(p) == boundary_set(
                slice.pixels@,
                slice.width as int,
                slice.height as int,
            ).contains(p),
{
    let ghost bnd = boundary_set(slice.pixels@, slice.width as int, slice.height as int);
    let mut pts: Vec<Pixel> = Vec::new();
    let mut y: u32 = 0;
    while y < slice.height
        invariant
            slice.wf(),
            y <= slice.height,
            bnd == boundary_set(slice.pixels@, slice.width as int, slice.height as int),
            forall|k: int| 0 <= k < pts@.len() ==> bnd.contains(#[trigger] pts@[k]),
            forall|p: Pixel| bnd.contains(p) && p.1 < y ==> pts@.contains(p),
        decreases slice.height - y,
    {
        let mut x: u32 = 0;
        while x < slice.width
            invariant
                slice.wf(),
                y < slice.height,
                x <= slice.width,
                bnd == boundary_set(slice.pixels@, slice.width as int, slice.height as int),
                forall|k: int| 0 <= k < pts@.len() ==> bnd.contains(#[trigger] pts@[k]),
                forall|p: Pixel|
                    bnd.contains(p) && (p.1 < y || (p.1 == y && p.0 < x)) ==> pts@.contains(p),
            decreases slice.width - x,
        {
            let c = slice.get(x, y);
            if c.a > 128 {
                let ghost before = pts@;
                let p: Pixel = (x as i32, y as i32);
                pts.push(p);
                proof {
                    assert(pts@[before.len() as int] == p);
                    assert forall|q: Pixel|
                        bnd.contains(q) && (q.1 < y || (q.1 == y && q.0 < x + 1)) implies pts@.contains(
                        q,
                    ) by {
                        if q == p {
                        } else {
                            let k = choose|k: int| 0 <= k < before.len() && before[k] == q;
                            assert(pts@[k] == q);
                        }
                    }
                }
            } else {
                proof {
                    assert forall|q: Pixel|
                        bnd.contains(q) && (q.1 < y || (q.1 == y && q.0 < x + 1)) implies pts@.contains(
                        q,
                    ) by {
                        if q.1 == y && q.0 == x {
                            assert(!bnd.contains(q));
                        }
                    }
                }
            }
            x = x + 1;
        }
        y = y + 1;
    }
    proof {
        assert forall|p: Pixel| #[trigger] pts@.contains(p) == bnd.contains(p) by {
            if pts@.contains(p) {
                let k = choose|k: int| 0 <= k < pts@.len() && pts@[k] == p;
                assert(bnd.contains(pts@[k]));
            }
        }
    }
    pts
}

proof fn lemma_prefix_step(line: Seq<Pixel>, k: int)
    requires
        0 <= k < line.len(),
    ensures
        prefix_set(line, k).union(set![line[k]]) =~= prefix_set(line, k + 1),
{
    assert forall|p: Pixel| prefix_set(line, k + 1).contains(p) implies prefix_set(line, k).union(
        set![line[k]],
    ).contains(p) by {
        let m = choose|m: int| 0 <= m < k + 1 && line[m] == p;
        if m < k {
            assert(prefix_set(line, k).contains(p));
        }
    }
    assert forall|p: Pixel| prefix_set(line, k).contains(p) implies prefix_set(line, k + 1).contains(
        p,
    ) by {
        let m = choose|m: int| 0 <= m < k && line[m] == p;
    }
    assert(prefix_set(line, k + 1).contains(line[k]));
}

proof fn lemma_links_from_step(a: Pixel, close: Seq<Pixel>, j: int, line: Seq<Pixel>)
    requires
        0 <= j < close.len(),
        line == bresenham_of(a, close[j]),
    ensures
        links_from(a, close, j).union(prefix_set(line, line.len() as int)) =~= links_from(
            a,
            close,
            j + 1,
        ),
{
    assert forall|p: Pixel| links_from(a, close, j + 1).contains(p) implies links_from(
        a,
        close,
        j,
    ).union(prefix_set(line, line.len() as int)).contains(p) by {
        let k = choose|k: int| 0 <= k < j + 1 && #[trigger] bresenham_of(a, close[k]).contains(p);
        if k < j {
            assert(links_from(a, close, j).contains(p));
        } else {
            let m = choose|m: int| 0 <= m < line.len() && line[m] == p;
            assert(prefix_set(line, line.len() as int).contains(p));
        }
    }
    assert forall|p: Pixel| links_from(a, close, j).union(prefix_set(line, line.len() as int)).contains(
        p,
    ) implies links_from(a, close, j + 1).contains(p) by {
        if links_from(a, close, j).contains(p) {
            let k = choose|k: int| 0 <= k < j && #[trigger] bresenham_of(a, close[k]).contains(p);
        } else {
            let m = choose|m: int| 0 <= m < line.len() && line[m] == p;
            assert(bresenham_of(a, close[j]).contains(p));
        }
    }
}

proof fn lemma_links_upto_step(
    pts: Seq<Pixel>,
    i: int,
    bnd: Set<Pixel>,
    radius: int,
    close: Seq<Pixel>,
)
    requires
        0 <= i < pts.len(),
        forall|b: Pixel|
            #[trigger] close.contains(b) == (bnd.contains(b) && dist2(b, pts[i]) < radius * radius),
    ensures
        links_upto(pts, i, bnd, radius).union(links_from(pts[i], close, close.len() as int))
            =~= links_upto(pts, i + 1, bnd, radius),
{
    let a = pts[i];
    assert forall|p: Pixel| links_upto(pts, i + 1, bnd, radius).contains(p) implies links_upto(
        pts,
        i,
        bnd,
        radius,
    ).union(links_from(a, close, close.len() as int)).contains(p) by {
        let (m, b) = choose|m: int, b: Pixel|
            0 <= m < i + 1 && bnd.contains(b) && dist2(b, pts[m]) < radius * radius
                && #[trigger] bresenham_of(pts[m], b).contains(p);
        if m < i {
            assert(links_upto(pts, i, bnd, radius).contains(p));
        } else {
            assert(close.contains(b));
            let k = choose|k: int| 0 <= k < close.len() && close[k] == b;
            assert(bresenham_of(a, close[k]).contains(p));
            assert(links_from(a, close, close.len() as int).contains(p));
        }
    }
    assert forall|p: Pixel| links_upto(pts, i, bnd, radius).union(
        links_from(a, close, close.len() as int),
    ).contains(p) implies links_upto(pts, i + 1, bnd, radius).contains(p) by {
        if links_upto(pts, i, bnd, radius).contains(p) {
            let (m, b) = choose|m: int, b: Pixel|
                0 <= m < i && bnd.contains(b) && dist2(b, pts[m]) < radius * radius
                    && #[trigger] bresenham_of(pts[m], b).contains(p);
        } else {
            let k = choose|k: int|
                0 <= k < close.len() && #[trigger] bresenham_of(a, close[k]).contains(p);
            assert(close.contains(close[k]));
            assert(bresenham_of(pts[i], close[k]).contains(p));
        }
    }
}

proof fn lemma_links_complete(pts: Seq<Pixel>, bnd: Set<Pixel>, radius: int)
    requires
        forall|p: Pixel| #[trigger] pts.contains(p) == bnd.contains(p),
    ensures
        links_upto(pts, pts.len() as int, bnd, radius) =~= link_pixels(bnd, radius),
{
    assert forall|p: Pixel| link_pixels(bnd, radius).contains(p) implies links_upto(
        pts,
        pts.len() as int,
        bnd,
        radius,
    ).contains(p) by {
        let (a, b) = choose|a: Pixel, b: Pixel|
            bnd.contains(a) && bnd.contains(b) && dist2(b, a) < radius * radius
                && #[trigger] bresenham_of(a, b).contains(p);
        assert(pts.contains(a));
        let m = choose|m: int| 0 <= m < pts.len() && pts[m] == a;
        assert(bresenham_of(pts[m], b).contains(p));
    }
    assert forall|p: Pixel| links_upto(pts, pts.len() as int, bnd, radius).contains(p) implies link_pixels(
        bnd,
        radius,
    ).contains(p) by {
        let (m, b) = choose|m: int, b: Pixel|
            0 <= m < pts.len() && bnd.contains(b) && dist2(b, pts[m]) < radius * radius
                && #[trigger] bresenham_of(pts[m], b).contains(p);
        assert(pts.contains(pts[m]));
    }
}

/// Joins every boundary pixel of `slice` to every boundary pixel closer
/// than `radius` by a Bresenham segment stamped in the outline colour.
pub fn link_boundaries(slice: &mut Raster, radius: i32)
    requires
        old(slice).wf(),
        0 <= radius <= MAX_QUERY,
    ensures
        final(slice).wf(),
        final(slice).width == old(slice).width,
        final(slice).height == old(slice).height,
        final(slice).pixels@ == linked(
            old(slice).pixels@,
            old(slice).width as int,
            old(slice).height as int,
            radius as int,
        ),
{
    let ghost px0 = slice.pixels@;
    let ghost w = slice.width as int;
    let ghost h = slice.height as int;
    let ghost bnd = boundary_set(px0, w, h);
    let ghost r = radius as int;
    let pts = boundary_points(slice);
    proof {
        lemma_links_complete(pts@, bnd, r);
        assert(paint(px0, w, links_upto(pts@, 0, bnd, r), outline_spec()) =~= px0);
    }
    if pts.len() == 0 {
        return;
    }
    let tree = build_index(&pts);
    proof {
        pts@.to_multiset_ensures();
        assert forall|p: Pixel| indexed_points(tree).contains(p) implies query_coord_ok(p) by {
            assert(pts@.contains(p));
        }
    }
    let outline = Rgba::outline();
    let mut i: usize = 0;
    while i < pts.len()
        invariant
            slice.wf(),
            i <= pts@.len(),
            slice.width as int == w,
            slice.height as int == h,
            w <= MAX_SIDE,
            h <= MAX_SIDE,
            0 <= radius <= MAX_QUERY,
            r == radius as int,
            outline == outline_spec(),
            bnd == boundary_set(px0, w, h),
            forall|p: Pixel| #[trigger] pts@.contains(p) == bnd.contains(p),
            indexed_points(tree) == pts@.to_multiset(),
            indexed_points(tree).len() > 0,
            forall|p: Pixel| indexed_points(tree).contains(p) ==> query_coord_ok(p),
            slice.pixels@ == paint(px0, w, links_upto(pts@, i as int, bnd, r), outline_spec()),
        decreases pts.len() - i,
    {
        let a = pts[i];
        proof {
            assert(pts@.contains(a));
        }
        let close = within_radius(&tree, a, radius);
        proof {
            pts@.to_multiset_ensures();
            assert forall|b: Pixel|
                #[trigger] close@.contains(b) == (bnd.contains(b) && dist2(b, pts@[i as int]) < r * r) by {
                assert(indexed_points(tree).contains(b) == pts@.contains(b));
            }
        }
        let ghost done = links_upto(pts@, i as int, bnd, r);
        proof {
            assert(done.union(links_from(a, close@, 0)) =~= done);
        }
        let mut j: usize = 0;
        while j < close.len()
            invariant
                slice.wf(),
                slice.width as int == w,
                slice.height as int == h,
                0 <= i < pts@.len(),
                j <= close@.len(),
                a == pts@[i as int],
                bnd.contains(a),
                in_bounds(w, h, a.0 as int, a.1 as int),
                w <= MAX_SIDE,
                h <= MAX_SIDE,
                outline == outline_spec(),
                forall|b: Pixel|
                    #[trigger] close@.contains(b) == (bnd.contains(b) && dist2(b, a) < r * r),
                bnd == boundary_set(px0, w, h),
                done == links_upto(pts@, i as int, bnd, r),
                slice.pixels@ == paint(px0, w, done.union(links_from(a, close@, j as int)), outline_spec()),
            decreases close.len() - j,
        {
            let b = close[j];
            proof {
                assert(close@.contains(b));
            }
            let line = line_pixels(a, b);
            let ghost sofar = done.union(links_from(a, close@, j as int));
            proof {
                assert(sofar.union(prefix_set(line@, 0)) =~= sofar);
            }
            let mut k: usize = 0;
            while k < line.len()
                invariant
                    slice.wf(),
                    slice.width as int == w,
                    slice.height as int == h,
                    outline == outline_spec(),
                    0 <= j < close@.len(),
                    k <= line@.len(),
                    line@ == bresenham_of(a, close@[j as int]),
                    sofar == done.union(links_from(a, close@, j as int)),
                    slice.pixels@ == paint(px0, w, sofar.union(prefix_set(line@, k as int)), outline_spec()),
                decreases line.len() - k,
            {
                let q = line[k];
                let ghost before = slice.pixels@;
                slice.put(q.0, q.1, outline);
                proof {
                    lemma_paint_twice(px0, w, sofar.union(prefix_set(line@, k as int)), set![q], outline);
                    lemma_prefix_step(line@, k as int);
                    assert(sofar.union(prefix_set(line@, k as int)).union(set![q]) =~= sofar.union(
                        prefix_set(line@, k + 1),
                    ));
                }
                k = k + 1;
            }
            proof {
                lemma_links_from_step(a, close@, j as int, line@);
                assert(sofar.union(prefix_set(line@, line@.len() as int)) =~= done.union(
                    links_from(a, close@, j + 1),
                ));
            }
            j = j + 1;
        }
        proof {
            lemma_links_upto_step(pts@, i as int, bnd, r, close@);
        }
        i = i + 1;
    }
    proof {
        lemma_links_complete(pts@, bnd, r);
    }
}

/// Linking is idempotent and order-free: the outline raster is the slice
/// with one set of segment pixels stamped, so stamping those segments again
/// (as a second run over the same slice does) changes nothing, and stamping
/// them split into any two groups, in either order, gives the same raster.
pub proof fn lemma_linking_idempotent(
    px: Seq<Rgba>,
    w: int,
    h: int,
    radius: int,
    first: Set<Pixel>,
    second: Set<Pixel>,
)
    requires
        first.union(second) == link_pixels(boundary_set(px, w, h), radius),
    ensures
        paint(linked(px, w, h, radius), w, link_pixels(boundary_set(px, w, h), radius), outline_spec())
            == linked(px, w, h, radius),
        paint(paint(px, w, first, outline_spec()), w, second, outline_spec()) == linked(px, w, h, radius),
        paint(paint(px, w, second, outline_spec()), w, first, outline_spec()) == linked(px, w, h, radius),
{
    let segs = link_pixels(boundary_set(px, w, h), radius);
    crate::raster::lemma_paint_idempotent(px, w, segs, outline_spec());
    lemma_paint_twice(px, w, first, second, outline_spec());
    crate::raster::lemma_paint_commutes(px, w, first, second, outline_spec());
}

/// Linking depends on the slice alone: two runs over equal slices with the
/// same radius give identical outline rasters, pixel for pixel.
pub proof fn lemma_linking_repeatable(a: Seq<Rgba>, b: Seq<Rgba>, w: int, h: int, radius: int)
    requires
        a == b,
    ensures
        linked(a, w, h, radius) == linked(b, w, h, radius),
        linked(a, w, h, radius).len() == a.len(),
{
}

} // verus!
