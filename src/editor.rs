//! The annotation tools: pencil, eraser and room identification, applied
//! along the pixel path between two pointer samples.

use vstd::prelude::*;

use crate::fill::{
    flood_fill, flood_filled, lemma_fill_enclosed_region, lemma_fill_keeps_outline,
    region_connected, region_enclosed,
};
use crate::geometry::{bresenham_of, dist2, line_coord_ok, line_pixels, Pixel};
use crate::input::{pressed, MouseButtonState};
use crate::raster::{
    at, col, erased_spec, lemma_idx_col_row, lemma_idx_in_range, pixel_of, in_bounds, lemma_col_row_idx, lemma_paint_twice, outline_spec, paint,
    room_blue_spec, row, stamp_all, wall_red_spec, Raster, Rgba,
};

verus! {

/// Squared radius of the eraser's disk.
pub const ERASER_RADIUS_SQ: i32 = 25;

/// The active raster-editing tool.
#[derive(Clone, Copy, PartialEq, Eq, Structural, Debug)]
pub enum DrawTool {
    Pencil,
    Eraser,
    RoomIdentification,
}

/// The pixels within the eraser's disk around `c`.
pub open spec fn disk(c: Pixel) -> Set<Pixel> {
    Set::new(|p: Pixel| dist2(p, c) <= ERASER_RADIUS_SQ)
}

/// The pixels within the eraser's disk around some point of `path`.
pub open spec fn eraser_cover(path: Seq<Pixel>) -> Set<Pixel> {
    Set::new(|p: Pixel| exists|k: int| 0 <= k < path.len() && #[trigger] dist2(p, path[k]) <= ERASER_RADIUS_SQ)
}

spec fn disk_part(c: Pixel, dy: int, dx: int) -> Set<Pixel> {
    Set::new(
        |p: Pixel|
            dist2(p, c) <= ERASER_RADIUS_SQ && (p.1 - c.1 < dy || (p.1 - c.1 == dy && p.0 - c.0 < dx)),
    )
}

proof fn lemma_square_bound(a: int, b: int)
    requires
        a * a + b * b <= 25,
    ensures
        -5 <= a <= 5,
        -5 <= b <= 5,
{
    assert(b * b >= 0) by (nonlinear_arith);
    assert(a * a >= 0) by (nonlinear_arith);
    assert(-5 <= a <= 5) by (nonlinear_arith)
        requires a * a <= 25;
    assert(-5 <= b <= 5) by (nonlinear_arith)
        requires b * b <= 25;
}

/// Clears the eraser's disk around `c`, skipping pixels outside the raster.
fn erase_disk(raster: &mut Raster, c: Pixel)
    requires
        old(raster).wf(),
        line_coord_ok(c),
    ensures
        final(raster).wf(),
        final(raster).width == old(raster).width,
        final(raster).height == old(raster).height,
        final(raster).pixels@ == paint(old(raster).pixels@, old(raster).width as int, disk(c), erased_spec()),
{
    let ghost px0 = raster.pixels@;
    let ghost w = raster.width as int;
    let erased = Rgba::erased();
    proof {
        assert(disk_part(c, -5, -5) =~= Set::<Pixel>::empty()) by {
            assert forall|p: Pixel| !#[trigger] disk_part(c, -5, -5).contains(p) by {
                if dist2(p, c) <= 25 {
                    lemma_square_bound(p.0 - c.0, p.1 - c.1);
                }
            }
        }
        assert(paint(px0, w, Set::<Pixel>::empty(), erased) =~= px0);
    }
    let mut dy: i32 = -5;
    while dy <= 5
        invariant
            raster.wf(),
            raster.width as int == w,
            raster.height == old(raster).height,
            px0 == old(raster).pixels@,
            w == old(raster).width as int,
            erased == erased_spec(),
            line_coord_ok(c),
            -5 <= dy <= 6,
            raster.pixels@ == paint(px0, w, disk_part(c, dy as int, -5), erased_spec()),
        decreases 6 - dy,
    {
        let mut dx: i32 = -5;
        while dx <= 5
            invariant
                raster.wf(),
                raster.width as int == w,
                raster.height == old(raster).height,
                erased == erased_spec(),
                line_coord_ok(c),
                -5 <= dy <= 5,
                -5 <= dx <= 6,
                raster.pixels@ == paint(px0, w, disk_part(c, dy as int, dx as int), erased_spec()),
            decreases 6 - dx,
        {
            let ghost before = disk_part(c, dy as int, dx as int);
            let ghost q: Pixel = ((c.0 + dx) as i32, (c.1 + dy) as i32);
            assert(0 <= dx * dx <= 36 && 0 <= dy * dy <= 25) by (nonlinear_arith)
                requires -5 <= dx <= 6, -5 <= dy <= 5;
            if dx * dx + dy * dy <= ERASER_RADIUS_SQ {
                raster.put(c.0 + dx, c.1 + dy, erased);
                proof {
                    lemma_paint_twice(px0, w, before, set![q], erased);
                    assert(before.union(set![q]) =~= disk_part(c, dy as int, dx + 1));
                }
            } else {
                proof {
                    assert(before =~= disk_part(c, dy as int, dx + 1));
                }
            }
            dx = dx + 1;
        }
        proof {
            assert(disk_part(c, dy as int, 6) =~= disk_part(c, dy + 1, -5)) by {
                assert forall|p: Pixel| #[trigger] disk_part(c, dy as int, 6).contains(p) == disk_part(
                    c,
                    dy + 1,
                    -5,
                ).contains(p) by {
                    if dist2(p, c) <= 25 {
                        lemma_square_bound(p.0 - c.0, p.1 - c.1);
                    }
                }
            }
        }
        dy = dy + 1;
    }
    proof {
        assert(disk_part(c, 6, -5) =~= disk(c)) by {
            assert forall|p: Pixel| #[trigger] disk(c).contains(p) implies disk_part(c, 6, -5).contains(p) by {
                lemma_square_bound(p.0 - c.0, p.1 - c.1);
            }
        }
    }
}

/// Draws the pixel path from `from` to `to` in the outline colour.
pub fn pencil_stroke(raster: &mut Raster, from: Pixel, to: Pixel)
    requires
        old(raster).wf(),
        line_coord_ok(from),
        line_coord_ok(to),
    ensures
        final(raster).wf(),
        final(raster).width == old(raster).width,
        final(raster).height == old(raster).height,
        final(raster).pixels@ == paint(
            old(raster).pixels@,
            old(raster).width as int,
            bresenham_of(from, to).to_set(),
            outline_spec(),
        ),
        in_bounds(old(raster).width as int, old(raster).height as int, from.0 as int, from.1 as int)
            ==> at(final(raster).pixels@, old(raster).width as int, from.0 as int, from.1 as int)
            == outline_spec(),
        in_bounds(old(raster).width as int, old(raster).height as int, to.0 as int, to.1 as int)
            ==> at(final(raster).pixels@, old(raster).width as int, to.0 as int, to.1 as int)
            == outline_spec(),
{
    let ghost w = raster.width as int;
    let ghost h = raster.height as int;
    let line = line_pixels(from, to);
    let outline = Rgba::outline();
    stamp_all(raster, &line, outline);
    proof {
        assert(line@.contains(line@[0]));
        assert(line@.contains(line@[line@.len() - 1]));
        if in_bounds(w, h, from.0 as int, from.1 as int) {
            lemma_idx_in_range(w, h, from.0 as int, from.1 as int);
            lemma_idx_col_row(w, h, from.0 as int, from.1 as int);
        }
        if in_bounds(w, h, to.0 as int, to.1 as int) {
            lemma_idx_in_range(w, h, to.0 as int, to.1 as int);
            lemma_idx_col_row(w, h, to.0 as int, to.1 as int);
        }
    }
}

/// Clears the eraser's disk around every pixel of the path from `from` to
/// `to` to transparent white.
pub fn erase_stroke(raster: &mut Raster, from: Pixel, to: Pixel)
    requires
        old(raster).wf(),
        line_coord_ok(from),
        line_coord_ok(to),
    ensures
        final(raster).wf(),
        final(raster).width == old(raster).width,
        final(raster).height == old(raster).height,
        final(raster).pixels@ == paint(
            old(raster).pixels@,
            old(raster).width as int,
            eraser_cover(bresenham_of(from, to)),
            erased_spec(),
        ),
{
    let ghost px0 = raster.pixels@;
    let ghost w = raster.width as int;
    let line = line_pixels(from, to);
    let mut k: usize = 0;
    proof {
        assert(eraser_cover(line@.take(0)) =~= Set::<Pixel>::empty());
        assert(paint(px0, w, Set::<Pixel>::empty(), erased_spec()) =~= px0);
    }
    while k < line.len()
        invariant
            raster.wf(),
            raster.width as int == w,
            raster.height == old(raster).height,
            px0 == old(raster).pixels@,
            w == old(raster).width as int,
            line@ == bresenham_of(from, to),
            k <= line@.len(),
            raster.pixels@ == paint(px0, w, eraser_cover(line@.take(k as int)), erased_spec()),
        decreases line@.len() - k,
    {
        let c = line[k];
        if -0x1000_0000 <= c.0 && c.0 <= 0x1000_0000 && -0x1000_0000 <= c.1 && c.1 <= 0x1000_0000 {
            erase_disk(raster, c);
        } else {
            // A path pixel this far out has no disk pixel inside the raster.
            proof {
                assert(paint(raster.pixels@, w, disk(c), erased_spec()) =~= raster.pixels@) by {
                    assert forall|i: int| 0 <= i < raster.pixels@.len() implies !disk(c).contains(
                        (col(w, i) as i32, row(w, i) as i32),
                    ) by {
                        lemma_col_row_idx(w, raster.height as int, i);
                        let p = (col(w, i) as i32, row(w, i) as i32);
                        if dist2(p, c) <= 25 {
                            lemma_square_bound(p.0 - c.0, p.1 - c.1);
                        }
                    }
                }
            }
        }
        proof {
            let before = eraser_cover(line@.take(k as int));
            lemma_paint_twice(px0, w, before, disk(c), erased_spec());
            assert(before.union(disk(c)) =~= eraser_cover(line@.take(k + 1))) by {
                assert forall|p: Pixel| eraser_cover(line@.take(k + 1)).contains(p) implies before.union(
                    disk(c),
                ).contains(p) by {
                    let m = choose|m: int|
                        0 <= m < k + 1 && #[trigger] dist2(p, line@.take(k + 1)[m]) <= ERASER_RADIUS_SQ;
                    if m < k {
                        assert(dist2(p, line@.take(k as int)[m]) <= ERASER_RADIUS_SQ);
                    }
                }
                assert forall|p: Pixel| before.contains(p) implies eraser_cover(line@.take(k + 1)).contains(
                    p,
                ) by {
                    let m = choose|m: int|
                        0 <= m < k && #[trigger] dist2(p, line@.take(k as int)[m]) <= ERASER_RADIUS_SQ;
                    assert(dist2(p, line@.take(k + 1)[m]) <= ERASER_RADIUS_SQ);
                }
                assert forall|p: Pixel| disk(c).contains(p) implies eraser_cover(line@.take(k + 1)).contains(
                    p,
                ) by {
                    assert(dist2(p, line@.take(k + 1)[k as int]) <= ERASER_RADIUS_SQ);
                }
            }
        }
        k = k + 1;
    }
    proof {
        assert(line@.take(line@.len() as int) =~= line@);
    }
}

/// The raster after one pointer sample from `last` to `pos` with `tool`,
/// given the two buttons' states.
pub open spec fn tool_applied(
    px: Seq<Rgba>,
    w: int,
    h: int,
    tool: DrawTool,
    last: Pixel,
    pos: Pixel,
    left: MouseButtonState,
    right: MouseButtonState,
) -> Seq<Rgba> {
    if !(pressed(left) || pressed(right)) {
        px
    } else {
        match tool {
            DrawTool::Pencil => paint(px, w, bresenham_of(last, pos).to_set(), outline_spec()),
            DrawTool::Eraser => paint(px, w, eraser_cover(bresenham_of(last, pos)), erased_spec()),
            DrawTool::RoomIdentification => if !in_bounds(w, h, pos.0 as int, pos.1 as int) {
                px
            } else if left == MouseButtonState::JustPressed {
                flood_filled(px, w, h, (pos.0 as int, pos.1 as int), room_blue_spec())
            } else if right == MouseButtonState::JustPressed {
                flood_filled(px, w, h, (pos.0 as int, pos.1 as int), wall_red_spec())
            } else {
                px
            },
        }
    }
}

/// Applies `tool` for one pointer sample: while a button is held, the
/// pencil draws and the eraser clears along the path from `last` to `pos`;
/// room identification fills from `pos` on the frame the left (blue) or
/// right (red) button goes down.
pub fn apply_tool(
    raster: &mut Raster,
    tool: DrawTool,
    last: Pixel,
    pos: Pixel,
    left: MouseButtonState,
    right: MouseButtonState,
)
    requires
        old(raster).wf(),
        line_coord_ok(last),
        line_coord_ok(pos),
    ensures
        final(raster).wf(),
        final(raster).width == old(raster).width,
        final(raster).height == old(raster).height,
        final(raster).pixels@ == tool_applied(
            old(raster).pixels@,
            old(raster).width as int,
            old(raster).height as int,
            tool,
            last,
            pos,
            left,
            right,
        ),
{
    if !(left.is_pressed() || right.is_pressed()) {
        return;
    }
    match tool {
        DrawTool::Pencil => pencil_stroke(raster, last, pos),
        DrawTool::Eraser => erase_stroke(raster, last, pos),
        DrawTool::RoomIdentification => {
            if 0 <= pos.0 && (pos.0 as u32) < raster.width && 0 <= pos.1 && (pos.1 as u32)
                < raster.height {
                let x = pos.0 as u32;
                let y = pos.1 as u32;
                if left == MouseButtonState::JustPressed {
                    flood_fill(raster, x, y, Rgba::room_blue());
                } else if right == MouseButtonState::JustPressed {
                    flood_fill(raster, x, y, Rgba::wall_red());
                }
            }
        },
    }
}

/// The eraser leaves nothing inside a disk it stamped: every pixel of the
/// raster within the disk around any point of the path is transparent white
/// afterwards, so in particular no outline black survives there.
pub proof fn lemma_eraser_clears_disks(px: Seq<Rgba>, w: int, path: Seq<Pixel>)
    ensures
        forall|i: int, k: int|
            0 <= i < px.len() && 0 <= k < path.len() && #[trigger] dist2(pixel_of(w, i), path[k])
                <= ERASER_RADIUS_SQ ==> paint(px, w, eraser_cover(path), erased_spec())[i]
                == erased_spec() && paint(px, w, eraser_cover(path), erased_spec())[i]
                != outline_spec(),
{
}

/// The colour room identification fills with for the given button edges.
pub open spec fn room_target(left: MouseButtonState) -> Rgba {
    if left == MouseButtonState::JustPressed {
        room_blue_spec()
    } else {
        wall_red_spec()
    }
}

/// A room-identification frame never recolours an outline-black pixel and
/// never makes one: a pixel is outline black afterwards exactly when it was
/// before.
pub proof fn lemma_room_tool_keeps_outline(
    px: Seq<Rgba>,
    w: int,
    h: int,
    last: Pixel,
    pos: Pixel,
    left: MouseButtonState,
    right: MouseButtonState,
)
    requires
        w >= 0,
        h >= 0,
        px.len() == w * h,
    ensures
        tool_applied(px, w, h, DrawTool::RoomIdentification, last, pos, left, right).len() == px.len(),
        forall|i: int|
            0 <= i < px.len() ==> (#[trigger] tool_applied(
                px,
                w,
                h,
                DrawTool::RoomIdentification,
                last,
                pos,
                left,
                right,
            )[i] == outline_spec()) == (px[i] == outline_spec()),
{
    let start = (pos.0 as int, pos.1 as int);
    lemma_fill_keeps_outline(px, w, h, start, room_blue_spec());
    lemma_fill_keeps_outline(px, w, h, start, wall_red_spec());
}

/// A room-identification frame on a press edge, with the pointer anywhere in
/// a connected region of one colour other than outline black that outline
/// black (or the raster's edge) encloses, recolours exactly that region.
pub proof fn lemma_room_tool_fills_enclosed_region(
    px: Seq<Rgba>,
    w: int,
    h: int,
    region: Set<(int, int)>,
    c: Rgba,
    last: Pixel,
    pos: Pixel,
    left: MouseButtonState,
    right: MouseButtonState,
)
    requires
        w > 0,
        h > 0,
        px.len() == w * h,
        left == MouseButtonState::JustPressed || right == MouseButtonState::JustPressed,
        region.contains((pos.0 as int, pos.1 as int)),
        forall|p: (int, int)|
            #[trigger] region.contains(p) ==> in_bounds(w, h, p.0, p.1) && at(px, w, p.0, p.1) == c,
        c != outline_spec(),
        region_connected(region),
        region_enclosed(px, w, h, region),
    ensures
        forall|i: int|
            0 <= i < px.len() ==> #[trigger] tool_applied(
                px,
                w,
                h,
                DrawTool::RoomIdentification,
                last,
                pos,
                left,
                right,
            )[i] == if region.contains((col(w, i), row(w, i))) {
                room_target(left)
            } else {
                px[i]
            },
{
    let start = (pos.0 as int, pos.1 as int);
    assert(region.contains(start));
    lemma_fill_enclosed_region(px, w, h, region, c, start, room_target(left));
}

/// The raster after consecutive eraser frames, each sweeping the path
/// between its previous and current pointer positions.
pub open spec fn eraser_sweep(px: Seq<Rgba>, w: int, strokes: Seq<(Pixel, Pixel)>) -> Seq<Rgba>
    decreases strokes.len(),
{
    if strokes.len() == 0 {
        px
    } else {
        paint(
            eraser_sweep(px, w, strokes.drop_last()),
            w,
            eraser_cover(bresenham_of(strokes.last().0, strokes.last().1)),
            erased_spec(),
        )
    }
}

/// However many eraser frames run, no pixel inside any disk they stamped
/// stays black: every pixel within the disk around any point of any
/// frame's path is transparent white at the end.
pub proof fn lemma_eraser_sweep_clears_disks(px: Seq<Rgba>, w: int, strokes: Seq<(Pixel, Pixel)>)
    ensures
        eraser_sweep(px, w, strokes).len() == px.len(),
        forall|i: int, j: int, k: int|
            0 <= i < px.len() && 0 <= j < strokes.len() && 0 <= k < bresenham_of(
                strokes[j].0,
                strokes[j].1,
            ).len() && #[trigger] dist2(pixel_of(w, i), bresenham_of(strokes[j].0, strokes[j].1)[k])
                <= ERASER_RADIUS_SQ ==> eraser_sweep(px, w, strokes)[i] == erased_spec(),
    decreases strokes.len(),
{
    if strokes.len() > 0 {
        let rest = strokes.drop_last();
        lemma_eraser_sweep_clears_disks(px, w, rest);
        let n = strokes.len() - 1;
        let path = bresenham_of(strokes.last().0, strokes.last().1);
        assert forall|i: int, j: int, k: int|
            0 <= i < px.len() && 0 <= j < strokes.len() && 0 <= k < bresenham_of(
                strokes[j].0,
                strokes[j].1,
            ).len() && #[trigger] dist2(pixel_of(w, i), bresenham_of(strokes[j].0, strokes[j].1)[k])
                <= ERASER_RADIUS_SQ implies eraser_sweep(px, w, strokes)[i] == erased_spec() by {
            if j == n {
                assert(dist2(pixel_of(w, i), path[k]) <= ERASER_RADIUS_SQ);
                assert(eraser_cover(path).contains(pixel_of(w, i)));
            } else {
                assert(rest[j] == strokes[j]);
                assert(dist2(pixel_of(w, i), bresenham_of(rest[j].0, rest[j].1)[k]) <= ERASER_RADIUS_SQ);
            }
        }
    }
}

} // verus!
