//! An RGBA raster held as plain values, with its pixel-address arithmetic
//! and the painting of a set of pixels in one colour.

use vstd::prelude::*;

verus! {

/// One 8-bit-per-channel RGBA pixel.
#[derive(Clone, Copy, PartialEq, Eq, Structural, Debug)]
pub struct Rgba {
    pub r: u8,
    pub g: u8,
    pub b: u8,
    pub a: u8,
}

/// Impassable outline ("wall/floor"): opaque black.
pub open spec fn outline_spec() -> Rgba {
    Rgba { r: 0, g: 0, b: 0, a: 255 }
}

/// Room / exterior label: transparent blue.
pub open spec fn room_blue_spec() -> Rgba {
    Rgba { r: 0, g: 0, b: 255, a: 0 }
}

/// Wall-and-floor label: transparent red.
pub open spec fn wall_red_spec() -> Rgba {
    Rgba { r: 255, g: 0, b: 0, a: 0 }
}

/// What the eraser leaves behind: transparent white.
pub open spec fn erased_spec() -> Rgba {
    Rgba { r: 255, g: 255, b: 255, a: 0 }
}

impl Rgba {
    pub fn outline() -> (c: Rgba)
        ensures
            c == outline_spec(),
    {
        Rgba { r: 0, g: 0, b: 0, a: 255 }
    }

    pub fn room_blue() -> (c: Rgba)
        ensures
            c == room_blue_spec(),
    {
        Rgba { r: 0, g: 0, b: 255, a: 0 }
    }

    pub fn wall_red() -> (c: Rgba)
        ensures
            c == wall_red_spec(),
    {
        Rgba { r: 255, g: 0, b: 0, a: 0 }
    }

    pub fn erased() -> (c: Rgba)
        ensures
            c == erased_spec(),
    {
        Rgba { r: 255, g: 255, b: 255, a: 0 }
    }
}

/// Largest width or height of a raster whose coordinates the linking and
/// stroking code can handle without integer overflow.
pub const MAX_SIDE: u32 = 32768;

/// A row-major raster: the pixel at column `x`, row `y` is
/// `pixels[y * width + x]`.
#[derive(Clone, Debug)]
pub struct Raster {
    pub width: u32,
    pub height: u32,
    pub pixels: Vec<Rgba>,
}

/// Position of pixel `(x, y)` in a row-major buffer of row length `w`.
pub open spec fn idx(w: int, x: int, y: int) -> int {
    y * w + x
}

pub open spec fn in_bounds(w: int, h: int, x: int, y: int) -> bool {
    0 <= x < w && 0 <= y < h
}

/// The pixel column and row of buffer position `i`.
pub open spec fn col(w: int, i: int) -> int {
    i % w
}

pub open spec fn row(w: int, i: int) -> int {
    i / w
}

/// The coordinates of buffer position `i` as a pixel.
pub open spec fn pixel_of(w: int, i: int) -> (i32, i32) {
    (col(w, i) as i32, row(w, i) as i32)
}

/// `px` with every pixel whose coordinates lie in `s` set to `c`; points of
/// `s` outside the raster change nothing.
pub open spec fn paint(px: Seq<Rgba>, w: int, s: Set<(i32, i32)>, c: Rgba) -> Seq<Rgba> {
    Seq::new(px.len(), |i: int| if s.contains((col(w, i) as i32, row(w, i) as i32)) { c } else { px[i] })
}

/// Pixel `(x, y)` of a row-major buffer.
pub open spec fn at(px: Seq<Rgba>, w: int, x: int, y: int) -> Rgba {
    px[idx(w, x, y)]
}

pub proof fn lemma_idx_in_range(w: int, h: int, x: int, y: int)
    requires
        in_bounds(w, h, x, y),
        w <= MAX_SIDE,
        h <= MAX_SIDE,
    ensures
        0 <= y * w <= idx(w, x, y) < w * h <= 0x4000_0000,
{
    assert(0 <= y * w && y * w + x < w * h && w * h <= 0x4000_0000) by (nonlinear_arith)
        requires 0 <= x < w, 0 <= y < h, w <= 0x8000, h <= 0x8000;
}

/// Buffer position and coordinates determine each other.
pub proof fn lemma_idx_col_row(w: int, h: int, x: int, y: int)
    requires
        in_bounds(w, h, x, y),
    ensures
        col(w, idx(w, x, y)) == x,
        row(w, idx(w, x, y)) == y,
{
    vstd::arithmetic::div_mod::lemma_fundamental_div_mod_converse(y * w + x, w, y, x);
}

pub proof fn lemma_col_row_idx(w: int, h: int, i: int)
    requires
        w > 0,
        h > 0,
        0 <= i < w * h,
    ensures
        in_bounds(w, h, col(w, i), row(w, i)),
        idx(w, col(w, i), row(w, i)) == i,
{
    vstd::arithmetic::div_mod::lemma_fundamental_div_mod(i, w);
    vstd::arithmetic::div_mod::lemma_div_pos_is_pos(i, w);
    let q = i / w;
    let r = i % w;
    assert(0 <= r < w);
    assert(q * w + r == i && q < h) by (nonlinear_arith)
        requires i == w * q + r, 0 <= r < w, i < w * h, w > 0;
}

/// Painting `s1` and then `s2` in one colour paints their union.
pub proof fn lemma_paint_twice(px: Seq<Rgba>, w: int, s1: Set<(i32, i32)>, s2: Set<(i32, i32)>, c: Rgba)
    ensures
        paint(paint(px, w, s1, c), w, s2, c) == paint(px, w, s1.union(s2), c),
{
    assert(paint(paint(px, w, s1, c), w, s2, c) =~= paint(px, w, s1.union(s2), c));
}

/// Stamping pixels in one colour does not depend on the order: painting
/// `s1` then `s2` gives the same raster as `s2` then `s1`.
pub proof fn lemma_paint_commutes(px: Seq<Rgba>, w: int, s1: Set<(i32, i32)>, s2: Set<(i32, i32)>, c: Rgba)
    ensures
        paint(paint(px, w, s1, c), w, s2, c) == paint(paint(px, w, s2, c), w, s1, c),
{
    lemma_paint_twice(px, w, s1, s2, c);
    lemma_paint_twice(px, w, s2, s1, c);
    assert(s1.union(s2) =~= s2.union(s1));
}

/// Stamping the same pixels twice is the same as stamping them once.
pub proof fn lemma_paint_idempotent(px: Seq<Rgba>, w: int, s: Set<(i32, i32)>, c: Rgba)
    ensures
        paint(paint(px, w, s, c), w, s, c) == paint(px, w, s, c),
{
    lemma_paint_twice(px, w, s, s, c);
    assert(s.union(s) =~= s);
}

impl Raster {
    pub open spec fn wf(&self) -> bool {
        &&& self.pixels@.len() == self.width as int * self.height as int
        &&& self.width <= MAX_SIDE
        &&& self.height <= MAX_SIDE
    }

    /// A raster with every pixel set to `fill`.
    pub fn new(width: u32, height: u32, fill: Rgba) -> (r: Raster)
        requires
            width <= MAX_SIDE,
            height <= MAX_SIDE,
        ensures
            r.wf(),
            r.width == width,
            r.height == height,
            forall|i: int| 0 <= i < r.pixels@.len() ==> r.pixels@[i] == fill,
    {
        assert(width as int * height as int <= MAX_SIDE as int * MAX_SIDE as int) by (nonlinear_arith)
            requires width <= MAX_SIDE, height <= MAX_SIDE;
        let n: usize = (width as usize) * (height as usize);
        let mut pixels: Vec<Rgba> = Vec::with_capacity(n);
        let mut k: usize = 0;
        while k < n
            invariant
                k <= n,
                pixels@.len() == k,
                forall|i: int| 0 <= i < k ==> pixels@[i] == fill,
            decreases n - k,
        {
            pixels.push(fill);
            k = k + 1;
        }
        Raster { width, height, pixels }
    }

    /// A raster over the given row-major pixels, if their number is
    /// `width * height` and neither side exceeds `MAX_SIDE`.
    pub fn from_pixels(width: u32, height: u32, pixels: Vec<Rgba>) -> (r: Option<Raster>)
        ensures
            r.is_some() <==> pixels@.len() == width as int * height as int && width <= MAX_SIDE
                && height <= MAX_SIDE,
            r matches Some(r) ==> r.wf() && r.width == width && r.height == height
                && r.pixels@ == pixels@,
    {
        assert(width as int * height as int <= u32::MAX as int * u32::MAX as int) by (nonlinear_arith)
            requires width <= u32::MAX, height <= u32::MAX;
        let n: u128 = (width as u128) * (height as u128);
        if pixels.len() as u128 == n && width <= MAX_SIDE && height <= MAX_SIDE {
            Some(Raster { width, height, pixels })
        } else {
            None
        }
    }

    /// The pixel at `(x, y)`.
    pub fn get(&self, x: u32, y: u32) -> (c: Rgba)
        requires
            self.wf(),
            x < self.width,
            y < self.height,
        ensures
            c == at(self.pixels@, self.width as int, x as int, y as int),
    {
        proof {
            lemma_idx_in_range(self.width as int, self.height as int, x as int, y as int);
        }
        self.pixels[(y as usize) * (self.width as usize) + (x as usize)]
    }

    /// Sets pixel `(x, y)`, which lies inside the raster, to `c`.
    pub fn set(&mut self, x: u32, y: u32, c: Rgba)
        requires
            old(self).wf(),
            x < old(self).width,
            y < old(self).height,
        ensures
            final(self).wf(),
            final(self).width == old(self).width,
            final(self).height == old(self).height,
            final(self).pixels@ == old(self).pixels@.update(
                idx(old(self).width as int, x as int, y as int),
                c,
            ),
    {
        proof {
            lemma_idx_in_range(self.width as int, self.height as int, x as int, y as int);
        }
        let i: usize = (y as usize) * (self.width as usize) + (x as usize);
        self.pixels.set(i, c);
    }

    /// Sets pixel `(x, y)` to `c`; a point outside the raster is skipped.
    pub fn put(&mut self, x: i32, y: i32, c: Rgba)
        requires
            old(self).wf(),
        ensures
            final(self).wf(),
            final(self).width == old(self).width,
            final(self).height == old(self).height,
            final(self).pixels@ == paint(old(self).pixels@, old(self).width as int, set![(x, y)], c),
    {
        let ghost w = self.width as int;
        let ghost h = self.height as int;
        let ghost px = self.pixels@;
        if 0 <= x && (x as u32) < self.width && 0 <= y && (y as u32) < self.height {
            proof {
                lemma_idx_in_range(w, h, x as int, y as int);
            }
            let i: usize = (y as usize) * (self.width as usize) + (x as usize);
            self.pixels.set(i, c);
            proof {
                assert forall|j: int| 0 <= j < px.len() implies
                    self.pixels@[j] == paint(px, w, set![(x, y)], c)[j] by {
                    lemma_col_row_idx(w, h, j);
                    lemma_idx_col_row(w, h, x as int, y as int);
                }
                assert(self.pixels@ =~= paint(px, w, set![(x, y)], c));
            }
        } else {
            proof {
                assert forall|j: int| 0 <= j < px.len() implies
                    self.pixels@[j] == paint(px, w, set![(x, y)], c)[j] by {
                    lemma_col_row_idx(w, h, j);
                }
                assert(self.pixels@ =~= paint(px, w, set![(x, y)], c));
            }
        }
    }
}

/// Stamps every point of `pts` that lies inside the raster in colour `c`.
pub fn stamp_all(raster: &mut Raster, pts: &Vec<(i32, i32)>, c: Rgba)
    requires
        old(raster).wf(),
    ensures
        final(raster).wf(),
        final(raster).width == old(raster).width,
        final(raster).height == old(raster).height,
        final(raster).pixels@ == paint(old(raster).pixels@, old(raster).width as int, pts@.to_set(), c),
{
    let ghost px0 = raster.pixels@;
    let ghost w = raster.width as int;
    let mut k: usize = 0;
    proof {
        assert(paint(px0, w, pts@.take(0).to_set(), c) =~= px0);
    }
    while k < pts.len()
        invariant
            raster.wf(),
            raster.width as int == w,
            raster.height == old(raster).height,
            px0 == old(raster).pixels@,
            w == old(raster).width as int,
            k <= pts@.len(),
            raster.pixels@ == paint(px0, w, pts@.take(k as int).to_set(), c),
        decreases pts@.len() - k,
    {
        let q = pts[k];
        raster.put(q.0, q.1, c);
        proof {
            lemma_paint_twice(px0, w, pts@.take(k as int).to_set(), set![q], c);
            assert(pts@.take(k as int).push(q) =~= pts@.take(k + 1));
            assert(pts@.take(k as int).to_set().union(set![q]) =~= pts@.take(k + 1).to_set()) by {
                assert forall|p: (i32, i32)| pts@.take(k + 1).to_set().contains(p) implies pts@.take(
                    k as int,
                ).to_set().union(set![q]).contains(p) by {
                    let m = choose|m: int| 0 <= m < k + 1 && #[trigger] pts@.take(k + 1)[m] == p;
                    if m < k {
                        assert(pts@.take(k as int)[m] == p);
                    }
                }
                assert forall|p: (i32, i32)| pts@.take(k as int).to_set().contains(p) implies pts@.take(
                    k + 1,
                ).to_set().contains(p) by {
                    let m = choose|m: int| 0 <= m < k && #[trigger] pts@.take(k as int)[m] == p;
                    assert(pts@.take(k + 1)[m] == p);
                }
                assert(pts@.take(k + 1)[k as int] == q);
            }
        }
        k = k + 1;
    }
    proof {
        assert(pts@.take(pts@.len() as int) =~= pts@);
    }
}

} // verus!
