//! Region flood fill: 4-connected, grown with an explicit work stack.

use vstd::prelude::*;

use crate::raster::{
    at, col, idx, in_bounds, lemma_col_row_idx, lemma_idx_col_row, lemma_idx_in_range,
    outline_spec, row, Raster, Rgba, MAX_SIDE,
};

verus! {

/// `p` and `q` share an edge.
pub open spec fn adjacent(p: (int, int), q: (int, int)) -> bool {
    (p.0 == q.0 && (p.1 == q.1 + 1 || p.1 + 1 == q.1)) || (p.1 == q.1 && (p.0 == q.0 + 1 || p.0
        + 1 == q.0))
}

/// `path` steps from pixel to edge-sharing pixel, all inside the raster and
/// all of colour `c`.
pub open spec fn is_colour_path(px: Seq<Rgba>, w: int, h: int, c: Rgba, path: Seq<(int, int)>) -> bool {
    &&& path.len() > 0
    &&& forall|k: int|
        0 <= k < path.len() ==> in_bounds(w, h, #[trigger] path[k].0, path[k].1) && at(
            px,
            w,
            path[k].0,
            path[k].1,
        ) == c
    &&& forall|k: int| 0 <= k < path.len() - 1 ==> #[trigger] adjacent(path[k], path[k + 1])
}

/// `b` can be reached from `a` over pixels of colour `c`.
pub open spec fn connected(px: Seq<Rgba>, w: int, h: int, c: Rgba, a: (int, int), b: (int, int)) -> bool {
    exists|path: Seq<(int, int)>|
        #[trigger] is_colour_path(px, w, h, c, path) && path[0] == a && path.last() == b
}

/// The raster after a fill from `start` in colour `target`: the region of
/// the start pixel's colour that is 4-connected to it takes the target
/// colour, unless that colour is the outline or already the target.
pub open spec fn flood_filled(px: Seq<Rgba>, w: int, h: int, start: (int, int), target: Rgba) -> Seq<Rgba> {
    let seed = at(px, w, start.0, start.1);
    if seed == outline_spec() || seed == target {
        px
    } else {
        Seq::new(
            px.len(),
            |i: int|
                if connected(px, w, h, seed, start, (col(w, i), row(w, i))) {
                    target
                } else {
                    px[i]
                },
        )
    }
}

/// How many pixels of `s` have colour `c`.
pub open spec fn count_colour(s: Seq<Rgba>, c: Rgba) -> nat
    decreases s.len(),
{
    if s.len() == 0 {
        0
    } else {
        count_colour(s.drop_last(), c) + if s.last() == c {
            1nat
        } else {
            0nat
        }
    }
}

proof fn lemma_count_update(s: Seq<Rgba>, i: int, t: Rgba, c: Rgba)
    requires
        0 <= i < s.len(),
        s[i] == c,
        t != c,
    ensures
        count_colour(s.update(i, t), c) + 1 == count_colour(s, c),
    decreases s.len(),
{
    let u = s.update(i, t);
    if i == s.len() - 1 {
        assert(u.drop_last() =~= s.drop_last());
    } else {
        lemma_count_update(s.drop_last(), i, t, c);
        assert(u.drop_last() =~= s.drop_last().update(i, t));
    }
}

pub open spec fn on_stack(st: Seq<(u32, u32)>, q: (int, int)) -> bool {
    exists|k: int| 0 <= k < st.len() && st[k].0 as int == q.0 && st[k].1 as int == q.1
}

proof fn lemma_at_update(px: Seq<Rgba>, w: int, h: int, p: (int, int), c: Rgba, q: (int, int))
    requires
        px.len() == w * h,
        w <= MAX_SIDE,
        h <= MAX_SIDE,
        in_bounds(w, h, p.0, p.1),
        in_bounds(w, h, q.0, q.1),
    ensures
        at(px.update(idx(w, p.0, p.1), c), w, q.0, q.1) == if q == p {
            c
        } else {
            at(px, w, q.0, q.1)
        },
{
    lemma_idx_in_range(w, h, p.0, p.1);
    lemma_idx_in_range(w, h, q.0, q.1);
    lemma_idx_col_row(w, h, p.0, p.1);
    lemma_idx_col_row(w, h, q.0, q.1);
}

/// Pushes the in-bounds edge neighbours of `(x, y)`: left, up, right, down.
fn push_neighbours(stack: &mut Vec<(u32, u32)>, x: u32, y: u32, w: u32, h: u32)
    requires
        x < w,
        y < h,
    ensures
        final(stack)@.len() >= old(stack)@.len(),
        forall|k: int| 0 <= k < old(stack)@.len() ==> final(stack)@[k] == old(stack)@[k],
        forall|k: int|
            old(stack)@.len() <= k < final(stack)@.len() ==> in_bounds(
                w as int,
                h as int,
                #[trigger] final(stack)@[k].0 as int,
                final(stack)@[k].1 as int,
            ) && adjacent((x as int, y as int), (final(stack)@[k].0 as int, final(stack)@[k].1 as int)),
        forall|q: (int, int)|
            in_bounds(w as int, h as int, q.0, q.1) && #[trigger] adjacent((x as int, y as int), q)
                ==> on_stack(final(stack)@, q),
{
    let ghost s0 = stack@;
    if x > 0 {
        stack.push((x - 1, y));
    }
    let ghost s1 = stack@;
    if y > 0 {
        stack.push((x, y - 1));
    }
    let ghost s2 = stack@;
    if x < w - 1 {
        stack.push((x + 1, y));
    }
    let ghost s3 = stack@;
    if y < h - 1 {
        stack.push((x, y + 1));
    }
    proof {
        assert forall|q: (int, int)|
            in_bounds(w as int, h as int, q.0, q.1) && #[trigger] adjacent((x as int, y as int), q)
                implies on_stack(stack@, q) by {
            if q.0 + 1 == x {
                assert(stack@[s0.len() as int] == s1.last());
            } else if q.1 + 1 == y {
                assert(stack@[s1.len() as int] == s2.last());
            } else if q.0 == x + 1 {
                assert(stack@[s2.len() as int] == s3.last());
            } else {
                assert(stack@[s3.len() as int] == stack@.last());
            }
        }
    }
}

proof fn lemma_extend_path(px: Seq<Rgba>, w: int, h: int, c: Rgba, a: (int, int), p: (int, int), q: (int, int))
    requires
        connected(px, w, h, c, a, p),
        adjacent(p, q),
        in_bounds(w, h, q.0, q.1),
        at(px, w, q.0, q.1) == c,
    ensures
        connected(px, w, h, c, a, q),
{
    let path = choose|path: Seq<(int, int)>|
        #[trigger] is_colour_path(px, w, h, c, path) && path[0] == a && path.last() == p;
    let longer = path.push(q);
    assert forall|k: int| 0 <= k < longer.len() - 1 implies #[trigger] adjacent(longer[k], longer[k + 1]) by {
        if k < path.len() - 1 {
            assert(adjacent(path[k], path[k + 1]));
        }
    }
    assert forall|k: int| 0 <= k < longer.len() implies in_bounds(w, h, #[trigger] longer[k].0, longer[k].1)
        && at(px, w, longer[k].0, longer[k].1) == c by {
        if k < path.len() {
            assert(in_bounds(w, h, path[k].0, path[k].1));
        }
    }
    assert(is_colour_path(px, w, h, c, longer));
}

/// The fill loop's view of the raster: every pixel either still has its
/// old colour, or was of the seed colour, connected to the start, and now
/// has the target colour.
spec fn fill_sound(cur: Seq<Rgba>, orig: Seq<Rgba>, w: int, h: int, start: (int, int), seed: Rgba, target: Rgba) -> bool {
    forall|p: (int, int)|
        in_bounds(w, h, p.0, p.1) ==> #[trigger] at(cur, w, p.0, p.1) == at(orig, w, p.0, p.1) || (
        at(orig, w, p.0, p.1) == seed && at(cur, w, p.0, p.1) == target && connected(
            orig,
            w,
            h,
            seed,
            start,
            p,
        ))
}

/// Every recoloured pixel's seed-coloured neighbours are recoloured too or
/// still waiting on the stack.
spec fn fill_closed(cur: Seq<Rgba>, orig: Seq<Rgba>, w: int, h: int, seed: Rgba, st: Seq<(u32, u32)>) -> bool {
    forall|p: (int, int), q: (int, int)|
        in_bounds(w, h, p.0, p.1) && at(cur, w, p.0, p.1) != at(orig, w, p.0, p.1) && in_bounds(
            w,
            h,
            q.0,
            q.1,
        ) && #[trigger] adjacent(p, q) && at(orig, w, q.0, q.1) == seed ==> at(cur, w, q.0, q.1)
            != at(orig, w, q.0, q.1) || on_stack(st, q)
}

spec fn stack_ok(orig: Seq<Rgba>, w: int, h: int, start: (int, int), seed: Rgba, st: Seq<(u32, u32)>) -> bool {
    forall|k: int|
        0 <= k < st.len() ==> in_bounds(w, h, #[trigger] st[k].0 as int, st[k].1 as int) && (at(
            orig,
            w,
            st[k].0 as int,
            st[k].1 as int,
        ) == seed ==> connected(orig, w, h, seed, start, (st[k].0 as int, st[k].1 as int)))
}

proof fn lemma_path_recoloured(cur: Seq<Rgba>, orig: Seq<Rgba>, w: int, h: int, seed: Rgba, path: Seq<(int, int)>, k: int)
    requires
        0 <= k < path.len(),
        is_colour_path(orig, w, h, seed, path),
        fill_closed(cur, orig, w, h, seed, Seq::empty()),
        at(cur, w, path[0].0, path[0].1) != at(orig, w, path[0].0, path[0].1),
    ensures
        at(cur, w, path[k].0, path[k].1) != at(orig, w, path[k].0, path[k].1),
    decreases k,
{
    if k > 0 {
        lemma_path_recoloured(cur, orig, w, h, seed, path, k - 1);
        let j = k - 1;
        assert(adjacent(path[j], path[j + 1]));
        assert(in_bounds(w, h, path[k - 1].0, path[k - 1].1));
        assert(in_bounds(w, h, path[k].0, path[k].1));
        assert(!on_stack(Seq::<(u32, u32)>::empty(), path[k]));
    }
}

/// With nothing left on the stack, every pixel reachable from the start
/// over seed-coloured pixels has been recoloured.
proof fn lemma_fill_complete(cur: Seq<Rgba>, orig: Seq<Rgba>, w: int, h: int, start: (int, int), seed: Rgba, p: (int, int))
    requires
        fill_closed(cur, orig, w, h, seed, Seq::empty()),
        at(cur, w, start.0, start.1) != at(orig, w, start.0, start.1),
        connected(orig, w, h, seed, start, p),
    ensures
        at(cur, w, p.0, p.1) != at(orig, w, p.0, p.1),
{
    let path = choose|path: Seq<(int, int)>|
        #[trigger] is_colour_path(orig, w, h, seed, path) && path[0] == start && path.last() == p;
    lemma_path_recoloured(cur, orig, w, h, seed, path, path.len() - 1);
}

/// Flood-fills from `(x, y)` in colour `target`: unless the start pixel is
/// outline black or already the target colour, every pixel 4-connected to
/// it through pixels of its colour takes the target colour.
pub fn flood_fill(raster: &mut Raster, x: u32, y: u32, target: Rgba)
    requires
        old(raster).wf(),
        x < old(raster).width,
        y < old(raster).height,
    ensures
        final(raster).wf(),
        final(raster).width == old(raster).width,
        final(raster).height == old(raster).height,
        final(raster).pixels@ == flood_filled(
            old(raster).pixels@,
            old(raster).width as int,
            old(raster).height as int,
            (x as int, y as int),
            target,
        ),
{
    let ghost orig = raster.pixels@;
    let ghost w = raster.width as int;
    let ghost h = raster.height as int;
    let ghost start = (x as int, y as int);
    let seed = raster.get(x, y);
    if seed == Rgba::outline() || seed == target {
        return;
    }
    let width = raster.width;
    let height = raster.height;
    let mut stack: Vec<(u32, u32)> = Vec::new();
    stack.push((x, y));
    proof {
        let path = seq![start];
        assert(is_colour_path(orig, w, h, seed, path));
        assert(stack@[0] == (x, y));
        assert(on_stack(stack@, start));
    }
    while stack.len() > 0
        invariant
            raster.wf(),
            raster.width == width,
            raster.height == height,
            w == width as int,
            h == height as int,
            orig.len() == w * h,
            in_bounds(w, h, start.0, start.1),
            seed == at(orig, w, start.0, start.1),
            seed != target,
            fill_sound(raster.pixels@, orig, w, h, start, seed, target),
            fill_closed(raster.pixels@, orig, w, h, seed, stack@),
            stack_ok(orig, w, h, start, seed, stack@),
            at(raster.pixels@, w, start.0, start.1) != at(orig, w, start.0, start.1) || on_stack(
                stack@,
                start,
            ),
        decreases count_colour(raster.pixels@, seed), stack@.len(),
    {
        let ghost st0 = stack@;
        let ghost cur0 = raster.pixels@;
        let top = stack.pop();
        let (px, py) = match top {
            Some(p) => p,
            None => (0, 0),
        };
        let ghost popped = (px as int, py as int);
        proof {
            assert(st0[st0.len() - 1] == (px, py));
            assert(stack@ =~= st0.drop_last());
            assert(in_bounds(w, h, st0[st0.len() - 1].0 as int, st0[st0.len() - 1].1 as int));
        }
        if raster.get(px, py) == seed {
            raster.set(px, py, target);
            let ghost st1 = stack@;
            push_neighbours(&mut stack, px, py, width, height);
            proof {
                let cur1 = raster.pixels@;
                assert(at(orig, w, popped.0, popped.1) == seed);
                assert(connected(orig, w, h, seed, start, popped));
                lemma_idx_in_range(w, h, popped.0, popped.1);
                lemma_count_update(cur0, idx(w, popped.0, popped.1), target, seed);
                assert forall|p: (int, int)| in_bounds(w, h, p.0, p.1) implies #[trigger] at(
                    cur1,
                    w,
                    p.0,
                    p.1,
                ) == at(cur0, w, p.0, p.1) || p == popped by {
                    lemma_at_update(cur0, w, h, popped, target, p);
                }
                assert forall|p: (int, int)| in_bounds(w, h, p.0, p.1) implies #[trigger] at(
                    cur1,
                    w,
                    p.0,
                    p.1,
                ) == at(orig, w, p.0, p.1) || (at(orig, w, p.0, p.1) == seed && at(cur1, w, p.0, p.1)
                    == target && connected(orig, w, h, seed, start, p)) by {
                    lemma_at_update(cur0, w, h, popped, target, p);
                }
                assert forall|p: (int, int), q: (int, int)|
                    in_bounds(w, h, p.0, p.1) && at(cur1, w, p.0, p.1) != at(orig, w, p.0, p.1)
                        && in_bounds(w, h, q.0, q.1) && #[trigger] adjacent(p, q) && at(orig, w, q.0, q.1)
                        == seed implies at(cur1, w, q.0, q.1) != at(orig, w, q.0, q.1) || on_stack(
                        stack@,
                        q,
                    ) by {
                    lemma_at_update(cur0, w, h, popped, target, p);
                    lemma_at_update(cur0, w, h, popped, target, q);
                    if p == popped {
                        assert(adjacent((px as int, py as int), q));
                    } else if q != popped {
                        assert(at(cur0, w, q.0, q.1) != at(orig, w, q.0, q.1) || on_stack(st0, q));
                        if on_stack(st0, q) && at(cur0, w, q.0, q.1) == at(orig, w, q.0, q.1) {
                            let k = choose|k: int|
                                0 <= k < st0.len() && st0[k].0 as int == q.0 && st0[k].1 as int == q.1;
                            assert(k < st0.len() - 1);
                            assert(stack@[k] == st0[k]);
                        }
                    }
                }
                assert forall|k: int| 0 <= k < stack@.len() implies in_bounds(
                    w,
                    h,
                    #[trigger] stack@[k].0 as int,
                    stack@[k].1 as int,
                ) && (at(orig, w, stack@[k].0 as int, stack@[k].1 as int) == seed ==> connected(
                    orig,
                    w,
                    h,
                    seed,
                    start,
                    (stack@[k].0 as int, stack@[k].1 as int),
                )) by {
                    if k < st1.len() {
                        assert(stack@[k] == st0[k]);
                    } else {
                        let q = (stack@[k].0 as int, stack@[k].1 as int);
                        if at(orig, w, q.0, q.1) == seed {
                            lemma_extend_path(orig, w, h, seed, start, popped, q);
                        }
                    }
                }
                if at(cur1, w, start.0, start.1) == at(orig, w, start.0, start.1) {
                    lemma_at_update(cur0, w, h, popped, target, start);
                    let k = choose|k: int|
                        0 <= k < st0.len() && st0[k].0 as int == start.0 && st0[k].1 as int == start.1;
                    assert(k < st0.len() - 1);
                    assert(stack@[k] == st0[k]);
                }
            }
        } else {
            proof {
                assert forall|p: (int, int), q: (int, int)|
                    in_bounds(w, h, p.0, p.1) && at(cur0, w, p.0, p.1) != at(orig, w, p.0, p.1)
                        && in_bounds(w, h, q.0, q.1) && #[trigger] adjacent(p, q) && at(orig, w, q.0, q.1)
                        == seed implies at(cur0, w, q.0, q.1) != at(orig, w, q.0, q.1) || on_stack(
                        stack@,
                        q,
                    ) by {
                    if q != popped && at(cur0, w, q.0, q.1) == at(orig, w, q.0, q.1) {
                        let k = choose|k: int|
                            0 <= k < st0.len() && st0[k].0 as int == q.0 && st0[k].1 as int == q.1;
                        assert(k < st0.len() - 1);
                        assert(stack@[k] == st0[k]);
                    }
                }
                assert forall|k: int| 0 <= k < stack@.len() implies in_bounds(
                    w,
                    h,
                    #[trigger] stack@[k].0 as int,
                    stack@[k].1 as int,
                ) && (at(orig, w, stack@[k].0 as int, stack@[k].1 as int) == seed ==> connected(
                    orig,
                    w,
                    h,
                    seed,
                    start,
                    (stack@[k].0 as int, stack@[k].1 as int),
                )) by {
                    assert(stack@[k] == st0[k]);
                }
                if at(cur0, w, start.0, start.1) == at(orig, w, start.0, start.1) && start != popped {
                    let k = choose|k: int|
                        0 <= k < st0.len() && st0[k].0 as int == start.0 && st0[k].1 as int == start.1;
                    assert(k < st0.len() - 1);
                    assert(stack@[k] == st0[k]);
                }
            }
        }
    }
    proof {
        let cur = raster.pixels@;
        assert(stack@ =~= Seq::<(u32, u32)>::empty());
        assert forall|i: int| 0 <= i < cur.len() implies cur[i] == flood_filled(orig, w, h, start, target)[i] by {
            lemma_col_row_idx(w, h, i);
            let p = (col(w, i), row(w, i));
            assert(at(cur, w, p.0, p.1) == cur[i]);
            assert(at(orig, w, p.0, p.1) == orig[i]);
            if connected(orig, w, h, seed, start, p) {
                assert(!on_stack(Seq::<(u32, u32)>::empty(), start));
                lemma_fill_complete(cur, orig, w, h, start, seed, p);
            }
        }
        assert(cur =~= flood_filled(orig, w, h, start, target));
    }
}

/// Every two pixels of `region` are joined by a path of edge-sharing pixels
/// that stays inside `region`.
pub open spec fn region_connected(region: Set<(int, int)>) -> bool {
    forall|p: (int, int), q: (int, int)|
        #![trigger region.contains(p), region.contains(q)]
        region.contains(p) && region.contains(q) ==> exists|path: Seq<(int, int)>|
            #[trigger] within_region(region, path) && path[0] == p && path.last() == q
}

pub open spec fn within_region(region: Set<(int, int)>, path: Seq<(int, int)>) -> bool {
    &&& path.len() > 0
    &&& forall|k: int| 0 <= k < path.len() ==> region.contains(#[trigger] path[k])
    &&& forall|k: int| 0 <= k < path.len() - 1 ==> #[trigger] adjacent(path[k], path[k + 1])
}

/// Every in-bounds pixel that shares an edge with `region` but lies outside
/// it is outline black.
pub open spec fn region_enclosed(px: Seq<Rgba>, w: int, h: int, region: Set<(int, int)>) -> bool {
    forall|p: (int, int), q: (int, int)|
        region.contains(p) && in_bounds(w, h, q.0, q.1) && #[trigger] adjacent(p, q)
            && !region.contains(q) ==> at(px, w, q.0, q.1) == outline_spec()
}

/// A fill never recolours an outline-black pixel.
pub proof fn lemma_fill_keeps_outline(px: Seq<Rgba>, w: int, h: int, start: (int, int), target: Rgba)
    requires
        w >= 0,
        h >= 0,
        px.len() == w * h,
    ensures
        forall|i: int|
            0 <= i < px.len() && px[i] == outline_spec() ==> #[trigger] flood_filled(
                px,
                w,
                h,
                start,
                target,
            )[i] == outline_spec(),
{
    let seed = at(px, w, start.0, start.1);
    if !(seed == outline_spec() || seed == target) {
        assert forall|i: int| 0 <= i < px.len() && px[i] == outline_spec() implies #[trigger] flood_filled(
            px,
            w,
            h,
            start,
            target,
        )[i] == outline_spec() by {
            if w > 0 && h > 0 {
                lemma_col_row_idx(w, h, i);
            } else {
                assert(w * h == 0) by (nonlinear_arith)
                    requires w == 0 || h == 0;
            }
            let p = (col(w, i), row(w, i));
            if connected(px, w, h, seed, start, p) {
                let path = choose|path: Seq<(int, int)>|
                    #[trigger] is_colour_path(px, w, h, seed, path) && path[0] == start && path.last() == p;
                assert(at(px, w, path[path.len() - 1].0, path[path.len() - 1].1) == seed);
            }
        }
    }
}

proof fn lemma_colour_path_in_region(
    px: Seq<Rgba>,
    w: int,
    h: int,
    region: Set<(int, int)>,
    c: Rgba,
    path: Seq<(int, int)>,
    k: int,
)
    requires
        0 <= k < path.len(),
        is_colour_path(px, w, h, c, path),
        region.contains(path[0]),
        c != outline_spec(),
        region_enclosed(px, w, h, region),
    ensures
        region.contains(path[k]),
    decreases k,
{
    if k > 0 {
        lemma_colour_path_in_region(px, w, h, region, c, path, k - 1);
        let j = k - 1;
        assert(adjacent(path[j], path[j + 1]));
        assert(in_bounds(w, h, path[j + 1].0, path[j + 1].1));
    }
}

/// For a connected region of one colour other than outline black, bounded
/// on every side by outline black (or the raster's edge), a fill from any
/// pixel of the region recolours exactly that region and nothing else.
pub proof fn lemma_fill_enclosed_region(
    px: Seq<Rgba>,
    w: int,
    h: int,
    region: Set<(int, int)>,
    c: Rgba,
    start: (int, int),
    target: Rgba,
)
    requires
        w > 0,
        h > 0,
        px.len() == w * h,
        region.contains(start),
        forall|p: (int, int)|
            #[trigger] region.contains(p) ==> in_bounds(w, h, p.0, p.1) && at(px, w, p.0, p.1) == c,
        c != outline_spec(),
        region_connected(region),
        region_enclosed(px, w, h, region),
    ensures
        forall|i: int|
            0 <= i < px.len() ==> #[trigger] flood_filled(px, w, h, start, target)[i] == if region.contains(
                (col(w, i), row(w, i)),
            ) {
                target
            } else {
                px[i]
            },
{
    assert forall|i: int| 0 <= i < px.len() implies #[trigger] flood_filled(px, w, h, start, target)[i]
        == if region.contains((col(w, i), row(w, i))) {
        target
    } else {
        px[i]
    } by {
        lemma_col_row_idx(w, h, i);
        let p = (col(w, i), row(w, i));
        assert(at(px, w, p.0, p.1) == px[i]);
        if c != target {
            if connected(px, w, h, c, start, p) {
                let path = choose|path: Seq<(int, int)>|
                    #[trigger] is_colour_path(px, w, h, c, path) && path[0] == start && path.last() == p;
                lemma_colour_path_in_region(px, w, h, region, c, path, path.len() - 1);
            }
            if region.contains(p) {
                let path = choose|path: Seq<(int, int)>|
                    #[trigger] within_region(region, path) && path[0] == start && path.last() == p;
                assert forall|k: int| 0 <= k < path.len() implies in_bounds(
                    w,
                    h,
                    #[trigger] path[k].0,
                    path[k].1,
                ) && at(px, w, path[k].0, path[k].1) == c by {
                    assert(region.contains(path[k]));
                }
                assert(is_colour_path(px, w, h, c, path));
            }
        }
    }
}

} // verus!
