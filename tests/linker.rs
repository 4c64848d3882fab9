use cutaway::linker::{boundary_points, link_boundaries};
use cutaway::raster::{Raster, Rgba};

fn clear() -> Rgba {
    Rgba { r: 255, g: 255, b: 255, a: 0 }
}

fn sample() -> Rgba {
    Rgba { r: 10, g: 20, b: 30, a: 200 }
}

fn slice_with(points: &[(u32, u32)]) -> Raster {
    let mut r = Raster::new(12, 8, clear());
    for (x, y) in points {
        r.pixels[(*y * 12 + *x) as usize] = sample();
    }
    r
}

#[test]
fn boundary_points_use_alpha_threshold() {
    let mut r = slice_with(&[(3, 1), (0, 0)]);
    r.pixels[5] = Rgba { r: 0, g: 0, b: 0, a: 128 };
    assert_eq!(boundary_points(&r), vec![(0, 0), (3, 1)]);
}

#[test]
fn near_samples_are_joined() {
    let mut r = slice_with(&[(2, 2), (6, 2), (11, 7)]);
    link_boundaries(&mut r, 5);
    for x in 2..=6 {
        assert_eq!(r.get(x, 2), Rgba::outline());
    }
    assert_eq!(r.get(7, 2), clear());
    assert_eq!(r.get(2, 3), clear());
    // Far from both others: stamped on its own segment only.
    assert_eq!(r.get(11, 7), Rgba::outline());
    assert_eq!(r.get(10, 6), clear());
}

#[test]
fn radius_is_strict() {
    let mut r = slice_with(&[(2, 2), (6, 2)]);
    link_boundaries(&mut r, 4);
    assert_eq!(r.get(2, 2), Rgba::outline());
    assert_eq!(r.get(6, 2), Rgba::outline());
    assert_eq!(r.get(4, 2), clear());
}

#[test]
fn zero_radius_links_nothing() {
    let mut r = slice_with(&[(2, 2), (3, 2)]);
    link_boundaries(&mut r, 0);
    assert_eq!(r.get(2, 2), sample());
}

#[test]
fn diagonal_link() {
    let mut r = slice_with(&[(1, 1), (4, 4)]);
    link_boundaries(&mut r, 10);
    for k in 1..=4 {
        assert_eq!(r.get(k, k), Rgba::outline());
    }
    assert_eq!(r.get(2, 1), clear());
}

#[test]
fn linking_twice_gives_the_same_outline() {
    let original = slice_with(&[(1, 1), (4, 3), (7, 1), (10, 6)]);
    let mut a = original.clone();
    let mut b = original.clone();
    link_boundaries(&mut a, 6);
    link_boundaries(&mut b, 6);
    assert_eq!(a.pixels, b.pixels);
}

#[test]
fn empty_slice_is_unchanged() {
    let mut r = slice_with(&[]);
    link_boundaries(&mut r, 10);
    assert!(r.pixels.iter().all(|p| *p == clear()));
}
