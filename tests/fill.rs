use cutaway::fill::flood_fill;
use cutaway::raster::{Raster, Rgba};

fn white() -> Rgba {
    Rgba { r: 255, g: 255, b: 255, a: 255 }
}

/// A 10x10 white raster with a black-bordered 3x3 square at columns and
/// rows 3..=5.
fn bordered_square() -> Raster {
    let mut r = Raster::new(10, 10, white());
    for k in 3..=5 {
        r.put(k, 3, Rgba::outline());
        r.put(k, 5, Rgba::outline());
        r.put(3, k, Rgba::outline());
        r.put(5, k, Rgba::outline());
    }
    r
}

fn on_border(x: u32, y: u32) -> bool {
    (3..=5).contains(&x) && (3..=5).contains(&y) && !(x == 4 && y == 4)
}

#[test]
fn fill_inside_bordered_square() {
    let mut r = bordered_square();
    flood_fill(&mut r, 4, 4, Rgba::room_blue());
    for y in 0..10 {
        for x in 0..10 {
            let expected = if x == 4 && y == 4 {
                Rgba::room_blue()
            } else if on_border(x, y) {
                Rgba::outline()
            } else {
                white()
            };
            assert_eq!(r.get(x, y), expected, "pixel ({}, {})", x, y);
        }
    }
}

#[test]
fn fill_outside_stops_at_border() {
    let mut r = bordered_square();
    flood_fill(&mut r, 0, 0, Rgba::wall_red());
    for y in 0..10 {
        for x in 0..10 {
            let expected = if x == 4 && y == 4 {
                white()
            } else if on_border(x, y) {
                Rgba::outline()
            } else {
                Rgba::wall_red()
            };
            assert_eq!(r.get(x, y), expected, "pixel ({}, {})", x, y);
        }
    }
}

#[test]
fn fill_from_outline_is_a_no_op() {
    let mut r = bordered_square();
    let before = r.pixels.clone();
    flood_fill(&mut r, 3, 3, Rgba::room_blue());
    assert_eq!(r.pixels, before);
}

#[test]
fn fill_with_same_colour_is_a_no_op() {
    let mut r = bordered_square();
    flood_fill(&mut r, 4, 4, Rgba::room_blue());
    let before = r.pixels.clone();
    flood_fill(&mut r, 4, 4, Rgba::room_blue());
    assert_eq!(r.pixels, before);
}

#[test]
fn fill_is_four_connected() {
    // A diagonal black line leaves the two corners apart for a 4-connected fill.
    let mut r = Raster::new(4, 4, white());
    for k in 0..4 {
        r.put(k, 3 - k, Rgba::outline());
    }
    flood_fill(&mut r, 0, 0, Rgba::room_blue());
    assert_eq!(r.get(0, 0), Rgba::room_blue());
    assert_eq!(r.get(1, 1), Rgba::room_blue());
    assert_eq!(r.get(3, 3), white());
    assert_eq!(r.get(2, 2), white());
}

#[test]
fn fill_large_region() {
    let mut r = Raster::new(300, 300, white());
    flood_fill(&mut r, 150, 150, Rgba::room_blue());
    assert!(r.pixels.iter().all(|p| *p == Rgba::room_blue()));
}
