use cutaway::raster::{Raster, Rgba};

fn white() -> Rgba {
    Rgba { r: 255, g: 255, b: 255, a: 255 }
}

#[test]
fn from_pixels_checks_size() {
    assert!(Raster::from_pixels(2, 3, vec![white(); 6]).is_some());
    assert!(Raster::from_pixels(2, 3, vec![white(); 5]).is_none());
    assert!(Raster::from_pixels(40_000, 0, vec![]).is_none());
    assert!(Raster::from_pixels(0, 0, vec![]).is_some());
}

#[test]
fn put_skips_outside_points() {
    let mut r = Raster::new(3, 2, white());
    r.put(-1, 0, Rgba::outline());
    r.put(3, 0, Rgba::outline());
    r.put(0, 2, Rgba::outline());
    assert!(r.pixels.iter().all(|p| *p == white()));
    r.put(2, 1, Rgba::outline());
    assert_eq!(r.get(2, 1), Rgba::outline());
    assert_eq!(r.pixels[1 * 3 + 2], Rgba::outline());
    assert_eq!(r.get(1, 1), white());
}

#[test]
fn colours() {
    assert_eq!(Rgba::outline(), Rgba { r: 0, g: 0, b: 0, a: 255 });
    assert_eq!(Rgba::room_blue(), Rgba { r: 0, g: 0, b: 255, a: 0 });
    assert_eq!(Rgba::wall_red(), Rgba { r: 255, g: 0, b: 0, a: 0 });
    assert_eq!(Rgba::erased(), Rgba { r: 255, g: 255, b: 255, a: 0 });
}
