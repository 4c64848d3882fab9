use cutaway::editor::{apply_tool, erase_stroke, pencil_stroke, DrawTool};
use cutaway::input::MouseButtonState;
use cutaway::raster::{Raster, Rgba};

fn white() -> Rgba {
    Rgba { r: 255, g: 255, b: 255, a: 255 }
}

#[test]
fn pencil_draws_the_whole_path() {
    let mut r = Raster::new(8, 8, white());
    pencil_stroke(&mut r, (1, 1), (5, 3));
    assert_eq!(r.get(1, 1), Rgba::outline());
    assert_eq!(r.get(5, 3), Rgba::outline());
    assert_eq!(r.get(3, 2), Rgba::outline());
    let black = r.pixels.iter().filter(|p| **p == Rgba::outline()).count();
    assert_eq!(black, 5);
}

#[test]
fn pencil_skips_pixels_off_the_canvas() {
    let mut r = Raster::new(4, 4, white());
    pencil_stroke(&mut r, (-3, 1), (6, 1));
    for x in 0..4 {
        assert_eq!(r.get(x, 1), Rgba::outline());
    }
    assert_eq!(r.get(0, 0), white());
}

#[test]
fn eraser_clears_a_disk_of_radius_five() {
    let mut r = Raster::new(20, 20, Rgba::outline());
    erase_stroke(&mut r, (10, 10), (10, 10));
    for y in 0..20i32 {
        for x in 0..20i32 {
            let d = (x - 10) * (x - 10) + (y - 10) * (y - 10);
            let expected = if d <= 25 { Rgba::erased() } else { Rgba::outline() };
            assert_eq!(r.get(x as u32, y as u32), expected, "pixel ({}, {})", x, y);
        }
    }
}

#[test]
fn eraser_along_a_path_leaves_no_black_in_its_disks() {
    let mut r = Raster::new(30, 20, Rgba::outline());
    erase_stroke(&mut r, (5, 5), (24, 12));
    for y in 0..20i32 {
        for x in 0..30i32 {
            // Every pixel within distance 5 of the segment's end points and
            // midpoint has been cleared.
            for (cx, cy) in [(5, 5), (24, 12), (14, 8)] {
                if (x - cx) * (x - cx) + (y - cy) * (y - cy) <= 25 {
                    assert_eq!(r.get(x as u32, y as u32), Rgba::erased());
                }
            }
        }
    }
    assert_eq!(r.get(29, 0), Rgba::outline());
}

#[test]
fn eraser_near_the_border() {
    let mut r = Raster::new(6, 6, Rgba::outline());
    erase_stroke(&mut r, (0, 0), (0, 0));
    assert_eq!(r.get(0, 0), Rgba::erased());
    assert_eq!(r.get(5, 0), Rgba::erased());
    assert_eq!(r.get(5, 5), Rgba::outline());
}

#[test]
fn tools_need_a_button_down() {
    let mut r = Raster::new(5, 5, white());
    apply_tool(&mut r, DrawTool::Pencil, (0, 0), (4, 4), MouseButtonState::Released, MouseButtonState::JustReleased);
    assert!(r.pixels.iter().all(|p| *p == white()));
    apply_tool(&mut r, DrawTool::Pencil, (0, 0), (4, 4), MouseButtonState::Pressed, MouseButtonState::Released);
    assert_eq!(r.get(2, 2), Rgba::outline());
}

#[test]
fn room_identification_fills_on_the_press_edge_only() {
    let mut r = Raster::new(5, 5, white());
    apply_tool(&mut r, DrawTool::RoomIdentification, (1, 1), (2, 2), MouseButtonState::Pressed, MouseButtonState::Released);
    assert!(r.pixels.iter().all(|p| *p == white()));
    apply_tool(&mut r, DrawTool::RoomIdentification, (1, 1), (2, 2), MouseButtonState::JustPressed, MouseButtonState::Released);
    assert!(r.pixels.iter().all(|p| *p == Rgba::room_blue()));
    let mut s = Raster::new(5, 5, white());
    apply_tool(&mut s, DrawTool::RoomIdentification, (1, 1), (2, 2), MouseButtonState::Released, MouseButtonState::JustPressed);
    assert!(s.pixels.iter().all(|p| *p == Rgba::wall_red()));
    let mut t = Raster::new(5, 5, white());
    apply_tool(&mut t, DrawTool::RoomIdentification, (1, 1), (7, 2), MouseButtonState::JustPressed, MouseButtonState::Released);
    assert!(t.pixels.iter().all(|p| *p == white()));
}

#[test]
fn eraser_tool_dispatch() {
    let mut r = Raster::new(12, 12, Rgba::outline());
    apply_tool(&mut r, DrawTool::Eraser, (6, 6), (6, 6), MouseButtonState::JustPressed, MouseButtonState::Released);
    assert_eq!(r.get(6, 6), Rgba::erased());
    assert_eq!(r.get(11, 6), Rgba::erased());
    assert_eq!(r.get(11, 11), Rgba::outline());
}

#[test]
fn eraser_sweep_over_several_frames() {
    let mut r = Raster::new(40, 16, Rgba::outline());
    let samples = [(3, 8), (4, 8), (9, 9), (20, 7), (36, 8)];
    for pair in samples.windows(2) {
        apply_tool(&mut r, DrawTool::Eraser, pair[0], pair[1], MouseButtonState::Pressed, MouseButtonState::Released);
    }
    for y in 0..16i32 {
        for x in 0..40i32 {
            for (cx, cy) in samples {
                if (x - cx) * (x - cx) + (y - cy) * (y - cy) <= 25 {
                    assert_eq!(r.get(x as u32, y as u32), Rgba::erased(), "pixel ({}, {})", x, y);
                }
            }
        }
    }
    assert_eq!(r.get(20, 0), Rgba::outline());
}

#[test]
fn pencil_marks_both_pointer_samples() {
    let mut r = Raster::new(10, 10, white());
    pencil_stroke(&mut r, (7, 2), (1, 9));
    assert_eq!(r.get(7, 2), Rgba::outline());
    assert_eq!(r.get(1, 9), Rgba::outline());
    assert_eq!(r.get(9, 0), white());
    pencil_stroke(&mut r, (0, 0), (9, 9));
    assert_eq!(r.get(0, 0), Rgba::outline());
    assert_eq!(r.get(9, 9), Rgba::outline());
}
