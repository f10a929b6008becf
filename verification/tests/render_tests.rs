use sllv_core::bits::read_3bits;
use sllv_core::palette::{Palette8, Rgb8};
use sllv_core::pixels::FrameImage;
use sllv_core::raster::{full_grid_h, full_grid_w, RasterParams};
use sllv_core::render::{
    paint_cell, render_calibration_frame, render_payload_frame, render_solid_frame,
};

fn small_params() -> RasterParams {
    RasterParams {
        grid_w: 16,
        grid_h: 12,
        cell_px: 3,
        chunk_bytes: 1024,
        palette: Palette8::Basic,
        sync_frames: 2,
        sync_color_symbol: 1,
        calibration_frames: 1,
        border_cells: 2,
        fiducial_size_cells: 4,
        fec: None,
        deskew: false,
    }
}

fn color_of(s: u8) -> Rgb8 {
    Palette8::Basic.color(s).unwrap()
}

fn cell_is(img: &FrameImage, p: &RasterParams, cx: u32, cy: u32, s: u8) -> bool {
    let want = color_of(s);
    for dy in 0..p.cell_px {
        for dx in 0..p.cell_px {
            if img.pixel(cx * p.cell_px + dx, cy * p.cell_px + dy) != Some(want) {
                return false;
            }
        }
    }
    true
}

fn fiducial_of(p: &RasterParams, cx: u32, cy: u32) -> Option<u8> {
    let s = p.fiducial_size_cells;
    let b = p.border_cells;
    let in_l = |x0: u32, y0: u32| {
        s >= 1
            && ((cx >= x0 && cx <= x0 + 1 && cy >= y0 && cy < y0 + s)
                || (cx >= x0 && cx < x0 + s && cy >= y0 && cy <= y0 + 1))
    };
    if in_l(b + p.grid_w - s, b + p.grid_h - s) {
        Some(7)
    } else if in_l(b, b + p.grid_h - s) {
        Some(4)
    } else if in_l(b + p.grid_w - s, b) {
        Some(3)
    } else if in_l(b, b) {
        Some(2)
    } else {
        None
    }
}

#[test]
fn frame_dimensions_include_the_border() {
    let p = small_params();
    assert!(p.is_renderable());
    assert_eq!(full_grid_w(&p), 20);
    assert_eq!(full_grid_h(&p), 16);
    let img = render_solid_frame(&p, 1);
    assert_eq!(img.width(), 60);
    assert_eq!(img.height(), 48);
    assert_eq!(img.pixel(60, 0), None);
    assert_eq!(img.pixel(0, 48), None);
}

#[test]
fn solid_frame_is_one_color_everywhere() {
    let p = small_params();
    for s in [0u8, 1, 5, 7] {
        let img = render_solid_frame(&p, s);
        for y in 0..img.height() {
            for x in 0..img.width() {
                assert_eq!(img.pixel(x, y), Some(color_of(s)));
            }
        }
    }
}

#[test]
fn paint_cell_fills_one_square() {
    let p = small_params();
    let mut img = render_solid_frame(&p, 0);
    paint_cell(&mut img, 3, 2, 3, 10, 20, 30);
    for y in 0..img.height() {
        for x in 0..img.width() {
            let inside = (9..12).contains(&x) && (6..9).contains(&y);
            let want = if inside { Rgb8 { r: 10, g: 20, b: 30 } } else { color_of(0) };
            assert_eq!(img.pixel(x, y), Some(want));
        }
    }
}

#[test]
fn payload_frame_shows_border_and_payload() {
    let p = small_params();
    let payload: Vec<u8> = (0..72u32).map(|i| (i * 37 + 11) as u8).collect();
    let img = render_payload_frame(&payload, &p);
    for cy in 0..16u32 {
        for cx in 0..20u32 {
            let inside = cx >= 2 && cx < 18 && cy >= 2 && cy < 14;
            let want = if inside {
                let n = ((cy - 2) * 16 + (cx - 2)) as usize;
                read_3bits(&payload, 3 * n)
            } else if ((cx ^ cy) & 1) == 0 {
                0
            } else {
                1
            };
            assert!(cell_is(&img, &p, cx, cy, want), "cell {} {}", cx, cy);
        }
    }
}

#[test]
fn payload_frame_pads_a_short_payload_with_symbol_zero() {
    let p = small_params();
    let payload = [0xFFu8; 3];
    let img = render_payload_frame(&payload, &p);
    for n in 0..(16 * 12) as u32 {
        let cx = 2 + n % 16;
        let cy = 2 + n / 16;
        let want = if n < 8 { 7 } else { 0 };
        assert!(cell_is(&img, &p, cx, cy, want), "cell number {}", n);
    }
}

#[test]
fn calibration_frame_shows_markers_stripe_and_checker() {
    let p = small_params();
    let img = render_calibration_frame(&p);
    // blocks of the palette stripe are 16 / 8 = 2 cells wide
    for cy in 0..16u32 {
        for cx in 0..20u32 {
            let inside = cx >= 2 && cx < 18 && cy >= 2 && cy < 14;
            let want = if inside {
                let x = cx - 2;
                let y = cy - 2;
                if y < 4 {
                    (x / 2) as u8
                } else if ((x ^ y) & 1) == 0 {
                    1
                } else {
                    0
                }
            } else if let Some(f) = fiducial_of(&p, cx, cy) {
                f
            } else if ((cx ^ cy) & 1) == 0 {
                0
            } else {
                1
            };
            assert!(cell_is(&img, &p, cx, cy, want), "cell {} {}", cx, cy);
        }
    }
}

#[test]
fn marker_of_extent_one_reaches_into_the_border() {
    let mut p = small_params();
    p.fiducial_size_cells = 1;
    assert!(p.is_renderable());
    let img = render_payload_frame(&[0u8; 72], &p);
    // the top right marker starts in the last payload column and paints the
    // border cell to its right; the bottom markers paint the border row below
    assert!(cell_is(&img, &p, 18, 2, 3));
    assert!(cell_is(&img, &p, 2, 14, 4));
    assert!(cell_is(&img, &p, 17, 14, 7));
    assert!(cell_is(&img, &p, 18, 13, 7));
    assert!(cell_is(&img, &p, 18, 14, 0));
    // inside the payload region the payload covers the markers
    assert!(cell_is(&img, &p, 17, 2, 0));
    assert!(cell_is(&img, &p, 2, 2, 0));
}

#[test]
fn narrow_grid_has_a_stripe_of_single_cells() {
    let mut p = small_params();
    p.grid_w = 5;
    p.grid_h = 6;
    assert!(p.is_renderable());
    let img = render_calibration_frame(&p);
    for x in 0..5u32 {
        for y in 0..4u32 {
            assert!(cell_is(&img, &p, 2 + x, 2 + y, x as u8));
        }
    }
    assert!(cell_is(&img, &p, 2, 6, 1));
    assert!(cell_is(&img, &p, 3, 6, 0));
    assert!(cell_is(&img, &p, 2, 7, 0));
}

#[test]
fn renderable_rejects_frames_that_do_not_fit() {
    let mut p = small_params();
    p.fiducial_size_cells = 13;
    assert!(!p.is_renderable());
    let mut p = small_params();
    p.fiducial_size_cells = 1;
    p.border_cells = 0;
    assert!(!p.is_renderable());
    p.fiducial_size_cells = 0;
    assert!(p.is_renderable());
    let mut p = small_params();
    p.grid_w = u32::MAX;
    assert!(!p.is_renderable());
    let mut p = small_params();
    p.grid_w = 60000;
    p.grid_h = 60000;
    p.cell_px = 60000;
    assert!(!p.is_renderable());
}

#[test]
fn raw_samples_round_trip() {
    let p = small_params();
    let img = render_calibration_frame(&p);
    let raw = img.to_raw();
    assert_eq!(raw.len(), 60 * 48 * 3);
    let c = img.pixel(7, 5).unwrap();
    let at = 3 * (5 * 60 + 7);
    assert_eq!((raw[at], raw[at + 1], raw[at + 2]), (c.r, c.g, c.b));
    let back = FrameImage::from_raw(60, 48, raw.clone()).unwrap();
    for y in 0..48 {
        for x in 0..60 {
            assert_eq!(back.pixel(x, y), img.pixel(x, y));
        }
    }
    assert!(FrameImage::from_raw(60, 48, raw[1..].to_vec()).is_none());
    let mut longer = raw.clone();
    longer.push(0);
    assert!(FrameImage::from_raw(60, 48, longer).is_none());
    // the same buffer, handed to the image crate, is the same picture
    let theirs = image::RgbImage::from_raw(60, 48, raw).unwrap();
    assert_eq!(theirs.get_pixel(7, 5).0, [c.r, c.g, c.b]);
}
