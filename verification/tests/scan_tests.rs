use sllv_core::manifest::EncodeManifest;
use sllv_core::palette::Palette8;
use sllv_core::pixels::FrameImage;
use sllv_core::raster::RasterParams;
use sllv_core::render::{render_calibration_frame, render_payload_frame, render_solid_frame};
use sllv_core::scan::{
    can_locate_fiducials, can_sample, decode_payload_from_rgb, detect_data_start, find_color_centroid,
    frame_symbol_stats, locate_fiducials, CxCy, SymbolStats,
};

fn params() -> RasterParams {
    RasterParams {
        grid_w: 20,
        grid_h: 16,
        cell_px: 4,
        chunk_bytes: 1024,
        palette: Palette8::Basic,
        sync_frames: 3,
        sync_color_symbol: 1,
        calibration_frames: 1,
        border_cells: 2,
        fiducial_size_cells: 6,
        fec: None,
        deskew: false,
    }
}

fn manifest_for(p: &RasterParams, frames: u32) -> EncodeManifest {
    EncodeManifest {
        magic: "SLLV".to_string(),
        version: 1,
        file_name: "x".to_string(),
        total_bytes: 0,
        chunk_bytes: 0,
        grid_w: p.grid_w,
        grid_h: p.grid_h,
        cell_px: p.cell_px,
        palette: "basic8".to_string(),
        sha256_hex: String::new(),
        frames,
    }
}

#[test]
fn decoding_a_rendered_frame_gives_the_payload_back() {
    let p = params();
    let m = manifest_for(&p, 1);
    // 20 * 16 * 3 / 8 = 120 bytes
    let payload: Vec<u8> = (0..120u32).map(|i| (i * 73 + 5) as u8).collect();
    let img = render_payload_frame(&payload, &p);
    let got = decode_payload_from_rgb(&img, &m, &p, Palette8::Basic);
    assert_eq!(got, payload);
}

#[test]
fn decoding_pads_a_short_payload_with_zeros() {
    let p = params();
    let m = manifest_for(&p, 1);
    let payload = vec![0xA5u8; 7];
    let img = render_payload_frame(&payload, &p);
    let got = decode_payload_from_rgb(&img, &m, &p, Palette8::Basic);
    let mut want = payload.clone();
    want.resize(120, 0);
    assert_eq!(got, want);
}

#[test]
fn decoding_drops_the_bits_that_fill_no_byte() {
    let mut p = params();
    p.grid_w = 5;
    p.grid_h = 3;
    p.fiducial_size_cells = 2;
    let m = manifest_for(&p, 1);
    // 15 cells hold 45 bits: 5 bytes, and 5 bits that are dropped
    let payload = vec![0xFFu8; 6];
    let img = render_payload_frame(&payload, &p);
    let got = decode_payload_from_rgb(&img, &m, &p, Palette8::Basic);
    assert_eq!(got, vec![0xFFu8; 5]);
}

#[test]
fn decoding_tolerates_slightly_wrong_colors() {
    let p = params();
    let m = manifest_for(&p, 1);
    let payload: Vec<u8> = (0..120u32).map(|i| (i * 29 + 1) as u8).collect();
    let img = render_payload_frame(&payload, &p);
    let mut raw = img.to_raw();
    for v in raw.iter_mut() {
        *v = if *v > 127 { *v - 90 } else { *v + 90 };
    }
    let noisy = FrameImage::from_raw(img.width(), img.height(), raw).unwrap();
    let got = decode_payload_from_rgb(&noisy, &m, &p, Palette8::Basic);
    assert_eq!(got, payload);
}

#[test]
fn symbol_stats_count_the_symbols_shown() {
    let p = params();
    let m = manifest_for(&p, 1);
    let solid = render_solid_frame(&p, 1);
    assert_eq!(frame_symbol_stats(&solid, &m, &p, Palette8::Basic).unique_symbols, 1);
    let cal = render_calibration_frame(&p);
    assert_eq!(frame_symbol_stats(&cal, &m, &p, Palette8::Basic).unique_symbols, 8);
    let zeros = render_payload_frame(&[0u8; 120], &p);
    assert_eq!(frame_symbol_stats(&zeros, &m, &p, Palette8::Basic).unique_symbols, 1);
    let two = render_payload_frame(&[0b0000_0101u8], &p);
    assert_eq!(frame_symbol_stats(&two, &m, &p, Palette8::Basic).unique_symbols, 2);
}

fn busy(n: usize) -> Option<SymbolStats> {
    Some(SymbolStats { unique_symbols: n })
}

#[test]
fn data_start_is_the_second_frame_that_is_no_sync_frame() {
    let p = params();
    let m = manifest_for(&p, 7);
    let stats = vec![busy(1), busy(1), busy(1), busy(8), busy(5), busy(6), busy(7)];
    assert_eq!(detect_data_start(&stats, &m, &p), 4);
    let stats = vec![busy(1), busy(8), busy(1), busy(1), busy(1), busy(6), busy(7)];
    assert_eq!(detect_data_start(&stats, &m, &p), 5);
}

#[test]
fn data_start_falls_back_to_the_counts_of_the_parameters() {
    let p = params();
    let m = manifest_for(&p, 6);
    // no second frame that is no sync frame
    let stats = vec![busy(1), busy(1), busy(1), busy(8), busy(1), busy(0)];
    assert_eq!(detect_data_start(&stats, &m, &p), 4);
    // unreadable and missing frames are passed over
    let stats = vec![busy(1), None, busy(3)];
    assert_eq!(detect_data_start(&stats, &m, &p), 4);
    assert_eq!(detect_data_start(&Vec::new(), &m, &p), 4);
}

#[test]
fn data_start_looks_at_no_more_frames_than_the_manifest_counts() {
    let p = params();
    let m = manifest_for(&p, 4);
    let stats = vec![busy(1), busy(1), busy(1), busy(8), busy(5)];
    assert_eq!(detect_data_start(&stats, &m, &p), 4);
    let m = manifest_for(&p, 5);
    assert_eq!(detect_data_start(&stats, &m, &p), 4);
    let stats = vec![busy(1), busy(8), busy(1), busy(5), busy(5)];
    assert_eq!(detect_data_start(&stats, &m, &p), 3);
}

#[test]
fn data_start_looks_at_300_frames_at_most() {
    let mut p = params();
    p.sync_frames = 400;
    let m = manifest_for(&p, 500);
    let mut stats = vec![busy(1); 299];
    stats.push(busy(8));
    stats.push(busy(8));
    assert_eq!(detect_data_start(&stats, &m, &p), 401);
    let mut stats = vec![busy(1); 298];
    stats.push(busy(8));
    stats.push(busy(8));
    assert_eq!(detect_data_start(&stats, &m, &p), 299);
}

fn painted(w: u32, h: u32, f: impl Fn(u32, u32) -> (u8, u8, u8)) -> FrameImage {
    let mut raw = Vec::with_capacity((w * h * 3) as usize);
    for y in 0..h {
        for x in 0..w {
            let (r, g, b) = f(x, y);
            raw.push(r);
            raw.push(g);
            raw.push(b);
        }
    }
    FrameImage::from_raw(w, h, raw).unwrap()
}

#[test]
fn centroid_of_a_red_square() {
    // red on columns 10..20 and rows 30..38: 80 pixels
    let img = painted(64, 64, |x, y| {
        if (10..20).contains(&x) && (30..38).contains(&y) {
            (255, 0, 0)
        } else {
            (0, 0, 0)
        }
    });
    let c = find_color_centroid(&img, 0, 0, 64, 64, 2, Palette8::Basic);
    // mean of 10..=19 is 14.5, of 30..=37 is 33.5, both rounded down
    assert_eq!(c, Some(CxCy { x: 14, y: 33 }));
    // the window cuts the square: columns 10..16, 48 pixels only
    assert_eq!(find_color_centroid(&img, 0, 0, 16, 64, 2, Palette8::Basic), None);
    assert_eq!(
        find_color_centroid(&img, 0, 0, 17, 64, 2, Palette8::Basic),
        Some(CxCy { x: 13, y: 33 })
    );
    assert_eq!(find_color_centroid(&img, 0, 0, 64, 64, 3, Palette8::Basic), None);
    assert_eq!(find_color_centroid(&img, 0, 0, 64, 64, 9, Palette8::Basic), None);
}

#[test]
fn centroid_counts_colors_within_the_threshold() {
    // squared distance to red: 100^2 + 100^2 + 100^2 = 30000 inside, and
    // 142^2 + 142^2 + 142^2 = 60492 outside the threshold of 60000
    let near = painted(10, 10, |_, _| (155, 100, 100));
    assert_eq!(
        find_color_centroid(&near, 0, 0, 10, 10, 2, Palette8::Basic),
        Some(CxCy { x: 4, y: 4 })
    );
    let far = painted(10, 10, |_, _| (113, 142, 142));
    assert_eq!(find_color_centroid(&far, 0, 0, 10, 10, 2, Palette8::Basic), None);
    // 141^2 * 3 = 59643 is inside
    let edge = painted(10, 10, |_, _| (114, 141, 141));
    assert!(find_color_centroid(&edge, 0, 0, 10, 10, 2, Palette8::Basic).is_some());
}

#[test]
fn markers_in_the_corners_are_located() {
    let p = params();
    let m = manifest_for(&p, 1);
    // squares of 8 by 8 pixels, one in each corner of a 96 by 80 image
    let img = painted(96, 80, |x, y| {
        let left = (4..12).contains(&x);
        let right = (84..92).contains(&x);
        let top = (4..12).contains(&y);
        let bottom = (68..76).contains(&y);
        if left && top {
            (255, 0, 0)
        } else if right && top {
            (0, 255, 0)
        } else if left && bottom {
            (0, 0, 255)
        } else if right && bottom {
            (255, 255, 0)
        } else {
            (0, 0, 0)
        }
    });
    assert!(can_locate_fiducials(&img, &m, &p));
    let fix = locate_fiducials(&img, &m, &p, Palette8::Basic).unwrap();
    assert_eq!(fix.top_left, CxCy { x: 7, y: 7 });
    assert_eq!(fix.top_right, CxCy { x: 87, y: 7 });
    assert_eq!(fix.bottom_left, CxCy { x: 7, y: 71 });
    assert_eq!(fix.bottom_right, CxCy { x: 87, y: 71 });
    // (20 + 2 * 2) * 4 by (16 + 2 * 2) * 4
    assert_eq!(fix.dst_w, 96);
    assert_eq!(fix.dst_h, 80);
}

#[test]
fn markers_outside_their_windows_are_not_located() {
    let p = params();
    let m = manifest_for(&p, 1);
    // the windows are 40 pixels wide: three times the extent of a marker is
    // 72, half of the shorter side is 40
    let img = painted(96, 80, |x, y| {
        if (44..52).contains(&x) && (4..12).contains(&y) {
            (255, 0, 0)
        } else {
            (0, 0, 0)
        }
    });
    assert!(locate_fiducials(&img, &m, &p, Palette8::Basic).is_none());
    // in a calibration frame the payload region covers the markers
    let cal = render_calibration_frame(&p);
    assert!(locate_fiducials(&cal, &m, &p, Palette8::Basic).is_none());
}

#[test]
fn a_frame_without_markers_is_not_located() {
    let p = params();
    let m = manifest_for(&p, 1);
    let img = render_solid_frame(&p, 1);
    assert!(locate_fiducials(&img, &m, &p, Palette8::Basic).is_none());
    let tiny = painted(16, 16, |_, _| (255, 0, 0));
    assert!(!can_locate_fiducials(&tiny, &m, &p));
}

#[test]
fn can_sample_needs_a_frame_of_the_right_size() {
    let p = params();
    let m = manifest_for(&p, 1);
    let img = render_solid_frame(&p, 0);
    assert!(can_sample(&img, &m, &p));
    // the last cell sampled is at (20 - 1 + 2) * 4 = 84 and (16 - 1 + 2) * 4 = 68
    assert!(can_sample(&painted(85, 69, |_, _| (0, 0, 0)), &m, &p));
    assert!(!can_sample(&painted(84, 69, |_, _| (0, 0, 0)), &m, &p));
    assert!(!can_sample(&painted(85, 68, |_, _| (0, 0, 0)), &m, &p));
    let mut empty = manifest_for(&p, 1);
    empty.grid_w = 0;
    assert!(can_sample(&painted(1, 1, |_, _| (0, 0, 0)), &empty, &p));
    assert!(decode_payload_from_rgb(&painted(1, 1, |_, _| (0, 0, 0)), &empty, &p, Palette8::Basic)
        .is_empty());
}
