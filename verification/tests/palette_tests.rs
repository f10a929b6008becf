use sllv_core::palette::{rgb_dist2, Palette8, PaletteError, Rgb8};

#[test]
fn color_table_is_the_cube_corners() {
    let p = Palette8::Basic;
    let want = [
        (0u8, 0u8, 0u8),
        (255, 255, 255),
        (255, 0, 0),
        (0, 255, 0),
        (0, 0, 255),
        (0, 255, 255),
        (255, 0, 255),
        (255, 255, 0),
    ];
    for s in 0u8..8 {
        let c = p.color(s).unwrap();
        assert_eq!((c.r, c.g, c.b), want[s as usize]);
    }
}

#[test]
fn color_rejects_symbols_out_of_range() {
    let p = Palette8::Basic;
    assert_eq!(p.color(8), Err(PaletteError::SymbolOutOfRange(8)));
    assert_eq!(p.color(255), Err(PaletteError::SymbolOutOfRange(255)));
}

#[test]
fn palette_id_is_basic8() {
    assert_eq!(Palette8::Basic.id(), "basic8");
}

#[test]
fn nearest_of_color_is_the_symbol() {
    let p = Palette8::Basic;
    for s in 0u8..8 {
        let c = p.color(s).unwrap();
        assert_eq!(p.symbol_from_rgb_nearest(c.r, c.g, c.b), s);
        assert_eq!(p.symbol_from_rgb_exact(c.r, c.g, c.b), Some(s));
    }
}

#[test]
fn exact_rejects_other_colors() {
    let p = Palette8::Basic;
    assert_eq!(p.symbol_from_rgb_exact(1, 0, 0), None);
    assert_eq!(p.symbol_from_rgb_exact(254, 255, 255), None);
    assert_eq!(p.symbol_from_rgb_exact(128, 128, 128), None);
}

#[test]
fn nearest_tolerates_noise() {
    let p = Palette8::Basic;
    assert_eq!(p.symbol_from_rgb_nearest(10, 5, 20), 0);
    assert_eq!(p.symbol_from_rgb_nearest(240, 250, 200), 1);
    assert_eq!(p.symbol_from_rgb_nearest(200, 60, 30), 2);
    assert_eq!(p.symbol_from_rgb_nearest(100, 130, 90), 3);
    assert_eq!(p.symbol_from_rgb_nearest(0, 127, 128), 4);
    assert_eq!(p.symbol_from_rgb_nearest(127, 128, 128), 5);
    assert_eq!(p.symbol_from_rgb_nearest(128, 127, 128), 6);
    assert_eq!(p.symbol_from_rgb_nearest(128, 128, 127), 7);
}

#[test]
fn nearest_minimizes_distance_everywhere_on_a_coarse_lattice() {
    let p = Palette8::Basic;
    let steps = [0u8, 1, 63, 64, 126, 127, 128, 129, 191, 192, 254, 255];
    for &r in &steps {
        for &g in &steps {
            for &b in &steps {
                let got = p.symbol_from_rgb_nearest(r, g, b);
                let c = p.color(got).unwrap();
                let d = rgb_dist2(c.r, c.g, c.b, r, g, b);
                for s in 0u8..8 {
                    let o = p.color(s).unwrap();
                    let other = rgb_dist2(o.r, o.g, o.b, r, g, b);
                    assert!(d <= other);
                    if s < got {
                        assert!(d < other);
                    }
                }
            }
        }
    }
}

#[test]
fn squared_distance_has_exact_values() {
    assert_eq!(rgb_dist2(0, 0, 0, 255, 255, 255), 195075);
    assert_eq!(rgb_dist2(255, 0, 0, 255, 255, 0), 65025);
    assert_eq!(rgb_dist2(10, 20, 30, 13, 16, 30), 25);
    let c = Rgb8 { r: 1, g: 2, b: 3 };
    assert_eq!(rgb_dist2(c.r, c.g, c.b, c.r, c.g, c.b), 0);
}
