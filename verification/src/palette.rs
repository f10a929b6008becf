//! The eight-colour palette: one colour per 3-bit symbol, at the corners of
//! the RGB cube.

use vstd::prelude::*;

verus! {

/// An 8-bit RGB colour.
#[derive(Debug, Clone, Copy, PartialEq, Eq, Structural)]
pub struct Rgb8 {
    pub r: u8,
    pub g: u8,
    pub b: u8,
}

/// The palettes the codec knows. Only one is defined.
#[derive(Debug, Clone, Copy, PartialEq, Eq, Structural)]
pub enum Palette8 {
    Basic,
}

#[derive(Debug, Clone, Copy, PartialEq, Eq, Structural)]
pub enum PaletteError {
    SymbolOutOfRange(u8),
}

/// Number of symbols in a palette.
pub const SYMBOLS: u8 = 8;

/// The colour of a symbol: 0 black, 1 white, 2 red, 3 green, 4 blue, 5 cyan,
/// 6 magenta, 7 yellow. Meaningful for `0 <= symbol < 8`.
pub open spec fn palette_color(symbol: int) -> Rgb8 {
    if symbol == 0 {
        Rgb8 { r: 0, g: 0, b: 0 }
    } else if symbol == 1 {
        Rgb8 { r: 255, g: 255, b: 255 }
    } else if symbol == 2 {
        Rgb8 { r: 255, g: 0, b: 0 }
    } else if symbol == 3 {
        Rgb8 { r: 0, g: 255, b: 0 }
    } else if symbol == 4 {
        Rgb8 { r: 0, g: 0, b: 255 }
    } else if symbol == 5 {
        Rgb8 { r: 0, g: 255, b: 255 }
    } else if symbol == 6 {
        Rgb8 { r: 255, g: 0, b: 255 }
    } else {
        Rgb8 { r: 255, g: 255, b: 0 }
    }
}

/// The symbol whose colour is exactly `(r, g, b)`, if there is one.
pub open spec fn exact_symbol(r: int, g: int, b: int) -> Option<u8> {
    if r == 0 && g == 0 && b == 0 {
        Some(0u8)
    } else if r == 255 && g == 255 && b == 255 {
        Some(1u8)
    } else if r == 255 && g == 0 && b == 0 {
        Some(2u8)
    } else if r == 0 && g == 255 && b == 0 {
        Some(3u8)
    } else if r == 0 && g == 0 && b == 255 {
        Some(4u8)
    } else if r == 0 && g == 255 && b == 255 {
        Some(5u8)
    } else if r == 255 && g == 0 && b == 255 {
        Some(6u8)
    } else if r == 255 && g == 255 && b == 0 {
        Some(7u8)
    } else {
        None
    }
}

/// Squared Euclidean distance between two colours.
pub open spec fn color_dist2(r: int, g: int, b: int, rr: int, gg: int, bb: int) -> int {
    (r - rr) * (r - rr) + (g - gg) * (g - gg) + (b - bb) * (b - bb)
}

/// Squared distance from the colour of `symbol` to `(r, g, b)`.
pub open spec fn symbol_dist2(symbol: int, r: int, g: int, b: int) -> int {
    let c = palette_color(symbol);
    color_dist2(c.r as int, c.g as int, c.b as int, r, g, b)
}

/// `s` is the symbol whose colour is nearest to `(r, g, b)`, the lower symbol
/// winning a tie.
pub open spec fn is_nearest_symbol(s: int, r: int, g: int, b: int) -> bool {
    &&& 0 <= s < 8
    &&& forall|t: int| 0 <= t < 8 ==> symbol_dist2(s, r, g, b) <= #[trigger] symbol_dist2(t, r, g, b)
    &&& forall|t: int|
        0 <= t < s ==> symbol_dist2(s, r, g, b) < #[trigger] symbol_dist2(t, r, g, b)
}

/// The symbol nearest to `(r, g, b)`: each channel is taken to the nearer of
/// 0 and 255, which names one corner of the colour cube.
pub open spec fn nearest_symbol(r: int, g: int, b: int) -> int {
    let hr = r >= 128;
    let hg = g >= 128;
    let hb = b >= 128;
    if !hr && !hg && !hb {
        0
    } else if hr && hg && hb {
        1
    } else if hr && !hg && !hb {
        2
    } else if !hr && hg && !hb {
        3
    } else if !hr && !hg && hb {
        4
    } else if !hr && hg && hb {
        5
    } else if hr && !hg && hb {
        6
    } else {
        7
    }
}

/// One channel is never equally far from 0 and from 255, and the nearer end
/// is decided by the threshold 128.
proof fn lemma_channel_threshold(c: int)
    requires
        0 <= c <= 255,
    ensures
        c >= 128 ==> (255 - c) * (255 - c) < (0 - c) * (0 - c),
        c < 128 ==> (0 - c) * (0 - c) < (255 - c) * (255 - c),
{
    assert((255 - c) * (255 - c) == c * c - 510 * c + 65025) by (nonlinear_arith);
    assert((0 - c) * (0 - c) == c * c) by (nonlinear_arith);
}

/// The nearest symbol exists, is unique, and is given by `nearest_symbol`.
pub proof fn lemma_nearest_symbol(r: int, g: int, b: int)
    requires
        0 <= r <= 255,
        0 <= g <= 255,
        0 <= b <= 255,
    ensures
        is_nearest_symbol(nearest_symbol(r, g, b), r, g, b),
        forall|s: int| is_nearest_symbol(s, r, g, b) ==> s == nearest_symbol(r, g, b),
{
    lemma_channel_threshold(r);
    lemma_channel_threshold(g);
    lemma_channel_threshold(b);
    let n = nearest_symbol(r, g, b);
    assert forall|t: int| 0 <= t < 8 && t != n implies symbol_dist2(n, r, g, b) < #[trigger] symbol_dist2(
        t,
        r,
        g,
        b,
    ) by {
    }
    assert forall|s: int| is_nearest_symbol(s, r, g, b) implies s == n by {
        if s != n {
            assert(symbol_dist2(n, r, g, b) < symbol_dist2(s, r, g, b));
            assert(symbol_dist2(s, r, g, b) <= symbol_dist2(n, r, g, b));
        }
    }
}

/// Classifying the colour of a symbol gives the symbol back.
pub proof fn lemma_nearest_of_color(s: int)
    requires
        0 <= s < 8,
    ensures
        nearest_symbol(
            palette_color(s).r as int,
            palette_color(s).g as int,
            palette_color(s).b as int,
        ) == s,
        is_nearest_symbol(
            s,
            palette_color(s).r as int,
            palette_color(s).g as int,
            palette_color(s).b as int,
        ),
{
    let c = palette_color(s);
    lemma_nearest_symbol(c.r as int, c.g as int, c.b as int);
}

/// Squared Euclidean distance between two colours.
pub fn rgb_dist2(r: u8, g: u8, b: u8, rr: u8, gg: u8, bb: u8) -> (d: u32)
    ensures
        d == color_dist2(r as int, g as int, b as int, rr as int, gg as int, bb as int),
        d <= 195075,
{
    let dr: i32 = r as i32 - rr as i32;
    let dg: i32 = g as i32 - gg as i32;
    let db: i32 = b as i32 - bb as i32;
    assert(0 <= dr * dr <= 65025) by (nonlinear_arith)
        requires
            -255 <= dr <= 255,
    ;
    assert(0 <= dg * dg <= 65025) by (nonlinear_arith)
        requires
            -255 <= dg <= 255,
    ;
    assert(0 <= db * db <= 65025) by (nonlinear_arith)
        requires
            -255 <= db <= 255,
    ;
    (dr * dr + dg * dg + db * db) as u32
}

impl Palette8 {
    /// The identifier under which a manifest names this palette.
    pub fn id(&self) -> (name: &'static str)
        ensures
            name@ == "basic8"@,
    {
        match self {
            Palette8::Basic => "basic8",
        }
    }

    /// The colour of `symbol`, or an error for a symbol outside `0..8`.
    pub fn color(&self, symbol: u8) -> (res: Result<Rgb8, PaletteError>)
        ensures
            symbol < 8 ==> res == Ok::<Rgb8, PaletteError>(palette_color(symbol as int)),
            symbol >= 8 ==> res == Err::<Rgb8, PaletteError>(
                PaletteError::SymbolOutOfRange(symbol),
            ),
    {
        let c = match symbol {
            0 => Rgb8 { r: 0, g: 0, b: 0 },
            1 => Rgb8 { r: 255, g: 255, b: 255 },
            2 => Rgb8 { r: 255, g: 0, b: 0 },
            3 => Rgb8 { r: 0, g: 255, b: 0 },
            4 => Rgb8 { r: 0, g: 0, b: 255 },
            5 => Rgb8 { r: 0, g: 255, b: 255 },
            6 => Rgb8 { r: 255, g: 0, b: 255 },
            7 => Rgb8 { r: 255, g: 255, b: 0 },
            _ => return Err(PaletteError::SymbolOutOfRange(symbol)),
        };
        Ok(c)
    }

    /// The symbol whose colour is exactly `(r, g, b)`, if there is one.
    pub fn symbol_from_rgb_exact(&self, r: u8, g: u8, b: u8) -> (res: Option<u8>)
        ensures
            res == exact_symbol(r as int, g as int, b as int),
            match res {
                Some(s) => s < 8 && palette_color(s as int) == (Rgb8 { r, g, b }),
                None => forall|s: int| 0 <= s < 8 ==> palette_color(s) != (Rgb8 { r, g, b }),
            },
    {
        match (r, g, b) {
            (0, 0, 0) => Some(0),
            (255, 255, 255) => Some(1),
            (255, 0, 0) => Some(2),
            (0, 255, 0) => Some(3),
            (0, 0, 255) => Some(4),
            (0, 255, 255) => Some(5),
            (255, 0, 255) => Some(6),
            (255, 255, 0) => Some(7),
            _ => None,
        }
    }

    /// The symbol whose colour is nearest to `(r, g, b)` by squared Euclidean
    /// distance; the lower symbol wins a tie.
    pub fn symbol_from_rgb_nearest(&self, r: u8, g: u8, b: u8) -> (best: u8)
        ensures
            is_nearest_symbol(best as int, r as int, g as int, b as int),
            best == nearest_symbol(r as int, g as int, b as int),
    {
        let mut best: u8 = 0;
        let mut best_d: u32 = u32::MAX;
        let mut sym: u8 = 0;
        while sym < 8
            invariant
                0 <= sym <= 8,
                0 <= best < 8,
                sym == 0 ==> best_d == u32::MAX && best == 0,
                sym > 0 ==> best < sym && best_d == symbol_dist2(
                    best as int,
                    r as int,
                    g as int,
                    b as int,
                ),
                forall|t: int|
                    0 <= t < sym ==> best_d <= #[trigger] symbol_dist2(t, r as int, g as int, b as int),
                forall|t: int|
                    0 <= t < best ==> best_d < #[trigger] symbol_dist2(t, r as int, g as int, b as int),
            decreases 8 - sym,
        {
            let c = match self.color(sym) {
                Ok(c) => c,
                Err(_) => Rgb8 { r: 0, g: 0, b: 0 },
            };
            let d = rgb_dist2(c.r, c.g, c.b, r, g, b);
            if d < best_d {
                best_d = d;
                best = sym;
            }
            sym = sym + 1;
        }
        proof {
            lemma_nearest_symbol(r as int, g as int, b as int);
        }
        best
    }
}

} // verus!
