//! Rendering of frames: a lattice of square cells, each painted with the
//! colour of one symbol.

use crate::bits::{read3, read_3bits};
use crate::palette::{palette_color, Rgb8};
use crate::pixels::{
    image_dimensions, image_new, image_pixels, image_put, image_size, image_whole, FrameImage,
};
use crate::raster::{full_grid_h, full_grid_w, RasterParams};
use vstd::prelude::*;

verus! {

/// The pixel `k` lies in the cell `(x, y)`.
pub open spec fn in_cell(k: (int, int), x: int, y: int, cell_px: int) -> bool {
    x * cell_px <= k.0 < x * cell_px + cell_px && y * cell_px <= k.1 < y * cell_px + cell_px
}

/// Pixel `(dx, dy)` of the cell `(cx, cy)`.
pub open spec fn cell_pixel(img: FrameImage, cell_px: int, cx: int, cy: int, dx: int, dy: int) -> Rgb8 {
    image_pixels(img)[(cx * cell_px + dx, cy * cell_px + dy)]
}

/// Every pixel of the cell `(cx, cy)` has the colour `c`.
pub open spec fn cell_shows(img: FrameImage, cell_px: int, cx: int, cy: int, c: Rgb8) -> bool {
    forall|dx: int, dy: int|
        0 <= dx < cell_px && 0 <= dy < cell_px ==> #[trigger] cell_pixel(
            img,
            cell_px,
            cx,
            cy,
            dx,
            dy,
        ) == c
}

/// The image has the width and height of a frame of `p`.
pub open spec fn frame_sized(img: FrameImage, p: RasterParams) -> bool {
    &&& image_size(img) == (p.width_px() as nat, p.height_px() as nat)
    &&& image_whole(img)
}

/// The cell `(cx, cy)` is painted with the colour of its symbol in `cells`.
pub open spec fn shows_symbol(
    img: FrameImage,
    p: RasterParams,
    cells: Map<(int, int), int>,
    cx: int,
    cy: int,
) -> bool {
    cell_shows(img, p.cell_px as int, cx, cy, palette_color(cells[(cx, cy)]))
}

/// The image is a frame of `p` whose every cell is painted with the colour
/// of its symbol in `cells`.
pub open spec fn frame_shows(img: FrameImage, p: RasterParams, cells: Map<(int, int), int>) -> bool {
    &&& frame_sized(img, p)
    &&& forall|cx: int, cy: int|
        0 <= cx < p.full_w() && 0 <= cy < p.full_h() ==> #[trigger] shows_symbol(
            img,
            p,
            cells,
            cx,
            cy,
        )
}

/// The pixels painted so far while a cell is painted row by row.
spec fn painted(k: (int, int), x0: int, y0: int, cell_px: int, dy: int, dx: int) -> bool {
    &&& x0 <= k.0 < x0 + cell_px
    &&& (y0 <= k.1 < y0 + dy || (k.1 == y0 + dy && k.0 < x0 + dx))
}

/// Paints the cell `(x, y)`: the square of `cell_px` by `cell_px` pixels from
/// `(x * cell_px, y * cell_px)` on.
pub fn paint_cell(img: &mut FrameImage, x: u32, y: u32, cell_px: u32, r: u8, g: u8, b: u8)
    requires
        image_whole(*old(img)),
        x * cell_px + cell_px <= image_size(*old(img)).0,
        y * cell_px + cell_px <= image_size(*old(img)).1,
    ensures
        image_size(*final(img)) == image_size(*old(img)),
        image_whole(*final(img)),
        forall|k: (int, int)|
            image_pixels(*old(img)).dom().contains(k) ==> #[trigger] image_pixels(*final(img))[k]
                == if in_cell(k, x as int, y as int, cell_px as int) {
                Rgb8 { r, g, b }
            } else {
                image_pixels(*old(img))[k]
            },
{
    // learns that the width and height of the image fit in `u32`
    let _size = image_dimensions(img);
    assert(x * cell_px >= 0 && y * cell_px >= 0) by (nonlinear_arith)
        requires
            x >= 0,
            y >= 0,
            cell_px >= 0,
    ;
    let x0: u32 = x * cell_px;
    let y0: u32 = y * cell_px;
    let c = Rgb8 { r, g, b };
    let mut dy: u32 = 0;
    while dy < cell_px
        invariant
            0 <= dy <= cell_px,
            x0 == x * cell_px,
            y0 == y * cell_px,
            x0 + cell_px <= image_size(*img).0,
            y0 + cell_px <= image_size(*img).1,
            image_size(*img).0 <= u32::MAX,
            image_size(*img).1 <= u32::MAX,
            image_size(*img) == image_size(*old(img)),
            image_whole(*img),
            image_whole(*old(img)),
            forall|k: (int, int)|
                image_pixels(*old(img)).dom().contains(k) ==> #[trigger] image_pixels(*img)[k]
                    == if painted(k, x0 as int, y0 as int, cell_px as int, dy as int, 0) {
                    c
                } else {
                    image_pixels(*old(img))[k]
                },
        decreases cell_px - dy,
    {
        let mut dx: u32 = 0;
        while dx < cell_px
            invariant
                0 <= dx <= cell_px,
                0 <= dy < cell_px,
                x0 + cell_px <= image_size(*img).0,
                y0 + cell_px <= image_size(*img).1,
                image_size(*img).0 <= u32::MAX,
                image_size(*img).1 <= u32::MAX,
                image_size(*img) == image_size(*old(img)),
                image_whole(*img),
                image_whole(*old(img)),
                forall|k: (int, int)|
                    image_pixels(*old(img)).dom().contains(k) ==> #[trigger] image_pixels(*img)[k]
                        == if painted(k, x0 as int, y0 as int, cell_px as int, dy as int, dx as int) {
                        c
                    } else {
                        image_pixels(*old(img))[k]
                    },
            decreases cell_px - dx,
        {
            let ghost before = *img;
            image_put(img, x0 + dx, y0 + dy, c);
            proof {
                assert(image_pixels(before).dom().contains((x0 + dx, y0 + dy)));
                assert forall|k: (int, int)| #[trigger]
                    image_pixels(*img).dom().contains(k) <==> 0 <= k.0 < image_size(*img).0 && 0
                        <= k.1 < image_size(*img).1 by {
                    assert(image_pixels(before).dom().contains(k) <==> 0 <= k.0 < image_size(
                        before,
                    ).0 && 0 <= k.1 < image_size(before).1);
                }
            }
            dx = dx + 1;
        }
        dy = dy + 1;
    }
}

proof fn lemma_cell_inside(cx: int, full: int, c: int, dx: int)
    by (nonlinear_arith)
    requires
        0 <= cx < full,
        0 <= dx < c,
    ensures
        0 <= cx * c + dx < full * c,
{
}

proof fn lemma_cell_fits(cx: int, full: int, c: int)
    by (nonlinear_arith)
    requires
        0 <= cx < full,
        0 <= c,
    ensures
        cx * c + c <= full * c,
        0 <= cx * c,
{
}

/// Cells do not overlap: a pixel of one column of cells lies in no other.
proof fn lemma_cells_apart(cx: int, x: int, c: int, dx: int)
    by (nonlinear_arith)
    requires
        0 <= dx < c,
        cx != x,
    ensures
        !(x * c <= cx * c + dx < x * c + c),
{
}

/// Painting one cell with the colour of `sym` changes what that cell shows
/// and nothing else.
fn paint(
    img: &mut FrameImage,
    p: &RasterParams,
    x: u32,
    y: u32,
    sym: u8,
    Ghost(cells): Ghost<Map<(int, int), int>>,
)
    requires
        p.renderable(),
        frame_shows(*old(img), *p, cells),
        x < p.full_w(),
        y < p.full_h(),
        sym < 8,
    ensures
        frame_shows(*final(img), *p, cells.insert((x as int, y as int), sym as int)),
{
    let c: Rgb8 = p.palette.color(sym).unwrap();
    let ghost cpx = p.cell_px as int;
    proof {
        lemma_cell_fits(x as int, p.full_w(), cpx);
        lemma_cell_fits(y as int, p.full_h(), cpx);
    }
    paint_cell(img, x, y, p.cell_px, c.r, c.g, c.b);
    proof {
        let after = cells.insert((x as int, y as int), sym as int);
        assert forall|cx: int, cy: int| 0 <= cx < p.full_w() && 0 <= cy < p.full_h() implies #[trigger] shows_symbol(
            *img,
            *p,
            after,
            cx,
            cy,
        ) by {
            assert(shows_symbol(*old(img), *p, cells, cx, cy));
            assert forall|dx: int, dy: int| 0 <= dx < cpx && 0 <= dy < cpx implies #[trigger] cell_pixel(
                *img,
                cpx,
                cx,
                cy,
                dx,
                dy,
            ) == palette_color(after[(cx, cy)]) by {
                let k = (cx * cpx + dx, cy * cpx + dy);
                lemma_cell_inside(cx, p.full_w(), cpx, dx);
                lemma_cell_inside(cy, p.full_h(), cpx, dy);
                assert(image_pixels(*old(img)).dom().contains(k));
                assert(cell_pixel(*old(img), cpx, cx, cy, dx, dy) == palette_color(cells[(cx, cy)]));
                if cx != x {
                    lemma_cells_apart(cx, x as int, cpx, dx);
                } else if cy != y {
                    lemma_cells_apart(cy, y as int, cpx, dy);
                }
            }
        }
    }
}

/// A blank frame of `p`: every cell shows symbol 0.
fn blank_frame(p: &RasterParams) -> (img: FrameImage)
    requires
        p.renderable(),
    ensures
        frame_shows(img, *p, Map::new(|k: (int, int)| true, |k: (int, int)| 0int)),
{
    let w = full_grid_w(p);
    let h = full_grid_h(p);
    let img = image_new(w * p.cell_px, h * p.cell_px);
    proof {
        let cpx = p.cell_px as int;
        let cells = Map::new(|k: (int, int)| true, |k: (int, int)| 0int);
        assert forall|cx: int, cy: int| 0 <= cx < p.full_w() && 0 <= cy < p.full_h() implies #[trigger] shows_symbol(
            img,
            *p,
            cells,
            cx,
            cy,
        ) by {
            assert forall|dx: int, dy: int| 0 <= dx < cpx && 0 <= dy < cpx implies #[trigger] cell_pixel(
                img,
                cpx,
                cx,
                cy,
                dx,
                dy,
            ) == palette_color(cells[(cx, cy)]) by {
                lemma_cell_inside(cx, p.full_w(), cpx, dx);
                lemma_cell_inside(cy, p.full_h(), cpx, dy);
            }
        }
    }
    img
}

/// The symbols of a frame painted with one symbol throughout.
pub open spec fn solid_cells(sym: int) -> Map<(int, int), int> {
    Map::new(|k: (int, int)| true, |k: (int, int)| sym)
}

/// A frame every cell of which, border included, is painted with `symbol`.
pub fn render_solid_frame(p: &RasterParams, symbol: u8) -> (img: FrameImage)
    requires
        p.renderable(),
        symbol < 8,
    ensures
        frame_shows(img, *p, solid_cells(symbol as int)),
{
    let mut img = blank_frame(p);
    let w = full_grid_w(p);
    let h = full_grid_h(p);
    let ghost mut cells = Map::new(|k: (int, int)| true, |k: (int, int)| 0int);
    let mut y: u32 = 0;
    while y < h
        invariant
            0 <= y <= h,
            w == p.full_w(),
            h == p.full_h(),
            p.renderable(),
            symbol < 8,
            frame_shows(img, *p, cells),
            forall|cx: int, cy: int|
                0 <= cx < w && 0 <= cy < y ==> #[trigger] cells[(cx, cy)] == symbol,
        decreases h - y,
    {
        let mut x: u32 = 0;
        while x < w
            invariant
                0 <= x <= w,
                0 <= y < h,
                w == p.full_w(),
                h == p.full_h(),
                p.renderable(),
                symbol < 8,
                frame_shows(img, *p, cells),
                forall|cx: int, cy: int|
                    0 <= cx < w && (0 <= cy < y || (cy == y && cx < x)) ==> #[trigger] cells[(
                        cx,
                        cy,
                    )] == symbol,
            decreases w - x,
        {
            paint(&mut img, p, x, y, symbol, Ghost(cells));
            proof {
                cells = cells.insert((x as int, y as int), symbol as int);
            }
            x = x + 1;
        }
        y = y + 1;
    }
    proof {
        lemma_same_frame(img, *p, cells, solid_cells(symbol as int));
    }
    img
}

/// A frame shows any symbols that agree, cell by cell, with symbols it shows.
pub proof fn lemma_same_frame(
    img: FrameImage,
    p: RasterParams,
    a: Map<(int, int), int>,
    b: Map<(int, int), int>,
)
    requires
        frame_shows(img, p, a),
        forall|cx: int, cy: int|
            0 <= cx < p.full_w() && 0 <= cy < p.full_h() ==> #[trigger] a[(cx, cy)] == b[(cx, cy)],
    ensures
        frame_shows(img, p, b),
{
    assert forall|cx: int, cy: int| 0 <= cx < p.full_w() && 0 <= cy < p.full_h() implies #[trigger] shows_symbol(
        img,
        p,
        b,
        cx,
        cy,
    ) by {
        assert(shows_symbol(img, p, a, cx, cy));
        assert(a[(cx, cy)] == b[(cx, cy)]);
    }
}

/// The cell `(cx, cy)` belongs to the payload region, inside the border.
pub open spec fn in_payload(p: RasterParams, cx: int, cy: int) -> bool {
    &&& p.border_cells <= cx < p.border_cells + p.grid_w
    &&& p.border_cells <= cy < p.border_cells + p.grid_h
}

/// The checker of the border: symbol 0 where `cx + cy` is even, which is
/// where `cx XOR cy` is even, and symbol 1 elsewhere.
pub open spec fn checker(cx: int, cy: int) -> int {
    if (cx + cy) % 2 == 0 {
        0
    } else {
        1
    }
}

/// The cell `(cx, cy)` belongs to the L-shaped marker of extent `s` whose
/// corner is `(x0, y0)`: two columns of `s` cells and two rows of `s` cells.
pub open spec fn in_l(x0: int, y0: int, s: int, cx: int, cy: int) -> bool {
    ||| x0 <= cx <= x0 + 1 && y0 <= cy < y0 + s
    ||| x0 <= cx < x0 + s && y0 <= cy <= y0 + 1
}

/// The symbol of the corner marker that covers the cell `(cx, cy)`, if one
/// does: red (2) top left, green (3) top right, blue (4) bottom left, yellow
/// (7) bottom right. Where two markers meet, the one named later covers the
/// other.
pub open spec fn fiducial_symbol(p: RasterParams, cx: int, cy: int) -> Option<int> {
    let s = p.fiducial_size_cells as int;
    let left = p.border_cells as int;
    let right = p.border_cells + p.grid_w - s;
    let top = p.border_cells as int;
    let bottom = p.border_cells + p.grid_h - s;
    if in_l(right, bottom, s, cx, cy) {
        Some(7)
    } else if in_l(left, bottom, s, cx, cy) {
        Some(4)
    } else if in_l(right, top, s, cx, cy) {
        Some(3)
    } else if in_l(left, top, s, cx, cy) {
        Some(2)
    } else {
        None
    }
}

/// The symbol of a cell outside the payload region: that of a corner marker
/// where one reaches it, else the checker.
pub open spec fn surround_symbol(p: RasterParams, cx: int, cy: int) -> int {
    match fiducial_symbol(p, cx, cy) {
        Some(s) => s,
        None => checker(cx, cy),
    }
}

/// The place of a payload cell in row-major order.
pub open spec fn payload_index(p: RasterParams, cx: int, cy: int) -> int {
    (cy - p.border_cells) * p.grid_w + (cx - p.border_cells)
}

/// The symbol of the cell `(cx, cy)` of a payload frame: in the payload
/// region the successive 3-bit symbols of `payload`, row by row, which cover
/// the corner markers there.
pub open spec fn payload_symbol(payload: Seq<u8>, p: RasterParams, cx: int, cy: int) -> int {
    if in_payload(p, cx, cy) {
        read3(payload, 3 * payload_index(p, cx, cy))
    } else {
        surround_symbol(p, cx, cy)
    }
}

/// The symbols of a payload frame.
pub open spec fn payload_cells(payload: Seq<u8>, p: RasterParams) -> Map<(int, int), int> {
    Map::new(|k: (int, int)| true, |k: (int, int)| payload_symbol(payload, p, k.0, k.1))
}

/// Width of one block of the palette stripe of a calibration frame.
pub open spec fn stripe_block(p: RasterParams) -> int {
    if p.grid_w / 8 >= 1 {
        p.grid_w as int / 8
    } else {
        1
    }
}

/// The symbol of the cell `(cx, cy)` of a calibration frame. In the payload
/// region the first four rows hold the palette stripe, symbols 0 to 7 in
/// blocks of equal width from the left and symbol 0 after them, and the rows
/// below hold a checker that starts with symbol 1.
pub open spec fn calibration_symbol(p: RasterParams, cx: int, cy: int) -> int {
    let x = cx - p.border_cells;
    let y = cy - p.border_cells;
    if in_payload(p, cx, cy) {
        if y < 4 {
            if x < 8 * stripe_block(p) {
                x / stripe_block(p)
            } else {
                0
            }
        } else {
            1 - checker(x, y)
        }
    } else {
        surround_symbol(p, cx, cy)
    }
}

/// The symbols of a calibration frame.
pub open spec fn calibration_cells(p: RasterParams) -> Map<(int, int), int> {
    Map::new(|k: (int, int)| true, |k: (int, int)| calibration_symbol(p, k.0, k.1))
}

proof fn lemma_checker_bits(x: u32, y: u32)
    by (bit_vector)
    ensures
        ((x ^ y) & 1 == 0) <==> ((x as u64 + y as u64) % 2 == 0),
{
}

/// Paints the border: every cell outside the payload region gets the
/// checker.
fn draw_border(img: &mut FrameImage, p: &RasterParams) -> (out: Ghost<Map<(int, int), int>>)
    requires
        p.renderable(),
        frame_shows(*old(img), *p, Map::new(|k: (int, int)| true, |k: (int, int)| 0int)),
    ensures
        frame_shows(*final(img), *p, out@),
        forall|cx: int, cy: int|
            0 <= cx < p.full_w() && 0 <= cy < p.full_h() ==> #[trigger] out@[(cx, cy)] == if in_payload(
                *p,
                cx,
                cy,
            ) {
                0
            } else {
                checker(cx, cy)
            },
{
    let w = full_grid_w(p);
    let h = full_grid_h(p);
    let ghost mut cells = Map::new(|k: (int, int)| true, |k: (int, int)| 0int);
    let mut y: u32 = 0;
    while y < h
        invariant
            0 <= y <= h,
            w == p.full_w(),
            h == p.full_h(),
            p.renderable(),
            frame_shows(*img, *p, cells),
            forall|cx: int, cy: int|
                0 <= cx < w && 0 <= cy < h ==> #[trigger] cells[(cx, cy)] == if cy < y && !in_payload(
                    *p,
                    cx,
                    cy,
                ) {
                    checker(cx, cy)
                } else {
                    0
                },
        decreases h - y,
    {
        let mut x: u32 = 0;
        while x < w
            invariant
                0 <= x <= w,
                0 <= y < h,
                w == p.full_w(),
                h == p.full_h(),
                p.renderable(),
                frame_shows(*img, *p, cells),
                forall|cx: int, cy: int|
                    0 <= cx < w && 0 <= cy < h ==> #[trigger] cells[(cx, cy)] == if (cy < y || (cy
                        == y && cx < x)) && !in_payload(*p, cx, cy) {
                        checker(cx, cy)
                    } else {
                        0
                    },
            decreases w - x,
        {
            let inside = x >= p.border_cells && y >= p.border_cells && x < p.border_cells
                + p.grid_w && y < p.border_cells + p.grid_h;
            if !inside {
                proof {
                    lemma_checker_bits(x, y);
                }
                let sym: u8 = if ((x ^ y) & 1) == 0 {
                    0
                } else {
                    1
                };
                paint(img, p, x, y, sym, Ghost(cells));
                proof {
                    cells = cells.insert((x as int, y as int), sym as int);
                }
            }
            x = x + 1;
        }
        y = y + 1;
    }
    Ghost(cells)
}

/// Paints one L-shaped marker with the colour of `sym`: the two columns of
/// `s` cells from `(x0, y0)` down and the two rows of `s` cells from
/// `(x0, y0)` to the right.
fn draw_l(
    img: &mut FrameImage,
    p: &RasterParams,
    x0: u32,
    y0: u32,
    s: u32,
    sym: u8,
    Ghost(cells): Ghost<Map<(int, int), int>>,
) -> (out: Ghost<Map<(int, int), int>>)
    requires
        p.renderable(),
        frame_shows(*old(img), *p, cells),
        sym < 8,
        x0 + s <= p.full_w(),
        y0 + s <= p.full_h(),
        s >= 1 ==> x0 + 1 < p.full_w() && y0 + 1 < p.full_h(),
    ensures
        frame_shows(*final(img), *p, out@),
        forall|cx: int, cy: int|
            0 <= cx < p.full_w() && 0 <= cy < p.full_h() ==> #[trigger] out@[(cx, cy)] == if in_l(
                x0 as int,
                y0 as int,
                s as int,
                cx,
                cy,
            ) {
                sym as int
            } else {
                cells[(cx, cy)]
            },
{
    let ghost mut cur = cells;
    let mut y: u32 = y0;
    while y < y0 + s
        invariant
            y0 <= y <= y0 + s,
            p.renderable(),
            sym < 8,
            x0 + s <= p.full_w(),
            y0 + s <= p.full_h(),
            s >= 1 ==> x0 + 1 < p.full_w() && y0 + 1 < p.full_h(),
            frame_shows(*img, *p, cur),
            forall|cx: int, cy: int|
                0 <= cx < p.full_w() && 0 <= cy < p.full_h() ==> #[trigger] cur[(cx, cy)] == if x0
                    <= cx <= x0 + 1 && y0 <= cy < y {
                    sym as int
                } else {
                    cells[(cx, cy)]
                },
        decreases y0 + s - y,
    {
        paint(img, p, x0, y, sym, Ghost(cur));
        proof {
            cur = cur.insert((x0 as int, y as int), sym as int);
        }
        paint(img, p, x0 + 1, y, sym, Ghost(cur));
        proof {
            cur = cur.insert((x0 + 1, y as int), sym as int);
        }
        y = y + 1;
    }
    let mut x: u32 = x0;
    while x < x0 + s
        invariant
            x0 <= x <= x0 + s,
            p.renderable(),
            sym < 8,
            x0 + s <= p.full_w(),
            y0 + s <= p.full_h(),
            s >= 1 ==> x0 + 1 < p.full_w() && y0 + 1 < p.full_h(),
            frame_shows(*img, *p, cur),
            forall|cx: int, cy: int|
                0 <= cx < p.full_w() && 0 <= cy < p.full_h() ==> #[trigger] cur[(cx, cy)] == if (x0
                    <= cx <= x0 + 1 && y0 <= cy < y0 + s) || (x0 <= cx < x && y0 <= cy <= y0 + 1) {
                    sym as int
                } else {
                    cells[(cx, cy)]
                },
        decreases x0 + s - x,
    {
        paint(img, p, x, y0, sym, Ghost(cur));
        proof {
            cur = cur.insert((x as int, y0 as int), sym as int);
        }
        paint(img, p, x, y0 + 1, sym, Ghost(cur));
        proof {
            cur = cur.insert((x as int, y0 + 1), sym as int);
        }
        x = x + 1;
    }
    Ghost(cur)
}

/// Paints the four corner markers over a frame whose border is painted.
fn draw_corner_fiducials(
    img: &mut FrameImage,
    p: &RasterParams,
    Ghost(cells): Ghost<Map<(int, int), int>>,
) -> (out: Ghost<Map<(int, int), int>>)
    requires
        p.renderable(),
        frame_shows(*old(img), *p, cells),
    ensures
        frame_shows(*final(img), *p, out@),
        forall|cx: int, cy: int|
            0 <= cx < p.full_w() && 0 <= cy < p.full_h() ==> #[trigger] out@[(cx, cy)]
                == match fiducial_symbol(*p, cx, cy) {
                Some(s) => s,
                None => cells[(cx, cy)],
            },
{
    let s = p.fiducial_size_cells;
    let b = p.border_cells;
    let c1 = draw_l(img, p, b, b, s, 2, Ghost(cells));
    let c2 = draw_l(img, p, b + p.grid_w - s, b, s, 3, c1);
    let c3 = draw_l(img, p, b, b + p.grid_h - s, s, 4, c2);
    let c4 = draw_l(img, p, b + p.grid_w - s, b + p.grid_h - s, s, 7, c3);
    c4
}

/// A frame with border and corner markers painted, the payload region still
/// showing symbol 0 where no marker covers it.
fn frame_surround(p: &RasterParams) -> (r: (FrameImage, Ghost<Map<(int, int), int>>))
    requires
        p.renderable(),
    ensures
        frame_shows(r.0, *p, r.1@),
        forall|cx: int, cy: int|
            0 <= cx < p.full_w() && 0 <= cy < p.full_h() && !in_payload(*p, cx, cy)
                ==> #[trigger] r.1@[(cx, cy)] == surround_symbol(*p, cx, cy),
{
    let mut img = blank_frame(p);
    let c0 = draw_border(&mut img, p);
    let c1 = draw_corner_fiducials(&mut img, p, c0);
    (img, c1)
}

proof fn lemma_row_major(y: int, x: int, gw: int, gh: int)
    by (nonlinear_arith)
    requires
        0 <= y < gh,
        0 <= x < gw,
    ensures
        0 <= y * gw + x < gw * gh,
        3 * (y * gw + x) + 3 <= 3 * gw * gh,
{
}

proof fn lemma_next_row(y: int, gw: int)
    by (nonlinear_arith)
    ensures
        (y + 1) * gw == y * gw + gw,
{
}

/// A payload frame: border, corner markers, and in the payload region the
/// successive 3-bit symbols of `payload`, row by row. Past the end of
/// `payload` the symbols are 0.
pub fn render_payload_frame(payload: &[u8], p: &RasterParams) -> (img: FrameImage)
    requires
        p.renderable(),
    ensures
        frame_shows(img, *p, payload_cells(payload@, *p)),
{
    let (mut img, base) = frame_surround(p);
    let ghost mut cells = base@;
    let b = p.border_cells;
    let gw = p.grid_w;
    let gh = p.grid_h;
    let mut bit_i: usize = 0;
    let mut y: u32 = 0;
    proof {
        assert(0 * gw == 0);
    }
    while y < gh
        invariant
            0 <= y <= gh,
            b == p.border_cells,
            gw == p.grid_w,
            gh == p.grid_h,
            p.renderable(),
            bit_i == 3 * (y * gw),
            frame_shows(img, *p, cells),
            forall|cx: int, cy: int|
                0 <= cx < p.full_w() && 0 <= cy < p.full_h() ==> #[trigger] cells[(cx, cy)]
                    == if in_payload(*p, cx, cy) && cy - b < y {
                    read3(payload@, 3 * payload_index(*p, cx, cy))
                } else {
                    base@[(cx, cy)]
                },
        decreases gh - y,
    {
        let mut x: u32 = 0;
        while x < gw
            invariant
                0 <= x <= gw,
                0 <= y < gh,
                b == p.border_cells,
                gw == p.grid_w,
                gh == p.grid_h,
                p.renderable(),
                bit_i == 3 * (y * gw + x),
                frame_shows(img, *p, cells),
                forall|cx: int, cy: int|
                    0 <= cx < p.full_w() && 0 <= cy < p.full_h() ==> #[trigger] cells[(cx, cy)]
                        == if in_payload(*p, cx, cy) && (cy - b < y || (cy - b == y && cx - b < x)) {
                        read3(payload@, 3 * payload_index(*p, cx, cy))
                    } else {
                        base@[(cx, cy)]
                    },
            decreases gw - x,
        {
            proof {
                lemma_row_major(y as int, x as int, gw as int, gh as int);
            }
            let sym = read_3bits(payload, bit_i);
            bit_i = bit_i + 3;
            paint(&mut img, p, x + b, y + b, sym, Ghost(cells));
            proof {
                cells = cells.insert((x + b, y + b), sym as int);
            }
            x = x + 1;
        }
        proof {
            lemma_next_row(y as int, gw as int);
        }
        y = y + 1;
    }
    proof {
        lemma_same_frame(img, *p, cells, payload_cells(payload@, *p));
    }
    img
}

proof fn lemma_in_block(x: int, bw: int, sym: int)
    by (nonlinear_arith)
    requires
        bw >= 1,
        sym >= 0,
        sym * bw <= x < sym * bw + bw,
    ensures
        x / bw == sym,
{
}

proof fn lemma_block_start(sym: int, bw: int, gw: int)
    by (nonlinear_arith)
    requires
        0 <= sym <= 8,
        bw >= 1,
        bw == 1 || 8 * bw <= gw,
        gw <= 0xffff_ffff,
    ensures
        0 <= sym * bw <= 8 * bw,
        8 * bw <= 0xffff_ffff,
        (sym + 1) * bw == sym * bw + bw,
        sym < 8 ==> sym * bw + bw <= 8 * bw,
{
}

/// Cells of the palette stripe painted so far: the blocks before `sym`, and
/// of block `sym` the rows before `y` and the cells before `x` in row `y`.
spec fn stripe_painted(bw: int, rows: int, sym: int, y: int, x: int, px: int, py: int) -> bool {
    &&& 0 <= py < rows
    &&& 0 <= px
    &&& (px < sym * bw || (sym * bw <= px < sym * bw + bw && (py < y || (py == y && px < x))))
}

/// A calibration frame: border, corner markers, and in the payload region
/// the palette stripe over a checker.
pub fn render_calibration_frame(p: &RasterParams) -> (img: FrameImage)
    requires
        p.renderable(),
    ensures
        frame_shows(img, *p, calibration_cells(*p)),
{
    let (mut img, base) = frame_surround(p);
    let ghost mut cells = base@;
    let b = p.border_cells;
    let gw = p.grid_w;
    let gh = p.grid_h;
    let mut y: u32 = 0;
    while y < gh
        invariant
            0 <= y <= gh,
            b == p.border_cells,
            gw == p.grid_w,
            gh == p.grid_h,
            p.renderable(),
            frame_shows(img, *p, cells),
            forall|cx: int, cy: int|
                0 <= cx < p.full_w() && 0 <= cy < p.full_h() ==> #[trigger] cells[(cx, cy)]
                    == if in_payload(*p, cx, cy) && cy - b < y {
                    0
                } else {
                    base@[(cx, cy)]
                },
        decreases gh - y,
    {
        let mut x: u32 = 0;
        while x < gw
            invariant
                0 <= x <= gw,
                0 <= y < gh,
                b == p.border_cells,
                gw == p.grid_w,
                gh == p.grid_h,
                p.renderable(),
                frame_shows(img, *p, cells),
                forall|cx: int, cy: int|
                    0 <= cx < p.full_w() && 0 <= cy < p.full_h() ==> #[trigger] cells[(cx, cy)]
                        == if in_payload(*p, cx, cy) && (cy - b < y || (cy - b == y && cx - b < x)) {
                        0
                    } else {
                        base@[(cx, cy)]
                    },
            decreases gw - x,
        {
            paint(&mut img, p, x + b, y + b, 0, Ghost(cells));
            proof {
                cells = cells.insert((x + b, y + b), 0);
            }
            x = x + 1;
        }
        y = y + 1;
    }
    let block_w: u32 = if gw / 8 >= 1 {
        gw / 8
    } else {
        1
    };
    let rows: u32 = if gh < 4 {
        gh
    } else {
        4
    };
    let ghost bw = block_w as int;
    let mut sym: u8 = 0;
    proof {
        lemma_block_start(0, bw, gw as int);
    }
    while sym < 8
        invariant
            0 <= sym <= 8,
            b == p.border_cells,
            gw == p.grid_w,
            gh == p.grid_h,
            bw == block_w,
            bw == stripe_block(*p),
            bw >= 1,
            bw == 1 || 8 * bw <= gw,
            rows <= gh,
            rows <= 4,
            gh >= 4 ==> rows == 4,
            p.renderable(),
            frame_shows(img, *p, cells),
            forall|cx: int, cy: int|
                0 <= cx < p.full_w() && 0 <= cy < p.full_h() ==> #[trigger] cells[(cx, cy)]
                    == if in_payload(*p, cx, cy) {
                    if stripe_painted(bw, rows as int, sym as int, 0, 0, cx - b, cy - b) {
                        (cx - b) / bw
                    } else {
                        0
                    }
                } else {
                    base@[(cx, cy)]
                },
        decreases 8 - sym,
    {
        proof {
            lemma_block_start(sym as int, bw, gw as int);
        }
        let x0: u32 = (sym as u32) * block_w;
        let x1: u32 = if x0 + block_w < gw {
            x0 + block_w
        } else {
            gw
        };
        let mut y: u32 = 0;
        while y < rows
            invariant
                0 <= y <= rows,
                0 <= sym < 8,
                b == p.border_cells,
                gw == p.grid_w,
                gh == p.grid_h,
                bw == block_w,
                bw >= 1,
                rows <= gh,
                x0 == sym * bw,
                x1 <= gw,
                x1 <= x0 + bw,
                x0 + bw < gw ==> x1 == x0 + bw,
                x0 + bw >= gw ==> x1 == gw,
                p.renderable(),
                frame_shows(img, *p, cells),
                forall|cx: int, cy: int|
                    0 <= cx < p.full_w() && 0 <= cy < p.full_h() ==> #[trigger] cells[(cx, cy)]
                        == if in_payload(*p, cx, cy) {
                        if stripe_painted(bw, rows as int, sym as int, y as int, 0, cx - b, cy - b) {
                            (cx - b) / bw
                        } else {
                            0
                        }
                    } else {
                        base@[(cx, cy)]
                    },
            decreases rows - y,
        {
            let mut x: u32 = x0;
            while x < x1
                invariant
                    x0 <= x,
                    x <= x1 || x1 <= x0,
                    0 <= y < rows,
                    0 <= sym < 8,
                    b == p.border_cells,
                    gw == p.grid_w,
                    gh == p.grid_h,
                    bw == block_w,
                    bw >= 1,
                    rows <= gh,
                    x0 == sym * bw,
                    x1 <= gw,
                    x1 <= x0 + bw,
                    x0 + bw < gw ==> x1 == x0 + bw,
                    x0 + bw >= gw ==> x1 == gw,
                    p.renderable(),
                    frame_shows(img, *p, cells),
                    forall|cx: int, cy: int|
                        0 <= cx < p.full_w() && 0 <= cy < p.full_h() ==> #[trigger] cells[(cx, cy)]
                            == if in_payload(*p, cx, cy) {
                            if stripe_painted(
                                bw,
                                rows as int,
                                sym as int,
                                y as int,
                                x as int,
                                cx - b,
                                cy - b,
                            ) {
                                (cx - b) / bw
                            } else {
                                0
                            }
                        } else {
                            base@[(cx, cy)]
                        },
                decreases x1 - x,
            {
                proof {
                    lemma_in_block(x as int, bw, sym as int);
                }
                paint(&mut img, p, x + b, y + b, sym, Ghost(cells));
                proof {
                    cells = cells.insert((x + b, y + b), sym as int);
                }
                x = x + 1;
            }
            y = y + 1;
        }
        sym = sym + 1;
    }
    let ghost striped = cells;
    let mut y: u32 = 4;
    while y < gh
        invariant
            4 <= y,
            y <= gh || gh < 4,
            b == p.border_cells,
            gw == p.grid_w,
            gh == p.grid_h,
            p.renderable(),
            frame_shows(img, *p, cells),
            forall|cx: int, cy: int|
                0 <= cx < p.full_w() && 0 <= cy < p.full_h() ==> #[trigger] cells[(cx, cy)]
                    == if in_payload(*p, cx, cy) && 4 <= cy - b < y {
                    1 - checker(cx - b, cy - b)
                } else {
                    striped[(cx, cy)]
                },
        decreases gh - y,
    {
        let mut x: u32 = 0;
        while x < gw
            invariant
                0 <= x <= gw,
                4 <= y < gh,
                b == p.border_cells,
                gw == p.grid_w,
                gh == p.grid_h,
                p.renderable(),
                frame_shows(img, *p, cells),
                forall|cx: int, cy: int|
                    0 <= cx < p.full_w() && 0 <= cy < p.full_h() ==> #[trigger] cells[(cx, cy)]
                        == if in_payload(*p, cx, cy) && (4 <= cy - b < y || (cy - b == y && cx - b
                        < x)) {
                        1 - checker(cx - b, cy - b)
                    } else {
                        striped[(cx, cy)]
                    },
            decreases gw - x,
        {
            proof {
                lemma_checker_bits(x, y);
            }
            let sym: u8 = if ((x ^ y) & 1) == 0 {
                1
            } else {
                0
            };
            paint(&mut img, p, x + b, y + b, sym, Ghost(cells));
            proof {
                cells = cells.insert((x + b, y + b), sym as int);
            }
            x = x + 1;
        }
        y = y + 1;
    }
    proof {
        assert forall|cx: int, cy: int| 0 <= cx < p.full_w() && 0 <= cy < p.full_h() implies #[trigger] cells[(
            cx,
            cy,
        )] == calibration_cells(*p)[(cx, cy)] by {
            assert(striped[(cx, cy)] == if in_payload(*p, cx, cy) {
                if stripe_painted(bw, rows as int, 8, 0, 0, cx - b, cy - b) {
                    (cx - b) / bw
                } else {
                    0
                }
            } else {
                base@[(cx, cy)]
            });
        }
        lemma_same_frame(img, *p, cells, calibration_cells(*p));
    }
    img
}

} // verus!
