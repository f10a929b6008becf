//! Reading frames: sampling the payload cells, telling sync frames from
//! others, and finding the corner markers of a captured frame.

use crate::bits::{
    bit_of, byte_bit, lemma_equal_by_bits, lemma_read3_bits, lemma_read3_range, lemma_write3_bit,
    lemma_zero_byte, read3, write3, write_3bits,
};
use crate::manifest::EncodeManifest;
use crate::palette::{
    color_dist2, lemma_nearest_of_color, nearest_symbol, palette_color, rgb_dist2, Palette8, Rgb8,
};
use crate::pixels::{image_dimensions, image_get, image_pixels, image_size, FrameImage};
use crate::raster::RasterParams;
use crate::render::{
    cell_pixel, frame_shows, in_payload, payload_cells, payload_index, payload_symbol,
    shows_symbol,
};
use vstd::prelude::*;

verus! {

/// Bytes that the payload cells of a grid hold: three bits for each cell,
/// whole bytes only.
pub open spec fn capacity_bytes(grid_w: int, grid_h: int) -> int {
    (3 * (grid_w * grid_h)) / 8
}

/// The image is large enough for every payload cell of the manifest's grid to
/// be sampled at its top left pixel, and the payload bits can be counted in
/// `usize`.
pub open spec fn sampling_fits(img: FrameImage, m: EncodeManifest, p: RasterParams) -> bool {
    &&& 3 * (m.grid_w * m.grid_h) <= usize::MAX
    &&& m.grid_w > 0 && m.grid_h > 0 ==> {
        &&& (m.grid_w - 1 + p.border_cells) * m.cell_px < image_size(img).0
        &&& (m.grid_h - 1 + p.border_cells) * m.cell_px < image_size(img).1
        &&& m.grid_w - 1 + p.border_cells <= u32::MAX
        &&& m.grid_h - 1 + p.border_cells <= u32::MAX
    }
}

/// Whether every payload cell of the manifest's grid can be sampled on the
/// image.
pub fn can_sample(img: &FrameImage, m: &EncodeManifest, p: &RasterParams) -> (ok: bool)
    ensures
        ok == sampling_fits(*img, *m, *p),
{
    assert(0 <= m.grid_w * m.grid_h <= 0xffff_ffff * 0xffff_ffff) by (nonlinear_arith)
        requires
            0 <= m.grid_w <= 0xffff_ffff,
            0 <= m.grid_h <= 0xffff_ffff,
    ;
    let cells: u128 = (m.grid_w as u128) * (m.grid_h as u128);
    if 3 * cells > usize::MAX as u128 {
        return false;
    }
    if m.grid_w == 0 || m.grid_h == 0 {
        return true;
    }
    let (w, h) = image_dimensions(img);
    let last_x: u64 = (m.grid_w - 1) as u64 + p.border_cells as u64;
    let last_y: u64 = (m.grid_h - 1) as u64 + p.border_cells as u64;
    if last_x > u32::MAX as u64 || last_y > u32::MAX as u64 {
        return false;
    }
    assert(0 <= last_x * m.cell_px <= 0xffff_ffff * 0xffff_ffff) by (nonlinear_arith)
        requires
            0 <= last_x <= 0xffff_ffff,
            0 <= m.cell_px <= 0xffff_ffff,
    ;
    assert(0 <= last_y * m.cell_px <= 0xffff_ffff * 0xffff_ffff) by (nonlinear_arith)
        requires
            0 <= last_y <= 0xffff_ffff,
            0 <= m.cell_px <= 0xffff_ffff,
    ;
    last_x * (m.cell_px as u64) < w as u64 && last_y * (m.cell_px as u64) < h as u64
}

/// The symbol read from the payload cell `(x, y)`: the one nearest to the
/// colour of the cell's top left pixel.
pub open spec fn cell_sample(img: FrameImage, m: EncodeManifest, p: RasterParams, x: int, y: int) -> int {
    let c = image_pixels(img)[((x + p.border_cells) * m.cell_px, (y + p.border_cells) * m.cell_px)];
    nearest_symbol(c.r as int, c.g as int, c.b as int)
}

/// The symbol read from payload cell number `n` in row-major order.
pub open spec fn sampled_symbol(img: FrameImage, m: EncodeManifest, p: RasterParams, n: int) -> int {
    cell_sample(img, m, p, n % (m.grid_w as int), n / (m.grid_w as int))
}

/// The payload buffer after the symbols of the first `n` payload cells have
/// been written into it, three bits each, starting from zeros.
pub open spec fn decoded_upto(img: FrameImage, m: EncodeManifest, p: RasterParams, n: int) -> Seq<
    u8,
>
    decreases n,
{
    if n <= 0 {
        Seq::new(capacity_bytes(m.grid_w as int, m.grid_h as int) as nat, |i: int| 0u8)
    } else {
        write3(decoded_upto(img, m, p, n - 1), 3 * (n - 1), sampled_symbol(img, m, p, n - 1) as u8)
    }
}

/// The payload buffer that a frame holds: the symbols of all payload cells,
/// row by row, three bits each.
pub open spec fn decoded_payload(img: FrameImage, m: EncodeManifest, p: RasterParams) -> Seq<u8> {
    decoded_upto(img, m, p, m.grid_w * m.grid_h)
}

proof fn lemma_sample_bounds(x: int, gmax: int, b: int, c: int, width: int)
    by (nonlinear_arith)
    requires
        0 <= x <= gmax,
        0 <= b,
        0 <= c,
        (gmax + b) * c < width,
    ensures
        0 <= (x + b) * c < width,
{
}

proof fn lemma_cell_number(y: int, x: int, gw: int, gh: int)
    by (nonlinear_arith)
    requires
        0 <= y < gh,
        0 <= x < gw,
    ensures
        0 <= y * gw + x < gw * gh,
        (y * gw + x) % gw == x,
        (y * gw + x) / gw == y,
        3 * (y * gw + x) + 3 <= 3 * (gw * gh),
        (y + 1) * gw == y * gw + gw,
{
}

proof fn lemma_decoded_len(img: FrameImage, m: EncodeManifest, p: RasterParams, n: int)
    ensures
        decoded_upto(img, m, p, n).len() == capacity_bytes(m.grid_w as int, m.grid_h as int),
    decreases n,
{
    if n > 0 {
        lemma_decoded_len(img, m, p, n - 1);
        lemma_write3_bit(
            decoded_upto(img, m, p, n - 1),
            3 * (n - 1),
            sampled_symbol(img, m, p, n - 1) as u8,
            0,
        );
    }
}

/// Symbols whose bits all lie past the end of the buffer change nothing.
proof fn lemma_decoded_tail(img: FrameImage, m: EncodeManifest, p: RasterParams, n: int, k: int)
    requires
        0 <= n <= k,
        3 * n >= 8 * capacity_bytes(m.grid_w as int, m.grid_h as int),
    ensures
        decoded_upto(img, m, p, k) == decoded_upto(img, m, p, n),
    decreases k - n,
{
    if n < k {
        lemma_decoded_tail(img, m, p, n, k - 1);
        lemma_decoded_len(img, m, p, k - 1);
        let prev = decoded_upto(img, m, p, k - 1);
        let sym = sampled_symbol(img, m, p, k - 1) as u8;
        assert forall|j: int| 0 <= j < 8 * prev.len() implies bit_of(
            write3(prev, 3 * (k - 1), sym),
            j,
        ) == bit_of(prev, j) by {
            lemma_write3_bit(prev, 3 * (k - 1), sym, j);
        }
        lemma_write3_bit(prev, 3 * (k - 1), sym, 0);
        lemma_equal_by_bits(write3(prev, 3 * (k - 1), sym), prev);
    }
}

/// Reads the payload buffer of a frame: every payload cell is sampled at its
/// top left pixel, classified by the nearest palette colour, and its three
/// bits are written into the buffer, row by row.
pub fn decode_payload_from_rgb(
    img: &FrameImage,
    m: &EncodeManifest,
    p: &RasterParams,
    palette: Palette8,
) -> (payload: Vec<u8>)
    requires
        sampling_fits(*img, *m, *p),
    ensures
        payload@ == decoded_payload(*img, *m, *p),
        payload@.len() == capacity_bytes(m.grid_w as int, m.grid_h as int),
{
    let gw = m.grid_w;
    let gh = m.grid_h;
    assert(0 <= gw * gh) by (nonlinear_arith)
        requires
            0 <= gw,
            0 <= gh,
    ;
    let payload_cells: usize = (gw as usize) * (gh as usize);
    let payload_bits: usize = payload_cells * 3;
    let payload_bytes: usize = payload_bits / 8;
    let mut payload: Vec<u8> = vec![0u8; payload_bytes];
    assert(payload@ =~= decoded_upto(*img, *m, *p, 0));
    // learns that the width and height of the image fit in `u32`
    let _size = image_dimensions(img);
    let mut bit_i: usize = 0;
    let mut y: u32 = 0;
    proof {
        lemma_decoded_len(*img, *m, *p, gw * gh);
        assert(0 * gw == 0);
    }
    while y < gh
        invariant
            0 <= y <= gh,
            gw == m.grid_w,
            gh == m.grid_h,
            sampling_fits(*img, *m, *p),
            image_size(*img).0 <= u32::MAX,
            image_size(*img).1 <= u32::MAX,
            payload_bytes == capacity_bytes(gw as int, gh as int),
            bit_i == 3 * (y * gw),
            payload@ == decoded_upto(*img, *m, *p, y * gw),
            payload@.len() == payload_bytes,
        decreases gh - y,
    {
        let mut x: u32 = 0;
        while x < gw
            invariant
                0 <= x <= gw,
                0 <= y < gh,
                gw == m.grid_w,
                gh == m.grid_h,
                sampling_fits(*img, *m, *p),
                image_size(*img).0 <= u32::MAX,
                image_size(*img).1 <= u32::MAX,
                payload_bytes == capacity_bytes(gw as int, gh as int),
                bit_i == 3 * (y * gw + x),
                payload@ == decoded_upto(*img, *m, *p, y * gw + x),
                payload@.len() == payload_bytes,
            decreases gw - x,
        {
            proof {
                lemma_cell_number(y as int, x as int, gw as int, gh as int);
                lemma_sample_bounds(
                    x as int,
                    gw - 1,
                    p.border_cells as int,
                    m.cell_px as int,
                    image_size(*img).0 as int,
                );
                lemma_sample_bounds(
                    y as int,
                    gh - 1,
                    p.border_cells as int,
                    m.cell_px as int,
                    image_size(*img).1 as int,
                );
            }
            let gx: u32 = x + p.border_cells;
            let gy: u32 = y + p.border_cells;
            let px: u32 = gx * m.cell_px;
            let py: u32 = gy * m.cell_px;
            let c = image_get(img, px, py);
            let sym = palette.symbol_from_rgb_nearest(c.r, c.g, c.b);
            write_3bits(payload.as_mut_slice(), bit_i, sym);
            bit_i = bit_i + 3;
            if bit_i / 8 >= payload.len() {
                proof {
                    lemma_decoded_tail(*img, *m, *p, y * gw + x + 1, gw * gh);
                }
                return payload;
            }
            x = x + 1;
        }
        proof {
            lemma_cell_number(y as int, 0, gw as int + 1, gh as int);
            assert((y + 1) * gw == y * gw + gw) by (nonlinear_arith);
        }
        y = y + 1;
    }
    proof {
        assert(y * gw == gw * gh) by (nonlinear_arith)
            requires
                y == gh,
        ;
    }
    payload
}

/// The manifest describes the grid of `p`.
pub open spec fn same_grid(m: EncodeManifest, p: RasterParams) -> bool {
    m.grid_w == p.grid_w && m.grid_h == p.grid_h && m.cell_px == p.cell_px
}

/// `payload` continued with zeros to the length `n`.
pub open spec fn zero_padded(payload: Seq<u8>, n: int) -> Seq<u8> {
    Seq::new(n as nat, |i: int| if i < payload.len() { payload[i] } else { 0u8 })
}

pub proof fn lemma_cell_place(n: int, gw: int, gh: int)
    by (nonlinear_arith)
    requires
        0 <= n < gw * gh,
        0 < gw,
    ensures
        0 <= n % gw < gw,
        0 <= n / gw < gh,
        (n / gw) * gw + n % gw == n,
{
}

proof fn lemma_frame_fits(gmax: int, b: int, c: int, g: int)
    by (nonlinear_arith)
    requires
        0 <= gmax < g,
        0 <= b,
        1 <= c,
    ensures
        (gmax + b) * c < (g + 2 * b) * c,
{
}

/// A rendered frame of `p` is large enough to be sampled on the grid of `p`.
pub proof fn lemma_frame_can_be_sampled(img: FrameImage, m: EncodeManifest, p: RasterParams)
    requires
        p.renderable(),
        same_grid(m, p),
        p.cell_px >= 1,
        image_size(img) == (p.width_px() as nat, p.height_px() as nat),
    ensures
        sampling_fits(img, m, p),
{
    assert(3 * (m.grid_w * m.grid_h) == 3 * p.grid_w * p.grid_h) by (nonlinear_arith)
        requires
            m.grid_w == p.grid_w,
            m.grid_h == p.grid_h,
    ;
    if m.grid_w > 0 && m.grid_h > 0 {
        lemma_frame_fits(m.grid_w - 1, p.border_cells as int, m.cell_px as int, m.grid_w as int);
        lemma_frame_fits(m.grid_h - 1, p.border_cells as int, m.cell_px as int, m.grid_h as int);
    }
}

/// Every payload cell of a payload frame is read as the symbol that was
/// painted there.
pub proof fn lemma_payload_sample(
    img: FrameImage,
    m: EncodeManifest,
    p: RasterParams,
    payload: Seq<u8>,
    n: int,
)
    requires
        frame_shows(img, p, payload_cells(payload, p)),
        same_grid(m, p),
        p.cell_px >= 1,
        0 <= n < p.grid_w * p.grid_h,
    ensures
        sampled_symbol(img, m, p, n) == read3(payload, 3 * n),
{
    let gw = p.grid_w as int;
    let b = p.border_cells as int;
    let c = p.cell_px as int;
    assert(gw > 0) by (nonlinear_arith)
        requires
            0 <= n < gw * p.grid_h,
            gw >= 0,
    ;
    lemma_cell_place(n, gw, p.grid_h as int);
    let x = n % gw;
    let y = n / gw;
    assert(in_payload(p, x + b, y + b));
    assert(shows_symbol(img, p, payload_cells(payload, p), x + b, y + b));
    assert(cell_pixel(img, c, x + b, y + b, 0, 0) == palette_color(
        payload_symbol(payload, p, x + b, y + b),
    ));
    assert(payload_index(p, x + b, y + b) == n);
    lemma_read3_range(payload, 3 * n);
    lemma_nearest_of_color(read3(payload, 3 * n));
}

/// The bits of the buffer after `n` cells: those of the symbols of the cells,
/// three for each, as far as the buffer reaches.
proof fn lemma_decoded_bit(img: FrameImage, m: EncodeManifest, p: RasterParams, n: int, j: int)
    requires
        0 <= n,
        0 <= j,
    ensures
        bit_of(decoded_upto(img, m, p, n), j) == if j < 3 * n && j < 8 * capacity_bytes(
            m.grid_w as int,
            m.grid_h as int,
        ) {
            byte_bit(sampled_symbol(img, m, p, j / 3) as u8, (j % 3) as u8) as int
        } else {
            0
        },
    decreases n,
{
    lemma_decoded_len(img, m, p, n);
    lemma_zero_byte((j % 8) as u8);
    if n > 0 {
        lemma_decoded_bit(img, m, p, n - 1, j);
        lemma_decoded_len(img, m, p, n - 1);
        lemma_write3_bit(
            decoded_upto(img, m, p, n - 1),
            3 * (n - 1),
            sampled_symbol(img, m, p, n - 1) as u8,
            j,
        );
    }
}

/// What is read from a payload frame is the payload that was rendered,
/// continued with zeros to the capacity of the grid.
pub proof fn lemma_payload_frame_round_trip(
    img: FrameImage,
    m: EncodeManifest,
    p: RasterParams,
    payload: Seq<u8>,
)
    requires
        frame_shows(img, p, payload_cells(payload, p)),
        same_grid(m, p),
        p.cell_px >= 1,
        payload.len() <= capacity_bytes(p.grid_w as int, p.grid_h as int),
    ensures
        decoded_payload(img, m, p) == zero_padded(
            payload,
            capacity_bytes(p.grid_w as int, p.grid_h as int),
        ),
{
    let cap = capacity_bytes(p.grid_w as int, p.grid_h as int);
    let cells = p.grid_w * p.grid_h;
    let got = decoded_payload(img, m, p);
    let want = zero_padded(payload, cap);
    assert(m.grid_w * m.grid_h == cells);
    lemma_decoded_len(img, m, p, cells);
    assert(cells >= 0) by (nonlinear_arith)
        requires
            cells == p.grid_w * p.grid_h,
    ;
    assert forall|j: int| 0 <= j < 8 * got.len() implies bit_of(got, j) == bit_of(want, j) by {
        lemma_decoded_bit(img, m, p, cells, j);
        assert(j / 3 < cells);
        lemma_payload_sample(img, m, p, payload, j / 3);
        lemma_read3_bits(payload, 3 * (j / 3), j % 3);
        lemma_zero_byte((j % 8) as u8);
        assert(bit_of(want, j) == bit_of(payload, j));
    }
    lemma_equal_by_bits(got, want);
}

/// How many different symbols the payload cells of a frame show.
#[derive(Debug, Clone, Copy)]
pub struct SymbolStats {
    pub unique_symbols: usize,
}

/// Some payload cell among those before `(x, y)` in row-major order is read
/// as the symbol `s`.
pub open spec fn seen_before(
    img: FrameImage,
    m: EncodeManifest,
    p: RasterParams,
    s: int,
    y: int,
    x: int,
) -> bool {
    exists|cx: int, cy: int|
        0 <= cx < m.grid_w && 0 <= cy < m.grid_h && (cy < y || (cy == y && cx < x))
            && #[trigger] cell_sample(img, m, p, cx, cy) == s
}

/// Some payload cell is read as the symbol `s`.
pub open spec fn symbol_seen(img: FrameImage, m: EncodeManifest, p: RasterParams, s: int) -> bool {
    seen_before(img, m, p, s, m.grid_h as int, 0)
}

/// Number of symbols below `k` that some payload cell is read as.
pub open spec fn seen_count(img: FrameImage, m: EncodeManifest, p: RasterParams, k: int) -> int
    decreases k,
{
    if k <= 0 {
        0
    } else {
        seen_count(img, m, p, k - 1) + if symbol_seen(img, m, p, k - 1) {
            1int
        } else {
            0int
        }
    }
}

/// Counts the different symbols that the payload cells of a frame are read
/// as.
pub fn frame_symbol_stats(
    img: &FrameImage,
    m: &EncodeManifest,
    p: &RasterParams,
    palette: Palette8,
) -> (stats: SymbolStats)
    requires
        sampling_fits(*img, *m, *p),
    ensures
        stats.unique_symbols == seen_count(*img, *m, *p, 8),
{
    let gw = m.grid_w;
    let gh = m.grid_h;
    // learns that the width and height of the image fit in `u32`
    let _size = image_dimensions(img);
    let mut seen: [bool; 8] = [false; 8];
    let mut y: u32 = 0;
    while y < gh
        invariant
            0 <= y <= gh,
            gw == m.grid_w,
            gh == m.grid_h,
            sampling_fits(*img, *m, *p),
            image_size(*img).0 <= u32::MAX,
            image_size(*img).1 <= u32::MAX,
            forall|s: int| 0 <= s < 8 ==> (#[trigger] seen@[s] <==> seen_before(*img, *m, *p, s, y as int, 0)),
        decreases gh - y,
    {
        let mut x: u32 = 0;
        while x < gw
            invariant
                0 <= x <= gw,
                0 <= y < gh,
                gw == m.grid_w,
                gh == m.grid_h,
                sampling_fits(*img, *m, *p),
                image_size(*img).0 <= u32::MAX,
                image_size(*img).1 <= u32::MAX,
                forall|s: int|
                    0 <= s < 8 ==> (#[trigger] seen@[s] <==> seen_before(
                        *img,
                        *m,
                        *p,
                        s,
                        y as int,
                        x as int,
                    )),
            decreases gw - x,
        {
            proof {
                lemma_sample_bounds(
                    x as int,
                    gw - 1,
                    p.border_cells as int,
                    m.cell_px as int,
                    image_size(*img).0 as int,
                );
                lemma_sample_bounds(
                    y as int,
                    gh - 1,
                    p.border_cells as int,
                    m.cell_px as int,
                    image_size(*img).1 as int,
                );
            }
            let gx: u32 = x + p.border_cells;
            let gy: u32 = y + p.border_cells;
            let px: u32 = gx * m.cell_px;
            let py: u32 = gy * m.cell_px;
            let c = image_get(img, px, py);
            let sym = palette.symbol_from_rgb_nearest(c.r, c.g, c.b) as usize;
            let ghost before = seen@;
            if sym < 8 {
                seen[sym] = true;
            }
            proof {
                assert(cell_sample(*img, *m, *p, x as int, y as int) == sym);
                assert forall|s: int| 0 <= s < 8 implies (#[trigger] seen@[s] <==> seen_before(
                    *img,
                    *m,
                    *p,
                    s,
                    y as int,
                    x + 1,
                )) by {
                    assert(before[s] <==> seen_before(*img, *m, *p, s, y as int, x as int));
                    if seen_before(*img, *m, *p, s, y as int, x + 1) {
                        let (cx, cy) = choose|cx: int, cy: int|
                            0 <= cx < m.grid_w && 0 <= cy < m.grid_h && (cy < y || (cy == y && cx
                                < x + 1)) && #[trigger] cell_sample(*img, *m, *p, cx, cy) == s;
                        if !(cx == x && cy == y) {
                            assert(cell_sample(*img, *m, *p, cx, cy) == s);
                            assert(seen_before(*img, *m, *p, s, y as int, x as int));
                        }
                    }
                    if seen_before(*img, *m, *p, s, y as int, x as int) {
                        let (cx, cy) = choose|cx: int, cy: int|
                            0 <= cx < m.grid_w && 0 <= cy < m.grid_h && (cy < y || (cy == y && cx
                                < x)) && #[trigger] cell_sample(*img, *m, *p, cx, cy) == s;
                        assert(cell_sample(*img, *m, *p, cx, cy) == s);
                    }
                }
            }
            x = x + 1;
        }
        proof {
            assert forall|s: int| 0 <= s < 8 implies (#[trigger] seen@[s] <==> seen_before(
                *img,
                *m,
                *p,
                s,
                y + 1,
                0,
            )) by {
                if seen_before(*img, *m, *p, s, y + 1, 0) {
                    let (cx, cy) = choose|cx: int, cy: int|
                        0 <= cx < m.grid_w && 0 <= cy < m.grid_h && (cy < y + 1 || (cy == y + 1
                            && cx < 0)) && #[trigger] cell_sample(*img, *m, *p, cx, cy) == s;
                    assert(cell_sample(*img, *m, *p, cx, cy) == s);
                    assert(seen_before(*img, *m, *p, s, y as int, gw as int));
                }
                if seen_before(*img, *m, *p, s, y as int, gw as int) {
                    let (cx, cy) = choose|cx: int, cy: int|
                        0 <= cx < m.grid_w && 0 <= cy < m.grid_h && (cy < y || (cy == y && cx < gw))
                            && #[trigger] cell_sample(*img, *m, *p, cx, cy) == s;
                    assert(cell_sample(*img, *m, *p, cx, cy) == s);
                }
            }
        }
        y = y + 1;
    }
    let mut count: usize = 0;
    let mut k: usize = 0;
    while k < 8
        invariant
            0 <= k <= 8,
            count <= k,
            count == seen_count(*img, *m, *p, k as int),
            forall|s: int| 0 <= s < 8 ==> (#[trigger] seen@[s] <==> symbol_seen(*img, *m, *p, s)),
        decreases 8 - k,
    {
        if seen[k] {
            count = count + 1;
        }
        k = k + 1;
    }
    SymbolStats { unique_symbols: count }
}

/// What was counted on frame number `i` of a sequence; `None` where the
/// sequence has no such frame.
pub open spec fn stats_at(stats: Seq<Option<SymbolStats>>, i: int) -> Option<SymbolStats> {
    if 0 <= i < stats.len() {
        stats[i]
    } else {
        None
    }
}

/// A frame that is there and shows more than one symbol: no sync frame.
pub open spec fn is_busy(stats: Option<SymbolStats>) -> bool {
    stats is Some && stats->Some_0.unique_symbols > 1
}

/// Number of leading frames that are looked at to find the first data frame.
pub open spec fn scan_limit(m: EncodeManifest) -> int {
    if m.frames < 300 {
        m.frames as int
    } else {
        300
    }
}

/// The second frame from `i` on, before the scan limit, that is no sync
/// frame; the first if `saw` says that one was met before `i`.
pub open spec fn second_busy(stats: Seq<Option<SymbolStats>>, m: EncodeManifest, i: int, saw: bool) -> Option<
    int,
>
    decreases scan_limit(m) - i,
{
    if i < 0 || i >= scan_limit(m) {
        None
    } else if !is_busy(stats_at(stats, i)) {
        second_busy(stats, m, i + 1, saw)
    } else if !saw {
        second_busy(stats, m, i + 1, true)
    } else {
        Some(i)
    }
}

/// Where the data frames start: the first frame that is no sync frame is
/// taken for the calibration frame, and the next such frame is the first data
/// frame. Where the leading frames do not show two such frames, the data
/// frames start after the sync and calibration frames that `p` counts.
pub open spec fn data_start(stats: Seq<Option<SymbolStats>>, m: EncodeManifest, p: RasterParams) -> int {
    match second_busy(stats, m, 0, false) {
        Some(i) => i,
        None => p.sync_frames + p.calibration_frames,
    }
}

/// Finds the index of the first data frame from what was counted on the
/// leading frames, `None` standing for a frame that could not be read. Such
/// a frame is passed over, and so is one past the end of `stats`.
pub fn detect_data_start(stats: &Vec<Option<SymbolStats>>, m: &EncodeManifest, p: &RasterParams) -> (start:
    u32)
    requires
        p.sync_frames + p.calibration_frames <= u32::MAX,
    ensures
        start == data_start(stats@, *m, *p),
{
    let limit: u32 = if m.frames < 300 {
        m.frames
    } else {
        300
    };
    let mut saw_cal = false;
    let mut i: u32 = 0;
    while i < limit
        invariant
            0 <= i <= limit,
            limit == scan_limit(*m),
            second_busy(stats@, *m, 0, false) == second_busy(stats@, *m, i as int, saw_cal),
        decreases limit - i,
    {
        let mut busy = false;
        if (i as usize) < stats.len() {
            match &stats[i as usize] {
                Some(s) => {
                    busy = s.unique_symbols > 1;
                },
                None => {},
            }
        }
        if busy {
            if !saw_cal {
                saw_cal = true;
            } else {
                return i;
            }
        }
        i = i + 1;
    }
    p.sync_frames + p.calibration_frames
}

/// A pixel position.
#[derive(Clone, Copy, Debug, PartialEq, Eq, Structural)]
pub struct CxCy {
    pub x: u32,
    pub y: u32,
}

/// The colour `c` is close enough to the expected colour `e` to count as a
/// pixel of a marker: squared distance below 60000.
pub open spec fn color_matches(c: Rgb8, e: Rgb8) -> bool {
    color_dist2(c.r as int, c.g as int, c.b as int, e.r as int, e.g as int, e.b as int) < 60000
}

/// The pixel `(x, y)` counts as a pixel of the marker of colour `e`.
pub open spec fn pixel_matches(img: FrameImage, e: Rgb8, x: int, y: int) -> bool {
    color_matches(image_pixels(img)[(x, y)], e)
}

/// Number of matching pixels among the `n` pixels of row `y` from `x0` on.
pub open spec fn row_count(img: FrameImage, e: Rgb8, x0: int, n: int, y: int) -> int
    decreases n,
{
    if n <= 0 {
        0
    } else {
        row_count(img, e, x0, n - 1, y) + if pixel_matches(img, e, x0 + n - 1, y) {
            1int
        } else {
            0int
        }
    }
}

/// Sum of the `x` of the matching pixels among the `n` pixels of row `y`
/// from `x0` on.
pub open spec fn row_sum_x(img: FrameImage, e: Rgb8, x0: int, n: int, y: int) -> int
    decreases n,
{
    if n <= 0 {
        0
    } else {
        row_sum_x(img, e, x0, n - 1, y) + if pixel_matches(img, e, x0 + n - 1, y) {
            x0 + n - 1
        } else {
            0int
        }
    }
}

/// Number of matching pixels in the first `rows` rows of a window.
pub open spec fn window_count(img: FrameImage, e: Rgb8, x0: int, w: int, y0: int, rows: int) -> int
    decreases rows,
{
    if rows <= 0 {
        0
    } else {
        window_count(img, e, x0, w, y0, rows - 1) + row_count(img, e, x0, w, y0 + rows - 1)
    }
}

/// Sum of the `x` of the matching pixels in the first `rows` rows of a
/// window.
pub open spec fn window_sum_x(img: FrameImage, e: Rgb8, x0: int, w: int, y0: int, rows: int) -> int
    decreases rows,
{
    if rows <= 0 {
        0
    } else {
        window_sum_x(img, e, x0, w, y0, rows - 1) + row_sum_x(img, e, x0, w, y0 + rows - 1)
    }
}

/// Sum of the `y` of the matching pixels in the first `rows` rows of a
/// window.
pub open spec fn window_sum_y(img: FrameImage, e: Rgb8, x0: int, w: int, y0: int, rows: int) -> int
    decreases rows,
{
    if rows <= 0 {
        0
    } else {
        window_sum_y(img, e, x0, w, y0, rows - 1) + (y0 + rows - 1) * row_count(
            img,
            e,
            x0,
            w,
            y0 + rows - 1,
        )
    }
}

/// The centroid of the pixels of a window that match the colour of
/// `symbol`: the means of their `x` and of their `y`, rounded down. `None`
/// where fewer than 50 pixels match, or `symbol` is no symbol.
pub open spec fn color_centroid(
    img: FrameImage,
    x0: int,
    y0: int,
    w: int,
    h: int,
    symbol: int,
) -> Option<CxCy> {
    let e = palette_color(symbol);
    let n = window_count(img, e, x0, w, y0, h);
    if symbol < 0 || symbol >= 8 || n < 50 {
        None
    } else {
        Some(
            CxCy {
                x: (window_sum_x(img, e, x0, w, y0, h) / n) as u32,
                y: (window_sum_y(img, e, x0, w, y0, h) / n) as u32,
            },
        )
    }
}

proof fn lemma_mean_bound(sum: int, n: int, max: int)
    by (nonlinear_arith)
    requires
        n > 0,
        0 <= sum <= n * max,
    ensures
        0 <= sum / n <= max,
{
}

proof fn lemma_tally_step(n: int, max: int, v: int)
    by (nonlinear_arith)
    requires
        0 <= v <= max,
        0 <= n,
    ensures
        (n + 1) * max == n * max + max,
        n * max >= 0,
{
}

proof fn lemma_row_weight(y: int, c: int)
    by (nonlinear_arith)
    ensures
        y * (c + 1) == y * c + y,
        y * 0 == 0,
{
}

/// Finds the centroid of the pixels in the window of `w` by `h` pixels at
/// `(x0, y0)` whose colour is near that of `expected_symbol`.
pub fn find_color_centroid(
    img: &FrameImage,
    x0: u32,
    y0: u32,
    w: u32,
    h: u32,
    expected_symbol: u8,
    palette: Palette8,
) -> (r: Option<CxCy>)
    requires
        x0 + w <= image_size(*img).0,
        y0 + h <= image_size(*img).1,
    ensures
        r == color_centroid(*img, x0 as int, y0 as int, w as int, h as int, expected_symbol as int),
{
    let e = match palette.color(expected_symbol) {
        Ok(c) => c,
        Err(_) => {
            return None;
        },
    };
    // learns that the width and height of the image fit in `u32`
    let _size = image_dimensions(img);
    let max: u128 = 0xffff_ffff;
    let mut sum_x: u128 = 0;
    let mut sum_y: u128 = 0;
    let mut n: u128 = 0;
    let mut y: u32 = y0;
    while y < y0 + h
        invariant
            y0 <= y <= y0 + h,
            x0 + w <= image_size(*img).0,
            y0 + h <= image_size(*img).1,
            image_size(*img).0 <= u32::MAX,
            image_size(*img).1 <= u32::MAX,
            max == 0xffff_ffff,
            n == window_count(*img, e, x0 as int, w as int, y0 as int, y - y0),
            sum_x == window_sum_x(*img, e, x0 as int, w as int, y0 as int, y - y0),
            sum_y == window_sum_y(*img, e, x0 as int, w as int, y0 as int, y - y0),
            n <= 0x1_0000_0000 * (y - y0),
            sum_x <= n * max,
            sum_y <= n * max,
        decreases y0 + h - y,
    {
        let ghost n0 = n;
        let ghost sx0 = sum_x;
        let ghost sy0 = sum_y;
        let mut x: u32 = x0;
        proof {
            lemma_row_weight(y as int, 0);
        }
        while x < x0 + w
            invariant
                x0 <= x <= x0 + w,
                y0 <= y < y0 + h,
                x0 + w <= image_size(*img).0,
                y0 + h <= image_size(*img).1,
                image_size(*img).0 <= u32::MAX,
                image_size(*img).1 <= u32::MAX,
                max == 0xffff_ffff,
                n == n0 + row_count(*img, e, x0 as int, x - x0, y as int),
                sum_x == sx0 + row_sum_x(*img, e, x0 as int, x - x0, y as int),
                sum_y == sy0 + y * row_count(*img, e, x0 as int, x - x0, y as int),
                n0 <= 0x1_0000_0000 * (y - y0),
                n <= n0 + (x - x0),
                sum_x <= n * max,
                sum_y <= n * max,
            decreases x0 + w - x,
        {
            let c = image_get(img, x, y);
            let d = rgb_dist2(c.r, c.g, c.b, e.r, e.g, e.b);
            proof {
                lemma_tally_step(n as int, max as int, x as int);
                lemma_row_weight(y as int, row_count(*img, e, x0 as int, x - x0, y as int));
                assert(n * max <= 0x1_0000_0000_0000_0000 * 0xffff_ffff) by (nonlinear_arith)
                    requires
                        0 <= n <= 0x1_0000_0000_0000_0000,
                        max == 0xffff_ffff,
                ;
            }
            if d < 60_000 {
                sum_x = sum_x + x as u128;
                sum_y = sum_y + y as u128;
                n = n + 1;
            }
            x = x + 1;
        }
        y = y + 1;
    }
    if n < 50 {
        return None;
    }
    proof {
        lemma_mean_bound(sum_x as int, n as int, max as int);
        lemma_mean_bound(sum_y as int, n as int, max as int);
    }
    Some(CxCy { x: (sum_x / n) as u32, y: (sum_y / n) as u32 })
}

/// Where the four corner markers of a captured frame were found, and the
/// size of the frame that the capture is to be rectified to.
#[derive(Clone, Copy, Debug)]
pub struct FiducialFix {
    pub top_left: CxCy,
    pub top_right: CxCy,
    pub bottom_right: CxCy,
    pub bottom_left: CxCy,
    pub dst_w: u32,
    pub dst_h: u32,
}

/// Side of the square windows, one in each corner of the image, in which
/// the corner markers are looked for: three times the extent of a marker in
/// pixels, at most half of the shorter side of the image, at least 32.
pub open spec fn fiducial_window(img: FrameImage, p: RasterParams) -> int {
    let want = p.fiducial_size_cells * p.cell_px * 3;
    let shorter = if image_size(img).0 < image_size(img).1 {
        image_size(img).0 as int
    } else {
        image_size(img).1 as int
    };
    let capped = if want < shorter / 2 {
        want
    } else {
        shorter / 2
    };
    if capped < 32 {
        32
    } else {
        capped
    }
}

/// The image can be searched for corner markers, and the frame it is to be
/// rectified to has a width and a height that fit in `u32` and are not 0.
pub open spec fn can_locate(img: FrameImage, m: EncodeManifest, p: RasterParams) -> bool {
    &&& image_size(img).0 >= 32
    &&& image_size(img).1 >= 32
    &&& 1 <= (m.grid_w + 2 * p.border_cells) * m.cell_px <= u32::MAX
    &&& 1 <= (m.grid_h + 2 * p.border_cells) * m.cell_px <= u32::MAX
}

/// The corner markers of a captured frame: the centroid of red in the top
/// left window, of green in the top right, of blue in the bottom left, of
/// yellow in the bottom right. `None` where one of them is not found.
pub open spec fn located_fiducials(img: FrameImage, m: EncodeManifest, p: RasterParams) -> Option<
    FiducialFix,
> {
    let w = image_size(img).0 as int;
    let h = image_size(img).1 as int;
    let win = fiducial_window(img, p);
    let tl = color_centroid(img, 0, 0, win, win, 2);
    let tr = color_centroid(img, w - win, 0, win, win, 3);
    let bl = color_centroid(img, 0, h - win, win, win, 4);
    let br = color_centroid(img, w - win, h - win, win, win, 7);
    if tl is Some && tr is Some && bl is Some && br is Some {
        Some(
            FiducialFix {
                top_left: tl->Some_0,
                top_right: tr->Some_0,
                bottom_right: br->Some_0,
                bottom_left: bl->Some_0,
                dst_w: ((m.grid_w + 2 * p.border_cells) * m.cell_px) as u32,
                dst_h: ((m.grid_h + 2 * p.border_cells) * m.cell_px) as u32,
            },
        )
    } else {
        None
    }
}

/// Whether `locate_fiducials` can be called on the image.
pub fn can_locate_fiducials(img: &FrameImage, m: &EncodeManifest, p: &RasterParams) -> (ok: bool)
    ensures
        ok == can_locate(*img, *m, *p),
{
    let (w, h) = image_dimensions(img);
    if w < 32 || h < 32 {
        return false;
    }
    let full_w: u64 = m.grid_w as u64 + 2 * (p.border_cells as u64);
    let full_h: u64 = m.grid_h as u64 + 2 * (p.border_cells as u64);
    assert(0 <= full_w * m.cell_px <= 0x3_0000_0000 * 0xffff_ffff) by (nonlinear_arith)
        requires
            0 <= full_w <= 0x3_0000_0000,
            0 <= m.cell_px <= 0xffff_ffff,
    ;
    assert(0 <= full_h * m.cell_px <= 0x3_0000_0000 * 0xffff_ffff) by (nonlinear_arith)
        requires
            0 <= full_h <= 0x3_0000_0000,
            0 <= m.cell_px <= 0xffff_ffff,
    ;
    let dst_w: u128 = (full_w as u128) * (m.cell_px as u128);
    let dst_h: u128 = (full_h as u128) * (m.cell_px as u128);
    1 <= dst_w && dst_w <= u32::MAX as u128 && 1 <= dst_h && dst_h <= u32::MAX as u128
}

/// Looks for the four corner markers of a captured frame, each in a window
/// in its corner of the image, and says to what size the frame is to be
/// rectified.
pub fn locate_fiducials(
    img: &FrameImage,
    m: &EncodeManifest,
    p: &RasterParams,
    palette: Palette8,
) -> (r: Option<FiducialFix>)
    requires
        can_locate(*img, *m, *p),
    ensures
        r == located_fiducials(*img, *m, *p),
{
    let (w, h) = image_dimensions(img);
    assert(0 <= p.fiducial_size_cells * p.cell_px <= 0xffff_ffff * 0xffff_ffff) by (nonlinear_arith)
        requires
            0 <= p.fiducial_size_cells <= 0xffff_ffff,
            0 <= p.cell_px <= 0xffff_ffff,
    ;
    let want: u128 = (p.fiducial_size_cells as u128) * (p.cell_px as u128) * 3;
    let shorter: u32 = if w < h {
        w
    } else {
        h
    };
    let half: u32 = shorter / 2;
    let capped: u32 = if want < half as u128 {
        want as u32
    } else {
        half
    };
    let win: u32 = if capped < 32 {
        32
    } else {
        capped
    };
    let tl = match find_color_centroid(img, 0, 0, win, win, 2, palette) {
        Some(c) => c,
        None => {
            return None;
        },
    };
    let tr = match find_color_centroid(img, w - win, 0, win, win, 3, palette) {
        Some(c) => c,
        None => {
            return None;
        },
    };
    let bl = match find_color_centroid(img, 0, h - win, win, win, 4, palette) {
        Some(c) => c,
        None => {
            return None;
        },
    };
    let br = match find_color_centroid(img, w - win, h - win, win, win, 7, palette) {
        Some(c) => c,
        None => {
            return None;
        },
    };
    assert(0 <= (m.grid_w + 2 * p.border_cells) <= 0x3_0000_0000);
    let full_w: u64 = m.grid_w as u64 + 2 * (p.border_cells as u64);
    let full_h: u64 = m.grid_h as u64 + 2 * (p.border_cells as u64);
    let dst_w: u64 = full_w * (m.cell_px as u64);
    let dst_h: u64 = full_h * (m.cell_px as u64);
    Some(
        FiducialFix {
            top_left: tl,
            top_right: tr,
            bottom_right: br,
            bottom_left: bl,
            dst_w: dst_w as u32,
            dst_h: dst_h as u32,
        },
    )
}

} // verus!
