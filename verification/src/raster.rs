//! The raster codec: bytes to frames of coloured cells and back.

use crate::digest::{crc32, hex_string, same_bytes, sha256, sha256_digest, sha256_hex};
use crate::fec::{
    clip, codec_check, codec_refusal, concat_shards, lemma_intact_all, packet_intact, copy_shard, data_shard, decode_refusal,
    enough_of_encoding, fec_decode_collect, fec_decoded, fec_encode_stream, fec_encoded,
    group_count, lemma_encoded_lengths, lemma_group_count, lemma_mul_step, packet_views,
    rs_error_message, rs_error_text, total_shards, FecError, FecParams, PacketView, ShardPacket,
};
use crate::header::{le_value, sealed_bytes, ShardHeader};
use crate::manifest::{manifest_valid, EncodeManifest};
use crate::palette::Palette8;
use crate::pixels::FrameImage;
use crate::render::{
    calibration_cells, frame_shows, payload_cells, render_calibration_frame,
    render_payload_frame, render_solid_frame, solid_cells,
};
use crate::scan::{
    capacity_bytes, data_start, decode_payload_from_rgb, decoded_payload, detect_data_start,
    frame_symbol_stats, sampling_fits, scan_limit, second_busy, seen_count, stats_at,
    zero_padded, SymbolStats,
};
use crate::text::{decimal_digits, push_decimal};
use vstd::prelude::*;

verus! {

/// How bytes are laid out on frames.
#[derive(Debug, Clone, Copy)]
pub struct RasterParams {
    /// Payload cells per row.
    pub grid_w: u32,
    /// Payload rows.
    pub grid_h: u32,
    /// Pixels per cell side.
    pub cell_px: u32,
    /// Payload bytes per frame; used only without an erasure code.
    pub chunk_bytes: u32,
    pub palette: Palette8,
    /// Number of leading solid frames.
    pub sync_frames: u32,
    /// Symbol that sync frames are painted with.
    pub sync_color_symbol: u8,
    /// Number of calibration frames after the sync frames.
    pub calibration_frames: u32,
    /// Border thickness in cells.
    pub border_cells: u32,
    /// Extent of the corner markers in cells.
    pub fiducial_size_cells: u32,
    /// The erasure code, if any.
    pub fec: Option<FecParams>,
    /// Whether a decoder rectifies frames by their corner markers first.
    pub deskew: bool,
}

/// The parameters used where none are given.
pub open spec fn default_params() -> RasterParams {
    RasterParams {
        grid_w: 256,
        grid_h: 256,
        cell_px: 2,
        chunk_bytes: 24576,
        palette: Palette8::Basic,
        sync_frames: 30,
        sync_color_symbol: 1,
        calibration_frames: 1,
        border_cells: 2,
        fiducial_size_cells: 12,
        fec: Some(FecParams { data_shards: 20, parity_shards: 10, shard_bytes: 1024 }),
        deskew: true,
    }
}

impl Default for RasterParams {
    fn default() -> (p: RasterParams)
        ensures
            p == default_params(),
    {
        RasterParams {
            grid_w: 256,
            grid_h: 256,
            cell_px: 2,
            chunk_bytes: 24 * 1024,
            palette: Palette8::Basic,
            sync_frames: 30,
            sync_color_symbol: 1,
            calibration_frames: 1,
            border_cells: 2,
            fiducial_size_cells: 12,
            fec: Some(FecParams::default()),
            deskew: true,
        }
    }
}

impl RasterParams {
    /// Cells per row of a frame, border included.
    pub open spec fn full_w(&self) -> int {
        self.grid_w + 2 * self.border_cells
    }

    /// Rows of cells of a frame, border included.
    pub open spec fn full_h(&self) -> int {
        self.grid_h + 2 * self.border_cells
    }

    /// Width of a frame in pixels.
    pub open spec fn width_px(&self) -> int {
        self.full_w() * self.cell_px
    }

    /// Height of a frame in pixels.
    pub open spec fn height_px(&self) -> int {
        self.full_h() * self.cell_px
    }

    /// Frames of these parameters can be rendered: their width and height
    /// fit in `u32`, a vector can hold their samples, their payload bits can
    /// be counted in `usize`, and the corner markers lie inside the frame.
    pub open spec fn renderable(&self) -> bool {
        &&& self.full_w() <= u32::MAX
        &&& self.full_h() <= u32::MAX
        &&& self.width_px() <= u32::MAX
        &&& self.height_px() <= u32::MAX
        &&& 3 * self.width_px() <= isize::MAX
        &&& 3 * self.width_px() * self.height_px() <= isize::MAX
        &&& 3 * self.grid_w * self.grid_h <= usize::MAX
        &&& self.fiducial_size_cells <= self.grid_w
        &&& self.fiducial_size_cells <= self.grid_h
        &&& (self.fiducial_size_cells == 0 || self.fiducial_size_cells + self.border_cells >= 2)
    }

    /// Whether frames of these parameters can be rendered.
    pub fn is_renderable(&self) -> (ok: bool)
        ensures
            ok == self.renderable(),
    {
        let full_w: u64 = self.grid_w as u64 + 2 * (self.border_cells as u64);
        let full_h: u64 = self.grid_h as u64 + 2 * (self.border_cells as u64);
        if full_w > u32::MAX as u64 || full_h > u32::MAX as u64 {
            return false;
        }
        assert(0 <= full_w * self.cell_px <= 0xffff_ffff * 0xffff_ffff) by (nonlinear_arith)
            requires
                0 <= full_w <= 0xffff_ffff,
                0 <= self.cell_px <= 0xffff_ffff,
        ;
        assert(0 <= full_h * self.cell_px <= 0xffff_ffff * 0xffff_ffff) by (nonlinear_arith)
            requires
                0 <= full_h <= 0xffff_ffff,
                0 <= self.cell_px <= 0xffff_ffff,
        ;
        let width: u64 = full_w * (self.cell_px as u64);
        let height: u64 = full_h * (self.cell_px as u64);
        if width > u32::MAX as u64 || height > u32::MAX as u64 {
            return false;
        }
        assert(0 <= width * height <= 0xffff_ffff * 0xffff_ffff) by (nonlinear_arith)
            requires
                0 <= width <= 0xffff_ffff,
                0 <= height <= 0xffff_ffff,
        ;
        assert(0 <= self.grid_w * self.grid_h <= 0xffff_ffff * 0xffff_ffff) by (nonlinear_arith)
            requires
                0 <= self.grid_w <= 0xffff_ffff,
                0 <= self.grid_h <= 0xffff_ffff,
        ;
        let area: u128 = (width as u128) * (height as u128);
        let cells: u128 = (self.grid_w as u128) * (self.grid_h as u128);
        assert(3 * self.width_px() * self.height_px() == 3 * area) by (nonlinear_arith)
            requires
                area == self.width_px() * self.height_px(),
        ;
        assert(3 * self.grid_w * self.grid_h == 3 * cells) by (nonlinear_arith)
            requires
                cells == self.grid_w * self.grid_h,
        ;
        if 3 * (width as u128) > isize::MAX as u128 || 3 * area > isize::MAX as u128 || 3 * cells
            > usize::MAX as u128 {
            return false;
        }
        let s = self.fiducial_size_cells;
        s <= self.grid_w && s <= self.grid_h && (s == 0 || s as u64 + self.border_cells as u64 >= 2)
    }
}

/// Cells per row of a frame, border included.
pub fn full_grid_w(p: &RasterParams) -> (w: u32)
    requires
        p.full_w() <= u32::MAX,
    ensures
        w == p.full_w(),
{
    p.grid_w + 2 * p.border_cells
}

/// Rows of cells of a frame, border included.
pub fn full_grid_h(p: &RasterParams) -> (h: u32)
    requires
        p.full_h() <= u32::MAX,
    ensures
        h == p.full_h(),
{
    p.grid_h + 2 * p.border_cells
}

/// Why an encode or a decode failed.
#[derive(Debug)]
pub enum RasterError {
    /// The manifest does not carry the magic and version of this codec.
    ManifestInvalid,
    /// The bytes recovered are not the bytes that the manifest describes:
    /// they have another SHA-256 or another length.
    ShaMismatch,
    /// The parameters cannot be used, or the erasure code could not recover
    /// a group; the text says which.
    Fec(String),
}

impl RasterParams {
    /// Bytes that the payload cells of one frame hold.
    pub open spec fn capacity(&self) -> int {
        capacity_bytes(self.grid_w as int, self.grid_h as int)
    }

    /// Length of the payload buffer of a frame: the capacity less the 52
    /// bytes of a header, or 0 where the capacity is not more than that.
    pub open spec fn frame_payload_bytes(&self) -> int {
        if self.capacity() > 52 {
            self.capacity() - 52
        } else {
            0
        }
    }

    /// Input bytes that one frame carries when no erasure code is used.
    pub open spec fn chunk_len(&self) -> int {
        if self.frame_payload_bytes() < self.chunk_bytes {
            self.frame_payload_bytes()
        } else {
            self.chunk_bytes as int
        }
    }

    /// Number of data frames that an input of `len` bytes is encoded into.
    pub open spec fn data_frames(&self, len: int) -> int {
        match self.fec {
            Some(f) => group_count(len, f) * total_shards(f),
            None => (len + self.chunk_len() - 1) / self.chunk_len(),
        }
    }

}

impl RasterParams {
    /// Bytes that the payload cells of one frame hold.
    pub fn grid_capacity(&self) -> (cap: u64)
        ensures
            cap == self.capacity(),
    {
        assert(0 <= self.grid_w * self.grid_h <= 0xffff_ffff * 0xffff_ffff) by (nonlinear_arith)
            requires
                0 <= self.grid_w <= 0xffff_ffff,
                0 <= self.grid_h <= 0xffff_ffff,
        ;
        let cells: u128 = (self.grid_w as u128) * (self.grid_h as u128);
        ((3 * cells) / 8) as u64
    }
}

/// Bytes that the payload cells of one frame hold.
pub fn frame_capacity(p: &RasterParams) -> (cap: usize)
    requires
        3 * p.grid_w * p.grid_h <= usize::MAX,
    ensures
        cap == p.capacity(),
{
    assert(0 <= p.grid_w * p.grid_h && 3 * p.grid_w * p.grid_h == 3 * (p.grid_w * p.grid_h))
        by (nonlinear_arith);
    let cells: usize = (p.grid_w as usize) * (p.grid_h as usize);
    let bits: usize = cells * 3;
    bits / 8
}

/// The payload buffer of the frame that carries the shard `pk` of an input
/// of `orig_total` bytes: the header, the shard, and zeros up to `n` bytes.
/// The header stores the length of the shard modulo 65536.
pub open spec fn packet_frame_payload(pk: PacketView, orig_total: u64, n: int) -> Seq<u8> {
    zero_padded(
        sealed_bytes(
            pk.group_index,
            pk.shard_index,
            (pk.shard_bytes.len() % 65536) as u16,
            orig_total,
            pk.shard_sha256,
        ) + pk.shard_bytes,
        n,
    )
}

/// The payload buffers carry the packets, one each and in order.
pub open spec fn carries(payloads: Seq<Seq<u8>>, packets: Seq<PacketView>, orig_total: u64, n: int) -> bool {
    &&& payloads.len() == packets.len()
    &&& forall|k: int|
        0 <= k < payloads.len() ==> #[trigger] payloads[k] == packet_frame_payload(
            packets[k],
            orig_total,
            n,
        )
}

/// The payload buffers of the data frames of an encoded input. With an
/// erasure code, one buffer for each shard of its encoding; without, one for
/// each chunk of `chunk_len` bytes, the last zero-padded.
pub open spec fn data_payloads(input: Seq<u8>, p: RasterParams, payloads: Seq<Seq<u8>>) -> bool {
    match p.fec {
        Some(f) => exists|packets: Seq<PacketView>| #[trigger]
            fec_encoded(input, f, packets) && carries(
                payloads,
                packets,
                input.len() as u64,
                p.frame_payload_bytes(),
            ),
        None => {
            &&& payloads.len() == p.data_frames(input.len() as int)
            &&& forall|i: int|
                0 <= i < payloads.len() ==> #[trigger] payloads[i] == data_shard(
                    input,
                    i,
                    p.chunk_len(),
                )
        },
    }
}

/// What a list of buffers holds.
pub open spec fn buffer_views(buffers: Seq<Vec<u8>>) -> Seq<Seq<u8>> {
    Seq::new(buffers.len(), |i: int| buffers[i]@)
}

/// The manifest of an encode of `input` into `data_frames` data frames.
pub open spec fn manifest_of(
    m: EncodeManifest,
    input: Seq<u8>,
    file_name: Seq<char>,
    p: RasterParams,
    data_frames: int,
) -> bool {
    &&& m.magic@ == "SLLV"@
    &&& m.version == 1
    &&& m.file_name@ == file_name
    &&& m.total_bytes == input.len()
    &&& m.chunk_bytes == if p.fec is Some {
        p.frame_payload_bytes()
    } else {
        p.chunk_len()
    }
    &&& m.grid_w == p.grid_w
    &&& m.grid_h == p.grid_h
    &&& m.cell_px == p.cell_px
    &&& m.palette@ == "basic8"@
    &&& m.sha256_hex@ == hex_string(sha256(input))
    &&& m.frames == p.sync_frames + p.calibration_frames + data_frames
}

/// The text with which the erasure code or the chunking of `p` is refused,
/// if it is: a shard too large for a frame, by itself or beside the header,
/// counts that the erasure code refuses, or chunks of no bytes.
pub open spec fn carrier_refusal(p: RasterParams) -> Option<Seq<char>> {
    match p.fec {
        None => if p.chunk_bytes == 0 {
            Some("chunk_bytes is zero"@)
        } else {
            None
        },
        Some(f) => if f.shard_bytes > p.frame_payload_bytes() {
            Some(
                "fec shard_bytes "@ + decimal_digits(f.shard_bytes as nat)
                    + " exceeds frame payload capacity "@ + decimal_digits(
                    p.frame_payload_bytes() as nat,
                ),
            )
        } else if 52 + f.shard_bytes > p.frame_payload_bytes() {
            Some(
                "fec shard_bytes "@ + decimal_digits(f.shard_bytes as nat)
                    + " and a header exceed frame payload capacity "@ + decimal_digits(
                    p.frame_payload_bytes() as nat,
                ),
            )
        } else if f.data_shards == 0 || f.shard_bytes == 0 {
            Some("invalid params"@)
        } else if codec_refusal(f) is Some {
            Some("reed-solomon: "@ + rs_error_message(codec_refusal(f)->Some_0))
        } else {
            None
        },
    }
}

/// The text with which an encode of `len` bytes refuses the parameters, if
/// it does, tested in this order: a grid too small for a header, which a grid
/// of no cells is; what `carrier_refusal` names; frames that cannot be
/// rendered, or a sync symbol that is no symbol; more frames than `u32` can
/// count.
pub open spec fn encode_refusal(p: RasterParams, len: int) -> Option<Seq<char>> {
    if p.frame_payload_bytes() == 0 {
        Some("frame too small for header"@)
    } else if carrier_refusal(p) is Some {
        carrier_refusal(p)
    } else if !p.renderable() || p.sync_color_symbol >= 8 || p.capacity() > u32::MAX {
        Some("frame cannot be rendered"@)
    } else if p.sync_frames + p.calibration_frames + p.data_frames(len) > u32::MAX {
        Some("too many frames"@)
    } else {
        None
    }
}

/// The text of a shard that is too large, `what` saying for what.
fn shard_too_large_text(shard_bytes: usize, what: &str, frame_payload: u64) -> (text: String)
    ensures
        text@ == "fec shard_bytes "@ + decimal_digits(shard_bytes as nat) + what@ + decimal_digits(
            frame_payload as nat,
        ),
{
    let mut text: String = "fec shard_bytes ".to_owned();
    push_decimal(&mut text, shard_bytes as u64);
    text.push_str(what);
    push_decimal(&mut text, frame_payload);
    text
}

/// Tests the erasure code or the chunking of `p` against a frame payload of
/// `fpb` bytes.
fn carrier_check(p: &RasterParams, fpb: u64) -> (r: Option<String>)
    requires
        fpb == p.frame_payload_bytes(),
    ensures
        match r {
            Some(text) => carrier_refusal(*p) == Some(text@),
            None => carrier_refusal(*p) is None,
        },
{
    match p.fec {
        None => if p.chunk_bytes == 0 {
            Some("chunk_bytes is zero".to_owned())
        } else {
            None
        },
        Some(f) => if f.shard_bytes as u64 > fpb {
            Some(shard_too_large_text(f.shard_bytes, " exceeds frame payload capacity ", fpb))
        } else if fpb < 52 || f.shard_bytes as u64 > fpb - 52 {
            Some(
                shard_too_large_text(
                    f.shard_bytes,
                    " and a header exceed frame payload capacity ",
                    fpb,
                ),
            )
        } else if f.data_shards == 0 || f.shard_bytes == 0 {
            Some("invalid params".to_owned())
        } else {
            match codec_check(&f) {
                Some(e) => Some(FecError::Rs(rs_error_text(&e)).message()),
                None => None,
            }
        },
    }
}

/// Number of data frames that an input of `len` bytes is encoded into.
fn count_data_frames(p: &RasterParams, len: usize) -> (n: u128)
    requires
        p.frame_payload_bytes() > 0,
        carrier_refusal(*p) is None,
        p.capacity() <= u32::MAX,
    ensures
        n == p.data_frames(len as int),
        n <= 0xffff_ffff_ffff_ffff * 256,
{
    let (unit, per_unit): (u128, u128) = match p.fec {
        Some(f) => {
            assert(1 <= f.data_shards * f.shard_bytes <= 256 * 0xffff_ffff_ffff_ffff)
                by (nonlinear_arith)
                requires
                    1 <= f.data_shards <= 256,
                    1 <= f.shard_bytes <= 0xffff_ffff_ffff_ffff,
            ;
            (
                (f.data_shards as u128) * (f.shard_bytes as u128),
                (f.data_shards + f.parity_shards) as u128,
            )
        },
        None => {
            let fpb: u64 = p.grid_capacity() - 52;
            let cl: u64 = if fpb < p.chunk_bytes as u64 {
                fpb
            } else {
                p.chunk_bytes as u64
            };
            (cl as u128, 1u128)
        },
    };
    let units: u128 = (len as u128 + unit - 1) / unit;
    assert(0 <= units <= len) by (nonlinear_arith)
        requires
            units == (len + unit - 1) / (unit as int),
            unit >= 1,
            len >= 0,
    ;
    assert(0 <= units * per_unit <= 0xffff_ffff_ffff_ffff * 256) by (nonlinear_arith)
        requires
            0 <= units <= 0xffff_ffff_ffff_ffff,
            0 <= per_unit <= 256,
    ;
    units * per_unit
}

/// Tests whether an input of `len` bytes can be encoded with `p`.
pub fn encode_check(p: &RasterParams, len: usize) -> (r: Option<String>)
    ensures
        match r {
            Some(text) => encode_refusal(*p, len as int) == Some(text@),
            None => encode_refusal(*p, len as int) is None,
        },
{
    let cap: u64 = p.grid_capacity();
    if cap <= 52 {
        return Some("frame too small for header".to_owned());
    }
    match carrier_check(p, cap - 52) {
        Some(text) => {
            return Some(text);
        },
        None => {},
    }
    if !p.is_renderable() || p.sync_color_symbol >= 8 || cap > u32::MAX as u64 {
        return Some("frame cannot be rendered".to_owned());
    }
    let lead: u128 = p.sync_frames as u128 + p.calibration_frames as u128;
    if lead + count_data_frames(p, len) > u32::MAX as u128 {
        return Some("too many frames".to_owned());
    }
    None
}

/// Builds the payload buffer of the frame that carries one shard.
fn build_frame_payload(pk: &ShardPacket, orig_total: u64, n: usize) -> (buf: Vec<u8>)
    requires
        52 + pk.shard_bytes@.len() <= n,
    ensures
        buf@ == packet_frame_payload(pk@, orig_total, n as int),
{
    let len = pk.shard_bytes.len();
    let hdr = ShardHeader {
        group_index: pk.group_index,
        shard_index: pk.shard_index,
        shard_len: (len % 65536) as u16,
        orig_total_bytes: orig_total,
        shard_sha256: pk.shard_sha256,
        header_crc32: 0,
    }.with_crc();
    let head = hdr.to_bytes();
    let mut buf: Vec<u8> = Vec::new();
    buf.extend_from_slice(head.as_slice());
    buf.extend_from_slice(pk.shard_bytes.as_slice());
    let ghost filled = buf@;
    let ghost sealed = sealed_bytes(
        pk.group_index,
        pk.shard_index,
        (len % 65536) as u16,
        orig_total,
        pk.shard_sha256@,
    );
    assert(head@ == sealed);
    assert(filled == sealed + pk.shard_bytes@);
    buf.resize(n, 0u8);
    assert(buf@.subrange(0, filled.len() as int) == filled);
    assert forall|i: int| 0 <= i < n implies buf@[i] == zero_padded(filled, n as int)[i] by {
        if i < filled.len() {
            assert(buf@.subrange(0, filled.len() as int)[i] == filled[i]);
        }
    }
    assert(buf@ =~= zero_padded(filled, n as int));
    buf
}

/// The manifest of an encode.
fn build_manifest(
    input: &[u8],
    file_name: &str,
    p: &RasterParams,
    chunk_bytes: u32,
    data_frames: u32,
) -> (m: EncodeManifest)
    requires
        p.sync_frames + p.calibration_frames + data_frames <= u32::MAX,
        chunk_bytes == if p.fec is Some {
            p.frame_payload_bytes()
        } else {
            p.chunk_len()
        },
    ensures
        manifest_of(m, input@, file_name@, *p, data_frames as int),
{
    EncodeManifest {
        magic: "SLLV".to_owned(),
        version: 1,
        file_name: file_name.to_owned(),
        total_bytes: input.len() as u64,
        chunk_bytes,
        grid_w: p.grid_w,
        grid_h: p.grid_h,
        cell_px: p.cell_px,
        palette: p.palette.id().to_owned(),
        sha256_hex: sha256_hex(input),
        frames: p.sync_frames + p.calibration_frames + data_frames,
    }
}

/// Encodes `input` into the payload buffers of its data frames and the
/// manifest of the encode. With an erasure code every shard of the encoded
/// input gets a buffer: header, shard, zeros. Without, the input is cut into
/// chunks of `chunk_len` bytes, the last zero-padded. Parameters that cannot
/// be used are refused with the text that `encode_refusal` names, before
/// anything is encoded.
pub fn encode_bytes_to_payloads(input: &[u8], file_name: &str, p: &RasterParams) -> (r: Result<
    (Vec<Vec<u8>>, EncodeManifest),
    RasterError,
>)
    ensures
        match r {
            Ok((payloads, m)) => encode_refusal(*p, input@.len() as int) is None && data_payloads(
                input@,
                *p,
                buffer_views(payloads@),
            ) && manifest_of(m, input@, file_name@, *p, payloads@.len() as int),
            Err(RasterError::Fec(msg)) => encode_refusal(*p, input@.len() as int) == Some(msg@),
            Err(_) => false,
        },
{
    match encode_check(p, input.len()) {
        Some(text) => {
            return Err(RasterError::Fec(text));
        },
        None => {},
    }
    let cap = frame_capacity(p);
    let fpb: usize = cap - 52;
    let len = input.len();
    match p.fec {
        Some(f) => {
            let packets = match fec_encode_stream(input, &f) {
                Ok(packets) => packets,
                Err(e) => {
                    return Err(RasterError::Fec(e.message()));
                },
            };
            proof {
                lemma_encoded_lengths(input@, f, packet_views(packets@));
            }
            let mut payloads: Vec<Vec<u8>> = Vec::new();
            let mut k: usize = 0;
            while k < packets.len()
                invariant
                    0 <= k <= packets@.len(),
                    52 + f.shard_bytes <= fpb,
                    len == input@.len(),
                    payloads@.len() == k,
                    forall|j: int|
                        0 <= j < packets@.len() ==> (#[trigger] packet_views(
                            packets@,
                        )[j]).shard_bytes.len() == f.shard_bytes,
                    forall|j: int|
                        0 <= j < k ==> (#[trigger] payloads@[j])@ == packet_frame_payload(
                            packet_views(packets@)[j],
                            len as u64,
                            fpb as int,
                        ),
                decreases packets@.len() - k,
            {
                assert(packet_views(packets@)[k as int].shard_bytes == packets@[k as int].shard_bytes@);
                let buf = build_frame_payload(&packets[k], len as u64, fpb);
                payloads.push(buf);
                k = k + 1;
            }
            proof {
                assert(carries(
                    buffer_views(payloads@),
                    packet_views(packets@),
                    len as u64,
                    fpb as int,
                ));
            }
            let m = build_manifest(input, file_name, p, fpb as u32, payloads.len() as u32);
            Ok((payloads, m))
        },
        None => {
            let cl: usize = if fpb < p.chunk_bytes as usize {
                fpb
            } else {
                p.chunk_bytes as usize
            };
            let mut payloads: Vec<Vec<u8>> = Vec::new();
            let mut i: usize = 0;
            let mut base: u128 = 0;
            proof {
                assert(0 * cl == 0);
            }
            while base < len as u128
                invariant
                    cl == p.chunk_len(),
                    cl >= 1,
                    len == input@.len(),
                    base == i * cl,
                    i <= len,
                    i > 0 ==> (i - 1) * cl < len,
                    payloads@.len() == i,
                    forall|j: int|
                        0 <= j < i ==> (#[trigger] payloads@[j])@ == data_shard(
                            input@,
                            j,
                            cl as int,
                        ),
                decreases len - i,
            {
                let chunk = copy_shard(input, base, cl);
                payloads.push(chunk);
                proof {
                    lemma_mul_step(i as int, cl as int);
                    assert(i + 1 <= len) by (nonlinear_arith)
                        requires
                            i * cl < len,
                            cl >= 1,
                            i >= 0,
                    ;
                }
                base = base + cl as u128;
                i = i + 1;
            }
            proof {
                lemma_group_count(len as int, cl as int, i as int);
            }
            let m = build_manifest(input, file_name, p, cl as u32, payloads.len() as u32);
            Ok((payloads, m))
        },
    }
}

/// The buffer is long enough for a header and the CRC-32 of its first 48
/// bytes is the one stored after them.
pub open spec fn header_intact(bytes: Seq<u8>) -> bool {
    bytes.len() >= 52 && crc32(bytes.subrange(0, 48)) == le_value(bytes.subrange(48, 52), 4)
}

/// The length of the whole input that the header of a buffer names.
pub open spec fn frame_total(bytes: Seq<u8>) -> u64 {
    le_value(bytes.subrange(8, 16), 8)
}

/// The packet that a payload buffer carries, if it carries one: its header
/// must be intact, the shard it announces must lie inside the buffer, and the
/// shard must have the SHA-256 that the header names.
pub open spec fn frame_packet(bytes: Seq<u8>) -> Option<PacketView> {
    let shard_len = le_value(bytes.subrange(6, 8), 2) as int;
    let shard = bytes.subrange(52, 52 + shard_len);
    let sha = bytes.subrange(16, 48);
    if header_intact(bytes) && 52 + shard_len <= bytes.len() && sha256(shard) == sha {
        Some(
            PacketView {
                group_index: le_value(bytes.subrange(0, 4), 4) as u32,
                shard_index: le_value(bytes.subrange(4, 6), 2) as u16,
                shard_bytes: shard,
                shard_sha256: sha,
            },
        )
    } else {
        None
    }
}

/// The packets that a sequence of payload buffers carries, in order; a
/// buffer that carries none is passed over.
pub open spec fn collected(payloads: Seq<Seq<u8>>) -> Seq<PacketView>
    decreases payloads.len(),
{
    if payloads.len() == 0 {
        Seq::empty()
    } else {
        let rest = collected(payloads.drop_last());
        match frame_packet(payloads.last()) {
            Some(pk) => rest.push(pk),
            None => rest,
        }
    }
}

/// The length of the whole input that the first intact header of a
/// sequence of payload buffers names.
pub open spec fn first_total(payloads: Seq<Seq<u8>>) -> Option<u64>
    decreases payloads.len(),
{
    if payloads.len() == 0 {
        None
    } else {
        match first_total(payloads.drop_last()) {
            Some(t) => Some(t),
            None => if header_intact(payloads.last()) {
                Some(frame_total(payloads.last()))
            } else {
                None
            },
        }
    }
}

/// A length as far as `usize` can say it.
pub open spec fn clamped(n: u64) -> int {
    if n > usize::MAX {
        usize::MAX as int
    } else {
        n as int
    }
}

/// The length to which the recovered bytes are cut: the one that the first
/// intact header names, or the manifest's where no header is intact.
pub open spec fn selected_total(m: EncodeManifest, payloads: Seq<Seq<u8>>) -> int {
    match first_total(payloads) {
        Some(t) => clamped(t),
        None => clamped(m.total_bytes),
    }
}

/// Every buffer cut to `n` bytes at most.
pub open spec fn cut_all(payloads: Seq<Seq<u8>>, n: int) -> Seq<Seq<u8>> {
    Seq::new(payloads.len(), |i: int| clip(payloads[i], n))
}

/// The bytes recovered from the payload buffers of the data frames, before
/// they are tested against the manifest. With an erasure code the packets
/// that the buffers carry are decoded; without, every buffer is cut to the
/// `chunk_bytes` of the manifest, and the buffers are taken one after the
/// other and cut to the manifest's length.
pub open spec fn gathered(m: EncodeManifest, payloads: Seq<Seq<u8>>, p: RasterParams) -> Result<
    Seq<u8>,
    reed_solomon_erasure::Error,
> {
    match p.fec {
        Some(f) => fec_decoded(collected(payloads), selected_total(m, payloads), f),
        None => Ok(
            clip(
                concat_shards(cut_all(payloads, m.chunk_bytes as int), payloads.len() as int),
                clamped(m.total_bytes),
            ),
        ),
    }
}

/// The bytes are those that the manifest describes: they have its SHA-256
/// and its length.
pub open spec fn matches_manifest(m: EncodeManifest, bytes: Seq<u8>) -> bool {
    hex_string(sha256(bytes)) == m.sha256_hex@ && bytes.len() == m.total_bytes
}

/// The text with which the erasure code refuses a decode.
pub open spec fn decode_refusal_text(m: EncodeManifest, payloads: Seq<Seq<u8>>, f: FecParams) -> Seq<
    char,
> {
    if f.data_shards == 0 || f.shard_bytes == 0 {
        "invalid params"@
    } else {
        "reed-solomon: "@ + rs_error_message(
            decode_refusal(collected(payloads), selected_total(m, payloads), f)->Some_0,
        )
    }
}

/// The payload buffers hold what it takes to recover `input`: the manifest
/// names its SHA-256 and its length, and with an erasure code the packets
/// carried are enough of its encoding and the length selected is its length;
/// without, the buffers, cut and taken one after the other, are the input.
pub open spec fn recoverable(
    m: EncodeManifest,
    payloads: Seq<Seq<u8>>,
    p: RasterParams,
    input: Seq<u8>,
) -> bool {
    &&& matches_manifest(m, input)
    &&& match p.fec {
        Some(f) => selected_total(m, payloads) == input.len() && enough_of_encoding(
            collected(payloads),
            input,
            f,
        ),
        None => gathered(m, payloads, p) == Ok::<Seq<u8>, reed_solomon_erasure::Error>(input),
    }
}

/// `r` is what decoding the payload buffers `payloads` of the data frames
/// gives. The bytes gathered are returned if they are the bytes that the
/// manifest describes, and are refused with `ShaMismatch` if not; where the
/// erasure code refuses, its text is returned. Whatever the buffers hold, an
/// input that they suffice to recover is recovered.
pub open spec fn decoded_from(
    r: Result<Vec<u8>, RasterError>,
    m: EncodeManifest,
    payloads: Seq<Seq<u8>>,
    p: RasterParams,
) -> bool {
    &&& match r {
        Ok(out) => gathered(m, payloads, p) == Ok::<Seq<u8>, reed_solomon_erasure::Error>(out@)
            && matches_manifest(m, out@),
        Err(RasterError::ShaMismatch) => gathered(m, payloads, p) is Ok && !matches_manifest(
            m,
            gathered(m, payloads, p)->Ok_0,
        ),
        Err(RasterError::Fec(msg)) => p.fec is Some && msg@ == decode_refusal_text(
            m,
            payloads,
            p.fec->Some_0,
        ) && (p.fec->Some_0.data_shards == 0 || p.fec->Some_0.shard_bytes == 0 || decode_refusal(
            collected(payloads),
            selected_total(m, payloads),
            p.fec->Some_0,
        ) is Some),
        Err(_) => false,
    }
    &&& forall|input: Seq<u8>| #[trigger]
        recoverable(m, payloads, p, input) ==> r is Ok && r->Ok_0@ == input
}

/// Every packet that payload buffers carry is intact.
pub proof fn lemma_collected_intact(payloads: Seq<Seq<u8>>)
    ensures
        forall|k: int|
            0 <= k < collected(payloads).len() ==> packet_intact(#[trigger] collected(payloads)[k]),
    decreases payloads.len(),
{
    if payloads.len() > 0 {
        lemma_collected_intact(payloads.drop_last());
        let rest = collected(payloads.drop_last());
        assert forall|k: int| 0 <= k < collected(payloads).len() implies packet_intact(
            #[trigger] collected(payloads)[k],
        ) by {
            if k < rest.len() {
                assert(collected(payloads)[k] == rest[k]);
            }
        }
    }
}

/// A length as far as `usize` can say it.
fn clamp_len(n: u64) -> (len: usize)
    ensures
        len == clamped(n),
{
    if n > usize::MAX as u64 {
        usize::MAX
    } else {
        n as usize
    }
}

/// Reads one payload buffer: the length that its header names, if the header
/// is intact, and the packet it carries, if it carries one.
pub fn read_frame_payload(bytes: &[u8]) -> (r: (Option<u64>, Option<ShardPacket>))
    ensures
        r.0 == if header_intact(bytes@) {
            Some(frame_total(bytes@))
        } else {
            None
        },
        match r.1 {
            Some(pk) => frame_packet(bytes@) == Some(pk@),
            None => frame_packet(bytes@) is None,
        },
{
    if bytes.len() < 52 {
        return (None, None);
    }
    let hdr = ShardHeader::from_bytes(bytes);
    if !hdr.crc_ok(bytes) {
        return (None, None);
    }
    let total = Some(hdr.orig_total_bytes);
    let shard_end: usize = 52 + hdr.shard_len as usize;
    if shard_end > bytes.len() {
        return (total, None);
    }
    let shard: Vec<u8> = vstd::slice::slice_to_vec(vstd::slice::slice_subrange(bytes, 52, shard_end));
    let sha = sha256_digest(shard.as_slice());
    if !same_bytes(sha.as_slice(), hdr.shard_sha256.as_slice()) {
        return (total, None);
    }
    let pk = ShardPacket {
        group_index: hdr.group_index,
        shard_index: hdr.shard_index,
        shard_bytes: shard,
        shard_sha256: hdr.shard_sha256,
    };
    (total, Some(pk))
}

/// Recovers the input from the payload buffers of the data frames, in the
/// order of the frames, and tests it against the SHA-256 and the length of
/// the manifest. With an erasure code, buffers whose header or shard is
/// damaged are passed over and the packets of the others are decoded; a group
/// that they do not suffice for is the error of the erasure code. Without,
/// each buffer gives the `chunk_bytes` of the manifest.
pub fn decode_payloads_to_bytes(m: &EncodeManifest, payloads: &Vec<Vec<u8>>, p: &RasterParams) -> (r:
    Result<Vec<u8>, RasterError>)
    ensures
        decoded_from(r, *m, buffer_views(payloads@), *p),
        r matches Ok(out) ==> out@.len() == m.total_bytes && hex_string(sha256(out@))
            == m.sha256_hex@,
{
    let ghost views = buffer_views(payloads@);
    let out: Vec<u8> = match p.fec {
        Some(f) => {
            let mut packets: Vec<ShardPacket> = Vec::new();
            let mut orig_total: Option<u64> = None;
            let mut i: usize = 0;
            assert(views.take(0) =~= Seq::<Seq<u8>>::empty());
            assert(packet_views(packets@) =~= collected(views.take(0)));
            while i < payloads.len()
                invariant
                    0 <= i <= payloads@.len(),
                    views == buffer_views(payloads@),
                    packet_views(packets@) == collected(views.take(i as int)),
                    orig_total == first_total(views.take(i as int)),
                decreases payloads@.len() - i,
            {
                let (total, packet) = read_frame_payload(payloads[i].as_slice());
                proof {
                    assert(views.take(i + 1).drop_last() =~= views.take(i as int));
                    assert(views.take(i + 1).last() == payloads@[i as int]@);
                }
                if orig_total.is_none() {
                    orig_total = total;
                }
                let ghost before = packet_views(packets@);
                match packet {
                    Some(pk) => {
                        packets.push(pk);
                        assert(packet_views(packets@) =~= before.push(pk@));
                    },
                    None => {},
                }
                i = i + 1;
            }
            assert(views.take(payloads@.len() as int) =~= views);
            let total: usize = match orig_total {
                Some(t) => clamp_len(t),
                None => clamp_len(m.total_bytes),
            };
            proof {
                lemma_collected_intact(views);
                lemma_intact_all(collected(views));
            }
            match fec_decode_collect(packets, total, &f) {
                Ok(out) => out,
                Err(e) => {
                    let text = e.message();
                    return Err(RasterError::Fec(text));
                },
            }
        },
        None => {
            let cut: usize = m.chunk_bytes as usize;
            let ghost parts = cut_all(views, m.chunk_bytes as int);
            let mut out: Vec<u8> = Vec::new();
            let mut i: usize = 0;
            assert(out@ =~= concat_shards(parts, 0));
            while i < payloads.len()
                invariant
                    0 <= i <= payloads@.len(),
                    views == buffer_views(payloads@),
                    cut == m.chunk_bytes,
                    parts == cut_all(views, m.chunk_bytes as int),
                    out@ == concat_shards(parts, i as int),
                decreases payloads@.len() - i,
            {
                let buf = payloads[i].as_slice();
                let keep: usize = if buf.len() > cut {
                    cut
                } else {
                    buf.len()
                };
                let part = vstd::slice::slice_subrange(buf, 0, keep);
                assert(part@ =~= parts[i as int]);
                out.extend_from_slice(part);
                i = i + 1;
            }
            let ghost whole = out@;
            out.truncate(clamp_len(m.total_bytes));
            assert(out@ =~= clip(whole, clamped(m.total_bytes)));
            out
        },
    };
    let found = sha256_hex(out.as_slice());
    if found != m.sha256_hex || out.len() as u64 != m.total_bytes {
        return Err(RasterError::ShaMismatch);
    }
    Ok(out)
}

/// The frames of an encode in order: the sync frames, the calibration
/// frames, and one payload frame for each payload buffer.
pub open spec fn frame_sequence(frames: Seq<FrameImage>, p: RasterParams, payloads: Seq<Seq<u8>>) -> bool {
    &&& frames.len() == p.sync_frames + p.calibration_frames + payloads.len()
    &&& forall|i: int|
        0 <= i < p.sync_frames ==> frame_shows(
            #[trigger] frames[i],
            p,
            solid_cells(p.sync_color_symbol as int),
        )
    &&& forall|i: int|
        p.sync_frames <= i < p.sync_frames + p.calibration_frames ==> frame_shows(
            #[trigger] frames[i],
            p,
            calibration_cells(p),
        )
    &&& forall|k: int|
        0 <= k < payloads.len() ==> frame_shows(
            #[trigger] frames[p.sync_frames + p.calibration_frames + k],
            p,
            payload_cells(payloads[k], p),
        )
}

/// `frames` and `m` are the frames and the manifest of an encode of `input`.
pub open spec fn encoded_frames(
    input: Seq<u8>,
    file_name: Seq<char>,
    p: RasterParams,
    frames: Seq<FrameImage>,
    m: EncodeManifest,
) -> bool {
    exists|payloads: Seq<Seq<u8>>| #[trigger]
        data_payloads(input, p, payloads) && frame_sequence(frames, p, payloads) && manifest_of(
            m,
            input,
            file_name,
            p,
            payloads.len() as int,
        )
}

/// Encodes `input` into its frames and the manifest of the encode: the sync
/// frames, the calibration frames, then one payload frame for each payload
/// buffer of `encode_bytes_to_payloads`. Parameters that cannot be used are
/// refused before any frame is rendered.
pub fn encode_bytes_to_frames(input: &[u8], file_name: &str, p: &RasterParams) -> (r: Result<
    (Vec<FrameImage>, EncodeManifest),
    RasterError,
>)
    ensures
        match r {
            Ok((frames, m)) => encode_refusal(*p, input@.len() as int) is None && encoded_frames(
                input@,
                file_name@,
                *p,
                frames@,
                m,
            ),
            Err(RasterError::Fec(msg)) => encode_refusal(*p, input@.len() as int) == Some(msg@),
            Err(_) => false,
        },
{
    let (payloads, m) = match encode_bytes_to_payloads(input, file_name, p) {
        Ok(done) => done,
        Err(e) => {
            return Err(e);
        },
    };
    let mut frames: Vec<FrameImage> = Vec::new();
    let mut i: u32 = 0;
    while i < p.sync_frames
        invariant
            0 <= i <= p.sync_frames,
            encode_refusal(*p, input@.len() as int) is None,
            frames@.len() == i,
            forall|j: int|
                0 <= j < i ==> frame_shows(
                    #[trigger] frames@[j],
                    *p,
                    solid_cells(p.sync_color_symbol as int),
                ),
        decreases p.sync_frames - i,
    {
        frames.push(render_solid_frame(p, p.sync_color_symbol));
        i = i + 1;
    }
    let mut j: u32 = 0;
    while j < p.calibration_frames
        invariant
            0 <= j <= p.calibration_frames,
            encode_refusal(*p, input@.len() as int) is None,
            frames@.len() == p.sync_frames + j,
            forall|i: int|
                0 <= i < p.sync_frames ==> frame_shows(
                    #[trigger] frames@[i],
                    *p,
                    solid_cells(p.sync_color_symbol as int),
                ),
            forall|i: int|
                p.sync_frames <= i < p.sync_frames + j ==> frame_shows(
                    #[trigger] frames@[i],
                    *p,
                    calibration_cells(*p),
                ),
        decreases p.calibration_frames - j,
    {
        frames.push(render_calibration_frame(p));
        j = j + 1;
    }
    let ghost lead = p.sync_frames + p.calibration_frames;
    let mut k: usize = 0;
    while k < payloads.len()
        invariant
            0 <= k <= payloads@.len(),
            encode_refusal(*p, input@.len() as int) is None,
            lead == p.sync_frames + p.calibration_frames,
            frames@.len() == lead + k,
            forall|i: int|
                0 <= i < p.sync_frames ==> frame_shows(
                    #[trigger] frames@[i],
                    *p,
                    solid_cells(p.sync_color_symbol as int),
                ),
            forall|i: int|
                p.sync_frames <= i < lead ==> frame_shows(
                    #[trigger] frames@[i],
                    *p,
                    calibration_cells(*p),
                ),
            forall|n: int|
                0 <= n < k ==> frame_shows(
                    #[trigger] frames@[lead + n],
                    *p,
                    payload_cells(buffer_views(payloads@)[n], *p),
                ),
        decreases payloads@.len() - k,
    {
        frames.push(render_payload_frame(payloads[k].as_slice(), p));
        k = k + 1;
    }
    proof {
        assert(frame_sequence(frames@, *p, buffer_views(payloads@)));
    }
    Ok((frames, m))
}

/// Frame number `i` of a sequence; `None` where the frame is absent or the
/// sequence has no such frame.
pub open spec fn frame_at(frames: Seq<Option<FrameImage>>, i: int) -> Option<FrameImage> {
    if 0 <= i < frames.len() {
        frames[i]
    } else {
        None
    }
}

/// What is counted on each frame of a sequence that is there.
pub open spec fn stats_of(frames: Seq<Option<FrameImage>>, m: EncodeManifest, p: RasterParams) -> Seq<
    Option<SymbolStats>,
> {
    Seq::new(
        frames.len(),
        |i: int|
            match frames[i] {
                Some(img) => Some(
                    SymbolStats { unique_symbols: seen_count(img, m, p, 8) as usize },
                ),
                None => None,
            },
    )
}

/// The payload buffers read from those of the frames `start` to `end - 1`
/// that are there, in order. A frame that is absent is passed over.
pub open spec fn present_payloads(
    frames: Seq<Option<FrameImage>>,
    m: EncodeManifest,
    p: RasterParams,
    start: int,
    end: int,
) -> Seq<Seq<u8>>
    decreases end - start,
{
    if end <= start {
        Seq::empty()
    } else {
        let rest = present_payloads(frames, m, p, start, end - 1);
        match frame_at(frames, end - 1) {
            Some(img) => rest.push(decoded_payload(img, m, p)),
            None => rest,
        }
    }
}

/// Every frame that is there can be sampled on the manifest's grid.
pub open spec fn present_fit(frames: Seq<Option<FrameImage>>, m: EncodeManifest, p: RasterParams) -> bool {
    forall|i: int|
        0 <= i < frames.len() && (#[trigger] frames[i]) is Some ==> sampling_fits(
            frames[i]->Some_0,
            m,
            p,
        )
}

/// `r` is what decoding the frame sequence gives: a manifest of another
/// codec is refused, and else the payload buffers of the data frames that are
/// there are decoded.
pub open spec fn decoded_from_frames(
    r: Result<Vec<u8>, RasterError>,
    m: EncodeManifest,
    frames: Seq<Option<FrameImage>>,
    p: RasterParams,
) -> bool {
    if !manifest_valid(m) {
        r matches Err(RasterError::ManifestInvalid)
    } else {
        decoded_from(
            r,
            m,
            present_payloads(
                frames,
                m,
                p,
                data_start(stats_of(frames, m, p), m, p),
                m.frames as int,
            ),
            p,
        )
    }
}

/// Where the data frames start depends on the leading frames only.
proof fn lemma_second_busy_same(
    a: Seq<Option<SymbolStats>>,
    b: Seq<Option<SymbolStats>>,
    m: EncodeManifest,
    i: int,
    saw: bool,
)
    requires
        forall|j: int| 0 <= j < scan_limit(m) ==> stats_at(a, j) == stats_at(b, j),
    ensures
        second_busy(a, m, i, saw) == second_busy(b, m, i, saw),
    decreases scan_limit(m) - i,
{
    if 0 <= i < scan_limit(m) {
        lemma_second_busy_same(a, b, m, i + 1, saw);
        lemma_second_busy_same(a, b, m, i + 1, true);
    }
}

/// Decodes a frame sequence with the parameters `p`: tests the manifest,
/// finds the first data frame, reads the payload buffer of each data frame
/// that is there, and recovers the input from them as
/// `decode_payloads_to_bytes` does. `None` stands for a frame that is gone:
/// it is passed over, and the erasure code makes up for it where it can. The
/// frames are read as they are: a captured frame is to be rectified before it
/// is handed over, whatever `p.deskew` says.
pub fn decode_frames_to_bytes_with_params(
    m: &EncodeManifest,
    frames: &Vec<Option<FrameImage>>,
    p: &RasterParams,
) -> (r: Result<Vec<u8>, RasterError>)
    requires
        manifest_valid(*m) ==> p.sync_frames + p.calibration_frames <= u32::MAX && present_fit(
            frames@,
            *m,
            *p,
        ),
    ensures
        decoded_from_frames(r, *m, frames@, *p),
        r matches Ok(out) ==> out@.len() == m.total_bytes && hex_string(sha256(out@))
            == m.sha256_hex@,
{
    if !m.is_valid() {
        return Err(RasterError::ManifestInvalid);
    }
    let palette = Palette8::Basic;
    let limit: u32 = if m.frames < 300 {
        m.frames
    } else {
        300
    };
    let mut stats: Vec<Option<SymbolStats>> = Vec::new();
    let mut i: usize = 0;
    while i < frames.len() && i < limit as usize
        invariant
            0 <= i <= frames@.len(),
            i <= limit,
            present_fit(frames@, *m, *p),
            stats@.len() == i,
            forall|j: int| 0 <= j < i ==> #[trigger] stats@[j] == stats_of(frames@, *m, *p)[j],
        decreases frames@.len() - i,
    {
        let counted = match &frames[i] {
            Some(img) => Some(frame_symbol_stats(img, m, p, palette)),
            None => None,
        };
        stats.push(counted);
        i = i + 1;
    }
    proof {
        let all = stats_of(frames@, *m, *p);
        assert forall|j: int| 0 <= j < scan_limit(*m) implies stats_at(stats@, j) == stats_at(
            all,
            j,
        ) by {
            if j < i {
                assert(stats@[j] == all[j]);
            }
        }
        lemma_second_busy_same(stats@, all, *m, 0, false);
    }
    let start = detect_data_start(&stats, m, p);
    let mut payloads: Vec<Vec<u8>> = Vec::new();
    let mut k: u32 = start;
    while k < m.frames
        invariant
            start <= k,
            k <= m.frames || k == start,
            manifest_valid(*m),
            present_fit(frames@, *m, *p),
            start == data_start(stats_of(frames@, *m, *p), *m, *p),
            buffer_views(payloads@) == present_payloads(frames@, *m, *p, start as int, k as int),
        decreases m.frames - k,
    {
        let ghost before = buffer_views(payloads@);
        if (k as usize) < frames.len() {
            match &frames[k as usize] {
                Some(img) => {
                    let payload = decode_payload_from_rgb(img, m, p, palette);
                    payloads.push(payload);
                    assert(buffer_views(payloads@) =~= before.push(decoded_payload(*img, *m, *p)));
                },
                None => {},
            }
        }
        k = k + 1;
    }
    assert(buffer_views(payloads@) == present_payloads(
        frames@,
        *m,
        *p,
        start as int,
        m.frames as int,
    ));
    decode_payloads_to_bytes(m, &payloads, p)
}

/// Decodes a frame sequence with the default parameters.
pub fn decode_frames_to_bytes(m: &EncodeManifest, frames: &Vec<Option<FrameImage>>) -> (r: Result<
    Vec<u8>,
    RasterError,
>)
    requires
        manifest_valid(*m) ==> present_fit(frames@, *m, default_params()),
    ensures
        decoded_from_frames(r, *m, frames@, default_params()),
        r matches Ok(out) ==> out@.len() == m.total_bytes && hex_string(sha256(out@))
            == m.sha256_hex@,
{
    let p = RasterParams::default();
    decode_frames_to_bytes_with_params(m, frames, &p)
}

} // verus!
