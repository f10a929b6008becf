//! What holds of an encode and a decode together.

use crate::bits::{
    bit_of, lemma_bit_range, lemma_read3_range, lemma_zero_bits, lemma_zero_byte, read3,
};
use crate::digest::{crc32, hex_string, sha256};
use crate::fec::{
    clip, concat_shards, data_shard, encoded_at, fec_encoded, filled_in_group, from_encoding,
    group_count, group_slots, lemma_group_slots_len, lemma_packet_index, lemma_slot_filled,
    present_count,
    lemma_encoded_lengths, lemma_encoding_is_enough, lemma_intact_all, lemma_mul_step,
    lemma_packet_facts, lemma_packet_from_encoding, lemma_too_few_refused, padded_prefix,
    total_shards, usable_params, FecParams, PacketView,
};
use crate::header::{
    body_of, byte_of, le_bytes, lemma_le_round_trip, lemma_nonzero_u16, sealed_bytes,
};
use crate::manifest::{manifest_valid, EncodeManifest};
use crate::palette::{lemma_nearest_of_color, palette_color};
use crate::pixels::FrameImage;
use crate::raster::{
    carries, clamped, collected, cut_all, data_payloads, decoded_from, decoded_from_frames,
    encode_refusal, encoded_frames, first_total, frame_at, frame_packet, frame_sequence,
    frame_total, header_intact, lemma_collected_intact, manifest_of, packet_frame_payload,
    present_fit, present_payloads, recoverable, selected_total, stats_of, RasterError,
    RasterParams,
};
use crate::render::{
    calibration_cells, calibration_symbol, cell_pixel, frame_shows, payload_cells,
    shows_symbol, solid_cells, stripe_block,
};
use crate::scan::{
    cell_sample, data_start, is_busy, lemma_cell_place, lemma_frame_can_be_sampled,
    decoded_payload, lemma_payload_frame_round_trip, lemma_payload_sample, same_grid,
    sampling_fits, scan_limit,
    second_busy, seen_count, stats_at, symbol_seen, zero_padded, SymbolStats,
};
use vstd::prelude::*;

verus! {

/// Parameters and an input length for which an encode can be decoded again:
/// those that an encode accepts, where with an erasure code the length of a
/// shard fits the 16 bits that a header has for it.
pub open spec fn round_trip_params(p: RasterParams, len: int) -> bool {
    &&& encode_refusal(p, len) is None
    &&& len <= usize::MAX
    &&& p.fec is Some ==> p.fec->Some_0.shard_bytes < 65536
}

/// The groups of an input that can be encoded are counted by a group index.
proof fn lemma_groups_counted(p: RasterParams, len: int)
    requires
        round_trip_params(p, len),
        p.fec is Some,
    ensures
        group_count(len, p.fec->Some_0) <= 0x1_0000_0000,
{
    let f = p.fec->Some_0;
    let gc = group_count(len, f);
    let ts = total_shards(f);
    assert(gc <= 0x1_0000_0000) by (nonlinear_arith)
        requires
            gc * ts <= 0xffff_ffff,
            ts >= 1,
    ;
}

/// Chunks of an input, taken one after the other, are the input continued
/// with zeros.
proof fn lemma_chunks_joined(input: Seq<u8>, parts: Seq<Seq<u8>>, cl: int, n: int)
    requires
        cl >= 1,
        0 <= n <= parts.len(),
        forall|i: int| 0 <= i < n ==> #[trigger] parts[i] == data_shard(input, i, cl),
    ensures
        concat_shards(parts, n) == padded_prefix(input, n * cl),
    decreases n,
{
    if n > 0 {
        lemma_chunks_joined(input, parts, cl, n - 1);
        lemma_mul_step(n - 1, cl);
        assert((n - 1) * cl >= 0) by (nonlinear_arith)
            requires
                n >= 1,
                cl >= 1,
        ;
        assert(concat_shards(parts, n) =~= padded_prefix(input, n * cl));
    } else {
        assert(n * cl == 0) by (nonlinear_arith)
            requires
                n == 0,
        ;
        assert(concat_shards(parts, n) =~= padded_prefix(input, n * cl));
    }
}

/// Every payload buffer was read from its frame: continued with zeros to the
/// capacity of the grid.
pub open spec fn read_from_frames(read: Seq<Seq<u8>>, payloads: Seq<Seq<u8>>, p: RasterParams) -> bool {
    &&& read.len() == payloads.len()
    &&& forall|k: int|
        0 <= k < read.len() ==> #[trigger] read[k] == zero_padded(payloads[k], p.capacity())
}

/// The payload buffer of a frame that carries a packet of an encoding is
/// read as that packet, and its header names the length of the input.
proof fn lemma_frame_packet_back(pk: PacketView, orig_total: u64, n: int, cap: int)
    requires
        pk.shard_sha256 == sha256(pk.shard_bytes),
        pk.shard_sha256.len() == 32,
        pk.shard_bytes.len() < 65536,
        52 + pk.shard_bytes.len() <= n <= cap,
    ensures
        frame_packet(zero_padded(packet_frame_payload(pk, orig_total, n), cap)) == Some(pk),
        header_intact(zero_padded(packet_frame_payload(pk, orig_total, n), cap)),
        frame_total(zero_padded(packet_frame_payload(pk, orig_total, n), cap)) == orig_total,
{
    let len = pk.shard_bytes.len() as int;
    let shard_len = (len % 65536) as u16;
    let body = body_of(pk.group_index, pk.shard_index, shard_len, orig_total, pk.shard_sha256);
    let sealed = sealed_bytes(pk.group_index, pk.shard_index, shard_len, orig_total, pk.shard_sha256);
    let bytes = zero_padded(packet_frame_payload(pk, orig_total, n), cap);
    lemma_le_round_trip(pk.group_index as u64, 4);
    lemma_le_round_trip(pk.shard_index as u64, 2);
    lemma_le_round_trip(shard_len as u64, 2);
    lemma_le_round_trip(orig_total, 8);
    lemma_le_round_trip(crc32(body) as u64, 4);
    assert(body.len() == 48);
    assert(sealed.len() == 52);
    assert(bytes.subrange(0, 48) =~= body);
    assert(bytes.subrange(48, 52) =~= le_bytes(crc32(body) as u64, 4));
    assert(bytes.subrange(0, 4) =~= le_bytes(pk.group_index as u64, 4));
    assert(bytes.subrange(4, 6) =~= le_bytes(pk.shard_index as u64, 2));
    assert(bytes.subrange(6, 8) =~= le_bytes(shard_len as u64, 2));
    assert(bytes.subrange(8, 16) =~= le_bytes(orig_total, 8));
    assert(bytes.subrange(16, 48) =~= pk.shard_sha256);
    assert(bytes.subrange(52, 52 + len) =~= pk.shard_bytes);
    let got = frame_packet(bytes)->Some_0;
    assert(frame_packet(bytes) is Some);
    assert(got.shard_bytes == pk.shard_bytes);
    assert(got.shard_sha256 == pk.shard_sha256);
}

/// The packets carried by frames that carry an encoding, one each, are the
/// encoding, and the first header names the length of the input.
proof fn lemma_collected_back(
    read: Seq<Seq<u8>>,
    packets: Seq<PacketView>,
    orig_total: u64,
    n: int,
    cap: int,
)
    requires
        read.len() == packets.len(),
        n <= cap,
        forall|k: int|
            0 <= k < read.len() ==> #[trigger] read[k] == zero_padded(
                packet_frame_payload(packets[k], orig_total, n),
                cap,
            ),
        forall|k: int|
            0 <= k < packets.len() ==> {
                &&& (#[trigger] packets[k]).shard_sha256 == sha256(packets[k].shard_bytes)
                &&& packets[k].shard_sha256.len() == 32
                &&& packets[k].shard_bytes.len() < 65536
                &&& 52 + packets[k].shard_bytes.len() <= n
            },
    ensures
        collected(read) == packets,
        first_total(read) == if read.len() > 0 {
            Some(orig_total)
        } else {
            None
        },
    decreases read.len(),
{
    if read.len() > 0 {
        let last = read.len() - 1;
        assert(read[last] == zero_padded(packet_frame_payload(packets[last], orig_total, n), cap));
        lemma_frame_packet_back(packets[last], orig_total, n, cap);
        lemma_collected_back(read.drop_last(), packets.drop_last(), orig_total, n, cap);
        assert(packets.drop_last().push(packets[last]) =~= packets);
    } else {
        assert(packets =~= Seq::<PacketView>::empty());
    }
}

/// The payload buffers of an encode, read back from their frames, hold what
/// it takes to recover the input.
pub proof fn lemma_encoded_payloads_recoverable(
    input: Seq<u8>,
    file_name: Seq<char>,
    p: RasterParams,
    payloads: Seq<Seq<u8>>,
    m: EncodeManifest,
    read: Seq<Seq<u8>>,
)
    requires
        round_trip_params(p, input.len() as int),
        data_payloads(input, p, payloads),
        manifest_of(m, input, file_name, p, payloads.len() as int),
        read_from_frames(read, payloads, p),
    ensures
        recoverable(m, read, p, input),
{
    let cap = p.capacity();
    match p.fec {
        Some(f) => {
            let packets = choose|packets: Seq<PacketView>| #[trigger]
                fec_encoded(input, f, packets) && carries(
                    payloads,
                    packets,
                    input.len() as u64,
                    p.frame_payload_bytes(),
                );
            lemma_groups_counted(p, input.len() as int);
            lemma_encoded_lengths(input, f, packets);
            lemma_encoding_is_enough(input, f, packets);
            assert forall|k: int| 0 <= k < packets.len() implies {
                &&& (#[trigger] packets[k]).shard_sha256 == sha256(packets[k].shard_bytes)
                &&& packets[k].shard_sha256.len() == 32
                &&& packets[k].shard_bytes.len() < 65536
                &&& 52 + packets[k].shard_bytes.len() <= p.frame_payload_bytes()
            } by {
                lemma_packet_facts(input, f, packets, k);
            }
            assert forall|k: int| 0 <= k < read.len() implies #[trigger] read[k] == zero_padded(
                packet_frame_payload(packets[k], input.len() as u64, p.frame_payload_bytes()),
                cap,
            ) by {
                assert(read[k] == zero_padded(payloads[k], cap));
                assert(payloads[k] == packet_frame_payload(
                    packets[k],
                    input.len() as u64,
                    p.frame_payload_bytes(),
                ));
            }
            lemma_collected_back(
                read,
                packets,
                input.len() as u64,
                p.frame_payload_bytes(),
                cap,
            );
        },
        None => {
            let cl = p.chunk_len();
            let n = payloads.len() as int;
            let parts = cut_all(read, m.chunk_bytes as int);
            assert forall|i: int| 0 <= i < n implies #[trigger] parts[i] == data_shard(
                input,
                i,
                cl,
            ) by {
                assert(read[i] == zero_padded(payloads[i], cap));
                assert(payloads[i] == data_shard(input, i, cl));
                assert(parts[i] =~= data_shard(input, i, cl));
            }
            lemma_chunks_joined(input, parts, cl, n);
            assert(n * cl >= input.len()) by (nonlinear_arith)
                requires
                    n == (input.len() + cl - 1) / cl,
                    cl >= 1,
            ;
            assert(clip(padded_prefix(input, n * cl), clamped(m.total_bytes)) =~= input);
        },
    }
}

/// `buf` is one of the payload buffers of an encode as it is read from its
/// frame.
pub open spec fn is_frame_of(buf: Seq<u8>, payloads: Seq<Seq<u8>>, p: RasterParams) -> bool {
    exists|k: int|
        0 <= k < payloads.len() && buf == zero_padded(#[trigger] payloads[k], p.capacity())
}

/// Every buffer of `read` is one of the payload buffers of an encode as it is
/// read from its frame: frames of the encode only, in any order and any
/// number of times.
pub open spec fn survivors_of(read: Seq<Seq<u8>>, payloads: Seq<Seq<u8>>, p: RasterParams) -> bool {
    forall|j: int| 0 <= j < read.len() ==> is_frame_of(#[trigger] read[j], payloads, p)
}

/// The packets carried by surviving frames of an encoding are packets of the
/// encoding, and the first header names the length of the input.
proof fn lemma_survivors_collected(
    read: Seq<Seq<u8>>,
    payloads: Seq<Seq<u8>>,
    packets: Seq<PacketView>,
    input: Seq<u8>,
    p: RasterParams,
    f: FecParams,
)
    requires
        round_trip_params(p, input.len() as int),
        p.fec == Some(f),
        fec_encoded(input, f, packets),
        carries(payloads, packets, input.len() as u64, p.frame_payload_bytes()),
        survivors_of(read, payloads, p),
    ensures
        forall|i: int|
            0 <= i < collected(read).len() ==> from_encoding(
                #[trigger] collected(read)[i],
                input,
                f,
            ),
        first_total(read) == if read.len() > 0 {
            Some(input.len() as u64)
        } else {
            None
        },
    decreases read.len(),
{
    if read.len() > 0 {
        let rest = read.drop_last();
        let last = read.last();
        assert forall|j: int| 0 <= j < rest.len() implies is_frame_of(
            #[trigger] rest[j],
            payloads,
            p,
        ) by {
            assert(rest[j] == read[j]);
        }
        lemma_survivors_collected(rest, payloads, packets, input, p, f);
        assert(is_frame_of(read[read.len() - 1], payloads, p));
        let k = choose|k: int|
            0 <= k < payloads.len() && last == zero_padded(#[trigger] payloads[k], p.capacity());
        assert(payloads[k] == packet_frame_payload(
            packets[k],
            input.len() as u64,
            p.frame_payload_bytes(),
        ));
        lemma_packet_facts(input, f, packets, k);
        lemma_frame_packet_back(
            packets[k],
            input.len() as u64,
            p.frame_payload_bytes(),
            p.capacity(),
        );
        lemma_packet_from_encoding(input, f, packets, k);
        assert(collected(read) == collected(rest).push(packets[k]));
    }
}

/// Frames of an encode with an erasure code that survive, in any order,
/// with at least `data_shards` different shards of every group among them,
/// hold what it takes to recover the input.
pub proof fn lemma_survivors_recoverable(
    input: Seq<u8>,
    file_name: Seq<char>,
    p: RasterParams,
    payloads: Seq<Seq<u8>>,
    m: EncodeManifest,
    read: Seq<Seq<u8>>,
)
    requires
        round_trip_params(p, input.len() as int),
        p.fec is Some,
        data_payloads(input, p, payloads),
        manifest_of(m, input, file_name, p, payloads.len() as int),
        survivors_of(read, payloads, p),
        forall|g: int|
            0 <= g < group_count(input.len() as int, p.fec->Some_0) ==> #[trigger] filled_in_group(
                collected(read),
                g,
                p.fec->Some_0,
            ) >= p.fec->Some_0.data_shards,
    ensures
        recoverable(m, read, p, input),
{
    let f = p.fec->Some_0;
    let packets = choose|packets: Seq<PacketView>| #[trigger]
        fec_encoded(input, f, packets) && carries(
            payloads,
            packets,
            input.len() as u64,
            p.frame_payload_bytes(),
        );
    lemma_groups_counted(p, input.len() as int);
    lemma_survivors_collected(read, payloads, packets, input, p, f);
}

/// A payload cell of a rendered frame is read as the symbol that the frame
/// shows there.
pub proof fn lemma_shown_sample(
    img: FrameImage,
    m: EncodeManifest,
    p: RasterParams,
    cells: Map<(int, int), int>,
    x: int,
    y: int,
)
    requires
        frame_shows(img, p, cells),
        same_grid(m, p),
        p.cell_px >= 1,
        0 <= x < p.grid_w,
        0 <= y < p.grid_h,
        0 <= cells[(x + p.border_cells, y + p.border_cells)] < 8,
    ensures
        cell_sample(img, m, p, x, y) == cells[(x + p.border_cells, y + p.border_cells)],
{
    let b = p.border_cells as int;
    let c = p.cell_px as int;
    assert(shows_symbol(img, p, cells, x + b, y + b));
    assert(cell_pixel(img, c, x + b, y + b, 0, 0) == palette_color(
        cells[(x + b, y + b)],
    ));
    lemma_nearest_of_color(cells[(x + b, y + b)]);
}

/// Where every payload cell is read as one symbol, at most one symbol is
/// seen.
proof fn lemma_seen_only(img: FrameImage, m: EncodeManifest, p: RasterParams, s: int, k: int)
    requires
        forall|x: int, y: int|
            0 <= x < m.grid_w && 0 <= y < m.grid_h ==> #[trigger] cell_sample(img, m, p, x, y) == s,
        0 <= k,
    ensures
        seen_count(img, m, p, k) <= if s < k {
            1int
        } else {
            0int
        },
        seen_count(img, m, p, k) >= 0,
    decreases k,
{
    if k > 0 {
        lemma_seen_only(img, m, p, s, k - 1);
        if symbol_seen(img, m, p, k - 1) {
            let (cx, cy) = choose|cx: int, cy: int|
                0 <= cx < m.grid_w && 0 <= cy < m.grid_h && (cy < m.grid_h || (cy == m.grid_h
                    && cx < 0)) && #[trigger] cell_sample(img, m, p, cx, cy) == k - 1;
            assert(cell_sample(img, m, p, cx, cy) == s);
        }
    }
}

/// Two different symbols that are seen are counted.
proof fn lemma_seen_both(img: FrameImage, m: EncodeManifest, p: RasterParams, a: int, b: int, k: int)
    requires
        symbol_seen(img, m, p, a),
        symbol_seen(img, m, p, b),
        0 <= a,
        0 <= b,
        a != b,
        0 <= k,
    ensures
        seen_count(img, m, p, k) >= (if a < k {
            1int
        } else {
            0int
        }) + (if b < k {
            1int
        } else {
            0int
        }),
    decreases k,
{
    if k > 0 {
        lemma_seen_both(img, m, p, a, b, k - 1);
    }
}

/// A payload cell that is read as a symbol makes that symbol seen.
proof fn lemma_sample_seen(img: FrameImage, m: EncodeManifest, p: RasterParams, x: int, y: int)
    requires
        0 <= x < m.grid_w,
        0 <= y < m.grid_h,
    ensures
        symbol_seen(img, m, p, cell_sample(img, m, p, x, y)),
{
    let s = cell_sample(img, m, p, x, y);
    assert(0 <= x < m.grid_w && 0 <= y < m.grid_h && (y < m.grid_h || (y == m.grid_h && x < 0))
        && cell_sample(img, m, p, x, y) == s);
}

/// A frame painted with one symbol shows at most one symbol: it is a sync
/// frame to a decoder.
pub proof fn lemma_solid_is_quiet(img: FrameImage, m: EncodeManifest, p: RasterParams, s: int)
    requires
        frame_shows(img, p, solid_cells(s)),
        same_grid(m, p),
        p.cell_px >= 1,
        0 <= s < 8,
    ensures
        seen_count(img, m, p, 8) <= 1,
{
    assert forall|x: int, y: int| 0 <= x < m.grid_w && 0 <= y < m.grid_h implies #[trigger] cell_sample(
        img,
        m,
        p,
        x,
        y,
    ) == s by {
        lemma_shown_sample(img, m, p, solid_cells(s), x, y);
    }
    lemma_seen_only(img, m, p, s, 8);
}

proof fn lemma_grid_has_cells(gw: int, gh: int)
    by (nonlinear_arith)
    requires
        0 <= gw,
        0 <= gh,
        (3 * (gw * gh)) / 8 > 52,
    ensures
        gw * gh >= 139,
        gw >= 1,
        gh >= 1,
        gw == 1 ==> gh >= 139,
{
}

proof fn lemma_one_block(bw: int)
    by (nonlinear_arith)
    requires
        bw >= 1,
    ensures
        bw / bw == 1,
        0int / bw == 0,
        bw < 8 * bw,
{
}

/// A calibration frame on a grid that has room for a header shows more than
/// one symbol: it is no sync frame to a decoder.
pub proof fn lemma_calibration_is_busy(img: FrameImage, m: EncodeManifest, p: RasterParams)
    requires
        frame_shows(img, p, calibration_cells(p)),
        same_grid(m, p),
        p.cell_px >= 1,
        p.capacity() > 52,
    ensures
        seen_count(img, m, p, 8) > 1,
{
    let b = p.border_cells as int;
    let gw = p.grid_w as int;
    let gh = p.grid_h as int;
    let bw = stripe_block(p);
    lemma_grid_has_cells(gw, gh);
    lemma_one_block(bw);
    assert(calibration_symbol(p, b, b) == 0);
    lemma_shown_sample(img, m, p, calibration_cells(p), 0, 0);
    lemma_sample_seen(img, m, p, 0, 0);
    if gw >= 2 {
        assert(bw < gw);
        assert(calibration_symbol(p, b + bw, b) == 1);
        lemma_shown_sample(img, m, p, calibration_cells(p), bw, 0);
        lemma_sample_seen(img, m, p, bw, 0);
    } else {
        assert(calibration_symbol(p, b, b + 4) == 1);
        lemma_shown_sample(img, m, p, calibration_cells(p), 0, 4);
        lemma_sample_seen(img, m, p, 0, 4);
    }
    lemma_seen_both(img, m, p, 0, 1, 8);
}

/// Payload cell number `n` of a payload frame makes the symbol of the
/// payload at bit `3 * n` seen.
proof fn lemma_payload_symbol_seen(
    img: FrameImage,
    m: EncodeManifest,
    p: RasterParams,
    payload: Seq<u8>,
    n: int,
)
    requires
        frame_shows(img, p, payload_cells(payload, p)),
        same_grid(m, p),
        p.cell_px >= 1,
        0 <= n < p.grid_w * p.grid_h,
    ensures
        symbol_seen(img, m, p, read3(payload, 3 * n)),
{
    let gw = p.grid_w as int;
    assert(gw > 0) by (nonlinear_arith)
        requires
            0 <= n < gw * p.grid_h,
            gw >= 0,
    ;
    lemma_cell_place(n, gw, p.grid_h as int);
    lemma_payload_sample(img, m, p, payload, n);
    lemma_sample_seen(img, m, p, n % gw, n / gw);
}

/// A symbol of a buffer is 0 only if its three bits are.
proof fn lemma_read3_zero(buf: Seq<u8>, i: int)
    requires
        read3(buf, i) == 0,
    ensures
        bit_of(buf, i) == 0,
        bit_of(buf, i + 1) == 0,
        bit_of(buf, i + 2) == 0,
{
    lemma_bit_range(buf, i);
    lemma_bit_range(buf, i + 1);
    lemma_bit_range(buf, i + 2);
}

/// The frame that carries the first shard of a stream shows more than one
/// symbol: its group index is 0 and the length of its shard is not.
pub proof fn lemma_first_shard_frame_is_busy(
    img: FrameImage,
    m: EncodeManifest,
    p: RasterParams,
    pk: PacketView,
    orig_total: u64,
    n: int,
)
    requires
        frame_shows(img, p, payload_cells(packet_frame_payload(pk, orig_total, n), p)),
        same_grid(m, p),
        p.cell_px >= 1,
        p.capacity() > 52,
        pk.group_index == 0,
        pk.shard_sha256.len() == 32,
        1 <= pk.shard_bytes.len() < 65536,
        n >= 52,
    ensures
        seen_count(img, m, p, 8) > 1,
{
    let payload = packet_frame_payload(pk, orig_total, n);
    let len = pk.shard_bytes.len() as int;
    let shard_len = (len % 65536) as u16;
    let sealed = sealed_bytes(pk.group_index, pk.shard_index, shard_len, orig_total, pk.shard_sha256);
    lemma_grid_has_cells(p.grid_w as int, p.grid_h as int);
    lemma_nonzero_u16(shard_len);
    assert(sealed.len() == 52);
    assert(payload[0] == sealed[0]);
    assert(payload[6] == sealed[6]);
    assert(payload[7] == sealed[7]);
    assert(sealed[0] == byte_of(0, 0));
    assert(sealed[6] == byte_of(shard_len as u64, 0));
    assert(sealed[7] == byte_of(shard_len as u64, 1));
    // the first cell shows symbol 0
    lemma_zero_byte(0);
    lemma_zero_byte(1);
    lemma_zero_byte(2);
    assert(read3(payload, 0) == 0);
    lemma_payload_symbol_seen(img, m, p, payload, 0);
    // and one of the cells that hold the length of the shard does not
    if read3(payload, 48) == 0 && read3(payload, 51) == 0 && read3(payload, 54) == 0 && read3(
        payload,
        57,
    ) == 0 && read3(payload, 60) == 0 && read3(payload, 63) == 0 {
        lemma_read3_zero(payload, 48);
        lemma_read3_zero(payload, 51);
        lemma_read3_zero(payload, 54);
        lemma_read3_zero(payload, 57);
        lemma_read3_zero(payload, 60);
        lemma_read3_zero(payload, 63);
        lemma_zero_bits(payload, 6);
        lemma_zero_bits(payload, 7);
        assert(false);
    }
    let k: int = if read3(payload, 48) != 0 {
        16
    } else if read3(payload, 51) != 0 {
        17
    } else if read3(payload, 54) != 0 {
        18
    } else if read3(payload, 57) != 0 {
        19
    } else if read3(payload, 60) != 0 {
        20
    } else {
        21
    };
    lemma_payload_symbol_seen(img, m, p, payload, k);
    lemma_read3_range(payload, 3 * k);
    lemma_seen_both(img, m, p, 0, read3(payload, 3 * k), 8);
}

/// Parameters and an input length for which the frames of an encode can be
/// decoded again: those of `round_trip_params`, with cells of at least one
/// pixel.
pub open spec fn round_trip_frames(p: RasterParams, len: int) -> bool {
    round_trip_params(p, len) && p.cell_px >= 1
}

/// Every frame of `frames` is handed to the decoder.
pub open spec fn all_present(given: Seq<Option<FrameImage>>, frames: Seq<FrameImage>) -> bool {
    &&& given.len() == frames.len()
    &&& forall|i: int| 0 <= i < frames.len() ==> #[trigger] given[i] == Some(frames[i])
}

/// Frames of `frames` are handed to the decoder, each at its place, and the
/// others are absent.
pub open spec fn some_present(given: Seq<Option<FrameImage>>, frames: Seq<FrameImage>) -> bool {
    &&& given.len() == frames.len()
    &&& forall|i: int|
        0 <= i < frames.len() && (#[trigger] given[i]) is Some ==> given[i] == Some(frames[i])
}

/// The decoder starts to read at the data frames: it finds the data start
/// after the sync and calibration frames, and no data frame that is there
/// comes before it.
pub open spec fn starts_at_data(given: Seq<Option<FrameImage>>, m: EncodeManifest, p: RasterParams) -> bool {
    let start = data_start(stats_of(given, m, p), m, p);
    let lead = p.sync_frames + p.calibration_frames;
    &&& lead <= start
    &&& forall|i: int| lead <= i < start ==> (#[trigger] frame_at(given, i)) is None
}

/// What is read from `start` on is what is read from `lead` on, where the
/// frames between the two are absent.
proof fn lemma_absent_lead(
    given: Seq<Option<FrameImage>>,
    m: EncodeManifest,
    p: RasterParams,
    lead: int,
    start: int,
    end: int,
)
    requires
        lead <= start,
        forall|i: int| lead <= i < start ==> (#[trigger] frame_at(given, i)) is None,
    ensures
        present_payloads(given, m, p, start, end) == present_payloads(given, m, p, lead, end),
    decreases end - lead,
{
    if end > lead {
        lemma_absent_lead(given, m, p, lead, start, end - 1);
        if end <= start {
            assert(frame_at(given, end - 1) is None);
        }
    }
}

/// Where every frame is there, one payload buffer is read from each.
proof fn lemma_all_read(
    given: Seq<Option<FrameImage>>,
    frames: Seq<FrameImage>,
    m: EncodeManifest,
    p: RasterParams,
    lead: int,
    n: int,
)
    requires
        all_present(given, frames),
        0 <= lead,
        0 <= n,
        lead + n <= frames.len(),
    ensures
        present_payloads(given, m, p, lead, lead + n).len() == n,
        forall|k: int|
            0 <= k < n ==> #[trigger] present_payloads(given, m, p, lead, lead + n)[k]
                == decoded_payload(frames[lead + k], m, p),
    decreases n,
{
    if n > 0 {
        lemma_all_read(given, frames, m, p, lead, n - 1);
        assert(given[lead + n - 1] == Some(frames[lead + n - 1]));
    }
}

/// What is read from frames of an encode that are there are payload buffers
/// of the encode as they are read from their frames.
proof fn lemma_present_survivors(
    given: Seq<Option<FrameImage>>,
    frames: Seq<FrameImage>,
    m: EncodeManifest,
    p: RasterParams,
    payloads: Seq<Seq<u8>>,
    lead: int,
    end: int,
)
    requires
        some_present(given, frames),
        0 <= lead,
        frames.len() == lead + payloads.len(),
        forall|k: int|
            0 <= k < payloads.len() ==> decoded_payload(frames[lead + k], m, p) == zero_padded(
                #[trigger] payloads[k],
                p.capacity(),
            ),
    ensures
        survivors_of(present_payloads(given, m, p, lead, end), payloads, p),
    decreases end - lead,
{
    let read = present_payloads(given, m, p, lead, end);
    if end > lead {
        lemma_present_survivors(given, frames, m, p, payloads, lead, end - 1);
        let rest = present_payloads(given, m, p, lead, end - 1);
        assert forall|j: int| 0 <= j < read.len() implies is_frame_of(
            #[trigger] read[j],
            payloads,
            p,
        ) by {
            if j < rest.len() {
                assert(read[j] == rest[j]);
            } else {
                let k = end - 1 - lead;
                assert(given[end - 1] == Some(frames[end - 1]));
                assert(read[j] == zero_padded(payloads[k], p.capacity()));
            }
        }
    }
}

proof fn lemma_seen_bounds(img: FrameImage, m: EncodeManifest, p: RasterParams, k: int)
    requires
        0 <= k,
    ensures
        0 <= seen_count(img, m, p, k) <= k,
    decreases k,
{
    if k > 0 {
        lemma_seen_bounds(img, m, p, k - 1);
    }
}

/// The search for the data start passes over frames that are sync frames or
/// missing.
proof fn lemma_scan_skips(
    stats: Seq<Option<SymbolStats>>,
    m: EncodeManifest,
    i: int,
    j: int,
    saw: bool,
)
    requires
        0 <= i <= j,
        forall|k: int| i <= k < j ==> !is_busy(#[trigger] stats_at(stats, k)),
    ensures
        second_busy(stats, m, i, saw) == second_busy(stats, m, j, saw),
    decreases j - i,
{
    if i < j {
        assert(!is_busy(stats_at(stats, i)));
        lemma_scan_skips(stats, m, i + 1, j, saw);
    }
}

/// Past the scan limit nothing is found.
proof fn lemma_scan_ends(stats: Seq<Option<SymbolStats>>, m: EncodeManifest, i: int, saw: bool)
    requires
        0 <= i,
        forall|k: int| i <= k ==> !is_busy(#[trigger] stats_at(stats, k)),
    ensures
        second_busy(stats, m, i, saw) is None,
    decreases scan_limit(m) - i,
{
    if i < scan_limit(m) {
        assert(!is_busy(stats_at(stats, i)));
        lemma_scan_ends(stats, m, i + 1, saw);
    }
}

/// A decoder that is handed every frame of an encode finds the data frames
/// where they are, after the sync frames and the calibration frame: where
/// the sync frames are so many that it looks at sync frames only, or there
/// is one calibration frame and the first data frame is told from a sync
/// frame. That frame is with an erasure code, by its header. Without, it
/// need not be, unless it is the only one: a first chunk of one symbol has a
/// decoder go on to the next frame that is no sync frame.
pub proof fn lemma_encoded_frames_start(
    input: Seq<u8>,
    file_name: Seq<char>,
    p: RasterParams,
    frames: Seq<FrameImage>,
    given: Seq<Option<FrameImage>>,
    m: EncodeManifest,
)
    requires
        round_trip_frames(p, input.len() as int),
        encoded_frames(input, file_name, p, frames, m),
        all_present(given, frames),
        p.sync_frames >= 300 || p.calibration_frames == 1,
        p.sync_frames < 300 && p.fec is None && input.len() > p.chunk_len() ==> seen_count(
            frames[p.sync_frames + p.calibration_frames],
            m,
            p,
            8,
        ) > 1,
    ensures
        data_start(stats_of(given, m, p), m, p) == p.sync_frames + p.calibration_frames,
        starts_at_data(given, m, p),
{
    let payloads = choose|payloads: Seq<Seq<u8>>| #[trigger]
        data_payloads(input, p, payloads) && frame_sequence(frames, p, payloads) && manifest_of(
            m,
            input,
            file_name,
            p,
            payloads.len() as int,
        );
    let stats = stats_of(given, m, p);
    let sync = p.sync_frames as int;
    let limit = scan_limit(m);
    assert forall|k: int| 0 <= k < frames.len() implies (is_busy(#[trigger] stats_at(stats, k))
        <==> seen_count(frames[k], m, p, 8) > 1) by {
        assert(given[k] == Some(frames[k]));
        lemma_seen_bounds(frames[k], m, p, 8);
    }
    if p.sync_frames >= 300 {
        assert forall|k: int| 0 <= k < limit implies !is_busy(#[trigger] stats_at(stats, k)) by {
            if k < frames.len() {
                lemma_solid_is_quiet(frames[k], m, p, p.sync_color_symbol as int);
            }
        }
        lemma_scan_skips(stats, m, 0, limit, false);
        assert(data_start(stats, m, p) == p.sync_frames + p.calibration_frames);
    } else {
        assert forall|k: int| 0 <= k < sync implies !is_busy(#[trigger] stats_at(stats, k)) by {
            lemma_solid_is_quiet(frames[k], m, p, p.sync_color_symbol as int);
        }
        lemma_scan_skips(stats, m, 0, sync, false);
        assert(frames.len() > sync);
        lemma_calibration_is_busy(frames[sync], m, p);
        assert(seen_count(frames[sync], m, p, 8) > 1);
        assert(is_busy(stats_at(stats, sync)));
        if sync < limit && sync + 1 < limit {
            let first_is_busy = is_busy(stats_at(stats, sync + 1));
            if p.fec is Some && payloads.len() >= 1 {
                let f = p.fec->Some_0;
                let packets = choose|packets: Seq<PacketView>| #[trigger]
                    fec_encoded(input, f, packets) && carries(
                        payloads,
                        packets,
                        input.len() as u64,
                        p.frame_payload_bytes(),
                    );
                lemma_packet_facts(input, f, packets, 0);
                assert(0int / total_shards(f) == 0) by (nonlinear_arith)
                    requires
                        total_shards(f) >= 1,
                ;
                assert(payloads[0] == packet_frame_payload(
                    packets[0],
                    input.len() as u64,
                    p.frame_payload_bytes(),
                ));
                assert(frame_shows(
                    frames[p.sync_frames + p.calibration_frames + 0],
                    p,
                    payload_cells(payloads[0], p),
                ));
                lemma_first_shard_frame_is_busy(
                    frames[sync + 1],
                    m,
                    p,
                    packets[0],
                    input.len() as u64,
                    p.frame_payload_bytes(),
                );
                assert(first_is_busy);
            }
            if !first_is_busy {
                assert forall|k: int| sync + 1 <= k implies !is_busy(#[trigger] stats_at(stats, k)) by {
                    if k > sync + 1 {
                        lemma_few_frames(input, p, payloads);
                    }
                }
                lemma_scan_ends(stats, m, sync + 1, true);
                assert(second_busy(stats, m, sync + 1, true) is None);
            } else {
                assert(second_busy(stats, m, sync + 1, true) == Some(sync + 1));
            }
        } else {
            assert(second_busy(stats, m, sync + 1, true) is None);
        }
        assert(second_busy(stats, m, sync, false) == second_busy(stats, m, sync + 1, true));
    }
}

/// What the search finds from `i` on once it has met the calibration frame:
/// the first frame before the scan limit that is no sync frame.
proof fn lemma_first_busy(stats: Seq<Option<SymbolStats>>, m: EncodeManifest, i: int)
    requires
        0 <= i,
    ensures
        match second_busy(stats, m, i, true) {
            Some(s) => i <= s < scan_limit(m) && is_busy(stats_at(stats, s)) && forall|k: int|
                i <= k < s ==> !is_busy(#[trigger] stats_at(stats, k)),
            None => forall|k: int|
                i <= k < scan_limit(m) ==> !is_busy(#[trigger] stats_at(stats, k)),
        },
    decreases scan_limit(m) - i,
{
    if i < scan_limit(m) && !is_busy(stats_at(stats, i)) {
        lemma_first_busy(stats, m, i + 1);
    }
}

/// Data frame number `k` is there.
pub open spec fn data_frame_there(given: Seq<Option<FrameImage>>, p: RasterParams, k: int) -> bool {
    frame_at(given, p.sync_frames + p.calibration_frames + k) is Some
}

/// A decoder that is handed frames of an encode with an erasure code, of
/// which some are absent, starts to read at the data frames: where the sync
/// frames are so many that it looks at sync frames only, or there is one
/// calibration frame, it is there, and so is a frame of the first group.
pub proof fn lemma_survivors_start(
    input: Seq<u8>,
    file_name: Seq<char>,
    p: RasterParams,
    frames: Seq<FrameImage>,
    given: Seq<Option<FrameImage>>,
    m: EncodeManifest,
)
    requires
        round_trip_frames(p, input.len() as int),
        p.fec is Some,
        encoded_frames(input, file_name, p, frames, m),
        some_present(given, frames),
        p.sync_frames >= 300 || (p.calibration_frames == 1 && given[p.sync_frames as int] is Some),
        p.sync_frames < 300 && input.len() > 0 ==> exists|i: int|
            0 <= i < total_shards(p.fec->Some_0) && #[trigger] data_frame_there(given, p, i),
    ensures
        starts_at_data(given, m, p),
{
    let payloads = choose|payloads: Seq<Seq<u8>>| #[trigger]
        data_payloads(input, p, payloads) && frame_sequence(frames, p, payloads) && manifest_of(
            m,
            input,
            file_name,
            p,
            payloads.len() as int,
        );
    let f = p.fec->Some_0;
    let packets = choose|packets: Seq<PacketView>| #[trigger]
        fec_encoded(input, f, packets) && carries(
            payloads,
            packets,
            input.len() as u64,
            p.frame_payload_bytes(),
        );
    let stats = stats_of(given, m, p);
    let sync = p.sync_frames as int;
    let lead = p.sync_frames + p.calibration_frames;
    let limit = scan_limit(m);
    let total = total_shards(f);
    assert forall|k: int| 0 <= k implies (is_busy(#[trigger] stats_at(stats, k)) <==> k
        < frames.len() && given[k] is Some && seen_count(frames[k], m, p, 8) > 1) by {
        if k < frames.len() && given[k] is Some {
            lemma_seen_bounds(frames[k], m, p, 8);
        }
    }
    assert forall|k: int| 0 <= k < sync implies !is_busy(#[trigger] stats_at(stats, k)) by {
        if k < frames.len() && given[k] is Some {
            lemma_solid_is_quiet(frames[k], m, p, p.sync_color_symbol as int);
        }
    }
    if p.sync_frames >= 300 {
        lemma_scan_skips(stats, m, 0, limit, false);
        assert(data_start(stats, m, p) == lead);
    } else {
        lemma_scan_skips(stats, m, 0, sync, false);
        lemma_calibration_is_busy(frames[sync], m, p);
        assert(is_busy(stats_at(stats, sync)));
        lemma_first_busy(stats, m, sync + 1);
        if sync < limit {
            assert(second_busy(stats, m, sync, false) == second_busy(stats, m, sync + 1, true));
            match second_busy(stats, m, sync + 1, true) {
                Some(s) => {
                    assert forall|i: int| lead <= i < s implies (#[trigger] frame_at(
                        given,
                        i,
                    )) is None by {
                        if frame_at(given, i) is Some {
                            assert(payloads.len() > 0);
                            if input.len() == 0 {
                                let gb = f.data_shards * f.shard_bytes;
                                assert(gb >= 1) by (nonlinear_arith)
                                    requires
                                        gb == f.data_shards * f.shard_bytes,
                                        f.data_shards >= 1,
                                        f.shard_bytes >= 1,
                                ;
                                assert((0 + gb - 1) / gb == 0) by (nonlinear_arith)
                                    requires
                                        gb >= 1,
                                ;
                                assert(group_count(0, f) * total == 0) by (nonlinear_arith)
                                    requires
                                        group_count(0, f) == 0,
                                ;
                                lemma_encoded_lengths(input, f, packets);
                            }
                            let i0 = choose|i0: int|
                                0 <= i0 < total && #[trigger] data_frame_there(given, p, i0);
                            let j = if i < lead + total {
                                i
                            } else {
                                lead + i0
                            };
                            let k = j - lead;
                            assert(given[j] == Some(frames[j]));
                            lemma_packet_facts(input, f, packets, k);
                            assert(k / total == 0) by (nonlinear_arith)
                                requires
                                    0 <= k < total,
                            ;
                            assert(payloads[k] == packet_frame_payload(
                                packets[k],
                                input.len() as u64,
                                p.frame_payload_bytes(),
                            ));
                            assert(frame_shows(frames[lead + k], p, payload_cells(payloads[k], p)));
                            lemma_first_shard_frame_is_busy(
                                frames[j],
                                m,
                                p,
                                packets[k],
                                input.len() as u64,
                                p.frame_payload_bytes(),
                            );
                            assert(is_busy(stats_at(stats, j)));
                        }
                    }
                },
                None => {},
            }
        }
    }
}

/// Without an erasure code an input that fits into one frame has at most
/// one data frame, and with one an input of which no shard is busy has none.
proof fn lemma_few_frames(input: Seq<u8>, p: RasterParams, payloads: Seq<Seq<u8>>)
    requires
        round_trip_params(p, input.len() as int),
        data_payloads(input, p, payloads),
        p.fec is Some ==> payloads.len() == 0,
        p.fec is None ==> input.len() <= p.chunk_len(),
    ensures
        payloads.len() <= 1,
{
    if p.fec is None {
        let cl = p.chunk_len();
        assert((input.len() + cl - 1) / cl <= 1) by (nonlinear_arith)
            requires
                0 <= input.len() <= cl,
                cl >= 1,
        ;
    }
}

/// Every payload buffer of an encode is as long as the payload buffer of a
/// frame at most.
proof fn lemma_payload_lengths(input: Seq<u8>, p: RasterParams, payloads: Seq<Seq<u8>>, k: int)
    requires
        round_trip_params(p, input.len() as int),
        data_payloads(input, p, payloads),
        0 <= k < payloads.len(),
    ensures
        payloads[k].len() <= p.frame_payload_bytes(),
        p.frame_payload_bytes() <= p.capacity(),
{
    match p.fec {
        Some(f) => {
            let packets = choose|packets: Seq<PacketView>| #[trigger]
                fec_encoded(input, f, packets) && carries(
                    payloads,
                    packets,
                    input.len() as u64,
                    p.frame_payload_bytes(),
                );
            assert(payloads[k] == packet_frame_payload(
                packets[k],
                input.len() as u64,
                p.frame_payload_bytes(),
            ));
        },
        None => {
            assert(payloads[k] == data_shard(input, k, p.chunk_len()));
        },
    }
}

/// A payload frame of an encode is read as its payload buffer continued with
/// zeros to the capacity of the grid.
proof fn lemma_frames_read_back(
    input: Seq<u8>,
    file_name: Seq<char>,
    p: RasterParams,
    frames: Seq<FrameImage>,
    m: EncodeManifest,
    payloads: Seq<Seq<u8>>,
)
    requires
        round_trip_frames(p, input.len() as int),
        data_payloads(input, p, payloads),
        frame_sequence(frames, p, payloads),
        manifest_of(m, input, file_name, p, payloads.len() as int),
    ensures
        forall|k: int|
            0 <= k < payloads.len() ==> decoded_payload(
                frames[p.sync_frames + p.calibration_frames + k],
                m,
                p,
            ) == zero_padded(#[trigger] payloads[k], p.capacity()),
{
    let lead = p.sync_frames + p.calibration_frames;
    assert forall|k: int| 0 <= k < payloads.len() implies decoded_payload(
        frames[lead + k],
        m,
        p,
    ) == zero_padded(#[trigger] payloads[k], p.capacity()) by {
        lemma_payload_lengths(input, p, payloads, k);
        assert(frame_shows(frames[lead + k], p, payload_cells(payloads[k], p)));
        lemma_payload_frame_round_trip(frames[lead + k], m, p, payloads[k]);
    }
}

/// Frames of an encode can be handed to a decoder: every frame that is there
/// can be sampled on the grid of the manifest.
pub proof fn lemma_encoded_frames_fit(
    input: Seq<u8>,
    file_name: Seq<char>,
    p: RasterParams,
    frames: Seq<FrameImage>,
    given: Seq<Option<FrameImage>>,
    m: EncodeManifest,
)
    requires
        round_trip_frames(p, input.len() as int),
        encoded_frames(input, file_name, p, frames, m),
        some_present(given, frames),
    ensures
        present_fit(given, m, p),
        p.sync_frames + p.calibration_frames <= u32::MAX,
{
    let payloads = choose|payloads: Seq<Seq<u8>>| #[trigger]
        data_payloads(input, p, payloads) && frame_sequence(frames, p, payloads) && manifest_of(
            m,
            input,
            file_name,
            p,
            payloads.len() as int,
        );
    let lead = p.sync_frames + p.calibration_frames;
    assert forall|i: int| 0 <= i < given.len() && (#[trigger] given[i]) is Some implies sampling_fits(
        given[i]->Some_0,
        m,
        p,
    ) by {
        if i < p.sync_frames {
            assert(frame_shows(frames[i], p, solid_cells(p.sync_color_symbol as int)));
        } else if i < lead {
            assert(frame_shows(frames[i], p, calibration_cells(p)));
        } else {
            assert(frame_shows(frames[lead + (i - lead)], p, payload_cells(payloads[i - lead], p)));
        }
        lemma_frame_can_be_sampled(frames[i], m, p);
    }
}

/// Decoding the frames of an encode gives the input back: whatever a decoder
/// that starts to read at the data frames returns for the frames and the
/// manifest of an encode of `input`, with the parameters of the encode, is
/// `input`. This holds with an erasure code and without, for an input of one
/// chunk or of many. `lemma_encoded_frames_start` says of which encodes a
/// decoder starts to read at the data frames.
pub proof fn lemma_round_trip(
    input: Seq<u8>,
    file_name: Seq<char>,
    p: RasterParams,
    frames: Seq<FrameImage>,
    given: Seq<Option<FrameImage>>,
    m: EncodeManifest,
    r: Result<Vec<u8>, RasterError>,
)
    requires
        round_trip_frames(p, input.len() as int),
        encoded_frames(input, file_name, p, frames, m),
        all_present(given, frames),
        starts_at_data(given, m, p),
        decoded_from_frames(r, m, given, p),
    ensures
        r is Ok,
        r->Ok_0@ == input,
{
    let payloads = choose|payloads: Seq<Seq<u8>>| #[trigger]
        data_payloads(input, p, payloads) && frame_sequence(frames, p, payloads) && manifest_of(
            m,
            input,
            file_name,
            p,
            payloads.len() as int,
        );
    let lead = p.sync_frames + p.calibration_frames;
    let start = data_start(stats_of(given, m, p), m, p);
    assert(manifest_valid(m));
    lemma_absent_lead(given, m, p, lead, start, m.frames as int);
    let read = present_payloads(given, m, p, lead, m.frames as int);
    lemma_all_read(given, frames, m, p, lead, payloads.len() as int);
    lemma_frames_read_back(input, file_name, p, frames, m, payloads);
    assert forall|k: int| 0 <= k < read.len() implies #[trigger] read[k] == zero_padded(
        payloads[k],
        p.capacity(),
    ) by {
        assert(read[k] == decoded_payload(frames[lead + k], m, p));
    }
    lemma_encoded_payloads_recoverable(input, file_name, p, payloads, m, read);
    assert(decoded_from(r, m, read, p));
    assert(recoverable(m, read, p, input));
}

/// An encode with one calibration frame, or with at least 300 sync frames,
/// whose first data frame a decoder tells from a sync frame, is decoded to
/// its input: whatever a decoder returns for its frames and its manifest,
/// with its parameters, is `input`. With an erasure code every first data
/// frame is told from a sync frame, and so is the only data frame of an
/// encode without.
pub proof fn lemma_encode_then_decode(
    input: Seq<u8>,
    file_name: Seq<char>,
    p: RasterParams,
    frames: Seq<FrameImage>,
    given: Seq<Option<FrameImage>>,
    m: EncodeManifest,
    r: Result<Vec<u8>, RasterError>,
)
    requires
        round_trip_frames(p, input.len() as int),
        encoded_frames(input, file_name, p, frames, m),
        all_present(given, frames),
        p.sync_frames >= 300 || p.calibration_frames == 1,
        p.sync_frames < 300 && p.fec is None && input.len() > p.chunk_len() ==> seen_count(
            frames[p.sync_frames + p.calibration_frames],
            m,
            p,
            8,
        ) > 1,
        decoded_from_frames(r, m, given, p),
    ensures
        r is Ok,
        r->Ok_0@ == input,
{
    lemma_encoded_frames_start(input, file_name, p, frames, given, m);
    lemma_round_trip(input, file_name, p, frames, given, m, r);
}

/// The numbers, among the data frames, of the frames up to `end - 1` that are
/// there, in order.
pub open spec fn present_numbers(given: Seq<Option<FrameImage>>, p: RasterParams, end: int) -> Seq<int>
    decreases end - (p.sync_frames + p.calibration_frames),
{
    let lead = p.sync_frames + p.calibration_frames;
    if end <= lead {
        Seq::empty()
    } else {
        let rest = present_numbers(given, p, end - 1);
        if frame_at(given, end - 1) is Some {
            rest.push(end - 1 - lead)
        } else {
            rest
        }
    }
}

/// Buffer `q` of those read up to `end - 1` was read from the data frame of
/// the number at place `q`.
spec fn read_as_numbered(
    given: Seq<Option<FrameImage>>,
    frames: Seq<FrameImage>,
    m: EncodeManifest,
    p: RasterParams,
    end: int,
    q: int,
) -> bool {
    let lead = p.sync_frames + p.calibration_frames;
    let k = present_numbers(given, p, end)[q];
    &&& 0 <= k < end - lead
    &&& lead + k < frames.len()
    &&& present_payloads(given, m, p, lead, end)[q] == decoded_payload(frames[lead + k], m, p)
}

/// One buffer is read from each data frame that is there.
proof fn lemma_present_numbers(
    given: Seq<Option<FrameImage>>,
    frames: Seq<FrameImage>,
    m: EncodeManifest,
    p: RasterParams,
    end: int,
)
    requires
        some_present(given, frames),
    ensures
        present_payloads(given, m, p, p.sync_frames + p.calibration_frames, end).len()
            == present_numbers(given, p, end).len(),
        forall|q: int|
            0 <= q < present_numbers(given, p, end).len() ==> #[trigger] read_as_numbered(
                given,
                frames,
                m,
                p,
                end,
                q,
            ),
        forall|k: int|
            0 <= k < end - (p.sync_frames + p.calibration_frames) && #[trigger] data_frame_there(
                given,
                p,
                k,
            ) ==> present_numbers(given, p, end).contains(k),
    decreases end - (p.sync_frames + p.calibration_frames),
{
    let lead = p.sync_frames + p.calibration_frames;
    let numbers = present_numbers(given, p, end);
    if end > lead {
        lemma_present_numbers(given, frames, m, p, end - 1);
        let rest = present_numbers(given, p, end - 1);
        assert forall|q: int| 0 <= q < numbers.len() implies #[trigger] read_as_numbered(
            given,
            frames,
            m,
            p,
            end,
            q,
        ) by {
            if q < rest.len() {
                assert(read_as_numbered(given, frames, m, p, end - 1, q));
            } else {
                assert(given[end - 1] == Some(frames[end - 1]));
            }
        }
        assert forall|k: int| 0 <= k < end - lead && #[trigger] data_frame_there(
            given,
            p,
            k,
        ) implies numbers.contains(k) by {
            if k < end - 1 - lead {
                assert(rest.contains(k));
                let q = choose|q: int| 0 <= q < rest.len() && rest[q] == k;
                assert(numbers[q] == k);
            } else {
                assert(numbers[numbers.len() - 1] == k);
            }
        }
    }
}

/// Number of the data frames `from` to `from + n - 1` that are there.
pub open spec fn frames_there(given: Seq<Option<FrameImage>>, p: RasterParams, from: int, n: int) -> int
    decreases n,
{
    if n <= 0 {
        0
    } else {
        frames_there(given, p, from, n - 1) + if data_frame_there(given, p, from + n - 1) {
            1int
        } else {
            0int
        }
    }
}

/// Number of the frames of group `g` that are there.
pub open spec fn group_frames_there(given: Seq<Option<FrameImage>>, p: RasterParams, g: int) -> int {
    frames_there(given, p, g * total_shards(p.fec->Some_0), total_shards(p.fec->Some_0))
}

/// Slots that are filled wherever a frame is there are filled as often as
/// frames are there.
proof fn lemma_count_there(
    slots: Seq<Option<Seq<u8>>>,
    given: Seq<Option<FrameImage>>,
    p: RasterParams,
    from: int,
    n: int,
)
    requires
        0 <= n <= slots.len(),
        forall|i: int|
            0 <= i < n && data_frame_there(given, p, from + i) ==> (#[trigger] slots[i]) is Some,
    ensures
        present_count(slots, n) >= frames_there(given, p, from, n),
    decreases n,
{
    if n > 0 {
        lemma_count_there(slots, given, p, from, n - 1);
        if data_frame_there(given, p, from + n - 1) {
            assert(slots[n - 1] is Some);
        }
    }
}

/// Where frames are counted, one of them is there.
proof fn lemma_one_there(given: Seq<Option<FrameImage>>, p: RasterParams, from: int, n: int) -> (i:
    int)
    requires
        frames_there(given, p, from, n) > 0,
    ensures
        0 <= i < n,
        data_frame_there(given, p, from + i),
    decreases n,
{
    if data_frame_there(given, p, from + n - 1) {
        n - 1
    } else {
        lemma_one_there(given, p, from, n - 1)
    }
}

/// The packets read from frames of an encode fill as many slots of a group
/// as frames of the group are there.
proof fn lemma_group_filled(
    input: Seq<u8>,
    file_name: Seq<char>,
    p: RasterParams,
    frames: Seq<FrameImage>,
    given: Seq<Option<FrameImage>>,
    m: EncodeManifest,
    g: int,
)
    requires
        round_trip_frames(p, input.len() as int),
        p.fec is Some,
        encoded_frames(input, file_name, p, frames, m),
        some_present(given, frames),
        0 <= g < group_count(input.len() as int, p.fec->Some_0),
    ensures
        filled_in_group(
            collected(
                present_payloads(given, m, p, p.sync_frames + p.calibration_frames, m.frames as int),
            ),
            g,
            p.fec->Some_0,
        ) >= group_frames_there(given, p, g),
{
    let payloads = choose|payloads: Seq<Seq<u8>>| #[trigger]
        data_payloads(input, p, payloads) && frame_sequence(frames, p, payloads) && manifest_of(
            m,
            input,
            file_name,
            p,
            payloads.len() as int,
        );
    let f = p.fec->Some_0;
    let packets = choose|packets: Seq<PacketView>| #[trigger]
        fec_encoded(input, f, packets) && carries(
            payloads,
            packets,
            input.len() as u64,
            p.frame_payload_bytes(),
        );
    let lead = p.sync_frames + p.calibration_frames;
    let end = m.frames as int;
    let total = total_shards(f);
    let gc = group_count(input.len() as int, f);
    let read = present_payloads(given, m, p, lead, end);
    let numbers = present_numbers(given, p, end);
    let carried = Seq::new(numbers.len(), |q: int| packets[numbers[q]]);
    lemma_groups_counted(p, input.len() as int);
    lemma_present_numbers(given, frames, m, p, end);
    lemma_frames_read_back(input, file_name, p, frames, m, payloads);
    assert forall|q: int| 0 <= q < read.len() implies #[trigger] read[q] == zero_padded(
        packet_frame_payload(carried[q], input.len() as u64, p.frame_payload_bytes()),
        p.capacity(),
    ) by {
        assert(read_as_numbered(given, frames, m, p, end, q));
        let k = numbers[q];
        assert(payloads[k] == packet_frame_payload(
            packets[k],
            input.len() as u64,
            p.frame_payload_bytes(),
        ));
    }
    assert forall|q: int| 0 <= q < carried.len() implies {
        &&& (#[trigger] carried[q]).shard_sha256 == sha256(carried[q].shard_bytes)
        &&& carried[q].shard_sha256.len() == 32
        &&& carried[q].shard_bytes.len() < 65536
        &&& 52 + carried[q].shard_bytes.len() <= p.frame_payload_bytes()
    } by {
        assert(read_as_numbered(given, frames, m, p, end, q));
        lemma_packet_facts(input, f, packets, numbers[q]);
    }
    lemma_collected_back(
        read,
        carried,
        input.len() as u64,
        p.frame_payload_bytes(),
        p.capacity(),
    );
    let slots = group_slots(carried, g as u32, total);
    lemma_group_slots_len(carried, g as u32, total);
    assert forall|i: int| 0 <= i < total && data_frame_there(given, p, g * total + i) implies (
    #[trigger] slots[i]) is Some by {
        let k = g * total + i;
        lemma_packet_index(g, i, total, gc);
        assert(numbers.contains(k));
        let q = choose|q: int| 0 <= q < numbers.len() && numbers[q] == k;
        assert(encoded_at(packets, input, f, g, i));
        assert(carried[q] == packets[k]);
        lemma_slot_filled(carried, g as u32, total, q);
    }
    lemma_count_there(slots, given, p, g * total, total);
}

/// Frames that are lost are made up for: an encode of `input` with an
/// erasure code, of whose frames some are absent, is decoded to `input`,
/// where at least `data_shards` frames of every group are there, and the
/// calibration frame, unless the sync frames are so many that a decoder
/// looks at sync frames only.
pub proof fn lemma_lost_frames_made_up(
    input: Seq<u8>,
    file_name: Seq<char>,
    p: RasterParams,
    frames: Seq<FrameImage>,
    given: Seq<Option<FrameImage>>,
    m: EncodeManifest,
    r: Result<Vec<u8>, RasterError>,
)
    requires
        round_trip_frames(p, input.len() as int),
        p.fec is Some,
        encoded_frames(input, file_name, p, frames, m),
        some_present(given, frames),
        p.sync_frames >= 300 || (p.calibration_frames == 1 && given[p.sync_frames as int] is Some),
        forall|g: int|
            0 <= g < group_count(input.len() as int, p.fec->Some_0)
                ==> #[trigger] group_frames_there(given, p, g) >= p.fec->Some_0.data_shards,
        decoded_from_frames(r, m, given, p),
    ensures
        r is Ok,
        r->Ok_0@ == input,
{
    let f = p.fec->Some_0;
    let total = total_shards(f);
    if p.sync_frames < 300 && input.len() > 0 {
        let gb = f.data_shards * f.shard_bytes;
        assert(gb >= 1) by (nonlinear_arith)
            requires
                gb == f.data_shards * f.shard_bytes,
                f.data_shards >= 1,
                f.shard_bytes >= 1,
        ;
        assert((input.len() + gb - 1) / gb >= 1) by (nonlinear_arith)
            requires
                gb >= 1,
                input.len() >= 1,
        ;
        assert(group_frames_there(given, p, 0) >= f.data_shards);
        assert(0 * total == 0) by (nonlinear_arith);
        let i = lemma_one_there(given, p, 0, total);
        assert(data_frame_there(given, p, i));
    }
    lemma_survivors_start(input, file_name, p, frames, given, m);
    assert forall|g: int| 0 <= g < group_count(input.len() as int, f) implies #[trigger] filled_in_group(
        collected(
            present_payloads(given, m, p, p.sync_frames + p.calibration_frames, m.frames as int),
        ),
        g,
        f,
    ) >= f.data_shards by {
        lemma_group_filled(input, file_name, p, frames, given, m, g);
        assert(group_frames_there(given, p, g) >= f.data_shards);
    }
    lemma_survivors_round_trip(input, file_name, p, frames, given, m, r);
}

/// Frames that are lost are made up for: whatever a decoder that starts to
/// read at the data frames returns for frames of an encode of `input` with an
/// erasure code, of which some are absent, is `input`, where the packets
/// read from the frames that are there hold at least `data_shards` different
/// shards of every group. `lemma_survivors_start` says of which frames a
/// decoder starts to read at the data frames.
pub proof fn lemma_survivors_round_trip(
    input: Seq<u8>,
    file_name: Seq<char>,
    p: RasterParams,
    frames: Seq<FrameImage>,
    given: Seq<Option<FrameImage>>,
    m: EncodeManifest,
    r: Result<Vec<u8>, RasterError>,
)
    requires
        round_trip_frames(p, input.len() as int),
        p.fec is Some,
        encoded_frames(input, file_name, p, frames, m),
        some_present(given, frames),
        starts_at_data(given, m, p),
        forall|g: int|
            0 <= g < group_count(input.len() as int, p.fec->Some_0) ==> #[trigger] filled_in_group(
                collected(
                    present_payloads(
                        given,
                        m,
                        p,
                        p.sync_frames + p.calibration_frames,
                        m.frames as int,
                    ),
                ),
                g,
                p.fec->Some_0,
            ) >= p.fec->Some_0.data_shards,
        decoded_from_frames(r, m, given, p),
    ensures
        r is Ok,
        r->Ok_0@ == input,
{
    let payloads = choose|payloads: Seq<Seq<u8>>| #[trigger]
        data_payloads(input, p, payloads) && frame_sequence(frames, p, payloads) && manifest_of(
            m,
            input,
            file_name,
            p,
            payloads.len() as int,
        );
    let lead = p.sync_frames + p.calibration_frames;
    let start = data_start(stats_of(given, m, p), m, p);
    assert(manifest_valid(m));
    lemma_absent_lead(given, m, p, lead, start, m.frames as int);
    let read = present_payloads(given, m, p, lead, m.frames as int);
    lemma_frames_read_back(input, file_name, p, frames, m, payloads);
    lemma_present_survivors(given, frames, m, p, payloads, lead, m.frames as int);
    lemma_survivors_recoverable(input, file_name, p, payloads, m, read);
    assert(decoded_from(r, m, read, p));
    assert(recoverable(m, read, p, input));
}

/// A loss that the erasure code cannot make up for is an error of the
/// erasure code, not a mismatch and not other bytes: where the frames read
/// carry fewer than `data_shards` different shards of a group that the
/// length asks for, whatever a decoder returns is `RasterError::Fec`.
pub proof fn lemma_unrecoverable_loss(
    m: EncodeManifest,
    payloads: Seq<Seq<u8>>,
    p: RasterParams,
    g: int,
    r: Result<Vec<u8>, RasterError>,
)
    requires
        p.fec is Some,
        usable_params(p.fec->Some_0),
        0 <= g < group_count(selected_total(m, payloads), p.fec->Some_0),
        g < 0x1_0000_0000,
        filled_in_group(collected(payloads), g, p.fec->Some_0) < p.fec->Some_0.data_shards,
        decoded_from(r, m, payloads, p),
    ensures
        r matches Err(RasterError::Fec(_)),
{
    lemma_collected_intact(payloads);
    lemma_intact_all(collected(payloads));
    lemma_too_few_refused(collected(payloads), selected_total(m, payloads), p.fec->Some_0, g);
}

/// The same of frames: where the frames that are there carry fewer than
/// `data_shards` different shards of a group that the length asks for,
/// whatever a decoder returns for a manifest of this codec is
/// `RasterError::Fec`.
pub proof fn lemma_unrecoverable_frames(
    m: EncodeManifest,
    given: Seq<Option<FrameImage>>,
    p: RasterParams,
    g: int,
    r: Result<Vec<u8>, RasterError>,
)
    requires
        manifest_valid(m),
        p.fec is Some,
        usable_params(p.fec->Some_0),
        ({
            let read = present_payloads(
                given,
                m,
                p,
                data_start(stats_of(given, m, p), m, p),
                m.frames as int,
            );
            &&& 0 <= g < group_count(selected_total(m, read), p.fec->Some_0)
            &&& g < 0x1_0000_0000
            &&& filled_in_group(collected(read), g, p.fec->Some_0) < p.fec->Some_0.data_shards
        }),
        decoded_from_frames(r, m, given, p),
    ensures
        r matches Err(RasterError::Fec(_)),
{
    let read = present_payloads(
        given,
        m,
        p,
        data_start(stats_of(given, m, p), m, p),
        m.frames as int,
    );
    lemma_unrecoverable_loss(m, read, p, g, r);
}

/// Decoding the payload buffers of an encode, read back from their frames,
/// gives the input back.
pub proof fn lemma_payload_round_trip(
    input: Seq<u8>,
    file_name: Seq<char>,
    p: RasterParams,
    payloads: Seq<Seq<u8>>,
    m: EncodeManifest,
    read: Seq<Seq<u8>>,
    r: Result<Vec<u8>, RasterError>,
)
    requires
        round_trip_params(p, input.len() as int),
        data_payloads(input, p, payloads),
        manifest_of(m, input, file_name, p, payloads.len() as int),
        read_from_frames(read, payloads, p),
        decoded_from(r, m, read, p),
    ensures
        r is Ok,
        r->Ok_0@ == input,
{
    lemma_encoded_payloads_recoverable(input, file_name, p, payloads, m, read);
    assert(recoverable(m, read, p, input));
}

/// A decoder never returns bytes that the manifest does not describe:
/// whatever the frames hold, what is returned for them is either an error or
/// bytes of the SHA-256 and of the length that the manifest names.
pub proof fn lemma_output_matches_manifest(
    m: EncodeManifest,
    frames: Seq<Option<FrameImage>>,
    p: RasterParams,
    r: Result<Vec<u8>, RasterError>,
)
    requires
        decoded_from_frames(r, m, frames, p),
        r is Ok,
    ensures
        hex_string(sha256(r->Ok_0@)) == m.sha256_hex@,
        r->Ok_0@.len() == m.total_bytes,
{
}

} // verus!
