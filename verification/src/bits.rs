//! 3-bit symbols inside a byte buffer. Bit `i` of a buffer is bit `i % 8` of
//! byte `i / 8`, the least significant bit first.

use vstd::prelude::*;

verus! {

/// Bit `k` of a byte: 0 or 1.
pub open spec fn byte_bit(b: u8, k: u8) -> u8 {
    (b >> k) & 1
}

/// The byte `b` with bit `k` set to `v`.
pub open spec fn byte_with_bit(b: u8, k: u8, v: u8) -> u8 {
    if v == 1 {
        b | (1u8 << k)
    } else {
        b & !(1u8 << k)
    }
}

/// Bit `i` of a buffer; bits past its end read as 0.
pub open spec fn bit_of(buf: Seq<u8>, i: int) -> int {
    if 0 <= i && i / 8 < buf.len() {
        byte_bit(buf[i / 8], (i % 8) as u8) as int
    } else {
        0
    }
}

/// The buffer with bit `i` set to `v`; a bit past its end is not written.
pub open spec fn with_bit(buf: Seq<u8>, i: int, v: u8) -> Seq<u8> {
    if 0 <= i && i / 8 < buf.len() {
        buf.update(i / 8, byte_with_bit(buf[i / 8], (i % 8) as u8, v))
    } else {
        buf
    }
}

/// The 3-bit symbol at bits `i`, `i + 1`, `i + 2`.
pub open spec fn read3(buf: Seq<u8>, i: int) -> int {
    bit_of(buf, i) + 2 * bit_of(buf, i + 1) + 4 * bit_of(buf, i + 2)
}

/// The buffer with the low three bits of `sym` written at bits `i`, `i + 1`,
/// `i + 2`.
pub open spec fn write3(buf: Seq<u8>, i: int, sym: u8) -> Seq<u8> {
    with_bit(
        with_bit(with_bit(buf, i, byte_bit(sym, 0)), i + 1, byte_bit(sym, 1)),
        i + 2,
        byte_bit(sym, 2),
    )
}

proof fn lemma_byte_bit_set(b: u8, k: u8, v: u8, j: u8)
    by (bit_vector)
    requires
        k < 8,
        j < 8,
        v <= 1,
    ensures
        byte_bit(b, j) <= 1,
        byte_bit(byte_with_bit(b, k, v), k) == v,
        j != k ==> byte_bit(byte_with_bit(b, k, v), j) == byte_bit(b, j),
{
}

proof fn lemma_symbol_bits(s: u8)
    by (bit_vector)
    ensures
        byte_bit(s, 0) <= 1,
        byte_bit(s, 1) <= 1,
        byte_bit(s, 2) <= 1,
        byte_bit(s, 0) + 2 * byte_bit(s, 1) + 4 * byte_bit(s, 2) == s & 7,
        (s & 7) < 8,
        s < 8 ==> s & 7 == s,
{
}

proof fn lemma_compose_bits(b0: u8, b1: u8, b2: u8)
    by (bit_vector)
    requires
        b0 <= 1,
        b1 <= 1,
        b2 <= 1,
    ensures
        (b0 | (b1 << 1u8) | (b2 << 2u8)) == b0 + 2 * b1 + 4 * b2,
{
}

/// A byte is determined by its eight bits.
proof fn lemma_byte_by_bits(a: u8, b: u8)
    by (bit_vector)
    requires
        byte_bit(a, 0) == byte_bit(b, 0),
        byte_bit(a, 1) == byte_bit(b, 1),
        byte_bit(a, 2) == byte_bit(b, 2),
        byte_bit(a, 3) == byte_bit(b, 3),
        byte_bit(a, 4) == byte_bit(b, 4),
        byte_bit(a, 5) == byte_bit(b, 5),
        byte_bit(a, 6) == byte_bit(b, 6),
        byte_bit(a, 7) == byte_bit(b, 7),
    ensures
        a == b,
{
}

/// Every bit of a buffer is 0 or 1.
pub proof fn lemma_bit_range(buf: Seq<u8>, i: int)
    ensures
        0 <= bit_of(buf, i) <= 1,
{
    if 0 <= i && i / 8 < buf.len() {
        lemma_byte_bit_set(buf[i / 8], 0, 0, (i % 8) as u8);
    }
}

/// Every symbol read from a buffer is below 8.
pub proof fn lemma_read3_range(buf: Seq<u8>, i: int)
    ensures
        0 <= read3(buf, i) < 8,
{
    lemma_bit_range(buf, i);
    lemma_bit_range(buf, i + 1);
    lemma_bit_range(buf, i + 2);
}

/// Setting a bit changes that bit and no other.
pub proof fn lemma_with_bit(buf: Seq<u8>, i: int, v: u8, j: int)
    requires
        v <= 1,
    ensures
        with_bit(buf, i, v).len() == buf.len(),
        bit_of(with_bit(buf, i, v), j) == if j == i && 0 <= i && i / 8 < buf.len() {
            v as int
        } else {
            bit_of(buf, j)
        },
{
    if 0 <= i && i / 8 < buf.len() && 0 <= j && j / 8 < buf.len() {
        if j / 8 == i / 8 {
            lemma_byte_bit_set(buf[i / 8], (i % 8) as u8, v, (j % 8) as u8);
        }
    }
}

/// What a buffer holds after a symbol is written: the symbol's bits at the
/// three positions, as far as they lie inside the buffer, and the old bits
/// elsewhere.
pub proof fn lemma_write3_bit(buf: Seq<u8>, i: int, sym: u8, j: int)
    requires
        0 <= i,
    ensures
        write3(buf, i, sym).len() == buf.len(),
        bit_of(write3(buf, i, sym), j) == if i <= j < i + 3 && j / 8 < buf.len() {
            byte_bit(sym, (j - i) as u8) as int
        } else {
            bit_of(buf, j)
        },
{
    lemma_symbol_bits(sym);
    let b1 = with_bit(buf, i, byte_bit(sym, 0));
    let b2 = with_bit(b1, i + 1, byte_bit(sym, 1));
    lemma_with_bit(buf, i, byte_bit(sym, 0), j);
    lemma_with_bit(b1, i + 1, byte_bit(sym, 1), j);
    lemma_with_bit(b2, i + 2, byte_bit(sym, 2), j);
}

/// Reading where a symbol was written gives its low three bits back,
/// wherever the three bits lie inside the buffer.
pub proof fn lemma_read3_write3(buf: Seq<u8>, i: int, sym: u8)
    requires
        0 <= i,
        i + 3 <= 8 * buf.len(),
    ensures
        read3(write3(buf, i, sym), i) == (sym & 7) as int,
{
    lemma_symbol_bits(sym);
    lemma_write3_bit(buf, i, sym, i);
    lemma_write3_bit(buf, i, sym, i + 1);
    lemma_write3_bit(buf, i, sym, i + 2);
}

/// A symbol written at one place does not change what is read at a place
/// that shares no bit with it.
pub proof fn lemma_read3_write3_other(buf: Seq<u8>, i: int, sym: u8, j: int)
    requires
        0 <= i,
        j + 3 <= i || i + 3 <= j,
    ensures
        read3(write3(buf, i, sym), j) == read3(buf, j),
{
    lemma_write3_bit(buf, i, sym, j);
    lemma_write3_bit(buf, i, sym, j + 1);
    lemma_write3_bit(buf, i, sym, j + 2);
}

proof fn lemma_split_bits(b0: u8, b1: u8, b2: u8)
    by (bit_vector)
    requires
        b0 <= 1,
        b1 <= 1,
        b2 <= 1,
    ensures
        byte_bit((b0 + 2 * b1 + 4 * b2) as u8, 0) == b0,
        byte_bit((b0 + 2 * b1 + 4 * b2) as u8, 1) == b1,
        byte_bit((b0 + 2 * b1 + 4 * b2) as u8, 2) == b2,
{
}

/// Bit `t` of the symbol read at bit `i` is bit `i + t` of the buffer.
pub proof fn lemma_read3_bits(buf: Seq<u8>, i: int, t: int)
    requires
        0 <= t < 3,
    ensures
        byte_bit(read3(buf, i) as u8, t as u8) == bit_of(buf, i + t),
{
    lemma_bit_range(buf, i);
    lemma_bit_range(buf, i + 1);
    lemma_bit_range(buf, i + 2);
    lemma_split_bits(bit_of(buf, i) as u8, bit_of(buf, i + 1) as u8, bit_of(buf, i + 2) as u8);
}

/// Every bit of the byte 0 is 0.
pub proof fn lemma_zero_byte(k: u8)
    by (bit_vector)
    requires
        k < 8,
    ensures
        byte_bit(0, k) == 0,
{
}

/// Bit `8 * n + k` of a buffer is bit `k` of its byte `n`.
proof fn lemma_bit_in_byte(buf: Seq<u8>, n: int, k: u8)
    requires
        0 <= n < buf.len(),
        k < 8,
    ensures
        bit_of(buf, 8 * n + k) == byte_bit(buf[n], k),
{
    let i = 8 * n + k;
    assert(i / 8 == n && i % 8 == k);
}

/// A byte all of whose bits are 0 is 0.
pub proof fn lemma_zero_bits(buf: Seq<u8>, n: int)
    requires
        0 <= n < buf.len(),
        bit_of(buf, 8 * n + 0) == 0,
        bit_of(buf, 8 * n + 1) == 0,
        bit_of(buf, 8 * n + 2) == 0,
        bit_of(buf, 8 * n + 3) == 0,
        bit_of(buf, 8 * n + 4) == 0,
        bit_of(buf, 8 * n + 5) == 0,
        bit_of(buf, 8 * n + 6) == 0,
        bit_of(buf, 8 * n + 7) == 0,
    ensures
        buf[n] == 0,
{
    lemma_bit_in_byte(buf, n, 0);
    lemma_bit_in_byte(buf, n, 1);
    lemma_bit_in_byte(buf, n, 2);
    lemma_bit_in_byte(buf, n, 3);
    lemma_bit_in_byte(buf, n, 4);
    lemma_bit_in_byte(buf, n, 5);
    lemma_bit_in_byte(buf, n, 6);
    lemma_bit_in_byte(buf, n, 7);
    lemma_zero_byte(0);
    lemma_zero_byte(1);
    lemma_zero_byte(2);
    lemma_zero_byte(3);
    lemma_zero_byte(4);
    lemma_zero_byte(5);
    lemma_zero_byte(6);
    lemma_zero_byte(7);
    lemma_byte_by_bits(buf[n], 0);
}

/// Two buffers of one length that agree on every bit are equal.
pub proof fn lemma_equal_by_bits(a: Seq<u8>, b: Seq<u8>)
    requires
        a.len() == b.len(),
        forall|i: int| 0 <= i < 8 * a.len() ==> bit_of(a, i) == bit_of(b, i),
    ensures
        a == b,
{
    assert forall|n: int| 0 <= n < a.len() implies a[n] == b[n] by {
        lemma_bit_in_byte(a, n, 0);
        lemma_bit_in_byte(a, n, 1);
        lemma_bit_in_byte(a, n, 2);
        lemma_bit_in_byte(a, n, 3);
        lemma_bit_in_byte(a, n, 4);
        lemma_bit_in_byte(a, n, 5);
        lemma_bit_in_byte(a, n, 6);
        lemma_bit_in_byte(a, n, 7);
        lemma_bit_in_byte(b, n, 0);
        lemma_bit_in_byte(b, n, 1);
        lemma_bit_in_byte(b, n, 2);
        lemma_bit_in_byte(b, n, 3);
        lemma_bit_in_byte(b, n, 4);
        lemma_bit_in_byte(b, n, 5);
        lemma_bit_in_byte(b, n, 6);
        lemma_bit_in_byte(b, n, 7);
        assert(bit_of(a, 8 * n + 0) == bit_of(b, 8 * n + 0));
        assert(bit_of(a, 8 * n + 1) == bit_of(b, 8 * n + 1));
        assert(bit_of(a, 8 * n + 2) == bit_of(b, 8 * n + 2));
        assert(bit_of(a, 8 * n + 3) == bit_of(b, 8 * n + 3));
        assert(bit_of(a, 8 * n + 4) == bit_of(b, 8 * n + 4));
        assert(bit_of(a, 8 * n + 5) == bit_of(b, 8 * n + 5));
        assert(bit_of(a, 8 * n + 6) == bit_of(b, 8 * n + 6));
        assert(bit_of(a, 8 * n + 7) == bit_of(b, 8 * n + 7));
        lemma_byte_by_bits(a[n], b[n]);
    }
    assert(a =~= b);
}

/// Bit `bit_i + k` of `bytes`, for `k` below 8; 0 past the end.
fn get_bit(bytes: &[u8], bit_i: usize, k: usize) -> (bit: u8)
    requires
        k < 8,
    ensures
        bit == bit_of(bytes@, bit_i + k),
        bit <= 1,
{
    let off: usize = bit_i % 8 + k;
    let byte_i: usize = bit_i / 8 + off / 8;
    let shift: u8 = (off % 8) as u8;
    assert(byte_i == (bit_i + k) / 8 && shift == (bit_i + k) % 8);
    if byte_i < bytes.len() {
        let b: u8 = bytes[byte_i];
        proof {
            lemma_byte_bit_set(b, 0, 0, shift);
        }
        (b >> shift) & 1
    } else {
        0
    }
}

/// Sets bit `bit_i + k` of `bytes` to `v`, for `k` below 8; a bit past the
/// end is not written.
fn set_bit(bytes: &mut [u8], bit_i: usize, k: usize, v: u8)
    requires
        k < 8,
        v <= 1,
    ensures
        final(bytes)@ == with_bit(old(bytes)@, bit_i + k, v),
{
    let off: usize = bit_i % 8 + k;
    let byte_i: usize = bit_i / 8 + off / 8;
    let shift: u8 = (off % 8) as u8;
    assert(byte_i == (bit_i + k) / 8 && shift == (bit_i + k) % 8);
    if byte_i < bytes.len() {
        let mask: u8 = 1u8 << shift;
        let b: u8 = bytes[byte_i];
        if v == 1 {
            bytes[byte_i] = b | mask;
        } else {
            bytes[byte_i] = b & !mask;
        }
    }
}

/// Reads the 3-bit symbol at bits `bit_i`, `bit_i + 1`, `bit_i + 2`. Bits
/// past the end of `bytes` read as 0.
pub fn read_3bits(bytes: &[u8], bit_i: usize) -> (v: u8)
    ensures
        v == read3(bytes@, bit_i as int),
        v < 8,
{
    let b0 = get_bit(bytes, bit_i, 0);
    let b1 = get_bit(bytes, bit_i, 1);
    let b2 = get_bit(bytes, bit_i, 2);
    proof {
        lemma_compose_bits(b0, b1, b2);
    }
    b0 | (b1 << 1u8) | (b2 << 2u8)
}

/// Writes the low three bits of `sym` at bits `bit_i`, `bit_i + 1`,
/// `bit_i + 2`. Bits past the end of `bytes` are not written.
pub fn write_3bits(bytes: &mut [u8], bit_i: usize, sym: u8)
    ensures
        final(bytes)@ == write3(old(bytes)@, bit_i as int, sym),
        final(bytes)@.len() == old(bytes)@.len(),
{
    proof {
        lemma_symbol_bits(sym);
        lemma_write3_bit(old(bytes)@, bit_i as int, sym, 0);
    }
    set_bit(bytes, bit_i, 0, (sym >> 0u8) & 1);
    set_bit(bytes, bit_i, 1, (sym >> 1u8) & 1);
    set_bit(bytes, bit_i, 2, (sym >> 2u8) & 1);
}

} // verus!
