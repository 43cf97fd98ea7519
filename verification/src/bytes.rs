//! Little-endian integers inside a byte buffer.
//!
//! The firmware lays its records out in the byte order of the machine it runs
//! on, which is little-endian on every platform this boot stage supports. An
//! integer is therefore the sum of its bytes, each weighted by a power of 256
//! that grows with the byte's offset.

use vstd::prelude::*;

verus! {

/// The value of the four bytes of `bytes` that start at `at`.
#[verifier::opaque]
pub open spec fn le_u32_at(bytes: Seq<u8>, at: int) -> int
    recommends
        0 <= at,
        at + 4 <= bytes.len(),
{
    bytes[at] as int + bytes[at + 1] as int * 0x100 + bytes[at + 2] as int * 0x1_0000 + bytes[at
        + 3] as int * 0x100_0000
}

/// The value of the eight bytes of `bytes` that start at `at`.
#[verifier::opaque]
pub open spec fn le_u64_at(bytes: Seq<u8>, at: int) -> int
    recommends
        0 <= at,
        at + 8 <= bytes.len(),
{
    le_u32_at(bytes, at) + le_u32_at(bytes, at + 4) * 0x1_0000_0000
}

/// The four bytes that stand for `value`, lowest first.
#[verifier::opaque]
pub open spec fn le_bytes_u32(value: u32) -> Seq<u8> {
    seq![
        (value % 0x100) as u8,
        (value / 0x100 % 0x100) as u8,
        (value / 0x1_0000 % 0x100) as u8,
        (value / 0x100_0000 % 0x100) as u8,
    ]
}

/// The eight bytes that stand for `value`, lowest first.
#[verifier::opaque]
pub open spec fn le_bytes_u64(value: u64) -> Seq<u8> {
    le_bytes_u32((value % 0x1_0000_0000) as u32) + le_bytes_u32((value / 0x1_0000_0000) as u32)
}

/// A 32-bit value is written as four bytes.
pub proof fn lemma_le_bytes_u32_len(value: u32)
    ensures
        le_bytes_u32(value).len() == 4,
{
    reveal(le_bytes_u32);
}

/// A 64-bit value is written as eight bytes.
pub proof fn lemma_le_bytes_u64_len(value: u64)
    ensures
        le_bytes_u64(value).len() == 8,
{
    reveal(le_bytes_u64);
    lemma_le_bytes_u32_len((value % 0x1_0000_0000) as u32);
    lemma_le_bytes_u32_len((value / 0x1_0000_0000) as u32);
}

/// Four bytes always stand for a value that fits in 32 bits.
pub proof fn lemma_le_u32_in_range(bytes: Seq<u8>, at: int)
    requires
        0 <= at,
        at + 4 <= bytes.len(),
    ensures
        0 <= le_u32_at(bytes, at) <= u32::MAX,
{
    reveal(le_u32_at);
}

/// Eight bytes always stand for a value that fits in 64 bits.
pub proof fn lemma_le_u64_in_range(bytes: Seq<u8>, at: int)
    requires
        0 <= at,
        at + 8 <= bytes.len(),
    ensures
        0 <= le_u64_at(bytes, at) <= u64::MAX,
{
    reveal(le_u64_at);
    lemma_le_u32_in_range(bytes, at);
    lemma_le_u32_in_range(bytes, at + 4);
}

/// The value of four bytes depends on those four bytes alone.
pub proof fn lemma_le_u32_of_same_bytes(a: Seq<u8>, at: int, b: Seq<u8>, bt: int)
    requires
        0 <= at,
        at + 4 <= a.len(),
        0 <= bt,
        bt + 4 <= b.len(),
        a.subrange(at, at + 4) == b.subrange(bt, bt + 4),
    ensures
        le_u32_at(a, at) == le_u32_at(b, bt),
{
    reveal(le_u32_at);
    let piece = a.subrange(at, at + 4);
    let other = b.subrange(bt, bt + 4);
    assert(piece[0] == a[at] && piece[1] == a[at + 1] && piece[2] == a[at + 2] && piece[3] == a[at
        + 3]);
    assert(other[0] == b[bt] && other[1] == b[bt + 1] && other[2] == b[bt + 2] && other[3] == b[bt
        + 3]);
}

/// The value of eight bytes depends on those eight bytes alone.
pub proof fn lemma_le_u64_of_same_bytes(a: Seq<u8>, at: int, b: Seq<u8>, bt: int)
    requires
        0 <= at,
        at + 8 <= a.len(),
        0 <= bt,
        bt + 8 <= b.len(),
        a.subrange(at, at + 8) == b.subrange(bt, bt + 8),
    ensures
        le_u64_at(a, at) == le_u64_at(b, bt),
{
    reveal(le_u64_at);
    let piece = a.subrange(at, at + 8);
    let other = b.subrange(bt, bt + 8);
    assert(a.subrange(at, at + 4) =~= piece.subrange(0, 4));
    assert(b.subrange(bt, bt + 4) =~= other.subrange(0, 4));
    assert(a.subrange(at + 4, at + 8) =~= piece.subrange(4, 8));
    assert(b.subrange(bt + 4, bt + 8) =~= other.subrange(4, 8));
    lemma_le_u32_of_same_bytes(a, at, b, bt);
    lemma_le_u32_of_same_bytes(a, at + 4, b, bt + 4);
}

/// Reading back the bytes written for a 32-bit value gives that value.
pub proof fn lemma_u32_read_of_written(value: u32)
    ensures
        le_u32_at(le_bytes_u32(value), 0) == value,
{
    reveal(le_u32_at);
    reveal(le_bytes_u32);
}

/// Writing the value read from four bytes gives those four bytes.
pub proof fn lemma_u32_written_of_read(bytes: Seq<u8>, at: int)
    requires
        0 <= at,
        at + 4 <= bytes.len(),
    ensures
        le_bytes_u32(le_u32_at(bytes, at) as u32) == bytes.subrange(at, at + 4),
{
    reveal(le_u32_at);
    reveal(le_bytes_u32);
    let value = le_u32_at(bytes, at);
    let b0 = bytes[at] as int;
    let b1 = bytes[at + 1] as int;
    let b2 = bytes[at + 2] as int;
    let b3 = bytes[at + 3] as int;
    assert(value == b0 + 0x100 * (b1 + 0x100 * (b2 + 0x100 * b3)));
    assert(value % 0x100 == b0);
    assert(value / 0x100 == b1 + 0x100 * (b2 + 0x100 * b3));
    assert(value / 0x100 % 0x100 == b1);
    assert(value / 0x1_0000 == b2 + 0x100 * b3);
    assert(value / 0x1_0000 % 0x100 == b2);
    assert(value / 0x100_0000 == b3);
    assert(le_bytes_u32(value as u32) =~= bytes.subrange(at, at + 4));
}

/// Reading back the bytes written for a 64-bit value gives that value.
pub proof fn lemma_u64_read_of_written(value: u64)
    ensures
        le_u64_at(le_bytes_u64(value), 0) == value,
{
    reveal(le_u64_at);
    reveal(le_bytes_u64);
    let low = (value % 0x1_0000_0000) as u32;
    let high = (value / 0x1_0000_0000) as u32;
    let written = le_bytes_u64(value);
    lemma_le_bytes_u32_len(low);
    lemma_le_bytes_u32_len(high);
    lemma_u32_read_of_written(low);
    lemma_u32_read_of_written(high);
    assert(written.subrange(0, 4) =~= le_bytes_u32(low).subrange(0, 4));
    assert(written.subrange(4, 8) =~= le_bytes_u32(high).subrange(0, 4));
    lemma_le_u32_of_same_bytes(written, 0, le_bytes_u32(low), 0);
    lemma_le_u32_of_same_bytes(written, 4, le_bytes_u32(high), 0);
}

/// Writing the value read from eight bytes gives those eight bytes.
pub proof fn lemma_u64_written_of_read(bytes: Seq<u8>, at: int)
    requires
        0 <= at,
        at + 8 <= bytes.len(),
    ensures
        le_bytes_u64(le_u64_at(bytes, at) as u64) == bytes.subrange(at, at + 8),
{
    reveal(le_u64_at);
    reveal(le_bytes_u64);
    let low = le_u32_at(bytes, at);
    let high = le_u32_at(bytes, at + 4);
    let value = le_u64_at(bytes, at);
    lemma_le_u32_in_range(bytes, at);
    lemma_le_u32_in_range(bytes, at + 4);
    assert(value % 0x1_0000_0000 == low);
    assert(value / 0x1_0000_0000 == high);
    lemma_u32_written_of_read(bytes, at);
    lemma_u32_written_of_read(bytes, at + 4);
    assert(le_bytes_u64(value as u64) =~= bytes.subrange(at, at + 8));
}

/// Reads the 32-bit integer that starts at offset `at`.
pub(crate) fn read_u32(bytes: &[u8], at: usize) -> (value: u32)
    requires
        at + 4 <= bytes.len(),
    ensures
        value == le_u32_at(bytes@, at as int),
{
    proof {
        reveal(le_u32_at);
    }
    let b0: u32 = bytes[at] as u32;
    let b1: u32 = bytes[at + 1] as u32;
    let b2: u32 = bytes[at + 2] as u32;
    let b3: u32 = bytes[at + 3] as u32;
    b0 + b1 * 0x100 + b2 * 0x1_0000 + b3 * 0x100_0000
}

/// Reads the 64-bit integer that starts at offset `at`.
pub(crate) fn read_u64(bytes: &[u8], at: usize) -> (value: u64)
    requires
        at + 8 <= bytes.len(),
    ensures
        value == le_u64_at(bytes@, at as int),
{
    proof {
        reveal(le_u64_at);
        lemma_le_u32_in_range(bytes@, at as int);
        lemma_le_u32_in_range(bytes@, at + 4);
    }
    let low: u64 = read_u32(bytes, at) as u64;
    let high: u64 = read_u32(bytes, at + 4) as u64;
    low + high * 0x1_0000_0000
}

/// Appends the four bytes of `value` to `out`.
pub(crate) fn write_u32(out: &mut Vec<u8>, value: u32)
    ensures
        final(out)@ == old(out)@ + le_bytes_u32(value),
{
    proof {
        reveal(le_bytes_u32);
    }
    out.push((value % 0x100) as u8);
    out.push((value / 0x100 % 0x100) as u8);
    out.push((value / 0x1_0000 % 0x100) as u8);
    out.push((value / 0x100_0000 % 0x100) as u8);
    assert(out@ =~= old(out)@ + le_bytes_u32(value));
}

/// Appends the eight bytes of `value` to `out`.
pub(crate) fn write_u64(out: &mut Vec<u8>, value: u64)
    ensures
        final(out)@ == old(out)@ + le_bytes_u64(value),
{
    proof {
        reveal(le_bytes_u64);
    }
    write_u32(out, (value % 0x1_0000_0000) as u32);
    write_u32(out, (value / 0x1_0000_0000) as u32);
    assert(out@ =~= old(out)@ + le_bytes_u64(value));
}

} // verus!
