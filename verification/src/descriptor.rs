//! The record that describes one range of physical memory, and its layout in
//! the buffer that the firmware fills.
//!
//! A record is 40 bytes long: the memory type (4 bytes), padding (4 bytes),
//! the physical start (8), the virtual start (8), the number of pages (8)
//! and the attribute bits (8). The firmware may space the records further
//! apart than that; the distance from one record to the next is the stride,
//! and the bytes between the end of a record and the next stride boundary
//! carry no meaning.

use vstd::prelude::*;
use crate::bytes::{le_u32_at, le_u64_at, le_bytes_u32, le_bytes_u64};
use crate::bytes::{read_u32, read_u64, write_u32, write_u64};
use crate::bytes::{lemma_le_bytes_u32_len, lemma_le_bytes_u64_len};
use crate::bytes::{lemma_le_u32_in_range, lemma_le_u64_in_range};
use crate::bytes::{lemma_le_u32_of_same_bytes, lemma_le_u64_of_same_bytes};
use crate::bytes::{lemma_u32_read_of_written, lemma_u64_read_of_written};
use crate::bytes::{lemma_u32_written_of_read, lemma_u64_written_of_read};
use crate::error::LoaderError;

verus! {

/// The size of one page of physical memory, in bytes.
pub const PAGE_SIZE: u64 = 4096;

/// The length of a record, and so the smallest stride that a memory map can
/// have.
pub const DESCRIPTOR_SIZE: usize = 40;

/// The memory type of a range that is free for general use.
pub const CONVENTIONAL_MEMORY: u32 = 7;

/// The memory type of a range that holds the data of a loaded application.
pub const LOADER_DATA: u32 = 2;

/// What the firmware believed of one contiguous range of physical memory
/// when the memory map was read.
#[derive(Clone, Copy, Debug, PartialEq, Eq, Structural)]
pub struct MemoryDescriptor {
    /// The firmware's classification of the range.
    pub memory_type: u32,
    /// The four bytes that align the addresses; kept so that a record can be
    /// written back as it was read.
    pub reserved_pad: u32,
    /// The first physical address of the range.
    pub physical_start: u64,
    /// The first virtual address of the range.
    pub virtual_start: u64,
    /// The length of the range, in pages.
    pub page_count: u64,
    /// The capabilities of the range, one bit each.
    pub attribute_bits: u64,
}

/// The record whose 40 bytes start at offset `at` of `buffer`.
pub open spec fn decoded_at(buffer: Seq<u8>, at: int) -> MemoryDescriptor
    recommends
        0 <= at,
        at + DESCRIPTOR_SIZE <= buffer.len(),
{
    MemoryDescriptor {
        memory_type: le_u32_at(buffer, at) as u32,
        reserved_pad: le_u32_at(buffer, at + 4) as u32,
        physical_start: le_u64_at(buffer, at + 8) as u64,
        virtual_start: le_u64_at(buffer, at + 16) as u64,
        page_count: le_u64_at(buffer, at + 24) as u64,
        attribute_bits: le_u64_at(buffer, at + 32) as u64,
    }
}

/// The 40 bytes that stand for `descriptor`.
pub open spec fn encoded(descriptor: MemoryDescriptor) -> Seq<u8> {
    le_bytes_u32(descriptor.memory_type) + le_bytes_u32(descriptor.reserved_pad) + le_bytes_u64(
        descriptor.physical_start,
    ) + le_bytes_u64(descriptor.virtual_start) + le_bytes_u64(descriptor.page_count)
        + le_bytes_u64(descriptor.attribute_bits)
}

/// Whether a buffer of `buffer_len` bytes is a memory map of `count` records
/// that lie `stride` bytes apart: the stride has room for a record, and the
/// records fill the buffer exactly.
pub open spec fn is_memory_map(buffer_len: int, stride: int, count: int) -> bool {
    &&& DESCRIPTOR_SIZE <= stride
    &&& 0 <= count
    &&& buffer_len == count * stride
}

/// The records of a memory map, in the order of the buffer: record `i` starts
/// at offset `i * stride`.
pub open spec fn parsed(buffer: Seq<u8>, stride: int, count: int) -> Seq<MemoryDescriptor> {
    Seq::new(count as nat, |i: int| decoded_at(buffer, i * stride))
}

/// The bytes of one record in a memory map of stride `stride`: the record,
/// then zeroes up to the stride.
pub open spec fn padded(descriptor: MemoryDescriptor, stride: int) -> Seq<u8> {
    encoded(descriptor) + Seq::new((stride - DESCRIPTOR_SIZE) as nat, |i: int| 0u8)
}

/// The memory map of stride `stride` that holds `descriptors` in order.
pub open spec fn serialized(descriptors: Seq<MemoryDescriptor>, stride: int) -> Seq<u8>
    decreases descriptors.len(),
{
    if descriptors.len() == 0 {
        Seq::empty()
    } else {
        serialized(descriptors.drop_last(), stride) + padded(descriptors.last(), stride)
    }
}

impl MemoryDescriptor {
    /// Whether the range is free for general use.
    pub open spec fn spec_is_conventional(&self) -> bool {
        self.memory_type == CONVENTIONAL_MEMORY
    }

    /// Whether the range is free for general use.
    #[verifier::when_used_as_spec(spec_is_conventional)]
    pub fn is_conventional(&self) -> (conventional: bool)
        ensures
            conventional == self.spec_is_conventional(),
    {
        self.memory_type == CONVENTIONAL_MEMORY
    }

    /// Reads the record at the start of `bytes`.
    ///
    /// Fails with `MalformedMap` exactly when `bytes` is shorter than a
    /// record. Bytes after the record are ignored.
    pub fn decode(bytes: &[u8]) -> (result: Result<MemoryDescriptor, LoaderError>)
        ensures
            bytes.len() >= DESCRIPTOR_SIZE ==> result == Ok::<MemoryDescriptor, LoaderError>(
                decoded_at(bytes@, 0),
            ),
            bytes.len() < DESCRIPTOR_SIZE ==> result == Err::<MemoryDescriptor, LoaderError>(
                LoaderError::MalformedMap,
            ),
    {
        if bytes.len() < DESCRIPTOR_SIZE {
            Err(LoaderError::MalformedMap)
        } else {
            Ok(decode_at(bytes, 0))
        }
    }

    /// Writes the record as its 40 bytes.
    pub fn encode(&self) -> (bytes: Vec<u8>)
        ensures
            bytes@ == encoded(*self),
            bytes.len() == DESCRIPTOR_SIZE,
    {
        let mut bytes: Vec<u8> = Vec::new();
        append_encoded(&mut bytes, self);
        proof {
            lemma_encoded_len(*self);
        }
        bytes
    }
}

/// Reads the record that starts at offset `at`.
fn decode_at(buffer: &[u8], at: usize) -> (descriptor: MemoryDescriptor)
    requires
        at + DESCRIPTOR_SIZE <= buffer.len(),
    ensures
        descriptor == decoded_at(buffer@, at as int),
{
    proof {
        lemma_le_u32_in_range(buffer@, at as int);
        lemma_le_u32_in_range(buffer@, at + 4);
        lemma_le_u64_in_range(buffer@, at + 8);
        lemma_le_u64_in_range(buffer@, at + 16);
        lemma_le_u64_in_range(buffer@, at + 24);
        lemma_le_u64_in_range(buffer@, at + 32);
    }
    MemoryDescriptor {
        memory_type: read_u32(buffer, at),
        reserved_pad: read_u32(buffer, at + 4),
        physical_start: read_u64(buffer, at + 8),
        virtual_start: read_u64(buffer, at + 16),
        page_count: read_u64(buffer, at + 24),
        attribute_bits: read_u64(buffer, at + 32),
    }
}

/// Appends the 40 bytes of `descriptor` to `out`.
fn append_encoded(out: &mut Vec<u8>, descriptor: &MemoryDescriptor)
    ensures
        final(out)@ == old(out)@ + encoded(*descriptor),
{
    write_u32(out, descriptor.memory_type);
    write_u32(out, descriptor.reserved_pad);
    write_u64(out, descriptor.physical_start);
    write_u64(out, descriptor.virtual_start);
    write_u64(out, descriptor.page_count);
    write_u64(out, descriptor.attribute_bits);
    assert(out@ =~= old(out)@ + encoded(*descriptor));
}

/// A record is 40 bytes long.
pub proof fn lemma_encoded_len(descriptor: MemoryDescriptor)
    ensures
        encoded(descriptor).len() == DESCRIPTOR_SIZE,
{
    lemma_le_bytes_u32_len(descriptor.memory_type);
    lemma_le_bytes_u32_len(descriptor.reserved_pad);
    lemma_le_bytes_u64_len(descriptor.physical_start);
    lemma_le_bytes_u64_len(descriptor.virtual_start);
    lemma_le_bytes_u64_len(descriptor.page_count);
    lemma_le_bytes_u64_len(descriptor.attribute_bits);
}

/// Writing a record and reading it back gives the record: no field is lost
/// or altered by the layout.
pub proof fn lemma_decode_of_encode(descriptor: MemoryDescriptor)
    ensures
        decoded_at(encoded(descriptor), 0) == descriptor,
{
    let bytes = encoded(descriptor);
    let f0 = le_bytes_u32(descriptor.memory_type);
    let f1 = le_bytes_u32(descriptor.reserved_pad);
    let f2 = le_bytes_u64(descriptor.physical_start);
    let f3 = le_bytes_u64(descriptor.virtual_start);
    let f4 = le_bytes_u64(descriptor.page_count);
    let f5 = le_bytes_u64(descriptor.attribute_bits);
    lemma_le_bytes_u32_len(descriptor.memory_type);
    lemma_le_bytes_u32_len(descriptor.reserved_pad);
    lemma_le_bytes_u64_len(descriptor.physical_start);
    lemma_le_bytes_u64_len(descriptor.virtual_start);
    lemma_le_bytes_u64_len(descriptor.page_count);
    lemma_le_bytes_u64_len(descriptor.attribute_bits);
    assert(le_u32_at(bytes, 0) == descriptor.memory_type) by {
        assert(bytes.subrange(0, 4) =~= f0.subrange(0, 4));
        lemma_le_u32_of_same_bytes(bytes, 0, f0, 0);
        lemma_u32_read_of_written(descriptor.memory_type);
    }
    assert(le_u32_at(bytes, 4) == descriptor.reserved_pad) by {
        assert(bytes.subrange(4, 8) =~= f1.subrange(0, 4));
        lemma_le_u32_of_same_bytes(bytes, 4, f1, 0);
        lemma_u32_read_of_written(descriptor.reserved_pad);
    }
    assert(le_u64_at(bytes, 8) == descriptor.physical_start) by {
        assert(bytes.subrange(8, 16) =~= f2.subrange(0, 8));
        lemma_le_u64_of_same_bytes(bytes, 8, f2, 0);
        lemma_u64_read_of_written(descriptor.physical_start);
    }
    assert(le_u64_at(bytes, 16) == descriptor.virtual_start) by {
        assert(bytes.subrange(16, 24) =~= f3.subrange(0, 8));
        lemma_le_u64_of_same_bytes(bytes, 16, f3, 0);
        lemma_u64_read_of_written(descriptor.virtual_start);
    }
    assert(le_u64_at(bytes, 24) == descriptor.page_count) by {
        assert(bytes.subrange(24, 32) =~= f4.subrange(0, 8));
        lemma_le_u64_of_same_bytes(bytes, 24, f4, 0);
        lemma_u64_read_of_written(descriptor.page_count);
    }
    assert(le_u64_at(bytes, 32) == descriptor.attribute_bits) by {
        assert(bytes.subrange(32, 40) =~= f5.subrange(0, 8));
        lemma_le_u64_of_same_bytes(bytes, 32, f5, 0);
        lemma_u64_read_of_written(descriptor.attribute_bits);
    }
}

/// Six adjoining pieces of a buffer, of 4, 4, 8, 8, 8 and 8 bytes, make up
/// the 40 bytes from the start of the first piece.
proof fn lemma_fields_make_record(
    buffer: Seq<u8>,
    at: int,
    f0: Seq<u8>,
    f1: Seq<u8>,
    f2: Seq<u8>,
    f3: Seq<u8>,
    f4: Seq<u8>,
    f5: Seq<u8>,
)
    requires
        0 <= at,
        at + 40 <= buffer.len(),
        f0 == buffer.subrange(at, at + 4),
        f1 == buffer.subrange(at + 4, at + 8),
        f2 == buffer.subrange(at + 8, at + 16),
        f3 == buffer.subrange(at + 16, at + 24),
        f4 == buffer.subrange(at + 24, at + 32),
        f5 == buffer.subrange(at + 32, at + 40),
    ensures
        f0 + f1 + f2 + f3 + f4 + f5 == buffer.subrange(at, at + 40),
{
    assert(f0 + f1 + f2 + f3 + f4 + f5 =~= buffer.subrange(at, at + 40));
}

/// Reading a record and writing it back reproduces the 40 bytes that were
/// read, wherever in a buffer they stand.
pub proof fn lemma_encode_of_decode(buffer: Seq<u8>, at: int)
    requires
        0 <= at,
        at + DESCRIPTOR_SIZE <= buffer.len(),
    ensures
        encoded(decoded_at(buffer, at)) == buffer.subrange(at, at + DESCRIPTOR_SIZE),
{
    let descriptor = decoded_at(buffer, at);
    let f0 = le_bytes_u32(descriptor.memory_type);
    let f1 = le_bytes_u32(descriptor.reserved_pad);
    let f2 = le_bytes_u64(descriptor.physical_start);
    let f3 = le_bytes_u64(descriptor.virtual_start);
    let f4 = le_bytes_u64(descriptor.page_count);
    let f5 = le_bytes_u64(descriptor.attribute_bits);
    assert(f0 == buffer.subrange(at, at + 4)) by {
        lemma_u32_written_of_read(buffer, at);
    }
    assert(f1 == buffer.subrange(at + 4, at + 8)) by {
        lemma_u32_written_of_read(buffer, at + 4);
    }
    assert(f2 == buffer.subrange(at + 8, at + 16)) by {
        lemma_u64_written_of_read(buffer, at + 8);
    }
    assert(f3 == buffer.subrange(at + 16, at + 24)) by {
        lemma_u64_written_of_read(buffer, at + 16);
    }
    assert(f4 == buffer.subrange(at + 24, at + 32)) by {
        lemma_u64_written_of_read(buffer, at + 24);
    }
    assert(f5 == buffer.subrange(at + 32, at + 40)) by {
        lemma_u64_written_of_read(buffer, at + 32);
    }
    lemma_fields_make_record(buffer, at, f0, f1, f2, f3, f4, f5);
}

/// Reads the `count` records of a memory map whose records lie `stride`
/// bytes apart, copying each into a record of its own.
///
/// Fails with `MalformedMap` exactly when the buffer is no memory map of that
/// stride and count: the stride is shorter than a record, the length of the
/// buffer is no multiple of the stride, or it is not `count` strides long.
pub fn parse_descriptors(buffer: &[u8], stride: usize, count: usize) -> (result: Result<
    Vec<MemoryDescriptor>,
    LoaderError,
>)
    ensures
        is_memory_map(buffer.len() as int, stride as int, count as int) ==> result is Ok
            && result->Ok_0@ == parsed(buffer@, stride as int, count as int),
        !is_memory_map(buffer.len() as int, stride as int, count as int) ==> result == Err::<
            Vec<MemoryDescriptor>,
            LoaderError,
        >(LoaderError::MalformedMap),
{
    if stride < DESCRIPTOR_SIZE {
        return Err(LoaderError::MalformedMap);
    }
    let whole: bool = buffer.len() % stride == 0 && buffer.len() / stride == count;
    proof {
        lemma_whole_strides(buffer.len() as int, stride as int, count as int);
    }
    if !whole {
        return Err(LoaderError::MalformedMap);
    }
    let mut descriptors: Vec<MemoryDescriptor> = Vec::new();
    let mut index: usize = 0;
    let mut at: usize = 0;
    while index < count
        invariant
            DESCRIPTOR_SIZE <= stride,
            buffer.len() == count * stride,
            index <= count,
            at == index * stride,
            descriptors@ == parsed(buffer@, stride as int, index as int),
        decreases count - index,
    {
        proof {
            lemma_stride_in_buffer(index as int, count as int, stride as int);
        }
        let descriptor = decode_at(buffer, at);
        descriptors.push(descriptor);
        index = index + 1;
        at = at + stride;
        assert(descriptors@ =~= parsed(buffer@, stride as int, index as int));
    }
    Ok(descriptors)
}

/// Writes `descriptors` as a memory map whose records lie `stride` bytes
/// apart, with zeroes between the end of a record and the next one.
///
/// Fails with `MalformedMap` exactly when the stride is shorter than a
/// record.
pub fn serialize_descriptors(descriptors: &[MemoryDescriptor], stride: usize) -> (result: Result<
    Vec<u8>,
    LoaderError,
>)
    ensures
        DESCRIPTOR_SIZE <= stride ==> result is Ok && result->Ok_0@ == serialized(
            descriptors@,
            stride as int,
        ),
        stride < DESCRIPTOR_SIZE ==> result == Err::<Vec<u8>, LoaderError>(
            LoaderError::MalformedMap,
        ),
{
    if stride < DESCRIPTOR_SIZE {
        return Err(LoaderError::MalformedMap);
    }
    let mut buffer: Vec<u8> = Vec::new();
    let mut index: usize = 0;
    while index < descriptors.len()
        invariant
            DESCRIPTOR_SIZE <= stride,
            index <= descriptors.len(),
            buffer@ == serialized(descriptors@.take(index as int), stride as int),
        decreases descriptors.len() - index,
    {
        let ghost before = buffer@;
        append_encoded(&mut buffer, &descriptors[index]);
        let mut filled: usize = DESCRIPTOR_SIZE;
        while filled < stride
            invariant
                DESCRIPTOR_SIZE <= filled <= stride,
                index < descriptors.len(),
                buffer@ == before + encoded(descriptors@[index as int]) + Seq::new(
                    (filled - DESCRIPTOR_SIZE) as nat,
                    |i: int| 0u8,
                ),
            decreases stride - filled,
        {
            buffer.push(0u8);
            filled = filled + 1;
            assert(buffer@ =~= before + encoded(descriptors@[index as int]) + Seq::new(
                (filled - DESCRIPTOR_SIZE) as nat,
                |i: int| 0u8,
            ));
        }
        index = index + 1;
        proof {
            let done = descriptors@.take(index as int);
            assert(done.drop_last() =~= descriptors@.take(index - 1));
            assert(buffer@ =~= serialized(done.drop_last(), stride as int) + padded(
                done.last(),
                stride as int,
            ));
        }
    }
    assert(descriptors@.take(index as int) =~= descriptors@);
    Ok(buffer)
}

/// A length is `count` strides exactly when the stride divides it `count`
/// times with nothing left over.
proof fn lemma_whole_strides(len: int, stride: int, count: int)
    by (nonlinear_arith)
    requires
        0 <= len,
        0 < stride,
        0 <= count,
    ensures
        (len % stride == 0 && len / stride == count) <==> len == count * stride,
{
}

/// Record `index` of a map of `count` records lies within the map, and the
/// next one starts one stride further.
proof fn lemma_stride_in_buffer(index: int, count: int, stride: int)
    by (nonlinear_arith)
    requires
        0 <= index < count,
        0 <= stride,
    ensures
        0 <= index * stride,
        index * stride + stride <= count * stride,
        (index + 1) * stride == index * stride + stride,
{
}

/// A record is read from its own 40 bytes alone: two buffers that agree on
/// them give the same record.
pub proof fn lemma_decode_reads_record_only(a: Seq<u8>, at: int, b: Seq<u8>, bt: int)
    requires
        0 <= at,
        at + DESCRIPTOR_SIZE <= a.len(),
        0 <= bt,
        bt + DESCRIPTOR_SIZE <= b.len(),
        a.subrange(at, at + DESCRIPTOR_SIZE) == b.subrange(bt, bt + DESCRIPTOR_SIZE),
    ensures
        decoded_at(a, at) == decoded_at(b, bt),
{
    lemma_decode_of_record(a, at);
    lemma_decode_of_record(b, bt);
}

/// The record at an offset of a buffer is the record at the start of the 40
/// bytes that begin there.
proof fn lemma_decode_of_record(buffer: Seq<u8>, at: int)
    requires
        0 <= at,
        at + DESCRIPTOR_SIZE <= buffer.len(),
    ensures
        decoded_at(buffer, at) == decoded_at(buffer.subrange(at, at + DESCRIPTOR_SIZE), 0),
{
    let record = buffer.subrange(at, at + 40);
    assert(record.subrange(0, 4) =~= buffer.subrange(at, at + 4));
    assert(record.subrange(4, 8) =~= buffer.subrange(at + 4, at + 8));
    assert(record.subrange(8, 16) =~= buffer.subrange(at + 8, at + 16));
    assert(record.subrange(16, 24) =~= buffer.subrange(at + 16, at + 24));
    assert(record.subrange(24, 32) =~= buffer.subrange(at + 24, at + 32));
    assert(record.subrange(32, 40) =~= buffer.subrange(at + 32, at + 40));
    lemma_le_u32_of_same_bytes(record, 0, buffer, at);
    lemma_le_u32_of_same_bytes(record, 4, buffer, at + 4);
    lemma_le_u64_of_same_bytes(record, 8, buffer, at + 8);
    lemma_le_u64_of_same_bytes(record, 16, buffer, at + 16);
    lemma_le_u64_of_same_bytes(record, 24, buffer, at + 24);
    lemma_le_u64_of_same_bytes(record, 32, buffer, at + 32);
}

/// A memory map of `n` records at stride `stride` is `n * stride` bytes long.
pub proof fn lemma_serialized_len(descriptors: Seq<MemoryDescriptor>, stride: int)
    requires
        DESCRIPTOR_SIZE <= stride,
    ensures
        serialized(descriptors, stride).len() == descriptors.len() * stride,
    decreases descriptors.len(),
{
    if descriptors.len() > 0 {
        lemma_serialized_len(descriptors.drop_last(), stride);
        lemma_encoded_len(descriptors.last());
        let n = descriptors.len() as int;
        assert((n - 1) * stride + stride == n * stride) by (nonlinear_arith);
    } else {
        assert(0 * stride == 0);
    }
}

/// Parsing what was serialized gives the records that were serialized, at
/// any stride that has room for a record.
pub proof fn lemma_parse_of_serialize(descriptors: Seq<MemoryDescriptor>, stride: int)
    requires
        DESCRIPTOR_SIZE <= stride,
    ensures
        is_memory_map(
            serialized(descriptors, stride).len() as int,
            stride,
            descriptors.len() as int,
        ),
        parsed(serialized(descriptors, stride), stride, descriptors.len() as int) == descriptors,
    decreases descriptors.len(),
{
    let n = descriptors.len() as int;
    let buffer = serialized(descriptors, stride);
    lemma_serialized_len(descriptors, stride);
    if n > 0 {
        let front = descriptors.drop_last();
        let head = serialized(front, stride);
        lemma_parse_of_serialize(front, stride);
        lemma_serialized_len(front, stride);
        lemma_encoded_len(descriptors.last());
        assert(buffer == head + padded(descriptors.last(), stride));
        assert forall|i: int| 0 <= i < n implies decoded_at(buffer, i * stride)
            == descriptors[i] by {
            if i < n - 1 {
                lemma_stride_in_buffer(i, n - 1, stride);
                assert(buffer.subrange(i * stride, i * stride + 40) =~= head.subrange(
                    i * stride,
                    i * stride + 40,
                ));
                lemma_decode_reads_record_only(buffer, i * stride, head, i * stride);
                assert(parsed(head, stride, n - 1)[i] == decoded_at(head, i * stride));
                assert(front[i] == descriptors[i]);
            } else {
                assert(buffer.subrange(i * stride, i * stride + 40) =~= encoded(
                    descriptors.last(),
                ).subrange(0, 40));
                lemma_decode_reads_record_only(
                    buffer,
                    i * stride,
                    encoded(descriptors.last()),
                    0,
                );
                lemma_decode_of_encode(descriptors.last());
            }
        }
        assert(parsed(buffer, stride, n) =~= descriptors);
    } else {
        assert(parsed(buffer, stride, n) =~= descriptors);
    }
}

/// Serializing the first `count` records that were parsed from a buffer, at
/// the stride of a bare record, reproduces the bytes they were parsed from.
pub proof fn lemma_serialize_of_parse_prefix(buffer: Seq<u8>, count: int)
    requires
        0 <= count,
        count * DESCRIPTOR_SIZE <= buffer.len(),
    ensures
        serialized(parsed(buffer, DESCRIPTOR_SIZE as int, count), DESCRIPTOR_SIZE as int)
            == buffer.take(count * DESCRIPTOR_SIZE),
    decreases count,
{
    let records = parsed(buffer, 40, count);
    if count > 0 {
        lemma_serialize_of_parse_prefix(buffer, count - 1);
        assert(records.drop_last() =~= parsed(buffer, 40, count - 1));
        let last = decoded_at(buffer, (count - 1) * 40);
        assert(records.last() == last);
        lemma_encode_of_decode(buffer, (count - 1) * 40);
        lemma_encoded_len(last);
        assert(padded(last, 40) =~= buffer.subrange((count - 1) * 40, count * 40));
        assert(serialized(records, 40) == serialized(records.drop_last(), 40) + padded(last, 40));
        assert(buffer.take((count - 1) * 40) + buffer.subrange((count - 1) * 40, count * 40)
            =~= buffer.take(count * 40));
    } else {
        assert(serialized(records, 40) =~= buffer.take(0));
    }
}

/// Parsing a memory map of bare records and serializing the result at the
/// same stride reproduces the map byte for byte.
pub proof fn lemma_serialize_of_parse(buffer: Seq<u8>, count: int)
    requires
        is_memory_map(buffer.len() as int, DESCRIPTOR_SIZE as int, count),
    ensures
        serialized(parsed(buffer, DESCRIPTOR_SIZE as int, count), DESCRIPTOR_SIZE as int)
            == buffer,
{
    lemma_serialize_of_parse_prefix(buffer, count);
    assert(buffer.take(count * 40) =~= buffer);
}

} // verus!
