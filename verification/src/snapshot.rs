//! A snapshot of the firmware's memory map: the records in snapshot order,
//! the stride they were read at, and the token that ties the snapshot to the
//! state of the firmware's heap at the moment it was taken.
//!
//! The token is only good for firmware calls made before the firmware
//! allocates again. The snapshot cannot know whether that has happened; it
//! only carries the token, and the firmware judges it.

use vstd::prelude::*;
use crate::descriptor::{MemoryDescriptor, DESCRIPTOR_SIZE};
use crate::descriptor::{parsed, parse_descriptors};
use crate::error::LoaderError;
use crate::order::{ascending, ordered, is_stable_ordering_of};
use crate::order::{lemma_ordered_is_stable, sort_by_physical_start};

verus! {

/// What a snapshot holds, as plain values.
pub struct SnapshotView {
    /// The records, ascending by physical start.
    pub descriptors: Seq<MemoryDescriptor>,
    /// The stride at which the firmware laid the records out.
    pub descriptor_size: usize,
    /// The token that the firmware gave out with this map.
    pub freshness_token: u64,
}

/// The snapshot that the firmware's reply stands for: the records of the
/// buffer in snapshot order, with the stride and the token of the reply.
pub open spec fn captured(buffer: Seq<u8>, descriptor_size: usize, freshness_token: u64)
    -> SnapshotView {
    SnapshotView {
        descriptors: ordered(
            parsed(buffer, descriptor_size as int, buffer.len() as int / descriptor_size as int),
        ),
        descriptor_size,
        freshness_token,
    }
}

/// Whether a buffer is a whole number of records at the given stride.
pub open spec fn is_whole_map(buffer_len: int, descriptor_size: int) -> bool {
    &&& DESCRIPTOR_SIZE <= descriptor_size
    &&& buffer_len % descriptor_size == 0
}

/// The firmware's memory map at one moment.
#[derive(Debug)]
pub struct MemoryMapSnapshot {
    descriptors: Vec<MemoryDescriptor>,
    descriptor_size: usize,
    freshness_token: u64,
}

impl View for MemoryMapSnapshot {
    type V = SnapshotView;

    closed spec fn view(&self) -> SnapshotView {
        SnapshotView {
            descriptors: self.descriptors@,
            descriptor_size: self.descriptor_size,
            freshness_token: self.freshness_token,
        }
    }
}

impl MemoryMapSnapshot {
    #[verifier::type_invariant]
    spec fn in_order(&self) -> bool {
        ascending(self.descriptors@)
    }

    /// Makes a snapshot of `descriptors`, which may come in any order: the
    /// snapshot holds them ascending by physical start, with records of equal
    /// start in the order given.
    pub fn new(descriptors: Vec<MemoryDescriptor>, descriptor_size: usize, freshness_token: u64)
        -> (snapshot: MemoryMapSnapshot)
        ensures
            snapshot@.descriptors == ordered(descriptors@),
            is_stable_ordering_of(snapshot@.descriptors, descriptors@),
            snapshot@.descriptor_size == descriptor_size,
            snapshot@.freshness_token == freshness_token,
    {
        let sorted = sort_by_physical_start(descriptors);
        MemoryMapSnapshot { descriptors: sorted, descriptor_size, freshness_token }
    }

    /// Makes the snapshot that a successful query stands for: `buffer` holds
    /// the bytes of the map, `descriptor_size` is the stride and
    /// `freshness_token` the token that the firmware reported with it.
    ///
    /// Fails with `MalformedMap` exactly when the stride is shorter than a
    /// record or does not divide the length of the buffer.
    pub fn capture(buffer: &[u8], descriptor_size: usize, freshness_token: u64) -> (result: Result<
        MemoryMapSnapshot,
        LoaderError,
    >)
        ensures
            is_whole_map(buffer.len() as int, descriptor_size as int) ==> result is Ok
                && result->Ok_0@ == captured(buffer@, descriptor_size, freshness_token),
            !is_whole_map(buffer.len() as int, descriptor_size as int) ==> result is Err
                && result->Err_0 == LoaderError::MalformedMap,
    {
        if descriptor_size < DESCRIPTOR_SIZE {
            return Err(LoaderError::MalformedMap);
        }
        let count: usize = buffer.len() / descriptor_size;
        proof {
            lemma_count_fills(buffer.len() as int, descriptor_size as int);
        }
        match parse_descriptors(buffer, descriptor_size, count) {
            Ok(descriptors) => Ok(
                MemoryMapSnapshot::new(descriptors, descriptor_size, freshness_token),
            ),
            Err(error) => Err(error),
        }
    }

    /// The records, ascending by physical start.
    pub fn descriptors(&self) -> (records: &[MemoryDescriptor])
        ensures
            records@ == self@.descriptors,
            ascending(records@),
    {
        proof {
            use_type_invariant(self);
        }
        self.descriptors.as_slice()
    }

    /// The number of records.
    pub fn len(&self) -> (count: usize)
        ensures
            count == self@.descriptors.len(),
    {
        self.descriptors.len()
    }

    /// The stride at which the firmware laid the records out.
    pub fn descriptor_size(&self) -> (stride: usize)
        ensures
            stride == self@.descriptor_size,
    {
        self.descriptor_size
    }

    /// The token that ties this snapshot to the firmware's state.
    pub fn freshness_token(&self) -> (token: u64)
        ensures
            token == self@.freshness_token,
    {
        self.freshness_token
    }
}

/// A buffer is `len / stride` records long exactly when the stride divides
/// its length.
proof fn lemma_count_fills(len: int, stride: int)
    by (nonlinear_arith)
    requires
        0 <= len,
        0 < stride,
    ensures
        0 <= len / stride,
        len % stride == 0 <==> len == (len / stride) * stride,
{
}

/// The records of a captured snapshot are a stable ordering of the records
/// of the buffer.
pub proof fn lemma_captured_is_stable(buffer: Seq<u8>, descriptor_size: usize, freshness_token: u64)
    ensures
        is_stable_ordering_of(
            captured(buffer, descriptor_size, freshness_token).descriptors,
            parsed(buffer, descriptor_size as int, buffer.len() as int / descriptor_size as int),
        ),
{
    lemma_ordered_is_stable(
        parsed(buffer, descriptor_size as int, buffer.len() as int / descriptor_size as int),
    );
}

} // verus!
