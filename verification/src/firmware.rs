//! The firmware's boot services, as far as the boot stage uses them: what it
//! asks, and what the firmware can answer.
//!
//! The boot stage does not call the firmware. It names the call that is due
//! as a [`FirmwareRequest`]; whoever drives it performs the call and hands
//! the result back as a [`FirmwareReply`]. A request is always answered
//! before the next one is made.

use vstd::prelude::*;
use crate::descriptor::LOADER_DATA;
use crate::error::LoaderError;
use crate::region::RegionReservation;

verus! {

/// How the firmware is to place the pages of an allocation.
#[derive(Clone, Copy, Debug, PartialEq, Eq, Structural)]
pub enum AllocationMode {
    /// Anywhere.
    AnyPages,
    /// Anywhere below a given address.
    MaxAddress,
    /// At the given address exactly, or not at all.
    FixedAddress,
}

/// A call of a boot service.
#[derive(Clone, Copy, Debug, PartialEq, Eq, Structural)]
pub enum FirmwareRequest {
    /// Write the current memory map into a buffer of `buffer_size` bytes. A
    /// size of zero asks only how large the map is.
    GetMemoryMap { buffer_size: usize },
    /// Allocate `size` bytes of pool memory of type `memory_type`.
    AllocatePool { memory_type: u32, size: usize },
    /// Allocate `page_count` pages of type `memory_type`, placed at `address`
    /// as `mode` says.
    AllocatePages { mode: AllocationMode, memory_type: u32, page_count: u64, address: u64 },
    /// Leave the boot services; `map_key` is the token of the memory map
    /// that the caller holds.
    ExitBootServices { map_key: u64 },
}

/// The result of a call of a boot service.
#[derive(Debug)]
pub enum FirmwareReply {
    /// The memory map was written: `map` holds the bytes of its records.
    MemoryMap { map: Vec<u8>, descriptor_size: usize, map_key: u64 },
    /// The buffer was too small for the memory map, which takes
    /// `required_size` bytes.
    BufferTooSmall { required_size: usize, descriptor_size: usize },
    /// The allocation was made.
    Granted,
    /// The allocation was refused.
    Denied,
    /// The boot services have ended.
    Exited,
    /// The boot services go on: the token is not that of the current memory
    /// map.
    StaleKey,
    /// Any other status.
    Rejected,
}

/// A result of a call of a boot service, as plain values.
pub enum ReplyView {
    MemoryMap { map: Seq<u8>, descriptor_size: usize, map_key: u64 },
    BufferTooSmall { required_size: usize, descriptor_size: usize },
    Granted,
    Denied,
    Exited,
    StaleKey,
    Rejected,
}

impl View for FirmwareReply {
    type V = ReplyView;

    open spec fn view(&self) -> ReplyView {
        match *self {
            FirmwareReply::MemoryMap { map, descriptor_size, map_key } => ReplyView::MemoryMap {
                map: map@,
                descriptor_size,
                map_key,
            },
            FirmwareReply::BufferTooSmall {
                required_size,
                descriptor_size,
            } => ReplyView::BufferTooSmall { required_size, descriptor_size },
            FirmwareReply::Granted => ReplyView::Granted,
            FirmwareReply::Denied => ReplyView::Denied,
            FirmwareReply::Exited => ReplyView::Exited,
            FirmwareReply::StaleKey => ReplyView::StaleKey,
            FirmwareReply::Rejected => ReplyView::Rejected,
        }
    }
}

/// The call that allocates a buffer of `size` bytes for the memory map.
pub open spec fn buffer_of(size: usize) -> FirmwareRequest {
    FirmwareRequest::AllocatePool { memory_type: LOADER_DATA, size }
}

/// The call that reserves `region`: its pages, at its address and nowhere
/// else, as loader data.
pub open spec fn reservation_of(region: RegionReservation) -> FirmwareRequest {
    FirmwareRequest::AllocatePages {
        mode: AllocationMode::FixedAddress,
        memory_type: LOADER_DATA,
        page_count: region.page_count,
        address: region.physical_start,
    }
}

/// What a reply to the reservation of a region means: the region is
/// reserved as a whole, or it is not reserved at all. A refusal is an
/// `AllocationFailure`, and a reply that cannot answer an allocation is a
/// `FirmwareRejection`.
pub open spec fn reserved(reply: ReplyView) -> Result<(), LoaderError> {
    match reply {
        ReplyView::Granted => Ok(()),
        ReplyView::Denied => Err(LoaderError::AllocationFailure),
        _ => Err(LoaderError::FirmwareRejection),
    }
}

/// The call that ends the boot services on the strength of `token`.
pub open spec fn exit_with(token: u64) -> FirmwareRequest {
    FirmwareRequest::ExitBootServices { map_key: token }
}

/// What a reply to the exit means: the boot services have ended, or they go
/// on. A token that the firmware finds stale is a `StaleToken`, and any
/// other reply a `FirmwareRejection`.
pub open spec fn exited(reply: ReplyView) -> Result<(), LoaderError> {
    match reply {
        ReplyView::Exited => Ok(()),
        ReplyView::StaleKey => Err(LoaderError::StaleToken),
        _ => Err(LoaderError::FirmwareRejection),
    }
}

/// The call that reserves `region` for the kernel: a page allocation at the
/// region's address and nowhere else, of the region's length, as loader
/// data.
pub fn reserve_request(region: &RegionReservation) -> (request: FirmwareRequest)
    ensures
        request == reservation_of(*region),
{
    FirmwareRequest::AllocatePages {
        mode: AllocationMode::FixedAddress,
        memory_type: LOADER_DATA,
        page_count: region.page_count,
        address: region.physical_start,
    }
}

/// Reads the firmware's reply to the reservation of a region.
///
/// Fails with `AllocationFailure` exactly when the firmware refused, and
/// with `FirmwareRejection` exactly when the reply is neither a grant nor a
/// refusal.
pub fn reserve_outcome(reply: &FirmwareReply) -> (outcome: Result<(), LoaderError>)
    ensures
        outcome == reserved(reply@),
{
    match reply {
        FirmwareReply::Granted => Ok(()),
        FirmwareReply::Denied => Err(LoaderError::AllocationFailure),
        _ => Err(LoaderError::FirmwareRejection),
    }
}

/// The call that ends the boot services on the strength of `token`, the
/// token of the snapshot that the caller holds.
pub fn exit_request(token: u64) -> (request: FirmwareRequest)
    ensures
        request == exit_with(token),
{
    FirmwareRequest::ExitBootServices { map_key: token }
}

/// Reads the firmware's reply to the exit.
///
/// Fails with `StaleToken` exactly when the firmware found the token stale,
/// and with `FirmwareRejection` exactly when the reply is neither that nor
/// the end of the boot services.
pub fn exit_outcome(reply: &FirmwareReply) -> (outcome: Result<(), LoaderError>)
    ensures
        outcome == exited(reply@),
{
    match reply {
        FirmwareReply::Exited => Ok(()),
        FirmwareReply::StaleKey => Err(LoaderError::StaleToken),
        _ => Err(LoaderError::FirmwareRejection),
    }
}

} // verus!
