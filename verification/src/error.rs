//! The ways in which the boot stage can fail.

use vstd::prelude::*;

verus! {

/// Why a step of the boot stage did not succeed.
#[derive(Clone, Copy, Debug, PartialEq, Eq, Structural)]
pub enum LoaderError {
    /// The firmware denied a pool or page allocation.
    AllocationFailure,
    /// The memory map kept outgrowing the buffer until the retries ran out.
    MapUnstable,
    /// No descriptor is both free memory and large enough.
    NoSuitableRegion,
    /// The firmware refused to hand over control because the memory map has
    /// changed since the snapshot was taken.
    StaleToken,
    /// The memory map buffer does not hold a whole number of records.
    MalformedMap,
    /// The firmware answered with a status that the protocol does not expect.
    FirmwareRejection,
}

} // verus!
