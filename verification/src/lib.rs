//! Verified core of a pre-kernel boot stage.
//!
//! The firmware reports the physical memory layout as a buffer of fixed-stride
//! records. This crate decodes that buffer, orders the records, picks the
//! range in which the kernel image is to be loaded, and decides, reply by
//! reply, which firmware service has to be called next until the firmware
//! has been left. The crate never calls the firmware itself: the crate
//! hands out requests and is handed back replies, so that every decision is
//! a function of plain values.
//!
//! - [`descriptor`] holds the record and its layout in the buffer, [`bytes`]
//!   the integers that the layout is made of.
//! - [`order`] and [`snapshot`] hold the order of the records and the
//!   snapshot that keeps them in it.
//! - [`region`] selects the range for the kernel.
//! - [`firmware`] names the calls and the replies.
//! - [`reader`] reads the memory map, and [`handoff`] runs the whole sequence
//!   up to the end of the boot services.
//!
//! The records of a snapshot are copied out of the firmware's buffer into
//! memory of the global allocator. Under a firmware, that allocator must not
//! draw on the firmware's pools: an allocation there changes the memory map,
//! and the token of a snapshot would be stale as soon as the snapshot is
//! made.

pub mod bytes;
pub mod descriptor;
pub mod error;
pub mod firmware;
pub mod handoff;
pub mod order;
pub mod reader;
pub mod region;
pub mod snapshot;
