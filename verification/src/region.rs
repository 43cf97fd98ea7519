//! Choosing the range of physical memory in which the kernel is loaded.
//!
//! The policy is first fit from the lowest address: the records of a
//! snapshot are scanned in ascending order, and the first range of free
//! memory that is large enough is taken. The reservation covers only the
//! pages that were asked for, from the start of that range.

use vstd::prelude::*;
use crate::descriptor::{MemoryDescriptor, CONVENTIONAL_MEMORY, PAGE_SIZE};
use crate::error::LoaderError;
use crate::order::{ascending, ordered, lemma_ordered_is_stable};
use crate::snapshot::MemoryMapSnapshot;

verus! {

/// The pages that are to be reserved for the kernel image.
#[derive(Clone, Copy, Debug, PartialEq, Eq, Structural)]
pub struct RegionReservation {
    /// The physical address of the first page.
    pub physical_start: u64,
    /// The number of pages: the number asked for, whatever the size of the
    /// range that they were found in.
    pub page_count: u64,
}

impl RegionReservation {
    /// The address behind the last byte of the reservation.
    pub open spec fn spec_end_address(&self) -> int {
        self.physical_start + self.page_count * PAGE_SIZE
    }

    /// The address behind the last byte of the reservation, or `None` where
    /// that address does not fit in 64 bits.
    pub fn end_address(&self) -> (end: Option<u64>)
        ensures
            self.spec_end_address() <= u64::MAX ==> end == Some(self.spec_end_address() as u64),
            self.spec_end_address() > u64::MAX ==> end is None,
    {
        match self.page_count.checked_mul(PAGE_SIZE) {
            Some(length) => self.physical_start.checked_add(length),
            None => None,
        }
    }
}

/// Whether a range can hold `required_pages` pages of the kernel: it is free
/// memory, and at least that many pages long.
pub open spec fn fits(descriptor: MemoryDescriptor, required_pages: u64) -> bool {
    descriptor.memory_type == CONVENTIONAL_MEMORY && descriptor.page_count >= required_pages
}

/// The index of the first record from `from` on that fits, or the number of
/// records if none does.
pub open spec fn first_fit_from(records: Seq<MemoryDescriptor>, required_pages: u64, from: int)
    -> int
    decreases records.len() - from,
{
    if from >= records.len() {
        records.len() as int
    } else if fits(records[from], required_pages) {
        from
    } else {
        first_fit_from(records, required_pages, from + 1)
    }
}

/// The reservation that first fit makes among `records`, if any record fits.
pub open spec fn selected(records: Seq<MemoryDescriptor>, required_pages: u64) -> Option<
    RegionReservation,
> {
    let index = first_fit_from(records, required_pages, 0);
    if 0 <= index < records.len() {
        Some(
            RegionReservation {
                physical_start: records[index].physical_start,
                page_count: required_pages,
            },
        )
    } else {
        None
    }
}

/// The first fit from `from` on is a record that fits, with none that fits
/// between `from` and it; where there is none, no record from `from` on fits.
pub proof fn lemma_first_fit_from(records: Seq<MemoryDescriptor>, required_pages: u64, from: int)
    requires
        0 <= from,
    ensures
        from <= first_fit_from(records, required_pages, from) || first_fit_from(
            records,
            required_pages,
            from,
        ) == records.len(),
        first_fit_from(records, required_pages, from) <= records.len(),
        first_fit_from(records, required_pages, from) < records.len() ==> fits(
            records[first_fit_from(records, required_pages, from)],
            required_pages,
        ),
        forall|i: int|
            from <= i < first_fit_from(records, required_pages, from) ==> !fits(
                #[trigger] records[i],
                required_pages,
            ),
    decreases records.len() - from,
{
    if from < records.len() && !fits(records[from], required_pages) {
        lemma_first_fit_from(records, required_pages, from + 1);
    }
}

/// What first fit selects among ascending records: the region starts where
/// a fitting record starts, no fitting record starts lower, and it is as
/// long as was asked. Nothing is selected exactly when no record fits.
pub proof fn lemma_selected_is_lowest(records: Seq<MemoryDescriptor>, required_pages: u64)
    requires
        ascending(records),
    ensures
        match selected(records, required_pages) {
            Some(region) => {
                &&& region.page_count == required_pages
                &&& exists|i: int|
                    0 <= i < records.len() && fits(#[trigger] records[i], required_pages)
                        && records[i].physical_start == region.physical_start
                &&& forall|j: int|
                    0 <= j < records.len() && fits(#[trigger] records[j], required_pages)
                        ==> region.physical_start <= records[j].physical_start
            },
            None => forall|j: int|
                0 <= j < records.len() ==> !fits(#[trigger] records[j], required_pages),
        },
{
    let index = first_fit_from(records, required_pages, 0);
    lemma_first_fit_from(records, required_pages, 0);
    if index < records.len() {
        assert(fits(records[index], required_pages));
        assert forall|j: int|
            0 <= j < records.len() && fits(
                #[trigger] records[j],
                required_pages,
            ) implies records[index].physical_start <= records[j].physical_start by {
            assert(index <= j);
        }
    }
}

/// The selected region lies within a range of free memory: it starts where
/// one of the records starts that fit, and ends no later than that record.
pub proof fn lemma_selected_lies_in_free_memory(
    records: Seq<MemoryDescriptor>,
    required_pages: u64,
)
    ensures
        selected(records, required_pages) matches Some(region) ==> exists|i: int|
            0 <= i < records.len() && (#[trigger] records[i]).memory_type == CONVENTIONAL_MEMORY
                && records[i].physical_start == region.physical_start
                && region.spec_end_address() <= records[i].physical_start + records[i].page_count
                * PAGE_SIZE,
{
    let index = first_fit_from(records, required_pages, 0);
    lemma_first_fit_from(records, required_pages, 0);
    if index < records.len() {
        assert(fits(records[index], required_pages));
    }
}

/// However the firmware orders its records, the region selected from their
/// snapshot starts at the lowest physical start of any record that fits, and
/// nothing is selected exactly when none of the records fits.
pub proof fn lemma_selection_of_any_order(reported: Seq<MemoryDescriptor>, required_pages: u64)
    ensures
        match selected(ordered(reported), required_pages) {
            Some(region) => {
                &&& region.page_count == required_pages
                &&& exists|i: int|
                    0 <= i < reported.len() && fits(#[trigger] reported[i], required_pages)
                        && reported[i].physical_start == region.physical_start
                &&& forall|j: int|
                    0 <= j < reported.len() && fits(#[trigger] reported[j], required_pages)
                        ==> region.physical_start <= reported[j].physical_start
            },
            None => forall|j: int|
                0 <= j < reported.len() ==> !fits(#[trigger] reported[j], required_pages),
        },
{
    broadcast use vstd::seq_lib::group_to_multiset_ensures;

    let sorted = ordered(reported);
    lemma_ordered_is_stable(reported);
    lemma_selected_is_lowest(sorted, required_pages);
    assert forall|d: MemoryDescriptor| sorted.contains(d) <==> reported.contains(d) by {
        assert(sorted.to_multiset().count(d) == reported.to_multiset().count(d));
    }
    match selected(sorted, required_pages) {
        Some(region) => {
            let i = choose|i: int|
                0 <= i < sorted.len() && fits(#[trigger] sorted[i], required_pages)
                    && sorted[i].physical_start == region.physical_start;
            assert(sorted.contains(sorted[i]));
            assert(reported.contains(sorted[i]));
            let k = choose|k: int| 0 <= k < reported.len() && reported[k] == sorted[i];
            assert(fits(reported[k], required_pages));
            assert forall|j: int|
                0 <= j < reported.len() && fits(
                    #[trigger] reported[j],
                    required_pages,
                ) implies region.physical_start <= reported[j].physical_start by {
                assert(reported.contains(reported[j]));
                assert(sorted.contains(reported[j]));
                let m = choose|m: int| 0 <= m < sorted.len() && sorted[m] == reported[j];
                assert(fits(sorted[m], required_pages));
            }
        },
        None => {
            assert forall|j: int| 0 <= j < reported.len() implies !fits(
                #[trigger] reported[j],
                required_pages,
            ) by {
                assert(reported.contains(reported[j]));
                assert(sorted.contains(reported[j]));
                let m = choose|m: int| 0 <= m < sorted.len() && sorted[m] == reported[j];
                assert(!fits(sorted[m], required_pages));
            }
        },
    }
}

/// Selects the region for a kernel of `required_pages` pages: the first
/// record of the snapshot that is free memory of at least that many pages
/// gives the start, and the region is `required_pages` long.
///
/// Since a snapshot holds its records ascending, no record that fits starts
/// below the selected region. Fails with `NoSuitableRegion` exactly when no
/// record fits.
pub fn select_region(snapshot: &MemoryMapSnapshot, required_pages: u64) -> (result: Result<
    RegionReservation,
    LoaderError,
>)
    ensures
        match result {
            Ok(region) => {
                &&& selected(snapshot@.descriptors, required_pages) == Some(region)
                &&& region.page_count == required_pages
                &&& exists|i: int|
                    0 <= i < snapshot@.descriptors.len() && fits(
                        #[trigger] snapshot@.descriptors[i],
                        required_pages,
                    ) && snapshot@.descriptors[i].physical_start == region.physical_start
                &&& forall|j: int|
                    0 <= j < snapshot@.descriptors.len() && fits(
                        #[trigger] snapshot@.descriptors[j],
                        required_pages,
                    ) ==> region.physical_start <= snapshot@.descriptors[j].physical_start
            },
            Err(error) => {
                &&& error == LoaderError::NoSuitableRegion
                &&& selected(snapshot@.descriptors, required_pages) is None
                &&& forall|j: int|
                    0 <= j < snapshot@.descriptors.len() ==> !fits(
                        #[trigger] snapshot@.descriptors[j],
                        required_pages,
                    )
            },
        },
{
    let records = snapshot.descriptors();
    let mut index: usize = 0;
    while index < records.len()
        invariant
            index <= records.len(),
            records@ == snapshot@.descriptors,
            ascending(records@),
            first_fit_from(records@, required_pages, 0) == first_fit_from(
                records@,
                required_pages,
                index as int,
            ),
        decreases records.len() - index,
    {
        let record = &records[index];
        if record.memory_type == CONVENTIONAL_MEMORY && record.page_count >= required_pages {
            proof {
                lemma_selected_is_lowest(records@, required_pages);
            }
            return Ok(
                RegionReservation {
                    physical_start: record.physical_start,
                    page_count: required_pages,
                },
            );
        }
        index = index + 1;
    }
    proof {
        lemma_selected_is_lowest(records@, required_pages);
    }
    Err(LoaderError::NoSuitableRegion)
}

} // verus!
