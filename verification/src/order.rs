//! The order in which a snapshot keeps its records: ascending by physical
//! start, and, among records that start at the same address, in the order in
//! which the firmware reported them.

use vstd::prelude::*;
use vstd::seq_lib::to_multiset_insert;
use crate::descriptor::MemoryDescriptor;

verus! {

/// Whether no record starts below a record that comes before it.
pub open spec fn ascending(records: Seq<MemoryDescriptor>) -> bool {
    forall|i: int, j: int|
        0 <= i <= j < records.len() ==> records[i].physical_start <= records[j].physical_start
}

/// The records that start at `address`, in the order in which they stand in
/// `records`.
pub open spec fn starting_at(records: Seq<MemoryDescriptor>, address: u64) -> Seq<
    MemoryDescriptor,
> {
    records.filter(|d: MemoryDescriptor| d.physical_start == address)
}

/// Whether `sorted` holds the records of `reported` in ascending order, with
/// ties left in the order of `reported`: the same records as often, none
/// starting below an earlier one, and for every address the records that
/// start there in the same order as before.
pub open spec fn is_stable_ordering_of(
    sorted: Seq<MemoryDescriptor>,
    reported: Seq<MemoryDescriptor>,
) -> bool {
    &&& ascending(sorted)
    &&& sorted.to_multiset() == reported.to_multiset()
    &&& forall|address: u64| #[trigger]
        starting_at(sorted, address) == starting_at(reported, address)
}

/// The index at which a record that starts at `address` enters `sorted`:
/// behind the last record that starts at or below `address`.
pub open spec fn slot(sorted: Seq<MemoryDescriptor>, address: u64) -> int
    decreases sorted.len(),
{
    if sorted.len() == 0 {
        0
    } else if sorted.last().physical_start <= address {
        sorted.len() as int
    } else {
        slot(sorted.drop_last(), address)
    }
}

/// `sorted` with `record` put in at its slot.
pub open spec fn placed(sorted: Seq<MemoryDescriptor>, record: MemoryDescriptor) -> Seq<
    MemoryDescriptor,
> {
    sorted.insert(slot(sorted, record.physical_start), record)
}

/// The records of `reported` in snapshot order: each record in turn is put
/// into the order of those before it.
pub open spec fn ordered(reported: Seq<MemoryDescriptor>) -> Seq<MemoryDescriptor>
    decreases reported.len(),
{
    if reported.len() == 0 {
        reported
    } else {
        placed(ordered(reported.drop_last()), reported.last())
    }
}

/// The slot splits an ascending sequence in two: before it no record starts
/// above the address, from it on every record does.
pub proof fn lemma_slot_splits(sorted: Seq<MemoryDescriptor>, address: u64)
    requires
        ascending(sorted),
    ensures
        0 <= slot(sorted, address) <= sorted.len(),
        forall|i: int|
            0 <= i < slot(sorted, address) ==> (#[trigger] sorted[i]).physical_start <= address,
        forall|i: int|
            slot(sorted, address) <= i < sorted.len() ==> (#[trigger] sorted[i]).physical_start
                > address,
    decreases sorted.len(),
{
    if sorted.len() > 0 && sorted.last().physical_start > address {
        let front = sorted.drop_last();
        assert forall|i: int, j: int| 0 <= i <= j < front.len() implies front[i].physical_start
            <= front[j].physical_start by {
            assert(front[i] == sorted[i] && front[j] == sorted[j]);
        }
        lemma_slot_splits(front, address);
        assert forall|i: int| 0 <= i < slot(sorted, address) implies (#[trigger] sorted[i])
            .physical_start <= address by {
            assert(front[i] == sorted[i]);
        }
        assert forall|i: int| slot(sorted, address) <= i < sorted.len() implies (
        #[trigger] sorted[i]).physical_start > address by {
            if i < front.len() {
                assert(front[i] == sorted[i]);
            }
        }
    } else if sorted.len() > 0 {
        assert forall|i: int| 0 <= i < sorted.len() implies (#[trigger] sorted[i]).physical_start
            <= address by {
            assert(sorted[i].physical_start <= sorted[sorted.len() - 1].physical_start);
        }
    }
}

/// Filtering a sequence that ends in `last` filters what comes before it and
/// keeps `last` behind that if it passes.
proof fn lemma_filter_push(
    front: Seq<MemoryDescriptor>,
    last: MemoryDescriptor,
    keep: spec_fn(MemoryDescriptor) -> bool,
)
    ensures
        front.push(last).filter(keep) == if keep(last) {
            front.filter(keep).push(last)
        } else {
            front.filter(keep)
        },
{
    reveal(Seq::filter);
    assert(front.push(last).drop_last() =~= front);
}

/// A filter that no record passes leaves nothing.
proof fn lemma_filter_none(
    records: Seq<MemoryDescriptor>,
    keep: spec_fn(MemoryDescriptor) -> bool,
)
    requires
        forall|i: int| 0 <= i < records.len() ==> !keep(#[trigger] records[i]),
    ensures
        records.filter(keep) == Seq::<MemoryDescriptor>::empty(),
    decreases records.len(),
{
    reveal(Seq::filter);
    if records.len() > 0 {
        let front = records.drop_last();
        assert forall|i: int| 0 <= i < front.len() implies !keep(#[trigger] front[i]) by {
            assert(front[i] == records[i]);
        }
        lemma_filter_none(front, keep);
        assert(!keep(records[records.len() - 1]));
    }
}

/// Putting a record into an ascending sequence keeps it ascending, adds that
/// record and no other, and puts it behind the records that start at its own
/// address while leaving the records of every other address as they were.
pub proof fn lemma_placed(sorted: Seq<MemoryDescriptor>, record: MemoryDescriptor)
    requires
        ascending(sorted),
    ensures
        ascending(placed(sorted, record)),
        placed(sorted, record).len() == sorted.len() + 1,
        placed(sorted, record).to_multiset() == sorted.to_multiset().insert(record),
        starting_at(placed(sorted, record), record.physical_start) == starting_at(
            sorted,
            record.physical_start,
        ).push(record),
        forall|address: u64|
            address != record.physical_start ==> #[trigger] starting_at(
                placed(sorted, record),
                address,
            ) == starting_at(sorted, address),
{
    let at = slot(sorted, record.physical_start);
    let result = placed(sorted, record);
    let before = sorted.subrange(0, at);
    let after = sorted.subrange(at, sorted.len() as int);
    lemma_slot_splits(sorted, record.physical_start);
    to_multiset_insert(sorted, at, record);
    assert(sorted =~= before + after);
    assert(result =~= before.push(record) + after);
    assert forall|i: int, j: int| 0 <= i <= j < result.len() implies result[i].physical_start
        <= result[j].physical_start by {
        let start_i = if i < at {
            sorted[i].physical_start
        } else if i == at {
            record.physical_start
        } else {
            sorted[i - 1].physical_start
        };
        let start_j = if j < at {
            sorted[j].physical_start
        } else if j == at {
            record.physical_start
        } else {
            sorted[j - 1].physical_start
        };
        assert(result[i].physical_start == start_i);
        assert(result[j].physical_start == start_j);
    }
    assert forall|address: u64|
        #[trigger] starting_at(result, address) == if address == record.physical_start {
            starting_at(sorted, address).push(record)
        } else {
            starting_at(sorted, address)
        } by {
        let keep = |d: MemoryDescriptor| d.physical_start == address;
        Seq::filter_distributes_over_add(before, after, keep);
        Seq::filter_distributes_over_add(before.push(record), after, keep);
        lemma_filter_push(before, record, keep);
        if address == record.physical_start {
            assert forall|i: int| 0 <= i < after.len() implies !keep(#[trigger] after[i]) by {
                assert(after[i] == sorted[at + i]);
            }
            lemma_filter_none(after, keep);
            assert(before.filter(keep).push(record) + Seq::<MemoryDescriptor>::empty()
                =~= before.filter(keep).push(record));
            assert(before.filter(keep) + Seq::<MemoryDescriptor>::empty() =~= before.filter(keep));
        }
    }
}

/// The snapshot order of any records is a stable ordering of them.
pub proof fn lemma_ordered_is_stable(reported: Seq<MemoryDescriptor>)
    ensures
        is_stable_ordering_of(ordered(reported), reported),
        ordered(reported).len() == reported.len(),
    decreases reported.len(),
{
    if reported.len() > 0 {
        let front = reported.drop_last();
        let last = reported.last();
        lemma_ordered_is_stable(front);
        lemma_placed(ordered(front), last);
        assert(reported =~= front.push(last));
        vstd::seq_lib::to_multiset_build(front, last);
        assert forall|address: u64| #[trigger]
            starting_at(ordered(reported), address) == starting_at(reported, address) by {
            let keep = |d: MemoryDescriptor| d.physical_start == address;
            lemma_filter_push(front, last, keep);
            assert(starting_at(ordered(front), address) == starting_at(front, address));
        }
    }
}

/// Two ascending sequences that hold, for every address, the same records in
/// the same order are the same sequence.
pub proof fn lemma_same_groups_same_order(a: Seq<MemoryDescriptor>, b: Seq<MemoryDescriptor>)
    requires
        ascending(a),
        ascending(b),
        forall|address: u64| #[trigger] starting_at(a, address) == starting_at(b, address),
    ensures
        a == b,
    decreases a.len(),
{
    if a.len() == 0 {
        if b.len() > 0 {
            let y = b.last();
            let keep = |d: MemoryDescriptor| d.physical_start == y.physical_start;
            b.lemma_filter_contains(keep, b.len() - 1);
            assert(starting_at(a, y.physical_start) == starting_at(b, y.physical_start));
            a.lemma_filter_contains_rev(keep, y);
        }
        assert(a =~= b);
    } else {
        let x = a.last();
        let top = x.physical_start;
        let keep_top = |d: MemoryDescriptor| d.physical_start == top;
        assert(starting_at(a, top) == starting_at(b, top));
        a.lemma_filter_contains(keep_top, a.len() - 1);
        b.lemma_filter_contains_rev(keep_top, x);
        let j = choose|j: int| 0 <= j < b.len() && b[j] == x;
        let y = b.last();
        assert(b[j].physical_start <= b[b.len() - 1].physical_start);
        let keep_y = |d: MemoryDescriptor| d.physical_start == y.physical_start;
        assert(starting_at(a, y.physical_start) == starting_at(b, y.physical_start));
        b.lemma_filter_contains(keep_y, b.len() - 1);
        a.lemma_filter_contains_rev(keep_y, y);
        let i = choose|i: int| 0 <= i < a.len() && a[i] == y;
        assert(a[i].physical_start <= a[a.len() - 1].physical_start);
        assert(y.physical_start == top);

        let front_a = a.drop_last();
        let front_b = b.drop_last();
        assert(a =~= front_a.push(x));
        assert(b =~= front_b.push(y));
        lemma_filter_push(front_a, x, keep_top);
        lemma_filter_push(front_b, y, keep_top);
        let group_a = front_a.filter(keep_top);
        let group_b = front_b.filter(keep_top);
        assert(group_a.push(x) == group_b.push(y));
        assert(group_a.push(x).last() == x);
        assert(group_b.push(y).last() == y);
        assert(x == y);
        assert(group_a.push(x).drop_last() =~= group_a);
        assert(group_b.push(y).drop_last() =~= group_b);
        assert(group_a == group_b);

        assert forall|m: int, n: int| 0 <= m <= n < front_a.len() implies front_a[m].physical_start
            <= front_a[n].physical_start by {
            assert(front_a[m] == a[m] && front_a[n] == a[n]);
        }
        assert forall|m: int, n: int| 0 <= m <= n < front_b.len() implies front_b[m].physical_start
            <= front_b[n].physical_start by {
            assert(front_b[m] == b[m] && front_b[n] == b[n]);
        }
        assert forall|address: u64| #[trigger]
            starting_at(front_a, address) == starting_at(front_b, address) by {
            let keep = |d: MemoryDescriptor| d.physical_start == address;
            assert(starting_at(a, address) == starting_at(b, address));
            lemma_filter_push(front_a, x, keep);
            lemma_filter_push(front_b, y, keep);
            if address == top {
                assert(keep(x) && keep(y));
                assert(front_a.filter(keep).push(x) == front_b.filter(keep).push(y));
                assert(front_a.filter(keep).push(x).drop_last() =~= front_a.filter(keep));
                assert(front_b.filter(keep).push(y).drop_last() =~= front_b.filter(keep));
            }
        }
        lemma_same_groups_same_order(front_a, front_b);
    }
}

/// There is one stable ordering of any records, and it is their snapshot
/// order.
pub proof fn lemma_stable_ordering_is_unique(
    sorted: Seq<MemoryDescriptor>,
    reported: Seq<MemoryDescriptor>,
)
    requires
        is_stable_ordering_of(sorted, reported),
    ensures
        sorted == ordered(reported),
{
    lemma_ordered_is_stable(reported);
    assert forall|address: u64| #[trigger]
        starting_at(sorted, address) == starting_at(ordered(reported), address) by {
        assert(starting_at(sorted, address) == starting_at(reported, address));
        assert(starting_at(ordered(reported), address) == starting_at(reported, address));
    }
    lemma_same_groups_same_order(sorted, ordered(reported));
}

/// Records that are already ascending are in snapshot order as they stand.
pub proof fn lemma_ordered_keeps_ascending(reported: Seq<MemoryDescriptor>)
    requires
        ascending(reported),
    ensures
        ordered(reported) == reported,
    decreases reported.len(),
{
    if reported.len() > 0 {
        let front = reported.drop_last();
        let last = reported.last();
        assert forall|i: int, j: int| 0 <= i <= j < front.len() implies front[i].physical_start
            <= front[j].physical_start by {
            assert(front[i] == reported[i] && front[j] == reported[j]);
        }
        lemma_ordered_keeps_ascending(front);
        if front.len() > 0 {
            assert(front.last() == reported[reported.len() - 2]);
            assert(front.last().physical_start <= last.physical_start);
        }
        assert(slot(front, last.physical_start) == front.len());
        assert(front.insert(front.len() as int, last) =~= reported);
    }
}

/// Puts `records` into snapshot order.
pub fn sort_by_physical_start(records: Vec<MemoryDescriptor>) -> (sorted: Vec<MemoryDescriptor>)
    ensures
        sorted@ == ordered(records@),
        is_stable_ordering_of(sorted@, records@),
{
    let mut sorted: Vec<MemoryDescriptor> = Vec::new();
    let mut taken: usize = 0;
    while taken < records.len()
        invariant
            taken <= records.len(),
            sorted@ == ordered(records@.take(taken as int)),
            sorted.len() == taken,
        decreases records.len() - taken,
    {
        let record = records[taken];
        let mut at: usize = sorted.len();
        assert(sorted@.take(at as int) =~= sorted@);
        while at > 0 && sorted[at - 1].physical_start > record.physical_start
            invariant
                at <= sorted.len(),
                slot(sorted@, record.physical_start) == slot(
                    sorted@.take(at as int),
                    record.physical_start,
                ),
            decreases at,
        {
            assert(sorted@.take(at as int).drop_last() =~= sorted@.take(at - 1));
            at = at - 1;
        }
        proof {
            let done = records@.take(taken + 1);
            assert(done.drop_last() =~= records@.take(taken as int));
            assert(done.last() == record);
        }
        sorted.insert(at, record);
        taken = taken + 1;
    }
    proof {
        assert(records@.take(taken as int) =~= records@);
        lemma_ordered_is_stable(records@);
    }
    sorted
}

} // verus!
