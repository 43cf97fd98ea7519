//! Reading the memory map from the firmware.
//!
//! The reader first asks with an empty buffer, to learn how large the map is
//! and how far apart its records lie. It then has a buffer allocated that is
//! larger than that by a margin of whole records, since the allocation may
//! itself add records to the map, and asks again. While the firmware still
//! finds the buffer too small, the reader has a larger one allocated and
//! asks once more, up to a fixed number of retries. The map that is finally
//! written becomes a snapshot, together with the token that came with it.
//!
//! A buffer that was found too small is left to the firmware, which takes
//! all pool memory back when the boot services end.

use vstd::prelude::*;
use crate::descriptor::LOADER_DATA;
use crate::error::LoaderError;
use crate::firmware::{FirmwareReply, FirmwareRequest, ReplyView, buffer_of};
use crate::order::ascending;
use crate::snapshot::{MemoryMapSnapshot, SnapshotView, captured, is_whole_map};
use crate::snapshot::lemma_captured_is_stable;

verus! {

/// The number of records by which a buffer exceeds the size that the
/// firmware asked for, and by which it grows at each retry.
pub const SAFETY_MARGIN_RECORDS: usize = 16;

/// Where a reader stands, as plain values.
pub enum ReaderPhaseView {
    /// The size of the map has been asked for.
    Probing,
    /// A buffer of `size` bytes has been asked for.
    Allocating { size: usize },
    /// The map has been asked for, into a buffer of `size` bytes.
    Fetching { size: usize },
    /// The map has been read.
    Done(SnapshotView),
    /// The map could not be read.
    Failed(LoaderError),
}

/// A reader, as plain values.
pub struct ReaderView {
    /// How often the reader may try again after the first buffer proved too
    /// small.
    pub max_retries: u32,
    /// How often it has done so.
    pub retries: u32,
    /// How often the firmware has been asked for the map, the size probe and
    /// a request not yet answered included.
    pub queries: nat,
    /// Where the reader stands.
    pub phase: ReaderPhaseView,
}

/// The reader before its first reply: the size probe is under way.
pub open spec fn initial(max_retries: u32) -> ReaderView {
    ReaderView { max_retries, retries: 0, queries: 1, phase: ReaderPhaseView::Probing }
}

/// Whether the reader still waits for a reply.
pub open spec fn running(reader: ReaderView) -> bool {
    !(reader.phase is Done) && !(reader.phase is Failed)
}

/// The call whose reply the reader waits for, if it waits for one.
pub open spec fn pending(reader: ReaderView) -> Option<FirmwareRequest> {
    match reader.phase {
        ReaderPhaseView::Probing => Some(FirmwareRequest::GetMemoryMap { buffer_size: 0 }),
        ReaderPhaseView::Allocating { size } => Some(buffer_of(size)),
        ReaderPhaseView::Fetching { size } => Some(
            FirmwareRequest::GetMemoryMap { buffer_size: size },
        ),
        ReaderPhaseView::Done(_) => None,
        ReaderPhaseView::Failed(_) => None,
    }
}

/// The size of the buffer to allocate when `base` bytes were not enough for
/// a map whose records lie `descriptor_size` apart.
pub open spec fn grown(base: usize, descriptor_size: usize) -> int {
    base + SAFETY_MARGIN_RECORDS * descriptor_size
}

/// `reader`, stopped by `error`.
pub open spec fn stopped(reader: ReaderView, error: LoaderError) -> ReaderView {
    ReaderView {
        max_retries: reader.max_retries,
        retries: reader.retries,
        queries: reader.queries,
        phase: ReaderPhaseView::Failed(error),
    }
}

/// `reader` after a buffer of `base` bytes proved too small: it asks for a
/// larger one, or stops with `AllocationFailure` where no buffer can be that
/// large.
pub open spec fn enlarging(reader: ReaderView, base: usize, descriptor_size: usize)
    -> ReaderView {
    if grown(base, descriptor_size) <= usize::MAX {
        ReaderView {
            max_retries: reader.max_retries,
            retries: reader.retries,
            queries: reader.queries,
            phase: ReaderPhaseView::Allocating { size: grown(base, descriptor_size) as usize },
        }
    } else {
        stopped(reader, LoaderError::AllocationFailure)
    }
}

/// `reader` after the firmware wrote the map: it holds the snapshot, or has
/// stopped with `MalformedMap` where the bytes are no whole number of
/// records.
pub open spec fn concluded(
    reader: ReaderView,
    map: Seq<u8>,
    descriptor_size: usize,
    map_key: u64,
) -> ReaderView {
    if is_whole_map(map.len() as int, descriptor_size as int) {
        ReaderView {
            max_retries: reader.max_retries,
            retries: reader.retries,
            queries: reader.queries,
            phase: ReaderPhaseView::Done(captured(map, descriptor_size, map_key)),
        }
    } else {
        stopped(reader, LoaderError::MalformedMap)
    }
}

/// The reader after the firmware has answered the pending call with `reply`.
///
/// A reader that waits for no reply stays as it is. A reply that cannot
/// answer the pending call stops the reader with `FirmwareRejection`.
pub open spec fn after(reader: ReaderView, reply: ReplyView) -> ReaderView {
    match reader.phase {
        ReaderPhaseView::Probing => match reply {
            ReplyView::BufferTooSmall { required_size, descriptor_size } => enlarging(
                reader,
                required_size,
                descriptor_size,
            ),
            ReplyView::MemoryMap { map, descriptor_size, map_key } => concluded(
                reader,
                map,
                descriptor_size,
                map_key,
            ),
            _ => stopped(reader, LoaderError::FirmwareRejection),
        },
        ReaderPhaseView::Allocating { size } => match reply {
            ReplyView::Granted => ReaderView {
                max_retries: reader.max_retries,
                retries: reader.retries,
                queries: reader.queries + 1,
                phase: ReaderPhaseView::Fetching { size },
            },
            ReplyView::Denied => stopped(reader, LoaderError::AllocationFailure),
            _ => stopped(reader, LoaderError::FirmwareRejection),
        },
        ReaderPhaseView::Fetching { size } => match reply {
            ReplyView::MemoryMap { map, descriptor_size, map_key } => concluded(
                reader,
                map,
                descriptor_size,
                map_key,
            ),
            ReplyView::BufferTooSmall { required_size, descriptor_size } => if reader.retries
                < reader.max_retries {
                enlarging(
                    ReaderView {
                        max_retries: reader.max_retries,
                        retries: (reader.retries + 1) as u32,
                        queries: reader.queries,
                        phase: reader.phase,
                    },
                    size,
                    descriptor_size,
                )
            } else {
                stopped(reader, LoaderError::MapUnstable)
            },
            _ => stopped(reader, LoaderError::FirmwareRejection),
        },
        ReaderPhaseView::Done(_) => reader,
        ReaderPhaseView::Failed(_) => reader,
    }
}

/// The reader after the firmware has answered with `replies`, one after the
/// other.
pub open spec fn after_all(reader: ReaderView, replies: Seq<ReplyView>) -> ReaderView
    decreases replies.len(),
{
    if replies.len() == 0 {
        reader
    } else {
        after(after_all(reader, replies.drop_last()), replies.last())
    }
}

/// What holds of every reader that began as [`initial`]: the retries stay
/// within their bound, the queries are counted as the phases say, and a
/// snapshot that was read holds its records ascending.
pub open spec fn consistent(reader: ReaderView) -> bool {
    &&& reader.retries <= reader.max_retries
    &&& 1 <= reader.queries <= reader.retries + 2
    &&& match reader.phase {
        ReaderPhaseView::Probing => reader.queries == 1 && reader.retries == 0,
        ReaderPhaseView::Allocating { size } => reader.queries == reader.retries + 1,
        ReaderPhaseView::Fetching { size } => reader.queries == reader.retries + 2,
        ReaderPhaseView::Done(snapshot) => ascending(snapshot.descriptors),
        ReaderPhaseView::Failed(error) => error == LoaderError::MapUnstable ==> reader.retries
            == reader.max_retries && reader.queries == reader.max_retries + 2,
    }
}

/// The most replies that the reader can still take before it has finished.
pub open spec fn replies_left(reader: ReaderView) -> nat {
    let retries_left = (reader.max_retries - reader.retries) as nat;
    match reader.phase {
        ReaderPhaseView::Probing => 2 * retries_left + 3,
        ReaderPhaseView::Allocating { size } => 2 * retries_left + 2,
        ReaderPhaseView::Fetching { size } => 2 * retries_left + 1,
        ReaderPhaseView::Done(_) => 0,
        ReaderPhaseView::Failed(_) => 0,
    }
}

/// A reader is consistent when it starts.
pub proof fn lemma_initial_is_consistent(max_retries: u32)
    ensures
        consistent(initial(max_retries)),
        running(initial(max_retries)),
        pending(initial(max_retries)) == Some(FirmwareRequest::GetMemoryMap { buffer_size: 0 }),
{
}

/// A reader that has finished calls the firmware no more and is changed by
/// no reply.
pub proof fn lemma_finished_is_final(reader: ReaderView, reply: ReplyView)
    requires
        !running(reader),
    ensures
        pending(reader) is None,
        after(reader, reply) == reader,
{
}

/// A reader that is consistent stays so, whatever the firmware answers.
pub proof fn lemma_after_is_consistent(reader: ReaderView, reply: ReplyView)
    requires
        consistent(reader),
    ensures
        consistent(after(reader, reply)),
        after(reader, reply).max_retries == reader.max_retries,
{
    if let ReplyView::MemoryMap { map, descriptor_size, map_key } = reply {
        lemma_captured_is_stable(map, descriptor_size, map_key);
    }
}

/// Every reply brings a running reader closer to its end, whatever the
/// firmware answers: a reader cannot be kept waiting for ever.
pub proof fn lemma_after_makes_progress(reader: ReaderView, reply: ReplyView)
    requires
        consistent(reader),
        running(reader),
    ensures
        replies_left(after(reader, reply)) < replies_left(reader),
{
}

/// Whatever the firmware answers, a reader stays consistent through all the
/// replies, and has finished once it has taken as many replies as it had
/// left: at most three, and two more for each retry.
pub proof fn lemma_reader_finishes_in_time(reader: ReaderView, replies: Seq<ReplyView>)
    requires
        consistent(reader),
    ensures
        consistent(after_all(reader, replies)),
        after_all(reader, replies).max_retries == reader.max_retries,
        replies_left(after_all(reader, replies)) + replies.len() <= replies_left(reader)
            || !running(after_all(reader, replies)),
        replies.len() >= replies_left(reader) ==> !running(after_all(reader, replies)),
        replies_left(reader) <= 2 * reader.max_retries + 3,
    decreases replies.len(),
{
    if replies.len() > 0 {
        let before = after_all(reader, replies.drop_last());
        lemma_reader_finishes_in_time(reader, replies.drop_last());
        lemma_after_is_consistent(before, replies.last());
        if running(before) {
            lemma_after_makes_progress(before, replies.last());
        }
    }
}

/// A reader never asks the firmware for the map more often than twice and
/// once for each retry.
pub proof fn lemma_queries_are_bounded(reader: ReaderView)
    requires
        consistent(reader),
    ensures
        reader.queries <= reader.max_retries + 2,
{
}

/// The replies of a firmware that finds the buffer too small at the size
/// probe, grants the buffer, and then writes the map.
pub open spec fn settled_replies(
    required_size: usize,
    probed_size: usize,
    map: Seq<u8>,
    descriptor_size: usize,
    map_key: u64,
) -> Seq<ReplyView> {
    seq![
        ReplyView::BufferTooSmall { required_size, descriptor_size: probed_size },
        ReplyView::Granted,
        ReplyView::MemoryMap { map, descriptor_size, map_key },
    ]
}

/// Where the firmware finds the buffer too small once, at the size probe,
/// and then writes the map, the reader finishes after two queries and
/// without a retry: with the snapshot of what was written, or with
/// `MalformedMap` where that is no whole number of records.
///
/// The buffer that the probe calls for has to be possible: its size must fit
/// the machine's addresses.
pub proof fn lemma_settled_map_takes_two_queries(
    max_retries: u32,
    required_size: usize,
    probed_size: usize,
    map: Seq<u8>,
    descriptor_size: usize,
    map_key: u64,
)
    requires
        grown(required_size, probed_size) <= usize::MAX,
    ensures
        ({
            let end = after_all(
                initial(max_retries),
                settled_replies(required_size, probed_size, map, descriptor_size, map_key),
            );
            &&& !running(end)
            &&& end.queries == 2
            &&& end.retries == 0
            &&& is_whole_map(map.len() as int, descriptor_size as int) ==> end.phase
                == ReaderPhaseView::Done(captured(map, descriptor_size, map_key))
            &&& !is_whole_map(map.len() as int, descriptor_size as int) ==> end.phase
                == ReaderPhaseView::Failed(LoaderError::MalformedMap)
        }),
{
    let replies = settled_replies(required_size, probed_size, map, descriptor_size, map_key);
    let first = replies.drop_last().drop_last();
    let second = replies.drop_last();
    assert(first.drop_last() =~= Seq::<ReplyView>::empty());
    assert(after_all(initial(max_retries), first.drop_last()) == initial(max_retries));
    assert(first.last() == replies[0]);
    assert(second.last() == replies[1]);
    assert(replies.last() == replies[2]);
    let probed = after_all(initial(max_retries), first);
    assert(probed == after(initial(max_retries), replies[0]));
    let allocated = after_all(initial(max_retries), second);
    assert(allocated == after(probed, replies[1]));
}

/// The first `count` replies of a firmware that finds every buffer too small
/// for a map of `required_size` bytes at stride `descriptor_size`, and
/// grants every buffer asked for.
pub open spec fn starving_replies(required_size: usize, descriptor_size: usize, count: nat) -> Seq<
    ReplyView,
> {
    Seq::new(
        count,
        |i: int|
            if i % 2 == 0 {
                ReplyView::BufferTooSmall { required_size, descriptor_size }
            } else {
                ReplyView::Granted
            },
    )
}

/// The reader after `count` replies of a firmware that finds every buffer
/// too small, as long as retries are left.
spec fn starved(max_retries: u32, required_size: usize, descriptor_size: usize, count: nat)
    -> ReaderView {
    let round = count / 2;
    let size = (required_size + SAFETY_MARGIN_RECORDS * (descriptor_size * round)) as usize;
    if count == 0 {
        initial(max_retries)
    } else if count % 2 == 0 {
        ReaderView {
            max_retries,
            retries: (round - 1) as u32,
            queries: round + 1,
            phase: ReaderPhaseView::Fetching { size },
        }
    } else {
        ReaderView {
            max_retries,
            retries: round as u32,
            queries: round + 1,
            phase: ReaderPhaseView::Allocating {
                size: (required_size + SAFETY_MARGIN_RECORDS * (descriptor_size * (round + 1)))
                    as usize,
            },
        }
    }
}

/// The sizes that a starved reader asks for grow by one margin a round and
/// stay below the largest of them.
proof fn lemma_margin_rounds(descriptor_size: int, round: int, rounds: int)
    by (nonlinear_arith)
    requires
        0 <= descriptor_size,
        0 <= round < rounds,
    ensures
        0 <= descriptor_size * round,
        round == 0 ==> descriptor_size * round == 0,
        descriptor_size * (round + 1) == descriptor_size * round + descriptor_size,
        descriptor_size * (round + 1) <= descriptor_size * rounds,
{
}

/// A starved reader goes through its phases round by round.
proof fn lemma_starved(max_retries: u32, required_size: usize, descriptor_size: usize, count: nat)
    requires
        required_size + SAFETY_MARGIN_RECORDS * (descriptor_size * (max_retries + 1))
            <= usize::MAX,
        count <= 2 * max_retries + 2,
    ensures
        after_all(initial(max_retries), starving_replies(required_size, descriptor_size, count))
            == starved(max_retries, required_size, descriptor_size, count),
    decreases count,
{
    let replies = starving_replies(required_size, descriptor_size, count);
    if count > 0 {
        let before = (count - 1) as nat;
        lemma_starved(max_retries, required_size, descriptor_size, before);
        assert(replies.drop_last() =~= starving_replies(required_size, descriptor_size, before));
        let pre = starved(max_retries, required_size, descriptor_size, before);
        let post = starved(max_retries, required_size, descriptor_size, count);
        assert(after_all(initial(max_retries), replies) == after(pre, replies.last()));
        let round = before as int / 2;
        let stride = descriptor_size as int;
        lemma_margin_rounds(stride, round, max_retries + 1);
        let size = required_size + SAFETY_MARGIN_RECORDS * (stride * round);
        let larger = required_size + SAFETY_MARGIN_RECORDS * (stride * (round + 1));
        assert(larger == size + SAFETY_MARGIN_RECORDS * stride);
        assert(0 <= size <= larger <= usize::MAX);
        if before % 2 == 0 {
            assert(count as int / 2 == round && count % 2 == 1);
            assert(replies.last() == ReplyView::BufferTooSmall { required_size, descriptor_size });
            if before == 0 {
                assert(pre == initial(max_retries));
                assert(size == required_size);
                assert(grown(required_size, descriptor_size) == larger);
                assert(after(pre, replies.last()) == post);
            } else {
                assert(pre.phase == ReaderPhaseView::Fetching { size: size as usize });
                assert(pre.retries == round - 1);
                assert(pre.retries < max_retries);
                assert(grown(size as usize, descriptor_size) == larger);
                assert(after(pre, replies.last()) == post);
            }
        } else {
            assert(count as int / 2 == round + 1 && count % 2 == 0);
            assert(replies.last() == ReplyView::Granted);
            assert(pre.phase == ReaderPhaseView::Allocating { size: larger as usize });
            assert(after(pre, replies.last()) == post);
        }
    }
}

/// Where the firmware finds every buffer too small, the reader gives up with
/// `MapUnstable` when its retries are used up, having asked for the map
/// twice and once for each retry; until then it goes on.
///
/// Every buffer that the reader calls for on the way has to be possible: the
/// largest of them, a margin larger than the map for each query after the
/// probe, must fit the machine's addresses.
pub proof fn lemma_starved_reader_gives_up(
    max_retries: u32,
    required_size: usize,
    descriptor_size: usize,
    count: nat,
)
    requires
        required_size + SAFETY_MARGIN_RECORDS * (descriptor_size * (max_retries + 1))
            <= usize::MAX,
        count <= 2 * max_retries + 3,
    ensures
        ({
            let end = after_all(
                initial(max_retries),
                starving_replies(required_size, descriptor_size, count),
            );
            &&& count < 2 * max_retries + 3 ==> running(end)
            &&& count == 2 * max_retries + 3 ==> end.phase == ReaderPhaseView::Failed(
                LoaderError::MapUnstable,
            ) && end.queries == max_retries + 2 && end.retries == max_retries
        }),
{
    if count < 2 * max_retries + 3 {
        lemma_starved(max_retries, required_size, descriptor_size, count);
    } else {
        let before = (count - 1) as nat;
        let replies = starving_replies(required_size, descriptor_size, count);
        lemma_starved(max_retries, required_size, descriptor_size, before);
        assert(replies.drop_last() =~= starving_replies(required_size, descriptor_size, before));
    }
}

/// Where a reader stands.
#[derive(Debug)]
enum ReaderPhase {
    Probing,
    Allocating { size: usize },
    Fetching { size: usize },
    Done(MemoryMapSnapshot),
    Failed(LoaderError),
}

impl View for ReaderPhase {
    type V = ReaderPhaseView;

    closed spec fn view(&self) -> ReaderPhaseView {
        match *self {
            ReaderPhase::Probing => ReaderPhaseView::Probing,
            ReaderPhase::Allocating { size } => ReaderPhaseView::Allocating { size },
            ReaderPhase::Fetching { size } => ReaderPhaseView::Fetching { size },
            ReaderPhase::Done(snapshot) => ReaderPhaseView::Done(snapshot@),
            ReaderPhase::Failed(error) => ReaderPhaseView::Failed(error),
        }
    }
}

/// The memory map reader: it says which call of the firmware is due, takes
/// the reply, and ends with a snapshot or an error.
#[derive(Debug)]
pub struct MapReader {
    max_retries: u32,
    retries: u32,
    queries: u64,
    phase: ReaderPhase,
}

impl View for MapReader {
    type V = ReaderView;

    closed spec fn view(&self) -> ReaderView {
        ReaderView {
            max_retries: self.max_retries,
            retries: self.retries,
            queries: self.queries as nat,
            phase: self.phase@,
        }
    }
}

impl MapReader {
    #[verifier::type_invariant]
    spec fn inv(&self) -> bool {
        consistent(self@)
    }

    /// Starts a reader that retries at most `max_retries` times. It waits
    /// for the reply to the size probe.
    pub fn new(max_retries: u32) -> (reader: MapReader)
        ensures
            reader@ == initial(max_retries),
    {
        MapReader { max_retries, retries: 0, queries: 1, phase: ReaderPhase::Probing }
    }

    /// The call of the firmware that is due, or `None` once the reader has
    /// finished.
    pub fn request(&self) -> (request: Option<FirmwareRequest>)
        ensures
            request == pending(self@),
    {
        match &self.phase {
            ReaderPhase::Probing => Some(FirmwareRequest::GetMemoryMap { buffer_size: 0 }),
            ReaderPhase::Allocating { size } => Some(
                FirmwareRequest::AllocatePool { memory_type: LOADER_DATA, size: *size },
            ),
            ReaderPhase::Fetching { size } => Some(
                FirmwareRequest::GetMemoryMap { buffer_size: *size },
            ),
            ReaderPhase::Done(_) => None,
            ReaderPhase::Failed(_) => None,
        }
    }

    /// Takes the firmware's reply to the call that was due.
    pub fn advance(self, reply: FirmwareReply) -> (next: MapReader)
        ensures
            next@ == after(self@, reply@),
            consistent(next@),
    {
        proof {
            use_type_invariant(&self);
            lemma_after_is_consistent(self@, reply@);
        }
        let MapReader { max_retries, retries, queries, phase } = self;
        match phase {
            ReaderPhase::Probing => match reply {
                FirmwareReply::BufferTooSmall { required_size, descriptor_size } => MapReader {
                    max_retries,
                    retries,
                    queries,
                    phase: enlarge(required_size, descriptor_size),
                },
                FirmwareReply::MemoryMap { map, descriptor_size, map_key } => MapReader {
                    max_retries,
                    retries,
                    queries,
                    phase: conclude(map, descriptor_size, map_key),
                },
                _ => MapReader {
                    max_retries,
                    retries,
                    queries,
                    phase: ReaderPhase::Failed(LoaderError::FirmwareRejection),
                },
            },
            ReaderPhase::Allocating { size } => match reply {
                FirmwareReply::Granted => MapReader {
                    max_retries,
                    retries,
                    queries: queries + 1,
                    phase: ReaderPhase::Fetching { size },
                },
                FirmwareReply::Denied => MapReader {
                    max_retries,
                    retries,
                    queries,
                    phase: ReaderPhase::Failed(LoaderError::AllocationFailure),
                },
                _ => MapReader {
                    max_retries,
                    retries,
                    queries,
                    phase: ReaderPhase::Failed(LoaderError::FirmwareRejection),
                },
            },
            ReaderPhase::Fetching { size } => match reply {
                FirmwareReply::MemoryMap { map, descriptor_size, map_key } => MapReader {
                    max_retries,
                    retries,
                    queries,
                    phase: conclude(map, descriptor_size, map_key),
                },
                FirmwareReply::BufferTooSmall { required_size, descriptor_size } => {
                    if retries < max_retries {
                        MapReader {
                            max_retries,
                            retries: retries + 1,
                            queries,
                            phase: enlarge(size, descriptor_size),
                        }
                    } else {
                        MapReader {
                            max_retries,
                            retries,
                            queries,
                            phase: ReaderPhase::Failed(LoaderError::MapUnstable),
                        }
                    }
                },
                _ => MapReader {
                    max_retries,
                    retries,
                    queries,
                    phase: ReaderPhase::Failed(LoaderError::FirmwareRejection),
                },
            },
            ReaderPhase::Done(snapshot) => MapReader {
                max_retries,
                retries,
                queries,
                phase: ReaderPhase::Done(snapshot),
            },
            ReaderPhase::Failed(error) => MapReader {
                max_retries,
                retries,
                queries,
                phase: ReaderPhase::Failed(error),
            },
        }
    }

    /// Whether the reader has ended, with a snapshot or with an error.
    pub fn is_finished(&self) -> (finished: bool)
        ensures
            finished == !running(self@),
    {
        match &self.phase {
            ReaderPhase::Done(_) => true,
            ReaderPhase::Failed(_) => true,
            _ => false,
        }
    }

    /// How often the firmware has been asked for the map so far, the size
    /// probe and a request not yet answered included.
    pub fn queries(&self) -> (queries: u64)
        ensures
            queries == self@.queries,
            1 <= queries <= self@.max_retries + 2,
    {
        proof {
            use_type_invariant(self);
        }
        self.queries
    }

    /// How often the reader has tried again with a larger buffer.
    pub fn retries(&self) -> (retries: u32)
        ensures
            retries == self@.retries,
            retries <= self@.max_retries,
    {
        proof {
            use_type_invariant(self);
        }
        self.retries
    }

    /// The snapshot or the error that the reader ended with; `None` while it
    /// still waits for a reply.
    pub fn into_outcome(self) -> (outcome: Option<Result<MemoryMapSnapshot, LoaderError>>)
        ensures
            match self@.phase {
                ReaderPhaseView::Done(snapshot) => outcome is Some && outcome->Some_0 is Ok
                    && outcome->Some_0->Ok_0@ == snapshot,
                ReaderPhaseView::Failed(error) => outcome is Some && outcome->Some_0 is Err
                    && outcome->Some_0->Err_0 == error,
                _ => outcome is None,
            },
    {
        match self.phase {
            ReaderPhase::Done(snapshot) => Some(Ok(snapshot)),
            ReaderPhase::Failed(error) => Some(Err(error)),
            _ => None,
        }
    }
}

/// The phase in which a buffer larger than `base` is asked for.
fn enlarge(base: usize, descriptor_size: usize) -> (phase: ReaderPhase)
    ensures
        grown(base, descriptor_size) <= usize::MAX ==> phase@ == (ReaderPhaseView::Allocating {
            size: grown(base, descriptor_size) as usize,
        }),
        grown(base, descriptor_size) > usize::MAX ==> phase@ == ReaderPhaseView::Failed(
            LoaderError::AllocationFailure,
        ),
{
    let size = match SAFETY_MARGIN_RECORDS.checked_mul(descriptor_size) {
        Some(margin) => base.checked_add(margin),
        None => None,
    };
    match size {
        Some(size) => ReaderPhase::Allocating { size },
        None => ReaderPhase::Failed(LoaderError::AllocationFailure),
    }
}

/// The phase that the written map leads to.
fn conclude(map: Vec<u8>, descriptor_size: usize, map_key: u64) -> (phase: ReaderPhase)
    ensures
        is_whole_map(map.len() as int, descriptor_size as int) ==> phase@
            == ReaderPhaseView::Done(captured(map@, descriptor_size, map_key)),
        !is_whole_map(map.len() as int, descriptor_size as int) ==> phase@
            == ReaderPhaseView::Failed(LoaderError::MalformedMap),
{
    match MemoryMapSnapshot::capture(map.as_slice(), descriptor_size, map_key) {
        Ok(snapshot) => ReaderPhase::Done(snapshot),
        Err(error) => ReaderPhase::Failed(error),
    }
}

} // verus!
