//! From the first look at the memory map to the end of the boot services.
//!
//! The sequence is: read the memory map, select the region for the kernel,
//! reserve it, and leave the boot services with the token of the map. The
//! firmware lets go only if the map has not changed since the token was
//! given out, and the reservation itself changes the map; so the token is
//! often stale. The whole sequence is then gone through again with a fresh
//! map, except that a reservation once made is kept and not asked for a
//! second time. A reservation that the firmware refuses leads to a fresh map
//! as well, and never to a second request for the same address on the
//! strength of the old map. The number of fresh starts is bounded.
//!
//! The end is one of two states that are never left: the boot services have
//! ended, or the boot stage has halted with an error.

use vstd::prelude::*;
use crate::error::LoaderError;
use crate::firmware::{FirmwareReply, FirmwareRequest, ReplyView};
use crate::firmware::{exit_outcome, exit_request, reserve_outcome, reserve_request};
use crate::firmware::{exit_with, exited, reservation_of, reserved};
use crate::order::ascending;
use crate::reader::{MapReader, ReaderPhaseView, ReaderView};
use crate::region::{RegionReservation, select_region, selected};
use crate::snapshot::{MemoryMapSnapshot, SnapshotView};

verus! {

/// What the boot stage is set to do.
#[derive(Clone, Copy, Debug, PartialEq, Eq, Structural)]
pub struct HandoffPolicy {
    /// The number of pages that the kernel image takes.
    pub required_pages: u64,
    /// How often one reading of the memory map may try again with a larger
    /// buffer.
    pub max_map_retries: u32,
    /// How often the sequence may start again with a fresh memory map.
    pub max_refetches: u32,
}

/// What whoever drives the boot stage has to do next.
#[derive(Clone, Copy, Debug, PartialEq, Eq, Structural)]
pub enum NextStep {
    /// Call the firmware, and hand back its reply.
    Call(FirmwareRequest),
    /// The boot services have ended: go on without the firmware.
    Proceed,
    /// Nothing can be done any more: report the error and stay idle.
    Halt(LoaderError),
}

/// Where the sequence stands, as plain values.
pub enum HandoffPhaseView {
    /// The memory map is being read.
    Fetching(ReaderView),
    /// `region` was selected from `snapshot`, and its reservation has been
    /// asked for.
    Reserving { snapshot: SnapshotView, region: RegionReservation },
    /// The region is reserved, and the firmware has been asked to end the
    /// boot services with the token of `snapshot`.
    Exiting { snapshot: SnapshotView },
    /// The boot services have ended; `snapshot` is the last memory map.
    Exited { snapshot: SnapshotView },
    /// The boot stage has halted.
    Halted(LoaderError),
}

/// The sequence, as plain values.
pub struct HandoffView {
    /// What the boot stage is set to do.
    pub policy: HandoffPolicy,
    /// The region that has been reserved, once it has been.
    pub reservation: Option<RegionReservation>,
    /// How often the sequence has started again with a fresh memory map.
    pub refetches: u32,
    /// Where the sequence stands.
    pub phase: HandoffPhaseView,
}

/// The sequence before the first reply: the first reading of the memory map
/// has begun.
pub open spec fn initial(policy: HandoffPolicy) -> HandoffView {
    HandoffView {
        policy,
        reservation: None,
        refetches: 0,
        phase: HandoffPhaseView::Fetching(crate::reader::initial(policy.max_map_retries)),
    }
}

/// Whether the sequence still waits for a reply.
pub open spec fn running(handoff: HandoffView) -> bool {
    !(handoff.phase is Exited) && !(handoff.phase is Halted)
}

/// What is to be done next.
pub open spec fn due(handoff: HandoffView) -> NextStep {
    match handoff.phase {
        HandoffPhaseView::Fetching(reader) => match crate::reader::pending(reader) {
            Some(request) => NextStep::Call(request),
            None => NextStep::Halt(LoaderError::FirmwareRejection),
        },
        HandoffPhaseView::Reserving { snapshot, region } => NextStep::Call(reservation_of(region)),
        HandoffPhaseView::Exiting { snapshot } => NextStep::Call(
            exit_with(snapshot.freshness_token),
        ),
        HandoffPhaseView::Exited { snapshot } => NextStep::Proceed,
        HandoffPhaseView::Halted(error) => NextStep::Halt(error),
    }
}

/// `handoff` in another phase.
pub open spec fn moved(handoff: HandoffView, phase: HandoffPhaseView) -> HandoffView {
    HandoffView {
        policy: handoff.policy,
        reservation: handoff.reservation,
        refetches: handoff.refetches,
        phase,
    }
}

/// `handoff` with a fresh memory map in hand. Where the region is reserved
/// already, the firmware is asked to end the boot services; else the region
/// is selected and its reservation asked for, or the boot stage halts with
/// `NoSuitableRegion` where no range fits.
pub open spec fn mapped(handoff: HandoffView, snapshot: SnapshotView) -> HandoffView {
    if handoff.reservation is Some {
        moved(handoff, HandoffPhaseView::Exiting { snapshot })
    } else {
        match selected(snapshot.descriptors, handoff.policy.required_pages) {
            Some(region) => moved(handoff, HandoffPhaseView::Reserving { snapshot, region }),
            None => moved(handoff, HandoffPhaseView::Halted(LoaderError::NoSuitableRegion)),
        }
    }
}

/// `handoff` after a failure that a fresh memory map may cure: the sequence
/// starts again if it may, and halts with `error` if not.
pub open spec fn restarted(handoff: HandoffView, error: LoaderError) -> HandoffView {
    if handoff.refetches < handoff.policy.max_refetches {
        HandoffView {
            policy: handoff.policy,
            reservation: handoff.reservation,
            refetches: (handoff.refetches + 1) as u32,
            phase: HandoffPhaseView::Fetching(
                crate::reader::initial(handoff.policy.max_map_retries),
            ),
        }
    } else {
        moved(handoff, HandoffPhaseView::Halted(error))
    }
}

/// `handoff` after the reservation or the exit failed with `error`. A
/// refused reservation and a stale token are cured by a fresh memory map;
/// anything else halts the boot stage.
pub open spec fn failed(handoff: HandoffView, error: LoaderError) -> HandoffView {
    if error == LoaderError::AllocationFailure || error == LoaderError::StaleToken {
        restarted(handoff, error)
    } else {
        moved(handoff, HandoffPhaseView::Halted(error))
    }
}

/// The sequence after the firmware has answered the call that was due with
/// `reply`.
///
/// A sequence that has ended stays as it is. A reply that cannot answer the
/// call that was due halts the boot stage with `FirmwareRejection`.
pub open spec fn after(handoff: HandoffView, reply: ReplyView) -> HandoffView {
    match handoff.phase {
        HandoffPhaseView::Fetching(reader) => {
            let next = crate::reader::after(reader, reply);
            match next.phase {
                ReaderPhaseView::Done(snapshot) => mapped(handoff, snapshot),
                ReaderPhaseView::Failed(error) => moved(handoff, HandoffPhaseView::Halted(error)),
                _ => moved(handoff, HandoffPhaseView::Fetching(next)),
            }
        },
        HandoffPhaseView::Reserving { snapshot, region } => match reserved(reply) {
            Ok(_) => HandoffView {
                policy: handoff.policy,
                reservation: Some(region),
                refetches: handoff.refetches,
                phase: HandoffPhaseView::Exiting { snapshot },
            },
            Err(error) => failed(handoff, error),
        },
        HandoffPhaseView::Exiting { snapshot } => match exited(reply) {
            Ok(_) => moved(handoff, HandoffPhaseView::Exited { snapshot }),
            Err(error) => failed(handoff, error),
        },
        HandoffPhaseView::Exited { snapshot } => handoff,
        HandoffPhaseView::Halted(error) => handoff,
    }
}

/// The sequence after the firmware has answered with `replies`, one after
/// the other.
pub open spec fn after_all(handoff: HandoffView, replies: Seq<ReplyView>) -> HandoffView
    decreases replies.len(),
{
    if replies.len() == 0 {
        handoff
    } else {
        after(after_all(handoff, replies.drop_last()), replies.last())
    }
}

/// What holds of every sequence that began as [`initial`].
pub open spec fn consistent(handoff: HandoffView) -> bool {
    &&& handoff.refetches <= handoff.policy.max_refetches
    &&& match handoff.phase {
        HandoffPhaseView::Fetching(reader) => {
            &&& crate::reader::consistent(reader)
            &&& crate::reader::running(reader)
            &&& reader.max_retries == handoff.policy.max_map_retries
        },
        HandoffPhaseView::Reserving { snapshot, region } => {
            &&& handoff.reservation is None
            &&& ascending(snapshot.descriptors)
            &&& selected(snapshot.descriptors, handoff.policy.required_pages) == Some(region)
        },
        HandoffPhaseView::Exiting { snapshot } => {
            &&& handoff.reservation is Some
            &&& ascending(snapshot.descriptors)
        },
        HandoffPhaseView::Exited { snapshot } => {
            &&& handoff.reservation is Some
            &&& ascending(snapshot.descriptors)
        },
        HandoffPhaseView::Halted(error) => {
            &&& error == LoaderError::StaleToken ==> handoff.refetches
                == handoff.policy.max_refetches
            &&& error == LoaderError::NoSuitableRegion ==> handoff.reservation is None
        },
    }
    &&& handoff.reservation matches Some(region) ==> region.page_count
        == handoff.policy.required_pages
}

/// The most replies that one pass through the sequence can take: those of
/// one reading of the map, one for the reservation and one for the exit.
pub open spec fn replies_per_pass(policy: HandoffPolicy) -> nat {
    (2 * policy.max_map_retries + 5) as nat
}

/// The most replies that the sequence can still take before it has ended.
pub open spec fn replies_left(handoff: HandoffView) -> nat {
    let passes_left = (handoff.policy.max_refetches - handoff.refetches) as nat;
    passes_left * replies_per_pass(handoff.policy) + match handoff.phase {
        HandoffPhaseView::Fetching(reader) => crate::reader::replies_left(reader) + 2,
        HandoffPhaseView::Reserving { snapshot, region } => 2,
        HandoffPhaseView::Exiting { snapshot } => 1,
        HandoffPhaseView::Exited { snapshot } => 0,
        HandoffPhaseView::Halted(error) => 0,
    }
}

/// A sequence is consistent when it starts, and begins with the size probe.
pub proof fn lemma_initial_is_consistent(policy: HandoffPolicy)
    ensures
        consistent(initial(policy)),
        due(initial(policy)) == NextStep::Call(FirmwareRequest::GetMemoryMap { buffer_size: 0 }),
{
}

/// The two ends are final: a sequence that has ended calls the firmware no
/// more, and no reply changes it. After the boot services have ended the
/// step is to proceed, after a halt it is to halt.
pub proof fn lemma_ended_is_final(handoff: HandoffView, reply: ReplyView)
    requires
        !running(handoff),
    ensures
        !(due(handoff) is Call),
        after(handoff, reply) == handoff,
        handoff.phase is Exited <==> due(handoff) == NextStep::Proceed,
{
}

/// A consistent sequence that has not ended always has a call of the
/// firmware due.
pub proof fn lemma_running_has_a_call_due(handoff: HandoffView)
    requires
        consistent(handoff),
        running(handoff),
    ensures
        due(handoff) is Call,
{
}

/// The exit is asked for with the token of the memory map in hand, and only
/// once the region is reserved. Where the exit becomes due while the map is
/// being read, the reply that brought it on is the map itself, and the token
/// is the one that came with that map: no call of the firmware lies between
/// the map and the exit.
pub proof fn lemma_exit_follows_the_map(handoff: HandoffView, reply: ReplyView)
    requires
        consistent(handoff),
        after(handoff, reply).phase is Exiting,
    ensures
        after(handoff, reply).reservation is Some,
        due(after(handoff, reply)) == NextStep::Call(
            exit_with(after(handoff, reply).phase->Exiting_snapshot.freshness_token),
        ),
        handoff.phase is Fetching ==> handoff.reservation is Some && reply is MemoryMap
            && after(handoff, reply).phase->Exiting_snapshot.freshness_token == reply->map_key,
{
    if let HandoffPhaseView::Fetching(reader) = handoff.phase {
        crate::reader::lemma_after_is_consistent(reader, reply);
    }
}

/// A sequence that is consistent stays so, whatever the firmware answers,
/// and keeps its policy.
pub proof fn lemma_after_is_consistent(handoff: HandoffView, reply: ReplyView)
    requires
        consistent(handoff),
    ensures
        consistent(after(handoff, reply)),
        after(handoff, reply).policy == handoff.policy,
{
    if let HandoffPhaseView::Fetching(reader) = handoff.phase {
        crate::reader::lemma_after_is_consistent(reader, reply);
    }
}

/// Every reply brings a running sequence closer to its end, whatever the
/// firmware answers: the boot stage cannot be kept going for ever.
pub proof fn lemma_after_makes_progress(handoff: HandoffView, reply: ReplyView)
    requires
        consistent(handoff),
        running(handoff),
    ensures
        replies_left(after(handoff, reply)) < replies_left(handoff),
{
    let pass = replies_per_pass(handoff.policy) as int;
    let passes_left = handoff.policy.max_refetches - handoff.refetches;
    if let HandoffPhaseView::Fetching(reader) = handoff.phase {
        crate::reader::lemma_after_makes_progress(reader, reply);
        crate::reader::lemma_after_is_consistent(reader, reply);
    }
    if passes_left > 0 {
        assert((passes_left - 1) * pass + pass == passes_left * pass) by (nonlinear_arith);
    }
}

/// Whatever the firmware answers, a sequence stays consistent through all
/// the replies, and has ended once it has taken as many replies as it had
/// left: at most those of one pass for the first start and for each fresh
/// start that the policy allows.
pub proof fn lemma_handoff_ends_in_time(handoff: HandoffView, replies: Seq<ReplyView>)
    requires
        consistent(handoff),
    ensures
        consistent(after_all(handoff, replies)),
        after_all(handoff, replies).policy == handoff.policy,
        replies_left(after_all(handoff, replies)) + replies.len() <= replies_left(handoff)
            || !running(after_all(handoff, replies)),
        replies.len() >= replies_left(handoff) ==> !running(after_all(handoff, replies)),
        replies_left(handoff) <= (handoff.policy.max_refetches + 1) * replies_per_pass(
            handoff.policy,
        ),
    decreases replies.len(),
{
    let pass = replies_per_pass(handoff.policy) as int;
    let passes_left = handoff.policy.max_refetches - handoff.refetches;
    assert(passes_left * pass + pass <= (handoff.policy.max_refetches + 1) * pass)
        by (nonlinear_arith)
        requires
            0 <= passes_left <= handoff.policy.max_refetches,
            0 <= pass,
    ;
    if replies.len() > 0 {
        let before = after_all(handoff, replies.drop_last());
        lemma_handoff_ends_in_time(handoff, replies.drop_last());
        lemma_after_is_consistent(before, replies.last());
        if running(before) {
            lemma_after_makes_progress(before, replies.last());
        }
    }
}

/// A region is reserved once. While it is not reserved, nothing but the
/// firmware granting the request reserves it; once it is, it stays reserved,
/// and no reply makes the sequence ask for pages again.
pub proof fn lemma_reserved_once(handoff: HandoffView, reply: ReplyView)
    requires
        consistent(handoff),
    ensures
        due(handoff) is Call && due(handoff)->Call_0 is AllocatePages ==> handoff.reservation
            is None,
        handoff.reservation is Some ==> after(handoff, reply).reservation == handoff.reservation
            && !(due(after(handoff, reply)) is Call && due(after(handoff, reply))->Call_0
            is AllocatePages),
        handoff.reservation is None && after(handoff, reply).reservation is Some ==> reply
            is Granted && due(handoff) == NextStep::Call(
            reservation_of(after(handoff, reply).reservation->Some_0),
        ),
{
    if let HandoffPhaseView::Fetching(reader) = handoff.phase {
        crate::reader::lemma_after_is_consistent(reader, reply);
    }
}

/// The first pass, where the firmware is settled and a range fits: once the
/// map has been read, the sequence asks for the region that first fit
/// selects from it, at its address and nowhere else; once that is granted,
/// the region is reserved and the sequence asks for the exit with the token
/// of that map.
pub proof fn lemma_first_pass_reserves_then_exits(
    policy: HandoffPolicy,
    required_size: usize,
    probed_size: usize,
    map: Seq<u8>,
    descriptor_size: usize,
    map_key: u64,
)
    requires
        crate::reader::grown(required_size, probed_size) <= usize::MAX,
        crate::snapshot::is_whole_map(map.len() as int, descriptor_size as int),
        selected(
            crate::snapshot::captured(map, descriptor_size, map_key).descriptors,
            policy.required_pages,
        ) is Some,
    ensures
        ({
            let snapshot = crate::snapshot::captured(map, descriptor_size, map_key);
            let region = selected(snapshot.descriptors, policy.required_pages)->Some_0;
            let read = after_all(
                initial(policy),
                crate::reader::settled_replies(
                    required_size,
                    probed_size,
                    map,
                    descriptor_size,
                    map_key,
                ),
            );
            let reserved = after(read, ReplyView::Granted);
            &&& read.phase == (HandoffPhaseView::Reserving { snapshot, region })
            &&& due(read) == NextStep::Call(reservation_of(region))
            &&& read.reservation is None
            &&& reserved.phase == (HandoffPhaseView::Exiting { snapshot })
            &&& reserved.reservation == Some(region)
            &&& due(reserved) == NextStep::Call(exit_with(map_key))
            &&& reserved.refetches == 0
        }),
{
    let replies = crate::reader::settled_replies(
        required_size,
        probed_size,
        map,
        descriptor_size,
        map_key,
    );
    let start = initial(policy);
    let first = replies.drop_last().drop_last();
    let second = replies.drop_last();
    assert(first.drop_last() =~= Seq::<ReplyView>::empty());
    assert(after_all(start, first.drop_last()) == start);
    assert(first.last() == replies[0]);
    assert(second.last() == replies[1]);
    assert(replies.last() == replies[2]);
    let probed = after_all(start, first);
    assert(probed == after(start, replies[0]));
    let allocated = after_all(start, second);
    assert(allocated == after(probed, replies[1]));
    let read = after_all(start, replies);
    assert(read == after(allocated, replies[2]));
}

/// Where the firmware refuses the exit once because the token is stale, and
/// then settles, the sequence ends well after exactly one fresh start.
///
/// The sequence stands at the exit and may start again at least once. The
/// firmware answers the stale token, then finds the buffer too small at the
/// size probe, grants the buffer, writes a map that is a whole number of
/// records, and accepts the token that came with it. After the stale token
/// the sequence reads the map afresh. With the fresh map in hand it asks for
/// no pages, since the region is reserved, but for the exit, with the fresh
/// token. It ends with that map, the reservation untouched, and one fresh
/// start more than before.
pub proof fn lemma_stale_exit_recovers(
    handoff: HandoffView,
    required_size: usize,
    probed_size: usize,
    map: Seq<u8>,
    descriptor_size: usize,
    map_key: u64,
)
    requires
        consistent(handoff),
        handoff.phase is Exiting,
        handoff.refetches < handoff.policy.max_refetches,
        crate::reader::grown(required_size, probed_size) <= usize::MAX,
        crate::snapshot::is_whole_map(map.len() as int, descriptor_size as int),
    ensures
        ({
            let fresh = crate::snapshot::captured(map, descriptor_size, map_key);
            let stale = after(handoff, ReplyView::StaleKey);
            let refetched = after_all(
                stale,
                crate::reader::settled_replies(
                    required_size,
                    probed_size,
                    map,
                    descriptor_size,
                    map_key,
                ),
            );
            let end = after(refetched, ReplyView::Exited);
            &&& due(stale) == NextStep::Call(FirmwareRequest::GetMemoryMap { buffer_size: 0 })
            &&& refetched.phase == (HandoffPhaseView::Exiting { snapshot: fresh })
            &&& due(refetched) == NextStep::Call(
                FirmwareRequest::ExitBootServices { map_key },
            )
            &&& end.phase == (HandoffPhaseView::Exited { snapshot: fresh })
            &&& due(end) == NextStep::Proceed
            &&& end.refetches == handoff.refetches + 1
            &&& end.reservation == handoff.reservation
        }),
{
    let replies = crate::reader::settled_replies(
        required_size,
        probed_size,
        map,
        descriptor_size,
        map_key,
    );
    let stale = after(handoff, ReplyView::StaleKey);
    let first = replies.drop_last().drop_last();
    let second = replies.drop_last();
    assert(first.drop_last() =~= Seq::<ReplyView>::empty());
    assert(after_all(stale, first.drop_last()) == stale);
    assert(first.last() == replies[0]);
    assert(second.last() == replies[1]);
    assert(replies.last() == replies[2]);
    let probed = after_all(stale, first);
    assert(probed == after(stale, replies[0]));
    let allocated = after_all(stale, second);
    assert(allocated == after(probed, replies[1]));
    let refetched = after_all(stale, replies);
    assert(refetched == after(allocated, replies[2]));
}

/// Taking one reply is taking that reply.
pub proof fn lemma_after_all_of_one(handoff: HandoffView, reply: ReplyView)
    ensures
        after_all(handoff, seq![reply]) == after(handoff, reply),
{
    let one = seq![reply];
    assert(one.drop_last() =~= Seq::<ReplyView>::empty());
    assert(after_all(handoff, one.drop_last()) == handoff);
    assert(one.last() == reply);
}

/// Taking replies in two runs is taking them in one.
pub proof fn lemma_after_all_joins(
    handoff: HandoffView,
    first: Seq<ReplyView>,
    second: Seq<ReplyView>,
)
    ensures
        after_all(handoff, first + second) == after_all(after_all(handoff, first), second),
    decreases second.len(),
{
    if second.len() == 0 {
        assert(first + second =~= first);
    } else {
        assert((first + second).drop_last() =~= first + second.drop_last());
        assert((first + second).last() == second.last());
        lemma_after_all_joins(handoff, first, second.drop_last());
    }
}

/// The replies of a firmware that is settled but for one thing: it lets the
/// region be reserved, finds the token stale at the first exit, and accepts
/// the token of the map that is read after that.
pub open spec fn stale_once_replies(
    first_map: Seq<ReplyView>,
    second_map: Seq<ReplyView>,
) -> Seq<ReplyView> {
    first_map + seq![ReplyView::Granted, ReplyView::StaleKey] + second_map + seq![
        ReplyView::Exited,
    ]
}

/// From the start: where the firmware is settled, lets the region be
/// reserved, refuses the first exit because the token is stale, and accepts
/// the token of the map read after that, the boot services end with exactly
/// one fresh start, with the region reserved that was selected from the
/// first map, and with the second map in hand.
///
/// The policy allows a fresh start, both buffers that the probes call for
/// are possible, both maps are whole numbers of records, and a range of the
/// first map fits.
pub proof fn lemma_stale_once_then_success(
    policy: HandoffPolicy,
    first_required: usize,
    first_probed: usize,
    first_map: Seq<u8>,
    first_size: usize,
    first_key: u64,
    second_required: usize,
    second_probed: usize,
    second_map: Seq<u8>,
    second_size: usize,
    second_key: u64,
)
    requires
        policy.max_refetches >= 1,
        crate::reader::grown(first_required, first_probed) <= usize::MAX,
        crate::reader::grown(second_required, second_probed) <= usize::MAX,
        crate::snapshot::is_whole_map(first_map.len() as int, first_size as int),
        crate::snapshot::is_whole_map(second_map.len() as int, second_size as int),
        selected(
            crate::snapshot::captured(first_map, first_size, first_key).descriptors,
            policy.required_pages,
        ) is Some,
    ensures
        ({
            let end = after_all(
                initial(policy),
                stale_once_replies(
                    crate::reader::settled_replies(
                        first_required,
                        first_probed,
                        first_map,
                        first_size,
                        first_key,
                    ),
                    crate::reader::settled_replies(
                        second_required,
                        second_probed,
                        second_map,
                        second_size,
                        second_key,
                    ),
                ),
            );
            &&& end.phase == (HandoffPhaseView::Exited {
                snapshot: crate::snapshot::captured(second_map, second_size, second_key),
            })
            &&& due(end) == NextStep::Proceed
            &&& end.refetches == 1
            &&& end.reservation == selected(
                crate::snapshot::captured(first_map, first_size, first_key).descriptors,
                policy.required_pages,
            )
        }),
{
    let first = crate::reader::settled_replies(
        first_required,
        first_probed,
        first_map,
        first_size,
        first_key,
    );
    let second = crate::reader::settled_replies(
        second_required,
        second_probed,
        second_map,
        second_size,
        second_key,
    );
    let start = initial(policy);
    let granted = seq![ReplyView::Granted];
    let stale = seq![ReplyView::StaleKey];
    let exited = seq![ReplyView::Exited];
    let replies = stale_once_replies(first, second);
    assert(replies =~= first + granted + stale + second + exited);

    let read = after_all(start, first);
    lemma_first_pass_reserves_then_exits(
        policy,
        first_required,
        first_probed,
        first_map,
        first_size,
        first_key,
    );
    lemma_after_all_of_one(read, ReplyView::Granted);
    lemma_after_all_joins(start, first, granted);
    let reserved = after_all(start, first + granted);
    lemma_initial_is_consistent(policy);
    lemma_handoff_ends_in_time(start, first + granted);

    lemma_stale_exit_recovers(
        reserved,
        second_required,
        second_probed,
        second_map,
        second_size,
        second_key,
    );
    lemma_after_all_of_one(reserved, ReplyView::StaleKey);
    lemma_after_all_joins(start, first + granted, stale);
    lemma_after_all_joins(start, first + granted + stale, second);
    let refetched = after_all(start, first + granted + stale + second);
    lemma_after_all_of_one(refetched, ReplyView::Exited);
    lemma_after_all_joins(start, first + granted + stale + second, exited);
}

/// A memory map in which no range fits halts the boot stage with
/// `NoSuitableRegion` as soon as it has been read, and no pages are asked
/// for: the reply that completes the map leaves nothing to call.
pub proof fn lemma_no_fit_halts(handoff: HandoffView, reply: ReplyView)
    requires
        consistent(handoff),
        handoff.reservation is None,
        handoff.phase is Fetching,
        crate::reader::after(handoff.phase->Fetching_0, reply).phase is Done,
        selected(
            crate::reader::after(handoff.phase->Fetching_0, reply).phase->Done_0.descriptors,
            handoff.policy.required_pages,
        ) is None,
    ensures
        after(handoff, reply).phase == HandoffPhaseView::Halted(LoaderError::NoSuitableRegion),
        due(after(handoff, reply)) == NextStep::Halt(LoaderError::NoSuitableRegion),
        after(handoff, reply).reservation is None,
{
}

/// Where the sequence stands.
#[derive(Debug)]
enum HandoffPhase {
    Fetching(MapReader),
    Reserving { snapshot: MemoryMapSnapshot, region: RegionReservation },
    Exiting { snapshot: MemoryMapSnapshot },
    Exited { snapshot: MemoryMapSnapshot },
    Halted(LoaderError),
}

impl View for HandoffPhase {
    type V = HandoffPhaseView;

    closed spec fn view(&self) -> HandoffPhaseView {
        match *self {
            HandoffPhase::Fetching(reader) => HandoffPhaseView::Fetching(reader@),
            HandoffPhase::Reserving { snapshot, region } => HandoffPhaseView::Reserving {
                snapshot: snapshot@,
                region,
            },
            HandoffPhase::Exiting { snapshot } => HandoffPhaseView::Exiting {
                snapshot: snapshot@,
            },
            HandoffPhase::Exited { snapshot } => HandoffPhaseView::Exited { snapshot: snapshot@ },
            HandoffPhase::Halted(error) => HandoffPhaseView::Halted(error),
        }
    }
}

/// What the boot stage hands on when the boot services have ended.
#[derive(Debug)]
pub struct Handover {
    /// The memory map as the firmware left it.
    pub snapshot: MemoryMapSnapshot,
    /// The pages that are reserved for the kernel image.
    pub region: RegionReservation,
}

/// The boot stage from the first look at the memory map to the end of the
/// boot services: it says what is to be done next, takes the firmware's
/// reply, and ends with the boot services left or with an error.
#[derive(Debug)]
pub struct Handoff {
    policy: HandoffPolicy,
    reservation: Option<RegionReservation>,
    refetches: u32,
    phase: HandoffPhase,
}

impl View for Handoff {
    type V = HandoffView;

    closed spec fn view(&self) -> HandoffView {
        HandoffView {
            policy: self.policy,
            reservation: self.reservation,
            refetches: self.refetches,
            phase: self.phase@,
        }
    }
}

impl Handoff {
    #[verifier::type_invariant]
    spec fn inv(&self) -> bool {
        consistent(self@)
    }

    /// Starts the sequence. It waits for the reply to the first size probe.
    pub fn new(policy: HandoffPolicy) -> (handoff: Handoff)
        ensures
            handoff@ == initial(policy),
    {
        Handoff {
            policy,
            reservation: None,
            refetches: 0,
            phase: HandoffPhase::Fetching(MapReader::new(policy.max_map_retries)),
        }
    }

    /// What is to be done next.
    pub fn next_step(&self) -> (step: NextStep)
        ensures
            step == due(self@),
            running(self@) <==> step is Call,
    {
        proof {
            use_type_invariant(self);
        }
        match &self.phase {
            HandoffPhase::Fetching(reader) => match reader.request() {
                Some(request) => NextStep::Call(request),
                None => NextStep::Halt(LoaderError::FirmwareRejection),
            },
            HandoffPhase::Reserving { snapshot, region } => NextStep::Call(
                reserve_request(region),
            ),
            HandoffPhase::Exiting { snapshot } => NextStep::Call(
                exit_request(snapshot.freshness_token()),
            ),
            HandoffPhase::Exited { snapshot } => NextStep::Proceed,
            HandoffPhase::Halted(error) => NextStep::Halt(*error),
        }
    }

    /// Takes the firmware's reply to the call that was due.
    pub fn advance(self, reply: FirmwareReply) -> (next: Handoff)
        ensures
            next@ == after(self@, reply@),
            consistent(next@),
    {
        proof {
            use_type_invariant(&self);
            lemma_after_is_consistent(self@, reply@);
        }
        let Handoff { policy, reservation, refetches, phase } = self;
        match phase {
            HandoffPhase::Fetching(reader) => {
                let reader = reader.advance(reply);
                if reader.is_finished() {
                    match reader.into_outcome() {
                        Some(Ok(snapshot)) => Handoff {
                            policy,
                            reservation,
                            refetches,
                            phase: with_map(snapshot, reservation, policy.required_pages),
                        },
                        Some(Err(error)) => Handoff {
                            policy,
                            reservation,
                            refetches,
                            phase: HandoffPhase::Halted(error),
                        },
                        None => vstd::pervasive::unreached(),
                    }
                } else {
                    Handoff { policy, reservation, refetches, phase: HandoffPhase::Fetching(reader) }
                }
            },
            HandoffPhase::Reserving { snapshot, region } => match reserve_outcome(&reply) {
                Ok(_) => Handoff {
                    policy,
                    reservation: Some(region),
                    refetches,
                    phase: HandoffPhase::Exiting { snapshot },
                },
                Err(error) => fail(policy, reservation, refetches, error),
            },
            HandoffPhase::Exiting { snapshot } => match exit_outcome(&reply) {
                Ok(_) => Handoff {
                    policy,
                    reservation,
                    refetches,
                    phase: HandoffPhase::Exited { snapshot },
                },
                Err(error) => fail(policy, reservation, refetches, error),
            },
            HandoffPhase::Exited { snapshot } => Handoff {
                policy,
                reservation,
                refetches,
                phase: HandoffPhase::Exited { snapshot },
            },
            HandoffPhase::Halted(error) => Handoff {
                policy,
                reservation,
                refetches,
                phase: HandoffPhase::Halted(error),
            },
        }
    }

    /// How often the sequence has started again with a fresh memory map.
    pub fn refetches(&self) -> (refetches: u32)
        ensures
            refetches == self@.refetches,
            refetches <= self@.policy.max_refetches,
    {
        proof {
            use_type_invariant(self);
        }
        self.refetches
    }

    /// The region that has been reserved, once it has been.
    pub fn reservation(&self) -> (reservation: Option<RegionReservation>)
        ensures
            reservation == self@.reservation,
            reservation matches Some(region) ==> region.page_count
                == self@.policy.required_pages,
    {
        proof {
            use_type_invariant(self);
        }
        self.reservation
    }

    /// What the sequence ended with: the last memory map and the reserved
    /// region where the boot services have ended, the error where the boot
    /// stage has halted; `None` while a reply is still waited for.
    pub fn into_outcome(self) -> (outcome: Option<Result<Handover, LoaderError>>)
        ensures
            match self@.phase {
                HandoffPhaseView::Exited { snapshot } => outcome is Some && outcome->Some_0 is Ok
                    && outcome->Some_0->Ok_0.snapshot@ == snapshot && Some(
                    outcome->Some_0->Ok_0.region,
                ) == self@.reservation,
                HandoffPhaseView::Halted(error) => outcome is Some && outcome->Some_0 is Err
                    && outcome->Some_0->Err_0 == error,
                _ => outcome is None,
            },
    {
        proof {
            use_type_invariant(&self);
        }
        let Handoff { policy, reservation, refetches, phase } = self;
        match phase {
            HandoffPhase::Exited { snapshot } => match reservation {
                Some(region) => Some(Ok(Handover { snapshot, region })),
                None => vstd::pervasive::unreached(),
            },
            HandoffPhase::Halted(error) => Some(Err(error)),
            _ => None,
        }
    }
}

/// The phase that a fresh memory map leads to.
fn with_map(
    snapshot: MemoryMapSnapshot,
    reservation: Option<RegionReservation>,
    required_pages: u64,
) -> (phase: HandoffPhase)
    ensures
        reservation is Some ==> phase@ == (HandoffPhaseView::Exiting { snapshot: snapshot@ }),
        reservation is None ==> phase@ == match selected(snapshot@.descriptors, required_pages) {
            Some(region) => HandoffPhaseView::Reserving { snapshot: snapshot@, region },
            None => HandoffPhaseView::Halted(LoaderError::NoSuitableRegion),
        },
{
    if reservation.is_some() {
        HandoffPhase::Exiting { snapshot }
    } else {
        match select_region(&snapshot, required_pages) {
            Ok(region) => HandoffPhase::Reserving { snapshot, region },
            Err(error) => HandoffPhase::Halted(error),
        }
    }
}

/// The sequence after the reservation or the exit failed with `error`.
fn fail(
    policy: HandoffPolicy,
    reservation: Option<RegionReservation>,
    refetches: u32,
    error: LoaderError,
) -> (next: Handoff)
    requires
        refetches <= policy.max_refetches,
        error == LoaderError::AllocationFailure || error == LoaderError::StaleToken || error
            == LoaderError::FirmwareRejection,
        reservation matches Some(region) ==> region.page_count == policy.required_pages,
    ensures
        next@ == failed(
            HandoffView {
                policy,
                reservation,
                refetches,
                phase: HandoffPhaseView::Halted(error),
            },
            error,
        ),
{
    let cured = match error {
        LoaderError::AllocationFailure => true,
        LoaderError::StaleToken => true,
        _ => false,
    };
    if cured && refetches < policy.max_refetches {
        Handoff {
            policy,
            reservation,
            refetches: refetches + 1,
            phase: HandoffPhase::Fetching(MapReader::new(policy.max_map_retries)),
        }
    } else {
        Handoff { policy, reservation, refetches, phase: HandoffPhase::Halted(error) }
    }
}

} // verus!
