//! Laws of automatic leader tuning over any course of calls.

use crate::error::ErrorView;
use crate::ranking;
use crate::schedule::ScheduleView;
use crate::tuner::{TunerView, RETAINED_STAT_EPOCHS};
use crate::tuner_laws;
use crate::types::{ReplicaId, SlotIndex, Step};
use vstd::prelude::*;

verus! {

/// A call of an auto-scheduled tuner.
pub enum TunerCall {
    NoteCommitted(SlotIndex, Step),
    EnsureSchedule(u64),
}

/// The tuner after a call.
pub open spec fn after_call(tuner: TunerView, call: TunerCall) -> TunerView {
    match call {
        TunerCall::NoteCommitted(slot, step) => tuner.note_committed(slot, step).0,
        TunerCall::EnsureSchedule(epoch) => tuner.ensure_schedule(epoch).0,
    }
}

/// The tuner after a course of calls.
pub open spec fn after_calls(tuner: TunerView, calls: Seq<TunerCall>) -> TunerView
    decreases calls.len(),
{
    if calls.len() == 0 {
        tuner
    } else {
        after_call(after_calls(tuner, calls.drop_last()), calls.last())
    }
}

/// The slots that a course of calls commits, in order.
pub open spec fn committed(calls: Seq<TunerCall>) -> Seq<(SlotIndex, Step)>
    decreases calls.len(),
{
    if calls.len() == 0 {
        Seq::empty()
    } else {
        let before = committed(calls.drop_last());
        match calls.last() {
            TunerCall::NoteCommitted(slot, step) => before.push((slot, step)),
            TunerCall::EnsureSchedule(_) => before,
        }
    }
}

/// How many of a course's commits were new to the tuner.
pub open spec fn taken_in(tuner: TunerView, calls: Seq<TunerCall>) -> nat
    decreases calls.len(),
{
    if calls.len() == 0 {
        0
    } else {
        let before = taken_in(tuner, calls.drop_last());
        match calls.last() {
            TunerCall::NoteCommitted(slot, step) => if after_calls(
                tuner,
                calls.drop_last(),
            ).note_committed(slot, step).1 == Ok::<bool, ErrorView>(true) {
                before + 1
            } else {
                before
            },
            TunerCall::EnsureSchedule(_) => before,
        }
    }
}

/// Whether a course commits nothing of an epoch after another.
pub open spec fn commits_within(tuner: TunerView, calls: Seq<TunerCall>, last: int) -> bool {
    forall|i: int|
        0 <= i < calls.len() ==> (#[trigger] calls[i] matches TunerCall::NoteCommitted(slot, _)
            ==> tuner.epoch_of(slot) <= last)
}

/// Whether a schedule is of an epoch and lists every member exactly once.
pub open spec fn is_order_of(schedule: ScheduleView, epoch: u64, members: Seq<ReplicaId>) -> bool {
    &&& schedule.epoch == epoch
    &&& schedule.proposers.no_duplicates()
    &&& schedule.proposers.to_set() == members.to_set()
}

/// The schedule of one of the first epochs.
pub open spec fn warmup_schedule(members: Seq<ReplicaId>, epoch: u64) -> ScheduleView {
    ScheduleView {
        epoch,
        proposers: ranking::rotation(members, epoch as int % members.len() as int),
    }
}

/// Whether a tuner is auto-scheduled among distinct members and keeps only
/// schedules that it could have derived.
pub open spec fn derives_all(tuner: TunerView) -> bool {
    &&& tuner.auto
    &&& tuner.epoch_size > 0
    &&& ranking::order_error(tuner.members) is None
    &&& forall|epoch: u64| #[trigger]
        tuner.schedules.dom().contains(epoch) ==> is_order_of(
            tuner.schedules[epoch],
            epoch,
            tuner.members,
        )
    &&& forall|epoch: u64| #[trigger]
        tuner.schedules.dom().contains(epoch) && epoch < tuner.warmup() ==> tuner.schedules[epoch]
            == warmup_schedule(tuner.members, epoch)
}

/// A new tuner, and one of a new membership, keep nothing that they did not
/// derive.
pub proof fn tuners_start_deriving(
    tuner: TunerView,
    epoch_size: u64,
    members: Seq<ReplicaId>,
    committed_through: SlotIndex,
)
    requires
        ranking::order_error(members) is None,
    ensures
        derives_all(TunerView::fresh(epoch_size, members, true)),
        tuner.auto && tuner.epoch_size > 0 ==> derives_all(
            tuner.reconfigured(members, committed_through),
        ),
{
}

/// A warm-up rotation is a schedule.
proof fn lemma_warmup_derives(tuner: TunerView, epoch: u64)
    requires
        ranking::order_error(tuner.members) is None,
        epoch < tuner.warmup(),
    ensures
        tuner.derive(epoch) == Ok::<ScheduleView, ErrorView>(
            warmup_schedule(tuner.members, epoch),
        ),
{
    let members = tuner.members;
    let count = members.len() as int;
    let place = epoch as int % count;
    ranking::lemma_duplicated(members, 0);
    tuner_laws::lemma_rotation_is_distinct(members, place);
    ranking::lemma_duplicated(ranking::rotation(members, place), 0);
}

/// One call keeps what a tuner is, and what it keeps is derived.
proof fn lemma_call_keeps_deriving(tuner: TunerView, call: TunerCall)
    requires
        derives_all(tuner),
    ensures
        derives_all(after_call(tuner, call)),
        after_call(tuner, call).members == tuner.members,
        after_call(tuner, call).epoch_size == tuner.epoch_size,
{
    let asked = match call {
        TunerCall::NoteCommitted(slot, _) => tuner.epoch_of(slot),
        TunerCall::EnsureSchedule(epoch) => epoch,
    };
    tuner_laws::derived_schedules_hold_every_member(tuner, asked);
    if asked < tuner.warmup() {
        lemma_warmup_derives(tuner, asked);
    }
}

proof fn lemma_calls_keep_deriving(tuner: TunerView, calls: Seq<TunerCall>)
    requires
        derives_all(tuner),
    ensures
        derives_all(after_calls(tuner, calls)),
        after_calls(tuner, calls).members == tuner.members,
        after_calls(tuner, calls).epoch_size == tuner.epoch_size,
    decreases calls.len(),
{
    if calls.len() > 0 {
        lemma_calls_keep_deriving(tuner, calls.drop_last());
        lemma_call_keeps_deriving(after_calls(tuner, calls.drop_last()), calls.last());
    }
}

/// Whatever a tuner is told and asked, every schedule that it gives lists each
/// member exactly once.
pub proof fn schedules_list_every_member(tuner: TunerView, calls: Seq<TunerCall>, epoch: u64)
    requires
        derives_all(tuner),
    ensures
        after_calls(tuner, calls).ensure_schedule(epoch).1 matches Ok(schedule) ==> is_order_of(
            schedule,
            epoch,
            tuner.members,
        ),
{
    lemma_calls_keep_deriving(tuner, calls);
    lemma_call_keeps_deriving(after_calls(tuner, calls), TunerCall::EnsureSchedule(epoch));
    tuner_laws::derived_schedules_hold_every_member(after_calls(tuner, calls), epoch);
}

/// Whatever was committed, the first epochs have a schedule, and it rotates the
/// members by the epoch.
pub proof fn first_epochs_rotate(tuner: TunerView, calls: Seq<TunerCall>, epoch: u64)
    requires
        derives_all(tuner),
        epoch < tuner.warmup(),
    ensures
        after_calls(tuner, calls).ensure_schedule(epoch).1 == Ok::<ScheduleView, ErrorView>(
            warmup_schedule(tuner.members, epoch),
        ),
{
    lemma_calls_keep_deriving(tuner, calls);
    lemma_warmup_derives(after_calls(tuner, calls), epoch);
}

/// A kept schedule stays until a slot far enough after its epoch is committed.
proof fn lemma_calls_keep_schedule(tuner: TunerView, calls: Seq<TunerCall>, epoch: u64)
    requires
        tuner.schedules.dom().contains(epoch),
        commits_within(tuner, calls, epoch + RETAINED_STAT_EPOCHS),
    ensures
        after_calls(tuner, calls).schedules.dom().contains(epoch),
        after_calls(tuner, calls).schedules[epoch] == tuner.schedules[epoch],
        after_calls(tuner, calls).epoch_size == tuner.epoch_size,
    decreases calls.len(),
{
    if calls.len() > 0 {
        let earlier = calls.drop_last();
        assert forall|i: int| 0 <= i < earlier.len() implies (
        #[trigger] earlier[i] matches TunerCall::NoteCommitted(slot, _) ==> tuner.epoch_of(slot)
            <= epoch + RETAINED_STAT_EPOCHS) by {
            assert(earlier[i] == calls[i]);
        }
        lemma_calls_keep_schedule(tuner, earlier, epoch);
        assert(calls[calls.len() - 1] == calls.last());
    }
}

/// A schedule that was given once is given again, until a slot is committed
/// whose epoch is more than the retained epochs later.
pub proof fn given_schedules_are_given_again(tuner: TunerView, calls: Seq<TunerCall>, epoch: u64)
    requires
        tuner.ensure_schedule(epoch).1 is Ok,
        commits_within(tuner, calls, epoch + RETAINED_STAT_EPOCHS),
    ensures
        ({
            let asked = tuner.ensure_schedule(epoch);
            after_calls(asked.0, calls).ensure_schedule(epoch).1 == asked.1
        }),
{
    let asked = tuner.ensure_schedule(epoch).0;
    assert(commits_within(asked, calls, epoch + RETAINED_STAT_EPOCHS)) by {
        assert forall|i: int| 0 <= i < calls.len() implies (
        #[trigger] calls[i] matches TunerCall::NoteCommitted(slot, _) ==> asked.epoch_of(slot)
            <= epoch + RETAINED_STAT_EPOCHS) by {
            if let TunerCall::NoteCommitted(slot, _) = calls[i] {
                assert(asked.epoch_of(slot) == tuner.epoch_of(slot));
            }
        }
    }
    lemma_calls_keep_schedule(asked, calls, epoch);
}

/// Tuners in step stay in step over courses that commit the same slots,
/// whatever schedules are asked for in between.
proof fn lemma_courses_keep_step(
    a: TunerView,
    b: TunerView,
    calls_a: Seq<TunerCall>,
    calls_b: Seq<TunerCall>,
)
    requires
        tuner_laws::in_step(a, b),
        committed(calls_a) == committed(calls_b),
    ensures
        tuner_laws::in_step(after_calls(a, calls_a), after_calls(b, calls_b)),
        tuner_laws::in_step(after_calls(b, calls_b), after_calls(a, calls_a)),
    decreases calls_a.len() + calls_b.len(),
{
    if calls_a.len() > 0 && calls_a.last() is EnsureSchedule {
        let earlier = calls_a.drop_last();
        lemma_courses_keep_step(a, b, earlier, calls_b);
        tuner_laws::lookups_keep_tuners_in_step(
            after_calls(a, earlier),
            after_calls(b, calls_b),
            calls_a.last()->EnsureSchedule_0,
        );
    } else if calls_b.len() > 0 && calls_b.last() is EnsureSchedule {
        let earlier = calls_b.drop_last();
        lemma_courses_keep_step(a, b, calls_a, earlier);
        tuner_laws::lookups_keep_tuners_in_step(
            after_calls(b, earlier),
            after_calls(a, calls_a),
            calls_b.last()->EnsureSchedule_0,
        );
    } else if calls_a.len() > 0 {
        let earlier_a = calls_a.drop_last();
        let earlier_b = calls_b.drop_last();
        assert(committed(calls_a).len() > 0);
        assert(calls_b.len() > 0);
        assert(committed(calls_a).last() == committed(calls_b).last());
        assert(committed(calls_a).drop_last() =~= committed(earlier_a));
        assert(committed(calls_b).drop_last() =~= committed(earlier_b));
        lemma_courses_keep_step(a, b, earlier_a, earlier_b);
        let (slot, step) = committed(calls_a).last();
        tuner_laws::commits_keep_tuners_in_step(
            after_calls(a, earlier_a),
            after_calls(b, earlier_b),
            slot,
            step,
        );
        tuner_laws::commits_keep_tuners_in_step(
            after_calls(b, earlier_b),
            after_calls(a, earlier_a),
            slot,
            step,
        );
    } else if calls_b.len() > 0 {
        assert(committed(calls_b).len() > 0);
    }
}

/// Replicas that commit the same slots give the same schedule of every epoch,
/// or refuse it alike, whatever each was asked for in between; and they take in
/// the next slot alike. Among distinct members a schedule lists each of them
/// exactly once, and the first epochs always have one, which rotates them.
pub proof fn replicas_that_commit_alike_agree(
    epoch_size: u64,
    members: Seq<ReplicaId>,
    calls_a: Seq<TunerCall>,
    calls_b: Seq<TunerCall>,
    epoch: u64,
    slot: SlotIndex,
    step: Step,
)
    requires
        committed(calls_a) == committed(calls_b),
    ensures
        ({
            let fresh = TunerView::fresh(epoch_size, members, true);
            let a = after_calls(fresh, calls_a);
            let b = after_calls(fresh, calls_b);
            &&& a.ensure_schedule(epoch).1 == b.ensure_schedule(epoch).1
            &&& a.note_committed(slot, step).1 == b.note_committed(slot, step).1
            &&& ranking::order_error(members) is None ==> {
                &&& a.ensure_schedule(epoch).1 matches Ok(schedule) ==> is_order_of(
                    schedule,
                    epoch,
                    members,
                )
                &&& epoch < fresh.warmup() ==> a.ensure_schedule(epoch).1 == Ok::<
                    ScheduleView,
                    ErrorView,
                >(warmup_schedule(members, epoch))
            }
        }),
{
    let fresh = TunerView::fresh(epoch_size, members, true);
    let a = after_calls(fresh, calls_a);
    let b = after_calls(fresh, calls_b);
    tuner_laws::fresh_tuners_are_in_step(epoch_size, members);
    lemma_courses_keep_step(fresh, fresh, calls_a, calls_b);
    tuner_laws::tuners_in_step_agree(a, b, epoch);
    tuner_laws::commits_keep_tuners_in_step(a, b, slot, step);
    if ranking::order_error(members) is None {
        tuners_start_deriving(fresh, epoch_size, members, slot);
        schedules_list_every_member(fresh, calls_a, epoch);
        if epoch < fresh.warmup() {
            first_epochs_rotate(fresh, calls_a, epoch);
        }
    }
}

/// Statistics advance by one slot for every commit that is taken in.
proof fn lemma_calls_are_counted(tuner: TunerView, calls: Seq<TunerCall>)
    requires
        tuner.auto,
    ensures
        after_calls(tuner, calls).auto,
        after_calls(tuner, calls).epoch_size == tuner.epoch_size,
        after_calls(tuner, calls).stats_through.0 == tuner.stats_through.0 + taken_in(
            tuner,
            calls,
        ),
    decreases calls.len(),
{
    if calls.len() > 0 {
        lemma_calls_are_counted(tuner, calls.drop_last());
    }
}

/// After a change of membership every schedule lists the new members, whatever
/// follows; and the commits that are taken in are the slots from the one after
/// the change on, each once and in order.
pub proof fn memberships_change_at_a_slot(
    tuner: TunerView,
    members: Seq<ReplicaId>,
    committed_through: SlotIndex,
    calls: Seq<TunerCall>,
    epoch: u64,
    slot: SlotIndex,
    step: Step,
)
    requires
        tuner.auto,
        tuner.epoch_size > 0,
        ranking::order_error(members) is None,
    ensures
        ({
            let changed = tuner.reconfigured(members, committed_through);
            let later = after_calls(changed, calls);
            &&& later.ensure_schedule(epoch).1 matches Ok(schedule) ==> is_order_of(
                schedule,
                epoch,
                members,
            )
            &&& later.note_committed(slot, step).1 == Ok::<bool, ErrorView>(true) <==> slot.0
                == committed_through.0 + taken_in(changed, calls) + 1
        }),
{
    let changed = tuner.reconfigured(members, committed_through);
    let later = after_calls(changed, calls);
    tuners_start_deriving(tuner, tuner.epoch_size, members, committed_through);
    schedules_list_every_member(changed, calls, epoch);
    lemma_calls_keep_deriving(changed, calls);
    lemma_calls_are_counted(changed, calls);
    tuner_laws::contiguous_commits_are_taken_in(later, slot, step);
}

} // verus!
