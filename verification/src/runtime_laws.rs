//! What holds of a replica's runtime across its operations: it can always be
//! resumed from its own snapshot, and what was decided stays decided.

use crate::cluster::ClusterView;
use crate::collections;
use crate::error::ErrorView;
use crate::key::Key;
use crate::recorder;
use crate::replica_laws;
use crate::runtime_state::{Acceptance, DeliveryView, PendingView, RuntimeView, TransferView};
use crate::schedule::{DelayView, RuntimeConfigView, ScheduleView};
use crate::span::Span;
use crate::tuner::TunerView;
use crate::tuner_laws;
use crate::types::{DecisionView, ReplicaId, SlotIndex, Step};
use vstd::prelude::*;

verus! {

/// A retained decision is one that this membership can have made, under its own
/// slot, after the checkpoint, and the log has its values.
pub open spec fn decision_fits<V>(view: RuntimeView<V>, slot: SlotIndex) -> bool {
    let decision = view.decisions[slot];
    &&& view.decision_error(decision) is None
    &&& decision.slot == slot
    &&& slot.0 > view.replica.state.checkpointed_through.0
    &&& view.replica.state.entry(slot).decision matches Some(stored) && stored.value_ids
        == decision.value_ids
}

/// A pending slot is past the frontier, undecided and proposed for.
pub open spec fn pending_is_open<V>(view: RuntimeView<V>, slot: SlotIndex) -> bool {
    &&& slot.0 >= view.replica.state.next_commit.0
    &&& view.replica.state.log.dom().contains(slot)
    &&& view.replica.state.log[slot].decision is None
    &&& view.replica.state.log[slot].proposed.len() > 0
}

/// What a restart from the runtime's own snapshot needs.
pub open spec fn resumable<V>(view: RuntimeView<V>) -> bool {
    &&& view.ready()
    &&& view.replica.config == view.config.replica
    &&& view.replica.consistent()
    &&& replica_laws::keyed(view.replica.state)
    &&& view.tuner.auto == view.config.auto_schedules
    &&& view.tuner.stats_fit()
    &&& view.tuner.schedules_fit()
    &&& view.tuner.schedules.dom().finite()
    &&& view.decisions.dom().finite()
    &&& view.pending.dom().finite()
    &&& forall|slot: SlotIndex| #[trigger]
        view.decisions.dom().contains(slot) ==> decision_fits(view, slot)
    &&& forall|slot: SlotIndex| #[trigger]
        view.pending.dom().contains(slot) ==> pending_is_open(view, slot)
    &&& view.deliveries_follow_decisions()
    &&& view.announcements_follow_decisions()
}

/// The runtime that a restart makes of a snapshot: deadlines and the tuned
/// delay start over, and the no-op is configured anew.
pub open spec fn restarted<V>(view: RuntimeView<V>) -> RuntimeView<V> {
    RuntimeView {
        pending: view.pending.map_values(
            |pending: PendingView<V>| PendingView::unarmed(pending.value_ids),
        ),
        noop_value: None,
        hedge: DelayView::fresh(view.config.base_hedge_delay, view.config.adaptive_hedging),
        ..view
    }
}

/// Where each element passes, all of them in order do.
pub proof fn lemma_all_fit<K: Key>(set: Set<K>, rule: spec_fn(K) -> Option<ErrorView>)
    requires
        set.finite(),
        forall|k: K| #[trigger] set.contains(k) ==> rule(k) is None,
    ensures
        recorder::first_error(collections::in_order(set), rule) is None,
{
    collections::lemma_in_order_exists(set);
    let keys = collections::in_order(set);
    recorder::lemma_no_error(keys, rule);
    assert forall|i: int| 0 <= i < keys.len() implies rule(#[trigger] keys[i]) is None by {
        assert(set.contains(keys[i]));
    }
}

/// A resumable runtime restarts from its own snapshot with nothing lost but
/// deadlines, and is resumable again.
pub proof fn snapshots_restart<V>(view: RuntimeView<V>)
    requires
        resumable(view),
    ensures
        RuntimeView::start(view.config, Some(view.snapshot())) == Ok::<RuntimeView<V>, ErrorView>(
            restarted(view),
        ),
        resumable(restarted(view)),
{
    let resumed = RuntimeView::resumed(view.config, view.snapshot());
    let made = restarted(view);
    assert(resumed.pending =~= made.pending);
    assert(resumed.tuner =~= view.tuner);
    assert(resumed =~= made);
    assert(made.pending.dom() =~= view.pending.dom());
    assert forall|epoch: u64| #[trigger] view.tuner.schedules.dom().contains(
        epoch,
    ) implies made.schedule_error(made.tuner.schedules[epoch]) is None by {
        assert(view.schedule_fits(epoch));
    }
    lemma_all_fit(
        made.tuner.schedules.dom(),
        |epoch: u64| made.schedule_error(made.tuner.schedules[epoch]),
    );
    assert forall|slot: SlotIndex| #[trigger] made.decisions.dom().contains(
        slot,
    ) implies made.decision_error(made.decisions[slot]) is None && decision_fits(made, slot) by {
        assert(decision_fits(view, slot));
    }
    lemma_all_fit(
        made.decisions.dom(),
        |slot: SlotIndex| made.decision_error(made.decisions[slot]),
    );
    assert forall|slot: SlotIndex| #[trigger] made.pending.dom().contains(
        slot,
    ) implies made.pending_error(slot) is None && pending_is_open(made, slot) by {
        assert(pending_is_open(view, slot));
        if view.decisions.dom().contains(slot) {
            assert(decision_fits(view, slot));
        }
    }
    lemma_all_fit(made.pending.dom(), |slot: SlotIndex| made.pending_error(slot));
    assert(made.ready()) by {
        assert forall|epoch: u64| #[trigger]
            made.tuner.schedules.dom().contains(epoch) implies made.schedule_fits(epoch) by {
            assert(view.schedule_fits(epoch));
        }
    }
    assert(made.announcements_follow_decisions()) by {
        assert(view.announcements_follow_decisions());
    }
}

/// A runtime that starts with nothing is resumable.
pub proof fn fresh_runtimes_are_resumable<V>(config: RuntimeConfigView)
    requires
        config.epoch_size > 0,
        config.cluster.valid(),
    ensures
        resumable(RuntimeView::<V>::fresh(config)),
{
    replica_laws::initial_replica_is_consistent::<V>(config.replica);
}

/// Queueing values keeps a runtime resumable.
pub proof fn submissions_keep_resumable<V>(view: RuntimeView<V>, values: Seq<V>)
    requires
        resumable(view),
    ensures
        resumable(view.submit(values).0),
{
    replica_laws::enqueue_keeps_consistency(view.replica, values);
    let after = view.submit(values).0;
    lemma_same_log(view, after);
}

/// A change that touches neither the log nor what follows from it.
proof fn lemma_same_log<V>(view: RuntimeView<V>, after: RuntimeView<V>)
    requires
        resumable(view),
        after.replica.consistent(),
        replica_laws::keyed(after.replica.state),
        after.replica.config == view.replica.config,
        after.replica.state.log == view.replica.state.log,
        after.replica.state.next_commit == view.replica.state.next_commit,
        after.replica.state.checkpointed_through == view.replica.state.checkpointed_through,
        after.config == view.config,
        after.decisions == view.decisions,
        after.pending.dom() == view.pending.dom(),
        after.tuner == view.tuner,
        after.executed == view.executed,
        after.notified == view.notified,
        after.announced_to == view.announced_to,
    ensures
        resumable(after),
{
    assert forall|slot: SlotIndex| #[trigger] after.decisions.dom().contains(
        slot,
    ) implies decision_fits(after, slot) by {
        assert(decision_fits(view, slot));
    }
    assert forall|slot: SlotIndex| #[trigger] after.pending.dom().contains(
        slot,
    ) implies pending_is_open(after, slot) by {
        assert(pending_is_open(view, slot));
    }
    assert forall|epoch: u64| #[trigger]
        after.tuner.schedules.dom().contains(epoch) implies after.schedule_fits(epoch) by {
        assert(view.schedule_fits(epoch));
    }
    assert(after.announcements_follow_decisions()) by {
        assert(view.announcements_follow_decisions());
    }
}

/// A change of the schedules and statistics alone.
proof fn lemma_tuner_change<V>(view: RuntimeView<V>, tuner: TunerView)
    requires
        resumable(view),
        tuner.epoch_size == view.tuner.epoch_size,
        tuner.members == view.tuner.members,
        tuner.auto == view.tuner.auto,
        tuner.stats_fit(),
        tuner.schedules_fit(),
        tuner.schedules.dom().finite(),
        forall|epoch: u64| #[trigger]
            tuner.schedules.dom().contains(epoch) ==> view.schedule_error(tuner.schedules[epoch])
                is None,
    ensures
        resumable(RuntimeView { tuner, ..view }),
{
    let after = RuntimeView { tuner, ..view };
    assert forall|slot: SlotIndex| #[trigger] after.decisions.dom().contains(
        slot,
    ) implies decision_fits(after, slot) by {
        assert(decision_fits(view, slot));
    }
    assert forall|slot: SlotIndex| #[trigger] after.pending.dom().contains(
        slot,
    ) implies pending_is_open(after, slot) by {
        assert(pending_is_open(view, slot));
    }
    assert(after.announcements_follow_decisions()) by {
        assert(view.announcements_follow_decisions());
    }
}

/// Installing a schedule keeps a runtime resumable.
pub proof fn schedules_keep_resumable<V>(view: RuntimeView<V>, schedule: ScheduleView)
    requires
        resumable(view),
    ensures
        resumable(view.install_schedule(schedule).0),
{
    let (after, result) = view.install_schedule(schedule);
    if view.schedule_error(schedule) is None {
        assert forall|epoch: u64| #[trigger]
            after.tuner.schedules.dom().contains(epoch) implies view.schedule_error(
            after.tuner.schedules[epoch],
        ) is None by {
            if view.tuner.schedules.dom().contains(epoch) {
                assert(view.schedule_fits(epoch));
            }
        }
        lemma_tuner_change(view, after.tuner);
    }
}

proof fn lemma_ensured<V>(view: RuntimeView<V>, epoch: u64)
    requires
        resumable(view),
    ensures
        ({
            let tuner = view.tuner.ensure_schedule(epoch).0;
            &&& tuner.epoch_size == view.tuner.epoch_size
            &&& tuner.members == view.tuner.members
            &&& tuner.auto == view.tuner.auto
            &&& tuner.stats == view.tuner.stats
            &&& tuner.stats_through == view.tuner.stats_through
            &&& tuner.schedules_fit()
            &&& tuner.schedules.dom().finite()
            &&& forall|other: u64| #[trigger]
                tuner.schedules.dom().contains(other) ==> view.schedule_error(
                    tuner.schedules[other],
                ) is None
            &&& view.tuner.ensure_schedule(epoch).1 matches Ok(schedule) ==> view.schedule_error(
                schedule,
            ) is None && schedule.proposers.len() > 0
        }),
{
    collections::lemma_ascending_distinct(view.members());
    tuner_laws::derived_schedules_hold_every_member(view.tuner, epoch);
    let (tuner, found) = view.tuner.ensure_schedule(epoch);
    assert forall|other: u64| #[trigger]
        tuner.schedules.dom().contains(other) implies view.schedule_error(tuner.schedules[other])
        is None by {
        if view.tuner.schedules.dom().contains(other) {
            assert(view.schedule_fits(other));
        }
    }
    if found is Ok {
        let schedule = found->Ok_0;
        if view.tuner.schedules.dom().contains(epoch) {
            assert(view.schedule_fits(epoch));
        }
        assert(view.members().to_set().contains(view.members()[0]));
        assert(schedule.proposers.to_set().contains(view.members()[0]));
    }
}

/// Looking a schedule up keeps a runtime resumable.
pub proof fn lookups_keep_resumable<V>(view: RuntimeView<V>, slot: SlotIndex)
    requires
        resumable(view),
    ensures
        resumable(view.schedule_for(slot).0),
{
    let epoch = view.config.epoch_of(slot);
    lemma_ensured(view, epoch);
    lemma_tuner_change(view, view.tuner.ensure_schedule(epoch).0);
}

proof fn lemma_noted<V>(view: RuntimeView<V>, slot: SlotIndex, step: Step)
    requires
        resumable(view),
    ensures
        resumable(RuntimeView { tuner: view.tuner.note_committed(slot, step).0, ..view }),
{
    let tuner = view.tuner.note_committed(slot, step).0;
    let epoch = view.tuner.epoch_of(slot);
    lemma_ensured(view, epoch);
    let (scheduled, found) = view.tuner.ensure_schedule(epoch);
    if view.tuner.auto && slot.0 == view.tuner.stats_through.0 + 1 {
        if found is Ok {
            let schedule = found->Ok_0;
            let leader = schedule.leader();
            assert(schedule.proposers.to_set().contains(leader)) by {
                assert(schedule.proposers[0] == leader);
                assert(schedule.proposers.contains(leader));
            }
            assert(view.members().contains(leader)) by {
                assert(view.members().to_set().contains(leader));
            }
            let size = view.tuner.epoch_size as int;
            assert(view.tuner.epoch_of(view.tuner.stats_through) <= epoch) by {
                vstd::arithmetic::div_mod::lemma_div_is_ordered(
                    view.tuner.stats_through.0 as int,
                    slot.0 as int,
                    size,
                );
                lemma_epoch_fits(slot, size);
                lemma_epoch_fits(view.tuner.stats_through, size);
            }
            assert(tuner.stats_fit()) by {
                assert forall|other: u64| #[trigger] tuner.stats.dom().contains(other) implies {
                    &&& tuner.members.contains(tuner.stats[other].leader)
                    &&& tuner.stats[other].slots > 0
                    &&& other <= tuner.epoch_of(tuner.stats_through)
                } by {
                    if view.tuner.stats.dom().contains(other) {
                        assert(view.tuner.members.contains(view.tuner.stats[other].leader));
                    }
                }
            }
            assert(tuner.schedules.dom().subset_of(scheduled.schedules.dom()));
            vstd::set_lib::lemma_set_subset_finite(
                scheduled.schedules.dom(),
                tuner.schedules.dom(),
            );
            assert(tuner.schedules_fit()) by {
                assert(scheduled.schedules_fit());
                assert forall|other: u64| #[trigger]
                    tuner.schedules.dom().contains(other) implies tuner.schedules[other].epoch
                    == other by {
                    assert(scheduled.schedules.dom().contains(other));
                }
            }
            assert forall|other: u64| #[trigger]
                tuner.schedules.dom().contains(other) implies view.schedule_error(
                tuner.schedules[other],
            ) is None by {
                assert(scheduled.schedules.dom().contains(other));
            }
            lemma_tuner_change(view, tuner);
        } else {
            lemma_tuner_change(view, scheduled);
        }
    }
}

proof fn lemma_epoch_fits(slot: SlotIndex, size: int)
    requires
        size > 0,
    ensures
        0 <= slot.0 as int / size <= slot.0,
        ((slot.0 as int / size) as u64) as int == slot.0 as int / size,
{
    vstd::arithmetic::div_mod::lemma_div_basics(slot.0 as int);
    vstd::arithmetic::div_mod::lemma_div_pos_is_pos(slot.0 as int, size);
    vstd::arithmetic::div_mod::lemma_div_is_ordered_by_denominator(slot.0 as int, 1, size);
}

/// Noting slots changes no decision.
pub proof fn lemma_notes_keep_decisions<V>(view: RuntimeView<V>, slots: Seq<SlotIndex>)
    ensures
        view.note_slots(slots).0.decisions == view.decisions,
    decreases slots.len(),
{
    if slots.len() > 0 {
        lemma_notes_keep_decisions(view, slots.drop_last());
    }
}

/// Noting slots changes schedules and statistics only.
proof fn lemma_note_slots<V>(view: RuntimeView<V>, slots: Seq<SlotIndex>)
    requires
        resumable(view),
    ensures
        resumable(view.note_slots(slots).0),
        view.note_slots(slots).0 == (RuntimeView { tuner: view.note_slots(slots).0.tuner, ..view }),
    decreases slots.len(),
{
    if slots.len() > 0 {
        lemma_note_slots(view, slots.drop_last());
        let (before, noted) = view.note_slots(slots.drop_last());
        let slot = slots.last();
        if noted is Ok && slot.0 <= view.committed_through().0 {
            let decision = view.decisions[slot];
            lemma_noted(before, decision.slot, decision.decided_step);
        }
    }
}

/// Feeding committed decisions into the statistics keeps a runtime resumable,
/// and changes nothing but schedules and statistics.
pub proof fn notes_keep_resumable<V>(view: RuntimeView<V>)
    requires
        resumable(view),
    ensures
        resumable(view.note_committed().0),
        view.note_committed().0.decisions == view.decisions,
        view.note_committed().0.replica == view.replica,
        view.note_committed().0.pending == view.pending,
{
    lemma_note_slots(view, collections::in_order(view.decisions.dom()));
}

proof fn lemma_proposed<V>(view: RuntimeView<V>, after: RuntimeView<V>, slot: SlotIndex)
    requires
        resumable(view),
        after == (RuntimeView {
            replica: after.replica,
            pending: view.pending.insert(slot, after.pending[slot]),
            ..view
        }),
        after.replica.consistent(),
        replica_laws::keyed(after.replica.state),
        after.replica.config == view.replica.config,
        after.replica.state.next_commit == view.replica.state.next_commit,
        after.replica.state.checkpointed_through == view.replica.state.checkpointed_through,
        forall|other: SlotIndex| #[trigger]
            after.replica.state.entry(other).decision == view.replica.state.entry(other).decision,
        forall|other: SlotIndex|
            view.replica.state.log.dom().contains(other)
                ==> #[trigger] after.replica.state.log.dom().contains(other),
        forall|other: SlotIndex|
            view.replica.state.log.dom().contains(other)
                && view.replica.state.log[other].proposed.len() > 0 ==> (
            #[trigger] after.replica.state.log[other]).proposed.len() > 0,
        slot.0 >= view.replica.state.next_commit.0,
        view.replica.state.entry(slot).decision is None,
        after.replica.state.log.dom().contains(slot),
        after.replica.state.log[slot].proposed.len() > 0,
    ensures
        resumable(after),
{
    assert forall|other: SlotIndex| #[trigger] after.decisions.dom().contains(
        other,
    ) implies decision_fits(after, other) by {
        assert(decision_fits(view, other));
        assert(after.replica.state.entry(other).decision == view.replica.state.entry(
            other,
        ).decision);
    }
    assert forall|other: SlotIndex| #[trigger] after.pending.dom().contains(
        other,
    ) implies pending_is_open(after, other) by {
        assert(after.replica.state.entry(other).decision == view.replica.state.entry(
            other,
        ).decision);
        if other != slot {
            assert(view.pending.dom().contains(other));
            assert(pending_is_open(view, other));
            assert(after.replica.state.log[other].proposed.len() > 0);
        }
    }
    assert forall|epoch: u64| #[trigger]
        after.tuner.schedules.dom().contains(epoch) implies after.schedule_fits(epoch) by {
        assert(view.schedule_fits(epoch));
    }
    assert(after.announcements_follow_decisions()) by {
        assert(view.announcements_follow_decisions());
    }
}

/// A change of the log that leaves decisions and the frontier as they are.
proof fn lemma_log_change<V>(view: RuntimeView<V>, after: RuntimeView<V>)
    requires
        resumable(view),
        after == (RuntimeView { replica: after.replica, ..view }),
        after.replica.consistent(),
        replica_laws::keyed(after.replica.state),
        after.replica.config == view.replica.config,
        after.replica.state.next_commit == view.replica.state.next_commit,
        after.replica.state.checkpointed_through == view.replica.state.checkpointed_through,
        forall|other: SlotIndex| #[trigger]
            after.replica.state.entry(other).decision == view.replica.state.entry(other).decision,
        forall|other: SlotIndex|
            view.replica.state.log.dom().contains(other)
                ==> #[trigger] after.replica.state.log.dom().contains(other),
        forall|other: SlotIndex|
            view.replica.state.log.dom().contains(other)
                && view.replica.state.log[other].proposed.len() > 0 ==> (
            #[trigger] after.replica.state.log[other]).proposed.len() > 0,
    ensures
        resumable(after),
{
    assert forall|other: SlotIndex| #[trigger] after.decisions.dom().contains(
        other,
    ) implies decision_fits(after, other) by {
        assert(decision_fits(view, other));
        assert(after.replica.state.entry(other).decision == view.replica.state.entry(
            other,
        ).decision);
    }
    assert forall|other: SlotIndex| #[trigger] after.pending.dom().contains(
        other,
    ) implies pending_is_open(after, other) by {
        assert(pending_is_open(view, other));
        assert(after.replica.state.entry(other).decision == view.replica.state.entry(
            other,
        ).decision);
        assert(after.replica.state.log[other].proposed.len() > 0);
    }
    assert forall|epoch: u64| #[trigger]
        after.tuner.schedules.dom().contains(epoch) implies after.schedule_fits(epoch) by {
        assert(view.schedule_fits(epoch));
    }
    assert(after.announcements_follow_decisions()) by {
        assert(view.announcements_follow_decisions());
    }
}

/// Taking up one proposal keeps a runtime resumable.
pub proof fn proposals_keep_resumable<V>(view: RuntimeView<V>)
    requires
        resumable(view),
    ensures
        resumable(view.take_proposal().0),
{
    replica_laws::next_proposal_keeps_consistency(view.replica);
    replica_laws::proposals_take_open_slots(view.replica);
    let (after, taken) = view.take_proposal();
    match taken {
        Ok(Some((slot, values))) => {
            assert(after.pending =~= view.pending.insert(slot, after.pending[slot]));
            lemma_proposed(view, after, slot);
        },
        _ => {
            lemma_log_change(view, after);
        },
    }
}

proof fn lemma_arm_pipeline<V>(view: RuntimeView<V>)
    requires
        resumable(view),
    ensures
        resumable(view.arm_pipeline().0),
    decreases view.replica.state.pending.len(),
{
    proposals_keep_resumable(view);
    let (replica, next) = view.replica.next_proposal();
    match next {
        Ok(Some((slot, values))) => {
            let armed = RuntimeView {
                replica,
                pending: view.pending.insert(slot, PendingView::unarmed(values)),
                ..view
            };
            assert(armed == view.take_proposal().0);
            if replica.state.pending.len() < view.replica.state.pending.len() {
                lemma_arm_pipeline(armed);
            }
        },
        _ => {},
    }
}

proof fn lemma_arm_gap<V>(view: RuntimeView<V>)
    requires
        resumable(view),
    ensures
        resumable(view.arm_gap().0),
{
    let frontier = view.committed_through();
    let gap = SlotIndex((frontier.0 + 1) as u64);
    match view.noop_value {
        None => {},
        Some(noop) => {
            if view.pending.dom() == Set::<SlotIndex>::empty() && frontier.0 < u64::MAX
                && view.decided_after(gap) && view.is_open(gap) {
                assert(view.replica.state.rooted());
                assert(gap == view.replica.state.next_commit);
                replica_laws::note_proposed_keeps_consistency(view.replica, gap, seq![noop]);
                let after = view.arm_gap().0;
                if view.replica.note_proposed(gap, seq![noop]).1 is Ok {
                    assert forall|other: SlotIndex| #[trigger]
                        after.replica.state.entry(other).decision == view.replica.state.entry(
                            other,
                        ).decision by {}
                    assert(after.pending =~= view.pending.insert(gap, after.pending[gap]));
                    lemma_proposed(view, after, gap);
                }
            }
        },
    }
}

/// Taking up all that can be proposed keeps a runtime resumable.
pub proof fn arming_keeps_resumable<V>(view: RuntimeView<V>)
    requires
        resumable(view),
    ensures
        resumable(view.arm().0),
        resumable(view.arm_gap().0),
{
    lemma_arm_gap(view);
    lemma_arm_pipeline(view);
    if view.arm_pipeline().1 is Ok {
        lemma_arm_gap(view.arm_pipeline().0);
    }
}

proof fn lemma_deadlines<V>(view: RuntimeView<V>, slots: Seq<SlotIndex>, now: Span)
    requires
        resumable(view),
    ensures
        resumable(view.deadlines(slots, now).0),
        view.deadlines(slots, now).0 == (RuntimeView {
            tuner: view.deadlines(slots, now).0.tuner,
            ..view
        }),
    decreases slots.len(),
{
    if slots.len() > 0 {
        lemma_deadlines(view, slots.drop_last(), now);
        let (before, list) = view.deadlines(slots.drop_last(), now);
        if list is Ok {
            lookups_keep_resumable(before, slots.last());
        }
    }
}

proof fn lemma_with_deadlines<V>(view: RuntimeView<V>, slots: Seq<SlotIndex>, list: Seq<Span>)
    requires
        resumable(view),
        forall|i: int| 0 <= i < slots.len() ==> view.pending.dom().contains(#[trigger] slots[i]),
    ensures
        resumable(view.with_deadlines(slots, list)),
        view.with_deadlines(slots, list).pending.dom() == view.pending.dom(),
    decreases slots.len(),
{
    if slots.len() > 0 {
        let rest = slots.drop_last();
        assert forall|i: int| 0 <= i < rest.len() implies view.pending.dom().contains(
            #[trigger] rest[i],
        ) by {
            assert(view.pending.dom().contains(slots[i]));
        }
        lemma_with_deadlines(view, rest, list.drop_last());
        let before = view.with_deadlines(rest, list.drop_last());
        let after = view.with_deadlines(slots, list);
        assert(view.pending.dom().contains(slots[slots.len() - 1]));
        assert(after.pending.dom() =~= before.pending.dom());
        lemma_same_log(before, after);
    }
}

proof fn lemma_unarmed_are_listed<V>(view: RuntimeView<V>, slots: Seq<SlotIndex>, i: int)
    requires
        0 <= i < view.unarmed_of(slots).len(),
    ensures
        slots.contains(view.unarmed_of(slots)[i]),
    decreases slots.len(),
{
    let rest = slots.drop_last();
    let before = view.unarmed_of(rest);
    if i < before.len() {
        lemma_unarmed_are_listed(view, rest, i);
        let k = choose|k: int| 0 <= k < rest.len() && rest[k] == before[i];
        assert(slots[k] == before[i]);
    } else {
        assert(slots[slots.len() - 1] == view.unarmed_of(slots)[i]);
    }
}

/// Giving proposals their deadlines keeps a runtime resumable.
pub proof fn deadlines_keep_resumable<V>(view: RuntimeView<V>, now: Span)
    requires
        resumable(view),
    ensures
        resumable(view.assign_deadlines(now).0),
{
    let keys = collections::in_order(view.pending.dom());
    let slots = view.unarmed_of(keys);
    lemma_deadlines(view, slots, now);
    let (after, list) = view.deadlines(slots, now);
    if list is Ok {
        collections::lemma_in_order_exists(view.pending.dom());
        assert forall|i: int| 0 <= i < slots.len() implies after.pending.dom().contains(
            #[trigger] slots[i],
        ) by {
            lemma_unarmed_are_listed(view, keys, i);
        }
        lemma_with_deadlines(after, slots, list->Ok_0);
    }
}

/// Putting a proposal off keeps a runtime resumable.
pub proof fn deferrals_keep_resumable<V>(
    view: RuntimeView<V>,
    slot: SlotIndex,
    observed: Option<Step>,
    now: Span,
)
    requires
        resumable(view),
    ensures
        resumable(view.defer(slot, observed, now).0),
{
    let (after, deferred) = view.defer(slot, observed, now);
    if deferred {
        assert(after.pending.dom() =~= view.pending.dom());
        lemma_same_log(view, after);
    }
}

/// A stored decision keeps a runtime resumable.
pub proof fn lemma_stored<V>(view: RuntimeView<V>, after: RuntimeView<V>, decision: DecisionView<V>)
    requires
        resumable(view),
        view.decision_error(decision) is None,
        !view.decisions.dom().contains(decision.slot),
        decision.slot.0 > view.replica.state.checkpointed_through.0,
        view.replica.apply_decision(decision).1 is Ok,
        after == (RuntimeView {
            replica: view.replica.apply_decision(decision).0,
            pending: view.pending.remove(decision.slot),
            decisions: view.decisions.insert(decision.slot, decision),
            announced_to: after.announced_to,
            ..view
        }),
        after.announced_to == view.announced_to || after.announced_to == view.announced_to.insert(
            decision.slot,
            Set::<ReplicaId>::empty(),
        ),
    ensures
        resumable(after),
{
    replica_laws::apply_decision_keeps_consistency(view.replica, decision);
    replica_laws::stored_decisions_are_found(view.replica, decision);
    let (old_state, state) = (view.replica.state, after.replica.state);
    assert forall|slot: SlotIndex| #[trigger] after.decisions.dom().contains(
        slot,
    ) implies decision_fits(after, slot) by {
        if slot != decision.slot {
            assert(view.decisions.dom().contains(slot));
            assert(decision_fits(view, slot));
            replica_laws::decisions_touch_their_own_slot(view.replica, decision, slot);
        }
    }
    assert forall|slot: SlotIndex| #[trigger] after.pending.dom().contains(
        slot,
    ) implies pending_is_open(after, slot) by {
        assert(view.pending.dom().contains(slot));
        assert(pending_is_open(view, slot));
        replica_laws::decisions_touch_their_own_slot(view.replica, decision, slot);
        assert(old_state.entry(slot).decision is None);
        assert(state.entry(slot).decision is None);
    }
    assert forall|epoch: u64| #[trigger]
        after.tuner.schedules.dom().contains(epoch) implies after.schedule_fits(epoch) by {
        assert(view.schedule_fits(epoch));
    }
    assert(after.announcements_follow_decisions()) by {
        assert forall|slot: SlotIndex| #[trigger] after.announced_to.dom().contains(slot) implies {
            &&& after.decisions.dom().contains(slot)
            &&& after.announced_to[slot].subset_of(after.members().to_set())
        } by {
            if slot != decision.slot {
                assert(view.announced_to.dom().contains(slot));
            } else if view.announced_to.dom().contains(slot) {
                assert(view.decisions.dom().contains(slot));
            }
        }
    }
}

/// Taking in a decision keeps a runtime resumable, except at the last slot
/// there is.
pub proof fn decisions_keep_resumable<V>(view: RuntimeView<V>, decision: DecisionView<V>)
    requires
        resumable(view),
        view.accept(decision).1 != Err::<Acceptance, ErrorView>(ErrorView::SlotOverflow),
    ensures
        resumable(view.accept(decision).0),
{
    let (after, accepted) = view.accept(decision);
    if accepted == Ok::<Acceptance, ErrorView>(Acceptance::New) {
        lemma_stored(view, after, decision);
    } else if view.decision_error(decision) is None && decision.slot.0
        > view.replica.state.checkpointed_through.0 && !view.decisions.dom().contains(
        decision.slot,
    ) {
        let applied = view.replica.apply_decision(decision);
        assert(applied.1 is Err);
        replica_laws::apply_decision_keeps_consistency(view.replica, decision);
        if view.replica.decision_error(decision) is Some {
            assert(after == view);
        } else {
            replica_laws::commit_refusals_are_overflows(view.replica, decision);
        }
    }
}

/// What was decided stays decided: a decision is never replaced, and one with
/// other values for the same slot is refused as conflicting.
pub proof fn decisions_are_kept<V>(
    view: RuntimeView<V>,
    decision: DecisionView<V>,
    slot: SlotIndex,
)
    requires
        view.decisions.dom().contains(slot),
    ensures
        view.accept(decision).0.decisions.dom().contains(slot),
        view.accept(decision).0.decisions[slot] == view.decisions[slot],
        decision.slot == slot && slot.0 > view.replica.state.checkpointed_through.0
            && view.decision_error(decision) is None && decision.value_ids
            != view.decisions[slot].value_ids ==> view.accept(decision) == (
            view,
            Err::<Acceptance, ErrorView>(ErrorView::ConflictingDecision { slot }),
        ),
{
}

/// Delivering what is next keeps a runtime resumable.
pub proof fn deliveries_keep_resumable<V>(view: RuntimeView<V>)
    requires
        resumable(view),
    ensures
        view.next_delivery() matches Some(delivery) ==> resumable(view.delivered(delivery)),
{
    if view.next_delivery() is Some {
        let delivery = view.next_delivery()->0;
        let keys = collections::in_order(view.decisions.dom());
        collections::lemma_in_order_exists(view.decisions.dom());
        lemma_delivery_is_of_a_slot(view, keys);
        let slot = choose|slot: SlotIndex| #[trigger]
            keys.contains(slot) && view.delivery_of(slot) == Some(delivery);
        assert(view.decisions.dom().contains(slot));
        assert(decision_fits(view, slot));
        let after = view.delivered(delivery);
        assert forall|other: SlotIndex| #[trigger] after.decisions.dom().contains(
            other,
        ) implies decision_fits(after, other) by {
            assert(decision_fits(view, other));
        }
        assert forall|other: SlotIndex| #[trigger] after.pending.dom().contains(
            other,
        ) implies pending_is_open(after, other) by {
            assert(pending_is_open(view, other));
        }
        assert forall|epoch: u64| #[trigger]
            after.tuner.schedules.dom().contains(epoch) implies after.schedule_fits(epoch) by {
            assert(view.schedule_fits(epoch));
        }
        assert(after.announcements_follow_decisions()) by {
            assert(view.announcements_follow_decisions());
        }
    }
}

proof fn lemma_delivery_is_of_a_slot<V>(view: RuntimeView<V>, slots: Seq<SlotIndex>)
    requires
        view.first_delivery(slots) is Some,
    ensures
        exists|slot: SlotIndex| #[trigger]
            slots.contains(slot) && view.delivery_of(slot) == view.first_delivery(slots),
    decreases slots.len(),
{
    let rest = slots.drop_last();
    if view.first_delivery(rest) is Some {
        lemma_delivery_is_of_a_slot(view, rest);
        let slot = choose|slot: SlotIndex| #[trigger]
            rest.contains(slot) && view.delivery_of(slot) == view.first_delivery(rest);
        let k = choose|k: int| 0 <= k < rest.len() && rest[k] == slot;
        assert(slots[k] == slot);
        assert(slots.contains(slot));
    } else {
        assert(slots[slots.len() - 1] == slots.last());
        assert(slots.contains(slots.last()));
    }
}

proof fn lemma_first_delivery<V>(view: RuntimeView<V>, slots: Seq<SlotIndex>)
    ensures
        match view.first_delivery(slots) {
            None => forall|j: int| 0 <= j < slots.len() ==> view.delivery_of(#[trigger] slots[j])
                is None,
            Some(delivery) => exists|k: int|
                0 <= k < slots.len() && view.delivery_of(#[trigger] slots[k]) == Some(delivery)
                    && none_before(view, slots, k),
        },
    decreases slots.len(),
{
    if slots.len() > 0 {
        let rest = slots.drop_last();
        lemma_first_delivery(view, rest);
        match view.first_delivery(rest) {
            Some(delivery) => {
                let k = choose|k: int|
                    0 <= k < rest.len() && view.delivery_of(#[trigger] rest[k]) == Some(delivery)
                        && none_before(view, rest, k);
                assert(slots[k] == rest[k]);
                assert(none_before(view, slots, k)) by {
                    assert forall|j: int| 0 <= j < k implies view.delivery_of(#[trigger] slots[j])
                        is None by {
                        assert(rest[j] == slots[j]);
                    }
                }
            },
            None => {
                let k = slots.len() - 1;
                assert forall|j: int| 0 <= j < k implies view.delivery_of(#[trigger] slots[j])
                    is None by {
                    assert(rest[j] == slots[j]);
                }
                assert(none_before(view, slots, k));
                assert(slots[k] == slots.last());
            },
        }
    }
}

/// Nothing is left to deliver of the slots before a place.
spec fn none_before<V>(view: RuntimeView<V>, slots: Seq<SlotIndex>, k: int) -> bool {
    forall|j: int| 0 <= j < k ==> view.delivery_of(#[trigger] slots[j]) is None
}

/// The decision that a delivery is of.
pub open spec fn delivered_decision<V>(delivery: DeliveryView<V>) -> DecisionView<V> {
    match delivery {
        DeliveryView::Execute(decision) => decision,
        DeliveryView::Notify(decision) => decision,
    }
}

/// Decisions are executed in slot order: what is delivered next is committed,
/// and nothing before it is left to deliver.
pub proof fn deliveries_are_in_order<V>(
    view: RuntimeView<V>,
    delivery: DeliveryView<V>,
    earlier: SlotIndex,
)
    requires
        resumable(view),
        view.next_delivery() == Some(delivery),
        view.decisions.dom().contains(earlier),
        earlier.0 < delivered_decision(delivery).slot.0,
    ensures
        delivered_decision(delivery).slot.0 <= view.committed_through().0,
        view.executed.contains(earlier),
        view.notified.contains(earlier),
{
    let keys = collections::in_order(view.decisions.dom());
    collections::lemma_in_order_exists(view.decisions.dom());
    lemma_first_delivery(view, keys);
    let k = choose|k: int|
        0 <= k < keys.len() && view.delivery_of(#[trigger] keys[k]) == Some(delivery)
            && none_before(view, keys, k);
    assert(view.decisions.dom().contains(keys[k]));
    assert(decision_fits(view, keys[k]));
    assert(delivered_decision(delivery).slot == keys[k]);
    assert(keys.contains(earlier));
    let j = choose|j: int| 0 <= j < keys.len() && keys[j] == earlier;
    if j > k {
        assert(keys[k].rank() < keys[j].rank());
    }
    assert(j < k);
    assert(view.delivery_of(keys[j]) is None);
    assert(decision_fits(view, earlier));
}

/// A change of announcements alone.
proof fn lemma_announced<V>(view: RuntimeView<V>, after: RuntimeView<V>)
    requires
        resumable(view),
        after == (RuntimeView { announced_to: after.announced_to, ..view }),
        after.announcements_follow_decisions(),
    ensures
        resumable(after),
{
    assert forall|slot: SlotIndex| #[trigger] after.decisions.dom().contains(
        slot,
    ) implies decision_fits(after, slot) by {
        assert(decision_fits(view, slot));
    }
    assert forall|slot: SlotIndex| #[trigger] after.pending.dom().contains(
        slot,
    ) implies pending_is_open(after, slot) by {
        assert(pending_is_open(view, slot));
    }
    assert forall|epoch: u64| #[trigger]
        after.tuner.schedules.dom().contains(epoch) implies after.schedule_fits(epoch) by {
        assert(view.schedule_fits(epoch));
    }
}

/// A member's acknowledgement of a retained decision keeps a runtime resumable.
pub proof fn acknowledgements_keep_resumable<V>(
    view: RuntimeView<V>,
    slot: SlotIndex,
    member: ReplicaId,
)
    requires
        resumable(view),
        view.decisions.dom().contains(slot),
        view.members().contains(member),
    ensures
        resumable(view.announced(slot, member)),
{
    let after = view.announced(slot, member);
    assert(after.announcements_follow_decisions()) by {
        assert forall|other: SlotIndex| #[trigger] after.announced_to.dom().contains(other) implies {
            &&& after.decisions.dom().contains(other)
            &&& after.announced_to[other].subset_of(after.members().to_set())
        } by {
            if view.announced_to.dom().contains(other) {
                assert(view.announced_to[other].subset_of(view.members().to_set()));
            }
            assert(view.members().to_set().contains(member));
        }
    }
    lemma_announced(view, after);
}

/// Dropping what a checkpoint covers keeps a runtime resumable, and keeps every
/// decision after the checkpoint.
pub proof fn checkpoints_keep_resumable<V>(view: RuntimeView<V>, slot: SlotIndex)
    requires
        resumable(view),
    ensures
        resumable(view.checkpointed(slot)),
        forall|later: SlotIndex|
            view.decisions.dom().contains(later) && later.0 > slot.0 ==> #[trigger]
            view.checkpointed(slot).decisions.dom().contains(later) && view.checkpointed(
                slot,
            ).decisions[later] == view.decisions[later],
{
    replica_laws::prune_keeps_what_is_needed(view.replica, slot);
    let after = view.checkpointed(slot);
    let (old_state, state) = (view.replica.state, after.replica.state);
    assert(after.decisions.dom().subset_of(view.decisions.dom()));
    vstd::set_lib::lemma_set_subset_finite(view.decisions.dom(), after.decisions.dom());
    assert forall|other: SlotIndex| #[trigger] after.decisions.dom().contains(
        other,
    ) implies decision_fits(after, other) by {
        assert(view.decisions.dom().contains(other));
        assert(decision_fits(view, other));
        assert(old_state.log.dom().contains(other));
        assert(state.log.dom().contains(other));
    }
    assert forall|other: SlotIndex| #[trigger] after.pending.dom().contains(
        other,
    ) implies pending_is_open(after, other) by {
        assert(pending_is_open(view, other));
        assert(state.log.dom().contains(other));
    }
    assert forall|epoch: u64| #[trigger]
        after.tuner.schedules.dom().contains(epoch) implies after.schedule_fits(epoch) by {
        assert(view.schedule_fits(epoch));
    }
    assert(after.deliveries_follow_decisions());
    assert(after.announcements_follow_decisions()) by {
        assert(view.announcements_follow_decisions());
    }
}

/// A runtime that takes up a transfer is resumable, as long as the transfer
/// retains no decision that its checkpoint covers.
pub proof fn transfers_are_resumable<V>(view: RuntimeView<V>, transfer: TransferView<V>)
    requires
        resumable(view),
        transfer.runtime.replica.log.dom().finite(),
        transfer.runtime.replica.seen_value_ids.finite(),
        replica_laws::keyed(transfer.runtime.replica),
        transfer.runtime.schedules.dom().finite(),
        transfer.runtime.decisions.dom().finite(),
        transfer.runtime.pending.dom().finite(),
        forall|slot: SlotIndex| #[trigger]
            transfer.runtime.decisions.dom().contains(slot) ==> slot.0 > transfer.through.0,
        view.install_transfer(transfer) is Ok,
    ensures
        resumable(view.install_transfer(transfer)->Ok_0),
{
    let resumed = RuntimeView::resumed(view.config, transfer.runtime);
    let after = view.install_transfer(transfer)->Ok_0;
    assert(after.pending.dom() =~= transfer.runtime.pending.dom());
    let keys = collections::in_order(resumed.decisions.dom());
    let rule = |slot: SlotIndex| resumed.transferred_decision_error(slot);
    recorder::lemma_no_error(keys, rule);
    collections::lemma_in_order_exists(resumed.decisions.dom());
    assert forall|slot: SlotIndex| #[trigger] after.decisions.dom().contains(
        slot,
    ) implies decision_fits(after, slot) by {
        assert(keys.contains(slot));
        let k = choose|k: int| 0 <= k < keys.len() && keys[k] == slot;
        assert(rule(keys[k]) is None);
        assert(resumed.transferred_decision_error(slot) is None);
    }
    assert forall|slot: SlotIndex| #[trigger] after.pending.dom().contains(
        slot,
    ) implies pending_is_open(after, slot) by {
        assert(resumed.pending.dom().contains(slot));
        assert(resumed.pending_fits(slot));
    }
    assert forall|epoch: u64| #[trigger]
        after.tuner.schedules.dom().contains(epoch) implies after.schedule_fits(epoch) by {
        assert(resumed.tuner.schedules.dom().contains(epoch));
        assert(resumed.schedule_fits(epoch));
    }
    assert(after.announcements_follow_decisions()) by {
        assert(resumed.announcements_follow_decisions());
    }
}

/// A membership change keeps a runtime resumable as long as every retained
/// decision was made by a member of the next membership.
pub proof fn memberships_keep_resumable<V>(
    view: RuntimeView<V>,
    next: ClusterView,
    anchor: SlotIndex,
)
    requires
        resumable(view),
        next.valid(),
        forall|slot: SlotIndex| #[trigger]
            view.decisions.dom().contains(slot) ==> next.members.contains(
                view.decisions[slot].proposer,
            ),
    ensures
        resumable(view.with_membership(next, anchor)),
{
    let after = view.with_membership(next, anchor);
    assert forall|slot: SlotIndex| #[trigger] after.decisions.dom().contains(
        slot,
    ) implies decision_fits(after, slot) by {
        assert(decision_fits(view, slot));
    }
    assert forall|slot: SlotIndex| #[trigger] after.pending.dom().contains(
        slot,
    ) implies pending_is_open(after, slot) by {
        assert(pending_is_open(view, slot));
    }
    assert(after.announcements_follow_decisions()) by {
        assert forall|slot: SlotIndex| #[trigger] after.announced_to.dom().contains(slot) implies {
            &&& after.decisions.dom().contains(slot)
            &&& after.announced_to[slot].subset_of(after.members().to_set())
        } by {
            assert(view.announced_to.dom().contains(slot));
        }
    }
}

/// A checkpoint that was made is taken up by any runtime of the same
/// configuration: a transfer of the snapshot is accepted.
pub proof fn checkpoints_are_taken_up<V>(
    view: RuntimeView<V>,
    receiver: RuntimeView<V>,
    through: SlotIndex,
    values: Seq<V>,
    application: Seq<u8>,
)
    requires
        resumable(view),
        receiver.config == view.config,
        through == view.replica.state.checkpointed_through,
    ensures
        receiver.install_transfer(
            TransferView {
                through,
                checkpointed_value_ids: values,
                application_checkpoint: application,
                runtime: view.snapshot(),
            },
        ) is Ok,
{
    let resumed = RuntimeView::resumed(view.config, view.snapshot());
    assert(resumed.tuner =~= view.tuner);
    assert(resumed.pending.dom() =~= view.pending.dom());
    assert forall|epoch: u64| #[trigger]
        resumed.tuner.schedules.dom().contains(epoch) implies resumed.schedule_fits(epoch) by {
        assert(view.schedule_fits(epoch));
    }
    assert forall|slot: SlotIndex| #[trigger] resumed.decisions.dom().contains(
        slot,
    ) implies resumed.transferred_decision_error(slot) is None by {
        assert(decision_fits(view, slot));
        assert(view.replica.state.entry(slot).decision is Some);
    }
    lemma_all_fit(
        resumed.decisions.dom(),
        |slot: SlotIndex| resumed.transferred_decision_error(slot),
    );
    assert forall|slot: SlotIndex| #[trigger] resumed.pending.dom().contains(
        slot,
    ) implies resumed.pending_fits(slot) by {
        assert(pending_is_open(view, slot));
        if view.decisions.dom().contains(slot) {
            assert(decision_fits(view, slot));
        }
    }
    assert(resumed.announcements_follow_decisions()) by {
        assert(view.announcements_follow_decisions());
    }
}

} // verus!
