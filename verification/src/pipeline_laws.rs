//! Laws of a runtime's pipeline: what is proposed, accepted, delivered, announced
//! and dropped.

use crate::cluster::MembershipChangeView;
use crate::collections;
use crate::error::ErrorView;
use crate::key::Key;
use crate::replica_laws;
use crate::runtime;
use crate::runtime_laws;
use crate::runtime_state::{Acceptance, DeliveryView, PendingView, RuntimeView, TransferView};
use crate::schedule::ScheduleView;
use crate::types::{DecisionView, ReplicaId, SlotIndex};
use vstd::prelude::*;

verus! {

/// Whether a queued value was taken up for a slot that was not pending before.
pub open spec fn is_taken_up<V>(before: RuntimeView<V>, after: RuntimeView<V>, value: V) -> bool {
    exists|slot: SlotIndex|
        !before.pending.dom().contains(slot) && #[trigger] after.pending.dom().contains(slot)
            && after.pending[slot].value_ids.contains(value)
}

/// Arming the pipeline takes values from the front of the queue until it is empty
/// or the pipeline is full. Every value that leaves the queue is in a proposal for
/// a slot that was open, and what was pending stays as it was.
pub proof fn queued_values_are_taken_up<V>(view: RuntimeView<V>)
    requires
        forall|slot: SlotIndex| #[trigger]
            view.pending.dom().contains(slot) ==> view.replica.state.entry(slot).proposed.len() > 0,
    ensures
        ({
            let (after, armed) = view.arm_pipeline();
            let (queue, rest) = (view.replica.state.pending, after.replica.state.pending);
            let taken = queue.len() - rest.len();
            &&& armed is Ok ==> {
                &&& 0 <= taken && rest == queue.skip(taken)
                &&& armed->Ok_0 == (taken > 0)
                &&& rest.len() == 0 || after.replica.state.inflight_count()
                    >= after.replica.config.pipeline_len
                &&& forall|k: int|
                    0 <= k < taken ==> is_taken_up(view, after, #[trigger] queue[k])
                &&& forall|slot: SlotIndex| #[trigger]
                    view.pending.dom().contains(slot) ==> after.pending.dom().contains(slot)
                        && after.pending[slot] == view.pending[slot]
                &&& forall|slot: SlotIndex| #[trigger]
                    after.pending.dom().contains(slot) && !view.pending.dom().contains(slot) ==> {
                        &&& view.replica.state.entry(slot).decision is None
                        &&& view.replica.state.entry(slot).proposed.len() == 0
                        &&& slot.0 >= view.replica.state.next_commit.0
                        &&& after.pending[slot].ready_at is None
                        &&& after.pending[slot].value_ids.len() > 0
                        &&& after.replica.state.entry(slot).proposed
                            == after.pending[slot].value_ids
                    }
                &&& after.decisions == view.decisions
            }
        }),
    decreases view.replica.state.pending.len(),
{
    let (replica, next) = view.replica.next_proposal();
    replica_laws::proposals_take_the_front(view.replica);
    replica_laws::proposals_take_open_slots(view.replica);
    let queue = view.replica.state.pending;
    match next {
        Ok(Some((slot, values))) => {
            let first = RuntimeView {
                replica,
                pending: view.pending.insert(slot, PendingView::unarmed(values)),
                ..view
            };
            assert(replica.state.pending.len() < queue.len());
            assert forall|other: SlotIndex| #[trigger] first.pending.dom().contains(
                other,
            ) implies first.replica.state.entry(other).proposed.len() > 0 by {
                if other != slot {
                    assert(view.pending.dom().contains(other));
                    assert(replica.state.entry(other) == view.replica.state.entry(other));
                }
            }
            queued_values_are_taken_up(first);
            let (after, armed) = view.arm_pipeline();
            if armed is Ok {
                let rest = after.replica.state.pending;
                let taken = queue.len() - rest.len();
                let middle = first.replica.state.pending;
                assert(middle =~= queue.skip(values.len() as int));
                assert(rest =~= queue.skip(taken));
                assert(first.pending.dom().contains(slot));
                assert(after.pending[slot] == first.pending[slot]);
                assert(!view.pending.dom().contains(slot));
                assert forall|k: int| 0 <= k < taken implies is_taken_up(
                    view,
                    after,
                    #[trigger] queue[k],
                ) by {
                    if k < values.len() {
                        assert(values[k] == queue[k]) by {
                            assert((values + middle)[k] == values[k]);
                        }
                        assert(after.pending.dom().contains(slot));
                        assert(after.pending[slot].value_ids.contains(queue[k]));
                    } else {
                        assert(middle[k - values.len()] == queue[k]);
                        let other = choose|other: SlotIndex|
                            !first.pending.dom().contains(other)
                                && #[trigger] after.pending.dom().contains(other)
                                && after.pending[other].value_ids.contains(queue[k]);
                        assert(!view.pending.dom().contains(other));
                    }
                }
                assert forall|other: SlotIndex| #[trigger] view.pending.dom().contains(
                    other,
                ) implies after.pending.dom().contains(other) && after.pending[other]
                    == view.pending[other] by {
                    assert(first.pending.dom().contains(other));
                }
                assert forall|other: SlotIndex| #[trigger] after.pending.dom().contains(other)
                    && !view.pending.dom().contains(other) implies {
                    &&& view.replica.state.entry(other).decision is None
                    &&& view.replica.state.entry(other).proposed.len() == 0
                    &&& other.0 >= view.replica.state.next_commit.0
                    &&& after.pending[other].ready_at is None
                    &&& after.pending[other].value_ids.len() > 0
                    &&& after.replica.state.entry(other).proposed == after.pending[other].value_ids
                } by {
                    if other != slot {
                        assert(!first.pending.dom().contains(other));
                        assert(replica.state.entry(other) == view.replica.state.entry(other));
                    } else {
                        lemma_arming_keeps_proposals(first, slot);
                    }
                }
            }
        },
        _ => {
            assert(queue.skip(0) =~= queue);
        },
    }
}

/// Arming leaves a local proposal as it is.
proof fn lemma_arming_keeps_proposals<V>(view: RuntimeView<V>, slot: SlotIndex)
    requires
        view.replica.state.log.dom().contains(slot),
        view.replica.state.log[slot].proposed.len() > 0,
    ensures
        view.arm_pipeline().0.replica.state.log.dom().contains(slot),
        view.arm_pipeline().1 is Ok ==> view.arm_pipeline().0.replica.state.log[slot].proposed
            == view.replica.state.log[slot].proposed,
    decreases view.replica.state.pending.len(),
{
    let (replica, next) = view.replica.next_proposal();
    replica_laws::proposals_take_the_front(view.replica);
    replica_laws::proposals_take_open_slots(view.replica);
    if let Ok(Some((taken, values))) = next {
        let first = RuntimeView {
            replica,
            pending: view.pending.insert(taken, PendingView::unarmed(values)),
            ..view
        };
        assert(taken != slot);
        assert(replica.state.entry(slot) == view.replica.state.entry(slot));
        assert(replica.state.log.dom().contains(slot));
        lemma_arming_keeps_proposals(first, slot);
    }
}

/// A gap at the frontier is filled with the no-op exactly where one is
/// configured, nothing is pending, a later slot is decided, and the gap itself is
/// neither decided nor proposed for. Otherwise nothing changes.
pub proof fn gaps_are_filled_with_the_noop<V>(view: RuntimeView<V>)
    ensures
        ({
            let (after, filled) = view.arm_gap();
            let state = view.replica.state;
            let gap = SlotIndex((view.committed_through().0 + 1) as u64);
            let wanted = {
                &&& view.noop_value is Some
                &&& view.pending.dom() == Set::<SlotIndex>::empty()
                &&& view.committed_through().0 < u64::MAX
                &&& !view.decisions.dom().contains(gap)
                &&& exists|later: SlotIndex| #[trigger]
                    view.decisions.dom().contains(later) && later.0 > view.committed_through().0 + 1
                &&& state.entry(gap).decision is None && state.entry(gap).proposed.len() == 0
            };
            &&& filled == Ok::<bool, ErrorView>(true) ==> {
                &&& wanted
                &&& after.pending.dom() == Set::<SlotIndex>::empty().insert(gap)
                &&& after.pending[gap].value_ids == seq![view.noop_value->0]
                &&& after.pending[gap].ready_at is None
                &&& after.replica.state.entry(gap).proposed == seq![view.noop_value->0]
                &&& forall|slot: SlotIndex|
                    slot != gap ==> #[trigger] after.replica.state.entry(slot) == state.entry(slot)
                &&& after.decisions == view.decisions
                &&& after.replica.state.pending == state.pending
            }
            &&& filled == Ok::<bool, ErrorView>(false) ==> after == view && !wanted
        }),
{
    let after = view.arm_gap().0;
    let gap = SlotIndex((view.committed_through().0 + 1) as u64);
    if view.arm_gap().1 == Ok::<bool, ErrorView>(true) {
        assert(after.pending.dom() =~= Set::<SlotIndex>::empty().insert(gap));
    }
}

/// Taking in a decision. One without values or with a value twice, or of a
/// replica that is no member, is refused; so is one that contradicts what is
/// decided. One at or below the checkpoint, and one that is known, change nothing.
/// Any other is decided from then on, and no longer pending.
pub proof fn accepted_decisions_are_decided<V>(view: RuntimeView<V>, decision: DecisionView<V>)
    ensures
        ({
            let (after, accepted) = view.accept(decision);
            let slot = decision.slot;
            let fits = decision.value_ids.len() > 0 && decision.value_ids.no_duplicates()
                && view.config.cluster.members.contains(decision.proposer);
            let covered = slot.0 <= view.replica.state.checkpointed_through.0;
            let known = view.decisions.dom().contains(slot);
            let agrees = known && view.decisions[slot].value_ids == decision.value_ids;
            &&& !fits ==> accepted is Err && after == view
            &&& fits && covered ==> accepted == Ok::<Acceptance, ErrorView>(
                Acceptance::Checkpointed,
            ) && after == view
            &&& fits && !covered && agrees ==> accepted == Ok::<Acceptance, ErrorView>(
                Acceptance::Known,
            ) && after == view
            &&& fits && !covered && known && !agrees ==> accepted == Err::<Acceptance, ErrorView>(
                ErrorView::ConflictingDecision { slot },
            ) && after == view
            &&& fits && !covered && !known ==> {
                &&& accepted is Ok <==> view.replica.apply_decision(decision).1 is Ok
                &&& after.replica == view.replica.apply_decision(decision).0
                &&& accepted is Ok ==> accepted == Ok::<Acceptance, ErrorView>(Acceptance::New)
                &&& accepted is Ok ==> {
                    &&& after.decisions == view.decisions.insert(slot, decision)
                    &&& !after.pending.dom().contains(slot)
                    &&& forall|other: SlotIndex|
                        other != slot ==> {
                            &&& #[trigger] after.pending.dom().contains(other)
                                == view.pending.dom().contains(other)
                            &&& after.pending.dom().contains(other) ==> after.pending[other]
                                == view.pending[other]
                        }
                    &&& after.announced_to.dom().contains(slot)
                    &&& !view.announced_to.dom().contains(slot) ==> after.announced_to[slot]
                        == Set::<ReplicaId>::empty()
                    &&& after.executed == view.executed && after.notified == view.notified
                }
                &&& accepted is Err ==> after.decisions == view.decisions && after.pending
                    == view.pending
            }
            &&& after.config == view.config
        }),
{
}

/// What is delivered next: the first committed decision, in slot order, that is
/// not executed and told of yet. It is executed before it is told of. Nothing is
/// next exactly where all that is committed was executed and told of.
pub proof fn deliveries_execute_then_tell<V>(view: RuntimeView<V>)
    requires
        view.decisions.dom().finite(),
        runtime::keyed(view),
    ensures
        ({
            let through = view.committed_through().0;
            match view.next_delivery() {
                Some(delivery) => {
                    let decision = runtime_laws::delivered_decision(delivery);
                    let slot = decision.slot;
                    let after = view.delivered(delivery);
                    &&& view.decisions.dom().contains(slot) && view.decisions[slot] == decision
                    &&& slot.0 <= through
                    &&& match delivery {
                        DeliveryView::Execute(_) => !view.executed.contains(slot) && after.executed
                            == view.executed.insert(slot) && after.notified == view.notified,
                        DeliveryView::Notify(_) => view.executed.contains(slot)
                            && !view.notified.contains(slot) && after.notified
                            == view.notified.insert(slot) && after.executed == view.executed,
                    }
                    &&& forall|lower: SlotIndex| #[trigger]
                        view.decisions.dom().contains(lower) && lower.0 < slot.0
                            ==> view.executed.contains(lower) && view.notified.contains(lower)
                    &&& after.decisions == view.decisions && after.replica == view.replica
                },
                None => forall|slot: SlotIndex| #[trigger]
                    view.decisions.dom().contains(slot) && slot.0 <= through
                        ==> view.executed.contains(slot) && view.notified.contains(slot),
            }
        }),
{
    let keys = collections::in_order(view.decisions.dom());
    collections::lemma_in_order_exists(view.decisions.dom());
    lemma_first_open(view, keys);
    match view.next_delivery() {
        Some(delivery) => {
            let k = choose|k: int|
                0 <= k < keys.len() && view.delivery_of(#[trigger] keys[k]) == Some(delivery)
                    && forall|j: int| 0 <= j < k ==> view.delivery_of(#[trigger] keys[j]) is None;
            let slot = keys[k];
            assert(view.decisions.dom().contains(slot));
            assert forall|lower: SlotIndex| #[trigger] view.decisions.dom().contains(lower)
                && lower.0 < slot.0 implies view.executed.contains(lower)
                && view.notified.contains(lower) by {
                assert(keys.contains(lower));
                let j = choose|j: int| 0 <= j < keys.len() && keys[j] == lower;
                if j > k {
                    assert(keys[k].rank() < keys[j].rank());
                }
                assert(view.delivery_of(keys[j]) is None);
            }
        },
        None => {
            assert forall|slot: SlotIndex| #[trigger] view.decisions.dom().contains(slot) && slot.0
                <= view.committed_through().0 implies view.executed.contains(slot)
                && view.notified.contains(slot) by {
                assert(keys.contains(slot));
                let j = choose|j: int| 0 <= j < keys.len() && keys[j] == slot;
                assert(view.delivery_of(keys[j]) is None);
            }
        },
    }
}

proof fn lemma_first_open<V>(view: RuntimeView<V>, slots: Seq<SlotIndex>)
    ensures
        match view.first_delivery(slots) {
            Some(delivery) => exists|k: int|
                0 <= k < slots.len() && view.delivery_of(#[trigger] slots[k]) == Some(delivery)
                    && forall|j: int| 0 <= j < k ==> view.delivery_of(#[trigger] slots[j]) is None,
            None => forall|k: int|
                0 <= k < slots.len() ==> view.delivery_of(#[trigger] slots[k]) is None,
        },
    decreases slots.len(),
{
    if slots.len() > 0 {
        let rest = slots.drop_last();
        lemma_first_open(view, rest);
        assert(slots[slots.len() - 1] == slots.last());
        match view.first_delivery(rest) {
            Some(delivery) => {
                let k = choose|k: int|
                    0 <= k < rest.len() && view.delivery_of(#[trigger] rest[k]) == Some(delivery)
                        && forall|j: int|
                        0 <= j < k ==> view.delivery_of(#[trigger] rest[j]) is None;
                assert(slots[k] == rest[k]);
                assert forall|j: int| 0 <= j < k implies view.delivery_of(
                    #[trigger] slots[j],
                ) is None by {
                    assert(rest[j] == slots[j]);
                }
            },
            None => {
                assert forall|j: int| 0 <= j < rest.len() implies view.delivery_of(
                    #[trigger] slots[j],
                ) is None by {
                    assert(rest[j] == slots[j]);
                }
                if view.first_delivery(slots) is Some {
                    assert(view.delivery_of(slots[slots.len() - 1])
                        == view.first_delivery(slots));
                }
            },
        }
    }
}

/// The committed decisions that no client was told of, each once, in slot order.
pub proof fn clients_are_told_in_slot_order<V>(view: RuntimeView<V>)
    requires
        view.decisions.dom().finite(),
        runtime::keyed(view),
    ensures
        ({
            let list = runtime::undelivered(view);
            &&& forall|i: int, j: int|
                0 <= i < j < list.len() ==> (#[trigger] list[i]).slot.0 < (
                #[trigger] list[j]).slot.0
            &&& forall|slot: SlotIndex| #[trigger]
                view.decisions.dom().contains(slot) ==> (list.contains(view.decisions[slot])
                    <==> slot.0 <= view.committed_through().0 && !view.notified.contains(slot))
            &&& forall|i: int|
                0 <= i < list.len() ==> view.decisions.dom().contains((#[trigger] list[i]).slot)
                    && view.decisions[list[i].slot] == list[i]
        }),
{
    let keys = collections::in_order(view.decisions.dom());
    collections::lemma_in_order_exists(view.decisions.dom());
    lemma_untold(view, keys);
    let list = runtime::undelivered(view);
    assert forall|slot: SlotIndex| #[trigger] view.decisions.dom().contains(slot) implies (
    list.contains(view.decisions[slot]) <==> slot.0 <= view.committed_through().0
        && !view.notified.contains(slot)) by {
        assert(keys.contains(slot));
        assert(view.decisions[slot].slot == slot);
        if list.contains(view.decisions[slot]) {
            let i = choose|i: int| 0 <= i < list.len() && list[i] == view.decisions[slot];
            assert(list[i].slot == slot);
        }
    }
    assert forall|i: int| 0 <= i < list.len() implies view.decisions.dom().contains(
        (#[trigger] list[i]).slot,
    ) && view.decisions[list[i].slot] == list[i] by {
        assert(keys.contains(list[i].slot));
    }
}

proof fn lemma_untold<V>(view: RuntimeView<V>, slots: Seq<SlotIndex>)
    requires
        collections::ascending(slots),
        forall|k: int|
            0 <= k < slots.len() ==> view.decisions[#[trigger] slots[k]].slot == slots[k],
    ensures
        ({
            let list = runtime::untold(view, slots);
            &&& forall|i: int, j: int|
                0 <= i < j < list.len() ==> (#[trigger] list[i]).slot.0 < (
                #[trigger] list[j]).slot.0
            &&& forall|i: int|
                0 <= i < list.len() ==> {
                    let slot = (#[trigger] list[i]).slot;
                    &&& slots.contains(slot) && view.decisions[slot] == list[i]
                    &&& slot.0 <= view.committed_through().0 && !view.notified.contains(slot)
                }
            &&& forall|k: int|
                0 <= k < slots.len() && slots[k].0 <= view.committed_through().0
                    && !view.notified.contains(slots[k]) ==> list.contains(
                    view.decisions[#[trigger] slots[k]],
                )
        }),
    decreases slots.len(),
{
    if slots.len() > 0 {
        let (rest, last) = (slots.drop_last(), slots.last());
        assert(slots[slots.len() - 1] == last);
        assert forall|i: int, j: int| 0 <= i < j < rest.len() implies (#[trigger] rest[i]).rank()
            < (#[trigger] rest[j]).rank() by {
            assert(slots[i].rank() < slots[j].rank());
        }
        assert forall|k: int| 0 <= k < rest.len() implies view.decisions[#[trigger] rest[k]].slot
            == rest[k] by {
            assert(slots[k] == rest[k]);
        }
        lemma_untold(view, rest);
        let (before, list) = (runtime::untold(view, rest), runtime::untold(view, slots));
        assert forall|i: int| 0 <= i < before.len() implies (#[trigger] before[i]).slot.0 < last.0
            && slots.contains(before[i].slot) by {
            assert(rest.contains(before[i].slot));
            let k = choose|k: int| 0 <= k < rest.len() && rest[k] == before[i].slot;
            assert(slots[k].rank() < slots[slots.len() - 1].rank());
            assert(slots[k] == rest[k]);
        }
        let added = list.len() > before.len();
        assert forall|i: int| 0 <= i < list.len() implies {
            let slot = (#[trigger] list[i]).slot;
            &&& slots.contains(slot) && view.decisions[slot] == list[i]
            &&& slot.0 <= view.committed_through().0 && !view.notified.contains(slot)
        } by {
            if i < before.len() {
                assert(before[i] == list[i]);
            } else {
                assert(list[i] == view.decisions[last]);
            }
        }
        assert forall|i: int, j: int| 0 <= i < j < list.len() implies (#[trigger] list[i]).slot.0
            < (#[trigger] list[j]).slot.0 by {
            assert(before[i] == list[i]);
            if j < before.len() {
                assert(before[j] == list[j]);
            } else {
                assert(list[j] == view.decisions[last]);
            }
        }
        assert forall|k: int|
            0 <= k < slots.len() && slots[k].0 <= view.committed_through().0
                && !view.notified.contains(slots[k]) implies list.contains(
            view.decisions[#[trigger] slots[k]],
        ) by {
            if k < rest.len() {
                assert(rest[k] == slots[k]);
                let i = choose|i: int|
                    0 <= i < before.len() && before[i] == view.decisions[rest[k]];
                assert(list[i] == before[i]);
            } else {
                assert(list[before.len() as int] == view.decisions[last]);
            }
        }
    }
}

/// State through a slot may be dropped exactly where the slot is committed, no
/// proposal at or below it is pending, and every member has acknowledged every
/// decision at or below it. What is dropped is just that.
pub proof fn checkpoints_drop_what_all_know<V>(view: RuntimeView<V>, slot: SlotIndex)
    ensures
        view.checkpoint_error(slot) is None <==> {
            &&& slot.0 <= view.committed_through().0
            &&& forall|open: SlotIndex| #[trigger]
                view.pending.dom().contains(open) ==> open.0 > slot.0
            &&& forall|decided: SlotIndex| #[trigger]
                view.decisions.dom().contains(decided) && decided.0 <= slot.0 ==> {
                    &&& view.announced_to.dom().contains(decided)
                    &&& view.announced_to[decided] == view.config.cluster.members.to_set()
                }
        },
        ({
            let after = view.checkpointed(slot);
            &&& forall|other: SlotIndex|
                {
                    &&& #[trigger] after.decisions.dom().contains(other) <==> other.0 > slot.0
                        && view.decisions.dom().contains(other)
                    &&& after.decisions.dom().contains(other) ==> after.decisions[other]
                        == view.decisions[other]
                }
            &&& forall|other: SlotIndex| #[trigger]
                after.executed.contains(other) <==> other.0 > slot.0 && view.executed.contains(
                    other,
                )
            &&& forall|other: SlotIndex| #[trigger]
                after.notified.contains(other) <==> other.0 > slot.0 && view.notified.contains(
                    other,
                )
            &&& forall|other: SlotIndex|
                {
                    &&& #[trigger] after.announced_to.dom().contains(other) <==> other.0 > slot.0
                        && view.announced_to.dom().contains(other)
                    &&& after.announced_to.dom().contains(other) ==> after.announced_to[other]
                        == view.announced_to[other]
                }
            &&& after.pending == view.pending
            &&& after.tuner == view.tuner && after.config == view.config
            &&& after.replica.state.pending == view.replica.state.pending
            &&& after.replica.state.seen_value_ids == view.replica.state.seen_value_ids
            &&& view.replica.state.checkpointed_through.0 <= slot.0
                < view.replica.state.next_commit.0
                ==> after.replica.state.checkpointed_through == slot
            &&& after.replica.state.next_commit == view.replica.state.next_commit
        }),
        view.handover_error(slot) is None <==> {
            &&& view.replica.state.checkpointed_through.0 <= slot.0
            &&& slot.0 <= view.committed_through().0
            &&& forall|open: SlotIndex| #[trigger]
                view.pending.dom().contains(open) ==> open.0 > slot.0
        },
{
    if view.announcement_error(slot) is None {
        assert forall|decided: SlotIndex| #[trigger] view.decisions.dom().contains(decided)
            && decided.0 <= slot.0 implies view.fully_announced(decided) by {}
    }
}

/// How many acknowledgements are missing is told by the decision that has the
/// fewest.
pub proof fn missing_acknowledgements_are_told<V>(view: RuntimeView<V>, through: SlotIndex)
    requires
        view.decisions.dom().finite(),
    ensures
        view.announcement_error(through) matches Some(refusal) ==> {
            &&& refusal matches ErrorView::QuorumNotReached { needed, received } && needed
                == view.config.cluster.members.len() as usize
            &&& forall|slot: SlotIndex| #[trigger]
                view.decisions.dom().contains(slot) && slot.0 <= through.0
                    && view.announced_to.dom().contains(slot) && view.announced_to[slot].len()
                    <= usize::MAX ==> refusal->QuorumNotReached_received <= view.announced_to[slot].len()
            &&& {
                ||| exists|slot: SlotIndex| #[trigger]
                    view.decisions.dom().contains(slot) && slot.0 <= through.0
                        && view.announced_to.dom().contains(slot)
                        && refusal->QuorumNotReached_received == view.announced_to[slot].len() as usize
                ||| {
                    &&& refusal->QuorumNotReached_received == 0
                    &&& forall|slot: SlotIndex| #[trigger]
                        view.decisions.dom().contains(slot) && slot.0 <= through.0
                            ==> !view.announced_to.dom().contains(slot)
                }
            }
        },
{
    let keys = collections::in_order(view.decisions.dom());
    collections::lemma_in_order_exists(view.decisions.dom());
    lemma_fewest(view, keys, through);
    assert forall|slot: SlotIndex| #[trigger] view.decisions.dom().contains(slot) && slot.0
        <= through.0 && view.announced_to.dom().contains(slot) implies view.fewest_told(
        keys,
        through,
    ) matches Some(fewest) && fewest <= view.announced_to[slot].len() by {
        assert(keys.contains(slot));
        let k = choose|k: int| 0 <= k < keys.len() && keys[k] == slot;
        assert(view.announced_to.dom().contains(keys[k]));
    }
    if view.fewest_told(keys, through) is Some {
        let k = choose|k: int|
            0 <= k < keys.len() && keys[k].0 <= through.0 && view.announced_to.dom().contains(
                #[trigger] keys[k],
            ) && view.announced_to[keys[k]].len() == view.fewest_told(keys, through)->0;
        assert(keys.to_set().contains(keys[k]));
        assert(view.decisions.dom().contains(keys[k]));
    }
}

proof fn lemma_fewest<V>(view: RuntimeView<V>, slots: Seq<SlotIndex>, through: SlotIndex)
    ensures
        forall|k: int|
            0 <= k < slots.len() && slots[k].0 <= through.0 && view.announced_to.dom().contains(
                #[trigger] slots[k],
            ) ==> (view.fewest_told(slots, through) matches Some(fewest) && fewest
                <= view.announced_to[slots[k]].len()),
        view.fewest_told(slots, through) matches Some(fewest) ==> exists|k: int|
            0 <= k < slots.len() && slots[k].0 <= through.0 && view.announced_to.dom().contains(
                #[trigger] slots[k],
            ) && view.announced_to[slots[k]].len() == fewest,
    decreases slots.len(),
{
    if slots.len() > 0 {
        let rest = slots.drop_last();
        lemma_fewest(view, rest, through);
        assert(slots[slots.len() - 1] == slots.last());
        if view.fewest_told(rest, through) is Some && view.fewest_told(slots, through)
            == view.fewest_told(rest, through) {
            let k = choose|k: int|
                0 <= k < rest.len() && rest[k].0 <= through.0 && view.announced_to.dom().contains(
                    #[trigger] rest[k],
                ) && view.announced_to[rest[k]].len() == view.fewest_told(rest, through)->0;
            assert(slots[k] == rest[k]);
        }
        assert forall|k: int|
            0 <= k < slots.len() && slots[k].0 <= through.0 && view.announced_to.dom().contains(
                #[trigger] slots[k],
            ) implies (view.fewest_told(slots, through) matches Some(fewest) && fewest
            <= view.announced_to[slots[k]].len()) by {
            if k < rest.len() {
                assert(rest[k] == slots[k]);
            }
        }
    }
}

/// A schedule is installed exactly where it lists every member once, schedules are
/// not derived, and the epoch has no other one; then the epoch has it.
pub proof fn schedules_are_installed_once<V>(view: RuntimeView<V>, schedule: ScheduleView)
    ensures
        ({
            let (after, installed) = view.install_schedule(schedule);
            let (kept, epoch) = (view.tuner.schedules, schedule.epoch);
            &&& installed is Ok <==> {
                &&& schedule.proposers.no_duplicates()
                &&& schedule.proposers.to_set() == view.config.cluster.members.to_set()
                &&& !view.tuner.auto
                &&& kept.dom().contains(epoch) ==> kept[epoch] == schedule
            }
            &&& installed matches Ok(new) ==> new == !kept.dom().contains(epoch)
                && after.tuner.schedules == kept.insert(epoch, schedule)
            &&& installed is Err ==> after == view
            &&& after.decisions == view.decisions && after.pending == view.pending
                && after.replica == view.replica
        }),
{
    let (after, installed) = view.install_schedule(schedule);
    let kept = view.tuner.schedules;
    if installed is Ok && kept.dom().contains(schedule.epoch) {
        assert(kept.insert(schedule.epoch, schedule) =~= kept);
    }
}

/// A membership can be taken up exactly where its command is in the anchor, and it
/// is in force already or follows the present one with the pipeline drained at the
/// anchor: the anchor is the last committed decision, nothing is pending, and the
/// log holds nothing later.
pub proof fn memberships_wait_for_a_drained_pipeline<V>(
    view: RuntimeView<V>,
    change: MembershipChangeView<V>,
)
    ensures
        ({
            let anchor = change.anchor;
            let now = view.config.cluster;
            let drained = {
                &&& view.committed_through() == anchor.slot
                &&& view.decisions.dom().contains(anchor.slot)
                &&& view.decisions[anchor.slot] == anchor
                &&& forall|slot: SlotIndex| !#[trigger] view.pending.dom().contains(slot)
                &&& forall|slot: SlotIndex| #[trigger]
                    view.replica.state.log.dom().contains(slot) ==> slot.0 <= anchor.slot.0
            };
            let bound = anchor.value_ids.contains(change.command_id);
            &&& view.plan_membership(change) == Ok::<bool, ErrorView>(true) <==> bound
                && change.next == now
            &&& view.plan_membership(change) == Ok::<bool, ErrorView>(false) <==> bound
                && change.next != now && change.next.follows(now) && drained
        }),
        ({
            let after = view.with_membership(change.next, change.anchor.slot);
            &&& after.config.cluster == change.next
            &&& after.tuner.members == change.next.members
            &&& after.tuner.schedules.dom() == Set::<u64>::empty()
            &&& after.tuner.stats.dom() == Set::<u64>::empty()
            &&& after.tuner.stats_through == change.anchor.slot
            &&& after.decisions == view.decisions && after.replica == view.replica
            &&& after.executed == view.executed && after.notified == view.notified
            &&& forall|slot: SlotIndex, member: ReplicaId| #[trigger]
                after.is_announced(slot, member) <==> view.is_announced(slot, member)
                    && change.next.members.contains(member)
        }),
{
    assert((forall|slot: SlotIndex| !#[trigger] view.pending.dom().contains(slot)) <==> view.pending.dom()
        =~= Set::<SlotIndex>::empty());
}

/// A transfer that is taken up brings the sender's state: its decisions, what was
/// executed and told, its schedules and statistics, its log and queue, and its
/// proposals, which get deadlines anew. It ends at the sender's pruning floor and
/// is of the receiver's configuration.
pub proof fn transfers_bring_the_senders_state<V>(view: RuntimeView<V>, transfer: TransferView<V>)
    requires
        view.install_transfer(transfer) is Ok,
    ensures
        ({
            let after = view.install_transfer(transfer)->Ok_0;
            let sent = transfer.runtime;
            &&& transfer.through == sent.replica.checkpointed_through
            &&& sent.cluster == view.config.cluster
            &&& after.config == view.config
            &&& after.decisions == sent.decisions
            &&& after.executed == sent.executed && after.notified == sent.notified
            &&& after.announced_to == sent.announced_to
            &&& after.replica.state == sent.replica
            &&& after.replica.config == view.config.replica
            &&& after.tuner.schedules == sent.schedules
            &&& after.tuner.stats == sent.epoch_stats
            &&& after.tuner.stats_through == sent.stats_through
            &&& after.tuner.members == view.config.cluster.members
            &&& after.pending.dom() == sent.pending.dom()
            &&& forall|slot: SlotIndex| #[trigger]
                sent.pending.dom().contains(slot) ==> after.pending[slot].value_ids
                    == sent.pending[slot] && after.pending[slot].ready_at is None
            &&& after.noop_value == view.noop_value
            &&& after.hedge == view.hedge
        }),
{
    let after = view.install_transfer(transfer)->Ok_0;
    assert(after.pending.dom() =~= transfer.runtime.pending.dom());
}

/// An acknowledgement is remembered of that member and slot, and no other.
pub proof fn acknowledgements_are_remembered<V>(
    view: RuntimeView<V>,
    slot: SlotIndex,
    member: ReplicaId,
)
    ensures
        ({
            let after = view.announced(slot, member);
            &&& forall|other: SlotIndex, id: ReplicaId| #[trigger]
                after.is_announced(other, id) <==> view.is_announced(other, id) || (other == slot
                    && id == member)
            &&& after.decisions == view.decisions && after.pending == view.pending
        }),
{
}

/// Arming the pipeline fails only where a proposal is refused along the way. It
/// ends where there is none, and goes on behind each that there is.
pub proof fn arming_fails_with_a_proposal<V>(view: RuntimeView<V>)
    ensures
        ({
            let (replica, next) = view.replica.next_proposal();
            let armed = view.arm_pipeline().1;
            match next {
                Err(refusal) => armed == Err::<bool, ErrorView>(refusal),
                Ok(None) => armed == Ok::<bool, ErrorView>(false),
                Ok(Some((slot, values))) => {
                    let taken = view.take_proposal().0;
                    &&& armed is Ok ==> armed == Ok::<bool, ErrorView>(true)
                    &&& armed is Ok <==> taken.arm_pipeline().1 is Ok
                    &&& view.arm_pipeline().0 == taken.arm_pipeline().0
                },
            }
        }),
{
}

/// Taking up one proposal makes it pending, without a deadline, with the values
/// that the replica notes for its slot.
pub proof fn taken_proposals_are_pending<V>(view: RuntimeView<V>, other: SlotIndex)
    ensures
        ({
            let (after, taken) = view.take_proposal();
            &&& taken == view.replica.next_proposal().1
            &&& taken matches Ok(Some((slot, values))) ==> {
                &&& after.pending.dom().contains(slot)
                &&& after.pending[slot].value_ids == values
                &&& after.pending[slot].ready_at is None
                &&& after.pending[slot].last_observed_step is None
                &&& after.replica.state.entry(slot).proposed == values
                &&& other != slot ==> after.pending.dom().contains(other)
                    == view.pending.dom().contains(other)
                &&& other != slot && view.pending.dom().contains(other) ==> after.pending[other]
                    == view.pending[other]
            }
            &&& !(taken matches Ok(Some(_))) ==> after.pending == view.pending
            &&& after.decisions == view.decisions && after.tuner == view.tuner
        }),
{
}

/// Everything that can be proposed is taken up: first what is queued, then the
/// no-op for a gap. The answer tells whether there was anything.
pub proof fn arming_takes_both<V>(view: RuntimeView<V>)
    ensures
        ({
            let (after, armed) = view.arm();
            let queued = view.arm_pipeline();
            let filled = queued.0.arm_gap();
            &&& armed is Ok <==> queued.1 is Ok && filled.1 is Ok
            &&& armed matches Ok(any) ==> any == (queued.1->Ok_0 || filled.1->Ok_0) && after
                == filled.0
            &&& after.decisions == view.decisions
        }),
{
    lemma_arming_keeps_decisions(view);
}

proof fn lemma_arming_keeps_decisions<V>(view: RuntimeView<V>)
    ensures
        view.arm_pipeline().0.decisions == view.decisions,
    decreases view.replica.state.pending.len(),
{
    if view.replica.next_proposal().1 matches Ok(Some(_)) {
        let taken = view.take_proposal().0;
        lemma_arming_keeps_decisions(taken);
    }
}

/// Once the committed decisions were counted, the statistics of a runtime that
/// derives its schedules reach as far as any of them.
pub proof fn committed_slots_are_counted<V>(view: RuntimeView<V>, slot: SlotIndex)
    requires
        view.decisions.dom().finite(),
        runtime::keyed(view),
        view.tuner.auto,
        view.note_committed().1 is Ok,
        view.decisions.dom().contains(slot),
        slot.0 <= view.committed_through().0,
    ensures
        view.note_committed().0.tuner.stats_through.0 >= slot.0,
{
    let slots = collections::in_order(view.decisions.dom());
    collections::lemma_in_order_exists(view.decisions.dom());
    assert(slots.to_set().contains(slot));
    let k = choose|k: int| 0 <= k < slots.len() && slots[k] == slot;
    lemma_counted_through(view, slots, k);
}

proof fn lemma_counted_through<V>(view: RuntimeView<V>, slots: Seq<SlotIndex>, k: int)
    requires
        view.tuner.auto,
        view.note_slots(slots).1 is Ok,
        0 <= k < slots.len(),
        slots[k].0 <= view.committed_through().0,
        view.decisions[slots[k]].slot == slots[k],
    ensures
        view.note_slots(slots).0.tuner.stats_through.0 >= slots[k].0,
        view.note_slots(slots).0.tuner.auto,
    decreases slots.len(),
{
    let rest = slots.drop_last();
    lemma_counting_goes_on(view, rest);
    lemma_counting_goes_on(view, slots);
    if k < rest.len() {
        assert(rest[k] == slots[k]);
        lemma_counted_through(view, rest, k);
    } else {
        assert(slots[k] == slots.last());
    }
}

proof fn lemma_counting_goes_on<V>(view: RuntimeView<V>, slots: Seq<SlotIndex>)
    ensures
        view.note_slots(slots).0.tuner.auto == view.tuner.auto,
        view.note_slots(slots).0.tuner.stats_through.0 >= view.tuner.stats_through.0,
        slots.len() > 0 && view.note_slots(slots).1 is Ok ==> view.note_slots(
            slots,
        ).0.tuner.stats_through.0 >= view.note_slots(slots.drop_last()).0.tuner.stats_through.0,
    decreases slots.len(),
{
    if slots.len() > 0 {
        lemma_counting_goes_on(view, slots.drop_last());
    }
}

} // verus!
