//! What holds of a networked node across its operations.

use crate::cluster::MembershipChangeView;
use crate::collections;
use crate::error::ErrorView;
use crate::key::Key;
use crate::network::node_runtime;
use crate::network::node_runtime::{NodeView, StepView};
use crate::replica_laws;
use crate::runtime;
use crate::runtime_course;
use crate::runtime_laws;
use crate::runtime_state;
use crate::runtime_state::{RuntimeView, TransferView};
use crate::schedule::{RuntimeConfigView, ScheduleView};
use crate::span::Span;
use crate::types::{DecisionView, ReplicaId, SlotIndex, Step};
use vstd::prelude::*;

verus! {

/// The log holds what is pending.
pub open spec fn pending_is_logged<V>(node: NodeView<V>) -> bool {
    forall|slot: SlotIndex| #[trigger]
        node.core.pending.dom().contains(slot) ==> node.core.replica.state.entry(slot).proposed
            == node.core.pending[slot].value_ids
}

/// What a restart from the node's own snapshot needs. Schedules are of the
/// members here: one of other replicas can put a leader into the statistics that
/// no restart accepts.
pub open spec fn resumable<V>(node: NodeView<V>) -> bool {
    &&& runtime_laws::resumable(node.core)
    &&& pending_is_logged(node)
}

/// The node that a restart makes of a snapshot: clocks start over, and what was
/// executed counts as told.
pub open spec fn restarted<V>(node: NodeView<V>) -> NodeView<V> {
    NodeView::around(
        RuntimeView {
            notified: node.core.executed,
            announced_to: Map::empty(),
            ..runtime_laws::restarted(node.core)
        },
    )
}

/// A resumable node restarts from its own snapshot with nothing lost but
/// clocks, and is resumable again.
pub proof fn snapshots_restart<V>(node: NodeView<V>)
    requires
        resumable(node),
    ensures
        NodeView::restored(node.core.config, node.snapshot()) == Ok::<NodeView<V>, ErrorView>(
            restarted(node),
        ),
        resumable(restarted(node)),
{
    let kept = node_runtime::node_snapshot(node.snapshot());
    assert(kept =~= node.snapshot());
    let made = restarted(node);
    let resumed = RuntimeView::resumed(node.core.config, kept);
    runtime_laws::snapshots_restart(node.core);
    assert(resumed.pending =~= made.core.pending);
    assert(resumed.tuner =~= node.core.tuner);
    assert(resumed =~= made.core);
    assert(NodeView::around(resumed) =~= made);
    assert(made.core.pending.dom() =~= node.core.pending.dom());
    assert forall|slot: SlotIndex| #[trigger] made.core.decisions.dom().contains(
        slot,
    ) implies made.decision_error(slot) is None && runtime_laws::decision_fits(
        made.core,
        slot,
    ) by {
        assert(runtime_laws::decision_fits(node.core, slot));
    }
    runtime_laws::lemma_all_fit(
        made.core.decisions.dom(),
        |slot: SlotIndex| made.decision_error(slot),
    );
    assert forall|slot: SlotIndex| #[trigger] made.core.pending.dom().contains(
        slot,
    ) implies made.pending_error(slot) is None && runtime_laws::pending_is_open(
        made.core,
        slot,
    ) by {
        assert(runtime_laws::pending_is_open(node.core, slot));
        assert(node.core.replica.state.entry(slot).proposed == node.core.pending[slot].value_ids);
    }
    runtime_laws::lemma_all_fit(
        made.core.pending.dom(),
        |slot: SlotIndex| made.pending_error(slot),
    );
    assert forall|epoch: u64| #[trigger]
        made.core.tuner.schedules.dom().contains(epoch) implies made.core.schedule_fits(epoch) by {
        assert(node.core.schedule_fits(epoch));
    }
    crate::runtime_state::lemma_ready_is_led(made.core);
    assert(runtime_laws::resumable(made.core));
    assert(pending_is_logged(made));
}

/// A node that starts with nothing is resumable.
pub proof fn fresh_nodes_are_resumable<V>(config: RuntimeConfigView)
    requires
        config.epoch_size > 0,
        config.cluster.valid(),
    ensures
        resumable(NodeView::<V>::around(RuntimeView::fresh(config))),
{
    runtime_laws::fresh_runtimes_are_resumable::<V>(config);
}

/// Queueing a submission keeps a node resumable.
pub proof fn submissions_keep_resumable<V>(node: NodeView<V>, values: Seq<V>)
    requires
        resumable(node),
    ensures
        resumable(node.enqueue(values).0),
{
    runtime_laws::submissions_keep_resumable(node.core, values);
    let after = node.enqueue(values).0;
    assert(after.core.replica.state.log == node.core.replica.state.log);
    assert(pending_is_logged(after));
}

/// What a submission does next keeps a node resumable.
pub proof fn steps_keep_resumable<V>(node: NodeView<V>, values: Seq<V>)
    requires
        resumable(node),
    ensures
        resumable(node.advance(values).0),
{
    runtime_laws::proposals_keep_resumable(node.core);
    replica_laws::proposals_take_open_slots(node.core.replica);
    let after = node.advance(values).0;
    assert forall|slot: SlotIndex| #[trigger] after.core.pending.dom().contains(
        slot,
    ) implies after.core.replica.state.entry(slot).proposed == after.core.pending[slot].value_ids by {
        if node.core.pending.dom().contains(slot) {
            assert(node.core.replica.state.entry(slot).proposed
                == node.core.pending[slot].value_ids);
            assert(runtime_laws::pending_is_open(node.core, slot));
        }
    }
}

/// Filling a gap keeps a node resumable.
pub proof fn gaps_keep_resumable<V>(node: NodeView<V>, now: Span)
    requires
        resumable(node),
    ensures
        resumable(node.arm_gap(now).0),
{
    runtime_laws::arming_keeps_resumable(node.core);
    let after = node.arm_gap(now).0;
    assert(after.core == node.core.arm_gap().0);
    assert forall|slot: SlotIndex| #[trigger] after.core.pending.dom().contains(
        slot,
    ) implies after.core.replica.state.entry(slot).proposed == after.core.pending[slot].value_ids by {
        if node.core.pending.dom().contains(slot) {
            assert(node.core.replica.state.entry(slot).proposed
                == node.core.pending[slot].value_ids);
        }
    }
}

/// Taking in a decision that a member can have made, for a slot after the
/// checkpoint, keeps a node resumable.
pub proof fn decisions_keep_resumable<V>(node: NodeView<V>, decision: DecisionView<V>, now: Span)
    requires
        resumable(node),
        node.core.decision_error(decision) is None,
        decision.slot.0 > node.core.replica.state.checkpointed_through.0,
        node.learn(decision, now).1 != Err::<bool, ErrorView>(ErrorView::SlotOverflow),
    ensures
        resumable(node.learn(decision, now).0),
{
    if node.core.decisions.dom().contains(decision.slot) {
        gaps_keep_resumable(node, now);
    } else {
        let (core, adopted) = node.core.adopt(decision);
        if adopted is Ok {
            let stored = NodeView {
                core,
                armed_at: node.armed_at.remove(decision.slot),
                observed: node.observed.remove(decision.slot),
            };
            runtime_laws::lemma_stored(node.core, core, decision);
            assert forall|slot: SlotIndex| #[trigger] stored.core.pending.dom().contains(
                slot,
            ) implies stored.core.replica.state.entry(slot).proposed
                == stored.core.pending[slot].value_ids by {
                assert(node.core.pending.dom().contains(slot));
                assert(node.core.replica.state.entry(slot).proposed
                    == node.core.pending[slot].value_ids);
                replica_laws::decisions_touch_their_own_slot(node.core.replica, decision, slot);
                assert(runtime_laws::pending_is_open(core, slot));
            }
            gaps_keep_resumable(stored, now);
            let (armed, filled) = stored.arm_gap(now);
            if filled is Ok {
                runtime_laws::notes_keep_resumable(armed.core);
                let noted = armed.core.note_committed().0;
                if armed.core.note_committed().1 is Ok {
                    let after = NodeView { core: noted, ..armed };
                    assert(pending_is_logged(after)) by {
                        assert(pending_is_logged(armed));
                    }
                }
            }
        } else {
            replica_laws::apply_decision_keeps_consistency(node.core.replica, decision);
            if node.core.replica.decision_error(decision) is None {
                replica_laws::commit_refusals_are_overflows(node.core.replica, decision);
            }
        }
    }
}

/// What was decided stays decided: a decision is never replaced, and one with
/// other values for the same slot is refused as conflicting.
pub proof fn decisions_are_kept<V>(
    node: NodeView<V>,
    decision: DecisionView<V>,
    now: Span,
    slot: SlotIndex,
)
    requires
        runtime_laws::resumable(node.core),
        node.core.decisions.dom().contains(slot),
    ensures
        decision.slot == slot && decision.value_ids != node.core.decisions[slot].value_ids
            ==> node.learn(decision, now) == (
            node,
            Err::<bool, ErrorView>(ErrorView::ConflictingDecision { slot }),
        ),
        node.learn(decision, now).0.core.decisions.dom().contains(slot),
        node.learn(decision, now).0.core.decisions[slot] == node.core.decisions[slot],
{
    let (core, adopted) = node.core.adopt(decision);
    let stored = NodeView {
        core,
        armed_at: node.armed_at.remove(decision.slot),
        observed: node.observed.remove(decision.slot),
    };
    let armed = stored.arm_gap(now).0;
    runtime_laws::lemma_notes_keep_decisions(
        armed.core,
        collections::in_order(armed.core.decisions.dom()),
    );
}

/// Executing committed decisions in order executes them all, and nothing that
/// is not committed.
pub proof fn committed_decisions_are_executed<V>(
    node: NodeView<V>,
    slots: Seq<SlotIndex>,
    slot: SlotIndex,
)
    ensures
        slots.contains(slot) && slot.0 <= node.core.committed_through().0
            ==> node.executed_through(slots).core.executed.contains(
            node.core.decisions[slot].slot,
        ),
        node.core.executed.subset_of(node.executed_through(slots).core.executed),
        forall|other: SlotIndex| #[trigger]
            node.executed_through(slots).core.executed.contains(other)
                ==> node.core.executed.contains(other) || executed_of(node, slots, other),
    decreases slots.len(),
{
    if slots.len() > 0 {
        let rest = slots.drop_last();
        committed_decisions_are_executed(node, rest, slot);
        let before = node.executed_through(rest);
        let after = node.executed_through(slots);
        if slots.contains(slot) && slot != slots.last() {
            let k = choose|k: int| 0 <= k < slots.len() && slots[k] == slot;
            assert(rest[k] == slot);
            assert(rest.contains(slot));
        }
        assert forall|other: SlotIndex| #[trigger] after.core.executed.contains(
            other,
        ) implies node.core.executed.contains(other) || executed_of(node, slots, other) by {
            if before.core.executed.contains(other) {
                if !node.core.executed.contains(other) {
                    let from = choose|from: SlotIndex| #[trigger]
                        rest.contains(from) && from.0 <= node.core.committed_through().0
                            && node.core.decisions[from].slot == other;
                    let k = choose|k: int| 0 <= k < rest.len() && rest[k] == from;
                    assert(slots[k] == from);
                    assert(slots.contains(from));
                }
            } else {
                let last = slots.last();
                assert(slots[slots.len() - 1] == last);
                assert(slots.contains(last));
                assert(node.core.decisions[last].slot == other);
            }
        }
    }
}

/// A committed decision of the slots is for this slot.
pub open spec fn executed_of<V>(node: NodeView<V>, slots: Seq<SlotIndex>, slot: SlotIndex) -> bool {
    exists|from: SlotIndex| #[trigger]
        slots.contains(from) && from.0 <= node.core.committed_through().0
            && node.core.decisions[from].slot == slot
}

/// Dropping what a checkpoint covers keeps a node resumable.
pub proof fn checkpoints_keep_resumable<V>(node: NodeView<V>, slot: SlotIndex)
    requires
        resumable(node),
    ensures
        resumable(node.checkpointed(slot)),
{
    runtime_laws::checkpoints_keep_resumable(node.core, slot);
    replica_laws::prune_keeps_what_is_needed(node.core.replica, slot);
    let after = node.checkpointed(slot);
    assert forall|other: SlotIndex| #[trigger] after.core.pending.dom().contains(
        other,
    ) implies after.core.replica.state.entry(other).proposed
        == after.core.pending[other].value_ids by {
        assert(node.core.pending.dom().contains(other));
        assert(runtime_laws::pending_is_open(node.core, other));
        assert(node.core.replica.state.entry(other).proposed
            == node.core.pending[other].value_ids);
        assert(after.core.replica.state.log.dom().contains(other));
    }
}

/// A submission is answered only by a decision that carries all its values.
pub proof fn answers_carry_the_values<V>(node: NodeView<V>, values: Seq<V>)
    ensures
        node.answer(values) matches Some(decision) ==> node_runtime::carries(
            decision.value_ids,
            values,
        ),
{
    lemma_answers_carry(
        node.core.decisions,
        collections::in_order(node.core.decisions.dom()),
        values,
    );
}

proof fn lemma_answers_carry<V>(
    decisions: Map<SlotIndex, DecisionView<V>>,
    slots: Seq<SlotIndex>,
    values: Seq<V>,
)
    ensures
        node_runtime::decision_with(decisions, slots, values) matches Some(decision)
            ==> node_runtime::carries(decision.value_ids, values),
    decreases slots.len(),
{
    if slots.len() > 0 {
        lemma_answers_carry(decisions, slots.drop_last(), values);
    }
}

/// The first decision, in slot order, that has all values; none exactly where
/// every decision lacks one of them.
proof fn lemma_first_decision_with<V>(
    decisions: Map<SlotIndex, DecisionView<V>>,
    slots: Seq<SlotIndex>,
    values: Seq<V>,
)
    requires
        collections::ascending(slots),
    ensures
        match node_runtime::decision_with(decisions, slots, values) {
            Some(decision) => {
                &&& forall|i: int|
                    0 <= i < values.len() ==> decision.value_ids.contains(#[trigger] values[i])
                &&& exists|k: int|
                    0 <= k < slots.len() && decisions[#[trigger] slots[k]] == decision && forall|
                        j: int,
                    |
                        0 <= j < k ==> lacks_one(decisions[#[trigger] slots[j]].value_ids, values)
            },
            None => forall|k: int|
                0 <= k < slots.len() ==> lacks_one(decisions[#[trigger] slots[k]].value_ids, values),
        },
    decreases slots.len(),
{
    if slots.len() > 0 {
        let (rest, last) = (slots.drop_last(), slots.last());
        assert(slots[slots.len() - 1] == last);
        lemma_ascending_rest(slots);
        lemma_first_decision_with(decisions, rest, values);
        let list = decisions[last].value_ids;
        match node_runtime::decision_with(decisions, rest, values) {
            Some(decision) => {
                let k = choose|k: int|
                    0 <= k < rest.len() && decisions[#[trigger] rest[k]] == decision && forall|
                        j: int,
                    |
                        0 <= j < k ==> lacks_one(decisions[#[trigger] rest[j]].value_ids, values);
                assert(slots[k] == rest[k]);
                assert forall|j: int| 0 <= j < k implies lacks_one(
                    decisions[#[trigger] slots[j]].value_ids,
                    values,
                ) by {
                    assert(rest[j] == slots[j]);
                }
            },
            None => {
                assert forall|j: int| 0 <= j < rest.len() implies lacks_one(
                    decisions[#[trigger] slots[j]].value_ids,
                    values,
                ) by {
                    assert(rest[j] == slots[j]);
                }
                if node_runtime::decision_with(decisions, slots, values) is None {
                    assert(lacks_one(list, values));
                } else {
                    assert(decisions[slots[slots.len() - 1]] == decisions[last]);
                }
            },
        }
    }
}

proof fn lemma_ascending_rest(slots: Seq<SlotIndex>)
    requires
        collections::ascending(slots),
        slots.len() > 0,
    ensures
        collections::ascending(slots.drop_last()),
{
    let rest = slots.drop_last();
    assert forall|i: int, j: int| 0 <= i < j < rest.len() implies (#[trigger] rest[i]).rank() < (
    #[trigger] rest[j]).rank() by {
        assert(slots[i].rank() < slots[j].rank());
    }
}

/// Whether a list lacks one of the values.
pub open spec fn lacks_one<V>(list: Seq<V>, values: Seq<V>) -> bool {
    exists|i: int| 0 <= i < values.len() && !list.contains(#[trigger] values[i])
}

/// Whether every decision lacks one of the values.
pub open spec fn undecided<V>(node: NodeView<V>, values: Seq<V>) -> bool {
    forall|slot: SlotIndex| #[trigger]
        node.core.decisions.dom().contains(slot) ==> lacks_one(
            node.core.decisions[slot].value_ids,
            values,
        )
}

/// Whether every pending proposal lacks one of the values.
pub open spec fn uncarried<V>(node: NodeView<V>, values: Seq<V>) -> bool {
    forall|slot: SlotIndex| #[trigger]
        node.core.pending.dom().contains(slot) ==> lacks_one(
            node.core.pending[slot].value_ids,
            values,
        )
}

/// The pending slot that has all values; none exactly where every pending
/// proposal lacks one of them.
proof fn lemma_carrier<V>(node: NodeView<V>, slots: Seq<SlotIndex>, values: Seq<V>)
    ensures
        match node.carrier(slots, values) {
            Some(slot) => {
                &&& slots.contains(slot)
                &&& forall|i: int|
                    0 <= i < values.len() ==> node.core.pending[slot].value_ids.contains(
                        #[trigger] values[i],
                    )
            },
            None => forall|k: int|
                0 <= k < slots.len() ==> lacks_one(
                    node.core.pending[#[trigger] slots[k]].value_ids,
                    values,
                ),
        },
    decreases slots.len(),
{
    if slots.len() > 0 {
        let (rest, last) = (slots.drop_last(), slots.last());
        assert(slots[slots.len() - 1] == last);
        lemma_carrier(node, rest, values);
        match node.carrier(rest, values) {
            Some(slot) => {
                let k = choose|k: int| 0 <= k < rest.len() && rest[k] == slot;
                assert(slots[k] == slot);
            },
            None => {
                assert forall|k: int| 0 <= k < rest.len() implies lacks_one(
                    node.core.pending[#[trigger] slots[k]].value_ids,
                    values,
                ) by {
                    assert(rest[k] == slots[k]);
                }
                if node.carrier(slots, values) is None {
                    assert(lacks_one(node.core.pending[last].value_ids, values));
                }
            },
        }
    }
}

/// What a submission does next. It is answered with a decision of a slot that has
/// every one of its values, the first such slot's, and always where there is one.
/// Otherwise a pending slot is driven that has every one of them; and only where
/// there is none, the oldest queued values are taken up for a slot that nothing
/// claims, or it waits.
pub proof fn submissions_are_answered_in_full<V>(node: NodeView<V>, values: Seq<V>)
    requires
        node.core.decisions.dom().finite(),
        node.core.pending.dom().finite(),
    ensures
        ({
            let (after, step) = node.advance(values);
            let decisions = node.core.decisions;
            match step {
                Ok(StepView::Committed(decision)) => {
                    &&& after == node
                    &&& forall|i: int|
                        0 <= i < values.len() ==> decision.value_ids.contains(#[trigger] values[i])
                    &&& exists|slot: SlotIndex| #[trigger]
                        decisions.dom().contains(slot) && decisions[slot] == decision && forall|
                            lower: SlotIndex,
                        | #[trigger]
                            decisions.dom().contains(lower) && lower.0 < slot.0 ==> lacks_one(
                                decisions[lower].value_ids,
                                values,
                            )
                },
                Ok(StepView::Drive { slot, value_ids }) => {
                    &&& undecided(node, values)
                    &&& after.core.pending.dom().contains(slot)
                    &&& after.core.pending[slot].value_ids == value_ids
                    &&& if uncarried(node, values) {
                        &&& value_ids + after.core.replica.state.pending
                            == node.core.replica.state.pending
                        &&& value_ids.len() > 0
                        &&& node.core.replica.state.entry(slot).decision is None
                        &&& node.core.replica.state.entry(slot).proposed.len() == 0
                        &&& after.core.decisions == decisions
                    } else {
                        &&& after == node
                        &&& forall|i: int|
                            0 <= i < values.len() ==> value_ids.contains(#[trigger] values[i])
                    }
                },
                Ok(StepView::Wait) => {
                    &&& after == node
                    &&& undecided(node, values) && uncarried(node, values)
                    &&& node.core.replica.state.pending.len() == 0
                        || node.core.replica.state.inflight_count()
                        >= node.core.replica.config.pipeline_len
                },
                Err(refusal) => {
                    &&& undecided(node, values) && uncarried(node, values)
                    &&& node.core.replica.next_proposal().1 matches Err(found) && found == refusal
                },
            }
        }),
{
    let decisions = node.core.decisions;
    let pending = node.core.pending;
    let decided_slots = collections::in_order(decisions.dom());
    let pending_slots = collections::in_order(pending.dom());
    collections::lemma_in_order_exists(decisions.dom());
    collections::lemma_in_order_exists(pending.dom());
    lemma_first_decision_with(decisions, decided_slots, values);
    lemma_carrier(node, pending_slots, values);
    replica_laws::proposals_take_the_front(node.core.replica);
    match node.answer(values) {
        Some(decision) => {
            let k = choose|k: int|
                0 <= k < decided_slots.len() && decisions[#[trigger] decided_slots[k]] == decision
                    && forall|j: int|
                    0 <= j < k ==> lacks_one(
                        decisions[#[trigger] decided_slots[j]].value_ids,
                        values,
                    );
            let slot = decided_slots[k];
            assert(decisions.dom().contains(slot));
            assert forall|lower: SlotIndex| #[trigger] decisions.dom().contains(lower) && lower.0
                < slot.0 implies lacks_one(decisions[lower].value_ids, values) by {
                assert(decided_slots.contains(lower));
                let j = choose|j: int| 0 <= j < decided_slots.len() && decided_slots[j] == lower;
                if j > k {
                    assert(decided_slots[k].rank() < decided_slots[j].rank());
                }
            }
        },
        None => {
            assert forall|slot: SlotIndex| #[trigger] decisions.dom().contains(
                slot,
            ) implies lacks_one(decisions[slot].value_ids, values) by {
                assert(decided_slots.contains(slot));
                let j = choose|j: int| 0 <= j < decided_slots.len() && decided_slots[j] == slot;
                assert(lacks_one(decisions[decided_slots[j]].value_ids, values));
            }
            assert(undecided(node, values));
            if node.carrier(pending_slots, values) is None {
                assert forall|slot: SlotIndex| #[trigger] pending.dom().contains(
                    slot,
                ) implies lacks_one(pending[slot].value_ids, values) by {
                    assert(pending_slots.contains(slot));
                    let j = choose|j: int|
                        0 <= j < pending_slots.len() && pending_slots[j] == slot;
                    assert(lacks_one(pending[pending_slots[j]].value_ids, values));
                }
                assert(uncarried(node, values));
                if node.core.take_proposal().1 == Ok::<
                    Option<(SlotIndex, Seq<V>)>,
                    ErrorView,
                >(None) {
                    assert(node.advance(values).0 =~= node);
                }
            } else {
                let slot = node.carrier(pending_slots, values)->0;
                assert(pending.dom().contains(slot));
                assert(!lacks_one(pending[slot].value_ids, values));
                assert(!uncarried(node, values));
            }
        },
    }
}

/// Learning a decision. One that contradicts what is decided is refused and
/// changes nothing. A new one is decided from then on, no longer pending, and the
/// node forgets when the slot was armed and what it saw of it; other decisions
/// stay. The answer tells whether it was new.
pub proof fn learned_decisions_are_decided<V>(
    node: NodeView<V>,
    decision: DecisionView<V>,
    now: Span,
)
    ensures
        ({
            let (after, learned) = node.learn(decision, now);
            let slot = decision.slot;
            let known = node.core.decisions.dom().contains(slot);
            &&& known && node.core.decisions[slot].value_ids != decision.value_ids ==> learned
                == Err::<bool, ErrorView>(ErrorView::ConflictingDecision { slot }) && after == node
            &&& learned matches Ok(new) ==> {
                &&& new == !known
                &&& after.core.decisions == if known {
                    node.core.decisions
                } else {
                    node.core.decisions.insert(slot, decision)
                }
                &&& !known ==> {
                    &&& !after.core.pending.dom().contains(slot)
                    &&& !after.armed_at.dom().contains(slot)
                    &&& node.core.replica.apply_decision(decision).1 is Ok
                    &&& !after.observed.dom().contains(slot)
                }
                &&& after.core.executed == node.core.executed
                &&& after.core.config == node.core.config
            }
        }),
{
    let slot = decision.slot;
    if !node.core.decisions.dom().contains(slot) {
        let (core, adopted) = node.core.adopt(decision);
        if adopted is Ok {
            let stored = NodeView {
                core,
                armed_at: node.armed_at.remove(slot),
                observed: node.observed.remove(slot),
            };
            let armed = stored.arm_gap(now).0;
            runtime_laws::lemma_notes_keep_decisions(
                armed.core,
                collections::in_order(armed.core.decisions.dom()),
            );
            lemma_notes_keep_the_rest(
                armed.core,
                collections::in_order(armed.core.decisions.dom()),
            );
        }
    }
}

proof fn lemma_notes_keep_the_rest<V>(view: RuntimeView<V>, slots: Seq<SlotIndex>)
    ensures
        view.note_slots(slots).0 == (RuntimeView { tuner: view.note_slots(slots).0.tuner, ..view }),
    decreases slots.len(),
{
    if slots.len() > 0 {
        lemma_notes_keep_the_rest(view, slots.drop_last());
    }
}

/// A submission is queued exactly where it is no larger than a batch, repeats no
/// value, and the queue takes it.
pub proof fn submissions_fit_a_batch<V>(node: NodeView<V>, values: Seq<V>)
    ensures
        ({
            let (after, queued) = node.enqueue(values);
            let fits = values.len() <= node.core.config.replica.batch_size
                && values.no_duplicates();
            &&& queued is Ok <==> fits && node.core.replica.enqueue(values).1 is Ok
            &&& !fits ==> after == node
            &&& fits ==> after.core.replica == node.core.replica.enqueue(values).0
            &&& after.core.decisions == node.core.decisions
            &&& after.core.pending == node.core.pending
            &&& after.armed_at == node.armed_at && after.observed == node.observed
        }),
{
}

/// A proposal of a pending slot is put off exactly where the recorders report a
/// step, and one that is higher than any seen before; that step is remembered.
pub proof fn nodes_defer_to_progress<V>(node: NodeView<V>, slot: SlotIndex, highest: Option<Step>)
    ensures
        ({
            let (after, deferred) = node.defer(slot, highest);
            &&& deferred <==> node.core.pending.dom().contains(slot) && (
            highest matches Some(step) && (node.observed.dom().contains(slot) ==> step.0
                > node.observed[slot].0))
            &&& after.observed == if deferred {
                node.observed.insert(slot, highest->0)
            } else {
                node.observed
            }
            &&& after.core == node.core && after.armed_at == node.armed_at
        }),
{
}

/// The highest of reported steps: one of them, which none exceeds; none where
/// none is reported.
pub proof fn the_highest_report_counts(reports: Seq<Option<Step>>)
    ensures
        match runtime_course::highest_step(reports) {
            Some(step) => reports.contains(Some(step)) && forall|i: int|
                0 <= i < reports.len() ==> (#[trigger] reports[i] matches Some(other) ==> other.0
                    <= step.0),
            None => forall|i: int| 0 <= i < reports.len() ==> #[trigger] reports[i] is None,
        },
    decreases reports.len(),
{
    if reports.len() > 0 {
        let rest = reports.drop_last();
        the_highest_report_counts(rest);
        assert(reports[reports.len() - 1] == reports.last());
        assert forall|i: int| 0 <= i < rest.len() implies #[trigger] reports[i] == rest[i] by {}
        if let Some(step) = runtime_course::highest_step(rest) {
            let k = choose|k: int| 0 <= k < rest.len() && rest[k] == Some(step);
            assert(reports[k] == Some(step));
        }
    }
}

/// A membership change is planned exactly where its command is in its anchor and
/// its clients are the members of the next membership, each once; and where it is
/// in force already, or follows the present one with the pipeline drained at the
/// anchor.
pub proof fn membership_changes_are_planned<V>(
    node: NodeView<V>,
    change: MembershipChangeView<V>,
    ids: Seq<ReplicaId>,
)
    ensures
        ({
            let now = node.core.config.cluster;
            let fits = change.anchor.value_ids.contains(change.command_id) && ids.no_duplicates()
                && ids.to_set() == change.next.members.to_set();
            let drained = {
                &&& node.core.committed_through() == change.anchor.slot
                &&& node.core.decisions.dom().contains(change.anchor.slot)
                &&& node.core.decisions[change.anchor.slot] == change.anchor
                &&& forall|slot: SlotIndex| !#[trigger] node.core.pending.dom().contains(slot)
                &&& forall|slot: SlotIndex| #[trigger]
                    node.core.replica.state.log.dom().contains(slot) ==> slot.0
                        <= change.anchor.slot.0
            };
            &&& node.plan_membership(change, ids) == Ok::<bool, ErrorView>(true) <==> fits
                && change.next == now
            &&& node.plan_membership(change, ids) == Ok::<bool, ErrorView>(false) <==> fits
                && change.next != now && change.next.follows(now) && drained
        }),
{
    assert((forall|slot: SlotIndex| !#[trigger] node.core.pending.dom().contains(slot))
        <==> node.core.pending.dom() =~= Set::<SlotIndex>::empty());
}

/// A transfer that a node takes up brings the sender's decisions, executions, log
/// and queue. It ends at the sender's pruning floor and is of the node's own
/// configuration; clocks start over.
pub proof fn nodes_take_up_the_senders_state<V>(node: NodeView<V>, transfer: TransferView<V>)
    requires
        node.install_transfer(transfer) is Ok,
    ensures
        ({
            let after = node.install_transfer(transfer)->Ok_0;
            let sent = transfer.runtime;
            &&& transfer.through == sent.replica.checkpointed_through
            &&& sent.cluster == node.core.config.cluster
            &&& after.core.config == node.core.config
            &&& after.core.decisions == sent.decisions
            &&& after.core.executed == sent.executed
            &&& after.core.notified == sent.executed
            &&& after.core.replica.state == sent.replica
            &&& after.core.tuner.schedules == sent.schedules
            &&& after.core.tuner.stats == sent.epoch_stats
            &&& after.core.tuner.stats_through == sent.stats_through
            &&& after.core.pending.dom() == sent.pending.dom()
            &&& forall|slot: SlotIndex| #[trigger]
                sent.pending.dom().contains(slot) ==> after.core.pending[slot].value_ids
                    == sent.pending[slot]
            &&& after.core.noop_value == node.core.noop_value
            &&& after.armed_at.dom() == Set::<SlotIndex>::empty()
            &&& after.observed.dom() == Set::<SlotIndex>::empty()
        }),
{
    let after = node.install_transfer(transfer)->Ok_0;
    assert(after.core.pending.dom() =~= transfer.runtime.pending.dom());
}

/// A node that installs its schedules by hand and fills no gaps learns every
/// decision that its log takes in and that contradicts nothing it knows.
pub proof fn learning_is_refused_for_cause<V>(
    node: NodeView<V>,
    decision: DecisionView<V>,
    now: Span,
)
    requires
        !node.core.tuner.auto,
        node.core.noop_value is None,
    ensures
        node.learn(decision, now).1 is Ok <==> if node.core.decisions.dom().contains(
            decision.slot,
        ) {
            node.core.decisions[decision.slot].value_ids == decision.value_ids
        } else {
            node.core.replica.apply_decision(decision).1 is Ok
        },
{
    if !node.core.decisions.dom().contains(decision.slot) {
        let core = node.core.adopt(decision).0;
        lemma_nothing_is_counted(core, collections::in_order(core.decisions.dom()));
    }
}

proof fn lemma_nothing_is_counted<V>(view: RuntimeView<V>, slots: Seq<SlotIndex>)
    requires
        !view.tuner.auto,
    ensures
        view.note_slots(slots) == (view, Ok::<bool, ErrorView>(false)),
    decreases slots.len(),
{
    if slots.len() > 0 {
        lemma_nothing_is_counted(view, slots.drop_last());
    }
}

/// A node takes up what another node of the same configuration hands out at its
/// own pruning floor.
pub proof fn checkpoints_are_taken_up<V>(
    node: NodeView<V>,
    receiver: NodeView<V>,
    values: Seq<V>,
    application: Seq<u8>,
)
    requires
        resumable(node),
        receiver.core.config == node.core.config,
    ensures
        receiver.install_transfer(
            TransferView {
                through: node.core.replica.state.checkpointed_through,
                checkpointed_value_ids: values,
                application_checkpoint: application,
                runtime: node.snapshot(),
            },
        ) is Ok,
{
    snapshots_restart(node);
}

/// What recorders are told before a checkpoint or a change is every decision
/// through its slot, in slot order, and no other.
pub proof fn recorders_are_told_what_is_decided<V>(node: NodeView<V>, through: SlotIndex)
    requires
        node.core.decisions.dom().finite(),
        runtime::keyed(node.core),
    ensures
        ({
            let decisions = node.core.decisions;
            let list = node_runtime::decisions_through(
                decisions,
                collections::in_order(decisions.dom()),
                through,
            );
            &&& forall|i: int, j: int|
                0 <= i < j < list.len() ==> (#[trigger] list[i]).slot.0 < (
                #[trigger] list[j]).slot.0
            &&& forall|i: int|
                0 <= i < list.len() ==> decisions.dom().contains((#[trigger] list[i]).slot)
                    && decisions[list[i].slot] == list[i] && list[i].slot.0 <= through.0
            &&& forall|slot: SlotIndex| #[trigger]
                decisions.dom().contains(slot) && slot.0 <= through.0 ==> list.contains(
                    decisions[slot],
                )
        }),
{
    let decisions = node.core.decisions;
    let slots = collections::in_order(decisions.dom());
    collections::lemma_in_order_exists(decisions.dom());
    assert forall|k: int| 0 <= k < slots.len() implies decisions[#[trigger] slots[k]].slot
        == slots[k] by {
        assert(slots.to_set().contains(slots[k]));
        assert(decisions.dom().contains(slots[k]));
    }
    assert forall|k: int, l: int| 0 <= k < l < slots.len() implies (#[trigger] slots[k]).0 < (
    #[trigger] slots[l]).0 by {
        assert(slots[k].rank() < slots[l].rank());
    }
    lemma_told_through(decisions, slots, through);
    let list = node_runtime::decisions_through(decisions, slots, through);
    assert forall|i: int| 0 <= i < list.len() implies decisions.dom().contains(
        (#[trigger] list[i]).slot,
    ) && decisions[list[i].slot] == list[i] && list[i].slot.0 <= through.0 by {
        assert(list.contains(list[i]));
        assert(is_of(decisions, slots, through, list[i]));
        let k = choose|k: int|
            0 <= k < slots.len() && (#[trigger] slots[k]).0 <= through.0 && decisions[slots[k]]
                == list[i];
        assert(decisions[slots[k]].slot == slots[k]);
        assert(slots.to_set().contains(slots[k]));
        assert(decisions.dom().contains(slots[k]));
    }
    assert(goes_up(list));
    assert forall|slot: SlotIndex| #[trigger]
        decisions.dom().contains(slot) && slot.0 <= through.0 implies list.contains(
        decisions[slot],
    ) by {
        assert(slots.to_set().contains(slot));
        let k = choose|k: int| 0 <= k < slots.len() && slots[k] == slot;
        assert(list.contains(decisions[slots[k]]));
    }
}

/// Whether a list of decisions goes up slot by slot.
spec fn goes_up<V>(list: Seq<DecisionView<V>>) -> bool {
    forall|i: int, j: int|
        0 <= i < j < list.len() ==> (#[trigger] list[i]).slot.0 < (#[trigger] list[j]).slot.0
}

/// Whether a decision is of one of the slots that reach no further than one.
spec fn is_of<V>(
    decisions: Map<SlotIndex, DecisionView<V>>,
    slots: Seq<SlotIndex>,
    through: SlotIndex,
    decision: DecisionView<V>,
) -> bool {
    exists|k: int|
        0 <= k < slots.len() && (#[trigger] slots[k]).0 <= through.0 && decisions[slots[k]]
            == decision
}

proof fn lemma_told_through<V>(
    decisions: Map<SlotIndex, DecisionView<V>>,
    slots: Seq<SlotIndex>,
    through: SlotIndex,
)
    requires
        forall|k: int|
            0 <= k < slots.len() ==> decisions[#[trigger] slots[k]].slot == slots[k],
        forall|k: int, l: int|
            0 <= k < l < slots.len() ==> (#[trigger] slots[k]).0 < (#[trigger] slots[l]).0,
    ensures
        goes_up(node_runtime::decisions_through(decisions, slots, through)),
        forall|decision: DecisionView<V>| #[trigger]
            node_runtime::decisions_through(decisions, slots, through).contains(decision) ==> is_of(
                decisions,
                slots,
                through,
                decision,
            ),
        forall|k: int|
            0 <= k < slots.len() && (#[trigger] slots[k]).0 <= through.0
                ==> node_runtime::decisions_through(decisions, slots, through).contains(
                decisions[slots[k]],
            ),
    decreases slots.len(),
{
    let list = node_runtime::decisions_through(decisions, slots, through);
    if slots.len() > 0 {
        let rest = slots.drop_last();
        let last = slots.len() - 1;
        let before = node_runtime::decisions_through(decisions, rest, through);
        assert forall|k: int| 0 <= k < rest.len() implies decisions[#[trigger] rest[k]].slot
            == rest[k] by {
            assert(decisions[slots[k]].slot == slots[k]);
        }
        assert forall|k: int, l: int| 0 <= k < l < rest.len() implies (#[trigger] rest[k]).0 < (
        #[trigger] rest[l]).0 by {
            assert(slots[k].0 < slots[l].0);
        }
        lemma_told_through(decisions, rest, through);
        assert(slots[last] == slots.last());
        assert(decisions[slots[last]].slot == slots[last]);
        assert forall|decision: DecisionView<V>| before.contains(decision) implies is_of(
            decisions,
            slots,
            through,
            decision,
        ) && decision.slot.0 < slots[last].0 by {
            assert(is_of(decisions, rest, through, decision));
            let k = choose|k: int|
                0 <= k < rest.len() && (#[trigger] rest[k]).0 <= through.0 && decisions[rest[k]]
                    == decision;
            assert(slots[k] == rest[k]);
            assert(decisions[slots[k]].slot == slots[k]);
            assert(slots[k].0 < slots[last].0);
        }
        assert forall|i: int, j: int| 0 <= i < j < list.len() implies (#[trigger] list[i]).slot.0
            < (#[trigger] list[j]).slot.0 by {
            assert(before[i] == list[i]);
            assert(before.contains(before[i]));
            if j < before.len() {
                assert(before[j] == list[j]);
            }
        }
        assert forall|decision: DecisionView<V>| #[trigger] list.contains(decision) implies is_of(
            decisions,
            slots,
            through,
            decision,
        ) by {
            let i = list.index_of(decision);
            if i < before.len() {
                assert(before[i] == decision);
                assert(before.contains(decision));
            } else {
                assert(decisions[slots[last]] == decision);
            }
        }
        assert forall|k: int| 0 <= k < slots.len() && (#[trigger] slots[k]).0
            <= through.0 implies list.contains(decisions[slots[k]]) by {
            if k < last {
                assert(rest[k] == slots[k]);
                assert(before.contains(decisions[rest[k]]));
                let i = before.index_of(decisions[rest[k]]);
                assert(list[i] == decisions[slots[k]]);
            } else {
                assert(list[list.len() - 1] == decisions[slots[k]]);
            }
        }
    }
}

/// A checkpoint of a node drops its clocks at or below the slot, and no other.
pub proof fn checkpoints_drop_their_clocks<V>(node: NodeView<V>, slot: SlotIndex, other: SlotIndex)
    ensures
        ({
            let after = node.checkpointed(slot);
            &&& after.armed_at.dom().contains(other) <==> other.0 > slot.0
                && node.armed_at.dom().contains(other)
            &&& after.armed_at.dom().contains(other) ==> after.armed_at[other]
                == node.armed_at[other]
            &&& after.observed.dom().contains(other) <==> other.0 > slot.0
                && node.observed.dom().contains(other)
            &&& after.observed.dom().contains(other) ==> after.observed[other]
                == node.observed[other]
            &&& after.core.decisions.dom().contains(other) <==> other.0 > slot.0
                && node.core.decisions.dom().contains(other)
            &&& after.core.pending == node.core.pending
        }),
{
}

/// A node installs a schedule exactly where it lists every member once, the node
/// derives none by itself, and no other one is installed for the epoch.
pub proof fn nodes_install_schedules_once<V>(node: NodeView<V>, schedule: ScheduleView)
    ensures
        ({
            let (after, installed) = node.install_schedule(schedule);
            let kept = node.core.tuner.schedules;
            &&& installed is Ok <==> {
                &&& schedule.proposers.no_duplicates()
                &&& schedule.proposers.to_set() == node.core.config.cluster.members.to_set()
                &&& !node.core.tuner.auto
                &&& kept.dom().contains(schedule.epoch) ==> kept[schedule.epoch] == schedule
            }
            &&& installed matches Ok(new) ==> new == !kept.dom().contains(schedule.epoch)
                && after.core.tuner.schedules == kept.insert(schedule.epoch, schedule)
            &&& installed is Err ==> after == node
        }),
{
    let (after, installed) = node.install_schedule(schedule);
    if installed == Ok::<bool, ErrorView>(false) {
        assert(node.core.tuner.schedules.insert(schedule.epoch, schedule)
            =~= node.core.tuner.schedules);
    }
}

/// Clients fit a membership exactly where they are its members, each once.
pub proof fn clients_are_the_members(ids: Seq<ReplicaId>, members: Seq<ReplicaId>)
    ensures
        node_runtime::next_clients_error(ids, members) is None <==> ids.no_duplicates()
            && forall|id: ReplicaId| #[trigger] ids.contains(id) <==> members.contains(id),
        runtime_state::handles_error(ids, members) is None <==> ids.no_duplicates()
            && forall|id: ReplicaId| #[trigger] ids.contains(id) <==> members.contains(id),
        runtime_state::next_handles_error(ids, members) is None <==> ids.no_duplicates()
            && forall|id: ReplicaId| #[trigger] ids.contains(id) <==> members.contains(id),
{
    if ids.to_set() == members.to_set() {
        assert forall|id: ReplicaId| #[trigger] ids.contains(id) <==> members.contains(id) by {
            assert(ids.to_set().contains(id) <==> members.to_set().contains(id));
        }
    }
    if forall|id: ReplicaId| #[trigger] ids.contains(id) <==> members.contains(id) {
        assert(ids.to_set() =~= members.to_set());
    }
}

} // verus!
