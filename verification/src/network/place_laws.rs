//! What a networked node has done once a call has succeeded: what is durable,
//! and what was executed.

use crate::collections;
use crate::error::ErrorView;
use crate::key::Key;
use crate::network::node_course;
use crate::network::node_course::PlaceView;
use crate::network::node_laws;
use crate::network::node_runtime::{NodeView, StepView};
use crate::replica_laws;
use crate::runtime;
use crate::runtime::{RuntimeStateStore, StateMachine};
use crate::runtime_state::{RuntimeView, TransferView};
use crate::schedule::ScheduleView;
use crate::span::Span;
use crate::types::{DecisionView, SlotIndex};
use vstd::prelude::*;

verus! {

/// The store holds the node's state as it is.
pub open spec fn is_durable<V: Key, S: RuntimeStateStore<V>, E>(
    place: PlaceView<V, S, E>,
) -> bool {
    place.store.persisted() == Some(place.node.snapshot())
}

/// A submission that was queued with success is durable, and every value of it
/// stands in the queue or was tracked before.
pub proof fn queued_submissions_are_durable<V: Key, S: RuntimeStateStore<V>, E>(
    before: PlaceView<V, S, E>,
    values: Seq<V>,
    outcome: std::result::Result<(), ErrorView>,
    after: PlaceView<V, S, E>,
    value: V,
)
    requires
        node_course::queued(before, values, outcome, after),
    ensures
        outcome is Ok ==> is_durable(after),
        outcome is Ok && values.contains(value) ==> after.node.core.replica.state.pending.contains(
            value,
        ) || before.node.core.replica.state.seen_value_ids.contains(value),
        outcome is Err ==> after.node.core.replica.state.pending
            == before.node.core.replica.state.pending,
        after.machine == before.machine,
{
    let replica = before.node.core.replica;
    replica_laws::accepted_submissions_are_queued(replica, values);
    if outcome is Ok && values.contains(value) && !replica.state.seen_value_ids.contains(value) {
        let state = after.node.core.replica.state;
        let added = state.pending.skip(replica.state.pending.len() as int);
        assert(added.contains(value));
        let i = added.index_of(value);
        assert(state.pending[replica.state.pending.len() + i] == value);
    }
}

/// A slot that a submission drives anew is durable before it is driven, with the
/// values that are proposed for it.
pub proof fn driven_slots_are_durable<V: Key, S: RuntimeStateStore<V>, E>(
    before: PlaceView<V, S, E>,
    values: Seq<V>,
    slot: SlotIndex,
    driven: Seq<V>,
    after: PlaceView<V, S, E>,
)
    requires
        node_course::advanced(before, values, Ok(StepView::Drive { slot, value_ids: driven }), after),
        before.node.core.decisions.dom().finite(),
        before.node.core.pending.dom().finite(),
    ensures
        before.node.has_known_step(values) ==> after.node == before.node,
        !before.node.has_known_step(values) ==> is_durable(after) && after.node.core.pending
            == before.node.core.pending.insert(slot, after.node.core.pending[slot]),
        after.node.core.pending.dom().contains(slot),
        after.node.core.pending[slot].value_ids == driven,
{
    if before.node.has_known_step(values) {
        node_laws::submissions_are_answered_in_full(before.node, values);
    }
}

/// A schedule that was newly installed is durable.
pub proof fn installed_schedules_are_durable<V: Key, S: RuntimeStateStore<V>, E>(
    before: PlaceView<V, S, E>,
    schedule: ScheduleView,
    outcome: std::result::Result<(), ErrorView>,
    after: PlaceView<V, S, E>,
)
    requires
        node_course::scheduled(before, schedule, outcome, after),
        is_durable(before),
    ensures
        outcome is Ok ==> is_durable(after),
        outcome is Err ==> after.node.core.tuner.schedules == before.node.core.tuner.schedules,
{
}

proof fn lemma_executions_keep<V: Key, S: RuntimeStateStore<V>, E: StateMachine<V>>(
    places: Seq<PlaceView<V, S, E>>,
    slots: Seq<SlotIndex>,
    n: int,
    k: int,
)
    requires
        node_course::executions(places, slots),
        0 <= n < places.len(),
    ensures
        is_durable(places[0]) ==> is_durable(places[n]),
        places[n].node == (NodeView {
            core: RuntimeView {
                executed: places[n].node.core.executed,
                notified: places[n].node.core.notified,
                ..places[0].node.core
            },
            ..places[0].node
        }),
        places[0].node.core.executed.subset_of(places[n].node.core.executed),
        0 <= k < n && slots[k].0 <= places[0].node.core.committed_through().0
            ==> places[n].node.core.executed.contains(
            places[0].node.core.decisions[slots[k]].slot,
        ),
    decreases n,
{
    if n > 0 {
        lemma_executions_keep(places, slots, n - 1, k);
        assert(node_course::executed(places[n - 1], slots[n - 1], Ok(()), places[n]));
    }
}

proof fn lemma_all_executed<V: Key, S: RuntimeStateStore<V>, E: StateMachine<V>>(
    before: PlaceView<V, S, E>,
    after: PlaceView<V, S, E>,
    slot: SlotIndex,
)
    requires
        node_course::all_executed(before, Ok(()), after),
        before.node.core.decisions.dom().finite(),
        runtime::keyed(before.node.core),
    ensures
        is_durable(before) ==> is_durable(after),
        after.node.core.decisions == before.node.core.decisions,
        after.node.core.replica == before.node.core.replica,
        before.node.core.decisions.dom().contains(slot) && slot.0
            <= before.node.core.committed_through().0 ==> after.node.core.executed.contains(slot),
{
    let slots = collections::in_order(before.node.core.decisions.dom());
    collections::lemma_in_order_exists(before.node.core.decisions.dom());
    let places = choose|places: Seq<PlaceView<V, S, E>>|
        {
            &&& #[trigger] node_course::executions(places, slots)
            &&& places[0] == before
            &&& places.len() == slots.len() + 1
            &&& after == places.last()
        };
    lemma_executions_keep(places, slots, slots.len() as int, -1);
    if before.node.core.decisions.dom().contains(slot) {
        assert(slots.to_set().contains(slot));
        let k = choose|k: int| 0 <= k < slots.len() && slots[k] == slot;
        lemma_executions_keep(places, slots, slots.len() as int, k);
        assert(before.node.core.decisions[slot].slot == slot);
    }
}

/// A new decision that a node took in with success is remembered, and durably so.
/// All that is committed by then was executed.
pub proof fn accepted_decisions_are_durable_and_executed<
    V: Key,
    S: RuntimeStateStore<V>,
    E: StateMachine<V>,
>(
    before: PlaceView<V, S, E>,
    decision: DecisionView<V>,
    now: Span,
    after: PlaceView<V, S, E>,
    slot: SlotIndex,
)
    requires
        node_course::accepted(before, decision, now, Ok(()), after),
        before.node.core.decisions.dom().finite(),
        runtime::keyed(before.node.core),
        !before.node.core.decisions.dom().contains(decision.slot),
    ensures
        after.node.core.decisions == before.node.core.decisions.insert(decision.slot, decision),
        is_durable(after),
        after.node.core.decisions.dom().contains(slot) && slot.0
            <= after.node.core.committed_through().0 ==> after.node.core.executed.contains(slot),
{
    let (node, learned) = before.node.learn(decision, now);
    node_laws::learned_decisions_are_decided(before.node, decision, now);
    let saved = choose|saved: PlaceView<V, S, E>| #[trigger]
        node_course::kept(before, node, Ok(()), saved) && node_course::all_executed(
            saved,
            Ok(()),
            after,
        );
    assert(is_durable(saved));
    assert(runtime::keyed(saved.node.core));
    lemma_all_executed(saved, after, slot);
}

/// A gap that a node armed is durable, and all that is committed was executed.
pub proof fn armed_gaps_are_durable<V: Key, S: RuntimeStateStore<V>, E: StateMachine<V>>(
    before: PlaceView<V, S, E>,
    now: Span,
    after: PlaceView<V, S, E>,
    slot: SlotIndex,
)
    requires
        node_course::recovered(before, now, Ok(()), after),
        before.node.core.decisions.dom().finite(),
        runtime::keyed(before.node.core),
        is_durable(before),
    ensures
        before.node.arm_gap(now).1 == Ok::<bool, ErrorView>(true) ==> is_durable(after),
        before.node.core.decisions.dom().contains(slot) && slot.0
            <= before.node.core.committed_through().0 ==> after.node.core.executed.contains(slot),
{
    let (node, armed) = before.node.arm_gap(now);
    assert(node.core.decisions == before.node.core.decisions);
    assert(runtime::keyed(node.core));
    if armed->Ok_0 {
        let saved = choose|saved: PlaceView<V, S, E>| #[trigger]
            node_course::kept(before, node, Ok(()), saved) && node_course::all_executed(
                saved,
                Ok(()),
                after,
            );
        lemma_all_executed(saved, after, slot);
    } else {
        lemma_all_executed(PlaceView { node, ..before }, after, slot);
    }
}

/// A transfer that a node took up with success has given the state machine its
/// checkpoint, and its consensus state is durable. One that failed has left the
/// consensus state as it was.
pub proof fn transfers_are_imported_and_durable<
    V: Key,
    S: RuntimeStateStore<V>,
    E: StateMachine<V>,
>(
    before: PlaceView<V, S, E>,
    transfer: TransferView<V>,
    outcome: std::result::Result<(), ErrorView>,
    after: PlaceView<V, S, E>,
)
    requires
        node_course::taken_up(before, transfer, outcome, after),
    ensures
        outcome is Ok ==> {
            &&& before.machine.imports(
                transfer.through,
                transfer.application_checkpoint,
                Ok(()),
                &after.machine,
            )
            &&& after.store.persisted() == Some(transfer.runtime)
            &&& after.node.core.decisions == transfer.runtime.decisions
            &&& after.node.core.executed == transfer.runtime.executed
            &&& after.node.core.replica.state == transfer.runtime.replica
        },
        outcome is Err ==> after.node == before.node,
{
    if outcome is Ok {
        node_laws::nodes_take_up_the_senders_state(before.node, transfer);
    }
}

/// A transfer that a node handed out holds what the state machine exported for
/// the slot and the node's durable state, which has dropped what the slot covers.
pub proof fn transfers_hold_what_they_cover<
    V: Key,
    S: RuntimeStateStore<V>,
    E: StateMachine<V>,
>(
    before: PlaceView<V, S, E>,
    slot: SlotIndex,
    values: Seq<V>,
    transfer: TransferView<V>,
    after: PlaceView<V, S, E>,
)
    requires
        node_course::handed_over(before, slot, values, Ok(transfer), after),
    ensures
        transfer.through == slot,
        transfer.checkpointed_value_ids == values,
        transfer.runtime == after.node.snapshot(),
        is_durable(after),
        before.machine.exports(slot, Ok(transfer.application_checkpoint), &after.machine),
        after.node.core.replica.state.checkpointed_through == slot,
{
}

} // verus!
