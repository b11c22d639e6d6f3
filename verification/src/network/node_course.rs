//! How a networked node deals with what surrounds it: what it hands to its store
//! and its state machine, in which order, and what it makes of their answers.

use crate::collections;
use crate::error::ErrorView;
use crate::key::Key;
use crate::network::node_runtime::{NodeView, StepView};
use crate::runtime;
use crate::runtime::{RuntimeStateStore, StateMachine};
use crate::runtime_state::{RuntimeView, TransferView};
use crate::schedule::ScheduleView;
use crate::span::Span;
use crate::types::{DecisionView, SlotIndex};
use vstd::prelude::*;

verus! {

/// A node's state and what surrounds it.
#[verifier::ext_equal]
#[verifier::reject_recursive_types(V)]
#[verifier::reject_recursive_types(S)]
#[verifier::reject_recursive_types(E)]
pub struct PlaceView<V, S, E> {
    pub node: NodeView<V>,
    pub store: S,
    pub machine: E,
}

/// A next state was handed to the store; the node takes it up if the store
/// does.
pub open spec fn kept<V: Key, S: RuntimeStateStore<V>, E>(
    before: PlaceView<V, S, E>,
    next: NodeView<V>,
    outcome: std::result::Result<(), ErrorView>,
    after: PlaceView<V, S, E>,
) -> bool {
    &&& before.store.saves(next.snapshot(), outcome, &after.store)
    &&& outcome is Ok ==> after.store.persisted() == Some(next.snapshot())
    &&& after == (PlaceView {
        node: if outcome is Ok {
            next
        } else {
            before.node
        },
        store: after.store,
        ..before
    })
}

/// A schedule was refused, found installed, or installed durably.
pub open spec fn scheduled<V: Key, S: RuntimeStateStore<V>, E>(
    before: PlaceView<V, S, E>,
    schedule: ScheduleView,
    outcome: std::result::Result<(), ErrorView>,
    after: PlaceView<V, S, E>,
) -> bool {
    match before.node.install_schedule(schedule) {
        (node, Err(refusal)) => after == (PlaceView { node, ..before }) && outcome == Err::<
            (),
            ErrorView,
        >(refusal),
        (node, Ok(false)) => after == (PlaceView { node, ..before }) && outcome is Ok,
        (node, Ok(true)) => kept(before, node, outcome, after),
    }
}

/// The values of a submission were refused or queued durably.
pub open spec fn queued<V: Key, S: RuntimeStateStore<V>, E>(
    before: PlaceView<V, S, E>,
    values: Seq<V>,
    outcome: std::result::Result<(), ErrorView>,
    after: PlaceView<V, S, E>,
) -> bool {
    match before.node.enqueue(values) {
        (node, Err(refusal)) => after == (PlaceView { node, ..before }) && outcome == Err::<
            (),
            ErrorView,
        >(refusal),
        (node, Ok(())) => kept(before, node, outcome, after),
    }
}

/// What a submission does next was found out; a proposal that is taken up is
/// durable.
pub open spec fn advanced<V: Key, S: RuntimeStateStore<V>, E>(
    before: PlaceView<V, S, E>,
    values: Seq<V>,
    outcome: std::result::Result<StepView<V>, ErrorView>,
    after: PlaceView<V, S, E>,
) -> bool {
    let (node, step) = before.node.advance(values);
    if step is Err || step->Ok_0 is Wait || before.node.has_known_step(values) {
        after == (PlaceView { node, ..before }) && outcome == step
    } else {
        match outcome {
            Ok(found) => found == step->Ok_0 && kept(before, node, Ok(()), after),
            Err(refusal) => kept(before, node, Err(refusal), after),
        }
    }
}

/// The decision of a slot was executed if it is committed and was not executed
/// before; that is durable before the next one is. One that the state machine
/// refused is still to be executed.
pub open spec fn executed<V: Key, S: RuntimeStateStore<V>, E: StateMachine<V>>(
    before: PlaceView<V, S, E>,
    slot: SlotIndex,
    outcome: std::result::Result<(), ErrorView>,
    after: PlaceView<V, S, E>,
) -> bool {
    let core = before.node.core;
    let decision = core.decisions[slot];
    if slot.0 > core.committed_through().0 || core.executed.contains(decision.slot) {
        after == before && outcome is Ok
    } else {
        let marked = NodeView {
            core: RuntimeView {
                executed: core.executed.insert(decision.slot),
                notified: core.notified.insert(decision.slot),
                ..core
            },
            ..before.node
        };
        ||| {
            &&& outcome is Err
            &&& after == (PlaceView { machine: after.machine, ..before })
            &&& before.machine.executes(decision, outcome, &after.machine)
        }
        ||| {
            &&& after == (PlaceView { node: marked, store: after.store, machine: after.machine })
            &&& before.machine.executes(decision, Ok(()), &after.machine)
            &&& before.store.saves(marked.snapshot(), outcome, &after.store)
            &&& outcome is Ok ==> after.store.persisted() == Some(marked.snapshot())
        }
    }
}

/// Each place comes from the one before it by executing the decision of the
/// next slot.
pub open spec fn executions<V: Key, S: RuntimeStateStore<V>, E: StateMachine<V>>(
    places: Seq<PlaceView<V, S, E>>,
    slots: Seq<SlotIndex>,
) -> bool {
    &&& 0 < places.len() <= slots.len() + 1
    &&& forall|i: int|
        1 <= i < places.len() ==> executed(
            places[i - 1],
            slots[i - 1],
            Ok(()),
            #[trigger] places[i],
        )
}

/// Committed decisions were executed in slot order, up to the first that failed.
pub open spec fn all_executed<V: Key, S: RuntimeStateStore<V>, E: StateMachine<V>>(
    before: PlaceView<V, S, E>,
    outcome: std::result::Result<(), ErrorView>,
    after: PlaceView<V, S, E>,
) -> bool {
    let slots = collections::in_order(before.node.core.decisions.dom());
    exists|places: Seq<PlaceView<V, S, E>>|
        {
            &&& #[trigger] executions(places, slots)
            &&& places[0] == before
            &&& match outcome {
                Ok(()) => places.len() == slots.len() + 1 && after == places.last(),
                Err(_) => places.len() <= slots.len() && executed(
                    places.last(),
                    slots[places.len() - 1],
                    outcome,
                    after,
                ),
            }
        }
}

/// A next state was made durable where it is to be, then committed decisions
/// were executed.
pub open spec fn kept_and_executed<V: Key, S: RuntimeStateStore<V>, E: StateMachine<V>>(
    before: PlaceView<V, S, E>,
    next: NodeView<V>,
    keep: bool,
    outcome: std::result::Result<(), ErrorView>,
    after: PlaceView<V, S, E>,
) -> bool {
    if !keep {
        all_executed(PlaceView { node: next, ..before }, outcome, after)
    } else {
        ||| outcome is Err && kept(before, next, outcome, after)
        ||| exists|saved: PlaceView<V, S, E>| #[trigger]
            kept(before, next, Ok(()), saved) && all_executed(saved, outcome, after)
    }
}

/// A decision was refused, or taken in: durable before anything is executed.
pub open spec fn accepted<V: Key, S: RuntimeStateStore<V>, E: StateMachine<V>>(
    before: PlaceView<V, S, E>,
    decision: DecisionView<V>,
    now: Span,
    outcome: std::result::Result<(), ErrorView>,
    after: PlaceView<V, S, E>,
) -> bool {
    match before.node.learn(decision, now) {
        (node, Err(refusal)) => after == (PlaceView { node, ..before }) && outcome == Err::<
            (),
            ErrorView,
        >(refusal),
        (node, Ok(fresh)) => kept_and_executed(before, node, fresh, outcome, after),
    }
}

/// A gap was armed durably, then committed decisions were executed.
pub open spec fn recovered<V: Key, S: RuntimeStateStore<V>, E: StateMachine<V>>(
    before: PlaceView<V, S, E>,
    now: Span,
    outcome: std::result::Result<(), ErrorView>,
    after: PlaceView<V, S, E>,
) -> bool {
    match before.node.arm_gap(now) {
        (node, Err(refusal)) => after == (PlaceView { node, ..before }) && outcome == Err::<
            (),
            ErrorView,
        >(refusal),
        (node, Ok(armed)) => kept_and_executed(before, node, armed, outcome, after),
    }
}

/// The refusal of a checkpoint that the node has moved past.
pub open spec fn moved_past() -> ErrorView {
    ErrorView::InvalidProposal("runtime changed while preparing its state-transfer checkpoint"@)
}

/// The application state was exported, then the slots that it covers dropped
/// durably; a transfer holds both.
pub open spec fn handed_over<V: Key, S: RuntimeStateStore<V>, E: StateMachine<V>>(
    before: PlaceView<V, S, E>,
    slot: SlotIndex,
    values: Seq<V>,
    outcome: std::result::Result<TransferView<V>, ErrorView>,
    after: PlaceView<V, S, E>,
) -> bool {
    exists|checkpoint: std::result::Result<Seq<u8>, ErrorView>|
        {
            let left = PlaceView { machine: after.machine, ..before };
            &&& #[trigger] before.machine.exports(slot, checkpoint, &after.machine)
            &&& match checkpoint {
                Err(refusal) => after == left && outcome == Err::<TransferView<V>, ErrorView>(
                    refusal,
                ),
                Ok(bytes) => if before.node.core.handover_error(slot) is Some {
                    after == left && outcome == Err::<TransferView<V>, ErrorView>(moved_past())
                } else {
                    match outcome {
                        Err(refusal) => kept(
                            left,
                            before.node.checkpointed(slot),
                            Err(refusal),
                            after,
                        ),
                        Ok(transfer) => {
                            &&& kept(left, before.node.checkpointed(slot), Ok(()), after)
                            &&& transfer == (TransferView {
                                through: slot,
                                checkpointed_value_ids: values,
                                application_checkpoint: bytes,
                                runtime: after.node.snapshot(),
                            })
                        },
                    }
                },
            }
        }
}

/// The application state of a transfer was imported, then its consensus state
/// made durable and taken up.
pub open spec fn taken_up<V: Key, S: RuntimeStateStore<V>, E: StateMachine<V>>(
    before: PlaceView<V, S, E>,
    transfer: TransferView<V>,
    outcome: std::result::Result<(), ErrorView>,
    after: PlaceView<V, S, E>,
) -> bool {
    match before.node.install_transfer(transfer) {
        Err(refusal) => after == before && outcome == Err::<(), ErrorView>(refusal),
        Ok(next) => {
            ||| {
                &&& outcome is Err
                &&& after == (PlaceView { machine: after.machine, ..before })
                &&& before.machine.imports(
                    transfer.through,
                    transfer.application_checkpoint,
                    outcome,
                    &after.machine,
                )
            }
            ||| {
                &&& before.machine.imports(
                    transfer.through,
                    transfer.application_checkpoint,
                    Ok(()),
                    &after.machine,
                )
                &&& before.store.saves(transfer.runtime, outcome, &after.store)
                &&& outcome is Ok ==> after.store.persisted() == Some(transfer.runtime)
                &&& after == (PlaceView {
                    node: if outcome is Ok {
                        next
                    } else {
                        before.node
                    },
                    store: after.store,
                    machine: after.machine,
                })
            }
        },
    }
}

} // verus!
