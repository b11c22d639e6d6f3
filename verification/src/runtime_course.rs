//! How a runtime deals with what surrounds it: what it hands to its store, its
//! state machine, its listener and its recorders, in which order, and what it
//! makes of their answers.

use crate::cluster::MembershipChangeView;
use crate::collections;
use crate::error::ErrorView;
use crate::key::Key;
use crate::proposer;
use crate::proposer::{ProposerView, RecorderClient, RecorderHandle};
use crate::round;
use crate::runtime;
use crate::runtime::{ClientNotifier, PollView, RuntimeStateStore, StateMachine};
use crate::runtime_state;
use crate::runtime_state::{Acceptance, DeliveryView, RuntimeView, TransferView};
use crate::schedule::ScheduleView;
use crate::span::Span;
use crate::types::{DecisionView, ReplicaId, SlotIndex, Step};
use vstd::prelude::*;

verus! {

/// A runtime's state and what surrounds it.
#[verifier::ext_equal]
#[verifier::reject_recursive_types(V)]
#[verifier::reject_recursive_types(C)]
#[verifier::reject_recursive_types(R)]
#[verifier::reject_recursive_types(S)]
#[verifier::reject_recursive_types(E)]
#[verifier::reject_recursive_types(N)]
pub struct SettingView<V, C, R, S, E, N> {
    pub state: RuntimeView<V>,
    pub proposer: ProposerView,
    pub source: R,
    pub endpoints: Seq<RecorderHandle<C>>,
    pub store: S,
    pub machine: E,
    pub listener: N,
}

/// The state was handed to the store, which answered like this.
pub open spec fn saved<V: Key, C, R, S: RuntimeStateStore<V>, E, N>(
    before: SettingView<V, C, R, S, E, N>,
    outcome: std::result::Result<(), ErrorView>,
    after: SettingView<V, C, R, S, E, N>,
) -> bool {
    let state = before.state.snapshot();
    &&& after == (SettingView { store: after.store, ..before })
    &&& before.store.saves(state, outcome, &after.store)
    &&& outcome is Ok ==> after.store.persisted() == Some(state)
}

/// The state was handed to the store where it changed, and the store took it.
pub open spec fn saved_if<V: Key, C, R, S: RuntimeStateStore<V>, E, N>(
    before: SettingView<V, C, R, S, E, N>,
    changed: bool,
    after: SettingView<V, C, R, S, E, N>,
) -> bool {
    if changed {
        saved(before, Ok(()), after)
    } else {
        after == before
    }
}

/// The state machine or the listener got a decision, and answered like this.
pub open spec fn performed<V, C, R, S, E: StateMachine<V>, N: ClientNotifier<V>>(
    before: SettingView<V, C, R, S, E, N>,
    delivery: DeliveryView<V>,
    outcome: std::result::Result<(), ErrorView>,
    after: SettingView<V, C, R, S, E, N>,
) -> bool {
    match delivery {
        DeliveryView::Execute(decision) => {
            &&& after == (SettingView { machine: after.machine, ..before })
            &&& before.machine.executes(decision, outcome, &after.machine)
        },
        DeliveryView::Notify(decision) => {
            &&& after == (SettingView { listener: after.listener, ..before })
            &&& before.listener.tells(decision, outcome, &after.listener)
        },
    }
}

/// The first delivery that is due was made, and is remembered durably; or it
/// failed, and is due as before.
#[verifier::opaque]
pub open spec fn delivered<
    V: Key,
    C,
    R,
    S: RuntimeStateStore<V>,
    E: StateMachine<V>,
    N: ClientNotifier<V>,
>(
    before: SettingView<V, C, R, S, E, N>,
    outcome: std::result::Result<(), ErrorView>,
    after: SettingView<V, C, R, S, E, N>,
) -> bool {
    match before.state.next_delivery() {
        None => false,
        Some(delivery) => {
            let met = SettingView { machine: after.machine, listener: after.listener, ..before };
            ||| outcome is Err && after == met && performed(before, delivery, outcome, met)
            ||| performed(before, delivery, Ok(()), met) && saved(
                SettingView { state: before.state.delivered(delivery), ..met },
                outcome,
                after,
            )
        },
    }
}

/// Each setting comes from the one before it by a delivery.
pub open spec fn deliveries<
    V: Key,
    C,
    R,
    S: RuntimeStateStore<V>,
    E: StateMachine<V>,
    N: ClientNotifier<V>,
>(
    settings: Seq<SettingView<V, C, R, S, E, N>>,
) -> bool {
    &&& settings.len() > 0
    &&& forall|i: int|
        1 <= i < settings.len() ==> delivered(settings[i - 1], Ok(()), #[trigger] settings[i])
}

/// The decisions that the listener was told along the way.
pub open spec fn told_along<V: Key, C, R, S, E, N>(
    settings: Seq<SettingView<V, C, R, S, E, N>>,
) -> Seq<DecisionView<V>>
    decreases settings.len(),
{
    if settings.len() <= 1 {
        Seq::empty()
    } else {
        let rest = settings.drop_last();
        match rest.last().state.next_delivery() {
            Some(DeliveryView::Notify(decision)) => told_along(rest).push(decision),
            _ => told_along(rest),
        }
    }
}

/// All that is due was delivered, one delivery at a time, up to the first that
/// failed.
pub open spec fn all_delivered<
    V: Key,
    C,
    R,
    S: RuntimeStateStore<V>,
    E: StateMachine<V>,
    N: ClientNotifier<V>,
>(
    before: SettingView<V, C, R, S, E, N>,
    outcome: std::result::Result<Seq<DecisionView<V>>, ErrorView>,
    after: SettingView<V, C, R, S, E, N>,
) -> bool {
    exists|settings: Seq<SettingView<V, C, R, S, E, N>>|
        {
            &&& #[trigger] deliveries(settings)
            &&& settings[0] == before
            &&& match outcome {
                Ok(told) => {
                    &&& after == settings.last()
                    &&& after.state.next_delivery() is None
                    &&& told == told_along(settings)
                },
                Err(refusal) => delivered(settings.last(), Err(refusal), after),
            }
        }
}

/// The committed slots were counted for the leaders, that is remembered durably
/// where it changes anything, and all that is due was delivered.
pub open spec fn dispatched<
    V: Key,
    C,
    R,
    S: RuntimeStateStore<V>,
    E: StateMachine<V>,
    N: ClientNotifier<V>,
>(
    before: SettingView<V, C, R, S, E, N>,
    outcome: std::result::Result<Seq<DecisionView<V>>, ErrorView>,
    after: SettingView<V, C, R, S, E, N>,
) -> bool {
    let (noted, changed) = before.state.note_committed();
    let start = SettingView { state: noted, ..before };
    match changed {
        Err(refusal) => after == start && outcome == Err::<Seq<DecisionView<V>>, ErrorView>(
            refusal,
        ),
        Ok(changed) => {
            ||| changed && outcome is Err && saved(start, Err(outcome->Err_0), after)
            ||| exists|kept: SettingView<V, C, R, S, E, N>| #[trigger]
                saved_if(start, changed, kept) && all_delivered(kept, outcome, after)
        },
    }
}

/// An endpoint was handed a decision, and answered like this.
pub open spec fn informed<V, C: RecorderClient<V>>(
    before: RecorderHandle<C>,
    decision: DecisionView<V>,
    outcome: std::result::Result<(), ErrorView>,
    after: RecorderHandle<C>,
) -> bool {
    &&& after.identity() == before.identity()
    &&& after.busy() == before.busy()
    &&& if before.busy() {
        after == before && outcome == Err::<(), ErrorView>(
            proposer::busy_endpoint(before.identity()),
        )
    } else {
        before.endpoint().informs(seq![decision], outcome, &after.endpoint())
    }
}

/// The endpoint at a position was handed the decision of a slot, unless it has
/// acknowledged it; whether it does now is remembered.
pub open spec fn offered<V: Key, C: RecorderClient<V>, R, S, E, N>(
    before: SettingView<V, C, R, S, E, N>,
    slot: SlotIndex,
    position: int,
    after: SettingView<V, C, R, S, E, N>,
) -> bool {
    let member = before.endpoints[position].identity();
    if before.state.is_announced(slot, member) {
        after == before
    } else {
        exists|outcome: std::result::Result<(), ErrorView>|
            {
                &&& #[trigger] informed(
                    before.endpoints[position],
                    before.state.decisions[slot],
                    outcome,
                    after.endpoints[position],
                )
                &&& after == (SettingView {
                    endpoints: before.endpoints.update(position, after.endpoints[position]),
                    state: if outcome is Ok {
                        before.state.announced(slot, member)
                    } else {
                        before.state
                    },
                    ..before
                })
            }
    }
}

/// Each setting comes from the one before it by offering the decision of a slot
/// to the next endpoint.
pub open spec fn offers<V: Key, C: RecorderClient<V>, R, S, E, N>(
    settings: Seq<SettingView<V, C, R, S, E, N>>,
    slot: SlotIndex,
) -> bool {
    &&& settings.len() > 0
    &&& forall|i: int|
        1 <= i < settings.len() ==> offered(settings[i - 1], slot, i - 1, #[trigger] settings[i])
}

/// The decision of a slot was offered to every endpoint, in order.
pub open spec fn spread<V: Key, C: RecorderClient<V>, R, S, E, N>(
    before: SettingView<V, C, R, S, E, N>,
    slot: SlotIndex,
    after: SettingView<V, C, R, S, E, N>,
) -> bool {
    exists|settings: Seq<SettingView<V, C, R, S, E, N>>|
        {
            &&& #[trigger] offers(settings, slot)
            &&& settings.len() == before.endpoints.len() + 1
            &&& settings[0] == before
            &&& settings.last() == after
        }
}

/// Each setting comes from the one before it by spreading the decision of the
/// next slot.
pub open spec fn spreads<V: Key, C: RecorderClient<V>, R, S, E, N>(
    settings: Seq<SettingView<V, C, R, S, E, N>>,
    slots: Seq<SlotIndex>,
) -> bool {
    &&& 0 < settings.len() <= slots.len() + 1
    &&& forall|i: int|
        1 <= i < settings.len() ==> spread(settings[i - 1], slots[i - 1], #[trigger] settings[i])
}

/// Every endpoint was offered every decision, in slot order, that it has not
/// acknowledged; what was acknowledged is remembered durably.
pub open spec fn flushed<V: Key, C: RecorderClient<V>, R, S: RuntimeStateStore<V>, E, N>(
    before: SettingView<V, C, R, S, E, N>,
    outcome: std::result::Result<(), ErrorView>,
    after: SettingView<V, C, R, S, E, N>,
) -> bool {
    let slots = collections::in_order(before.state.decisions.dom());
    exists|settings: Seq<SettingView<V, C, R, S, E, N>>|
        {
            &&& #[trigger] spreads(settings, slots)
            &&& settings.len() == slots.len() + 1
            &&& settings[0] == before
            &&& if settings.last().state == before.state {
                after == settings.last() && outcome is Ok
            } else {
                saved(settings.last(), outcome, after)
            }
        }
}

/// What is committed was delivered, then what is decided was spread.
pub open spec fn caught_up<
    V: Key,
    C: RecorderClient<V>,
    R,
    S: RuntimeStateStore<V>,
    E: StateMachine<V>,
    N: ClientNotifier<V>,
>(
    before: SettingView<V, C, R, S, E, N>,
    outcome: std::result::Result<Seq<DecisionView<V>>, ErrorView>,
    after: SettingView<V, C, R, S, E, N>,
) -> bool {
    ||| outcome is Err && dispatched(before, outcome, after)
    ||| exists|told: Seq<DecisionView<V>>, done: SettingView<V, C, R, S, E, N>|
        {
            &&& #[trigger] dispatched(before, Ok(told), done)
            &&& match outcome {
                Ok(list) => list == told && flushed(done, Ok(()), after),
                Err(refusal) => flushed(done, Err(refusal), after),
            }
        }
}

/// A decision was taken in: refused, covered by a checkpoint, or remembered
/// durably before anything is delivered.
pub open spec fn received<
    V: Key,
    C: RecorderClient<V>,
    R,
    S: RuntimeStateStore<V>,
    E: StateMachine<V>,
    N: ClientNotifier<V>,
>(
    before: SettingView<V, C, R, S, E, N>,
    decision: DecisionView<V>,
    outcome: std::result::Result<Seq<DecisionView<V>>, ErrorView>,
    after: SettingView<V, C, R, S, E, N>,
) -> bool {
    let (accepted, acceptance) = before.state.accept(decision);
    let start = SettingView { state: accepted, ..before };
    match acceptance {
        Err(refusal) => after == start && outcome == Err::<Seq<DecisionView<V>>, ErrorView>(
            refusal,
        ),
        Ok(Acceptance::Checkpointed) => after == start && outcome == Ok::<
            Seq<DecisionView<V>>,
            ErrorView,
        >(Seq::empty()),
        Ok(Acceptance::Known) => caught_up(start, outcome, after),
        Ok(Acceptance::New) => {
            ||| outcome is Err && saved(start, Err(outcome->Err_0), after)
            ||| exists|kept: SettingView<V, C, R, S, E, N>| #[trigger]
                saved(start, Ok(()), kept) && caught_up(kept, outcome, after)
        },
    }
}

/// The slots through one were dropped, once every member has acknowledged their
/// decisions.
pub open spec fn pruned<V: Key, C: RecorderClient<V>, R, S: RuntimeStateStore<V>, E, N>(
    before: SettingView<V, C, R, S, E, N>,
    slot: SlotIndex,
    outcome: std::result::Result<(), ErrorView>,
    after: SettingView<V, C, R, S, E, N>,
) -> bool {
    ||| outcome is Err && flushed(before, outcome, after)
    ||| exists|told: SettingView<V, C, R, S, E, N>|
        {
            &&& #[trigger] flushed(before, Ok(()), told)
            &&& match told.state.checkpoint_error(slot) {
                Some(refusal) => after == told && outcome == Err::<(), ErrorView>(refusal),
                None => saved(
                    SettingView { state: told.state.checkpointed(slot), ..told },
                    outcome,
                    after,
                ),
            }
        }
}

/// The application state was exported and the slots that it covers dropped; a
/// transfer holds both.
pub open spec fn handed_over<
    V: Key,
    C: RecorderClient<V>,
    R,
    S: RuntimeStateStore<V>,
    E: StateMachine<V>,
    N,
>(
    before: SettingView<V, C, R, S, E, N>,
    slot: SlotIndex,
    outcome: std::result::Result<TransferView<V>, ErrorView>,
    after: SettingView<V, C, R, S, E, N>,
) -> bool {
    match before.state.floor_error(slot) {
        Some(refusal) => after == before && outcome == Err::<TransferView<V>, ErrorView>(refusal),
        None => {
            ||| outcome is Err && flushed(before, Err(outcome->Err_0), after)
            ||| exists|told: SettingView<V, C, R, S, E, N>|
                {
                    &&& #[trigger] flushed(before, Ok(()), told)
                    &&& match told.state.announcement_error(slot) {
                        Some(refusal) => after == told && outcome == Err::<
                            TransferView<V>,
                            ErrorView,
                        >(refusal),
                        None => exported_and_pruned(told, slot, outcome, after),
                    }
                }
        },
    }
}

/// The application state was exported, then the slots that it covers dropped.
pub open spec fn exported_and_pruned<
    V: Key,
    C: RecorderClient<V>,
    R,
    S: RuntimeStateStore<V>,
    E: StateMachine<V>,
    N,
>(
    before: SettingView<V, C, R, S, E, N>,
    slot: SlotIndex,
    outcome: std::result::Result<TransferView<V>, ErrorView>,
    after: SettingView<V, C, R, S, E, N>,
) -> bool {
    exists|checkpoint: std::result::Result<Seq<u8>, ErrorView>, machine: E|
        {
            let left = SettingView { machine, ..before };
            &&& #[trigger] before.machine.exports(slot, checkpoint, &machine)
            &&& match (checkpoint, outcome) {
                (Err(refusal), _) => after == left && outcome == Err::<TransferView<V>, ErrorView>(
                    refusal,
                ),
                (Ok(_), Err(refusal)) => pruned(left, slot, Err(refusal), after),
                (Ok(bytes), Ok(transfer)) => {
                    &&& pruned(left, slot, Ok(()), after)
                    &&& transfer == (TransferView {
                        through: slot,
                        checkpointed_value_ids: collections::in_order(
                            before.state.covered_values(slot),
                        ),
                        application_checkpoint: bytes,
                        runtime: after.state.snapshot(),
                    })
                },
            }
        }
}

/// The application state of a transfer was imported, then its consensus state
/// made durable and taken up.
pub open spec fn taken_up<V: Key, C, R, S: RuntimeStateStore<V>, E: StateMachine<V>, N>(
    before: SettingView<V, C, R, S, E, N>,
    transfer: TransferView<V>,
    outcome: std::result::Result<(), ErrorView>,
    after: SettingView<V, C, R, S, E, N>,
) -> bool {
    match before.state.install_transfer(transfer) {
        Err(refusal) => after == before && outcome == Err::<(), ErrorView>(refusal),
        Ok(next) => {
            ||| {
                &&& outcome is Err
                &&& after == (SettingView { machine: after.machine, ..before })
                &&& before.machine.imports(
                    transfer.through,
                    transfer.application_checkpoint,
                    outcome,
                    &after.machine,
                )
            }
            ||| {
                &&& before.machine.imports(
                    transfer.through,
                    transfer.application_checkpoint,
                    Ok(()),
                    &after.machine,
                )
                &&& before.store.saves(transfer.runtime, outcome, &after.store)
                &&& outcome is Ok ==> after.store.persisted() == Some(transfer.runtime)
                &&& after == (SettingView {
                    state: if outcome is Ok {
                        next
                    } else {
                        before.state
                    },
                    store: after.store,
                    machine: after.machine,
                    ..before
                })
            }
        },
    }
}

/// A schedule was refused, found installed, or installed durably.
pub open spec fn scheduled<V: Key, C, R, S: RuntimeStateStore<V>, E, N>(
    before: SettingView<V, C, R, S, E, N>,
    schedule: ScheduleView,
    outcome: std::result::Result<(), ErrorView>,
    after: SettingView<V, C, R, S, E, N>,
) -> bool {
    let (state, installed) = before.state.install_schedule(schedule);
    let start = SettingView { state, ..before };
    match installed {
        Err(refusal) => after == start && outcome == Err::<(), ErrorView>(refusal),
        Ok(false) => after == start && outcome is Ok,
        Ok(true) => saved(start, outcome, after),
    }
}

/// Proposals were armed, that is remembered durably, and they got deadlines.
pub open spec fn armed<V: Key, C, R, S: RuntimeStateStore<V>, E, N>(
    before: SettingView<V, C, R, S, E, N>,
    now: Span,
    outcome: std::result::Result<nat, ErrorView>,
    after: SettingView<V, C, R, S, E, N>,
) -> bool {
    let (armed, changed) = before.state.arm();
    let start = SettingView { state: armed, ..before };
    let kept = SettingView { store: after.store, ..start };
    let (timed, done) = armed.assign_deadlines(now);
    match changed {
        Err(refusal) => after == start && outcome == Err::<nat, ErrorView>(refusal),
        Ok(changed) => {
            ||| changed && outcome is Err && saved(start, Err(outcome->Err_0), after)
            ||| {
                &&& saved_if(start, changed, kept)
                &&& after == (SettingView { state: timed, ..kept })
                &&& outcome == match done {
                    Ok(()) => Ok(timed.pending.dom().len()),
                    Err(refusal) => Err(refusal),
                }
            }
        },
    }
}

/// An idle endpoint was asked for the step of a slot; this is what it reported.
/// A busy one is left alone.
pub open spec fn asked<V, C: RecorderClient<V>>(
    before: RecorderHandle<C>,
    slot: SlotIndex,
    found: Option<Step>,
    after: RecorderHandle<C>,
) -> bool {
    &&& after.identity() == before.identity()
    &&& after.busy() == before.busy()
    &&& if before.busy() {
        after == before && found is None
    } else {
        exists|reply: std::result::Result<Option<Step>, ErrorView>|
            {
                &&& #[trigger] before.endpoint().reports(slot, reply, &after.endpoint())
                &&& found == match reply {
                    Ok(step) => step,
                    Err(_) => None,
                }
            }
    }
}

/// Every endpoint was asked for the step of a slot.
pub open spec fn all_asked<V, C: RecorderClient<V>>(
    before: Seq<RecorderHandle<C>>,
    slot: SlotIndex,
    found: Seq<Option<Step>>,
    after: Seq<RecorderHandle<C>>,
) -> bool {
    &&& found.len() == before.len()
    &&& after.len() == before.len()
    &&& forall|i: int|
        0 <= i < found.len() ==> asked::<V, C>(before[i], slot, #[trigger] found[i], after[i])
}

/// The highest step that was reported.
pub open spec fn highest_step(found: Seq<Option<Step>>) -> Option<Step>
    decreases found.len(),
{
    if found.len() == 0 {
        None
    } else {
        let rest = highest_step(found.drop_last());
        match (rest, found.last()) {
            (Some(held), Some(step)) => if step.0 > held.0 {
                Some(step)
            } else {
                Some(held)
            },
            (Some(held), None) => Some(held),
            (None, step) => step,
        }
    }
}

/// The endpoints were probed for the step of a slot.
pub open spec fn probed<V: Key, C: RecorderClient<V>, R, S, E, N>(
    before: SettingView<V, C, R, S, E, N>,
    slot: SlotIndex,
    highest: Option<Step>,
    after: SettingView<V, C, R, S, E, N>,
) -> bool {
    &&& after == (SettingView { endpoints: after.endpoints, ..before })
    &&& exists|found: Seq<Option<Step>>| #[trigger]
        all_asked::<V, C>(before.endpoints, slot, found, after.endpoints) && highest
            == highest_step(found)
}

/// The proposal that is due first was put off, because the endpoints report
/// that another proposer drives its slot.
pub open spec fn put_off<V: Key, C: RecorderClient<V>, R, S, E, N>(
    before: SettingView<V, C, R, S, E, N>,
    now: Span,
    after: SettingView<V, C, R, S, E, N>,
) -> bool {
    match before.state.next_deadline() {
        None => false,
        Some((slot, due)) => {
            let (state, schedule) = before.state.schedule_for(slot);
            &&& due.nanos <= now.nanos
            &&& schedule matches Ok(schedule) && state.hedges(schedule)
            &&& exists|highest: Option<Step>|
                {
                    &&& #[trigger] probed(
                        SettingView { state, ..before },
                        slot,
                        highest,
                        SettingView { state, ..after },
                    )
                    &&& state.defer(slot, highest, now) == (after.state, true)
                }
        },
    }
}

/// Each setting comes from the one before it by putting a proposal off.
pub open spec fn deferrals<V: Key, C: RecorderClient<V>, R, S, E, N>(
    settings: Seq<SettingView<V, C, R, S, E, N>>,
    now: Span,
) -> bool {
    &&& settings.len() > 0
    &&& forall|i: int|
        1 <= i < settings.len() ==> put_off(settings[i - 1], now, #[trigger] settings[i])
}

/// What is to be done next was found out: nothing, to wait, or to propose, which
/// no other proposer keeps the runtime from.
pub open spec fn turned<V: Key, C: RecorderClient<V>, R, S, E, N>(
    before: SettingView<V, C, R, S, E, N>,
    now: Span,
    outcome: std::result::Result<PollView<V>, ErrorView>,
    after: SettingView<V, C, R, S, E, N>,
) -> bool {
    match before.state.next_deadline() {
        None => after == before && outcome == Ok::<PollView<V>, ErrorView>(PollView::Idle),
        Some((slot, due)) => if due.nanos > now.nanos {
            after == before && outcome == Ok::<PollView<V>, ErrorView>(
                PollView::Waiting { slot, until: due },
            )
        } else {
            let (state, schedule) = before.state.schedule_for(slot);
            let start = SettingView { state, ..before };
            match schedule {
                Err(refusal) => after == start && outcome == Err::<PollView<V>, ErrorView>(refusal),
                Ok(schedule) => {
                    &&& outcome == Ok::<PollView<V>, ErrorView>(
                        PollView::Propose {
                            slot,
                            value_ids: state.pending[slot].value_ids,
                            leader: schedule.leader(),
                        },
                    )
                    &&& if state.hedges(schedule) {
                        exists|highest: Option<Step>| #[trigger]
                            probed(start, slot, highest, after) && !state.defer(
                                slot,
                                highest,
                                now,
                            ).1
                    } else {
                        after == start
                    }
                },
            }
        },
    }
}

/// What is decided was spread, proposals were armed, those that others drive
/// put off, and what is to be done next found out.
pub open spec fn polled<V: Key, C: RecorderClient<V>, R, S: RuntimeStateStore<V>, E, N>(
    before: SettingView<V, C, R, S, E, N>,
    now: Span,
    outcome: std::result::Result<PollView<V>, ErrorView>,
    after: SettingView<V, C, R, S, E, N>,
) -> bool {
    ||| outcome is Err && flushed(before, Err(outcome->Err_0), after)
    ||| exists|told: SettingView<V, C, R, S, E, N>| #[trigger]
        flushed(before, Ok(()), told) && went_on(told, now, outcome, after)
}

/// Proposals were armed, those that others drive put off, and what is to be done
/// next found out.
pub open spec fn went_on<V: Key, C: RecorderClient<V>, R, S: RuntimeStateStore<V>, E, N>(
    before: SettingView<V, C, R, S, E, N>,
    now: Span,
    outcome: std::result::Result<PollView<V>, ErrorView>,
    after: SettingView<V, C, R, S, E, N>,
) -> bool {
    ||| outcome is Err && armed(before, now, Err(outcome->Err_0), after)
    ||| exists|settings: Seq<SettingView<V, C, R, S, E, N>>|
        {
            &&& #[trigger] deferrals(settings, now)
            &&& armed(before, now, Ok(settings[0].state.pending.dom().len()), settings[0])
            &&& turned(settings.last(), now, outcome, after)
        }
}

/// An endpoint was handed a membership change, and answered like this.
pub open spec fn installed_at<V, C: RecorderClient<V>>(
    before: RecorderHandle<C>,
    change: MembershipChangeView<V>,
    outcome: std::result::Result<(), ErrorView>,
    after: RecorderHandle<C>,
) -> bool {
    &&& after.identity() == before.identity()
    &&& after.busy() == before.busy()
    &&& if before.busy() {
        after == before && outcome == Err::<(), ErrorView>(
            proposer::busy_endpoint(before.identity()),
        )
    } else {
        before.endpoint().installs(change, outcome, &after.endpoint())
    }
}

/// The first endpoints were handed a membership change, and all took it.
pub open spec fn handed_on<V, C: RecorderClient<V>>(
    before: Seq<RecorderHandle<C>>,
    change: MembershipChangeView<V>,
    after: Seq<RecorderHandle<C>>,
) -> bool {
    &&& after.len() <= before.len()
    &&& forall|i: int|
        0 <= i < after.len() ==> installed_at(before[i], change, Ok(()), #[trigger] after[i])
}

/// A membership change was handed to the endpoints of the next membership, in
/// order, and activated once all had taken it and it was durable.
pub open spec fn activated<V: Key, C: RecorderClient<V>, R, S: RuntimeStateStore<V>, E, N>(
    before: SettingView<V, C, R, S, E, N>,
    change: MembershipChangeView<V>,
    next: Seq<RecorderHandle<C>>,
    outcome: std::result::Result<(), ErrorView>,
    after: SettingView<V, C, R, S, E, N>,
) -> bool {
    exists|handed: Seq<RecorderHandle<C>>|
        {
            let moved = SettingView {
                state: before.state.with_membership(change.next, change.anchor.slot),
                proposer: ProposerView {
                    quorum: Some(change.next.quorum_size() as usize),
                    cluster: Some(change.next),
                    ..before.proposer
                },
                endpoints: handed,
                ..before
            };
            &&& #[trigger] handed_on(next, change, handed)
            &&& if handed.len() < next.len() {
                &&& after == before
                &&& outcome is Err
                &&& exists|refusing: RecorderHandle<C>| #[trigger]
                    installed_at(next[handed.len() as int], change, outcome, refusing)
            } else {
                &&& saved(moved, outcome, SettingView { store: after.store, ..moved })
                &&& after == if outcome is Ok {
                    SettingView { store: after.store, ..moved }
                } else {
                    SettingView { store: after.store, ..before }
                }
            }
        }
}

/// A membership change was refused, found installed, or activated after every
/// member has acknowledged what was decided through its anchor.
pub open spec fn reconfigured<V: Key, C: RecorderClient<V>, R, S: RuntimeStateStore<V>, E, N>(
    before: SettingView<V, C, R, S, E, N>,
    change: MembershipChangeView<V>,
    next: Seq<RecorderHandle<C>>,
    outcome: std::result::Result<(), ErrorView>,
    after: SettingView<V, C, R, S, E, N>,
) -> bool {
    let refusal = runtime_state::next_handles_error(round::handle_ids(next), change.next.members);
    match before.state.plan_membership(change) {
        Err(refusal) => after == before && outcome == Err::<(), ErrorView>(refusal),
        Ok(true) => match refusal {
            Some(refusal) => after == before && outcome == Err::<(), ErrorView>(refusal),
            None => after == (SettingView { endpoints: next, ..before }) && outcome is Ok,
        },
        Ok(false) => {
            ||| outcome is Err && flushed(before, outcome, after)
            ||| exists|told: SettingView<V, C, R, S, E, N>|
                {
                    &&& #[trigger] flushed(before, Ok(()), told)
                    &&& if told.state.announcement_error(change.anchor.slot) is Some {
                        after == told && outcome == Err::<(), ErrorView>(
                            told.state.announcement_error(change.anchor.slot)->0,
                        )
                    } else if refusal is Some {
                        after == told && outcome == Err::<(), ErrorView>(refusal->0)
                    } else {
                        activated(told, change, next, outcome, after)
                    }
                }
        },
    }
}

/// After any delivery the runtime is durable as it is.
pub proof fn deliveries_are_durable<
    V: Key,
    C,
    R,
    S: RuntimeStateStore<V>,
    E: StateMachine<V>,
    N: ClientNotifier<V>,
>(settings: Seq<SettingView<V, C, R, S, E, N>>)
    requires
        deliveries(settings),
        settings.len() > 1,
    ensures
        settings.last().store.persisted() == Some(settings.last().state.snapshot()),
{
    reveal(delivered);
    let last = settings.len() - 1;
    assert(delivered(settings[last - 1], Ok(()), settings[last]));
}

proof fn lemma_delivery_is_of_executed<V>(state: RuntimeView<V>, slots: Seq<SlotIndex>)
    ensures
        state.first_delivery(slots) matches Some(DeliveryView::Notify(decision))
            ==> state.executed.contains(decision.slot),
    decreases slots.len(),
{
    if slots.len() > 0 {
        lemma_delivery_is_of_executed(state, slots.drop_last());
    }
}

/// The listener hears of a decision only after the state machine has executed
/// it.
pub proof fn clients_hear_of_executed_decisions<
    V: Key,
    C,
    R,
    S: RuntimeStateStore<V>,
    E: StateMachine<V>,
    N: ClientNotifier<V>,
>(
    settings: Seq<SettingView<V, C, R, S, E, N>>,
    i: int,
)
    requires
        deliveries(settings),
        0 <= i < told_along(settings).len(),
    ensures
        settings.last().state.executed.contains(told_along(settings)[i].slot),
    decreases settings.len(),
{
    reveal(delivered);
    let rest = settings.drop_last();
    let last = settings.len() - 1;
    assert(delivered(settings[last - 1], Ok(()), settings[last]));
    assert(rest.last() == settings[last - 1]);
    assert forall|k: int| 1 <= k < rest.len() implies delivered(
        rest[k - 1],
        Ok(()),
        #[trigger] rest[k],
    ) by {
        assert(rest[k] == settings[k]);
    }
    let state = rest.last().state;
    lemma_delivery_is_of_executed(state, collections::in_order(state.decisions.dom()));
    if i < told_along(rest).len() {
        clients_hear_of_executed_decisions(rest, i);
    }
}

/// Whether an endpoint of a member acknowledged a decision.
pub open spec fn acknowledged<V, C: RecorderClient<V>>(
    member: ReplicaId,
    decision: DecisionView<V>,
) -> bool {
    exists|
        before: RecorderHandle<C>,
        outcome: std::result::Result<(), ErrorView>,
        after: RecorderHandle<C>,
    |
        {
            &&& before.identity() == member
            &&& outcome is Ok
            &&& #[trigger] informed(before, decision, outcome, after)
        }
}

/// Whether every acknowledgement that is remembered more was given.
pub open spec fn earned<V: Key, C: RecorderClient<V>, R, S, E, N>(
    before: SettingView<V, C, R, S, E, N>,
    after: SettingView<V, C, R, S, E, N>,
) -> bool {
    &&& after.state == (RuntimeView { announced_to: after.state.announced_to, ..before.state })
    &&& forall|slot: SlotIndex, member: ReplicaId| #[trigger]
        after.state.is_announced(slot, member) ==> before.state.is_announced(slot, member)
            || acknowledged::<V, C>(member, before.state.decisions[slot])
}

proof fn lemma_offers_are_earned<V: Key, C: RecorderClient<V>, R, S, E, N>(
    settings: Seq<SettingView<V, C, R, S, E, N>>,
    slot: SlotIndex,
    n: int,
)
    requires
        offers(settings, slot),
        0 <= n < settings.len(),
    ensures
        earned(settings[0], settings[n]),
    decreases n,
{
    if n > 0 {
        lemma_offers_are_earned(settings, slot, n - 1);
        let before = settings[n - 1];
        let after = settings[n];
        assert(offered(before, slot, n - 1, after));
        assert forall|other: SlotIndex, member: ReplicaId| #[trigger]
            after.state.is_announced(other, member) implies settings[0].state.is_announced(
            other,
            member,
        ) || acknowledged::<V, C>(member, settings[0].state.decisions[other]) by {
            if !before.state.is_announced(other, member) {
                let outcome = choose|outcome: std::result::Result<(), ErrorView>|
                    {
                        &&& #[trigger] informed(
                            before.endpoints[n - 1],
                            before.state.decisions[slot],
                            outcome,
                            after.endpoints[n - 1],
                        )
                        &&& after.state == if outcome is Ok {
                            before.state.announced(slot, before.endpoints[n - 1].identity())
                        } else {
                            before.state
                        }
                    };
                assert(!before.state.is_announced(slot, before.endpoints[n - 1].identity()));
                assert(outcome is Ok);
                assert(other == slot && member == before.endpoints[n - 1].identity());
            }
        }
    }
}

proof fn lemma_spreads_are_earned<V: Key, C: RecorderClient<V>, R, S, E, N>(
    settings: Seq<SettingView<V, C, R, S, E, N>>,
    slots: Seq<SlotIndex>,
    n: int,
)
    requires
        spreads(settings, slots),
        0 <= n < settings.len(),
    ensures
        earned(settings[0], settings[n]),
    decreases n,
{
    if n > 0 {
        lemma_spreads_are_earned(settings, slots, n - 1);
        let before = settings[n - 1];
        let after = settings[n];
        assert(spread(before, slots[n - 1], after));
        let steps = choose|steps: Seq<SettingView<V, C, R, S, E, N>>|
            {
                &&& #[trigger] offers(steps, slots[n - 1])
                &&& steps.len() == before.endpoints.len() + 1
                &&& steps[0] == before
                &&& steps.last() == after
            };
        lemma_offers_are_earned(steps, slots[n - 1], steps.len() - 1);
        assert(earned(before, after));
        assert forall|other: SlotIndex, member: ReplicaId| #[trigger]
            after.state.is_announced(other, member) implies settings[0].state.is_announced(
            other,
            member,
        ) || acknowledged::<V, C>(member, settings[0].state.decisions[other]) by {
            if before.state.is_announced(other, member) {
            }
        }
    }
}

/// A member counts as having acknowledged a decision only where its endpoint
/// did.
pub proof fn acknowledgements_are_earned<
    V: Key,
    C: RecorderClient<V>,
    R,
    S: RuntimeStateStore<V>,
    E,
    N,
>(
    before: SettingView<V, C, R, S, E, N>,
    outcome: std::result::Result<(), ErrorView>,
    after: SettingView<V, C, R, S, E, N>,
)
    requires
        flushed(before, outcome, after),
    ensures
        earned(before, after),
{
    let slots = collections::in_order(before.state.decisions.dom());
    let settings = choose|settings: Seq<SettingView<V, C, R, S, E, N>>|
        {
            &&& #[trigger] spreads(settings, slots)
            &&& settings.len() == slots.len() + 1
            &&& settings[0] == before
            &&& if settings.last().state == before.state {
                after == settings.last() && outcome is Ok
            } else {
                saved(settings.last(), outcome, after)
            }
        };
    lemma_spreads_are_earned(settings, slots, settings.len() - 1);
    assert(after.state == settings.last().state);
}

/// Slots are dropped only once every member has acknowledged their decisions,
/// earlier or on this occasion.
pub proof fn dropped_decisions_were_acknowledged<
    V: Key,
    C: RecorderClient<V>,
    R,
    S: RuntimeStateStore<V>,
    E,
    N,
>(
    before: SettingView<V, C, R, S, E, N>,
    through: SlotIndex,
    after: SettingView<V, C, R, S, E, N>,
    slot: SlotIndex,
    member: ReplicaId,
)
    requires
        pruned(before, through, Ok(()), after),
        before.state.decisions.dom().contains(slot),
        slot.0 <= through.0,
        before.state.members().contains(member),
    ensures
        before.state.is_announced(slot, member) || acknowledged::<V, C>(
            member,
            before.state.decisions[slot],
        ),
{
    let told = choose|told: SettingView<V, C, R, S, E, N>|
        {
            &&& #[trigger] flushed(before, Ok(()), told)
            &&& match told.state.checkpoint_error(through) {
                Some(_) => false,
                None => saved(
                    SettingView { state: told.state.checkpointed(through), ..told },
                    Ok(()),
                    after,
                ),
            }
        };
    acknowledgements_are_earned(before, Ok(()), told);
    assert(told.state.announcement_error(through) is None);
    assert(told.state.decisions.dom().contains(slot));
    assert(told.state.fully_announced(slot));
    assert(told.state.is_announced(slot, member));
}

} // verus!
