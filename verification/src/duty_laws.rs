//! What a runtime has done once a call has succeeded: what is durable, what was
//! delivered, who was told, and who installed what.

use crate::cluster::MembershipChangeView;
use crate::collections;
use crate::error::ErrorView;
use crate::key::Key;
use crate::pipeline_laws;
use crate::proposer::{RecorderClient, RecorderHandle};
use crate::runtime;
use crate::runtime::{ClientNotifier, RuntimeStateStore, StateMachine};
use crate::runtime_course;
use crate::runtime_course::SettingView;
use crate::runtime_state::{RuntimeView, TransferView};
use crate::types::{DecisionView, ReplicaId, SlotIndex};
use vstd::prelude::*;

verus! {

/// The store holds the runtime's state as it is.
pub open spec fn is_durable<V: Key, C, R, S: RuntimeStateStore<V>, E, N>(
    setting: SettingView<V, C, R, S, E, N>,
) -> bool {
    setting.store.persisted() == Some(setting.state.snapshot())
}

/// Whether an endpoint of a member was handed a decision and refused it.
pub open spec fn refused<V, C: RecorderClient<V>>(
    member: ReplicaId,
    decision: DecisionView<V>,
) -> bool {
    exists|
        before: RecorderHandle<C>,
        outcome: std::result::Result<(), ErrorView>,
        after: RecorderHandle<C>,
    |
        {
            &&& before.identity() == member
            &&& outcome is Err
            &&& #[trigger] runtime_course::informed(before, decision, outcome, after)
        }
}

proof fn lemma_nothing_noted<V>(view: RuntimeView<V>, slots: Seq<SlotIndex>)
    ensures
        view.note_slots(slots).1 == Ok::<bool, ErrorView>(false) ==> view.note_slots(slots).0
            == view,
        view.note_slots(slots).0 == (RuntimeView { tuner: view.note_slots(slots).0.tuner, ..view }),
    decreases slots.len(),
{
    if slots.len() > 0 {
        lemma_nothing_noted(view, slots.drop_last());
    }
}

proof fn lemma_deliveries_keep<
    V: Key,
    C,
    R,
    S: RuntimeStateStore<V>,
    E: StateMachine<V>,
    N: ClientNotifier<V>,
>(settings: Seq<SettingView<V, C, R, S, E, N>>, n: int)
    requires
        runtime_course::deliveries(settings),
        0 <= n < settings.len(),
        is_durable(settings[0]),
    ensures
        is_durable(settings[n]),
        settings[n].state == (RuntimeView {
            executed: settings[n].state.executed,
            notified: settings[n].state.notified,
            ..settings[0].state
        }),
    decreases n,
{
    reveal(runtime_course::delivered);
    if n > 0 {
        lemma_deliveries_keep(settings, n - 1);
        assert(runtime_course::delivered(settings[n - 1], Ok(()), settings[n]));
    }
}

proof fn lemma_dispatching_keeps<
    V: Key,
    C,
    R,
    S: RuntimeStateStore<V>,
    E: StateMachine<V>,
    N: ClientNotifier<V>,
>(
    before: SettingView<V, C, R, S, E, N>,
    told: Seq<DecisionView<V>>,
    after: SettingView<V, C, R, S, E, N>,
)
    requires
        runtime_course::dispatched(before, Ok(told), after),
        is_durable(before),
    ensures
        is_durable(after),
        after.state.decisions == before.state.decisions,
        after.state.replica == before.state.replica,
        after.state.next_delivery() is None,
{
    let (noted, changed) = before.state.note_committed();
    lemma_nothing_noted(before.state, collections::in_order(before.state.decisions.dom()));
    let start = SettingView { state: noted, ..before };
    let kept = choose|kept: SettingView<V, C, R, S, E, N>| #[trigger]
        runtime_course::saved_if(start, changed->Ok_0, kept) && runtime_course::all_delivered(
            kept,
            Ok(told),
            after,
        );
    assert(is_durable(kept));
    let settings = choose|settings: Seq<SettingView<V, C, R, S, E, N>>|
        {
            &&& #[trigger] runtime_course::deliveries(settings)
            &&& settings[0] == kept
            &&& after == settings.last()
            &&& after.state.next_delivery() is None
            &&& told == runtime_course::told_along(settings)
        };
    lemma_deliveries_keep(settings, settings.len() - 1);
}

proof fn lemma_offers_reach<V: Key, C: RecorderClient<V>, R, S, E, N>(
    settings: Seq<SettingView<V, C, R, S, E, N>>,
    slot: SlotIndex,
    n: int,
    p: int,
)
    requires
        runtime_course::offers(settings, slot),
        0 <= n < settings.len(),
        settings.len() <= settings[0].endpoints.len() + 1,
        0 <= p < settings[0].endpoints.len(),
    ensures
        settings[n].state == (RuntimeView {
            announced_to: settings[n].state.announced_to,
            ..settings[0].state
        }),
        settings[n].endpoints.len() == settings[0].endpoints.len(),
        settings[n].endpoints[p].identity() == settings[0].endpoints[p].identity(),
        forall|other: SlotIndex, member: ReplicaId| #[trigger]
            settings[0].state.is_announced(other, member) ==> settings[n].state.is_announced(
                other,
                member,
            ),
        p < n ==> settings[n].state.is_announced(slot, settings[0].endpoints[p].identity())
            || refused::<V, C>(
            settings[0].endpoints[p].identity(),
            settings[0].state.decisions[slot],
        ),
    decreases n,
{
    if n > 0 {
        lemma_offers_reach(settings, slot, n - 1, p);
        lemma_offers_reach(settings, slot, n - 1, n - 1);
        let before = settings[n - 1];
        let after = settings[n];
        let member = before.endpoints[n - 1].identity();
        assert(runtime_course::offered(before, slot, n - 1, after));
        if !before.state.is_announced(slot, member) {
            let outcome = choose|outcome: std::result::Result<(), ErrorView>|
                {
                    &&& #[trigger] runtime_course::informed(
                        before.endpoints[n - 1],
                        before.state.decisions[slot],
                        outcome,
                        after.endpoints[n - 1],
                    )
                    &&& after == (SettingView {
                        endpoints: before.endpoints.update(n - 1, after.endpoints[n - 1]),
                        state: if outcome is Ok {
                            before.state.announced(slot, member)
                        } else {
                            before.state
                        },
                        ..before
                    })
                };
            assert(after.endpoints.len() == before.endpoints.len());
            assert(after.endpoints[p].identity() == before.endpoints[p].identity());
            assert(outcome is Ok ==> after.state.is_announced(slot, member));
            assert(outcome is Err ==> refused::<V, C>(member, before.state.decisions[slot]));
            assert forall|other: SlotIndex, told: ReplicaId| #[trigger]
                settings[0].state.is_announced(other, told) implies after.state.is_announced(
                other,
                told,
            ) by {
                assert(before.state.is_announced(other, told));
            }
            if p < n - 1 && before.state.is_announced(
                slot,
                settings[0].endpoints[p].identity(),
            ) {
                assert(after.state.is_announced(slot, settings[0].endpoints[p].identity()));
            }
        }
    }
}

proof fn lemma_spreads_reach<V: Key, C: RecorderClient<V>, R, S, E, N>(
    settings: Seq<SettingView<V, C, R, S, E, N>>,
    slots: Seq<SlotIndex>,
    n: int,
    k: int,
    p: int,
)
    requires
        runtime_course::spreads(settings, slots),
        0 <= n < settings.len(),
        0 <= p < settings[0].endpoints.len(),
    ensures
        settings[n].state == (RuntimeView {
            announced_to: settings[n].state.announced_to,
            ..settings[0].state
        }),
        settings[n].endpoints.len() == settings[0].endpoints.len(),
        settings[n].endpoints[p].identity() == settings[0].endpoints[p].identity(),
        0 <= k < n ==> settings[n].state.is_announced(
            slots[k],
            settings[0].endpoints[p].identity(),
        ) || refused::<V, C>(
            settings[0].endpoints[p].identity(),
            settings[0].state.decisions[slots[k]],
        ),
    decreases n,
{
    if n > 0 {
        lemma_spreads_reach(settings, slots, n - 1, k, p);
        let before = settings[n - 1];
        let after = settings[n];
        let slot = slots[n - 1];
        assert(runtime_course::spread(before, slot, after));
        let steps = choose|steps: Seq<SettingView<V, C, R, S, E, N>>|
            {
                &&& #[trigger] runtime_course::offers(steps, slot)
                &&& steps.len() == before.endpoints.len() + 1
                &&& steps[0] == before
                &&& steps.last() == after
            };
        lemma_offers_reach(steps, slot, steps.len() - 1, p);
        if 0 <= k < n - 1 && before.state.is_announced(
            slots[k],
            settings[0].endpoints[p].identity(),
        ) {
            assert(steps[0].state.is_announced(slots[k], settings[0].endpoints[p].identity()));
        }
    }
}

/// No member is left out: once what is decided was spread, every member with an
/// endpoint counts as having acknowledged every decision, or was handed it and
/// refused.
pub proof fn every_member_is_offered_every_decision<
    V: Key,
    C: RecorderClient<V>,
    R,
    S: RuntimeStateStore<V>,
    E,
    N,
>(
    before: SettingView<V, C, R, S, E, N>,
    outcome: std::result::Result<(), ErrorView>,
    after: SettingView<V, C, R, S, E, N>,
    slot: SlotIndex,
    position: int,
)
    requires
        runtime_course::flushed(before, outcome, after),
        before.state.decisions.dom().finite(),
        before.state.decisions.dom().contains(slot),
        0 <= position < before.endpoints.len(),
    ensures
        ({
            let member = before.endpoints[position].identity();
            &&& after.state.is_announced(slot, member) || refused::<V, C>(
                member,
                before.state.decisions[slot],
            )
            &&& after.state.is_announced(slot, member) ==> before.state.is_announced(slot, member)
                || runtime_course::acknowledged::<V, C>(member, before.state.decisions[slot])
            &&& outcome is Ok && is_durable(before) ==> is_durable(after)
        }),
{
    let slots = collections::in_order(before.state.decisions.dom());
    collections::lemma_in_order_exists(before.state.decisions.dom());
    let settings = choose|settings: Seq<SettingView<V, C, R, S, E, N>>|
        {
            &&& #[trigger] runtime_course::spreads(settings, slots)
            &&& settings.len() == slots.len() + 1
            &&& settings[0] == before
            &&& if settings.last().state == before.state {
                after == settings.last() && outcome is Ok
            } else {
                runtime_course::saved(settings.last(), outcome, after)
            }
        };
    assert(slots.to_set().contains(slot));
    let k = choose|k: int| 0 <= k < slots.len() && slots[k] == slot;
    lemma_spreads_reach(settings, slots, slots.len() as int, k, position);
    runtime_course::acknowledgements_are_earned(before, outcome, after);
    lemma_spreads_keep_the_store(settings, slots, slots.len() as int);
}

proof fn lemma_offers_keep_the_store<V: Key, C: RecorderClient<V>, R, S, E, N>(
    settings: Seq<SettingView<V, C, R, S, E, N>>,
    slot: SlotIndex,
    n: int,
)
    requires
        runtime_course::offers(settings, slot),
        0 <= n < settings.len(),
    ensures
        settings[n].store == settings[0].store,
        settings[n].state == (RuntimeView {
            announced_to: settings[n].state.announced_to,
            ..settings[0].state
        }),
    decreases n,
{
    if n > 0 {
        lemma_offers_keep_the_store(settings, slot, n - 1);
        assert(runtime_course::offered(settings[n - 1], slot, n - 1, settings[n]));
    }
}

proof fn lemma_spreads_keep_the_store<V: Key, C: RecorderClient<V>, R, S, E, N>(
    settings: Seq<SettingView<V, C, R, S, E, N>>,
    slots: Seq<SlotIndex>,
    n: int,
)
    requires
        runtime_course::spreads(settings, slots),
        0 <= n < settings.len(),
    ensures
        settings[n].store == settings[0].store,
        settings[n].state == (RuntimeView {
            announced_to: settings[n].state.announced_to,
            ..settings[0].state
        }),
    decreases n,
{
    if n > 0 {
        lemma_spreads_keep_the_store(settings, slots, n - 1);
        let before = settings[n - 1];
        assert(runtime_course::spread(before, slots[n - 1], settings[n]));
        let steps = choose|steps: Seq<SettingView<V, C, R, S, E, N>>|
            {
                &&& #[trigger] runtime_course::offers(steps, slots[n - 1])
                &&& steps.len() == before.endpoints.len() + 1
                &&& steps[0] == before
                &&& steps.last() == settings[n]
            };
        lemma_offers_keep_the_store(steps, slots[n - 1], steps.len() - 1);
    }
}

proof fn lemma_flushing_keeps<V: Key, C: RecorderClient<V>, R, S: RuntimeStateStore<V>, E, N>(
    before: SettingView<V, C, R, S, E, N>,
    after: SettingView<V, C, R, S, E, N>,
)
    requires
        runtime_course::flushed(before, Ok(()), after),
        is_durable(before),
    ensures
        is_durable(after),
        after.state == (RuntimeView { announced_to: after.state.announced_to, ..before.state }),
{
    let slots = collections::in_order(before.state.decisions.dom());
    let settings = choose|settings: Seq<SettingView<V, C, R, S, E, N>>|
        {
            &&& #[trigger] runtime_course::spreads(settings, slots)
            &&& settings.len() == slots.len() + 1
            &&& settings[0] == before
            &&& if settings.last().state == before.state {
                after == settings.last()
            } else {
                runtime_course::saved(settings.last(), Ok(()), after)
            }
        };
    lemma_spreads_keep_the_store(settings, slots, slots.len() as int);
}

/// A new decision that was taken in with success is remembered, and durably so.
/// All that is committed by then was executed and told to the client.
pub proof fn accepted_decisions_are_durable_and_delivered<
    V: Key,
    C: RecorderClient<V>,
    R,
    S: RuntimeStateStore<V>,
    E: StateMachine<V>,
    N: ClientNotifier<V>,
>(
    before: SettingView<V, C, R, S, E, N>,
    decision: DecisionView<V>,
    told: Seq<DecisionView<V>>,
    after: SettingView<V, C, R, S, E, N>,
)
    requires
        runtime_course::received(before, decision, Ok(told), after),
        before.state.decisions.dom().finite(),
        runtime::keyed(before.state),
        !before.state.decisions.dom().contains(decision.slot),
        decision.slot.0 > before.state.replica.state.checkpointed_through.0,
    ensures
        after.state.decisions == before.state.decisions.insert(decision.slot, decision),
        is_durable(after),
        forall|slot: SlotIndex| #[trigger]
            after.state.decisions.dom().contains(slot) && slot.0 <= after.state.committed_through().0
                ==> after.state.executed.contains(slot) && after.state.notified.contains(slot),
{
    let start = SettingView { state: before.state.accept(decision).0, ..before };
    let kept = choose|kept: SettingView<V, C, R, S, E, N>| #[trigger]
        runtime_course::saved(start, Ok(()), kept) && runtime_course::caught_up(
            kept,
            Ok(told),
            after,
        );
    assert(is_durable(kept));
    let (listed, done) = choose|
        listed: Seq<DecisionView<V>>,
        done: SettingView<V, C, R, S, E, N>,
    |
        {
            &&& #[trigger] runtime_course::dispatched(kept, Ok(listed), done)
            &&& told == listed && runtime_course::flushed(done, Ok(()), after)
        };
    lemma_dispatching_keeps(kept, listed, done);
    lemma_flushing_keeps(done, after);
    assert(runtime::keyed(done.state));
    pipeline_laws::deliveries_execute_then_tell(done.state);
}

/// A transfer that was taken up with success has given the state machine its
/// checkpoint, and its consensus state is durable. One that failed has left the
/// consensus state as it was.
pub proof fn transfers_are_imported_and_durable<
    V: Key,
    C,
    R,
    S: RuntimeStateStore<V>,
    E: StateMachine<V>,
    N,
>(
    before: SettingView<V, C, R, S, E, N>,
    transfer: TransferView<V>,
    outcome: std::result::Result<(), ErrorView>,
    after: SettingView<V, C, R, S, E, N>,
)
    requires
        runtime_course::taken_up(before, transfer, outcome, after),
    ensures
        outcome is Ok ==> {
            &&& before.machine.imports(
                transfer.through,
                transfer.application_checkpoint,
                Ok(()),
                &after.machine,
            )
            &&& after.store.persisted() == Some(transfer.runtime)
            &&& after.state.decisions == transfer.runtime.decisions
            &&& after.state.replica.state == transfer.runtime.replica
        },
        outcome is Err ==> after.state == before.state,
        after.endpoints == before.endpoints,
        after.listener == before.listener,
{
    if outcome is Ok {
        pipeline_laws::transfers_bring_the_senders_state(before.state, transfer);
    }
}

/// A transfer that was handed out holds what the state machine exported for the
/// slot, the sender's durable state, and every value that was decided at or
/// below the slot.
pub proof fn transfers_hold_what_they_cover<
    V: Key,
    C: RecorderClient<V>,
    R,
    S: RuntimeStateStore<V>,
    E: StateMachine<V>,
    N,
>(
    before: SettingView<V, C, R, S, E, N>,
    slot: SlotIndex,
    transfer: TransferView<V>,
    after: SettingView<V, C, R, S, E, N>,
    lower: SlotIndex,
    value: V,
)
    requires
        runtime_course::handed_over(before, slot, Ok(transfer), after),
        before.state.covered_values(slot).finite(),
        before.state.decisions.dom().contains(lower),
        lower.0 <= slot.0,
        before.state.decisions[lower].value_ids.contains(value),
    ensures
        transfer.through == slot,
        transfer.checkpointed_value_ids.contains(value),
        transfer.runtime == after.state.snapshot(),
        is_durable(after),
        exists|machine: E| #[trigger]
            before.machine.exports(slot, Ok(transfer.application_checkpoint), &machine),
{
    let told = choose|told: SettingView<V, C, R, S, E, N>|
        {
            &&& #[trigger] runtime_course::flushed(before, Ok(()), told)
            &&& match told.state.announcement_error(slot) {
                Some(_) => false,
                None => runtime_course::exported_and_pruned(told, slot, Ok(transfer), after),
            }
        };
    runtime_course::acknowledgements_are_earned(before, Ok(()), told);
    lemma_flushing_keeps_the_machine(before, told);
    let (checkpoint, machine) = choose|
        checkpoint: std::result::Result<Seq<u8>, ErrorView>,
        machine: E,
    |
        {
            let left = SettingView { machine, ..told };
            &&& #[trigger] told.machine.exports(slot, checkpoint, &machine)
            &&& match checkpoint {
                Err(_) => false,
                Ok(bytes) => {
                    &&& runtime_course::pruned(left, slot, Ok(()), after)
                    &&& transfer == (TransferView {
                        through: slot,
                        checkpointed_value_ids: collections::in_order(
                            told.state.covered_values(slot),
                        ),
                        application_checkpoint: bytes,
                        runtime: after.state.snapshot(),
                    })
                },
            }
        };
    assert(before.machine.exports(slot, Ok(transfer.application_checkpoint), &machine));
    assert(told.state.covered_values(slot) =~= before.state.covered_values(slot));
    assert(told.state.covered_values(slot).contains(value)) by {
        assert(told.state.decisions.dom().contains(lower));
    }
    collections::lemma_in_order_exists(told.state.covered_values(slot));
    assert(transfer.checkpointed_value_ids.to_set().contains(value));
}

proof fn lemma_flushing_keeps_the_machine<
    V: Key,
    C: RecorderClient<V>,
    R,
    S: RuntimeStateStore<V>,
    E,
    N,
>(before: SettingView<V, C, R, S, E, N>, after: SettingView<V, C, R, S, E, N>)
    requires
        runtime_course::flushed(before, Ok(()), after),
    ensures
        after.machine == before.machine,
        after.proposer == before.proposer,
{
    let slots = collections::in_order(before.state.decisions.dom());
    let settings = choose|settings: Seq<SettingView<V, C, R, S, E, N>>|
        {
            &&& #[trigger] runtime_course::spreads(settings, slots)
            &&& settings.len() == slots.len() + 1
            &&& settings[0] == before
            &&& if settings.last().state == before.state {
                after == settings.last()
            } else {
                runtime_course::saved(settings.last(), Ok(()), after)
            }
        };
    lemma_spreads_keep_the_machine(settings, slots, slots.len() as int);
}

proof fn lemma_spreads_keep_the_machine<V: Key, C: RecorderClient<V>, R, S, E, N>(
    settings: Seq<SettingView<V, C, R, S, E, N>>,
    slots: Seq<SlotIndex>,
    n: int,
)
    requires
        runtime_course::spreads(settings, slots),
        0 <= n < settings.len(),
    ensures
        settings[n].machine == settings[0].machine,
        settings[n].proposer == settings[0].proposer,
    decreases n,
{
    if n > 0 {
        lemma_spreads_keep_the_machine(settings, slots, n - 1);
        let before = settings[n - 1];
        assert(runtime_course::spread(before, slots[n - 1], settings[n]));
        let steps = choose|steps: Seq<SettingView<V, C, R, S, E, N>>|
            {
                &&& #[trigger] runtime_course::offers(steps, slots[n - 1])
                &&& steps.len() == before.endpoints.len() + 1
                &&& steps[0] == before
                &&& steps.last() == settings[n]
            };
        lemma_offers_keep_the_machine(steps, slots[n - 1], steps.len() - 1);
    }
}

proof fn lemma_offers_keep_the_machine<V: Key, C: RecorderClient<V>, R, S, E, N>(
    settings: Seq<SettingView<V, C, R, S, E, N>>,
    slot: SlotIndex,
    n: int,
)
    requires
        runtime_course::offers(settings, slot),
        0 <= n < settings.len(),
    ensures
        settings[n].machine == settings[0].machine,
        settings[n].proposer == settings[0].proposer,
    decreases n,
{
    if n > 0 {
        lemma_offers_keep_the_machine(settings, slot, n - 1);
        assert(runtime_course::offered(settings[n - 1], slot, n - 1, settings[n]));
    }
}

/// A new membership starts only where every endpoint of it has installed the
/// change and every old member has acknowledged what was decided through the
/// change's anchor. Then the runtime goes by it, durably.
pub proof fn memberships_start_everywhere<
    V: Key,
    C: RecorderClient<V>,
    R,
    S: RuntimeStateStore<V>,
    E,
    N,
>(
    before: SettingView<V, C, R, S, E, N>,
    change: MembershipChangeView<V>,
    next: Seq<RecorderHandle<C>>,
    after: SettingView<V, C, R, S, E, N>,
    i: int,
    slot: SlotIndex,
    member: ReplicaId,
)
    requires
        runtime_course::reconfigured(before, change, next, Ok(()), after),
        change.next != before.state.config.cluster,
    ensures
        after.state.config.cluster == change.next,
        after.proposer.cluster == Some(change.next),
        after.proposer.quorum == Some(change.next.quorum_size() as usize),
        after.endpoints.len() == next.len(),
        0 <= i < next.len() ==> runtime_course::installed_at(
            next[i],
            change,
            Ok(()),
            after.endpoints[i],
        ),
        is_durable(after),
        before.state.decisions.dom().contains(slot) && slot.0 <= change.anchor.slot.0
            && before.state.members().contains(member) ==> before.state.is_announced(slot, member)
            || runtime_course::acknowledged::<V, C>(member, before.state.decisions[slot]),
{
    let told = choose|told: SettingView<V, C, R, S, E, N>|
        {
            &&& #[trigger] runtime_course::flushed(before, Ok(()), told)
            &&& told.state.announcement_error(change.anchor.slot) is None
            &&& runtime_course::activated(told, change, next, Ok(()), after)
        };
    runtime_course::acknowledgements_are_earned(before, Ok(()), told);
    let handed = choose|handed: Seq<RecorderHandle<C>>|
        {
            &&& #[trigger] runtime_course::handed_on(next, change, handed)
            &&& handed.len() == next.len()
            &&& after.endpoints == handed
            &&& after.state == told.state.with_membership(change.next, change.anchor.slot)
            &&& after.proposer.cluster == Some(change.next)
            &&& after.proposer.quorum == Some(change.next.quorum_size() as usize)
            &&& is_durable(after)
        };
    if 0 <= i < next.len() {
        assert(runtime_course::installed_at(next[i], change, Ok(()), handed[i]));
    }
    if before.state.decisions.dom().contains(slot) && slot.0 <= change.anchor.slot.0
        && before.state.members().contains(member) {
        assert(told.state.decisions.dom().contains(slot));
        assert(told.state.fully_announced(slot));
        assert(told.state.is_announced(slot, member));
    }
}

} // verus!
