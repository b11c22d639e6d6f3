//! Laws of hedged activation: who starts a proposal when.

use crate::collections;
use crate::error::ErrorView;
use crate::key::Key;
use crate::network::node_runtime::NodeView;
use crate::network::node_steps::TurnAction;
use crate::proposer::RecorderClient;
use crate::ranking;
use crate::runtime::{PollView, RuntimeStateStore};
use crate::runtime_course;
use crate::runtime_course::SettingView;
use crate::runtime_state::{PendingView, RuntimeView};
use crate::schedule::ScheduleView;
use crate::span::{Span, MAX_NANOS};
use crate::types::{ReplicaId, SlotIndex, Step};
use vstd::prelude::*;

verus! {

/// The place of a replica in a list without repetitions.
proof fn lemma_only_place(list: Seq<ReplicaId>, place: int)
    requires
        list.no_duplicates(),
        0 <= place < list.len(),
    ensures
        ranking::position(list, list[place]) == place,
{
    ranking::lemma_position(list, list[place], place);
}

/// A proposal that is armed now may start after as many hedging delays as there
/// are replicas before its own in the schedule.
pub proof fn deadlines_follow_places<V>(
    view: RuntimeView<V>,
    schedule: ScheduleView,
    now: Span,
    place: int,
)
    requires
        schedule.proposers.no_duplicates(),
        0 <= place < schedule.proposers.len(),
        schedule.proposers[place] == view.config.replica_id,
        place <= u32::MAX,
        now.nanos + place * view.hedge.current.nanos <= MAX_NANOS,
    ensures
        view.deadline(schedule, now) matches Ok(due) && due.nanos == now.nanos + place
            * view.hedge.current.nanos,
{
    lemma_only_place(schedule.proposers, place);
    let delay = view.hedge.current.nanos as int;
    assert(delay * place == place * delay) by (nonlinear_arith);
}

/// Along a schedule replicas start one hedging delay apart: of two that are
/// armed at one time, the later one waits a delay longer for every place between
/// them.
pub proof fn later_places_wait_longer<V>(
    first: RuntimeView<V>,
    second: RuntimeView<V>,
    schedule: ScheduleView,
    now: Span,
    i: int,
    j: int,
)
    requires
        schedule.proposers.no_duplicates(),
        0 <= i < j < schedule.proposers.len(),
        schedule.proposers[i] == first.config.replica_id,
        schedule.proposers[j] == second.config.replica_id,
        first.hedge.current == second.hedge.current,
        first.deadline(schedule, now) is Ok,
        second.deadline(schedule, now) is Ok,
    ensures
        ({
            let (early, late) = (
                first.deadline(schedule, now)->Ok_0.nanos,
                second.deadline(schedule, now)->Ok_0.nanos,
            );
            &&& late == early + (j - i) * first.hedge.current.nanos
            &&& first.hedge.current.nanos > 0 ==> early < late
        }),
{
    lemma_only_place(schedule.proposers, i);
    lemma_only_place(schedule.proposers, j);
    let delay = first.hedge.current.nanos as int;
    assert(delay * j == delay * i + (j - i) * delay) by (nonlinear_arith);
    assert(delay > 0 ==> (j - i) * delay > 0) by (nonlinear_arith)
        requires
            i < j,
    ;
}

/// Which of the slots have no deadline.
proof fn lemma_unarmed<V>(view: RuntimeView<V>, slots: Seq<SlotIndex>)
    requires
        slots.no_duplicates(),
    ensures
        view.unarmed_of(slots).no_duplicates(),
        forall|slot: SlotIndex| #[trigger]
            view.unarmed_of(slots).contains(slot) <==> slots.contains(slot)
                && view.pending[slot].ready_at is None,
    decreases slots.len(),
{
    if slots.len() > 0 {
        let rest = slots.drop_last();
        let last = slots.last();
        assert(rest.no_duplicates());
        lemma_unarmed(view, rest);
        let before = view.unarmed_of(rest);
        let all = view.unarmed_of(slots);
        assert(slots =~= rest.push(last));
        assert(!rest.contains(last)) by {
            if rest.contains(last) {
                let k = choose|k: int| 0 <= k < rest.len() && rest[k] == last;
                assert(slots[k] == slots[slots.len() - 1]);
            }
        }
        assert forall|slot: SlotIndex| #[trigger] all.contains(slot) <==> slots.contains(slot)
            && view.pending[slot].ready_at is None by {
            assert(slots.contains(slot) <==> rest.contains(slot) || slot == last) by {
                if slots.contains(slot) {
                    let k = choose|k: int| 0 <= k < slots.len() && slots[k] == slot;
                    if k < rest.len() {
                        assert(rest[k] == slot);
                    }
                }
                if rest.contains(slot) {
                    let k = choose|k: int| 0 <= k < rest.len() && rest[k] == slot;
                    assert(slots[k] == slot);
                }
                assert(slots[slots.len() - 1] == last);
            }
            if view.pending[last].ready_at is None {
                assert(all == before.push(last));
                assert(all.contains(slot) <==> before.contains(slot) || slot == last) by {
                    if all.contains(slot) {
                        let k = choose|k: int| 0 <= k < all.len() && all[k] == slot;
                        if k < before.len() {
                            assert(before[k] == slot);
                        }
                    }
                    if before.contains(slot) {
                        let k = choose|k: int| 0 <= k < before.len() && before[k] == slot;
                        assert(all[k] == slot);
                    }
                    assert(all[before.len() as int] == last);
                }
            }
        }
        if view.pending[last].ready_at is None {
            assert(!before.contains(last));
            assert forall|i: int, j: int|
                0 <= i < all.len() && 0 <= j < all.len() && i != j implies all[i] != all[j] by {
                if i < before.len() && j < before.len() {
                    assert(before[i] != before[j]);
                } else if i < before.len() {
                    assert(before.contains(before[i]));
                } else {
                    assert(before.contains(before[j]));
                }
            }
        }
    }
}

/// Whether a replica that armed a proposal for a slot waits as its place asks.
pub open spec fn waits_its_turn<V>(
    view: RuntimeView<V>,
    slot: SlotIndex,
    now: Span,
    due: Span,
) -> bool {
    let epoch = view.config.epoch_of(slot);
    let order = view.tuner.schedules[epoch].proposers;
    &&& view.tuner.schedules.dom().contains(epoch)
    &&& order.no_duplicates()
    &&& forall|place: int|
        0 <= place < order.len() && #[trigger] order[place] == view.config.replica_id ==> due.nanos
            == now.nanos + place * view.hedge.current.nanos
}

/// Whether no kept schedule repeats a replica.
pub open spec fn schedules_are_distinct<V>(view: RuntimeView<V>) -> bool {
    forall|epoch: u64| #[trigger]
        view.tuner.schedules.dom().contains(epoch)
            ==> view.tuner.schedules[epoch].proposers.no_duplicates()
}

/// Looking a schedule up keeps it, and those that were kept.
proof fn lemma_lookup_keeps<V>(view: RuntimeView<V>, slot: SlotIndex)
    requires
        schedules_are_distinct(view),
    ensures
        ({
            let (after, found) = view.schedule_for(slot);
            &&& after == (RuntimeView { tuner: after.tuner, ..view })
            &&& schedules_are_distinct(after)
            &&& forall|epoch: u64| #[trigger]
                view.tuner.schedules.dom().contains(epoch)
                    ==> after.tuner.schedules.dom().contains(epoch)
                    && after.tuner.schedules[epoch] == view.tuner.schedules[epoch]
            &&& found matches Ok(schedule) ==> after.tuner.schedules.dom().contains(
                view.config.epoch_of(slot),
            ) && after.tuner.schedules[view.config.epoch_of(slot)] == schedule
        }),
{
    let epoch = view.config.epoch_of(slot);
    let (after, found) = view.schedule_for(slot);
    if !view.tuner.schedules.dom().contains(epoch) && found is Ok {
        let schedule = found->Ok_0;
        assert(view.tuner.derive(epoch) == Ok::<ScheduleView, ErrorView>(schedule));
        assert(ranking::order_error(schedule.proposers) is None);
        ranking::lemma_duplicated(schedule.proposers, 0);
    }
}

/// The deadlines of slots are those of their schedules.
proof fn lemma_deadlines<V>(view: RuntimeView<V>, slots: Seq<SlotIndex>, now: Span)
    requires
        schedules_are_distinct(view),
    ensures
        ({
            let (after, found) = view.deadlines(slots, now);
            &&& after == (RuntimeView { tuner: after.tuner, ..view })
            &&& schedules_are_distinct(after)
            &&& found matches Ok(list) ==> {
                &&& list.len() == slots.len()
                &&& forall|k: int|
                    0 <= k < slots.len() ==> waits_its_turn(
                        after,
                        #[trigger] slots[k],
                        now,
                        list[k],
                    )
            }
        }),
    decreases slots.len(),
{
    if slots.len() > 0 {
        let rest = slots.drop_last();
        let last = slots.last();
        lemma_deadlines(view, rest, now);
        let (before, earlier) = view.deadlines(rest, now);
        if earlier is Ok {
            lemma_lookup_keeps(before, last);
            let (after, found) = before.schedule_for(last);
            let (end, result) = view.deadlines(slots, now);
            if result is Ok {
                let list = result->Ok_0;
                let schedule = found->Ok_0;
                let epoch = view.config.epoch_of(last);
                assert(slots[slots.len() - 1] == last);
                assert forall|k: int| 0 <= k < slots.len() implies waits_its_turn(
                    end,
                    #[trigger] slots[k],
                    now,
                    list[k],
                ) by {
                    if k < rest.len() {
                        assert(rest[k] == slots[k]);
                        assert(waits_its_turn(before, rest[k], now, earlier->Ok_0[k]));
                        assert(before.tuner.schedules.dom().contains(
                            view.config.epoch_of(rest[k]),
                        ));
                    } else {
                        let order = schedule.proposers;
                        assert(end.tuner.schedules.dom().contains(epoch));
                        assert forall|place: int|
                            0 <= place < order.len() && #[trigger] order[place]
                                == end.config.replica_id implies list[k].nanos == now.nanos + place
                            * end.hedge.current.nanos by {
                            lemma_only_place(order, place);
                            let delay = end.hedge.current.nanos as int;
                            assert(delay * place == place * delay) by (nonlinear_arith);
                        }
                    }
                }
            }
        }
    }
}

/// Giving deadlines gives each slot its own and changes nothing else.
proof fn lemma_with_deadlines<V>(view: RuntimeView<V>, slots: Seq<SlotIndex>, list: Seq<Span>)
    requires
        slots.no_duplicates(),
        list.len() == slots.len(),
        forall|k: int| 0 <= k < slots.len() ==> view.pending.dom().contains(#[trigger] slots[k]),
    ensures
        ({
            let after = view.with_deadlines(slots, list);
            &&& after == (RuntimeView { pending: after.pending, ..view })
            &&& after.pending.dom() == view.pending.dom()
            &&& forall|k: int|
                0 <= k < slots.len() ==> after.pending[#[trigger] slots[k]] == (PendingView {
                    ready_at: Some(list[k]),
                    ..view.pending[slots[k]]
                })
            &&& forall|slot: SlotIndex|
                !slots.contains(slot) ==> #[trigger] after.pending[slot] == view.pending[slot]
        }),
    decreases slots.len(),
{
    if slots.len() > 0 {
        let (rest, last) = (slots.drop_last(), slots.last());
        assert(slots[slots.len() - 1] == last);
        assert forall|k: int| 0 <= k < rest.len() implies view.pending.dom().contains(
            #[trigger] rest[k],
        ) by {
            assert(slots[k] == rest[k]);
        }
        lemma_with_deadlines(view, rest, list.drop_last());
        let before = view.with_deadlines(rest, list.drop_last());
        let after = view.with_deadlines(slots, list);
        assert(!rest.contains(last)) by {
            if rest.contains(last) {
                let k = choose|k: int| 0 <= k < rest.len() && rest[k] == last;
                assert(slots[k] == slots[slots.len() - 1]);
            }
        }
        assert(after.pending.dom() =~= view.pending.dom());
        assert forall|k: int| 0 <= k < slots.len() implies after.pending[#[trigger] slots[k]] == (
        PendingView { ready_at: Some(list[k]), ..view.pending[slots[k]] }) by {
            if k < rest.len() {
                assert(rest[k] == slots[k]);
                assert(rest.contains(rest[k]));
            }
        }
        assert forall|slot: SlotIndex| !slots.contains(slot) implies #[trigger] after.pending[slot]
            == view.pending[slot] by {
            assert(slots.contains(last));
            if rest.contains(slot) {
                let k = choose|k: int| 0 <= k < rest.len() && rest[k] == slot;
                assert(slots[k] == slot);
            }
        }
    }
}

/// Every pending proposal without a deadline gets one: as many hedging delays
/// from now as the replica's place in the schedule of the slot's epoch. One that
/// has a deadline keeps it.
pub proof fn armed_slots_wait_their_turn<V>(view: RuntimeView<V>, now: Span)
    requires
        schedules_are_distinct(view),
        view.pending.dom().finite(),
        view.assign_deadlines(now).1 is Ok,
    ensures
        ({
            let after = view.assign_deadlines(now).0;
            &&& after.config == view.config
            &&& after.hedge == view.hedge
            &&& after.pending.dom() == view.pending.dom()
            &&& forall|slot: SlotIndex| #[trigger]
                view.pending.dom().contains(slot) ==> {
                    &&& after.pending[slot].value_ids == view.pending[slot].value_ids
                    &&& after.pending[slot].last_observed_step
                        == view.pending[slot].last_observed_step
                    &&& match view.pending[slot].ready_at {
                        Some(due) => after.pending[slot].ready_at == Some(due),
                        None => after.pending[slot].ready_at matches Some(due) && waits_its_turn(
                            after,
                            slot,
                            now,
                            due,
                        ),
                    }
                }
        }),
{
    let all = collections::in_order(view.pending.dom());
    collections::lemma_in_order_exists(view.pending.dom());
    collections::lemma_ascending_distinct(all);
    let slots = view.unarmed_of(all);
    lemma_unarmed(view, all);
    lemma_deadlines(view, slots, now);
    let (timed, found) = view.deadlines(slots, now);
    let list = found->Ok_0;
    assert forall|k: int| 0 <= k < slots.len() implies timed.pending.dom().contains(
        #[trigger] slots[k],
    ) by {
        assert(slots.contains(slots[k]));
        assert(all.contains(slots[k]));
    }
    lemma_with_deadlines(timed, slots, list);
    let after = view.assign_deadlines(now).0;
    assert forall|slot: SlotIndex| #[trigger] view.pending.dom().contains(slot) implies {
        &&& after.pending[slot].value_ids == view.pending[slot].value_ids
        &&& after.pending[slot].last_observed_step == view.pending[slot].last_observed_step
        &&& match view.pending[slot].ready_at {
            Some(due) => after.pending[slot].ready_at == Some(due),
            None => after.pending[slot].ready_at matches Some(due) && waits_its_turn(
                after,
                slot,
                now,
                due,
            ),
        }
    } by {
        assert(all.contains(slot));
        if view.pending[slot].ready_at is None {
            assert(slots.contains(slot));
            let k = choose|k: int| 0 <= k < slots.len() && slots[k] == slot;
            assert(after.pending[slots[k]].ready_at == Some(list[k]));
            assert(waits_its_turn(timed, slots[k], now, list[k]));
        } else {
            assert(!slots.contains(slot));
        }
    }
}

/// The deadline that comes first among slots.
proof fn lemma_earliest<V>(view: RuntimeView<V>, slots: Seq<SlotIndex>)
    requires
        collections::ascending(slots),
    ensures
        match view.earliest_of(slots) {
            Some((slot, due)) => {
                &&& slots.contains(slot)
                &&& view.pending[slot].ready_at == Some(due)
                &&& forall|k: int|
                    0 <= k < slots.len() ==> (view.pending[#[trigger] slots[k]].ready_at matches Some(
                        other,
                    ) ==> due.nanos < other.nanos || (due.nanos == other.nanos && slot.0
                        <= slots[k].0))
            },
            None => forall|k: int|
                0 <= k < slots.len() ==> view.pending[#[trigger] slots[k]].ready_at is None,
        },
    decreases slots.len(),
{
    if slots.len() > 0 {
        let (rest, last) = (slots.drop_last(), slots.last());
        assert(slots[slots.len() - 1] == last);
        assert forall|i: int, j: int| 0 <= i < j < rest.len() implies (#[trigger] rest[i]).rank()
            < (#[trigger] rest[j]).rank() by {
            assert(slots[i].rank() < slots[j].rank());
        }
        lemma_earliest(view, rest);
        assert forall|k: int| 0 <= k < slots.len() implies (#[trigger] slots[k] == last || (k
            < rest.len() && rest[k] == slots[k] && slots[k].0 < last.0)) by {
            if k < rest.len() {
                assert(slots[k].rank() < slots[slots.len() - 1].rank());
            }
        }
        if let Some((slot, _)) = view.earliest_of(rest) {
            let k = choose|k: int| 0 <= k < rest.len() && rest[k] == slot;
            assert(slots[k] == slot);
        }
    }
}

/// The next deadline is the earliest of all pending proposals', and among equal
/// ones that of the lowest slot; there is none exactly where no proposal has one.
pub proof fn the_earliest_deadline_is_next<V>(view: RuntimeView<V>)
    requires
        view.pending.dom().finite(),
    ensures
        match view.next_deadline() {
            Some((slot, due)) => {
                &&& view.pending.dom().contains(slot)
                &&& view.pending[slot].ready_at == Some(due)
                &&& forall|other: SlotIndex| #[trigger]
                    view.pending.dom().contains(other) ==> (
                    view.pending[other].ready_at matches Some(later) ==> due.nanos < later.nanos
                        || (due.nanos == later.nanos && slot.0 <= other.0))
            },
            None => forall|other: SlotIndex| #[trigger]
                view.pending.dom().contains(other) ==> view.pending[other].ready_at is None,
        },
{
    let slots = collections::in_order(view.pending.dom());
    collections::lemma_in_order_exists(view.pending.dom());
    lemma_earliest(view, slots);
    assert forall|other: SlotIndex| #[trigger] view.pending.dom().contains(
        other,
    ) implies slots.contains(other) by {}
}

/// What a poll tells is due: a proposal whose deadline has passed, with the values
/// of its slot and the first of its epoch's schedule as the leader; or the
/// deadline to wait for, which lies ahead; and no other proposal is due before.
pub proof fn polls_tell_what_is_due<V: Key, C: RecorderClient<V>, R, S: RuntimeStateStore<V>, E, N>(
    before: SettingView<V, C, R, S, E, N>,
    now: Span,
    outcome: std::result::Result<PollView<V>, ErrorView>,
    after: SettingView<V, C, R, S, E, N>,
)
    requires
        runtime_course::polled(before, now, outcome, after),
        after.state.pending.dom().finite(),
    ensures
        outcome matches Ok(next) ==> {
            let pending = after.state.pending;
            match next {
                PollView::Idle => forall|slot: SlotIndex| #[trigger]
                    pending.dom().contains(slot) ==> pending[slot].ready_at is None,
                PollView::Waiting { slot, until } => {
                    &&& until.nanos > now.nanos
                    &&& pending.dom().contains(slot) && pending[slot].ready_at == Some(until)
                    &&& forall|other: SlotIndex| #[trigger]
                        pending.dom().contains(other) ==> (
                        pending[other].ready_at matches Some(due) ==> until.nanos <= due.nanos)
                },
                PollView::Propose { slot, value_ids, leader } => {
                    let epoch = after.state.config.epoch_of(slot);
                    &&& pending.dom().contains(slot) && pending[slot].value_ids == value_ids
                    &&& pending[slot].ready_at matches Some(due) && due.nanos <= now.nanos
                    &&& forall|other: SlotIndex| #[trigger]
                        pending.dom().contains(other) ==> (
                        pending[other].ready_at matches Some(due) ==> pending[slot].ready_at->0.nanos
                            <= due.nanos)
                    &&& after.state.tuner.schedules.dom().contains(epoch)
                    &&& leader == after.state.tuner.schedules[epoch].proposers[0]
                },
                PollView::Committed(_) => false,
            }
        },
{
    if outcome is Ok {
        let told = choose|told: SettingView<V, C, R, S, E, N>| #[trigger]
            runtime_course::flushed(before, Ok(()), told) && runtime_course::went_on(
                told,
                now,
                outcome,
                after,
            );
        let settings = choose|settings: Seq<SettingView<V, C, R, S, E, N>>|
            {
                &&& #[trigger] runtime_course::deferrals(settings, now)
                &&& runtime_course::armed(
                    told,
                    now,
                    Ok(settings[0].state.pending.dom().len()),
                    settings[0],
                )
                &&& runtime_course::turned(settings.last(), now, outcome, after)
            };
        let last = settings.last().state;
        assert(after.state.pending == last.pending);
        the_earliest_deadline_is_next(last);
    }
}

/// A proposal is put off exactly where the recorders show progress that was not
/// seen before: until one hedging delay from now, with what was seen remembered.
/// Otherwise nothing changes.
pub proof fn progress_puts_proposals_off<V>(
    view: RuntimeView<V>,
    slot: SlotIndex,
    observed: Option<Step>,
    now: Span,
)
    ensures
        ({
            let (after, deferred) = view.defer(slot, observed, now);
            let progress = match (observed, view.pending[slot].last_observed_step) {
                (Some(step), Some(seen)) => step.0 > seen.0,
                (Some(step), None) => step.0 >= 4,
                (None, _) => false,
            };
            &&& deferred <==> view.pending.dom().contains(slot) && progress && now.nanos
                + view.hedge.current.nanos <= MAX_NANOS
            &&& !deferred ==> after == view
            &&& deferred ==> {
                &&& after.pending.dom() == view.pending.dom()
                &&& after.pending[slot].ready_at matches Some(due) && due.nanos == now.nanos
                    + view.hedge.current.nanos
                &&& after.pending[slot].last_observed_step == observed
                &&& after.pending[slot].value_ids == view.pending[slot].value_ids
                &&& forall|other: SlotIndex|
                    other != slot ==> #[trigger] after.pending[other] == view.pending[other]
                &&& after.decisions == view.decisions && after.replica == view.replica
            }
        }),
{
    let after = view.defer(slot, observed, now).0;
    if view.pending.dom().contains(slot) {
        assert(view.pending.insert(slot, after.pending[slot]).dom() =~= view.pending.dom());
    }
}

/// A networked node waits as many hedging delays from when the slot was armed as
/// its place in the schedule; what has passed of them counts. Its leader is the
/// first of the schedule.
pub proof fn nodes_wait_their_turn<V>(node: NodeView<V>, slot: SlotIndex, now: Span, place: int)
    requires
        schedules_are_distinct(node.core),
        node.core.pending.dom().contains(slot),
        node.hedge(slot, now).1 is Ok,
        ({
            let order = node.hedge(
                slot,
                now,
            ).0.core.tuner.schedules[node.core.config.epoch_of(slot)].proposers;
            0 <= place < order.len() && order[place] == node.core.config.replica_id
        }),
    ensures
        ({
            let (after, turn) = node.hedge(slot, now);
            let order = after.core.tuner.schedules[node.core.config.epoch_of(slot)].proposers;
            let armed = if node.armed_at.dom().contains(slot) {
                node.armed_at[slot]
            } else {
                now
            };
            let due = armed.nanos + place * node.core.hedge.current.nanos;
            &&& turn->Ok_0 matches Some((leader, left)) && leader == order[0] && left.nanos == if now.nanos
                >= due {
                0
            } else if now.nanos >= armed.nanos {
                due - now.nanos
            } else {
                due - armed.nanos
            }
            &&& after.armed_at == node.armed_at.insert(slot, armed)
        }),
{
    lemma_lookup_keeps(node.core, slot);
    let order = node.core.schedule_for(slot).1->Ok_0.proposers;
    lemma_only_place(order, place);
    let delay = node.core.hedge.current.nanos as int;
    assert(delay * place == place * delay) by (nonlinear_arith);
    assert(delay * place >= 0) by (nonlinear_arith)
        requires
            delay >= 0,
            place >= 0,
    ;
}

/// A node tells its turn for every pending slot whose schedule it knows and has a
/// place in, and for no other slot.
pub proof fn turns_come_for_pending_slots<V>(
    node: NodeView<V>,
    slot: SlotIndex,
    now: Span,
    place: int,
)
    ensures
        !node.core.pending.dom().contains(slot) ==> node.hedge(slot, now) == (
            node,
            Ok::<Option<(ReplicaId, Span)>, ErrorView>(None),
        ),
        node.core.pending.dom().contains(slot) ==> !(node.hedge(slot, now).1 matches Ok(None)),
        ({
            let epoch = node.core.config.epoch_of(slot);
            let order = node.core.tuner.schedules[epoch].proposers;
            &&& node.core.pending.dom().contains(slot)
            &&& node.core.tuner.schedules.dom().contains(epoch)
            &&& order.no_duplicates()
            &&& 0 <= place < order.len() && place <= u32::MAX
            &&& order[place] == node.core.config.replica_id
            &&& place * node.core.hedge.current.nanos <= MAX_NANOS
        }) ==> node.hedge(slot, now).1 is Ok,
{
    let epoch = node.core.config.epoch_of(slot);
    let order = node.core.tuner.schedules[epoch].proposers;
    if order.no_duplicates() && 0 <= place < order.len() && order[place]
        == node.core.config.replica_id {
        lemma_only_place(order, place);
        assert(place * node.core.hedge.current.nanos == node.core.hedge.current.nanos * place)
            by (nonlinear_arith);
    }
}

/// Whether a replica knows the schedule of a slot and has a place in it whose
/// turn comes within the time that there is.
pub open spec fn has_its_turn<V>(view: RuntimeView<V>, slot: SlotIndex, now: Span) -> bool {
    let epoch = view.config.epoch_of(slot);
    let order = view.tuner.schedules[epoch].proposers;
    &&& view.tuner.schedules.dom().contains(epoch)
    &&& order.no_duplicates()
    &&& exists|place: int|
        0 <= place < order.len() && place <= u32::MAX && #[trigger] order[place]
            == view.config.replica_id && now.nanos + place * view.hedge.current.nanos <= MAX_NANOS
}

proof fn lemma_turns_are_given<V>(view: RuntimeView<V>, slots: Seq<SlotIndex>, now: Span)
    requires
        forall|i: int| 0 <= i < slots.len() ==> has_its_turn(view, #[trigger] slots[i], now),
    ensures
        view.deadlines(slots, now).0 == view,
        view.deadlines(slots, now).1 is Ok,
    decreases slots.len(),
{
    if slots.len() > 0 {
        let rest = slots.drop_last();
        assert forall|i: int| 0 <= i < rest.len() implies has_its_turn(
            view,
            #[trigger] rest[i],
            now,
        ) by {
            assert(has_its_turn(view, slots[i], now));
        }
        lemma_turns_are_given(view, rest, now);
        assert(has_its_turn(view, slots[slots.len() - 1], now));
        let slot = slots.last();
        let schedule = view.tuner.schedules[view.config.epoch_of(slot)];
        let place = choose|place: int|
            0 <= place < schedule.proposers.len() && place <= u32::MAX
                && #[trigger] schedule.proposers[place] == view.config.replica_id && now.nanos
                + place * view.hedge.current.nanos <= MAX_NANOS;
        assert(view.schedule_for(slot) == (view, Ok::<ScheduleView, ErrorView>(schedule)));
        deadlines_follow_places(view, schedule, now, place);
    }
}

/// Deadlines are refused only where a pending slot has no schedule, or none whose
/// turn for the replica comes within the time that there is.
pub proof fn deadlines_are_given<V>(view: RuntimeView<V>, now: Span)
    requires
        view.pending.dom().finite(),
        forall|slot: SlotIndex| #[trigger]
            view.pending.dom().contains(slot) ==> has_its_turn(view, slot, now),
    ensures
        view.assign_deadlines(now).1 is Ok,
        view.assign_deadlines(now).0.tuner == view.tuner,
{
    let all = collections::in_order(view.pending.dom());
    let slots = view.unarmed_of(all);
    collections::lemma_in_order_exists(view.pending.dom());
    lemma_unarmed_are_pending(view, all);
    assert forall|i: int| 0 <= i < slots.len() implies has_its_turn(view, #[trigger] slots[i], now) by {
        let k = choose|k: int| 0 <= k < all.len() && #[trigger] all[k] == slots[i];
        assert(all.to_set().contains(all[k]));
        assert(view.pending.dom().contains(all[k]));
    }
    lemma_turns_are_given(view, slots, now);
    lemma_deadlines_keep_the_tuner(view, slots, view.deadlines(slots, now).1->Ok_0);
}

proof fn lemma_unarmed_are_pending<V>(view: RuntimeView<V>, slots: Seq<SlotIndex>)
    ensures
        forall|i: int|
            0 <= i < view.unarmed_of(slots).len() ==> exists|k: int|
                0 <= k < slots.len() && #[trigger] slots[k] == (#[trigger] view.unarmed_of(
                    slots,
                )[i]),
    decreases slots.len(),
{
    if slots.len() > 0 {
        let rest = slots.drop_last();
        lemma_unarmed_are_pending(view, rest);
        let list = view.unarmed_of(slots);
        assert forall|i: int| 0 <= i < list.len() implies exists|k: int|
            0 <= k < slots.len() && #[trigger] slots[k] == (#[trigger] list[i]) by {
            if i < view.unarmed_of(rest).len() {
                let k = choose|k: int|
                    0 <= k < rest.len() && #[trigger] rest[k] == view.unarmed_of(rest)[i];
                assert(slots[k] == list[i]);
            } else {
                assert(slots[slots.len() - 1] == list[i]);
            }
        }
    }
}

proof fn lemma_deadlines_keep_the_tuner<V>(
    view: RuntimeView<V>,
    slots: Seq<SlotIndex>,
    list: Seq<Span>,
)
    ensures
        view.with_deadlines(slots, list).tuner == view.tuner,
    decreases slots.len(),
{
    if slots.len() > 0 {
        lemma_deadlines_keep_the_tuner(view, slots.drop_last(), list.drop_last());
    }
}

/// A replica asks the recorders first wherever there is a delay and another
/// replica leads. The leader, and everyone where there is no delay, proposes at
/// once.
pub proof fn only_hedgers_ask_first<V>(
    view: RuntimeView<V>,
    node: NodeView<V>,
    schedule: ScheduleView,
    slot: SlotIndex,
    leader: ReplicaId,
)
    requires
        schedule.proposers.len() > 0,
    ensures
        view.hedges(schedule) <==> view.hedge.current.nanos > 0 && schedule.proposers[0]
            != view.config.replica_id,
        ({
            let asks = node.core.hedge.current.nanos > 0 && leader != node.core.config.replica_id;
            let pending = node.core.pending.dom().contains(slot);
            &&& node.in_place(slot, leader) == (TurnAction::AskRecorders { leader }) <==> asks
            &&& node.in_place(slot, leader) == (TurnAction::Propose { leader }) <==> !asks
                && pending
            &&& node.in_place(slot, leader) == TurnAction::StandDown <==> !asks && !pending
        }),
{
}

} // verus!
