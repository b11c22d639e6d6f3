//! What a snapshot must be like for a restart to accept it: nothing that a
//! recorder, a replica or a runtime could not have come to hold by itself.

use crate::cluster::ClusterView;
use crate::collections;
use crate::error::ErrorView;
use crate::network::node_runtime::NodeView;
use crate::recorder;
use crate::recorder::{RecorderConfigView, RecorderView};
use crate::replica::ReplicaView;
use crate::runtime_state::{RuntimeView, SnapshotView};
use crate::schedule::RuntimeConfigView;
use crate::types::{ProposalView, ReplicaId, SlotIndex};
use vstd::prelude::*;

verus! {

/// A proposal that a recorder could have recorded.
pub open spec fn is_recordable<V>(recorder: RecorderView<V>, proposal: ProposalView<V>) -> bool {
    &&& recorder.state.cluster.members.contains(proposal.key.proposer_id)
    &&& 1 <= proposal.value_ids.len() <= recorder.limits.max_values_per_proposal
    &&& forall|i: int, j: int|
        0 <= i < j < proposal.value_ids.len() ==> #[trigger] proposal.value_ids[i]
            != #[trigger] proposal.value_ids[j]
}

/// A decision that a recorder could retain for a slot.
pub open spec fn is_retainable<V>(recorder: RecorderView<V>, slot: SlotIndex) -> bool {
    let decision = recorder.state.decisions[slot];
    &&& decision.slot == slot
    &&& slot.0 > recorder.state.pruned_through.0
    &&& recorder.state.cluster.members.contains(decision.proposer)
    &&& decision.decided_step.0 <= recorder.limits.max_step.0
    &&& 1 <= decision.value_ids.len() <= recorder.limits.max_values_per_proposal
    &&& decision.value_ids.no_duplicates()
}

/// An active slot that a recorder could hold.
pub open spec fn is_holdable<V>(recorder: RecorderView<V>, slot: SlotIndex) -> bool {
    let register = recorder.state.slots[slot];
    &&& slot.0 > recorder.state.pruned_through.0
    &&& recorder.state.round_one_leaders.dom().contains(slot)
    &&& recorder.state.round_one_leaders[slot] matches Some(leader)
        ==> recorder.state.cluster.members.contains(leader)
    &&& 4 <= register.step.0 <= recorder.limits.max_step.0
    &&& register.first matches Some(first) && is_recordable(recorder, first)
    &&& register.current_aggregate matches Some(best) && is_recordable(recorder, best)
    &&& register.prior_aggregate matches Some(prior) ==> is_recordable(recorder, prior)
}

proof fn lemma_recordable<V>(recorder: RecorderView<V>, proposal: ProposalView<V>)
    ensures
        recorder.proposal_error(proposal) is None <==> is_recordable(recorder, proposal),
{
    let values = proposal.value_ids;
    if forall|i: int, j: int|
        0 <= i < j < values.len() ==> #[trigger] values[i] != #[trigger] values[j] {
        assert(values.no_duplicates());
    }
}

/// A recorder restarts from a snapshot exactly where the snapshot is of its own
/// cluster, keeps its limits, retains only decisions of members under their own
/// slots, and holds only slots above the pruning floor, each bound to a member or
/// to nobody and with proposals of members.
pub proof fn restored_recorders_are_well_formed<V>(
    recorder: RecorderView<V>,
    configured: ClusterView,
)
    requires
        recorder.state.slots.dom().finite(),
        recorder.state.decisions.dom().finite(),
    ensures
        recorder.restore_error(configured) is None <==> {
            &&& recorder.state.cluster == configured
            &&& recorder.state.slots.dom().len() <= recorder.limits.max_active_slots
            &&& recorder.state.decisions.dom().len() <= recorder.limits.max_decisions
            &&& forall|slot: SlotIndex| #[trigger]
                recorder.state.decisions.dom().contains(slot) ==> is_retainable(recorder, slot)
            &&& forall|slot: SlotIndex| #[trigger]
                recorder.state.slots.dom().contains(slot) ==> is_holdable(recorder, slot)
            &&& forall|slot: SlotIndex| #[trigger]
                recorder.state.round_one_leaders.dom().contains(slot)
                    ==> recorder.state.slots.dom().contains(slot)
        },
{
    let state = recorder.state;
    let decided = collections::in_order(state.decisions.dom());
    let active = collections::in_order(state.slots.dom());
    let decision_rule = |slot: SlotIndex| recorder.retained_decision_error(slot);
    let register_rule = |slot: SlotIndex| recorder.register_error(state.slots[slot]);
    collections::lemma_in_order_exists(state.decisions.dom());
    collections::lemma_in_order_exists(state.slots.dom());
    recorder::lemma_no_error(decided, decision_rule);
    recorder::lemma_no_error(active, register_rule);
    assert forall|slot: SlotIndex| #[trigger] recorder.retained_decision_error(
        slot,
    ) is None <==> is_retainable(recorder, slot) by {}
    assert forall|slot: SlotIndex| #[trigger] recorder.register_error(state.slots[slot]) is None
        <==> {
        let register = state.slots[slot];
        &&& 4 <= register.step.0 <= recorder.limits.max_step.0
        &&& register.first matches Some(first) && is_recordable(recorder, first)
        &&& register.current_aggregate matches Some(best) && is_recordable(recorder, best)
        &&& register.prior_aggregate matches Some(prior) ==> is_recordable(recorder, prior)
    } by {
        let register = state.slots[slot];
        if register.first is Some {
            lemma_recordable(recorder, register.first->0);
        }
        if register.current_aggregate is Some {
            lemma_recordable(recorder, register.current_aggregate->0);
        }
        if register.prior_aggregate is Some {
            lemma_recordable(recorder, register.prior_aggregate->0);
        }
    }
    if recorder.restore_error(configured) is None {
        assert forall|slot: SlotIndex| #[trigger] state.decisions.dom().contains(
            slot,
        ) implies is_retainable(recorder, slot) by {
            assert(decided.to_set().contains(slot));
            let k = choose|k: int| 0 <= k < decided.len() && decided[k] == slot;
            assert(decision_rule(decided[k]) is None);
        }
        assert forall|slot: SlotIndex| #[trigger] state.slots.dom().contains(
            slot,
        ) implies is_holdable(recorder, slot) by {
            assert(active.to_set().contains(slot));
            let k = choose|k: int| 0 <= k < active.len() && active[k] == slot;
            assert(register_rule(active[k]) is None);
            assert(state.round_one_leaders.dom().contains(slot));
        }
    }
    if {
        &&& state.cluster == configured
        &&& state.slots.dom().len() <= recorder.limits.max_active_slots
        &&& state.decisions.dom().len() <= recorder.limits.max_decisions
        &&& forall|slot: SlotIndex| #[trigger]
            state.decisions.dom().contains(slot) ==> is_retainable(recorder, slot)
        &&& forall|slot: SlotIndex| #[trigger]
            state.slots.dom().contains(slot) ==> is_holdable(recorder, slot)
        &&& forall|slot: SlotIndex| #[trigger]
            state.round_one_leaders.dom().contains(slot) ==> state.slots.dom().contains(slot)
    } {
        assert forall|i: int| 0 <= i < decided.len() implies decision_rule(
            #[trigger] decided[i],
        ) is None by {
            assert(decided.to_set().contains(decided[i]));
            assert(state.decisions.dom().contains(decided[i]));
        }
        assert forall|i: int| 0 <= i < active.len() implies register_rule(
            #[trigger] active[i],
        ) is None by {
            assert(active.to_set().contains(active[i]));
            assert(state.slots.dom().contains(active[i]));
        }
        assert(state.round_one_leaders.dom() =~= state.slots.dom()) by {
            assert forall|slot: SlotIndex| state.slots.dom().contains(
                slot,
            ) implies state.round_one_leaders.dom().contains(slot) by {
                assert(is_holdable(recorder, slot));
            }
        }
        assert(recorder.leaders_known()) by {
            assert forall|slot: SlotIndex| #[trigger]
                state.round_one_leaders.dom().contains(
                    slot,
                ) implies (match state.round_one_leaders[slot] {
                Some(leader) => recorder.knows(leader),
                None => true,
            }) by {
                assert(state.slots.dom().contains(slot));
            }
        }
        assert(!exists|slot: SlotIndex|
            state.slots.dom().contains(slot) && slot.0 <= state.pruned_through.0) by {
            if exists|slot: SlotIndex|
                state.slots.dom().contains(slot) && slot.0 <= state.pruned_through.0 {
                let slot = choose|slot: SlotIndex|
                    state.slots.dom().contains(slot) && slot.0 <= state.pruned_through.0;
                assert(is_holdable(recorder, slot));
            }
        }
    }
}

/// A replica restarts from a snapshot exactly where the snapshot keeps its
/// limits, tracks every value that is queued, proposed or decided, and has
/// committed each slot between its pruning floor and its frontier, with a
/// decision, and none from the frontier on.
pub proof fn restored_replicas_are_well_formed<V>(replica: ReplicaView<V>)
    ensures
        replica.restore_error() is None <==> {
            let state = replica.state;
            &&& state.pending.len() <= replica.config.max_pending_values
            &&& state.log.dom().remove(SlotIndex(0)).len() <= replica.config.max_log_slots
            &&& state.seen_value_ids.len() <= replica.config.max_tracked_value_ids
            &&& forall|value: V| #[trigger]
                state.pending.contains(value) ==> state.seen_value_ids.contains(value)
            &&& forall|slot: SlotIndex, value: V|
                #![trigger state.log[slot].proposed.contains(value)]
                state.log.dom().contains(slot) && state.log[slot].proposed.contains(value)
                    ==> state.seen_value_ids.contains(value)
            &&& forall|slot: SlotIndex, value: V|
                #![trigger state.log[slot].decision->0.value_ids.contains(value)]
                state.log.dom().contains(slot) && state.log[slot].decision is Some
                    && state.log[slot].decision->0.value_ids.contains(value)
                    ==> state.seen_value_ids.contains(value)
            &&& state.log.dom().contains(SlotIndex(0)) && state.log[SlotIndex(0)].committed
            &&& state.next_commit.0 > state.checkpointed_through.0
            &&& forall|slot: SlotIndex|
                #![trigger state.log[slot]]
                state.checkpointed_through.0 < slot.0 < state.next_commit.0
                    ==> state.log.dom().contains(slot) && state.log[slot].committed
                    && state.log[slot].decision is Some
            &&& forall|slot: SlotIndex|
                #![trigger state.log[slot]]
                state.log.dom().contains(slot) && slot.0 != 0 && slot.0 >= state.next_commit.0
                    ==> !state.log[slot].committed
        },
{
    let state = replica.state;
    if replica.restore_error() is None {
        assert forall|value: V| #[trigger] state.pending.contains(
            value,
        ) implies state.seen_value_ids.contains(value) by {
            let i = state.pending.index_of(value);
            assert(state.seen_value_ids.contains(state.pending[i]));
        }
        assert forall|slot: SlotIndex, value: V|
            #![trigger state.log[slot].proposed.contains(value)]
            state.log.dom().contains(slot) && state.log[slot].proposed.contains(
                value,
            ) implies state.seen_value_ids.contains(value) by {
            assert(state.slot_tracked(slot));
            assert(state.log[slot].proposed.to_set().contains(value));
        }
        assert forall|slot: SlotIndex, value: V|
            #![trigger state.log[slot].decision->0.value_ids.contains(value)]
            state.log.dom().contains(slot) && state.log[slot].decision is Some
                && state.log[slot].decision->0.value_ids.contains(
                value,
            ) implies state.seen_value_ids.contains(value) by {
            assert(state.slot_tracked(slot));
            assert(state.log[slot].decision->0.value_ids.to_set().contains(value));
        }
        assert forall|slot: SlotIndex|
            #![trigger state.log[slot]]
            state.checkpointed_through.0 < slot.0
                < state.next_commit.0 implies state.log.dom().contains(slot)
            && state.log[slot].committed && state.log[slot].decision is Some by {
            assert(state.settled(slot));
        }
    }
    if {
        &&& forall|value: V| #[trigger]
            state.pending.contains(value) ==> state.seen_value_ids.contains(value)
        &&& forall|slot: SlotIndex, value: V|
            #![trigger state.log[slot].proposed.contains(value)]
            state.log.dom().contains(slot) && state.log[slot].proposed.contains(value)
                ==> state.seen_value_ids.contains(value)
        &&& forall|slot: SlotIndex, value: V|
            #![trigger state.log[slot].decision->0.value_ids.contains(value)]
            state.log.dom().contains(slot) && state.log[slot].decision is Some
                && state.log[slot].decision->0.value_ids.contains(value)
                ==> state.seen_value_ids.contains(value)
    } {
        assert(state.all_tracked()) by {
            assert forall|i: int| 0 <= i < state.pending.len() implies state.seen_value_ids.contains(
                #[trigger] state.pending[i],
            ) by {
                assert(state.pending.contains(state.pending[i]));
            }
            assert forall|slot: SlotIndex| #[trigger] state.log.dom().contains(
                slot,
            ) implies state.slot_tracked(slot) by {
                assert forall|value: V| state.log[slot].proposed.to_set().contains(
                    value,
                ) implies state.seen_value_ids.contains(value) by {
                    assert(state.log[slot].proposed.contains(value));
                }
                if state.log[slot].decision is Some {
                    assert forall|value: V| state.log[slot].decision->0.value_ids.to_set().contains(
                        value,
                    ) implies state.seen_value_ids.contains(value) by {
                        assert(state.log[slot].decision->0.value_ids.contains(value));
                    }
                }
            }
        }
    }
    if forall|slot: SlotIndex|
        #![trigger state.log[slot]]
        state.checkpointed_through.0 < slot.0 < state.next_commit.0 ==> state.log.dom().contains(
            slot,
        ) && state.log[slot].committed && state.log[slot].decision is Some {
        assert forall|slot: SlotIndex|
            state.checkpointed_through.0 < slot.0
                < state.next_commit.0 implies #[trigger] state.settled(slot) by {
            assert(state.log[slot].committed);
        }
        assert(state.contiguous());
    }
}

/// A runtime that restarts from a snapshot goes on with what was saved, under its
/// own configuration. Every decision is of a member and repeats no value, nothing
/// is pending that is decided or committed, only decided slots were executed, only
/// executed ones told to the client, and only members have acknowledged. Every
/// schedule lists each member once.
pub proof fn restarted_runtimes_are_well_formed<V>(
    config: RuntimeConfigView,
    saved: SnapshotView<V>,
    slot: SlotIndex,
    epoch: u64,
    member: ReplicaId,
)
    requires
        RuntimeView::start(config, Some(saved)) is Ok,
        saved.decisions.dom().finite(),
        saved.schedules.dom().finite(),
        saved.pending.dom().finite(),
    ensures
        ({
            let view = RuntimeView::start(config, Some(saved))->Ok_0;
            &&& saved.cluster == config.cluster
            &&& saved.protocol.epoch_size == config.epoch_size
            &&& saved.protocol.auto_schedules == config.auto_schedules
            &&& view.config == config
            &&& view.replica.state == saved.replica && view.replica.config == config.replica
            &&& view.decisions == saved.decisions
            &&& view.executed == saved.executed && view.notified == saved.notified
            &&& view.announced_to == saved.announced_to
            &&& view.tuner.schedules == saved.schedules
            &&& view.tuner.stats == saved.epoch_stats
            &&& view.tuner.stats_through == saved.stats_through
            &&& view.pending.dom() == saved.pending.dom()
            &&& saved.pending.dom().contains(slot) ==> view.pending[slot].value_ids
                == saved.pending[slot] && !saved.decisions.dom().contains(slot) && slot.0
                >= saved.replica.next_commit.0
            &&& saved.decisions.dom().contains(slot) ==> {
                &&& config.cluster.members.contains(saved.decisions[slot].proposer)
                &&& saved.decisions[slot].value_ids.len() > 0
                &&& saved.decisions[slot].value_ids.no_duplicates()
            }
            &&& saved.notified.contains(slot) ==> saved.executed.contains(slot)
            &&& saved.executed.contains(slot) ==> saved.decisions.dom().contains(slot)
            &&& saved.announced_to.dom().contains(slot) ==> saved.decisions.dom().contains(slot)
            &&& saved.announced_to.dom().contains(slot) && saved.announced_to[slot].contains(member)
                ==> config.cluster.members.contains(member)
            &&& saved.schedules.dom().contains(epoch) ==> {
                &&& saved.schedules[epoch].epoch == epoch
                &&& saved.schedules[epoch].proposers.no_duplicates()
                &&& saved.schedules[epoch].proposers.contains(member)
                    <==> config.cluster.members.contains(member)
            }
            &&& saved.epoch_stats.dom().contains(epoch) ==> {
                &&& config.cluster.members.contains(saved.epoch_stats[epoch].leader)
                &&& saved.epoch_stats[epoch].slots > 0
            }
        }),
{
    let view = RuntimeView::resumed(config, saved);
    let epochs = collections::in_order(view.tuner.schedules.dom());
    let decided = collections::in_order(view.decisions.dom());
    let waiting = collections::in_order(view.pending.dom());
    let schedule_rule = |other: u64| view.schedule_error(view.tuner.schedules[other]);
    let decision_rule = |other: SlotIndex| view.decision_error(view.decisions[other]);
    let pending_rule = |other: SlotIndex| view.pending_error(other);
    assert(view.pending.dom() =~= saved.pending.dom());
    collections::lemma_in_order_exists(view.tuner.schedules.dom());
    collections::lemma_in_order_exists(view.decisions.dom());
    collections::lemma_in_order_exists(view.pending.dom());
    recorder::lemma_no_error(epochs, schedule_rule);
    recorder::lemma_no_error(decided, decision_rule);
    recorder::lemma_no_error(waiting, pending_rule);
    if saved.pending.dom().contains(slot) {
        assert(waiting.to_set().contains(slot));
        let k = choose|k: int| 0 <= k < waiting.len() && waiting[k] == slot;
        assert(pending_rule(waiting[k]) is None);
        assert(view.replica.state.rooted());
    }
    if saved.decisions.dom().contains(slot) {
        assert(decided.to_set().contains(slot));
        let k = choose|k: int| 0 <= k < decided.len() && decided[k] == slot;
        assert(decision_rule(decided[k]) is None);
    }
    assert(view.restart_error() is None);
    assert(view.metadata_error() is None);
    if saved.announced_to.dom().contains(slot) {
        assert(view.announced_to.dom().contains(slot));
    }
    if saved.announced_to.dom().contains(slot) && saved.announced_to[slot].contains(member) {
        assert(view.announced_to[slot].contains(member));
        assert(view.members().to_set().contains(member));
    }
    if saved.schedules.dom().contains(epoch) {
        assert(epochs.to_set().contains(epoch));
        let k = choose|k: int| 0 <= k < epochs.len() && epochs[k] == epoch;
        assert(schedule_rule(epochs[k]) is None);
        let proposers = saved.schedules[epoch].proposers;
        assert(proposers.to_set().contains(member) == view.members().to_set().contains(member));
    }
    if saved.epoch_stats.dom().contains(epoch) {
        assert(view.tuner.stats.dom().contains(epoch));
    }
}

/// A networked node that restarts from a snapshot goes on with what was saved,
/// without clocks. Every decision stands in the log under its own slot and is of
/// a member, every pending slot is proposed in the log as it is pending, and only
/// decided slots were executed.
pub proof fn restarted_nodes_are_well_formed<V>(
    config: RuntimeConfigView,
    saved: SnapshotView<V>,
    slot: SlotIndex,
)
    requires
        NodeView::start(config, Some(saved)) is Ok,
        saved.decisions.dom().finite(),
        saved.pending.dom().finite(),
    ensures
        ({
            let node = NodeView::start(config, Some(saved))->Ok_0;
            let log = saved.replica.log;
            &&& saved.cluster == config.cluster
            &&& node.core.config == config
            &&& node.core.decisions == saved.decisions
            &&& node.core.replica.state == saved.replica
            &&& node.core.executed == saved.executed && node.core.notified == saved.executed
            &&& node.core.pending.dom() == saved.pending.dom()
            &&& node.armed_at.dom() == Set::<SlotIndex>::empty()
            &&& node.observed.dom() == Set::<SlotIndex>::empty()
            &&& saved.decisions.dom().contains(slot) ==> {
                &&& saved.decisions[slot].slot == slot
                &&& config.cluster.members.contains(saved.decisions[slot].proposer)
                &&& log.dom().contains(slot) && log[slot].decision is Some
                &&& log[slot].decision->0.value_ids == saved.decisions[slot].value_ids
            }
            &&& saved.pending.dom().contains(slot) ==> {
                &&& node.core.pending[slot].value_ids == saved.pending[slot]
                &&& log.dom().contains(slot) && log[slot].decision is None
                &&& log[slot].proposed == saved.pending[slot]
            }
            &&& saved.executed.contains(slot) ==> saved.decisions.dom().contains(slot)
        }),
{
    let kept = crate::network::node_runtime::node_snapshot(saved);
    let node = NodeView::around(RuntimeView::resumed(config, kept));
    let decided = collections::in_order(node.core.decisions.dom());
    let waiting = collections::in_order(node.core.pending.dom());
    let decision_rule = |other: SlotIndex| node.decision_error(other);
    let pending_rule = |other: SlotIndex| node.pending_error(other);
    assert(node.core.pending.dom() =~= saved.pending.dom());
    collections::lemma_in_order_exists(node.core.decisions.dom());
    collections::lemma_in_order_exists(node.core.pending.dom());
    recorder::lemma_no_error(decided, decision_rule);
    recorder::lemma_no_error(waiting, pending_rule);
    if saved.decisions.dom().contains(slot) {
        assert(decided.to_set().contains(slot));
        let k = choose|k: int| 0 <= k < decided.len() && decided[k] == slot;
        assert(decision_rule(decided[k]) is None);
    }
    if saved.pending.dom().contains(slot) {
        assert(waiting.to_set().contains(slot));
        let k = choose|k: int| 0 <= k < waiting.len() && waiting[k] == slot;
        assert(pending_rule(waiting[k]) is None);
    }
}

/// Without a snapshot everything starts with nothing: no slot is recorded,
/// decided, pending, executed or committed but the first of the log, which holds
/// no decision, and counting begins behind it.
pub proof fn everything_starts_with_nothing<V>(
    config: RuntimeConfigView,
    recorder: RecorderConfigView,
    slot: SlotIndex,
    epoch: u64,
)
    ensures
        RuntimeView::<V>::start(config, None) matches Ok(view) && {
            &&& view.config == config
            &&& !view.decisions.dom().contains(slot) && !view.pending.dom().contains(slot)
            &&& !view.executed.contains(slot) && !view.notified.contains(slot)
            &&& !view.announced_to.dom().contains(slot)
            &&& !view.tuner.schedules.dom().contains(epoch)
            &&& !view.tuner.stats.dom().contains(epoch)
            &&& view.tuner.stats_through.0 == 0
            &&& view.tuner.members == config.cluster.members
            &&& view.tuner.auto == config.auto_schedules
            &&& config.epoch_size > 0 ==> view.tuner.epoch_size == config.epoch_size
            &&& view.replica.config == config.replica
            &&& view.replica.state.pending.len() == 0
            &&& view.replica.state.next_commit.0 == 1
            &&& view.replica.state.checkpointed_through.0 == 0
            &&& view.replica.state.log.dom().contains(slot) <==> slot.0 == 0
            &&& view.replica.state.entry(slot).decision is None
            &&& view.replica.state.entry(slot).proposed.len() == 0
            &&& view.committed_through().0 == 0
            &&& view.noop_value is None
        },
        NodeView::<V>::start(config, None) matches Ok(node) && {
            &&& node.core == RuntimeView::<V>::start(config, None)->Ok_0
            &&& !node.armed_at.dom().contains(slot) && !node.observed.dom().contains(slot)
        },
        ({
            let fresh = RecorderView::<V>::initial(recorder);
            &&& fresh.id == recorder.id && fresh.limits == recorder.limits
            &&& fresh.state.cluster == recorder.cluster
            &&& !fresh.state.slots.dom().contains(slot)
            &&& !fresh.state.decisions.dom().contains(slot)
            &&& !fresh.state.round_one_leaders.dom().contains(slot)
            &&& fresh.state.pruned_through.0 == 0
        }),
{
}

/// What is committed ends right before the slot that is to be committed next.
pub proof fn the_frontier_follows_what_is_committed<V>(view: RuntimeView<V>)
    requires
        view.replica.state.next_commit.0 > 0,
    ensures
        view.committed_through().0 + 1 == view.replica.state.next_commit.0,
        view.replica.state.committed_through() == view.committed_through(),
{
}

/// What is saved of a runtime is all that it needs to go on: its log and queue,
/// its decisions, what is pending, what was executed, told and acknowledged, and
/// its schedules and statistics.
pub proof fn snapshots_hold_the_state<V>(view: RuntimeView<V>, slot: SlotIndex)
    ensures
        ({
            let saved = view.snapshot();
            &&& saved.cluster == view.config.cluster
            &&& saved.protocol.epoch_size == view.config.epoch_size
            &&& saved.protocol.auto_schedules == view.config.auto_schedules
            &&& saved.replica == view.replica.state
            &&& saved.decisions == view.decisions
            &&& saved.executed == view.executed && saved.notified == view.notified
            &&& saved.announced_to == view.announced_to
            &&& saved.schedules == view.tuner.schedules
            &&& saved.epoch_stats == view.tuner.stats
            &&& saved.stats_through == view.tuner.stats_through
            &&& saved.pending.dom().contains(slot) <==> view.pending.dom().contains(slot)
            &&& view.pending.dom().contains(slot) ==> saved.pending[slot]
                == view.pending[slot].value_ids
        }),
{
}

} // verus!
