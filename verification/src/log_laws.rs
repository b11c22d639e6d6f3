//! Laws of the replica log: which proposals and decisions it takes in, what it
//! gives back to the queue, and what it drops.

use crate::replica::{ReplicaState, ReplicaView};
use crate::replica_laws;
use crate::types::{DecisionView, SlotIndex};
use vstd::prelude::*;

verus! {

/// The slots from the frontier on that hold a proposal of the replica's own and
/// are not committed.
pub open spec fn outstanding<V>(state: ReplicaState<V>) -> Set<SlotIndex> {
    Set::new(
        |slot: SlotIndex|
            {
                &&& state.log.dom().contains(slot)
                &&& slot.0 >= state.next_commit.0
                &&& state.log[slot].proposed.len() > 0
                &&& !state.log[slot].committed
            },
    )
}

/// The values of a local proposal that a decision for its slot leaves out.
pub open spec fn left_out<V>(proposed: Seq<V>, decided: Seq<V>) -> Seq<V>
    decreases proposed.len(),
{
    if proposed.len() == 0 {
        Seq::empty()
    } else if decided.contains(proposed.last()) {
        left_out(proposed.drop_last(), decided)
    } else {
        left_out(proposed.drop_last(), decided).push(proposed.last())
    }
}

/// Whether a log has room for an entry of a slot.
pub open spec fn has_room<V>(replica: ReplicaView<V>, slot: SlotIndex) -> bool {
    replica.state.log.dom().contains(slot) || replica.state.log.dom().remove(SlotIndex(0)).len()
        < replica.config.max_log_slots
}

proof fn lemma_left_out<V>(proposed: Seq<V>, decided: Seq<V>)
    ensures
        proposed.filter(|value: V| !decided.contains(value)) == left_out(proposed, decided),
        (forall|i: int| 0 <= i < proposed.len() ==> decided.contains(#[trigger] proposed[i]))
            ==> left_out(proposed, decided).len() == 0,
    decreases proposed.len(),
{
    reveal(Seq::filter);
    if proposed.len() > 0 {
        lemma_left_out(proposed.drop_last(), decided);
        if forall|i: int| 0 <= i < proposed.len() ==> decided.contains(#[trigger] proposed[i]) {
            assert(decided.contains(proposed[proposed.len() - 1]));
            assert forall|i: int| 0 <= i < proposed.drop_last().len() implies decided.contains(
                #[trigger] proposed.drop_last()[i],
            ) by {
                assert(decided.contains(proposed[i]));
            }
        }
    }
}

proof fn lemma_losing<V>(replica: ReplicaView<V>, decision: DecisionView<V>)
    ensures
        replica.losing_values(decision) == left_out(
            replica.state.entry(decision.slot).proposed,
            decision.value_ids,
        ),
{
    let proposed = replica.state.entry(decision.slot).proposed;
    lemma_left_out(proposed, decision.value_ids);
    if !replica.contested(decision) && proposed.len() > 0 {
        assert forall|i: int| 0 <= i < proposed.len() implies decision.value_ids.contains(
            #[trigger] proposed[i],
        ) by {
            assert(decision.value_ids[i] == proposed[i]);
        }
    }
}

/// A decision gives back to the queue, in front of it, exactly the values of the
/// replica's own proposal for the slot that it leaves out, in their order.
pub proof fn left_out_values_go_to_the_front<V>(replica: ReplicaView<V>, decision: DecisionView<V>)
    requires
        replica.consistent(),
        replica_laws::keyed(replica.state),
        replica.apply_decision(decision).1 is Ok,
        replica.state.entry(decision.slot).decision is None,
    ensures
        ({
            let after = replica.apply_decision(decision).0.state;
            &&& after.pending == left_out(
                replica.state.entry(decision.slot).proposed,
                decision.value_ids,
            ) + replica.state.pending
            &&& after.entry(decision.slot).decision == Some(decision)
            &&& after.seen_value_ids == replica.state.seen_value_ids.union(
                decision.value_ids.to_set(),
            )
        }),
{
    lemma_losing(replica, decision);
    replica_laws::losing_values_are_requeued(replica, decision);
    replica_laws::lemma_new_decision(replica, decision);
    lemma_commits_keep_tracked(replica.with_decision(decision));
}

proof fn lemma_commits_keep_tracked<V>(state: ReplicaState<V>)
    ensures
        state.commit_ready().0.seen_value_ids == state.seen_value_ids,
    decreases u64::MAX - state.next_commit.0,
{
    let entry = state.entry(state.next_commit);
    if entry.committed {
        if state.next_commit.0 < u64::MAX {
            lemma_commits_keep_tracked(state.advanced());
        }
    } else if entry.decision is Some && state.next_commit.0 < u64::MAX {
        let marked = state.with_entry(
            state.next_commit,
            crate::replica::LogSlotView {
                proposed: Seq::empty(),
                decision: entry.decision,
                committed: true,
            },
        );
        lemma_commits_keep_tracked(marked.advanced());
    }
}

/// A decision is taken in exactly where it has values and repeats none, where
/// they can be tracked and the log has room for the slot, and where it agrees
/// with what is decided there. What it leaves out must fit into the queue. Only
/// the last slot there is cannot be committed. A refused decision changes
/// nothing.
pub proof fn decisions_are_refused_for_cause<V>(replica: ReplicaView<V>, decision: DecisionView<V>)
    requires
        replica.consistent(),
        replica_laws::keyed(replica.state),
        replica.state.entry(SlotIndex(u64::MAX)).decision is None,
        decision.slot.0 < u64::MAX,
    ensures
        ({
            let (after, applied) = replica.apply_decision(decision);
            let entry = replica.state.entry(decision.slot);
            &&& applied is Ok <==> {
                &&& decision.value_ids.len() > 0
                &&& decision.value_ids.no_duplicates()
                &&& replica.state.seen_value_ids.union(decision.value_ids.to_set()).len()
                    <= replica.config.max_tracked_value_ids
                &&& has_room(replica, decision.slot)
                &&& match entry.decision {
                    Some(known) => known.value_ids == decision.value_ids,
                    None => left_out(entry.proposed, decision.value_ids).len()
                        + replica.state.pending.len() <= replica.config.max_pending_values,
                }
            }
            &&& applied is Err ==> after == replica
        }),
{
    lemma_losing(replica, decision);
    if replica.decision_error(decision) is None && replica.state.entry(
        decision.slot,
    ).decision is None {
        replica_laws::lemma_new_decision(replica, decision);
    }
}

/// A replica notes a proposal of its own exactly where it has values and repeats
/// none, where they can be tracked and the log has room for the slot. Then the
/// slot's entry holds the proposal, and nothing else of the log changes.
pub proof fn noted_proposals_are_entered<V>(
    replica: ReplicaView<V>,
    slot: SlotIndex,
    values: Seq<V>,
    other: SlotIndex,
)
    ensures
        ({
            let (after, noted) = replica.note_proposed(slot, values);
            let (before, state) = (replica.state, after.state);
            &&& noted is Ok <==> {
                &&& values.len() > 0
                &&& values.no_duplicates()
                &&& before.seen_value_ids.union(values.to_set()).len()
                    <= replica.config.max_tracked_value_ids
                &&& has_room(replica, slot)
            }
            &&& noted is Err ==> after == replica
            &&& noted is Ok ==> {
                &&& state.entry(slot).proposed == values
                &&& state.entry(slot).decision == before.entry(slot).decision
                &&& state.entry(slot).committed == before.entry(slot).committed
                &&& other != slot ==> state.entry(other) == before.entry(other)
                &&& state.seen_value_ids == before.seen_value_ids.union(values.to_set())
                &&& state.last_proposed.0 >= slot.0
                &&& state.last_proposed.0 >= before.last_proposed.0
                &&& state.last_proposed == slot || state.last_proposed == before.last_proposed
                &&& state.pending == before.pending
                &&& state.next_commit == before.next_commit
                &&& state.checkpointed_through == before.checkpointed_through
            }
        }),
{
}

proof fn lemma_no_open_slot<V>(state: ReplicaState<V>, from: SlotIndex, slot: SlotIndex)
    ensures
        state.open_slot_from(from) is None && slot.0 >= from.0 ==> state.entry(
            slot,
        ).decision is Some || state.entry(slot).proposed.len() > 0,
    decreases u64::MAX - from.0,
{
    if state.claimed(from) && from.0 < u64::MAX && slot.0 > from.0 {
        lemma_no_open_slot(state, SlotIndex((from.0 + 1) as u64), slot);
    }
}

/// A replica withholds a proposal exactly where nothing is queued or as many of
/// its own are outstanding as the pipeline holds. It is refused one only where no
/// slot is open from the frontier on, or where the values at the front of the
/// queue cannot be noted for the open slot.
pub proof fn proposals_are_withheld_for_cause<V>(replica: ReplicaView<V>, slot: SlotIndex)
    requires
        replica.state.log.dom().finite(),
    ensures
        ({
            let (after, next) = replica.next_proposal();
            let state = replica.state;
            let idle = state.pending.len() == 0 || outstanding(state).len()
                >= replica.config.pipeline_len;
            &&& (next matches Ok(None)) <==> idle
            &&& next matches Ok(None) ==> after == replica
            &&& next is Err ==> {
                ||| slot.0 >= state.next_commit.0 ==> state.entry(slot).decision is Some
                    || state.entry(slot).proposed.len() > 0
                ||| exists|cut: int, open: SlotIndex|
                    #![trigger state.pending.take(cut), state.entry(open)]
                    0 < cut <= state.pending.len() && state.entry(open).decision is None
                        && state.entry(open).proposed.len() == 0 && {
                        let values = state.pending.take(cut);
                        ||| !values.no_duplicates()
                        ||| state.seen_value_ids.union(values.to_set()).len()
                            > replica.config.max_tracked_value_ids
                        ||| !has_room(replica, open)
                    }
            }
            &&& next matches Ok(Some((open, values))) ==> {
                &&& after.state.last_proposed.0 >= open.0
                &&& after.state.last_proposed == open || after.state.last_proposed
                    == state.last_proposed
                &&& outstanding(after.state) == outstanding(state).insert(open) || state.entry(
                    open,
                ).committed
            }
        }),
{
    let state = replica.state;
    assert(state.log.dom().filter(|other: SlotIndex| state.in_flight(other)) =~= outstanding(state));
    lemma_no_open_slot(state, state.next_commit, slot);
    replica_laws::proposals_take_the_front(replica);
    let (after, next) = replica.next_proposal();
    if next is Err && state.open_slot_from(state.next_commit) is Some {
        let open = state.open_slot_from(state.next_commit)->0;
        let cut = replica.batch_len();
        let values = state.pending.take(cut);
        lemma_open_is_open(state, state.next_commit);
        assert(0 < cut <= state.pending.len());
        assert(state.entry(open).decision is None);
    }
    if let Ok(Some((open, values))) = next {
        assert(outstanding(after.state) =~= outstanding(state).insert(open) || state.entry(
            open,
        ).committed);
    }
}

proof fn lemma_open_is_open<V>(state: ReplicaState<V>, from: SlotIndex)
    ensures
        state.open_slot_from(from) matches Some(slot) ==> state.entry(slot).decision is None
            && state.entry(slot).proposed.len() == 0,
    decreases u64::MAX - from.0,
{
    if state.claimed(from) && from.0 < u64::MAX {
        lemma_open_is_open(state, SlotIndex((from.0 + 1) as u64));
    }
}

/// Pruning moves the floor to the slot, though not past what is committed and
/// never back, and drops the committed entries at or below the floor, all but
/// the first of the log.
pub proof fn pruning_drops_committed_entries<V>(
    replica: ReplicaView<V>,
    slot: SlotIndex,
    other: SlotIndex,
)
    requires
        replica.state.next_commit.0 > replica.state.checkpointed_through.0,
    ensures
        ({
            let (before, after) = (replica.state, replica.prune_through(slot).state);
            let floor = after.checkpointed_through;
            &&& floor.0 >= before.checkpointed_through.0
            &&& floor.0 < before.next_commit.0
            &&& before.checkpointed_through.0 <= slot.0 < before.next_commit.0 ==> floor == slot
            &&& slot.0 >= before.next_commit.0 ==> floor.0 + 1 == before.next_commit.0
            &&& slot.0 < before.checkpointed_through.0 ==> floor == before.checkpointed_through
            &&& after.log.dom().contains(other) <==> before.log.dom().contains(other) && !(
            before.log[other].committed && 0 < other.0 <= floor.0)
            &&& after.log.dom().contains(other) ==> after.log[other] == before.log[other]
            &&& after.pending == before.pending && after.seen_value_ids == before.seen_value_ids
            &&& after.next_commit == before.next_commit
            &&& after.last_proposed == before.last_proposed
        }),
{
}

} // verus!
