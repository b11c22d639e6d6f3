//! What holds of the replica pipeline across its operations.

use crate::error::ErrorView;
use crate::replica;
use crate::replica::{LogSlotView, ReplicaConfig, ReplicaState, ReplicaView};
use crate::types::{DecisionView, SlotIndex};
use vstd::prelude::*;

verus! {

/// Every stored decision stands under its own slot.
pub open spec fn keyed<V>(state: ReplicaState<V>) -> bool {
    forall|slot: SlotIndex| #[trigger]
        state.log.dom().contains(slot) ==> match state.log[slot].decision {
            Some(decision) => decision.slot == slot,
            None => true,
        }
}

/// What committing keeps of the log.
spec fn same_but_commits<V>(before: ReplicaState<V>, after: ReplicaState<V>) -> bool {
    &&& after.log.dom() == before.log.dom()
    &&& after.pending == before.pending
    &&& after.last_proposed == before.last_proposed
    &&& after.checkpointed_through == before.checkpointed_through
    &&& after.seen_value_ids == before.seen_value_ids
    &&& after.next_commit.0 >= before.next_commit.0
    &&& forall|slot: SlotIndex| #[trigger]
        before.log.dom().contains(slot) ==> {
            &&& after.log[slot].decision == before.log[slot].decision
            &&& before.log[slot].committed ==> after.log[slot].committed
            &&& after.log[slot].proposed == before.log[slot].proposed
                || after.log[slot].proposed.len() == 0
        }
}

/// Committing keeps the log consistent and lists the decisions of consecutive
/// slots, beginning at the frontier.
proof fn lemma_commit_ready<V>(state: ReplicaState<V>)
    requires
        state.rooted(),
        state.contiguous(),
        state.nothing_early(),
    ensures
        same_but_commits(state, state.commit_ready().0),
        state.commit_ready().1 is Ok ==> {
            let (after, committed) = (state.commit_ready().0, state.commit_ready().1->Ok_0);
            &&& after.rooted()
            &&& after.contiguous()
            &&& after.nothing_early()
            &&& after.next_commit.0 == state.next_commit.0 + committed.len()
            &&& after.entry(after.next_commit).decision is None
            &&& forall|i: int|
                0 <= i < committed.len() ==> state.entry(
                    SlotIndex((state.next_commit.0 + i) as u64),
                ).decision == Some(#[trigger] committed[i])
        },
        state.commit_ready().1 matches Err(refusal) ==> refusal == ErrorView::SlotOverflow,
    decreases u64::MAX - state.next_commit.0,
{
    let frontier = state.next_commit;
    let entry = state.entry(frontier);
    assert(!entry.committed) by {
        if entry.committed {
            assert(state.log.dom().contains(frontier));
        }
    }
    match entry.decision {
        None => {
            assert(same_but_commits(state, state));
        },
        Some(decision) => {
            let marked = state.with_entry(
                frontier,
                LogSlotView {
                    proposed: Seq::empty(),
                    decision: Some(decision),
                    committed: true,
                },
            );
            assert(marked.log.dom() =~= state.log.dom());
            if frontier.0 < u64::MAX {
                let next = marked.advanced();
                assert(next.rooted());
                assert(next.contiguous()) by {
                    assert forall|slot: SlotIndex|
                        next.checkpointed_through.0 < slot.0
                            < next.next_commit.0 implies #[trigger] next.settled(slot) by {
                        if slot.0 < frontier.0 {
                            assert(state.settled(slot));
                        } else {
                            assert(slot == frontier);
                        }
                    }
                }
                assert(next.nothing_early()) by {
                    assert forall|slot: SlotIndex| #[trigger]
                        next.log.dom().contains(slot) && slot.0 != 0 && slot.0
                            >= next.next_commit.0 implies !next.log[slot].committed by {
                        assert(state.log.dom().contains(slot));
                    }
                }
                assert(same_but_commits(state, next));
                lemma_commit_ready(next);
                let (after, result) = next.commit_ready();
                assert(same_but_commits(next, after));
                assert(same_but_commits(state, after)) by {
                    assert forall|slot: SlotIndex| #[trigger]
                        state.log.dom().contains(slot) implies {
                        &&& after.log[slot].decision == state.log[slot].decision
                        &&& state.log[slot].committed ==> after.log[slot].committed
                        &&& after.log[slot].proposed == state.log[slot].proposed
                            || after.log[slot].proposed.len() == 0
                    } by {
                        assert(next.log.dom().contains(slot));
                    }
                }
                if result is Ok {
                    let later = result->Ok_0;
                    let committed = seq![decision] + later;
                    assert forall|i: int| 0 <= i < committed.len() implies state.entry(
                        SlotIndex((frontier.0 + i) as u64),
                    ).decision == Some(#[trigger] committed[i]) by {
                        if i > 0 {
                            let slot = SlotIndex((frontier.0 + i) as u64);
                            assert(committed[i] == later[i - 1]);
                            assert(next.next_commit.0 + (i - 1) == frontier.0 + i);
                            assert(next.entry(slot).decision == Some(later[i - 1]));
                        }
                    }
                }
            } else {
                assert(same_but_commits(state, marked));
            }
        },
    }
}

/// Committing forgets no tracked value.
proof fn lemma_tracked_after_commits<V>(before: ReplicaState<V>, after: ReplicaState<V>)
    requires
        before.all_tracked(),
        same_but_commits(before, after),
    ensures
        after.all_tracked(),
{
    assert forall|slot: SlotIndex| #[trigger]
        after.log.dom().contains(slot) implies after.slot_tracked(slot) by {
        assert(before.log.dom().contains(slot));
        assert(before.slot_tracked(slot));
        if after.log[slot].proposed.len() == 0 {
            assert(after.log[slot].proposed.to_set() =~= Set::<V>::empty());
        }
    }
}

/// A replica starts out consistent.
pub proof fn initial_replica_is_consistent<V>(config: ReplicaConfig)
    ensures
        ReplicaView::<V>::initial(config).consistent(),
        keyed(ReplicaView::<V>::initial(config).state),
{
    let state = ReplicaView::<V>::initial(config).state;
    assert(state.log.dom().remove(SlotIndex(0)) =~= Set::<SlotIndex>::empty());
    assert(state.slot_tracked(SlotIndex(0))) by {
        assert(state.log[SlotIndex(0)].proposed.to_set() =~= Set::<V>::empty());
    }
}

/// Queueing values keeps a replica consistent.
pub proof fn enqueue_keeps_consistency<V>(replica: ReplicaView<V>, values: Seq<V>)
    requires
        replica.consistent(),
        keyed(replica.state),
    ensures
        replica.enqueue(values).0.consistent(),
        keyed(replica.enqueue(values).0.state),
{
    let (after, result) = replica.enqueue(values);
    let fresh = replica::fresh_values(replica.state.seen_value_ids, values);
    replica::lemma_fresh_values(replica.state.seen_value_ids, values);
    replica::lemma_disjoint_growth(replica.state.seen_value_ids, fresh);
    if result is Ok {
        let (old_state, state) = (replica.state, after.state);
        assert forall|i: int| 0 <= i < state.pending.len() implies state.seen_value_ids.contains(
            #[trigger] state.pending[i],
        ) by {
            if i >= old_state.pending.len() {
                assert(fresh.contains(fresh[i - old_state.pending.len()]));
            } else {
                assert(old_state.seen_value_ids.contains(old_state.pending[i]));
            }
        }
        assert forall|slot: SlotIndex| #[trigger]
            state.log.dom().contains(slot) implies state.slot_tracked(slot) by {
            assert(old_state.slot_tracked(slot));
        }
        assert(state.contiguous()) by {
            assert forall|slot: SlotIndex|
                state.checkpointed_through.0 < slot.0
                    < state.next_commit.0 implies #[trigger] state.settled(slot) by {
                assert(old_state.settled(slot));
            }
        }
    }
}

/// Noting a proposal keeps a replica consistent.
pub proof fn note_proposed_keeps_consistency<V>(
    replica: ReplicaView<V>,
    slot: SlotIndex,
    values: Seq<V>,
)
    requires
        replica.consistent(),
        keyed(replica.state),
    ensures
        replica.note_proposed(slot, values).0.consistent(),
        keyed(replica.note_proposed(slot, values).0.state),
{
    let (after, result) = replica.note_proposed(slot, values);
    if result is Ok {
        let (old_state, state) = (replica.state, after.state);
        lemma_insert_retained(replica, slot, state.log[slot]);
        assert forall|i: int| 0 <= i < state.pending.len() implies state.seen_value_ids.contains(
            #[trigger] state.pending[i],
        ) by {
            assert(old_state.seen_value_ids.contains(old_state.pending[i]));
        }
        assert forall|other: SlotIndex| #[trigger]
            state.log.dom().contains(other) implies state.slot_tracked(other) by {
            if other == slot {
                if old_state.log.dom().contains(slot) {
                    assert(old_state.slot_tracked(slot));
                }
            } else {
                assert(old_state.slot_tracked(other));
            }
        }
        assert(state.contiguous()) by {
            assert forall|other: SlotIndex|
                state.checkpointed_through.0 < other.0
                    < state.next_commit.0 implies #[trigger] state.settled(other) by {
                assert(old_state.settled(other));
            }
        }
        assert(state.nothing_early()) by {
            assert forall|other: SlotIndex| #[trigger]
                state.log.dom().contains(other) && other.0 != 0 && other.0
                    >= state.next_commit.0 implies !state.log[other].committed by {
                if old_state.log.dom().contains(other) {
                }
            }
        }
        assert(keyed(state)) by {
            assert forall|other: SlotIndex| #[trigger]
                state.log.dom().contains(other) implies match state.log[other].decision {
                Some(decision) => decision.slot == other,
                None => true,
            } by {
                if old_state.log.dom().contains(other) {
                }
            }
        }
        assert(state.rooted()) by {
            assert(old_state.log.dom().contains(SlotIndex(0)));
        }
    }
}

/// An entry for a slot with room keeps the log within its bound.
proof fn lemma_insert_retained<V>(replica: ReplicaView<V>, slot: SlotIndex, entry: LogSlotView<V>)
    requires
        replica.state.log.dom().finite(),
        replica.state.retained() <= replica.config.max_log_slots,
        !replica.log_is_full_for(slot),
        replica.state.log.dom().contains(SlotIndex(0)),
    ensures
        replica.state.with_entry(slot, entry).retained() <= replica.config.max_log_slots,
        replica.state.with_entry(slot, entry).log.dom().finite(),
{
    let old_dom = replica.state.log.dom();
    let new_dom = replica.state.with_entry(slot, entry).log.dom();
    assert(new_dom =~= old_dom.insert(slot));
    if old_dom.contains(slot) {
        assert(new_dom =~= old_dom);
    } else {
        assert(slot != SlotIndex(0));
        assert(new_dom.remove(SlotIndex(0)) =~= old_dom.remove(SlotIndex(0)).insert(slot));
    }
}

/// Taking the next proposal keeps a replica consistent.
pub proof fn next_proposal_keeps_consistency<V>(replica: ReplicaView<V>)
    requires
        replica.consistent(),
        keyed(replica.state),
    ensures
        replica.next_proposal().0.consistent(),
        keyed(replica.next_proposal().0.state),
{
    let state = replica.state;
    if state.inflight_count() < replica.config.pipeline_len && state.pending.len() > 0 {
        match state.open_slot_from(state.next_commit) {
            None => {},
            Some(slot) => {
                let cut = replica.batch_len();
                let drained = ReplicaView {
                    state: ReplicaState { pending: state.pending.skip(cut), ..state },
                    ..replica
                };
                assert forall|i: int|
                    0 <= i < drained.state.pending.len() implies state.seen_value_ids.contains(
                    #[trigger] drained.state.pending[i],
                ) by {
                    assert(state.seen_value_ids.contains(state.pending[i + cut]));
                }
                assert forall|other: SlotIndex| #[trigger]
                    drained.state.log.dom().contains(
                        other,
                    ) implies drained.state.slot_tracked(other) by {
                    assert(state.slot_tracked(other));
                }
                assert(drained.state.contiguous()) by {
                    assert forall|other: SlotIndex|
                        state.checkpointed_through.0 < other.0
                            < state.next_commit.0 implies #[trigger] drained.state.settled(
                        other,
                    ) by {
                        assert(state.settled(other));
                    }
                }
                assert(drained.consistent());
                note_proposed_keeps_consistency(drained, slot, state.pending.take(cut));
            },
        }
    }
}

/// A decision's state before committing is consistent.
proof fn lemma_with_decision<V>(replica: ReplicaView<V>, decision: DecisionView<V>)
    requires
        replica.consistent(),
        keyed(replica.state),
        replica.decision_error(decision) is None,
        replica.state.entry(decision.slot).decision is None,
    ensures
        (ReplicaView { state: replica.with_decision(decision), ..replica }).consistent(),
        keyed(replica.with_decision(decision)),
{
    let old_state = replica.state;
    let state = replica.with_decision(decision);
    let slot = decision.slot;
    let losing = replica.losing_values(decision);
    lemma_insert_retained(replica, slot, state.log[slot]);
    let proposed = old_state.entry(slot).proposed;
    assert forall|i: int| 0 <= i < state.pending.len() implies state.seen_value_ids.contains(
        #[trigger] state.pending[i],
    ) by {
        if i < losing.len() {
            let keep = |value: V| !decision.value_ids.contains(value);
            assert(proposed.filter(keep).contains(losing[i]));
            proposed.lemma_filter_contains_rev(keep, losing[i]);
            assert(proposed.contains(losing[i]));
            assert(old_state.log.dom().contains(slot));
            assert(old_state.slot_tracked(slot));
            assert(proposed.to_set().contains(losing[i]));
        } else {
            assert(old_state.seen_value_ids.contains(old_state.pending[i - losing.len()]));
        }
    }
    assert forall|other: SlotIndex| #[trigger]
        state.log.dom().contains(other) implies state.slot_tracked(other) by {
        if other == slot {
            if old_state.log.dom().contains(slot) {
                assert(old_state.slot_tracked(slot));
            } else {
                assert(state.log[slot].proposed.to_set() =~= Set::<V>::empty());
            }
        } else {
            assert(old_state.slot_tracked(other));
        }
    }
    assert(state.contiguous()) by {
        assert forall|other: SlotIndex|
            state.checkpointed_through.0 < other.0
                < state.next_commit.0 implies #[trigger] state.settled(other) by {
            assert(old_state.settled(other));
        }
    }
    assert(state.nothing_early()) by {
        assert forall|other: SlotIndex| #[trigger]
            state.log.dom().contains(other) && other.0 != 0 && other.0
                >= state.next_commit.0 implies !state.log[other].committed by {
            if old_state.log.dom().contains(other) {
            }
        }
    }
    assert(keyed(state)) by {
        assert forall|other: SlotIndex| #[trigger]
            state.log.dom().contains(other) implies match state.log[other].decision {
            Some(found) => found.slot == other,
            None => true,
        } by {
            if old_state.log.dom().contains(other) {
            }
        }
    }
    assert(state.rooted()) by {
        assert(old_state.log.dom().contains(SlotIndex(0)));
    }
    assert(state.seen_value_ids.finite()) by {
        assert(decision.value_ids.to_set().finite());
    }
}

/// Applying a decision keeps a replica consistent, unless the slot counter ran
/// out.
pub proof fn apply_decision_keeps_consistency<V>(
    replica: ReplicaView<V>,
    decision: DecisionView<V>,
)
    requires
        replica.consistent(),
        keyed(replica.state),
        replica.apply_decision(decision).1 != Err::<Seq<DecisionView<V>>, ErrorView>(
            ErrorView::SlotOverflow,
        ),
    ensures
        replica.apply_decision(decision).0.consistent(),
        keyed(replica.apply_decision(decision).0.state),
{
    if replica.decision_error(decision) is None && replica.state.entry(
        decision.slot,
    ).decision is None {
        let stored = replica.with_decision(decision);
        lemma_with_decision(replica, decision);
        lemma_commit_ready(stored);
        let after = stored.commit_ready().0;
        lemma_tracked_after_commits(stored, after);
        assert(keyed(after)) by {
            assert forall|slot: SlotIndex| #[trigger]
                after.log.dom().contains(slot) implies match after.log[slot].decision {
                Some(found) => found.slot == slot,
                None => true,
            } by {
                assert(stored.log.dom().contains(slot));
            }
        }
    }
}

/// Decisions commit in contiguous slot order: what one call commits begins at
/// the frontier and leaves no slot out.
pub proof fn commits_are_contiguous<V>(replica: ReplicaView<V>, decision: DecisionView<V>)
    requires
        replica.consistent(),
        keyed(replica.state),
        replica.apply_decision(decision).1 is Ok,
    ensures
        ({
            let (after, committed) = replica.apply_decision(decision);
            let list = committed->Ok_0;
            &&& after.state.next_commit.0 == replica.state.next_commit.0 + list.len()
            &&& forall|i: int|
                0 <= i < list.len() ==> (#[trigger] list[i]).slot.0
                    == replica.state.next_commit.0 + i
        }),
{
    if replica.state.entry(decision.slot).decision is None {
        let stored = replica.with_decision(decision);
        lemma_with_decision(replica, decision);
        lemma_commit_ready(stored);
        let list = stored.commit_ready().1->Ok_0;
        assert forall|i: int| 0 <= i < list.len() implies (#[trigger] list[i]).slot.0
            == replica.state.next_commit.0 + i by {
            let slot = SlotIndex((stored.next_commit.0 + i) as u64);
            assert(stored.entry(slot).decision == Some(list[i]));
            assert(stored.log.dom().contains(slot));
        }
    }
}

/// A stored decision is never replaced, whatever decision arrives later; one
/// with other values is refused as conflicting.
pub proof fn decisions_are_final<V>(
    replica: ReplicaView<V>,
    decision: DecisionView<V>,
    slot: SlotIndex,
)
    requires
        replica.consistent(),
        keyed(replica.state),
        replica.state.entry(slot).decision is Some,
    ensures
        replica.apply_decision(decision).0.state.entry(slot).decision == replica.state.entry(
            slot,
        ).decision,
        decision.slot == slot && replica.state.entry(slot).decision->0.value_ids
            != decision.value_ids ==> {
            &&& replica.apply_decision(decision).1 is Err
            &&& replica.apply_decision(decision).0 == replica
        },
{
    if replica.decision_error(decision) is None && replica.state.entry(
        decision.slot,
    ).decision is None {
        let stored = replica.with_decision(decision);
        lemma_with_decision(replica, decision);
        lemma_commit_ready(stored);
        assert(stored.log.dom().contains(slot));
    }
}

/// A decision loses none of the local proposal it competes with: each proposed
/// value is decided or queued again, ahead of what was queued before.
pub proof fn losing_values_are_requeued<V>(replica: ReplicaView<V>, decision: DecisionView<V>)
    requires
        replica.consistent(),
        keyed(replica.state),
        replica.apply_decision(decision).1 is Ok,
        replica.state.entry(decision.slot).decision is None,
    ensures
        ({
            let pending = replica.apply_decision(decision).0.state.pending;
            &&& pending == replica.losing_values(decision) + replica.state.pending
            &&& forall|value: V|
                replica.state.entry(decision.slot).proposed.contains(value)
                    ==> decision.value_ids.contains(value) || #[trigger] pending.contains(value)
        }),
{
    let stored = replica.with_decision(decision);
    lemma_with_decision(replica, decision);
    lemma_commit_ready(stored);
    let pending = stored.pending;
    let losing = replica.losing_values(decision);
    let proposed = replica.state.entry(decision.slot).proposed;
    assert forall|value: V|
        proposed.contains(value) && !decision.value_ids.contains(
            value,
        ) implies #[trigger] pending.contains(value) by {
        let i = choose|i: int| 0 <= i < proposed.len() && proposed[i] == value;
        assert(replica.contested(decision));
        let keep = |candidate: V| !decision.value_ids.contains(candidate);
        proposed.lemma_filter_contains(keep, i);
        assert(losing.contains(value));
        let j = choose|j: int| 0 <= j < losing.len() && losing[j] == value;
        assert(pending[j] == value);
    }
}

/// Values that were seen before are suppressed when they are submitted again,
/// before and after a restart from the replica's snapshot.
pub proof fn duplicate_submissions_are_suppressed<V>(replica: ReplicaView<V>, values: Seq<V>)
    requires
        replica.consistent(),
        values.to_set().subset_of(replica.state.seen_value_ids),
    ensures
        replica.restore_error() is None,
        replica.enqueue(values) == (replica, Ok::<(), ErrorView>(())),
{
    let fresh = replica::fresh_values(replica.state.seen_value_ids, values);
    replica::lemma_fresh_values(replica.state.seen_value_ids, values);
    assert(fresh.len() == 0) by {
        if fresh.len() > 0 {
            assert(fresh.to_set().contains(fresh[0]));
        }
    }
    assert(replica.state.pending + fresh =~= replica.state.pending);
    assert(fresh.to_set() =~= Set::<V>::empty());
    assert(replica.state.seen_value_ids.union(fresh.to_set()) =~= replica.state.seen_value_ids);
    assert(replica.enqueue(values).0 =~= replica);
}

/// Pruning keeps a replica consistent, moves nothing but the checkpoint, and
/// drops committed slots at or below it only.
pub proof fn prune_keeps_what_is_needed<V>(replica: ReplicaView<V>, slot: SlotIndex)
    requires
        replica.consistent(),
        keyed(replica.state),
    ensures
        ({
            let after = replica.prune_through(slot);
            &&& after.consistent()
            &&& keyed(after.state)
            &&& after.state.next_commit == replica.state.next_commit
            &&& after.state.pending == replica.state.pending
            &&& after.state.seen_value_ids == replica.state.seen_value_ids
            &&& after.state.checkpointed_through.0 <= after.state.committed_through().0
            &&& forall|index: SlotIndex|
                replica.state.log.dom().contains(index) && (index.0
                    > after.state.checkpointed_through.0 || !replica.state.log[index].committed)
                    ==> #[trigger] after.state.log.dom().contains(index)
                    && after.state.log[index] == replica.state.log[index]
        }),
{
    let (old_state, state) = (replica.state, replica.prune_through(slot).state);
    assert(state.log.dom().subset_of(old_state.log.dom()));
    vstd::set_lib::lemma_set_subset_finite(old_state.log.dom(), state.log.dom());
    assert(state.log.dom().remove(SlotIndex(0)).subset_of(
        old_state.log.dom().remove(SlotIndex(0)),
    ));
    vstd::set_lib::lemma_len_subset(
        state.log.dom().remove(SlotIndex(0)),
        old_state.log.dom().remove(SlotIndex(0)),
    );
    assert forall|i: int| 0 <= i < state.pending.len() implies state.seen_value_ids.contains(
        #[trigger] state.pending[i],
    ) by {
        assert(old_state.seen_value_ids.contains(old_state.pending[i]));
    }
    assert forall|other: SlotIndex| #[trigger]
        state.log.dom().contains(other) implies state.slot_tracked(other) by {
        assert(old_state.log.dom().contains(other));
        assert(old_state.slot_tracked(other));
    }
    assert(state.contiguous()) by {
        assert forall|other: SlotIndex|
            state.checkpointed_through.0 < other.0
                < state.next_commit.0 implies #[trigger] state.settled(other) by {
            assert(old_state.settled(other));
        }
    }
    assert(state.rooted()) by {
        assert(old_state.log.dom().contains(SlotIndex(0)));
    }
    assert(state.nothing_early()) by {
        assert forall|other: SlotIndex| #[trigger]
            state.log.dom().contains(other) && other.0 != 0 && other.0
                >= state.next_commit.0 implies !state.log[other].committed by {
            assert(old_state.log.dom().contains(other));
        }
    }
    assert(keyed(state)) by {
        assert forall|other: SlotIndex| #[trigger]
            state.log.dom().contains(other) implies match state.log[other].decision {
            Some(found) => found.slot == other,
            None => true,
        } by {
            assert(old_state.log.dom().contains(other));
        }
    }
}

/// Committing changes nothing at or past the frontier that it reaches.
proof fn lemma_commit_leaves_later<V>(state: ReplicaState<V>, slot: SlotIndex)
    ensures
        state.commit_ready().0.next_commit.0 <= slot.0 && state.commit_ready().1 is Ok
            ==> state.commit_ready().0.entry(slot) == state.entry(slot),
        state.commit_ready().0.next_commit.0 >= state.next_commit.0,
    decreases u64::MAX - state.next_commit.0,
{
    let entry = state.entry(state.next_commit);
    if entry.committed {
        if state.next_commit.0 < u64::MAX {
            lemma_commit_leaves_later(state.advanced(), slot);
        }
    } else {
        match entry.decision {
            None => {},
            Some(decision) => {
                let marked = state.with_entry(
                    state.next_commit,
                    LogSlotView {
                        proposed: Seq::empty(),
                        decision: Some(decision),
                        committed: true,
                    },
                );
                if state.next_commit.0 < u64::MAX {
                    lemma_commit_leaves_later(marked.advanced(), slot);
                }
            },
        }
    }
}

/// A decision changes no other slot's decision, and the frontier passes decided
/// slots only.
pub proof fn decisions_touch_their_own_slot<V>(
    replica: ReplicaView<V>,
    decision: DecisionView<V>,
    slot: SlotIndex,
)
    requires
        replica.consistent(),
        keyed(replica.state),
        replica.apply_decision(decision).1 is Ok,
        slot != decision.slot,
    ensures
        ({
            let after = replica.apply_decision(decision).0.state;
            &&& after.entry(slot).decision == replica.state.entry(slot).decision
            &&& replica.state.log.dom().contains(slot) ==> after.log.dom().contains(slot)
            &&& replica.state.next_commit.0 <= after.next_commit.0
            &&& replica.state.next_commit.0 <= slot.0 && slot.0 < after.next_commit.0
                ==> replica.state.entry(slot).decision is Some
            &&& after.next_commit.0 <= slot.0 ==> after.entry(slot) == replica.state.entry(slot)
            &&& after.checkpointed_through == replica.state.checkpointed_through
        }),
{
    if replica.state.entry(decision.slot).decision is None {
        let stored = replica.with_decision(decision);
        lemma_with_decision(replica, decision);
        lemma_commit_ready(stored);
        let (after, list) = (stored.commit_ready().0, stored.commit_ready().1->Ok_0);
        lemma_commit_leaves_later(stored, slot);
        assert(stored.entry(slot) == replica.state.entry(slot));
        if stored.log.dom().contains(slot) {
            assert(after.log[slot].decision == stored.log[slot].decision);
        }
        if stored.next_commit.0 <= slot.0 && slot.0 < after.next_commit.0 {
            let i = slot.0 - stored.next_commit.0;
            assert(SlotIndex((stored.next_commit.0 + i) as u64) == slot);
            assert(stored.entry(slot).decision == Some(list[i]));
        }
    }
}

/// Once a decision is stored, its slot has it.
pub proof fn stored_decisions_are_found<V>(replica: ReplicaView<V>, decision: DecisionView<V>)
    requires
        replica.consistent(),
        keyed(replica.state),
        replica.apply_decision(decision).1 is Ok,
    ensures
        ({
            let after = replica.apply_decision(decision).0.state;
            &&& after.checkpointed_through == replica.state.checkpointed_through
            &&& after.log.dom().contains(decision.slot)
            &&& after.log[decision.slot].decision matches Some(stored) && stored.value_ids
                == decision.value_ids
        }),
{
    if replica.state.entry(decision.slot).decision is None {
        let stored = replica.with_decision(decision);
        lemma_with_decision(replica, decision);
        lemma_commit_ready(stored);
        assert(stored.log.dom().contains(decision.slot));
    }
}

proof fn lemma_open_slot<V>(state: ReplicaState<V>, from: SlotIndex)
    ensures
        state.open_slot_from(from) matches Some(slot) ==> slot.0 >= from.0 && !state.claimed(slot),
    decreases u64::MAX - from.0,
{
    if state.claimed(from) && from.0 < u64::MAX {
        lemma_open_slot(state, SlotIndex((from.0 + 1) as u64));
    }
}

/// A proposal goes to an open slot at or past the frontier, and changes no
/// decision.
pub proof fn proposals_take_open_slots<V>(replica: ReplicaView<V>)
    ensures
        ({
            let (after, next) = replica.next_proposal();
            &&& after.config == replica.config
            &&& after.state.next_commit == replica.state.next_commit
            &&& after.state.checkpointed_through == replica.state.checkpointed_through
            &&& forall|slot: SlotIndex| #[trigger]
                after.state.entry(slot).decision == replica.state.entry(slot).decision
            &&& forall|slot: SlotIndex|
                replica.state.log.dom().contains(slot) ==> #[trigger] after.state.log.dom().contains(
                    slot,
                )
            &&& next matches Ok(Some((slot, values))) ==> {
                &&& slot.0 >= replica.state.next_commit.0
                &&& replica.state.entry(slot).decision is None
                &&& after.state.log.dom().contains(slot)
                &&& after.state.log[slot].proposed == values
                &&& values.len() > 0
                &&& forall|other: SlotIndex|
                    other != slot ==> #[trigger] after.state.entry(other)
                        == replica.state.entry(other)
            }
            &&& !(next matches Ok(Some(_))) ==> after.state.log == replica.state.log
            &&& forall|slot: SlotIndex|
                replica.state.log.dom().contains(slot) && replica.state.log[slot].proposed.len() > 0
                    ==> (#[trigger] after.state.log[slot]).proposed.len() > 0
        }),
{
    lemma_open_slot(replica.state, replica.state.next_commit);
}

/// A decision that passes all checks is refused for one reason only: there is
/// no slot after the last.
pub proof fn commit_refusals_are_overflows<V>(replica: ReplicaView<V>, decision: DecisionView<V>)
    requires
        replica.consistent(),
        keyed(replica.state),
        replica.decision_error(decision) is None,
    ensures
        replica.apply_decision(decision).1 matches Err(refusal) ==> refusal
            == ErrorView::SlotOverflow,
{
    if replica.state.entry(decision.slot).decision is None {
        lemma_with_decision(replica, decision);
        lemma_commit_ready(replica.with_decision(decision));
    }
}

/// What storing a new decision and committing leads to.
pub proof fn lemma_new_decision<V>(replica: ReplicaView<V>, decision: DecisionView<V>)
    requires
        replica.consistent(),
        keyed(replica.state),
        replica.decision_error(decision) is None,
        replica.state.entry(decision.slot).decision is None,
    ensures
        ({
            let stored = replica.with_decision(decision);
            let (after, answer) = replica.apply_decision(decision);
            &&& stored.next_commit == replica.state.next_commit
            &&& stored.entry(decision.slot).decision == Some(decision)
            &&& forall|slot: SlotIndex|
                slot != decision.slot ==> #[trigger] stored.entry(slot)
                    == replica.state.entry(slot)
            &&& answer is Err ==> stored.entry(SlotIndex(u64::MAX)).decision is Some
            &&& answer matches Ok(list) ==> {
                &&& after.state.next_commit.0 == stored.next_commit.0 + list.len()
                &&& after.state.entry(after.state.next_commit).decision is None
                &&& forall|slot: SlotIndex| (#[trigger] after.state.entry(slot)).decision
                    == stored.entry(slot).decision
                &&& forall|i: int|
                    0 <= i < list.len() ==> stored.entry(
                        SlotIndex((stored.next_commit.0 + i) as u64),
                    ).decision == Some(#[trigger] list[i])
            }
        }),
{
    let stored = replica.with_decision(decision);
    lemma_with_decision(replica, decision);
    lemma_commit_ready(stored);
    lemma_overflow_is_at_the_end(stored);
    let after = stored.commit_ready().0;
    assert forall|slot: SlotIndex| (#[trigger] after.entry(slot)).decision == stored.entry(
        slot,
    ).decision by {
        if stored.log.dom().contains(slot) {
            assert(after.log[slot].decision == stored.log[slot].decision);
        }
    }
}

/// Committing fails only where the last slot there is has come up.
proof fn lemma_overflow_is_at_the_end<V>(state: ReplicaState<V>)
    requires
        state.rooted(),
        state.nothing_early(),
    ensures
        state.commit_ready().1 is Err ==> state.entry(SlotIndex(u64::MAX)).decision is Some,
    decreases u64::MAX - state.next_commit.0,
{
    let frontier = state.next_commit;
    let entry = state.entry(frontier);
    assert(!entry.committed) by {
        if entry.committed {
            assert(state.log.dom().contains(frontier));
        }
    }
    if entry.decision is Some && frontier.0 < u64::MAX {
        let marked = state.with_entry(
            frontier,
            LogSlotView {
                proposed: Seq::empty(),
                decision: entry.decision,
                committed: true,
            },
        );
        assert(marked.log.dom() =~= state.log.dom());
        let next = marked.advanced();
        assert(next.nothing_early()) by {
            assert forall|slot: SlotIndex| #[trigger]
                next.log.dom().contains(slot) && slot.0 != 0 && slot.0
                    >= next.next_commit.0 implies !next.log[slot].committed by {
                assert(state.log.dom().contains(slot));
            }
        }
        lemma_overflow_is_at_the_end(next);
    }
}

/// A proposal takes the oldest queued values, as many as a batch holds, and the
/// rest stays queued in order. It goes to the lowest slot from the frontier on
/// that has neither a decision nor a local proposal. There is none where nothing
/// is queued or the pipeline is full, and then nothing changes.
pub proof fn proposals_take_the_front<V>(replica: ReplicaView<V>)
    ensures
        ({
            let (after, next) = replica.next_proposal();
            let (before, batch) = (replica.state, replica.config.batch_size);
            match next {
                Ok(Some((slot, values))) => {
                    &&& values + after.state.pending == before.pending
                    &&& values.len() > 0
                    &&& values.len() <= batch || values.len() == 1
                    &&& values.len() >= batch || after.state.pending.len() == 0
                    &&& before.inflight_count() < replica.config.pipeline_len
                    &&& slot.0 >= before.next_commit.0
                    &&& before.entry(slot).decision is None && before.entry(slot).proposed.len()
                        == 0
                    &&& forall|lower: SlotIndex|
                        before.next_commit.0 <= lower.0 < slot.0 ==> (#[trigger] before.entry(
                            lower,
                        )).decision is Some || before.entry(lower).proposed.len() > 0
                    &&& after.state.log == before.log.insert(
                        slot,
                        LogSlotView { proposed: values, ..before.entry(slot) },
                    )
                    &&& after.state.last_proposed.0 >= slot.0
                    &&& after.state.seen_value_ids == before.seen_value_ids.union(values.to_set())
                },
                Ok(None) => {
                    &&& after == replica
                    &&& before.pending.len() == 0 || before.inflight_count()
                        >= replica.config.pipeline_len
                },
                Err(_) => true,
            }
        }),
{
    lemma_lowest_open_slot(replica.state, replica.state.next_commit);
    let cut = replica.batch_len();
    if replica.state.pending.len() > 0 {
        assert(replica.state.pending.take(cut) + replica.state.pending.skip(cut)
            =~= replica.state.pending);
    }
}

/// Every slot below the open one is claimed.
proof fn lemma_lowest_open_slot<V>(state: ReplicaState<V>, from: SlotIndex)
    ensures
        state.open_slot_from(from) matches Some(slot) ==> slot.0 >= from.0 && !state.claimed(slot)
            && forall|lower: SlotIndex|
            from.0 <= lower.0 < slot.0 ==> (#[trigger] state.entry(lower)).decision is Some
                || state.entry(lower).proposed.len() > 0,
    decreases u64::MAX - from.0,
{
    if state.claimed(from) && from.0 < u64::MAX {
        lemma_lowest_open_slot(state, SlotIndex((from.0 + 1) as u64));
    }
}

/// An accepted submission queues every value of it that was not tracked, once,
/// in the order in which the values first occur, behind what was queued before.
/// It is refused exactly where the queue or the tracked values would outgrow
/// their bounds, and then nothing changes.
pub proof fn accepted_submissions_are_queued<V>(replica: ReplicaView<V>, values: Seq<V>)
    ensures
        ({
            let (after, result) = replica.enqueue(values);
            let (before, state) = (replica.state, after.state);
            let added = state.pending.skip(before.pending.len() as int);
            let new = values.to_set().difference(before.seen_value_ids);
            &&& result is Ok <==> before.pending.len() + new.len()
                <= replica.config.max_pending_values && before.seen_value_ids.len() + new.len()
                <= replica.config.max_tracked_value_ids
            &&& result is Err ==> after == replica
            &&& result is Ok ==> {
                &&& state.pending.take(before.pending.len() as int) == before.pending
                &&& state.pending.len() == before.pending.len() + new.len()
                &&& added.no_duplicates()
                &&& forall|value: V| #[trigger]
                    added.contains(value) <==> values.contains(value)
                        && !before.seen_value_ids.contains(value)
                &&& forall|i: int, j: int, q: int|
                    #![trigger added[i], added[j], values[q]]
                    0 <= i < j < added.len() && 0 <= q < values.len() && values[q] == added[j]
                        ==> values.take(q).contains(added[i])
                &&& state.seen_value_ids == before.seen_value_ids.union(values.to_set())
                &&& after.config == replica.config
                &&& state.log == before.log
                &&& state.next_commit == before.next_commit
                &&& state.last_proposed == before.last_proposed
                &&& state.checkpointed_through == before.checkpointed_through
            }
        }),
{
    let seen = replica.state.seen_value_ids;
    let fresh = replica::fresh_values(seen, values);
    let (after, result) = replica.enqueue(values);
    replica::lemma_fresh_values(seen, values);
    fresh.unique_seq_to_set();
    if result is Ok {
        let count = replica.state.pending.len() as int;
        let added = after.state.pending.skip(count);
        assert(added =~= fresh);
        assert(after.state.pending.take(count) =~= replica.state.pending);
        assert forall|value: V| #[trigger] added.contains(value) <==> values.contains(value)
            && !seen.contains(value) by {
            assert(fresh.contains(value) == fresh.to_set().contains(value));
            assert(values.contains(value) == values.to_set().contains(value));
        }
        assert(seen.union(fresh.to_set()) =~= seen.union(values.to_set()));
        lemma_fresh_in_order(seen, values);
    }
}

/// Fresh values stand in the order in which they first occur.
proof fn lemma_fresh_in_order<V>(seen: Set<V>, values: Seq<V>)
    ensures
        forall|i: int, j: int, q: int|
            #![trigger replica::fresh_values(seen, values)[i], replica::fresh_values(seen, values)[j], values[q]]
            0 <= i < j < replica::fresh_values(seen, values).len() && 0 <= q < values.len()
                && values[q] == replica::fresh_values(seen, values)[j] ==> values.take(q).contains(
                replica::fresh_values(seen, values)[i],
            ),
    decreases values.len(),
{
    let fresh = replica::fresh_values(seen, values);
    if values.len() > 0 {
        let rest = values.drop_last();
        let earlier = replica::fresh_values(seen, rest);
        lemma_fresh_in_order(seen, rest);
        replica::lemma_fresh_values(seen, values);
        replica::lemma_fresh_values(seen, rest);
        assert forall|i: int, j: int, q: int|
            #![trigger fresh[i], fresh[j], values[q]]
            0 <= i < j < fresh.len() && 0 <= q < values.len() && values[q]
                == fresh[j] implies values.take(q).contains(fresh[i]) by {
            assert(fresh[i] == earlier[i]);
            if q < rest.len() {
                assert(rest[q] == values[q]);
                if j < earlier.len() {
                    assert(rest.take(q) =~= values.take(q));
                    assert(earlier[j] == fresh[j]);
                } else {
                    assert(rest.contains(values.last()));
                    assert(rest.to_set().contains(values.last()));
                    assert(earlier.to_set().contains(values.last()));
                }
            } else {
                assert(values.take(q) =~= rest);
                assert(earlier.contains(earlier[i]));
                assert(earlier.to_set().contains(earlier[i]));
                assert(rest.to_set().contains(earlier[i]));
            }
        }
    }
}

} // verus!
