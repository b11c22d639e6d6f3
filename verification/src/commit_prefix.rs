//! What a replica has committed after any calls: the longest prefix of the
//! slots whose decisions it accepted.

use crate::replica;
use crate::replica::{LogSlotView, ReplicaConfig, ReplicaState, ReplicaView};
use crate::replica_laws;
use crate::types::{DecisionView, SlotIndex};
use vstd::prelude::*;

verus! {

/// One call of a replica.
pub enum ReplicaCall<V> {
    Enqueue(Seq<V>),
    NextProposal,
    NoteProposed(SlotIndex, Seq<V>),
    ApplyDecision(DecisionView<V>),
    PruneThrough(SlotIndex),
    /// A restart from the replica's own snapshot.
    Restart,
}

/// A replica with what it has answered so far.
#[verifier::ext_equal]
#[verifier::reject_recursive_types(V)]
pub struct ReplicaCourse<V> {
    pub replica: ReplicaView<V>,
    /// The first decision that was accepted for each slot.
    pub accepted: Map<SlotIndex, DecisionView<V>>,
    /// The lists that decisions were answered with, one after the other.
    pub committed: Seq<DecisionView<V>>,
}

impl<V> ReplicaCourse<V> {
    /// A new replica.
    pub open spec fn fresh(config: ReplicaConfig) -> Self {
        ReplicaCourse {
            replica: ReplicaView::initial(config),
            accepted: Map::empty(),
            committed: Seq::empty(),
        }
    }

    /// The course after one more call.
    pub open spec fn after(self, call: ReplicaCall<V>) -> Self {
        match call {
            ReplicaCall::Enqueue(values) => ReplicaCourse {
                replica: self.replica.enqueue(values).0,
                ..self
            },
            ReplicaCall::NextProposal => ReplicaCourse {
                replica: self.replica.next_proposal().0,
                ..self
            },
            ReplicaCall::NoteProposed(slot, values) => ReplicaCourse {
                replica: self.replica.note_proposed(slot, values).0,
                ..self
            },
            ReplicaCall::ApplyDecision(decision) => {
                let (replica, answer) = self.replica.apply_decision(decision);
                match answer {
                    Ok(list) => ReplicaCourse {
                        replica,
                        accepted: if self.accepted.dom().contains(decision.slot) {
                            self.accepted
                        } else {
                            self.accepted.insert(decision.slot, decision)
                        },
                        committed: self.committed + list,
                    },
                    Err(_) => ReplicaCourse { replica, ..self },
                }
            },
            ReplicaCall::PruneThrough(slot) => ReplicaCourse {
                replica: self.replica.prune_through(slot),
                ..self
            },
            ReplicaCall::Restart => match self.replica.restore_error() {
                None => ReplicaCourse {
                    replica: ReplicaView { config: self.replica.config, state: self.replica.state },
                    ..self
                },
                Some(_) => self,
            },
        }
    }

    /// The course after calls in order.
    pub open spec fn after_all(self, calls: Seq<ReplicaCall<V>>) -> Self
        decreases calls.len(),
    {
        if calls.len() == 0 {
            self
        } else {
            self.after_all(calls.drop_last()).after(calls.last())
        }
    }

    /// Whether a slot was accepted.
    pub open spec fn has(self, slot: int) -> bool {
        &&& 0 <= slot <= u64::MAX
        &&& self.accepted.dom().contains(SlotIndex(slot as u64))
    }

    /// The first accepted decisions of the slots from the first one on.
    pub open spec fn prefix(self, count: nat) -> Seq<DecisionView<V>> {
        Seq::new(count, |i: int| self.accepted[SlotIndex((i + 1) as u64)])
    }

    /// Whether as many slots as the replica has committed were accepted from the
    /// first one on, no more than those, and their first accepted decisions are
    /// what it has answered with.
    pub open spec fn longest_prefix(self) -> bool {
        let count = self.replica.state.committed_through().0;
        &&& forall|slot: int| 1 <= slot <= count ==> #[trigger] self.has(slot)
        &&& !self.has(count + 1)
        &&& self.committed == self.prefix(count as nat)
    }

    /// What holds after any calls.
    spec fn sound(self) -> bool {
        let state = self.replica.state;
        &&& self.replica.consistent()
        &&& replica_laws::keyed(state)
        &&& state.next_commit.0 > 0
        &&& state.entry(state.next_commit).decision is None
        &&& forall|slot: int| 1 <= slot < state.next_commit.0 ==> #[trigger] self.has(slot)
        &&& forall|slot: SlotIndex|
            slot.0 >= state.next_commit.0 ==> {
                &&& #[trigger] self.accepted.dom().contains(slot)
                    == (state.entry(slot).decision is Some)
                &&& self.accepted.dom().contains(slot) ==> state.entry(slot).decision == Some(
                    self.accepted[slot],
                )
            }
        &&& !self.accepted.dom().contains(SlotIndex(u64::MAX))
        &&& self.committed == self.prefix((state.next_commit.0 - 1) as nat)
    }
}

/// Whether every decision that calls bring is for a slot before the last one
/// there is.
pub open spec fn within_slots<V>(calls: Seq<ReplicaCall<V>>) -> bool {
    forall|i: int|
        0 <= i < calls.len() ==> ((#[trigger] calls[i]) matches ReplicaCall::ApplyDecision(decision)
            ==> decision.slot.0 < u64::MAX)
}

/// A call that stores no decision keeps the course sound.
proof fn lemma_other_calls<V>(course: ReplicaCourse<V>, call: ReplicaCall<V>)
    requires
        course.sound(),
        !(call is ApplyDecision),
    ensures
        course.after(call).sound(),
        course.after(call).replica.state.next_commit == course.replica.state.next_commit,
{
    let (before, after) = (course.replica.state, course.after(call).replica.state);
    match call {
        ReplicaCall::Enqueue(values) => {
            replica_laws::enqueue_keeps_consistency(course.replica, values);
        },
        ReplicaCall::NextProposal => {
            replica_laws::next_proposal_keeps_consistency(course.replica);
        },
        ReplicaCall::NoteProposed(slot, values) => {
            replica_laws::note_proposed_keeps_consistency(course.replica, slot, values);
        },
        ReplicaCall::PruneThrough(slot) => {
            replica_laws::prune_keeps_what_is_needed(course.replica, slot);
            assert forall|index: SlotIndex| index.0 >= before.next_commit.0 implies (
            #[trigger] after.entry(index)).decision == before.entry(index).decision by {
                if before.log.dom().contains(index) {
                    assert(after.log.dom().contains(index));
                }
            }
        },
        _ => {},
    }
    assert(after.next_commit == before.next_commit);
    assert forall|index: SlotIndex| index.0 >= before.next_commit.0 implies (#[trigger] after.entry(
        index,
    )).decision == before.entry(index).decision by {}
    assert forall|slot: int| 1 <= slot < after.next_commit.0 implies #[trigger] course.after(
        call,
    ).has(slot) by {
        assert(course.has(slot));
    }
    assert(course.after(call).prefix((after.next_commit.0 - 1) as nat) =~= course.prefix(
        (before.next_commit.0 - 1) as nat,
    ));
}

/// A decision keeps the course sound.
proof fn lemma_apply<V>(course: ReplicaCourse<V>, decision: DecisionView<V>)
    requires
        course.sound(),
        decision.slot.0 < u64::MAX,
    ensures
        course.after(ReplicaCall::ApplyDecision(decision)).sound(),
        course.after(ReplicaCall::ApplyDecision(decision)).replica.state.next_commit.0
            >= course.replica.state.next_commit.0,
{
    let next = course.after(ReplicaCall::ApplyDecision(decision));
    let replica = course.replica;
    let (before, after) = (replica.state, next.replica.state);
    let answer = replica.apply_decision(decision).1;
    if replica.decision_error(decision) is Some {
        assert(next =~= course);
    } else if before.entry(decision.slot).decision is Some {
        assert(next.committed =~= course.committed);
        if decision.slot.0 >= before.next_commit.0 {
            assert(course.accepted.dom().contains(decision.slot));
        } else if decision.slot.0 > 0 {
            assert(course.has(decision.slot.0 as int));
        }
        assert forall|slot: int| 1 <= slot < after.next_commit.0 implies #[trigger] next.has(
            slot,
        ) by {
            assert(course.has(slot));
        }
        assert(next.prefix((after.next_commit.0 - 1) as nat) =~= course.prefix(
            (before.next_commit.0 - 1) as nat,
        ));
    } else {
        replica_laws::lemma_new_decision(replica, decision);
        replica_laws::commit_refusals_are_overflows(replica, decision);
        assert(before.entry(SlotIndex(u64::MAX)).decision is None) by {
            assert(!course.accepted.dom().contains(SlotIndex(u64::MAX)));
        }
        assert(answer is Ok);
        let list = answer->Ok_0;
        replica_laws::apply_decision_keeps_consistency(replica, decision);
        if decision.slot.0 >= before.next_commit.0 {
            assert(!course.accepted.dom().contains(decision.slot));
        }
        assert forall|slot: SlotIndex| slot.0 >= before.next_commit.0 implies {
            &&& #[trigger] next.accepted.dom().contains(slot)
                == (replica.with_decision(decision).entry(slot).decision is Some)
            &&& next.accepted.dom().contains(slot) ==> replica.with_decision(decision).entry(
                slot,
            ).decision == Some(next.accepted[slot])
        } by {
            assert(course.accepted.dom().contains(slot) == (before.entry(slot).decision is Some));
        }
        assert forall|slot: int| 1 <= slot < after.next_commit.0 implies #[trigger] next.has(
            slot,
        ) by {
            if slot < before.next_commit.0 {
                assert(course.has(slot));
            } else {
                let i = slot - before.next_commit.0;
                let index = SlotIndex(slot as u64);
                assert(SlotIndex((before.next_commit.0 + i) as u64) == index);
                assert(replica.with_decision(decision).entry(index).decision == Some(list[i]));
            }
        }
        assert forall|slot: SlotIndex| slot.0 >= after.next_commit.0 implies {
            &&& #[trigger] next.accepted.dom().contains(slot)
                == (after.entry(slot).decision is Some)
            &&& next.accepted.dom().contains(slot) ==> after.entry(slot).decision == Some(
                next.accepted[slot],
            )
        } by {
            assert(after.entry(slot).decision == replica.with_decision(decision).entry(
                slot,
            ).decision);
        }
        let count = (after.next_commit.0 - 1) as nat;
        let earlier = course.prefix((before.next_commit.0 - 1) as nat);
        assert(next.committed =~= next.prefix(count)) by {
            assert(next.committed.len() == count);
            assert forall|i: int| 0 <= i < count implies next.committed[i] == next.prefix(
                count,
            )[i] by {
                let index = SlotIndex((i + 1) as u64);
                if i < before.next_commit.0 - 1 {
                    assert(course.has(i + 1));
                    assert(next.accepted[index] == course.accepted[index]);
                    assert(earlier[i] == course.accepted[index]);
                } else {
                    let k = i + 1 - before.next_commit.0;
                    assert(SlotIndex((before.next_commit.0 + k) as u64) == index);
                    assert(replica.with_decision(decision).entry(index).decision == Some(list[k]));
                    assert(next.accepted.dom().contains(index));
                }
            }
        }
    }
}

proof fn lemma_course_is_sound<V>(config: ReplicaConfig, calls: Seq<ReplicaCall<V>>)
    requires
        within_slots(calls),
    ensures
        ReplicaCourse::fresh(config).after_all(calls).sound(),
    decreases calls.len(),
{
    let fresh = ReplicaCourse::<V>::fresh(config);
    if calls.len() == 0 {
        replica_laws::initial_replica_is_consistent::<V>(config);
        assert(fresh.prefix(0) =~= Seq::empty());
    } else {
        let earlier = calls.drop_last();
        assert(within_slots(earlier)) by {
            assert forall|i: int| 0 <= i < earlier.len() implies (
            (#[trigger] earlier[i]) matches ReplicaCall::ApplyDecision(decision)
                ==> decision.slot.0 < u64::MAX) by {
                assert(calls[i] == earlier[i]);
            }
        }
        lemma_course_is_sound(config, earlier);
        let course = fresh.after_all(earlier);
        assert(calls[calls.len() - 1] == calls.last());
        match calls.last() {
            ReplicaCall::ApplyDecision(decision) => {
                lemma_apply(course, decision);
            },
            other => {
                lemma_other_calls(course, other);
            },
        }
    }
}

/// A replica commits the longest prefix of the slots that it accepted: after any
/// calls, restarts among them, the frontier stands at the last slot up to which
/// every decision was accepted, and all that was answered to decisions, put
/// together, are the first accepted decisions of those slots, in order and each
/// once.
pub proof fn commits_are_the_longest_prefix<V>(config: ReplicaConfig, calls: Seq<ReplicaCall<V>>)
    requires
        within_slots(calls),
    ensures
        ReplicaCourse::fresh(config).after_all(calls).longest_prefix(),
{
    lemma_course_is_sound(config, calls);
    let course = ReplicaCourse::<V>::fresh(config).after_all(calls);
    let frontier = course.replica.state.next_commit;
    assert(!course.accepted.dom().contains(frontier));
}

/// The committed prefix never shrinks, and nothing but a decision moves it.
pub proof fn commits_are_never_taken_back<V>(
    config: ReplicaConfig,
    calls: Seq<ReplicaCall<V>>,
    call: ReplicaCall<V>,
)
    requires
        within_slots(calls),
        call matches ReplicaCall::ApplyDecision(decision) ==> decision.slot.0 < u64::MAX,
    ensures
        ({
            let course = ReplicaCourse::fresh(config).after_all(calls);
            let before = course.replica.state.committed_through();
            let after = course.after(call).replica.state.committed_through();
            &&& before.0 <= after.0
            &&& !(call is ApplyDecision) ==> before == after
        }),
{
    lemma_course_is_sound(config, calls);
    let course = ReplicaCourse::<V>::fresh(config).after_all(calls);
    match call {
        ReplicaCall::ApplyDecision(decision) => {
            lemma_apply(course, decision);
        },
        other => {
            lemma_other_calls(course, other);
        },
    }
}

/// Whether a value is where it can still be committed or already was: queued, in
/// a local proposal for a slot that is not decided, or in a decision that the
/// log holds or that was accepted.
pub open spec fn is_kept<V>(course: ReplicaCourse<V>, value: V) -> bool {
    let state = course.replica.state;
    ||| state.pending.contains(value)
    ||| exists|slot: SlotIndex| #[trigger]
        state.log.dom().contains(slot) && match state.log[slot].decision {
            Some(decision) => decision.value_ids.contains(value),
            None => state.log[slot].proposed.contains(value),
        }
    ||| exists|slot: SlotIndex| #[trigger]
        course.accepted.dom().contains(slot) && course.accepted[slot].value_ids.contains(value)
}

/// Whether a call drops no local proposal: the next proposal finds room in the
/// log, and a proposal is noted for a slot that nothing claims.
pub open spec fn spares_proposals<V>(course: ReplicaCourse<V>, call: ReplicaCall<V>) -> bool {
    match call {
        ReplicaCall::NextProposal => course.replica.next_proposal().1 is Ok,
        ReplicaCall::NoteProposed(slot, _) => course.replica.state.entry(slot).decision is None
            && course.replica.state.entry(slot).proposed.len() == 0,
        _ => true,
    }
}

/// What holds of tracked values and of committed slots after any such calls.
spec fn lossless<V>(course: ReplicaCourse<V>) -> bool {
    let state = course.replica.state;
    &&& forall|value: V| #[trigger] state.seen_value_ids.contains(value) ==> is_kept(course, value)
    &&& forall|slot: SlotIndex| #[trigger]
        state.log.dom().contains(slot) && slot.0 != 0 && state.log[slot].committed
            ==> course.accepted.dom().contains(slot) && state.log[slot].decision == Some(
            course.accepted[slot],
        )
}

/// Committing changes slots between the two frontiers only, and only those that
/// are decided.
proof fn lemma_commit_touches<V>(state: ReplicaState<V>, slot: SlotIndex)
    requires
        state.log.dom().contains(slot),
    ensures
        ({
            let after = state.commit_ready().0;
            &&& after.pending == state.pending
            &&& after.seen_value_ids == state.seen_value_ids
            &&& after.log.dom().contains(slot)
            &&& after.log[slot].decision == state.log[slot].decision
            &&& slot.0 < state.next_commit.0 || state.log[slot].decision is None
                ==> after.log[slot] == state.log[slot]
            &&& after.log[slot].proposed == state.log[slot].proposed
                || state.log[slot].decision is Some
        }),
    decreases u64::MAX - state.next_commit.0,
{
    let entry = state.entry(state.next_commit);
    if entry.committed {
        if state.next_commit.0 < u64::MAX {
            lemma_commit_touches(state.advanced(), slot);
        }
    } else if entry.decision is Some {
        let marked = state.with_entry(
            state.next_commit,
            LogSlotView { proposed: Seq::empty(), decision: entry.decision, committed: true },
        );
        if state.next_commit.0 < u64::MAX {
            lemma_commit_touches(marked.advanced(), slot);
        }
    }
}

/// Committing adds no slot to the log.
proof fn lemma_commit_adds_nothing<V>(state: ReplicaState<V>, slot: SlotIndex)
    ensures
        state.commit_ready().0.log.dom().contains(slot) ==> state.log.dom().contains(slot),
    decreases u64::MAX - state.next_commit.0,
{
    let entry = state.entry(state.next_commit);
    if entry.committed {
        if state.next_commit.0 < u64::MAX {
            lemma_commit_adds_nothing(state.advanced(), slot);
        }
    } else if entry.decision is Some {
        let marked = state.with_entry(
            state.next_commit,
            LogSlotView { proposed: Seq::empty(), decision: entry.decision, committed: true },
        );
        assert(state.log.dom().contains(state.next_commit));
        if state.next_commit.0 < u64::MAX {
            lemma_commit_adds_nothing(marked.advanced(), slot);
        }
    }
}

/// Decisions lose no tracked value.
proof fn lemma_apply_loses_nothing<V>(course: ReplicaCourse<V>, decision: DecisionView<V>)
    requires
        course.sound(),
        lossless(course),
        decision.slot.0 < u64::MAX,
    ensures
        lossless(course.after(ReplicaCall::ApplyDecision(decision))),
{
    let next = course.after(ReplicaCall::ApplyDecision(decision));
    let replica = course.replica;
    let (before, after) = (replica.state, next.replica.state);
    lemma_apply(course, decision);
    if replica.decision_error(decision) is None && before.entry(decision.slot).decision is None {
        let stored = replica.with_decision(decision);
        replica_laws::lemma_new_decision(replica, decision);
        assert(before.entry(SlotIndex(u64::MAX)).decision is None) by {
            assert(!course.accepted.dom().contains(SlotIndex(u64::MAX)));
        }
        assert(replica.apply_decision(decision).1 is Ok);
        replica_laws::losing_values_are_requeued(replica, decision);
        lemma_commit_touches(stored, decision.slot);
        assert(after.log[decision.slot].decision == Some(decision));
        assert forall|value: V| #[trigger] after.seen_value_ids.contains(value) implies is_kept(
            next,
            value,
        ) by {
            if decision.value_ids.contains(value) {
                assert(after.log.dom().contains(decision.slot));
            } else {
                assert(!decision.value_ids.to_set().contains(value));
                assert(before.seen_value_ids.contains(value));
                assert(is_kept(course, value));
                let losing = replica.losing_values(decision);
                if before.pending.contains(value) {
                    let i = choose|i: int| 0 <= i < before.pending.len() && before.pending[i] == value;
                    assert(after.pending[losing.len() + i] == value);
                } else if exists|slot: SlotIndex| #[trigger]
                    before.log.dom().contains(slot) && match before.log[slot].decision {
                        Some(found) => found.value_ids.contains(value),
                        None => before.log[slot].proposed.contains(value),
                    } {
                    let slot = choose|slot: SlotIndex| #[trigger]
                        before.log.dom().contains(slot) && match before.log[slot].decision {
                            Some(found) => found.value_ids.contains(value),
                            None => before.log[slot].proposed.contains(value),
                        };
                    if slot == decision.slot {
                        assert(before.entry(slot).proposed.contains(value));
                        assert(after.pending.contains(value));
                    } else {
                        lemma_commit_touches(stored, slot);
                        assert(after.log.dom().contains(slot));
                    }
                } else {
                    let slot = choose|slot: SlotIndex| #[trigger]
                        course.accepted.dom().contains(slot)
                            && course.accepted[slot].value_ids.contains(value);
                    assert(next.accepted.dom().contains(slot));
                }
            }
        }
        assert forall|slot: SlotIndex| #[trigger]
            after.log.dom().contains(slot) && slot.0 != 0
                && after.log[slot].committed implies next.accepted.dom().contains(slot)
            && after.log[slot].decision == Some(next.accepted[slot]) by {
            lemma_commit_adds_nothing(stored, slot);
            lemma_commit_touches(stored, slot);
            if slot.0 >= before.next_commit.0 {
                assert(course.accepted.dom().contains(slot) == (before.entry(
                    slot,
                ).decision is Some));
                assert(after.entry(slot).decision == stored.entry(slot).decision);
                if slot.0 < after.next_commit.0 {
                    assert(next.has(slot.0 as int));
                } else {
                    assert(next.replica.consistent());
                    assert(!after.log[slot].committed);
                }
            } else {
                assert(after.log[slot] == stored.log[slot]);
                if slot == decision.slot {
                    if before.log.dom().contains(slot) {
                        assert(!before.log[slot].committed);
                    }
                }
            }
        }
    } else {
        assert(after == before);
        assert forall|value: V| #[trigger] after.seen_value_ids.contains(value) implies is_kept(
            next,
            value,
        ) by {
            assert(is_kept(course, value));
            lemma_kept_still(course, next, value);
        }
    }
}

/// A value is kept as long as the replica is the same and nothing accepted is
/// forgotten.
proof fn lemma_kept_still<V>(course: ReplicaCourse<V>, next: ReplicaCourse<V>, value: V)
    requires
        is_kept(course, value),
        next.replica == course.replica,
        forall|slot: SlotIndex| #[trigger]
            course.accepted.dom().contains(slot) ==> next.accepted.dom().contains(slot)
                && next.accepted[slot] == course.accepted[slot],
    ensures
        is_kept(next, value),
{
    if exists|slot: SlotIndex| #[trigger]
        course.accepted.dom().contains(slot) && course.accepted[slot].value_ids.contains(value) {
        let slot = choose|slot: SlotIndex| #[trigger]
            course.accepted.dom().contains(slot) && course.accepted[slot].value_ids.contains(value);
        assert(next.accepted.dom().contains(slot));
    }
}

/// A value is kept as long as the log stays and a queued value is queued.
proof fn lemma_kept_beside<V>(course: ReplicaCourse<V>, next: ReplicaCourse<V>, value: V)
    requires
        is_kept(course, value),
        next.replica.state.log == course.replica.state.log,
        next.accepted == course.accepted,
        course.replica.state.pending.contains(value) ==> next.replica.state.pending.contains(value),
    ensures
        is_kept(next, value),
{
}

/// A local proposal for a slot that nothing claimed leaves every other home as
/// it was.
proof fn lemma_noted_is_kept<V>(
    course: ReplicaCourse<V>,
    next: ReplicaCourse<V>,
    slot: SlotIndex,
    value: V,
)
    requires
        course.replica.state.entry(slot).decision is None,
        course.replica.state.entry(slot).proposed.len() == 0,
        next.accepted == course.accepted,
        next.replica.state.log.dom().contains(slot),
        next.replica.state.log[slot].decision is None,
        forall|other: SlotIndex|
            other != slot && course.replica.state.log.dom().contains(other)
                ==> #[trigger] next.replica.state.log.dom().contains(other)
                && next.replica.state.log[other] == course.replica.state.log[other],
        is_kept(course, value),
        course.replica.state.pending.contains(value) ==> next.replica.state.pending.contains(value)
            || next.replica.state.log[slot].proposed.contains(value),
    ensures
        is_kept(next, value),
{
    let (before, after) = (course.replica.state, next.replica.state);
    if before.pending.contains(value) {
        if !after.pending.contains(value) {
            assert(after.log.dom().contains(slot));
        }
    } else if exists|other: SlotIndex| #[trigger]
        before.log.dom().contains(other) && match before.log[other].decision {
            Some(found) => found.value_ids.contains(value),
            None => before.log[other].proposed.contains(value),
        } {
        let other = choose|other: SlotIndex| #[trigger]
            before.log.dom().contains(other) && match before.log[other].decision {
                Some(found) => found.value_ids.contains(value),
                None => before.log[other].proposed.contains(value),
            };
        assert(other != slot);
        assert(after.log.dom().contains(other));
    }
}

/// Other calls lose no tracked value.
proof fn lemma_calls_lose_nothing<V>(course: ReplicaCourse<V>, call: ReplicaCall<V>)
    requires
        course.sound(),
        lossless(course),
        spares_proposals(course, call),
        !(call is ApplyDecision),
    ensures
        lossless(course.after(call)),
{
    let next = course.after(call);
    let replica = course.replica;
    let (before, after) = (replica.state, next.replica.state);
    match call {
        ReplicaCall::Enqueue(values) => {
            let fresh = replica::fresh_values(before.seen_value_ids, values);
            replica::lemma_fresh_values(before.seen_value_ids, values);
            assert forall|value: V| #[trigger] after.seen_value_ids.contains(value) implies is_kept(
                next,
                value,
            ) by {
                if before.seen_value_ids.contains(value) {
                    assert(is_kept(course, value));
                    if before.pending.contains(value) {
                        let i = choose|i: int|
                            0 <= i < before.pending.len() && before.pending[i] == value;
                        assert(after.pending[i] == value);
                    }
                    lemma_kept_beside(course, next, value);
                } else {
                    assert(fresh.contains(value));
                    let i = choose|i: int| 0 <= i < fresh.len() && fresh[i] == value;
                    assert(after.pending[before.pending.len() + i] == value);
                }
            }
        },
        ReplicaCall::NextProposal => {
            if replica.next_proposal().1->Ok_0 is Some {
                let (slot, values) = replica.next_proposal().1->Ok_0->0;
                replica_laws::proposals_take_open_slots(replica);
                replica_laws::proposals_take_the_front(replica);
                assert forall|value: V| #[trigger]
                    after.seen_value_ids.contains(value) implies is_kept(next, value) by {
                    if !before.seen_value_ids.contains(value) {
                        assert(values.contains(value));
                        assert(after.log.dom().contains(slot));
                    } else {
                        assert(is_kept(course, value));
                        if before.pending.contains(value) {
                            let i = choose|i: int|
                                0 <= i < before.pending.len() && before.pending[i] == value;
                            assert(before.pending[i] == (values + after.pending)[i]);
                            if i < values.len() {
                                assert(values[i] == value);
                            } else {
                                assert(after.pending[i - values.len()] == value);
                            }
                        }
                        lemma_noted_is_kept(course, next, slot, value);
                    }
                }
                assert forall|other: SlotIndex| #[trigger]
                    after.log.dom().contains(other) && other.0 != 0
                        && after.log[other].committed implies next.accepted.dom().contains(other)
                    && after.log[other].decision == Some(next.accepted[other]) by {
                    assert(after.entry(other).decision == before.entry(other).decision);
                    assert(before.log.dom().contains(other));
                }
            } else {
                assert(next =~= course);
            }
        },
        ReplicaCall::NoteProposed(slot, values) => {
            if replica.note_proposed(slot, values).1 is Ok {
                assert forall|value: V| #[trigger]
                    after.seen_value_ids.contains(value) implies is_kept(next, value) by {
                    if before.seen_value_ids.contains(value) {
                        assert(is_kept(course, value));
                        lemma_noted_is_kept(course, next, slot, value);
                    } else {
                        assert(values.contains(value));
                        assert(after.log.dom().contains(slot));
                    }
                }
            }
        },
        ReplicaCall::PruneThrough(slot) => {
            replica_laws::prune_keeps_what_is_needed(replica, slot);
            assert forall|value: V| #[trigger] after.seen_value_ids.contains(value) implies is_kept(
                next,
                value,
            ) by {
                assert(is_kept(course, value));
                if !before.pending.contains(value) && exists|other: SlotIndex| #[trigger]
                    before.log.dom().contains(other) && match before.log[other].decision {
                        Some(found) => found.value_ids.contains(value),
                        None => before.log[other].proposed.contains(value),
                    } {
                    let other = choose|other: SlotIndex| #[trigger]
                        before.log.dom().contains(other) && match before.log[other].decision {
                            Some(found) => found.value_ids.contains(value),
                            None => before.log[other].proposed.contains(value),
                        };
                    if other.0 != 0 && before.log[other].committed {
                        assert(course.accepted.dom().contains(other));
                        assert(next.accepted.dom().contains(other));
                    } else {
                        assert(after.log.dom().contains(other));
                    }
                } else if !before.pending.contains(value) {
                    let other = choose|other: SlotIndex| #[trigger]
                        course.accepted.dom().contains(other)
                            && course.accepted[other].value_ids.contains(value);
                    assert(next.accepted.dom().contains(other));
                }
            }
            assert forall|other: SlotIndex| #[trigger]
                after.log.dom().contains(other) && other.0 != 0
                    && after.log[other].committed implies next.accepted.dom().contains(other)
                && after.log[other].decision == Some(next.accepted[other]) by {
                assert(before.log.dom().contains(other));
            }
        },
        _ => {
            assert(next =~= course);
        },
    }
}

/// Whether none of a course's calls drops a local proposal.
pub open spec fn spared_throughout<V>(config: ReplicaConfig, calls: Seq<ReplicaCall<V>>) -> bool {
    forall|i: int|
        0 <= i < calls.len() ==> spares_proposals(
            ReplicaCourse::fresh(config).after_all(calls.take(i)),
            #[trigger] calls[i],
        )
}

proof fn lemma_course_is_lossless<V>(config: ReplicaConfig, calls: Seq<ReplicaCall<V>>, n: int)
    requires
        within_slots(calls),
        spared_throughout(config, calls),
        0 <= n <= calls.len(),
    ensures
        lossless(ReplicaCourse::fresh(config).after_all(calls.take(n))),
    decreases n,
{
    let fresh = ReplicaCourse::<V>::fresh(config);
    if n > 0 {
        let earlier = calls.take(n - 1);
        lemma_course_is_lossless(config, calls, n - 1);
        lemma_fewer_calls_within(calls, n - 1);
        lemma_course_is_sound(config, earlier);
        assert(calls.take(n).drop_last() =~= earlier);
        assert(calls.take(n).last() == calls[n - 1]);
        match calls[n - 1] {
            ReplicaCall::ApplyDecision(decision) => {
                lemma_apply_loses_nothing(fresh.after_all(earlier), decision);
            },
            other => {
                lemma_calls_lose_nothing(fresh.after_all(earlier), other);
            },
        }
    }
}

proof fn lemma_fewer_calls_within<V>(calls: Seq<ReplicaCall<V>>, n: int)
    requires
        within_slots(calls),
        0 <= n <= calls.len(),
    ensures
        within_slots(calls.take(n)),
{
    assert forall|i: int| 0 <= i < n implies (
    (#[trigger] calls.take(n)[i]) matches ReplicaCall::ApplyDecision(decision) ==> decision.slot.0
        < u64::MAX) by {
        assert(calls[i] == calls.take(n)[i]);
    }
}

/// What was tracked stays tracked.
proof fn lemma_tracked_still<V>(
    config: ReplicaConfig,
    calls: Seq<ReplicaCall<V>>,
    m: int,
    n: int,
    value: V,
)
    requires
        0 <= m <= n <= calls.len(),
        ReplicaCourse::fresh(config).after_all(
            calls.take(m),
        ).replica.state.seen_value_ids.contains(value),
    ensures
        ReplicaCourse::fresh(config).after_all(
            calls.take(n),
        ).replica.state.seen_value_ids.contains(value),
    decreases n,
{
    if m < n {
        let fresh = ReplicaCourse::<V>::fresh(config);
        let course = fresh.after_all(calls.take(n - 1));
        lemma_tracked_still(config, calls, m, n - 1, value);
        assert(calls.take(n).drop_last() =~= calls.take(n - 1));
        assert(calls.take(n).last() == calls[n - 1]);
        if let ReplicaCall::ApplyDecision(decision) = calls[n - 1] {
            let stored = course.replica.with_decision(decision);
            lemma_commit_touches(stored, decision.slot);
        }
    }
}

/// No accepted submission is lost: after any calls, restarts among them, every
/// value of every submission that was accepted is queued, in a local proposal
/// for a slot that is not decided, or in a decision that the log holds or that
/// was accepted before. The calls drop no local proposal: the next proposal is
/// not refused, and none is noted over another one or over a decision.
pub proof fn accepted_submissions_are_never_lost<V>(
    config: ReplicaConfig,
    calls: Seq<ReplicaCall<V>>,
    i: int,
    values: Seq<V>,
    value: V,
)
    requires
        within_slots(calls),
        spared_throughout(config, calls),
        0 <= i < calls.len(),
        calls[i] == ReplicaCall::Enqueue(values),
        ReplicaCourse::fresh(config).after_all(calls.take(i)).replica.enqueue(values).1 is Ok,
        values.contains(value),
    ensures
        is_kept(ReplicaCourse::fresh(config).after_all(calls), value),
{
    let fresh = ReplicaCourse::<V>::fresh(config);
    let course = fresh.after_all(calls.take(i));
    replica::lemma_fresh_values(course.replica.state.seen_value_ids, values);
    assert(calls.take(i + 1).drop_last() =~= calls.take(i));
    assert(calls.take(i + 1).last() == calls[i]);
    let count = calls.len() as int;
    assert(values.to_set().contains(value));
    lemma_tracked_still(config, calls, i + 1, count, value);
    lemma_course_is_lossless(config, calls, count);
    assert(calls.take(count) =~= calls);
}

/// Every tracked value is queued, in a local proposal for a slot that is not
/// decided, or in a decision that the log holds or that was accepted before.
pub proof fn tracked_values_are_kept<V>(
    config: ReplicaConfig,
    calls: Seq<ReplicaCall<V>>,
    value: V,
)
    requires
        within_slots(calls),
        spared_throughout(config, calls),
    ensures
        ({
            let course = ReplicaCourse::fresh(config).after_all(calls);
            course.replica.state.seen_value_ids.contains(value) ==> is_kept(course, value)
        }),
{
    lemma_course_is_lossless(config, calls, calls.len() as int);
    assert(calls.take(calls.len() as int) =~= calls);
}

} // verus!
