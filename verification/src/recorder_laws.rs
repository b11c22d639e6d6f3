//! What holds of a recorder across its operations.

use crate::cluster::MembershipChangeView;
use crate::collections;
use crate::error::ErrorView;
use crate::isr::IntervalSummaryView;
use crate::recorder;
use crate::recorder::{RecorderConfigView, RecorderState, RecorderView};
use crate::round_laws;
use crate::types::{DecisionView, ProposalView, RecordRequestView, ReplicaId, SlotIndex};
use vstd::prelude::*;

verus! {

/// A recorder that would resume from its own snapshot.
pub open spec fn resumable<V>(recorder: RecorderView<V>) -> bool {
    &&& recorder.restore_error(recorder.state.cluster) is None
    &&& recorder.state.slots.dom().finite()
    &&& recorder.state.decisions.dom().finite()
}

/// The same, slot by slot.
spec fn sound<V>(recorder: RecorderView<V>) -> bool {
    let state = recorder.state;
    &&& state.slots.dom().finite()
    &&& state.decisions.dom().finite()
    &&& state.slots.len() <= recorder.limits.max_active_slots
    &&& state.decisions.len() <= recorder.limits.max_decisions
    &&& forall|slot: SlotIndex| #[trigger]
        state.decisions.dom().contains(slot) ==> recorder.retained_decision_error(slot) is None
    &&& forall|slot: SlotIndex| #[trigger]
        state.slots.dom().contains(slot) ==> slot.0 > state.pruned_through.0
            && recorder.register_error(state.slots[slot]) is None
    &&& state.round_one_leaders.dom() == state.slots.dom()
    &&& recorder.leaders_known()
}

proof fn lemma_resumable<V>(recorder: RecorderView<V>)
    ensures
        resumable(recorder) <==> sound(recorder),
{
    let state = recorder.state;
    if state.slots.dom().finite() && state.decisions.dom().finite() {
        let decided = collections::in_order(state.decisions.dom());
        let active = collections::in_order(state.slots.dom());
        let decision_rule = |slot: SlotIndex| recorder.retained_decision_error(slot);
        let register_rule = |slot: SlotIndex| recorder.register_error(state.slots[slot]);
        collections::lemma_in_order_exists(state.decisions.dom());
        collections::lemma_in_order_exists(state.slots.dom());
        recorder::lemma_no_error(decided, decision_rule);
        recorder::lemma_no_error(active, register_rule);
        if sound(recorder) {
            assert forall|i: int| 0 <= i < decided.len() implies decision_rule(
                #[trigger] decided[i],
            ) is None by {
                assert(state.decisions.dom().contains(decided[i]));
            }
            assert forall|i: int| 0 <= i < active.len() implies register_rule(
                #[trigger] active[i],
            ) is None by {
                assert(state.slots.dom().contains(active[i]));
            }
        }
        if resumable(recorder) {
            assert forall|slot: SlotIndex| #[trigger]
                state.decisions.dom().contains(slot) implies recorder.retained_decision_error(
                slot,
            ) is None by {
                let p = collections::place(decided, slot);
                assert(0 <= p < decided.len() && decided[p] == slot);
                assert(decision_rule(decided[p]) is None);
            }
            assert forall|slot: SlotIndex| #[trigger]
                state.slots.dom().contains(slot) implies slot.0 > state.pruned_through.0
                && recorder.register_error(state.slots[slot]) is None by {
                let p = collections::place(active, slot);
                assert(0 <= p < active.len() && active[p] == slot);
                assert(register_rule(active[p]) is None);
            }
        }
    }
}

/// A new recorder would resume from its own snapshot.
pub proof fn initial_recorder_is_resumable<V>(config: RecorderConfigView)
    ensures
        resumable(RecorderView::<V>::initial(config)),
{
    let recorder = RecorderView::<V>::initial(config);
    lemma_resumable(recorder);
}

/// A resumable recorder's snapshot restores exactly that recorder.
pub proof fn snapshot_restores_the_recorder<V>(
    recorder: RecorderView<V>,
    config: RecorderConfigView,
)
    requires
        resumable(recorder),
        config.id == recorder.id,
        config.limits == recorder.limits,
        config.cluster == recorder.state.cluster,
    ensures
        ({
            let target = RecorderView {
                id: config.id,
                limits: config.limits,
                state: recorder.state,
            };
            target == recorder && target.restore_error(config.cluster) is None
        }),
{
}

proof fn lemma_inform_sound<V>(recorder: RecorderView<V>, decision: DecisionView<V>)
    requires
        sound(recorder),
    ensures
        sound(recorder.inform_decision(decision).0),
        recorder.inform_decision(decision).0.state.slots == recorder.state.slots,
        recorder.inform_decision(decision).0.state.round_one_leaders
            == recorder.state.round_one_leaders,
        recorder.inform_decision(decision).0.state.cluster == recorder.state.cluster,
        recorder.inform_decision(decision).0.state.pruned_through == recorder.state.pruned_through,
        recorder.inform_decision(decision).0.limits == recorder.limits,
        recorder.inform_decision(decision).0.id == recorder.id,
        forall|slot: SlotIndex| #[trigger]
            recorder.state.decisions.dom().contains(slot) ==> {
                &&& recorder.inform_decision(decision).0.state.decisions.dom().contains(slot)
                &&& recorder.inform_decision(decision).0.state.decisions[slot]
                    == recorder.state.decisions[slot]
            },
{
    let after = recorder.inform_decision(decision).0;
    if after != recorder {
        assert(after.decision_error(decision) == recorder.decision_error(decision));
        assert forall|slot: SlotIndex| #[trigger]
            after.state.decisions.dom().contains(slot) implies after.retained_decision_error(
            slot,
        ) is None by {
            if slot != decision.slot {
                assert(recorder.state.decisions.dom().contains(slot));
                assert(recorder.retained_decision_error(slot) is None);
                assert(after.decision_error(after.state.decisions[slot])
                    == recorder.decision_error(recorder.state.decisions[slot]));
            }
        }
        assert forall|slot: SlotIndex| #[trigger]
            after.state.slots.dom().contains(slot) implies slot.0 > after.state.pruned_through.0
            && after.register_error(after.state.slots[slot]) is None by {
            assert(recorder.state.slots.dom().contains(slot));
            lemma_register_error_agrees(recorder, after, recorder.state.slots[slot]);
        }
        assert(after.leaders_known()) by {
            assert forall|slot: SlotIndex| #[trigger]
                after.state.round_one_leaders.dom().contains(
                    slot,
                ) implies match after.state.round_one_leaders[slot] {
                Some(leader) => after.knows(leader),
                None => true,
            } by {
                assert(recorder.state.round_one_leaders.dom().contains(slot));
            }
        }
    }
}

/// Validation looks at membership and bounds alone.
proof fn lemma_register_error_agrees<V>(
    a: RecorderView<V>,
    b: RecorderView<V>,
    register: IntervalSummaryView<V>,
)
    requires
        a.limits == b.limits,
        a.state.cluster == b.state.cluster,
    ensures
        a.register_error(register) == b.register_error(register),
        a.optional_error(register.first) == b.optional_error(register.first),
{
    assert(a.optional_error(register.first) == b.optional_error(register.first));
    assert(a.optional_error(register.current_aggregate) == b.optional_error(
        register.current_aggregate,
    ));
    assert(a.optional_error(register.prior_aggregate) == b.optional_error(
        register.prior_aggregate,
    ));
}

proof fn lemma_inform_all_sound<V>(recorder: RecorderView<V>, decisions: Seq<DecisionView<V>>)
    requires
        sound(recorder),
    ensures
        sound(recorder.inform_all(decisions).0),
        recorder.inform_all(decisions).0.state.slots == recorder.state.slots,
        recorder.inform_all(decisions).0.state.round_one_leaders
            == recorder.state.round_one_leaders,
        recorder.inform_all(decisions).0.state.cluster == recorder.state.cluster,
        recorder.inform_all(decisions).0.state.pruned_through == recorder.state.pruned_through,
        recorder.inform_all(decisions).0.limits == recorder.limits,
        recorder.inform_all(decisions).0.id == recorder.id,
        forall|slot: SlotIndex| #[trigger]
            recorder.state.decisions.dom().contains(slot) ==> {
                &&& recorder.inform_all(decisions).0.state.decisions.dom().contains(slot)
                &&& recorder.inform_all(decisions).0.state.decisions[slot]
                    == recorder.state.decisions[slot]
            },
    decreases decisions.len(),
{
    if decisions.len() > 0 {
        let before = recorder.inform_all(decisions.drop_last());
        lemma_inform_all_sound(recorder, decisions.drop_last());
        if before.1 is Ok {
            lemma_inform_sound(before.0, decisions.last());
        }
    }
}

/// Recording a valid proposal keeps a register valid.
proof fn lemma_recorded_register<V>(
    recorder: RecorderView<V>,
    register: IntervalSummaryView<V>,
    request: RecordRequestView<V>,
)
    requires
        recorder.request_error(request) is None,
        register == IntervalSummaryView::<V>::empty() || recorder.register_error(register) is None,
    ensures
        recorder.register_error(register.recorded(request.step, request.proposal)) is None,
{
    let after = register.recorded(request.step, request.proposal);
    assert(recorder.proposal_error(request.proposal) is None);
    if register == IntervalSummaryView::<V>::empty() {
        assert(request.step.0 > register.step.0);
    } else {
        assert(recorder.optional_error(register.first) is None);
        assert(recorder.optional_error(register.current_aggregate) is None);
        assert(recorder.optional_error(register.prior_aggregate) is None);
    }
    assert(recorder.optional_error(after.first) is None);
    assert(recorder.optional_error(after.current_aggregate) is None);
    assert(recorder.optional_error(after.prior_aggregate) is None);
}

/// Serving a request, whatever its outcome, keeps a recorder resumable.
pub proof fn record_keeps_resumable<V>(
    recorder: RecorderView<V>,
    request: RecordRequestView<V>,
    available: std::result::Result<(), ErrorView>,
)
    requires
        resumable(recorder),
    ensures
        resumable(recorder.record(request, available).0),
{
    lemma_resumable(recorder);
    lemma_inform_all_sound(recorder, request.known_decisions);
    let (informed, result) = recorder.inform_all(request.known_decisions);
    let after = recorder.record(request, available).0;
    lemma_resumable(informed);
    lemma_resumable(after);
    if recorder.record(request, available).1 is Ok {
        assert(after == informed.recorded(request));
        let slot = request.slot;
        assert(informed.request_error(request) == recorder.request_error(request)) by {
            assert(informed.proposal_error(request.proposal) == recorder.proposal_error(
                request.proposal,
            ));
        }
        if informed.state.slots.dom().contains(slot) {
            assert(informed.register_error(informed.state.slots[slot]) is None);
            assert(after.state.slots.dom() =~= informed.state.slots.dom());
        }
        lemma_recorded_register(informed, informed.register(slot), request);
        assert forall|other: SlotIndex| #[trigger]
            after.state.decisions.dom().contains(other) implies after.retained_decision_error(
            other,
        ) is None by {
            assert(informed.state.decisions.dom().contains(other));
            assert(after.decision_error(after.state.decisions[other]) == informed.decision_error(
                informed.state.decisions[other],
            ));
        }
        assert forall|other: SlotIndex| #[trigger]
            after.state.slots.dom().contains(other) implies other.0 > after.state.pruned_through.0
            && after.register_error(after.state.slots[other]) is None by {
            if other != slot {
                assert(informed.state.slots.dom().contains(other));
            }
            lemma_register_error_agrees(informed, after, after.state.slots[other]);
        }
        assert(after.leaders_known()) by {
            assert forall|other: SlotIndex| #[trigger]
                after.state.round_one_leaders.dom().contains(
                    other,
                ) implies match after.state.round_one_leaders[other] {
                Some(leader) => after.knows(leader),
                None => true,
            } by {
                if informed.state.round_one_leaders.dom().contains(other) {
                }
            }
        }
        assert(after.state.round_one_leaders.dom() =~= after.state.slots.dom());
        assert(sound(after));
    }
}

/// Retaining decisions, whatever the outcome, keeps a recorder resumable.
pub proof fn inform_keeps_resumable<V>(
    recorder: RecorderView<V>,
    decisions: Seq<DecisionView<V>>,
)
    requires
        resumable(recorder),
    ensures
        resumable(recorder.inform_all(decisions).0),
{
    lemma_resumable(recorder);
    lemma_inform_all_sound(recorder, decisions);
    lemma_resumable(recorder.inform_all(decisions).0);
}

/// Pruning keeps a recorder resumable, and the floor never sinks.
pub proof fn prune_keeps_resumable<V>(recorder: RecorderView<V>, slot: SlotIndex)
    requires
        resumable(recorder),
    ensures
        resumable(recorder.prune_through(slot)),
        recorder.prune_through(slot).state.pruned_through.0 >= recorder.state.pruned_through.0,
        recorder.prune_through(slot).state.pruned_through.0 >= slot.0,
{
    lemma_resumable(recorder);
    let after = recorder.prune_through(slot);
    lemma_resumable(after);
    vstd::set_lib::lemma_set_subset_finite(recorder.state.slots.dom(), after.state.slots.dom());
    vstd::set_lib::lemma_set_subset_finite(
        recorder.state.decisions.dom(),
        after.state.decisions.dom(),
    );
    vstd::set_lib::lemma_len_subset(after.state.slots.dom(), recorder.state.slots.dom());
    vstd::set_lib::lemma_len_subset(after.state.decisions.dom(), recorder.state.decisions.dom());
    assert forall|other: SlotIndex| #[trigger]
        after.state.decisions.dom().contains(other) implies after.retained_decision_error(
        other,
    ) is None by {
        assert(recorder.state.decisions.dom().contains(other));
        assert(after.decision_error(after.state.decisions[other]) == recorder.decision_error(
            recorder.state.decisions[other],
        ));
    }
    assert forall|other: SlotIndex| #[trigger]
        after.state.slots.dom().contains(other) implies other.0 > after.state.pruned_through.0
        && after.register_error(after.state.slots[other]) is None by {
        assert(recorder.state.slots.dom().contains(other));
        lemma_register_error_agrees(recorder, after, after.state.slots[other]);
    }
    assert(after.leaders_known()) by {
        assert forall|other: SlotIndex| #[trigger]
            after.state.round_one_leaders.dom().contains(
                other,
            ) implies match after.state.round_one_leaders[other] {
            Some(leader) => after.knows(leader),
            None => true,
        } by {
            assert(recorder.state.round_one_leaders.dom().contains(other));
        }
    }
    assert(after.state.round_one_leaders.dom() =~= after.state.slots.dom());
}

/// A recorder binds one round-one leader to a slot: once a slot is bound, a
/// request under another leader is refused and no request changes the binding.
pub proof fn leader_binding_is_final<V>(
    recorder: RecorderView<V>,
    request: RecordRequestView<V>,
    available: std::result::Result<(), ErrorView>,
    slot: SlotIndex,
)
    requires
        resumable(recorder),
        recorder.state.round_one_leaders.dom().contains(slot),
    ensures
        ({
            let (after, result) = recorder.record(request, available);
            &&& after.state.round_one_leaders.dom().contains(slot)
            &&& after.state.round_one_leaders[slot] == recorder.state.round_one_leaders[slot]
            &&& result is Ok && request.slot == slot ==> request.round_one_leader
                == recorder.state.round_one_leaders[slot]
        }),
{
    lemma_resumable(recorder);
    lemma_inform_all_sound(recorder, request.known_decisions);
}

/// A request that a recorder answers leaves the slot bound to the request's
/// leader.
pub proof fn answered_requests_bind_their_leader<V>(
    recorder: RecorderView<V>,
    request: RecordRequestView<V>,
    available: std::result::Result<(), ErrorView>,
)
    requires
        resumable(recorder),
        recorder.record(request, available).1 is Ok,
    ensures
        recorder.record(request, available).0.state.round_one_leaders.dom().contains(request.slot),
        recorder.record(request, available).0.state.round_one_leaders[request.slot]
            == request.round_one_leader,
{
    lemma_resumable(recorder);
    lemma_inform_all_sound(recorder, request.known_decisions);
}

/// A pruned slot is never served again: requests for it are refused, decisions
/// for it change nothing, and neither recreates state at or below the floor.
pub proof fn pruned_slots_stay_pruned<V>(
    recorder: RecorderView<V>,
    request: RecordRequestView<V>,
    decision: DecisionView<V>,
    available: std::result::Result<(), ErrorView>,
)
    requires
        resumable(recorder),
    ensures
        request.slot.0 <= recorder.state.pruned_through.0 ==> {
            &&& recorder.record(request, available).0 == recorder
            &&& recorder.record(request, available).1 is Err
            &&& recorder.request_error(request) is None ==> recorder.record(request, available).1
                == Err::<crate::cluster::RecordReplyView<V>, ErrorView>(
                ErrorView::SlotPruned { slot: request.slot },
            )
        },
        decision.slot.0 <= recorder.state.pruned_through.0 ==> recorder.inform_decision(decision).0
            == recorder,
        recorder.record(request, available).0.state.pruned_through == recorder.state.pruned_through,
{
    lemma_resumable(recorder);
    lemma_inform_all_sound(recorder, request.known_decisions);
}

/// A retained decision is never replaced: not by a request, not by another
/// decision for its slot.
pub proof fn retained_decisions_are_final<V>(
    recorder: RecorderView<V>,
    request: RecordRequestView<V>,
    decisions: Seq<DecisionView<V>>,
    available: std::result::Result<(), ErrorView>,
    slot: SlotIndex,
)
    requires
        resumable(recorder),
        recorder.state.decisions.dom().contains(slot),
    ensures
        recorder.record(request, available).0.decision(slot) == recorder.decision(slot),
        recorder.inform_all(decisions).0.decision(slot) == recorder.decision(slot),
{
    lemma_resumable(recorder);
    lemma_inform_all_sound(recorder, request.known_decisions);
    lemma_inform_all_sound(recorder, decisions);
}

/// A recorder's step for a slot never goes back while the slot is active.
pub proof fn recorded_steps_are_monotone<V>(
    recorder: RecorderView<V>,
    request: RecordRequestView<V>,
    available: std::result::Result<(), ErrorView>,
    slot: SlotIndex,
)
    requires
        resumable(recorder),
        recorder.state.slots.dom().contains(slot),
    ensures
        recorder.record(request, available).0.state.slots.dom().contains(slot),
        recorder.record(request, available).0.state.slots[slot].step.0
            >= recorder.state.slots[slot].step.0,
{
    lemma_resumable(recorder);
    lemma_inform_all_sound(recorder, request.known_decisions);
}

/// Installing a membership moves to exactly the next epoch, changes nothing
/// else, and doing it again is harmless.
pub proof fn membership_installs_once<V>(
    recorder: RecorderView<V>,
    change: MembershipChangeView<V>,
)
    requires
        recorder.install_membership(change).1 is Ok,
    ensures
        ({
            let after = recorder.install_membership(change).0;
            &&& after.state.cluster == change.next
            &&& after.state.cluster == recorder.state.cluster || after.state.cluster.epoch
                == recorder.state.cluster.epoch + 1
            &&& after.state.decisions == recorder.state.decisions
            &&& after.state.slots == recorder.state.slots
            &&& after.install_membership(change) == (after, Ok::<(), ErrorView>(()))
        }),
{
}

/// A membership change keeps a recorder resumable when the next membership
/// still has every proposer and leader that the retained state names.
pub proof fn membership_keeps_resumable<V>(
    recorder: RecorderView<V>,
    change: MembershipChangeView<V>,
)
    requires
        resumable(recorder),
        forall|replica: ReplicaId|
            recorder.knows(replica) ==> #[trigger] change.next.members.contains(replica),
    ensures
        resumable(recorder.install_membership(change).0),
{
    lemma_resumable(recorder);
    let after = recorder.install_membership(change).0;
    lemma_resumable(after);
    if after != recorder {
        assert forall|replica: ReplicaId| recorder.knows(replica) implies #[trigger] after.knows(
            replica,
        ) by {
            assert(change.next.members.contains(replica));
        }
        assert forall|slot: SlotIndex| #[trigger]
            after.state.decisions.dom().contains(slot) implies after.retained_decision_error(
            slot,
        ) is None by {
            assert(recorder.state.decisions.dom().contains(slot));
            assert(recorder.retained_decision_error(slot) is None);
            assert(after.knows(recorder.state.decisions[slot].proposer));
        }
        assert forall|slot: SlotIndex| #[trigger]
            after.state.slots.dom().contains(slot) implies slot.0 > after.state.pruned_through.0
            && after.register_error(after.state.slots[slot]) is None by {
            assert(recorder.state.slots.dom().contains(slot));
            let register = recorder.state.slots[slot];
            lemma_proposal_stays_valid(recorder, after, register.first);
            lemma_proposal_stays_valid(recorder, after, register.current_aggregate);
            lemma_proposal_stays_valid(recorder, after, register.prior_aggregate);
        }
        assert(after.leaders_known()) by {
            assert forall|slot: SlotIndex| #[trigger]
                after.state.round_one_leaders.dom().contains(
                    slot,
                ) implies match after.state.round_one_leaders[slot] {
                Some(leader) => after.knows(leader),
                None => true,
            } by {
                assert(recorder.state.round_one_leaders.dom().contains(slot));
            }
        }
    }
}

proof fn lemma_proposal_stays_valid<V>(
    before: RecorderView<V>,
    after: RecorderView<V>,
    proposal: Option<ProposalView<V>>,
)
    requires
        before.limits == after.limits,
        forall|replica: ReplicaId| before.knows(replica) ==> #[trigger] after.knows(replica),
        before.optional_error(proposal) is None,
    ensures
        after.optional_error(proposal) is None,
{
    match proposal {
        Some(found) => {
            assert(after.knows(found.key.proposer_id));
        },
        None => {},
    }
}

/// Whether a decision can be one of a slot: it has values, each once and not too
/// many, and a member made it at a step that the recorder knows.
pub open spec fn is_acceptable<V>(recorder: RecorderView<V>, decision: DecisionView<V>) -> bool {
    &&& decision.value_ids.len() > 0
    &&& decision.value_ids.len() <= recorder.limits.max_values_per_proposal
    &&& decision.value_ids.no_duplicates()
    &&& recorder.state.cluster.members.contains(decision.proposer)
    &&& decision.decided_step.0 <= recorder.limits.max_step.0
}

/// Being told of a decision. It is taken exactly where it is acceptable, agrees
/// with the one that is retained, and there is room for it; then the slot has it,
/// unless it is pruned. Nothing else changes, and a refusal changes nothing.
pub proof fn recorders_retain_what_they_are_told<V>(
    recorder: RecorderView<V>,
    decision: DecisionView<V>,
)
    requires
        recorder.state.decisions.dom().finite(),
        recorder.state.decisions.len() <= recorder.limits.max_decisions,
    ensures
        ({
            let (after, told) = recorder.inform_decision(decision);
            let (before, slot) = (recorder.state, decision.slot);
            let known = before.decisions.dom().contains(slot);
            let pruned = slot.0 <= before.pruned_through.0;
            &&& told is Ok <==> is_acceptable(recorder, decision) && (pruned || if known {
                before.decisions[slot].value_ids == decision.value_ids
            } else {
                before.decisions.len() < recorder.limits.max_decisions
            })
            &&& told is Err ==> after == recorder
            &&& told is Ok && !pruned ==> after.state.decisions.dom().contains(slot)
                && after.state.decisions[slot] == if known {
                before.decisions[slot]
            } else {
                decision
            }
            &&& told is Ok && pruned ==> after == recorder
            &&& is_acceptable(recorder, decision) && !pruned && known
                && before.decisions[slot].value_ids != decision.value_ids ==> told == Err::<
                (),
                ErrorView,
            >(ErrorView::ConflictingDecision { slot })
            &&& forall|other: SlotIndex|
                other != slot ==> #[trigger] after.decision(other) == recorder.decision(other)
            &&& after.state.slots == before.slots
            &&& after.state.round_one_leaders == before.round_one_leaders
            &&& after.state.pruned_through == before.pruned_through
            &&& after.state.cluster == before.cluster
            &&& after.id == recorder.id && after.limits == recorder.limits
        }),
{
}

/// Whether a request is one that a recorder may serve: members send, lead and
/// propose it, its proposal has values, each once and not too many, its step and
/// the number of decisions that it carries are within bounds, its slot is not
/// pruned, and the slot is bound to no other leader.
pub open spec fn is_admissible<V>(recorder: RecorderView<V>, request: RecordRequestView<V>) -> bool {
    let members = recorder.state.cluster.members;
    &&& members.contains(request.sender)
    &&& request.round_one_leader matches Some(leader) ==> members.contains(leader)
    &&& members.contains(request.proposal.key.proposer_id)
    &&& request.proposal.value_ids.len() > 0
    &&& request.proposal.value_ids.len() <= recorder.limits.max_values_per_proposal
    &&& request.proposal.value_ids.no_duplicates()
    &&& 4 <= request.step.0 <= recorder.limits.max_step.0
    &&& request.known_decisions.len() <= recorder.limits.max_known_decisions
    &&& request.slot.0 > recorder.state.pruned_through.0
    &&& recorder.state.round_one_leaders.dom().contains(request.slot)
        ==> recorder.state.round_one_leaders[request.slot] == request.round_one_leader
}

/// Recording. A request is answered exactly where it is admissible, its values
/// are available, its decisions are taken, and its slot is active or there is room
/// for it. The slot's register then is at the later of its step and the request's;
/// a later step starts with the request's proposal and remembers the best of the
/// step directly before; at the same step the first proposal stays and the better
/// one is kept; an earlier one changes nothing. The reply tells that, who answers,
/// and the decision that is retained. Other slots' registers stay.
pub proof fn recorders_answer_with_their_register<V>(
    recorder: RecorderView<V>,
    request: RecordRequestView<V>,
    available: std::result::Result<(), ErrorView>,
)
    requires
        resumable(recorder),
    ensures
        ({
            let (after, answer) = recorder.record(request, available);
            let informed = recorder.inform_all(request.known_decisions);
            let (before, slot) = (recorder.state, request.slot);
            let old = recorder.register(slot);
            let new = after.register(slot);
            &&& answer is Ok <==> is_admissible(recorder, request) && available is Ok
                && informed.1 is Ok && (before.slots.dom().contains(slot) || before.slots.len()
                < recorder.limits.max_active_slots)
            &&& !(is_admissible(recorder, request) && available is Ok) ==> after == recorder
            &&& is_admissible(recorder, request) && available is Err ==> (
            answer matches Err(refusal) && refusal == available->Err_0)
            &&& answer is Err ==> after.state.slots == before.slots
            &&& answer matches Ok(reply) ==> {
                &&& reply.recorder == recorder.id
                &&& reply.cluster == before.cluster
                &&& reply.decision == informed.0.decision(slot)
                &&& reply.summary.step == new.step
                &&& reply.summary.first == new.first
                &&& reply.summary.prior_aggregate == new.prior_aggregate
                &&& after.state.slots.dom() == before.slots.dom().insert(slot)
                &&& forall|other: SlotIndex|
                    other != slot && before.slots.dom().contains(other)
                        ==> #[trigger] after.state.slots[other] == before.slots[other]
                &&& request.step.0 > old.step.0 ==> {
                    &&& new.step == request.step
                    &&& new.first == Some(request.proposal)
                    &&& new.current_aggregate == Some(request.proposal)
                    &&& new.prior_aggregate == if request.step.0 == old.step.0 + 1 {
                        old.current_aggregate
                    } else {
                        None
                    }
                }
                &&& request.step.0 < old.step.0 ==> new == old
                &&& request.step.0 == old.step.0 ==> {
                    &&& new.step == old.step
                    &&& new.prior_aggregate == old.prior_aggregate
                    &&& new.first == if old.first is Some {
                        old.first
                    } else {
                        Some(request.proposal)
                    }
                    &&& new.current_aggregate matches Some(best) && {
                        &&& best == request.proposal || Some(best) == old.current_aggregate
                        &&& round_laws::holds_against(best.key, request.proposal.key)
                        &&& old.current_aggregate matches Some(held) ==> round_laws::holds_against(
                            best.key,
                            held.key,
                        )
                    }
                }
            }
        }),
{
    lemma_resumable(recorder);
    lemma_inform_all_sound(recorder, request.known_decisions);
    let (after, answer) = recorder.record(request, available);
    if answer is Ok {
        let informed = recorder.inform_all(request.known_decisions).0;
        assert(after.state.slots.dom() =~= informed.state.slots.dom().insert(request.slot));
        assert(informed.register(request.slot) == recorder.register(request.slot));
    }
}

/// Pruning drops all that is at or below the slot, and nothing above it.
pub proof fn pruning_drops_what_is_below<V>(recorder: RecorderView<V>, slot: SlotIndex)
    ensures
        ({
            let after = recorder.prune_through(slot);
            &&& forall|other: SlotIndex|
                {
                    let above = other.0 > slot.0;
                    &&& #[trigger] after.state.slots.dom().contains(other) <==> above
                        && recorder.state.slots.dom().contains(other)
                    &&& after.state.slots.dom().contains(other) ==> after.state.slots[other]
                        == recorder.state.slots[other]
                }
            &&& forall|other: SlotIndex|
                {
                    let above = other.0 > slot.0;
                    &&& #[trigger] after.state.decisions.dom().contains(other) <==> above
                        && recorder.state.decisions.dom().contains(other)
                    &&& after.state.decisions.dom().contains(other) ==> after.state.decisions[other]
                        == recorder.state.decisions[other]
                }
            &&& forall|other: SlotIndex|
                {
                    let above = other.0 > slot.0;
                    &&& #[trigger] after.state.round_one_leaders.dom().contains(other) <==> above
                        && recorder.state.round_one_leaders.dom().contains(other)
                    &&& after.state.round_one_leaders.dom().contains(other)
                        ==> after.state.round_one_leaders[other]
                        == recorder.state.round_one_leaders[other]
                }
            &&& after.state.pruned_through.0 == if slot.0 > recorder.state.pruned_through.0 {
                slot.0
            } else {
                recorder.state.pruned_through.0
            }
            &&& after.state.cluster == recorder.state.cluster
            &&& after.id == recorder.id && after.limits == recorder.limits
        }),
{
}

/// A membership is installed exactly where it already is, or where it is the next
/// one, its command was decided at the anchor that the recorder retains, and the
/// recorder knows nothing of a later slot.
pub proof fn memberships_follow_their_anchor<V>(
    recorder: RecorderView<V>,
    change: MembershipChangeView<V>,
)
    ensures
        ({
            let (after, installed) = recorder.install_membership(change);
            let before = recorder.state;
            let anchor = change.anchor;
            &&& installed is Ok <==> anchor.value_ids.contains(change.command_id) && (before.cluster == change.next || {
                &&& change.next.follows(before.cluster)
                &&& before.decisions.dom().contains(anchor.slot) && before.decisions[anchor.slot]
                    == anchor
                &&& forall|later: SlotIndex|
                    #![trigger before.slots.dom().contains(later)]
                    #![trigger before.decisions.dom().contains(later)]
                    later.0 > anchor.slot.0 ==> !before.slots.dom().contains(later)
                        && !before.decisions.dom().contains(later)
            })
            &&& installed is Err ==> after == recorder
            &&& installed is Ok ==> after == (RecorderView {
                state: RecorderState { cluster: change.next, ..before },
                ..recorder
            })
        }),
{
}

/// A recorder that is told several decisions takes them in order up to the first
/// that it refuses. Once it has taken all of them, it retains a decision with the
/// same values for each whose slot is above the pruning floor.
pub proof fn every_told_decision_is_retained<V>(
    recorder: RecorderView<V>,
    decisions: Seq<DecisionView<V>>,
    i: int,
)
    requires
        recorder.inform_all(decisions).1 is Ok,
        0 <= i < decisions.len(),
    ensures
        ({
            let after = recorder.inform_all(decisions).0;
            let slot = decisions[i].slot;
            &&& after.state.pruned_through == recorder.state.pruned_through
            &&& slot.0 > recorder.state.pruned_through.0 ==> after.state.decisions.dom().contains(
                slot,
            ) && after.state.decisions[slot].value_ids == decisions[i].value_ids
            &&& decisions[i].value_ids.len() > 0 && decisions[i].value_ids.no_duplicates()
            &&& recorder.state.cluster.members.contains(decisions[i].proposer)
        }),
    decreases decisions.len(),
{
    lemma_telling_keeps(recorder, decisions);
    let earlier = decisions.drop_last();
    lemma_telling_keeps(recorder, earlier);
    if i < earlier.len() {
        every_told_decision_is_retained(recorder, earlier, i);
        assert(earlier[i] == decisions[i]);
    } else {
        assert(decisions[i] == decisions.last());
    }
}

proof fn lemma_telling_keeps<V>(recorder: RecorderView<V>, decisions: Seq<DecisionView<V>>)
    ensures
        ({
            let after = recorder.inform_all(decisions).0;
            &&& after.state.pruned_through == recorder.state.pruned_through
            &&& after.state.cluster == recorder.state.cluster
            &&& after.limits == recorder.limits && after.id == recorder.id
            &&& after.state.slots == recorder.state.slots
        }),
    decreases decisions.len(),
{
    if decisions.len() > 0 {
        lemma_telling_keeps(recorder, decisions.drop_last());
    }
}

/// A decision that a recorder refuses ends the telling: what came before it is
/// taken in, what comes behind it is not, and the refusal is the answer.
pub proof fn refusals_end_the_telling<V>(
    recorder: RecorderView<V>,
    decisions: Seq<DecisionView<V>>,
    n: int,
)
    requires
        0 <= n < decisions.len(),
        recorder.inform_all(decisions.take(n)).1 is Ok,
        recorder.inform_all(decisions.take(n)).0.inform_decision(decisions[n]).1 is Err,
    ensures
        recorder.inform_all(decisions) == recorder.inform_all(decisions.take(n)).0.inform_decision(
            decisions[n],
        ),
    decreases decisions.len(),
{
    let earlier = decisions.drop_last();
    if n < earlier.len() {
        assert(earlier.take(n) =~= decisions.take(n));
        refusals_end_the_telling(recorder, earlier, n);
    } else {
        assert(earlier =~= decisions.take(n));
    }
}

} // verus!
