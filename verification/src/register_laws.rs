//! What a recorder's register makes of all that it records, and how priorities
//! are drawn.

use crate::error::ErrorView;
use crate::isr::IntervalSummaryView;
use crate::proposer;
use crate::proposer::{PrioritySource, RunView, XorShift64};
use crate::round_laws;
use crate::types::{Priority, ProposalView, RecordRequest, Step};
use vstd::prelude::*;

verus! {

/// A register that has recorded proposals at one step, in order.
pub open spec fn recorded_at<V>(
    register: IntervalSummaryView<V>,
    step: Step,
    proposals: Seq<ProposalView<V>>,
) -> IntervalSummaryView<V>
    decreases proposals.len(),
{
    if proposals.len() == 0 {
        register
    } else {
        recorded_at(register, step, proposals.drop_last()).recorded(step, proposals.last())
    }
}

/// However many proposals a register records at a new step, it reports the one
/// that came first, and holds one that wins against all of them or equals them:
/// by priority, then by proposer, then by lane. Of the step just before it
/// reports what it held then, of an earlier step nothing.
pub proof fn registers_hold_the_first_and_the_best<V>(
    register: IntervalSummaryView<V>,
    step: Step,
    proposals: Seq<ProposalView<V>>,
    i: int,
)
    requires
        step.0 > register.step.0,
        0 <= i < proposals.len(),
    ensures
        ({
            let after = recorded_at(register, step, proposals);
            &&& after.step == step
            &&& after.first == Some(proposals[0])
            &&& after.current_aggregate matches Some(best) && proposals.contains(best)
                && round_laws::holds_against(best.key, proposals[i].key)
            &&& after.prior_aggregate == if step.0 == register.step.0 + 1 {
                register.current_aggregate
            } else {
                None
            }
            &&& after.summary().step == step
            &&& after.summary().first == Some(proposals[0])
            &&& after.summary().prior_aggregate == after.prior_aggregate
        }),
    decreases proposals.len(),
{
    let earlier = proposals.drop_last();
    assert(recorded_at(register, step, Seq::<ProposalView<V>>::empty()) == register);
    assert(proposals[proposals.len() - 1] == proposals.last());
    assert(proposals.contains(proposals.last()));
    if earlier.len() == 0 {
        assert(earlier =~= Seq::empty());
    } else {
        let j = if i < earlier.len() {
            i
        } else {
            0
        };
        registers_hold_the_first_and_the_best(register, step, earlier, j);
        let held = recorded_at(register, step, earlier).current_aggregate->0;
        let at = earlier.index_of(held);
        assert(proposals[at] == held);
    }
}

/// What a register holds of a step is not touched by a request for an earlier
/// one, and the answer to it reports the later step.
pub proof fn late_requests_change_nothing<V>(
    register: IntervalSummaryView<V>,
    step: Step,
    proposal: ProposalView<V>,
)
    requires
        step.0 < register.step.0,
    ensures
        register.recorded(step, proposal) == register,
        register.recorded(step, proposal).summary().step == register.step,
{
}

/// Every number that is kept gives a priority between zero and the bound, and
/// fewer numbers are turned down than there are priorities.
pub proof fn few_numbers_are_turned_down(upper: u64, value: u64)
    requires
        upper > 1,
    ensures
        match proposer::unbiased(upper, value) {
            Some(priority) => 0 < priority.0 < upper && (priority.0 - 1) % (upper - 1) == value as int
                % (upper - 1),
            None => u64::MAX - value < upper - 1,
        },
{
    let range = (upper - 1) as u64;
    assert(0 <= u64::MAX % range < range);
    assert(0 <= value % range < range);
    if proposer::unbiased(upper, value) is Some {
        let drawn = (value % range) as int;
        assert(drawn % (range as int) == drawn) by (nonlinear_arith)
            requires
                0 <= drawn < range,
        ;
    }
}

proof fn lemma_step_keeps_states_apart(x: u64, y: u64)
    ensures
        proposer::xorshift(x) == proposer::xorshift(y) ==> x == y,
{
    let a = x ^ (x << 13);
    let b = a ^ (a >> 7);
    let c = b ^ (b << 17);
    let d = y ^ (y << 13);
    let e = d ^ (d >> 7);
    let f = e ^ (e << 17);
    assert(b ^ (b << 17) == e ^ (e << 17) ==> b == e) by (bit_vector);
    assert(a ^ (a >> 7) == d ^ (d >> 7) ==> a == d) by (bit_vector);
    assert(x ^ (x << 13) == y ^ (y << 13) ==> x == y) by (bit_vector);
}

/// A seeded source never gets stuck and never runs two streams together: from a
/// state other than zero it goes to a state other than zero, and from different
/// states to different ones. Every priority that it draws is between zero and the
/// bound.
pub proof fn seeded_streams_stay_apart(
    one: XorShift64,
    two: XorShift64,
    bound: Priority,
    first: std::result::Result<Priority, ErrorView>,
    second: std::result::Result<Priority, ErrorView>,
    one_after: XorShift64,
    two_after: XorShift64,
)
    requires
        bound.0 > 1,
        one.draws(bound, first, &one_after),
        two.draws(bound, second, &two_after),
    ensures
        first matches Ok(priority) && 0 < priority.0 < bound.0,
        one.current() != 0 ==> one_after.current() != 0,
        one.current() != two.current() ==> one_after.current() != two_after.current(),
{
    lemma_step_keeps_states_apart(one.current(), two.current());
    lemma_step_keeps_states_apart(one.current(), 0);
    let zero: u64 = 0;
    assert(zero ^ (zero << 13) == 0 && zero ^ (zero >> 7) == 0 && zero ^ (zero << 17) == 0)
        by (bit_vector)
        requires
            zero == 0,
    ;
}

/// A source of any seed starts in a state other than zero, and a seed other than
/// zero is its own state.
pub proof fn seeds_are_never_zero(seed: u64)
    ensures
        proposer::seeded(seed) != 0,
        seed != 0 ==> proposer::seeded(seed) == seed,
{
}

/// A step's requests go to every recorder, one each, and carry the run's
/// proposal at the run's step. Beyond the step limit there are none.
pub proof fn every_recorder_is_asked<V, R: PrioritySource>(
    run: RunView<V>,
    before: R,
    requests: Vec<RecordRequest<V>>,
    after: R,
    i: int,
)
    requires
        proposer::made_for(run, before, Ok(requests), after),
        0 <= i < run.recorders.len(),
    ensures
        run.step.0 <= run.max_steps,
        requests@.len() == run.recorders.len(),
        requests@[i]@.sender == run.sender,
        requests@[i]@.slot == run.slot,
        requests@[i]@.step == run.step,
        requests@[i]@.round_one_leader == run.leader,
        requests@[i]@.proposal.value_ids == run.proposal.value_ids,
        requests@[i]@.proposal.key.proposer_id == run.proposal.key.proposer_id,
        run.step.0 % 4 != 0 ==> requests@[i]@.proposal.key == run.proposal.key,
{
    if run.draws_priorities() {
        let (states, priorities) = choose|states: Seq<R>, priorities: Seq<Priority>| #[trigger]
            proposer::drew(states, priorities) && states[0] == before && states.last() == after
                && proposer::requests_with_priorities(run, priorities, requests@);
        round_laws::requests_carry_the_proposal(run, priorities[i]);
        assert(requests@[i]@ == run.request(priorities[i]));
    } else {
        let priorities = Seq::new(run.recorders.len(), |j: int| Priority(u64::MAX));
        round_laws::requests_carry_the_proposal(run, priorities[i]);
        assert(requests@[i]@ == run.request(priorities[i]));
    }
}

} // verus!
