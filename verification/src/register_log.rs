//! What an interval summary register tells about the requests that it has
//! recorded.

use crate::isr::IntervalSummaryView;
use crate::types::{ProposalKey, ProposalView, RecordRequestView};
use vstd::prelude::*;

verus! {

/// The register after requests were recorded in order.
pub open spec fn register_of<V>(log: Seq<RecordRequestView<V>>) -> IntervalSummaryView<V>
    decreases log.len(),
{
    if log.len() == 0 {
        IntervalSummaryView::empty()
    } else {
        register_of(log.drop_last()).recorded(log.last().step, log.last().proposal)
    }
}

/// Whether a proposal was taken in at a step: it came while the register was at
/// the step or before it.
pub open spec fn accepts<V>(
    log: Seq<RecordRequestView<V>>,
    step: int,
    proposal: ProposalView<V>,
) -> bool
    decreases log.len(),
{
    log.len() > 0 && (accepts(log.drop_last(), step, proposal) || (log.last().step.0 == step
        && log.last().proposal == proposal && register_of(log.drop_last()).step.0 <= step))
}

/// The first proposal that was taken in at a step.
pub open spec fn first_at<V>(log: Seq<RecordRequestView<V>>, step: int) -> Option<ProposalView<V>>
    decreases log.len(),
{
    if log.len() == 0 {
        None
    } else {
        match first_at(log.drop_last(), step) {
            Some(proposal) => Some(proposal),
            None => if log.last().step.0 == step && register_of(log.drop_last()).step.0 <= step {
                Some(log.last().proposal)
            } else {
                None
            },
        }
    }
}

/// Whether every request is for a step at which proposals are recorded.
pub open spec fn well_stepped<V>(log: Seq<RecordRequestView<V>>) -> bool {
    forall|i: int| 0 <= i < log.len() ==> (#[trigger] log[i]).step.0 > 0
}

/// One key is at most another.
pub open spec fn at_most(a: ProposalKey, b: ProposalKey) -> bool {
    !b.below(a)
}

/// No proposal that was taken in at a step has a key above a bound.
pub open spec fn bounded_at<V>(
    log: Seq<RecordRequestView<V>>,
    step: int,
    bound: ProposalKey,
) -> bool {
    forall|proposal: ProposalView<V>| #[trigger]
        accepts(log, step, proposal) ==> at_most(proposal.key, bound)
}

/// Nothing was taken in at a step.
pub open spec fn silent_at<V>(log: Seq<RecordRequestView<V>>, step: int) -> bool {
    forall|proposal: ProposalView<V>| !#[trigger] accepts(log, step, proposal)
}

/// One log goes on where another ends.
pub open spec fn extends<V>(
    longer: Seq<RecordRequestView<V>>,
    log: Seq<RecordRequestView<V>>,
) -> bool {
    log.len() <= longer.len() && longer.take(log.len() as int) == log
}

/// What was taken in is of a request, at no later step than the register's.
pub proof fn lemma_accepted_is_logged<V>(
    log: Seq<RecordRequestView<V>>,
    step: int,
    proposal: ProposalView<V>,
)
    requires
        accepts(log, step, proposal),
    ensures
        step <= register_of(log).step.0,
        exists|i: int|
            0 <= i < log.len() && (#[trigger] log[i]).step.0 == step && log[i].proposal == proposal,
    decreases log.len(),
{
    let rest = log.drop_last();
    if accepts(rest, step, proposal) {
        lemma_accepted_is_logged(rest, step, proposal);
        let i = choose|i: int|
            0 <= i < rest.len() && (#[trigger] rest[i]).step.0 == step && rest[i].proposal
                == proposal;
        assert(log[i] == rest[i]);
    } else {
        assert(log[log.len() - 1] == log.last());
    }
}

/// The first proposal of a step was taken in at it.
pub proof fn lemma_first_is_accepted<V>(log: Seq<RecordRequestView<V>>, step: int)
    requires
        first_at(log, step) is Some,
    ensures
        accepts(log, step, first_at(log, step)->0),
    decreases log.len(),
{
    if first_at(log.drop_last(), step) is Some {
        lemma_first_is_accepted(log.drop_last(), step);
    }
}

/// What the last request adds to what was taken in.
proof fn lemma_last_request<V>(log: Seq<RecordRequestView<V>>)
    requires
        log.len() > 0,
    ensures
        forall|step: int, proposal: ProposalView<V>| #[trigger]
            accepts(log, step, proposal) == (accepts(log.drop_last(), step, proposal) || (
            log.last().step.0 == step && log.last().proposal == proposal && register_of(
                log.drop_last(),
            ).step.0 <= step)),
        forall|step: int, proposal: ProposalView<V>| #[trigger]
            accepts(log.drop_last(), step, proposal) ==> accepts(log, step, proposal),
{
}

/// The register tells the first and the best proposal of its step, and the best
/// one of the step before.
pub proof fn lemma_register_tells<V>(log: Seq<RecordRequestView<V>>)
    requires
        log.len() > 0,
        well_stepped(log),
    ensures
        register_of(log).step.0 > 0,
        register_of(log).first is Some,
        register_of(log).first == first_at(log, register_of(log).step.0 as int),
        match register_of(log).current_aggregate {
            Some(best) => accepts(log, register_of(log).step.0 as int, best) && bounded_at(
                log,
                register_of(log).step.0 as int,
                best.key,
            ),
            None => false,
        },
        match register_of(log).prior_aggregate {
            Some(best) => accepts(log, register_of(log).step.0 - 1, best) && bounded_at(
                log,
                register_of(log).step.0 - 1,
                best.key,
            ),
            None => silent_at(log, register_of(log).step.0 - 1),
        },
    decreases log.len(),
{
    let rest = log.drop_last();
    let register = register_of(rest);
    let step = log.last().step;
    assert(log[log.len() - 1] == log.last());
    assert(well_stepped(rest)) by {
        assert forall|i: int| 0 <= i < rest.len() implies (#[trigger] rest[i]).step.0 > 0 by {
            assert(log[i] == rest[i]);
        }
    }
    if rest.len() > 0 {
        lemma_register_tells(rest);
    }
    assert forall|s: int, p: ProposalView<V>| #[trigger] accepts(rest, s, p) implies s
        <= register.step.0 by {
        lemma_accepted_is_logged(rest, s, p);
    }
    assert forall|s: int| s > register.step.0 implies first_at(rest, s) is None by {
        if first_at(rest, s) is Some {
            lemma_first_is_accepted(rest, s);
        }
    }
    lemma_last_request(log);
    let at = register_of(log).step.0 as int;
    assert(register_of(log) == register.recorded(step, log.last().proposal));
    if rest.len() == 0 {
        assert(register == IntervalSummaryView::<V>::empty());
        assert(step.0 > register.step.0);
    }
    if step.0 > register.step.0 {
        assert(at == step.0);
        assert(first_at(rest, at) is None);
        assert(accepts(log, at, log.last().proposal));
        assert(bounded_at(log, at, log.last().proposal.key));
    } else if step.0 == register.step.0 {
        assert(first_at(log, at) == first_at(rest, at));
        let held = register.current_aggregate->0;
        let best = register_of(log).current_aggregate->0;
        assert(accepts(rest, at, held));
        assert(accepts(log, at, held));
        assert(accepts(log, at, log.last().proposal));
        assert forall|p: ProposalView<V>| #[trigger] accepts(log, at, p) implies at_most(
            p.key,
            best.key,
        ) by {
            if accepts(rest, at, p) {
                assert(at_most(p.key, held.key));
            }
        }
    } else {
        assert(first_at(log, at) == first_at(rest, at));
    }
}

/// The register's step never falls.
pub proof fn lemma_steps_grow<V>(
    log: Seq<RecordRequestView<V>>,
    longer: Seq<RecordRequestView<V>>,
)
    requires
        extends(longer, log),
    ensures
        register_of(log).step.0 <= register_of(longer).step.0,
    decreases longer.len(),
{
    if longer.len() == log.len() {
        assert(longer.take(log.len() as int) =~= longer);
    } else {
        assert(longer.drop_last().take(log.len() as int) =~= longer.take(log.len() as int));
        lemma_steps_grow(log, longer.drop_last());
    }
}

/// What was taken in stays so, and at a step that the register has left nothing
/// more is taken in.
pub proof fn lemma_acceptance_is_stable<V>(
    log: Seq<RecordRequestView<V>>,
    longer: Seq<RecordRequestView<V>>,
    step: int,
    proposal: ProposalView<V>,
)
    requires
        extends(longer, log),
    ensures
        accepts(log, step, proposal) ==> accepts(longer, step, proposal),
        register_of(log).step.0 > step ==> accepts(longer, step, proposal) == accepts(
            log,
            step,
            proposal,
        ),
    decreases longer.len(),
{
    if longer.len() == log.len() {
        assert(longer.take(log.len() as int) =~= longer);
    } else {
        assert(longer.drop_last().take(log.len() as int) =~= longer.take(log.len() as int));
        lemma_acceptance_is_stable(log, longer.drop_last(), step, proposal);
        lemma_steps_grow(log, longer.drop_last());
    }
}

/// The first proposal of a step stays the first.
pub proof fn lemma_first_is_stable<V>(
    log: Seq<RecordRequestView<V>>,
    longer: Seq<RecordRequestView<V>>,
    step: int,
)
    requires
        extends(longer, log),
        first_at(log, step) is Some,
    ensures
        first_at(longer, step) == first_at(log, step),
    decreases longer.len(),
{
    if longer.len() == log.len() {
        assert(longer.take(log.len() as int) =~= longer);
    } else {
        assert(longer.drop_last().take(log.len() as int) =~= longer.take(log.len() as int));
        lemma_first_is_stable(log, longer.drop_last(), step);
    }
}

/// Bounds and silence at a step that the register has left stay.
pub proof fn lemma_past_steps_are_closed<V>(
    log: Seq<RecordRequestView<V>>,
    longer: Seq<RecordRequestView<V>>,
    step: int,
    bound: ProposalKey,
)
    requires
        extends(longer, log),
        register_of(log).step.0 > step,
    ensures
        bounded_at(longer, step, bound) == bounded_at(log, step, bound),
        silent_at(longer, step) == silent_at(log, step),
        register_of(longer).step.0 > step,
{
    lemma_steps_grow(log, longer);
    assert forall|p: ProposalView<V>| accepts(log, step, p) == accepts(longer, step, p) by {
        lemma_acceptance_is_stable(log, longer, step, p);
    }
}

/// A request that brought the register to its step, or found it there, was taken
/// in.
pub proof fn lemma_request_in_step_is_accepted<V>(log: Seq<RecordRequestView<V>>)
    requires
        log.len() > 0,
        register_of(log).step == log.last().step,
    ensures
        accepts(log, log.last().step.0 as int, log.last().proposal),
{
}

} // verus!
