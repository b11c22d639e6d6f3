//! The interval summary register of one slot.

use crate::key::{Duplicate, Key};
use crate::types;
use crate::types::{
    best_proposal, duplicate_option, Proposal, ProposalView, RecordSummary, RecordSummaryView, Step,
};
use vstd::prelude::*;

verus! {

/// Serializable state for one interval summary register.
#[derive(Debug, PartialEq, Eq)]
pub struct IntervalSummarySnapshot<V> {
    pub step: Step,
    pub first: Option<Proposal<V>>,
    pub current_aggregate: Option<Proposal<V>>,
    pub prior_aggregate: Option<Proposal<V>>,
}

/// What a recorder remembers of the proposals for one slot: the first at the
/// current step, the best at the current step, and the best at the step before.
#[derive(Debug)]
pub struct IntervalSummaryRegister<V> {
    step: Step,
    first: Option<Proposal<V>>,
    current_aggregate: Option<Proposal<V>>,
    prior_aggregate: Option<Proposal<V>>,
}

/// A register with its proposals as views.
#[verifier::ext_equal]
pub struct IntervalSummaryView<V> {
    pub step: Step,
    pub first: Option<ProposalView<V>>,
    pub current_aggregate: Option<ProposalView<V>>,
    pub prior_aggregate: Option<ProposalView<V>>,
}

impl<V> View for IntervalSummarySnapshot<V> {
    type V = IntervalSummaryView<V>;

    open spec fn view(&self) -> IntervalSummaryView<V> {
        IntervalSummaryView {
            step: self.step,
            first: types::option_view(self.first),
            current_aggregate: types::option_view(self.current_aggregate),
            prior_aggregate: types::option_view(self.prior_aggregate),
        }
    }
}

impl<V> View for IntervalSummaryRegister<V> {
    type V = IntervalSummaryView<V>;

    closed spec fn view(&self) -> IntervalSummaryView<V> {
        IntervalSummaryView {
            step: self.step,
            first: types::option_view(self.first),
            current_aggregate: types::option_view(self.current_aggregate),
            prior_aggregate: types::option_view(self.prior_aggregate),
        }
    }
}

impl<V> IntervalSummaryView<V> {
    /// A register that has recorded nothing.
    pub open spec fn empty() -> Self {
        IntervalSummaryView {
            step: Step(0),
            first: None,
            current_aggregate: None,
            prior_aggregate: None,
        }
    }

    /// The register after a proposal arrives at a step. At the current step the
    /// first proposal stays and the best one is kept; a later step starts anew
    /// and remembers the best of the step directly before it; an earlier step
    /// changes nothing.
    pub open spec fn recorded(self, step: Step, proposal: ProposalView<V>) -> Self {
        if step == self.step {
            IntervalSummaryView {
                first: match self.first {
                    Some(first) => Some(first),
                    None => Some(proposal),
                },
                current_aggregate: Some(types::better(self.current_aggregate, proposal)),
                ..self
            }
        } else if step.0 > self.step.0 {
            IntervalSummaryView {
                step,
                first: Some(proposal),
                current_aggregate: Some(proposal),
                prior_aggregate: if step.0 == self.step.0 + 1 {
                    self.current_aggregate
                } else {
                    None
                },
            }
        } else {
            self
        }
    }

    /// What the register tells.
    pub open spec fn summary(self) -> RecordSummaryView<V> {
        RecordSummaryView {
            step: self.step,
            first: self.first,
            prior_aggregate: self.prior_aggregate,
        }
    }
}

impl<V> Default for IntervalSummaryRegister<V> {
    fn default() -> (register: Self)
        ensures
            register@ == IntervalSummaryView::<V>::empty(),
    {
        IntervalSummaryRegister {
            step: Step(0),
            first: None,
            current_aggregate: None,
            prior_aggregate: None,
        }
    }
}

impl<V: Key> IntervalSummaryRegister<V> {
    /// A register that has recorded nothing.
    pub fn new() -> (register: Self)
        ensures
            register@ == IntervalSummaryView::<V>::empty(),
    {
        Self::default()
    }

    pub fn step(&self) -> (step: Step)
        ensures
            step == self@.step,
    {
        self.step
    }

    pub fn snapshot(&self) -> (snapshot: IntervalSummarySnapshot<V>)
        ensures
            snapshot@ == self@,
    {
        IntervalSummarySnapshot {
            step: self.step,
            first: duplicate_option(&self.first),
            current_aggregate: duplicate_option(&self.current_aggregate),
            prior_aggregate: duplicate_option(&self.prior_aggregate),
        }
    }

    pub fn restore(snapshot: IntervalSummarySnapshot<V>) -> (register: Self)
        ensures
            register@ == snapshot@,
    {
        IntervalSummaryRegister {
            step: snapshot.step,
            first: snapshot.first,
            current_aggregate: snapshot.current_aggregate,
            prior_aggregate: snapshot.prior_aggregate,
        }
    }

    /// Records a proposal at a step and tells what the register holds then.
    pub fn record(&mut self, step: Step, proposal: Proposal<V>) -> (summary: RecordSummary<V>)
        ensures
            final(self)@ == old(self)@.recorded(step, proposal@),
            summary@ == final(self)@.summary(),
    {
        if step.0 == self.step.0 {
            if self.first.is_none() {
                self.first = Some(proposal.duplicate_value());
            }
            let held: Option<Proposal<V>> = self.current_aggregate.take();
            self.current_aggregate = Some(best_proposal(held, proposal));
        } else if step.0 > self.step.0 {
            let held: Option<Proposal<V>> = self.current_aggregate.take();
            self.prior_aggregate =
            if step.is_next_after(self.step) {
                held
            } else {
                None
            };
            self.step = step;
            self.first = Some(proposal.duplicate_value());
            self.current_aggregate = Some(proposal);
        }
        RecordSummary {
            step: self.step,
            first: duplicate_option(&self.first),
            prior_aggregate: duplicate_option(&self.prior_aggregate),
        }
    }
}

impl<V: Key> Duplicate for IntervalSummaryRegister<V> {
    fn duplicate_value(&self) -> (copy: Self) {
        IntervalSummaryRegister {
            step: self.step,
            first: duplicate_option(&self.first),
            current_aggregate: duplicate_option(&self.current_aggregate),
            prior_aggregate: duplicate_option(&self.prior_aggregate),
        }
    }
}

impl<V: Key> Clone for IntervalSummaryRegister<V> {
    fn clone(&self) -> (copy: Self)
        ensures
            copy@ == self@,
    {
        self.duplicate_value()
    }
}

impl<V: Key> Duplicate for IntervalSummarySnapshot<V> {
    fn duplicate_value(&self) -> (copy: Self) {
        IntervalSummarySnapshot {
            step: self.step,
            first: duplicate_option(&self.first),
            current_aggregate: duplicate_option(&self.current_aggregate),
            prior_aggregate: duplicate_option(&self.prior_aggregate),
        }
    }
}

impl<V: Key> Clone for IntervalSummarySnapshot<V> {
    fn clone(&self) -> (copy: Self)
        ensures
            copy@ == self@,
    {
        self.duplicate_value()
    }
}

/// The step of a register never goes back, and within a step the first
/// proposal, once recorded, never changes.
pub proof fn register_is_monotone<V>(
    register: IntervalSummaryView<V>,
    step: Step,
    proposal: ProposalView<V>,
)
    ensures
        ({
            let after = register.recorded(step, proposal);
            &&& after.step.0 >= register.step.0
            &&& after.step.0 >= step.0
            &&& after.step == register.step && register.first is Some ==> after.first
                == register.first
            &&& step.0 < register.step.0 ==> after == register
        }),
{
}

/// Recording at one step twice keeps the better proposal as the aggregate,
/// whichever came first; on equal keys the earlier one stays.
pub proof fn aggregate_is_the_best_recorded<V>(
    register: IntervalSummaryView<V>,
    step: Step,
    one: ProposalView<V>,
    two: ProposalView<V>,
)
    requires
        step.0 > register.step.0,
    ensures
        register.recorded(step, one).recorded(step, two).current_aggregate == Some(
            if one.key.below(two.key) {
                two
            } else {
                one
            },
        ),
        register.recorded(step, one).recorded(step, two).first == Some(one),
{
}

/// Moving on by one step exposes the best proposal of the step before; skipping
/// a step exposes nothing.
pub proof fn next_step_exposes_the_aggregate<V>(
    register: IntervalSummaryView<V>,
    step: Step,
    proposal: ProposalView<V>,
)
    requires
        step.0 > register.step.0,
    ensures
        register.recorded(step, proposal).summary().prior_aggregate == if step.0
            == register.step.0 + 1 {
            register.current_aggregate
        } else {
            None
        },
{
}

} // verus!
