//! What a networked node waits for: its turn to propose, acknowledgements of a
//! quorum, and acknowledgements of everyone.

use crate::cluster::{ClusterIdentity, ClusterView, MembershipChange, MembershipChangeView};
use crate::collections::OrdSet;
use crate::error;
use crate::error::{ErrorView, QuePaxaError, Result};
use crate::runtime_course;
use crate::span::Span;
use crate::types;
use crate::types::{Decision, DecisionView, ReplicaId, SlotIndex, Step};
use vstd::prelude::*;

verus! {

/// What a replica that waits for its turn to propose for a slot does next.
#[derive(Debug, Clone, Copy, PartialEq, Eq)]
pub enum TurnAction {
    /// The slot needs no proposal any more.
    StandDown,
    /// Wait for the replica's place in the schedule. Progress at the node begins
    /// the turn anew.
    WaitForPlace { leader: ReplicaId, delay: Span },
    /// Ask the recorders how far the slot is.
    AskRecorders { leader: ReplicaId },
    /// Another proposer drives the slot: wait, or for progress at the node, and
    /// begin the turn anew.
    Pause { delay: Span },
    /// Propose, with this round-one leader.
    Propose { leader: ReplicaId },
}

/// The highest step that recorders reported.
pub fn highest_of(reports: &[Option<Step>]) -> (highest: Option<Step>)
    ensures
        highest == runtime_course::highest_step(reports@),
{
    let mut highest: Option<Step> = None;
    let mut i: usize = 0;
    assert(reports@.take(0) =~= Seq::<Option<Step>>::empty());
    while i < reports.len()
        invariant
            i <= reports@.len(),
            highest == runtime_course::highest_step(reports@.take(i as int)),
        decreases reports@.len() - i,
    {
        proof {
            assert(reports@.take(i + 1).drop_last() =~= reports@.take(i as int));
            assert(reports@.take(i + 1).last() == reports@[i as int]);
        }
        highest = match (highest, reports[i]) {
            (Some(held), Some(step)) => if step.0 > held.0 {
                Some(step)
            } else {
                Some(held)
            },
            (Some(held), None) => Some(held),
            (None, step) => step,
        };
        i += 1;
    }
    assert(reports@.take(i as int) =~= reports@);
    highest
}

/// Acknowledgements of one decision, gathered until they are a quorum.
#[derive(Debug)]
pub struct DecisionAcks {
    cluster: ClusterIdentity,
    acknowledged: Vec<ReplicaId>,
}

impl DecisionAcks {
    /// The membership that has to acknowledge.
    pub closed spec fn membership(&self) -> ClusterView {
        self.cluster@
    }

    /// Who acknowledged.
    pub closed spec fn voters(&self) -> Set<ReplicaId> {
        self.acknowledged@.to_set()
    }

    pub fn new(cluster: ClusterIdentity) -> (acks: Self)
        ensures
            acks.membership() == cluster@,
            acks.voters() == Set::<ReplicaId>::empty(),
    {
        let acks = DecisionAcks { cluster, acknowledged: Vec::new() };
        assert(acks.voters() =~= Set::<ReplicaId>::empty());
        acks
    }

    /// Takes in one recorder's result; whether a quorum has acknowledged.
    pub fn receive(&mut self, recorder: ReplicaId, acknowledged: bool) -> (complete: bool)
        ensures
            final(self).membership() == old(self).membership(),
            final(self).voters() == if acknowledged {
                old(self).voters().insert(recorder)
            } else {
                old(self).voters()
            },
            complete == (acknowledged && final(self).membership().has_quorum(
                final(self).voters(),
            )),
    {
        if !acknowledged {
            return false;
        }
        let ghost before = self.acknowledged@;
        self.acknowledged.push(recorder);
        proof {
            before.lemma_push_to_set_commute(recorder);
        }
        self.cluster.has_quorum(self.acknowledged.as_slice())
    }

    /// The refusal when no recorder is left to answer.
    pub fn shortage(&self, needed: usize) -> (refusal: QuePaxaError)
        ensures
            refusal@ matches ErrorView::QuorumNotReached { needed: wanted, received } && wanted
                == needed && received == self.voters().len(),
    {
        let unique: OrdSet<ReplicaId> = OrdSet::from_slice(self.acknowledged.as_slice());
        QuePaxaError::QuorumNotReached { needed, received: unique.len() }
    }
}

/// The refusal when not everyone acknowledged.
pub open spec fn all_but(needed: usize, received: usize) -> std::result::Result<(), ErrorView> {
    if received == needed {
        Ok(())
    } else {
        Err(ErrorView::QuorumNotReached { needed, received })
    }
}

/// Acknowledgements that everyone has to give.
#[derive(Debug)]
pub struct AllAcks {
    needed: usize,
    received: usize,
}

impl AllAcks {
    /// How many have to acknowledge.
    pub closed spec fn wanted(&self) -> usize {
        self.needed
    }

    /// How many have.
    pub closed spec fn given(&self) -> usize {
        self.received
    }

    pub fn new(needed: usize) -> (acks: Self)
        ensures
            acks.wanted() == needed,
            acks.given() == 0,
    {
        AllAcks { needed, received: 0 }
    }

    /// Takes in one answer. No more count than are needed.
    pub fn receive(&mut self, acknowledged: bool)
        ensures
            final(self).wanted() == old(self).wanted(),
            final(self).given() == if acknowledged && old(self).given() < old(self).wanted() {
                (old(self).given() + 1) as usize
            } else {
                old(self).given()
            },
    {
        if acknowledged && self.received < self.needed {
            self.received = self.received + 1;
        }
    }

    /// Whether everyone has acknowledged.
    pub fn check(&self) -> (checked: Result<()>)
        ensures
            error::outcome(checked) == all_but(self.wanted(), self.given()),
    {
        if self.received == self.needed {
            Ok(())
        } else {
            Err(QuePaxaError::QuorumNotReached { needed: self.needed, received: self.received })
        }
    }
}

/// A membership change on its way into force: every recorder is told what was
/// decided, then every recorder of the next membership installs the change.
#[derive(Debug)]
pub struct MembershipInstall<V> {
    change: MembershipChange<V>,
    decisions: Vec<Decision<V>>,
    told: AllAcks,
    installed: AllAcks,
}

/// How far a membership change is, with its parts as views.
#[verifier::ext_equal]
pub struct InstallView<V> {
    pub change: MembershipChangeView<V>,
    pub decisions: Seq<DecisionView<V>>,
    /// How many recorders have to be told, and how many were.
    pub to_tell: usize,
    pub told: usize,
    /// How many recorders have to install the change, and how many did.
    pub to_install: usize,
    pub installed: usize,
}

impl<V> View for MembershipInstall<V> {
    type V = InstallView<V>;

    closed spec fn view(&self) -> InstallView<V> {
        InstallView {
            change: self.change@,
            decisions: types::list_view(self.decisions@),
            to_tell: self.told.wanted(),
            told: self.told.given(),
            to_install: self.installed.wanted(),
            installed: self.installed.given(),
        }
    }
}

impl<V> InstallView<V> {
    /// Why the change cannot come into force yet.
    pub open spec fn shortage(self) -> std::result::Result<(), ErrorView> {
        match all_but(self.to_tell, self.told) {
            Err(refusal) => Err(refusal),
            Ok(()) => all_but(self.to_install, self.installed),
        }
    }
}

impl<V> MembershipInstall<V> {
    /// A change that goes to so many recorders. Where nothing was decided there
    /// is nothing to tell.
    pub fn new(
        change: MembershipChange<V>,
        decisions: Vec<Decision<V>>,
        recorders: usize,
        next_recorders: usize,
    ) -> (install: Self)
        ensures
            install@ == (InstallView {
                change: change@,
                decisions: types::list_view(decisions@),
                to_tell: if decisions@.len() == 0 {
                    0
                } else {
                    recorders
                },
                told: 0,
                to_install: next_recorders,
                installed: 0,
            }),
    {
        let to_tell: usize = if decisions.len() == 0 {
            0
        } else {
            recorders
        };
        MembershipInstall {
            change,
            decisions,
            told: AllAcks::new(to_tell),
            installed: AllAcks::new(next_recorders),
        }
    }

    pub fn change(&self) -> (change: &MembershipChange<V>)
        ensures
            change@ == self@.change,
    {
        &self.change
    }

    /// What every recorder is told.
    pub fn decisions(&self) -> (decisions: &[Decision<V>])
        ensures
            types::list_view(decisions@) == self@.decisions,
    {
        self.decisions.as_slice()
    }

    /// Takes in whether a recorder was told.
    pub fn receive_told(&mut self, acknowledged: bool)
        ensures
            final(self)@ == (InstallView {
                told: if acknowledged && old(self)@.told < old(self)@.to_tell {
                    (old(self)@.told + 1) as usize
                } else {
                    old(self)@.told
                },
                ..old(self)@
            }),
    {
        self.told.receive(acknowledged);
    }

    /// Whether every recorder was told.
    pub fn check_told(&self) -> (checked: Result<()>)
        ensures
            error::outcome(checked) == all_but(self@.to_tell, self@.told),
    {
        self.told.check()
    }

    /// Takes in that a recorder has installed the change.
    pub fn receive_installed(&mut self)
        ensures
            final(self)@ == (InstallView {
                installed: if old(self)@.installed < old(self)@.to_install {
                    (old(self)@.installed + 1) as usize
                } else {
                    old(self)@.installed
                },
                ..old(self)@
            }),
    {
        self.installed.receive(true);
    }

    /// Whether the change can come into force.
    pub fn check(&self) -> (checked: Result<()>)
        ensures
            error::outcome(checked) == self@.shortage(),
    {
        match self.told.check() {
            Err(refusal) => Err(refusal),
            Ok(()) => self.installed.check(),
        }
    }

    /// Gives the change up to come into force.
    pub fn into_change(self) -> (change: MembershipChange<V>)
        ensures
            change@ == self@.change,
    {
        self.change
    }
}

/// What becomes of a membership change.
#[derive(Debug)]
pub enum MembershipPlan<V> {
    /// It is in force already.
    InForce,
    Install(MembershipInstall<V>),
}

/// A checkpoint on its way: every recorder is told the decisions that it covers.
#[derive(Debug)]
pub struct TransferPlan<V> {
    through: SlotIndex,
    decisions: Vec<Decision<V>>,
    value_ids: Vec<V>,
    told: AllAcks,
}

/// How far a checkpoint is, with its parts as views.
#[verifier::ext_equal]
pub struct TransferPlanView<V> {
    pub through: SlotIndex,
    pub decisions: Seq<DecisionView<V>>,
    pub value_ids: Seq<V>,
    pub to_tell: usize,
    pub told: usize,
}

impl<V> View for TransferPlan<V> {
    type V = TransferPlanView<V>;

    closed spec fn view(&self) -> TransferPlanView<V> {
        TransferPlanView {
            through: self.through,
            decisions: types::list_view(self.decisions@),
            value_ids: self.value_ids@,
            to_tell: self.told.wanted(),
            told: self.told.given(),
        }
    }
}

impl<V> TransferPlan<V> {
    /// A checkpoint whose decisions go to so many recorders. Where it covers
    /// none there is nothing to tell.
    pub fn new(
        through: SlotIndex,
        decisions: Vec<Decision<V>>,
        value_ids: Vec<V>,
        recorders: usize,
    ) -> (plan: Self)
        ensures
            plan@ == (TransferPlanView {
                through,
                decisions: types::list_view(decisions@),
                value_ids: value_ids@,
                to_tell: if decisions@.len() == 0 {
                    0
                } else {
                    recorders
                },
                told: 0,
            }),
    {
        let to_tell: usize = if decisions.len() == 0 {
            0
        } else {
            recorders
        };
        TransferPlan { through, decisions, value_ids, told: AllAcks::new(to_tell) }
    }

    pub fn through(&self) -> (through: SlotIndex)
        ensures
            through == self@.through,
    {
        self.through
    }

    /// What every recorder is told.
    pub fn decisions(&self) -> (decisions: &[Decision<V>])
        ensures
            types::list_view(decisions@) == self@.decisions,
    {
        self.decisions.as_slice()
    }

    /// The values of the covered decisions.
    pub fn value_ids(&self) -> (value_ids: &[V])
        ensures
            value_ids@ == self@.value_ids,
    {
        self.value_ids.as_slice()
    }

    /// Takes in whether a recorder was told.
    pub fn receive_told(&mut self, acknowledged: bool)
        ensures
            final(self)@ == (TransferPlanView {
                told: if acknowledged && old(self)@.told < old(self)@.to_tell {
                    (old(self)@.told + 1) as usize
                } else {
                    old(self)@.told
                },
                ..old(self)@
            }),
    {
        self.told.receive(acknowledged);
    }

    /// Whether every recorder was told.
    pub fn check_told(&self) -> (checked: Result<()>)
        ensures
            error::outcome(checked) == all_but(self@.to_tell, self@.told),
    {
        self.told.check()
    }

    /// Gives up the values of the covered decisions.
    pub fn into_value_ids(self) -> (value_ids: Vec<V>)
        ensures
            value_ids@ == self@.value_ids,
    {
        self.value_ids
    }
}

} // verus!
