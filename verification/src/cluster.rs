//! Cluster membership: voters, quorums and transitions between epochs.

use crate::bytes;
use crate::collections;
use crate::collections::OrdSet;
use crate::digest;
use crate::error;
use crate::error::{ErrorView, QuePaxaError, Result};
use crate::key::{Duplicate, Key};
use crate::text;
use crate::types::{
    duplicate_keys, duplicate_option, list_contains, same_list, Decision, DecisionView,
    RecordSummary, RecordSummaryView, ReplicaId,
};
use vstd::prelude::*;
use vstd::string::StringExecFns;

verus! {

/// One stable or joint-consensus membership epoch.
///
/// Stable epochs require the configured `n - f` quorum. Joint epochs require
/// an `n - f` quorum from both the old and new voter sets. That dual-quorum
/// rule is the safety boundary which permits membership changes without ever
/// switching directly between two disjoint quorums.
#[derive(Debug, PartialEq, Eq)]
pub struct ClusterIdentity {
    /// Union of voters which are active in this epoch. In a stable epoch this
    /// is exactly the current voter set.
    members: Vec<ReplicaId>,
    /// Fault budget for the current (new, during a joint epoch) voter set.
    max_faults: usize,
    epoch: u64,
    joint: Option<Box<JointMembership>>,
}

#[derive(Debug, PartialEq, Eq)]
struct JointMembership {
    old_members: Vec<ReplicaId>,
    old_max_faults: usize,
    new_members: Vec<ReplicaId>,
}

/// The two voter sets of a joint epoch.
#[verifier::ext_equal]
pub struct JointView {
    pub old_members: Seq<ReplicaId>,
    pub old_max_faults: usize,
    pub new_members: Seq<ReplicaId>,
}

/// A membership epoch with its voters as sequences.
#[verifier::ext_equal]
pub struct ClusterView {
    pub members: Seq<ReplicaId>,
    pub max_faults: usize,
    pub epoch: u64,
    pub joint: Option<JointView>,
}

impl View for ClusterIdentity {
    type V = ClusterView;

    closed spec fn view(&self) -> ClusterView {
        ClusterView {
            members: self.members@,
            max_faults: self.max_faults,
            epoch: self.epoch,
            joint: match self.joint {
                Some(joint) => Some(
                    JointView {
                        old_members: joint.old_members@,
                        old_max_faults: joint.old_max_faults,
                        new_members: joint.new_members@,
                    },
                ),
                None => None,
            },
        }
    }
}

/// Voters in ascending order, at least one of them.
pub open spec fn normalized(members: Seq<ReplicaId>) -> bool {
    members.len() > 0 && collections::ascending(members)
}

/// More than twice as many voters as faults.
pub open spec fn tolerates(replicas: nat, faults: nat) -> bool {
    replicas >= 2 * faults + 1
}

/// Whether `voters` has `n - f` of `members`.
pub open spec fn quorum_of(members: Seq<ReplicaId>, faults: usize, voters: Set<ReplicaId>) -> bool {
    members.to_set().intersect(voters).len() >= members.len() - faults
}

impl ClusterView {
    /// Sorted voters, a fault budget that they tolerate, and in a joint epoch
    /// two such voter sets whose union is active.
    pub open spec fn valid(self) -> bool {
        &&& normalized(self.members)
        &&& match self.joint {
            Some(joint) => {
                &&& normalized(joint.old_members)
                &&& normalized(joint.new_members)
                &&& tolerates(joint.old_members.len(), joint.old_max_faults as nat)
                &&& tolerates(joint.new_members.len(), self.max_faults as nat)
                &&& self.members.to_set() == joint.old_members.to_set().union(
                    joint.new_members.to_set(),
                )
            },
            None => tolerates(self.members.len(), self.max_faults as nat),
        }
    }

    /// The voters that remain once a joint epoch is finalized.
    pub open spec fn current_members(self) -> Seq<ReplicaId> {
        match self.joint {
            Some(joint) => joint.new_members,
            None => self.members,
        }
    }

    /// The fewest voters that can make a quorum.
    pub open spec fn quorum_size(self) -> int {
        match self.joint {
            Some(joint) => {
                let old_quorum = joint.old_members.len() - joint.old_max_faults;
                let new_quorum = joint.new_members.len() - self.max_faults;
                let shared = joint.old_members.to_set().intersect(
                    joint.new_members.to_set(),
                ).len() as int;
                old_quorum + new_quorum - vstd::math::min(
                    shared,
                    vstd::math::min(old_quorum, new_quorum),
                )
            },
            None => self.members.len() - self.max_faults,
        }
    }

    /// Whether the voters make a quorum: `n - f` members and nobody else in a
    /// stable epoch, both component quorums in a joint one.
    pub open spec fn has_quorum(self, voters: Set<ReplicaId>) -> bool {
        match self.joint {
            Some(joint) => {
                &&& quorum_of(joint.old_members, joint.old_max_faults, voters)
                &&& quorum_of(joint.new_members, self.max_faults, voters)
            },
            None => {
                &&& voters.len() >= self.members.len() - self.max_faults
                &&& voters.subset_of(self.members.to_set())
            },
        }
    }

    /// The two legal transitions: stable to joint and joint to stable, each to
    /// the next epoch.
    pub open spec fn follows(self, previous: ClusterView) -> bool {
        &&& self.epoch == previous.epoch + 1
        &&& match self.joint {
            Some(joint) => {
                &&& previous.joint is None
                &&& joint.old_members == previous.members
                &&& joint.old_max_faults == previous.max_faults
            },
            None => match previous.joint {
                Some(joint) => self.members == joint.new_members && self.max_faults
                    == previous.max_faults,
                None => false,
            },
        }
    }
}

/// An identity that occurs more than once.
pub open spec fn repeated(list: Seq<ReplicaId>, id: ReplicaId) -> bool {
    exists|i: int, j: int|
        0 <= i < j < list.len() && #[trigger] list[i] == id && #[trigger] list[j] == id
}

/// The least identity that occurs more than once.
pub open spec fn is_least_repeated(list: Seq<ReplicaId>, id: ReplicaId) -> bool {
    repeated(list, id) && forall|other: ReplicaId| repeated(list, other) ==> id.0 <= other.0
}

/// The least identity that occurs more than once.
pub open spec fn least_repeated(list: Seq<ReplicaId>) -> ReplicaId {
    choose|id: ReplicaId| is_least_repeated(list, id)
}

/// Voters in ascending order; there must be one, and none twice.
pub open spec fn normal_form(members: Seq<ReplicaId>) -> std::result::Result<
    Seq<ReplicaId>,
    ErrorView,
> {
    if members.len() == 0 {
        Err(ErrorView::EmptyCluster)
    } else if !members.no_duplicates() {
        Err(ErrorView::DuplicateReplica(least_repeated(members)))
    } else {
        Ok(collections::in_order(members.to_set()))
    }
}

/// Puts voters in ascending order.
fn normalize_members(members: &[ReplicaId]) -> (result: Result<Vec<ReplicaId>>)
    ensures
        error::outcome(result) == normal_form(members@),
        match result {
            Ok(list) => normalized(list@) && list@.to_set() == members@.to_set() && list@.len()
                == members@.len(),
            Err(_) => true,
        },
{
    if members.len() == 0 {
        return Err(QuePaxaError::EmptyCluster);
    }
    let mut seen: OrdSet<ReplicaId> = OrdSet::new();
    let mut duplicate: Option<ReplicaId> = None;
    let mut i: usize = 0;
    while i < members.len()
        invariant
            i <= members@.len(),
            seen@ == members@.take(i as int).to_set(),
            match duplicate {
                Some(id) => is_least_repeated(members@.take(i as int), id),
                None => members@.take(i as int).no_duplicates(),
            },
        decreases members@.len() - i,
    {
        let member: ReplicaId = members[i];
        let ghost before = members@.take(i as int);
        let ghost now = members@.take(i + 1);
        proof {
            assert(now =~= before.push(member));
            before.lemma_push_to_set_commute(member);
            assert forall|id: ReplicaId| #![trigger repeated(now, id)]
                repeated(now, id) <==> repeated(before, id) || (id == member && before.contains(
                    member,
                )) by {
                if repeated(now, id) {
                    let (p, q) = choose|p: int, q: int|
                        0 <= p < q < now.len() && #[trigger] now[p] == id && #[trigger] now[q]
                            == id;
                    assert(before[p] == id);
                    if q < i {
                        assert(before[q] == id);
                    }
                }
                if repeated(before, id) {
                    let (p, q) = choose|p: int, q: int|
                        0 <= p < q < before.len() && #[trigger] before[p] == id
                            && #[trigger] before[q] == id;
                    assert(now[p] == id && now[q] == id);
                }
                if id == member && before.contains(member) {
                    let p = collections::place(before, member);
                    assert(0 <= p < before.len() && before[p] == member);
                    assert(now[p] == id && now[i as int] == id);
                }
            }
        }
        if !seen.insert(member) {
            assert(before.contains(member));
            assert(repeated(now, member));
            let lower = match duplicate {
                Some(id) => member.0 < id.0,
                None => true,
            };
            proof {
                if duplicate is None {
                    assert forall|id: ReplicaId| !repeated(before, id) by {}
                } else {
                    assert(repeated(now, duplicate->0));
                }
            }
            if lower {
                duplicate = Some(member);
            }
        } else {
            proof {
                assert(!before.contains(member));
                if duplicate is Some {
                    assert(repeated(now, duplicate->0));
                }
            }
        }
        i += 1;
    }
    assert(members@.take(i as int) =~= members@);
    match duplicate {
        Some(id) => {
            proof {
                let least = least_repeated(members@);
                assert(is_least_repeated(members@, id));
                assert(is_least_repeated(members@, least));
                assert(id == least);
                let (p, q) = choose|p: int, q: int|
                    0 <= p < q < members@.len() && #[trigger] members@[p] == id
                        && #[trigger] members@[q] == id;
            }
            Err(QuePaxaError::DuplicateReplica(id))
        },
        None => {
            let list: Vec<ReplicaId> = seen.to_vec();
            proof {
                members@.unique_seq_to_set();
            }
            Ok(list)
        },
    }
}

/// Why a fault budget is refused: it cannot be counted, or there are too few
/// voters for it.
pub open spec fn fault_budget_error(replicas: usize, faults: usize) -> Option<ErrorView> {
    if 2 * faults + 1 > usize::MAX {
        Some(ErrorView::InvalidProposal("fault tolerance is too large"@))
    } else if replicas < 2 * faults + 1 {
        Some(
            ErrorView::InvalidProposal(
                text::decimal(replicas as nat) + " replicas cannot tolerate "@ + text::decimal(
                    faults as nat,
                ) + " crash faults; require at least "@ + text::decimal((2 * faults + 1) as nat),
            ),
        )
    } else {
        None
    }
}

/// Checks that `replica_count` voters outnumber `max_faults` faults two to one.
pub fn validate_fault_tolerance(replica_count: usize, max_faults: usize) -> (result: Result<()>)
    ensures
        match fault_budget_error(replica_count, max_faults) {
            Some(refusal) => result matches Err(found) && found@ == refusal,
            None => result is Ok && tolerates(replica_count as nat, max_faults as nat),
        },
        result is Ok <==> tolerates(replica_count as nat, max_faults as nat),
{
    let doubled: Option<usize> = max_faults.checked_mul(2);
    let required: usize = match doubled {
        Some(value) => {
            if value == usize::MAX {
                return Err(QuePaxaError::InvalidProposal("fault tolerance is too large".to_owned()));
            }
            value + 1
        },
        None => {
            return Err(QuePaxaError::InvalidProposal("fault tolerance is too large".to_owned()));
        },
    };
    if replica_count < required {
        let mut message: String = String::new();
        text::push_decimal(&mut message, replica_count as u64);
        message.append(" replicas cannot tolerate ");
        text::push_decimal(&mut message, max_faults as u64);
        message.append(" crash faults; require at least ");
        text::push_decimal(&mut message, required as u64);
        assert(message@ =~= text::decimal(replica_count as nat) + " replicas cannot tolerate "@
            + text::decimal(max_faults as nat) + " crash faults; require at least "@
            + text::decimal(required as nat));
        return Err(QuePaxaError::InvalidProposal(message));
    }
    Ok(())
}

/// A stable membership made of `members`, or why there is none.
pub open spec fn stable_cluster(
    epoch: u64,
    members: Seq<ReplicaId>,
    max_faults: usize,
) -> std::result::Result<ClusterView, ErrorView> {
    match normal_form(members) {
        Err(refusal) => Err(refusal),
        Ok(list) => match fault_budget_error(list.len() as usize, max_faults) {
            Some(refusal) => Err(refusal),
            None => Ok(ClusterView { members: list, max_faults, epoch, joint: None }),
        },
    }
}

/// The joint membership that begins a change from `stable` to `new_members`.
pub open spec fn joint_cluster(
    stable: ClusterView,
    new_members: Seq<ReplicaId>,
    new_max_faults: usize,
) -> std::result::Result<ClusterView, ErrorView> {
    if stable.joint is Some {
        Err(
            ErrorView::InvalidReconfiguration(
                "cannot begin a second reconfiguration from a joint epoch"@,
            ),
        )
    } else {
        match normal_form(new_members) {
            Err(refusal) => Err(refusal),
            Ok(list) => match fault_budget_error(list.len() as usize, new_max_faults) {
                Some(refusal) => Err(refusal),
                None => if stable.epoch == u64::MAX {
                    Err(ErrorView::ConfigurationEpochOverflow)
                } else {
                    Ok(
                        ClusterView {
                            members: collections::in_order(
                                stable.members.to_set().union(list.to_set()),
                            ),
                            max_faults: new_max_faults,
                            epoch: (stable.epoch + 1) as u64,
                            joint: Some(
                                JointView {
                                    old_members: stable.members,
                                    old_max_faults: stable.max_faults,
                                    new_members: list,
                                },
                            ),
                        },
                    )
                },
            },
        }
    }
}

/// The stable membership that ends a joint epoch.
pub open spec fn finalized_cluster(joint: ClusterView) -> std::result::Result<
    ClusterView,
    ErrorView,
> {
    match joint.joint {
        None => Err(
            ErrorView::InvalidReconfiguration("only a joint epoch can be finalized"@),
        ),
        Some(sets) => if joint.epoch == u64::MAX {
            Err(ErrorView::ConfigurationEpochOverflow)
        } else {
            Ok(
                ClusterView {
                    members: sets.new_members,
                    max_faults: joint.max_faults,
                    epoch: (joint.epoch + 1) as u64,
                    joint: None,
                },
            )
        },
    }
}

/// How many of `members` are among `voters`.
fn count_shared(members: &[ReplicaId], voters: &OrdSet<ReplicaId>) -> (count: usize)
    requires
        collections::ascending(members@),
    ensures
        count == members@.to_set().intersect(voters@).len(),
        count <= members@.len(),
{
    let mut count: usize = 0;
    let mut i: usize = 0;
    proof {
        collections::lemma_set_is_finite(*voters);
    }
    assert(members@.take(0).to_set().intersect(voters@) =~= Set::<ReplicaId>::empty());
    while i < members.len()
        invariant
            i <= members@.len(),
            count <= i,
            collections::ascending(members@),
            voters@.finite(),
            count == members@.take(i as int).to_set().intersect(voters@).len(),
        decreases members@.len() - i,
    {
        let ghost before = members@.take(i as int);
        proof {
            let member = members@[i as int];
            assert(members@.take(i + 1) =~= before.push(member));
            before.lemma_push_to_set_commute(member);
            assert(!before.contains(member)) by {
                if before.contains(member) {
                    let p = collections::place(before, member);
                    assert(0 <= p < before.len() && before[p] == member);
                    assert(members@[p].rank() < members@[i as int].rank());
                }
            }
            let shared = before.to_set().intersect(voters@);
            assert(shared.finite());
            if voters@.contains(member) {
                assert(before.to_set().insert(member).intersect(voters@) =~= shared.insert(member));
            } else {
                assert(before.to_set().insert(member).intersect(voters@) =~= shared);
            }
        }
        if voters.contains(&members[i]) {
            count += 1;
        }
        i += 1;
    }
    assert(members@.take(i as int) =~= members@);
    count
}

impl ClusterIdentity {
    #[verifier::type_invariant]
    spec fn sound(self) -> bool {
        self@.valid()
    }

    /// A stable membership in epoch zero.
    pub fn new(members: Vec<ReplicaId>, max_faults: usize) -> (created: Result<Self>)
        ensures
            error::outcome(created) == stable_cluster(0, members@, max_faults),
    {
        Self::stable(0, members, max_faults)
    }

    /// An explicitly versioned stable membership. Epochs must advance by one
    /// for each stable -> joint or joint -> stable transition.
    pub fn stable(epoch: u64, members: Vec<ReplicaId>, max_faults: usize) -> (created: Result<Self>)
        ensures
            error::outcome(created) == stable_cluster(epoch, members@, max_faults),
            match created {
                Ok(cluster) => cluster@.valid(),
                Err(_) => true,
            },
    {
        let members: Vec<ReplicaId> = match normalize_members(members.as_slice()) {
            Ok(list) => list,
            Err(refusal) => return Err(refusal),
        };
        match validate_fault_tolerance(members.len(), max_faults) {
            Ok(()) => {},
            Err(refusal) => return Err(refusal),
        }
        Ok(ClusterIdentity { members, max_faults, epoch, joint: None })
    }

    /// A membership put together from its parts, if they are well formed:
    /// sorted voters, a tolerable fault budget, and in a joint epoch the union
    /// of two such voter sets.
    pub fn from_parts(
        members: Vec<ReplicaId>,
        max_faults: usize,
        epoch: u64,
        joint: Option<(Vec<ReplicaId>, usize, Vec<ReplicaId>)>,
    ) -> (created: Option<Self>)
        ensures
            ({
                let view = ClusterView {
                    members: members@,
                    max_faults,
                    epoch,
                    joint: match joint {
                        Some(parts) => Some(
                            JointView {
                                old_members: parts.0@,
                                old_max_faults: parts.1,
                                new_members: parts.2@,
                            },
                        ),
                        None => None,
                    },
                };
                match created {
                    Some(cluster) => view.valid() && cluster@ == view,
                    None => !view.valid(),
                }
            }),
    {
        if !members_are_normalized(members.as_slice()) {
            return None;
        }
        match joint {
            None => {
                match validate_fault_tolerance(members.len(), max_faults) {
                    Ok(()) => Some(ClusterIdentity { members, max_faults, epoch, joint: None }),
                    Err(_) => None,
                }
            },
            Some((old_members, old_max_faults, new_members)) => {
                if !members_are_normalized(old_members.as_slice()) || !members_are_normalized(
                    new_members.as_slice(),
                ) {
                    return None;
                }
                if validate_fault_tolerance(old_members.len(), old_max_faults).is_err()
                    || validate_fault_tolerance(new_members.len(), max_faults).is_err() {
                    return None;
                }
                let union: Vec<ReplicaId> = merge_members(
                    old_members.as_slice(),
                    new_members.as_slice(),
                );
                if !same_list(union.as_slice(), members.as_slice()) {
                    proof {
                        if members@.to_set() == union@.to_set() {
                            collections::lemma_ascending_unique(members@, union@);
                        }
                    }
                    return None;
                }
                Some(
                    ClusterIdentity {
                        members,
                        max_faults,
                        epoch,
                        joint: Some(
                            Box::new(JointMembership { old_members, old_max_faults, new_members }),
                        ),
                    },
                )
            },
        }
    }

    /// Begins a joint epoch whose active voters are the union of the current
    /// stable membership and `new_members`.
    pub fn begin_joint(&self, new_members: Vec<ReplicaId>, new_max_faults: usize) -> (created:
        Result<Self>)
        ensures
            error::outcome(created) == joint_cluster(self@, new_members@, new_max_faults),
    {
        proof {
            use_type_invariant(self);
        }
        if self.is_joint() {
            return Err(
                QuePaxaError::InvalidReconfiguration(
                    "cannot begin a second reconfiguration from a joint epoch".to_owned(),
                ),
            );
        }
        let new_members: Vec<ReplicaId> = match normalize_members(new_members.as_slice()) {
            Ok(list) => list,
            Err(refusal) => return Err(refusal),
        };
        match validate_fault_tolerance(new_members.len(), new_max_faults) {
            Ok(()) => {},
            Err(refusal) => return Err(refusal),
        }
        let epoch: u64 = match self.epoch.checked_add(1) {
            Some(epoch) => epoch,
            None => return Err(QuePaxaError::ConfigurationEpochOverflow),
        };
        let old_members: Vec<ReplicaId> = duplicate_keys(self.members.as_slice());
        let members: Vec<ReplicaId> = merge_members(
            old_members.as_slice(),
            new_members.as_slice(),
        );
        let joint = Box::new(
            JointMembership { old_members, old_max_faults: self.max_faults, new_members },
        );
        Ok(
            ClusterIdentity {
                members,
                max_faults: new_max_faults,
                epoch,
                joint: Some(joint),
            },
        )
    }

    /// Finalizes a joint epoch, retaining only its new voter set.
    pub fn finalize_joint(&self) -> (created: Result<Self>)
        ensures
            error::outcome(created) == finalized_cluster(self@),
    {
        proof {
            use_type_invariant(self);
        }
        match &self.joint {
            None => Err(
                QuePaxaError::InvalidReconfiguration(
                    "only a joint epoch can be finalized".to_owned(),
                ),
            ),
            Some(joint) => {
                let epoch: u64 = match self.epoch.checked_add(1) {
                    Some(epoch) => epoch,
                    None => return Err(QuePaxaError::ConfigurationEpochOverflow),
                };
                Ok(
                    ClusterIdentity {
                        members: duplicate_keys(joint.new_members.as_slice()),
                        max_faults: self.max_faults,
                        epoch,
                        joint: None,
                    },
                )
            },
        }
    }

    pub fn epoch(&self) -> (epoch: u64)
        ensures
            epoch == self@.epoch,
    {
        self.epoch
    }

    pub fn is_joint(&self) -> (joint: bool)
        ensures
            joint == (self@.joint is Some),
    {
        self.joint.is_some()
    }

    /// The active voters in ascending order.
    pub fn members(&self) -> (members: &[ReplicaId])
        ensures
            members@ == self@.members,
            self@.valid(),
    {
        proof {
            use_type_invariant(self);
        }
        self.members.as_slice()
    }

    /// The membership that remains after a joint epoch is finalized.
    pub fn current_members(&self) -> (members: &[ReplicaId])
        ensures
            members@ == self@.current_members(),
    {
        match &self.joint {
            Some(joint) => joint.new_members.as_slice(),
            None => self.members.as_slice(),
        }
    }

    /// The voters that a joint epoch replaces.
    pub fn old_members(&self) -> (members: Option<&[ReplicaId]>)
        ensures
            match members {
                Some(list) => self@.joint matches Some(joint) && list@ == joint.old_members,
                None => self@.joint is None,
            },
    {
        match &self.joint {
            Some(joint) => Some(joint.old_members.as_slice()),
            None => None,
        }
    }

    /// The fault budget of the voters that a joint epoch replaces.
    pub fn old_max_faults(&self) -> (faults: Option<usize>)
        ensures
            match faults {
                Some(count) => self@.joint matches Some(joint) && count == joint.old_max_faults,
                None => self@.joint is None,
            },
    {
        match &self.joint {
            Some(joint) => Some(joint.old_max_faults),
            None => None,
        }
    }

    pub fn contains(&self, replica: ReplicaId) -> (member: bool)
        ensures
            member == self@.members.contains(replica),
    {
        proof {
            use_type_invariant(self);
        }
        sorted_contains(self.members.as_slice(), replica)
    }

    pub fn max_faults(&self) -> (faults: usize)
        ensures
            faults == self@.max_faults,
    {
        self.max_faults
    }

    /// The fewest voters that can make a quorum.
    pub fn quorum_size(&self) -> (size: usize)
        ensures
            size == self@.quorum_size(),
            1 <= size <= self@.members.len(),
            self@.valid(),
    {
        proof {
            use_type_invariant(self);
            lemma_quorum_size_bounds(self@);
        }
        match &self.joint {
            Some(joint) => {
                let old_quorum: usize = joint.old_members.len() - joint.old_max_faults;
                let new_quorum: usize = joint.new_members.len() - self.max_faults;
                let new_set: OrdSet<ReplicaId> = OrdSet::from_slice(joint.new_members.as_slice());
                let mut shared: usize = count_shared(joint.old_members.as_slice(), &new_set);
                if old_quorum < shared {
                    shared = old_quorum;
                }
                if new_quorum < shared {
                    shared = new_quorum;
                }
                let active: usize = self.members.len();
                assert(old_quorum - shared + new_quorum == self@.quorum_size() <= active);
                old_quorum - shared + new_quorum
            },
            None => self.members.len() - self.max_faults,
        }
    }

    /// Returns true only if `voters` contains a stable quorum, or both
    /// component quorums for a joint epoch.
    pub fn has_quorum(&self, voters: &[ReplicaId]) -> (reached: bool)
        ensures
            reached == self@.has_quorum(voters@.to_set()),
            self@.valid(),
    {
        proof {
            use_type_invariant(self);
        }
        let voters: OrdSet<ReplicaId> = OrdSet::from_slice(voters);
        match &self.joint {
            Some(joint) => {
                let old: usize = count_shared(joint.old_members.as_slice(), &voters);
                let new: usize = count_shared(joint.new_members.as_slice(), &voters);
                old >= joint.old_members.len() - joint.old_max_faults && new
                    >= joint.new_members.len() - self.max_faults
            },
            None => {
                let members: OrdSet<ReplicaId> = OrdSet::from_slice(self.members.as_slice());
                voters.len() >= self.members.len() - self.max_faults && voters.is_subset(&members)
            },
        }
    }

    /// Validates the only two legal membership transitions.
    pub fn is_successor_of(&self, previous: &Self) -> (follows: bool)
        ensures
            follows == self@.follows(previous@),
    {
        if previous.epoch == u64::MAX || previous.epoch + 1 != self.epoch {
            return false;
        }
        match &self.joint {
            Some(joint) => {
                !previous.is_joint() && same_list(
                    joint.old_members.as_slice(),
                    previous.members.as_slice(),
                ) && joint.old_max_faults == previous.max_faults
            },
            None => match &previous.joint {
                Some(joint) => same_list(self.members.as_slice(), joint.new_members.as_slice())
                    && self.max_faults == previous.max_faults,
                None => false,
            },
        }
    }

    /// Whether two memberships are equal in every field.
    pub fn same_cluster(&self, other: &Self) -> (equal: bool)
        ensures
            equal == (self@ == other@),
    {
        if self.max_faults != other.max_faults || self.epoch != other.epoch || !same_list(
            self.members.as_slice(),
            other.members.as_slice(),
        ) {
            return false;
        }
        match &self.joint {
            Some(a) => match &other.joint {
                Some(b) => a.old_max_faults == b.old_max_faults && same_list(
                    a.old_members.as_slice(),
                    b.old_members.as_slice(),
                ) && same_list(a.new_members.as_slice(), b.new_members.as_slice()),
                None => false,
            },
            None => other.joint.is_none(),
        }
    }
}

impl Duplicate for ClusterIdentity {
    fn duplicate_value(&self) -> (copy: Self) {
        proof {
            use_type_invariant(self);
        }
        let joint: Option<Box<JointMembership>> = match &self.joint {
            Some(joint) => Some(
                Box::new(
                    JointMembership {
                        old_members: duplicate_keys(joint.old_members.as_slice()),
                        old_max_faults: joint.old_max_faults,
                        new_members: duplicate_keys(joint.new_members.as_slice()),
                    },
                ),
            ),
            None => None,
        };
        let members: Vec<ReplicaId> = duplicate_keys(self.members.as_slice());
        ClusterIdentity { members, max_faults: self.max_faults, epoch: self.epoch, joint }
    }
}

impl Clone for ClusterIdentity {
    fn clone(&self) -> (copy: Self)
        ensures
            copy@ == self@,
    {
        self.duplicate_value()
    }
}

/// Whether voters stand in ascending order, at least one of them.
fn members_are_normalized(members: &[ReplicaId]) -> (normal: bool)
    ensures
        normal == normalized(members@),
{
    if members.len() == 0 {
        return false;
    }
    let mut i: usize = 1;
    while i < members.len()
        invariant
            1 <= i <= members@.len(),
            collections::ascending(members@.take(i as int)),
        decreases members@.len() - i,
    {
        if members[i].0 <= members[i - 1].0 {
            assert(!collections::ascending(members@)) by {
                assert(members@[i - 1].rank() >= members@[i as int].rank());
            }
            return false;
        }
        assert(collections::ascending(members@.take(i + 1))) by {
            let longer = members@.take(i + 1);
            let shorter = members@.take(i as int);
            assert forall|p: int, q: int| 0 <= p < q < longer.len() implies (
            #[trigger] longer[p]).rank() < (#[trigger] longer[q]).rank() by {
                if q < i {
                    assert(shorter[p].rank() < shorter[q].rank());
                } else if p < i - 1 {
                    assert(shorter[p].rank() < shorter[i - 1].rank());
                }
            }
        }
        i += 1;
    }
    assert(members@.take(i as int) =~= members@);
    true
}

/// The voters of both lists in ascending order.
fn merge_members(old_members: &[ReplicaId], new_members: &[ReplicaId]) -> (merged: Vec<ReplicaId>)
    requires
        old_members@.len() > 0,
    ensures
        normalized(merged@),
        merged@.to_set() == old_members@.to_set().union(new_members@.to_set()),
        merged@ == collections::in_order(old_members@.to_set().union(new_members@.to_set())),
{
    let mut union: OrdSet<ReplicaId> = OrdSet::from_slice(old_members);
    let mut i: usize = 0;
    while i < new_members.len()
        invariant
            i <= new_members@.len(),
            union@ == old_members@.to_set().union(new_members@.take(i as int).to_set()),
        decreases new_members@.len() - i,
    {
        let _ = union.insert(new_members[i]);
        proof {
            let member = new_members@[i as int];
            let before = new_members@.take(i as int);
            assert(new_members@.take(i + 1) =~= before.push(member));
            before.lemma_push_to_set_commute(member);
            assert(union@ =~= old_members@.to_set().union(new_members@.take(i + 1).to_set()));
        }
        i += 1;
    }
    assert(new_members@.take(i as int) =~= new_members@);
    let merged: Vec<ReplicaId> = union.to_vec();
    proof {
        assert(union@.contains(old_members@[0]));
    }
    merged
}

/// Binary search for a voter.
fn sorted_contains(members: &[ReplicaId], replica: ReplicaId) -> (found: bool)
    requires
        collections::ascending(members@),
    ensures
        found == members@.contains(replica),
{
    let mut low: usize = 0;
    let mut high: usize = members.len();
    while low < high
        invariant
            low <= high <= members@.len(),
            collections::ascending(members@),
            forall|i: int| 0 <= i < low ==> (#[trigger] members@[i]).0 < replica.0,
            forall|i: int| high <= i < members@.len() ==> replica.0 < (#[trigger] members@[i]).0,
        decreases high - low,
    {
        let middle: usize = low + (high - low) / 2;
        if members[middle].0 == replica.0 {
            assert(members@[middle as int] == replica);
            return true;
        }
        if members[middle].0 < replica.0 {
            assert forall|i: int| 0 <= i < middle + 1 implies (#[trigger] members@[i]).0
                < replica.0 by {
                if i < middle {
                    assert(members@[i].rank() < members@[middle as int].rank());
                }
            }
            low = middle + 1;
        } else {
            assert forall|i: int| middle <= i < members@.len() implies replica.0 < (
            #[trigger] members@[i]).0 by {
                if middle < i {
                    assert(members@[middle as int].rank() < members@[i].rank());
                }
            }
            high = middle;
        }
    }
    false
}

/// A valid membership needs at least one voter and never more than it has.
pub proof fn lemma_quorum_size_bounds(cluster: ClusterView)
    requires
        cluster.valid(),
    ensures
        1 <= cluster.quorum_size() <= cluster.members.len(),
{
    match cluster.joint {
        Some(joint) => {
            let old_set = joint.old_members.to_set();
            let new_set = joint.new_members.to_set();
            collections::lemma_ascending_distinct(joint.old_members);
            collections::lemma_ascending_distinct(joint.new_members);
            collections::lemma_ascending_distinct(cluster.members);
            vstd::set_lib::lemma_set_intersect_union_lens(old_set, new_set);
            vstd::set_lib::lemma_len_intersect(old_set, new_set);
            assert(old_set.intersect(new_set) =~= new_set.intersect(old_set));
            vstd::set_lib::lemma_len_intersect(new_set, old_set);
        },
        None => {},
    }
}

/// Any two majorities share a voter.
pub proof fn majorities_intersect(
    electors: Set<ReplicaId>,
    left: Set<ReplicaId>,
    right: Set<ReplicaId>,
)
    requires
        electors.finite(),
        left.subset_of(electors),
        right.subset_of(electors),
        2 * left.len() > electors.len(),
        2 * right.len() > electors.len(),
    ensures
        exists|voter: ReplicaId| left.contains(voter) && right.contains(voter),
{
    vstd::set_lib::lemma_set_subset_finite(electors, left);
    vstd::set_lib::lemma_set_subset_finite(electors, right);
    vstd::set_lib::lemma_set_intersect_union_lens(left, right);
    vstd::set_lib::lemma_len_subset(left.union(right), electors);
    assert(left.intersect(right).len() > 0);
    let voter = left.intersect(right).choose();
    assert(left.intersect(right).contains(voter));
}

/// Any two quorums of a stable membership share a voter.
pub proof fn stable_quorums_intersect(
    cluster: ClusterView,
    left: Set<ReplicaId>,
    right: Set<ReplicaId>,
)
    requires
        cluster.valid(),
        cluster.joint is None,
        cluster.has_quorum(left),
        cluster.has_quorum(right),
    ensures
        exists|voter: ReplicaId| left.contains(voter) && right.contains(voter),
{
    let members = cluster.members.to_set();
    collections::lemma_ascending_distinct(cluster.members);
    vstd::set_lib::lemma_set_subset_finite(members, left);
    vstd::set_lib::lemma_set_subset_finite(members, right);
    vstd::set_lib::lemma_set_intersect_union_lens(left, right);
    vstd::set_lib::lemma_len_subset(left.union(right), members);
    assert(left.intersect(right).len() > 0);
    let voter = left.intersect(right).choose();
    assert(left.intersect(right).contains(voter));
}

/// Sets that each hold a majority of one voter list share a voter.
proof fn lemma_component_quorums_intersect(
    members: Seq<ReplicaId>,
    faults: usize,
    left: Set<ReplicaId>,
    right: Set<ReplicaId>,
)
    requires
        normalized(members),
        tolerates(members.len(), faults as nat),
        quorum_of(members, faults, left),
        quorum_of(members, faults, right),
    ensures
        exists|voter: ReplicaId| left.contains(voter) && right.contains(voter),
{
    let all = members.to_set();
    collections::lemma_ascending_distinct(members);
    let (a, b) = (all.intersect(left), all.intersect(right));
    vstd::set_lib::lemma_set_subset_finite(all, a);
    vstd::set_lib::lemma_set_subset_finite(all, b);
    vstd::set_lib::lemma_set_intersect_union_lens(a, b);
    vstd::set_lib::lemma_len_subset(a.union(b), all);
    let voter = a.intersect(b).choose();
    assert(a.intersect(b).contains(voter));
}

/// A quorum of a stable membership is a component quorum.
proof fn lemma_stable_quorum_is_component(cluster: ClusterView, voters: Set<ReplicaId>)
    requires
        cluster.valid(),
        cluster.joint is None,
        cluster.has_quorum(voters),
    ensures
        quorum_of(cluster.members, cluster.max_faults, voters),
{
    assert(cluster.members.to_set().intersect(voters) =~= voters);
}

/// Any two quorums of one membership, stable or joint, share a voter.
pub proof fn quorums_intersect(
    cluster: ClusterView,
    left: Set<ReplicaId>,
    right: Set<ReplicaId>,
)
    requires
        cluster.valid(),
        cluster.has_quorum(left),
        cluster.has_quorum(right),
    ensures
        exists|voter: ReplicaId| left.contains(voter) && right.contains(voter),
{
    match cluster.joint {
        Some(joint) => {
            lemma_component_quorums_intersect(
                joint.new_members,
                cluster.max_faults,
                left,
                right,
            );
        },
        None => {
            stable_quorums_intersect(cluster, left, right);
        },
    }
}

/// Across a legal membership transition every quorum of the old epoch shares a
/// voter with every quorum of the new one.
pub proof fn successive_quorums_intersect(
    previous: ClusterView,
    next: ClusterView,
    left: Set<ReplicaId>,
    right: Set<ReplicaId>,
)
    requires
        previous.valid(),
        next.valid(),
        next.follows(previous),
        previous.has_quorum(left),
        next.has_quorum(right),
    ensures
        exists|voter: ReplicaId| left.contains(voter) && right.contains(voter),
{
    match next.joint {
        Some(joint) => {
            lemma_stable_quorum_is_component(previous, left);
            lemma_component_quorums_intersect(
                joint.old_members,
                joint.old_max_faults,
                left,
                right,
            );
        },
        None => {
            lemma_stable_quorum_is_component(next, right);
            lemma_component_quorums_intersect(next.members, next.max_faults, left, right);
        },
    }
}

/// No quorum has fewer voters than the quorum size.
pub proof fn quorum_size_is_necessary(cluster: ClusterView, voters: Set<ReplicaId>)
    requires
        cluster.valid(),
        voters.finite(),
        cluster.has_quorum(voters),
    ensures
        voters.len() >= cluster.quorum_size(),
{
    match cluster.joint {
        Some(joint) => {
            let old_set = joint.old_members.to_set();
            let new_set = joint.new_members.to_set();
            collections::lemma_ascending_distinct(joint.old_members);
            collections::lemma_ascending_distinct(joint.new_members);
            let (a, b) = (old_set.intersect(voters), new_set.intersect(voters));
            vstd::set_lib::lemma_set_subset_finite(voters, a);
            vstd::set_lib::lemma_set_subset_finite(voters, b);
            vstd::set_lib::lemma_set_intersect_union_lens(a, b);
            vstd::set_lib::lemma_len_subset(a.union(b), voters);
            vstd::set_lib::lemma_len_subset(a.intersect(b), a);
            vstd::set_lib::lemma_len_subset(a.intersect(b), b);
            vstd::set_lib::lemma_len_subset(a.intersect(b), old_set.intersect(new_set));
        },
        None => {},
    }
}

/// A finite set has subsets of every smaller size.
proof fn lemma_subset_of_size(all: Set<ReplicaId>, size: nat) -> (part: Set<ReplicaId>)
    requires
        all.finite(),
        size <= all.len(),
    ensures
        part.finite(),
        part.subset_of(all),
        part.len() == size,
    decreases all.len(),
{
    if size == all.len() {
        all
    } else {
        let left_out = all.choose();
        assert(all.contains(left_out));
        lemma_subset_of_size(all.remove(left_out), size)
    }
}

/// A set holds a component quorum once it holds enough of the component's
/// voters.
proof fn lemma_enough_voters(
    members: Seq<ReplicaId>,
    faults: usize,
    part: Set<ReplicaId>,
    voters: Set<ReplicaId>,
)
    requires
        part.finite(),
        part.subset_of(members.to_set()),
        part.subset_of(voters),
        part.len() >= members.len() - faults,
    ensures
        quorum_of(members, faults, voters),
{
    let held = members.to_set().intersect(voters);
    vstd::seq_lib::seq_to_set_is_finite(members);
    vstd::set_lib::lemma_set_subset_finite(members.to_set(), held);
    vstd::set_lib::lemma_len_subset(part, held);
}

/// Some quorum has no more voters than the quorum size, so the size is the
/// least that a quorum can have.
pub proof fn quorum_size_is_enough(cluster: ClusterView) -> (voters: Set<ReplicaId>)
    requires
        cluster.valid(),
    ensures
        voters.finite(),
        voters.subset_of(cluster.members.to_set()),
        voters.len() == cluster.quorum_size(),
        cluster.has_quorum(voters),
{
    collections::lemma_ascending_distinct(cluster.members);
    match cluster.joint {
        Some(joint) => {
            let old_set = joint.old_members.to_set();
            let new_set = joint.new_members.to_set();
            collections::lemma_ascending_distinct(joint.old_members);
            collections::lemma_ascending_distinct(joint.new_members);
            joint.old_members.unique_seq_to_set();
            joint.new_members.unique_seq_to_set();
            let old_quorum = (joint.old_members.len() - joint.old_max_faults) as nat;
            let new_quorum = (joint.new_members.len() - cluster.max_faults) as nat;
            let shared = old_set.intersect(new_set);
            vstd::set_lib::lemma_set_subset_finite(old_set, shared);
            let twice = vstd::math::min(
                shared.len() as int,
                vstd::math::min(old_quorum as int, new_quorum as int),
            ) as nat;
            let core = lemma_subset_of_size(shared, twice);
            if twice == shared.len() {
                vstd::set_lib::lemma_subset_equality(core, shared);
            }
            let (old_rest, new_rest) = (old_set.difference(core), new_set.difference(core));
            lemma_difference_len(old_set, core);
            lemma_difference_len(new_set, core);
            let old_extra = lemma_subset_of_size(old_rest, (old_quorum - twice) as nat);
            let new_extra = lemma_subset_of_size(new_rest, (new_quorum - twice) as nat);
            assert(old_extra.disjoint(new_extra)) by {
                if old_extra.len() == 0 {
                    assert(old_extra =~= Set::empty());
                } else if new_extra.len() == 0 {
                    assert(new_extra =~= Set::empty());
                } else {
                    assert(core == shared);
                }
            }
            let (old_part, new_part) = (core.union(old_extra), core.union(new_extra));
            let voters = old_part.union(new_extra);
            vstd::set_lib::lemma_set_disjoint_lens(core, old_extra);
            vstd::set_lib::lemma_set_disjoint_lens(core, new_extra);
            vstd::set_lib::lemma_set_disjoint_lens(old_part, new_extra);
            lemma_enough_voters(joint.old_members, joint.old_max_faults, old_part, voters);
            lemma_enough_voters(joint.new_members, cluster.max_faults, new_part, voters);
            voters
        },
        None => {
            cluster.members.unique_seq_to_set();
            lemma_subset_of_size(
                cluster.members.to_set(),
                (cluster.members.len() - cluster.max_faults) as nat,
            )
        },
    }
}

/// Taking a part out leaves the rest.
proof fn lemma_difference_len(all: Set<ReplicaId>, part: Set<ReplicaId>)
    requires
        all.finite(),
        part.subset_of(all),
    ensures
        all.difference(part).finite(),
        all.difference(part).len() == all.len() - part.len(),
{
    let rest = all.difference(part);
    vstd::set_lib::lemma_set_subset_finite(all, part);
    vstd::set_lib::lemma_set_subset_finite(all, rest);
    assert(part.union(rest) =~= all);
    vstd::set_lib::lemma_set_disjoint_lens(part, rest);
}

/// In a joint epoch neither component quorum alone is enough: a set that
/// misses either one is no quorum.
pub proof fn joint_quorum_needs_both_components(cluster: ClusterView, voters: Set<ReplicaId>)
    requires
        cluster.valid(),
        cluster.joint is Some,
    ensures
        cluster.has_quorum(voters) <==> {
            &&& quorum_of(cluster.joint->0.old_members, cluster.joint->0.old_max_faults, voters)
            &&& quorum_of(cluster.joint->0.new_members, cluster.max_faults, voters)
        },
{
}

/// A joint epoch begun from a stable one and then finalized passes through two
/// legal transitions and ends with exactly the new voters.
pub proof fn joint_transition_round_trip(
    stable: ClusterView,
    new_members: Seq<ReplicaId>,
    new_max_faults: usize,
)
    requires
        stable.valid(),
        joint_cluster(stable, new_members, new_max_faults) is Ok,
        finalized_cluster(joint_cluster(stable, new_members, new_max_faults)->Ok_0) is Ok,
    ensures
        ({
            let joint = joint_cluster(stable, new_members, new_max_faults)->Ok_0;
            let last = finalized_cluster(joint)->Ok_0;
            &&& joint.follows(stable)
            &&& last.follows(joint)
            &&& last.members.to_set() == new_members.to_set()
            &&& last.epoch == stable.epoch + 2
        }),
{
    let list = normal_form(new_members)->Ok_0;
    collections::lemma_in_order_exists(new_members.to_set());
    assert(list.to_set() == new_members.to_set());
}

/// Canonical application command for a membership transition. Networked
/// deployments should agree on [`MembershipCommand::sha256_id`] as the value
/// ID; this makes the exact target configuration part of the committed
/// command.
#[derive(Debug, PartialEq, Eq)]
pub struct MembershipCommand {
    pub next: ClusterIdentity,
}

/// The text that opens every canonical encoding.
pub open spec fn command_tag() -> Seq<u8> {
    seq![
        113u8, 117, 101, 112, 97, 120, 97, 45, 109, 101, 109, 98, 101, 114, 115, 104, 105, 112, 45,
        99, 111, 109, 109, 97, 110, 100, 45, 118, 49,
    ]
}

/// The text that opens every canonical encoding.
fn command_tag_bytes() -> (tag: Vec<u8>)
    ensures
        tag@ == command_tag(),
{
    let tag: Vec<u8> = vec![
        113u8, 117, 101, 112, 97, 120, 97, 45, 109, 101, 109, 98, 101, 114, 115, 104, 105, 112, 45,
        99, 111, 109, 109, 97, 110, 100, 45, 118, 49,
    ];
    assert(tag@ =~= command_tag());
    tag
}

/// Identities as eight bytes each.
pub open spec fn encoded_ids(members: Seq<ReplicaId>) -> Seq<u8>
    decreases members.len(),
{
    if members.len() == 0 {
        Seq::empty()
    } else {
        encoded_ids(members.drop_last()) + bytes::be_bytes(members.last().0 as nat, 8)
    }
}

/// Voters as their number and then each identity, eight bytes each.
pub open spec fn encoded_members(members: Seq<ReplicaId>) -> Seq<u8> {
    bytes::be_bytes(members.len(), 8) + encoded_ids(members)
}

/// The canonical encoding of a membership: epoch, fault budget and voters,
/// then a marker and, in a joint epoch, the two voter sets.
pub open spec fn encoded_cluster(cluster: ClusterView) -> Seq<u8> {
    bytes::be_bytes(cluster.epoch as nat, 8) + bytes::be_bytes(cluster.max_faults as nat, 8)
        + encoded_members(cluster.members) + match cluster.joint {
        Some(joint) => seq![1u8] + bytes::be_bytes(joint.old_max_faults as nat, 8)
            + encoded_members(joint.old_members) + encoded_members(joint.new_members),
        None => seq![0u8],
    }
}

/// Strings that agree with the same tails cut off at one length agree in both
/// parts.
proof fn lemma_split(a: Seq<u8>, x: Seq<u8>, b: Seq<u8>, y: Seq<u8>)
    requires
        a + x == b + y,
        a.len() == b.len(),
    ensures
        a == b,
        x == y,
{
    assert((a + x).take(a.len() as int) =~= a);
    assert((b + y).take(a.len() as int) =~= b);
    assert((a + x).skip(a.len() as int) =~= x);
    assert((b + y).skip(a.len() as int) =~= y);
}

proof fn lemma_encoded_number(a: nat, x: Seq<u8>, b: nat, y: Seq<u8>)
    requires
        a <= u64::MAX,
        b <= u64::MAX,
        bytes::be_bytes(a, 8) + x == bytes::be_bytes(b, 8) + y,
    ensures
        a == b,
        x == y,
{
    bytes::lemma_capacity();
    bytes::lemma_be_bytes(a, 8);
    bytes::lemma_be_bytes(b, 8);
    lemma_split(bytes::be_bytes(a, 8), x, bytes::be_bytes(b, 8), y);
    bytes::lemma_be_bytes_injective(a, b, 8);
}

proof fn lemma_encoded_ids(a: Seq<ReplicaId>, b: Seq<ReplicaId>)
    requires
        a.len() == b.len(),
    ensures
        encoded_ids(a).len() == 8 * a.len(),
        encoded_ids(a) == encoded_ids(b) ==> a == b,
    decreases a.len(),
{
    if a.len() == 0 {
        assert(a =~= b);
    } else {
        let (p, q) = (a.drop_last(), b.drop_last());
        lemma_encoded_ids(p, q);
        lemma_encoded_ids(q, p);
        bytes::lemma_be_bytes(a.last().0 as nat, 8);
        bytes::lemma_be_bytes(b.last().0 as nat, 8);
        if encoded_ids(a) == encoded_ids(b) {
            lemma_split(
                encoded_ids(p),
                bytes::be_bytes(a.last().0 as nat, 8),
                encoded_ids(q),
                bytes::be_bytes(b.last().0 as nat, 8),
            );
            bytes::lemma_capacity();
            bytes::lemma_be_bytes_injective(a.last().0 as nat, b.last().0 as nat, 8);
            assert(a =~= p.push(a.last()));
            assert(b =~= q.push(b.last()));
        }
    }
}

proof fn lemma_encoded_members(
    a: Seq<ReplicaId>,
    x: Seq<u8>,
    b: Seq<ReplicaId>,
    y: Seq<u8>,
)
    requires
        a.len() <= u64::MAX,
        b.len() <= u64::MAX,
        encoded_members(a) + x == encoded_members(b) + y,
    ensures
        a == b,
        x == y,
{
    assert(encoded_members(a) + x =~= bytes::be_bytes(a.len(), 8) + (encoded_ids(a) + x));
    assert(encoded_members(b) + y =~= bytes::be_bytes(b.len(), 8) + (encoded_ids(b) + y));
    lemma_encoded_number(a.len(), encoded_ids(a) + x, b.len(), encoded_ids(b) + y);
    lemma_encoded_ids(a, b);
    lemma_encoded_ids(b, a);
    lemma_split(encoded_ids(a), x, encoded_ids(b), y);
}

/// Whether the voter lists are short enough for their length to be encoded.
pub open spec fn countable(cluster: ClusterView) -> bool {
    &&& cluster.members.len() <= u64::MAX
    &&& cluster.joint matches Some(joint) ==> joint.old_members.len() <= u64::MAX
        && joint.new_members.len() <= u64::MAX
}

/// The canonical encoding names its configuration: different memberships have
/// different encodings.
pub proof fn canonical_encoding_is_injective(a: ClusterView, b: ClusterView)
    requires
        countable(a),
        countable(b),
        command_tag() + encoded_cluster(a) == command_tag() + encoded_cluster(b),
    ensures
        a == b,
{
    lemma_split(command_tag(), encoded_cluster(a), command_tag(), encoded_cluster(b));
    let tail = |c: ClusterView|
        match c.joint {
            Some(joint) => seq![1u8] + bytes::be_bytes(joint.old_max_faults as nat, 8)
                + encoded_members(joint.old_members) + encoded_members(joint.new_members),
            None => seq![0u8],
        };
    let voters = |c: ClusterView| encoded_members(c.members) + tail(c);
    let budget = |c: ClusterView| bytes::be_bytes(c.max_faults as nat, 8) + voters(c);
    assert(encoded_cluster(a) =~= bytes::be_bytes(a.epoch as nat, 8) + budget(a));
    assert(encoded_cluster(b) =~= bytes::be_bytes(b.epoch as nat, 8) + budget(b));
    lemma_encoded_number(a.epoch as nat, budget(a), b.epoch as nat, budget(b));
    lemma_encoded_number(a.max_faults as nat, voters(a), b.max_faults as nat, voters(b));
    lemma_encoded_members(a.members, tail(a), b.members, tail(b));
    assert(tail(a)[0] == if a.joint is Some { 1u8 } else { 0u8 });
    assert(tail(b)[0] == if b.joint is Some { 1u8 } else { 0u8 });
    if a.joint is Some {
        let (p, q) = (a.joint->0, b.joint->0);
        let sets = |j: JointView| encoded_members(j.old_members) + encoded_members(j.new_members);
        let rest = |j: JointView| bytes::be_bytes(j.old_max_faults as nat, 8) + sets(j);
        assert(tail(a) =~= seq![1u8] + rest(p));
        assert(tail(b) =~= seq![1u8] + rest(q));
        lemma_split(seq![1u8], rest(p), seq![1u8], rest(q));
        lemma_encoded_number(p.old_max_faults as nat, sets(p), q.old_max_faults as nat, sets(q));
        lemma_encoded_members(
            p.old_members,
            encoded_members(p.new_members),
            q.old_members,
            encoded_members(q.new_members),
        );
        assert(encoded_members(p.new_members) + Seq::<u8>::empty() =~= encoded_members(
            p.new_members,
        ));
        assert(encoded_members(q.new_members) + Seq::<u8>::empty() =~= encoded_members(
            q.new_members,
        ));
        lemma_encoded_members(p.new_members, Seq::empty(), q.new_members, Seq::empty());
        assert(p =~= q);
    }
    assert(a =~= b);
}

fn encode_members(members: &[ReplicaId], out: &mut Vec<u8>)
    ensures
        final(out)@ == old(out)@ + encoded_members(members@),
{
    bytes::push_be(out, members.len() as u64, 8);
    let ghost head = out@;
    let mut i: usize = 0;
    while i < members.len()
        invariant
            i <= members@.len(),
            out@ == head + encoded_ids(members@.take(i as int)),
        decreases members@.len() - i,
    {
        bytes::push_be(out, members[i].0, 8);
        proof {
            let longer = members@.take(i + 1);
            assert(longer.drop_last() =~= members@.take(i as int));
            assert(out@ =~= head + encoded_ids(longer));
        }
        i += 1;
    }
    assert(members@.take(i as int) =~= members@);
    assert(out@ =~= old(out)@ + encoded_members(members@));
}

fn encode_cluster(cluster: &ClusterIdentity, out: &mut Vec<u8>)
    ensures
        final(out)@ == old(out)@ + encoded_cluster(cluster@),
{
    bytes::push_be(out, cluster.epoch, 8);
    bytes::push_be(out, cluster.max_faults as u64, 8);
    encode_members(cluster.members.as_slice(), out);
    match &cluster.joint {
        Some(joint) => {
            out.push(1);
            bytes::push_be(out, joint.old_max_faults as u64, 8);
            encode_members(joint.old_members.as_slice(), out);
            encode_members(joint.new_members.as_slice(), out);
        },
        None => {
            out.push(0);
        },
    }
    assert(out@ =~= old(out)@ + encoded_cluster(cluster@));
}

impl MembershipCommand {
    pub fn new(next: ClusterIdentity) -> (command: Self)
        ensures
            command.next == next,
    {
        MembershipCommand { next }
    }

    /// Dependency-free canonical encoding used as the input to a deployment's
    /// content hash or signature scheme.
    pub fn canonical_bytes(&self) -> (encoded: Result<Vec<u8>>)
        ensures
            encoded matches Ok(list) && list@ == command_tag() + encoded_cluster(self.next@),
    {
        let mut list: Vec<u8> = command_tag_bytes();
        encode_cluster(&self.next, &mut list);
        Ok(list)
    }

    /// The content digest that names this command.
    pub fn sha256_id(&self) -> (id: Result<[u8; 32]>)
        ensures
            id matches Ok(digest) && digest == digest::sha256(
                command_tag() + encoded_cluster(self.next@),
            ),
    {
        match self.canonical_bytes() {
            Ok(list) => Ok(digest::sha256_digest(list.as_slice())),
            Err(refusal) => Err(refusal),
        }
    }

    /// Binds a SHA-256-addressed command to the exact decision that committed
    /// it. This is the recommended network control-plane path.
    pub fn bind(self, anchor: Decision<[u8; 32]>) -> (change: Result<MembershipChange<[u8; 32]>>)
        ensures
            error::outcome(change) == bound_change(
                anchor@,
                self.next@,
                digest::sha256(command_tag() + encoded_cluster(self.next@)),
            ),
    {
        let command_id: [u8; 32] = match self.sha256_id() {
            Ok(id) => id,
            Err(refusal) => return Err(refusal),
        };
        MembershipChange::new(anchor, self.next, command_id)
    }
}

/// A membership transition anchored to a decision committed by the previous
/// configuration. The transition becomes active only after `anchor.slot` and
/// callers must drain all in-flight slots before installing it.
#[derive(Debug, PartialEq, Eq)]
pub struct MembershipChange<V> {
    pub anchor: Decision<V>,
    pub next: ClusterIdentity,
    /// The value in `anchor` whose content names `next`.
    pub command_id: V,
}

/// A membership transition with its parts as views.
#[verifier::ext_equal]
pub struct MembershipChangeView<V> {
    pub anchor: DecisionView<V>,
    pub next: ClusterView,
    pub command_id: V,
}

impl<V> View for MembershipChange<V> {
    type V = MembershipChangeView<V>;

    open spec fn view(&self) -> MembershipChangeView<V> {
        MembershipChangeView {
            anchor: self.anchor@,
            next: self.next@,
            command_id: self.command_id,
        }
    }
}

impl<V> MembershipChangeView<V> {
    /// The anchoring decision carries the command.
    pub open spec fn is_bound(self) -> bool {
        self.anchor.value_ids.contains(self.command_id)
    }
}

/// The refusal of a command that its anchor does not carry.
pub open spec fn unbound_command() -> ErrorView {
    ErrorView::InvalidReconfiguration("membership command ID is not present in its anchor decision"@)
}

/// A transition whose anchor carries the command, or its refusal.
pub open spec fn bound_change<V>(
    anchor: DecisionView<V>,
    next: ClusterView,
    command_id: V,
) -> std::result::Result<MembershipChangeView<V>, ErrorView> {
    let change = MembershipChangeView { anchor, next, command_id };
    if change.is_bound() {
        Ok(change)
    } else {
        Err(unbound_command())
    }
}

impl<V: Key> MembershipChange<V> {
    pub fn new(anchor: Decision<V>, next: ClusterIdentity, command_id: V) -> (change: Result<Self>)
        ensures
            error::outcome(change) == bound_change(anchor@, next@, command_id),
    {
        if !list_contains(anchor.value_ids.as_slice(), &command_id) {
            return Err(
                QuePaxaError::InvalidReconfiguration(
                    "membership command ID is not present in its anchor decision".to_owned(),
                ),
            );
        }
        Ok(MembershipChange { anchor, next, command_id })
    }

    /// Checks that the anchoring decision carries the command.
    pub fn validate_binding(&self) -> (result: Result<()>)
        ensures
            result is Ok <==> self@.is_bound(),
            result matches Err(refusal) ==> refusal@ == unbound_command(),
    {
        if list_contains(self.anchor.value_ids.as_slice(), &self.command_id) {
            Ok(())
        } else {
            Err(
                QuePaxaError::InvalidReconfiguration(
                    "membership command ID is not present in its anchor decision".to_owned(),
                ),
            )
        }
    }
}

impl<V: Key> Duplicate for MembershipChange<V> {
    fn duplicate_value(&self) -> (copy: Self) {
        MembershipChange {
            anchor: self.anchor.duplicate_value(),
            next: self.next.duplicate_value(),
            command_id: self.command_id.duplicate(),
        }
    }
}

impl<V: Key> Clone for MembershipChange<V> {
    fn clone(&self) -> (copy: Self)
        ensures
            copy@ == self@,
    {
        self.duplicate_value()
    }
}

/// A recorder's answer to a request.
#[derive(Debug, PartialEq, Eq)]
pub struct RecordReply<V> {
    pub recorder: ReplicaId,
    pub cluster: ClusterIdentity,
    pub summary: RecordSummary<V>,
    /// The recorder's retained decision for the requested slot, if any. A
    /// lagging proposer adopts it directly instead of re-running rounds.
    pub decision: Option<Decision<V>>,
}

/// A reply with its parts as views.
#[verifier::ext_equal]
pub struct RecordReplyView<V> {
    pub recorder: ReplicaId,
    pub cluster: ClusterView,
    pub summary: RecordSummaryView<V>,
    pub decision: Option<DecisionView<V>>,
}

impl<V> View for RecordReply<V> {
    type V = RecordReplyView<V>;

    open spec fn view(&self) -> RecordReplyView<V> {
        RecordReplyView {
            recorder: self.recorder,
            cluster: self.cluster@,
            summary: self.summary@,
            decision: crate::types::option_view(self.decision),
        }
    }
}

impl<V: Key> Duplicate for RecordReply<V> {
    fn duplicate_value(&self) -> (copy: Self) {
        RecordReply {
            recorder: self.recorder,
            cluster: self.cluster.duplicate_value(),
            summary: self.summary.duplicate_value(),
            decision: duplicate_option(&self.decision),
        }
    }
}

impl<V: Key> Clone for RecordReply<V> {
    fn clone(&self) -> (copy: Self)
        ensures
            copy@ == self@,
    {
        self.duplicate_value()
    }
}

} // verus!
