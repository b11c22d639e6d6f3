//! Laws of memberships: what they are made of, who can decide in them, and how
//! one follows another.

use crate::cluster;
use crate::cluster::ClusterView;
use crate::collections;
use crate::key::Key;
use crate::types::ReplicaId;
use vstd::prelude::*;

verus! {

/// Whether a list has the voters of another, each once, from the lowest identity
/// to the highest.
pub open spec fn lists_voters(list: Seq<ReplicaId>, voters: Set<ReplicaId>) -> bool {
    &&& forall|i: int, j: int|
        0 <= i < j < list.len() ==> (#[trigger] list[i]).0 < (#[trigger] list[j]).0
    &&& forall|id: ReplicaId| #[trigger] list.contains(id) <==> voters.contains(id)
}

proof fn lemma_lists_voters(voters: Set<ReplicaId>)
    requires
        voters.finite(),
    ensures
        lists_voters(collections::in_order(voters), voters),
        collections::in_order(voters).len() == voters.len(),
{
    let list = collections::in_order(voters);
    collections::lemma_in_order_exists(voters);
    assert forall|i: int, j: int| 0 <= i < j < list.len() implies (#[trigger] list[i]).0 < (
    #[trigger] list[j]).0 by {
        assert(list[i].rank() < list[j].rank());
    }
}

/// A stable membership can be made of voters exactly where there are some, none
/// repeats, and there are more than twice as many as faults. It has those voters
/// in order.
pub proof fn memberships_have_their_voters(epoch: u64, members: Seq<ReplicaId>, max_faults: usize)
    requires
        members.len() <= usize::MAX,
    ensures
        match cluster::stable_cluster(epoch, members, max_faults) {
            Ok(made) => {
                &&& members.len() > 0 && members.no_duplicates() && members.len() > 2 * max_faults
                &&& lists_voters(made.members, members.to_set())
                &&& made.members.len() == members.len()
                &&& made.epoch == epoch
                &&& made.max_faults == max_faults
                &&& made.joint is None
            },
            Err(_) => members.len() == 0 || !members.no_duplicates() || members.len() <= 2
                * max_faults,
        },
{
    lemma_lists_voters(members.to_set());
    if members.no_duplicates() {
        members.unique_seq_to_set();
    }
}

/// A joint membership begins only from a stable one, with the voters of both in
/// order; it remembers the old voters and their faults, and the new ones. It ends
/// in the new voters with theirs. Each takes the next epoch.
pub proof fn changes_pass_through_both(
    stable: ClusterView,
    new_members: Seq<ReplicaId>,
    new_max_faults: usize,
)
    requires
        stable.valid(),
        new_members.len() <= usize::MAX,
    ensures
        match cluster::joint_cluster(stable, new_members, new_max_faults) {
            Ok(joint) => {
                &&& stable.joint is None && stable.epoch < u64::MAX
                &&& new_members.len() > 0 && new_members.no_duplicates() && new_members.len() > 2
                    * new_max_faults
                &&& lists_voters(
                    joint.members,
                    stable.members.to_set().union(new_members.to_set()),
                )
                &&& joint.epoch == stable.epoch + 1
                &&& joint.max_faults == new_max_faults
                &&& joint.joint matches Some(sets) && {
                    &&& sets.old_members == stable.members
                    &&& sets.old_max_faults == stable.max_faults
                    &&& lists_voters(sets.new_members, new_members.to_set())
                }
                &&& match cluster::finalized_cluster(joint) {
                    Ok(made) => {
                        &&& lists_voters(made.members, new_members.to_set())
                        &&& made.max_faults == new_max_faults
                        &&& made.epoch == stable.epoch + 2
                        &&& made.joint is None
                    },
                    Err(_) => joint.epoch == u64::MAX,
                }
            },
            Err(_) => {
                ||| stable.joint is Some
                ||| stable.epoch == u64::MAX
                ||| new_members.len() == 0
                ||| !new_members.no_duplicates()
                ||| new_members.len() <= 2 * new_max_faults
            },
        },
        stable.joint is None ==> cluster::finalized_cluster(stable) is Err,
{
    lemma_lists_voters(new_members.to_set());
    collections::lemma_in_order_exists(new_members.to_set());
    lemma_lists_voters(stable.members.to_set().union(new_members.to_set()));
    if new_members.no_duplicates() {
        new_members.unique_seq_to_set();
    }
}

/// Who can decide. In a stable membership: members alone, all but as many as may
/// fail. In a joint one: so many of the old voters and so many of the new ones.
pub proof fn quorums_leave_out_the_faulty(membership: ClusterView, voters: Set<ReplicaId>)
    requires
        membership.valid(),
        voters.finite(),
    ensures
        match membership.joint {
            None => membership.has_quorum(voters) <==> voters.len() + membership.max_faults
                >= membership.members.len() && (forall|id: ReplicaId| #[trigger]
                voters.contains(id) ==> membership.members.contains(id)),
            Some(sets) => membership.has_quorum(voters) <==> voters.intersect(
                sets.old_members.to_set(),
            ).len() + sets.old_max_faults >= sets.old_members.len() && voters.intersect(
                sets.new_members.to_set(),
            ).len() + membership.max_faults >= sets.new_members.len(),
        },
{
    match membership.joint {
        None => {
            assert(voters.subset_of(membership.members.to_set()) <==> forall|id: ReplicaId|
                #[trigger]
                voters.contains(id) ==> membership.members.contains(id));
        },
        Some(sets) => {
            assert(sets.old_members.to_set().intersect(voters) =~= voters.intersect(
                sets.old_members.to_set(),
            ));
            assert(sets.new_members.to_set().intersect(voters) =~= voters.intersect(
                sets.new_members.to_set(),
            ));
        },
    }
}

/// A membership follows another exactly where it comes in the next epoch and
/// either joins the other's voters, as they stood, with new ones, or is what the
/// other was to end in. Nothing follows without passing through both.
pub proof fn memberships_follow_in_turn(next: ClusterView, now: ClusterView)
    ensures
        next.follows(now) <==> {
            &&& next.epoch == now.epoch + 1
            &&& next.joint is Some <==> now.joint is None
            &&& next.joint matches Some(sets) ==> sets.old_members == now.members
                && sets.old_max_faults == now.max_faults
            &&& now.joint matches Some(sets) ==> next.members == sets.new_members
                && next.max_faults == now.max_faults
        },
{
}

} // verus!
