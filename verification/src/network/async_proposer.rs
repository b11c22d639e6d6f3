//! The proposer of a networked node, which always runs within one membership.

use crate::cluster::{ClusterIdentity, ClusterView};
use crate::collections::OrdSet;
use crate::error;
use crate::error::{ErrorView, QuePaxaError, Result};
use crate::key::Key;
use crate::proposer;
use crate::proposer::{PrioritySource, ProposalRun, RunView};
use crate::types;
use crate::types::{
    duplicate_keys, Decision, DecisionView, LaneId, RecordRequest, ReplicaId, SlotIndex,
};
use vstd::prelude::*;

verus! {

/// Why a networked proposer cannot run with these recorder clients.
pub open spec fn clients_error(
    ids: Seq<ReplicaId>,
    proposer: ReplicaId,
    cluster: ClusterView,
) -> Option<ErrorView> {
    if !cluster.members.contains(proposer) {
        Some(ErrorView::UnknownReplica(proposer))
    } else if !ids.no_duplicates() {
        Some(
            ErrorView::InvalidProposal("async recorder clients contain duplicate identities"@),
        )
    } else if ids.to_set() != cluster.members.to_set() {
        Some(ErrorView::ConfigurationMismatch)
    } else {
        None
    }
}

/// Checks that the clients are the cluster's members, each once, and that the
/// proposer is a member.
pub fn validate_clients(
    ids: &[ReplicaId],
    proposer: ReplicaId,
    cluster: &ClusterIdentity,
) -> (checked: Result<()>)
    ensures
        error::outcome(checked) == match clients_error(ids@, proposer, cluster@) {
            Some(refusal) => Err(refusal),
            None => Ok(()),
        },
{
    if !cluster.contains(proposer) {
        return Err(QuePaxaError::UnknownReplica(proposer));
    }
    let actual: OrdSet<ReplicaId> = OrdSet::from_slice(ids);
    let expected: OrdSet<ReplicaId> = OrdSet::from_slice(cluster.members());
    if !types::all_different(ids) {
        return Err(
            QuePaxaError::InvalidProposal(
                "async recorder clients contain duplicate identities".to_owned(),
            ),
        );
    }
    if !actual.same_elements(&expected) {
        return Err(QuePaxaError::ConfigurationMismatch);
    }
    Ok(())
}

/// What a networked proposer is configured with.
#[verifier::ext_equal]
pub struct AsyncProposerView {
    pub replica_id: ReplicaId,
    pub lane_id: LaneId,
    pub cluster: ClusterView,
    pub max_steps: u64,
}

impl AsyncProposerView {
    /// The start of a run, or why there is none.
    pub open spec fn begin<V>(
        self,
        slot: SlotIndex,
        values: Seq<V>,
        leader: Option<ReplicaId>,
        ids: Seq<ReplicaId>,
    ) -> std::result::Result<RunView<V>, ErrorView> {
        match clients_error(ids, self.replica_id, self.cluster) {
            Some(refusal) => Err(refusal),
            None => if leader is Some && !self.cluster.members.contains(leader->0) {
                Err(ErrorView::UnknownReplica(leader->0))
            } else if values.len() == 0 {
                Err(ErrorView::EmptyProposal)
            } else {
                Ok(
                    proposer::fresh_run(
                        slot,
                        self.replica_id,
                        self.lane_id,
                        leader,
                        ids,
                        self.cluster.quorum_size() as usize,
                        self.max_steps,
                        values,
                        Seq::empty(),
                    ),
                )
            },
        }
    }
}

/// A networked proposer role: a run begins with [`AsyncProposerCore::begin`] and
/// goes on as a [`ProposalRun`] whose replies come over the network.
#[derive(Debug)]
pub struct AsyncProposerCore<R> {
    replica_id: ReplicaId,
    lane_id: LaneId,
    rng: R,
    cluster: ClusterIdentity,
    max_steps: u64,
}

impl<R> View for AsyncProposerCore<R> {
    type V = AsyncProposerView;

    closed spec fn view(&self) -> AsyncProposerView {
        AsyncProposerView {
            replica_id: self.replica_id,
            lane_id: self.lane_id,
            cluster: self.cluster@,
            max_steps: self.max_steps,
        }
    }
}

impl<R> AsyncProposerCore<R> {
    /// Where the priorities come from.
    pub closed spec fn source(&self) -> R {
        self.rng
    }

    pub fn with_rng(
        replica_id: ReplicaId,
        lane_id: LaneId,
        cluster: ClusterIdentity,
        rng: R,
    ) -> (proposer: Self)
        ensures
            proposer.source() == rng,
            proposer@ == (AsyncProposerView {
                replica_id,
                lane_id,
                cluster: cluster@,
                max_steps: 1027,
            }),
    {
        AsyncProposerCore { replica_id, lane_id, rng, cluster, max_steps: 1027 }
    }

    pub fn with_max_steps(self, max_steps: u64) -> (changed: Self)
        ensures
            changed.source() == self.source(),
            changed@ == (AsyncProposerView { max_steps, ..self@ }),
    {
        AsyncProposerCore {
            replica_id: self.replica_id,
            lane_id: self.lane_id,
            rng: self.rng,
            cluster: self.cluster,
            max_steps,
        }
    }

    /// Begins consensus on one slot over the clients of these recorders.
    pub fn begin<V: Key>(
        &self,
        slot: SlotIndex,
        value_ids: Vec<V>,
        leader: Option<ReplicaId>,
        recorders: &[ReplicaId],
    ) -> (run: Result<ProposalRun<V>>)
        ensures
            error::outcome(run) == self@.begin(slot, value_ids@, leader, recorders@),
    {
        match validate_clients(recorders, self.replica_id, &self.cluster) {
            Err(refusal) => return Err(refusal),
            Ok(()) => {},
        }
        match leader {
            Some(leader) => {
                if !self.cluster.contains(leader) {
                    return Err(QuePaxaError::UnknownReplica(leader));
                }
            },
            None => {},
        }
        let known: Vec<Decision<V>> = Vec::new();
        assert(types::list_view(known@) =~= Seq::<DecisionView<V>>::empty());
        ProposalRun::start(
            slot,
            self.replica_id,
            self.lane_id,
            leader,
            duplicate_keys(recorders),
            self.cluster.quorum_size(),
            self.max_steps,
            value_ids,
            known,
        )
    }
}

impl<R: PrioritySource> AsyncProposerCore<R> {
    /// The requests of the run's current step, one for each recorder in order.
    pub fn requests<V: Key>(&mut self, run: &ProposalRun<V>) -> (requests: Result<
        Vec<RecordRequest<V>>,
    >)
        ensures
            final(self)@ == old(self)@,
            proposer::made_for(run@, old(self).source(), requests, final(self).source()),
    {
        run.requests_with(&mut self.rng)
    }
}

} // verus!
