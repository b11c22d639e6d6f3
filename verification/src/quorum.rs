//! Gathering a quorum of replies to one round of requests.

use crate::cluster::{ClusterIdentity, ClusterView, RecordReply, RecordReplyView};
use crate::error;
use crate::error::{ErrorView, QuePaxaError, Result};
use crate::types;
use crate::types::{list_contains, ReplicaId};
use vstd::prelude::*;

verus! {

/// The recorders that sent replies, in order.
pub open spec fn senders<V>(replies: Seq<RecordReplyView<V>>) -> Seq<ReplicaId> {
    replies.map_values(|reply: RecordReplyView<V>| reply.recorder)
}

/// Whether an error must stop the proposer: a conflicting decision is a safety
/// alarm, a pruned slot needs state transfer, and a foreign schedule or
/// configuration cannot be retried around. Any other failure of one recorder is
/// tolerated while the rest can form a quorum.
pub open spec fn is_fatal(refusal: ErrorView) -> bool {
    refusal is ConflictingDecision || refusal is SlotPruned || refusal is ScheduleMismatch
        || refusal is ConfigurationMismatch
}

/// Replies gathered so far.
#[verifier::ext_equal]
pub struct CollectorView<V> {
    pub needed: usize,
    pub cluster: Option<ClusterView>,
    /// How many results are still to come.
    pub pending: usize,
    pub replies: Seq<RecordReplyView<V>>,
}

impl<V> CollectorView<V> {
    /// Whether the replies are a quorum.
    pub open spec fn complete(self) -> bool {
        match self.cluster {
            Some(cluster) => cluster.has_quorum(senders(self.replies).to_set()),
            None => self.replies.len() >= self.needed,
        }
    }

    /// The error for too few replies.
    pub open spec fn shortage(self) -> ErrorView {
        ErrorView::QuorumNotReached { needed: self.needed, received: self.replies.len() as usize }
    }

    /// The error for replies that are no quorum with nothing left to come.
    pub open spec fn exhausted(self) -> ErrorView {
        ErrorView::TransportError("all recorder workers exited before replying"@)
    }

    /// Why a reply from a recorder is refused.
    pub open spec fn reply_error(
        self,
        expected: ReplicaId,
        reply: RecordReplyView<V>,
    ) -> Option<ErrorView> {
        if reply.recorder != expected {
            Some(ErrorView::InvalidRecorderReply { expected, received: reply.recorder })
        } else if self.cluster is Some && reply.cluster != self.cluster->0 {
            Some(ErrorView::ConfigurationMismatch)
        } else if senders(self.replies).contains(reply.recorder) {
            Some(ErrorView::DuplicateRecorderReply(reply.recorder))
        } else {
            None
        }
    }

    /// One result less to come.
    pub open spec fn counted(self) -> Self {
        CollectorView {
            pending: if self.pending > 0 {
                (self.pending - 1) as usize
            } else {
                0
            },
            ..self
        }
    }

    /// Takes in one recorder's result.
    pub open spec fn receive(
        self,
        expected: ReplicaId,
        result: std::result::Result<RecordReplyView<V>, ErrorView>,
    ) -> (Self, std::result::Result<(), ErrorView>) {
        let counted = self.counted();
        match result {
            Ok(reply) => match self.reply_error(expected, reply) {
                Some(refusal) => (counted, Err(refusal)),
                None => (
                    CollectorView { replies: self.replies.push(reply), ..counted },
                    Ok(()),
                ),
            },
            Err(refusal) => if is_fatal(refusal) {
                (counted, Err(refusal))
            } else if counted.replies.len() + counted.pending < counted.needed {
                (counted, Err(counted.shortage()))
            } else {
                (counted, Ok(()))
            },
        }
    }
}

/// Gathers the results of one round of requests until they are a quorum.
#[derive(Debug)]
pub struct QuorumCollector<V> {
    needed: usize,
    cluster: Option<ClusterIdentity>,
    pending: usize,
    replies: Vec<RecordReply<V>>,
}

impl<V> View for QuorumCollector<V> {
    type V = CollectorView<V>;

    closed spec fn view(&self) -> CollectorView<V> {
        CollectorView {
            needed: self.needed,
            cluster: types::option_view(self.cluster),
            pending: self.pending,
            replies: types::list_view(self.replies@),
        }
    }
}

impl<V> QuorumCollector<V> {
    /// Starts with as many results to come as requests were sent.
    pub fn new(
        launched: usize,
        needed: usize,
        cluster: Option<ClusterIdentity>,
    ) -> (collector: Result<Self>)
        ensures
            error::outcome(collector) == if launched < needed {
                Err(ErrorView::QuorumNotReached { needed, received: launched })
            } else {
                Ok(
                    CollectorView {
                        needed,
                        cluster: types::option_view(cluster),
                        pending: launched,
                        replies: Seq::<RecordReplyView<V>>::empty(),
                    },
                )
            },
    {
        if launched < needed {
            return Err(QuePaxaError::QuorumNotReached { needed, received: launched });
        }
        let collector = QuorumCollector { needed, cluster, pending: launched, replies: Vec::new() };
        assert(collector@.replies =~= Seq::empty());
        Ok(collector)
    }

    /// The replies' senders, in order.
    fn reply_senders(&self) -> (ids: Vec<ReplicaId>)
        ensures
            ids@ == senders(self@.replies),
    {
        let mut ids: Vec<ReplicaId> = Vec::new();
        let mut i: usize = 0;
        while i < self.replies.len()
            invariant
                i <= self.replies@.len(),
                ids@ =~= senders(self@.replies).take(i as int),
            decreases self.replies@.len() - i,
        {
            ids.push(self.replies[i].recorder);
            i += 1;
        }
        assert(senders(self@.replies).take(i as int) =~= senders(self@.replies));
        ids
    }

    /// Whether the replies are a quorum: of the expected membership, or of the
    /// needed size where no membership is expected.
    pub fn is_complete(&self) -> (complete: bool)
        ensures
            complete == self@.complete(),
    {
        match &self.cluster {
            Some(cluster) => {
                let ids: Vec<ReplicaId> = self.reply_senders();
                cluster.has_quorum(ids.as_slice())
            },
            None => self.replies.len() >= self.needed,
        }
    }

    /// How many results are still to come.
    pub fn pending(&self) -> (pending: usize)
        ensures
            pending == self@.pending,
    {
        self.pending
    }

    /// The error for replies that are no quorum with nothing left to come, as
    /// where every free endpoint of a joint epoch has answered but one of the
    /// two memberships lacks its quorum.
    pub fn exhausted(&self) -> (refusal: QuePaxaError)
        ensures
            refusal@ == self@.exhausted(),
    {
        QuePaxaError::TransportError("all recorder workers exited before replying".to_string())
    }

    /// The error for too few replies, when time is up.
    pub fn shortage(&self) -> (refusal: QuePaxaError)
        ensures
            refusal@ == self@.shortage(),
    {
        QuePaxaError::QuorumNotReached { needed: self.needed, received: self.replies.len() }
    }

    /// Takes in the result of the request that went to a recorder.
    pub fn receive(&mut self, expected: ReplicaId, result: Result<RecordReply<V>>) -> (accepted:
        Result<()>)
        ensures
            (final(self)@, error::outcome(accepted)) == old(self)@.receive(
                expected,
                error::outcome(result),
            ),
    {
        let ids: Vec<ReplicaId> = self.reply_senders();
        if self.pending > 0 {
            self.pending -= 1;
        }
        match result {
            Ok(reply) => {
                if reply.recorder != expected {
                    return Err(
                        QuePaxaError::InvalidRecorderReply { expected, received: reply.recorder },
                    );
                }
                let foreign = match &self.cluster {
                    Some(cluster) => !reply.cluster.same_cluster(cluster),
                    None => false,
                };
                if foreign {
                    return Err(QuePaxaError::ConfigurationMismatch);
                }
                if list_contains(ids.as_slice(), &reply.recorder) {
                    return Err(QuePaxaError::DuplicateRecorderReply(reply.recorder));
                }
                let ghost before = self.replies@;
                self.replies.push(reply);
                assert(types::list_view(self.replies@) =~= types::list_view(before).push(reply@));
                Ok(())
            },
            Err(refusal) => {
                let fatal = match &refusal {
                    QuePaxaError::ConflictingDecision { slot: _ } => true,
                    QuePaxaError::SlotPruned { slot: _ } => true,
                    QuePaxaError::ScheduleMismatch { slot: _ } => true,
                    QuePaxaError::ConfigurationMismatch => true,
                    _ => false,
                };
                if fatal {
                    return Err(refusal);
                }
                if self.replies.len() < self.needed && self.pending < self.needed
                    - self.replies.len() {
                    return Err(self.shortage());
                }
                Ok(())
            },
        }
    }

    /// The gathered replies, in the order in which they came.
    pub fn into_replies(self) -> (replies: Vec<RecordReply<V>>)
        ensures
            types::list_view(replies@) == self@.replies,
    {
        self.replies
    }
}

/// A collector that starts with enough results to come never waits in vain:
/// while no result was refused, what has come and what is still to come can
/// make the needed number.
pub proof fn enough_results_remain<V>(
    collector: CollectorView<V>,
    expected: ReplicaId,
    result: std::result::Result<RecordReplyView<V>, ErrorView>,
)
    requires
        collector.pending > 0,
        collector.replies.len() + collector.pending >= collector.needed,
        collector.receive(expected, result).1 is Ok,
    ensures
        ({
            let next = collector.receive(expected, result).0;
            &&& next.replies.len() + next.pending >= next.needed
            &&& next.pending < collector.pending
        }),
{
}

/// No recorder is counted twice, and every reply is of the expected membership.
pub proof fn replies_stay_distinct<V>(
    collector: CollectorView<V>,
    expected: ReplicaId,
    result: std::result::Result<RecordReplyView<V>, ErrorView>,
)
    requires
        senders(collector.replies).no_duplicates(),
        forall|i: int|
            0 <= i < collector.replies.len() && collector.cluster is Some ==> (
            #[trigger] collector.replies[i]).cluster == collector.cluster->0,
    ensures
        ({
            let next = collector.receive(expected, result).0;
            &&& senders(next.replies).no_duplicates()
            &&& forall|i: int|
                0 <= i < next.replies.len() && next.cluster is Some ==> (
                #[trigger] next.replies[i]).cluster == next.cluster->0
        }),
{
    let next = collector.receive(expected, result).0;
    if result is Ok && next.replies.len() > collector.replies.len() {
        let reply = result->Ok_0;
        let before = senders(collector.replies);
        assert(senders(next.replies) =~= before.push(reply.recorder));
        assert(!before.contains(reply.recorder));
        assert forall|i: int, j: int|
            0 <= i < j < senders(next.replies).len() implies #[trigger] senders(next.replies)[i]
            != #[trigger] senders(next.replies)[j] by {
            if j == before.len() {
                assert(before[i] == senders(next.replies)[i]);
            } else {
                assert(before[i] != before[j]);
            }
        }
    }
}

} // verus!
