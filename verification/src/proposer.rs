//! The proposer: drives one slot through rounds of four phases until a quorum
//! of recorders settles a value.

use crate::cluster::{
    ClusterIdentity, ClusterView, MembershipChange, MembershipChangeView, RecordReply,
    RecordReplyView,
};
use crate::collections;
use crate::collections::OrdSet;
use crate::error;
use crate::error::{ErrorView, QuePaxaError, Result};
use crate::key::{Duplicate, Key};
use crate::span::Span;
use crate::text;
use crate::text::push_decimal;
use crate::types;
use crate::types::{
    duplicate_keys, duplicate_list, duplicate_option, list_contains, max_proposal_by_key, Decision, DecisionView,
    LaneId, Priority, Proposal, ProposalKey, ProposalView, RecordRequest, RecordRequestView,
    ReplicaId, SlotIndex, Step, ROUND_ONE_PHASE_ZERO,
};
use vstd::prelude::*;
use vstd::string::StringExecFns;

verus! {

/// A transport endpoint for one authenticated recorder.
///
/// Implementations must bind the endpoint to one configured recorder identity
/// (for example with mTLS) and must not accept requests from untrusted peers.
pub trait RecorderClient<V> {
    /// Whether a record call may go like this: from here, with this reply, to
    /// `after`. An endpoint that does not say leaves every call open.
    open spec fn records(
        &self,
        request: RecordRequestView<V>,
        reply: std::result::Result<RecordReplyView<V>, ErrorView>,
        after: &Self,
    ) -> bool {
        true
    }

    /// Whether telling of decisions may go like this.
    open spec fn informs(
        &self,
        decisions: Seq<DecisionView<V>>,
        told: std::result::Result<(), ErrorView>,
        after: &Self,
    ) -> bool {
        true
    }

    /// Whether a status probe may go like this.
    open spec fn reports(
        &self,
        slot: SlotIndex,
        step: std::result::Result<Option<Step>, ErrorView>,
        after: &Self,
    ) -> bool {
        true
    }

    /// Whether installing a membership may go like this.
    open spec fn installs(
        &self,
        change: MembershipChangeView<V>,
        installed: std::result::Result<(), ErrorView>,
        after: &Self,
    ) -> bool {
        true
    }

    fn record(&mut self, request: RecordRequest<V>) -> (reply: Result<RecordReply<V>>)
        ensures
            old(self).records(request@, error::outcome(reply), final(self)),
    ;

    fn inform_decisions(&mut self, decisions: &[Decision<V>]) -> (told: Result<()>)
        ensures
            old(self).informs(types::list_view(decisions@), error::outcome(told), final(self)),
    ;

    /// Read-only probe reporting the recorder's current logical step for a
    /// slot. Hedged proposers use it as evidence that an earlier proposer is
    /// still driving the slot. `Ok(None)` means the endpoint cannot tell, in
    /// which case hedging falls back to activating on schedule.
    fn status(&mut self, slot: SlotIndex) -> (step: Result<Option<Step>>)
        ensures
            old(self).reports(slot, step_outcome(step), final(self)),
    ;

    /// Installs a consensus-anchored membership transition. Implementations
    /// must persist the new epoch before acknowledging it; one whose membership
    /// stays as it is answers with [`membership_stays`].
    fn install_membership(&mut self, change: MembershipChange<V>) -> (installed: Result<()>)
        ensures
            old(self).installs(change@, error::outcome(installed), final(self)),
    ;
}

/// What a probe's result stands for.
pub open spec fn step_outcome(step: Result<Option<Step>>) -> std::result::Result<
    Option<Step>,
    ErrorView,
> {
    match step {
        Ok(step) => Ok(step),
        Err(refusal) => Err(refusal@),
    }
}

/// The refusal of an endpoint whose membership stays as it is.
pub open spec fn fixed_membership() -> ErrorView {
    ErrorView::InvalidReconfiguration("recorder client does not support membership changes"@)
}

/// The refusal of an endpoint whose membership stays as it is.
pub fn membership_stays() -> (refusal: QuePaxaError)
    ensures
        refusal@ == fixed_membership(),
{
    QuePaxaError::InvalidReconfiguration(
        "recorder client does not support membership changes".to_owned(),
    )
}

/// Samples a private phase-zero priority below the reserved leader priority.
pub trait PrioritySource {
    /// Whether a draw may go like this: from here, with this priority, to
    /// `after`. A source that does not say leaves every draw open.
    open spec fn draws(
        &self,
        bound: Priority,
        drawn: std::result::Result<Priority, ErrorView>,
        after: &Self,
    ) -> bool {
        true
    }

    fn next_below(&mut self, exclusive_upper_bound: Priority) -> (drawn: Result<Priority>)
        ensures
            old(self).draws(exclusive_upper_bound, error::outcome(drawn), final(self)),
    ;
}

/// The refusal of a range without a priority between zero and the bound.
pub open spec fn empty_priority_range() -> ErrorView {
    ErrorView::InvalidProposal("priority range must reserve zero and the leader priority"@)
}

/// Maps a random number to a priority between one and the bound, or to nothing
/// where keeping it would favour some priorities.
pub open spec fn unbiased(upper: u64, value: u64) -> Option<Priority> {
    let range = (upper - 1) as u64;
    let cutoff = u64::MAX - u64::MAX % range;
    if value < cutoff {
        Some(Priority((value % range + 1) as u64))
    } else {
        None
    }
}

/// Maps a random number to a priority below the bound. `Ok(None)` rejects the
/// number: draw another, so that every priority stays equally likely.
pub fn sample_below(exclusive_upper_bound: Priority, value: u64) -> (sampled: Result<
    Option<Priority>,
>)
    ensures
        exclusive_upper_bound.0 <= 1 ==> (sampled matches Err(refusal) && refusal@
            == empty_priority_range()),
        exclusive_upper_bound.0 > 1 ==> sampled == Ok::<Option<Priority>, QuePaxaError>(
            unbiased(exclusive_upper_bound.0, value),
        ),
        sampled matches Ok(Some(priority)) ==> 0 < priority.0 < exclusive_upper_bound.0,
{
    let upper: u64 = exclusive_upper_bound.0;
    if upper <= 1 {
        return Err(
            QuePaxaError::InvalidProposal(
                "priority range must reserve zero and the leader priority".to_owned(),
            ),
        );
    }
    let range: u64 = upper - 1;
    let cutoff: u64 = u64::MAX - u64::MAX % range;
    if value < cutoff {
        Ok(Some(Priority(value % range + 1)))
    } else {
        Ok(None)
    }
}

/// The share of random numbers that each priority receives: `sample_below`
/// keeps as many for one priority as for any other.
pub proof fn sampling_is_unbiased(upper: u64, a: int, b: int)
    requires
        upper > 1,
        1 <= a < upper,
        1 <= b < upper,
    ensures
        forall|k: int|
            0 <= k < u64::MAX as int / (upper - 1) ==> {
                let range = upper - 1;
                &&& unbiased(upper, #[trigger] nth_draw(upper, a, k)) == Some(Priority(a as u64))
                &&& unbiased(upper, nth_draw(upper, b, k)) == Some(Priority(b as u64))
            },
{
    let range: int = upper - 1;
    assert forall|k: int| 0 <= k < u64::MAX as int / range implies {
        &&& unbiased(upper, #[trigger] nth_draw(upper, a, k)) == Some(Priority(a as u64))
        &&& unbiased(upper, nth_draw(upper, b, k)) == Some(Priority(b as u64))
    } by {
        lemma_nth_draw(upper, a, k);
        lemma_nth_draw(upper, b, k);
    }
}

/// The `k`-th number that maps to a priority.
pub open spec fn nth_draw(upper: u64, priority: int, k: int) -> u64 {
    (k * (upper - 1) + (priority - 1)) as u64
}

proof fn lemma_nth_draw(upper: u64, a: int, k: int)
    requires
        upper > 1,
        1 <= a < upper,
        0 <= k < u64::MAX as int / (upper - 1),
    ensures
        unbiased(upper, nth_draw(upper, a, k)) == Some(Priority(a as u64)),
{
    let range: int = upper - 1;
    let value: int = k * range + (a - 1);
    let whole: int = u64::MAX as int / range;
    assert(u64::MAX as int == whole * range + u64::MAX as int % range) by (nonlinear_arith)
        requires
            range > 0,
            whole == u64::MAX as int / range,
    ;
    assert(value < whole * range && 0 <= value) by (nonlinear_arith)
        requires
            0 <= k < whole,
            1 <= a <= range,
            value == k * range + (a - 1),
    ;
    assert(value % range == a - 1) by (nonlinear_arith)
        requires
            range > 0,
            0 <= a - 1 < range,
            value == k * range + (a - 1),
    ;
}

/// Deterministic priority source intended only for reproducible tests.
#[derive(Debug)]
pub struct XorShift64 {
    state: u64,
}

/// One step of the generator.
pub open spec fn xorshift(x: u64) -> u64 {
    let a = x ^ (x << 13);
    let b = a ^ (a >> 7);
    b ^ (b << 17)
}

/// Spreads a seed over all bits.
pub open spec fn mixed(value: u64) -> u64 {
    let a = (value ^ (value >> 30)).wrapping_mul(0xbf58_476d_1ce4_e5b9);
    let b = (a ^ (a >> 27)).wrapping_mul(0x94d0_49bb_1331_11eb);
    b ^ (b >> 31)
}

/// Spreads a seed over all bits.
pub fn mix_seed(value: u64) -> (spread: u64)
    ensures
        spread == mixed(value),
{
    let a: u64 = (value ^ (value >> 30)).wrapping_mul(0xbf58_476d_1ce4_e5b9);
    let b: u64 = (a ^ (a >> 27)).wrapping_mul(0x94d0_49bb_1331_11eb);
    b ^ (b >> 31)
}

/// A state that is never zero.
pub open spec fn seeded(seed: u64) -> u64 {
    if seed == 0 {
        1
    } else {
        seed
    }
}

impl XorShift64 {
    /// The generator's state.
    pub closed spec fn current(&self) -> u64 {
        self.state
    }

    pub fn new(seed: u64) -> (source: Self)
        ensures
            source.current() == seeded(seed),
    {
        XorShift64 { state: if seed == 0 { 1 } else { seed } }
    }

    /// A source whose stream depends on the seed, the replica and the lane.
    pub fn new_for_stream(seed: u64, replica_id: ReplicaId, lane_id: LaneId) -> (source: Self)
        ensures
            source.current() == seeded(
                mixed(
                    seed ^ replica_id.0.wrapping_mul(0x9e37_79b9_7f4a_7c15)
                        ^ lane_id.0.wrapping_mul(0xbf58_476d_1ce4_e5b9),
                ),
            ),
    {
        let stream: u64 = seed ^ replica_id.0.wrapping_mul(0x9e37_79b9_7f4a_7c15)
            ^ lane_id.0.wrapping_mul(0xbf58_476d_1ce4_e5b9);
        Self::new(mix_seed(stream))
    }
}

impl PrioritySource for XorShift64 {
    open spec fn draws(
        &self,
        bound: Priority,
        drawn: std::result::Result<Priority, ErrorView>,
        after: &Self,
    ) -> bool {
        if bound.0 <= 1 {
            *after == *self && drawn == Err::<Priority, ErrorView>(empty_priority_range())
        } else {
            &&& after.current() == xorshift(self.current())
            &&& drawn == Ok::<Priority, ErrorView>(
                Priority((after.current() % ((bound.0 - 1) as u64) + 1) as u64),
            )
            &&& 0 < drawn->Ok_0.0 < bound.0
        }
    }

    fn next_below(&mut self, exclusive_upper_bound: Priority) -> (drawn: Result<Priority>) {
        let upper: u64 = exclusive_upper_bound.0;
        if upper <= 1 {
            return Err(
                QuePaxaError::InvalidProposal(
                    "priority range must reserve zero and the leader priority".to_owned(),
                ),
            );
        }
        let x: u64 = self.state;
        let a: u64 = x ^ (x << 13);
        let b: u64 = a ^ (a >> 7);
        let c: u64 = b ^ (b << 17);
        self.state = c;
        Ok(Priority(c % (upper - 1) + 1))
    }
}

/// An identity-bound recorder endpoint. At most one outstanding RPC is allowed
/// per endpoint so an unresponsive peer cannot create unbounded work.
#[derive(Debug)]
pub struct RecorderHandle<C> {
    id: ReplicaId,
    client: C,
    in_flight: bool,
}

impl<C> RecorderHandle<C> {
    /// The recorder that the endpoint is bound to.
    pub closed spec fn identity(&self) -> ReplicaId {
        self.id
    }

    /// The client behind the endpoint.
    pub closed spec fn endpoint(&self) -> C {
        self.client
    }

    /// Whether an RPC is outstanding.
    pub closed spec fn busy(&self) -> bool {
        self.in_flight
    }

    pub fn new(id: ReplicaId, client: C) -> (handle: Self)
        ensures
            handle.identity() == id,
            handle.endpoint() == client,
            !handle.busy(),
    {
        RecorderHandle { id, client, in_flight: false }
    }

    pub fn id(&self) -> (id: ReplicaId)
        ensures
            id == self.identity(),
    {
        self.id
    }

    /// Gives access to the client.
    pub fn with_client(&mut self) -> (client: &mut C)
        ensures
            *client == old(self).endpoint(),
            final(self).endpoint() == *final(client),
            final(self).identity() == old(self).identity(),
            final(self).busy() == old(self).busy(),
    {
        &mut self.client
    }

    /// Reports whether no RPC is currently outstanding on this endpoint. Used
    /// to skip busy endpoints for optional read-only probes.
    pub fn is_idle(&self) -> (idle: bool)
        ensures
            idle == !self.busy(),
    {
        !self.in_flight
    }

    /// Claims the endpoint for one RPC; says whether it was free.
    pub fn try_begin(&mut self) -> (claimed: bool)
        ensures
            claimed == !old(self).busy(),
            final(self).busy(),
            final(self).identity() == old(self).identity(),
            final(self).endpoint() == old(self).endpoint(),
    {
        if self.in_flight {
            return false;
        }
        self.in_flight = true;
        true
    }

    /// Frees the endpoint.
    pub fn release(&mut self)
        ensures
            !final(self).busy(),
            final(self).identity() == old(self).identity(),
            final(self).endpoint() == old(self).endpoint(),
    {
        self.in_flight = false;
    }

    /// The refusal of a call on a busy endpoint.
    fn busy_error(&self) -> (refusal: QuePaxaError)
        ensures
            refusal@ == busy_endpoint(self.identity()),
    {
        let mut message: String = "recorder ".to_owned();
        push_decimal(&mut message, self.id.0);
        message.append(" already has an RPC in flight");
        QuePaxaError::TransportError(message)
    }

    /// Sends a request, if the endpoint is free.
    pub fn call_record<V>(&mut self, request: RecordRequest<V>) -> (reply: Result<RecordReply<V>>)
        where C: RecorderClient<V>
        ensures
            final(self).identity() == old(self).identity(),
            final(self).busy() == old(self).busy(),
            if old(self).busy() {
                &&& *final(self) == *old(self)
                &&& reply matches Err(refusal) && refusal@ == busy_endpoint(old(self).identity())
            } else {
                old(self).endpoint().records(
                    request@,
                    error::outcome(reply),
                    &final(self).endpoint(),
                )
            },
    {
        if self.in_flight {
            return Err(self.busy_error());
        }
        self.client.record(request)
    }

    /// Tells of decisions, if the endpoint is free.
    pub fn call_inform<V>(&mut self, decisions: &[Decision<V>]) -> (told: Result<()>)
        where C: RecorderClient<V>
        ensures
            final(self).identity() == old(self).identity(),
            final(self).busy() == old(self).busy(),
            if old(self).busy() {
                &&& *final(self) == *old(self)
                &&& told matches Err(refusal) && refusal@ == busy_endpoint(old(self).identity())
            } else {
                old(self).endpoint().informs(
                    types::list_view(decisions@),
                    error::outcome(told),
                    &final(self).endpoint(),
                )
            },
    {
        if self.in_flight {
            return Err(self.busy_error());
        }
        self.client.inform_decisions(decisions)
    }

    /// Asks for a slot's step, if the endpoint is free.
    pub fn call_status<V>(&mut self, slot: SlotIndex) -> (step: Result<Option<Step>>)
        where C: RecorderClient<V>
        ensures
            final(self).identity() == old(self).identity(),
            final(self).busy() == old(self).busy(),
            if old(self).busy() {
                &&& *final(self) == *old(self)
                &&& step matches Err(refusal) && refusal@ == busy_endpoint(old(self).identity())
            } else {
                old(self).endpoint().reports(slot, step_outcome(step), &final(self).endpoint())
            },
    {
        if self.in_flight {
            return Err(self.busy_error());
        }
        self.client.status(slot)
    }

    /// Hands a membership change on, if the endpoint is free.
    pub fn call_install<V>(&mut self, change: MembershipChange<V>) -> (installed: Result<()>)
        where C: RecorderClient<V>
        ensures
            final(self).identity() == old(self).identity(),
            final(self).busy() == old(self).busy(),
            if old(self).busy() {
                &&& *final(self) == *old(self)
                &&& installed matches Err(refusal) && refusal@ == busy_endpoint(old(self).identity())
            } else {
                old(self).endpoint().installs(
                    change@,
                    error::outcome(installed),
                    &final(self).endpoint(),
                )
            },
    {
        if self.in_flight {
            return Err(self.busy_error());
        }
        self.client.install_membership(change)
    }
}

/// The refusal of a call on a busy endpoint.
pub open spec fn busy_endpoint(id: ReplicaId) -> ErrorView {
    ErrorView::TransportError(
        "recorder "@ + text::decimal(id.0 as nat) + " already has an RPC in flight"@,
    )
}

/// How a proposer runs.
#[derive(Debug)]
pub struct ProposerConfig {
    /// A bounded deployment policy, not a consensus timeout. The default is
    /// 256 complete four-phase rounds; callers should checkpoint/reconfigure
    /// rather than accept arbitrarily large logical clocks from the network.
    pub max_steps: u64,
    /// An optional deployment quorum. When unset, the proposer uses a simple
    /// majority for standalone simulations and backward-compatible callers.
    pub quorum: Option<usize>,
    /// When set, replies must come from recorders with this exact fixed
    /// membership and fault budget.
    pub cluster: Option<ClusterIdentity>,
    /// Overall transport wait bound for one protocol phase. This does not
    /// elect a leader or advance a round; it only prevents a wedged endpoint
    /// from blocking the synchronous adapter forever.
    pub rpc_timeout: Span,
}

impl Default for ProposerConfig {
    fn default() -> (config: Self)
        ensures
            config.max_steps == 1027,
            config.quorum is None,
            config.cluster is None,
            config.rpc_timeout.nanos == 30_000_000_000,
    {
        ProposerConfig {
            max_steps: 1027,
            quorum: None,
            cluster: None,
            rpc_timeout: Span::from_secs(30),
        }
    }
}

/// A majority of so many replicas.
pub fn quorum_size(replica_count: usize) -> (size: Result<usize>)
    ensures
        replica_count == 0 ==> (size matches Err(refusal) && refusal@ == ErrorView::EmptyCluster),
        replica_count > 0 ==> size == Ok::<usize, QuePaxaError>((replica_count / 2 + 1) as usize),
        size matches Ok(majority) ==> 2 * majority > replica_count && 2 * (majority - 1)
            <= replica_count && majority <= replica_count,
{
    if replica_count == 0 {
        return Err(QuePaxaError::EmptyCluster);
    }
    Ok(replica_count / 2 + 1)
}

/// The first identity in a list that came before in it.
pub open spec fn first_repeat(ids: Seq<ReplicaId>) -> Option<ReplicaId>
    decreases ids.len(),
{
    if ids.len() == 0 {
        None
    } else {
        match first_repeat(ids.drop_last()) {
            Some(id) => Some(id),
            None => if ids.drop_last().contains(ids.last()) {
                Some(ids.last())
            } else {
                None
            },
        }
    }
}

proof fn lemma_first_repeat(ids: Seq<ReplicaId>, n: int)
    requires
        0 <= n <= ids.len(),
        first_repeat(ids.take(n)) is Some,
    ensures
        first_repeat(ids) == first_repeat(ids.take(n)),
    decreases ids.len() - n,
{
    if n < ids.len() {
        assert(ids.take(n + 1).drop_last() =~= ids.take(n));
        lemma_first_repeat(ids, n + 1);
    } else {
        assert(ids.take(n) =~= ids);
    }
}

/// Nothing repeats exactly where all are different.
pub proof fn lemma_no_repeat(ids: Seq<ReplicaId>)
    ensures
        first_repeat(ids) is None <==> ids.no_duplicates(),
    decreases ids.len(),
{
    if ids.len() > 0 {
        let rest = ids.drop_last();
        lemma_no_repeat(rest);
        assert(ids =~= rest.push(ids.last()));
        if ids.no_duplicates() {
            assert(rest.no_duplicates());
            if rest.contains(ids.last()) {
                let p = collections::place(rest, ids.last());
                assert(0 <= p < rest.len() && rest[p] == ids.last());
                assert(ids[p] == ids[ids.len() - 1]);
            }
        }
    }
}

/// How many replies a proposer needs from its recorders, or why it cannot run
/// with them. A membership says itself which replies are a quorum, and may be
/// content with fewer than a majority of a joint epoch's members; without one,
/// nothing less than a majority will do.
pub open spec fn required_quorum(
    ids: Seq<ReplicaId>,
    proposer: ReplicaId,
    configured: Option<usize>,
    cluster: Option<ClusterView>,
) -> std::result::Result<usize, ErrorView> {
    let majority = (ids.len() as int / 2 + 1) as usize;
    let quorum = match configured {
        Some(quorum) => quorum,
        None => majority,
    };
    let wrong_members = match cluster {
        Some(expected) => ids.to_set() != expected.members.to_set(),
        None => false,
    };
    let wrong_quorum = match cluster {
        Some(expected) => configured is None || configured->0 != expected.quorum_size(),
        None => false,
    };
    if ids.len() == 0 {
        Err(ErrorView::EmptyCluster)
    } else if first_repeat(ids) is Some {
        Err(ErrorView::DuplicateReplica(first_repeat(ids)->0))
    } else if !ids.contains(proposer) {
        Err(ErrorView::UnknownReplica(proposer))
    } else if wrong_members {
        Err(ErrorView::ConfigurationMismatch)
    } else if wrong_quorum || cluster is None && (quorum < majority || quorum > ids.len()) {
        Err(ErrorView::InvalidQuorum { replicas: ids.len() as usize, quorum })
    } else {
        Ok(quorum)
    }
}

/// Checks that a proposer can run with its recorders.
pub fn validate_recorders(
    ids: &[ReplicaId],
    proposer: ReplicaId,
    configured_quorum: Option<usize>,
    expected_cluster: Option<&ClusterIdentity>,
) -> (quorum: Result<usize>)
    ensures
        ({
            let cluster = match expected_cluster {
                Some(cluster) => Some(cluster@),
                None => None,
            };
            match required_quorum(ids@, proposer, configured_quorum, cluster) {
                Ok(needed) => quorum == Ok::<usize, QuePaxaError>(needed),
                Err(refusal) => quorum matches Err(found) && found@ == refusal,
            }
        }),
{
    let majority: usize = match quorum_size(ids.len()) {
        Ok(size) => size,
        Err(refusal) => return Err(refusal),
    };
    let mut members: OrdSet<ReplicaId> = OrdSet::new();
    let mut i: usize = 0;
    while i < ids.len()
        invariant
            i <= ids@.len(),
            members@ == ids@.take(i as int).to_set(),
            first_repeat(ids@.take(i as int)) is None,
        decreases ids@.len() - i,
    {
        proof {
            let before = ids@.take(i as int);
            assert(ids@.take(i + 1) =~= before.push(ids@[i as int]));
            assert(ids@.take(i + 1).drop_last() =~= before);
            before.lemma_push_to_set_commute(ids@[i as int]);
        }
        if !members.insert(ids[i]) {
            proof {
                assert(ids@.take(i as int).contains(ids@[i as int]));
                assert(first_repeat(ids@.take(i + 1)) == Some(ids@[i as int]));
                lemma_first_repeat(ids@, i + 1);
            }
            return Err(QuePaxaError::DuplicateReplica(ids[i]));
        }
        assert(!ids@.take(i as int).contains(ids@[i as int])) by {
            if ids@.take(i as int).contains(ids@[i as int]) {
                assert(ids@.take(i as int).to_set().contains(ids@[i as int]));
            }
        }
        i += 1;
    }
    assert(ids@.take(i as int) =~= ids@);
    if !members.contains(&proposer) {
        return Err(QuePaxaError::UnknownReplica(proposer));
    }
    let quorum: usize = match configured_quorum {
        Some(quorum) => quorum,
        None => majority,
    };
    match expected_cluster {
        Some(cluster) => {
            let configured: OrdSet<ReplicaId> = OrdSet::from_slice(cluster.members());
            if !members.same_elements(&configured) {
                return Err(QuePaxaError::ConfigurationMismatch);
            }
            let expected: usize = cluster.quorum_size();
            if configured_quorum.is_none() || quorum != expected {
                return Err(QuePaxaError::InvalidQuorum { replicas: ids.len(), quorum });
            }
        },
        None => {
            if quorum < majority || quorum > ids.len() {
                return Err(QuePaxaError::InvalidQuorum { replicas: ids.len(), quorum });
            }
        },
    }
    Ok(quorum)
}

impl Clone for XorShift64 {
    fn clone(&self) -> (copy: Self)
        ensures
            copy.current() == self.current(),
    {
        XorShift64 { state: self.state }
    }
}

/// The first decision that replies report.
pub open spec fn reported_decision<V>(replies: Seq<RecordReplyView<V>>) -> Option<DecisionView<V>>
    decreases replies.len(),
{
    if replies.len() == 0 {
        None
    } else {
        match reported_decision(replies.drop_last()) {
            Some(decision) => Some(decision),
            None => replies.last().decision,
        }
    }
}

/// The first proposals that replies report, in order.
pub open spec fn reported_firsts<V>(replies: Seq<RecordReplyView<V>>) -> Seq<ProposalView<V>>
    decreases replies.len(),
{
    if replies.len() == 0 {
        Seq::empty()
    } else {
        let rest = reported_firsts(replies.drop_last());
        match replies.last().summary.first {
            Some(proposal) => rest.push(proposal),
            None => rest,
        }
    }
}

/// The aggregates of the step before that replies report, in order.
pub open spec fn reported_priors<V>(replies: Seq<RecordReplyView<V>>) -> Seq<ProposalView<V>>
    decreases replies.len(),
{
    if replies.len() == 0 {
        Seq::empty()
    } else {
        let rest = reported_priors(replies.drop_last());
        match replies.last().summary.prior_aggregate {
            Some(proposal) => rest.push(proposal),
            None => rest,
        }
    }
}

/// The last reply among those with the highest step.
pub open spec fn furthest_reply<V>(replies: Seq<RecordReplyView<V>>) -> Option<RecordReplyView<V>>
    decreases replies.len(),
{
    if replies.len() == 0 {
        None
    } else {
        match furthest_reply(replies.drop_last()) {
            Some(best) => if best.summary.step.0 > replies.last().summary.step.0 {
                Some(best)
            } else {
                Some(replies.last())
            },
            None => Some(replies.last()),
        }
    }
}

/// Whether every reply reports a first proposal with one key.
pub open spec fn unanimous<V>(replies: Seq<RecordReplyView<V>>, key: ProposalKey) -> bool {
    forall|i: int|
        0 <= i < replies.len() ==> match (#[trigger] replies[i]).summary.first {
            Some(proposal) => proposal.key == key,
            None => false,
        }
}

/// The leader's proposal, if a quorum recorded it first at the first step: the
/// reserved priority is only meaningful when it comes from the agreed round-one
/// leader.
pub open spec fn fast_path<V>(
    step: Step,
    replies: Seq<RecordReplyView<V>>,
    leader: Option<ReplicaId>,
) -> Option<ProposalView<V>> {
    if step.0 != ROUND_ONE_PHASE_ZERO || replies.len() == 0 {
        None
    } else {
        match replies[0].summary.first {
            None => None,
            Some(winner) => if winner.key.priority.0 == u64::MAX && leader == Some(
                winner.key.proposer_id,
            ) && unanimous(replies, winner.key) {
                Some(winner)
            } else {
                None
            },
        }
    }
}

/// How a round ends.
pub enum RoundEnd<V> {
    /// The slot is decided.
    Decided(DecisionView<V>),
    /// The proposer must stop.
    Refused(ErrorView),
    /// The proposer goes on with this step and proposal.
    Continue(Step, ProposalView<V>),
}

/// A decision for a proposal's values, unless it has none.
pub open spec fn decided<V>(slot: SlotIndex, proposal: ProposalView<V>, step: Step) -> RoundEnd<V> {
    if proposal.value_ids.len() == 0 {
        RoundEnd::Refused(ErrorView::EmptyDecision)
    } else {
        RoundEnd::Decided(
            DecisionView {
                slot,
                value_ids: proposal.value_ids,
                proposer: proposal.key.proposer_id,
                decided_step: step,
            },
        )
    }
}

/// Moves on to the next step with a proposal.
pub open spec fn onward<V>(step: Step, proposal: ProposalView<V>) -> RoundEnd<V> {
    match step.successor() {
        Some(next) => RoundEnd::Continue(next, proposal),
        None => RoundEnd::Refused(ErrorView::StepOverflow),
    }
}

/// One slot's consensus as its proposer sees it.
#[verifier::ext_equal]
pub struct RunView<V> {
    pub slot: SlotIndex,
    pub sender: ReplicaId,
    pub leader: Option<ReplicaId>,
    pub recorders: Seq<ReplicaId>,
    pub quorum: usize,
    pub max_steps: u64,
    pub step: Step,
    pub proposal: ProposalView<V>,
    /// Decisions that the first requests carry.
    pub known_decisions: Seq<DecisionView<V>>,
}

impl<V> RunView<V> {
    /// Whether the step's proposals get a priority of their own each: in phase
    /// zero, except from the leader in round one.
    pub open spec fn draws_priorities(self) -> bool {
        self.step.0 % 4 == 0 && (self.step.0 > ROUND_ONE_PHASE_ZERO || self.leader != Some(
            self.sender,
        ))
    }

    /// The request for one recorder, with a drawn priority where one is drawn.
    pub open spec fn request(self, drawn: Priority) -> RecordRequestView<V> {
        RecordRequestView {
            sender: self.sender,
            slot: self.slot,
            round_one_leader: self.leader,
            step: self.step,
            proposal: if self.draws_priorities() {
                self.proposal.with_priority(drawn)
            } else {
                self.proposal
            },
            known_decisions: self.known_decisions,
        }
    }

    /// Whether a request is one of the current step's, with some priority.
    pub open spec fn asks(self, request: RecordRequestView<V>) -> bool {
        exists|drawn: Priority| request == #[trigger] self.request(drawn)
    }

    /// What a quorum of replies to the current step leads to.
    pub open spec fn conclude(self, replies: Seq<RecordReplyView<V>>) -> RoundEnd<V> {
        if reported_decision(replies) is Some {
            let decision = reported_decision(replies)->0;
            if decision.slot != self.slot || decision.value_ids.len() == 0 {
                RoundEnd::Refused(
                    ErrorView::InvalidProposal(
                        "recorder reported a decision for a different slot"@,
                    ),
                )
            } else {
                RoundEnd::Decided(decision)
            }
        } else if self.in_step(replies) {
            let phase = self.step.0 % 4;
            if phase == 0 {
                match fast_path(self.step, replies, self.leader) {
                    Some(winner) => decided(self.slot, winner, self.step),
                    None => match types::best_of(reported_firsts(replies)) {
                        Some(best) => onward(self.step, best),
                        None => RoundEnd::Refused(ErrorView::MissingProposal),
                    },
                }
            } else if phase == 1 {
                onward(self.step, self.proposal)
            } else if phase == 2 {
                if types::best_of(reported_priors(replies)) == Some(self.proposal) {
                    decided(self.slot, self.proposal, self.step)
                } else {
                    onward(self.step, self.proposal)
                }
            } else {
                match types::best_of(reported_priors(replies)) {
                    Some(best) => onward(self.step, best),
                    None => onward(self.step, self.proposal),
                }
            }
        } else {
            let ahead = furthest_reply(replies);
            if ahead is Some && ahead->0.summary.step.0 > self.step.0 {
                match ahead->0.summary.first {
                    Some(first) => RoundEnd::Continue(ahead->0.summary.step, first),
                    None => RoundEnd::Refused(ErrorView::MissingProposal),
                }
            } else {
                RoundEnd::Continue(self.step, self.proposal)
            }
        }
    }

    /// Whether every reply is at the proposer's step.
    pub open spec fn in_step(self, replies: Seq<RecordReplyView<V>>) -> bool {
        forall|i: int| 0 <= i < replies.len() ==> (#[trigger] replies[i]).summary.step == self.step
    }

    /// The run after a round that did not end it: known decisions go out once.
    pub open spec fn continued(self, step: Step, proposal: ProposalView<V>) -> Self {
        RunView { step, proposal, known_decisions: Seq::empty(), ..self }
    }
}

/// One slot's consensus, round by round. The caller sends the requests that
/// [`ProposerCore::requests`] makes, gathers replies with a
/// [`QuorumCollector`], and hands them to [`ProposalRun::conclude`].
#[derive(Debug)]
pub struct ProposalRun<V> {
    slot: SlotIndex,
    sender: ReplicaId,
    leader: Option<ReplicaId>,
    recorders: Vec<ReplicaId>,
    quorum: usize,
    max_steps: u64,
    step: Step,
    proposal: Proposal<V>,
    known_decisions: Vec<Decision<V>>,
}

impl<V> View for ProposalRun<V> {
    type V = RunView<V>;

    closed spec fn view(&self) -> RunView<V> {
        RunView {
            slot: self.slot,
            sender: self.sender,
            leader: self.leader,
            recorders: self.recorders@,
            quorum: self.quorum,
            max_steps: self.max_steps,
            step: self.step,
            proposal: self.proposal@,
            known_decisions: types::list_view(self.known_decisions@),
        }
    }
}

/// Whether every decision names one of the recorders as its proposer; the first
/// that does not is at fault.
pub open spec fn unknown_proposer<V>(
    ids: Seq<ReplicaId>,
    decisions: Seq<DecisionView<V>>,
) -> Option<ReplicaId>
    decreases decisions.len(),
{
    if decisions.len() == 0 {
        None
    } else {
        match unknown_proposer(ids, decisions.drop_last()) {
            Some(proposer) => Some(proposer),
            None => if ids.contains(decisions.last().proposer) {
                None
            } else {
                Some(decisions.last().proposer)
            },
        }
    }
}

proof fn lemma_unknown_proposer<V>(ids: Seq<ReplicaId>, all: Seq<DecisionView<V>>, n: int)
    requires
        0 <= n <= all.len(),
        unknown_proposer(ids, all.take(n)) is Some,
    ensures
        unknown_proposer(ids, all) == unknown_proposer(ids, all.take(n)),
    decreases all.len() - n,
{
    if n < all.len() {
        assert(all.take(n + 1).drop_last() =~= all.take(n));
        lemma_unknown_proposer(ids, all, n + 1);
    } else {
        assert(all.take(n) =~= all);
    }
}

/// The start of a run, or why there is none.
pub open spec fn first_round<V>(
    proposer: ProposerView,
    slot: SlotIndex,
    values: Seq<V>,
    leader: Option<ReplicaId>,
    ids: Seq<ReplicaId>,
    known: Seq<DecisionView<V>>,
) -> std::result::Result<RunView<V>, ErrorView> {
    match required_quorum(ids, proposer.replica_id, proposer.quorum, proposer.cluster) {
        Err(refusal) => Err(refusal),
        Ok(quorum) => if leader is Some && !ids.contains(leader->0) {
            Err(ErrorView::UnknownReplica(leader->0))
        } else if unknown_proposer(ids, known) is Some {
            Err(ErrorView::InvalidSender(unknown_proposer(ids, known)->0))
        } else if values.len() == 0 {
            Err(ErrorView::EmptyProposal)
        } else {
            Ok(
                fresh_run(
                    slot,
                    proposer.replica_id,
                    proposer.lane_id,
                    leader,
                    ids,
                    quorum,
                    proposer.max_steps,
                    values,
                    known,
                ),
            )
        },
    }
}

/// A run at its first step, with the reserved priority.
pub open spec fn fresh_run<V>(
    slot: SlotIndex,
    sender: ReplicaId,
    lane_id: LaneId,
    leader: Option<ReplicaId>,
    recorders: Seq<ReplicaId>,
    quorum: usize,
    max_steps: u64,
    values: Seq<V>,
    known_decisions: Seq<DecisionView<V>>,
) -> RunView<V> {
    RunView {
        slot,
        sender,
        leader,
        recorders,
        quorum,
        max_steps,
        step: Step(ROUND_ONE_PHASE_ZERO),
        proposal: ProposalView {
            key: ProposalKey { priority: Priority(u64::MAX), proposer_id: sender, lane_id },
            value_ids: values,
        },
        known_decisions,
    }
}

/// What a proposer is configured with.
#[verifier::ext_equal]
pub struct ProposerView {
    pub replica_id: ReplicaId,
    pub lane_id: LaneId,
    pub max_steps: u64,
    pub quorum: Option<usize>,
    pub cluster: Option<ClusterView>,
    pub rpc_timeout: Span,
}

/// A proposer role: who proposes, where its priorities come from, and how it
/// runs.
#[derive(Debug)]
pub struct ProposerCore<R> {
    replica_id: ReplicaId,
    lane_id: LaneId,
    rng: R,
    config: ProposerConfig,
}

impl<R> View for ProposerCore<R> {
    type V = ProposerView;

    closed spec fn view(&self) -> ProposerView {
        ProposerView {
            replica_id: self.replica_id,
            lane_id: self.lane_id,
            max_steps: self.config.max_steps,
            quorum: self.config.quorum,
            cluster: types::option_view(self.config.cluster),
            rpc_timeout: self.config.rpc_timeout,
        }
    }
}

impl<R> ProposerCore<R> {
    /// Where the priorities come from.
    pub closed spec fn source(&self) -> R {
        self.rng
    }

    pub fn with_rng(replica_id: ReplicaId, lane_id: LaneId, rng: R) -> (proposer: Self)
        ensures
            proposer.source() == rng,
            proposer@ == (ProposerView {
                replica_id,
                lane_id,
                max_steps: 1027,
                quorum: None,
                cluster: None,
                rpc_timeout: Span { nanos: 30_000_000_000 },
            }),
    {
        ProposerCore { replica_id, lane_id, rng, config: ProposerConfig::default() }
    }

    pub fn with_config(self, config: ProposerConfig) -> (changed: Self)
        ensures
            changed.source() == self.source(),
            changed@ == (ProposerView {
                max_steps: config.max_steps,
                quorum: config.quorum,
                cluster: types::option_view(config.cluster),
                rpc_timeout: config.rpc_timeout,
                ..self@
            }),
    {
        ProposerCore {
            replica_id: self.replica_id,
            lane_id: self.lane_id,
            rng: self.rng,
            config,
        }
    }

    pub fn with_quorum(self, quorum: usize) -> (changed: Self)
        ensures
            changed.source() == self.source(),
            changed@ == (ProposerView { quorum: Some(quorum), ..self@ }),
    {
        let mut changed = self;
        changed.config.quorum = Some(quorum);
        changed
    }

    /// Expects exactly this membership, and its quorum.
    pub fn with_cluster(self, cluster: ClusterIdentity) -> (changed: Self)
        ensures
            changed.source() == self.source(),
            changed@ == (ProposerView {
                quorum: Some(cluster@.quorum_size() as usize),
                cluster: Some(cluster@),
                ..self@
            }),
    {
        let mut changed = self;
        changed.configure_cluster(cluster);
        changed
    }

    /// Bounds the wait for one phase, by a millisecond at least.
    pub fn with_rpc_timeout(self, timeout: Span) -> (changed: Self)
        ensures
            changed.source() == self.source(),
            changed@ == (ProposerView {
                rpc_timeout: Span {
                    nanos: if timeout.nanos < 1_000_000 {
                        1_000_000
                    } else {
                        timeout.nanos
                    },
                },
                ..self@
            }),
    {
        let mut changed = self;
        changed.config.rpc_timeout = timeout.longer(Span::from_millis(1));
        changed
    }

    pub fn configured_quorum(&self) -> (quorum: Option<usize>)
        ensures
            quorum == self@.quorum,
    {
        self.config.quorum
    }

    /// The membership that replies must be of, where one is configured.
    pub fn expected_cluster(&self) -> (cluster: Option<ClusterIdentity>)
        ensures
            types::option_view(cluster) == self@.cluster,
    {
        duplicate_option(&self.config.cluster)
    }

    /// The longest wait for one phase.
    pub fn rpc_timeout(&self) -> (timeout: Span)
        ensures
            timeout == self@.rpc_timeout,
    {
        self.config.rpc_timeout
    }

    /// Expects exactly this membership, and its quorum.
    pub fn configure_cluster(&mut self, cluster: ClusterIdentity)
        ensures
            final(self).source() == old(self).source(),
            final(self)@ == (ProposerView {
                quorum: Some(cluster@.quorum_size() as usize),
                cluster: Some(cluster@),
                ..old(self)@
            }),
    {
        self.config.quorum = Some(cluster.quorum_size());
        self.config.cluster = Some(cluster);
    }

    pub fn replica_id(&self) -> (id: ReplicaId)
        ensures
            id == self@.replica_id,
    {
        self.replica_id
    }

    pub fn lane_id(&self) -> (id: LaneId)
        ensures
            id == self@.lane_id,
    {
        self.lane_id
    }

    /// Begins consensus on one slot. `leader` must be the agreed round-one
    /// leader, or `None` for a leaderless first round.
    #[verifier::loop_isolation(false)]
    pub fn begin<V: Key>(
        &self,
        slot: SlotIndex,
        value_ids: Vec<V>,
        leader: Option<ReplicaId>,
        recorders: &[ReplicaId],
        known_decisions: &[Decision<V>],
    ) -> (run: Result<ProposalRun<V>>)
        ensures
            error::outcome(run) == first_round(
                self@,
                slot,
                value_ids@,
                leader,
                recorders@,
                types::list_view(known_decisions@),
            ),
    {
        let expected: Option<&ClusterIdentity> = match &self.config.cluster {
            Some(cluster) => Some(cluster),
            None => None,
        };
        let quorum: usize = match validate_recorders(
            recorders,
            self.replica_id,
            self.config.quorum,
            expected,
        ) {
            Ok(quorum) => quorum,
            Err(refusal) => return Err(refusal),
        };
        match leader {
            Some(leader) => {
                if !list_contains(recorders, &leader) {
                    return Err(QuePaxaError::UnknownReplica(leader));
                }
            },
            None => {},
        }
        let ghost known = types::list_view(known_decisions@);
        let mut i: usize = 0;
        while i < known_decisions.len()
            invariant
                i <= known_decisions@.len(),
                known == types::list_view(known_decisions@),
                unknown_proposer(recorders@, known.take(i as int)) is None,
            decreases known_decisions@.len() - i,
        {
            proof {
                assert(known.take(i + 1).drop_last() =~= known.take(i as int));
                assert(known.take(i + 1).last() == known_decisions@[i as int]@);
            }
            if !list_contains(recorders, &known_decisions[i].proposer) {
                proof {
                    lemma_unknown_proposer(recorders@, known, i + 1);
                }
                return Err(QuePaxaError::InvalidSender(known_decisions[i].proposer));
            }
            i += 1;
        }
        assert(known.take(i as int) =~= known);
        ProposalRun::start(
            slot,
            self.replica_id,
            self.lane_id,
            leader,
            duplicate_keys(recorders),
            quorum,
            self.config.max_steps,
            value_ids,
            duplicate_list(known_decisions),
        )
    }
}

impl<R: PrioritySource> ProposerCore<R> {
    /// The requests of the run's current step, one for each recorder in order.
    pub fn requests<V: Key>(&mut self, run: &ProposalRun<V>) -> (requests: Result<
        Vec<RecordRequest<V>>,
    >)
        ensures
            final(self)@ == old(self)@,
            made_for(run@, old(self).source(), requests, final(self).source()),
    {
        run.requests_with(&mut self.rng)
    }
}

/// Whether priorities below the leader's were drawn one after the other, with
/// the source in these states.
pub open spec fn drew<R: PrioritySource>(states: Seq<R>, priorities: Seq<Priority>) -> bool {
    &&& states.len() == priorities.len() + 1
    &&& forall|i: int|
        0 <= i < priorities.len() ==> states[i].draws(
            Priority(u64::MAX),
            Ok(#[trigger] priorities[i]),
            &states[i + 1],
        )
}

/// Whether requests are the run's current step's with these priorities, one for
/// each recorder.
pub open spec fn requests_with_priorities<V>(
    run: RunView<V>,
    priorities: Seq<Priority>,
    requests: Seq<RecordRequest<V>>,
) -> bool {
    &&& requests.len() == run.recorders.len()
    &&& priorities.len() == run.recorders.len()
    &&& forall|i: int|
        0 <= i < requests.len() ==> (#[trigger] requests[i])@ == run.request(priorities[i])
}

/// What the requests of a run's current step are: none beyond the step limit,
/// one for each recorder otherwise, where its priorities are drawn one after
/// the other until the source refuses one.
pub open spec fn made_for<V, R: PrioritySource>(
    run: RunView<V>,
    before: R,
    requests: Result<Vec<RecordRequest<V>>>,
    after: R,
) -> bool {
    if run.step.0 > run.max_steps {
        &&& after == before
        &&& requests matches Err(refusal) && refusal@ == (ErrorView::StepLimitExceeded {
            limit: run.max_steps,
        })
    } else if !run.draws_priorities() {
        &&& after == before
        &&& requests matches Ok(list) && requests_with_priorities(
            run,
            Seq::new(run.recorders.len(), |i: int| Priority(u64::MAX)),
            list@,
        )
    } else {
        exists|states: Seq<R>, priorities: Seq<Priority>| #[trigger]
            drew(states, priorities) && states[0] == before && match requests {
                Ok(list) => states.last() == after && requests_with_priorities(
                    run,
                    priorities,
                    list@,
                ),
                Err(refusal) => priorities.len() < run.recorders.len() && states.last().draws(
                    Priority(u64::MAX),
                    Err(refusal@),
                    &after,
                ),
            }
    }
}

impl<V: Key> ProposalRun<V> {
    /// A run at its first step, unless there is nothing to propose.
    pub(crate) fn start(
        slot: SlotIndex,
        sender: ReplicaId,
        lane_id: LaneId,
        leader: Option<ReplicaId>,
        recorders: Vec<ReplicaId>,
        quorum: usize,
        max_steps: u64,
        value_ids: Vec<V>,
        known_decisions: Vec<Decision<V>>,
    ) -> (run: Result<Self>)
        ensures
            error::outcome(run) == if value_ids@.len() == 0 {
                Err(ErrorView::EmptyProposal)
            } else {
                Ok(
                    fresh_run(
                        slot,
                        sender,
                        lane_id,
                        leader,
                        recorders@,
                        quorum,
                        max_steps,
                        value_ids@,
                        types::list_view(known_decisions@),
                    ),
                )
            },
    {
        let key: ProposalKey = ProposalKey::new(Priority::max(), sender, lane_id);
        match Proposal::new(key, value_ids) {
            Ok(proposal) => Ok(
                ProposalRun {
                    slot,
                    sender,
                    leader,
                    recorders,
                    quorum,
                    max_steps,
                    step: Step(ROUND_ONE_PHASE_ZERO),
                    proposal,
                    known_decisions,
                },
            ),
            Err(refusal) => Err(refusal),
        }
    }

    pub fn slot(&self) -> (slot: SlotIndex)
        ensures
            slot == self@.slot,
    {
        self.slot
    }

    pub fn step(&self) -> (step: Step)
        ensures
            step == self@.step,
    {
        self.step
    }

    /// How many replies a round needs.
    pub fn quorum(&self) -> (quorum: usize)
        ensures
            quorum == self@.quorum,
    {
        self.quorum
    }

    /// The last step that the run may take.
    pub fn max_steps(&self) -> (limit: u64)
        ensures
            limit == self@.max_steps,
    {
        self.max_steps
    }

    /// The requests of the current step, one for each recorder in order, with
    /// priorities from a source.
    pub(crate) fn requests_with<R: PrioritySource>(&self, rng: &mut R) -> (requests: Result<
        Vec<RecordRequest<V>>,
    >)
        ensures
            made_for(self@, *old(rng), requests, *final(rng)),
    {
        if self.step.0 > self.max_steps {
            return Err(QuePaxaError::StepLimitExceeded { limit: self.max_steps });
        }
        let mut requests: Vec<RecordRequest<V>> = Vec::new();
        let draws = self.draws_priorities();
        let ghost mut states: Seq<R> = seq![*rng];
        let ghost mut priorities: Seq<Priority> = Seq::empty();
        let mut i: usize = 0;
        while i < self.recorders.len()
            invariant
                i <= self.recorders@.len(),
                draws == self@.draws_priorities(),
                self@.step.0 <= self@.max_steps,
                requests@.len() == i,
                priorities.len() == i,
                states.len() > 0,
                states[0] == *old(rng),
                if draws {
                    drew(states, priorities) && states.last() == *rng
                } else {
                    &&& *rng == *old(rng)
                    &&& forall|j: int| 0 <= j < i ==> #[trigger] priorities[j] == Priority(u64::MAX)
                },
                forall|j: int|
                    0 <= j < i ==> (#[trigger] requests@[j])@ == self@.request(priorities[j]),
            decreases self.recorders@.len() - i,
        {
            let drawn: Priority = if draws {
                match rng.next_below(Priority::max()) {
                    Ok(priority) => {
                        proof {
                            states = states.push(*rng);
                        }
                        priority
                    },
                    Err(refusal) => return Err(refusal),
                }
            } else {
                Priority::max()
            };
            proof {
                priorities = priorities.push(drawn);
            }
            requests.push(self.request_for(drawn));
            i += 1;
        }
        proof {
            if !draws {
                assert(priorities =~= Seq::new(
                    self@.recorders.len(),
                    |i: int| Priority(u64::MAX),
                ));
            }
        }
        Ok(requests)
    }

    /// Whether the step's proposals get a priority of their own each.
    pub fn draws_priorities(&self) -> (draws: bool)
        ensures
            draws == self@.draws_priorities(),
    {
        let leads = match self.leader {
            Some(leader) => leader == self.sender,
            None => false,
        };
        self.step.phase() == 0 && (self.step.0 > ROUND_ONE_PHASE_ZERO || !leads)
    }

    /// The request for one recorder, with a drawn priority where one is drawn.
    pub fn request_for(&self, drawn: Priority) -> (request: RecordRequest<V>)
        ensures
            request@ == self@.request(drawn),
    {
        let proposal: Proposal<V> = if self.draws_priorities() {
            self.proposal.with_priority(drawn)
        } else {
            self.proposal.duplicate_value()
        };
        RecordRequest {
            sender: self.sender,
            slot: self.slot,
            round_one_leader: self.leader,
            step: self.step,
            proposal,
            known_decisions: duplicate_list(self.known_decisions.as_slice()),
        }
    }

    /// Ends a round with a quorum of replies: `Ok(Some(..))` decides the slot,
    /// `Ok(None)` goes on with the next requests.
    pub fn conclude(&mut self, replies: &[RecordReply<V>]) -> (end: Result<Option<Decision<V>>>)
        ensures
            match old(self)@.conclude(types::list_view(replies@)) {
                RoundEnd::Decided(decision) => {
                    &&& end matches Ok(Some(found)) && found@ == decision
                    &&& *final(self) == *old(self)
                },
                RoundEnd::Refused(refusal) => {
                    &&& end matches Err(found) && found@ == refusal
                    &&& *final(self) == *old(self)
                },
                RoundEnd::Continue(step, proposal) => {
                    &&& end matches Ok(None)
                    &&& final(self)@ == old(self)@.continued(step, proposal)
                },
            },
    {
        let ghost all = types::list_view(replies@);
        match first_reported_decision(replies) {
            Some(decision) => {
                if decision.slot != self.slot || decision.value_ids.is_empty() {
                    return Err(
                        QuePaxaError::InvalidProposal(
                            "recorder reported a decision for a different slot".to_owned(),
                        ),
                    );
                }
                return Ok(Some(decision));
            },
            None => {},
        }
        if all_at_step(replies, self.step) {
            let phase: u8 = self.step.phase();
            let mut next: Proposal<V> = self.proposal.duplicate_value();
            if phase == 0 {
                match fast_path_winner(self.step, replies, self.leader) {
                    Some(winner) => {
                        return decide(self.slot, winner, self.step);
                    },
                    None => {},
                }
                match max_proposal_by_key(collect_firsts(replies)) {
                    Some(best) => {
                        next = best;
                    },
                    None => {
                        return Err(QuePaxaError::MissingProposal);
                    },
                }
            } else if phase == 2 {
                match max_proposal_by_key(collect_priors(replies)) {
                    Some(best) => {
                        if best.same_proposal(&self.proposal) {
                            return decide(self.slot, best, self.step);
                        }
                    },
                    None => {},
                }
            } else if phase == 3 {
                match max_proposal_by_key(collect_priors(replies)) {
                    Some(best) => {
                        next = best;
                    },
                    None => {},
                }
            }
            match self.step.checked_next() {
                Some(step) => {
                    self.proceed(step, next);
                    Ok(None)
                },
                None => Err(QuePaxaError::StepOverflow),
            }
        } else {
            match furthest(replies) {
                Some(i) => {
                    if replies[i].summary.step.0 > self.step.0 {
                        match &replies[i].summary.first {
                            Some(first) => {
                                let next: Proposal<V> = first.duplicate_value();
                                self.proceed(replies[i].summary.step, next);
                                return Ok(None);
                            },
                            None => {
                                return Err(QuePaxaError::MissingProposal);
                            },
                        }
                    }
                },
                None => {},
            }
            let next: Proposal<V> = self.proposal.duplicate_value();
            self.proceed(self.step, next);
            Ok(None)
        }
    }

    /// Goes on with a step and proposal; known decisions go out once.
    fn proceed(&mut self, step: Step, proposal: Proposal<V>)
        ensures
            final(self)@ == old(self)@.continued(step, proposal@),
    {
        self.step = step;
        self.proposal = proposal;
        self.known_decisions = Vec::new();
        assert(types::list_view(self.known_decisions@) =~= Seq::<DecisionView<V>>::empty());
    }
}

/// A decision for a proposal's values, unless it has none.
fn decide<V>(slot: SlotIndex, proposal: Proposal<V>, step: Step) -> (end: Result<
    Option<Decision<V>>,
>)
    ensures
        match decided(slot, proposal@, step) {
            RoundEnd::Decided(decision) => end matches Ok(Some(found)) && found@ == decision,
            RoundEnd::Refused(refusal) => end matches Err(found) && found@ == refusal,
            RoundEnd::Continue(_, _) => false,
        },
{
    match Decision::new(slot, proposal.value_ids, proposal.key.proposer_id, step) {
        Ok(decision) => Ok(Some(decision)),
        Err(refusal) => Err(refusal),
    }
}

/// Whether every reply is at a step.
fn all_at_step<V>(replies: &[RecordReply<V>], step: Step) -> (all: bool)
    ensures
        all == (forall|i: int|
            0 <= i < replies@.len() ==> (#[trigger] types::list_view(replies@)[i]).summary.step
                == step),
{
    let mut i: usize = 0;
    while i < replies.len()
        invariant
            i <= replies@.len(),
            forall|j: int|
                0 <= j < i ==> (#[trigger] types::list_view(replies@)[j]).summary.step == step,
        decreases replies@.len() - i,
    {
        if replies[i].summary.step != step {
            assert(types::list_view(replies@)[i as int].summary.step != step);
            return false;
        }
        assert(types::list_view(replies@)[i as int].summary.step == step);
        i += 1;
    }
    true
}

/// The first decision that replies report.
fn first_reported_decision<V: Key>(replies: &[RecordReply<V>]) -> (found: Option<Decision<V>>)
    ensures
        types::option_view(found) == reported_decision(types::list_view(replies@)),
{
    let ghost all = types::list_view(replies@);
    let mut found: Option<Decision<V>> = None;
    let mut i: usize = 0;
    while i < replies.len()
        invariant
            i <= replies@.len(),
            all == types::list_view(replies@),
            types::option_view(found) == reported_decision(all.take(i as int)),
        decreases replies@.len() - i,
    {
        proof {
            assert(all.take(i + 1).drop_last() =~= all.take(i as int));
            assert(all.take(i + 1).last() == replies@[i as int]@);
        }
        if found.is_none() {
            found = duplicate_option(&replies[i].decision);
        }
        i += 1;
    }
    assert(all.take(i as int) =~= all);
    found
}

/// The first proposals that replies report, in order.
fn collect_firsts<V: Key>(replies: &[RecordReply<V>]) -> (list: Vec<Proposal<V>>)
    ensures
        types::list_view(list@) == reported_firsts(types::list_view(replies@)),
{
    let ghost all = types::list_view(replies@);
    let mut list: Vec<Proposal<V>> = Vec::new();
    let mut i: usize = 0;
    assert(types::list_view(list@) =~= reported_firsts(all.take(0)));
    while i < replies.len()
        invariant
            i <= replies@.len(),
            all == types::list_view(replies@),
            types::list_view(list@) == reported_firsts(all.take(i as int)),
        decreases replies@.len() - i,
    {
        let ghost before = list@;
        proof {
            assert(all.take(i + 1).drop_last() =~= all.take(i as int));
            assert(all.take(i + 1).last() == replies@[i as int]@);
        }
        match &replies[i].summary.first {
            Some(proposal) => {
                list.push(proposal.duplicate_value());
                assert(types::list_view(list@) =~= types::list_view(before).push(proposal@));
            },
            None => {},
        }
        i += 1;
    }
    assert(all.take(i as int) =~= all);
    list
}

/// The aggregates of the step before that replies report, in order.
fn collect_priors<V: Key>(replies: &[RecordReply<V>]) -> (list: Vec<Proposal<V>>)
    ensures
        types::list_view(list@) == reported_priors(types::list_view(replies@)),
{
    let ghost all = types::list_view(replies@);
    let mut list: Vec<Proposal<V>> = Vec::new();
    let mut i: usize = 0;
    assert(types::list_view(list@) =~= reported_priors(all.take(0)));
    while i < replies.len()
        invariant
            i <= replies@.len(),
            all == types::list_view(replies@),
            types::list_view(list@) == reported_priors(all.take(i as int)),
        decreases replies@.len() - i,
    {
        let ghost before = list@;
        proof {
            assert(all.take(i + 1).drop_last() =~= all.take(i as int));
            assert(all.take(i + 1).last() == replies@[i as int]@);
        }
        match &replies[i].summary.prior_aggregate {
            Some(proposal) => {
                list.push(proposal.duplicate_value());
                assert(types::list_view(list@) =~= types::list_view(before).push(proposal@));
            },
            None => {},
        }
        i += 1;
    }
    assert(all.take(i as int) =~= all);
    list
}

/// The place of the last reply among those with the highest step.
fn furthest<V>(replies: &[RecordReply<V>]) -> (place: Option<usize>)
    ensures
        match place {
            Some(i) => i < replies@.len() && furthest_reply(types::list_view(replies@)) == Some(
                replies@[i as int]@,
            ),
            None => furthest_reply(types::list_view(replies@)) is None,
        },
{
    let ghost all = types::list_view(replies@);
    let mut place: Option<usize> = None;
    let mut i: usize = 0;
    while i < replies.len()
        invariant
            i <= replies@.len(),
            all == types::list_view(replies@),
            match place {
                Some(p) => p < i && furthest_reply(all.take(i as int)) == Some(
                    replies@[p as int]@,
                ),
                None => i == 0,
            },
        decreases replies@.len() - i,
    {
        proof {
            assert(all.take(i + 1).drop_last() =~= all.take(i as int));
            assert(all.take(i + 1).last() == replies@[i as int]@);
        }
        let ahead = match place {
            Some(p) => replies[p].summary.step.0 > replies[i].summary.step.0,
            None => false,
        };
        if !ahead {
            place = Some(i);
        }
        i += 1;
    }
    assert(all.take(i as int) =~= all);
    place
}

/// The leader's proposal, if a quorum recorded it first at the first step.
#[verifier::loop_isolation(false)]
fn fast_path_winner<V: Key>(
    step: Step,
    replies: &[RecordReply<V>],
    leader: Option<ReplicaId>,
) -> (winner: Option<Proposal<V>>)
    ensures
        types::option_view(winner) == fast_path(step, types::list_view(replies@), leader),
{
    let ghost all = types::list_view(replies@);
    if step.0 != ROUND_ONE_PHASE_ZERO || replies.len() == 0 {
        return None;
    }
    assert(all[0] == replies@[0]@);
    let winner: &Proposal<V> = match &replies[0].summary.first {
        Some(winner) => winner,
        None => return None,
    };
    if !winner.key.priority.is_leader_priority() {
        return None;
    }
    let from_leader = match leader {
        Some(leader) => leader == winner.key.proposer_id,
        None => false,
    };
    if !from_leader {
        return None;
    }
    let mut i: usize = 0;
    while i < replies.len()
        invariant
            i <= replies@.len(),
            all == types::list_view(replies@),
            forall|j: int|
                0 <= j < i ==> match (#[trigger] all[j]).summary.first {
                    Some(proposal) => proposal.key == winner.key,
                    None => false,
                },
        decreases replies@.len() - i,
    {
        assert(all[i as int] == replies@[i as int]@);
        let same = match &replies[i].summary.first {
            Some(proposal) => proposal.key == winner.key,
            None => false,
        };
        if !same {
            assert(!unanimous(all, winner.key));
            return None;
        }
        i += 1;
    }
    Some(winner.duplicate_value())
}

} // verus!
