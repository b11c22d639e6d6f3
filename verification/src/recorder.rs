//! The recorder: keeps an interval summary register per slot, binds one
//! round-one leader to each, and retains decisions.

use crate::cluster;
use crate::cluster::{
    ClusterIdentity, ClusterView, MembershipChange, MembershipChangeView, RecordReply,
    RecordReplyView,
};
use crate::collections;
use crate::collections::OrdMap;
use crate::error;
use crate::error::{ErrorView, QuePaxaError, Result};
use crate::isr::{IntervalSummaryRegister, IntervalSummarySnapshot, IntervalSummaryView};
use crate::key::{Duplicate, Key};
use crate::replica;
use crate::store::{AllowAllAvailability, ValueAvailability};
use crate::types;
use crate::types::{
    all_different, same_list, Decision, DecisionView, Proposal, ProposalView, RecordRequest,
    RecordRequestView, RecordSummary, ReplicaId, SlotIndex, Step, ROUND_ONE_PHASE_ZERO,
};
use vstd::prelude::*;

verus! {

/// Bounds on what a recorder holds and accepts.
#[derive(Debug, Clone, Copy, PartialEq, Eq, Structural)]
pub struct RecorderLimits {
    pub max_active_slots: usize,
    pub max_decisions: usize,
    pub max_values_per_proposal: usize,
    pub max_known_decisions: usize,
    pub max_step: Step,
}

impl RecorderLimits {
    /// The bounds used unless others are given. The greatest step allows 256
    /// complete four-phase rounds; reconfigure or checkpoint before raising
    /// it, rather than accepting a step that a peer controls.
    pub open spec fn standard() -> Self {
        RecorderLimits {
            max_active_slots: 4096,
            max_decisions: 4096,
            max_values_per_proposal: 1024,
            max_known_decisions: 256,
            max_step: Step(1027),
        }
    }

    /// Non-zero bounds that admit the first protocol step.
    pub open spec fn usable(self) -> bool {
        &&& self.max_active_slots > 0
        &&& self.max_decisions > 0
        &&& self.max_values_per_proposal > 0
        &&& self.max_known_decisions > 0
        &&& self.max_step.0 >= ROUND_ONE_PHASE_ZERO
    }
}

impl Default for RecorderLimits {
    fn default() -> (limits: Self)
        ensures
            limits == RecorderLimits::standard(),
    {
        RecorderLimits {
            max_active_slots: 4096,
            max_decisions: 4096,
            max_values_per_proposal: 1024,
            max_known_decisions: 256,
            max_step: Step(1027),
        }
    }
}

/// Identity, membership and bounds of one recorder.
#[derive(Debug)]
pub struct RecorderConfig {
    id: ReplicaId,
    cluster: ClusterIdentity,
    pub limits: RecorderLimits,
}

/// A recorder's configuration with its membership as a view.
#[verifier::ext_equal]
pub struct RecorderConfigView {
    pub id: ReplicaId,
    pub cluster: ClusterView,
    pub limits: RecorderLimits,
}

impl View for RecorderConfig {
    type V = RecorderConfigView;

    closed spec fn view(&self) -> RecorderConfigView {
        RecorderConfigView { id: self.id, cluster: self.cluster@, limits: self.limits }
    }
}

/// A configuration in a given membership, or why there is none.
pub open spec fn configured(id: ReplicaId, cluster: ClusterView) -> std::result::Result<
    RecorderConfigView,
    ErrorView,
> {
    if cluster.members.contains(id) {
        Ok(RecorderConfigView { id, cluster, limits: RecorderLimits::standard() })
    } else {
        Err(ErrorView::UnknownReplica(id))
    }
}

impl RecorderConfig {
    pub fn new(id: ReplicaId, members: Vec<ReplicaId>, max_faults: usize) -> (created: Result<Self>)
        ensures
            error::outcome(created) == match cluster::stable_cluster(0, members@, max_faults) {
                Ok(cluster) => configured(id, cluster),
                Err(refusal) => Err(refusal),
            },
    {
        match ClusterIdentity::new(members, max_faults) {
            Ok(cluster) => Self::from_cluster(id, cluster),
            Err(refusal) => Err(refusal),
        }
    }

    /// The same configuration with other bounds.
    pub fn with_limits(self, limits: RecorderLimits) -> (changed: Result<Self>)
        ensures
            error::outcome(changed) == if limits.usable() {
                Ok(RecorderConfigView { limits, ..self@ })
            } else {
                Err::<RecorderConfigView, ErrorView>(
                    ErrorView::InvalidProposal(
                        "recorder limits must be non-zero and include the initial protocol step"@,
                    ),
                )
            },
    {
        if limits.max_active_slots == 0 || limits.max_decisions == 0
            || limits.max_values_per_proposal == 0 || limits.max_known_decisions == 0
            || limits.max_step.0 < ROUND_ONE_PHASE_ZERO {
            return Err(
                QuePaxaError::InvalidProposal(
                    "recorder limits must be non-zero and include the initial protocol step".to_owned(),
                ),
            );
        }
        Ok(RecorderConfig { id: self.id, cluster: self.cluster, limits })
    }

    /// Creates a recorder directly in a versioned stable or joint epoch. This
    /// is used for a joining replica after it has installed state transfer.
    pub fn from_cluster(id: ReplicaId, cluster: ClusterIdentity) -> (created: Result<Self>)
        ensures
            error::outcome(created) == configured(id, cluster@),
    {
        if !cluster.contains(id) {
            return Err(QuePaxaError::UnknownReplica(id));
        }
        Ok(RecorderConfig { id, cluster, limits: RecorderLimits::default() })
    }

    pub fn id(&self) -> (id: ReplicaId)
        ensures
            id == self@.id,
    {
        self.id
    }

    pub fn contains(&self, replica: ReplicaId) -> (member: bool)
        ensures
            member == self@.cluster.members.contains(replica),
    {
        self.cluster.contains(replica)
    }

    pub fn max_faults(&self) -> (faults: usize)
        ensures
            faults == self@.cluster.max_faults,
    {
        self.cluster.max_faults()
    }

    pub fn quorum_size(&self) -> (size: usize)
        ensures
            size == self@.cluster.quorum_size(),
    {
        self.cluster.quorum_size()
    }

    pub fn cluster_identity(&self) -> (cluster: &ClusterIdentity)
        ensures
            cluster@ == self@.cluster,
    {
        &self.cluster
    }

    fn install_cluster(&mut self, cluster: ClusterIdentity)
        ensures
            final(self)@ == (RecorderConfigView { cluster: cluster@, ..old(self)@ }),
    {
        self.cluster = cluster;
    }
}

impl Duplicate for RecorderConfig {
    fn duplicate_value(&self) -> (copy: Self) {
        RecorderConfig {
            id: self.id,
            cluster: self.cluster.duplicate_value(),
            limits: self.limits,
        }
    }
}

impl Clone for RecorderConfig {
    fn clone(&self) -> (copy: Self)
        ensures
            copy@ == self@,
    {
        self.duplicate_value()
    }
}

impl Duplicate for Option<ReplicaId> {
    fn duplicate_value(&self) -> (copy: Self) {
        *self
    }
}

/// Durable consensus state owned by one recorder.
#[derive(Debug, PartialEq, Eq)]
pub struct RecorderSnapshot<V> {
    pub cluster: ClusterIdentity,
    pub slots: OrdMap<SlotIndex, IntervalSummarySnapshot<V>>,
    /// Round-one leader bound to each active slot. This is persisted alongside
    /// the register so a restart cannot forget a schedule already accepted.
    pub round_one_leaders: OrdMap<SlotIndex, Option<ReplicaId>>,
    pub decisions: OrdMap<SlotIndex, Decision<V>>,
    /// Slots at or below this index were decided and pruned. Requests for them
    /// are rejected instead of silently re-running consensus on empty state.
    pub pruned_through: SlotIndex,
}

/// A recorder's consensus state.
#[verifier::ext_equal]
pub struct RecorderState<V> {
    pub cluster: ClusterView,
    pub slots: Map<SlotIndex, IntervalSummaryView<V>>,
    pub round_one_leaders: Map<SlotIndex, Option<ReplicaId>>,
    pub decisions: Map<SlotIndex, DecisionView<V>>,
    pub pruned_through: SlotIndex,
}

impl<V> View for RecorderSnapshot<V> {
    type V = RecorderState<V>;

    open spec fn view(&self) -> RecorderState<V> {
        RecorderState {
            cluster: self.cluster@,
            slots: self.slots@,
            round_one_leaders: self.round_one_leaders@,
            decisions: self.decisions@,
            pruned_through: self.pruned_through,
        }
    }
}

impl<V: Key> Duplicate for RecorderSnapshot<V> {
    fn duplicate_value(&self) -> (copy: Self) {
        RecorderSnapshot {
            cluster: self.cluster.duplicate_value(),
            slots: self.slots.duplicate_value(),
            round_one_leaders: self.round_one_leaders.duplicate_value(),
            decisions: self.decisions.duplicate_value(),
            pruned_through: self.pruned_through,
        }
    }
}

impl<V: Key> Clone for RecorderSnapshot<V> {
    fn clone(&self) -> (copy: Self)
        ensures
            copy@ == self@,
    {
        self.duplicate_value()
    }
}

/// A recorder: who it is, its bounds, and its consensus state.
#[verifier::ext_equal]
pub struct RecorderView<V> {
    pub id: ReplicaId,
    pub limits: RecorderLimits,
    pub state: RecorderState<V>,
}

/// The first refusal that a rule finds along a list.
pub open spec fn first_error<K>(keys: Seq<K>, rule: spec_fn(K) -> Option<ErrorView>) -> Option<
    ErrorView,
>
    decreases keys.len(),
{
    if keys.len() == 0 {
        None
    } else {
        match first_error(keys.drop_last(), rule) {
            Some(refusal) => Some(refusal),
            None => rule(keys.last()),
        }
    }
}

/// A refusal along a prefix is the refusal along the whole list.
pub proof fn lemma_first_error<K>(keys: Seq<K>, rule: spec_fn(K) -> Option<ErrorView>, n: int)
    requires
        0 <= n <= keys.len(),
        first_error(keys.take(n), rule) is Some,
    ensures
        first_error(keys, rule) == first_error(keys.take(n), rule),
    decreases keys.len() - n,
{
    if n < keys.len() {
        assert(keys.take(n + 1).drop_last() =~= keys.take(n));
        lemma_first_error(keys, rule, n + 1);
    } else {
        assert(keys.take(n) =~= keys);
    }
}

/// No refusal along a list means none for any of its members.
pub proof fn lemma_no_error<K>(keys: Seq<K>, rule: spec_fn(K) -> Option<ErrorView>)
    ensures
        first_error(keys, rule) is None <==> forall|i: int|
            0 <= i < keys.len() ==> rule(#[trigger] keys[i]) is None,
    decreases keys.len(),
{
    if keys.len() > 0 {
        let rest = keys.drop_last();
        lemma_no_error(rest, rule);
        if first_error(keys, rule) is None {
            assert forall|i: int| 0 <= i < keys.len() implies rule(#[trigger] keys[i]) is None by {
                if i < rest.len() {
                    assert(rest[i] == keys[i]);
                }
            }
        }
        if forall|i: int| 0 <= i < keys.len() ==> rule(#[trigger] keys[i]) is None {
            assert forall|i: int| 0 <= i < rest.len() implies rule(#[trigger] rest[i]) is None by {
                assert(rest[i] == keys[i]);
            }
            assert(rule(keys[keys.len() - 1]) is None);
        }
    }
}

impl<V> RecorderView<V> {
    /// A recorder that has recorded nothing.
    pub open spec fn initial(config: RecorderConfigView) -> Self {
        RecorderView {
            id: config.id,
            limits: config.limits,
            state: RecorderState {
                cluster: config.cluster,
                slots: Map::empty(),
                round_one_leaders: Map::empty(),
                decisions: Map::empty(),
                pruned_through: SlotIndex(0),
            },
        }
    }

    /// Whether a replica is an active voter.
    pub open spec fn knows(self, replica: ReplicaId) -> bool {
        self.state.cluster.members.contains(replica)
    }

    /// Why a decision is refused, if it is.
    pub open spec fn decision_error(self, decision: DecisionView<V>) -> Option<ErrorView> {
        if decision.value_ids.len() == 0 {
            Some(ErrorView::EmptyDecision)
        } else if !self.knows(decision.proposer) {
            Some(ErrorView::InvalidSender(decision.proposer))
        } else if decision.decided_step.0 > self.limits.max_step.0 {
            Some(
                ErrorView::InvalidStep {
                    step: decision.decided_step.0,
                    limit: self.limits.max_step.0,
                },
            )
        } else if decision.value_ids.len() > self.limits.max_values_per_proposal {
            Some(
                replica::limit_reached(
                    "decision value IDs"@,
                    self.limits.max_values_per_proposal,
                ),
            )
        } else if !decision.value_ids.no_duplicates() {
            Some(ErrorView::InvalidProposal("decision contains duplicate value IDs"@))
        } else {
            None
        }
    }

    /// Why a proposal is refused, if it is.
    pub open spec fn proposal_error(self, proposal: ProposalView<V>) -> Option<ErrorView> {
        if !self.knows(proposal.key.proposer_id) {
            Some(ErrorView::InvalidSender(proposal.key.proposer_id))
        } else if proposal.value_ids.len() == 0 {
            Some(ErrorView::EmptyProposal)
        } else if proposal.value_ids.len() > self.limits.max_values_per_proposal {
            Some(
                replica::limit_reached(
                    "proposal value IDs"@,
                    self.limits.max_values_per_proposal,
                ),
            )
        } else if !proposal.value_ids.no_duplicates() {
            Some(ErrorView::InvalidProposal("proposal contains duplicate value IDs"@))
        } else {
            None
        }
    }

    /// Whether a step is one that proposals may be recorded at.
    pub open spec fn accepts_step(self, step: Step) -> bool {
        ROUND_ONE_PHASE_ZERO <= step.0 <= self.limits.max_step.0
    }

    /// The refusal of a step.
    pub open spec fn step_error(self, step: Step) -> ErrorView {
        ErrorView::InvalidStep { step: step.0, limit: self.limits.max_step.0 }
    }

    /// Why an optional proposal is refused, if it is.
    pub open spec fn optional_error(self, proposal: Option<ProposalView<V>>) -> Option<ErrorView> {
        match proposal {
            Some(found) => self.proposal_error(found),
            None => None,
        }
    }

    /// Why a restored register is refused, if it is.
    pub open spec fn register_error(self, register: IntervalSummaryView<V>) -> Option<ErrorView> {
        if !self.accepts_step(register.step) {
            Some(self.step_error(register.step))
        } else if register.first is None || register.current_aggregate is None {
            Some(ErrorView::MissingProposal)
        } else if self.optional_error(register.first) is Some {
            self.optional_error(register.first)
        } else if self.optional_error(register.current_aggregate) is Some {
            self.optional_error(register.current_aggregate)
        } else {
            self.optional_error(register.prior_aggregate)
        }
    }

    /// Why a restored decision is refused, if it is.
    pub open spec fn retained_decision_error(self, slot: SlotIndex) -> Option<ErrorView> {
        if slot != self.state.decisions[slot].slot || slot.0 <= self.state.pruned_through.0 {
            Some(
                ErrorView::InvalidProposal(
                    "recorder snapshot decision key does not match its slot or pruned floor"@,
                ),
            )
        } else {
            self.decision_error(self.state.decisions[slot])
        }
    }

    /// Whether every leader binding names an active voter or nobody.
    pub open spec fn leaders_known(self) -> bool {
        forall|slot: SlotIndex| #[trigger]
            self.state.round_one_leaders.dom().contains(slot)
                ==> match self.state.round_one_leaders[slot] {
                Some(leader) => self.knows(leader),
                None => true,
            }
    }

    /// Why state cannot be resumed under a configured membership, if it cannot.
    pub open spec fn restore_error(self, configured: ClusterView) -> Option<ErrorView> {
        let state = self.state;
        let decisions = first_error(
            collections::in_order(state.decisions.dom()),
            |slot: SlotIndex| self.retained_decision_error(slot),
        );
        let registers = first_error(
            collections::in_order(state.slots.dom()),
            |slot: SlotIndex| self.register_error(state.slots[slot]),
        );
        if state.cluster != configured {
            Some(ErrorView::ConfigurationMismatch)
        } else if state.slots.len() > self.limits.max_active_slots {
            Some(
                replica::limit_reached("active recorder slots"@, self.limits.max_active_slots),
            )
        } else if state.decisions.len() > self.limits.max_decisions {
            Some(replica::limit_reached("retained decisions"@, self.limits.max_decisions))
        } else if decisions is Some {
            decisions
        } else if exists|slot: SlotIndex|
            state.slots.dom().contains(slot) && slot.0 <= state.pruned_through.0 {
            Some(
                ErrorView::InvalidProposal(
                    "recorder snapshot retains a slot at or below its pruned floor"@,
                ),
            )
        } else if state.round_one_leaders.dom() != state.slots.dom() {
            Some(
                ErrorView::InvalidProposal(
                    "recorder snapshot leader bindings do not match its active slots"@,
                ),
            )
        } else if !self.leaders_known() {
            Some(
                ErrorView::InvalidProposal(
                    "recorder snapshot binds a slot to an unknown leader"@,
                ),
            )
        } else {
            registers
        }
    }

    /// Retains a decision.
    pub open spec fn inform_decision(self, decision: DecisionView<V>) -> (
        Self,
        std::result::Result<(), ErrorView>,
    ) {
        match self.decision_error(decision) {
            Some(refusal) => (self, Err(refusal)),
            None => if decision.slot.0 <= self.state.pruned_through.0 {
                (self, Ok(()))
            } else if self.state.decisions.dom().contains(decision.slot) {
                if self.state.decisions[decision.slot].value_ids != decision.value_ids {
                    (self, Err(ErrorView::ConflictingDecision { slot: decision.slot }))
                } else {
                    (self, Ok(()))
                }
            } else if self.state.decisions.len() == self.limits.max_decisions {
                (
                    self,
                    Err(replica::limit_reached("retained decisions"@, self.limits.max_decisions)),
                )
            } else {
                (
                    RecorderView {
                        state: RecorderState {
                            decisions: self.state.decisions.insert(decision.slot, decision),
                            ..self.state
                        },
                        ..self
                    },
                    Ok(()),
                )
            },
        }
    }

    /// Retains decisions in order, up to the first that is refused.
    pub open spec fn inform_all(self, decisions: Seq<DecisionView<V>>) -> (
        Self,
        std::result::Result<(), ErrorView>,
    )
        decreases decisions.len(),
    {
        if decisions.len() == 0 {
            (self, Ok(()))
        } else {
            let (before, result) = self.inform_all(decisions.drop_last());
            match result {
                Ok(()) => before.inform_decision(decisions.last()),
                Err(refusal) => (before, Err(refusal)),
            }
        }
    }

    /// Drops state through a slot and raises the pruned floor.
    pub open spec fn prune_through(self, slot: SlotIndex) -> Self {
        RecorderView {
            state: RecorderState {
                slots: collections::after(self.state.slots, slot),
                round_one_leaders: collections::after(self.state.round_one_leaders, slot),
                decisions: collections::after(self.state.decisions, slot),
                pruned_through: if self.state.pruned_through.0 < slot.0 {
                    slot
                } else {
                    self.state.pruned_through
                },
                ..self.state
            },
            ..self
        }
    }

    /// Why a request is refused before its values are looked for, if it is.
    pub open spec fn request_error(self, request: RecordRequestView<V>) -> Option<ErrorView> {
        let unknown_leader = match request.round_one_leader {
            Some(leader) => !self.knows(leader),
            None => false,
        };
        if !self.knows(request.sender) {
            Some(ErrorView::InvalidSender(request.sender))
        } else if unknown_leader {
            Some(ErrorView::UnknownReplica(request.round_one_leader->0))
        } else if self.proposal_error(request.proposal) is Some {
            self.proposal_error(request.proposal)
        } else if !self.accepts_step(request.step) {
            Some(self.step_error(request.step))
        } else if request.known_decisions.len() > self.limits.max_known_decisions {
            Some(
                replica::limit_reached(
                    "known decisions in one request"@,
                    self.limits.max_known_decisions,
                ),
            )
        } else {
            None
        }
    }

    /// Why a request is refused before anything is changed, if it is: it is
    /// invalid, its slot was pruned, or the slot is bound to another leader.
    pub open spec fn admission_error(self, request: RecordRequestView<V>) -> Option<ErrorView> {
        if self.request_error(request) is Some {
            self.request_error(request)
        } else if request.slot.0 <= self.state.pruned_through.0 {
            Some(ErrorView::SlotPruned { slot: request.slot })
        } else if self.state.round_one_leaders.dom().contains(request.slot)
            && self.state.round_one_leaders[request.slot] != request.round_one_leader {
            Some(ErrorView::ScheduleMismatch { slot: request.slot })
        } else {
            None
        }
    }

    /// The slot's register; an empty one if the slot is not active.
    pub open spec fn register(self, slot: SlotIndex) -> IntervalSummaryView<V> {
        if self.state.slots.dom().contains(slot) {
            self.state.slots[slot]
        } else {
            IntervalSummaryView::empty()
        }
    }

    /// The slot's retained decision.
    pub open spec fn decision(self, slot: SlotIndex) -> Option<DecisionView<V>> {
        if self.state.decisions.dom().contains(slot) {
            Some(self.state.decisions[slot])
        } else {
            None
        }
    }

    /// Binds the leader of an unbound slot and records the proposal.
    pub open spec fn recorded(self, request: RecordRequestView<V>) -> Self {
        let leaders = self.state.round_one_leaders;
        RecorderView {
            state: RecorderState {
                slots: self.state.slots.insert(
                    request.slot,
                    self.register(request.slot).recorded(request.step, request.proposal),
                ),
                round_one_leaders: if leaders.dom().contains(request.slot) {
                    leaders
                } else {
                    leaders.insert(request.slot, request.round_one_leader)
                },
                ..self.state
            },
            ..self
        }
    }

    /// The reply for a slot.
    pub open spec fn reply(self, slot: SlotIndex) -> RecordReplyView<V> {
        RecordReplyView {
            recorder: self.id,
            cluster: self.state.cluster,
            summary: self.register(slot).summary(),
            decision: self.decision(slot),
        }
    }

    /// Serves a request, given whether its values are available.
    pub open spec fn record(
        self,
        request: RecordRequestView<V>,
        available: std::result::Result<(), ErrorView>,
    ) -> (Self, std::result::Result<RecordReplyView<V>, ErrorView>) {
        if self.admission_error(request) is Some {
            (self, Err(self.admission_error(request)->0))
        } else {
            match available {
                Err(refusal) => (self, Err(refusal)),
                Ok(()) => {
                    let (informed, result) = self.inform_all(request.known_decisions);
                    match result {
                        Err(refusal) => (informed, Err(refusal)),
                        Ok(()) => if !informed.state.slots.dom().contains(request.slot)
                            && informed.state.slots.len() == informed.limits.max_active_slots {
                            (
                                informed,
                                Err(
                                    replica::limit_reached(
                                        "active recorder slots"@,
                                        informed.limits.max_active_slots,
                                    ),
                                ),
                            )
                        } else {
                            let after = informed.recorded(request);
                            (after, Ok(after.reply(request.slot)))
                        },
                    }
                },
            }
        }
    }

    /// Whether something after a slot is active or decided.
    pub open spec fn busy_after(self, slot: SlotIndex) -> bool {
        ||| exists|later: SlotIndex| self.state.slots.dom().contains(later) && later.0 > slot.0
        ||| exists|later: SlotIndex|
            self.state.decisions.dom().contains(later) && later.0 > slot.0
    }

    /// Installs the next membership.
    pub open spec fn install_membership(self, change: MembershipChangeView<V>) -> (
        Self,
        std::result::Result<(), ErrorView>,
    ) {
        if !change.is_bound() {
            (self, Err(cluster::unbound_command()))
        } else if self.state.cluster == change.next {
            (self, Ok(()))
        } else if !change.next.follows(self.state.cluster) {
            (
                self,
                Err(
                    ErrorView::InvalidReconfiguration(
                        "membership transition does not follow the local configuration epoch"@,
                    ),
                ),
            )
        } else if !self.state.decisions.dom().contains(change.anchor.slot) {
            (
                self,
                Err(
                    ErrorView::InvalidReconfiguration(
                        "membership anchor decision is not retained by this recorder"@,
                    ),
                ),
            )
        } else if self.state.decisions[change.anchor.slot] != change.anchor {
            (self, Err(ErrorView::ConflictingDecision { slot: change.anchor.slot }))
        } else if self.busy_after(change.anchor.slot) {
            (
                self,
                Err(
                    ErrorView::InvalidReconfiguration(
                        "membership changes require all later consensus slots to be drained"@,
                    ),
                ),
            )
        } else {
            (
                RecorderView {
                    state: RecorderState { cluster: change.next, ..self.state },
                    ..self
                },
                Ok(()),
            )
        }
    }
}

/// Keeps an interval summary register per slot and retains decisions.
pub struct RecorderCore<V, A = AllowAllAvailability> {
    config: RecorderConfig,
    availability: A,
    slots: OrdMap<SlotIndex, IntervalSummaryRegister<V>>,
    round_one_leaders: OrdMap<SlotIndex, Option<ReplicaId>>,
    decisions: OrdMap<SlotIndex, Decision<V>>,
    pruned_through: SlotIndex,
}

impl<V, A> View for RecorderCore<V, A> {
    type V = RecorderView<V>;

    closed spec fn view(&self) -> RecorderView<V> {
        RecorderView {
            id: self.config@.id,
            limits: self.config@.limits,
            state: RecorderState {
                cluster: self.config@.cluster,
                slots: self.slots@,
                round_one_leaders: self.round_one_leaders@,
                decisions: self.decisions@,
                pruned_through: self.pruned_through,
            },
        }
    }
}

/// Whether a request was served like this: the guard is asked for the
/// proposal's values once the request is admitted, and not before.
pub open spec fn served<V, A: ValueAvailability<V>>(
    before: RecorderView<V>,
    guard: A,
    request: RecordRequestView<V>,
    after: RecorderView<V>,
    guard_after: A,
    reply: std::result::Result<RecordReplyView<V>, ErrorView>,
) -> bool {
    match before.admission_error(request) {
        Some(refusal) => {
            &&& guard_after == guard
            &&& after == before
            &&& reply == Err::<RecordReplyView<V>, ErrorView>(refusal)
        },
        None => exists|available: std::result::Result<(), ErrorView>| #[trigger]
            guard.provides(request.proposal.value_ids, available, &guard_after) && (after, reply)
                == before.record(request, available),
    }
}

impl<V: Key, A: ValueAvailability<V>> RecorderCore<V, A> {
    /// The guard that is asked for values.
    pub closed spec fn guard(&self) -> A {
        self.availability
    }

    /// A recorder that has recorded nothing.
    pub fn new(config: RecorderConfig, availability: A) -> (recorder: Self)
        ensures
            recorder.guard() == availability,
            recorder@ == RecorderView::<V>::initial(config@),
    {
        RecorderCore {
            config,
            availability,
            slots: OrdMap::new(),
            round_one_leaders: OrdMap::new(),
            decisions: OrdMap::new(),
            pruned_through: SlotIndex(0),
        }
    }

    fn validate_decision(&self, decision: &Decision<V>) -> (result: Result<()>)
        ensures
            match self@.decision_error(decision@) {
                Some(refusal) => result matches Err(found) && found@ == refusal,
                None => result is Ok,
            },
    {
        if decision.value_ids.is_empty() {
            return Err(QuePaxaError::EmptyDecision);
        }
        if !self.config.contains(decision.proposer) {
            return Err(QuePaxaError::InvalidSender(decision.proposer));
        }
        if decision.decided_step.0 > self.config.limits.max_step.0 {
            return Err(
                QuePaxaError::InvalidStep {
                    step: decision.decided_step.0,
                    limit: self.config.limits.max_step.0,
                },
            );
        }
        if decision.value_ids.len() > self.config.limits.max_values_per_proposal {
            return Err(
                QuePaxaError::ResourceLimit {
                    resource: "decision value IDs",
                    limit: self.config.limits.max_values_per_proposal,
                },
            );
        }
        if !all_different(decision.value_ids.as_slice()) {
            return Err(
                QuePaxaError::InvalidProposal("decision contains duplicate value IDs".to_owned()),
            );
        }
        Ok(())
    }

    fn validate_proposal(&self, proposal: &Proposal<V>) -> (result: Result<()>)
        ensures
            match self@.proposal_error(proposal@) {
                Some(refusal) => result matches Err(found) && found@ == refusal,
                None => result is Ok,
            },
    {
        if !self.config.contains(proposal.key.proposer_id) {
            return Err(QuePaxaError::InvalidSender(proposal.key.proposer_id));
        }
        if proposal.value_ids.is_empty() {
            return Err(QuePaxaError::EmptyProposal);
        }
        if proposal.value_ids.len() > self.config.limits.max_values_per_proposal {
            return Err(
                QuePaxaError::ResourceLimit {
                    resource: "proposal value IDs",
                    limit: self.config.limits.max_values_per_proposal,
                },
            );
        }
        if !all_different(proposal.value_ids.as_slice()) {
            return Err(
                QuePaxaError::InvalidProposal("proposal contains duplicate value IDs".to_owned()),
            );
        }
        Ok(())
    }

    fn validate_optional(&self, proposal: &Option<Proposal<V>>) -> (result: Result<()>)
        ensures
            match self@.optional_error(types::option_view(*proposal)) {
                Some(refusal) => result matches Err(found) && found@ == refusal,
                None => result is Ok,
            },
    {
        match proposal {
            Some(found) => self.validate_proposal(found),
            None => Ok(()),
        }
    }

    fn validate_isr_snapshot(&self, state: &IntervalSummarySnapshot<V>) -> (result: Result<()>)
        ensures
            match self@.register_error(state@) {
                Some(refusal) => result matches Err(found) && found@ == refusal,
                None => result is Ok,
            },
    {
        if state.step.0 < ROUND_ONE_PHASE_ZERO || state.step.0 > self.config.limits.max_step.0 {
            return Err(
                QuePaxaError::InvalidStep {
                    step: state.step.0,
                    limit: self.config.limits.max_step.0,
                },
            );
        }
        if state.first.is_none() || state.current_aggregate.is_none() {
            return Err(QuePaxaError::MissingProposal);
        }
        match self.validate_optional(&state.first) {
            Ok(()) => {},
            Err(refusal) => return Err(refusal),
        }
        match self.validate_optional(&state.current_aggregate) {
            Ok(()) => {},
            Err(refusal) => return Err(refusal),
        }
        self.validate_optional(&state.prior_aggregate)
    }

    /// Whether the state may be resumed under the configured membership.
    fn validate_snapshot(&self, snapshot: &RecorderSnapshot<V>) -> (result: Result<()>)
        ensures
            ({
                let target = RecorderView { state: snapshot@, ..self@ };
                match target.restore_error(self@.state.cluster) {
                    Some(refusal) => result matches Err(found) && found@ == refusal,
                    None => result is Ok,
                }
            }),
    {
        let ghost target = RecorderView { state: snapshot@, ..self@ };
        let limits: RecorderLimits = self.config.limits;
        if !snapshot.cluster.same_cluster(self.config.cluster_identity()) {
            return Err(QuePaxaError::ConfigurationMismatch);
        }
        if snapshot.slots.len() > limits.max_active_slots {
            return Err(
                QuePaxaError::ResourceLimit {
                    resource: "active recorder slots",
                    limit: limits.max_active_slots,
                },
            );
        }
        if snapshot.decisions.len() > limits.max_decisions {
            return Err(
                QuePaxaError::ResourceLimit {
                    resource: "retained decisions",
                    limit: limits.max_decisions,
                },
            );
        }
        match self.validate_decisions(snapshot) {
            Ok(()) => {},
            Err(refusal) => return Err(refusal),
        }
        let active: usize = snapshot.slots.len();
        if active > 0 && snapshot.slots.key_at(0).0 <= snapshot.pruned_through.0 {
            assert(snapshot@.slots.dom().contains(snapshot.slots.keys()[0]));
            return Err(
                QuePaxaError::InvalidProposal(
                    "recorder snapshot retains a slot at or below its pruned floor".to_owned(),
                ),
            );
        }
        proof {
            assert forall|slot: SlotIndex|
                snapshot@.slots.dom().contains(slot) implies slot.0
                > snapshot@.pruned_through.0 by {
                let keys = snapshot.slots.keys();
                let p = collections::place(keys, slot);
                assert(0 <= p < keys.len() && keys[p] == slot);
                if 0 < p {
                    assert(keys[0].rank() < keys[p].rank());
                }
            }
        }
        if !same_keys(&snapshot.round_one_leaders, &snapshot.slots) {
            return Err(
                QuePaxaError::InvalidProposal(
                    "recorder snapshot leader bindings do not match its active slots".to_owned(),
                ),
            );
        }
        if !self.leaders_are_known(snapshot) {
            return Err(
                QuePaxaError::InvalidProposal(
                    "recorder snapshot binds a slot to an unknown leader".to_owned(),
                ),
            );
        }
        self.validate_registers(snapshot)
    }

    fn validate_decisions(&self, snapshot: &RecorderSnapshot<V>) -> (result: Result<()>)
        requires
            snapshot@.cluster == self@.state.cluster,
        ensures
            ({
                let target = RecorderView { state: snapshot@, ..self@ };
                match first_error(
                    collections::in_order(snapshot@.decisions.dom()),
                    |slot: SlotIndex| target.retained_decision_error(slot),
                ) {
                    Some(refusal) => result matches Err(found) && found@ == refusal,
                    None => result is Ok,
                }
            }),
    {
        let ghost target = RecorderView { state: snapshot@, ..self@ };
        let ghost rule = |slot: SlotIndex| target.retained_decision_error(slot);
        let count: usize = snapshot.decisions.len();
        let ghost keys = snapshot.decisions.keys();
        proof {
            collections::lemma_in_order(keys);
        }
        let mut i: usize = 0;
        while i < count
            invariant
                i <= count == keys.len(),
                keys == snapshot.decisions.keys(),
                keys == collections::in_order(snapshot@.decisions.dom()),
                collections::lists(keys, snapshot@.decisions),
                snapshot@.cluster == self@.state.cluster,
                target == (RecorderView { state: snapshot@, ..self@ }),
                rule == (|slot: SlotIndex| target.retained_decision_error(slot)),
                first_error(keys.take(i as int), rule) is None,
            decreases count - i,
        {
            let slot: SlotIndex = *snapshot.decisions.key_at(i);
            let decision: &Decision<V> = snapshot.decisions.value_at(i);
            proof {
                assert(keys.take(i + 1).drop_last() =~= keys.take(i as int));
                assert(first_error(keys.take(i + 1), rule) == rule(slot));
                assert(target.decision_error(decision@) == self@.decision_error(decision@));
                if rule(slot) is Some {
                    lemma_first_error(keys, rule, i + 1);
                }
            }
            if slot != decision.slot || slot.0 <= snapshot.pruned_through.0 {
                return Err(
                    QuePaxaError::InvalidProposal(
                        "recorder snapshot decision key does not match its slot or pruned floor".to_owned(),
                    ),
                );
            }
            match self.validate_decision(decision) {
                Ok(()) => {},
                Err(refusal) => return Err(refusal),
            }
            i += 1;
        }
        assert(keys.take(count as int) =~= keys);
        Ok(())
    }

    fn validate_registers(&self, snapshot: &RecorderSnapshot<V>) -> (result: Result<()>)
        requires
            snapshot@.cluster == self@.state.cluster,
        ensures
            ({
                let target = RecorderView { state: snapshot@, ..self@ };
                match first_error(
                    collections::in_order(snapshot@.slots.dom()),
                    |slot: SlotIndex| target.register_error(snapshot@.slots[slot]),
                ) {
                    Some(refusal) => result matches Err(found) && found@ == refusal,
                    None => result is Ok,
                }
            }),
    {
        let ghost target = RecorderView { state: snapshot@, ..self@ };
        let ghost rule = |slot: SlotIndex| target.register_error(snapshot@.slots[slot]);
        let count: usize = snapshot.slots.len();
        let ghost keys = snapshot.slots.keys();
        proof {
            collections::lemma_in_order(keys);
        }
        let mut i: usize = 0;
        while i < count
            invariant
                i <= count == keys.len(),
                keys == snapshot.slots.keys(),
                keys == collections::in_order(snapshot@.slots.dom()),
                collections::lists(keys, snapshot@.slots),
                snapshot@.cluster == self@.state.cluster,
                target == (RecorderView { state: snapshot@, ..self@ }),
                rule == (|slot: SlotIndex| target.register_error(snapshot@.slots[slot])),
                first_error(keys.take(i as int), rule) is None,
            decreases count - i,
        {
            let state: &IntervalSummarySnapshot<V> = snapshot.slots.value_at(i);
            proof {
                let slot = keys[i as int];
                assert(keys.take(i + 1).drop_last() =~= keys.take(i as int));
                assert(first_error(keys.take(i + 1), rule) == rule(slot));
                assert(target.optional_error(state@.first) == self@.optional_error(state@.first));
                assert(target.optional_error(state@.current_aggregate) == self@.optional_error(
                    state@.current_aggregate,
                ));
                assert(target.optional_error(state@.prior_aggregate) == self@.optional_error(
                    state@.prior_aggregate,
                ));
                assert(target.register_error(state@) == self@.register_error(state@));
                if rule(slot) is Some {
                    lemma_first_error(keys, rule, i + 1);
                }
            }
            match self.validate_isr_snapshot(state) {
                Ok(()) => {},
                Err(refusal) => return Err(refusal),
            }
            i += 1;
        }
        assert(keys.take(count as int) =~= keys);
        Ok(())
    }

    fn leaders_are_known(&self, snapshot: &RecorderSnapshot<V>) -> (known: bool)
        requires
            snapshot@.cluster == self@.state.cluster,
        ensures
            known == (RecorderView { state: snapshot@, ..self@ }).leaders_known(),
    {
        let ghost target = RecorderView { state: snapshot@, ..self@ };
        let count: usize = snapshot.round_one_leaders.len();
        let ghost keys = snapshot.round_one_leaders.keys();
        let mut i: usize = 0;
        while i < count
            invariant
                i <= count == keys.len(),
                keys == snapshot.round_one_leaders.keys(),
                collections::lists(keys, snapshot@.round_one_leaders),
                snapshot@.cluster == self@.state.cluster,
                target == (RecorderView { state: snapshot@, ..self@ }),
                forall|j: int|
                    0 <= j < i ==> match snapshot@.round_one_leaders[#[trigger] keys[j]] {
                        Some(leader) => target.knows(leader),
                        None => true,
                    },
            decreases count - i,
        {
            let leader: Option<ReplicaId> = *snapshot.round_one_leaders.value_at(i);
            match leader {
                Some(id) => {
                    if !self.config.contains(id) {
                        assert(target.state.round_one_leaders.dom().contains(keys[i as int]));
                        assert(!target.knows(id));
                        return false;
                    }
                },
                None => {},
            }
            i += 1;
        }
        proof {
            assert forall|slot: SlotIndex| #[trigger]
                target.state.round_one_leaders.dom().contains(
                    slot,
                ) implies match target.state.round_one_leaders[slot] {
                Some(leader) => target.knows(leader),
                None => true,
            } by {
                let p = collections::place(keys, slot);
                assert(0 <= p < count && keys[p] == slot);
            }
        }
        true
    }

    /// Restores recorder state written by [`RecorderStateStore`]. Corrupt or
    /// cross-cluster snapshots are rejected before the recorder serves RPCs.
    pub fn restore(
        config: RecorderConfig,
        availability: A,
        snapshot: RecorderSnapshot<V>,
    ) -> (restored: Result<Self>)
        ensures
            ({
                let target = RecorderView {
                    id: config@.id,
                    limits: config@.limits,
                    state: snapshot@,
                };
                error::outcome(restored) == match target.restore_error(config@.cluster) {
                    Some(refusal) => Err::<RecorderView<V>, ErrorView>(refusal),
                    None => Ok(target),
                }
            }),
            restored matches Ok(recorder) ==> recorder.guard() == availability,
    {
        let mut recorder = Self::new(config, availability);
        proof {
            assert((RecorderView { state: snapshot@, ..recorder@ }) =~= (RecorderView {
                id: config@.id,
                limits: config@.limits,
                state: snapshot@,
            }));
        }
        match recorder.validate_snapshot(&snapshot) {
            Ok(()) => {},
            Err(refusal) => return Err(refusal),
        }
        recorder.restore_snapshot_state(snapshot);
        Ok(recorder)
    }

    /// Takes the recorder back to an earlier state of its own.
    pub(crate) fn roll_back(&mut self, snapshot: RecorderSnapshot<V>)
        ensures
            final(self).guard() == old(self).guard(),
            final(self)@ == (RecorderView { state: snapshot@, ..old(self)@ }),
    {
        self.restore_snapshot_state(snapshot);
    }

    /// Replaces the consensus state.
    fn restore_snapshot_state(&mut self, snapshot: RecorderSnapshot<V>)
        ensures
            final(self).guard() == old(self).guard(),
            final(self)@ == (RecorderView { state: snapshot@, ..old(self)@ }),
    {
        self.config.install_cluster(snapshot.cluster);
        self.slots = resume_registers(&snapshot.slots);
        self.round_one_leaders = snapshot.round_one_leaders;
        self.decisions = snapshot.decisions;
        self.pruned_through = snapshot.pruned_through;
        assert(self@ =~= (RecorderView { state: snapshot@, ..old(self)@ }));
    }

    /// The durable state.
    pub fn snapshot(&self) -> (snapshot: RecorderSnapshot<V>)
        ensures
            snapshot@ == self@.state,
    {
        let snapshot = RecorderSnapshot {
            cluster: self.config.cluster_identity().duplicate_value(),
            slots: suspend_registers(&self.slots),
            round_one_leaders: self.round_one_leaders.duplicate_value(),
            decisions: self.decisions.duplicate_value(),
            pruned_through: self.pruned_through,
        };
        assert(snapshot@ =~= self@.state);
        snapshot
    }

    pub fn id(&self) -> (id: ReplicaId)
        ensures
            id == self@.id,
    {
        self.config.id()
    }

    /// The retained decisions in slot order.
    pub fn decisions(&self) -> (list: Vec<Decision<V>>)
        ensures
            types::list_view(list@) == collections::in_order(self@.state.decisions.dom()).map_values(
                |slot: SlotIndex| self@.state.decisions[slot],
            ),
    {
        let count: usize = self.decisions.len();
        let ghost keys = self.decisions.keys();
        proof {
            collections::lemma_in_order(keys);
        }
        let mut list: Vec<Decision<V>> = Vec::new();
        let mut i: usize = 0;
        while i < count
            invariant
                i <= count == keys.len(),
                keys == self.decisions.keys(),
                list@.len() == i,
                forall|j: int|
                    0 <= j < i ==> (#[trigger] list@[j])@ == self@.state.decisions[keys[j]],
            decreases count - i,
        {
            list.push(self.decisions.value_at(i).duplicate_value());
            i += 1;
        }
        assert(types::list_view(list@) =~= keys.map_values(
            |slot: SlotIndex| self@.state.decisions[slot],
        ));
        list
    }

    /// Drops finalized state and raises the durable pruned floor.
    ///
    /// Safety contract: prune a slot only after every replica has learned its
    /// decision (or after a cluster-wide application checkpoint covering it).
    /// A proposer that still asks about a pruned slot receives
    /// [`QuePaxaError::SlotPruned`] instead of silently re-running consensus on
    /// empty state, which could otherwise decide a conflicting value.
    pub fn prune_through(&mut self, slot: SlotIndex)
        ensures
            final(self).guard() == old(self).guard(),
            final(self)@ == old(self)@.prune_through(slot),
    {
        self.slots.remove_through(&slot);
        self.round_one_leaders.remove_through(&slot);
        self.decisions.remove_through(&slot);
        if self.pruned_through.0 < slot.0 {
            self.pruned_through = slot;
        }
    }

    pub fn pruned_through(&self) -> (slot: SlotIndex)
        ensures
            slot == self@.state.pruned_through,
    {
        self.pruned_through
    }

    /// Advances this recorder to the pruning floor installed by an application
    /// state transfer. Active register and retained decision state at or below
    /// the transferred checkpoint is superseded by that checkpoint.
    pub fn install_state_transfer_floor(&mut self, slot: SlotIndex)
        ensures
            final(self).guard() == old(self).guard(),
            final(self)@ == old(self)@.prune_through(slot),
    {
        self.prune_through(slot);
    }

    /// Read-only progress probe used for hedging suppression. Reports the
    /// slot's current logical step without mutating any consensus state.
    pub fn status(&self, slot: SlotIndex) -> (step: Option<Step>)
        ensures
            step == if self@.state.slots.dom().contains(slot) {
                Some(self@.state.slots[slot].step)
            } else {
                None
            },
    {
        match self.slots.get(&slot) {
            Some(register) => Some(register.step()),
            None => None,
        }
    }

    /// Retains a decision. One at or below the pruned floor is subsumed by the
    /// checkpoint: a delayed retry is idempotent and recreates nothing.
    pub fn inform_decision(&mut self, decision: Decision<V>) -> (result: Result<()>)
        ensures
            final(self).guard() == old(self).guard(),
            (final(self)@, error::outcome(result)) == old(self)@.inform_decision(decision@),
    {
        match self.validate_decision(&decision) {
            Ok(()) => {},
            Err(refusal) => return Err(refusal),
        }
        if decision.slot.0 <= self.pruned_through.0 {
            return Ok(());
        }
        let slot: SlotIndex = decision.slot;
        match self.decisions.get(&slot) {
            Some(existing) => {
                if !same_list(existing.value_ids.as_slice(), decision.value_ids.as_slice()) {
                    return Err(QuePaxaError::ConflictingDecision { slot });
                }
                return Ok(());
            },
            None => {},
        }
        if self.decisions.len() == self.config.limits.max_decisions {
            return Err(
                QuePaxaError::ResourceLimit {
                    resource: "retained decisions",
                    limit: self.config.limits.max_decisions,
                },
            );
        }
        self.decisions.insert(slot, decision);
        assert(self@ =~= old(self)@.inform_decision(decision@).0);
        Ok(())
    }

    /// Retains decisions in order, up to the first that is refused.
    pub fn inform_decisions(&mut self, decisions: &[Decision<V>]) -> (result: Result<()>)
        ensures
            final(self).guard() == old(self).guard(),
            (final(self)@, error::outcome(result)) == old(self)@.inform_all(
                types::list_view(decisions@),
            ),
    {
        let ghost all = types::list_view(decisions@);
        let ghost start = self@;
        let mut i: usize = 0;
        while i < decisions.len()
            invariant
                i <= decisions@.len() == all.len(),
                all == types::list_view(decisions@),
                start == old(self)@,
                start.inform_all(all.take(i as int)) == (self@, Ok::<(), ErrorView>(())),
                self.guard() == old(self).guard(),
            decreases decisions@.len() - i,
        {
            proof {
                assert(all.take(i + 1).drop_last() =~= all.take(i as int));
                assert(all.take(i + 1).last() == decisions@[i as int]@);
            }
            match self.inform_decision(decisions[i].duplicate_value()) {
                Ok(()) => {},
                Err(refusal) => {
                    proof {
                        lemma_inform_stops(start, all, i + 1);
                    }
                    return Err(refusal);
                },
            }
            i += 1;
        }
        assert(all.take(i as int) =~= all);
        Ok(())
    }

    /// Installs the next stable/joint membership after the anchoring decision
    /// is durably known. Reconfiguration is a barrier: no active slot may be
    /// newer than the anchor when the transition is applied.
    pub fn install_membership(&mut self, change: MembershipChange<V>) -> (result: Result<()>)
        ensures
            final(self).guard() == old(self).guard(),
            (final(self)@, error::outcome(result)) == old(self)@.install_membership(change@),
    {
        match change.validate_binding() {
            Ok(()) => {},
            Err(refusal) => return Err(refusal),
        }
        if self.config.cluster_identity().same_cluster(&change.next) {
            return Ok(());
        }
        if !change.next.is_successor_of(self.config.cluster_identity()) {
            return Err(
                QuePaxaError::InvalidReconfiguration(
                    "membership transition does not follow the local configuration epoch".to_owned(),
                ),
            );
        }
        let slot: SlotIndex = change.anchor.slot;
        match self.decisions.get(&slot) {
            Some(anchor) => {
                if !anchor.same_decision(&change.anchor) {
                    return Err(QuePaxaError::ConflictingDecision { slot });
                }
            },
            None => {
                return Err(
                    QuePaxaError::InvalidReconfiguration(
                        "membership anchor decision is not retained by this recorder".to_owned(),
                    ),
                );
            },
        }
        if has_key_after(&self.slots, slot) || has_key_after(&self.decisions, slot) {
            return Err(
                QuePaxaError::InvalidReconfiguration(
                    "membership changes require all later consensus slots to be drained".to_owned(),
                ),
            );
        }
        self.config.install_cluster(change.next);
        assert(self@ =~= old(self)@.install_membership(change@).0);
        Ok(())
    }

    fn validate_request(&self, request: &RecordRequest<V>) -> (result: Result<()>)
        ensures
            match self@.request_error(request@) {
                Some(refusal) => result matches Err(found) && found@ == refusal,
                None => result is Ok,
            },
    {
        if !self.config.contains(request.sender) {
            return Err(QuePaxaError::InvalidSender(request.sender));
        }
        match request.round_one_leader {
            Some(leader) => {
                if !self.config.contains(leader) {
                    return Err(QuePaxaError::UnknownReplica(leader));
                }
            },
            None => {},
        }
        match self.validate_proposal(&request.proposal) {
            Ok(()) => {},
            Err(refusal) => return Err(refusal),
        }
        if request.step.0 < ROUND_ONE_PHASE_ZERO || request.step.0
            > self.config.limits.max_step.0 {
            return Err(
                QuePaxaError::InvalidStep {
                    step: request.step.0,
                    limit: self.config.limits.max_step.0,
                },
            );
        }
        if request.known_decisions.len() > self.config.limits.max_known_decisions {
            return Err(
                QuePaxaError::ResourceLimit {
                    resource: "known decisions in one request",
                    limit: self.config.limits.max_known_decisions,
                },
            );
        }
        Ok(())
    }

    /// Checks a request before its values are looked for and before anything
    /// is changed.
    pub fn check_admission(&self, request: &RecordRequest<V>) -> (result: Result<()>)
        ensures
            match self@.admission_error(request@) {
                Some(refusal) => result matches Err(found) && found@ == refusal,
                None => result is Ok,
            },
    {
        match self.validate_request(request) {
            Ok(()) => {},
            Err(refusal) => return Err(refusal),
        }
        if request.slot.0 <= self.pruned_through.0 {
            return Err(QuePaxaError::SlotPruned { slot: request.slot });
        }
        match self.round_one_leaders.get(&request.slot) {
            Some(leader) => {
                if !same_leader(*leader, request.round_one_leader) {
                    return Err(QuePaxaError::ScheduleMismatch { slot: request.slot });
                }
            },
            None => {},
        }
        Ok(())
    }

    /// Serves a request, given what the availability guard said of its values.
    pub fn record_with_availability(
        &mut self,
        request: RecordRequest<V>,
        available: Result<()>,
    ) -> (result: Result<RecordReply<V>>)
        ensures
            final(self).guard() == old(self).guard(),
            (final(self)@, error::outcome(result)) == old(self)@.record(
                request@,
                error::outcome(available),
            ),
    {
        match self.check_admission(&request) {
            Ok(()) => {},
            Err(refusal) => return Err(refusal),
        }
        match available {
            Ok(()) => {},
            Err(refusal) => return Err(refusal),
        }
        match self.inform_decisions(request.known_decisions.as_slice()) {
            Ok(()) => {},
            Err(refusal) => return Err(refusal),
        }
        let ghost informed = self@;
        let slot: SlotIndex = request.slot;
        if !self.slots.contains_key(&slot) && self.slots.len()
            == self.config.limits.max_active_slots {
            return Err(
                QuePaxaError::ResourceLimit {
                    resource: "active recorder slots",
                    limit: self.config.limits.max_active_slots,
                },
            );
        }
        if !self.round_one_leaders.contains_key(&slot) {
            self.round_one_leaders.insert(slot, request.round_one_leader);
        }
        let mut register: IntervalSummaryRegister<V> = match self.slots.remove(&slot) {
            Some(register) => register,
            None => IntervalSummaryRegister::new(),
        };
        let summary: RecordSummary<V> = register.record(request.step, request.proposal);
        self.slots.insert(slot, register);
        proof {
            let after = informed.recorded(request@);
            assert(self@.state.slots =~= after.state.slots);
            assert(self@ =~= after);
        }
        let decision: Option<Decision<V>> = match self.decisions.get(&slot) {
            Some(decision) => Some(decision.duplicate_value()),
            None => None,
        };
        Ok(
            RecordReply {
                recorder: self.config.id(),
                cluster: self.config.cluster_identity().duplicate_value(),
                summary,
                decision,
            },
        )
    }

    /// Serves a request. The availability guard is asked for the proposal's
    /// values once the request has been admitted.
    pub fn record(&mut self, request: RecordRequest<V>) -> (result: Result<RecordReply<V>>)
        ensures
            served(
                old(self)@,
                old(self).guard(),
                request@,
                final(self)@,
                final(self).guard(),
                error::outcome(result),
            ),
    {
        match self.check_admission(&request) {
            Ok(()) => {},
            Err(refusal) => return Err(refusal),
        }
        let available: Result<()> = self.availability.ensure_available(
            request.proposal.value_ids.as_slice(),
        );
        let ghost answer = error::outcome(available);
        assert(old(self).guard().provides(request@.proposal.value_ids, answer, &self.guard()));
        self.record_with_availability(request, available)
    }

    /// Records a request received over an authenticated transport. The server
    /// adapter must derive `authenticated_sender` from its peer credentials,
    /// never from request data supplied by the network.
    pub fn record_from(
        &mut self,
        authenticated_sender: ReplicaId,
        request: RecordRequest<V>,
    ) -> (result: Result<RecordReply<V>>)
        ensures
            if authenticated_sender != request.sender {
                &&& *final(self) == *old(self)
                &&& error::outcome(result) == Err::<RecordReplyView<V>, ErrorView>(
                    ErrorView::InvalidSender(request.sender),
                )
            } else {
                served(
                    old(self)@,
                    old(self).guard(),
                    request@,
                    final(self)@,
                    final(self).guard(),
                    error::outcome(result),
                )
            },
    {
        if authenticated_sender != request.sender {
            return Err(QuePaxaError::InvalidSender(request.sender));
        }
        self.record(request)
    }
}

impl<V: Key> RecorderCore<V, AllowAllAvailability> {
    /// Creates an in-memory recorder for tests only. Production callers must
    /// provide a real availability guard to `new`.
    pub fn permissive_for_tests(id: ReplicaId, members: Vec<ReplicaId>) -> (created: Result<Self>)
        ensures
            error::outcome(created) == match cluster::stable_cluster(
                0,
                members@,
                permissive_faults(members@.len()) as usize,
            ) {
                Ok(cluster) => match configured(id, cluster) {
                    Ok(config) => Ok(RecorderView::<V>::initial(config)),
                    Err(refusal) => Err(refusal),
                },
                Err(refusal) => Err(refusal),
            },
    {
        let max_faults: usize = members.len().saturating_sub(1) / 2;
        match RecorderConfig::new(id, members, max_faults) {
            Ok(config) => Ok(Self::new(config, AllowAllAvailability)),
            Err(refusal) => Err(refusal),
        }
    }
}

/// The greatest fault budget that so many voters tolerate.
pub open spec fn permissive_faults(replicas: nat) -> nat {
    if replicas == 0 {
        0
    } else {
        ((replicas - 1) / 2) as nat
    }
}

/// A refusal along a prefix of decisions is the outcome of the whole list.
proof fn lemma_inform_stops<V>(recorder: RecorderView<V>, all: Seq<DecisionView<V>>, n: int)
    requires
        0 <= n <= all.len(),
        recorder.inform_all(all.take(n)).1 is Err,
    ensures
        recorder.inform_all(all) == recorder.inform_all(all.take(n)),
    decreases all.len() - n,
{
    if n < all.len() {
        assert(all.take(n + 1).drop_last() =~= all.take(n));
        lemma_inform_stops(recorder, all, n + 1);
    } else {
        assert(all.take(n) =~= all);
    }
}

/// Whether two optional leaders are the same.
fn same_leader(a: Option<ReplicaId>, b: Option<ReplicaId>) -> (equal: bool)
    ensures
        equal == (a == b),
{
    match a {
        Some(x) => match b {
            Some(y) => x == y,
            None => false,
        },
        None => b.is_none(),
    }
}

/// Whether two maps have the same keys.
fn same_keys<T: View, U: View>(a: &OrdMap<SlotIndex, T>, b: &OrdMap<SlotIndex, U>) -> (equal: bool)
    ensures
        equal == (a@.dom() == b@.dom()),
{
    let count: usize = a.len();
    let other: usize = b.len();
    if count != other {
        return false;
    }
    let mut i: usize = 0;
    while i < count
        invariant
            i <= count == a.keys().len() == b.keys().len(),
            collections::lists(a.keys(), a@),
            collections::lists(b.keys(), b@),
            forall|j: int| 0 <= j < i ==> a.keys()[j] == b.keys()[j],
        decreases count - i,
    {
        if *a.key_at(i) != *b.key_at(i) {
            proof {
                if a@.dom() == b@.dom() {
                    collections::lemma_ascending_unique(a.keys(), b.keys());
                }
            }
            return false;
        }
        i += 1;
    }
    assert(a.keys() =~= b.keys());
    true
}

/// Whether a map has a key after `slot`.
pub fn has_key_after<T: View>(map: &OrdMap<SlotIndex, T>, slot: SlotIndex) -> (found: bool)
    ensures
        found == (exists|later: SlotIndex| map@.dom().contains(later) && later.0 > slot.0),
{
    let count: usize = map.len();
    if count == 0 {
        assert(map@.dom() =~= Set::<SlotIndex>::empty());
        return false;
    }
    let last: SlotIndex = *map.key_at(count - 1);
    proof {
        assert forall|later: SlotIndex| map@.dom().contains(later) implies later.0 <= last.0 by {
            let p = collections::place(map.keys(), later);
            assert(0 <= p < count && map.keys()[p] == later);
            if p < count - 1 {
                assert(map.keys()[p].rank() < map.keys()[count - 1].rank());
            }
        }
        assert(map@.dom().contains(last));
    }
    last.0 > slot.0
}

/// Registers that continue from their snapshots.
fn resume_registers<V: Key>(
    snapshots: &OrdMap<SlotIndex, IntervalSummarySnapshot<V>>,
) -> (registers: OrdMap<SlotIndex, IntervalSummaryRegister<V>>)
    ensures
        registers@ == snapshots@,
{
    let count: usize = snapshots.len();
    let ghost keys = snapshots.keys();
    let mut registers: OrdMap<SlotIndex, IntervalSummaryRegister<V>> = OrdMap::new();
    let mut i: usize = 0;
    assert(registers@ =~= snapshots@.restrict(keys.take(0).to_set()));
    while i < count
        invariant
            i <= count == keys.len(),
            keys == snapshots.keys(),
            collections::lists(keys, snapshots@),
            registers@ == snapshots@.restrict(keys.take(i as int).to_set()),
        decreases count - i,
    {
        let slot: SlotIndex = *snapshots.key_at(i);
        registers.insert(
            slot,
            IntervalSummaryRegister::restore(snapshots.value_at(i).duplicate_value()),
        );
        proof {
            assert(keys.take(i + 1) =~= keys.take(i as int).push(slot));
            keys.take(i as int).lemma_push_to_set_commute(slot);
            assert(registers@ =~= snapshots@.restrict(keys.take(i + 1).to_set()));
        }
        i += 1;
    }
    assert(keys.take(count as int) =~= keys);
    assert(registers@ =~= snapshots@);
    registers
}

/// Snapshots of registers.
fn suspend_registers<V: Key>(
    registers: &OrdMap<SlotIndex, IntervalSummaryRegister<V>>,
) -> (snapshots: OrdMap<SlotIndex, IntervalSummarySnapshot<V>>)
    ensures
        snapshots@ == registers@,
{
    let count: usize = registers.len();
    let ghost keys = registers.keys();
    let mut snapshots: OrdMap<SlotIndex, IntervalSummarySnapshot<V>> = OrdMap::new();
    let mut i: usize = 0;
    assert(snapshots@ =~= registers@.restrict(keys.take(0).to_set()));
    while i < count
        invariant
            i <= count == keys.len(),
            keys == registers.keys(),
            collections::lists(keys, registers@),
            snapshots@ == registers@.restrict(keys.take(i as int).to_set()),
        decreases count - i,
    {
        let slot: SlotIndex = *registers.key_at(i);
        snapshots.insert(slot, registers.value_at(i).snapshot());
        proof {
            assert(keys.take(i + 1) =~= keys.take(i as int).push(slot));
            keys.take(i as int).lemma_push_to_set_commute(slot);
            assert(snapshots@ =~= registers@.restrict(keys.take(i + 1).to_set()));
        }
        i += 1;
    }
    assert(keys.take(count as int) =~= keys);
    assert(snapshots@ =~= registers@);
    snapshots
}

} // verus!
