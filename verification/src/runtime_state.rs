//! What a replica's runtime remembers, and the rules by which it changes.

use crate::cluster::{ClusterIdentity, ClusterView, MembershipChange, MembershipChangeView};
use crate::collections;
use crate::collections::{OrdMap, OrdSet};
use crate::error;
use crate::error::{ErrorView, QuePaxaError, Result};
use crate::key::{Duplicate, Key};
use crate::ranking;
use crate::recorder;
use crate::replica::{ReplicaCore, ReplicaSnapshot, ReplicaState, ReplicaView};
use crate::schedule::{
    DelayView, EpochSchedule, EpochStat, HedgeDelayTuner, ProtocolIdentity, ReplicaRuntimeConfig,
    RuntimeConfigView, ScheduleView,
};
use crate::span::{Span, MAX_NANOS};
use crate::tuner::{EpochTuner, TunerView};
use crate::types;
use crate::types::{
    all_different, duplicate_keys, list_contains, same_list, Decision, DecisionView, ReplicaId,
    SlotIndex, Step, ROUND_ONE_PHASE_ZERO,
};
use vstd::prelude::*;

verus! {

/// Serializable state for an armed, but not yet completed, local proposal.
#[derive(Debug, PartialEq, Eq)]
pub struct PendingProposalSnapshot<V> {
    pub value_ids: Vec<V>,
}

impl<V> View for PendingProposalSnapshot<V> {
    type V = Seq<V>;

    open spec fn view(&self) -> Seq<V> {
        self.value_ids@
    }
}

impl<V: Key> Duplicate for PendingProposalSnapshot<V> {
    fn duplicate_value(&self) -> (copy: Self) {
        PendingProposalSnapshot { value_ids: duplicate_keys(self.value_ids.as_slice()) }
    }
}

impl<V: Key> Clone for PendingProposalSnapshot<V> {
    fn clone(&self) -> (copy: Self)
        ensures
            copy@ == self@,
    {
        self.duplicate_value()
    }
}

/// All state the runtime must persist atomically with its local replica log.
#[derive(Debug, PartialEq, Eq)]
pub struct RuntimeSnapshot<V: Key> {
    pub cluster: ClusterIdentity,
    pub protocol: ProtocolIdentity,
    pub replica: ReplicaSnapshot<V>,
    pub decisions: OrdMap<SlotIndex, Decision<V>>,
    pub schedules: OrdMap<u64, EpochSchedule>,
    pub pending: OrdMap<SlotIndex, PendingProposalSnapshot<V>>,
    pub executed: OrdSet<SlotIndex>,
    pub notified: OrdSet<SlotIndex>,
    pub announced_to: OrdMap<SlotIndex, OrdSet<ReplicaId>>,
    pub epoch_stats: OrdMap<u64, EpochStat>,
    pub stats_through: SlotIndex,
}

/// A snapshot with its parts as views.
#[verifier::ext_equal]
#[verifier::reject_recursive_types(V)]
pub struct SnapshotView<V> {
    pub cluster: ClusterView,
    pub protocol: ProtocolIdentity,
    pub replica: ReplicaState<V>,
    pub decisions: Map<SlotIndex, DecisionView<V>>,
    pub schedules: Map<u64, ScheduleView>,
    pub pending: Map<SlotIndex, Seq<V>>,
    pub executed: Set<SlotIndex>,
    pub notified: Set<SlotIndex>,
    pub announced_to: Map<SlotIndex, Set<ReplicaId>>,
    pub epoch_stats: Map<u64, EpochStat>,
    pub stats_through: SlotIndex,
}

impl<V: Key> View for RuntimeSnapshot<V> {
    type V = SnapshotView<V>;

    open spec fn view(&self) -> SnapshotView<V> {
        SnapshotView {
            cluster: self.cluster@,
            protocol: self.protocol,
            replica: self.replica@,
            decisions: self.decisions@,
            schedules: self.schedules@,
            pending: self.pending@,
            executed: self.executed@,
            notified: self.notified@,
            announced_to: self.announced_to@,
            epoch_stats: self.epoch_stats@,
            stats_through: self.stats_through,
        }
    }
}

impl<V: Key> Duplicate for RuntimeSnapshot<V> {
    fn duplicate_value(&self) -> (copy: Self) {
        RuntimeSnapshot {
            cluster: self.cluster.duplicate_value(),
            protocol: self.protocol,
            replica: self.replica.duplicate_value(),
            decisions: self.decisions.duplicate_value(),
            schedules: self.schedules.duplicate_value(),
            pending: self.pending.duplicate_value(),
            executed: self.executed.duplicate_value(),
            notified: self.notified.duplicate_value(),
            announced_to: self.announced_to.duplicate_value(),
            epoch_stats: self.epoch_stats.duplicate_value(),
            stats_through: self.stats_through,
        }
    }
}

impl<V: Key> Clone for RuntimeSnapshot<V> {
    fn clone(&self) -> (copy: Self)
        ensures
            copy@ == self@,
    {
        self.duplicate_value()
    }
}

/// Portable state used to bring a replica that is behind the pruning floor
/// back into the cluster. The application checkpoint and consensus snapshot
/// describe the same committed prefix.
#[derive(Debug, PartialEq, Eq)]
pub struct StateTransferSnapshot<V: Key> {
    pub through: SlotIndex,
    /// Unique batch/value IDs covered by the durable checkpoint. Batch stores
    /// consume this list directly instead of trusting callers to reconstruct a
    /// safe pruning set after consensus history has been removed.
    pub checkpointed_value_ids: Vec<V>,
    pub application_checkpoint: Vec<u8>,
    pub runtime: RuntimeSnapshot<V>,
}

/// A state transfer with its parts as views.
#[verifier::ext_equal]
#[verifier::reject_recursive_types(V)]
pub struct TransferView<V> {
    pub through: SlotIndex,
    pub checkpointed_value_ids: Seq<V>,
    pub application_checkpoint: Seq<u8>,
    pub runtime: SnapshotView<V>,
}

impl<V: Key> View for StateTransferSnapshot<V> {
    type V = TransferView<V>;

    open spec fn view(&self) -> TransferView<V> {
        TransferView {
            through: self.through,
            checkpointed_value_ids: self.checkpointed_value_ids@,
            application_checkpoint: self.application_checkpoint@,
            runtime: self.runtime@,
        }
    }
}

impl<V: Key> Duplicate for StateTransferSnapshot<V> {
    fn duplicate_value(&self) -> (copy: Self) {
        StateTransferSnapshot {
            through: self.through,
            checkpointed_value_ids: duplicate_keys(self.checkpointed_value_ids.as_slice()),
            application_checkpoint: crate::bytes::copy_bytes(
                self.application_checkpoint.as_slice(),
            ),
            runtime: self.runtime.duplicate_value(),
        }
    }
}

impl<V: Key> Clone for StateTransferSnapshot<V> {
    fn clone(&self) -> (copy: Self)
        ensures
            copy@ == self@,
    {
        self.duplicate_value()
    }
}

/// A local proposal that waits for its turn.
#[derive(Debug)]
pub struct PendingProposal<V> {
    value_ids: Vec<V>,
    /// When the proposal may start, on the caller's clock.
    ready_at: Option<Span>,
    /// Highest slot step observed while hedging. Progress since the last
    /// observation is evidence another proposer is driving the slot.
    last_observed_step: Option<Step>,
}

/// A pending proposal with its list as a sequence.
#[verifier::ext_equal]
pub struct PendingView<V> {
    pub value_ids: Seq<V>,
    pub ready_at: Option<Span>,
    pub last_observed_step: Option<Step>,
}

impl<V> PendingView<V> {
    /// A proposal without a deadline.
    pub open spec fn unarmed(value_ids: Seq<V>) -> Self {
        PendingView { value_ids, ready_at: None, last_observed_step: None }
    }
}

impl<V> View for PendingProposal<V> {
    type V = PendingView<V>;

    closed spec fn view(&self) -> PendingView<V> {
        PendingView {
            value_ids: self.value_ids@,
            ready_at: self.ready_at,
            last_observed_step: self.last_observed_step,
        }
    }
}

impl<V: Key> Duplicate for PendingProposal<V> {
    fn duplicate_value(&self) -> (copy: Self) {
        PendingProposal {
            value_ids: duplicate_keys(self.value_ids.as_slice()),
            ready_at: self.ready_at,
            last_observed_step: self.last_observed_step,
        }
    }
}

impl<V: Key> PendingProposal<V> {
    /// A proposal without a deadline.
    fn unarmed(value_ids: Vec<V>) -> (pending: Self)
        ensures
            pending@ == PendingView::unarmed(value_ids@),
    {
        PendingProposal { value_ids, ready_at: None, last_observed_step: None }
    }
}

/// Why recorder handles do not fit a runtime's membership.
pub open spec fn handles_error(ids: Seq<ReplicaId>, members: Seq<ReplicaId>) -> Option<ErrorView> {
    if !ids.no_duplicates() {
        Some(ErrorView::DuplicateReplica(ranking::duplicated_from(ids, 0)->0))
    } else if ids.to_set() != members.to_set() {
        Some(
            ErrorView::PolicyError(
                "runtime recorder handles must match the configured membership exactly"@,
            ),
        )
    } else {
        None
    }
}

/// Why recorder handles do not fit the next membership.
pub open spec fn next_handles_error(
    ids: Seq<ReplicaId>,
    members: Seq<ReplicaId>,
) -> Option<ErrorView> {
    if !ids.no_duplicates() {
        Some(
            ErrorView::InvalidReconfiguration(
                "replacement recorder handles contain duplicate identities"@,
            ),
        )
    } else if ids.to_set() != members.to_set() {
        Some(ErrorView::ConfigurationMismatch)
    } else {
        None
    }
}

/// How a received decision stands to what is known.
#[derive(Debug, Clone, Copy, PartialEq, Eq, Structural)]
pub enum Acceptance {
    /// Its slot was already checkpointed.
    Checkpointed,
    /// It is already known.
    Known,
    /// It was stored.
    New,
}

impl View for Acceptance {
    type V = Acceptance;

    open spec fn view(&self) -> Acceptance {
        *self
    }
}

/// Whether two lists hold the same elements.
pub fn same_members(a: &[ReplicaId], b: &[ReplicaId]) -> (same: bool)
    ensures
        same == (a@.to_set() == b@.to_set()),
{
    let left: OrdSet<ReplicaId> = OrdSet::from_slice(a);
    let right: OrdSet<ReplicaId> = OrdSet::from_slice(b);
    left.same_elements(&right)
}

/// Checks that recorder handles are of the members, each once.
pub fn validate_handles(ids: &[ReplicaId], members: &[ReplicaId]) -> (checked: Result<()>)
    ensures
        error::outcome(checked) == match handles_error(ids@, members@) {
            Some(refusal) => Err(refusal),
            None => Ok(()),
        },
{
    proof {
        ranking::lemma_duplicated(ids@, 0);
    }
    if ids.len() > 0 {
        match ranking::validate_order(ids) {
            Err(refusal) => return Err(refusal),
            Ok(()) => {},
        }
    }
    if !same_members(ids, members) {
        return Err(
            QuePaxaError::PolicyError(
                "runtime recorder handles must match the configured membership exactly".to_owned(),
            ),
        );
    }
    Ok(())
}

/// Checks that replacement recorder handles are of the next members, each once.
pub fn validate_next_handles(ids: &[ReplicaId], members: &[ReplicaId]) -> (checked: Result<()>)
    ensures
        error::outcome(checked) == match next_handles_error(ids@, members@) {
            Some(refusal) => Err(refusal),
            None => Ok(()),
        },
{
    if !all_different(ids) {
        return Err(
            QuePaxaError::InvalidReconfiguration(
                "replacement recorder handles contain duplicate identities".to_owned(),
            ),
        );
    }
    if !same_members(ids, members) {
        return Err(QuePaxaError::ConfigurationMismatch);
    }
    Ok(())
}

/// A runtime's state with its parts as views.
#[verifier::ext_equal]
#[verifier::reject_recursive_types(V)]
pub struct RuntimeView<V> {
    pub config: RuntimeConfigView,
    pub replica: ReplicaView<V>,
    pub decisions: Map<SlotIndex, DecisionView<V>>,
    pub tuner: TunerView,
    pub pending: Map<SlotIndex, PendingView<V>>,
    pub executed: Set<SlotIndex>,
    pub notified: Set<SlotIndex>,
    pub announced_to: Map<SlotIndex, Set<ReplicaId>>,
    pub noop_value: Option<V>,
    pub hedge: DelayView,
}

impl<V> RuntimeView<V> {
    /// The members.
    pub open spec fn members(self) -> Seq<ReplicaId> {
        self.config.cluster.members
    }

    /// The committed prefix.
    pub open spec fn committed_through(self) -> SlotIndex {
        self.replica.state.committed_through()
    }

    /// What is persisted.
    pub open spec fn snapshot(self) -> SnapshotView<V> {
        SnapshotView {
            cluster: self.config.cluster,
            protocol: self.config.identity(),
            replica: self.replica.state,
            decisions: self.decisions,
            schedules: self.tuner.schedules,
            pending: self.pending.map_values(|pending: PendingView<V>| pending.value_ids),
            executed: self.executed,
            notified: self.notified,
            announced_to: self.announced_to,
            epoch_stats: self.tuner.stats,
            stats_through: self.tuner.stats_through,
        }
    }

    /// A runtime that starts with nothing.
    pub open spec fn fresh(config: RuntimeConfigView) -> Self {
        RuntimeView {
            config,
            replica: ReplicaView::initial(config.replica),
            decisions: Map::empty(),
            tuner: TunerView::fresh(
                config.epoch_size,
                config.cluster.members,
                config.auto_schedules,
            ),
            pending: Map::empty(),
            executed: Set::empty(),
            notified: Set::empty(),
            announced_to: Map::empty(),
            noop_value: None,
            hedge: DelayView::fresh(config.base_hedge_delay, config.adaptive_hedging),
        }
    }

    /// The runtime that a snapshot is of.
    pub open spec fn resumed(config: RuntimeConfigView, snapshot: SnapshotView<V>) -> Self {
        RuntimeView {
            replica: ReplicaView { config: config.replica, state: snapshot.replica },
            decisions: snapshot.decisions,
            tuner: TunerView {
                schedules: snapshot.schedules,
                stats: snapshot.epoch_stats,
                stats_through: snapshot.stats_through,
                ..TunerView::fresh(
                    config.epoch_size,
                    config.cluster.members,
                    config.auto_schedules,
                )
            },
            pending: snapshot.pending.map_values(|values: Seq<V>| PendingView::unarmed(values)),
            executed: snapshot.executed,
            notified: snapshot.notified,
            announced_to: snapshot.announced_to,
            ..RuntimeView::fresh(config)
        }
    }

    /// Why a schedule is refused.
    pub open spec fn schedule_error(self, schedule: ScheduleView) -> Option<ErrorView> {
        if !schedule.proposers.no_duplicates() {
            Some(ErrorView::PolicyError("an epoch schedule contains duplicate proposers"@))
        } else if schedule.proposers.to_set() != self.members().to_set() {
            Some(
                ErrorView::PolicyError(
                    "an epoch schedule must contain every configured replica exactly once"@,
                ),
            )
        } else {
            None
        }
    }

    /// Why a decision is refused.
    pub open spec fn decision_error(self, decision: DecisionView<V>) -> Option<ErrorView> {
        if decision.value_ids.len() == 0 {
            Some(ErrorView::EmptyDecision)
        } else if !self.members().contains(decision.proposer) {
            Some(ErrorView::InvalidSender(decision.proposer))
        } else if !decision.value_ids.no_duplicates() {
            Some(ErrorView::InvalidProposal("decision contains duplicate value IDs"@))
        } else {
            None
        }
    }

    /// Why a pending proposal of a snapshot is refused at a restart.
    pub open spec fn pending_error(self, slot: SlotIndex) -> Option<ErrorView> {
        if self.decisions.dom().contains(slot) {
            Some(
                ErrorView::InvalidProposal(
                    "runtime snapshot has both a decision and a pending proposal for one slot"@,
                ),
            )
        } else if slot.0 <= self.committed_through().0 {
            Some(
                ErrorView::InvalidProposal(
                    "runtime snapshot has a pending proposal in the committed prefix"@,
                ),
            )
        } else {
            None
        }
    }

    /// Whether execution and notification follow decisions.
    pub open spec fn deliveries_follow_decisions(self) -> bool {
        &&& self.executed.subset_of(self.decisions.dom())
        &&& self.notified.subset_of(self.decisions.dom())
        &&& self.notified.subset_of(self.executed)
    }

    /// Whether announcements are of decisions, to members.
    pub open spec fn announcements_follow_decisions(self) -> bool {
        forall|slot: SlotIndex| #[trigger]
            self.announced_to.dom().contains(slot) ==> {
                &&& self.decisions.dom().contains(slot)
                &&& self.announced_to[slot].subset_of(self.members().to_set())
            }
    }

    /// Why deliveries or announcements of a snapshot are refused.
    pub open spec fn metadata_error(self) -> Option<ErrorView> {
        if !self.deliveries_follow_decisions() {
            Some(
                ErrorView::InvalidProposal(
                    "runtime snapshot has execution or notification metadata without a decision"@,
                ),
            )
        } else if !self.announcements_follow_decisions() {
            Some(
                ErrorView::InvalidProposal(
                    "runtime snapshot has invalid decision dissemination metadata"@,
                ),
            )
        } else {
            None
        }
    }

    /// Why state cannot be resumed at a restart.
    pub open spec fn restart_error(self) -> Option<ErrorView> {
        let schedules = recorder::first_error(
            collections::in_order(self.tuner.schedules.dom()),
            |epoch: u64| self.schedule_error(self.tuner.schedules[epoch]),
        );
        let decisions = recorder::first_error(
            collections::in_order(self.decisions.dom()),
            |slot: SlotIndex| self.decision_error(self.decisions[slot]),
        );
        let pending = recorder::first_error(
            collections::in_order(self.pending.dom()),
            |slot: SlotIndex| self.pending_error(slot),
        );
        if schedules is Some {
            schedules
        } else if decisions is Some {
            decisions
        } else if pending is Some {
            pending
        } else {
            self.metadata_error()
        }
    }

    /// Whether a transferred schedule is of the members.
    pub open spec fn schedule_fits(self, epoch: u64) -> bool {
        self.schedule_error(self.tuner.schedules[epoch]) is None
    }

    /// Why a transferred decision is refused.
    pub open spec fn transferred_decision_error(self, slot: SlotIndex) -> Option<ErrorView> {
        let decision = self.decisions[slot];
        let log = self.replica.state.log;
        if decision.value_ids.len() == 0 || !self.members().contains(decision.proposer) {
            Some(ErrorView::InvalidProposal("runtime snapshot contains an invalid decision"@))
        } else if !decision.value_ids.no_duplicates() {
            Some(ErrorView::InvalidProposal("decision contains duplicate value IDs"@))
        } else if slot != decision.slot || !(log.dom().contains(slot) && (
        log[slot].decision matches Some(stored) && stored.value_ids == decision.value_ids)) {
            Some(ErrorView::InvalidProposal("runtime decision does not match the replica log"@))
        } else {
            None
        }
    }

    /// Whether a transferred pending proposal is one.
    pub open spec fn pending_fits(self, slot: SlotIndex) -> bool {
        let log = self.replica.state.log;
        &&& !self.decisions.dom().contains(slot)
        &&& slot.0 > self.committed_through().0
        &&& log.dom().contains(slot)
        &&& log[slot].decision is None
        &&& log[slot].proposed.len() > 0
    }

    /// Why transferred state is refused.
    pub open spec fn transfer_error(self) -> Option<ErrorView> {
        let decisions = recorder::first_error(
            collections::in_order(self.decisions.dom()),
            |slot: SlotIndex| self.transferred_decision_error(slot),
        );
        if exists|epoch: u64| #[trigger]
            self.tuner.schedules.dom().contains(epoch) && !self.schedule_fits(epoch) {
            Some(
                ErrorView::PolicyError(
                    "an epoch schedule must contain every configured replica exactly once"@,
                ),
            )
        } else if decisions is Some {
            decisions
        } else if exists|slot: SlotIndex| #[trigger]
            self.pending.dom().contains(slot) && !self.pending_fits(slot) {
            Some(
                ErrorView::InvalidProposal("runtime snapshot has an invalid pending proposal"@),
            )
        } else {
            self.metadata_error()
        }
    }

    /// Why a snapshot cannot be taken up under a configuration at all.
    pub open spec fn resume_error(
        config: RuntimeConfigView,
        snapshot: SnapshotView<V>,
    ) -> Option<ErrorView> {
        let resumed = RuntimeView::resumed(config, snapshot);
        if snapshot.cluster != config.cluster || snapshot.protocol != config.identity() {
            Some(ErrorView::ConfigurationMismatch)
        } else if resumed.replica.restore_error() is Some {
            resumed.replica.restore_error()
        } else if !resumed.tuner.stats_fit() {
            Some(
                ErrorView::PolicyError(
                    "restored epoch statistics are inconsistent with the committed log"@,
                ),
            )
        } else if !resumed.tuner.schedules_fit() {
            Some(
                ErrorView::PolicyError(
                    "restored epoch schedule key does not match its epoch"@,
                ),
            )
        } else {
            None
        }
    }

    /// The runtime that starts with what a store holds, or why it does not.
    pub open spec fn start(
        config: RuntimeConfigView,
        snapshot: Option<SnapshotView<V>>,
    ) -> std::result::Result<Self, ErrorView> {
        match snapshot {
            None => Ok(RuntimeView::fresh(config)),
            Some(saved) => {
                let resumed = RuntimeView::resumed(config, saved);
                if RuntimeView::resume_error(config, saved) is Some {
                    Err(RuntimeView::resume_error(config, saved)->0)
                } else if resumed.restart_error() is Some {
                    Err(resumed.restart_error()->0)
                } else {
                    Ok(resumed)
                }
            },
        }
    }

    /// Whether every epoch has slots and every schedule has a leader.
    pub open spec fn led(self) -> bool {
        &&& self.config.epoch_size > 0
        &&& self.config.cluster.valid()
        &&& self.tuner.epoch_size == self.config.epoch_size
        &&& self.tuner.members == self.members()
        &&& forall|epoch: u64| #[trigger]
            self.tuner.schedules.dom().contains(epoch)
                ==> self.tuner.schedules[epoch].proposers.len() > 0
    }

    /// Whether every epoch has slots and every schedule is of the members.
    pub open spec fn ready(self) -> bool {
        &&& self.config.epoch_size > 0
        &&& self.config.cluster.valid()
        &&& self.tuner.epoch_size == self.config.epoch_size
        &&& self.tuner.members == self.members()
        &&& forall|epoch: u64| #[trigger]
            self.tuner.schedules.dom().contains(epoch) ==> self.schedule_fits(epoch)
    }
}

/// The state of one replica's runtime, without the stores, clocks and endpoints
/// around it.
#[derive(Debug)]
pub struct RuntimeState<V: Key> {
    config: ReplicaRuntimeConfig,
    replica: ReplicaCore<V>,
    decisions: OrdMap<SlotIndex, Decision<V>>,
    tuner: EpochTuner,
    pending: OrdMap<SlotIndex, PendingProposal<V>>,
    executed: OrdSet<SlotIndex>,
    notified: OrdSet<SlotIndex>,
    announced_to: OrdMap<SlotIndex, OrdSet<ReplicaId>>,
    noop_value: Option<V>,
    hedge: HedgeDelayTuner,
}

impl<V: Key> View for RuntimeState<V> {
    type V = RuntimeView<V>;

    closed spec fn view(&self) -> RuntimeView<V> {
        RuntimeView {
            config: self.config@,
            replica: self.replica@,
            decisions: self.decisions@,
            tuner: self.tuner@,
            pending: self.pending@,
            executed: self.executed@,
            notified: self.notified@,
            announced_to: self.announced_to@,
            noop_value: self.noop_value,
            hedge: self.hedge@,
        }
    }
}

/// The members of a runtime are listed once each, and there are some.
proof fn lemma_members<V>(view: RuntimeView<V>)
    requires
        view.config.cluster.valid(),
    ensures
        view.members().len() > 0,
        view.members().no_duplicates(),
{
    collections::lemma_ascending_distinct(view.members());
}

/// A schedule of the members has a leader.
proof fn lemma_schedule_has_leader<V>(view: RuntimeView<V>, schedule: ScheduleView)
    requires
        view.config.cluster.valid(),
        view.schedule_error(schedule) is None,
    ensures
        schedule.proposers.len() > 0,
        forall|member: ReplicaId| #[trigger]
            view.members().contains(member) == schedule.proposers.contains(member),
{
    lemma_members(view);
    assert forall|member: ReplicaId| #[trigger] view.members().contains(
        member,
    ) == schedule.proposers.contains(member) by {
        assert(view.members().to_set().contains(member) == view.members().contains(member));
        assert(schedule.proposers.to_set().contains(member) == schedule.proposers.contains(
            member,
        ));
    }
    assert(view.members().contains(view.members()[0]));
}

impl<V: Key> RuntimeState<V> {
    /// Checks that a schedule is of the members.
    fn validate_schedule(&self, schedule: &EpochSchedule) -> (checked: Result<()>)
        ensures
            error::outcome(checked) == match self@.schedule_error(schedule@) {
                Some(refusal) => Err(refusal),
                None => Ok(()),
            },
    {
        if !all_different(schedule.proposers.as_slice()) {
            return Err(
                QuePaxaError::PolicyError(
                    "an epoch schedule contains duplicate proposers".to_owned(),
                ),
            );
        }
        if !same_members(schedule.proposers.as_slice(), self.config.members()) {
            return Err(
                QuePaxaError::PolicyError(
                    "an epoch schedule must contain every configured replica exactly once".to_owned(),
                ),
            );
        }
        Ok(())
    }

    /// Checks that a decision is one that this membership can have made.
    pub fn validate_decision(&self, decision: &Decision<V>) -> (checked: Result<()>)
        ensures
            error::outcome(checked) == match self@.decision_error(decision@) {
                Some(refusal) => Err(refusal),
                None => Ok(()),
            },
    {
        if decision.value_ids.is_empty() {
            return Err(QuePaxaError::EmptyDecision);
        }
        if !list_contains(self.config.members(), &decision.proposer) {
            return Err(QuePaxaError::InvalidSender(decision.proposer));
        }
        if !all_different(decision.value_ids.as_slice()) {
            return Err(
                QuePaxaError::InvalidProposal("decision contains duplicate value IDs".to_owned()),
            );
        }
        Ok(())
    }

    /// Checks the schedules of a restart.
    fn check_schedules(&self) -> (checked: Result<()>)
        ensures
            error::outcome(checked) == match recorder::first_error(
                collections::in_order(self@.tuner.schedules.dom()),
                |epoch: u64| self@.schedule_error(self@.tuner.schedules[epoch]),
            ) {
                Some(refusal) => Err(refusal),
                None => Ok(()),
            },
    {
        let schedules: &OrdMap<u64, EpochSchedule> = self.tuner.schedules();
        let count: usize = schedules.len();
        let ghost keys = schedules.keys();
        let ghost rule = |epoch: u64| self@.schedule_error(self@.tuner.schedules[epoch]);
        proof {
            collections::lemma_in_order(keys);
            assert(keys.take(0) =~= Seq::<u64>::empty());
        }
        let mut i: usize = 0;
        while i < count
            invariant
                i <= count == keys.len(),
                keys == schedules.keys(),
                schedules@ == self@.tuner.schedules,
                collections::lists(keys, schedules@),
                keys == collections::in_order(self@.tuner.schedules.dom()),
                rule == (|epoch: u64| self@.schedule_error(self@.tuner.schedules[epoch])),
                recorder::first_error(keys.take(i as int), rule) is None,
            decreases count - i,
        {
            proof {
                assert(keys.take(i + 1).drop_last() =~= keys.take(i as int));
                assert(keys.take(i + 1).last() == keys[i as int]);
                assert(recorder::first_error(keys.take(i + 1), rule) == rule(keys[i as int]));
            }
            match self.validate_schedule(schedules.value_at(i)) {
                Err(refusal) => {
                    proof {
                        recorder::lemma_first_error(keys, rule, i + 1);
                    }
                    return Err(refusal);
                },
                Ok(()) => {},
            }
            i += 1;
        }
        assert(keys.take(i as int) =~= keys);
        Ok(())
    }

    /// Checks the decisions of a restart.
    fn check_decisions(&self) -> (checked: Result<()>)
        ensures
            error::outcome(checked) == match recorder::first_error(
                collections::in_order(self@.decisions.dom()),
                |slot: SlotIndex| self@.decision_error(self@.decisions[slot]),
            ) {
                Some(refusal) => Err(refusal),
                None => Ok(()),
            },
    {
        let count: usize = self.decisions.len();
        let ghost keys = self.decisions.keys();
        let ghost rule = |slot: SlotIndex| self@.decision_error(self@.decisions[slot]);
        proof {
            collections::lemma_in_order(keys);
            assert(keys.take(0) =~= Seq::<SlotIndex>::empty());
        }
        let mut i: usize = 0;
        while i < count
            invariant
                i <= count == keys.len(),
                keys == self.decisions.keys(),
                collections::lists(keys, self.decisions@),
                keys == collections::in_order(self@.decisions.dom()),
                rule == (|slot: SlotIndex| self@.decision_error(self@.decisions[slot])),
                recorder::first_error(keys.take(i as int), rule) is None,
            decreases count - i,
        {
            proof {
                assert(keys.take(i + 1).drop_last() =~= keys.take(i as int));
                assert(keys.take(i + 1).last() == keys[i as int]);
                assert(recorder::first_error(keys.take(i + 1), rule) == rule(keys[i as int]));
            }
            match self.validate_decision(self.decisions.value_at(i)) {
                Err(refusal) => {
                    proof {
                        recorder::lemma_first_error(keys, rule, i + 1);
                    }
                    return Err(refusal);
                },
                Ok(()) => {},
            }
            i += 1;
        }
        assert(keys.take(i as int) =~= keys);
        Ok(())
    }

    /// Checks the pending proposals of a restart.
    fn check_pending(&self) -> (checked: Result<()>)
        ensures
            error::outcome(checked) == match recorder::first_error(
                collections::in_order(self@.pending.dom()),
                |slot: SlotIndex| self@.pending_error(slot),
            ) {
                Some(refusal) => Err(refusal),
                None => Ok(()),
            },
    {
        let count: usize = self.pending.len();
        let committed: SlotIndex = self.replica.committed_through();
        let ghost keys = self.pending.keys();
        let ghost rule = |slot: SlotIndex| self@.pending_error(slot);
        proof {
            collections::lemma_in_order(keys);
            assert(keys.take(0) =~= Seq::<SlotIndex>::empty());
        }
        let mut i: usize = 0;
        while i < count
            invariant
                i <= count == keys.len(),
                keys == self.pending.keys(),
                committed == self@.committed_through(),
                collections::lists(keys, self.pending@),
                keys == collections::in_order(self@.pending.dom()),
                rule == (|slot: SlotIndex| self@.pending_error(slot)),
                recorder::first_error(keys.take(i as int), rule) is None,
            decreases count - i,
        {
            proof {
                assert(keys.take(i + 1).drop_last() =~= keys.take(i as int));
                assert(keys.take(i + 1).last() == keys[i as int]);
                assert(recorder::first_error(keys.take(i + 1), rule) == rule(keys[i as int]));
                if rule(keys[i as int]) is Some {
                    recorder::lemma_first_error(keys, rule, i + 1);
                }
            }
            let slot: SlotIndex = *self.pending.key_at(i);
            if self.decisions.contains_key(&slot) {
                return Err(
                    QuePaxaError::InvalidProposal(
                        "runtime snapshot has both a decision and a pending proposal for one slot".to_owned(),
                    ),
                );
            }
            if slot.0 <= committed.0 {
                return Err(
                    QuePaxaError::InvalidProposal(
                        "runtime snapshot has a pending proposal in the committed prefix".to_owned(),
                    ),
                );
            }
            i += 1;
        }
        assert(keys.take(i as int) =~= keys);
        Ok(())
    }

    /// Whether every element of a set of slots has a decision.
    fn all_decided(&self, slots: &OrdSet<SlotIndex>) -> (all: bool)
        ensures
            all == slots@.subset_of(self@.decisions.dom()),
    {
        let count: usize = slots.len();
        let mut i: usize = 0;
        while i < count
            invariant
                i <= count == slots.elements().len(),
                collections::lists_set(slots.elements(), slots@),
                forall|j: int|
                    0 <= j < i ==> self@.decisions.dom().contains(#[trigger] slots.elements()[j]),
            decreases count - i,
        {
            if !self.decisions.contains_key(slots.element_at(i)) {
                assert(slots@.contains(slots.elements()[i as int]));
                return false;
            }
            i += 1;
        }
        assert(slots@.subset_of(self@.decisions.dom())) by {
            assert forall|slot: SlotIndex| slots@.contains(slot) implies
                self@.decisions.dom().contains(slot) by {
                assert(slots.elements().contains(slot));
                let k = choose|k: int|
                    0 <= k < slots.elements().len() && slots.elements()[k] == slot;
                assert(slots.elements()[k] == slot);
            }
        }
        true
    }

    /// Checks that deliveries and announcements follow decisions.
    fn check_metadata(&self) -> (checked: Result<()>)
        ensures
            error::outcome(checked) == match self@.metadata_error() {
                Some(refusal) => Err(refusal),
                None => Ok(()),
            },
    {
        if !self.all_decided(&self.executed) || !self.all_decided(&self.notified)
            || !self.notified.is_subset(&self.executed) {
            return Err(
                QuePaxaError::InvalidProposal(
                    "runtime snapshot has execution or notification metadata without a decision".to_owned(),
                ),
            );
        }
        let members: OrdSet<ReplicaId> = OrdSet::from_slice(self.config.members());
        let count: usize = self.announced_to.len();
        let ghost keys = self.announced_to.keys();
        let mut i: usize = 0;
        while i < count
            invariant
                i <= count == keys.len(),
                keys == self.announced_to.keys(),
                collections::lists(keys, self.announced_to@),
                members@ == self@.members().to_set(),
                self@.deliveries_follow_decisions(),
                forall|j: int|
                    0 <= j < i ==> {
                        let slot = #[trigger] keys[j];
                        &&& self@.decisions.dom().contains(slot)
                        &&& self@.announced_to[slot].subset_of(self@.members().to_set())
                    },
            decreases count - i,
        {
            let slot: SlotIndex = *self.announced_to.key_at(i);
            if !self.decisions.contains_key(&slot) || !self.announced_to.value_at(i).is_subset(
                &members,
            ) {
                assert(self@.announced_to.dom().contains(slot));
                assert(!self@.announcements_follow_decisions());
                return Err(
                    QuePaxaError::InvalidProposal(
                        "runtime snapshot has invalid decision dissemination metadata".to_owned(),
                    ),
                );
            }
            i += 1;
        }
        assert(self@.announcements_follow_decisions()) by {
            assert forall|slot: SlotIndex| #[trigger]
                self@.announced_to.dom().contains(slot) implies {
                &&& self@.decisions.dom().contains(slot)
                &&& self@.announced_to[slot].subset_of(self@.members().to_set())
            } by {
                assert(keys.contains(slot));
                let k = choose|k: int| 0 <= k < keys.len() && keys[k] == slot;
                assert(keys[k] == slot);
            }
        }
        Ok(())
    }

    /// A runtime that starts with nothing.
    fn fresh(config: ReplicaRuntimeConfig) -> (state: Self)
        ensures
            state@ == RuntimeView::<V>::fresh(config@),
            state@.config.cluster.valid(),
    {
        let replica: ReplicaCore<V> = ReplicaCore::new(config.replica_config());
        let tuner: EpochTuner = EpochTuner::new(
            config.slots_per_epoch(),
            duplicate_keys(config.members()),
            config.auto_schedules(),
        );
        let hedge: HedgeDelayTuner = HedgeDelayTuner::new(
            config.hedge_delay(),
            config.adaptive_hedging(),
        );
        RuntimeState {
            config,
            replica,
            decisions: OrdMap::new(),
            tuner,
            pending: OrdMap::new(),
            executed: OrdSet::new(),
            notified: OrdSet::new(),
            announced_to: OrdMap::new(),
            noop_value: None,
            hedge,
        }
    }
}

/// The proposals of a snapshot, without deadlines.
fn unarmed_proposals<V: Key>(saved: &OrdMap<SlotIndex, PendingProposalSnapshot<V>>) -> (pending:
    OrdMap<SlotIndex, PendingProposal<V>>)
    ensures
        pending@ == saved@.map_values(|values: Seq<V>| PendingView::unarmed(values)),
{
    let ghost make = |values: Seq<V>| PendingView::unarmed(values);
    let count: usize = saved.len();
    let ghost keys = saved.keys();
    let mut pending: OrdMap<SlotIndex, PendingProposal<V>> = OrdMap::new();
    assert(pending@ =~= saved@.map_values(make).restrict(keys.take(0).to_set()));
    let mut i: usize = 0;
    while i < count
        invariant
            i <= count == keys.len(),
            keys == saved.keys(),
            collections::lists(keys, saved@),
            make == (|values: Seq<V>| PendingView::unarmed(values)),
            pending@ == saved@.map_values(make).restrict(keys.take(i as int).to_set()),
        decreases count - i,
    {
        let slot: SlotIndex = *saved.key_at(i);
        let values: Vec<V> = duplicate_keys(saved.value_at(i).value_ids.as_slice());
        pending.insert(slot, PendingProposal::unarmed(values));
        proof {
            assert(keys.take(i + 1) =~= keys.take(i as int).push(keys[i as int]));
            keys.take(i as int).lemma_push_to_set_commute(keys[i as int]);
            assert(pending@ =~= saved@.map_values(make).restrict(keys.take(i + 1).to_set()));
        }
        i += 1;
    }
    proof {
        assert(keys.take(count as int) =~= keys);
        assert(pending@ =~= saved@.map_values(make));
    }
    pending
}

impl<V: Key> RuntimeState<V> {
    /// The state that a snapshot is of, if it fits the configuration.
    pub fn resume(config: &ReplicaRuntimeConfig, snapshot: &RuntimeSnapshot<V>) -> (state: Result<Self>)
        ensures
            error::outcome(state) == match RuntimeView::resume_error(config@, snapshot@) {
                Some(refusal) => Err(refusal),
                None => Ok(RuntimeView::resumed(config@, snapshot@)),
            },
            state matches Ok(resumed) ==> resumed@.config.cluster.valid(),
    {
        if !snapshot.cluster.same_cluster(config.cluster_identity()) || snapshot.protocol
            != config.protocol_identity() {
            return Err(QuePaxaError::ConfigurationMismatch);
        }
        let replica: ReplicaCore<V> = match ReplicaCore::restore(
            config.replica_config(),
            snapshot.replica.duplicate_value(),
        ) {
            Ok(replica) => replica,
            Err(refusal) => return Err(refusal),
        };
        let tuner: EpochTuner = match EpochTuner::restore(
            config.slots_per_epoch(),
            duplicate_keys(config.members()),
            config.auto_schedules(),
            snapshot.schedules.duplicate_value(),
            snapshot.epoch_stats.duplicate_value(),
            snapshot.stats_through,
        ) {
            Ok(tuner) => tuner,
            Err(refusal) => return Err(refusal),
        };
        let hedge: HedgeDelayTuner = HedgeDelayTuner::new(
            config.hedge_delay(),
            config.adaptive_hedging(),
        );
        let state = RuntimeState {
            config: config.duplicate_value(),
            replica,
            decisions: snapshot.decisions.duplicate_value(),
            tuner,
            pending: unarmed_proposals(&snapshot.pending),
            executed: snapshot.executed.duplicate_value(),
            notified: snapshot.notified.duplicate_value(),
            announced_to: snapshot.announced_to.duplicate_value(),
            noop_value: None,
            hedge,
        };
        Ok(state)
    }

    /// Starts with what a store holds, if it can be resumed.
    pub fn start(config: ReplicaRuntimeConfig, snapshot: Option<RuntimeSnapshot<V>>) -> (state:
        Result<Self>)
        requires
            config@.epoch_size > 0,
        ensures
            error::outcome(state) == RuntimeView::start(config@, types::option_view(snapshot)),
            state matches Ok(started) ==> started@.ready(),
    {
        let saved: RuntimeSnapshot<V> = match snapshot {
            None => return Ok(Self::fresh(config)),
            Some(saved) => saved,
        };
        let state: Self = match Self::resume(&config, &saved) {
            Ok(state) => state,
            Err(refusal) => return Err(refusal),
        };
        match state.check_schedules() {
            Err(refusal) => return Err(refusal),
            Ok(()) => {},
        }
        match state.check_decisions() {
            Err(refusal) => return Err(refusal),
            Ok(()) => {},
        }
        match state.check_pending() {
            Err(refusal) => return Err(refusal),
            Ok(()) => {},
        }
        match state.check_metadata() {
            Err(refusal) => return Err(refusal),
            Ok(()) => {},
        }
        proof {
            let view = state@;
            crate::tuner::lemma_schedules_are_finite(state.tuner);
            let keys = collections::in_order(view.tuner.schedules.dom());
            let rule = |epoch: u64| view.schedule_error(view.tuner.schedules[epoch]);
            recorder::lemma_no_error(keys, rule);
            collections::lemma_in_order_exists(view.tuner.schedules.dom());
            assert forall|epoch: u64| #[trigger] view.tuner.schedules.dom().contains(epoch) implies
                view.schedule_fits(epoch) by {
                assert(keys.contains(epoch));
                let k = choose|k: int| 0 <= k < keys.len() && keys[k] == epoch;
                assert(rule(keys[k]) is None);
            }
        }
        Ok(state)
    }

    /// Checks that transferred decisions match the replica log.
    fn check_transferred_decisions(&self) -> (checked: Result<()>)
        ensures
            error::outcome(checked) == match recorder::first_error(
                collections::in_order(self@.decisions.dom()),
                |slot: SlotIndex| self@.transferred_decision_error(slot),
            ) {
                Some(refusal) => Err(refusal),
                None => Ok(()),
            },
    {
        let count: usize = self.decisions.len();
        let ghost keys = self.decisions.keys();
        let ghost rule = |slot: SlotIndex| self@.transferred_decision_error(slot);
        proof {
            collections::lemma_in_order(keys);
            assert(keys.take(0) =~= Seq::<SlotIndex>::empty());
        }
        let mut i: usize = 0;
        while i < count
            invariant
                i <= count == keys.len(),
                keys == self.decisions.keys(),
                collections::lists(keys, self.decisions@),
                keys == collections::in_order(self@.decisions.dom()),
                rule == (|slot: SlotIndex| self@.transferred_decision_error(slot)),
                recorder::first_error(keys.take(i as int), rule) is None,
            decreases count - i,
        {
            proof {
                assert(keys.take(i + 1).drop_last() =~= keys.take(i as int));
                assert(keys.take(i + 1).last() == keys[i as int]);
                assert(recorder::first_error(keys.take(i + 1), rule) == rule(keys[i as int]));
                if rule(keys[i as int]) is Some {
                    recorder::lemma_first_error(keys, rule, i + 1);
                }
            }
            let slot: SlotIndex = *self.decisions.key_at(i);
            let decision: &Decision<V> = self.decisions.value_at(i);
            if decision.value_ids.is_empty() || !list_contains(
                self.config.members(),
                &decision.proposer,
            ) {
                return Err(
                    QuePaxaError::InvalidProposal(
                        "runtime snapshot contains an invalid decision".to_owned(),
                    ),
                );
            }
            if !all_different(decision.value_ids.as_slice()) {
                return Err(
                    QuePaxaError::InvalidProposal(
                        "decision contains duplicate value IDs".to_owned(),
                    ),
                );
            }
            let stored = match self.replica.slot(slot) {
                Some(entry) => match &entry.decision {
                    Some(stored) => same_list(
                        stored.value_ids.as_slice(),
                        decision.value_ids.as_slice(),
                    ),
                    None => false,
                },
                None => false,
            };
            if slot != decision.slot || !stored {
                return Err(
                    QuePaxaError::InvalidProposal(
                        "runtime decision does not match the replica log".to_owned(),
                    ),
                );
            }
            i += 1;
        }
        assert(keys.take(i as int) =~= keys);
        Ok(())
    }

    /// Whether all schedules are of the members.
    fn all_schedules_fit(&self) -> (all: bool)
        ensures
            all == (forall|epoch: u64| #[trigger]
                self@.tuner.schedules.dom().contains(epoch) ==> self@.schedule_fits(epoch)),
    {
        let schedules: &OrdMap<u64, EpochSchedule> = self.tuner.schedules();
        let count: usize = schedules.len();
        let ghost keys = schedules.keys();
        let mut i: usize = 0;
        while i < count
            invariant
                i <= count == keys.len(),
                keys == schedules.keys(),
                schedules@ == self@.tuner.schedules,
                collections::lists(keys, schedules@),
                forall|j: int| 0 <= j < i ==> self@.schedule_fits(#[trigger] keys[j]),
            decreases count - i,
        {
            if self.validate_schedule(schedules.value_at(i)).is_err() {
                assert(self@.tuner.schedules.dom().contains(keys[i as int]));
                return false;
            }
            i += 1;
        }
        assert forall|epoch: u64| #[trigger] self@.tuner.schedules.dom().contains(epoch) implies
            self@.schedule_fits(epoch) by {
            assert(keys.contains(epoch));
            let k = choose|k: int| 0 <= k < keys.len() && keys[k] == epoch;
            assert(self@.schedule_fits(keys[k]));
        }
        true
    }

    /// Whether every schedule has a leader.
    pub fn all_schedules_led(&self) -> (all: bool)
        ensures
            all == (forall|epoch: u64| #[trigger]
                self@.tuner.schedules.dom().contains(epoch)
                    ==> self@.tuner.schedules[epoch].proposers.len() > 0),
    {
        let schedules: &OrdMap<u64, EpochSchedule> = self.tuner.schedules();
        let count: usize = schedules.len();
        let ghost keys = schedules.keys();
        let mut i: usize = 0;
        while i < count
            invariant
                i <= count == keys.len(),
                keys == schedules.keys(),
                schedules@ == self@.tuner.schedules,
                collections::lists(keys, schedules@),
                forall|j: int|
                    0 <= j < i ==> schedules@[#[trigger] keys[j]].proposers.len() > 0,
            decreases count - i,
        {
            if schedules.value_at(i).proposers.len() == 0 {
                assert(self@.tuner.schedules.dom().contains(keys[i as int]));
                return false;
            }
            i += 1;
        }
        assert forall|epoch: u64| #[trigger] self@.tuner.schedules.dom().contains(epoch) implies
            self@.tuner.schedules[epoch].proposers.len() > 0 by {
            assert(keys.contains(epoch));
            let k = choose|k: int| 0 <= k < keys.len() && keys[k] == epoch;
            assert(schedules@[keys[k]].proposers.len() > 0);
        }
        true
    }

    /// Whether all pending proposals are ones.
    fn all_pending_fit(&self) -> (all: bool)
        ensures
            all == (forall|slot: SlotIndex| #[trigger]
                self@.pending.dom().contains(slot) ==> self@.pending_fits(slot)),
    {
        let count: usize = self.pending.len();
        let committed: SlotIndex = self.replica.committed_through();
        let ghost keys = self.pending.keys();
        let mut i: usize = 0;
        while i < count
            invariant
                i <= count == keys.len(),
                keys == self.pending.keys(),
                committed == self@.committed_through(),
                collections::lists(keys, self.pending@),
                forall|j: int| 0 <= j < i ==> self@.pending_fits(#[trigger] keys[j]),
            decreases count - i,
        {
            let slot: SlotIndex = *self.pending.key_at(i);
            let open = match self.replica.slot(slot) {
                Some(entry) => entry.decision.is_none() && !entry.proposed.is_empty(),
                None => false,
            };
            if self.decisions.contains_key(&slot) || slot.0 <= committed.0 || !open {
                assert(self@.pending.dom().contains(slot));
                assert(!self@.pending_fits(slot));
                return false;
            }
            i += 1;
        }
        assert forall|slot: SlotIndex| #[trigger] self@.pending.dom().contains(slot) implies
            self@.pending_fits(slot) by {
            assert(keys.contains(slot));
            let k = choose|k: int| 0 <= k < keys.len() && keys[k] == slot;
            assert(self@.pending_fits(keys[k]));
        }
        true
    }

    /// Checks transferred state.
    fn check_transfer(&self) -> (checked: Result<()>)
        ensures
            error::outcome(checked) == match self@.transfer_error() {
                Some(refusal) => Err(refusal),
                None => Ok(()),
            },
    {
        if !self.all_schedules_fit() {
            return Err(
                QuePaxaError::PolicyError(
                    "an epoch schedule must contain every configured replica exactly once".to_owned(),
                ),
            );
        }
        match self.check_transferred_decisions() {
            Err(refusal) => return Err(refusal),
            Ok(()) => {},
        }
        if !self.all_pending_fit() {
            return Err(
                QuePaxaError::InvalidProposal(
                    "runtime snapshot has an invalid pending proposal".to_owned(),
                ),
            );
        }
        self.check_metadata()
    }
}

/// What a runtime does next with a committed decision.
#[derive(Debug, PartialEq, Eq)]
pub enum Delivery<V> {
    /// The state machine has not executed it yet.
    Execute(Decision<V>),
    /// The client has not been told yet.
    Notify(Decision<V>),
}

/// A delivery with its decision as a view.
#[verifier::ext_equal]
pub enum DeliveryView<V> {
    Execute(DecisionView<V>),
    Notify(DecisionView<V>),
}

impl<V> View for Delivery<V> {
    type V = DeliveryView<V>;

    open spec fn view(&self) -> DeliveryView<V> {
        match self {
            Delivery::Execute(decision) => DeliveryView::Execute(decision@),
            Delivery::Notify(decision) => DeliveryView::Notify(decision@),
        }
    }
}

impl<V> RuntimeView<V> {
    /// Queues values.
    pub open spec fn submit(self, values: Seq<V>) -> (Self, std::result::Result<(), ErrorView>) {
        let (replica, result) = self.replica.enqueue(values);
        (RuntimeView { replica, ..self }, result)
    }

    /// Installs a schedule; whether it is new.
    pub open spec fn install_schedule(self, schedule: ScheduleView) -> (
        Self,
        std::result::Result<bool, ErrorView>,
    ) {
        match self.schedule_error(schedule) {
            Some(refusal) => (self, Err(refusal)),
            None => {
                let (tuner, result) = self.tuner.install(schedule);
                (RuntimeView { tuner, ..self }, result)
            },
        }
    }

    /// Whether the pipeline is drained at exactly the anchor of a membership
    /// change.
    pub open spec fn drained_at(self, anchor: DecisionView<V>) -> bool {
        &&& self.committed_through() == anchor.slot
        &&& self.decisions.dom().contains(anchor.slot)
        &&& self.decisions[anchor.slot] == anchor
        &&& self.pending.dom() == Set::<SlotIndex>::empty()
        &&& forall|slot: SlotIndex| #[trigger]
            self.replica.state.log.dom().contains(slot) ==> slot.0 <= anchor.slot.0
    }

    /// Whether a membership change is already in force, or why it cannot be.
    pub open spec fn plan_membership(self, change: MembershipChangeView<V>) -> std::result::Result<
        bool,
        ErrorView,
    > {
        if !change.is_bound() {
            Err(crate::cluster::unbound_command())
        } else if change.next == self.config.cluster {
            Ok(true)
        } else if !change.next.follows(self.config.cluster) {
            Err(
                ErrorView::InvalidReconfiguration(
                    "membership transition does not follow the runtime configuration epoch"@,
                ),
            )
        } else if !self.drained_at(change.anchor) {
            Err(
                ErrorView::InvalidReconfiguration(
                    "membership changes require an exact committed anchor and a drained pipeline"@,
                ),
            )
        } else {
            Ok(false)
        }
    }

    /// The runtime under the next membership.
    pub open spec fn with_membership(self, next: ClusterView, anchor: SlotIndex) -> Self {
        RuntimeView {
            config: RuntimeConfigView { cluster: next, ..self.config },
            tuner: TunerView {
                members: next.members,
                schedules: Map::empty(),
                stats: Map::empty(),
                stats_through: anchor,
                ..self.tuner
            },
            announced_to: self.announced_to.map_values(
                |told: Set<ReplicaId>| told.intersect(next.members.to_set()),
            ),
            ..self
        }
    }

    /// Takes up all proposals that the pipeline has room for; whether there are
    /// any.
    pub open spec fn arm_pipeline(self) -> (Self, std::result::Result<bool, ErrorView>)
        decreases self.replica.state.pending.len(),
    {
        let (replica, next) = self.replica.next_proposal();
        match next {
            Err(refusal) => (RuntimeView { replica, ..self }, Err(refusal)),
            Ok(None) => (RuntimeView { replica, ..self }, Ok(false)),
            Ok(Some((slot, values))) => {
                let armed = RuntimeView {
                    replica,
                    pending: self.pending.insert(slot, PendingView::unarmed(values)),
                    ..self
                };
                if replica.state.pending.len() < self.replica.state.pending.len() {
                    let (after, rest) = armed.arm_pipeline();
                    (
                        after,
                        match rest {
                            Ok(_) => Ok(true),
                            Err(refusal) => Err(refusal),
                        },
                    )
                } else {
                    (armed, Ok(true))
                }
            },
        }
    }

    /// Whether a slot is neither decided nor proposed for locally.
    pub open spec fn is_open(self, slot: SlotIndex) -> bool {
        let log = self.replica.state.log;
        &&& !self.decisions.dom().contains(slot)
        &&& log.dom().contains(slot) ==> log[slot].decision is None && log[slot].proposed.len() == 0
    }

    /// Whether something after a slot is decided.
    pub open spec fn decided_after(self, slot: SlotIndex) -> bool {
        exists|later: SlotIndex| #[trigger]
            self.decisions.dom().contains(later) && later.0 > slot.0
    }

    /// Takes up a no-op for the slot that blocks the commit frontier, if one is
    /// configured, nothing else is pending and later decisions exist; whether
    /// it did.
    pub open spec fn arm_gap(self) -> (Self, std::result::Result<bool, ErrorView>) {
        let frontier = self.committed_through();
        let gap = SlotIndex((frontier.0 + 1) as u64);
        match self.noop_value {
            None => (self, Ok(false)),
            Some(noop) => if self.pending.dom() != Set::<SlotIndex>::empty() {
                (self, Ok(false))
            } else if frontier.0 == u64::MAX {
                (self, Err(ErrorView::SlotOverflow))
            } else if !self.decided_after(gap) || !self.is_open(gap) {
                (self, Ok(false))
            } else {
                let (replica, noted) = self.replica.note_proposed(gap, seq![noop]);
                match noted {
                    Err(refusal) => (RuntimeView { replica, ..self }, Err(refusal)),
                    Ok(()) => (
                        RuntimeView {
                            replica,
                            pending: self.pending.insert(gap, PendingView::unarmed(seq![noop])),
                            ..self
                        },
                        Ok(true),
                    ),
                }
            },
        }
    }

    /// Takes up all that can be proposed; whether there is anything new.
    pub open spec fn arm(self) -> (Self, std::result::Result<bool, ErrorView>) {
        match self.arm_pipeline() {
            (armed, Err(refusal)) => (armed, Err(refusal)),
            (armed, Ok(changed)) => match armed.arm_gap() {
                (filled, Err(refusal)) => (filled, Err(refusal)),
                (filled, Ok(gap)) => (filled, Ok(changed || gap)),
            },
        }
    }

    /// When a proposal may start under a schedule: each place waits one hedging
    /// delay longer.
    pub open spec fn deadline(self, schedule: ScheduleView, now: Span) -> std::result::Result<
        Span,
        ErrorView,
    > {
        let place = ranking::position(schedule.proposers, self.config.replica_id);
        let delay = self.hedge.current.nanos * place;
        if place > u32::MAX {
            Err(ErrorView::PolicyError("hedging schedule is too large for a duration"@))
        } else if delay > MAX_NANOS {
            Err(ErrorView::PolicyError("hedging delay overflowed"@))
        } else if now.nanos + delay > MAX_NANOS {
            Err(ErrorView::PolicyError("hedging deadline overflowed"@))
        } else {
            Ok(Span { nanos: (now.nanos + delay) as u128 })
        }
    }

    /// The schedule of a slot's epoch.
    pub open spec fn schedule_for(self, slot: SlotIndex) -> (
        Self,
        std::result::Result<ScheduleView, ErrorView>,
    ) {
        let (tuner, result) = self.tuner.ensure_schedule(self.config.epoch_of(slot));
        (RuntimeView { tuner, ..self }, result)
    }

    /// The pending slots without a deadline, in order.
    pub open spec fn unarmed_of(self, slots: Seq<SlotIndex>) -> Seq<SlotIndex>
        decreases slots.len(),
    {
        if slots.len() == 0 {
            Seq::empty()
        } else {
            let rest = self.unarmed_of(slots.drop_last());
            if self.pending[slots.last()].ready_at is None {
                rest.push(slots.last())
            } else {
                rest
            }
        }
    }

    /// Deadlines for slots in order, with the schedules that they take.
    pub open spec fn deadlines(self, slots: Seq<SlotIndex>, now: Span) -> (
        Self,
        std::result::Result<Seq<Span>, ErrorView>,
    )
        decreases slots.len(),
    {
        if slots.len() == 0 {
            (self, Ok(Seq::empty()))
        } else {
            match self.deadlines(slots.drop_last(), now) {
                (before, Err(refusal)) => (before, Err(refusal)),
                (before, Ok(list)) => match before.schedule_for(slots.last()) {
                    (after, Err(refusal)) => (after, Err(refusal)),
                    (after, Ok(schedule)) => match after.deadline(schedule, now) {
                        Err(refusal) => (after, Err(refusal)),
                        Ok(deadline) => (after, Ok(list.push(deadline))),
                    },
                },
            }
        }
    }

    /// The pending proposals with deadlines for slots.
    pub open spec fn with_deadlines(self, slots: Seq<SlotIndex>, list: Seq<Span>) -> Self
        decreases slots.len(),
    {
        if slots.len() == 0 {
            self
        } else {
            let before = self.with_deadlines(slots.drop_last(), list.drop_last());
            let slot = slots.last();
            RuntimeView {
                pending: before.pending.insert(
                    slot,
                    PendingView { ready_at: Some(list.last()), ..before.pending[slot] },
                ),
                ..before
            }
        }
    }

    /// Gives every pending proposal a deadline.
    pub open spec fn assign_deadlines(self, now: Span) -> (
        Self,
        std::result::Result<(), ErrorView>,
    ) {
        let slots = self.unarmed_of(collections::in_order(self.pending.dom()));
        match self.deadlines(slots, now) {
            (after, Err(refusal)) => (after, Err(refusal)),
            (after, Ok(list)) => (after.with_deadlines(slots, list), Ok(())),
        }
    }

    /// Whether the replica has a place in every schedule that deadlines are
    /// taken from. One that is no member has none.
    pub open spec fn has_its_places(self) -> bool {
        let slots = self.unarmed_of(collections::in_order(self.pending.dom()));
        ||| self.members().contains(self.config.replica_id)
        ||| slots.len() == 0
        ||| self.schedule_for(slots[0]).1 is Err
    }

    /// Whether the replica has its places once proposals are armed.
    pub open spec fn can_arm(self) -> bool {
        self.arm().1 is Ok ==> self.arm().0.has_its_places()
    }

    /// The first of the earliest deadlines of slots in order.
    pub open spec fn earliest_of(self, slots: Seq<SlotIndex>) -> Option<(SlotIndex, Span)>
        decreases slots.len(),
    {
        if slots.len() == 0 {
            None
        } else {
            let before = self.earliest_of(slots.drop_last());
            match self.pending[slots.last()].ready_at {
                None => before,
                Some(deadline) => match before {
                    Some((_, best)) => if deadline.nanos < best.nanos {
                        Some((slots.last(), deadline))
                    } else {
                        before
                    },
                    None => Some((slots.last(), deadline)),
                },
            }
        }
    }

    /// The first of the earliest deadlines.
    pub open spec fn next_deadline(self) -> Option<(SlotIndex, Span)> {
        self.earliest_of(collections::in_order(self.pending.dom()))
    }

    /// Whether an observed step shows that another proposer drives the slot.
    pub open spec fn progressed(observed: Option<Step>, before: Option<Step>) -> bool {
        match (observed, before) {
            (Some(step), None) => step.0 >= ROUND_ONE_PHASE_ZERO,
            (Some(step), Some(previous)) => step.0 > previous.0,
            (None, _) => false,
        }
    }

    /// Whether a hedging proposer looks for progress before it starts.
    pub open spec fn hedges(self, schedule: ScheduleView) -> bool {
        self.hedge.current.nanos > 0 && !(schedule.proposers.len() > 0 && schedule.leader()
            == self.config.replica_id)
    }

    /// Puts a proposal off for another hedging delay if another proposer drives
    /// the slot; whether it did.
    pub open spec fn defer(self, slot: SlotIndex, observed: Option<Step>, now: Span) -> (
        Self,
        bool,
    ) {
        let pending = self.pending[slot];
        let until = now.nanos + self.hedge.current.nanos;
        if self.pending.dom().contains(slot) && RuntimeView::<V>::progressed(
            observed,
            pending.last_observed_step,
        ) && until <= MAX_NANOS {
            (
                RuntimeView {
                    pending: self.pending.insert(
                        slot,
                        PendingView {
                            ready_at: Some(Span { nanos: until as u128 }),
                            last_observed_step: observed,
                            ..pending
                        },
                    ),
                    ..self
                },
                true,
            )
        } else {
            (self, false)
        }
    }

    /// Takes in a decision.
    pub open spec fn accept(self, decision: DecisionView<V>) -> (
        Self,
        std::result::Result<Acceptance, ErrorView>,
    ) {
        if self.decision_error(decision) is Some {
            (self, Err(self.decision_error(decision)->0))
        } else if decision.slot.0 <= self.replica.state.checkpointed_through.0 {
            (self, Ok(Acceptance::Checkpointed))
        } else if self.decisions.dom().contains(decision.slot) {
            if self.decisions[decision.slot].value_ids != decision.value_ids {
                (self, Err(ErrorView::ConflictingDecision { slot: decision.slot }))
            } else {
                (self, Ok(Acceptance::Known))
            }
        } else {
            let (replica, applied) = self.replica.apply_decision(decision);
            match applied {
                Err(refusal) => (RuntimeView { replica, ..self }, Err(refusal)),
                Ok(_) => (
                    RuntimeView {
                        replica,
                        pending: self.pending.remove(decision.slot),
                        announced_to: if self.announced_to.dom().contains(decision.slot) {
                            self.announced_to
                        } else {
                            self.announced_to.insert(decision.slot, Set::empty())
                        },
                        decisions: self.decisions.insert(decision.slot, decision),
                        ..self
                    },
                    Ok(Acceptance::New),
                ),
            }
        }
    }

    /// Stores a decision for a slot that has none, without a look at who made
    /// it.
    pub open spec fn adopt(self, decision: DecisionView<V>) -> (
        Self,
        std::result::Result<(), ErrorView>,
    ) {
        let (replica, applied) = self.replica.apply_decision(decision);
        match applied {
            Err(refusal) => (RuntimeView { replica, ..self }, Err(refusal)),
            Ok(_) => (
                RuntimeView {
                    replica,
                    pending: self.pending.remove(decision.slot),
                    decisions: self.decisions.insert(decision.slot, decision),
                    ..self
                },
                Ok(()),
            ),
        }
    }

    /// Takes up one proposal, if the pipeline has room for it.
    pub open spec fn take_proposal(self) -> (
        Self,
        std::result::Result<Option<(SlotIndex, Seq<V>)>, ErrorView>,
    ) {
        let (replica, next) = self.replica.next_proposal();
        match next {
            Ok(Some((slot, values))) => (
                RuntimeView {
                    replica,
                    pending: self.pending.insert(slot, PendingView::unarmed(values)),
                    ..self
                },
                Ok(Some((slot, values))),
            ),
            _ => (RuntimeView { replica, ..self }, next),
        }
    }

    /// Why what a checkpoint would cover is still needed.
    pub open spec fn prune_error(self, slot: SlotIndex) -> Option<ErrorView> {
        if slot.0 > self.committed_through().0 {
            Some(
                ErrorView::InvalidProposal(
                    "cannot checkpoint beyond the contiguous committed prefix"@,
                ),
            )
        } else if exists|open: SlotIndex| #[trigger]
            self.pending.dom().contains(open) && open.0 <= slot.0 {
            Some(
                ErrorView::InvalidProposal(
                    "cannot checkpoint a slot with a pending local proposal"@,
                ),
            )
        } else {
            None
        }
    }

    /// Why a transfer cannot end at a slot: what an earlier checkpoint dropped
    /// past it is not in the consensus state any more, so the two would not
    /// describe the same prefix.
    pub open spec fn floor_error(self, slot: SlotIndex) -> Option<ErrorView> {
        if slot.0 < self.replica.state.checkpointed_through.0 {
            Some(ErrorView::InvalidProposal("cannot transfer state below the pruning floor"@))
        } else {
            None
        }
    }

    /// Why a slot can be no end of a transfer.
    pub open spec fn handover_error(self, slot: SlotIndex) -> Option<ErrorView> {
        if self.floor_error(slot) is Some {
            self.floor_error(slot)
        } else {
            self.prune_error(slot)
        }
    }

    /// Feeds the decisions of slots in order into the leader statistics; whether
    /// any was new.
    pub open spec fn note_slots(self, slots: Seq<SlotIndex>) -> (
        Self,
        std::result::Result<bool, ErrorView>,
    )
        decreases slots.len(),
    {
        if slots.len() == 0 {
            (self, Ok(false))
        } else {
            match self.note_slots(slots.drop_last()) {
                (before, Err(refusal)) => (before, Err(refusal)),
                (before, Ok(changed)) => {
                    let slot = slots.last();
                    if slot.0 <= self.committed_through().0 {
                        let decision = self.decisions[slot];
                        let (tuner, noted) = before.tuner.note_committed(
                            decision.slot,
                            decision.decided_step,
                        );
                        (
                            RuntimeView { tuner, ..before },
                            match noted {
                                Ok(new) => Ok(changed || new),
                                Err(refusal) => Err(refusal),
                            },
                        )
                    } else {
                        (before, Ok(changed))
                    }
                },
            }
        }
    }

    /// Feeds all committed decisions into the leader statistics; whether any was
    /// new.
    pub open spec fn note_committed(self) -> (Self, std::result::Result<bool, ErrorView>) {
        self.note_slots(collections::in_order(self.decisions.dom()))
    }

    /// What is to be done with one committed decision.
    pub open spec fn delivery_of(self, slot: SlotIndex) -> Option<DeliveryView<V>> {
        if slot.0 > self.committed_through().0 {
            None
        } else if !self.executed.contains(self.decisions[slot].slot) {
            Some(DeliveryView::Execute(self.decisions[slot]))
        } else if !self.notified.contains(self.decisions[slot].slot) {
            Some(DeliveryView::Notify(self.decisions[slot]))
        } else {
            None
        }
    }

    /// What is to be done first with the decisions of slots in order.
    pub open spec fn first_delivery(self, slots: Seq<SlotIndex>) -> Option<DeliveryView<V>>
        decreases slots.len(),
    {
        if slots.len() == 0 {
            None
        } else {
            match self.first_delivery(slots.drop_last()) {
                Some(delivery) => Some(delivery),
                None => self.delivery_of(slots.last()),
            }
        }
    }

    /// What is to be done next with a committed decision: executed in slot
    /// order, and told to the client once executed.
    pub open spec fn next_delivery(self) -> Option<DeliveryView<V>> {
        self.first_delivery(collections::in_order(self.decisions.dom()))
    }

    /// The runtime after a delivery.
    pub open spec fn delivered(self, delivery: DeliveryView<V>) -> Self {
        match delivery {
            DeliveryView::Execute(decision) => RuntimeView {
                executed: self.executed.insert(decision.slot),
                ..self
            },
            DeliveryView::Notify(decision) => RuntimeView {
                notified: self.notified.insert(decision.slot),
                ..self
            },
        }
    }

    /// Whether a member has acknowledged a decision.
    pub open spec fn is_announced(self, slot: SlotIndex, member: ReplicaId) -> bool {
        self.announced_to.dom().contains(slot) && self.announced_to[slot].contains(member)
    }

    /// The runtime after a member has acknowledged a decision.
    pub open spec fn announced(self, slot: SlotIndex, member: ReplicaId) -> Self {
        let told = if self.announced_to.dom().contains(slot) {
            self.announced_to[slot]
        } else {
            Set::empty()
        };
        RuntimeView {
            announced_to: self.announced_to.insert(slot, told.insert(member)),
            ..self
        }
    }

    /// Whether all members have acknowledged the decision of a slot.
    pub open spec fn fully_announced(self, slot: SlotIndex) -> bool {
        self.announced_to.dom().contains(slot) && self.announced_to[slot]
            == self.members().to_set()
    }

    /// The fewest acknowledgements of a decision through a slot.
    pub open spec fn fewest_told(self, slots: Seq<SlotIndex>, through: SlotIndex) -> Option<nat>
        decreases slots.len(),
    {
        if slots.len() == 0 {
            None
        } else {
            let before = self.fewest_told(slots.drop_last(), through);
            let slot = slots.last();
            if slot.0 <= through.0 && self.announced_to.dom().contains(slot) {
                let told = self.announced_to[slot].len();
                match before {
                    Some(fewest) => if told < fewest {
                        Some(told)
                    } else {
                        before
                    },
                    None => Some(told),
                }
            } else {
                before
            }
        }
    }

    /// Why the decisions through a slot do not count as announced to all.
    pub open spec fn announcement_error(self, through: SlotIndex) -> Option<ErrorView> {
        if exists|slot: SlotIndex| #[trigger]
            self.decisions.dom().contains(slot) && slot.0 <= through.0 && !self.fully_announced(
                slot,
            ) {
            Some(
                ErrorView::QuorumNotReached {
                    needed: self.members().len() as usize,
                    received: match self.fewest_told(
                        collections::in_order(self.decisions.dom()),
                        through,
                    ) {
                        Some(fewest) => fewest as usize,
                        None => 0,
                    },
                },
            )
        } else {
            None
        }
    }

    /// Why state through a slot cannot be dropped.
    pub open spec fn checkpoint_error(self, slot: SlotIndex) -> Option<ErrorView> {
        if self.prune_error(slot) is Some {
            self.prune_error(slot)
        } else {
            self.announcement_error(slot)
        }
    }

    /// The runtime without what a checkpoint covers.
    pub open spec fn checkpointed(self, slot: SlotIndex) -> Self {
        RuntimeView {
            replica: self.replica.prune_through(slot),
            decisions: collections::after(self.decisions, slot),
            executed: self.executed.filter(|index: SlotIndex| slot.rank() < index.rank()),
            notified: self.notified.filter(|index: SlotIndex| slot.rank() < index.rank()),
            announced_to: collections::after(self.announced_to, slot),
            ..self
        }
    }

    /// The values of the decisions through a slot.
    pub open spec fn covered_values(self, slot: SlotIndex) -> Set<V> {
        Set::new(
            |value: V|
                exists|index: SlotIndex|
                    {
                        &&& #[trigger] self.decisions.dom().contains(index)
                        &&& index.0 <= slot.0
                        &&& self.decisions[index].value_ids.contains(value)
                    },
        )
    }

    /// The runtime that takes a transfer up, or why it does not.
    pub open spec fn install_transfer(self, transfer: TransferView<V>) -> std::result::Result<
        Self,
        ErrorView,
    > {
        let resumed = RuntimeView::resumed(self.config, transfer.runtime);
        if transfer.through != transfer.runtime.replica.checkpointed_through {
            Err(
                ErrorView::InvalidProposal(
                    "state-transfer checkpoint does not match the runtime pruning floor"@,
                ),
            )
        } else if RuntimeView::resume_error(self.config, transfer.runtime) is Some {
            Err(RuntimeView::resume_error(self.config, transfer.runtime)->0)
        } else if resumed.transfer_error() is Some {
            Err(resumed.transfer_error()->0)
        } else {
            Ok(RuntimeView { noop_value: self.noop_value, hedge: self.hedge, ..resumed })
        }
    }
}

/// The next proposal shortens the queue.
proof fn lemma_next_proposal_shortens<V>(replica: ReplicaView<V>)
    ensures
        replica.next_proposal().1 matches Ok(Some(_)) ==> replica.next_proposal().0.state.pending.len()
            < replica.state.pending.len(),
{
}

impl<V: Key> RuntimeState<V> {
    pub fn config(&self) -> (config: &ReplicaRuntimeConfig)
        ensures
            config@ == self@.config,
    {
        &self.config
    }

    pub fn replica(&self) -> (replica: &ReplicaCore<V>)
        ensures
            replica@ == self@.replica,
    {
        &self.replica
    }

    pub fn current_hedge_delay(&self) -> (delay: Span)
        ensures
            delay == self@.hedge.current,
    {
        self.hedge.current()
    }

    /// Takes in how long a consensus took.
    pub fn observe_consensus(&mut self, elapsed: Span)
        ensures
            final(self)@ == (RuntimeView {
                hedge: old(self)@.hedge.observe(elapsed),
                ..old(self)@
            }),
    {
        self.hedge.observe(elapsed);
    }

    /// Fills gaps with a designated no-op.
    pub fn set_noop_value(&mut self, value: V)
        ensures
            final(self)@ == (RuntimeView { noop_value: Some(value), ..old(self)@ }),
    {
        self.noop_value = Some(value);
    }

    /// The designated no-op.
    pub fn noop_value(&self) -> (value: Option<V>)
        ensures
            value == self@.noop_value,
    {
        match &self.noop_value {
            Some(noop) => Some(noop.duplicate()),
            None => None,
        }
    }

    pub fn decision(&self, slot: SlotIndex) -> (found: Option<&Decision<V>>)
        ensures
            match found {
                Some(decision) => self@.decisions.dom().contains(slot) && decision@
                    == self@.decisions[slot],
                None => !self@.decisions.dom().contains(slot),
            },
    {
        self.decisions.get(&slot)
    }

    /// The values of a slot's pending proposal.
    pub fn pending_values(&self, slot: SlotIndex) -> (found: Option<Vec<V>>)
        ensures
            match found {
                Some(values) => self@.pending.dom().contains(slot) && values@
                    == self@.pending[slot].value_ids,
                None => !self@.pending.dom().contains(slot),
            },
    {
        match self.pending.get(&slot) {
            Some(pending) => Some(duplicate_keys(pending.value_ids.as_slice())),
            None => None,
        }
    }

    /// How many proposals are pending; they are listed in slot order.
    pub fn pending_len(&self) -> (count: usize)
        ensures
            count == self@.pending.dom().len(),
            collections::lists_set(
                collections::in_order(self@.pending.dom()),
                self@.pending.dom(),
            ),
    {
        let count: usize = self.pending.len();
        proof {
            collections::lemma_in_order_exists(self@.pending.dom());
        }
        count
    }

    /// All state that is persisted.
    pub fn snapshot(&self) -> (snapshot: RuntimeSnapshot<V>)
        ensures
            snapshot@ == self@.snapshot(),
    {
        let ghost make = |pending: PendingView<V>| pending.value_ids;
        let count: usize = self.pending.len();
        let ghost keys = self.pending.keys();
        let mut pending: OrdMap<SlotIndex, PendingProposalSnapshot<V>> = OrdMap::new();
        assert(pending@ =~= self.pending@.map_values(make).restrict(keys.take(0).to_set()));
        let mut i: usize = 0;
        while i < count
            invariant
                i <= count == keys.len(),
                keys == self.pending.keys(),
                collections::lists(keys, self.pending@),
                make == (|pending: PendingView<V>| pending.value_ids),
                pending@ == self.pending@.map_values(make).restrict(keys.take(i as int).to_set()),
            decreases count - i,
        {
            let slot: SlotIndex = *self.pending.key_at(i);
            let value_ids: Vec<V> = duplicate_keys(self.pending.value_at(i).value_ids.as_slice());
            pending.insert(slot, PendingProposalSnapshot { value_ids });
            proof {
                assert(keys.take(i + 1) =~= keys.take(i as int).push(keys[i as int]));
                keys.take(i as int).lemma_push_to_set_commute(keys[i as int]);
                assert(pending@ =~= self.pending@.map_values(make).restrict(
                    keys.take(i + 1).to_set(),
                ));
            }
            i += 1;
        }
        proof {
            assert(keys.take(count as int) =~= keys);
            assert(pending@ =~= self.pending@.map_values(make));
        }
        RuntimeSnapshot {
            cluster: self.config.cluster_identity().duplicate_value(),
            protocol: self.config.protocol_identity(),
            replica: self.replica.snapshot(),
            decisions: self.decisions.duplicate_value(),
            schedules: self.tuner.schedules().duplicate_value(),
            pending,
            executed: self.executed.duplicate_value(),
            notified: self.notified.duplicate_value(),
            announced_to: self.announced_to.duplicate_value(),
            epoch_stats: self.tuner.stats().duplicate_value(),
            stats_through: self.tuner.stats_through(),
        }
    }

    /// Queues values.
    pub fn submit(&mut self, value_ids: Vec<V>) -> (result: Result<()>)
        ensures
            (final(self)@, error::outcome(result)) == old(self)@.submit(value_ids@),
    {
        self.replica.enqueue(value_ids)
    }

    /// Installs an agreed schedule; whether it is new.
    pub fn install_schedule(&mut self, schedule: EpochSchedule) -> (installed: Result<bool>)
        ensures
            (final(self)@, error::outcome(installed)) == old(self)@.install_schedule(schedule@),
            old(self)@.ready() ==> final(self)@.ready(),
            old(self)@.led() ==> final(self)@.led(),
    {
        let ghost given = schedule@;
        match self.validate_schedule(&schedule) {
            Err(refusal) => return Err(refusal),
            Ok(()) => {},
        }
        let installed: Result<bool> = self.tuner.install(schedule);
        proof {
            let before = old(self)@;
            let after = self@;
            assert(after.config == before.config);
            if before.led() {
                lemma_schedule_has_leader(before, given);
            }
            assert forall|epoch: u64| before.ready() && #[trigger]
                after.tuner.schedules.dom().contains(epoch) implies after.schedule_fits(epoch) by {
                if before.tuner.schedules.dom().contains(epoch) {
                    assert(before.schedule_fits(epoch));
                }
            }
        }
        installed
    }

    /// Whether nothing is pending.
    fn nothing_pending(&self) -> (none: bool)
        ensures
            none == (self@.pending.dom() == Set::<SlotIndex>::empty()),
    {
        let none = self.pending.is_empty();
        proof {
            if none {
                assert(self@.pending.dom() =~= Set::<SlotIndex>::empty());
            } else if self@.pending.dom() == Set::<SlotIndex>::empty() {
                assert(self@.pending =~= Map::<SlotIndex, PendingView<V>>::empty());
            }
        }
        none
    }

    /// Whether a membership change is already in force, or why it cannot be.
    pub fn plan_membership(&self, change: &MembershipChange<V>) -> (plan: Result<bool>)
        ensures
            error::outcome(plan) == self@.plan_membership(change@),
    {
        match change.validate_binding() {
            Err(refusal) => return Err(refusal),
            Ok(()) => {},
        }
        if change.next.same_cluster(self.config.cluster_identity()) {
            return Ok(true);
        }
        if !change.next.is_successor_of(self.config.cluster_identity()) {
            return Err(
                QuePaxaError::InvalidReconfiguration(
                    "membership transition does not follow the runtime configuration epoch".to_owned(),
                ),
            );
        }
        if !self.is_drained_at(&change.anchor) {
            return Err(
                QuePaxaError::InvalidReconfiguration(
                    "membership changes require an exact committed anchor and a drained pipeline".to_owned(),
                ),
            );
        }
        Ok(false)
    }

    /// Goes on under the next membership.
    pub fn install_membership(&mut self, next: ClusterIdentity, anchor: SlotIndex)
        requires
            old(self)@.led(),
        ensures
            final(self)@ == old(self)@.with_membership(next@, anchor),
            final(self)@.ready(),
            final(self)@.led(),
    {
        let active: OrdSet<ReplicaId> = OrdSet::from_slice(next.members());
        let ghost keep = |told: Set<ReplicaId>| told.intersect(next@.members.to_set());
        let count: usize = self.announced_to.len();
        let ghost keys = self.announced_to.keys();
        let mut kept: OrdMap<SlotIndex, OrdSet<ReplicaId>> = OrdMap::new();
        assert(kept@ =~= self.announced_to@.map_values(keep).restrict(keys.take(0).to_set()));
        let mut i: usize = 0;
        while i < count
            invariant
                i <= count == keys.len(),
                keys == self.announced_to.keys(),
                collections::lists(keys, self.announced_to@),
                active@ == next@.members.to_set(),
                keep == (|told: Set<ReplicaId>| told.intersect(next@.members.to_set())),
                kept@ == self.announced_to@.map_values(keep).restrict(
                    keys.take(i as int).to_set(),
                ),
                *self == *old(self),
            decreases count - i,
        {
            let slot: SlotIndex = *self.announced_to.key_at(i);
            let told: OrdSet<ReplicaId> = common_members(self.announced_to.value_at(i), &active);
            kept.insert(slot, told);
            proof {
                assert(keys.take(i + 1) =~= keys.take(i as int).push(keys[i as int]));
                keys.take(i as int).lemma_push_to_set_commute(keys[i as int]);
                assert(kept@ =~= self.announced_to@.map_values(keep).restrict(
                    keys.take(i + 1).to_set(),
                ));
            }
            i += 1;
        }
        proof {
            assert(keys.take(count as int) =~= keys);
            assert(kept@ =~= self.announced_to@.map_values(keep));
        }
        self.announced_to = kept;
        self.tuner.reconfigure(duplicate_keys(next.members()), anchor);
        self.config.install_cluster(next);
    }

    /// Takes up all proposals that the pipeline has room for.
    fn arm_pipeline(&mut self) -> (armed: Result<bool>)
        ensures
            (final(self)@, error::outcome(armed)) == old(self)@.arm_pipeline(),
        decreases old(self)@.replica.state.pending.len(),
    {
        proof {
            lemma_next_proposal_shortens(self@.replica);
        }
        match self.replica.next_proposal() {
            Err(refusal) => Err(refusal),
            Ok(None) => Ok(false),
            Ok(Some((slot, value_ids))) => {
                self.pending.insert(slot, PendingProposal::unarmed(value_ids));
                match self.arm_pipeline() {
                    Err(refusal) => Err(refusal),
                    Ok(_) => Ok(true),
                }
            },
        }
    }

    /// Whether something after a slot is decided.
    fn decided_after(&self, slot: SlotIndex) -> (found: bool)
        ensures
            found == self@.decided_after(slot),
    {
        let found = recorder::has_key_after(&self.decisions, slot);
        proof {
            if found {
                let later = choose|later: SlotIndex|
                    self.decisions@.dom().contains(later) && later.0 > slot.0;
                assert(self@.decisions.dom().contains(later));
            }
        }
        found
    }

    /// Takes up a no-op for the slot that blocks the commit frontier when later
    /// decisions exist but no client values are pending to re-drive it. The
    /// no-op waits its ordinary hedging delay, so under normal conditions the
    /// gap's original proposer or an earlier scheduled replica wins first.
    pub fn arm_gap(&mut self) -> (armed: Result<bool>)
        ensures
            (final(self)@, error::outcome(armed)) == old(self)@.arm_gap(),
            old(self)@.ready() ==> final(self)@.ready(),
            old(self)@.led() ==> final(self)@.led(),
    {
        let noop: V = match &self.noop_value {
            Some(noop) => noop.duplicate(),
            None => return Ok(false),
        };
        if !self.nothing_pending() {
            return Ok(false);
        }
        let frontier: SlotIndex = self.replica.committed_through();
        if frontier.0 == u64::MAX {
            return Err(QuePaxaError::SlotOverflow);
        }
        let gap: SlotIndex = SlotIndex(frontier.0 + 1);
        let unclaimed = match self.replica.slot(gap) {
            Some(entry) => entry.decision.is_none() && entry.proposed.is_empty(),
            None => true,
        };
        if !self.decided_after(gap) || self.decisions.contains_key(&gap) || !unclaimed {
            return Ok(false);
        }
        let mut value_ids: Vec<V> = Vec::new();
        value_ids.push(noop.duplicate());
        let mut proposed: Vec<V> = Vec::new();
        proposed.push(noop);
        assert(value_ids@ =~= seq![noop]);
        assert(proposed@ =~= seq![noop]);
        match self.replica.note_proposed(gap, value_ids) {
            Err(refusal) => return Err(refusal),
            Ok(()) => {},
        }
        self.pending.insert(gap, PendingProposal::unarmed(proposed));
        Ok(true)
    }

    /// Takes up all that can be proposed; whether there is anything new.
    pub fn arm(&mut self) -> (armed: Result<bool>)
        ensures
            (final(self)@, error::outcome(armed)) == old(self)@.arm(),
            old(self)@.ready() ==> final(self)@.ready(),
    {
        let changed = match self.arm_pipeline() {
            Err(refusal) => {
                proof {
                    lemma_arming_keeps(old(self)@);
                }
                return Err(refusal);
            },
            Ok(changed) => changed,
        };
        proof {
            lemma_arming_keeps(old(self)@);
        }
        match self.arm_gap() {
            Err(refusal) => Err(refusal),
            Ok(gap) => Ok(changed || gap),
        }
    }
}

/// The elements that two sets share.
fn common_members(a: &OrdSet<ReplicaId>, b: &OrdSet<ReplicaId>) -> (common: OrdSet<ReplicaId>)
    ensures
        common@ == a@.intersect(b@),
{
    let count: usize = a.len();
    let ghost list = a.elements();
    let mut common: OrdSet<ReplicaId> = OrdSet::new();
    assert(common@ =~= list.take(0).to_set().intersect(b@));
    let mut i: usize = 0;
    while i < count
        invariant
            i <= count == list.len(),
            list == a.elements(),
            collections::lists_set(list, a@),
            common@ == list.take(i as int).to_set().intersect(b@),
        decreases count - i,
    {
        let member: ReplicaId = *a.element_at(i);
        proof {
            assert(list.take(i + 1) =~= list.take(i as int).push(list[i as int]));
            list.take(i as int).lemma_push_to_set_commute(list[i as int]);
        }
        if b.contains(&member) {
            let added = common.insert(member);
        }
        assert(common@ =~= list.take(i + 1).to_set().intersect(b@));
        i += 1;
    }
    proof {
        assert(list.take(count as int) =~= list);
        assert(common@ =~= a@.intersect(b@));
    }
    common
}

/// Taking up proposals leaves configuration and schedules as they are.
pub proof fn lemma_arming_keeps<V>(view: RuntimeView<V>)
    ensures
        view.arm_pipeline().0.config == view.config,
        view.arm_pipeline().0.tuner == view.tuner,
        view.arm_pipeline().0.decisions == view.decisions,
        view.arm_pipeline().0.hedge == view.hedge,
        view.arm_pipeline().0.noop_value == view.noop_value,
    decreases view.replica.state.pending.len(),
{
    let (replica, next) = view.replica.next_proposal();
    match next {
        Ok(Some((slot, values))) => {
            if replica.state.pending.len() < view.replica.state.pending.len() {
                let armed = RuntimeView {
                    replica,
                    pending: view.pending.insert(slot, PendingView::unarmed(values)),
                    ..view
                };
                lemma_arming_keeps(armed);
            }
        },
        _ => {},
    }
}

impl<V: Key> RuntimeState<V> {
    /// The schedule of a slot's epoch.
    pub fn schedule_for(&mut self, slot: SlotIndex) -> (schedule: Result<EpochSchedule>)
        requires
            old(self)@.led(),
        ensures
            (final(self)@, error::outcome(schedule)) == old(self)@.schedule_for(slot),
            final(self)@.led(),
            old(self)@.ready() ==> final(self)@.ready(),
            schedule matches Ok(found) ==> found@.proposers.len() > 0,
            old(self)@.ready() ==> (schedule matches Ok(found) ==> final(self)@.schedule_error(
                found@,
            ) is None),
    {
        let epoch: u64 = self.config.epoch_for(slot);
        proof {
            let view = self@;
            lemma_members(view);
            crate::tuner_laws::derived_schedules_hold_every_member(view.tuner, epoch);
        }
        let schedule: Result<EpochSchedule> = self.tuner.ensure_schedule(epoch);
        proof {
            let before = old(self)@;
            let after = self@;
            assert(after.config == before.config);
            assert forall|other: u64| before.ready() && #[trigger]
                after.tuner.schedules.dom().contains(other) implies after.schedule_fits(other) by {
                if before.tuner.schedules.dom().contains(other) {
                    assert(before.schedule_fits(other));
                }
            }
            if before.ready() && schedule is Ok {
                if before.tuner.schedules.dom().contains(epoch) {
                    assert(before.schedule_fits(epoch));
                }
            }
        }
        schedule
    }

    /// When a proposal may start under a schedule.
    fn deadline(&self, schedule: &EpochSchedule, now: Span) -> (deadline: Result<Span>)
        requires
            schedule@.proposers.contains(self@.config.replica_id),
        ensures
            error::outcome(deadline) == self@.deadline(schedule@, now),
    {
        let place: usize = match ranking::find_position(
            schedule.proposers.as_slice(),
            self.config.replica_id(),
        ) {
            Some(place) => place,
            None => 0,
        };
        if place > u32::MAX as usize {
            return Err(
                QuePaxaError::PolicyError(
                    "hedging schedule is too large for a duration".to_owned(),
                ),
            );
        }
        let delay: Span = match self.hedge.current().checked_mul(place as u32) {
            Some(delay) => delay,
            None => return Err(QuePaxaError::PolicyError("hedging delay overflowed".to_owned())),
        };
        match now.checked_plus(delay) {
            Some(deadline) => Ok(deadline),
            None => Err(QuePaxaError::PolicyError("hedging deadline overflowed".to_owned())),
        }
    }

    /// Gives every pending proposal a deadline from its agreed schedule.
    pub fn assign_deadlines(&mut self, now: Span) -> (assigned: Result<()>)
        requires
            old(self)@.ready(),
            old(self)@.has_its_places(),
        ensures
            (final(self)@, error::outcome(assigned)) == old(self)@.assign_deadlines(now),
            final(self)@.ready(),
    {
        let slots: Vec<SlotIndex> = self.unarmed_slots();
        let mut list: Vec<Span> = Vec::new();
        let ghost start = self@;
        assert(slots@.take(0) =~= Seq::<SlotIndex>::empty());
        let mut i: usize = 0;
        while i < slots.len()
            invariant
                i <= slots@.len(),
                self@.ready(),
                self@.config == start.config,
                self@.hedge == start.hedge,
                start.has_its_places(),
                i > 0 ==> self@.members().contains(self@.config.replica_id),
                start == old(self)@,
                slots@ == start.unarmed_of(collections::in_order(start.pending.dom())),
                start.deadlines(slots@.take(i as int), now) == (self@, Ok::<
                    Seq<Span>,
                    ErrorView,
                >(list@)),
                list@.len() == i,
            decreases slots@.len() - i,
        {
            proof {
                assert(slots@.take(i + 1).drop_last() =~= slots@.take(i as int));
                assert(slots@.take(i + 1).last() == slots@[i as int]);
            }
            proof {
                lemma_ready_is_led(self@);
            }
            let schedule: EpochSchedule = match self.schedule_for(slots[i]) {
                Ok(schedule) => schedule,
                Err(refusal) => {
                    proof {
                        lemma_deadlines_stop(start, slots@, now, i + 1);
                    }
                    return Err(refusal);
                },
            };
            proof {
                lemma_schedule_has_leader(self@, schedule@);
            }
            let deadline: Span = match self.deadline(&schedule, now) {
                Ok(deadline) => deadline,
                Err(refusal) => {
                    proof {
                        lemma_deadlines_stop(start, slots@, now, i + 1);
                    }
                    return Err(refusal);
                },
            };
            list.push(deadline);
            i += 1;
        }
        assert(slots@.take(i as int) =~= slots@);
        let ghost scheduled = self@;
        proof {
            lemma_deadlines_keep(start, slots@, now);
            assert(slots@.take(0) =~= Seq::<SlotIndex>::empty());
        }
        let mut i: usize = 0;
        while i < slots.len()
            invariant
                i <= slots@.len() == list@.len(),
                self@ == scheduled.with_deadlines(slots@.take(i as int), list@.take(i as int)),
                scheduled.ready(),
                self@.ready(),
                self@.config == scheduled.config,
                self@.tuner == scheduled.tuner,
                scheduled.pending == start.pending,
                forall|slot: SlotIndex|
                    start.pending.dom().contains(slot) ==> #[trigger] self@.pending.dom().contains(
                        slot,
                    ),
                forall|k: int|
                    0 <= k < slots@.len() ==> start.pending.dom().contains(#[trigger] slots@[k]),
            decreases slots@.len() - i,
        {
            proof {
                assert(slots@.take(i + 1).drop_last() =~= slots@.take(i as int));
                assert(slots@.take(i + 1).last() == slots@[i as int]);
                assert(list@.take(i + 1).drop_last() =~= list@.take(i as int));
                assert(list@.take(i + 1).last() == list@[i as int]);
                assert(self@.pending.dom().contains(slots@[i as int]));
            }
            let slot: SlotIndex = slots[i];
            match self.pending.get(&slot) {
                Some(pending) => {
                    let mut armed: PendingProposal<V> = pending.duplicate_value();
                    armed.ready_at = Some(list[i]);
                    self.pending.insert(slot, armed);
                },
                None => {},
            }
            i += 1;
        }
        assert(slots@.take(i as int) =~= slots@);
        assert(list@.take(i as int) =~= list@);
        Ok(())
    }

    /// Whether the replica has its places once proposals are armed.
    pub fn can_arm(&self) -> (can: bool)
        requires
            self@.ready(),
        ensures
            can == self@.can_arm(),
    {
        let mut armed: RuntimeState<V> = self.duplicate_value();
        match armed.arm() {
            Err(_) => return true,
            Ok(_) => {},
        }
        if list_contains(armed.config.members(), &armed.config.replica_id()) {
            return true;
        }
        let slots: Vec<SlotIndex> = armed.unarmed_slots();
        if slots.len() == 0 {
            return true;
        }
        proof {
            lemma_arming_keeps(self@);
        }
        proof {
            lemma_ready_is_led(armed@);
        }
        armed.schedule_for(slots[0]).is_err()
    }

    /// The pending slots without a deadline, in order.
    fn unarmed_slots(&self) -> (slots: Vec<SlotIndex>)
        ensures
            slots@ == self@.unarmed_of(collections::in_order(self@.pending.dom())),
            forall|k: int|
                0 <= k < slots@.len() ==> self@.pending.dom().contains(#[trigger] slots@[k]),
    {
        let count: usize = self.pending.len();
        let ghost keys = self.pending.keys();
        proof {
            collections::lemma_in_order(keys);
            assert(keys.take(0) =~= Seq::<SlotIndex>::empty());
        }
        let mut slots: Vec<SlotIndex> = Vec::new();
        let mut i: usize = 0;
        while i < count
            invariant
                i <= count == keys.len(),
                keys == self.pending.keys(),
                collections::lists(keys, self.pending@),
                slots@ == self@.unarmed_of(keys.take(i as int)),
                forall|k: int|
                    0 <= k < slots@.len() ==> self@.pending.dom().contains(#[trigger] slots@[k]),
            decreases count - i,
        {
            proof {
                assert(keys.take(i + 1).drop_last() =~= keys.take(i as int));
                assert(keys.take(i + 1).last() == keys[i as int]);
            }
            if self.pending.value_at(i).ready_at.is_none() {
                slots.push(*self.pending.key_at(i));
            }
            i += 1;
        }
        assert(keys.take(i as int) =~= keys);
        slots
    }

    /// The first of the earliest deadlines.
    pub fn next_deadline(&self) -> (next: Option<(SlotIndex, Span)>)
        ensures
            next == self@.next_deadline(),
    {
        let count: usize = self.pending.len();
        let ghost keys = self.pending.keys();
        proof {
            collections::lemma_in_order(keys);
            assert(keys.take(0) =~= Seq::<SlotIndex>::empty());
        }
        let mut next: Option<(SlotIndex, Span)> = None;
        let mut i: usize = 0;
        while i < count
            invariant
                i <= count == keys.len(),
                keys == self.pending.keys(),
                collections::lists(keys, self.pending@),
                next == self@.earliest_of(keys.take(i as int)),
            decreases count - i,
        {
            proof {
                assert(keys.take(i + 1).drop_last() =~= keys.take(i as int));
                assert(keys.take(i + 1).last() == keys[i as int]);
            }
            match self.pending.value_at(i).ready_at {
                Some(deadline) => {
                    let slot: SlotIndex = *self.pending.key_at(i);
                    next = match next {
                        Some((held, best)) => if deadline.nanos < best.nanos {
                            Some((slot, deadline))
                        } else {
                            Some((held, best))
                        },
                        None => Some((slot, deadline)),
                    };
                },
                None => {},
            }
            i += 1;
        }
        assert(keys.take(i as int) =~= keys);
        next
    }

    /// Whether this replica looks for progress before it proposes under a
    /// schedule.
    pub fn hedges(&self, schedule: &EpochSchedule) -> (hedges: bool)
        ensures
            hedges == self@.hedges(schedule@),
    {
        if self.hedge.current().is_zero() {
            return false;
        }
        !(schedule.proposers.len() > 0 && schedule.proposers[0] == self.config.replica_id())
    }

    /// Puts a proposal off for another hedging delay if another proposer
    /// observably drives the slot; whether it did.
    pub fn defer(&mut self, slot: SlotIndex, observed: Option<Step>, now: Span) -> (deferred: bool)
        ensures
            (final(self)@, deferred) == old(self)@.defer(slot, observed, now),
            old(self)@.ready() ==> final(self)@.ready(),
    {
        let pending: PendingProposal<V> = match self.pending.get(&slot) {
            Some(pending) => pending.duplicate_value(),
            None => return false,
        };
        let progressed = match (observed, pending.last_observed_step) {
            (Some(step), None) => step.0 >= ROUND_ONE_PHASE_ZERO,
            (Some(step), Some(previous)) => step.0 > previous.0,
            (None, _) => false,
        };
        if !progressed {
            return false;
        }
        match now.checked_plus(self.hedge.current()) {
            Some(until) => {
                let mut put_off: PendingProposal<V> = pending;
                put_off.ready_at = Some(until);
                put_off.last_observed_step = observed;
                self.pending.insert(slot, put_off);
                true
            },
            None => false,
        }
    }
}

/// What is armed does not depend on acknowledgements.
proof fn lemma_arming_ignores_acknowledgements<V>(view: RuntimeView<V>, after: RuntimeView<V>)
    requires
        after == (RuntimeView { announced_to: after.announced_to, ..view }),
    ensures
        after.arm_pipeline() == (
            RuntimeView { announced_to: after.announced_to, ..view.arm_pipeline().0 },
            view.arm_pipeline().1,
        ),
    decreases view.replica.state.pending.len(),
{
    let (replica, next) = view.replica.next_proposal();
    match next {
        Ok(Some((slot, values))) => {
            let armed = RuntimeView {
                replica,
                pending: view.pending.insert(slot, PendingView::unarmed(values)),
                ..view
            };
            let armed_after = RuntimeView {
                replica,
                pending: after.pending.insert(slot, PendingView::unarmed(values)),
                ..after
            };
            if replica.state.pending.len() < view.replica.state.pending.len() {
                lemma_arming_ignores_acknowledgements(armed, armed_after);
            }
        },
        _ => {},
    }
}

/// The slots without a deadline are those of the pending proposals.
proof fn lemma_unarmed_ignores_the_rest<V>(
    view: RuntimeView<V>,
    after: RuntimeView<V>,
    slots: Seq<SlotIndex>,
)
    requires
        after.pending == view.pending,
    ensures
        after.unarmed_of(slots) == view.unarmed_of(slots),
    decreases slots.len(),
{
    if slots.len() > 0 {
        lemma_unarmed_ignores_the_rest(view, after, slots.drop_last());
    }
}

/// Whether a replica has its places does not depend on acknowledgements.
pub proof fn lemma_places_ignore_acknowledgements<V>(view: RuntimeView<V>, after: RuntimeView<V>)
    requires
        after == (RuntimeView { announced_to: after.announced_to, ..view }),
    ensures
        after.can_arm() == view.can_arm(),
{
    lemma_arming_ignores_acknowledgements(view, after);
    let armed = view.arm().0;
    let armed_after = after.arm().0;
    lemma_unarmed_ignores_the_rest(
        armed,
        armed_after,
        collections::in_order(armed.pending.dom()),
    );
}

/// Deadlines stop at the first slot that has none.
proof fn lemma_deadlines_stop<V>(
    view: RuntimeView<V>,
    slots: Seq<SlotIndex>,
    now: Span,
    n: int,
)
    requires
        0 <= n <= slots.len(),
        view.deadlines(slots.take(n), now).1 is Err,
    ensures
        view.deadlines(slots, now) == view.deadlines(slots.take(n), now),
    decreases slots.len() - n,
{
    if n < slots.len() {
        assert(slots.take(n + 1).drop_last() =~= slots.take(n));
        lemma_deadlines_stop(view, slots, now, n + 1);
    } else {
        assert(slots.take(n) =~= slots);
    }
}

/// Looking deadlines up changes schedules only.
pub proof fn lemma_deadlines_keep<V>(view: RuntimeView<V>, slots: Seq<SlotIndex>, now: Span)
    ensures
        view.deadlines(slots, now).0 == (RuntimeView {
            tuner: view.deadlines(slots, now).0.tuner,
            ..view
        }),
    decreases slots.len(),
{
    if slots.len() > 0 {
        lemma_deadlines_keep(view, slots.drop_last(), now);
    }
}

impl<V: Key> RuntimeState<V> {
    /// Takes in a decision.
    pub fn accept(&mut self, decision: &Decision<V>) -> (accepted: Result<Acceptance>)
        ensures
            (final(self)@, error::outcome(accepted)) == old(self)@.accept(decision@),
            old(self)@.ready() ==> final(self)@.ready(),
    {
        match self.validate_decision(decision) {
            Err(refusal) => return Err(refusal),
            Ok(()) => {},
        }
        if decision.slot.0 <= self.replica.checkpointed_through().0 {
            return Ok(Acceptance::Checkpointed);
        }
        match self.decisions.get(&decision.slot) {
            Some(existing) => {
                if !same_list(existing.value_ids.as_slice(), decision.value_ids.as_slice()) {
                    return Err(QuePaxaError::ConflictingDecision { slot: decision.slot });
                }
                return Ok(Acceptance::Known);
            },
            None => {},
        }
        match self.replica.apply_decision(decision.duplicate_value()) {
            Err(refusal) => return Err(refusal),
            Ok(_) => {},
        }
        let removed = self.pending.remove(&decision.slot);
        if !self.announced_to.contains_key(&decision.slot) {
            self.announced_to.insert(decision.slot, OrdSet::new());
        }
        self.decisions.insert(decision.slot, decision.duplicate_value());
        Ok(Acceptance::New)
    }

    /// Stores a decision for a slot that has none, without a look at who made
    /// it.
    pub fn adopt(&mut self, decision: &Decision<V>) -> (adopted: Result<()>)
        ensures
            (final(self)@, error::outcome(adopted)) == old(self)@.adopt(decision@),
            old(self)@.ready() ==> final(self)@.ready(),
            old(self)@.led() ==> final(self)@.led(),
    {
        match self.replica.apply_decision(decision.duplicate_value()) {
            Err(refusal) => return Err(refusal),
            Ok(_) => {},
        }
        let _ = self.pending.remove(&decision.slot);
        self.decisions.insert(decision.slot, decision.duplicate_value());
        Ok(())
    }

    /// Takes up one proposal, if the pipeline has room for it.
    pub fn take_proposal(&mut self) -> (taken: Result<Option<(SlotIndex, Vec<V>)>>)
        ensures
            final(self)@ == old(self)@.take_proposal().0,
            match taken {
                Err(refusal) => old(self)@.take_proposal().1 == Err::<
                    Option<(SlotIndex, Seq<V>)>,
                    ErrorView,
                >(refusal@),
                Ok(None) => old(self)@.take_proposal().1 == Ok::<
                    Option<(SlotIndex, Seq<V>)>,
                    ErrorView,
                >(None),
                Ok(Some((slot, values))) => old(self)@.take_proposal().1 == Ok::<
                    Option<(SlotIndex, Seq<V>)>,
                    ErrorView,
                >(Some((slot, values@))),
            },
            old(self)@.ready() ==> final(self)@.ready(),
            old(self)@.led() ==> final(self)@.led(),
    {
        match self.replica.next_proposal() {
            Err(refusal) => Err(refusal),
            Ok(None) => Ok(None),
            Ok(Some((slot, value_ids))) => {
                self.pending.insert(
                    slot,
                    PendingProposal::unarmed(duplicate_keys(value_ids.as_slice())),
                );
                Ok(Some((slot, value_ids)))
            },
        }
    }

    /// The slot of the pending proposal at a place in slot order.
    pub fn pending_slot_at(&self, i: usize) -> (slot: Option<SlotIndex>)
        ensures
            match slot {
                Some(found) => i < collections::in_order(self@.pending.dom()).len() && found
                    == collections::in_order(self@.pending.dom())[i as int],
                None => i >= collections::in_order(self@.pending.dom()).len(),
            },
    {
        let count: usize = self.pending.len();
        proof {
            collections::lemma_in_order(self.pending.keys());
        }
        if i < count {
            Some(*self.pending.key_at(i))
        } else {
            None
        }
    }

    /// Whether a decision was executed.
    pub fn is_executed(&self, slot: SlotIndex) -> (executed: bool)
        ensures
            executed == self@.executed.contains(slot),
    {
        self.executed.contains(&slot)
    }

    /// The slots whose decisions were executed.
    pub fn executed_slots(&self) -> (slots: Vec<SlotIndex>)
        ensures
            collections::lists_set(slots@, self@.executed),
    {
        self.executed.to_vec()
    }

    /// Whether the pipeline is drained at exactly the anchor of a membership
    /// change.
    pub fn is_drained_at(&self, anchor: &Decision<V>) -> (drained: bool)
        ensures
            drained == self@.drained_at(anchor@),
    {
        let anchored = match self.decisions.get(&anchor.slot) {
            Some(decision) => decision.same_decision(anchor),
            None => false,
        };
        self.replica.committed_through() == anchor.slot && anchored && self.nothing_pending()
            && !self.replica.has_slot_after(anchor.slot)
    }

    /// Feeds all committed decisions into the leader statistics; whether any was
    /// new. This comes before execution so every replica derives future
    /// schedules from the same committed prefix.
    pub fn note_committed(&mut self) -> (noted: Result<bool>)
        requires
            old(self)@.led(),
        ensures
            (final(self)@, error::outcome(noted)) == old(self)@.note_committed(),
            final(self)@.led(),
            old(self)@.ready() ==> final(self)@.ready(),
    {
        let committed: SlotIndex = self.replica.committed_through();
        let count: usize = self.decisions.len();
        let ghost keys = self.decisions.keys();
        let ghost start = self@;
        proof {
            collections::lemma_in_order(keys);
            assert(keys.take(0) =~= Seq::<SlotIndex>::empty());
        }
        let mut changed = false;
        let mut i: usize = 0;
        while i < count
            invariant
                i <= count == keys.len(),
                keys == self.decisions.keys(),
                collections::lists(keys, self.decisions@),
                keys == collections::in_order(start.decisions.dom()),
                committed == start.committed_through(),
                start == old(self)@,
                self@.led(),
                start.ready() ==> self@.ready(),
                self@ == (RuntimeView { tuner: self@.tuner, ..start }),
                start.note_slots(keys.take(i as int)) == (self@, Ok::<bool, ErrorView>(changed)),
            decreases count - i,
        {
            proof {
                assert(keys.take(i + 1).drop_last() =~= keys.take(i as int));
                assert(keys.take(i + 1).last() == keys[i as int]);
            }
            let slot: SlotIndex = *self.decisions.key_at(i);
            if slot.0 <= committed.0 {
                let decision: &Decision<V> = self.decisions.value_at(i);
                let (decided, step): (SlotIndex, Step) = (decision.slot, decision.decided_step);
                let ghost before = self@;
                proof {
                    lemma_tuner_usable(before);
                    assert(self.tuner.usable());
                }
                let noted: Result<bool> = self.tuner.note_committed(decided, step);
                proof {
                    lemma_note_keeps_led(before, decided, step, self@);
                }
                match noted {
                    Ok(new) => {
                        changed = changed || new;
                    },
                    Err(refusal) => {
                        proof {
                            lemma_note_stops(start, keys, i + 1);
                        }
                        return Err(refusal);
                    },
                }
            }
            i += 1;
        }
        assert(keys.take(i as int) =~= keys);
        Ok(changed)
    }

    /// What is to be done next with a committed decision.
    pub fn next_delivery(&self) -> (next: Option<Delivery<V>>)
        ensures
            types::option_view(next) == self@.next_delivery(),
    {
        let committed: SlotIndex = self.replica.committed_through();
        let count: usize = self.decisions.len();
        let ghost keys = self.decisions.keys();
        proof {
            collections::lemma_in_order(keys);
            assert(keys.take(0) =~= Seq::<SlotIndex>::empty());
        }
        let mut i: usize = 0;
        while i < count
            invariant
                i <= count == keys.len(),
                keys == self.decisions.keys(),
                collections::lists(keys, self.decisions@),
                keys == collections::in_order(self@.decisions.dom()),
                committed == self@.committed_through(),
                self@.first_delivery(keys.take(i as int)) is None,
            decreases count - i,
        {
            proof {
                assert(keys.take(i + 1).drop_last() =~= keys.take(i as int));
                assert(keys.take(i + 1).last() == keys[i as int]);
                assert(self@.first_delivery(keys.take(i + 1)) == self@.delivery_of(
                    keys[i as int],
                ));
                if self@.delivery_of(keys[i as int]) is Some {
                    lemma_first_delivery(self@, keys, i + 1);
                }
            }
            let slot: SlotIndex = *self.decisions.key_at(i);
            if slot.0 <= committed.0 {
                let decision: &Decision<V> = self.decisions.value_at(i);
                if !self.executed.contains(&decision.slot) {
                    return Some(Delivery::Execute(decision.duplicate_value()));
                }
                if !self.notified.contains(&decision.slot) {
                    return Some(Delivery::Notify(decision.duplicate_value()));
                }
            }
            i += 1;
        }
        assert(keys.take(i as int) =~= keys);
        None
    }

    /// Remembers that a decision was executed.
    pub fn mark_executed(&mut self, slot: SlotIndex)
        ensures
            final(self)@ == (RuntimeView {
                executed: old(self)@.executed.insert(slot),
                ..old(self)@
            }),
    {
        let added = self.executed.insert(slot);
    }

    /// Remembers that a client was told of a decision.
    pub fn mark_notified(&mut self, slot: SlotIndex)
        ensures
            final(self)@ == (RuntimeView {
                notified: old(self)@.notified.insert(slot),
                ..old(self)@
            }),
    {
        let added = self.notified.insert(slot);
    }

    /// Whether a member has acknowledged a decision.
    pub fn is_announced(&self, slot: SlotIndex, member: ReplicaId) -> (announced: bool)
        ensures
            announced == self@.is_announced(slot, member),
    {
        match self.announced_to.get(&slot) {
            Some(told) => told.contains(&member),
            None => false,
        }
    }

    /// Remembers that a member has acknowledged a decision.
    pub fn mark_announced(&mut self, slot: SlotIndex, member: ReplicaId)
        ensures
            final(self)@ == old(self)@.announced(slot, member),
    {
        let mut told: OrdSet<ReplicaId> = match self.announced_to.get(&slot) {
            Some(told) => told.duplicate_value(),
            None => OrdSet::new(),
        };
        let added = told.insert(member);
        self.announced_to.insert(slot, told);
    }

    /// How many decisions are retained; they are listed in slot order.
    pub fn decision_count(&self) -> (count: usize)
        ensures
            count == self@.decisions.dom().len(),
            collections::lists_set(
                collections::in_order(self@.decisions.dom()),
                self@.decisions.dom(),
            ),
    {
        let count: usize = self.decisions.len();
        proof {
            collections::lemma_in_order_exists(self@.decisions.dom());
        }
        count
    }

    /// The slot of the decision at a place in slot order.
    pub fn slot_at(&self, i: usize) -> (slot: Option<SlotIndex>)
        ensures
            match slot {
                Some(found) => i < collections::in_order(self@.decisions.dom()).len() && found
                    == collections::in_order(self@.decisions.dom())[i as int],
                None => i >= collections::in_order(self@.decisions.dom()).len(),
            },
    {
        let count: usize = self.decisions.len();
        proof {
            collections::lemma_in_order(self.decisions.keys());
        }
        if i < count {
            Some(*self.decisions.key_at(i))
        } else {
            None
        }
    }

    /// The retained decisions, in slot order.
    pub fn decisions(&self) -> (list: Vec<Decision<V>>)
        ensures
            collections::lists_set(
                collections::in_order(self@.decisions.dom()),
                self@.decisions.dom(),
            ),
            list@.len() == collections::in_order(self@.decisions.dom()).len(),
            forall|i: int|
                0 <= i < list@.len() ==> (#[trigger] list@[i])@
                    == self@.decisions[collections::in_order(self@.decisions.dom())[i]],
    {
        let count: usize = self.decisions.len();
        let ghost keys = self.decisions.keys();
        proof {
            collections::lemma_in_order(keys);
            collections::lemma_in_order_exists(self@.decisions.dom());
        }
        let mut list: Vec<Decision<V>> = Vec::new();
        let mut i: usize = 0;
        while i < count
            invariant
                i <= count == keys.len(),
                keys == self.decisions.keys(),
                collections::lists(keys, self.decisions@),
                list@.len() == i,
                forall|k: int|
                    0 <= k < i ==> (#[trigger] list@[k])@ == self@.decisions[keys[k]],
            decreases count - i,
        {
            list.push(self.decisions.value_at(i).duplicate_value());
            i += 1;
        }
        list
    }

    /// Checks that every member has acknowledged all decisions through a slot.
    pub fn check_announced(&self, through: SlotIndex) -> (checked: Result<()>)
        ensures
            error::outcome(checked) == match self@.announcement_error(through) {
                Some(refusal) => Err(refusal),
                None => Ok(()),
            },
    {
        let members: OrdSet<ReplicaId> = OrdSet::from_slice(self.config.members());
        proof {
            lemma_members(self@);
            self@.members().unique_seq_to_set();
        }
        let needed: usize = members.len();
        let count: usize = self.decisions.len();
        let ghost keys = self.decisions.keys();
        proof {
            collections::lemma_in_order(keys);
            assert(keys.take(0) =~= Seq::<SlotIndex>::empty());
        }
        let mut complete = true;
        let mut fewest: Option<usize> = None;
        let mut i: usize = 0;
        while i < count
            invariant
                i <= count == keys.len(),
                keys == self.decisions.keys(),
                collections::lists(keys, self.decisions@),
                keys == collections::in_order(self@.decisions.dom()),
                members@ == self@.members().to_set(),
                complete == (forall|k: int|
                    0 <= k < i && (#[trigger] keys[k]).0 <= through.0 ==> self@.fully_announced(
                        keys[k],
                    )),
                match self@.fewest_told(keys.take(i as int), through) {
                    Some(told) => fewest matches Some(held) && held == told,
                    None => fewest is None,
                },
            decreases count - i,
        {
            proof {
                assert(keys.take(i + 1).drop_last() =~= keys.take(i as int));
                assert(keys.take(i + 1).last() == keys[i as int]);
            }
            let slot: SlotIndex = *self.decisions.key_at(i);
            if slot.0 <= through.0 {
                match self.announced_to.get(&slot) {
                    Some(told) => {
                        if !told.same_elements(&members) {
                            complete = false;
                        }
                        let size: usize = told.len();
                        fewest = match fewest {
                            Some(held) => if size < held {
                                Some(size)
                            } else {
                                Some(held)
                            },
                            None => Some(size),
                        };
                    },
                    None => {
                        complete = false;
                    },
                }
            }
            i += 1;
        }
        assert(keys.take(i as int) =~= keys);
        if complete {
            proof {
                assert forall|slot: SlotIndex| #[trigger]
                    self@.decisions.dom().contains(slot) && slot.0 <= through.0 implies
                    self@.fully_announced(slot) by {
                    assert(keys.contains(slot));
                    let k = choose|k: int| 0 <= k < keys.len() && keys[k] == slot;
                    assert(keys[k].0 <= through.0);
                }
            }
            Ok(())
        } else {
            proof {
                let k = choose|k: int|
                    0 <= k < keys.len() && (#[trigger] keys[k]).0 <= through.0
                        && !self@.fully_announced(keys[k]);
                assert(self@.decisions.dom().contains(keys[k]));
            }
            let received: usize = match fewest {
                Some(told) => told,
                None => 0,
            };
            Err(QuePaxaError::QuorumNotReached { needed, received })
        }
    }

    /// Whether something is pending at or before a slot.
    fn pending_through(&self, slot: SlotIndex) -> (found: bool)
        ensures
            found == (exists|open: SlotIndex| #[trigger]
                self@.pending.dom().contains(open) && open.0 <= slot.0),
    {
        let count: usize = self.pending.len();
        if count == 0 {
            assert(forall|open: SlotIndex| !self@.pending.dom().contains(open));
            return false;
        }
        let first: SlotIndex = *self.pending.key_at(0);
        proof {
            let keys = self.pending.keys();
            assert(self@.pending.dom().contains(first));
            assert forall|open: SlotIndex| #[trigger] self@.pending.dom().contains(open) implies
                first.0 <= open.0 by {
                assert(keys.contains(open));
                let k = choose|k: int| 0 <= k < keys.len() && keys[k] == open;
                if k > 0 {
                    assert(keys[0].rank() < keys[k].rank());
                }
            }
        }
        first.0 <= slot.0
    }

    /// Checks that a transfer can end at a slot, as far as earlier checkpoints go.
    pub fn check_floor(&self, slot: SlotIndex) -> (checked: Result<()>)
        ensures
            error::outcome(checked) == match self@.floor_error(slot) {
                Some(refusal) => Err(refusal),
                None => Ok(()),
            },
    {
        if slot.0 < self.replica.checkpointed_through().0 {
            return Err(
                QuePaxaError::InvalidProposal(
                    "cannot transfer state below the pruning floor".to_owned(),
                ),
            );
        }
        Ok(())
    }

    /// Checks that a transfer can end at a slot.
    pub fn check_handover(&self, slot: SlotIndex) -> (checked: Result<()>)
        ensures
            error::outcome(checked) == match self@.handover_error(slot) {
                Some(refusal) => Err(refusal),
                None => Ok(()),
            },
    {
        match self.check_floor(slot) {
            Err(refusal) => Err(refusal),
            Ok(()) => self.check_prune(slot),
        }
    }

    /// Checks that nothing through a slot is still needed.
    pub fn check_prune(&self, slot: SlotIndex) -> (checked: Result<()>)
        ensures
            error::outcome(checked) == match self@.prune_error(slot) {
                Some(refusal) => Err(refusal),
                None => Ok(()),
            },
    {
        if slot.0 > self.replica.committed_through().0 {
            return Err(
                QuePaxaError::InvalidProposal(
                    "cannot checkpoint beyond the contiguous committed prefix".to_owned(),
                ),
            );
        }
        if self.pending_through(slot) {
            return Err(
                QuePaxaError::InvalidProposal(
                    "cannot checkpoint a slot with a pending local proposal".to_owned(),
                ),
            );
        }
        Ok(())
    }

    /// Checks that state through a slot can be dropped.
    pub fn check_checkpoint(&self, slot: SlotIndex) -> (checked: Result<()>)
        ensures
            error::outcome(checked) == match self@.checkpoint_error(slot) {
                Some(refusal) => Err(refusal),
                None => Ok(()),
            },
    {
        match self.check_prune(slot) {
            Err(refusal) => Err(refusal),
            Ok(()) => self.check_announced(slot),
        }
    }

    /// Drops what a checkpoint covers.
    pub fn drop_through(&mut self, slot: SlotIndex)
        ensures
            final(self)@ == old(self)@.checkpointed(slot),
            old(self)@.ready() ==> final(self)@.ready(),
            old(self)@.led() ==> final(self)@.led(),
    {
        self.replica.prune_through(slot);
        self.decisions.remove_through(&slot);
        self.executed.remove_through(&slot);
        self.notified.remove_through(&slot);
        self.announced_to.remove_through(&slot);
    }

    /// The values of the decisions through a slot, each once, in order.
    pub fn covered_values(&self, slot: SlotIndex) -> (values: Vec<V>)
        ensures
            values@ == collections::in_order(self@.covered_values(slot)),
    {
        let count: usize = self.decisions.len();
        let ghost keys = self.decisions.keys();
        let mut values: OrdSet<V> = OrdSet::new();
        let mut i: usize = 0;
        while i < count
            invariant
                i <= count == keys.len(),
                keys == self.decisions.keys(),
                collections::lists(keys, self.decisions@),
                forall|value: V| #[trigger]
                    values@.contains(value) <==> exists|k: int|
                        0 <= k < i && (#[trigger] keys[k]).0 <= slot.0
                            && self@.decisions[keys[k]].value_ids.contains(value),
            decreases count - i,
        {
            let index: SlotIndex = *self.decisions.key_at(i);
            if index.0 <= slot.0 {
                let decision: &Decision<V> = self.decisions.value_at(i);
                add_values(&mut values, decision.value_ids.as_slice());
            }
            i += 1;
        }
        proof {
            assert(values@ =~= self@.covered_values(slot)) by {
                assert forall|value: V| values@.contains(value) == self@.covered_values(
                    slot,
                ).contains(value) by {
                    if self@.covered_values(slot).contains(value) {
                        let index = choose|index: SlotIndex|
                            {
                                &&& #[trigger] self@.decisions.dom().contains(index)
                                &&& index.0 <= slot.0
                                &&& self@.decisions[index].value_ids.contains(value)
                            };
                        assert(keys.contains(index));
                        let k = choose|k: int| 0 <= k < keys.len() && keys[k] == index;
                        assert(keys[k].0 <= slot.0);
                    }
                    if values@.contains(value) {
                        let k = choose|k: int|
                            0 <= k < keys.len() && (#[trigger] keys[k]).0 <= slot.0
                                && self@.decisions[keys[k]].value_ids.contains(value);
                        assert(self@.decisions.dom().contains(keys[k]));
                    }
                }
            }
        }
        values.to_vec()
    }

    /// The state that takes a transfer up, if it fits.
    pub fn prepare_transfer(&self, transfer: &StateTransferSnapshot<V>) -> (prepared: Result<Self>)
        requires
            self@.ready(),
        ensures
            error::outcome(prepared) == self@.install_transfer(transfer@),
            prepared matches Ok(next) ==> next@.ready(),
    {
        if transfer.through != transfer.runtime.replica.checkpointed_through {
            return Err(
                QuePaxaError::InvalidProposal(
                    "state-transfer checkpoint does not match the runtime pruning floor".to_owned(),
                ),
            );
        }
        let mut next: Self = match Self::resume(&self.config, &transfer.runtime) {
            Ok(state) => state,
            Err(refusal) => return Err(refusal),
        };
        match next.check_transfer() {
            Err(refusal) => return Err(refusal),
            Ok(()) => {},
        }
        next.noop_value = match &self.noop_value {
            Some(noop) => Some(noop.duplicate()),
            None => None,
        };
        next.hedge = self.hedge.duplicate_value();
        Ok(next)
    }
}

/// Adds the values of a list to a set.
fn add_values<V: Key>(values: &mut OrdSet<V>, list: &[V])
    ensures
        forall|value: V| #[trigger]
            final(values)@.contains(value) <==> old(values)@.contains(value) || list@.contains(
                value,
            ),
{
    let mut i: usize = 0;
    while i < list.len()
        invariant
            i <= list@.len(),
            forall|value: V| #[trigger]
                values@.contains(value) <==> old(values)@.contains(value) || list@.take(
                    i as int,
                ).contains(value),
        decreases list@.len() - i,
    {
        let added = values.insert(list[i].duplicate());
        proof {
            assert(list@.take(i + 1) =~= list@.take(i as int).push(list@[i as int]));
            assert forall|value: V| list@.take(i + 1).contains(value) <==> (list@.take(
                i as int,
            ).contains(value) || value == list@[i as int]) by {
                if list@.take(i as int).contains(value) {
                    let k = choose|k: int|
                        0 <= k < list@.take(i as int).len() && list@.take(i as int)[k] == value;
                    assert(list@.take(i + 1)[k] == value);
                }
                if value == list@[i as int] {
                    assert(list@.take(i + 1)[i as int] == value);
                }
            }
        }
        i += 1;
    }
    assert(list@.take(i as int) =~= list@);
}

/// The pending slots have an order.
pub proof fn lemma_pending_is_listed<V: Key>(state: RuntimeState<V>)
    ensures
        collections::lists_set(
            collections::in_order(state@.pending.dom()),
            state@.pending.dom(),
        ),
{
    collections::lemma_map_is_finite(state.pending);
    collections::lemma_in_order_exists(state@.pending.dom());
}

/// The decided slots have an order.
pub proof fn lemma_decisions_are_listed<V: Key>(state: RuntimeState<V>)
    ensures
        collections::lists_set(
            collections::in_order(state@.decisions.dom()),
            state@.decisions.dom(),
        ),
{
    collections::lemma_map_is_finite(state.decisions);
    collections::lemma_in_order_exists(state@.decisions.dom());
}

/// A runtime whose schedules are of the members has a leader in each.
pub proof fn lemma_ready_is_led<V>(view: RuntimeView<V>)
    requires
        view.ready(),
    ensures
        view.led(),
{
    assert forall|epoch: u64| #[trigger] view.tuner.schedules.dom().contains(epoch) implies
        view.tuner.schedules[epoch].proposers.len() > 0 by {
        assert(view.schedule_fits(epoch));
        lemma_schedule_has_leader(view, view.tuner.schedules[epoch]);
    }
}

/// The tuner of a runtime with led schedules can be used.
proof fn lemma_tuner_usable<V>(view: RuntimeView<V>)
    requires
        view.led(),
    ensures
        view.tuner.epoch_size > 0,
        view.tuner.members.len() > 0,
        forall|epoch: u64| #[trigger]
            view.tuner.schedules.dom().contains(epoch)
                ==> view.tuner.schedules[epoch].proposers.len() > 0,
{
    lemma_members(view);
}

/// Noting a committed slot keeps every schedule led, and of the members.
proof fn lemma_note_keeps_led<V>(
    before: RuntimeView<V>,
    slot: SlotIndex,
    step: Step,
    after: RuntimeView<V>,
)
    requires
        before.led(),
        after == (RuntimeView { tuner: before.tuner.note_committed(slot, step).0, ..before }),
    ensures
        after.led(),
        before.ready() ==> after.ready(),
{
    lemma_members(before);
    let epoch = before.tuner.epoch_of(slot);
    crate::tuner_laws::derived_schedules_hold_every_member(before.tuner, epoch);
    assert forall|other: u64| before.ready() && #[trigger]
        after.tuner.schedules.dom().contains(other) implies after.schedule_fits(other) by {
        if before.tuner.schedules.dom().contains(other) {
            assert(before.schedule_fits(other));
        }
    }
}

/// Noting stops at the first slot that is refused.
proof fn lemma_note_stops<V>(view: RuntimeView<V>, slots: Seq<SlotIndex>, n: int)
    requires
        0 <= n <= slots.len(),
        view.note_slots(slots.take(n)).1 is Err,
    ensures
        view.note_slots(slots) == view.note_slots(slots.take(n)),
    decreases slots.len() - n,
{
    if n < slots.len() {
        assert(slots.take(n + 1).drop_last() =~= slots.take(n));
        lemma_note_stops(view, slots, n + 1);
    } else {
        assert(slots.take(n) =~= slots);
    }
}

/// The first delivery is the first that is found.
proof fn lemma_first_delivery<V>(view: RuntimeView<V>, slots: Seq<SlotIndex>, n: int)
    requires
        0 <= n <= slots.len(),
        view.first_delivery(slots.take(n)) is Some,
    ensures
        view.first_delivery(slots) == view.first_delivery(slots.take(n)),
    decreases slots.len() - n,
{
    if n < slots.len() {
        assert(slots.take(n + 1).drop_last() =~= slots.take(n));
        lemma_first_delivery(view, slots, n + 1);
    } else {
        assert(slots.take(n) =~= slots);
    }
}

/// Setting deadlines changes pending proposals only.
pub proof fn lemma_with_deadlines_keeps<V>(
    view: RuntimeView<V>,
    slots: Seq<SlotIndex>,
    list: Seq<Span>,
)
    ensures
        view.with_deadlines(slots, list) == (RuntimeView {
            pending: view.with_deadlines(slots, list).pending,
            ..view
        }),
    decreases slots.len(),
{
    if slots.len() > 0 {
        lemma_with_deadlines_keeps(view, slots.drop_last(), list.drop_last());
    }
}

impl<V: Key> Duplicate for RuntimeState<V> {
    fn duplicate_value(&self) -> (copy: Self) {
        RuntimeState {
            config: self.config.duplicate_value(),
            replica: self.replica.duplicate_value(),
            decisions: self.decisions.duplicate_value(),
            tuner: self.tuner.duplicate_value(),
            pending: self.pending.duplicate_value(),
            executed: self.executed.duplicate_value(),
            notified: self.notified.duplicate_value(),
            announced_to: self.announced_to.duplicate_value(),
            noop_value: match &self.noop_value {
                Some(noop) => Some(noop.duplicate()),
                None => None,
            },
            hedge: self.hedge.duplicate_value(),
        }
    }
}

} // verus!
