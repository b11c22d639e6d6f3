//! Runtime orchestration for a single QuePaxa replica.
//!
//! `ReplicaRuntime` owns the local proposer pipeline, durable runtime state,
//! hedged activation, decision dissemination, state-machine execution, and
//! client notification. Network authentication and the agreement protocol for
//! epoch schedules remain pluggable deployment concerns: callers must install
//! the same agreed `EpochSchedule` at every replica.

use crate::cluster::{ClusterIdentity, MembershipChange};
use crate::collections;
use crate::durable;
use crate::error;
use crate::error::{ErrorView, QuePaxaError, Result};
use crate::key::{Duplicate, Key};
use crate::policy::HedgingPolicy;
use crate::proposer::{
    PrioritySource, ProposalRun, ProposerCore, ProposerView, RecorderClient, RecorderHandle, RunView,
};
use crate::replica::ReplicaCore;
use crate::round;
use crate::round::{identities, run_round, ProposingView};
use crate::runtime_course;
use crate::runtime_course::SettingView;
use crate::runtime_state;
use crate::runtime_state::{
    validate_handles, validate_next_handles, Acceptance, Delivery, DeliveryView, RuntimeSnapshot,
    RuntimeState, RuntimeView, SnapshotView, StateTransferSnapshot,
};
use crate::schedule::{EpochSchedule, ReplicaRuntimeConfig, ScheduleView};
use crate::span::Span;
use crate::types;
use crate::types::{duplicate_option, Decision, DecisionView, ReplicaId, SlotIndex, Step};
use vstd::prelude::*;

verus! {

/// Persists and restores [`RuntimeSnapshot`] atomically.
pub trait RuntimeStateStore<V: Key> {
    /// The state that a restart would find.
    open spec fn persisted(&self) -> Option<SnapshotView<V>> {
        None
    }

    /// Whether reading may go like this: from here, with this result, to
    /// `after`. A store that does not say leaves it open whether it can be read.
    open spec fn loads(
        &self,
        loaded: std::result::Result<Option<SnapshotView<V>>, ErrorView>,
        after: &Self,
    ) -> bool {
        true
    }

    /// Whether saving may go like this.
    open spec fn saves(
        &self,
        state: SnapshotView<V>,
        saved: std::result::Result<(), ErrorView>,
        after: &Self,
    ) -> bool {
        true
    }

    /// Reads the state that was saved last.
    fn load(&mut self) -> (loaded: Result<Option<RuntimeSnapshot<V>>>)
        ensures
            final(self).persisted() == old(self).persisted(),
            loaded matches Ok(found) ==> types::option_view(found) == old(self).persisted(),
            old(self).loads(durable::load_outcome(loaded), final(self)),
    ;

    /// Makes state durable. A failed save may have taken effect or not.
    fn save(&mut self, snapshot: &RuntimeSnapshot<V>) -> (saved: Result<()>)
        ensures
            saved is Ok ==> final(self).persisted() == Some(snapshot@),
            old(self).saves(snapshot@, error::outcome(saved), final(self)),
    ;
}

/// Turns snapshots into bytes and back. Applications select the value encoding.
pub trait RuntimeCodec<V: Key> {
    /// Whether state may be encoded like this. A codec that does not say leaves
    /// every encoding open.
    open spec fn encodes(
        &self,
        state: SnapshotView<V>,
        bytes: std::result::Result<Seq<u8>, ErrorView>,
    ) -> bool {
        true
    }

    /// Whether bytes may be decoded like this.
    open spec fn decodes(
        &self,
        bytes: Seq<u8>,
        state: std::result::Result<SnapshotView<V>, ErrorView>,
    ) -> bool {
        true
    }

    fn encode(&self, snapshot: &RuntimeSnapshot<V>) -> (bytes: Result<Vec<u8>>)
        ensures
            self.encodes(snapshot@, error::outcome(bytes)),
    ;

    fn decode(&self, bytes: &[u8]) -> (snapshot: Result<RuntimeSnapshot<V>>)
        ensures
            self.decodes(bytes@, error::outcome(snapshot)),
    ;
}

/// Test and single-process store for runtime state.
#[derive(Debug)]
pub struct InMemoryRuntimeStore<V: Key> {
    snapshot: Option<RuntimeSnapshot<V>>,
}

impl<V: Key> InMemoryRuntimeStore<V> {
    /// What the store holds.
    pub closed spec fn saved(&self) -> Option<SnapshotView<V>> {
        types::option_view(self.snapshot)
    }

    pub fn snapshot(&self) -> (snapshot: Option<&RuntimeSnapshot<V>>)
        ensures
            match snapshot {
                Some(found) => self.saved() == Some(found@),
                None => self.saved() is None,
            },
    {
        match &self.snapshot {
            Some(found) => Some(found),
            None => None,
        }
    }
}

impl<V: Key> Default for InMemoryRuntimeStore<V> {
    fn default() -> (store: Self)
        ensures
            store.saved() is None,
    {
        InMemoryRuntimeStore { snapshot: None }
    }
}

impl<V: Key> RuntimeStateStore<V> for InMemoryRuntimeStore<V> {
    open spec fn persisted(&self) -> Option<SnapshotView<V>> {
        self.saved()
    }

    open spec fn loads(
        &self,
        loaded: std::result::Result<Option<SnapshotView<V>>, ErrorView>,
        after: &Self,
    ) -> bool {
        *after == *self && loaded is Ok
    }

    open spec fn saves(
        &self,
        state: SnapshotView<V>,
        saved: std::result::Result<(), ErrorView>,
        after: &Self,
    ) -> bool {
        saved is Ok
    }

    fn load(&mut self) -> (loaded: Result<Option<RuntimeSnapshot<V>>>) {
        Ok(duplicate_option(&self.snapshot))
    }

    fn save(&mut self, snapshot: &RuntimeSnapshot<V>) -> (saved: Result<()>) {
        self.snapshot = Some(snapshot.duplicate_value());
        Ok(())
    }
}

/// Applies committed decisions to the embedding application.
///
/// Implementations must be idempotent by `Decision::slot`, because storage and
/// application state cannot be committed atomically by this generic library.
/// Deployments accepting retries through multiple replicas must also dedupe
/// globally unique value IDs: consensus may legitimately place independently
/// submitted copies of the same client command in different slots.
pub trait StateMachine<V> {
    /// Whether executing may go like this: from here, with this result, to
    /// `after`. A machine that does not say leaves every execution open.
    open spec fn executes(
        &self,
        decision: DecisionView<V>,
        executed: std::result::Result<(), ErrorView>,
        after: &Self,
    ) -> bool {
        true
    }

    /// Whether exporting a checkpoint may go like this.
    open spec fn exports(
        &self,
        through: SlotIndex,
        checkpoint: std::result::Result<Seq<u8>, ErrorView>,
        after: &Self,
    ) -> bool {
        true
    }

    /// Whether importing a checkpoint may go like this.
    open spec fn imports(
        &self,
        through: SlotIndex,
        checkpoint: Seq<u8>,
        imported: std::result::Result<(), ErrorView>,
        after: &Self,
    ) -> bool {
        true
    }

    fn execute(&mut self, decision: &Decision<V>) -> (executed: Result<()>)
        ensures
            old(self).executes(decision@, error::outcome(executed), final(self)),
    ;

    /// Creates a durable application checkpoint covering `through`. The
    /// returned bytes are carried with a consensus state-transfer snapshot. A
    /// state machine without checkpoints answers with [`export_unsupported`].
    fn export_checkpoint(&mut self, through: SlotIndex) -> (checkpoint: Result<Vec<u8>>)
        ensures
            old(self).exports(through, error::outcome(checkpoint), final(self)),
    ;

    /// Installs a checkpoint received through state transfer. Implementations
    /// must be durable and idempotent because application and generic runtime
    /// storage cannot share a transaction in this library. A state machine
    /// without checkpoints answers with [`import_unsupported`].
    fn import_checkpoint(&mut self, through: SlotIndex, checkpoint: &[u8]) -> (imported: Result<()>)
        ensures
            old(self).imports(through, checkpoint@, error::outcome(imported), final(self)),
    ;
}

/// Reports committed decisions to clients or an application completion queue.
/// Implementations should also tolerate duplicate attempts after restart.
pub trait ClientNotifier<V> {
    /// Whether telling may go like this: from here, with this result, to
    /// `after`. A notifier that does not say leaves every notice open.
    open spec fn tells(
        &self,
        decision: DecisionView<V>,
        told: std::result::Result<(), ErrorView>,
        after: &Self,
    ) -> bool {
        true
    }

    fn committed(&mut self, decision: &Decision<V>) -> (told: Result<()>)
        ensures
            old(self).tells(decision@, error::outcome(told), final(self)),
    ;
}

/// The refusal to export of a state machine without checkpoints.
pub open spec fn no_export() -> ErrorView {
    ErrorView::StorageError("the state machine does not implement checkpoint export"@)
}

/// The refusal to import of a state machine without checkpoints.
pub open spec fn no_import() -> ErrorView {
    ErrorView::StorageError("the state machine does not implement checkpoint import"@)
}

/// The refusal to export of a state machine without checkpoints.
pub fn export_unsupported() -> (refusal: QuePaxaError)
    ensures
        refusal@ == no_export(),
{
    QuePaxaError::StorageError(
        "the state machine does not implement checkpoint export".to_owned(),
    )
}

/// The refusal to import of a state machine without checkpoints.
pub fn import_unsupported() -> (refusal: QuePaxaError)
    ensures
        refusal@ == no_import(),
{
    QuePaxaError::StorageError(
        "the state machine does not implement checkpoint import".to_owned(),
    )
}

/// Executes nothing.
#[derive(Debug, Clone, Copy)]
pub struct NoopStateMachine;

impl Default for NoopStateMachine {
    fn default() -> (machine: Self)
        ensures
            machine == NoopStateMachine,
    {
        NoopStateMachine
    }
}

impl<V> StateMachine<V> for NoopStateMachine {
    open spec fn executes(
        &self,
        decision: DecisionView<V>,
        executed: std::result::Result<(), ErrorView>,
        after: &Self,
    ) -> bool {
        executed is Ok
    }

    open spec fn exports(
        &self,
        through: SlotIndex,
        checkpoint: std::result::Result<Seq<u8>, ErrorView>,
        after: &Self,
    ) -> bool {
        checkpoint matches Ok(bytes) && bytes.len() == 0
    }

    open spec fn imports(
        &self,
        through: SlotIndex,
        checkpoint: Seq<u8>,
        imported: std::result::Result<(), ErrorView>,
        after: &Self,
    ) -> bool {
        imported == empty_checkpoint_only(checkpoint)
    }

    fn execute(&mut self, decision: &Decision<V>) -> (executed: Result<()>) {
        Ok(())
    }

    fn export_checkpoint(&mut self, through: SlotIndex) -> (checkpoint: Result<Vec<u8>>) {
        Ok(Vec::new())
    }

    fn import_checkpoint(&mut self, through: SlotIndex, checkpoint: &[u8]) -> (imported: Result<()>) {
        NoopStateMachine::accept_checkpoint(checkpoint)
    }
}

/// Whether a machine that has executed nothing accepts a checkpoint.
pub open spec fn empty_checkpoint_only(checkpoint: Seq<u8>) -> std::result::Result<(), ErrorView> {
    if checkpoint.len() == 0 {
        Ok(())
    } else {
        Err(ErrorView::StorageError("the no-op state machine accepts only an empty checkpoint"@))
    }
}

impl NoopStateMachine {
    /// Accepts the checkpoint of a machine that has executed nothing.
    pub fn accept_checkpoint(checkpoint: &[u8]) -> (imported: Result<()>)
        ensures
            error::outcome(imported) == empty_checkpoint_only(checkpoint@),
    {
        if checkpoint.len() == 0 {
            Ok(())
        } else {
            Err(
                QuePaxaError::StorageError(
                    "the no-op state machine accepts only an empty checkpoint".to_owned(),
                ),
            )
        }
    }
}

/// Tells nobody.
#[derive(Debug, Clone, Copy)]
pub struct NoopClientNotifier;

impl Default for NoopClientNotifier {
    fn default() -> (notifier: Self)
        ensures
            notifier == NoopClientNotifier,
    {
        NoopClientNotifier
    }
}

impl<V> ClientNotifier<V> for NoopClientNotifier {
    open spec fn tells(
        &self,
        decision: DecisionView<V>,
        told: std::result::Result<(), ErrorView>,
        after: &Self,
    ) -> bool {
        told is Ok
    }

    fn committed(&mut self, decision: &Decision<V>) -> (told: Result<()>) {
        Ok(())
    }
}

/// The next operation requested by the runtime event loop.
#[derive(Debug, PartialEq, Eq)]
pub enum RuntimePoll<V> {
    /// Nothing is pending.
    Idle,
    /// The next local hedging deadline, on the caller's clock.
    Waiting { slot: SlotIndex, until: Span },
    /// A proposal is due: run its rounds and hand the decision to
    /// [`ReplicaRuntime::complete_proposal`].
    Propose { slot: SlotIndex, value_ids: Vec<V>, leader: ReplicaId },
    /// Decisions were committed and delivered.
    Committed(Vec<Decision<V>>),
}

/// What a poll asks for, with its parts as views.
#[verifier::ext_equal]
pub enum PollView<V> {
    Idle,
    Waiting { slot: SlotIndex, until: Span },
    Propose { slot: SlotIndex, value_ids: Seq<V>, leader: ReplicaId },
    Committed(Seq<DecisionView<V>>),
}

impl<V> View for RuntimePoll<V> {
    type V = PollView<V>;

    open spec fn view(&self) -> PollView<V> {
        match *self {
            RuntimePoll::Idle => PollView::Idle,
            RuntimePoll::Waiting { slot, until } => PollView::Waiting { slot, until },
            RuntimePoll::Propose { slot, value_ids, leader } => PollView::Propose {
                slot,
                value_ids: value_ids@,
                leader,
            },
            RuntimePoll::Committed(decisions) => PollView::Committed(types::list_view(decisions@)),
        }
    }
}

/// What a result that lists decisions stands for.
pub open spec fn list_outcome<V>(result: Result<Vec<Decision<V>>>) -> std::result::Result<
    Seq<DecisionView<V>>,
    ErrorView,
> {
    match result {
        Ok(list) => Ok(types::list_view(list@)),
        Err(refusal) => Err(refusal@),
    }
}

/// Whether decisions stand under their slots.
pub open spec fn keyed<V>(view: RuntimeView<V>) -> bool {
    forall|slot: SlotIndex| #[trigger]
        view.decisions.dom().contains(slot) ==> view.decisions[slot].slot == slot
}

/// The committed decisions of slots in order that no client was told of.
pub open spec fn untold<V>(view: RuntimeView<V>, slots: Seq<SlotIndex>) -> Seq<DecisionView<V>>
    decreases slots.len(),
{
    if slots.len() == 0 {
        Seq::empty()
    } else {
        let rest = untold(view, slots.drop_last());
        let slot = slots.last();
        if slot.0 <= view.committed_through().0 && !view.notified.contains(
            view.decisions[slot].slot,
        ) {
            rest.push(view.decisions[slot])
        } else {
            rest
        }
    }
}

/// The committed decisions that no client was told of, in slot order.
pub open spec fn undelivered<V>(view: RuntimeView<V>) -> Seq<DecisionView<V>> {
    untold(view, collections::in_order(view.decisions.dom()))
}

/// Whether a runtime differs from an earlier one in deliveries and leader
/// statistics only, and all that is committed was delivered.
pub open spec fn all_delivered<V>(before: RuntimeView<V>, after: RuntimeView<V>) -> bool {
    &&& after == (RuntimeView {
        executed: after.executed,
        notified: after.notified,
        tuner: before.note_committed().0.tuner,
        ..before
    })
    &&& before.note_committed().1 is Ok
    &&& before.executed.subset_of(after.executed)
    &&& before.notified.subset_of(after.notified)
    &&& after.next_delivery() is None
}

/// Whether a runtime differs from an earlier one in acknowledgements only: more
/// of decisions, by the recorders.
pub open spec fn more_announced<V>(
    before: RuntimeView<V>,
    after: RuntimeView<V>,
    ids: Seq<ReplicaId>,
) -> bool {
    &&& after == (RuntimeView { announced_to: after.announced_to, ..before })
    &&& forall|slot: SlotIndex, member: ReplicaId| #[trigger]
        after.is_announced(slot, member) ==> before.is_announced(slot, member) || (
        before.decisions.dom().contains(slot) && ids.contains(member))
    &&& forall|slot: SlotIndex, member: ReplicaId| #[trigger]
        before.is_announced(slot, member) ==> after.is_announced(slot, member)
}

/// Whether a runtime differs from an earlier one in acknowledgements only, or
/// dropped what a checkpoint covers as well, which it may once all members have
/// acknowledged it.
pub open spec fn told_of<V>(
    before: RuntimeView<V>,
    after: RuntimeView<V>,
    ids: Seq<ReplicaId>,
    slot: SlotIndex,
) -> bool {
    ||| more_announced(before, after, ids)
    ||| exists|told: RuntimeView<V>|
        {
            &&& #[trigger] more_announced(before, told, ids)
            &&& told.checkpoint_error(slot) is None
            &&& after == told.checkpointed(slot)
        }
}

/// A complete local runtime for one QuePaxa proposer role.
pub struct ReplicaRuntime<V: Key, C, R, S, E, N> {
    state: RuntimeState<V>,
    proposer: ProposerCore<R>,
    recorders: Vec<RecorderHandle<C>>,
    state_store: S,
    state_machine: E,
    notifier: N,
}

impl<V: Key, C, R, S, E, N> ReplicaRuntime<V, C, R, S, E, N> {
    /// The runtime's state.
    pub closed spec fn current(&self) -> RuntimeView<V> {
        self.state@
    }

    /// The store around it.
    pub closed spec fn store(&self) -> S {
        self.state_store
    }

    /// The endpoints around it.
    pub closed spec fn endpoints(&self) -> Seq<RecorderHandle<C>> {
        self.recorders@
    }

    /// The recorders around it.
    pub open spec fn recorder_ids(&self) -> Seq<ReplicaId> {
        round::handle_ids(self.endpoints())
    }

    /// Where the priorities of proposals come from.
    pub closed spec fn source(&self) -> R {
        self.proposer.source()
    }

    /// A proposal's run with the runtime's source and endpoints.
    pub open spec fn proposing(&self, run: RunView<V>) -> ProposingView<V, C, R> {
        ProposingView { run, source: self.source(), recorders: self.endpoints() }
    }

    /// The proposer around it.
    pub closed spec fn proposes_with(&self) -> crate::proposer::ProposerView {
        self.proposer@
    }

    /// The runtime's state and what surrounds it.
    pub open spec fn setting(&self) -> SettingView<V, C, R, S, E, N> {
        SettingView {
            state: self.current(),
            proposer: self.proposes_with(),
            source: self.source(),
            endpoints: self.endpoints(),
            store: self.store(),
            machine: self.machine(),
            listener: self.listener(),
        }
    }

    /// What always holds: the state is ready, the recorders are the members, and
    /// the proposer is of the membership.
    pub open spec fn usable(&self) -> bool {
        &&& self.current().ready()
        &&& self.recorder_ids().to_set() == self.current().members().to_set()
        &&& self.recorder_ids().no_duplicates()
        &&& self.proposes_with().cluster == Some(self.current().config.cluster)
        &&& self.proposes_with().quorum == Some(
            self.current().config.cluster.quorum_size() as usize,
        )
    }

    /// Whether only the state may have changed.
    pub open spec fn same_surroundings(&self, other: &Self) -> bool {
        &&& self.recorder_ids() == other.recorder_ids()
        &&& self.proposes_with() == other.proposes_with()
    }

    /// Configures a designated no-op value ID used to fill a gap slot when the
    /// commit frontier is blocked and no client values are pending. The
    /// application's state machine must treat this value as a no-op. Without
    /// it, an idle cluster can stall behind a slot whose only proposer died.
    pub fn with_noop_value(self, value: V) -> (runtime: Self)
        ensures
            runtime.setting() == (SettingView {
                state: RuntimeView { noop_value: Some(value), ..self.current() },
                ..self.setting()
            }),
    {
        let mut runtime = self;
        runtime.state.set_noop_value(value);
        runtime
    }

    pub fn config(&self) -> (config: &ReplicaRuntimeConfig)
        ensures
            config@ == self.current().config,
    {
        self.state.config()
    }

    pub fn current_hedge_delay(&self) -> (delay: Span)
        ensures
            delay == self.current().hedge.current,
    {
        self.state.current_hedge_delay()
    }

    pub fn replica(&self) -> (replica: &ReplicaCore<V>)
        ensures
            replica@ == self.current().replica,
    {
        self.state.replica()
    }

    pub fn state_store(&self) -> (store: &S)
        ensures
            *store == self.store(),
    {
        &self.state_store
    }

    /// What executes decisions.
    pub closed spec fn machine(&self) -> E {
        self.state_machine
    }

    /// What is told of commitments.
    pub closed spec fn listener(&self) -> N {
        self.notifier
    }

    pub fn state_machine(&self) -> (machine: &E)
        ensures
            *machine == self.machine(),
    {
        &self.state_machine
    }

    pub fn notifier(&self) -> (notifier: &N)
        ensures
            *notifier == self.listener(),
    {
        &self.notifier
    }

    /// All state that is persisted.
    pub fn snapshot(&self) -> (snapshot: RuntimeSnapshot<V>)
        ensures
            snapshot@ == self.current().snapshot(),
    {
        self.state.snapshot()
    }

    pub fn decision(&self, slot: SlotIndex) -> (found: Option<&Decision<V>>)
        ensures
            match found {
                Some(decision) => self.current().decisions.dom().contains(slot) && decision@
                    == self.current().decisions[slot],
                None => !self.current().decisions.dom().contains(slot),
            },
    {
        self.state.decision(slot)
    }
}

impl<V: Key, C, R, S: RuntimeStateStore<V>, E, N> ReplicaRuntime<V, C, R, S, E, N> {
    /// Why a runtime cannot be put together.
    pub open spec fn assembly_error(
        config: crate::schedule::RuntimeConfigView,
        proposer: crate::proposer::ProposerView,
        ids: Seq<ReplicaId>,
    ) -> Option<ErrorView> {
        if runtime_state::handles_error(ids, config.cluster.members) is Some {
            runtime_state::handles_error(ids, config.cluster.members)
        } else if proposer.replica_id != config.replica_id || proposer.lane_id != config.lane_id {
            Some(
                ErrorView::InvalidProposal(
                    "runtime proposer identity does not match the runtime configuration"@,
                ),
            )
        } else {
            None
        }
    }

    /// Starts with what the store holds.
    pub fn new(
        config: ReplicaRuntimeConfig,
        proposer: ProposerCore<R>,
        recorders: Vec<RecorderHandle<C>>,
        state_store: S,
        state_machine: E,
        notifier: N,
    ) -> (runtime: Result<Self>)
        requires
            config@.epoch_size > 0,
        ensures
            Self::assembly_error(config@, proposer@, round::handle_ids(recorders@)) matches Some(
                refusal,
            ) ==> (runtime matches Err(found) && found@ == refusal),
            runtime matches Ok(started) ==> {
                &&& RuntimeView::start(config@, state_store.persisted()) == Ok::<
                    RuntimeView<V>,
                    ErrorView,
                >(started.current())
                &&& started.usable()
                &&& state_store.loads(Ok(state_store.persisted()), &started.store())
                &&& started.store().persisted() == state_store.persisted()
                &&& started.setting() == (SettingView {
                    state: started.current(),
                    proposer: ProposerView {
                        quorum: Some(config@.cluster.quorum_size() as usize),
                        cluster: Some(config@.cluster),
                        ..proposer@
                    },
                    source: proposer.source(),
                    endpoints: recorders@,
                    store: started.store(),
                    machine: state_machine,
                    listener: notifier,
                })
            },
            runtime matches Err(refusal) ==> {
                ||| Self::assembly_error(config@, proposer@, round::handle_ids(recorders@)) == Some(
                    refusal@,
                )
                ||| exists|after: S| #[trigger] state_store.loads(Err(refusal@), &after)
                ||| RuntimeView::<V>::start(config@, state_store.persisted()) == Err::<
                    RuntimeView<V>,
                    ErrorView,
                >(refusal@)
            },
    {
        let ids: Vec<ReplicaId> = identities(recorders.as_slice());
        match validate_handles(ids.as_slice(), config.members()) {
            Err(refusal) => return Err(refusal),
            Ok(()) => {},
        }
        if proposer.replica_id() != config.replica_id() || proposer.lane_id() != config.lane_id() {
            return Err(
                QuePaxaError::InvalidProposal(
                    "runtime proposer identity does not match the runtime configuration".to_owned(),
                ),
            );
        }
        let mut proposer: ProposerCore<R> = proposer;
        proposer.configure_cluster(config.cluster_identity().duplicate_value());
        let ghost unread = state_store;
        let mut state_store: S = state_store;
        let loaded: Result<Option<RuntimeSnapshot<V>>> = state_store.load();
        assert(unread.loads(durable::load_outcome(loaded), &state_store));
        let snapshot: Option<RuntimeSnapshot<V>> = match loaded {
            Ok(snapshot) => snapshot,
            Err(refusal) => return Err(refusal),
        };
        match RuntimeState::start(config, snapshot) {
            Ok(state) => Ok(
                ReplicaRuntime {
                    state,
                    proposer,
                    recorders,
                    state_store,
                    state_machine,
                    notifier,
                },
            ),
            Err(refusal) => Err(refusal),
        }
    }

    /// Makes the current state durable.
    fn persist(&mut self) -> (saved: Result<()>)
        ensures
            runtime_course::saved(
                old(self).setting(),
                error::outcome(saved),
                final(self).setting(),
            ),
    {
        let snapshot: RuntimeSnapshot<V> = self.state.snapshot();
        self.state_store.save(&snapshot)
    }

    /// Enqueues values submitted by a client or front-end. The caller must
    /// ensure the value IDs have been disseminated to the configured replicas.
    pub fn submit(&mut self, value_ids: Vec<V>) -> (result: Result<()>)
        ensures
            ({
                let (state, done) = old(self).current().submit(value_ids@);
                let taken = SettingView { state, ..old(self).setting() };
                match done {
                    Err(refusal) => {
                        &&& final(self).setting() == taken
                        &&& error::outcome(result) == Err::<(), ErrorView>(refusal)
                    },
                    Ok(()) => runtime_course::saved(
                        taken,
                        error::outcome(result),
                        final(self).setting(),
                    ),
                }
            }),
    {
        match self.state.submit(value_ids) {
            Err(refusal) => return Err(refusal),
            Ok(()) => {},
        }
        self.persist()
    }

    /// Installs an epoch schedule received from the deployment's agreed
    /// control plane. A schedule cannot be changed once installed.
    ///
    /// SAFETY: every replica must install the identical schedule for an epoch.
    /// Two replicas that disagree on the round-one leader can decide
    /// conflicting values for one slot. Prefer
    /// `ReplicaRuntimeConfig::with_auto_schedules`, which derives schedules
    /// deterministically from the committed log and needs no external
    /// agreement.
    pub fn install_epoch_schedule(&mut self, schedule: EpochSchedule) -> (result: Result<()>)
        requires
            old(self).usable(),
        ensures
            final(self).usable(),
            runtime_course::scheduled(
                old(self).setting(),
                schedule@,
                error::outcome(result),
                final(self).setting(),
            ),
    {
        match self.state.install_schedule(schedule) {
            Err(refusal) => Err(refusal),
            Ok(true) => self.persist(),
            Ok(false) => Ok(()),
        }
    }

    /// Builds and installs a deterministic schedule from a local policy. Use
    /// this only after the resulting sequence has been agreed by every replica.
    pub fn install_policy_epoch<P: HedgingPolicy>(
        &mut self,
        epoch: u64,
        policy: &P,
        previous_winner: Option<ReplicaId>,
    ) -> (installed: Result<EpochSchedule>)
        requires
            old(self).usable(),
        ensures
            final(self).usable(),
            epoch * old(self).current().config.epoch_size > u64::MAX ==> {
                &&& installed matches Err(refusal) && refusal@ == ErrorView::SlotOverflow
                &&& *final(self) == *old(self)
            },
            epoch * old(self).current().config.epoch_size <= u64::MAX ==> match policy.sequence(
                SlotIndex((epoch * old(self).current().config.epoch_size) as u64),
                old(self).current().members(),
                previous_winner,
            ) {
                Err(refusal) => {
                    &&& installed matches Err(found) && found@ == refusal
                    &&& *final(self) == *old(self)
                },
                Ok(proposers) => match ScheduleView::of(epoch, proposers) {
                    Err(refusal) => {
                        &&& installed matches Err(found) && found@ == refusal
                        &&& *final(self) == *old(self)
                    },
                    Ok(schedule) => match installed {
                        Ok(found) => {
                            &&& found@ == schedule
                            &&& runtime_course::scheduled(
                                old(self).setting(),
                                schedule,
                                Ok(()),
                                final(self).setting(),
                            )
                        },
                        Err(refusal) => runtime_course::scheduled(
                            old(self).setting(),
                            schedule,
                            Err(refusal@),
                            final(self).setting(),
                        ),
                    },
                },
            },
    {
        let schedule: EpochSchedule = match EpochSchedule::from_policy(
            self.state.config(),
            epoch,
            policy,
            previous_winner,
        ) {
            Ok(schedule) => schedule,
            Err(refusal) => return Err(refusal),
        };
        match self.install_epoch_schedule(schedule.duplicate_value()) {
            Err(refusal) => Err(refusal),
            Ok(()) => Ok(schedule),
        }
    }

    /// Whether the replica has a place in the schedules that arming takes
    /// deadlines from. A member always has.
    pub fn can_arm(&self) -> (can: bool)
        requires
            self.usable(),
        ensures
            can == self.current().can_arm(),
    {
        self.state.can_arm()
    }

    /// Arms all locally available pipeline slots and assigns each the local
    /// hedging deadline from its agreed epoch schedule. Returns how many
    /// proposals are pending.
    pub fn arm_available(&mut self, now: Span) -> (armed: Result<usize>)
        requires
            old(self).usable(),
            old(self).current().can_arm(),
        ensures
            final(self).usable(),
            runtime_course::armed(
                old(self).setting(),
                now,
                match armed {
                    Ok(count) => Ok(count as nat),
                    Err(refusal) => Err(refusal@),
                },
                final(self).setting(),
            ),
    {
        let changed = match self.state.arm() {
            Err(refusal) => {
                proof {
                    lemma_arm_keeps(old(self).current());
                }
                return Err(refusal);
            },
            Ok(changed) => changed,
        };
        proof {
            lemma_arm_keeps(old(self).current());
        }
        if changed {
            match self.persist() {
                Err(refusal) => return Err(refusal),
                Ok(()) => {},
            }
        }
        let ghost armed = self.current();
        match self.state.assign_deadlines(now) {
            Err(refusal) => {
                proof {
                    lemma_assign_keeps(armed, now);
                }
                return Err(refusal);
            },
            Ok(()) => {},
        }
        proof {
            lemma_assign_keeps(armed, now);
        }
        Ok(self.state.pending_len())
    }
}

/// Arming leaves configuration, schedules and decisions as they are.
proof fn lemma_arm_keeps<V>(view: RuntimeView<V>)
    ensures
        view.arm().0.config == view.config,
        view.arm().0.decisions == view.decisions,
{
    runtime_state::lemma_arming_keeps(view);
}

/// Assigning deadlines leaves configuration and decisions as they are.
proof fn lemma_assign_keeps<V>(view: RuntimeView<V>, now: Span)
    ensures
        view.assign_deadlines(now).0.config == view.config,
        view.assign_deadlines(now).0.decisions == view.decisions,
{
    let slots = view.unarmed_of(collections::in_order(view.pending.dom()));
    runtime_state::lemma_deadlines_keep(view, slots, now);
    match view.deadlines(slots, now) {
        (after, Ok(list)) => {
            runtime_state::lemma_with_deadlines_keeps(after, slots, list);
        },
        _ => {},
    }
}

/// A delivery leaves all but deliveries as it is.
proof fn lemma_delivery_is_due<V>(view: RuntimeView<V>, slots: Seq<SlotIndex>)
    requires
        view.first_delivery(slots) is Some,
    ensures
        ({
            let delivery = view.first_delivery(slots)->0;
            exists|k: int|
                0 <= k < slots.len() && view.delivery_of(#[trigger] slots[k]) == Some(delivery)
                    && view.first_delivery(slots.take(k)) is None
        }),
    decreases slots.len(),
{
    let rest = slots.drop_last();
    if view.first_delivery(rest) is Some {
        lemma_delivery_is_due(view, rest);
        let delivery = view.first_delivery(rest)->0;
        let k = choose|k: int|
            0 <= k < rest.len() && view.delivery_of(#[trigger] rest[k]) == Some(delivery)
                && view.first_delivery(rest.take(k)) is None;
        assert(slots[k] == rest[k]);
        assert(rest.take(k) =~= slots.take(k));
    } else {
        let k = slots.len() - 1;
        assert(slots[k] == slots.last());
        assert(slots.take(k) =~= rest);
    }
}

/// How much is left to deliver.
spec fn left_to_deliver<V>(view: RuntimeView<V>, slots: Seq<SlotIndex>) -> nat
    decreases slots.len(),
{
    if slots.len() == 0 {
        0
    } else {
        let slot = slots.last();
        let own: nat = if slot.0 > view.committed_through().0 {
            0
        } else if !view.executed.contains(view.decisions[slot].slot) {
            if view.notified.contains(view.decisions[slot].slot) {
                1
            } else {
                2
            }
        } else if !view.notified.contains(view.decisions[slot].slot) {
            1
        } else {
            0
        };
        left_to_deliver(view, slots.drop_last()) + own
    }
}

/// A delivery leaves less to deliver.
proof fn lemma_delivery_progresses<V>(
    view: RuntimeView<V>,
    after: RuntimeView<V>,
    slots: Seq<SlotIndex>,
    delivery: DeliveryView<V>,
)
    requires
        after == view.delivered(delivery),
    ensures
        left_to_deliver(after, slots) <= left_to_deliver(view, slots),
        (exists|k: int|
            0 <= k < slots.len() && view.delivery_of(#[trigger] slots[k]) == Some(delivery))
            ==> left_to_deliver(after, slots) < left_to_deliver(view, slots),
    decreases slots.len(),
{
    if slots.len() > 0 {
        let rest = slots.drop_last();
        lemma_delivery_progresses(view, after, rest, delivery);
        if exists|k: int|
            0 <= k < slots.len() && view.delivery_of(#[trigger] slots[k]) == Some(delivery) {
            let k = choose|k: int|
                0 <= k < slots.len() && view.delivery_of(#[trigger] slots[k]) == Some(delivery);
            if k < rest.len() {
                assert(rest[k] == slots[k]);
            } else {
                assert(slots[k] == slots.last());
            }
        }
    }
}

/// While nothing before a slot is due, no client is left to be told before it.
proof fn lemma_nothing_untold_before<V>(view: RuntimeView<V>, slots: Seq<SlotIndex>)
    requires
        view.first_delivery(slots) is None,
    ensures
        untold(view, slots) == Seq::<DecisionView<V>>::empty(),
    decreases slots.len(),
{
    if slots.len() > 0 {
        lemma_nothing_untold_before(view, slots.drop_last());
    }
}

/// Executing changes nothing of whom to tell.
proof fn lemma_untold_after_execution<V>(
    view: RuntimeView<V>,
    after: RuntimeView<V>,
    slots: Seq<SlotIndex>,
)
    requires
        after == (RuntimeView { executed: after.executed, ..view }),
    ensures
        untold(after, slots) == untold(view, slots),
    decreases slots.len(),
{
    if slots.len() > 0 {
        lemma_untold_after_execution(view, after, slots.drop_last());
    }
}

/// Telling of the first untold decision leaves the others.
proof fn lemma_untold_after_notice<V>(
    view: RuntimeView<V>,
    after: RuntimeView<V>,
    slots: Seq<SlotIndex>,
    k: int,
)
    requires
        0 <= k < slots.len(),
        slots.no_duplicates(),
        forall|i: int|
            0 <= i < slots.len() ==> view.decisions[#[trigger] slots[i]].slot == slots[i],
        view.first_delivery(slots.take(k)) is None,
        view.delivery_of(slots[k]) == Some(DeliveryView::Notify(view.decisions[slots[k]])),
        after == view.delivered(DeliveryView::Notify(view.decisions[slots[k]])),
    ensures
        untold(view, slots) == seq![view.decisions[slots[k]]] + untold(after, slots),
    decreases slots.len(),
{
    let rest = slots.drop_last();
    let told = view.decisions[slots[k]];
    assert(slots[slots.len() - 1] == slots.last());
    if k == slots.len() - 1 {
        assert(slots.take(k) =~= rest);
        lemma_nothing_untold_before(view, rest);
        lemma_less_untold(view, after, rest);
        assert(untold(view, slots) =~= seq![told] + untold(after, slots));
    } else {
        assert(rest.no_duplicates());
        assert forall|i: int| 0 <= i < rest.len() implies view.decisions[#[trigger] rest[i]].slot
            == rest[i] by {
            assert(rest[i] == slots[i]);
        }
        assert(rest.take(k) =~= slots.take(k));
        assert(rest[k] == slots[k]);
        lemma_untold_after_notice(view, after, rest, k);
        assert(slots[k] != slots.last());
        assert(untold(view, slots) =~= seq![told] + untold(after, slots));
    }
}

/// Telling clients never adds someone to tell.
proof fn lemma_less_untold<V>(
    view: RuntimeView<V>,
    after: RuntimeView<V>,
    slots: Seq<SlotIndex>,
)
    requires
        untold(view, slots) == Seq::<DecisionView<V>>::empty(),
        after == (RuntimeView { notified: after.notified, ..view }),
        view.notified.subset_of(after.notified),
    ensures
        untold(after, slots) == Seq::<DecisionView<V>>::empty(),
    decreases slots.len(),
{
    if slots.len() > 0 {
        let rest = slots.drop_last();
        if untold(view, rest).len() > 0 {
            assert(untold(view, slots).len() > 0);
        }
        assert(untold(view, rest) =~= Seq::<DecisionView<V>>::empty());
        lemma_less_untold(view, after, rest);
    }
}

impl<
    V: Key,
    C,
    R,
    S: RuntimeStateStore<V>,
    E: StateMachine<V>,
    N: ClientNotifier<V>,
> ReplicaRuntime<V, C, R, S, E, N> {
    /// Makes the delivery that is due first and remembers durably that it was
    /// made. Returns the decision that the listener was told, if it was.
    fn deliver(&mut self, delivery: Delivery<V>) -> (done: Result<Option<Decision<V>>>)
        requires
            old(self).usable(),
            old(self).current().next_delivery() == Some(delivery@),
        ensures
            final(self).usable(),
            final(self).same_surroundings(old(self)),
            final(self).current() == old(self).current() || final(self).current() == old(
                self,
            ).current().delivered(delivery@),
            runtime_course::delivered(
                old(self).setting(),
                match done {
                    Ok(_) => Ok(()),
                    Err(refusal) => Err(refusal@),
                },
                final(self).setting(),
            ),
            done matches Ok(told) ==> {
                &&& final(self).current() == old(self).current().delivered(delivery@)
                &&& types::option_view(told) == match delivery@ {
                    DeliveryView::Execute(_) => None,
                    DeliveryView::Notify(decision) => Some(decision),
                }
            },
    {
        reveal(runtime_course::delivered);
        match delivery {
            Delivery::Execute(decision) => {
                match self.state_machine.execute(&decision) {
                    Err(refusal) => return Err(refusal),
                    Ok(()) => {},
                }
                self.state.mark_executed(decision.slot);
                match self.persist() {
                    Err(refusal) => Err(refusal),
                    Ok(()) => Ok(None),
                }
            },
            Delivery::Notify(decision) => {
                match self.notifier.committed(&decision) {
                    Err(refusal) => return Err(refusal),
                    Ok(()) => {},
                }
                self.state.mark_notified(decision.slot);
                match self.persist() {
                    Err(refusal) => Err(refusal),
                    Ok(()) => Ok(Some(decision)),
                }
            },
        }
    }

    /// Makes all deliveries that are due, in slot order. Returns what the
    /// listener was told.
    fn deliver_all(&mut self) -> (delivered: Result<Vec<Decision<V>>>)
        requires
            old(self).usable(),
        ensures
            final(self).usable(),
            final(self).same_surroundings(old(self)),
            final(self).current() == (RuntimeView {
                executed: final(self).current().executed,
                notified: final(self).current().notified,
                ..old(self).current()
            }),
            old(self).current().executed.subset_of(final(self).current().executed),
            old(self).current().notified.subset_of(final(self).current().notified),
            runtime_course::all_delivered(
                old(self).setting(),
                list_outcome(delivered),
                final(self).setting(),
            ),
            delivered matches Ok(list) ==> {
                &&& final(self).current().next_delivery() is None
                &&& keyed(old(self).current()) ==> types::list_view(list@) == undelivered(
                    old(self).current(),
                )
            },
    {
        let ghost before = self.current();
        let ghost slots = collections::in_order(before.decisions.dom());
        let mut delivered: Vec<Decision<V>> = Vec::new();
        let mut next: Option<Delivery<V>> = self.state.next_delivery();
        proof {
            runtime_state::lemma_decisions_are_listed(self.state);
        }
        let ghost mut settings: Seq<SettingView<V, C, R, S, E, N>> = seq![self.setting()];
        assert(types::list_view(delivered@) =~= Seq::<DecisionView<V>>::empty());
        assert(types::list_view(delivered@) + untold(before, slots) =~= untold(before, slots));
        while next.is_some()
            invariant
                self.usable(),
                self.recorder_ids() == old(self).recorder_ids(),
                self.proposes_with() == old(self).proposes_with(),
                before == old(self).current(),
                self.current() == (RuntimeView {
                    executed: self.current().executed,
                    notified: self.current().notified,
                    ..before
                }),
                before.executed.subset_of(self.current().executed),
                before.notified.subset_of(self.current().notified),
                slots == collections::in_order(before.decisions.dom()),
                collections::lists_set(slots, before.decisions.dom()),
                types::option_view(next) == self.current().next_delivery(),
                keyed(before) ==> types::list_view(delivered@) + untold(self.current(), slots)
                    == untold(before, slots),
                runtime_course::deliveries(settings),
                settings[0] == old(self).setting(),
                settings.last() == self.setting(),
                types::list_view(delivered@) == runtime_course::told_along(settings),
            decreases left_to_deliver(self.current(), slots),
        {
            let ghost start = self.current();
            proof {
                lemma_delivery_is_due(start, slots);
            }
            let ghost met = self.setting();
            let delivery: Delivery<V> = match next {
                Some(delivery) => delivery,
                None => return Ok(delivered),
            };
            let told: Option<Decision<V>> = match self.deliver(delivery) {
                Err(refusal) => {
                    assert(runtime_course::deliveries(settings));
                    return Err(refusal);
                },
                Ok(told) => told,
            };
            let ghost after = self.current();
            proof {
                lemma_one_more_delivery(settings, self.setting());
                settings = settings.push(self.setting());
                lemma_delivery_progresses(start, after, slots, delivery@);
                match delivery@ {
                    DeliveryView::Execute(_) => {
                        lemma_untold_after_execution(start, after, slots);
                    },
                    DeliveryView::Notify(_) => {
                        if keyed(before) {
                            collections::lemma_ascending_distinct(slots);
                            let k = choose|k: int|
                                0 <= k < slots.len() && start.delivery_of(#[trigger] slots[k])
                                    == Some(delivery@) && start.first_delivery(slots.take(k)) is None;
                            lemma_untold_after_notice(start, after, slots, k);
                        }
                    },
                }
            }
            let ghost listed = delivered@;
            match told {
                None => {},
                Some(decision) => {
                    delivered.push(decision);
                    assert(types::list_view(delivered@) =~= types::list_view(listed).push(
                        decision@,
                    ));
                    assert(keyed(before) ==> types::list_view(listed) + untold(start, slots)
                        =~= types::list_view(delivered@) + untold(after, slots));
                },
            }
            next = self.state.next_delivery();
        }
        proof {
            lemma_nothing_untold_before(self.current(), slots);
            assert(types::list_view(delivered@) + Seq::<DecisionView<V>>::empty()
                =~= types::list_view(delivered@));
            assert(runtime_course::deliveries(settings));
        }
        Ok(delivered)
    }

    /// Counts committed slots for their leaders, then executes and tells of all
    /// that is committed, in slot order, and remembers durably what was done
    /// after each step. Returns what clients were told.
    fn dispatch_committed(&mut self) -> (delivered: Result<Vec<Decision<V>>>)
        requires
            old(self).usable(),
        ensures
            final(self).usable(),
            final(self).same_surroundings(old(self)),
            runtime_course::dispatched(
                old(self).setting(),
                list_outcome(delivered),
                final(self).setting(),
            ),
            delivered matches Ok(list) ==> {
                &&& all_delivered(old(self).current(), final(self).current())
                &&& keyed(old(self).current()) ==> types::list_view(list@) == undelivered(
                    old(self).current(),
                )
            },
    {
        let ghost before = self.current();
        let ghost slots = collections::in_order(before.decisions.dom());
        proof {
            lemma_noting_keeps(before, slots);
        }
        proof {
            crate::runtime_state::lemma_ready_is_led(self.state@);
        }
        let stats_changed = match self.state.note_committed() {
            Err(refusal) => return Err(refusal),
            Ok(changed) => changed,
        };
        let ghost start = self.setting();
        proof {
            lemma_untold_ignores_statistics(before, self.current(), slots);
        }
        if stats_changed {
            match self.persist() {
                Err(refusal) => return Err(refusal),
                Ok(()) => {},
            }
        }
        assert(runtime_course::saved_if(start, stats_changed, self.setting()));
        self.deliver_all()
    }
}

/// One more delivery adds to what was told if it tells the listener.
proof fn lemma_one_more_delivery<
    V: Key,
    C,
    R,
    S: RuntimeStateStore<V>,
    E: StateMachine<V>,
    N: ClientNotifier<V>,
>(settings: Seq<SettingView<V, C, R, S, E, N>>, after: SettingView<V, C, R, S, E, N>)
    requires
        runtime_course::deliveries(settings),
        runtime_course::delivered(settings.last(), Ok(()), after),
    ensures
        runtime_course::deliveries(settings.push(after)),
        runtime_course::told_along(settings.push(after)) == match settings.last().state.next_delivery() {
            Some(DeliveryView::Notify(decision)) => runtime_course::told_along(settings).push(
                decision,
            ),
            _ => runtime_course::told_along(settings),
        },
{
    let longer = settings.push(after);
    assert(longer.drop_last() =~= settings);
    assert forall|i: int| 1 <= i < longer.len() implies runtime_course::delivered(
        longer[i - 1],
        Ok(()),
        #[trigger] longer[i],
    ) by {
        if i < settings.len() {
            assert(longer[i] == settings[i]);
        }
    }
}

/// Noting committed slots changes leader statistics only.
proof fn lemma_noting_keeps<V>(view: RuntimeView<V>, slots: Seq<SlotIndex>)
    ensures
        view.note_slots(slots).0 == (RuntimeView { tuner: view.note_slots(slots).0.tuner, ..view }),
    decreases slots.len(),
{
    if slots.len() > 0 {
        lemma_noting_keeps(view, slots.drop_last());
    }
}

/// Whom to tell does not depend on leader statistics.
proof fn lemma_untold_ignores_statistics<V>(
    view: RuntimeView<V>,
    after: RuntimeView<V>,
    slots: Seq<SlotIndex>,
)
    requires
        after == (RuntimeView { tuner: after.tuner, ..view }),
    ensures
        untold(after, slots) == untold(view, slots),
    decreases slots.len(),
{
    if slots.len() > 0 {
        lemma_untold_ignores_statistics(view, after, slots.drop_last());
    }
}

/// Acknowledgements only add up.
proof fn lemma_announcing_adds<V>(
    before: RuntimeView<V>,
    view: RuntimeView<V>,
    ids: Seq<ReplicaId>,
    slot: SlotIndex,
    member: ReplicaId,
)
    requires
        more_announced(before, view, ids),
        before.decisions.dom().contains(slot),
        ids.contains(member),
    ensures
        more_announced(before, view.announced(slot, member), ids),
{
    let after = view.announced(slot, member);
    assert forall|other: SlotIndex, who: ReplicaId| #[trigger]
        after.is_announced(other, who) implies before.is_announced(other, who) || (
    before.decisions.dom().contains(other) && ids.contains(who)) by {
        if !(other == slot && who == member) {
            assert(view.is_announced(other, who));
        }
    }
    assert forall|other: SlotIndex, who: ReplicaId| #[trigger]
        before.is_announced(other, who) implies after.is_announced(other, who) by {
        assert(view.is_announced(other, who));
    }
}

impl<
    V: Key,
    C: RecorderClient<V>,
    R: PrioritySource,
    S: RuntimeStateStore<V>,
    E: StateMachine<V>,
    N: ClientNotifier<V>,
> ReplicaRuntime<V, C, R, S, E, N> {
    /// Offers the decision of a slot to every recorder that has not acknowledged
    /// it; whether one more has.
    fn spread_decision(&mut self, slot: SlotIndex, decision: &Decision<V>) -> (changed: bool)
        requires
            old(self).usable(),
            old(self).current().decisions.dom().contains(slot),
            decision@ == old(self).current().decisions[slot],
        ensures
            final(self).usable(),
            final(self).same_surroundings(old(self)),
            final(self).store() == old(self).store(),
            more_announced(
                old(self).current(),
                final(self).current(),
                old(self).recorder_ids(),
            ),
            runtime_course::spread(old(self).setting(), slot, final(self).setting()),
            !changed ==> final(self).current() == old(self).current(),
            changed ==> exists|member: ReplicaId| #[trigger]
                final(self).current().is_announced(slot, member) && !old(
                    self,
                ).current().is_announced(slot, member),
    {
        let ghost before = self.current();
        let ghost ids = self.recorder_ids();
        let ghost count = self.endpoints().len();
        let ghost mut settings: Seq<SettingView<V, C, R, S, E, N>> = seq![self.setting()];
        let mut changed = false;
        let mut j: usize = 0;
        while j < self.recorders.len()
            invariant
                j <= self.recorders@.len() == count,
                count == old(self).endpoints().len(),
                before == old(self).current(),
                before.decisions.dom().contains(slot),
                decision@ == before.decisions[slot],
                ids == old(self).recorder_ids(),
                self.usable(),
                self.recorder_ids() == ids,
                self.proposes_with() == old(self).proposes_with(),
                self.store() == old(self).store(),
                more_announced(before, self.current(), ids),
                !changed ==> self.current() == before,
                changed ==> exists|member: ReplicaId|
                    #[trigger] self.current().is_announced(slot, member) && !before.is_announced(
                        slot,
                        member,
                    ),
                runtime_course::offers(settings, slot),
                settings.len() == j + 1,
                settings[0] == old(self).setting(),
                settings.last() == self.setting(),
            decreases self.recorders@.len() - j,
        {
            let ghost start = self.setting();
            let member: ReplicaId = self.recorders[j].id();
            assert(ids[j as int] == member);
            if !self.state.is_announced(slot, member) {
                let ghost handles = self.recorders@;
                let mut told: Vec<Decision<V>> = Vec::new();
                told.push(decision.duplicate_value());
                assert(types::list_view(told@) =~= seq![decision@]);
                let answer: Result<()> = self.recorders[j].call_inform(told.as_slice());
                let ghost outcome: std::result::Result<(), ErrorView> = error::outcome(answer);
                assert(round::handle_ids(self.recorders@) =~= round::handle_ids(handles));
                assert(self.recorders@ =~= handles.update(j as int, self.recorders@[j as int]));
                if answer.is_ok() {
                    proof {
                        lemma_announcing_adds(before, self.current(), ids, slot, member);
                        assert(!before.is_announced(slot, member));
                    }
                    self.state.mark_announced(slot, member);
                    changed = true;
                    assert(self.current().is_announced(slot, member));
                }
                assert(runtime_course::informed(
                    start.endpoints[j as int],
                    start.state.decisions[slot],
                    outcome,
                    self.setting().endpoints[j as int],
                ));
            }
            proof {
                assert(runtime_course::offered(start, slot, j as int, self.setting()));
                let longer = settings.push(self.setting());
                assert forall|i: int| 1 <= i < longer.len() implies runtime_course::offered(
                    longer[i - 1],
                    slot,
                    i - 1,
                    #[trigger] longer[i],
                ) by {
                    if i < settings.len() {
                        assert(longer[i] == settings[i]);
                    }
                }
                settings = longer;
            }
            j += 1;
        }
        assert(runtime_course::offers(settings, slot));
        changed
    }

    /// Tells every recorder of every decision that it has not acknowledged, and
    /// remembers durably who has. Failures are retried later.
    fn flush_decision_notifications(&mut self) -> (flushed: Result<()>)
        requires
            old(self).usable(),
        ensures
            final(self).usable(),
            final(self).same_surroundings(old(self)),
            more_announced(
                old(self).current(),
                final(self).current(),
                old(self).recorder_ids(),
            ),
            runtime_course::flushed(
                old(self).setting(),
                error::outcome(flushed),
                final(self).setting(),
            ),
    {
        let announcements: Vec<Decision<V>> = self.state.decisions();
        let ghost before = self.current();
        let ghost ids = self.recorder_ids();
        let ghost slots = collections::in_order(before.decisions.dom());
        let ghost mut settings: Seq<SettingView<V, C, R, S, E, N>> = seq![self.setting()];
        let mut changed = false;
        let mut i: usize = 0;
        while i < announcements.len()
            invariant
                i <= announcements@.len(),
                announcements@.len() == slots.len(),
                slots == collections::in_order(before.decisions.dom()),
                collections::lists_set(slots, before.decisions.dom()),
                before == old(self).current(),
                ids == old(self).recorder_ids(),
                self.usable(),
                self.recorder_ids() == ids,
                self.proposes_with() == old(self).proposes_with(),
                self.store() == old(self).store(),
                more_announced(before, self.current(), ids),
                !changed ==> self.current() == before,
                changed ==> exists|slot: SlotIndex, member: ReplicaId| #[trigger]
                    self.current().is_announced(slot, member) && !before.is_announced(slot, member),
                forall|k: int|
                    0 <= k < announcements@.len() ==> (#[trigger] announcements@[k])@
                        == before.decisions[slots[k]],
                runtime_course::spreads(settings, slots),
                settings.len() == i + 1,
                settings[0] == old(self).setting(),
                settings.last() == self.setting(),
            decreases announcements@.len() - i,
        {
            assert(self.current().decisions == before.decisions);
            assert(slots == collections::in_order(before.decisions.dom()));
            let ghost start = self.setting();
            let slot: SlotIndex = match self.state.slot_at(i) {
                Some(slot) => slot,
                None => announcements[i].slot,
            };
            assert(slot == slots[i as int]);
            assert(before.decisions.dom().contains(slots[i as int]));
            if self.spread_decision(slot, &announcements[i]) {
                changed = true;
            }
            proof {
                lemma_announcing_chains(before, start.state, self.current(), ids);
                if exists|slot: SlotIndex, member: ReplicaId| #[trigger]
                    start.state.is_announced(slot, member) && !before.is_announced(slot, member) {
                    let (slot, member) = choose|slot: SlotIndex, member: ReplicaId| #[trigger]
                        start.state.is_announced(slot, member) && !before.is_announced(
                            slot,
                            member,
                        );
                    assert(self.current().is_announced(slot, member));
                }
                let longer = settings.push(self.setting());
                assert forall|k: int| 1 <= k < longer.len() implies runtime_course::spread(
                    longer[k - 1],
                    slots[k - 1],
                    #[trigger] longer[k],
                ) by {
                    if k < settings.len() {
                        assert(longer[k] == settings[k]);
                    }
                }
                settings = longer;
            }
            i += 1;
        }
        assert(runtime_course::spreads(settings, slots));
        if changed {
            return self.persist();
        }
        Ok(())
    }

    /// Accepts a decision received through the authenticated replica transport.
    /// The runtime persists it, executes all newly contiguous decisions, and
    /// retries best-effort dissemination to recorder endpoints.
    pub fn receive_decision(&mut self, decision: Decision<V>) -> (delivered: Result<
        Vec<Decision<V>>,
    >)
        requires
            old(self).usable(),
        ensures
            final(self).usable(),
            final(self).same_surroundings(old(self)),
            runtime_course::received(
                old(self).setting(),
                decision@,
                list_outcome(delivered),
                final(self).setting(),
            ),
            delivered matches Ok(list) ==> {
                let accepted = old(self).current().accept(decision@);
                &&& accepted.1 is Ok
                &&& accepted.1 != Ok::<Acceptance, ErrorView>(Acceptance::Checkpointed) ==> exists|
                    done: RuntimeView<V>,
                | #[trigger]
                    all_delivered(accepted.0, done) && more_announced(
                        done,
                        final(self).current(),
                        old(self).recorder_ids(),
                    )
                &&& accepted.1 != Ok::<Acceptance, ErrorView>(Acceptance::Checkpointed) && keyed(
                    accepted.0,
                ) ==> types::list_view(list@) == undelivered(accepted.0)
            },
    {
        proof {
            lemma_accept_keeps(old(self).current(), decision@);
        }
        let acceptance: Acceptance = match self.state.accept(&decision) {
            Err(refusal) => return Err(refusal),
            Ok(acceptance) => acceptance,
        };
        let ghost start = self.setting();
        match acceptance {
            Acceptance::Checkpointed => {
                let none: Vec<Decision<V>> = Vec::new();
                assert(types::list_view(none@) =~= Seq::<DecisionView<V>>::empty());
                return Ok(none);
            },
            Acceptance::Known => {},
            Acceptance::New => {
                match self.persist() {
                    Err(refusal) => return Err(refusal),
                    Ok(()) => {},
                }
                assert(runtime_course::saved(start, Ok(()), self.setting()));
            },
        }
        self.recover()
    }

    /// Takes in the decision that a local proposal reached, and how long that
    /// took.
    pub fn complete_proposal(&mut self, decision: Decision<V>, elapsed: Span) -> (delivered: Result<
        Vec<Decision<V>>,
    >)
        requires
            old(self).usable(),
        ensures
            final(self).usable(),
            final(self).same_surroundings(old(self)),
            ({
                let observed = RuntimeView {
                    hedge: old(self).current().hedge.observe(elapsed),
                    ..old(self).current()
                };
                let (accepted, acceptance) = observed.accept(decision@);
                &&& runtime_course::received(
                    SettingView { state: observed, ..old(self).setting() },
                    decision@,
                    list_outcome(delivered),
                    final(self).setting(),
                )
                &&& delivered matches Ok(list) ==> acceptance is Ok && (acceptance != Ok::<
                    Acceptance,
                    ErrorView,
                >(Acceptance::Checkpointed) ==> {
                    &&& exists|done: RuntimeView<V>| #[trigger]
                        all_delivered(accepted, done) && more_announced(
                            done,
                            final(self).current(),
                            old(self).recorder_ids(),
                        )
                    &&& keyed(accepted) ==> types::list_view(list@) == undelivered(accepted)
                })
            }),
    {
        self.state.observe_consensus(elapsed);
        self.receive_decision(decision)
    }

    /// Replays committed-but-undelivered work after restoring durable state.
    pub fn recover(&mut self) -> (delivered: Result<Vec<Decision<V>>>)
        requires
            old(self).usable(),
        ensures
            final(self).usable(),
            final(self).same_surroundings(old(self)),
            runtime_course::caught_up(
                old(self).setting(),
                list_outcome(delivered),
                final(self).setting(),
            ),
            delivered matches Ok(list) ==> {
                &&& exists|done: RuntimeView<V>| #[trigger]
                    all_delivered(old(self).current(), done) && more_announced(
                        done,
                        final(self).current(),
                        old(self).recorder_ids(),
                    )
                &&& keyed(old(self).current()) ==> types::list_view(list@) == undelivered(
                    old(self).current(),
                )
            },
    {
        let delivered: Vec<Decision<V>> = match self.dispatch_committed() {
            Err(refusal) => return Err(refusal),
            Ok(delivered) => delivered,
        };
        let ghost done = self.current();
        assert(runtime_course::dispatched(
            old(self).setting(),
            Ok(types::list_view(delivered@)),
            self.setting(),
        ));
        match self.flush_decision_notifications() {
            Err(refusal) => return Err(refusal),
            Ok(()) => {},
        }
        assert(all_delivered(old(self).current(), done));
        Ok(delivered)
    }

    /// Drops local protocol state only after the application state machine has
    /// durably checkpointed every slot through `slot`, and every member has
    /// acknowledged the decisions.
    pub fn checkpoint_through(&mut self, slot: SlotIndex) -> (result: Result<()>)
        requires
            old(self).usable(),
        ensures
            final(self).usable(),
            final(self).same_surroundings(old(self)),
            runtime_course::pruned(
                old(self).setting(),
                slot,
                error::outcome(result),
                final(self).setting(),
            ),
            result is Ok ==> exists|told: RuntimeView<V>|
                {
                    &&& #[trigger] more_announced(
                        old(self).current(),
                        told,
                        old(self).recorder_ids(),
                    )
                    &&& told.checkpoint_error(slot) is None
                    &&& final(self).current() == told.checkpointed(slot)
                    &&& final(self).store().persisted() == Some(final(self).current().snapshot())
                },
            result is Err ==> told_of(
                old(self).current(),
                final(self).current(),
                old(self).recorder_ids(),
                slot,
            ),
    {
        match self.flush_decision_notifications() {
            Err(refusal) => return Err(refusal),
            Ok(()) => {},
        }
        let ghost told = self.current();
        match self.state.check_checkpoint(slot) {
            Err(refusal) => return Err(refusal),
            Ok(()) => {},
        }
        self.state.drop_through(slot);
        assert(more_announced(old(self).current(), told, old(self).recorder_ids()));
        assert(told_of(old(self).current(), self.current(), old(self).recorder_ids(), slot));
        self.persist()
    }

    /// Creates an application checkpoint and matching consensus snapshot that
    /// can be installed by a replica which has fallen behind the pruning floor.
    /// All decisions through `slot` must first be acknowledged by every member.
    /// A slot below an earlier checkpoint is refused: the consensus state of its
    /// prefix is gone.
    pub fn create_state_transfer(&mut self, slot: SlotIndex) -> (transfer: Result<
        StateTransferSnapshot<V>,
    >)
        requires
            old(self).usable(),
        ensures
            final(self).usable(),
            final(self).same_surroundings(old(self)),
            runtime_course::handed_over(
                old(self).setting(),
                slot,
                error::outcome(transfer),
                final(self).setting(),
            ),
            transfer matches Ok(made) ==> {
                &&& made@.through == slot
                &&& made@.through == made@.runtime.replica.checkpointed_through
                &&& made@.checkpointed_value_ids == collections::in_order(
                    old(self).current().covered_values(slot),
                )
                &&& made@.runtime == final(self).current().snapshot()
                &&& final(self).store().persisted() == Some(final(self).current().snapshot())
                &&& exists|told: RuntimeView<V>|
                    {
                        &&& #[trigger] more_announced(
                            old(self).current(),
                            told,
                            old(self).recorder_ids(),
                        )
                        &&& told.checkpoint_error(slot) is None
                        &&& final(self).current() == told.checkpointed(slot)
                    }
            },
            transfer is Err ==> told_of(
                old(self).current(),
                final(self).current(),
                old(self).recorder_ids(),
                slot,
            ),
    {
        match self.state.check_floor(slot) {
            Err(refusal) => return Err(refusal),
            Ok(()) => {},
        }
        match self.flush_decision_notifications() {
            Err(refusal) => return Err(refusal),
            Ok(()) => {},
        }
        let ghost told = self.current();
        match self.state.check_announced(slot) {
            Err(refusal) => return Err(refusal),
            Ok(()) => {},
        }
        let checkpointed_value_ids: Vec<V> = self.state.covered_values(slot);
        proof {
            assert(told.covered_values(slot) =~= old(self).current().covered_values(slot));
        }
        let ghost spread = self.setting();
        let answer: Result<Vec<u8>> = self.state_machine.export_checkpoint(slot);
        let ghost checkpoint: std::result::Result<Seq<u8>, ErrorView> = error::outcome(answer);
        assert(spread.machine.exports(slot, checkpoint, &self.setting().machine));
        let application_checkpoint: Vec<u8> = match answer {
            Ok(bytes) => bytes,
            Err(refusal) => {
                assert(runtime_course::exported_and_pruned(
                    spread,
                    slot,
                    Err(refusal@),
                    self.setting(),
                ));
                return Err(refusal);
            },
        };
        match self.checkpoint_through(slot) {
            Err(refusal) => {
                proof {
                    lemma_telling_chains(
                        old(self).current(),
                        told,
                        self.current(),
                        old(self).recorder_ids(),
                        slot,
                    );
                }
                return Err(refusal);
            },
            Ok(()) => {},
        }
        proof {
            let again = choose|again: RuntimeView<V>|
                {
                    &&& #[trigger] more_announced(told, again, old(self).recorder_ids())
                    &&& again.checkpoint_error(slot) is None
                    &&& self.current() == again.checkpointed(slot)
                };
            lemma_announcing_chains(old(self).current(), told, again, old(self).recorder_ids());
        }
        Ok(
            StateTransferSnapshot {
                through: slot,
                checkpointed_value_ids,
                application_checkpoint,
                runtime: self.state.snapshot(),
            },
        )
    }

    /// Installs a portable application/consensus checkpoint before the runtime
    /// begins serving traffic. Application checkpoint import must be durable
    /// and idempotent so callers can retry after a process crash.
    pub fn install_state_transfer(&mut self, transfer: StateTransferSnapshot<V>) -> (result: Result<
        (),
    >)
        requires
            old(self).usable(),
        ensures
            final(self).usable(),
            final(self).same_surroundings(old(self)),
            runtime_course::taken_up(
                old(self).setting(),
                transfer@,
                error::outcome(result),
                final(self).setting(),
            ),
    {
        let next: RuntimeState<V> = match self.state.prepare_transfer(&transfer) {
            Err(refusal) => return Err(refusal),
            Ok(next) => next,
        };
        match self.state_machine.import_checkpoint(
            transfer.through,
            transfer.application_checkpoint.as_slice(),
        ) {
            Err(refusal) => return Err(refusal),
            Ok(()) => {},
        }
        match self.state_store.save(&transfer.runtime) {
            Err(refusal) => return Err(refusal),
            Ok(()) => {},
        }
        self.state = next;
        Ok(())
    }
}

/// Taking a decision in keeps configuration and tuner.
proof fn lemma_accept_keeps<V>(view: RuntimeView<V>, decision: DecisionView<V>)
    ensures
        view.accept(decision).0.config == view.config,
        view.accept(decision).0.tuner == view.tuner,
{
}

/// More acknowledgements before a runtime was told change nothing.
proof fn lemma_telling_chains<V>(
    a: RuntimeView<V>,
    b: RuntimeView<V>,
    c: RuntimeView<V>,
    ids: Seq<ReplicaId>,
    slot: SlotIndex,
)
    requires
        more_announced(a, b, ids),
        told_of(b, c, ids, slot),
    ensures
        told_of(a, c, ids, slot),
{
    if more_announced(b, c, ids) {
        lemma_announcing_chains(a, b, c, ids);
    } else {
        let told = choose|told: RuntimeView<V>|
            {
                &&& #[trigger] more_announced(b, told, ids)
                &&& told.checkpoint_error(slot) is None
                &&& c == told.checkpointed(slot)
            };
        lemma_announcing_chains(a, b, told, ids);
    }
}

/// More announced twice is more announced.
proof fn lemma_announcing_chains<V>(
    before: RuntimeView<V>,
    view: RuntimeView<V>,
    after: RuntimeView<V>,
    ids: Seq<ReplicaId>,
)
    requires
        more_announced(before, view, ids),
        more_announced(view, after, ids),
    ensures
        more_announced(before, after, ids),
{
    assert forall|slot: SlotIndex, member: ReplicaId| #[trigger]
        after.is_announced(slot, member) implies before.is_announced(slot, member) || (
    before.decisions.dom().contains(slot) && ids.contains(member)) by {
        if view.is_announced(slot, member) {
        }
    }
    assert forall|slot: SlotIndex, member: ReplicaId| #[trigger]
        before.is_announced(slot, member) implies after.is_announced(slot, member) by {
        assert(view.is_announced(slot, member));
    }
}

/// How many of the proposals of slots are due.
spec fn due_count<V>(view: RuntimeView<V>, slots: Seq<SlotIndex>, now: Span) -> nat
    decreases slots.len(),
{
    if slots.len() == 0 {
        0
    } else {
        let own: nat = match view.pending[slots.last()].ready_at {
            Some(deadline) => if deadline.nanos <= now.nanos {
                1
            } else {
                0
            },
            None => 0,
        };
        due_count(view, slots.drop_last(), now) + own
    }
}

/// Putting a due proposal off leaves fewer due.
proof fn lemma_deferring_progresses<V>(
    view: RuntimeView<V>,
    after: RuntimeView<V>,
    slots: Seq<SlotIndex>,
    slot: SlotIndex,
    now: Span,
)
    requires
        forall|other: SlotIndex| other != slot ==> #[trigger] after.pending[other]
            == view.pending[other],
        after.pending[slot].ready_at matches Some(until) && until.nanos > now.nanos,
    ensures
        due_count(after, slots, now) <= due_count(view, slots, now),
        slots.contains(slot) && (view.pending[slot].ready_at matches Some(until) && until.nanos
            <= now.nanos) ==> due_count(after, slots, now) < due_count(view, slots, now),
    decreases slots.len(),
{
    if slots.len() > 0 {
        let rest = slots.drop_last();
        lemma_deferring_progresses(view, after, rest, slot, now);
        if slots.contains(slot) && slots.last() != slot {
            let k = choose|k: int| 0 <= k < slots.len() && slots[k] == slot;
            assert(rest[k] == slot);
        }
    }
}

/// Putting off the proposal that is due first leaves fewer due.
proof fn lemma_putting_off_progresses<V: Key, C: RecorderClient<V>, R, S, E, N>(
    before: SettingView<V, C, R, S, E, N>,
    after: SettingView<V, C, R, S, E, N>,
    slots: Seq<SlotIndex>,
    now: Span,
)
    requires
        runtime_course::put_off(before, now, after),
        slots == collections::in_order(before.state.pending.dom()),
        collections::lists_set(slots, before.state.pending.dom()),
    ensures
        after.state.pending.dom() == before.state.pending.dom(),
        due_count(after.state, slots, now) < due_count(before.state, slots, now),
{
    let (slot, due) = before.state.next_deadline()->0;
    let scheduled = before.state.schedule_for(slot).0;
    lemma_earliest_is_pending(before.state, slots);
    lemma_earliest_ignores_schedules(before.state, scheduled, slots);
    lemma_due_ignores_schedules(before.state, scheduled, slots, now);
    assert(after.state.pending.dom() =~= scheduled.pending.dom());
    lemma_deferring_progresses(scheduled, after.state, slots, slot, now);
}

/// The earliest deadline is of a pending proposal.
proof fn lemma_earliest_is_pending<V>(view: RuntimeView<V>, slots: Seq<SlotIndex>)
    ensures
        view.earliest_of(slots) matches Some((slot, deadline)) ==> slots.contains(slot)
            && view.pending[slot].ready_at == Some(deadline),
    decreases slots.len(),
{
    if slots.len() > 0 {
        let rest = slots.drop_last();
        lemma_earliest_is_pending(view, rest);
        assert(slots[slots.len() - 1] == slots.last());
        if view.earliest_of(rest) is Some {
            let slot = (view.earliest_of(rest)->0).0;
            let k = choose|k: int| 0 <= k < rest.len() && rest[k] == slot;
            assert(slots[k] == slot);
        }
    }
}

impl<
    V: Key,
    C: RecorderClient<V>,
    R: PrioritySource,
    S: RuntimeStateStore<V>,
    E: StateMachine<V>,
    N: ClientNotifier<V>,
> ReplicaRuntime<V, C, R, S, E, N> {
    /// Applies the next consensus-anchored stable/joint membership epoch.
    ///
    /// The anchor must be the current committed frontier and every later slot
    /// must be drained. Every recorder in `next_recorders` acknowledges the
    /// transition durably before this runtime persists and activates it. A
    /// joining recorder may already have the target epoch after state transfer;
    /// installation is idempotent in that case. If the new state cannot be
    /// persisted, the runtime goes on under the old membership.
    #[verifier::rlimit(40)]
    pub fn install_membership(
        &mut self,
        change: MembershipChange<V>,
        next_recorders: Vec<RecorderHandle<C>>,
    ) -> (result: Result<()>)
        requires
            old(self).usable(),
        ensures
            final(self).usable(),
            runtime_course::reconfigured(
                old(self).setting(),
                change@,
                next_recorders@,
                error::outcome(result),
                final(self).setting(),
            ),
            result is Err ==> {
                &&& more_announced(
                    old(self).current(),
                    final(self).current(),
                    old(self).recorder_ids(),
                )
                &&& final(self).recorder_ids() == old(self).recorder_ids()
            },
            result is Ok && old(self).current().plan_membership(change@) == Ok::<bool, ErrorView>(
                false,
            ) ==> {
                &&& final(self).recorder_ids() == round::handle_ids(next_recorders@)
                &&& final(self).store().persisted() == Some(final(self).current().snapshot())
                &&& exists|told: RuntimeView<V>|
                    {
                        &&& #[trigger] more_announced(
                            old(self).current(),
                            told,
                            old(self).recorder_ids(),
                        )
                        &&& told.announcement_error(change@.anchor.slot) is None
                        &&& final(self).current() == told.with_membership(
                            change@.next,
                            change@.anchor.slot,
                        )
                    }
            },
    {
        let ghost before = self.current();
        let ghost old_ids = self.recorder_ids();
        let next_ids: Vec<ReplicaId> = identities(next_recorders.as_slice());
        match self.state.plan_membership(&change) {
            Err(refusal) => return Err(refusal),
            Ok(true) => {
                match validate_next_handles(next_ids.as_slice(), change.next.members()) {
                    Err(refusal) => return Err(refusal),
                    Ok(()) => {},
                }
                self.recorders = next_recorders;
                return Ok(());
            },
            Ok(false) => {},
        }
        match self.flush_decision_notifications() {
            Err(refusal) => return Err(refusal),
            Ok(()) => {},
        }
        let ghost told = self.current();
        let ghost spread = self.setting();
        assert(runtime_course::flushed(old(self).setting(), Ok(()), spread));
        match self.state.check_announced(change.anchor.slot) {
            Err(refusal) => return Err(refusal),
            Ok(()) => {},
        }
        match validate_next_handles(next_ids.as_slice(), change.next.members()) {
            Err(refusal) => return Err(refusal),
            Ok(()) => {},
        }
        let mut recorders: Vec<RecorderHandle<C>> = next_recorders;
        let mut i: usize = 0;
        while i < recorders.len()
            invariant
                i <= recorders@.len() == next_recorders@.len(),
                self.setting() == spread,
                runtime_course::flushed(old(self).setting(), Ok(()), spread),
                spread.state.announcement_error(change@.anchor.slot) is None,
                runtime_state::next_handles_error(
                    round::handle_ids(next_recorders@),
                    change@.next.members,
                ) is None,
                recorders@.skip(i as int) == next_recorders@.skip(i as int),
                runtime_course::handed_on(next_recorders@, change@, recorders@.take(i as int)),
                round::handle_ids(recorders@) == next_ids@,
                next_ids@ == round::handle_ids(next_recorders@),
                before == old(self).current(),
                old_ids == old(self).recorder_ids(),
                self.usable(),
                self.current() == told,
                self.recorder_ids() == old_ids,
                more_announced(before, told, old_ids),
                before.plan_membership(change@) == Ok::<bool, ErrorView>(false),
            decreases recorders@.len() - i,
        {
            let ghost handles = recorders@;
            assert(handles[i as int] == handles.skip(i as int)[0]);
            assert(next_recorders@[i as int] == next_recorders@.skip(i as int)[0]);
            let answer: Result<()> = recorders[i].call_install(change.duplicate_value());
            let ghost outcome: std::result::Result<(), ErrorView> = error::outcome(answer);
            let ghost asked = recorders@[i as int];
            assert(runtime_course::installed_at(
                next_recorders@[i as int],
                change@,
                outcome,
                asked,
            ));
            match answer {
                Err(refusal) => {
                    let ghost handed = handles.take(i as int);
                    assert(runtime_course::handed_on(next_recorders@, change@, handed));
                    assert(runtime_course::installed_at(
                        next_recorders@[handed.len() as int],
                        change@,
                        outcome,
                        asked,
                    ));
                    assert(runtime_course::activated(
                        spread,
                        change@,
                        next_recorders@,
                        outcome,
                        self.setting(),
                    ));
                    return Err(refusal);
                },
                Ok(()) => {},
            }
            assert(round::handle_ids(recorders@) =~= round::handle_ids(handles));
            proof {
                let handed = recorders@.take(i + 1);
                assert forall|k: int| 0 <= k < handed.len() implies runtime_course::installed_at(
                    next_recorders@[k],
                    change@,
                    Ok(()),
                    #[trigger] handed[k],
                ) by {
                    if k < i {
                        assert(handed[k] == handles.take(i as int)[k]);
                    }
                }
                assert forall|k: int| 0 <= k < recorders@.len() - (i + 1) implies (
                #[trigger] recorders@.skip(i + 1)[k]) == next_recorders@.skip(i + 1)[k] by {
                    assert(handles.skip(i as int)[k + 1] == next_recorders@.skip(i as int)[k + 1]);
                }
                assert(recorders@.skip(i + 1) =~= next_recorders@.skip(i + 1));
            }
            i += 1;
        }
        let ghost handed = recorders@;
        assert(handed.take(i as int) =~= handed);
        let saved: RuntimeState<V> = self.state.duplicate_value();
        let old_cluster: ClusterIdentity = self.state.config().cluster_identity().duplicate_value();
        proof {
            crate::runtime_state::lemma_ready_is_led(self.state@);
        }
        self.state.install_membership(change.next.duplicate_value(), change.anchor.slot);
        self.proposer.configure_cluster(change.next.duplicate_value());
        std::mem::swap(&mut self.recorders, &mut recorders);
        let ghost moved = self.setting();
        match self.persist() {
            Err(refusal) => {
                assert(runtime_course::saved(moved, Err(refusal@), self.setting()));
                self.state = saved;
                self.proposer.configure_cluster(old_cluster);
                std::mem::swap(&mut self.recorders, &mut recorders);
                assert(runtime_course::activated(
                    spread,
                    change@,
                    next_recorders@,
                    Err(refusal@),
                    self.setting(),
                ));
                Err(refusal)
            },
            Ok(()) => {
                assert(runtime_course::activated(
                    spread,
                    change@,
                    next_recorders@,
                    Ok(()),
                    self.setting(),
                ));
                Ok(())
            },
        }
    }

    /// Best-effort, read-only probe of the slot's highest step across idle
    /// recorder endpoints. Errors and busy endpoints are simply skipped.
    fn probe_slot_step(&mut self, slot: SlotIndex) -> (highest: Option<Step>)
        ensures
            final(self).same_surroundings(old(self)),
            runtime_course::probed(old(self).setting(), slot, highest, final(self).setting()),
    {
        let ghost ids = self.recorder_ids();
        let ghost handles = self.recorders@;
        let ghost mut found: Seq<Option<Step>> = Seq::empty();
        let mut highest: Option<Step> = None;
        let mut i: usize = 0;
        while i < self.recorders.len()
            invariant
                i <= self.recorders@.len() == handles.len(),
                handles == old(self).endpoints(),
                self.setting() == (SettingView {
                    endpoints: self.recorders@,
                    ..old(self).setting()
                }),
                found.len() == i,
                highest == runtime_course::highest_step(found),
                forall|k: int|
                    0 <= k < i ==> runtime_course::asked::<V, C>(
                        handles[k],
                        slot,
                        #[trigger] found[k],
                        self.recorders@[k],
                    ),
                forall|k: int|
                    i <= k < handles.len() ==> #[trigger] self.recorders@[k] == handles[k],
                self.current() == old(self).current(),
                self.store() == old(self).store(),
                self.recorder_ids() == ids,
                ids == old(self).recorder_ids(),
                self.proposes_with() == old(self).proposes_with(),
            decreases self.recorders@.len() - i,
        {
            let ghost asking = self.recorders@;
            let mut step: Option<Step> = None;
            if self.recorders[i].is_idle() {
                let answer: Result<Option<Step>> = self.recorders[i].call_status(slot);
                let ghost reply = crate::proposer::step_outcome(answer);
                assert(handles[i as int].endpoint().reports(
                    slot,
                    reply,
                    &self.recorders@[i as int].endpoint(),
                ));
                match answer {
                    Ok(reported) => {
                        step = reported;
                    },
                    Err(_) => {},
                }
                assert(round::handle_ids(self.recorders@) =~= round::handle_ids(asking));
            }
            highest = match (highest, step) {
                (Some(held), Some(step)) => if step.0 > held.0 {
                    Some(step)
                } else {
                    Some(held)
                },
                (Some(held), None) => Some(held),
                (None, step) => step,
            };
            proof {
                let more = found.push(step);
                assert(more.drop_last() =~= found);
                assert forall|k: int| 0 <= k < i + 1 implies runtime_course::asked::<V, C>(
                    handles[k],
                    slot,
                    #[trigger] more[k],
                    self.recorders@[k],
                ) by {
                    if k < i {
                        assert(more[k] == found[k]);
                    }
                }
                found = more;
            }
            i += 1;
        }
        assert(runtime_course::all_asked::<V, C>(
            old(self).setting().endpoints,
            slot,
            found,
            self.setting().endpoints,
        ));
        highest
    }

    /// Polls the runtime without sleeping. `Waiting` reports the next local
    /// hedging deadline; an incoming decision may be supplied before then via
    /// [`receive_decision`](Self::receive_decision) to suppress this proposal.
    /// `Propose` hands out a proposal that is due.
    ///
    /// Decision dissemination is deliberately separate from consensus requests.
    /// Keeping it here makes retries automatic without attaching the entire
    /// retained decision log to every phase-zero request. A hedged proposer that
    /// observes the slot's step advancing defers for another hedging interval
    /// rather than duplicating a live proposer's work.
    pub fn poll(&mut self, now: Span) -> (next: Result<RuntimePoll<V>>)
        requires
            old(self).usable(),
            old(self).current().can_arm(),
        ensures
            final(self).usable(),
            final(self).same_surroundings(old(self)),
            final(self).current().config == old(self).current().config,
            final(self).current().decisions == old(self).current().decisions,
            runtime_course::polled(
                old(self).setting(),
                now,
                error::outcome(next),
                final(self).setting(),
            ),
    {
        match self.flush_decision_notifications() {
            Err(refusal) => return Err(refusal),
            Ok(()) => {},
        }
        let ghost told = self.setting();
        assert(runtime_course::flushed(old(self).setting(), Ok(()), told));
        proof {
            lemma_arm_keeps(told.state);
            lemma_assign_keeps(told.state.arm().0, now);
            runtime_state::lemma_places_ignore_acknowledgements(
                old(self).current(),
                told.state,
            );
        }
        match self.arm_available(now) {
            Err(refusal) => {
                assert(runtime_course::went_on(told, now, Err(refusal@), self.setting()));
                return Err(refusal);
            },
            Ok(_) => {},
        }
        proof {
            runtime_state::lemma_pending_is_listed(self.state);
        }
        let ghost slots = collections::in_order(self.current().pending.dom());
        let ghost mut settings: Seq<SettingView<V, C, R, S, E, N>> = seq![self.setting()];
        loop
            invariant
                self.usable(),
                self.recorder_ids() == old(self).recorder_ids(),
                self.proposes_with() == old(self).proposes_with(),
                self.current().config == old(self).current().config,
                self.current().decisions == old(self).current().decisions,
                slots == collections::in_order(self.current().pending.dom()),
                collections::lists_set(slots, self.current().pending.dom()),
                runtime_course::flushed(old(self).setting(), Ok(()), told),
                runtime_course::deferrals(settings, now),
                runtime_course::armed(
                    told,
                    now,
                    Ok(settings[0].state.pending.dom().len()),
                    settings[0],
                ),
                settings.last() == self.setting(),
            decreases due_count(self.current(), slots, now),
        {
            let ghost start = self.setting();
            let turn: Result<Option<RuntimePoll<V>>> = self.take_turn(now);
            match turn {
                Err(refusal) => {
                    assert(runtime_course::deferrals(settings, now));
                    assert(runtime_course::went_on(told, now, Err(refusal@), self.setting()));
                    return Err(refusal);
                },
                Ok(Some(next)) => {
                    assert(runtime_course::deferrals(settings, now));
                    assert(runtime_course::went_on(told, now, Ok(next@), self.setting()));
                    return Ok(next);
                },
                Ok(None) => {
                    proof {
                        lemma_putting_off_progresses(start, self.setting(), slots, now);
                        let longer = settings.push(self.setting());
                        assert forall|k: int| 1 <= k < longer.len() implies runtime_course::put_off(
                            longer[k - 1],
                            now,
                            #[trigger] longer[k],
                        ) by {
                            if k < settings.len() {
                                assert(longer[k] == settings[k]);
                            }
                        }
                        settings = longer;
                    }
                },
            }
        }
    }

    /// Finds out what is to be done next, or puts the proposal off that is due
    /// first.
    fn take_turn(&mut self, now: Span) -> (turn: Result<Option<RuntimePoll<V>>>)
        requires
            old(self).usable(),
            collections::lists_set(
                collections::in_order(old(self).current().pending.dom()),
                old(self).current().pending.dom(),
            ),
        ensures
            final(self).usable(),
            final(self).same_surroundings(old(self)),
            final(self).current().config == old(self).current().config,
            final(self).current().decisions == old(self).current().decisions,
            match turn {
                Ok(Some(next)) => runtime_course::turned(
                    old(self).setting(),
                    now,
                    Ok(next@),
                    final(self).setting(),
                ),
                Ok(None) => runtime_course::put_off(old(self).setting(), now, final(self).setting()),
                Err(refusal) => runtime_course::turned(
                    old(self).setting(),
                    now,
                    Err(refusal@),
                    final(self).setting(),
                ),
            },
    {
        let ghost slots = collections::in_order(self.current().pending.dom());
        let (slot, deadline): (SlotIndex, Span) = match self.state.next_deadline() {
            None => return Ok(Some(RuntimePoll::Idle)),
            Some(next) => next,
        };
        if deadline.nanos > now.nanos {
            return Ok(Some(RuntimePoll::Waiting { slot, until: deadline }));
        }
        proof {
            lemma_earliest_is_pending(self.current(), slots);
        }
        proof {
            crate::runtime_state::lemma_ready_is_led(self.state@);
        }
        let schedule: EpochSchedule = match self.state.schedule_for(slot) {
            Err(refusal) => return Err(refusal),
            Ok(schedule) => schedule,
        };
        let ghost scheduled = self.setting();
        if self.state.hedges(&schedule) {
            let observed: Option<Step> = self.probe_slot_step(slot);
            let ghost asked = self.setting();
            assert(runtime_course::probed(scheduled, slot, observed, asked));
            let deferred = self.state.defer(slot, observed, now);
            if deferred {
                assert(SettingView { state: scheduled.state, ..self.setting() } == asked);
                assert(runtime_course::probed(
                    scheduled,
                    slot,
                    observed,
                    SettingView { state: scheduled.state, ..self.setting() },
                ));
                return Ok(None);
            }
            assert(self.setting() == asked);
        }
        let leader: ReplicaId = schedule.leader();
        match self.state.pending_values(slot) {
            Some(value_ids) => Ok(Some(RuntimePoll::Propose { slot, value_ids, leader })),
            None => Ok(Some(RuntimePoll::Idle)),
        }
    }

    /// Begins the consensus of a proposal that is due.
    pub fn begin_proposal(&self, slot: SlotIndex, value_ids: Vec<V>, leader: ReplicaId) -> (run:
        Result<ProposalRun<V>>)
        ensures
            error::outcome(run) == crate::proposer::first_round(
                self.proposes_with(),
                slot,
                value_ids@,
                Some(leader),
                self.recorder_ids(),
                Seq::empty(),
            ),
            run matches Ok(begun) ==> begun@.recorders == self.recorder_ids(),
    {
        let ids: Vec<ReplicaId> = identities(self.recorders.as_slice());
        let known: Vec<Decision<V>> = Vec::new();
        assert(types::list_view(known@) =~= Seq::<DecisionView<V>>::empty());
        self.proposer.begin(slot, value_ids, Some(leader), ids.as_slice(), known.as_slice())
    }

    /// Runs the consensus of a proposal that is due, calling the endpoints one
    /// after the other.
    pub fn propose(&mut self, slot: SlotIndex, value_ids: Vec<V>, leader: ReplicaId) -> (decided:
        Result<Decision<V>>)
        ensures
            final(self).setting() == (SettingView {
                source: final(self).source(),
                endpoints: final(self).endpoints(),
                ..old(self).setting()
            }),
            final(self).recorder_ids() == old(self).recorder_ids(),
            match crate::proposer::first_round(
                old(self).proposes_with(),
                slot,
                value_ids@,
                Some(leader),
                old(self).recorder_ids(),
                Seq::empty(),
            ) {
                Ok(start) => exists|run: RunView<V>| #[trigger]
                    round::proposed(
                        old(self).proposes_with().cluster,
                        old(self).proposing(start),
                        final(self).proposing(run),
                        error::outcome(decided),
                    ),
                Err(refusal) => {
                    &&& decided matches Err(given) && given@ == refusal
                    &&& final(self).source() == old(self).source()
                    &&& final(self).endpoints() == old(self).endpoints()
                },
            },
    {
        let known: Vec<Decision<V>> = Vec::new();
        assert(types::list_view(known@) =~= Seq::<DecisionView<V>>::empty());
        let decided: Result<Decision<V>> = self.proposer.propose(
            slot,
            value_ids,
            Some(leader),
            &mut self.recorders,
            known.as_slice(),
        );
        proof {
            let first = crate::proposer::first_round(
                old(self).proposes_with(),
                slot,
                value_ids@,
                Some(leader),
                old(self).recorder_ids(),
                Seq::empty(),
            );
            if first is Ok {
                let start = first->Ok_0;
                let cluster = old(self).proposes_with().cluster;
                let run = choose|run: RunView<V>| #[trigger]
                    round::proposed(
                        cluster,
                        ProposingView {
                            run: start,
                            source: old(self).source(),
                            recorders: old(self).endpoints(),
                        },
                        ProposingView { run, source: self.source(), recorders: self.endpoints() },
                        error::outcome(decided),
                    );
                assert(round::proposed(
                    cluster,
                    old(self).proposing(start),
                    self.proposing(run),
                    error::outcome(decided),
                ));
            }
        }
        decided
    }

    /// Runs one round of a proposal over the endpoints.
    pub fn run_proposal_round(&mut self, run: &mut ProposalRun<V>) -> (end: Result<
        Option<Decision<V>>,
    >)
        requires
            old(run)@.recorders == old(self).recorder_ids(),
        ensures
            final(self).setting() == (SettingView {
                source: final(self).source(),
                endpoints: final(self).endpoints(),
                ..old(self).setting()
            }),
            final(self).recorder_ids() == old(self).recorder_ids(),
            round::round_ran(
                old(self).proposes_with().cluster,
                old(self).proposing(old(run)@),
                final(self).proposing(final(run)@),
                round::end_view(end),
            ),
    {
        run_round(&mut self.proposer, run, &mut self.recorders)
    }
}

/// Deadlines do not depend on schedules that are already there.
proof fn lemma_earliest_ignores_schedules<V>(
    view: RuntimeView<V>,
    after: RuntimeView<V>,
    slots: Seq<SlotIndex>,
)
    requires
        after.pending == view.pending,
    ensures
        after.earliest_of(slots) == view.earliest_of(slots),
    decreases slots.len(),
{
    if slots.len() > 0 {
        lemma_earliest_ignores_schedules(view, after, slots.drop_last());
    }
}

/// What is due does not depend on schedules.
proof fn lemma_due_ignores_schedules<V>(
    view: RuntimeView<V>,
    after: RuntimeView<V>,
    slots: Seq<SlotIndex>,
    now: Span,
)
    requires
        after.pending == view.pending,
    ensures
        due_count(after, slots, now) == due_count(view, slots, now),
    decreases slots.len(),
{
    if slots.len() > 0 {
        lemma_due_ignores_schedules(view, after, slots.drop_last(), now);
    }
}

} // verus!
