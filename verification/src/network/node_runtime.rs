//! The consensus runtime of a networked node: several slots are driven at
//! once, while local state changes one step at a time and is made durable
//! before it shows.

use crate::cluster::{ClusterIdentity, ClusterView, MembershipChange, MembershipChangeView};
use crate::collections;
use crate::collections::{OrdMap, OrdSet};
use crate::durable;
use crate::error;
use crate::error::{ErrorView, QuePaxaError, Result};
use crate::key::{Duplicate, Key};
use crate::network::node_course;
use crate::network::node_course::PlaceView;
use crate::network::node_steps;
use crate::network::node_steps::{
    highest_of, MembershipInstall, MembershipPlan, TransferPlan, TransferPlanView, TurnAction,
};
use crate::ranking;
use crate::recorder;
use crate::runtime;
use crate::runtime_course;
use crate::runtime::{RuntimeStateStore, StateMachine};
use crate::runtime_state::{
    same_members, RuntimeSnapshot, RuntimeState, RuntimeView, SnapshotView, StateTransferSnapshot,
    TransferView,
};
use crate::schedule::{EpochSchedule, ReplicaRuntimeConfig, RuntimeConfigView, ScheduleView};
use crate::span::{Span, MAX_NANOS};
use crate::types;
use crate::types::{
    all_different, list_contains, same_list, Decision, DecisionView, ReplicaId, SlotIndex, Step,
};
use vstd::prelude::*;

verus! {

/// A snapshot with the deliveries that a networked node keeps: what was
/// executed counts as told, and nothing is remembered of announcements.
pub open spec fn node_snapshot<V>(snapshot: SnapshotView<V>) -> SnapshotView<V> {
    SnapshotView { notified: snapshot.executed, announced_to: Map::empty(), ..snapshot }
}

/// A networked node's state with its parts as views.
#[verifier::ext_equal]
#[verifier::reject_recursive_types(V)]
pub struct NodeView<V> {
    pub core: RuntimeView<V>,
    /// When each pending slot was first armed; hedging delays count from here.
    pub armed_at: Map<SlotIndex, Span>,
    /// Highest step seen while suppressing a hedged proposal.
    pub observed: Map<SlotIndex, Step>,
}

impl<V> NodeView<V> {
    /// The state around a runtime without clocks.
    pub open spec fn around(core: RuntimeView<V>) -> Self {
        NodeView { core, armed_at: Map::empty(), observed: Map::empty() }
    }

    /// What is persisted.
    pub open spec fn snapshot(self) -> SnapshotView<V> {
        node_snapshot(self.core.snapshot())
    }

    /// Why a decision of a snapshot is refused.
    pub open spec fn decision_error(self, slot: SlotIndex) -> Option<ErrorView> {
        let decision = self.core.decisions[slot];
        let log = self.core.replica.state.log;
        if slot != decision.slot || !self.core.members().contains(decision.proposer) {
            Some(
                ErrorView::InvalidProposal(
                    "network runtime snapshot contains an invalid decision"@,
                ),
            )
        } else if !(log.dom().contains(slot) && (log[slot].decision matches Some(stored)
            && stored.value_ids == decision.value_ids)) {
            Some(
                ErrorView::InvalidProposal(
                    "network runtime decision does not match the replica log"@,
                ),
            )
        } else {
            None
        }
    }

    /// Why a pending proposal of a snapshot is refused.
    pub open spec fn pending_error(self, slot: SlotIndex) -> Option<ErrorView> {
        let log = self.core.replica.state.log;
        if log.dom().contains(slot) && log[slot].decision is None && log[slot].proposed
            == self.core.pending[slot].value_ids {
            None
        } else {
            Some(
                ErrorView::InvalidProposal(
                    "network runtime pending proposal does not match the replica log"@,
                ),
            )
        }
    }

    /// Why state cannot be taken up. Schedules of other replicas are none of its
    /// faults, but every schedule needs a leader.
    pub open spec fn state_error(self) -> Option<ErrorView> {
        let decisions = recorder::first_error(
            collections::in_order(self.core.decisions.dom()),
            |slot: SlotIndex| self.decision_error(slot),
        );
        let pending = recorder::first_error(
            collections::in_order(self.core.pending.dom()),
            |slot: SlotIndex| self.pending_error(slot),
        );
        if !self.core.executed.subset_of(self.core.decisions.dom()) {
            Some(
                ErrorView::InvalidProposal(
                    "network runtime snapshot executes a slot without a decision"@,
                ),
            )
        } else if decisions is Some {
            decisions
        } else if pending is Some {
            pending
        } else if exists|epoch: u64| #[trigger]
            self.core.tuner.schedules.dom().contains(epoch)
                && self.core.tuner.schedules[epoch].proposers.len() == 0 {
            Some(unfit_schedule())
        } else {
            None
        }
    }

    /// The node that a snapshot is of, or why it cannot be taken up.
    pub open spec fn restored(config: RuntimeConfigView, snapshot: SnapshotView<V>) -> std::result::Result<
        Self,
        ErrorView,
    > {
        let kept = node_snapshot(snapshot);
        let node = NodeView::around(RuntimeView::resumed(config, kept));
        if RuntimeView::resume_error(config, kept) is Some {
            Err(RuntimeView::resume_error(config, kept)->0)
        } else if node.state_error() is Some {
            Err(node.state_error()->0)
        } else {
            Ok(node)
        }
    }

    /// The node that starts with what a store holds, or why it does not.
    pub open spec fn start(
        config: RuntimeConfigView,
        snapshot: Option<SnapshotView<V>>,
    ) -> std::result::Result<Self, ErrorView> {
        match snapshot {
            None => Ok(NodeView::around(RuntimeView::fresh(config))),
            Some(saved) => NodeView::restored(config, saved),
        }
    }
}

/// The refusal of a schedule that is not of the members.
pub open spec fn unfit_schedule() -> ErrorView {
    ErrorView::PolicyError("an epoch schedule must contain every configured replica exactly once"@)
}

/// A networked node's state, without the stores, clocks and endpoints around
/// it.
#[derive(Debug)]
pub struct ConsensusState<V: Key> {
    core: RuntimeState<V>,
    armed_at: OrdMap<SlotIndex, Span>,
    observed: OrdMap<SlotIndex, Step>,
}

impl<V: Key> View for ConsensusState<V> {
    type V = NodeView<V>;

    closed spec fn view(&self) -> NodeView<V> {
        NodeView { core: self.core@, armed_at: self.armed_at@, observed: self.observed@ }
    }
}

impl<V: Key> Duplicate for ConsensusState<V> {
    fn duplicate_value(&self) -> (copy: Self) {
        ConsensusState {
            core: self.core.duplicate_value(),
            armed_at: self.armed_at.duplicate_value(),
            observed: self.observed.duplicate_value(),
        }
    }
}

/// A snapshot with the deliveries that a networked node keeps.
fn keep_deliveries<V: Key>(snapshot: RuntimeSnapshot<V>) -> (kept: RuntimeSnapshot<V>)
    ensures
        kept@ == node_snapshot(snapshot@),
{
    let notified: OrdSet<SlotIndex> = snapshot.executed.duplicate_value();
    let kept = RuntimeSnapshot {
        cluster: snapshot.cluster,
        protocol: snapshot.protocol,
        replica: snapshot.replica,
        decisions: snapshot.decisions,
        schedules: snapshot.schedules,
        pending: snapshot.pending,
        executed: snapshot.executed,
        notified,
        announced_to: OrdMap::new(),
        epoch_stats: snapshot.epoch_stats,
        stats_through: snapshot.stats_through,
    };
    assert(kept@ =~= node_snapshot(snapshot@));
    kept
}

impl<V: Key> ConsensusState<V> {
    /// The decisions match the replica log and come from members.
    fn check_decisions(&self) -> (checked: Result<()>)
        ensures
            error::outcome(checked) == match recorder::first_error(
                collections::in_order(self@.core.decisions.dom()),
                |slot: SlotIndex| self@.decision_error(slot),
            ) {
                Some(refusal) => Err(refusal),
                None => Ok(()),
            },
    {
        let count: usize = self.core.decision_count();
        let ghost keys = collections::in_order(self@.core.decisions.dom());
        let ghost rule = |slot: SlotIndex| self@.decision_error(slot);
        assert(keys.take(0) =~= Seq::<SlotIndex>::empty());
        let mut i: usize = 0;
        while i < count
            invariant
                i <= count == keys.len(),
                keys == collections::in_order(self@.core.decisions.dom()),
                collections::lists_set(keys, self@.core.decisions.dom()),
                rule == (|slot: SlotIndex| self@.decision_error(slot)),
                recorder::first_error(keys.take(i as int), rule) is None,
            decreases count - i,
        {
            proof {
                assert(keys.take(i + 1).drop_last() =~= keys.take(i as int));
                assert(keys.take(i + 1).last() == keys[i as int]);
                assert(recorder::first_error(keys.take(i + 1), rule) == rule(keys[i as int]));
                if rule(keys[i as int]) is Some {
                    recorder::lemma_first_error(keys, rule, i + 1);
                }
                assert(self@.core.decisions.dom().contains(keys[i as int]));
            }
            let found: Option<SlotIndex> = self.core.slot_at(i);
            match found {
                Some(slot) => match self.core.decision(slot) {
                    Some(decision) => {
                        if slot != decision.slot || !list_contains(
                            self.core.config().members(),
                            &decision.proposer,
                        ) {
                            return Err(
                                QuePaxaError::InvalidProposal(
                                    "network runtime snapshot contains an invalid decision".to_owned(),
                                ),
                            );
                        }
                        let stored = match self.core.replica().slot(slot) {
                            Some(entry) => match &entry.decision {
                                Some(stored) => same_list(
                                    stored.value_ids.as_slice(),
                                    decision.value_ids.as_slice(),
                                ),
                                None => false,
                            },
                            None => false,
                        };
                        if !stored {
                            return Err(
                                QuePaxaError::InvalidProposal(
                                    "network runtime decision does not match the replica log".to_owned(),
                                ),
                            );
                        }
                    },
                    None => {},
                },
                None => {},
            }
            i += 1;
        }
        assert(keys.take(i as int) =~= keys);
        Ok(())
    }

    /// The pending proposals match the replica log.
    fn check_pending(&self) -> (checked: Result<()>)
        ensures
            error::outcome(checked) == match recorder::first_error(
                collections::in_order(self@.core.pending.dom()),
                |slot: SlotIndex| self@.pending_error(slot),
            ) {
                Some(refusal) => Err(refusal),
                None => Ok(()),
            },
    {
        let count: usize = self.core.pending_len();
        let ghost keys = collections::in_order(self@.core.pending.dom());
        let ghost rule = |slot: SlotIndex| self@.pending_error(slot);
        assert(keys.take(0) =~= Seq::<SlotIndex>::empty());
        let mut i: usize = 0;
        while i < count
            invariant
                i <= count == keys.len(),
                keys == collections::in_order(self@.core.pending.dom()),
                collections::lists_set(keys, self@.core.pending.dom()),
                rule == (|slot: SlotIndex| self@.pending_error(slot)),
                recorder::first_error(keys.take(i as int), rule) is None,
            decreases count - i,
        {
            proof {
                assert(keys.take(i + 1).drop_last() =~= keys.take(i as int));
                assert(keys.take(i + 1).last() == keys[i as int]);
                assert(recorder::first_error(keys.take(i + 1), rule) == rule(keys[i as int]));
                if rule(keys[i as int]) is Some {
                    recorder::lemma_first_error(keys, rule, i + 1);
                }
                assert(self@.core.pending.dom().contains(keys[i as int]));
            }
            match self.core.pending_slot_at(i) {
                Some(slot) => match self.core.pending_values(slot) {
                    Some(values) => {
                        let matching = match self.core.replica().slot(slot) {
                            Some(entry) => entry.decision.is_none() && same_list(
                                entry.proposed.as_slice(),
                                values.as_slice(),
                            ),
                            None => false,
                        };
                        if !matching {
                            return Err(
                                QuePaxaError::InvalidProposal(
                                    "network runtime pending proposal does not match the replica log".to_owned(),
                                ),
                            );
                        }
                    },
                    None => {},
                },
                None => {},
            }
            i += 1;
        }
        assert(keys.take(i as int) =~= keys);
        Ok(())
    }

    /// Every executed slot has a decision.
    fn executed_are_decided(&self) -> (decided: bool)
        ensures
            decided == self@.core.executed.subset_of(self@.core.decisions.dom()),
    {
        let slots: Vec<SlotIndex> = self.core.executed_slots();
        let mut i: usize = 0;
        while i < slots.len()
            invariant
                i <= slots@.len(),
                collections::lists_set(slots@, self@.core.executed),
                forall|j: int|
                    0 <= j < i ==> self@.core.decisions.dom().contains(#[trigger] slots@[j]),
            decreases slots@.len() - i,
        {
            if self.core.decision(slots[i]).is_none() {
                assert(self@.core.executed.contains(slots@[i as int]));
                return false;
            }
            i += 1;
        }
        assert forall|slot: SlotIndex| self@.core.executed.contains(
            slot,
        ) implies self@.core.decisions.dom().contains(slot) by {
            assert(slots@.contains(slot));
            let k = choose|k: int| 0 <= k < slots@.len() && slots@[k] == slot;
            assert(self@.core.decisions.dom().contains(slots@[k]));
        }
        true
    }

    /// Checks state that was taken up.
    fn validate(&self) -> (checked: Result<()>)
        ensures
            error::outcome(checked) == match self@.state_error() {
                Some(refusal) => Err(refusal),
                None => Ok(()),
            },
    {
        if !self.executed_are_decided() {
            return Err(
                QuePaxaError::InvalidProposal(
                    "network runtime snapshot executes a slot without a decision".to_owned(),
                ),
            );
        }
        match self.check_decisions() {
            Err(refusal) => return Err(refusal),
            Ok(()) => {},
        }
        match self.check_pending() {
            Err(refusal) => return Err(refusal),
            Ok(()) => {},
        }
        if !self.core.all_schedules_led() {
            return Err(
                QuePaxaError::PolicyError(
                    "an epoch schedule must contain every configured replica exactly once".to_owned(),
                ),
            );
        }
        Ok(())
    }

    /// The node that a snapshot is of, if it can be taken up.
    pub fn restore(config: &ReplicaRuntimeConfig, snapshot: RuntimeSnapshot<V>) -> (state: Result<
        Self,
    >)
        requires
            config@.epoch_size > 0,
        ensures
            error::outcome(state) == NodeView::restored(config@, snapshot@),
            state matches Ok(state) ==> state@.core.led(),
    {
        let kept: RuntimeSnapshot<V> = keep_deliveries(snapshot);
        let core: RuntimeState<V> = match RuntimeState::resume(config, &kept) {
            Ok(core) => core,
            Err(refusal) => return Err(refusal),
        };
        let state = ConsensusState { core, armed_at: OrdMap::new(), observed: OrdMap::new() };
        assert(state@ =~= NodeView::around(RuntimeView::resumed(config@, kept@)));
        match state.validate() {
            Err(refusal) => return Err(refusal),
            Ok(()) => {},
        }
        Ok(state)
    }

    /// Starts with what a store holds, if it can be taken up.
    pub fn start(config: ReplicaRuntimeConfig, snapshot: Option<RuntimeSnapshot<V>>) -> (state:
        Result<Self>)
        requires
            config@.epoch_size > 0,
        ensures
            error::outcome(state) == NodeView::start(config@, types::option_view(snapshot)),
            state matches Ok(state) ==> state@.core.led(),
    {
        match snapshot {
            Some(saved) => Self::restore(&config, saved),
            None => match RuntimeState::start(config, None) {
                Ok(core) => {
                    let state = ConsensusState {
                        core,
                        armed_at: OrdMap::new(),
                        observed: OrdMap::new(),
                    };
                    assert(state@ =~= NodeView::around(RuntimeView::fresh(config@)));
                    Ok(state)
                },
                Err(refusal) => Err(refusal),
            },
        }
    }

    /// All state that is persisted.
    pub fn snapshot(&self) -> (snapshot: RuntimeSnapshot<V>)
        ensures
            snapshot@ == self@.snapshot(),
    {
        keep_deliveries(self.core.snapshot())
    }
}

/// The first decision, in slot order, that carries all values.
pub open spec fn decision_with<V>(
    decisions: Map<SlotIndex, DecisionView<V>>,
    slots: Seq<SlotIndex>,
    values: Seq<V>,
) -> Option<DecisionView<V>>
    decreases slots.len(),
{
    if slots.len() == 0 {
        None
    } else {
        match decision_with(decisions, slots.drop_last(), values) {
            Some(decision) => Some(decision),
            None => if carries(decisions[slots.last()].value_ids, values) {
                Some(decisions[slots.last()])
            } else {
                None
            },
        }
    }
}

/// A list has all of the values.
pub open spec fn carries<V>(list: Seq<V>, values: Seq<V>) -> bool {
    forall|i: int| 0 <= i < values.len() ==> list.contains(#[trigger] values[i])
}

fn carries_all<V: Key>(list: &[V], values: &[V]) -> (all: bool)
    ensures
        all == carries(list@, values@),
{
    let mut i: usize = 0;
    while i < values.len()
        invariant
            i <= values@.len(),
            forall|j: int| 0 <= j < i ==> list@.contains(#[trigger] values@[j]),
        decreases values@.len() - i,
    {
        if !list_contains(list, &values[i]) {
            return false;
        }
        i += 1;
    }
    true
}

/// What a submitted request does next.
#[derive(Debug, PartialEq, Eq)]
pub enum SubmissionStep<V> {
    /// It is answered.
    Committed(Decision<V>),
    /// A slot carries its values or goes before them: drive that slot.
    Drive { slot: SlotIndex, value_ids: Vec<V> },
    /// Nothing can be driven until something changes.
    Wait,
}

/// A step with its lists as sequences.
pub enum StepView<V> {
    Committed(DecisionView<V>),
    Drive { slot: SlotIndex, value_ids: Seq<V> },
    Wait,
}

impl<V> View for SubmissionStep<V> {
    type V = StepView<V>;

    open spec fn view(&self) -> StepView<V> {
        match self {
            SubmissionStep::Committed(decision) => StepView::Committed(decision@),
            SubmissionStep::Drive { slot, value_ids } => StepView::Drive {
                slot: *slot,
                value_ids: value_ids@,
            },
            SubmissionStep::Wait => StepView::Wait,
        }
    }
}

impl<V> NodeView<V> {
    /// Why a submission is refused before anything is queued.
    pub open spec fn submission_error(self, values: Seq<V>) -> Option<ErrorView> {
        let limit = self.core.config.replica.batch_size;
        if values.len() > limit {
            Some(
                ErrorView::ResourceLimit { resource: "values in one network submission"@, limit },
            )
        } else if !values.no_duplicates() {
            Some(
                ErrorView::InvalidProposal("network submission contains duplicate value IDs"@),
            )
        } else {
            None
        }
    }

    /// Queues the values of a submission.
    pub open spec fn enqueue(self, values: Seq<V>) -> (Self, std::result::Result<(), ErrorView>) {
        match self.submission_error(values) {
            Some(refusal) => (self, Err(refusal)),
            None => {
                let (core, result) = self.core.submit(values);
                (NodeView { core, ..self }, result)
            },
        }
    }

    /// The decision that carries all values.
    pub open spec fn answer(self, values: Seq<V>) -> Option<DecisionView<V>> {
        decision_with(
            self.core.decisions,
            collections::in_order(self.core.decisions.dom()),
            values,
        )
    }

    /// The first pending slot whose proposal carries all values.
    pub open spec fn carrier(self, slots: Seq<SlotIndex>, values: Seq<V>) -> Option<SlotIndex>
        decreases slots.len(),
    {
        if slots.len() == 0 {
            None
        } else {
            match self.carrier(slots.drop_last(), values) {
                Some(slot) => Some(slot),
                None => if carries(self.core.pending[slots.last()].value_ids, values) {
                    Some(slots.last())
                } else {
                    None
                },
            }
        }
    }

    /// A decision or a pending proposal carries all values.
    pub open spec fn has_known_step(self, values: Seq<V>) -> bool {
        self.answer(values) is Some || self.carrier(
            collections::in_order(self.core.pending.dom()),
            values,
        ) is Some
    }

    /// What a submission does next: it is answered by a decision, driven by the
    /// pending slot that carries it, or drives the next proposal of the queue.
    pub open spec fn advance(self, values: Seq<V>) -> (
        Self,
        std::result::Result<StepView<V>, ErrorView>,
    ) {
        match self.answer(values) {
            Some(decision) => (self, Ok(StepView::Committed(decision))),
            None => match self.carrier(
                collections::in_order(self.core.pending.dom()),
                values,
            ) {
                Some(slot) => (
                    self,
                    Ok(StepView::Drive { slot, value_ids: self.core.pending[slot].value_ids }),
                ),
                None => {
                    let (core, taken) = self.core.take_proposal();
                    (
                        NodeView { core, ..self },
                        match taken {
                            Err(refusal) => Err(refusal),
                            Ok(None) => Ok(StepView::Wait),
                            Ok(Some((slot, value_ids))) => Ok(StepView::Drive { slot, value_ids }),
                        },
                    )
                },
            },
        }
    }

    /// When a pending slot was armed; now, if it was not.
    pub open spec fn armed(self, slot: SlotIndex, now: Span) -> Span {
        if self.armed_at.dom().contains(slot) {
            self.armed_at[slot]
        } else {
            now
        }
    }

    /// The leader of a pending slot and how long this replica still waits for
    /// its turn; nothing, if the slot is not pending.
    pub open spec fn hedge(self, slot: SlotIndex, now: Span) -> (
        Self,
        std::result::Result<Option<(ReplicaId, Span)>, ErrorView>,
    ) {
        if !self.core.pending.dom().contains(slot) {
            (self, Ok(None))
        } else {
            let (core, found) = self.core.schedule_for(slot);
            let node = NodeView { core, ..self };
            match found {
                Err(refusal) => (node, Err(refusal)),
                Ok(schedule) => {
                    let place = ranking::position(
                        schedule.proposers,
                        self.core.config.replica_id,
                    );
                    let delay = self.core.hedge.current.nanos * place;
                    if !schedule.proposers.contains(self.core.config.replica_id) {
                        (
                            node,
                            Err(
                                ErrorView::PolicyError(
                                    "the epoch schedule does not include the local replica"@,
                                ),
                            ),
                        )
                    } else if place > u32::MAX {
                        (
                            node,
                            Err(
                                ErrorView::PolicyError(
                                    "hedging schedule is too large for a duration"@,
                                ),
                            ),
                        )
                    } else if delay > MAX_NANOS {
                        (node, Err(ErrorView::PolicyError("hedging delay overflowed"@)))
                    } else {
                        let armed = self.armed(slot, now);
                        let waited = if now.nanos >= armed.nanos {
                            now.nanos - armed.nanos
                        } else {
                            0
                        };
                        let left = if delay >= waited {
                            delay - waited
                        } else {
                            0
                        };
                        (
                            NodeView { armed_at: self.armed_at.insert(slot, armed), ..node },
                            Ok(Some((schedule.leader(), Span { nanos: left as u128 }))),
                        )
                    }
                },
            }
        }
    }

    /// Whether recorders are asked for progress before a proposal starts.
    pub open spec fn probes(self, leader: ReplicaId) -> bool {
        self.core.hedge.current.nanos != 0 && self.core.config.replica_id != leader
    }

    /// What a replica does whose place in the schedule has come.
    pub open spec fn in_place(self, slot: SlotIndex, leader: ReplicaId) -> TurnAction {
        if self.probes(leader) {
            TurnAction::AskRecorders { leader }
        } else if self.core.pending.dom().contains(slot) {
            TurnAction::Propose { leader }
        } else {
            TurnAction::StandDown
        }
    }

    /// The node that has seen how long a consensus took.
    pub open spec fn observing(self, elapsed: Span) -> Self {
        NodeView {
            core: RuntimeView { hedge: self.core.hedge.observe(elapsed), ..self.core },
            ..self
        }
    }

    /// Puts a pending proposal off if the highest step that recorders report
    /// shows that another proposer drives the slot; whether it did.
    pub open spec fn defer(self, slot: SlotIndex, highest: Option<Step>) -> (Self, bool) {
        match highest {
            None => (self, false),
            Some(step) => if !self.core.pending.dom().contains(slot) || (
            self.observed.dom().contains(slot) && step.0 <= self.observed[slot].0) {
                (self, false)
            } else {
                (NodeView { observed: self.observed.insert(slot, step), ..self }, true)
            },
        }
    }

    /// Takes up a no-op for the slot that blocks the commit frontier.
    pub open spec fn arm_gap(self, now: Span) -> (Self, std::result::Result<bool, ErrorView>) {
        let gap = SlotIndex((self.core.committed_through().0 + 1) as u64);
        let (core, armed) = self.core.arm_gap();
        if armed == Ok::<bool, ErrorView>(true) {
            (NodeView { core, armed_at: self.armed_at.insert(gap, now), ..self }, armed)
        } else {
            (NodeView { core, ..self }, armed)
        }
    }

    /// Takes in a decision; whether it was new.
    pub open spec fn learn(self, decision: DecisionView<V>, now: Span) -> (
        Self,
        std::result::Result<bool, ErrorView>,
    ) {
        let slot = decision.slot;
        if self.core.decisions.dom().contains(slot) {
            if self.core.decisions[slot].value_ids != decision.value_ids {
                (self, Err(ErrorView::ConflictingDecision { slot }))
            } else {
                match self.arm_gap(now) {
                    (armed, Err(refusal)) => (armed, Err(refusal)),
                    (armed, Ok(_)) => (armed, Ok(false)),
                }
            }
        } else {
            match self.core.adopt(decision) {
                (core, Err(refusal)) => (NodeView { core, ..self }, Err(refusal)),
                (core, Ok(())) => {
                    let adopted = NodeView {
                        core,
                        armed_at: self.armed_at.remove(slot),
                        observed: self.observed.remove(slot),
                    };
                    match adopted.arm_gap(now) {
                        (armed, Err(refusal)) => (armed, Err(refusal)),
                        (armed, Ok(_)) => match armed.core.note_committed() {
                            (_, Err(refusal)) => (self, Err(refusal)),
                            (core, Ok(_)) => (NodeView { core, ..armed }, Ok(true)),
                        },
                    }
                },
            }
        }
    }

    /// The node once the committed decisions of slots were executed in order.
    pub open spec fn executed_through(self, slots: Seq<SlotIndex>) -> Self
        decreases slots.len(),
    {
        if slots.len() == 0 {
            self
        } else {
            let before = self.executed_through(slots.drop_last());
            let slot = self.core.decisions[slots.last()].slot;
            if slots.last().0 <= self.core.committed_through().0 && !before.core.executed.contains(
                slot,
            ) {
                NodeView {
                    core: RuntimeView {
                        executed: before.core.executed.insert(slot),
                        notified: before.core.notified.insert(slot),
                        ..before.core
                    },
                    ..before
                }
            } else {
                before
            }
        }
    }

    /// The node without what a checkpoint covers.
    pub open spec fn checkpointed(self, slot: SlotIndex) -> Self {
        NodeView {
            core: self.core.checkpointed(slot),
            armed_at: collections::after(self.armed_at, slot),
            observed: collections::after(self.observed, slot),
        }
    }

    /// The node under the next membership.
    pub open spec fn with_membership(self, next: ClusterView, anchor: SlotIndex) -> Self {
        NodeView { core: self.core.with_membership(next, anchor), ..self }
    }

    /// Installs a schedule; whether it is new.
    pub open spec fn install_schedule(self, schedule: ScheduleView) -> (
        Self,
        std::result::Result<bool, ErrorView>,
    ) {
        if self.core.schedule_error(schedule) is Some {
            (self, Err(unfit_schedule()))
        } else {
            let (core, installed) = self.core.install_schedule(schedule);
            (NodeView { core, ..self }, installed)
        }
    }

    /// Whether a membership change is already in force, or why it cannot be.
    pub open spec fn plan_membership(
        self,
        change: MembershipChangeView<V>,
        ids: Seq<ReplicaId>,
    ) -> std::result::Result<bool, ErrorView> {
        if !change.is_bound() {
            Err(crate::cluster::unbound_command())
        } else if change.next != self.core.config.cluster && !change.next.follows(
            self.core.config.cluster,
        ) {
            Err(
                ErrorView::InvalidReconfiguration(
                    "membership transition does not follow the network runtime epoch"@,
                ),
            )
        } else if next_clients_error(ids, change.next.members) is Some {
            Err(next_clients_error(ids, change.next.members)->0)
        } else if change.next == self.core.config.cluster {
            Ok(true)
        } else if !self.core.drained_at(change.anchor) {
            Err(
                ErrorView::InvalidReconfiguration(
                    "membership changes require an exact committed anchor and a drained pipeline"@,
                ),
            )
        } else {
            Ok(false)
        }
    }

    /// The node that takes a transfer up, or why it does not.
    pub open spec fn install_transfer(self, transfer: TransferView<V>) -> std::result::Result<
        Self,
        ErrorView,
    > {
        if transfer.through != transfer.runtime.replica.checkpointed_through {
            Err(ErrorView::ConfigurationMismatch)
        } else {
            match NodeView::restored(self.core.config, transfer.runtime) {
                Err(refusal) => Err(refusal),
                Ok(node) => Ok(
                    NodeView {
                        core: RuntimeView { noop_value: self.core.noop_value, ..node.core },
                        ..node
                    },
                ),
            }
        }
    }
}

/// Why recorder clients do not fit the next membership.
pub open spec fn next_clients_error(
    ids: Seq<ReplicaId>,
    members: Seq<ReplicaId>,
) -> Option<ErrorView> {
    if !ids.no_duplicates() {
        Some(
            ErrorView::InvalidReconfiguration(
                "replacement async recorder clients contain duplicate identities"@,
            ),
        )
    } else if ids.to_set() != members.to_set() {
        Some(ErrorView::ConfigurationMismatch)
    } else {
        None
    }
}

/// Checks that recorder clients are the members, each once.
pub fn validate_async_recorders(members: &[ReplicaId], ids: &[ReplicaId]) -> (checked: Result<()>)
    ensures
        error::outcome(checked) == match next_clients_error(ids@, members@) {
            Some(refusal) => Err(refusal),
            None => Ok(()),
        },
{
    if !all_different(ids) {
        return Err(
            QuePaxaError::InvalidReconfiguration(
                "replacement async recorder clients contain duplicate identities".to_owned(),
            ),
        );
    }
    if !same_members(ids, members) {
        return Err(QuePaxaError::ConfigurationMismatch);
    }
    Ok(())
}

proof fn lemma_first_answer<V>(
    decisions: Map<SlotIndex, DecisionView<V>>,
    slots: Seq<SlotIndex>,
    values: Seq<V>,
    n: int,
)
    requires
        0 <= n <= slots.len(),
        decision_with(decisions, slots.take(n), values) is Some,
    ensures
        decision_with(decisions, slots, values) == decision_with(
            decisions,
            slots.take(n),
            values,
        ),
    decreases slots.len() - n,
{
    if n < slots.len() {
        assert(slots.take(n + 1).drop_last() =~= slots.take(n));
        lemma_first_answer(decisions, slots, values, n + 1);
    } else {
        assert(slots.take(n) =~= slots);
    }
}

proof fn lemma_first_carrier<V>(node: NodeView<V>, slots: Seq<SlotIndex>, values: Seq<V>, n: int)
    requires
        0 <= n <= slots.len(),
        node.carrier(slots.take(n), values) is Some,
    ensures
        node.carrier(slots, values) == node.carrier(slots.take(n), values),
    decreases slots.len() - n,
{
    if n < slots.len() {
        assert(slots.take(n + 1).drop_last() =~= slots.take(n));
        lemma_first_carrier(node, slots, values, n + 1);
    } else {
        assert(slots.take(n) =~= slots);
    }
}

impl<V: Key> ConsensusState<V> {
    pub fn config(&self) -> (config: &ReplicaRuntimeConfig)
        ensures
            config@ == self@.core.config,
    {
        self.core.config()
    }

    pub fn current_hedge_delay(&self) -> (delay: Span)
        ensures
            delay == self@.core.hedge.current,
    {
        self.core.current_hedge_delay()
    }

    pub fn decision(&self, slot: SlotIndex) -> (found: Option<&Decision<V>>)
        ensures
            match found {
                Some(decision) => self@.core.decisions.dom().contains(slot) && decision@
                    == self@.core.decisions[slot],
                None => !self@.core.decisions.dom().contains(slot),
            },
    {
        self.core.decision(slot)
    }

    /// Fills gaps with a designated no-op.
    pub fn set_noop_value(&mut self, value: V)
        ensures
            final(self)@ == (NodeView {
                core: RuntimeView { noop_value: Some(value), ..old(self)@.core },
                ..old(self)@
            }),
    {
        self.core.set_noop_value(value);
    }

    /// Takes in how long a consensus took.
    pub fn observe_consensus(&mut self, elapsed: Span)
        ensures
            final(self)@ == (NodeView {
                core: RuntimeView {
                    hedge: old(self)@.core.hedge.observe(elapsed),
                    ..old(self)@.core
                },
                ..old(self)@
            }),
    {
        self.core.observe_consensus(elapsed);
    }

    /// Queues the values of a submission.
    pub fn enqueue(&mut self, value_ids: Vec<V>) -> (result: Result<()>)
        ensures
            (final(self)@, error::outcome(result)) == old(self)@.enqueue(value_ids@),
            old(self)@.core.led() ==> final(self)@.core.led(),
    {
        let limit: usize = self.core.config().replica_config().batch_size;
        if value_ids.len() > limit {
            return Err(
                QuePaxaError::ResourceLimit { resource: "values in one network submission", limit },
            );
        }
        if !all_different(value_ids.as_slice()) {
            return Err(
                QuePaxaError::InvalidProposal(
                    "network submission contains duplicate value IDs".to_owned(),
                ),
            );
        }
        self.core.submit(value_ids)
    }

    /// The decision that carries all values.
    pub fn answer(&self, value_ids: &[V]) -> (found: Option<Decision<V>>)
        ensures
            types::option_view(found) == self@.answer(value_ids@),
    {
        let count: usize = self.core.decision_count();
        let ghost keys = collections::in_order(self@.core.decisions.dom());
        let ghost decisions = self@.core.decisions;
        assert(keys.take(0) =~= Seq::<SlotIndex>::empty());
        let mut i: usize = 0;
        while i < count
            invariant
                i <= count == keys.len(),
                decisions == self@.core.decisions,
                keys == collections::in_order(decisions.dom()),
                collections::lists_set(keys, decisions.dom()),
                decision_with(decisions, keys.take(i as int), value_ids@) is None,
            decreases count - i,
        {
            proof {
                assert(keys.take(i + 1).drop_last() =~= keys.take(i as int));
                assert(keys.take(i + 1).last() == keys[i as int]);
                assert(decisions.dom().contains(keys[i as int]));
            }
            match self.core.slot_at(i) {
                Some(slot) => match self.core.decision(slot) {
                    Some(decision) => {
                        if carries_all(decision.value_ids.as_slice(), value_ids) {
                            proof {
                                lemma_first_answer(decisions, keys, value_ids@, i + 1);
                            }
                            return Some(decision.duplicate_value());
                        }
                    },
                    None => {},
                },
                None => {},
            }
            i += 1;
        }
        assert(keys.take(i as int) =~= keys);
        None
    }

    /// The first pending slot whose proposal carries all values.
    fn carrier(&self, value_ids: &[V]) -> (found: Option<(SlotIndex, Vec<V>)>)
        ensures
            match found {
                Some((slot, values)) => {
                    &&& self@.carrier(
                        collections::in_order(self@.core.pending.dom()),
                        value_ids@,
                    ) == Some(slot)
                    &&& values@ == self@.core.pending[slot].value_ids
                },
                None => self@.carrier(
                    collections::in_order(self@.core.pending.dom()),
                    value_ids@,
                ) is None,
            },
    {
        let count: usize = self.core.pending_len();
        let ghost keys = collections::in_order(self@.core.pending.dom());
        assert(keys.take(0) =~= Seq::<SlotIndex>::empty());
        let mut i: usize = 0;
        while i < count
            invariant
                i <= count == keys.len(),
                keys == collections::in_order(self@.core.pending.dom()),
                collections::lists_set(keys, self@.core.pending.dom()),
                self@.carrier(keys.take(i as int), value_ids@) is None,
            decreases count - i,
        {
            proof {
                assert(keys.take(i + 1).drop_last() =~= keys.take(i as int));
                assert(keys.take(i + 1).last() == keys[i as int]);
                assert(self@.core.pending.dom().contains(keys[i as int]));
            }
            match self.core.pending_slot_at(i) {
                Some(slot) => match self.core.pending_values(slot) {
                    Some(values) => {
                        if carries_all(values.as_slice(), value_ids) {
                            proof {
                                lemma_first_carrier(self@, keys, value_ids@, i + 1);
                            }
                            return Some((slot, values));
                        }
                    },
                    None => {},
                },
                None => {},
            }
            i += 1;
        }
        assert(keys.take(i as int) =~= keys);
        None
    }

    /// What a submission does next, if that takes no new proposal.
    pub fn known_step(&self, value_ids: &[V]) -> (step: Option<SubmissionStep<V>>)
        ensures
            step is Some <==> self@.has_known_step(value_ids@),
            step matches Some(step) ==> self@.advance(value_ids@) == (
                self@,
                Ok::<StepView<V>, ErrorView>(step@),
            ),
    {
        match self.answer(value_ids) {
            Some(decision) => return Some(SubmissionStep::Committed(decision)),
            None => {},
        }
        match self.carrier(value_ids) {
            Some((slot, value_ids)) => Some(SubmissionStep::Drive { slot, value_ids }),
            None => None,
        }
    }

    /// What a submission does next.
    pub fn advance(&mut self, value_ids: &[V]) -> (step: Result<SubmissionStep<V>>)
        ensures
            (final(self)@, error::outcome(step)) == old(self)@.advance(value_ids@),
            old(self)@.core.led() ==> final(self)@.core.led(),
    {
        match self.known_step(value_ids) {
            Some(step) => return Ok(step),
            None => {},
        }
        match self.core.take_proposal() {
            Err(refusal) => Err(refusal),
            Ok(None) => Ok(SubmissionStep::Wait),
            Ok(Some((slot, value_ids))) => Ok(SubmissionStep::Drive { slot, value_ids }),
        }
    }

    /// The leader of a pending slot and how long this replica still waits.
    pub fn hedge(&mut self, slot: SlotIndex, now: Span) -> (turn: Result<
        Option<(ReplicaId, Span)>,
    >)
        requires
            old(self)@.core.led(),
        ensures
            final(self)@ == old(self)@.hedge(slot, now).0,
            final(self)@.core.led(),
            match turn {
                Ok(turn) => old(self)@.hedge(slot, now).1 == Ok::<
                    Option<(ReplicaId, Span)>,
                    ErrorView,
                >(turn),
                Err(refusal) => old(self)@.hedge(slot, now).1 == Err::<
                    Option<(ReplicaId, Span)>,
                    ErrorView,
                >(refusal@),
            },
    {
        if self.core.pending_values(slot).is_none() {
            return Ok(None);
        }
        let schedule: EpochSchedule = match self.core.schedule_for(slot) {
            Ok(schedule) => schedule,
            Err(refusal) => return Err(refusal),
        };
        let leader: ReplicaId = schedule.leader();
        let place: usize = match ranking::find_position(
            schedule.proposers.as_slice(),
            self.core.config().replica_id(),
        ) {
            Some(place) => place,
            None => {
                return Err(
                    QuePaxaError::PolicyError(
                        "the epoch schedule does not include the local replica".to_owned(),
                    ),
                );
            },
        };
        if place > u32::MAX as usize {
            return Err(
                QuePaxaError::PolicyError(
                    "hedging schedule is too large for a duration".to_owned(),
                ),
            );
        }
        let delay: Span = match self.core.current_hedge_delay().checked_mul(place as u32) {
            Some(delay) => delay,
            None => return Err(QuePaxaError::PolicyError("hedging delay overflowed".to_owned())),
        };
        let armed: Span = match self.armed_at.get(&slot) {
            Some(armed) => *armed,
            None => now,
        };
        self.armed_at.insert(slot, armed);
        let waited: u128 = if now.nanos >= armed.nanos {
            now.nanos - armed.nanos
        } else {
            0
        };
        let left: u128 = if delay.nanos >= waited {
            delay.nanos - waited
        } else {
            0
        };
        Ok(Some((leader, Span { nanos: left })))
    }

    /// Whether recorders are asked for progress before a proposal starts.
    pub fn probes(&self, leader: ReplicaId) -> (probes: bool)
        ensures
            probes == self@.probes(leader),
    {
        !self.core.current_hedge_delay().is_zero() && self.core.config().replica_id() != leader
    }

    /// Puts a pending proposal off if another proposer drives its slot.
    pub fn defer(&mut self, slot: SlotIndex, highest: Option<Step>) -> (deferred: bool)
        ensures
            (final(self)@, deferred) == old(self)@.defer(slot, highest),
    {
        let step: Step = match highest {
            Some(step) => step,
            None => return false,
        };
        if self.core.pending_values(slot).is_none() {
            return false;
        }
        let progressed = match self.observed.get(&slot) {
            Some(before) => step.0 > before.0,
            None => true,
        };
        if progressed {
            self.observed.insert(slot, step);
        }
        progressed
    }

    /// Whether a proposal for the slot is pending.
    pub fn is_pending(&self, slot: SlotIndex) -> (pending: bool)
        ensures
            pending == self@.core.pending.dom().contains(slot),
    {
        self.core.pending_values(slot).is_some()
    }

    /// Takes up a no-op for the slot that blocks the commit frontier.
    pub fn arm_gap(&mut self, now: Span) -> (armed: Result<bool>)
        ensures
            (final(self)@, error::outcome(armed)) == old(self)@.arm_gap(now),
            old(self)@.core.led() ==> final(self)@.core.led(),
    {
        let frontier: SlotIndex = self.core.replica().committed_through();
        match self.core.arm_gap() {
            Err(refusal) => Err(refusal),
            Ok(false) => Ok(false),
            Ok(true) => {
                if frontier.0 < u64::MAX {
                    self.armed_at.insert(SlotIndex(frontier.0 + 1), now);
                }
                Ok(true)
            },
        }
    }

    /// Takes in a decision; whether it was new.
    pub fn learn(&mut self, decision: &Decision<V>, now: Span) -> (learned: Result<bool>)
        requires
            old(self)@.core.led(),
        ensures
            (final(self)@, error::outcome(learned)) == old(self)@.learn(decision@, now),
            final(self)@.core.led(),
    {
        match self.core.decision(decision.slot) {
            Some(existing) => {
                if !same_list(existing.value_ids.as_slice(), decision.value_ids.as_slice()) {
                    return Err(QuePaxaError::ConflictingDecision { slot: decision.slot });
                }
                return match self.arm_gap(now) {
                    Err(refusal) => Err(refusal),
                    Ok(_) => Ok(false),
                };
            },
            None => {},
        }
        let before: ConsensusState<V> = self.duplicate_value();
        match self.core.adopt(decision) {
            Err(refusal) => return Err(refusal),
            Ok(()) => {},
        }
        let _ = self.armed_at.remove(&decision.slot);
        let _ = self.observed.remove(&decision.slot);
        match self.arm_gap(now) {
            Err(refusal) => return Err(refusal),
            Ok(_) => {},
        }
        match self.core.note_committed() {
            Err(refusal) => {
                *self = before;
                return Err(refusal);
            },
            Ok(_) => {},
        }
        Ok(true)
    }

    /// Installs an agreed schedule; whether it is new.
    pub fn install_schedule(&mut self, schedule: EpochSchedule) -> (installed: Result<bool>)
        ensures
            (final(self)@, error::outcome(installed)) == old(self)@.install_schedule(schedule@),
            old(self)@.core.led() ==> final(self)@.core.led(),
    {
        if !all_different(schedule.proposers.as_slice()) || !same_members(
            schedule.proposers.as_slice(),
            self.core.config().members(),
        ) {
            return Err(
                QuePaxaError::PolicyError(
                    "an epoch schedule must contain every configured replica exactly once".to_owned(),
                ),
            );
        }
        self.core.install_schedule(schedule)
    }

    /// Whether a membership change is already in force, or why it cannot be.
    pub fn plan_membership(&self, change: &MembershipChange<V>, ids: &[ReplicaId]) -> (plan: Result<
        bool,
    >)
        ensures
            error::outcome(plan) == self@.plan_membership(change@, ids@),
    {
        match change.validate_binding() {
            Err(refusal) => return Err(refusal),
            Ok(()) => {},
        }
        let current = change.next.same_cluster(self.core.config().cluster_identity());
        if !current && !change.next.is_successor_of(self.core.config().cluster_identity()) {
            return Err(
                QuePaxaError::InvalidReconfiguration(
                    "membership transition does not follow the network runtime epoch".to_owned(),
                ),
            );
        }
        match validate_async_recorders(change.next.members(), ids) {
            Err(refusal) => return Err(refusal),
            Ok(()) => {},
        }
        if current {
            return Ok(true);
        }
        if !self.core.is_drained_at(&change.anchor) {
            return Err(
                QuePaxaError::InvalidReconfiguration(
                    "membership changes require an exact committed anchor and a drained pipeline".to_owned(),
                ),
            );
        }
        Ok(false)
    }

    /// Goes on under the next membership.
    pub fn install_membership(&mut self, next: ClusterIdentity, anchor: SlotIndex)
        requires
            old(self)@.core.led(),
        ensures
            final(self)@ == old(self)@.with_membership(next@, anchor),
            final(self)@.core.led(),
    {
        self.core.install_membership(next, anchor);
    }

    /// Drops what a checkpoint covers.
    pub fn drop_through(&mut self, slot: SlotIndex)
        ensures
            final(self)@ == old(self)@.checkpointed(slot),
            old(self)@.core.led() ==> final(self)@.core.led(),
    {
        self.core.drop_through(slot);
        self.armed_at.remove_through(&slot);
        self.observed.remove_through(&slot);
    }

    /// The node that takes a transfer up, if it fits.
    pub fn prepare_transfer(&self, transfer: &StateTransferSnapshot<V>) -> (prepared: Result<Self>)
        requires
            self@.core.led(),
        ensures
            error::outcome(prepared) == self@.install_transfer(transfer@),
            prepared matches Ok(next) ==> next@.core.led(),
    {
        if transfer.through != transfer.runtime.replica.checkpointed_through {
            return Err(QuePaxaError::ConfigurationMismatch);
        }
        let mut next: Self = match Self::restore(
            self.core.config(),
            transfer.runtime.duplicate_value(),
        ) {
            Ok(next) => next,
            Err(refusal) => return Err(refusal),
        };
        let ghost fresh = next@;
        match self.core.noop_value() {
            Some(noop) => {
                next.core.set_noop_value(noop);
            },
            None => {},
        }
        Ok(next)
    }

    /// The pending proposals, in slot order.
    pub fn pending(&self) -> (list: Vec<(SlotIndex, Vec<V>)>)
        ensures
            list@.len() == collections::in_order(self@.core.pending.dom()).len(),
            forall|i: int|
                0 <= i < list@.len() ==> (#[trigger] list@[i]).0 == collections::in_order(
                    self@.core.pending.dom(),
                )[i] && list@[i].1@ == self@.core.pending[list@[i].0].value_ids,
    {
        let count: usize = self.core.pending_len();
        let ghost keys = collections::in_order(self@.core.pending.dom());
        let mut list: Vec<(SlotIndex, Vec<V>)> = Vec::new();
        let mut i: usize = 0;
        while i < count
            invariant
                i <= count == keys.len(),
                keys == collections::in_order(self@.core.pending.dom()),
                collections::lists_set(keys, self@.core.pending.dom()),
                list@.len() == i,
                forall|j: int|
                    0 <= j < i ==> (#[trigger] list@[j]).0 == keys[j] && list@[j].1@
                        == self@.core.pending[list@[j].0].value_ids,
            decreases count - i,
        {
            assert(self@.core.pending.dom().contains(keys[i as int]));
            match self.core.pending_slot_at(i) {
                Some(slot) => match self.core.pending_values(slot) {
                    Some(values) => {
                        list.push((slot, values));
                    },
                    None => {},
                },
                None => {},
            }
            i += 1;
        }
        list
    }
}

/// The decisions of slots through a bound, in order.
pub open spec fn decisions_through<V>(
    decisions: Map<SlotIndex, DecisionView<V>>,
    slots: Seq<SlotIndex>,
    through: SlotIndex,
) -> Seq<DecisionView<V>>
    decreases slots.len(),
{
    if slots.len() == 0 {
        Seq::empty()
    } else {
        let before = decisions_through(decisions, slots.drop_last(), through);
        if slots.last().0 <= through.0 {
            before.push(decisions[slots.last()])
        } else {
            before
        }
    }
}

/// Async submission runtime of a networked node, apart from its connections.
///
/// Different connections may drive different slots concurrently: the caller
/// holds this state only while it changes, not while it waits for a quorum.
///
/// The round-one leader for each slot comes from its epoch schedule: install
/// agreed schedules with [`install_epoch_schedule`](Self::install_epoch_schedule),
/// or enable [`ReplicaRuntimeConfig::with_auto_schedules`] to derive them
/// deterministically from the committed log. Non-leader replicas wait their
/// hedging delay (position in the schedule times the base delay) before
/// proposing, and stand down when a decision arrives first.
pub struct NetworkConsensusHandler<V: Key, S, E> {
    state: ConsensusState<V>,
    state_store: S,
    state_machine: E,
}

impl<V: Key, S: RuntimeStateStore<V>, E> NetworkConsensusHandler<V, S, E> {
    /// The node's state.
    pub closed spec fn current(&self) -> NodeView<V> {
        self.state@
    }

    /// The store around it.
    pub closed spec fn store(&self) -> S {
        self.state_store
    }

    /// Every epoch has slots, and every schedule is of the members.
    pub open spec fn usable(&self) -> bool {
        self.current().core.led()
    }

    /// What executes decisions.
    pub closed spec fn machine(&self) -> E {
        self.state_machine
    }

    /// The node's state and what surrounds it.
    pub open spec fn place(&self) -> PlaceView<V, S, E> {
        PlaceView { node: self.current(), store: self.store(), machine: self.machine() }
    }

    /// Starts with what the store holds.
    pub fn new(
        config: ReplicaRuntimeConfig,
        recorder_ids: &[ReplicaId],
        state_store: S,
        state_machine: E,
    ) -> (handler: Result<Self>)
        requires
            config@.epoch_size > 0,
        ensures
            !(recorder_ids@.no_duplicates() && recorder_ids@.to_set()
                == config@.cluster.members.to_set()) ==> (handler matches Err(refusal) && refusal@
                == ErrorView::ConfigurationMismatch),
            handler matches Ok(started) ==> {
                &&& NodeView::start(config@, state_store.persisted()) == Ok::<
                    NodeView<V>,
                    ErrorView,
                >(started.current())
                &&& started.usable()
                &&& state_store.loads(Ok(state_store.persisted()), &started.store())
                &&& started.store().persisted() == state_store.persisted()
                &&& started.machine() == state_machine
                &&& recorder_ids@.no_duplicates()
                &&& recorder_ids@.to_set() == config@.cluster.members.to_set()
            },
            handler matches Err(refusal) ==> {
                ||| refusal@ == ErrorView::ConfigurationMismatch && !(
                recorder_ids@.no_duplicates() && recorder_ids@.to_set()
                    == config@.cluster.members.to_set())
                ||| exists|after: S| #[trigger] state_store.loads(Err(refusal@), &after)
                ||| NodeView::<V>::start(config@, state_store.persisted()) == Err::<
                    NodeView<V>,
                    ErrorView,
                >(refusal@)
            },
    {
        if !all_different(recorder_ids) || !same_members(recorder_ids, config.members()) {
            return Err(QuePaxaError::ConfigurationMismatch);
        }
        let ghost unread = state_store;
        let mut state_store: S = state_store;
        let answer: Result<Option<RuntimeSnapshot<V>>> = state_store.load();
        assert(unread.loads(durable::load_outcome(answer), &state_store));
        let loaded: Option<RuntimeSnapshot<V>> = match answer {
            Ok(loaded) => loaded,
            Err(refusal) => return Err(refusal),
        };
        match ConsensusState::start(config, loaded) {
            Ok(state) => Ok(NetworkConsensusHandler { state, state_store, state_machine }),
            Err(refusal) => Err(refusal),
        }
    }

    /// Configures the value ID used to recover an idle gap in the committed
    /// prefix. The application state machine must treat this value as a no-op.
    pub fn with_noop_value(self, value: V) -> (handler: Self)
        ensures
            handler.place() == (PlaceView {
                node: NodeView {
                    core: RuntimeView { noop_value: Some(value), ..self.current().core },
                    ..self.current()
                },
                ..self.place()
            }),
    {
        let mut handler = self;
        handler.state.set_noop_value(value);
        handler
    }

    pub fn config(&self) -> (config: &ReplicaRuntimeConfig)
        ensures
            config@ == self.current().core.config,
    {
        self.state.config()
    }

    pub fn current_hedge_delay(&self) -> (delay: Span)
        ensures
            delay == self.current().core.hedge.current,
    {
        self.state.current_hedge_delay()
    }

    pub fn decision(&self, slot: SlotIndex) -> (found: Option<&Decision<V>>)
        ensures
            match found {
                Some(decision) => self.current().core.decisions.dom().contains(slot) && decision@
                    == self.current().core.decisions[slot],
                None => !self.current().core.decisions.dom().contains(slot),
            },
    {
        self.state.decision(slot)
    }

    pub fn state_store(&self) -> (store: &S)
        ensures
            *store == self.store(),
    {
        &self.state_store
    }

    pub fn state_machine(&self) -> (machine: &E)
        ensures
            *machine == self.machine(),
    {
        &self.state_machine
    }

    /// All state that is persisted.
    pub fn snapshot(&self) -> (snapshot: RuntimeSnapshot<V>)
        ensures
            snapshot@ == self.current().snapshot(),
    {
        self.state.snapshot()
    }

    /// Makes the current state durable, or goes back to an earlier one.
    fn save_or_restore(&mut self, before: ConsensusState<V>) -> (saved: Result<()>)
        ensures
            node_course::kept(
                PlaceView { node: before@, ..old(self).place() },
                old(self).current(),
                error::outcome(saved),
                final(self).place(),
            ),
    {
        let snapshot: RuntimeSnapshot<V> = self.state.snapshot();
        match self.state_store.save(&snapshot) {
            Ok(()) => Ok(()),
            Err(refusal) => {
                self.state = before;
                Err(refusal)
            },
        }
    }

    /// Installs an externally agreed epoch schedule. Every replica must
    /// install the identical schedule for an epoch; prefer
    /// [`ReplicaRuntimeConfig::with_auto_schedules`], which needs no external
    /// agreement. Rejected in auto mode.
    pub fn install_epoch_schedule(&mut self, schedule: EpochSchedule) -> (result: Result<()>)
        requires
            old(self).usable(),
        ensures
            final(self).usable(),
            node_course::scheduled(
                old(self).place(),
                schedule@,
                error::outcome(result),
                final(self).place(),
            ),
    {
        let before: ConsensusState<V> = self.state.duplicate_value();
        match self.state.install_schedule(schedule) {
            Err(refusal) => Err(refusal),
            Ok(false) => Ok(()),
            Ok(true) => self.save_or_restore(before),
        }
    }

    /// Queues the values of a submission, durably.
    pub fn enqueue(&mut self, value_ids: Vec<V>) -> (result: Result<()>)
        requires
            old(self).usable(),
        ensures
            final(self).usable(),
            node_course::queued(
                old(self).place(),
                value_ids@,
                error::outcome(result),
                final(self).place(),
            ),
    {
        let before: ConsensusState<V> = self.state.duplicate_value();
        match self.state.enqueue(value_ids) {
            Err(refusal) => Err(refusal),
            Ok(()) => self.save_or_restore(before),
        }
    }

    /// What a submission does next. A proposal that is taken up is durable
    /// before it is driven.
    pub fn advance(&mut self, value_ids: &[V]) -> (step: Result<SubmissionStep<V>>)
        requires
            old(self).usable(),
        ensures
            final(self).usable(),
            node_course::advanced(
                old(self).place(),
                value_ids@,
                error::outcome(step),
                final(self).place(),
            ),
    {
        match self.state.known_step(value_ids) {
            Some(step) => return Ok(step),
            None => {},
        }
        let before: ConsensusState<V> = self.state.duplicate_value();
        match self.state.advance(value_ids) {
            Err(refusal) => Err(refusal),
            Ok(SubmissionStep::Wait) => Ok(SubmissionStep::Wait),
            Ok(step) => match self.save_or_restore(before) {
                Ok(()) => Ok(step),
                Err(refusal) => Err(refusal),
            },
        }
    }

    /// Begins a turn to propose for a slot: the replica waits for its place in
    /// the schedule, counted from when the slot was armed.
    pub fn begin_turn(&mut self, slot: SlotIndex, now: Span) -> (action: Result<TurnAction>)
        requires
            old(self).usable(),
        ensures
            final(self).usable(),
            ({
                let (node, turn) = old(self).current().hedge(slot, now);
                &&& final(self).place() == (PlaceView { node, ..old(self).place() })
                &&& match turn {
                    Err(refusal) => action matches Err(given) && given@ == refusal,
                    Ok(None) => action == Ok::<TurnAction, QuePaxaError>(TurnAction::StandDown),
                    Ok(Some((leader, delay))) => action == Ok::<TurnAction, QuePaxaError>(
                        if delay.nanos > 0 {
                            TurnAction::WaitForPlace { leader, delay }
                        } else {
                            node.in_place(slot, leader)
                        },
                    ),
                }
            }),
    {
        match self.state.hedge(slot, now) {
            Err(refusal) => Err(refusal),
            Ok(None) => Ok(TurnAction::StandDown),
            Ok(Some((leader, delay))) => if delay.nanos > 0 {
                Ok(TurnAction::WaitForPlace { leader, delay })
            } else {
                Ok(self.place_has_come(slot, leader))
            },
        }
    }

    /// What a replica does whose place in the schedule has come: one that is not
    /// the leader asks the recorders first.
    pub fn place_has_come(&self, slot: SlotIndex, leader: ReplicaId) -> (action: TurnAction)
        ensures
            action == self.current().in_place(slot, leader),
    {
        if self.state.probes(leader) {
            TurnAction::AskRecorders { leader }
        } else if self.state.is_pending(slot) {
            TurnAction::Propose { leader }
        } else {
            TurnAction::StandDown
        }
    }

    /// Takes in what the recorders reported: a replica that sees another
    /// proposer drive the slot pauses.
    pub fn recorders_reported(
        &mut self,
        slot: SlotIndex,
        leader: ReplicaId,
        reports: &[Option<Step>],
    ) -> (action: TurnAction)
        requires
            old(self).usable(),
        ensures
            final(self).usable(),
            ({
                let (node, deferred) = old(self).current().defer(
                    slot,
                    runtime_course::highest_step(reports@),
                );
                &&& final(self).place() == (PlaceView { node, ..old(self).place() })
                &&& action == if deferred {
                    TurnAction::Pause { delay: node.core.hedge.current }
                } else if node.core.pending.dom().contains(slot) {
                    TurnAction::Propose { leader }
                } else {
                    TurnAction::StandDown
                }
            }),
    {
        let highest: Option<Step> = highest_of(reports);
        if self.state.defer(slot, highest) {
            TurnAction::Pause { delay: self.state.current_hedge_delay() }
        } else if self.state.is_pending(slot) {
            TurnAction::Propose { leader }
        } else {
            TurnAction::StandDown
        }
    }

    /// Checks a membership change against the node and the clients of the next
    /// membership. A change that is already in force needs no more than its
    /// clients; for another, the retained decisions go to all recorders first.
    pub fn plan_membership(&self, change: MembershipChange<V>, ids: &[ReplicaId]) -> (plan: Result<
        MembershipPlan<V>,
    >)
        ensures
            match plan {
                Err(refusal) => self.current().plan_membership(change@, ids@) == Err::<
                    bool,
                    ErrorView,
                >(refusal@),
                Ok(MembershipPlan::InForce) => self.current().plan_membership(change@, ids@)
                    == Ok::<bool, ErrorView>(true),
                Ok(MembershipPlan::Install(install)) => {
                    let decisions = self.current().core.decisions;
                    let slots = collections::in_order(decisions.dom());
                    &&& self.current().plan_membership(change@, ids@) == Ok::<bool, ErrorView>(
                        false,
                    )
                    &&& install@.change == change@
                    &&& install@.decisions == slots.map_values(|slot: SlotIndex| decisions[slot])
                    &&& install@.to_tell == if slots.len() == 0 {
                        0
                    } else {
                        self.current().core.members().len()
                    }
                    &&& install@.told == 0
                    &&& install@.to_install == ids@.len()
                    &&& install@.installed == 0
                },
            },
    {
        match self.state.plan_membership(&change, ids) {
            Err(refusal) => Err(refusal),
            Ok(true) => Ok(MembershipPlan::InForce),
            Ok(false) => {
                let retained: Vec<Decision<V>> = self.state.core.decisions();
                proof {
                    let decisions = self.current().core.decisions;
                    let slots = collections::in_order(decisions.dom());
                    assert(types::list_view(retained@) =~= slots.map_values(
                        |slot: SlotIndex| decisions[slot],
                    ));
                }
                Ok(
                    MembershipPlan::Install(
                        MembershipInstall::new(
                            change,
                            retained,
                            self.state.config().members().len(),
                            ids.len(),
                        ),
                    ),
                )
            },
        }
    }

    /// Brings a membership change into force that every recorder of the next
    /// membership has installed.
    pub fn finish_membership(&mut self, install: MembershipInstall<V>) -> (result: Result<()>)
        requires
            old(self).usable(),
        ensures
            final(self).usable(),
            match install@.shortage() {
                Err(refusal) => {
                    &&& final(self).place() == old(self).place()
                    &&& error::outcome(result) == Err::<(), ErrorView>(refusal)
                },
                Ok(()) => node_course::kept(
                    old(self).place(),
                    old(self).current().with_membership(
                        install@.change.next,
                        install@.change.anchor.slot,
                    ),
                    error::outcome(result),
                    final(self).place(),
                ),
            },
    {
        match install.check() {
            Err(refusal) => return Err(refusal),
            Ok(()) => {},
        }
        let before: ConsensusState<V> = self.state.duplicate_value();
        let change: MembershipChange<V> = install.into_change();
        self.state.install_membership(change.next, change.anchor.slot);
        self.save_or_restore(before)
    }

    /// What a checkpoint through a slot needs, if it is possible.
    pub fn plan_state_transfer(&self, slot: SlotIndex) -> (plan: Result<TransferPlan<V>>)
        ensures
            match self.current().core.handover_error(slot) {
                Some(refusal) => plan matches Err(given) && given@ == refusal,
                None => {
                    let decisions = decisions_through(
                        self.current().core.decisions,
                        collections::in_order(self.current().core.decisions.dom()),
                        slot,
                    );
                    plan matches Ok(plan) && plan@ == (TransferPlanView {
                        through: slot,
                        decisions,
                        value_ids: collections::in_order(self.current().core.covered_values(slot)),
                        to_tell: if decisions.len() == 0 {
                            0
                        } else {
                            self.current().core.members().len() as usize
                        },
                        told: 0,
                    })
                },
            },
    {
        match self.state.core.check_handover(slot) {
            Err(refusal) => return Err(refusal),
            Ok(()) => {},
        }
        let count: usize = self.state.core.decision_count();
        let ghost kept = self.current().core.decisions;
        let ghost keys = collections::in_order(kept.dom());
        let mut decisions: Vec<Decision<V>> = Vec::new();
        assert(keys.take(0) =~= Seq::<SlotIndex>::empty());
        assert(types::list_view(decisions@) =~= Seq::<DecisionView<V>>::empty());
        let mut i: usize = 0;
        while i < count
            invariant
                i <= count == keys.len(),
                kept == self.current().core.decisions,
                keys == collections::in_order(kept.dom()),
                collections::lists_set(keys, kept.dom()),
                types::list_view(decisions@) == decisions_through(
                    kept,
                    keys.take(i as int),
                    slot,
                ),
            decreases count - i,
        {
            let ghost before = decisions@;
            proof {
                assert(keys.take(i + 1).drop_last() =~= keys.take(i as int));
                assert(keys.take(i + 1).last() == keys[i as int]);
                assert(kept.dom().contains(keys[i as int]));
            }
            match self.state.core.slot_at(i) {
                Some(index) => {
                    if index.0 <= slot.0 {
                        match self.state.core.decision(index) {
                            Some(decision) => {
                                decisions.push(decision.duplicate_value());
                                assert(types::list_view(decisions@) =~= types::list_view(
                                    before,
                                ).push(kept[index]));
                            },
                            None => {},
                        }
                    }
                },
                None => {},
            }
            i += 1;
        }
        assert(keys.take(i as int) =~= keys);
        let value_ids: Vec<V> = self.state.core.covered_values(slot);
        Ok(TransferPlan::new(slot, decisions, value_ids, self.state.config().members().len()))
    }
}

/// The committed decisions of a prefix of the slots were executed, and all of
/// them if `all`.
pub open spec fn executed_some<V>(before: NodeView<V>, after: NodeView<V>, all: bool) -> bool {
    let slots = collections::in_order(before.core.decisions.dom());
    exists|count: int|
        0 <= count <= slots.len() && after == before.executed_through(
            #[trigger] slots.take(count),
        ) && (all ==> count == slots.len())
}

proof fn lemma_executing_keeps<V>(node: NodeView<V>, slots: Seq<SlotIndex>)
    ensures
        ({
            let after = node.executed_through(slots);
            &&& after.armed_at == node.armed_at
            &&& after.observed == node.observed
            &&& after.core == (RuntimeView {
                executed: after.core.executed,
                notified: after.core.notified,
                ..node.core
            })
        }),
    decreases slots.len(),
{
    if slots.len() > 0 {
        lemma_executing_keeps(node, slots.drop_last());
    }
}

impl<V: Key, S: RuntimeStateStore<V>, E: StateMachine<V>> NetworkConsensusHandler<V, S, E> {
    /// Executes committed decisions in slot order, each durable before the
    /// next, up to the first that fails.
    #[verifier::loop_isolation(false)]
    fn execute_ready(&mut self) -> (result: Result<()>)
        requires
            old(self).usable(),
        ensures
            final(self).usable(),
            executed_some(old(self).current(), final(self).current(), result is Ok),
            node_course::all_executed(
                old(self).place(),
                error::outcome(result),
                final(self).place(),
            ),
    {
        let ghost start = self.current();
        let ghost keys = collections::in_order(start.core.decisions.dom());
        let count: usize = self.state.core.decision_count();
        let committed: SlotIndex = self.state.core.replica().committed_through();
        assert(keys.take(0) =~= Seq::<SlotIndex>::empty());
        let ghost mut places: Seq<PlaceView<V, S, E>> = seq![self.place()];
        let mut i: usize = 0;
        while i < count
            invariant
                i <= count == keys.len(),
                node_course::executions(places, keys),
                places.len() == i + 1,
                places[0] == old(self).place(),
                places.last() == self.place(),
                start == old(self).current(),
                keys == collections::in_order(start.core.decisions.dom()),
                collections::lists_set(keys, start.core.decisions.dom()),
                committed == start.core.committed_through(),
                self.current() == start.executed_through(keys.take(i as int)),
                self.usable(),
            decreases count - i,
        {
            let ghost met = self.place();
            proof {
                lemma_executing_keeps(start, keys.take(i as int));
                assert(keys.take(i + 1).drop_last() =~= keys.take(i as int));
                assert(keys.take(i + 1).last() == keys[i as int]);
                assert(start.core.decisions.dom().contains(keys[i as int]));
                assert(executed_some(start, self.current(), false));
            }
            match self.state.core.slot_at(i) {
                Some(index) => {
                    if index.0 <= committed.0 {
                        let decision: Decision<V> = match self.state.core.decision(index) {
                            Some(decision) => decision.duplicate_value(),
                            None => return Err(QuePaxaError::MissingProposal),
                        };
                        if !self.state.core.is_executed(decision.slot) {
                            match self.state_machine.execute(&decision) {
                                Ok(()) => {},
                                Err(refusal) => {
                                    assert(node_course::executed(
                                        met,
                                        keys[i as int],
                                        Err(refusal@),
                                        self.place(),
                                    ));
                                    assert(node_course::executions(places, keys));
                                    return Err(refusal);
                                },
                            }
                            self.state.core.mark_executed(decision.slot);
                            self.state.core.mark_notified(decision.slot);
                            proof {
                                assert(self.current() =~= start.executed_through(keys.take(i + 1)));
                                assert(executed_some(start, self.current(), false));
                            }
                            let snapshot: RuntimeSnapshot<V> = self.state.snapshot();
                            match self.state_store.save(&snapshot) {
                                Ok(()) => {},
                                Err(refusal) => {
                                    assert(node_course::executed(
                                        met,
                                        keys[i as int],
                                        Err(refusal@),
                                        self.place(),
                                    ));
                                    assert(node_course::executions(places, keys));
                                    return Err(refusal);
                                },
                            }
                        }
                    }
                },
                None => {},
            }
            assert(self.current() =~= start.executed_through(keys.take(i + 1)));
            proof {
                assert(node_course::executed(met, keys[i as int], Ok(()), self.place()));
                let longer = places.push(self.place());
                assert forall|k: int| 1 <= k < longer.len() implies node_course::executed(
                    longer[k - 1],
                    keys[k - 1],
                    Ok(()),
                    #[trigger] longer[k],
                ) by {
                    if k < places.len() {
                        assert(longer[k] == places[k]);
                    }
                }
                places = longer;
            }
            i += 1;
        }
        assert(keys.take(i as int) =~= keys);
        assert(executed_some(start, self.current(), true));
        assert(node_course::executions(places, keys));
        Ok(())
    }

    /// Takes in a decision: it is durable before anything is executed, and
    /// committed decisions are executed in slot order.
    pub fn accept_decision(&mut self, decision: &Decision<V>, now: Span) -> (result: Result<()>)
        requires
            old(self).usable(),
        ensures
            final(self).usable(),
            node_course::accepted(
                old(self).place(),
                decision@,
                now,
                error::outcome(result),
                final(self).place(),
            ),
            result is Ok ==> executed_some(
                old(self).current().learn(decision@, now).0,
                final(self).current(),
                true,
            ),
    {
        let before: ConsensusState<V> = self.state.duplicate_value();
        match self.state.learn(decision, now) {
            Err(refusal) => return Err(refusal),
            Ok(true) => {
                let ghost next = self.current();
                match self.save_or_restore(before) {
                    Ok(()) => {},
                    Err(refusal) => return Err(refusal),
                }
                assert(node_course::kept(old(self).place(), next, Ok(()), self.place()));
            },
            Ok(false) => {},
        }
        self.execute_ready()
    }

    /// Takes in the decision that a proposal of this node reached, and how long
    /// that took.
    pub fn complete_proposal(&mut self, decision: &Decision<V>, elapsed: Span, now: Span) -> (result:
        Result<()>)
        requires
            old(self).usable(),
        ensures
            final(self).usable(),
            node_course::accepted(
                PlaceView { node: old(self).current().observing(elapsed), ..old(self).place() },
                decision@,
                now,
                error::outcome(result),
                final(self).place(),
            ),
    {
        self.state.observe_consensus(elapsed);
        self.accept_decision(decision, now)
    }

    /// Prepares a recovery: a gap is armed, committed work is executed, and the
    /// pending proposals are handed out to be driven.
    pub fn begin_recovery(&mut self, now: Span) -> (pending: Result<Vec<(SlotIndex, Vec<V>)>>)
        requires
            old(self).usable(),
        ensures
            final(self).usable(),
            node_course::recovered(
                old(self).place(),
                now,
                match pending {
                    Ok(_) => Ok(()),
                    Err(refusal) => Err(refusal@),
                },
                final(self).place(),
            ),
            pending is Ok ==> executed_some(
                old(self).current().arm_gap(now).0,
                final(self).current(),
                true,
            ),
            pending matches Ok(list) ==> {
                let kept = final(self).current().core.pending;
                let slots = collections::in_order(kept.dom());
                &&& list@.len() == slots.len()
                &&& forall|i: int|
                    0 <= i < list@.len() ==> (#[trigger] list@[i]).0 == slots[i] && list@[i].1@
                        == kept[slots[i]].value_ids
            },
    {
        let before: ConsensusState<V> = self.state.duplicate_value();
        match self.state.arm_gap(now) {
            Err(refusal) => return Err(refusal),
            Ok(true) => {
                let ghost next = self.current();
                match self.save_or_restore(before) {
                    Ok(()) => {},
                    Err(refusal) => return Err(refusal),
                }
                assert(node_course::kept(old(self).place(), next, Ok(()), self.place()));
            },
            Ok(false) => {},
        }
        match self.execute_ready() {
            Err(refusal) => return Err(refusal),
            Ok(()) => {},
        }
        Ok(self.state.pending())
    }

    /// Finishes a checkpoint that every recorder knows the decisions of.
    pub fn finish_state_transfer(&mut self, plan: TransferPlan<V>) -> (transfer: Result<
        StateTransferSnapshot<V>,
    >)
        requires
            old(self).usable(),
        ensures
            final(self).usable(),
            match node_steps::all_but(plan@.to_tell, plan@.told) {
                Err(refusal) => {
                    &&& final(self).place() == old(self).place()
                    &&& transfer matches Err(given) && given@ == refusal
                },
                Ok(()) => node_course::handed_over(
                    old(self).place(),
                    plan@.through,
                    plan@.value_ids,
                    error::outcome(transfer),
                    final(self).place(),
                ),
            },
            transfer matches Ok(made) ==> made@.through
                == made@.runtime.replica.checkpointed_through,
    {
        match plan.check_told() {
            Err(refusal) => return Err(refusal),
            Ok(()) => {},
        }
        let slot: SlotIndex = plan.through();
        let value_ids: Vec<V> = plan.into_value_ids();
        let answer: Result<Vec<u8>> = self.state_machine.export_checkpoint(slot);
        let ghost checkpoint: std::result::Result<Seq<u8>, ErrorView> = error::outcome(answer);
        let ghost left = self.place();
        assert(old(self).place().machine.exports(slot, checkpoint, &left.machine));
        let application_checkpoint: Vec<u8> = match answer {
            Ok(checkpoint) => checkpoint,
            Err(refusal) => return Err(refusal),
        };
        if self.state.core.check_handover(slot).is_err() {
            return Err(
                QuePaxaError::InvalidProposal(
                    "runtime changed while preparing its state-transfer checkpoint".to_owned(),
                ),
            );
        }
        let before: ConsensusState<V> = self.state.duplicate_value();
        self.state.drop_through(slot);
        match self.save_or_restore(before) {
            Ok(()) => {},
            Err(refusal) => {
                assert(old(self).place().machine.exports(slot, checkpoint, &self.place().machine));
                return Err(refusal);
            },
        }
        assert(old(self).place().machine.exports(slot, checkpoint, &self.place().machine));
        Ok(
            StateTransferSnapshot {
                through: slot,
                checkpointed_value_ids: value_ids,
                application_checkpoint,
                runtime: self.state.snapshot(),
            },
        )
    }

    /// Installs a state-transfer snapshot before the node begins serving
    /// traffic. Application import must be durable and idempotent.
    pub fn install_state_transfer(&mut self, transfer: StateTransferSnapshot<V>) -> (result: Result<
        (),
    >)
        requires
            old(self).usable(),
        ensures
            final(self).usable(),
            node_course::taken_up(
                old(self).place(),
                transfer@,
                error::outcome(result),
                final(self).place(),
            ),
    {
        let next: ConsensusState<V> = match self.state.prepare_transfer(&transfer) {
            Ok(next) => next,
            Err(refusal) => return Err(refusal),
        };
        match self.state_machine.import_checkpoint(
            transfer.through,
            transfer.application_checkpoint.as_slice(),
        ) {
            Ok(()) => {},
            Err(refusal) => return Err(refusal),
        }
        match self.state_store.save(&transfer.runtime) {
            Ok(()) => {},
            Err(refusal) => return Err(refusal),
        }
        self.state = next;
        Ok(())
    }
}

} // verus!
