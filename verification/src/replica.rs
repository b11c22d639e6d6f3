//! The local log of a replica: queued values, in-flight proposals, decisions
//! and the contiguous committed prefix.

use crate::collections;
use crate::collections::{OrdMap, OrdSet};
use crate::error;
use crate::error::{ErrorView, QuePaxaError, Result};
use crate::key::{Duplicate, Key};
use crate::types;
use crate::types::{
    all_different, duplicate_keys, duplicate_option, same_list, Decision, DecisionView, SlotIndex,
};
use vstd::prelude::*;

verus! {

/// Bounds on what a replica holds.
#[derive(Debug, Clone, Copy, PartialEq, Eq, Structural)]
pub struct ReplicaConfig {
    pub batch_size: usize,
    pub pipeline_len: usize,
    pub max_pending_values: usize,
    pub max_log_slots: usize,
    /// Bounds the durable set used to suppress retry submissions carrying an
    /// already-seen value ID.
    pub max_tracked_value_ids: usize,
}

impl Default for ReplicaConfig {
    fn default() -> (config: Self)
        ensures
            config == (ReplicaConfig {
                batch_size: 64,
                pipeline_len: 1,
                max_pending_values: 65_536,
                max_log_slots: 4_096,
                max_tracked_value_ids: 1_048_576,
            }),
    {
        ReplicaConfig {
            batch_size: 64,
            pipeline_len: 1,
            max_pending_values: 65_536,
            max_log_slots: 4_096,
            max_tracked_value_ids: 1_048_576,
        }
    }
}

/// What the log holds for one slot.
#[derive(Debug, PartialEq, Eq)]
pub struct LogSlot<V> {
    pub proposed: Vec<V>,
    pub decision: Option<Decision<V>>,
    pub committed: bool,
}

/// A log slot with its lists as sequences.
#[verifier::ext_equal]
pub struct LogSlotView<V> {
    pub proposed: Seq<V>,
    pub decision: Option<DecisionView<V>>,
    pub committed: bool,
}

impl<V> View for LogSlot<V> {
    type V = LogSlotView<V>;

    open spec fn view(&self) -> LogSlotView<V> {
        LogSlotView {
            proposed: self.proposed@,
            decision: types::option_view(self.decision),
            committed: self.committed,
        }
    }
}

impl<V> LogSlotView<V> {
    /// A slot that nothing is known of.
    pub open spec fn empty() -> Self {
        LogSlotView { proposed: Seq::empty(), decision: None, committed: false }
    }
}

impl<V> Default for LogSlot<V> {
    fn default() -> (slot: Self)
        ensures
            slot@ == LogSlotView::<V>::empty(),
    {
        LogSlot { proposed: Vec::new(), decision: None, committed: false }
    }
}

impl<V: Key> Duplicate for LogSlot<V> {
    fn duplicate_value(&self) -> (copy: Self) {
        LogSlot {
            proposed: duplicate_keys(self.proposed.as_slice()),
            decision: duplicate_option(&self.decision),
            committed: self.committed,
        }
    }
}

impl<V: Key> Clone for LogSlot<V> {
    fn clone(&self) -> (copy: Self)
        ensures
            copy@ == self@,
    {
        self.duplicate_value()
    }
}

/// Durable local state required to resume the replica pipeline after restart.
#[derive(Debug, PartialEq, Eq)]
pub struct ReplicaSnapshot<V: Key> {
    pub log: OrdMap<SlotIndex, LogSlot<V>>,
    pub pending: Vec<V>,
    pub last_proposed: SlotIndex,
    pub next_commit: SlotIndex,
    pub checkpointed_through: SlotIndex,
    pub seen_value_ids: OrdSet<V>,
}

/// The state of a replica pipeline.
#[verifier::ext_equal]
#[verifier::reject_recursive_types(V)]
pub struct ReplicaState<V> {
    pub log: Map<SlotIndex, LogSlotView<V>>,
    pub pending: Seq<V>,
    pub last_proposed: SlotIndex,
    pub next_commit: SlotIndex,
    pub checkpointed_through: SlotIndex,
    pub seen_value_ids: Set<V>,
}

impl<V: Key> View for ReplicaSnapshot<V> {
    type V = ReplicaState<V>;

    open spec fn view(&self) -> ReplicaState<V> {
        ReplicaState {
            log: self.log@,
            pending: self.pending@,
            last_proposed: self.last_proposed,
            next_commit: self.next_commit,
            checkpointed_through: self.checkpointed_through,
            seen_value_ids: self.seen_value_ids@,
        }
    }
}

impl<V: Key> Duplicate for ReplicaSnapshot<V> {
    fn duplicate_value(&self) -> (copy: Self) {
        ReplicaSnapshot {
            log: self.log.duplicate_value(),
            pending: duplicate_keys(self.pending.as_slice()),
            last_proposed: self.last_proposed,
            next_commit: self.next_commit,
            checkpointed_through: self.checkpointed_through,
            seen_value_ids: self.seen_value_ids.duplicate_value(),
        }
    }
}

impl<V: Key> Clone for ReplicaSnapshot<V> {
    fn clone(&self) -> (copy: Self)
        ensures
            copy@ == self@,
    {
        self.duplicate_value()
    }
}

/// A replica's pipeline with its bounds.
#[verifier::ext_equal]
#[verifier::reject_recursive_types(V)]
pub struct ReplicaView<V> {
    pub config: ReplicaConfig,
    pub state: ReplicaState<V>,
}

/// The values of a list that are not yet known, each once, in order.
pub open spec fn fresh_values<V>(seen: Set<V>, values: Seq<V>) -> Seq<V>
    decreases values.len(),
{
    if values.len() == 0 {
        Seq::empty()
    } else {
        let rest = fresh_values(seen, values.drop_last());
        if seen.contains(values.last()) || rest.contains(values.last()) {
            rest
        } else {
            rest.push(values.last())
        }
    }
}

/// A bound on a resource was reached.
pub open spec fn limit_reached(resource: Seq<char>, limit: usize) -> ErrorView {
    ErrorView::ResourceLimit { resource, limit }
}

impl<V> ReplicaState<V> {
    /// The slot's entry; an empty one if the log has none.
    pub open spec fn entry(self, slot: SlotIndex) -> LogSlotView<V> {
        if self.log.dom().contains(slot) {
            self.log[slot]
        } else {
            LogSlotView::empty()
        }
    }

    /// How many slots the log retains besides genesis.
    pub open spec fn retained(self) -> nat {
        self.log.dom().remove(SlotIndex(0)).len()
    }

    /// The last slot of the contiguous committed prefix.
    pub open spec fn committed_through(self) -> SlotIndex {
        SlotIndex(
            if self.next_commit.0 == 0 {
                0
            } else {
                (self.next_commit.0 - 1) as u64
            },
        )
    }

    /// Whether the slot is decided or holds a local proposal.
    pub open spec fn claimed(self, slot: SlotIndex) -> bool {
        self.entry(slot).decision is Some || self.entry(slot).proposed.len() > 0
    }

    /// The lowest slot at or above `from` that nothing claims.
    pub open spec fn open_slot_from(self, from: SlotIndex) -> Option<SlotIndex>
        decreases u64::MAX - from.0,
    {
        if !self.claimed(from) {
            Some(from)
        } else if from.0 == u64::MAX {
            None
        } else {
            self.open_slot_from(SlotIndex((from.0 + 1) as u64))
        }
    }

    /// Whether the slot holds a local proposal that is not committed.
    pub open spec fn in_flight(self, slot: SlotIndex) -> bool {
        &&& self.log.dom().contains(slot)
        &&& slot.0 >= self.next_commit.0
        &&& !self.log[slot].committed
        &&& self.log[slot].proposed.len() > 0
    }

    /// How many local proposals are not committed.
    pub open spec fn inflight_count(self) -> nat {
        self.log.dom().filter(|slot: SlotIndex| self.in_flight(slot)).len()
    }

    /// Whether every value that the pipeline mentions is tracked.
    pub open spec fn all_tracked(self) -> bool {
        &&& forall|i: int|
            0 <= i < self.pending.len() ==> self.seen_value_ids.contains(#[trigger] self.pending[i])
        &&& forall|slot: SlotIndex| #[trigger]
            self.log.dom().contains(slot) ==> self.slot_tracked(slot)
    }

    /// Whether every value that a log slot mentions is tracked.
    pub open spec fn slot_tracked(self, slot: SlotIndex) -> bool {
        let entry = self.log[slot];
        &&& entry.proposed.to_set().subset_of(self.seen_value_ids)
        &&& entry.decision matches Some(decision) ==> decision.value_ids.to_set().subset_of(
            self.seen_value_ids,
        )
    }

    /// Whether genesis is committed and the frontier lies past the checkpoint.
    pub open spec fn rooted(self) -> bool {
        &&& self.log.dom().contains(SlotIndex(0)) && self.log[SlotIndex(0)].committed
        &&& self.next_commit.0 > self.checkpointed_through.0
    }

    /// Whether a slot is decided and committed.
    pub open spec fn settled(self, slot: SlotIndex) -> bool {
        &&& self.log.dom().contains(slot)
        &&& self.log[slot].committed
        &&& self.log[slot].decision is Some
    }

    /// Whether every slot between the checkpoint and the frontier is settled.
    pub open spec fn contiguous(self) -> bool {
        forall|slot: SlotIndex|
            self.checkpointed_through.0 < slot.0 < self.next_commit.0 ==> #[trigger] self.settled(
                slot,
            )
    }

    /// Whether no slot at or past the frontier is committed.
    pub open spec fn nothing_early(self) -> bool {
        forall|slot: SlotIndex| #[trigger]
            self.log.dom().contains(slot) && slot.0 != 0 && slot.0 >= self.next_commit.0
                ==> !self.log[slot].committed
    }

    /// Moves the frontier over every slot that is decided, committing it, and
    /// lists their decisions in slot order.
    pub open spec fn commit_ready(self) -> (Self, std::result::Result<
        Seq<DecisionView<V>>,
        ErrorView,
    >)
        decreases u64::MAX - self.next_commit.0,
    {
        let entry = self.entry(self.next_commit);
        if entry.committed {
            if self.next_commit.0 == u64::MAX {
                (self, Err(ErrorView::SlotOverflow))
            } else {
                self.advanced().commit_ready()
            }
        } else {
            match entry.decision {
                None => (self, Ok(Seq::empty())),
                Some(decision) => {
                    let marked = self.with_entry(
                        self.next_commit,
                        LogSlotView {
                            proposed: Seq::empty(),
                            decision: Some(decision),
                            committed: true,
                        },
                    );
                    if self.next_commit.0 == u64::MAX {
                        (marked, Err(ErrorView::SlotOverflow))
                    } else {
                        prefixed(seq![decision], marked.advanced().commit_ready())
                    }
                },
            }
        }
    }

    /// The same state with the frontier moved by one slot.
    pub open spec fn advanced(self) -> Self {
        ReplicaState { next_commit: SlotIndex((self.next_commit.0 + 1) as u64), ..self }
    }

    /// The same state with another entry for a slot.
    pub open spec fn with_entry(self, slot: SlotIndex, entry: LogSlotView<V>) -> Self {
        ReplicaState { log: self.log.insert(slot, entry), ..self }
    }
}

/// Puts decisions before those of a later commit.
pub open spec fn prefixed<V>(
    before: Seq<DecisionView<V>>,
    later: (ReplicaState<V>, std::result::Result<Seq<DecisionView<V>>, ErrorView>),
) -> (ReplicaState<V>, std::result::Result<Seq<DecisionView<V>>, ErrorView>) {
    (
        later.0,
        match later.1 {
            Ok(decisions) => Ok(before + decisions),
            Err(refusal) => Err(refusal),
        },
    )
}

impl<V> ReplicaView<V> {
    /// A replica that has seen nothing.
    pub open spec fn initial(config: ReplicaConfig) -> Self {
        ReplicaView {
            config,
            state: ReplicaState {
                log: Map::empty().insert(
                    SlotIndex(0),
                    LogSlotView { proposed: Seq::empty(), decision: None, committed: true },
                ),
                pending: Seq::empty(),
                last_proposed: SlotIndex(0),
                next_commit: SlotIndex(1),
                checkpointed_through: SlotIndex(0),
                seen_value_ids: Set::empty(),
            },
        }
    }

    /// Why a snapshot cannot be resumed, if it cannot.
    pub open spec fn restore_error(self) -> Option<ErrorView> {
        if self.state.pending.len() > self.config.max_pending_values {
            Some(limit_reached("pending value IDs"@, self.config.max_pending_values))
        } else if self.state.retained() > self.config.max_log_slots {
            Some(limit_reached("retained log slots"@, self.config.max_log_slots))
        } else if self.state.seen_value_ids.len() > self.config.max_tracked_value_ids {
            Some(limit_reached("tracked value IDs"@, self.config.max_tracked_value_ids))
        } else if !self.state.all_tracked() {
            Some(
                ErrorView::InvalidProposal("replica snapshot contains an untracked value ID"@),
            )
        } else if !self.state.rooted() {
            Some(
                ErrorView::InvalidProposal(
                    "replica snapshot is missing its committed genesis slot"@,
                ),
            )
        } else if !self.state.contiguous() {
            Some(
                ErrorView::InvalidProposal(
                    "replica snapshot skips a committed slot after its checkpoint"@,
                ),
            )
        } else if !self.state.nothing_early() {
            Some(
                ErrorView::InvalidProposal("replica snapshot marks a future slot committed"@),
            )
        } else {
            None
        }
    }

    /// Whether the pipeline is within its bounds and consistent: what a restart
    /// from its own snapshot accepts.
    pub open spec fn consistent(self) -> bool {
        &&& self.restore_error() is None
        &&& self.state.log.dom().finite()
        &&& self.state.seen_value_ids.finite()
    }

    /// Queues the values that are not yet known.
    pub open spec fn enqueue(self, values: Seq<V>) -> (Self, std::result::Result<(), ErrorView>) {
        let fresh = fresh_values(self.state.seen_value_ids, values);
        if self.state.pending.len() + fresh.len() > self.config.max_pending_values {
            (self, Err(limit_reached("pending value IDs"@, self.config.max_pending_values)))
        } else if self.state.seen_value_ids.len() + fresh.len()
            > self.config.max_tracked_value_ids {
            (self, Err(limit_reached("tracked value IDs"@, self.config.max_tracked_value_ids)))
        } else {
            (
                ReplicaView {
                    state: ReplicaState {
                        pending: self.state.pending + fresh,
                        seen_value_ids: self.state.seen_value_ids.union(fresh.to_set()),
                        ..self.state
                    },
                    ..self
                },
                Ok(()),
            )
        }
    }

    /// Whether the log cannot take an entry for the slot.
    pub open spec fn log_is_full_for(self, slot: SlotIndex) -> bool {
        &&& !self.state.log.dom().contains(slot)
        &&& self.state.retained() >= self.config.max_log_slots
    }

    /// Notes a local proposal for a slot.
    pub open spec fn note_proposed(self, slot: SlotIndex, values: Seq<V>) -> (
        Self,
        std::result::Result<(), ErrorView>,
    ) {
        let seen = self.state.seen_value_ids.union(values.to_set());
        if values.len() == 0 {
            (self, Err(ErrorView::EmptyProposal))
        } else if !values.no_duplicates() {
            (self, Err(ErrorView::InvalidProposal("proposal contains duplicate value IDs"@)))
        } else if seen.len() > self.config.max_tracked_value_ids {
            (self, Err(limit_reached("tracked value IDs"@, self.config.max_tracked_value_ids)))
        } else if self.log_is_full_for(slot) {
            (self, Err(limit_reached("retained log slots"@, self.config.max_log_slots)))
        } else {
            (
                ReplicaView {
                    state: ReplicaState {
                        last_proposed: SlotIndex(
                            if self.state.last_proposed.0 < slot.0 {
                                slot.0
                            } else {
                                self.state.last_proposed.0
                            },
                        ),
                        seen_value_ids: seen,
                        ..self.state.with_entry(
                            slot,
                            LogSlotView { proposed: values, ..self.state.entry(slot) },
                        )
                    },
                    ..self
                },
                Ok(()),
            )
        }
    }

    /// How many queued values go into the next proposal.
    pub open spec fn batch_len(self) -> int {
        let wanted = vstd::math::min(
            self.config.batch_size as int,
            self.state.pending.len() as int,
        );
        if wanted < 1 {
            1
        } else {
            wanted
        }
    }

    /// Proposes the first queued values for the lowest open slot, if the
    /// pipeline has room.
    pub open spec fn next_proposal(self) -> (Self, std::result::Result<
        Option<(SlotIndex, Seq<V>)>,
        ErrorView,
    >) {
        if self.state.inflight_count() >= self.config.pipeline_len || self.state.pending.len()
            == 0 {
            (self, Ok(None))
        } else {
            match self.state.open_slot_from(self.state.next_commit) {
                None => (self, Err(ErrorView::SlotOverflow)),
                Some(slot) => {
                    let values = self.state.pending.take(self.batch_len());
                    let drained = ReplicaView {
                        state: ReplicaState {
                            pending: self.state.pending.skip(self.batch_len()),
                            ..self.state
                        },
                        ..self
                    };
                    let (after, noted) = drained.note_proposed(slot, values);
                    (
                        after,
                        match noted {
                            Ok(()) => Ok(Some((slot, values))),
                            Err(refusal) => Err(refusal),
                        },
                    )
                },
            }
        }
    }

    /// Whether a decision differs from the local proposal for its slot.
    pub open spec fn contested(self, decision: DecisionView<V>) -> bool {
        let proposed = self.state.entry(decision.slot).proposed;
        proposed.len() > 0 && proposed != decision.value_ids
    }

    /// The local proposal's values that a decision left out, in order.
    pub open spec fn losing_values(self, decision: DecisionView<V>) -> Seq<V> {
        if self.contested(decision) {
            self.state.entry(decision.slot).proposed.filter(
                |value: V| !decision.value_ids.contains(value),
            )
        } else {
            Seq::empty()
        }
    }

    /// Why a decision is refused, if it is.
    pub open spec fn decision_error(self, decision: DecisionView<V>) -> Option<ErrorView> {
        let entry = self.state.entry(decision.slot);
        if decision.value_ids.len() == 0 {
            Some(ErrorView::EmptyDecision)
        } else if !decision.value_ids.no_duplicates() {
            Some(ErrorView::InvalidProposal("decision contains duplicate value IDs"@))
        } else if self.state.seen_value_ids.union(decision.value_ids.to_set()).len()
            > self.config.max_tracked_value_ids {
            Some(limit_reached("tracked value IDs"@, self.config.max_tracked_value_ids))
        } else if self.log_is_full_for(decision.slot) {
            Some(limit_reached("retained log slots"@, self.config.max_log_slots))
        } else {
            match entry.decision {
                Some(existing) => if existing.value_ids != decision.value_ids {
                    Some(ErrorView::ConflictingDecision { slot: decision.slot })
                } else {
                    None
                },
                None => if self.contested(decision) && self.state.pending.len()
                    + self.losing_values(decision).len() > self.config.max_pending_values {
                    Some(limit_reached("pending value IDs"@, self.config.max_pending_values))
                } else {
                    None
                },
            }
        }
    }

    /// The state once a new decision is stored and its losers are queued again
    /// in front, before anything is committed.
    pub open spec fn with_decision(self, decision: DecisionView<V>) -> ReplicaState<V> {
        ReplicaState {
            pending: self.losing_values(decision) + self.state.pending,
            seen_value_ids: self.state.seen_value_ids.union(decision.value_ids.to_set()),
            ..self.state.with_entry(
                decision.slot,
                LogSlotView { decision: Some(decision), ..self.state.entry(decision.slot) },
            )
        }
    }

    /// Stores a decision and commits what became contiguous.
    pub open spec fn apply_decision(self, decision: DecisionView<V>) -> (
        Self,
        std::result::Result<Seq<DecisionView<V>>, ErrorView>,
    ) {
        match self.decision_error(decision) {
            Some(refusal) => (self, Err(refusal)),
            None => if self.state.entry(decision.slot).decision is Some {
                (self, Ok(Seq::empty()))
            } else {
                let (state, committed) = self.with_decision(decision).commit_ready();
                (ReplicaView { state, ..self }, committed)
            },
        }
    }

    /// The slot up to which a checkpoint request prunes.
    pub open spec fn prune_bound(self, slot: SlotIndex) -> SlotIndex {
        let capped = if slot.0 < self.state.committed_through().0 {
            slot
        } else {
            self.state.committed_through()
        };
        if capped.0 < self.state.checkpointed_through.0 {
            self.state.checkpointed_through
        } else {
            capped
        }
    }

    /// Drops the committed slots through a checkpoint.
    pub open spec fn prune_through(self, slot: SlotIndex) -> Self {
        let through = self.prune_bound(slot);
        ReplicaView {
            state: ReplicaState {
                log: self.state.log.restrict(
                    Set::new(
                        |index: SlotIndex|
                            index.0 == 0 || index.0 > through.0 || !self.state.log[index].committed,
                    ),
                ),
                checkpointed_through: through,
                ..self.state
            },
            ..self
        }
    }
}

/// The replica pipeline: queues value IDs, proposes them for open slots, and
/// commits decided slots in order.
#[derive(Debug)]
pub struct ReplicaCore<V: Key> {
    config: ReplicaConfig,
    log: OrdMap<SlotIndex, LogSlot<V>>,
    pending: Vec<V>,
    last_proposed: SlotIndex,
    next_commit: SlotIndex,
    checkpointed_through: SlotIndex,
    seen_value_ids: OrdSet<V>,
}

impl<V: Key> View for ReplicaCore<V> {
    type V = ReplicaView<V>;

    closed spec fn view(&self) -> ReplicaView<V> {
        ReplicaView {
            config: self.config,
            state: ReplicaState {
                log: self.log@,
                pending: self.pending@,
                last_proposed: self.last_proposed,
                next_commit: self.next_commit,
                checkpointed_through: self.checkpointed_through,
                seen_value_ids: self.seen_value_ids@,
            },
        }
    }
}

/// A fresh value is new, and the fresh values are all different.
pub proof fn lemma_fresh_values<V>(seen: Set<V>, values: Seq<V>)
    ensures
        fresh_values(seen, values).no_duplicates(),
        forall|i: int|
            0 <= i < fresh_values(seen, values).len() ==> !seen.contains(
                #[trigger] fresh_values(seen, values)[i],
            ),
        fresh_values(seen, values).to_set() == values.to_set().difference(seen),
        fresh_values(seen, values).len() <= values.len(),
    decreases values.len(),
{
    let fresh = fresh_values(seen, values);
    if values.len() == 0 {
        assert(fresh.to_set() =~= values.to_set().difference(seen));
    } else {
        let rest = fresh_values(seen, values.drop_last());
        let last = values.last();
        lemma_fresh_values(seen, values.drop_last());
        assert(values =~= values.drop_last().push(last));
        values.drop_last().lemma_push_to_set_commute(last);
        rest.lemma_push_to_set_commute(last);
        if seen.contains(last) || rest.contains(last) {
            if rest.contains(last) {
                assert(rest.to_set().contains(last));
            }
            assert(fresh.to_set() =~= values.to_set().difference(seen));
        } else {
            assert(fresh.to_set() =~= values.to_set().difference(seen));
        }
    }
}

/// Adding values that are new grows a set by as many.
pub proof fn lemma_disjoint_growth<V>(seen: Set<V>, fresh: Seq<V>)
    requires
        seen.finite(),
        fresh.no_duplicates(),
        forall|i: int| 0 <= i < fresh.len() ==> !seen.contains(#[trigger] fresh[i]),
    ensures
        seen.union(fresh.to_set()).len() == seen.len() + fresh.len(),
        seen.union(fresh.to_set()).finite(),
{
    fresh.unique_seq_to_set();
    assert(seen.disjoint(fresh.to_set()));
    vstd::set_lib::lemma_set_disjoint_lens(seen, fresh.to_set());
}

/// The values of a list that a set does not hold, each once.
fn collect_fresh<V: Key>(seen: &OrdSet<V>, values: &[V]) -> (fresh: Vec<V>)
    ensures
        fresh@ == fresh_values(seen@, values@),
{
    let mut unique: OrdSet<V> = OrdSet::new();
    let mut fresh: Vec<V> = Vec::new();
    let mut i: usize = 0;
    while i < values.len()
        invariant
            i <= values@.len(),
            fresh@ == fresh_values(seen@, values@.take(i as int)),
            unique@ == fresh@.to_set(),
        decreases values@.len() - i,
    {
        proof {
            assert(values@.take(i + 1).drop_last() =~= values@.take(i as int));
        }
        if !seen.contains(&values[i]) && unique.insert(values[i].duplicate()) {
            proof {
                fresh@.lemma_push_to_set_commute(values@[i as int]);
            }
            fresh.push(values[i].duplicate());
        } else {
            assert(unique@ =~= fresh@.to_set());
        }
        i += 1;
    }
    assert(values@.take(i as int) =~= values@);
    fresh
}

/// Adds every value of a list to a set.
fn extend_set<V: Key>(set: &mut OrdSet<V>, values: &[V])
    ensures
        final(set)@ == old(set)@.union(values@.to_set()),
{
    let mut i: usize = 0;
    assert(set@ =~= old(set)@.union(values@.take(0).to_set()));
    while i < values.len()
        invariant
            i <= values@.len(),
            set@ == old(set)@.union(values@.take(i as int).to_set()),
        decreases values@.len() - i,
    {
        let _ = set.insert(values[i].duplicate());
        proof {
            let before = values@.take(i as int);
            assert(values@.take(i + 1) =~= before.push(values@[i as int]));
            before.lemma_push_to_set_commute(values@[i as int]);
            assert(set@ =~= old(set)@.union(values@.take(i + 1).to_set()));
        }
        i += 1;
    }
    assert(values@.take(i as int) =~= values@);
}

/// Whether a set has room for a list's new values.
fn fits<V: Key>(set: &OrdSet<V>, values: &[V], limit: usize) -> (room: bool)
    ensures
        room == (set@.union(values@.to_set()).len() <= limit),
        set@.finite(),
{
    let fresh: Vec<V> = collect_fresh(set, values);
    let held: usize = set.len();
    proof {
        lemma_fresh_values(set@, values@);
        lemma_disjoint_growth(set@, fresh@);
        assert(set@.union(values@.to_set()) =~= set@.union(fresh@.to_set()));
    }
    held <= limit && fresh.len() <= limit - held
}

/// Whether a set holds every value of a list.
fn holds_all<V: Key>(set: &OrdSet<V>, values: &[V]) -> (all: bool)
    ensures
        all == values@.to_set().subset_of(set@),
        all == (forall|i: int| 0 <= i < values@.len() ==> set@.contains(#[trigger] values@[i])),
{
    let mut i: usize = 0;
    while i < values.len()
        invariant
            i <= values@.len(),
            forall|j: int| 0 <= j < i ==> set@.contains(#[trigger] values@[j]),
        decreases values@.len() - i,
    {
        if !set.contains(&values[i]) {
            assert(values@.to_set().contains(values@[i as int]));
            return false;
        }
        i += 1;
    }
    true
}

/// The values of a list that another list does not hold, in order.
fn without<V: Key>(values: &[V], excluded: &[V]) -> (kept: Vec<V>)
    ensures
        kept@ == values@.filter(|value: V| !excluded@.contains(value)),
{
    let drop: OrdSet<V> = OrdSet::from_slice(excluded);
    let mut kept: Vec<V> = Vec::new();
    let mut i: usize = 0;
    let ghost keep = |value: V| !excluded@.contains(value);
    assert(values@.take(0).filter(keep) =~= Seq::<V>::empty()) by {
        reveal(Seq::filter);
    }
    while i < values.len()
        invariant
            i <= values@.len(),
            drop@ == excluded@.to_set(),
            keep == (|value: V| !excluded@.contains(value)),
            kept@ == values@.take(i as int).filter(keep),
        decreases values@.len() - i,
    {
        proof {
            let before = values@.take(i as int);
            assert(values@.take(i + 1) =~= before.push(values@[i as int]));
            before.lemma_filter_push(values@[i as int], keep);
        }
        if !drop.contains(&values[i]) {
            kept.push(values[i].duplicate());
        }
        i += 1;
    }
    assert(values@.take(i as int) =~= values@);
    kept
}

/// Counting a property over ascending keys counts the keys that have it.
proof fn lemma_count_step<K: Key>(keys: Seq<K>, i: int, chosen: spec_fn(K) -> bool)
    requires
        collections::ascending(keys),
        0 <= i < keys.len(),
    ensures
        keys.take(i + 1).to_set().filter(chosen).len() == keys.take(i).to_set().filter(chosen).len()
            + if chosen(keys[i]) {
            1int
        } else {
            0int
        },
{
    let before = keys.take(i);
    let key = keys[i];
    assert(keys.take(i + 1) =~= before.push(key));
    before.lemma_push_to_set_commute(key);
    assert(!before.contains(key)) by {
        if before.contains(key) {
            let p = collections::place(before, key);
            assert(0 <= p < before.len() && before[p] == key);
            assert(keys[p].rank() < keys[i].rank());
        }
    }
    assert(before.to_set().finite());
    before.to_set().lemma_len_filter(chosen);
    if chosen(key) {
        assert(before.to_set().insert(key).filter(chosen) =~= before.to_set().filter(chosen).insert(
            key,
        ));
    } else {
        assert(before.to_set().insert(key).filter(chosen) =~= before.to_set().filter(chosen));
    }
}

impl<V: Key> ReplicaCore<V> {
    /// A replica that has seen nothing.
    pub fn new(config: ReplicaConfig) -> (replica: Self)
        ensures
            replica@ == ReplicaView::<V>::initial(config),
    {
        let mut log: OrdMap<SlotIndex, LogSlot<V>> = OrdMap::new();
        log.insert(
            SlotIndex(0),
            LogSlot { proposed: Vec::new(), decision: None, committed: true },
        );
        let replica = ReplicaCore {
            config,
            log,
            pending: Vec::new(),
            last_proposed: SlotIndex(0),
            next_commit: SlotIndex(1),
            checkpointed_through: SlotIndex(0),
            seen_value_ids: OrdSet::new(),
        };
        assert(replica@ =~= ReplicaView::<V>::initial(config));
        replica
    }

    /// Restores a replica pipeline from a durable snapshot.
    pub fn restore(config: ReplicaConfig, snapshot: ReplicaSnapshot<V>) -> (restored: Result<Self>)
        ensures
            error::outcome(restored) == match (ReplicaView {
                config,
                state: snapshot@,
            }).restore_error() {
                Some(refusal) => Err::<ReplicaView<V>, ErrorView>(refusal),
                None => Ok(ReplicaView { config, state: snapshot@ }),
            },
    {
        let replica = ReplicaCore {
            config,
            log: snapshot.log,
            pending: snapshot.pending,
            last_proposed: snapshot.last_proposed,
            next_commit: snapshot.next_commit,
            checkpointed_through: snapshot.checkpointed_through,
            seen_value_ids: snapshot.seen_value_ids,
        };
        assert(replica@ =~= (ReplicaView { config, state: snapshot@ }));
        if replica.pending.len() > config.max_pending_values {
            return Err(
                QuePaxaError::ResourceLimit {
                    resource: "pending value IDs",
                    limit: config.max_pending_values,
                },
            );
        }
        if replica.retained_slots() > config.max_log_slots {
            return Err(
                QuePaxaError::ResourceLimit {
                    resource: "retained log slots",
                    limit: config.max_log_slots,
                },
            );
        }
        if replica.seen_value_ids.len() > config.max_tracked_value_ids {
            return Err(
                QuePaxaError::ResourceLimit {
                    resource: "tracked value IDs",
                    limit: config.max_tracked_value_ids,
                },
            );
        }
        if !replica.tracks_everything() {
            return Err(
                QuePaxaError::InvalidProposal(
                    "replica snapshot contains an untracked value ID".to_owned(),
                ),
            );
        }
        let genesis_committed = match replica.log.get(&SlotIndex(0)) {
            Some(entry) => entry.committed,
            None => false,
        };
        if !genesis_committed || replica.next_commit.0 <= replica.checkpointed_through.0 {
            return Err(
                QuePaxaError::InvalidProposal(
                    "replica snapshot is missing its committed genesis slot".to_owned(),
                ),
            );
        }
        if !replica.prefix_is_contiguous() {
            return Err(
                QuePaxaError::InvalidProposal(
                    "replica snapshot skips a committed slot after its checkpoint".to_owned(),
                ),
            );
        }
        if !replica.commits_nothing_early() {
            return Err(
                QuePaxaError::InvalidProposal(
                    "replica snapshot marks a future slot committed".to_owned(),
                ),
            );
        }
        Ok(replica)
    }

    /// How many slots the log retains besides genesis.
    fn retained_slots(&self) -> (count: usize)
        ensures
            count == self@.state.retained(),
            self@.state.log.dom().finite(),
    {
        let all: usize = self.log.len();
        if self.log.contains_key(&SlotIndex(0)) {
            all - 1
        } else {
            all
        }
    }

    /// Whether every value that the pipeline mentions is tracked.
    fn tracks_everything(&self) -> (complete: bool)
        ensures
            complete == self@.state.all_tracked(),
    {
        if !holds_all(&self.seen_value_ids, self.pending.as_slice()) {
            proof {
                let i = choose|i: int|
                    0 <= i < self.pending@.len() && !self.seen_value_ids@.contains(
                        #[trigger] self.pending@[i],
                    );
                assert(!self@.state.seen_value_ids.contains(self@.state.pending[i]));
            }
            return false;
        }
        let count: usize = self.log.len();
        let mut i: usize = 0;
        while i < count
            invariant
                i <= count == self.log.keys().len(),
                collections::lists(self.log.keys(), self.log@),
                forall|j: int|
                    0 <= j < i ==> self@.state.slot_tracked(#[trigger] self.log.keys()[j]),
            decreases count - i,
        {
            let entry: &LogSlot<V> = self.log.value_at(i);
            let proposed_tracked = holds_all(&self.seen_value_ids, entry.proposed.as_slice());
            let decision_tracked = match &entry.decision {
                Some(decision) => holds_all(&self.seen_value_ids, decision.value_ids.as_slice()),
                None => true,
            };
            if !proposed_tracked || !decision_tracked {
                assert(self@.state.log.dom().contains(self.log.keys()[i as int]));
                assert(!self@.state.slot_tracked(self.log.keys()[i as int]));
                return false;
            }
            i += 1;
        }
        proof {
            assert forall|slot: SlotIndex| #[trigger]
                self@.state.log.dom().contains(slot) implies self@.state.slot_tracked(slot) by {
                let p = collections::place(self.log.keys(), slot);
                assert(0 <= p < count && self.log.keys()[p] == slot);
            }
        }
        true
    }

    /// Whether every slot between the checkpoint and the frontier is settled.
    fn prefix_is_contiguous(&self) -> (contiguous: bool)
        requires
            self@.state.checkpointed_through.0 < self@.state.next_commit.0,
        ensures
            contiguous == self@.state.contiguous(),
    {
        let mut slot: u64 = self.checkpointed_through.0 + 1;
        while slot < self.next_commit.0
            invariant
                self.checkpointed_through.0 < slot <= self.next_commit.0,
                forall|s: SlotIndex|
                    self.checkpointed_through.0 < s.0 < slot ==> #[trigger] self@.state.settled(s),
            decreases self.next_commit.0 - slot,
        {
            let settled = match self.log.get(&SlotIndex(slot)) {
                Some(entry) => entry.committed && entry.decision.is_some(),
                None => false,
            };
            if !settled {
                assert(!self@.state.settled(SlotIndex(slot)));
                return false;
            }
            assert(self@.state.settled(SlotIndex(slot)));
            slot += 1;
        }
        true
    }

    /// Whether no slot at or past the frontier is committed.
    fn commits_nothing_early(&self) -> (none: bool)
        ensures
            none == self@.state.nothing_early(),
    {
        let count: usize = self.log.len();
        let mut i: usize = 0;
        while i < count
            invariant
                i <= count == self.log.keys().len(),
                collections::lists(self.log.keys(), self.log@),
                forall|j: int|
                    0 <= j < i ==> {
                        let slot = #[trigger] self.log.keys()[j];
                        slot.0 != 0 && slot.0 >= self.next_commit.0 ==> !self.log@[slot].committed
                    },
            decreases count - i,
        {
            let slot: SlotIndex = *self.log.key_at(i);
            let entry: &LogSlot<V> = self.log.value_at(i);
            if slot.0 != 0 && slot.0 >= self.next_commit.0 && entry.committed {
                assert(self@.state.log.dom().contains(slot));
                return false;
            }
            i += 1;
        }
        proof {
            assert forall|slot: SlotIndex| #[trigger]
                self@.state.log.dom().contains(slot) && slot.0 != 0 && slot.0
                    >= self.next_commit.0 implies !self@.state.log[slot].committed by {
                let p = collections::place(self.log.keys(), slot);
                assert(0 <= p < count && self.log.keys()[p] == slot);
            }
        }
        true
    }

    /// The durable state.
    pub fn snapshot(&self) -> (snapshot: ReplicaSnapshot<V>)
        ensures
            snapshot@ == self@.state,
    {
        ReplicaSnapshot {
            log: self.log.duplicate_value(),
            pending: duplicate_keys(self.pending.as_slice()),
            last_proposed: self.last_proposed,
            next_commit: self.next_commit,
            checkpointed_through: self.checkpointed_through,
            seen_value_ids: self.seen_value_ids.duplicate_value(),
        }
    }

    /// Queues the values that are not yet known.
    pub fn enqueue(&mut self, value_ids: Vec<V>) -> (result: Result<()>)
        ensures
            (final(self)@, error::outcome(result)) == old(self)@.enqueue(value_ids@),
    {
        let fresh: Vec<V> = collect_fresh(&self.seen_value_ids, value_ids.as_slice());
        let queued: usize = self.pending.len();
        let seen: usize = self.seen_value_ids.len();
        if queued > self.config.max_pending_values || fresh.len() > self.config.max_pending_values
            - queued {
            return Err(
                QuePaxaError::ResourceLimit {
                    resource: "pending value IDs",
                    limit: self.config.max_pending_values,
                },
            );
        }
        if seen > self.config.max_tracked_value_ids || fresh.len()
            > self.config.max_tracked_value_ids - seen {
            return Err(
                QuePaxaError::ResourceLimit {
                    resource: "tracked value IDs",
                    limit: self.config.max_tracked_value_ids,
                },
            );
        }
        extend_set(&mut self.seen_value_ids, fresh.as_slice());
        let mut fresh: Vec<V> = fresh;
        self.pending.append(&mut fresh);
        assert(self@ =~= old(self)@.enqueue(value_ids@).0);
        Ok(())
    }

    /// Proposes the first queued values for the lowest open slot, if the
    /// pipeline has room.
    pub fn next_proposal(&mut self) -> (result: Result<Option<(SlotIndex, Vec<V>)>>)
        ensures
            final(self)@ == old(self)@.next_proposal().0,
            match result {
                Ok(Some((slot, values))) => old(self)@.next_proposal().1 == Ok::<
                    Option<(SlotIndex, Seq<V>)>,
                    ErrorView,
                >(Some((slot, values@))),
                Ok(None) => old(self)@.next_proposal().1 == Ok::<
                    Option<(SlotIndex, Seq<V>)>,
                    ErrorView,
                >(None),
                Err(refusal) => old(self)@.next_proposal().1 == Err::<
                    Option<(SlotIndex, Seq<V>)>,
                    ErrorView,
                >(refusal@),
            },
    {
        if self.inflight_count() >= self.config.pipeline_len || self.pending.is_empty() {
            return Ok(None);
        }
        let slot: SlotIndex = match self.next_open_slot() {
            Ok(slot) => slot,
            Err(refusal) => return Err(refusal),
        };
        let mut take: usize = self.config.batch_size;
        if self.pending.len() < take {
            take = self.pending.len();
        }
        if take < 1 {
            take = 1;
        }
        let ghost before = self@;
        let rest: Vec<V> = self.pending.split_off(take);
        let mut values: Vec<V> = rest;
        std::mem::swap(&mut values, &mut self.pending);
        proof {
            assert(values@ =~= before.state.pending.take(take as int));
            assert(self.pending@ =~= before.state.pending.skip(take as int));
            assert(self@ =~= (ReplicaView {
                state: ReplicaState {
                    pending: before.state.pending.skip(before.batch_len()),
                    ..before.state
                },
                ..before
            }));
        }
        let noted: Vec<V> = duplicate_keys(values.as_slice());
        match self.note_proposed(slot, noted) {
            Ok(()) => Ok(Some((slot, values))),
            Err(refusal) => Err(refusal),
        }
    }

    /// Notes a local proposal for a slot.
    pub fn note_proposed(&mut self, slot: SlotIndex, value_ids: Vec<V>) -> (result: Result<()>)
        ensures
            (final(self)@, error::outcome(result)) == old(self)@.note_proposed(slot, value_ids@),
    {
        if value_ids.is_empty() {
            return Err(QuePaxaError::EmptyProposal);
        }
        if !all_different(value_ids.as_slice()) {
            return Err(
                QuePaxaError::InvalidProposal("proposal contains duplicate value IDs".to_owned()),
            );
        }
        if !fits(
            &self.seen_value_ids,
            value_ids.as_slice(),
            self.config.max_tracked_value_ids,
        ) {
            return Err(
                QuePaxaError::ResourceLimit {
                    resource: "tracked value IDs",
                    limit: self.config.max_tracked_value_ids,
                },
            );
        }
        match self.ensure_log_capacity(slot) {
            Ok(()) => {},
            Err(refusal) => return Err(refusal),
        }
        extend_set(&mut self.seen_value_ids, value_ids.as_slice());
        if self.last_proposed.0 < slot.0 {
            self.last_proposed = slot;
        }
        let mut entry: LogSlot<V> = self.take_entry(slot);
        entry.proposed = value_ids;
        self.log.insert(slot, entry);
        proof {
            let after = old(self)@.note_proposed(slot, value_ids@).0;
            assert(self@.state.log =~= after.state.log);
            assert(self@ =~= after);
        }
        Ok(())
    }

    /// Takes a slot's entry out of the log; an empty one if the log has none.
    fn take_entry(&mut self, slot: SlotIndex) -> (entry: LogSlot<V>)
        ensures
            entry@ == old(self)@.state.entry(slot),
            final(self)@ == (ReplicaView {
                state: ReplicaState {
                    log: old(self)@.state.log.remove(slot),
                    ..old(self)@.state
                },
                ..old(self)@
            }),
    {
        match self.log.remove(&slot) {
            Some(entry) => entry,
            None => LogSlot::default(),
        }
    }

    /// Stores a decision, queues the local values it left out, and commits
    /// every slot that became contiguous.
    pub fn apply_decision(&mut self, decision: Decision<V>) -> (result: Result<Vec<Decision<V>>>)
        ensures
            final(self)@ == old(self)@.apply_decision(decision@).0,
            match result {
                Ok(committed) => old(self)@.apply_decision(decision@).1 == Ok::<
                    Seq<DecisionView<V>>,
                    ErrorView,
                >(types::list_view(committed@)),
                Err(refusal) => old(self)@.apply_decision(decision@).1 == Err::<
                    Seq<DecisionView<V>>,
                    ErrorView,
                >(refusal@),
            },
    {
        if decision.value_ids.is_empty() {
            return Err(QuePaxaError::EmptyDecision);
        }
        if !all_different(decision.value_ids.as_slice()) {
            return Err(
                QuePaxaError::InvalidProposal("decision contains duplicate value IDs".to_owned()),
            );
        }
        if !fits(
            &self.seen_value_ids,
            decision.value_ids.as_slice(),
            self.config.max_tracked_value_ids,
        ) {
            return Err(
                QuePaxaError::ResourceLimit {
                    resource: "tracked value IDs",
                    limit: self.config.max_tracked_value_ids,
                },
            );
        }
        let slot: SlotIndex = decision.slot;
        match self.ensure_log_capacity(slot) {
            Ok(()) => {},
            Err(refusal) => return Err(refusal),
        }
        let mut contested = false;
        let mut requeue: Vec<V> = Vec::new();
        match self.log.get(&slot) {
            Some(entry) => {
                match &entry.decision {
                    Some(existing) => {
                        if !same_list(
                            existing.value_ids.as_slice(),
                            decision.value_ids.as_slice(),
                        ) {
                            return Err(QuePaxaError::ConflictingDecision { slot });
                        }
                        let none: Vec<Decision<V>> = Vec::new();
                        assert(types::list_view(none@) =~= Seq::<DecisionView<V>>::empty());
                        return Ok(none);
                    },
                    None => {},
                }
                if !entry.proposed.is_empty() && !same_list(
                    entry.proposed.as_slice(),
                    decision.value_ids.as_slice(),
                ) {
                    contested = true;
                    requeue = without(entry.proposed.as_slice(), decision.value_ids.as_slice());
                }
            },
            None => {},
        }
        assert(requeue@ == self@.losing_values(decision@));
        let queued: usize = self.pending.len();
        if contested && (queued > self.config.max_pending_values || requeue.len()
            > self.config.max_pending_values - queued) {
            return Err(
                QuePaxaError::ResourceLimit {
                    resource: "pending value IDs",
                    limit: self.config.max_pending_values,
                },
            );
        }
        requeue.append(&mut self.pending);
        self.pending = requeue;
        extend_set(&mut self.seen_value_ids, decision.value_ids.as_slice());
        let mut entry: LogSlot<V> = self.take_entry(slot);
        entry.decision = Some(decision);
        self.log.insert(slot, entry);
        proof {
            let stored = old(self)@.with_decision(decision@);
            assert(self@.state.log =~= stored.log);
            assert(self@.state.pending =~= stored.pending);
            assert(self@.state =~= stored);
        }
        self.commit_ready()
    }

    /// How many values are queued.
    pub fn pending_len(&self) -> (count: usize)
        ensures
            count == self@.state.pending.len(),
    {
        self.pending.len()
    }

    /// The last slot of the contiguous committed prefix.
    pub fn committed_through(&self) -> (slot: SlotIndex)
        ensures
            slot == self@.state.committed_through(),
    {
        SlotIndex(self.next_commit.0.saturating_sub(1))
    }

    /// The last slot that a checkpoint covers.
    pub fn checkpointed_through(&self) -> (slot: SlotIndex)
        ensures
            slot == self@.state.checkpointed_through,
    {
        self.checkpointed_through
    }

    /// What the log holds for a slot.
    pub fn slot(&self, slot: SlotIndex) -> (found: Option<&LogSlot<V>>)
        ensures
            match found {
                Some(entry) => self@.state.log.dom().contains(slot) && entry@
                    == self@.state.log[slot],
                None => !self@.state.log.dom().contains(slot),
            },
    {
        self.log.get(&slot)
    }

    /// Whether the log has a slot after `slot`.
    pub fn has_slot_after(&self, slot: SlotIndex) -> (found: bool)
        ensures
            found == (exists|later: SlotIndex|
                self@.state.log.dom().contains(later) && later.0 > slot.0),
    {
        let count: usize = self.log.len();
        if count == 0 {
            assert(self@.state.log.dom() =~= Set::<SlotIndex>::empty());
            return false;
        }
        let last: SlotIndex = *self.log.key_at(count - 1);
        proof {
            assert forall|later: SlotIndex|
                self@.state.log.dom().contains(later) implies later.0 <= last.0 by {
                let p = collections::place(self.log.keys(), later);
                assert(0 <= p < count && self.log.keys()[p] == later);
                if p < count - 1 {
                    assert(self.log.keys()[p].rank() < self.log.keys()[count - 1].rank());
                }
            }
        }
        assert(self@.state.log.dom().contains(last));
        last.0 > slot.0
    }

    /// Drops only committed slots after the embedding state machine has
    /// checkpointed them.
    pub fn prune_through(&mut self, slot: SlotIndex)
        ensures
            final(self)@ == old(self)@.prune_through(slot),
    {
        let mut through: SlotIndex = slot;
        let committed: SlotIndex = self.committed_through();
        if committed.0 <= through.0 {
            through = committed;
        }
        if through.0 < self.checkpointed_through.0 {
            through = self.checkpointed_through;
        }
        let ghost log = self.log@;
        let ghost kept = Set::new(
            |index: SlotIndex|
                index.0 == 0 || index.0 > through.0 || !old(self)@.state.log[index].committed,
        );
        let count: usize = self.log.len();
        let ghost keys = self.log.keys();
        let mut copy: OrdMap<SlotIndex, LogSlot<V>> = OrdMap::new();
        let mut i: usize = 0;
        assert(copy@ =~= log.restrict(kept).restrict(keys.take(0).to_set()));
        while i < count
            invariant
                i <= count == keys.len(),
                keys == self.log.keys(),
                log == self.log@,
                collections::lists(keys, log),
                log == old(self)@.state.log,
                kept == Set::new(
                    |index: SlotIndex|
                        index.0 == 0 || index.0 > through.0 || !old(
                            self,
                        )@.state.log[index].committed,
                ),
                copy@ == log.restrict(kept).restrict(keys.take(i as int).to_set()),
            decreases count - i,
        {
            let index: SlotIndex = *self.log.key_at(i);
            let entry: &LogSlot<V> = self.log.value_at(i);
            let ghost earlier = copy@;
            if index.0 == 0 || index.0 > through.0 || !entry.committed {
                copy.insert(index, entry.duplicate_value());
            }
            proof {
                assert(keys.take(i + 1) =~= keys.take(i as int).push(index));
                keys.take(i as int).lemma_push_to_set_commute(index);
                assert(log.dom().contains(index));
                assert(copy@ =~= log.restrict(kept).restrict(keys.take(i + 1).to_set()));
            }
            i += 1;
        }
        proof {
            assert(keys.take(count as int) =~= keys);
            assert(copy@ =~= log.restrict(kept));
        }
        self.log = copy;
        self.checkpointed_through = through;
        assert(self@ =~= old(self)@.prune_through(slot));
    }

    /// Proposes into the lowest undecided slot not already claimed, starting
    /// from the commit frontier. This re-drives gap slots left by a crashed
    /// proposer instead of skipping past them forever.
    fn next_open_slot(&self) -> (result: Result<SlotIndex>)
        ensures
            match self@.state.open_slot_from(self@.state.next_commit) {
                Some(slot) => result == Ok::<SlotIndex, QuePaxaError>(slot),
                None => result matches Err(refusal) && refusal@ == ErrorView::SlotOverflow,
            },
    {
        let mut slot: SlotIndex = self.next_commit;
        loop
            invariant
                self@.state.open_slot_from(self@.state.next_commit)
                    == self@.state.open_slot_from(slot),
            decreases u64::MAX - slot.0,
        {
            let claimed = match self.log.get(&slot) {
                Some(entry) => entry.decision.is_some() || !entry.proposed.is_empty(),
                None => false,
            };
            assert(claimed == self@.state.claimed(slot));
            if !claimed {
                return Ok(slot);
            }
            if slot.0 == u64::MAX {
                return Err(QuePaxaError::SlotOverflow);
            }
            slot = SlotIndex(slot.0 + 1);
        }
    }

    /// How many local proposals are not committed.
    fn inflight_count(&self) -> (total: usize)
        ensures
            total == self@.state.inflight_count(),
    {
        let count: usize = self.log.len();
        let ghost keys = self.log.keys();
        let ghost chosen = |slot: SlotIndex| self@.state.in_flight(slot);
        let mut total: usize = 0;
        let mut i: usize = 0;
        assert(keys.take(0).to_set().filter(chosen) =~= Set::<SlotIndex>::empty());
        while i < count
            invariant
                i <= count == keys.len(),
                keys == self.log.keys(),
                collections::lists(keys, self.log@),
                chosen == (|slot: SlotIndex| self@.state.in_flight(slot)),
                total <= i,
                total == keys.take(i as int).to_set().filter(chosen).len(),
            decreases count - i,
        {
            let slot: SlotIndex = *self.log.key_at(i);
            let entry: &LogSlot<V> = self.log.value_at(i);
            proof {
                lemma_count_step(keys, i as int, chosen);
            }
            if slot.0 >= self.next_commit.0 && !entry.committed && !entry.proposed.is_empty() {
                total += 1;
            }
            i += 1;
        }
        assert(keys.take(count as int) =~= keys);
        total
    }

    /// Commits the decided slots that follow the frontier.
    fn commit_ready(&mut self) -> (result: Result<Vec<Decision<V>>>)
        ensures
            final(self)@.config == old(self)@.config,
            final(self)@.state == old(self)@.state.commit_ready().0,
            match result {
                Ok(committed) => old(self)@.state.commit_ready().1 == Ok::<
                    Seq<DecisionView<V>>,
                    ErrorView,
                >(types::list_view(committed@)),
                Err(refusal) => old(self)@.state.commit_ready().1 == Err::<
                    Seq<DecisionView<V>>,
                    ErrorView,
                >(refusal@),
            },
    {
        let mut committed: Vec<Decision<V>> = Vec::new();
        let ghost goal = self@.state.commit_ready();
        assert(prefixed(types::list_view(committed@), goal).1 =~~= goal.1) by {
            if goal.1 is Ok {
                assert(types::list_view(committed@) + goal.1->Ok_0 =~= goal.1->Ok_0);
            }
        }
        loop
            invariant
                self@.config == old(self)@.config,
                goal == old(self)@.state.commit_ready(),
                prefixed(types::list_view(committed@), self@.state.commit_ready()) == goal,
            decreases u64::MAX - self.next_commit.0,
        {
            let ghost before = self@.state;
            let ghost done = types::list_view(committed@);
            let slot: SlotIndex = self.next_commit;
            let (already, decision) = match self.log.get(&slot) {
                Some(entry) => (entry.committed, duplicate_option(&entry.decision)),
                None => (false, None),
            };
            if already {
                if slot.0 == u64::MAX {
                    return Err(QuePaxaError::SlotOverflow);
                }
                self.next_commit = SlotIndex(slot.0 + 1);
                assert(self@.state =~= before.advanced());
                continue ;
            }
            match decision {
                None => {
                    assert(types::list_view(committed@) + Seq::<DecisionView<V>>::empty()
                        =~= types::list_view(committed@));
                    return Ok(committed);
                },
                Some(decision) => {
                    let mut entry: LogSlot<V> = self.take_entry(slot);
                    entry.committed = true;
                    entry.proposed.clear();
                    self.log.insert(slot, entry);
                    let ghost marked = before.with_entry(
                        before.next_commit,
                        LogSlotView {
                            proposed: Seq::empty(),
                            decision: Some(decision@),
                            committed: true,
                        },
                    );
                    assert(self@.state.log =~= marked.log);
                    assert(self@.state =~= marked);
                    if slot.0 == u64::MAX {
                        return Err(QuePaxaError::SlotOverflow);
                    }
                    committed.push(decision);
                    self.next_commit = SlotIndex(slot.0 + 1);
                    proof {
                        assert(self@.state =~= marked.advanced());
                        assert(types::list_view(committed@) =~= done.push(decision@));
                        let later = self@.state.commit_ready();
                        if later.1 is Ok {
                            assert(done + (seq![decision@] + later.1->Ok_0) =~= done.push(
                                decision@,
                            ) + later.1->Ok_0);
                        }
                    }
                },
            }
        }
    }

    /// Whether the log can take an entry for the slot.
    fn ensure_log_capacity(&self, slot: SlotIndex) -> (result: Result<()>)
        ensures
            result is Ok <==> !self@.log_is_full_for(slot),
            result matches Err(refusal) ==> refusal@ == limit_reached(
                "retained log slots"@,
                self@.config.max_log_slots,
            ),
    {
        if !self.log.contains_key(&slot) && self.retained_slots() >= self.config.max_log_slots {
            return Err(
                QuePaxaError::ResourceLimit {
                    resource: "retained log slots",
                    limit: self.config.max_log_slots,
                },
            );
        }
        Ok(())
    }
}

impl<V: Key> Duplicate for ReplicaCore<V> {
    fn duplicate_value(&self) -> (copy: Self) {
        ReplicaCore {
            config: self.config,
            log: self.log.duplicate_value(),
            pending: duplicate_keys(self.pending.as_slice()),
            last_proposed: self.last_proposed,
            next_commit: self.next_commit,
            checkpointed_through: self.checkpointed_through,
            seen_value_ids: self.seen_value_ids.duplicate_value(),
        }
    }
}

impl<V: Key> Clone for ReplicaCore<V> {
    fn clone(&self) -> (copy: Self)
        ensures
            copy@ == self@,
    {
        self.duplicate_value()
    }
}

} // verus!
