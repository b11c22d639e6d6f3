//! Suppression of repeated work: commands that were applied through another
//! slot, and client requests that were answered before.

use crate::collections::{OrdMap, OrdSet};
use crate::durable;
use crate::error;
use crate::error::{ErrorView, QuePaxaError, Result};
use crate::key::{Duplicate, Key};
use crate::network::batch;
use crate::network::durability::{SnapshotCodec, SnapshotStore};
use crate::network::envelope;
use crate::network::envelope::{open, seal, EnvelopeFault, FaultView};
use crate::network::wire::{OutcomeView, Submission, SubmissionOutcome};
use crate::runtime::StateMachine;
use crate::text;
use crate::text::joined;
use crate::types::{Decision, DecisionView, SlotIndex};
use std::marker::PhantomData;
use vstd::prelude::*;
use vstd::string::StringExecFns;

verus! {

/// The version of stored deduplication snapshots.
pub const DEDUPE_STORAGE_VERSION: u16 = 1;

/// Application transaction boundary for cross-replica command deduplication.
///
/// A durable implementation must atomically apply a previously unseen value ID
/// and remember that ID. It returns `true` when it applied the command and
/// `false` when the command had already been applied through another slot.
pub trait ExactlyOnceExecutor<V> {
    /// The value IDs that were applied.
    open spec fn applied(&self) -> Set<V> {
        Set::empty()
    }

    /// Whether executing a value may go like this: from here, with this result,
    /// to `after`. An executor that does not say leaves it open what a value
    /// does.
    open spec fn executes_once(
        &self,
        slot: SlotIndex,
        value_id: V,
        fresh: std::result::Result<bool, ErrorView>,
        after: &Self,
    ) -> bool {
        true
    }

    /// Whether exporting a checkpoint may go like this.
    open spec fn exports(
        &self,
        through: SlotIndex,
        checkpoint: std::result::Result<Seq<u8>, ErrorView>,
        after: &Self,
    ) -> bool {
        true
    }

    /// Whether importing a checkpoint may go like this.
    open spec fn imports(
        &self,
        through: SlotIndex,
        checkpoint: Seq<u8>,
        imported: std::result::Result<(), ErrorView>,
        after: &Self,
    ) -> bool {
        true
    }

    fn execute_once(&mut self, slot: SlotIndex, value_id: &V) -> (fresh: Result<bool>)
        ensures
            match fresh {
                Ok(fresh) => {
                    &&& fresh == !old(self).applied().contains(*value_id)
                    &&& final(self).applied() == old(self).applied().insert(*value_id)
                },
                Err(_) => final(self).applied() == old(self).applied(),
            },
            old(self).executes_once(slot, *value_id, fresh_outcome(fresh), final(self)),
    ;

    /// An executor without checkpoints answers with [`export_unsupported`].
    fn export_checkpoint(&mut self, through: SlotIndex) -> (checkpoint: Result<Vec<u8>>)
        ensures
            old(self).exports(through, error::outcome(checkpoint), final(self)),
    ;

    /// An executor without checkpoints answers with [`import_unsupported`].
    fn import_checkpoint(&mut self, through: SlotIndex, checkpoint: &[u8]) -> (imported: Result<()>)
        ensures
            old(self).imports(through, checkpoint@, error::outcome(imported), final(self)),
    ;
}

/// The refusal to export of an executor without checkpoints.
pub open spec fn no_export() -> ErrorView {
    ErrorView::StorageError("the exactly-once executor does not implement checkpoint export"@)
}

/// The refusal to import of an executor without checkpoints.
pub open spec fn no_import() -> ErrorView {
    ErrorView::StorageError("the exactly-once executor does not implement checkpoint import"@)
}

/// The refusal to export of an executor without checkpoints.
pub fn export_unsupported() -> (refusal: QuePaxaError)
    ensures
        refusal@ == no_export(),
{
    QuePaxaError::StorageError(
        "the exactly-once executor does not implement checkpoint export".to_owned(),
    )
}

/// The refusal to import of an executor without checkpoints.
pub fn import_unsupported() -> (refusal: QuePaxaError)
    ensures
        refusal@ == no_import(),
{
    QuePaxaError::StorageError(
        "the exactly-once executor does not implement checkpoint import".to_owned(),
    )
}

/// What the result of executing a value stands for.
pub open spec fn fresh_outcome(fresh: Result<bool>) -> std::result::Result<bool, ErrorView> {
    match fresh {
        Ok(fresh) => Ok(fresh),
        Err(refusal) => Err(refusal@),
    }
}

/// Whether an executor executed values in order, each with success, passing
/// through these states.
pub open spec fn executed_in_turn<V, E: ExactlyOnceExecutor<V>>(
    states: Seq<E>,
    slot: SlotIndex,
    values: Seq<V>,
) -> bool {
    &&& 0 < states.len() <= values.len() + 1
    &&& forall|i: int|
        1 <= i < states.len() ==> executed_value(
            states[i - 1],
            slot,
            values[i - 1],
            #[trigger] states[i],
        )
}

/// Whether an executor executed a value with success.
pub open spec fn executed_value<V, E: ExactlyOnceExecutor<V>>(
    before: E,
    slot: SlotIndex,
    value_id: V,
    after: E,
) -> bool {
    exists|fresh: bool| #[trigger] before.executes_once(slot, value_id, Ok(fresh), &after)
}

/// A state machine that applies each value once, whichever slot brings it.
pub struct DeduplicatingStateMachine<E> {
    executor: E,
}

impl<E> DeduplicatingStateMachine<E> {
    /// The executor behind the machine.
    pub closed spec fn behind(&self) -> E {
        self.executor
    }

    pub fn new(executor: E) -> (machine: Self)
        ensures
            machine.behind() == executor,
    {
        DeduplicatingStateMachine { executor }
    }

    pub fn executor(&self) -> (executor: &E)
        ensures
            *executor == self.behind(),
    {
        &self.executor
    }
}

/// The values of a decision up to some place were applied, and all of them if
/// `all`.
pub open spec fn applied_some<V>(before: Set<V>, after: Set<V>, values: Seq<V>, all: bool) -> bool {
    exists|count: int|
        0 <= count <= values.len() && after == before.union(
            #[trigger] values.take(count).to_set(),
        ) && (all ==> count == values.len())
}

impl<V, E: ExactlyOnceExecutor<V>> StateMachine<V> for DeduplicatingStateMachine<E> {
    /// The executor gets the values in order, up to the first that fails.
    open spec fn executes(
        &self,
        decision: DecisionView<V>,
        executed: std::result::Result<(), ErrorView>,
        after: &Self,
    ) -> bool {
        &&& applied_some(
            <E as ExactlyOnceExecutor<V>>::applied(&self.behind()),
            <E as ExactlyOnceExecutor<V>>::applied(&after.behind()),
            decision.value_ids,
            executed is Ok,
        )
        &&& exists|states: Seq<E>| #[trigger]
            executed_in_turn(states, decision.slot, decision.value_ids) && states[0]
                == self.behind() && match executed {
                Ok(()) => states.len() == decision.value_ids.len() + 1 && after.behind()
                    == states.last(),
                Err(refusal) => states.len() <= decision.value_ids.len()
                    && states.last().executes_once(
                    decision.slot,
                    decision.value_ids[states.len() - 1],
                    Err(refusal),
                    &after.behind(),
                ),
            }
    }

    open spec fn exports(
        &self,
        through: SlotIndex,
        checkpoint: std::result::Result<Seq<u8>, ErrorView>,
        after: &Self,
    ) -> bool {
        <E as ExactlyOnceExecutor<V>>::exports(
            &self.behind(),
            through,
            checkpoint,
            &after.behind(),
        )
    }

    open spec fn imports(
        &self,
        through: SlotIndex,
        checkpoint: Seq<u8>,
        imported: std::result::Result<(), ErrorView>,
        after: &Self,
    ) -> bool {
        <E as ExactlyOnceExecutor<V>>::imports(
            &self.behind(),
            through,
            checkpoint,
            imported,
            &after.behind(),
        )
    }

    /// Applies the values in order, up to the first that fails.
    #[verifier::loop_isolation(false)]
    fn execute(&mut self, decision: &Decision<V>) -> (executed: Result<()>) {
        let ghost start = <E as ExactlyOnceExecutor<V>>::applied(&self.executor);
        let ghost values = decision.value_ids@;
        let ghost mut states: Seq<E> = seq![self.executor];
        let mut i: usize = 0;
        assert(start =~= start.union(values.take(0).to_set()));
        while i < decision.value_ids.len()
            invariant
                i <= values.len(),
                states.len() == i + 1,
                states[0] == old(self).executor,
                states.last() == self.executor,
                executed_in_turn(states, decision.slot, values),
                <E as ExactlyOnceExecutor<V>>::applied(&self.executor) == start.union(
                    values.take(i as int).to_set(),
                ),
            decreases values.len() - i,
        {
            proof {
                assert(values.to_set().contains(values[i as int]));
            }
            match self.executor.execute_once(decision.slot, &decision.value_ids[i]) {
                Ok(fresh) => {
                    proof {
                        assert(states.last().executes_once(
                            decision.slot,
                            values[i as int],
                            Ok(fresh),
                            &self.executor,
                        ));
                        assert(executed_value(
                            states.last(),
                            decision.slot,
                            values[i as int],
                            self.executor,
                        ));
                        let longer = states.push(self.executor);
                        assert forall|k: int| 1 <= k < longer.len() implies executed_value(
                            longer[k - 1],
                            decision.slot,
                            values[k - 1],
                            #[trigger] longer[k],
                        ) by {
                            if k < states.len() {
                                assert(longer[k] == states[k]);
                            }
                        }
                        states = longer;
                    }
                },
                Err(refusal) => {
                    assert(applied_some(
                        start,
                        <E as ExactlyOnceExecutor<V>>::applied(&self.executor),
                        values,
                        false,
                    ));
                    assert(executed_in_turn(states, decision@.slot, decision@.value_ids));
                    return Err(refusal);
                },
            }
            proof {
                assert(values.take(i + 1) =~= values.take(i as int).push(values[i as int]));
                values.take(i as int).lemma_push_to_set_commute(values[i as int]);
                assert(<E as ExactlyOnceExecutor<V>>::applied(&self.executor) =~= start.union(
                    values.take(i + 1).to_set(),
                ));
            }
            i += 1;
        }
        assert(applied_some(
            start,
            <E as ExactlyOnceExecutor<V>>::applied(&self.executor),
            values,
            true,
        ));
        assert(executed_in_turn(states, decision@.slot, decision@.value_ids));
        Ok(())
    }

    fn export_checkpoint(&mut self, through: SlotIndex) -> (checkpoint: Result<Vec<u8>>) {
        self.executor.export_checkpoint(through)
    }

    fn import_checkpoint(&mut self, through: SlotIndex, checkpoint: &[u8]) -> (imported: Result<()>) {
        self.executor.import_checkpoint(through, checkpoint)
    }
}

/// Applies one value to the outside.
pub trait ValueApplier<V> {
    /// Whether applying a value may go like this: from here, with this result,
    /// to `after`. An applier that does not say leaves it open what a value
    /// does.
    open spec fn applies(
        &self,
        slot: SlotIndex,
        value_id: V,
        applied: std::result::Result<(), ErrorView>,
        after: &Self,
    ) -> bool {
        true
    }

    fn apply(&mut self, slot: SlotIndex, value_id: &V) -> (applied: Result<()>)
        ensures
            old(self).applies(slot, *value_id, error::outcome(applied), final(self)),
    ;
}

/// Deterministic reference executor for tests and examples.
pub struct InMemoryExactlyOnceExecutor<V: Key, F> {
    seen: OrdSet<V>,
    applier: F,
}

impl<V: Key, F> InMemoryExactlyOnceExecutor<V, F> {
    /// The value IDs that were applied.
    pub closed spec fn remembered(&self) -> Set<V> {
        self.seen@
    }

    pub fn new(applier: F) -> (executor: Self)
        ensures
            executor.remembered() == Set::<V>::empty(),
            executor.target() == applier,
    {
        InMemoryExactlyOnceExecutor { seen: OrdSet::new(), applier }
    }

    pub fn seen(&self) -> (seen: &OrdSet<V>)
        ensures
            seen@ == self.remembered(),
    {
        &self.seen
    }

    /// What values are applied to.
    pub closed spec fn target(&self) -> F {
        self.applier
    }

    /// What values are applied to.
    pub fn applier(&self) -> (applier: &F)
        ensures
            *applier == self.target(),
    {
        &self.applier
    }
}

impl<V: Key, F: ValueApplier<V>> ExactlyOnceExecutor<V> for InMemoryExactlyOnceExecutor<V, F> {
    open spec fn applied(&self) -> Set<V> {
        self.remembered()
    }

    open spec fn exports(
        &self,
        through: SlotIndex,
        checkpoint: std::result::Result<Seq<u8>, ErrorView>,
        after: &Self,
    ) -> bool {
        *after == *self && checkpoint == Err::<Seq<u8>, ErrorView>(no_export())
    }

    open spec fn imports(
        &self,
        through: SlotIndex,
        checkpoint: Seq<u8>,
        imported: std::result::Result<(), ErrorView>,
        after: &Self,
    ) -> bool {
        *after == *self && imported == Err::<(), ErrorView>(no_import())
    }

    /// A value that was applied before is left alone.
    open spec fn executes_once(
        &self,
        slot: SlotIndex,
        value_id: V,
        fresh: std::result::Result<bool, ErrorView>,
        after: &Self,
    ) -> bool {
        if self.remembered().contains(value_id) {
            *after == *self && fresh == Ok::<bool, ErrorView>(false)
        } else {
            match fresh {
                Ok(fresh) => {
                    &&& fresh
                    &&& self.target().applies(slot, value_id, Ok(()), &after.target())
                    &&& after.remembered() == self.remembered().insert(value_id)
                },
                Err(refusal) => {
                    &&& self.target().applies(slot, value_id, Err(refusal), &after.target())
                    &&& after.remembered() == self.remembered()
                },
            }
        }
    }

    fn execute_once(&mut self, slot: SlotIndex, value_id: &V) -> (fresh: Result<bool>) {
        if self.seen.contains(value_id) {
            assert(self.seen@.insert(*value_id) =~= self.seen@);
            return Ok(false);
        }
        match self.applier.apply(slot, value_id) {
            Ok(()) => {},
            Err(refusal) => return Err(refusal),
        }
        let _ = self.seen.insert(value_id.duplicate());
        Ok(true)
    }

    fn export_checkpoint(&mut self, through: SlotIndex) -> (checkpoint: Result<Vec<u8>>) {
        Err(export_unsupported())
    }

    fn import_checkpoint(&mut self, through: SlotIndex, checkpoint: &[u8]) -> (imported: Result<()>) {
        Err(import_unsupported())
    }
}

/// A client's request.
#[derive(Debug, Clone, Copy, PartialEq, Eq)]
pub struct SubmissionKey {
    pub client_id: [u8; 16],
    pub request_id: u64,
}

impl Key for SubmissionKey {
    open spec fn rank(self) -> int {
        self.client_id.rank() * 0x1_0000_0000_0000_0000 + self.request_id
    }

    proof fn rank_is_injective(a: Self, b: Self) {
        assert(a.client_id.rank() == b.client_id.rank());
        <[u8; 16]>::rank_is_injective(a.client_id, b.client_id);
    }

    fn precedes(&self, other: &Self) -> (earlier: bool) {
        if self.client_id.same(&other.client_id) {
            self.request_id < other.request_id
        } else {
            proof {
                if self.client_id.rank() == other.client_id.rank() {
                    <[u8; 16]>::rank_is_injective(self.client_id, other.client_id);
                }
            }
            self.client_id.precedes(&other.client_id)
        }
    }

    fn same(&self, other: &Self) -> (equal: bool) {
        self.client_id.same(&other.client_id) && self.request_id == other.request_id
    }

    fn duplicate(&self) -> (copy: Self) {
        SubmissionKey { client_id: self.client_id, request_id: self.request_id }
    }
}

/// The refusal of a second outcome for one request.
pub open spec fn conflicting_outcome() -> ErrorView {
    ErrorView::InvalidProposal("submission request ID already has a different outcome"@)
}

/// What the journal holds once an outcome was offered for a request.
pub open spec fn journaled<V>(
    outcomes: Map<SubmissionKey, OutcomeView<V>>,
    key: SubmissionKey,
    outcome: OutcomeView<V>,
) -> std::result::Result<Map<SubmissionKey, OutcomeView<V>>, ErrorView> {
    if outcomes.dom().contains(key) && outcomes[key] != outcome {
        Err(conflicting_outcome())
    } else {
        Ok(outcomes.insert(key, outcome))
    }
}

/// Remembers what client requests were answered.
pub trait SubmissionJournal<V: Key> {
    /// The outcomes by request.
    open spec fn outcomes(&self) -> Map<SubmissionKey, OutcomeView<V>> {
        Map::empty()
    }

    /// Whether the journal fails for no reason of its own.
    open spec fn reliable(&self) -> bool {
        false
    }

    /// Whether looking an outcome up may end like this. A journal that does not
    /// say leaves it open when it fails.
    open spec fn finds(
        &self,
        key: SubmissionKey,
        found: std::result::Result<Option<OutcomeView<V>>, ErrorView>,
    ) -> bool {
        true
    }

    /// Whether offering an outcome may end like this.
    open spec fn journals(
        &self,
        key: SubmissionKey,
        outcome: OutcomeView<V>,
        kept: std::result::Result<(), ErrorView>,
        after: &Self,
    ) -> bool {
        true
    }

    fn get(&self, client_id: [u8; 16], request_id: u64) -> (found: Result<
        Option<SubmissionOutcome<V>>,
    >)
        ensures
            self.finds(SubmissionKey { client_id, request_id }, durable::load_outcome(found)),
            self.reliable() ==> found is Ok,
            found matches Ok(outcome) ==> match outcome {
                Some(outcome) => self.outcomes().dom().contains(
                    SubmissionKey { client_id, request_id },
                ) && self.outcomes()[SubmissionKey { client_id, request_id }] == outcome@,
                None => !self.outcomes().dom().contains(SubmissionKey { client_id, request_id }),
            },
    ;

    fn put(
        &mut self,
        client_id: [u8; 16],
        request_id: u64,
        outcome: SubmissionOutcome<V>,
    ) -> (result: Result<()>)
        ensures
            old(self).journals(
                SubmissionKey { client_id, request_id },
                outcome@,
                error::outcome(result),
                final(self),
            ),
            final(self).reliable() == old(self).reliable(),
            match journaled(
                old(self).outcomes(),
                SubmissionKey { client_id, request_id },
                outcome@,
            ) {
                Ok(next) => {
                    &&& result is Ok ==> final(self).outcomes() == next
                    &&& result is Err ==> final(self).outcomes() == old(self).outcomes()
                    &&& old(self).reliable() ==> result is Ok
                },
                Err(refusal) => {
                    &&& final(self).outcomes() == old(self).outcomes()
                    &&& result matches Err(given) && given@ == refusal
                },
            },
    ;
}

/// Offers one outcome to a map; tells whether it is new.
fn journal_in<V: Key>(
    outcomes: &mut OrdMap<SubmissionKey, SubmissionOutcome<V>>,
    key: SubmissionKey,
    outcome: SubmissionOutcome<V>,
) -> (result: Result<bool>)
    ensures
        match journaled(old(outcomes)@, key, outcome@) {
            Ok(next) => {
                &&& final(outcomes)@ == next
                &&& result matches Ok(added) && added == !old(outcomes)@.dom().contains(key)
            },
            Err(refusal) => {
                &&& final(outcomes)@ == old(outcomes)@
                &&& result matches Err(given) && given@ == refusal
            },
        },
{
    match outcomes.get(&key) {
        Some(existing) => {
            if !existing.same_outcome(&outcome) {
                return Err(
                    QuePaxaError::InvalidProposal(
                        "submission request ID already has a different outcome".to_owned(),
                    ),
                );
            }
            assert(outcomes@.insert(key, outcome@) =~= outcomes@);
            return Ok(false);
        },
        None => {},
    }
    outcomes.insert(key, outcome);
    Ok(true)
}

/// Outcomes kept in memory.
#[derive(Debug)]
pub struct InMemorySubmissionJournal<V: Key> {
    outcomes: OrdMap<SubmissionKey, SubmissionOutcome<V>>,
}

impl<V: Key> View for InMemorySubmissionJournal<V> {
    type V = Map<SubmissionKey, OutcomeView<V>>;

    closed spec fn view(&self) -> Map<SubmissionKey, OutcomeView<V>> {
        self.outcomes@
    }
}

impl<V: Key> Default for InMemorySubmissionJournal<V> {
    fn default() -> (journal: Self)
        ensures
            journal@ == Map::<SubmissionKey, OutcomeView<V>>::empty(),
    {
        InMemorySubmissionJournal { outcomes: OrdMap::new() }
    }
}

impl<V: Key> SubmissionJournal<V> for InMemorySubmissionJournal<V> {
    open spec fn outcomes(&self) -> Map<SubmissionKey, OutcomeView<V>> {
        self@
    }

    open spec fn reliable(&self) -> bool {
        true
    }

    fn get(&self, client_id: [u8; 16], request_id: u64) -> (found: Result<
        Option<SubmissionOutcome<V>>,
    >) {
        match self.outcomes.get(&SubmissionKey { client_id, request_id }) {
            Some(outcome) => Ok(Some(outcome.duplicate_value())),
            None => Ok(None),
        }
    }

    fn put(
        &mut self,
        client_id: [u8; 16],
        request_id: u64,
        outcome: SubmissionOutcome<V>,
    ) -> (result: Result<()>) {
        match journal_in(
            &mut self.outcomes,
            SubmissionKey { client_id, request_id },
            outcome,
        ) {
            Ok(_) => Ok(()),
            Err(refusal) => Err(refusal),
        }
    }
}

/// Request-outcome journal over durable snapshots, for suppressing same-node
/// client retries across process restarts.
pub struct FileSubmissionJournal<V: Key, D> {
    disk: D,
    outcomes: OrdMap<SubmissionKey, SubmissionOutcome<V>>,
}

impl<V: Key, D: SnapshotStore<OrdMap<SubmissionKey, SubmissionOutcome<V>>>> FileSubmissionJournal<
    V,
    D,
> {
    /// Where the outcomes are made durable.
    pub closed spec fn storage(&self) -> D {
        self.disk
    }

    /// What a restart would find.
    pub open spec fn durable(&self) -> Map<SubmissionKey, OutcomeView<V>> {
        batch::recovered(self.storage().persisted())
    }

    /// The outcomes that the journal answers with.
    pub closed spec fn contents(&self) -> Map<SubmissionKey, OutcomeView<V>> {
        self.outcomes@
    }

    /// Every outcome that the journal answers with would survive a restart.
    pub open spec fn is_safe(&self) -> bool {
        self.contents().submap_of(self.durable())
    }

    /// Whether the journal was opened from a storage.
    pub open spec fn opened_from(&self, disk: D) -> bool {
        &&& disk.loads(Ok(disk.persisted()), &self.storage())
        &&& self.contents() == batch::recovered(disk.persisted())
        &&& self.durable() == batch::recovered(disk.persisted())
    }

    /// Starts with what the last run made durable.
    pub fn open(disk: D) -> (journal: Result<Self>)
        ensures
            match journal {
                Ok(journal) => journal.opened_from(disk),
                Err(refusal) => exists|after: D| #[trigger] disk.loads(Err(refusal@), &after),
            },
    {
        let ghost unread = disk;
        let mut disk: D = disk;
        let loaded: Result<Option<OrdMap<SubmissionKey, SubmissionOutcome<V>>>> = disk.load();
        assert(unread.loads(durable::load_outcome(loaded), &disk));
        match loaded {
            Ok(Some(outcomes)) => Ok(FileSubmissionJournal { disk, outcomes }),
            Ok(None) => Ok(FileSubmissionJournal { disk, outcomes: OrdMap::new() }),
            Err(refusal) => Err(refusal),
        }
    }

    pub fn len(&self) -> (count: usize)
        ensures
            count == self.contents().len(),
    {
        self.outcomes.len()
    }

    pub fn is_empty(&self) -> (empty: bool)
        ensures
            empty == (self.contents().len() == 0),
    {
        self.outcomes.is_empty()
    }
}

impl<
    V: Key,
    D: SnapshotStore<OrdMap<SubmissionKey, SubmissionOutcome<V>>>,
> SubmissionJournal<V> for FileSubmissionJournal<V, D> {
    open spec fn outcomes(&self) -> Map<SubmissionKey, OutcomeView<V>> {
        self.contents()
    }

    open spec fn reliable(&self) -> bool {
        false
    }

    open spec fn finds(
        &self,
        key: SubmissionKey,
        found: std::result::Result<Option<OutcomeView<V>>, ErrorView>,
    ) -> bool {
        found is Ok
    }

    /// An outcome that is new goes to the storage; another needs no more than to
    /// be the same.
    open spec fn journals(
        &self,
        key: SubmissionKey,
        outcome: OutcomeView<V>,
        kept: std::result::Result<(), ErrorView>,
        after: &Self,
    ) -> bool {
        match journaled(self.contents(), key, outcome) {
            Err(refusal) => *after == *self && kept == Err::<(), ErrorView>(refusal),
            Ok(next) => if self.contents().dom().contains(key) {
                *after == *self && kept is Ok
            } else {
                &&& self.storage().saves(next, kept, &after.storage())
                &&& if kept is Ok {
                    after.contents() == next && after.durable() == next
                } else {
                    &&& after.contents() == self.contents()
                    &&& after.durable() == self.durable() || after.durable() == next
                }
            },
        }
    }

    fn get(&self, client_id: [u8; 16], request_id: u64) -> (found: Result<
        Option<SubmissionOutcome<V>>,
    >) {
        match self.outcomes.get(&SubmissionKey { client_id, request_id }) {
            Some(outcome) => Ok(Some(outcome.duplicate_value())),
            None => Ok(None),
        }
    }

    /// Makes the outcome durable before it is acknowledged.
    fn put(
        &mut self,
        client_id: [u8; 16],
        request_id: u64,
        outcome: SubmissionOutcome<V>,
    ) -> (result: Result<()>)
        ensures
            old(self).is_safe() ==> final(self).is_safe(),
            !old(self).contents().dom().contains(SubmissionKey { client_id, request_id })
                && result is Ok ==> final(self).durable() == final(self).contents(),
    {
        let mut next: OrdMap<SubmissionKey, SubmissionOutcome<V>> = self.outcomes.duplicate_value();
        match journal_in(&mut next, SubmissionKey { client_id, request_id }, outcome) {
            Ok(true) => {},
            Ok(false) => {
                assert(next@ =~= self.outcomes@);
                return Ok(());
            },
            Err(refusal) => return Err(refusal),
        }
        match self.disk.save(&next) {
            Ok(()) => {},
            Err(refusal) => return Err(refusal),
        }
        self.outcomes = next;
        Ok(())
    }
}

/// One `put`: the request, its outcome, and what came back.
#[verifier::reject_recursive_types(V)]
pub struct JournalPut<V> {
    pub key: SubmissionKey,
    pub outcome: OutcomeView<V>,
    pub kept: std::result::Result<(), ErrorView>,
}

/// Whether a journal went through these states, one `put` after another.
pub open spec fn journal_course<
    V: Key,
    D: SnapshotStore<OrdMap<SubmissionKey, SubmissionOutcome<V>>>,
>(states: Seq<FileSubmissionJournal<V, D>>, puts: Seq<JournalPut<V>>) -> bool {
    &&& states.len() == puts.len() + 1
    &&& forall|i: int|
        0 <= i < puts.len() ==> states[i].journals(
            (#[trigger] puts[i]).key,
            puts[i].outcome,
            puts[i].kept,
            &states[i + 1],
        )
}

/// Outcomes stay, and every outcome that is answered with is durable.
proof fn lemma_journal_course<
    V: Key,
    D: SnapshotStore<OrdMap<SubmissionKey, SubmissionOutcome<V>>>,
>(states: Seq<FileSubmissionJournal<V, D>>, puts: Seq<JournalPut<V>>, i: int)
    requires
        journal_course(states, puts),
        states[0].contents() == states[0].durable(),
        0 <= i < states.len(),
    ensures
        states[i].is_safe(),
        states[0].contents().submap_of(states[i].contents()),
        forall|j: int|
            0 <= j < i && (#[trigger] puts[j]).kept is Ok ==> states[i].contents().contains_pair(
                puts[j].key,
                puts[j].outcome,
            ),
        (forall|j: int| 0 <= j < i ==> (#[trigger] puts[j]).kept is Ok) ==> states[i].durable()
            == states[i].contents(),
    decreases i,
{
    if i > 0 {
        lemma_journal_course(states, puts, i - 1);
        let put = puts[i - 1];
        assert(states[i - 1].journals(put.key, put.outcome, put.kept, &states[i]));
    }
}

/// A journal that is opened again on its storage answers as before: it finds
/// every outcome that a `put` acknowledged or that was there, and after an
/// acknowledged `put` exactly the outcomes of the journal, unless an earlier
/// `put` failed and nothing new was acknowledged since.
pub proof fn reopened_journals_answer_as_before<
    V: Key,
    D: SnapshotStore<OrdMap<SubmissionKey, SubmissionOutcome<V>>>,
>(
    disk: D,
    states: Seq<FileSubmissionJournal<V, D>>,
    puts: Seq<JournalPut<V>>,
    reopened: FileSubmissionJournal<V, D>,
)
    requires
        journal_course(states, puts),
        states[0].opened_from(disk),
        reopened.opened_from(states.last().storage()),
    ensures
        states.last().contents().submap_of(reopened.contents()),
        batch::recovered(disk.persisted()).submap_of(reopened.contents()),
        forall|j: int|
            0 <= j < puts.len() && (#[trigger] puts[j]).kept is Ok
                ==> reopened.contents().contains_pair(puts[j].key, puts[j].outcome),
        (forall|j: int| 0 <= j < puts.len() ==> (#[trigger] puts[j]).kept is Ok) || (puts.len() > 0
            && puts.last().kept is Ok && !states[puts.len() - 1].contents().dom().contains(
            puts.last().key,
        )) ==> reopened.contents() == states.last().contents(),
        puts.len() == 0 && disk.persisted() is None ==> reopened.contents() == Map::<
            SubmissionKey,
            OutcomeView<V>,
        >::empty(),
{
    let last = states.len() - 1;
    lemma_journal_course(states, puts, last);
    assert(states.last() == states[last]);
    if puts.len() > 0 {
        assert(puts[last - 1] == puts.last());
    }
    let first = states[0].contents();
    assert forall|key: SubmissionKey| #[trigger] first.dom().contains(
        key,
    ) implies reopened.contents().dom().contains(key) && first[key] == reopened.contents()[key] by {
        assert(states[last].contents().dom().contains(key));
    }
}

/// Frames deduplication snapshots within a bound, under a label.
#[derive(Debug, Clone, Copy)]
pub struct DedupeFrame {
    max_snapshot_bytes: usize,
    label: &'static str,
}

/// The stored bytes of a deduplication snapshot's payload.
pub open spec fn framed(payload: Seq<u8>, limit: usize) -> std::result::Result<Seq<u8>, ErrorView> {
    let bytes = envelope::sealed(DEDUPE_STORAGE_VERSION, payload);
    if bytes.len() > limit {
        Err(ErrorView::ResourceLimit { resource: "durable deduplication bytes"@, limit })
    } else {
        Ok(bytes)
    }
}

/// The refusal of an envelope.
pub open spec fn frame_error(label: Seq<char>, fault: FaultView) -> ErrorView {
    ErrorView::StorageError(
        match fault {
            FaultView::Malformed(complaint) => "could not decode "@ + label + ": "@ + complaint,
            FaultView::Version(version) => "unsupported "@ + label + " version "@ + text::decimal(
                version as nat,
            ),
            FaultView::Checksum => label + " checksum verification failed"@,
        },
    )
}

/// The payload of a stored deduplication snapshot.
pub open spec fn unframed(
    label: Seq<char>,
    bytes: Seq<u8>,
    limit: usize,
) -> std::result::Result<Seq<u8>, ErrorView> {
    if bytes.len() == 0 || bytes.len() > limit {
        Err(
            ErrorView::StorageError(
                label + " size "@ + text::decimal(bytes.len())
                    + " is outside the configured bound"@,
            ),
        )
    } else {
        match envelope::opened(DEDUPE_STORAGE_VERSION, bytes) {
            Ok(payload) => Ok(payload),
            Err(fault) => Err(frame_error(label, fault)),
        }
    }
}

/// A framed snapshot is read back as it was.
pub proof fn framed_snapshots_are_read_back(label: Seq<char>, payload: Seq<u8>, limit: usize)
    requires
        payload.len() <= usize::MAX,
        framed(payload, limit) is Ok,
    ensures
        unframed(label, framed(payload, limit)->Ok_0, limit) == Ok::<Seq<u8>, ErrorView>(payload),
{
    envelope::sealed_payloads_are_opened(DEDUPE_STORAGE_VERSION, DEDUPE_STORAGE_VERSION, payload);
    assert(envelope::varint(DEDUPE_STORAGE_VERSION as nat).len() == 1);
}

impl DedupeFrame {
    /// The most bytes that a stored snapshot may take.
    pub closed spec fn limit(self) -> usize {
        self.max_snapshot_bytes
    }

    /// What the snapshots are called in refusals.
    pub closed spec fn name(self) -> Seq<char> {
        self.label@
    }

    pub fn new(max_snapshot_bytes: usize, label: &'static str) -> (frame: Result<Self>)
        ensures
            match frame {
                Ok(frame) => max_snapshot_bytes != 0 && frame.limit() == max_snapshot_bytes
                    && frame.name() == label@,
                Err(refusal) => max_snapshot_bytes == 0 && refusal@ == ErrorView::StorageError(
                    "maximum deduplication snapshot size must be non-zero"@,
                ),
            },
    {
        if max_snapshot_bytes == 0 {
            return Err(
                QuePaxaError::StorageError(
                    "maximum deduplication snapshot size must be non-zero".to_owned(),
                ),
            );
        }
        Ok(DedupeFrame { max_snapshot_bytes, label })
    }

    /// The bytes to store for a serialized snapshot.
    pub fn encode(&self, payload: &[u8]) -> (bytes: Result<Vec<u8>>)
        ensures
            error::outcome(bytes) == framed(payload@, self.limit()),
    {
        let bytes: Vec<u8> = match seal(DEDUPE_STORAGE_VERSION, payload) {
            Ok(bytes) => bytes,
            Err(complaint) => {
                let mut message: String = joined("could not encode ", self.label);
                message.append(": ");
                message.append(complaint.as_str());
                return Err(QuePaxaError::StorageError(message));
            },
        };
        if bytes.len() > self.max_snapshot_bytes {
            return Err(
                QuePaxaError::ResourceLimit {
                    resource: "durable deduplication bytes",
                    limit: self.max_snapshot_bytes,
                },
            );
        }
        Ok(bytes)
    }

    /// The serialized snapshot that bytes were stored for.
    pub fn decode(&self, bytes: &[u8]) -> (payload: Result<Vec<u8>>)
        ensures
            error::outcome(payload) == unframed(self.name(), bytes@, self.limit()),
    {
        if bytes.len() == 0 || bytes.len() > self.max_snapshot_bytes {
            let mut message: String = joined(self.label, " size ");
            text::push_decimal(&mut message, bytes.len() as u64);
            message.append(" is outside the configured bound");
            return Err(QuePaxaError::StorageError(message));
        }
        match open(DEDUPE_STORAGE_VERSION, bytes) {
            Ok(payload) => Ok(payload),
            Err(EnvelopeFault::Malformed(complaint)) => {
                let mut message: String = joined("could not decode ", self.label);
                message.append(": ");
                message.append(complaint.as_str());
                Err(QuePaxaError::StorageError(message))
            },
            Err(EnvelopeFault::Version(version)) => {
                let mut message: String = joined("unsupported ", self.label);
                message.append(" version ");
                text::push_decimal(&mut message, version as u64);
                Err(QuePaxaError::StorageError(message))
            },
            Err(EnvelopeFault::Checksum) => Err(
                QuePaxaError::StorageError(joined(self.label, " checksum verification failed")),
            ),
        }
    }
}

/// What an exactly-once executor makes durable in one piece.
#[derive(Debug)]
#[verifier::reject_recursive_types(V)]
pub struct ExactlyOnceSnapshot<V: Key, A> {
    pub checkpointed_through: SlotIndex,
    pub seen: OrdSet<V>,
    pub application: A,
}

/// An exactly-once snapshot with its parts as views.
#[verifier::ext_equal]
#[verifier::reject_recursive_types(V)]
pub struct ExactlyOnceView<V, W> {
    pub checkpointed_through: SlotIndex,
    pub seen: Set<V>,
    pub application: W,
}

impl<V: Key, A: View> View for ExactlyOnceSnapshot<V, A> {
    type V = ExactlyOnceView<V, A::V>;

    open spec fn view(&self) -> ExactlyOnceView<V, A::V> {
        ExactlyOnceView {
            checkpointed_through: self.checkpointed_through,
            seen: self.seen@,
            application: self.application@,
        }
    }
}

impl<V: Key, A: Duplicate> Duplicate for ExactlyOnceSnapshot<V, A> {
    fn duplicate_value(&self) -> (copy: Self) {
        ExactlyOnceSnapshot {
            checkpointed_through: self.checkpointed_through,
            seen: self.seen.duplicate_value(),
            application: self.application.duplicate_value(),
        }
    }
}

impl<V: Key, A: Duplicate> Clone for ExactlyOnceSnapshot<V, A> {
    fn clone(&self) -> (copy: Self)
        ensures
            copy@ == self@,
    {
        self.duplicate_value()
    }
}

/// Applies one value to application state. It must only change the state it is
/// given; other side effects would sit outside the atomic transaction.
pub trait StateApplier<V, A: View> {
    /// Whether applying a value may go like this: from here, with this result
    /// and application state, to `after`. An applier that does not say leaves it
    /// open what a value does.
    open spec fn applies(
        &self,
        application: A::V,
        slot: SlotIndex,
        value_id: V,
        applied: std::result::Result<(), ErrorView>,
        application_after: A::V,
        after: &Self,
    ) -> bool {
        true
    }

    fn apply(&mut self, application: &mut A, slot: SlotIndex, value_id: &V) -> (applied: Result<()>)
        ensures
            old(self).applies(
                old(application)@,
                slot,
                *value_id,
                error::outcome(applied),
                final(application)@,
                final(self),
            ),
    ;
}

/// Reference exactly-once executor for snapshotable application state.
///
/// Each new value ID and its application mutation are made durable in one
/// snapshot before success is returned.
#[verifier::reject_recursive_types(V)]
pub struct FileExactlyOnceExecutor<V: Key, A, F, D, C> {
    disk: D,
    codec: C,
    frame: DedupeFrame,
    snapshot: ExactlyOnceSnapshot<V, A>,
    applier: F,
}

/// Whether an executor took over the state of a checkpoint like this: only for
/// exactly the given floor, and once the state is durable.
pub open spec fn taken_over<
    V: Key,
    A: Duplicate,
    F,
    D: SnapshotStore<ExactlyOnceSnapshot<V, A>>,
    C: SnapshotCodec<ExactlyOnceSnapshot<V, A>>,
>(
    before: &FileExactlyOnceExecutor<V, A, F, D, C>,
    through: SlotIndex,
    state: ExactlyOnceView<V, A::V>,
    taken: std::result::Result<(), ErrorView>,
    after: &FileExactlyOnceExecutor<V, A, F, D, C>,
) -> bool {
    if state.checkpointed_through != through {
        *after == *before && taken == Err::<(), ErrorView>(ErrorView::ConfigurationMismatch)
    } else {
        &&& after.same_rules(before)
        &&& after.target() == before.target()
        &&& kept(before, state, taken, after)
    }
}

/// Whether an executor executed a value like this: applied to a copy of the
/// state, which is durable before the executor answers from it.
pub open spec fn ran_once<
    V: Key,
    A: Duplicate,
    F: StateApplier<V, A>,
    D: SnapshotStore<ExactlyOnceSnapshot<V, A>>,
    C: SnapshotCodec<ExactlyOnceSnapshot<V, A>>,
>(
    before: &FileExactlyOnceExecutor<V, A, F, D, C>,
    slot: SlotIndex,
    value_id: V,
    fresh: std::result::Result<bool, ErrorView>,
    after: &FileExactlyOnceExecutor<V, A, F, D, C>,
) -> bool {
    &&& after.same_rules(before)
    &&& if before.state().seen.contains(value_id) {
        *after == *before && fresh == Ok::<bool, ErrorView>(false)
    } else {
        exists|applied: std::result::Result<(), ErrorView>, application: A| #[trigger]
            before.target().applies(
                before.state().application,
                slot,
                value_id,
                applied,
                application@,
                &after.target(),
            ) && match applied {
                Err(refusal) => {
                    &&& after.state() == before.state()
                    &&& after.storage() == before.storage()
                    &&& fresh == Err::<bool, ErrorView>(refusal)
                },
                Ok(()) => kept(
                    before,
                    ExactlyOnceView {
                        seen: before.state().seen.insert(value_id),
                        application: application@,
                        ..before.state()
                    },
                    match fresh {
                        Ok(_) => Ok(()),
                        Err(refusal) => Err(refusal),
                    },
                    after,
                ) && fresh != Ok::<bool, ErrorView>(false),
            }
    }
}

/// Whether an executor moved to a state like this: the state is durable before
/// the executor answers from it, and a refusal of the storage leaves the
/// executor's state as it was.
pub open spec fn kept<
    V: Key,
    A: Duplicate,
    F,
    D: SnapshotStore<ExactlyOnceSnapshot<V, A>>,
    C: SnapshotCodec<ExactlyOnceSnapshot<V, A>>,
>(
    before: &FileExactlyOnceExecutor<V, A, F, D, C>,
    state: ExactlyOnceView<V, A::V>,
    saved: std::result::Result<(), ErrorView>,
    after: &FileExactlyOnceExecutor<V, A, F, D, C>,
) -> bool {
    &&& before.storage().saves(state, saved, &after.storage())
    &&& if saved is Ok {
        after.state() == state && after.durable() == Some(state)
    } else {
        after.state() == before.state()
    }
}

/// Whether an executor imported a checkpoint like this.
pub open spec fn imported_into<
    V: Key,
    A: Duplicate,
    F,
    D: SnapshotStore<ExactlyOnceSnapshot<V, A>>,
    C: SnapshotCodec<ExactlyOnceSnapshot<V, A>>,
>(
    before: &FileExactlyOnceExecutor<V, A, F, D, C>,
    through: SlotIndex,
    checkpoint: Seq<u8>,
    imported: std::result::Result<(), ErrorView>,
    after: &FileExactlyOnceExecutor<V, A, F, D, C>,
) -> bool {
    match unframed(before.frame_name(), checkpoint, before.limit()) {
        Err(refusal) => *after == *before && imported == Err::<(), ErrorView>(refusal),
        Ok(payload) => exists|snapshot: Result<ExactlyOnceSnapshot<V, A>>| #[trigger]
            before.coder().decodes(payload, error::outcome(snapshot)) && match snapshot {
                Err(refusal) => *after == *before && imported == Err::<(), ErrorView>(refusal@),
                Ok(snapshot) => taken_over(before, through, snapshot@, imported, after),
            },
    }
}

impl<
    V: Key,
    A: Duplicate,
    F,
    D: SnapshotStore<ExactlyOnceSnapshot<V, A>>,
    C: SnapshotCodec<ExactlyOnceSnapshot<V, A>>,
> FileExactlyOnceExecutor<V, A, F, D, C> {
    /// The state that the executor answers from.
    pub closed spec fn state(&self) -> ExactlyOnceView<V, A::V> {
        self.snapshot@
    }

    /// What a restart would find.
    pub open spec fn durable(&self) -> Option<ExactlyOnceView<V, A::V>> {
        self.storage().persisted()
    }

    /// Where the state is made durable.
    pub closed spec fn storage(&self) -> D {
        self.disk
    }

    /// What turns checkpoints into bytes.
    pub closed spec fn coder(&self) -> C {
        self.codec
    }

    /// What applies values.
    pub closed spec fn target(&self) -> F {
        self.applier
    }

    /// Whether only the state, its storage and what applies values may have
    /// changed.
    pub open spec fn same_rules(&self, other: &Self) -> bool {
        &&& self.limit() == other.limit()
        &&& self.frame_name() == other.frame_name()
        &&& self.coder() == other.coder()
    }

    /// The most bytes that a checkpoint may take.
    pub closed spec fn limit(&self) -> usize {
        self.frame.limit()
    }

    /// What checkpoints are called in refusals.
    pub closed spec fn frame_name(&self) -> Seq<char> {
        self.frame.name()
    }

    /// Starts with what the last run made durable, or with the initial state.
    pub fn open(
        disk: D,
        codec: C,
        max_snapshot_bytes: usize,
        initial_application: A,
        applier: F,
    ) -> (executor: Result<Self>)
        ensures
            max_snapshot_bytes == 0 ==> (executor matches Err(refusal) && refusal@
                == ErrorView::StorageError(
                "maximum deduplication snapshot size must be non-zero"@,
            )),
            max_snapshot_bytes != 0 && executor is Err ==> exists|after: D| #[trigger]
                disk.loads(Err(executor->Err_0@), &after),
            executor matches Ok(executor) ==> {
                &&& max_snapshot_bytes != 0
                &&& disk.loads(Ok(disk.persisted()), &executor.storage())
                &&& executor.durable() == disk.persisted()
                &&& executor.coder() == codec
                &&& executor.target() == applier
                &&& executor.limit() == max_snapshot_bytes
                &&& executor.frame_name() == "exactly-once checkpoint"@
                &&& executor.state() == match disk.persisted() {
                    Some(state) => state,
                    None => ExactlyOnceView {
                        checkpointed_through: SlotIndex(0),
                        seen: Set::<V>::empty(),
                        application: initial_application@,
                    },
                }
            },
    {
        let frame: DedupeFrame = match DedupeFrame::new(
            max_snapshot_bytes,
            "exactly-once checkpoint",
        ) {
            Ok(frame) => frame,
            Err(refusal) => return Err(refusal),
        };
        let ghost unread = disk;
        let mut disk: D = disk;
        let loaded: Result<Option<ExactlyOnceSnapshot<V, A>>> = disk.load();
        assert(unread.loads(durable::load_outcome(loaded), &disk));
        let snapshot: ExactlyOnceSnapshot<V, A> = match loaded {
            Ok(Some(snapshot)) => snapshot,
            Ok(None) => ExactlyOnceSnapshot {
                checkpointed_through: SlotIndex::genesis(),
                seen: OrdSet::new(),
                application: initial_application,
            },
            Err(refusal) => return Err(refusal),
        };
        Ok(FileExactlyOnceExecutor { disk, codec, frame, snapshot, applier })
    }

    pub fn application(&self) -> (application: &A)
        ensures
            application@ == self.state().application,
    {
        &self.snapshot.application
    }

    pub fn seen(&self) -> (seen: &OrdSet<V>)
        ensures
            seen@ == self.state().seen,
    {
        &self.snapshot.seen
    }

    /// Takes over the state that a checkpoint holds, once it is durable.
    pub fn take_over(&mut self, through: SlotIndex, snapshot: ExactlyOnceSnapshot<V, A>) -> (taken:
        Result<()>)
        ensures
            taken_over(old(self), through, snapshot@, error::outcome(taken), final(self)),
    {
        if !snapshot.checkpointed_through.same(&through) {
            return Err(QuePaxaError::ConfigurationMismatch);
        }
        match self.disk.save(&snapshot) {
            Ok(()) => {},
            Err(refusal) => return Err(refusal),
        }
        self.snapshot = snapshot;
        Ok(())
    }
}

impl<
    V: Key,
    A: Duplicate,
    F: StateApplier<V, A>,
    D: SnapshotStore<ExactlyOnceSnapshot<V, A>>,
    C: SnapshotCodec<ExactlyOnceSnapshot<V, A>>,
> ExactlyOnceExecutor<V> for FileExactlyOnceExecutor<V, A, F, D, C> {
    open spec fn applied(&self) -> Set<V> {
        self.state().seen
    }

    /// The value is applied to a copy, and the copy made durable, before the
    /// executor answers from it.
    open spec fn executes_once(
        &self,
        slot: SlotIndex,
        value_id: V,
        fresh: std::result::Result<bool, ErrorView>,
        after: &Self,
    ) -> bool {
        ran_once(self, slot, value_id, fresh, after)
    }

    /// The floor is made durable before the checkpoint is handed out.
    open spec fn exports(
        &self,
        through: SlotIndex,
        checkpoint: std::result::Result<Seq<u8>, ErrorView>,
        after: &Self,
    ) -> bool {
        let next = ExactlyOnceView { checkpointed_through: through, ..self.state() };
        &&& after.same_rules(self)
        &&& after.target() == self.target()
        &&& {
            ||| {
                &&& after.state() == self.state()
                &&& checkpoint matches Err(refusal) && self.storage().saves(
                    next,
                    Err(refusal),
                    &after.storage(),
                )
            }
            ||| {
                &&& after.state() == next
                &&& after.durable() == Some(next)
                &&& self.storage().saves(next, Ok(()), &after.storage())
                &&& exists|payload: std::result::Result<Seq<u8>, ErrorView>| #[trigger]
                    self.coder().encodes(next, payload) && checkpoint == match payload {
                        Ok(payload) => framed(payload, self.limit()),
                        Err(refusal) => Err(refusal),
                    }
            }
        }
    }

    /// A checkpoint is taken over for exactly the given floor.
    open spec fn imports(
        &self,
        through: SlotIndex,
        checkpoint: Seq<u8>,
        imported: std::result::Result<(), ErrorView>,
        after: &Self,
    ) -> bool {
        imported_into(self, through, checkpoint, imported, after)
    }

    /// Applies to a copy, makes the copy durable, then answers from it.
    fn execute_once(&mut self, slot: SlotIndex, value_id: &V) -> (fresh: Result<bool>) {
        if self.snapshot.seen.contains(value_id) {
            assert(self.snapshot.seen@.insert(*value_id) =~= self.snapshot.seen@);
            return Ok(false);
        }
        let mut next: ExactlyOnceSnapshot<V, A> = self.snapshot.duplicate_value();
        let applied: Result<()> = self.applier.apply(&mut next.application, slot, value_id);
        let ghost outcome: std::result::Result<(), ErrorView> = error::outcome(applied);
        let ghost application: A = next.application;
        match applied {
            Ok(()) => {},
            Err(refusal) => {
                assert(old(self).target().applies(
                    old(self).state().application,
                    slot,
                    *value_id,
                    outcome,
                    application@,
                    &self.target(),
                ));
                return Err(refusal);
            },
        }
        let _ = next.seen.insert(value_id.duplicate());
        assert(next@ =~= (ExactlyOnceView {
            seen: old(self).state().seen.insert(*value_id),
            application: next.application@,
            ..old(self).state()
        }));
        match self.disk.save(&next) {
            Ok(()) => {},
            Err(refusal) => {
                assert(old(self).target().applies(
                    old(self).state().application,
                    slot,
                    *value_id,
                    outcome,
                    application@,
                    &self.target(),
                ));
                assert(ran_once(old(self), slot, *value_id, Err(refusal@), self));
                return Err(refusal);
            },
        }
        self.snapshot = next;
        assert(old(self).target().applies(
            old(self).state().application,
            slot,
            *value_id,
            outcome,
            application@,
            &self.target(),
        ));
        assert(ran_once(old(self), slot, *value_id, Ok(true), self));
        Ok(true)
    }

    /// Makes the floor durable before it hands the checkpoint out.
    fn export_checkpoint(&mut self, through: SlotIndex) -> (checkpoint: Result<Vec<u8>>) {
        let mut next: ExactlyOnceSnapshot<V, A> = self.snapshot.duplicate_value();
        next.checkpointed_through = through;
        assert(next@ =~= (ExactlyOnceView {
            checkpointed_through: through,
            ..old(self).state()
        }));
        match self.disk.save(&next) {
            Ok(()) => {},
            Err(refusal) => return Err(refusal),
        }
        self.snapshot = next;
        let payload: Result<Vec<u8>> = self.codec.encode(&self.snapshot);
        assert(old(self).coder().encodes(self.state(), error::outcome(payload)));
        match payload {
            Ok(payload) => self.frame.encode(payload.as_slice()),
            Err(refusal) => Err(refusal),
        }
    }

    /// Takes over a checkpoint for exactly the given floor.
    fn import_checkpoint(&mut self, through: SlotIndex, checkpoint: &[u8]) -> (imported: Result<()>) {
        let payload: Vec<u8> = match self.frame.decode(checkpoint) {
            Ok(payload) => payload,
            Err(refusal) => return Err(refusal),
        };
        let decoded: Result<ExactlyOnceSnapshot<V, A>> = self.codec.decode(payload.as_slice());
        let ghost held: Result<ExactlyOnceSnapshot<V, A>> = decoded;
        assert(old(self).coder().decodes(
            unframed(old(self).frame_name(), checkpoint@, old(self).limit())->Ok_0,
            error::outcome(held),
        ));
        let snapshot: ExactlyOnceSnapshot<V, A> = match decoded {
            Ok(snapshot) => snapshot,
            Err(refusal) => {
                assert(imported_into(
                    old(self),
                    through,
                    checkpoint@,
                    Err(refusal@),
                    self,
                ));
                return Err(refusal);
            },
        };
        let taken: Result<()> = self.take_over(through, snapshot);
        assert(imported_into(old(self), through, checkpoint@, error::outcome(taken), self));
        taken
    }
}

/// A value that was executed with success is not applied again, whichever slot
/// brings it.
pub proof fn values_are_applied_once<
    V: Key,
    A: Duplicate,
    F: StateApplier<V, A>,
    D: SnapshotStore<ExactlyOnceSnapshot<V, A>>,
    C: SnapshotCodec<ExactlyOnceSnapshot<V, A>>,
>(
    before: FileExactlyOnceExecutor<V, A, F, D, C>,
    first: SlotIndex,
    value_id: V,
    fresh: bool,
    after: FileExactlyOnceExecutor<V, A, F, D, C>,
    second: SlotIndex,
    outcome: std::result::Result<bool, ErrorView>,
    end: FileExactlyOnceExecutor<V, A, F, D, C>,
)
    requires
        ran_once(&before, first, value_id, Ok(fresh), &after),
        ran_once(&after, second, value_id, outcome, &end),
    ensures
        end == after,
        outcome == Ok::<bool, ErrorView>(false),
{
    assert(after.state().seen.contains(value_id));
}

/// A restart finds a value that was applied among those that were.
pub proof fn applied_values_survive_restarts<
    V: Key,
    A: Duplicate,
    F: StateApplier<V, A>,
    D: SnapshotStore<ExactlyOnceSnapshot<V, A>>,
    C: SnapshotCodec<ExactlyOnceSnapshot<V, A>>,
>(
    before: FileExactlyOnceExecutor<V, A, F, D, C>,
    slot: SlotIndex,
    value_id: V,
    after: FileExactlyOnceExecutor<V, A, F, D, C>,
)
    requires
        ran_once(&before, slot, value_id, Ok(true), &after),
    ensures
        after.durable() == Some(after.state()),
        after.state().seen.contains(value_id),
{
}

/// What a repeated request is answered: the decision of the first, if any.
pub open spec fn repeated<V>(outcome: OutcomeView<V>) -> OutcomeView<V> {
    OutcomeView::Duplicate(
        match outcome {
            OutcomeView::Committed(decision) => Some(decision),
            OutcomeView::Duplicate(decision) => decision,
            OutcomeView::Accepted => None::<DecisionView<V>>,
        },
    )
}

/// Answers same-node retries from a submission journal.
pub struct DeduplicatingSubmissionHandler<V, J> {
    journal: J,
    marker: PhantomData<V>,
}

impl<V: Key, J: SubmissionJournal<V>> DeduplicatingSubmissionHandler<V, J> {
    /// The journal behind the handler.
    pub closed spec fn remembered(&self) -> J {
        self.journal
    }

    pub fn new(journal: J) -> (handler: Self)
        ensures
            handler.remembered() == journal,
    {
        DeduplicatingSubmissionHandler { journal, marker: PhantomData }
    }

    /// What to answer at once: a request that was answered before is not
    /// submitted again.
    pub fn begin(&self, submission: &Submission<V>) -> (answer: Result<
        Option<SubmissionOutcome<V>>,
    >)
        ensures
            self.remembered().reliable() ==> answer is Ok,
            answer matches Err(refusal) ==> self.remembered().finds(
                SubmissionKey {
                    client_id: submission@.client_id,
                    request_id: submission@.request_id,
                },
                Err(refusal@),
            ),
            answer matches Ok(answer) ==> ({
                let key = SubmissionKey {
                    client_id: submission@.client_id,
                    request_id: submission@.request_id,
                };
                match answer {
                    Some(outcome) => {
                        &&& self.remembered().outcomes().dom().contains(key)
                        &&& outcome@ == repeated(self.remembered().outcomes()[key])
                    },
                    None => !self.remembered().outcomes().dom().contains(key),
                }
            }),
    {
        match self.journal.get(submission.client_id, submission.request_id) {
            Err(refusal) => Err(refusal),
            Ok(None) => Ok(None),
            Ok(Some(SubmissionOutcome::Committed(decision))) => Ok(
                Some(SubmissionOutcome::Duplicate(Some(decision))),
            ),
            Ok(Some(SubmissionOutcome::Duplicate(decision))) => Ok(
                Some(SubmissionOutcome::Duplicate(decision)),
            ),
            Ok(Some(SubmissionOutcome::Accepted)) => Ok(Some(SubmissionOutcome::Duplicate(None))),
        }
    }

    /// Remembers what a request was answered, then hands the answer on.
    pub fn finish(
        &mut self,
        client_id: [u8; 16],
        request_id: u64,
        outcome: SubmissionOutcome<V>,
    ) -> (answer: Result<SubmissionOutcome<V>>)
        ensures
            final(self).remembered().reliable() == old(self).remembered().reliable(),
            old(self).remembered().journals(
                SubmissionKey { client_id, request_id },
                outcome@,
                match answer {
                    Ok(_) => Ok(()),
                    Err(refusal) => Err(refusal@),
                },
                &final(self).remembered(),
            ),
            match journaled(
                old(self).remembered().outcomes(),
                SubmissionKey { client_id, request_id },
                outcome@,
            ) {
                Ok(next) => {
                    &&& old(self).remembered().reliable() ==> answer is Ok
                    &&& match answer {
                        Ok(answer) => answer@ == outcome@ && final(self).remembered().outcomes()
                            == next,
                        Err(_) => final(self).remembered().outcomes() == old(
                            self,
                        ).remembered().outcomes(),
                    }
                },
                Err(refusal) => {
                    &&& final(self).remembered().outcomes() == old(self).remembered().outcomes()
                    &&& answer matches Err(given) && given@ == refusal
                },
            },
    {
        match self.journal.put(client_id, request_id, outcome.duplicate_value()) {
            Ok(()) => Ok(outcome),
            Err(refusal) => Err(refusal),
        }
    }
}

/// A request that was answered is answered with the same decision again.
pub proof fn retries_get_the_first_decision<V>(
    outcomes: Map<SubmissionKey, OutcomeView<V>>,
    key: SubmissionKey,
    decision: DecisionView<V>,
)
    requires
        journaled(outcomes, key, OutcomeView::Committed(decision)) is Ok,
    ensures
        ({
            let next = journaled(outcomes, key, OutcomeView::Committed(decision))->Ok_0;
            &&& next.dom().contains(key)
            &&& repeated(next[key]) == OutcomeView::Duplicate(Some(decision))
        }),
{
}

} // verus!
