//! A recorder whose acknowledged changes are durable.

use crate::cluster::{MembershipChange, RecordReply, RecordReplyView};
use crate::error;
use crate::error::{ErrorView, Result};
use crate::key::{Duplicate, Key};
use crate::recorder;
use crate::recorder_laws;
use crate::recorder::{
    RecorderConfig, RecorderConfigView, RecorderCore, RecorderSnapshot, RecorderState, RecorderView,
};
use crate::store::{AllowAllAvailability, ValueAvailability};
use crate::types;
use crate::types::{
    duplicate_option, Decision, RecordRequest, RecordRequestView, ReplicaId, SlotIndex, Step,
};
use vstd::prelude::*;

verus! {

/// Persists recorder state before a protocol reply is acknowledged.
pub trait RecorderStateStore<V> {
    /// The state that a restart would find.
    open spec fn persisted(&self) -> Option<RecorderState<V>> {
        None
    }

    /// Whether reading may go like this: from here, with this result, to
    /// `after`. A store that does not say leaves it open whether it can be read.
    open spec fn loads(
        &self,
        loaded: std::result::Result<Option<RecorderState<V>>, ErrorView>,
        after: &Self,
    ) -> bool {
        true
    }

    /// Whether saving may go like this.
    open spec fn saves(
        &self,
        state: RecorderState<V>,
        saved: std::result::Result<(), ErrorView>,
        after: &Self,
    ) -> bool {
        true
    }

    /// Reads the state that was saved last.
    fn load(&mut self) -> (loaded: Result<Option<RecorderSnapshot<V>>>)
        ensures
            final(self).persisted() == old(self).persisted(),
            loaded matches Ok(found) ==> types::option_view(found) == old(self).persisted(),
            old(self).loads(load_outcome(loaded), final(self)),
    ;

    /// Makes state durable. A failed save may have taken effect or not.
    fn save(&mut self, snapshot: &RecorderSnapshot<V>) -> (saved: Result<()>)
        ensures
            saved is Ok ==> final(self).persisted() == Some(snapshot@),
            old(self).saves(snapshot@, error::outcome(saved), final(self)),
    ;
}

/// What the result of reading stands for.
pub open spec fn load_outcome<T: View>(loaded: Result<Option<T>>) -> std::result::Result<
    Option<T::V>,
    ErrorView,
> {
    match loaded {
        Ok(found) => Ok(types::option_view(found)),
        Err(refusal) => Err(refusal@),
    }
}

/// Codec used by file-backed recorder stores. Applications choose the value
/// encoding.
pub trait RecorderCodec<V> {
    /// Whether state may be encoded like this. A codec that does not say leaves
    /// every encoding open.
    open spec fn encodes(
        &self,
        state: RecorderState<V>,
        bytes: std::result::Result<Seq<u8>, ErrorView>,
    ) -> bool {
        true
    }

    /// Whether bytes may be decoded like this.
    open spec fn decodes(
        &self,
        bytes: Seq<u8>,
        state: std::result::Result<RecorderState<V>, ErrorView>,
    ) -> bool {
        true
    }

    fn encode(&self, snapshot: &RecorderSnapshot<V>) -> (bytes: Result<Vec<u8>>)
        ensures
            self.encodes(snapshot@, error::outcome(bytes)),
    ;

    fn decode(&self, bytes: &[u8]) -> (snapshot: Result<RecorderSnapshot<V>>)
        ensures
            self.decodes(bytes@, error::outcome(snapshot)),
    ;
}

/// Recorder state kept in memory.
#[derive(Debug)]
pub struct InMemoryRecorderStore<V> {
    snapshot: Option<RecorderSnapshot<V>>,
}

impl<V> Default for InMemoryRecorderStore<V> {
    fn default() -> (store: Self)
        ensures
            store.saved() is None,
    {
        InMemoryRecorderStore { snapshot: None }
    }
}

impl<V> InMemoryRecorderStore<V> {
    /// The state that was saved last.
    pub closed spec fn saved(&self) -> Option<RecorderState<V>> {
        types::option_view(self.snapshot)
    }

    pub fn snapshot(&self) -> (found: Option<&RecorderSnapshot<V>>)
        ensures
            match found {
                Some(snapshot) => self.saved() == Some(snapshot@),
                None => self.saved() is None,
            },
    {
        match &self.snapshot {
            Some(snapshot) => Some(snapshot),
            None => None,
        }
    }
}

impl<V: Key> RecorderStateStore<V> for InMemoryRecorderStore<V> {
    open spec fn persisted(&self) -> Option<RecorderState<V>> {
        self.saved()
    }

    open spec fn loads(
        &self,
        loaded: std::result::Result<Option<RecorderState<V>>, ErrorView>,
        after: &Self,
    ) -> bool {
        *after == *self && loaded is Ok
    }

    open spec fn saves(
        &self,
        state: RecorderState<V>,
        saved: std::result::Result<(), ErrorView>,
        after: &Self,
    ) -> bool {
        saved is Ok
    }

    fn load(&mut self) -> (loaded: Result<Option<RecorderSnapshot<V>>>) {
        Ok(duplicate_option(&self.snapshot))
    }

    fn save(&mut self, snapshot: &RecorderSnapshot<V>) -> (saved: Result<()>) {
        self.snapshot = Some(snapshot.duplicate_value());
        Ok(())
    }
}

/// Recorder wrapper that makes every acknowledged mutation durable.
///
/// A failed save rolls the in-memory core back to its last durable snapshot,
/// so callers may retry without exposing state that was never persisted.
pub struct DurableRecorderCore<V, S, A = AllowAllAvailability> {
    core: RecorderCore<V, A>,
    store: S,
}

/// What a durable operation made of the outcome of the same operation on the
/// core. A refusal changes nothing and is passed on. A success is acknowledged
/// only with the new state persisted; where the store cannot save it, the
/// store's refusal is passed on and the core is as it was.
pub open spec fn durably<V, T, S: RecorderStateStore<V>>(
    before: RecorderView<V>,
    applied: (RecorderView<V>, std::result::Result<T, ErrorView>),
    store_before: S,
    after: RecorderView<V>,
    store_after: S,
    result: std::result::Result<T, ErrorView>,
) -> bool {
    match applied.1 {
        Err(refusal) => after == before && store_after == store_before && result == Err::<
            T,
            ErrorView,
        >(refusal),
        Ok(value) => match result {
            Ok(acknowledged) => {
                &&& acknowledged == value
                &&& after == applied.0
                &&& store_after.persisted() == Some(after.state)
                &&& store_before.saves(after.state, Ok(()), &store_after)
            },
            Err(refusal) => {
                &&& after == before
                &&& store_before.saves(applied.0.state, Err(refusal), &store_after)
            },
        },
    }
}

/// The recorder that resumes stored state, or starts anew without any.
pub open spec fn resumed<V>(
    config: RecorderConfigView,
    stored: Option<RecorderState<V>>,
) -> std::result::Result<RecorderView<V>, ErrorView> {
    match stored {
        Some(state) => {
            let target = RecorderView { id: config.id, limits: config.limits, state };
            match target.restore_error(config.cluster) {
                Some(refusal) => Err(refusal),
                None => Ok(target),
            }
        },
        None => Ok(RecorderView::initial(config)),
    }
}

/// Whether a durable recorder served a request like this: as the recorder behind
/// it does, with what changed persisted before it is acknowledged.
pub open spec fn served_durably<V: Key, S: RecorderStateStore<V>, A: ValueAvailability<V>>(
    before: &DurableRecorderCore<V, S, A>,
    request: RecordRequestView<V>,
    after: &DurableRecorderCore<V, S, A>,
    reply: std::result::Result<RecordReplyView<V>, ErrorView>,
) -> bool {
    exists|middle: RecorderView<V>, given: std::result::Result<RecordReplyView<V>, ErrorView>|
        {
            &&& #[trigger] recorder::served(
                before.recorder(),
                before.guard(),
                request,
                middle,
                after.guard(),
                given,
            )
            &&& durably(
                before.recorder(),
                (middle, given),
                before.storage(),
                after.recorder(),
                after.storage(),
                reply,
            )
        }
}

/// What a durable recorder acknowledged survives a restart: the state that the
/// store then holds resumes exactly the recorder that gave the reply.
pub proof fn acknowledged_requests_survive_restarts<
    V: Key,
    S: RecorderStateStore<V>,
    A: ValueAvailability<V>,
>(
    before: &DurableRecorderCore<V, S, A>,
    request: RecordRequestView<V>,
    after: &DurableRecorderCore<V, S, A>,
    reply: RecordReplyView<V>,
    config: RecorderConfigView,
)
    requires
        recorder_laws::resumable(before.recorder()),
        served_durably(before, request, after, Ok(reply)),
        config.id == after.recorder().id,
        config.limits == after.recorder().limits,
        config.cluster == after.recorder().state.cluster,
    ensures
        recorder_laws::resumable(after.recorder()),
        resumed(config, after.storage().persisted()) == Ok::<RecorderView<V>, ErrorView>(
            after.recorder(),
        ),
{
    let available = choose|available: std::result::Result<(), ErrorView>| #[trigger]
        before.guard().provides(request.proposal.value_ids, available, &after.guard()) && (
            after.recorder(),
            Ok::<RecordReplyView<V>, ErrorView>(reply),
        ) == before.recorder().record(request, available);
    recorder_laws::record_keeps_resumable(before.recorder(), request, available);
    recorder_laws::snapshot_restores_the_recorder(after.recorder(), config);
}

/// A request that a durable recorder refused leaves the recorder as it was.
pub proof fn refused_requests_leave_no_trace<
    V: Key,
    S: RecorderStateStore<V>,
    A: ValueAvailability<V>,
>(
    before: &DurableRecorderCore<V, S, A>,
    request: RecordRequestView<V>,
    after: &DurableRecorderCore<V, S, A>,
    refusal: ErrorView,
)
    requires
        served_durably(before, request, after, Err(refusal)),
    ensures
        after.recorder() == before.recorder(),
{
}

impl<V: Key, S: RecorderStateStore<V>, A: ValueAvailability<V>> DurableRecorderCore<V, S, A> {
    /// The recorder behind the store.
    pub closed spec fn recorder(&self) -> RecorderView<V> {
        self.core@
    }

    /// The guard that is asked for values.
    pub closed spec fn guard(&self) -> A {
        self.core.guard()
    }

    /// The store behind the recorder.
    pub closed spec fn storage(&self) -> S {
        self.store
    }

    /// A recorder that resumes what the store holds, or starts anew.
    pub fn new(config: RecorderConfig, availability: A, store: S) -> (created: Result<Self>)
        ensures
            match created {
                Ok(durable) => {
                    &&& store.loads(Ok(store.persisted()), &durable.storage())
                    &&& durable.storage().persisted() == store.persisted()
                    &&& durable.guard() == availability
                    &&& resumed::<V>(config@, store.persisted()) == Ok::<
                        RecorderView<V>,
                        ErrorView,
                    >(durable.recorder())
                },
                Err(refusal) => {
                    ||| exists|after: S| #[trigger] store.loads(Err(refusal@), &after)
                    ||| resumed::<V>(config@, store.persisted()) == Err::<
                        RecorderView<V>,
                        ErrorView,
                    >(refusal@)
                },
            },
    {
        let ghost unread = store;
        let mut store: S = store;
        let answer: Result<Option<RecorderSnapshot<V>>> = store.load();
        assert(unread.loads(load_outcome(answer), &store));
        let loaded: Option<RecorderSnapshot<V>> = match answer {
            Ok(loaded) => loaded,
            Err(refusal) => return Err(refusal),
        };
        match Self::resume(config, availability, loaded) {
            Ok(core) => Ok(DurableRecorderCore { core, store }),
            Err(refusal) => Err(refusal),
        }
    }

    /// A recorder that resumes a loaded snapshot, or starts anew without one.
    pub fn resume(
        config: RecorderConfig,
        availability: A,
        loaded: Option<RecorderSnapshot<V>>,
    ) -> (recorder: Result<RecorderCore<V, A>>)
        ensures
            error::outcome(recorder) == resumed(config@, types::option_view(loaded)),
            recorder matches Ok(started) ==> started.guard() == availability,
    {
        match loaded {
            Some(snapshot) => RecorderCore::restore(config, availability, snapshot),
            None => Ok(RecorderCore::new(config, availability)),
        }
    }

    pub fn id(&self) -> (id: ReplicaId)
        ensures
            id == self.recorder().id,
    {
        self.core.id()
    }

    pub fn inner(&self) -> (inner: &RecorderCore<V, A>)
        ensures
            inner@ == self.recorder(),
    {
        &self.core
    }

    pub fn state_store(&self) -> (store: &S)
        ensures
            *store == self.storage(),
    {
        &self.store
    }

    /// Saves a successful change, or takes back one that failed or could not
    /// be saved.
    fn settle<T>(&mut self, before: RecorderSnapshot<V>, applied: Result<T>) -> (settled: Result<T>)
        ensures
            final(self).recorder().id == old(self).recorder().id,
            final(self).recorder().limits == old(self).recorder().limits,
            final(self).guard() == old(self).guard(),
            match applied {
                Err(refusal) => {
                    &&& settled == applied
                    &&& final(self).recorder().state == before@
                    &&& final(self).storage() == old(self).storage()
                },
                Ok(value) => match settled {
                    Ok(acknowledged) => {
                        &&& acknowledged == value
                        &&& final(self).recorder() == old(self).recorder()
                        &&& final(self).storage().persisted() == Some(
                            final(self).recorder().state,
                        )
                        &&& old(self).storage().saves(
                            final(self).recorder().state,
                            Ok(()),
                            &final(self).storage(),
                        )
                    },
                    Err(refusal) => {
                        &&& final(self).recorder().state == before@
                        &&& old(self).storage().saves(
                            old(self).recorder().state,
                            Err(refusal@),
                            &final(self).storage(),
                        )
                    },
                },
            },
    {
        match applied {
            Err(refusal) => {
                self.core.roll_back(before);
                Err(refusal)
            },
            Ok(value) => {
                let after: RecorderSnapshot<V> = self.core.snapshot();
                match self.store.save(&after) {
                    Ok(()) => Ok(value),
                    Err(refusal) => {
                        self.core.roll_back(before);
                        Err(refusal)
                    },
                }
            },
        }
    }

    /// Serves a request and persists what it changed before acknowledging it.
    pub fn record(&mut self, request: RecordRequest<V>) -> (result: Result<RecordReply<V>>)
        ensures
            served_durably(
                old(self),
                request@,
                final(self),
                error::outcome(result),
            ),
    {
        let ghost start = self.recorder();
        let before: RecorderSnapshot<V> = self.core.snapshot();
        let applied: Result<RecordReply<V>> = self.core.record(request);
        let ghost middle = self.recorder();
        let ghost view = error::outcome(applied);
        let ghost guard = self.guard();
        let result = self.settle(before, applied);
        proof {
            assert(recorder::served(start, old(self).guard(), request@, middle, guard, view));
            lemma_serving_keeps_identity(
                start,
                old(self).guard(),
                request@,
                middle,
                guard,
                view,
            );
            assert(durably(
                start,
                (middle, view),
                old(self).storage(),
                self.recorder(),
                self.storage(),
                error::outcome(result),
            ));
        }
        result
    }

    /// Serves a request from an authenticated sender and persists what it
    /// changed before acknowledging it.
    pub fn record_from(
        &mut self,
        authenticated_sender: ReplicaId,
        request: RecordRequest<V>,
    ) -> (result: Result<RecordReply<V>>)
        ensures
            if authenticated_sender != request.sender {
                &&& *final(self) == *old(self)
                &&& error::outcome(result) == Err::<RecordReplyView<V>, ErrorView>(
                    ErrorView::InvalidSender(request.sender),
                )
            } else {
                served_durably(old(self), request@, final(self), error::outcome(result))
            },
    {
        if authenticated_sender != request.sender {
            return Err(crate::error::QuePaxaError::InvalidSender(request.sender));
        }
        self.record(request)
    }

    /// Retains a decision durably.
    pub fn inform_decision(&mut self, decision: Decision<V>) -> (result: Result<()>)
        ensures
            final(self).guard() == old(self).guard(),
            durably(
                old(self).recorder(),
                old(self).recorder().inform_decision(decision@),
                old(self).storage(),
                final(self).recorder(),
                final(self).storage(),
                error::outcome(result),
            ),
    {
        let before: RecorderSnapshot<V> = self.core.snapshot();
        let applied: Result<()> = self.core.inform_decision(decision);
        self.settle(before, applied)
    }

    /// Retains decisions durably: all of them or none.
    pub fn inform_decisions(&mut self, decisions: &[Decision<V>]) -> (result: Result<()>)
        ensures
            final(self).guard() == old(self).guard(),
            durably(
                old(self).recorder(),
                old(self).recorder().inform_all(types::list_view(decisions@)),
                old(self).storage(),
                final(self).recorder(),
                final(self).storage(),
                error::outcome(result),
            ),
    {
        proof {
            lemma_inform_keeps_identity(self.recorder(), types::list_view(decisions@));
        }
        let before: RecorderSnapshot<V> = self.core.snapshot();
        let applied: Result<()> = self.core.inform_decisions(decisions);
        self.settle(before, applied)
    }

    /// Drops finalized state and raises the pruned floor durably.
    pub fn prune_through(&mut self, slot: SlotIndex) -> (result: Result<()>)
        ensures
            final(self).guard() == old(self).guard(),
            durably(
                old(self).recorder(),
                (
                    old(self).recorder().prune_through(slot),
                    Ok::<(), ErrorView>(()),
                ),
                old(self).storage(),
                final(self).recorder(),
                final(self).storage(),
                error::outcome(result),
            ),
    {
        let before: RecorderSnapshot<V> = self.core.snapshot();
        self.core.prune_through(slot);
        self.settle(before, Ok(()))
    }

    /// Raises the pruned floor to a transferred checkpoint durably.
    pub fn install_state_transfer_floor(&mut self, slot: SlotIndex) -> (result: Result<()>)
        ensures
            final(self).guard() == old(self).guard(),
            durably(
                old(self).recorder(),
                (
                    old(self).recorder().prune_through(slot),
                    Ok::<(), ErrorView>(()),
                ),
                old(self).storage(),
                final(self).recorder(),
                final(self).storage(),
                error::outcome(result),
            ),
    {
        let before: RecorderSnapshot<V> = self.core.snapshot();
        self.core.install_state_transfer_floor(slot);
        self.settle(before, Ok(()))
    }

    /// Installs the next membership durably.
    pub fn install_membership(&mut self, change: MembershipChange<V>) -> (result: Result<()>)
        ensures
            final(self).guard() == old(self).guard(),
            durably(
                old(self).recorder(),
                old(self).recorder().install_membership(change@),
                old(self).storage(),
                final(self).recorder(),
                final(self).storage(),
                error::outcome(result),
            ),
    {
        let before: RecorderSnapshot<V> = self.core.snapshot();
        let applied: Result<()> = self.core.install_membership(change);
        self.settle(before, applied)
    }

    /// The slot's current logical step.
    pub fn status(&self, slot: SlotIndex) -> (step: Option<Step>)
        ensures
            step == if self.recorder().state.slots.dom().contains(slot) {
                Some(self.recorder().state.slots[slot].step)
            } else {
                None
            },
    {
        self.core.status(slot)
    }
}

/// Retaining decisions changes neither identity nor bounds.
proof fn lemma_inform_keeps_identity<V>(
    recorder: RecorderView<V>,
    decisions: Seq<crate::types::DecisionView<V>>,
)
    ensures
        recorder.inform_all(decisions).0.id == recorder.id,
        recorder.inform_all(decisions).0.limits == recorder.limits,
    decreases decisions.len(),
{
    if decisions.len() > 0 {
        lemma_inform_keeps_identity(recorder, decisions.drop_last());
    }
}

/// Serving a request changes neither identity nor bounds.
proof fn lemma_serving_keeps_identity<V, A: ValueAvailability<V>>(
    before: RecorderView<V>,
    guard: A,
    request: RecordRequestView<V>,
    after: RecorderView<V>,
    guard_after: A,
    reply: std::result::Result<RecordReplyView<V>, ErrorView>,
)
    requires
        recorder::served(before, guard, request, after, guard_after, reply),
    ensures
        after.id == before.id,
        after.limits == before.limits,
{
    if before.admission_error(request) is None {
        let available = choose|available: std::result::Result<(), ErrorView>| #[trigger]
            guard.provides(request.proposal.value_ids, available, &guard_after) && (after, reply)
                == before.record(request, available);
        lemma_record_keeps_identity(before, request, available);
    }
}

proof fn lemma_record_keeps_identity<V>(
    recorder: RecorderView<V>,
    request: RecordRequestView<V>,
    available: std::result::Result<(), ErrorView>,
)
    ensures
        recorder.record(request, available).0.id == recorder.id,
        recorder.record(request, available).0.limits == recorder.limits,
{
    lemma_inform_keeps_identity(recorder, request.known_decisions);
}

} // verus!
