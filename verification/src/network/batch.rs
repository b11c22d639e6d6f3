//! Command batches: the payloads that value IDs stand for, published to and
//! fetched from nodes beside the consensus path.

use crate::bytes::{copy_bytes, same_bytes};
use crate::collections::OrdMap;
use crate::durable;
use crate::error;
use crate::error::{ErrorView, QuePaxaError, Result};
use crate::key::{Duplicate, Key};
use crate::network::durability::SnapshotStore;
use crate::network::envelope;
use crate::network::envelope::{open, seal, EnvelopeFault, FaultView};
use crate::runtime_state::StateTransferSnapshot;
use crate::text;
use crate::text::{joined, numbered, with_number};
use crate::types;
use crate::types::all_different;
use std::marker::PhantomData;
use vstd::prelude::*;

verus! {

/// The version of stored batch snapshots.
pub const BATCH_STORAGE_VERSION: u16 = 2;

/// One disseminated command batch. `value_id` is the compact value agreed by
/// consensus; `payload` is retained outside the consensus critical path.
#[derive(Debug, PartialEq, Eq)]
pub struct Batch<V> {
    pub value_id: V,
    pub payload: Vec<u8>,
}

/// A batch with its payload as a sequence of bytes.
#[verifier::ext_equal]
pub struct BatchView<V> {
    pub value_id: V,
    pub payload: Seq<u8>,
}

impl<V> View for Batch<V> {
    type V = BatchView<V>;

    open spec fn view(&self) -> BatchView<V> {
        BatchView { value_id: self.value_id, payload: self.payload@ }
    }
}

impl<V: Key> Duplicate for Batch<V> {
    fn duplicate_value(&self) -> (copy: Self) {
        Batch {
            value_id: self.value_id.duplicate(),
            payload: copy_bytes(self.payload.as_slice()),
        }
    }
}

impl<V: Key> Clone for Batch<V> {
    fn clone(&self) -> (copy: Self)
        ensures
            copy@ == self@,
    {
        self.duplicate_value()
    }
}

/// Verifies that a payload is the content named by its value ID. A typical
/// implementation compares `value_id` with a cryptographic digest of
/// `payload`, or verifies an application signature over both.
pub trait BatchVerifier<V> {
    /// Whether the verifier may answer like this. One that does not say leaves
    /// every answer open.
    open spec fn answers(
        &self,
        value_id: V,
        payload: Seq<u8>,
        verdict: std::result::Result<(), ErrorView>,
    ) -> bool {
        true
    }

    fn verify(&self, value_id: &V, payload: &[u8]) -> (verdict: Result<()>)
        ensures
            self.answers(*value_id, payload@, error::outcome(verdict)),
    ;
}

/// The refusal of a second payload under one ID.
pub open spec fn conflicting_payload() -> ErrorView {
    ErrorView::InvalidProposal("one batch ID was published with different payloads"@)
}

/// What is kept once a payload was offered under an ID.
pub open spec fn put_batch<V>(
    kept: Map<V, Seq<u8>>,
    value_id: V,
    payload: Seq<u8>,
) -> std::result::Result<Map<V, Seq<u8>>, ErrorView> {
    if !kept.dom().contains(value_id) {
        Ok(kept.insert(value_id, payload))
    } else if kept[value_id] == payload {
        Ok(kept)
    } else {
        Err(conflicting_payload())
    }
}

/// What is kept once batches were offered in order, up to the first refusal.
pub open spec fn put_all<V>(kept: Map<V, Seq<u8>>, batches: Seq<BatchView<V>>) -> (
    Map<V, Seq<u8>>,
    std::result::Result<(), ErrorView>,
)
    decreases batches.len(),
{
    if batches.len() == 0 {
        (kept, Ok(()))
    } else {
        let (before, result) = put_all(kept, batches.drop_last());
        if result is Err {
            (before, result)
        } else {
            match put_batch(before, batches.last().value_id, batches.last().payload) {
                Ok(next) => (next, Ok(())),
                Err(refusal) => (before, Err(refusal)),
            }
        }
    }
}

/// Storage contract used by the authenticated batch service.
pub trait BatchStore<V: Key> {
    /// The payloads by value ID.
    open spec fn batches(&self) -> Map<V, Seq<u8>> {
        Map::empty()
    }

    /// Whether the store fails for no reason of its own.
    open spec fn reliable(&self) -> bool {
        false
    }

    /// Whether offering a payload may end like this. A store that does not say
    /// leaves it open when it fails.
    open spec fn puts(
        &self,
        value_id: V,
        payload: Seq<u8>,
        put: std::result::Result<(), ErrorView>,
        after: &Self,
    ) -> bool {
        true
    }

    /// Whether looking a payload up may end like this.
    open spec fn gets(
        &self,
        value_id: V,
        found: std::result::Result<Option<Seq<u8>>, ErrorView>,
    ) -> bool {
        true
    }

    /// Whether removing payloads may end like this.
    open spec fn removes(
        &self,
        value_ids: Seq<V>,
        removed: std::result::Result<usize, ErrorView>,
        after: &Self,
    ) -> bool {
        true
    }

    fn put(&mut self, value_id: V, payload: Vec<u8>) -> (result: Result<()>)
        ensures
            old(self).puts(value_id, payload@, error::outcome(result), final(self)),
            final(self).reliable() == old(self).reliable(),
            match put_batch(old(self).batches(), value_id, payload@) {
                Ok(next) => {
                    &&& result is Ok ==> final(self).batches() == next
                    &&& result is Err ==> final(self).batches() == old(self).batches()
                    &&& old(self).reliable() ==> result is Ok
                },
                Err(refusal) => {
                    &&& final(self).batches() == old(self).batches()
                    &&& result matches Err(given) && given@ == refusal
                },
            },
    ;

    fn get(&self, value_id: &V) -> (found: Result<Option<Vec<u8>>>)
        ensures
            self.gets(*value_id, durable::load_outcome(found)),
            self.reliable() ==> found is Ok,
            found matches Ok(payload) ==> match payload {
                Some(payload) => self.batches().dom().contains(*value_id) && payload@
                    == self.batches()[*value_id],
                None => !self.batches().dom().contains(*value_id),
            },
    ;

    fn remove_many(&mut self, value_ids: &[V]) -> (removed: Result<usize>)
        ensures
            old(self).removes(value_ids@, count_outcome(removed), final(self)),
            final(self).reliable() == old(self).reliable(),
            old(self).reliable() ==> removed is Ok,
            match removed {
                Ok(count) => {
                    &&& final(self).batches() == old(self).batches().remove_keys(
                        value_ids@.to_set(),
                    )
                    &&& final(self).batches().len() + count == old(self).batches().len()
                },
                Err(_) => final(self).batches() == old(self).batches(),
            },
    ;
}

/// What a result that counts stands for.
pub open spec fn count_outcome(result: Result<usize>) -> std::result::Result<usize, ErrorView> {
    match result {
        Ok(count) => Ok(count),
        Err(refusal) => Err(refusal@),
    }
}

/// Offers one payload to a map.
fn put_in<V: Key>(values: &mut OrdMap<V, Vec<u8>>, value_id: V, payload: Vec<u8>) -> (result:
    Result<bool>)
    ensures
        match put_batch(old(values)@, value_id, payload@) {
            Ok(next) => {
                &&& final(values)@ == next
                &&& result matches Ok(added) && added == !old(values)@.dom().contains(value_id)
            },
            Err(refusal) => {
                &&& final(values)@ == old(values)@
                &&& result matches Err(given) && given@ == refusal
            },
        },
{
    match values.get(&value_id) {
        Some(existing) => {
            if !same_bytes(existing.as_slice(), payload.as_slice()) {
                return Err(
                    QuePaxaError::InvalidProposal(
                        "one batch ID was published with different payloads".to_owned(),
                    ),
                );
            }
            return Ok(false);
        },
        None => {},
    }
    values.insert(value_id, payload);
    Ok(true)
}

/// Removes the listed keys and counts those that were there.
fn remove_from<V: Key>(values: &mut OrdMap<V, Vec<u8>>, value_ids: &[V]) -> (removed: usize)
    ensures
        final(values)@ == old(values)@.remove_keys(value_ids@.to_set()),
        final(values)@.len() + removed == old(values)@.len(),
{
    let before: usize = values.len();
    let ghost start = values@;
    let mut i: usize = 0;
    assert(values@ =~= start.remove_keys(value_ids@.take(0).to_set()));
    while i < value_ids.len()
        invariant
            i <= value_ids@.len(),
            values@ == start.remove_keys(value_ids@.take(i as int).to_set()),
        decreases value_ids@.len() - i,
    {
        let ghost earlier = value_ids@.take(i as int);
        let _ = values.remove(&value_ids[i]);
        proof {
            assert(value_ids@.take(i + 1) =~= earlier.push(value_ids@[i as int]));
            earlier.lemma_push_to_set_commute(value_ids@[i as int]);
            assert(values@ =~= start.remove_keys(value_ids@.take(i + 1).to_set()));
        }
        i += 1;
    }
    assert(value_ids@.take(i as int) =~= value_ids@);
    let after: usize = values.len();
    proof {
        assert(start.dom().finite());
        vstd::set_lib::lemma_len_subset(values@.dom(), start.dom());
    }
    before - after
}

/// Payloads kept in memory.
#[derive(Debug)]
pub struct InMemoryBatchStore<V: Key> {
    values: OrdMap<V, Vec<u8>>,
}

impl<V: Key> View for InMemoryBatchStore<V> {
    type V = Map<V, Seq<u8>>;

    closed spec fn view(&self) -> Map<V, Seq<u8>> {
        self.values@
    }
}

impl<V: Key> Default for InMemoryBatchStore<V> {
    fn default() -> (store: Self)
        ensures
            store@ == Map::<V, Seq<u8>>::empty(),
    {
        InMemoryBatchStore { values: OrdMap::new() }
    }
}

impl<V: Key> BatchStore<V> for InMemoryBatchStore<V> {
    open spec fn batches(&self) -> Map<V, Seq<u8>> {
        self@
    }

    open spec fn reliable(&self) -> bool {
        true
    }

    fn put(&mut self, value_id: V, payload: Vec<u8>) -> (result: Result<()>) {
        match put_in(&mut self.values, value_id, payload) {
            Ok(_) => Ok(()),
            Err(refusal) => Err(refusal),
        }
    }

    fn get(&self, value_id: &V) -> (found: Result<Option<Vec<u8>>>) {
        match self.values.get(value_id) {
            Some(payload) => Ok(Some(copy_bytes(payload.as_slice()))),
            None => Ok(None),
        }
    }

    fn remove_many(&mut self, value_ids: &[V]) -> (removed: Result<usize>) {
        Ok(remove_from(&mut self.values, value_ids))
    }
}

/// Batch-content store over durable snapshots. A conflicting second payload
/// for the same ID is rejected; acknowledged publishes survive a restart.
pub struct FileBatchStore<V: Key, D> {
    disk: D,
    values: OrdMap<V, Vec<u8>>,
}

/// What a restart would find, where nothing counts as no payload.
pub open spec fn recovered<V, T>(persisted: Option<Map<V, T>>) -> Map<V, T> {
    match persisted {
        Some(kept) => kept,
        None => Map::empty(),
    }
}

impl<V: Key, D: SnapshotStore<OrdMap<V, Vec<u8>>>> FileBatchStore<V, D> {
    /// Where the payloads are made durable.
    pub closed spec fn storage(&self) -> D {
        self.disk
    }

    /// What a restart would find.
    pub open spec fn durable(&self) -> Map<V, Seq<u8>> {
        recovered(self.storage().persisted())
    }

    /// The payloads that the store answers with.
    pub closed spec fn contents(&self) -> Map<V, Seq<u8>> {
        self.values@
    }

    /// Every payload that the store answers with would survive a restart.
    pub open spec fn is_safe(&self) -> bool {
        self.contents().submap_of(self.durable())
    }

    /// Starts with what the last run made durable.
    pub fn open(disk: D) -> (store: Result<Self>)
        ensures
            match store {
                Ok(store) => {
                    &&& disk.loads(Ok(disk.persisted()), &store.storage())
                    &&& store.contents() == recovered(disk.persisted())
                    &&& store.durable() == recovered(disk.persisted())
                },
                Err(refusal) => exists|after: D| #[trigger] disk.loads(Err(refusal@), &after),
            },
    {
        let ghost unread = disk;
        let mut disk: D = disk;
        let loaded: Result<Option<OrdMap<V, Vec<u8>>>> = disk.load();
        assert(unread.loads(durable::load_outcome(loaded), &disk));
        match loaded {
            Ok(Some(values)) => Ok(FileBatchStore { disk, values }),
            Ok(None) => {
                let store = FileBatchStore { disk, values: OrdMap::new() };
                Ok(store)
            },
            Err(refusal) => Err(refusal),
        }
    }
}

/// Whether a store moved to other payloads like this: they are durable before
/// the store answers from them, and a refusal of the storage leaves the payloads
/// as they were.
pub open spec fn moved<V: Key, D: SnapshotStore<OrdMap<V, Vec<u8>>>>(
    before: &FileBatchStore<V, D>,
    next: Map<V, Seq<u8>>,
    saved: std::result::Result<(), ErrorView>,
    after: &FileBatchStore<V, D>,
) -> bool {
    &&& before.storage().saves(next, saved, &after.storage())
    &&& if saved is Ok {
        after.contents() == next && after.durable() == next
    } else {
        after.contents() == before.contents()
    }
}

impl<V: Key, D: SnapshotStore<OrdMap<V, Vec<u8>>>> BatchStore<V> for FileBatchStore<V, D> {
    open spec fn batches(&self) -> Map<V, Seq<u8>> {
        self.contents()
    }

    open spec fn reliable(&self) -> bool {
        false
    }

    /// A payload that is new goes to the storage; another needs no more than to
    /// be the same.
    open spec fn puts(
        &self,
        value_id: V,
        payload: Seq<u8>,
        put: std::result::Result<(), ErrorView>,
        after: &Self,
    ) -> bool {
        match put_batch(self.contents(), value_id, payload) {
            Err(refusal) => *after == *self && put == Err::<(), ErrorView>(refusal),
            Ok(next) => if self.contents().dom().contains(value_id) {
                *after == *self && put is Ok
            } else {
                moved(self, next, put, after)
            },
        }
    }

    open spec fn gets(
        &self,
        value_id: V,
        found: std::result::Result<Option<Seq<u8>>, ErrorView>,
    ) -> bool {
        found is Ok
    }

    /// A removal goes to the storage unless nothing is removed.
    open spec fn removes(
        &self,
        value_ids: Seq<V>,
        removed: std::result::Result<usize, ErrorView>,
        after: &Self,
    ) -> bool {
        let next = self.contents().remove_keys(value_ids.to_set());
        if next.len() == self.contents().len() {
            *after == *self && removed == Ok::<usize, ErrorView>(0)
        } else {
            match removed {
                Ok(count) => {
                    &&& next.len() + count == self.contents().len()
                    &&& moved(self, next, Ok(()), after)
                },
                Err(refusal) => moved(self, next, Err(refusal), after),
            }
        }
    }

    /// Makes the payload durable before it is acknowledged.
    fn put(&mut self, value_id: V, payload: Vec<u8>) -> (result: Result<()>)
        ensures
            old(self).is_safe() ==> final(self).is_safe(),
            !old(self).contents().dom().contains(value_id) && result is Ok
                ==> final(self).durable() == final(self).contents(),
    {
        let mut next: OrdMap<V, Vec<u8>> = self.values.duplicate_value();
        match put_in(&mut next, value_id, payload) {
            Ok(true) => {},
            Ok(false) => return Ok(()),
            Err(refusal) => return Err(refusal),
        }
        match self.disk.save(&next) {
            Ok(()) => {},
            Err(refusal) => return Err(refusal),
        }
        self.values = next;
        Ok(())
    }

    fn get(&self, value_id: &V) -> (found: Result<Option<Vec<u8>>>)
        ensures
            found is Ok,
    {
        match self.values.get(value_id) {
            Some(payload) => Ok(Some(copy_bytes(payload.as_slice()))),
            None => Ok(None),
        }
    }

    /// Makes the removal durable before it shows. Nothing is written when
    /// nothing is removed.
    fn remove_many(&mut self, value_ids: &[V]) -> (removed: Result<usize>)
        ensures
            removed is Ok && old(self).is_safe() ==> final(self).is_safe(),
            removed matches Ok(count) ==> {
                &&& count == 0 ==> final(self).durable() == old(self).durable()
                &&& count > 0 ==> final(self).durable() == final(self).contents()
            },
    {
        let mut next: OrdMap<V, Vec<u8>> = self.values.duplicate_value();
        let removed: usize = remove_from(&mut next, value_ids);
        if removed > 0 {
            match self.disk.save(&next) {
                Ok(()) => {},
                Err(refusal) => return Err(refusal),
            }
            self.values = next;
        } else {
            proof {
                let kept = self.values@;
                crate::collections::lemma_map_is_finite(self.values);
                assert(next@.dom().subset_of(kept.dom()));
                vstd::set_lib::lemma_subset_equality(next@.dom(), kept.dom());
                assert(next@ =~= kept);
            }
        }
        Ok(removed)
    }
}

/// Frames batch snapshots within a bound.
#[derive(Debug, Clone, Copy)]
pub struct BatchFrame {
    max_snapshot_bytes: usize,
}

/// The stored bytes of a batch snapshot's payload.
pub open spec fn framed(payload: Seq<u8>, limit: usize) -> std::result::Result<Seq<u8>, ErrorView> {
    let bytes = envelope::sealed(BATCH_STORAGE_VERSION, payload);
    if bytes.len() > limit {
        Err(ErrorView::ResourceLimit { resource: "durable batch bytes"@, limit })
    } else {
        Ok(bytes)
    }
}

/// The refusal of an envelope.
pub open spec fn frame_error(fault: FaultView) -> ErrorView {
    ErrorView::StorageError(
        match fault {
            FaultView::Malformed(complaint) => "could not decode batch snapshot: "@ + complaint,
            FaultView::Version(version) => "unsupported batch storage version "@ + text::decimal(
                version as nat,
            ),
            FaultView::Checksum => "batch snapshot checksum verification failed"@,
        },
    )
}

/// The payload of a stored batch snapshot.
pub open spec fn unframed(bytes: Seq<u8>, limit: usize) -> std::result::Result<Seq<u8>, ErrorView> {
    if bytes.len() == 0 || bytes.len() > limit {
        Err(
            ErrorView::StorageError(
                "batch snapshot size "@ + text::decimal(bytes.len())
                    + " is outside the configured bound"@,
            ),
        )
    } else {
        match envelope::opened(BATCH_STORAGE_VERSION, bytes) {
            Ok(payload) => Ok(payload),
            Err(fault) => Err(frame_error(fault)),
        }
    }
}

/// A framed batch snapshot is read back as it was.
pub proof fn framed_batches_are_read_back(payload: Seq<u8>, limit: usize)
    requires
        payload.len() <= usize::MAX,
        framed(payload, limit) is Ok,
    ensures
        unframed(framed(payload, limit)->Ok_0, limit) == Ok::<Seq<u8>, ErrorView>(payload),
{
    envelope::sealed_payloads_are_opened(BATCH_STORAGE_VERSION, BATCH_STORAGE_VERSION, payload);
    assert(envelope::varint(BATCH_STORAGE_VERSION as nat).len() == 1);
}

impl BatchFrame {
    /// The most bytes that a stored snapshot may take.
    pub closed spec fn limit(self) -> usize {
        self.max_snapshot_bytes
    }

    pub fn new(max_snapshot_bytes: usize) -> (frame: Result<Self>)
        ensures
            match frame {
                Ok(frame) => max_snapshot_bytes != 0 && frame.limit() == max_snapshot_bytes,
                Err(refusal) => max_snapshot_bytes == 0 && refusal@ == ErrorView::StorageError(
                    "maximum batch snapshot size must be non-zero"@,
                ),
            },
    {
        if max_snapshot_bytes == 0 {
            return Err(
                QuePaxaError::StorageError(
                    "maximum batch snapshot size must be non-zero".to_owned(),
                ),
            );
        }
        Ok(BatchFrame { max_snapshot_bytes })
    }

    /// The bytes to store for a serialized snapshot.
    pub fn encode(&self, payload: &[u8]) -> (bytes: Result<Vec<u8>>)
        ensures
            error::outcome(bytes) == framed(payload@, self.limit()),
    {
        let bytes: Vec<u8> = match seal(BATCH_STORAGE_VERSION, payload) {
            Ok(bytes) => bytes,
            Err(complaint) => {
                return Err(
                    QuePaxaError::StorageError(
                        joined("could not encode batch snapshot: ", complaint.as_str()),
                    ),
                );
            },
        };
        if bytes.len() > self.max_snapshot_bytes {
            return Err(
                QuePaxaError::ResourceLimit {
                    resource: "durable batch bytes",
                    limit: self.max_snapshot_bytes,
                },
            );
        }
        Ok(bytes)
    }

    /// The serialized snapshot that bytes were stored for.
    pub fn decode(&self, bytes: &[u8]) -> (payload: Result<Vec<u8>>)
        ensures
            error::outcome(payload) == unframed(bytes@, self.limit()),
    {
        if bytes.len() == 0 || bytes.len() > self.max_snapshot_bytes {
            return Err(
                QuePaxaError::StorageError(
                    numbered(
                        "batch snapshot size ",
                        bytes.len() as u64,
                        " is outside the configured bound",
                    ),
                ),
            );
        }
        match open(BATCH_STORAGE_VERSION, bytes) {
            Ok(payload) => Ok(payload),
            Err(EnvelopeFault::Malformed(complaint)) => Err(
                QuePaxaError::StorageError(
                    joined("could not decode batch snapshot: ", complaint.as_str()),
                ),
            ),
            Err(EnvelopeFault::Version(version)) => Err(
                QuePaxaError::StorageError(
                    with_number("unsupported batch storage version ", version as u64),
                ),
            ),
            Err(EnvelopeFault::Checksum) => Err(
                QuePaxaError::StorageError(
                    "batch snapshot checksum verification failed".to_owned(),
                ),
            ),
        }
    }
}

/// How much one request may carry.
#[derive(Debug, Clone, Copy)]
pub struct BatchServiceLimits {
    pub max_batches_per_request: usize,
    pub max_batch_bytes: usize,
    pub max_fetch_ids: usize,
}

impl Default for BatchServiceLimits {
    fn default() -> (limits: Self)
        ensures
            limits == (BatchServiceLimits {
                max_batches_per_request: 256,
                max_batch_bytes: 4_194_304,
                max_fetch_ids: 1024,
            }),
    {
        BatchServiceLimits {
            max_batches_per_request: 256,
            max_batch_bytes: 4_194_304,
            max_fetch_ids: 1024,
        }
    }
}

impl BatchServiceLimits {
    /// Every limit lets something through.
    pub open spec fn usable(self) -> bool {
        self.max_batches_per_request > 0 && self.max_batch_bytes > 0 && self.max_fetch_ids > 0
    }

    /// The refusal of a publish request for how many batches it has.
    pub open spec fn publish_size_error(self, count: nat) -> Option<ErrorView> {
        if count == 0 || count > self.max_batches_per_request {
            Some(
                ErrorView::ResourceLimit {
                    resource: "batches in one publish request"@,
                    limit: self.max_batches_per_request,
                },
            )
        } else {
            None
        }
    }

    /// The refusal of one batch of a publish request for its own size or for an
    /// ID that an earlier batch has.
    pub open spec fn flaw<V>(self, batches: Seq<BatchView<V>>, i: int) -> Option<ErrorView> {
        let size = batches[i].payload.len();
        if size == 0 || size > self.max_batch_bytes {
            Some(
                ErrorView::ResourceLimit {
                    resource: "bytes in one published batch"@,
                    limit: self.max_batch_bytes,
                },
            )
        } else if exists|j: int| 0 <= j < i && #[trigger] batches[j].value_id == batches[i].value_id {
            Some(ErrorView::InvalidProposal("batch publish request contains duplicate IDs"@))
        } else {
            None
        }
    }

    /// The refusal of a fetch request for its IDs.
    pub open spec fn fetch_error<V>(self, value_ids: Seq<V>) -> Option<ErrorView> {
        if value_ids.len() == 0 || value_ids.len() > self.max_fetch_ids {
            Some(
                ErrorView::ResourceLimit {
                    resource: "IDs in one batch fetch request"@,
                    limit: self.max_fetch_ids,
                },
            )
        } else if !value_ids.no_duplicates() {
            Some(ErrorView::InvalidProposal("batch fetch request contains duplicate IDs"@))
        } else {
            None
        }
    }

    /// Checks one batch of a publish request.
    pub fn screen<V: Key>(&self, batches: &[Batch<V>], i: usize) -> (checked: Result<()>)
        requires
            i < batches@.len(),
        ensures
            match checked {
                Ok(()) => self.flaw(types::list_view(batches@), i as int) is None,
                Err(refusal) => self.flaw(types::list_view(batches@), i as int) == Some(refusal@),
            },
    {
        let ghost views = types::list_view(batches@);
        let size: usize = batches[i].payload.len();
        assert(views[i as int].payload.len() == size);
        if size == 0 || size > self.max_batch_bytes {
            return Err(
                QuePaxaError::ResourceLimit {
                    resource: "bytes in one published batch",
                    limit: self.max_batch_bytes,
                },
            );
        }
        let mut j: usize = 0;
        while j < i
            invariant
                j <= i < batches@.len(),
                views == types::list_view(batches@),
                forall|k: int|
                    0 <= k < j ==> (#[trigger] views[k]).value_id != views[i as int].value_id,
                0 < views[i as int].payload.len() <= self.max_batch_bytes,
            decreases i - j,
        {
            if batches[j].value_id.same(&batches[i].value_id) {
                assert(views[j as int].value_id == views[i as int].value_id);
                return Err(
                    QuePaxaError::InvalidProposal(
                        "batch publish request contains duplicate IDs".to_owned(),
                    ),
                );
            }
            assert(views[j as int].value_id == batches@[j as int].value_id);
            j += 1;
        }
        Ok(())
    }
}

/// What a node does with batches once it knows who asks.
pub trait BatchService<V> {
    /// Whether publishing may go like this: from here, with this result, to
    /// `after`. A service that does not say leaves every publication open.
    open spec fn publishes(
        &self,
        batches: Seq<BatchView<V>>,
        published: std::result::Result<(), ErrorView>,
        after: &Self,
    ) -> bool {
        true
    }

    /// Whether fetching may go like this.
    open spec fn hands_out(
        &self,
        value_ids: Seq<V>,
        found: std::result::Result<Seq<BatchView<V>>, ErrorView>,
    ) -> bool {
        true
    }

    fn publish(&mut self, batches: Vec<Batch<V>>) -> (published: Result<()>)
        ensures
            old(self).publishes(
                types::list_view(batches@),
                error::outcome(published),
                final(self),
            ),
    ;

    fn fetch(&self, value_ids: Vec<V>) -> (found: Result<Vec<Batch<V>>>)
        ensures
            self.hands_out(value_ids@, batches_outcome(found)),
    ;
}

/// What the result of fetching stands for.
pub open spec fn batches_outcome<V>(found: Result<Vec<Batch<V>>>) -> std::result::Result<
    Seq<BatchView<V>>,
    ErrorView,
> {
    match found {
        Ok(list) => Ok(types::list_view(list@)),
        Err(refusal) => Err(refusal@),
    }
}

/// Whether a batch of a publish request is well formed and its payload was
/// verified.
pub open spec fn approved<V, F: BatchVerifier<V>>(
    limits: BatchServiceLimits,
    verifier: F,
    batches: Seq<BatchView<V>>,
    i: int,
) -> bool {
    &&& limits.flaw(batches, i) is None
    &&& verifier.answers(batches[i].value_id, batches[i].payload, Ok(()))
}

/// Whether batches from one on were checked and verified in order with this
/// result: the first flaw or the verifier's first refusal, if there is any.
pub open spec fn screened<V, F: BatchVerifier<V>>(
    limits: BatchServiceLimits,
    verifier: F,
    batches: Seq<BatchView<V>>,
    i: int,
    refusal: Option<ErrorView>,
) -> bool
    decreases batches.len() - i,
{
    if i < 0 || i >= batches.len() {
        refusal is None
    } else if limits.flaw(batches, i) is Some {
        refusal == limits.flaw(batches, i)
    } else {
        ||| approved(limits, verifier, batches, i) && screened(
            limits,
            verifier,
            batches,
            i + 1,
            refusal,
        )
        ||| refusal matches Some(refusal) && verifier.answers(
            batches[i].value_id,
            batches[i].payload,
            Err(refusal),
        )
    }
}

proof fn lemma_screened_before<V, F: BatchVerifier<V>>(
    limits: BatchServiceLimits,
    verifier: F,
    batches: Seq<BatchView<V>>,
    i: int,
    refusal: Option<ErrorView>,
)
    requires
        0 <= i <= batches.len(),
        forall|j: int| 0 <= j < i ==> #[trigger] approved(limits, verifier, batches, j),
        screened(limits, verifier, batches, i, refusal),
    ensures
        screened(limits, verifier, batches, 0, refusal),
    decreases i,
{
    if i > 0 {
        assert(approved(limits, verifier, batches, i - 1));
        lemma_screened_before(limits, verifier, batches, i - 1, refusal);
    }
}

/// Only verified payloads are kept: every batch of an accepted request is well
/// formed and the verifier has approved its payload.
pub proof fn kept_payloads_were_verified<V, F: BatchVerifier<V>>(
    limits: BatchServiceLimits,
    verifier: F,
    batches: Seq<BatchView<V>>,
    from: int,
    i: int,
)
    requires
        0 <= from <= i < batches.len(),
        screened(limits, verifier, batches, from, None),
    ensures
        approved(limits, verifier, batches, i),
    decreases batches.len() - from,
{
    if from < i {
        kept_payloads_were_verified(limits, verifier, batches, from + 1, i);
    }
}

/// Checks, verifies and keeps batches.
pub struct AuthenticatedBatchService<V, S, F> {
    store: S,
    verifier: F,
    limits: BatchServiceLimits,
    marker: PhantomData<V>,
}

/// The batches that a fetch of `value_ids` returns.
pub open spec fn fetched<V>(kept: Map<V, Seq<u8>>, value_ids: Seq<V>) -> Seq<BatchView<V>> {
    value_ids.map_values(|value_id: V| BatchView { value_id, payload: kept[value_id] })
}

/// Every requested payload is kept.
pub open spec fn all_kept<V>(kept: Map<V, Seq<u8>>, value_ids: Seq<V>) -> bool {
    forall|i: int| 0 <= i < value_ids.len() ==> kept.dom().contains(#[trigger] value_ids[i])
}

/// Which prefix of the batches went into the store.
pub open spec fn stored_up_to<V>(
    before: Map<V, Seq<u8>>,
    after: Map<V, Seq<u8>>,
    batches: Seq<BatchView<V>>,
    count: int,
) -> bool {
    &&& 0 <= count <= batches.len()
    &&& put_all(before, batches.take(count)) == (after, Ok::<(), ErrorView>(()))
}

/// Some prefix of the batches went into the store, and all of them if `all`.
pub open spec fn stored_some<V>(
    before: Map<V, Seq<u8>>,
    after: Map<V, Seq<u8>>,
    batches: Seq<BatchView<V>>,
    all: bool,
) -> bool {
    exists|count: int| #[trigger]
        stored_up_to(before, after, batches, count) && (all ==> count == batches.len())
}

impl<V, S, F> AuthenticatedBatchService<V, S, F> {
    /// The store behind the service.
    pub closed spec fn kept(&self) -> S {
        self.store
    }

    /// What verifies payloads.
    pub closed spec fn verified_by(&self) -> F {
        self.verifier
    }

    /// The limits of the service.
    pub closed spec fn rules(&self) -> BatchServiceLimits {
        self.limits
    }

    pub fn new(store: S, verifier: F, limits: BatchServiceLimits) -> (service: Result<Self>)
        ensures
            match service {
                Ok(service) => limits.usable() && service.kept() == store && service.rules()
                    == limits && service.verified_by() == verifier,
                Err(refusal) => !limits.usable() && refusal@ == ErrorView::InvalidProposal(
                    "batch service limits must be non-zero"@,
                ),
            },
    {
        if limits.max_batches_per_request == 0 || limits.max_batch_bytes == 0
            || limits.max_fetch_ids == 0 {
            return Err(
                QuePaxaError::InvalidProposal("batch service limits must be non-zero".to_owned()),
            );
        }
        Ok(AuthenticatedBatchService { store, verifier, limits, marker: PhantomData })
    }

    /// The store behind the service.
    pub fn store(&self) -> (store: &S)
        ensures
            *store == self.kept(),
    {
        &self.store
    }
}

/// Whether a store lacks the first of some payloads that it does not hand out,
/// or fails to look it up.
pub open spec fn lacking<V: Key, S: BatchStore<V>>(
    store: S,
    value_ids: Seq<V>,
    refusal: ErrorView,
) -> bool {
    exists|i: int|
        {
            &&& 0 <= i < value_ids.len()
            &&& all_kept(store.batches(), #[trigger] value_ids.take(i))
            &&& {
                ||| refusal == ErrorView::MissingValue && !store.batches().dom().contains(
                    value_ids[i],
                )
                ||| store.gets(value_ids[i], Err(refusal))
            }
        }
}

/// Each store comes from the one before it by taking the next batch.
pub open spec fn taken<V: Key, S: BatchStore<V>>(stores: Seq<S>, batches: Seq<BatchView<V>>) -> bool {
    &&& 0 < stores.len() <= batches.len() + 1
    &&& forall|i: int|
        1 <= i < stores.len() ==> stores[i - 1].puts(
            batches[i - 1].value_id,
            batches[i - 1].payload,
            Ok(()),
            #[trigger] &stores[i],
        )
}

/// Whether a store was offered batches in order like this, up to the first that
/// it refuses.
pub open spec fn offered<V: Key, S: BatchStore<V>>(
    before: S,
    batches: Seq<BatchView<V>>,
    result: std::result::Result<(), ErrorView>,
    after: S,
) -> bool {
    exists|stores: Seq<S>|
        {
            &&& #[trigger] taken(stores, batches)
            &&& stores[0] == before
            &&& match result {
                Ok(()) => stores.len() == batches.len() + 1 && after == stores.last(),
                Err(_) => stores.len() <= batches.len() && stores.last().puts(
                    batches[stores.len() - 1].value_id,
                    batches[stores.len() - 1].payload,
                    result,
                    &after,
                ),
            }
        }
}

/// Whether a service kept batches in order like this: all of them, or those
/// before the first that the store refuses.
pub open spec fn keeps<V: Key, S: BatchStore<V>, F>(
    before: &AuthenticatedBatchService<V, S, F>,
    batches: Seq<BatchView<V>>,
    result: std::result::Result<(), ErrorView>,
    after: &AuthenticatedBatchService<V, S, F>,
) -> bool {
    &&& after.rules() == before.rules()
    &&& after.verified_by() == before.verified_by()
    &&& after.kept().reliable() == before.kept().reliable()
    &&& offered(before.kept(), batches, result, after.kept())
    &&& stored_some(before.kept().batches(), after.kept().batches(), batches, result is Ok)
    &&& before.kept().reliable() ==> (after.kept().batches(), result) == put_all(
        before.kept().batches(),
        batches,
    )
}

impl<V: Key, S: BatchStore<V>, F> AuthenticatedBatchService<V, S, F> {
    /// Keeps verified batches in order, up to the first that the store refuses.
    #[verifier::loop_isolation(false)]
    pub fn keep_all(&mut self, batches: &[Batch<V>]) -> (result: Result<()>)
        ensures
            keeps(old(self), types::list_view(batches@), error::outcome(result), final(self)),
    {
        let ghost start = self.store.batches();
        let ghost views = types::list_view(batches@);
        let ghost mut stores: Seq<S> = seq![self.store];
        let mut i: usize = 0;
        assert(views.take(0) =~= Seq::<BatchView<V>>::empty());
        while i < batches.len()
            invariant
                i <= batches@.len(),
                taken(stores, views),
                stores.len() == i + 1,
                stores[0] == old(self).store,
                stores.last() == self.store,
                put_all(start, views.take(i as int)) == (self.store.batches(), Ok::<(), ErrorView>(())),
                self.store.reliable() == old(self).store.reliable(),
                self.limits == old(self).limits,
                self.verifier == old(self).verifier,
            decreases batches@.len() - i,
        {
            let batch: &Batch<V> = &batches[i];
            proof {
                assert(views.take(i + 1).drop_last() =~= views.take(i as int));
                assert(views.take(i + 1).last() == batch@);
            }
            match self.store.put(batch.value_id.duplicate(), copy_bytes(batch.payload.as_slice())) {
                Ok(()) => {},
                Err(refusal) => {
                    proof {
                        assert(stored_up_to(start, self.store.batches(), views, i as int));
                        assert(stored_some(start, self.store.batches(), views, false));
                        if self.store.reliable() {
                            lemma_put_all_stops(start, views, i as int);
                        }
                        assert(taken(stores, views));
                    }
                    return Err(refusal);
                },
            }
            proof {
                let more = stores.push(self.store);
                assert forall|k: int| 1 <= k < more.len() implies more[k - 1].puts(
                    views[k - 1].value_id,
                    views[k - 1].payload,
                    Ok(()),
                    #[trigger] &more[k],
                ) by {
                    if k < stores.len() {
                        assert(more[k] == stores[k]);
                    }
                }
                stores = more;
            }
            i += 1;
        }
        proof {
            assert(taken(stores, views));
            assert(views.take(i as int) =~= views);
            assert(stored_up_to(start, self.store.batches(), views, i as int));
        }
        Ok(())
    }

    /// Deletes payloads whose decided commands are covered by a durable
    /// application checkpoint. This is deliberately local-only: callers must
    /// establish checkpoint safety before invoking it.
    pub fn prune_checkpointed(&mut self, value_ids: &[V]) -> (removed: Result<usize>)
        ensures
            final(self).rules() == old(self).rules(),
            final(self).verified_by() == old(self).verified_by(),
            final(self).kept().reliable() == old(self).kept().reliable(),
            old(self).kept().removes(value_ids@, count_outcome(removed), &final(self).kept()),
            old(self).kept().reliable() ==> removed is Ok,
            match removed {
                Ok(count) => {
                    &&& final(self).kept().batches() == old(self).kept().batches().remove_keys(
                        value_ids@.to_set(),
                    )
                    &&& final(self).kept().batches().len() + count == old(
                        self,
                    ).kept().batches().len()
                },
                Err(_) => final(self).kept().batches() == old(self).kept().batches(),
            },
    {
        self.store.remove_many(value_ids)
    }

    /// Deletes exactly the values captured while creating a durable matching
    /// application/consensus checkpoint. This prevents retention integrations
    /// from rebuilding an incomplete pruning set after the decision log has
    /// already been compacted.
    pub fn prune_state_transfer(&mut self, transfer: &StateTransferSnapshot<V>) -> (removed: Result<
        usize,
    >)
        ensures
            final(self).rules() == old(self).rules(),
            final(self).verified_by() == old(self).verified_by(),
            final(self).kept().reliable() == old(self).kept().reliable(),
            transfer@.through != transfer@.runtime.replica.checkpointed_through ==> {
                &&& final(self).kept() == old(self).kept()
                &&& removed matches Err(refusal) && refusal@ == ErrorView::InvalidProposal(
                    "state-transfer checkpoint does not match the runtime pruning floor"@,
                )
            },
            transfer@.through == transfer@.runtime.replica.checkpointed_through ==> {
                &&& old(self).kept().removes(
                    transfer@.checkpointed_value_ids,
                    count_outcome(removed),
                    &final(self).kept(),
                )
                &&& old(self).kept().reliable() ==> removed is Ok
                &&& match removed {
                    Ok(count) => {
                        &&& final(self).kept().batches() == old(self).kept().batches().remove_keys(
                            transfer@.checkpointed_value_ids.to_set(),
                        )
                        &&& final(self).kept().batches().len() + count == old(
                            self,
                        ).kept().batches().len()
                    },
                    Err(_) => final(self).kept().batches() == old(self).kept().batches(),
                }
            },
    {
        if !transfer.through.same(&transfer.runtime.replica.checkpointed_through) {
            return Err(
                QuePaxaError::InvalidProposal(
                    "state-transfer checkpoint does not match the runtime pruning floor".to_owned(),
                ),
            );
        }
        self.prune_checkpointed(transfer.checkpointed_value_ids.as_slice())
    }

    /// The payloads of the requested values, in the order of the request.
    #[verifier::loop_isolation(false)]
    pub fn read(&self, value_ids: &[V]) -> (batches: Result<Vec<Batch<V>>>)
        ensures
            match self.rules().fetch_error(value_ids@) {
                Some(refusal) => batches matches Err(given) && given@ == refusal,
                None => {
                    &&& batches matches Ok(list) ==> {
                        &&& all_kept(self.kept().batches(), value_ids@)
                        &&& types::list_view(list@) == fetched(self.kept().batches(), value_ids@)
                    }
                    &&& self.kept().reliable() ==> (batches is Ok <==> all_kept(
                        self.kept().batches(),
                        value_ids@,
                    ))
                    &&& self.kept().reliable() ==> (batches matches Err(refusal) ==> refusal@
                        == ErrorView::MissingValue)
                    &&& batches matches Err(refusal) ==> lacking(
                        self.kept(),
                        value_ids@,
                        refusal@,
                    )
                },
            },
    {
        if value_ids.len() == 0 || value_ids.len() > self.limits.max_fetch_ids {
            return Err(
                QuePaxaError::ResourceLimit {
                    resource: "IDs in one batch fetch request",
                    limit: self.limits.max_fetch_ids,
                },
            );
        }
        if !all_different(value_ids) {
            return Err(
                QuePaxaError::InvalidProposal(
                    "batch fetch request contains duplicate IDs".to_owned(),
                ),
            );
        }
        let mut batches: Vec<Batch<V>> = Vec::new();
        let mut i: usize = 0;
        while i < value_ids.len()
            invariant
                i <= value_ids@.len(),
                batches@.len() == i,
                forall|j: int|
                    0 <= j < i ==> self.store.batches().dom().contains(#[trigger] value_ids@[j]),
                forall|j: int|
                    0 <= j < i ==> (#[trigger] batches@[j])@ == (BatchView {
                        value_id: value_ids@[j],
                        payload: self.store.batches()[value_ids@[j]],
                    }),
            decreases value_ids@.len() - i,
        {
            let payload: Vec<u8> = match self.store.get(&value_ids[i]) {
                Ok(Some(payload)) => payload,
                Ok(None) => {
                    assert(!self.store.batches().dom().contains(value_ids@[i as int]));
                    assert(all_kept(self.store.batches(), value_ids@.take(i as int)));
                    return Err(QuePaxaError::MissingValue);
                },
                Err(refusal) => {
                    assert(all_kept(self.store.batches(), value_ids@.take(i as int)));
                    return Err(refusal);
                },
            };
            batches.push(Batch { value_id: value_ids[i].duplicate(), payload });
            i += 1;
        }
        assert(types::list_view(batches@) =~= fetched(self.store.batches(), value_ids@));
        Ok(batches)
    }
}

proof fn lemma_put_all_stops<V>(kept: Map<V, Seq<u8>>, batches: Seq<BatchView<V>>, i: int)
    requires
        0 <= i < batches.len(),
        put_all(kept, batches.take(i)).1 is Ok,
        put_all(kept, batches.take(i + 1)).1 is Err,
    ensures
        put_all(kept, batches) == put_all(kept, batches.take(i + 1)),
    decreases batches.len() - i,
{
    if i + 1 == batches.len() {
        assert(batches.take(i + 1) =~= batches);
    } else {
        lemma_put_all_error(kept, batches, i + 1);
    }
}

proof fn lemma_put_all_error<V>(kept: Map<V, Seq<u8>>, batches: Seq<BatchView<V>>, n: int)
    requires
        0 <= n <= batches.len(),
        put_all(kept, batches.take(n)).1 is Err,
    ensures
        put_all(kept, batches) == put_all(kept, batches.take(n)),
    decreases batches.len(),
{
    if n == batches.len() {
        assert(batches.take(n) =~= batches);
    } else {
        let before = batches.drop_last();
        assert(before.take(n) =~= batches.take(n));
        lemma_put_all_error(kept, before, n);
    }
}

impl<V: Key, S: BatchStore<V>, F: BatchVerifier<V>> BatchService<
    V,
> for AuthenticatedBatchService<V, S, F> {
    /// Every batch is checked and verified before the first is kept.
    open spec fn publishes(
        &self,
        batches: Seq<BatchView<V>>,
        published: std::result::Result<(), ErrorView>,
        after: &Self,
    ) -> bool {
        match self.rules().publish_size_error(batches.len()) {
            Some(refusal) => *after == *self && published == Err::<(), ErrorView>(refusal),
            None => exists|refusal: Option<ErrorView>| #[trigger]
                screened(self.rules(), self.verified_by(), batches, 0, refusal) && match refusal {
                    Some(refusal) => *after == *self && published == Err::<(), ErrorView>(refusal),
                    None => keeps(self, batches, published, after),
                },
        }
    }

    open spec fn hands_out(
        &self,
        value_ids: Seq<V>,
        found: std::result::Result<Seq<BatchView<V>>, ErrorView>,
    ) -> bool {
        match self.rules().fetch_error(value_ids) {
            Some(refusal) => found == Err::<Seq<BatchView<V>>, ErrorView>(refusal),
            None => {
                let kept = self.kept().batches();
                &&& found matches Ok(list) ==> all_kept(kept, value_ids) && list == fetched(
                    kept,
                    value_ids,
                )
                &&& self.kept().reliable() ==> (found is Ok <==> all_kept(kept, value_ids))
                &&& self.kept().reliable() && found is Err ==> found == Err::<
                    Seq<BatchView<V>>,
                    ErrorView,
                >(ErrorView::MissingValue)
                &&& found matches Err(refusal) ==> lacking(self.kept(), value_ids, refusal)
            },
        }
    }

    /// Checks and verifies every batch before the first is kept.
    #[verifier::loop_isolation(false)]
    fn publish(&mut self, batches: Vec<Batch<V>>) -> (published: Result<()>) {
        let ghost views = types::list_view(batches@);
        if batches.len() == 0 || batches.len() > self.limits.max_batches_per_request {
            return Err(
                QuePaxaError::ResourceLimit {
                    resource: "batches in one publish request",
                    limit: self.limits.max_batches_per_request,
                },
            );
        }
        let mut i: usize = 0;
        while i < batches.len()
            invariant
                i <= batches@.len(),
                forall|j: int|
                    0 <= j < i ==> #[trigger] approved(self.limits, self.verifier, views, j),
            decreases batches@.len() - i,
        {
            match self.limits.screen(batches.as_slice(), i) {
                Ok(()) => {},
                Err(refusal) => {
                    proof {
                        lemma_screened_before(
                            self.limits,
                            self.verifier,
                            views,
                            i as int,
                            Some(refusal@),
                        );
                        assert(screened(self.rules(), self.verified_by(), views, 0, Some(refusal@)));
                    }
                    return Err(refusal);
                },
            }
            match self.verifier.verify(&batches[i].value_id, batches[i].payload.as_slice()) {
                Ok(()) => {},
                Err(refusal) => {
                    proof {
                        lemma_screened_before(
                            self.limits,
                            self.verifier,
                            views,
                            i as int,
                            Some(refusal@),
                        );
                        assert(screened(self.rules(), self.verified_by(), views, 0, Some(refusal@)));
                    }
                    return Err(refusal);
                },
            }
            assert(approved(self.limits, self.verifier, views, i as int));
            i += 1;
        }
        proof {
            lemma_screened_before(self.limits, self.verifier, views, i as int, None);
        }
        self.keep_all(batches.as_slice())
    }

    fn fetch(&self, value_ids: Vec<V>) -> (found: Result<Vec<Batch<V>>>) {
        self.read(value_ids.as_slice())
    }
}

/// A kept payload is never replaced.
pub proof fn kept_payloads_stay<V>(kept: Map<V, Seq<u8>>, batches: Seq<BatchView<V>>)
    ensures
        kept.submap_of(put_all(kept, batches).0),
    decreases batches.len(),
{
    if batches.len() > 0 {
        kept_payloads_stay(kept, batches.drop_last());
    }
}

/// What was published is fetched: each batch of an accepted request is kept
/// with its payload.
pub proof fn published_batches_are_kept<V>(
    kept: Map<V, Seq<u8>>,
    batches: Seq<BatchView<V>>,
    i: int,
)
    requires
        0 <= i < batches.len(),
        put_all(kept, batches).1 is Ok,
    ensures
        put_all(kept, batches).0.dom().contains(batches[i].value_id),
        put_all(kept, batches).0[batches[i].value_id] == batches[i].payload,
    decreases batches.len(),
{
    let before = batches.drop_last();
    if i < before.len() {
        published_batches_are_kept(kept, before, i);
        assert(before[i] == batches[i]);
    }
}

} // verus!
