use rust_quepaxa::atomic_file::FileKind;
use rust_quepaxa::network::batch::BatchFrame;
use rust_quepaxa::network::dedupe::{
    DedupeFrame, ExactlyOnceSnapshot, StateApplier, SubmissionKey,
};
use rust_quepaxa::network::{
    AuthenticatedBatchService, Batch, BatchService, BatchServiceLimits, BatchStore, BatchVerifier,
    DeduplicatingSubmissionHandler, ExactlyOnceExecutor, FileBatchStore, FileExactlyOnceExecutor,
    FileSubmissionJournal, FramedFile, InMemoryBatchStore, InMemorySnapshotStore, InMemorySubmissionJournal,
    SnapshotCodec, SnapshotStore, Submission, SubmissionJournal, SubmissionOutcome,
};
use rust_quepaxa::{
    Decision, Duplicate, NoopCrashInjector, OrdMap, OrdSet, QuePaxaError, ReplicaId, Result, SlotIndex, Step,
};
use std::cell::RefCell;
use std::rc::Rc;

#[derive(Clone, Default)]
struct Disk(Rc<RefCell<Option<Vec<u8>>>>);

impl Disk {
    fn corrupt(&self) {
        let mut held = self.0.borrow_mut();
        let bytes = held.as_mut().unwrap();
        let last = bytes.len() - 1;
        bytes[last] ^= 1;
    }
}

struct BatchDisk {
    disk: Disk,
    frame: BatchFrame,
}

fn batch_disk(disk: &Disk) -> BatchDisk {
    BatchDisk {
        disk: disk.clone(),
        frame: BatchFrame::new(1024 * 1024).unwrap(),
    }
}

impl SnapshotStore<OrdMap<u64, Vec<u8>>> for BatchDisk {
    fn load(&mut self) -> Result<Option<OrdMap<u64, Vec<u8>>>> {
        let Some(bytes) = self.disk.0.borrow().clone() else {
            return Ok(None);
        };
        let list: Vec<(u64, Vec<u8>)> = postcard::from_bytes(&self.frame.decode(&bytes)?).unwrap();
        let mut values = OrdMap::new();
        for (key, payload) in list {
            values.insert(key, payload);
        }
        Ok(Some(values))
    }

    fn save(&mut self, values: &OrdMap<u64, Vec<u8>>) -> Result<()> {
        let list: Vec<(u64, Vec<u8>)> = (0..values.len())
            .map(|i| (*values.key_at(i), values.value_at(i).clone()))
            .collect();
        let bytes = self.frame.encode(&postcard::to_allocvec(&list).unwrap())?;
        *self.disk.0.borrow_mut() = Some(bytes);
        Ok(())
    }
}

#[test]
fn durable_batch_store_checksums_and_prunes_atomically() {
    let disk = Disk::default();
    let mut store = FileBatchStore::open(batch_disk(&disk)).unwrap();
    store.put(1, b"one".to_vec()).unwrap();
    store.put(2, b"two".to_vec()).unwrap();
    assert_eq!(store.remove_many(&[1]).unwrap(), 1);
    drop(store);

    let restored = FileBatchStore::open(batch_disk(&disk)).unwrap();
    assert_eq!(restored.get(&1).unwrap(), None);
    assert_eq!(restored.get(&2).unwrap(), Some(b"two".to_vec()));
    drop(restored);

    disk.corrupt();
    assert!(matches!(
        FileBatchStore::open(batch_disk(&disk)),
        Err(QuePaxaError::StorageError(_))
    ));
}

type Outcomes = OrdMap<SubmissionKey, SubmissionOutcome<u64>>;

struct JournalDisk {
    disk: Disk,
    frame: DedupeFrame,
}

fn journal_disk(disk: &Disk) -> JournalDisk {
    JournalDisk {
        disk: disk.clone(),
        frame: DedupeFrame::new(1024 * 1024, "submission journal").unwrap(),
    }
}

type StoredDecision = (u64, Vec<u64>, u64, u64);

fn outcome_parts(outcome: &SubmissionOutcome<u64>) -> (u8, Option<StoredDecision>) {
    let parts = |decision: &Decision<u64>| {
        (
            decision.slot.get(),
            decision.value_ids.clone(),
            decision.proposer.get(),
            decision.decided_step.get(),
        )
    };
    match outcome {
        SubmissionOutcome::Accepted => (0, None),
        SubmissionOutcome::Committed(decision) => (1, Some(parts(decision))),
        SubmissionOutcome::Duplicate(decision) => (2, decision.as_ref().map(parts)),
    }
}

fn outcome_of(parts: (u8, Option<StoredDecision>)) -> SubmissionOutcome<u64> {
    let decision = parts.1.map(|(slot, values, proposer, step)| {
        Decision::new(
            SlotIndex::new(slot),
            values,
            ReplicaId::new(proposer),
            Step::new(step),
        )
        .unwrap()
    });
    match parts.0 {
        0 => SubmissionOutcome::Accepted,
        1 => SubmissionOutcome::Committed(decision.unwrap()),
        _ => SubmissionOutcome::Duplicate(decision),
    }
}

impl SnapshotStore<Outcomes> for JournalDisk {
    fn load(&mut self) -> Result<Option<Outcomes>> {
        let Some(bytes) = self.disk.0.borrow().clone() else {
            return Ok(None);
        };
        let list: Vec<([u8; 16], u64, (u8, Option<StoredDecision>))> =
            postcard::from_bytes(&self.frame.decode(&bytes)?).unwrap();
        let mut outcomes = OrdMap::new();
        for (client_id, request_id, parts) in list {
            outcomes.insert(
                SubmissionKey {
                    client_id,
                    request_id,
                },
                outcome_of(parts),
            );
        }
        Ok(Some(outcomes))
    }

    fn save(&mut self, outcomes: &Outcomes) -> Result<()> {
        let list: Vec<([u8; 16], u64, (u8, Option<StoredDecision>))> = (0..outcomes.len())
            .map(|i| {
                let key = outcomes.key_at(i);
                (
                    key.client_id,
                    key.request_id,
                    outcome_parts(outcomes.value_at(i)),
                )
            })
            .collect();
        let bytes = self.frame.encode(&postcard::to_allocvec(&list).unwrap())?;
        *self.disk.0.borrow_mut() = Some(bytes);
        Ok(())
    }
}

fn decision(slot: u64, value_id: u64) -> Decision<u64> {
    Decision::new(
        SlotIndex::new(slot),
        vec![value_id],
        ReplicaId::new(1),
        Step::round_one_phase_zero(),
    )
    .unwrap()
}

#[test]
fn file_submission_journal_survives_restart_and_rejects_conflicts() {
    let disk = Disk::default();
    let mut journal = FileSubmissionJournal::open(journal_disk(&disk)).unwrap();
    let outcome = SubmissionOutcome::Committed(decision(1, 9));
    journal.put([3; 16], 7, outcome.clone()).unwrap();

    let mut restored = FileSubmissionJournal::open(journal_disk(&disk)).unwrap();
    assert_eq!(restored.get([3; 16], 7).unwrap(), Some(outcome.clone()));
    restored.put([3; 16], 7, outcome).unwrap();
    assert!(matches!(
        restored.put([3; 16], 7, SubmissionOutcome::Accepted),
        Err(QuePaxaError::InvalidProposal(_))
    ));
    assert_eq!(restored.len(), 1);
    assert!(!restored.is_empty());
}

#[test]
fn dedupe_snapshots_reject_corruption() {
    let disk = Disk::default();
    let mut journal = FileSubmissionJournal::open(journal_disk(&disk)).unwrap();
    journal
        .put([1; 16], 1, SubmissionOutcome::Accepted)
        .unwrap();
    disk.corrupt();
    assert!(matches!(
        FileSubmissionJournal::open(journal_disk(&disk)),
        Err(QuePaxaError::StorageError(_))
    ));
}

struct InsertSlot;

impl StateApplier<u64, OrdMap<u64, u64>> for InsertSlot {
    fn apply(
        &mut self,
        state: &mut OrdMap<u64, u64>,
        slot: SlotIndex,
        value_id: &u64,
    ) -> Result<()> {
        state.insert(*value_id, slot.get());
        Ok(())
    }
}

type Snapshot = ExactlyOnceSnapshot<u64, OrdMap<u64, u64>>;

#[derive(Clone, Default)]
struct SharedSnapshot(Rc<RefCell<Option<(u64, Vec<u64>, Vec<(u64, u64)>)>>>);

fn snapshot_parts(snapshot: &Snapshot) -> (u64, Vec<u64>, Vec<(u64, u64)>) {
    (
        snapshot.checkpointed_through.get(),
        snapshot.seen.to_vec(),
        (0..snapshot.application.len())
            .map(|i| {
                (
                    *snapshot.application.key_at(i),
                    *snapshot.application.value_at(i),
                )
            })
            .collect(),
    )
}

fn snapshot_of(parts: (u64, Vec<u64>, Vec<(u64, u64)>)) -> Snapshot {
    let mut application = OrdMap::new();
    for (key, value) in parts.2 {
        application.insert(key, value);
    }
    ExactlyOnceSnapshot {
        checkpointed_through: SlotIndex::new(parts.0),
        seen: OrdSet::from_slice(&parts.1),
        application,
    }
}

impl SnapshotStore<Snapshot> for SharedSnapshot {
    fn load(&mut self) -> Result<Option<Snapshot>> {
        Ok(self.0.borrow().clone().map(snapshot_of))
    }

    fn save(&mut self, value: &Snapshot) -> Result<()> {
        *self.0.borrow_mut() = Some(snapshot_parts(value));
        Ok(())
    }
}

struct TupleCodec;

impl SnapshotCodec<Snapshot> for TupleCodec {
    fn encode(&self, value: &Snapshot) -> Result<Vec<u8>> {
        Ok(postcard::to_allocvec(&snapshot_parts(value)).unwrap())
    }

    fn decode(&self, bytes: &[u8]) -> Result<Snapshot> {
        Ok(snapshot_of(postcard::from_bytes(bytes).unwrap()))
    }
}

fn executor(
    disk: &SharedSnapshot,
) -> FileExactlyOnceExecutor<u64, OrdMap<u64, u64>, InsertSlot, SharedSnapshot, TupleCodec> {
    FileExactlyOnceExecutor::open(
        disk.clone(),
        TupleCodec,
        1024 * 1024,
        OrdMap::new(),
        InsertSlot,
    )
    .unwrap()
}

#[test]
fn file_exactly_once_executor_commits_state_and_id_together() {
    let disk = SharedSnapshot::default();
    let mut first = executor(&disk);
    assert!(first.execute_once(SlotIndex::new(1), &11).unwrap());
    assert!(!first.execute_once(SlotIndex::new(2), &11).unwrap());
    assert_eq!(first.application().get(&11), Some(&1));

    let mut restored = executor(&disk);
    assert_eq!(restored.application().get(&11), Some(&1));
    assert!(!restored.execute_once(SlotIndex::new(3), &11).unwrap());

    let checkpoint = restored.export_checkpoint(SlotIndex::new(1)).unwrap();
    let target_disk = SharedSnapshot::default();
    let mut target = executor(&target_disk);
    target
        .import_checkpoint(SlotIndex::new(1), &checkpoint)
        .unwrap();
    assert_eq!(target.application().get(&11), Some(&1));
    assert!(target.seen().contains(&11));
    drop(target);
    assert!(executor(&target_disk).seen().contains(&11));
}

#[test]
fn a_checkpoint_of_another_slot_is_not_imported() {
    let mut source = executor(&SharedSnapshot::default());
    source.execute_once(SlotIndex::new(1), &11).unwrap();
    let checkpoint = source.export_checkpoint(SlotIndex::new(1)).unwrap();
    let mut target = executor(&SharedSnapshot::default());
    assert_eq!(
        target
            .import_checkpoint(SlotIndex::new(2), &checkpoint)
            .unwrap_err(),
        QuePaxaError::ConfigurationMismatch
    );
    assert!(!target.seen().contains(&11));
    let mut torn = checkpoint.clone();
    let last = torn.len() - 1;
    torn[last] ^= 1;
    assert!(matches!(
        target.import_checkpoint(SlotIndex::new(1), &torn),
        Err(QuePaxaError::StorageError(_))
    ));
}

struct FullDisk;

impl<T: Duplicate> SnapshotStore<T> for FullDisk {
    fn load(&mut self) -> Result<Option<T>> {
        Ok(None)
    }

    fn save(&mut self, _value: &T) -> Result<()> {
        Err(QuePaxaError::StorageError("disk full".to_string()))
    }
}

#[test]
fn a_failed_save_changes_nothing() {
    let mut store: FileBatchStore<u64, FullDisk> = FileBatchStore::open(FullDisk).unwrap();
    assert!(store.put(1, b"one".to_vec()).is_err());
    assert_eq!(store.get(&1).unwrap(), None);

    let mut journal: FileSubmissionJournal<u64, FullDisk> =
        FileSubmissionJournal::open(FullDisk).unwrap();
    assert!(journal.put([1; 16], 1, SubmissionOutcome::Accepted).is_err());
    assert!(journal.is_empty());
}

#[test]
fn batches_cannot_change() {
    let mut store = InMemoryBatchStore::default();
    store.put(1u64, b"one".to_vec()).unwrap();
    store.put(1, b"one".to_vec()).unwrap();
    assert!(matches!(
        store.put(1, b"other".to_vec()),
        Err(QuePaxaError::InvalidProposal(_))
    ));
    assert_eq!(store.get(&1).unwrap(), Some(b"one".to_vec()));
    assert_eq!(store.remove_many(&[1, 2]).unwrap(), 1);
}

struct StartsWithId;

impl BatchVerifier<u64> for StartsWithId {
    fn verify(&self, value_id: &u64, payload: &[u8]) -> Result<()> {
        if payload[0] as u64 == *value_id {
            Ok(())
        } else {
            Err(QuePaxaError::InvalidProposal("wrong payload".to_string()))
        }
    }
}

fn batch(value_id: u64, payload: &[u8]) -> Batch<u64> {
    Batch {
        value_id,
        payload: payload.to_vec(),
    }
}

#[test]
fn published_batches_are_verified_and_bounded() {
    let limits = BatchServiceLimits {
        max_batches_per_request: 2,
        max_batch_bytes: 4,
        max_fetch_ids: 2,
    };
    let mut service =
        AuthenticatedBatchService::new(InMemoryBatchStore::default(), StartsWithId, limits)
            .unwrap();
    service
        .publish(vec![batch(1, &[1, 9]), batch(2, &[2])])
        .unwrap();
    assert_eq!(
        service.fetch(vec![2, 1]).unwrap(),
        vec![batch(2, &[2]), batch(1, &[1, 9])]
    );
    assert!(service.publish(vec![batch(3, &[4])]).is_err());
    assert_eq!(service.fetch(vec![3]).unwrap_err(), QuePaxaError::MissingValue);
    assert!(matches!(
        service.publish(vec![batch(4, &[4]), batch(5, &[5]), batch(6, &[6])]),
        Err(QuePaxaError::ResourceLimit { .. })
    ));
    assert!(matches!(
        service.publish(vec![batch(4, &[4, 0, 0, 0, 0])]),
        Err(QuePaxaError::ResourceLimit { .. })
    ));
    assert!(matches!(
        service.fetch(vec![1, 2, 3]),
        Err(QuePaxaError::ResourceLimit { .. })
    ));
    assert_eq!(service.prune_checkpointed(&[1]).unwrap(), 1);
    assert_eq!(service.fetch(vec![1]).unwrap_err(), QuePaxaError::MissingValue);
}

#[test]
fn a_retried_submission_gets_its_first_answer() {
    let mut handler = DeduplicatingSubmissionHandler::new(InMemorySubmissionJournal::default());
    let submission = Submission {
        client_id: [4; 16],
        request_id: 2,
        value_ids: vec![9u64],
    };
    assert!(handler.begin(&submission).unwrap().is_none());
    let first = handler
        .finish([4; 16], 2, SubmissionOutcome::Committed(decision(3, 9)))
        .unwrap();
    assert_eq!(first, SubmissionOutcome::Committed(decision(3, 9)));
    assert_eq!(
        handler.begin(&submission).unwrap(),
        Some(SubmissionOutcome::Duplicate(Some(decision(3, 9))))
    );
}

#[test]
fn memory_stores_keep_the_last_value() {
    let mut store: InMemorySnapshotStore<OrdMap<u64, Vec<u8>>> = InMemorySnapshotStore::new();
    assert!(store.load().unwrap().is_none());
    let mut values = OrdMap::new();
    values.insert(3u64, vec![1u8]);
    store.save(&values).unwrap();
    assert_eq!(store.load().unwrap(), Some(values));
}

#[test]
fn frames_hold_payloads_to_their_limit() {
    assert!(BatchFrame::new(0).is_err());
    assert!(DedupeFrame::new(0, "submission journal").is_err());
    let frame = BatchFrame::new(40).unwrap();
    assert_eq!(frame.decode(&frame.encode(&[1, 2, 3]).unwrap()).unwrap(), vec![1, 2, 3]);
    assert!(frame.encode(&[0; 10]).is_err());
    let batch = BatchFrame::new(1024).unwrap().encode(&[1, 2]).unwrap();
    let dedupe = DedupeFrame::new(1024, "submission journal").unwrap();
    assert!(dedupe.decode(&batch).is_err());
}

#[derive(Debug)]
struct BrokenBatches;

impl BatchStore<u64> for BrokenBatches {
    fn put(&mut self, _value_id: u64, _payload: Vec<u8>) -> Result<()> {
        Err(QuePaxaError::StorageError("disk gone".to_string()))
    }

    fn get(&self, _value_id: &u64) -> Result<Option<Vec<u8>>> {
        Err(QuePaxaError::StorageError("disk gone".to_string()))
    }

    fn remove_many(&mut self, _value_ids: &[u64]) -> Result<usize> {
        Err(QuePaxaError::StorageError("disk gone".to_string()))
    }
}

#[test]
fn a_failing_batch_store_is_reported_as_it_failed() {
    let mut service =
        AuthenticatedBatchService::new(BrokenBatches, StartsWithId, BatchServiceLimits::default())
            .unwrap();
    let gone = QuePaxaError::StorageError("disk gone".to_string());
    assert_eq!(service.fetch(vec![1]).unwrap_err(), gone);
    assert_eq!(service.publish(vec![batch(1, &[1])]).unwrap_err(), gone);
}

#[test]
fn a_reopened_journal_answers_as_before() {
    let disk = Disk::default();
    let mut journal = FileSubmissionJournal::open(journal_disk(&disk)).unwrap();
    assert!(journal.is_empty());
    for request in 0..6u64 {
        let outcome = SubmissionOutcome::Committed(decision(request + 1, request));
        journal.put([(request % 2) as u8; 16], request, outcome).unwrap();
        let reopened = FileSubmissionJournal::open(journal_disk(&disk)).unwrap();
        assert_eq!(reopened.len(), journal.len());
        for known in 0..8u64 {
            let client = [(known % 2) as u8; 16];
            assert_eq!(
                reopened.get(client, known).unwrap(),
                journal.get(client, known).unwrap()
            );
        }
    }
}

struct LateFailure {
    disk: JournalDisk,
    failing: Rc<RefCell<bool>>,
}

impl SnapshotStore<Outcomes> for LateFailure {
    fn load(&mut self) -> Result<Option<Outcomes>> {
        self.disk.load()
    }

    fn save(&mut self, outcomes: &Outcomes) -> Result<()> {
        self.disk.save(outcomes)?;
        if *self.failing.borrow() {
            return Err(QuePaxaError::StorageError("directory gone".to_string()));
        }
        Ok(())
    }
}

#[test]
fn acknowledged_outcomes_are_found_after_failed_puts() {
    let disk = Disk::default();
    let failing = Rc::new(RefCell::new(false));
    let mut journal = FileSubmissionJournal::open(LateFailure {
        disk: journal_disk(&disk),
        failing: failing.clone(),
    })
    .unwrap();
    journal.put([1; 16], 1, SubmissionOutcome::Accepted).unwrap();
    *failing.borrow_mut() = true;
    assert!(journal.put([1; 16], 2, SubmissionOutcome::Accepted).is_err());
    assert_eq!(journal.get([1; 16], 2).unwrap(), None);
    journal.put([1; 16], 1, SubmissionOutcome::Accepted).unwrap();
    let reopened = FileSubmissionJournal::open(journal_disk(&disk)).unwrap();
    assert_eq!(reopened.get([1; 16], 1).unwrap(), Some(SubmissionOutcome::Accepted));
    assert_eq!(reopened.len(), 2);
    *failing.borrow_mut() = false;
    journal.put([1; 16], 3, SubmissionOutcome::Accepted).unwrap();
    let reopened = FileSubmissionJournal::open(journal_disk(&disk)).unwrap();
    assert_eq!(reopened.len(), 2);
    assert_eq!(reopened.get([1; 16], 2).unwrap(), None);
    assert_eq!(reopened.get([1; 16], 3).unwrap(), Some(SubmissionOutcome::Accepted));
}

struct ListCodec;

impl SnapshotCodec<Vec<u8>> for ListCodec {
    fn encode(&self, value: &Vec<u8>) -> Result<Vec<u8>> {
        if value.contains(&255) {
            return Err(QuePaxaError::StorageError("unwritable".to_string()));
        }
        Ok(value.iter().rev().copied().collect())
    }

    fn decode(&self, bytes: &[u8]) -> Result<Vec<u8>> {
        Ok(bytes.iter().rev().copied().collect())
    }
}

#[test]
fn framed_files_are_read_as_they_were_written() {
    let kind = FileKind::SubmissionJournal;
    let frame = DedupeFrame::new(40, kind.label()).unwrap();
    let file = FramedFile::new("j.state".to_string(), kind, frame, ListCodec, NoopCrashInjector);
    let load = |read: Option<Vec<u8>>| -> Result<Option<Vec<u8>>> { file.finish_load(Ok(read)) };
    let mut write = file.begin_save(&vec![1, 2, 3]).unwrap();
    assert_eq!(write.kind(), kind);
    while write.next().is_some() {
        write.finish_step(Ok(()), file.path(), file.crash_injector()).unwrap();
    }
    let bytes = write.bytes().to_vec();
    assert_eq!(load(Some(bytes.clone())).unwrap(), Some(vec![1, 2, 3]));
    assert_eq!(load(None).unwrap(), None);

    let mut altered = bytes.clone();
    altered[bytes.len() - 1] ^= 1;
    let mut later = bytes;
    later[0] += 1;
    for damaged in [Vec::new(), vec![0; 41], vec![1; 3], altered, later] {
        assert!(matches!(load(Some(damaged)), Err(QuePaxaError::StorageError(_))));
    }
    assert!(matches!(
        file.begin_save(&vec![0; 10]),
        Err(QuePaxaError::ResourceLimit { limit: 40, .. })
    ));
    assert_eq!(
        file.begin_save(&vec![255]).unwrap_err(),
        QuePaxaError::StorageError("unwritable".to_string())
    );
    let denied: Result<Option<Vec<u8>>> = file.finish_load(Err("denied".to_string()));
    assert_eq!(
        denied.unwrap_err(),
        QuePaxaError::StorageError("could not read submission journal j.state: denied".to_string())
    );
}
