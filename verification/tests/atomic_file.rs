use rust_quepaxa::atomic_file::{refuse_read, DurableWrite, FileAction, FileKind};
use rust_quepaxa::{
    ClusterIdentity, CrashInjector, CrashPoint, FileRecorderStore, NoopCrashInjector, OrdMap,
    QuePaxaError, RecorderCodec, RecorderSnapshot, ReplicaId, Result, SlotIndex,
};
use std::cell::RefCell;

#[derive(Default, Clone)]
struct Directory {
    file: Option<Vec<u8>>,
    temporary: Option<Vec<u8>>,
}

impl Directory {
    fn perform(&mut self, write: &DurableWrite, action: FileAction) {
        match action {
            FileAction::OpenTemporary => self.temporary = Some(Vec::new()),
            FileAction::WriteTemporary => self.temporary = Some(write.bytes().to_vec()),
            FileAction::SyncTemporary | FileAction::SyncDirectory => {}
            FileAction::Replace => self.file = self.temporary.take(),
        }
    }

    fn save<I: CrashInjector>(&mut self, kind: FileKind, bytes: &[u8], injector: &I) -> Result<()> {
        let mut write = DurableWrite::new(kind, bytes.to_vec());
        while let Some(action) = write.next() {
            self.perform(&write, action);
            write.finish_step(Ok(()), "store.state", injector)?;
        }
        Ok(())
    }
}

struct StopAt(CrashPoint, RefCell<Vec<CrashPoint>>);

impl CrashInjector for StopAt {
    fn reached(&self, point: CrashPoint) -> Result<()> {
        self.1.borrow_mut().push(point);
        if point == self.0 {
            Err(QuePaxaError::StorageError("stopped".to_string()))
        } else {
            Ok(())
        }
    }
}

const KINDS: [(FileKind, [CrashPoint; 5]); 5] = [
    (
        FileKind::Recorder,
        [
            CrashPoint::RecorderTemporaryOpened,
            CrashPoint::RecorderTemporaryWritten,
            CrashPoint::RecorderTemporarySynced,
            CrashPoint::RecorderRenamed,
            CrashPoint::RecorderDirectorySynced,
        ],
    ),
    (
        FileKind::Runtime,
        [
            CrashPoint::RuntimeTemporaryOpened,
            CrashPoint::RuntimeTemporaryWritten,
            CrashPoint::RuntimeTemporarySynced,
            CrashPoint::RuntimeRenamed,
            CrashPoint::RuntimeDirectorySynced,
        ],
    ),
    (
        FileKind::Batch,
        [
            CrashPoint::BatchTemporaryOpened,
            CrashPoint::BatchTemporaryWritten,
            CrashPoint::BatchTemporarySynced,
            CrashPoint::BatchRenamed,
            CrashPoint::BatchDirectorySynced,
        ],
    ),
    (
        FileKind::SubmissionJournal,
        [
            CrashPoint::SubmissionJournalTemporaryOpened,
            CrashPoint::SubmissionJournalTemporaryWritten,
            CrashPoint::SubmissionJournalTemporarySynced,
            CrashPoint::SubmissionJournalRenamed,
            CrashPoint::SubmissionJournalDirectorySynced,
        ],
    ),
    (
        FileKind::ExactlyOnce,
        [
            CrashPoint::ExactlyOnceTemporaryOpened,
            CrashPoint::ExactlyOnceTemporaryWritten,
            CrashPoint::ExactlyOnceTemporarySynced,
            CrashPoint::ExactlyOnceRenamed,
            CrashPoint::ExactlyOnceDirectorySynced,
        ],
    ),
];

#[test]
fn a_stop_at_any_boundary_leaves_the_old_or_the_new_file() {
    for (kind, points) in KINDS {
        for (place, point) in points.into_iter().enumerate() {
            let mut directory = Directory::default();
            directory.save(kind, b"old", &NoopCrashInjector).unwrap();
            let injector = StopAt(point, RefCell::new(Vec::new()));
            assert!(directory.save(kind, b"new", &injector).is_err());
            assert_eq!(*injector.1.borrow(), points[..=place].to_vec());
            let expected: &[u8] = if place < 3 { b"old" } else { b"new" };
            assert_eq!(directory.file.as_deref(), Some(expected));
        }
    }
}

#[test]
fn a_completed_write_replaced_the_file() {
    let mut directory = Directory::default();
    directory
        .save(FileKind::Batch, b"one", &NoopCrashInjector)
        .unwrap();
    directory
        .save(FileKind::Batch, b"two", &NoopCrashInjector)
        .unwrap();
    assert_eq!(directory.file.as_deref(), Some(&b"two"[..]));
    assert_eq!(directory.temporary, None);
}

#[test]
fn failed_steps_name_what_failed() {
    let failing = |steps: usize, kind: FileKind| {
        let mut write = DurableWrite::new(kind, vec![1]);
        for _ in 0..steps {
            write.finish_step(Ok(()), "p", &NoopCrashInjector).unwrap();
        }
        let before = write.next();
        let refusal = write
            .finish_step(Err("disk full".to_string()), "p", &NoopCrashInjector)
            .unwrap_err();
        assert_eq!(write.next(), before);
        refusal
    };
    let storage = |text: &str| QuePaxaError::StorageError(text.to_string());
    assert_eq!(
        failing(0, FileKind::Recorder),
        storage("could not open recorder state p: disk full")
    );
    assert_eq!(
        failing(1, FileKind::Runtime),
        storage("could not write runtime state p: disk full")
    );
    assert_eq!(
        failing(2, FileKind::ExactlyOnce),
        storage("could not sync exactly-once state p: disk full")
    );
    assert_eq!(
        failing(3, FileKind::SubmissionJournal),
        storage("could not replace submission journal p: disk full")
    );
    assert_eq!(
        failing(4, FileKind::Batch),
        storage("could not sync batch directory p: disk full")
    );
    assert_eq!(
        refuse_read(FileKind::Batch, "p", "denied"),
        storage("could not read batch snapshot p: denied")
    );
    assert_eq!(FileKind::Recorder.temporary_extension(), "recorder.tmp");
    assert_eq!(FileKind::Batch.temporary_extension(), "batches.tmp");
}

struct FloorCodec;

impl RecorderCodec<u64> for FloorCodec {
    fn encode(&self, snapshot: &RecorderSnapshot<u64>) -> Result<Vec<u8>> {
        Ok(snapshot.pruned_through.get().to_be_bytes().to_vec())
    }

    fn decode(&self, bytes: &[u8]) -> Result<RecorderSnapshot<u64>> {
        let mut floor = [0u8; 8];
        floor.copy_from_slice(bytes);
        Ok(snapshot(u64::from_be_bytes(floor)))
    }
}

fn snapshot(floor: u64) -> RecorderSnapshot<u64> {
    RecorderSnapshot {
        cluster: ClusterIdentity::new(vec![ReplicaId::new(1)], 0).unwrap(),
        slots: OrdMap::new(),
        round_one_leaders: OrdMap::new(),
        decisions: OrdMap::new(),
        pruned_through: SlotIndex::new(floor),
    }
}

#[test]
fn recorder_files_are_read_as_they_were_written() {
    let store = FileRecorderStore::new("r.state".to_string(), FloorCodec);
    assert_eq!(store.path(), "r.state");
    let mut directory = Directory::default();
    let mut write = store.begin_save(&snapshot(7)).unwrap();
    assert_eq!(write.kind(), FileKind::Recorder);
    while let Some(action) = write.next() {
        directory.perform(&write, action);
        write
            .finish_step(Ok(()), store.path(), store.crash_injector())
            .unwrap();
    }
    assert_eq!(
        store.finish_load(Ok(directory.file)).unwrap(),
        Some(snapshot(7))
    );
    assert_eq!(store.finish_load(Ok(None)).unwrap(), None);
    assert_eq!(
        store.finish_load(Err("denied".to_string())).unwrap_err(),
        QuePaxaError::StorageError("could not read recorder state r.state: denied".to_string())
    );
    let stopping = store.with_crash_injector(StopAt(
        CrashPoint::RecorderTemporaryOpened,
        RefCell::new(Vec::new()),
    ));
    let mut write = stopping.begin_save(&snapshot(8)).unwrap();
    assert!(write
        .finish_step(Ok(()), stopping.path(), stopping.crash_injector())
        .is_err());
}

#[derive(Default)]
struct Recording(RefCell<Vec<CrashPoint>>);

impl CrashInjector for Recording {
    fn reached(&self, point: CrashPoint) -> Result<()> {
        self.0.borrow_mut().push(point);
        Ok(())
    }
}

fn save_recorder<I: CrashInjector>(
    directory: &mut Directory,
    store: &FileRecorderStore<u64, FloorCodec, I>,
    floor: u64,
) -> Result<()> {
    let mut write = store.begin_save(&snapshot(floor))?;
    while let Some(action) = write.next() {
        directory.perform(&write, action);
        write.finish_step(Ok(()), store.path(), store.crash_injector())?;
    }
    Ok(())
}

#[test]
fn a_save_reports_its_boundaries_in_order_and_is_loaded_again() {
    let points = KINDS[0].1;
    let mut directory = Directory::default();
    let store = FileRecorderStore::new("r.state".to_string(), FloorCodec)
        .with_crash_injector(Recording::default());
    save_recorder(&mut directory, &store, 7).unwrap();
    assert_eq!(*store.crash_injector().0.borrow(), points.to_vec());
    assert_eq!(
        store.finish_load(Ok(directory.file.clone())).unwrap(),
        Some(snapshot(7))
    );
    for (place, point) in points.into_iter().enumerate() {
        let mut stopped = directory.clone();
        let store = FileRecorderStore::new("r.state".to_string(), FloorCodec)
            .with_crash_injector(StopAt(point, RefCell::new(Vec::new())));
        assert!(save_recorder(&mut stopped, &store, 8).is_err());
        let expected = if place < 3 { 7 } else { 8 };
        assert_eq!(
            store.finish_load(Ok(stopped.file)).unwrap(),
            Some(snapshot(expected))
        );
    }
}
