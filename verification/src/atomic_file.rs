//! How a snapshot replaces the last one on disk: it goes to a temporary file,
//! is synced there, takes the old file's place, and the directory is synced.
//! The steps are decided here; the caller performs them.

use crate::crash::{CrashInjector, CrashPoint, NoopCrashInjector};
use crate::durable;
use crate::durable::RecorderCodec;
use crate::error;
use crate::error::{ErrorView, QuePaxaError, Result};
use crate::key::Key;
use crate::recorder::{RecorderSnapshot, RecorderState};
use crate::runtime::RuntimeCodec;
use crate::runtime_state::{RuntimeSnapshot, SnapshotView};
use std::marker::PhantomData;
use vstd::prelude::*;
use vstd::string::StringExecFns;

verus! {

/// One step of a write.
#[derive(Debug, Clone, Copy, PartialEq, Eq, Structural)]
pub enum FileAction {
    /// Create the temporary file, empty.
    OpenTemporary,
    /// Write all bytes to it.
    WriteTemporary,
    /// Sync it.
    SyncTemporary,
    /// Rename it over the file.
    Replace,
    /// Sync the directory.
    SyncDirectory,
}

/// What a file holds.
#[derive(Debug, Clone, Copy, PartialEq, Eq, Structural)]
pub enum FileKind {
    Recorder,
    Runtime,
    Batch,
    SubmissionJournal,
    ExactlyOnce,
}

impl FileKind {
    /// What the file is called in refusals.
    pub open spec fn label_text(self) -> Seq<char> {
        match self {
            FileKind::Recorder => "recorder state"@,
            FileKind::Runtime => "runtime state"@,
            FileKind::Batch => "batch snapshot"@,
            FileKind::SubmissionJournal => "submission journal"@,
            FileKind::ExactlyOnce => "exactly-once state"@,
        }
    }

    /// What the file's directory is called in refusals.
    pub open spec fn directory_text(self) -> Seq<char> {
        match self {
            FileKind::Recorder => "recorder state directory"@,
            FileKind::Runtime => "runtime state directory"@,
            FileKind::Batch => "batch directory"@,
            FileKind::SubmissionJournal => "submission journal directory"@,
            FileKind::ExactlyOnce => "exactly-once state directory"@,
        }
    }

    /// The boundary that a step reaches.
    pub open spec fn boundary(self, action: FileAction) -> CrashPoint {
        match (self, action) {
            (FileKind::Recorder, FileAction::OpenTemporary) => CrashPoint::RecorderTemporaryOpened,
            (FileKind::Recorder, FileAction::WriteTemporary) => CrashPoint::RecorderTemporaryWritten,
            (FileKind::Recorder, FileAction::SyncTemporary) => CrashPoint::RecorderTemporarySynced,
            (FileKind::Recorder, FileAction::Replace) => CrashPoint::RecorderRenamed,
            (FileKind::Recorder, FileAction::SyncDirectory) => CrashPoint::RecorderDirectorySynced,
            (FileKind::Runtime, FileAction::OpenTemporary) => CrashPoint::RuntimeTemporaryOpened,
            (FileKind::Runtime, FileAction::WriteTemporary) => CrashPoint::RuntimeTemporaryWritten,
            (FileKind::Runtime, FileAction::SyncTemporary) => CrashPoint::RuntimeTemporarySynced,
            (FileKind::Runtime, FileAction::Replace) => CrashPoint::RuntimeRenamed,
            (FileKind::Runtime, FileAction::SyncDirectory) => CrashPoint::RuntimeDirectorySynced,
            (FileKind::Batch, FileAction::OpenTemporary) => CrashPoint::BatchTemporaryOpened,
            (FileKind::Batch, FileAction::WriteTemporary) => CrashPoint::BatchTemporaryWritten,
            (FileKind::Batch, FileAction::SyncTemporary) => CrashPoint::BatchTemporarySynced,
            (FileKind::Batch, FileAction::Replace) => CrashPoint::BatchRenamed,
            (FileKind::Batch, FileAction::SyncDirectory) => CrashPoint::BatchDirectorySynced,
            (
                FileKind::SubmissionJournal,
                FileAction::OpenTemporary,
            ) => CrashPoint::SubmissionJournalTemporaryOpened,
            (
                FileKind::SubmissionJournal,
                FileAction::WriteTemporary,
            ) => CrashPoint::SubmissionJournalTemporaryWritten,
            (
                FileKind::SubmissionJournal,
                FileAction::SyncTemporary,
            ) => CrashPoint::SubmissionJournalTemporarySynced,
            (FileKind::SubmissionJournal, FileAction::Replace) => CrashPoint::SubmissionJournalRenamed,
            (
                FileKind::SubmissionJournal,
                FileAction::SyncDirectory,
            ) => CrashPoint::SubmissionJournalDirectorySynced,
            (
                FileKind::ExactlyOnce,
                FileAction::OpenTemporary,
            ) => CrashPoint::ExactlyOnceTemporaryOpened,
            (
                FileKind::ExactlyOnce,
                FileAction::WriteTemporary,
            ) => CrashPoint::ExactlyOnceTemporaryWritten,
            (
                FileKind::ExactlyOnce,
                FileAction::SyncTemporary,
            ) => CrashPoint::ExactlyOnceTemporarySynced,
            (FileKind::ExactlyOnce, FileAction::Replace) => CrashPoint::ExactlyOnceRenamed,
            (
                FileKind::ExactlyOnce,
                FileAction::SyncDirectory,
            ) => CrashPoint::ExactlyOnceDirectorySynced,
        }
    }

    /// What the file is called in refusals.
    pub fn label(self) -> (label: &'static str)
        ensures
            label@ == self.label_text(),
    {
        match self {
            FileKind::Recorder => "recorder state",
            FileKind::Runtime => "runtime state",
            FileKind::Batch => "batch snapshot",
            FileKind::SubmissionJournal => "submission journal",
            FileKind::ExactlyOnce => "exactly-once state",
        }
    }

    /// What the file's directory is called in refusals.
    pub fn directory_label(self) -> (label: &'static str)
        ensures
            label@ == self.directory_text(),
    {
        match self {
            FileKind::Recorder => "recorder state directory",
            FileKind::Runtime => "runtime state directory",
            FileKind::Batch => "batch directory",
            FileKind::SubmissionJournal => "submission journal directory",
            FileKind::ExactlyOnce => "exactly-once state directory",
        }
    }

    /// The extension of the temporary file. No two kinds share one, so stores
    /// whose files lie side by side do not overwrite each other's.
    pub fn temporary_extension(self) -> (extension: &'static str)
        ensures
            extension@ == match self {
                FileKind::Recorder => "recorder.tmp"@,
                FileKind::Runtime => "runtime.tmp"@,
                FileKind::Batch => "batches.tmp"@,
                FileKind::SubmissionJournal => "submission-journal.tmp"@,
                FileKind::ExactlyOnce => "exactly-once.tmp"@,
            },
    {
        match self {
            FileKind::Recorder => "recorder.tmp",
            FileKind::Runtime => "runtime.tmp",
            FileKind::Batch => "batches.tmp",
            FileKind::SubmissionJournal => "submission-journal.tmp",
            FileKind::ExactlyOnce => "exactly-once.tmp",
        }
    }

    /// The boundary that a step reaches.
    pub fn crash_point(self, action: FileAction) -> (point: CrashPoint)
        ensures
            point == self.boundary(action),
    {
        match (self, action) {
            (FileKind::Recorder, FileAction::OpenTemporary) => CrashPoint::RecorderTemporaryOpened,
            (FileKind::Recorder, FileAction::WriteTemporary) => CrashPoint::RecorderTemporaryWritten,
            (FileKind::Recorder, FileAction::SyncTemporary) => CrashPoint::RecorderTemporarySynced,
            (FileKind::Recorder, FileAction::Replace) => CrashPoint::RecorderRenamed,
            (FileKind::Recorder, FileAction::SyncDirectory) => CrashPoint::RecorderDirectorySynced,
            (FileKind::Runtime, FileAction::OpenTemporary) => CrashPoint::RuntimeTemporaryOpened,
            (FileKind::Runtime, FileAction::WriteTemporary) => CrashPoint::RuntimeTemporaryWritten,
            (FileKind::Runtime, FileAction::SyncTemporary) => CrashPoint::RuntimeTemporarySynced,
            (FileKind::Runtime, FileAction::Replace) => CrashPoint::RuntimeRenamed,
            (FileKind::Runtime, FileAction::SyncDirectory) => CrashPoint::RuntimeDirectorySynced,
            (FileKind::Batch, FileAction::OpenTemporary) => CrashPoint::BatchTemporaryOpened,
            (FileKind::Batch, FileAction::WriteTemporary) => CrashPoint::BatchTemporaryWritten,
            (FileKind::Batch, FileAction::SyncTemporary) => CrashPoint::BatchTemporarySynced,
            (FileKind::Batch, FileAction::Replace) => CrashPoint::BatchRenamed,
            (FileKind::Batch, FileAction::SyncDirectory) => CrashPoint::BatchDirectorySynced,
            (
                FileKind::SubmissionJournal,
                FileAction::OpenTemporary,
            ) => CrashPoint::SubmissionJournalTemporaryOpened,
            (
                FileKind::SubmissionJournal,
                FileAction::WriteTemporary,
            ) => CrashPoint::SubmissionJournalTemporaryWritten,
            (
                FileKind::SubmissionJournal,
                FileAction::SyncTemporary,
            ) => CrashPoint::SubmissionJournalTemporarySynced,
            (FileKind::SubmissionJournal, FileAction::Replace) => CrashPoint::SubmissionJournalRenamed,
            (
                FileKind::SubmissionJournal,
                FileAction::SyncDirectory,
            ) => CrashPoint::SubmissionJournalDirectorySynced,
            (
                FileKind::ExactlyOnce,
                FileAction::OpenTemporary,
            ) => CrashPoint::ExactlyOnceTemporaryOpened,
            (
                FileKind::ExactlyOnce,
                FileAction::WriteTemporary,
            ) => CrashPoint::ExactlyOnceTemporaryWritten,
            (
                FileKind::ExactlyOnce,
                FileAction::SyncTemporary,
            ) => CrashPoint::ExactlyOnceTemporarySynced,
            (FileKind::ExactlyOnce, FileAction::Replace) => CrashPoint::ExactlyOnceRenamed,
            (
                FileKind::ExactlyOnce,
                FileAction::SyncDirectory,
            ) => CrashPoint::ExactlyOnceDirectorySynced,
        }
    }
}

/// The refusal of a step that failed at a path.
pub open spec fn step_error(
    kind: FileKind,
    action: FileAction,
    place: Seq<char>,
    complaint: Seq<char>,
) -> ErrorView {
    ErrorView::StorageError(
        match action {
            FileAction::OpenTemporary => "could not open "@ + kind.label_text(),
            FileAction::WriteTemporary => "could not write "@ + kind.label_text(),
            FileAction::SyncTemporary => "could not sync "@ + kind.label_text(),
            FileAction::Replace => "could not replace "@ + kind.label_text(),
            FileAction::SyncDirectory => "could not sync "@ + kind.directory_text(),
        } + " "@ + place + ": "@ + complaint,
    )
}

/// The refusal of a file that could not be read.
pub open spec fn read_error(kind: FileKind, place: Seq<char>, complaint: Seq<char>) -> ErrorView {
    ErrorView::StorageError(
        "could not read "@ + kind.label_text() + " "@ + place + ": "@ + complaint,
    )
}

fn describe(verb: &str, label: &str, place: &str, complaint: &str) -> (text: String)
    ensures
        text@ == verb@ + label@ + " "@ + place@ + ": "@ + complaint@,
{
    let mut text: String = String::new();
    text.append(verb);
    text.append(label);
    text.append(" ");
    text.append(place);
    text.append(": ");
    text.append(complaint);
    assert(text@ =~= verb@ + label@ + " "@ + place@ + ": "@ + complaint@);
    text
}

/// The refusal of a step that failed at a path.
pub fn refuse_step(kind: FileKind, action: FileAction, place: &str, complaint: &str) -> (refusal:
    QuePaxaError)
    ensures
        refusal@ == step_error(kind, action, place@, complaint@),
{
    QuePaxaError::StorageError(
        match action {
            FileAction::OpenTemporary => describe(
                "could not open ",
                kind.label(),
                place,
                complaint,
            ),
            FileAction::WriteTemporary => describe(
                "could not write ",
                kind.label(),
                place,
                complaint,
            ),
            FileAction::SyncTemporary => describe(
                "could not sync ",
                kind.label(),
                place,
                complaint,
            ),
            FileAction::Replace => describe("could not replace ", kind.label(), place, complaint),
            FileAction::SyncDirectory => describe(
                "could not sync ",
                kind.directory_label(),
                place,
                complaint,
            ),
        },
    )
}

/// The steps of a write, in order.
pub open spec fn steps() -> Seq<FileAction> {
    seq![
        FileAction::OpenTemporary,
        FileAction::WriteTemporary,
        FileAction::SyncTemporary,
        FileAction::Replace,
        FileAction::SyncDirectory,
    ]
}

/// A write and how many of its steps are done.
#[verifier::ext_equal]
pub struct WriteView {
    pub kind: FileKind,
    pub bytes: Seq<u8>,
    pub done: nat,
}

impl WriteView {
    /// The step that comes next.
    pub open spec fn next(self) -> Option<FileAction> {
        if self.done < 5 {
            Some(steps()[self.done as int])
        } else {
            None
        }
    }

    /// Whether taking in the next step may go like this: how performing it at a
    /// path went, what is returned, and the write after it. A step that failed
    /// ends the write; one that did not is reported to the injector.
    pub open spec fn takes_step<I: CrashInjector>(
        self,
        complaint: Option<Seq<char>>,
        place: Seq<char>,
        injector: &I,
        result: std::result::Result<(), ErrorView>,
        after: Self,
    ) -> bool {
        match complaint {
            Some(complaint) => {
                &&& after == self
                &&& result == Err::<(), ErrorView>(
                    step_error(self.kind, self.next()->0, place, complaint),
                )
            },
            None => {
                &&& after == (WriteView { done: self.done + 1, ..self })
                &&& injector.meets(self.kind.boundary(self.next()->0), result)
            },
        }
    }
}

/// What was wrong with a step, if it failed.
pub open spec fn complaint_of(outcome: std::result::Result<(), String>) -> Option<Seq<char>> {
    match outcome {
        Err(complaint) => Some(complaint@),
        Ok(()) => None,
    }
}

/// What reading a file brought, with its parts as views.
pub open spec fn read_of(
    read: std::result::Result<Option<Vec<u8>>, String>,
) -> std::result::Result<Option<Seq<u8>>, Seq<char>> {
    match read {
        Ok(Some(bytes)) => Ok(Some(bytes@)),
        Ok(None) => Ok(None),
        Err(complaint) => Err(complaint@),
    }
}

/// A write in progress.
#[derive(Debug)]
pub struct DurableWrite {
    kind: FileKind,
    bytes: Vec<u8>,
    done: u8,
}

impl View for DurableWrite {
    type V = WriteView;

    closed spec fn view(&self) -> WriteView {
        WriteView { kind: self.kind, bytes: self.bytes@, done: self.done as nat }
    }
}

impl DurableWrite {
    pub fn new(kind: FileKind, bytes: Vec<u8>) -> (write: Self)
        ensures
            write@ == (WriteView { kind, bytes: bytes@, done: 0 }),
    {
        DurableWrite { kind, bytes, done: 0 }
    }

    pub fn kind(&self) -> (kind: FileKind)
        ensures
            kind == self@.kind,
    {
        self.kind
    }

    /// What the file will hold.
    pub fn bytes(&self) -> (bytes: &[u8])
        ensures
            bytes@ == self@.bytes,
    {
        self.bytes.as_slice()
    }

    /// The step to perform next; none when the write is complete.
    pub fn next(&self) -> (action: Option<FileAction>)
        ensures
            action == self@.next(),
    {
        if self.done == 0 {
            Some(FileAction::OpenTemporary)
        } else if self.done == 1 {
            Some(FileAction::WriteTemporary)
        } else if self.done == 2 {
            Some(FileAction::SyncTemporary)
        } else if self.done == 3 {
            Some(FileAction::Replace)
        } else if self.done == 4 {
            Some(FileAction::SyncDirectory)
        } else {
            None
        }
    }

    /// Takes in how the step went that came next, at which path. A step that
    /// failed ends the write; one that did not is reported to the injector.
    pub fn finish_step<I: CrashInjector>(
        &mut self,
        outcome: std::result::Result<(), String>,
        place: &str,
        injector: &I,
    ) -> (result: Result<()>)
        requires
            old(self)@.next() is Some,
        ensures
            old(self)@.takes_step(
                complaint_of(outcome),
                place@,
                injector,
                error::outcome(result),
                final(self)@,
            ),
    {
        let action: FileAction = match self.next() {
            Some(action) => action,
            None => FileAction::SyncDirectory,
        };
        match outcome {
            Err(complaint) => Err(refuse_step(self.kind, action, place, complaint.as_str())),
            Ok(()) => {
                self.done = self.done + 1;
                injector.reached(self.kind.crash_point(action))
            },
        }
    }
}

/// A file as a crash may leave it.
#[verifier::ext_equal]
pub struct FileView {
    /// What a read finds while the machine runs, none if there is no file.
    pub contents: Option<Seq<u8>>,
    /// What the disk is certain to hold.
    pub durable: Option<Seq<u8>>,
    /// Whether the contents were synced before they took the file's name.
    pub whole: bool,
    pub temporary: Option<Seq<u8>>,
    /// Whether the temporary file was synced since it was written.
    pub synced: bool,
}

impl FileView {
    /// Nothing is on its way to the disk.
    pub open spec fn settled(self) -> bool {
        self.contents == self.durable && self.whole
    }

    /// The file after a step of a write of bytes.
    pub open spec fn after(self, action: FileAction, bytes: Seq<u8>) -> Self {
        match action {
            FileAction::OpenTemporary => FileView {
                temporary: Some(Seq::empty()),
                synced: false,
                ..self
            },
            FileAction::WriteTemporary => FileView {
                temporary: Some(bytes),
                synced: false,
                ..self
            },
            FileAction::SyncTemporary => FileView { synced: true, ..self },
            FileAction::Replace => FileView {
                contents: self.temporary,
                whole: self.synced,
                temporary: None,
                ..self
            },
            FileAction::SyncDirectory => FileView { durable: self.contents, ..self },
        }
    }

    /// The file after the first steps of a write.
    pub open spec fn after_steps(self, bytes: Seq<u8>, count: nat) -> Self
        decreases count,
    {
        if count == 0 {
            self
        } else {
            self.after_steps(bytes, (count - 1) as nat).after(steps()[count - 1], bytes)
        }
    }

    /// Whether a restart after a crash can find this. Until the directory is
    /// synced, either name may have reached the disk; contents that were not
    /// synced may come back as anything.
    pub open spec fn may_survive(self, found: Option<Seq<u8>>) -> bool {
        found == self.durable || (self.whole ==> found == self.contents)
    }
}

/// Wherever a write is cut off, a restart finds the old contents or the new
/// ones, whole. A write that was cut off inside a step changed the temporary
/// file at most, which no restart reads.
pub proof fn crashes_leave_old_or_new(
    file: FileView,
    bytes: Seq<u8>,
    count: nat,
    partial: Option<Seq<u8>>,
    found: Option<Seq<u8>>,
)
    requires
        file.settled(),
        count <= 5,
        (FileView {
            temporary: partial,
            synced: false,
            ..file.after_steps(bytes, count)
        }).may_survive(found) || file.after_steps(bytes, count).may_survive(found),
    ensures
        found == file.contents || found == Some(bytes),
{
    reveal_with_fuel(FileView::after_steps, 6);
}

/// A write that was completed survives any crash.
pub proof fn completed_writes_survive(file: FileView, bytes: Seq<u8>, found: Option<Seq<u8>>)
    requires
        file.settled(),
    ensures
        file.after_steps(bytes, 5).settled(),
        file.after_steps(bytes, 5).contents == Some(bytes),
        file.after_steps(bytes, 5).may_survive(found) ==> found == Some(bytes),
{
    reveal_with_fuel(FileView::after_steps, 6);
}

/// No step reports another step's boundary, nor another store's.
pub proof fn boundaries_are_distinct(a: FileKind, x: FileAction, b: FileKind, y: FileAction)
    ensures
        a.boundary(x) == b.boundary(y) ==> a == b && x == y,
{
}

/// Crash-safe recorder snapshot storage when paired with an application codec.
pub struct FileRecorderStore<V, C, I = NoopCrashInjector> {
    path: String,
    codec: C,
    marker: PhantomData<V>,
    crash_injector: I,
}

impl<V, C> FileRecorderStore<V, C, NoopCrashInjector> {
    pub fn new(path: String, codec: C) -> (store: Self)
        ensures
            store.place() == path@,
            store.coder() == codec,
            store.injector() == NoopCrashInjector,
    {
        FileRecorderStore { path, codec, marker: PhantomData, crash_injector: NoopCrashInjector }
    }
}

impl<V, C, I> FileRecorderStore<V, C, I> {
    /// Where the file lies.
    pub closed spec fn place(&self) -> Seq<char> {
        self.path@
    }

    /// What turns snapshots into bytes.
    pub closed spec fn coder(&self) -> C {
        self.codec
    }

    pub fn path(&self) -> (path: &str)
        ensures
            path@ == self.place(),
    {
        self.path.as_str()
    }

    /// Reports durable-write boundaries to an injector.
    pub fn with_crash_injector<J: CrashInjector>(self, injector: J) -> (store: FileRecorderStore<
        V,
        C,
        J,
    >)
        ensures
            store.place() == self.place(),
            store.coder() == self.coder(),
            store.injector() == injector,
    {
        FileRecorderStore {
            path: self.path,
            codec: self.codec,
            marker: PhantomData,
            crash_injector: injector,
        }
    }

    /// The injector that boundaries are reported to.
    pub closed spec fn injector(&self) -> I {
        self.crash_injector
    }

    /// The injector that boundaries are reported to.
    pub fn crash_injector(&self) -> (injector: &I)
        ensures
            *injector == self.injector(),
    {
        &self.crash_injector
    }
}

impl<V, C: RecorderCodec<V>, I: CrashInjector> FileRecorderStore<V, C, I> {
    /// Whether beginning to save a snapshot may go like this.
    pub open spec fn begins(
        &self,
        state: RecorderState<V>,
        write: std::result::Result<WriteView, ErrorView>,
    ) -> bool {
        match write {
            Ok(write) => {
                &&& write.kind == FileKind::Recorder
                &&& write.done == 0
                &&& self.coder().encodes(state, Ok(write.bytes))
            },
            Err(refusal) => self.coder().encodes(state, Err(refusal)),
        }
    }

    /// Whether what reading the file brought may be taken in like this.
    pub open spec fn restores(
        &self,
        read: std::result::Result<Option<Seq<u8>>, Seq<char>>,
        loaded: std::result::Result<Option<RecorderState<V>>, ErrorView>,
    ) -> bool {
        match read {
            Ok(None) => loaded == Ok::<Option<RecorderState<V>>, ErrorView>(None),
            Ok(Some(bytes)) => match loaded {
                Ok(Some(state)) => self.coder().decodes(bytes, Ok(state)),
                Ok(None) => false,
                Err(refusal) => self.coder().decodes(bytes, Err(refusal)),
            },
            Err(complaint) => loaded == Err::<Option<RecorderState<V>>, ErrorView>(
                read_error(FileKind::Recorder, self.place(), complaint),
            ),
        }
    }

    /// Begins to save a snapshot. What the file will hold is up to the codec,
    /// and so is which snapshots it refuses.
    pub fn begin_save(&self, snapshot: &RecorderSnapshot<V>) -> (write: Result<DurableWrite>)
        ensures
            self.begins(snapshot@, error::outcome(write)),
    {
        match self.codec.encode(snapshot) {
            Ok(bytes) => Ok(DurableWrite::new(FileKind::Recorder, bytes)),
            Err(refusal) => Err(refusal),
        }
    }

    /// Takes in what reading the file brought: nothing where there is none.
    /// What the bytes of a file stand for is up to the codec.
    pub fn finish_load(&self, read: std::result::Result<Option<Vec<u8>>, String>) -> (loaded: Result<
        Option<RecorderSnapshot<V>>,
    >)
        ensures
            self.restores(read_of(read), durable::load_outcome(loaded)),
    {
        match read {
            Ok(None) => Ok(None),
            Ok(Some(bytes)) => match self.codec.decode(bytes.as_slice()) {
                Ok(snapshot) => Ok(Some(snapshot)),
                Err(refusal) => Err(refusal),
            },
            Err(complaint) => Err(
                refuse_read(FileKind::Recorder, self.path.as_str(), complaint.as_str()),
            ),
        }
    }
}

/// The refusal of a file that could not be read.
pub fn refuse_read(kind: FileKind, place: &str, complaint: &str) -> (refusal: QuePaxaError)
    ensures
        refusal@ == read_error(kind, place@, complaint@),
{
    QuePaxaError::StorageError(describe("could not read ", kind.label(), place, complaint))
}

/// A crash-safe file store when paired with an application-provided codec.
pub struct FileRuntimeStore<V, C, I = NoopCrashInjector> {
    path: String,
    codec: C,
    marker: PhantomData<V>,
    crash_injector: I,
}

impl<V, C> FileRuntimeStore<V, C, NoopCrashInjector> {
    pub fn new(path: String, codec: C) -> (store: Self)
        ensures
            store.place() == path@,
            store.coder() == codec,
            store.injector() == NoopCrashInjector,
    {
        FileRuntimeStore { path, codec, marker: PhantomData, crash_injector: NoopCrashInjector }
    }
}

impl<V, C, I> FileRuntimeStore<V, C, I> {
    /// Where the file lies.
    pub closed spec fn place(&self) -> Seq<char> {
        self.path@
    }

    /// What turns snapshots into bytes.
    pub closed spec fn coder(&self) -> C {
        self.codec
    }

    pub fn path(&self) -> (path: &str)
        ensures
            path@ == self.place(),
    {
        self.path.as_str()
    }

    /// Reports durable-write boundaries to an injector.
    pub fn with_crash_injector<J: CrashInjector>(self, injector: J) -> (store: FileRuntimeStore<
        V,
        C,
        J,
    >)
        ensures
            store.place() == self.place(),
            store.coder() == self.coder(),
            store.injector() == injector,
    {
        FileRuntimeStore {
            path: self.path,
            codec: self.codec,
            marker: PhantomData,
            crash_injector: injector,
        }
    }

    /// The injector that boundaries are reported to.
    pub closed spec fn injector(&self) -> I {
        self.crash_injector
    }

    /// The injector that boundaries are reported to.
    pub fn crash_injector(&self) -> (injector: &I)
        ensures
            *injector == self.injector(),
    {
        &self.crash_injector
    }
}

impl<V: Key, C: RuntimeCodec<V>, I: CrashInjector> FileRuntimeStore<V, C, I> {
    /// Whether beginning to save a snapshot may go like this.
    pub open spec fn begins(
        &self,
        state: SnapshotView<V>,
        write: std::result::Result<WriteView, ErrorView>,
    ) -> bool {
        match write {
            Ok(write) => {
                &&& write.kind == FileKind::Runtime
                &&& write.done == 0
                &&& self.coder().encodes(state, Ok(write.bytes))
            },
            Err(refusal) => self.coder().encodes(state, Err(refusal)),
        }
    }

    /// Whether what reading the file brought may be taken in like this.
    pub open spec fn restores(
        &self,
        read: std::result::Result<Option<Seq<u8>>, Seq<char>>,
        loaded: std::result::Result<Option<SnapshotView<V>>, ErrorView>,
    ) -> bool {
        match read {
            Ok(None) => loaded == Ok::<Option<SnapshotView<V>>, ErrorView>(None),
            Ok(Some(bytes)) => match loaded {
                Ok(Some(state)) => self.coder().decodes(bytes, Ok(state)),
                Ok(None) => false,
                Err(refusal) => self.coder().decodes(bytes, Err(refusal)),
            },
            Err(complaint) => loaded == Err::<Option<SnapshotView<V>>, ErrorView>(
                read_error(FileKind::Runtime, self.place(), complaint),
            ),
        }
    }

    /// Begins to save a snapshot. What the file will hold is up to the codec,
    /// and so is which snapshots it refuses.
    pub fn begin_save(&self, snapshot: &RuntimeSnapshot<V>) -> (write: Result<DurableWrite>)
        ensures
            self.begins(snapshot@, error::outcome(write)),
    {
        match self.codec.encode(snapshot) {
            Ok(bytes) => Ok(DurableWrite::new(FileKind::Runtime, bytes)),
            Err(refusal) => Err(refusal),
        }
    }

    /// Takes in what reading the file brought: nothing where there is none.
    /// What the bytes of a file stand for is up to the codec.
    pub fn finish_load(&self, read: std::result::Result<Option<Vec<u8>>, String>) -> (loaded: Result<
        Option<RuntimeSnapshot<V>>,
    >)
        ensures
            self.restores(read_of(read), durable::load_outcome(loaded)),
    {
        match read {
            Ok(None) => Ok(None),
            Ok(Some(bytes)) => match self.codec.decode(bytes.as_slice()) {
                Ok(snapshot) => Ok(Some(snapshot)),
                Err(refusal) => Err(refusal),
            },
            Err(complaint) => Err(
                refuse_read(FileKind::Runtime, self.path.as_str(), complaint.as_str()),
            ),
        }
    }
}

} // verus!
