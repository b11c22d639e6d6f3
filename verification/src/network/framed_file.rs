//! Snapshot files whose bytes are framed within a bound: how a value is saved,
//! and how a file is read back.

use crate::atomic_file;
use crate::atomic_file::{refuse_read, DurableWrite, FileKind, FileView, WriteView};
use crate::crash::{CrashInjector, NoopCrashInjector};
use crate::digest;
use crate::durable;
use crate::error;
use crate::error::{ErrorView, Result};
use crate::network::batch;
use crate::network::batch::BatchFrame;
use crate::network::dedupe;
use crate::network::dedupe::DedupeFrame;
use crate::network::durability::SnapshotCodec;
use crate::network::envelope;
use crate::save_course;
use crate::save_course::SaveStep;
use vstd::prelude::*;

verus! {

/// Turns serialized snapshots into the bytes of a file and back.
pub trait SnapshotFrame {
    /// The bytes of a file that holds a serialized snapshot.
    spec fn written(&self, payload: Seq<u8>) -> std::result::Result<Seq<u8>, ErrorView>;

    /// The serialized snapshot that a file's bytes hold.
    spec fn held(&self, bytes: Seq<u8>) -> std::result::Result<Seq<u8>, ErrorView>;

    /// What was written is held.
    proof fn written_is_held(&self, payload: Seq<u8>)
        requires
            payload.len() <= usize::MAX,
            self.written(payload) is Ok,
        ensures
            self.held(self.written(payload)->Ok_0) == Ok::<Seq<u8>, ErrorView>(payload),
    ;

    fn pack(&self, payload: &[u8]) -> (bytes: Result<Vec<u8>>)
        ensures
            error::outcome(bytes) == self.written(payload@),
    ;

    fn unpack(&self, bytes: &[u8]) -> (payload: Result<Vec<u8>>)
        ensures
            error::outcome(payload) == self.held(bytes@),
    ;
}

impl SnapshotFrame for BatchFrame {
    open spec fn written(&self, payload: Seq<u8>) -> std::result::Result<Seq<u8>, ErrorView> {
        batch::framed(payload, self.limit())
    }

    open spec fn held(&self, bytes: Seq<u8>) -> std::result::Result<Seq<u8>, ErrorView> {
        batch::unframed(bytes, self.limit())
    }

    proof fn written_is_held(&self, payload: Seq<u8>) {
        batch::framed_batches_are_read_back(payload, self.limit());
    }

    fn pack(&self, payload: &[u8]) -> (bytes: Result<Vec<u8>>) {
        self.encode(payload)
    }

    fn unpack(&self, bytes: &[u8]) -> (payload: Result<Vec<u8>>) {
        self.decode(bytes)
    }
}

impl SnapshotFrame for DedupeFrame {
    open spec fn written(&self, payload: Seq<u8>) -> std::result::Result<Seq<u8>, ErrorView> {
        dedupe::framed(payload, self.limit())
    }

    open spec fn held(&self, bytes: Seq<u8>) -> std::result::Result<Seq<u8>, ErrorView> {
        dedupe::unframed(self.name(), bytes, self.limit())
    }

    proof fn written_is_held(&self, payload: Seq<u8>) {
        dedupe::framed_snapshots_are_read_back(self.name(), payload, self.limit());
    }

    fn pack(&self, payload: &[u8]) -> (bytes: Result<Vec<u8>>) {
        self.encode(payload)
    }

    fn unpack(&self, bytes: &[u8]) -> (payload: Result<Vec<u8>>) {
        self.decode(bytes)
    }
}

/// A file of framed snapshots.
pub struct FramedFile<F, C, I = NoopCrashInjector> {
    path: String,
    kind: FileKind,
    frame: F,
    codec: C,
    crash_injector: I,
}

impl<F, C, I> FramedFile<F, C, I> {
    /// Where the file lies.
    pub closed spec fn place(&self) -> Seq<char> {
        self.path@
    }

    /// What the file holds.
    pub closed spec fn sort(&self) -> FileKind {
        self.kind
    }

    /// What frames the bytes.
    pub closed spec fn framing(&self) -> F {
        self.frame
    }

    /// What turns values into bytes.
    pub closed spec fn coder(&self) -> C {
        self.codec
    }

    /// The injector that boundaries are reported to.
    pub closed spec fn injector(&self) -> I {
        self.crash_injector
    }

    pub fn new(path: String, kind: FileKind, frame: F, codec: C, crash_injector: I) -> (file: Self)
        ensures
            file.place() == path@,
            file.sort() == kind,
            file.framing() == frame,
            file.coder() == codec,
            file.injector() == crash_injector,
    {
        FramedFile { path, kind, frame, codec, crash_injector }
    }

    pub fn path(&self) -> (path: &str)
        ensures
            path@ == self.place(),
    {
        self.path.as_str()
    }

    /// The injector that boundaries are reported to.
    pub fn crash_injector(&self) -> (injector: &I)
        ensures
            *injector == self.injector(),
    {
        &self.crash_injector
    }
}

impl<F: SnapshotFrame, C, I> FramedFile<F, C, I> {
    /// Whether beginning to save a value may go like this: the codec refuses the
    /// value, or the frame refuses the codec's bytes, or they are written.
    pub open spec fn begins<T: View>(
        &self,
        value: T::V,
        write: std::result::Result<WriteView, ErrorView>,
    ) -> bool where C: SnapshotCodec<T> {
        match write {
            Ok(write) => {
                &&& write.kind == self.sort()
                &&& write.done == 0
                &&& exists|payload: Seq<u8>|
                    payload.len() <= usize::MAX && #[trigger] self.coder().encodes(
                        value,
                        Ok(payload),
                    ) && self.framing().written(payload) == Ok::<Seq<u8>, ErrorView>(write.bytes)
            },
            Err(refusal) => self.coder().encodes(value, Err(refusal)) || exists|payload: Seq<u8>|
                #[trigger] self.coder().encodes(value, Ok(payload)) && self.framing().written(
                    payload,
                ) == Err::<Seq<u8>, ErrorView>(refusal),
        }
    }

    /// Whether what reading the file brought may be taken in like this. Nothing
    /// is found where there is no file, and bytes that the frame refuses are
    /// refused; what others stand for is up to the codec.
    pub open spec fn restores<T: View>(
        &self,
        read: std::result::Result<Option<Seq<u8>>, Seq<char>>,
        loaded: std::result::Result<Option<T::V>, ErrorView>,
    ) -> bool where C: SnapshotCodec<T> {
        match read {
            Ok(None) => loaded == Ok::<Option<T::V>, ErrorView>(None),
            Ok(Some(bytes)) => match self.framing().held(bytes) {
                Ok(payload) => match loaded {
                    Ok(Some(value)) => self.coder().decodes(payload, Ok(value)),
                    Ok(None) => false,
                    Err(refusal) => self.coder().decodes(payload, Err(refusal)),
                },
                Err(refusal) => loaded == Err::<Option<T::V>, ErrorView>(refusal),
            },
            Err(complaint) => loaded == Err::<Option<T::V>, ErrorView>(
                atomic_file::read_error(self.sort(), self.place(), complaint),
            ),
        }
    }

    /// Begins to save a value.
    pub fn begin_save<T: View>(&self, value: &T) -> (write: Result<DurableWrite>) where
        C: SnapshotCodec<T>,

        ensures
            self.begins::<T>(value@, error::outcome(write)),
    {
        let payload: Vec<u8> = match self.codec.encode(value) {
            Ok(payload) => payload,
            Err(refusal) => return Err(refusal),
        };
        assert(self.coder().encodes(value@, Ok(payload@)) && payload.len() == payload@.len());
        match self.frame.pack(payload.as_slice()) {
            Ok(bytes) => Ok(DurableWrite::new(self.kind, bytes)),
            Err(refusal) => Err(refusal),
        }
    }

    /// Takes in what reading the file brought.
    pub fn finish_load<T: View>(
        &self,
        read: std::result::Result<Option<Vec<u8>>, String>,
    ) -> (loaded: Result<Option<T>>) where C: SnapshotCodec<T>
        ensures
            self.restores::<T>(atomic_file::read_of(read), durable::load_outcome(loaded)),
    {
        match read {
            Ok(None) => Ok(None),
            Ok(Some(bytes)) => match self.frame.unpack(bytes.as_slice()) {
                Ok(payload) => match self.codec.decode(payload.as_slice()) {
                    Ok(value) => Ok(Some(value)),
                    Err(refusal) => Err(refusal),
                },
                Err(refusal) => Err(refusal),
            },
            Err(complaint) => Err(
                refuse_read(self.kind, self.path.as_str(), complaint.as_str()),
            ),
        }
    }
}

/// Whether a codec reads back what it wrote.
pub open spec fn codec_is_faithful<T: View, C: SnapshotCodec<T>>(codec: C) -> bool {
    forall|value: T::V, payload: Seq<u8>, decoded: std::result::Result<T::V, ErrorView>|
        #[trigger] codec.encodes(value, Ok(payload)) && #[trigger] codec.decodes(payload, decoded)
            ==> decoded == Ok::<T::V, ErrorView>(value)
}

/// Whether a file holds a value as it was saved, or is missing where there is
/// none.
pub open spec fn holds_saved<T: View, F: SnapshotFrame, C: SnapshotCodec<T>, I>(
    file: &FramedFile<F, C, I>,
    contents: Option<Seq<u8>>,
    value: Option<T::V>,
) -> bool {
    match (contents, value) {
        (Some(bytes), Some(value)) => exists|write: WriteView| #[trigger]
            file.begins::<T>(value, Ok(write)) && write.bytes == bytes,
        (None, None) => true,
        _ => false,
    }
}

/// What was saved is read back.
proof fn lemma_saved_is_restored<T: View, F: SnapshotFrame, C: SnapshotCodec<T>, I>(
    file: &FramedFile<F, C, I>,
    value: T::V,
    write: WriteView,
    loaded: std::result::Result<Option<T::V>, ErrorView>,
)
    requires
        codec_is_faithful::<T, C>(file.coder()),
        file.begins::<T>(value, Ok(write)),
        file.restores::<T>(Ok(Some(write.bytes)), loaded),
    ensures
        loaded == Ok::<Option<T::V>, ErrorView>(Some(value)),
{
    let payload = choose|payload: Seq<u8>|
        payload.len() <= usize::MAX && #[trigger] file.coder().encodes(value, Ok(payload))
            && file.framing().written(payload) == Ok::<Seq<u8>, ErrorView>(write.bytes);
    file.framing().written_is_held(payload);
    assert(file.framing().held(write.bytes) == Ok::<Seq<u8>, ErrorView>(payload));
}

/// However far the save of a framed snapshot came, loading gives the earlier
/// value or the new one: the new one after a save that succeeded, the earlier one
/// after a save that was stopped at one of the first three boundaries.
pub proof fn framed_saves_are_all_or_nothing<
    T: View,
    F: SnapshotFrame,
    C: SnapshotCodec<T>,
    I: CrashInjector,
>(
    store: &FramedFile<F, C, I>,
    earlier: Option<T::V>,
    next: T::V,
    file: FileView,
    begun: WriteView,
    taken: Seq<SaveStep>,
    left: FileView,
    found: Option<Seq<u8>>,
    loaded: std::result::Result<Option<T::V>, ErrorView>,
)
    requires
        codec_is_faithful::<T, C>(store.coder()),
        file.settled(),
        holds_saved::<T, F, C, I>(store, file.contents, earlier),
        store.begins::<T>(next, Ok(begun)),
        save_course::is_save(begun, taken, &store.injector()),
        save_course::may_leave(file, begun.bytes, save_course::performed(taken), left),
        save_course::may_read(left, found),
        store.restores::<T>(Ok(found), loaded),
    ensures
        loaded == Ok::<Option<T::V>, ErrorView>(earlier) || loaded == Ok::<
            Option<T::V>,
            ErrorView,
        >(Some(next)),
        save_course::succeeded(begun, taken) ==> {
            &&& save_course::reported(begun, taken) == save_course::boundaries(store.sort())
            &&& loaded == Ok::<Option<T::V>, ErrorView>(Some(next))
        },
        save_course::stopped_early(file, begun.bytes, taken, left) ==> loaded == Ok::<
            Option<T::V>,
            ErrorView,
        >(earlier),
{
    save_course::saves_are_all_or_nothing(file, begun, taken, &store.injector(), left, found);
    if found == Some(begun.bytes) {
        lemma_saved_is_restored::<T, F, C, I>(store, next, begun, loaded);
    }
    if found == file.contents && earlier is Some {
        let write = choose|write: WriteView| #[trigger]
            store.begins::<T>(earlier->0, Ok(write)) && write.bytes == file.contents->0;
        lemma_saved_is_restored::<T, F, C, I>(store, earlier->0, write, loaded);
    }
}

/// Whether bytes are no deduplication snapshot within a bound: too few or too
/// many, no envelope, of another version, or with a digest of something else.
pub open spec fn is_damaged(bytes: Seq<u8>, limit: usize) -> bool {
    ||| bytes.len() == 0
    ||| bytes.len() > limit
    ||| match envelope::parsed_envelope(bytes) {
        Ok((version, checksum, payload)) => version != dedupe::DEDUPE_STORAGE_VERSION || checksum
            != digest::sha256(payload)@,
        Err(_) => true,
    }
}

/// A deduplication file that is empty or larger than the bound, of another
/// version, altered or no envelope at all is refused as unreadable storage; a
/// missing one is found empty.
pub proof fn damaged_files_are_refused<T: View, C: SnapshotCodec<T>, I>(
    store: &FramedFile<DedupeFrame, C, I>,
    contents: Option<Seq<u8>>,
    loaded: std::result::Result<Option<T::V>, ErrorView>,
)
    requires
        store.restores::<T>(Ok(contents), loaded),
    ensures
        match contents {
            Some(bytes) => is_damaged(bytes, store.framing().limit()) ==> (loaded matches Err(
                ErrorView::StorageError(_),
            )),
            None => loaded == Ok::<Option<T::V>, ErrorView>(None),
        },
{
}

} // verus!
