//! Laws of whole saves and of what is read back after them, however far a save
//! came.

use crate::atomic_file;
use crate::atomic_file::{FileKind, FileRecorderStore, FileRuntimeStore, FileView, WriteView};
use crate::crash::{CrashInjector, CrashPoint};
use crate::durable::RecorderCodec;
use crate::error::ErrorView;
use crate::key::Key;
use crate::recorder::RecorderState;
use crate::runtime::RuntimeCodec;
use crate::runtime_state::SnapshotView;
use vstd::prelude::*;

verus! {

/// One step of a save: what was wrong with performing it at a path, if
/// anything, what came back of it, and the write after it.
pub struct SaveStep {
    pub complaint: Option<Seq<char>>,
    pub place: Seq<char>,
    pub result: std::result::Result<(), ErrorView>,
    pub after: WriteView,
}

/// The write before one of the steps.
pub open spec fn before_step(begun: WriteView, taken: Seq<SaveStep>, i: int) -> WriteView {
    if i == 0 {
        begun
    } else {
        taken[i - 1].after
    }
}

/// Whether these are the steps of a save, from its beginning to where it was
/// completed or cut off. Nothing follows a step that was refused.
pub open spec fn is_save<I: CrashInjector>(
    begun: WriteView,
    taken: Seq<SaveStep>,
    injector: &I,
) -> bool {
    &&& begun.done == 0
    &&& forall|i: int|
        0 <= i < taken.len() ==> {
            &&& before_step(begun, taken, i).next() is Some
            &&& before_step(begun, taken, i).takes_step(
                (#[trigger] taken[i]).complaint,
                taken[i].place,
                injector,
                taken[i].result,
                taken[i].after,
            )
            &&& i + 1 < taken.len() ==> taken[i].result is Ok
        }
}

/// How many steps were performed.
pub open spec fn performed(taken: Seq<SaveStep>) -> nat {
    if taken.len() > 0 && taken.last().complaint is Some {
        (taken.len() - 1) as nat
    } else {
        taken.len()
    }
}

/// Whether a save came to its end without a refusal.
pub open spec fn succeeded(begun: WriteView, taken: Seq<SaveStep>) -> bool {
    &&& before_step(begun, taken, taken.len() as int).next() is None
    &&& taken.len() > 0 && taken.last().result is Ok
}

/// The boundaries that a save reported, in order.
pub open spec fn reported(begun: WriteView, taken: Seq<SaveStep>) -> Seq<CrashPoint> {
    Seq::new(
        performed(taken),
        |i: int| begun.kind.boundary(before_step(begun, taken, i).next()->0),
    )
}

/// The boundaries of a kind of file, in the order of a write's steps.
pub open spec fn boundaries(kind: FileKind) -> Seq<CrashPoint> {
    Seq::new(5, |i: int| kind.boundary(atomic_file::steps()[i]))
}

/// Whether a write that performed so many steps may leave a file like this: at
/// the boundary that it reached, after the next step, or in the middle of it.
pub open spec fn may_leave(file: FileView, bytes: Seq<u8>, count: nat, left: FileView) -> bool {
    let reached = file.after_steps(bytes, count);
    ||| left == reached
    ||| count < 5 && left == file.after_steps(bytes, count + 1)
    ||| left == FileView { temporary: left.temporary, synced: false, ..reached }
}

/// Whether reading a file may find this: what it holds while the machine runs,
/// or what a crash lets survive.
pub open spec fn may_read(file: FileView, found: Option<Seq<u8>>) -> bool {
    found == file.contents || file.may_survive(found)
}

/// Whether a save was cut off before the new file could take the old one's
/// name: while the temporary file was made, or at the boundary after it.
pub open spec fn stopped_early(
    file: FileView,
    bytes: Seq<u8>,
    taken: Seq<SaveStep>,
    left: FileView,
) -> bool {
    performed(taken) < 3 || (performed(taken) == 3 && left == file.after_steps(bytes, 3))
}

/// The steps of a save are the steps of a write, in order.
proof fn lemma_steps_in_order<I: CrashInjector>(
    begun: WriteView,
    taken: Seq<SaveStep>,
    injector: &I,
    i: int,
)
    requires
        is_save(begun, taken, injector),
        0 <= i <= performed(taken),
    ensures
        before_step(begun, taken, i) == (WriteView { done: i as nat, ..begun }),
        i <= 5,
    decreases i,
{
    if i > 0 {
        lemma_steps_in_order(begun, taken, injector, i - 1);
        let step = taken[i - 1];
        assert(step.complaint is None) by {
            if i < taken.len() {
                assert(step.result is Ok);
            }
        }
    }
}

/// The file after each step of a write.
proof fn lemma_steps_unfold(file: FileView, bytes: Seq<u8>)
    ensures
        file.after_steps(bytes, 0) == file,
        file.after_steps(bytes, 1) == (FileView {
            temporary: Some(Seq::empty()),
            synced: false,
            ..file
        }),
        file.after_steps(bytes, 2) == (FileView { temporary: Some(bytes), synced: false, ..file }),
        file.after_steps(bytes, 3) == (FileView { temporary: Some(bytes), synced: true, ..file }),
        file.after_steps(bytes, 4) == (FileView {
            contents: Some(bytes),
            whole: true,
            temporary: None,
            synced: true,
            ..file
        }),
        file.after_steps(bytes, 5) == (FileView {
            contents: Some(bytes),
            durable: Some(bytes),
            whole: true,
            temporary: None,
            synced: true,
        }),
{
    assert(file.after_steps(bytes, 0) == file);
    assert(file.after_steps(bytes, 1) == file.after(atomic_file::steps()[0], bytes));
    assert(file.after_steps(bytes, 2) == file.after_steps(bytes, 1).after(
        atomic_file::steps()[1],
        bytes,
    ));
    assert(file.after_steps(bytes, 3) == file.after_steps(bytes, 2).after(
        atomic_file::steps()[2],
        bytes,
    ));
    assert(file.after_steps(bytes, 4) == file.after_steps(bytes, 3).after(
        atomic_file::steps()[3],
        bytes,
    ));
    assert(file.after_steps(bytes, 5) == file.after_steps(bytes, 4).after(
        atomic_file::steps()[4],
        bytes,
    ));
}

/// What a write leaves, however far it came.
proof fn lemma_left_file(
    file: FileView,
    bytes: Seq<u8>,
    count: nat,
    left: FileView,
    found: Option<Seq<u8>>,
)
    requires
        file.whole,
        count <= 5,
        may_leave(file, bytes, count, left),
        may_read(left, found),
    ensures
        found == Some(bytes) || may_read(file, found),
        left.whole,
        count == 5 ==> found == Some(bytes) && left.settled(),
        count < 3 || (count == 3 && left == file.after_steps(bytes, 3)) ==> may_read(file, found),
{
    lemma_steps_unfold(file, bytes);
}

/// However far a save came, a read finds what it could find before or the new
/// bytes, whole. The boundaries that were reported are the first of the kind's,
/// in order; a save that succeeded reported all of them, and a read finds the
/// new bytes. After a save that was stopped at one of the first three, a read
/// finds what it could find before.
pub proof fn saves_are_all_or_nothing<I: CrashInjector>(
    file: FileView,
    begun: WriteView,
    taken: Seq<SaveStep>,
    injector: &I,
    left: FileView,
    found: Option<Seq<u8>>,
)
    requires
        file.whole,
        is_save(begun, taken, injector),
        may_leave(file, begun.bytes, performed(taken), left),
        may_read(left, found),
    ensures
        found == Some(begun.bytes) || may_read(file, found),
        file.settled() && may_read(file, found) ==> found == file.contents,
        left.whole,
        performed(taken) <= 5,
        reported(begun, taken) == boundaries(begun.kind).take(performed(taken) as int),
        forall|i: int|
            0 <= i < performed(taken) ==> injector.meets(
                #[trigger] boundaries(begun.kind)[i],
                taken[i].result,
            ),
        succeeded(begun, taken) ==> {
            &&& reported(begun, taken) == boundaries(begun.kind)
            &&& found == Some(begun.bytes)
            &&& left.settled()
        },
        stopped_early(file, begun.bytes, taken, left) ==> may_read(file, found),
{
    let count = performed(taken);
    lemma_steps_in_order(begun, taken, injector, count as int);
    assert forall|i: int| 0 <= i < count implies #[trigger] boundaries(begun.kind)[i] == reported(
        begun,
        taken,
    )[i] && injector.meets(boundaries(begun.kind)[i], taken[i].result) by {
        lemma_steps_in_order(begun, taken, injector, i);
        assert(taken[i].complaint is None) by {
            if i + 1 < taken.len() {
                assert(taken[i].result is Ok);
            }
        }
    }
    assert(reported(begun, taken) =~= boundaries(begun.kind).take(count as int));
    if succeeded(begun, taken) {
        assert(taken.last() == taken[taken.len() - 1]);
        assert(taken.last().complaint is None);
        assert(count == 5);
        assert(reported(begun, taken) =~= boundaries(begun.kind));
    }
    lemma_left_file(file, begun.bytes, count, left, found);
}

/// Whether a codec reads back what it wrote.
pub open spec fn recorder_codec_is_faithful<V, C: RecorderCodec<V>>(codec: C) -> bool {
    forall|
        state: RecorderState<V>,
        bytes: Seq<u8>,
        decoded: std::result::Result<RecorderState<V>, ErrorView>,
    |
        #[trigger] codec.encodes(state, Ok(bytes)) && #[trigger] codec.decodes(bytes, decoded)
            ==> decoded == Ok::<RecorderState<V>, ErrorView>(state)
}

/// Whether a file holds a recorder's state, or is missing where there is none.
pub open spec fn holds_recorder<V, C: RecorderCodec<V>>(
    codec: C,
    contents: Option<Seq<u8>>,
    state: Option<RecorderState<V>>,
) -> bool {
    match (contents, state) {
        (Some(bytes), Some(state)) => codec.encodes(state, Ok(bytes)),
        (None, None) => true,
        _ => false,
    }
}

/// However far the save of a recorder's state came, loading gives the earlier state
/// or the new one: the new one after a save that succeeded, the earlier one after
/// a save that was stopped at one of the first three boundaries.
pub proof fn recorder_saves_are_all_or_nothing<V, C: RecorderCodec<V>, I: CrashInjector>(
    store: &FileRecorderStore<V, C, I>,
    earlier: Option<RecorderState<V>>,
    next: RecorderState<V>,
    file: FileView,
    begun: WriteView,
    taken: Seq<SaveStep>,
    left: FileView,
    found: Option<Seq<u8>>,
    loaded: std::result::Result<Option<RecorderState<V>>, ErrorView>,
)
    requires
        file.settled(),
        holds_recorder(store.coder(), file.contents, earlier),
        store.begins(next, Ok(begun)),
        is_save(begun, taken, &store.injector()),
        may_leave(file, begun.bytes, performed(taken), left),
        may_read(left, found),
        store.restores(Ok(found), loaded),
    ensures
        succeeded(begun, taken) ==> {
            &&& reported(begun, taken) == boundaries(FileKind::Recorder)
            &&& store.restores(Ok(Some(begun.bytes)), loaded)
        },
        stopped_early(file, begun.bytes, taken, left) ==> store.restores(
            Ok(file.contents),
            loaded,
        ),
        store.restores(Ok(file.contents), loaded) || store.restores(
            Ok(Some(begun.bytes)),
            loaded,
        ),
        recorder_codec_is_faithful::<V, C>(store.coder()) ==> {
            &&& loaded == Ok::<Option<RecorderState<V>>, ErrorView>(earlier) || loaded == Ok::<
                Option<RecorderState<V>>,
                ErrorView,
            >(Some(next))
            &&& succeeded(begun, taken) ==> loaded == Ok::<Option<RecorderState<V>>, ErrorView>(
                Some(next),
            )
            &&& stopped_early(file, begun.bytes, taken, left) ==> loaded == Ok::<
                Option<RecorderState<V>>,
                ErrorView,
            >(earlier)
        },
{
    saves_are_all_or_nothing(file, begun, taken, &store.injector(), left, found);
}

/// Whether a codec reads back what it wrote.
pub open spec fn runtime_codec_is_faithful<V: Key, C: RuntimeCodec<V>>(codec: C) -> bool {
    forall|
        state: SnapshotView<V>,
        bytes: Seq<u8>,
        decoded: std::result::Result<SnapshotView<V>, ErrorView>,
    |
        #[trigger] codec.encodes(state, Ok(bytes)) && #[trigger] codec.decodes(bytes, decoded)
            ==> decoded == Ok::<SnapshotView<V>, ErrorView>(state)
}

/// Whether a file holds a runtime's state, or is missing where there is none.
pub open spec fn holds_runtime<V: Key, C: RuntimeCodec<V>>(
    codec: C,
    contents: Option<Seq<u8>>,
    state: Option<SnapshotView<V>>,
) -> bool {
    match (contents, state) {
        (Some(bytes), Some(state)) => codec.encodes(state, Ok(bytes)),
        (None, None) => true,
        _ => false,
    }
}

/// However far the save of a runtime's state came, loading gives the earlier state
/// or the new one: the new one after a save that succeeded, the earlier one after
/// a save that was stopped at one of the first three boundaries.
pub proof fn runtime_saves_are_all_or_nothing<V: Key, C: RuntimeCodec<V>, I: CrashInjector>(
    store: &FileRuntimeStore<V, C, I>,
    earlier: Option<SnapshotView<V>>,
    next: SnapshotView<V>,
    file: FileView,
    begun: WriteView,
    taken: Seq<SaveStep>,
    left: FileView,
    found: Option<Seq<u8>>,
    loaded: std::result::Result<Option<SnapshotView<V>>, ErrorView>,
)
    requires
        file.settled(),
        holds_runtime(store.coder(), file.contents, earlier),
        store.begins(next, Ok(begun)),
        is_save(begun, taken, &store.injector()),
        may_leave(file, begun.bytes, performed(taken), left),
        may_read(left, found),
        store.restores(Ok(found), loaded),
    ensures
        succeeded(begun, taken) ==> {
            &&& reported(begun, taken) == boundaries(FileKind::Runtime)
            &&& store.restores(Ok(Some(begun.bytes)), loaded)
        },
        stopped_early(file, begun.bytes, taken, left) ==> store.restores(
            Ok(file.contents),
            loaded,
        ),
        store.restores(Ok(file.contents), loaded) || store.restores(
            Ok(Some(begun.bytes)),
            loaded,
        ),
        runtime_codec_is_faithful::<V, C>(store.coder()) ==> {
            &&& loaded == Ok::<Option<SnapshotView<V>>, ErrorView>(earlier) || loaded == Ok::<
                Option<SnapshotView<V>>,
                ErrorView,
            >(Some(next))
            &&& succeeded(begun, taken) ==> loaded == Ok::<Option<SnapshotView<V>>, ErrorView>(
                Some(next),
            )
            &&& stopped_early(file, begun.bytes, taken, left) ==> loaded == Ok::<
                Option<SnapshotView<V>>,
                ErrorView,
            >(earlier)
        },
{
    saves_are_all_or_nothing(file, begun, taken, &store.injector(), left, found);
}

} // verus!
