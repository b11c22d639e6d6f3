//! Durable-write boundaries, for harnesses that stop a process at one.

use crate::error;
use crate::error::{ErrorView, Result};
use vstd::prelude::*;

verus! {

/// Literal durable-write boundaries exposed to subprocess crash harnesses.
#[derive(Debug, Clone, Copy, PartialEq, Eq, Hash, Structural)]
pub enum CrashPoint {
    RecorderTemporaryOpened,
    RecorderTemporaryWritten,
    RecorderTemporarySynced,
    RecorderRenamed,
    RecorderDirectorySynced,
    RuntimeTemporaryOpened,
    RuntimeTemporaryWritten,
    RuntimeTemporarySynced,
    RuntimeRenamed,
    RuntimeDirectorySynced,
    BatchTemporaryOpened,
    BatchTemporaryWritten,
    BatchTemporarySynced,
    BatchRenamed,
    BatchDirectorySynced,
    SubmissionJournalTemporaryOpened,
    SubmissionJournalTemporaryWritten,
    SubmissionJournalTemporarySynced,
    SubmissionJournalRenamed,
    SubmissionJournalDirectorySynced,
    ExactlyOnceTemporaryOpened,
    ExactlyOnceTemporaryWritten,
    ExactlyOnceTemporarySynced,
    ExactlyOnceRenamed,
    ExactlyOnceDirectorySynced,
}

/// Hook invoked synchronously at a durable-write boundary. Production uses
/// the no-op default. A subprocess test can signal its parent and block here;
/// the parent then sends a real process kill before reopening the store.
pub trait CrashInjector {
    /// Whether a boundary may be met like this. An injector that does not say
    /// leaves it open which boundaries pass.
    open spec fn meets(&self, point: CrashPoint, passed: std::result::Result<(), ErrorView>) -> bool {
        true
    }

    fn reached(&self, point: CrashPoint) -> (passed: Result<()>)
        ensures
            self.meets(point, error::outcome(passed)),
    ;
}

/// Lets every boundary pass.
#[derive(Debug, Clone, Copy)]
pub struct NoopCrashInjector;

impl Default for NoopCrashInjector {
    fn default() -> (injector: Self)
        ensures
            injector == NoopCrashInjector,
    {
        NoopCrashInjector
    }
}

impl CrashInjector for NoopCrashInjector {
    open spec fn meets(&self, point: CrashPoint, passed: std::result::Result<(), ErrorView>) -> bool {
        passed is Ok
    }

    fn reached(&self, point: CrashPoint) -> (passed: Result<()>) {
        Ok(())
    }
}

} // verus!
