//! Where a component keeps the state that must survive a restart.

use crate::durable;
use crate::error;
use crate::error::{ErrorView, Result};
use crate::key::Duplicate;
use crate::types;
use crate::types::duplicate_option;
use vstd::prelude::*;

verus! {

/// Persists and restores one value atomically.
pub trait SnapshotStore<T: View> {
    /// The value that a restart would find.
    open spec fn persisted(&self) -> Option<T::V> {
        None
    }

    /// Whether reading may go like this: from here, with this result, to
    /// `after`. A store that does not say leaves it open whether it can be read.
    open spec fn loads(
        &self,
        loaded: std::result::Result<Option<T::V>, ErrorView>,
        after: &Self,
    ) -> bool {
        true
    }

    /// Whether saving may go like this.
    open spec fn saves(
        &self,
        value: T::V,
        saved: std::result::Result<(), ErrorView>,
        after: &Self,
    ) -> bool {
        true
    }

    /// Reads the value that was saved last.
    fn load(&mut self) -> (loaded: Result<Option<T>>)
        ensures
            final(self).persisted() == old(self).persisted(),
            loaded matches Ok(found) ==> types::option_view(found) == old(self).persisted(),
            old(self).loads(durable::load_outcome(loaded), final(self)),
    ;

    /// Makes a value durable. A failed save took effect or left the old value.
    fn save(&mut self, value: &T) -> (saved: Result<()>)
        ensures
            saved is Ok ==> final(self).persisted() == Some(value@),
            final(self).persisted() == old(self).persisted() || final(self).persisted() == Some(
                value@,
            ),
            old(self).saves(value@, error::outcome(saved), final(self)),
    ;
}

/// Turns values into bytes and back. Applications select the encoding.
pub trait SnapshotCodec<T: View> {
    /// Whether a value may be encoded like this. A codec that does not say
    /// leaves every encoding open.
    open spec fn encodes(
        &self,
        value: T::V,
        bytes: std::result::Result<Seq<u8>, ErrorView>,
    ) -> bool {
        true
    }

    /// Whether bytes may be decoded like this.
    open spec fn decodes(
        &self,
        bytes: Seq<u8>,
        value: std::result::Result<T::V, ErrorView>,
    ) -> bool {
        true
    }

    fn encode(&self, value: &T) -> (bytes: Result<Vec<u8>>)
        ensures
            self.encodes(value@, error::outcome(bytes)),
    ;

    fn decode(&self, bytes: &[u8]) -> (value: Result<T>)
        ensures
            self.decodes(bytes@, error::outcome(value)),
    ;
}

/// Test and single-process store.
#[derive(Debug)]
pub struct InMemorySnapshotStore<T> {
    held: Option<T>,
}

impl<T: View> InMemorySnapshotStore<T> {
    /// What the store holds.
    pub closed spec fn holding(&self) -> Option<T::V> {
        types::option_view(self.held)
    }

    /// A store that holds nothing.
    pub fn new() -> (store: Self)
        ensures
            store.holding() is None,
    {
        InMemorySnapshotStore { held: None }
    }
}

impl<T: Duplicate> SnapshotStore<T> for InMemorySnapshotStore<T> {
    open spec fn persisted(&self) -> Option<T::V> {
        self.holding()
    }

    open spec fn loads(
        &self,
        loaded: std::result::Result<Option<T::V>, ErrorView>,
        after: &Self,
    ) -> bool {
        *after == *self && loaded is Ok
    }

    open spec fn saves(
        &self,
        value: T::V,
        saved: std::result::Result<(), ErrorView>,
        after: &Self,
    ) -> bool {
        saved is Ok
    }

    fn load(&mut self) -> (loaded: Result<Option<T>>) {
        Ok(duplicate_option(&self.held))
    }

    fn save(&mut self, value: &T) -> (saved: Result<()>) {
        self.held = Some(value.duplicate_value());
        Ok(())
    }
}

} // verus!
