//! Recorders that a proposer of the same process calls directly.

use crate::cluster::{MembershipChange, MembershipChangeView, RecordReply, RecordReplyView};
use crate::durable;
use crate::durable::{DurableRecorderCore, RecorderStateStore};
use crate::error::{ErrorView, Result};
use crate::key::Key;
use crate::proposer::RecorderClient;
use crate::recorder;
use crate::recorder::{RecorderCore, RecorderView};
use crate::store::ValueAvailability;
use crate::types::{
    Decision, DecisionView, RecordRequest, RecordRequestView, SlotIndex, Step,
};
use vstd::prelude::*;

verus! {

/// The step of a slot that a recorder works on.
pub open spec fn step_of<V>(recorder: RecorderView<V>, slot: SlotIndex) -> Option<Step> {
    if recorder.state.slots.dom().contains(slot) {
        Some(recorder.state.slots[slot].step)
    } else {
        None
    }
}

impl<V: Key, A: ValueAvailability<V>> RecorderClient<V> for RecorderCore<V, A> {
    open spec fn records(
        &self,
        request: RecordRequestView<V>,
        reply: std::result::Result<RecordReplyView<V>, ErrorView>,
        after: &Self,
    ) -> bool {
        recorder::served(self@, self.guard(), request, after@, after.guard(), reply)
    }

    open spec fn informs(
        &self,
        decisions: Seq<DecisionView<V>>,
        told: std::result::Result<(), ErrorView>,
        after: &Self,
    ) -> bool {
        (after@, told) == self@.inform_all(decisions) && after.guard() == self.guard()
    }

    open spec fn reports(
        &self,
        slot: SlotIndex,
        step: std::result::Result<Option<Step>, ErrorView>,
        after: &Self,
    ) -> bool {
        *after == *self && step == Ok::<Option<Step>, ErrorView>(step_of(self@, slot))
    }

    open spec fn installs(
        &self,
        change: MembershipChangeView<V>,
        installed: std::result::Result<(), ErrorView>,
        after: &Self,
    ) -> bool {
        (after@, installed) == self@.install_membership(change) && after.guard() == self.guard()
    }

    fn record(&mut self, request: RecordRequest<V>) -> (reply: Result<RecordReply<V>>) {
        RecorderCore::record(self, request)
    }

    fn inform_decisions(&mut self, decisions: &[Decision<V>]) -> (told: Result<()>) {
        RecorderCore::inform_decisions(self, decisions)
    }

    fn status(&mut self, slot: SlotIndex) -> (step: Result<Option<Step>>) {
        Ok(RecorderCore::status(self, slot))
    }

    fn install_membership(&mut self, change: MembershipChange<V>) -> (installed: Result<()>) {
        RecorderCore::install_membership(self, change)
    }
}

impl<
    V: Key,
    S: RecorderStateStore<V>,
    A: ValueAvailability<V>,
> RecorderClient<V> for DurableRecorderCore<V, S, A> {
    open spec fn records(
        &self,
        request: RecordRequestView<V>,
        reply: std::result::Result<RecordReplyView<V>, ErrorView>,
        after: &Self,
    ) -> bool {
        durable::served_durably(self, request, after, reply)
    }

    open spec fn informs(
        &self,
        decisions: Seq<DecisionView<V>>,
        told: std::result::Result<(), ErrorView>,
        after: &Self,
    ) -> bool {
        &&& after.guard() == self.guard()
        &&& durable::durably(
            self.recorder(),
            self.recorder().inform_all(decisions),
            self.storage(),
            after.recorder(),
            after.storage(),
            told,
        )
    }

    open spec fn reports(
        &self,
        slot: SlotIndex,
        step: std::result::Result<Option<Step>, ErrorView>,
        after: &Self,
    ) -> bool {
        *after == *self && step == Ok::<Option<Step>, ErrorView>(step_of(self.recorder(), slot))
    }

    open spec fn installs(
        &self,
        change: MembershipChangeView<V>,
        installed: std::result::Result<(), ErrorView>,
        after: &Self,
    ) -> bool {
        &&& after.guard() == self.guard()
        &&& durable::durably(
            self.recorder(),
            self.recorder().install_membership(change),
            self.storage(),
            after.recorder(),
            after.storage(),
            installed,
        )
    }

    fn record(&mut self, request: RecordRequest<V>) -> (reply: Result<RecordReply<V>>) {
        DurableRecorderCore::record(self, request)
    }

    fn inform_decisions(&mut self, decisions: &[Decision<V>]) -> (told: Result<()>) {
        DurableRecorderCore::inform_decisions(self, decisions)
    }

    fn status(&mut self, slot: SlotIndex) -> (step: Result<Option<Step>>) {
        Ok(DurableRecorderCore::status(self, slot))
    }

    fn install_membership(&mut self, change: MembershipChange<V>) -> (installed: Result<()>) {
        DurableRecorderCore::install_membership(self, change)
    }
}

} // verus!
