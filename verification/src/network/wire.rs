//! What nodes and clients say to each other.

use crate::bytes;
use crate::cluster::{MembershipChange, RecordReply};
use crate::key::{Duplicate, Key};
use crate::network::batch::Batch;
use crate::types;
use crate::types::{
    duplicate_keys, duplicate_option, Decision, DecisionView, RecordRequest, ReplicaId, SlotIndex,
    Step,
};
use vstd::prelude::*;

verus! {

/// The version of requests and responses.
pub const WIRE_VERSION: u16 = 4;

/// Names a deployment; nodes of different deployments do not talk.
#[derive(Debug, Clone, Copy, PartialEq, Eq, PartialOrd, Ord, Hash)]
pub struct DeploymentId(pub [u8; 16]);

/// Appends a number as `width` big-endian bytes.
fn push_be_wide(list: &mut Vec<u8>, value: u128, width: u8)
    ensures
        final(list)@ == old(list)@ + bytes::be_bytes(value as nat, width as nat),
    decreases width,
{
    if width > 0 {
        push_be_wide(list, value / 256, width - 1);
        list.push((value % 256) as u8);
    }
    assert(list@ =~= old(list)@ + bytes::be_bytes(value as nat, width as nat));
}

impl DeploymentId {
    /// The deployment whose name spells a number, highest byte first.
    pub fn from_u128(value: u128) -> (id: Self)
        ensures
            id.0@ == bytes::be_bytes(value as nat, 16),
    {
        let mut list: Vec<u8> = Vec::new();
        push_be_wide(&mut list, value, 16);
        proof {
            bytes::lemma_be_bytes(value as nat, 16);
        }
        let mut name: [u8; 16] = [0u8; 16];
        let mut i: usize = 0;
        while i < 16
            invariant
                i <= 16,
                list@.len() == 16,
                forall|j: int| 0 <= j < i ==> name@[j] == list@[j],
            decreases 16 - i,
        {
            name[i] = list[i];
            i += 1;
        }
        assert(name@ =~= bytes::be_bytes(value as nat, 16));
        DeploymentId(name)
    }

    /// Whether both names are the same.
    pub fn same_deployment(&self, other: &DeploymentId) -> (same: bool)
        ensures
            same == (*self == *other),
    {
        self.0.same(&other.0)
    }
}

/// Who says that it sent a request.
#[derive(Debug, Clone, Copy, PartialEq, Eq)]
pub enum PeerSender {
    Replica(ReplicaId),
    Client([u8; 16]),
}

/// A client's request to commit values.
#[derive(Debug, PartialEq, Eq)]
pub struct Submission<V> {
    pub client_id: [u8; 16],
    pub request_id: u64,
    pub value_ids: Vec<V>,
}

/// A submission with its values as a sequence.
#[verifier::ext_equal]
pub struct SubmissionView<V> {
    pub client_id: [u8; 16],
    pub request_id: u64,
    pub value_ids: Seq<V>,
}

impl<V> View for Submission<V> {
    type V = SubmissionView<V>;

    open spec fn view(&self) -> SubmissionView<V> {
        SubmissionView {
            client_id: self.client_id,
            request_id: self.request_id,
            value_ids: self.value_ids@,
        }
    }
}

impl<V: Key> Duplicate for Submission<V> {
    fn duplicate_value(&self) -> (copy: Self) {
        Submission {
            client_id: self.client_id,
            request_id: self.request_id,
            value_ids: duplicate_keys(self.value_ids.as_slice()),
        }
    }
}

impl<V: Key> Clone for Submission<V> {
    fn clone(&self) -> (copy: Self)
        ensures
            copy@ == self@,
    {
        self.duplicate_value()
    }
}

/// What became of a submission.
#[derive(Debug, PartialEq, Eq)]
pub enum SubmissionOutcome<V> {
    Accepted,
    Committed(Decision<V>),
    Duplicate(Option<Decision<V>>),
}

/// An outcome with its decision as a view.
pub enum OutcomeView<V> {
    Accepted,
    Committed(DecisionView<V>),
    Duplicate(Option<DecisionView<V>>),
}

impl<V> View for SubmissionOutcome<V> {
    type V = OutcomeView<V>;

    open spec fn view(&self) -> OutcomeView<V> {
        match self {
            SubmissionOutcome::Accepted => OutcomeView::Accepted,
            SubmissionOutcome::Committed(decision) => OutcomeView::Committed(decision@),
            SubmissionOutcome::Duplicate(decision) => OutcomeView::Duplicate(
                types::option_view(*decision),
            ),
        }
    }
}

impl<V: Key> Duplicate for SubmissionOutcome<V> {
    fn duplicate_value(&self) -> (copy: Self) {
        match self {
            SubmissionOutcome::Accepted => SubmissionOutcome::Accepted,
            SubmissionOutcome::Committed(decision) => SubmissionOutcome::Committed(
                decision.duplicate_value(),
            ),
            SubmissionOutcome::Duplicate(decision) => SubmissionOutcome::Duplicate(
                duplicate_option(decision),
            ),
        }
    }
}

impl<V: Key> Clone for SubmissionOutcome<V> {
    fn clone(&self) -> (copy: Self)
        ensures
            copy@ == self@,
    {
        self.duplicate_value()
    }
}

impl<V: Key> SubmissionOutcome<V> {
    /// Whether two outcomes are equal.
    pub fn same_outcome(&self, other: &SubmissionOutcome<V>) -> (equal: bool)
        ensures
            equal == (self@ == other@),
    {
        match (self, other) {
            (SubmissionOutcome::Accepted, SubmissionOutcome::Accepted) => true,
            (SubmissionOutcome::Committed(a), SubmissionOutcome::Committed(b)) => a.same_decision(
                b,
            ),
            (SubmissionOutcome::Duplicate(None), SubmissionOutcome::Duplicate(None)) => true,
            (
                SubmissionOutcome::Duplicate(Some(a)),
                SubmissionOutcome::Duplicate(Some(b)),
            ) => a.same_decision(b),
            _ => false,
        }
    }
}

/// What a request asks for.
#[derive(Debug, PartialEq, Eq)]
pub enum RequestBody<V> {
    Record(RecordRequest<V>),
    Status(SlotIndex),
    InformDecisions(Vec<Decision<V>>),
    InstallMembership(MembershipChange<V>),
    PublishBatches(Vec<Batch<V>>),
    FetchBatches(Vec<V>),
    Submit(Submission<V>),
    Ping,
}

/// A request in its envelope.
#[derive(Debug, PartialEq, Eq)]
pub struct NodeRequest<V> {
    pub version: u16,
    pub deployment: DeploymentId,
    pub request_id: u64,
    pub sender: PeerSender,
    pub body: RequestBody<V>,
}

/// What a response says.
#[derive(Debug, PartialEq, Eq)]
pub enum ResponseBody<V> {
    Record(RecordReply<V>),
    Status(Option<Step>),
    Submission(SubmissionOutcome<V>),
    Batches(Vec<Batch<V>>),
    Ack,
    Pong,
    Error(WireError),
}

/// A response in its envelope.
#[derive(Debug, PartialEq, Eq)]
pub struct NodeResponse<V> {
    pub version: u16,
    pub deployment: DeploymentId,
    pub request_id: u64,
    pub body: ResponseBody<V>,
}

/// A refusal as it is sent: its kind and its text.
#[derive(Debug, PartialEq, Eq)]
pub struct WireError {
    pub code: WireErrorCode,
    pub message: String,
}

/// A sent refusal with its text as a sequence of characters.
#[verifier::ext_equal]
pub struct WireErrorView {
    pub code: WireErrorCode,
    pub message: Seq<char>,
}

impl View for WireError {
    type V = WireErrorView;

    open spec fn view(&self) -> WireErrorView {
        WireErrorView { code: self.code, message: self.message@ }
    }
}

impl Clone for WireError {
    fn clone(&self) -> (copy: Self)
        ensures
            copy@ == self@,
    {
        WireError { code: self.code, message: self.message.clone() }
    }
}

/// The kinds of refusals that are told apart across the wire.
#[derive(Debug, Clone, Copy, PartialEq, Eq)]
pub enum WireErrorCode {
    Authentication,
    Configuration,
    InvalidRequest,
    ResourceLimit,
    Storage,
    Unavailable,
    Internal,
    /// The peer holds a different decision for the requested slot. This is a
    /// safety alarm and must never be retried past.
    Conflict,
    /// The recorder has already bound the slot to a different round-one leader.
    ScheduleMismatch,
    /// The requested slot was decided, checkpointed, and pruned; the caller
    /// must state-transfer instead of re-running consensus.
    Pruned,
}

} // verus!
