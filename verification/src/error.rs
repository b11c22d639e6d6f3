//! The errors of the library.

use crate::text;
use crate::types::{ReplicaId, SlotIndex};
use vstd::prelude::*;
use vstd::string::StringExecFns;

verus! {

pub type Result<T> = std::result::Result<T, QuePaxaError>;

/// Why an operation was refused.
#[allow(inconsistent_fields)]
#[derive(Debug, PartialEq, Eq)]
pub enum QuePaxaError {
    EmptyCluster,
    EmptyProposal,
    EmptyDecision,
    MissingProposal,
    MissingValue,
    DuplicateReplica(ReplicaId),
    UnknownReplica(ReplicaId),
    InvalidSender(ReplicaId),
    InvalidRecorderReply { expected: ReplicaId, received: ReplicaId },
    DuplicateRecorderReply(ReplicaId),
    InvalidQuorum { replicas: usize, quorum: usize },
    QuorumNotReached { needed: usize, received: usize },
    InvalidStep { step: u64, limit: u64 },
    StepOverflow,
    SlotOverflow,
    ResourceLimit { resource: &'static str, limit: usize },
    InvalidProposal(String),
    TransportError(String),
    StorageError(String),
    ConfigurationMismatch,
    ConfigurationEpochOverflow,
    InvalidReconfiguration(String),
    ConflictingDecision { slot: SlotIndex },
    /// A recorder has already bound this slot to a different round-one
    /// leader. Continuing could grant the reserved priority to two proposers.
    ScheduleMismatch { slot: SlotIndex },
    SlotAlreadyDecided { slot: SlotIndex },
    /// The slot was decided, checkpointed and pruned cluster-wide. The caller
    /// is too far behind to re-run consensus and must obtain the decision (or
    /// an application checkpoint) through state transfer.
    SlotPruned { slot: SlotIndex },
    StepLimitExceeded { limit: u64 },
    PolicyError(String),
}

/// An error with its texts as sequences of characters.
#[allow(inconsistent_fields)]
pub enum ErrorView {
    EmptyCluster,
    EmptyProposal,
    EmptyDecision,
    MissingProposal,
    MissingValue,
    DuplicateReplica(ReplicaId),
    UnknownReplica(ReplicaId),
    InvalidSender(ReplicaId),
    InvalidRecorderReply { expected: ReplicaId, received: ReplicaId },
    DuplicateRecorderReply(ReplicaId),
    InvalidQuorum { replicas: usize, quorum: usize },
    QuorumNotReached { needed: usize, received: usize },
    InvalidStep { step: u64, limit: u64 },
    StepOverflow,
    SlotOverflow,
    ResourceLimit { resource: Seq<char>, limit: usize },
    InvalidProposal(Seq<char>),
    TransportError(Seq<char>),
    StorageError(Seq<char>),
    ConfigurationMismatch,
    ConfigurationEpochOverflow,
    InvalidReconfiguration(Seq<char>),
    ConflictingDecision { slot: SlotIndex },
    ScheduleMismatch { slot: SlotIndex },
    SlotAlreadyDecided { slot: SlotIndex },
    SlotPruned { slot: SlotIndex },
    StepLimitExceeded { limit: u64 },
    PolicyError(Seq<char>),
}

impl View for QuePaxaError {
    type V = ErrorView;

    open spec fn view(&self) -> ErrorView {
        match self {
            QuePaxaError::EmptyCluster => ErrorView::EmptyCluster,
            QuePaxaError::EmptyProposal => ErrorView::EmptyProposal,
            QuePaxaError::EmptyDecision => ErrorView::EmptyDecision,
            QuePaxaError::MissingProposal => ErrorView::MissingProposal,
            QuePaxaError::MissingValue => ErrorView::MissingValue,
            QuePaxaError::DuplicateReplica(replica) => ErrorView::DuplicateReplica(*replica),
            QuePaxaError::UnknownReplica(replica) => ErrorView::UnknownReplica(*replica),
            QuePaxaError::InvalidSender(replica) => ErrorView::InvalidSender(*replica),
            QuePaxaError::InvalidRecorderReply { expected, received } => ErrorView::InvalidRecorderReply { expected: *expected, received: *received },
            QuePaxaError::DuplicateRecorderReply(replica) => ErrorView::DuplicateRecorderReply(*replica),
            QuePaxaError::InvalidQuorum { replicas, quorum } => ErrorView::InvalidQuorum { replicas: *replicas, quorum: *quorum },
            QuePaxaError::QuorumNotReached { needed, received } => ErrorView::QuorumNotReached { needed: *needed, received: *received },
            QuePaxaError::InvalidStep { step, limit } => ErrorView::InvalidStep { step: *step, limit: *limit },
            QuePaxaError::StepOverflow => ErrorView::StepOverflow,
            QuePaxaError::SlotOverflow => ErrorView::SlotOverflow,
            QuePaxaError::ResourceLimit { resource, limit } => ErrorView::ResourceLimit { resource: resource@, limit: *limit },
            QuePaxaError::InvalidProposal(message) => ErrorView::InvalidProposal(message@),
            QuePaxaError::TransportError(message) => ErrorView::TransportError(message@),
            QuePaxaError::StorageError(message) => ErrorView::StorageError(message@),
            QuePaxaError::ConfigurationMismatch => ErrorView::ConfigurationMismatch,
            QuePaxaError::ConfigurationEpochOverflow => ErrorView::ConfigurationEpochOverflow,
            QuePaxaError::InvalidReconfiguration(message) => ErrorView::InvalidReconfiguration(message@),
            QuePaxaError::ConflictingDecision { slot } => ErrorView::ConflictingDecision { slot: *slot },
            QuePaxaError::ScheduleMismatch { slot } => ErrorView::ScheduleMismatch { slot: *slot },
            QuePaxaError::SlotAlreadyDecided { slot } => ErrorView::SlotAlreadyDecided { slot: *slot },
            QuePaxaError::SlotPruned { slot } => ErrorView::SlotPruned { slot: *slot },
            QuePaxaError::StepLimitExceeded { limit } => ErrorView::StepLimitExceeded { limit: *limit },
            QuePaxaError::PolicyError(message) => ErrorView::PolicyError(message@),
        }
    }
}

impl Clone for QuePaxaError {
    fn clone(&self) -> (copy: Self)
        ensures
            copy@ == self@,
    {
        match self {
            QuePaxaError::EmptyCluster => QuePaxaError::EmptyCluster,
            QuePaxaError::EmptyProposal => QuePaxaError::EmptyProposal,
            QuePaxaError::EmptyDecision => QuePaxaError::EmptyDecision,
            QuePaxaError::MissingProposal => QuePaxaError::MissingProposal,
            QuePaxaError::MissingValue => QuePaxaError::MissingValue,
            QuePaxaError::DuplicateReplica(replica) => QuePaxaError::DuplicateReplica(*replica),
            QuePaxaError::UnknownReplica(replica) => QuePaxaError::UnknownReplica(*replica),
            QuePaxaError::InvalidSender(replica) => QuePaxaError::InvalidSender(*replica),
            QuePaxaError::InvalidRecorderReply { expected, received } => QuePaxaError::InvalidRecorderReply { expected: *expected, received: *received },
            QuePaxaError::DuplicateRecorderReply(replica) => QuePaxaError::DuplicateRecorderReply(*replica),
            QuePaxaError::InvalidQuorum { replicas, quorum } => QuePaxaError::InvalidQuorum { replicas: *replicas, quorum: *quorum },
            QuePaxaError::QuorumNotReached { needed, received } => QuePaxaError::QuorumNotReached { needed: *needed, received: *received },
            QuePaxaError::InvalidStep { step, limit } => QuePaxaError::InvalidStep { step: *step, limit: *limit },
            QuePaxaError::StepOverflow => QuePaxaError::StepOverflow,
            QuePaxaError::SlotOverflow => QuePaxaError::SlotOverflow,
            QuePaxaError::ResourceLimit { resource, limit } => QuePaxaError::ResourceLimit { resource: *resource, limit: *limit },
            QuePaxaError::InvalidProposal(text) => QuePaxaError::InvalidProposal(text.clone()),
            QuePaxaError::TransportError(text) => QuePaxaError::TransportError(text.clone()),
            QuePaxaError::StorageError(text) => QuePaxaError::StorageError(text.clone()),
            QuePaxaError::ConfigurationMismatch => QuePaxaError::ConfigurationMismatch,
            QuePaxaError::ConfigurationEpochOverflow => QuePaxaError::ConfigurationEpochOverflow,
            QuePaxaError::InvalidReconfiguration(text) => QuePaxaError::InvalidReconfiguration(text.clone()),
            QuePaxaError::ConflictingDecision { slot } => QuePaxaError::ConflictingDecision { slot: *slot },
            QuePaxaError::ScheduleMismatch { slot } => QuePaxaError::ScheduleMismatch { slot: *slot },
            QuePaxaError::SlotAlreadyDecided { slot } => QuePaxaError::SlotAlreadyDecided { slot: *slot },
            QuePaxaError::SlotPruned { slot } => QuePaxaError::SlotPruned { slot: *slot },
            QuePaxaError::StepLimitExceeded { limit } => QuePaxaError::StepLimitExceeded { limit: *limit },
            QuePaxaError::PolicyError(text) => QuePaxaError::PolicyError(text.clone()),
        }
    }
}

/// What a fallible operation returned, seen through the views of both sides.
pub open spec fn outcome<T: View>(result: Result<T>) -> std::result::Result<T::V, ErrorView> {
    match result {
        Ok(value) => Ok(value@),
        Err(error) => Err(error@),
    }
}

impl ErrorView {
    /// The text that describes the error.
    pub open spec fn message(self) -> Seq<char> {
        match self {
            ErrorView::EmptyCluster => "cluster must contain at least one replica"@,
            ErrorView::EmptyProposal => "proposal must contain at least one value id"@,
            ErrorView::EmptyDecision => "decision must contain at least one value id"@,
            ErrorView::MissingProposal => "recorder reply did not contain a proposal"@,
            ErrorView::MissingValue => "required value is missing from the value store"@,
            ErrorView::DuplicateReplica(replica) => "duplicate replica id "@ + text::decimal(replica.0 as nat),
            ErrorView::UnknownReplica(replica) => "unknown replica id "@ + text::decimal(replica.0 as nat),
            ErrorView::InvalidSender(replica) => "replica id "@ + text::decimal(replica.0 as nat) + " is not an authorized sender"@,
            ErrorView::InvalidRecorderReply { expected, received } => "recorder reply identity mismatch: expected "@ + text::decimal(expected.0 as nat) + ", received "@ + text::decimal(received.0 as nat),
            ErrorView::DuplicateRecorderReply(replica) => "duplicate reply from recorder "@ + text::decimal(replica.0 as nat),
            ErrorView::InvalidQuorum { replicas, quorum } => "invalid quorum "@ + text::decimal(quorum as nat) + " for "@ + text::decimal(replicas as nat) + " replicas"@,
            ErrorView::QuorumNotReached { needed, received } => "quorum not reached: needed "@ + text::decimal(needed as nat) + ", received "@ + text::decimal(received as nat),
            ErrorView::InvalidStep { step, limit } => "logical step "@ + text::decimal(step as nat) + " is outside the accepted range through "@ + text::decimal(limit as nat),
            ErrorView::StepOverflow => "logical step counter overflowed"@,
            ErrorView::SlotOverflow => "slot index overflowed"@,
            ErrorView::ResourceLimit { resource, limit } => resource + " exceeds its configured limit of "@ + text::decimal(limit as nat),
            ErrorView::InvalidProposal(message) => message,
            ErrorView::TransportError(message) => message,
            ErrorView::StorageError(message) => message,
            ErrorView::ConfigurationMismatch => "replica configuration does not match the local cluster identity"@,
            ErrorView::ConfigurationEpochOverflow => "membership configuration epoch overflowed"@,
            ErrorView::InvalidReconfiguration(message) => message,
            ErrorView::ConflictingDecision { slot } => "conflicting decision for slot "@ + text::decimal(slot.0 as nat),
            ErrorView::ScheduleMismatch { slot } => "round-one leader schedule mismatch for slot "@ + text::decimal(slot.0 as nat),
            ErrorView::SlotAlreadyDecided { slot } => "slot "@ + text::decimal(slot.0 as nat) + " is already decided"@,
            ErrorView::SlotPruned { slot } => "slot "@ + text::decimal(slot.0 as nat) + " was pruned after checkpointing; state transfer is required"@,
            ErrorView::StepLimitExceeded { limit } => "proposer exceeded the configured step limit "@ + text::decimal(limit as nat),
            ErrorView::PolicyError(message) => message,
        }
    }
}

impl QuePaxaError {
    /// The text that describes the error.
    pub fn message(&self) -> (message: String)
        ensures
            message@ == self@.message(),
    {
        let mut message: String = String::new();
        match self {
            QuePaxaError::EmptyCluster => {
                message.append("cluster must contain at least one replica");
            },
            QuePaxaError::EmptyProposal => {
                message.append("proposal must contain at least one value id");
            },
            QuePaxaError::EmptyDecision => {
                message.append("decision must contain at least one value id");
            },
            QuePaxaError::MissingProposal => {
                message.append("recorder reply did not contain a proposal");
            },
            QuePaxaError::MissingValue => {
                message.append("required value is missing from the value store");
            },
            QuePaxaError::DuplicateReplica(replica) => {
                message.append("duplicate replica id ");
                text::push_decimal(&mut message, replica.0);
            },
            QuePaxaError::UnknownReplica(replica) => {
                message.append("unknown replica id ");
                text::push_decimal(&mut message, replica.0);
            },
            QuePaxaError::InvalidSender(replica) => {
                message.append("replica id ");
                text::push_decimal(&mut message, replica.0);
                message.append(" is not an authorized sender");
            },
            QuePaxaError::InvalidRecorderReply { expected, received } => {
                message.append("recorder reply identity mismatch: expected ");
                text::push_decimal(&mut message, expected.0);
                message.append(", received ");
                text::push_decimal(&mut message, received.0);
            },
            QuePaxaError::DuplicateRecorderReply(replica) => {
                message.append("duplicate reply from recorder ");
                text::push_decimal(&mut message, replica.0);
            },
            QuePaxaError::InvalidQuorum { replicas, quorum } => {
                message.append("invalid quorum ");
                text::push_decimal(&mut message, *quorum as u64);
                message.append(" for ");
                text::push_decimal(&mut message, *replicas as u64);
                message.append(" replicas");
            },
            QuePaxaError::QuorumNotReached { needed, received } => {
                message.append("quorum not reached: needed ");
                text::push_decimal(&mut message, *needed as u64);
                message.append(", received ");
                text::push_decimal(&mut message, *received as u64);
            },
            QuePaxaError::InvalidStep { step, limit } => {
                message.append("logical step ");
                text::push_decimal(&mut message, *step);
                message.append(" is outside the accepted range through ");
                text::push_decimal(&mut message, *limit);
            },
            QuePaxaError::StepOverflow => {
                message.append("logical step counter overflowed");
            },
            QuePaxaError::SlotOverflow => {
                message.append("slot index overflowed");
            },
            QuePaxaError::ResourceLimit { resource, limit } => {
                message.append(resource);
                message.append(" exceeds its configured limit of ");
                text::push_decimal(&mut message, *limit as u64);
            },
            QuePaxaError::InvalidProposal(text) => {
                return text.clone();
            },
            QuePaxaError::TransportError(text) => {
                return text.clone();
            },
            QuePaxaError::StorageError(text) => {
                return text.clone();
            },
            QuePaxaError::ConfigurationMismatch => {
                message.append("replica configuration does not match the local cluster identity");
            },
            QuePaxaError::ConfigurationEpochOverflow => {
                message.append("membership configuration epoch overflowed");
            },
            QuePaxaError::InvalidReconfiguration(text) => {
                return text.clone();
            },
            QuePaxaError::ConflictingDecision { slot } => {
                message.append("conflicting decision for slot ");
                text::push_decimal(&mut message, slot.0);
            },
            QuePaxaError::ScheduleMismatch { slot } => {
                message.append("round-one leader schedule mismatch for slot ");
                text::push_decimal(&mut message, slot.0);
            },
            QuePaxaError::SlotAlreadyDecided { slot } => {
                message.append("slot ");
                text::push_decimal(&mut message, slot.0);
                message.append(" is already decided");
            },
            QuePaxaError::SlotPruned { slot } => {
                message.append("slot ");
                text::push_decimal(&mut message, slot.0);
                message.append(" was pruned after checkpointing; state transfer is required");
            },
            QuePaxaError::StepLimitExceeded { limit } => {
                message.append("proposer exceeded the configured step limit ");
                text::push_decimal(&mut message, *limit);
            },
            QuePaxaError::PolicyError(text) => {
                return text.clone();
            },
        }
        assert(message@ =~= self@.message());
        message
    }
}

} // verus!
