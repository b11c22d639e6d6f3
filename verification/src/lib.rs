//! QuePaxa consensus: proposers, recorders, replicas and the runtime around
//! them, with every rule of the protocol stated as a contract and proved.

pub mod agreement;
pub mod atomic_file;
pub mod bytes;
pub mod cluster;
pub mod collections;
pub mod commit_prefix;
pub mod contest;
pub mod crash;
pub mod digest;
pub mod durable;
pub mod duty_laws;
pub mod endpoint;
pub mod epoch_laws;
pub mod error;
pub mod hedge_laws;
pub mod isr;
pub mod key;
pub mod log_laws;
pub mod membership_laws;
pub mod network;
pub mod pipeline_laws;
pub mod policy;
pub mod policy_laws;
pub mod proposer;
pub mod quorum;
pub mod quorum_laws;
pub mod ranking;
pub mod recorder;
pub mod recorder_laws;
pub mod register_laws;
pub mod register_log;
pub mod replica;
pub mod replica_laws;
pub mod round;
pub mod round_laws;
pub mod runtime;
pub mod runtime_course;
pub mod runtime_laws;
pub mod runtime_state;
pub mod save_course;
pub mod schedule;
pub mod settings_laws;
pub mod snapshot_laws;
pub mod span;
pub mod store;
pub mod text;
pub mod tuner;
pub mod tuner_course;
pub mod tuner_laws;
pub mod tuner_ranking;
pub mod types;

pub use atomic_file::{FileRecorderStore, FileRuntimeStore};
pub use cluster::{ClusterIdentity, MembershipChange, MembershipCommand, RecordReply};
pub use collections::{OrdMap, OrdSet};
pub use crash::{CrashInjector, CrashPoint, NoopCrashInjector};
pub use durable::{
    DurableRecorderCore, InMemoryRecorderStore, RecorderCodec, RecorderStateStore,
};
pub use error::{QuePaxaError, Result};
pub use isr::{IntervalSummaryRegister, IntervalSummarySnapshot};
pub use key::{Duplicate, Key};
pub use policy::{
    AdaptivePolicy, FixedLeaderPolicy, HedgingPolicy, LastWinnerPolicy, LeaderlessPolicy,
    RoundRobinPolicy,
};
pub use proposer::{
    PrioritySource, ProposalRun, ProposerConfig, ProposerCore, RecorderClient, RecorderHandle,
    XorShift64,
};
pub use quorum::QuorumCollector;
pub use recorder::{RecorderConfig, RecorderCore, RecorderLimits, RecorderSnapshot};
pub use replica::{LogSlot, ReplicaConfig, ReplicaCore, ReplicaSnapshot};
pub use runtime::{
    ClientNotifier, InMemoryRuntimeStore, NoopClientNotifier, NoopStateMachine, ReplicaRuntime,
    RuntimeCodec, RuntimePoll, RuntimeStateStore, StateMachine,
};
pub use runtime_state::{PendingProposalSnapshot, RuntimeSnapshot, StateTransferSnapshot};
pub use schedule::{
    AdaptiveHedgingConfig, EpochSchedule, EpochStat, ProtocolIdentity, ReplicaRuntimeConfig,
};
pub use span::Span;
pub use store::{
    AllowAllAvailability, FetchingAvailability, InMemoryValueStore, ValueAvailability, ValueFetcher,
    ValueStore,
};
pub use tuner::EpochTuner;
pub use types::{
    Decision, LaneId, Priority, Proposal, ProposalKey, RecordRequest, RecordSummary, ReplicaId,
    SlotIndex, Step,
};
