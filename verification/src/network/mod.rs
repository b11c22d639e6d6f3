//! Versioned networking for nodes: what is said, checked and decided, apart
//! from the sockets that carry it.

pub mod async_proposer;
pub mod batch;
pub mod chaos;
pub mod codec;
pub mod dedupe;
pub mod durability;
pub mod envelope;
pub mod framed_file;
pub mod harness_laws;
pub mod load;
pub mod metrics;
pub mod node_course;
pub mod node_laws;
pub mod node_runtime;
pub mod node_steps;
pub mod place_laws;
pub mod server;
pub mod service_laws;
pub mod tls;
pub mod transport;
pub mod wire;

pub use async_proposer::AsyncProposerCore;
pub use batch::{
    AuthenticatedBatchService, Batch, BatchService, BatchServiceLimits, BatchStore, BatchVerifier,
    FileBatchStore, InMemoryBatchStore,
};
pub use chaos::{
    ChaosRecorderClient, RpcChaosProfile, WanHarnessReport, WanLinkProfile, WanLinkReport,
    WanProxyStats,
};
pub use codec::{
    PostcardRecorderCodec, PostcardRuntimeCodec, PostcardStateTransferCodec, STORAGE_VERSION,
};
pub use dedupe::{
    DeduplicatingStateMachine, DeduplicatingSubmissionHandler, ExactlyOnceExecutor,
    FileExactlyOnceExecutor, FileSubmissionJournal, InMemoryExactlyOnceExecutor,
    InMemorySubmissionJournal, SubmissionJournal,
};
pub use durability::{InMemorySnapshotStore, SnapshotCodec, SnapshotStore};
pub use framed_file::{FramedFile, SnapshotFrame};
pub use load::{OpenLoopLoadConfig, OpenLoopLoadGenerator};
pub use metrics::{NetworkMetrics, NetworkMetricsSnapshot};
pub use node_runtime::{NetworkConsensusHandler, SubmissionStep};
pub use node_steps::{
    AllAcks, DecisionAcks, MembershipInstall, MembershipPlan, TransferPlan, TurnAction,
};
pub use server::{ConnectionContext, PeerEntry, PeerIdentity, PeerRegistry};
pub use tls::TlsIdentity;
pub use transport::{BatchSource, PublishQuorum, RpcClient, TlsBatchFetcher};
pub use wire::{
    DeploymentId, NodeRequest, NodeResponse, PeerSender, RequestBody, ResponseBody, Submission,
    SubmissionOutcome, WireError, WireErrorCode, WIRE_VERSION,
};
