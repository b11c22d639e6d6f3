//! What a node grants to whom: certificates bound to identities, and requests
//! authorized by identity before they reach the recorder.

use crate::bytes::{copy_bytes, same_bytes};
use crate::cluster::RecordReply;
use crate::error;
use crate::error::{ErrorView, QuePaxaError, Result};
use crate::key::Key;
use crate::network::batch;
use crate::network::batch::{Batch, BatchService};
use crate::network::wire::{
    DeploymentId, NodeRequest, NodeResponse, PeerSender, RequestBody, ResponseBody, Submission,
    SubmissionOutcome, WireError, WireErrorCode, WireErrorView, WIRE_VERSION,
};
use crate::proposer;
use crate::proposer::RecorderClient;
use crate::text;
use crate::text::with_number;
use crate::types;
use crate::types::{Decision, ReplicaId, Step};
use std::marker::PhantomData;
use vstd::prelude::*;

verus! {

/// Who a certificate belongs to.
#[derive(Debug, Clone, Copy, PartialEq, Eq)]
pub enum PeerIdentity {
    Replica(ReplicaId),
    Client([u8; 16]),
}

impl PeerIdentity {
    /// The identity is the one that the sender claims.
    pub open spec fn is_sender(self, sender: PeerSender) -> bool {
        match (self, sender) {
            (PeerIdentity::Replica(left), PeerSender::Replica(right)) => left == right,
            (PeerIdentity::Client(left), PeerSender::Client(right)) => left == right,
            _ => false,
        }
    }

    /// Whether the identity is the one that the sender claims.
    pub fn matches_sender(&self, sender: &PeerSender) -> (matching: bool)
        ensures
            matching == self.is_sender(*sender),
    {
        match (self, sender) {
            (PeerIdentity::Replica(left), PeerSender::Replica(right)) => left.same(right),
            (PeerIdentity::Client(left), PeerSender::Client(right)) => left.same(right),
            _ => false,
        }
    }
}

/// A certificate and the identity it stands for.
#[derive(Debug, PartialEq, Eq)]
pub struct PeerEntry {
    pub certificate: Vec<u8>,
    pub identity: PeerIdentity,
}

/// What a list of entries binds; a later entry replaces an earlier one for the
/// same certificate.
pub open spec fn bound(entries: Seq<PeerEntry>) -> Map<Seq<u8>, PeerIdentity>
    decreases entries.len(),
{
    if entries.len() == 0 {
        Map::empty()
    } else {
        bound(entries.drop_last()).insert(entries.last().certificate@, entries.last().identity)
    }
}

/// Live certificate-to-protocol-identity allowlist. TLS chain validation still
/// comes from the TLS configuration; this registry supports leaf rotation and
/// immediate revocation without restarting the node listener.
#[derive(Debug)]
pub struct PeerRegistry {
    entries: Vec<PeerEntry>,
}

impl View for PeerRegistry {
    type V = Map<Seq<u8>, PeerIdentity>;

    closed spec fn view(&self) -> Map<Seq<u8>, PeerIdentity> {
        bound(self.entries@)
    }
}

proof fn lemma_bound_after(entries: Seq<PeerEntry>, from: int, certificate: Seq<u8>)
    requires
        0 <= from <= entries.len(),
        forall|i: int| from <= i < entries.len() ==> (#[trigger] entries[i]).certificate@
            != certificate,
    ensures
        bound(entries).dom().contains(certificate) == bound(entries.take(from)).dom().contains(
            certificate,
        ),
        bound(entries).dom().contains(certificate) ==> bound(entries)[certificate] == bound(
            entries.take(from),
        )[certificate],
    decreases entries.len() - from,
{
    if from == entries.len() {
        assert(entries.take(from) =~= entries);
    } else {
        let before = entries.drop_last();
        assert(entries[entries.len() - 1].certificate@ != certificate);
        assert forall|i: int| from <= i < before.len() implies (#[trigger] before[i]).certificate@
            != certificate by {
            assert(before[i] == entries[i]);
        }
        lemma_bound_after(before, from, certificate);
        assert(before.take(from) =~= entries.take(from));
    }
}

impl PeerRegistry {
    /// A registry of at least one certificate.
    pub fn new(peers: Vec<PeerEntry>) -> (registry: Result<Self>)
        ensures
            match registry {
                Ok(registry) => peers@.len() > 0 && registry@ == bound(peers@),
                Err(refusal) => peers@.len() == 0 && refusal@ == ErrorView::TransportError(
                    "at least one authenticated peer certificate is required"@,
                ),
            },
    {
        if peers.is_empty() {
            return Err(
                QuePaxaError::TransportError(
                    "at least one authenticated peer certificate is required".to_owned(),
                ),
            );
        }
        Ok(PeerRegistry { entries: peers })
    }

    /// Binds other certificates in place of all that were bound.
    pub fn replace(&mut self, peers: Vec<PeerEntry>) -> (result: Result<()>)
        ensures
            match result {
                Ok(()) => peers@.len() > 0 && final(self)@ == bound(peers@),
                Err(refusal) => {
                    &&& peers@.len() == 0
                    &&& final(self)@ == old(self)@
                    &&& refusal@ == ErrorView::TransportError(
                        "peer certificate registry cannot be empty"@,
                    )
                },
            },
    {
        if peers.is_empty() {
            return Err(
                QuePaxaError::TransportError(
                    "peer certificate registry cannot be empty".to_owned(),
                ),
            );
        }
        self.entries = peers;
        Ok(())
    }

    /// Binds a certificate to an identity.
    pub fn authorize(&mut self, certificate_der: Vec<u8>, identity: PeerIdentity)
        ensures
            final(self)@ == old(self)@.insert(certificate_der@, identity),
    {
        let ghost before = self.entries@;
        self.entries.push(PeerEntry { certificate: certificate_der, identity });
        assert(self.entries@.drop_last() =~= before);
    }

    /// Unbinds a certificate; tells whether it was bound.
    pub fn revoke(&mut self, certificate_der: &[u8]) -> (revoked: bool)
        ensures
            revoked == old(self)@.dom().contains(certificate_der@),
            final(self)@ == old(self)@.remove(certificate_der@),
    {
        let revoked: bool = self.identity_for(certificate_der).is_some();
        let ghost all = self.entries@;
        let mut kept: Vec<PeerEntry> = Vec::new();
        let mut i: usize = 0;
        assert(all.take(0) =~= Seq::<PeerEntry>::empty());
        assert(bound(kept@) =~= bound(all.take(0)).remove(certificate_der@));
        while i < self.entries.len()
            invariant
                i <= self.entries@.len(),
                all == self.entries@,
                bound(kept@) == bound(all.take(i as int)).remove(certificate_der@),
            decreases self.entries@.len() - i,
        {
            let entry: &PeerEntry = &self.entries[i];
            let ghost earlier = kept@;
            assert(all.take(i + 1).drop_last() =~= all.take(i as int));
            if !same_bytes(entry.certificate.as_slice(), certificate_der) {
                kept.push(
                    PeerEntry {
                        certificate: copy_bytes(entry.certificate.as_slice()),
                        identity: entry.identity,
                    },
                );
                assert(kept@.drop_last() =~= earlier);
            }
            assert(bound(kept@) =~= bound(all.take(i + 1)).remove(certificate_der@));
            i += 1;
        }
        assert(all.take(i as int) =~= all);
        self.entries = kept;
        revoked
    }

    /// The bindings, as entries that bind the same.
    pub fn snapshot(&self) -> (entries: Vec<PeerEntry>)
        ensures
            bound(entries@) == self@,
    {
        let mut entries: Vec<PeerEntry> = Vec::new();
        let mut i: usize = 0;
        assert(self.entries@.take(0) =~= Seq::<PeerEntry>::empty());
        while i < self.entries.len()
            invariant
                i <= self.entries@.len(),
                bound(entries@) == bound(self.entries@.take(i as int)),
            decreases self.entries@.len() - i,
        {
            let entry: &PeerEntry = &self.entries[i];
            let ghost earlier = entries@;
            entries.push(
                PeerEntry {
                    certificate: copy_bytes(entry.certificate.as_slice()),
                    identity: entry.identity,
                },
            );
            proof {
                assert(entries@.drop_last() =~= earlier);
                assert(self.entries@.take(i + 1).drop_last() =~= self.entries@.take(i as int));
            }
            i += 1;
        }
        assert(self.entries@.take(i as int) =~= self.entries@);
        entries
    }

    /// The identity that a certificate is bound to.
    pub fn identity_for(&self, certificate_der: &[u8]) -> (identity: Option<PeerIdentity>)
        ensures
            match identity {
                Some(identity) => self@.dom().contains(certificate_der@)
                    && self@[certificate_der@] == identity,
                None => !self@.dom().contains(certificate_der@),
            },
    {
        let mut i: usize = self.entries.len();
        while i > 0
            invariant
                i <= self.entries@.len(),
                forall|j: int|
                    i <= j < self.entries@.len() ==> (#[trigger] self.entries@[j]).certificate@
                        != certificate_der@,
            decreases i,
        {
            let entry: &PeerEntry = &self.entries[i - 1];
            if same_bytes(entry.certificate.as_slice(), certificate_der) {
                proof {
                    lemma_bound_after(self.entries@, i as int, certificate_der@);
                    assert(self.entries@.take(i as int).last() == *entry);
                }
                return Some(entry.identity);
            }
            i -= 1;
        }
        proof {
            lemma_bound_after(self.entries@, 0, certificate_der@);
            assert(self.entries@.take(0) =~= Seq::<PeerEntry>::empty());
        }
        None
    }
}

/// How a refusal is sent.
pub open spec fn wire_code(refusal: ErrorView) -> WireErrorCode {
    match refusal {
        ErrorView::InvalidSender(_)
        | ErrorView::InvalidRecorderReply { .. }
        | ErrorView::DuplicateRecorderReply(_) => WireErrorCode::Authentication,
        ErrorView::ConfigurationMismatch
        | ErrorView::InvalidReconfiguration(_)
        | ErrorView::ConfigurationEpochOverflow
        | ErrorView::InvalidQuorum { .. }
        | ErrorView::UnknownReplica(_) => WireErrorCode::Configuration,
        ErrorView::ResourceLimit { .. }
        | ErrorView::StepLimitExceeded { .. } => WireErrorCode::ResourceLimit,
        ErrorView::StorageError(_) => WireErrorCode::Storage,
        ErrorView::TransportError(_)
        | ErrorView::QuorumNotReached { .. } => WireErrorCode::Unavailable,
        ErrorView::ConflictingDecision { .. } => WireErrorCode::Conflict,
        ErrorView::ScheduleMismatch { .. } => WireErrorCode::ScheduleMismatch,
        ErrorView::SlotPruned { .. } => WireErrorCode::Pruned,
        ErrorView::EmptyCluster
        | ErrorView::EmptyProposal
        | ErrorView::EmptyDecision
        | ErrorView::MissingProposal
        | ErrorView::MissingValue
        | ErrorView::DuplicateReplica(_)
        | ErrorView::InvalidStep { .. }
        | ErrorView::InvalidProposal(_)
        | ErrorView::SlotAlreadyDecided { .. } => WireErrorCode::InvalidRequest,
        ErrorView::StepOverflow
        | ErrorView::SlotOverflow
        | ErrorView::PolicyError(_) => WireErrorCode::Internal,
    }
}

/// A refusal as it is sent: its kind and its text.
pub open spec fn sent(refusal: ErrorView) -> WireErrorView {
    WireErrorView { code: wire_code(refusal), message: refusal.message() }
}

/// A refusal as it is sent.
pub fn error_to_wire(refusal: QuePaxaError) -> (wire: WireError)
    ensures
        wire@ == sent(refusal@),
{
    let code: WireErrorCode = match &refusal {
        QuePaxaError::InvalidSender(_)
        | QuePaxaError::InvalidRecorderReply { .. }
        | QuePaxaError::DuplicateRecorderReply(_) => WireErrorCode::Authentication,
        QuePaxaError::ConfigurationMismatch
        | QuePaxaError::InvalidReconfiguration(_)
        | QuePaxaError::ConfigurationEpochOverflow
        | QuePaxaError::InvalidQuorum { .. }
        | QuePaxaError::UnknownReplica(_) => WireErrorCode::Configuration,
        QuePaxaError::ResourceLimit { .. }
        | QuePaxaError::StepLimitExceeded { .. } => WireErrorCode::ResourceLimit,
        QuePaxaError::StorageError(_) => WireErrorCode::Storage,
        QuePaxaError::TransportError(_)
        | QuePaxaError::QuorumNotReached { .. } => WireErrorCode::Unavailable,
        QuePaxaError::ConflictingDecision { .. } => WireErrorCode::Conflict,
        QuePaxaError::ScheduleMismatch { .. } => WireErrorCode::ScheduleMismatch,
        QuePaxaError::SlotPruned { .. } => WireErrorCode::Pruned,
        QuePaxaError::EmptyCluster
        | QuePaxaError::EmptyProposal
        | QuePaxaError::EmptyDecision
        | QuePaxaError::MissingProposal
        | QuePaxaError::MissingValue
        | QuePaxaError::DuplicateReplica(_)
        | QuePaxaError::InvalidStep { .. }
        | QuePaxaError::InvalidProposal(_)
        | QuePaxaError::SlotAlreadyDecided { .. } => WireErrorCode::InvalidRequest,
        QuePaxaError::StepOverflow
        | QuePaxaError::SlotOverflow
        | QuePaxaError::PolicyError(_) => WireErrorCode::Internal,
    };
    WireError { code, message: refusal.message() }
}

/// How much a server takes on.
#[derive(Debug, Clone, Copy, PartialEq, Eq)]
pub struct ServerLimits {
    pub max_frame: usize,
    pub max_connections: usize,
}

impl Default for ServerLimits {
    fn default() -> (limits: Self)
        ensures
            limits.max_frame == 8_388_608,
            limits.max_connections == 1024,
    {
        ServerLimits { max_frame: 8_388_608, max_connections: 1024 }
    }
}

impl ServerLimits {
    /// Bounds one frame.
    pub fn with_max_frame(self, max_frame: usize) -> (limits: Result<Self>)
        ensures
            match limits {
                Ok(limits) => 128 <= max_frame <= u32::MAX && limits == (ServerLimits {
                    max_frame,
                    ..self
                }),
                Err(refusal) => !(128 <= max_frame <= u32::MAX) && refusal@
                    == ErrorView::TransportError(
                    "maximum frame must be between 128 bytes and u32::MAX"@,
                ),
            },
    {
        if max_frame < 128 || max_frame > u32::MAX as usize {
            return Err(
                QuePaxaError::TransportError(
                    "maximum frame must be between 128 bytes and u32::MAX".to_owned(),
                ),
            );
        }
        Ok(ServerLimits { max_frame, max_connections: self.max_connections })
    }

    /// Bounds the connections at one time.
    pub fn with_max_connections(self, max_connections: usize) -> (limits: Result<Self>)
        ensures
            match limits {
                Ok(limits) => max_connections != 0 && limits == (ServerLimits {
                    max_connections,
                    ..self
                }),
                Err(refusal) => max_connections == 0 && refusal@ == ErrorView::TransportError(
                    "maximum concurrent connections must be non-zero"@,
                ),
            },
    {
        if max_connections == 0 {
            return Err(
                QuePaxaError::TransportError(
                    "maximum concurrent connections must be non-zero".to_owned(),
                ),
            );
        }
        Ok(ServerLimits { max_frame: self.max_frame, max_connections })
    }
}

/// Why a node does not serve a request from an authenticated peer.
pub open spec fn request_refusal<V>(
    deployment: DeploymentId,
    serves_batches: bool,
    peer: PeerIdentity,
    request: NodeRequest<V>,
) -> Option<ErrorView> {
    if request.version != WIRE_VERSION {
        Some(
            ErrorView::TransportError(
                "unsupported wire version "@ + text::decimal(request.version as nat),
            ),
        )
    } else if request.deployment != deployment {
        Some(ErrorView::ConfigurationMismatch)
    } else if !peer.is_sender(request.sender) {
        Some(
            ErrorView::TransportError("authenticated peer does not match the protocol sender"@),
        )
    } else {
        body_refusal(serves_batches, peer, request.body)
    }
}

/// Why a peer is not granted what a request asks for.
pub open spec fn body_refusal<V>(
    serves_batches: bool,
    peer: PeerIdentity,
    body: RequestBody<V>,
) -> Option<ErrorView> {
    match (peer, body) {
        (PeerIdentity::Replica(replica), RequestBody::Record(record)) => if record.sender
            != replica {
            Some(ErrorView::InvalidSender(record.sender))
        } else {
            None
        },
        (PeerIdentity::Replica(_), RequestBody::Status(_)) => None,
        (PeerIdentity::Replica(_), RequestBody::InformDecisions(_)) => None,
        (PeerIdentity::Replica(_), RequestBody::InstallMembership(_)) => None,
        (_, RequestBody::PublishBatches(_)) => missing_batch_service(serves_batches),
        (PeerIdentity::Replica(_), RequestBody::FetchBatches(_)) => missing_batch_service(
            serves_batches,
        ),
        (PeerIdentity::Client(client_id), RequestBody::Submit(submission)) => if submission.client_id
            != client_id || submission.value_ids@.len() == 0 {
            Some(
                ErrorView::InvalidProposal(
                    "submission identity does not match its authenticated client"@,
                ),
            )
        } else {
            None
        },
        (_, RequestBody::Ping) => None,
        _ => Some(
            ErrorView::TransportError(
                "authenticated peer is not authorized for this request type"@,
            ),
        ),
    }
}

/// The refusal of a node without batches.
pub open spec fn missing_batch_service(serves_batches: bool) -> Option<ErrorView> {
    if serves_batches {
        None
    } else {
        Some(ErrorView::TransportError("batch service is not configured"@))
    }
}

/// Checks a request and hands out what it asks for.
pub fn authorize_request<V>(
    deployment: DeploymentId,
    serves_batches: bool,
    peer: PeerIdentity,
    request: NodeRequest<V>,
) -> (granted: Result<RequestBody<V>>)
    ensures
        match granted {
            Ok(body) => body == request.body && request_refusal(
                deployment,
                serves_batches,
                peer,
                request,
            ) is None,
            Err(refusal) => request_refusal(deployment, serves_batches, peer, request) == Some(
                refusal@,
            ),
        },
{
    if request.version != WIRE_VERSION {
        return Err(
            QuePaxaError::TransportError(
                with_number("unsupported wire version ", request.version as u64),
            ),
        );
    }
    if !request.deployment.same_deployment(&deployment) {
        return Err(QuePaxaError::ConfigurationMismatch);
    }
    if !peer.matches_sender(&request.sender) {
        return Err(
            QuePaxaError::TransportError(
                "authenticated peer does not match the protocol sender".to_owned(),
            ),
        );
    }
    let body: RequestBody<V> = request.body;
    match check_body(serves_batches, peer, &body) {
        Ok(()) => Ok(body),
        Err(refusal) => Err(refusal),
    }
}

/// Checks whether a peer may ask for this.
fn check_body<V>(serves_batches: bool, peer: PeerIdentity, body: &RequestBody<V>) -> (checked:
    Result<()>)
    ensures
        match checked {
            Ok(()) => body_refusal(serves_batches, peer, *body) is None,
            Err(refusal) => body_refusal(serves_batches, peer, *body) == Some(refusal@),
        },
{
    match (peer, body) {
        (PeerIdentity::Replica(replica), RequestBody::Record(record)) => {
            if !record.sender.same(&replica) {
                return Err(QuePaxaError::InvalidSender(record.sender));
            }
            Ok(())
        },
        (PeerIdentity::Replica(_), RequestBody::Status(_)) => Ok(()),
        (PeerIdentity::Replica(_), RequestBody::InformDecisions(_)) => Ok(()),
        (PeerIdentity::Replica(_), RequestBody::InstallMembership(_)) => Ok(()),
        (_, RequestBody::PublishBatches(_)) => check_batch_service(serves_batches),
        (PeerIdentity::Replica(_), RequestBody::FetchBatches(_)) => check_batch_service(
            serves_batches,
        ),
        (PeerIdentity::Client(client_id), RequestBody::Submit(submission)) => {
            if !submission.client_id.same(&client_id) || submission.value_ids.len() == 0 {
                return Err(
                    QuePaxaError::InvalidProposal(
                        "submission identity does not match its authenticated client".to_owned(),
                    ),
                );
            }
            Ok(())
        },
        (_, RequestBody::Ping) => Ok(()),
        _ => Err(
            QuePaxaError::TransportError(
                "authenticated peer is not authorized for this request type".to_owned(),
            ),
        ),
    }
}

fn check_batch_service(serves_batches: bool) -> (checked: Result<()>)
    ensures
        match checked {
            Ok(()) => missing_batch_service(serves_batches) is None,
            Err(refusal) => missing_batch_service(serves_batches) == Some(refusal@),
        },
{
    if serves_batches {
        Ok(())
    } else {
        Err(QuePaxaError::TransportError("batch service is not configured".to_owned()))
    }
}

/// How far a granted request was served.
#[derive(Debug)]
pub enum Dispatched<V> {
    /// The answer is complete.
    Answer(ResponseBody<V>),
    /// The recorder knows these decisions; the submission handler is next.
    Decisions(Vec<Decision<V>>),
    /// The submission handler decides.
    Submit(Submission<V>),
}

/// What a connection is served with.
pub struct ConnectionContext<V, C, B> {
    deployment: DeploymentId,
    recorder: C,
    batch_service: Option<B>,
    marker: PhantomData<V>,
}

impl<V, C, B> ConnectionContext<V, C, B> {
    /// The deployment that requests must name.
    pub closed spec fn home(&self) -> DeploymentId {
        self.deployment
    }

    /// The batch service behind the node.
    pub closed spec fn batches(&self) -> Option<B> {
        self.batch_service
    }

    /// Whether batches are served.
    pub open spec fn serves_batches(&self) -> bool {
        self.batches() is Some
    }

    pub fn new(deployment: DeploymentId, recorder: C) -> (context: Self)
        ensures
            context.home() == deployment,
            context.endpoint() == recorder,
            !context.serves_batches(),
    {
        ConnectionContext { deployment, recorder, batch_service: None, marker: PhantomData }
    }

    /// Enables authenticated batch dissemination on this node. Clients and
    /// replicas may publish verified batches; only replicas may fetch them.
    pub fn with_batch_service(self, service: B) -> (context: Self)
        ensures
            context.home() == self.home(),
            context.endpoint() == self.endpoint(),
            context.batches() == Some(service),
    {
        ConnectionContext {
            deployment: self.deployment,
            recorder: self.recorder,
            batch_service: Some(service),
            marker: PhantomData,
        }
    }

    /// The recorder behind the node.
    pub closed spec fn endpoint(&self) -> C {
        self.recorder
    }

    /// The recorder behind the node.
    pub fn recorder(&self) -> (recorder: &C)
        ensures
            *recorder == self.endpoint(),
    {
        &self.recorder
    }

    /// The response to a request: what was answered, or the refusal.
    pub fn respond(&self, request_id: u64, served: Result<ResponseBody<V>>) -> (response:
        NodeResponse<V>)
        ensures
            response.version == WIRE_VERSION,
            response.deployment == self.home(),
            response.request_id == request_id,
            match served {
                Ok(body) => response.body == body,
                Err(refusal) => response.body matches ResponseBody::Error(wire) && wire@ == sent(
                    refusal@,
                ),
            },
    {
        let body: ResponseBody<V> = match served {
            Ok(body) => body,
            Err(refusal) => ResponseBody::Error(error_to_wire(refusal)),
        };
        NodeResponse { version: WIRE_VERSION, deployment: self.deployment, request_id, body }
    }
}

/// The answer once the submission handler has taken decisions.
pub fn decisions_received<V>(received: Result<()>) -> (answer: Result<ResponseBody<V>>)
    ensures
        match received {
            Ok(()) => answer == Ok::<ResponseBody<V>, QuePaxaError>(ResponseBody::Ack),
            Err(refusal) => answer == Err::<ResponseBody<V>, QuePaxaError>(refusal),
        },
{
    match received {
        Ok(()) => Ok(ResponseBody::Ack),
        Err(refusal) => Err(refusal),
    }
}

/// The answer once the submission handler has decided.
pub fn submission_decided<V>(outcome: Result<SubmissionOutcome<V>>) -> (answer: Result<
    ResponseBody<V>,
>)
    ensures
        match outcome {
            Ok(outcome) => answer == Ok::<ResponseBody<V>, QuePaxaError>(
                ResponseBody::Submission(outcome),
            ),
            Err(refusal) => answer == Err::<ResponseBody<V>, QuePaxaError>(refusal),
        },
{
    match outcome {
        Ok(outcome) => Ok(ResponseBody::Submission(outcome)),
        Err(refusal) => Err(refusal),
    }
}

/// How far a request is served once the recorder has answered.
pub open spec fn answered<V, T>(
    result: Result<T>,
    answer: spec_fn(T) -> ResponseBody<V>,
) -> Result<Dispatched<V>> {
    match result {
        Ok(value) => Ok(Dispatched::Answer(answer(value))),
        Err(refusal) => Err(refusal),
    }
}

/// Whether a granted request was served like this: the recorder or the batch
/// service got what it is about, and what they said is the answer.
pub open spec fn serves<V, C: RecorderClient<V>, B: BatchService<V>>(
    before: &ConnectionContext<V, C, B>,
    body: RequestBody<V>,
    served: Result<Dispatched<V>>,
    after: &ConnectionContext<V, C, B>,
) -> bool {
    match body {
        RequestBody::Record(request) => {
            &&& after.batches() == before.batches()
            &&& exists|reply: Result<RecordReply<V>>| #[trigger]
                before.endpoint().records(request@, error::outcome(reply), &after.endpoint())
                    && served == answered(reply, |reply: RecordReply<V>| ResponseBody::Record(reply))
        },
        RequestBody::Status(slot) => {
            &&& after.batches() == before.batches()
            &&& exists|step: Result<Option<Step>>| #[trigger]
                before.endpoint().reports(slot, proposer::step_outcome(step), &after.endpoint())
                    && served == answered(
                    step,
                    |step: Option<Step>| ResponseBody::<V>::Status(step),
                )
        },
        RequestBody::InformDecisions(decisions) => {
            &&& after.batches() == before.batches()
            &&& exists|told: Result<()>| #[trigger]
                before.endpoint().informs(
                    types::list_view(decisions@),
                    error::outcome(told),
                    &after.endpoint(),
                ) && served == match told {
                    Ok(()) => Ok::<Dispatched<V>, QuePaxaError>(Dispatched::Decisions(decisions)),
                    Err(refusal) => Err(refusal),
                }
        },
        RequestBody::InstallMembership(change) => {
            &&& after.batches() == before.batches()
            &&& exists|installed: Result<()>| #[trigger]
                before.endpoint().installs(change@, error::outcome(installed), &after.endpoint())
                    && served == answered(installed, |done: ()| ResponseBody::<V>::Ack)
        },
        RequestBody::PublishBatches(batches) => {
            &&& after.endpoint() == before.endpoint()
            &&& after.batches() is Some
            &&& exists|published: Result<()>| #[trigger]
                before.batches()->0.publishes(
                    types::list_view(batches@),
                    error::outcome(published),
                    &after.batches()->0,
                ) && served == answered(published, |done: ()| ResponseBody::<V>::Ack)
        },
        RequestBody::FetchBatches(value_ids) => {
            &&& *after == *before
            &&& exists|found: Result<Vec<Batch<V>>>| #[trigger]
                before.batches()->0.hands_out(value_ids@, batch::batches_outcome(found))
                    && served == answered(
                    found,
                    |batches: Vec<Batch<V>>| ResponseBody::Batches(batches),
                )
        },
        RequestBody::Submit(submission) => {
            &&& *after == *before
            &&& served == Ok::<Dispatched<V>, QuePaxaError>(Dispatched::Submit(submission))
        },
        RequestBody::Ping => {
            &&& *after == *before
            &&& served == Ok::<Dispatched<V>, QuePaxaError>(
                Dispatched::Answer(ResponseBody::Pong),
            )
        },
    }
}

impl<V: Key, C: RecorderClient<V>, B: BatchService<V>> ConnectionContext<V, C, B> {
    /// Serves a request of an authenticated peer: first the checks, then the
    /// recorder or the batches.
    pub fn dispatch(&mut self, peer: PeerIdentity, request: NodeRequest<V>) -> (served: Result<
        Dispatched<V>,
    >)
        ensures
            final(self).home() == old(self).home(),
            match request_refusal(old(self).home(), old(self).serves_batches(), peer, request) {
                Some(refusal) => {
                    &&& *final(self) == *old(self)
                    &&& served matches Err(given) && given@ == refusal
                },
                None => serves(old(self), request.body, served, final(self)),
            },
    {
        let body: RequestBody<V> = match authorize_request(
            self.deployment,
            self.batch_service.is_some(),
            peer,
            request,
        ) {
            Ok(body) => body,
            Err(refusal) => return Err(refusal),
        };
        match body {
            RequestBody::Record(record) => {
                let reply: Result<RecordReply<V>> = self.recorder.record(record);
                assert(old(self).endpoint().records(
                    record@,
                    error::outcome(reply),
                    &self.endpoint(),
                ));
                match reply {
                    Ok(reply) => Ok(Dispatched::Answer(ResponseBody::Record(reply))),
                    Err(refusal) => Err(refusal),
                }
            },
            RequestBody::Status(slot) => {
                let step: Result<Option<Step>> = self.recorder.status(slot);
                assert(old(self).endpoint().reports(
                    slot,
                    proposer::step_outcome(step),
                    &self.endpoint(),
                ));
                match step {
                    Ok(step) => Ok(Dispatched::Answer(ResponseBody::Status(step))),
                    Err(refusal) => Err(refusal),
                }
            },
            RequestBody::InformDecisions(decisions) => {
                let told: Result<()> = self.recorder.inform_decisions(decisions.as_slice());
                assert(old(self).endpoint().informs(
                    types::list_view(decisions@),
                    error::outcome(told),
                    &self.endpoint(),
                ));
                match told {
                    Ok(()) => Ok(Dispatched::Decisions(decisions)),
                    Err(refusal) => Err(refusal),
                }
            },
            RequestBody::InstallMembership(change) => {
                let installed: Result<()> = self.recorder.install_membership(change);
                assert(old(self).endpoint().installs(
                    change@,
                    error::outcome(installed),
                    &self.endpoint(),
                ));
                match installed {
                    Ok(()) => Ok(Dispatched::Answer(ResponseBody::Ack)),
                    Err(refusal) => Err(refusal),
                }
            },
            RequestBody::PublishBatches(batches) => {
                let published: Result<()> = self.publish(batches);
                assert(old(self).batches()->0.publishes(
                    types::list_view(batches@),
                    error::outcome(published),
                    &self.batches()->0,
                ));
                match published {
                    Ok(()) => Ok(Dispatched::Answer(ResponseBody::Ack)),
                    Err(refusal) => Err(refusal),
                }
            },
            RequestBody::FetchBatches(value_ids) => {
                let found: Result<Vec<Batch<V>>> = self.fetch(value_ids);
                assert(old(self).batches()->0.hands_out(
                    value_ids@,
                    batch::batches_outcome(found),
                ));
                match found {
                    Ok(batches) => Ok(Dispatched::Answer(ResponseBody::Batches(batches))),
                    Err(refusal) => Err(refusal),
                }
            },
            RequestBody::Submit(submission) => Ok(Dispatched::Submit(submission)),
            RequestBody::Ping => Ok(Dispatched::Answer(ResponseBody::Pong)),
        }
    }

    fn publish(&mut self, batches: Vec<Batch<V>>) -> (published: Result<()>)
        requires
            old(self).serves_batches(),
        ensures
            final(self).home() == old(self).home(),
            final(self).endpoint() == old(self).endpoint(),
            final(self).serves_batches(),
            old(self).batches()->0.publishes(
                types::list_view(batches@),
                error::outcome(published),
                &final(self).batches()->0,
            ),
    {
        let mut service: Option<B> = None;
        std::mem::swap(&mut service, &mut self.batch_service);
        match service {
            Some(inner) => {
                let mut inner: B = inner;
                let published = inner.publish(batches);
                self.batch_service = Some(inner);
                published
            },
            None => Err(QuePaxaError::TransportError("batch service is not configured".to_owned())),
        }
    }

    fn fetch(&self, value_ids: Vec<V>) -> (found: Result<Vec<Batch<V>>>)
        requires
            self.serves_batches(),
        ensures
            self.batches()->0.hands_out(value_ids@, batch::batches_outcome(found)),
    {
        match &self.batch_service {
            Some(service) => service.fetch(value_ids),
            None => Err(QuePaxaError::TransportError("batch service is not configured".to_owned())),
        }
    }
}

/// A peer speaks only for itself: a granted request comes from the sender it
/// names, records for that sender, and submits for that client.
pub proof fn peers_speak_for_themselves<V>(
    deployment: DeploymentId,
    serves_batches: bool,
    peer: PeerIdentity,
    request: NodeRequest<V>,
)
    requires
        request_refusal(deployment, serves_batches, peer, request) is None,
    ensures
        peer.is_sender(request.sender),
        request.body matches RequestBody::Record(record) ==> peer == PeerIdentity::Replica(
            record.sender,
        ),
        request.body matches RequestBody::Submit(submission) ==> peer == PeerIdentity::Client(
            submission.client_id,
        ),
{
}

/// A client reaches neither the recorder nor stored batches: it may publish,
/// submit and ping.
pub proof fn clients_stay_outside<V>(
    deployment: DeploymentId,
    serves_batches: bool,
    client_id: [u8; 16],
    request: NodeRequest<V>,
)
    requires
        request_refusal(
            deployment,
            serves_batches,
            PeerIdentity::Client(client_id),
            request,
        ) is None,
    ensures
        request.body is PublishBatches || request.body is Submit || request.body is Ping,
{
}

/// A request for another deployment, or of another version, is not served.
pub proof fn deployments_are_separate<V>(
    deployment: DeploymentId,
    serves_batches: bool,
    peer: PeerIdentity,
    request: NodeRequest<V>,
)
    requires
        request_refusal(deployment, serves_batches, peer, request) is None,
    ensures
        request.deployment == deployment,
        request.version == WIRE_VERSION,
{
}

} // verus!
