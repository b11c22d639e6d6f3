//! The client side of the wire: envelopes, frames, and what an answer means to
//! the caller.

use crate::bytes;
use crate::bytes::{push_all, push_be, same_bytes};
use crate::cluster::RecordReply;
use crate::error;
use crate::error::{ErrorView, QuePaxaError, Result};
use crate::key::Key;
use crate::network::batch;
use crate::network::batch::{Batch, BatchVerifier, BatchView};
use crate::network::server;
use crate::network::wire::{
    DeploymentId, NodeRequest, NodeResponse, PeerSender, RequestBody, ResponseBody,
    SubmissionOutcome, WireError, WireErrorCode, WireErrorView, WIRE_VERSION,
};
use crate::quorum;
use crate::span::Span;
use crate::store;
use crate::store::{FetchingAvailability, ValueAvailability, ValueFetcher, ValueStore};
use crate::text::{joined, numbered};
use crate::text;
use crate::types;
use crate::types::{list_contains, SlotIndex, Step};
use vstd::prelude::*;
use vstd::string::StringExecFns;

verus! {

/// The name of a kind of refusal.
pub open spec fn code_name(code: WireErrorCode) -> Seq<char> {
    match code {
        WireErrorCode::Authentication => "Authentication"@,
        WireErrorCode::Configuration => "Configuration"@,
        WireErrorCode::InvalidRequest => "InvalidRequest"@,
        WireErrorCode::ResourceLimit => "ResourceLimit"@,
        WireErrorCode::Storage => "Storage"@,
        WireErrorCode::Unavailable => "Unavailable"@,
        WireErrorCode::Internal => "Internal"@,
        WireErrorCode::Conflict => "Conflict"@,
        WireErrorCode::ScheduleMismatch => "ScheduleMismatch"@,
        WireErrorCode::Pruned => "Pruned"@,
    }
}

fn name_of(code: WireErrorCode) -> (name: &'static str)
    ensures
        name@ == code_name(code),
{
    match code {
        WireErrorCode::Authentication => "Authentication",
        WireErrorCode::Configuration => "Configuration",
        WireErrorCode::InvalidRequest => "InvalidRequest",
        WireErrorCode::ResourceLimit => "ResourceLimit",
        WireErrorCode::Storage => "Storage",
        WireErrorCode::Unavailable => "Unavailable",
        WireErrorCode::Internal => "Internal",
        WireErrorCode::Conflict => "Conflict",
        WireErrorCode::ScheduleMismatch => "ScheduleMismatch",
        WireErrorCode::Pruned => "Pruned",
    }
}

/// What a remote refusal means here. The safety signals keep their type when
/// the request was about a slot.
pub open spec fn local_error(wire: WireErrorView, slot: Option<SlotIndex>) -> ErrorView {
    match (wire.code, slot) {
        (WireErrorCode::Conflict, Some(slot)) => ErrorView::ConflictingDecision { slot },
        (WireErrorCode::ScheduleMismatch, Some(slot)) => ErrorView::ScheduleMismatch { slot },
        (WireErrorCode::Pruned, Some(slot)) => ErrorView::SlotPruned { slot },
        _ => ErrorView::TransportError(
            "remote node rejected request ("@ + code_name(wire.code) + "): "@ + wire.message,
        ),
    }
}

/// Maps a remote refusal onto the local error type, preserving the typed
/// safety signals that quorum collection must not retry past.
pub fn wire_error_to_local(wire: WireError, slot: Option<SlotIndex>) -> (refusal: QuePaxaError)
    ensures
        refusal@ == local_error(wire@, slot),
{
    match (wire.code, slot) {
        (WireErrorCode::Conflict, Some(slot)) => QuePaxaError::ConflictingDecision { slot },
        (WireErrorCode::ScheduleMismatch, Some(slot)) => QuePaxaError::ScheduleMismatch { slot },
        (WireErrorCode::Pruned, Some(slot)) => QuePaxaError::SlotPruned { slot },
        _ => {
            let mut message: String = joined("remote node rejected request (", name_of(wire.code));
            message.append("): ");
            message.append(wire.message.as_str());
            QuePaxaError::TransportError(message)
        },
    }
}

/// A safety signal about a slot crosses the wire unchanged.
pub proof fn safety_signals_cross_the_wire(refusal: ErrorView, slot: SlotIndex)
    requires
        refusal == (ErrorView::ConflictingDecision { slot }) || refusal
            == (ErrorView::ScheduleMismatch { slot }) || refusal == (ErrorView::SlotPruned {
            slot,
        }),
    ensures
        local_error(server::sent(refusal), Some(slot)) == refusal,
        quorum::is_fatal(local_error(server::sent(refusal), Some(slot))),
{
}

/// No other remote refusal becomes a safety signal.
pub proof fn other_refusals_stay_retriable(refusal: ErrorView, slot: Option<SlotIndex>)
    requires
        !(refusal is ConflictingDecision || refusal is ScheduleMismatch || refusal is SlotPruned),
    ensures
        local_error(server::sent(refusal), slot) is TransportError,
        !quorum::is_fatal(local_error(server::sent(refusal), slot)),
{
}

/// The refusal of a frame for its size.
pub open spec fn frame_refusal(length: nat) -> ErrorView {
    ErrorView::TransportError(
        "network frame size "@ + text::decimal(length) + " is outside the accepted range"@,
    )
}

fn refuse_frame(length: usize) -> (refusal: QuePaxaError)
    ensures
        refusal@ == frame_refusal(length as nat),
{
    QuePaxaError::TransportError(
        numbered("network frame size ", length as u64, " is outside the accepted range"),
    )
}

/// The bytes that go out for a message: its length in four bytes, highest
/// first, then the message.
pub open spec fn framed(message: Seq<u8>, max_frame: usize) -> std::result::Result<
    Seq<u8>,
    ErrorView,
> {
    if message.len() == 0 || message.len() > max_frame || message.len() > u32::MAX {
        Err(frame_refusal(message.len()))
    } else {
        Ok(bytes::be_bytes(message.len(), 4) + message)
    }
}

/// How long the message behind a length is.
pub open spec fn announced_length(length: u32, max_frame: usize) -> std::result::Result<
    usize,
    ErrorView,
> {
    if length == 0 || length > max_frame {
        Err(frame_refusal(length as nat))
    } else {
        Ok(length as usize)
    }
}

/// Frames a message.
pub fn encode_frame(message: &[u8], max_frame: usize) -> (frame: Result<Vec<u8>>)
    ensures
        error::outcome(frame) == framed(message@, max_frame),
{
    let length: usize = message.len();
    if length == 0 || length > max_frame || length > u32::MAX as usize {
        return Err(refuse_frame(length));
    }
    let mut frame: Vec<u8> = Vec::new();
    push_be(&mut frame, length as u64, 4);
    push_all(&mut frame, message);
    assert(frame@ =~= bytes::be_bytes(message@.len(), 4) + message@);
    Ok(frame)
}

/// Checks the length that a frame begins with.
pub fn frame_length(length: u32, max_frame: usize) -> (checked: Result<usize>)
    ensures
        match checked {
            Ok(value) => announced_length(length, max_frame) == Ok::<usize, ErrorView>(value),
            Err(refusal) => announced_length(length, max_frame) == Err::<usize, ErrorView>(
                refusal@,
            ),
        },
{
    if length == 0 || length as u64 > max_frame as u64 {
        return Err(
            QuePaxaError::TransportError(
                numbered("network frame size ", length as u64, " is outside the accepted range"),
            ),
        );
    }
    Ok(length as usize)
}

/// The receiver of a frame reads the length that was sent, and accepts it under
/// the same bound.
pub proof fn frames_are_read_back(message: Seq<u8>, max_frame: usize)
    requires
        framed(message, max_frame) is Ok,
    ensures
        ({
            let frame = framed(message, max_frame)->Ok_0;
            let length = message.len() as u32;
            &&& frame.take(4) == bytes::be_bytes(length as nat, 4)
            &&& frame.skip(4) == message
            &&& announced_length(length, max_frame) == Ok::<usize, ErrorView>(
                message.len() as usize,
            )
        }),
{
    bytes::lemma_be_bytes(message.len(), 4);
    let frame = framed(message, max_frame)->Ok_0;
    assert(frame.take(4) =~= bytes::be_bytes(message.len(), 4));
    assert(frame.skip(4) =~= message);
}

/// What a client says of itself in every request, and how long it waits.
#[derive(Debug, Clone, Copy)]
pub struct RpcClient {
    deployment: DeploymentId,
    sender: PeerSender,
    next_request_id: u64,
    max_frame: usize,
    rpc_timeout: Span,
}

/// A client's settings and the ID of its next request.
pub struct RpcClientView {
    pub deployment: DeploymentId,
    pub sender: PeerSender,
    pub next_request_id: u64,
    pub max_frame: usize,
    pub rpc_timeout: Span,
}

impl View for RpcClient {
    type V = RpcClientView;

    closed spec fn view(&self) -> RpcClientView {
        RpcClientView {
            deployment: self.deployment,
            sender: self.sender,
            next_request_id: self.next_request_id,
            max_frame: self.max_frame,
            rpc_timeout: self.rpc_timeout,
        }
    }
}

impl RpcClient {
    /// A client with a frame bound of eight mebibytes that waits thirty seconds.
    ///
    /// The wait is no consensus timeout: an expired call is simply retried by
    /// the quorum layer, never treated as a leader-failure signal.
    pub fn new(deployment: DeploymentId, sender: PeerSender) -> (client: Self)
        ensures
            client@ == (RpcClientView {
                deployment,
                sender,
                next_request_id: 1,
                max_frame: 8_388_608,
                rpc_timeout: Span { nanos: 30_000_000_000 },
            }),
    {
        RpcClient {
            deployment,
            sender,
            next_request_id: 1,
            max_frame: 8_388_608,
            rpc_timeout: Span::from_secs(30),
        }
    }

    pub fn with_max_frame(self, max_frame: usize) -> (client: Self)
        ensures
            client@ == (RpcClientView { max_frame, ..self@ }),
    {
        RpcClient {
            deployment: self.deployment,
            sender: self.sender,
            next_request_id: self.next_request_id,
            max_frame,
            rpc_timeout: self.rpc_timeout,
        }
    }

    pub fn with_rpc_timeout(self, timeout: Span) -> (client: Self)
        ensures
            client@ == (RpcClientView { rpc_timeout: timeout, ..self@ }),
    {
        RpcClient {
            deployment: self.deployment,
            sender: self.sender,
            next_request_id: self.next_request_id,
            max_frame: self.max_frame,
            rpc_timeout: timeout,
        }
    }

    pub fn max_frame(&self) -> (max_frame: usize)
        ensures
            max_frame == self@.max_frame,
    {
        self.max_frame
    }

    pub fn rpc_timeout(&self) -> (timeout: Span)
        ensures
            timeout == self@.rpc_timeout,
    {
        self.rpc_timeout
    }

    /// The next request; IDs count up and start over behind the largest.
    pub fn request<V>(&mut self, body: RequestBody<V>) -> (request: NodeRequest<V>)
        ensures
            request == (NodeRequest {
                version: WIRE_VERSION,
                deployment: old(self)@.deployment,
                request_id: old(self)@.next_request_id,
                sender: old(self)@.sender,
                body,
            }),
            final(self)@ == (RpcClientView {
                next_request_id: if old(self)@.next_request_id == u64::MAX {
                    0
                } else {
                    (old(self)@.next_request_id + 1) as u64
                },
                ..old(self)@
            }),
    {
        let request_id: u64 = self.next_request_id;
        self.next_request_id = if request_id == u64::MAX {
            0
        } else {
            request_id + 1
        };
        NodeRequest {
            version: WIRE_VERSION,
            deployment: self.deployment,
            request_id,
            sender: self.sender,
            body,
        }
    }

    /// The body of the response to a request.
    pub fn accept<V>(&self, request_id: u64, response: NodeResponse<V>) -> (body: Result<
        ResponseBody<V>,
    >)
        ensures
            match body {
                Ok(body) => {
                    &&& answers(self@.deployment, request_id, response)
                    &&& body == response.body
                },
                Err(refusal) => {
                    &&& !answers(self@.deployment, request_id, response)
                    &&& refusal@ == ErrorView::TransportError(
                        "network response envelope does not match the request"@,
                    )
                },
            },
    {
        if response.version != WIRE_VERSION || !response.deployment.same_deployment(
            &self.deployment,
        ) || response.request_id != request_id {
            return Err(
                QuePaxaError::TransportError(
                    "network response envelope does not match the request".to_owned(),
                ),
            );
        }
        Ok(response.body)
    }
}

/// A response belongs to a request.
pub open spec fn answers<V>(
    deployment: DeploymentId,
    request_id: u64,
    response: NodeResponse<V>,
) -> bool {
    response.version == WIRE_VERSION && response.deployment == deployment && response.request_id
        == request_id
}

/// A batch client waits at least a millisecond.
pub fn batch_timeout(timeout: Span) -> (wait: Span)
    ensures
        wait.nanos == if timeout.nanos < 1_000_000 {
            1_000_000
        } else {
            timeout.nanos
        },
{
    timeout.longer(Span::from_millis(1))
}

/// Checks that the peer is the recorder that was configured.
pub fn check_pinned_certificate(expected: &[u8], presented: Option<&[u8]>) -> (checked: Result<()>)
    ensures
        error::outcome(checked) == match presented {
            None => Err::<(), ErrorView>(
                ErrorView::TransportError("TLS peer did not present a certificate"@),
            ),
            Some(certificate) => if certificate@ == expected@ {
                Ok(())
            } else {
                Err(
                    ErrorView::TransportError(
                        "TLS peer certificate does not match the configured recorder"@,
                    ),
                )
            },
        },
{
    match presented {
        None => Err(
            QuePaxaError::TransportError("TLS peer did not present a certificate".to_owned()),
        ),
        Some(certificate) => {
            if same_bytes(certificate, expected) {
                Ok(())
            } else {
                Err(
                    QuePaxaError::TransportError(
                        "TLS peer certificate does not match the configured recorder".to_owned(),
                    ),
                )
            }
        },
    }
}

/// The reply to a record request about a slot.
pub fn expect_record<V>(body: ResponseBody<V>, slot: SlotIndex) -> (answer: Result<RecordReply<V>>)
    ensures
        match body {
            ResponseBody::Record(reply) => answer == Ok::<RecordReply<V>, QuePaxaError>(reply),
            ResponseBody::Error(wire) => answer matches Err(refusal) && refusal@ == local_error(
                wire@,
                Some(slot),
            ),
            _ => answer matches Err(refusal) && refusal@ == ErrorView::TransportError(
                "recorder returned an unexpected response type"@,
            ),
        },
{
    match body {
        ResponseBody::Record(reply) => Ok(reply),
        ResponseBody::Error(wire) => Err(wire_error_to_local(wire, Some(slot))),
        _ => Err(
            QuePaxaError::TransportError(
                "recorder returned an unexpected response type".to_owned(),
            ),
        ),
    }
}

/// The acknowledgement of decisions; `slot` is that of the first.
pub fn expect_decision_ack<V>(body: ResponseBody<V>, slot: Option<SlotIndex>) -> (answer: Result<()>)
    ensures
        match body {
            ResponseBody::Ack => answer is Ok,
            ResponseBody::Error(wire) => answer matches Err(refusal) && refusal@ == local_error(
                wire@,
                slot,
            ),
            _ => answer matches Err(refusal) && refusal@ == ErrorView::TransportError(
                "recorder returned an unexpected decision acknowledgement"@,
            ),
        },
{
    match body {
        ResponseBody::Ack => Ok(()),
        ResponseBody::Error(wire) => Err(wire_error_to_local(wire, slot)),
        _ => Err(
            QuePaxaError::TransportError(
                "recorder returned an unexpected decision acknowledgement".to_owned(),
            ),
        ),
    }
}

/// The recorder's step for a slot.
pub fn expect_status<V>(body: ResponseBody<V>, slot: SlotIndex) -> (answer: Result<Option<Step>>)
    ensures
        match body {
            ResponseBody::Status(step) => answer == Ok::<Option<Step>, QuePaxaError>(step),
            ResponseBody::Error(wire) => answer matches Err(refusal) && refusal@ == local_error(
                wire@,
                Some(slot),
            ),
            _ => answer matches Err(refusal) && refusal@ == ErrorView::TransportError(
                "recorder returned an unexpected status response"@,
            ),
        },
{
    match body {
        ResponseBody::Status(step) => Ok(step),
        ResponseBody::Error(wire) => Err(wire_error_to_local(wire, Some(slot))),
        _ => Err(
            QuePaxaError::TransportError(
                "recorder returned an unexpected status response".to_owned(),
            ),
        ),
    }
}

/// The acknowledgement of a membership change anchored at a slot.
pub fn expect_membership_ack<V>(body: ResponseBody<V>, slot: SlotIndex) -> (answer: Result<()>)
    ensures
        match body {
            ResponseBody::Ack => answer is Ok,
            ResponseBody::Error(wire) => answer matches Err(refusal) && refusal@ == local_error(
                wire@,
                Some(slot),
            ),
            _ => answer matches Err(refusal) && refusal@ == ErrorView::TransportError(
                "recorder returned an unexpected membership acknowledgement"@,
            ),
        },
{
    match body {
        ResponseBody::Ack => Ok(()),
        ResponseBody::Error(wire) => Err(wire_error_to_local(wire, Some(slot))),
        _ => Err(
            QuePaxaError::TransportError(
                "recorder returned an unexpected membership acknowledgement".to_owned(),
            ),
        ),
    }
}

/// The acknowledgement of published batches.
pub fn expect_publish_ack<V>(body: ResponseBody<V>) -> (answer: Result<()>)
    ensures
        match body {
            ResponseBody::Ack => answer is Ok,
            ResponseBody::Error(wire) => answer matches Err(refusal) && refusal@ == local_error(
                wire@,
                None,
            ),
            _ => answer matches Err(refusal) && refusal@ == ErrorView::TransportError(
                "node returned an unexpected batch publish response"@,
            ),
        },
{
    match body {
        ResponseBody::Ack => Ok(()),
        ResponseBody::Error(wire) => Err(wire_error_to_local(wire, None)),
        _ => Err(
            QuePaxaError::TransportError(
                "node returned an unexpected batch publish response".to_owned(),
            ),
        ),
    }
}

/// The batches that were fetched.
pub fn expect_batches<V>(body: ResponseBody<V>) -> (answer: Result<Vec<Batch<V>>>)
    ensures
        match body {
            ResponseBody::Batches(batches) => answer == Ok::<Vec<Batch<V>>, QuePaxaError>(batches),
            ResponseBody::Error(wire) => answer matches Err(refusal) && refusal@ == local_error(
                wire@,
                None,
            ),
            _ => answer matches Err(refusal) && refusal@ == ErrorView::TransportError(
                "node returned an unexpected batch fetch response"@,
            ),
        },
{
    match body {
        ResponseBody::Batches(batches) => Ok(batches),
        ResponseBody::Error(wire) => Err(wire_error_to_local(wire, None)),
        _ => Err(
            QuePaxaError::TransportError(
                "node returned an unexpected batch fetch response".to_owned(),
            ),
        ),
    }
}

/// What became of a submission.
pub fn expect_submission<V>(body: ResponseBody<V>) -> (answer: Result<SubmissionOutcome<V>>)
    ensures
        match body {
            ResponseBody::Submission(outcome) => answer == Ok::<SubmissionOutcome<V>, QuePaxaError>(outcome),
            ResponseBody::Error(wire) => answer matches Err(refusal) && refusal@ == local_error(
                wire@,
                None,
            ),
            _ => answer matches Err(refusal) && refusal@ == ErrorView::TransportError(
                "node returned an unexpected submission response"@,
            ),
        },
{
    match body {
        ResponseBody::Submission(outcome) => Ok(outcome),
        ResponseBody::Error(wire) => Err(wire_error_to_local(wire, None)),
        _ => Err(
            QuePaxaError::TransportError(
                "node returned an unexpected submission response".to_owned(),
            ),
        ),
    }
}

/// The answer to a ping.
pub fn expect_pong<V>(body: ResponseBody<V>) -> (answer: Result<()>)
    ensures
        match body {
            ResponseBody::Pong => answer is Ok,
            ResponseBody::Error(wire) => answer matches Err(refusal) && refusal@ == local_error(
                wire@,
                None,
            ),
            _ => answer matches Err(refusal) && refusal@ == ErrorView::TransportError(
                "node returned an unexpected health response"@,
            ),
        },
{
    match body {
        ResponseBody::Pong => Ok(()),
        ResponseBody::Error(wire) => Err(wire_error_to_local(wire, None)),
        _ => Err(
            QuePaxaError::TransportError(
                "node returned an unexpected health response".to_owned(),
            ),
        ),
    }
}

/// Acknowledgements of one publish request, gathered until there are enough.
#[derive(Debug, Clone, Copy, PartialEq, Eq)]
pub struct PublishQuorum {
    required: usize,
    acknowledged: usize,
    pending: usize,
}

/// How many acknowledgements are needed, came, and may still come.
pub struct PublishView {
    pub required: nat,
    pub acknowledged: nat,
    pub pending: nat,
}

impl View for PublishQuorum {
    type V = PublishView;

    closed spec fn view(&self) -> PublishView {
        PublishView {
            required: self.required as nat,
            acknowledged: self.acknowledged as nat,
            pending: self.pending as nat,
        }
    }
}

impl PublishView {
    /// More acknowledgements are needed and may come.
    pub open spec fn undecided(self) -> bool {
        self.acknowledged < self.required <= self.acknowledged + self.pending
    }

    /// What is known once a node has answered or failed.
    pub open spec fn after(self, acknowledged: bool) -> Self {
        PublishView {
            required: self.required,
            acknowledged: if acknowledged {
                self.acknowledged + 1
            } else {
                self.acknowledged
            },
            pending: (self.pending - 1) as nat,
        }
    }

    /// The verdict so far, if there is one.
    pub open spec fn verdict(self) -> Option<std::result::Result<(), ErrorView>> {
        if self.acknowledged >= self.required {
            Some(Ok(()))
        } else if self.acknowledged + self.pending < self.required {
            Some(
                Err(
                    ErrorView::QuorumNotReached {
                        needed: self.required as usize,
                        received: self.acknowledged as usize,
                    },
                ),
            )
        } else {
            None
        }
    }
}

impl PublishQuorum {
    /// Waits for so many of the nodes that were asked.
    pub fn new(nodes: usize, required_acknowledgements: usize) -> (quorum: Result<Self>)
        ensures
            match quorum {
                Ok(quorum) => {
                    &&& 0 < required_acknowledgements <= nodes
                    &&& quorum@.undecided()
                    &&& quorum@ == (PublishView {
                        required: required_acknowledgements as nat,
                        acknowledged: 0,
                        pending: nodes as nat,
                    })
                },
                Err(refusal) => {
                    &&& !(0 < required_acknowledgements <= nodes)
                    &&& refusal@ == (ErrorView::InvalidQuorum {
                        replicas: nodes,
                        quorum: required_acknowledgements,
                    })
                },
            },
    {
        if nodes == 0 || required_acknowledgements == 0 || required_acknowledgements > nodes {
            return Err(
                QuePaxaError::InvalidQuorum { replicas: nodes, quorum: required_acknowledgements },
            );
        }
        Ok(PublishQuorum { required: required_acknowledgements, acknowledged: 0, pending: nodes })
    }

    /// Takes in one node's result and tells the verdict, if there is one.
    pub fn receive(&mut self, acknowledged: bool) -> (verdict: Option<Result<()>>)
        requires
            old(self)@.undecided(),
        ensures
            final(self)@ == old(self)@.after(acknowledged),
            verdict is None <==> final(self)@.undecided(),
            match verdict {
                Some(verdict) => final(self)@.verdict() == Some(error::outcome(verdict)),
                None => final(self)@.verdict() is None,
            },
    {
        self.pending = self.pending - 1;
        if acknowledged {
            self.acknowledged = self.acknowledged + 1;
            if self.acknowledged == self.required {
                return Some(Ok(()));
            }
        }
        if self.required - self.acknowledged > self.pending {
            return Some(
                Err(
                    QuePaxaError::QuorumNotReached {
                        needed: self.required,
                        received: self.acknowledged,
                    },
                ),
            );
        }
        None
    }
}

/// A publish succeeds only once enough nodes have acknowledged it.
pub proof fn publishing_needs_acknowledgements(state: PublishView, acknowledged: bool)
    requires
        state.undecided(),
        state.after(acknowledged).verdict() == Some(Ok::<(), ErrorView>(())),
    ensures
        state.after(acknowledged).acknowledged == state.required,
{
}

/// A publish fails only once too few nodes remain.
pub proof fn publishing_fails_only_when_hopeless(state: PublishView, acknowledged: bool)
    requires
        state.undecided(),
        state.after(acknowledged).verdict() matches Some(Err(_)),
    ensures
        state.after(acknowledged).acknowledged + state.after(acknowledged).pending
            < state.required,
{
}

/// A place from which batches are fetched.
pub trait BatchSource<V> {
    /// Whether a fetch may go like this: from here, with this answer, to
    /// `after`. A place that does not say leaves every answer open.
    open spec fn supplies(
        &self,
        value_ids: Seq<V>,
        found: std::result::Result<Seq<BatchView<V>>, ErrorView>,
        after: &Self,
    ) -> bool {
        true
    }

    fn fetch(&mut self, value_ids: &[V]) -> (found: Result<Vec<Batch<V>>>)
        ensures
            old(self).supplies(value_ids@, batch::batches_outcome(found), final(self)),
    ;
}

/// The batches are exactly those requested, each once.
pub open spec fn complete_answer<V>(requested: Seq<V>, batches: Seq<BatchView<V>>) -> bool {
    &&& forall|i: int| 0 <= i < batches.len() ==> requested.contains(
        (#[trigger] batches[i]).value_id,
    )
    &&& forall|i: int, j: int|
        0 <= i < j < batches.len() ==> (#[trigger] batches[i]).value_id != (
        #[trigger] batches[j]).value_id
    &&& forall|k: int| 0 <= k < requested.len() ==> brings(batches, #[trigger] requested[k])
}

/// One of the batches has this value ID.
pub open spec fn brings<V>(batches: Seq<BatchView<V>>, value_id: V) -> bool {
    exists|i: int| 0 <= i < batches.len() && (#[trigger] batches[i]).value_id == value_id
}

/// The place of a value among batches.
fn find_batch<V: Key>(batches: &[Batch<V>], value_id: &V, count: usize) -> (found: Option<usize>)
    requires
        count <= batches@.len(),
    ensures
        match found {
            Some(i) => i < count && batches@[i as int].value_id == *value_id,
            None => forall|i: int|
                0 <= i < count ==> (#[trigger] batches@[i]).value_id != *value_id,
        },
{
    let mut i: usize = 0;
    while i < count
        invariant
            i <= count <= batches@.len(),
            forall|j: int| 0 <= j < i ==> (#[trigger] batches@[j]).value_id != *value_id,
        decreases count - i,
    {
        if batches[i].value_id.same(value_id) {
            return Some(i);
        }
        i += 1;
    }
    None
}

/// Whether an answer holds exactly the requested batches.
pub fn is_complete_answer<V: Key>(requested: &[V], batches: &[Batch<V>]) -> (complete: bool)
    ensures
        complete == complete_answer(requested@, types::list_view(batches@)),
{
    let ghost views = types::list_view(batches@);
    let mut i: usize = 0;
    while i < batches.len()
        invariant
            i <= batches@.len(),
            views == types::list_view(batches@),
            forall|j: int| 0 <= j < i ==> requested@.contains((#[trigger] views[j]).value_id),
            forall|j: int, k: int|
                0 <= j < k < i ==> (#[trigger] views[j]).value_id != (#[trigger] views[k]).value_id,
        decreases batches@.len() - i,
    {
        let batch: &Batch<V> = &batches[i];
        assert(views[i as int].value_id == batch.value_id);
        if !list_contains(requested, &batch.value_id) {
            return false;
        }
        match find_batch(batches, &batch.value_id, i) {
            Some(j) => {
                assert(views[j as int].value_id == views[i as int].value_id);
                return false;
            },
            None => {
                assert forall|j: int| 0 <= j < i implies (#[trigger] views[j]).value_id
                    != views[i as int].value_id by {
                    assert(views[j].value_id == batches@[j].value_id);
                }
            },
        }
        i += 1;
    }
    let mut k: usize = 0;
    while k < requested.len()
        invariant
            k <= requested@.len(),
            views == types::list_view(batches@),
            forall|j: int| 0 <= j < k ==> brings(views, #[trigger] requested@[j]),
        decreases requested@.len() - k,
    {
        match find_batch(batches, &requested[k], batches.len()) {
            Some(i) => {
                assert(views[i as int].value_id == requested@[k as int]);
                assert(brings(views, requested@[k as int]));
            },
            None => {
                assert forall|i: int| 0 <= i < views.len() implies (#[trigger] views[i]).value_id
                    != requested@[k as int] by {
                    assert(views[i].value_id == batches@[i].value_id);
                }
                return false;
            },
        }
        k += 1;
    }
    true
}

/// Value IDs and payloads of batches.
pub open spec fn as_pairs<V>(batches: Seq<BatchView<V>>) -> Seq<(V, Seq<u8>)> {
    batches.map_values(|batch: BatchView<V>| (batch.value_id, batch.payload))
}

/// Value IDs and payloads as views.
pub open spec fn pair_views<V>(pairs: Seq<(V, Vec<u8>)>) -> Seq<(V, Seq<u8>)> {
    pairs.map_values(|pair: (V, Vec<u8>)| (pair.0, pair.1@))
}

/// Takes batches apart.
fn into_pairs<V>(batches: Vec<Batch<V>>) -> (pairs: Vec<(V, Vec<u8>)>)
    ensures
        pair_views(pairs@) == as_pairs(types::list_view(batches@)),
{
    let ghost all = batches@;
    let mut rest: Vec<Batch<V>> = batches;
    let mut pairs: Vec<(V, Vec<u8>)> = Vec::new();
    let count: usize = rest.len();
    let mut i: usize = 0;
    while i < count
        invariant
            i <= count == all.len(),
            rest@ == all.skip(i as int),
            pairs@.len() == i,
            forall|j: int|
                0 <= j < i ==> (#[trigger] pairs@[j]).0 == all[j].value_id && pairs@[j].1@
                    == all[j].payload@,
        decreases count - i,
    {
        assert(rest@[0] == all[i as int]);
        let batch: Batch<V> = rest.remove(0);
        assert(rest@ =~= all.skip(i + 1));
        pairs.push((batch.value_id, batch.payload));
        i += 1;
    }
    assert(pair_views(pairs@) =~= as_pairs(types::list_view(all)));
    pairs
}

/// Fetches payloads from several places in turn. Payloads are verified locally
/// before they become available to consensus.
pub struct TlsBatchFetcher<S, F> {
    sources: Vec<S>,
    verifier: F,
}

/// Whether the verifier may refuse a batch.
pub open spec fn refused<V, F: BatchVerifier<V>>(verifier: F, batch: BatchView<V>) -> bool {
    exists|refusal: ErrorView| #[trigger]
        verifier.answers(batch.value_id, batch.payload, Err(refusal))
}

/// Whether an answer can be used: it holds exactly the requested batches, and
/// each was verified.
pub open spec fn passed<V, F: BatchVerifier<V>>(
    verifier: F,
    requested: Seq<V>,
    batches: Seq<BatchView<V>>,
) -> bool {
    &&& complete_answer(requested, batches)
    &&& forall|i: int|
        0 <= i < batches.len() ==> verifier.answers(
            (#[trigger] batches[i]).value_id,
            batches[i].payload,
            Ok(()),
        )
}

/// Whether the next place is asked after an answer.
pub open spec fn failed<V, F: BatchVerifier<V>>(
    verifier: F,
    requested: Seq<V>,
    answer: std::result::Result<Seq<BatchView<V>>, ErrorView>,
) -> bool {
    match answer {
        Err(_) => true,
        Ok(batches) => !complete_answer(requested, batches) || exists|i: int|
            0 <= i < batches.len() && refused(verifier, #[trigger] batches[i]),
    }
}

/// Whether places were asked in turn with these answers, and the others not.
pub open spec fn asked<V, S: BatchSource<V>>(
    before: Seq<S>,
    requested: Seq<V>,
    answers: Seq<std::result::Result<Seq<BatchView<V>>, ErrorView>>,
    after: Seq<S>,
) -> bool {
    &&& answers.len() <= before.len()
    &&& after.len() == before.len()
    &&& forall|i: int|
        0 <= i < answers.len() ==> before[i].supplies(
            requested,
            #[trigger] answers[i],
            &after[i],
        )
    &&& forall|i: int| answers.len() <= i < before.len() ==> #[trigger] after[i] == before[i]
}

/// What is fetched once places have given these answers in turn.
pub open spec fn picked<V, F: BatchVerifier<V>>(
    verifier: F,
    requested: Seq<V>,
    answers: Seq<std::result::Result<Seq<BatchView<V>>, ErrorView>>,
    places: nat,
    fetched: std::result::Result<Seq<(V, Vec<u8>)>, ErrorView>,
) -> bool {
    match fetched {
        Ok(pairs) => {
            &&& answers.len() > 0
            &&& forall|i: int|
                0 <= i < answers.len() - 1 ==> failed(verifier, requested, #[trigger] answers[i])
            &&& answers.last() matches Ok(batches) && passed(verifier, requested, batches)
                && pair_views(pairs) == as_pairs(batches)
        },
        Err(refusal) => {
            &&& answers.len() == places
            &&& forall|i: int|
                0 <= i < answers.len() ==> failed(verifier, requested, #[trigger] answers[i])
            &&& refusal == if answers.len() == 0 {
                ErrorView::MissingValue
            } else {
                match answers.last() {
                    Ok(_) => ErrorView::MissingValue,
                    Err(last) => last,
                }
            }
        },
    }
}

impl<S, F> TlsBatchFetcher<S, F> {
    /// The places that are asked, in order.
    pub closed spec fn places(&self) -> Seq<S> {
        self.sources@
    }

    /// What verifies payloads.
    pub closed spec fn verified_by(&self) -> F {
        self.verifier
    }

    pub fn new(source: S, verifier: F) -> (fetcher: Self)
        ensures
            fetcher.places() == seq![source],
            fetcher.verified_by() == verifier,
    {
        let mut sources: Vec<S> = Vec::new();
        sources.push(source);
        assert(sources@ =~= seq![source]);
        TlsBatchFetcher { sources, verifier }
    }

    /// Asks further places when the earlier ones fail.
    pub fn with_fallbacks(self, more: Vec<S>) -> (fetcher: Self)
        ensures
            fetcher.places() == self.places() + more@,
            fetcher.verified_by() == self.verified_by(),
    {
        let TlsBatchFetcher { sources, verifier } = self;
        let mut sources: Vec<S> = sources;
        let mut more: Vec<S> = more;
        sources.append(&mut more);
        TlsBatchFetcher { sources, verifier }
    }

    /// Whether every payload belongs to its value ID.
    fn verified<V>(&self, batches: &[Batch<V>]) -> (all: bool)
        where F: BatchVerifier<V>
        ensures
            all ==> forall|i: int|
                0 <= i < batches@.len() ==> self.verified_by().answers(
                    (#[trigger] batches@[i]).value_id,
                    batches@[i].payload@,
                    Ok(()),
                ),
            !all ==> exists|i: int|
                0 <= i < batches@.len() && refused(self.verified_by(), (#[trigger] batches@[i])@),
    {
        let mut i: usize = 0;
        while i < batches.len()
            invariant
                i <= batches@.len(),
                forall|j: int|
                    0 <= j < i ==> self.verified_by().answers(
                        (#[trigger] batches@[j]).value_id,
                        batches@[j].payload@,
                        Ok(()),
                    ),
            decreases batches@.len() - i,
        {
            match self.verifier.verify(&batches[i].value_id, batches[i].payload.as_slice()) {
                Ok(()) => {},
                Err(refusal) => {
                    let ghost batch = batches@[i as int]@;
                    assert(self.verified_by().answers(batch.value_id, batch.payload, Err(refusal@)));
                    assert(refused(self.verified_by(), batch));
                    return false;
                },
            }
            i += 1;
        }
        true
    }
}

impl<V: Key, S: BatchSource<V>, F: BatchVerifier<V>> ValueFetcher<
    V,
    Vec<u8>,
> for TlsBatchFetcher<S, F> {
    /// The places are asked in turn until one gives exactly the requested
    /// batches, each verified; a place that answers otherwise counts as one that
    /// misses a value.
    open spec fn fetches(
        &self,
        value_ids: Seq<V>,
        fetched: std::result::Result<Seq<(V, Vec<u8>)>, ErrorView>,
        after: &Self,
    ) -> bool {
        &&& after.verified_by() == self.verified_by()
        &&& exists|answers: Seq<std::result::Result<Seq<BatchView<V>>, ErrorView>>| #[trigger]
            asked(self.places(), value_ids, answers, after.places()) && picked(
                self.verified_by(),
                value_ids,
                answers,
                self.places().len(),
                fetched,
            )
    }

    #[verifier::loop_isolation(false)]
    fn fetch_values(&mut self, value_ids: &[V]) -> (fetched: Result<Vec<(V, Vec<u8>)>>) {
        let mut last_error: QuePaxaError = QuePaxaError::MissingValue;
        let ghost start = self.sources@;
        let ghost mut answers: Seq<std::result::Result<Seq<BatchView<V>>, ErrorView>> = Seq::empty();
        let count: usize = self.sources.len();
        let mut i: usize = 0;
        while i < count
            invariant
                i <= count == self.sources@.len(),
                count == start.len(),
                answers.len() == i,
                self.verifier == old(self).verifier,
                asked(start, value_ids@, answers, self.sources@),
                forall|j: int|
                    0 <= j < i ==> failed(self.verifier, value_ids@, #[trigger] answers[j]),
                last_error@ == if i == 0 {
                    ErrorView::MissingValue
                } else {
                    match answers.last() {
                        Ok(_) => ErrorView::MissingValue,
                        Err(last) => last,
                    }
                },
            decreases count - i,
        {
            let ghost before = self.sources@;
            let answer: Result<Vec<Batch<V>>> = self.sources[i].fetch(value_ids);
            let ghost given = batch::batches_outcome(answer);
            proof {
                assert(before[i as int] == start[i as int]);
                let longer = answers.push(given);
                assert forall|j: int| 0 <= j < longer.len() implies start[j].supplies(
                    value_ids@,
                    #[trigger] longer[j],
                    &self.sources@[j],
                ) by {
                    if j < i {
                        assert(longer[j] == answers[j]);
                    }
                }
                assert forall|j: int| longer.len() <= j < start.len() implies #[trigger]
                    self.sources@[j] == start[j] by {
                    assert(before[j] == start[j]);
                }
                answers = longer;
                assert(asked(start, value_ids@, answers, self.sources@));
            }
            match answer {
                Err(refusal) => {
                    last_error = refusal;
                },
                Ok(batches) => {
                    let ghost views = types::list_view(batches@);
                    assert forall|j: int| 0 <= j < views.len() implies #[trigger] views[j]
                        == batches@[j]@ by {}
                    if is_complete_answer(value_ids, batches.as_slice()) {
                        if self.verified(batches.as_slice()) {
                            assert forall|j: int| 0 <= j < views.len() implies self.verifier.answers(
                                (#[trigger] views[j]).value_id,
                                views[j].payload,
                                Ok(()),
                            ) by {
                                assert(views[j] == batches@[j]@);
                            }
                            assert(passed(self.verifier, value_ids@, views));
                            let pairs: Vec<(V, Vec<u8>)> = into_pairs(batches);
                            assert(picked(
                                self.verifier,
                                value_ids@,
                                answers,
                                start.len(),
                                Ok(pairs@),
                            ));
                            assert(asked(
                                old(self).places(),
                                value_ids@,
                                answers,
                                self.places(),
                            ));
                            return Ok(pairs);
                        }
                        proof {
                            let j = choose|j: int|
                                0 <= j < batches@.len() && refused(
                                    self.verifier,
                                    (#[trigger] batches@[j])@,
                                );
                            assert(refused(self.verifier, views[j]));
                        }
                    }
                    assert(failed(self.verifier, value_ids@, given));
                    last_error = QuePaxaError::MissingValue;
                },
            }
            i += 1;
        }
        assert(picked(self.verifier, value_ids@, answers, start.len(), Err(last_error@)));
        assert(asked(old(self).places(), value_ids@, answers, self.places()));
        Err(last_error)
    }
}

/// Only what was asked for and verified is fetched: the pairs stand for exactly
/// the requested batches, each once and verified.
pub proof fn fetched_payloads_are_verified<V, F: BatchVerifier<V>>(
    verifier: F,
    requested: Seq<V>,
    answers: Seq<std::result::Result<Seq<BatchView<V>>, ErrorView>>,
    places: nat,
    pairs: Seq<(V, Vec<u8>)>,
)
    requires
        picked(verifier, requested, answers, places, Ok(pairs)),
    ensures
        exists|batches: Seq<BatchView<V>>| #[trigger]
            passed(verifier, requested, batches) && pair_views(pairs) == as_pairs(batches),
{
    let batches = answers.last()->Ok_0;
    assert(passed(verifier, requested, batches));
}

/// A recorder acknowledges no value whose payload was not verified for it: every
/// value that became available has a payload under its ID that the verifier
/// approved for that ID.
pub proof fn acknowledged_payloads_are_verified<
    V: Key,
    P: ValueStore<V, Vec<u8>>,
    S: BatchSource<V>,
    F: BatchVerifier<V>,
>(
    before: &FetchingAvailability<V, Vec<u8>, P, TlsBatchFetcher<S, F>>,
    value_ids: Seq<V>,
    after: &FetchingAvailability<V, Vec<u8>, P, TlsBatchFetcher<S, F>>,
)
    requires
        before.provides(value_ids, Ok(()), after),
    ensures
        forall|id: V| #[trigger]
            value_ids.contains(id) && !before.payloads().stored().contains(id) ==> exists|
                payload: Vec<u8>,
            | #[trigger]
                after.payloads().holds(id, payload) && before.source().verified_by().answers(
                    id,
                    payload@,
                    Ok(()),
                ),
{
    let stored = before.payloads().stored();
    let missing = value_ids.to_set().difference(stored);
    let verifier = before.source().verified_by();
    let fetched = store::acknowledged_values_are_held(before, value_ids, after);
    assert forall|id: V| #[trigger]
        value_ids.contains(id) && !stored.contains(id) implies exists|payload: Vec<u8>| #[trigger]
        after.payloads().holds(id, payload) && verifier.answers(id, payload@, Ok(())) by {
        assert(missing.contains(id));
        let requested = crate::collections::in_order(missing);
        let answers = choose|answers: Seq<std::result::Result<Seq<BatchView<V>>, ErrorView>>|
            #[trigger]
            asked(before.source().places(), requested, answers, after.source().places()) && picked(
                verifier,
                requested,
                answers,
                before.source().places().len(),
                Ok(fetched),
            );
        let batches = answers.last()->Ok_0;
        let j = choose|j: int|
            0 <= j < fetched.len() && (#[trigger] fetched[j]).0 == id && after.payloads().holds(
                id,
                fetched[j].1,
            );
        assert(passed(verifier, requested, batches));
        assert(pair_views(fetched).len() == as_pairs(batches).len());
        assert(pair_views(fetched)[j] == as_pairs(batches)[j]);
        assert(batches[j].value_id == id);
        assert(verifier.answers(batches[j].value_id, batches[j].payload, Ok(())));
        assert(after.payloads().holds(id, fetched[j].1));
    }
}

} // verus!
