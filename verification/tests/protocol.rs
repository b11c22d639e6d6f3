use rust_quepaxa::network::chaos::{
    dropped_call, duration_mod, validate_link_names, xorshift, LinkAction,
};
use rust_quepaxa::network::load::{percentile, Completion};
use rust_quepaxa::network::server::{
    authorize_request, decisions_received, error_to_wire, submission_decided, Dispatched,
    ServerLimits,
};
use rust_quepaxa::network::transport::{
    batch_timeout, check_pinned_certificate, encode_frame, expect_batches, expect_decision_ack,
    expect_membership_ack, expect_pong, expect_publish_ack, expect_record, expect_status,
    expect_submission, frame_length, is_complete_answer, wire_error_to_local,
};
use rust_quepaxa::network::{
    Batch, BatchService, BatchSource, BatchVerifier, ChaosRecorderClient, ConnectionContext,
    DeploymentId, NetworkMetrics, NodeRequest, NodeResponse, OpenLoopLoadConfig,
    OpenLoopLoadGenerator, PeerEntry, PeerIdentity, PeerRegistry, PeerSender, PublishQuorum,
    RequestBody, ResponseBody, RpcChaosProfile, RpcClient, Submission, SubmissionOutcome,
    TlsBatchFetcher, WanLinkProfile, WireError, WireErrorCode, WIRE_VERSION,
};
use rust_quepaxa::{
    Decision, LaneId, Priority, Proposal, ProposalKey, QuePaxaError, RecordRequest, RecorderCore,
    ReplicaId, Result, SlotIndex, Span, Step, ValueFetcher,
};

const HOME: u128 = 42;

fn home() -> DeploymentId {
    DeploymentId::from_u128(HOME)
}

fn request(sender: PeerSender, body: RequestBody<u64>) -> NodeRequest<u64> {
    NodeRequest {
        version: WIRE_VERSION,
        deployment: home(),
        request_id: 5,
        sender,
        body,
    }
}

fn decided(slot: u64, value: u64) -> Decision<u64> {
    Decision::new(
        SlotIndex::new(slot),
        vec![value],
        ReplicaId::new(1),
        Step::new(4),
    )
    .unwrap()
}

fn submission(client: u8) -> Submission<u64> {
    Submission {
        client_id: [client; 16],
        request_id: 9,
        value_ids: vec![1],
    }
}

struct NoBatches;

impl BatchService<u64> for NoBatches {
    fn publish(&mut self, _batches: Vec<Batch<u64>>) -> Result<()> {
        Ok(())
    }

    fn fetch(&self, value_ids: Vec<u64>) -> Result<Vec<Batch<u64>>> {
        Ok(value_ids
            .into_iter()
            .map(|value_id| Batch {
                value_id,
                payload: vec![7],
            })
            .collect())
    }
}

fn context() -> ConnectionContext<u64, RecorderCore<u64>, NoBatches> {
    let members: Vec<ReplicaId> = (1..=3).map(ReplicaId::new).collect();
    ConnectionContext::new(
        home(),
        RecorderCore::permissive_for_tests(ReplicaId::new(1), members).unwrap(),
    )
}

const REPLICA: PeerIdentity = PeerIdentity::Replica(ReplicaId(2));
const CLIENT: PeerIdentity = PeerIdentity::Client([3; 16]);

#[test]
fn deployments_are_written_in_network_order() {
    let id = DeploymentId::from_u128(0x0102_0304_0506_0708_090a_0b0c_0d0e_0f10);
    assert_eq!(
        id.0,
        [1, 2, 3, 4, 5, 6, 7, 8, 9, 10, 11, 12, 13, 14, 15, 16]
    );
    assert!(id.same_deployment(&id));
    assert!(!id.same_deployment(&home()));
}

#[test]
fn requests_are_checked_before_they_are_served() {
    let replica = PeerSender::Replica(ReplicaId::new(2));
    let mut other = request(replica, RequestBody::Ping);
    other.version = WIRE_VERSION + 1;
    assert_eq!(
        authorize_request(home(), true, REPLICA, other).unwrap_err(),
        QuePaxaError::TransportError("unsupported wire version 5".to_string())
    );
    let mut other = request(replica, RequestBody::Ping);
    other.deployment = DeploymentId::from_u128(1);
    assert_eq!(
        authorize_request(home(), true, REPLICA, other).unwrap_err(),
        QuePaxaError::ConfigurationMismatch
    );
    assert_eq!(
        authorize_request(home(), true, CLIENT, request(replica, RequestBody::Ping)).unwrap_err(),
        QuePaxaError::TransportError(
            "authenticated peer does not match the protocol sender".to_string()
        )
    );
    assert!(authorize_request(home(), true, REPLICA, request(replica, RequestBody::Ping)).is_ok());
}

#[test]
fn clients_cannot_act_as_replicas() {
    let client = PeerSender::Client([3; 16]);
    for body in [
        RequestBody::Status(SlotIndex::new(1)),
        RequestBody::InformDecisions(vec![decided(1, 1)]),
        RequestBody::FetchBatches(vec![1]),
    ] {
        assert!(authorize_request(home(), true, CLIENT, request(client, body)).is_err());
    }
    assert!(authorize_request(
        home(),
        true,
        CLIENT,
        request(client, RequestBody::Submit(submission(3)))
    )
    .is_ok());
    assert!(authorize_request(
        home(),
        true,
        CLIENT,
        request(client, RequestBody::Submit(submission(4)))
    )
    .is_err());
    assert!(authorize_request(
        home(),
        true,
        REPLICA,
        request(
            PeerSender::Replica(ReplicaId::new(2)),
            RequestBody::Submit(submission(3))
        )
    )
    .is_err());
}

#[test]
fn requests_reach_what_serves_them() {
    let replica = PeerSender::Replica(ReplicaId::new(2));
    let mut context = context();
    assert!(matches!(
        context.dispatch(REPLICA, request(replica, RequestBody::Ping)),
        Ok(Dispatched::Answer(ResponseBody::Pong))
    ));
    let record = RecordRequest {
        sender: ReplicaId::new(2),
        slot: SlotIndex::new(1),
        round_one_leader: Some(ReplicaId::new(2)),
        step: Step::new(4),
        proposal: Proposal::new(
            ProposalKey::new(Priority::max(), ReplicaId::new(2), LaneId::new(1)),
            vec![10],
        )
        .unwrap(),
        known_decisions: Vec::new(),
    };
    assert!(matches!(
        context.dispatch(REPLICA, request(replica, RequestBody::Record(record))),
        Ok(Dispatched::Answer(ResponseBody::Record(_)))
    ));
    assert!(matches!(
        context.dispatch(
            REPLICA,
            request(replica, RequestBody::Status(SlotIndex::new(1)))
        ),
        Ok(Dispatched::Answer(ResponseBody::Status(Some(Step(4)))))
    ));
    match context.dispatch(
        REPLICA,
        request(replica, RequestBody::InformDecisions(vec![decided(1, 10)])),
    ) {
        Ok(Dispatched::Decisions(list)) => assert_eq!(list, vec![decided(1, 10)]),
        _ => unreachable!(),
    }
    assert_eq!(context.recorder().decisions(), vec![decided(1, 10)]);
    assert!(context
        .dispatch(
            REPLICA,
            request(replica, RequestBody::FetchBatches(vec![1]))
        )
        .is_err());
    let mut context = context.with_batch_service(NoBatches);
    match context.dispatch(
        REPLICA,
        request(replica, RequestBody::FetchBatches(vec![1])),
    ) {
        Ok(Dispatched::Answer(ResponseBody::Batches(list))) => {
            assert_eq!(list[0].payload, vec![7])
        }
        _ => unreachable!(),
    }
    match context.dispatch(
        CLIENT,
        request(
            PeerSender::Client([3; 16]),
            RequestBody::Submit(submission(3)),
        ),
    ) {
        Ok(Dispatched::Submit(handed)) => assert_eq!(handed, submission(3)),
        _ => unreachable!(),
    }
}

#[test]
fn answers_name_their_request() {
    let context = context();
    let response = context.respond(8, Ok(ResponseBody::Pong));
    assert_eq!(response.version, WIRE_VERSION);
    assert_eq!(response.request_id, 8);
    assert!(response.deployment.same_deployment(&home()));
    assert_eq!(response.body, ResponseBody::Pong);
    match context
        .respond(8, Err(QuePaxaError::ConfigurationMismatch))
        .body
    {
        ResponseBody::Error(wire) => assert_eq!(wire.code, WireErrorCode::Configuration),
        _ => unreachable!(),
    }
    assert_eq!(
        decisions_received::<u64>(Ok(())).unwrap(),
        ResponseBody::Ack
    );
    assert_eq!(
        submission_decided(Ok(SubmissionOutcome::<u64>::Accepted)).unwrap(),
        ResponseBody::Submission(SubmissionOutcome::Accepted)
    );
}

#[test]
fn certificates_name_their_peers() {
    let entry = |byte: u8, identity: PeerIdentity| PeerEntry {
        certificate: vec![byte],
        identity,
    };
    let mut registry = PeerRegistry::new(vec![entry(1, REPLICA), entry(2, CLIENT)]).unwrap();
    assert_eq!(registry.identity_for(&[1]), Some(REPLICA));
    assert_eq!(registry.identity_for(&[2]), Some(CLIENT));
    assert_eq!(registry.identity_for(&[3]), None);
    registry.authorize(vec![3], CLIENT);
    assert_eq!(registry.identity_for(&[3]), Some(CLIENT));
    registry.authorize(vec![3], REPLICA);
    assert_eq!(registry.identity_for(&[3]), Some(REPLICA));
    assert!(registry.revoke(&[3]));
    assert!(!registry.revoke(&[3]));
    assert_eq!(registry.identity_for(&[3]), None);
    assert_eq!(registry.snapshot().len(), 2);
    assert!(registry.replace(Vec::new()).is_err());
    assert_eq!(registry.snapshot().len(), 2);
    registry.replace(vec![entry(9, REPLICA)]).unwrap();
    assert_eq!(registry.identity_for(&[1]), None);
    assert!(REPLICA.matches_sender(&PeerSender::Replica(ReplicaId::new(2))));
    assert!(!REPLICA.matches_sender(&PeerSender::Client([3; 16])));
}

#[test]
fn server_limits_admit_something() {
    assert!(ServerLimits::default().with_max_frame(0).is_err());
    assert!(ServerLimits::default().with_max_connections(0).is_err());
    let limits = ServerLimits::default()
        .with_max_frame(128)
        .unwrap()
        .with_max_connections(2)
        .unwrap();
    assert_eq!(limits.max_frame, 128);
    assert!(ServerLimits::default().with_max_frame(127).is_err());
    assert_eq!(limits.max_connections, 2);
}

#[test]
fn safety_signals_survive_the_wire() {
    let slot = SlotIndex::new(6);
    for refusal in [
        QuePaxaError::ConflictingDecision { slot },
        QuePaxaError::ScheduleMismatch { slot },
        QuePaxaError::SlotPruned { slot },
    ] {
        assert_eq!(
            wire_error_to_local(error_to_wire(refusal.clone()), Some(slot)),
            refusal
        );
    }
    assert_eq!(
        wire_error_to_local(error_to_wire(QuePaxaError::MissingValue), Some(slot)),
        QuePaxaError::TransportError(
            "remote node rejected request (InvalidRequest): required value is missing from the value store"
                .to_string()
        )
    );
    assert_eq!(
        error_to_wire(QuePaxaError::StorageError("full".to_string())),
        WireError {
            code: WireErrorCode::Storage,
            message: "full".to_string()
        }
    );
}

#[test]
fn frames_carry_their_length() {
    let frame = encode_frame(&[9, 8, 7], 16).unwrap();
    assert_eq!(frame, vec![0, 0, 0, 3, 9, 8, 7]);
    assert_eq!(frame_length(3, 16).unwrap(), 3);
    assert!(frame_length(0, 16).is_err());
    assert!(frame_length(17, 16).is_err());
    assert!(encode_frame(&[0; 17], 16).is_err());
    assert!(encode_frame(&[], 16).is_err());
}

#[test]
fn calls_are_matched_with_their_answers() {
    let mut client = RpcClient::new(home(), PeerSender::Replica(ReplicaId::new(1)))
        .with_max_frame(77)
        .with_rpc_timeout(Span::from_millis(30));
    assert_eq!(client.max_frame(), 77);
    assert_eq!(client.rpc_timeout(), Span::from_millis(30));
    let first = client.request::<u64>(RequestBody::Ping);
    let second = client.request::<u64>(RequestBody::Ping);
    assert_ne!(first.request_id, second.request_id);
    let answer = |request_id: u64| NodeResponse::<u64> {
        version: WIRE_VERSION,
        deployment: home(),
        request_id,
        body: ResponseBody::Pong,
    };
    assert_eq!(
        client
            .accept(first.request_id, answer(first.request_id))
            .unwrap(),
        ResponseBody::Pong
    );
    assert!(client
        .accept(first.request_id, answer(second.request_id))
        .is_err());
    let mut foreign = answer(first.request_id);
    foreign.deployment = DeploymentId::from_u128(7);
    assert!(client.accept(first.request_id, foreign).is_err());
    let mut old = answer(first.request_id);
    old.version = 1;
    assert!(client.accept(first.request_id, old).is_err());
}

#[test]
fn unexpected_answers_are_refused() {
    let slot = SlotIndex::new(1);
    let odd = || ResponseBody::<u64>::Pong;
    assert!(expect_record(odd(), slot).is_err());
    assert!(expect_decision_ack(odd(), Some(slot)).is_err());
    assert!(expect_status(odd(), slot).is_err());
    assert!(expect_membership_ack(odd(), slot).is_err());
    assert!(expect_publish_ack(odd()).is_err());
    assert!(expect_batches(odd()).is_err());
    assert!(expect_submission(odd()).is_err());
    assert!(expect_pong(odd()).is_ok());
    assert!(expect_pong(ResponseBody::<u64>::Ack).is_err());
    assert!(expect_decision_ack(ResponseBody::<u64>::Ack, None).is_ok());
    assert!(expect_membership_ack(ResponseBody::<u64>::Ack, slot).is_ok());
    assert!(expect_publish_ack(ResponseBody::<u64>::Ack).is_ok());
    assert_eq!(
        expect_status(ResponseBody::<u64>::Status(Some(Step::new(4))), slot).unwrap(),
        Some(Step::new(4))
    );
    assert_eq!(
        expect_record(
            ResponseBody::<u64>::Error(error_to_wire(QuePaxaError::SlotPruned { slot })),
            slot
        )
        .unwrap_err(),
        QuePaxaError::SlotPruned { slot }
    );
}

#[test]
fn certificates_are_pinned() {
    assert!(check_pinned_certificate(&[1, 2], Some(&[1, 2])).is_ok());
    assert!(check_pinned_certificate(&[1, 2], Some(&[1, 3])).is_err());
    assert!(check_pinned_certificate(&[1, 2], None).is_err());
    assert_eq!(batch_timeout(Span::from_secs(2)), Span::from_secs(2));
    assert_eq!(batch_timeout(Span::zero()), Span::from_millis(1));
}

#[test]
fn publishing_counts_acknowledgements() {
    assert!(PublishQuorum::new(3, 0).is_err());
    assert!(PublishQuorum::new(3, 4).is_err());
    let mut quorum = PublishQuorum::new(3, 2).unwrap();
    assert!(quorum.receive(true).is_none());
    assert!(quorum.receive(false).is_none());
    assert!(matches!(quorum.receive(true), Some(Ok(()))));
    let mut quorum = PublishQuorum::new(3, 2).unwrap();
    assert!(quorum.receive(false).is_none());
    assert!(matches!(
        quorum.receive(false),
        Some(Err(QuePaxaError::QuorumNotReached {
            needed: 2,
            received: 0
        }))
    ));
}

struct Source(Vec<Batch<u64>>);

impl BatchSource<u64> for Source {
    fn fetch(&mut self, _value_ids: &[u64]) -> Result<Vec<Batch<u64>>> {
        Ok(self
            .0
            .iter()
            .map(|batch| Batch {
                value_id: batch.value_id,
                payload: batch.payload.clone(),
            })
            .collect())
    }
}

struct EvenPayload;

impl BatchVerifier<u64> for EvenPayload {
    fn verify(&self, _value_id: &u64, payload: &[u8]) -> Result<()> {
        if payload.len() % 2 == 0 {
            Ok(())
        } else {
            Err(QuePaxaError::InvalidProposal("odd".to_string()))
        }
    }
}

fn batch(value_id: u64, payload: &[u8]) -> Batch<u64> {
    Batch {
        value_id,
        payload: payload.to_vec(),
    }
}

#[test]
fn fetching_falls_back_to_a_source_that_verifies() {
    let mut fetcher = TlsBatchFetcher::new(Source(vec![batch(1, &[1])]), EvenPayload)
        .with_fallbacks(vec![
            Source(vec![batch(2, &[1, 2])]),
            Source(vec![batch(1, &[3, 4])]),
        ]);
    assert_eq!(
        fetcher.fetch_values(&[1]).unwrap(),
        vec![(1, vec![3, 4])]
    );
    assert!(fetcher.fetch_values(&[5]).is_err());
    assert!(is_complete_answer(&[1, 2], &[batch(2, &[]), batch(1, &[])]));
    assert!(!is_complete_answer(&[1, 2], &[batch(2, &[])]));
    assert!(!is_complete_answer(&[1], &[batch(1, &[]), batch(1, &[])]));
}

fn reference_xorshift(mut value: u64) -> u64 {
    value = value.max(1);
    value ^= value << 13;
    value ^= value >> 7;
    value ^= value << 17;
    value
}

#[test]
fn links_delay_reset_and_swallow() {
    let profile = WanLinkProfile {
        seed: 42,
        base_delay: Span::from_millis(5),
        jitter: Span::from_nanos(1000),
        bandwidth_bytes_per_second: Some(1000),
        fail_every: Some(3),
        reset_after_bytes: Some(50),
        blackhole_after_bytes: Some(80),
    };
    profile.validate().unwrap();
    assert!(!profile.rejects(1));
    assert!(!profile.rejects(2));
    assert!(profile.rejects(3));
    let mut link = profile.outbound(1);
    match link.carry(10) {
        LinkAction::Forward { delay } => {
            assert!(delay >= Span::from_millis(15));
            assert!(delay <= Span::from_millis(15).saturating_plus(Span::from_nanos(1000)));
        }
        _ => unreachable!(),
    }
    assert_eq!(link.carry(40), LinkAction::Reset);
    assert_eq!(link.carry(40), LinkAction::Blackhole);
    let steady = WanLinkProfile::default();
    assert!(!steady.rejects(5));
    assert!(WanLinkProfile {
        fail_every: Some(0),
        ..WanLinkProfile::default()
    }
    .validate()
    .is_err());
    assert_eq!(xorshift(42), reference_xorshift(42));
    assert_eq!(duration_mod(Span::zero(), 7), Span::zero());
    assert_eq!(duration_mod(Span::from_nanos(9), 25), Span::from_nanos(5));
}

#[test]
fn link_names_are_distinct() {
    let names = |list: &[&str]| list.iter().map(|name| name.to_string()).collect::<Vec<_>>();
    assert!(validate_link_names(&names(&[])).is_err());
    assert!(validate_link_names(&names(&["a", "a"])).is_err());
    assert!(validate_link_names(&names(&["a", ""])).is_err());
    assert!(validate_link_names(&names(&["a", "b"])).is_ok());
}

#[test]
fn chaos_drops_and_repeats_calls_on_schedule() {
    let mut client = ChaosRecorderClient::new(
        (),
        RpcChaosProfile {
            seed: 3,
            base_delay: Span::from_millis(2),
            jitter: Span::zero(),
            drop_every: Some(2),
            duplicate_every: Some(3),
        },
    )
    .unwrap();
    let plans: Vec<(bool, bool)> = (0..6)
        .map(|_| {
            let plan = client.plan_record();
            assert_eq!(plan.delay, Span::from_millis(2));
            (plan.dropped, plan.duplicated)
        })
        .collect();
    assert_eq!(
        plans.iter().map(|plan| plan.0).collect::<Vec<_>>(),
        vec![false, true, false, true, false, true]
    );
    assert!(plans[2].1);
    assert!(!plans[0].1);
    assert!(matches!(dropped_call(), QuePaxaError::TransportError(_)));
    assert!(ChaosRecorderClient::new(
        (),
        RpcChaosProfile {
            drop_every: Some(0),
            ..RpcChaosProfile::default()
        }
    )
    .is_err());
}

#[test]
fn loads_are_reproducible_and_summed_up() {
    let config = OpenLoopLoadConfig {
        seed: 7,
        requests_per_second: 100,
        duration: Span::from_millis(30),
        max_in_flight: 16,
    };
    let mut first = OpenLoopLoadGenerator::new(config).unwrap();
    let mut second = OpenLoopLoadGenerator::new(config).unwrap();
    for _ in 0..5 {
        assert_eq!(first.offer(true).unwrap(), second.offer(true).unwrap());
        assert_eq!(first.draw(), second.draw());
    }
    assert!(first.offer(false).unwrap().is_none());
    for micros in [30, 10, 20, 50, 40] {
        first.complete(Completion::Committed, micros);
    }
    first.complete(Completion::Failed, 60);
    let summary = first.summary();
    assert_eq!(summary.seed, 7);
    assert_eq!(summary.offered, 6);
    assert_eq!(summary.dropped_overload, 1);
    assert_eq!(summary.committed, summary.offered - summary.dropped_overload);
    assert_eq!(summary.errors, 1);
    assert_eq!(summary.latency_p50_micros, 30);
    assert_eq!(summary.latency_p99_micros, 50);
    assert!(OpenLoopLoadGenerator::new(OpenLoopLoadConfig {
        requests_per_second: 0,
        ..config
    })
    .is_err());
    let values: Vec<u64> = (1..=100).collect();
    assert_eq!(percentile(&[], 50), 0);
    assert_eq!(percentile(&[5], 99), 5);
    assert_eq!(percentile(&values, 99), 99);
    assert_eq!(percentile(&values, 50), 50);
    assert!(matches!(
        Completion::of::<u64>(&Err(QuePaxaError::MissingValue)),
        Completion::Failed
    ));
    assert!(matches!(
        Completion::of(&Ok(SubmissionOutcome::<u64>::Accepted)),
        Completion::Accepted
    ));
}

#[test]
fn metrics_count_what_happens() {
    let mut metrics = NetworkMetrics::default();
    metrics.connection_accepted();
    metrics.authentication_failed();
    metrics.request_received(10);
    metrics.request_received(5);
    metrics.response_sent(7);
    metrics.request_failed();
    metrics.quorum_cancelled(2);
    let counts = metrics.snapshot();
    assert_eq!(counts.accepted_connections, 1);
    assert_eq!(counts.authentication_failures, 1);
    assert_eq!(counts.requests, 2);
    assert_eq!(counts.bytes_received, 15);
    assert_eq!(counts.bytes_sent, 7);
    assert_eq!(counts.request_errors, 1);
    assert_eq!(counts.cancelled_after_quorum, 2);
}
