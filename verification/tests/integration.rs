use rust_quepaxa::proposer::membership_stays;
use rust_quepaxa::{
    AllowAllAvailability, ClusterIdentity, Decision, FetchingAvailability, InMemoryValueStore, LaneId, MembershipChange,
    Priority, PrioritySource, Proposal, ProposalKey, ProposerConfig, ProposerCore, QuePaxaError, QuorumCollector,
    RecordReply, RecordRequest, RecordSummary, RecorderClient, RecorderConfig, RecorderCore,
    RecorderHandle, ReplicaConfig, ReplicaCore, ReplicaId, Result, SlotIndex, Step,
    ValueAvailability, ValueFetcher, ValueStore, XorShift64,
};
use std::cell::RefCell;
use std::collections::BTreeMap;
use std::rc::Rc;

type Payloads =
    FetchingAvailability<u64, &'static str, InMemoryValueStore<u64, &'static str>, StaticFetcher>;

#[derive(Clone)]
struct SharedPayloads(Rc<RefCell<Payloads>>);

impl ValueAvailability<u64> for SharedPayloads {
    fn ensure_available(&mut self, value_ids: &[u64]) -> Result<()> {
        self.0.borrow_mut().ensure_available(value_ids)
    }
}

type StrictRecorder = RecorderHandle<RecorderCore<u64, SharedPayloads>>;

#[derive(Default)]
struct StaticFetcher {
    values: BTreeMap<u64, &'static str>,
}

impl ValueFetcher<u64, &'static str> for StaticFetcher {
    fn fetch_values(&mut self, value_ids: &[u64]) -> Result<Vec<(u64, &'static str)>> {
        Ok(value_ids
            .iter()
            .filter_map(|value_id| self.values.get(value_id).map(|value| (*value_id, *value)))
            .collect())
    }
}

#[derive(Debug, Clone)]
struct FixedPriorities {
    next: u64,
}

impl PrioritySource for FixedPriorities {
    fn next_below(&mut self, exclusive_upper_bound: Priority) -> Result<Priority> {
        let priority = Priority::new(self.next.clamp(1, exclusive_upper_bound.get() - 1));
        self.next += 1;
        Ok(priority)
    }
}

fn members(count: u64) -> Vec<ReplicaId> {
    (1..=count).map(ReplicaId::new).collect()
}

fn strict_recorders(
    count: u64,
    values: BTreeMap<u64, &'static str>,
) -> (Vec<StrictRecorder>, SharedPayloads) {
    let members = members(count);
    let payloads = SharedPayloads(Rc::new(RefCell::new(FetchingAvailability::new(
        InMemoryValueStore::new(),
        StaticFetcher { values },
    ))));
    let recorders = members
        .iter()
        .map(|id| {
            RecorderHandle::new(
                *id,
                RecorderCore::new(
                    RecorderConfig::new(*id, members.clone(), (members.len() - 1) / 2).unwrap(),
                    payloads.clone(),
                ),
            )
        })
        .collect();

    (recorders, payloads)
}

fn permissive_recorders(count: u64) -> Vec<RecorderHandle<RecorderCore<u64>>> {
    let members = members(count);
    members
        .iter()
        .map(|id| {
            RecorderHandle::new(
                *id,
                RecorderCore::permissive_for_tests(*id, members.clone()).unwrap(),
            )
        })
        .collect()
}

#[test]
fn strict_cluster_runs_the_full_replica_lifecycle() {
    let (mut recorders, payloads) = strict_recorders(
        3,
        BTreeMap::from([(10, "first payload"), (20, "second payload")]),
    );
    let mut replica = ReplicaCore::new(ReplicaConfig {
        batch_size: 1,
        pipeline_len: 2,
        ..ReplicaConfig::default()
    });
    replica.enqueue(vec![10, 20]).unwrap();
    let (first_slot, first_values) = replica.next_proposal().unwrap().unwrap();
    let (second_slot, second_values) = replica.next_proposal().unwrap().unwrap();
    let mut proposer = ProposerCore::with_rng(
        ReplicaId::new(1),
        LaneId::new(1),
        FixedPriorities { next: 1 },
    );

    let first_decision = proposer
        .propose(
            first_slot,
            first_values,
            Some(ReplicaId::new(1)),
            &mut recorders,
            &[],
        )
        .unwrap();
    for recorder in &mut recorders {
        recorder
            .call_inform(std::slice::from_ref(&first_decision))
            .unwrap();
    }
    let second_decision = proposer
        .propose(
            second_slot,
            second_values,
            Some(ReplicaId::new(1)),
            &mut recorders,
            std::slice::from_ref(&first_decision),
        )
        .unwrap();

    assert!(replica.apply_decision(second_decision).unwrap().is_empty());
    let committed = replica.apply_decision(first_decision).unwrap();
    assert_eq!(
        committed
            .iter()
            .map(|decision| decision.slot)
            .collect::<Vec<_>>(),
        vec![SlotIndex::new(1), SlotIndex::new(2)]
    );
    assert!(payloads.0.borrow().store().contains(&10));
    assert!(payloads.0.borrow().store().contains(&20));
    for recorder in &mut recorders {
        assert_eq!(recorder.with_client().decisions().len(), 1);
    }

    replica.prune_through(second_slot);
    assert!(replica.slot(first_slot).is_none());
    for recorder in &mut recorders {
        recorder.with_client().prune_through(second_slot);
        assert_eq!(recorder.with_client().decisions().len(), 0);
    }
}

struct PartitionedRecorder {
    inner: RecorderCore<u64>,
    reachable: bool,
}

struct MismatchedClusterRecorder {
    inner: RecorderCore<u64>,
}

struct SelectiveFailureRecorder {
    inner: RecorderCore<u64>,
    failure: Option<QuePaxaError>,
}

impl RecorderClient<u64> for SelectiveFailureRecorder {
    fn record(&mut self, request: RecordRequest<u64>) -> Result<RecordReply<u64>> {
        if let Some(error) = &self.failure {
            return Err(error.clone());
        }
        self.inner.record(request)
    }

    fn inform_decisions(&mut self, _decisions: &[Decision<u64>]) -> Result<()> {
        Ok(())
    }

    fn status(&mut self, _slot: SlotIndex) -> Result<Option<Step>> {
        Ok(None)
    }

    fn install_membership(&mut self, _change: MembershipChange<u64>) -> Result<()> {
        Err(membership_stays())
    }
}

impl RecorderClient<u64> for MismatchedClusterRecorder {
    fn record(&mut self, request: RecordRequest<u64>) -> Result<RecordReply<u64>> {
        let mut reply = self.inner.record(request)?;
        reply.cluster = ClusterIdentity::new(vec![ReplicaId::new(1)], 0).unwrap();
        Ok(reply)
    }

    fn inform_decisions(&mut self, _decisions: &[Decision<u64>]) -> Result<()> {
        Ok(())
    }

    fn status(&mut self, _slot: SlotIndex) -> Result<Option<Step>> {
        Ok(None)
    }

    fn install_membership(&mut self, _change: MembershipChange<u64>) -> Result<()> {
        Err(membership_stays())
    }
}

impl RecorderClient<u64> for PartitionedRecorder {
    fn record(&mut self, request: RecordRequest<u64>) -> Result<RecordReply<u64>> {
        if self.reachable {
            self.inner.record(request)
        } else {
            Err(QuePaxaError::TransportError(
                "simulated partition".to_string(),
            ))
        }
    }

    fn inform_decisions(&mut self, _decisions: &[Decision<u64>]) -> Result<()> {
        Ok(())
    }

    fn status(&mut self, _slot: SlotIndex) -> Result<Option<Step>> {
        Ok(None)
    }

    fn install_membership(&mut self, _change: MembershipChange<u64>) -> Result<()> {
        Err(membership_stays())
    }
}

fn partitioned(count: u64, reachable: usize) -> Vec<RecorderHandle<PartitionedRecorder>> {
    let members = members(count);
    members
        .iter()
        .enumerate()
        .map(|(index, id)| {
            RecorderHandle::new(
                *id,
                PartitionedRecorder {
                    inner: RecorderCore::permissive_for_tests(*id, members.clone()).unwrap(),
                    reachable: index < reachable,
                },
            )
        })
        .collect()
}

#[test]
fn proposer_reports_when_a_quorum_is_unavailable() {
    let mut recorders = partitioned(5, 2);
    let mut proposer = ProposerCore::with_rng(
        ReplicaId::new(1),
        LaneId::new(1),
        FixedPriorities { next: 1 },
    );

    assert!(matches!(
        proposer.propose(
            SlotIndex::new(1),
            vec![1],
            Some(ReplicaId::new(1)),
            &mut recorders,
            &[],
        ),
        Err(QuePaxaError::QuorumNotReached { needed: 3, .. })
    ));
}

#[test]
fn one_recorder_resource_error_does_not_block_a_healthy_quorum() {
    let members = members(3);
    let mut recorders = members
        .iter()
        .enumerate()
        .map(|(index, id)| {
            RecorderHandle::new(
                *id,
                SelectiveFailureRecorder {
                    inner: RecorderCore::permissive_for_tests(*id, members.clone()).unwrap(),
                    failure: (index == 0).then_some(QuePaxaError::ResourceLimit {
                        resource: "test recorder",
                        limit: 1,
                    }),
                },
            )
        })
        .collect::<Vec<_>>();
    let decision = ProposerCore::with_rng(
        ReplicaId::new(2),
        LaneId::new(1),
        FixedPriorities { next: 1 },
    )
    .propose(
        SlotIndex::new(1),
        vec![20],
        Some(ReplicaId::new(2)),
        &mut recorders,
        &[],
    )
    .unwrap();
    assert_eq!(decision.value_ids, vec![20]);
}

#[test]
fn configured_n_minus_f_quorum_does_not_fall_back_to_a_smaller_majority() {
    let mut recorders = partitioned(5, 3);
    let mut proposer = ProposerCore::with_rng(
        ReplicaId::new(1),
        LaneId::new(1),
        FixedPriorities { next: 1 },
    )
    .with_quorum(4);

    assert!(matches!(
        proposer.propose(
            SlotIndex::new(1),
            vec![1],
            Some(ReplicaId::new(1)),
            &mut recorders,
            &[],
        ),
        Err(QuePaxaError::QuorumNotReached { needed: 4, .. })
    ));
}

#[test]
fn proposer_rejects_recorder_replies_from_a_different_cluster() {
    let members = members(3);
    let mut recorders = members
        .iter()
        .map(|id| {
            RecorderHandle::new(
                *id,
                MismatchedClusterRecorder {
                    inner: RecorderCore::permissive_for_tests(*id, members.clone()).unwrap(),
                },
            )
        })
        .collect::<Vec<_>>();
    let mut proposer = ProposerCore::with_rng(
        ReplicaId::new(1),
        LaneId::new(1),
        FixedPriorities { next: 1 },
    )
    .with_cluster(ClusterIdentity::new(members, 1).unwrap());

    assert_eq!(
        proposer
            .propose(
                SlotIndex::new(1),
                vec![1],
                Some(ReplicaId::new(1)),
                &mut recorders,
                &[],
            )
            .unwrap_err(),
        QuePaxaError::ConfigurationMismatch
    );
}

#[test]
fn proposer_adopts_a_higher_recorder_step_before_deciding() {
    let (mut recorders, _) = strict_recorders(3, BTreeMap::from([(2, "new"), (99, "prior")]));
    let prior = Proposal::new(
        ProposalKey::new(Priority::new(7), ReplicaId::new(1), LaneId::new(1)),
        vec![99],
    )
    .unwrap();
    for recorder in &mut recorders {
        recorder
            .with_client()
            .record(RecordRequest {
                sender: ReplicaId::new(1),
                slot: SlotIndex::new(1),
                round_one_leader: Some(ReplicaId::new(1)),
                step: Step::new(8),
                proposal: prior.clone(),
                known_decisions: Vec::new(),
            })
            .unwrap();
    }

    let mut proposer = ProposerCore::with_rng(
        ReplicaId::new(2),
        LaneId::new(1),
        FixedPriorities { next: 1 },
    );
    let decision = proposer
        .propose(
            SlotIndex::new(1),
            vec![2],
            Some(ReplicaId::new(1)),
            &mut recorders,
            &[],
        )
        .unwrap();

    assert_eq!(decision.value_ids, vec![99]);
    assert_eq!(decision.decided_step, Step::new(10));
}

struct NeverDecides {
    id: ReplicaId,
}

impl RecorderClient<u64> for NeverDecides {
    fn record(&mut self, request: RecordRequest<u64>) -> Result<RecordReply<u64>> {
        Ok(RecordReply {
            recorder: self.id,
            cluster: ClusterIdentity::new(vec![self.id], 0).unwrap(),
            summary: RecordSummary {
                step: request.step,
                first: Some(request.proposal),
                prior_aggregate: None,
            },
            decision: None,
        })
    }

    fn inform_decisions(&mut self, _decisions: &[Decision<u64>]) -> Result<()> {
        Ok(())
    }

    fn status(&mut self, _slot: SlotIndex) -> Result<Option<Step>> {
        Ok(None)
    }

    fn install_membership(&mut self, _change: MembershipChange<u64>) -> Result<()> {
        Err(membership_stays())
    }
}

#[test]
fn proposer_stops_at_its_configured_step_limit() {
    let mut recorders = members(3)
        .into_iter()
        .map(|id| RecorderHandle::new(id, NeverDecides { id }))
        .collect::<Vec<_>>();
    let mut proposer = ProposerCore::with_rng(
        ReplicaId::new(1),
        LaneId::new(1),
        FixedPriorities { next: 1 },
    )
    .with_config(ProposerConfig {
        max_steps: 7,
        ..ProposerConfig::default()
    });

    assert_eq!(
        proposer
            .propose(SlotIndex::new(1), vec![1], None, &mut recorders, &[])
            .unwrap_err(),
        QuePaxaError::StepLimitExceeded { limit: 7 }
    );
}

#[test]
fn seeded_competing_proposers_never_decide_conflicting_values() {
    for seed in 1..=32u64 {
        let mut recorders = permissive_recorders(5);
        let members = members(5);
        let leader = members[seed as usize % members.len()];
        let proposer_order = (0..3)
            .map(|offset| members[(seed as usize + offset) % members.len()])
            .collect::<Vec<_>>();
        let mut expected = None;

        for (attempt, replica_id) in proposer_order.into_iter().enumerate() {
            let mut proposer = ProposerCore::with_rng(
                replica_id,
                LaneId::new(1),
                XorShift64::new_for_stream(seed, replica_id, LaneId::new(1)),
            );
            let decision = proposer
                .propose(
                    SlotIndex::new(1),
                    vec![seed * 10 + attempt as u64],
                    Some(leader),
                    &mut recorders,
                    &[],
                )
                .unwrap();

            if let Some(value_ids) = &expected {
                assert_eq!(&decision.value_ids, value_ids, "seed {seed}");
            } else {
                expected = Some(decision.value_ids);
            }
        }
    }
}

fn propose_in_order(
    replica: u64,
    next: u64,
    value: u64,
    leader: ReplicaId,
    recorders: &mut [RecorderHandle<RecorderCore<u64>>],
    arrival: &[usize],
) -> Vec<u64> {
    let mut proposer = ProposerCore::with_rng(
        ReplicaId::new(replica),
        LaneId::new(1),
        FixedPriorities { next },
    );
    let ids: Vec<ReplicaId> = recorders.iter().map(|recorder| recorder.id()).collect();
    let mut run = proposer
        .begin(SlotIndex::new(1), vec![value], Some(leader), &ids, &[])
        .unwrap();
    loop {
        let requests = proposer.requests(&run).unwrap();
        let mut collector =
            QuorumCollector::new(recorders.len(), run.quorum(), proposer.expected_cluster())
                .unwrap();
        for index in arrival {
            let reply = recorders[*index].call_record(requests[*index].clone());
            if !collector.is_complete() {
                collector.receive(ids[*index], reply).unwrap();
            }
        }
        if let Some(decision) = run.conclude(&collector.into_replies()).unwrap() {
            return decision.value_ids;
        }
    }
}

#[test]
fn reordered_recorder_replies_preserve_single_slot_safety() {
    let mut recorders = permissive_recorders(5);
    let delays = [4, 0, 3, 1, 2];
    let mut arrival: Vec<usize> = (0..5).collect();
    arrival.sort_by_key(|index| delays[*index]);
    let leader = ReplicaId::new(2);

    let first = propose_in_order(1, 1, 10, leader, &mut recorders, &arrival);
    let second = propose_in_order(3, 10, 20, leader, &mut recorders, &arrival);

    assert_eq!(first, second);
}

#[test]
fn auxiliary_call_releases_endpoint_before_returning() {
    let mut recorders = permissive_recorders(1);

    recorders[0].call_status(SlotIndex::new(1)).unwrap();

    assert!(recorders[0].is_idle());
}

#[test]
fn a_claimed_endpoint_is_busy() {
    let mut recorders = permissive_recorders(1);
    assert!(recorders[0].try_begin());
    assert!(!recorders[0].try_begin());
    assert!(!recorders[0].is_idle());
    assert!(recorders[0].call_status(SlotIndex::new(1)).is_err());
    recorders[0].release();
    assert!(recorders[0].call_status(SlotIndex::new(1)).is_ok());
}

fn joint_recorders(cluster: &ClusterIdentity) -> Vec<RecorderHandle<RecorderCore<u64>>> {
    cluster
        .members()
        .iter()
        .map(|id| {
            RecorderHandle::new(
                *id,
                RecorderCore::new(
                    RecorderConfig::from_cluster(*id, cluster.clone()).unwrap(),
                    AllowAllAvailability,
                ),
            )
        })
        .collect()
}

fn replicas(list: &[u64]) -> Vec<ReplicaId> {
    list.iter().map(|id| ReplicaId::new(*id)).collect()
}

#[test]
fn a_joint_epoch_is_content_with_both_component_quorums() {
    let joint = ClusterIdentity::new(replicas(&[1, 2, 3]), 1)
        .unwrap()
        .begin_joint(replicas(&[2, 3, 4]), 1)
        .unwrap();
    assert_eq!(joint.quorum_size(), 2);
    let mut recorders = joint_recorders(&joint);
    let mut proposer =
        ProposerCore::with_rng(ReplicaId::new(2), LaneId::new(1), XorShift64::new(1))
            .with_cluster(joint.clone());
    assert_eq!(
        proposer
            .propose(
                SlotIndex::new(1),
                vec![10],
                Some(ReplicaId::new(2)),
                &mut recorders,
                &[]
            )
            .unwrap(),
        Decision::new(
            SlotIndex::new(1),
            vec![10],
            ReplicaId::new(2),
            Step::new(4)
        )
        .unwrap()
    );

    let mut recorders = joint_recorders(&joint);
    assert!(recorders[0].try_begin());
    assert!(recorders[3].try_begin());
    let decided = proposer
        .propose(
            SlotIndex::new(1),
            vec![20],
            Some(ReplicaId::new(2)),
            &mut recorders,
            &[],
        )
        .unwrap();
    assert_eq!(decided.value_ids, vec![20]);

    let mut unconfigured =
        ProposerCore::with_rng(ReplicaId::new(2), LaneId::new(1), XorShift64::new(1))
            .with_quorum(2);
    assert_eq!(
        unconfigured
            .propose(
                SlotIndex::new(2),
                vec![30],
                Some(ReplicaId::new(2)),
                &mut joint_recorders(&joint),
                &[]
            )
            .unwrap_err(),
        QuePaxaError::InvalidQuorum {
            replicas: 4,
            quorum: 2
        }
    );
}

#[test]
fn answers_that_are_no_joint_quorum_are_reported() {
    let joint = ClusterIdentity::new(replicas(&[1, 2, 3]), 1)
        .unwrap()
        .begin_joint(replicas(&[1, 4, 5]), 1)
        .unwrap();
    let mut recorders = joint_recorders(&joint);
    assert!(recorders[3].try_begin());
    assert!(recorders[4].try_begin());
    let mut proposer =
        ProposerCore::with_rng(ReplicaId::new(1), LaneId::new(1), XorShift64::new(1))
            .with_cluster(joint);
    assert_eq!(
        proposer
            .propose(
                SlotIndex::new(1),
                vec![10],
                Some(ReplicaId::new(1)),
                &mut recorders,
                &[]
            )
            .unwrap_err(),
        QuePaxaError::TransportError("all recorder workers exited before replying".to_string())
    );
}

#[test]
fn calls_of_rivals_may_come_between_each_other() {
    let mut recorders = permissive_recorders(3);
    let ids: Vec<ReplicaId> = recorders.iter().map(|recorder| recorder.id()).collect();
    let mut rivals: Vec<_> = (1..=2u64)
        .map(|id| {
            let mut proposer = ProposerCore::with_rng(
                ReplicaId::new(id),
                LaneId::new(1),
                XorShift64::new_for_stream(7, ReplicaId::new(id), LaneId::new(1)),
            );
            let run = proposer
                .begin(
                    SlotIndex::new(1),
                    vec![id * 10],
                    Some(ReplicaId::new(2)),
                    &ids,
                    &[],
                )
                .unwrap();
            (proposer, run, None)
        })
        .collect();
    for round in 0..32usize {
        let mut waiting = Vec::new();
        for (proposer, run, decided) in &mut rivals {
            if decided.is_none() {
                let collector: QuorumCollector<u64> =
                    QuorumCollector::new(3, run.quorum(), None).unwrap();
                waiting.push((proposer.requests(run).unwrap(), collector));
            } else {
                let collector: QuorumCollector<u64> = QuorumCollector::new(3, 2, None).unwrap();
                waiting.push((Vec::new(), collector));
            }
        }
        for offset in 0..3usize {
            for (rival, (requests, collector)) in waiting.iter_mut().enumerate() {
                let index = (offset + rival + round) % 3;
                if !requests.is_empty() && !collector.is_complete() {
                    let reply = recorders[index].call_record(requests[index].clone());
                    collector.receive(ids[index], reply).unwrap();
                }
            }
        }
        for (rival, (requests, collector)) in waiting.into_iter().enumerate() {
            if !requests.is_empty() && collector.is_complete() {
                let replies = collector.into_replies();
                rivals[rival].2 = rivals[rival].1.conclude(&replies).unwrap();
            }
        }
    }
    let decided: Vec<Vec<u64>> = rivals
        .iter()
        .map(|(_, _, decided)| decided.clone().unwrap().value_ids)
        .collect();
    assert_eq!(decided[0], decided[1]);
    assert!(decided[0] == vec![10] || decided[0] == vec![20]);
}
