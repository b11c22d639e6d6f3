use rust_quepaxa::network::dedupe::ValueApplier;
use rust_quepaxa::network::{
    AsyncProposerCore, AuthenticatedBatchService, Batch, BatchService, BatchServiceLimits,
    BatchVerifier, DecisionAcks, DeduplicatingStateMachine, InMemoryBatchStore,
    InMemoryExactlyOnceExecutor, MembershipPlan, NetworkConsensusHandler, SubmissionStep,
    TurnAction,
};
use rust_quepaxa::{
    AllowAllAvailability, ClusterIdentity, Decision, EpochSchedule, InMemoryRuntimeStore, LaneId,
    MembershipChange, Priority, Proposal, ProposalKey, QuePaxaError, QuorumCollector,
    RecordRequest, RecorderConfig, RecorderCore, ReplicaConfig, ReplicaId, ReplicaRuntimeConfig,
    Result, RuntimeSnapshot, RuntimeStateStore, SlotIndex, Span, StateMachine, Step, XorShift64,
};
use std::cell::RefCell;
use std::rc::Rc;

struct Counter(u64);

impl ValueApplier<u64> for Counter {
    fn apply(&mut self, _slot: SlotIndex, _value_id: &u64) -> Result<()> {
        self.0 += 1;
        Ok(())
    }
}

#[test]
fn deduplicating_state_machine_applies_a_value_id_only_once() -> Result<()> {
    let mut state_machine =
        DeduplicatingStateMachine::new(InMemoryExactlyOnceExecutor::new(Counter(0)));
    state_machine.execute(&Decision::new(
        SlotIndex::new(1),
        vec![99],
        ReplicaId::new(1),
        Step::new(4),
    )?)?;
    state_machine.execute(&Decision::new(
        SlotIndex::new(2),
        vec![99],
        ReplicaId::new(2),
        Step::new(4),
    )?)?;

    assert_eq!(state_machine.executor().applier().0, 1);
    assert!(state_machine.executor().seen().contains(&99));
    assert_eq!(
        state_machine.export_checkpoint(SlotIndex::new(2)),
        Err(QuePaxaError::StorageError(
            "the exactly-once executor does not implement checkpoint export".to_string()
        ))
    );
    assert_eq!(
        state_machine.import_checkpoint(SlotIndex::new(2), &[]),
        Err(QuePaxaError::StorageError(
            "the exactly-once executor does not implement checkpoint import".to_string()
        ))
    );
    Ok(())
}

struct CheckpointMachine(Rc<RefCell<u64>>);

impl StateMachine<u64> for CheckpointMachine {
    fn execute(&mut self, _decision: &Decision<u64>) -> Result<()> {
        *self.0.borrow_mut() += 1;
        Ok(())
    }

    fn export_checkpoint(&mut self, _through: SlotIndex) -> Result<Vec<u8>> {
        Ok(self.0.borrow().to_be_bytes().to_vec())
    }

    fn import_checkpoint(&mut self, _through: SlotIndex, checkpoint: &[u8]) -> Result<()> {
        let mut bytes = [0u8; 8];
        bytes.copy_from_slice(checkpoint);
        *self.0.borrow_mut() = u64::from_be_bytes(bytes);
        Ok(())
    }
}

type Handler = NetworkConsensusHandler<u64, InMemoryRuntimeStore<u64>, CheckpointMachine>;

struct Node {
    handler: Handler,
    recorders: Vec<RecorderCore<u64>>,
    status_calls: usize,
    executed: Rc<RefCell<u64>>,
}

fn members(count: u64) -> Vec<ReplicaId> {
    (1..=count).map(ReplicaId::new).collect()
}

fn local_recorders(members: &[ReplicaId]) -> Vec<RecorderCore<u64>> {
    members
        .iter()
        .map(|id| RecorderCore::permissive_for_tests(*id, members.to_vec()).unwrap())
        .collect()
}

fn node(id: u64, hedge: Span, recorders: Vec<RecorderCore<u64>>) -> Node {
    let executed = Rc::new(RefCell::new(0));
    let ids: Vec<ReplicaId> = recorders.iter().map(|recorder| recorder.id()).collect();
    Node {
        handler: NetworkConsensusHandler::new(
            ReplicaRuntimeConfig::new(
                ReplicaId::new(id),
                LaneId::new(1),
                members(3),
                1,
                ReplicaConfig::default(),
                16,
                hedge,
            )
            .unwrap(),
            &ids,
            InMemoryRuntimeStore::default(),
            CheckpointMachine(Rc::clone(&executed)),
        )
        .unwrap(),
        recorders,
        status_calls: 0,
        executed,
    }
}

impl Node {
    fn ids(&self) -> Vec<ReplicaId> {
        self.recorders.iter().map(|recorder| recorder.id()).collect()
    }

    fn propose(&mut self, slot: SlotIndex, values: Vec<u64>, leader: ReplicaId) -> Decision<u64> {
        let cluster = self.handler.config().cluster_identity().clone();
        let mut proposer = AsyncProposerCore::with_rng(
            self.handler.config().replica_id(),
            LaneId::new(1),
            cluster.clone(),
            XorShift64::new(9),
        );
        let ids = self.ids();
        let mut run = proposer.begin(slot, values, Some(leader), &ids).unwrap();
        loop {
            let requests = proposer.requests(&run).unwrap();
            let mut collector =
                QuorumCollector::new(requests.len(), run.quorum(), Some(cluster.clone())).unwrap();
            for (index, request) in requests.into_iter().enumerate() {
                if collector.is_complete() {
                    break;
                }
                let reply = self.recorders[index].record(request);
                collector.receive(ids[index], reply).unwrap();
            }
            assert!(collector.is_complete());
            if let Some(decision) = run.conclude(&collector.into_replies()).unwrap() {
                return decision;
            }
        }
    }

    fn disseminate(&mut self, decision: &Decision<u64>) {
        let mut acks = DecisionAcks::new(self.handler.config().cluster_identity().clone());
        let mut complete = false;
        for recorder in &mut self.recorders {
            let told = recorder.inform_decisions(std::slice::from_ref(decision));
            complete = acks.receive(recorder.id(), told.is_ok());
        }
        assert!(complete);
    }

    fn drive(&mut self, slot: SlotIndex, values: Vec<u64>, mut now: Span) {
        let mut action = self.handler.begin_turn(slot, now).unwrap();
        loop {
            action = match action {
                TurnAction::StandDown => return,
                TurnAction::WaitForPlace { leader, delay } => {
                    now = Span {
                        nanos: now.nanos + delay.nanos,
                    };
                    self.handler.place_has_come(slot, leader)
                }
                TurnAction::AskRecorders { leader } => {
                    self.status_calls += self.recorders.len();
                    let reports: Vec<Option<Step>> = self
                        .recorders
                        .iter()
                        .map(|recorder| recorder.status(slot))
                        .collect();
                    self.handler.recorders_reported(slot, leader, &reports)
                }
                TurnAction::Pause { delay } => {
                    now = Span {
                        nanos: now.nanos + delay.nanos,
                    };
                    self.handler.begin_turn(slot, now).unwrap()
                }
                TurnAction::Propose { leader } => {
                    let decision = self.propose(slot, values, leader);
                    self.handler
                        .complete_proposal(&decision, Span::from_millis(1), now)
                        .unwrap();
                    self.disseminate(&decision);
                    return;
                }
            }
        }
    }

    fn submit(&mut self, values: Vec<u64>) -> Decision<u64> {
        self.handler.enqueue(values.clone()).unwrap();
        loop {
            match self.handler.advance(&values).unwrap() {
                SubmissionStep::Committed(decision) => return decision,
                SubmissionStep::Drive { slot, value_ids } => {
                    self.drive(slot, value_ids, Span::zero())
                }
                SubmissionStep::Wait => unreachable!(),
            }
        }
    }

    fn reconfigure(
        &mut self,
        change: MembershipChange<u64>,
        joining: Vec<RecorderCore<u64>>,
    ) -> Result<()> {
        let ids: Vec<ReplicaId> = self
            .recorders
            .iter()
            .chain(joining.iter())
            .map(|recorder| recorder.id())
            .filter(|id| change.next.contains(*id))
            .collect();
        let mut install = match self.handler.plan_membership(change.clone(), &ids)? {
            MembershipPlan::InForce => return Ok(()),
            MembershipPlan::Install(install) => install,
        };
        for recorder in &mut self.recorders {
            let told = recorder.inform_decisions(install.decisions());
            install.receive_told(told.is_ok());
        }
        install.check_told()?;
        self.recorders.extend(joining);
        self.recorders
            .retain(|recorder| change.next.contains(recorder.id()));
        for recorder in &mut self.recorders {
            if recorder.install_membership(change.clone()).is_ok() {
                install.receive_installed();
            }
        }
        self.handler.finish_membership(install)
    }
}

#[test]
fn network_runtime_recovers_an_idle_gap_with_a_noop() {
    let mut node = node(2, Span::zero(), local_recorders(&members(3)));
    node.handler = node.handler.with_noop_value(0);
    node.handler
        .install_epoch_schedule(EpochSchedule::new(0, members(3)).unwrap())
        .unwrap();
    let later = Decision::new(
        SlotIndex::new(2),
        vec![22],
        ReplicaId::new(1),
        Step::round_one_phase_zero(),
    )
    .unwrap();
    for recorder in &mut node.recorders {
        recorder.inform_decision(later.clone()).unwrap();
    }
    node.handler.accept_decision(&later, Span::zero()).unwrap();
    for (slot, values) in node.handler.begin_recovery(Span::zero()).unwrap() {
        node.drive(slot, values, Span::zero());
    }

    assert_eq!(
        node.handler.decision(SlotIndex::new(1)).unwrap().value_ids,
        vec![0]
    );
    assert_eq!(
        node.handler.decision(SlotIndex::new(2)).unwrap().value_ids,
        vec![22]
    );
}

#[test]
fn network_runtime_reconfigures_through_a_joint_epoch() {
    let mut node = node(1, Span::zero(), local_recorders(&members(3)));
    node.handler
        .install_epoch_schedule(EpochSchedule::new(0, members(3)).unwrap())
        .unwrap();
    node.submit(vec![100]);
    let first = node.handler.decision(SlotIndex::new(1)).unwrap().clone();

    let stable = ClusterIdentity::new(members(3), 1).unwrap();
    let joint = stable
        .begin_joint(
            vec![ReplicaId::new(1), ReplicaId::new(4), ReplicaId::new(5)],
            1,
        )
        .unwrap();
    let mut joining = Vec::new();
    for id in [ReplicaId::new(4), ReplicaId::new(5)] {
        joining.push(RecorderCore::new(
            RecorderConfig::from_cluster(id, joint.clone()).unwrap(),
            AllowAllAvailability,
        ));
    }
    node.reconfigure(
        MembershipChange::new(first, joint.clone(), 100).unwrap(),
        joining,
    )
    .unwrap();
    node.handler
        .install_epoch_schedule(EpochSchedule::new(0, joint.members().to_vec()).unwrap())
        .unwrap();
    node.submit(vec![200]);
    let second = node.handler.decision(SlotIndex::new(2)).unwrap().clone();

    let finalized = joint.finalize_joint().unwrap();
    node.reconfigure(
        MembershipChange::new(second, finalized.clone(), 200).unwrap(),
        Vec::new(),
    )
    .unwrap();
    node.handler
        .install_epoch_schedule(EpochSchedule::new(0, finalized.members().to_vec()).unwrap())
        .unwrap();
    node.submit(vec![300]);
    assert_eq!(
        node.handler.decision(SlotIndex::new(3)).unwrap().value_ids,
        vec![300]
    );
}

#[test]
fn network_hedging_observes_step_level_progress() {
    let mut recorders = local_recorders(&members(3));
    recorders[0]
        .record(RecordRequest {
            sender: ReplicaId::new(1),
            slot: SlotIndex::new(1),
            round_one_leader: Some(ReplicaId::new(1)),
            step: Step::round_one_phase_zero(),
            proposal: Proposal::new(
                ProposalKey::new(Priority::max(), ReplicaId::new(1), LaneId::new(1)),
                vec![99],
            )
            .unwrap(),
            known_decisions: Vec::new(),
        })
        .unwrap();
    let mut node = node(2, Span::from_millis(2), recorders);
    node.handler
        .install_epoch_schedule(EpochSchedule::new(0, members(3)).unwrap())
        .unwrap();
    let decision = node.submit(vec![20]);
    assert!(decision.value_ids.contains(&20));
    assert!(node.status_calls >= node.recorders.len());
}

struct AnyPayload;

impl BatchVerifier<u64> for AnyPayload {
    fn verify(&self, _value_id: &u64, _payload: &[u8]) -> Result<()> {
        Ok(())
    }
}

#[test]
fn network_state_transfer_resumes_at_the_next_slot() {
    let mut source = node(1, Span::zero(), local_recorders(&members(3)));
    source
        .handler
        .install_epoch_schedule(EpochSchedule::new(0, members(3)).unwrap())
        .unwrap();
    source.submit(vec![10]);
    let mut plan = source
        .handler
        .plan_state_transfer(SlotIndex::new(1))
        .unwrap();
    assert!(matches!(
        plan.check_told(),
        Err(QuePaxaError::QuorumNotReached {
            needed: 3,
            received: 0
        })
    ));
    for recorder in &mut source.recorders {
        recorder.inform_decisions(plan.decisions()).unwrap();
        plan.receive_told(true);
    }
    let transfer = source.handler.finish_state_transfer(plan).unwrap();
    assert_eq!(transfer.checkpointed_value_ids, vec![10]);
    let mut batches = AuthenticatedBatchService::new(
        InMemoryBatchStore::default(),
        AnyPayload,
        BatchServiceLimits::default(),
    )
    .unwrap();
    batches
        .publish(vec![Batch {
            value_id: 10,
            payload: b"ten".to_vec(),
        }])
        .unwrap();
    assert_eq!(batches.prune_state_transfer(&transfer).unwrap(), 1);
    assert!(matches!(
        batches.fetch(vec![10]),
        Err(QuePaxaError::MissingValue)
    ));

    let mut destination_recorders = local_recorders(&members(3));
    for recorder in &mut destination_recorders {
        recorder.install_state_transfer_floor(SlotIndex::new(1));
    }
    let mut destination = node(2, Span::zero(), destination_recorders);
    destination.handler.install_state_transfer(transfer).unwrap();
    assert_eq!(*destination.executed.borrow(), 1);
    let decision = destination.submit(vec![11]);
    assert_eq!(decision.slot, SlotIndex::new(2));
    assert_eq!(*destination.executed.borrow(), 2);
}

#[test]
fn retries_of_a_submission_get_the_same_decision() {
    let mut node = node(1, Span::zero(), local_recorders(&members(3)));
    node.handler
        .install_epoch_schedule(EpochSchedule::new(0, members(3)).unwrap())
        .unwrap();
    let first = node.submit(vec![5]);
    let again = node.submit(vec![5]);
    assert_eq!(first, again);
    assert_eq!(*node.executed.borrow(), 1);
}

#[test]
fn a_node_executes_in_slot_order_and_restarts_from_its_snapshot() {
    let mut node = node(1, Span::zero(), local_recorders(&members(3)));
    node.handler
        .install_epoch_schedule(EpochSchedule::new(0, members(3)).unwrap())
        .unwrap();
    let decided = |slot: u64, value: u64| {
        Decision::new(
            SlotIndex::new(slot),
            vec![value],
            ReplicaId::new(2),
            Step::new(4),
        )
        .unwrap()
    };
    node.handler
        .accept_decision(&decided(2, 20), Span::zero())
        .unwrap();
    assert_eq!(*node.executed.borrow(), 0);
    node.handler
        .accept_decision(&decided(1, 10), Span::zero())
        .unwrap();
    assert_eq!(*node.executed.borrow(), 2);
    assert_eq!(
        node.handler
            .accept_decision(&decided(1, 11), Span::zero())
            .unwrap_err(),
        QuePaxaError::ConflictingDecision {
            slot: SlotIndex::new(1)
        }
    );

    let saved: RuntimeSnapshot<u64> = node.handler.snapshot();
    let mut store = InMemoryRuntimeStore::default();
    store.save(&saved).unwrap();
    let resumed: Handler = NetworkConsensusHandler::new(
        node.handler.config().clone(),
        &members(3),
        store,
        CheckpointMachine(Rc::new(RefCell::new(0))),
    )
    .unwrap();
    assert_eq!(resumed.snapshot(), saved);
}

#[test]
fn a_node_needs_every_member_as_an_endpoint() {
    let made = NetworkConsensusHandler::<u64, _, _>::new(
        ReplicaRuntimeConfig::new(
            ReplicaId::new(1),
            LaneId::new(1),
            members(3),
            1,
            ReplicaConfig::default(),
            16,
            Span::zero(),
        )
        .unwrap(),
        &members(2),
        InMemoryRuntimeStore::default(),
        CheckpointMachine(Rc::new(RefCell::new(0))),
    );
    assert!(matches!(made, Err(QuePaxaError::ConfigurationMismatch)));
}

#[test]
fn turns_follow_the_schedule_and_the_recorders() {
    let hedge = Span::from_millis(10);
    let mut node = node(2, hedge, local_recorders(&members(3)));
    node.handler
        .install_epoch_schedule(EpochSchedule::new(0, members(3)).unwrap())
        .unwrap();
    node.handler.enqueue(vec![5]).unwrap();
    let slot = match node.handler.advance(&[5]).unwrap() {
        SubmissionStep::Drive { slot, .. } => slot,
        _ => unreachable!(),
    };
    let leader = ReplicaId::new(1);
    assert_eq!(
        node.handler.begin_turn(slot, Span::zero()).unwrap(),
        TurnAction::WaitForPlace {
            leader,
            delay: hedge
        }
    );
    assert_eq!(
        node.handler.begin_turn(slot, hedge).unwrap(),
        TurnAction::AskRecorders { leader }
    );
    assert_eq!(
        node.handler.place_has_come(slot, leader),
        TurnAction::AskRecorders { leader }
    );
    assert_eq!(
        node.handler
            .recorders_reported(slot, leader, &[None, Some(Step::new(5)), Some(Step::new(4))]),
        TurnAction::Pause { delay: hedge }
    );
    assert_eq!(
        node.handler
            .recorders_reported(slot, leader, &[Some(Step::new(5)), None]),
        TurnAction::Propose { leader }
    );
    assert_eq!(
        node.handler
            .begin_turn(SlotIndex::new(9), hedge)
            .unwrap(),
        TurnAction::StandDown
    );
}

#[test]
fn memberships_wait_for_everyone() {
    let mut node = node(1, Span::zero(), local_recorders(&members(3)));
    node.handler
        .install_epoch_schedule(EpochSchedule::new(0, members(3)).unwrap())
        .unwrap();
    node.submit(vec![100]);
    let anchor = node.handler.decision(SlotIndex::new(1)).unwrap().clone();
    let next = ClusterIdentity::new(members(3), 1)
        .unwrap()
        .begin_joint(members(3), 1)
        .unwrap();
    let change = MembershipChange::new(anchor, next, 100).unwrap();
    let before = node.handler.snapshot();
    let plan = |handler: &Handler| match handler
        .plan_membership(change.clone(), &members(3))
        .unwrap()
    {
        MembershipPlan::Install(install) => install,
        MembershipPlan::InForce => unreachable!(),
    };

    let mut install = plan(&node.handler);
    assert_eq!(install.decisions().len(), 1);
    install.receive_told(true);
    install.receive_told(false);
    install.receive_told(true);
    assert_eq!(
        node.handler.finish_membership(install).unwrap_err(),
        QuePaxaError::QuorumNotReached {
            needed: 3,
            received: 2
        }
    );

    let mut install = plan(&node.handler);
    for _ in 0..3 {
        install.receive_told(true);
    }
    install.check_told().unwrap();
    install.receive_installed();
    assert_eq!(
        node.handler.finish_membership(install).unwrap_err(),
        QuePaxaError::QuorumNotReached {
            needed: 3,
            received: 1
        }
    );
    assert_eq!(node.handler.snapshot(), before);

    let mut install = plan(&node.handler);
    for _ in 0..3 {
        install.receive_told(true);
        install.receive_installed();
    }
    node.handler.finish_membership(install).unwrap();
    assert!(matches!(
        node.handler.plan_membership(change.clone(), &members(3)),
        Ok(MembershipPlan::InForce)
    ));
}

fn decided(slot: u64) -> Decision<u64> {
    Decision::new(
        SlotIndex::new(slot),
        vec![slot * 10],
        ReplicaId::new(1),
        Step::new(4),
    )
    .unwrap()
}

#[test]
fn a_node_refuses_a_transfer_below_an_earlier_checkpoint() {
    let mut source = node(1, Span::zero(), local_recorders(&members(3)));
    for slot in 1..=2 {
        source
            .handler
            .accept_decision(&decided(slot), Span::zero())
            .unwrap();
    }
    let mut plan = source.handler.plan_state_transfer(SlotIndex::new(2)).unwrap();
    let mut overtaken = source.handler.plan_state_transfer(SlotIndex::new(1)).unwrap();
    for _ in 0..3 {
        plan.receive_told(true);
        overtaken.receive_told(true);
    }
    let transfer = source.handler.finish_state_transfer(plan).unwrap();
    assert_eq!(
        transfer.through,
        transfer.runtime.replica.checkpointed_through
    );
    assert_eq!(
        source.handler.finish_state_transfer(overtaken).unwrap_err(),
        QuePaxaError::InvalidProposal(
            "runtime changed while preparing its state-transfer checkpoint".to_string()
        )
    );
    assert!(matches!(
        source.handler.plan_state_transfer(SlotIndex::new(1)),
        Err(QuePaxaError::InvalidProposal(_))
    ));
}

#[test]
fn a_node_takes_up_schedules_of_others_until_it_needs_a_place() {
    let fresh = node(1, Span::zero(), local_recorders(&members(3)));
    let resume = |proposers: Vec<ReplicaId>| {
        let mut snapshot = fresh.handler.snapshot();
        snapshot
            .schedules
            .insert(0, EpochSchedule { epoch: 0, proposers });
        let mut store = InMemoryRuntimeStore::default();
        store.save(&snapshot).unwrap();
        NetworkConsensusHandler::<u64, _, _>::new(
            fresh.handler.config().clone(),
            &members(3),
            store,
            CheckpointMachine(Rc::new(RefCell::new(0))),
        )
    };
    let mut foreign = resume(vec![ReplicaId::new(7)]).unwrap();
    foreign.enqueue(vec![5]).unwrap();
    let slot = match foreign.advance(&[5]).unwrap() {
        SubmissionStep::Drive { slot, .. } => slot,
        _ => unreachable!(),
    };
    assert_eq!(
        foreign.begin_turn(slot, Span::zero()).unwrap_err(),
        QuePaxaError::PolicyError(
            "the epoch schedule does not include the local replica".to_string()
        )
    );
    assert!(matches!(
        resume(Vec::new()),
        Err(QuePaxaError::PolicyError(_))
    ));
}
