use rust_quepaxa::{
    AdaptiveHedgingConfig, AllowAllAvailability, ClientNotifier, ClusterIdentity, Decision,
    EpochSchedule, EpochTuner, FixedLeaderPolicy, InMemoryRuntimeStore, LaneId, MembershipChange,
    OrdMap, OrdSet, Priority, PrioritySource, Proposal, ProposalKey, ProposerCore,
    ProtocolIdentity, QuePaxaError, RecordReply, RecordRequest, RecorderClient, RecorderConfig,
    RecorderCore, RecorderHandle, ReplicaConfig, ReplicaCore, ReplicaId, ReplicaRuntime,
    ReplicaRuntimeConfig, ReplicaSnapshot, Result, RuntimePoll, RuntimeSnapshot,
    RuntimeStateStore, SlotIndex, Span, StateMachine, Step,
};
use std::cell::RefCell;
use std::rc::Rc;
use std::time::Instant;

#[derive(Clone)]
struct FixedPriorities {
    next: u64,
}

impl PrioritySource for FixedPriorities {
    fn next_below(&mut self, _exclusive_upper_bound: Priority) -> Result<Priority> {
        let priority = Priority::new(self.next.max(1));
        self.next += 1;
        Ok(priority)
    }
}

#[derive(Default)]
struct RecordingStateMachine {
    executed: Vec<Decision<u64>>,
    imported_checkpoint: Vec<u8>,
}

impl StateMachine<u64> for RecordingStateMachine {
    fn execute(&mut self, decision: &Decision<u64>) -> Result<()> {
        self.executed.push(decision.clone());
        Ok(())
    }

    fn export_checkpoint(&mut self, through: SlotIndex) -> Result<Vec<u8>> {
        Ok(through.get().to_be_bytes().to_vec())
    }

    fn import_checkpoint(&mut self, _through: SlotIndex, checkpoint: &[u8]) -> Result<()> {
        self.imported_checkpoint = checkpoint.to_vec();
        Ok(())
    }
}

#[derive(Default)]
struct RecordingNotifier {
    notified: Vec<Decision<u64>>,
}

impl ClientNotifier<u64> for RecordingNotifier {
    fn committed(&mut self, decision: &Decision<u64>) -> Result<()> {
        self.notified.push(decision.clone());
        Ok(())
    }
}

#[derive(Clone)]
struct SharedRecorder {
    inner: Rc<RefCell<RecorderCore<u64>>>,
    hears_decisions: bool,
}

impl RecorderClient<u64> for SharedRecorder {
    fn record(&mut self, request: RecordRequest<u64>) -> Result<RecordReply<u64>> {
        self.inner.borrow_mut().record(request)
    }

    fn inform_decisions(&mut self, decisions: &[Decision<u64>]) -> Result<()> {
        if !self.hears_decisions {
            return Err(QuePaxaError::TransportError("unreachable".to_string()));
        }
        self.inner.borrow_mut().inform_decisions(decisions)
    }

    fn status(&mut self, slot: SlotIndex) -> Result<Option<Step>> {
        Ok(self.inner.borrow().status(slot))
    }

    fn install_membership(&mut self, change: MembershipChange<u64>) -> Result<()> {
        self.inner.borrow_mut().install_membership(change)
    }
}

#[derive(Clone, Default)]
struct TestStore(Rc<RefCell<InMemoryRuntimeStore<u64>>>);

impl RuntimeStateStore<u64> for TestStore {
    fn load(&mut self) -> Result<Option<RuntimeSnapshot<u64>>> {
        self.0.borrow_mut().load()
    }

    fn save(&mut self, snapshot: &RuntimeSnapshot<u64>) -> Result<()> {
        self.0.borrow_mut().save(snapshot)
    }
}

type TestRuntime = ReplicaRuntime<
    u64,
    SharedRecorder,
    FixedPriorities,
    TestStore,
    RecordingStateMachine,
    RecordingNotifier,
>;

fn members() -> Vec<ReplicaId> {
    (1..=3).map(ReplicaId::new).collect()
}

fn recorders(members: &[ReplicaId]) -> Vec<SharedRecorder> {
    members
        .iter()
        .map(|id| SharedRecorder {
            inner: Rc::new(RefCell::new(
                RecorderCore::permissive_for_tests(*id, members.to_vec()).unwrap(),
            )),
            hears_decisions: true,
        })
        .collect()
}

fn handles(recorders: &[SharedRecorder]) -> Vec<RecorderHandle<SharedRecorder>> {
    recorders
        .iter()
        .map(|recorder| RecorderHandle::new(recorder.inner.borrow().id(), recorder.clone()))
        .collect()
}

fn runtime(
    replica_id: ReplicaId,
    recorders: &[SharedRecorder],
    state_store: TestStore,
    base_hedge_delay: Span,
) -> TestRuntime {
    let members = members();
    ReplicaRuntime::new(
        ReplicaRuntimeConfig::new(
            replica_id,
            LaneId::new(1),
            members,
            1,
            ReplicaConfig {
                batch_size: 1,
                pipeline_len: 2,
                ..ReplicaConfig::default()
            },
            16,
            base_hedge_delay,
        )
        .unwrap(),
        ProposerCore::with_rng(replica_id, LaneId::new(1), FixedPriorities { next: 1 }),
        handles(recorders),
        state_store,
        RecordingStateMachine::default(),
        RecordingNotifier::default(),
    )
    .unwrap()
}

fn poll(runtime: &mut TestRuntime, now: Span) -> Result<RuntimePoll<u64>> {
    match runtime.poll(now)? {
        RuntimePoll::Propose {
            slot,
            value_ids,
            leader,
        } => {
            let started = Instant::now();
            let decision = runtime.propose(slot, value_ids, leader)?;
            let elapsed = Span::from_nanos(started.elapsed().as_nanos() as u64);
            Ok(RuntimePoll::Committed(
                runtime.complete_proposal(decision, elapsed)?,
            ))
        }
        outcome => Ok(outcome),
    }
}

fn run_once(runtime: &mut TestRuntime) -> Result<RuntimePoll<u64>> {
    poll(runtime, Span::from_secs(1))
}

fn install_first_epoch(runtime: &mut TestRuntime) {
    runtime
        .install_epoch_schedule(EpochSchedule::new(0, members()).unwrap())
        .unwrap();
}

#[test]
fn runtime_submits_executes_notifies_and_disseminates() {
    let members = members();
    let recorders = recorders(&members);
    let store = TestStore::default();
    let mut runtime = runtime(ReplicaId::new(1), &recorders, store.clone(), Span::zero());
    install_first_epoch(&mut runtime);
    runtime.submit(vec![10]).unwrap();

    assert!(matches!(
        run_once(&mut runtime).unwrap(),
        RuntimePoll::Committed(_)
    ));
    assert_eq!(runtime.state_machine().executed.len(), 1);
    assert_eq!(runtime.notifier().notified.len(), 1);
    assert_eq!(
        runtime.decision(SlotIndex::new(1)).unwrap().value_ids,
        vec![10]
    );
    for recorder in &recorders {
        assert_eq!(recorder.inner.borrow().decisions().len(), 1);
    }
    assert!(store.0.borrow().snapshot().is_some());
}

#[test]
fn remote_decision_suppresses_a_later_hedged_proposal() {
    let members = members();
    let recorders = recorders(&members);
    let mut runtime = runtime(
        ReplicaId::new(2),
        &recorders,
        TestStore::default(),
        Span::from_secs(1),
    );
    install_first_epoch(&mut runtime);
    runtime.submit(vec![20]).unwrap();

    assert!(matches!(
        poll(&mut runtime, Span::zero()).unwrap(),
        RuntimePoll::Waiting { .. }
    ));
    let decision = Decision::new(
        SlotIndex::new(1),
        vec![99],
        ReplicaId::new(1),
        Step::round_one_phase_zero(),
    )
    .unwrap();
    let committed = runtime.receive_decision(decision).unwrap();

    assert_eq!(committed.len(), 1);
    assert_eq!(runtime.state_machine().executed[0].value_ids, vec![99]);
    assert_eq!(runtime.notifier().notified[0].value_ids, vec![99]);
}

#[test]
fn recorder_progress_defers_a_hedged_proposal_by_another_interval() {
    let members = members();
    let recorders = recorders(&members);
    recorders[0]
        .inner
        .borrow_mut()
        .record(RecordRequest {
            sender: ReplicaId::new(1),
            slot: SlotIndex::new(1),
            round_one_leader: Some(ReplicaId::new(1)),
            step: Step::round_one_phase_zero(),
            proposal: Proposal::new(
                ProposalKey::new(Priority::max(), ReplicaId::new(1), LaneId::new(1)),
                vec![99],
            )
            .unwrap(),
            known_decisions: Vec::new(),
        })
        .unwrap();
    let mut runtime = runtime(
        ReplicaId::new(2),
        &recorders,
        TestStore::default(),
        Span::from_millis(10),
    );
    install_first_epoch(&mut runtime);
    runtime.submit(vec![20]).unwrap();
    let first_deadline = match poll(&mut runtime, Span::zero()).unwrap() {
        RuntimePoll::Waiting { until, .. } => until,
        outcome => panic!("unexpected poll result: {outcome:?}"),
    };
    let second_deadline = match poll(&mut runtime, first_deadline).unwrap() {
        RuntimePoll::Waiting { until, .. } => until,
        outcome => panic!("unexpected poll result: {outcome:?}"),
    };
    assert!(second_deadline > first_deadline);
    assert_eq!(first_deadline, Span::from_millis(10));
    assert_eq!(second_deadline, Span::from_millis(20));
}

#[test]
fn configured_noop_recovers_an_idle_commit_gap() {
    let members = members();
    let mut runtime = runtime(
        ReplicaId::new(2),
        &recorders(&members),
        TestStore::default(),
        Span::zero(),
    )
    .with_noop_value(0);
    install_first_epoch(&mut runtime);
    runtime
        .receive_decision(
            Decision::new(
                SlotIndex::new(2),
                vec![22],
                ReplicaId::new(1),
                Step::round_one_phase_zero(),
            )
            .unwrap(),
        )
        .unwrap();

    let committed = match poll(&mut runtime, Span::zero()).unwrap() {
        RuntimePoll::Committed(committed) => committed,
        outcome => panic!("unexpected poll result: {outcome:?}"),
    };
    assert_eq!(committed.len(), 2);
    assert_eq!(committed[0].slot, SlotIndex::new(1));
    assert_eq!(committed[0].value_ids, vec![0]);
    assert_eq!(committed[1].slot, SlotIndex::new(2));
}

#[test]
fn runtime_recovers_persisted_state_and_can_continue_after_checkpoint() {
    let members = members();
    let store = TestStore::default();
    let mut first = runtime(
        ReplicaId::new(1),
        &recorders(&members),
        store.clone(),
        Span::zero(),
    );
    install_first_epoch(&mut first);
    first.submit(vec![30]).unwrap();
    run_once(&mut first).unwrap();
    drop(first);

    let mut recovered = runtime(
        ReplicaId::new(1),
        &recorders(&members),
        store.clone(),
        Span::zero(),
    );
    assert!(recovered.recover().unwrap().is_empty());
    assert!(recovered.state_machine().executed.is_empty());
    assert_eq!(
        recovered.decision(SlotIndex::new(1)).unwrap().value_ids,
        vec![30]
    );

    recovered.checkpoint_through(SlotIndex::new(1)).unwrap();
    drop(recovered);

    let mut after_checkpoint = runtime(
        ReplicaId::new(1),
        &recorders(&members),
        store.clone(),
        Span::zero(),
    );
    after_checkpoint.submit(vec![31]).unwrap();
    run_once(&mut after_checkpoint).unwrap();
    assert_eq!(
        after_checkpoint
            .decision(SlotIndex::new(2))
            .unwrap()
            .value_ids,
        vec![31]
    );
}

#[test]
fn checkpoint_requires_full_dissemination() {
    let members = members();
    let mut recorders = recorders(&members);
    recorders[2].hears_decisions = false;
    let mut runtime = runtime(
        ReplicaId::new(1),
        &recorders,
        TestStore::default(),
        Span::zero(),
    );
    install_first_epoch(&mut runtime);
    runtime.submit(vec![1]).unwrap();
    run_once(&mut runtime).unwrap();

    assert!(matches!(
        runtime.checkpoint_through(SlotIndex::new(1)),
        Err(QuePaxaError::QuorumNotReached {
            needed: 3,
            received
        }) if received < 3
    ));
}

#[test]
fn state_transfer_installs_application_and_consensus_checkpoints() {
    let members = members();
    let mut source = runtime(
        ReplicaId::new(1),
        &recorders(&members),
        TestStore::default(),
        Span::zero(),
    );
    install_first_epoch(&mut source);
    source.submit(vec![30]).unwrap();
    run_once(&mut source).unwrap();
    let transfer = source.create_state_transfer(SlotIndex::new(1)).unwrap();
    assert_eq!(transfer.checkpointed_value_ids, vec![30]);
    assert!(source.decision(SlotIndex::new(1)).is_none());

    let destination_recorders = recorders(&members);
    for recorder in &destination_recorders {
        recorder
            .inner
            .borrow_mut()
            .install_state_transfer_floor(SlotIndex::new(1));
    }
    let mut destination = runtime(
        ReplicaId::new(2),
        &destination_recorders,
        TestStore::default(),
        Span::zero(),
    );
    destination.install_state_transfer(transfer).unwrap();
    assert_eq!(
        destination.replica().checkpointed_through(),
        SlotIndex::new(1)
    );
    assert_eq!(
        destination.state_machine().imported_checkpoint,
        1_u64.to_be_bytes()
    );
    destination.submit(vec![31]).unwrap();
    run_once(&mut destination).unwrap();
    assert_eq!(
        destination.decision(SlotIndex::new(2)).unwrap().value_ids,
        vec![31]
    );
}

#[test]
fn automatic_epoch_tuning_is_deterministic_from_committed_history() {
    let members = members();
    let mut first = EpochTuner::new(2, members.clone(), true);
    let mut second = EpochTuner::new(2, members, true);
    for slot in 1..=11 {
        let step = Step::new(if slot % 3 == 0 { 8 } else { 4 });
        first.note_committed(SlotIndex::new(slot), step).unwrap();
        second.note_committed(SlotIndex::new(slot), step).unwrap();
    }
    assert_eq!(
        first.ensure_schedule(7).unwrap(),
        second.ensure_schedule(7).unwrap()
    );
}

#[test]
fn automatic_epoch_tuning_periodically_reexplores() {
    let mut tuner = EpochTuner::new(1, members(), true);
    for slot in 1..=39 {
        tuner
            .note_committed(SlotIndex::new(slot), Step::round_one_phase_zero())
            .unwrap();
    }

    assert_eq!(
        tuner.ensure_schedule(39).unwrap().leader(),
        ReplicaId::new(2)
    );
}

#[test]
fn adaptive_hedging_uses_wall_clock_completion_samples() {
    let members = members();
    let config = ReplicaRuntimeConfig::new(
        ReplicaId::new(1),
        LaneId::new(1),
        members.clone(),
        1,
        ReplicaConfig {
            batch_size: 1,
            pipeline_len: 1,
            ..ReplicaConfig::default()
        },
        16,
        Span::from_millis(500),
    )
    .unwrap()
    .with_adaptive_hedging(
        AdaptiveHedgingConfig::new(Span::from_millis(1), Span::from_millis(500)).unwrap(),
    );
    let mut runtime = ReplicaRuntime::new(
        config,
        ProposerCore::with_rng(
            ReplicaId::new(1),
            LaneId::new(1),
            FixedPriorities { next: 1 },
        ),
        handles(&recorders(&members)),
        TestStore::default(),
        RecordingStateMachine::default(),
        RecordingNotifier::default(),
    )
    .unwrap();
    install_first_epoch(&mut runtime);
    runtime.submit(vec![77]).unwrap();
    run_once(&mut runtime).unwrap();

    assert!(runtime.current_hedge_delay() < Span::from_millis(500));
    assert!(runtime.current_hedge_delay() >= Span::from_millis(1));
}

#[test]
fn retained_decisions_do_not_overflow_consensus_requests() {
    let mut runtime = runtime(
        ReplicaId::new(1),
        &recorders(&members()),
        TestStore::default(),
        Span::zero(),
    );
    install_first_epoch(&mut runtime);
    for epoch in 1..=18 {
        runtime
            .install_epoch_schedule(EpochSchedule::new(epoch, members()).unwrap())
            .unwrap();
    }

    for value in 1..=300 {
        runtime.submit(vec![value]).unwrap();
        assert!(matches!(
            run_once(&mut runtime).unwrap(),
            RuntimePoll::Committed(_)
        ));
    }

    assert!(runtime.decision(SlotIndex::new(300)).is_some());
}

#[test]
fn runtime_moves_through_joint_consensus_before_finalizing_membership() {
    let old_members = members();
    let old_recorders = recorders(&old_members);
    let mut runtime = runtime(
        ReplicaId::new(1),
        &old_recorders,
        TestStore::default(),
        Span::zero(),
    );
    install_first_epoch(&mut runtime);
    runtime.submit(vec![100]).unwrap();
    run_once(&mut runtime).unwrap();
    let first = runtime.decision(SlotIndex::new(1)).unwrap().clone();

    let joint = runtime
        .config()
        .cluster_identity()
        .begin_joint(
            vec![ReplicaId::new(1), ReplicaId::new(4), ReplicaId::new(5)],
            1,
        )
        .unwrap();
    let mut joint_recorders = old_recorders;
    for id in [ReplicaId::new(4), ReplicaId::new(5)] {
        joint_recorders.push(SharedRecorder {
            inner: Rc::new(RefCell::new(RecorderCore::new(
                RecorderConfig::from_cluster(id, joint.clone()).unwrap(),
                AllowAllAvailability,
            ))),
            hears_decisions: true,
        });
    }
    runtime
        .install_membership(
            MembershipChange::new(first, joint.clone(), 100).unwrap(),
            handles(&joint_recorders),
        )
        .unwrap();
    assert!(runtime.config().cluster_identity().is_joint());
    runtime
        .install_epoch_schedule(EpochSchedule::new(0, joint.members().to_vec()).unwrap())
        .unwrap();
    runtime.submit(vec![200]).unwrap();
    run_once(&mut runtime).unwrap();
    let second = runtime.decision(SlotIndex::new(2)).unwrap().clone();

    let stable = joint.finalize_joint().unwrap();
    let final_recorders = joint_recorders
        .iter()
        .filter(|recorder| stable.contains(recorder.inner.borrow().id()))
        .cloned()
        .collect::<Vec<_>>();
    runtime
        .install_membership(
            MembershipChange::new(second, stable.clone(), 200).unwrap(),
            handles(&final_recorders),
        )
        .unwrap();
    assert!(!runtime.config().cluster_identity().is_joint());
    assert_eq!(runtime.config().members(), stable.members());
    runtime
        .install_epoch_schedule(EpochSchedule::new(0, stable.members().to_vec()).unwrap())
        .unwrap();
    runtime.submit(vec![300]).unwrap();
    run_once(&mut runtime).unwrap();
    assert_eq!(
        runtime.decision(SlotIndex::new(3)).unwrap().value_ids,
        vec![300]
    );
}

#[test]
fn runtime_rejects_a_schedule_that_does_not_match_membership() {
    let members = members();
    let mut runtime = runtime(
        ReplicaId::new(1),
        &recorders(&members),
        TestStore::default(),
        Span::zero(),
    );

    assert!(matches!(
        runtime.install_epoch_schedule(EpochSchedule::new(0, vec![ReplicaId::new(1)]).unwrap()),
        Err(QuePaxaError::PolicyError(_))
    ));
}

fn plain_config() -> ReplicaRuntimeConfig {
    ReplicaRuntimeConfig::new(
        ReplicaId::new(1),
        LaneId::new(1),
        members(),
        1,
        ReplicaConfig::default(),
        16,
        Span::zero(),
    )
    .unwrap()
}

fn started(
    config: ReplicaRuntimeConfig,
    proposer: ReplicaId,
    store: TestStore,
) -> Result<TestRuntime> {
    ReplicaRuntime::new(
        config,
        ProposerCore::with_rng(proposer, LaneId::new(1), FixedPriorities { next: 1 }),
        handles(&recorders(&members())),
        store,
        RecordingStateMachine::default(),
        RecordingNotifier::default(),
    )
}

fn store_with(snapshot: &RuntimeSnapshot<u64>) -> TestStore {
    let mut store = TestStore::default();
    store.save(snapshot).unwrap();
    store
}

fn empty_snapshot(config: &ReplicaRuntimeConfig) -> RuntimeSnapshot<u64> {
    RuntimeSnapshot {
        cluster: config.cluster_identity().clone(),
        protocol: config.protocol_identity(),
        replica: ReplicaCore::<u64>::new(config.replica).snapshot(),
        decisions: OrdMap::new(),
        schedules: OrdMap::new(),
        pending: OrdMap::new(),
        executed: OrdSet::new(),
        notified: OrdSet::new(),
        announced_to: OrdMap::new(),
        epoch_stats: OrdMap::new(),
        stats_through: SlotIndex::genesis(),
    }
}

#[test]
fn runtime_rejects_a_proposer_for_a_different_replica() {
    assert!(matches!(
        started(plain_config(), ReplicaId::new(2), TestStore::default()),
        Err(QuePaxaError::InvalidProposal(_))
    ));
}

#[test]
fn runtime_enforces_the_configured_fault_budget_and_quorum() {
    assert!(matches!(
        ReplicaRuntimeConfig::new(
            ReplicaId::new(1),
            LaneId::new(1),
            members(),
            2,
            ReplicaConfig::default(),
            16,
            Span::zero(),
        ),
        Err(QuePaxaError::InvalidProposal(_))
    ));

    let members = (1..=5).map(ReplicaId::new).collect::<Vec<_>>();
    let config = ReplicaRuntimeConfig::new(
        ReplicaId::new(1),
        LaneId::new(1),
        members,
        1,
        ReplicaConfig::default(),
        16,
        Span::zero(),
    )
    .unwrap();
    assert_eq!(config.quorum_size(), 4);
}

#[test]
fn snapshot_restore_requires_a_committed_genesis_slot() {
    let snapshot = ReplicaSnapshot {
        log: OrdMap::new(),
        pending: Vec::<u64>::new(),
        last_proposed: SlotIndex::genesis(),
        next_commit: SlotIndex::new(1),
        checkpointed_through: SlotIndex::genesis(),
        seen_value_ids: OrdSet::new(),
    };

    assert!(matches!(
        ReplicaCore::restore(ReplicaConfig::default(), snapshot),
        Err(QuePaxaError::InvalidProposal(_))
    ));
}

#[test]
fn recovery_replays_a_persisted_but_unexecuted_decision() {
    let config = plain_config();
    let decision = Decision::new(
        SlotIndex::new(1),
        vec![40],
        ReplicaId::new(1),
        Step::round_one_phase_zero(),
    )
    .unwrap();
    let mut replica = ReplicaCore::new(config.replica);
    replica.apply_decision(decision.clone()).unwrap();
    let mut snapshot = empty_snapshot(&config);
    snapshot.replica = replica.snapshot();
    snapshot.decisions.insert(decision.slot, decision);
    snapshot
        .schedules
        .insert(0, EpochSchedule::new(0, members()).unwrap());
    let mut runtime = runtime(
        ReplicaId::new(1),
        &recorders(&members()),
        store_with(&snapshot),
        Span::zero(),
    );

    let delivered = runtime.recover().unwrap();
    assert_eq!(delivered.len(), 1);
    assert_eq!(runtime.state_machine().executed[0].value_ids, vec![40]);
    assert_eq!(runtime.notifier().notified[0].value_ids, vec![40]);
}

#[test]
fn runtime_rejects_snapshot_execution_metadata_without_a_decision() {
    let config = plain_config();
    let mut snapshot = empty_snapshot(&config);
    snapshot.executed.insert(SlotIndex::new(1));

    assert!(matches!(
        started(config, ReplicaId::new(1), store_with(&snapshot)),
        Err(QuePaxaError::InvalidProposal(_))
    ));
}

#[test]
fn runtime_rejects_a_snapshot_from_a_different_cluster() {
    let config = plain_config();
    let snapshot = RuntimeSnapshot {
        cluster: ClusterIdentity::new(vec![ReplicaId::new(1)], 0).unwrap(),
        ..empty_snapshot(&config)
    };

    assert!(matches!(
        started(config, ReplicaId::new(1), store_with(&snapshot)),
        Err(QuePaxaError::ConfigurationMismatch)
    ));
}

#[test]
fn runtime_rejects_a_snapshot_with_different_epoch_configuration() {
    let config = plain_config();
    let snapshot = RuntimeSnapshot {
        protocol: ProtocolIdentity {
            epoch_size: 8,
            auto_schedules: false,
        },
        ..empty_snapshot(&config)
    };

    assert!(matches!(
        started(config, ReplicaId::new(1), store_with(&snapshot)),
        Err(QuePaxaError::ConfigurationMismatch)
    ));
}

#[test]
fn a_restart_finds_what_was_saved() {
    let store = TestStore::default();
    let shared = recorders(&members());
    let mut first = runtime(ReplicaId::new(1), &shared, store.clone(), Span::zero());
    install_first_epoch(&mut first);
    first.submit(vec![5, 6, 7]).unwrap();
    run_once(&mut first).unwrap();
    let saved = first.snapshot();
    assert_eq!(store.0.borrow().snapshot(), Some(&saved));
    drop(first);

    let second = runtime(ReplicaId::new(1), &shared, store, Span::zero());
    assert_eq!(second.snapshot(), saved);
}

#[test]
fn deliveries_come_in_slot_order() {
    let mut runtime = runtime(
        ReplicaId::new(2),
        &recorders(&members()),
        TestStore::default(),
        Span::zero(),
    );
    install_first_epoch(&mut runtime);
    for slot in [3u64, 2, 1] {
        runtime
            .receive_decision(
                Decision::new(
                    SlotIndex::new(slot),
                    vec![slot * 10],
                    ReplicaId::new(1),
                    Step::new(4),
                )
                .unwrap(),
            )
            .unwrap();
    }
    let executed: Vec<u64> = runtime
        .state_machine()
        .executed
        .iter()
        .map(|decision| decision.slot.get())
        .collect();
    assert_eq!(executed, vec![1, 2, 3]);
    assert_eq!(
        runtime
            .receive_decision(
                Decision::new(
                    SlotIndex::new(2),
                    vec![21],
                    ReplicaId::new(1),
                    Step::new(4)
                )
                .unwrap()
            )
            .unwrap_err(),
        QuePaxaError::ConflictingDecision {
            slot: SlotIndex::new(2)
        }
    );
}

#[test]
fn policies_fill_epochs() {
    let mut runtime = runtime(
        ReplicaId::new(1),
        &recorders(&members()),
        TestStore::default(),
        Span::zero(),
    );
    let schedule = runtime
        .install_policy_epoch(3, &FixedLeaderPolicy, None)
        .unwrap();
    assert_eq!(schedule.epoch, 3);
    assert_eq!(schedule.proposers, members());
    assert_eq!(runtime.config().epoch_for(SlotIndex::new(16)), 1);
    assert_eq!(runtime.config().epoch_for(SlotIndex::new(15)), 0);
}

#[test]
fn a_slot_without_a_schedule_is_refused() {
    let mut runtime = runtime(
        ReplicaId::new(1),
        &recorders(&members()),
        TestStore::default(),
        Span::zero(),
    );
    runtime.submit(vec![1]).unwrap();
    assert!(matches!(
        runtime.poll(Span::zero()),
        Err(QuePaxaError::PolicyError(_))
    ));
}

#[test]
fn hedging_configurations_are_validated() {
    let bounds = || AdaptiveHedgingConfig::new(Span::from_millis(1), Span::from_millis(9));
    assert!(bounds().is_ok());
    assert!(AdaptiveHedgingConfig::new(Span::from_millis(9), Span::from_millis(1)).is_err());
    assert!(bounds().unwrap().with_window(0).is_err());
    assert!(bounds().unwrap().with_percentile(0).is_err());
    assert!(bounds().unwrap().with_percentile(101).is_err());
    let config = bounds()
        .unwrap()
        .with_window(4)
        .unwrap()
        .with_percentile(100)
        .unwrap();
    assert_eq!(config.sample_window(), 4);
    assert_eq!(config.percentile(), 100);
}

#[test]
fn a_transfer_below_an_earlier_checkpoint_is_refused() {
    let members = members();
    let mut source = runtime(
        ReplicaId::new(1),
        &recorders(&members),
        TestStore::default(),
        Span::zero(),
    );
    install_first_epoch(&mut source);
    for value in [30, 31] {
        source.submit(vec![value]).unwrap();
        run_once(&mut source).unwrap();
    }
    source.checkpoint_through(SlotIndex::new(2)).unwrap();
    let before = source.snapshot();
    assert_eq!(
        source.create_state_transfer(SlotIndex::new(1)).unwrap_err(),
        QuePaxaError::InvalidProposal("cannot transfer state below the pruning floor".to_string())
    );
    assert_eq!(source.snapshot(), before);
    let transfer = source.create_state_transfer(SlotIndex::new(2)).unwrap();
    assert_eq!(transfer.through, SlotIndex::new(2));
    assert_eq!(
        transfer.through,
        transfer.runtime.replica.checkpointed_through
    );
    assert!(transfer.checkpointed_value_ids.is_empty());
}

#[test]
fn a_joint_epoch_that_replaces_one_member_can_be_finalized() {
    let old_recorders = recorders(&members());
    let mut runtime = runtime(
        ReplicaId::new(2),
        &old_recorders,
        TestStore::default(),
        Span::zero(),
    );
    install_first_epoch(&mut runtime);
    runtime.submit(vec![100]).unwrap();
    run_once(&mut runtime).unwrap();
    let first = runtime.decision(SlotIndex::new(1)).unwrap().clone();
    let joint = runtime
        .config()
        .cluster_identity()
        .begin_joint(
            vec![ReplicaId::new(2), ReplicaId::new(3), ReplicaId::new(4)],
            1,
        )
        .unwrap();
    let mut joint_recorders = old_recorders;
    joint_recorders.push(SharedRecorder {
        inner: Rc::new(RefCell::new(RecorderCore::new(
            RecorderConfig::from_cluster(ReplicaId::new(4), joint.clone()).unwrap(),
            AllowAllAvailability,
        ))),
        hears_decisions: true,
    });
    runtime
        .install_membership(
            MembershipChange::new(first, joint.clone(), 100).unwrap(),
            handles(&joint_recorders),
        )
        .unwrap();
    runtime
        .install_epoch_schedule(EpochSchedule::new(0, joint.members().to_vec()).unwrap())
        .unwrap();
    runtime.submit(vec![200]).unwrap();
    run_once(&mut runtime).unwrap();
    let second = runtime.decision(SlotIndex::new(2)).unwrap().clone();
    let stable = joint.finalize_joint().unwrap();
    runtime
        .install_membership(
            MembershipChange::new(second, stable.clone(), 200).unwrap(),
            handles(&joint_recorders[1..]),
        )
        .unwrap();
    assert_eq!(runtime.config().members(), stable.members());
}
