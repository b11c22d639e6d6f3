use rust_quepaxa::{
    AllowAllAvailability, ClusterIdentity, Decision, DurableRecorderCore, InMemoryRecorderStore,
    LaneId, MembershipChange, Priority, Proposal, ProposalKey, QuePaxaError, RecordRequest,
    RecorderConfig, RecorderCore, RecorderLimits, RecorderSnapshot, RecorderStateStore, ReplicaId,
    Result, SlotIndex, Step,
};
use std::cell::RefCell;
use std::rc::Rc;

#[derive(Clone, Default)]
struct SharedStore(Rc<RefCell<InMemoryRecorderStore<u64>>>);

impl RecorderStateStore<u64> for SharedStore {
    fn load(&mut self) -> Result<Option<RecorderSnapshot<u64>>> {
        self.0.borrow_mut().load()
    }

    fn save(&mut self, snapshot: &RecorderSnapshot<u64>) -> Result<()> {
        self.0.borrow_mut().save(snapshot)
    }
}

fn ids(list: &[u64]) -> Vec<ReplicaId> {
    list.iter().copied().map(ReplicaId::new).collect()
}

fn request(value: u64) -> RecordRequest<u64> {
    RecordRequest {
        sender: ReplicaId::new(1),
        slot: SlotIndex::new(1),
        round_one_leader: Some(ReplicaId::new(1)),
        step: Step::round_one_phase_zero(),
        proposal: Proposal::new(
            ProposalKey::new(Priority::max(), ReplicaId::new(1), LaneId::new(1)),
            vec![value],
        )
        .unwrap(),
        known_decisions: Vec::new(),
    }
}

fn request_with_leader(value: u64, leader: ReplicaId) -> RecordRequest<u64> {
    RecordRequest {
        round_one_leader: Some(leader),
        ..request(value)
    }
}

#[test]
fn recorder_config_rejects_an_unsupported_fault_budget() {
    assert!(matches!(
        RecorderConfig::new(ReplicaId::new(1), ids(&[1, 2, 3]), 2),
        Err(QuePaxaError::InvalidProposal(_))
    ));
}

#[test]
fn recorder_config_exposes_the_paper_quorum() {
    let config = RecorderConfig::new(ReplicaId::new(1), ids(&[1, 2, 3, 4, 5]), 1).unwrap();

    assert_eq!(config.max_faults(), 1);
    assert_eq!(config.quorum_size(), 4);
}

#[test]
fn durable_recorder_restores_consensus_state() {
    let members = vec![ReplicaId::new(1)];
    let store = SharedStore::default();
    let mut first = DurableRecorderCore::new(
        RecorderConfig::new(ReplicaId::new(1), members.clone(), 0).unwrap(),
        AllowAllAvailability,
        store.clone(),
    )
    .unwrap();
    first.record(request(10)).unwrap();
    drop(first);

    let mut restored = DurableRecorderCore::new(
        RecorderConfig::new(ReplicaId::new(1), members, 0).unwrap(),
        AllowAllAvailability,
        store,
    )
    .unwrap();
    let reply = restored.record(request(20)).unwrap();

    assert_eq!(reply.summary.first.unwrap().value_ids, vec![10]);
}

struct FailingStore;

impl RecorderStateStore<u64> for FailingStore {
    fn load(&mut self) -> Result<Option<RecorderSnapshot<u64>>> {
        Ok(None)
    }

    fn save(&mut self, _snapshot: &RecorderSnapshot<u64>) -> Result<()> {
        Err(QuePaxaError::StorageError(
            "simulated disk failure".to_string(),
        ))
    }
}

#[test]
fn durable_recorder_does_not_acknowledge_or_retain_an_unpersisted_write() {
    let mut recorder = DurableRecorderCore::new(
        RecorderConfig::new(ReplicaId::new(1), vec![ReplicaId::new(1)], 0).unwrap(),
        AllowAllAvailability,
        FailingStore,
    )
    .unwrap();

    assert!(matches!(
        recorder.record(request(10)),
        Err(QuePaxaError::StorageError(_))
    ));
    assert!(recorder.inner().snapshot().slots.is_empty());
}

#[test]
fn durable_pruned_floor_rejects_old_records_and_ignores_late_decisions() {
    let members = vec![ReplicaId::new(1)];
    let store = SharedStore::default();
    let mut recorder = DurableRecorderCore::new(
        RecorderConfig::new(ReplicaId::new(1), members.clone(), 0).unwrap(),
        AllowAllAvailability,
        store.clone(),
    )
    .unwrap();
    recorder.record(request(10)).unwrap();
    recorder.prune_through(SlotIndex::new(1)).unwrap();
    recorder
        .inform_decision(
            Decision::new(
                SlotIndex::new(1),
                vec![10],
                ReplicaId::new(1),
                Step::round_one_phase_zero(),
            )
            .unwrap(),
        )
        .unwrap();
    assert!(recorder.inner().snapshot().decisions.is_empty());
    drop(recorder);

    let mut restored = DurableRecorderCore::new(
        RecorderConfig::new(ReplicaId::new(1), members, 0).unwrap(),
        AllowAllAvailability,
        store,
    )
    .unwrap();
    assert_eq!(
        restored.record(request(20)).unwrap_err(),
        QuePaxaError::SlotPruned {
            slot: SlotIndex::new(1)
        }
    );
}

#[test]
fn leader_binding_survives_recorder_restart() {
    let members = ids(&[1, 2, 3]);
    let store = SharedStore::default();
    let config = || RecorderConfig::new(ReplicaId::new(1), members.clone(), 1).unwrap();
    let mut recorder =
        DurableRecorderCore::new(config(), AllowAllAvailability, store.clone()).unwrap();
    recorder
        .record(request_with_leader(10, ReplicaId::new(1)))
        .unwrap();
    drop(recorder);

    let mut restored = DurableRecorderCore::new(config(), AllowAllAvailability, store).unwrap();
    assert_eq!(
        restored
            .record(request_with_leader(20, ReplicaId::new(2)))
            .unwrap_err(),
        QuePaxaError::ScheduleMismatch {
            slot: SlotIndex::new(1)
        }
    );
}

#[test]
fn membership_change_is_anchored_and_persisted() {
    let members = ids(&[1, 2, 3]);
    let stable = ClusterIdentity::stable(4, members.clone(), 1).unwrap();
    let joint = stable.begin_joint(ids(&[2, 3, 4]), 1).unwrap();
    let store = SharedStore::default();
    let mut recorder = DurableRecorderCore::new(
        RecorderConfig::from_cluster(ReplicaId::new(2), stable.clone()).unwrap(),
        AllowAllAvailability,
        store.clone(),
    )
    .unwrap();
    let anchor = Decision::new(
        SlotIndex::new(1),
        vec![99],
        ReplicaId::new(1),
        Step::round_one_phase_zero(),
    )
    .unwrap();
    recorder.inform_decision(anchor.clone()).unwrap();
    recorder
        .install_membership(MembershipChange::new(anchor, joint.clone(), 99).unwrap())
        .unwrap();
    drop(recorder);

    let restored = DurableRecorderCore::new(
        RecorderConfig::from_cluster(ReplicaId::new(2), joint.clone()).unwrap(),
        AllowAllAvailability,
        store,
    )
    .unwrap();
    assert_eq!(restored.inner().snapshot().cluster, joint);
}

#[test]
fn an_authenticated_sender_speaks_only_for_itself() {
    let mut recorder: RecorderCore<u64> =
        RecorderCore::permissive_for_tests(ReplicaId::new(1), ids(&[1, 2, 3])).unwrap();
    assert_eq!(
        recorder
            .record_from(ReplicaId::new(2), request(10))
            .unwrap_err(),
        QuePaxaError::InvalidSender(ReplicaId::new(1))
    );
    assert!(recorder.record_from(ReplicaId::new(1), request(10)).is_ok());
}

#[test]
fn values_that_are_not_available_are_not_recorded() {
    let mut recorder: RecorderCore<u64> =
        RecorderCore::permissive_for_tests(ReplicaId::new(1), ids(&[1, 2, 3])).unwrap();
    assert_eq!(
        recorder
            .record_with_availability(request(10), Err(QuePaxaError::MissingValue))
            .unwrap_err(),
        QuePaxaError::MissingValue
    );
    assert!(recorder.status(SlotIndex::new(1)).is_none());
    recorder
        .record_with_availability(request(10), Ok(()))
        .unwrap();
    assert_eq!(
        recorder.status(SlotIndex::new(1)),
        Some(Step::round_one_phase_zero())
    );
}

#[test]
fn recorders_resume_from_their_own_snapshots() {
    let mut recorder: RecorderCore<u64> =
        RecorderCore::permissive_for_tests(ReplicaId::new(1), ids(&[1, 2, 3])).unwrap();
    recorder.record(request(10)).unwrap();
    recorder
        .inform_decision(
            Decision::new(
                SlotIndex::new(4),
                vec![11],
                ReplicaId::new(2),
                Step::new(4),
            )
            .unwrap(),
        )
        .unwrap();
    let config = RecorderConfig::new(ReplicaId::new(1), ids(&[1, 2, 3]), 1).unwrap();
    let resumed =
        RecorderCore::restore(config, AllowAllAvailability, recorder.snapshot()).unwrap();
    assert_eq!(resumed.snapshot(), recorder.snapshot());
    assert_eq!(resumed.decisions(), recorder.decisions());
}

#[test]
fn a_recorder_keeps_the_first_decision_of_a_slot() {
    let mut recorder: RecorderCore<u64> =
        RecorderCore::permissive_for_tests(ReplicaId::new(1), ids(&[1, 2, 3])).unwrap();
    let decided = |value: u64| {
        Decision::new(
            SlotIndex::new(1),
            vec![value],
            ReplicaId::new(2),
            Step::new(4),
        )
        .unwrap()
    };
    recorder.inform_decision(decided(5)).unwrap();
    recorder.inform_decision(decided(5)).unwrap();
    assert_eq!(
        recorder.inform_decision(decided(6)).unwrap_err(),
        QuePaxaError::ConflictingDecision {
            slot: SlotIndex::new(1)
        }
    );
    assert_eq!(recorder.decisions(), vec![decided(5)]);
    let reply = recorder.record(request(10)).unwrap();
    assert_eq!(reply.decision, Some(decided(5)));
}

#[test]
fn limits_must_admit_something() {
    let config = || RecorderConfig::new(ReplicaId::new(1), ids(&[1]), 0).unwrap();
    assert!(config()
        .with_limits(RecorderLimits {
            max_active_slots: 0,
            ..RecorderLimits::default()
        })
        .is_err());
    assert!(config().with_limits(RecorderLimits::default()).is_ok());
}
