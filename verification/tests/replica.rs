use rust_quepaxa::{
    Decision, LogSlot, OrdMap, OrdSet, QuePaxaError, ReplicaConfig, ReplicaCore, ReplicaId,
    ReplicaSnapshot, SlotIndex, Step,
};

fn decision(slot: u64, values: Vec<u64>) -> Decision<u64> {
    Decision::new(
        SlotIndex::new(slot),
        values,
        ReplicaId::new(1),
        Step::new(4),
    )
    .unwrap()
}

#[test]
fn commits_decided_slots_in_order() {
    let mut replica = ReplicaCore::new(ReplicaConfig {
        batch_size: 2,
        pipeline_len: 2,
        ..ReplicaConfig::default()
    });
    replica.enqueue(vec![1, 2, 3, 4]).unwrap();

    assert_eq!(
        replica.next_proposal().unwrap(),
        Some((SlotIndex::new(1), vec![1, 2]))
    );
    assert_eq!(
        replica.next_proposal().unwrap(),
        Some((SlotIndex::new(2), vec![3, 4]))
    );

    assert!(replica
        .apply_decision(decision(2, vec![3, 4]))
        .unwrap()
        .is_empty());
    let committed = replica.apply_decision(decision(1, vec![1, 2])).unwrap();

    assert_eq!(committed.len(), 2);
    assert_eq!(committed[0].slot, SlotIndex::new(1));
    assert_eq!(committed[1].slot, SlotIndex::new(2));
    assert_eq!(replica.committed_through(), SlotIndex::new(2));
}

#[test]
fn requeues_losing_proposal_values() {
    let mut replica = ReplicaCore::new(ReplicaConfig {
        batch_size: 2,
        pipeline_len: 1,
        ..ReplicaConfig::default()
    });
    replica
        .note_proposed(SlotIndex::new(1), vec![1, 2])
        .unwrap();

    let committed = replica.apply_decision(decision(1, vec![2])).unwrap();

    assert_eq!(committed.len(), 1);
    assert_eq!(replica.pending_len(), 1);
    assert_eq!(
        replica.next_proposal().unwrap(),
        Some((SlotIndex::new(2), vec![1]))
    );
}

#[test]
fn restore_rejects_a_snapshot_that_skips_a_committed_slot() {
    let mut log = OrdMap::new();
    log.insert(
        SlotIndex::genesis(),
        LogSlot {
            committed: true,
            ..LogSlot::default()
        },
    );
    let snapshot = ReplicaSnapshot {
        log,
        pending: Vec::<u64>::new(),
        last_proposed: SlotIndex::genesis(),
        next_commit: SlotIndex::new(2),
        checkpointed_through: SlotIndex::genesis(),
        seen_value_ids: OrdSet::new(),
    };

    assert!(matches!(
        ReplicaCore::restore(ReplicaConfig::default(), snapshot),
        Err(QuePaxaError::InvalidProposal(_))
    ));
}

#[test]
fn duplicate_submissions_remain_suppressed_after_restart() {
    let mut replica = ReplicaCore::new(ReplicaConfig::default());
    replica.enqueue(vec![7u64, 7]).unwrap();
    assert_eq!(replica.pending_len(), 1);

    let mut restored = ReplicaCore::restore(ReplicaConfig::default(), replica.snapshot()).unwrap();
    restored.enqueue(vec![7]).unwrap();

    assert_eq!(restored.pending_len(), 1);
    assert_eq!(
        restored.next_proposal().unwrap(),
        Some((SlotIndex::new(1), vec![7]))
    );
}

#[test]
fn a_second_value_for_a_decided_slot_conflicts() {
    let mut replica = ReplicaCore::new(ReplicaConfig::default());
    replica.apply_decision(decision(1, vec![5])).unwrap();
    let before = replica.snapshot();
    assert_eq!(
        replica.apply_decision(decision(1, vec![6])).unwrap_err(),
        QuePaxaError::ConflictingDecision {
            slot: SlotIndex::new(1)
        }
    );
    assert_eq!(replica.snapshot(), before);
    assert!(replica
        .apply_decision(decision(1, vec![5]))
        .unwrap()
        .is_empty());
}

#[test]
fn pruning_keeps_what_comes_after() {
    let mut replica = ReplicaCore::new(ReplicaConfig::default());
    for slot in 1..=4u64 {
        replica
            .apply_decision(decision(slot, vec![slot * 10]))
            .unwrap();
    }
    replica.prune_through(SlotIndex::new(2));
    assert_eq!(replica.checkpointed_through(), SlotIndex::new(2));
    assert_eq!(replica.committed_through(), SlotIndex::new(4));
    assert!(replica.slot(SlotIndex::new(1)).is_none());
    assert!(replica.slot(SlotIndex::new(2)).is_none());
    assert!(replica.slot(SlotIndex::new(3)).is_some());
    assert!(replica.has_slot_after(SlotIndex::new(3)));
    assert!(!replica.has_slot_after(SlotIndex::new(4)));

    let resumed = ReplicaCore::restore(ReplicaConfig::default(), replica.snapshot()).unwrap();
    assert_eq!(resumed.snapshot(), replica.snapshot());
}

#[test]
fn commits_are_the_longest_accepted_prefix_across_restarts() {
    let config = ReplicaConfig::default();
    let mut replica: ReplicaCore<u64> = ReplicaCore::new(config);
    let mut answered = Vec::new();
    let steps = [(3, 0), (1, 1), (1, 1), (5, 1), (2, 3), (7, 3), (4, 5), (6, 7)];
    for (slot, committed) in steps {
        answered.extend(replica.apply_decision(decision(slot, vec![slot * 10])).unwrap());
        assert!(replica.apply_decision(decision(slot, Vec::from([99]))).is_err());
        assert_eq!(replica.committed_through(), SlotIndex::new(committed));
        replica.enqueue(vec![1000 + slot]).unwrap();
        replica = ReplicaCore::restore(config, replica.snapshot()).unwrap();
        assert_eq!(replica.committed_through(), SlotIndex::new(committed));
    }
    replica.prune_through(SlotIndex::new(4));
    assert_eq!(replica.committed_through(), SlotIndex::new(7));
    assert!(replica
        .apply_decision(decision(2, vec![21]))
        .unwrap()
        .is_empty());
    assert_eq!(
        answered
            .iter()
            .map(|decision| (decision.slot.get(), decision.value_ids.clone()))
            .collect::<Vec<_>>(),
        (1..=7u64).map(|slot| (slot, vec![slot * 10])).collect::<Vec<_>>()
    );
}
