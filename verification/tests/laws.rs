use rust_quepaxa::bytes::copy_bytes;
use rust_quepaxa::proposer::{mix_seed, quorum_size, sample_below, validate_recorders};
use rust_quepaxa::ranking::{promote, rotated};
use rust_quepaxa::schedule::HedgeDelayTuner;
use rust_quepaxa::{
    AdaptiveHedgingConfig, ClusterIdentity, Decision, EpochSchedule, EpochTuner, LaneId,
    MembershipCommand, OrdMap, OrdSet, Priority, PrioritySource, QuePaxaError, QuorumCollector,
    RecordReply, RecordSummary, ReplicaConfig, ReplicaCore, ReplicaId, ReplicaRuntimeConfig,
    RoundRobinPolicy, SlotIndex, Span, Step, XorShift64,
};

fn ids(list: &[u64]) -> Vec<ReplicaId> {
    list.iter().copied().map(ReplicaId::new).collect()
}

#[test]
fn every_priority_is_drawn_equally_often() {
    let upper = Priority::new(4);
    let mut drawn = [0u64; 4];
    for value in 0..3000 {
        let priority = sample_below(upper, value).unwrap().unwrap();
        drawn[priority.get() as usize] += 1;
    }
    assert_eq!(drawn, [0, 1000, 1000, 1000]);
    assert_eq!(sample_below(upper, u64::MAX).unwrap(), None);
    assert!(sample_below(Priority::new(1), 5).is_err());
}

#[test]
fn streams_differ_and_repeat() {
    let draw = |mut source: XorShift64| -> Vec<u64> {
        (0..4)
            .map(|_| source.next_below(Priority::max()).unwrap().get())
            .collect()
    };
    let stream =
        |replica: u64| XorShift64::new_for_stream(5, ReplicaId::new(replica), LaneId::new(1));
    assert_eq!(draw(stream(1)), draw(stream(1)));
    assert_ne!(draw(stream(1)), draw(stream(2)));
    assert_eq!(mix_seed(0), 0);
    assert_eq!(draw(XorShift64::new(0)), draw(XorShift64::new(1)));
}

#[test]
fn quorums_of_a_joint_epoch_meet_those_around_it() {
    let old = ClusterIdentity::new(ids(&[1, 2, 3]), 1).unwrap();
    let joint = old.begin_joint(ids(&[3, 4, 5]), 1).unwrap();
    let new = joint.finalize_joint().unwrap();
    let pick = |mask: u32| -> Vec<ReplicaId> {
        (0..5)
            .filter(|bit| mask & (1 << bit) != 0)
            .map(|bit| ReplicaId::new(bit + 1))
            .collect()
    };
    for left in 0..32u32 {
        for right in 0..32u32 {
            if joint.has_quorum(&pick(left))
                && (old.has_quorum(&pick(right)) || new.has_quorum(&pick(right)))
            {
                assert_ne!(left & right, 0);
            }
        }
    }
    assert!(new.is_successor_of(&joint));
    assert!(joint.is_successor_of(&old));
    assert!(!new.is_successor_of(&old));
}

#[test]
fn commands_for_different_clusters_have_different_bytes() {
    let stable = ClusterIdentity::new(ids(&[1, 2, 3]), 1).unwrap();
    let bytes = |cluster: ClusterIdentity| {
        MembershipCommand::new(cluster).canonical_bytes().unwrap()
    };
    let a = bytes(stable.begin_joint(ids(&[1, 2, 4]), 1).unwrap());
    let b = bytes(stable.begin_joint(ids(&[1, 2, 4]), 0).unwrap());
    let c = bytes(stable.begin_joint(ids(&[1, 2, 5]), 1).unwrap());
    assert_ne!(a, b);
    assert_ne!(a, c);
    assert_ne!(b, c);
}

#[test]
fn copies_of_bytes_are_equal() {
    assert_eq!(copy_bytes(&[1, 2, 3]), vec![1, 2, 3]);
}

#[test]
fn identical_histories_give_identical_schedules() {
    let mut first = EpochTuner::new(2, ids(&[1, 2, 3]), true);
    let mut second = EpochTuner::new(2, ids(&[1, 2, 3]), true);
    for slot in 1..=40u64 {
        let step = Step::new(4 + 4 * (slot % 5));
        first.note_committed(SlotIndex::new(slot), step).unwrap();
        if slot % 4 == 0 {
            first.ensure_schedule(slot / 2).unwrap();
        }
    }
    for slot in 1..=40u64 {
        let step = Step::new(4 + 4 * (slot % 5));
        second.note_committed(SlotIndex::new(slot), step).unwrap();
    }
    for epoch in 0..=21 {
        assert_eq!(
            first.ensure_schedule(epoch).unwrap(),
            second.ensure_schedule(epoch).unwrap()
        );
    }
    assert_eq!(first.stats_through(), SlotIndex::new(40));
}

#[test]
fn warmup_lets_everyone_lead() {
    let mut tuner = EpochTuner::new(1, ids(&[1, 2, 3]), true);
    let mut leaders = Vec::new();
    for epoch in 0..3u64 {
        let schedule = tuner.ensure_schedule(epoch).unwrap();
        let mut proposers = schedule.proposers.clone();
        proposers.sort();
        assert_eq!(proposers, ids(&[1, 2, 3]));
        leaders.push(schedule.leader());
    }
    leaders.sort();
    assert_eq!(leaders, ids(&[1, 2, 3]));
}

#[test]
fn kept_schedules_do_not_change() {
    let mut tuner = EpochTuner::new(4, ids(&[1, 2, 3]), false);
    let schedule = EpochSchedule::new(2, ids(&[2, 3, 1])).unwrap();
    assert!(tuner.install(schedule.clone()).unwrap());
    assert!(!tuner.install(schedule.clone()).unwrap());
    assert!(tuner
        .install(EpochSchedule::new(2, ids(&[1, 2, 3])).unwrap())
        .is_err());
    assert_eq!(tuner.ensure_schedule(2).unwrap(), schedule);
    assert!(tuner.ensure_schedule(3).is_err());
}

#[test]
fn statistics_follow_the_log_without_gaps() {
    let mut tuner = EpochTuner::new(4, ids(&[1, 2, 3]), true);
    assert!(tuner
        .note_committed(SlotIndex::new(1), Step::new(4))
        .unwrap());
    assert!(!tuner
        .note_committed(SlotIndex::new(1), Step::new(4))
        .unwrap());
    assert_eq!(tuner.stats_through(), SlotIndex::new(1));
    let stats = tuner.stats().get(&0).unwrap();
    assert_eq!(stats.slots, 1);
    assert_eq!(stats.decided_step_total, 4);
}

#[test]
fn tuned_delays_stay_in_bounds() {
    let config = AdaptiveHedgingConfig::new(Span::from_millis(2), Span::from_millis(50))
        .unwrap()
        .with_window(3)
        .unwrap();
    let mut tuner = HedgeDelayTuner::new(Span::from_millis(20), Some(config));
    for millis in [1u64, 500, 3, 80, 7] {
        tuner.observe(Span::from_millis(millis));
        assert!(tuner.current() >= Span::from_millis(2));
        assert!(tuner.current() <= Span::from_millis(50));
    }
    let mut fixed = HedgeDelayTuner::new(Span::from_millis(20), None);
    fixed.observe(Span::from_millis(1));
    assert_eq!(fixed.current(), Span::from_millis(20));
}

fn reply(recorder: u64, cluster: &ClusterIdentity) -> RecordReply<u64> {
    RecordReply {
        recorder: ReplicaId::new(recorder),
        cluster: cluster.clone(),
        summary: RecordSummary {
            step: Step::new(4),
            first: None,
            prior_aggregate: None,
        },
        decision: None,
    }
}

#[test]
fn quorums_count_each_recorder_once() {
    let cluster = ClusterIdentity::new(ids(&[1, 2, 3]), 1).unwrap();
    let mut collector = QuorumCollector::new(3, 2, Some(cluster.clone())).unwrap();
    collector
        .receive(ReplicaId::new(1), Ok(reply(1, &cluster)))
        .unwrap();
    assert!(!collector.is_complete());
    assert_eq!(
        collector
            .receive(ReplicaId::new(1), Ok(reply(1, &cluster)))
            .unwrap_err(),
        QuePaxaError::DuplicateRecorderReply(ReplicaId::new(1))
    );
    let mut collector = QuorumCollector::<u64>::new(3, 2, Some(cluster.clone())).unwrap();
    assert_eq!(
        collector
            .receive(
                ReplicaId::new(2),
                Err(QuePaxaError::SlotPruned {
                    slot: SlotIndex::new(1)
                })
            )
            .unwrap_err(),
        QuePaxaError::SlotPruned {
            slot: SlotIndex::new(1)
        }
    );
    let mut collector = QuorumCollector::<u64>::new(3, 2, None).unwrap();
    let lost = || Err(QuePaxaError::TransportError("lost".to_string()));
    collector.receive(ReplicaId::new(1), lost()).unwrap();
    assert_eq!(
        collector.receive(ReplicaId::new(2), lost()).unwrap_err(),
        QuePaxaError::QuorumNotReached {
            needed: 2,
            received: 0
        }
    );
    assert!(QuorumCollector::<u64>::new(1, 2, None).is_err());
}

#[test]
fn some_quorum_has_the_quorum_size() {
    let sizes = |cluster: &ClusterIdentity| -> Vec<usize> {
        (0..64u32)
            .map(|mask| -> Vec<ReplicaId> {
                (0..6)
                    .filter(|bit| mask & (1 << bit) != 0)
                    .map(|bit| ReplicaId::new(bit + 1))
                    .collect()
            })
            .filter(|voters| cluster.has_quorum(voters))
            .map(|voters| voters.len())
            .collect()
    };
    let stable = ClusterIdentity::new(ids(&[1, 2, 3]), 1).unwrap();
    for (next, size) in [(&[2, 3, 4], 2), (&[3, 4, 5], 3), (&[4, 5, 6], 4)] {
        let joint = stable.begin_joint(ids(next), 1).unwrap();
        assert_eq!(joint.quorum_size(), size);
        assert_eq!(sizes(&joint).into_iter().min(), Some(size));
    }
    assert_eq!(sizes(&stable).into_iter().min(), Some(stable.quorum_size()));
}

#[test]
fn recorder_lists_are_validated() {
    assert_eq!(quorum_size(5).unwrap(), 3);
    assert_eq!(quorum_size(0).unwrap_err(), QuePaxaError::EmptyCluster);
    let members = ids(&[1, 2, 3]);
    assert_eq!(
        validate_recorders(&members, ReplicaId::new(1), None, None).unwrap(),
        2
    );
    assert_eq!(
        validate_recorders(&members, ReplicaId::new(9), None, None).unwrap_err(),
        QuePaxaError::UnknownReplica(ReplicaId::new(9))
    );
    assert!(matches!(
        validate_recorders(&members, ReplicaId::new(1), Some(4), None),
        Err(QuePaxaError::InvalidQuorum { .. })
    ));
    assert!(matches!(
        validate_recorders(&members, ReplicaId::new(1), Some(1), None),
        Err(QuePaxaError::InvalidQuorum { .. })
    ));
    let joint = ClusterIdentity::new(members.clone(), 1)
        .unwrap()
        .begin_joint(ids(&[2, 3, 4]), 1)
        .unwrap();
    let voters = ids(&[1, 2, 3, 4]);
    assert_eq!(
        validate_recorders(&voters, ReplicaId::new(2), Some(2), Some(&joint)).unwrap(),
        2
    );
    for quorum in [None, Some(3)] {
        assert_eq!(
            validate_recorders(&voters, ReplicaId::new(2), quorum, Some(&joint)).unwrap_err(),
            QuePaxaError::InvalidQuorum {
                replicas: 4,
                quorum: 3
            }
        );
    }
    let other = ClusterIdentity::new(ids(&[1, 2, 4]), 1).unwrap();
    assert_eq!(
        validate_recorders(&members, ReplicaId::new(1), None, Some(&other)).unwrap_err(),
        QuePaxaError::ConfigurationMismatch
    );
}

#[test]
fn orders_are_rearrangements() {
    assert_eq!(rotated(&ids(&[1, 2, 3, 4]), 3), ids(&[4, 1, 2, 3]));
    let mut order = ids(&[1, 2, 3]);
    promote(&mut order, ReplicaId::new(3));
    assert_eq!(order, ids(&[3, 1, 2]));
}

#[test]
fn schedules_come_from_policies() {
    let config = ReplicaRuntimeConfig::new(
        ReplicaId::new(1),
        LaneId::new(1),
        ids(&[1, 2, 3]),
        1,
        ReplicaConfig::default(),
        10,
        Span::zero(),
    )
    .unwrap();
    let schedule =
        EpochSchedule::from_policy(&config, 1, &RoundRobinPolicy::new(10), None).unwrap();
    assert_eq!(schedule.proposers, ids(&[2, 3, 1]));
    assert_eq!(schedule.leader(), ReplicaId::new(2));
    assert!(schedule.same_schedule(&schedule.clone()));
    assert!(EpochSchedule::new(0, Vec::new()).is_err());
}

#[test]
fn values_of_a_lost_slot_come_back_in_order() {
    let mut replica = ReplicaCore::new(ReplicaConfig {
        batch_size: 2,
        pipeline_len: 1,
        ..ReplicaConfig::default()
    });
    replica.enqueue(vec![1u64, 2, 3]).unwrap();
    let (slot, values) = replica.next_proposal().unwrap().unwrap();
    assert_eq!(values, vec![1, 2]);
    replica
        .apply_decision(Decision::new(slot, vec![8], ReplicaId::new(2), Step::new(4)).unwrap())
        .unwrap();
    let (_, again) = replica.next_proposal().unwrap().unwrap();
    assert_eq!(again, vec![1, 2]);
}

#[test]
fn collections_are_ordered() {
    let mut map: OrdMap<u64, u64> = OrdMap::new();
    for key in [5u64, 1, 9, 3] {
        map.insert(key, key * 10);
    }
    assert_eq!(
        (0..map.len()).map(|i| *map.key_at(i)).collect::<Vec<_>>(),
        vec![1, 3, 5, 9]
    );
    assert_eq!(map.get(&3), Some(&30));
    assert_eq!(map.remove(&3), Some(30));
    assert_eq!(map.remove(&3), None);
    map.remove_through(&5);
    assert_eq!(map.len(), 1);
    assert!(map.contains_key(&9));

    let mut set: OrdSet<u64> = OrdSet::from_slice(&[4, 2, 4]);
    assert_eq!(set.to_vec(), vec![2, 4]);
    assert!(set.insert(3));
    assert!(!set.insert(3));
    assert!(set.remove(&2));
    assert!(!set.remove(&2));
    assert!(set.is_subset(&OrdSet::from_slice(&[1, 3, 4])));
    assert!(set.same_elements(&OrdSet::from_slice(&[4, 3])));
}

#[test]
fn spans_do_not_wrap() {
    let longest = Span::from_secs(u64::MAX);
    assert_eq!(longest.checked_plus(Span::from_secs(1)), None);
    assert_eq!(longest.checked_mul(2), None);
    assert_eq!(Span::from_millis(3).checked_mul(4), Some(Span::from_millis(12)));
    assert!(longest.saturating_plus(longest) >= longest);
    assert!(Span::zero().is_zero());
    assert_eq!(
        Span::from_millis(7).clamp_between(Span::from_millis(1), Span::from_millis(5)),
        Span::from_millis(5)
    );
}

#[test]
fn replicas_that_commit_alike_schedule_alike() {
    let mut asked = EpochTuner::new(2, ids(&[1, 2, 3]), true);
    let mut silent = EpochTuner::new(2, ids(&[1, 2, 3]), true);
    for slot in 1..=200u64 {
        let step = Step::new(4 + slot % 5);
        let _ = asked.ensure_schedule(slot / 2 + 1);
        let _ = asked.ensure_schedule(slot % 9);
        assert_eq!(
            asked.note_committed(SlotIndex::new(slot), step).unwrap(),
            silent.note_committed(SlotIndex::new(slot), step).unwrap()
        );
    }
    for epoch in 0..120u64 {
        let schedule = asked.ensure_schedule(epoch);
        assert_eq!(schedule, silent.ensure_schedule(epoch));
        assert_eq!(schedule.is_ok(), epoch <= 101);
        if let Ok(schedule) = schedule {
            assert_eq!(schedule.epoch, epoch);
            let mut proposers = schedule.proposers.clone();
            proposers.sort();
            assert_eq!(proposers, ids(&[1, 2, 3]));
        }
    }
    let rotations = [[1, 2, 3], [2, 3, 1], [3, 1, 2]];
    for epoch in 0..7u64 {
        assert_eq!(
            asked.ensure_schedule(epoch).unwrap().proposers,
            ids(&rotations[epoch as usize % 3])
        );
    }
}

#[test]
fn a_given_schedule_is_given_again() {
    let mut tuner = EpochTuner::new(1, ids(&[1, 2, 3]), true);
    for slot in 1..=7u64 {
        tuner.note_committed(SlotIndex::new(slot), Step::new(4 + slot)).unwrap();
    }
    let given = tuner.ensure_schedule(8).unwrap();
    for slot in 8..=72u64 {
        tuner.note_committed(SlotIndex::new(slot), Step::new(4 + slot % 7)).unwrap();
        assert_eq!(tuner.ensure_schedule(8).unwrap(), given);
    }
}

#[test]
fn a_new_membership_starts_at_its_slot() {
    let mut tuner = EpochTuner::new(1, ids(&[1, 2, 3]), true);
    for slot in 1..=10u64 {
        assert!(tuner.note_committed(SlotIndex::new(slot), Step::new(4)).unwrap());
        tuner.ensure_schedule(slot + 1).unwrap();
    }
    tuner.reconfigure(ids(&[4, 5]), SlotIndex::new(10));
    assert!(tuner.note_committed(SlotIndex::new(12), Step::new(4)).is_err());
    assert!(!tuner.note_committed(SlotIndex::new(10), Step::new(4)).unwrap());
    assert!(tuner.note_committed(SlotIndex::new(11), Step::new(4)).unwrap());
    assert!(!tuner.note_committed(SlotIndex::new(11), Step::new(4)).unwrap());
    assert!(tuner.note_committed(SlotIndex::new(12), Step::new(4)).unwrap());
    for epoch in 0..=13u64 {
        let mut proposers = tuner.ensure_schedule(epoch).unwrap().proposers;
        proposers.sort();
        assert_eq!(proposers, ids(&[4, 5]));
    }
}
