use rust_quepaxa::cluster::validate_fault_tolerance;
use rust_quepaxa::types::{best_proposal, max_proposal_by_key};
use rust_quepaxa::{
    ClusterIdentity, Decision, LaneId, MembershipChange, MembershipCommand, Priority, Proposal,
    ProposalKey, QuePaxaError, ReplicaId, SlotIndex, Step,
};

fn ids(list: &[u64]) -> Vec<ReplicaId> {
    list.iter().copied().map(ReplicaId::new).collect()
}

#[test]
fn proposal_key_ties_keep_existing_proposal() {
    let key = ProposalKey::new(Priority::new(5), ReplicaId::new(1), LaneId::new(1));
    let first = Proposal::new(key, vec![1u64]).unwrap();
    let second = Proposal::new(key, vec![2u64]).unwrap();

    let best = best_proposal(Some(first.clone()), second.clone());
    assert_eq!(best.value_ids, vec![1]);

    let folded = max_proposal_by_key(vec![first, second]).unwrap();
    assert_eq!(folded.value_ids, vec![1]);
}

#[test]
fn joint_membership_requires_both_component_quorums() {
    let stable = ClusterIdentity::stable(7, ids(&[1, 2, 3]), 1).unwrap();
    let joint = stable.begin_joint(ids(&[3, 4, 5]), 1).unwrap();

    assert!(joint.is_joint());
    assert_eq!(joint.epoch(), 8);
    assert_eq!(joint.members(), ids(&[1, 2, 3, 4, 5]).as_slice());
    assert!(!joint.has_quorum(&[ReplicaId::new(1), ReplicaId::new(2)]));
    assert!(!joint.has_quorum(&[ReplicaId::new(1), ReplicaId::new(2), ReplicaId::new(3)]));
    assert!(joint.has_quorum(&[ReplicaId::new(1), ReplicaId::new(3), ReplicaId::new(4)]));

    let finalized = joint.finalize_joint().unwrap();
    assert!(!finalized.is_joint());
    assert_eq!(finalized.epoch(), 9);
    assert_eq!(
        finalized.members(),
        &[ReplicaId::new(3), ReplicaId::new(4), ReplicaId::new(5)]
    );
    assert!(finalized.is_successor_of(&joint));
}

#[test]
fn all_valid_stable_quorums_intersect_through_nine_voters() {
    for replica_count in 1_u32..=9 {
        for max_faults in 0..replica_count.div_ceil(2) {
            if validate_fault_tolerance(replica_count as usize, max_faults as usize).is_err() {
                continue;
            }
            let quorum_size = replica_count - max_faults;
            let quorums = (0_u16..(1_u16 << replica_count))
                .filter(|mask| mask.count_ones() >= quorum_size)
                .collect::<Vec<_>>();
            for left in &quorums {
                for right in &quorums {
                    assert_ne!(left & right, 0);
                }
            }
        }
    }
}

#[test]
fn membership_change_names_a_value_in_the_anchor() {
    let anchor = Decision::new(
        SlotIndex::new(1),
        vec![10_u64],
        ReplicaId::new(1),
        Step::round_one_phase_zero(),
    )
    .unwrap();
    let next = ClusterIdentity::new(ids(&[1]), 0)
        .unwrap()
        .begin_joint(ids(&[1]), 0)
        .unwrap();
    assert!(MembershipChange::new(anchor.clone(), next.clone(), 11).is_err());
    assert!(MembershipChange::new(anchor, next, 10).is_ok());
}

#[test]
fn canonical_membership_command_binds_its_configuration_digest() {
    let stable = ClusterIdentity::new(ids(&[1, 2, 3]), 1).unwrap();
    let first = MembershipCommand::new(stable.begin_joint(ids(&[1, 4, 5]), 1).unwrap());
    let second = MembershipCommand::new(stable.begin_joint(ids(&[1, 4, 6]), 1).unwrap());
    assert_ne!(first.sha256_id().unwrap(), second.sha256_id().unwrap());
    let command_id = first.sha256_id().unwrap();
    let anchor = Decision::new(
        SlotIndex::new(1),
        vec![command_id],
        ReplicaId::new(1),
        Step::round_one_phase_zero(),
    )
    .unwrap();
    let change = first.bind(anchor).unwrap();
    assert_eq!(change.command_id, command_id);
}

#[test]
fn a_command_is_only_bound_to_its_own_digest() {
    let stable = ClusterIdentity::new(ids(&[1, 2, 3]), 1).unwrap();
    let command = MembershipCommand::new(stable.begin_joint(ids(&[1, 4, 5]), 1).unwrap());
    let anchor = Decision::new(
        SlotIndex::new(1),
        vec![[7u8; 32]],
        ReplicaId::new(1),
        Step::round_one_phase_zero(),
    )
    .unwrap();
    assert!(matches!(
        command.bind(anchor),
        Err(QuePaxaError::InvalidReconfiguration(_))
    ));
}

#[test]
fn a_command_digest_is_the_hash_of_its_bytes() {
    use_digest(ids(&[1, 2, 3]), ids(&[1, 4, 5]));
    use_digest(ids(&[9]), ids(&[9]));
}

fn use_digest(members: Vec<ReplicaId>, next: Vec<ReplicaId>) {
    let stable = ClusterIdentity::new(members, 0).unwrap();
    let command = MembershipCommand::new(stable.begin_joint(next, 0).unwrap());
    let bytes = command.canonical_bytes().unwrap();
    let expected: [u8; 32] = <sha2::Sha256 as sha2::Digest>::digest(&bytes).into();
    assert_eq!(command.sha256_id().unwrap(), expected);
}

#[test]
fn steps_are_made_of_rounds_and_phases() {
    assert_eq!(Step::initial(), Step::new(0));
    assert_eq!(Step::round_one_phase_zero(), Step::new(4));
    assert_eq!(Step::checked_from_round_phase(1, 0), Some(Step::new(4)));
    assert_eq!(Step::checked_from_round_phase(2, 3), Some(Step::new(11)));
    assert_eq!(Step::checked_from_round_phase(u64::MAX, 0), None);
    assert_eq!(Step::new(11).phase(), 3);
    assert!(Step::new(5).is_next_after(Step::new(4)));
    assert!(!Step::new(6).is_next_after(Step::new(4)));
    assert_eq!(SlotIndex::genesis(), SlotIndex::new(0));
    assert_eq!(SlotIndex::default(), SlotIndex::genesis());
    assert!(Priority::max().is_leader_priority());
    assert!(!Priority::min().is_leader_priority());
    assert_eq!(ReplicaId::from(4), ReplicaId::new(4));
    assert_eq!(LaneId::from(4).get(), 4);
}

#[test]
fn empty_proposals_and_decisions_are_refused() {
    let key = ProposalKey::new(Priority::new(5), ReplicaId::new(1), LaneId::new(1));
    assert_eq!(
        Proposal::<u64>::new(key, Vec::new()).unwrap_err(),
        QuePaxaError::EmptyProposal
    );
    assert_eq!(
        Decision::<u64>::new(
            SlotIndex::new(1),
            Vec::new(),
            ReplicaId::new(1),
            Step::new(4)
        )
        .unwrap_err(),
        QuePaxaError::EmptyDecision
    );
}

#[test]
fn clusters_are_validated() {
    assert_eq!(
        ClusterIdentity::new(Vec::new(), 0).unwrap_err(),
        QuePaxaError::EmptyCluster
    );
    assert_eq!(
        ClusterIdentity::new(ids(&[3, 3]), 0).unwrap_err(),
        QuePaxaError::DuplicateReplica(ReplicaId::new(3))
    );
    assert_eq!(
        ClusterIdentity::new(ids(&[1, 2, 3]), 2).unwrap_err(),
        QuePaxaError::InvalidProposal(
            "3 replicas cannot tolerate 2 crash faults; require at least 5".to_string()
        )
    );
    assert_eq!(
        validate_fault_tolerance(3, usize::MAX).unwrap_err(),
        QuePaxaError::InvalidProposal("fault tolerance is too large".to_string())
    );
    let sorted = ClusterIdentity::new(ids(&[3, 1, 2]), 1).unwrap();
    assert_eq!(sorted.members(), ids(&[1, 2, 3]).as_slice());
    assert_eq!(sorted.quorum_size(), 2);
    assert_eq!(sorted.max_faults(), 1);
    assert!(sorted.contains(ReplicaId::new(2)));
    assert!(!sorted.contains(ReplicaId::new(4)));
}

#[test]
fn membership_epochs_do_not_wrap() {
    let last = ClusterIdentity::stable(u64::MAX, ids(&[1]), 0).unwrap();
    assert_eq!(
        last.begin_joint(ids(&[1]), 0).unwrap_err(),
        QuePaxaError::ConfigurationEpochOverflow
    );
    let stable = ClusterIdentity::stable(1, ids(&[1]), 0).unwrap();
    assert!(matches!(
        stable.finalize_joint(),
        Err(QuePaxaError::InvalidReconfiguration(_))
    ));
    let joint = stable.begin_joint(ids(&[2]), 0).unwrap();
    assert!(matches!(
        joint.begin_joint(ids(&[3]), 0),
        Err(QuePaxaError::InvalidReconfiguration(_))
    ));
    assert!(joint.is_successor_of(&stable));
    assert!(!stable.is_successor_of(&joint));
}

#[test]
fn errors_describe_themselves() {
    let replica = ReplicaId::new(7);
    let slot = SlotIndex::new(12);
    let described: Vec<(QuePaxaError, &str)> = vec![
        (
            QuePaxaError::EmptyCluster,
            "cluster must contain at least one replica",
        ),
        (
            QuePaxaError::EmptyProposal,
            "proposal must contain at least one value id",
        ),
        (
            QuePaxaError::EmptyDecision,
            "decision must contain at least one value id",
        ),
        (
            QuePaxaError::MissingProposal,
            "recorder reply did not contain a proposal",
        ),
        (
            QuePaxaError::MissingValue,
            "required value is missing from the value store",
        ),
        (
            QuePaxaError::DuplicateReplica(replica),
            "duplicate replica id 7",
        ),
        (QuePaxaError::UnknownReplica(replica), "unknown replica id 7"),
        (
            QuePaxaError::InvalidSender(replica),
            "replica id 7 is not an authorized sender",
        ),
        (
            QuePaxaError::InvalidRecorderReply {
                expected: replica,
                received: ReplicaId::new(8),
            },
            "recorder reply identity mismatch: expected 7, received 8",
        ),
        (
            QuePaxaError::DuplicateRecorderReply(replica),
            "duplicate reply from recorder 7",
        ),
        (
            QuePaxaError::InvalidQuorum {
                replicas: 3,
                quorum: 4,
            },
            "invalid quorum 4 for 3 replicas",
        ),
        (
            QuePaxaError::QuorumNotReached {
                needed: 3,
                received: 1,
            },
            "quorum not reached: needed 3, received 1",
        ),
        (
            QuePaxaError::InvalidStep { step: 9, limit: 5 },
            "logical step 9 is outside the accepted range through 5",
        ),
        (
            QuePaxaError::StepOverflow,
            "logical step counter overflowed",
        ),
        (QuePaxaError::SlotOverflow, "slot index overflowed"),
        (
            QuePaxaError::ResourceLimit {
                resource: "decisions",
                limit: 10,
            },
            "decisions exceeds its configured limit of 10",
        ),
        (QuePaxaError::InvalidProposal("a".to_string()), "a"),
        (QuePaxaError::TransportError("b".to_string()), "b"),
        (QuePaxaError::StorageError("c".to_string()), "c"),
        (
            QuePaxaError::ConfigurationMismatch,
            "replica configuration does not match the local cluster identity",
        ),
        (
            QuePaxaError::ConfigurationEpochOverflow,
            "membership configuration epoch overflowed",
        ),
        (QuePaxaError::InvalidReconfiguration("d".to_string()), "d"),
        (
            QuePaxaError::ConflictingDecision { slot },
            "conflicting decision for slot 12",
        ),
        (
            QuePaxaError::ScheduleMismatch { slot },
            "round-one leader schedule mismatch for slot 12",
        ),
        (
            QuePaxaError::SlotAlreadyDecided { slot },
            "slot 12 is already decided",
        ),
        (
            QuePaxaError::SlotPruned { slot },
            "slot 12 was pruned after checkpointing; state transfer is required",
        ),
        (
            QuePaxaError::StepLimitExceeded { limit: 40 },
            "proposer exceeded the configured step limit 40",
        ),
        (QuePaxaError::PolicyError("e".to_string()), "e"),
    ];
    for (refusal, text) in described {
        assert_eq!(refusal.message(), text);
    }
}
