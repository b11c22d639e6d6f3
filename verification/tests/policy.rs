use rust_quepaxa::{
    AdaptivePolicy, FixedLeaderPolicy, HedgingPolicy, LastWinnerPolicy, LeaderlessPolicy,
    QuePaxaError, ReplicaId, RoundRobinPolicy, SlotIndex, Span,
};

fn replicas() -> Vec<ReplicaId> {
    (1..=5).map(ReplicaId::new).collect()
}

#[test]
fn fixed_policy_preserves_order() {
    let policy = FixedLeaderPolicy;
    assert_eq!(
        policy
            .leader_sequence(SlotIndex::new(10), &replicas(), None)
            .unwrap(),
        replicas()
    );
}

#[test]
fn round_robin_policy_rotates_by_epoch() {
    let policy = RoundRobinPolicy::new(10);
    assert_eq!(
        policy
            .leader_sequence(SlotIndex::new(20), &replicas(), None)
            .unwrap()[0],
        ReplicaId::new(3)
    );
}

#[test]
fn leaderless_policy_has_zero_delay_for_every_replica() {
    let policy = LeaderlessPolicy;
    let sequence = policy
        .leader_sequence(SlotIndex::new(1), &replicas(), None)
        .unwrap();

    assert_eq!(
        policy
            .delay_for(ReplicaId::new(4), &sequence, Span::from_millis(10))
            .unwrap(),
        Span::zero()
    );
}

#[test]
fn last_winner_policy_starts_with_previous_winner() {
    let policy = LastWinnerPolicy;
    assert_eq!(
        policy
            .leader_sequence(SlotIndex::new(9), &replicas(), Some(ReplicaId::new(4)))
            .unwrap()[0],
        ReplicaId::new(4)
    );
}

#[test]
fn adaptive_policy_explores_then_ranks_by_average_duration() {
    let mut policy = AdaptivePolicy::new(10);
    policy.record_epoch(ReplicaId::new(3), Span::from_millis(5));
    policy.record_epoch(ReplicaId::new(1), Span::from_millis(20));
    policy.record_epoch(ReplicaId::new(2), Span::from_millis(10));

    assert_eq!(
        policy
            .leader_sequence(SlotIndex::new(10), &replicas(), None)
            .unwrap()[0],
        ReplicaId::new(2)
    );
    assert_eq!(
        policy
            .leader_sequence(SlotIndex::new(200), &replicas(), None)
            .unwrap()[0],
        ReplicaId::new(3)
    );
}

#[test]
fn adaptive_policy_periodically_reexplores_a_non_leader() {
    let mut policy = AdaptivePolicy::new(10).with_reexploration_interval(4);
    for replica in replicas() {
        policy.record_epoch(replica, Span::from_millis(replica.get() * 10));
    }
    let warmup_epochs = 2 * replicas().len() as u64 + 1;

    assert_eq!(
        policy
            .leader_sequence(SlotIndex::new((warmup_epochs + 4) * 10), &replicas(), None)
            .unwrap()[0],
        ReplicaId::new(2)
    );
}

#[test]
fn adaptive_policy_ages_out_stale_latency_samples() {
    let mut policy = AdaptivePolicy::new(1).with_sample_window(2);
    policy.record_epoch(ReplicaId::new(1), Span::from_secs(10));
    policy.record_epoch(ReplicaId::new(1), Span::from_millis(2));
    policy.record_epoch(ReplicaId::new(1), Span::from_millis(2));
    policy.record_epoch(ReplicaId::new(2), Span::from_millis(3));

    assert_eq!(
        policy
            .leader_sequence(SlotIndex::new(100), &replicas(), None)
            .unwrap()[0],
        ReplicaId::new(1)
    );
}

#[test]
fn staggered_delays_follow_the_sequence() {
    let policy = FixedLeaderPolicy;
    let sequence = replicas();
    for place in 0..5u64 {
        assert_eq!(
            policy
                .delay_for(ReplicaId::new(place + 1), &sequence, Span::from_millis(7))
                .unwrap(),
            Span::from_millis(7 * place)
        );
    }
    assert_eq!(
        policy
            .delay_for(ReplicaId::new(9), &sequence, Span::from_millis(7))
            .unwrap_err(),
        QuePaxaError::UnknownReplica(ReplicaId::new(9))
    );
}

#[test]
fn policies_refuse_lists_that_are_no_clusters() {
    assert_eq!(
        FixedLeaderPolicy
            .leader_sequence(SlotIndex::new(1), &[], None)
            .unwrap_err(),
        QuePaxaError::EmptyCluster
    );
    assert_eq!(
        FixedLeaderPolicy
            .leader_sequence(
                SlotIndex::new(1),
                &[ReplicaId::new(2), ReplicaId::new(2)],
                None
            )
            .unwrap_err(),
        QuePaxaError::DuplicateReplica(ReplicaId::new(2))
    );
}

#[test]
fn a_winner_from_elsewhere_is_refused() {
    assert_eq!(
        LastWinnerPolicy
            .leader_sequence(SlotIndex::new(1), &replicas(), Some(ReplicaId::new(77)))
            .unwrap_err(),
        QuePaxaError::UnknownReplica(ReplicaId::new(77))
    );
    assert_eq!(
        LastWinnerPolicy
            .leader_sequence(SlotIndex::new(1), &replicas(), None)
            .unwrap(),
        replicas()
    );
    assert_eq!(
        LastWinnerPolicy
            .leader_sequence(SlotIndex::new(1), &replicas(), Some(ReplicaId::new(4)))
            .unwrap(),
        vec![
            ReplicaId::new(4),
            ReplicaId::new(5),
            ReplicaId::new(1),
            ReplicaId::new(2),
            ReplicaId::new(3)
        ]
    );
}
