use rust_quepaxa::{
    IntervalSummaryRegister, LaneId, Priority, Proposal, ProposalKey, ReplicaId, Step,
};

fn proposal(priority: u64, value: u64) -> Proposal<u64> {
    Proposal::new(
        ProposalKey::new(
            Priority::new(priority),
            ReplicaId::new(priority),
            LaneId::new(1),
        ),
        vec![value],
    )
    .unwrap()
}

#[test]
fn same_step_keeps_first_and_aggregates_best() {
    let mut isr = IntervalSummaryRegister::new();

    let first = isr.record(Step::new(4), proposal(3, 30));
    let second = isr.record(Step::new(4), proposal(7, 70));

    assert_eq!(first.first.unwrap().value_ids, vec![30]);
    assert_eq!(second.first.unwrap().value_ids, vec![30]);
    assert_eq!(second.step, Step::new(4));
}

#[test]
fn step_advance_exposes_prior_aggregate() {
    let mut isr = IntervalSummaryRegister::new();
    isr.record(Step::new(4), proposal(3, 30));
    isr.record(Step::new(4), proposal(7, 70));

    let reply = isr.record(Step::new(5), proposal(2, 20));

    assert_eq!(reply.step, Step::new(5));
    assert_eq!(reply.first.unwrap().value_ids, vec![20]);
    assert_eq!(reply.prior_aggregate.unwrap().value_ids, vec![70]);
}

#[test]
fn skipped_step_resets_prior_aggregate() {
    let mut isr = IntervalSummaryRegister::new();
    isr.record(Step::new(4), proposal(3, 30));

    let reply = isr.record(Step::new(6), proposal(2, 20));

    assert_eq!(reply.step, Step::new(6));
    assert!(reply.prior_aggregate.is_none());
}

#[test]
fn stale_step_does_not_change_state() {
    let mut isr = IntervalSummaryRegister::new();
    isr.record(Step::new(5), proposal(5, 50));

    let reply = isr.record(Step::new(4), proposal(9, 90));

    assert_eq!(reply.step, Step::new(5));
    assert_eq!(reply.first.unwrap().value_ids, vec![50]);
}

#[test]
fn a_register_resumes_from_its_snapshot() {
    let mut isr = IntervalSummaryRegister::new();
    isr.record(Step::new(4), proposal(3, 30));
    isr.record(Step::new(4), proposal(7, 70));

    let mut resumed = IntervalSummaryRegister::restore(isr.snapshot());
    assert_eq!(resumed.step(), Step::new(4));
    assert_eq!(resumed.snapshot(), isr.snapshot());

    let reply = resumed.record(Step::new(5), proposal(2, 20));
    assert_eq!(reply.prior_aggregate.unwrap().value_ids, vec![70]);
    assert_eq!(isr.step(), Step::new(4));
}

#[test]
fn a_fresh_register_is_empty() {
    let register: IntervalSummaryRegister<u64> = IntervalSummaryRegister::default();
    assert_eq!(register.step(), Step::initial());
    assert!(register.snapshot().first.is_none());
    assert!(register.snapshot().current_aggregate.is_none());
    assert!(register.snapshot().prior_aggregate.is_none());
}
