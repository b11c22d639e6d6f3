use rust_quepaxa::{
    Decision, LaneId, Priority, ProposalRun, ProposerConfig, ProposerCore, QuePaxaError,
    RecordReply, RecordRequest, RecorderCore, ReplicaId, SlotIndex, XorShift64,
};

const MAX_EVENTS: usize = 10_000;

struct Delivery {
    proposer: usize,
    recorder: usize,
    generation: u64,
    request: RecordRequest<u64>,
}

struct SimulatedProposer {
    id: ReplicaId,
    run: ProposalRun<u64>,
    generation: u64,
    replies: Vec<RecordReply<u64>>,
    decision: Option<Decision<u64>>,
    halted: bool,
    seed: u64,
}

impl SimulatedProposer {
    fn new(id: u64, leader: u64, value: u64, seed: u64, members: &[ReplicaId]) -> Self {
        let id = ReplicaId::new(id);
        let proposer = ProposerCore::with_rng(id, LaneId::new(1), XorShift64::new(seed))
            .with_config(ProposerConfig {
                max_steps: 128,
                ..ProposerConfig::default()
            });
        Self {
            id,
            run: proposer
                .begin(
                    SlotIndex::new(1),
                    vec![value],
                    Some(ReplicaId::new(leader)),
                    members,
                    &[],
                )
                .unwrap(),
            generation: 0,
            replies: Vec::new(),
            decision: None,
            halted: false,
            seed,
        }
    }

    fn start_round(&mut self, proposer: usize, recorder_count: usize) -> Vec<Delivery> {
        if self.decision.is_some() || self.halted {
            return Vec::new();
        }
        self.generation += 1;
        self.replies.clear();
        (0..recorder_count)
            .map(|recorder| Delivery {
                proposer,
                recorder,
                generation: self.generation,
                request: self.run.request_for(self.priority_for(recorder)),
            })
            .collect()
    }

    fn priority_for(&self, recorder: usize) -> Priority {
        let mixed = mix(self.seed
            ^ self.id.get().wrapping_mul(0x9e37_79b9_7f4a_7c15)
            ^ self.run.step().get().wrapping_mul(0xbf58_476d_1ce4_e5b9)
            ^ recorder as u64);
        Priority::new(mixed % (Priority::max().get() - 1) + 1)
    }

    fn receive(
        &mut self,
        generation: u64,
        result: Result<RecordReply<u64>, QuePaxaError>,
        proposer: usize,
        recorder_count: usize,
    ) -> Vec<Delivery> {
        if generation != self.generation || self.decision.is_some() || self.halted {
            return Vec::new();
        }
        match result {
            Ok(reply) => self.replies.push(reply),
            Err(QuePaxaError::ScheduleMismatch { .. })
            | Err(QuePaxaError::ConflictingDecision { .. })
            | Err(QuePaxaError::SlotPruned { .. }) => {
                self.halted = true;
                return Vec::new();
            }
            Err(_) => return Vec::new(),
        }
        if self.replies.len() < self.run.quorum() {
            return Vec::new();
        }
        self.decision = self.run.conclude(&self.replies).unwrap();
        if self.run.step().get() > self.run.max_steps() {
            self.halted = true;
        }
        self.start_round(proposer, recorder_count)
    }
}

fn run(seed: u64, leaders: [u64; 2]) -> [Option<Decision<u64>>; 2] {
    let members = (1..=3).map(ReplicaId::new).collect::<Vec<_>>();
    let mut recorders = members
        .iter()
        .map(|id| RecorderCore::permissive_for_tests(*id, members.clone()).unwrap())
        .collect::<Vec<RecorderCore<u64>>>();
    let mut proposers = [
        SimulatedProposer::new(1, leaders[0], 10, seed, &members),
        SimulatedProposer::new(2, leaders[1], 20, seed ^ 0xa5a5_a5a5_a5a5_a5a5, &members),
    ];
    let mut events = Vec::new();
    for (index, proposer) in proposers.iter_mut().enumerate() {
        events.extend(proposer.start_round(index, recorders.len()));
    }
    let mut random = seed.max(1);
    for _ in 0..MAX_EVENTS {
        if events.is_empty()
            || proposers
                .iter()
                .all(|proposer| proposer.decision.is_some() || proposer.halted)
        {
            break;
        }
        random = mix(random);
        let event = events.swap_remove(random as usize % events.len());
        let result = recorders[event.recorder].record(event.request);
        let next = proposers[event.proposer].receive(
            event.generation,
            result,
            event.proposer,
            recorders.len(),
        );
        events.extend(next);
    }
    [proposers[0].decision.clone(), proposers[1].decision.clone()]
}

fn mix(mut value: u64) -> u64 {
    value ^= value >> 30;
    value = value.wrapping_mul(0xbf58_476d_1ce4_e5b9);
    value ^= value >> 27;
    value = value.wrapping_mul(0x94d0_49bb_1331_11eb);
    value ^ (value >> 31)
}

#[test]
fn randomized_record_call_interleavings_preserve_agreement() {
    for seed in 1..=10_000 {
        let leader = seed % 2 + 1;
        let decisions = run(seed, [leader, leader]);
        let first = decisions[0]
            .as_ref()
            .unwrap_or_else(|| panic!("first proposer did not decide for seed {seed}"));
        let second = decisions[1]
            .as_ref()
            .unwrap_or_else(|| panic!("second proposer did not decide for seed {seed}"));
        assert_eq!(first.value_ids, second.value_ids, "seed {seed}");
    }
}

#[test]
fn divergent_leader_schedules_cannot_produce_conflicting_decisions() {
    for seed in 1..=2_000 {
        let decisions = run(seed, [1, 2]);
        if let [Some(first), Some(second)] = &decisions {
            assert_eq!(first.value_ids, second.value_ids, "seed {seed}");
        }
    }
}
