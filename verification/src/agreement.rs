//! Agreement: whatever the network does to the messages of one slot, all
//! decisions on the slot are for the same values.

use crate::cluster;
use crate::cluster::{ClusterView, RecordReplyView};
use crate::error::ErrorView;
use crate::proposer;
use crate::proposer::{RoundEnd, RunView};
use crate::quorum;
use crate::recorder::RecorderView;
use crate::register_log;
use crate::types;
use crate::types::{DecisionView, Priority, ProposalView, RecordRequestView, ReplicaId, SlotIndex};
use vstd::prelude::*;

verus! {

/// All that has happened to one slot under one membership. Nothing is ever
/// taken back: messages may be late, doubled or lost, and a run may be taken up
/// again from any of its earlier states.
#[verifier::ext_equal]
#[verifier::reject_recursive_types(V)]
pub struct SlotHistory<V> {
    pub cluster: ClusterView,
    /// The recorders whose majorities decide, unless it is the membership that
    /// says what a quorum is.
    pub electors: Option<Set<ReplicaId>>,
    pub slot: SlotIndex,
    pub recorders: Map<ReplicaId, RecorderView<V>>,
    /// The requests for the slot that each recorder has recorded, in order.
    pub logs: Map<ReplicaId, Seq<RecordRequestView<V>>>,
    /// The values that runs began with.
    pub proposed: Set<Seq<V>>,
    pub runs: Set<RunView<V>>,
    pub sent: Set<RecordRequestView<V>>,
    pub answers: Set<(RecordRequestView<V>, RecordReplyView<V>)>,
    pub decided: Set<DecisionView<V>>,
}

/// Who made a proposal, and for which values.
pub open spec fn authored<V>(proposal: ProposalView<V>) -> (ReplicaId, Seq<V>) {
    (proposal.key.proposer_id, proposal.value_ids)
}

/// Whose proposal a decision is for, and which values.
pub open spec fn credited<V>(decision: DecisionView<V>) -> (ReplicaId, Seq<V>) {
    (decision.proposer, decision.value_ids)
}

/// One thing that can happen.
pub enum Event<V> {
    /// A proposer begins a run.
    Begin(RunView<V>),
    /// A run sends a request, with a priority that it has drawn.
    Send(RunView<V>, Priority),
    /// A request reaches a recorder, whose values are or are not available.
    Deliver(ReplicaId, RecordRequestView<V>, std::result::Result<(), ErrorView>),
    /// A run ends a round with a quorum of replies.
    Conclude(RunView<V>, Seq<RecordReplyView<V>>),
    /// A recorder is told of decisions.
    Inform(ReplicaId, Seq<DecisionView<V>>),
    /// A recorder drops state through a slot.
    Prune(ReplicaId, SlotIndex),
}

/// What proposers promise of the keys of one slot's proposals: a key identifies
/// its values, and a replica uses the reserved priority on one lane.
pub open spec fn unambiguous<V>(sent: Set<RecordRequestView<V>>) -> bool {
    forall|a: RecordRequestView<V>, b: RecordRequestView<V>|
        #![trigger sent.contains(a), sent.contains(b)]
        sent.contains(a) && sent.contains(b) ==> {
            &&& a.proposal.key == b.proposal.key ==> a.proposal.value_ids == b.proposal.value_ids
            &&& a.proposal.key.priority.0 == u64::MAX && b.proposal.key.priority.0 == u64::MAX
                && a.proposal.key.proposer_id == b.proposal.key.proposer_id
                ==> a.proposal.key.lane_id == b.proposal.key.lane_id
        }
}

impl<V> SlotHistory<V> {
    /// Nothing has happened yet.
    pub open spec fn initial(self) -> bool {
        &&& self.cluster.valid()
        &&& self.electors matches Some(electors) ==> electors.finite()
        &&& self.logs.dom() == self.recorders.dom()
        &&& forall|id: ReplicaId| #[trigger]
            self.recorders.dom().contains(id) ==> {
                let recorder = self.recorders[id];
                &&& recorder.id == id
                &&& recorder.state.cluster == self.cluster
                &&& !recorder.state.slots.dom().contains(self.slot)
                &&& !recorder.state.round_one_leaders.dom().contains(self.slot)
                &&& !recorder.state.decisions.dom().contains(self.slot)
                &&& self.logs[id] == Seq::<RecordRequestView<V>>::empty()
            }
        &&& self.proposed == Set::<Seq<V>>::empty()
        &&& self.runs == Set::<RunView<V>>::empty()
        &&& self.sent == Set::<RecordRequestView<V>>::empty()
        &&& self.answers == Set::<(RecordRequestView<V>, RecordReplyView<V>)>::empty()
        &&& self.decided == Set::<DecisionView<V>>::empty()
    }

    /// Whether voters can decide.
    pub open spec fn is_quorum(self, voters: Set<ReplicaId>) -> bool {
        match self.electors {
            Some(electors) => voters.subset_of(electors) && 2 * voters.len() > electors.len(),
            None => self.cluster.has_quorum(voters),
        }
    }

    /// Whether decisions are ones that were made, as far as they are on the slot.
    pub open spec fn made(self, decisions: Seq<DecisionView<V>>) -> bool {
        forall|i: int|
            0 <= i < decisions.len() && decisions[i].slot == self.slot ==> self.decided.contains(
                #[trigger] decisions[i],
            )
    }

    /// Whether a reply answers one of a run's current requests.
    pub open spec fn answered(self, run: RunView<V>, reply: RecordReplyView<V>) -> bool {
        exists|request: RecordRequestView<V>|
            run.asks(request) && #[trigger] self.answers.contains((request, reply))
    }

    /// Whether an event can happen, as long as proposers keep their promise on
    /// keys.
    pub open spec fn possible(self, event: Event<V>) -> bool {
        &&& self.feasible(event)
        &&& match event {
            Event::Send(run, drawn) => unambiguous(self.sent.insert(run.request(drawn))),
            _ => true,
        }
    }

    /// Whether an event can happen, whatever keys proposers use.
    pub open spec fn feasible(self, event: Event<V>) -> bool {
        match event {
            Event::Begin(run) => {
                &&& run == proposer::fresh_run(
                    self.slot,
                    run.sender,
                    run.proposal.key.lane_id,
                    run.leader,
                    run.recorders,
                    run.quorum,
                    run.max_steps,
                    run.proposal.value_ids,
                    run.known_decisions,
                )
                &&& self.made(run.known_decisions)
            },
            Event::Send(run, drawn) => {
                &&& self.runs.contains(run)
                &&& drawn.0 < u64::MAX
            },
            Event::Deliver(id, request, _) => {
                &&& self.recorders.dom().contains(id)
                &&& request.slot == self.slot ==> self.sent.contains(request)
                &&& self.made(request.known_decisions)
            },
            Event::Conclude(run, replies) => {
                &&& self.runs.contains(run)
                &&& self.is_quorum(quorum::senders(replies).to_set())
                &&& forall|i: int|
                    0 <= i < replies.len() ==> self.answered(run, #[trigger] replies[i])
            },
            Event::Inform(id, decisions) => {
                &&& self.recorders.dom().contains(id)
                &&& self.made(decisions)
            },
            Event::Prune(id, _) => self.recorders.dom().contains(id),
        }
    }

    /// What an event leads to.
    pub open spec fn after(self, event: Event<V>) -> Self {
        match event {
            Event::Begin(run) => SlotHistory {
                proposed: self.proposed.insert(run.proposal.value_ids),
                runs: self.runs.insert(run),
                ..self
            },
            Event::Send(run, drawn) => SlotHistory {
                sent: self.sent.insert(run.request(drawn)),
                ..self
            },
            Event::Deliver(id, request, available) => {
                let (recorder, result) = self.recorders[id].record(request, available);
                let heard = SlotHistory { recorders: self.recorders.insert(id, recorder), ..self };
                if request.slot == self.slot && result is Ok {
                    SlotHistory {
                        logs: self.logs.insert(id, self.logs[id].push(request)),
                        answers: self.answers.insert((request, result->Ok_0)),
                        ..heard
                    }
                } else {
                    heard
                }
            },
            Event::Conclude(run, replies) => match run.conclude(replies) {
                RoundEnd::Decided(decision) => SlotHistory {
                    decided: self.decided.insert(decision),
                    ..self
                },
                RoundEnd::Continue(step, proposal) => SlotHistory {
                    runs: self.runs.insert(run.continued(step, proposal)),
                    ..self
                },
                RoundEnd::Refused(_) => self,
            },
            Event::Inform(id, decisions) => SlotHistory {
                recorders: self.recorders.insert(id, self.recorders[id].inform_all(decisions).0),
                ..self
            },
            Event::Prune(id, through) => SlotHistory {
                recorders: self.recorders.insert(id, self.recorders[id].prune_through(through)),
                ..self
            },
        }
    }

    /// The history after events in order.
    pub open spec fn after_all(self, events: Seq<Event<V>>) -> Self
        decreases events.len(),
    {
        if events.len() == 0 {
            self
        } else {
            self.after_all(events.drop_last()).after(events.last())
        }
    }

    /// Whether events can happen one after the other.
    pub open spec fn all_possible(self, events: Seq<Event<V>>) -> bool
        decreases events.len(),
    {
        events.len() == 0 || (self.all_possible(events.drop_last()) && self.after_all(
            events.drop_last(),
        ).possible(events.last()))
    }

    /// Whether events can happen one after the other, whatever keys proposers
    /// use.
    pub open spec fn all_feasible(self, events: Seq<Event<V>>) -> bool
        decreases events.len(),
    {
        events.len() == 0 || (self.all_feasible(events.drop_last()) && self.after_all(
            events.drop_last(),
        ).feasible(events.last()))
    }

    /// A quorum of recorders.
    spec fn backed(self, voters: Set<ReplicaId>) -> bool {
        &&& self.is_quorum(voters)
        &&& forall|id: ReplicaId| #[trigger] voters.contains(id) ==> self.logs.dom().contains(id)
    }

    /// A quorum recorded first proposals at the step before, the best of which
    /// is this one.
    spec fn best_first(
        self,
        voters: Set<ReplicaId>,
        step: int,
        proposal: ProposalView<V>,
        leader: Option<ReplicaId>,
    ) -> bool {
        &&& self.backed(voters)
        &&& forall|id: ReplicaId| #[trigger]
            voters.contains(id) ==> {
                &&& register_log::first_at(self.logs[id], step - 1) is Some
                &&& register_log::at_most(
                    register_log::first_at(self.logs[id], step - 1)->0.key,
                    proposal.key,
                )
                &&& led(self.logs[id], leader)
            }
        &&& exists|id: ReplicaId|
            voters.contains(id) && #[trigger] register_log::first_at(self.logs[id], step - 1)
                == Some(proposal)
    }

    /// A quorum took the proposal in at the step before.
    spec fn spread(self, voters: Set<ReplicaId>, step: int, proposal: ProposalView<V>) -> bool {
        &&& self.backed(voters)
        &&& forall|id: ReplicaId| #[trigger]
            voters.contains(id) ==> register_log::accepts(self.logs[id], step - 1, proposal)
    }

    /// A quorum has left the step two before, and nothing that it took in there
    /// beats the base, which is one of those unless there are none.
    spec fn best_spread(self, voters: Set<ReplicaId>, step: int, base: ProposalView<V>) -> bool {
        &&& self.backed(voters)
        &&& forall|id: ReplicaId| #[trigger]
            voters.contains(id) ==> {
                &&& register_log::register_of(self.logs[id]).step.0 > step - 2
                &&& register_log::bounded_at(self.logs[id], step - 2, base.key)
            }
        &&& {
            ||| exists|id: ReplicaId|
                voters.contains(id) && #[trigger] register_log::accepts(
                    self.logs[id],
                    step - 2,
                    base,
                )
            ||| forall|id: ReplicaId| #[trigger]
                voters.contains(id) ==> register_log::silent_at(self.logs[id], step - 2)
        }
    }

    /// A request with the same values was sent at the step before, or at the one
    /// before that for a round's first step.
    #[verifier::opaque]
    spec fn continues(self, step: int, origin: (ReplicaId, Seq<V>)) -> bool {
        exists|request: RecordRequestView<V>|
            {
                &&& #[trigger] self.sent.contains(request)
                &&& authored(request.proposal) == origin
                &&& request.step.0 == step - 1 || (step % 4 == 0 && request.step.0 == step - 2)
            }
    }

    /// Why a proposal may stand at a step after the first.
    spec fn grounded(self, step: int, proposal: ProposalView<V>) -> bool {
        &&& step > 4
        &&& self.continues(step, authored(proposal))
        &&& step % 4 == 1 ==> exists|voters: Set<ReplicaId>, leader: Option<ReplicaId>|
            #[trigger] self.best_first(voters, step, proposal, leader)
        &&& step % 4 == 2 ==> exists|voters: Set<ReplicaId>| #[trigger]
            self.spread(voters, step, proposal)
        &&& step % 4 == 0 ==> exists|voters: Set<ReplicaId>, base: ProposalView<V>| #[trigger]
            self.best_spread(voters, step, base) && authored(base) == authored(proposal)
    }

    /// What holds of a run.
    spec fn sound_run(self, run: RunView<V>) -> bool {
        &&& run.slot == self.slot
        &&& run.step.0 >= 4
        &&& self.made(run.known_decisions)
        &&& self.proposed.contains(run.proposal.value_ids)
        &&& if run.step.0 == 4 {
            run.proposal.key.priority.0 == u64::MAX && run.proposal.key.proposer_id == run.sender
        } else {
            self.grounded(run.step.0 as int, run.proposal)
        }
    }

    /// What holds of a request.
    spec fn sound_request(self, request: RecordRequestView<V>) -> bool {
        &&& request.slot == self.slot
        &&& request.step.0 >= 4
        &&& self.made(request.known_decisions)
        &&& self.proposed.contains(request.proposal.value_ids)
        &&& if request.step.0 == 4 {
            request.proposal.key.priority.0 == u64::MAX ==> request.round_one_leader == Some(
                request.proposal.key.proposer_id,
            )
        } else {
            self.grounded(request.step.0 as int, request.proposal)
        }
    }

    /// What holds of a recorder: until the slot is pruned, its register is that
    /// of its log, and its binding is that of its log's requests.
    spec fn sound_recorder(self, id: ReplicaId) -> bool {
        let recorder = self.recorders[id];
        let log = self.logs[id];
        &&& recorder.id == id
        &&& recorder.state.cluster == self.cluster
        &&& recorder.state.pruned_through.0 < self.slot.0 ==> {
            &&& recorder.register(self.slot) == register_log::register_of(log)
            &&& if recorder.state.round_one_leaders.dom().contains(self.slot) {
                led(log, recorder.state.round_one_leaders[self.slot])
            } else {
                log.len() == 0
            }
        }
        &&& exists|leader: Option<ReplicaId>| #[trigger] led(log, leader)
        &&& forall|i: int| 0 <= i < log.len() ==> self.sent.contains(#[trigger] log[i])
        &&& recorder.decision(self.slot) is Some ==> self.decided.contains(
            recorder.decision(self.slot)->0,
        )
    }

    /// What holds of an answer.
    spec fn sound_answer(self, request: RecordRequestView<V>, reply: RecordReplyView<V>) -> bool {
        &&& self.logs.dom().contains(reply.recorder)
        &&& exists|n: int| #[trigger] answers_after(self.logs[reply.recorder], n, request, reply)
        &&& reply.decision is Some ==> self.decided.contains(reply.decision->0)
    }

    /// A quorum took a proposal in that beats all it had taken in a step before.
    spec fn slow_decision(
        self,
        voters: Set<ReplicaId>,
        step: int,
        proposal: ProposalView<V>,
    ) -> bool {
        &&& step > 4 && step % 4 == 2
        &&& self.backed(voters)
        &&& forall|id: ReplicaId| #[trigger]
            voters.contains(id) ==> {
                &&& register_log::accepts(self.logs[id], step, proposal)
                &&& register_log::bounded_at(self.logs[id], step - 1, proposal.key)
            }
    }

    /// A quorum recorded the leader's proposal first.
    spec fn fast_decision(self, voters: Set<ReplicaId>, proposal: ProposalView<V>) -> bool {
        &&& self.backed(voters)
        &&& proposal.key.priority.0 == u64::MAX
        &&& forall|id: ReplicaId| #[trigger]
            voters.contains(id) ==> {
                &&& register_log::first_at(self.logs[id], 4) is Some
                &&& register_log::first_at(self.logs[id], 4)->0.key == proposal.key
                &&& led(self.logs[id], Some(proposal.key.proposer_id))
            }
        &&& exists|id: ReplicaId|
            voters.contains(id) && #[trigger] register_log::first_at(self.logs[id], 4) == Some(
                proposal,
            )
    }

    /// Why a decision stands.
    spec fn justified(self, decision: DecisionView<V>) -> bool {
        &&& decision.slot == self.slot
        &&& self.proposed.contains(decision.value_ids)
        &&& {
            ||| exists|voters: Set<ReplicaId>, proposal: ProposalView<V>| #[trigger]
                self.slow_decision(voters, decision.decided_step.0 as int, proposal) && authored(
                    proposal,
                ) == credited(decision)
            ||| exists|voters: Set<ReplicaId>, proposal: ProposalView<V>| #[trigger]
                self.fast_decision(voters, proposal) && authored(proposal) == credited(decision)
                    && decision.decided_step.0 == 4
        }
    }

    /// What holds throughout.
    spec fn sound(self) -> bool {
        &&& self.cluster.valid()
        &&& self.electors matches Some(electors) ==> electors.finite()
        &&& self.logs.dom() == self.recorders.dom()
        &&& unambiguous(self.sent)
        &&& forall|id: ReplicaId| #[trigger]
            self.logs.dom().contains(id) ==> self.sound_recorder(id)
        &&& forall|run: RunView<V>| #[trigger] self.runs.contains(run) ==> self.sound_run(run)
        &&& forall|request: RecordRequestView<V>| #[trigger]
            self.sent.contains(request) ==> self.sound_request(request)
        &&& forall|request: RecordRequestView<V>, reply: RecordReplyView<V>| #[trigger]
            self.answers.contains((request, reply)) ==> self.sound_answer(request, reply)
        &&& forall|decision: DecisionView<V>| #[trigger]
            self.decided.contains(decision) ==> self.justified(decision)
    }

    /// More has happened.
    spec fn grows(self, later: Self) -> bool {
        &&& later.cluster == self.cluster
        &&& later.electors == self.electors
        &&& later.slot == self.slot
        &&& later.logs.dom() == self.logs.dom()
        &&& forall|id: ReplicaId| #[trigger]
            self.logs.dom().contains(id) ==> {
                &&& register_log::extends(later.logs[id], self.logs[id])
                &&& exists|leader: Option<ReplicaId>| #[trigger] led(later.logs[id], leader)
            }
        &&& self.proposed.subset_of(later.proposed)
        &&& self.sent.subset_of(later.sent)
        &&& self.decided.subset_of(later.decided)
    }
}

/// Whether every request names the same round-one leader.
spec fn led<V>(log: Seq<RecordRequestView<V>>, leader: Option<ReplicaId>) -> bool {
    forall|i: int| 0 <= i < log.len() ==> (#[trigger] log[i]).round_one_leader == leader
}

/// Whether a reply is what a log tells after its first requests, the last of
/// which it answers.
spec fn answers_after<V>(
    log: Seq<RecordRequestView<V>>,
    n: int,
    request: RecordRequestView<V>,
    reply: RecordReplyView<V>,
) -> bool {
    &&& 0 < n <= log.len()
    &&& log[n - 1] == request
    &&& reply.summary == register_log::register_of(log.take(n)).summary()
}

/// What a recorder took in was sent.
proof fn lemma_accepted_was_sent<V>(
    history: SlotHistory<V>,
    id: ReplicaId,
    step: int,
    proposal: ProposalView<V>,
) -> (request: RecordRequestView<V>)
    requires
        history.sound(),
        history.logs.dom().contains(id),
        register_log::accepts(history.logs[id], step, proposal),
    ensures
        history.sent.contains(request),
        request.step.0 == step,
        request.proposal == proposal,
        led(history.logs[id], request.round_one_leader),
{
    let log = history.logs[id];
    register_log::lemma_accepted_is_logged(log, step, proposal);
    let i = choose|i: int|
        0 <= i < log.len() && (#[trigger] log[i]).step.0 == step && log[i].proposal == proposal;
    assert(history.sound_recorder(id));
    let leader = choose|leader: Option<ReplicaId>| #[trigger] led(log, leader);
    assert(log[i].round_one_leader == leader);
    log[i]
}

/// Two quorums share a recorder.
proof fn lemma_shared<V>(
    history: SlotHistory<V>,
    left: Set<ReplicaId>,
    right: Set<ReplicaId>,
) -> (id: ReplicaId)
    requires
        history.sound(),
        history.backed(left),
        history.backed(right),
    ensures
        left.contains(id),
        right.contains(id),
        history.logs.dom().contains(id),
{
    match history.electors {
        Some(electors) => {
            cluster::majorities_intersect(electors, left, right);
        },
        None => {
            cluster::quorums_intersect(history.cluster, left, right);
        },
    }
    choose|id: ReplicaId| left.contains(id) && right.contains(id)
}

/// Everything sent at the step of a slow decision is at most the decided
/// proposal.
proof fn lemma_slow_decision_bounds<V>(
    history: SlotHistory<V>,
    voters: Set<ReplicaId>,
    proposal: ProposalView<V>,
    request: RecordRequestView<V>,
)
    requires
        history.sound(),
        history.sent.contains(request),
        history.slow_decision(voters, request.step.0 as int, proposal),
    ensures
        register_log::at_most(request.proposal.key, proposal.key),
{
    let step = request.step.0 as int;
    assert(history.sound_request(request));
    let spreaders = choose|spreaders: Set<ReplicaId>| #[trigger]
        history.spread(spreaders, step, request.proposal);
    let id = lemma_shared(history, voters, spreaders);
    assert(register_log::accepts(history.logs[id], step - 1, request.proposal));
}

/// The decided proposal of a slow decision was sent.
proof fn lemma_slow_decision_was_sent<V>(
    history: SlotHistory<V>,
    voters: Set<ReplicaId>,
    step: int,
    proposal: ProposalView<V>,
) -> (request: RecordRequestView<V>)
    requires
        history.sound(),
        history.slow_decision(voters, step, proposal),
    ensures
        history.sent.contains(request),
        request.step.0 == step,
        request.proposal == proposal,
{
    let id = lemma_shared(history, voters, voters);
    lemma_accepted_was_sent(history, id, step, proposal)
}

/// Everything sent at the first step of the round after a slow decision has the
/// decided values.
proof fn lemma_slow_decision_carries_over<V>(
    history: SlotHistory<V>,
    voters: Set<ReplicaId>,
    step: int,
    proposal: ProposalView<V>,
    request: RecordRequestView<V>,
)
    requires
        history.sound(),
        history.slow_decision(voters, step, proposal),
        history.sent.contains(request),
        request.step.0 == step + 2,
    ensures
        authored(request.proposal) == authored(proposal),
{
    let next = request.step.0 as int;
    assert(history.sound_request(request));
    let (witnesses, base) = choose|witnesses: Set<ReplicaId>, base: ProposalView<V>| #[trigger]
        history.best_spread(witnesses, next, base) && authored(base) == authored(request.proposal);
    let id = lemma_shared(history, voters, witnesses);
    assert(register_log::accepts(history.logs[id], step, proposal));
    assert(register_log::at_most(proposal.key, base.key));
    assert(!register_log::silent_at(history.logs[id], step));
    let other = choose|other: ReplicaId|
        witnesses.contains(other) && #[trigger] register_log::accepts(
            history.logs[other],
            next - 2,
            base,
        );
    let source = lemma_accepted_was_sent(history, other, step, base);
    lemma_slow_decision_bounds(history, voters, proposal, source);
    let decided = lemma_slow_decision_was_sent(history, voters, step, proposal);
    assert(base.key == proposal.key);
}

/// The earlier request that a later one goes on from.
proof fn lemma_earlier_request<V>(
    history: SlotHistory<V>,
    step: int,
    origin: (ReplicaId, Seq<V>),
) -> (earlier: RecordRequestView<V>)
    requires
        history.continues(step, origin),
    ensures
        history.sent.contains(earlier),
        authored(earlier.proposal) == origin,
        earlier.step.0 == step - 1 || (step % 4 == 0 && earlier.step.0 == step - 2),
{
    reveal(SlotHistory::continues);
    choose|earlier: RecordRequestView<V>|
        {
            &&& #[trigger] history.sent.contains(earlier)
            &&& authored(earlier.proposal) == origin
            &&& earlier.step.0 == step - 1 || (step % 4 == 0 && earlier.step.0 == step - 2)
        }
}

/// A later request may go on from an earlier one.
proof fn lemma_continues<V>(
    history: SlotHistory<V>,
    step: int,
    origin: (ReplicaId, Seq<V>),
    earlier: RecordRequestView<V>,
)
    requires
        history.sent.contains(earlier),
        authored(earlier.proposal) == origin,
        earlier.step.0 == step - 1 || (step % 4 == 0 && earlier.step.0 == step - 2),
    ensures
        history.continues(step, origin),
{
    reveal(SlotHistory::continues);
}

/// Once all requests of a step have the same values, all later ones have them.
proof fn lemma_values_persist<V>(
    history: SlotHistory<V>,
    start: int,
    origin: (ReplicaId, Seq<V>),
    request: RecordRequestView<V>,
)
    requires
        history.sound(),
        start >= 4,
        start % 4 == 0 || start % 4 == 1,
        forall|other: RecordRequestView<V>|
            #![trigger history.sent.contains(other)]
            history.sent.contains(other) && other.step.0 == start ==> authored(other.proposal)
                == origin,
        history.sent.contains(request),
        request.step.0 >= start,
    ensures
        authored(request.proposal) == origin,
    decreases request.step.0,
{
    if request.step.0 > start {
        let step = request.step.0 as int;
        assert(history.sound_request(request));
        let earlier = lemma_earlier_request(history, step, authored(request.proposal));
        lemma_values_persist(history, start, origin, earlier);
    }
}

/// Everything sent from the second step on has the values of a fast decision.
proof fn lemma_fast_decision_carries_over<V>(
    history: SlotHistory<V>,
    voters: Set<ReplicaId>,
    proposal: ProposalView<V>,
    request: RecordRequestView<V>,
)
    requires
        history.sound(),
        history.fast_decision(voters, proposal),
        history.sent.contains(request),
        request.step.0 > 4,
    ensures
        authored(request.proposal) == authored(proposal),
{
    assert forall|other: RecordRequestView<V>|
        #![trigger history.sent.contains(other)]
        history.sent.contains(other) && other.step.0 == 5 implies authored(other.proposal)
        == authored(proposal) by {
        assert(history.sound_request(other));
        let (firsts, leader) = choose|firsts: Set<ReplicaId>, leader: Option<ReplicaId>|
            #[trigger]
            history.best_first(firsts, 5, other.proposal, leader);
        let id = lemma_shared(history, voters, firsts);
        let first = register_log::first_at(history.logs[id], 4)->0;
        assert(first.key == proposal.key);
        assert(register_log::at_most(first.key, other.proposal.key));
        register_log::lemma_first_is_accepted(history.logs[id], 4);
        let recorded = lemma_accepted_was_sent(history, id, 4, first);
        let source = choose|source: ReplicaId|
            firsts.contains(source) && #[trigger] register_log::first_at(
                history.logs[source],
                5 - 1,
            ) == Some(other.proposal);
        register_log::lemma_first_is_accepted(history.logs[source], 4);
        let best = lemma_accepted_was_sent(history, source, 4, other.proposal);
        assert(history.sound_request(best));
        lemma_one_leader(history, id, leader, Some(proposal.key.proposer_id));
        lemma_one_leader(history, source, leader, best.round_one_leader);
        assert(best.proposal.key.proposer_id == proposal.key.proposer_id);
        assert(recorded.proposal.key == best.proposal.key);
        let decider = choose|decider: ReplicaId|
            voters.contains(decider) && #[trigger] register_log::first_at(
                history.logs[decider],
                4,
            ) == Some(proposal);
        register_log::lemma_first_is_accepted(history.logs[decider], 4);
        let decided = lemma_accepted_was_sent(history, decider, 4, proposal);
        assert(decided.proposal.key == best.proposal.key);
    }
    lemma_values_persist(history, 5, authored(proposal), request);
}

/// A log that is not empty has one leader.
proof fn lemma_one_leader<V>(
    history: SlotHistory<V>,
    id: ReplicaId,
    a: Option<ReplicaId>,
    b: Option<ReplicaId>,
)
    requires
        history.logs.dom().contains(id),
        register_log::first_at(history.logs[id], 4) is Some,
        led(history.logs[id], a),
        led(history.logs[id], b),
    ensures
        a == b,
{
    assert(history.logs[id].len() > 0);
    assert(history.logs[id][0].round_one_leader == a);
}

/// The proposal of a fast decision was sent.
proof fn lemma_fast_decision_was_sent<V>(
    history: SlotHistory<V>,
    voters: Set<ReplicaId>,
    proposal: ProposalView<V>,
) -> (request: RecordRequestView<V>)
    requires
        history.sound(),
        history.fast_decision(voters, proposal),
    ensures
        history.sent.contains(request),
        request.proposal == proposal,
{
    let id = choose|id: ReplicaId|
        voters.contains(id) && #[trigger] register_log::first_at(history.logs[id], 4) == Some(
            proposal,
        );
    register_log::lemma_first_is_accepted(history.logs[id], 4);
    lemma_accepted_was_sent(history, id, 4, proposal)
}

proof fn lemma_slow_decisions_agree<V>(
    history: SlotHistory<V>,
    voters: Set<ReplicaId>,
    step: int,
    proposal: ProposalView<V>,
    other_voters: Set<ReplicaId>,
    other_step: int,
    other: ProposalView<V>,
)
    requires
        history.sound(),
        history.slow_decision(voters, step, proposal),
        history.slow_decision(other_voters, other_step, other),
        step <= other_step,
    ensures
        authored(proposal) == authored(other),
{
    let a = lemma_slow_decision_was_sent(history, voters, step, proposal);
    let b = lemma_slow_decision_was_sent(history, other_voters, other_step, other);
    if step == other_step {
        lemma_slow_decision_bounds(history, voters, proposal, b);
        lemma_slow_decision_bounds(history, other_voters, other, a);
        assert(proposal.key == other.key);
    } else {
        assert forall|request: RecordRequestView<V>|
            #![trigger history.sent.contains(request)]
            history.sent.contains(request) && request.step.0 == step + 2 implies
            authored(request.proposal) == authored(proposal) by {
            lemma_slow_decision_carries_over(history, voters, step, proposal, request);
        }
        lemma_values_persist(history, step + 2, authored(proposal), b);
    }
}

/// In a sound history all decisions are for the same values.
proof fn lemma_sound_decisions_agree<V>(
    history: SlotHistory<V>,
    a: DecisionView<V>,
    b: DecisionView<V>,
)
    requires
        history.sound(),
        history.decided.contains(a),
        history.decided.contains(b),
    ensures
        credited(a) == credited(b),
{
    assert(history.justified(a));
    assert(history.justified(b));
    if exists|voters: Set<ReplicaId>, proposal: ProposalView<V>| #[trigger]
        history.fast_decision(voters, proposal) && authored(proposal) == credited(a) {
        let (voters, proposal) = choose|voters: Set<ReplicaId>, proposal: ProposalView<V>|
            #[trigger]
            history.fast_decision(voters, proposal) && authored(proposal) == credited(a);
        lemma_fast_decision_prevails(history, voters, proposal, b);
    } else if exists|voters: Set<ReplicaId>, proposal: ProposalView<V>| #[trigger]
        history.fast_decision(voters, proposal) && authored(proposal) == credited(b) {
        let (voters, proposal) = choose|voters: Set<ReplicaId>, proposal: ProposalView<V>|
            #[trigger]
            history.fast_decision(voters, proposal) && authored(proposal) == credited(b);
        lemma_fast_decision_prevails(history, voters, proposal, a);
    } else {
        let (va, sa, pa) = choose|voters: Set<ReplicaId>, step: int, proposal: ProposalView<V>|
            #[trigger]
            history.slow_decision(voters, step, proposal) && authored(proposal) == credited(a);
        let (vb, sb, pb) = choose|voters: Set<ReplicaId>, step: int, proposal: ProposalView<V>|
            #[trigger]
            history.slow_decision(voters, step, proposal) && authored(proposal) == credited(b);
        if sa <= sb {
            lemma_slow_decisions_agree(history, va, sa, pa, vb, sb, pb);
        } else {
            lemma_slow_decisions_agree(history, vb, sb, pb, va, sa, pa);
        }
    }
}

/// Every decision is for the values of a fast decision, if there is one.
proof fn lemma_fast_decision_prevails<V>(
    history: SlotHistory<V>,
    voters: Set<ReplicaId>,
    proposal: ProposalView<V>,
    decision: DecisionView<V>,
)
    requires
        history.sound(),
        history.fast_decision(voters, proposal),
        history.decided.contains(decision),
    ensures
        credited(decision) == authored(proposal),
{
    assert(history.justified(decision));
    let sent = lemma_fast_decision_was_sent(history, voters, proposal);
    if exists|others: Set<ReplicaId>, other: ProposalView<V>| #[trigger]
        history.fast_decision(others, other) && authored(other) == credited(decision) {
        let (others, other) = choose|others: Set<ReplicaId>, other: ProposalView<V>| #[trigger]
            history.fast_decision(others, other) && authored(other) == credited(decision);
        let id = lemma_shared(history, voters, others);
        let also = lemma_fast_decision_was_sent(history, others, other);
        assert(other.key == proposal.key);
    } else {
        let (others, step, other) = choose|
            others: Set<ReplicaId>,
            step: int,
            other: ProposalView<V>,
        | #[trigger]
            history.slow_decision(others, step, other) && authored(other) == credited(decision);
        let request = lemma_slow_decision_was_sent(history, others, step, other);
        lemma_fast_decision_carries_over(history, voters, proposal, request);
    }
}

/// A leader of a log that is not empty leads the longer log too.
proof fn lemma_led_grows<V>(
    history: SlotHistory<V>,
    later: SlotHistory<V>,
    id: ReplicaId,
    leader: Option<ReplicaId>,
)
    requires
        history.grows(later),
        history.logs.dom().contains(id),
        history.logs[id].len() > 0,
        led(history.logs[id], leader),
    ensures
        led(later.logs[id], leader),
{
    let log = history.logs[id];
    let longer = later.logs[id];
    assert(register_log::extends(longer, log));
    assert(longer.take(log.len() as int)[0] == log[0]);
    let other = choose|other: Option<ReplicaId>| #[trigger] led(longer, other);
    assert(longer[0].round_one_leader == other);
    assert(log[0].round_one_leader == leader);
}

proof fn lemma_best_first_grows<V>(
    history: SlotHistory<V>,
    later: SlotHistory<V>,
    voters: Set<ReplicaId>,
    step: int,
    proposal: ProposalView<V>,
    leader: Option<ReplicaId>,
)
    requires
        history.grows(later),
        history.best_first(voters, step, proposal, leader),
    ensures
        later.best_first(voters, step, proposal, leader),
{
    assert forall|id: ReplicaId| #[trigger] voters.contains(id) implies {
        &&& register_log::first_at(later.logs[id], step - 1) is Some
        &&& register_log::at_most(
            register_log::first_at(later.logs[id], step - 1)->0.key,
            proposal.key,
        )
        &&& led(later.logs[id], leader)
    } by {
        assert(history.logs.dom().contains(id));
        register_log::lemma_first_is_stable(history.logs[id], later.logs[id], step - 1);
        lemma_led_grows(history, later, id, leader);
    }
    let id = choose|id: ReplicaId|
        voters.contains(id) && #[trigger] register_log::first_at(history.logs[id], step - 1)
            == Some(proposal);
    register_log::lemma_first_is_stable(history.logs[id], later.logs[id], step - 1);
    assert(register_log::first_at(later.logs[id], step - 1) == Some(proposal));
}

proof fn lemma_spread_grows<V>(
    history: SlotHistory<V>,
    later: SlotHistory<V>,
    voters: Set<ReplicaId>,
    step: int,
    proposal: ProposalView<V>,
)
    requires
        history.grows(later),
        history.spread(voters, step, proposal),
    ensures
        later.spread(voters, step, proposal),
{
    assert forall|id: ReplicaId| #[trigger] voters.contains(id) implies register_log::accepts(
        later.logs[id],
        step - 1,
        proposal,
    ) by {
        assert(history.logs.dom().contains(id));
        register_log::lemma_acceptance_is_stable(
            history.logs[id],
            later.logs[id],
            step - 1,
            proposal,
        );
    }
}

proof fn lemma_best_spread_grows<V>(
    history: SlotHistory<V>,
    later: SlotHistory<V>,
    voters: Set<ReplicaId>,
    step: int,
    base: ProposalView<V>,
)
    requires
        history.grows(later),
        history.best_spread(voters, step, base),
    ensures
        later.best_spread(voters, step, base),
{
    assert forall|id: ReplicaId| #[trigger] voters.contains(id) implies {
        &&& register_log::register_of(later.logs[id]).step.0 > step - 2
        &&& register_log::bounded_at(later.logs[id], step - 2, base.key)
        &&& register_log::silent_at(later.logs[id], step - 2) == register_log::silent_at(
            history.logs[id],
            step - 2,
        )
    } by {
        assert(history.logs.dom().contains(id));
        register_log::lemma_past_steps_are_closed(
            history.logs[id],
            later.logs[id],
            step - 2,
            base.key,
        );
    }
    if exists|id: ReplicaId|
        voters.contains(id) && #[trigger] register_log::accepts(
            history.logs[id],
            step - 2,
            base,
        ) {
        let id = choose|id: ReplicaId|
            voters.contains(id) && #[trigger] register_log::accepts(
                history.logs[id],
                step - 2,
                base,
            );
        assert(history.logs.dom().contains(id));
        register_log::lemma_acceptance_is_stable(
            history.logs[id],
            later.logs[id],
            step - 2,
            base,
        );
        assert(register_log::accepts(later.logs[id], step - 2, base));
    }
}

/// Why a proposal may stand at a step stays so.
proof fn lemma_grounded_grows<V>(
    history: SlotHistory<V>,
    later: SlotHistory<V>,
    step: int,
    proposal: ProposalView<V>,
)
    requires
        history.grows(later),
        history.grounded(step, proposal),
    ensures
        later.grounded(step, proposal),
{
    let earlier = lemma_earlier_request(history, step, authored(proposal));
    lemma_continues(later, step, authored(proposal), earlier);
    if step % 4 == 1 {
        let (voters, leader) = choose|voters: Set<ReplicaId>, leader: Option<ReplicaId>| #[trigger]
            history.best_first(voters, step, proposal, leader);
        lemma_best_first_grows(history, later, voters, step, proposal, leader);
    } else if step % 4 == 2 {
        let voters = choose|voters: Set<ReplicaId>| #[trigger]
            history.spread(voters, step, proposal);
        lemma_spread_grows(history, later, voters, step, proposal);
    } else if step % 4 == 0 {
        let (voters, base) = choose|voters: Set<ReplicaId>, base: ProposalView<V>| #[trigger]
            history.best_spread(voters, step, base) && authored(base) == authored(proposal);
        lemma_best_spread_grows(history, later, voters, step, base);
    }
}

/// Why a decision stands stays so.
proof fn lemma_justified_grows<V>(
    history: SlotHistory<V>,
    later: SlotHistory<V>,
    decision: DecisionView<V>,
)
    requires
        history.grows(later),
        history.justified(decision),
    ensures
        later.justified(decision),
{
    let step = decision.decided_step.0 as int;
    if exists|voters: Set<ReplicaId>, proposal: ProposalView<V>| #[trigger]
        history.slow_decision(voters, step, proposal) && authored(proposal) == credited(decision) {
        let (voters, proposal) = choose|voters: Set<ReplicaId>, proposal: ProposalView<V>|
            #[trigger]
            history.slow_decision(voters, step, proposal) && authored(proposal)
                == credited(decision);
        assert forall|id: ReplicaId| #[trigger] voters.contains(id) implies {
            &&& register_log::accepts(later.logs[id], step, proposal)
            &&& register_log::bounded_at(later.logs[id], step - 1, proposal.key)
        } by {
            assert(history.logs.dom().contains(id));
            register_log::lemma_accepted_is_logged(history.logs[id], step, proposal);
            register_log::lemma_acceptance_is_stable(
                history.logs[id],
                later.logs[id],
                step,
                proposal,
            );
            register_log::lemma_past_steps_are_closed(
                history.logs[id],
                later.logs[id],
                step - 1,
                proposal.key,
            );
        }
        assert(later.slow_decision(voters, step, proposal));
    } else {
        let (voters, proposal) = choose|voters: Set<ReplicaId>, proposal: ProposalView<V>|
            #[trigger]
            history.fast_decision(voters, proposal) && authored(proposal) == credited(decision);
        assert forall|id: ReplicaId| #[trigger] voters.contains(id) implies {
            &&& register_log::first_at(later.logs[id], 4) is Some
            &&& register_log::first_at(later.logs[id], 4)->0.key == proposal.key
            &&& led(later.logs[id], Some(proposal.key.proposer_id))
        } by {
            assert(history.logs.dom().contains(id));
            register_log::lemma_first_is_stable(history.logs[id], later.logs[id], 4);
            lemma_led_grows(history, later, id, Some(proposal.key.proposer_id));
        }
        let id = choose|id: ReplicaId|
            voters.contains(id) && #[trigger] register_log::first_at(history.logs[id], 4) == Some(
                proposal,
            );
        register_log::lemma_first_is_stable(history.logs[id], later.logs[id], 4);
        assert(register_log::first_at(later.logs[id], 4) == Some(proposal));
        assert(later.fast_decision(voters, proposal));
    }
}

proof fn lemma_made_grows<V>(
    history: SlotHistory<V>,
    later: SlotHistory<V>,
    decisions: Seq<DecisionView<V>>,
)
    requires
        history.grows(later),
        history.made(decisions),
    ensures
        later.made(decisions),
{
}

/// What holds of runs, requests, answers and decisions goes on to hold.
proof fn lemma_soundness_grows<V>(history: SlotHistory<V>, later: SlotHistory<V>)
    requires
        history.sound(),
        history.grows(later),
    ensures
        forall|run: RunView<V>| #[trigger] history.runs.contains(run) ==> later.sound_run(run),
        forall|request: RecordRequestView<V>| #[trigger]
            history.sent.contains(request) ==> later.sound_request(request),
        forall|request: RecordRequestView<V>, reply: RecordReplyView<V>| #[trigger]
            history.answers.contains((request, reply)) ==> later.sound_answer(request, reply),
        forall|decision: DecisionView<V>| #[trigger]
            history.decided.contains(decision) ==> later.justified(decision),
{
    assert forall|run: RunView<V>| #[trigger] history.runs.contains(run) implies later.sound_run(
        run,
    ) by {
        assert(history.sound_run(run));
        lemma_made_grows(history, later, run.known_decisions);
        if run.step.0 != 4 {
            lemma_grounded_grows(history, later, run.step.0 as int, run.proposal);
        }
    }
    assert forall|request: RecordRequestView<V>| #[trigger]
        history.sent.contains(request) implies later.sound_request(request) by {
        assert(history.sound_request(request));
        lemma_made_grows(history, later, request.known_decisions);
        if request.step.0 != 4 {
            lemma_grounded_grows(history, later, request.step.0 as int, request.proposal);
        }
    }
    assert forall|request: RecordRequestView<V>, reply: RecordReplyView<V>| #[trigger]
        history.answers.contains((request, reply)) implies later.sound_answer(request, reply) by {
        assert(history.sound_answer(request, reply));
        let log = history.logs[reply.recorder];
        let longer = later.logs[reply.recorder];
        let n = choose|n: int| #[trigger] answers_after(log, n, request, reply);
        assert(register_log::extends(longer, log));
        assert(longer.take(log.len() as int)[n - 1] == log[n - 1]);
        assert(longer.take(n) =~= longer.take(log.len() as int).take(n));
        assert(answers_after(longer, n, request, reply));
    }
    assert forall|decision: DecisionView<V>| #[trigger]
        history.decided.contains(decision) implies later.justified(decision) by {
        lemma_justified_grows(history, later, decision);
    }
}

/// Being told of decisions changes a recorder's decisions only.
proof fn lemma_inform_all<V>(
    history: SlotHistory<V>,
    recorder: RecorderView<V>,
    decisions: Seq<DecisionView<V>>,
)
    requires
        history.made(decisions),
        recorder.decision(history.slot) is Some ==> history.decided.contains(
            recorder.decision(history.slot)->0,
        ),
    ensures
        ({
            let informed = recorder.inform_all(decisions).0;
            &&& informed.id == recorder.id
            &&& informed.limits == recorder.limits
            &&& informed.state.cluster == recorder.state.cluster
            &&& informed.state.slots == recorder.state.slots
            &&& informed.state.round_one_leaders == recorder.state.round_one_leaders
            &&& informed.state.pruned_through == recorder.state.pruned_through
            &&& informed.decision(history.slot) is Some ==> history.decided.contains(
                informed.decision(history.slot)->0,
            )
        }),
    decreases decisions.len(),
{
    if decisions.len() > 0 {
        let rest = decisions.drop_last();
        assert(history.made(rest)) by {
            assert forall|i: int|
                0 <= i < rest.len() && rest[i].slot == history.slot implies history.decided.contains(
                #[trigger] rest[i],
            ) by {
                assert(rest[i] == decisions[i]);
            }
        }
        lemma_inform_all(history, recorder, rest);
        assert(decisions[decisions.len() - 1] == decisions.last());
    }
}

/// A history whose recorders alone have changed, soundly, is sound.
proof fn lemma_recorder_changes<V>(history: SlotHistory<V>, id: ReplicaId, later: SlotHistory<V>)
    requires
        history.sound(),
        history.logs.dom().contains(id),
        later == (SlotHistory {
            recorders: history.recorders.insert(id, later.recorders[id]),
            ..history
        }),
        later.sound_recorder(id),
    ensures
        later.sound(),
{
    assert(later.logs.dom() =~= later.recorders.dom());
    assert(history.grows(later)) by {
        assert forall|other: ReplicaId| #[trigger] history.logs.dom().contains(other) implies {
            &&& register_log::extends(later.logs[other], history.logs[other])
            &&& exists|leader: Option<ReplicaId>| #[trigger] led(later.logs[other], leader)
        } by {
            assert(history.sound_recorder(other));
            assert(later.logs[other].take(history.logs[other].len() as int)
                =~= history.logs[other]);
        }
    }
    lemma_soundness_grows(history, later);
    assert forall|other: ReplicaId| #[trigger] later.logs.dom().contains(other) implies
        later.sound_recorder(other) by {
        if other != id {
            assert(history.sound_recorder(other));
        }
    }
}

proof fn lemma_inform_keeps_sound<V>(
    history: SlotHistory<V>,
    id: ReplicaId,
    decisions: Seq<DecisionView<V>>,
)
    requires
        history.sound(),
        history.possible(Event::Inform(id, decisions)),
    ensures
        history.after(Event::Inform(id, decisions)).sound(),
{
    let later = history.after(Event::Inform(id, decisions));
    assert(history.sound_recorder(id));
    lemma_inform_all(history, history.recorders[id], decisions);
    assert(later.sound_recorder(id));
    lemma_recorder_changes(history, id, later);
}

proof fn lemma_prune_keeps_sound<V>(history: SlotHistory<V>, id: ReplicaId, through: SlotIndex)
    requires
        history.sound(),
        history.possible(Event::Prune(id, through)),
    ensures
        history.after(Event::Prune(id, through)).sound(),
{
    let later = history.after(Event::Prune(id, through));
    assert(history.sound_recorder(id));
    assert(later.sound_recorder(id));
    lemma_recorder_changes(history, id, later);
}

proof fn lemma_deliver_keeps_sound<V>(
    history: SlotHistory<V>,
    id: ReplicaId,
    request: RecordRequestView<V>,
    available: std::result::Result<(), ErrorView>,
)
    requires
        history.sound(),
        history.possible(Event::Deliver(id, request, available)),
    ensures
        history.after(Event::Deliver(id, request, available)).sound(),
{
    let later = history.after(Event::Deliver(id, request, available));
    let recorder = history.recorders[id];
    let (changed, result) = recorder.record(request, available);
    assert(history.sound_recorder(id));
    lemma_inform_all(history, recorder, request.known_decisions);
    if request.slot == history.slot && result is Ok {
        let log = history.logs[id];
        let longer = log.push(request);
        let reply = result->Ok_0;
        assert(longer.drop_last() =~= log);
        assert(history.sound_request(request));
        assert(register_log::register_of(longer) == register_log::register_of(log).recorded(
            request.step,
            request.proposal,
        ));
        assert(led(longer, changed.state.round_one_leaders[history.slot])) by {
            assert forall|i: int| 0 <= i < longer.len() implies (
            #[trigger] longer[i]).round_one_leader
                == changed.state.round_one_leaders[history.slot] by {
                if i < log.len() {
                    assert(log[i] == longer[i]);
                }
            }
        }
        assert forall|i: int| 0 <= i < longer.len() implies history.sent.contains(
            #[trigger] longer[i],
        ) by {
            if i < log.len() {
                assert(log[i] == longer[i]);
            }
        }
        assert(later.sound_recorder(id));
        assert(later.logs.dom() =~= history.logs.dom());
        assert(later.recorders.dom() =~= history.recorders.dom());
        assert(history.grows(later)) by {
            assert forall|other: ReplicaId| #[trigger] history.logs.dom().contains(other) implies {
                &&& register_log::extends(later.logs[other], history.logs[other])
                &&& exists|leader: Option<ReplicaId>| #[trigger] led(later.logs[other], leader)
            } by {
                assert(history.sound_recorder(other));
                assert(later.logs[other].take(history.logs[other].len() as int)
                    =~= history.logs[other]);
            }
        }
        lemma_soundness_grows(history, later);
        assert(later.sound_answer(request, reply)) by {
            assert(longer.take(longer.len() as int) =~= longer);
            assert(answers_after(longer, longer.len() as int, request, reply));
        }
        assert forall|other: ReplicaId| #[trigger] later.logs.dom().contains(other) implies
            later.sound_recorder(other) by {
            if other != id {
                assert(history.sound_recorder(other));
            }
        }
        assert forall|asked: RecordRequestView<V>, given: RecordReplyView<V>| #[trigger]
            later.answers.contains((asked, given)) implies later.sound_answer(asked, given) by {
            if !history.answers.contains((asked, given)) {
                assert((asked, given) == (request, reply));
            }
        }
    } else {
        assert(later.sound_recorder(id));
        lemma_recorder_changes(history, id, later);
    }
}

proof fn lemma_begin_keeps_sound<V>(history: SlotHistory<V>, run: RunView<V>)
    requires
        history.sound(),
        history.possible(Event::Begin(run)),
    ensures
        history.after(Event::Begin(run)).sound(),
{
    let later = history.after(Event::Begin(run));
    lemma_logs_stay(history, later);
    assert(later.sound_run(run));
}

/// A history whose logs have not changed has grown.
proof fn lemma_logs_stay<V>(history: SlotHistory<V>, later: SlotHistory<V>)
    requires
        history.sound(),
        later.cluster == history.cluster,
        later.electors == history.electors,
        later.slot == history.slot,
        later.logs == history.logs,
        later.recorders == history.recorders,
        history.proposed.subset_of(later.proposed),
        history.sent.subset_of(later.sent),
        history.decided.subset_of(later.decided),
    ensures
        forall|id: ReplicaId| #[trigger]
            later.logs.dom().contains(id) ==> later.sound_recorder(id),
        forall|run: RunView<V>| #[trigger] history.runs.contains(run) ==> later.sound_run(run),
        forall|request: RecordRequestView<V>| #[trigger]
            history.sent.contains(request) ==> later.sound_request(request),
        forall|request: RecordRequestView<V>, reply: RecordReplyView<V>| #[trigger]
            history.answers.contains((request, reply)) ==> later.sound_answer(request, reply),
        forall|decision: DecisionView<V>| #[trigger]
            history.decided.contains(decision) ==> later.justified(decision),
        history.grows(later),
{
    assert(history.grows(later)) by {
        assert forall|other: ReplicaId| #[trigger] history.logs.dom().contains(other) implies {
            &&& register_log::extends(later.logs[other], history.logs[other])
            &&& exists|leader: Option<ReplicaId>| #[trigger] led(later.logs[other], leader)
        } by {
            assert(history.sound_recorder(other));
            assert(later.logs[other].take(history.logs[other].len() as int)
                =~= history.logs[other]);
        }
    }
    lemma_soundness_grows(history, later);
    assert forall|id: ReplicaId| #[trigger] later.logs.dom().contains(id) implies
        later.sound_recorder(id) by {
        assert(history.sound_recorder(id));
    }
}

proof fn lemma_send_keeps_sound<V>(history: SlotHistory<V>, run: RunView<V>, drawn: Priority)
    requires
        history.sound(),
        history.possible(Event::Send(run, drawn)),
    ensures
        history.after(Event::Send(run, drawn)).sound(),
{
    let later = history.after(Event::Send(run, drawn));
    let request = run.request(drawn);
    assert(history.sound_run(run));
    lemma_logs_stay(history, later);
    assert(later.sound_run(run));
    assert(later.sound_request(request)) by {
        let step = run.step.0 as int;
        if step != 4 {
            assert(later.grounded(step, run.proposal));
            if run.draws_priorities() {
                let (voters, base) = choose|voters: Set<ReplicaId>, base: ProposalView<V>|
                    #[trigger]
                    later.best_spread(voters, step, base) && authored(base)
                        == authored(run.proposal);
                assert(authored(request.proposal) == authored(run.proposal));
                assert(later.best_spread(voters, step, base) && authored(base)
                    == authored(request.proposal));
                assert(later.grounded(step, request.proposal));
            }
        }
    }
}

/// Which first proposal is the best that replies report.
pub proof fn lemma_best_reported_first<V>(replies: Seq<RecordReplyView<V>>)
    ensures
        match types::best_of(proposer::reported_firsts(replies)) {
            Some(best) => {
                &&& exists|i: int|
                    0 <= i < replies.len() && (#[trigger] replies[i]).summary.first == Some(best)
                &&& forall|i: int|
                    0 <= i < replies.len() && (#[trigger] replies[i]).summary.first is Some
                        ==> register_log::at_most(replies[i].summary.first->0.key, best.key)
            },
            None => forall|i: int|
                0 <= i < replies.len() ==> (#[trigger] replies[i]).summary.first is None,
        },
    decreases replies.len(),
{
    if replies.len() > 0 {
        let rest = replies.drop_last();
        lemma_best_reported_first(rest);
        assert(replies[replies.len() - 1] == replies.last());
        let best = types::best_of(proposer::reported_firsts(replies));
        match replies.last().summary.first {
            Some(first) => {
                assert(proposer::reported_firsts(replies).drop_last()
                    =~= proposer::reported_firsts(rest));
            },
            None => {},
        }
        if types::best_of(proposer::reported_firsts(rest)) is Some {
            let held = types::best_of(proposer::reported_firsts(rest))->0;
            let k = choose|k: int|
                0 <= k < rest.len() && (#[trigger] rest[k]).summary.first == Some(held);
            assert(replies[k] == rest[k]);
        }
        assert forall|i: int|
            0 <= i < replies.len() && (#[trigger] replies[i]).summary.first is Some implies best
            is Some && register_log::at_most(replies[i].summary.first->0.key, best->0.key) by {
            if i < rest.len() {
                assert(rest[i] == replies[i]);
            }
        }
    }
}

/// Which aggregate is the best that replies report.
pub proof fn lemma_best_reported_prior<V>(replies: Seq<RecordReplyView<V>>)
    ensures
        match types::best_of(proposer::reported_priors(replies)) {
            Some(best) => {
                &&& exists|i: int|
                    0 <= i < replies.len() && (#[trigger] replies[i]).summary.prior_aggregate
                        == Some(best)
                &&& forall|i: int|
                    0 <= i < replies.len() && (#[trigger] replies[i]).summary.prior_aggregate
                        is Some ==> register_log::at_most(
                        replies[i].summary.prior_aggregate->0.key,
                        best.key,
                    )
            },
            None => forall|i: int|
                0 <= i < replies.len() ==> (#[trigger] replies[i]).summary.prior_aggregate is None,
        },
    decreases replies.len(),
{
    if replies.len() > 0 {
        let rest = replies.drop_last();
        lemma_best_reported_prior(rest);
        assert(replies[replies.len() - 1] == replies.last());
        let best = types::best_of(proposer::reported_priors(replies));
        match replies.last().summary.prior_aggregate {
            Some(prior) => {
                assert(proposer::reported_priors(replies).drop_last()
                    =~= proposer::reported_priors(rest));
            },
            None => {},
        }
        if types::best_of(proposer::reported_priors(rest)) is Some {
            let held = types::best_of(proposer::reported_priors(rest))->0;
            let k = choose|k: int|
                0 <= k < rest.len() && (#[trigger] rest[k]).summary.prior_aggregate == Some(held);
            assert(replies[k] == rest[k]);
        }
        assert forall|i: int|
            0 <= i < replies.len() && (#[trigger] replies[i]).summary.prior_aggregate
                is Some implies best is Some && register_log::at_most(
            replies[i].summary.prior_aggregate->0.key,
            best->0.key,
        ) by {
            if i < rest.len() {
                assert(rest[i] == replies[i]);
            }
        }
    }
}

/// A reported decision is one of the replies'.
proof fn lemma_reported_decision<V>(replies: Seq<RecordReplyView<V>>)
    requires
        proposer::reported_decision(replies) is Some,
    ensures
        exists|i: int|
            0 <= i < replies.len() && (#[trigger] replies[i]).decision
                == proposer::reported_decision(replies),
    decreases replies.len(),
{
    let rest = replies.drop_last();
    if proposer::reported_decision(rest) is Some {
        lemma_reported_decision(rest);
        let i = choose|i: int|
            0 <= i < rest.len() && (#[trigger] rest[i]).decision == proposer::reported_decision(
                rest,
            );
        assert(replies[i] == rest[i]);
    } else {
        assert(replies[replies.len() - 1] == replies.last());
    }
}

/// The furthest reply is one of the replies.
proof fn lemma_furthest_reply<V>(replies: Seq<RecordReplyView<V>>)
    requires
        proposer::furthest_reply(replies) is Some,
    ensures
        exists|i: int|
            0 <= i < replies.len() && #[trigger] replies[i] == proposer::furthest_reply(replies)->0,
    decreases replies.len(),
{
    let rest = replies.drop_last();
    assert(replies[replies.len() - 1] == replies.last());
    if proposer::furthest_reply(rest) is Some {
        lemma_furthest_reply(rest);
        let i = choose|i: int|
            0 <= i < rest.len() && #[trigger] rest[i] == proposer::furthest_reply(rest)->0;
        assert(replies[i] == rest[i]);
    }
}

/// Where in its recorder's log a reply was given.
proof fn lemma_reply_place<V>(
    history: SlotHistory<V>,
    run: RunView<V>,
    reply: RecordReplyView<V>,
) -> (n: int)
    requires
        history.sound(),
        history.answered(run, reply),
    ensures
        history.logs.dom().contains(reply.recorder),
        0 < n <= history.logs[reply.recorder].len(),
        run.asks(history.logs[reply.recorder][n - 1]),
        history.sent.contains(history.logs[reply.recorder][n - 1]),
        reply.summary == register_log::register_of(
            history.logs[reply.recorder].take(n),
        ).summary(),
        register_log::well_stepped(history.logs[reply.recorder].take(n)),
        register_log::extends(
            history.logs[reply.recorder],
            history.logs[reply.recorder].take(n),
        ),
        led(history.logs[reply.recorder], run.leader),
        reply.decision is Some ==> history.decided.contains(reply.decision->0),
{
    let request = choose|request: RecordRequestView<V>|
        run.asks(request) && #[trigger] history.answers.contains((request, reply));
    assert(history.sound_answer(request, reply));
    let log = history.logs[reply.recorder];
    let n = choose|n: int| #[trigger] answers_after(log, n, request, reply);
    assert(history.sound_recorder(reply.recorder));
    let taken = log.take(n);
    assert forall|i: int| 0 <= i < taken.len() implies (#[trigger] taken[i]).step.0 > 0 by {
        assert(taken[i] == log[i]);
        assert(history.sent.contains(log[i]));
        assert(history.sound_request(log[i]));
    }
    assert(log.take(taken.len() as int) =~= taken);
    let leader = choose|leader: Option<ReplicaId>| #[trigger] led(log, leader);
    assert(log[n - 1].round_one_leader == leader);
    let drawn = choose|drawn: Priority| request == #[trigger] run.request(drawn);
    assert(request.round_one_leader == run.leader);
    n
}

/// What a reply at the run's step tells of its recorder's log.
proof fn lemma_reply_in_step<V>(
    history: SlotHistory<V>,
    run: RunView<V>,
    reply: RecordReplyView<V>,
) -> (request: RecordRequestView<V>)
    requires
        history.sound(),
        history.answered(run, reply),
        reply.summary.step == run.step,
        run.step.0 >= 4,
    ensures
        history.logs.dom().contains(reply.recorder),
        history.sent.contains(request),
        request.step == run.step,
        authored(request.proposal) == authored(run.proposal),
        run.step.0 % 4 != 0 ==> request.proposal == run.proposal,
        ({
            let log = history.logs[reply.recorder];
            let step = run.step.0 as int;
            &&& reply.summary.first is Some
            &&& register_log::first_at(log, step) == reply.summary.first
            &&& register_log::accepts(log, step, request.proposal)
            &&& register_log::register_of(log).step.0 >= step
            &&& match reply.summary.prior_aggregate {
                Some(best) => register_log::accepts(log, step - 1, best)
                    && register_log::bounded_at(log, step - 1, best.key),
                None => register_log::silent_at(log, step - 1),
            }
            &&& led(log, run.leader)
        }),
{
    let n = lemma_reply_place(history, run, reply);
    let log = history.logs[reply.recorder];
    let taken = log.take(n);
    let request = log[n - 1];
    let step = run.step.0 as int;
    let drawn = choose|drawn: Priority| request == #[trigger] run.request(drawn);
    assert(taken.last() == request);
    register_log::lemma_register_tells(taken);
    register_log::lemma_request_in_step_is_accepted(taken);
    register_log::lemma_acceptance_is_stable(taken, log, step, request.proposal);
    register_log::lemma_first_is_stable(taken, log, step);
    register_log::lemma_steps_grow(taken, log);
    match reply.summary.prior_aggregate {
        Some(best) => {
            register_log::lemma_acceptance_is_stable(taken, log, step - 1, best);
            register_log::lemma_past_steps_are_closed(taken, log, step - 1, best.key);
        },
        None => {
            register_log::lemma_past_steps_are_closed(
                taken,
                log,
                step - 1,
                request.proposal.key,
            );
        },
    }
    request
}

/// The senders of a run's replies are a quorum of recorders.
proof fn lemma_senders_back<V>(
    history: SlotHistory<V>,
    run: RunView<V>,
    replies: Seq<RecordReplyView<V>>,
)
    requires
        history.sound(),
        history.possible(Event::Conclude(run, replies)),
    ensures
        history.backed(quorum::senders(replies).to_set()),
        replies.len() > 0,
        forall|id: ReplicaId| #[trigger]
            quorum::senders(replies).to_set().contains(id) ==> exists|i: int|
                0 <= i < replies.len() && (#[trigger] replies[i]).recorder == id,
        forall|i: int|
            0 <= i < replies.len() ==> quorum::senders(replies).to_set().contains(
                (#[trigger] replies[i]).recorder,
            ),
{
    let senders = quorum::senders(replies);
    let voters = senders.to_set();
    assert forall|id: ReplicaId| #[trigger] voters.contains(id) implies (exists|i: int|
        0 <= i < replies.len() && (#[trigger] replies[i]).recorder == id)
        && history.logs.dom().contains(id) by {
        assert(senders.contains(id));
        let i = choose|i: int| 0 <= i < senders.len() && senders[i] == id;
        assert(replies[i].recorder == id);
        let n = lemma_reply_place(history, run, replies[i]);
    }
    assert forall|i: int| 0 <= i < replies.len() implies voters.contains(
        (#[trigger] replies[i]).recorder,
    ) by {
        assert(senders[i] == replies[i].recorder);
        assert(senders.contains(senders[i]));
    }
    let id = lemma_shared(history, voters, voters);
}

/// A fast decision stands on the logs of a quorum.
proof fn lemma_fast_path_decides<V>(
    history: SlotHistory<V>,
    run: RunView<V>,
    replies: Seq<RecordReplyView<V>>,
    winner: ProposalView<V>,
)
    requires
        history.sound(),
        history.possible(Event::Conclude(run, replies)),
        run.in_step(replies),
        proposer::fast_path(run.step, replies, run.leader) == Some(winner),
    ensures
        history.fast_decision(quorum::senders(replies).to_set(), winner),
        history.proposed.contains(winner.value_ids),
{
    let voters = quorum::senders(replies).to_set();
    lemma_senders_back(history, run, replies);
    assert forall|id: ReplicaId| #[trigger] voters.contains(id) implies {
        &&& register_log::first_at(history.logs[id], 4) is Some
        &&& register_log::first_at(history.logs[id], 4)->0.key == winner.key
        &&& led(history.logs[id], Some(winner.key.proposer_id))
    } by {
        let i = choose|i: int| 0 <= i < replies.len() && (#[trigger] replies[i]).recorder == id;
        let request = lemma_reply_in_step(history, run, replies[i]);
    }
    let request = lemma_reply_in_step(history, run, replies[0]);
    let id = replies[0].recorder;
    assert(voters.contains(id));
    assert(register_log::first_at(history.logs[id], 4) == Some(winner));
    register_log::lemma_first_is_accepted(history.logs[id], 4);
    let sent = lemma_accepted_was_sent(history, id, 4, winner);
    assert(history.sound_request(sent));
}

/// What a quorum recorded first is bounded by the best that it reports.
proof fn lemma_first_step_bounds<V>(
    history: SlotHistory<V>,
    run: RunView<V>,
    replies: Seq<RecordReplyView<V>>,
    best: ProposalView<V>,
) -> (id: ReplicaId)
    requires
        history.sound(),
        history.possible(Event::Conclude(run, replies)),
        run.in_step(replies),
        types::best_of(proposer::reported_firsts(replies)) == Some(best),
    ensures
        history.best_first(
            quorum::senders(replies).to_set(),
            run.step.0 + 1,
            best,
            run.leader,
        ),
        history.logs.dom().contains(id),
        register_log::accepts(history.logs[id], run.step.0 as int, best),
{
    let voters = quorum::senders(replies).to_set();
    let step = run.step.0 as int;
    assert(history.sound_run(run));
    lemma_senders_back(history, run, replies);
    lemma_best_reported_first(replies);
    assert forall|id: ReplicaId| #[trigger] voters.contains(id) implies {
        &&& register_log::first_at(history.logs[id], step) is Some
        &&& register_log::at_most(register_log::first_at(history.logs[id], step)->0.key, best.key)
        &&& led(history.logs[id], run.leader)
    } by {
        let i = choose|i: int| 0 <= i < replies.len() && (#[trigger] replies[i]).recorder == id;
        let request = lemma_reply_in_step(history, run, replies[i]);
    }
    let i = choose|i: int|
        0 <= i < replies.len() && (#[trigger] replies[i]).summary.first == Some(best);
    let request = lemma_reply_in_step(history, run, replies[i]);
    let id = replies[i].recorder;
    assert(voters.contains(id));
    assert((step + 1) - 1 == step);
    assert(register_log::first_at(history.logs[id], step) == Some(best));
    register_log::lemma_first_is_accepted(history.logs[id], step);
    id
}

/// A round's first step leads to the best first proposal of a quorum.
proof fn lemma_first_step_concludes<V>(
    history: SlotHistory<V>,
    run: RunView<V>,
    replies: Seq<RecordReplyView<V>>,
    best: ProposalView<V>,
)
    requires
        history.sound(),
        history.possible(Event::Conclude(run, replies)),
        run.in_step(replies),
        run.step.0 % 4 == 0,
        types::best_of(proposer::reported_firsts(replies)) == Some(best),
    ensures
        history.grounded(run.step.0 + 1, best),
        history.proposed.contains(best.value_ids),
{
    let step = run.step.0 as int;
    assert(history.sound_run(run));
    let id = lemma_first_step_bounds(history, run, replies, best);
    let sent = lemma_accepted_was_sent(history, id, step, best);
    assert(history.sound_request(sent));
    lemma_continues(history, step + 1, authored(best), sent);
}

/// Going on with one's own proposal is going on from a request that was sent.
proof fn lemma_own_proposal_continues<V>(
    history: SlotHistory<V>,
    run: RunView<V>,
    replies: Seq<RecordReplyView<V>>,
)
    requires
        history.sound(),
        history.possible(Event::Conclude(run, replies)),
        run.in_step(replies),
    ensures
        history.continues(run.step.0 + 1, authored(run.proposal)),
{
    assert(history.sound_run(run));
    lemma_senders_back(history, run, replies);
    assert(replies[0].summary.step == run.step);
    let request = lemma_reply_in_step(history, run, replies[0]);
    lemma_continues(history, run.step.0 + 1, authored(run.proposal), request);
}

/// A round's second step spreads the proposal to a quorum.
proof fn lemma_second_step_concludes<V>(
    history: SlotHistory<V>,
    run: RunView<V>,
    replies: Seq<RecordReplyView<V>>,
)
    requires
        history.sound(),
        history.possible(Event::Conclude(run, replies)),
        run.in_step(replies),
        run.step.0 % 4 == 1,
    ensures
        history.grounded(run.step.0 + 1, run.proposal),
{
    let voters = quorum::senders(replies).to_set();
    let step = run.step.0 as int;
    assert(history.sound_run(run));
    lemma_senders_back(history, run, replies);
    lemma_own_proposal_continues(history, run, replies);
    assert forall|id: ReplicaId| #[trigger] voters.contains(id) implies register_log::accepts(
        history.logs[id],
        (step + 1) - 1,
        run.proposal,
    ) by {
        let i = choose|i: int| 0 <= i < replies.len() && (#[trigger] replies[i]).recorder == id;
        let request = lemma_reply_in_step(history, run, replies[i]);
    }
    assert(history.spread(voters, step + 1, run.proposal));
}

/// A round's third step decides a proposal that nothing in a quorum beats.
proof fn lemma_third_step_decides<V>(
    history: SlotHistory<V>,
    run: RunView<V>,
    replies: Seq<RecordReplyView<V>>,
)
    requires
        history.sound(),
        history.possible(Event::Conclude(run, replies)),
        run.in_step(replies),
        run.step.0 % 4 == 2,
        types::best_of(proposer::reported_priors(replies)) == Some(run.proposal),
    ensures
        history.slow_decision(
            quorum::senders(replies).to_set(),
            run.step.0 as int,
            run.proposal,
        ),
{
    let voters = quorum::senders(replies).to_set();
    let step = run.step.0 as int;
    assert(history.sound_run(run));
    lemma_senders_back(history, run, replies);
    lemma_best_reported_prior(replies);
    assert forall|id: ReplicaId| #[trigger] voters.contains(id) implies {
        &&& register_log::accepts(history.logs[id], step, run.proposal)
        &&& register_log::bounded_at(history.logs[id], step - 1, run.proposal.key)
    } by {
        let i = choose|i: int| 0 <= i < replies.len() && (#[trigger] replies[i]).recorder == id;
        let request = lemma_reply_in_step(history, run, replies[i]);
    }
}

/// What a quorum spread in a round is bounded by the best that it reports.
proof fn lemma_last_step_bounds<V>(
    history: SlotHistory<V>,
    run: RunView<V>,
    replies: Seq<RecordReplyView<V>>,
    next: ProposalView<V>,
)
    requires
        history.sound(),
        history.possible(Event::Conclude(run, replies)),
        run.in_step(replies),
        run.step.0 % 4 == 3,
        next == match types::best_of(proposer::reported_priors(replies)) {
            Some(best) => best,
            None => run.proposal,
        },
    ensures
        history.best_spread(quorum::senders(replies).to_set(), run.step.0 + 1, next),
        types::best_of(proposer::reported_priors(replies)) is Some ==> exists|id: ReplicaId|
            history.logs.dom().contains(id) && #[trigger] register_log::accepts(
                history.logs[id],
                run.step.0 - 1,
                next,
            ),
{
    let voters = quorum::senders(replies).to_set();
    let step = run.step.0 as int;
    assert(history.sound_run(run));
    lemma_senders_back(history, run, replies);
    lemma_best_reported_prior(replies);
    assert forall|id: ReplicaId| #[trigger] voters.contains(id) implies {
        &&& register_log::register_of(history.logs[id]).step.0 > step - 1
        &&& register_log::bounded_at(history.logs[id], step - 1, next.key)
        &&& types::best_of(proposer::reported_priors(replies)) is None
            ==> register_log::silent_at(history.logs[id], step - 1)
    } by {
        let i = choose|i: int| 0 <= i < replies.len() && (#[trigger] replies[i]).recorder == id;
        let request = lemma_reply_in_step(history, run, replies[i]);
    }
    assert((step + 1) - 2 == step - 1);
    if types::best_of(proposer::reported_priors(replies)) is Some {
        let i = choose|i: int|
            0 <= i < replies.len() && (#[trigger] replies[i]).summary.prior_aggregate == Some(
                next,
            );
        let request = lemma_reply_in_step(history, run, replies[i]);
        let id = replies[i].recorder;
        assert(voters.contains(id));
        assert(register_log::accepts(history.logs[id], step - 1, next));
    }
}

/// A round's last step leads to the best that a quorum spread.
proof fn lemma_last_step_concludes<V>(
    history: SlotHistory<V>,
    run: RunView<V>,
    replies: Seq<RecordReplyView<V>>,
    next: ProposalView<V>,
)
    requires
        history.sound(),
        history.possible(Event::Conclude(run, replies)),
        run.in_step(replies),
        run.step.0 % 4 == 3,
        next == match types::best_of(proposer::reported_priors(replies)) {
            Some(best) => best,
            None => run.proposal,
        },
    ensures
        history.grounded(run.step.0 + 1, next),
        history.proposed.contains(next.value_ids),
{
    let step = run.step.0 as int;
    assert(history.sound_run(run));
    lemma_last_step_bounds(history, run, replies, next);
    if types::best_of(proposer::reported_priors(replies)) is Some {
        let id = choose|id: ReplicaId|
            history.logs.dom().contains(id) && #[trigger] register_log::accepts(
                history.logs[id],
                step - 1,
                next,
            );
        let sent = lemma_accepted_was_sent(history, id, step - 1, next);
        assert(history.sound_request(sent));
        lemma_continues(history, step + 1, authored(next), sent);
    } else {
        lemma_own_proposal_continues(history, run, replies);
    }
}

/// A proposer that is behind goes on with a proposal that stands at the step.
proof fn lemma_catching_up_is_grounded<V>(
    history: SlotHistory<V>,
    run: RunView<V>,
    reply: RecordReplyView<V>,
    first: ProposalView<V>,
)
    requires
        history.sound(),
        history.answered(run, reply),
        reply.summary.step.0 > run.step.0,
        run.step.0 >= 4,
        reply.summary.first == Some(first),
    ensures
        history.grounded(reply.summary.step.0 as int, first),
        history.proposed.contains(first.value_ids),
{
    let n = lemma_reply_place(history, run, reply);
    let log = history.logs[reply.recorder];
    let taken = log.take(n);
    let step = reply.summary.step.0 as int;
    register_log::lemma_register_tells(taken);
    register_log::lemma_first_is_accepted(taken, step);
    register_log::lemma_acceptance_is_stable(taken, log, step, first);
    let sent = lemma_accepted_was_sent(history, reply.recorder, step, first);
    assert(history.sound_request(sent));
}

/// How a round ends is sound.
proof fn lemma_round_end_is_sound<V>(
    history: SlotHistory<V>,
    run: RunView<V>,
    replies: Seq<RecordReplyView<V>>,
)
    requires
        history.sound(),
        history.possible(Event::Conclude(run, replies)),
    ensures
        match run.conclude(replies) {
            RoundEnd::Decided(decision) => history.justified(decision),
            RoundEnd::Continue(step, proposal) => history.sound_run(run.continued(step, proposal)),
            RoundEnd::Refused(_) => true,
        },
{
    assert(history.sound_run(run));
    let voters = quorum::senders(replies).to_set();
    if proposer::reported_decision(replies) is Some {
        lemma_reported_decision(replies);
        let i = choose|i: int|
            0 <= i < replies.len() && (#[trigger] replies[i]).decision
                == proposer::reported_decision(replies);
        let n = lemma_reply_place(history, run, replies[i]);
    } else if run.in_step(replies) {
        let phase = run.step.0 % 4;
        if phase == 0 {
            match proposer::fast_path(run.step, replies, run.leader) {
                Some(winner) => {
                    lemma_fast_path_decides(history, run, replies, winner);
                    assert(history.fast_decision(voters, winner));
                    assert(run.conclude(replies) matches RoundEnd::Decided(decision)
                        ==> authored(winner) == credited(decision));
                },
                None => {
                    match types::best_of(proposer::reported_firsts(replies)) {
                        Some(best) => {
                            lemma_first_step_concludes(history, run, replies, best);
                        },
                        None => {},
                    }
                },
            }
        } else if phase == 1 {
            lemma_second_step_concludes(history, run, replies);
        } else if phase == 2 {
            if types::best_of(proposer::reported_priors(replies)) == Some(run.proposal) {
                lemma_third_step_decides(history, run, replies);
                assert(history.slow_decision(voters, run.step.0 as int, run.proposal));
                assert(run.conclude(replies) matches RoundEnd::Decided(decision)
                    ==> decision.decided_step == run.step && authored(run.proposal) == credited(
                    decision,
                ));
            } else {
                lemma_own_proposal_continues(history, run, replies);
            }
        } else {
            let next = match types::best_of(proposer::reported_priors(replies)) {
                Some(best) => best,
                None => run.proposal,
            };
            lemma_last_step_concludes(history, run, replies, next);
        }
    } else {
        let ahead = proposer::furthest_reply(replies);
        if ahead is Some && ahead->0.summary.step.0 > run.step.0 && ahead->0.summary.first is Some {
            lemma_furthest_reply(replies);
            let i = choose|i: int| 0 <= i < replies.len() && #[trigger] replies[i] == ahead->0;
            lemma_catching_up_is_grounded(
                history,
                run,
                replies[i],
                replies[i].summary.first->0,
            );
        }
    }
}

proof fn lemma_conclude_keeps_sound<V>(
    history: SlotHistory<V>,
    run: RunView<V>,
    replies: Seq<RecordReplyView<V>>,
)
    requires
        history.sound(),
        history.possible(Event::Conclude(run, replies)),
    ensures
        history.after(Event::Conclude(run, replies)).sound(),
{
    let later = history.after(Event::Conclude(run, replies));
    lemma_round_end_is_sound(history, run, replies);
    lemma_logs_stay(history, later);
    match run.conclude(replies) {
        RoundEnd::Decided(decision) => {
            lemma_justified_grows(history, later, decision);
        },
        RoundEnd::Continue(step, proposal) => {
            let next = run.continued(step, proposal);
            assert(later.sound_run(next)) by {
                if next.step.0 != 4 {
                    lemma_grounded_grows(history, later, next.step.0 as int, next.proposal);
                }
            }
        },
        RoundEnd::Refused(_) => {},
    }
}

proof fn lemma_history_is_sound<V>(history: SlotHistory<V>, events: Seq<Event<V>>)
    requires
        history.initial(),
        history.all_possible(events),
    ensures
        history.after_all(events).sound(),
    decreases events.len(),
{
    if events.len() == 0 {
        assert forall|id: ReplicaId| #[trigger] history.logs.dom().contains(id) implies
            history.sound_recorder(id) by {
            assert(history.recorders.dom().contains(id));
            assert(led(history.logs[id], None));
        }
    } else {
        lemma_history_is_sound(history, events.drop_last());
        let before = history.after_all(events.drop_last());
        match events.last() {
            Event::Begin(run) => {
                lemma_begin_keeps_sound(before, run);
            },
            Event::Send(run, drawn) => {
                lemma_send_keeps_sound(before, run, drawn);
            },
            Event::Deliver(id, request, available) => {
                lemma_deliver_keeps_sound(before, id, request, available);
            },
            Event::Conclude(run, replies) => {
                lemma_conclude_keeps_sound(before, run, replies);
            },
            Event::Inform(id, decisions) => {
                lemma_inform_keeps_sound(before, id, decisions);
            },
            Event::Prune(id, through) => {
                lemma_prune_keeps_sound(before, id, through);
            },
        }
    }
}

/// Agreement: any two decisions on a slot are for the same values, whichever
/// proposers made them, on the fast path or in any round, and in whatever order
/// the messages were delivered.
pub proof fn decisions_agree<V>(
    history: SlotHistory<V>,
    events: Seq<Event<V>>,
    a: DecisionView<V>,
    b: DecisionView<V>,
)
    requires
        history.initial(),
        history.all_possible(events),
        history.after_all(events).decided.contains(a),
        history.after_all(events).decided.contains(b),
    ensures
        a.value_ids == b.value_ids,
        a.proposer == b.proposer,
{
    lemma_history_is_sound(history, events);
    lemma_sound_decisions_agree(history.after_all(events), a, b);
}

/// Validity: a decision on a slot is for values that some run began with.
pub proof fn decisions_were_proposed<V>(
    history: SlotHistory<V>,
    events: Seq<Event<V>>,
    decision: DecisionView<V>,
)
    requires
        history.initial(),
        history.all_possible(events),
        history.after_all(events).decided.contains(decision),
    ensures
        decision.slot == history.after_all(events).slot,
        history.after_all(events).proposed.contains(decision.value_ids),
{
    lemma_history_is_sound(history, events);
    let after = history.after_all(events);
    assert(after.justified(decision));
}

/// Recorders retain only decisions that were made, so no honest answer brings a
/// proposer a decision that another contradicts.
pub proof fn retained_decisions_were_made<V>(
    history: SlotHistory<V>,
    events: Seq<Event<V>>,
    id: ReplicaId,
)
    requires
        history.initial(),
        history.all_possible(events),
        history.after_all(events).recorders.dom().contains(id),
    ensures
        ({
            let after = history.after_all(events);
            after.recorders[id].decision(after.slot) is Some ==> after.decided.contains(
                after.recorders[id].decision(after.slot)->0,
            )
        }),
{
    lemma_history_is_sound(history, events);
    let after = history.after_all(events);
    assert(after.logs.dom().contains(id));
    assert(after.sound_recorder(id));
}

/// Whether a run has the agreed leader propose.
pub open spec fn leads<V>(run: RunView<V>) -> bool {
    run.leader == Some(run.sender)
}

/// Whether a replica proposes one list of values on a lane, and leads on one
/// lane: what makes the keys of a slot's proposals unique.
pub open spec fn one_proposal_each<V>(events: Seq<Event<V>>) -> bool {
    forall|i: int, j: int|
        #![trigger events[i], events[j]]
        0 <= i < events.len() && 0 <= j < events.len() ==> match (events[i], events[j]) {
            (Event::Begin(a), Event::Begin(b)) => a.sender == b.sender ==> {
                &&& a.proposal.key.lane_id == b.proposal.key.lane_id ==> a.proposal.value_ids
                    == b.proposal.value_ids
                &&& leads(a) && leads(b) ==> a.proposal.key.lane_id == b.proposal.key.lane_id
            },
            _ => true,
        }
}

/// Whether an event begins a run of the replica that a decision names, with the
/// values that were decided.
pub open spec fn began_with<V>(event: Event<V>, decision: DecisionView<V>) -> bool {
    event matches Event::Begin(run) && run.sender == decision.proposer && run.proposal.value_ids
        == decision.value_ids
}

/// Whether an event begins the run that a proposal comes from.
spec fn begins<V>(event: Event<V>, proposal: ProposalView<V>) -> bool {
    &&& event matches Event::Begin(run)
    &&& run.sender == proposal.key.proposer_id
    &&& run.proposal.key.lane_id == proposal.key.lane_id
    &&& run.proposal.value_ids == proposal.value_ids
}

/// Whether a proposal comes from a run that was begun, and from one that leads
/// where it has the reserved priority.
spec fn originates<V>(events: Seq<Event<V>>, proposal: ProposalView<V>) -> bool {
    exists|i: int|
        0 <= i < events.len() && #[trigger] begins(events[i], proposal) && (
        proposal.key.priority.0 == u64::MAX ==> leads(events[i]->Begin_0))
}

/// Whether a run at its first step is one that was begun, as far as its key
/// goes.
spec fn was_begun<V>(events: Seq<Event<V>>, run: RunView<V>) -> bool {
    exists|i: int|
        0 <= i < events.len() && #[trigger] begins(events[i], run.proposal)
            && events[i]->Begin_0.leader == run.leader && events[i]->Begin_0.sender == run.sender
}

/// Whether all proposals of a history come from runs that were begun.
spec fn accounted_for<V>(events: Seq<Event<V>>, history: SlotHistory<V>) -> bool {
    &&& forall|run: RunView<V>| #[trigger]
        history.runs.contains(run) ==> if run.step.0 == 4 {
            was_begun(events, run)
        } else {
            originates(events, run.proposal)
        }
    &&& forall|request: RecordRequestView<V>| #[trigger]
        history.sent.contains(request) ==> originates(events, request.proposal)
    &&& forall|decision: DecisionView<V>| #[trigger]
        history.decided.contains(decision) ==> exists|i: int|
            0 <= i < events.len() && #[trigger] began_with(events[i], decision)
}

/// More events account for no less.
proof fn lemma_more_events<V>(events: Seq<Event<V>>, event: Event<V>, history: SlotHistory<V>)
    requires
        accounted_for(events, history),
    ensures
        accounted_for(events.push(event), history),
{
    let more = events.push(event);
    assert forall|run: RunView<V>| #[trigger] history.runs.contains(run) implies if run.step.0 == 4 {
        was_begun(more, run)
    } else {
        originates(more, run.proposal)
    } by {
        if run.step.0 == 4 {
            let i = choose|i: int|
                0 <= i < events.len() && #[trigger] begins(events[i], run.proposal)
                    && events[i]->Begin_0.leader == run.leader && events[i]->Begin_0.sender
                    == run.sender;
            assert(begins(more[i], run.proposal));
        } else {
            lemma_originates_still(events, event, run.proposal);
        }
    }
    assert forall|request: RecordRequestView<V>| #[trigger]
        history.sent.contains(request) implies originates(more, request.proposal) by {
        lemma_originates_still(events, event, request.proposal);
    }
    assert forall|decision: DecisionView<V>| #[trigger]
        history.decided.contains(decision) implies exists|i: int|
        0 <= i < more.len() && #[trigger] began_with(more[i], decision) by {
        let i = choose|i: int|
            0 <= i < events.len() && #[trigger] began_with(events[i], decision);
        assert(began_with(more[i], decision));
    }
}

proof fn lemma_originates_still<V>(
    events: Seq<Event<V>>,
    event: Event<V>,
    proposal: ProposalView<V>,
)
    requires
        originates(events, proposal),
    ensures
        originates(events.push(event), proposal),
{
    let i = choose|i: int|
        0 <= i < events.len() && #[trigger] begins(events[i], proposal) && (
        proposal.key.priority.0 == u64::MAX ==> leads(events[i]->Begin_0));
    assert(begins(events.push(event)[i], proposal));
}

/// The request that a run sends comes from where the run does.
proof fn lemma_request_originates<V>(
    events: Seq<Event<V>>,
    history: SlotHistory<V>,
    run: RunView<V>,
    drawn: Priority,
)
    requires
        history.sound(),
        accounted_for(events, history),
        history.runs.contains(run),
        drawn.0 < u64::MAX,
    ensures
        originates(events, run.request(drawn).proposal),
{
    let proposal = run.request(drawn).proposal;
    assert(history.sound_run(run));
    if run.step.0 == 4 {
        let i = choose|i: int|
            0 <= i < events.len() && #[trigger] begins(events[i], run.proposal)
                && events[i]->Begin_0.leader == run.leader && events[i]->Begin_0.sender
                == run.sender;
        assert(begins(events[i], proposal));
    } else {
        let i = choose|i: int|
            0 <= i < events.len() && #[trigger] begins(events[i], run.proposal) && (
            run.proposal.key.priority.0 == u64::MAX ==> leads(events[i]->Begin_0));
        assert(begins(events[i], proposal));
    }
}

/// The first proposal that a reply reports was sent.
proof fn lemma_reported_first_was_sent<V>(
    history: SlotHistory<V>,
    run: RunView<V>,
    reply: RecordReplyView<V>,
    first: ProposalView<V>,
) -> (request: RecordRequestView<V>)
    requires
        history.sound(),
        history.answered(run, reply),
        reply.summary.first == Some(first),
    ensures
        history.sent.contains(request),
        request.proposal == first,
{
    let n = lemma_reply_place(history, run, reply);
    let log = history.logs[reply.recorder];
    let taken = log.take(n);
    let step = reply.summary.step.0 as int;
    register_log::lemma_register_tells(taken);
    register_log::lemma_first_is_accepted(taken, step);
    register_log::lemma_acceptance_is_stable(taken, log, step, first);
    lemma_accepted_was_sent(history, reply.recorder, step, first)
}

/// What a run goes on with was its own or was sent.
proof fn lemma_continuation_originates<V>(
    events: Seq<Event<V>>,
    history: SlotHistory<V>,
    run: RunView<V>,
    replies: Seq<RecordReplyView<V>>,
)
    requires
        history.sound(),
        accounted_for(events, history),
        history.possible(Event::Conclude(run, replies)),
    ensures
        run.conclude(replies) matches RoundEnd::Continue(step, proposal) ==> if step.0 == 4 {
            was_begun(events, run.continued(step, proposal))
        } else {
            originates(events, proposal)
        },
{
    assert(history.sound_run(run));
    match run.conclude(replies) {
        RoundEnd::Continue(step, proposal) => {
            if run.in_step(replies) {
                let phase = run.step.0 % 4;
                if phase == 0 {
                    lemma_best_reported_first(replies);
                    let i = choose|i: int|
                        0 <= i < replies.len() && (#[trigger] replies[i]).summary.first == Some(
                            proposal,
                        );
                    let sent = lemma_reported_first_was_sent(history, run, replies[i], proposal);
                } else if phase == 3 && types::best_of(proposer::reported_priors(replies)) is Some {
                    lemma_best_reported_prior(replies);
                    let i = choose|i: int|
                        0 <= i < replies.len() && (#[trigger] replies[i]).summary.prior_aggregate
                            == Some(proposal);
                    let request = lemma_reply_in_step(history, run, replies[i]);
                    let sent = lemma_accepted_was_sent(
                        history,
                        replies[i].recorder,
                        run.step.0 - 1,
                        proposal,
                    );
                } else {
                    assert(run.step.0 != 4);
                }
            } else {
                let ahead = proposer::furthest_reply(replies);
                if ahead is Some && ahead->0.summary.step.0 > run.step.0 {
                    lemma_furthest_reply(replies);
                    let i = choose|i: int|
                        0 <= i < replies.len() && #[trigger] replies[i] == ahead->0;
                    let sent = lemma_reported_first_was_sent(history, run, replies[i], proposal);
                } else if run.step.0 == 4 {
                    let i = choose|i: int|
                        0 <= i < events.len() && #[trigger] begins(events[i], run.proposal)
                            && events[i]->Begin_0.leader == run.leader && events[i]->Begin_0.sender
                            == run.sender;
                    assert(begins(events[i], run.continued(step, proposal).proposal));
                }
            }
        },
        _ => {},
    }
}

/// What a run decides was proposed by the replica that the decision names.
proof fn lemma_decision_originates<V>(
    events: Seq<Event<V>>,
    history: SlotHistory<V>,
    run: RunView<V>,
    replies: Seq<RecordReplyView<V>>,
    decision: DecisionView<V>,
)
    requires
        history.sound(),
        accounted_for(events, history),
        history.possible(Event::Conclude(run, replies)),
        run.conclude(replies) == RoundEnd::Decided(decision),
    ensures
        exists|i: int| 0 <= i < events.len() && #[trigger] began_with(events[i], decision),
{
    assert(history.sound_run(run));
    if proposer::reported_decision(replies) is Some {
        lemma_reported_decision(replies);
        let i = choose|i: int|
            0 <= i < replies.len() && (#[trigger] replies[i]).decision
                == proposer::reported_decision(replies);
        let n = lemma_reply_place(history, run, replies[i]);
        assert(history.decided.contains(decision));
    } else {
        let proposal = if run.step.0 % 4 == 0 {
            let winner = proposer::fast_path(run.step, replies, run.leader)->0;
            let sent = lemma_reported_first_was_sent(history, run, replies[0], winner);
            winner
        } else {
            run.proposal
        };
        assert(originates(events, proposal));
        let i = choose|i: int|
            0 <= i < events.len() && #[trigger] begins(events[i], proposal) && (
            proposal.key.priority.0 == u64::MAX ==> leads(events[i]->Begin_0));
        assert(began_with(events[i], decision));
    }
}

/// Keys of proposals from runs that were begun are unambiguous.
proof fn lemma_accounted_keys<V>(
    events: Seq<Event<V>>,
    sent: Set<RecordRequestView<V>>,
)
    requires
        one_proposal_each(events),
        forall|request: RecordRequestView<V>| #[trigger]
            sent.contains(request) ==> originates(events, request.proposal),
    ensures
        unambiguous(sent),
{
    assert forall|a: RecordRequestView<V>, b: RecordRequestView<V>|
        #![trigger sent.contains(a), sent.contains(b)]
        sent.contains(a) && sent.contains(b) implies {
        &&& a.proposal.key == b.proposal.key ==> a.proposal.value_ids == b.proposal.value_ids
        &&& a.proposal.key.priority.0 == u64::MAX && b.proposal.key.priority.0 == u64::MAX
            && a.proposal.key.proposer_id == b.proposal.key.proposer_id
            ==> a.proposal.key.lane_id == b.proposal.key.lane_id
    } by {
        let i = choose|i: int|
            0 <= i < events.len() && #[trigger] begins(events[i], a.proposal) && (
            a.proposal.key.priority.0 == u64::MAX ==> leads(events[i]->Begin_0));
        let j = choose|j: int|
            0 <= j < events.len() && #[trigger] begins(events[j], b.proposal) && (
            b.proposal.key.priority.0 == u64::MAX ==> leads(events[j]->Begin_0));
        assert(events[i] is Begin && events[j] is Begin);
    }
}

/// Fewer events have no more proposals.
proof fn lemma_fewer_proposals<V>(events: Seq<Event<V>>)
    requires
        one_proposal_each(events),
        events.len() > 0,
    ensures
        one_proposal_each(events.drop_last()),
{
    let earlier = events.drop_last();
    assert forall|i: int, j: int|
        #![trigger earlier[i], earlier[j]]
        0 <= i < earlier.len() && 0 <= j < earlier.len() implies match (earlier[i], earlier[j]) {
        (Event::Begin(a), Event::Begin(b)) => a.sender == b.sender ==> {
            &&& a.proposal.key.lane_id == b.proposal.key.lane_id ==> a.proposal.value_ids
                == b.proposal.value_ids
            &&& leads(a) && leads(b) ==> a.proposal.key.lane_id == b.proposal.key.lane_id
        },
        _ => true,
    } by {
        assert(events[i] == earlier[i] && events[j] == earlier[j]);
    }
}

/// All that happened comes from runs that were begun.
proof fn lemma_possible_is_accounted_for<V>(history: SlotHistory<V>, events: Seq<Event<V>>)
    requires
        history.initial(),
        history.all_possible(events),
    ensures
        accounted_for(events, history.after_all(events)),
    decreases events.len(),
{
    if events.len() > 0 {
        let earlier = events.drop_last();
        let event = events.last();
        lemma_possible_is_accounted_for(history, earlier);
        lemma_history_is_sound(history, earlier);
        let before = history.after_all(earlier);
        assert(earlier.push(event) =~= events);
        lemma_more_events(earlier, event, before);
        match event {
            Event::Begin(run) => {
                assert(events[events.len() - 1] == event);
                assert(begins(events[events.len() - 1], run.proposal));
            },
            Event::Send(run, drawn) => {
                lemma_request_originates(events, before, run, drawn);
            },
            Event::Conclude(run, replies) => {
                lemma_continuation_originates(events, before, run, replies);
                if let RoundEnd::Decided(decision) = run.conclude(replies) {
                    lemma_decision_originates(events, before, run, replies, decision);
                }
            },
            _ => {},
        }
    }
}

proof fn lemma_all_accounted_for<V>(history: SlotHistory<V>, events: Seq<Event<V>>)
    requires
        history.initial(),
        history.all_feasible(events),
        one_proposal_each(events),
    ensures
        history.all_possible(events),
        accounted_for(events, history.after_all(events)),
    decreases events.len(),
{
    if events.len() > 0 {
        let earlier = events.drop_last();
        let event = events.last();
        lemma_fewer_proposals(events);
        lemma_all_accounted_for(history, earlier);
        lemma_history_is_sound(history, earlier);
        let before = history.after_all(earlier);
        assert(earlier.push(event) =~= events);
        lemma_more_events(earlier, event, before);
        match event {
            Event::Send(run, drawn) => {
                lemma_request_originates(events, before, run, drawn);
                lemma_accounted_keys(events, before.sent.insert(run.request(drawn)));
            },
            _ => {},
        }
    }
    lemma_possible_is_accounted_for(history, events);
}

/// Proposers that propose one list of values on a lane, and lead on one lane,
/// keep the keys of a slot's proposals unambiguous: whatever else can happen is
/// possible.
pub proof fn keys_stay_unambiguous<V>(history: SlotHistory<V>, events: Seq<Event<V>>)
    requires
        history.initial(),
        history.all_feasible(events),
        one_proposal_each(events),
    ensures
        history.all_possible(events),
        unambiguous(history.after_all(events).sent),
{
    lemma_all_accounted_for(history, events);
    lemma_history_is_sound(history, events);
}

/// What holds of the history after possible events.
pub proof fn lemma_reached<V>(history: SlotHistory<V>, events: Seq<Event<V>>)
    requires
        history.initial(),
        history.all_possible(events),
    ensures
        ({
            let after = history.after_all(events);
            &&& after.cluster == history.cluster
            &&& after.electors == history.electors
            &&& after.slot == history.slot
            &&& after.recorders.dom() == history.recorders.dom()
            &&& forall|id: ReplicaId| #[trigger]
                after.recorders.dom().contains(id) ==> after.recorders[id].id == id
            &&& forall|run: RunView<V>| #[trigger]
                after.runs.contains(run) ==> run.slot == after.slot && after.made(
                    run.known_decisions,
                )
        }),
    decreases events.len(),
{
    lemma_history_is_sound(history, events);
    let after = history.after_all(events);
    if events.len() > 0 {
        lemma_reached(history, events.drop_last());
        let before = history.after_all(events.drop_last());
        assert(after.recorders.dom() =~= before.recorders.dom());
    }
    assert forall|id: ReplicaId| #[trigger] after.recorders.dom().contains(
        id,
    ) implies after.recorders[id].id == id by {
        assert(after.logs.dom().contains(id));
        assert(after.sound_recorder(id));
    }
    assert forall|run: RunView<V>| #[trigger] after.runs.contains(run) implies run.slot
        == after.slot && after.made(run.known_decisions) by {
        assert(after.sound_run(run));
    }
}

/// Validity of the whole decision: it names a replica that began a run with
/// exactly the decided values, on the fast path and in every later round alike.
pub proof fn decisions_name_their_proposer<V>(
    history: SlotHistory<V>,
    events: Seq<Event<V>>,
    decision: DecisionView<V>,
)
    requires
        history.initial(),
        history.all_possible(events),
        history.after_all(events).decided.contains(decision),
    ensures
        exists|i: int|
            0 <= i < events.len() && (#[trigger] events[i] matches Event::Begin(run) && run.sender
                == decision.proposer && run.proposal.value_ids == decision.value_ids),
{
    lemma_possible_is_accounted_for(history, events);
    let i = choose|i: int| 0 <= i < events.len() && #[trigger] began_with(events[i], decision);
    assert(events[i] is Begin);
}

/// Whether a request has a recorder take in, at the step of a decision, the
/// decided values as a proposal of the replica that the decision names.
pub open spec fn asks_for<V>(request: RecordRequestView<V>, decision: DecisionView<V>) -> bool {
    &&& request.slot == decision.slot
    &&& request.step == decision.decided_step
    &&& request.proposal.key.proposer_id == decision.proposer
    &&& request.proposal.value_ids == decision.value_ids
}

/// A decision's step is one at which a quorum recorded it: the first step of the
/// first round, or the third of a later one. Each of the voters recorded a
/// proposal with the decided values, of the replica that the decision names, at
/// that step.
pub proof fn decisions_were_recorded<V>(
    history: SlotHistory<V>,
    events: Seq<Event<V>>,
    decision: DecisionView<V>,
) -> (voters: Set<ReplicaId>)
    requires
        history.initial(),
        history.all_possible(events),
        history.after_all(events).decided.contains(decision),
    ensures
        decision.slot == history.slot,
        decision.decided_step.0 == 4 || (decision.decided_step.0 > 4 && decision.decided_step.0 % 4
            == 2),
        history.is_quorum(voters),
        forall|id: ReplicaId| #[trigger]
            voters.contains(id) ==> exists|i: int|
                0 <= i < history.after_all(events).logs[id].len() && #[trigger] asks_for(
                    history.after_all(events).logs[id][i],
                    decision,
                ),
{
    let after = history.after_all(events);
    lemma_history_is_sound(history, events);
    lemma_reached(history, events);
    assert(after.justified(decision));
    let step = decision.decided_step.0 as int;
    if exists|voters: Set<ReplicaId>, proposal: ProposalView<V>| #[trigger]
        after.slow_decision(voters, step, proposal) && authored(proposal) == credited(decision) {
        let (voters, proposal) = choose|voters: Set<ReplicaId>, proposal: ProposalView<V>|
            #[trigger]
            after.slow_decision(voters, step, proposal) && authored(proposal) == credited(decision);
        assert forall|id: ReplicaId| #[trigger] voters.contains(id) implies exists|i: int|
            0 <= i < after.logs[id].len() && #[trigger] asks_for(after.logs[id][i], decision) by {
            let i = lemma_recorded_at(after, id, step, proposal);
            assert(asks_for(after.logs[id][i], decision));
        }
        voters
    } else {
        let (voters, proposal) = choose|voters: Set<ReplicaId>, proposal: ProposalView<V>|
            #[trigger]
            after.fast_decision(voters, proposal) && authored(proposal) == credited(decision);
        let decided = lemma_fast_decision_was_sent(after, voters, proposal);
        assert forall|id: ReplicaId| #[trigger] voters.contains(id) implies exists|i: int|
            0 <= i < after.logs[id].len() && #[trigger] asks_for(after.logs[id][i], decision) by {
            let first = register_log::first_at(after.logs[id], 4)->0;
            register_log::lemma_first_is_accepted(after.logs[id], 4);
            let sent = lemma_accepted_was_sent(after, id, 4, first);
            assert(sent.proposal.key == decided.proposal.key);
            let i = lemma_recorded_at(after, id, 4, first);
            assert(asks_for(after.logs[id][i], decision));
        }
        voters
    }
}

/// A proposal that a log took in at a step is in one of its requests.
proof fn lemma_recorded_at<V>(
    history: SlotHistory<V>,
    id: ReplicaId,
    step: int,
    proposal: ProposalView<V>,
) -> (i: int)
    requires
        history.sound(),
        history.logs.dom().contains(id),
        register_log::accepts(history.logs[id], step, proposal),
    ensures
        0 <= i < history.logs[id].len(),
        history.logs[id][i].step.0 == step,
        history.logs[id][i].slot == history.slot,
        history.logs[id][i].proposal == proposal,
{
    let log = history.logs[id];
    register_log::lemma_accepted_is_logged(log, step, proposal);
    let i = choose|i: int|
        0 <= i < log.len() && (#[trigger] log[i]).step.0 == step && log[i].proposal == proposal;
    assert(history.sound_recorder(id));
    assert(history.sent.contains(log[i]));
    assert(history.sound_request(log[i]));
    i
}

} // verus!
