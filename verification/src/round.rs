//! The rounds of a proposal, over endpoints that are called one after the other.

use crate::cluster::{ClusterView, RecordReply, RecordReplyView};
use crate::error;
use crate::error::{ErrorView, QuePaxaError, Result};
use crate::key::Key;
use crate::proposer;
use crate::proposer::{
    PrioritySource, ProposalRun, ProposerCore, RecorderClient, RecorderHandle, RoundEnd, RunView,
};
use crate::quorum;
use crate::quorum::{CollectorView, QuorumCollector};
use crate::types;
use crate::types::{Decision, DecisionView, RecordRequest, RecordRequestView, ReplicaId, SlotIndex};
use vstd::prelude::*;

verus! {

/// The identities of endpoints, in order.
pub open spec fn handle_ids<C>(recorders: Seq<RecorderHandle<C>>) -> Seq<ReplicaId> {
    recorders.map_values(|handle: RecorderHandle<C>| handle.identity())
}

/// The identities of endpoints, in order.
pub fn identities<C>(recorders: &[RecorderHandle<C>]) -> (ids: Vec<ReplicaId>)
    ensures
        ids@ == handle_ids(recorders@),
{
    let mut ids: Vec<ReplicaId> = Vec::new();
    let mut i: usize = 0;
    while i < recorders.len()
        invariant
            i <= recorders@.len(),
            ids@ =~= handle_ids(recorders@).take(i as int),
        decreases recorders@.len() - i,
    {
        ids.push(recorders[i].id());
        i += 1;
    }
    assert(handle_ids(recorders@).take(i as int) =~= handle_ids(recorders@));
    ids
}

/// A recorder's identity with the result of the request that went to it.
pub type CallView<V> = (ReplicaId, std::result::Result<RecordReplyView<V>, ErrorView>);

/// What calls stand for.
pub open spec fn call_views<V>(calls: Seq<(ReplicaId, Result<RecordReply<V>>)>) -> Seq<
    CallView<V>,
> {
    calls.map_values(
        |call: (ReplicaId, Result<RecordReply<V>>)| (call.0, error::outcome(call.1)),
    )
}

/// Takes in the results of calls in order until they are a quorum.
pub open spec fn gather<V>(
    collector: CollectorView<V>,
    calls: Seq<CallView<V>>,
) -> std::result::Result<CollectorView<V>, ErrorView>
    decreases calls.len(),
{
    if collector.complete() {
        Ok(collector)
    } else if calls.len() == 0 {
        Err(collector.exhausted())
    } else {
        match collector.receive(calls[0].0, calls[0].1) {
            (next, Ok(())) => gather(next, calls.drop_first()),
            (_, Err(refusal)) => Err(refusal),
        }
    }
}

/// The replies to a round's calls that the proposer goes by.
pub open spec fn gathered<V>(
    needed: usize,
    cluster: Option<ClusterView>,
    calls: Seq<CallView<V>>,
) -> std::result::Result<Seq<RecordReplyView<V>>, ErrorView> {
    if calls.len() < needed {
        Err(ErrorView::QuorumNotReached { needed, received: calls.len() as usize })
    } else {
        match gather(
            CollectorView { needed, cluster, pending: calls.len() as usize, replies: Seq::empty() },
            calls,
        ) {
            Ok(collector) => Ok(collector.replies),
            Err(refusal) => Err(refusal),
        }
    }
}

/// Where a round leaves a run, and how it ends: `Ok(Some(..))` decides the slot,
/// `Ok(None)` goes on with another round.
pub open spec fn round_end<V>(
    run: RunView<V>,
    cluster: Option<ClusterView>,
    calls: Seq<CallView<V>>,
) -> (RunView<V>, std::result::Result<Option<DecisionView<V>>, ErrorView>) {
    match gathered(run.quorum, cluster, calls) {
        Err(refusal) => (run, Err(refusal)),
        Ok(replies) => match run.conclude(replies) {
            RoundEnd::Decided(decision) => (run, Ok(Some(decision))),
            RoundEnd::Refused(refusal) => (run, Err(refusal)),
            RoundEnd::Continue(step, proposal) => (run.continued(step, proposal), Ok(None)),
        },
    }
}

/// Whether replies are a quorum, each from another recorder and of the expected
/// membership.
pub open spec fn is_quorum<V>(
    replies: Seq<RecordReplyView<V>>,
    needed: usize,
    cluster: Option<ClusterView>,
) -> bool {
    &&& (CollectorView { needed, cluster, pending: 0, replies }).complete()
    &&& quorum::senders(replies).no_duplicates()
    &&& forall|i: int|
        0 <= i < replies.len() && cluster is Some ==> (#[trigger] replies[i]).cluster == cluster->0
}

/// A proposer goes only by quorums: the replies that a round gathers are one,
/// each was a result of a call, and no recorder is counted twice.
pub proof fn rounds_go_by_quorums<V>(
    needed: usize,
    cluster: Option<ClusterView>,
    calls: Seq<CallView<V>>,
)
    requires
        gathered(needed, cluster, calls) is Ok,
    ensures
        is_quorum(gathered(needed, cluster, calls)->Ok_0, needed, cluster),
        forall|i: int|
            0 <= i < gathered(needed, cluster, calls)->Ok_0.len() ==> calls.contains(
                answered(#[trigger] gathered(needed, cluster, calls)->Ok_0[i]),
            ),
{
    let start = CollectorView {
        needed,
        cluster,
        pending: calls.len() as usize,
        replies: Seq::<RecordReplyView<V>>::empty(),
    };
    lemma_gathers_a_quorum(start, calls, calls);
}

/// The call that a recorder answered with a reply of its own.
pub open spec fn answered<V>(reply: RecordReplyView<V>) -> CallView<V> {
    (reply.recorder, Ok(reply))
}

proof fn lemma_gathers_a_quorum<V>(
    collector: CollectorView<V>,
    calls: Seq<CallView<V>>,
    all: Seq<CallView<V>>,
)
    requires
        gather(collector, calls) is Ok,
        quorum::senders(collector.replies).no_duplicates(),
        forall|i: int|
            0 <= i < collector.replies.len() && collector.cluster is Some ==> (
            #[trigger] collector.replies[i]).cluster == collector.cluster->0,
        forall|i: int|
            0 <= i < collector.replies.len() ==> all.contains(
                answered(#[trigger] collector.replies[i]),
            ),
        forall|i: int| 0 <= i < calls.len() ==> all.contains(#[trigger] calls[i]),
    ensures
        is_quorum(
            gather(collector, calls)->Ok_0.replies,
            collector.needed,
            collector.cluster,
        ),
        forall|i: int|
            0 <= i < gather(collector, calls)->Ok_0.replies.len() ==> all.contains(
                answered(#[trigger] gather(collector, calls)->Ok_0.replies[i]),
            ),
    decreases calls.len(),
{
    if !collector.complete() {
        let (next, accepted) = collector.receive(calls[0].0, calls[0].1);
        quorum::replies_stay_distinct(collector, calls[0].0, calls[0].1);
        assert(all.contains(calls[0]));
        assert forall|i: int| 0 <= i < next.replies.len() implies all.contains(
            answered(#[trigger] next.replies[i]),
        ) by {
            if i < collector.replies.len() {
                assert(next.replies[i] == collector.replies[i]);
            } else {
                assert(answered(next.replies[i]) == calls[0]);
            }
        }
        assert forall|i: int| 0 <= i < calls.drop_first().len() implies all.contains(
            #[trigger] calls.drop_first()[i],
        ) by {
            assert(all.contains(calls[i + 1]));
        }
        lemma_gathers_a_quorum(next, calls.drop_first(), all);
    }
}

/// Whether an endpoint had its part in a round: a free one got the request and
/// answered it, a busy one was left alone.
pub open spec fn took_part<V, C: RecorderClient<V>>(
    before: RecorderHandle<C>,
    request: RecordRequestView<V>,
    result: std::result::Result<RecordReplyView<V>, ErrorView>,
    after: RecorderHandle<C>,
) -> bool {
    if before.busy() {
        after == before
    } else {
        &&& after.identity() == before.identity()
        &&& !after.busy()
        &&& before.endpoint().records(request, result, &after.endpoint())
    }
}

/// Whether every endpoint had its part in a round.
pub open spec fn carried_out<V, C: RecorderClient<V>>(
    before: Seq<RecorderHandle<C>>,
    requests: Seq<RecordRequest<V>>,
    results: Seq<std::result::Result<RecordReplyView<V>, ErrorView>>,
    after: Seq<RecorderHandle<C>>,
) -> bool {
    &&& requests.len() == before.len()
    &&& results.len() == before.len()
    &&& after.len() == before.len()
    &&& forall|i: int|
        0 <= i < before.len() ==> took_part(
            before[i],
            requests[i]@,
            results[i],
            #[trigger] after[i],
        )
}

/// The calls that were made: the results of the endpoints that were free.
pub open spec fn calls_made<V, C>(
    before: Seq<RecorderHandle<C>>,
    results: Seq<std::result::Result<RecordReplyView<V>, ErrorView>>,
) -> Seq<CallView<V>>
    decreases before.len(),
{
    if before.len() == 0 {
        Seq::empty()
    } else {
        let earlier = calls_made(before.drop_last(), results.drop_last());
        if before.last().busy() {
            earlier
        } else {
            earlier.push((before.last().identity(), results.last()))
        }
    }
}

/// Where a proposal stands: the run, the source of its priorities and the
/// endpoints.
#[verifier::ext_equal]
#[verifier::reject_recursive_types(V)]
#[verifier::reject_recursive_types(C)]
#[verifier::reject_recursive_types(R)]
pub struct ProposingView<V, C, R> {
    pub run: RunView<V>,
    pub source: R,
    pub recorders: Seq<RecorderHandle<C>>,
}

/// Whether one round leads from here to there with this end: the requests are
/// made, every free endpoint gets its own, and the results count in order.
#[verifier::opaque]
pub open spec fn round_ran<V, C: RecorderClient<V>, R: PrioritySource>(
    cluster: Option<ClusterView>,
    before: ProposingView<V, C, R>,
    after: ProposingView<V, C, R>,
    end: std::result::Result<Option<DecisionView<V>>, ErrorView>,
) -> bool {
    exists|requests: Result<Vec<RecordRequest<V>>>| #[trigger]
        proposer::made_for(before.run, before.source, requests, after.source) && match requests {
            Err(refusal) => {
                &&& after.recorders == before.recorders
                &&& after.run == before.run
                &&& end == Err::<Option<DecisionView<V>>, ErrorView>(refusal@)
            },
            Ok(list) => exists|
                results: Seq<std::result::Result<RecordReplyView<V>, ErrorView>>,
            | #[trigger]
                carried_out(before.recorders, list@, results, after.recorders) && (
                after.run,
                end,
            ) == round_end(before.run, cluster, calls_made(before.recorders, results)),
        }
}

/// What an optional decision stands for.
pub open spec fn end_view<V>(result: Result<Option<Decision<V>>>) -> std::result::Result<
    Option<DecisionView<V>>,
    ErrorView,
> {
    match result {
        Ok(decision) => Ok(types::option_view(decision)),
        Err(refusal) => Err(refusal@),
    }
}

/// Sends every free endpoint its request, in order.
fn call_all<V: Key, C: RecorderClient<V>>(
    recorders: &mut Vec<RecorderHandle<C>>,
    requests: Vec<RecordRequest<V>>,
) -> (calls: Vec<(ReplicaId, Result<RecordReply<V>>)>)
    requires
        requests@.len() == old(recorders)@.len(),
    ensures
        exists|results: Seq<std::result::Result<RecordReplyView<V>, ErrorView>>| #[trigger]
            carried_out(old(recorders)@, requests@, results, final(recorders)@) && call_views(
                calls@,
            ) == calls_made(old(recorders)@, results),
{
    let ghost all = requests@;
    let ghost start = recorders@;
    let ghost mut results: Seq<std::result::Result<RecordReplyView<V>, ErrorView>> = Seq::empty();
    let mut waiting: Vec<RecordRequest<V>> = requests;
    let mut calls: Vec<(ReplicaId, Result<RecordReply<V>>)> = Vec::new();
    let mut i: usize = 0;
    assert(call_views(calls@) =~= calls_made(start.take(0), results));
    while i < recorders.len()
        invariant
            i <= recorders@.len(),
            start == old(recorders)@,
            recorders@.len() == start.len(),
            all.len() == start.len(),
            waiting@ == all.skip(i as int),
            results.len() == i,
            forall|j: int|
                0 <= j < i ==> took_part(
                    start[j],
                    all[j]@,
                    results[j],
                    #[trigger] recorders@[j],
                ),
            forall|j: int| i <= j < start.len() ==> #[trigger] recorders@[j] == start[j],
            call_views(calls@) == calls_made(start.take(i as int), results),
        decreases recorders@.len() - i,
    {
        let request: RecordRequest<V> = waiting.remove(0);
        assert(request == all[i as int]);
        assert(waiting@ =~= all.skip(i + 1));
        let ghost before = results;
        assert(start.take(i + 1).drop_last() =~= start.take(i as int));
        if recorders[i].is_idle() {
            let id: ReplicaId = recorders[i].id();
            let result: Result<RecordReply<V>> = recorders[i].call_record(request);
            let ghost made = calls@;
            let ghost outcome = error::outcome(result);
            calls.push((id, result));
            proof {
                results = results.push(outcome);
                assert(call_views(calls@) =~= call_views(made).push((id, outcome)));
            }
        } else {
            proof {
                results = results.push(Err(ErrorView::EmptyCluster));
            }
        }
        assert(results.drop_last() =~= before);
        i += 1;
    }
    assert(start.take(i as int) =~= start);
    assert(carried_out(start, all, results, recorders@));
    calls
}

/// Takes in the results of a round's calls until they are a quorum.
#[verifier::loop_isolation(false)]
fn gather_replies<V: Key>(
    calls: Vec<(ReplicaId, Result<RecordReply<V>>)>,
    needed: usize,
    cluster: Option<crate::cluster::ClusterIdentity>,
) -> (replies: Result<Vec<RecordReply<V>>>)
    ensures
        match replies {
            Ok(list) => gathered(needed, types::option_view(cluster), call_views(calls@)) == Ok::<
                Seq<RecordReplyView<V>>,
                ErrorView,
            >(types::list_view(list@)),
            Err(refusal) => gathered(needed, types::option_view(cluster), call_views(calls@))
                == Err::<Seq<RecordReplyView<V>>, ErrorView>(refusal@),
        },
{
    let ghost all = call_views(calls@);
    let mut collector: QuorumCollector<V> = match QuorumCollector::new(
        calls.len(),
        needed,
        cluster,
    ) {
        Ok(collector) => collector,
        Err(refusal) => return Err(refusal),
    };
    let ghost start = collector@;
    let mut waiting: Vec<(ReplicaId, Result<RecordReply<V>>)> = calls;
    while waiting.len() > 0 && !collector.is_complete()
        invariant
            gather(collector@, call_views(waiting@)) == gather(start, all),
        decreases waiting@.len(),
    {
        let ghost held = waiting@;
        let (expected, result): (ReplicaId, Result<RecordReply<V>>) = waiting.remove(0);
        assert(call_views(waiting@) =~= call_views(held).drop_first());
        assert(call_views(held)[0] == (expected, error::outcome(result)));
        match collector.receive(expected, result) {
            Ok(()) => {},
            Err(refusal) => return Err(refusal),
        }
    }
    if !collector.is_complete() {
        return Err(collector.exhausted());
    }
    Ok(collector.into_replies())
}

/// Runs one round of a proposal: every free endpoint gets its request, and the
/// results count in order until they are a quorum. `Ok(Some(..))` decides the
/// slot, `Ok(None)` goes on with another round.
pub fn run_round<V: Key, C: RecorderClient<V>, R: PrioritySource>(
    proposer: &mut ProposerCore<R>,
    run: &mut ProposalRun<V>,
    recorders: &mut Vec<RecorderHandle<C>>,
) -> (end: Result<Option<Decision<V>>>)
    requires
        handle_ids(old(recorders)@) == old(run)@.recorders,
    ensures
        final(proposer)@ == old(proposer)@,
        handle_ids(final(recorders)@) == handle_ids(old(recorders)@),
        final(run)@.recorders == old(run)@.recorders,
        final(run)@.max_steps == old(run)@.max_steps,
        round_ran(
            old(proposer)@.cluster,
            ProposingView {
                run: old(run)@,
                source: old(proposer).source(),
                recorders: old(recorders)@,
            },
            ProposingView {
                run: final(run)@,
                source: final(proposer).source(),
                recorders: final(recorders)@,
            },
            end_view(end),
        ),
{
    let ghost cluster = proposer@.cluster;
    let ghost start = ProposingView {
        run: run@,
        source: proposer.source(),
        recorders: recorders@,
    };
    let ghost before = recorders@;
    let made: Result<Vec<RecordRequest<V>>> = proposer.requests(run);
    let ghost requests = made;
    assert(handle_ids(before).len() == before.len());
    proof {
        reveal(round_ran);
    }
    let list: Vec<RecordRequest<V>> = match made {
        Ok(list) => list,
        Err(refusal) => {
            let end: Result<Option<Decision<V>>> = Err(refusal);
            let ghost now = ProposingView { source: proposer.source(), ..start };
            assert(proposer::made_for(start.run, start.source, requests, now.source));
            assert(round_ran(cluster, start, now, end_view(end)));
            return end;
        },
    };
    let calls: Vec<(ReplicaId, Result<RecordReply<V>>)> = call_all(recorders, list);
    let ghost results = choose|
        results: Seq<std::result::Result<RecordReplyView<V>, ErrorView>>,
    | #[trigger]
        carried_out(before, list@, results, recorders@) && call_views(calls@) == calls_made(
            before,
            results,
        );
    assert(handle_ids(recorders@) =~= handle_ids(before)) by {
        assert forall|k: int| 0 <= k < before.len() implies handle_ids(recorders@)[k]
            == handle_ids(before)[k] by {
            assert(took_part(before[k], list@[k]@, results[k], recorders@[k]));
        }
    }
    let end: Result<Option<Decision<V>>> = match gather_replies(
        calls,
        run.quorum(),
        proposer.expected_cluster(),
    ) {
        Ok(replies) => run.conclude(replies.as_slice()),
        Err(refusal) => Err(refusal),
    };
    let ghost now = ProposingView {
        run: run@,
        source: proposer.source(),
        recorders: recorders@,
    };
    assert(proposer::made_for(start.run, start.source, requests, now.source));
    assert(carried_out(start.recorders, list@, results, now.recorders));
    assert((now.run, end_view(end)) == round_end(
        start.run,
        cluster,
        calls_made(start.recorders, results),
    ));
    assert(round_ran(cluster, start, now, end_view(end)));
    end
}

/// Whether rounds lead from a proposal's start to its end with this outcome:
/// each but the last goes on, and the last one decides or refuses, unless so
/// many rounds moved nothing that they cannot be counted.
pub open spec fn settled<V, C: RecorderClient<V>, R: PrioritySource>(
    cluster: Option<ClusterView>,
    states: Seq<ProposingView<V, C, R>>,
    end: ProposingView<V, C, R>,
    outcome: std::result::Result<DecisionView<V>, ErrorView>,
) -> bool {
    &&& states.len() > 0
    &&& forall|i: int|
        1 <= i < states.len() ==> round_ran(
            cluster,
            states[i - 1],
            #[trigger] states[i],
            Ok(None),
        )
    &&& match outcome {
        Ok(decision) => round_ran(cluster, states.last(), end, Ok(Some(decision))),
        Err(refusal) => round_ran(cluster, states.last(), end, Err(refusal)) || {
            &&& states.len() == u64::MAX + 1
            &&& end == states.last()
            &&& refusal == (ErrorView::StepLimitExceeded { limit: end.run.max_steps })
        },
    }
}

/// Whether a proposal that starts here can end there with this outcome.
pub open spec fn proposed<V, C: RecorderClient<V>, R: PrioritySource>(
    cluster: Option<ClusterView>,
    start: ProposingView<V, C, R>,
    end: ProposingView<V, C, R>,
    outcome: std::result::Result<DecisionView<V>, ErrorView>,
) -> bool {
    exists|states: Seq<ProposingView<V, C, R>>| #[trigger]
        settled(cluster, states, end, outcome) && states[0] == start
}

impl<R: PrioritySource> ProposerCore<R> {
    /// Runs consensus on one slot, round by round, over endpoints that are
    /// called one after the other. `leader` must be the agreed round-one leader,
    /// or `None` for a leaderless first round. A run whose endpoints answer for
    /// as many rounds as can be counted without moving it ends like one that
    /// passed its step limit.
    #[verifier::loop_isolation(false)]
    pub fn propose<V: Key, C: RecorderClient<V>>(
        &mut self,
        slot: SlotIndex,
        value_ids: Vec<V>,
        leader: Option<ReplicaId>,
        recorders: &mut Vec<RecorderHandle<C>>,
        known_decisions: &[Decision<V>],
    ) -> (result: Result<Decision<V>>)
        ensures
            final(self)@ == old(self)@,
            handle_ids(final(recorders)@) == handle_ids(old(recorders)@),
            match proposer::first_round(
                old(self)@,
                slot,
                value_ids@,
                leader,
                handle_ids(old(recorders)@),
                types::list_view(known_decisions@),
            ) {
                Ok(start) => exists|run: RunView<V>| #[trigger]
                    proposed(
                        old(self)@.cluster,
                        ProposingView {
                            run: start,
                            source: old(self).source(),
                            recorders: old(recorders)@,
                        },
                        ProposingView {
                            run,
                            source: final(self).source(),
                            recorders: final(recorders)@,
                        },
                        error::outcome(result),
                    ),
                Err(refusal) => {
                    &&& result matches Err(given) && given@ == refusal
                    &&& final(self).source() == old(self).source()
                    &&& final(recorders)@ == old(recorders)@
                },
            },
    {
        let ids: Vec<ReplicaId> = identities(recorders.as_slice());
        let mut run: ProposalRun<V> = match self.begin(
            slot,
            value_ids,
            leader,
            ids.as_slice(),
            known_decisions,
        ) {
            Ok(run) => run,
            Err(refusal) => return Err(refusal),
        };
        let ghost cluster = self@.cluster;
        let ghost start = ProposingView {
            run: run@,
            source: self.source(),
            recorders: recorders@,
        };
        let ghost mut states: Seq<ProposingView<V, C, R>> = seq![start];
        let mut rounds: u64 = u64::MAX;
        while rounds > 0
            invariant
                self@ == old(self)@,
                cluster == self@.cluster,
                handle_ids(recorders@) == handle_ids(old(recorders)@),
                run@.recorders == handle_ids(recorders@),
                run@.max_steps == start.run.max_steps,
                states.len() == u64::MAX - rounds + 1,
                states[0] == start,
                states.last() == (ProposingView {
                    run: run@,
                    source: self.source(),
                    recorders: recorders@,
                }),
                forall|i: int|
                    1 <= i < states.len() ==> round_ran(
                        cluster,
                        states[i - 1],
                        #[trigger] states[i],
                        Ok(None),
                    ),
            decreases rounds,
        {
            let end: Result<Option<Decision<V>>> = run_round(self, &mut run, recorders);
            let ghost now = ProposingView {
                run: run@,
                source: self.source(),
                recorders: recorders@,
            };
            match end {
                Ok(Some(decision)) => {
                    let result: Result<Decision<V>> = Ok(decision);
                    assert(settled(cluster, states, now, error::outcome(result)));
                    assert(proposed(cluster, start, now, error::outcome(result)));
                    return result;
                },
                Ok(None) => {
                    proof {
                        states = states.push(now);
                    }
                },
                Err(refusal) => {
                    let result: Result<Decision<V>> = Err(refusal);
                    assert(settled(cluster, states, now, error::outcome(result)));
                    assert(proposed(cluster, start, now, error::outcome(result)));
                    return result;
                },
            }
            rounds -= 1;
        }
        let result: Result<Decision<V>> = Err(
            QuePaxaError::StepLimitExceeded { limit: run.max_steps() },
        );
        assert(settled(cluster, states, states.last(), error::outcome(result)));
        assert(proposed(cluster, start, states.last(), error::outcome(result)));
        result
    }
}

} // verus!
