//! Competing proposals: whatever proposers and recorders do for a slot is a
//! history that agreement speaks of.

use crate::agreement;
use crate::agreement::{Event, SlotHistory};
use crate::cluster::{ClusterView, RecordReplyView};
use crate::collections;
use crate::durable;
use crate::durable::{DurableRecorderCore, RecorderStateStore};
use crate::error::ErrorView;
use crate::key::Key;
use crate::proposer;
use crate::proposer::{
    PrioritySource, ProposerView, RecorderClient, RecorderHandle, RunView, XorShift64,
};
use crate::quorum;
use crate::recorder;
use crate::recorder::{RecorderCore, RecorderView};
use crate::round;
use crate::round::{CallView, ProposingView};
use crate::store::ValueAvailability;
use crate::types::{
    DecisionView, Priority, RecordRequest, RecordRequestView, ReplicaId, SlotIndex,
};
use vstd::prelude::*;

verus! {

/// What a call may do to a recorder: serve the request, with the reply or an
/// error in its place, or leave the recorder as it was.
pub open spec fn reached<V>(
    before: RecorderView<V>,
    request: RecordRequestView<V>,
    result: std::result::Result<RecordReplyView<V>, ErrorView>,
    after: RecorderView<V>,
) -> bool {
    ||| after == before && result is Err
    ||| exists|available: std::result::Result<(), ErrorView>|
        {
            let (served, reply) = #[trigger] before.record(request, available);
            after == served && (result == reply || result is Err)
        }
}

/// A recorder of the same process is called like this.
pub proof fn recorders_are_reached<V: Key, A: ValueAvailability<V>>(
    before: &RecorderCore<V, A>,
    request: RecordRequestView<V>,
    result: std::result::Result<RecordReplyView<V>, ErrorView>,
    after: &RecorderCore<V, A>,
)
    requires
        before.records(request, result, after),
    ensures
        reached(before@, request, result, after@),
{
    if before@.admission_error(request) is None {
        let available = choose|available: std::result::Result<(), ErrorView>| #[trigger]
            before.guard().provides(request.proposal.value_ids, available, &after.guard()) && (
                after@,
                result,
            ) == before@.record(request, available);
        let (served, reply) = before@.record(request, available);
        assert(after@ == served && result == reply);
    }
}

/// A durable recorder of the same process is called like this.
pub proof fn durable_recorders_are_reached<
    V: Key,
    S: RecorderStateStore<V>,
    A: ValueAvailability<V>,
>(
    before: &DurableRecorderCore<V, S, A>,
    request: RecordRequestView<V>,
    result: std::result::Result<RecordReplyView<V>, ErrorView>,
    after: &DurableRecorderCore<V, S, A>,
)
    requires
        before.records(request, result, after),
    ensures
        reached(before.recorder(), request, result, after.recorder()),
{
    let (middle, given) = choose|
        middle: RecorderView<V>,
        given: std::result::Result<RecordReplyView<V>, ErrorView>,
    |
        {
            &&& #[trigger] recorder::served(
                before.recorder(),
                before.guard(),
                request,
                middle,
                after.guard(),
                given,
            )
            &&& durable::durably(
                before.recorder(),
                (middle, given),
                before.storage(),
                after.recorder(),
                after.storage(),
                result,
            )
        };
    if before.recorder().admission_error(request) is None {
        let available = choose|available: std::result::Result<(), ErrorView>| #[trigger]
            before.guard().provides(request.proposal.value_ids, available, &after.guard()) && (
                middle,
                given,
            ) == before.recorder().record(request, available);
        let (served, reply) = before.recorder().record(request, available);
        assert(middle == served && given == reply);
    }
}

/// Whether events are a course of one slot in which every proposer keeps to its
/// proposal.
pub open spec fn course<V>(origin: SlotHistory<V>, events: Seq<Event<V>>) -> bool {
    &&& origin.initial()
    &&& origin.all_feasible(events)
    &&& agreement::one_proposal_each(events)
}

/// Whether a course goes on as another, without a further run: nothing that has
/// happened is taken back.
pub open spec fn goes_on<V>(
    origin: SlotHistory<V>,
    events: Seq<Event<V>>,
    later: Seq<Event<V>>,
) -> bool {
    let (before, after) = (origin.after_all(events), origin.after_all(later));
    &&& course(origin, later)
    &&& before.runs.subset_of(after.runs)
    &&& before.answers.subset_of(after.answers)
    &&& before.decided.subset_of(after.decided)
    &&& after.proposed == before.proposed
    &&& forall|i: int|
        0 <= i < later.len() && (#[trigger] later[i]) is Begin ==> events.contains(later[i])
}

/// One more event that begins no run.
proof fn lemma_one_more<V>(origin: SlotHistory<V>, events: Seq<Event<V>>, event: Event<V>)
    requires
        course(origin, events),
        origin.after_all(events).feasible(event),
        !(event is Begin),
    ensures
        goes_on(origin, events, events.push(event)),
        origin.after_all(events.push(event)) == origin.after_all(events).after(event),
{
    let later = events.push(event);
    assert(later.drop_last() =~= events);
    assert(later.last() == event);
    assert(agreement::one_proposal_each(later)) by {
        assert forall|i: int, j: int|
            #![trigger later[i], later[j]]
            0 <= i < later.len() && 0 <= j < later.len() implies match (later[i], later[j]) {
            (Event::Begin(a), Event::Begin(b)) => a.sender == b.sender ==> {
                &&& a.proposal.key.lane_id == b.proposal.key.lane_id ==> a.proposal.value_ids
                    == b.proposal.value_ids
                &&& agreement::leads(a) && agreement::leads(b) ==> a.proposal.key.lane_id
                    == b.proposal.key.lane_id
            },
            _ => true,
        } by {
            if later[i] is Begin && later[j] is Begin {
                assert(later[i] == events[i] && later[j] == events[j]);
            }
        }
    }
    assert forall|i: int|
        0 <= i < later.len() && (#[trigger] later[i]) is Begin implies events.contains(
        later[i],
    ) by {
        assert(later[i] == events[i]);
    }
}

/// Going on twice is going on.
proof fn lemma_goes_on<V>(
    origin: SlotHistory<V>,
    events: Seq<Event<V>>,
    middle: Seq<Event<V>>,
    later: Seq<Event<V>>,
)
    requires
        goes_on(origin, events, middle),
        goes_on(origin, middle, later),
    ensures
        goes_on(origin, events, later),
{
    assert forall|i: int|
        0 <= i < later.len() && (#[trigger] later[i]) is Begin implies events.contains(
        later[i],
    ) by {
        let k = choose|k: int| 0 <= k < middle.len() && middle[k] == later[i];
        assert(middle[k] is Begin);
    }
}

proof fn lemma_stays<V>(origin: SlotHistory<V>, events: Seq<Event<V>>)
    requires
        course(origin, events),
    ensures
        goes_on(origin, events, events),
{
    assert forall|i: int|
        0 <= i < events.len() && (#[trigger] events[i]) is Begin implies events.contains(
        events[i],
    ) by {}
}

/// What was answered stays answered.
proof fn lemma_answered_still<V>(
    origin: SlotHistory<V>,
    events: Seq<Event<V>>,
    later: Seq<Event<V>>,
    run: RunView<V>,
    reply: RecordReplyView<V>,
)
    requires
        goes_on(origin, events, later),
        origin.after_all(events).answered(run, reply),
    ensures
        origin.after_all(later).answered(run, reply),
{
    let before = origin.after_all(events);
    let request = choose|request: RecordRequestView<V>|
        run.asks(request) && #[trigger] before.answers.contains((request, reply));
    assert(origin.after_all(later).answers.contains((request, reply)));
}

/// A call of a run's request is part of a course.
proof fn lemma_call<V>(
    origin: SlotHistory<V>,
    events: Seq<Event<V>>,
    run: RunView<V>,
    drawn: Priority,
    id: ReplicaId,
    result: std::result::Result<RecordReplyView<V>, ErrorView>,
    recorder: RecorderView<V>,
) -> (later: Seq<Event<V>>)
    requires
        course(origin, events),
        origin.after_all(events).runs.contains(run),
        drawn.0 < u64::MAX,
        origin.after_all(events).recorders.dom().contains(id),
        reached(origin.after_all(events).recorders[id], run.request(drawn), result, recorder),
    ensures
        goes_on(origin, events, later),
        origin.after_all(later).recorders == origin.after_all(events).recorders.insert(
            id,
            recorder,
        ),
        result matches Ok(reply) ==> origin.after_all(later).answered(run, reply),
{
    let before = origin.after_all(events);
    let request = run.request(drawn);
    agreement::keys_stay_unambiguous(origin, events);
    agreement::lemma_reached(origin, events);
    if recorder == before.recorders[id] && result is Err {
        lemma_stays(origin, events);
        assert(before.recorders.insert(id, recorder) =~= before.recorders);
        events
    } else {
        let available = choose|available: std::result::Result<(), ErrorView>|
            {
                let (served, reply) = #[trigger] before.recorders[id].record(request, available);
                recorder == served && (result == reply || result is Err)
            };
        let send = Event::Send(run, drawn);
        let sent = events.push(send);
        lemma_one_more(origin, events, send);
        let asked = origin.after_all(sent);
        let deliver = Event::Deliver(id, request, available);
        assert(asked.made(request.known_decisions)) by {
            assert(asked.decided == before.decided);
        }
        lemma_one_more(origin, sent, deliver);
        let later = sent.push(deliver);
        lemma_goes_on(origin, events, sent, later);
        if result is Ok {
            let reply = result->Ok_0;
            assert(run.asks(request));
            assert(origin.after_all(later).answers.contains((request, reply)));
        }
        later
    }
}

/// Whether a proposer's quorums are of one kind with the others': a membership
/// that it was given is the recorders' own, and one without goes by its recorders,
/// who are the electors. A stable membership's quorums are majorities of its
/// members, so both kinds may meet there.
pub open spec fn joins<V>(
    cluster: ClusterView,
    electors: Option<Set<ReplicaId>>,
    membership: Option<ClusterView>,
    run: RunView<V>,
) -> bool {
    match membership {
        Some(expected) => {
            &&& expected == cluster
            &&& electors matches Some(electors) ==> cluster.joint is None && electors
                == cluster.members.to_set()
        },
        None => electors == Some(run.recorders.to_set()),
    }
}

/// Whether a run goes by quorums that meet the others'.
pub open spec fn counts_alike<V>(
    cluster: ClusterView,
    electors: Option<Set<ReplicaId>>,
    membership: Option<ClusterView>,
    run: RunView<V>,
) -> bool {
    &&& joins(cluster, electors, membership, run)
    &&& membership is None ==> run.recorders.no_duplicates() && 2 * run.quorum
        > run.recorders.len()
}

/// The replies that a proposer goes by are a quorum.
proof fn lemma_quorum_is_gathered<V>(
    origin: SlotHistory<V>,
    membership: Option<ClusterView>,
    run: RunView<V>,
    calls: Seq<CallView<V>>,
)
    requires
        origin.cluster.valid(),
        counts_alike(origin.cluster, origin.electors, membership, run),
        round::gathered(run.quorum, membership, calls) is Ok,
        forall|i: int| 0 <= i < calls.len() ==> run.recorders.contains((#[trigger] calls[i]).0),
    ensures
        origin.is_quorum(
            quorum::senders(round::gathered(run.quorum, membership, calls)->Ok_0).to_set(),
        ),
{
    let replies = round::gathered(run.quorum, membership, calls)->Ok_0;
    let senders = quorum::senders(replies);
    round::rounds_go_by_quorums(run.quorum, membership, calls);
    senders.unique_seq_to_set();
    match membership {
        Some(cluster) => {
            collections::lemma_ascending_distinct(cluster.members);
        },
        None => {
            run.recorders.unique_seq_to_set();
            assert forall|id: ReplicaId| senders.to_set().contains(
                id,
            ) implies run.recorders.to_set().contains(id) by {
                let k = choose|k: int| 0 <= k < senders.len() && senders[k] == id;
                assert(calls.contains(round::answered(replies[k])));
                let i = choose|i: int|
                    0 <= i < calls.len() && calls[i] == round::answered(replies[k]);
                assert(run.recorders.contains(calls[i].0));
            }
        },
    }
}

/// The end of a round is part of a course.
proof fn lemma_conclude<V>(
    origin: SlotHistory<V>,
    events: Seq<Event<V>>,
    membership: Option<ClusterView>,
    run: RunView<V>,
    calls: Seq<CallView<V>>,
) -> (later: Seq<Event<V>>)
    requires
        course(origin, events),
        origin.after_all(events).runs.contains(run),
        counts_alike(origin.cluster, origin.electors, membership, run),
        forall|i: int| 0 <= i < calls.len() ==> run.recorders.contains((#[trigger] calls[i]).0),
        forall|reply: RecordReplyView<V>|
            calls.contains(#[trigger] round::answered(reply)) ==> origin.after_all(
                events,
            ).answered(run, reply),
    ensures
        goes_on(origin, events, later),
        origin.after_all(later).recorders == origin.after_all(events).recorders,
        ({
            let (next, end) = round::round_end(run, membership, calls);
            let after = origin.after_all(later);
            &&& end == Ok::<Option<DecisionView<V>>, ErrorView>(None) ==> after.runs.contains(next)
            &&& end matches Ok(Some(decision)) ==> after.decided.contains(decision)
        }),
{
    let before = origin.after_all(events);
    agreement::keys_stay_unambiguous(origin, events);
    agreement::lemma_reached(origin, events);
    match round::gathered(run.quorum, membership, calls) {
        Err(_) => {
            lemma_stays(origin, events);
            events
        },
        Ok(replies) => {
            round::rounds_go_by_quorums(run.quorum, membership, calls);
            lemma_quorum_is_gathered(before, membership, run, calls);
            let conclude = Event::Conclude(run, replies);
            assert forall|i: int| 0 <= i < replies.len() implies before.answered(
                run,
                #[trigger] replies[i],
            ) by {
                assert(calls.contains(round::answered(replies[i])));
            }
            lemma_one_more(origin, events, conclude);
            events.push(conclude)
        },
    }
}

/// A run that begins is part of a course, as long as its proposer keeps to its
/// proposal.
proof fn lemma_begin<V>(origin: SlotHistory<V>, events: Seq<Event<V>>, run: RunView<V>)
    requires
        course(origin, events),
        origin.after_all(events).feasible(Event::Begin(run)),
        agreement::one_proposal_each(events.push(Event::Begin(run))),
    ensures
        ({
            let later = events.push(Event::Begin(run));
            let (before, after) = (origin.after_all(events), origin.after_all(later));
            &&& course(origin, later)
            &&& after == before.after(Event::Begin(run))
        }),
{
    let later = events.push(Event::Begin(run));
    assert(later.drop_last() =~= events);
    assert(later.last() == Event::Begin(run));
}

/// Whether a source draws priorities below the reserved one.
pub open spec fn draws_below<R: PrioritySource>() -> bool {
    forall|before: R, drawn: Priority, after: R| #[trigger]
        before.draws(Priority(u64::MAX), Ok(drawn), &after) ==> drawn.0 < u64::MAX
}

/// The deterministic source draws below the reserved priority.
pub proof fn seeded_sources_draw_below()
    ensures
        draws_below::<XorShift64>(),
{
}

/// Whether a history has the recorders behind endpoints as they are.
pub open spec fn stands_at<V: Key, A: ValueAvailability<V>>(
    history: SlotHistory<V>,
    recorders: Seq<RecorderHandle<RecorderCore<V, A>>>,
) -> bool {
    &&& forall|i: int|
        0 <= i < recorders.len() ==> {
            let id = (#[trigger] recorders[i]).identity();
            history.recorders.dom().contains(id) && history.recorders[id]
                == recorders[i].endpoint()@
        }
    &&& round::handle_ids(recorders).no_duplicates()
}

/// Endpoints of which the first have had their part in a round.
spec fn partly<C>(
    before: Seq<RecorderHandle<C>>,
    after: Seq<RecorderHandle<C>>,
    n: int,
) -> Seq<RecorderHandle<C>> {
    after.take(n) + before.skip(n)
}

/// The calls of a round are part of a course.
proof fn lemma_calls<V: Key, A: ValueAvailability<V>>(
    origin: SlotHistory<V>,
    events: Seq<Event<V>>,
    run: RunView<V>,
    before: Seq<RecorderHandle<RecorderCore<V, A>>>,
    requests: Seq<RecordRequest<V>>,
    drawn: Seq<Priority>,
    results: Seq<std::result::Result<RecordReplyView<V>, ErrorView>>,
    after: Seq<RecorderHandle<RecorderCore<V, A>>>,
    n: int,
) -> (later: Seq<Event<V>>)
    requires
        course(origin, events),
        origin.after_all(events).runs.contains(run),
        stands_at(origin.after_all(events), before),
        round::carried_out(before, requests, results, after),
        drawn.len() == requests.len(),
        forall|i: int|
            0 <= i < requests.len() ==> (#[trigger] requests[i])@ == run.request(drawn[i])
                && drawn[i].0 < u64::MAX,
        0 <= n <= before.len(),
    ensures
        goes_on(origin, events, later),
        stands_at(origin.after_all(later), partly(before, after, n)),
        forall|i: int|
            #![trigger results[i]]
            0 <= i < n && !before[i].busy() && results[i] is Ok ==> origin.after_all(
                later,
            ).answered(run, results[i]->Ok_0),
    decreases n,
{
    if n == 0 {
        lemma_stays(origin, events);
        assert(partly(before, after, 0) =~= before);
        events
    } else {
        let k = n - 1;
        let earlier = lemma_calls(
            origin,
            events,
            run,
            before,
            requests,
            drawn,
            results,
            after,
            k,
        );
        let held = partly(before, after, k);
        let next = partly(before, after, n);
        let history = origin.after_all(earlier);
        assert(held[k] == before[k]);
        assert(next =~= held.update(k, after[k]));
        assert(round::took_part(before[k], requests[k]@, results[k], after[k]));
        assert(after[k].identity() == before[k].identity());
        assert(round::handle_ids(next) =~= round::handle_ids(held));
        if before[k].busy() {
            assert(next =~= held);
            earlier
        } else {
            let id = before[k].identity();
            assert(requests[k]@ == run.request(drawn[k]));
            recorders_are_reached(
                &before[k].endpoint(),
                requests[k]@,
                results[k],
                &after[k].endpoint(),
            );
            let later = lemma_call(
                origin,
                earlier,
                run,
                drawn[k],
                id,
                results[k],
                after[k].endpoint()@,
            );
            lemma_goes_on(origin, events, earlier, later);
            assert forall|i: int| 0 <= i < next.len() implies {
                let id = (#[trigger] next[i]).identity();
                origin.after_all(later).recorders.dom().contains(id) && origin.after_all(
                    later,
                ).recorders[id] == next[i].endpoint()@
            } by {
                if i != k {
                    assert(next[i] == held[i]);
                    let ids = round::handle_ids(held);
                    assert(ids[i] != ids[k]);
                    assert(ids[i] == held[i].identity() && ids[k] == held[k].identity());
                }
            }
            assert forall|i: int|
                #![trigger results[i]]
                0 <= i < n && !before[i].busy() && results[i] is Ok implies origin.after_all(
                later,
            ).answered(run, results[i]->Ok_0) by {
                if i < k {
                    lemma_answered_still(origin, earlier, later, run, results[i]->Ok_0);
                }
            }
            later
        }
    }
}

/// A call that was made is one of an endpoint's.
proof fn lemma_made_by<V, C>(
    before: Seq<RecorderHandle<C>>,
    results: Seq<std::result::Result<RecordReplyView<V>, ErrorView>>,
    call: CallView<V>,
) -> (i: int)
    requires
        results.len() == before.len(),
        round::calls_made(before, results).contains(call),
    ensures
        0 <= i < before.len(),
        !before[i].busy(),
        call == (before[i].identity(), results[i]),
    decreases before.len(),
{
    let made = round::calls_made(before, results);
    let k = choose|k: int| 0 <= k < made.len() && made[k] == call;
    assert(before.len() > 0);
    let earlier = round::calls_made(before.drop_last(), results.drop_last());
    if k < earlier.len() {
        assert(earlier[k] == call);
        let i = lemma_made_by(before.drop_last(), results.drop_last(), call);
        i
    } else {
        before.len() - 1
    }
}

/// A round that a proposer runs over its recorders goes on with the slot's
/// course: its requests are sent and served, and what its run becomes or decides
/// is what the course has.
pub proof fn rounds_are_possible<V: Key, A: ValueAvailability<V>, R: PrioritySource>(
    origin: SlotHistory<V>,
    events: Seq<Event<V>>,
    membership: Option<ClusterView>,
    before: ProposingView<V, RecorderCore<V, A>, R>,
    after: ProposingView<V, RecorderCore<V, A>, R>,
    end: std::result::Result<Option<DecisionView<V>>, ErrorView>,
) -> (later: Seq<Event<V>>)
    requires
        course(origin, events),
        origin.after_all(events).runs.contains(before.run),
        stands_at(origin.after_all(events), before.recorders),
        counts_alike(origin.cluster, origin.electors, membership, before.run),
        before.run.recorders == round::handle_ids(before.recorders),
        draws_below::<R>(),
        round::round_ran(membership, before, after, end),
    ensures
        goes_on(origin, events, later),
        stands_at(origin.after_all(later), after.recorders),
        counts_alike(origin.cluster, origin.electors, membership, after.run),
        after.run.recorders == round::handle_ids(after.recorders),
        end == Ok::<Option<DecisionView<V>>, ErrorView>(None) ==> origin.after_all(
            later,
        ).runs.contains(after.run),
        end matches Ok(Some(decision)) ==> origin.after_all(later).decided.contains(decision),
{
    reveal(round::round_ran);
    let run = before.run;
    let requests = choose|requests: crate::error::Result<Vec<RecordRequest<V>>>| #[trigger]
        proposer::made_for(before.run, before.source, requests, after.source) && match requests {
            Err(refusal) => {
                &&& after.recorders == before.recorders
                &&& after.run == before.run
                &&& end == Err::<Option<DecisionView<V>>, ErrorView>(refusal@)
            },
            Ok(list) => exists|
                results: Seq<std::result::Result<RecordReplyView<V>, ErrorView>>,
            | #[trigger]
                round::carried_out(before.recorders, list@, results, after.recorders) && (
                after.run,
                end,
            ) == round::round_end(
                before.run,
                membership,
                round::calls_made(before.recorders, results),
            ),
        };
    match requests {
        Err(_) => {
            lemma_stays(origin, events);
            events
        },
        Ok(list) => {
            let results = choose|
                results: Seq<std::result::Result<RecordReplyView<V>, ErrorView>>,
            | #[trigger]
                round::carried_out(before.recorders, list@, results, after.recorders) && (
                after.run,
                end,
            ) == round::round_end(
                before.run,
                membership,
                round::calls_made(before.recorders, results),
            );
            let drawn = lemma_drawn(run, before.source, requests, after.source);
            let count = before.recorders.len() as int;
            let called = lemma_calls(
                origin,
                events,
                run,
                before.recorders,
                list@,
                drawn,
                results,
                after.recorders,
                count,
            );
            assert(partly(before.recorders, after.recorders, count) =~= after.recorders);
            assert(round::handle_ids(after.recorders) =~= round::handle_ids(before.recorders)) by {
                assert forall|i: int| 0 <= i < before.recorders.len() implies (
                #[trigger] after.recorders[i]).identity() == before.recorders[i].identity() by {}
            }
            let calls = round::calls_made(before.recorders, results);
            assert forall|reply: RecordReplyView<V>|
                calls.contains(#[trigger] round::answered(reply)) implies origin.after_all(
                called,
            ).answered(run, reply) by {
                let i = lemma_made_by(before.recorders, results, round::answered(reply));
                assert(results[i] == Ok::<RecordReplyView<V>, ErrorView>(reply));
            }
            assert forall|i: int| 0 <= i < calls.len() implies run.recorders.contains(
                (#[trigger] calls[i]).0,
            ) by {
                assert(calls.contains(calls[i]));
                let k = lemma_made_by(before.recorders, results, calls[i]);
                assert(run.recorders[k] == calls[i].0);
            }
            let later = lemma_conclude(origin, called, membership, run, calls);
            lemma_goes_on(origin, events, called, later);
            later
        },
    }
}

/// The priorities that a step's requests go out with.
proof fn lemma_drawn<V, R: PrioritySource>(
    run: RunView<V>,
    before: R,
    requests: crate::error::Result<Vec<RecordRequest<V>>>,
    after: R,
) -> (drawn: Seq<Priority>)
    requires
        draws_below::<R>(),
        proposer::made_for(run, before, requests, after),
        requests is Ok,
    ensures
        drawn.len() == requests->Ok_0@.len(),
        forall|i: int|
            0 <= i < requests->Ok_0@.len() ==> (#[trigger] requests->Ok_0@[i])@ == run.request(
                drawn[i],
            ) && drawn[i].0 < u64::MAX,
{
    let list = requests->Ok_0@;
    if !run.draws_priorities() {
        let drawn = Seq::new(list.len(), |i: int| Priority(0));
        assert forall|i: int| 0 <= i < list.len() implies (#[trigger] list[i])@ == run.request(
            drawn[i],
        ) && drawn[i].0 < u64::MAX by {}
        drawn
    } else {
        let (states, priorities) = choose|states: Seq<R>, priorities: Seq<Priority>| #[trigger]
            proposer::drew(states, priorities) && states[0] == before && states.last() == after
                && proposer::requests_with_priorities(run, priorities, list);
        assert forall|i: int| 0 <= i < list.len() implies (#[trigger] list[i])@ == run.request(
            priorities[i],
        ) && priorities[i].0 < u64::MAX by {
            let drawn = priorities[i];
            assert(states[i].draws(Priority(u64::MAX), Ok(drawn), &states[i + 1]));
        }
        priorities
    }
}

/// The first rounds of a proposal are part of a course.
proof fn lemma_rounds<V: Key, A: ValueAvailability<V>, R: PrioritySource>(
    origin: SlotHistory<V>,
    events: Seq<Event<V>>,
    membership: Option<ClusterView>,
    states: Seq<ProposingView<V, RecorderCore<V, A>, R>>,
    n: int,
) -> (later: Seq<Event<V>>)
    requires
        course(origin, events),
        0 <= n < states.len(),
        origin.after_all(events).runs.contains(states[0].run),
        stands_at(origin.after_all(events), states[0].recorders),
        counts_alike(origin.cluster, origin.electors, membership, states[0].run),
        states[0].run.recorders == round::handle_ids(states[0].recorders),
        draws_below::<R>(),
        forall|i: int|
            1 <= i < states.len() ==> round::round_ran(
                membership,
                states[i - 1],
                #[trigger] states[i],
                Ok(None),
            ),
    ensures
        goes_on(origin, events, later),
        origin.after_all(later).runs.contains(states[n].run),
        stands_at(origin.after_all(later), states[n].recorders),
        counts_alike(origin.cluster, origin.electors, membership, states[n].run),
        states[n].run.recorders == round::handle_ids(states[n].recorders),
    decreases n,
{
    if n == 0 {
        lemma_stays(origin, events);
        events
    } else {
        let earlier = lemma_rounds(origin, events, membership, states, n - 1);
        assert(round::round_ran(membership, states[n - 1], states[n], Ok(None)));
        let later = rounds_are_possible(
            origin,
            earlier,
            membership,
            states[n - 1],
            states[n],
            Ok(None),
        );
        lemma_goes_on(origin, events, earlier, later);
        later
    }
}

/// A proposal that a proposer makes over its recorders goes on with the slot's
/// course, and what it decides is decided there.
pub proof fn proposals_are_possible<V: Key, A: ValueAvailability<V>, R: PrioritySource>(
    origin: SlotHistory<V>,
    events: Seq<Event<V>>,
    membership: Option<ClusterView>,
    start: ProposingView<V, RecorderCore<V, A>, R>,
    end: ProposingView<V, RecorderCore<V, A>, R>,
    outcome: std::result::Result<DecisionView<V>, ErrorView>,
) -> (later: Seq<Event<V>>)
    requires
        course(origin, events),
        origin.after_all(events).runs.contains(start.run),
        stands_at(origin.after_all(events), start.recorders),
        counts_alike(origin.cluster, origin.electors, membership, start.run),
        start.run.recorders == round::handle_ids(start.recorders),
        draws_below::<R>(),
        round::proposed(membership, start, end, outcome),
    ensures
        goes_on(origin, events, later),
        stands_at(origin.after_all(later), end.recorders),
        outcome matches Ok(decision) ==> origin.after_all(later).decided.contains(decision),
{
    let states = choose|states: Seq<ProposingView<V, RecorderCore<V, A>, R>>| #[trigger]
        round::settled(membership, states, end, outcome) && states[0] == start;
    let last = states.len() - 1;
    let earlier = lemma_rounds(origin, events, membership, states, last);
    let final_end: std::result::Result<Option<DecisionView<V>>, ErrorView> = match outcome {
        Ok(decision) => Ok(Some(decision)),
        Err(refusal) => Err(refusal),
    };
    if round::round_ran(membership, states.last(), end, final_end) {
        let later = rounds_are_possible(
            origin,
            earlier,
            membership,
            states[last],
            end,
            final_end,
        );
        lemma_goes_on(origin, events, earlier, later);
        later
    } else {
        earlier
    }
}

/// One thing that proposers and recorders do for a slot. Calls of different
/// proposers may come between each other, a result may be taken in late or
/// never, and a request may never arrive.
pub enum Turn<V> {
    /// A proposer begins a run. It may have been given a membership.
    Begin { membership: Option<ClusterView>, run: RunView<V> },
    /// A request of a run goes to a recorder, with this result.
    Call {
        membership: Option<ClusterView>,
        run: RunView<V>,
        drawn: Priority,
        id: ReplicaId,
        result: std::result::Result<RecordReplyView<V>, ErrorView>,
    },
    /// A run takes results in, in this order, until they are a quorum.
    Conclude { membership: Option<ClusterView>, run: RunView<V>, calls: Seq<CallView<V>> },
    /// A recorder is told of decisions.
    Inform { id: ReplicaId, decisions: Seq<DecisionView<V>> },
    /// A recorder drops what a checkpoint covers.
    Prune { id: ReplicaId, through: SlotIndex },
}

/// Whether a turn makes a run what it is: it begins it or continues it.
pub open spec fn makes<V>(
    turn: Turn<V>,
    membership: Option<ClusterView>,
    run: RunView<V>,
) -> bool {
    match turn {
        Turn::Begin { membership: given, run: begun } => given == membership && begun == run,
        Turn::Conclude { membership: given, run: earlier, calls } => given == membership
            && round::round_end(earlier, membership, calls) == (run, Ok::<
            Option<DecisionView<V>>,
            ErrorView,
        >(None)),
        _ => false,
    }
}

/// Whether a run begins in a turn.
pub open spec fn begins<V>(turn: Turn<V>, run: RunView<V>) -> bool {
    turn matches Turn::Begin { run: begun, .. } && begun == run
}

/// Whether a turn is a call of a run with a reply.
pub open spec fn called<V>(turn: Turn<V>, run: RunView<V>, reply: RecordReplyView<V>) -> bool {
    turn matches Turn::Call { run: caller, result, .. } && caller == run && result == Ok::<
        RecordReplyView<V>,
        ErrorView,
    >(reply)
}

/// Whether a proposer decides in a turn.
pub open spec fn settles<V>(turn: Turn<V>, decision: DecisionView<V>) -> bool {
    turn matches Turn::Conclude { membership, run, calls } && round::round_end(
        run,
        membership,
        calls,
    ).1 == Ok::<Option<DecisionView<V>>, ErrorView>(Some(decision))
}

/// Whether a proposer was called with values in a turn.
pub open spec fn called_with<V>(turn: Turn<V>, values: Seq<V>) -> bool {
    turn matches Turn::Begin { run, .. } && run.proposal.value_ids == values
}

/// Whether a call for a slot, of a proposer that was given a membership or none,
/// starts with a run.
pub open spec fn starts<V>(
    membership: Option<ClusterView>,
    slot: SlotIndex,
    run: RunView<V>,
) -> bool {
    exists|proposer: ProposerView, ids: Seq<ReplicaId>|
        proposer.cluster == membership && ids.len() <= usize::MAX
            && #[trigger] proposer::first_round(
            proposer,
            slot,
            run.proposal.value_ids,
            run.leader,
            ids,
            run.known_decisions,
        ) == Ok::<RunView<V>, ErrorView>(run)
}

/// A proposer without a membership never goes by less than a majority.
proof fn lemma_starts_count_alike<V>(
    cluster: ClusterView,
    electors: Option<Set<ReplicaId>>,
    membership: Option<ClusterView>,
    slot: SlotIndex,
    run: RunView<V>,
)
    requires
        starts(membership, slot, run),
        joins(cluster, electors, membership, run),
    ensures
        counts_alike(cluster, electors, membership, run),
{
    let (proposer, ids) = choose|proposer: ProposerView, ids: Seq<ReplicaId>|
        proposer.cluster == membership && ids.len() <= usize::MAX
            && #[trigger] proposer::first_round(
            proposer,
            slot,
            run.proposal.value_ids,
            run.leader,
            ids,
            run.known_decisions,
        ) == Ok::<RunView<V>, ErrorView>(run);
    proposer::lemma_no_repeat(ids);
    assert(run.recorders == ids);
}

/// Whether a run is one that earlier turns made.
pub open spec fn underway<V>(
    turns: Seq<Turn<V>>,
    n: int,
    membership: Option<ClusterView>,
    run: RunView<V>,
) -> bool {
    exists|j: int| 0 <= j < n && #[trigger] makes(turns[j], membership, run)
}

/// Whether decisions on the slot are ones that earlier turns made.
pub open spec fn settled_before<V>(
    slot: SlotIndex,
    turns: Seq<Turn<V>>,
    n: int,
    decisions: Seq<DecisionView<V>>,
) -> bool {
    forall|k: int|
        0 <= k < decisions.len() && (#[trigger] decisions[k]).slot == slot ==> exists|j: int|
            0 <= j < n && #[trigger] settles(turns[j], decisions[k])
}

/// Whether a turn leads from one stage of the recorders to the next.
pub open spec fn turn_taken<V>(
    cluster: ClusterView,
    electors: Option<Set<ReplicaId>>,
    slot: SlotIndex,
    turns: Seq<Turn<V>>,
    stages: Seq<Map<ReplicaId, RecorderView<V>>>,
    n: int,
) -> bool {
    let (before, after) = (stages[n], stages[n + 1]);
    match turns[n] {
        Turn::Begin { membership, run } => {
            &&& after == before
            &&& starts(membership, slot, run)
            &&& joins(cluster, electors, membership, run)
            &&& settled_before(slot, turns, n, run.known_decisions)
        },
        Turn::Call { membership, run, drawn, id, result } => {
            &&& underway(turns, n, membership, run)
            &&& drawn.0 < u64::MAX
            &&& before.dom().contains(id)
            &&& after == before.insert(id, after[id])
            &&& reached(before[id], run.request(drawn), result, after[id])
        },
        Turn::Conclude { membership, run, calls } => {
            &&& after == before
            &&& underway(turns, n, membership, run)
            &&& forall|i: int|
                0 <= i < calls.len() ==> run.recorders.contains((#[trigger] calls[i]).0)
            &&& forall|reply: RecordReplyView<V>|
                calls.contains(#[trigger] round::answered(reply)) ==> exists|j: int|
                    0 <= j < n && #[trigger] called(turns[j], run, reply)
        },
        Turn::Inform { id, decisions } => {
            &&& before.dom().contains(id)
            &&& after == before.insert(id, before[id].inform_all(decisions).0)
            &&& settled_before(slot, turns, n, decisions)
        },
        Turn::Prune { id, through } => {
            &&& before.dom().contains(id)
            &&& after == before.insert(id, before[id].prune_through(through))
        },
    }
}

/// Whether recorders of a membership have nothing on a slot yet.
pub open spec fn untouched<V>(
    cluster: ClusterView,
    slot: SlotIndex,
    recorders: Map<ReplicaId, RecorderView<V>>,
) -> bool {
    forall|id: ReplicaId| #[trigger]
        recorders.dom().contains(id) ==> {
            let recorder = recorders[id];
            &&& recorder.id == id
            &&& recorder.state.cluster == cluster
            &&& !recorder.state.slots.dom().contains(slot)
            &&& !recorder.state.round_one_leaders.dom().contains(slot)
            &&& !recorder.state.decisions.dom().contains(slot)
        }
}

/// Whether turns can be taken one after the other, from recorders that have
/// nothing on the slot. Proposers that were given no membership go by majorities
/// of the electors.
pub open spec fn contest<V>(
    cluster: ClusterView,
    electors: Option<Set<ReplicaId>>,
    slot: SlotIndex,
    turns: Seq<Turn<V>>,
    stages: Seq<Map<ReplicaId, RecorderView<V>>>,
) -> bool {
    &&& cluster.valid()
    &&& electors matches Some(electors) ==> electors.finite()
    &&& stages.len() == turns.len() + 1
    &&& untouched(cluster, slot, stages[0])
    &&& forall|n: int|
        0 <= n < turns.len() ==> #[trigger] turn_taken(cluster, electors, slot, turns, stages, n)
}

/// Whether a replica proposes one list of values on a lane, and leads on one
/// lane. It is enough that every proposer is called once.
pub open spec fn one_call_each<V>(turns: Seq<Turn<V>>) -> bool {
    forall|i: int, j: int|
        #![trigger turns[i], turns[j]]
        0 <= i < turns.len() && 0 <= j < turns.len() ==> match (turns[i], turns[j]) {
            (Turn::Begin { run: a, .. }, Turn::Begin { run: b, .. }) => a.sender == b.sender ==> {
                &&& a.proposal.key.lane_id == b.proposal.key.lane_id ==> a.proposal.value_ids
                    == b.proposal.value_ids
                &&& agreement::leads(a) && agreement::leads(b) ==> a.proposal.key.lane_id
                    == b.proposal.key.lane_id
            },
            _ => true,
        }
}

/// The history before the first turn.
pub open spec fn beginning<V>(
    cluster: ClusterView,
    electors: Option<Set<ReplicaId>>,
    slot: SlotIndex,
    recorders: Map<ReplicaId, RecorderView<V>>,
) -> SlotHistory<V> {
    SlotHistory {
        cluster,
        electors,
        slot,
        recorders,
        logs: recorders.map_values(|recorder: RecorderView<V>| Seq::empty()),
        proposed: Set::empty(),
        runs: Set::empty(),
        sent: Set::empty(),
        answers: Set::empty(),
        decided: Set::empty(),
    }
}

/// Whether a course tells of the first turns all that later ones go by.
spec fn recounts<V>(
    origin: SlotHistory<V>,
    events: Seq<Event<V>>,
    turns: Seq<Turn<V>>,
    stage: Map<ReplicaId, RecorderView<V>>,
    n: int,
) -> bool {
    let history = origin.after_all(events);
    &&& course(origin, events)
    &&& history.recorders == stage
    &&& forall|j: int, membership: Option<ClusterView>, run: RunView<V>|
        0 <= j < n && #[trigger] makes(turns[j], membership, run) ==> history.runs.contains(run)
            && counts_alike(origin.cluster, origin.electors, membership, run)
    &&& forall|j: int, run: RunView<V>, reply: RecordReplyView<V>|
        0 <= j < n && #[trigger] called(turns[j], run, reply) ==> history.answered(run, reply)
    &&& forall|j: int, decision: DecisionView<V>|
        0 <= j < n && #[trigger] settles(turns[j], decision)
            ==> history.decided.contains(decision)
    &&& forall|i: int|
        0 <= i < events.len() && (#[trigger] events[i]) is Begin ==> exists|j: int|
            0 <= j < n && #[trigger] begins(turns[j], events[i]->Begin_0)
    &&& forall|values: Seq<V>| #[trigger]
        history.proposed.contains(values) ==> exists|j: int|
            0 <= j < n && #[trigger] called_with(turns[j], values)
}

/// A course that goes on tells of the same turns.
proof fn lemma_recounts_still<V>(
    origin: SlotHistory<V>,
    events: Seq<Event<V>>,
    later: Seq<Event<V>>,
    turns: Seq<Turn<V>>,
    before: Map<ReplicaId, RecorderView<V>>,
    after: Map<ReplicaId, RecorderView<V>>,
    n: int,
)
    requires
        recounts(origin, events, turns, before, n),
        goes_on(origin, events, later),
        origin.after_all(later).recorders == after,
    ensures
        recounts(origin, later, turns, after, n),
{
    assert forall|j: int, run: RunView<V>, reply: RecordReplyView<V>|
        0 <= j < n && #[trigger] called(turns[j], run, reply) implies origin.after_all(
        later,
    ).answered(run, reply) by {
        lemma_answered_still(origin, events, later, run, reply);
    }
    assert forall|i: int| 0 <= i < later.len() && (#[trigger] later[i]) is Begin implies exists|
        j: int,
    | 0 <= j < n && #[trigger] begins(turns[j], later[i]->Begin_0) by {
        let k = choose|k: int| 0 <= k < events.len() && events[k] == later[i];
        assert(events[k] is Begin);
    }
}

/// Decisions of earlier turns were made.
proof fn lemma_settled_were_made<V>(
    origin: SlotHistory<V>,
    events: Seq<Event<V>>,
    turns: Seq<Turn<V>>,
    stage: Map<ReplicaId, RecorderView<V>>,
    n: int,
    decisions: Seq<DecisionView<V>>,
)
    requires
        recounts(origin, events, turns, stage, n),
        settled_before(origin.slot, turns, n, decisions),
    ensures
        origin.after_all(events).made(decisions),
{
    agreement::keys_stay_unambiguous(origin, events);
    agreement::lemma_reached(origin, events);
    let history = origin.after_all(events);
    assert forall|k: int|
        0 <= k < decisions.len() && decisions[k].slot == history.slot implies history.decided.contains(
        #[trigger] decisions[k],
    ) by {
        let j = choose|j: int| 0 <= j < n && #[trigger] settles(turns[j], decisions[k]);
    }
}

/// A run that begins in a turn.
proof fn lemma_begin_turn<V>(
    origin: SlotHistory<V>,
    events: Seq<Event<V>>,
    turns: Seq<Turn<V>>,
    stage: Map<ReplicaId, RecorderView<V>>,
    n: int,
    membership: Option<ClusterView>,
    run: RunView<V>,
)
    requires
        recounts(origin, events, turns, stage, n),
        one_call_each(turns),
        0 <= n < turns.len(),
        (turns[n] == Turn::Begin { membership, run }),
        starts(membership, origin.slot, run),
        joins(origin.cluster, origin.electors, membership, run),
        settled_before(origin.slot, turns, n, run.known_decisions),
    ensures
        recounts(origin, events.push(Event::Begin(run)), turns, stage, n + 1),
{
    let event = Event::Begin(run);
    let later = events.push(event);
    agreement::keys_stay_unambiguous(origin, events);
    agreement::lemma_reached(origin, events);
    lemma_settled_were_made(origin, events, turns, stage, n, run.known_decisions);
    lemma_starts_count_alike(origin.cluster, origin.electors, membership, origin.slot, run);
    assert forall|i: int| 0 <= i < later.len() && (#[trigger] later[i]) is Begin implies exists|
        j: int,
    | 0 <= j < n + 1 && #[trigger] begins(turns[j], later[i]->Begin_0) by {
        if i < events.len() {
            assert(later[i] == events[i]);
            let j = choose|j: int|
                0 <= j < n && #[trigger] begins(turns[j], events[i]->Begin_0);
            assert(begins(turns[j], later[i]->Begin_0));
        } else {
            assert(begins(turns[n], later[i]->Begin_0));
        }
    }
    assert(agreement::one_proposal_each(later)) by {
        assert forall|i: int, j: int|
            #![trigger later[i], later[j]]
            0 <= i < later.len() && 0 <= j < later.len() implies match (later[i], later[j]) {
            (Event::Begin(a), Event::Begin(b)) => a.sender == b.sender ==> {
                &&& a.proposal.key.lane_id == b.proposal.key.lane_id ==> a.proposal.value_ids
                    == b.proposal.value_ids
                &&& agreement::leads(a) && agreement::leads(b) ==> a.proposal.key.lane_id
                    == b.proposal.key.lane_id
            },
            _ => true,
        } by {
            if later[i] is Begin && later[j] is Begin {
                let k = choose|k: int|
                    0 <= k < n + 1 && #[trigger] begins(turns[k], later[i]->Begin_0);
                let l = choose|l: int|
                    0 <= l < n + 1 && #[trigger] begins(turns[l], later[j]->Begin_0);
                assert(turns[k] is Begin && turns[l] is Begin);
            }
        }
    }
    lemma_begin(origin, events, run);
    let (before, after) = (origin.after_all(events), origin.after_all(later));
    assert forall|j: int, other: RunView<V>, reply: RecordReplyView<V>|
        0 <= j < n + 1 && #[trigger] called(turns[j], other, reply) implies after.answered(
        other,
        reply,
    ) by {
        let request = choose|request: RecordRequestView<V>|
            other.asks(request) && #[trigger] before.answers.contains((request, reply));
        assert(after.answers.contains((request, reply)));
    }
    assert forall|values: Seq<V>| #[trigger] after.proposed.contains(values) implies exists|j: int|
        0 <= j < n + 1 && #[trigger] called_with(turns[j], values) by {
        if before.proposed.contains(values) {
            let j = choose|j: int| 0 <= j < n && #[trigger] called_with(turns[j], values);
            assert(called_with(turns[j], values));
        } else {
            assert(called_with(turns[n], values));
        }
    }
}

/// The course that the first turns are.
proof fn lemma_contest<V>(
    cluster: ClusterView,
    electors: Option<Set<ReplicaId>>,
    slot: SlotIndex,
    turns: Seq<Turn<V>>,
    stages: Seq<Map<ReplicaId, RecorderView<V>>>,
    n: int,
) -> (events: Seq<Event<V>>)
    requires
        contest(cluster, electors, slot, turns, stages),
        one_call_each(turns),
        0 <= n <= turns.len(),
    ensures
        recounts(beginning(cluster, electors, slot, stages[0]), events, turns, stages[n], n),
    decreases n,
{
    let origin = beginning(cluster, electors, slot, stages[0]);
    if n == 0 {
        let events: Seq<Event<V>> = Seq::empty();
        assert(origin.logs.dom() =~= origin.recorders.dom());
        assert(origin.initial());
        events
    } else {
        let k = n - 1;
        let events = lemma_contest(cluster, electors, slot, turns, stages, k);
        let history = origin.after_all(events);
        agreement::keys_stay_unambiguous(origin, events);
        agreement::lemma_reached(origin, events);
        assert(turn_taken(cluster, electors, slot, turns, stages, k));
        match turns[k] {
            Turn::Begin { membership, run } => {
                lemma_begin_turn(origin, events, turns, stages[k], k, membership, run);
                events.push(Event::Begin(run))
            },
            Turn::Call { membership, run, drawn, id, result } => {
                let j = choose|j: int| 0 <= j < k && #[trigger] makes(turns[j], membership, run);
                let later = lemma_call(origin, events, run, drawn, id, result, stages[n][id]);
                lemma_recounts_still(origin, events, later, turns, stages[k], stages[n], k);
                later
            },
            Turn::Conclude { membership, run, calls } => {
                let j = choose|j: int| 0 <= j < k && #[trigger] makes(turns[j], membership, run);
                assert forall|reply: RecordReplyView<V>|
                    calls.contains(#[trigger] round::answered(reply)) implies history.answered(
                    run,
                    reply,
                ) by {
                    let i = choose|i: int| 0 <= i < k && #[trigger] called(turns[i], run, reply);
                }
                let later = lemma_conclude(origin, events, membership, run, calls);
                lemma_recounts_still(origin, events, later, turns, stages[k], stages[n], k);
                later
            },
            Turn::Inform { id, decisions } => {
                lemma_settled_were_made(origin, events, turns, stages[k], k, decisions);
                let event = Event::Inform(id, decisions);
                lemma_one_more(origin, events, event);
                lemma_recounts_still(
                    origin,
                    events,
                    events.push(event),
                    turns,
                    stages[k],
                    stages[n],
                    k,
                );
                events.push(event)
            },
            Turn::Prune { id, through } => {
                let event = Event::Prune(id, through);
                lemma_one_more(origin, events, event);
                lemma_recounts_still(
                    origin,
                    events,
                    events.push(event),
                    turns,
                    stages[k],
                    stages[n],
                    k,
                );
                events.push(event)
            },
        }
    }
}

/// Competing proposals agree: whatever proposers are called for a slot, with a
/// membership or without, with their calls in any order and any results delayed
/// or lost, any two of them that decide do so for the same values, which the
/// proposer that they name was called with.
pub proof fn competing_proposals_agree<V>(
    cluster: ClusterView,
    electors: Option<Set<ReplicaId>>,
    slot: SlotIndex,
    turns: Seq<Turn<V>>,
    stages: Seq<Map<ReplicaId, RecorderView<V>>>,
    i: int,
    j: int,
    a: DecisionView<V>,
    b: DecisionView<V>,
)
    requires
        contest(cluster, electors, slot, turns, stages),
        one_call_each(turns),
        0 <= i < turns.len(),
        0 <= j < turns.len(),
        settles(turns[i], a),
        settles(turns[j], b),
    ensures
        a.value_ids == b.value_ids,
        a.proposer == b.proposer,
        a.slot == slot,
        b.slot == slot,
        exists|k: int| 0 <= k < turns.len() && #[trigger] called_with(turns[k], a.value_ids),
        exists|k: int|
            0 <= k < turns.len() && (#[trigger] turns[k] matches Turn::Begin { run, .. }
                && run.sender == a.proposer && run.proposal.value_ids == a.value_ids),
{
    let origin = beginning(cluster, electors, slot, stages[0]);
    let count = turns.len() as int;
    let events = lemma_contest(cluster, electors, slot, turns, stages, count);
    agreement::keys_stay_unambiguous(origin, events);
    agreement::lemma_reached(origin, events);
    agreement::decisions_agree(origin, events, a, b);
    agreement::decisions_were_proposed(origin, events, a);
    agreement::decisions_were_proposed(origin, events, b);
    assert(origin.after_all(events).proposed.contains(a.value_ids));
    agreement::decisions_name_their_proposer(origin, events, a);
    let i = choose|i: int|
        0 <= i < events.len() && (#[trigger] events[i] matches Event::Begin(run) && run.sender
            == a.proposer && run.proposal.value_ids == a.value_ids);
    let k = choose|k: int| 0 <= k < count && #[trigger] begins(turns[k], events[i]->Begin_0);
    assert(turns[k] is Begin);
}

/// One call of a proposer: the membership that the proposer was given, if any,
/// where it started, where it ended, and what it returned.
#[verifier::reject_recursive_types(V)]
#[verifier::reject_recursive_types(C)]
#[verifier::reject_recursive_types(R)]
pub struct ProposalCall<V, C, R> {
    pub membership: Option<ClusterView>,
    pub start: ProposingView<V, C, R>,
    pub end: ProposingView<V, C, R>,
    pub outcome: std::result::Result<DecisionView<V>, ErrorView>,
}

/// Whether proposers with different replica IDs were called for a slot, one
/// after another over the same recorders, from where a history begins.
pub open spec fn called_in_turn<V: Key, A: ValueAvailability<V>, R: PrioritySource>(
    origin: SlotHistory<V>,
    calls: Seq<ProposalCall<V, RecorderCore<V, A>, R>>,
) -> bool {
    &&& calls.len() > 0 ==> stands_at(origin, calls[0].start.recorders)
    &&& forall|i: int|
        0 <= i < calls.len() ==> {
            let call = #[trigger] calls[i];
            &&& starts(call.membership, origin.slot, call.start.run)
            &&& joins(origin.cluster, origin.electors, call.membership, call.start.run)
            &&& call.start.run.recorders == round::handle_ids(call.start.recorders)
            &&& call.start.run.known_decisions.len() == 0
            &&& round::proposed(call.membership, call.start, call.end, call.outcome)
            &&& i > 0 ==> call.start.recorders == calls[i - 1].end.recorders
        }
    &&& forall|i: int, j: int|
        0 <= i < calls.len() && 0 <= j < calls.len() && i != j ==> (
        #[trigger] calls[i]).start.run.sender != (#[trigger] calls[j]).start.run.sender
}

/// Whether a course tells the first calls of proposers in turn.
spec fn tells<V: Key, A: ValueAvailability<V>, R: PrioritySource>(
    origin: SlotHistory<V>,
    calls: Seq<ProposalCall<V, RecorderCore<V, A>, R>>,
    n: int,
    events: Seq<Event<V>>,
) -> bool {
    let after = origin.after_all(events);
    &&& course(origin, events)
    &&& 0 < n < calls.len() ==> stands_at(after, calls[n].start.recorders)
    &&& n == 0 ==> after == origin
    &&& forall|i: int|
        0 <= i < events.len() && (#[trigger] events[i]) is Begin ==> exists|k: int|
            0 <= k < n && events[i] == Event::Begin((#[trigger] calls[k]).start.run)
    &&& forall|k: int|
        0 <= k < n ==> ((#[trigger] calls[k]).outcome matches Ok(decision)
            ==> after.decided.contains(decision))
    &&& forall|values: Seq<V>| #[trigger]
        after.proposed.contains(values) ==> exists|k: int|
            0 <= k < n && (#[trigger] calls[k]).start.run.proposal.value_ids == values
}

/// Calls of proposers in turn are a course of the slot.
proof fn lemma_called_in_turn<V: Key, A: ValueAvailability<V>, R: PrioritySource>(
    origin: SlotHistory<V>,
    calls: Seq<ProposalCall<V, RecorderCore<V, A>, R>>,
    n: int,
) -> (events: Seq<Event<V>>)
    requires
        origin.initial(),
        draws_below::<R>(),
        called_in_turn(origin, calls),
        0 <= n <= calls.len(),
    ensures
        tells(origin, calls, n, events),
    decreases n,
{
    if n == 0 {
        Seq::empty()
    } else {
        let earlier = lemma_called_in_turn(origin, calls, n - 1);
        let call = calls[n - 1];
        agreement::keys_stay_unambiguous(origin, earlier);
        agreement::lemma_reached(origin, earlier);
        let begun = earlier.push(Event::Begin(call.start.run));
        assert forall|i: int| 0 <= i < begun.len() && (#[trigger] begun[i]) is Begin implies exists|
            k: int,
        | 0 <= k < n && begun[i] == Event::Begin((#[trigger] calls[k]).start.run) by {
            if i < earlier.len() {
                assert(begun[i] == earlier[i]);
            } else {
                assert(begun[i] == Event::Begin(calls[n - 1].start.run));
            }
        }
        assert(agreement::one_proposal_each(begun)) by {
            assert forall|i: int, j: int|
                #![trigger begun[i], begun[j]]
                0 <= i < begun.len() && 0 <= j < begun.len() implies match (begun[i], begun[j]) {
                (Event::Begin(a), Event::Begin(b)) => a.sender == b.sender ==> {
                    &&& a.proposal.key.lane_id == b.proposal.key.lane_id ==> a.proposal.value_ids
                        == b.proposal.value_ids
                    &&& agreement::leads(a) && agreement::leads(b) ==> a.proposal.key.lane_id
                        == b.proposal.key.lane_id
                },
                _ => true,
            } by {}
        }
        lemma_begin(origin, earlier, call.start.run);
        lemma_starts_count_alike(
            origin.cluster,
            origin.electors,
            call.membership,
            origin.slot,
            call.start.run,
        );
        let events = proposals_are_possible(
            origin,
            begun,
            call.membership,
            call.start,
            call.end,
            call.outcome,
        );
        assert forall|i: int|
            0 <= i < events.len() && (#[trigger] events[i]) is Begin implies exists|k: int|
            0 <= k < n && events[i] == Event::Begin((#[trigger] calls[k]).start.run) by {
            let place = choose|place: int| 0 <= place < begun.len() && begun[place] == events[i];
            assert(begun[place] is Begin);
        }
        assert forall|values: Seq<V>| #[trigger]
            origin.after_all(events).proposed.contains(values) implies exists|k: int|
            0 <= k < n && (#[trigger] calls[k]).start.run.proposal.value_ids == values by {
            if !origin.after_all(earlier).proposed.contains(values) {
                assert(calls[n - 1].start.run.proposal.value_ids == values);
            }
        }
        events
    }
}

/// Successive proposals agree: of proposers that are called for a slot one after
/// another over the same recorders, any two that decide do so for the same
/// values, which the one that they name was called with.
pub proof fn successive_proposals_agree<V: Key, A: ValueAvailability<V>, R: PrioritySource>(
    origin: SlotHistory<V>,
    calls: Seq<ProposalCall<V, RecorderCore<V, A>, R>>,
    i: int,
    j: int,
    a: DecisionView<V>,
    b: DecisionView<V>,
)
    requires
        origin.initial(),
        draws_below::<R>(),
        called_in_turn(origin, calls),
        0 <= i < calls.len(),
        0 <= j < calls.len(),
        calls[i].outcome == Ok::<DecisionView<V>, ErrorView>(a),
        calls[j].outcome == Ok::<DecisionView<V>, ErrorView>(b),
    ensures
        a.slot == origin.slot,
        b.slot == origin.slot,
        a.value_ids == b.value_ids,
        a.proposer == b.proposer,
        exists|k: int|
            0 <= k < calls.len() && (#[trigger] calls[k]).start.run.proposal.value_ids
                == a.value_ids && calls[k].start.run.sender == a.proposer,
{
    let events = lemma_called_in_turn(origin, calls, calls.len() as int);
    agreement::keys_stay_unambiguous(origin, events);
    agreement::lemma_reached(origin, events);
    agreement::decisions_agree(origin, events, a, b);
    agreement::decisions_were_proposed(origin, events, a);
    agreement::decisions_were_proposed(origin, events, b);
    agreement::decisions_name_their_proposer(origin, events, a);
    let place = choose|place: int|
        0 <= place < events.len() && (#[trigger] events[place] matches Event::Begin(run)
            && run.sender == a.proposer && run.proposal.value_ids == a.value_ids);
    assert(events[place] is Begin);
}

} // verus!
