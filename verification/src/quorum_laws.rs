//! What the replies to a round amount to.

use crate::cluster::{ClusterView, RecordReplyView};
use crate::error::ErrorView;
use crate::proposer::RecorderHandle;
use crate::quorum;
use crate::quorum::CollectorView;
use crate::round;
use crate::round::CallView;
use crate::types::ReplicaId;
use vstd::prelude::*;

verus! {

/// The replies among the results of calls, in order.
pub open spec fn replies_in<V>(calls: Seq<CallView<V>>) -> Seq<RecordReplyView<V>>
    decreases calls.len(),
{
    if calls.len() == 0 {
        Seq::empty()
    } else {
        match calls.last().1 {
            Ok(reply) => replies_in(calls.drop_last()).push(reply),
            Err(_) => replies_in(calls.drop_last()),
        }
    }
}

/// A call failed in a way that says nothing about the slot.
pub open spec fn failed_harmlessly<V>(call: CallView<V>) -> bool {
    match call.1 {
        Ok(_) => false,
        Err(refusal) => match refusal {
            ErrorView::ConflictingDecision { slot: _ } => false,
            ErrorView::SlotPruned { slot: _ } => false,
            ErrorView::ScheduleMismatch { slot: _ } => false,
            ErrorView::ConfigurationMismatch => false,
            _ => true,
        },
    }
}

/// A call was answered by the recorder that it went to.
pub open spec fn was_answered<V>(call: CallView<V>, cluster: Option<ClusterView>) -> bool {
    match call.1 {
        Ok(reply) => reply.recorder == call.0 && (cluster is Some ==> reply.cluster == cluster->0),
        Err(_) => false,
    }
}

/// Every call went to another recorder, and was answered by it or failed
/// harmlessly.
pub open spec fn went_well<V>(calls: Seq<CallView<V>>, cluster: Option<ClusterView>) -> bool {
    &&& forall|i: int|
        0 <= i < calls.len() ==> was_answered(#[trigger] calls[i], cluster) || failed_harmlessly(
            calls[i],
        )
    &&& forall|i: int, j: int|
        0 <= i < j < calls.len() ==> (#[trigger] calls[i]).0 != (#[trigger] calls[j]).0
}

proof fn lemma_replies_of_all_but_the_last<V>(calls: Seq<CallView<V>>, k: int)
    requires
        0 <= k < calls.len(),
    ensures
        replies_in(calls.take(k + 1)) == match calls[k].1 {
            Ok(reply) => replies_in(calls.take(k)).push(reply),
            Err(_) => replies_in(calls.take(k)),
        },
{
    assert(calls.take(k + 1).drop_last() =~= calls.take(k));
}

proof fn lemma_replies_come_from_calls<V>(
    calls: Seq<CallView<V>>,
    cluster: Option<ClusterView>,
    i: int,
)
    requires
        went_well(calls, cluster),
        0 <= i < replies_in(calls).len(),
    ensures
        exists|j: int|
            0 <= j < calls.len() && (#[trigger] calls[j]).0 == replies_in(calls)[i].recorder,
    decreases calls.len(),
{
    let earlier = calls.drop_last();
    assert(went_well(earlier, cluster)) by {
        assert forall|k: int| 0 <= k < earlier.len() implies was_answered(
            #[trigger] earlier[k],
            cluster,
        ) || failed_harmlessly(earlier[k]) by {
            assert(earlier[k] == calls[k]);
        }
        assert forall|k: int, l: int| 0 <= k < l < earlier.len() implies (#[trigger] earlier[k]).0
            != (#[trigger] earlier[l]).0 by {
            assert(calls[k].0 != calls[l].0);
        }
    }
    if i < replies_in(earlier).len() {
        lemma_replies_come_from_calls(earlier, cluster, i);
        let j = choose|j: int|
            0 <= j < earlier.len() && (#[trigger] earlier[j]).0 == replies_in(earlier)[i].recorder;
        assert(calls[j] == earlier[j]);
    } else {
        let last = calls.len() - 1;
        assert(was_answered(calls[last], cluster));
        assert(calls[last].0 == replies_in(calls)[i].recorder);
    }
}

proof fn lemma_replies_so_far<V>(calls: Seq<CallView<V>>, k: int, l: int)
    requires
        0 <= k <= l <= calls.len(),
    ensures
        replies_in(calls.take(k)).len() <= replies_in(calls.take(l)).len(),
        replies_in(calls.take(l)).take(replies_in(calls.take(k)).len() as int) == replies_in(
            calls.take(k),
        ),
        replies_in(calls.take(l)).len() <= replies_in(calls.take(k)).len() + (l - k),
    decreases l - k,
{
    if k < l {
        lemma_replies_so_far(calls, k, l - 1);
        lemma_replies_of_all_but_the_last(calls, l - 1);
        let before = replies_in(calls.take(l - 1));
        let kept = replies_in(calls.take(k)).len() as int;
        assert(replies_in(calls.take(l)).take(kept) =~= before.take(kept));
    } else {
        assert(replies_in(calls.take(k)).take(replies_in(calls.take(k)).len() as int)
            =~= replies_in(calls.take(k)));
    }
}

/// How gathering goes on behind the first calls of a round that goes well.
spec fn gathers<V>(
    needed: usize,
    cluster: Option<ClusterView>,
    calls: Seq<CallView<V>>,
    k: int,
) -> CollectorView<V> {
    CollectorView {
        needed,
        cluster,
        pending: (calls.len() - k) as usize,
        replies: replies_in(calls.take(k)),
    }
}

proof fn lemma_gathers_on<V>(
    needed: usize,
    cluster: Option<ClusterView>,
    calls: Seq<CallView<V>>,
    k: int,
)
    requires
        0 <= k < calls.len() <= usize::MAX,
        went_well(calls, cluster),
    ensures
        gathers(needed, cluster, calls, k).receive(calls[k].0, calls[k].1) == if calls[k].1 is Err
            && replies_in(calls.take(k)).len() + (calls.len() - k - 1) < needed {
            (
                gathers(needed, cluster, calls, k + 1),
                Err::<(), ErrorView>(
                    ErrorView::QuorumNotReached {
                        needed,
                        received: replies_in(calls.take(k)).len() as usize,
                    },
                ),
            )
        } else {
            (gathers(needed, cluster, calls, k + 1), Ok::<(), ErrorView>(()))
        },
{
    let collector = gathers(needed, cluster, calls, k);
    lemma_replies_of_all_but_the_last(calls, k);
    assert(was_answered(calls[k], cluster) || failed_harmlessly(calls[k]));
    if calls[k].1 is Ok {
        let known = quorum::senders(collector.replies);
        if known.contains(calls[k].0) {
            let i = known.index_of(calls[k].0);
            let made = calls.take(k);
            assert(went_well(made, cluster)) by {
                assert forall|a: int| 0 <= a < made.len() implies was_answered(
                    #[trigger] made[a],
                    cluster,
                ) || failed_harmlessly(made[a]) by {
                    assert(made[a] == calls[a]);
                }
                assert forall|a: int, b: int| 0 <= a < b < made.len() implies (#[trigger] made[a]).0
                    != (#[trigger] made[b]).0 by {
                    assert(calls[a].0 != calls[b].0);
                }
            }
            lemma_replies_come_from_calls(made, cluster, i);
            let j = choose|j: int|
                0 <= j < made.len() && (#[trigger] made[j]).0 == replies_in(made)[i].recorder;
            assert(calls[j].0 != calls[k].0);
            assert(made[j] == calls[j]);
        }
    }
}

/// Behind the first calls, gathering ends with the first of the later
/// beginnings of the replies that is complete, or fails.
proof fn lemma_gathers_the_shortest<V>(
    needed: usize,
    cluster: Option<ClusterView>,
    calls: Seq<CallView<V>>,
    k: int,
    end: int,
)
    requires
        0 <= k <= end <= calls.len() <= usize::MAX,
        went_well(calls, cluster),
        forall|j: int| k <= j < end ==> !(#[trigger] gathers(needed, cluster, calls, j)).complete(),
        forall|j: int|
            k <= j < end && (#[trigger] calls[j]).1 is Err ==> replies_in(calls.take(j)).len() + (
            calls.len() - j - 1) >= needed,
        gathers(needed, cluster, calls, end).complete(),
    ensures
        round::gather(gathers(needed, cluster, calls, k), calls.skip(k)) == Ok::<
            CollectorView<V>,
            ErrorView,
        >(gathers(needed, cluster, calls, end)),
    decreases end - k,
{
    if k < end {
        assert(!gathers(needed, cluster, calls, k).complete());
        assert(calls.skip(k)[0] == calls[k]);
        lemma_gathers_on(needed, cluster, calls, k);
        assert(calls.skip(k).drop_first() =~= calls.skip(k + 1));
        lemma_gathers_the_shortest(needed, cluster, calls, k + 1, end);
    }
}

/// A round that no recorder spoils ends with the first replies that are as many
/// as it needs, however many calls failed between them. It fails only where so
/// few calls are answered that they are not enough, and then says how many
/// replies there were when that was certain.
pub proof fn rounds_take_the_first_replies<V>(needed: usize, calls: Seq<CallView<V>>)
    requires
        calls.len() <= usize::MAX,
        went_well(calls, None),
    ensures
        replies_in(calls).len() >= needed ==> round::gathered(needed, None, calls) == Ok::<
            Seq<RecordReplyView<V>>,
            ErrorView,
        >(replies_in(calls).take(needed as int)),
        replies_in(calls).len() < needed ==> {
            &&& round::gathered(needed, None, calls) matches Err(
                ErrorView::QuorumNotReached { needed: asked, received },
            )
            &&& asked == needed
            &&& received < needed
        },
{
    let none: Option<ClusterView> = None;
    assert(calls.take(calls.len() as int) =~= calls);
    assert(calls.skip(0) =~= calls);
    assert(calls.take(0) =~= Seq::empty());
    assert(replies_in(calls.take(0)) =~= Seq::empty());
    if calls.len() >= needed {
        if replies_in(calls).len() >= needed {
            let end = lemma_first_reaching(calls, needed as nat, calls.len() as int);
            assert forall|j: int| 0 <= j < end implies !(#[trigger] gathers(
                needed,
                none,
                calls,
                j,
            )).complete() by {
                lemma_replies_so_far(calls, j, end - 1);
            }
            assert forall|j: int|
                0 <= j < end && (#[trigger] calls[j]).1 is Err implies replies_in(
                calls.take(j),
            ).len() + (calls.len() - j - 1) >= needed by {
                lemma_replies_of_all_but_the_last(calls, j);
                lemma_replies_so_far(calls, j + 1, calls.len() as int);
            }
            lemma_gathers_the_shortest(needed, none, calls, 0, end);
            lemma_replies_so_far(calls, end, calls.len() as int);
        } else {
            lemma_too_few(needed, calls, 0);
        }
    } else {
        lemma_replies_so_far(calls, 0, calls.len() as int);
    }
}

proof fn lemma_first_reaching<V>(calls: Seq<CallView<V>>, count: nat, k: int) -> (end: int)
    requires
        0 <= k <= calls.len(),
        replies_in(calls.take(k)).len() >= count,
    ensures
        0 <= end <= k,
        replies_in(calls.take(end)).len() == count,
        end > 0 ==> replies_in(calls.take(end - 1)).len() < count,
    decreases k,
{
    assert(calls.take(0) =~= Seq::empty());
    assert(replies_in(calls.take(0)) =~= Seq::empty());
    if k > 0 && replies_in(calls.take(k - 1)).len() >= count {
        lemma_first_reaching(calls, count, k - 1)
    } else {
        if k > 0 {
            lemma_replies_of_all_but_the_last(calls, k - 1);
        }
        k
    }
}

proof fn lemma_too_few<V>(needed: usize, calls: Seq<CallView<V>>, k: int)
    requires
        0 <= k <= calls.len() <= usize::MAX,
        went_well(calls, None),
        replies_in(calls).len() < needed,
        replies_in(calls.take(k)).len() + (calls.len() - k) >= needed,
    ensures
        round::gather(gathers(needed, None, calls, k), calls.skip(k)) matches Err(
            ErrorView::QuorumNotReached { needed: asked, received },
        ) && asked == needed && received < needed,
    decreases calls.len() - k,
{
    assert(calls.take(calls.len() as int) =~= calls);
    lemma_replies_so_far(calls, k, calls.len() as int);
    assert(k < calls.len());
    assert(calls.skip(k)[0] == calls[k]);
    lemma_gathers_on(needed, None, calls, k);
    lemma_replies_of_all_but_the_last(calls, k);
    assert(calls.skip(k).drop_first() =~= calls.skip(k + 1));
    if !(calls[k].1 is Err && replies_in(calls.take(k)).len() + (calls.len() - k - 1) < needed) {
        lemma_too_few(needed, calls, k + 1);
    }
}

/// With a membership, a round goes on until the recorders that replied are a
/// quorum of it, and no longer: the replies are the shortest beginning of all
/// replies whose senders are a quorum.
pub proof fn rounds_end_with_a_quorum<V>(
    needed: usize,
    cluster: ClusterView,
    calls: Seq<CallView<V>>,
    k: int,
)
    requires
        calls.len() <= usize::MAX,
        went_well(calls, Some(cluster)),
        round::gathered(needed, Some(cluster), calls) is Ok,
    ensures
        ({
            let taken = round::gathered(needed, Some(cluster), calls)->Ok_0;
            &&& taken.len() <= replies_in(calls).len()
            &&& taken == replies_in(calls).take(taken.len() as int)
            &&& cluster.has_quorum(quorum::senders(taken).to_set())
            &&& 0 <= k < taken.len() ==> !cluster.has_quorum(
                quorum::senders(replies_in(calls).take(k)).to_set(),
            )
        }),
{
    let some = Some(cluster);
    assert(calls.skip(0) =~= calls);
    assert(calls.take(0) =~= Seq::empty());
    assert(replies_in(calls.take(0)) =~= Seq::empty());
    assert(gathers(needed, some, calls, 0) =~= CollectorView {
        needed,
        cluster: some,
        pending: calls.len() as usize,
        replies: Seq::<RecordReplyView<V>>::empty(),
    });
    lemma_ends_with_a_quorum(needed, cluster, calls, 0, k);
}

proof fn lemma_ends_with_a_quorum<V>(
    needed: usize,
    cluster: ClusterView,
    calls: Seq<CallView<V>>,
    at: int,
    k: int,
)
    requires
        0 <= at <= calls.len() <= usize::MAX,
        went_well(calls, Some(cluster)),
        round::gather(gathers(needed, Some(cluster), calls, at), calls.skip(at)) is Ok,
        0 <= k < replies_in(calls.take(at)).len() ==> !cluster.has_quorum(
            quorum::senders(replies_in(calls).take(k)).to_set(),
        ),
    ensures
        ({
            let taken = round::gather(
                gathers(needed, Some(cluster), calls, at),
                calls.skip(at),
            )->Ok_0.replies;
            &&& taken.len() <= replies_in(calls).len()
            &&& taken == replies_in(calls).take(taken.len() as int)
            &&& cluster.has_quorum(quorum::senders(taken).to_set())
            &&& 0 <= k < taken.len() ==> !cluster.has_quorum(
                quorum::senders(replies_in(calls).take(k)).to_set(),
            )
        }),
    decreases calls.len() - at,
{
    let here = gathers(needed, Some(cluster), calls, at);
    assert(calls.take(calls.len() as int) =~= calls);
    lemma_replies_so_far(calls, at, calls.len() as int);
    if !here.complete() {
        assert(calls.skip(at).len() > 0);
        assert(calls.skip(at)[0] == calls[at]);
        lemma_gathers_on(needed, Some(cluster), calls, at);
        lemma_replies_of_all_but_the_last(calls, at);
        assert(calls.skip(at).drop_first() =~= calls.skip(at + 1));
        lemma_ends_with_a_quorum(needed, cluster, calls, at + 1, k);
    }
}

/// One recorder spoils a round where it answers for another, for another
/// cluster or a second time, or where its refusal tells of the slot itself. Each
/// time the round hears which, and no reply is taken in.
pub proof fn improper_replies_spoil_a_round<V>(
    collector: CollectorView<V>,
    expected: ReplicaId,
    reply: RecordReplyView<V>,
    refusal: ErrorView,
    i: int,
)
    ensures
        reply.recorder != expected ==> collector.receive(expected, Ok(reply)).1 == Err::<
            (),
            ErrorView,
        >(ErrorView::InvalidRecorderReply { expected, received: reply.recorder }),
        reply.recorder == expected && collector.cluster is Some && collector.cluster->0
            != reply.cluster ==> collector.receive(expected, Ok(reply)).1 == Err::<(), ErrorView>(
            ErrorView::ConfigurationMismatch,
        ),
        reply.recorder == expected && (collector.cluster is None || collector.cluster->0
            == reply.cluster) && 0 <= i < collector.replies.len() && collector.replies[i].recorder
            == expected ==> collector.receive(expected, Ok(reply)).1 == Err::<(), ErrorView>(
            ErrorView::DuplicateRecorderReply(expected),
        ),
        !failed_harmlessly::<V>((expected, Err(refusal))) ==> collector.receive(
            expected,
            Err(refusal),
        ).1 == Err::<(), ErrorView>(refusal),
        collector.receive(expected, Ok(reply)).1 is Err ==> collector.receive(
            expected,
            Ok(reply),
        ).0.replies == collector.replies,
        collector.receive(expected, Err(refusal)).0.replies == collector.replies,
{
    if 0 <= i < collector.replies.len() {
        assert(quorum::senders(collector.replies)[i] == collector.replies[i].recorder);
    }
}

/// A round calls the recorders that are idle, in their order, and no other.
pub proof fn idle_recorders_are_called<V, C>(
    recorders: Seq<RecorderHandle<C>>,
    results: Seq<std::result::Result<RecordReplyView<V>, ErrorView>>,
    i: int,
)
    requires
        recorders.len() == results.len(),
    ensures
        0 <= i < recorders.len() && !recorders[i].busy() ==> round::calls_made(
            recorders,
            results,
        ).contains((recorders[i].identity(), results[i])),
        0 <= i < round::calls_made(recorders, results).len() ==> exists|j: int|
            #![trigger recorders[j]]
            0 <= j < recorders.len() && !recorders[j].busy() && round::calls_made(
                recorders,
                results,
            )[i] == (recorders[j].identity(), results[j]),
        round::calls_made(recorders, results).len() <= recorders.len(),
    decreases recorders.len(),
{
    if recorders.len() > 0 {
        let last = recorders.len() - 1;
        let earlier = round::calls_made(recorders.drop_last(), results.drop_last());
        let calls = round::calls_made(recorders, results);
        idle_recorders_are_called(recorders.drop_last(), results.drop_last(), i);
        if 0 <= i < recorders.len() && !recorders[i].busy() {
            if i < last {
                let at = earlier.index_of((recorders[i].identity(), results[i]));
                assert(calls[at] == earlier[at]);
            } else {
                assert(calls[calls.len() - 1] == (recorders[i].identity(), results[i]));
            }
        }
        if 0 <= i < calls.len() {
            if i < earlier.len() {
                let j = choose|j: int|
                    #![trigger recorders.drop_last()[j]]
                    0 <= j < recorders.drop_last().len() && !recorders.drop_last()[j].busy()
                        && earlier[i] == (
                        recorders.drop_last()[j].identity(),
                        results.drop_last()[j],
                    );
                assert(recorders[j] == recorders.drop_last()[j]);
            } else {
                assert(!recorders[last].busy());
            }
        }
    }
}

} // verus!
