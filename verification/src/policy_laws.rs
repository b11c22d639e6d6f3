//! Laws of the policies that order proposers and of the delays between them.

use crate::error::ErrorView;
use crate::policy;
use crate::policy::{
    AdaptiveView, FixedLeaderPolicy, HedgingPolicy, LastWinnerPolicy, LeaderlessPolicy,
    RoundRobinPolicy,
};
use crate::ranking;
use crate::schedule;
use crate::schedule::{AdaptiveHedgingView, DelayView};
use crate::span::Span;
use crate::types::{ReplicaId, SlotIndex};
use vstd::prelude::*;

verus! {

/// A rotation goes through the list from a place on, and round to the place
/// before it.
pub proof fn rotations_go_round(list: Seq<ReplicaId>, offset: int)
    requires
        0 <= offset < list.len(),
    ensures
        ranking::rotation(list, offset).len() == list.len(),
        forall|k: int|
            0 <= k < list.len() ==> #[trigger] ranking::rotation(list, offset)[k] == list[(offset
                + k) % (list.len() as int)],
{
    let n = list.len() as int;
    assert forall|k: int| 0 <= k < n implies #[trigger] ranking::rotation(list, offset)[k] == list[(
    offset + k) % n] by {
        if offset + k < n {
            vstd::arithmetic::div_mod::lemma_small_mod((offset + k) as nat, n as nat);
        } else {
            vstd::arithmetic::div_mod::lemma_small_mod((offset + k - n) as nat, n as nat);
            vstd::arithmetic::div_mod::lemma_mod_add_multiples_vanish(offset + k - n, n);
        }
    }
}

/// Along a sequence of proposers each waits one base delay longer than the one
/// before it, and the first waits none; a leaderless sequence lets all start at
/// once. A replica outside the sequence is refused.
pub proof fn proposers_start_one_delay_apart(
    sequence: Seq<ReplicaId>,
    place: int,
    base_delay: Span,
    outsider: ReplicaId,
)
    requires
        sequence.no_duplicates(),
        0 <= place < sequence.len(),
        place < 0x1_0000_0000,
        place * base_delay.nanos <= u128::MAX,
        !sequence.contains(outsider),
    ensures
        policy::staggered_delay(sequence[place], sequence, base_delay) matches Ok(delay)
            && delay.nanos == place * base_delay.nanos,
        LeaderlessPolicy.delay(sequence[place], sequence, base_delay) matches Ok(delay)
            && delay.nanos == 0,
        policy::staggered_delay(outsider, sequence, base_delay) == Err::<Span, ErrorView>(
            ErrorView::UnknownReplica(outsider),
        ),
        LeaderlessPolicy.delay(outsider, sequence, base_delay) == Err::<Span, ErrorView>(
            ErrorView::UnknownReplica(outsider),
        ),
{
    ranking::lemma_position(sequence, sequence[place], place);
    vstd::arithmetic::div_mod::lemma_small_mod(place as nat, 0x1_0000_0000);
    let delay = base_delay.nanos as int;
    assert(delay * place == place * delay) by (nonlinear_arith);
    assert(sequence.contains(sequence[place]));
}

/// The order that each policy gives distinct replicas. The fixed and the
/// leaderless one keep theirs; the round-robin one begins an epoch with the next
/// replica; the last-winner one begins with the winner and goes round, keeps the
/// order where there was none, and refuses a winner that it does not know.
pub proof fn policies_order_replicas(
    slot: SlotIndex,
    replicas: Seq<ReplicaId>,
    previous: Option<ReplicaId>,
    robin: &RoundRobinPolicy,
    place: int,
)
    requires
        replicas.no_duplicates(),
        replicas.len() > 0,
        robin.slots_per_epoch() > 0,
        previous matches Some(winner) ==> !replicas.contains(winner) || (0 <= place
            < replicas.len() && replicas[place] == winner),
    ensures
        FixedLeaderPolicy.sequence(slot, replicas, previous) == Ok::<Seq<ReplicaId>, ErrorView>(
            replicas,
        ),
        LeaderlessPolicy.sequence(slot, replicas, previous) == Ok::<Seq<ReplicaId>, ErrorView>(
            replicas,
        ),
        robin.sequence(slot, replicas, previous) matches Ok(order) && order.len() == replicas.len()
            && forall|k: int|
            0 <= k < replicas.len() ==> #[trigger] order[k] == replicas[((slot.0 as int
                / robin.slots_per_epoch() as int) + k) % (replicas.len() as int)],
        match previous {
            None => LastWinnerPolicy.sequence(slot, replicas, previous) == Ok::<
                Seq<ReplicaId>,
                ErrorView,
            >(replicas),
            Some(winner) => if replicas.contains(winner) {
                LastWinnerPolicy.sequence(slot, replicas, previous) matches Ok(order)
                    && order.len() == replicas.len() && forall|k: int|
                    0 <= k < replicas.len() ==> #[trigger] order[k] == replicas[(place + k) % (
                    replicas.len() as int)]
            } else {
                LastWinnerPolicy.sequence(slot, replicas, previous) == Err::<
                    Seq<ReplicaId>,
                    ErrorView,
                >(ErrorView::UnknownReplica(winner))
            },
        },
{
    ranking::lemma_duplicated(replicas, 0);
    let n = replicas.len() as int;
    let epoch = slot.0 as int / robin.slots_per_epoch() as int;
    let offset = epoch % n;
    rotations_go_round(replicas, offset);
    assert forall|k: int| 0 <= k < n implies (offset + k) % n == #[trigger] ((epoch + k) % n) by {
        vstd::arithmetic::div_mod::lemma_add_mod_noop(epoch, k, n);
        vstd::arithmetic::div_mod::lemma_add_mod_noop(offset, k, n);
        vstd::arithmetic::div_mod::lemma_mod_twice(epoch, n);
    }
    assert forall|k: int| 0 <= k < n implies #[trigger] ranking::rotation(replicas, offset)[k]
        == replicas[(epoch + k) % n] by {
        assert((offset + k) % n == (epoch + k) % n);
    }
    if let Some(winner) = previous {
        if replicas.contains(winner) {
            ranking::lemma_position(replicas, winner, place);
            rotations_go_round(replicas, place);
        }
    }
}

/// What durations add up to.
pub open spec fn sum_of(spans: Seq<Span>) -> int
    decreases spans.len(),
{
    if spans.len() == 0 {
        0
    } else {
        spans[0].nanos + sum_of(spans.skip(1))
    }
}

proof fn lemma_sums_agree(spans: Seq<Span>)
    ensures
        policy::total_nanos(spans) == sum_of(spans),
    decreases spans.len(),
{
    if spans.len() == 1 {
        assert(spans.skip(1) =~= Seq::<Span>::empty());
        assert(spans.drop_last() =~= Seq::<Span>::empty());
        assert(sum_of(spans.skip(1)) == 0 && policy::total_nanos(spans.drop_last()) == 0);
        assert(spans[0] == spans.last());
    } else if spans.len() > 1 {
        let (rest, tail) = (spans.drop_last(), spans.skip(1));
        lemma_sums_agree(rest);
        lemma_sums_agree(tail);
        lemma_sums_agree(tail.drop_last());
        assert(rest.skip(1) =~= tail.drop_last());
        assert(tail.last() == spans.last());
        assert(sum_of(rest) == rest[0].nanos + sum_of(rest.skip(1)));
        assert(rest[0] == spans[0]);
    }
}

/// How slow a replica counts as: the average of its samples in whole nanoseconds,
/// in sixty-four bits; without samples as slow as nine billion seconds and more.
pub open spec fn slowness(policy: AdaptiveView, replica: ReplicaId) -> int {
    if policy.samples.dom().contains(replica) {
        (sum_of(policy.samples[replica]) / policy.samples[replica].len() as int)
            % 0x1_0000_0000_0000_0000
    } else {
        9_223_372_036_854_775_807_000_000_000
    }
}

/// The adaptive order: the replicas in turn through the first epochs, then the
/// faster before the slower, and even ones in the order of their identities.
/// Every so many epochs a replica in turn is put in front, and only it.
pub proof fn faster_replicas_come_first(
    policy: AdaptiveView,
    slot: SlotIndex,
    replicas: Seq<ReplicaId>,
)
    requires
        replicas.no_duplicates(),
        replicas.len() > 0,
        policy.epoch_size > 0,
        policy.reexplore_every_epochs > 0,
        forall|replica: ReplicaId| #[trigger]
            policy.samples.dom().contains(replica) ==> policy.samples[replica].len() > 0,
    ensures
        ({
            let order = policy.order(slot, replicas);
            let n = replicas.len() as int;
            let epoch = slot.0 as int / policy.epoch_size as int;
            let since = epoch - (2 * n + 1);
            let every = policy.reexplore_every_epochs as int;
            let explores = since > 0 && since % every == 0;
            &&& order.len() == n
            &&& since < 0 ==> forall|k: int|
                0 <= k < n ==> #[trigger] order[k] == replicas[(epoch + k) % n]
            &&& since >= 0 ==> forall|i: int, j: int|
                #![trigger order[i], order[j]]
                (if explores {
                    1int
                } else {
                    0int
                }) <= i < j < n ==> slowness(policy, order[i]) < slowness(policy, order[j]) || (
                slowness(policy, order[i]) == slowness(policy, order[j]) && order[i].0 < order[j].0)
            &&& explores ==> order[0] == replicas[(since / every) % n]
        }),
{
    let order = policy.order(slot, replicas);
    let n = replicas.len() as int;
    let epoch = slot.0 as int / policy.epoch_size as int;
    let since = epoch - (2 * n + 1);
    let every = policy.reexplore_every_epochs as int;
    if since < 0 {
        rotations_go_round(replicas, epoch % n);
        assert forall|k: int| 0 <= k < n implies #[trigger] order[k] == replicas[(epoch + k) % n] by {
            vstd::arithmetic::div_mod::lemma_add_mod_noop(epoch, k, n);
            vstd::arithmetic::div_mod::lemma_add_mod_noop(epoch % n, k, n);
            vstd::arithmetic::div_mod::lemma_mod_twice(epoch, n);
        }
    } else {
        let entries = policy.scores(replicas);
        let best = ranking::ranked(entries);
        let ids = policy.by_speed(replicas);
        assert(ranking::ids_of(entries) =~= replicas);
        assert(ranking::is_ordered(entries));
        ranking::ranking_is_descending(entries);
        policy::speed_ranking_keeps_replicas(policy, replicas);
        assert forall|replica: ReplicaId| #[trigger] policy.score(replica).nanos == slowness(
            policy,
            replica,
        ) by {
            if policy.samples.dom().contains(replica) {
                lemma_sums_agree(policy.samples[replica]);
            }
        }
        assert forall|i: int, j: int|
            #![trigger ids[i], ids[j]]
            0 <= i < j < ids.len() implies slowness(policy, ids[i]) < slowness(policy, ids[j]) || (
        slowness(policy, ids[i]) == slowness(policy, ids[j]) && ids[i].0 < ids[j].0) by {
            assert(best.contains(best[i]) && best.contains(best[j]));
            assert(entries.contains(best[i]) && entries.contains(best[j]));
            assert(ranking::precedes(best[i], best[j]));
            assert(policy.score(ids[i]).nanos == slowness(policy, ids[i]));
            assert(policy.score(ids[j]).nanos == slowness(policy, ids[j]));
        }
        if since > 0 && since % every == 0 {
            let chosen = replicas[(since / every) % n];
            assert(replicas.contains(chosen));
            assert(ids.contains(chosen));
            crate::tuner_laws::lemma_position_holds(ids, chosen);
            let place = ranking::position(ids, chosen);
            assert forall|i: int, j: int|
                #![trigger order[i], order[j]]
                1 <= i < j < n implies slowness(policy, order[i]) < slowness(policy, order[j]) || (
            slowness(policy, order[i]) == slowness(policy, order[j]) && order[i].0 < order[j].0) by {
                let a = if i - 1 < place {
                    i - 1
                } else {
                    i
                };
                let b = if j - 1 < place {
                    j - 1
                } else {
                    j
                };
                assert(order[i] == ids[a] && order[j] == ids[b]);
            }
        }
    }
}

/// How many samples are no longer than a bound.
pub open spec fn count_within(spans: Seq<Span>, bound: int) -> int
    decreases spans.len(),
{
    if spans.len() == 0 {
        0
    } else {
        count_within(spans.drop_last(), bound) + if spans.last().nanos <= bound {
            1int
        } else {
            0int
        }
    }
}

/// Placing a sample among others counts it once.
proof fn lemma_count_placed(spans: Seq<Span>, span: Span, bound: int)
    ensures
        count_within(schedule::span_placed(spans, span), bound) == count_within(spans, bound)
            + if span.nanos <= bound {
            1int
        } else {
            0int
        },
    decreases spans.len(),
{
    if spans.len() > 0 && span.nanos < spans.last().nanos {
        let rest = spans.drop_last();
        lemma_count_placed(rest, span, bound);
        let inner = schedule::span_placed(rest, span);
        assert(schedule::span_placed(spans, span).drop_last() =~= inner);
    } else {
        assert(spans.push(span).drop_last() =~= spans);
    }
}

/// Ordering samples keeps how many are within a bound.
proof fn lemma_count_ordered(spans: Seq<Span>, bound: int)
    ensures
        count_within(schedule::shortest_first(spans), bound) == count_within(spans, bound),
    decreases spans.len(),
{
    if spans.len() > 0 {
        lemma_count_ordered(spans.drop_last(), bound);
        lemma_count_placed(schedule::shortest_first(spans.drop_last()), spans.last(), bound);
    }
}

/// Of ordered samples, those up to a place are within its sample, and only those
/// before it can be shorter.
proof fn lemma_count_at_place(ordered: Seq<Span>, place: int, bound: int)
    requires
        0 <= place < ordered.len(),
        forall|i: int, j: int|
            0 <= i < j < ordered.len() ==> (#[trigger] ordered[i]).nanos <= (
            #[trigger] ordered[j]).nanos,
    ensures
        bound >= ordered[place].nanos ==> count_within(ordered, bound) >= place + 1,
        bound < ordered[place].nanos ==> count_within(ordered, bound) <= place,
    decreases ordered.len(),
{
    let rest = ordered.drop_last();
    assert(ordered[ordered.len() - 1] == ordered.last());
    if place < rest.len() {
        assert(rest[place] == ordered[place]);
        assert forall|i: int, j: int| 0 <= i < j < rest.len() implies (#[trigger] rest[i]).nanos
            <= (#[trigger] rest[j]).nanos by {
            assert(ordered[i].nanos <= ordered[j].nanos);
        }
        lemma_count_at_place(rest, place, bound);
        assert(ordered[place].nanos <= ordered[ordered.len() - 1].nanos);
    } else {
        lemma_count_bounds(rest, bound);
        if bound >= ordered[place].nanos {
            assert forall|i: int| 0 <= i < rest.len() implies (#[trigger] rest[i]).nanos
                <= bound by {
                assert(ordered[i].nanos <= ordered[place].nanos);
            }
        }
    }
}

proof fn lemma_count_bounds(spans: Seq<Span>, bound: int)
    ensures
        0 <= count_within(spans, bound) <= spans.len(),
        (forall|i: int| 0 <= i < spans.len() ==> (#[trigger] spans[i]).nanos <= bound)
            ==> count_within(spans, bound) == spans.len(),
    decreases spans.len(),
{
    if spans.len() > 0 {
        let rest = spans.drop_last();
        lemma_count_bounds(rest, bound);
        assert(spans[spans.len() - 1] == spans.last());
        if forall|i: int| 0 <= i < spans.len() ==> (#[trigger] spans[i]).nanos <= bound {
            assert forall|i: int| 0 <= i < rest.len() implies (#[trigger] rest[i]).nanos <= bound by {
                assert(spans[i] == rest[i]);
            }
        }
    }
}

/// An adaptive delay is a percentile of the newest samples, within its bounds.
/// The samples are those before with the new one behind, without the oldest where
/// they would outgrow the window. At least the percentile's share of them are no
/// longer than the value, and fewer than its share are shorter. Without adaptive
/// hedging nothing changes.
pub proof fn delays_are_percentiles(delay: DelayView, elapsed: Span)
    requires
        delay.config matches Some(config) ==> config.valid(),
    ensures
        ({
            let after = delay.observe(elapsed);
            match delay.config {
                None => after == delay,
                Some(config) => {
                    let all = delay.samples.push(elapsed);
                    let n = after.samples.len();
                    &&& after.config == delay.config
                    &&& n == vstd::math::min(all.len() as int, config.sample_window as int)
                    &&& after.samples == all.skip(all.len() - n)
                    &&& exists|i: int|
                        0 <= i < n && {
                            let value = (#[trigger] after.samples[i]).nanos;
                            &&& 100 * count_within(after.samples, value as int) >= n
                                * config.percentile
                            &&& 100 * count_within(after.samples, value - 1) < n * config.percentile
                            &&& after.current.nanos == if value < config.min_delay.nanos {
                                config.min_delay.nanos
                            } else if value > config.max_delay.nanos {
                                config.max_delay.nanos
                            } else {
                                value
                            }
                        }
                },
            }
        }),
{
    broadcast use vstd::seq_lib::group_to_multiset_ensures;

    let after = delay.observe(elapsed);
    if let Some(config) = delay.config {
        let all = delay.samples.push(elapsed);
        let samples = after.samples;
        let n = samples.len() as int;
        assert(samples =~= all.skip(all.len() - n));
        assert(n >= 1);
        let share = config.percentile as int;
        let place = schedule::percentile_place(n, share);
        assert(1 <= n * share <= n * 100) by (nonlinear_arith)
            requires
                n >= 1,
                1 <= share <= 100,
        ;
        assert(0 <= place < n);
        let ordered = schedule::shortest_first(samples);
        schedule::spans_are_ordered(samples);
        let value = ordered[place];
        lemma_count_at_place(ordered, place, value.nanos as int);
        lemma_count_at_place(ordered, place, value.nanos - 1);
        lemma_count_ordered(samples, value.nanos as int);
        lemma_count_ordered(samples, value.nanos - 1);
        assert(samples.contains(value)) by {
            assert(ordered.contains(value));
            assert(ordered.to_multiset().contains(value));
        }
        let i = choose|i: int| 0 <= i < samples.len() && samples[i] == value;
        assert(samples[i] == value);
    }
}

} // verus!
