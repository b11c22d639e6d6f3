//! Laws of the order in which automatic tuning lists the members: by what the
//! committed log shows of them as leaders.

use crate::collections;
use crate::error::ErrorView;
use crate::key::Key;
use crate::ranking;
use crate::schedule::{EpochStat, ScheduleView};
use crate::tuner;
use crate::tuner::{Fitness, TunerView};
use crate::tuner_laws;
use crate::types::{ReplicaId, SlotIndex, Step};
use vstd::prelude::*;

verus! {

/// Whether a replica led an epoch that statistics are kept of.
pub open spec fn led_in(stats: Map<u64, EpochStat>, leader: ReplicaId, epoch: int) -> bool {
    &&& 0 <= epoch <= u64::MAX
    &&& stats.dom().contains(epoch as u64)
    &&& stats[epoch as u64].leader == leader
}

/// Whether a replica led any of the epochs between two bounds.
pub open spec fn has_led(
    stats: Map<u64, EpochStat>,
    leader: ReplicaId,
    low: int,
    high: int,
) -> bool {
    exists|epoch: int| low <= epoch <= high && #[trigger] led_in(stats, leader, epoch)
}

/// How many committed slots a replica led in the epochs between two bounds.
pub open spec fn slots_led(
    stats: Map<u64, EpochStat>,
    leader: ReplicaId,
    low: int,
    high: int,
) -> int
    decreases high - low + 1,
{
    if high < low {
        0
    } else {
        slots_led(stats, leader, low, high - 1) + if led_in(stats, leader, high) {
            stats[high as u64].slots as int
        } else {
            0
        }
    }
}

/// What the decided steps of those slots add up to.
pub open spec fn steps_led(
    stats: Map<u64, EpochStat>,
    leader: ReplicaId,
    low: int,
    high: int,
) -> int
    decreases high - low + 1,
{
    if high < low {
        0
    } else {
        steps_led(stats, leader, low, high - 1) + if led_in(stats, leader, high) {
            stats[high as u64].decided_step_total as int
        } else {
            0
        }
    }
}

/// Sums over so many epochs stay below so many times what one can count.
proof fn lemma_sums_are_bounded(
    stats: Map<u64, EpochStat>,
    leader: ReplicaId,
    low: int,
    high: int,
)
    requires
        high - low <= 64,
    ensures
        0 <= slots_led(stats, leader, low, high) <= 65 * u64::MAX,
        0 <= steps_led(stats, leader, low, high) <= 65 * u64::MAX,
        high >= low ==> slots_led(stats, leader, low, high) <= (high - low + 1) * u64::MAX,
        high >= low ==> steps_led(stats, leader, low, high) <= (high - low + 1) * u64::MAX,
    decreases high - low + 1,
{
    if high >= low {
        lemma_sums_are_bounded(stats, leader, low, high - 1);
        assert((high - low + 1) * u64::MAX == (high - low) * u64::MAX + u64::MAX) by (nonlinear_arith);
        assert((high - low + 1) * u64::MAX <= 65 * u64::MAX) by (nonlinear_arith)
            requires
                high - low + 1 <= 65,
        ;
    }
}

/// A replica that led has slots to show for it.
proof fn lemma_leading_counts(
    stats: Map<u64, EpochStat>,
    leader: ReplicaId,
    low: int,
    high: int,
)
    requires
        has_led(stats, leader, low, high),
        forall|epoch: u64| #[trigger] stats.dom().contains(epoch) ==> stats[epoch].slots > 0,
    ensures
        slots_led(stats, leader, low, high) > 0,
    decreases high - low + 1,
{
    let epoch = choose|epoch: int| low <= epoch <= high && #[trigger] led_in(stats, leader, epoch);
    lemma_sums_are_not_negative(stats, leader, low, high - 1);
    if epoch < high {
        assert(has_led(stats, leader, low, high - 1));
        lemma_leading_counts(stats, leader, low, high - 1);
    }
}

proof fn lemma_sums_are_not_negative(
    stats: Map<u64, EpochStat>,
    leader: ReplicaId,
    low: int,
    high: int,
)
    ensures
        slots_led(stats, leader, low, high) >= 0,
        steps_led(stats, leader, low, high) >= 0,
    decreases high - low + 1,
{
    if high >= low {
        lemma_sums_are_not_negative(stats, leader, low, high - 1);
    }
}

/// The window's end matters only to epochs that reach it.
proof fn lemma_shorter_window(
    epochs: Seq<u64>,
    stats: Map<u64, EpochStat>,
    leader: ReplicaId,
    low: int,
    high: int,
)
    requires
        forall|i: int| 0 <= i < epochs.len() ==> #[trigger] epochs[i] < high,
    ensures
        tuner::led_totals(epochs, stats, leader, low, high) == tuner::led_totals(
            epochs,
            stats,
            leader,
            low,
            high - 1,
        ),
    decreases epochs.len(),
{
    if epochs.len() > 0 {
        lemma_shorter_window(epochs.drop_last(), stats, leader, low, high);
        assert(epochs[epochs.len() - 1] == epochs.last());
    }
}

/// A listing of the epochs adds up to the sums over the window.
proof fn lemma_totals_are_sums(
    epochs: Seq<u64>,
    stats: Map<u64, EpochStat>,
    leader: ReplicaId,
    low: int,
    high: int,
)
    requires
        collections::ascending(epochs),
        forall|epoch: u64|
            low <= epoch <= high ==> (#[trigger] epochs.contains(epoch) <==> stats.dom().contains(
                epoch,
            )),
    ensures
        tuner::led_totals(epochs, stats, leader, low, high) == if has_led(stats, leader, low, high) {
            Some((slots_led(stats, leader, low, high), steps_led(stats, leader, low, high)))
        } else {
            None
        },
        !has_led(stats, leader, low, high) ==> slots_led(stats, leader, low, high) == 0
            && steps_led(stats, leader, low, high) == 0,
    decreases
            epochs.len(),
            if high >= low {
                high - low + 1
            } else {
                0
            },
{
    if epochs.len() > 0 && (epochs.last() > high || high < low) {
        let rest = epochs.drop_last();
        assert(epochs[epochs.len() - 1] == epochs.last());
        lemma_ascending_rest(epochs);
        assert forall|epoch: u64| low <= epoch <= high implies (#[trigger] rest.contains(epoch)
            <==> stats.dom().contains(epoch)) by {
            assert(epochs.contains(epoch) == stats.dom().contains(epoch));
            if epochs.contains(epoch) {
                let k = choose|k: int| 0 <= k < epochs.len() && epochs[k] == epoch;
                assert(rest[k] == epoch);
            }
            if rest.contains(epoch) {
                let k = choose|k: int| 0 <= k < rest.len() && rest[k] == epoch;
                assert(epochs[k] == epoch);
            }
        }
        lemma_totals_are_sums(rest, stats, leader, low, high);
    } else if high < low {
    } else if epochs.len() > 0 && epochs.last() == high {
        let rest = epochs.drop_last();
        assert(epochs[epochs.len() - 1] == epochs.last());
        assert(epochs.contains(high as u64));
        lemma_ascending_rest(epochs);
        assert forall|epoch: u64| low <= epoch <= high - 1 implies (#[trigger] rest.contains(epoch)
            <==> stats.dom().contains(epoch)) by {
            assert(epochs.contains(epoch) == stats.dom().contains(epoch));
            if epochs.contains(epoch) {
                let k = choose|k: int| 0 <= k < epochs.len() && epochs[k] == epoch;
                assert(rest[k] == epoch);
            }
            if rest.contains(epoch) {
                let k = choose|k: int| 0 <= k < rest.len() && rest[k] == epoch;
                assert(epochs[k] == epoch);
            }
        }
        assert forall|i: int| 0 <= i < rest.len() implies #[trigger] rest[i] < high by {
            assert(epochs[i].rank() < epochs[epochs.len() - 1].rank());
        }
        lemma_shorter_window(rest, stats, leader, low, high);
        lemma_totals_are_sums(rest, stats, leader, low, high - 1);
        lemma_has_led_grows(stats, leader, low, high);
    } else {
        assert(!led_in(stats, leader, high)) by {
            if led_in(stats, leader, high) {
                assert(epochs.contains(high as u64));
                let k = choose|k: int| 0 <= k < epochs.len() && epochs[k] == high as u64;
                if k < epochs.len() - 1 {
                    assert(epochs[k].rank() < epochs[epochs.len() - 1].rank());
                }
            }
        }
        assert forall|i: int| 0 <= i < epochs.len() implies #[trigger] epochs[i] < high by {
            if i < epochs.len() - 1 {
                assert(epochs[i].rank() < epochs[epochs.len() - 1].rank());
            }
        }
        lemma_shorter_window(epochs, stats, leader, low, high);
        lemma_totals_are_sums(epochs, stats, leader, low, high - 1);
        lemma_has_led_grows(stats, leader, low, high);
    }
}

proof fn lemma_has_led_grows(
    stats: Map<u64, EpochStat>,
    leader: ReplicaId,
    low: int,
    high: int,
)
    requires
        low <= high,
    ensures
        has_led(stats, leader, low, high) <==> has_led(stats, leader, low, high - 1) || led_in(
            stats,
            leader,
            high,
        ),
{
    if has_led(stats, leader, low, high) {
        let epoch = choose|epoch: int|
            low <= epoch <= high && #[trigger] led_in(stats, leader, epoch);
        if epoch < high {
            assert(low <= epoch <= high - 1 && led_in(stats, leader, epoch));
        }
    }
    if has_led(stats, leader, low, high - 1) {
        let epoch = choose|epoch: int|
            low <= epoch <= high - 1 && #[trigger] led_in(stats, leader, epoch);
        assert(low <= epoch <= high && led_in(stats, leader, epoch));
    }
}

proof fn lemma_ascending_rest(epochs: Seq<u64>)
    requires
        collections::ascending(epochs),
        epochs.len() > 0,
    ensures
        collections::ascending(epochs.drop_last()),
{
    let rest = epochs.drop_last();
    assert forall|i: int, j: int| 0 <= i < j < rest.len() implies (#[trigger] rest[i]).rank() < (
    #[trigger] rest[j]).rank() by {
        assert(epochs[i].rank() < epochs[j].rank());
    }
}

/// Whether one replica stands before another in an epoch's ranking: the lower
/// average of decided steps over the trailing sixty-four epochs, up to two before
/// the epoch, comes first; a replica that led none of them comes after all that
/// did; and the lower identity comes first where that is even.
pub open spec fn ranks_before(
    stats: Map<u64, EpochStat>,
    epoch: int,
    a: ReplicaId,
    b: ReplicaId,
) -> bool {
    let (low, high) = (epoch - 65, epoch - 2);
    let (led_a, led_b) = (has_led(stats, a, low, high), has_led(stats, b, low, high));
    let left = steps_led(stats, a, low, high) * slots_led(stats, b, low, high);
    let right = steps_led(stats, b, low, high) * slots_led(stats, a, low, high);
    if led_a && led_b {
        left < right || (left == right && a.0 < b.0)
    } else if led_a {
        true
    } else {
        !led_b && a.0 < b.0
    }
}

/// A member's record is what the statistics of the window add up to.
proof fn lemma_fitness_is_sums(tuner: TunerView, epoch: int, member: ReplicaId)
    requires
        tuner.stats.dom().finite(),
    ensures
        ({
            let (low, high) = (epoch - 65, epoch - 2);
            match tuner.fitness(epoch, member).record {
                Some(record) => {
                    &&& has_led(tuner.stats, member, low, high)
                    &&& record.0 == slots_led(tuner.stats, member, low, high)
                    &&& record.1 == steps_led(tuner.stats, member, low, high)
                },
                None => !has_led(tuner.stats, member, low, high),
            }
        }),
{
    let epochs = collections::in_order(tuner.stats.dom());
    collections::lemma_in_order_exists(tuner.stats.dom());
    lemma_totals_are_sums(epochs, tuner.stats, member, epoch - 65, epoch - 2);
    lemma_sums_are_bounded(tuner.stats, member, epoch - 65, epoch - 2);
}

/// Averages are compared as fractions are.
proof fn lemma_fractions_in_order(sa: int, ta: int, sb: int, tb: int, sc: int, tc: int)
    requires
        sa > 0,
        sb > 0,
        sc > 0,
        ta * sb <= tb * sa,
        tb * sc <= tc * sb,
    ensures
        ta * sc <= tc * sa,
        ta * sc == tc * sa ==> ta * sb == tb * sa && tb * sc == tc * sb,
{
    assert(ta * sc * sb <= tb * sa * sc) by (nonlinear_arith)
        requires
            ta * sb <= tb * sa,
            sc > 0,
    ;
    assert(tb * sc * sa <= tc * sb * sa) by (nonlinear_arith)
        requires
            tb * sc <= tc * sb,
            sa > 0,
    ;
    assert(tb * sa * sc == tb * sc * sa) by (nonlinear_arith);
    assert(ta * sc * sb <= tc * sa * sb) by (nonlinear_arith)
        requires
            ta * sc * sb <= tb * sa * sc,
            tb * sa * sc == tb * sc * sa,
            tb * sc * sa <= tc * sb * sa,
    ;
    assert(ta * sc <= tc * sa) by (nonlinear_arith)
        requires
            ta * sc * sb <= tc * sa * sb,
            sb > 0,
    ;
    if ta * sc == tc * sa {
        assert(ta * sb == tb * sa) by (nonlinear_arith)
            requires
                ta * sc == tc * sa,
                ta * sb <= tb * sa,
                tb * sc <= tc * sb,
                sa > 0,
                sb > 0,
                sc > 0,
                ta * sc * sb <= tb * sa * sc,
                tb * sa * sc == tb * sc * sa,
                tb * sc * sa <= tc * sb * sa,
        ;
        assert(tb * sc == tc * sb) by (nonlinear_arith)
            requires
                ta * sc == tc * sa,
                tb * sc <= tc * sb,
                sa > 0,
                sb > 0,
                sc > 0,
                ta * sc * sb <= tb * sa * sc,
                tb * sa * sc == tb * sc * sa,
                tb * sc * sa <= tc * sb * sa,
        ;
    }
}

/// Standing before is an order.
proof fn lemma_ranks_are_ordered(
    stats: Map<u64, EpochStat>,
    epoch: int,
    a: ReplicaId,
    b: ReplicaId,
    c: ReplicaId,
)
    requires
        forall|kept: u64| #[trigger] stats.dom().contains(kept) ==> stats[kept].slots > 0,
    ensures
        a != b ==> ranks_before(stats, epoch, a, b) != ranks_before(stats, epoch, b, a),
        ranks_before(stats, epoch, a, b) && ranks_before(stats, epoch, b, c) ==> ranks_before(
            stats,
            epoch,
            a,
            c,
        ),
{
    let (low, high) = (epoch - 65, epoch - 2);
    let (la, lb, lc) = (
        has_led(stats, a, low, high),
        has_led(stats, b, low, high),
        has_led(stats, c, low, high),
    );
    if la && lb && lc {
        lemma_leading_counts(stats, a, low, high);
        lemma_leading_counts(stats, b, low, high);
        lemma_leading_counts(stats, c, low, high);
        if ranks_before(stats, epoch, a, b) && ranks_before(stats, epoch, b, c) {
            lemma_fractions_in_order(
                slots_led(stats, a, low, high),
                steps_led(stats, a, low, high),
                slots_led(stats, b, low, high),
                steps_led(stats, b, low, high),
                slots_led(stats, c, low, high),
                steps_led(stats, c, low, high),
            );
        }
    }
}

/// The members in the order of their records.
proof fn lemma_ranking_follows_records(tuner: TunerView, epoch: int)
    requires
        tuner.stats.dom().finite(),
        tuner.members.no_duplicates(),
        forall|kept: u64| #[trigger]
            tuner.stats.dom().contains(kept) ==> tuner.stats[kept].slots > 0,
    ensures
        forall|i: int, j: int|
            0 <= i < j < tuner.by_fitness(epoch).len() ==> ranks_before(
                tuner.stats,
                epoch,
                #[trigger] tuner.by_fitness(epoch)[i],
                #[trigger] tuner.by_fitness(epoch)[j],
            ),
{
    let entries = tuner.members.map_values(
        |member: ReplicaId| (tuner.fitness(epoch, member), member),
    );
    assert(ranking::ids_of(entries) =~= tuner.members);
    assert forall|entry: (Fitness, ReplicaId)| #[trigger] entries.contains(entry) implies entry.0
        == tuner.fitness(epoch, entry.1) by {
        let k = choose|k: int| 0 <= k < entries.len() && entries[k] == entry;
    }
    assert forall|a: (Fitness, ReplicaId), b: (Fitness, ReplicaId)|
        #![trigger entries.contains(a), entries.contains(b)]
        entries.contains(a) && entries.contains(b) && a.1 != b.1 implies ranking::precedes(a, b)
        == ranks_before(tuner.stats, epoch, a.1, b.1) by {
        lemma_fitness_is_sums(tuner, epoch, a.1);
        lemma_fitness_is_sums(tuner, epoch, b.1);
    }
    assert(ranking::is_ordered(entries)) by {
        assert forall|a: (Fitness, ReplicaId), b: (Fitness, ReplicaId)|
            #![trigger entries.contains(a), entries.contains(b)]
            entries.contains(a) && entries.contains(b) && a.1 != b.1 implies ranking::precedes(a, b)
            != ranking::precedes(b, a) by {
            lemma_ranks_are_ordered(tuner.stats, epoch, a.1, b.1, a.1);
        }
        assert forall|
            a: (Fitness, ReplicaId),
            b: (Fitness, ReplicaId),
            c: (Fitness, ReplicaId),
        |
            #![trigger entries.contains(a), entries.contains(b), entries.contains(c)]
            entries.contains(a) && entries.contains(b) && entries.contains(c) && ranking::precedes(
                a,
                b,
            ) && ranking::precedes(b, c) implies ranking::precedes(a, c) by {
            if a.1 == b.1 {
                assert(a == b);
            } else if b.1 == c.1 {
                assert(b == c);
            } else {
                lemma_ranks_are_ordered(tuner.stats, epoch, a.1, b.1, c.1);
                if a.1 == c.1 {
                    assert(a == c);
                    lemma_ranks_are_ordered(tuner.stats, epoch, a.1, b.1, a.1);
                }
            }
        }
    }
    ranking::ranking_is_descending(entries);
    tuner_laws::lemma_ranking_is_distinct(tuner, epoch);
    let best = ranking::ranked(entries);
    let ids = tuner.by_fitness(epoch);
    assert forall|i: int, j: int| 0 <= i < j < ids.len() implies ranks_before(
        tuner.stats,
        epoch,
        #[trigger] ids[i],
        #[trigger] ids[j],
    ) by {
        assert(best.contains(best[i]) && best.contains(best[j]));
        assert(entries.contains(best[i]) && entries.contains(best[j]));
        assert(ids[i] == best[i].1 && ids[j] == best[j].1);
        assert(ranking::precedes(best[i], best[j]));
    }
}

/// A derived schedule lists the most effective leaders first. After the warm-up
/// each member stands before all whose record over the trailing epochs is worse:
/// the lower average decided step comes first, members that led nothing come
/// last, and even ones stand in the order of their identities. Every
/// thirty-second epoch a member in turn is put in front, and only it.
pub proof fn schedules_rank_by_average_step(tuner: TunerView, epoch: u64)
    requires
        tuner.stats.dom().finite(),
        tuner.members.no_duplicates(),
        epoch >= 2 * tuner.members.len() + 1,
        forall|kept: u64| #[trigger]
            tuner.stats.dom().contains(kept) ==> tuner.stats[kept].slots > 0,
    ensures
        tuner.derive(epoch) matches Ok(schedule) ==> {
            let since = epoch - (2 * tuner.members.len() + 1);
            let order = schedule.proposers;
            let explores = since > 0 && since % 32 == 0;
            &&& forall|i: int, j: int|
                (if explores {
                    1int
                } else {
                    0int
                }) <= i < j < order.len() ==> ranks_before(
                    tuner.stats,
                    epoch as int,
                    #[trigger] order[i],
                    #[trigger] order[j],
                )
            &&& explores ==> order[0] == tuner.members[(since / 32) % (tuner.members.len() as int)]
        },
{
    if tuner.derive(epoch) is Ok {
        let since = epoch - (2 * tuner.members.len() + 1);
        let count = tuner.members.len() as int;
        let best = tuner.by_fitness(epoch as int);
        let order = tuner.derive(epoch)->Ok_0.proposers;
        lemma_ranking_follows_records(tuner, epoch as int);
        if since > 0 && since % 32 == 0 {
            if count > 0 {
                let chosen = tuner.members[(since / 32) % count];
                tuner_laws::lemma_ranking_keeps_members(tuner, epoch as int);
                assert(tuner.members.contains(chosen));
                assert(tuner.members.to_set().contains(chosen));
                assert(best.to_set().contains(chosen));
                tuner_laws::lemma_position_holds(best, chosen);
                let place = ranking::position(best, chosen);
                assert forall|i: int, j: int| 1 <= i < j < order.len() implies ranks_before(
                    tuner.stats,
                    epoch as int,
                    #[trigger] order[i],
                    #[trigger] order[j],
                ) by {
                    let a = if i - 1 < place {
                        i - 1
                    } else {
                        i
                    };
                    let b = if j - 1 < place {
                        j - 1
                    } else {
                        j
                    };
                    assert(order[i] == best[a] && order[j] == best[b]);
                }
            } else {
                tuner_laws::lemma_ranking_is_distinct(tuner, epoch as int);
            }
        }
    }
}

/// A committed slot counts once, for the leader of its epoch's schedule, with the
/// step at which it was decided. Other epochs' statistics stay, but for those
/// more than sixty-four epochs back, which are dropped.
pub proof fn commits_are_counted_for_their_leader(tuner: TunerView, slot: SlotIndex, step: Step)
    requires
        tuner.epoch_size > 0,
        tuner.note_committed(slot, step).1 == Ok::<bool, ErrorView>(true),
    ensures
        ({
            let after = tuner.note_committed(slot, step).0;
            let epoch = (slot.0 / tuner.epoch_size) as u64;
            let known = tuner.stats.dom().contains(epoch);
            let slots = if known {
                tuner.stats[epoch].slots as int
            } else {
                0
            };
            let steps = if known {
                tuner.stats[epoch].decided_step_total as int
            } else {
                0
            };
            &&& slot.0 == tuner.stats_through.0 + 1
            &&& after.stats_through == slot
            &&& after.stats.dom().contains(epoch)
            &&& known ==> after.stats[epoch].leader == tuner.stats[epoch].leader
            &&& !known ==> (tuner.ensure_schedule(epoch).1 matches Ok(schedule)
                && after.stats[epoch].leader == schedule.proposers[0])
            &&& after.stats[epoch].slots == vstd::math::min(slots + 1, u64::MAX as int)
            &&& after.stats[epoch].decided_step_total == vstd::math::min(
                steps + step.0,
                u64::MAX as int,
            )
            &&& forall|other: u64|
                other != epoch ==> {
                    &&& #[trigger] after.stats.dom().contains(other) <==> tuner.stats.dom().contains(
                        other,
                    ) && other + 64 >= epoch
                    &&& after.stats.dom().contains(other) ==> after.stats[other]
                        == tuner.stats[other]
                }
        }),
{
}

} // verus!
