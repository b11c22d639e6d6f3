//! Laws of automatic leader tuning.

use crate::collections;
use crate::error::ErrorView;
use crate::key::Key;
use crate::ranking;
use crate::schedule::{EpochStat, ScheduleView};
use crate::tuner;
use crate::tuner::{TunerView, AUTO_REEXPLORE_EPOCHS, RETAINED_STAT_EPOCHS};
use crate::types::{ReplicaId, SlotIndex, Step};
use vstd::prelude::*;

verus! {

/// Whether two sets of statistics are the same between two bounds.
pub open spec fn same_between(
    a: Map<u64, EpochStat>,
    b: Map<u64, EpochStat>,
    low: int,
    high: int,
) -> bool {
    forall|epoch: u64|
        low <= epoch <= high ==> (#[trigger] a.dom().contains(epoch) == b.dom().contains(epoch)
            && (a.dom().contains(epoch) ==> a[epoch] == b[epoch]))
}

/// The epochs of a listing that are between two bounds.
spec fn windowed(epochs: Seq<u64>, low: int, high: int) -> Seq<u64>
    decreases epochs.len(),
{
    if epochs.len() == 0 {
        Seq::empty()
    } else {
        let rest = windowed(epochs.drop_last(), low, high);
        if low <= epochs.last() <= high {
            rest.push(epochs.last())
        } else {
            rest
        }
    }
}

/// Only the epochs between the bounds count.
proof fn lemma_totals_of_window(
    epochs: Seq<u64>,
    stats: Map<u64, EpochStat>,
    leader: ReplicaId,
    low: int,
    high: int,
)
    ensures
        tuner::led_totals(epochs, stats, leader, low, high) == tuner::led_totals(
            windowed(epochs, low, high),
            stats,
            leader,
            low,
            high,
        ),
    decreases epochs.len(),
{
    if epochs.len() > 0 {
        let rest = epochs.drop_last();
        lemma_totals_of_window(rest, stats, leader, low, high);
        if low <= epochs.last() <= high {
            assert(windowed(epochs, low, high).drop_last() =~= windowed(rest, low, high));
        }
    }
}

/// Equal statistics give equal totals.
proof fn lemma_totals_agree(
    epochs: Seq<u64>,
    a: Map<u64, EpochStat>,
    b: Map<u64, EpochStat>,
    leader: ReplicaId,
    low: int,
    high: int,
)
    requires
        forall|i: int| 0 <= i < epochs.len() ==> a[#[trigger] epochs[i]] == b[epochs[i]],
    ensures
        tuner::led_totals(epochs, a, leader, low, high) == tuner::led_totals(
            epochs,
            b,
            leader,
            low,
            high,
        ),
    decreases epochs.len(),
{
    if epochs.len() > 0 {
        let rest = epochs.drop_last();
        assert forall|i: int| 0 <= i < rest.len() implies a[#[trigger] rest[i]] == b[rest[i]] by {
            assert(rest[i] == epochs[i]);
        }
        lemma_totals_agree(rest, a, b, leader, low, high);
        assert(epochs[epochs.len() - 1] == epochs.last());
    }
}

/// A filtered listing is in order and holds what the filter lets through.
proof fn lemma_filtered_listing(epochs: Seq<u64>, low: int, high: int)
    requires
        collections::ascending(epochs),
    ensures
        collections::ascending(windowed(epochs, low, high)),
        forall|epoch: u64| #[trigger]
            windowed(epochs, low, high).contains(epoch) <==> (epochs.contains(
                epoch,
            ) && low <= epoch <= high),
    decreases epochs.len(),
{
    let kept = windowed(epochs, low, high);
    if epochs.len() > 0 {
        let rest = epochs.drop_last();
        let last = epochs.last();
        assert(collections::ascending(rest)) by {
            assert forall|i: int, j: int| 0 <= i < j < rest.len() implies (#[trigger] rest[i]).rank()
                < (#[trigger] rest[j]).rank() by {
                assert(epochs[i].rank() < epochs[j].rank());
            }
        }
        lemma_filtered_listing(rest, low, high);
        let before = windowed(rest, low, high);
        assert(epochs[epochs.len() - 1] == last);
        if low <= last <= high {
            assert(kept =~= before.push(last));
            assert forall|i: int, j: int| 0 <= i < j < kept.len() implies (#[trigger] kept[i]).rank()
                < (#[trigger] kept[j]).rank() by {
                if j == before.len() {
                    assert(before.contains(before[i]));
                    assert(rest.contains(kept[i]));
                    let k = choose|k: int| 0 <= k < rest.len() && rest[k] == kept[i];
                    assert(epochs[k].rank() < epochs[epochs.len() - 1].rank());
                } else {
                    assert(before[i].rank() < before[j].rank());
                }
            }
        } else {
            assert(kept =~= before);
        }
        assert forall|epoch: u64| #[trigger] kept.contains(epoch) <==> (epochs.contains(epoch)
            && low <= epoch <= high) by {
            if kept.contains(epoch) {
                let k = choose|k: int| 0 <= k < kept.len() && kept[k] == epoch;
                if k < before.len() {
                    assert(before[k] == epoch);
                    assert(before.contains(epoch));
                    let m = choose|m: int| 0 <= m < rest.len() && rest[m] == epoch;
                    assert(epochs[m] == epoch);
                } else {
                    assert(epoch == last);
                }
            }
            if epochs.contains(epoch) && low <= epoch <= high {
                let m = choose|m: int| 0 <= m < epochs.len() && epochs[m] == epoch;
                if m < rest.len() {
                    assert(rest[m] == epoch);
                    assert(rest.contains(epoch));
                    assert(before.contains(epoch));
                    let k = choose|k: int| 0 <= k < before.len() && before[k] == epoch;
                    assert(kept[k] == epoch);
                } else {
                    assert(kept[kept.len() - 1] == last);
                }
            }
        }
    }
}

/// A leader's totals depend on the trailing epochs' statistics alone.
proof fn lemma_window_decides(
    a: Map<u64, EpochStat>,
    b: Map<u64, EpochStat>,
    leader: ReplicaId,
    low: int,
    high: int,
)
    requires
        a.dom().finite(),
        b.dom().finite(),
        same_between(a, b, low, high),
    ensures
        tuner::led_totals(collections::in_order(a.dom()), a, leader, low, high)
            == tuner::led_totals(collections::in_order(b.dom()), b, leader, low, high),
{
    let of_a = collections::in_order(a.dom());
    let of_b = collections::in_order(b.dom());
    collections::lemma_in_order_exists(a.dom());
    collections::lemma_in_order_exists(b.dom());
    lemma_totals_of_window(of_a, a, leader, low, high);
    lemma_totals_of_window(of_b, b, leader, low, high);
    lemma_filtered_listing(of_a, low, high);
    lemma_filtered_listing(of_b, low, high);
    let kept_a = windowed(of_a, low, high);
    let kept_b = windowed(of_b, low, high);
    assert(kept_a.to_set() =~= kept_b.to_set()) by {
        assert forall|epoch: u64| kept_a.to_set().contains(epoch) == kept_b.to_set().contains(
            epoch,
        ) by {
            assert(kept_a.to_set().contains(epoch) == kept_a.contains(epoch));
            assert(kept_b.to_set().contains(epoch) == kept_b.contains(epoch));
            assert(a.dom().contains(epoch) == of_a.contains(epoch));
            assert(b.dom().contains(epoch) == of_b.contains(epoch));
        }
    }
    collections::lemma_ascending_unique(kept_a, kept_b);
    assert forall|i: int| 0 <= i < kept_a.len() implies a[#[trigger] kept_a[i]] == b[kept_a[i]] by {
        assert(kept_a.contains(kept_a[i]));
        assert(a.dom().contains(kept_a[i]));
    }
    lemma_totals_agree(kept_a, a, b, leader, low, high);
}

/// Every replica derives the same schedule: it depends on the membership, the
/// epoch size and the trailing epochs' committed statistics alone.
pub proof fn schedules_are_derived_alike(a: TunerView, b: TunerView, epoch: u64)
    requires
        a.members == b.members,
        a.epoch_size == b.epoch_size,
        a.stats.dom().finite(),
        b.stats.dom().finite(),
        epoch < a.warmup() || (same_between(
            a.stats,
            b.stats,
            epoch - 1 - RETAINED_STAT_EPOCHS,
            epoch - 2,
        ) && a.stats_through.0 >= a.required_slot(epoch as int)
            && b.stats_through.0 >= b.required_slot(epoch as int)),
    ensures
        a.derive(epoch) == b.derive(epoch),
{
    if epoch >= a.warmup() {
        let low = epoch - 1 - RETAINED_STAT_EPOCHS;
        assert forall|member: ReplicaId| #[trigger] a.fitness(epoch as int, member) == b.fitness(
            epoch as int,
            member,
        ) by {
            lemma_window_decides(a.stats, b.stats, member, low, epoch - 2);
        }
        let scored_a = a.members.map_values(
            |member: ReplicaId| (a.fitness(epoch as int, member), member),
        );
        let scored_b = b.members.map_values(
            |member: ReplicaId| (b.fitness(epoch as int, member), member),
        );
        assert(scored_a =~= scored_b) by {
            assert forall|i: int| 0 <= i < scored_a.len() implies scored_a[i] == scored_b[i] by {
                assert(a.fitness(epoch as int, a.members[i]) == b.fitness(
                    epoch as int,
                    b.members[i],
                ));
            }
        }
    }
}

/// When an epoch's schedule is derived does not matter: once enough is
/// committed, further commits before the epoch leave it as it is.
pub proof fn derived_schedules_are_stable(
    tuner: TunerView,
    slot: SlotIndex,
    step: Step,
    epoch: u64,
)
    requires
        tuner.epoch_size > 0,
        tuner.stats.dom().finite(),
        tuner.note_committed(slot, step).1 is Ok,
        tuner.epoch_of(slot) < epoch,
        tuner.derive(epoch) is Ok,
    ensures
        tuner.note_committed(slot, step).0.derive(epoch) == tuner.derive(epoch),
{
    let (noted, result) = tuner.note_committed(slot, step);
    if result == Ok::<bool, ErrorView>(true) {
        let reached = tuner.epoch_of(slot);
        lemma_note_keeps_window(tuner, slot, step, epoch);
        schedules_are_derived_alike(tuner, noted, epoch);
    }
}

/// Committing a slot changes nothing that a later epoch's ranking looks at.
proof fn lemma_note_keeps_window(tuner: TunerView, slot: SlotIndex, step: Step, epoch: u64)
    requires
        tuner.epoch_size > 0,
        tuner.stats.dom().finite(),
        tuner.note_committed(slot, step).1 == Ok::<bool, ErrorView>(true),
        tuner.epoch_of(slot) < epoch,
        epoch < tuner.warmup() || tuner.stats_through.0 >= tuner.required_slot(epoch as int),
    ensures
        ({
            let noted = tuner.note_committed(slot, step).0;
            &&& noted.members == tuner.members
            &&& noted.epoch_size == tuner.epoch_size
            &&& noted.stats.dom().finite()
            &&& noted.stats_through == slot
            &&& epoch >= tuner.warmup() ==> same_between(
                tuner.stats,
                noted.stats,
                epoch - 1 - RETAINED_STAT_EPOCHS,
                epoch - 2,
            )
        }),
{
    let noted = tuner.note_committed(slot, step).0;
    let reached = tuner.epoch_of(slot);
    let size = tuner.epoch_size as int;
    assert(reached == slot.0 as int / size) by {
        vstd::arithmetic::div_mod::lemma_div_nonincreasing(slot.0 as int, size);
    }
    assert(noted.stats.dom().finite()) by {
        let all = tuner.stats.insert(reached, noted.stats[reached]).dom();
        assert(noted.stats.dom().subset_of(all));
        vstd::set_lib::lemma_set_subset_finite(all, noted.stats.dom());
    }
    if epoch >= tuner.warmup() {
        assert(reached >= epoch - 1) by {
            let start = (epoch - 1) * size;
            assert(slot.0 >= start);
            vstd::arithmetic::div_mod::lemma_div_is_ordered(start, slot.0 as int, size);
            vstd::arithmetic::div_mod::lemma_div_multiples_vanish(epoch - 1, size);
            assert(start == size * (epoch - 1)) by (nonlinear_arith)
                requires
                    start == (epoch - 1) * size,
            ;
        }
    }
}

/// A schedule that was installed or derived is never replaced by another.
pub proof fn kept_schedules_are_final(
    tuner: TunerView,
    epoch: u64,
    other: u64,
    schedule: ScheduleView,
    slot: SlotIndex,
    step: Step,
)
    requires
        tuner.schedules.dom().contains(epoch),
    ensures
        tuner.ensure_schedule(epoch) == (tuner, Ok::<ScheduleView, ErrorView>(
            tuner.schedules[epoch],
        )),
        tuner.ensure_schedule(other).0.schedules.dom().contains(epoch),
        tuner.ensure_schedule(other).0.schedules[epoch] == tuner.schedules[epoch],
        tuner.install(schedule).0.schedules.dom().contains(epoch),
        tuner.install(schedule).0.schedules[epoch] == tuner.schedules[epoch],
        ({
            let noted = tuner.note_committed(slot, step).0;
            noted.schedules.dom().contains(epoch) ==> noted.schedules[epoch]
                == tuner.schedules[epoch]
        }),
{
}

/// What is committed out of order is refused, and what is known is ignored.
pub proof fn statistics_are_contiguous(tuner: TunerView, slot: SlotIndex, step: Step)
    requires
        tuner.auto,
    ensures
        slot.0 > tuner.stats_through.0 + 1 ==> tuner.note_committed(slot, step).1 is Err,
        slot.0 <= tuner.stats_through.0 ==> tuner.note_committed(slot, step) == (tuner, Ok::<
            bool,
            ErrorView,
        >(false)),
        tuner.note_committed(slot, step).1 is Err ==> tuner.note_committed(slot, step).0 == tuner,
{
}

/// A rotation repeats no member.
pub proof fn lemma_rotation_is_distinct(members: Seq<ReplicaId>, place: int)
    requires
        members.no_duplicates(),
        0 <= place < members.len(),
    ensures
        ranking::rotation(members, place).no_duplicates(),
{
    let count = members.len() as int;
    let order = ranking::rotation(members, place);
    assert forall|i: int, j: int| 0 <= i < order.len() && 0 <= j < order.len() && i != j implies
        order[i] != order[j] by {
        let a = if i < count - place {
            i + place
        } else {
            i - (count - place)
        };
        let b = if j < count - place {
            j + place
        } else {
            j - (count - place)
        };
        assert(order[i] == members[a]);
        assert(order[j] == members[b]);
    }
}

/// The first epochs after a start let every member lead: each leads one of any
/// so many consecutive epochs as there are members.
pub proof fn warmup_lets_every_member_lead(tuner: TunerView, epoch: u64, place: int)
    requires
        0 <= place < tuner.members.len(),
        ranking::order_error(tuner.members) is None,
        epoch + tuner.members.len() <= tuner.warmup(),
        tuner.warmup() <= u64::MAX,
    ensures
        exists|later: u64|
            epoch <= later < epoch + tuner.members.len() && (#[trigger] tuner.derive(
                later,
            ) matches Ok(schedule) && schedule.leader() == tuner.members[place]),
{
    let count = tuner.members.len() as int;
    let offset = (place - epoch as int) % count;
    let later = (epoch + offset) as u64;
    vstd::arithmetic::div_mod::lemma_mod_bound(place - epoch as int, count);
    vstd::arithmetic::div_mod::lemma_add_mod_noop_right(
        epoch as int,
        place - epoch as int,
        count,
    );
    assert((epoch as int + offset) % count == place as int % count);
    vstd::arithmetic::div_mod::lemma_small_mod(place as nat, count as nat);
    assert(later as int % count == place);
    ranking::lemma_duplicated(tuner.members, 0);
    let order = ranking::rotation(tuner.members, place);
    lemma_rotation_is_distinct(tuner.members, place);
    ranking::lemma_duplicated(order, 0);
    assert(order[0] == tuner.members[place]);
    assert(tuner.derive(later) == Ok::<ScheduleView, ErrorView>(
        ScheduleView { epoch: later, proposers: order },
    ));
}

/// What one tuner keeps, another keeps too or would derive.
pub open spec fn covers(a: TunerView, b: TunerView) -> bool {
    forall|epoch: u64| #[trigger]
        a.schedules.dom().contains(epoch) ==> if b.schedules.dom().contains(epoch) {
            b.schedules[epoch] == a.schedules[epoch]
        } else {
            b.derive(epoch) == Ok::<ScheduleView, ErrorView>(a.schedules[epoch])
        }
}

/// Whether the schedules of the recent ranked epochs are kept.
pub open spec fn keeps_recent(tuner: TunerView) -> bool {
    let reached = tuner.epoch_of(tuner.stats_through);
    forall|epoch: u64|
        tuner.warmup() <= epoch <= reached <= epoch + RETAINED_STAT_EPOCHS
            ==> #[trigger] tuner.schedules.dom().contains(epoch)
}

/// Whether two auto-scheduled tuners have seen the same committed slots, however
/// many schedules each was asked for.
pub open spec fn in_step(a: TunerView, b: TunerView) -> bool {
    &&& a.auto && b.auto
    &&& a.members == b.members
    &&& a.epoch_size == b.epoch_size
    &&& a.epoch_size > 0
    &&& a.stats == b.stats
    &&& a.stats.dom().finite()
    &&& a.stats_through == b.stats_through
    &&& covers(a, b)
    &&& covers(b, a)
    &&& keeps_recent(a)
    &&& keeps_recent(b)
}

/// Tuners of one membership start in step.
pub proof fn fresh_tuners_are_in_step(epoch_size: u64, members: Seq<ReplicaId>)
    ensures
        in_step(
            TunerView::fresh(epoch_size, members, true),
            TunerView::fresh(epoch_size, members, true),
        ),
{
}

/// Two tuners in step tell the same schedule of an epoch, or refuse alike.
pub proof fn tuners_in_step_agree(a: TunerView, b: TunerView, epoch: u64)
    requires
        in_step(a, b),
    ensures
        a.ensure_schedule(epoch).1 == b.ensure_schedule(epoch).1,
{
    if !a.schedules.dom().contains(epoch) && !b.schedules.dom().contains(epoch) {
        if epoch < a.warmup() || a.stats_through.0 >= a.required_slot(epoch as int) {
            schedules_are_derived_alike(a, b, epoch);
        }
    }
}

/// Asking one tuner for schedules leaves two tuners in step.
pub proof fn lookups_keep_tuners_in_step(a: TunerView, b: TunerView, epoch: u64)
    requires
        in_step(a, b),
    ensures
        in_step(a.ensure_schedule(epoch).0, b),
        in_step(b, a.ensure_schedule(epoch).0),
{
    let asked = a.ensure_schedule(epoch).0;
    assert forall|other: u64| #[trigger] a.derive(other) is Ok implies asked.derive(other)
        == a.derive(other) by {
        schedules_are_derived_alike(a, asked, other);
    }
    if asked != a {
        assert(asked.schedules[epoch] == a.derive(epoch)->Ok_0);
        if !b.schedules.dom().contains(epoch) {
            schedules_are_derived_alike(a, b, epoch);
        }
    }
    assert(covers(asked, b));
    assert(covers(b, asked)) by {
        assert forall|other: u64| #[trigger] b.schedules.dom().contains(other) implies if
            asked.schedules.dom().contains(other) {
            asked.schedules[other] == b.schedules[other]
        } else {
            asked.derive(other) == Ok::<ScheduleView, ErrorView>(b.schedules[other])
        } by {
            if !a.schedules.dom().contains(other) {
                assert(a.derive(other) == Ok::<ScheduleView, ErrorView>(b.schedules[other]));
            }
        }
    }
    assert(keeps_recent(asked));
}

/// What a tuner keeps through a commit, the other keeps or derives after it.
proof fn lemma_commit_covers(a: TunerView, b: TunerView, slot: SlotIndex, step: Step)
    requires
        in_step(a, b),
        a.note_committed(slot, step).1 == Ok::<bool, ErrorView>(true),
        b.note_committed(slot, step).1 == Ok::<bool, ErrorView>(true),
        a.ensure_schedule(a.epoch_of(slot)).1 == b.ensure_schedule(b.epoch_of(slot)).1,
    ensures
        covers(a.note_committed(slot, step).0, b.note_committed(slot, step).0),
{
    let after_a = a.note_committed(slot, step).0;
    let after_b = b.note_committed(slot, step).0;
    let reached = a.epoch_of(slot);
    assert forall|epoch: u64| #[trigger] after_a.schedules.dom().contains(epoch) implies if
        after_b.schedules.dom().contains(epoch) {
        after_b.schedules[epoch] == after_a.schedules[epoch]
    } else {
        after_b.derive(epoch) == Ok::<ScheduleView, ErrorView>(after_a.schedules[epoch])
    } by {
        if epoch != reached {
            assert(a.schedules.dom().contains(epoch));
            assert(after_a.schedules[epoch] == a.schedules[epoch]);
            if !after_b.schedules.dom().contains(epoch) {
                assert(!b.schedules.dom().contains(epoch));
                assert(b.derive(epoch) == Ok::<ScheduleView, ErrorView>(a.schedules[epoch]));
                if epoch < reached {
                    lemma_reached_grows(b, slot);
                    assert(epoch < b.warmup());
                    assert(after_b.members == b.members);
                } else {
                    derived_schedules_are_stable(b, slot, step, epoch);
                }
            }
        }
    }
}

/// The next slot is in the same epoch or the next.
proof fn lemma_reached_grows(tuner: TunerView, slot: SlotIndex)
    requires
        tuner.epoch_size > 0,
        slot.0 == tuner.stats_through.0 + 1,
    ensures
        tuner.epoch_of(tuner.stats_through) <= tuner.epoch_of(slot) <= tuner.epoch_of(
            tuner.stats_through,
        ) + 1,
{
    let size = tuner.epoch_size as int;
    let before = tuner.stats_through.0 as int;
    vstd::arithmetic::div_mod::lemma_div_nonincreasing(before, size);
    vstd::arithmetic::div_mod::lemma_div_nonincreasing(before + 1, size);
    vstd::arithmetic::div_mod::lemma_div_is_ordered(before, before + 1, size);
    vstd::arithmetic::div_mod::lemma_div_is_ordered(before + 1, before + size, size);
    vstd::arithmetic::div_mod::lemma_div_plus_one(before, size);
}

proof fn lemma_commit_keeps_recent(tuner: TunerView, slot: SlotIndex, step: Step)
    requires
        tuner.auto,
        tuner.epoch_size > 0,
        keeps_recent(tuner),
        tuner.note_committed(slot, step).1 == Ok::<bool, ErrorView>(true),
    ensures
        keeps_recent(tuner.note_committed(slot, step).0),
{
    let noted = tuner.note_committed(slot, step).0;
    let reached = tuner.epoch_of(slot);
    lemma_reached_grows(tuner, slot);
    assert(noted.epoch_of(noted.stats_through) == reached);
    assert forall|epoch: u64|
        noted.warmup() <= epoch <= reached <= epoch + RETAINED_STAT_EPOCHS implies
        #[trigger] noted.schedules.dom().contains(epoch) by {
        if epoch != reached {
            assert(tuner.schedules.dom().contains(epoch));
        }
    }
}

/// Committing the same slot leaves two tuners in step: replicas that commit the
/// same log go on deriving the same schedules.
pub proof fn commits_keep_tuners_in_step(
    a: TunerView,
    b: TunerView,
    slot: SlotIndex,
    step: Step,
)
    requires
        in_step(a, b),
    ensures
        a.note_committed(slot, step).1 == b.note_committed(slot, step).1,
        in_step(a.note_committed(slot, step).0, b.note_committed(slot, step).0),
{
    let after_a = a.note_committed(slot, step).0;
    let after_b = b.note_committed(slot, step).0;
    tuners_in_step_agree(a, b, a.epoch_of(slot));
    if a.note_committed(slot, step).1 == Ok::<bool, ErrorView>(true) {
        let reached = a.epoch_of(slot);
        lemma_commit_covers(a, b, slot, step);
        lemma_commit_covers(b, a, slot, step);
        lemma_commit_keeps_recent(a, slot, step);
        lemma_commit_keeps_recent(b, slot, step);
        assert(after_a.stats =~= after_b.stats);
        assert(after_a.stats.dom().finite()) by {
            let all = a.stats.insert(reached, after_a.stats[reached]).dom();
            assert(after_a.stats.dom().subset_of(all));
            vstd::set_lib::lemma_set_subset_finite(all, after_a.stats.dom());
        }
    }
}

/// Ranking keeps the members.
pub proof fn lemma_ranking_keeps_members(tuner: TunerView, epoch: int)
    ensures
        tuner.by_fitness(epoch).to_set() == tuner.members.to_set(),
{
    broadcast use vstd::seq_lib::group_to_multiset_ensures;

    let entries = tuner.members.map_values(
        |member: ReplicaId| (tuner.fitness(epoch, member), member),
    );
    let best = ranking::ranked(entries);
    let ids = tuner.by_fitness(epoch);
    ranking::ranking_is_a_rearrangement(entries);
    assert forall|member: ReplicaId| ids.contains(member) == tuner.members.contains(member) by {
        if ids.contains(member) {
            let k = choose|k: int| 0 <= k < ids.len() && ids[k] == member;
            assert(best.contains(best[k]));
            assert(best.to_multiset().contains(best[k]));
            assert(entries.contains(best[k]));
            let e = choose|e: int| 0 <= e < entries.len() && entries[e] == best[k];
            assert(tuner.members[e] == member);
        }
        if tuner.members.contains(member) {
            let e = choose|e: int| 0 <= e < tuner.members.len() && tuner.members[e] == member;
            assert(entries.contains(entries[e]));
            assert(entries.to_multiset().contains(entries[e]));
            assert(best.contains(entries[e]));
            let k = choose|k: int| 0 <= k < best.len() && best[k] == entries[e];
            assert(ids[k] == member);
        }
    }
    assert(ids.to_set() =~= tuner.members.to_set());
}

/// Ranking repeats no member.
pub proof fn lemma_ranking_is_distinct(tuner: TunerView, epoch: int)
    requires
        tuner.members.no_duplicates(),
    ensures
        tuner.by_fitness(epoch).no_duplicates(),
        tuner.by_fitness(epoch).len() == tuner.members.len(),
{
    broadcast use vstd::seq_lib::group_to_multiset_ensures;

    let entries = tuner.members.map_values(
        |member: ReplicaId| (tuner.fitness(epoch, member), member),
    );
    let best = ranking::ranked(entries);
    let ids = tuner.by_fitness(epoch);
    ranking::ranking_is_a_rearrangement(entries);
    assert(entries.no_duplicates()) by {
        assert forall|i: int, j: int|
            0 <= i < entries.len() && 0 <= j < entries.len() && i != j implies entries[i]
            != entries[j] by {
            assert(entries[i].1 == tuner.members[i] && entries[j].1 == tuner.members[j]);
        }
    }
    entries.lemma_multiset_has_no_duplicates();
    best.lemma_multiset_has_no_duplicates_conv();
    assert forall|i: int, j: int| 0 <= i < ids.len() && 0 <= j < ids.len() && i != j implies ids[i]
        != ids[j] by {
        assert(best.to_multiset().contains(best[i]) && best.to_multiset().contains(best[j]));
        assert(entries.contains(best[i]) && entries.contains(best[j]));
    }
}

/// A promotion repeats no member.
proof fn lemma_promotion_is_distinct(ids: Seq<ReplicaId>, chosen: ReplicaId)
    requires
        ids.no_duplicates(),
    ensures
        ranking::promotion(ids, chosen).no_duplicates(),
        ranking::promotion(ids, chosen).len() == ids.len(),
{
    if ids.contains(chosen) {
        let place = ranking::position(ids, chosen);
        lemma_position_holds(ids, chosen);
        let order = ranking::promotion(ids, chosen);
        assert forall|i: int, j: int| 0 <= i < order.len() && 0 <= j < order.len() && i != j implies
            order[i] != order[j] by {
            let a = if i == 0 {
                place
            } else if i - 1 < place {
                i - 1
            } else {
                i
            };
            let b = if j == 0 {
                place
            } else if j - 1 < place {
                j - 1
            } else {
                j
            };
            assert(order[i] == ids[a]);
            assert(order[j] == ids[b]);
        }
    }
}

/// Among distinct members, an epoch has a derived schedule as soon as enough is
/// committed.
pub proof fn committed_history_gives_a_schedule(tuner: TunerView, epoch: u64)
    requires
        ranking::order_error(tuner.members) is None,
        epoch < tuner.warmup() || ((epoch - 1) * tuner.epoch_size <= u64::MAX
            && tuner.stats_through.0 >= tuner.required_slot(epoch as int)),
    ensures
        tuner.derive(epoch) is Ok,
{
    let count = tuner.members.len() as int;
    let since = epoch - tuner.warmup();
    ranking::lemma_duplicated(tuner.members, 0);
    if since < 0 {
        let place = epoch as int % count;
        lemma_rotation_is_distinct(tuner.members, place);
        ranking::lemma_duplicated(ranking::rotation(tuner.members, place), 0);
    } else {
        let best = tuner.by_fitness(epoch as int);
        let chosen = tuner.members[(since / AUTO_REEXPLORE_EPOCHS as int) % count];
        lemma_ranking_is_distinct(tuner, epoch as int);
        lemma_promotion_is_distinct(best, chosen);
        ranking::lemma_duplicated(best, 0);
        ranking::lemma_duplicated(ranking::promotion(best, chosen), 0);
    }
}

/// The next slot's epoch has a schedule: a contiguous commit is taken in.
pub proof fn contiguous_commits_are_taken_in(tuner: TunerView, slot: SlotIndex, step: Step)
    requires
        tuner.auto,
        tuner.epoch_size > 0,
        ranking::order_error(tuner.members) is None,
    ensures
        tuner.note_committed(slot, step).1 == Ok::<bool, ErrorView>(true) <==> slot.0
            == tuner.stats_through.0 + 1,
{
    if slot.0 == tuner.stats_through.0 + 1 {
        let epoch = tuner.epoch_of(slot);
        let size = tuner.epoch_size as int;
        assert((epoch - 1) * size <= slot.0 && tuner.stats_through.0 >= tuner.required_slot(
            epoch as int,
        )) by {
            vstd::arithmetic::div_mod::lemma_div_nonincreasing(slot.0 as int, size);
            vstd::arithmetic::div_mod::lemma_fundamental_div_mod(slot.0 as int, size);
            assert((epoch - 1) * size == size * epoch - size) by (nonlinear_arith);
        }
        committed_history_gives_a_schedule(tuner, epoch);
    }
}

/// A derived schedule has every member exactly once.
pub proof fn derived_schedules_hold_every_member(tuner: TunerView, epoch: u64)
    requires
        tuner.members.len() > 0,
    ensures
        tuner.derive(epoch) matches Ok(schedule) ==> schedule.epoch == epoch
            && schedule.proposers.no_duplicates() && schedule.proposers.to_set()
            == tuner.members.to_set(),
{
    let members = tuner.members;
    let count = members.len() as int;
    let since = epoch - tuner.warmup();
    if tuner.derive(epoch) is Ok {
        let order = tuner.derive(epoch)->Ok_0.proposers;
        ranking::lemma_duplicated(order, 0);
        if since < 0 {
            let offset = epoch as int % count;
            assert forall|member: ReplicaId| order.contains(member) == members.contains(member) by {
                if order.contains(member) {
                    let k = choose|k: int| 0 <= k < order.len() && order[k] == member;
                    if k < count - offset {
                        assert(members[k + offset] == member);
                    } else {
                        assert(members[k - (count - offset)] == member);
                    }
                }
                if members.contains(member) {
                    let k = choose|k: int| 0 <= k < members.len() && members[k] == member;
                    if k >= offset {
                        assert(order[k - offset] == member);
                    } else {
                        assert(order[k + count - offset] == member);
                    }
                }
            }
            assert(order.to_set() =~= members.to_set());
        } else {
            lemma_ranking_keeps_members(tuner, epoch as int);
            let best = tuner.by_fitness(epoch as int);
            if order != best {
                let chosen = members[(since / AUTO_REEXPLORE_EPOCHS as int) % count];
                let place = ranking::position(best, chosen);
                assert(members.contains(chosen));
                assert(members.to_set().contains(chosen));
                assert(best.to_set().contains(chosen));
                assert(best.contains(chosen));
                let k = choose|k: int| 0 <= k < best.len() && best[k] == chosen;
                lemma_position_holds(best, chosen);
                assert forall|member: ReplicaId| order.contains(member) == best.contains(
                    member,
                ) by {
                    if order.contains(member) {
                        let k = choose|k: int| 0 <= k < order.len() && order[k] == member;
                        if k == 0 {
                            assert(member == chosen);
                        } else if k - 1 < place {
                            assert(best[k - 1] == member);
                        } else {
                            assert(best[k] == member);
                        }
                    }
                    if best.contains(member) {
                        let k = choose|k: int| 0 <= k < best.len() && best[k] == member;
                        if k < place {
                            assert(order[k + 1] == member);
                        } else if k == place {
                            assert(order[0] == member);
                        } else {
                            assert(order[k] == member);
                        }
                    }
                }
                assert(order.to_set() =~= best.to_set());
            }
        }
    }
}

/// A replica's position holds it.
pub proof fn lemma_position_holds(list: Seq<ReplicaId>, replica: ReplicaId)
    requires
        list.contains(replica),
    ensures
        0 <= ranking::position(list, replica) < list.len(),
        list[ranking::position(list, replica)] == replica,
    decreases list.len(),
{
    let rest = list.drop_last();
    if rest.contains(replica) {
        lemma_position_holds(rest, replica);
    } else {
        let k = choose|k: int| 0 <= k < list.len() && list[k] == replica;
        if k < rest.len() {
            assert(rest[k] == replica);
        }
    }
}

} // verus!
