//! Laws of epochs: which slots they cover, how the first of them go round, and
//! what the later ones wait for.

use crate::error::ErrorView;
use crate::ranking;
use crate::schedule::{RuntimeConfigView, ScheduleView};
use crate::tuner::TunerView;
use crate::tuner_laws;
use crate::types::{ReplicaId, SlotIndex};
use vstd::prelude::*;

verus! {

/// An epoch covers as many slots in a row as the epoch size says, and the next
/// epoch those behind them.
pub proof fn epochs_divide_the_slots(tuner: TunerView, slot: SlotIndex)
    requires
        tuner.epoch_size > 0,
    ensures
        tuner.epoch_of(slot) * tuner.epoch_size <= slot.0 < (tuner.epoch_of(slot) + 1)
            * tuner.epoch_size,
{
    let size = tuner.epoch_size as int;
    let at = slot.0 as int;
    let epoch = at / size;
    assert(epoch * size <= at < (epoch + 1) * size && 0 <= epoch <= at) by (nonlinear_arith)
        requires
            size > 0,
            at >= 0,
            epoch == at / size,
    ;
}

/// A runtime and its tuner divide the slots alike.
pub proof fn epochs_are_the_same_everywhere(
    config: RuntimeConfigView,
    tuner: TunerView,
    slot: SlotIndex,
)
    requires
        config.epoch_size > 0,
        tuner.epoch_size == config.epoch_size,
    ensures
        config.epoch_of(slot) == tuner.epoch_of(slot),
        config.epoch_of(slot) * config.epoch_size <= slot.0 < (config.epoch_of(slot) + 1)
            * config.epoch_size,
{
    epochs_divide_the_slots(tuner, slot);
}

/// In each of the first epochs, two for every member and one more, the order is
/// the members' own, beginning with the next member each time.
pub proof fn early_epochs_go_round(tuner: TunerView, epoch: u64, i: int)
    requires
        tuner.members.no_duplicates(),
        epoch <= 2 * tuner.members.len(),
        0 <= i < tuner.members.len(),
    ensures
        tuner.derive(epoch) matches Ok(schedule) && {
            &&& schedule.epoch == epoch
            &&& schedule.proposers.len() == tuner.members.len()
            &&& schedule.proposers[i] == tuner.members[(epoch + i) % (tuner.members.len() as int)]
        },
{
    let members = tuner.members;
    let count = members.len() as int;
    let offset = epoch as int % count;
    let order = ranking::rotation(members, offset);
    assert(0 <= offset < count);
    assert(order.no_duplicates()) by {
        assert forall|a: int, b: int| 0 <= a < b < order.len() implies order[a] != order[b] by {
            let x = if a < count - offset {
                a + offset
            } else {
                a - (count - offset)
            };
            let y = if b < count - offset {
                b + offset
            } else {
                b - (count - offset)
            };
            assert(order[a] == members[x] && order[b] == members[y]);
        }
    }
    ranking::lemma_duplicated(order, 0);
    let place = if i < count - offset {
        i + offset
    } else {
        i - (count - offset)
    };
    assert(order[i] == members[place]);
    let e = epoch as int;
    assert((e + i) % count == place) by (nonlinear_arith)
        requires
            count > 0,
            offset == e % count,
            0 <= i < count,
            0 <= offset < count,
            place == (if i < count - offset {
                i + offset
            } else {
                i - (count - offset)
            }),
    ;
}

/// A later epoch has an order exactly where its first slot is one and every slot
/// of the epochs up to the one before the last was counted.
pub proof fn later_epochs_wait_for_history(tuner: TunerView, epoch: u64)
    requires
        tuner.members.len() > 0,
        tuner.members.no_duplicates(),
        epoch > 2 * tuner.members.len(),
    ensures
        tuner.derive(epoch) is Ok <==> (epoch - 1) * tuner.epoch_size <= u64::MAX
            && tuner.stats_through.0 + 1 >= (epoch - 1) * tuner.epoch_size,
{
    ranking::lemma_duplicated(tuner.members, 0);
    if (epoch - 1) * tuner.epoch_size <= u64::MAX && tuner.stats_through.0 + 1 >= (epoch - 1)
        * tuner.epoch_size {
        tuner_laws::committed_history_gives_a_schedule(tuner, epoch);
    }
}

/// A schedule that is known is given as it is. One that is not known is derived
/// where the tuner derives schedules, and given the same way from then on; it is
/// refused where schedules are installed by hand.
pub proof fn schedules_are_looked_up_first(tuner: TunerView, epoch: u64, other: u64)
    ensures
        ({
            let (after, given) = tuner.ensure_schedule(epoch);
            let known = tuner.schedules.dom().contains(epoch);
            &&& known ==> after == tuner && given == Ok::<ScheduleView, ErrorView>(
                tuner.schedules[epoch],
            )
            &&& !known && !tuner.auto ==> after == tuner && given is Err
            &&& !known && tuner.auto ==> given == tuner.derive(epoch)
            &&& given matches Ok(schedule) ==> after.schedules.dom().contains(epoch)
                && after.schedules[epoch] == schedule
            &&& other != epoch ==> after.schedules.dom().contains(other)
                == tuner.schedules.dom().contains(other)
            &&& other != epoch && tuner.schedules.dom().contains(other) ==> after.schedules[other]
                == tuner.schedules[other]
            &&& after.stats == tuner.stats && after.stats_through == tuner.stats_through
            &&& after.members == tuner.members
        }),
{
}

/// A new membership starts its tuner over: nothing is known of any epoch, and
/// counting goes on behind what is committed.
pub proof fn new_members_start_over(
    tuner: TunerView,
    members: Seq<ReplicaId>,
    committed_through: SlotIndex,
    epoch: u64,
)
    ensures
        ({
            let after = tuner.reconfigured(members, committed_through);
            &&& after.members == members
            &&& !after.schedules.dom().contains(epoch)
            &&& !after.stats.dom().contains(epoch)
            &&& after.stats_through == committed_through
            &&& after.epoch_size == tuner.epoch_size && after.auto == tuner.auto
        }),
{
}

} // verus!
