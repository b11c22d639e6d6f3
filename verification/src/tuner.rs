//! Automatic leader tuning from the committed log.

use crate::collections;
use crate::collections::OrdMap;
use crate::error;
use crate::error::{ErrorView, QuePaxaError, Result};
use crate::key::Duplicate;
use crate::ranking;
use crate::ranking::{promote, rank, rotated, Score};
use crate::schedule::{EpochSchedule, EpochStat, ScheduleView};
use crate::text;
use crate::text::push_decimal;
use crate::types::{duplicate_keys, list_contains, ReplicaId, SlotIndex, Step};
use vstd::prelude::*;
use vstd::string::StringExecFns;

verus! {

/// Trailing epochs whose statistics feed leader ranking. Fixed so ranking
/// stays a pure function of the committed prefix on every replica, and so
/// stale observations age out as conditions change.
pub const RETAINED_STAT_EPOCHS: u64 = 64;

/// How often a ranked epoch is led by a member chosen in turn.
pub const AUTO_REEXPLORE_EPOCHS: u64 = 32;

/// Whether one fraction is below another, without computing the products.
fn fraction_below(n1: u128, d1: u128, n2: u128, d2: u128) -> (below: bool)
    requires
        d1 > 0,
        d2 > 0,
    ensures
        below == (n1 * d2 < n2 * d1),
    decreases d1 + d2,
{
    let q1: u128 = n1 / d1;
    let q2: u128 = n2 / d2;
    let r1: u128 = n1 % d1;
    let r2: u128 = n2 % d2;
    proof {
        vstd::arithmetic::div_mod::lemma_fundamental_div_mod(n1 as int, d1 as int);
        vstd::arithmetic::div_mod::lemma_fundamental_div_mod(n2 as int, d2 as int);
    }
    if q1 != q2 {
        proof {
            if q1 < q2 {
                lemma_fractions_apart(n1 as int, d1 as int, q1 as int, r1 as int, n2 as int, d2 as int, q2 as int, r2 as int);
            } else {
                lemma_fractions_apart(n2 as int, d2 as int, q2 as int, r2 as int, n1 as int, d1 as int, q1 as int, r1 as int);
            }
        }
        return q1 < q2;
    }
    proof {
        assert(n1 * d2 - n2 * d1 == r1 * d2 - r2 * d1) by (nonlinear_arith)
            requires
                n1 == d1 * q1 + r1,
                n2 == d2 * q2 + r2,
                q1 == q2,
        ;
    }
    if r2 == 0 {
        assert(r1 * d2 >= 0 && r2 * d1 == 0) by (nonlinear_arith)
            requires
                r1 >= 0,
                d2 > 0,
                r2 == 0,
        ;
        return false;
    }
    if r1 == 0 {
        assert(r1 * d2 == 0 && r2 * d1 > 0) by (nonlinear_arith)
            requires
                r1 == 0,
                r2 > 0,
                d1 > 0,
        ;
        return true;
    }
    let below = fraction_below(d2, r2, d1, r1);
    assert(d2 * r1 == r1 * d2 && d1 * r2 == r2 * d1) by (nonlinear_arith);
    below
}

/// A fraction with a lower whole part is lower.
proof fn lemma_fractions_apart(
    n1: int,
    d1: int,
    q1: int,
    r1: int,
    n2: int,
    d2: int,
    q2: int,
    r2: int,
)
    requires
        d1 > 0,
        d2 > 0,
        n1 == d1 * q1 + r1,
        n2 == d2 * q2 + r2,
        0 <= r1 < d1,
        0 <= r2,
        q1 < q2,
    ensures
        n1 * d2 < n2 * d1,
{
    assert(n1 * d2 == d1 * q1 * d2 + r1 * d2) by (nonlinear_arith)
        requires
            n1 == d1 * q1 + r1,
    ;
    assert(n2 * d1 == d2 * q2 * d1 + r2 * d1) by (nonlinear_arith)
        requires
            n2 == d2 * q2 + r2,
    ;
    assert(r1 * d2 < d1 * d2) by (nonlinear_arith)
        requires
            r1 < d1,
            d2 > 0,
    ;
    assert(d1 * q1 * d2 + d1 * d2 <= d2 * q2 * d1) by (nonlinear_arith)
        requires
            q1 + 1 <= q2,
            d1 > 0,
            d2 > 0,
    ;
    assert(r2 * d1 >= 0) by (nonlinear_arith)
        requires
            r2 >= 0,
            d1 > 0,
    ;
}

/// A leader's record: how many slots it led, and the sum of the steps at which
/// they were decided.
#[derive(Debug, Clone, Copy)]
pub struct Fitness {
    pub record: Option<(u128, u128)>,
}

impl Score for Fitness {
    /// A lower average decided step is better, and any record is better than
    /// none. Averages are compared by cross multiplication, which is exact.
    open spec fn beats(self, other: Self) -> bool {
        match (self.record, other.record) {
            (Some(a), Some(b)) => a.1 * b.0 < b.1 * a.0,
            (Some(_), None) => true,
            (None, _) => false,
        }
    }

    fn is_better(&self, other: &Self) -> (better: bool) {
        match (self.record, other.record) {
            (Some(a), Some(b)) => {
                if a.0 == 0 {
                    assert(b.1 * a.0 == 0 && a.1 * b.0 >= 0) by (nonlinear_arith)
                        requires
                            a.0 == 0,
                            a.1 >= 0,
                            b.0 >= 0,
                    ;
                    false
                } else if b.0 == 0 {
                    assert(a.1 * b.0 == 0 && (b.1 * a.0 > 0 <==> b.1 > 0)) by (nonlinear_arith)
                        requires
                            b.0 == 0,
                            a.0 > 0,
                            b.1 >= 0,
                    ;
                    b.1 > 0
                } else {
                    fraction_below(a.1, a.0, b.1, b.0)
                }
            },
            (Some(_), None) => true,
            (None, _) => false,
        }
    }
}

/// What a leader's epochs between two bounds add up to: slots, and decided
/// steps.
pub open spec fn led_totals(
    epochs: Seq<u64>,
    stats: Map<u64, EpochStat>,
    leader: ReplicaId,
    low: int,
    high: int,
) -> Option<(int, int)>
    decreases epochs.len(),
{
    if epochs.len() == 0 {
        None
    } else {
        let before = led_totals(epochs.drop_last(), stats, leader, low, high);
        let epoch = epochs.last();
        if low <= epoch <= high && stats[epoch].leader == leader {
            let stat = stats[epoch];
            match before {
                Some((slots, steps)) => Some(
                    (slots + stat.slots, steps + stat.decided_step_total),
                ),
                None => Some((stat.slots as int, stat.decided_step_total as int)),
            }
        } else {
            before
        }
    }
}

/// Totals are sums of as many numbers as there are epochs at most.
proof fn lemma_led_totals_bound(
    epochs: Seq<u64>,
    stats: Map<u64, EpochStat>,
    leader: ReplicaId,
    low: int,
    high: int,
)
    ensures
        match led_totals(epochs, stats, leader, low, high) {
            Some((slots, steps)) => 0 <= slots <= epochs.len() * u64::MAX && 0 <= steps
                <= epochs.len() * u64::MAX,
            None => true,
        },
    decreases epochs.len(),
{
    if epochs.len() > 0 {
        lemma_led_totals_bound(epochs.drop_last(), stats, leader, low, high);
        let n = epochs.len() as int;
        assert((n - 1) * u64::MAX + u64::MAX == n * u64::MAX) by (nonlinear_arith);
    }
}

/// A tuner's state with its parts as views.
#[verifier::ext_equal]
pub struct TunerView {
    pub epoch_size: u64,
    pub members: Seq<ReplicaId>,
    pub auto: bool,
    pub schedules: Map<u64, ScheduleView>,
    pub stats: Map<u64, EpochStat>,
    pub stats_through: SlotIndex,
}

impl TunerView {
    /// A tuner that has seen nothing.
    pub open spec fn fresh(epoch_size: u64, members: Seq<ReplicaId>, auto: bool) -> Self {
        TunerView {
            epoch_size: if epoch_size == 0 {
                1
            } else {
                epoch_size
            },
            members,
            auto,
            schedules: Map::empty(),
            stats: Map::empty(),
            stats_through: SlotIndex(0),
        }
    }

    /// The tuner of another membership, with what is committed so far left
    /// behind.
    pub open spec fn reconfigured(
        self,
        members: Seq<ReplicaId>,
        committed_through: SlotIndex,
    ) -> Self {
        TunerView {
            members,
            schedules: Map::empty(),
            stats: Map::empty(),
            stats_through: committed_through,
            ..self
        }
    }

    /// The epoch of a slot.
    pub open spec fn epoch_of(self, slot: SlotIndex) -> u64 {
        (slot.0 as int / self.epoch_size as int) as u64
    }

    /// Whether restored statistics fit the committed log.
    pub open spec fn stats_fit(self) -> bool {
        forall|epoch: u64| #[trigger]
            self.stats.dom().contains(epoch) ==> {
                &&& self.members.contains(self.stats[epoch].leader)
                &&& self.stats[epoch].slots > 0
                &&& epoch <= self.epoch_of(self.stats_through)
            }
    }

    /// Whether restored schedules are under their epochs.
    pub open spec fn schedules_fit(self) -> bool {
        forall|epoch: u64| #[trigger]
            self.schedules.dom().contains(epoch) ==> self.schedules[epoch].epoch == epoch
    }

    /// How many of the first epochs rotate the leader.
    pub open spec fn warmup(self) -> int {
        2 * self.members.len() as int + 1
    }

    /// A member's record for the ranking of an epoch: over the trailing epochs,
    /// from two epochs back, so that it is final before anyone can propose.
    pub open spec fn fitness(self, epoch: int, member: ReplicaId) -> Fitness {
        let totals = led_totals(
            collections::in_order(self.stats.dom()),
            self.stats,
            member,
            epoch - 1 - RETAINED_STAT_EPOCHS,
            epoch - 2,
        );
        Fitness {
            record: match totals {
                Some((slots, steps)) => Some((slots as u128, steps as u128)),
                None => None,
            },
        }
    }

    /// The members from the most to the least effective leader.
    pub open spec fn by_fitness(self, epoch: int) -> Seq<ReplicaId> {
        ranking::ids_of(
            ranking::ranked(
                self.members.map_values(
                    |member: ReplicaId| (self.fitness(epoch, member), member),
                ),
            ),
        )
    }

    /// The last slot that must be committed before an epoch's schedule can be
    /// ranked.
    pub open spec fn required_slot(self, epoch: int) -> int {
        (epoch - 1) * self.epoch_size - 1
    }

    /// The schedule of an epoch as the committed log gives it.
    pub open spec fn derive(self, epoch: u64) -> std::result::Result<ScheduleView, ErrorView> {
        let count = self.members.len() as int;
        let since = epoch - self.warmup();
        if since < 0 {
            ScheduleView::of(epoch, ranking::rotation(self.members, epoch as int % count))
        } else if (epoch - 1) * self.epoch_size > u64::MAX {
            Err(ErrorView::SlotOverflow)
        } else if self.stats_through.0 < self.required_slot(epoch as int) {
            Err(
                ErrorView::PolicyError(
                    missing_history(epoch, self.required_slot(epoch as int) as nat),
                ),
            )
        } else if since > 0 && since % AUTO_REEXPLORE_EPOCHS as int == 0 {
            ScheduleView::of(
                epoch,
                ranking::promotion(
                    self.by_fitness(epoch as int),
                    self.members[(since / AUTO_REEXPLORE_EPOCHS as int) % count],
                ),
            )
        } else {
            ScheduleView::of(epoch, self.by_fitness(epoch as int))
        }
    }

    /// The schedule of an epoch: an installed one, or in auto mode the derived
    /// one, which is then kept.
    pub open spec fn ensure_schedule(self, epoch: u64) -> (
        Self,
        std::result::Result<ScheduleView, ErrorView>,
    ) {
        if self.schedules.dom().contains(epoch) {
            (self, Ok(self.schedules[epoch]))
        } else if !self.auto {
            (self, Err(ErrorView::PolicyError(missing_schedule(epoch))))
        } else {
            match self.derive(epoch) {
                Err(refusal) => (self, Err(refusal)),
                Ok(schedule) => (
                    TunerView { schedules: self.schedules.insert(epoch, schedule), ..self },
                    Ok(schedule),
                ),
            }
        }
    }

    /// Installs an agreed schedule; whether it is new.
    pub open spec fn install(self, schedule: ScheduleView) -> (
        Self,
        std::result::Result<bool, ErrorView>,
    ) {
        if self.auto {
            (
                self,
                Err(
                    ErrorView::PolicyError(
                        "auto-scheduled runtimes derive schedules from the committed log"@,
                    ),
                ),
            )
        } else if self.schedules.dom().contains(schedule.epoch) {
            if self.schedules[schedule.epoch] != schedule {
                (self, Err(ErrorView::PolicyError(other_schedule(schedule.epoch))))
            } else {
                (self, Ok(false))
            }
        } else {
            (
                TunerView {
                    schedules: self.schedules.insert(schedule.epoch, schedule),
                    ..self
                },
                Ok(true),
            )
        }
    }

    /// The statistics of an epoch with one more committed slot.
    pub open spec fn counted(self, epoch: u64, leader: ReplicaId, step: Step) -> EpochStat {
        let before = if self.stats.dom().contains(epoch) {
            self.stats[epoch]
        } else {
            EpochStat { leader, slots: 0, decided_step_total: 0 }
        };
        EpochStat {
            leader: before.leader,
            slots: saturated(before.slots + 1),
            decided_step_total: saturated(before.decided_step_total + step.0),
        }
    }

    /// The tuner without what is older than the trailing epochs.
    pub open spec fn trimmed(self, epoch: u64) -> Self {
        if epoch > RETAINED_STAT_EPOCHS {
            let bound = (epoch - RETAINED_STAT_EPOCHS - 1) as u64;
            TunerView {
                stats: collections::after(self.stats, bound),
                schedules: collections::after(self.schedules, bound),
                ..self
            }
        } else {
            self
        }
    }

    /// Takes in one committed slot; whether it is new.
    pub open spec fn note_committed(self, slot: SlotIndex, step: Step) -> (
        Self,
        std::result::Result<bool, ErrorView>,
    ) {
        if !self.auto || slot.0 <= self.stats_through.0 {
            (self, Ok(false))
        } else if slot.0 != self.stats_through.0 + 1 {
            (
                self,
                Err(
                    ErrorView::PolicyError(
                        "epoch statistics must be recorded in contiguous slot order"@,
                    ),
                ),
            )
        } else {
            let epoch = self.epoch_of(slot);
            match self.ensure_schedule(epoch) {
                (scheduled, Err(refusal)) => (scheduled, Err(refusal)),
                (scheduled, Ok(schedule)) => (
                    TunerView {
                        stats: self.stats.insert(
                            epoch,
                            self.counted(epoch, schedule.leader(), step),
                        ),
                        stats_through: slot,
                        ..scheduled
                    }.trimmed(epoch),
                    Ok(true),
                ),
            }
        }
    }
}

/// The nearest number that a `u64` holds.
pub open spec fn saturated(value: int) -> u64 {
    if value > u64::MAX {
        u64::MAX
    } else {
        value as u64
    }
}

/// The message for history that is not committed yet.
pub open spec fn missing_history(epoch: u64, slot: nat) -> Seq<char> {
    "epoch "@ + text::decimal(epoch as nat) + " schedule requires committed history through slot "@
        + text::decimal(slot)
}

/// The message for an epoch without a schedule.
pub open spec fn missing_schedule(epoch: u64) -> Seq<char> {
    "no agreed schedule is installed for epoch "@ + text::decimal(epoch as nat)
}

/// The message for an epoch with another schedule.
pub open spec fn other_schedule(epoch: u64) -> Seq<char> {
    "epoch "@ + text::decimal(epoch as nat) + " already has a different agreed schedule"@
}

/// Owns the agreed (or deterministically derived) epoch schedules and the
/// committed-log statistics behind automatic leader tuning.
#[derive(Debug)]
pub struct EpochTuner {
    epoch_size: u64,
    members: Vec<ReplicaId>,
    auto: bool,
    schedules: OrdMap<u64, EpochSchedule>,
    stats: OrdMap<u64, EpochStat>,
    stats_through: SlotIndex,
}

impl View for EpochTuner {
    type V = TunerView;

    closed spec fn view(&self) -> TunerView {
        TunerView {
            epoch_size: self.epoch_size,
            members: self.members@,
            auto: self.auto,
            schedules: self.schedules@,
            stats: self.stats@,
            stats_through: self.stats_through,
        }
    }
}

impl EpochTuner {
    /// Whether every epoch has a slot, and every schedule a leader.
    pub open spec fn usable(&self) -> bool {
        &&& self@.epoch_size > 0
        &&& self@.members.len() > 0
        &&& forall|epoch: u64| #[trigger]
            self@.schedules.dom().contains(epoch) ==> self@.schedules[epoch].proposers.len() > 0
    }

    /// An epoch has one slot at least.
    pub fn new(epoch_size: u64, members: Vec<ReplicaId>, auto: bool) -> (tuner: Self)
        ensures
            tuner@ == TunerView::fresh(epoch_size, members@, auto),
    {
        let epoch_size: u64 = if epoch_size == 0 {
            1
        } else {
            epoch_size
        };
        EpochTuner {
            epoch_size,
            members,
            auto,
            schedules: OrdMap::new(),
            stats: OrdMap::new(),
            stats_through: SlotIndex::genesis(),
        }
    }

    #[verifier::loop_isolation(false)]
    pub fn restore(
        epoch_size: u64,
        members: Vec<ReplicaId>,
        auto: bool,
        schedules: OrdMap<u64, EpochSchedule>,
        stats: OrdMap<u64, EpochStat>,
        stats_through: SlotIndex,
    ) -> (tuner: Result<Self>)
        ensures
            error::outcome(tuner) == ({
                let restored = TunerView {
                    schedules: schedules@,
                    stats: stats@,
                    stats_through,
                    ..TunerView::fresh(epoch_size, members@, auto)
                };
                if !restored.stats_fit() {
                    Err(
                        ErrorView::PolicyError(
                            "restored epoch statistics are inconsistent with the committed log"@,
                        ),
                    )
                } else if !restored.schedules_fit() {
                    Err(
                        ErrorView::PolicyError(
                            "restored epoch schedule key does not match its epoch"@,
                        ),
                    )
                } else {
                    Ok(restored)
                }
            }),
    {
        let mut tuner = Self::new(epoch_size, members, auto);
        tuner.schedules = schedules;
        tuner.stats = stats;
        tuner.stats_through = stats_through;
        let last_epoch: u64 = stats_through.0 / tuner.epoch_size;
        proof {
            vstd::arithmetic::div_mod::lemma_div_nonincreasing(
                stats_through.0 as int,
                tuner.epoch_size as int,
            );
        }
        let count: usize = tuner.stats.len();
        let mut i: usize = 0;
        while i < count
            invariant
                i <= count == tuner.stats.keys().len(),
                collections::lists(tuner.stats.keys(), tuner.stats@),
                last_epoch == tuner@.epoch_of(tuner.stats_through),
                forall|k: int|
                    0 <= k < i ==> {
                        let stat = tuner.stats@[#[trigger] tuner.stats.keys()[k]];
                        &&& tuner.members@.contains(stat.leader)
                        &&& stat.slots > 0
                        &&& tuner.stats.keys()[k] <= last_epoch
                    },
            decreases count - i,
        {
            let epoch: u64 = *tuner.stats.key_at(i);
            let stat: &EpochStat = tuner.stats.value_at(i);
            if !list_contains(tuner.members.as_slice(), &stat.leader) || stat.slots == 0 || epoch
                > last_epoch {
                assert(tuner@.stats.dom().contains(epoch));
                assert(tuner@.stats[epoch] == *stat);
                assert(!tuner@.stats_fit());
                return Err(
                    QuePaxaError::PolicyError(
                        "restored epoch statistics are inconsistent with the committed log".to_owned(),
                    ),
                );
            }
            i += 1;
        }
        assert(tuner@.stats_fit()) by {
            assert forall|epoch: u64| #[trigger] tuner@.stats.dom().contains(epoch) implies {
                &&& tuner@.members.contains(tuner@.stats[epoch].leader)
                &&& tuner@.stats[epoch].slots > 0
                &&& epoch <= tuner@.epoch_of(tuner@.stats_through)
            } by {
                let keys = tuner.stats.keys();
                assert(keys.contains(epoch));
                let k = choose|k: int| 0 <= k < keys.len() && keys[k] == epoch;
                assert(keys[k] == epoch);
            }
        }
        let count: usize = tuner.schedules.len();
        let mut i: usize = 0;
        while i < count
            invariant
                i <= count == tuner.schedules.keys().len(),
                collections::lists(tuner.schedules.keys(), tuner.schedules@),
                forall|k: int|
                    0 <= k < i ==> tuner.schedules@[#[trigger] tuner.schedules.keys()[k]].epoch
                        == tuner.schedules.keys()[k],
            decreases count - i,
        {
            let epoch: u64 = *tuner.schedules.key_at(i);
            if epoch != tuner.schedules.value_at(i).epoch {
                assert(tuner@.schedules.dom().contains(epoch));
                assert(!tuner@.schedules_fit());
                return Err(
                    QuePaxaError::PolicyError(
                        "restored epoch schedule key does not match its epoch".to_owned(),
                    ),
                );
            }
            i += 1;
        }
        assert(tuner@.schedules_fit()) by {
            assert forall|epoch: u64| #[trigger] tuner@.schedules.dom().contains(epoch) implies
                tuner@.schedules[epoch].epoch == epoch by {
                let keys = tuner.schedules.keys();
                assert(keys.contains(epoch));
                let k = choose|k: int| 0 <= k < keys.len() && keys[k] == epoch;
                assert(keys[k] == epoch);
            }
        }
        Ok(tuner)
    }

    pub fn schedules(&self) -> (schedules: &OrdMap<u64, EpochSchedule>)
        ensures
            schedules@ == self@.schedules,
    {
        &self.schedules
    }

    pub fn stats(&self) -> (stats: &OrdMap<u64, EpochStat>)
        ensures
            stats@ == self@.stats,
    {
        &self.stats
    }

    pub fn stats_through(&self) -> (slot: SlotIndex)
        ensures
            slot == self@.stats_through,
    {
        self.stats_through
    }

    /// Resets safety-relevant schedules and performance samples at a drained
    /// membership barrier. Slot numbering continues, but no schedule derived
    /// for the prior voter set is reused in the new epoch.
    pub fn reconfigure(&mut self, members: Vec<ReplicaId>, committed_through: SlotIndex)
        ensures
            final(self)@ == old(self)@.reconfigured(members@, committed_through),
    {
        self.members = members;
        self.schedules = OrdMap::new();
        self.stats = OrdMap::new();
        self.stats_through = committed_through;
    }

    /// Installs an externally agreed schedule; whether it is new. Rejected in
    /// auto mode, where a divergent manual install could reintroduce dueling
    /// round-one leaders.
    pub fn install(&mut self, schedule: EpochSchedule) -> (installed: Result<bool>)
        ensures
            (final(self)@, error::outcome(installed)) == old(self)@.install(schedule@),
    {
        if self.auto {
            return Err(
                QuePaxaError::PolicyError(
                    "auto-scheduled runtimes derive schedules from the committed log".to_owned(),
                ),
            );
        }
        match self.schedules.get(&schedule.epoch) {
            Some(existing) => {
                if !existing.same_schedule(&schedule) {
                    let mut message: String = "epoch ".to_owned();
                    push_decimal(&mut message, schedule.epoch);
                    message.append(" already has a different agreed schedule");
                    return Err(QuePaxaError::PolicyError(message));
                }
                return Ok(false);
            },
            None => {},
        }
        self.schedules.insert(schedule.epoch, schedule);
        Ok(true)
    }

    /// Returns the schedule for an epoch, deriving and caching it in auto
    /// mode. Every replica derives the same schedule from the same committed
    /// prefix, so no external agreement round is needed.
    pub fn ensure_schedule(&mut self, epoch: u64) -> (schedule: Result<EpochSchedule>)
        requires
            old(self).usable(),
        ensures
            (final(self)@, error::outcome(schedule)) == old(self)@.ensure_schedule(epoch),
            final(self).usable(),
            schedule matches Ok(found) ==> found@.proposers.len() > 0,
    {
        match self.schedules.get(&epoch) {
            Some(schedule) => {
                assert(self@.schedules.dom().contains(epoch));
                return Ok(schedule.duplicate_value());
            },
            None => {},
        }
        if !self.auto {
            let mut message: String = "no agreed schedule is installed for epoch ".to_owned();
            push_decimal(&mut message, epoch);
            return Err(QuePaxaError::PolicyError(message));
        }
        let schedule: EpochSchedule = match self.derive(epoch) {
            Ok(schedule) => schedule,
            Err(refusal) => return Err(refusal),
        };
        self.schedules.insert(epoch, schedule.duplicate_value());
        Ok(schedule)
    }

    /// Records one committed slot's outcome; whether it is new. Must be called
    /// in contiguous slot order; already-recorded slots are ignored.
    pub fn note_committed(&mut self, slot: SlotIndex, decided_step: Step) -> (noted: Result<bool>)
        requires
            old(self).usable(),
        ensures
            (final(self)@, error::outcome(noted)) == old(self)@.note_committed(
                slot,
                decided_step,
            ),
            final(self).usable(),
    {
        if !self.auto || slot.0 <= self.stats_through.0 {
            return Ok(false);
        }
        if slot.0 - 1 != self.stats_through.0 {
            return Err(
                QuePaxaError::PolicyError(
                    "epoch statistics must be recorded in contiguous slot order".to_owned(),
                ),
            );
        }
        let epoch: u64 = slot.0 / self.epoch_size;
        proof {
            vstd::arithmetic::div_mod::lemma_div_nonincreasing(
                slot.0 as int,
                self.epoch_size as int,
            );
        }
        let leader: ReplicaId = match self.ensure_schedule(epoch) {
            Ok(schedule) => schedule.leader(),
            Err(refusal) => return Err(refusal),
        };
        let mut stat: EpochStat = match self.stats.get(&epoch) {
            Some(stat) => *stat,
            None => EpochStat { leader, slots: 0, decided_step_total: 0 },
        };
        stat.slots = stat.slots.saturating_add(1);
        stat.decided_step_total = stat.decided_step_total.saturating_add(decided_step.0);
        self.stats.insert(epoch, stat);
        self.stats_through = slot;
        if epoch > RETAINED_STAT_EPOCHS {
            let bound: u64 = epoch - RETAINED_STAT_EPOCHS - 1;
            self.stats.remove_through(&bound);
            self.schedules.remove_through(&bound);
        }
        Ok(true)
    }

    /// A member's record for the ranking of an epoch.
    fn fitness_of(&self, epoch: u64, member: ReplicaId) -> (fitness: Fitness)
        requires
            epoch >= 2,
        ensures
            fitness == self@.fitness(epoch as int, member),
    {
        let high: u64 = epoch - 2;
        let ghost low = epoch - 1 - RETAINED_STAT_EPOCHS;
        let mut record: Option<(u128, u128)> = None;
        let count: usize = self.stats.len();
        let ghost keys = self.stats.keys();
        proof {
            collections::lemma_in_order(keys);
            assert(keys.take(0) =~= Seq::<u64>::empty());
        }
        let mut i: usize = 0;
        while i < count
            invariant
                i <= count == keys.len(),
                keys == self.stats.keys(),
                collections::lists(keys, self.stats@),
                high == epoch - 2,
                low == epoch - 1 - RETAINED_STAT_EPOCHS,
                match led_totals(keys.take(i as int), self.stats@, member, low, high as int) {
                    Some((slots, steps)) => record matches Some(held) && held.0 == slots && held.1
                        == steps,
                    None => record is None,
                },
            decreases count - i,
        {
            let kept: u64 = *self.stats.key_at(i);
            let stat: EpochStat = *self.stats.value_at(i);
            proof {
                assert(keys.take(i + 1).drop_last() =~= keys.take(i as int));
                assert(keys.take(i + 1).last() == kept);
                lemma_led_totals_bound(keys.take(i as int), self.stats@, member, low, high as int);
                assert(i * u64::MAX + u64::MAX <= u128::MAX) by (nonlinear_arith)
                    requires
                        i < usize::MAX,
                ;
            }
            if kept <= high && high - kept < RETAINED_STAT_EPOCHS && stat.leader == member {
                record = match record {
                    Some(held) => Some(
                        (
                            held.0 + stat.slots as u128,
                            held.1 + stat.decided_step_total as u128,
                        ),
                    ),
                    None => Some((stat.slots as u128, stat.decided_step_total as u128)),
                };
            }
            i += 1;
        }
        assert(keys.take(i as int) =~= keys);
        Fitness { record }
    }

    /// The schedule of an epoch as the committed log gives it.
    fn derive(&self, epoch: u64) -> (schedule: Result<EpochSchedule>)
        requires
            self.usable(),
        ensures
            error::outcome(schedule) == self@.derive(epoch),
            schedule matches Ok(found) ==> found@.proposers.len() > 0,
    {
        let count: u64 = self.members.len() as u64;
        let warmup: u128 = 2 * (count as u128) + 1;
        if (epoch as u128) < warmup {
            let offset: usize = (epoch % count) as usize;
            return EpochSchedule::new(epoch, rotated(self.members.as_slice(), offset));
        }
        let start: u64 = match (epoch - 1).checked_mul(self.epoch_size) {
            Some(start) => start,
            None => return Err(QuePaxaError::SlotOverflow),
        };
        assert(start >= 1) by (nonlinear_arith)
            requires
                start == (epoch - 1) * self.epoch_size,
                epoch >= 3,
                self.epoch_size >= 1,
        ;
        let required: u64 = start - 1;
        if self.stats_through.0 < required {
            let mut message: String = "epoch ".to_owned();
            push_decimal(&mut message, epoch);
            message.append(" schedule requires committed history through slot ");
            push_decimal(&mut message, required);
            return Err(QuePaxaError::PolicyError(message));
        }
        let ghost scored = self@.members.map_values(
            |member: ReplicaId| (self@.fitness(epoch as int, member), member),
        );
        let mut entries: Vec<(Fitness, ReplicaId)> = Vec::new();
        let mut i: usize = 0;
        while i < self.members.len()
            invariant
                i <= self.members@.len(),
                epoch >= 2,
                scored == self@.members.map_values(
                    |member: ReplicaId| (self@.fitness(epoch as int, member), member),
                ),
                entries@ =~= scored.take(i as int),
            decreases self.members@.len() - i,
        {
            let member: ReplicaId = self.members[i];
            entries.push((self.fitness_of(epoch, member), member));
            i += 1;
        }
        assert(scored.take(i as int) =~= scored);
        let mut order: Vec<ReplicaId> = rank(entries);
        let since: u64 = (epoch as u128 - warmup) as u64;
        if since > 0 && since % AUTO_REEXPLORE_EPOCHS == 0 {
            let chosen: usize = ((since / AUTO_REEXPLORE_EPOCHS) % count) as usize;
            promote(&mut order, self.members[chosen]);
        }
        EpochSchedule::new(epoch, order)
    }
}

/// A tuner keeps finitely many schedules.
pub proof fn lemma_schedules_are_finite(tuner: EpochTuner)
    ensures
        tuner@.schedules.dom().finite(),
{
    collections::lemma_map_is_finite(tuner.schedules);
}

impl Duplicate for EpochTuner {
    fn duplicate_value(&self) -> (copy: Self) {
        EpochTuner {
            epoch_size: self.epoch_size,
            members: duplicate_keys(self.members.as_slice()),
            auto: self.auto,
            schedules: self.schedules.duplicate_value(),
            stats: self.stats.duplicate_value(),
            stats_through: self.stats_through,
        }
    }
}

impl Clone for EpochTuner {
    fn clone(&self) -> (copy: Self)
        ensures
            copy@ == self@,
    {
        self.duplicate_value()
    }
}

} // verus!
