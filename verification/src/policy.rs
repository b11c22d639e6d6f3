//! Policies that order the proposers of a slot.

use crate::collections::OrdMap;
use crate::error;
use crate::error::{ErrorView, QuePaxaError, Result};
use crate::key::Duplicate;
use crate::ranking;
use crate::ranking::{find_position, promote, rank, rotated, validate_order, Score};
use crate::span::Span;
use crate::span::MAX_NANOS;
use crate::types::{duplicate_keys, list_contains, ReplicaId, SlotIndex};
use vstd::prelude::*;

verus! {

/// The factor by which a place in the sequence multiplies the base delay.
pub open spec fn delay_factor(sequence: Seq<ReplicaId>, replica: ReplicaId) -> int {
    ranking::position(sequence, replica) % 0x1_0000_0000
}

/// Each place in the sequence waits one base delay longer.
pub open spec fn staggered_delay(
    replica: ReplicaId,
    sequence: Seq<ReplicaId>,
    base_delay: Span,
) -> std::result::Result<Span, ErrorView> {
    if sequence.contains(replica) {
        Ok(Span { nanos: (base_delay.nanos * delay_factor(sequence, replica)) as u128 })
    } else {
        Err(ErrorView::UnknownReplica(replica))
    }
}

/// Whether a staggered delay is still a span.
pub open spec fn delay_fits(
    replica: ReplicaId,
    sequence: Seq<ReplicaId>,
    base_delay: Span,
) -> bool {
    sequence.contains(replica) ==> base_delay.nanos * delay_factor(sequence, replica) <= MAX_NANOS
}

/// Each place in the sequence waits one base delay longer.
pub fn staggered(
    replica: ReplicaId,
    sequence: &[ReplicaId],
    base_delay: Span,
) -> (delay: Result<Span>)
    requires
        delay_fits(replica, sequence@, base_delay),
    ensures
        error::outcome(delay) == staggered_delay(replica, sequence@, base_delay),
{
    match find_position(sequence, replica) {
        None => Err(QuePaxaError::UnknownReplica(replica)),
        Some(i) => {
            let factor: u128 = (i as u128) % 0x1_0000_0000;
            Ok(Span { nanos: base_delay.nanos * factor })
        },
    }
}

/// Orders the proposers of a slot, and says how long each waits.
pub trait HedgingPolicy {
    /// The order of proposers, or why there is none.
    open spec fn sequence(
        &self,
        slot: SlotIndex,
        replicas: Seq<ReplicaId>,
        previous_winner: Option<ReplicaId>,
    ) -> std::result::Result<Seq<ReplicaId>, ErrorView> {
        Ok(replicas)
    }

    /// How long a proposer waits.
    open spec fn delay(
        &self,
        replica: ReplicaId,
        sequence: Seq<ReplicaId>,
        base_delay: Span,
    ) -> std::result::Result<Span, ErrorView> {
        staggered_delay(replica, sequence, base_delay)
    }

    /// Whether the delay can be told.
    open spec fn can_delay(
        &self,
        replica: ReplicaId,
        sequence: Seq<ReplicaId>,
        base_delay: Span,
    ) -> bool {
        delay_fits(replica, sequence, base_delay)
    }

    fn leader_sequence(
        &self,
        slot: SlotIndex,
        replicas: &[ReplicaId],
        previous_winner: Option<ReplicaId>,
    ) -> (sequence: Result<Vec<ReplicaId>>)
        ensures
            error::outcome(sequence) == self.sequence(slot, replicas@, previous_winner),
    ;

    fn delay_for(
        &self,
        replica: ReplicaId,
        sequence: &[ReplicaId],
        base_delay: Span,
    ) -> (delay: Result<Span>)
        requires
            self.can_delay(replica, sequence@, base_delay),
        ensures
            error::outcome(delay) == self.delay(replica, sequence@, base_delay),
    ;
}

/// A sequence, unless the replicas are no order of proposers.
pub open spec fn if_ordered(replicas: Seq<ReplicaId>, sequence: Seq<ReplicaId>) -> std::result::Result<
    Seq<ReplicaId>,
    ErrorView,
> {
    match ranking::order_error(replicas) {
        Some(refusal) => Err(refusal),
        None => Ok(sequence),
    }
}

/// Keeps the configured order.
#[derive(Debug, Clone, Copy)]
pub struct FixedLeaderPolicy;

impl Default for FixedLeaderPolicy {
    fn default() -> (policy: Self)
        ensures
            policy == FixedLeaderPolicy,
    {
        FixedLeaderPolicy
    }
}

impl HedgingPolicy for FixedLeaderPolicy {
    open spec fn sequence(
        &self,
        slot: SlotIndex,
        replicas: Seq<ReplicaId>,
        previous_winner: Option<ReplicaId>,
    ) -> std::result::Result<Seq<ReplicaId>, ErrorView> {
        if_ordered(replicas, replicas)
    }

    open spec fn delay(
        &self,
        replica: ReplicaId,
        sequence: Seq<ReplicaId>,
        base_delay: Span,
    ) -> std::result::Result<Span, ErrorView> {
        staggered_delay(replica, sequence, base_delay)
    }

    open spec fn can_delay(
        &self,
        replica: ReplicaId,
        sequence: Seq<ReplicaId>,
        base_delay: Span,
    ) -> bool {
        delay_fits(replica, sequence, base_delay)
    }

    fn leader_sequence(
        &self,
        slot: SlotIndex,
        replicas: &[ReplicaId],
        previous_winner: Option<ReplicaId>,
    ) -> (sequence: Result<Vec<ReplicaId>>) {
        match validate_order(replicas) {
            Err(refusal) => Err(refusal),
            Ok(()) => Ok(duplicate_keys(replicas)),
        }
    }

    fn delay_for(
        &self,
        replica: ReplicaId,
        sequence: &[ReplicaId],
        base_delay: Span,
    ) -> (delay: Result<Span>) {
        staggered(replica, sequence, base_delay)
    }
}

/// Lets each epoch begin with the next replica.
#[derive(Debug, Clone, Copy)]
pub struct RoundRobinPolicy {
    epoch_size: u64,
}

impl RoundRobinPolicy {
    #[verifier::type_invariant]
    closed spec fn has_epochs(self) -> bool {
        self.epoch_size > 0
    }

    /// How many slots an epoch has.
    pub closed spec fn slots_per_epoch(&self) -> u64 {
        self.epoch_size
    }

    /// An epoch has one slot at least.
    pub fn new(epoch_size: u64) -> (policy: Self)
        ensures
            policy.slots_per_epoch() == if epoch_size == 0 {
                1u64
            } else {
                epoch_size
            },
    {
        let epoch_size: u64 = if epoch_size == 0 {
            1
        } else {
            epoch_size
        };
        RoundRobinPolicy { epoch_size }
    }
}

impl HedgingPolicy for RoundRobinPolicy {
    open spec fn sequence(
        &self,
        slot: SlotIndex,
        replicas: Seq<ReplicaId>,
        previous_winner: Option<ReplicaId>,
    ) -> std::result::Result<Seq<ReplicaId>, ErrorView> {
        let epoch = slot.0 as int / self.slots_per_epoch() as int;
        if_ordered(replicas, ranking::rotation(replicas, epoch % replicas.len() as int))
    }

    open spec fn delay(
        &self,
        replica: ReplicaId,
        sequence: Seq<ReplicaId>,
        base_delay: Span,
    ) -> std::result::Result<Span, ErrorView> {
        staggered_delay(replica, sequence, base_delay)
    }

    open spec fn can_delay(
        &self,
        replica: ReplicaId,
        sequence: Seq<ReplicaId>,
        base_delay: Span,
    ) -> bool {
        delay_fits(replica, sequence, base_delay)
    }

    fn leader_sequence(
        &self,
        slot: SlotIndex,
        replicas: &[ReplicaId],
        previous_winner: Option<ReplicaId>,
    ) -> (sequence: Result<Vec<ReplicaId>>) {
        proof {
            use_type_invariant(self);
        }
        match validate_order(replicas) {
            Err(refusal) => Err(refusal),
            Ok(()) => {
                let epoch: u64 = slot.0 / self.epoch_size;
                let offset: usize = (epoch % replicas.len() as u64) as usize;
                Ok(rotated(replicas, offset))
            },
        }
    }

    fn delay_for(
        &self,
        replica: ReplicaId,
        sequence: &[ReplicaId],
        base_delay: Span,
    ) -> (delay: Result<Span>) {
        staggered(replica, sequence, base_delay)
    }
}

/// Lets all replicas propose at once.
#[derive(Debug, Clone, Copy)]
pub struct LeaderlessPolicy;

impl Default for LeaderlessPolicy {
    fn default() -> (policy: Self)
        ensures
            policy == LeaderlessPolicy,
    {
        LeaderlessPolicy
    }
}

impl HedgingPolicy for LeaderlessPolicy {
    open spec fn sequence(
        &self,
        slot: SlotIndex,
        replicas: Seq<ReplicaId>,
        previous_winner: Option<ReplicaId>,
    ) -> std::result::Result<Seq<ReplicaId>, ErrorView> {
        if_ordered(replicas, replicas)
    }

    open spec fn delay(
        &self,
        replica: ReplicaId,
        sequence: Seq<ReplicaId>,
        base_delay: Span,
    ) -> std::result::Result<Span, ErrorView> {
        if sequence.contains(replica) {
            Ok(Span { nanos: 0 })
        } else {
            Err(ErrorView::UnknownReplica(replica))
        }
    }

    open spec fn can_delay(
        &self,
        replica: ReplicaId,
        sequence: Seq<ReplicaId>,
        base_delay: Span,
    ) -> bool {
        true
    }

    fn leader_sequence(
        &self,
        slot: SlotIndex,
        replicas: &[ReplicaId],
        previous_winner: Option<ReplicaId>,
    ) -> (sequence: Result<Vec<ReplicaId>>) {
        match validate_order(replicas) {
            Err(refusal) => Err(refusal),
            Ok(()) => Ok(duplicate_keys(replicas)),
        }
    }

    fn delay_for(
        &self,
        replica: ReplicaId,
        sequence: &[ReplicaId],
        base_delay: Span,
    ) -> (delay: Result<Span>) {
        if !list_contains(sequence, &replica) {
            return Err(QuePaxaError::UnknownReplica(replica));
        }
        Ok(Span::zero())
    }
}

/// Begins with the previous winner.
#[derive(Debug, Clone, Copy)]
pub struct LastWinnerPolicy;

impl Default for LastWinnerPolicy {
    fn default() -> (policy: Self)
        ensures
            policy == LastWinnerPolicy,
    {
        LastWinnerPolicy
    }
}

impl HedgingPolicy for LastWinnerPolicy {
    open spec fn sequence(
        &self,
        slot: SlotIndex,
        replicas: Seq<ReplicaId>,
        previous_winner: Option<ReplicaId>,
    ) -> std::result::Result<Seq<ReplicaId>, ErrorView> {
        match ranking::order_error(replicas) {
            Some(refusal) => Err(refusal),
            None => match previous_winner {
                None => Ok(replicas),
                Some(winner) => if replicas.contains(winner) {
                    Ok(ranking::rotation(replicas, ranking::position(replicas, winner)))
                } else {
                    Err(ErrorView::UnknownReplica(winner))
                },
            },
        }
    }

    open spec fn delay(
        &self,
        replica: ReplicaId,
        sequence: Seq<ReplicaId>,
        base_delay: Span,
    ) -> std::result::Result<Span, ErrorView> {
        staggered_delay(replica, sequence, base_delay)
    }

    open spec fn can_delay(
        &self,
        replica: ReplicaId,
        sequence: Seq<ReplicaId>,
        base_delay: Span,
    ) -> bool {
        delay_fits(replica, sequence, base_delay)
    }

    fn leader_sequence(
        &self,
        slot: SlotIndex,
        replicas: &[ReplicaId],
        previous_winner: Option<ReplicaId>,
    ) -> (sequence: Result<Vec<ReplicaId>>) {
        match validate_order(replicas) {
            Err(refusal) => return Err(refusal),
            Ok(()) => {},
        }
        match previous_winner {
            None => Ok(duplicate_keys(replicas)),
            Some(winner) => match find_position(replicas, winner) {
                Some(offset) => Ok(rotated(replicas, offset)),
                None => Err(QuePaxaError::UnknownReplica(winner)),
            },
        }
    }

    fn delay_for(
        &self,
        replica: ReplicaId,
        sequence: &[ReplicaId],
        base_delay: Span,
    ) -> (delay: Result<Span>) {
        staggered(replica, sequence, base_delay)
    }
}

/// The durations that were observed of one leader, oldest first.
#[derive(Debug)]
pub struct Samples {
    spans: Vec<Span>,
}

impl View for Samples {
    type V = Seq<Span>;

    closed spec fn view(&self) -> Seq<Span> {
        self.spans@
    }
}

/// The sum of spans in nanoseconds.
pub open spec fn total_nanos(spans: Seq<Span>) -> int
    decreases spans.len(),
{
    if spans.len() == 0 {
        0
    } else {
        total_nanos(spans.drop_last()) + spans.last().nanos
    }
}

/// The last so many of a list.
pub open spec fn newest<T>(list: Seq<T>, window: int) -> Seq<T> {
    if list.len() > window {
        list.skip(list.len() - window)
    } else {
        list
    }
}

/// The average of spans in whole nanoseconds, in the 64 bits that a span is made
/// from.
pub open spec fn average_nanos(spans: Seq<Span>) -> int {
    (total_nanos(spans) / spans.len() as int) % 0x1_0000_0000_0000_0000
}

/// What a replica without samples counts as: half of the longest whole seconds.
pub const UNSAMPLED_NANOS: u128 = 9_223_372_036_854_775_807_000_000_000;

impl Samples {
    fn new() -> (samples: Self)
        ensures
            samples@ == Seq::<Span>::empty(),
    {
        Samples { spans: Vec::new() }
    }

    /// Takes in a duration, and forgets the oldest beyond the window.
    fn observe(&mut self, span: Span, window: usize)
        ensures
            final(self)@ == newest(old(self)@.push(span), window as int),
    {
        let ghost all = self.spans@.push(span);
        self.spans.push(span);
        while self.spans.len() > window
            invariant
                self.spans@.len() <= all.len(),
                self.spans@ =~= all.skip(all.len() - self.spans@.len()),
                all.len() > window ==> self.spans@.len() >= window,
                all.len() <= window ==> self.spans@.len() == all.len(),
            decreases self.spans@.len(),
        {
            let oldest: Span = self.spans.remove(0);
        }
        assert(self.spans@ =~= newest(all, window as int));
    }

    /// The average of the durations.
    fn average(&self) -> (average: Span)
        requires
            self@.len() > 0,
        ensures
            average.nanos == average_nanos(self@),
    {
        let count: u128 = self.spans.len() as u128;
        let mut quotients: u128 = 0;
        let mut remainders: u128 = 0;
        let mut i: usize = 0;
        proof {
            assert(self.spans@.take(0) =~= Seq::<Span>::empty());
            assert(count * 0 == 0) by (nonlinear_arith);
            assert(0 <= 0 * (u128::MAX / count)) by (nonlinear_arith)
                requires
                    count > 0,
            ;
        }
        while i < self.spans.len()
            invariant
                i <= self.spans@.len(),
                count == self.spans@.len(),
                0 < count <= u64::MAX,
                quotients * count + remainders == total_nanos(self.spans@.take(i as int)),
                quotients <= i * (u128::MAX / count),
                remainders <= i * (count - 1),
            decreases self.spans@.len() - i,
        {
            let nanos: u128 = self.spans[i].nanos;
            let quotient: u128 = nanos / count;
            let remainder: u128 = nanos % count;
            proof {
                assert(self.spans@.take(i + 1).drop_last() =~= self.spans@.take(i as int));
                assert(self.spans@.take(i + 1).last() == self.spans@[i as int]);
                vstd::arithmetic::div_mod::lemma_fundamental_div_mod(nanos as int, count as int);
                vstd::arithmetic::div_mod::lemma_div_is_ordered(
                    nanos as int,
                    u128::MAX as int,
                    count as int,
                );
                let top = (u128::MAX / count) as int;
                assert(quotient <= top);
                assert(i * top + top == (i + 1) * top) by (nonlinear_arith);
                assert(i * (count - 1) + (count - 1) == (i + 1) * (count - 1)) by (nonlinear_arith);
                assert((i + 1) * top <= count * top) by (nonlinear_arith)
                    requires
                        i + 1 <= count,
                        top >= 0,
                ;
                vstd::arithmetic::div_mod::lemma_fundamental_div_mod(
                    u128::MAX as int,
                    count as int,
                );
                assert(count * top <= u128::MAX) by (nonlinear_arith)
                    requires
                        u128::MAX == count * top + (u128::MAX as int % count as int),
                        u128::MAX as int % count as int >= 0,
                ;
                assert((i + 1) * (count - 1) <= u64::MAX * u64::MAX) by (nonlinear_arith)
                    requires
                        0 <= i < count,
                        count <= u64::MAX,
                ;
                assert((quotients + quotient) * count == quotients * count + quotient * count)
                    by (nonlinear_arith);
                assert(quotient * count == count * quotient) by (nonlinear_arith);
            }
            quotients = quotients + quotient;
            remainders = remainders + remainder;
            i += 1;
        }
        assert(self.spans@.take(i as int) =~= self.spans@);
        let extra: u128 = remainders / count;
        proof {
            let total = total_nanos(self.spans@);
            vstd::arithmetic::div_mod::lemma_div_multiples_vanish_fancy(
                quotients as int,
                remainders as int % count as int,
                count as int,
            );
            vstd::arithmetic::div_mod::lemma_fundamental_div_mod(
                remainders as int,
                count as int,
            );
            let whole = quotients + extra;
            assert(total == count * whole + (remainders as int % count as int)) by (nonlinear_arith)
                requires
                    total == quotients * count + remainders,
                    remainders == count * extra + (remainders as int % count as int),
                    whole == quotients + extra,
            ;
            vstd::arithmetic::div_mod::lemma_fundamental_div_mod_converse(
                total,
                count as int,
                whole,
                remainders as int % count as int,
            );
            lemma_total_bound(self.spans@);
            assert(whole <= u128::MAX) by (nonlinear_arith)
                requires
                    total == count * whole + (remainders as int % count as int),
                    remainders as int % count as int >= 0,
                    total <= count * u128::MAX,
                    count > 0,
            ;
        }
        let whole: u128 = quotients + extra;
        Span { nanos: whole % 0x1_0000_0000_0000_0000 }
    }
}

impl Duplicate for Samples {
    fn duplicate_value(&self) -> (copy: Self) {
        let mut spans: Vec<Span> = Vec::new();
        let mut i: usize = 0;
        while i < self.spans.len()
            invariant
                i <= self.spans@.len(),
                spans@ =~= self.spans@.take(i as int),
            decreases self.spans@.len() - i,
        {
            spans.push(self.spans[i]);
            i += 1;
        }
        assert(self.spans@.take(i as int) =~= self.spans@);
        Samples { spans }
    }
}

/// A sum is at most so many times the largest span.
proof fn lemma_total_bound(spans: Seq<Span>)
    ensures
        0 <= total_nanos(spans) <= spans.len() * u128::MAX,
    decreases spans.len(),
{
    if spans.len() > 0 {
        lemma_total_bound(spans.drop_last());
        let n = spans.len() as int;
        assert((n - 1) * u128::MAX + u128::MAX == n * u128::MAX) by (nonlinear_arith);
    } else {
        assert(0 * u128::MAX == 0) by (nonlinear_arith);
    }
}

impl Score for Span {
    /// A shorter duration is better.
    open spec fn beats(self, other: Self) -> bool {
        self.nanos < other.nanos
    }

    fn is_better(&self, other: &Self) -> (better: bool) {
        self.nanos < other.nanos
    }
}

/// What an adaptive policy works with.
#[verifier::ext_equal]
pub struct AdaptiveView {
    pub epoch_size: u64,
    pub samples: Map<ReplicaId, Seq<Span>>,
    pub sample_window: usize,
    pub reexplore_every_epochs: u64,
}

impl AdaptiveView {
    /// What a replica is ranked by.
    pub open spec fn score(self, replica: ReplicaId) -> Span {
        Span {
            nanos: if self.samples.dom().contains(replica) {
                average_nanos(self.samples[replica]) as u128
            } else {
                UNSAMPLED_NANOS
            },
        }
    }

    /// The replicas with their scores.
    pub open spec fn scores(self, replicas: Seq<ReplicaId>) -> Seq<(Span, ReplicaId)> {
        replicas.map_values(|replica: ReplicaId| (self.score(replica), replica))
    }

    /// The replicas from the fastest to the slowest.
    pub open spec fn by_speed(self, replicas: Seq<ReplicaId>) -> Seq<ReplicaId> {
        ranking::ids_of(ranking::ranked(self.scores(replicas)))
    }

    /// The order of a slot: rotated through the first epochs, then by speed,
    /// with another replica first every so many epochs.
    pub open spec fn order(self, slot: SlotIndex, replicas: Seq<ReplicaId>) -> Seq<ReplicaId> {
        let epoch = slot.0 as int / self.epoch_size as int;
        let count = replicas.len() as int;
        let since = epoch - (2 * count + 1);
        if since < 0 {
            ranking::rotation(replicas, epoch % count)
        } else if since > 0 && since % self.reexplore_every_epochs as int == 0 {
            ranking::promotion(
                self.by_speed(replicas),
                replicas[(since / self.reexplore_every_epochs as int) % count],
            )
        } else {
            self.by_speed(replicas)
        }
    }
}

/// Ranks leaders by epoch durations supplied by one agreed control plane.
///
/// SAFETY: the samples fed into this policy are local observations, so two
/// replicas that each run their own instance will compute different leader
/// sequences. Installing divergent schedules gives two replicas the reserved
/// round-one priority for the same slot, which can decide conflicting values.
/// Use this policy only from a single control plane that distributes one
/// agreed schedule to every replica, or prefer
/// `ReplicaRuntimeConfig::with_auto_schedules`, which derives identical
/// schedules on every replica from the committed log. Runtime code therefore
/// does not call `record_epoch`; this type is intentionally an offline policy.
#[derive(Debug)]
pub struct AdaptivePolicy {
    epoch_size: u64,
    samples: OrdMap<ReplicaId, Samples>,
    sample_window: usize,
    reexplore_every_epochs: u64,
}

impl View for AdaptivePolicy {
    type V = AdaptiveView;

    closed spec fn view(&self) -> AdaptiveView {
        AdaptiveView {
            epoch_size: self.epoch_size,
            samples: self.samples@,
            sample_window: self.sample_window,
            reexplore_every_epochs: self.reexplore_every_epochs,
        }
    }
}

impl AdaptivePolicy {
    #[verifier::type_invariant]
    closed spec fn can_rank(self) -> bool {
        &&& self.epoch_size > 0
        &&& self.sample_window > 0
        &&& self.reexplore_every_epochs > 0
        &&& forall|replica: ReplicaId| #[trigger]
            self.samples@.dom().contains(replica) ==> self.samples@[replica].len() > 0
    }

    /// An epoch has one slot at least.
    pub fn new(epoch_size: u64) -> (policy: Self)
        ensures
            policy@ == (AdaptiveView {
                epoch_size: if epoch_size == 0 {
                    1
                } else {
                    epoch_size
                },
                samples: Map::empty(),
                sample_window: 16,
                reexplore_every_epochs: 32,
            }),
    {
        let epoch_size: u64 = if epoch_size == 0 {
            1
        } else {
            epoch_size
        };
        AdaptivePolicy {
            epoch_size,
            samples: OrdMap::new(),
            sample_window: 16,
            reexplore_every_epochs: 32,
        }
    }

    /// Bounds how much old performance data can dilute new re-exploration
    /// samples after network conditions change.
    pub fn with_sample_window(self, epochs_per_leader: usize) -> (changed: Self)
        ensures
            changed@ == (AdaptiveView {
                sample_window: if epochs_per_leader == 0 {
                    1
                } else {
                    epochs_per_leader
                },
                ..self@
            }),
    {
        proof {
            use_type_invariant(&self);
        }
        let sample_window: usize = if epochs_per_leader == 0 {
            1
        } else {
            epochs_per_leader
        };
        AdaptivePolicy {
            epoch_size: self.epoch_size,
            samples: self.samples,
            sample_window,
            reexplore_every_epochs: self.reexplore_every_epochs,
        }
    }

    /// Periodically puts a different replica first even after exploitation
    /// begins, so a recovered or newly fast replica is eventually sampled.
    pub fn with_reexploration_interval(self, epochs: u64) -> (changed: Self)
        ensures
            changed@ == (AdaptiveView {
                reexplore_every_epochs: if epochs == 0 {
                    1
                } else {
                    epochs
                },
                ..self@
            }),
    {
        proof {
            use_type_invariant(&self);
        }
        let reexplore_every_epochs: u64 = if epochs == 0 {
            1
        } else {
            epochs
        };
        AdaptivePolicy {
            epoch_size: self.epoch_size,
            samples: self.samples,
            sample_window: self.sample_window,
            reexplore_every_epochs,
        }
    }

    /// Takes in how long an epoch took under a leader.
    pub fn record_epoch(&mut self, leader: ReplicaId, duration: Span)
        ensures
            final(self)@ == (AdaptiveView {
                samples: old(self)@.samples.insert(
                    leader,
                    newest(
                        if old(self)@.samples.dom().contains(leader) {
                            old(self)@.samples[leader].push(duration)
                        } else {
                            seq![duration]
                        },
                        old(self)@.sample_window as int,
                    ),
                ),
                ..old(self)@
            }),
    {
        proof {
            use_type_invariant(&*self);
        }
        let mut samples: Samples = match self.samples.get(&leader) {
            Some(known) => known.duplicate_value(),
            None => Samples::new(),
        };
        let ghost before = samples@;
        samples.observe(duration, self.sample_window);
        assert(Seq::<Span>::empty().push(duration) =~= seq![duration]);
        let mut all: OrdMap<ReplicaId, Samples> = OrdMap::new();
        std::mem::swap(&mut all, &mut self.samples);
        all.insert(leader, samples);
        self.samples = all;
    }

    /// The replicas with their scores.
    fn scored(&self, replicas: &[ReplicaId]) -> (entries: Vec<(Span, ReplicaId)>)
        ensures
            entries@ == self@.scores(replicas@),
    {
        proof {
            use_type_invariant(self);
        }
        let mut entries: Vec<(Span, ReplicaId)> = Vec::new();
        let mut i: usize = 0;
        while i < replicas.len()
            invariant
                i <= replicas@.len(),
                self.can_rank(),
                entries@ =~= self@.scores(replicas@).take(i as int),
            decreases replicas@.len() - i,
        {
            let replica: ReplicaId = replicas[i];
            let score: Span = match self.samples.get(&replica) {
                Some(samples) => samples.average(),
                None => Span { nanos: UNSAMPLED_NANOS },
            };
            entries.push((score, replica));
            i += 1;
        }
        assert(self@.scores(replicas@).take(i as int) =~= self@.scores(replicas@));
        entries
    }
}

impl Clone for AdaptivePolicy {
    fn clone(&self) -> (copy: Self)
        ensures
            copy@ == self@,
    {
        proof {
            use_type_invariant(self);
        }
        AdaptivePolicy {
            epoch_size: self.epoch_size,
            samples: self.samples.duplicate_value(),
            sample_window: self.sample_window,
            reexplore_every_epochs: self.reexplore_every_epochs,
        }
    }
}

/// Ranking by speed keeps the replicas: all of them, and each once.
pub proof fn speed_ranking_keeps_replicas(policy: AdaptiveView, replicas: Seq<ReplicaId>)
    requires
        replicas.no_duplicates(),
    ensures
        policy.by_speed(replicas).no_duplicates(),
        forall|replica: ReplicaId| #[trigger]
            policy.by_speed(replicas).contains(replica) == replicas.contains(replica),
        policy.by_speed(replicas).len() == replicas.len(),
{
    let entries = policy.scores(replicas);
    assert(ranking::ids_of(entries) =~= replicas);
    assert(ranking::is_ordered(entries));
    ranking::ranking_is_descending(entries);
    ranking::ranking_is_a_rearrangement(entries);
    let best = ranking::ranked(entries);
    let ids = policy.by_speed(replicas);
    assert forall|i: int, j: int| 0 <= i < ids.len() && 0 <= j < ids.len() && i != j implies ids[i]
        != ids[j] by {
        if i < j {
            assert(ranking::precedes(best[i], best[j]));
        } else {
            assert(ranking::precedes(best[j], best[i]));
        }
        assert(best.contains(best[i]) && best.contains(best[j]));
        assert(entries.contains(best[i]) && entries.contains(best[j]));
    }
    assert forall|replica: ReplicaId| #[trigger] ids.contains(replica) == replicas.contains(
        replica,
    ) by {
        if ids.contains(replica) {
            let k = choose|k: int| 0 <= k < ids.len() && ids[k] == replica;
            assert(best.contains(best[k]));
            let e = choose|e: int| 0 <= e < entries.len() && entries[e] == best[k];
            assert(replicas[e] == replica);
        }
        if replicas.contains(replica) {
            let e = choose|e: int| 0 <= e < replicas.len() && replicas[e] == replica;
            assert(entries.contains(entries[e]));
            assert(best.contains(entries[e]));
            let k = choose|k: int| 0 <= k < best.len() && best[k] == entries[e];
            assert(ids[k] == replica);
        }
    }
}

impl HedgingPolicy for AdaptivePolicy {
    open spec fn sequence(
        &self,
        slot: SlotIndex,
        replicas: Seq<ReplicaId>,
        previous_winner: Option<ReplicaId>,
    ) -> std::result::Result<Seq<ReplicaId>, ErrorView> {
        if_ordered(replicas, self@.order(slot, replicas))
    }

    open spec fn delay(
        &self,
        replica: ReplicaId,
        sequence: Seq<ReplicaId>,
        base_delay: Span,
    ) -> std::result::Result<Span, ErrorView> {
        staggered_delay(replica, sequence, base_delay)
    }

    open spec fn can_delay(
        &self,
        replica: ReplicaId,
        sequence: Seq<ReplicaId>,
        base_delay: Span,
    ) -> bool {
        delay_fits(replica, sequence, base_delay)
    }

    fn leader_sequence(
        &self,
        slot: SlotIndex,
        replicas: &[ReplicaId],
        previous_winner: Option<ReplicaId>,
    ) -> (sequence: Result<Vec<ReplicaId>>) {
        match validate_order(replicas) {
            Err(refusal) => return Err(refusal),
            Ok(()) => {},
        }
        proof {
            use_type_invariant(self);
        }
        let count: u64 = replicas.len() as u64;
        let epoch: u64 = slot.0 / self.epoch_size;
        let warmup: u128 = 2 * (count as u128) + 1;
        if (epoch as u128) < warmup {
            let offset: usize = (epoch % count) as usize;
            return Ok(rotated(replicas, offset));
        }
        let mut order: Vec<ReplicaId> = rank(self.scored(replicas));
        let since: u64 = (epoch as u128 - warmup) as u64;
        if since > 0 && since % self.reexplore_every_epochs == 0 {
            let chosen: usize = ((since / self.reexplore_every_epochs) % count) as usize;
            promote(&mut order, replicas[chosen]);
        }
        Ok(order)
    }

    fn delay_for(
        &self,
        replica: ReplicaId,
        sequence: &[ReplicaId],
        base_delay: Span,
    ) -> (delay: Result<Span>) {
        staggered(replica, sequence, base_delay)
    }
}

/// A rotation is of the same members.
pub proof fn rotation_keeps_members(replicas: Seq<ReplicaId>, offset: int)
    requires
        0 <= offset <= replicas.len(),
    ensures
        ranking::rotation(replicas, offset).len() == replicas.len(),
        ranking::rotation(replicas, offset).to_multiset() == replicas.to_multiset(),
{
    vstd::seq_lib::lemma_multiset_commutative(replicas.skip(offset), replicas.take(offset));
    vstd::seq_lib::lemma_multiset_commutative(replicas.take(offset), replicas.skip(offset));
    assert(replicas.take(offset) + replicas.skip(offset) =~= replicas);
}

/// The previous winner leads the next slot.
pub proof fn last_winner_leads(slot: SlotIndex, replicas: Seq<ReplicaId>, winner: ReplicaId)
    requires
        ranking::order_error(replicas) is None,
        replicas.contains(winner),
    ensures
        LastWinnerPolicy.sequence(slot, replicas, Some(winner)) matches Ok(sequence)
            && sequence.len() == replicas.len() && sequence[0] == winner,
{
    ranking::lemma_duplicated(replicas, 0);
    let i = choose|i: int| 0 <= i < replicas.len() && replicas[i] == winner;
    ranking::lemma_position(replicas, winner, i);
}

} // verus!
