//! An open-loop load generator: which requests it offers, and what became of
//! them.

use crate::error;
use crate::error::{ErrorView, QuePaxaError, Result};
use crate::network::chaos::xorshift;
use crate::network::wire::SubmissionOutcome;
use crate::proposer;
use crate::proposer::mix_seed;
use crate::span::Span;
use vstd::prelude::*;

verus! {

/// How much load is offered, and for how long.
#[derive(Debug, Clone, Copy, PartialEq, Eq)]
pub struct OpenLoopLoadConfig {
    pub seed: u64,
    pub requests_per_second: u64,
    pub duration: Span,
    pub max_in_flight: usize,
}

impl OpenLoopLoadConfig {
    /// Some load is offered.
    pub open spec fn valid(self) -> bool {
        self.requests_per_second != 0 && self.duration.nanos != 0 && self.max_in_flight != 0
    }

    pub fn validate(&self) -> (checked: Result<()>)
        ensures
            error::outcome(checked) == if self.valid() {
                Ok::<(), ErrorView>(())
            } else {
                Err(
                    ErrorView::InvalidProposal(
                        "load rate, duration, and max in-flight requests must be non-zero"@,
                    ),
                )
            },
    {
        if self.requests_per_second == 0 || self.duration.is_zero() || self.max_in_flight == 0 {
            return Err(
                QuePaxaError::InvalidProposal(
                    "load rate, duration, and max in-flight requests must be non-zero".to_owned(),
                ),
            );
        }
        Ok(())
    }
}

/// A request to send.
#[derive(Debug, Clone, Copy, PartialEq, Eq)]
pub struct OfferedRequest {
    pub request_id: u64,
    pub value_id: u64,
}

/// One more, up to the largest number.
pub open spec fn bumped(count: u64) -> u64 {
    if count == u64::MAX {
        count
    } else {
        (count + 1) as u64
    }
}

/// The place behind the last value that is not larger.
pub open spec fn place_of(values: Seq<u64>, value: u64) -> int
    decreases values.len(),
{
    if values.len() == 0 || values.last() <= value {
        values.len() as int
    } else {
        place_of(values.drop_last(), value)
    }
}

/// Each value is at most the next.
pub open spec fn is_ascending(values: Seq<u64>) -> bool {
    forall|i: int, j: int| 0 <= i <= j < values.len() ==> values[i] <= values[j]
}

/// The value that so many percent of the others do not exceed.
pub open spec fn percentile_of(values: Seq<u64>, percentile: nat) -> u64 {
    if values.len() == 0 {
        0
    } else {
        values[(values.len() - 1) * percentile / 100]
    }
}

/// The state of a load run.
#[verifier::ext_equal]
pub struct LoadView {
    pub config: OpenLoopLoadConfig,
    pub random: u64,
    pub request_id: u64,
    pub offered: u64,
    pub dropped: u64,
    pub committed: u64,
    pub accepted: u64,
    pub duplicates: u64,
    pub errors: u64,
    /// Latencies in microseconds, in ascending order.
    pub latencies: Seq<u64>,
}

/// How a request ended.
#[derive(Debug, Clone, Copy, PartialEq, Eq)]
pub enum Completion {
    Committed,
    Accepted,
    Duplicate,
    Failed,
}

impl Completion {
    /// How a submission ended.
    pub fn of<V>(outcome: &Result<SubmissionOutcome<V>>) -> (completion: Completion)
        ensures
            completion == match outcome {
                Ok(SubmissionOutcome::Committed(_)) => Completion::Committed,
                Ok(SubmissionOutcome::Accepted) => Completion::Accepted,
                Ok(SubmissionOutcome::Duplicate(_)) => Completion::Duplicate,
                Err(_) => Completion::Failed,
            },
    {
        match outcome {
            Ok(SubmissionOutcome::Committed(_)) => Completion::Committed,
            Ok(SubmissionOutcome::Accepted) => Completion::Accepted,
            Ok(SubmissionOutcome::Duplicate(_)) => Completion::Duplicate,
            Err(_) => Completion::Failed,
        }
    }
}

impl LoadView {
    /// Offers the next request. Without a free place it is dropped.
    pub open spec fn offer(self, has_room: bool) -> (
        Self,
        std::result::Result<Option<OfferedRequest>, ErrorView>,
    ) {
        let counted = LoadView { offered: bumped(self.offered), ..self };
        if self.request_id == u64::MAX {
            (counted, Err(ErrorView::InvalidProposal("load request ID overflowed"@)))
        } else {
            let request_id = (self.request_id + 1) as u64;
            let numbered = LoadView { request_id, ..counted };
            if has_room {
                (
                    numbered,
                    Ok(
                        Some(
                            OfferedRequest {
                                request_id,
                                value_id: proposer::mixed(self.config.seed ^ request_id),
                            },
                        ),
                    ),
                )
            } else {
                (LoadView { dropped: bumped(self.dropped), ..numbered }, Ok(None))
            }
        }
    }

    /// Counts how a request ended and how long it took.
    pub open spec fn complete(self, completion: Completion, micros: u64) -> Self {
        let timed = LoadView {
            latencies: self.latencies.insert(place_of(self.latencies, micros), micros),
            ..self
        };
        match completion {
            Completion::Committed => LoadView { committed: bumped(self.committed), ..timed },
            Completion::Accepted => LoadView { accepted: bumped(self.accepted), ..timed },
            Completion::Duplicate => LoadView { duplicates: bumped(self.duplicates), ..timed },
            Completion::Failed => LoadView { errors: bumped(self.errors), ..timed },
        }
    }
}

/// The counts of a finished run.
#[derive(Debug, Clone, Copy, PartialEq, Eq)]
pub struct LoadSummary {
    pub seed: u64,
    pub requested_rate: u64,
    pub offered: u64,
    pub committed: u64,
    pub accepted: u64,
    pub duplicates: u64,
    pub errors: u64,
    pub dropped_overload: u64,
    pub latency_p50_micros: u64,
    pub latency_p99_micros: u64,
}

/// Offers requests at random moments and counts how they end.
#[derive(Debug)]
pub struct OpenLoopLoadGenerator {
    config: OpenLoopLoadConfig,
    random: u64,
    request_id: u64,
    offered: u64,
    dropped: u64,
    committed: u64,
    accepted: u64,
    duplicates: u64,
    errors: u64,
    latencies: Vec<u64>,
}

impl View for OpenLoopLoadGenerator {
    type V = LoadView;

    closed spec fn view(&self) -> LoadView {
        LoadView {
            config: self.config,
            random: self.random,
            request_id: self.request_id,
            offered: self.offered,
            dropped: self.dropped,
            committed: self.committed,
            accepted: self.accepted,
            duplicates: self.duplicates,
            errors: self.errors,
            latencies: self.latencies@,
        }
    }
}

fn bump(count: u64) -> (next: u64)
    ensures
        next == bumped(count),
{
    if count == u64::MAX {
        count
    } else {
        count + 1
    }
}

/// The value at a percentile of an ascending list.
pub fn percentile(values: &[u64], percent: u8) -> (value: u64)
    requires
        percent <= 100,
    ensures
        value == percentile_of(values@, percent as nat),
{
    if values.len() == 0 {
        return 0;
    }
    let last: u128 = (values.len() - 1) as u128;
    assert(last * percent <= last * 100) by (nonlinear_arith)
        requires
            percent <= 100,
    ;
    let index: u128 = last * percent as u128 / 100;
    assert(index <= last);
    values[index as usize]
}

impl OpenLoopLoadGenerator {
    pub fn new(config: OpenLoopLoadConfig) -> (generator: Result<Self>)
        ensures
            match generator {
                Ok(generator) => {
                    &&& config.valid()
                    &&& generator@ == (LoadView {
                        config,
                        random: proposer::seeded(config.seed),
                        request_id: 0,
                        offered: 0,
                        dropped: 0,
                        committed: 0,
                        accepted: 0,
                        duplicates: 0,
                        errors: 0,
                        latencies: Seq::empty(),
                    })
                },
                Err(refusal) => {
                    &&& !config.valid()
                    &&& refusal@ == ErrorView::InvalidProposal(
                        "load rate, duration, and max in-flight requests must be non-zero"@,
                    )
                },
            },
    {
        match config.validate() {
            Ok(()) => {},
            Err(refusal) => return Err(refusal),
        }
        let random: u64 = if config.seed == 0 {
            1
        } else {
            config.seed
        };
        Ok(
            OpenLoopLoadGenerator {
                config,
                random,
                request_id: 0,
                offered: 0,
                dropped: 0,
                committed: 0,
                accepted: 0,
                duplicates: 0,
                errors: 0,
                latencies: Vec::new(),
            },
        )
    }

    /// Offers the next request. Without a free place it is dropped.
    pub fn offer(&mut self, has_room: bool) -> (request: Result<Option<OfferedRequest>>)
        ensures
            final(self)@ == old(self)@.offer(has_room).0,
            match request {
                Ok(request) => old(self)@.offer(has_room).1 == Ok::<
                    Option<OfferedRequest>,
                    ErrorView,
                >(request),
                Err(refusal) => old(self)@.offer(has_room).1 == Err::<
                    Option<OfferedRequest>,
                    ErrorView,
                >(refusal@),
            },
    {
        self.offered = bump(self.offered);
        if self.request_id == u64::MAX {
            return Err(QuePaxaError::InvalidProposal("load request ID overflowed".to_owned()));
        }
        self.request_id = self.request_id + 1;
        if has_room {
            Ok(
                Some(
                    OfferedRequest {
                        request_id: self.request_id,
                        value_id: mix_seed(self.config.seed ^ self.request_id),
                    },
                ),
            )
        } else {
            self.dropped = bump(self.dropped);
            Ok(None)
        }
    }

    /// The random number that the pause before the next request is made of.
    pub fn draw(&mut self) -> (random: u64)
        ensures
            random == proposer::xorshift(proposer::seeded(old(self)@.random)),
            final(self)@ == (LoadView { random, ..old(self)@ }),
    {
        self.random = xorshift(self.random);
        self.random
    }

    /// Counts how a request ended and how long it took.
    pub fn complete(&mut self, completion: Completion, micros: u64)
        ensures
            final(self)@ == old(self)@.complete(completion, micros),
    {
        let mut at: usize = self.latencies.len();
        assert(self.latencies@.take(at as int) =~= self.latencies@);
        while at > 0 && self.latencies[at - 1] > micros
            invariant
                at <= self.latencies@.len(),
                *self == *old(self),
                place_of(self.latencies@, micros) == place_of(
                    self.latencies@.take(at as int),
                    micros,
                ),
            decreases at,
        {
            proof {
                let shorter = self.latencies@.take(at as int);
                assert(shorter.drop_last() =~= self.latencies@.take(at - 1));
                assert(shorter.last() == self.latencies@[at - 1]);
            }
            at -= 1;
        }
        self.latencies.insert(at, micros);
        match completion {
            Completion::Committed => {
                self.committed = bump(self.committed);
            },
            Completion::Accepted => {
                self.accepted = bump(self.accepted);
            },
            Completion::Duplicate => {
                self.duplicates = bump(self.duplicates);
            },
            Completion::Failed => {
                self.errors = bump(self.errors);
            },
        }
    }

    /// The counts so far.
    pub fn summary(&self) -> (summary: LoadSummary)
        ensures
            summary == (LoadSummary {
                seed: self@.config.seed,
                requested_rate: self@.config.requests_per_second,
                offered: self@.offered,
                committed: self@.committed,
                accepted: self@.accepted,
                duplicates: self@.duplicates,
                errors: self@.errors,
                dropped_overload: self@.dropped,
                latency_p50_micros: percentile_of(self@.latencies, 50),
                latency_p99_micros: percentile_of(self@.latencies, 99),
            }),
    {
        LoadSummary {
            seed: self.config.seed,
            requested_rate: self.config.requests_per_second,
            offered: self.offered,
            committed: self.committed,
            accepted: self.accepted,
            duplicates: self.duplicates,
            errors: self.errors,
            dropped_overload: self.dropped,
            latency_p50_micros: percentile(self.latencies.as_slice(), 50),
            latency_p99_micros: percentile(self.latencies.as_slice(), 99),
        }
    }
}

proof fn lemma_place(values: Seq<u64>, value: u64)
    requires
        is_ascending(values),
    ensures
        0 <= place_of(values, value) <= values.len(),
        forall|i: int| 0 <= i < place_of(values, value) ==> #[trigger] values[i] <= value,
        forall|i: int| place_of(values, value) <= i < values.len() ==> #[trigger] values[i] > value,
    decreases values.len(),
{
    if values.len() > 0 && values.last() > value {
        let before = values.drop_last();
        assert(is_ascending(before)) by {
            assert forall|i: int, j: int| 0 <= i <= j < before.len() implies before[i]
                <= before[j] by {
                assert(values[i] <= values[j]);
            }
        }
        lemma_place(before, value);
        assert forall|i: int| 0 <= i < place_of(values, value) implies #[trigger] values[i]
            <= value by {
            assert(before[i] <= value);
        }
        assert forall|i: int| place_of(values, value) <= i < values.len() implies #[trigger] values[i]
            > value by {
            if i < before.len() {
                assert(before[i] > value);
            }
        }
    } else if values.len() > 0 {
        assert forall|i: int| 0 <= i < values.len() implies #[trigger] values[i] <= value by {
            assert(values[i] <= values[values.len() - 1]);
        }
    }
}

/// Latencies stay in ascending order, and none is lost.
pub proof fn latencies_stay_ascending(state: LoadView, completion: Completion, micros: u64)
    requires
        is_ascending(state.latencies),
    ensures
        is_ascending(state.complete(completion, micros).latencies),
        state.complete(completion, micros).latencies.to_multiset()
            == state.latencies.to_multiset().insert(micros),
{
    broadcast use vstd::seq_lib::group_to_multiset_ensures;

    lemma_place(state.latencies, micros);
    let at = place_of(state.latencies, micros);
    let after = state.latencies.insert(at, micros);
    assert forall|i: int, j: int| 0 <= i <= j < after.len() implies after[i] <= after[j] by {
        let a = if i < at {
            i
        } else {
            i - 1
        };
        let b = if j < at {
            j
        } else {
            j - 1
        };
        if i != at && j != at {
            assert(state.latencies[a] <= state.latencies[b]);
        }
    }
}

} // verus!
