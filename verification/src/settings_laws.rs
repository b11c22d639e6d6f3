//! Laws of settings: which of them leave room for anything, and what limits
//! they set.

use crate::error::ErrorView;
use crate::network::batch::BatchServiceLimits;
use crate::network::chaos;
use crate::network::chaos::{RpcChaosProfile, WanLinkProfile};
use crate::network::codec;
use crate::network::load::OpenLoopLoadConfig;
use crate::recorder::RecorderLimits;
use crate::replica::ReplicaConfig;
use crate::schedule;
use crate::schedule::{AdaptiveHedgingView, DelayView};
use crate::span::Span;
use vstd::prelude::*;

verus! {

/// Limits are usable exactly where each lets something through, and a recorder's
/// only where they admit the first step of the first round. The standard ones
/// are, and admit two hundred and fifty-six whole rounds.
pub proof fn usable_limits_let_something_through(
    recorder: RecorderLimits,
    replica: ReplicaConfig,
    epoch_size: u64,
    batches: BatchServiceLimits,
    storage: usize,
)
    ensures
        recorder.usable() <==> {
            &&& recorder.max_active_slots >= 1 && recorder.max_decisions >= 1
            &&& recorder.max_values_per_proposal >= 1 && recorder.max_known_decisions >= 1
            &&& recorder.max_step.0 >= 4
        },
        RecorderLimits::standard().usable(),
        RecorderLimits::standard().max_step.0 == 4 * 256 + 3,
        schedule::limits_are_positive(replica, epoch_size) <==> {
            &&& epoch_size >= 1
            &&& replica.batch_size >= 1 && replica.pipeline_len >= 1
            &&& replica.max_pending_values >= 1 && replica.max_log_slots >= 1
            &&& replica.max_tracked_value_ids >= 1
        },
        batches.usable() <==> batches.max_batches_per_request >= 1 && batches.max_batch_bytes >= 1
            && batches.max_fetch_ids >= 1,
        codec::usable_limit(storage) is Ok <==> storage >= 1,
        storage >= 1 ==> codec::usable_limit(storage) == Ok::<usize, ErrorView>(storage),
{
}

/// A delay can be tuned exactly where its bounds are in order, at least one
/// sample is kept, and the percentile is one.
pub proof fn tunable_delays_have_bounds(hedging: AdaptiveHedgingView)
    ensures
        hedging.valid() <==> {
            &&& hedging.min_delay.nanos <= hedging.max_delay.nanos
            &&& hedging.sample_window >= 1
            &&& 0 < hedging.percentile <= 100
        },
{
}

/// A harness runs exactly where no rate, interval or limit of it is zero and its
/// links have names, all different.
pub proof fn harnesses_have_no_zero(
    link: WanLinkProfile,
    calls: RpcChaosProfile,
    load: OpenLoopLoadConfig,
    names: Seq<String>,
)
    ensures
        link.valid() <==> {
            &&& link.bandwidth_bytes_per_second matches Some(rate) ==> rate >= 1
            &&& link.fail_every matches Some(interval) ==> interval >= 1
            &&& link.reset_after_bytes matches Some(limit) ==> limit >= 1
            &&& link.blackhole_after_bytes matches Some(limit) ==> limit >= 1
        },
        calls.valid() <==> {
            &&& calls.drop_every matches Some(interval) ==> interval >= 1
            &&& calls.duplicate_every matches Some(interval) ==> interval >= 1
        },
        load.valid() <==> load.requests_per_second >= 1 && load.duration.nanos >= 1
            && load.max_in_flight >= 1,
        chaos::names_error(names) is None <==> {
            &&& names.len() >= 1
            &&& forall|i: int| 0 <= i < names.len() ==> (#[trigger] names[i])@.len() >= 1
            &&& forall|i: int, j: int|
                0 <= i < j < names.len() ==> (#[trigger] names[i])@ != (#[trigger] names[j])@
        },
{
}

/// A span that is moved between two bounds is between them, and stays where it is
/// already there. Spans add up to the longest there is.
pub proof fn spans_stay_between_their_bounds(span: Span, low: Span, high: Span, other: Span)
    requires
        low.nanos <= high.nanos,
    ensures
        low.nanos <= span.clamped(low, high).nanos <= high.nanos,
        low.nanos <= span.nanos <= high.nanos ==> span.clamped(low, high) == span,
        span.nanos < low.nanos ==> span.clamped(low, high) == low,
        span.nanos > high.nanos ==> span.clamped(low, high) == high,
        span.nanos + other.nanos <= crate::span::MAX_NANOS ==> span.plus(other).nanos == span.nanos
            + other.nanos,
        span.nanos + other.nanos > crate::span::MAX_NANOS ==> span.plus(other).nanos
            == crate::span::MAX_NANOS,
{
}

/// A hedging delay starts as it is configured, moved between its bounds where it
/// is tuned, and with no sample.
pub proof fn delays_start_at_their_base(base: Span, hedging: AdaptiveHedgingView)
    requires
        hedging.valid(),
    ensures
        DelayView::fresh(base, None).current == base,
        DelayView::fresh(base, None).config is None,
        DelayView::fresh(base, Some(hedging)).config == Some(hedging),
        DelayView::fresh(base, Some(hedging)).samples.len() == 0,
        hedging.min_delay.nanos <= base.nanos <= hedging.max_delay.nanos ==> DelayView::fresh(
            base,
            Some(hedging),
        ).current == base,
        base.nanos < hedging.min_delay.nanos ==> DelayView::fresh(base, Some(hedging)).current
            == hedging.min_delay,
        base.nanos > hedging.max_delay.nanos ==> DelayView::fresh(base, Some(hedging)).current
            == hedging.max_delay,
{
}

} // verus!
