//! Epoch schedules: who leads which slots, and how long hedgers wait.

use crate::cluster;
use crate::cluster::{ClusterIdentity, ClusterView};
use crate::error;
use crate::error::{ErrorView, QuePaxaError, Result};
use crate::key::Duplicate;
use crate::policy;
use crate::policy::HedgingPolicy;
use crate::ranking;
use crate::ranking::validate_order;
use crate::replica::ReplicaConfig;
use crate::span::Span;
use crate::types;
use crate::types::{duplicate_keys, same_list, LaneId, ReplicaId, SlotIndex};
use vstd::prelude::*;
use vstd::string::StringExecFns;

verus! {

/// Safety-relevant schedule configuration persisted with runtime state.
#[derive(Debug, Clone, Copy, PartialEq, Eq, Structural)]
pub struct ProtocolIdentity {
    pub epoch_size: u64,
    pub auto_schedules: bool,
}

/// How a hedging delay is tuned.
#[verifier::ext_equal]
pub struct AdaptiveHedgingView {
    pub min_delay: Span,
    pub max_delay: Span,
    pub sample_window: usize,
    pub percentile: u8,
}

impl AdaptiveHedgingView {
    /// Whether delays can be tuned so.
    pub open spec fn valid(self) -> bool {
        &&& self.min_delay.nanos <= self.max_delay.nanos
        &&& self.sample_window > 0
        &&& 1 <= self.percentile <= 100
    }
}

/// Local, non-safety-critical tuning parameters for the base hedging delay.
/// Successful consensus wall-clock durations are retained in a rolling
/// window, and the selected percentile becomes the delay for newly armed
/// slots. Leader order still comes from an agreed [`EpochSchedule`].
#[derive(Debug, Clone, Copy, PartialEq, Eq)]
pub struct AdaptiveHedgingConfig {
    min_delay: Span,
    max_delay: Span,
    sample_window: usize,
    percentile: u8,
}

impl View for AdaptiveHedgingConfig {
    type V = AdaptiveHedgingView;

    closed spec fn view(&self) -> AdaptiveHedgingView {
        AdaptiveHedgingView {
            min_delay: self.min_delay,
            max_delay: self.max_delay,
            sample_window: self.sample_window,
            percentile: self.percentile,
        }
    }
}

impl AdaptiveHedgingConfig {
    #[verifier::type_invariant]
    closed spec fn can_tune(self) -> bool {
        self@.valid()
    }

    pub fn new(min_delay: Span, max_delay: Span) -> (config: Result<Self>)
        ensures
            error::outcome(config) == if min_delay.nanos > max_delay.nanos {
                Err(ErrorView::PolicyError("adaptive hedge minimum exceeds its maximum"@))
            } else {
                Ok(
                    AdaptiveHedgingView {
                        min_delay,
                        max_delay,
                        sample_window: 64,
                        percentile: 90,
                    },
                )
            },
    {
        if min_delay.nanos > max_delay.nanos {
            return Err(
                QuePaxaError::PolicyError(
                    "adaptive hedge minimum exceeds its maximum".to_owned(),
                ),
            );
        }
        Ok(AdaptiveHedgingConfig { min_delay, max_delay, sample_window: 64, percentile: 90 })
    }

    pub fn with_window(self, sample_window: usize) -> (config: Result<Self>)
        ensures
            error::outcome(config) == if sample_window == 0 {
                Err(ErrorView::PolicyError("adaptive hedge sample window must be non-zero"@))
            } else {
                Ok(AdaptiveHedgingView { sample_window, ..self@ })
            },
    {
        proof {
            use_type_invariant(&self);
        }
        if sample_window == 0 {
            return Err(
                QuePaxaError::PolicyError(
                    "adaptive hedge sample window must be non-zero".to_owned(),
                ),
            );
        }
        Ok(
            AdaptiveHedgingConfig {
                min_delay: self.min_delay,
                max_delay: self.max_delay,
                sample_window,
                percentile: self.percentile,
            },
        )
    }

    pub fn with_percentile(self, percentile: u8) -> (config: Result<Self>)
        ensures
            error::outcome(config) == if !(1 <= percentile <= 100) {
                Err(
                    ErrorView::PolicyError(
                        "adaptive hedge percentile must be between 1 and 100"@,
                    ),
                )
            } else {
                Ok(AdaptiveHedgingView { percentile, ..self@ })
            },
    {
        proof {
            use_type_invariant(&self);
        }
        if percentile < 1 || percentile > 100 {
            return Err(
                QuePaxaError::PolicyError(
                    "adaptive hedge percentile must be between 1 and 100".to_owned(),
                ),
            );
        }
        Ok(
            AdaptiveHedgingConfig {
                min_delay: self.min_delay,
                max_delay: self.max_delay,
                sample_window: self.sample_window,
                percentile,
            },
        )
    }

    pub fn min_delay(&self) -> (delay: Span)
        ensures
            delay == self@.min_delay,
    {
        self.min_delay
    }

    pub fn max_delay(&self) -> (delay: Span)
        ensures
            delay == self@.max_delay,
    {
        self.max_delay
    }

    pub fn sample_window(&self) -> (window: usize)
        ensures
            window == self@.sample_window,
    {
        self.sample_window
    }

    pub fn percentile(&self) -> (percentile: u8)
        ensures
            percentile == self@.percentile,
    {
        self.percentile
    }
}

/// A list of spans with one more in its place.
pub open spec fn span_placed(spans: Seq<Span>, span: Span) -> Seq<Span>
    decreases spans.len(),
{
    if spans.len() > 0 && span.nanos < spans.last().nanos {
        span_placed(spans.drop_last(), span).push(spans.last())
    } else {
        spans.push(span)
    }
}

/// Spans from the shortest to the longest.
pub open spec fn shortest_first(spans: Seq<Span>) -> Seq<Span>
    decreases spans.len(),
{
    if spans.len() == 0 {
        Seq::empty()
    } else {
        span_placed(shortest_first(spans.drop_last()), spans.last())
    }
}

/// The place of a percentile among so many ordered samples.
pub open spec fn percentile_place(count: int, percentile: int) -> int {
    (count * percentile + 99) / 100 - 1
}

/// A span is placed before the longer ones at the end.
proof fn lemma_span_placed(spans: Seq<Span>, span: Span, n: int)
    requires
        0 <= n <= spans.len(),
        forall|i: int| n <= i < spans.len() ==> span.nanos < (#[trigger] spans[i]).nanos,
        n > 0 ==> spans[n - 1].nanos <= span.nanos,
    ensures
        span_placed(spans, span) == spans.insert(n, span),
    decreases spans.len(),
{
    if n < spans.len() {
        let rest = spans.drop_last();
        assert(spans[spans.len() - 1] == spans.last());
        lemma_span_placed(rest, span, n);
        assert(rest.insert(n, span).push(spans.last()) =~= spans.insert(n, span));
    } else {
        assert(spans.insert(n, span) =~= spans.push(span));
    }
}

/// Ordering keeps the spans and puts them in order.
pub proof fn spans_are_ordered(spans: Seq<Span>)
    ensures
        shortest_first(spans).to_multiset() == spans.to_multiset(),
        shortest_first(spans).len() == spans.len(),
        forall|i: int, j: int|
            0 <= i < j < spans.len() ==> (#[trigger] shortest_first(spans)[i]).nanos <= (
            #[trigger] shortest_first(spans)[j]).nanos,
    decreases spans.len(),
{
    broadcast use vstd::seq_lib::group_to_multiset_ensures;

    if spans.len() > 0 {
        let rest = spans.drop_last();
        spans_are_ordered(rest);
        lemma_placed_keeps_order(shortest_first(rest), spans.last());
        assert(spans =~= rest.push(spans.last()));
    } else {
        assert(shortest_first(spans) =~= spans);
    }
}

proof fn lemma_placed_keeps_order(spans: Seq<Span>, span: Span)
    requires
        forall|i: int, j: int|
            0 <= i < j < spans.len() ==> (#[trigger] spans[i]).nanos <= (#[trigger] spans[j]).nanos,
    ensures
        span_placed(spans, span).len() == spans.len() + 1,
        span_placed(spans, span).to_multiset() == spans.to_multiset().insert(span),
        forall|i: int, j: int|
            0 <= i < j <= spans.len() ==> (#[trigger] span_placed(spans, span)[i]).nanos <= (
            #[trigger] span_placed(spans, span)[j]).nanos,
        forall|i: int|
            0 <= i <= spans.len() ==> (#[trigger] span_placed(spans, span)[i]).nanos <= span.nanos
                || (spans.len() > 0 && span_placed(spans, span)[i].nanos <= spans.last().nanos),
    decreases spans.len(),
{
    broadcast use vstd::seq_lib::group_to_multiset_ensures;

    if spans.len() > 0 && span.nanos < spans.last().nanos {
        let rest = spans.drop_last();
        lemma_placed_keeps_order(rest, span);
        assert(spans =~= rest.push(spans.last()));
        let inner = span_placed(rest, span);
        let whole = span_placed(spans, span);
        assert(whole.to_multiset() =~= spans.to_multiset().insert(span));
        assert forall|i: int| 0 <= i <= spans.len() implies (#[trigger] whole[i]).nanos
            <= spans.last().nanos by {
            if i < inner.len() {
                assert(whole[i] == inner[i]);
                if rest.len() > 0 {
                    assert(rest.last() == spans[spans.len() - 2]);
                    assert(spans[spans.len() - 1] == spans.last());
                }
            }
        }
        assert forall|i: int, j: int| 0 <= i < j <= spans.len() implies (
        #[trigger] whole[i]).nanos <= (#[trigger] whole[j]).nanos by {
            if j < inner.len() {
                assert(inner[i].nanos <= inner[j].nanos);
            }
        }
    } else {
        let whole = spans.push(span);
        assert forall|i: int, j: int| 0 <= i < j <= spans.len() implies (
        #[trigger] whole[i]).nanos <= (#[trigger] whole[j]).nanos by {
            if j == spans.len() && spans.len() > 0 {
                assert(spans[spans.len() - 1] == spans.last());
                if i < spans.len() - 1 {
                    assert(spans[i].nanos <= spans[spans.len() - 1].nanos);
                }
            }
        }
    }
}

/// Spans from the shortest to the longest.
fn sort_spans(spans: &[Span]) -> (ordered: Vec<Span>)
    ensures
        ordered@ == shortest_first(spans@),
{
    let mut ordered: Vec<Span> = Vec::new();
    let mut i: usize = 0;
    assert(spans@.take(0) =~= Seq::<Span>::empty());
    while i < spans.len()
        invariant
            i <= spans@.len(),
            ordered@ == shortest_first(spans@.take(i as int)),
        decreases spans@.len() - i,
    {
        let span: Span = spans[i];
        let mut n: usize = ordered.len();
        while n > 0 && span.nanos < ordered[n - 1].nanos
            invariant
                n <= ordered@.len(),
                forall|k: int| n <= k < ordered@.len() ==> span.nanos < (#[trigger] ordered@[k]).nanos,
            decreases n,
        {
            n -= 1;
        }
        proof {
            lemma_span_placed(ordered@, span, n as int);
            assert(spans@.take(i + 1).drop_last() =~= spans@.take(i as int));
            assert(spans@.take(i + 1).last() == span);
        }
        ordered.insert(n, span);
        i += 1;
    }
    assert(spans@.take(i as int) =~= spans@);
    ordered
}

/// A delay and what it is tuned from.
#[verifier::ext_equal]
pub struct DelayView {
    pub current: Span,
    pub config: Option<AdaptiveHedgingView>,
    pub samples: Seq<Span>,
}

impl DelayView {
    /// The base delay, within the configured bounds.
    pub open spec fn fresh(base_delay: Span, config: Option<AdaptiveHedgingView>) -> Self {
        DelayView {
            current: match config {
                Some(adaptive) => base_delay.clamped(adaptive.min_delay, adaptive.max_delay),
                None => base_delay,
            },
            config,
            samples: Seq::empty(),
        }
    }

    /// The delay after one more observation: the percentile of the newest
    /// samples, within the configured bounds.
    pub open spec fn observe(self, elapsed: Span) -> Self {
        match self.config {
            None => self,
            Some(config) => {
                let samples = policy::newest(
                    self.samples.push(elapsed),
                    config.sample_window as int,
                );
                let place = percentile_place(samples.len() as int, config.percentile as int);
                DelayView {
                    current: shortest_first(samples)[place].clamped(
                        config.min_delay,
                        config.max_delay,
                    ),
                    samples,
                    ..self
                }
            },
        }
    }
}

/// The hedging delay for newly armed slots.
#[derive(Debug)]
pub struct HedgeDelayTuner {
    current: Span,
    config: Option<AdaptiveHedgingConfig>,
    samples: Vec<Span>,
}

impl View for HedgeDelayTuner {
    type V = DelayView;

    closed spec fn view(&self) -> DelayView {
        DelayView {
            current: self.current,
            config: types::option_view(self.config),
            samples: self.samples@,
        }
    }
}

impl HedgeDelayTuner {
    pub fn new(base_delay: Span, config: Option<AdaptiveHedgingConfig>) -> (tuner: Self)
        ensures
            tuner@ == DelayView::fresh(base_delay, types::option_view(config)),
    {
        let current: Span = match &config {
            Some(adaptive) => {
                proof {
                    use_type_invariant(adaptive);
                }
                base_delay.clamp_between(adaptive.min_delay, adaptive.max_delay)
            },
            None => base_delay,
        };
        HedgeDelayTuner { current, config, samples: Vec::new() }
    }

    pub fn current(&self) -> (delay: Span)
        ensures
            delay == self@.current,
    {
        self.current
    }

    /// Takes in how long a consensus took.
    pub fn observe(&mut self, elapsed: Span)
        ensures
            final(self)@ == old(self)@.observe(elapsed),
    {
        let config: AdaptiveHedgingConfig = match &self.config {
            Some(config) => *config,
            None => return,
        };
        proof {
            use_type_invariant(&config);
        }
        let ghost all = self.samples@.push(elapsed);
        let window: usize = config.sample_window;
        self.samples.push(elapsed);
        while self.samples.len() > window
            invariant
                window > 0,
                self.samples@.len() <= all.len(),
                self.samples@ =~= all.skip(all.len() - self.samples@.len()),
                all.len() > window ==> self.samples@.len() >= window,
                all.len() <= window ==> self.samples@.len() == all.len(),
                self.config == old(self).config,
                self.current == old(self).current,
            decreases self.samples@.len(),
        {
            let oldest: Span = self.samples.remove(0);
        }
        assert(self.samples@ =~= policy::newest(all, window as int));
        let ordered: Vec<Span> = sort_spans(self.samples.as_slice());
        proof {
            spans_are_ordered(self.samples@);
        }
        let count: u128 = ordered.len() as u128;
        let percentile: u128 = config.percentile as u128;
        assert(1 <= count * percentile <= count * 100) by (nonlinear_arith)
            requires
                count >= 1,
                1 <= percentile <= 100,
        ;
        let place: usize = ((count * percentile + 99) / 100 - 1) as usize;
        self.current = ordered[place].clamp_between(config.min_delay, config.max_delay);
    }
}

impl Duplicate for HedgeDelayTuner {
    fn duplicate_value(&self) -> (copy: Self) {
        let mut samples: Vec<Span> = Vec::new();
        let mut i: usize = 0;
        while i < self.samples.len()
            invariant
                i <= self.samples@.len(),
                samples@ =~= self.samples@.take(i as int),
            decreases self.samples@.len() - i,
        {
            samples.push(self.samples[i]);
            i += 1;
        }
        assert(self.samples@.take(i as int) =~= self.samples@);
        HedgeDelayTuner { current: self.current, config: self.config, samples }
    }
}

impl Clone for HedgeDelayTuner {
    fn clone(&self) -> (copy: Self)
        ensures
            copy@ == self@,
    {
        self.duplicate_value()
    }
}

/// A tuned delay stays within its bounds.
pub proof fn tuned_delay_stays_in_bounds(
    base_delay: Span,
    config: AdaptiveHedgingView,
    delay: DelayView,
    elapsed: Span,
)
    requires
        config.valid(),
        delay.config == Some(config),
    ensures
        config.min_delay.nanos <= DelayView::fresh(base_delay, Some(config)).current.nanos
            <= config.max_delay.nanos,
        config.min_delay.nanos <= delay.observe(elapsed).current.nanos <= config.max_delay.nanos,
        delay.observe(elapsed).samples.len() <= config.sample_window,
{
}

/// A runtime's configuration with its parts as views.
#[verifier::ext_equal]
pub struct RuntimeConfigView {
    pub replica_id: ReplicaId,
    pub lane_id: LaneId,
    pub cluster: ClusterView,
    pub replica: ReplicaConfig,
    pub epoch_size: u64,
    pub base_hedge_delay: Span,
    pub transport_timeout: Span,
    pub auto_schedules: bool,
    pub adaptive_hedging: Option<AdaptiveHedgingView>,
}

impl RuntimeConfigView {
    /// The epoch of a slot.
    pub open spec fn epoch_of(self, slot: SlotIndex) -> u64 {
        (slot.0 as int / self.epoch_size as int) as u64
    }

    /// What is persisted of the schedule configuration.
    pub open spec fn identity(self) -> ProtocolIdentity {
        ProtocolIdentity { epoch_size: self.epoch_size, auto_schedules: self.auto_schedules }
    }
}

/// Whether a runtime's limits leave room for anything.
pub open spec fn limits_are_positive(replica: ReplicaConfig, epoch_size: u64) -> bool {
    &&& epoch_size > 0
    &&& replica.batch_size > 0
    &&& replica.pipeline_len > 0
    &&& replica.max_pending_values > 0
    &&& replica.max_log_slots > 0
    &&& replica.max_tracked_value_ids > 0
}

/// Static configuration for one local runtime instance.
#[derive(Debug)]
pub struct ReplicaRuntimeConfig {
    replica_id: ReplicaId,
    lane_id: LaneId,
    cluster: ClusterIdentity,
    pub replica: ReplicaConfig,
    pub epoch_size: u64,
    pub base_hedge_delay: Span,
    /// Transport bound for synchronous decision notifications and status
    /// probes. Consensus proposals use `ProposerConfig::rpc_timeout`.
    pub transport_timeout: Span,
    auto_schedules: bool,
    adaptive_hedging: Option<AdaptiveHedgingConfig>,
}

impl View for ReplicaRuntimeConfig {
    type V = RuntimeConfigView;

    closed spec fn view(&self) -> RuntimeConfigView {
        RuntimeConfigView {
            replica_id: self.replica_id,
            lane_id: self.lane_id,
            cluster: self.cluster@,
            replica: self.replica,
            epoch_size: self.epoch_size,
            base_hedge_delay: self.base_hedge_delay,
            transport_timeout: self.transport_timeout,
            auto_schedules: self.auto_schedules,
            adaptive_hedging: types::option_view(self.adaptive_hedging),
        }
    }
}

impl ReplicaRuntimeConfig {
    pub fn new(
        replica_id: ReplicaId,
        lane_id: LaneId,
        members: Vec<ReplicaId>,
        max_faults: usize,
        replica: ReplicaConfig,
        epoch_size: u64,
        base_hedge_delay: Span,
    ) -> (config: Result<Self>)
        ensures
            error::outcome(config) == match cluster::stable_cluster(0, members@, max_faults) {
                Err(refusal) => Err(refusal),
                Ok(cluster) => if !cluster.members.contains(replica_id) {
                    Err(ErrorView::UnknownReplica(replica_id))
                } else if !limits_are_positive(replica, epoch_size) {
                    Err(
                        ErrorView::InvalidProposal(
                            "runtime limits and epoch size must be non-zero"@,
                        ),
                    )
                } else {
                    Ok(
                        RuntimeConfigView {
                            replica_id,
                            lane_id,
                            cluster,
                            replica,
                            epoch_size,
                            base_hedge_delay,
                            transport_timeout: Span { nanos: 30_000_000_000 },
                            auto_schedules: false,
                            adaptive_hedging: None,
                        },
                    )
                },
            },
    {
        let cluster: ClusterIdentity = match ClusterIdentity::new(members, max_faults) {
            Ok(cluster) => cluster,
            Err(refusal) => return Err(refusal),
        };
        if !cluster.contains(replica_id) {
            return Err(QuePaxaError::UnknownReplica(replica_id));
        }
        if epoch_size == 0 || replica.batch_size == 0 || replica.pipeline_len == 0
            || replica.max_pending_values == 0 || replica.max_log_slots == 0
            || replica.max_tracked_value_ids == 0 {
            return Err(
                QuePaxaError::InvalidProposal(
                    "runtime limits and epoch size must be non-zero".to_owned(),
                ),
            );
        }
        Ok(
            ReplicaRuntimeConfig {
                replica_id,
                lane_id,
                cluster,
                replica,
                epoch_size,
                base_hedge_delay,
                transport_timeout: Span::from_secs(30),
                auto_schedules: false,
                adaptive_hedging: None,
            },
        )
    }

    /// Derives every epoch schedule deterministically from the committed log
    /// instead of requiring an external control plane to agree on schedules.
    ///
    /// The first `2n + 1` epochs rotate the leader round-robin (exploration);
    /// later epochs rank replicas by the average decided step of the slots
    /// each one led (exploitation), as a multi-armed bandit does. Because the
    /// inputs are committed decisions, every replica derives the identical
    /// schedule, which removes the split-brain risk of divergent manual
    /// installs. All replicas must enable the same mode.
    pub fn with_auto_schedules(self) -> (config: Result<Self>)
        ensures
            error::outcome(config) == if self@.epoch_size < self@.replica.pipeline_len {
                Err(
                    ErrorView::PolicyError(
                        "auto schedules require epoch_size >= pipeline_len so ranking inputs are final"@,
                    ),
                )
            } else {
                Ok(RuntimeConfigView { auto_schedules: true, ..self@ })
            },
    {
        if self.epoch_size < self.replica.pipeline_len as u64 {
            return Err(
                QuePaxaError::PolicyError(
                    "auto schedules require epoch_size >= pipeline_len so ranking inputs are final".to_owned(),
                ),
            );
        }
        let mut config = self;
        config.auto_schedules = true;
        Ok(config)
    }

    pub fn auto_schedules(&self) -> (auto: bool)
        ensures
            auto == self@.auto_schedules,
    {
        self.auto_schedules
    }

    /// Bounds the wait for auxiliary calls, by a millisecond at least.
    pub fn with_transport_timeout(self, timeout: Span) -> (config: Self)
        ensures
            config@ == (RuntimeConfigView {
                transport_timeout: Span {
                    nanos: if timeout.nanos < 1_000_000 {
                        1_000_000
                    } else {
                        timeout.nanos
                    },
                },
                ..self@
            }),
    {
        let mut config = self;
        config.transport_timeout = timeout.longer(Span::from_millis(1));
        config
    }

    /// Tunes the local hedging delay from observed consensus completion time.
    /// This may differ between replicas without affecting safety; the leader
    /// sequence remains agreed separately.
    pub fn with_adaptive_hedging(self, adaptive: AdaptiveHedgingConfig) -> (config: Self)
        ensures
            config@ == (RuntimeConfigView { adaptive_hedging: Some(adaptive@), ..self@ }),
    {
        let mut config = self;
        config.adaptive_hedging = Some(adaptive);
        config
    }

    pub fn adaptive_hedging(&self) -> (adaptive: Option<AdaptiveHedgingConfig>)
        ensures
            types::option_view(adaptive) == self@.adaptive_hedging,
    {
        self.adaptive_hedging
    }

    pub fn replica_id(&self) -> (id: ReplicaId)
        ensures
            id == self@.replica_id,
    {
        self.replica_id
    }

    pub fn lane_id(&self) -> (id: LaneId)
        ensures
            id == self@.lane_id,
    {
        self.lane_id
    }

    /// The bounds of the replica pipeline.
    pub fn replica_config(&self) -> (replica: ReplicaConfig)
        ensures
            replica == self@.replica,
    {
        self.replica
    }

    /// How many slots an epoch has.
    pub fn slots_per_epoch(&self) -> (epoch_size: u64)
        ensures
            epoch_size == self@.epoch_size,
    {
        self.epoch_size
    }

    /// The hedging delay to start with.
    pub fn hedge_delay(&self) -> (delay: Span)
        ensures
            delay == self@.base_hedge_delay,
    {
        self.base_hedge_delay
    }

    pub fn members(&self) -> (members: &[ReplicaId])
        ensures
            members@ == self@.cluster.members,
            self@.cluster.valid(),
    {
        self.cluster.members()
    }

    pub fn max_faults(&self) -> (faults: usize)
        ensures
            faults == self@.cluster.max_faults,
    {
        self.cluster.max_faults()
    }

    /// The `n - f` quorum of the deployment.
    pub fn quorum_size(&self) -> (size: usize)
        ensures
            size == self@.cluster.quorum_size(),
    {
        self.cluster.quorum_size()
    }

    pub fn cluster_identity(&self) -> (cluster: &ClusterIdentity)
        ensures
            cluster@ == self@.cluster,
    {
        &self.cluster
    }

    /// Goes on under another membership.
    pub fn install_cluster(&mut self, cluster: ClusterIdentity)
        ensures
            final(self)@ == (RuntimeConfigView { cluster: cluster@, ..old(self)@ }),
    {
        self.cluster = cluster;
    }

    pub fn protocol_identity(&self) -> (identity: ProtocolIdentity)
        ensures
            identity == self@.identity(),
    {
        ProtocolIdentity { epoch_size: self.epoch_size, auto_schedules: self.auto_schedules }
    }

    pub fn epoch_for(&self, slot: SlotIndex) -> (epoch: u64)
        requires
            self@.epoch_size > 0,
        ensures
            epoch == self@.epoch_of(slot),
    {
        let epoch: u64 = slot.0 / self.epoch_size;
        proof {
            vstd::arithmetic::div_mod::lemma_div_nonincreasing(
                slot.0 as int,
                self.epoch_size as int,
            );
        }
        epoch
    }
}

impl Duplicate for ReplicaRuntimeConfig {
    fn duplicate_value(&self) -> (copy: Self) {
        ReplicaRuntimeConfig {
            replica_id: self.replica_id,
            lane_id: self.lane_id,
            cluster: self.cluster.duplicate_value(),
            replica: self.replica,
            epoch_size: self.epoch_size,
            base_hedge_delay: self.base_hedge_delay,
            transport_timeout: self.transport_timeout,
            auto_schedules: self.auto_schedules,
            adaptive_hedging: self.adaptive_hedging,
        }
    }
}

impl Clone for ReplicaRuntimeConfig {
    fn clone(&self) -> (copy: Self)
        ensures
            copy@ == self@,
    {
        self.duplicate_value()
    }
}

/// A schedule with its order as a sequence.
#[verifier::ext_equal]
pub struct ScheduleView {
    pub epoch: u64,
    pub proposers: Seq<ReplicaId>,
}

impl ScheduleView {
    /// A schedule, unless the list is no order of proposers.
    pub open spec fn of(epoch: u64, proposers: Seq<ReplicaId>) -> std::result::Result<
        Self,
        ErrorView,
    > {
        match ranking::order_error(proposers) {
            Some(refusal) => Err(refusal),
            None => Ok(ScheduleView { epoch, proposers }),
        }
    }

    /// The round-one leader.
    pub open spec fn leader(self) -> ReplicaId {
        self.proposers[0]
    }
}

/// An agreed proposer order for one epoch. The first member is the round-one
/// leader; later members hedge after increasing multiples of the base delay.
#[derive(Debug, PartialEq, Eq)]
pub struct EpochSchedule {
    pub epoch: u64,
    pub proposers: Vec<ReplicaId>,
}

impl View for EpochSchedule {
    type V = ScheduleView;

    open spec fn view(&self) -> ScheduleView {
        ScheduleView { epoch: self.epoch, proposers: self.proposers@ }
    }
}

impl Duplicate for EpochSchedule {
    fn duplicate_value(&self) -> (copy: Self) {
        EpochSchedule {
            epoch: self.epoch,
            proposers: duplicate_keys(self.proposers.as_slice()),
        }
    }
}

impl Clone for EpochSchedule {
    fn clone(&self) -> (copy: Self)
        ensures
            copy@ == self@,
    {
        self.duplicate_value()
    }
}

impl EpochSchedule {
    pub fn new(epoch: u64, proposers: Vec<ReplicaId>) -> (schedule: Result<Self>)
        ensures
            error::outcome(schedule) == ScheduleView::of(epoch, proposers@),
    {
        match validate_order(proposers.as_slice()) {
            Err(refusal) => Err(refusal),
            Ok(()) => Ok(EpochSchedule { epoch, proposers }),
        }
    }

    /// Produces a schedule proposal from a policy. Callers must distribute and
    /// agree on the resulting schedule before installing it at any runtime.
    pub fn from_policy<P: HedgingPolicy>(
        config: &ReplicaRuntimeConfig,
        epoch: u64,
        policy: &P,
        previous_winner: Option<ReplicaId>,
    ) -> (schedule: Result<Self>)
        ensures
            error::outcome(schedule) == if epoch * config@.epoch_size > u64::MAX {
                Err(ErrorView::SlotOverflow)
            } else {
                match policy.sequence(
                    SlotIndex((epoch * config@.epoch_size) as u64),
                    config@.cluster.members,
                    previous_winner,
                ) {
                    Err(refusal) => Err(refusal),
                    Ok(proposers) => ScheduleView::of(epoch, proposers),
                }
            },
    {
        let first: u64 = match epoch.checked_mul(config.epoch_size) {
            Some(first) => first,
            None => return Err(QuePaxaError::SlotOverflow),
        };
        match policy.leader_sequence(SlotIndex(first), config.members(), previous_winner) {
            Err(refusal) => Err(refusal),
            Ok(proposers) => Self::new(epoch, proposers),
        }
    }

    pub fn leader(&self) -> (leader: ReplicaId)
        requires
            self@.proposers.len() > 0,
        ensures
            leader == self@.leader(),
    {
        self.proposers[0]
    }

    /// Whether two schedules are the same.
    pub fn same_schedule(&self, other: &Self) -> (equal: bool)
        ensures
            equal == (self@ == other@),
    {
        self.epoch == other.epoch && same_list(
            self.proposers.as_slice(),
            other.proposers.as_slice(),
        )
    }
}

/// Performance of one epoch's scheduled leader, derived purely from committed
/// decisions so that every replica computes identical values.
#[derive(Debug, Clone, Copy, PartialEq, Eq, Structural)]
pub struct EpochStat {
    pub leader: ReplicaId,
    pub slots: u64,
    /// Sum of `decided_step` over the epoch's committed slots. A fast-path
    /// decision contributes 4; every extra round adds 4 more, so a lower
    /// average means a more effective leader.
    pub decided_step_total: u64,
}

impl View for EpochStat {
    type V = EpochStat;

    open spec fn view(&self) -> EpochStat {
        *self
    }
}

impl Duplicate for EpochStat {
    fn duplicate_value(&self) -> (copy: Self) {
        *self
    }
}

} // verus!
