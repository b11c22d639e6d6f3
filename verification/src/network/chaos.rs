//! Reproducible faults: what a shaped link or a faulty client does is a
//! function of its profile and of how often it was used.

use crate::error;
use crate::error::{ErrorView, QuePaxaError, Result};
use crate::proposer;
use crate::proposer::mix_seed;
use crate::span::Span;
use vstd::prelude::*;

verus! {

/// Deterministic WAN link shaping applied independently to both directions of
/// every proxied TCP connection. Whole-connection faults preserve TCP/TLS
/// stream semantics; byte duplication or byte reordering would only corrupt
/// TLS and therefore belong in [`RpcChaosProfile`] instead.
#[derive(Debug, Clone, Copy, PartialEq, Eq)]
pub struct WanLinkProfile {
    pub seed: u64,
    pub base_delay: Span,
    pub jitter: Span,
    pub bandwidth_bytes_per_second: Option<u64>,
    /// Deterministically reject every Nth connection. `None` disables it.
    pub fail_every: Option<u64>,
    /// Close a connection after forwarding this many bytes in one direction.
    pub reset_after_bytes: Option<u64>,
    /// Stop forwarding, without closing, after this many bytes. Useful for
    /// stalled-RPC and asymmetric-partition experiments.
    pub blackhole_after_bytes: Option<u64>,
}

impl WanLinkProfile {
    /// No rate and no interval is zero.
    pub open spec fn valid(self) -> bool {
        self.bandwidth_bytes_per_second != Some(0u64) && self.fail_every != Some(0u64)
            && self.reset_after_bytes != Some(0u64) && self.blackhole_after_bytes != Some(0u64)
    }

    pub fn validate(&self) -> (checked: Result<()>)
        ensures
            error::outcome(checked) == if self.valid() {
                Ok::<(), ErrorView>(())
            } else {
                Err(
                    ErrorView::InvalidProposal(
                        "WAN profile rates and fault intervals must be non-zero"@,
                    ),
                )
            },
    {
        if is_zero(self.bandwidth_bytes_per_second) || is_zero(self.fail_every) || is_zero(
            self.reset_after_bytes,
        ) || is_zero(self.blackhole_after_bytes) {
            return Err(
                QuePaxaError::InvalidProposal(
                    "WAN profile rates and fault intervals must be non-zero".to_owned(),
                ),
            );
        }
        Ok(())
    }

    /// Whether a connection is rejected.
    pub fn rejects(&self, connection: u64) -> (rejected: bool)
        requires
            self.valid(),
        ensures
            rejected == strikes(self.fail_every, connection),
    {
        is_struck(self.fail_every, connection)
    }

    /// The shaping of what goes from the client to the target.
    pub fn outbound(&self, connection: u64) -> (link: ShapedLink)
        ensures
            link@ == (LinkView {
                profile: *self,
                random: proposer::mixed(self.seed ^ connection ^ 0xa5a5_a5a5_a5a5_a5a5),
                total: 0,
            }),
    {
        ShapedLink {
            profile: *self,
            random: mix_seed(self.seed ^ connection ^ 0xa5a5_a5a5_a5a5_a5a5),
            total: 0,
        }
    }

    /// The shaping of what comes from the target to the client.
    pub fn inbound(&self, connection: u64) -> (link: ShapedLink)
        ensures
            link@ == (LinkView {
                profile: *self,
                random: proposer::mixed(self.seed ^ connection ^ 0x5a5a_5a5a_5a5a_5a5a),
                total: 0,
            }),
    {
        ShapedLink {
            profile: *self,
            random: mix_seed(self.seed ^ connection ^ 0x5a5a_5a5a_5a5a_5a5a),
            total: 0,
        }
    }
}

impl Default for WanLinkProfile {
    fn default() -> (profile: Self)
        ensures
            profile == (WanLinkProfile {
                seed: 1,
                base_delay: Span { nanos: 0 },
                jitter: Span { nanos: 0 },
                bandwidth_bytes_per_second: None,
                fail_every: None,
                reset_after_bytes: None,
                blackhole_after_bytes: None,
            }),
    {
        WanLinkProfile {
            seed: 1,
            base_delay: Span::zero(),
            jitter: Span::zero(),
            bandwidth_bytes_per_second: None,
            fail_every: None,
            reset_after_bytes: None,
            blackhole_after_bytes: None,
        }
    }
}

fn is_zero(setting: Option<u64>) -> (zero: bool)
    ensures
        zero == (setting == Some(0u64)),
{
    match setting {
        Some(value) => value == 0,
        None => false,
    }
}

/// Whether a fault that comes every so many times comes this time.
pub open spec fn strikes(interval: Option<u64>, count: u64) -> bool {
    match interval {
        Some(interval) => count % interval == 0,
        None => false,
    }
}

fn is_struck(interval: Option<u64>, count: u64) -> (struck: bool)
    requires
        interval != Some(0u64),
    ensures
        struck == strikes(interval, count),
{
    match interval {
        Some(interval) => count % interval == 0,
        None => false,
    }
}

/// So much of the largest jitter as a random number selects.
pub open spec fn jittered(most: Span, random: u64) -> Span {
    Span { nanos: (random as int % (most.nanos + 1)) as u128 }
}

/// So much of the largest jitter as a random number selects.
pub fn duration_mod(most: Span, random: u64) -> (jitter: Span)
    ensures
        jitter == jittered(most, random),
        jitter.nanos <= most.nanos,
        jitter.nanos <= random,
{
    if most.nanos == 0 {
        return Span::zero();
    }
    if most.nanos >= random as u128 {
        proof {
            vstd::arithmetic::div_mod::lemma_small_mod(random as nat, (most.nanos + 1) as nat);
        }
        return Span { nanos: random as u128 };
    }
    Span { nanos: random as u128 % (most.nanos + 1) }
}

/// One step of the generator, from a state that is made non-zero.
pub fn xorshift(value: u64) -> (next: u64)
    ensures
        next == proposer::xorshift(proposer::seeded(value)),
{
    let x: u64 = if value == 0 {
        1
    } else {
        value
    };
    let a: u64 = x ^ (x << 13);
    let b: u64 = a ^ (a >> 7);
    b ^ (b << 17)
}

/// One direction of a proxied connection.
#[derive(Debug, Clone, Copy)]
pub struct ShapedLink {
    profile: WanLinkProfile,
    random: u64,
    total: u64,
}

/// The state of one direction: the generator and the bytes so far.
pub struct LinkView {
    pub profile: WanLinkProfile,
    pub random: u64,
    pub total: u64,
}

impl View for ShapedLink {
    type V = LinkView;

    closed spec fn view(&self) -> LinkView {
        LinkView { profile: self.profile, random: self.random, total: self.total }
    }
}

/// What happens to the bytes that were just read.
#[derive(Debug, Clone, Copy, PartialEq, Eq)]
pub enum LinkAction {
    /// Nothing more is forwarded, and the connection stays open.
    Blackhole,
    /// The connection is closed.
    Reset,
    /// The bytes are forwarded after a delay.
    Forward { delay: Span },
}

/// How long so many bytes take at a rate.
pub open spec fn transmission(count: u64, rate: Option<u64>) -> Span {
    match rate {
        None => Span { nanos: 0 },
        Some(rate) => {
            let nanos = count * 1_000_000_000 / rate as int;
            Span {
                nanos: if nanos <= u64::MAX {
                    nanos as u128
                } else {
                    u64::MAX as u128
                },
            }
        },
    }
}

fn transmission_time(count: u64, rate: Option<u64>) -> (time: Span)
    requires
        rate != Some(0u64),
    ensures
        time == transmission(count, rate),
{
    match rate {
        None => Span::zero(),
        Some(rate) => {
            let work: u128 = count as u128 * 1_000_000_000;
            let nanos: u128 = work / rate as u128;
            if nanos <= u64::MAX as u128 {
                Span { nanos }
            } else {
                Span { nanos: u64::MAX as u128 }
            }
        },
    }
}

/// A limit has been reached.
pub open spec fn reached(limit: Option<u64>, total: u64) -> bool {
    match limit {
        Some(limit) => total >= limit,
        None => false,
    }
}

fn is_reached(limit: Option<u64>, total: u64) -> (at_limit: bool)
    ensures
        at_limit == reached(limit, total),
{
    match limit {
        Some(limit) => total >= limit,
        None => false,
    }
}

impl LinkView {
    /// What happens to the next bytes.
    pub open spec fn carry(self, count: u64) -> (Self, LinkAction) {
        let total = if self.total + count <= u64::MAX {
            (self.total + count) as u64
        } else {
            u64::MAX
        };
        let counted = LinkView { total, ..self };
        if reached(self.profile.blackhole_after_bytes, total) {
            (counted, LinkAction::Blackhole)
        } else if reached(self.profile.reset_after_bytes, total) {
            (counted, LinkAction::Reset)
        } else {
            let random = proposer::xorshift(proposer::seeded(self.random));
            let delay = self.profile.base_delay.plus(jittered(self.profile.jitter, random)).plus(
                transmission(count, self.profile.bandwidth_bytes_per_second),
            );
            (LinkView { random, ..counted }, LinkAction::Forward { delay })
        }
    }
}

impl ShapedLink {
    /// Decides on the bytes that were just read.
    pub fn carry(&mut self, count: u64) -> (action: LinkAction)
        requires
            old(self)@.profile.valid(),
        ensures
            (final(self)@, action) == old(self)@.carry(count),
    {
        self.total = self.total.saturating_add(count);
        if is_reached(self.profile.blackhole_after_bytes, self.total) {
            return LinkAction::Blackhole;
        }
        if is_reached(self.profile.reset_after_bytes, self.total) {
            return LinkAction::Reset;
        }
        self.random = xorshift(self.random);
        let jitter: Span = duration_mod(self.profile.jitter, self.random);
        let transmission: Span = transmission_time(count, self.profile.bandwidth_bytes_per_second);
        LinkAction::Forward {
            delay: self.profile.base_delay.saturating_plus(jitter).saturating_plus(transmission),
        }
    }
}

/// Counts of what a proxy did.
#[derive(Debug, Clone, Copy, PartialEq, Eq)]
pub struct WanProxyStats {
    pub accepted_connections: u64,
    pub failed_connections: u64,
    pub forwarded_bytes: u64,
}

/// What one link of a harness did.
#[derive(Debug, PartialEq, Eq)]
pub struct WanLinkReport {
    pub name: String,
    pub listen: String,
    pub target: String,
    pub seed: u64,
    pub stats: WanProxyStats,
}

/// What a harness did.
#[derive(Debug, PartialEq, Eq)]
pub struct WanHarnessReport {
    pub elapsed_millis: u64,
    pub links: Vec<WanLinkReport>,
}

/// Why the links of a harness cannot be told apart.
pub open spec fn names_error(names: Seq<String>) -> Option<ErrorView> {
    if names.len() == 0 {
        Some(ErrorView::InvalidProposal("WAN harness requires at least one link"@))
    } else if exists|i: int| 0 <= i < names.len() && (#[trigger] names[i])@.len() == 0 {
        Some(ErrorView::InvalidProposal("WAN harness link names must be non-empty and unique"@))
    } else if exists|i: int, j: int|
        0 <= i < j < names.len() && (#[trigger] names[i])@ == (#[trigger] names[j])@ {
        Some(ErrorView::InvalidProposal("WAN harness link names must be non-empty and unique"@))
    } else {
        None
    }
}

/// Checks that the links of a harness have names of their own.
pub fn validate_link_names(names: &[String]) -> (checked: Result<()>)
    ensures
        match checked {
            Ok(()) => names_error(names@) is None,
            Err(refusal) => names_error(names@) == Some(refusal@),
        },
{
    if names.len() == 0 {
        return Err(
            QuePaxaError::InvalidProposal("WAN harness requires at least one link".to_owned()),
        );
    }
    let empty: String = String::new();
    let mut i: usize = 0;
    while i < names.len()
        invariant
            i <= names@.len(),
            empty@ == Seq::<char>::empty(),
            names@.len() > 0,
            forall|k: int| 0 <= k < i ==> (#[trigger] names@[k])@.len() > 0,
            forall|k: int, m: int|
                0 <= k < m < i ==> (#[trigger] names@[k])@ != (#[trigger] names@[m])@,
        decreases names@.len() - i,
    {
        let mut repeated: bool = names[i] == empty;
        let mut j: usize = 0;
        proof {
            if names@[i as int]@.len() == 0 {
                assert(names@[i as int]@ =~= empty@);
            }
        }
        while j < i
            invariant
                j <= i < names@.len(),
                repeated == (names@[i as int]@.len() == 0 || exists|k: int|
                    0 <= k < j && (#[trigger] names@[k])@ == names@[i as int]@),
            decreases i - j,
        {
            if names[j] == names[i] {
                repeated = true;
            }
            j += 1;
        }
        if repeated {
            return Err(
                QuePaxaError::InvalidProposal(
                    "WAN harness link names must be non-empty and unique".to_owned(),
                ),
            );
        }
        i += 1;
    }
    Ok(())
}

/// Decoded-RPC chaos settings. Delay creates deterministic cross-connection
/// reordering, while duplication exercises recorder idempotence without
/// corrupting the encrypted TCP stream.
#[derive(Debug, Clone, Copy, PartialEq, Eq)]
pub struct RpcChaosProfile {
    pub seed: u64,
    pub base_delay: Span,
    pub jitter: Span,
    pub drop_every: Option<u64>,
    pub duplicate_every: Option<u64>,
}

impl Default for RpcChaosProfile {
    fn default() -> (profile: Self)
        ensures
            profile == (RpcChaosProfile {
                seed: 1,
                base_delay: Span { nanos: 0 },
                jitter: Span { nanos: 0 },
                drop_every: None,
                duplicate_every: None,
            }),
    {
        RpcChaosProfile {
            seed: 1,
            base_delay: Span::zero(),
            jitter: Span::zero(),
            drop_every: None,
            duplicate_every: None,
        }
    }
}

/// What happens to one call.
#[derive(Debug, Clone, Copy, PartialEq, Eq)]
pub struct CallPlan {
    pub delay: Span,
    /// The call never reaches the recorder.
    pub dropped: bool,
    /// The call reaches the recorder twice.
    pub duplicated: bool,
}

impl RpcChaosProfile {
    /// No interval is zero.
    pub open spec fn valid(self) -> bool {
        self.drop_every != Some(0u64) && self.duplicate_every != Some(0u64)
    }

    /// The longest delay is a span.
    pub open spec fn bounded(self) -> bool {
        self.base_delay.nanos + self.jitter.nanos <= crate::span::MAX_NANOS
    }

    /// How long the call with this number waits.
    pub open spec fn delay(self, sequence: u64) -> Span {
        Span {
            nanos: (self.base_delay.nanos + jittered(
                self.jitter,
                proposer::mixed(self.seed ^ sequence),
            ).nanos) as u128,
        }
    }

    /// What happens to the record call with this number.
    pub open spec fn plan(self, sequence: u64) -> CallPlan {
        CallPlan {
            delay: self.delay(sequence),
            dropped: strikes(self.drop_every, sequence),
            duplicated: !strikes(self.drop_every, sequence) && strikes(
                self.duplicate_every,
                sequence,
            ),
        }
    }
}

/// Reproducible decoded-RPC fault layer. Wrapping an authenticated client keeps
/// authentication and encryption intact while adding faults that TCP itself
/// intentionally masks.
#[derive(Debug)]
pub struct ChaosRecorderClient<C> {
    inner: C,
    profile: RpcChaosProfile,
    sequence: u64,
}

impl<C> ChaosRecorderClient<C> {
    /// The settings.
    pub closed spec fn settings(&self) -> RpcChaosProfile {
        self.profile
    }

    /// The number of the next call.
    pub closed spec fn upcoming(&self) -> u64 {
        self.sequence
    }

    /// The client behind the faults.
    pub closed spec fn behind(&self) -> C {
        self.inner
    }

    pub fn new(inner: C, profile: RpcChaosProfile) -> (client: Result<Self>)
        ensures
            match client {
                Ok(client) => {
                    &&& profile.valid()
                    &&& client.settings() == profile
                    &&& client.upcoming() == 1
                    &&& client.behind() == inner
                },
                Err(refusal) => {
                    &&& !profile.valid()
                    &&& refusal@ == ErrorView::InvalidProposal(
                        "RPC chaos intervals must be non-zero"@,
                    )
                },
            },
    {
        if is_zero(profile.drop_every) || is_zero(profile.duplicate_every) {
            return Err(
                QuePaxaError::InvalidProposal("RPC chaos intervals must be non-zero".to_owned()),
            );
        }
        Ok(ChaosRecorderClient { inner, profile, sequence: 1 })
    }

    /// The client behind the faults.
    pub fn inner(&self) -> (inner: &C)
        ensures
            *inner == self.behind(),
    {
        &self.inner
    }

    /// Numbers a call and tells how long it waits.
    pub fn next(&mut self) -> (call: (u64, Span))
        requires
            old(self).settings().bounded(),
        ensures
            call.0 == old(self).upcoming(),
            call.1 == old(self).settings().delay(call.0),
            final(self).settings() == old(self).settings(),
            final(self).behind() == old(self).behind(),
            final(self).upcoming() == old(self).upcoming().wrapping_add(1),
    {
        let sequence: u64 = self.sequence;
        self.sequence = sequence.wrapping_add(1);
        let jitter: Span = duration_mod(self.profile.jitter, mix_seed(self.profile.seed ^ sequence));
        (sequence, Span { nanos: self.profile.base_delay.nanos + jitter.nanos })
    }

    /// Numbers a record call and tells what happens to it.
    pub fn plan_record(&mut self) -> (plan: CallPlan)
        requires
            old(self).settings().valid(),
            old(self).settings().bounded(),
        ensures
            plan == old(self).settings().plan(old(self).upcoming()),
            final(self).settings() == old(self).settings(),
            final(self).behind() == old(self).behind(),
            final(self).upcoming() == old(self).upcoming().wrapping_add(1),
    {
        let (sequence, delay) = self.next();
        let dropped: bool = is_struck(self.profile.drop_every, sequence);
        let duplicated: bool = !dropped && is_struck(self.profile.duplicate_every, sequence);
        CallPlan { delay, dropped, duplicated }
    }
}

/// The refusal of a dropped call.
pub fn dropped_call() -> (refusal: QuePaxaError)
    ensures
        refusal@ == ErrorView::TransportError("RPC dropped by reproducible chaos profile"@),
{
    QuePaxaError::TransportError("RPC dropped by reproducible chaos profile".to_owned())
}

/// A delay never exceeds the base delay and the jitter together.
pub proof fn delays_are_bounded(profile: RpcChaosProfile, sequence: u64)
    requires
        profile.bounded(),
    ensures
        profile.base_delay.nanos <= profile.delay(sequence).nanos <= profile.base_delay.nanos
            + profile.jitter.nanos,
{
    let random = proposer::mixed(profile.seed ^ sequence);
    assert(0 <= random as int % (profile.jitter.nanos + 1) <= profile.jitter.nanos);
}

} // verus!
