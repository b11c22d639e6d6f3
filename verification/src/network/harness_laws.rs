//! Laws of the harness around a cluster: faults that come at their intervals,
//! links that carry until their limits, load that is counted, and proposers that
//! start over the network.

use crate::network::async_proposer::AsyncProposerView;
use crate::network::chaos;
use crate::network::chaos::{LinkAction, LinkView, RpcChaosProfile};
use crate::network::load;
use crate::network::load::{Completion, LoadView};
use crate::span;
use crate::types::{ReplicaId, SlotIndex};
use vstd::prelude::*;

verus! {

/// A fault with an interval strikes at the interval's multiples: one interval
/// behind a strike there is another, and none between them. Without an interval
/// it never strikes.
pub proof fn faults_strike_at_their_interval(interval: u64, count: u64, later: u64)
    requires
        interval > 0,
    ensures
        !chaos::strikes(None, count),
        chaos::strikes(Some(interval), interval),
        0 < count < interval ==> !chaos::strikes(Some(interval), count),
        chaos::strikes(Some(interval), count) && later == count + interval ==> chaos::strikes(
            Some(interval),
            later,
        ),
        chaos::strikes(Some(interval), count) && count < later < count + interval
            ==> !chaos::strikes(Some(interval), later),
{
    let n = interval as int;
    assert(n % n == 0) by (nonlinear_arith)
        requires
            n > 0,
    ;
    if 0 < count < interval {
        let c = count as int;
        assert(c % n == c) by (nonlinear_arith)
            requires
                0 < c < n,
        ;
    }
    if chaos::strikes(Some(interval), count) {
        let c = count as int;
        let l = later as int;
        let d = l - c;
        if later == count + interval {
            assert(l % n == 0) by (nonlinear_arith)
                requires
                    n > 0,
                    c % n == 0,
                    l == c + n,
            ;
        }
        if count < later < count + interval {
            assert(l % n == d) by (nonlinear_arith)
                requires
                    n > 0,
                    c % n == 0,
                    0 < d < n,
                    l == c + d,
            ;
        }
    }
}

/// A record call is dropped at the multiples of one interval, and reaches its
/// recorder twice at those of the other where it is not dropped.
pub proof fn calls_fail_as_planned(profile: RpcChaosProfile, sequence: u64)
    requires
        profile.valid(),
        profile.bounded(),
    ensures
        ({
            let plan = profile.plan(sequence);
            &&& plan.dropped <==> profile.drop_every is Some && sequence % profile.drop_every->0 == 0
            &&& plan.duplicated <==> !plan.dropped && profile.duplicate_every is Some && sequence
                % profile.duplicate_every->0 == 0
            &&& profile.base_delay.nanos <= plan.delay.nanos <= profile.base_delay.nanos
                + profile.jitter.nanos
        }),
{
    chaos::delays_are_bounded(profile, sequence);
}

/// A link forwards until as many bytes came as one of its limits says. Then it
/// falls silent where that limit is reached, and closes where only the other is.
/// What it forwards waits for the base delay and for as long as the bytes take,
/// and at most for the jitter longer.
pub proof fn links_carry_until_their_limits(link: LinkView, count: u64)
    requires
        link.profile.valid(),
        link.total + count <= u64::MAX,
        link.profile.base_delay.nanos + link.profile.jitter.nanos + u64::MAX <= span::MAX_NANOS,
    ensures
        ({
            let (next, action) = link.carry(count);
            let total = link.total + count;
            let silent = link.profile.blackhole_after_bytes matches Some(limit) && total >= limit;
            let closed = link.profile.reset_after_bytes matches Some(limit) && total >= limit;
            let base = link.profile.base_delay.nanos;
            let jitter = link.profile.jitter.nanos;
            &&& next.profile == link.profile
            &&& next.total == total
            &&& action is Blackhole <==> silent
            &&& action is Reset <==> closed && !silent
            &&& action matches LinkAction::Forward { delay } ==> match link.profile.bandwidth_bytes_per_second {
                None => base <= delay.nanos <= base + jitter,
                Some(rate) => {
                    &&& delay.nanos >= base
                    &&& (delay.nanos - base - jitter) * rate <= count * 1_000_000_000
                    &&& delay.nanos < base + u64::MAX ==> (delay.nanos - base + 1) * rate > count
                        * 1_000_000_000
                },
            }
        }),
{
    let (next, action) = link.carry(count);
    if let LinkAction::Forward { delay } = action {
        let base = link.profile.base_delay.nanos as int;
        let most = link.profile.jitter.nanos as int;
        let added = chaos::jittered(link.profile.jitter, next.random).nanos as int;
        assert(0 <= added <= most) by {
            assert(0 <= next.random as int % (most + 1) <= most);
        }
        match link.profile.bandwidth_bytes_per_second {
            None => {},
            Some(rate) => {
                let work = count * 1_000_000_000;
                let whole = work / rate as int;
                let taken = chaos::transmission(count, Some(rate)).nanos as int;
                let r = rate as int;
                assert(whole * r <= work && work < (whole + 1) * r && whole >= 0) by (nonlinear_arith)
                    requires
                        r > 0,
                        work >= 0,
                        whole == work / r,
                ;
                assert(delay.nanos == base + added + taken);
                let above = delay.nanos - base - most;
                assert(above * r <= work) by (nonlinear_arith)
                    requires
                        r > 0,
                        above <= whole,
                        whole * r <= work,
                ;
                if delay.nanos < base + u64::MAX {
                    let beyond = delay.nanos - base + 1;
                    assert(taken == whole);
                    assert(beyond * r > work) by (nonlinear_arith)
                        requires
                            r > 0,
                            beyond >= whole + 1,
                            work < (whole + 1) * r,
                    ;
                }
            },
        }
    }
}

/// A load run numbers its requests one by one. A request without a free place is
/// dropped and counted as dropped, any other is handed out.
pub proof fn requests_are_numbered(state: LoadView, has_room: bool)
    requires
        state.request_id < u64::MAX,
        state.offered < u64::MAX,
        state.dropped < u64::MAX,
    ensures
        ({
            let (next, offered) = state.offer(has_room);
            &&& next.request_id == state.request_id + 1
            &&& next.offered == state.offered + 1
            &&& next.config == state.config && next.random == state.random
            &&& next.latencies == state.latencies
            &&& next.committed == state.committed && next.accepted == state.accepted
            &&& next.duplicates == state.duplicates && next.errors == state.errors
            &&& if has_room {
                &&& next.dropped == state.dropped
                &&& offered matches Ok(Some(request)) && request.request_id == next.request_id
            } else {
                &&& next.dropped == state.dropped + 1
                &&& offered matches Ok(None)
            }
        }),
{
}

/// Every request that ends is counted once, under how it ended, and its latency
/// is kept.
pub proof fn endings_are_counted_once(state: LoadView, completion: Completion, micros: u64)
    requires
        load::is_ascending(state.latencies),
        state.committed < u64::MAX,
        state.accepted < u64::MAX,
        state.duplicates < u64::MAX,
        state.errors < u64::MAX,
    ensures
        ({
            let next = state.complete(completion, micros);
            &&& next.committed - state.committed == if completion is Committed {
                1int
            } else {
                0
            }
            &&& next.accepted - state.accepted == if completion is Accepted {
                1int
            } else {
                0
            }
            &&& next.duplicates - state.duplicates == if completion is Duplicate {
                1int
            } else {
                0
            }
            &&& next.errors - state.errors == if completion is Failed {
                1int
            } else {
                0
            }
            &&& next.offered == state.offered && next.dropped == state.dropped
            &&& next.request_id == state.request_id
            &&& next.latencies.contains(micros)
        }),
{
    broadcast use vstd::seq_lib::group_to_multiset_ensures;

    load::latencies_stay_ascending(state, completion, micros);
    let latencies = state.complete(completion, micros).latencies;
    assert(latencies.to_multiset().count(micros) > 0);
    assert(latencies.contains(micros));
}

/// The value at a percentile is one of the values. Those that stand no further
/// than so many percent of the way along are not above it, and those that stand
/// at least as far are not below it.
pub proof fn percentiles_stand_their_way_along(values: Seq<u64>, percent: nat, j: int)
    requires
        load::is_ascending(values),
        percent <= 100,
        0 <= j < values.len(),
    ensures
        values.contains(load::percentile_of(values, percent)),
        100 * j <= (values.len() - 1) * percent ==> values[j] <= load::percentile_of(
            values,
            percent,
        ),
        100 * j >= (values.len() - 1) * percent ==> values[j] >= load::percentile_of(
            values,
            percent,
        ),
{
    let way = (values.len() - 1) * percent;
    let at = way / 100;
    assert(0 <= way <= 100 * (values.len() - 1)) by (nonlinear_arith)
        requires
            way == (values.len() - 1) * percent,
            values.len() >= 1,
            percent <= 100,
    ;
    assert(0 <= at < values.len());
    assert(values[at] == load::percentile_of(values, percent));
}

/// How a networked proposer starts: with the cluster's members as its recorders,
/// each once, with the cluster's quorum, at the first step of the first round, in
/// its own name and with the values that it was given. It is refused exactly
/// where it is no member, its clients are not the members each once, the leader
/// is no member or there are no values.
pub proof fn networked_proposers_start_in_their_own_name<V>(
    proposer: AsyncProposerView,
    slot: SlotIndex,
    values: Seq<V>,
    leader: Option<ReplicaId>,
    ids: Seq<ReplicaId>,
)
    requires
        0 <= proposer.cluster.quorum_size() <= usize::MAX,
    ensures
        match proposer.begin(slot, values, leader, ids) {
            Ok(run) => {
                &&& run.slot == slot
                &&& run.step.0 == 4
                &&& run.sender == proposer.replica_id
                &&& run.leader == leader
                &&& run.recorders == ids
                &&& run.quorum == proposer.cluster.quorum_size()
                &&& run.max_steps == proposer.max_steps
                &&& run.known_decisions.len() == 0
                &&& run.proposal.value_ids == values && values.len() > 0
                &&& run.proposal.key.priority.0 == u64::MAX
                &&& run.proposal.key.proposer_id == proposer.replica_id
                &&& run.proposal.key.lane_id == proposer.lane_id
                &&& ids.no_duplicates()
                &&& ids.to_set() == proposer.cluster.members.to_set()
                &&& proposer.cluster.members.contains(proposer.replica_id)
                &&& leader matches Some(leader) ==> proposer.cluster.members.contains(leader)
            },
            Err(_) => {
                ||| !proposer.cluster.members.contains(proposer.replica_id)
                ||| !ids.no_duplicates()
                ||| ids.to_set() != proposer.cluster.members.to_set()
                ||| (leader matches Some(leader) && !proposer.cluster.members.contains(leader))
                ||| values.len() == 0
            },
        },
{
}

} // verus!
