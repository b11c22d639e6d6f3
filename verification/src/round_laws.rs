//! Laws of a round: what a proposer asks of the recorders, and what it makes of
//! a quorum of their replies.

use crate::agreement;
use crate::cluster::RecordReplyView;
use crate::proposer;
use crate::proposer::{ProposerView, RoundEnd, RunView};
use crate::types;
use crate::types::{
    DecisionView, Priority, ProposalKey, ProposalView, ReplicaId, SlotIndex, Step,
};
use vstd::prelude::*;

verus! {

/// Whether a key wins against another or equals it: by the higher priority, then
/// by the higher proposer, then by the higher lane.
pub open spec fn holds_against(a: ProposalKey, b: ProposalKey) -> bool {
    ||| a.priority.0 > b.priority.0
    ||| a.priority == b.priority && a.proposer_id.0 > b.proposer_id.0
    ||| a.priority == b.priority && a.proposer_id == b.proposer_id && a.lane_id.0 >= b.lane_id.0
}

/// Whether a proposal is the best of the first proposals that replies report.
pub open spec fn is_best_first<V>(
    replies: Seq<RecordReplyView<V>>,
    proposal: ProposalView<V>,
) -> bool {
    &&& exists|i: int|
        0 <= i < replies.len() && (#[trigger] replies[i]).summary.first == Some(proposal)
    &&& forall|i: int|
        0 <= i < replies.len() ==> ((#[trigger] replies[i]).summary.first matches Some(first)
            ==> holds_against(proposal.key, first.key))
}

/// Whether a proposal is the best that replies report of the step before.
pub open spec fn is_best_prior<V>(
    replies: Seq<RecordReplyView<V>>,
    proposal: ProposalView<V>,
) -> bool {
    &&& exists|i: int|
        0 <= i < replies.len() && (#[trigger] replies[i]).summary.prior_aggregate == Some(proposal)
    &&& forall|i: int|
        0 <= i < replies.len() ==> (
        (#[trigger] replies[i]).summary.prior_aggregate matches Some(prior) ==> holds_against(
            proposal.key,
            prior.key,
        ))
}

/// Whether every reply reports the leader's own proposal first.
pub open spec fn all_have_the_leaders<V>(
    run: RunView<V>,
    replies: Seq<RecordReplyView<V>>,
) -> bool {
    forall|i: int, j: int|
        #![trigger replies[i], replies[j]]
        0 <= i < replies.len() && 0 <= j < replies.len() ==> {
            &&& replies[i].summary.first matches Some(first) && first.key.priority.0 == u64::MAX
                && run.leader == Some(first.key.proposer_id)
            &&& replies[j].summary.first matches Some(other) && other.key
                == replies[i].summary.first->0.key
        }
}

/// Whether no reply reports a decision.
pub open spec fn nothing_reported<V>(replies: Seq<RecordReplyView<V>>) -> bool {
    forall|i: int| 0 <= i < replies.len() ==> (#[trigger] replies[i]).decision is None
}

/// Whether every reply is of a step.
pub open spec fn all_at<V>(replies: Seq<RecordReplyView<V>>, step: u64) -> bool {
    forall|i: int| 0 <= i < replies.len() ==> (#[trigger] replies[i]).summary.step.0 == step
}

/// Whether all replies behind one are of lower steps.
pub open spec fn all_below<V>(replies: Seq<RecordReplyView<V>>, i: int, step: u64) -> bool {
    forall|j: int| i < j < replies.len() ==> (#[trigger] replies[j]).summary.step.0 < step
}

proof fn lemma_first_reported<V>(replies: Seq<RecordReplyView<V>>)
    ensures
        match proposer::reported_decision(replies) {
            Some(decision) => exists|i: int|
                0 <= i < replies.len() && (#[trigger] replies[i]).decision == Some(decision)
                    && nothing_reported(replies.take(i)),
            None => nothing_reported(replies),
        },
    decreases replies.len(),
{
    if replies.len() > 0 {
        let rest = replies.drop_last();
        lemma_first_reported(rest);
        assert(replies[replies.len() - 1] == replies.last());
        match proposer::reported_decision(rest) {
            Some(decision) => {
                let i = choose|i: int|
                    0 <= i < rest.len() && (#[trigger] rest[i]).decision == Some(decision)
                        && nothing_reported(rest.take(i));
                assert(replies[i] == rest[i]);
                assert(replies.take(i) =~= rest.take(i));
            },
            None => {
                assert forall|i: int| 0 <= i < rest.len() implies (
                #[trigger] replies[i]).decision is None by {
                    assert(rest[i] == replies[i]);
                }
                assert(replies.take(replies.len() - 1) =~= rest);
            },
        }
    }
}

proof fn lemma_furthest<V>(replies: Seq<RecordReplyView<V>>)
    requires
        replies.len() > 0,
    ensures
        proposer::furthest_reply(replies) matches Some(reply) && {
            &&& exists|i: int|
                0 <= i < replies.len() && #[trigger] replies[i] == reply && all_below(
                    replies,
                    i,
                    reply.summary.step.0,
                )
            &&& forall|i: int|
                0 <= i < replies.len() ==> (#[trigger] replies[i]).summary.step.0
                    <= reply.summary.step.0
        },
    decreases replies.len(),
{
    let rest = replies.drop_last();
    assert(replies[replies.len() - 1] == replies.last());
    if rest.len() > 0 {
        lemma_furthest(rest);
        let reply = proposer::furthest_reply(rest)->0;
        let k = choose|k: int|
            0 <= k < rest.len() && #[trigger] rest[k] == reply && all_below(
                rest,
                k,
                reply.summary.step.0,
            );
        assert(replies[k] == reply);
        if reply.summary.step.0 > replies.last().summary.step.0 {
            assert forall|j: int| k < j < replies.len() implies (
            #[trigger] replies[j]).summary.step.0 < reply.summary.step.0 by {
                if j < rest.len() {
                    assert(rest[j] == replies[j]);
                }
            }
            assert(all_below(replies, k, reply.summary.step.0));
        } else {
            assert(all_below(replies, replies.len() - 1, replies.last().summary.step.0));
        }
        assert forall|i: int| 0 <= i < replies.len() implies (
        #[trigger] replies[i]).summary.step.0 <= proposer::furthest_reply(
            replies,
        )->0.summary.step.0 by {
            if i < rest.len() {
                assert(rest[i] == replies[i]);
            }
        }
    } else {
        assert(all_below(replies, 0, replies.last().summary.step.0));
    }
}

proof fn lemma_fast_path<V>(run: RunView<V>, replies: Seq<RecordReplyView<V>>)
    requires
        replies.len() > 0,
    ensures
        proposer::fast_path(run.step, replies, run.leader) is Some <==> run.step.0 == 4
            && all_have_the_leaders(run, replies),
        proposer::fast_path(run.step, replies, run.leader) is Some ==> proposer::fast_path(
            run.step,
            replies,
            run.leader,
        ) == replies[0].summary.first,
{
    if run.step.0 == 4 && all_have_the_leaders(run, replies) {
        assert(replies[0].summary.first is Some);
        let winner = replies[0].summary.first->0;
        assert forall|i: int| 0 <= i < replies.len() implies match (
        #[trigger] replies[i]).summary.first {
            Some(proposal) => proposal.key == winner.key,
            None => false,
        } by {
            assert(replies[0] == replies[0]);
        }
        assert(proposer::unanimous(replies, winner.key));
    }
    if proposer::fast_path(run.step, replies, run.leader) is Some {
        let winner = replies[0].summary.first->0;
        assert(proposer::unanimous(replies, winner.key));
        assert forall|i: int, j: int|
            #![trigger replies[i], replies[j]]
            0 <= i < replies.len() && 0 <= j < replies.len() implies {
            &&& replies[i].summary.first matches Some(first) && first.key.priority.0 == u64::MAX
                && run.leader == Some(first.key.proposer_id)
            &&& replies[j].summary.first matches Some(other) && other.key
                == replies[i].summary.first->0.key
        } by {}
    }
}

/// How a round ends. A decision that a reply reports is adopted, the first one.
/// Otherwise, once all replies are of the proposer's step: the leader's proposal
/// is decided in the first step if all recorded it first, and else the best first
/// proposal is carried on; the second step carries the proposal on; the third
/// decides it if nothing that was recorded the step before beats it; and the last
/// carries on the best that was recorded the step before. A proposer that is
/// behind goes on with what the furthest recorder had first.
pub proof fn rounds_end_by_their_replies<V>(run: RunView<V>, replies: Seq<RecordReplyView<V>>)
    requires
        replies.len() > 0,
    ensures
        ({
            let (step, phase) = (run.step.0, run.step.0 % 4);
            let (quiet, together) = (nothing_reported(replies), all_at(replies, run.step.0));
            match run.conclude(replies) {
                RoundEnd::Decided(decision) => {
                    &&& decision.slot == run.slot
                    &&& decision.value_ids.len() > 0
                    &&& !quiet ==> exists|i: int|
                        0 <= i < replies.len() && (#[trigger] replies[i]).decision == Some(decision)
                            && nothing_reported(replies.take(i))
                    &&& quiet ==> {
                        &&& together
                        &&& decision.decided_step == run.step
                        &&& if phase == 0 {
                            &&& step == 4
                            &&& all_have_the_leaders(run, replies)
                            &&& run.leader == Some(decision.proposer)
                            &&& replies[0].summary.first matches Some(first) && first.value_ids
                                == decision.value_ids
                        } else {
                            &&& phase == 2
                            &&& decision.proposer == run.proposal.key.proposer_id
                            &&& decision.value_ids == run.proposal.value_ids
                            &&& is_best_prior(replies, run.proposal)
                        }
                    }
                },
                RoundEnd::Continue(next, proposal) => {
                    &&& quiet
                    &&& together ==> {
                        &&& next.0 == step + 1
                        &&& phase == 0 ==> is_best_first(replies, proposal) && !(step == 4
                            && all_have_the_leaders(run, replies))
                        &&& phase == 1 ==> proposal == run.proposal
                        &&& phase == 2 ==> proposal == run.proposal
                        &&& phase == 3 ==> is_best_prior(replies, proposal) || (proposal
                            == run.proposal && forall|i: int|
                            0 <= i < replies.len() ==> (
                            #[trigger] replies[i]).summary.prior_aggregate is None)
                    }
                    &&& !together ==> {
                        ||| next.0 > step && (forall|i: int|
                            0 <= i < replies.len() ==> (#[trigger] replies[i]).summary.step.0
                                <= next.0) && (exists|i: int|
                            0 <= i < replies.len() && (#[trigger] replies[i]).summary.step == next
                                && replies[i].summary.first == Some(proposal) && all_below(
                                replies,
                                i,
                                next.0,
                            ))
                        ||| next == run.step && proposal == run.proposal && (forall|i: int|
                            0 <= i < replies.len() ==> (#[trigger] replies[i]).summary.step.0
                                <= step)
                    }
                },
                RoundEnd::Refused(_) => {
                    ||| exists|i: int|
                        0 <= i < replies.len() && nothing_reported(replies.take(i)) && (
                        (#[trigger] replies[i]).decision matches Some(decision) && (decision.slot
                            != run.slot || decision.value_ids.len() == 0))
                    ||| quiet && together && step == u64::MAX
                    ||| quiet && together && phase == 0 && forall|i: int|
                        0 <= i < replies.len() ==> (#[trigger] replies[i]).summary.first is None
                    ||| quiet && together && phase == 0 && (replies[0].summary.first matches Some(first)
                        && first.value_ids.len() == 0)
                    ||| quiet && together && phase == 2 && run.proposal.value_ids.len() == 0
                    ||| quiet && !together && exists|i: int|
                        0 <= i < replies.len() && (#[trigger] replies[i]).summary.step.0 > step
                            && replies[i].summary.first is None
                },
            }
        }),
{
    lemma_first_reported(replies);
    lemma_furthest(replies);
    lemma_fast_path(run, replies);
    agreement::lemma_best_reported_first(replies);
    agreement::lemma_best_reported_prior(replies);
    assert(run.in_step(replies) == all_at(replies, run.step.0)) by {
        if all_at(replies, run.step.0) {
            assert forall|i: int| 0 <= i < replies.len() implies (
            #[trigger] replies[i]).summary.step == run.step by {}
        }
    }
    assert forall|a: ProposalKey, b: ProposalKey| #[trigger] holds_against(
        a,
        b,
    ) == !a.below(b) by {}
    if let Some(best) = types::best_of(proposer::reported_firsts(replies)) {
        assert(is_best_first(replies, best)) by {
            assert forall|i: int| 0 <= i < replies.len() implies (
            (#[trigger] replies[i]).summary.first matches Some(first) ==> holds_against(
                best.key,
                first.key,
            )) by {}
        }
    }
    if let Some(best) = types::best_of(proposer::reported_priors(replies)) {
        assert(is_best_prior(replies, best)) by {
            assert forall|i: int| 0 <= i < replies.len() implies (
            (#[trigger] replies[i]).summary.prior_aggregate matches Some(prior) ==> holds_against(
                best.key,
                prior.key,
            )) by {}
        }
    }
    if !nothing_reported(replies) {
        assert(proposer::reported_decision(replies) is Some);
        let decision = proposer::reported_decision(replies)->0;
        let i = choose|i: int|
            0 <= i < replies.len() && (#[trigger] replies[i]).decision == Some(decision)
                && nothing_reported(replies.take(i));
        assert(replies[i].decision == Some(decision));
    } else {
        assert(proposer::reported_decision(replies) is None) by {
            if let Some(decision) = proposer::reported_decision(replies) {
                let i = choose|i: int|
                    0 <= i < replies.len() && (#[trigger] replies[i]).decision == Some(decision)
                        && nothing_reported(replies.take(i));
                assert(replies[i].decision is None);
            }
        }
        if !all_at(replies, run.step.0) {
            let ahead = proposer::furthest_reply(replies)->0;
            let k = choose|k: int|
                0 <= k < replies.len() && #[trigger] replies[k] == ahead && all_below(
                    replies,
                    k,
                    ahead.summary.step.0,
                );
            assert(replies[k].summary.step == ahead.summary.step);
        }
    }
}

/// A proposal that nothing recorded the step before beats is decided in the third
/// step of a round, and goes on otherwise: with unambiguous keys there is no other
/// way out for replies of that step.
pub proof fn unbeaten_proposals_are_decided<V>(run: RunView<V>, replies: Seq<RecordReplyView<V>>)
    requires
        replies.len() > 0,
        nothing_reported(replies),
        all_at(replies, run.step.0),
        run.step.0 % 4 == 2,
        run.proposal.value_ids.len() > 0,
        is_best_prior(replies, run.proposal),
        forall|i: int|
            0 <= i < replies.len() ==> (
            (#[trigger] replies[i]).summary.prior_aggregate matches Some(prior) ==> (prior.key
                == run.proposal.key ==> prior == run.proposal)),
    ensures
        run.conclude(replies) == RoundEnd::Decided(
            DecisionView {
                slot: run.slot,
                value_ids: run.proposal.value_ids,
                proposer: run.proposal.key.proposer_id,
                decided_step: run.step,
            },
        ),
{
    rounds_end_by_their_replies(run, replies);
    lemma_first_reported(replies);
    agreement::lemma_best_reported_prior(replies);
    assert(run.in_step(replies)) by {
        assert forall|i: int| 0 <= i < replies.len() implies (#[trigger] replies[i]).summary.step
            == run.step by {}
    }
    if let Some(decision) = proposer::reported_decision(replies) {
        let i = choose|i: int|
            0 <= i < replies.len() && (#[trigger] replies[i]).decision == Some(decision)
                && nothing_reported(replies.take(i));
        assert(replies[i].decision is None);
    }
    let k = choose|k: int|
        0 <= k < replies.len() && (#[trigger] replies[k]).summary.prior_aggregate == Some(
            run.proposal,
        );
    assert(replies[k].summary.prior_aggregate is Some);
    let best = types::best_of(proposer::reported_priors(replies))->0;
    let i = choose|i: int|
        0 <= i < replies.len() && (#[trigger] replies[i]).summary.prior_aggregate == Some(best);
    assert(holds_against(run.proposal.key, best.key));
    assert(!best.key.below(run.proposal.key));
    assert(best.key == run.proposal.key);
}

/// What a proposer asks: its proposal for the slot at its step, in its own name,
/// with the agreed leader. Only in a round's first step does a request draw a
/// priority of its own, and the leader of the first round never does.
pub proof fn requests_carry_the_proposal<V>(run: RunView<V>, drawn: Priority)
    ensures
        ({
            let request = run.request(drawn);
            let draws = run.step.0 % 4 == 0 && !(run.step.0 <= 4 && run.leader == Some(run.sender));
            &&& request.sender == run.sender
            &&& request.slot == run.slot
            &&& request.step == run.step
            &&& request.round_one_leader == run.leader
            &&& request.known_decisions == run.known_decisions
            &&& request.proposal.value_ids == run.proposal.value_ids
            &&& request.proposal.key.proposer_id == run.proposal.key.proposer_id
            &&& request.proposal.key.lane_id == run.proposal.key.lane_id
            &&& request.proposal.key.priority == if draws {
                drawn
            } else {
                run.proposal.key.priority
            }
        }),
{
}

/// How a proposer starts: at the first step of the first round, with the values
/// that it was called with, under the reserved priority in its own name. Without
/// a membership it never goes by less than a majority of its recorders; with one,
/// its recorders are the members. It is refused exactly where its recorders are
/// none, repeat one, lack it or the leader or a known decision's proposer, do not
/// fit the membership or the quorum, or where there are no values.
pub proof fn proposers_start_in_their_own_name<V>(
    proposer: ProposerView,
    slot: SlotIndex,
    values: Seq<V>,
    leader: Option<ReplicaId>,
    ids: Seq<ReplicaId>,
    known: Seq<DecisionView<V>>,
)
    requires
        ids.len() <= usize::MAX,
    ensures
        match proposer::first_round(proposer, slot, values, leader, ids, known) {
            Ok(run) => {
                &&& run.slot == slot
                &&& run.step.0 == 4
                &&& run.sender == proposer.replica_id
                &&& run.leader == leader
                &&& run.recorders == ids
                &&& run.max_steps == proposer.max_steps
                &&& run.known_decisions == known
                &&& run.proposal.value_ids == values && values.len() > 0
                &&& run.proposal.key.priority.0 == u64::MAX
                &&& run.proposal.key.proposer_id == proposer.replica_id
                &&& run.proposal.key.lane_id == proposer.lane_id
                &&& ids.no_duplicates() && ids.contains(proposer.replica_id)
                &&& leader matches Some(leader) ==> ids.contains(leader)
                &&& forall|i: int|
                    0 <= i < known.len() ==> ids.contains((#[trigger] known[i]).proposer)
                &&& match proposer.cluster {
                    Some(cluster) => ids.to_set() == cluster.members.to_set() && run.quorum
                        == cluster.quorum_size() && proposer.quorum == Some(run.quorum),
                    None => 2 * run.quorum > ids.len() && run.quorum <= ids.len() && (
                    proposer.quorum matches Some(quorum) ==> run.quorum == quorum) && (
                    proposer.quorum is None ==> 2 * (run.quorum - 1) <= ids.len()),
                }
            },
            Err(_) => {
                ||| ids.len() == 0
                ||| !ids.no_duplicates()
                ||| !ids.contains(proposer.replica_id)
                ||| (leader matches Some(leader) && !ids.contains(leader))
                ||| exists|i: int|
                    0 <= i < known.len() && !ids.contains((#[trigger] known[i]).proposer)
                ||| values.len() == 0
                ||| match proposer.cluster {
                    Some(cluster) => ids.to_set() != cluster.members.to_set()
                        || proposer.quorum is None || proposer.quorum->0 != cluster.quorum_size(),
                    None => proposer.quorum matches Some(quorum) && (2 * quorum <= ids.len()
                        || quorum > ids.len()),
                }
            },
        },
{
    proposer::lemma_no_repeat(ids);
    lemma_unknown(ids, known);
}

proof fn lemma_unknown<V>(ids: Seq<ReplicaId>, known: Seq<DecisionView<V>>)
    ensures
        proposer::unknown_proposer(ids, known) is None <==> forall|i: int|
            0 <= i < known.len() ==> ids.contains((#[trigger] known[i]).proposer),
    decreases known.len(),
{
    if known.len() > 0 {
        let rest = known.drop_last();
        lemma_unknown(ids, rest);
        assert(known[known.len() - 1] == known.last());
        if proposer::unknown_proposer(ids, known) is None {
            assert forall|i: int| 0 <= i < known.len() implies ids.contains(
                (#[trigger] known[i]).proposer,
            ) by {
                if i < rest.len() {
                    assert(rest[i] == known[i]);
                }
            }
        }
        if forall|i: int| 0 <= i < known.len() ==> ids.contains((#[trigger] known[i]).proposer) {
            assert forall|i: int| 0 <= i < rest.len() implies ids.contains(
                (#[trigger] rest[i]).proposer,
            ) by {
                assert(known[i] == rest[i]);
            }
        }
    }
}

/// A run that goes on keeps its slot, its name, its leader, its recorders, its
/// quorum and its limit. It has the step and the proposal that the round ended
/// with, and tells what was known only once.
pub proof fn runs_keep_their_terms<V>(run: RunView<V>, step: Step, proposal: ProposalView<V>)
    ensures
        ({
            let next = run.continued(step, proposal);
            &&& next.step == step && next.proposal == proposal
            &&& next.slot == run.slot && next.sender == run.sender && next.leader == run.leader
            &&& next.recorders == run.recorders && next.quorum == run.quorum
            &&& next.max_steps == run.max_steps
            &&& next.known_decisions.len() == 0
        }),
{
}

} // verus!
