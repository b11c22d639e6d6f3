//! Laws of what a node offers over the network: requests that are granted,
//! batches that are published and fetched, and submissions that are answered
//! again.

use crate::error::ErrorView;
use crate::key::{Duplicate, Key};
use crate::network::batch;
use crate::network::batch::{BatchServiceLimits, BatchVerifier, BatchView};
use crate::network::dedupe;
use crate::network::dedupe::{
    ExactlyOnceSnapshot, ExactlyOnceView, FileExactlyOnceExecutor, StateApplier, SubmissionKey,
};
use crate::network::durability::{SnapshotCodec, SnapshotStore};
use crate::network::node_steps;
use crate::network::server;
use crate::network::server::{PeerEntry, PeerIdentity};
use crate::network::transport;
use crate::network::transport::PublishView;
use crate::network::wire::{
    DeploymentId, NodeRequest, NodeResponse, OutcomeView, PeerSender, RequestBody, WireErrorCode,
};
use crate::types::{DecisionView, SlotIndex};
use vstd::prelude::*;

verus! {

/// A node grants a request exactly where it speaks the wire version, names the
/// node's deployment and comes from the peer that the certificate stands for, and
/// where that peer may ask for it: a replica for anything but a submission, and
/// for a record only in its own name; a client for a publication, for a
/// submission of values in its own name and for a sign of life. Batches are
/// granted only where the node serves them.
pub proof fn requests_are_granted_by_identity<V>(
    deployment: DeploymentId,
    serves_batches: bool,
    peer: PeerIdentity,
    request: NodeRequest<V>,
)
    ensures
        server::request_refusal(deployment, serves_batches, peer, request) is None <==> {
            &&& request.version == 4
            &&& request.deployment == deployment
            &&& match peer {
                PeerIdentity::Replica(replica) => {
                    &&& request.sender == PeerSender::Replica(replica)
                    &&& match request.body {
                        RequestBody::Record(record) => record.sender == replica,
                        RequestBody::PublishBatches(_) => serves_batches,
                        RequestBody::FetchBatches(_) => serves_batches,
                        RequestBody::Submit(_) => false,
                        _ => true,
                    }
                },
                PeerIdentity::Client(client) => {
                    &&& request.sender == PeerSender::Client(client)
                    &&& match request.body {
                        RequestBody::PublishBatches(_) => serves_batches,
                        RequestBody::Submit(submission) => submission.client_id == client
                            && submission.value_ids@.len() > 0,
                        RequestBody::Ping => true,
                        _ => false,
                    }
                },
            }
        },
        request.version == 4 && request.deployment != deployment ==> server::request_refusal(
            deployment,
            serves_batches,
            peer,
            request,
        ) == Some(ErrorView::ConfigurationMismatch),
{
}

/// A client takes a response exactly where it speaks the wire version, names the
/// client's deployment and answers the request that was sent.
pub proof fn responses_answer_their_request<V>(
    deployment: DeploymentId,
    request_id: u64,
    response: NodeResponse<V>,
)
    ensures
        transport::answers(deployment, request_id, response) <==> {
            &&& response.version == 4
            &&& response.deployment == deployment
            &&& response.request_id == request_id
        },
{
}

/// A certificate stands for what the last entry with it says, and for nobody
/// where no entry has it.
pub proof fn the_last_entry_counts(entries: Seq<PeerEntry>, i: int, certificate: Seq<u8>)
    requires
        0 <= i < entries.len(),
    ensures
        (forall|j: int| i < j < entries.len() ==> (#[trigger] entries[j]).certificate@
            != entries[i].certificate@) ==> {
            &&& server::bound(entries).dom().contains(entries[i].certificate@)
            &&& server::bound(entries)[entries[i].certificate@] == entries[i].identity
        },
        server::bound(entries).dom().contains(certificate) ==> exists|j: int|
            0 <= j < entries.len() && (#[trigger] entries[j]).certificate@ == certificate,
    decreases entries.len(),
{
    let last = entries.len() - 1;
    let earlier = entries.drop_last();
    if earlier.len() > 0 {
        let at = if i < last {
            i
        } else {
            0
        };
        the_last_entry_counts(earlier, at, certificate);
        if i < last && forall|j: int|
            i < j < entries.len() ==> (#[trigger] entries[j]).certificate@
                != entries[i].certificate@ {
            assert(entries[last].certificate@ != entries[i].certificate@);
            assert(earlier[i] == entries[i]);
            assert forall|j: int| i < j < earlier.len() implies (#[trigger] earlier[j]).certificate@
                != earlier[i].certificate@ by {
                assert(earlier[j] == entries[j]);
            }
        }
        if server::bound(earlier).dom().contains(certificate) {
            let j = choose|j: int|
                0 <= j < earlier.len() && (#[trigger] earlier[j]).certificate@ == certificate;
            assert(entries[j] == earlier[j]);
        }
    }
    assert(entries[last] == entries.last());
    assert(earlier.len() == 0 ==> server::bound(earlier) == Map::<Seq<u8>, PeerIdentity>::empty());
    assert(entries[last].certificate@ == certificate || server::bound(entries).dom().contains(
        certificate,
    ) == server::bound(earlier).dom().contains(certificate));
}

/// How a refusal is told to a caller: trouble with who somebody is, with the
/// membership, with a limit, with storage, with reaching others, with the request
/// itself, and with what was decided, are all told apart.
pub proof fn refusals_are_told_apart(refusal: ErrorView)
    ensures
        ({
            let code = server::sent(refusal).code;
            &&& refusal is InvalidSender || refusal is InvalidRecorderReply
                || refusal is DuplicateRecorderReply <==> code == WireErrorCode::Authentication
            &&& refusal is ConfigurationMismatch || refusal is InvalidReconfiguration
                || refusal is ConfigurationEpochOverflow || refusal is InvalidQuorum
                || refusal is UnknownReplica <==> code == WireErrorCode::Configuration
            &&& refusal is ResourceLimit || refusal is StepLimitExceeded <==> code
                == WireErrorCode::ResourceLimit
            &&& refusal is StorageError <==> code == WireErrorCode::Storage
            &&& refusal is TransportError || refusal is QuorumNotReached <==> code
                == WireErrorCode::Unavailable
            &&& refusal is ConflictingDecision <==> code == WireErrorCode::Conflict
            &&& refusal is ScheduleMismatch <==> code == WireErrorCode::ScheduleMismatch
            &&& refusal is SlotPruned <==> code == WireErrorCode::Pruned
            &&& refusal is StepOverflow || refusal is SlotOverflow || refusal is PolicyError <==> code
                == WireErrorCode::Internal
            &&& server::sent(refusal).message == refusal.message()
        }),
{
}

/// A publication may have one batch or more, up to the limit, and each batch one
/// byte or more, up to the limit, under an ID that no earlier batch has.
pub proof fn publications_keep_to_their_limits<V>(
    limits: BatchServiceLimits,
    batches: Seq<BatchView<V>>,
    i: int,
)
    requires
        0 <= i < batches.len(),
    ensures
        limits.publish_size_error(batches.len()) is None <==> batches.len()
            <= limits.max_batches_per_request,
        limits.publish_size_error(0) is Some,
        limits.flaw(batches, i) is None <==> {
            &&& 1 <= batches[i].payload.len() <= limits.max_batch_bytes
            &&& forall|j: int| 0 <= j < i ==> (#[trigger] batches[j]).value_id != batches[i].value_id
        },
        (forall|k: int| 0 <= k <= i ==> limits.flaw(batches, k) is None) ==> forall|j: int, k: int|
            0 <= j < k <= i ==> (#[trigger] batches[j]).value_id != (#[trigger] batches[k]).value_id,
{
    if forall|k: int| 0 <= k <= i ==> limits.flaw(batches, k) is None {
        assert forall|j: int, k: int| 0 <= j < k <= i implies (#[trigger] batches[j]).value_id != (
        #[trigger] batches[k]).value_id by {
            assert(limits.flaw(batches, k) is None);
        }
    }
}

/// A fetch may ask for one ID or more, up to the limit, and for none twice.
pub proof fn fetches_keep_to_their_limits<V>(limits: BatchServiceLimits, value_ids: Seq<V>)
    ensures
        limits.fetch_error(value_ids) is None <==> {
            &&& 1 <= value_ids.len() <= limits.max_fetch_ids
            &&& forall|i: int, j: int|
                0 <= i < j < value_ids.len() ==> #[trigger] value_ids[i] != #[trigger] value_ids[j]
        },
{
    if forall|i: int, j: int|
        0 <= i < j < value_ids.len() ==> #[trigger] value_ids[i] != #[trigger] value_ids[j] {
        assert(value_ids.no_duplicates());
    }
}

/// A publication whose batches have no flaw, and that the verifier refuses
/// nothing of, is not refused.
pub proof fn sound_publications_pass<V, F: BatchVerifier<V>>(
    limits: BatchServiceLimits,
    verifier: F,
    batches: Seq<BatchView<V>>,
    from: int,
    refusal: Option<ErrorView>,
)
    requires
        0 <= from <= batches.len(),
        batch::screened(limits, verifier, batches, from, refusal),
        forall|i: int|
            from <= i < batches.len() ==> {
                &&& 1 <= (#[trigger] batches[i]).payload.len() <= limits.max_batch_bytes
                &&& forall|given: ErrorView| !#[trigger]
                    verifier.answers(batches[i].value_id, batches[i].payload, Err(given))
            },
        forall|i: int, j: int|
            0 <= i < j < batches.len() ==> (#[trigger] batches[i]).value_id != (
            #[trigger] batches[j]).value_id,
    ensures
        refusal is None,
    decreases batches.len() - from,
{
    if from < batches.len() {
        assert(batches[from].payload.len() >= 1);
        assert(limits.flaw(batches, from) is None);
        sound_publications_pass(limits, verifier, batches, from + 1, refusal);
    }
}

/// Publishing keeps what was kept and the published batches, and nothing else.
/// Publishing the same batches again succeeds and changes nothing.
pub proof fn publishing_again_changes_nothing<V>(
    kept: Map<V, Seq<u8>>,
    batches: Seq<BatchView<V>>,
    other: V,
)
    requires
        batch::put_all(kept, batches).1 is Ok,
    ensures
        batch::put_all(kept, batches).0.dom().contains(other) ==> kept.dom().contains(other)
            || exists|i: int| 0 <= i < batches.len() && (#[trigger] batches[i]).value_id == other,
        batch::put_all(batch::put_all(kept, batches).0, batches) == (
            batch::put_all(kept, batches).0,
            Ok::<(), ErrorView>(()),
        ),
{
    let after = batch::put_all(kept, batches).0;
    if after.dom().contains(other) {
        lemma_only_published(kept, batches, other);
    }
    assert forall|i: int| 0 <= i < batches.len() implies after.dom().contains(
        (#[trigger] batches[i]).value_id,
    ) && after[batches[i].value_id] == batches[i].payload by {
        batch::published_batches_are_kept(kept, batches, i);
    }
    lemma_already_kept(after, batches);
}

proof fn lemma_only_published<V>(kept: Map<V, Seq<u8>>, batches: Seq<BatchView<V>>, other: V)
    requires
        batch::put_all(kept, batches).0.dom().contains(other),
    ensures
        kept.dom().contains(other) || exists|i: int|
            0 <= i < batches.len() && (#[trigger] batches[i]).value_id == other,
    decreases batches.len(),
{
    if batches.len() > 0 {
        let earlier = batches.drop_last();
        let last = batches.len() - 1;
        if batch::put_all(kept, earlier).0.dom().contains(other) {
            lemma_only_published(kept, earlier, other);
            if !kept.dom().contains(other) {
                let i = choose|i: int|
                    0 <= i < earlier.len() && (#[trigger] earlier[i]).value_id == other;
                assert(batches[i] == earlier[i]);
            }
        } else {
            assert(batches[last].value_id == other);
        }
    }
}

proof fn lemma_already_kept<V>(kept: Map<V, Seq<u8>>, batches: Seq<BatchView<V>>)
    requires
        forall|i: int|
            0 <= i < batches.len() ==> kept.dom().contains((#[trigger] batches[i]).value_id)
                && kept[batches[i].value_id] == batches[i].payload,
    ensures
        batch::put_all(kept, batches) == (kept, Ok::<(), ErrorView>(())),
    decreases batches.len(),
{
    if batches.len() > 0 {
        let earlier = batches.drop_last();
        assert forall|i: int| 0 <= i < earlier.len() implies kept.dom().contains(
            (#[trigger] earlier[i]).value_id,
        ) && kept[earlier[i].value_id] == earlier[i].payload by {
            assert(batches[i] == earlier[i]);
        }
        lemma_already_kept(kept, earlier);
        assert(batches[batches.len() - 1] == batches.last());
    }
}

/// One ID never has two payloads: a publication that brings another payload for
/// a kept ID is refused, and what is kept under the ID stays. One whose payloads
/// agree with what is kept and with each other is accepted.
pub proof fn one_id_has_one_payload<V>(
    kept: Map<V, Seq<u8>>,
    batches: Seq<BatchView<V>>,
    i: int,
)
    ensures
        0 <= i < batches.len() && kept.dom().contains(batches[i].value_id)
            && kept[batches[i].value_id] != batches[i].payload ==> {
            &&& batch::put_all(kept, batches).1 is Err
            &&& batch::put_all(kept, batches).0[batches[i].value_id] == kept[batches[i].value_id]
        },
        (forall|j: int|
            0 <= j < batches.len() ==> (kept.dom().contains((#[trigger] batches[j]).value_id)
                ==> kept[batches[j].value_id] == batches[j].payload)) && (forall|j: int, k: int|
            0 <= j < k < batches.len() ==> (#[trigger] batches[j]).value_id != (
            #[trigger] batches[k]).value_id) ==> batch::put_all(kept, batches).1 is Ok,
    decreases batches.len(),
{
    if 0 <= i < batches.len() && kept.dom().contains(batches[i].value_id) && kept[batches[i].value_id]
        != batches[i].payload {
        batch::kept_payloads_stay(kept, batches);
        assert(batch::put_all(kept, batches).0.dom().contains(batches[i].value_id));
        if batch::put_all(kept, batches).1 is Ok {
            batch::published_batches_are_kept(kept, batches, i);
        }
    }
    if batches.len() > 0 && (forall|j: int|
        0 <= j < batches.len() ==> (kept.dom().contains((#[trigger] batches[j]).value_id)
            ==> kept[batches[j].value_id] == batches[j].payload)) && (forall|j: int, k: int|
        0 <= j < k < batches.len() ==> (#[trigger] batches[j]).value_id != (
        #[trigger] batches[k]).value_id) {
        let earlier = batches.drop_last();
        let last = batches.len() - 1;
        assert forall|j: int|
            0 <= j < earlier.len() && kept.dom().contains(
                (#[trigger] earlier[j]).value_id,
            ) implies kept[earlier[j].value_id] == earlier[j].payload by {
            assert(batches[j] == earlier[j]);
        }
        assert forall|j: int, k: int| 0 <= j < k < earlier.len() implies (
        #[trigger] earlier[j]).value_id != (#[trigger] earlier[k]).value_id by {
            assert(batches[j].value_id != batches[k].value_id);
        }
        one_id_has_one_payload(kept, earlier, -1);
        batch::kept_payloads_stay(kept, earlier);
        let before = batch::put_all(kept, earlier).0;
        if before.dom().contains(batches[last].value_id) {
            lemma_only_published(kept, earlier, batches[last].value_id);
            if !kept.dom().contains(batches[last].value_id) {
                let j = choose|j: int|
                    0 <= j < earlier.len() && (#[trigger] earlier[j]).value_id
                        == batches[last].value_id;
                assert(batches[j].value_id != batches[last].value_id);
            }
        }
    }
}

/// A fetch hands out a batch for every ID that was asked for, in that order, each
/// with the payload that is kept under its own ID.
pub proof fn fetches_hand_out_what_is_kept<V>(kept: Map<V, Seq<u8>>, value_ids: Seq<V>, i: int)
    requires
        0 <= i < value_ids.len(),
    ensures
        batch::fetched(kept, value_ids).len() == value_ids.len(),
        batch::fetched(kept, value_ids)[i].value_id == value_ids[i],
        batch::fetched(kept, value_ids)[i].payload == kept[value_ids[i]],
{
}

/// A publication once all of these nodes have answered or failed.
pub open spec fn answered_by(state: PublishView, answers: Seq<bool>) -> PublishView
    decreases answers.len(),
{
    if answers.len() == 0 {
        state
    } else {
        answered_by(state, answers.drop_last()).after(answers.last())
    }
}

/// How many nodes acknowledged.
pub open spec fn count_of(answers: Seq<bool>) -> nat
    decreases answers.len(),
{
    if answers.len() == 0 {
        0
    } else if answers.last() {
        count_of(answers.drop_last()) + 1
    } else {
        count_of(answers.drop_last())
    }
}

/// A publication to some nodes succeeds exactly once as many have acknowledged
/// it as are needed, fails exactly once so many have failed that the others are
/// too few, and is open until then.
pub proof fn publications_count_acknowledgements(nodes: usize, required: usize, answers: Seq<bool>)
    requires
        0 < required <= nodes,
        answers.len() <= nodes,
    ensures
        ({
            let start = PublishView {
                required: required as nat,
                acknowledged: 0,
                pending: nodes as nat,
            };
            let failures = answers.len() - count_of(answers);
            let verdict = answered_by(start, answers).verdict();
            &&& verdict == Some(Ok::<(), ErrorView>(())) <==> count_of(answers) >= required
            &&& (verdict matches Some(Err(refusal)) && refusal == (ErrorView::QuorumNotReached {
                needed: required,
                received: count_of(answers) as usize,
            })) <==> failures > nodes - required
            &&& verdict is None <==> count_of(answers) < required && failures <= nodes - required
        }),
{
    let start = PublishView { required: required as nat, acknowledged: 0, pending: nodes as nat };
    lemma_answers_are_counted(start, answers);
}

proof fn lemma_answers_are_counted(start: PublishView, answers: Seq<bool>)
    requires
        start.acknowledged == 0,
        answers.len() <= start.pending,
    ensures
        count_of(answers) <= answers.len(),
        answered_by(start, answers).required == start.required,
        answered_by(start, answers).acknowledged == count_of(answers),
        answered_by(start, answers).pending == start.pending - answers.len(),
    decreases answers.len(),
{
    if answers.len() > 0 {
        lemma_answers_are_counted(start, answers.drop_last());
    }
}

/// Where everyone has to acknowledge, nothing less than everyone will do.
pub proof fn everyone_means_everyone(needed: usize, received: usize)
    ensures
        node_steps::all_but(needed, received) is Ok <==> received == needed,
        received != needed ==> node_steps::all_but(needed, received) == Err::<(), ErrorView>(
            ErrorView::QuorumNotReached { needed, received },
        ),
{
}

/// The first outcome of a request is its outcome for good: the same one may be
/// noted again, another one is refused, and what other requests were answered
/// stays.
pub proof fn first_outcomes_are_final<V>(
    outcomes: Map<SubmissionKey, OutcomeView<V>>,
    key: SubmissionKey,
    first: OutcomeView<V>,
    second: OutcomeView<V>,
    other: SubmissionKey,
)
    requires
        !outcomes.dom().contains(key),
        first != second,
        other != key,
    ensures
        ({
            let noted = dedupe::journaled(outcomes, key, first);
            &&& noted is Ok
            &&& noted->Ok_0.dom().contains(key) && noted->Ok_0[key] == first
            &&& noted->Ok_0.dom().contains(other) == outcomes.dom().contains(other)
            &&& outcomes.dom().contains(other) ==> noted->Ok_0[other] == outcomes[other]
            &&& dedupe::journaled(noted->Ok_0, key, first) == noted
            &&& dedupe::journaled(noted->Ok_0, key, second) matches Err(
                ErrorView::InvalidProposal(_),
            )
        }),
{
    let noted = dedupe::journaled(outcomes, key, first)->Ok_0;
    assert(noted.insert(key, first) =~= noted);
}

/// A request that comes again is answered as a duplicate, with the decision that
/// the first answer told, however often it comes.
pub proof fn repeats_tell_the_same_decision<V>(decision: DecisionView<V>)
    ensures
        dedupe::repeated(OutcomeView::Committed(decision)) == OutcomeView::Duplicate(
            Some(decision),
        ),
        dedupe::repeated(OutcomeView::Duplicate(Some(decision))) == OutcomeView::Duplicate(
            Some(decision),
        ),
        dedupe::repeated(OutcomeView::<V>::Accepted) == OutcomeView::<
            V,
        >::Duplicate(None),
        dedupe::repeated(OutcomeView::<V>::Duplicate(None)) == OutcomeView::<
            V,
        >::Duplicate(None),
        dedupe::repeated(dedupe::repeated(OutcomeView::Committed(decision))) == dedupe::repeated(
            OutcomeView::Committed(decision),
        ),
{
}

/// An executed decision has applied every one of its values and no other; one
/// whose execution failed has applied no other either.
pub proof fn executions_apply_the_values<V>(
    before: Set<V>,
    after: Set<V>,
    values: Seq<V>,
    all: bool,
    value: V,
)
    requires
        dedupe::applied_some(before, after, values, all),
    ensures
        before.contains(value) ==> after.contains(value),
        after.contains(value) ==> before.contains(value) || values.contains(value),
        all && values.contains(value) ==> after.contains(value),
{
    let count = choose|count: int|
        0 <= count <= values.len() && after == before.union(#[trigger] values.take(count).to_set())
            && (all ==> count == values.len());
    if after.contains(value) && !before.contains(value) {
        assert(values.take(count).contains(value));
        let i = values.take(count).index_of(value);
        assert(values[i] == value);
    }
    if all && values.contains(value) {
        assert(values.take(count) =~= values);
        assert(values.to_set().contains(value));
    }
}

/// What is fetched is what was asked for: each value once, and each with a
/// payload that the verifier approved for it.
pub proof fn fetched_values_are_those_asked_for<V, F: BatchVerifier<V>>(
    verifier: F,
    requested: Seq<V>,
    answers: Seq<std::result::Result<Seq<BatchView<V>>, ErrorView>>,
    places: nat,
    pairs: Seq<(V, Vec<u8>)>,
    i: int,
    j: int,
    k: int,
)
    requires
        transport::picked(verifier, requested, answers, places, Ok(pairs)),
    ensures
        0 <= i < pairs.len() ==> requested.contains(pairs[i].0) && verifier.answers(
            pairs[i].0,
            pairs[i].1@,
            Ok(()),
        ),
        0 <= i < j < pairs.len() ==> pairs[i].0 != pairs[j].0,
        0 <= k < requested.len() ==> exists|at: int|
            0 <= at < pairs.len() && (#[trigger] pairs[at]).0 == requested[k],
{
    let batches = answers.last()->Ok_0;
    let views = transport::as_pairs(batches);
    assert(transport::pair_views(pairs).len() == views.len());
    if 0 <= i < pairs.len() {
        assert(transport::pair_views(pairs)[i] == views[i]);
        assert(batches[i].value_id == pairs[i].0);
        assert(verifier.answers(batches[i].value_id, batches[i].payload, Ok(())));
    }
    if 0 <= i < j < pairs.len() {
        assert(transport::pair_views(pairs)[j] == views[j]);
        assert(batches[i].value_id != batches[j].value_id);
    }
    if 0 <= k < requested.len() {
        assert(transport::brings(batches, requested[k]));
        let at = choose|at: int|
            0 <= at < batches.len() && (#[trigger] batches[at]).value_id == requested[k];
        assert(transport::pair_views(pairs)[at] == views[at]);
        assert(pairs[at].0 == requested[k]);
    }
}

/// A fetch fails only once every place was asked, and each of them refused, left
/// a value out, brought one that was not asked for or one twice, or brought a
/// payload that the verifier may refuse.
pub proof fn fetches_fail_everywhere<V, F: BatchVerifier<V>>(
    verifier: F,
    requested: Seq<V>,
    answers: Seq<std::result::Result<Seq<BatchView<V>>, ErrorView>>,
    places: nat,
    refusal: ErrorView,
    i: int,
)
    requires
        transport::picked(verifier, requested, answers, places, Err(refusal)),
        0 <= i < places,
    ensures
        answers.len() == places,
        match answers[i] {
            Err(_) => true,
            Ok(batches) => {
                ||| exists|k: int|
                    0 <= k < requested.len() && forall|at: int|
                        0 <= at < batches.len() ==> (#[trigger] batches[at]).value_id
                            != #[trigger] requested[k]
                ||| exists|at: int|
                    0 <= at < batches.len() && !requested.contains(
                        (#[trigger] batches[at]).value_id,
                    )
                ||| exists|at: int, other: int|
                    0 <= at < other < batches.len() && (#[trigger] batches[at]).value_id == (
                    #[trigger] batches[other]).value_id
                ||| exists|at: int, given: ErrorView|
                    0 <= at < batches.len() && #[trigger] verifier.answers(
                        (#[trigger] batches[at]).value_id,
                        batches[at].payload,
                        Err(given),
                    )
            },
        },
{
    assert(transport::failed(verifier, requested, answers[i]));
    if answers[i] is Ok {
        let batches = answers[i]->Ok_0;
        if transport::complete_answer(requested, batches) {
            let at = choose|at: int|
                0 <= at < batches.len() && transport::refused(verifier, #[trigger] batches[at]);
            let given = choose|given: ErrorView| #[trigger]
                verifier.answers(batches[at].value_id, batches[at].payload, Err(given));
            assert(verifier.answers(batches[at].value_id, batches[at].payload, Err(given)));
        } else if exists|k: int|
            0 <= k < requested.len() && !transport::brings(batches, #[trigger] requested[k]) {
            let k = choose|k: int|
                0 <= k < requested.len() && !transport::brings(batches, #[trigger] requested[k]);
            assert forall|at: int| 0 <= at < batches.len() implies (
            #[trigger] batches[at]).value_id != requested[k] by {}
        }
    }
}

/// Executing a value that is new, with success, adds just that value to those
/// that were applied, and what the applier made of the state is durable. A
/// failure adds nothing, and a value that was applied before changes nothing.
pub proof fn executions_add_one_value<
    V: Key,
    A: Duplicate,
    F: StateApplier<V, A>,
    D: SnapshotStore<ExactlyOnceSnapshot<V, A>>,
    C: SnapshotCodec<ExactlyOnceSnapshot<V, A>>,
>(
    before: FileExactlyOnceExecutor<V, A, F, D, C>,
    slot: SlotIndex,
    value_id: V,
    fresh: std::result::Result<bool, ErrorView>,
    after: FileExactlyOnceExecutor<V, A, F, D, C>,
)
    requires
        dedupe::ran_once(&before, slot, value_id, fresh, &after),
    ensures
        before.state().seen.contains(value_id) ==> fresh == Ok::<bool, ErrorView>(false) && after
            == before,
        !before.state().seen.contains(value_id) ==> fresh != Ok::<bool, ErrorView>(false),
        fresh == Ok::<bool, ErrorView>(true) ==> {
            &&& after.state().seen == before.state().seen.insert(value_id)
            &&& after.state().checkpointed_through == before.state().checkpointed_through
            &&& after.durable() == Some(after.state())
            &&& before.target().applies(
                before.state().application,
                slot,
                value_id,
                Ok(()),
                after.state().application,
                &after.target(),
            )
        },
        fresh is Err ==> after.state() == before.state(),
{
    if fresh == Ok::<bool, ErrorView>(true) {
        let (applied, application) = choose|
            applied: std::result::Result<(), ErrorView>,
            application: A,
        | #[trigger]
            before.target().applies(
                before.state().application,
                slot,
                value_id,
                applied,
                application@,
                &after.target(),
            ) && applied is Ok && dedupe::kept(
                &before,
                ExactlyOnceView {
                    seen: before.state().seen.insert(value_id),
                    application: application@,
                    ..before.state()
                },
                Ok(()),
                &after,
            );
        assert(applied is Ok);
        assert(applied->Ok_0 == ());
        assert(applied == Ok::<(), ErrorView>(()));
        assert(after.state().application == application@);
    }
}

/// An executor takes a checkpoint over only for exactly the floor that it was
/// asked for. Then it goes on with the checkpoint's state, durably; otherwise
/// with its own.
pub proof fn checkpoints_replace_the_state<
    V: Key,
    A: Duplicate,
    F,
    D: SnapshotStore<ExactlyOnceSnapshot<V, A>>,
    C: SnapshotCodec<ExactlyOnceSnapshot<V, A>>,
>(
    before: FileExactlyOnceExecutor<V, A, F, D, C>,
    through: SlotIndex,
    state: ExactlyOnceView<V, A::V>,
    taken: std::result::Result<(), ErrorView>,
    after: FileExactlyOnceExecutor<V, A, F, D, C>,
)
    requires
        dedupe::taken_over(&before, through, state, taken, &after),
    ensures
        taken is Ok ==> state.checkpointed_through == through && after.state() == state
            && after.durable() == Some(state),
        taken is Err ==> after.state() == before.state(),
        state.checkpointed_through != through ==> taken == Err::<(), ErrorView>(
            ErrorView::ConfigurationMismatch,
        ) && after == before,
{
}

} // verus!
