//! Orders of proposers.

use crate::error;
use crate::error::{ErrorView, QuePaxaError, Result};
use crate::types::ReplicaId;
use vstd::prelude::*;

verus! {

/// The list with its first members moved to the end.
pub open spec fn rotation(replicas: Seq<ReplicaId>, offset: int) -> Seq<ReplicaId> {
    replicas.skip(offset) + replicas.take(offset)
}

/// The list with its first members moved to the end.
pub fn rotated(replicas: &[ReplicaId], offset: usize) -> (list: Vec<ReplicaId>)
    requires
        offset <= replicas@.len(),
    ensures
        list@ == rotation(replicas@, offset as int),
{
    let mut list: Vec<ReplicaId> = Vec::new();
    let mut i: usize = offset;
    while i < replicas.len()
        invariant
            offset <= i <= replicas@.len(),
            list@ =~= replicas@.subrange(offset as int, i as int),
        decreases replicas@.len() - i,
    {
        list.push(replicas[i]);
        i += 1;
    }
    let mut i: usize = 0;
    while i < offset
        invariant
            i <= offset <= replicas@.len(),
            list@ =~= replicas@.skip(offset as int) + replicas@.take(i as int),
        decreases offset - i,
    {
        list.push(replicas[i]);
        i += 1;
    }
    list
}

/// Whether a place holds a replica that occurs elsewhere in the list too.
pub open spec fn occurs_twice(replicas: Seq<ReplicaId>, i: int) -> bool {
    exists|j: int| 0 <= j < replicas.len() && j != i && #[trigger] replicas[j] == replicas[i]
}

/// The first replica that occurs more than once, counted from a place on.
pub open spec fn duplicated_from(replicas: Seq<ReplicaId>, i: int) -> Option<ReplicaId>
    decreases replicas.len() - i,
{
    if i < 0 || i >= replicas.len() {
        None
    } else if occurs_twice(replicas, i) {
        Some(replicas[i])
    } else {
        duplicated_from(replicas, i + 1)
    }
}

/// Why a list is no order of proposers: it is empty, or a replica occurs more
/// than once.
pub open spec fn order_error(replicas: Seq<ReplicaId>) -> Option<ErrorView> {
    if replicas.len() == 0 {
        Some(ErrorView::EmptyCluster)
    } else {
        match duplicated_from(replicas, 0) {
            Some(replica) => Some(ErrorView::DuplicateReplica(replica)),
            None => None,
        }
    }
}

/// Nothing occurs twice exactly where the list repeats nothing.
pub proof fn lemma_duplicated(replicas: Seq<ReplicaId>, i: int)
    requires
        0 <= i <= replicas.len(),
        forall|k: int| 0 <= k < i ==> !#[trigger] occurs_twice(replicas, k),
    ensures
        duplicated_from(replicas, i) is None <==> replicas.no_duplicates(),
    decreases replicas.len() - i,
{
    if i < replicas.len() {
        if occurs_twice(replicas, i) {
            let j = choose|j: int|
                0 <= j < replicas.len() && j != i && #[trigger] replicas[j] == replicas[i];
            assert(!replicas.no_duplicates());
        } else {
            lemma_duplicated(replicas, i + 1);
        }
    } else {
        assert forall|a: int, b: int|
            0 <= a < replicas.len() && 0 <= b < replicas.len() && a != b implies replicas[a]
            != replicas[b] by {
            assert(!occurs_twice(replicas, a));
        }
    }
}

/// Checks that a list is not empty and repeats no replica.
pub fn validate_order(replicas: &[ReplicaId]) -> (checked: Result<()>)
    ensures
        error::outcome(checked) == match order_error(replicas@) {
            Some(refusal) => Err(refusal),
            None => Ok(()),
        },
{
    if replicas.len() == 0 {
        return Err(QuePaxaError::EmptyCluster);
    }
    let mut i: usize = 0;
    while i < replicas.len()
        invariant
            i <= replicas@.len(),
            replicas@.len() > 0,
            duplicated_from(replicas@, 0) == duplicated_from(replicas@, i as int),
        decreases replicas@.len() - i,
    {
        let mut j: usize = 0;
        while j < replicas.len()
            invariant
                i < replicas@.len(),
                j <= replicas@.len(),
                replicas@.len() > 0,
                duplicated_from(replicas@, 0) == duplicated_from(replicas@, i as int),
                forall|k: int| 0 <= k < j && k != i ==> replicas@[k] != replicas@[i as int],
            decreases replicas@.len() - j,
        {
            if j != i && replicas[j] == replicas[i] {
                assert(occurs_twice(replicas@, i as int));
                return Err(QuePaxaError::DuplicateReplica(replicas[i]));
            }
            j += 1;
        }
        assert(!occurs_twice(replicas@, i as int));
        i += 1;
    }
    Ok(())
}

/// What replicas are ranked by.
pub trait Score: Sized {
    /// Whether this score is better than another.
    spec fn beats(self, other: Self) -> bool;

    fn is_better(&self, other: &Self) -> (better: bool)
        ensures
            better == self.beats(*other),
    ;
}

/// A better score comes first; among equals, the lower identity does.
pub open spec fn precedes<S: Score>(a: (S, ReplicaId), b: (S, ReplicaId)) -> bool {
    a.0.beats(b.0) || (!b.0.beats(a.0) && a.1.0 < b.1.0)
}

/// A ranking with one more replica in its place.
pub open spec fn placed<S: Score>(
    ranking: Seq<(S, ReplicaId)>,
    entry: (S, ReplicaId),
) -> Seq<(S, ReplicaId)>
    decreases ranking.len(),
{
    if ranking.len() > 0 && precedes(entry, ranking.last()) {
        placed(ranking.drop_last(), entry).push(ranking.last())
    } else {
        ranking.push(entry)
    }
}

/// Scored replicas from the best to the worst.
pub open spec fn ranked<S: Score>(entries: Seq<(S, ReplicaId)>) -> Seq<(S, ReplicaId)>
    decreases entries.len(),
{
    if entries.len() == 0 {
        Seq::empty()
    } else {
        placed(ranked(entries.drop_last()), entries.last())
    }
}

/// The replicas of scored ones.
pub open spec fn ids_of<S>(entries: Seq<(S, ReplicaId)>) -> Seq<ReplicaId> {
    entries.map_values(|entry: (S, ReplicaId)| entry.1)
}

/// A replica is placed before those that it precedes at the end.
proof fn lemma_placed<S: Score>(
    ranking: Seq<(S, ReplicaId)>,
    entry: (S, ReplicaId),
    n: int,
)
    requires
        0 <= n <= ranking.len(),
        forall|i: int| n <= i < ranking.len() ==> precedes(entry, #[trigger] ranking[i]),
        n > 0 ==> !precedes(entry, ranking[n - 1]),
    ensures
        placed(ranking, entry) == ranking.insert(n, entry),
    decreases ranking.len(),
{
    if n < ranking.len() {
        let rest = ranking.drop_last();
        assert(ranking[ranking.len() - 1] == ranking.last());
        lemma_placed(rest, entry, n);
        assert(rest.insert(n, entry).push(ranking.last()) =~= ranking.insert(n, entry));
    } else {
        assert(ranking.insert(n, entry) =~= ranking.push(entry));
    }
}

/// Scored replicas from the best to the worst.
pub fn rank<S: Score>(entries: Vec<(S, ReplicaId)>) -> (ids: Vec<ReplicaId>)
    ensures
        ids@ == ids_of(ranked(entries@)),
{
    let ghost all = entries@;
    let mut waiting: Vec<(S, ReplicaId)> = entries;
    let mut reversed: Vec<(S, ReplicaId)> = Vec::new();
    while waiting.len() > 0
        invariant
            waiting@ =~= all.take(waiting@.len() as int),
            waiting@.len() <= all.len(),
            reversed@.len() == all.len() - waiting@.len(),
            forall|i: int|
                0 <= i < reversed@.len() ==> #[trigger] reversed@[i] == all[all.len() - 1 - i],
        decreases waiting@.len(),
    {
        match waiting.pop() {
            Some(entry) => {
                reversed.push(entry);
            },
            None => {},
        }
    }
    let mut ranking: Vec<(S, ReplicaId)> = Vec::new();
    assert(all.take(0) =~= Seq::<(S, ReplicaId)>::empty());
    while reversed.len() > 0
        invariant
            reversed@.len() <= all.len(),
            forall|i: int|
                0 <= i < reversed@.len() ==> #[trigger] reversed@[i] == all[all.len() - 1 - i],
            ranking@ == ranked(all.take(all.len() - reversed@.len())),
        decreases reversed@.len(),
    {
        let ghost done = all.len() - reversed@.len();
        match reversed.pop() {
            Some(entry) => {
                proof {
                    assert(entry == all[done]);
                    assert(all.take(done + 1).drop_last() =~= all.take(done));
                    assert(all.take(done + 1).last() == all[done]);
                }
                let mut n: usize = ranking.len();
                let mut moving = true;
                while moving && n > 0
                    invariant
                        n <= ranking@.len(),
                        forall|i: int|
                            n <= i < ranking@.len() ==> precedes(entry, #[trigger] ranking@[i]),
                        !moving ==> n > 0 && !precedes(entry, ranking@[n - 1]),
                    decreases n + if moving { 1int } else { 0 },
                {
                    let other: &(S, ReplicaId) = &ranking[n - 1];
                    if entry.0.is_better(&other.0) || (!other.0.is_better(&entry.0) && entry.1.0
                        < other.1.0) {
                        n -= 1;
                    } else {
                        moving = false;
                    }
                }
                proof {
                    lemma_placed(ranking@, entry, n as int);
                }
                ranking.insert(n, entry);
            },
            None => {},
        }
    }
    assert(all.take(all.len() as int) =~= all);
    let mut ids: Vec<ReplicaId> = Vec::new();
    let mut i: usize = 0;
    while i < ranking.len()
        invariant
            i <= ranking@.len(),
            ids@ =~= ids_of(ranking@).take(i as int),
        decreases ranking@.len() - i,
    {
        ids.push(ranking[i].1);
        i += 1;
    }
    assert(ids_of(ranking@).take(i as int) =~= ids_of(ranking@));
    ids
}

/// Where a replica first stands in a list.
pub open spec fn position(list: Seq<ReplicaId>, replica: ReplicaId) -> int
    decreases list.len(),
{
    if list.len() == 0 {
        0
    } else if list.drop_last().contains(replica) {
        position(list.drop_last(), replica)
    } else {
        list.len() - 1
    }
}

/// The first place of a replica is its position.
pub proof fn lemma_position(list: Seq<ReplicaId>, replica: ReplicaId, i: int)
    requires
        0 <= i < list.len(),
        list[i] == replica,
        forall|k: int| 0 <= k < i ==> list[k] != replica,
    ensures
        position(list, replica) == i,
    decreases list.len(),
{
    let rest = list.drop_last();
    if i < list.len() - 1 {
        assert(rest[i] == replica);
        lemma_position(rest, replica, i);
    } else if rest.contains(replica) {
        let k = choose|k: int| 0 <= k < rest.len() && rest[k] == replica;
        assert(list[k] == replica);
    }
}

/// Where a replica first stands in a list.
pub fn find_position(list: &[ReplicaId], replica: ReplicaId) -> (found: Option<usize>)
    ensures
        match found {
            Some(i) => list@.contains(replica) && i < list@.len() && i == position(list@, replica),
            None => !list@.contains(replica),
        },
{
    let mut i: usize = 0;
    while i < list.len()
        invariant
            i <= list@.len(),
            forall|k: int| 0 <= k < i ==> list@[k] != replica,
        decreases list@.len() - i,
    {
        if list[i] == replica {
            proof {
                lemma_position(list@, replica, i as int);
            }
            return Some(i);
        }
        i += 1;
    }
    None
}

/// The list with one of its members moved to the front.
pub open spec fn promotion(ids: Seq<ReplicaId>, chosen: ReplicaId) -> Seq<ReplicaId> {
    if ids.contains(chosen) {
        seq![chosen] + ids.remove(position(ids, chosen))
    } else {
        ids
    }
}

/// Moves a member to the front.
pub fn promote(ids: &mut Vec<ReplicaId>, chosen: ReplicaId)
    ensures
        final(ids)@ == promotion(old(ids)@, chosen),
{
    match find_position(ids.as_slice(), chosen) {
        Some(i) => {
            let moved: ReplicaId = ids.remove(i);
            ids.insert(0, chosen);
            assert(ids@ =~= promotion(old(ids)@, chosen));
        },
        None => {},
    }
}

/// Placing a replica keeps all others and their order.
proof fn lemma_placed_keeps<S: Score>(ranking: Seq<(S, ReplicaId)>, entry: (S, ReplicaId))
    ensures
        placed(ranking, entry).to_multiset() == ranking.to_multiset().insert(entry),
        placed(ranking, entry).len() == ranking.len() + 1,
    decreases ranking.len(),
{
    broadcast use vstd::seq_lib::group_to_multiset_ensures;

    if ranking.len() > 0 && precedes(entry, ranking.last()) {
        let rest = ranking.drop_last();
        lemma_placed_keeps(rest, entry);
        assert(ranking =~= rest.push(ranking.last()));
        assert(placed(ranking, entry).to_multiset() =~= ranking.to_multiset().insert(entry));
    }
}

/// A ranking holds exactly the replicas that were ranked.
pub proof fn ranking_is_a_rearrangement<S: Score>(entries: Seq<(S, ReplicaId)>)
    ensures
        ranked(entries).to_multiset() == entries.to_multiset(),
        ranked(entries).len() == entries.len(),
    decreases entries.len(),
{
    broadcast use vstd::seq_lib::group_to_multiset_ensures;

    if entries.len() > 0 {
        ranking_is_a_rearrangement(entries.drop_last());
        lemma_placed_keeps(ranked(entries.drop_last()), entries.last());
        assert(entries =~= entries.drop_last().push(entries.last()));
    } else {
        assert(ranked(entries) =~= entries);
    }
}

/// Whether precedence orders replicas: of two different ones exactly one comes
/// first, and what comes before an earlier one comes before a later one.
pub open spec fn is_ordered<S: Score>(entries: Seq<(S, ReplicaId)>) -> bool {
    &&& forall|a: (S, ReplicaId), b: (S, ReplicaId)|
        #![trigger entries.contains(a), entries.contains(b)]
        entries.contains(a) && entries.contains(b) && a.1 != b.1 ==> precedes(a, b) != precedes(
            b,
            a,
        )
    &&& forall|a: (S, ReplicaId), b: (S, ReplicaId), c: (S, ReplicaId)|
        #![trigger entries.contains(a), entries.contains(b), entries.contains(c)]
        entries.contains(a) && entries.contains(b) && entries.contains(c) && precedes(a, b)
            && precedes(b, c) ==> precedes(a, c)
}

/// Whether every entry precedes all after it.
pub open spec fn descending<S: Score>(ranking: Seq<(S, ReplicaId)>) -> bool {
    forall|i: int, j: int|
        0 <= i < j < ranking.len() ==> precedes(#[trigger] ranking[i], #[trigger] ranking[j])
}

/// Where precedence orders different replicas, a ranking goes from the best to
/// the worst: each precedes all after it. So the ranking does not depend on the
/// order in which they were given.
pub proof fn ranking_is_descending<S: Score>(entries: Seq<(S, ReplicaId)>)
    requires
        is_ordered(entries),
        ids_of(entries).no_duplicates(),
    ensures
        descending(ranked(entries)),
        forall|entry: (S, ReplicaId)| #[trigger]
            ranked(entries).contains(entry) == entries.contains(entry),
    decreases entries.len(),
{
    if entries.len() > 0 {
        let rest = entries.drop_last();
        let entry = entries.last();
        assert forall|other: (S, ReplicaId)| #[trigger] rest.contains(other) implies
            entries.contains(other) && other.1 != entry.1 by {
            let k = choose|k: int| 0 <= k < rest.len() && rest[k] == other;
            assert(entries[k] == other);
            assert(ids_of(entries)[k] != ids_of(entries)[entries.len() - 1]);
        }
        assert(ids_of(rest) =~= ids_of(entries).drop_last());
        assert(is_ordered(rest));
        ranking_is_descending(rest);
        assert(entries.contains(entry)) by {
            assert(entries[entries.len() - 1] == entry);
        }
        lemma_placed_descends(entries, ranked(rest), entry);
        assert forall|other: (S, ReplicaId)| #[trigger] ranked(entries).contains(
            other,
        ) == entries.contains(other) by {
            assert(entries =~= rest.push(entry));
            if entries.contains(other) {
                let k = choose|k: int| 0 <= k < entries.len() && entries[k] == other;
                if k < rest.len() {
                    assert(rest[k] == other);
                    assert(rest.contains(other));
                }
            }
        }
    }
}

proof fn lemma_placed_descends<S: Score>(
    all: Seq<(S, ReplicaId)>,
    ranking: Seq<(S, ReplicaId)>,
    entry: (S, ReplicaId),
)
    requires
        is_ordered(all),
        descending(ranking),
        all.contains(entry),
        forall|other: (S, ReplicaId)| #[trigger]
            ranking.contains(other) ==> all.contains(other) && other.1 != entry.1,
    ensures
        descending(placed(ranking, entry)),
        forall|other: (S, ReplicaId)| #[trigger]
            placed(ranking, entry).contains(other) <==> (ranking.contains(other) || other == entry),
    decreases ranking.len(),
{
    let result = placed(ranking, entry);
    if ranking.len() > 0 && precedes(entry, ranking.last()) {
        let rest = ranking.drop_last();
        let last = ranking.last();
        assert(ranking[ranking.len() - 1] == last);
        assert(ranking.contains(last));
        assert forall|other: (S, ReplicaId)| #[trigger] rest.contains(other) implies
            ranking.contains(other) && precedes(other, last) by {
            let k = choose|k: int| 0 <= k < rest.len() && rest[k] == other;
            assert(ranking[k] == other);
        }
        lemma_placed_descends(all, rest, entry);
        let inner = placed(rest, entry);
        assert(result =~= inner.push(last));
        assert forall|i: int, j: int| 0 <= i < j < result.len() implies precedes(
            #[trigger] result[i],
            #[trigger] result[j],
        ) by {
            if j == inner.len() {
                assert(inner[i] == result[i]);
                assert(inner.contains(inner[i]));
            } else {
                assert(precedes(inner[i], inner[j]));
            }
        }
        assert forall|other: (S, ReplicaId)| #[trigger] result.contains(other) <==> (
        ranking.contains(other) || other == entry) by {
            assert(ranking =~= rest.push(last));
            if result.contains(other) {
                let k = choose|k: int| 0 <= k < result.len() && result[k] == other;
                if k < inner.len() {
                    assert(inner[k] == other);
                    assert(inner.contains(other));
                }
            }
            if ranking.contains(other) || other == entry {
                if other == last {
                    assert(result[inner.len() as int] == other);
                } else {
                    if ranking.contains(other) {
                        let k = choose|k: int| 0 <= k < ranking.len() && ranking[k] == other;
                        assert(rest[k] == other);
                        assert(rest.contains(other));
                    }
                    assert(inner.contains(other));
                    let k = choose|k: int| 0 <= k < inner.len() && inner[k] == other;
                    assert(result[k] == other);
                }
            }
        }
    } else {
        assert forall|i: int, j: int| 0 <= i < j < result.len() implies precedes(
            #[trigger] result[i],
            #[trigger] result[j],
        ) by {
            if j == ranking.len() {
                let last = ranking.last();
                assert(ranking[ranking.len() - 1] == last);
                assert(ranking.contains(last));
                assert(ranking.contains(ranking[i]));
                assert(precedes(last, entry));
                if i < ranking.len() - 1 {
                    assert(precedes(ranking[i], ranking[ranking.len() - 1]));
                }
            } else {
                assert(precedes(ranking[i], ranking[j]));
            }
        }
        assert forall|other: (S, ReplicaId)| #[trigger] result.contains(other) <==> (
        ranking.contains(other) || other == entry) by {
            if result.contains(other) {
                let k = choose|k: int| 0 <= k < result.len() && result[k] == other;
                if k < ranking.len() {
                    assert(ranking[k] == other);
                }
            }
            if ranking.contains(other) {
                let k = choose|k: int| 0 <= k < ranking.len() && ranking[k] == other;
                assert(result[k] == other);
            }
            if other == entry {
                assert(result[ranking.len() as int] == other);
            }
        }
    }
}

} // verus!
