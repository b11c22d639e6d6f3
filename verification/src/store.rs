//! Value payloads: where they are kept, fetched from, and whether a recorder
//! may acknowledge a proposal that names them.

use crate::collections;
use crate::collections::{OrdMap, OrdSet};
use crate::error;
use crate::error::{ErrorView, QuePaxaError, Result};
use crate::key::Key;
use std::marker::PhantomData;
use vstd::prelude::*;

verus! {

/// Where payloads are kept, by value ID.
pub trait ValueStore<V: Key, B> {
    /// The value IDs whose payloads are kept.
    open spec fn stored(&self) -> Set<V> {
        Set::empty()
    }

    /// Whether a payload stands under a value ID. A store that does not say
    /// leaves it open which payloads it keeps.
    open spec fn holds(&self, value_id: V, batch: B) -> bool {
        true
    }

    fn contains(&self, value_id: &V) -> (found: bool)
        ensures
            found == self.stored().contains(*value_id),
    ;

    fn get(&self, value_id: &V) -> (found: Option<&B>)
        ensures
            found is Some <==> self.stored().contains(*value_id),
            found matches Some(batch) ==> self.holds(*value_id, *batch),
    ;

    fn insert(&mut self, value_id: V, batch: B)
        ensures
            final(self).stored() == old(self).stored().insert(value_id),
            !old(self).stored().contains(value_id) ==> final(self).holds(value_id, batch),
            forall|other: V, held: B|
                other != value_id ==> #[trigger] final(self).holds(other, held) == old(self).holds(
                    other,
                    held,
                ),
    ;
}

/// Obtains payloads from elsewhere. Implementations must authenticate and
/// verify that each returned payload belongs to its value ID.
pub trait ValueFetcher<V, B> {
    /// Whether a fetch may go like this: from here, with this result, to
    /// `after`. A fetcher that does not say leaves every fetch open.
    open spec fn fetches(
        &self,
        value_ids: Seq<V>,
        fetched: std::result::Result<Seq<(V, B)>, ErrorView>,
        after: &Self,
    ) -> bool {
        true
    }

    fn fetch_values(&mut self, value_ids: &[V]) -> (fetched: Result<Vec<(V, B)>>)
        ensures
            old(self).fetches(value_ids@, fetch_outcome(fetched), final(self)),
    ;
}

/// What a fetch's result stands for.
pub open spec fn fetch_outcome<V, B>(fetched: Result<Vec<(V, B)>>) -> std::result::Result<
    Seq<(V, B)>,
    ErrorView,
> {
    match fetched {
        Ok(list) => Ok(list@),
        Err(refusal) => Err(refusal@),
    }
}

/// Verifies that a recorder can safely acknowledge a proposal's value IDs.
///
/// A production implementation should fetch missing values before returning
/// `Ok(())`; returning an error prevents consensus from deciding data the
/// recorder cannot execute.
pub trait ValueAvailability<V> {
    /// Whether asking for values may go like this: from here, with this answer,
    /// to `after`. A guard that does not say leaves every answer open.
    open spec fn provides(
        &self,
        value_ids: Seq<V>,
        available: std::result::Result<(), ErrorView>,
        after: &Self,
    ) -> bool {
        true
    }

    fn ensure_available(&mut self, value_ids: &[V]) -> (available: Result<()>)
        ensures
            old(self).provides(value_ids@, error::outcome(available), final(self)),
    ;
}

/// Explicitly permissive availability guard for deterministic simulations.
/// Do not use this in a deployment that decides IDs rather than payloads.
#[derive(Debug)]
pub struct AllowAllAvailability;

impl Default for AllowAllAvailability {
    fn default() -> (guard: Self)
        ensures
            guard == AllowAllAvailability,
    {
        AllowAllAvailability
    }
}

impl<V> ValueAvailability<V> for AllowAllAvailability {
    open spec fn provides(
        &self,
        value_ids: Seq<V>,
        available: std::result::Result<(), ErrorView>,
        after: &Self,
    ) -> bool {
        available is Ok
    }

    fn ensure_available(&mut self, value_ids: &[V]) -> (available: Result<()>) {
        Ok(())
    }
}

/// A value-availability guard backed by a store and a fetcher.
///
/// Missing IDs are fetched once per call and inserted into the store. The
/// fetcher must authenticate and verify that each returned payload belongs to
/// its value ID; this adapter rejects unrequested or duplicate returned IDs
/// and refuses to acknowledge a proposal until every requested ID is stored.
pub struct FetchingAvailability<V, B, S, F> {
    store: S,
    fetcher: F,
    marker: PhantomData<(V, B)>,
}

/// The value IDs of fetched payloads.
pub open spec fn fetched_ids<V, B>(fetched: Seq<(V, B)>) -> Seq<V> {
    fetched.map_values(|item: (V, B)| item.0)
}

/// How many returned IDs are accepted: all before the first that was not
/// requested or that came before.
pub open spec fn accepted_len<V>(requested: Set<V>, ids: Seq<V>) -> nat
    decreases ids.len(),
{
    if ids.len() == 0 {
        0
    } else {
        let before = ids.drop_last();
        if accepted_len(requested, before) == before.len() && requested.contains(ids.last())
            && !before.contains(ids.last()) {
            ids.len()
        } else {
            accepted_len(requested, before)
        }
    }
}

/// Takes in what a fetch of `missing` returned: which IDs are stored then, and
/// whether they suffice.
pub open spec fn accepted<V>(stored: Set<V>, missing: Set<V>, ids: Seq<V>) -> (
    Set<V>,
    std::result::Result<(), ErrorView>,
) {
    let count = accepted_len(missing, ids);
    let after = stored.union(ids.take(count as int).to_set());
    (
        after,
        if count < ids.len() {
            Err(
                ErrorView::InvalidProposal(
                    "value fetcher returned an unexpected or duplicate value ID"@,
                ),
            )
        } else if missing.subset_of(after) {
            Ok(())
        } else {
            Err(ErrorView::MissingValue)
        },
    )
}

/// Whether a store took in what a fetch of `missing` returned like this: every
/// accepted payload that is new stands under its own ID, and what stands under
/// other IDs stays.
pub open spec fn taken_in<V: Key, B, S: ValueStore<V, B>>(
    before: S,
    missing: Set<V>,
    fetched: Seq<(V, B)>,
    after: S,
) -> bool {
    let count = accepted_len(missing, fetched_ids(fetched));
    &&& forall|j: int|
        0 <= j < count && !before.stored().contains((#[trigger] fetched[j]).0) ==> after.holds(
            fetched[j].0,
            fetched[j].1,
        )
    &&& forall|other: V, held: B|
        !fetched_ids(fetched).take(count as int).contains(other) ==> #[trigger] after.holds(
            other,
            held,
        ) == before.holds(other, held)
}

proof fn lemma_accepted_len<V>(requested: Set<V>, ids: Seq<V>, n: int)
    requires
        0 <= n < ids.len(),
        accepted_len(requested, ids.take(n)) == n,
        !requested.contains(ids[n]) || ids.take(n).contains(ids[n]),
    ensures
        accepted_len(requested, ids) == n,
    decreases ids.len(),
{
    let before = ids.drop_last();
    if n == before.len() {
        assert(before =~= ids.take(n));
    } else {
        assert(before.take(n) =~= ids.take(n));
        lemma_accepted_len(requested, before, n);
    }
}

impl<V: Key, B, S: ValueStore<V, B>, F: ValueFetcher<V, B>> FetchingAvailability<V, B, S, F> {
    pub fn new(store: S, fetcher: F) -> (guard: Self)
        ensures
            guard.payloads() == store,
            guard.source() == fetcher,
    {
        FetchingAvailability { store, fetcher, marker: PhantomData }
    }

    /// The store behind the guard.
    pub closed spec fn payloads(self) -> S {
        self.store
    }

    /// The store behind the guard.
    pub fn store(&self) -> (store: &S)
        ensures
            *store == self.payloads(),
    {
        &self.store
    }

    /// The fetcher behind the guard.
    pub closed spec fn source(self) -> F {
        self.fetcher
    }

    /// The fetcher behind the guard.
    pub fn fetcher(&self) -> (fetcher: &F)
        ensures
            *fetcher == self.source(),
    {
        &self.fetcher
    }

    /// The requested IDs that are not stored, each once, in ascending order.
    pub fn missing_values(&self, value_ids: &[V]) -> (missing: Vec<V>)
        ensures
            missing@ == collections::in_order(
                value_ids@.to_set().difference(self.payloads().stored()),
            ),
            missing@.to_set() == value_ids@.to_set().difference(self.payloads().stored()),
    {
        let mut missing: OrdSet<V> = OrdSet::new();
        let mut i: usize = 0;
        while i < value_ids.len()
            invariant
                i <= value_ids@.len(),
                missing@ == value_ids@.take(i as int).to_set().difference(self.payloads().stored()),
            decreases value_ids@.len() - i,
        {
            let ghost before = value_ids@.take(i as int);
            proof {
                assert(value_ids@.take(i + 1) =~= before.push(value_ids@[i as int]));
                before.lemma_push_to_set_commute(value_ids@[i as int]);
            }
            if !self.store.contains(&value_ids[i]) {
                let _ = missing.insert(value_ids[i].duplicate());
            }
            assert(missing@ =~= value_ids@.take(i + 1).to_set().difference(
                self.payloads().stored(),
            ));
            i += 1;
        }
        assert(value_ids@.take(i as int) =~= value_ids@);
        missing.to_vec()
    }

    /// Stores what a fetch of `missing` returned. An unrequested or repeated ID
    /// ends the acceptance with an error; what came before it is stored.
    pub fn accept_fetched(&mut self, missing: &[V], fetched: Vec<(V, B)>) -> (result: Result<()>)
        ensures
            final(self).source() == old(self).source(),
            (final(self).payloads().stored(), error::outcome(result)) == accepted(
                old(self).payloads().stored(),
                missing@.to_set(),
                fetched_ids(fetched@),
            ),
            taken_in(
                old(self).payloads(),
                missing@.to_set(),
                fetched@,
                final(self).payloads(),
            ),
    {
        let requested: OrdSet<V> = OrdSet::from_slice(missing);
        let mut returned: OrdSet<V> = OrdSet::new();
        let ghost ids = fetched_ids(fetched@);
        let ghost all = fetched@;
        let ghost start = self.payloads().stored();
        let count: usize = fetched.len();
        let mut rest: Vec<(V, B)> = fetched;
        let mut i: usize = 0;
        assert(self.payloads().stored() =~= start.union(ids.take(0).to_set()));
        while i < count
            invariant
                i <= count == all.len(),
                all == fetched@,
                ids == fetched_ids(all),
                rest@ == all.skip(i as int),
                requested@ == missing@.to_set(),
                returned@ == ids.take(i as int).to_set(),
                accepted_len(missing@.to_set(), ids.take(i as int)) == i,
                self.payloads().stored() == start.union(ids.take(i as int).to_set()),
                start == old(self).payloads().stored(),
                forall|j: int|
                    0 <= j < i && !start.contains((#[trigger] all[j]).0) ==> self.payloads().holds(
                        all[j].0,
                        all[j].1,
                    ),
                forall|other: V, held: B|
                    !ids.take(i as int).contains(other) ==> #[trigger] self.payloads().holds(
                        other,
                        held,
                    ) == old(self).payloads().holds(other, held),
                self.source() == old(self).source(),
            decreases count - i,
        {
            let ghost before = ids.take(i as int);
            let (value_id, batch) = rest.remove(0);
            proof {
                assert(all.skip(i as int)[0] == all[i as int]);
                assert(value_id == ids[i as int]);
                assert(rest@ =~= all.skip(i + 1));
                assert(ids.take(i + 1) =~= before.push(value_id));
                assert(ids.take(i + 1).drop_last() =~= before);
                before.lemma_push_to_set_commute(value_id);
            }
            if !requested.contains(&value_id) || !returned.insert(value_id.duplicate()) {
                proof {
                    if requested@.contains(value_id) {
                        assert(before.to_set().contains(value_id));
                    }
                    lemma_accepted_len(missing@.to_set(), ids, i as int);
                }
                return Err(
                    QuePaxaError::InvalidProposal(
                        "value fetcher returned an unexpected or duplicate value ID".to_owned(),
                    ),
                );
            }
            assert(!before.contains(value_id)) by {
                if before.contains(value_id) {
                    assert(before.to_set().contains(value_id));
                }
            }
            let ghost held = self.payloads();
            self.store.insert(value_id, batch);
            assert(self.payloads().stored() =~= start.union(ids.take(i + 1).to_set()));
            proof {
                assert forall|j: int|
                    0 <= j < i + 1 && !start.contains((#[trigger] all[j]).0) implies self.payloads().holds(
                    all[j].0,
                    all[j].1,
                ) by {
                    if j < i {
                        assert(before[j] == all[j].0);
                        assert(before.contains(all[j].0));
                        assert(held.holds(all[j].0, all[j].1));
                    } else {
                        assert(!before.to_set().contains(value_id));
                    }
                }
                assert forall|other: V, batch: B|
                    !ids.take(i + 1).contains(other) implies #[trigger] self.payloads().holds(
                    other,
                    batch,
                ) == old(self).payloads().holds(other, batch) by {
                    assert(ids.take(i + 1)[i as int] == value_id);
                    if before.contains(other) {
                        let k = collections::place(before, other);
                        assert(ids.take(i + 1)[k] == other);
                    }
                    assert(held.holds(other, batch) == old(self).payloads().holds(other, batch));
                }
            }
            i += 1;
        }
        assert(ids.take(count as int) =~= ids);
        assert(taken_in(old(self).payloads(), missing@.to_set(), all, self.payloads()));
        let mut k: usize = 0;
        while k < missing.len()
            invariant
                k <= missing@.len(),
                ids == fetched_ids(fetched@),
                ids.take(ids.len() as int) == ids,
                accepted_len(missing@.to_set(), ids) == ids.len(),
                self.payloads().stored() == old(self).payloads().stored().union(ids.to_set()),
                self.source() == old(self).source(),
                taken_in(
                    old(self).payloads(),
                    missing@.to_set(),
                    fetched@,
                    self.payloads(),
                ),
                forall|j: int|
                    0 <= j < k ==> self.payloads().stored().contains(#[trigger] missing@[j]),
            decreases missing@.len() - k,
        {
            if !self.store.contains(&missing[k]) {
                assert(missing@.to_set().contains(missing@[k as int]));
                return Err(QuePaxaError::MissingValue);
            }
            k += 1;
        }
        Ok(())
    }
}

impl<V: Key, B, S: ValueStore<V, B>, F: ValueFetcher<V, B>> ValueAvailability<
    V,
> for FetchingAvailability<V, B, S, F> {
    /// Nothing is fetched where every ID is stored; otherwise the missing ones
    /// are, each once and in ascending order, and what comes is taken in.
    open spec fn provides(
        &self,
        value_ids: Seq<V>,
        available: std::result::Result<(), ErrorView>,
        after: &Self,
    ) -> bool {
        let missing = value_ids.to_set().difference(self.payloads().stored());
        if missing == Set::<V>::empty() {
            *after == *self && available is Ok
        } else {
            exists|fetched: std::result::Result<Seq<(V, B)>, ErrorView>| #[trigger]
                self.source().fetches(collections::in_order(missing), fetched, &after.source())
                    && match fetched {
                    Err(refusal) => {
                        &&& after.payloads() == self.payloads()
                        &&& available == Err::<(), ErrorView>(refusal)
                    },
                    Ok(list) => {
                        &&& (after.payloads().stored(), available) == accepted(
                            self.payloads().stored(),
                            missing,
                            fetched_ids(list),
                        )
                        &&& taken_in(self.payloads(), missing, list, after.payloads())
                    },
                }
        }
    }

    /// Fetches what is missing. When every ID is stored nothing is fetched;
    /// success means that every ID is stored, and only requested IDs are added.
    fn ensure_available(&mut self, value_ids: &[V]) -> (available: Result<()>)
        ensures
            value_ids@.to_set().subset_of(old(self).payloads().stored()) ==> available is Ok
                && final(self).payloads().stored() == old(self).payloads().stored(),
            available is Ok ==> value_ids@.to_set().subset_of(final(self).payloads().stored()),
            old(self).payloads().stored().subset_of(final(self).payloads().stored()),
            final(self).payloads().stored().subset_of(
                old(self).payloads().stored().union(value_ids@.to_set()),
            ),
    {
        let missing: Vec<V> = self.missing_values(value_ids);
        if missing.is_empty() {
            assert(value_ids@.to_set().difference(self.payloads().stored()) =~= Set::<V>::empty())
                by {
                assert(missing@.to_set() =~= Set::<V>::empty());
            }
            assert(value_ids@.to_set().subset_of(self.payloads().stored())) by {
                assert(missing@.to_set() =~= Set::<V>::empty());
                assert forall|k: V| value_ids@.to_set().contains(
                    k,
                ) implies self.payloads().stored().contains(k) by {
                    if !self.payloads().stored().contains(k) {
                        assert(missing@.to_set().contains(k));
                    }
                }
            }
            return Ok(());
        }
        proof {
            assert(missing@.to_set().contains(missing@[0]));
        }
        let answer: Result<Vec<(V, B)>> = self.fetcher.fetch_values(missing.as_slice());
        let ghost outcome = fetch_outcome(answer);
        assert(old(self).source().fetches(missing@, outcome, &self.source()));
        let fetched: Vec<(V, B)> = match answer {
            Ok(fetched) => fetched,
            Err(refusal) => return Err(refusal),
        };
        let ghost ids = fetched_ids(fetched@);
        let result = self.accept_fetched(missing.as_slice(), fetched);
        proof {
            lemma_accepted_are_requested(missing@.to_set(), ids);
        }
        result
    }
}

proof fn lemma_accepted_are_requested<V>(requested: Set<V>, ids: Seq<V>)
    ensures
        accepted_len(requested, ids) <= ids.len(),
        ids.take(accepted_len(requested, ids) as int).to_set().subset_of(requested),
    decreases ids.len(),
{
    let n = accepted_len(requested, ids) as int;
    if ids.len() > 0 {
        let before = ids.drop_last();
        lemma_accepted_are_requested(requested, before);
        let m = accepted_len(requested, before) as int;
        if n == m {
            assert(before.take(m) =~= ids.take(m));
        } else {
            assert(before.take(m) =~= before);
            assert(ids.take(n) =~= before.push(ids.last()));
            before.lemma_push_to_set_commute(ids.last());
        }
    } else {
        assert(ids.take(0).to_set() =~= Set::<V>::empty());
    }
}

/// An acknowledged value has its own payload: what was missing stands under its
/// ID as the fetcher returned it for that ID, and what was stored before stays
/// as it is.
pub proof fn acknowledged_values_are_held<V: Key, B, S: ValueStore<V, B>, F: ValueFetcher<V, B>>(
    before: &FetchingAvailability<V, B, S, F>,
    value_ids: Seq<V>,
    after: &FetchingAvailability<V, B, S, F>,
) -> (fetched: Seq<(V, B)>)
    requires
        before.provides(value_ids, Ok(()), after),
    ensures
        ({
            let missing = value_ids.to_set().difference(before.payloads().stored());
            missing != Set::<V>::empty() ==> before.source().fetches(
                collections::in_order(missing),
                Ok(fetched),
                &after.source(),
            )
        }),
        forall|id: V| #[trigger]
            value_ids.contains(id) && !before.payloads().stored().contains(id) ==> exists|j: int|
                0 <= j < fetched.len() && (#[trigger] fetched[j]).0 == id
                    && after.payloads().holds(id, fetched[j].1),
        forall|id: V, batch: B|
            before.payloads().stored().contains(id) ==> #[trigger] after.payloads().holds(id, batch)
                == before.payloads().holds(id, batch),
{
    let stored = before.payloads().stored();
    let missing = value_ids.to_set().difference(stored);
    if missing == Set::<V>::empty() {
        assert forall|id: V| #[trigger] value_ids.contains(id) implies stored.contains(id) by {
            assert(!missing.contains(id));
        }
        Seq::empty()
    } else {
        let answer = choose|fetched: std::result::Result<Seq<(V, B)>, ErrorView>| #[trigger]
            before.source().fetches(collections::in_order(missing), fetched, &after.source())
                && match fetched {
                Err(refusal) => {
                    &&& after.payloads() == before.payloads()
                    &&& Ok::<(), ErrorView>(()) == Err::<(), ErrorView>(refusal)
                },
                Ok(list) => {
                    &&& (after.payloads().stored(), Ok::<(), ErrorView>(())) == accepted(
                        stored,
                        missing,
                        fetched_ids(list),
                    )
                    &&& taken_in(before.payloads(), missing, list, after.payloads())
                },
            };
        let fetched = answer->Ok_0;
        let ids = fetched_ids(fetched);
        lemma_accepted_are_requested(missing, ids);
        assert(accepted_len(missing, ids) == ids.len());
        assert(ids.take(ids.len() as int) =~= ids);
        assert forall|id: V| #[trigger]
            value_ids.contains(id) && !stored.contains(id) implies exists|j: int|
            0 <= j < fetched.len() && (#[trigger] fetched[j]).0 == id && after.payloads().holds(
                id,
                fetched[j].1,
            ) by {
            assert(missing.contains(id));
            assert(ids.to_set().contains(id));
            let j = collections::place(ids, id);
            assert(ids[j] == id);
            assert(fetched[j].0 == id);
        }
        assert forall|id: V, batch: B|
            stored.contains(id) implies #[trigger] after.payloads().holds(id, batch)
            == before.payloads().holds(id, batch) by {
            if ids.contains(id) {
                assert(ids.to_set().contains(id));
            }
        }
        fetched
    }
}

proof fn lemma_all_accepted<V>(requested: Set<V>, ids: Seq<V>)
    ensures
        accepted_len(requested, ids) <= ids.len(),
        accepted_len(requested, ids) == ids.len() <==> ids.no_duplicates() && forall|i: int|
            0 <= i < ids.len() ==> requested.contains(#[trigger] ids[i]),
    decreases ids.len(),
{
    if ids.len() > 0 {
        let before = ids.drop_last();
        let last = ids.len() - 1;
        lemma_all_accepted(requested, before);
        assert(ids =~= before.push(ids.last()));
        if accepted_len(requested, ids) == ids.len() {
            assert forall|i: int| 0 <= i < ids.len() implies requested.contains(
                #[trigger] ids[i],
            ) by {
                if i < last {
                    assert(before[i] == ids[i]);
                }
            }
        }
        if ids.no_duplicates() && forall|i: int|
            0 <= i < ids.len() ==> requested.contains(#[trigger] ids[i]) {
            assert forall|i: int| 0 <= i < before.len() implies requested.contains(
                #[trigger] before[i],
            ) by {
                assert(ids[i] == before[i]);
            }
            assert(requested.contains(ids[last]));
            if before.contains(ids.last()) {
                let p = collections::place(before, ids.last());
                assert(ids[p] == ids[last]);
            }
        }
    }
}

/// A fetch succeeds exactly where it brings each value at most once, none that
/// was not asked for, and leaves none of those asked for missing. What was
/// stored before stays stored.
pub proof fn fetches_bring_what_was_asked<V>(stored: Set<V>, missing: Set<V>, ids: Seq<V>)
    ensures
        stored.subset_of(accepted(stored, missing, ids).0),
        match accepted(stored, missing, ids).1 {
            Ok(()) => {
                &&& ids.no_duplicates()
                &&& forall|i: int| 0 <= i < ids.len() ==> missing.contains(#[trigger] ids[i])
                &&& forall|value: V| #[trigger]
                    missing.contains(value) ==> stored.contains(value) || ids.contains(value)
                &&& accepted(stored, missing, ids).0 == stored.union(ids.to_set())
            },
            Err(refusal) => {
                if ids.no_duplicates() && forall|i: int|
                    0 <= i < ids.len() ==> missing.contains(#[trigger] ids[i]) {
                    &&& refusal == ErrorView::MissingValue
                    &&& exists|value: V| #[trigger]
                        missing.contains(value) && !stored.contains(value) && !ids.contains(value)
                } else {
                    refusal is InvalidProposal
                }
            },
        },
{
    lemma_all_accepted(missing, ids);
    let (after, result) = accepted(stored, missing, ids);
    if accepted_len(missing, ids) == ids.len() {
        assert(ids.take(ids.len() as int) =~= ids);
        assert(after == stored.union(ids.to_set()));
        if result is Ok {
            assert forall|value: V| #[trigger] missing.contains(value) implies stored.contains(
                value,
            ) || ids.contains(value) by {
                assert(after.contains(value));
            }
        } else {
            let value = choose|value: V| #[trigger] missing.contains(value) && !after.contains(value);
            assert(missing.contains(value));
            assert(!ids.to_set().contains(value));
        }
    }
}

/// Payloads kept in memory; the first payload stored under an ID stays.
#[derive(Debug)]
pub struct InMemoryValueStore<V: Key, B: View> {
    values: OrdMap<V, B>,
}

impl<V: Key, B: View> View for InMemoryValueStore<V, B> {
    type V = Map<V, B::V>;

    closed spec fn view(&self) -> Map<V, B::V> {
        self.values@
    }
}

impl<V: Key, B: View> InMemoryValueStore<V, B> {
    pub fn new() -> (store: Self)
        ensures
            store@ == Map::<V, B::V>::empty(),
    {
        InMemoryValueStore { values: OrdMap::new() }
    }

    pub fn len(&self) -> (count: usize)
        ensures
            count == self@.len(),
    {
        self.values.len()
    }

    pub fn is_empty(&self) -> (empty: bool)
        ensures
            empty == (self@ == Map::<V, B::V>::empty()),
    {
        self.values.is_empty()
    }
}

impl<V: Key, B: View> Default for InMemoryValueStore<V, B> {
    fn default() -> (store: Self)
        ensures
            store@ == Map::<V, B::V>::empty(),
    {
        InMemoryValueStore::new()
    }
}

impl<V: Key, B: View> ValueStore<V, B> for InMemoryValueStore<V, B> {
    open spec fn stored(&self) -> Set<V> {
        self@.dom()
    }

    open spec fn holds(&self, value_id: V, batch: B) -> bool {
        self@.dom().contains(value_id) && self@[value_id] == batch@
    }

    fn contains(&self, value_id: &V) -> (found: bool) {
        self.values.contains_key(value_id)
    }

    fn get(&self, value_id: &V) -> (found: Option<&B>)
        ensures
            found matches Some(batch) ==> batch@ == self@[*value_id],
    {
        self.values.get(value_id)
    }

    fn insert(&mut self, value_id: V, batch: B)
        ensures
            final(self)@ == if old(self)@.dom().contains(value_id) {
                old(self)@
            } else {
                old(self)@.insert(value_id, batch@)
            },
    {
        if !self.values.contains_key(&value_id) {
            self.values.insert(value_id, batch);
        }
        assert(self.stored() =~= old(self).stored().insert(value_id));
    }
}

} // verus!
