//! Identifiers, proposals and decisions.

use crate::error::{ErrorView, QuePaxaError, Result};
use crate::key::{Duplicate, Key};
use vstd::prelude::*;

verus! {

/// The first step at which proposals are made: round one, phase zero.
pub const ROUND_ONE_PHASE_ZERO: u64 = 4;

/// Identity of one replica.
#[derive(Debug, Clone, Copy, PartialEq, Eq, PartialOrd, Ord, Hash, Structural)]
pub struct ReplicaId(pub u64);

impl View for ReplicaId {
    type V = ReplicaId;

    open spec fn view(&self) -> ReplicaId {
        *self
    }
}

impl ReplicaId {
    pub fn new(value: u64) -> (created: Self)
        ensures
            created == ReplicaId(value),
    {
        ReplicaId(value)
    }

    pub fn get(self) -> (value: u64)
        ensures
            value == self.0,
    {
        self.0
    }
}

impl From<u64> for ReplicaId {
    fn from(value: u64) -> (created: Self) {
        ReplicaId(value)
    }
}

impl vstd::std_specs::convert::FromSpecImpl<u64> for ReplicaId {
    open spec fn obeys_from_spec() -> bool {
        true
    }

    open spec fn from_spec(value: u64) -> Self {
        ReplicaId(value)
    }
}

impl Key for ReplicaId {
    open spec fn rank(self) -> int {
        self.0 as int
    }

    proof fn rank_is_injective(a: Self, b: Self) {
    }

    fn precedes(&self, other: &Self) -> (earlier: bool) {
        self.0 < other.0
    }

    fn same(&self, other: &Self) -> (equal: bool) {
        self.0 == other.0
    }

    fn duplicate(&self) -> (copy: Self) {
        *self
    }
}

/// A proposer's lane: two lanes of one replica never propose under one key.
#[derive(Debug, Clone, Copy, PartialEq, Eq, PartialOrd, Ord, Hash, Structural)]
pub struct LaneId(pub u64);

impl View for LaneId {
    type V = LaneId;

    open spec fn view(&self) -> LaneId {
        *self
    }
}

impl LaneId {
    pub fn new(value: u64) -> (created: Self)
        ensures
            created == LaneId(value),
    {
        LaneId(value)
    }

    pub fn get(self) -> (value: u64)
        ensures
            value == self.0,
    {
        self.0
    }
}

impl From<u64> for LaneId {
    fn from(value: u64) -> (created: Self) {
        LaneId(value)
    }
}

impl vstd::std_specs::convert::FromSpecImpl<u64> for LaneId {
    open spec fn obeys_from_spec() -> bool {
        true
    }

    open spec fn from_spec(value: u64) -> Self {
        LaneId(value)
    }
}

/// Position in the replicated log.
#[derive(Debug, Clone, Copy, PartialEq, Eq, PartialOrd, Ord, Hash, Structural)]
pub struct SlotIndex(pub u64);

impl View for SlotIndex {
    type V = SlotIndex;

    open spec fn view(&self) -> SlotIndex {
        *self
    }
}

impl SlotIndex {
    pub fn new(value: u64) -> (created: Self)
        ensures
            created == SlotIndex(value),
    {
        SlotIndex(value)
    }

    pub fn get(self) -> (value: u64)
        ensures
            value == self.0,
    {
        self.0
    }
}

impl From<u64> for SlotIndex {
    fn from(value: u64) -> (created: Self) {
        SlotIndex(value)
    }
}

impl vstd::std_specs::convert::FromSpecImpl<u64> for SlotIndex {
    open spec fn obeys_from_spec() -> bool {
        true
    }

    open spec fn from_spec(value: u64) -> Self {
        SlotIndex(value)
    }
}

impl Key for SlotIndex {
    open spec fn rank(self) -> int {
        self.0 as int
    }

    proof fn rank_is_injective(a: Self, b: Self) {
    }

    fn precedes(&self, other: &Self) -> (earlier: bool) {
        self.0 < other.0
    }

    fn same(&self, other: &Self) -> (equal: bool) {
        self.0 == other.0
    }

    fn duplicate(&self) -> (copy: Self) {
        *self
    }
}

impl SlotIndex {
    /// The next one; the last one stays.
    pub fn next(self) -> (next: Self)
        ensures
            next.0 == if self.0 == u64::MAX { u64::MAX as int } else { self.0 + 1 },
    {
        SlotIndex(self.0.saturating_add(1))
    }

    /// The next one, if there is one.
    pub fn checked_next(self) -> (next: Option<Self>)
        ensures
            next == self.successor(),
    {
        match self.0.checked_add(1) {
            Some(value) => Some(SlotIndex(value)),
            None => None,
        }
    }

    /// The next one, if there is one.
    pub open spec fn successor(self) -> Option<Self> {
        if self.0 == u64::MAX {
            None
        } else {
            Some(SlotIndex((self.0 + 1) as u64))
        }
    }
}

/// Logical time within a slot, four phases to a round.
#[derive(Debug, Clone, Copy, PartialEq, Eq, PartialOrd, Ord, Hash, Structural)]
pub struct Step(pub u64);

impl View for Step {
    type V = Step;

    open spec fn view(&self) -> Step {
        *self
    }
}

impl Step {
    pub fn new(value: u64) -> (created: Self)
        ensures
            created == Step(value),
    {
        Step(value)
    }

    pub fn get(self) -> (value: u64)
        ensures
            value == self.0,
    {
        self.0
    }
}

impl From<u64> for Step {
    fn from(value: u64) -> (created: Self) {
        Step(value)
    }
}

impl vstd::std_specs::convert::FromSpecImpl<u64> for Step {
    open spec fn obeys_from_spec() -> bool {
        true
    }

    open spec fn from_spec(value: u64) -> Self {
        Step(value)
    }
}

impl Key for Step {
    open spec fn rank(self) -> int {
        self.0 as int
    }

    proof fn rank_is_injective(a: Self, b: Self) {
    }

    fn precedes(&self, other: &Self) -> (earlier: bool) {
        self.0 < other.0
    }

    fn same(&self, other: &Self) -> (equal: bool) {
        self.0 == other.0
    }

    fn duplicate(&self) -> (copy: Self) {
        *self
    }
}

impl Step {
    /// The next one; the last one stays.
    pub fn next(self) -> (next: Self)
        ensures
            next.0 == if self.0 == u64::MAX { u64::MAX as int } else { self.0 + 1 },
    {
        Step(self.0.saturating_add(1))
    }

    /// The next one, if there is one.
    pub fn checked_next(self) -> (next: Option<Self>)
        ensures
            next == self.successor(),
    {
        match self.0.checked_add(1) {
            Some(value) => Some(Step(value)),
            None => None,
        }
    }

    /// The next one, if there is one.
    pub open spec fn successor(self) -> Option<Self> {
        if self.0 == u64::MAX {
            None
        } else {
            Some(Step((self.0 + 1) as u64))
        }
    }
}

/// Priority of a proposal; the greatest one is reserved for the leader.
#[derive(Debug, Clone, Copy, PartialEq, Eq, PartialOrd, Ord, Hash, Structural)]
pub struct Priority(pub u64);

impl View for Priority {
    type V = Priority;

    open spec fn view(&self) -> Priority {
        *self
    }
}

impl Priority {
    pub fn new(value: u64) -> (created: Self)
        ensures
            created == Priority(value),
    {
        Priority(value)
    }

    pub fn get(self) -> (value: u64)
        ensures
            value == self.0,
    {
        self.0
    }
}

impl From<u64> for Priority {
    fn from(value: u64) -> (created: Self) {
        Priority(value)
    }
}

impl vstd::std_specs::convert::FromSpecImpl<u64> for Priority {
    open spec fn obeys_from_spec() -> bool {
        true
    }

    open spec fn from_spec(value: u64) -> Self {
        Priority(value)
    }
}

impl Default for SlotIndex {
    fn default() -> (slot: Self)
        ensures
            slot == SlotIndex(0),
    {
        SlotIndex(0)
    }
}

impl SlotIndex {
    /// The slot before the first: always committed, never proposed for.
    pub fn genesis() -> (slot: Self)
        ensures
            slot == SlotIndex(0),
    {
        SlotIndex(0)
    }
}

impl Step {
    /// Before any proposal.
    pub fn initial() -> (step: Self)
        ensures
            step == Step(0),
    {
        Step(0)
    }

    /// Round one, phase zero.
    pub fn round_one_phase_zero() -> (step: Self)
        ensures
            step == Step(ROUND_ONE_PHASE_ZERO),
    {
        Step(ROUND_ONE_PHASE_ZERO)
    }

    /// The step of a round and phase, if it can be counted.
    pub fn checked_from_round_phase(round: u64, phase: u8) -> (step: Option<Self>)
        ensures
            step == if round * 4 + phase <= u64::MAX {
                Some(Step((round * 4 + phase) as u64))
            } else {
                None
            },
    {
        match round.checked_mul(4) {
            Some(first) => match first.checked_add(phase as u64) {
                Some(value) => Some(Step(value)),
                None => None,
            },
            None => None,
        }
    }

    /// The phase within the round.
    pub fn phase(self) -> (phase: u8)
        ensures
            phase == self.0 % 4,
    {
        (self.0 % 4) as u8
    }

    /// Whether this step directly follows `previous`.
    pub fn is_next_after(self, previous: Self) -> (follows: bool)
        ensures
            follows == (self.0 == previous.0 + 1),
    {
        previous.0 < self.0 && self.0 - previous.0 == 1
    }
}

impl Priority {
    /// The least priority.
    pub fn min() -> (priority: Self)
        ensures
            priority == Priority(0),
    {
        Priority(0)
    }

    /// The priority reserved for the round-one leader.
    pub fn max() -> (priority: Self)
        ensures
            priority == Priority(u64::MAX),
    {
        Priority(u64::MAX)
    }

    /// Whether this is the priority reserved for the leader.
    pub fn is_leader_priority(self) -> (reserved: bool)
        ensures
            reserved == (self.0 == u64::MAX),
    {
        self.0 == u64::MAX
    }
}

/// The view of an optional value.
pub open spec fn option_view<T: View>(value: Option<T>) -> Option<T::V> {
    match value {
        Some(inner) => Some(inner@),
        None => None,
    }
}

/// The views of a list.
pub open spec fn list_view<T: View>(list: Seq<T>) -> Seq<T::V> {
    list.map_values(|value: T| value@)
}

/// A copy of an optional value.
pub fn duplicate_option<T: Duplicate>(value: &Option<T>) -> (copy: Option<T>)
    ensures
        option_view(copy) == option_view(*value),
{
    match value {
        Some(inner) => Some(inner.duplicate_value()),
        None => None,
    }
}

/// A copy of a list.
pub fn duplicate_list<T: Duplicate>(list: &[T]) -> (copy: Vec<T>)
    ensures
        list_view(copy@) == list_view(list@),
{
    let mut copy: Vec<T> = Vec::new();
    let mut i: usize = 0;
    while i < list.len()
        invariant
            i <= list@.len(),
            copy@.len() == i,
            forall|j: int| 0 <= j < i ==> (#[trigger] copy@[j])@ == list@[j]@,
        decreases list@.len() - i,
    {
        copy.push(list[i].duplicate_value());
        i += 1;
    }
    assert(list_view(copy@) =~= list_view(list@));
    copy
}

/// A copy of a list of keys.
pub fn duplicate_keys<V: Key>(list: &[V]) -> (copy: Vec<V>)
    ensures
        copy@ == list@,
{
    let mut copy: Vec<V> = Vec::new();
    let mut i: usize = 0;
    while i < list.len()
        invariant
            i <= list@.len(),
            copy@ == list@.take(i as int),
        decreases list@.len() - i,
    {
        copy.push(list[i].duplicate());
        assert(list@.take(i + 1) =~= list@.take(i as int).push(list@[i as int]));
        i += 1;
    }
    assert(copy@ =~= list@);
    copy
}

/// Whether a list holds a key.
pub fn list_contains<V: Key>(list: &[V], wanted: &V) -> (found: bool)
    ensures
        found == list@.contains(*wanted),
{
    let mut i: usize = 0;
    while i < list.len()
        invariant
            i <= list@.len(),
            forall|j: int| 0 <= j < i ==> list@[j] != *wanted,
        decreases list@.len() - i,
    {
        if list[i].same(wanted) {
            assert(list@[i as int] == *wanted);
            return true;
        }
        i += 1;
    }
    false
}

/// Whether two lists of keys are the same.
pub fn same_list<V: Key>(a: &[V], b: &[V]) -> (equal: bool)
    ensures
        equal == (a@ == b@),
{
    if a.len() != b.len() {
        return false;
    }
    let mut i: usize = 0;
    while i < a.len()
        invariant
            i <= a@.len() == b@.len(),
            forall|j: int| 0 <= j < i ==> a@[j] == b@[j],
        decreases a@.len() - i,
    {
        if !a[i].same(&b[i]) {
            assert(a@[i as int] != b@[i as int]);
            return false;
        }
        i += 1;
    }
    assert(a@ =~= b@);
    true
}

/// Whether a list repeats none of its keys.
pub fn all_different<V: Key>(list: &[V]) -> (different: bool)
    ensures
        different == list@.no_duplicates(),
{
    let unique: crate::collections::OrdSet<V> = crate::collections::OrdSet::from_slice(list);
    let count: usize = unique.len();
    proof {
        if count == list@.len() {
            list@.lemma_no_dup_set_cardinality();
        } else if list@.no_duplicates() {
            list@.unique_seq_to_set();
        }
    }
    count == list.len()
}

/// What a proposal competes by: priority first, then proposer, then lane.
#[derive(Debug, Clone, Copy, PartialEq, Eq, PartialOrd, Ord, Hash, Structural)]
pub struct ProposalKey {
    pub priority: Priority,
    pub proposer_id: ReplicaId,
    pub lane_id: LaneId,
}

impl ProposalKey {
    /// Creates a proposal key.
    ///
    /// A `(priority, proposer_id, lane_id)` triple must identify at most one
    /// value for a slot. The proposer's priority source is expected to draw
    /// independent priorities, while `proposer_id` and `lane_id` break real
    /// priority ties.
    pub fn new(priority: Priority, proposer_id: ReplicaId, lane_id: LaneId) -> (key: Self)
        ensures
            key == (ProposalKey { priority, proposer_id, lane_id }),
    {
        ProposalKey { priority, proposer_id, lane_id }
    }

    /// Lexicographic order: this key loses against `other`.
    pub open spec fn below(self, other: ProposalKey) -> bool {
        ||| self.priority.0 < other.priority.0
        ||| self.priority == other.priority && self.proposer_id.0 < other.proposer_id.0
        ||| self.priority == other.priority && self.proposer_id == other.proposer_id
            && self.lane_id.0 < other.lane_id.0
    }

    /// Whether this key loses against `other`.
    pub fn is_below(&self, other: &ProposalKey) -> (loses: bool)
        ensures
            loses == self.below(*other),
    {
        if self.priority.0 != other.priority.0 {
            self.priority.0 < other.priority.0
        } else if self.proposer_id.0 != other.proposer_id.0 {
            self.proposer_id.0 < other.proposer_id.0
        } else {
            self.lane_id.0 < other.lane_id.0
        }
    }
}

/// Value IDs put forward for a slot under a key.
#[derive(Debug, PartialEq, Eq)]
pub struct Proposal<V> {
    pub key: ProposalKey,
    pub value_ids: Vec<V>,
}

/// A proposal with its value IDs as a sequence.
#[verifier::ext_equal]
pub struct ProposalView<V> {
    pub key: ProposalKey,
    pub value_ids: Seq<V>,
}

impl<V> View for Proposal<V> {
    type V = ProposalView<V>;

    open spec fn view(&self) -> ProposalView<V> {
        ProposalView { key: self.key, value_ids: self.value_ids@ }
    }
}

impl<V> Proposal<V> {
    /// A proposal; it must name a value.
    pub fn new(key: ProposalKey, value_ids: Vec<V>) -> (created: Result<Self>)
        ensures
            crate::error::outcome(created) == if value_ids@.len() == 0 {
                Err::<ProposalView<V>, ErrorView>(ErrorView::EmptyProposal)
            } else {
                Ok(ProposalView { key, value_ids: value_ids@ })
            },
    {
        if value_ids.is_empty() {
            return Err(QuePaxaError::EmptyProposal);
        }
        Ok(Proposal { key, value_ids })
    }
}

impl<V> ProposalView<V> {
    /// The same values under another priority.
    pub open spec fn with_priority(self, priority: Priority) -> Self {
        ProposalView { key: ProposalKey { priority, ..self.key }, value_ids: self.value_ids }
    }
}

impl<V: Key> Proposal<V> {
    /// The same values under another priority.
    pub fn with_priority(&self, priority: Priority) -> (changed: Self)
        ensures
            changed@ == self@.with_priority(priority),
    {
        Proposal {
            key: ProposalKey {
                priority,
                proposer_id: self.key.proposer_id,
                lane_id: self.key.lane_id,
            },
            value_ids: duplicate_keys(self.value_ids.as_slice()),
        }
    }

    /// Whether two proposals are equal in every field.
    pub fn same_proposal(&self, other: &Proposal<V>) -> (equal: bool)
        ensures
            equal == (self@ == other@),
    {
        self.key == other.key && same_list(self.value_ids.as_slice(), other.value_ids.as_slice())
    }
}

impl<V: Key> Duplicate for Proposal<V> {
    fn duplicate_value(&self) -> (copy: Self) {
        Proposal { key: self.key, value_ids: duplicate_keys(self.value_ids.as_slice()) }
    }
}

/// The values chosen for a slot.
#[derive(Debug, PartialEq, Eq)]
pub struct Decision<V> {
    pub slot: SlotIndex,
    pub value_ids: Vec<V>,
    pub proposer: ReplicaId,
    pub decided_step: Step,
}

/// A decision with its value IDs as a sequence.
#[verifier::ext_equal]
pub struct DecisionView<V> {
    pub slot: SlotIndex,
    pub value_ids: Seq<V>,
    pub proposer: ReplicaId,
    pub decided_step: Step,
}

impl<V> View for Decision<V> {
    type V = DecisionView<V>;

    open spec fn view(&self) -> DecisionView<V> {
        DecisionView {
            slot: self.slot,
            value_ids: self.value_ids@,
            proposer: self.proposer,
            decided_step: self.decided_step,
        }
    }
}

impl<V> Decision<V> {
    /// A decision; it must name a value.
    pub fn new(
        slot: SlotIndex,
        value_ids: Vec<V>,
        proposer: ReplicaId,
        decided_step: Step,
    ) -> (created: Result<Self>)
        ensures
            crate::error::outcome(created) == if value_ids@.len() == 0 {
                Err::<DecisionView<V>, ErrorView>(ErrorView::EmptyDecision)
            } else {
                Ok(DecisionView { slot, value_ids: value_ids@, proposer, decided_step })
            },
    {
        if value_ids.is_empty() {
            return Err(QuePaxaError::EmptyDecision);
        }
        Ok(Decision { slot, value_ids, proposer, decided_step })
    }
}

impl<V: Key> Decision<V> {
    /// Whether two decisions are equal in every field.
    pub fn same_decision(&self, other: &Decision<V>) -> (equal: bool)
        ensures
            equal == (self@ == other@),
    {
        self.slot == other.slot && self.proposer == other.proposer && self.decided_step
            == other.decided_step && same_list(
            self.value_ids.as_slice(),
            other.value_ids.as_slice(),
        )
    }
}

impl<V: Key> Duplicate for Decision<V> {
    fn duplicate_value(&self) -> (copy: Self) {
        Decision {
            slot: self.slot,
            value_ids: duplicate_keys(self.value_ids.as_slice()),
            proposer: self.proposer,
            decided_step: self.decided_step,
        }
    }
}

impl<V: Key> Clone for Proposal<V> {
    fn clone(&self) -> (copy: Self)
        ensures
            copy@ == self@,
    {
        self.duplicate_value()
    }
}

impl<V: Key> Clone for Decision<V> {
    fn clone(&self) -> (copy: Self)
        ensures
            copy@ == self@,
    {
        self.duplicate_value()
    }
}

/// The better of two proposals; on equal keys the one already held stays.
pub open spec fn better<V>(held: Option<ProposalView<V>>, offered: ProposalView<V>) -> ProposalView<
    V,
> {
    match held {
        Some(current) => if current.key.below(offered.key) {
            offered
        } else {
            current
        },
        None => offered,
    }
}

/// The better of two proposals; on equal keys the one already held stays.
pub fn best_proposal<V>(held: Option<Proposal<V>>, offered: Proposal<V>) -> (best: Proposal<V>)
    ensures
        best@ == better(option_view(held), offered@),
{
    match held {
        Some(current) => {
            if current.key.is_below(&offered.key) {
                offered
            } else {
                current
            }
        },
        None => offered,
    }
}

/// The first proposal whose key no other exceeds.
pub open spec fn best_of<V>(proposals: Seq<ProposalView<V>>) -> Option<ProposalView<V>>
    decreases proposals.len(),
{
    if proposals.len() == 0 {
        None
    } else {
        Some(better(best_of(proposals.drop_last()), proposals.last()))
    }
}

/// What the best of a list is: one of the list, first among those whose key
/// nothing in the list exceeds.
pub proof fn lemma_best_of<V>(proposals: Seq<ProposalView<V>>)
    requires
        proposals.len() > 0,
    ensures
        best_of(proposals) is Some,
        exists|i: int|
            {
                &&& 0 <= i < proposals.len()
                &&& best_of(proposals) == Some(#[trigger] proposals[i])
                &&& forall|j: int|
                    0 <= j < proposals.len() ==> !proposals[i].key.below(
                        (#[trigger] proposals[j]).key,
                    )
                &&& forall|j: int| 0 <= j < i ==> (#[trigger] proposals[j]).key.below(proposals[i].key)
            },
    decreases proposals.len(),
{
    let last = proposals.len() - 1;
    let rest = proposals.drop_last();
    if rest.len() == 0 {
        assert(best_of(proposals) == Some(proposals[last]));
    } else {
        lemma_best_of(rest);
        let i = choose|i: int|
            {
                &&& 0 <= i < rest.len()
                &&& best_of(rest) == Some(#[trigger] rest[i])
                &&& forall|j: int|
                    0 <= j < rest.len() ==> !rest[i].key.below((#[trigger] rest[j]).key)
                &&& forall|j: int| 0 <= j < i ==> (#[trigger] rest[j]).key.below(rest[i].key)
            };
        assert(rest[i] == proposals[i]);
        let winner = if proposals[i].key.below(proposals[last].key) {
            last
        } else {
            i
        };
        assert(best_of(proposals) == Some(proposals[winner]));
        assert forall|j: int| 0 <= j < proposals.len() implies !proposals[winner].key.below(
            (#[trigger] proposals[j]).key,
        ) by {
            if j < last {
                assert(rest[j] == proposals[j]);
            }
        }
        assert forall|j: int| 0 <= j < winner implies (#[trigger] proposals[j]).key.below(
            proposals[winner].key,
        ) by {
            assert(rest[j] == proposals[j]);
        }
    }
}

/// The first proposal whose key no other exceeds.
pub fn max_proposal_by_key<V>(proposals: Vec<Proposal<V>>) -> (best: Option<Proposal<V>>)
    ensures
        option_view(best) == best_of(list_view(proposals@)),
{
    let ghost all = list_view(proposals@);
    let mut best: Option<Proposal<V>> = None;
    let mut rest: Vec<Proposal<V>> = proposals;
    let mut i: usize = 0;
    let count: usize = rest.len();
    while i < count
        invariant
            i <= count == all.len(),
            list_view(rest@) == all.skip(i as int),
            option_view(best) == best_of(all.take(i as int)),
        decreases count - i,
    {
        assert(rest@.len() == list_view(rest@).len());
        let ghost before = rest@;
        let offered: Proposal<V> = rest.remove(0);
        proof {
            assert(list_view(before)[0] == offered@);
            assert(all.take(i + 1).drop_last() =~= all.take(i as int));
            assert forall|j: int| 0 <= j < rest@.len() implies list_view(rest@)[j] == all.skip(
                i + 1,
            )[j] by {
                assert(rest@[j] == before[j + 1]);
                assert(list_view(before)[j + 1] == all.skip(i as int)[j + 1]);
            }
            assert(list_view(rest@) =~= all.skip(i + 1));
        }
        best = Some(best_proposal(best, offered));
        i += 1;
    }
    assert(all.take(count as int) =~= all);
    best
}

/// A proposer's request to a recorder.
#[derive(Debug, PartialEq, Eq)]
pub struct RecordRequest<V> {
    pub sender: ReplicaId,
    pub slot: SlotIndex,
    /// The proposer's locally agreed round-one leader for this slot. Recorders
    /// durably bind the first value they accept and reject a different value,
    /// so intersecting quorums cannot grant reserved priority to two leaders.
    pub round_one_leader: Option<ReplicaId>,
    pub step: Step,
    pub proposal: Proposal<V>,
    pub known_decisions: Vec<Decision<V>>,
}

/// A request with its lists as sequences.
#[verifier::ext_equal]
pub struct RecordRequestView<V> {
    pub sender: ReplicaId,
    pub slot: SlotIndex,
    pub round_one_leader: Option<ReplicaId>,
    pub step: Step,
    pub proposal: ProposalView<V>,
    pub known_decisions: Seq<DecisionView<V>>,
}

impl<V> View for RecordRequest<V> {
    type V = RecordRequestView<V>;

    open spec fn view(&self) -> RecordRequestView<V> {
        RecordRequestView {
            sender: self.sender,
            slot: self.slot,
            round_one_leader: self.round_one_leader,
            step: self.step,
            proposal: self.proposal@,
            known_decisions: list_view(self.known_decisions@),
        }
    }
}

impl<V: Key> Duplicate for RecordRequest<V> {
    fn duplicate_value(&self) -> (copy: Self) {
        RecordRequest {
            sender: self.sender,
            slot: self.slot,
            round_one_leader: self.round_one_leader,
            step: self.step,
            proposal: self.proposal.duplicate_value(),
            known_decisions: duplicate_list(self.known_decisions.as_slice()),
        }
    }
}

/// What a recorder tells of its register for a slot.
#[derive(Debug, PartialEq, Eq)]
pub struct RecordSummary<V> {
    pub step: Step,
    pub first: Option<Proposal<V>>,
    pub prior_aggregate: Option<Proposal<V>>,
}

/// A summary with its proposals as views.
#[verifier::ext_equal]
pub struct RecordSummaryView<V> {
    pub step: Step,
    pub first: Option<ProposalView<V>>,
    pub prior_aggregate: Option<ProposalView<V>>,
}

impl<V> View for RecordSummary<V> {
    type V = RecordSummaryView<V>;

    open spec fn view(&self) -> RecordSummaryView<V> {
        RecordSummaryView {
            step: self.step,
            first: option_view(self.first),
            prior_aggregate: option_view(self.prior_aggregate),
        }
    }
}

impl<V: Key> Duplicate for RecordSummary<V> {
    fn duplicate_value(&self) -> (copy: Self) {
        RecordSummary {
            step: self.step,
            first: duplicate_option(&self.first),
            prior_aggregate: duplicate_option(&self.prior_aggregate),
        }
    }
}

impl<V: Key> Clone for RecordRequest<V> {
    fn clone(&self) -> (copy: Self)
        ensures
            copy@ == self@,
    {
        self.duplicate_value()
    }
}

impl<V: Key> Clone for RecordSummary<V> {
    fn clone(&self) -> (copy: Self)
        ensures
            copy@ == self@,
    {
        self.duplicate_value()
    }
}

impl Duplicate for Step {
    fn duplicate_value(&self) -> (copy: Self) {
        *self
    }
}

} // verus!
