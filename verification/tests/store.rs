use rust_quepaxa::store::{FetchingAvailability, InMemoryValueStore};
use rust_quepaxa::{QuePaxaError, Result, ValueAvailability, ValueFetcher, ValueStore};
use std::collections::BTreeMap;

#[derive(Default)]
struct StaticFetcher {
    values: BTreeMap<u64, &'static str>,
    requests: Vec<Vec<u64>>,
}

impl ValueFetcher<u64, &'static str> for StaticFetcher {
    fn fetch_values(&mut self, value_ids: &[u64]) -> Result<Vec<(u64, &'static str)>> {
        self.requests.push(value_ids.to_vec());
        Ok(value_ids
            .iter()
            .filter_map(|value_id| self.values.get(value_id).map(|batch| (*value_id, *batch)))
            .collect())
    }
}

#[test]
fn fetching_availability_uses_the_store_before_fetching_missing_values() {
    let mut store: InMemoryValueStore<u64, &'static str> = InMemoryValueStore::new();
    store.insert(1, "already present");
    let mut availability = FetchingAvailability::new(
        store,
        StaticFetcher {
            values: BTreeMap::from([(2, "fetched")]),
            ..StaticFetcher::default()
        },
    );

    availability.ensure_available(&[1, 2]).unwrap();

    let store = availability.store();
    assert!(store.contains(&1));
    assert!(store.contains(&2));
    assert_eq!(*store.get(&1).unwrap(), "already present");
    assert_eq!(*store.get(&2).unwrap(), "fetched");
    assert_eq!(availability.fetcher().requests, vec![vec![2]]);
}

#[test]
fn fetching_availability_rejects_an_incomplete_fetch() {
    let store: InMemoryValueStore<u64, &'static str> = InMemoryValueStore::new();
    let mut availability = FetchingAvailability::new(store, StaticFetcher::default());

    assert_eq!(
        availability.ensure_available(&[7]).unwrap_err(),
        QuePaxaError::MissingValue
    );
    assert!(!availability.store().contains(&7));
}

struct UnexpectedFetcher;

impl ValueFetcher<u64, &'static str> for UnexpectedFetcher {
    fn fetch_values(&mut self, _value_ids: &[u64]) -> Result<Vec<(u64, &'static str)>> {
        Ok(vec![(99, "unrequested")])
    }
}

#[test]
fn fetching_availability_rejects_unrequested_values() {
    let store: InMemoryValueStore<u64, &'static str> = InMemoryValueStore::new();
    let mut availability = FetchingAvailability::new(store, UnexpectedFetcher);

    assert!(matches!(
        availability.ensure_available(&[7]),
        Err(QuePaxaError::InvalidProposal(_))
    ));
    assert!(availability.store().is_empty());
}

#[test]
fn a_stored_value_is_never_replaced() {
    let mut store: InMemoryValueStore<u64, &'static str> = InMemoryValueStore::default();
    store.insert(1, "first");
    store.insert(1, "second");
    assert_eq!(*store.get(&1).unwrap(), "first");
    assert_eq!(store.len(), 1);
    assert!(store.get(&2).is_none());
}

struct ReversingFetcher;

impl ValueFetcher<u64, String> for ReversingFetcher {
    fn fetch_values(&mut self, value_ids: &[u64]) -> Result<Vec<(u64, String)>> {
        Ok(value_ids
            .iter()
            .rev()
            .map(|value_id| (*value_id, format!("payload of {value_id}")))
            .collect())
    }
}

#[test]
fn every_fetched_payload_is_kept_under_its_own_id() {
    let mut store: InMemoryValueStore<u64, String> = InMemoryValueStore::new();
    store.insert(5, "kept before".to_string());
    let mut availability = FetchingAvailability::new(store, ReversingFetcher);
    availability.ensure_available(&[3, 5, 8, 3]).unwrap();
    let store = availability.store();
    assert_eq!(store.get(&3).unwrap(), "payload of 3");
    assert_eq!(store.get(&5).unwrap(), "kept before");
    assert_eq!(store.get(&8).unwrap(), "payload of 8");
    assert!(store.get(&4).is_none());
}
