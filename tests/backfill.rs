use std::collections::BTreeMap;

use blocktimes::pipeline::{Backfill, FLUSH_THRESHOLD};
use blocktimes::record::{s_to_ms, BackfillError, BlockTimestamp, MAX_SECONDS};
use blocktimes::store::WriteOutcome::{Duplicate, Inserted, Refused};
use blocktimes::store::{batch_result, resume_point};

/// A store in memory: a record whose number is already stored is skipped.
fn insert(store: &mut BTreeMap<i64, i64>, batch: &[BlockTimestamp]) {
    for r in batch {
        store.entry(r.number).or_insert(r.timestamp);
    }
}

fn store_resume_point(store: &BTreeMap<i64, i64>) -> i64 {
    resume_point(store.keys().next_back().copied())
}

fn chain_seconds(n: i64) -> u64 {
    1_600_000_000 + 13 * n as u64
}

/// Runs a backfill to `end`, fetching from the chain until block `fail_at`
/// (if any) fails. Returns the sizes of the batches inserted and whether the
/// run finished.
fn run(store: &mut BTreeMap<i64, i64>, end: i64, fail_at: Option<i64>) -> (Vec<usize>, bool) {
    let start = store_resume_point(store);
    let mut sizes = Vec::new();
    let mut b = match Backfill::new(start, end) {
        Some(b) => b,
        None => return (sizes, true),
    };
    while let Some(n) = b.next_block() {
        if Some(n) == fail_at {
            return (sizes, false);
        }
        if let Some(batch) = b.accept(chain_seconds(n)) {
            insert(store, &batch);
            sizes.push(batch.len());
        }
    }
    (sizes, true)
}

#[test]
fn unit_conversion() {
    assert_eq!(s_to_ms(1_700_000_000), 1_700_000_000_000);
    assert_eq!(s_to_ms(0), 0);
    assert_eq!(s_to_ms(MAX_SECONDS), 9_223_372_036_854_775_000);
    let r = BlockTimestamp::from_chain(7, 1_700_000_000);
    assert_eq!(r, BlockTimestamp { number: 7, timestamp: 1_700_000_000_000 });
}

#[test]
fn resume_point_of_empty_store_is_one() {
    assert_eq!(resume_point(None), 1);
    let store = BTreeMap::new();
    assert_eq!(store_resume_point(&store), 1);
}

#[test]
fn resume_point_is_one_past_highest() {
    assert_eq!(resume_point(Some(41)), 42);
    let mut store = BTreeMap::new();
    store.insert(3, 0);
    store.insert(9, 0);
    store.insert(5, 0);
    assert_eq!(store_resume_point(&store), 10);
}

#[test]
fn nothing_to_do_when_start_is_past_height() {
    assert!(Backfill::new(11, 10).is_none());
    let mut store = BTreeMap::new();
    store.insert(10, 1);
    let (sizes, finished) = run(&mut store, 10, None);
    assert!(finished);
    assert!(sizes.is_empty());
    assert_eq!(store.len(), 1);
}

#[test]
fn single_block_run() {
    let mut b = Backfill::new(10, 10).unwrap();
    assert_eq!(b.next_block(), Some(10));
    let batch = b.accept(5).unwrap();
    assert_eq!(batch, vec![BlockTimestamp { number: 10, timestamp: 5000 }]);
    assert_eq!(b.next_block(), None);
}

#[test]
fn full_coverage_of_range() {
    let mut store = BTreeMap::new();
    let (sizes, finished) = run(&mut store, 3, None);
    assert!(finished);
    assert_eq!(sizes, vec![3]);
    let expected: BTreeMap<i64, i64> =
        (1..=3).map(|n| (n, s_to_ms(chain_seconds(n)))).collect();
    assert_eq!(store, expected);
}

#[test]
fn batches_for_twenty_five_thousand_blocks() {
    let mut store = BTreeMap::new();
    let (sizes, finished) = run(&mut store, 25_000, None);
    assert!(finished);
    // A batch goes out once the buffer holds more than the threshold.
    assert_eq!(FLUSH_THRESHOLD, 10_000);
    assert_eq!(sizes, vec![10_001, 10_001, 4_998]);
    assert_eq!(store.len(), 25_000);
    assert_eq!(store_resume_point(&store), 25_001);
}

#[test]
fn batches_within_threshold() {
    let mut store = BTreeMap::new();
    let (sizes, _) = run(&mut store, 10_001, None);
    assert_eq!(sizes, vec![10_001]);
    let mut store = BTreeMap::new();
    let (sizes, _) = run(&mut store, 10_002, None);
    assert_eq!(sizes, vec![10_001, 1]);
}

#[test]
fn second_run_is_noop() {
    let mut store = BTreeMap::new();
    run(&mut store, 1_234, None);
    let once = store.clone();
    let (sizes, finished) = run(&mut store, 1_234, None);
    assert!(finished);
    assert!(sizes.is_empty());
    assert_eq!(store, once);
}

#[test]
fn abort_keeps_flushed_batches_and_rerun_recovers() {
    let mut store = BTreeMap::new();
    let (sizes, finished) = run(&mut store, 25_000, Some(15_000));
    assert!(!finished);
    assert_eq!(sizes, vec![10_001]);
    assert_eq!(store.len(), 10_001);
    assert_eq!(store_resume_point(&store), 10_002);
    let (sizes, finished) = run(&mut store, 25_000, None);
    assert!(finished);
    assert_eq!(sizes, vec![10_001, 4_998]);
    let expected: BTreeMap<i64, i64> =
        (1..=25_000).map(|n| (n, s_to_ms(chain_seconds(n)))).collect();
    assert_eq!(store, expected);
}

#[test]
fn abort_before_first_flush_stores_nothing() {
    let mut store = BTreeMap::new();
    let (sizes, finished) = run(&mut store, 500, Some(250));
    assert!(!finished);
    assert!(sizes.is_empty());
    assert!(store.is_empty());
    assert_eq!(store_resume_point(&store), 1);
}

#[test]
fn batch_with_duplicates_counts_as_done() {

    assert_eq!(batch_result(true, &vec![Inserted, Duplicate, Inserted]), Ok(()));
    assert_eq!(batch_result(true, &vec![Duplicate, Duplicate]), Ok(()));
    assert_eq!(batch_result(true, &vec![]), Ok(()));
}

#[test]
fn batch_failures_are_persistence_errors() {

    assert_eq!(
        batch_result(false, &vec![Inserted]),
        Err(BackfillError::PersistenceError)
    );
    assert_eq!(
        batch_result(true, &vec![Inserted, Refused, Duplicate]),
        Err(BackfillError::PersistenceError)
    );
}
