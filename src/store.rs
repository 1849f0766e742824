use vstd::prelude::*;
use vstd::relations::{is_maximal, total_ordering};
use crate::record::{BackfillError, BlockTimestamp};
use crate::pipeline::consecutive_from;

verus! {

/// A store's contents: each stored block number mapped to its timestamp in
/// milliseconds. Block numbers are unique, so a map models the store fully.
pub type StoreContents = Map<int, int>;

/// The order of block numbers.
pub open spec fn number_le(a: int, b: int) -> bool {
    a <= b
}

/// The highest block number in a non-empty finite set of numbers.
pub open spec fn highest(keys: Set<int>) -> int {
    keys.find_unique_maximal(|a: int, b: int| number_le(a, b))
}

/// The next block to process: one past the highest stored block, or 1 when
/// nothing is stored.
pub open spec fn resume_point_of(keys: Set<int>) -> int {
    if keys.is_empty() {
        1
    } else {
        highest(keys) + 1
    }
}

/// The store after one record is offered to it: a record whose number is
/// already stored is rejected by the uniqueness constraint, and the store
/// keeps what it had.
pub open spec fn insert_one(store: StoreContents, r: BlockTimestamp) -> StoreContents {
    if store.contains_key(r.number as int) {
        store
    } else {
        store.insert(r.number as int, r.timestamp as int)
    }
}

/// The store after an unordered batch insert that completed: every record is
/// attempted, and those whose number is already stored are skipped.
pub open spec fn insert_batch(store: StoreContents, batch: Seq<BlockTimestamp>) -> StoreContents
    decreases batch.len(),
{
    if batch.len() == 0 {
        store
    } else {
        insert_batch(insert_one(store, batch[0]), batch.drop_first())
    }
}

/// The next block to process, given the highest stored block number that the
/// store reports (`None` for an empty store).
pub fn resume_point(highest_stored: Option<i64>) -> (r: i64)
    requires
        highest_stored matches Some(h) ==> h < i64::MAX,
    ensures
        r == match highest_stored {
            Some(h) => h + 1,
            None => 1,
        },
{
    match highest_stored {
        Some(h) => h + 1,
        None => 1,
    }
}

/// What became of one record of a batch insert.
#[derive(Clone, Copy, Debug, PartialEq, Eq, Structural)]
pub enum WriteOutcome {
    /// The record was stored.
    Inserted,
    /// The record's number was already stored; the record was skipped.
    Duplicate,
    /// The store refused the record for another reason.
    Refused,
}

/// Whether a batch insert counts as done: it does when the store was reached
/// and no record was refused. Duplicates are the expected outcome of a rerun
/// over blocks already stored, and are not failures.
pub fn batch_result(reached: bool, outcomes: &Vec<WriteOutcome>) -> (r: Result<(), BackfillError>)
    ensures
        r is Ok <==> reached && forall|i: int|
            0 <= i < outcomes@.len() ==> outcomes@[i] != WriteOutcome::Refused,
        r is Err ==> r == Err::<(), BackfillError>(BackfillError::PersistenceError),
{
    if !reached {
        return Err(BackfillError::PersistenceError);
    }
    let mut i: usize = 0;
    while i < outcomes.len()
        invariant
            i <= outcomes@.len(),
            forall|j: int| 0 <= j < i ==> outcomes@[j] != WriteOutcome::Refused,
        decreases outcomes@.len() - i,
    {
        if outcomes[i] == WriteOutcome::Refused {
            return Err(BackfillError::PersistenceError);
        }
        i = i + 1;
    }
    Ok(())
}

/// `number_le` is a total order.
pub proof fn lemma_number_le_total()
    ensures
        total_ordering(|a: int, b: int| number_le(a, b)),
{
}

/// In a finite set that holds `m` and nothing above it, `m` is the highest.
pub proof fn lemma_highest_is(keys: Set<int>, m: int)
    requires
        keys.finite(),
        keys.contains(m),
        forall|k: int| keys.contains(k) ==> k <= m,
    ensures
        highest(keys) == m,
{
    lemma_number_le_total();
    let leq = |a: int, b: int| number_le(a, b);
    keys.find_unique_maximal_ensures(leq);
    assert(is_maximal(leq, m, keys));
}

/// The resume point is 1 for an empty store, and one past the highest stored
/// number otherwise: that number is stored, and nothing stored is at or above
/// the resume point.
pub proof fn lemma_resume_point(keys: Set<int>)
    requires
        keys.finite(),
    ensures
        keys.is_empty() ==> resume_point_of(keys) == 1,
        !keys.is_empty() ==> keys.contains(resume_point_of(keys) - 1),
        forall|k: int| keys.contains(k) ==> k < resume_point_of(keys),
{
    if !keys.is_empty() {
        lemma_number_le_total();
        let leq = |a: int, b: int| number_le(a, b);
        keys.find_unique_maximal_ensures(leq);
        let m = highest(keys);
        assert forall|k: int| keys.contains(k) implies k < resume_point_of(keys) by {
            assert(leq(m, k) ==> leq(k, m));
        }
    }
}

/// The resume point computed from what the store reports as its highest
/// block number (`None` when it is empty) is the store's resume point.
pub proof fn lemma_reported_highest(keys: Set<int>, reported: Option<int>)
    requires
        keys.finite(),
        reported is None <==> keys.is_empty(),
        reported matches Some(m) ==> keys.contains(m) && forall|k: int| keys.contains(k) ==> k <= m,
    ensures
        resume_point_of(keys) == match reported {
            Some(m) => m + 1,
            None => 1,
        },
{
    if let Some(m) = reported {
        lemma_highest_is(keys, m);
    }
}

/// The block numbers `lo, lo + 1, ..., hi - 1`.
pub open spec fn numbers_between(lo: int, hi: int) -> Set<int> {
    Set::new(|n: int| lo <= n < hi)
}

/// Inserting two batches in turn gives the store that inserting them as one
/// batch gives.
pub proof fn lemma_insert_batch_concat(
    store: StoreContents,
    a: Seq<BlockTimestamp>,
    b: Seq<BlockTimestamp>,
)
    ensures
        insert_batch(insert_batch(store, a), b) == insert_batch(store, a + b),
    decreases a.len(),
{
    if a.len() == 0 {
        assert(a + b =~= b);
    } else {
        assert((a + b).drop_first() =~= a.drop_first() + b);
        lemma_insert_batch_concat(insert_one(store, a[0]), a.drop_first(), b);
    }
}

/// Offering again records whose numbers are all stored leaves the store as
/// it is.
pub proof fn lemma_insert_stored_is_noop(store: StoreContents, batch: Seq<BlockTimestamp>)
    requires
        forall|i: int| 0 <= i < batch.len() ==> store.contains_key(#[trigger] batch[i].number as int),
    ensures
        insert_batch(store, batch) == store,
    decreases batch.len(),
{
    if batch.len() > 0 {
        assert forall|i: int| 0 <= i < batch.drop_first().len() implies store.contains_key(
            #[trigger] batch.drop_first()[i].number as int,
        ) by {
            assert(batch.drop_first()[i] == batch[i + 1]);
        }
        lemma_insert_stored_is_noop(store, batch.drop_first());
    }
}

/// Inserting the records of consecutive blocks from `start`, into a store
/// that holds only numbers below `start`, adds exactly those blocks with
/// their timestamps and keeps every stored record.
pub proof fn lemma_insert_fresh_run(store: StoreContents, recs: Seq<BlockTimestamp>, start: int)
    requires
        store.dom().finite(),
        forall|k: int| store.contains_key(k) ==> k < start,
        consecutive_from(recs, start),
    ensures
        insert_batch(store, recs).dom() == store.dom().union(
            numbers_between(start, start + recs.len()),
        ),
        insert_batch(store, recs).dom().finite(),
        forall|n: int|
            start <= n < start + recs.len() ==> #[trigger] insert_batch(store, recs)[n]
                == recs[n - start].timestamp,
        forall|k: int| store.contains_key(k) ==> #[trigger] insert_batch(store, recs)[k] == store[k],
    decreases recs.len(),
{
    let res = insert_batch(store, recs);
    if recs.len() == 0 {
        assert(res.dom() =~= store.dom().union(numbers_between(start, start + recs.len())));
    } else {
        let r0 = recs[0];
        assert(r0.number == start);
        let s1 = store.insert(start, r0.timestamp as int);
        assert(insert_one(store, r0) == s1);
        let rest = recs.drop_first();
        assert forall|i: int| 0 <= i < rest.len() implies #[trigger] rest[i].number == (start + 1)
            + i by {
            assert(rest[i] == recs[i + 1]);
        }
        lemma_insert_fresh_run(s1, rest, start + 1);
        assert(res == insert_batch(s1, rest));
        assert(res.dom() =~= store.dom().union(numbers_between(start, start + recs.len())));
        assert forall|n: int| start <= n < start + recs.len() implies #[trigger] res[n]
            == recs[n - start].timestamp by {
            if n > start {
                assert(rest[n - (start + 1)] == recs[n - start]);
            }
        }
    }
}

/// After a fresh run of `len` consecutive blocks from the store's resume
/// point is inserted, the resume point has moved on by `len`.
pub proof fn lemma_resume_after_fresh_run(store: StoreContents, recs: Seq<BlockTimestamp>, start: int)
    requires
        store.dom().finite(),
        resume_point_of(store.dom()) == start,
        consecutive_from(recs, start),
    ensures
        resume_point_of(insert_batch(store, recs).dom()) == start + recs.len(),
        forall|k: int| store.contains_key(k) ==> k < start,
{
    lemma_resume_point(store.dom());
    lemma_insert_fresh_run(store, recs, start);
    if recs.len() > 0 {
        let d = insert_batch(store, recs).dom();
        assert(d.contains(start + recs.len() - 1));
        lemma_highest_is(d, start + recs.len() - 1);
    } else {
        assert(insert_batch(store, recs) == store);
    }
}

} // verus!
