use vstd::prelude::*;
use crate::record::{BlockTimestamp, MAX_SECONDS};
use crate::store::{
    StoreContents, insert_batch, lemma_insert_batch_concat, lemma_insert_fresh_run,
    lemma_insert_stored_is_noop, lemma_resume_after_fresh_run, numbers_between, resume_point_of,
};

verus! {

/// The buffer size above which fetched records are flushed to the store.
pub const FLUSH_THRESHOLD: usize = 10000;

/// The records for blocks `start, start + 1, ...` in order, one per block.
pub open spec fn consecutive_from(recs: Seq<BlockTimestamp>, start: int) -> bool {
    forall|i: int| 0 <= i < recs.len() ==> #[trigger] recs[i].number == start + i
}

/// A backfill run over the blocks `start..=end`, from the moment the bounds
/// are known. It says which block to fetch next, takes each fetched
/// timestamp, and hands out the batches to insert. A fetch that fails ends
/// the run: the caller drops it, and the records still buffered are lost.
pub struct Backfill {
    next: i64,
    end: i64,
    buffer: Vec<BlockTimestamp>,
    first: Ghost<int>,
    flushed: Ghost<Seq<BlockTimestamp>>,
}

impl Backfill {
    /// The first block of the run.
    pub closed spec fn start(&self) -> int {
        self.first@
    }

    /// The block to fetch next; past `end()` once every block is fetched.
    pub closed spec fn next(&self) -> int {
        self.next as int
    }

    /// The last block of the run.
    pub closed spec fn end(&self) -> int {
        self.end as int
    }

    /// The records fetched and not yet handed out.
    pub closed spec fn buffer(&self) -> Seq<BlockTimestamp> {
        self.buffer@
    }

    /// Every record handed out to be inserted, batch after batch.
    pub closed spec fn flushed(&self) -> Seq<BlockTimestamp> {
        self.flushed@
    }

    /// The state of a run: the records handed out and those buffered are the
    /// blocks from `start()` to just before `next()`, in order; the buffer is
    /// never above the threshold between steps.
    pub closed spec fn wf(&self) -> bool {
        &&& self.start() <= self.next() <= self.end() + 1
        &&& self.end() < i64::MAX
        &&& self.buffer().len() <= FLUSH_THRESHOLD
        &&& self.next() > self.end() ==> self.buffer().len() == 0
        &&& (self.flushed() + self.buffer()).len() == self.next() - self.start()
        &&& consecutive_from(self.flushed() + self.buffer(), self.start())
    }

    /// Whether every block of the run has been fetched.
    pub open spec fn is_finished(&self) -> bool {
        self.next() > self.end()
    }

    /// Starts a run from `start`, the store's resume point, to `end`, the
    /// chain's height. There is nothing to do when `start > end`.
    pub fn new(start: i64, end: i64) -> (r: Option<Backfill>)
        requires
            end < i64::MAX,
        ensures
            r is None <==> start > end,
            r matches Some(b) ==> {
                &&& b.wf()
                &&& b.start() == start
                &&& b.next() == start
                &&& b.end() == end
                &&& b.buffer() == Seq::<BlockTimestamp>::empty()
                &&& b.flushed() == Seq::<BlockTimestamp>::empty()
            },
    {
        if start > end {
            return None;
        }
        let b = Backfill {
            next: start,
            end,
            buffer: Vec::new(),
            first: Ghost(start as int),
            flushed: Ghost(Seq::empty()),
        };
        assert((b.flushed() + b.buffer()) =~= Seq::<BlockTimestamp>::empty());
        Some(b)
    }

    /// The block to fetch next, or `None` once the run is finished.
    pub fn next_block(&self) -> (r: Option<i64>)
        requires
            self.wf(),
        ensures
            r == if self.is_finished() {
                None::<i64>
            } else {
                Some(self.next() as i64)
            },
    {
        if self.next > self.end {
            None
        } else {
            Some(self.next)
        }
    }

    /// Takes the chain timestamp, in seconds, of the block `next()`, and moves
    /// on to the following block. Returns the batch to insert now, if any:
    /// the whole buffer, once it is above the threshold or once the last
    /// block of the run is fetched.
    pub fn accept(&mut self, seconds: u64) -> (r: Option<Vec<BlockTimestamp>>)
        requires
            old(self).wf(),
            !old(self).is_finished(),
            seconds <= MAX_SECONDS,
        ensures
            final(self).wf(),
            final(self).start() == old(self).start(),
            final(self).end() == old(self).end(),
            final(self).next() == old(self).next() + 1,
            r matches Some(batch) ==> batch@.len() == FLUSH_THRESHOLD + 1
                || final(self).is_finished(),
            ({
                let all = old(self).buffer().push(
                    BlockTimestamp { number: old(self).next() as i64, timestamp: (seconds * 1000) as i64 },
                );
                if all.len() > FLUSH_THRESHOLD || final(self).is_finished() {
                    &&& r matches Some(batch) && batch@ == all
                    &&& final(self).buffer() == Seq::<BlockTimestamp>::empty()
                    &&& final(self).flushed() == old(self).flushed() + all
                } else {
                    &&& r is None
                    &&& final(self).buffer() == all
                    &&& final(self).flushed() == old(self).flushed()
                }
            }),
    {
        let rec = BlockTimestamp::from_chain(self.next, seconds);
        let ghost before = self.flushed@ + self.buffer@;
        self.buffer.push(rec);
        self.next = self.next + 1;
        assert(self.flushed@ + self.buffer@ =~= before.push(rec));
        if self.buffer.len() > FLUSH_THRESHOLD || self.next > self.end {
            let mut batch: Vec<BlockTimestamp> = Vec::new();
            std::mem::swap(&mut batch, &mut self.buffer);
            self.flushed = Ghost(self.flushed@ + batch@);
            assert(self.flushed@ + self.buffer@ =~= self.flushed@);
            assert(self.flushed@ =~= before.push(rec));
            Some(batch)
        } else {
            None
        }
    }
}

/// The records handed out are the blocks from the run's start, in order.
proof fn lemma_flushed_consecutive(b: Backfill)
    requires
        b.wf(),
    ensures
        consecutive_from(b.flushed(), b.start()),
{
    assert forall|i: int| 0 <= i < b.flushed().len() implies #[trigger] b.flushed()[i].number
        == b.start() + i by {
        assert(b.flushed()[i] == (b.flushed() + b.buffer())[i]);
    }
}

/// A finished run, inserted into the store whose resume point it started
/// from, leaves exactly one record for every block from start to end, with
/// the timestamp taken for it, and keeps every record stored before.
pub proof fn lemma_full_coverage(b: Backfill, store: StoreContents)
    requires
        b.wf(),
        b.is_finished(),
        store.dom().finite(),
        resume_point_of(store.dom()) == b.start(),
    ensures
        b.flushed().len() == b.end() + 1 - b.start(),
        insert_batch(store, b.flushed()).dom() == store.dom().union(
            numbers_between(b.start(), b.end() + 1),
        ),
        forall|n: int|
            b.start() <= n <= b.end() ==> #[trigger] insert_batch(store, b.flushed())[n]
                == b.flushed()[n - b.start()].timestamp,
        forall|n: int|
            b.start() <= n <= b.end() ==> #[trigger] b.flushed()[n - b.start()].number == n,
        forall|k: int|
            store.contains_key(k) ==> #[trigger] insert_batch(store, b.flushed())[k] == store[k],
{
    assert(b.flushed() + b.buffer() =~= b.flushed());
    lemma_flushed_consecutive(b);
    lemma_resume_after_fresh_run(store, b.flushed(), b.start());
    lemma_insert_fresh_run(store, b.flushed(), b.start());
    assert forall|n: int| b.start() <= n <= b.end() implies #[trigger] b.flushed()[n
        - b.start()].number == n by {
        assert(b.flushed()[n - b.start()] == (b.flushed() + b.buffer())[n - b.start()]);
    }
}

/// After a finished run is inserted, the store's resume point is one past the
/// run's end, so a second run to the same height has nothing to do; and
/// offering the same records again leaves the store as it is.
pub proof fn lemma_rerun_is_noop(b: Backfill, store: StoreContents)
    requires
        b.wf(),
        b.is_finished(),
        store.dom().finite(),
        resume_point_of(store.dom()) == b.start(),
    ensures
        resume_point_of(insert_batch(store, b.flushed()).dom()) == b.end() + 1,
        insert_batch(insert_batch(store, b.flushed()), b.flushed()) == insert_batch(
            store,
            b.flushed(),
        ),
{
    lemma_full_coverage(b, store);
    lemma_resume_after_fresh_run(store, b.flushed(), b.start());
    let s2 = insert_batch(store, b.flushed());
    assert forall|i: int| 0 <= i < b.flushed().len() implies s2.contains_key(
        #[trigger] b.flushed()[i].number as int,
    ) by {
        let n = b.start() + i;
        assert(b.flushed()[n - b.start()].number == n);
    }
    lemma_insert_stored_is_noop(s2, b.flushed());
}

/// A run that stops at any point, a failed fetch included, has stored
/// exactly the batches handed out so far: the blocks from its start up to
/// the first one still buffered or not fetched, which is the store's new
/// resume point. The buffered records are not stored.
pub proof fn lemma_abort_keeps_flushed(b: Backfill, store: StoreContents)
    requires
        b.wf(),
        store.dom().finite(),
        resume_point_of(store.dom()) == b.start(),
    ensures
        b.start() + b.flushed().len() == b.next() - b.buffer().len(),
        insert_batch(store, b.flushed()).dom() == store.dom().union(
            numbers_between(b.start(), b.next() - b.buffer().len()),
        ),
        resume_point_of(insert_batch(store, b.flushed()).dom()) == b.next() - b.buffer().len(),
{
    lemma_flushed_consecutive(b);
    lemma_resume_after_fresh_run(store, b.flushed(), b.start());
    lemma_insert_fresh_run(store, b.flushed(), b.start());
}

/// A run that stopped, followed by a finished rerun from the resume point it
/// left to the same height, stores every block from the first run's start to
/// the end exactly once: the two runs' batches together are those blocks in
/// order, none twice and none missing.
pub proof fn lemma_recovery(first: Backfill, rerun: Backfill, store: StoreContents)
    requires
        first.wf(),
        rerun.wf(),
        rerun.is_finished(),
        store.dom().finite(),
        resume_point_of(store.dom()) == first.start(),
        rerun.start() == resume_point_of(insert_batch(store, first.flushed()).dom()),
        rerun.end() == first.end(),
    ensures
        (first.flushed() + rerun.flushed()).len() == first.end() + 1 - first.start(),
        consecutive_from(first.flushed() + rerun.flushed(), first.start()),
        insert_batch(insert_batch(store, first.flushed()), rerun.flushed()).dom() == store.dom().union(
            numbers_between(first.start(), first.end() + 1),
        ),
{
    lemma_abort_keeps_flushed(first, store);
    lemma_flushed_consecutive(first);
    lemma_resume_after_fresh_run(store, first.flushed(), first.start());
    lemma_insert_fresh_run(store, first.flushed(), first.start());
    let s1 = insert_batch(store, first.flushed());
    lemma_full_coverage(rerun, s1);
    let all = first.flushed() + rerun.flushed();
    assert forall|i: int| 0 <= i < all.len() implies #[trigger] all[i].number == first.start()
        + i by {
        if i < first.flushed().len() {
            assert(first.flushed()[i] == (first.flushed() + first.buffer())[i]);
        } else {
            let n = rerun.start() + (i - first.flushed().len());
            assert(rerun.flushed()[n - rerun.start()].number == n);
        }
    }
    assert(insert_batch(s1, rerun.flushed()).dom() =~= store.dom().union(
        numbers_between(first.start(), first.end() + 1),
    ));
}

} // verus!
