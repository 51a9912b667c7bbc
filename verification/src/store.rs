//! The in-memory persistence gateway: batches go in as independent,
//! atomic-per-call transactions; a time-range query reads records back.
//!
//! The store also remembers the size of every insert call it has served,
//! so the contracts can speak about how persistence was driven (how many
//! batch transactions, of what sizes, in what order).

use vstd::prelude::*;
use crate::batch::Batch;
use crate::batch::recs_of;
use crate::record::LogRecord;
use crate::record::LogRecordV;
use crate::timestamp::Timestamp;

verus! {

/// Is `r`'s timestamp within `[from, until)`?  The lower bound is
/// inclusive, the upper bound exclusive: one fixed, documented
/// convention.
pub open spec fn in_range(r: LogRecordV, from: Timestamp, until: Timestamp) -> bool {
    from.le_spec(r.timestamp) && !until.le_spec(r.timestamp)
}

/// The records of `s` within `[from, until)`, in the order they stand.
pub open spec fn range_filter(s: Seq<LogRecordV>, from: Timestamp, until: Timestamp) -> Seq<
    LogRecordV,
> {
    s.filter(|r: LogRecordV| in_range(r, from, until))
}

/// In-memory persistence: every record ever committed, in insertion
/// order, plus the sizes of the insert calls that brought them.
pub struct Store {
    records: Vec<LogRecord>,
    insert_sizes: Vec<usize>,
}

impl Store {
    /// Every record committed so far, in insertion order.
    pub closed spec fn records_view(self) -> Seq<LogRecordV> {
        recs_of(self.records@)
    }

    /// The size of each insert call served so far, oldest first.
    pub closed spec fn insert_calls(self) -> Seq<int> {
        self.insert_sizes@.map_values(|n: usize| n as int)
    }

    /// An empty store that has served no insert call.
    pub fn new() -> (s: Store)
        ensures
            s.records_view() == Seq::<LogRecordV>::empty(),
            s.insert_calls() == Seq::<int>::empty(),
    {
        let s = Store { records: Vec::new(), insert_sizes: Vec::new() };
        proof {
            assert(s.records_view() =~= Seq::<LogRecordV>::empty());
            assert(s.insert_calls() =~= Seq::<int>::empty());
        }
        s
    }

    /// How many records have been committed so far.
    pub fn count(&self) -> (n: usize)
        ensures
            n == self.records_view().len(),
    {
        self.records.len()
    }

    /// The size of each insert call served so far, oldest first, as a
    /// fresh vector.
    pub fn insert_call_sizes(&self) -> (v: Vec<usize>)
        ensures
            v@.map_values(|n: usize| n as int) == self.insert_calls(),
    {
        let mut v: Vec<usize> = Vec::new();
        let mut i: usize = 0;
        proof {
            assert(v@.map_values(|n: usize| n as int) =~= self.insert_sizes@.subrange(
                0,
                0,
            ).map_values(|n: usize| n as int));
        }
        while i < self.insert_sizes.len()
            invariant
                0 <= i <= self.insert_sizes@.len(),
                v@ == self.insert_sizes@.subrange(0, i as int),
            decreases self.insert_sizes@.len() - i,
        {
            v.push(self.insert_sizes[i]);
            assert(v@ =~= self.insert_sizes@.subrange(0, i + 1));
            i += 1;
        }
        proof {
            assert(self.insert_sizes@.subrange(0, i as int) =~= self.insert_sizes@);
        }
        v
    }

    /// Commit one batch as one transaction: all of its records become
    /// durable, in order, and the call returns how many.  The batch is
    /// consumed; it is never retried as a whole.
    pub fn insert_batch(&mut self, batch: Batch) -> (n: usize)
        ensures
            final(self).records_view() == old(self).records_view() + batch@,
            final(self).insert_calls() == old(self).insert_calls().push(batch@.len() as int),
            n == batch@.len(),
    {
        let mut incoming = batch.records;
        let n = incoming.len();
        self.records.append(&mut incoming);
        self.insert_sizes.push(n);
        proof {
            assert(self.records_view() =~= old(self).records_view() + batch@);
            assert(self.insert_calls() =~= old(self).insert_calls().push(batch@.len() as int));
        }
        n
    }

    /// All records whose timestamp falls within `[from, until)` — lower
    /// bound inclusive, upper bound exclusive — in insertion order.
    pub fn query_range(&self, from: &Timestamp, until: &Timestamp) -> (out: Vec<LogRecord>)
        ensures
            recs_of(out@) == range_filter(self.records_view(), *from, *until),
    {
        let mut out: Vec<LogRecord> = Vec::new();
        let mut i: usize = 0;
        let n = self.records.len();
        proof {
            reveal(Seq::filter);
            assert(self.records_view().subrange(0, 0) =~= Seq::<LogRecordV>::empty());
            assert(recs_of(out@) =~= Seq::<LogRecordV>::empty());
            assert(range_filter(Seq::<LogRecordV>::empty(), *from, *until) =~= Seq::<
                LogRecordV,
            >::empty());
        }
        while i < n
            invariant
                0 <= i <= n,
                n == self.records@.len(),
                recs_of(out@) == range_filter(self.records_view().subrange(0, i as int), *from, *until),
            decreases n - i,
        {
            let r = &self.records[i];
            let ghost prefix = self.records_view().subrange(0, i as int);
            let ghost longer = self.records_view().subrange(0, i + 1);
            proof {
                reveal(Seq::filter);
                assert(longer.drop_last() =~= prefix);
                assert(longer.last() == r@);
            }
            if from.le(&r.timestamp) && !until.le(&r.timestamp) {
                let ghost before = out@;
                out.push(r.duplicate());
                proof {
                    reveal(Seq::filter);
                    assert(recs_of(out@) =~= recs_of(before).push(r@));
                }
            } else {
                proof {
                    reveal(Seq::filter);
                    assert(!in_range(r@, *from, *until));
                }
            }
            i += 1;
        }
        proof {
            assert(self.records_view().subrange(0, n as int) =~= self.records_view());
        }
        out
    }
}

} // verus!
