//! The batcher: groups successfully decoded records into fixed-size
//! chunks, preserving order, counting (but never keeping) failures.
//!
//! Chunk boundaries are determined purely by the count of successes seen
//! so far: a malformed record never occupies a slot in a batch.

use vstd::prelude::*;
use vstd::arithmetic::div_mod::lemma_basic_div;
use vstd::arithmetic::div_mod::lemma_div_plus_one;
use vstd::arithmetic::div_mod::lemma_fundamental_div_mod_converse_div;
use crate::record::DecodeOutcome;
use crate::record::LogRecord;
use crate::record::LogRecordV;
use crate::record::OutcomeV;
pub use crate::record::recs_of;

verus! {

/// The most records one persistence transaction carries.
pub const BATCH_SIZE: usize = 1000;

/// An ordered, non-empty group of records, at most `BATCH_SIZE` of them,
/// committed to persistence as one transaction and then discarded.
pub struct Batch {
    pub records: Vec<LogRecord>,
}

impl View for Batch {
    type V = Seq<LogRecordV>;

    open spec fn view(&self) -> Seq<LogRecordV> {
        recs_of(self.records@)
    }
}

/// `s` cut into consecutive chunks of `k` records, in order; only the
/// last chunk may be shorter, and no chunk is empty.
pub open spec fn chunks_of<A>(s: Seq<A>, k: int) -> Seq<Seq<A>>
    decreases s.len(),
{
    if k <= 0 {
        Seq::empty()
    } else if s.len() == 0 {
        Seq::empty()
    } else if s.len() <= k {
        seq![s]
    } else {
        seq![s.subrange(0, k)] + chunks_of(s.subrange(k, s.len() as int), k)
    }
}

/// All chunks joined back together, in order.
pub open spec fn concat_all<A>(bs: Seq<Seq<A>>) -> Seq<A>
    decreases bs.len(),
{
    if bs.len() == 0 {
        Seq::empty()
    } else {
        concat_all(bs.drop_last()) + bs.last()
    }
}

pub proof fn lemma_concat_all_first<A>(bs: Seq<Seq<A>>)
    requires
        bs.len() > 0,
    ensures
        concat_all(bs) == bs[0] + concat_all(bs.drop_first()),
    decreases bs.len(),
{
    if bs.len() == 1 {
        assert(bs.drop_last() =~= Seq::<Seq<A>>::empty());
        assert(bs.drop_first() =~= Seq::<Seq<A>>::empty());
        assert(concat_all(bs) =~= bs[0] + concat_all(bs.drop_first()));
    } else {
        lemma_concat_all_first(bs.drop_last());
        assert(bs.drop_last()[0] == bs[0]);
        assert(bs.drop_last().drop_first() =~= bs.drop_first().drop_last());
        assert(bs.drop_first().last() == bs.last());
        assert(concat_all(bs) == (bs[0] + concat_all(bs.drop_first().drop_last())) + bs.last());
        assert(concat_all(bs) =~= bs[0] + concat_all(bs.drop_first()));
    }
}

/// A run of full chunks followed by a short remainder is exactly the
/// chunking of their concatenation: chunk boundaries depend on nothing
/// but the count of records.
pub proof fn lemma_chunks_from_parts<A>(bs: Seq<Seq<A>>, tail: Seq<A>, k: int)
    requires
        k > 0,
        forall|i: int| 0 <= i < bs.len() ==> #[trigger] bs[i].len() == k,
        tail.len() < k,
    ensures
        chunks_of(concat_all(bs) + tail, k) == bs + if tail.len() == 0 {
            Seq::<Seq<A>>::empty()
        } else {
            seq![tail]
        },
    decreases bs.len(),
{
    let s = concat_all(bs) + tail;
    if bs.len() == 0 {
        assert(s =~= tail);
        if tail.len() == 0 {
            assert(chunks_of(s, k) =~= bs + Seq::<Seq<A>>::empty());
        } else {
            assert(chunks_of(s, k) =~= bs + seq![tail]);
        }
    } else {
        lemma_concat_all_first(bs);
        let rest = concat_all(bs.drop_first()) + tail;
        assert(s =~= bs[0] + rest);
        assert(forall|i: int|
            0 <= i < bs.drop_first().len() ==> #[trigger] bs.drop_first()[i].len() == k);
        lemma_chunks_from_parts(bs.drop_first(), tail, k);
        if rest.len() == 0 {
            assert(s.len() == k);
            assert(chunks_of(s, k) == seq![s]);
            assert(bs.drop_first() + Seq::<Seq<A>>::empty() =~= bs.drop_first());
            assert(chunks_of(rest, k) =~= Seq::<Seq<A>>::empty());
            assert(bs.drop_first() =~= Seq::<Seq<A>>::empty());
            assert(s =~= bs[0]);
            assert(chunks_of(s, k) =~= bs + Seq::<Seq<A>>::empty());
        } else {
            assert(s.len() > k);
            assert(s.subrange(0, k) =~= bs[0]);
            assert(s.subrange(k, s.len() as int) =~= rest);
            assert(chunks_of(s, k) == seq![bs[0]] + chunks_of(rest, k));
            assert(seq![bs[0]] + (bs.drop_first() + if tail.len() == 0 {
                Seq::<Seq<A>>::empty()
            } else {
                seq![tail]
            }) =~= bs + if tail.len() == 0 {
                Seq::<Seq<A>>::empty()
            } else {
                seq![tail]
            });
        }
    }
}

/// The shape of the chunking of `s`: exactly the ceiling of `len / k`
/// chunks; every chunk but the last holds `k` records; the last holds
/// the (non-zero) remainder; together they are `s` again.
pub proof fn lemma_chunk_plan<A>(s: Seq<A>, k: int)
    requires
        k > 0,
    ensures
        chunks_of(s, k).len() == (s.len() + k - 1) / k,
        forall|i: int|
            0 <= i < chunks_of(s, k).len() - 1 ==> #[trigger] chunks_of(s, k)[i].len() == k,
        chunks_of(s, k).len() > 0 ==> chunks_of(s, k).last().len() == s.len() - k * (chunks_of(
            s,
            k,
        ).len() - 1),
        chunks_of(s, k).len() > 0 ==> 0 < chunks_of(s, k).last().len() <= k,
        concat_all(chunks_of(s, k)) == s,
    decreases s.len(),
{
    let cs = chunks_of(s, k);
    if s.len() == 0 {
        lemma_basic_div(k - 1, k);
        assert(concat_all(cs) =~= s);
    } else if s.len() <= k {
        lemma_fundamental_div_mod_converse_div(s.len() + k - 1, k, 1, s.len() - 1);
        assert(cs.drop_last() =~= Seq::<Seq<A>>::empty());
        assert(concat_all(cs.drop_last()) =~= Seq::<A>::empty());
        assert(concat_all(cs) =~= s);
        assert(k * (cs.len() - 1) == 0) by (nonlinear_arith)
            requires
                cs.len() == 1,
        ;
    } else {
        let head = s.subrange(0, k);
        let rest = s.subrange(k, s.len() as int);
        lemma_chunk_plan(rest, k);
        let rs = chunks_of(rest, k);
        lemma_div_plus_one(rest.len() + k - 1, k);
        assert(cs.len() == 1 + rs.len());
        assert(rs.len() > 0);
        assert forall|i: int| 0 <= i < cs.len() - 1 implies #[trigger] cs[i].len() == k by {
            if i > 0 {
                assert(cs[i] == rs[i - 1]);
            }
        }
        assert(cs.last() == rs.last());
        assert(k * (cs.len() - 1) == k * (rs.len() - 1) + k) by (nonlinear_arith)
            requires
                cs.len() == 1 + rs.len(),
        ;
        lemma_concat_all_first(cs);
        assert(cs.drop_first() =~= rs);
        assert(concat_all(cs) == head + rest);
        assert(concat_all(cs) =~= s);
    }
}

/// The batcher's running state: an accumulator of fewer than
/// `BATCH_SIZE` records, and a count of failures seen (metrics only —
/// failures never reach a batch and never fill a slot).
pub struct Batcher {
    acc: Vec<LogRecord>,
    failures: u64,
}

impl Batcher {
    /// The records accumulated towards the next batch, in input order.
    pub closed spec fn acc_view(self) -> Seq<LogRecordV> {
        recs_of(self.acc@)
    }

    /// How many failed outcomes this batcher has consumed (saturating).
    pub closed spec fn failure_count(self) -> u64 {
        self.failures
    }

    /// The accumulator is never full: a full accumulator is yielded at
    /// once as a batch.
    pub closed spec fn wf(self) -> bool {
        self.acc@.len() < BATCH_SIZE
    }

    pub fn new() -> (b: Batcher)
        ensures
            b.wf(),
            b.acc_view() == Seq::<LogRecordV>::empty(),
            b.failure_count() == 0,
    {
        let b = Batcher { acc: Vec::new(), failures: 0 };
        proof {
            assert(b.acc_view() =~= Seq::<LogRecordV>::empty());
        }
        b
    }

    /// How many failed outcomes this batcher has consumed so far, for
    /// logging and metrics only: failures never reach a batch and are
    /// not part of any reported insert count.
    pub fn failures(&self) -> (n: u64)
        ensures
            n == self.failure_count(),
    {
        self.failures
    }

    /// Consume one decode outcome.  A failure is counted and discarded; a
    /// success joins the accumulator, and the accumulator is yielded as a
    /// full batch the moment it reaches `BATCH_SIZE` records.
    pub fn push(&mut self, o: DecodeOutcome) -> (out: Option<Batch>)
        requires
            old(self).wf(),
        ensures
            final(self).wf(),
            match o@ {
                OutcomeV::Failed(_, _) => {
                    &&& out is None
                    &&& final(self).acc_view() == old(self).acc_view()
                    &&& final(self).failure_count() == if old(self).failure_count() < u64::MAX {
                        old(self).failure_count() + 1
                    } else {
                        old(self).failure_count() as int
                    }
                },
                OutcomeV::Parsed(r) => {
                    &&& final(self).failure_count() == old(self).failure_count()
                    &&& match out {
                        Some(b) => {
                            &&& b@ == old(self).acc_view().push(r)
                            &&& b@.len() == BATCH_SIZE
                            &&& final(self).acc_view() == Seq::<LogRecordV>::empty()
                        },
                        None => {
                            &&& final(self).acc_view() == old(self).acc_view().push(r)
                            &&& final(self).acc_view().len() < BATCH_SIZE
                        },
                    }
                },
            },
    {
        match o {
            DecodeOutcome::Failed(_) => {
                if self.failures < u64::MAX {
                    self.failures = self.failures + 1;
                }
                None
            },
            DecodeOutcome::Parsed(r) => {
                let ghost prior = self.acc@;
                self.acc.push(r);
                proof {
                    assert(recs_of(self.acc@) =~= recs_of(prior).push(r@));
                }
                if self.acc.len() == BATCH_SIZE {
                    let mut full: Vec<LogRecord> = Vec::new();
                    core::mem::swap(&mut full, &mut self.acc);
                    let b = Batch { records: full };
                    proof {
                        assert(self.acc_view() =~= Seq::<LogRecordV>::empty());
                    }
                    Some(b)
                } else {
                    None
                }
            },
        }
    }

    /// End of input: yield the final partial batch, if the accumulator is
    /// non-empty; never an empty batch.
    pub fn finish(self) -> (out: Option<Batch>)
        requires
            self.wf(),
        ensures
            match out {
                Some(b) => {
                    &&& b@ == self.acc_view()
                    &&& 0 < b@.len() < BATCH_SIZE
                },
                None => self.acc_view() == Seq::<LogRecordV>::empty(),
            },
    {
        if self.acc.len() == 0 {
            proof {
                assert(self.acc_view() =~= Seq::<LogRecordV>::empty());
            }
            None
        } else {
            Some(Batch { records: self.acc })
        }
    }
}

} // verus!
