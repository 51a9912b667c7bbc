//! The ingestion coordinator: drives parser, batcher and store across
//! the attachments of one upload.
//!
//! Attachments whose declared media type is not `text/csv` are skipped
//! with no side effect.  Each qualifying attachment's bytes run through
//! the record stream parser; the batcher groups the successes into
//! batches of at most `BATCH_SIZE`; every batch is committed to the
//! store as one independent transaction, strictly in input order and one
//! at a time.  Batches committed before any later failure stay durable:
//! there is no cross-batch rollback, and nothing is deduplicated.
//!
//! Ingestion of delivered bytes is total: the in-memory store cannot
//! refuse a commit, and a malformed record costs only its own slot.  An
//! unreadable upload or a failing external database is an error of the
//! I/O boundary around the library, surfaced there; whatever batches
//! this coordinator committed first remain committed.

use vstd::prelude::*;
use crate::batch::BATCH_SIZE;
use crate::batch::Batcher;
use crate::batch::chunks_of;
use crate::batch::concat_all;
use crate::batch::lemma_chunks_from_parts;
use crate::parser::RecordStreamParser;
use crate::parser::outcomes_of;
use crate::record::LogRecordV;
use crate::record::OutcomeV;
use crate::record::lemma_successes_push;
use crate::record::successes;
use crate::store::Store;

verus! {

/// One file-bearing part of an upload request: the media type the
/// sender declared for it, and its raw bytes.
pub struct Attachment {
    pub content_type: Vec<u8>,
    pub data: Vec<u8>,
}

/// The one media type the coordinator ingests: `text/csv`.
pub open spec fn text_csv() -> Seq<u8> {
    seq![116u8, 101u8, 120u8, 116u8, 47u8, 99u8, 115u8, 118u8]
}

/// Does an attachment qualify for ingestion?
pub open spec fn qualifies(a: Attachment) -> bool {
    a.content_type@ == text_csv()
}

/// The well-formed records of one attachment, in input order.
pub open spec fn att_records(a: Attachment) -> Seq<LogRecordV> {
    successes(outcomes_of(a.data@))
}

/// The lengths of a sequence of batches.
pub open spec fn sizes_of(bs: Seq<Seq<LogRecordV>>) -> Seq<int> {
    bs.map_values(|c: Seq<LogRecordV>| c.len() as int)
}

/// The insert-call sizes one attachment gives rise to: its records cut
/// into batches of `BATCH_SIZE`.
pub open spec fn att_insert_sizes(a: Attachment) -> Seq<int> {
    sizes_of(chunks_of(att_records(a), BATCH_SIZE as int))
}

/// Every record that ingesting `atts` commits, across all qualifying
/// attachments, in arrival order.
pub open spec fn all_records(atts: Seq<Attachment>) -> Seq<LogRecordV>
    decreases atts.len(),
{
    if atts.len() == 0 {
        Seq::empty()
    } else {
        (if qualifies(atts[0]) {
            att_records(atts[0])
        } else {
            Seq::empty()
        }) + all_records(atts.drop_first())
    }
}

/// The size of every insert call that ingesting `atts` makes, in order.
pub open spec fn all_insert_sizes(atts: Seq<Attachment>) -> Seq<int>
    decreases atts.len(),
{
    if atts.len() == 0 {
        Seq::empty()
    } else {
        (if qualifies(atts[0]) {
            att_insert_sizes(atts[0])
        } else {
            Seq::empty()
        }) + all_insert_sizes(atts.drop_first())
    }
}

/// What one whole ingestion reports: the total number of records
/// committed, summed over every batch of every processed attachment.
pub struct IngestionReport {
    pub total_inserted: usize,
}

/// Does the declared media type read `text/csv`, byte for byte?
pub fn is_text_csv(ct: &Vec<u8>) -> (r: bool)
    ensures
        r == (ct@ == text_csv()),
{
    if ct.len() != 8 {
        return false;
    }
    let r = ct[0] == 116 && ct[1] == 101 && ct[2] == 120 && ct[3] == 116 && ct[4] == 47 && ct[5]
        == 99 && ct[6] == 115 && ct[7] == 118;
    proof {
        if r {
            assert(ct@ =~= text_csv());
        }
    }
    r
}

/// Ingest the bytes of one qualifying attachment: parse, batch, commit.
///
/// The store receives exactly the attachment's well-formed records, in
/// order, cut into batches of `BATCH_SIZE` (only the last short), each
/// batch one insert call; the returned count is the number of records
/// committed.  Batches are committed strictly in input order, one in
/// flight at a time.
pub fn process_attachment(data: Vec<u8>, store: &mut Store) -> (n: usize)
    ensures
        final(store).records_view() == old(store).records_view() + successes(outcomes_of(data@)),
        final(store).insert_calls() == old(store).insert_calls() + sizes_of(
            chunks_of(successes(outcomes_of(data@)), BATCH_SIZE as int),
        ),
        n == successes(outcomes_of(data@)).len(),
{
    let ghost all_out = outcomes_of(data@);
    let ghost store0 = *store;
    let base = store.count();
    let mut parser = RecordStreamParser::new(data);
    let mut batcher = Batcher::new();
    let ghost mut processed: Seq<OutcomeV> = Seq::empty();
    let ghost mut emitted: Seq<Seq<LogRecordV>> = Seq::empty();
    let mut done = false;
    proof {
        assert(processed + parser.remaining() =~= all_out);
        assert(concat_all(emitted) + batcher.acc_view() =~= successes(processed));
        assert(store.records_view() =~= store0.records_view() + concat_all(emitted));
        assert(store.insert_calls() =~= store0.insert_calls() + sizes_of(emitted));
    }
    while !done
        invariant
            parser.wf(),
            batcher.wf(),
            processed + parser.remaining() == all_out,
            concat_all(emitted) + batcher.acc_view() == successes(processed),
            forall|i: int| 0 <= i < emitted.len() ==> #[trigger] emitted[i].len() == BATCH_SIZE,
            store.records_view() == store0.records_view() + concat_all(emitted),
            store.insert_calls() == store0.insert_calls() + sizes_of(emitted),
            done ==> parser.remaining().len() == 0,
        decreases parser.remaining().len() + (if done {
            0int
        } else {
            1int
        }),
    {
        match parser.next_outcome() {
            None => {
                done = true;
            },
            Some(o) => {
                proof {
                    lemma_successes_push(processed, o@);
                    processed = processed.push(o@);
                    assert(processed + parser.remaining() =~= all_out);
                }
                let ghost acc0 = batcher.acc_view();
                match batcher.push(o) {
                    Some(b) => {
                        proof {
                            assert(emitted.push(b@).drop_last() =~= emitted);
                            assert(concat_all(emitted.push(b@)) == concat_all(emitted) + b@);
                            emitted = emitted.push(b@);
                            assert(concat_all(emitted) + batcher.acc_view() =~= successes(
                                processed,
                            ));
                        }
                        let ghost calls0 = store.insert_calls();
                        let ghost recs0 = store.records_view();
                        store.insert_batch(b);
                        proof {
                            assert(sizes_of(emitted) =~= sizes_of(emitted.drop_last()).push(
                                BATCH_SIZE as int,
                            ));
                            assert(store.insert_calls() =~= store0.insert_calls() + sizes_of(
                                emitted,
                            ));
                            assert(store.records_view() =~= store0.records_view() + concat_all(
                                emitted,
                            ));
                        }
                    },
                    None => {
                        proof {
                            assert(concat_all(emitted) + batcher.acc_view() =~= successes(
                                processed,
                            ));
                        }
                    },
                }
            },
        }
    }
    let ghost succ = successes(all_out);
    proof {
        assert(processed =~= all_out);
    }
    match batcher.finish() {
        Some(b) => {
            proof {
                lemma_chunks_from_parts(emitted, b@, BATCH_SIZE as int);
                assert(concat_all(emitted) + b@ =~= succ);
                assert(chunks_of(succ, BATCH_SIZE as int) == emitted + seq![b@]);
            }
            store.insert_batch(b);
            proof {
                assert(store.records_view() =~= store0.records_view() + succ);
                assert(sizes_of(emitted + seq![b@]) =~= sizes_of(emitted).push(b@.len() as int));
                assert(store.insert_calls() =~= store0.insert_calls() + sizes_of(
                    chunks_of(succ, BATCH_SIZE as int),
                ));
            }
        },
        None => {
            proof {
                lemma_chunks_from_parts(emitted, Seq::<LogRecordV>::empty(), BATCH_SIZE as int);
                assert(concat_all(emitted) + Seq::<LogRecordV>::empty() =~= concat_all(emitted));
                assert(concat_all(emitted) =~= succ);
                assert(chunks_of(succ, BATCH_SIZE as int) == emitted + Seq::<Seq<
                    LogRecordV,
                >>::empty());
                assert(emitted + Seq::<Seq<LogRecordV>>::empty() =~= emitted);
                assert(store.records_view() =~= store0.records_view() + succ);
            }
        },
    }
    let total = store.count();
    proof {
        assert(store.records_view().len() == store0.records_view().len() + succ.len());
    }
    total - base
}

/// Ingest a whole upload: filter its attachments by declared media
/// type, run each qualifying one through parser, batcher and store in
/// arrival order, and report the total number of records committed.
///
/// Skipped attachments and malformed records contribute nothing and
/// cause no error; batches committed by earlier attachments are durable
/// regardless of what later ones contain.
pub fn ingest(attachments: Vec<Attachment>, store: &mut Store) -> (report: IngestionReport)
    ensures
        final(store).records_view() == old(store).records_view() + all_records(attachments@),
        final(store).insert_calls() == old(store).insert_calls() + all_insert_sizes(
            attachments@,
        ),
        report.total_inserted == all_records(attachments@).len(),
{
    let ghost atts0 = attachments@;
    let ghost store0 = *store;
    let base = store.count();
    let mut pending = attachments;
    proof {
        assert(store0.records_view() + all_records(atts0) =~= store.records_view() + all_records(
            pending@,
        ));
        assert(store0.insert_calls() + all_insert_sizes(atts0) =~= store.insert_calls()
            + all_insert_sizes(pending@));
    }
    while pending.len() > 0
        invariant
            store0.records_view() + all_records(atts0) == store.records_view() + all_records(
                pending@,
            ),
            store0.insert_calls() + all_insert_sizes(atts0) == store.insert_calls()
                + all_insert_sizes(pending@),
        decreases pending@.len(),
    {
        let ghost pend0 = pending@;
        let a = pending.remove(0);
        let ghost av = a;
        proof {
            assert(pending@ =~= pend0.drop_first());
            assert(av == pend0[0]);
        }
        let ghost before = *store;
        let Attachment { content_type, data } = a;
        if is_text_csv(&content_type) {
            proof {
                assert(qualifies(av));
            }
            process_attachment(data, store);
            proof {
                assert(data@ == av.data@);
                assert(store.records_view() =~= before.records_view() + att_records(av));
                assert(store.insert_calls() =~= before.insert_calls() + att_insert_sizes(av));
                assert(all_records(pend0) == att_records(av) + all_records(pending@));
                assert(all_insert_sizes(pend0) == att_insert_sizes(av) + all_insert_sizes(
                    pending@,
                ));
                assert(store0.records_view() + all_records(atts0) =~= store.records_view()
                    + all_records(pending@));
                assert(store0.insert_calls() + all_insert_sizes(atts0) =~= store.insert_calls()
                    + all_insert_sizes(pending@));
            }
        } else {
            proof {
                assert(!qualifies(av));
                assert(all_records(pend0) =~= all_records(pending@));
                assert(all_insert_sizes(pend0) =~= all_insert_sizes(pending@));
            }
        }
    }
    proof {
        assert(all_records(pending@) =~= Seq::<LogRecordV>::empty());
        assert(all_insert_sizes(pending@) =~= Seq::<int>::empty());
        assert(store.records_view() =~= store0.records_view() + all_records(atts0));
        assert(store.insert_calls() =~= store0.insert_calls() + all_insert_sizes(atts0));
        assert(store.records_view().len() == store0.records_view().len() + all_records(
            atts0,
        ).len());
    }
    let total = store.count();
    IngestionReport { total_inserted: total - base }
}

} // verus!
