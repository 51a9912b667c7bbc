//! The load-bearing guarantees of the pipeline, stated and proved once,
//! over the same specifications the executable contracts use.

use vstd::prelude::*;
use crate::batch::BATCH_SIZE;
use crate::batch::chunks_of;
use crate::batch::concat_all;
use crate::batch::lemma_chunk_plan;
use crate::codec::decode_spec;
use crate::codec::encode_all_spec;
use crate::codec::encode_spec;
use crate::codec::lemma_encode_line_bytes;
use crate::codec::lemma_round_trip;
use crate::ingest::Attachment;
use crate::ingest::all_insert_sizes;
use crate::ingest::all_records;
use crate::ingest::att_insert_sizes;
use crate::ingest::att_records;
use crate::ingest::qualifies;
use crate::ingest::sizes_of;
use crate::parser::outcomes_of;
use crate::parser::record_lines;
use crate::parser::lemma_record_lines_join;
use crate::record::lemma_successes_prepend;
use crate::record::LogRecordV;
use crate::record::OutcomeV;
use crate::record::successes;

verus! {

/// On a stream with no malformed record, every outcome contributes: the
/// ingested count equals the record count.
pub proof fn lemma_successes_all_parsed(os: Seq<OutcomeV>)
    requires
        forall|i: int| 0 <= i < os.len() ==> os[i] is Parsed,
    ensures
        successes(os).len() == os.len(),
        forall|i: int| 0 <= i < os.len() ==> successes(os)[i] == os[i]->Parsed_0,
    decreases os.len(),
{
    if os.len() > 0 {
        lemma_successes_all_parsed(os.drop_last());
        assert(os.last() is Parsed);
    }
}

/// The persistence plan for `s` records: the ceiling of `len / BATCH_SIZE`
/// insert calls, all of size `BATCH_SIZE` except a final non-empty
/// remainder.
pub proof fn lemma_insert_call_plan(s: Seq<LogRecordV>)
    ensures
        sizes_of(chunks_of(s, BATCH_SIZE as int)).len() == (s.len() + BATCH_SIZE - 1) / (
        BATCH_SIZE as int),
        forall|i: int|
            0 <= i < sizes_of(chunks_of(s, BATCH_SIZE as int)).len() - 1 ==> #[trigger] sizes_of(
                chunks_of(s, BATCH_SIZE as int),
            )[i] == BATCH_SIZE,
        sizes_of(chunks_of(s, BATCH_SIZE as int)).len() > 0 ==> sizes_of(
            chunks_of(s, BATCH_SIZE as int),
        ).last() == s.len() - BATCH_SIZE * (sizes_of(chunks_of(s, BATCH_SIZE as int)).len() - 1),
        sizes_of(chunks_of(s, BATCH_SIZE as int)).len() > 0 ==> 0 < sizes_of(
            chunks_of(s, BATCH_SIZE as int),
        ).last() <= BATCH_SIZE,
{
    lemma_chunk_plan(s, BATCH_SIZE as int);
    let cs = chunks_of(s, BATCH_SIZE as int);
    assert(sizes_of(cs).len() == cs.len());
    assert forall|i: int| 0 <= i < sizes_of(cs).len() - 1 implies #[trigger] sizes_of(cs)[i]
        == BATCH_SIZE by {
        assert(sizes_of(cs)[i] == cs[i].len() as int);
    }
    if cs.len() > 0 {
        assert(sizes_of(cs).last() == cs.last().len() as int);
    }
}

/// Chunk boundaries are a function of the successes alone: two outcome
/// streams with the same well-formed records — however many malformed
/// records stand between them, and wherever — produce the same batches
/// and the same insert calls.  A malformed record never occupies a slot
/// in a batch.
pub proof fn lemma_failures_never_fill_slots(a: Seq<OutcomeV>, b: Seq<OutcomeV>)
    requires
        successes(a) == successes(b),
    ensures
        chunks_of(successes(a), BATCH_SIZE as int) == chunks_of(successes(b), BATCH_SIZE as int),
        sizes_of(chunks_of(successes(a), BATCH_SIZE as int)) == sizes_of(
            chunks_of(successes(b), BATCH_SIZE as int),
        ),
{
}

/// Resubmitting the same attachments is not idempotent: the second pass
/// appends every record again — the store holds them twice, each pass
/// reports the same count, and nothing is deduplicated.
pub proof fn lemma_resubmission_duplicates(prior: Seq<LogRecordV>, atts: Seq<Attachment>)
    ensures
        (prior + all_records(atts)) + all_records(atts) == prior + (all_records(atts)
            + all_records(atts)),
        ((prior + all_records(atts)) + all_records(atts)).len() == prior.len() + 2 * all_records(
            atts,
        ).len(),
        all_records(atts).len() > 0 ==> (prior + all_records(atts)) + all_records(atts) != prior
            + all_records(atts),
{
    let r = all_records(atts);
    assert((prior + r) + r =~= prior + (r + r));
    if r.len() > 0 {
        assert(((prior + r) + r).len() != (prior + r).len());
    }
}

/// Exactly one full batch at the boundary: `BATCH_SIZE` records yield
/// one batch of `BATCH_SIZE` and no partial batch; one record more
/// yields a full batch followed by a batch of one.
pub proof fn lemma_batch_boundary(s: Seq<LogRecordV>)
    ensures
        s.len() == BATCH_SIZE ==> chunks_of(s, BATCH_SIZE as int) == seq![s],
        s.len() == BATCH_SIZE + 1 ==> chunks_of(s, BATCH_SIZE as int) == seq![
            s.subrange(0, BATCH_SIZE as int),
            s.subrange(BATCH_SIZE as int, s.len() as int),
        ],
{
    if s.len() == BATCH_SIZE {
        assert(chunks_of(s, BATCH_SIZE as int) =~= seq![s]);
    }
    if s.len() == BATCH_SIZE + 1 {
        let rest = s.subrange(BATCH_SIZE as int, s.len() as int);
        assert(chunks_of(rest, BATCH_SIZE as int) =~= seq![rest]);
        assert(chunks_of(s, BATCH_SIZE as int) =~= seq![s.subrange(0, BATCH_SIZE as int), rest]);
    }
}

/// An empty attachment yields no batch, no insert call, and no record.
pub proof fn lemma_empty_attachment(a: Attachment)
    requires
        a.data@.len() == 0,
    ensures
        att_records(a) == Seq::<LogRecordV>::empty(),
        att_insert_sizes(a) == Seq::<int>::empty(),
{
    assert(record_lines(a.data@) =~= Seq::<Seq<u8>>::empty());
    assert(outcomes_of(a.data@) =~= Seq::<OutcomeV>::empty());
    assert(att_records(a) =~= Seq::<LogRecordV>::empty());
    assert(chunks_of(att_records(a), BATCH_SIZE as int) =~= Seq::<Seq<LogRecordV>>::empty());
    assert(att_insert_sizes(a) =~= Seq::<int>::empty());
}

/// An attachment with any other declared media type is skipped whole:
/// whatever its bytes, it contributes no record and no insert call to an
/// upload, and causes no error.
pub proof fn lemma_non_csv_skipped(a: Attachment, rest: Seq<Attachment>)
    requires
        !qualifies(a),
    ensures
        all_records(seq![a] + rest) == all_records(rest),
        all_insert_sizes(seq![a] + rest) == all_insert_sizes(rest),
{
    let atts = seq![a] + rest;
    assert(atts[0] == a);
    assert(atts.drop_first() =~= rest);
    assert(all_records(atts) =~= all_records(rest));
    assert(all_insert_sizes(atts) =~= all_insert_sizes(rest));
}

/// The sum of a sequence of counts.
pub open spec fn sum_of(xs: Seq<int>) -> int
    decreases xs.len(),
{
    if xs.len() == 0 {
        0
    } else {
        sum_of(xs.drop_last()) + xs.last()
    }
}

proof fn lemma_sum_concat(a: Seq<int>, b: Seq<int>)
    ensures
        sum_of(a + b) == sum_of(a) + sum_of(b),
    decreases b.len(),
{
    if b.len() == 0 {
        assert(a + b =~= a);
    } else {
        assert((a + b).drop_last() =~= a + b.drop_last());
        lemma_sum_concat(a, b.drop_last());
        assert((a + b).last() == b.last());
    }
}

proof fn lemma_sum_sizes(cs: Seq<Seq<LogRecordV>>)
    ensures
        sum_of(sizes_of(cs)) == concat_all(cs).len(),
    decreases cs.len(),
{
    if cs.len() > 0 {
        lemma_sum_sizes(cs.drop_last());
        assert(sizes_of(cs).drop_last() =~= sizes_of(cs.drop_last()));
        assert(sizes_of(cs).last() == cs.last().len() as int);
    }
}

/// The report and the persistence ledger agree: the total an ingestion
/// reports is exactly the sum of the insert-call sizes the store
/// received for it, over every qualifying attachment.
pub proof fn lemma_report_matches_insert_calls(atts: Seq<Attachment>)
    ensures
        sum_of(all_insert_sizes(atts)) == all_records(atts).len(),
    decreases atts.len(),
{
    if atts.len() == 0 {
    } else {
        lemma_report_matches_insert_calls(atts.drop_first());
        if qualifies(atts[0]) {
            let recs = att_records(atts[0]);
            lemma_chunk_plan(recs, BATCH_SIZE as int);
            lemma_sum_sizes(chunks_of(recs, BATCH_SIZE as int));
            lemma_sum_concat(att_insert_sizes(atts[0]), all_insert_sizes(atts.drop_first()));
        } else {
            assert(Seq::<int>::empty() + all_insert_sizes(atts.drop_first()) =~= all_insert_sizes(
                atts.drop_first(),
            ));
            assert(Seq::<LogRecordV>::empty() + all_records(atts.drop_first()) =~= all_records(
                atts.drop_first(),
            ));
        }
    }
}

/// The first record of a serialized stream stands first: its terminated
/// line, then the rest of the stream.
proof fn lemma_encode_all_first(rs: Seq<LogRecordV>)
    requires
        rs.len() > 0,
    ensures
        encode_all_spec(rs) == (encode_spec(rs[0]) + seq![10u8]) + encode_all_spec(
            rs.drop_first(),
        ),
    decreases rs.len(),
{
    if rs.len() == 1 {
        assert(rs.drop_last() =~= Seq::<LogRecordV>::empty());
        assert(rs.drop_first() =~= Seq::<LogRecordV>::empty());
        assert(rs.last() == rs[0]);
        assert(encode_all_spec(rs) =~= (encode_spec(rs[0]) + seq![10u8]) + encode_all_spec(
            rs.drop_first(),
        ));
    } else {
        lemma_encode_all_first(rs.drop_last());
        assert(rs.drop_last()[0] == rs[0]);
        assert(rs.drop_last().drop_first() =~= rs.drop_first().drop_last());
        assert(rs.drop_first().last() == rs.last());
        assert(encode_all_spec(rs) =~= (encode_spec(rs[0]) + seq![10u8]) + encode_all_spec(
            rs.drop_first(),
        ));
    }
}

/// The whole retrieval stream round-trips: re-uploading what the
/// retrieval path serialized yields exactly the records it served, in
/// order — every line decodes, none is dropped.
pub proof fn lemma_stream_round_trip(rs: Seq<LogRecordV>)
    requires
        forall|i: int| 0 <= i < rs.len() ==> (#[trigger] rs[i]).wf(),
    ensures
        successes(outcomes_of(encode_all_spec(rs))) == rs,
    decreases rs.len(),
{
    if rs.len() == 0 {
        assert(record_lines(encode_all_spec(rs)) =~= Seq::<Seq<u8>>::empty());
        assert(outcomes_of(encode_all_spec(rs)) =~= Seq::<OutcomeV>::empty());
        assert(successes(outcomes_of(encode_all_spec(rs))) =~= rs);
    } else {
        let line = encode_spec(rs[0]);
        let tail = encode_all_spec(rs.drop_first());
        lemma_encode_all_first(rs);
        lemma_encode_line_bytes(rs[0]);
        lemma_record_lines_join(line, tail);
        assert(encode_all_spec(rs) == line + seq![10u8] + tail);
        assert(outcomes_of(encode_all_spec(rs)) =~= seq![decode_spec(line)] + outcomes_of(tail));
        lemma_round_trip(rs[0]);
        lemma_successes_prepend(decode_spec(line), outcomes_of(tail));
        lemma_stream_round_trip(rs.drop_first());
        assert(successes(outcomes_of(encode_all_spec(rs))) =~= rs);
    }
}

} // verus!
