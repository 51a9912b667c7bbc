//! The record codec: between one raw delimited line and a typed record.
//!
//! A raw record is `user_agent,response_time,timestamp` — three fields
//! separated by commas, the timestamp in its 20-byte wire form.  Decoding
//! never panics and never throws: a malformed record comes back as a
//! `Failed` outcome carrying the reason and the raw line.

use vstd::prelude::*;
use crate::num::dec_str;
use crate::num::dec_value;
use crate::num::is_u32_str;
use crate::num::is_digit;
use crate::num::lemma_dec_str;
use crate::num::parse_u32;
use crate::num::push_dec;
use crate::record::DecodeError;
use crate::record::DecodeOutcome;
use crate::record::DecodeReason;
use crate::record::LogRecord;
use crate::record::LogRecordV;
use crate::record::OutcomeV;
use crate::record::recs_of;
use crate::split::split_fields;
use crate::split::split_on;
use crate::split::views_of;
use crate::split::lemma_split_on_join;
use crate::split::lemma_split_on_whole;
use crate::timestamp::ts_of;
use crate::timestamp::ts_str;
use crate::timestamp::lemma_ts_round_trip;
use crate::timestamp::lemma_ts_str_bytes;
use crate::timestamp::parse_timestamp;
use crate::timestamp::push_timestamp;

verus! {

/// The field separator of the wire format: a comma.
pub const FIELD_SEP: u8 = 44;

/// What decoding one raw record yields: the record, or the first reason
/// it is malformed (field count, then response time, then timestamp).
pub open spec fn decode_spec(l: Seq<u8>) -> OutcomeV {
    let fs = split_on(l, 44);
    if fs.len() != 3 {
        OutcomeV::Failed(DecodeReason::WrongFieldCount, l)
    } else if !is_u32_str(fs[1]) {
        OutcomeV::Failed(DecodeReason::BadResponseTime, l)
    } else if ts_of(fs[2]) is None {
        OutcomeV::Failed(DecodeReason::BadTimestamp, l)
    } else {
        OutcomeV::Parsed(
            LogRecordV {
                user_agent: fs[0],
                response_time: dec_value(fs[1]) as u32,
                timestamp: ts_of(fs[2])->Some_0,
            },
        )
    }
}

/// The wire form of a record: its three fields joined by commas.
pub open spec fn encode_spec(r: LogRecordV) -> Seq<u8> {
    r.user_agent + seq![44u8] + dec_str(r.response_time as nat) + seq![44u8] + ts_str(r.timestamp)
}

/// Decode one raw record.  No side effects; a malformed record is
/// returned as a value, never thrown.
pub fn decode_record(line: Vec<u8>) -> (o: DecodeOutcome)
    ensures
        o@ == decode_spec(line@),
{
    let mut fields = split_fields(&line, FIELD_SEP);
    if fields.len() != 3 {
        return DecodeOutcome::Failed(
            DecodeError { reason: DecodeReason::WrongFieldCount, raw: line },
        );
    }
    let response_time = match parse_u32(&fields[1]) {
        Some(v) => v,
        None => {
            return DecodeOutcome::Failed(
                DecodeError { reason: DecodeReason::BadResponseTime, raw: line },
            );
        },
    };
    let timestamp = match parse_timestamp(&fields[2]) {
        Some(t) => t,
        None => {
            return DecodeOutcome::Failed(
                DecodeError { reason: DecodeReason::BadTimestamp, raw: line },
            );
        },
    };
    let user_agent = fields.remove(0);
    DecodeOutcome::Parsed(LogRecord { user_agent, response_time, timestamp })
}

/// Encode a record as one raw line (without a line terminator).  The
/// inverse of decoding.  The timestamp must be a real calendar instant:
/// the wire format carries years of four digits only.
pub fn encode_record(r: &LogRecord) -> (out: Vec<u8>)
    requires
        r@.timestamp.wf(),
    ensures
        out@ == encode_spec(r@),
{
    let mut out: Vec<u8> = Vec::new();
    let mut i: usize = 0;
    while i < r.user_agent.len()
        invariant
            0 <= i <= r.user_agent@.len(),
            out@ == r.user_agent@.subrange(0, i as int),
        decreases r.user_agent@.len() - i,
    {
        out.push(r.user_agent[i]);
        assert(out@ =~= r.user_agent@.subrange(0, i + 1));
        i += 1;
    }
    assert(out@ =~= r.user_agent@);
    out.push(FIELD_SEP);
    push_dec(r.response_time, &mut out);
    out.push(FIELD_SEP);
    push_timestamp(&r.timestamp, &mut out);
    assert(out@ =~= encode_spec(r@));
    out
}

/// The wire form of a whole record sequence: one line per record, each
/// ended by a line feed.
pub open spec fn encode_all_spec(rs: Seq<LogRecordV>) -> Seq<u8>
    decreases rs.len(),
{
    if rs.len() == 0 {
        Seq::empty()
    } else {
        encode_all_spec(rs.drop_last()) + encode_spec(rs.last()) + seq![10u8]
    }
}

/// Serialize records for the retrieval path: every record on its own
/// terminated line, in the order given.
pub fn encode_records(rs: &Vec<LogRecord>) -> (out: Vec<u8>)
    requires
        forall|i: int| 0 <= i < rs@.len() ==> (#[trigger] rs@[i])@.timestamp.wf(),
    ensures
        out@ == encode_all_spec(recs_of(rs@)),
{
    let mut out: Vec<u8> = Vec::new();
    let mut i: usize = 0;
    proof {
        assert(recs_of(rs@).subrange(0, 0) =~= Seq::<LogRecordV>::empty());
    }
    while i < rs.len()
        invariant
            0 <= i <= rs@.len(),
            forall|k: int| 0 <= k < rs@.len() ==> (#[trigger] rs@[k])@.timestamp.wf(),
            out@ == encode_all_spec(recs_of(rs@).subrange(0, i as int)),
        decreases rs@.len() - i,
    {
        let line = encode_record(&rs[i]);
        let mut j: usize = 0;
        let ghost mid = out@;
        while j < line.len()
            invariant
                0 <= j <= line@.len(),
                out@ == mid + line@.subrange(0, j as int),
            decreases line@.len() - j,
        {
            out.push(line[j]);
            assert(out@ =~= mid + line@.subrange(0, j + 1));
            j += 1;
        }
        out.push(10);
        proof {
            let longer = recs_of(rs@).subrange(0, i + 1);
            assert(longer.drop_last() =~= recs_of(rs@).subrange(0, i as int));
            assert(longer.last() == rs@[i as int]@);
            assert(line@.subrange(0, line@.len() as int) =~= line@);
            assert(out@ =~= encode_all_spec(longer));
        }
        i += 1;
    }
    proof {
        assert(recs_of(rs@).subrange(0, i as int) =~= recs_of(rs@));
    }
    out
}

/// Encode a record if its timestamp is one the wire format can carry;
/// otherwise hand it back untouched.
pub fn try_encode_record(r: &LogRecord) -> (out: Option<Vec<u8>>)
    ensures
        match out {
            Some(v) => r@.timestamp.wf() && v@ == encode_spec(r@),
            None => !r@.timestamp.wf(),
        },
{
    if r.timestamp.valid() {
        Some(encode_record(r))
    } else {
        None
    }
}

/// The wire form of a carryable record is a proper line: non-blank,
/// free of line feeds, and not ending in a carriage return.
pub proof fn lemma_encode_line_bytes(r: LogRecordV)
    requires
        r.wf(),
    ensures
        encode_spec(r).len() > 0,
        forall|j: int| 0 <= j < encode_spec(r).len() ==> encode_spec(r)[j] != 10,
        encode_spec(r)[encode_spec(r).len() - 1] != 13,
{
    let ua = r.user_agent;
    let ds = dec_str(r.response_time as nat);
    let ts = ts_str(r.timestamp);
    let e = encode_spec(r);
    lemma_dec_str(r.response_time as nat);
    lemma_ts_str_bytes(r.timestamp);
    assert(e.len() == ua.len() + ds.len() + ts.len() + 2);
    assert forall|j: int| 0 <= j < e.len() implies e[j] != 10 by {
        if j < ua.len() {
            assert(e[j] == ua[j]);
        } else if j == ua.len() {
            assert(e[j] == 44);
        } else if j < ua.len() + 1 + ds.len() {
            assert(e[j] == ds[j - ua.len() - 1]);
            assert(is_digit(ds[j - ua.len() - 1]));
        } else if j == ua.len() + 1 + ds.len() {
            assert(e[j] == 44);
        } else {
            assert(e[j] == ts[j - ua.len() - ds.len() - 2]);
        }
    }
    assert(e[e.len() - 1] == ts[ts.len() - 1]);
}

/// Round trip: decoding the encoding of any record the wire format can
/// carry gives back exactly that record.
pub proof fn lemma_round_trip(r: LogRecordV)
    requires
        r.wf(),
    ensures
        decode_spec(encode_spec(r)) == OutcomeV::Parsed(r),
{
    let ds = dec_str(r.response_time as nat);
    let ts = ts_str(r.timestamp);
    lemma_dec_str(r.response_time as nat);
    lemma_ts_round_trip(r.timestamp);
    lemma_ts_str_bytes(r.timestamp);
    assert forall|j: int| 0 <= j < ds.len() implies ds[j] != 44 by {
        assert(is_digit(ds[j]));
    }
    let tail = ds + seq![44u8] + ts;
    assert(encode_spec(r) =~= r.user_agent + seq![44u8] + tail);
    lemma_split_on_join(r.user_agent, 44, tail);
    lemma_split_on_join(ds, 44, ts);
    lemma_split_on_whole(ts, 44);
    let fs = split_on(encode_spec(r), 44);
    assert(fs =~= seq![r.user_agent, ds, ts]);
    assert(decode_spec(encode_spec(r))->Parsed_0 =~= r);
}

} // verus!
