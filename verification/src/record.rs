//! The typed in-memory form of one access-log record, and the outcome of
//! decoding one raw record.

use vstd::prelude::*;
use crate::timestamp::Timestamp;

verus! {

/// One access-log record: who asked, how long the answer took, and when.
/// Immutable once constructed.
#[derive(Debug)]
pub struct LogRecord {
    pub user_agent: Vec<u8>,
    pub response_time: u32,
    pub timestamp: Timestamp,
}

/// The mathematical value of a record.
#[verifier::ext_equal]
pub ghost struct LogRecordV {
    pub user_agent: Seq<u8>,
    pub response_time: u32,
    pub timestamp: Timestamp,
}

impl View for LogRecord {
    type V = LogRecordV;

    open spec fn view(&self) -> LogRecordV {
        LogRecordV {
            user_agent: self.user_agent@,
            response_time: self.response_time,
            timestamp: self.timestamp,
        }
    }
}

impl LogRecordV {
    /// A record the line-oriented wire format can carry: the user agent
    /// holds no field separator and no line break, and the timestamp is a
    /// real calendar date and time.
    pub open spec fn wf(self) -> bool {
        &&& forall|i: int|
            0 <= i < self.user_agent.len() ==> self.user_agent[i] != 44 && self.user_agent[i]
                != 10 && self.user_agent[i] != 13
        &&& self.timestamp.wf()
    }
}

impl LogRecord {
    /// An independent copy with the same value.
    pub fn duplicate(&self) -> (c: LogRecord)
        ensures
            c@ == self@,
    {
        let mut ua: Vec<u8> = Vec::new();
        let mut i: usize = 0;
        while i < self.user_agent.len()
            invariant
                0 <= i <= self.user_agent@.len(),
                ua@ == self.user_agent@.subrange(0, i as int),
            decreases self.user_agent@.len() - i,
        {
            ua.push(self.user_agent[i]);
            assert(ua@ =~= self.user_agent@.subrange(0, i + 1));
            i += 1;
        }
        assert(ua@ =~= self.user_agent@);
        LogRecord {
            user_agent: ua,
            response_time: self.response_time,
            timestamp: self.timestamp,
        }
    }
}

/// Why one raw record was rejected.
#[derive(Clone, Copy, PartialEq, Eq, Structural, Debug)]
pub enum DecodeReason {
    /// The record does not have exactly three fields.
    WrongFieldCount,
    /// The response-time field is not a decimal number that fits.
    BadResponseTime,
    /// The timestamp field is not a valid calendar instant.
    BadTimestamp,
}

/// A rejected raw record: the reason, and the line as it stood.
#[derive(Debug)]
pub struct DecodeError {
    pub reason: DecodeReason,
    pub raw: Vec<u8>,
}

/// The per-record result of decoding one raw record.  A `Failed` outcome
/// is data, not a thrown error: the stream goes on past it.
#[derive(Debug)]
pub enum DecodeOutcome {
    Parsed(LogRecord),
    Failed(DecodeError),
}

/// The mathematical value of a decode outcome.
#[verifier::ext_equal]
pub ghost enum OutcomeV {
    Parsed(LogRecordV),
    Failed(DecodeReason, Seq<u8>),
}

impl View for DecodeOutcome {
    type V = OutcomeV;

    open spec fn view(&self) -> OutcomeV {
        match self {
            DecodeOutcome::Parsed(r) => OutcomeV::Parsed(r@),
            DecodeOutcome::Failed(e) => OutcomeV::Failed(e.reason, e.raw@),
        }
    }
}

/// The views of a vector of records.
pub open spec fn recs_of(rs: Seq<LogRecord>) -> Seq<LogRecordV> {
    rs.map_values(|r: LogRecord| r@)
}

/// The well-formed records among a sequence of outcomes, in order.
pub open spec fn successes(os: Seq<OutcomeV>) -> Seq<LogRecordV>
    decreases os.len(),
{
    if os.len() == 0 {
        Seq::empty()
    } else {
        successes(os.drop_last()) + if os.last() is Parsed {
            seq![os.last()->Parsed_0]
        } else {
            Seq::empty()
        }
    }
}

/// A success never slips out of, and a failure never slips into, the
/// record sequence: appending one outcome appends its record or nothing.
pub proof fn lemma_successes_push(os: Seq<OutcomeV>, o: OutcomeV)
    ensures
        successes(os.push(o)) == successes(os) + if o is Parsed {
            seq![o->Parsed_0]
        } else {
            Seq::<LogRecordV>::empty()
        },
{
    assert(os.push(o).drop_last() =~= os);
    assert(os.push(o).last() == o);
}

/// The same, from the front: prepending one outcome prepends its record
/// or nothing.
pub proof fn lemma_successes_prepend(o: OutcomeV, os: Seq<OutcomeV>)
    ensures
        successes(seq![o] + os) == (if o is Parsed {
            seq![o->Parsed_0]
        } else {
            Seq::<LogRecordV>::empty()
        }) + successes(os),
    decreases os.len(),
{
    let s = seq![o] + os;
    let head = if o is Parsed {
        seq![o->Parsed_0]
    } else {
        Seq::<LogRecordV>::empty()
    };
    if os.len() == 0 {
        assert(s.drop_last() =~= Seq::<OutcomeV>::empty());
        assert(s.last() == o);
        assert(successes(Seq::<OutcomeV>::empty()) =~= Seq::<LogRecordV>::empty());
        assert(successes(s) =~= head + successes(os));
    } else {
        assert(s.drop_last() =~= seq![o] + os.drop_last());
        lemma_successes_prepend(o, os.drop_last());
        assert(s.last() == os.last());
        assert(successes(s) =~= head + successes(os));
    }
}

} // verus!
