//! The record stream parser: a pull-based cursor over the raw bytes of
//! one attachment, yielding one decode outcome per physical record.
//!
//! Records are lines.  A line ends at a line feed; a carriage return just
//! before the line feed belongs to the terminator, not to the record.  A
//! final line without a terminator is still a record; blank lines are no
//! records at all.  The cursor moves forward only and the source is
//! consumed destructively: the sequence of outcomes is not restartable.
//!
//! A malformed record is a per-record outcome, never a stream failure.
//! A failure to read the byte source itself is fatal to the whole
//! attachment; it belongs to the caller that gathers the bytes, and ends
//! the upload before any of them reach this parser.

use vstd::prelude::*;
use crate::codec::decode_spec;
use crate::codec::decode_record;
use crate::record::DecodeOutcome;
use crate::record::OutcomeV;
use crate::split::find_byte;
use crate::split::lemma_find_byte;

verus! {

/// A line with its terminator's carriage return removed.
pub open spec fn strip_cr(l: Seq<u8>) -> Seq<u8> {
    if l.len() > 0 && l[l.len() - 1] == 13 {
        l.drop_last()
    } else {
        l
    }
}

/// The records (non-blank lines) of a raw byte sequence, in order.
pub open spec fn record_lines(s: Seq<u8>) -> Seq<Seq<u8>>
    decreases s.len(),
{
    if s.len() == 0 {
        Seq::empty()
    } else {
        let i = find_byte(s, 10);
        if 0 <= i && i < s.len() {
            let l = strip_cr(s.subrange(0, i));
            (if l.len() == 0 {
                Seq::empty()
            } else {
                seq![l]
            }) + record_lines(s.subrange(i + 1, s.len() as int))
        } else {
            let l = strip_cr(s);
            if l.len() == 0 {
                Seq::empty()
            } else {
                seq![l]
            }
        }
    }
}

/// One decode outcome per record of a raw byte sequence, in order.
pub open spec fn outcomes_of(s: Seq<u8>) -> Seq<OutcomeV> {
    record_lines(s).map_values(|l: Seq<u8>| decode_spec(l))
}

/// If nothing before `i` is `b`, and `i` is `b` or the end, then `i` is
/// the first occurrence.
proof fn lemma_find_byte_at(s: Seq<u8>, b: u8, i: int)
    requires
        0 <= i <= s.len(),
        forall|k: int| 0 <= k < i ==> s[k] != b,
        i < s.len() ==> s[i] == b,
    ensures
        find_byte(s, b) == i,
{
    lemma_find_byte(s, b);
    let f = find_byte(s, b);
    if f < i {
        assert(s[f] == b);
    } else if f > i {
        assert(i < s.len());
    }
}

/// A terminated line that is non-blank, holds no line feed and does not
/// end in a carriage return is one record, standing before the records
/// of whatever follows it.
pub proof fn lemma_record_lines_join(a: Seq<u8>, rest: Seq<u8>)
    requires
        a.len() > 0,
        forall|j: int| 0 <= j < a.len() ==> a[j] != 10,
        a[a.len() - 1] != 13,
    ensures
        record_lines(a + seq![10u8] + rest) == seq![a] + record_lines(rest),
{
    let s = a + seq![10u8] + rest;
    assert forall|k: int| 0 <= k < a.len() implies s[k] != 10 by {
        assert(s[k] == a[k]);
    }
    assert(s[a.len() as int] == 10);
    lemma_find_byte_at(s, 10, a.len() as int);
    assert(s.subrange(0, a.len() as int) =~= a);
    assert(strip_cr(a) == a);
    assert(s.subrange(a.len() as int + 1, s.len() as int) =~= rest);
    assert(record_lines(s) =~= seq![a] + record_lines(rest));
}

fn copy_range(v: &Vec<u8>, a: usize, c: usize) -> (out: Vec<u8>)
    requires
        a <= c <= v@.len(),
    ensures
        out@ == v@.subrange(a as int, c as int),
{
    let mut out: Vec<u8> = Vec::new();
    let mut i: usize = a;
    while i < c
        invariant
            a <= i <= c <= v@.len(),
            out@ == v@.subrange(a as int, i as int),
        decreases c - i,
    {
        out.push(v[i]);
        assert(out@ =~= v@.subrange(a as int, i + 1));
        i += 1;
    }
    out
}

/// A lazy, finite, forward-only source of decode outcomes over the bytes
/// of one attachment.  Pull-based: each record is cut and decoded only
/// when asked for.
pub struct RecordStreamParser {
    data: Vec<u8>,
    pos: usize,
}

impl RecordStreamParser {
    /// The cursor sits at the start of a line (or at the very end).
    pub closed spec fn wf(self) -> bool {
        &&& self.pos <= self.data@.len()
        &&& (self.pos == 0 || self.pos == self.data@.len() || self.data@[self.pos as int - 1]
            == 10)
    }

    /// The outcomes this parser has yet to produce.
    pub closed spec fn remaining(self) -> Seq<OutcomeV> {
        outcomes_of(self.data@.subrange(self.pos as int, self.data@.len() as int))
    }

    /// Take ownership of an attachment's bytes and stand ready to produce
    /// one outcome per record in them.
    pub fn new(data: Vec<u8>) -> (p: RecordStreamParser)
        ensures
            p.wf(),
            p.remaining() == outcomes_of(data@),
    {
        let p = RecordStreamParser { data, pos: 0 };
        proof {
            assert(p.data@.subrange(0, p.data@.len() as int) =~= p.data@);
        }
        p
    }

    /// Produce the next record's outcome, or `None` at the end of the
    /// stream.  Exactly one outcome per record: a malformed record is
    /// reported and the stream goes on past it.
    pub fn next_outcome(&mut self) -> (r: Option<DecodeOutcome>)
        requires
            old(self).wf(),
        ensures
            final(self).wf(),
            match r {
                None => old(self).remaining() == Seq::<OutcomeV>::empty() && final(self).remaining()
                    == Seq::<OutcomeV>::empty(),
                Some(o) => old(self).remaining() == seq![o@] + final(self).remaining(),
            },
    {
        loop
            invariant
                self.wf(),
                self.data == old(self).data,
                self.remaining() == old(self).remaining(),
            decreases self.data@.len() - self.pos,
        {
            let n = self.data.len();
            if self.pos >= n {
                proof {
                    assert(self.data@.subrange(self.pos as int, n as int) =~= Seq::<u8>::empty());
                }
                return None;
            }
            let ghost s = self.data@.subrange(self.pos as int, n as int);
            let ghost p0 = self.pos as int;
            let mut j: usize = self.pos;
            while j < n && self.data[j] != 10
                invariant
                    self.pos <= j <= n,
                    n == self.data@.len(),
                    forall|k: int| self.pos <= k < j ==> self.data@[k] != 10,
                decreases n - j,
            {
                j += 1;
            }
            proof {
                assert forall|k: int| 0 <= k < j - self.pos implies s[k] != 10 by {
                    assert(s[k] == self.data@[self.pos + k]);
                }
                lemma_find_byte_at(s, 10, j - self.pos);
            }
            let end = if j > self.pos && self.data[j - 1] == 13 {
                j - 1
            } else {
                j
            };
            let line = copy_range(&self.data, self.pos, end);
            proof {
                let i = j - self.pos;
                assert(s.subrange(0, i as int) =~= self.data@.subrange(self.pos as int, j as int));
                if i < s.len() {
                    assert(strip_cr(s.subrange(0, i as int)) =~= line@);
                } else {
                    assert(s.subrange(0, i as int) =~= s);
                    assert(strip_cr(s) =~= line@);
                }
            }
            let newpos = if j < n {
                j + 1
            } else {
                j
            };
            let ghost old_rem = self.remaining();
            self.pos = newpos;
            proof {
                let rest = self.data@.subrange(self.pos as int, n as int);
                if j < n {
                    assert(s.subrange(j - p0 + 1, s.len() as int) =~= rest);
                    assert(record_lines(s) =~= (if line@.len() == 0 {
                        Seq::<Seq<u8>>::empty()
                    } else {
                        seq![line@]
                    }) + record_lines(rest));
                } else {
                    assert(rest =~= Seq::<u8>::empty());
                    assert(record_lines(s) =~= (if line@.len() == 0 {
                        Seq::<Seq<u8>>::empty()
                    } else {
                        seq![line@]
                    }) + record_lines(rest));
                }
                if line@.len() == 0 {
                    assert(old_rem =~= self.remaining());
                } else {
                    assert(old_rem =~= seq![decode_spec(line@)] + self.remaining());
                }
            }
            if line.len() > 0 {
                let o = decode_record(line);
                return Some(o);
            }
        }
    }
}

} // verus!
