//! Splitting byte sequences on a separator: the line and field structure
//! of the wire format.

use vstd::prelude::*;

verus! {

/// Index of the first occurrence of `b` in `s`; `s.len()` when absent.
pub open spec fn find_byte(s: Seq<u8>, b: u8) -> int
    decreases s.len(),
{
    if s.len() == 0 {
        0
    } else if s[0] == b {
        0
    } else {
        1 + find_byte(s.drop_first(), b)
    }
}

pub proof fn lemma_find_byte(s: Seq<u8>, b: u8)
    ensures
        0 <= find_byte(s, b) <= s.len(),
        forall|j: int| 0 <= j < find_byte(s, b) ==> s[j] != b,
        find_byte(s, b) < s.len() ==> s[find_byte(s, b)] == b,
    decreases s.len(),
{
    if s.len() > 0 && s[0] != b {
        lemma_find_byte(s.drop_first(), b);
        assert forall|j: int| 0 <= j < find_byte(s, b) implies s[j] != b by {
            if j > 0 {
                assert(s.drop_first()[j - 1] == s[j]);
            }
        }
    }
}

/// The pieces of `s` between occurrences of the separator `b`, in order.
/// A sequence with no separator is one piece; each separator ends a piece.
pub open spec fn split_on(s: Seq<u8>, b: u8) -> Seq<Seq<u8>>
    decreases s.len(),
{
    let i = find_byte(s, b);
    if 0 <= i && i < s.len() {
        seq![s.subrange(0, i)] + split_on(s.subrange(i + 1, s.len() as int), b)
    } else {
        seq![s]
    }
}

/// A sequence without the separator is a single piece.
pub proof fn lemma_split_on_whole(s: Seq<u8>, b: u8)
    requires
        forall|j: int| 0 <= j < s.len() ==> s[j] != b,
    ensures
        split_on(s, b) == seq![s],
{
    lemma_find_byte(s, b);
}

/// The first separator splits off the first piece.
pub proof fn lemma_split_on_join(a: Seq<u8>, b: u8, rest: Seq<u8>)
    requires
        forall|j: int| 0 <= j < a.len() ==> a[j] != b,
    ensures
        split_on(a + seq![b] + rest, b) == seq![a] + split_on(rest, b),
{
    let s = a + seq![b] + rest;
    lemma_find_byte(s, b);
    let i = find_byte(s, b);
    assert(s[a.len() as int] == b);
    assert(i <= a.len());
    assert(forall|j: int| 0 <= j < a.len() ==> s[j] == a[j]);
    assert(i == a.len());
    assert(s.subrange(0, i) =~= a);
    assert(s.subrange(i + 1, s.len() as int) =~= rest);
}

/// The views of a vector of byte vectors.
pub open spec fn views_of(fs: Seq<Vec<u8>>) -> Seq<Seq<u8>> {
    fs.map_values(|f: Vec<u8>| f@)
}

/// Split a record line into its fields at the separator `b`.
pub fn split_fields(line: &Vec<u8>, b: u8) -> (fields: Vec<Vec<u8>>)
    ensures
        views_of(fields@) == split_on(line@, b),
{
    let n = line.len();
    let mut fields: Vec<Vec<u8>> = Vec::new();
    let mut cur: Vec<u8> = Vec::new();
    let mut start: usize = 0;
    let mut i: usize = 0;
    proof {
        assert(line@.subrange(0, n as int) =~= line@);
        assert(views_of(fields@) + split_on(line@, b) =~= split_on(line@, b));
    }
    while i < n
        invariant
            n == line@.len(),
            0 <= start <= i <= n,
            cur@ == line@.subrange(start as int, i as int),
            forall|j: int| start <= j < i ==> line@[j] != b,
            split_on(line@, b) == views_of(fields@) + split_on(
                line@.subrange(start as int, n as int),
                b,
            ),
        decreases n - i,
    {
        let c = line[i];
        if c == b {
            proof {
                let suffix = line@.subrange(start as int, n as int);
                let after = line@.subrange(i + 1, n as int);
                assert(suffix =~= cur@ + seq![b] + after);
                lemma_split_on_join(cur@, b, after);
                assert(views_of(fields@.push(cur)) =~= views_of(fields@) + seq![cur@]);
                assert(views_of(fields@) + (seq![cur@] + split_on(after, b)) =~= (views_of(
                    fields@,
                ) + seq![cur@]) + split_on(after, b));
            }
            fields.push(cur);
            cur = Vec::new();
            start = i + 1;
            assert(cur@ =~= line@.subrange(start as int, start as int));
        } else {
            cur.push(c);
            assert(cur@ =~= line@.subrange(start as int, i + 1));
        }
        i += 1;
    }
    proof {
        let suffix = line@.subrange(start as int, n as int);
        assert(suffix == cur@);
        lemma_split_on_whole(suffix, b);
        assert(views_of(fields@.push(cur)) =~= views_of(fields@) + seq![cur@]);
    }
    fields.push(cur);
    fields
}

} // verus!
