//! Decimal digit strings: the textual encoding of the response-time field.

use vstd::prelude::*;
use vstd::arithmetic::div_mod::lemma_fundamental_div_mod;

verus! {

pub open spec fn is_digit(b: u8) -> bool {
    48 <= b && b <= 57
}

pub open spec fn digit_val(b: u8) -> int {
    b - 48
}

pub open spec fn all_digits(s: Seq<u8>) -> bool {
    forall|i: int| 0 <= i < s.len() ==> is_digit(s[i])
}

/// Numeric value of a digit string, most significant digit first.
pub open spec fn dec_value(s: Seq<u8>) -> int
    decreases s.len(),
{
    if s.len() == 0 {
        0
    } else {
        10 * dec_value(s.drop_last()) + digit_val(s.last())
    }
}

/// The strings the response-time decoder accepts: non-empty, all digits,
/// and a value that fits in `u32` (leading zeros are allowed).
pub open spec fn is_u32_str(s: Seq<u8>) -> bool {
    s.len() > 0 && all_digits(s) && dec_value(s) <= u32::MAX
}

pub proof fn lemma_dec_value_nonneg(s: Seq<u8>)
    requires
        all_digits(s),
    ensures
        dec_value(s) >= 0,
    decreases s.len(),
{
    if s.len() > 0 {
        lemma_dec_value_nonneg(s.drop_last());
    }
}

/// A digit string's value never shrinks as more digits are appended.
pub proof fn lemma_dec_value_prefix_le(s: Seq<u8>, i: int)
    requires
        all_digits(s),
        0 <= i <= s.len(),
    ensures
        dec_value(s.subrange(0, i)) <= dec_value(s),
    decreases s.len() - i,
{
    if i == s.len() {
        assert(s.subrange(0, i) =~= s);
    } else {
        lemma_dec_value_prefix_le(s, i + 1);
        let p = s.subrange(0, i + 1);
        assert(p.drop_last() =~= s.subrange(0, i));
        assert(all_digits(p.drop_last()));
        lemma_dec_value_nonneg(p.drop_last());
    }
}

/// Parse a decimal field as a `u32`; `None` exactly on inputs that are not
/// a well-formed `u32` digit string.
pub fn parse_u32(s: &Vec<u8>) -> (r: Option<u32>)
    ensures
        match r {
            Some(v) => is_u32_str(s@) && v == dec_value(s@),
            None => !is_u32_str(s@),
        },
{
    if s.len() == 0 {
        return None;
    }
    let mut acc: u64 = 0;
    let mut i: usize = 0;
    while i < s.len()
        invariant
            0 <= i <= s.len(),
            all_digits(s@.subrange(0, i as int)),
            acc == dec_value(s@.subrange(0, i as int)),
            acc <= u32::MAX,
        decreases s.len() - i,
    {
        let b = s[i];
        if b < 48 || b > 57 {
            assert(!is_digit(s@[i as int]));
            return None;
        }
        acc = acc * 10 + (b - 48) as u64;
        proof {
            assert(s@.subrange(0, i + 1).drop_last() =~= s@.subrange(0, i as int));
            assert(s@.subrange(0, i + 1).last() == s@[i as int]);
        }
        i += 1;
        if acc > u32::MAX as u64 {
            proof {
                if all_digits(s@) {
                    lemma_dec_value_prefix_le(s@, i as int);
                }
            }
            return None;
        }
    }
    assert(s@.subrange(0, i as int) =~= s@);
    Some(acc as u32)
}

/// Canonical decimal rendering of a number: no leading zeros (except for
/// the number zero itself).
pub open spec fn dec_str(v: nat) -> Seq<u8>
    decreases v,
{
    if v < 10 {
        seq![(48 + v) as u8]
    } else {
        dec_str(v / 10).push((48 + v % 10) as u8)
    }
}

pub proof fn lemma_dec_str(v: nat)
    ensures
        dec_str(v).len() >= 1,
        all_digits(dec_str(v)),
        dec_value(dec_str(v)) == v,
    decreases v,
{
    if v < 10 {
        assert(dec_value(dec_str(v)) == 10 * dec_value(dec_str(v).drop_last()) + digit_val(
            dec_str(v).last(),
        ));
        assert(dec_str(v).drop_last() =~= Seq::<u8>::empty());
    } else {
        lemma_dec_str(v / 10);
        lemma_fundamental_div_mod(v as int, 10);
        let d = (48 + v % 10) as u8;
        assert(dec_str(v).drop_last() =~= dec_str(v / 10));
        assert(dec_str(v).last() == d);
    }
}

/// Append the canonical decimal rendering of `v` to `out`.
pub fn push_dec(v: u32, out: &mut Vec<u8>)
    ensures
        final(out)@ == old(out)@ + dec_str(v as nat),
    decreases v,
{
    if v < 10 {
        out.push(48 + v as u8);
        assert(out@ =~= old(out)@ + dec_str(v as nat));
    } else {
        push_dec(v / 10, out);
        out.push(48 + (v % 10) as u8);
        assert((v / 10) as nat == (v as nat) / 10);
        assert((v % 10) as nat == (v as nat) % 10);
        assert(out@ =~= old(out)@ + dec_str(v as nat));
    }
}

} // verus!
