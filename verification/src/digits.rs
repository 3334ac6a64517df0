use vstd::prelude::*;

verus! {

/// Decimal text of a non-negative integer, most significant digit first.
pub open spec fn u64_dec(n: nat) -> Seq<u8>
    decreases n,
{
    if n < 10 {
        seq![(48 + n) as u8]
    } else {
        u64_dec(n / 10).push((48 + n % 10) as u8)
    }
}

pub open spec fn is_digit(b: u8) -> bool {
    48 <= b <= 57
}

pub open spec fn all_digits(s: Seq<u8>) -> bool {
    forall|i: int| 0 <= i < s.len() ==> is_digit(#[trigger] s[i])
}

/// Value of a digit string, read in base ten.
pub open spec fn dec_value(s: Seq<u8>) -> int
    decreases s.len(),
{
    if s.len() == 0 {
        0
    } else {
        dec_value(s.drop_last()) * 10 + s.last() - 48
    }
}

pub proof fn lemma_u64_dec_digits(n: nat)
    ensures
        u64_dec(n).len() >= 1,
        all_digits(u64_dec(n)),
        dec_value(u64_dec(n)) == n,
    decreases n,
{
    if n < 10 {
        let s = u64_dec(n);
        assert(s =~= seq![(48 + n) as u8]);
        assert(s.drop_last() =~= Seq::<u8>::empty());
        assert(((48 + n) as u8) as int == 48 + n);
        assert(dec_value(s) == dec_value(s.drop_last()) * 10 + s.last() - 48);
    } else {
        lemma_u64_dec_digits(n / 10);
        let s = u64_dec(n / 10).push((48 + n % 10) as u8);
        assert(u64_dec(n) == s);
        assert(s.drop_last() =~= u64_dec(n / 10));
        assert(s.last() == (48 + n % 10) as u8);
        assert(((48 + n % 10) as u8) as int == 48 + n % 10);
        assert(dec_value(s) == dec_value(s.drop_last()) * 10 + s.last() - 48);
        assert(dec_value(s) == (n / 10) * 10 + n % 10);
    }
}

pub proof fn lemma_dec_value_nonneg(s: Seq<u8>)
    requires
        all_digits(s),
    ensures
        dec_value(s) >= 0,
    decreases s.len(),
{
    if s.len() > 0 {
        assert(all_digits(s.drop_last())) by {
            assert(forall|i: int| 0 <= i < s.len() - 1 ==> s.drop_last()[i] == s[i]);
        }
        lemma_dec_value_nonneg(s.drop_last());
    }
}

/// A digit string is worth at least any of its prefixes.
pub proof fn lemma_dec_value_prefix(s: Seq<u8>, j: int)
    requires
        all_digits(s),
        0 <= j <= s.len(),
    ensures
        dec_value(s.take(j)) <= dec_value(s),
    decreases s.len() - j,
{
    if j < s.len() {
        let t = s.take(j + 1);
        assert(t.drop_last() =~= s.take(j));
        assert(all_digits(s.take(j))) by {
            assert(forall|i: int| 0 <= i < j ==> s.take(j)[i] == s[i]);
        }
        lemma_dec_value_nonneg(s.take(j));
        assert(dec_value(t) == dec_value(s.take(j)) * 10 + s[j] - 48);
        lemma_dec_value_prefix(s, j + 1);
    } else {
        assert(s.take(j) =~= s);
    }
}

/// Appends the decimal text of `n` to `out`.
pub fn push_u64_dec(out: &mut Vec<u8>, n: u64)
    ensures
        final(out)@ == old(out)@ + u64_dec(n as nat),
    decreases n,
{
    if n >= 10 {
        push_u64_dec(out, n / 10);
    }
    let d: u8 = 48 + (n % 10) as u8;
    out.push(d);
    proof {
        assert(out@ =~= old(out)@ + u64_dec(n as nat));
    }
}

/// The value a digit field denotes, when it is a well-formed `u64`:
/// non-empty, digits only, and within range.
pub open spec fn parse_u64(s: Seq<u8>) -> Option<u64> {
    if s.len() >= 1 && all_digits(s) && dec_value(s) <= u64::MAX {
        Some(dec_value(s) as u64)
    } else {
        None
    }
}

pub proof fn lemma_parse_u64_dec(n: u64)
    ensures
        parse_u64(u64_dec(n as nat)) == Some(n),
{
    lemma_u64_dec_digits(n as nat);
}

/// Reads a `u64` back from a digit field.
pub fn field_to_u64(f: &Vec<u8>) -> (r: Option<u64>)
    ensures
        r == parse_u64(f@),
{
    if f.len() == 0 {
        return None;
    }
    let mut acc: u64 = 0;
    let mut i: usize = 0;
    while i < f.len()
        invariant
            0 <= i <= f@.len(),
            all_digits(f@.take(i as int)),
            acc == dec_value(f@.take(i as int)),
        decreases f@.len() - i,
    {
        let b = f[i];
        if b < 48 || b > 57 {
            assert(!is_digit(f@[i as int]));
            return None;
        }
        let d: u64 = (b - 48) as u64;
        proof {
            assert(f@.take(i + 1).drop_last() =~= f@.take(i as int));
            assert(all_digits(f@.take(i + 1))) by {
                assert(forall|k: int| 0 <= k < i + 1 ==> f@.take(i + 1)[k] == f@[k]);
            }
        }
        let next = match acc.checked_mul(10) {
            Some(x) => x.checked_add(d),
            None => None,
        };
        match next {
            Some(v) => {
                acc = v;
            }
            None => {
                proof {
                    assert(dec_value(f@.take(i + 1)) > u64::MAX);
                    if all_digits(f@) {
                        lemma_dec_value_prefix(f@, i + 1);
                    }
                }
                return None;
            }
        }
        i = i + 1;
    }
    proof {
        assert(f@.take(i as int) =~= f@);
    }
    Some(acc)
}

} // verus!
