use crate::error::ErrorKind;
use vstd::prelude::*;
use vstd::seq_lib::group_to_multiset_ensures;
use vstd::string::StrSliceExecFns;

verus! {

/// A decimal digit.
pub open spec fn is_digit(c: char) -> bool {
    '0' <= c && c <= '9'
}

/// The value of a decimal digit.
pub open spec fn digit_val(c: char) -> int {
    c as int - 48
}

/// Every character is a decimal digit.
pub open spec fn all_digits(s: Seq<char>) -> bool {
    forall|i: int| 0 <= i < s.len() ==> is_digit(#[trigger] s[i])
}

/// The number a digit string denotes, most significant digit first.
pub open spec fn digits_val(s: Seq<char>) -> int
    decreases s.len(),
{
    if s.len() == 0 {
        0
    } else {
        digits_val(s.drop_last()) * 10 + digit_val(s.last())
    }
}

/// A digit string denotes a non-negative number.
proof fn lemma_digits_val_nonneg(s: Seq<char>)
    requires
        all_digits(s),
    ensures
        digits_val(s) >= 0,
    decreases s.len(),
{
    if s.len() > 0 {
        assert(all_digits(s.drop_last())) by {
            assert(forall|i: int|
                0 <= i < s.len() - 1 ==> s.drop_last()[i] == #[trigger] s[i]);
        }
        lemma_digits_val_nonneg(s.drop_last());
    }
}

/// A prefix of a digit string denotes no more than the whole.
proof fn lemma_digits_val_prefix(s: Seq<char>, j: int)
    requires
        all_digits(s),
        0 <= j <= s.len(),
    ensures
        digits_val(s.take(j)) <= digits_val(s),
    decreases s.len(),
{
    if j == s.len() {
        assert(s.take(j) =~= s);
    } else {
        assert(all_digits(s.drop_last())) by {
            assert(forall|i: int|
                0 <= i < s.len() - 1 ==> s.drop_last()[i] == #[trigger] s[i]);
        }
        assert(s.take(j) =~= s.drop_last().take(j));
        lemma_digits_val_prefix(s.drop_last(), j);
        lemma_digits_val_nonneg(s.drop_last());
        assert(digits_val(s) == digits_val(s.drop_last()) * 10 + digit_val(s.last()));
    }
}

/// Parses a file stem as the decimal representation of a base
/// offset: one or more digits denoting a number that fits. Fails
/// with `parse-error` on anything else.
pub fn parse_base_offset(s: &str) -> (r: Result<u64, ErrorKind>)
    ensures
        match r {
            Ok(v) => s@.len() > 0 && all_digits(s@) && digits_val(s@) <= u64::MAX && v
                == digits_val(s@),
            Err(e) => e == ErrorKind::ParseError && (s@.len() == 0 || !all_digits(s@)
                || digits_val(s@) > u64::MAX),
        },
{
    let len = s.unicode_len();
    if len == 0 {
        return Err(ErrorKind::ParseError);
    }
    let mut val: u64 = 0;
    let mut i: usize = 0;
    while i < len
        invariant
            0 <= i <= len,
            len == s@.len(),
            all_digits(s@.take(i as int)),
            val == digits_val(s@.take(i as int)),
            val <= u64::MAX,
        decreases len - i,
    {
        let c = s.get_char(i);
        if c < '0' || c > '9' {
            proof {
                assert(!is_digit(s@[i as int]));
            }
            return Err(ErrorKind::ParseError);
        }
        let d: u64 = (c as u32 - 48) as u64;
        if val > (u64::MAX - d) / 10 {
            proof {
                assert(s@.take(i + 1).drop_last() =~= s@.take(i as int));
                assert(s@.take(i + 1).last() == s@[i as int]);
                assert(digits_val(s@.take(i + 1)) == val * 10 + d);
                assert(val * 10 + d > u64::MAX) by (nonlinear_arith)
                    requires
                        val > (u64::MAX - d) / 10,
                        d <= 9,
                        val <= u64::MAX,
                ;
                if all_digits(s@) {
                    lemma_digits_val_prefix(s@, i + 1);
                }
            }
            return Err(ErrorKind::ParseError);
        }
        proof {
            assert(val * 10 + d <= u64::MAX) by (nonlinear_arith)
                requires
                    val <= (u64::MAX - d) / 10,
                    d <= 9,
            ;
            assert(s@.take(i + 1).drop_last() =~= s@.take(i as int));
            assert(s@.take(i + 1).last() == s@[i as int]);
        }
        val = val * 10 + d;
        i = i + 1;
    }
    proof {
        assert(s@.take(len as int) =~= s@);
    }
    Ok(val)
}

/// A sequence that ascends.
pub open spec fn sorted(s: Seq<u64>) -> bool {
    forall|i: int, j: int| 0 <= i < j < s.len() ==> s[i] <= s[j]
}

/// Sorts base offsets ascending: the result holds the same offsets,
/// in order.
pub fn sort_offsets(v: &mut Vec<u64>) -> (r: ())
    ensures
        sorted(final(v)@),
        final(v)@.to_multiset() == old(v)@.to_multiset(),
        final(v)@.len() == old(v)@.len(),
{
    proof {
        broadcast use group_to_multiset_ensures;

    }
    let mut out: Vec<u64> = Vec::new();
    #[verifier::loop_isolation(false)]
    while out.len() < v.len()
        invariant
            out@.len() <= v@.len(),
            sorted(out@),
            out@.to_multiset() == v@.take(out@.len() as int).to_multiset(),
        decreases v@.len() - out@.len(),
    {
        let ghost done = out@.len() as int;
        let x = v[out.len()];
        let mut j: usize = 0;
        while j < out.len() && out[j] <= x
            invariant
                0 <= j <= out@.len(),
                forall|k: int| 0 <= k < j ==> out@[k] <= x,
            decreases out@.len() - j,
        {
            j = j + 1;
        }
        let ghost old_out = out@;
        let ghost jg = j as int;
        proof {
            broadcast use group_to_multiset_ensures;

            assert(jg == old_out.len() || old_out[jg] > x);
        }
        out.insert(j, x);
        proof {
            assert(v@.take(done + 1) =~= v@.take(done).push(x));
            assert(out@.to_multiset() == v@.take(done + 1).to_multiset());
            assert(forall|k: int| 0 <= k < jg ==> out@[k] == old_out[k]);
            assert(out@[jg] == x);
            assert(forall|k: int| jg < k < out@.len() ==> out@[k] == old_out[k - 1]);
            assert forall|a: int, b: int| 0 <= a < b < out@.len() implies out@[a] <= out@[b] by {
                if b < jg {
                } else if a < jg && b == jg {
                    assert(old_out[a] <= x);
                } else if a < jg && b > jg {
                    assert(old_out[a] <= old_out[b - 1]);
                } else if a == jg {
                    assert(old_out[b - 1] >= old_out[jg]);
                } else {
                    assert(old_out[a - 1] <= old_out[b - 1]);
                }
            }
        }
    }
    proof {
        assert(v@.take(v@.len() as int) =~= v@);
    }
    *v = out;
}

/// Every other sorted base offset, starting with the first: a log
/// directory names each base twice, once per file of its pair, so
/// stride two walks each base once.
pub fn stride_pairs(v: &Vec<u64>) -> (r: Vec<u64>)
    ensures
        r@.len() == (v@.len() + 1) / 2,
        forall|k: int| 0 <= k < r@.len() ==> #[trigger] r@[k] == v@[2 * k],
{
    let mut out: Vec<u64> = Vec::new();
    let mut i: usize = 0;
    #[verifier::loop_isolation(false)]
    while i < v.len()
        invariant
            i % 2 == 0,
            0 <= i <= v@.len(),
            out@.len() * 2 == i,
            forall|k: int| 0 <= k < out@.len() ==> #[trigger] out@[k] == v@[2 * k],
        decreases v@.len() - i,
    {
        out.push(v[i]);
        if v.len() - i == 1 {
            return out;
        }
        i = i + 2;
    }
    out
}

/// Plans recovery from a directory listing: parses each file stem as
/// a base offset, sorts them ascending, and takes every other one,
/// pairing the store and index file that share a base. Fails with
/// `parse-error` when some stem is not a base offset.
pub fn plan_setup(stems: &Vec<String>) -> (r: Result<Vec<u64>, ErrorKind>)
    ensures
        match r {
            Ok(bases) => {
                &&& forall|i: int|
                    0 <= i < stems@.len() ==> all_digits(#[trigger] stems@[i]@) && stems@[i]@.len()
                        > 0 && digits_val(stems@[i]@) <= u64::MAX
                &&& exists|s: Seq<u64>|
                    {
                        &&& #[trigger] sorted(s)
                        &&& s.len() == stems@.len()
                        &&& s.to_multiset() == stems@.map(
                            |i: int, st: String| (digits_val(st@) as u64),
                        ).to_multiset()
                        &&& bases@.len() == (s.len() + 1) / 2
                        &&& forall|k: int| 0 <= k < bases@.len() ==> #[trigger] bases@[k] == s[2
                            * k]
                    }
            },
            Err(e) => e == ErrorKind::ParseError && exists|i: int|
                0 <= i < stems@.len() && (stems@[i]@.len() == 0 || !all_digits(#[trigger] stems@[i]@)
                    || digits_val(stems@[i]@) > u64::MAX),
        },
{
    let mut offsets: Vec<u64> = Vec::new();
    let mut i: usize = 0;
    #[verifier::loop_isolation(false)]
    while i < stems.len()
        invariant
            0 <= i <= stems@.len(),
            offsets@.len() == i,
            forall|k: int|
                0 <= k < i ==> all_digits(#[trigger] stems@[k]@) && stems@[k]@.len() > 0
                    && digits_val(stems@[k]@) <= u64::MAX && offsets@[k] == digits_val(stems@[k]@),
        decreases stems@.len() - i,
    {
        let off = match parse_base_offset(stems[i].as_str()) {
            Ok(off) => off,
            Err(e) => {
                return Err(e);
            },
        };
        offsets.push(off);
        i = i + 1;
    }
    let ghost parsed = offsets@;
    sort_offsets(&mut offsets);
    proof {
        assert(parsed =~= stems@.map(|k: int, st: String| (digits_val(st@) as u64)));
    }
    let bases = stride_pairs(&offsets);
    proof {
        let s = offsets@;
        assert(sorted(s) && s.len() == stems@.len() && s.to_multiset() == stems@.map(
            |i: int, st: String| (digits_val(st@) as u64),
        ).to_multiset() && bases@.len() == (s.len() + 1) / 2 && forall|k: int|
            0 <= k < bases@.len() ==> #[trigger] bases@[k] == s[2 * k]);
    }
    Ok(bases)
}

} // verus!
