//! Small verified text-scanning primitives shared by the puzzle parsers:
//! splitting a byte string on a separator, and reading unsigned decimal
//! numbers, each with an exact specification.

use vstd::prelude::*;

verus! {

/// Index of the first occurrence of `sep` in `s`, or `s.len()` when absent.
pub open spec fn find_first(s: Seq<u8>, sep: u8) -> int
    decreases s.len(),
{
    if s.len() == 0 {
        0
    } else if s[0] == sep {
        0
    } else {
        1 + find_first(s.drop_first(), sep)
    }
}

/// The pieces of `s` between occurrences of `sep` (empty pieces included,
/// as with the standard splitting conventions).
pub open spec fn split_on(s: Seq<u8>, sep: u8) -> Seq<Seq<u8>>
    decreases s.len(),
{
    let i = find_first(s, sep);
    if 0 <= i < s.len() {
        seq![s.take(i)] + split_on(s.skip(i + 1), sep)
    } else {
        seq![s]
    }
}

/// Every byte of `s` is a decimal digit.
pub open spec fn all_digits(s: Seq<u8>) -> bool {
    forall|i: int| 0 <= i < s.len() ==> 48 <= #[trigger] s[i] <= 57
}

/// The number denoted by a sequence of decimal digits (most significant
/// first).
pub open spec fn digits_val(s: Seq<u8>) -> int
    decreases s.len(),
{
    if s.len() == 0 {
        0
    } else {
        digits_val(s.drop_last()) * 10 + (s.last() - 48)
    }
}

/// `find_first` returns exactly the position of the first separator.
pub proof fn lemma_find_first_at(s: Seq<u8>, sep: u8, j: int)
    requires
        0 <= j <= s.len(),
        forall|k: int| 0 <= k < j ==> s[k] != sep,
        j < s.len() ==> s[j] == sep,
        j == s.len() ==> forall|k: int| 0 <= k < s.len() ==> s[k] != sep,
    ensures
        find_first(s, sep) == j,
    decreases s.len(),
{
    if s.len() == 0 {
    } else if s[0] == sep {
    } else {
        let t = s.drop_first();
        assert(forall|k: int| 0 <= k < t.len() ==> #[trigger] t[k] == s[k + 1]);
        lemma_find_first_at(t, sep, j - 1);
    }
}

/// Digit strings denote non-negative numbers.
pub proof fn lemma_digits_val_nonneg(s: Seq<u8>)
    requires
        all_digits(s),
    ensures
        digits_val(s) >= 0,
    decreases s.len(),
{
    if s.len() > 0 {
        assert(all_digits(s.drop_last()));
        lemma_digits_val_nonneg(s.drop_last());
    }
}

/// Extending a digit string can only increase its value.
pub proof fn lemma_digits_val_prefix(s: Seq<u8>, i: int)
    requires
        all_digits(s),
        0 <= i <= s.len(),
    ensures
        digits_val(s.take(i)) <= digits_val(s),
    decreases s.len() - i,
{
    if i < s.len() {
        lemma_digits_val_prefix(s, i + 1);
        let t = s.take(i + 1);
        assert(t.drop_last() =~= s.take(i));
        assert(all_digits(s.take(i)));
        lemma_digits_val_nonneg(s.take(i));
        assert(digits_val(t) == digits_val(s.take(i)) * 10 + (s[i] - 48));
    } else {
        assert(s.take(i) =~= s);
    }
}

/// Split a byte string on a separator.
pub fn split_bytes(s: &[u8], sep: u8) -> (r: Vec<Vec<u8>>)
    ensures
        r.deep_view() == split_on(s@, sep),
        r@.len() >= 1,
{
    let ghost whole = split_on(s@, sep);
    let mut r: Vec<Vec<u8>> = Vec::new();
    let mut cur: Vec<u8> = Vec::new();
    let ghost mut done: Seq<Seq<u8>> = Seq::empty();
    let ghost mut start: int = 0;
    let mut i: usize = 0;
    proof {
        assert(s@.skip(0) =~= s@);
    }
    #[verifier::loop_isolation(false)]
    while i < s.len()
        invariant
            0 <= start <= i <= s@.len(),
            cur@ =~= s@.subrange(start, i as int),
            forall|k: int| start <= k < i ==> s@[k] != sep,
            done.len() == r@.len(),
            forall|t: int| 0 <= t < done.len() ==> done[t] =~= #[trigger] r@[t]@,
            whole =~= done + split_on(s@.skip(start), sep),
        decreases s@.len() - i,
    {
        let b = s[i];
        if b == sep {
            proof {
                let rest = s@.skip(start);
                assert(forall|k: int|
                    0 <= k < rest.len() ==> #[trigger] rest[k] == s@[k + start]);
                lemma_find_first_at(rest, sep, i - start);
                assert(rest.take(i - start) =~= cur@);
                assert(rest.skip(i - start + 1) =~= s@.skip(i + 1));
                assert(split_on(rest, sep) =~= seq![cur@] + split_on(s@.skip(i + 1), sep));
                assert(done + (seq![cur@] + split_on(s@.skip(i + 1), sep)) =~= done.push(cur@)
                    + split_on(s@.skip(i + 1), sep));
                done = done.push(cur@);
                start = i + 1;
            }
            r.push(cur);
            cur = Vec::new();
        } else {
            cur.push(b);
            proof {
                assert(cur@ =~= s@.subrange(start, i + 1));
            }
        }
        i += 1;
    }
    proof {
        let rest = s@.skip(start);
        assert(forall|k: int| 0 <= k < rest.len() ==> #[trigger] rest[k] == s@[k + start]);
        lemma_find_first_at(rest, sep, rest.len() as int);
        assert(split_on(rest, sep) =~= seq![rest]);
        assert(cur@ =~= rest);
        assert(done + seq![cur@] =~= done.push(cur@));
        done = done.push(cur@);
        assert(whole =~= done);
    }
    r.push(cur);
    proof {
        crate::crucible::lemma_grid_deep_view(&r);
        assert(r.deep_view() =~~= whole);
    }
    r
}

/// Read an unsigned decimal number.  Succeeds exactly on non-empty strings
/// of digits whose value fits in `u64`.
pub fn parse_u64(s: &[u8]) -> (r: Option<u64>)
    ensures
        match r {
            Some(v) => s@.len() >= 1 && all_digits(s@) && v as int == digits_val(s@),
            None => s@.len() == 0 || !all_digits(s@) || digits_val(s@) > u64::MAX,
        },
{
    if s.len() == 0 {
        return None;
    }
    let mut acc: u64 = 0;
    let mut i: usize = 0;
    #[verifier::loop_isolation(false)]
    while i < s.len()
        invariant
            0 <= i <= s@.len(),
            all_digits(s@.take(i as int)),
            acc as int == digits_val(s@.take(i as int)),
        decreases s@.len() - i,
    {
        let b = s[i];
        if b < 48 || b > 57 {
            return None;
        }
        let d = (b - 48) as u64;
        if acc > (u64::MAX - d) / 10 {
            proof {
                assert(digits_val(s@.take(i + 1)) == digits_val(s@.take(i as int)) * 10 + (s@[i as int]
                    - 48)) by {
                    assert(s@.take(i + 1).drop_last() =~= s@.take(i as int));
                }
                assert(acc * 10 + d > u64::MAX) by (nonlinear_arith)
                    requires
                        acc as int > (u64::MAX as int - d as int) / 10,
                        0 <= d <= 9,
                ;
                if all_digits(s@) {
                    lemma_digits_val_prefix(s@, i + 1);
                }
            }
            return None;
        }
        proof {
            assert(acc * 10 + d <= u64::MAX) by (nonlinear_arith)
                requires
                    acc as int <= (u64::MAX as int - d as int) / 10,
                    0 <= d <= 9,
            ;
            assert(digits_val(s@.take(i + 1)) == digits_val(s@.take(i as int)) * 10 + (s@[i as int]
                - 48)) by {
                assert(s@.take(i + 1).drop_last() =~= s@.take(i as int));
            }
        }
        acc = acc * 10 + d;
        i += 1;
    }
    proof {
        assert(s@.take(s@.len() as int) =~= s@);
    }
    Some(acc)
}


/// Strip one leading space, as splitting on separators like `", "` leaves
/// behind.
pub open spec fn spec_trim_space(p: Seq<u8>) -> Seq<u8> {
    if p.len() > 0 && p[0] == 32 {
        p.drop_first()
    } else {
        p
    }
}

/// Strip one leading space.
pub fn trim_space(v: &[u8]) -> (r: Vec<u8>)
    ensures
        r@ == spec_trim_space(v@),
{
    let mut r: Vec<u8> = Vec::new();
    let start: usize = if v.len() > 0 && v[0] == 32 {
        1
    } else {
        0
    };
    let mut i = start;
    #[verifier::loop_isolation(false)]
    while i < v.len()
        invariant
            start <= i <= v@.len(),
            r@ =~= v@.subrange(start as int, i as int),
        decreases v@.len() - i,
    {
        r.push(v[i]);
        i += 1;
    }
    proof {
        if start == 1 {
            assert(v@.subrange(1, v@.len() as int) =~= v@.drop_first());
        } else {
            assert(v@.subrange(0, v@.len() as int) =~= v@);
        }
    }
    r
}

/// Copy the bytes from position `k` on.
pub fn suffix_bytes(v: &[u8], k: usize) -> (r: Vec<u8>)
    requires
        k <= v@.len(),
    ensures
        r@ == v@.skip(k as int),
{
    let mut r: Vec<u8> = Vec::new();
    let mut i = k;
    #[verifier::loop_isolation(false)]
    while i < v.len()
        invariant
            k <= i <= v@.len(),
            r@ =~= v@.subrange(k as int, i as int),
        decreases v@.len() - i,
    {
        r.push(v[i]);
        i += 1;
    }
    proof {
        assert(v@.subrange(k as int, v@.len() as int) =~= v@.skip(k as int));
    }
    r
}


/// Copy the first `k` bytes.
pub fn prefix_bytes(v: &[u8], k: usize) -> (r: Vec<u8>)
    requires
        k <= v@.len(),
    ensures
        r@ == v@.take(k as int),
{
    let mut r: Vec<u8> = Vec::new();
    let mut i: usize = 0;
    #[verifier::loop_isolation(false)]
    while i < k
        invariant
            0 <= i <= k <= v@.len(),
            r@ =~= v@.subrange(0, i as int),
        decreases k - i,
    {
        r.push(v[i]);
        i += 1;
    }
    proof {
        assert(v@.subrange(0, k as int) =~= v@.take(k as int));
    }
    r
}

/// Index of the first occurrence of `b`, executably.
pub fn find_byte(v: &[u8], b: u8) -> (r: usize)
    ensures
        r as int == find_first(v@, b),
        r <= v@.len(),
{
    let mut i: usize = 0;
    #[verifier::loop_isolation(false)]
    while i < v.len()
        invariant
            0 <= i <= v@.len(),
            forall|k: int| 0 <= k < i ==> v@[k] != b,
        decreases v@.len() - i,
    {
        if v[i] == b {
            proof {
                lemma_find_first_at(v@, b, i as int);
            }
            return i;
        }
        i += 1;
    }
    proof {
        lemma_find_first_at(v@, b, v@.len() as int);
    }
    v.len()
}

} // verus!
