//! Linear-time suffix sorting by induced sorting. Positions are classified
//! S-type or L-type, the leftmost-S (LMS) positions are bucket-placed and
//! induced into a full order, equal LMS substrings are merged into ranks, and
//! the procedure recurses on the reduced rank sequence until ranks are
//! unique. A unique smallest sentinel symbol is appended before sorting, so
//! every recursion level works on a sequence with a unique minimum at its
//! end.
//!
//! Index arithmetic into every buffer is bounds-checked; an index that would
//! escape its buffer makes the sort signal `Internal` instead of touching
//! memory out of range. The functional properties of the result (a sorted
//! permutation) are certified by the caller.

use crate::types::SuffixError;
use vstd::prelude::*;

verus! {

/// Symbol counts: `cnt[c]` is the number of occurrences of `c` in `t`.
fn count_symbols(t: &Vec<usize>, k: usize) -> (cnt: Vec<usize>)
    requires
        t@.len() <= crate::MAX_TEXT_LEN + 2,
        forall|i: int| 0 <= i < t@.len() ==> (#[trigger] t@[i]) < k,
    ensures
        cnt@.len() == k,
        forall|c: int| 0 <= c < k ==> (#[trigger] cnt@[c]) <= t@.len(),
{
    let n = t.len();
    let mut cnt = crate::filled_usize(k, 0);
    for i in 0..n
        invariant
            n == t@.len(),
            cnt@.len() == k,
            forall|i2: int| 0 <= i2 < n ==> (#[trigger] t@[i2]) < k,
            forall|c: int| 0 <= c < k ==> (#[trigger] cnt@[c]) <= i,
    {
        let c = t[i];
        cnt[c] = cnt[c] + 1;
    }
    cnt
}

/// Exclusive prefix sums of the counts: the first index of each symbol's
/// bucket. Fails if the counts do not sum to at most `n`.
fn bucket_starts(cnt: &Vec<usize>, n: usize) -> (res: Result<Vec<usize>, SuffixError>)
    requires
        forall|c: int| 0 <= c < cnt@.len() ==> (#[trigger] cnt@[c]) <= n,
        n <= crate::MAX_TEXT_LEN + 2,
    ensures
        res matches Ok(b) ==> b@.len() == cnt@.len() && forall|c: int|
            0 <= c < b@.len() ==> (#[trigger] b@[c]) <= n,
{
    let k = cnt.len();
    let mut b: Vec<usize> = Vec::new();
    let mut acc: usize = 0;
    for c in 0..k
        invariant
            k == cnt@.len(),
            forall|c2: int| 0 <= c2 < k ==> (#[trigger] cnt@[c2]) <= n,
            n <= crate::MAX_TEXT_LEN + 2,
            acc <= n,
            b@.len() == c,
            forall|c2: int| 0 <= c2 < c ==> (#[trigger] b@[c2]) <= n,
    {
        b.push(acc);
        if cnt[c] > n - acc {
            return Err(SuffixError::Internal);
        }
        acc = acc + cnt[c];
    }
    Ok(b)
}

/// Inclusive prefix sums of the counts: one past the last index of each
/// symbol's bucket. Fails if the counts do not sum to at most `n`.
fn bucket_ends(cnt: &Vec<usize>, n: usize) -> (res: Result<Vec<usize>, SuffixError>)
    requires
        forall|c: int| 0 <= c < cnt@.len() ==> (#[trigger] cnt@[c]) <= n,
        n <= crate::MAX_TEXT_LEN + 2,
    ensures
        res matches Ok(b) ==> b@.len() == cnt@.len() && forall|c: int|
            0 <= c < b@.len() ==> (#[trigger] b@[c]) <= n,
{
    let k = cnt.len();
    let mut b: Vec<usize> = Vec::new();
    let mut acc: usize = 0;
    for c in 0..k
        invariant
            k == cnt@.len(),
            forall|c2: int| 0 <= c2 < k ==> (#[trigger] cnt@[c2]) <= n,
            n <= crate::MAX_TEXT_LEN + 2,
            acc <= n,
            b@.len() == c,
            forall|c2: int| 0 <= c2 < c ==> (#[trigger] b@[c2]) <= n,
    {
        if cnt[c] > n - acc {
            return Err(SuffixError::Internal);
        }
        acc = acc + cnt[c];
        b.push(acc);
    }
    Ok(b)
}

/// The two induction passes: scan left to right filling L-type positions at
/// bucket starts, then right to left filling S-type positions at bucket
/// ends. `n` in a slot of `sa` marks an empty slot.
fn induce(
    t: &Vec<usize>,
    is_s: &Vec<bool>,
    cnt: &Vec<usize>,
    sa: &mut Vec<usize>,
) -> (res: Result<(), SuffixError>)
    requires
        t@.len() == is_s@.len(),
        t@.len() == old(sa)@.len(),
        1 <= t@.len() <= crate::MAX_TEXT_LEN + 2,
        forall|i: int| 0 <= i < t@.len() ==> (#[trigger] t@[i]) < cnt@.len(),
        forall|c: int| 0 <= c < cnt@.len() ==> (#[trigger] cnt@[c]) <= t@.len(),
        forall|i: int| 0 <= i < old(sa)@.len() ==> (#[trigger] old(sa)@[i]) <= t@.len(),
    ensures
        final(sa)@.len() == t@.len(),
        forall|i: int| 0 <= i < final(sa)@.len() ==> (#[trigger] final(sa)@[i]) <= t@.len(),
{
    let n = t.len();
    let mut b = match bucket_starts(cnt, n) {
        Ok(b) => b,
        Err(e) => {
            return Err(e);
        },
    };
    for i in 0..n
        invariant
            n == t@.len() == is_s@.len() == sa@.len(),
            n <= crate::MAX_TEXT_LEN + 2,
            b@.len() == cnt@.len(),
            forall|c: int| 0 <= c < b@.len() ==> (#[trigger] b@[c]) <= n,
            forall|i2: int| 0 <= i2 < n ==> (#[trigger] t@[i2]) < cnt@.len(),
            forall|i2: int| 0 <= i2 < n ==> (#[trigger] sa@[i2]) <= n,
    {
        let j = sa[i];
        if j != n && j >= 1 && !is_s[j - 1] {
            let c = t[j - 1];
            let pos = b[c];
            if pos >= n {
                return Err(SuffixError::Internal);
            }
            sa[pos] = j - 1;
            b[c] = pos + 1;
        }
    }
    let mut b = match bucket_ends(cnt, n) {
        Ok(b) => b,
        Err(e) => {
            return Err(e);
        },
    };
    let mut i = n;
    while i > 0
        invariant
            i <= n,
            n == t@.len() == is_s@.len() == sa@.len(),
            n <= crate::MAX_TEXT_LEN + 2,
            b@.len() == cnt@.len(),
            forall|c: int| 0 <= c < b@.len() ==> (#[trigger] b@[c]) <= n,
            forall|i2: int| 0 <= i2 < n ==> (#[trigger] t@[i2]) < cnt@.len(),
            forall|i2: int| 0 <= i2 < n ==> (#[trigger] sa@[i2]) <= n,
        decreases i,
    {
        i = i - 1;
        let j = sa[i];
        if j != n && j >= 1 && is_s[j - 1] {
            let c = t[j - 1];
            if b[c] == 0 {
                return Err(SuffixError::Internal);
            }
            let pos = b[c] - 1;
            b[c] = pos;
            sa[pos] = j - 1;
        }
    }
    Ok(())
}

/// Whether the LMS substrings starting at `p` and at `q` are equal: same
/// symbols and same type classification up to and including the next LMS
/// position of both.
fn lms_equal(t: &Vec<usize>, is_s: &Vec<bool>, p: usize, q: usize) -> (res: bool)
    requires
        t@.len() == is_s@.len(),
        1 <= t@.len() <= crate::MAX_TEXT_LEN + 2,
        p < t@.len(),
        q < t@.len(),
{
    if p == q {
        return true;
    }
    let n = t.len();
    if t[p] != t[q] || is_s[p] != is_s[q] {
        return false;
    }
    let mut d: usize = 1;
    loop
        invariant
            1 <= d <= n,
            n == t@.len() == is_s@.len(),
            n <= crate::MAX_TEXT_LEN + 2,
            p < n,
            q < n,
        decreases n - d,
    {
        let p_end = p + d >= n;
        let q_end = q + d >= n;
        if p_end || q_end {
            return p_end && q_end;
        }
        if t[p + d] != t[q + d] {
            return false;
        }
        if is_s[p + d] != is_s[q + d] {
            return false;
        }
        if is_s[p + d] && !is_s[p + d - 1] {
            return true;
        }
        d = d + 1;
    }
}

/// Induced sorting over a sequence whose alphabet bound is `k`. Expects (but
/// does not rely for memory safety on) a unique minimal last symbol; the
/// result is certified by the caller, so any internal inconsistency may
/// surface as `Internal`.
fn sais_core(t: &Vec<usize>, k: usize) -> (res: Result<Vec<usize>, SuffixError>)
    requires
        1 <= t@.len() <= crate::MAX_TEXT_LEN + 2,
        1 <= k <= crate::MAX_TEXT_LEN + 2,
        forall|i: int| 0 <= i < t@.len() ==> (#[trigger] t@[i]) < k,
    ensures
        res matches Ok(sa) ==> sa@.len() == t@.len(),
    decreases t@.len(),
{
    let n = t.len();
    if n == 1 {
        let mut sa: Vec<usize> = Vec::new();
        sa.push(0);
        return Ok(sa);
    }
    // Classify every position: the last is S-type, the rest compare with
    // their successor.
    let mut is_s = crate::filled_bool(n, false);
    is_s[n - 1] = true;
    let mut i = n - 1;
    while i >= 1
        invariant
            i <= n - 1,
            n == t@.len(),
            is_s@.len() == n,
        decreases i,
    {
        is_s[i - 1] = t[i - 1] < t[i] || (t[i - 1] == t[i] && is_s[i]);
        i = i - 1;
    }
    // Collect LMS positions in text order.
    let mut lms: Vec<usize> = Vec::new();
    for i in 1..n
        invariant
            n == t@.len(),
            is_s@.len() == n,
            lms@.len() < i,
            forall|x: int| 0 <= x < lms@.len() ==> 1 <= (#[trigger] lms@[x]) < n,
    {
        if is_s[i] && !is_s[i - 1] {
            lms.push(i);
        }
    }
    let m = lms.len();
    let cnt = count_symbols(t, k);
    // First pass: place the LMS positions at their bucket ends in reverse
    // text order and induce an approximate order of the LMS substrings.
    let mut sa = crate::filled_usize(n, n);
    let mut b = match bucket_ends(&cnt, n) {
        Ok(b) => b,
        Err(e) => {
            return Err(e);
        },
    };
    let mut idx = m;
    while idx > 0
        invariant
            idx <= m,
            m == lms@.len(),
            m < n,
            n == t@.len(),
            sa@.len() == n,
            b@.len() == cnt@.len() == k,
            forall|c: int| 0 <= c < b@.len() ==> (#[trigger] b@[c]) <= n,
            forall|i2: int| 0 <= i2 < n ==> (#[trigger] t@[i2]) < k,
            forall|x: int| 0 <= x < m ==> 1 <= (#[trigger] lms@[x]) < n,
            forall|i2: int| 0 <= i2 < n ==> (#[trigger] sa@[i2]) <= n,
        decreases idx,
    {
        idx = idx - 1;
        let p = lms[idx];
        let c = t[p];
        if b[c] == 0 {
            return Err(SuffixError::Internal);
        }
        let pos = b[c] - 1;
        b[c] = pos;
        sa[pos] = p;
    }
    match induce(t, &is_s, &cnt, &mut sa) {
        Ok(()) => (),
        Err(e) => {
            return Err(e);
        },
    }
    // Read the LMS positions back in their induced order.
    let mut sorted_lms: Vec<usize> = Vec::new();
    for i in 0..n
        invariant
            n == t@.len(),
            is_s@.len() == n,
            sa@.len() == n,
            forall|i2: int| 0 <= i2 < n ==> (#[trigger] sa@[i2]) <= n,
            sorted_lms@.len() <= i,
            forall|x: int| 0 <= x < sorted_lms@.len() ==> 1 <= (#[trigger] sorted_lms@[x]) < n,
    {
        let j = sa[i];
        if j != n && j >= 1 && is_s[j] && !is_s[j - 1] {
            sorted_lms.push(j);
        }
    }
    if sorted_lms.len() != m {
        return Err(SuffixError::Internal);
    }
    // Merge equal adjacent LMS substrings into ranks, indexed by position.
    let mut ranks = crate::filled_usize(n, 0);
    let mut rank: usize = 0;
    if m > 0 {
        let first = sorted_lms[0];
        ranks[first] = 0;
        for x in 1..m
            invariant
                m == sorted_lms@.len(),
                m < n,
                n == t@.len() == is_s@.len(),
                n <= crate::MAX_TEXT_LEN + 2,
                ranks@.len() == n,
                rank < x,
                forall|v: int| 0 <= v < n ==> (#[trigger] ranks@[v]) <= rank,
                forall|x2: int| 0 <= x2 < m ==> 1 <= (#[trigger] sorted_lms@[x2]) < n,
        {
            let prev = sorted_lms[x - 1];
            let cur = sorted_lms[x];
            if !lms_equal(t, &is_s, prev, cur) {
                rank = rank + 1;
            }
            ranks[cur] = rank;
        }
    }
    let names = rank + 1;
    // Reduced sequence: the rank of each LMS substring in text order.
    let mut reduced: Vec<usize> = Vec::new();
    for x in 0..m
        invariant
            m == lms@.len(),
            m < n,
            ranks@.len() == n,
            reduced@.len() == x,
            names == rank + 1,
            forall|v: int| 0 <= v < n ==> (#[trigger] ranks@[v]) <= rank,
            forall|x2: int| 0 <= x2 < m ==> 1 <= (#[trigger] lms@[x2]) < n,
            forall|x2: int| 0 <= x2 < x ==> (#[trigger] reduced@[x2]) < names,
    {
        reduced.push(ranks[lms[x]]);
    }
    // Order the LMS positions exactly: recurse while ranks repeat, otherwise
    // invert the rank assignment directly.
    let mut sub_sa: Vec<usize>;
    if m > 0 && names < m {
        sub_sa = match sais_core(&reduced, names) {
            Ok(s) => s,
            Err(e) => {
                return Err(e);
            },
        };
        if sub_sa.len() != m {
            return Err(SuffixError::Internal);
        }
    } else {
        sub_sa = crate::filled_usize(m, m);
        for x in 0..m
            invariant
                m == reduced@.len(),
                sub_sa@.len() == m,
                forall|x2: int| 0 <= x2 < m ==> (#[trigger] sub_sa@[x2]) <= m,
        {
            let v = reduced[x];
            if v >= m {
                return Err(SuffixError::Internal);
            }
            sub_sa[v] = x;
        }
    }
    let mut ordered_lms: Vec<usize> = Vec::new();
    for x in 0..m
        invariant
            m == lms@.len() == sub_sa@.len(),
            m < n,
            ordered_lms@.len() == x,
            forall|x2: int| 0 <= x2 < m ==> 1 <= (#[trigger] lms@[x2]) < n,
            forall|x2: int| 0 <= x2 < x ==> 1 <= (#[trigger] ordered_lms@[x2]) < n,
    {
        let v = sub_sa[x];
        if v >= m {
            return Err(SuffixError::Internal);
        }
        ordered_lms.push(lms[v]);
    }
    // Second pass: place the now exactly ordered LMS positions and induce
    // the final suffix array.
    let mut sa = crate::filled_usize(n, n);
    let mut b = match bucket_ends(&cnt, n) {
        Ok(b) => b,
        Err(e) => {
            return Err(e);
        },
    };
    let mut idx = m;
    while idx > 0
        invariant
            idx <= m,
            m == ordered_lms@.len(),
            m < n,
            n == t@.len(),
            sa@.len() == n,
            b@.len() == cnt@.len() == k,
            forall|c: int| 0 <= c < b@.len() ==> (#[trigger] b@[c]) <= n,
            forall|i2: int| 0 <= i2 < n ==> (#[trigger] t@[i2]) < k,
            forall|x: int| 0 <= x < m ==> 1 <= (#[trigger] ordered_lms@[x]) < n,
            forall|i2: int| 0 <= i2 < n ==> (#[trigger] sa@[i2]) <= n,
        decreases idx,
    {
        idx = idx - 1;
        let p = ordered_lms[idx];
        let c = t[p];
        if b[c] == 0 {
            return Err(SuffixError::Internal);
        }
        let pos = b[c] - 1;
        b[c] = pos;
        sa[pos] = p;
    }
    match induce(t, &is_s, &cnt, &mut sa) {
        Ok(()) => (),
        Err(e) => {
            return Err(e);
        },
    }
    Ok(sa)
}

/// Sorts the suffixes of `t`, whose symbols lie below `k`, by appending a
/// unique smallest sentinel, running induced sorting, and dropping the
/// sentinel's entry again.
pub(crate) fn suffix_sort(t: &Vec<u32>, k: usize) -> (res: Result<Vec<usize>, SuffixError>)
    requires
        t@.len() <= crate::MAX_TEXT_LEN,
        k <= crate::MAX_TEXT_LEN,
        forall|i: int| 0 <= i < t@.len() ==> (#[trigger] t@[i]) < k,
    ensures
        res matches Ok(sa) ==> sa@.len() == t@.len(),
{
    let n = t.len();
    let mut shifted: Vec<usize> = Vec::new();
    for i in 0..n
        invariant
            n == t@.len(),
            shifted@.len() == i,
            k <= crate::MAX_TEXT_LEN,
            forall|i2: int| 0 <= i2 < n ==> (#[trigger] t@[i2]) < k,
            forall|i2: int| 0 <= i2 < i ==> (#[trigger] shifted@[i2]) < k + 1,
    {
        shifted.push((t[i] as usize) + 1);
    }
    shifted.push(0);
    let sa0 = match sais_core(&shifted, k + 1) {
        Ok(s) => s,
        Err(e) => {
            return Err(e);
        },
    };
    let mut sa: Vec<usize> = Vec::new();
    for i in 1..n + 1
        invariant
            sa0@.len() == n + 1,
            sa@.len() == i - 1,
    {
        sa.push(sa0[i]);
    }
    Ok(sa)
}

} // verus!
