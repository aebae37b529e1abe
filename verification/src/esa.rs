//! The enhanced-suffix-array pipeline: sort the suffixes, certify the sorted
//! permutation, derive adjacent common-prefix lengths, and sweep them with an
//! explicit stack into the node intervals. The certification steps make the
//! whole result carry `esa_wf` whenever the call returns a node count.

use crate::nodes::{check_completeness, check_nodes, check_ordered, check_repeated, esa_wf};
use crate::order::{check_permutation, check_sorted, is_permutation, sorted_by_suffix};
use crate::sais::suffix_sort;
use crate::types::SuffixError;
use vstd::prelude::*;

verus! {

/// Builds the enhanced suffix array of `chars` into the four caller-supplied
/// buffers and returns the node count.
///
/// The buffers must each have the input's length, else the call fails with
/// `InvalidLength` before any work and leaves them unchanged. On success the
/// suffix array is the sorted permutation of the offsets, the first
/// `node_num` entries of `left`/`right`/`depth` describe the maximal
/// repeated substrings as `esa_wf` states, and the remaining entries hold
/// scratch values of the derivation. `Internal` reports a sorting or
/// interval stage that signalled failure; no buffer content is meaningful
/// then.
#[verifier::loop_isolation(false)]
pub fn esaxx_rs(
    chars: &Vec<u32>,
    sa: &mut Vec<usize>,
    l: &mut Vec<usize>,
    r: &mut Vec<usize>,
    d: &mut Vec<usize>,
    alphabet_size: usize,
) -> (res: Result<usize, SuffixError>)
    requires
        chars@.len() <= crate::MAX_TEXT_LEN,
        alphabet_size <= crate::MAX_TEXT_LEN,
        forall|i: int| 0 <= i < chars@.len() ==> (#[trigger] chars@[i]) < alphabet_size,
    ensures
        final(sa)@.len() == old(sa)@.len(),
        final(l)@.len() == old(l)@.len(),
        final(r)@.len() == old(r)@.len(),
        final(d)@.len() == old(d)@.len(),
        res matches Err(e) && e == SuffixError::InvalidLength <==> !(old(sa)@.len()
            == chars@.len() && old(l)@.len() == chars@.len() && old(r)@.len() == chars@.len()
            && old(d)@.len() == chars@.len()),
        res matches Err(e) && e == SuffixError::InvalidLength ==> final(sa)@ == old(sa)@
            && final(l)@ == old(l)@ && final(r)@ == old(r)@ && final(d)@ == old(d)@,
        res matches Ok(m) ==> esa_wf(chars@, final(sa)@, final(l)@, final(r)@, final(d)@, m as int),
        res matches Ok(m) ==> m <= chars@.len(),
        chars@.len() == 0 && old(sa)@.len() == 0 && old(l)@.len() == 0 && old(r)@.len() == 0
            && old(d)@.len() == 0 ==> (res matches Ok(m) && m == 0),
{
    let n = chars.len();
    if sa.len() != n || l.len() != n || r.len() != n || d.len() != n {
        return Err(SuffixError::InvalidLength);
    }
    if n == 0 {
        return Ok(0);
    }
    let sorted = match suffix_sort(chars, alphabet_size) {
        Ok(s) => s,
        Err(_) => {
            return Err(SuffixError::Internal);
        },
    };
    for i in 0..n
        invariant
            n == chars@.len() == sorted@.len() == sa@.len(),
            l@.len() == n && r@.len() == n && d@.len() == n,
            forall|i2: int| 0 <= i2 < i ==> #[trigger] sa@[i2] == sorted@[i2],
    {
        sa[i] = sorted[i];
    }
    // Certify the sort: the remaining derivation and all callers rely on the
    // suffix array being the sorted permutation of the offsets.
    if !check_permutation(sa, n) {
        return Err(SuffixError::Internal);
    }
    if !check_sorted(chars, sa) {
        return Err(SuffixError::Internal);
    }
    // Rank of each suffix, stored in `l`.
    for i in 0..n
        invariant
            n == chars@.len() == sa@.len() == l@.len(),
            r@.len() == n && d@.len() == n,
            is_permutation(sa@, n as int),
            sorted_by_suffix(chars@, sa@),
    {
        let pos = sa[i];
        l[pos] = i;
    }
    // Permuted common-prefix lengths, stored in `r`: each suffix is compared
    // with its predecessor in suffix-array order, reusing all but one symbol
    // of the previous comparison.
    let mut h: usize = 0;
    for i in 0..n
        invariant
            n == chars@.len() == sa@.len() == l@.len() == r@.len(),
            d@.len() == n,
            n <= crate::MAX_TEXT_LEN,
            h <= n,
            is_permutation(sa@, n as int),
            sorted_by_suffix(chars@, sa@),
    {
        let j = l[i];
        if j >= n {
            return Err(SuffixError::Internal);
        }
        if j > 0 {
            let q = sa[j - 1];
            while i + h < n && q + h < n && chars[i + h] == chars[q + h]
                invariant
                    n == chars@.len(),
                    n <= crate::MAX_TEXT_LEN,
                    i < n,
                    q < n,
                    h <= n,
                decreases n - h,
            {
                h = h + 1;
            }
        } else {
            h = 0;
        }
        r[i] = h;
        if h > 0 {
            h = h - 1;
        }
    }
    // Height array: the common-prefix length of each adjacent suffix pair in
    // suffix-array order, stored in `l`.
    for i in 0..n
        invariant
            n == chars@.len() == sa@.len() == l@.len() == r@.len(),
            d@.len() == n,
            is_permutation(sa@, n as int),
            sorted_by_suffix(chars@, sa@),
    {
        let pos = sa[i];
        l[i] = r[pos];
    }
    // Sweep: keep a stack of open intervals, each a start index with the
    // smallest height seen while open. A height below the top closes
    // intervals; each closed interval is one node. The bottom entry is the
    // root and only closes in the final drain, so every emitted node lands
    // at an index below the current position and never clobbers a height
    // value still to be read.
    let mut stack: Vec<(usize, usize)> = Vec::new();
    stack.push((0, 0));
    let mut node_count: usize = 0;
    let mut i: usize = 1;
    while i < n
        invariant
            1 <= i <= n,
            n == chars@.len() == sa@.len() == l@.len() == r@.len() == d@.len(),
            stack@.len() >= 1,
            stack@[0].1 == 0,
            node_count + stack@.len() <= i,
            is_permutation(sa@, n as int),
            sorted_by_suffix(chars@, sa@),
        decreases n - i,
    {
        let h = l[i];
        let mut left = i - 1;
        while stack[stack.len() - 1].1 > h
            invariant
                n == l@.len() == r@.len() == d@.len(),
                stack@.len() >= 1,
                stack@[0].1 == 0,
                node_count + stack@.len() <= i,
            decreases stack@.len(),
        {
            let top = stack[stack.len() - 1];
            stack.pop();
            l[node_count] = top.0;
            r[node_count] = i;
            d[node_count] = top.1;
            node_count = node_count + 1;
            left = top.0;
        }
        if stack[stack.len() - 1].1 < h {
            stack.push((left, h));
        }
        i = i + 1;
    }
    // Drain: close every remaining interval against the end of the array;
    // the bottom entry emits the root node last.
    while stack.len() > 0
        invariant
            n == chars@.len() == sa@.len() == l@.len() == r@.len() == d@.len(),
            node_count + stack@.len() <= n,
            is_permutation(sa@, n as int),
            sorted_by_suffix(chars@, sa@),
        decreases stack@.len(),
    {
        let top = stack[stack.len() - 1];
        stack.pop();
        l[node_count] = top.0;
        r[node_count] = n;
        d[node_count] = top.1;
        node_count = node_count + 1;
    }
    // Certify the node list: coverage, exactness, maximality, the root
    // clause, completeness, and the closing order.
    if !check_nodes(chars, sa, l, r, d, node_count) {
        return Err(SuffixError::Internal);
    }
    if !check_completeness(chars, sa, l, r, d, node_count) {
        return Err(SuffixError::Internal);
    }
    if !check_repeated(l, r, d, node_count) {
        return Err(SuffixError::Internal);
    }
    if !check_ordered(r, d, node_count) {
        return Err(SuffixError::Internal);
    }
    Ok(node_count)
}

} // verus!
