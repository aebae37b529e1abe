//! Predicates over the interval arrays: each node `[left, right)` at a
//! string-depth groups exactly the suffix-array entries that share a common
//! prefix of that length (so `right - left` is the substring's occurrence
//! count), the prefix is maximal except for the degenerate root of an
//! all-equal sequence, every adjacent suffix pair is covered by a node of
//! its common-prefix length (completeness), nodes appear in closing order,
//! and the root interval closes the list. Executable checkers decide every
//! predicate.

use crate::order::{in_range, is_permutation, lcp_len, sorted_by_suffix};
use vstd::prelude::*;

verus! {

/// The suffixes of `t` at offsets `p` and `q` both have at least `d` symbols
/// and agree on their first `d` symbols.
pub open spec fn prefix_match(t: Seq<u32>, p: int, q: int, d: int) -> bool {
    &&& p + d <= t.len()
    &&& q + d <= t.len()
    &&& forall|e: int| 0 <= e < d ==> #[trigger] t[p + e] == t[q + e]
}

/// Every suffix named in `sa[left .. right]` shares its first `depth`
/// symbols with the first one.
pub open spec fn node_covered(
    t: Seq<u32>,
    sa: Seq<usize>,
    left: int,
    right: int,
    depth: int,
) -> bool {
    forall|j: int|
        left <= j < right ==> #[trigger] prefix_match(t, sa[j] as int, sa[left] as int, depth)
}

/// The shared prefix of the interval could be one symbol longer without
/// losing a member.
pub open spec fn node_extendable(
    t: Seq<u32>,
    sa: Seq<usize>,
    left: int,
    right: int,
    depth: int,
) -> bool {
    forall|j: int|
        left <= j < right ==> #[trigger] prefix_match(t, sa[j] as int, sa[left] as int, depth + 1)
}

/// No suffix named outside `sa[left .. right]` shares the interval's prefix:
/// the interval holds every sharer, so its width counts the occurrences of
/// the substring.
pub open spec fn node_exclusive(
    t: Seq<u32>,
    sa: Seq<usize>,
    left: int,
    right: int,
    depth: int,
) -> bool {
    forall|j: int|
        0 <= j < sa.len() && !(left <= j < right) ==> !(#[trigger] prefix_match(
            t,
            sa[j] as int,
            sa[left] as int,
            depth,
        ))
}

/// Every symbol of `t` equals its first one.
pub open spec fn all_symbols_equal(t: Seq<u32>) -> bool {
    forall|i: int| 0 <= i < t.len() ==> #[trigger] t[i] == t[0]
}

/// One well-formed node: a non-empty interval within bounds whose members,
/// and no others, share exactly `depth` symbols. The only interval allowed
/// to be extendable is the root of a sequence whose symbols are all equal,
/// where every depth up to the full length is shared by construction.
pub open spec fn node_ok(
    t: Seq<u32>,
    sa: Seq<usize>,
    left: int,
    right: int,
    depth: int,
) -> bool {
    &&& 0 <= left < right <= sa.len()
    &&& node_covered(t, sa, left, right, depth)
    &&& node_exclusive(t, sa, left, right, depth)
    &&& (!node_extendable(t, sa, left, right, depth) || (depth == 0 && left == 0 && right
        == t.len() && all_symbols_equal(t)))
}

/// All `m` nodes described by the three interval arrays are well formed.
pub open spec fn nodes_ok(
    t: Seq<u32>,
    sa: Seq<usize>,
    l: Seq<usize>,
    r: Seq<usize>,
    d: Seq<usize>,
    m: int,
) -> bool {
    forall|idx: int|
        0 <= idx < m ==> #[trigger] node_ok(t, sa, l[idx] as int, r[idx] as int, d[idx] as int)
}

/// Some node of depth exactly `h` covers the adjacent suffix-array
/// positions `i - 1` and `i`.
pub open spec fn has_covering_node(
    l: Seq<usize>,
    r: Seq<usize>,
    d: Seq<usize>,
    m: int,
    i: int,
    h: int,
) -> bool {
    exists|idx: int|
        0 <= idx < m && (#[trigger] d[idx]) == h && l[idx] <= i - 1 && i < r[idx]
}

/// Completeness of the node list: every adjacent pair of suffixes in
/// suffix-array order lies inside a node whose depth is exactly the pair's
/// common-prefix length. Together with `node_ok`'s exactness this puts every
/// maximal repeated substring in the list: a maximal interval has an
/// adjacent pair of exactly its depth inside, and the covering node's
/// interval must be that sharer set.
pub open spec fn nodes_complete(
    t: Seq<u32>,
    sa: Seq<usize>,
    l: Seq<usize>,
    r: Seq<usize>,
    d: Seq<usize>,
    m: int,
) -> bool {
    forall|i: int|
        1 <= i < sa.len() ==> #[trigger] has_covering_node(
            l,
            r,
            d,
            m,
            i,
            lcp_len(t, sa[i - 1] as int, sa[i] as int),
        )
}

/// Every node of positive depth names a repeated substring: its interval
/// holds at least two suffixes.
pub open spec fn nodes_repeated(l: Seq<usize>, r: Seq<usize>, d: Seq<usize>, m: int) -> bool {
    forall|idx: int|
        0 <= idx < m && (#[trigger] d[idx]) >= 1 ==> r[idx] - l[idx] >= 2
}

/// The nodes stand in closing order: right ends never decrease, and nodes
/// closing at the same position go from deeper to shallower. With `node_ok`
/// this also rules out repeated nodes, so the node list is determined by
/// the input.
pub open spec fn nodes_ordered(r: Seq<usize>, d: Seq<usize>, m: int) -> bool {
    forall|idx: int|
        0 <= idx < m - 1 ==> (#[trigger] r[idx]) <= r[idx + 1] && (r[idx] == r[idx + 1]
            ==> d[idx] > d[idx + 1])
}

/// A non-empty input yields at least one node, the last node emitted is the
/// root `[0, n)` at depth `0`, and no other node has depth `0`.
pub open spec fn root_ok(t: Seq<u32>, l: Seq<usize>, r: Seq<usize>, d: Seq<usize>, m: int) -> bool {
    &&& (t.len() == 0 ==> m == 0)
    &&& (t.len() > 0 ==> {
        &&& m >= 1
        &&& l[m - 1] == 0
        &&& r[m - 1] == t.len()
        &&& d[m - 1] == 0
        &&& forall|idx: int| 0 <= idx < m - 1 ==> (#[trigger] d[idx]) >= 1
    })
}

/// The whole enhanced-suffix-structure invariant: four arrays of the input's
/// length, a sorted permutation as the suffix array, and a sound, complete
/// node list of `m` entries in closing order, closed by the root.
pub open spec fn esa_wf(
    t: Seq<u32>,
    sa: Seq<usize>,
    l: Seq<usize>,
    r: Seq<usize>,
    d: Seq<usize>,
    m: int,
) -> bool {
    &&& sa.len() == t.len()
    &&& l.len() == t.len()
    &&& r.len() == t.len()
    &&& d.len() == t.len()
    &&& 0 <= m <= t.len()
    &&& is_permutation(sa, t.len() as int)
    &&& sorted_by_suffix(t, sa)
    &&& nodes_ok(t, sa, l, r, d, m)
    &&& nodes_complete(t, sa, l, r, d, m)
    &&& nodes_repeated(l, r, d, m)
    &&& nodes_ordered(r, d, m)
    &&& root_ok(t, l, r, d, m)
}

/// A common-prefix length is never negative.
proof fn lemma_lcp_nonneg(t: Seq<u32>, a: int, b: int)
    ensures
        lcp_len(t, a, b) >= 0,
    decreases t.len() - a,
{
    if 0 <= a < t.len() && 0 <= b < t.len() && t[a] == t[b] {
        lemma_lcp_nonneg(t, a + 1, b + 1);
    }
}

/// Sharing `d` symbols is the same as a common prefix of length at least
/// `d`.
proof fn lemma_lcp_bridge(t: Seq<u32>, p: int, q: int, d: int)
    requires
        0 <= p <= t.len(),
        0 <= q <= t.len(),
        0 <= d,
    ensures
        prefix_match(t, p, q, d) <==> lcp_len(t, p, q) >= d,
    decreases d,
{
    lemma_lcp_nonneg(t, p, q);
    if d > 0 {
        if p >= t.len() || q >= t.len() {
            assert(!prefix_match(t, p, q, d));
        } else if t[p] != t[q] {
            assert(t[p + 0] != t[q + 0]);
            assert(!prefix_match(t, p, q, d));
        } else {
            lemma_lcp_bridge(t, p + 1, q + 1, d - 1);
            if prefix_match(t, p, q, d) {
                assert forall|e: int| 0 <= e < d - 1 implies #[trigger] t[p + 1 + e] == t[q + 1
                    + e] by {
                    assert(t[p + (e + 1)] == t[q + (e + 1)]);
                }
                assert(prefix_match(t, p + 1, q + 1, d - 1));
            }
            if prefix_match(t, p + 1, q + 1, d - 1) {
                assert forall|e: int| 0 <= e < d implies #[trigger] t[p + e] == t[q + e] by {
                    if e > 0 {
                        assert(t[p + 1 + (e - 1)] == t[q + 1 + (e - 1)]);
                    }
                }
                assert(prefix_match(t, p, q, d));
            }
        }
    }
}

/// Prefix sharing is symmetric.
proof fn lemma_prefix_match_sym(t: Seq<u32>, p: int, q: int, d: int)
    requires
        prefix_match(t, p, q, d),
    ensures
        prefix_match(t, q, p, d),
{
    assert forall|e: int| 0 <= e < d implies #[trigger] t[q + e] == t[p + e] by {
        assert(t[p + e] == t[q + e]);
    }
}

/// Prefix sharing at one depth is transitive.
proof fn lemma_prefix_match_trans(t: Seq<u32>, a: int, b: int, c: int, d: int)
    requires
        prefix_match(t, a, b, d),
        prefix_match(t, b, c, d),
    ensures
        prefix_match(t, a, c, d),
{
    assert forall|e: int| 0 <= e < d implies #[trigger] t[a + e] == t[c + e] by {
        assert(t[a + e] == t[b + e]);
        assert(t[b + e] == t[c + e]);
    }
}

/// Two suffixes that each share `d` symbols with a third share `d` symbols
/// with each other.
proof fn lemma_prefix_match_joins(t: Seq<u32>, p: int, q: int, base: int, d: int)
    requires
        prefix_match(t, p, base, d),
        prefix_match(t, q, base, d),
    ensures
        prefix_match(t, p, q, d),
{
    assert forall|e: int| 0 <= e < d implies #[trigger] t[p + e] == t[q + e] by {
        assert(t[p + e] == t[base + e]);
        assert(t[q + e] == t[base + e]);
    }
}

/// A chain of adjacent shares joins its endpoints.
proof fn lemma_chain_shares(t: Seq<u32>, sa: Seq<usize>, lo: int, hi: int, d: int)
    requires
        0 <= lo < hi < sa.len(),
        forall|i: int|
            lo < i <= hi ==> #[trigger] prefix_match(t, sa[i - 1] as int, sa[i] as int, d),
    ensures
        prefix_match(t, sa[lo] as int, sa[hi] as int, d),
    decreases hi - lo,
{
    if hi > lo + 1 {
        lemma_chain_shares(t, sa, lo, hi - 1, d);
        assert(prefix_match(t, sa[hi - 1] as int, sa[hi] as int, d));
        lemma_prefix_match_trans(t, sa[lo] as int, sa[hi - 1] as int, sa[hi] as int, d);
    } else {
        assert(prefix_match(t, sa[hi - 1] as int, sa[hi] as int, d));
    }
}

/// Every well-formed node of positive depth holds an adjacent suffix pair
/// whose common prefix is exactly the node's depth: the pair that keeps the
/// node from extending.
proof fn lemma_node_tight_pair(t: Seq<u32>, sa: Seq<usize>, l: int, r: int, d: int)
    requires
        node_ok(t, sa, l, r, d),
        d >= 1,
        r - l >= 2,
    ensures
        exists|i: int|
            l < i < r && #[trigger] lcp_len(t, sa[i - 1] as int, sa[i] as int) == d,
{
    assert(!node_extendable(t, sa, l, r, d));
    assert forall|i: int| l < i < r implies #[trigger] prefix_match(
        t,
        sa[i - 1] as int,
        sa[i] as int,
        d,
    ) by {
        assert(prefix_match(t, sa[i - 1] as int, sa[l] as int, d));
        assert(prefix_match(t, sa[i] as int, sa[l] as int, d));
        lemma_prefix_match_sym(t, sa[i] as int, sa[l] as int, d);
        lemma_prefix_match_trans(t, sa[i - 1] as int, sa[l] as int, sa[i] as int, d);
    }
    if forall|i: int|
        l < i < r ==> #[trigger] prefix_match(t, sa[i - 1] as int, sa[i] as int, d + 1) {
        let ip: int = l + 1;
        assert(prefix_match(t, sa[ip - 1] as int, sa[ip] as int, d + 1));
        assert(prefix_match(t, sa[l] as int, sa[l + 1] as int, d + 1));
        assert forall|x: int| l <= x < r implies #[trigger] prefix_match(
            t,
            sa[x] as int,
            sa[l] as int,
            d + 1,
        ) by {
            if x == l {
                assert(sa[l] + d + 1 <= t.len());
            } else {
                lemma_chain_shares(t, sa, l, x, d + 1);
                lemma_prefix_match_sym(t, sa[l] as int, sa[x] as int, d + 1);
            }
        }
        assert(node_extendable(t, sa, l, r, d));
        assert(false);
    }
    let i = choose|i: int|
        l < i < r && !(#[trigger] prefix_match(t, sa[i - 1] as int, sa[i] as int, d + 1));
    assert(prefix_match(t, sa[i - 1] as int, sa[i] as int, d));
    assert(sa[i - 1] + d <= t.len() && sa[i] + d <= t.len());
    lemma_lcp_bridge(t, sa[i - 1] as int, sa[i] as int, d);
    lemma_lcp_bridge(t, sa[i - 1] as int, sa[i] as int, d + 1);
    assert(lcp_len(t, sa[i - 1] as int, sa[i] as int) == d);
}

/// A position of one well-formed node lies inside any second well-formed
/// node of the same depth that shares the position `j` with the first.
proof fn lemma_member_carries_over(
    t: Seq<u32>,
    sa: Seq<usize>,
    l1: int,
    r1: int,
    l2: int,
    r2: int,
    depth: int,
    j: int,
    x: int,
)
    requires
        node_ok(t, sa, l1, r1, depth),
        node_ok(t, sa, l2, r2, depth),
        l1 <= j < r1,
        l2 <= j < r2,
        l1 <= x < r1,
    ensures
        l2 <= x < r2,
{
    assert(prefix_match(t, sa[x] as int, sa[l1] as int, depth));
    assert(prefix_match(t, sa[j] as int, sa[l1] as int, depth));
    assert(prefix_match(t, sa[j] as int, sa[l2] as int, depth));
    lemma_prefix_match_joins(t, sa[x] as int, sa[j] as int, sa[l1] as int, depth);
    lemma_prefix_match_joins(t, sa[x] as int, sa[l2] as int, sa[j] as int, depth);
    if !(l2 <= x < r2) {
        assert(!prefix_match(t, sa[x] as int, sa[l2] as int, depth));
    }
}

/// A node interval is determined by its depth and any one of its positions:
/// two well-formed nodes of equal depth that share a suffix-array position
/// coincide. Together with completeness this fixes the node set of a text,
/// and the closing order fixes the list.
pub proof fn lemma_interval_determined(
    t: Seq<u32>,
    sa: Seq<usize>,
    l1: int,
    r1: int,
    l2: int,
    r2: int,
    depth: int,
    j: int,
)
    requires
        node_ok(t, sa, l1, r1, depth),
        node_ok(t, sa, l2, r2, depth),
        l1 <= j < r1,
        l2 <= j < r2,
    ensures
        l1 == l2,
        r1 == r2,
{
    lemma_member_carries_over(t, sa, l1, r1, l2, r2, depth, j, l1);
    lemma_member_carries_over(t, sa, l1, r1, l2, r2, depth, j, r1 - 1);
    lemma_member_carries_over(t, sa, l2, r2, l1, r1, depth, j, l2);
    lemma_member_carries_over(t, sa, l2, r2, l1, r1, depth, j, r2 - 1);
}

/// In a node list in closing order, any earlier node closes no later than
/// any later one, and strictly deeper when they close together.
proof fn lemma_ordered_pairwise(r: Seq<usize>, d: Seq<usize>, m: int, a: int, b: int)
    requires
        nodes_ordered(r, d, m),
        0 <= a < b < m,
    ensures
        r[a] <= r[b],
        r[a] == r[b] ==> d[a] > d[b],
    decreases b - a,
{
    assert(r[a] <= r[a + 1] && (r[a] == r[a + 1] ==> d[a] > d[a + 1]));
    if b > a + 1 {
        lemma_ordered_pairwise(r, d, m, a + 1, b);
    }
}

/// Every node of one well-formed structure stands, with the same bounds and
/// depth, in any other well-formed structure over the same text and suffix
/// array.
proof fn lemma_node_in_other(
    t: Seq<u32>,
    sa: Seq<usize>,
    l1: Seq<usize>,
    r1: Seq<usize>,
    d1: Seq<usize>,
    m1: int,
    l2: Seq<usize>,
    r2: Seq<usize>,
    d2: Seq<usize>,
    m2: int,
    idx: int,
)
    requires
        esa_wf(t, sa, l1, r1, d1, m1),
        esa_wf(t, sa, l2, r2, d2, m2),
        0 <= idx < m1,
    ensures
        exists|idx2: int|
            0 <= idx2 < m2 && (#[trigger] l2[idx2]) == l1[idx] && r2[idx2] == r1[idx] && d2[idx2]
                == d1[idx],
{
    let ll = l1[idx] as int;
    let rr = r1[idx] as int;
    let dd = d1[idx] as int;
    assert(node_ok(t, sa, ll, rr, dd));
    assert(t.len() > 0);
    if dd == 0 {
        assert(idx == m1 - 1);
        assert(l2[m2 - 1] == l1[idx] && r2[m2 - 1] == r1[idx] && d2[m2 - 1] == d1[idx]);
    } else {
        lemma_node_tight_pair(t, sa, ll, rr, dd);
        let i = choose|i: int|
            ll < i < rr && #[trigger] lcp_len(t, sa[i - 1] as int, sa[i] as int) == dd;
        assert(has_covering_node(l2, r2, d2, m2, i, lcp_len(t, sa[i - 1] as int, sa[i] as int)));
        let idx2 = choose|idx2: int|
            0 <= idx2 < m2 && (#[trigger] d2[idx2]) == dd && l2[idx2] <= i - 1 && i < r2[idx2];
        assert(node_ok(t, sa, l2[idx2] as int, r2[idx2] as int, d2[idx2] as int));
        lemma_interval_determined(t, sa, ll, rr, l2[idx2] as int, r2[idx2] as int, dd, i);
        assert(l2[idx2] == l1[idx] && r2[idx2] == r1[idx] && d2[idx2] == d1[idx]);
    }
}

/// Two well-formed node lists over the same text and suffix array that
/// agree below `idx` agree at `idx` as well.
#[verifier::rlimit(100)]
proof fn lemma_nodes_agree_at(
    t: Seq<u32>,
    sa: Seq<usize>,
    l1: Seq<usize>,
    r1: Seq<usize>,
    d1: Seq<usize>,
    m1: int,
    l2: Seq<usize>,
    r2: Seq<usize>,
    d2: Seq<usize>,
    m2: int,
    idx: int,
)
    requires
        esa_wf(t, sa, l1, r1, d1, m1),
        esa_wf(t, sa, l2, r2, d2, m2),
        0 <= idx < m1,
        idx < m2,
        forall|j: int|
            0 <= j < idx ==> (#[trigger] l1[j]) == l2[j] && r1[j] == r2[j] && d1[j] == d2[j],
    ensures
        l1[idx] == l2[idx],
        r1[idx] == r2[idx],
        d1[idx] == d2[idx],
{
    if !(l1[idx] == l2[idx] && r1[idx] == r2[idx] && d1[idx] == d2[idx]) {
        lemma_node_in_other(t, sa, l1, r1, d1, m1, l2, r2, d2, m2, idx);
        let p = choose|p: int|
            0 <= p < m2 && (#[trigger] l2[p]) == l1[idx] && r2[p] == r1[idx] && d2[p] == d1[idx];
        assert(p != idx);
        if p < idx {
            assert(l1[p] == l2[p]);
            assert(r1[p] == r2[p]);
            assert(d1[p] == d2[p]);
            lemma_ordered_pairwise(r1, d1, m1, p, idx);
            assert(false);
        }
        lemma_node_in_other(t, sa, l2, r2, d2, m2, l1, r1, d1, m1, idx);
        let q = choose|q: int|
            0 <= q < m1 && (#[trigger] l1[q]) == l2[idx] && r1[q] == r2[idx] && d1[q] == d2[idx];
        assert(q != idx);
        if q < idx {
            assert(l1[q] == l2[q]);
            assert(r1[q] == r2[q]);
            assert(d1[q] == d2[q]);
            lemma_ordered_pairwise(r2, d2, m2, q, idx);
            assert(false);
        }
        lemma_ordered_pairwise(r2, d2, m2, idx, p);
        lemma_ordered_pairwise(r1, d1, m1, idx, q);
        assert(r2[idx] <= r1[idx]);
        assert(r1[idx] <= r2[idx]);
        assert(d2[idx] > d1[idx]);
        assert(d1[idx] > d2[idx]);
        assert(false);
    }
}

/// Two well-formed node lists over the same text and suffix array agree on
/// their whole prefix below `k`.
proof fn lemma_nodes_prefix_agree(
    t: Seq<u32>,
    sa: Seq<usize>,
    l1: Seq<usize>,
    r1: Seq<usize>,
    d1: Seq<usize>,
    m1: int,
    l2: Seq<usize>,
    r2: Seq<usize>,
    d2: Seq<usize>,
    m2: int,
    k: int,
)
    requires
        esa_wf(t, sa, l1, r1, d1, m1),
        esa_wf(t, sa, l2, r2, d2, m2),
        0 <= k <= m1,
        k <= m2,
    ensures
        forall|j: int|
            0 <= j < k ==> (#[trigger] l1[j]) == l2[j] && r1[j] == r2[j] && d1[j] == d2[j],
    decreases k,
{
    if k > 0 {
        lemma_nodes_prefix_agree(t, sa, l1, r1, d1, m1, l2, r2, d2, m2, k - 1);
        lemma_nodes_agree_at(t, sa, l1, r1, d1, m1, l2, r2, d2, m2, k - 1);
    }
}

/// Reconstruction law: any two well-formed structures over the same text
/// are equal in everything the structure means — the suffix array, the node
/// count, and every node's bounds and depth.
#[verifier::rlimit(60)]
pub proof fn lemma_structure_unique(
    t: Seq<u32>,
    sa1: Seq<usize>,
    l1: Seq<usize>,
    r1: Seq<usize>,
    d1: Seq<usize>,
    m1: int,
    sa2: Seq<usize>,
    l2: Seq<usize>,
    r2: Seq<usize>,
    d2: Seq<usize>,
    m2: int,
)
    requires
        esa_wf(t, sa1, l1, r1, d1, m1),
        esa_wf(t, sa2, l2, r2, d2, m2),
    ensures
        sa1 == sa2,
        m1 == m2,
        forall|j: int|
            0 <= j < m1 ==> (#[trigger] l1[j]) == l2[j] && r1[j] == r2[j] && d1[j] == d2[j],
{
    crate::order::lemma_suffix_array_unique(t, sa1, sa2);
    if m1 < m2 {
        lemma_nodes_prefix_agree(t, sa1, l1, r1, d1, m1, l2, r2, d2, m2, m1);
        lemma_node_in_other(t, sa1, l2, r2, d2, m2, l1, r1, d1, m1, m1);
        let q = choose|q: int|
            0 <= q < m1 && (#[trigger] l1[q]) == l2[m1] && r1[q] == r2[m1] && d1[q] == d2[m1];
        assert(l2[q] == l1[q] && r2[q] == r1[q] && d2[q] == d1[q]);
        lemma_ordered_pairwise(r2, d2, m2, q, m1);
        assert(false);
    }
    if m2 < m1 {
        lemma_nodes_prefix_agree(t, sa1, l1, r1, d1, m1, l2, r2, d2, m2, m2);
        lemma_node_in_other(t, sa1, l1, r1, d1, m1, l2, r2, d2, m2, m2);
        let p = choose|p: int|
            0 <= p < m2 && (#[trigger] l2[p]) == l1[m2] && r2[p] == r1[m2] && d2[p] == d1[m2];
        assert(l1[p] == l2[p]);
        assert(r1[p] == r2[p]);
        assert(d1[p] == d2[p]);
        lemma_ordered_pairwise(r1, d1, m1, p, m2);
        assert(false);
    }
    lemma_nodes_prefix_agree(t, sa1, l1, r1, d1, m1, l2, r2, d2, m2, m1);
    assert forall|j: int|
        0 <= j < m1 implies (#[trigger] l1[j]) == l2[j] && r1[j] == r2[j] && d1[j] == d2[j] by {
        assert(l1[j] == l2[j]);
        assert(r1[j] == r2[j]);
        assert(d1[j] == d2[j]);
    }
}

/// Decides `prefix_match`.
pub fn check_prefix_match(t: &Vec<u32>, p: usize, q: usize, d: usize) -> (res: bool)
    requires
        p <= t@.len(),
        q <= t@.len(),
        d <= t@.len(),
        t@.len() <= crate::MAX_TEXT_LEN,
    ensures
        res == prefix_match(t@, p as int, q as int, d as int),
{
    let n = t.len();
    if p + d > n || q + d > n {
        return false;
    }
    for e in 0..d
        invariant
            n == t@.len(),
            p + d <= n,
            q + d <= n,
            forall|e2: int| 0 <= e2 < e ==> #[trigger] t@[p + e2] == t@[q + e2],
    {
        if t[p + e] != t[q + e] {
            return false;
        }
    }
    true
}

/// Decides `all_symbols_equal`.
pub fn check_all_symbols_equal(t: &Vec<u32>) -> (res: bool)
    ensures
        res == all_symbols_equal(t@),
{
    let n = t.len();
    for i in 0..n
        invariant
            n == t@.len(),
            forall|i2: int| 0 <= i2 < i ==> #[trigger] t@[i2] == t@[0],
    {
        if t[i] != t[0] {
            return false;
        }
    }
    true
}

/// Decides `node_ok` for a single interval.
fn check_node(t: &Vec<u32>, sa: &Vec<usize>, left: usize, right: usize, depth: usize) -> (res: bool)
    requires
        sa@.len() == t@.len(),
        in_range(sa@, t@.len() as int),
        t@.len() <= crate::MAX_TEXT_LEN,
    ensures
        res == node_ok(t@, sa@, left as int, right as int, depth as int),
{
    let n = t.len();
    if !(left < right && right <= n) {
        return false;
    }
    if depth > n {
        assert(!prefix_match(t@, sa@[left as int] as int, sa@[left as int] as int, depth as int));
        assert(!node_covered(t@, sa@, left as int, right as int, depth as int));
        return false;
    }
    let mut covered = true;
    for j in left..right
        invariant
            n == t@.len() == sa@.len(),
            in_range(sa@, n as int),
            n <= crate::MAX_TEXT_LEN,
            left < right <= n,
            depth <= n,
            covered == (forall|j2: int|
                left <= j2 < j ==> #[trigger] prefix_match(
                    t@,
                    sa@[j2] as int,
                    sa@[left as int] as int,
                    depth as int,
                )),
    {
        if !check_prefix_match(t, sa[j], sa[left], depth) {
            covered = false;
        }
    }
    if !covered {
        assert(!node_covered(t@, sa@, left as int, right as int, depth as int));
        return false;
    }
    for j in 0..left
        invariant
            n == t@.len() == sa@.len(),
            in_range(sa@, n as int),
            n <= crate::MAX_TEXT_LEN,
            left < right <= n,
            depth <= n,
            forall|j2: int|
                0 <= j2 < j ==> !(#[trigger] prefix_match(
                    t@,
                    sa@[j2] as int,
                    sa@[left as int] as int,
                    depth as int,
                )),
    {
        if check_prefix_match(t, sa[j], sa[left], depth) {
            assert(!node_exclusive(t@, sa@, left as int, right as int, depth as int));
            return false;
        }
    }
    for j in right..n
        invariant
            n == t@.len() == sa@.len(),
            in_range(sa@, n as int),
            n <= crate::MAX_TEXT_LEN,
            left < right <= n,
            depth <= n,
            forall|j2: int|
                0 <= j2 < left ==> !(#[trigger] prefix_match(
                    t@,
                    sa@[j2] as int,
                    sa@[left as int] as int,
                    depth as int,
                )),
            forall|j2: int|
                right <= j2 < j ==> !(#[trigger] prefix_match(
                    t@,
                    sa@[j2] as int,
                    sa@[left as int] as int,
                    depth as int,
                )),
    {
        if check_prefix_match(t, sa[j], sa[left], depth) {
            assert(!node_exclusive(t@, sa@, left as int, right as int, depth as int));
            return false;
        }
    }
    assert(node_exclusive(t@, sa@, left as int, right as int, depth as int)) by {
        assert forall|j: int|
            0 <= j < sa@.len() && !(left <= j < right) implies !(prefix_match(
            t@,
            sa@[j] as int,
            sa@[left as int] as int,
            depth as int,
        )) by {
            if j < left {
            } else {
                assert(j >= right);
            }
        }
    }
    if depth == n {
        assert(!prefix_match(
            t@,
            sa@[left as int] as int,
            sa@[left as int] as int,
            depth as int + 1,
        ));
        assert(!node_extendable(t@, sa@, left as int, right as int, depth as int));
        return true;
    }
    let mut extendable = true;
    for j in left..right
        invariant
            n == t@.len() == sa@.len(),
            in_range(sa@, n as int),
            n <= crate::MAX_TEXT_LEN,
            left < right <= n,
            depth < n,
            extendable == (forall|j2: int|
                left <= j2 < j ==> #[trigger] prefix_match(
                    t@,
                    sa@[j2] as int,
                    sa@[left as int] as int,
                    depth as int + 1,
                )),
    {
        if !check_prefix_match(t, sa[j], sa[left], depth + 1) {
            extendable = false;
        }
    }
    if !extendable {
        return true;
    }
    depth == 0 && left == 0 && right == n && check_all_symbols_equal(t)
}

/// Decides `nodes_complete` by computing each adjacent pair's
/// common-prefix length and searching the node list for a covering node of
/// that depth.
pub fn check_completeness(
    t: &Vec<u32>,
    sa: &Vec<usize>,
    l: &Vec<usize>,
    r: &Vec<usize>,
    d: &Vec<usize>,
    m: usize,
) -> (res: bool)
    requires
        sa@.len() == t@.len(),
        m <= l@.len(),
        m <= r@.len(),
        m <= d@.len(),
        in_range(sa@, t@.len() as int),
        t@.len() <= crate::MAX_TEXT_LEN,
    ensures
        res == nodes_complete(t@, sa@, l@, r@, d@, m as int),
{
    let n = t.len();
    if n == 0 {
        return true;
    }
    for i in 1..n
        invariant
            n == t@.len() == sa@.len(),
            n >= 1,
            m <= l@.len() && m <= r@.len() && m <= d@.len(),
            in_range(sa@, n as int),
            n <= crate::MAX_TEXT_LEN,
            forall|i2: int|
                1 <= i2 < i ==> #[trigger] has_covering_node(
                    l@,
                    r@,
                    d@,
                    m as int,
                    i2,
                    lcp_len(t@, sa@[i2 - 1] as int, sa@[i2] as int),
                ),
    {
        let h = crate::order::lcp_of(t, sa[i - 1], sa[i]);
        let mut found = false;
        for idx in 0..m
            invariant
                m <= l@.len() && m <= r@.len() && m <= d@.len(),
                1 <= i,
                found == (exists|idx2: int|
                    0 <= idx2 < idx && (#[trigger] d@[idx2]) == h && l@[idx2] <= i - 1 && i
                        < r@[idx2]),
        {
            if d[idx] == h && l[idx] <= i - 1 && i < r[idx] {
                found = true;
            }
        }
        if !found {
            assert(!has_covering_node(l@, r@, d@, m as int, i as int, h as int));
            return false;
        }
    }
    true
}

/// Decides `nodes_repeated`.
pub fn check_repeated(l: &Vec<usize>, r: &Vec<usize>, d: &Vec<usize>, m: usize) -> (res: bool)
    requires
        m <= l@.len(),
        m <= r@.len(),
        m <= d@.len(),
    ensures
        res == nodes_repeated(l@, r@, d@, m as int),
{
    for idx in 0..m
        invariant
            m <= l@.len() && m <= r@.len() && m <= d@.len(),
            forall|i2: int|
                0 <= i2 < idx && (#[trigger] d@[i2]) >= 1 ==> r@[i2] - l@[i2] >= 2,
    {
        if d[idx] >= 1 && (r[idx] <= l[idx] || r[idx] - l[idx] <= 1) {
            return false;
        }
    }
    true
}

/// Decides `nodes_ordered` by comparing each adjacent node pair.
pub fn check_ordered(r: &Vec<usize>, d: &Vec<usize>, m: usize) -> (res: bool)
    requires
        m <= r@.len(),
        m <= d@.len(),
    ensures
        res == nodes_ordered(r@, d@, m as int),
{
    if m == 0 {
        return true;
    }
    for idx in 0..m - 1
        invariant
            1 <= m <= r@.len() && m <= d@.len(),
            forall|i2: int|
                0 <= i2 < idx ==> (#[trigger] r@[i2]) <= r@[i2 + 1] && (r@[i2] == r@[i2 + 1]
                    ==> d@[i2] > d@[i2 + 1]),
    {
        if r[idx] > r[idx + 1] {
            return false;
        }
        if r[idx] == r[idx + 1] && d[idx] <= d[idx + 1] {
            return false;
        }
    }
    true
}

/// Decides well-formedness of the whole node list together with the root
/// clause.
pub fn check_nodes(
    t: &Vec<u32>,
    sa: &Vec<usize>,
    l: &Vec<usize>,
    r: &Vec<usize>,
    d: &Vec<usize>,
    m: usize,
) -> (res: bool)
    requires
        sa@.len() == t@.len(),
        l@.len() == t@.len(),
        r@.len() == t@.len(),
        d@.len() == t@.len(),
        m <= t@.len(),
        in_range(sa@, t@.len() as int),
        t@.len() <= crate::MAX_TEXT_LEN,
    ensures
        res == (nodes_ok(t@, sa@, l@, r@, d@, m as int) && root_ok(t@, l@, r@, d@, m as int)),
{
    let n = t.len();
    for idx in 0..m
        invariant
            n == t@.len() == sa@.len() == l@.len() == r@.len() == d@.len(),
            m <= n,
            in_range(sa@, n as int),
            n <= crate::MAX_TEXT_LEN,
            forall|i2: int|
                0 <= i2 < idx ==> #[trigger] node_ok(
                    t@,
                    sa@,
                    l@[i2] as int,
                    r@[i2] as int,
                    d@[i2] as int,
                ),
    {
        if !check_node(t, sa, l[idx], r[idx], d[idx]) {
            return false;
        }
    }
    if n == 0 {
        return m == 0;
    }
    if m == 0 {
        return false;
    }
    if !(l[m - 1] == 0 && r[m - 1] == n && d[m - 1] == 0) {
        return false;
    }
    for idx in 0..m - 1
        invariant
            n == d@.len(),
            1 <= m <= n,
            forall|i2: int| 0 <= i2 < idx ==> (#[trigger] d@[i2]) >= 1,
            nodes_ok(t@, sa@, l@, r@, d@, m as int),
            root_ok(t@, l@, r@, d@, m as int) == (forall|i2: int|
                0 <= i2 < m - 1 ==> (#[trigger] d@[i2]) >= 1),
    {
        if d[idx] == 0 {
            return false;
        }
    }
    true
}

} // verus!
