//! Lexicographic order on the suffixes of a symbol sequence, and the
//! predicates stating that an array of offsets is the suffix array: a
//! permutation of the offsets, sorted by suffix order. Executable checkers
//! decide both predicates, and the order admits the usual comparison laws,
//! from which the suffix array is unique.

use vstd::prelude::*;

verus! {

/// Strict lexicographic order between the suffixes of `t` starting at `i`
/// and at `j`: the empty suffix precedes every non-empty one, otherwise the
/// first differing symbol decides.
pub open spec fn suffix_lt(t: Seq<u32>, i: int, j: int) -> bool
    recommends
        0 <= i <= t.len(),
        0 <= j <= t.len(),
    decreases t.len() - i,
{
    if i >= t.len() || i < 0 {
        j < t.len()
    } else if j >= t.len() || j < 0 {
        false
    } else if t[i] != t[j] {
        t[i] < t[j]
    } else {
        suffix_lt(t, i + 1, j + 1)
    }
}

/// All offsets in `sa` lie below `n`.
pub open spec fn in_range(sa: Seq<usize>, n: int) -> bool {
    forall|k: int| 0 <= k < sa.len() ==> (#[trigger] sa[k]) < n
}

/// No offset occurs twice in `sa`.
pub open spec fn injective_offsets(sa: Seq<usize>) -> bool {
    forall|k1: int, k2: int|
        0 <= k1 < k2 < sa.len() ==> #[trigger] sa[k1] != #[trigger] sa[k2]
}

/// The value `v` occurs somewhere in `sa`.
pub open spec fn occurs_in(sa: Seq<usize>, v: int) -> bool {
    exists|k: int| 0 <= k < sa.len() && sa[k] == v
}

/// Every offset below `n` occurs in `sa`.
pub open spec fn covers_range(sa: Seq<usize>, n: int) -> bool {
    forall|v: int| 0 <= v < n ==> #[trigger] occurs_in(sa, v)
}

/// `sa` is a permutation of the offsets `0 .. n`.
pub open spec fn is_permutation(sa: Seq<usize>, n: int) -> bool {
    &&& sa.len() == n
    &&& in_range(sa, n)
    &&& injective_offsets(sa)
    &&& covers_range(sa, n)
}

/// Adjacent entries of `sa` name suffixes of `t` in strictly increasing
/// lexicographic order.
pub open spec fn sorted_by_suffix(t: Seq<u32>, sa: Seq<usize>) -> bool {
    forall|k: int|
        1 <= k < sa.len() ==> suffix_lt(t, #[trigger] sa[k - 1] as int, sa[k] as int)
}

/// The length of the longest common prefix of the suffixes of `t` starting
/// at `a` and at `b`.
pub open spec fn lcp_len(t: Seq<u32>, a: int, b: int) -> int
    recommends
        0 <= a <= t.len(),
        0 <= b <= t.len(),
    decreases t.len() - a,
{
    if a < 0 || b < 0 || a >= t.len() || b >= t.len() {
        0
    } else if t[a] != t[b] {
        0
    } else {
        1 + lcp_len(t, a + 1, b + 1)
    }
}

/// Computes `lcp_len` by walking the two suffixes together.
pub fn lcp_of(t: &Vec<u32>, a: usize, b: usize) -> (res: usize)
    requires
        a <= t@.len(),
        b <= t@.len(),
        t@.len() <= crate::MAX_TEXT_LEN,
    ensures
        res == lcp_len(t@, a as int, b as int),
{
    let n = t.len();
    let mut c: usize = 0;
    loop
        invariant
            c <= n,
            a + c <= 2 * n,
            b + c <= 2 * n,
            n == t@.len(),
            n <= crate::MAX_TEXT_LEN,
            lcp_len(t@, a as int, b as int) == c + lcp_len(t@, a + c, b + c),
        decreases n - c,
    {
        if a + c >= n || b + c >= n {
            return c;
        }
        if t[a + c] != t[b + c] {
            return c;
        }
        c = c + 1;
    }
}

/// The suffix order is asymmetric: two suffixes never precede each other.
proof fn lemma_suffix_lt_asym(t: Seq<u32>, i: int, j: int)
    requires
        0 <= i <= t.len(),
        0 <= j <= t.len(),
        suffix_lt(t, i, j),
    ensures
        !suffix_lt(t, j, i),
    decreases t.len() - i,
{
    if i < t.len() && j < t.len() && t[i] == t[j] {
        lemma_suffix_lt_asym(t, i + 1, j + 1);
    }
}

/// The suffix order is transitive.
proof fn lemma_suffix_lt_trans(t: Seq<u32>, a: int, b: int, c: int)
    requires
        0 <= a <= t.len(),
        0 <= b <= t.len(),
        0 <= c <= t.len(),
        suffix_lt(t, a, b),
        suffix_lt(t, b, c),
    ensures
        suffix_lt(t, a, c),
    decreases t.len() - a,
{
    if a < t.len() && b < t.len() && c < t.len() && t[a] == t[b] && t[b] == t[c] {
        lemma_suffix_lt_trans(t, a + 1, b + 1, c + 1);
    }
}

/// In a suffix array sorted pair by pair, every earlier entry's suffix
/// precedes every later entry's.
proof fn lemma_sorted_pairwise(t: Seq<u32>, sa: Seq<usize>, i: int, j: int)
    requires
        sorted_by_suffix(t, sa),
        in_range(sa, t.len() as int),
        0 <= i < j < sa.len(),
    ensures
        suffix_lt(t, sa[i] as int, sa[j] as int),
    decreases j - i,
{
    if j == i + 1 {
        assert(suffix_lt(t, sa[j - 1] as int, sa[j] as int));
    } else {
        lemma_sorted_pairwise(t, sa, i, j - 1);
        lemma_sorted_pairwise(t, sa, j - 1, j);
        lemma_suffix_lt_trans(t, sa[i] as int, sa[j - 1] as int, sa[j] as int);
    }
}

/// Two sorted permutations that agree below `idx` agree at `idx` as well.
proof fn lemma_agree_at(t: Seq<u32>, sa1: Seq<usize>, sa2: Seq<usize>, idx: int)
    requires
        is_permutation(sa1, t.len() as int),
        sorted_by_suffix(t, sa1),
        is_permutation(sa2, t.len() as int),
        sorted_by_suffix(t, sa2),
        0 <= idx < t.len(),
        forall|j: int| 0 <= j < idx ==> sa1[j] == sa2[j],
    ensures
        sa1[idx] == sa2[idx],
{
    let v = sa1[idx];
    let w = sa2[idx];
    if v != w {
        assert(occurs_in(sa2, v as int));
        let p = choose|p: int| 0 <= p < sa2.len() && sa2[p] == v as int;
        assert(p != idx);
        if p < idx {
            assert(sa1[p] == sa1[idx]);
            assert(false);
        }
        lemma_sorted_pairwise(t, sa2, idx, p);
        assert(suffix_lt(t, w as int, v as int));
        assert(occurs_in(sa1, w as int));
        let q = choose|q: int| 0 <= q < sa1.len() && sa1[q] == w as int;
        assert(q != idx);
        if q < idx {
            assert(sa2[q] == sa2[idx]);
            assert(false);
        }
        lemma_sorted_pairwise(t, sa1, idx, q);
        assert(suffix_lt(t, v as int, w as int));
        lemma_suffix_lt_asym(t, v as int, w as int);
        assert(false);
    }
}

/// Two sorted permutations agree on their whole prefix below `k`.
proof fn lemma_prefix_agree(t: Seq<u32>, sa1: Seq<usize>, sa2: Seq<usize>, k: int)
    requires
        is_permutation(sa1, t.len() as int),
        sorted_by_suffix(t, sa1),
        is_permutation(sa2, t.len() as int),
        sorted_by_suffix(t, sa2),
        0 <= k <= t.len(),
    ensures
        forall|j: int| 0 <= j < k ==> sa1[j] == sa2[j],
    decreases k,
{
    if k > 0 {
        lemma_prefix_agree(t, sa1, sa2, k - 1);
        lemma_agree_at(t, sa1, sa2, k - 1);
    }
}

/// The suffix array of a sequence is unique: any two sorted permutations of
/// the suffix offsets are equal, so rebuilding the structure from the same
/// input yields the same suffix array.
pub proof fn lemma_suffix_array_unique(t: Seq<u32>, sa1: Seq<usize>, sa2: Seq<usize>)
    requires
        is_permutation(sa1, t.len() as int),
        sorted_by_suffix(t, sa1),
        is_permutation(sa2, t.len() as int),
        sorted_by_suffix(t, sa2),
    ensures
        sa1 == sa2,
{
    lemma_prefix_agree(t, sa1, sa2, t.len() as int);
    assert(sa1 =~= sa2);
}

/// Decides `suffix_lt` by walking the two suffixes together.
pub fn suffix_less(t: &Vec<u32>, i: usize, j: usize) -> (res: bool)
    requires
        i <= t@.len(),
        j <= t@.len(),
        t@.len() <= crate::MAX_TEXT_LEN,
    ensures
        res == suffix_lt(t@, i as int, j as int),
{
    let n = t.len();
    let mut a = i;
    let mut b = j;
    loop
        invariant
            i <= a <= n,
            j <= b <= n,
            a - i == b - j,
            n == t@.len(),
            n <= crate::MAX_TEXT_LEN,
            suffix_lt(t@, i as int, j as int) == suffix_lt(t@, a as int, b as int),
        decreases n - a,
    {
        if a >= n {
            return b < n;
        }
        if b >= n {
            return false;
        }
        if t[a] != t[b] {
            return t[a] < t[b];
        }
        a = a + 1;
        b = b + 1;
    }
}

/// Decides whether `sa` is a permutation of `0 .. n` by marking each offset
/// seen and then checking that every offset was marked.
pub fn check_permutation(sa: &Vec<usize>, n: usize) -> (res: bool)
    requires
        sa@.len() == n,
    ensures
        res == is_permutation(sa@, n as int),
{
    let mut seen = crate::filled_bool(n, false);
    let len = sa.len();
    for k in 0..len
        invariant
            len == sa@.len() == n,
            seen@.len() == n,
            forall|v: int| 0 <= v < n ==> (#[trigger] seen@[v] <==> exists|k2: int| 0 <= k2 < k && sa@[k2] == v),
            forall|k2: int| 0 <= k2 < k ==> (#[trigger] sa@[k2]) < n,
            forall|k1: int, k2: int| 0 <= k1 < k2 < k ==> #[trigger] sa@[k1] != #[trigger] sa@[k2],
    {
        let v = sa[k];
        if v >= n {
            assert(!in_range(sa@, n as int));
            return false;
        }
        if seen[v] {
            assert(!injective_offsets(sa@)) by {
                let k2 = choose|k2: int| 0 <= k2 < k && sa@[k2] == v as int;
                assert(sa@[k2] == sa@[k as int]);
            }
            return false;
        }
        seen[v] = true;
        assert forall|w: int| 0 <= w < n implies
            (#[trigger] seen@[w] <==> exists|k2: int| 0 <= k2 < k + 1 && sa@[k2] == w) by {
            if w == v as int {
                assert(sa@[k as int] == w);
            } else {
                if exists|k2: int| 0 <= k2 < k + 1 && sa@[k2] == w {
                    let k2 = choose|k2: int| 0 <= k2 < k + 1 && sa@[k2] == w;
                    assert(k2 < k);
                }
            }
        }
    }
    for v in 0..n
        invariant
            n == sa@.len(),
            seen@.len() == n,
            forall|w: int| 0 <= w < n ==> (#[trigger] seen@[w] <==> occurs_in(sa@, w)),
            in_range(sa@, n as int),
            injective_offsets(sa@),
            forall|w: int| 0 <= w < v ==> #[trigger] occurs_in(sa@, w),
    {
        if !seen[v] {
            assert(!occurs_in(sa@, v as int));
            return false;
        }
    }
    true
}

/// Decides `sorted_by_suffix` by comparing each adjacent pair.
pub fn check_sorted(t: &Vec<u32>, sa: &Vec<usize>) -> (res: bool)
    requires
        sa@.len() == t@.len(),
        in_range(sa@, t@.len() as int),
        t@.len() <= crate::MAX_TEXT_LEN,
    ensures
        res == sorted_by_suffix(t@, sa@),
{
    let n = sa.len();
    if n == 0 {
        return true;
    }
    for k in 1..n
        invariant
            n == sa@.len() == t@.len(),
            in_range(sa@, n as int),
            n <= crate::MAX_TEXT_LEN,
            forall|k2: int| 1 <= k2 < k ==> suffix_lt(t@, #[trigger] sa@[k2 - 1] as int, sa@[k2] as int),
    {
        if !suffix_less(t, sa[k - 1], sa[k]) {
            return false;
        }
    }
    true
}

} // verus!
