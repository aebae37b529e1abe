//! The owning container for a built enhanced suffix array and the borrowing
//! iterator over its nodes: one `(substring, frequency)` pair per node, in
//! emission order.

use crate::nodes::{esa_wf, lemma_structure_unique, node_ok, prefix_match};
use vstd::prelude::*;
use vstd::slice::slice_subrange;

verus! {

/// The code-point values of a character sequence.
pub open spec fn symbol_seq(s: Seq<char>) -> Seq<u32> {
    s.map(|_i: int, c: char| c as u32)
}

/// A built enhanced suffix structure: the input characters, the suffix
/// array, and the `node_num` intervals (left, right, depth) describing every
/// maximal repeated substring. Immutable once constructed.
pub struct Suffix {
    pub chars: Vec<char>,
    pub suffix_array: Vec<usize>,
    pub left_array: Vec<usize>,
    pub right_array: Vec<usize>,
    pub depth_array: Vec<usize>,
    pub node_num: usize,
}

/// A cursor over the nodes of a borrowed `Suffix`.
pub struct SuffixIterator<'a> {
    pub i: usize,
    pub suffix: &'a Suffix,
}

impl Suffix {
    /// Everything construction establishes: an input within the accepted
    /// length, four arrays of the input's length, the sorted permutation as
    /// the suffix array, and a well-formed node list closed by the root.
    pub open spec fn wf(self) -> bool {
        &&& self.chars@.len() <= crate::MAX_TEXT_LEN
        &&& esa_wf(
            symbol_seq(self.chars@),
            self.suffix_array@,
            self.left_array@,
            self.right_array@,
            self.depth_array@,
            self.node_num as int,
        )
    }

    /// Offset in `chars` where the substring of node `idx` starts.
    pub open spec fn node_offset(self, idx: int) -> int {
        self.suffix_array@[self.left_array@[idx] as int] as int
    }

    /// Length of the substring of node `idx`.
    pub open spec fn node_depth(self, idx: int) -> int {
        self.depth_array@[idx] as int
    }

    /// Number of occurrences of the substring of node `idx`.
    pub open spec fn node_freq(self, idx: int) -> int {
        self.right_array@[idx] - self.left_array@[idx]
    }

    /// A fresh iterator positioned before the first node.
    pub fn iter<'a>(&'a self) -> (it: SuffixIterator<'a>)
        ensures
            it.i == 0,
            it.suffix == self,
    {
        SuffixIterator { i: 0, suffix: self }
    }
}

/// Rebuilding from the same input yields the same structure: two
/// well-formed structures over equal character sequences have equal suffix
/// arrays, equal node counts, and equal node bounds and depths.
pub proof fn lemma_rebuild_agrees(a: Suffix, b: Suffix)
    requires
        a.wf(),
        b.wf(),
        a.chars@ == b.chars@,
    ensures
        a.suffix_array@ == b.suffix_array@,
        a.node_num == b.node_num,
        forall|j: int|
            0 <= j < a.node_num ==> (#[trigger] a.left_array@[j]) == b.left_array@[j]
                && a.right_array@[j] == b.right_array@[j] && a.depth_array@[j]
                == b.depth_array@[j],
{
    lemma_structure_unique(
        symbol_seq(a.chars@),
        a.suffix_array@,
        a.left_array@,
        a.right_array@,
        a.depth_array@,
        a.node_num as int,
        b.suffix_array@,
        b.left_array@,
        b.right_array@,
        b.depth_array@,
        b.node_num as int,
    );
}

impl<'a> SuffixIterator<'a> {
    /// Yields the next node as a borrowed substring slice and its occurrence
    /// count, or nothing once all `node_num` nodes have been yielded.
    pub fn next(&mut self) -> (res: Option<(&'a [char], u32)>)
        requires
            old(self).suffix.wf(),
        ensures
            final(self).suffix == old(self).suffix,
            old(self).i >= old(self).suffix.node_num ==> res is None && final(self).i == old(
                self,
            ).i,
            old(self).i < old(self).suffix.node_num ==> ({
                let s = *old(self).suffix;
                let idx = old(self).i as int;
                &&& final(self).i == old(self).i + 1
                &&& res matches Some(p) && p.0@ == s.chars@.subrange(
                    s.node_offset(idx),
                    s.node_offset(idx) + s.node_depth(idx),
                ) && p.1 == s.node_freq(idx)
            }),
    {
        let index = self.i;
        if index >= self.suffix.node_num {
            None
        } else {
            proof {
                let t = symbol_seq(self.suffix.chars@);
                assert(node_ok(
                    t,
                    self.suffix.suffix_array@,
                    self.suffix.left_array@[index as int] as int,
                    self.suffix.right_array@[index as int] as int,
                    self.suffix.depth_array@[index as int] as int,
                ));
                assert(prefix_match(
                    t,
                    self.suffix.suffix_array@[self.suffix.left_array@[index as int] as int] as int,
                    self.suffix.suffix_array@[self.suffix.left_array@[index as int] as int] as int,
                    self.suffix.depth_array@[index as int] as int,
                ));
            }
            let left = self.suffix.left_array[index];
            let offset = self.suffix.suffix_array[left];
            let len = self.suffix.depth_array[index];
            let freq_wide = self.suffix.right_array[index] - left;
            let freq = freq_wide as u32;
            self.i = index + 1;
            let piece = slice_subrange(self.suffix.chars.as_slice(), offset, offset + len);
            Some((piece, freq))
        }
    }
}

} // verus!
