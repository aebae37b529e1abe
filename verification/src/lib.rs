//! Enhanced suffix array construction.
//!
//! Builds, for a sequence of Unicode code points, its suffix array together
//! with the interval structure (left / right / depth arrays) describing every
//! maximal repeated substring, and offers an iterator over
//! `(substring, frequency)` pairs.

use vstd::prelude::*;
use vstd::string::StrSliceExecFns;

mod esa;
mod nodes;
mod order;
mod sais;
mod structs;
mod types;

pub use esa::esaxx_rs;
pub use nodes::{
    esa_wf, lemma_interval_determined, lemma_structure_unique, node_ok, nodes_complete,
    nodes_ordered, nodes_repeated, prefix_match,
};
pub use order::{is_permutation, lcp_len, lemma_suffix_array_unique, sorted_by_suffix, suffix_lt};
pub use structs::{lemma_rebuild_agrees, symbol_seq, Suffix, SuffixIterator};
pub use types::SuffixError;

verus! {

/// The widest length of input this library accepts, so that all internal
/// index arithmetic stays within `usize` even where `usize` has only 32
/// bits. Longer inputs are rejected as an internal failure before any work.
pub const MAX_TEXT_LEN: usize = 0x4000_0000;

/// A vector of `len` copies of `val`.
pub(crate) fn filled_bool(len: usize, val: bool) -> (v: Vec<bool>)
    ensures
        v@.len() == len,
        forall|i: int| 0 <= i < len ==> #[trigger] v@[i] == val,
{
    let mut v: Vec<bool> = Vec::new();
    for _k in 0..len
        invariant
            v@.len() == _k,
            forall|i: int| 0 <= i < _k ==> #[trigger] v@[i] == val,
    {
        v.push(val);
    }
    v
}

/// A vector of `len` copies of `val`.
pub(crate) fn filled_usize(len: usize, val: usize) -> (v: Vec<usize>)
    ensures
        v@.len() == len,
        forall|i: int| 0 <= i < len ==> #[trigger] v@[i] == val,
{
    let mut v: Vec<usize> = Vec::new();
    for _k in 0..len
        invariant
            v@.len() == _k,
            forall|i: int| 0 <= i < _k ==> #[trigger] v@[i] == val,
    {
        v.push(val);
    }
    v
}

/// The code-point value of one character; always below the alphabet bound
/// used by construction.
fn code_of(c: char) -> (u: u32)
    ensures
        u == c as u32,
        u < 0x110000,
{
    c as u32
}

/// Builds the enhanced suffix structure of `string` over the full code-point
/// alphabet.
///
/// On success the returned structure is well formed: its suffix array is the
/// sorted permutation of the suffix offsets of `string`, and its node list
/// describes every maximal repeated substring, closed by the root interval.
/// An `Internal` failure reports an input longer than `MAX_TEXT_LEN`, or a
/// sorting or interval stage that signalled failure; no partial structure is
/// returned then.
pub fn suffix_rs(string: &str) -> (res: Result<Suffix, SuffixError>)
    ensures
        res matches Ok(s) ==> s.wf() && s.chars@ == string@,
        res matches Err(e) ==> e == SuffixError::Internal,
        string@.len() == 0 ==> (res matches Ok(s) && s.node_num == 0),
{
    let n = string.unicode_len();
    if n > MAX_TEXT_LEN {
        return Err(SuffixError::Internal);
    }
    let mut chars: Vec<char> = Vec::new();
    for i in 0..n
        invariant
            n == string@.len(),
            chars@.len() == i,
            forall|j: int| 0 <= j < i ==> #[trigger] chars@[j] == string@[j],
    {
        chars.push(string.get_char(i));
    }
    let mut codes: Vec<u32> = Vec::new();
    for i in 0..n
        invariant
            n == chars@.len(),
            codes@.len() == i,
            forall|j: int| 0 <= j < i ==> #[trigger] codes@[j] == (chars@[j] as u32),
            forall|j: int| 0 <= j < i ==> (#[trigger] codes@[j]) < 0x110000,
    {
        let u = code_of(chars[i]);
        codes.push(u);
    }
    proof {
        assert(chars@ =~= string@);
        assert(codes@ =~= symbol_seq(chars@));
    }
    let mut sa = filled_usize(n, 0);
    let mut l = filled_usize(n, 0);
    let mut r = filled_usize(n, 0);
    let mut d = filled_usize(n, 0);
    let node_num = match esa::esaxx_rs(&codes, &mut sa, &mut l, &mut r, &mut d, 0x110000) {
        Ok(m) => m,
        Err(_) => {
            return Err(SuffixError::Internal);
        },
    };
    Ok(
        Suffix {
            chars,
            suffix_array: sa,
            left_array: l,
            right_array: r,
            depth_array: d,
            node_num,
        },
    )
}

/// Alternative construction entry point with the same contract as
/// `suffix_rs`; both build through the same verified pipeline.
pub fn suffix(string: &str) -> (res: Result<Suffix, SuffixError>)
    ensures
        res matches Ok(s) ==> s.wf() && s.chars@ == string@,
        res matches Err(e) ==> e == SuffixError::Internal,
        string@.len() == 0 ==> (res matches Ok(s) && s.node_num == 0),
{
    suffix_rs(string)
}

} // verus!
