use esaxx_rs::esaxx_rs;
use esaxx_rs::suffix;
use esaxx_rs::suffix_rs;
use esaxx_rs::Suffix;
use esaxx_rs::SuffixError;

fn collect_pairs(s: &Suffix) -> Vec<(Vec<char>, u32)> {
    let mut out = Vec::new();
    let mut iter = s.iter();
    while let Some((piece, freq)) = iter.next() {
        out.push((piece.to_vec(), freq));
    }
    out
}

#[test]
fn test_empty_input() {
    let s = suffix_rs("").unwrap();
    assert_eq!(s.node_num, 0);
    let mut iter = s.iter();
    assert_eq!(iter.next(), None);
}

#[test]
fn test_single_char() {
    let s = suffix_rs("x").unwrap();
    assert_eq!(s.node_num, 1);
    assert_eq!(s.suffix_array, vec![0]);
    let chars: Vec<char> = "x".chars().collect();
    let mut iter = s.iter();
    assert_eq!(iter.next(), Some((&chars[..0], 1))); // the root: '' once
    assert_eq!(iter.next(), None);
}

#[test]
fn test_all_equal_symbols() {
    let s = suffix_rs("aaa").unwrap();
    assert_eq!(s.node_num, 3);
    assert_eq!(s.suffix_array, vec![2, 1, 0]);
    let chars: Vec<char> = "aaa".chars().collect();
    let mut iter = s.iter();
    assert_eq!(iter.next(), Some((&chars[..2], 2))); // aa
    assert_eq!(iter.next(), Some((&chars[..1], 3))); // a
    assert_eq!(iter.next(), Some((&chars[..0], 3))); // ''
    assert_eq!(iter.next(), None);
}

#[test]
fn test_invalid_length_error() {
    let chars: Vec<u32> = vec![97, 98, 99];
    let mut sa = vec![0; 2]; // wrong length
    let mut l = vec![0; 3];
    let mut r = vec![0; 3];
    let mut d = vec![0; 3];
    let res = esaxx_rs(&chars, &mut sa, &mut l, &mut r, &mut d, 0x110000);
    assert_eq!(res, Err(SuffixError::InvalidLength));
}

#[test]
fn test_rebuild_is_identical() {
    for text in ["abracadabra", "banana$band$$", "", "zzzz", "mississippi"] {
        let a = suffix_rs(text).unwrap();
        let b = suffix_rs(text).unwrap();
        assert_eq!(a.suffix_array, b.suffix_array);
        assert_eq!(a.left_array, b.left_array);
        assert_eq!(a.right_array, b.right_array);
        assert_eq!(a.depth_array, b.depth_array);
        assert_eq!(a.node_num, b.node_num);
        assert_eq!(collect_pairs(&a), collect_pairs(&b));
    }
}

#[test]
fn test_iterator_restart() {
    let s = suffix_rs("abracadabra").unwrap();
    let first: Vec<_> = collect_pairs(&s);
    let again: Vec<_> = collect_pairs(&s);
    assert_eq!(first, again);
    assert_eq!(first.len(), s.node_num);
}

#[test]
fn test_suffix_matches_suffix_rs() {
    let a = suffix("banana$band$$").unwrap();
    let b = suffix_rs("banana$band$$").unwrap();
    assert_eq!(a.suffix_array, b.suffix_array);
    assert_eq!(a.node_num, b.node_num);
}

#[test]
fn test_permutation_property() {
    for text in ["abracadabra", "banana$band$$", "mississippi", "aaaa", "x"] {
        let s = suffix_rs(text).unwrap();
        let n = text.chars().count();
        assert_eq!(s.suffix_array.len(), n);
        let mut seen = vec![false; n];
        for &off in &s.suffix_array {
            assert!(off < n);
            assert!(!seen[off]);
            seen[off] = true;
        }
        assert!(seen.iter().all(|&b| b));
    }
}

#[test]
fn test_sort_order_property() {
    for text in ["abracadabra", "banana$band$$", "mississippi", "aaaa"] {
        let s = suffix_rs(text).unwrap();
        let chars: Vec<char> = text.chars().collect();
        for w in s.suffix_array.windows(2) {
            assert!(chars[w[0]..] <= chars[w[1]..]);
        }
    }
}

#[test]
fn test_interval_coverage_property() {
    for text in ["abracadabra", "banana$band$$", "mississippi"] {
        let s = suffix_rs(text).unwrap();
        let chars: Vec<char> = text.chars().collect();
        let n = chars.len();
        for idx in 0..s.node_num {
            let left = s.left_array[idx];
            let right = s.right_array[idx];
            let depth = s.depth_array[idx];
            assert!(left < right && right <= n);
            let first = s.suffix_array[left];
            assert!(first + depth <= n);
            // every member shares the prefix of length depth
            for j in left..right {
                let off = s.suffix_array[j];
                assert!(off + depth <= n);
                assert_eq!(&chars[off..off + depth], &chars[first..first + depth]);
            }
            // and the prefix cannot grow without losing a member
            let extendable = (left..right).all(|j| {
                let off = s.suffix_array[j];
                off + depth + 1 <= n
                    && first + depth + 1 <= n
                    && chars[off..off + depth + 1] == chars[first..first + depth + 1]
            });
            assert!(!extendable);
        }
    }
}

#[test]
fn test_frequency_is_occurrence_count() {
    for text in ["abracadabra", "banana$band$$", "mississippi", "aaaa"] {
        let s = suffix_rs(text).unwrap();
        let chars: Vec<char> = text.chars().collect();
        let n = chars.len();
        let mut iter = s.iter();
        while let Some((piece, freq)) = iter.next() {
            // occurrences = suffixes having the substring as a prefix
            let occurrences = (0..n)
                .filter(|&p| p + piece.len() <= n && &chars[p..p + piece.len()] == piece)
                .count();
            assert_eq!(freq as usize, occurrences);
        }
    }
}

#[test]
fn test_completeness_property() {
    // every adjacent suffix pair is covered by a node of exactly its
    // common-prefix length
    for text in ["abracadabra", "banana$band$$", "mississippi", "aaaa"] {
        let s = suffix_rs(text).unwrap();
        let chars: Vec<char> = text.chars().collect();
        let n = chars.len();
        for i in 1..n {
            let a = s.suffix_array[i - 1];
            let b = s.suffix_array[i];
            let h = (0..n - a.max(b))
                .take_while(|&e| chars[a + e] == chars[b + e])
                .count();
            let covered = (0..s.node_num).any(|idx| {
                s.depth_array[idx] == h && s.left_array[idx] <= i - 1 && i < s.right_array[idx]
            });
            assert!(covered);
        }
    }
}

#[test]
fn test_emission_order() {
    // nodes close left to right; nodes closing together go deeper first
    for text in ["abracadabra", "banana$band$$", "mississippi", "aaaa"] {
        let s = suffix_rs(text).unwrap();
        for idx in 1..s.node_num {
            assert!(s.right_array[idx - 1] <= s.right_array[idx]);
            if s.right_array[idx - 1] == s.right_array[idx] {
                assert!(s.depth_array[idx - 1] > s.depth_array[idx]);
            }
        }
        for idx in 0..s.node_num {
            if s.depth_array[idx] >= 1 {
                // a repeated substring occurs at least twice
                assert!(s.right_array[idx] - s.left_array[idx] >= 2);
            }
        }
    }
}

#[test]
fn test_node_bound_property() {
    for text in ["", "a", "ab", "abracadabra", "banana$band$$", "aaaaaa"] {
        let s = suffix_rs(text).unwrap();
        let n = text.chars().count();
        assert!(s.node_num <= n);
        assert_eq!(s.node_num == 0, n == 0);
    }
}

#[test]
fn test_root_property() {
    for text in ["a", "ab", "abracadabra", "banana$band$$", "aaaaaa"] {
        let s = suffix_rs(text).unwrap();
        let n = text.chars().count();
        let last = s.node_num - 1;
        assert_eq!(s.left_array[last], 0);
        assert_eq!(s.right_array[last], n);
        assert_eq!(s.depth_array[last], 0);
        for idx in 0..last {
            assert!(s.depth_array[idx] >= 1);
        }
    }
}
