use fuzzywuzzy::find_longest_match;
use fuzzywuzzy::get_matching_blocks;

#[test]
fn blocks_with_insertion_in_first() {
    assert_eq!(get_matching_blocks("abxcd", "abcd"), vec![(0, 0, 2), (3, 2, 2), (5, 4, 0)]);
}

#[test]
fn blocks_with_insertion_in_second() {
    assert_eq!(get_matching_blocks("abcd", "abxcd"), vec![(0, 0, 2), (2, 3, 2), (4, 5, 0)]);
}

#[test]
fn blocks_use_scalar_value_offsets() {
    assert_eq!(get_matching_blocks("chance", "スマホでchance"), vec![(0, 4, 6), (6, 10, 0)]);
}

#[test]
fn blocks_of_equal_strings() {
    assert_eq!(get_matching_blocks("abc", "abc"), vec![(0, 0, 3), (3, 3, 0)]);
}

#[test]
fn blocks_of_empty_strings() {
    assert_eq!(get_matching_blocks("", ""), vec![(0, 0, 0)]);
    assert_eq!(get_matching_blocks("abc", ""), vec![(3, 0, 0)]);
    assert_eq!(get_matching_blocks("", "abc"), vec![(0, 3, 0)]);
}

#[test]
fn blocks_of_disjoint_strings() {
    assert_eq!(get_matching_blocks("abc", "xyz"), vec![(3, 3, 0)]);
}

#[test]
fn blocks_are_deterministic() {
    let first = get_matching_blocks("new york mets", "new york yankees");
    let second = get_matching_blocks("new york mets", "new york yankees");
    assert_eq!(first, second);
}

#[test]
fn sentinel_is_last_and_unique() {
    let cases = [
        ("abxcd", "abcd"),
        ("chance", "スマホでchance"),
        ("", "abc"),
        ("hello world", "world hello"),
    ];
    for (a, b) in cases {
        let blocks = get_matching_blocks(a, b);
        let a_len = a.chars().count();
        let b_len = b.chars().count();
        assert_eq!(blocks[blocks.len() - 1], (a_len, b_len, 0));
        for t in 0..blocks.len() - 1 {
            assert!(blocks[t].2 > 0);
        }
    }
}

#[test]
fn blocks_cover_without_overlap() {
    let a = "the quick brown fox";
    let b = "quick fox, the brown";
    let blocks = get_matching_blocks(a, b);
    let av: Vec<char> = a.chars().collect();
    let bv: Vec<char> = b.chars().collect();
    let mut prev_end_a = 0;
    let mut prev_end_b = 0;
    for t in 0..blocks.len() - 1 {
        let (i, j, k) = blocks[t];
        assert!(prev_end_a <= i);
        assert!(prev_end_b <= j);
        assert_eq!(&av[i..i + k], &bv[j..j + k]);
        prev_end_a = i + k;
        prev_end_b = j + k;
    }
    assert!(prev_end_a <= av.len());
    assert!(prev_end_b <= bv.len());
}

#[test]
fn blocks_symmetric_for_unequal_lengths() {
    let forward = get_matching_blocks("abcd", "abxcd");
    let backward = get_matching_blocks("abxcd", "abcd");
    let swapped: Vec<(usize, usize, usize)> = backward.iter().map(|&(i, j, k)| (j, i, k)).collect();
    assert_eq!(forward, swapped);
}

#[test]
fn longest_match_prefers_long_then_early() {
    // the longest run wins
    assert_eq!(find_longest_match("abcd", "abxcd", 0, 4, 0, 5), (0, 0, 2));
    // ties go to the earliest start in the first, then in the second string
    assert_eq!(find_longest_match("ab", "ba", 0, 2, 0, 2), (0, 1, 1));
    // no common run at all
    assert_eq!(find_longest_match("abc", "xyz", 0, 3, 0, 3), (0, 0, 0));
}

#[test]
fn longest_match_uses_scalar_value_offsets() {
    assert_eq!(find_longest_match("chance", "スマホでchance", 0, 6, 0, 10), (0, 4, 6));
}

#[test]
fn longest_match_respects_windows() {
    // restricted to the tail windows, only the final run can match
    assert_eq!(find_longest_match("abab", "abab", 2, 4, 2, 4), (2, 2, 2));
}
