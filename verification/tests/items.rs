use burstsort::item::{rank_from, Rank};
use burstsort::leaf::compare_from;
use burstsort::Item;
use std::cmp::Ordering;

#[test]
fn strings_are_keyed_by_their_bytes() {
    let s = "aé".to_string();
    assert_eq!(s.unit_count(), 3);
    assert_eq!(s.unit_at(0), 97);
    assert_eq!(s.unit_at(1), 0xc3);
    assert_eq!(s.unit_at(2), 0xa9);
    assert_eq!("".to_string().unit_count(), 0);
}

#[test]
fn string_slices_are_keyed_by_their_bytes() {
    let s = "aé";
    assert_eq!(s.unit_count(), 3);
    assert_eq!(s.unit_at(0), 97);
    assert_eq!(s.unit_at(2), 0xa9);
}

#[test]
fn byte_vectors_are_keyed_by_their_bytes() {
    let v: Vec<u8> = vec![0, 255, 7];
    assert_eq!(v.unit_count(), 3);
    assert_eq!(v.unit_at(0), 0);
    assert_eq!(v.unit_at(1), 255);
    assert_eq!(v.unit_at(2), 7);
}

#[test]
fn ranks_follow_lexicographic_order() {
    let rank = |l: &str, r: &str, from: usize| rank_from(&l.to_string(), &r.to_string(), from);
    assert_eq!(rank("abc", "abd", 0), Rank::Before);
    assert_eq!(rank("abd", "abc", 0), Rank::After);
    assert_eq!(rank("abc", "abc", 0), Rank::Same);
    assert_eq!(rank("ab", "abc", 0), Rank::Before);
    assert_eq!(rank("abc", "ab", 0), Rank::After);
    assert_eq!(rank("", "", 0), Rank::Same);
    assert_eq!(rank("", "a", 0), Rank::Before);
    assert_eq!(rank("Z", "a", 0), Rank::Before);
    assert_eq!(rank("z", "é", 0), Rank::Before);
}

#[test]
fn ranks_skip_the_units_before_the_start() {
    let rank = |l: &str, r: &str, from: usize| rank_from(&l.to_string(), &r.to_string(), from);
    assert_eq!(rank("zb", "ac", 1), Rank::Before);
    assert_eq!(rank("zb", "ab", 1), Rank::Same);
    assert_eq!(rank("zc", "ab", 1), Rank::After);
    assert_eq!(rank("xy", "ab", 2), Rank::Same);
    assert_eq!(rank("xyz", "ab", 2), Rank::After);
}

#[test]
fn comparisons_are_the_ranks() {
    let compare =
        |l: &str, r: &str, from: usize| compare_from(&l.to_string(), &r.to_string(), from);
    assert_eq!(compare("abc", "abd", 0), Ordering::Less);
    assert_eq!(compare("abd", "abc", 0), Ordering::Greater);
    assert_eq!(compare("abc", "abc", 0), Ordering::Equal);
    assert_eq!(compare("zb", "ac", 1), Ordering::Less);
}

#[test]
fn comparisons_agree_with_the_standard_library() {
    let samples = ["", "a", "ab", "abc", "b", "ba", "B", "é", "日本", "z", "zz"];
    for l in samples {
        for r in samples {
            assert_eq!(compare_from(&l.to_string(), &r.to_string(), 0), l.as_bytes().cmp(r.as_bytes()));
            assert_eq!(compare_from(&l, &r, 0), l.cmp(r));
        }
    }
}

#[test]
fn vectors_of_numbers_are_keyed_by_their_numbers() {
    let wide: Vec<u16> = vec![0, 65535, 7];
    assert_eq!((wide.unit_count(), wide.unit_at(1)), (3, 65535));
    let wider: Vec<u32> = vec![70_000];
    assert_eq!((wider.unit_count(), wider.unit_at(0)), (1, 70_000));
    let widest: Vec<usize> = vec![1, 2];
    assert_eq!((widest.unit_count(), widest.unit_at(1)), (2, 2));
}

#[test]
fn vectors_of_numbers_are_sorted_by_a_trie_with_enough_classes() {
    let config = burstsort::BurstConfig {
        burst_limit: 2,
        initial_capacity: 0,
        classes: 1000,
        hint_long: false,
    };
    let mut data: Vec<Vec<u16>> = vec![vec![999, 1], vec![300], vec![], vec![999], vec![300, 0]];
    burstsort::burstsort(&mut data, &config);
    assert_eq!(data, vec![vec![], vec![300], vec![300, 0], vec![999], vec![999, 1]]);
    let mut data: Vec<Vec<u16>> = vec![vec![1], vec![1000]];
    assert_eq!(burstsort::checked_burstsort(&mut data, &config), Err(1000));
}
