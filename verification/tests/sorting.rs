use burstsort::alphanumeric::{make_trie, AlphaNumericTrieNode};
use burstsort::{alphanumeric_sort, burstsort, byte_sort, par_burstsort, BurstConfig};

fn words(list: &[&str]) -> Vec<String> {
    list.iter().map(|w| w.to_string()).collect()
}

#[test]
fn sorts_words_with_default_config() {
    let mut data = words(&["cat", "apple", "jackal", "silver", "bat", "applesauce", "ostritch"]);
    burstsort(&mut data, &BurstConfig::utf8());
    assert_eq!(
        data,
        words(&["apple", "applesauce", "bat", "cat", "jackal", "ostritch", "silver"])
    );
}

#[test]
fn sorts_words_with_ascii_config() {
    let mut data = words(&["apple", "strawberry", "pear", "orange", "banana"]);
    burstsort(&mut data, &BurstConfig::ascii());
    assert_eq!(data, words(&["apple", "banana", "orange", "pear", "strawberry"]));
}

#[test]
fn sorts_string_slices() {
    let mut data = vec!["apple", "strawberry", "pear", "orange", "banana"];
    burstsort(&mut data, &BurstConfig::ascii());
    assert_eq!(data, vec!["apple", "banana", "orange", "pear", "strawberry"]);
}

#[test]
fn sorts_byte_vectors() {
    let mut data: Vec<Vec<u8>> = vec![vec![3, 1], vec![255], vec![], vec![3], vec![0, 0, 7]];
    burstsort(&mut data, &BurstConfig::utf8());
    assert_eq!(data, vec![vec![], vec![0, 0, 7], vec![3], vec![3, 1], vec![255]]);
}

#[test]
fn byte_order_puts_upper_case_first_and_other_scripts_last() {
    let mut data = words(&["cat", "12345", "Bat", "apple", "π"]);
    byte_sort(&mut data);
    assert_eq!(data, words(&["12345", "Bat", "apple", "cat", "π"]));
}

#[test]
fn byte_order_holds_for_the_configured_trie_too() {
    let mut data = words(&["cat", "12345", "Bat", "apple", "π"]);
    burstsort(&mut data, &BurstConfig::utf8());
    assert_eq!(data, words(&["12345", "Bat", "apple", "cat", "π"]));
}

#[test]
fn alphanumeric_strings_are_sorted() {
    let mut data = words(&["si7568ver", "b4t", "apple", "Zebra", "007"]);
    assert_eq!(alphanumeric_sort(&mut data), Ok(()));
    assert_eq!(data, words(&["007", "Zebra", "apple", "b4t", "si7568ver"]));
}

#[test]
fn checked_insert_names_the_byte_it_cannot_classify() {
    let mut trie = make_trie();
    assert_eq!(trie.insert("si7568ver".to_string()), Ok(()));
    assert_eq!(trie.insert("b4t".to_string()), Ok(()));
    assert_eq!(trie.insert("!".to_string()), Err(b'!'));
    assert_eq!(trie.insert("wh4t!".to_string()), Err(33));
    let mut out = Vec::new();
    trie.merge(&mut out);
    assert_eq!(out, words(&["b4t", "si7568ver"]));
}

#[test]
fn empty_input_gives_empty_output() {
    let mut data: Vec<String> = Vec::new();
    burstsort(&mut data, &BurstConfig::utf8());
    assert!(data.is_empty());
    par_burstsort(&mut data, &BurstConfig::utf8());
    assert!(data.is_empty());
    byte_sort(&mut data);
    assert!(data.is_empty());
    assert_eq!(alphanumeric_sort(&mut data), Ok(()));
    assert!(data.is_empty());
}

#[test]
fn ten_thousand_equal_items_come_back() {
    let mut data: Vec<String> = (0..10_000).map(|_| "aaa".to_string()).collect();
    burstsort(&mut data, &BurstConfig::utf8());
    assert_eq!(data.len(), 10_000);
    assert!(data.iter().all(|s| s == "aaa"));
}

#[test]
fn equal_items_end_in_the_matches_of_a_deep_node() {
    let config = BurstConfig { burst_limit: 8, initial_capacity: 4, classes: 256, hint_long: false };
    let mut data: Vec<String> = (0..10_000).map(|_| "aaa".to_string()).collect();
    burstsort(&mut data, &config);
    assert_eq!(data.len(), 10_000);
    assert!(data.iter().all(|s| s == "aaa"));
}

#[test]
fn burst_limit_of_one_bursts_every_node() {
    let config = BurstConfig { burst_limit: 1, initial_capacity: 0, classes: 256, hint_long: false };
    let mut data: Vec<String> = (27u8..127).rev().map(|b| (b as char).to_string()).collect();
    assert_eq!(data.len(), 100);
    let mut expected = data.clone();
    expected.sort();
    burstsort(&mut data, &config);
    assert_eq!(data, expected);
    for pair in data.windows(2) {
        assert!(pair[0].as_bytes() <= pair[1].as_bytes());
    }
}

#[test]
fn burst_limit_of_zero_still_sorts() {
    let config = BurstConfig { burst_limit: 0, initial_capacity: 0, classes: 256, hint_long: true };
    let mut data = words(&["b", "a", "", "ab", "aa", "b", "ba", "a"]);
    burstsort(&mut data, &config);
    assert_eq!(data, words(&["", "a", "a", "aa", "ab", "b", "b", "ba"]));
}

#[test]
fn ready_made_tunings_have_their_values() {
    let ascii = BurstConfig::ascii();
    assert_eq!(
        (ascii.burst_limit, ascii.initial_capacity, ascii.classes, ascii.hint_long),
        (16384, 0, 127, false)
    );
    let long = BurstConfig::long_ascii();
    assert_eq!(
        (long.burst_limit, long.initial_capacity, long.classes, long.hint_long),
        (16384, 0, 127, true)
    );
    let utf8 = BurstConfig::utf8();
    assert_eq!(
        (utf8.burst_limit, utf8.initial_capacity, utf8.classes, utf8.hint_long),
        (16384, 0, 256, false)
    );
}
