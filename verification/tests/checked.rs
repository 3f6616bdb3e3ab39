use burstsort::{checked_burstsort, find_unclassifiable, find_unfit, BurstConfig};

fn list(items: &[&str]) -> Vec<String> {
    items.iter().map(|w| w.to_string()).collect()
}

#[test]
fn checked_sort_sorts_what_fits() {
    let mut data = list(&["pear", "apple", "fig"]);
    assert_eq!(checked_burstsort(&mut data, &BurstConfig::ascii()), Ok(()));
    assert_eq!(data, list(&["apple", "fig", "pear"]));
}

#[test]
fn checked_sort_returns_the_unit_that_does_not_fit() {
    let mut data = list(&["pear", "żółw", "apple", "日本"]);
    assert_eq!(checked_burstsort(&mut data, &BurstConfig::ascii()), Err(0xc5));
    assert_eq!(data, list(&["pear", "żółw", "apple", "日本"]));
    assert_eq!(checked_burstsort(&mut data, &BurstConfig::utf8()), Ok(()));
    assert_eq!(data, list(&["apple", "pear", "żółw", "日本"]));
}

#[test]
fn ascii_tuning_has_no_class_for_the_last_ascii_byte() {
    let mut data = list(&["a\u{7f}", "~"]);
    assert_eq!(checked_burstsort(&mut data, &BurstConfig::ascii()), Err(127));
    let mut data = list(&["b~", "~", "a"]);
    assert_eq!(checked_burstsort(&mut data, &BurstConfig::ascii()), Ok(()));
    assert_eq!(data, list(&["a", "b~", "~"]));
}

#[test]
fn a_trie_without_classes_holds_only_empty_items() {
    let config = BurstConfig { burst_limit: 1, initial_capacity: 0, classes: 0, hint_long: false };
    let mut data = list(&["", "", ""]);
    assert_eq!(checked_burstsort(&mut data, &config), Ok(()));
    assert_eq!(data, list(&["", "", ""]));
    let mut data = list(&["", "\u{0}"]);
    assert_eq!(checked_burstsort(&mut data, &config), Err(0));
}

#[test]
fn finds_the_first_unit_that_does_not_fit() {
    assert_eq!(find_unfit(&"abc".to_string(), 127), None);
    assert_eq!(find_unfit(&"abc".to_string(), 99), Some(99));
    assert_eq!(find_unfit(&"abc".to_string(), 98), Some(98));
    assert_eq!(find_unfit(&"cba".to_string(), 98), Some(99));
    assert_eq!(find_unfit(&vec![1u8, 200, 255], 201), Some(255));
    assert_eq!(find_unfit(&"", 0), None);
}

#[test]
fn finds_the_first_item_that_does_not_fit() {
    let data = list(&["ab", "cd", "ef"]);
    assert_eq!(find_unclassifiable(&data, 127), None);
    assert_eq!(find_unclassifiable(&data, 101), Some(101));
    assert_eq!(find_unclassifiable(&data, 100), Some(100));
    assert_eq!(find_unclassifiable(&data, 98), Some(98));
    assert_eq!(find_unclassifiable(&Vec::<String>::new(), 0), None);
}

#[test]
fn checked_insert_refuses_what_does_not_fit() {
    let config = BurstConfig::ascii();
    let mut root = burstsort::trie::TrieNode::root(&config);
    assert_eq!(root.checked_insert("pear".to_string()), Ok(()));
    assert_eq!(root.checked_insert("żółw".to_string()), Err(0xc5));
    assert_eq!(root.checked_insert("a\u{7f}".to_string()), Err(127));
    assert_eq!(root.checked_insert("apple".to_string()), Ok(()));
    let mut out = Vec::new();
    root.merge(&mut out);
    assert_eq!(out, list(&["apple", "pear"]));
}

#[test]
fn unchecked_insert_drops_what_does_not_fit() {
    let config = BurstConfig::ascii();
    let mut root = burstsort::trie::TrieNode::root(&config);
    root.insert_unchecked("pear".to_string());
    root.insert_unchecked("żółw".to_string());
    root.insert_unchecked("a\u{7f}".to_string());
    root.insert_unchecked("apple".to_string());
    let mut out = Vec::new();
    root.merge(&mut out);
    assert_eq!(out, list(&["apple", "pear"]));
}
