use burstsort::alphanumeric::alpha_table::{
    lookup_alpha_index, make_alpha_table, precompute_index, ALPHABET_SIZE,
    ALPHANUMERIC_INDEX_TABLE, NOT_ALPHANUMERIC, TABLE_SIZE,
};
use burstsort::alphanumeric::{
    find_unclassified, make_trie, AlphaNumericTrieNode, ALPHANUMERIC_BURST_LIMIT,
};
use burstsort::{alphanumeric_sort, alphanumeric_unchecked_sort};

fn strs(list: &[&str]) -> Vec<String> {
    list.iter().map(|w| w.to_string()).collect()
}

fn codes(count: usize, prefix: &str) -> Vec<String> {
    (0..count).map(|i| format!("{}{:05}", prefix, (i * 7919) % 100_003)).collect()
}

#[test]
fn classes_run_from_digits_to_lower_case() {
    assert_eq!(lookup_alpha_index(b'0'), 0);
    assert_eq!(lookup_alpha_index(b'9'), 9);
    assert_eq!(lookup_alpha_index(b'A'), 10);
    assert_eq!(lookup_alpha_index(b'Z'), 35);
    assert_eq!(lookup_alpha_index(b'a'), 36);
    assert_eq!(lookup_alpha_index(b'z'), 61);
    assert_eq!(ALPHABET_SIZE, 62);
}

#[test]
fn other_bytes_have_no_class() {
    for c in [0u8, b'!', b'/', b':', b'@', b'[', b'`', b'{', 126, 127, 128, 200, 255] {
        assert_eq!(lookup_alpha_index(c), NOT_ALPHANUMERIC);
    }
    assert_eq!(NOT_ALPHANUMERIC, 255);
}

#[test]
fn lookup_agrees_with_the_standard_library() {
    let mut seen = vec![false; ALPHABET_SIZE];
    for c in 0u8..=255 {
        let index = lookup_alpha_index(c);
        if c.is_ascii_alphanumeric() {
            assert!(index < ALPHABET_SIZE);
            assert_eq!(index, precompute_index(c));
            assert!(!seen[index]);
            seen[index] = true;
        } else {
            assert_eq!(index, NOT_ALPHANUMERIC);
        }
    }
    assert!(seen.iter().all(|&s| s));
}

#[test]
fn computed_table_is_the_constant_table() {
    let table = make_alpha_table();
    assert_eq!(table.len(), TABLE_SIZE);
    assert_eq!(table, ALPHANUMERIC_INDEX_TABLE);
    assert_eq!(table[b'7' as usize], 7);
    assert_eq!(table[b'Q' as usize], 26);
    assert_eq!(table[b'q' as usize], 52);
    assert_eq!(table[b' ' as usize], 255);
}

#[test]
fn precomputed_indices_by_formula() {
    assert_eq!(precompute_index(b'5'), 5);
    assert_eq!(precompute_index(b'B'), 11);
    assert_eq!(precompute_index(b'b'), 37);
}

#[test]
fn finds_the_first_byte_without_a_class() {
    assert_eq!(find_unclassified(&"abc123XYZ".to_string(), 0), None);
    assert_eq!(find_unclassified(&"".to_string(), 0), None);
    assert_eq!(find_unclassified(&"ab-c!".to_string(), 0), Some(b'-'));
    assert_eq!(find_unclassified(&"ab-c!".to_string(), 3), Some(b'!'));
    assert_eq!(find_unclassified(&"ab-c".to_string(), 3), None);
    assert_eq!(find_unclassified(&"ab-c".to_string(), 9), None);
    assert_eq!(find_unclassified(&"aé".to_string(), 0), Some(0xc3));
}

#[test]
fn checked_sort_returns_the_first_bad_byte_from_the_end() {
    let mut data = strs(&["b4t", "two words", "bad!", "si7568ver"]);
    assert_eq!(alphanumeric_sort(&mut data), Err(b'!'));
    assert_eq!(data, strs(&["b4t", "two words"]));
    assert_eq!(alphanumeric_sort(&mut data), Err(b' '));
    assert_eq!(data, strs(&["b4t"]));
    assert_eq!(alphanumeric_sort(&mut data), Ok(()));
    assert_eq!(data, strs(&["b4t"]));
}

#[test]
fn checked_sort_refuses_other_scripts() {
    let mut data = strs(&["abc", "żółw"]);
    assert_eq!(alphanumeric_sort(&mut data), Err(0xc5));
    assert_eq!(data, strs(&["abc"]));
}

#[test]
fn checked_insert_leaves_the_trie_as_it_was() {
    let mut trie = make_trie();
    assert_eq!(trie.insert("b".to_string()), Ok(()));
    assert_eq!(trie.insert("a b".to_string()), Err(b' '));
    assert_eq!(trie.insert("".to_string()), Ok(()));
    assert_eq!(trie.insert("a".to_string()), Ok(()));
    let mut out = strs(&["zzz"]);
    trie.merge(&mut out);
    assert_eq!(out, strs(&["zzz", "", "a", "b"]));
    let mut again = Vec::new();
    trie.merge(&mut again);
    assert!(again.is_empty());
}

#[test]
fn checked_sort_bursts_and_sorts_many_strings() {
    let items: Vec<String> =
        codes(12_000, "same").into_iter().chain(codes(9_000, "")).chain(codes(9_000, "Z")).collect();
    assert!(items.len() > 3 * ALPHANUMERIC_BURST_LIMIT);
    let mut expected = items.clone();
    expected.sort();
    let mut data = items;
    assert_eq!(alphanumeric_sort(&mut data), Ok(()));
    assert_eq!(data, expected);
}

#[test]
fn unchecked_sort_keeps_every_alphanumeric_string() {
    let items: Vec<String> = codes(10_000, "x").into_iter().chain(codes(10_000, "7")).collect();
    let mut expected = items.clone();
    expected.sort();
    let mut data = items;
    alphanumeric_unchecked_sort(&mut data);
    assert_eq!(data, expected);
}

#[test]
fn unchecked_insert_drops_what_it_cannot_route() {
    let mut data = strs(&["ab", "!x", "a!", "b", "é", ""]);
    alphanumeric_unchecked_sort(&mut data);
    assert_eq!(data, strs(&["", "a!", "ab", "b"]));
}

#[test]
fn unchecked_insert_drops_at_a_burst_what_it_let_pass() {
    let mut items = codes(ALPHANUMERIC_BURST_LIMIT, "a");
    items.push("a!".to_string());
    let mut expected: Vec<String> = items.iter().filter(|s| *s != "a!").cloned().collect();
    expected.sort();
    let mut data = items;
    alphanumeric_unchecked_sort(&mut data);
    assert_eq!(data.len(), ALPHANUMERIC_BURST_LIMIT);
    assert_eq!(data, expected);

    // With no more strings than the limit nothing bursts, and nothing is dropped.
    let mut items = codes(ALPHANUMERIC_BURST_LIMIT - 1, "a");
    items.push("a!".to_string());
    let mut expected = items.clone();
    expected.sort();
    let mut data = items;
    alphanumeric_unchecked_sort(&mut data);
    assert_eq!(data, expected);
}

#[test]
fn unchecked_insert_by_hand() {
    let mut trie = make_trie();
    trie.insert_unchecked("b1".to_string());
    trie.insert_unchecked("?".to_string());
    trie.insert_unchecked("a2".to_string());
    let mut out = Vec::new();
    trie.merge(&mut out);
    assert_eq!(out, strs(&["a2", "b1"]));
}

#[test]
fn classes_keep_the_order_of_the_bytes() {
    let mut items: Vec<String> = Vec::new();
    for i in 0..ALPHANUMERIC_BURST_LIMIT + 10 {
        let first = b"zZ9aA0mM5"[i % 9] as char;
        items.push(format!("{}{:04}", first, (i * 7919) % 10_007));
    }
    let mut expected = items.clone();
    expected.sort();
    let mut data = items;
    assert_eq!(alphanumeric_sort(&mut data), Ok(()));
    assert_eq!(data, expected);
}
