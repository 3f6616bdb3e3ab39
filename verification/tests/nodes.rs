use burstsort::byte::{BucketNode, NodeKind, TableNode, BURST_LIMIT};
use burstsort::trie::TrieNode;
use burstsort::unicode::char_at;
use burstsort::{byte_sort, byte_sort_unstable, unicode_sort_unstable, BurstConfig};

fn texts(list: &[&str]) -> Vec<String> {
    list.iter().map(|w| w.to_string()).collect()
}

/// Where the bytes of `s` lie: tells apart slices with equal bytes.
fn place(s: &str) -> usize {
    s.as_ptr() as usize
}

fn numbered(count: usize, prefix: &str) -> Vec<String> {
    // In an order that is far from sorted: the numbers are multiplied modulo a prime.
    (0..count).map(|i| format!("{}{:05}", prefix, (i * 7919) % 100_003)).collect()
}

#[test]
fn root_insert_merge_by_hand() {
    let config = BurstConfig { burst_limit: 2, initial_capacity: 1, classes: 256, hint_long: false };
    let mut root = TrieNode::root(&config);
    for word in ["pear", "peach", "", "pea", "plum", "pea", "apple"] {
        root.insert(word.to_string());
    }
    let mut out = texts(&["zzz"]);
    root.merge(&mut out);
    assert_eq!(out, texts(&["zzz", "", "apple", "pea", "pea", "peach", "pear", "plum"]));
    let mut again = Vec::new();
    root.merge(&mut again);
    assert!(again.is_empty());
}

#[test]
fn par_merge_by_hand() {
    let config = BurstConfig { burst_limit: 2, initial_capacity: 0, classes: 256, hint_long: true };
    let mut root = TrieNode::root(&config);
    for word in ["pear", "peach", "", "pea", "plum", "pea", "apple"] {
        root.insert(word.to_string());
    }
    let mut out = texts(&["zzz"]);
    root.par_merge(&mut out);
    assert_eq!(out, texts(&["zzz", "", "apple", "pea", "pea", "peach", "pear", "plum"]));
}

#[test]
fn par_merge_sorts_a_list_that_never_burst() {
    let config = BurstConfig::utf8();
    let mut root = TrieNode::root(&config);
    for word in ["d", "b", "a", "c"] {
        root.insert(word.to_string());
    }
    let mut out = Vec::new();
    root.par_merge(&mut out);
    assert_eq!(out, texts(&["a", "b", "c", "d"]));
}

#[test]
fn merge_sorts_a_list_that_never_burst() {
    for hint_long in [false, true] {
        let config = BurstConfig { hint_long, ..BurstConfig::utf8() };
        let mut root = TrieNode::root(&config);
        for word in ["d", "b", "a", "c", "ab"] {
            root.insert(word.to_string());
        }
        let mut out = Vec::new();
        root.merge(&mut out);
        assert_eq!(out, texts(&["a", "ab", "b", "c", "d"]));
    }
}

#[test]
fn long_hint_compares_what_is_left_of_the_keys() {
    // With a burst limit of 3 the four words burst at the root and meet again, two
    // levels down, in the list of the node for "ab".
    let config = BurstConfig { burst_limit: 3, initial_capacity: 0, classes: 128, hint_long: true };
    let mut data = texts(&["abd", "abc", "abz", "aba", "b"]);
    burstsort::burstsort(&mut data, &config);
    assert_eq!(data, texts(&["aba", "abc", "abd", "abz", "b"]));
}

#[test]
fn byte_node_by_hand() {
    let mut node = burstsort::byte::TrieNode::new(0);
    assert_eq!(node.offset, 0);
    for word in ["pear", "peach", "", "pea", "plum", "pea", "apple"] {
        node.insert(word.to_string());
    }
    assert!(matches!(node.data, NodeKind::Bucket(_)));
    let mut out = texts(&["zzz"]);
    node.merge(&mut out);
    assert_eq!(out, texts(&["zzz", "", "apple", "pea", "pea", "peach", "pear", "plum"]));
}

#[test]
fn byte_node_bursts_beyond_the_limit() {
    let mut node = burstsort::byte::TrieNode::new(0);
    let items = numbered(BURST_LIMIT + 1, "k");
    for (i, item) in items.iter().enumerate() {
        assert!(matches!(node.data, NodeKind::Bucket(_)), "burst before item {}", i);
        node.insert(item.clone());
    }
    assert!(matches!(node.data, NodeKind::Table(_)));
    let mut expected = items.clone();
    expected.sort();
    let mut out = Vec::new();
    node.merge_unstable(&mut out);
    assert_eq!(out, expected);
}

#[test]
fn bucket_node_by_hand() {
    let mut bucket = BucketNode { bucket: Vec::new() };
    assert!(!bucket.should_burst());
    for word in ["abz", "aba", "ab", "abc"] {
        bucket.insert(word.to_string());
    }
    assert_eq!(bucket.bucket, texts(&["abz", "aba", "ab", "abc"]));
    let mut copy = BucketNode { bucket: bucket.bucket.clone() };

    let mut out = Vec::new();
    bucket.merge(&mut out, 2);
    assert_eq!(out, texts(&["ab", "aba", "abc", "abz"]));
    assert!(bucket.bucket.is_empty());

    let mut out = texts(&["first"]);
    copy.merge_unstable(&mut out, 0);
    assert_eq!(out, texts(&["first", "ab", "aba", "abc", "abz"]));
}

#[test]
fn bucket_merge_looks_only_beyond_the_offset() {
    let mut bucket = BucketNode { bucket: texts(&["zb", "ya", "xc"]) };
    let mut out = Vec::new();
    bucket.merge(&mut out, 1);
    assert_eq!(out, texts(&["ya", "zb", "xc"]));
}

#[test]
fn bucket_reports_when_it_holds_more_than_the_limit() {
    let mut bucket = BucketNode { bucket: numbered(BURST_LIMIT - 1, "k") };
    assert!(!bucket.should_burst());
    bucket.insert("last within".to_string());
    assert_eq!(bucket.bucket.len(), 8192);
    assert!(!bucket.should_burst());
    bucket.insert("one more".to_string());
    assert!(bucket.should_burst());
}

#[test]
fn byte_node_with_as_many_items_as_the_limit_is_a_bucket() {
    let mut node = burstsort::byte::TrieNode::new(0);
    for item in numbered(BURST_LIMIT, "k") {
        node.insert(item);
    }
    match &node.data {
        NodeKind::Bucket(bucket) => assert_eq!(bucket.bucket.len(), BURST_LIMIT),
        NodeKind::Table(_) => panic!("the node burst at the limit"),
    }
}

#[test]
fn unicode_node_with_as_many_texts_as_the_limit_is_a_list() {
    let mut node = burstsort::unicode::TrieNode::new(0);
    for item in numbered(burstsort::unicode::BURST_LIMIT, "k") {
        node.insert(item);
    }
    match &node.kind {
        burstsort::unicode::NodeKind::Collapsed(list) => assert_eq!(list.len(), 8192),
        burstsort::unicode::NodeKind::Burst(_) => panic!("the node burst at the limit"),
    }
    node.insert("k".to_string());
    assert!(matches!(node.kind, burstsort::unicode::NodeKind::Burst(_)));
}

#[test]
fn byte_sort_keeps_equal_items_in_their_order() {
    // Slices with equal bytes are told apart by where they lie.
    let pool: Vec<String> = (0..30_000).map(|i| format!("k{:03}", (i * 7919) % 997)).collect();
    let input: Vec<&str> = pool.iter().map(|s| s.as_str()).collect();
    let mut expected = input.clone();
    expected.sort();
    let mut data = input.clone();
    byte_sort(&mut data);
    assert_eq!(data, expected);
    let places: Vec<usize> = data.iter().map(|s| place(s)).collect();
    let expected_places: Vec<usize> = expected.iter().map(|s| place(s)).collect();
    assert_eq!(places, expected_places);
}

#[test]
fn byte_merge_keeps_equal_items_in_their_order() {
    let pool: Vec<String> = ["b", "a", "b", "", "a", "", "ab", "b"].iter().map(|s| s.to_string()).collect();
    let mut node = burstsort::byte::TrieNode::new(0);
    for s in &pool {
        node.insert(s.as_str());
    }
    let mut out: Vec<&str> = Vec::new();
    node.merge(&mut out);
    let places: Vec<usize> = out.iter().map(|s| place(s)).collect();
    let order = [3usize, 5, 1, 4, 6, 0, 2, 7];
    let expected: Vec<usize> = order.iter().map(|&i| place(&pool[i])).collect();
    assert_eq!(out, vec!["", "", "a", "a", "ab", "b", "b", "b"]);
    assert_eq!(places, expected);
}

#[test]
fn table_merge_puts_the_matches_first_as_they_stood() {
    let pool: Vec<String> = ["x", "x", "xa", "x"].iter().map(|s| s.to_string()).collect();
    let mut table: TableNode<&str> = TableNode::new(1);
    for s in &pool {
        table.insert(s.as_str(), 1);
    }
    let mut out: Vec<&str> = vec!["first"];
    table.merge_unstable(&mut out);
    assert_eq!(out, vec!["first", "x", "x", "x", "xa"]);
    assert_eq!(place(out[1]), place(&pool[0]));
    assert_eq!(place(out[2]), place(&pool[1]));
    assert_eq!(place(out[3]), place(&pool[3]));
}

#[test]
fn table_insert_changes_one_child_only() {
    let mut table: TableNode<String> = TableNode::new(0);
    table.insert("b".to_string(), 0);
    table.insert("a".to_string(), 0);
    table.insert("".to_string(), 0);
    for (byte, child) in table.table.iter().enumerate() {
        match &child.data {
            NodeKind::Bucket(bucket) => {
                let expected: Vec<String> = match byte {
                    97 => vec!["a".to_string()],
                    98 => vec!["b".to_string()],
                    _ => vec![],
                };
                assert_eq!(bucket.bucket, expected);
            }
            NodeKind::Table(_) => panic!("a child burst"),
        }
    }
    assert_eq!(table.matches, vec!["".to_string()]);
}

#[test]
fn bucket_bursts_into_a_table() {
    let mut bucket = BucketNode { bucket: texts(&["ab", "a", "ac", "a"]) };
    let mut table = bucket.burst(1);
    assert!(bucket.bucket.is_empty());
    assert_eq!(table.matches, texts(&["a", "a"]));
    assert_eq!(table.table.len(), 256);
    let mut out = Vec::new();
    table.merge(&mut out);
    assert_eq!(out, texts(&["a", "a", "ab", "ac"]));
}

#[test]
fn table_node_by_hand() {
    let mut table = TableNode::new(0);
    assert_eq!(table.table.len(), 256);
    assert!(table.matches.is_empty());
    assert!(table.table.iter().all(|child| child.offset == 1));
    for word in ["b", "", "a", "\u{ff}", "ab", ""] {
        table.insert(word.to_string(), 0);
    }
    assert_eq!(table.matches, texts(&["", ""]));
    let mut copy = Vec::new();
    table.merge_unstable(&mut copy);
    assert_eq!(copy, texts(&["", "", "a", "ab", "b", "\u{ff}"]));
}

#[test]
fn table_has_a_child_for_the_largest_byte() {
    let mut table: TableNode<Vec<u8>> = TableNode::new(0);
    for item in [vec![255u8, 1], vec![97], vec![255], vec![0]] {
        table.insert(item, 0);
    }
    let mut out = Vec::new();
    table.merge(&mut out);
    assert_eq!(out, vec![vec![0u8], vec![97], vec![255], vec![255, 1]]);
}

#[test]
fn byte_sorts_burst_and_sort_many_strings() {
    let items: Vec<String> =
        numbered(12_000, "same-").into_iter().chain(numbered(9_000, "")).collect();
    let mut expected = items.clone();
    expected.sort();
    let mut stable = items.clone();
    byte_sort(&mut stable);
    assert_eq!(stable, expected);
    let mut unstable = items;
    byte_sort_unstable(&mut unstable);
    assert_eq!(unstable, expected);
}

#[test]
fn unicode_node_by_hand() {
    let mut node = burstsort::unicode::TrieNode::new(0);
    for word in ["żółw", "zebra", "", "ż", "źrebak", "zebra", "日本"] {
        node.insert(word.to_string());
    }
    assert_eq!(node.matches, texts(&[""]));
    let mut out = texts(&["first"]);
    node.merge(&mut out);
    assert_eq!(out, texts(&["first", "", "zebra", "zebra", "źrebak", "ż", "żółw", "日本"]));

    let mut node = burstsort::unicode::TrieNode::new(0);
    for word in ["b", "a", "c"] {
        node.insert(word.to_string());
    }
    let mut out = Vec::new();
    node.merge_unstable(&mut out);
    assert_eq!(out, texts(&["a", "b", "c"]));
}

#[test]
fn unicode_node_bursts_into_children_in_order() {
    let mut node = burstsort::unicode::TrieNode::new(0);
    let letters = ['ż', 'a', '日', 'é', 'b', 'ź', 'z'];
    let mut items = Vec::new();
    for i in 0..=burstsort::unicode::BURST_LIMIT {
        let letter = letters[(i * 5) % letters.len()];
        items.push(format!("{}{:04}", letter, (i * 7919) % 10_007));
    }
    for item in &items {
        node.insert(item.clone());
    }
    match &node.kind {
        burstsort::unicode::NodeKind::Burst(children) => {
            let found: Vec<char> = children.iter().map(|child| child.0).collect();
            assert_eq!(found, vec!['a', 'b', 'z', 'é', 'ź', 'ż', '日']);
            assert!(children.iter().all(|child| child.1.offset == 1));
        }
        burstsort::unicode::NodeKind::Collapsed(_) => panic!("the node did not burst"),
    }
    node.insert("c".to_string());
    node.insert("b".to_string());
    items.push("c".to_string());
    items.push("b".to_string());
    items.sort();
    let mut out = Vec::new();
    node.merge(&mut out);
    assert_eq!(out, items);
}

#[test]
fn unicode_sort_orders_by_code_point() {
    let mut data = texts(&["éa", "z", "e", "日本", "éb", "", "é", "zz", "\u{10000}", "\u{ffff}"]);
    unicode_sort_unstable(&mut data);
    assert_eq!(
        data,
        texts(&["", "e", "z", "zz", "é", "éa", "éb", "日本", "\u{ffff}", "\u{10000}"])
    );
}

#[test]
fn unicode_sort_bursts_and_sorts_many_strings() {
    let items: Vec<String> =
        numbered(9_000, "é").into_iter().chain(numbered(9_000, "日")).collect();
    let mut expected = items.clone();
    expected.sort();
    let mut data = items;
    unicode_sort_unstable(&mut data);
    assert_eq!(data, expected);
}

#[test]
fn char_at_counts_characters() {
    assert_eq!(char_at("żółw", 0), Some('ż'));
    assert_eq!(char_at("żółw", 3), Some('w'));
    assert_eq!(char_at("żółw", 4), None);
    assert_eq!(char_at("", 0), None);
    assert_eq!(char_at("a日b", 1), Some('日'));
}

#[test]
fn byte_sort_takes_slices_and_byte_vectors() {
    let mut slices = vec!["pear", "apple", "fig", "", "apple"];
    byte_sort(&mut slices);
    assert_eq!(slices, vec!["", "apple", "apple", "fig", "pear"]);

    let mut bytes: Vec<Vec<u8>> = vec![vec![255, 0], vec![0], vec![255], vec![], vec![0, 0]];
    byte_sort_unstable(&mut bytes);
    assert_eq!(bytes, vec![vec![], vec![0], vec![0, 0], vec![255], vec![255, 0]]);
}

#[test]
fn unicode_sort_takes_slices() {
    let mut slices = vec!["żółw", "zebra", "", "日本", "źrebak", "zebra"];
    unicode_sort_unstable(&mut slices);
    assert_eq!(slices, vec!["", "zebra", "zebra", "źrebak", "żółw", "日本"]);
}

#[test]
fn unicode_merge_keeps_equal_texts_in_their_order() {
    // More texts than a list holds, so that the root bursts on the way.
    let letters = ['ż', 'a', '日', 'é'];
    let pool: Vec<String> = (0..3 * burstsort::unicode::BURST_LIMIT)
        .map(|i| format!("{}{:02}", letters[(i * 3) % letters.len()], (i * 7919) % 89))
        .collect();
    let mut node = burstsort::unicode::TrieNode::new(0);
    for s in &pool {
        node.insert(s.as_str());
    }
    assert!(matches!(node.kind, burstsort::unicode::NodeKind::Burst(_)));
    let mut out: Vec<&str> = Vec::new();
    node.merge(&mut out);
    let mut expected: Vec<&str> = pool.iter().map(|s| s.as_str()).collect();
    expected.sort();
    assert_eq!(out, expected);
    let places: Vec<usize> = out.iter().map(|s| place(s)).collect();
    let expected_places: Vec<usize> = expected.iter().map(|s| place(s)).collect();
    assert_eq!(places, expected_places);
}

#[test]
fn burst_sort_keeps_equal_strings_in_their_order() {
    let mut data: Vec<String> = (0..30_000).map(|i| format!("k{:03}", (i * 7919) % 997)).collect();
    let mut expected: Vec<(String, usize)> = data.iter().map(|s| (s.clone(), place(s))).collect();
    expected.sort_by(|a, b| a.0.cmp(&b.0));
    burstsort::string::burst_sort(&mut data);
    let found: Vec<(String, usize)> = data.iter().map(|s| (s.clone(), place(s))).collect();
    assert_eq!(found, expected);
}

#[test]
fn stable_sorts_leave_sorted_input_as_it_is() {
    let mut pool: Vec<String> = (0..20_000).map(|i| format!("k{:03}", (i * 7919) % 997)).collect();
    pool.sort();
    let input: Vec<&str> = pool.iter().map(|s| s.as_str()).collect();
    let places: Vec<usize> = input.iter().map(|s| place(s)).collect();
    let mut data = input.clone();
    byte_sort(&mut data);
    assert_eq!(data.iter().map(|s| place(s)).collect::<Vec<usize>>(), places);
    let mut node = burstsort::unicode::TrieNode::new(0);
    for s in &input {
        node.insert(*s);
    }
    let mut out: Vec<&str> = Vec::new();
    node.merge(&mut out);
    assert_eq!(out.iter().map(|s| place(s)).collect::<Vec<usize>>(), places);
}
