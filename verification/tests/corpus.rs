use burstsort::corpus::{alphanumeric_words, get_random_str, keep_alphanumeric, words};
use burstsort::{alphanumeric_sort, burstsort, BurstConfig};

fn owned(items: &[&str]) -> Vec<String> {
    items.iter().map(|w| w.to_string()).collect()
}

#[test]
fn a_text_is_split_into_its_words() {
    assert_eq!(
        words("The quick (\"brown\") fox can't jump 32.3 feet, right?"),
        owned(&["The", "quick", "brown", "fox", "can't", "jump", "32.3", "feet", "right"])
    );
    assert_eq!(words(""), Vec::<String>::new());
    assert_eq!(words("  ...  "), Vec::<String>::new());
    assert_eq!(words("żółw i zebra"), owned(&["żółw", "i", "zebra"]));
}

#[test]
fn only_strings_of_digits_and_letters_are_kept() {
    assert_eq!(
        keep_alphanumeric(owned(&["The", "can't", "32.3", "feet", "", "żółw", "R2D2", "a b"])),
        owned(&["The", "feet", "", "R2D2"])
    );
    assert_eq!(keep_alphanumeric(Vec::new()), Vec::<String>::new());
    assert_eq!(keep_alphanumeric(owned(&["-", "!"])), Vec::<String>::new());
}

#[test]
fn alphanumeric_words_of_a_text() {
    assert_eq!(
        alphanumeric_words("The quick (\"brown\") fox can't jump 32.3 feet, right?"),
        owned(&["The", "quick", "brown", "fox", "jump", "feet", "right"])
    );
}

#[test]
fn the_words_of_a_text_can_be_sorted() {
    let mut data = words("zebra żółw apple Zebra 42 apple");
    burstsort(&mut data, &BurstConfig::utf8());
    assert_eq!(data, owned(&["42", "Zebra", "apple", "apple", "zebra", "żółw"]));
    let mut data = alphanumeric_words("zebra żółw apple Zebra 42 apple");
    assert_eq!(alphanumeric_sort(&mut data), Ok(()));
    assert_eq!(data, owned(&["42", "Zebra", "apple", "apple", "zebra"]));
}

#[test]
fn random_strings_have_the_lengths_asked_for() {
    let strings = get_random_str(2000, 1, 16);
    assert_eq!(strings.len(), 2000);
    assert!(strings.iter().all(|s| 1 <= s.len() && s.len() <= 16));
    assert!(strings.iter().all(|s| s.bytes().all(|b| b.is_ascii_alphanumeric())));
    assert!(strings.iter().any(|s| s.len() > 1));
    let distinct: std::collections::BTreeSet<&String> = strings.iter().collect();
    assert!(distinct.len() > 1000);

    let fixed = get_random_str(50, 7, 7);
    assert!(fixed.iter().all(|s| s.len() == 7));
    let empty = get_random_str(5, 0, 0);
    assert_eq!(empty, owned(&["", "", "", "", ""]));
    assert!(get_random_str(0, 3, 9).is_empty());
}

#[test]
fn random_strings_can_be_sorted_by_every_trie() {
    let strings = get_random_str(30_000, 0, 12);
    let mut expected = strings.clone();
    expected.sort();
    let mut data = strings.clone();
    assert_eq!(alphanumeric_sort(&mut data), Ok(()));
    assert_eq!(data, expected);
    let mut data = strings;
    burstsort(&mut data, &BurstConfig::ascii());
    assert_eq!(data, expected);
}
