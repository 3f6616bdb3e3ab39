use burstsort::insertion::insertion_sort;

fn sorts_integers_like_std(data: Vec<i64>) -> bool {
    let mut expected = data.clone();
    let mut actual = data;
    expected.sort_unstable();
    insertion_sort(&mut actual);
    expected == actual
}

#[test]
fn insertion_sort_matches_the_standard_sort() {
    quickcheck::QuickCheck::new()
        .tests(300)
        .quickcheck(sorts_integers_like_std as fn(Vec<i64>) -> bool);
}

#[test]
fn insertion_sort_by_hand() {
    let mut data = [5i64, -3, 9, 0, -3, 7, i64::MIN, i64::MAX];
    insertion_sort(&mut data);
    assert_eq!(data, [i64::MIN, -3, -3, 0, 5, 7, 9, i64::MAX]);
}

#[test]
fn insertion_sort_of_nothing_and_of_one() {
    let mut none: [u8; 0] = [];
    insertion_sort(&mut none);
    assert_eq!(none, []);
    let mut one = ["only".to_string()];
    insertion_sort(&mut one);
    assert_eq!(one, ["only".to_string()]);
}

#[test]
fn insertion_sort_of_strings() {
    let mut data = vec!["pear".to_string(), "apple".to_string(), "fig".to_string()];
    insertion_sort(&mut data);
    assert_eq!(data, vec!["apple".to_string(), "fig".to_string(), "pear".to_string()]);
}

#[test]
fn insertion_sort_sorts_a_part_of_a_vector() {
    let mut data = vec![9, 8, 7, 6, 5];
    insertion_sort(&mut data[1..4]);
    assert_eq!(data, vec![9, 6, 7, 8, 5]);
}

#[derive(Debug, Clone, Copy, PartialEq)]
struct Tagged {
    rank: u8,
    tag: u32,
}

impl PartialOrd for Tagged {
    fn partial_cmp(&self, other: &Self) -> Option<std::cmp::Ordering> {
        self.rank.partial_cmp(&other.rank)
    }
}

#[test]
fn insertion_sort_keeps_equal_items_in_their_order() {
    let mut data: Vec<Tagged> =
        (0..500u32).map(|tag| Tagged { rank: ((tag * 7919) % 5) as u8, tag }).collect();
    let mut expected = data.clone();
    expected.sort_by_key(|item| item.rank);
    insertion_sort(&mut data);
    assert_eq!(data, expected);
}
