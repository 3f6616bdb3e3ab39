use burstsort::bucket::{bucket_sort, BucketError, BucketErrorKind};

const BUCKETS: usize = 256;

fn first_byte(value: &String) -> usize {
    value.bytes().next().unwrap_or(0) as usize
}

fn bucket_sorts_like_std(data: Vec<String>) -> bool {
    let mut expected = data.clone();
    let mut actual = data;
    expected.sort_unstable();
    bucket_sort(&mut actual, first_byte, BUCKETS).unwrap();
    expected == actual
}

#[test]
fn bucket_sort_matches_the_standard_sort() {
    quickcheck::QuickCheck::new()
        .tests(300)
        .quickcheck(bucket_sorts_like_std as fn(Vec<String>) -> bool);
}

#[test]
fn bucket_sort_by_hand() {
    let mut data = [31u32, 7, 19, 7, 40, 0, 25];
    let result = bucket_sort(&mut data, |x: &u32| (*x / 10) as usize, 5);
    assert!(result.is_ok());
    assert_eq!(data, [0, 7, 7, 19, 25, 31, 40]);
}

#[test]
fn bucket_sort_sorts_whatever_the_key() {
    let mut data = [3u8, 1, 2, 0];
    assert!(bucket_sort(&mut data, |x: &u8| (3 - *x) as usize, 4).is_ok());
    assert_eq!(data, [0, 1, 2, 3]);
    let mut data = [3u8, 1, 2, 0];
    assert!(bucket_sort(&mut data, |_: &u8| 0, 1).is_ok());
    assert_eq!(data, [0, 1, 2, 3]);
}

#[test]
fn bucket_sort_names_the_first_item_out_of_range() {
    let mut data = [31u32, 7, 52, 19, 60];
    let result = bucket_sort(&mut data, |x: &u32| (*x / 10) as usize, 5);
    match result {
        Err(BucketError { kind: BucketErrorKind::OutOfRange(item) }) => assert_eq!(item, 52),
        Ok(()) => panic!("52 has no bucket"),
    }
    assert_eq!(data, [31, 7, 52, 19, 60]);
}

#[test]
fn bucket_sort_without_buckets_fails_on_the_first_item() {
    let mut data = ["b".to_string(), "a".to_string()];
    let error = bucket_sort(&mut data, first_byte, 0).unwrap_err();
    assert!(matches!(error.kind, BucketErrorKind::OutOfRange(ref item) if item == "b"));
    assert_eq!(error.message(), "Bucketing error: b is out of range!\n");
    let mut empty: [String; 0] = [];
    assert!(bucket_sort(&mut empty, first_byte, 0).is_ok());
}

#[test]
fn bucket_error_can_be_printed_for_debugging() {
    let error = BucketError { kind: BucketErrorKind::OutOfRange(7u8) };
    assert_eq!(format!("{:?}", error), "BucketError { kind: OutOfRange(7) }");
}
