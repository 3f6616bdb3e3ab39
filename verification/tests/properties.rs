use burstsort::string::burst_sort;
use burstsort::{
    burstsort, byte_sort, byte_sort_unstable, par_burstsort, unicode_sort_unstable, BurstConfig,
};

fn sample(seed: u64, count: usize, max_len: usize, alphabet: &[u8]) -> Vec<String> {
    let mut state = seed;
    let mut next = move || {
        state = state.wrapping_mul(6364136223846793005).wrapping_add(1442695040888963407);
        (state >> 33) as usize
    };
    let mut out = Vec::with_capacity(count);
    for _ in 0..count {
        let len = next() % (max_len + 1);
        let bytes: Vec<u8> = (0..len).map(|_| alphabet[next() % alphabet.len()]).collect();
        out.push(String::from_utf8(bytes).unwrap());
    }
    out
}

fn sorts_like_std(data: Vec<String>) -> bool {
    let config = BurstConfig { burst_limit: 8, initial_capacity: 4, classes: 256, hint_long: false };
    let mut expected = data.clone();
    let mut actual = data;
    burstsort(&mut actual, &config);
    expected.sort();
    expected == actual
}

fn sorts_long_like_std(data: Vec<String>) -> bool {
    let config = BurstConfig { burst_limit: 8, initial_capacity: 4, classes: 256, hint_long: true };
    let mut expected = data.clone();
    let mut actual = data;
    burstsort(&mut actual, &config);
    expected.sort();
    expected == actual
}

fn burst_sort_like_std(data: Vec<String>) -> bool {
    let mut expected = data.clone();
    let mut actual = data;
    expected.sort_unstable();
    burst_sort(&mut actual);
    expected == actual
}

#[test]
fn check_sort_string() {
    quickcheck::QuickCheck::new().tests(300).quickcheck(sorts_like_std as fn(Vec<String>) -> bool);
}

#[test]
fn check_sort_string_long() {
    quickcheck::QuickCheck::new()
        .tests(300)
        .quickcheck(sorts_long_like_std as fn(Vec<String>) -> bool);
}

#[test]
fn unstable_sort_equivalence() {
    quickcheck::QuickCheck::new()
        .tests(300)
        .quickcheck(burst_sort_like_std as fn(Vec<String>) -> bool);
}

#[test]
fn output_is_a_permutation_of_the_input() {
    let input = sample(1, 5000, 6, b"abc");
    let mut output = input.clone();
    burstsort(&mut output, &BurstConfig { burst_limit: 16, initial_capacity: 2, classes: 256, hint_long: false });
    assert_eq!(output.len(), input.len());
    let mut counted_in = std::collections::BTreeMap::new();
    for s in &input {
        *counted_in.entry(s.clone()).or_insert(0usize) += 1;
    }
    let mut counted_out = std::collections::BTreeMap::new();
    for s in &output {
        *counted_out.entry(s.clone()).or_insert(0usize) += 1;
    }
    assert_eq!(counted_in, counted_out);
}

#[test]
fn adjacent_outputs_are_in_order() {
    let mut data = sample(2, 5000, 12, b"abcdefghij0123456789");
    burstsort(&mut data, &BurstConfig { burst_limit: 32, initial_capacity: 0, classes: 127, hint_long: true });
    for pair in data.windows(2) {
        assert!(pair[0].as_bytes() <= pair[1].as_bytes());
    }
}

#[test]
fn every_sort_agrees_with_the_reference_sort() {
    let input = sample(3, 20_000, 10, b"abcxyzABC019");
    let mut expected = input.clone();
    expected.sort();

    let mut data = input.clone();
    burstsort(&mut data, &BurstConfig::utf8());
    assert_eq!(data, expected);

    let mut data = input.clone();
    par_burstsort(&mut data, &BurstConfig::long_ascii());
    assert_eq!(data, expected);

    let mut data = input.clone();
    byte_sort(&mut data);
    assert_eq!(data, expected);

    let mut data = input.clone();
    byte_sort_unstable(&mut data);
    assert_eq!(data, expected);

    let mut data = input.clone();
    unicode_sort_unstable(&mut data);
    assert_eq!(data, expected);

    let mut data = input.clone();
    burst_sort(&mut data);
    assert_eq!(data, expected);
}

#[test]
fn sorting_twice_changes_nothing() {
    let mut data = sample(4, 3000, 8, b"ab01");
    let config = BurstConfig { burst_limit: 64, initial_capacity: 8, classes: 256, hint_long: false };
    burstsort(&mut data, &config);
    let once = data.clone();
    burstsort(&mut data, &config);
    assert_eq!(data, once);
    byte_sort(&mut data);
    assert_eq!(data, once);
    unicode_sort_unstable(&mut data);
    assert_eq!(data, once);
}

#[test]
fn the_tuning_does_not_change_the_output() {
    let input = sample(5, 4000, 9, b"qrstu");
    let mut expected = input.clone();
    expected.sort();
    for burst_limit in [0usize, 1, 2, 7, 100, 4000, 16384] {
        for initial_capacity in [0usize, 1, 64] {
            for classes in [118usize, 127, 256, 1000] {
                for hint_long in [false, true] {
                    let config = BurstConfig { burst_limit, initial_capacity, classes, hint_long };
                    let mut data = input.clone();
                    burstsort(&mut data, &config);
                    assert_eq!(data, expected);
                }
            }
        }
    }
}

#[test]
fn parallel_and_sequential_merge_agree() {
    for (seed, burst_limit) in [(6u64, 0usize), (7, 3), (8, 50), (9, 100_000)] {
        let input = sample(seed, 6000, 7, b"abcdefg");
        for hint_long in [false, true] {
            let config = BurstConfig { burst_limit, initial_capacity: 4, classes: 256, hint_long };
            let mut sequential = input.clone();
            let mut parallel = input.clone();
            burstsort(&mut sequential, &config);
            par_burstsort(&mut parallel, &config);
            assert_eq!(sequential, parallel);
        }
    }
}

#[test]
fn byte_order_and_code_point_order_agree() {
    let letters = ['a', 'z', 'é', 'ß', 'ż', 'Ω', 'я', '日', '本', '\u{ffff}', '\u{10000}', '😀', '\u{7f}', '\u{80}', '\u{7ff}', '\u{800}'];
    let mut state = 11u64;
    let mut input = Vec::new();
    for _ in 0..20_000 {
        let mut word = String::new();
        state = state.wrapping_mul(6364136223846793005).wrapping_add(1442695040888963407);
        let len = (state >> 33) % 5;
        for _ in 0..len {
            state = state.wrapping_mul(6364136223846793005).wrapping_add(1442695040888963407);
            word.push(letters[((state >> 33) % letters.len() as u64) as usize]);
        }
        input.push(word);
    }
    let mut by_code_points = input.clone();
    by_code_points.sort_by(|l, r| l.chars().cmp(r.chars()));
    let mut by_bytes = input.clone();
    by_bytes.sort_by(|l, r| l.as_bytes().cmp(r.as_bytes()));
    assert_eq!(by_code_points, by_bytes);

    let mut data = input.clone();
    unicode_sort_unstable(&mut data);
    assert_eq!(data, by_code_points);
    let mut data = input.clone();
    burst_sort(&mut data);
    assert_eq!(data, by_code_points);
    let mut data = input;
    byte_sort(&mut data);
    assert_eq!(data, by_bytes);
}
