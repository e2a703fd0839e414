use min_heap::median::{accumulate, reduce, RunningMedian, MODULUS};

fn lower_median(values: &[i32]) -> i32 {
    let mut sorted = values.to_vec();
    sorted.sort();
    sorted[(sorted.len() - 1) / 2]
}

#[test]
fn median_of_nothing() {
    let medians = RunningMedian::new();
    assert_eq!(medians.median(), None);
    assert_eq!(medians.sizes(), (0, 0));
}

#[test]
fn first_value_joins_the_upper_half() {
    let mut medians = RunningMedian::new();
    let report = medians.insert(5);
    assert_eq!((report.lower_len, report.upper_len), (0, 1));
    assert_eq!(report.median, 5);
    assert_eq!(medians.sizes(), (0, 1));
    assert_eq!(medians.median(), Some(5));
}

#[test]
fn medians_and_sizes_of_a_stream() {
    let mut medians = RunningMedian::new();
    let expected = [(0, 1, 5), (1, 1, 3), (1, 2, 5), (2, 2, 3), (2, 3, 5)];
    for (num, (lower_len, upper_len, median)) in [5, 3, 8, 1, 9].into_iter().zip(expected) {
        let report = medians.insert(num);
        assert_eq!(report.lower_len, lower_len);
        assert_eq!(report.upper_len, upper_len);
        assert_eq!(report.median, median);
        assert_eq!(medians.median(), Some(median));
    }
}

#[test]
fn upper_half_hands_its_root_down() {
    let mut medians = RunningMedian::new();
    let expected = [(0, 1, 1), (0, 2, 1), (1, 2, 2), (1, 3, 2)];
    let sizes_after = [(0, 1), (1, 1), (1, 2), (2, 2)];
    for (step, num) in [1, 2, 3, 4].into_iter().enumerate() {
        let report = medians.insert(num);
        assert_eq!((report.lower_len, report.upper_len, report.median), expected[step]);
        assert_eq!(medians.sizes(), sizes_after[step]);
    }
}

#[test]
fn lower_half_hands_its_root_up() {
    let mut medians = RunningMedian::new();
    let expected = [(0, 1, 4), (1, 1, 3), (2, 1, 3), (3, 1, 2)];
    let sizes_after = [(0, 1), (1, 1), (2, 1), (2, 2)];
    for (step, num) in [4, 3, 2, 1].into_iter().enumerate() {
        let report = medians.insert(num);
        assert_eq!((report.lower_len, report.upper_len, report.median), expected[step]);
        assert_eq!(medians.sizes(), sizes_after[step]);
    }
}

#[test]
fn equal_value_joins_the_lower_half() {
    let mut medians = RunningMedian::new();
    medians.insert(7);
    let second = medians.insert(7);
    assert_eq!((second.lower_len, second.upper_len), (0, 2));
    assert_eq!(medians.sizes(), (1, 1));
    let third = medians.insert(7);
    assert_eq!((third.lower_len, third.upper_len), (2, 1));
    assert_eq!(third.median, 7);
}

#[test]
fn median_is_the_middle_of_the_sorted_values() {
    let mut medians = RunningMedian::new();
    let mut seen = Vec::new();
    let mut seed: u32 = 2024;
    for _ in 0..300 {
        seed = seed.wrapping_mul(1103515245).wrapping_add(12345);
        let num = (seed >> 8) as i32 % 1000 - 500;
        seen.push(num);
        let report = medians.insert(num);
        assert_eq!(report.median, lower_median(&seen));
        assert_eq!(medians.median(), Some(report.median));
        let (lower_len, upper_len) = medians.sizes();
        assert_eq!(lower_len + upper_len, seen.len());
        assert!(lower_len <= upper_len + 1 && upper_len <= lower_len + 1);
    }
}

#[test]
fn sum_of_medians_of_a_stream() {
    let mut medians = RunningMedian::new();
    let mut sum = 0;
    for num in [5, 3, 8, 1, 9] {
        sum = accumulate(sum, medians.insert(num).median).unwrap();
    }
    assert_eq!(sum, 21);
    assert_eq!(reduce(sum), 21);
}

#[test]
fn accumulate_adds_or_gives_up() {
    assert_eq!(accumulate(2, 3), Some(5));
    assert_eq!(accumulate(-2, -3), Some(-5));
    assert_eq!(accumulate(i32::MAX, 0), Some(i32::MAX));
    assert_eq!(accumulate(i32::MAX, 1), None);
    assert_eq!(accumulate(i32::MIN, -1), None);
    assert_eq!(accumulate(i32::MIN, i32::MAX), Some(-1));
}

#[test]
fn reduce_keeps_the_sign_of_the_sum() {
    assert_eq!(MODULUS, 10000);
    assert_eq!(reduce(0), 0);
    assert_eq!(reduce(9999), 9999);
    assert_eq!(reduce(10000), 0);
    assert_eq!(reduce(12345), 2345);
    assert_eq!(reduce(-12345), -2345);
    assert_eq!(reduce(-10000), 0);
    assert_eq!(reduce(i32::MAX), 3647);
    assert_eq!(reduce(i32::MIN), -3648);
}
