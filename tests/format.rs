use criterion::format::iter_count;

#[test]
fn small_counts_are_exact() {
    assert_eq!(iter_count(0), "0 iterations");
    assert_eq!(iter_count(1), "1 iterations");
    assert_eq!(iter_count(9_999), "9999 iterations");
}

#[test]
fn thousands_are_rounded_to_whole_numbers() {
    assert_eq!(iter_count(10_000), "10k iterations");
    assert_eq!(iter_count(12_345), "12k iterations");
    assert_eq!(iter_count(12_501), "13k iterations");
    assert_eq!(iter_count(999_999), "1000k iterations");
}

#[test]
fn thousands_ties_go_to_even() {
    assert_eq!(iter_count(25_500), "26k iterations");
    assert_eq!(iter_count(24_500), "24k iterations");
}

#[test]
fn low_millions_keep_one_decimal() {
    assert_eq!(iter_count(1_000_000), "1.0M iterations");
    assert_eq!(iter_count(1_234_567), "1.2M iterations");
    assert_eq!(iter_count(1_250_000), "1.2M iterations");
    assert_eq!(iter_count(1_750_000), "1.8M iterations");
    assert_eq!(iter_count(9_999_999), "10.0M iterations");
}

#[test]
fn high_millions_are_whole() {
    assert_eq!(iter_count(10_000_000), "10M iterations");
    assert_eq!(iter_count(123_456_789), "123M iterations");
    assert_eq!(iter_count(999_999_999), "1000M iterations");
}

#[test]
fn low_billions_keep_one_decimal() {
    assert_eq!(iter_count(1_000_000_000), "1.0B iterations");
    assert_eq!(iter_count(2_345_678_901), "2.3B iterations");
    assert_eq!(iter_count(2_250_000_000), "2.2B iterations");
}

#[test]
fn large_counts_are_whole_billions() {
    assert_eq!(iter_count(10_000_000_000), "10B iterations");
    assert_eq!(iter_count(u64::MAX), "18446744074B iterations");
}

#[test]
fn one_decimal_halves_follow_the_stored_binary_quotient() {
    assert_eq!(iter_count(1_050_000), "1.1M iterations");
    assert_eq!(iter_count(1_150_000), "1.1M iterations");
    assert_eq!(iter_count(1_050_000_000), "1.1B iterations");
    assert_eq!(iter_count(1_150_000_000), "1.1B iterations");
}

#[test]
fn counts_beyond_double_precision_are_rounded_before_dividing() {
    assert_eq!(
        iter_count(1_152_921_504_500_000_001),
        "1152921504B iterations"
    );
    assert_eq!(
        iter_count(18_446_744_072_500_000_001),
        "18446744072B iterations"
    );
}
