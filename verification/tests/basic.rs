use gworld::math::{rectified, sigmoid, tanh, SCALE};

#[test]
fn it_works() {
    let result = 2 + 2;
    assert_eq!(result, 4);
}

#[test]
fn tanh_at_zero_is_zero() {
    assert_eq!(tanh(0), 0);
}

#[test]
fn tanh_at_one_unit() {
    // 1.0 maps to (27 + 1) / (27 + 9) = 28/36 of a unit, truncated.
    assert_eq!(tanh(SCALE), 777_777);
    assert_eq!(tanh(-SCALE), -777_777);
}

#[test]
fn tanh_saturates_at_the_clip() {
    // At three units the rational map reaches exactly one unit.
    assert_eq!(tanh(3 * SCALE), SCALE);
    assert_eq!(tanh(10 * SCALE), SCALE);
    assert_eq!(tanh(i64::MAX), SCALE);
    assert_eq!(tanh(i64::MIN), -SCALE);
}

#[test]
fn tanh_stays_in_the_unit_band() {
    let mut x: i64 = -5 * SCALE;
    while x <= 5 * SCALE {
        let y = tanh(x);
        assert!(-SCALE <= y && y <= SCALE);
        x += 123_457;
    }
}

#[test]
fn sigmoid_at_zero_is_half() {
    assert_eq!(sigmoid(0), SCALE / 2);
}

#[test]
fn sigmoid_range() {
    assert_eq!(sigmoid(100 * SCALE), SCALE);
    assert_eq!(sigmoid(-100 * SCALE), 0);
}

#[test]
fn rectified_clips_negatives() {
    assert_eq!(rectified(-3), 0);
    assert_eq!(rectified(0), 0);
    assert_eq!(rectified(7), 7);
}

#[test]
fn decimal_rendering_is_exact() {
    assert_eq!(gworld::text::u64_digits(0), "0");
    assert_eq!(gworld::text::u64_digits(7), "7");
    assert_eq!(gworld::text::u64_digits(9_041_320), "9041320");
    assert_eq!(gworld::text::fixed2_u64(0), "0.00");
    assert_eq!(gworld::text::fixed2_u64(1_000), "0.00");
    assert_eq!(gworld::text::fixed2_u64(6_000_000), "6.00");
    assert_eq!(gworld::text::fixed2_u64(12_345_678), "12.34");
    assert_eq!(gworld::text::fixed2_i64(-2_500_000), "-2.50");
    assert_eq!(gworld::text::fixed2_i64(990_000), "0.99");
}
