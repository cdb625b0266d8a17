use raytracer::surface::{
    bits_of_key, key_of_bits, nearest_root, Window, FARTHEST_BITS, SIGN_BIT, SKIN_DEPTH_BITS,
};

const WINDOW: Window = Window { min: 10, max: 100 };

#[test]
fn window_includes_both_ends() {
    assert!(WINDOW.contains(10));
    assert!(WINDOW.contains(55));
    assert!(WINDOW.contains(100));
    assert!(!WINDOW.contains(9));
    assert!(!WINDOW.contains(101));
    assert!(!WINDOW.contains(0));
    assert!(!WINDOW.contains(u64::MAX));
}

#[test]
fn window_of_one_place() {
    let window = Window { min: 7, max: 7 };
    assert!(window.contains(7));
    assert!(!window.contains(6));
    assert!(!window.contains(8));
}

#[test]
fn window_with_ends_crossed_is_empty() {
    let window = Window { min: 8, max: 7 };
    assert!(!window.contains(7));
    assert!(!window.contains(8));
    assert_eq!(nearest_root(7, 8, &window), None);
}

#[test]
fn smaller_root_is_taken_when_both_are_within() {
    assert_eq!(nearest_root(20, 50, &WINDOW), Some(20));
    assert_eq!(nearest_root(50, 20, &WINDOW), Some(20));
    assert_eq!(nearest_root(10, 100, &WINDOW), Some(10));
}

#[test]
fn larger_root_is_taken_when_the_smaller_is_outside() {
    assert_eq!(nearest_root(3, 50, &WINDOW), Some(50));
    assert_eq!(nearest_root(50, 3, &WINDOW), Some(50));
    assert_eq!(nearest_root(9, 10, &WINDOW), Some(10));
}

#[test]
fn smaller_root_is_taken_when_the_larger_is_outside() {
    assert_eq!(nearest_root(50, 500, &WINDOW), Some(50));
    assert_eq!(nearest_root(500, 50, &WINDOW), Some(50));
}

#[test]
fn no_root_within_is_no_hit() {
    assert_eq!(nearest_root(1, 2, &WINDOW), None);
    assert_eq!(nearest_root(200, 300, &WINDOW), None);
    assert_eq!(nearest_root(1, 300, &WINDOW), None);
}

#[test]
fn a_double_root_is_one_hit() {
    assert_eq!(nearest_root(42, 42, &WINDOW), Some(42));
    assert_eq!(nearest_root(5, 5, &WINDOW), None);
}

#[test]
fn keys_of_patterns_without_the_sign_bit_come_last() {
    assert_eq!(key_of_bits(0), SIGN_BIT);
    assert_eq!(key_of_bits(1), SIGN_BIT + 1);
    assert_eq!(key_of_bits(SIGN_BIT - 1), u64::MAX);
}

#[test]
fn keys_of_patterns_with_the_sign_bit_are_turned_over() {
    assert_eq!(key_of_bits(SIGN_BIT), SIGN_BIT - 1);
    assert_eq!(key_of_bits(SIGN_BIT + 1), SIGN_BIT - 2);
    assert_eq!(key_of_bits(u64::MAX), 0);
}

#[test]
fn keys_grow_along_the_number_line() {
    // -3, -2, -1, -0, 0, 1, 2, 3 as sign over magnitude
    let line = [SIGN_BIT + 3, SIGN_BIT + 2, SIGN_BIT + 1, SIGN_BIT, 0, 1, 2, 3];
    for pair in line.windows(2) {
        assert!(key_of_bits(pair[0]) < key_of_bits(pair[1]));
    }
}

#[test]
fn every_key_leads_back_to_its_pattern() {
    for bits in [0, 1, 77, SIGN_BIT - 1, SIGN_BIT, SIGN_BIT + 1, u64::MAX - 1, u64::MAX] {
        assert_eq!(bits_of_key(key_of_bits(bits)), bits);
        assert_eq!(key_of_bits(bits_of_key(bits)), bits);
    }
}

#[test]
fn skin_depth_is_one_thousandth() {
    assert_eq!(f64::from_bits(SKIN_DEPTH_BITS), 0.001);
    assert_eq!(SKIN_DEPTH_BITS, 0.001f64.to_bits());
}

#[test]
fn farthest_is_the_largest_finite_number() {
    assert_eq!(f64::from_bits(FARTHEST_BITS), f64::MAX);
}

#[test]
fn the_window_ahead_runs_from_the_skin_depth_to_the_farthest() {
    let ahead = Window::ahead();
    assert_eq!(ahead.min, key_of_bits(0.001f64.to_bits()));
    assert_eq!(ahead.max, key_of_bits(f64::MAX.to_bits()));
    let key = |x: f64| key_of_bits(x.to_bits());
    assert!(ahead.contains(key(0.001)));
    assert!(ahead.contains(key(1.0)));
    assert!(ahead.contains(key(f64::MAX)));
    assert!(!ahead.contains(key(0.000999)));
    assert!(!ahead.contains(key(0.0)));
    assert!(!ahead.contains(key(-0.0)));
    assert!(!ahead.contains(key(-1.0)));
    assert!(!ahead.contains(key(f64::INFINITY)));
    assert!(!ahead.contains(key(f64::NEG_INFINITY)));
    assert!(!ahead.contains(key(f64::NAN)));
}
