use image_kmeans::color::{calc_squared_dist, quantize, Color};

#[test]
fn distance_is_symmetric() {
    let a = Color::new(10, 200, 30);
    let b = Color::new(99, 1, 255);
    assert_eq!(calc_squared_dist(&a, &b), calc_squared_dist(&b, &a));
}

#[test]
fn distance_to_self_is_zero() {
    let a = Color::new(77, 0, 255);
    assert_eq!(calc_squared_dist(&a, &a), 0);
}

#[test]
fn distance_exact_value() {
    let a = Color::new(0, 0, 0);
    let b = Color::new(1, 2, 3);
    assert_eq!(calc_squared_dist(&a, &b), 1 + 4 + 9);
    let c = Color::new(255, 255, 255);
    assert_eq!(calc_squared_dist(&a, &c), 3 * 255 * 255);
}

#[test]
fn quantize_exact_values() {
    let c = Color::new(123, 45, 200);
    let q = quantize(&c, 32);
    assert_eq!(q, Color::new(96, 32, 192));
}

#[test]
fn quantize_is_idempotent() {
    let c = Color::new(123, 45, 200);
    let q = quantize(&c, 32);
    assert_eq!(quantize(&q, 32), q);
    let q7 = quantize(&c, 7);
    assert_eq!(quantize(&q7, 7), q7);
}

#[test]
fn quantize_factor_one_changes_nothing() {
    let c = Color::new(123, 45, 200);
    assert_eq!(quantize(&c, 1), c);
}

#[test]
fn quantize_nonpositive_factor_is_treated_as_one() {
    let c = Color::new(123, 45, 200);
    assert_eq!(quantize(&c, 0), c);
    assert_eq!(quantize(&c, -5), c);
}
