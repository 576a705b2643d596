use rust_ray::util::clamp;

#[test]
fn clamp_below_range_gives_lower() {
    assert_eq!(clamp(-3i64, 0, 10), 0);
    assert_eq!(clamp(-0.5f64, 0.0, 1.0), 0.0);
}

#[test]
fn clamp_above_range_gives_upper() {
    assert_eq!(clamp(42u8, 0, 10), 10);
    assert_eq!(clamp(1.7f64, 0.0, 1.0), 1.0);
}

#[test]
fn clamp_inside_range_gives_value() {
    assert_eq!(clamp(5i32, 0, 10), 5);
    assert_eq!(clamp(0.25f64, 0.0, 1.0), 0.25);
}

#[test]
fn clamp_at_bounds_gives_value() {
    assert_eq!(clamp(0i32, 0, 10), 0);
    assert_eq!(clamp(10i32, 0, 10), 10);
    assert_eq!(clamp(1.0f64, 0.0, 1.0), 1.0);
}
