use maze_raycaster::geometry::{
    div_floor, div_trunc, fit_inside, magnitude_of, sqrt_floor_wide, Vector2,
};

#[test]
fn square_roots_round_down() {
    assert_eq!(sqrt_floor_wide(0), 0);
    assert_eq!(sqrt_floor_wide(1), 1);
    assert_eq!(sqrt_floor_wide(15), 3);
    assert_eq!(sqrt_floor_wide(16), 4);
    assert_eq!(sqrt_floor_wide(17), 4);
    assert_eq!(sqrt_floor_wide(u64::MAX as u128), 4294967295);
    assert_eq!(sqrt_floor_wide(45000), 212);
    assert_eq!(sqrt_floor_wide(1u128 << 80), 1u64 << 40);
    assert_eq!(sqrt_floor_wide((1u128 << 80) - 1), (1u64 << 40) - 1);
    assert_eq!(sqrt_floor_wide((1u128 << 96) - 1), (1u64 << 48) - 1);
}

#[test]
fn floor_division_keeps_the_remainder_positive() {
    assert_eq!(div_floor(250, 100), (2, 50));
    assert_eq!(div_floor(-1, 100), (-1, 99));
    assert_eq!(div_floor(-100, 100), (-1, 0));
    assert_eq!(div_floor(-101, 100), (-2, 99));
    assert_eq!(div_floor(0, 7), (0, 0));
    assert_eq!(div_floor(i64::MIN, 1), (i64::MIN, 0));
    assert_eq!(div_floor(i64::MIN, u64::MAX), (-1, 9223372036854775807));
    assert_eq!(div_floor(i64::MAX, u64::MAX), (0, 9223372036854775807));
}

#[test]
fn truncating_division_rounds_toward_zero() {
    assert_eq!(div_trunc(7, 2), 3);
    assert_eq!(div_trunc(-7, 2), -3);
    assert_eq!(div_trunc(-1, 2), 0);
    assert_eq!(div_trunc(0, 2), 0);
    assert_eq!(div_trunc(i64::MIN, 1), i64::MIN);
    assert_eq!(div_trunc(i64::MIN, 2), -4611686018427387904);
}

#[test]
fn magnitudes_drop_the_sign() {
    assert_eq!(magnitude_of(5), 5);
    assert_eq!(magnitude_of(-5), 5);
    assert_eq!(magnitude_of(0), 0);
    assert_eq!(magnitude_of(i32::MIN), 2147483648);
    assert_eq!(Vector2::new(3, -4), Vector2 { x: 3, y: -4 });
}

#[test]
fn pictures_fit_without_changing_proportions() {
    assert_eq!(fit_inside(1300, 900, 650, 450), (1300, 900));
    assert_eq!(fit_inside(1000, 900, 650, 450), (1000, 692));
    assert_eq!(fit_inside(1300, 300, 650, 450), (433, 300));
    assert_eq!(fit_inside(100, 100, 0, 50), (0, 0));
    assert_eq!(fit_inside(100, 100, 50, 0), (0, 0));
    assert_eq!(fit_inside(0, 100, 50, 50), (0, 0));
    assert_eq!(fit_inside(100, 100, 1, 1), (100, 100));
    assert_eq!(fit_inside(u32::MAX, u32::MAX, u32::MAX, 1), (u32::MAX, 1));
}
