use maze_raycaster::anim::{CoinAnimation, MenuAnimation, COIN_FRAMES};
use maze_raycaster::trig::{TrigTable, MAX_TURN};

fn degrees() -> TrigTable {
    let scale = 16384.0f64;
    let mut cos = Vec::new();
    let mut sin = Vec::new();
    for k in 0..360 {
        let a = (k as f64).to_radians();
        cos.push((a.cos() * scale).round() as i32);
        sin.push((a.sin() * scale).round() as i32);
    }
    TrigTable { scale: 16384, cos, sin }
}

#[test]
fn a_table_is_valid_when_its_entries_fit_its_scale() {
    assert!(degrees().is_valid());
    assert!(TrigTable { scale: 1, cos: vec![1, 0, -1, 0], sin: vec![0, 1, 0, -1] }.is_valid());
    assert!(!TrigTable { scale: 0, cos: vec![0], sin: vec![0] }.is_valid());
    assert!(!TrigTable { scale: 1, cos: vec![], sin: vec![] }.is_valid());
    assert!(!TrigTable { scale: 1, cos: vec![1, 0], sin: vec![0] }.is_valid());
    assert!(!TrigTable { scale: 1, cos: vec![2], sin: vec![0] }.is_valid());
    assert!(!TrigTable { scale: 1, cos: vec![0], sin: vec![-2] }.is_valid());
    assert!(TrigTable { scale: u32::MAX, cos: vec![i32::MIN], sin: vec![i32::MAX] }.is_valid());
    assert_eq!(MAX_TURN, 1 << 30);
}

#[test]
fn angles_repeat_after_a_full_turn() {
    let t = degrees();
    assert_eq!(t.steps(), 360);
    assert_eq!(t.step(0), 0);
    assert_eq!(t.step(359), 359);
    assert_eq!(t.step(360), 0);
    assert_eq!(t.step(725), 5);
    assert_eq!(t.step(-1), 359);
    assert_eq!(t.step(-360), 0);
    assert_eq!(t.step(-361), 359);
    assert_eq!(t.cos_of(0), 16384);
    assert_eq!(t.sin_of(0), 0);
    assert_eq!(t.cos_of(90), 0);
    assert_eq!(t.sin_of(90), 16384);
    assert_eq!(t.cos_of(-180), -16384);
    assert_eq!(t.sin_of(270 + 720), -16384);
    assert_eq!(t.cos_of(60), 8192);
    assert_eq!(t.step(i64::MIN), 352);
    assert_eq!(t.step(i64::MAX), 7);
}

#[test]
fn the_bearing_is_the_best_aligned_step() {
    let t = degrees();
    assert_eq!(t.bearing(1, 0), 0);
    assert_eq!(t.bearing(0, 1), 90);
    assert_eq!(t.bearing(-1, 0), 180);
    assert_eq!(t.bearing(0, -1), 270);
    assert_eq!(t.bearing(100, 100), 45);
    assert_eq!(t.bearing(-300, 300), 135);
    assert_eq!(t.bearing(1000, -1), 0);
    // Without a direction every step is as good as the first.
    assert_eq!(t.bearing(0, 0), 0);
    let four = TrigTable { scale: 1, cos: vec![1, 0, -1, 0], sin: vec![0, 1, 0, -1] };
    // Between two steps the earlier one wins.
    assert_eq!(four.bearing(1, 1), 0);
    assert_eq!(four.bearing(-1, -1), 2);
    assert_eq!(four.bearing(i64::MIN, 0), 2);
    assert_eq!(four.bearing(0, i64::MAX), 1);
}

#[test]
fn the_frame_follows_the_phase() {
    assert_eq!(COIN_FRAMES, 12);
    assert_eq!(CoinAnimation::get_current_frame(0, 120), 0);
    assert_eq!(CoinAnimation::get_current_frame(9, 120), 0);
    assert_eq!(CoinAnimation::get_current_frame(10, 120), 1);
    assert_eq!(CoinAnimation::get_current_frame(35, 120), 3);
    assert_eq!(CoinAnimation::get_current_frame(119, 120), 11);
    assert_eq!(CoinAnimation::get_current_frame(120, 120), 0);
    assert_eq!(CoinAnimation::get_current_frame(u32::MAX, 1), 0);
    assert_eq!(CoinAnimation::get_current_frame(5, 7), 8);
    assert_eq!(CoinAnimation::get_frame_offset(35, 64, 120), 192);
    assert_eq!(CoinAnimation::get_frame_offset(119, u32::MAX, 120), 11 * 4294967295);
    assert_eq!(CoinAnimation::get_frame_offset(0, 64, 120), 0);
}

#[test]
fn the_phase_starts_over_past_the_cycle() {
    assert_eq!(CoinAnimation::update_time(100, 20, 120), 120);
    assert_eq!(CoinAnimation::update_time(100, 30, 120), 10);
    assert_eq!(CoinAnimation::update_time(0, 0, 120), 0);
    assert_eq!(CoinAnimation::update_time(500, 0, 120), 20);
    assert_eq!(CoinAnimation::update_time(u32::MAX, u32::MAX, u32::MAX), 0);
    assert_eq!(CoinAnimation::update_time(u32::MAX, u32::MAX, 7), 6);
}

#[test]
fn a_collectible_floats_up_and_down() {
    let t = degrees();
    assert_eq!(CoinAnimation::get_float_offset(0, &t), 0);
    // Four fifths of 113 steps are 90: the top of the swing.
    assert_eq!(CoinAnimation::get_float_offset(113, &t), 8);
    assert_eq!(CoinAnimation::get_float_offset(338, &t), -8);
    // At 30 degrees the swing is half way, at 210 half way down.
    assert_eq!(CoinAnimation::get_float_offset(38, &t), 4);
    assert_eq!(CoinAnimation::get_float_offset(263, &t), -4);
    assert_eq!(CoinAnimation::get_float_offset(225, &t), 0);
}

#[test]
fn the_menu_clock_pulses_and_bobs() {
    let t = degrees();
    let mut m = MenuAnimation::new();
    assert_eq!(m.t, 0);
    assert_eq!(m.scale(&t), 1000);
    assert_eq!(m.bob(&t), 0);
    m.update(60, 360);
    assert_eq!(m.t, 60);
    assert_eq!(m.scale(&t), 1030);
    m.update(69, 360);
    assert_eq!(m.t, 129);
    assert_eq!(m.bob(&t), 6);
    m.update(51, 360);
    assert_eq!(m.t, 180);
    assert_eq!(m.scale(&t), 970);
    let mut late = MenuAnimation { t: 36000 };
    late.update(0, 360);
    assert_eq!(late.t, 36000);
    late.update(5, 360);
    assert_eq!(late.t, 5);
    let far = MenuAnimation { t: u64::MAX };
    assert_eq!(far.scale(&t), 1011);
}
