use austro::models::difficulty::{
    calculate_next_difficulty, is_retarget_block, MIN_DIFFICULTY, RETARGET_INTERVAL,
    TARGET_TIMESPAN,
};

#[test]
fn test_no_change_when_on_target() {
    assert_eq!(calculate_next_difficulty(8, TARGET_TIMESPAN), 8);
}

#[test]
fn test_increase_when_too_fast() {
    assert_eq!(calculate_next_difficulty(8, TARGET_TIMESPAN / 4), 32);
}

#[test]
fn test_decrease_when_too_slow() {
    assert_eq!(calculate_next_difficulty(32, TARGET_TIMESPAN * 4), 8);
}

#[test]
fn test_clamp_prevents_extreme_drop() {
    assert_eq!(calculate_next_difficulty(32, TARGET_TIMESPAN * 100), 8);
}

#[test]
fn test_clamp_prevents_extreme_rise() {
    assert_eq!(calculate_next_difficulty(8, TARGET_TIMESPAN / 100), 32);
}

#[test]
fn test_minimum_difficulty_floor() {
    assert_eq!(calculate_next_difficulty(MIN_DIFFICULTY, TARGET_TIMESPAN * 100), MIN_DIFFICULTY);
}

#[test]
fn no_change_on_target() {
    assert_eq!(calculate_next_difficulty(4, TARGET_TIMESPAN), 4);
}

#[test]
fn increases_when_blocks_too_fast() {
    assert_eq!(calculate_next_difficulty(4, TARGET_TIMESPAN / 4), 16);
}

#[test]
fn decreases_when_blocks_too_slow() {
    assert_eq!(calculate_next_difficulty(16, TARGET_TIMESPAN * 4), 4);
}

#[test]
fn clamped_max_increase_is_4x() {
    assert_eq!(calculate_next_difficulty(4, TARGET_TIMESPAN / 100), 16);
}

#[test]
fn clamped_max_decrease_is_4x() {
    assert_eq!(calculate_next_difficulty(16, TARGET_TIMESPAN * 100), 4);
}

#[test]
fn never_drops_below_minimum() {
    assert_eq!(calculate_next_difficulty(1, TARGET_TIMESPAN * 100), 1);
}

#[test]
fn retarget_fires_on_correct_heights() {
    assert!(!is_retarget_block(0));
    assert!(!is_retarget_block(1));
    assert!(!is_retarget_block(RETARGET_INTERVAL - 1));
    assert!(is_retarget_block(RETARGET_INTERVAL));
    assert!(!is_retarget_block(RETARGET_INTERVAL + 1));
    assert!(is_retarget_block(RETARGET_INTERVAL * 2));
}

#[test]
fn rounding_is_half_up() {
    // 3 * 1.5 = 4.5 rounds to 5; 3 / 1.2 = 2.5 rounds to 3.
    assert_eq!(calculate_next_difficulty(3, TARGET_TIMESPAN * 2 / 3), 5);
    assert_eq!(calculate_next_difficulty(3, TARGET_TIMESPAN * 6 / 5), 3);
}

#[test]
fn never_exceeds_maximum() {
    assert_eq!(calculate_next_difficulty(60, TARGET_TIMESPAN / 4), 64);
}

#[test]
fn faster_window_never_lowers_difficulty() {
    let slow = calculate_next_difficulty(10, TARGET_TIMESPAN * 2);
    let fast = calculate_next_difficulty(10, TARGET_TIMESPAN / 2);
    assert!(fast >= slow);
    assert_eq!(slow, 5);
    assert_eq!(fast, 20);
}
