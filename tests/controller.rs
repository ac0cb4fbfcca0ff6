use audilator::controller::{ConfigError, VolumeController};

const QUIET: u64 = 100_000;
const LOUD: u64 = 700_000;

fn controller() -> VolumeController {
    VolumeController::new(QUIET, LOUD, 0).unwrap()
}

#[test]
fn thresholds_must_be_ordered() {
    assert!(matches!(
        VolumeController::new(LOUD, QUIET, 0),
        Err(ConfigError::ThresholdsNotOrdered)
    ));
    assert!(matches!(
        VolumeController::new(QUIET, QUIET, 0),
        Err(ConfigError::ThresholdsNotOrdered)
    ));
    let c = controller();
    assert_eq!(c.current_level(), 500_000);
    assert_eq!(c.target_level(), 500_000);
    assert_eq!(c.last_adjustment_ms(), 0);
}

#[test]
fn loud_sequence_steps_down() {
    let mut c = controller();
    assert_eq!(c.update(900_000, 1000), Some(485_000));
    assert_eq!(c.target_level(), 350_000);
    assert_eq!(c.update(900_000, 1600), Some(470_000));
    assert_eq!(c.target_level(), 335_000);
    assert_eq!(c.last_adjustment_ms(), 1600);
}

#[test]
fn quiet_threshold_is_normal() {
    let mut c = controller();
    assert_eq!(c.update(QUIET, 1000), None);
    assert_eq!(c.current_level(), 500_000);
    assert_eq!(c.last_adjustment_ms(), 0);
    assert_eq!(c.update(QUIET - 1, 1000), Some(505_000));
    assert_eq!(c.target_level(), 550_000);
}

#[test]
fn loud_threshold_is_normal() {
    let mut c = controller();
    assert_eq!(c.update(LOUD, 1000), None);
    assert_eq!(c.update(LOUD + 1, 1000), Some(485_000));
}

#[test]
fn second_call_within_cooldown_is_ignored() {
    let mut c = controller();
    assert_eq!(c.update(900_000, 1000), Some(485_000));
    assert_eq!(c.update(900_000, 1100), None);
    assert_eq!(c.current_level(), 485_000);
    assert_eq!(c.target_level(), 350_000);
    assert_eq!(c.last_adjustment_ms(), 1000);
    assert_eq!(c.update(900_000, 1499), None);
    assert_eq!(c.update(900_000, 1500), Some(470_000));
}

#[test]
fn cooldown_runs_from_construction() {
    let mut c = VolumeController::new(QUIET, LOUD, 10_000).unwrap();
    assert_eq!(c.update(0, 10_499), None);
    assert_eq!(c.update(0, 5_000), None);
    assert_eq!(c.current_level(), 500_000);
    assert_eq!(c.update(0, 10_500), Some(505_000));
}

#[test]
fn insignificant_changes_do_not_emit_but_still_smooth() {
    let mut c = controller();
    // quiet: target 550_000, level 505_000
    assert_eq!(c.update(0, 1000), Some(505_000));
    // quiet again: target 555_000 differs by 5_000 only
    assert_eq!(c.update(0, 2000), None);
    assert_eq!(c.target_level(), 555_000);
    assert_eq!(c.current_level(), 510_000);
    assert_eq!(c.last_adjustment_ms(), 1000);
}

#[test]
fn normal_reading_after_loud_one_heads_back() {
    let mut c = controller();
    assert_eq!(c.update(900_000, 1000), Some(485_000));
    assert_eq!(c.update(300_000, 2000), Some(486_500));
    assert_eq!(c.target_level(), 500_000);
}

#[test]
fn emitted_levels_stay_in_band() {
    let mut c = controller();
    let mut seed: u64 = 12345;
    let mut now: u64 = 0;
    for _ in 0..5000 {
        seed = seed.wrapping_mul(6364136223846793005).wrapping_add(1442695040888963407);
        let loudness = (seed >> 33) % 1_200_000;
        now += (seed >> 20) % 900;
        if let Some(v) = c.update(loudness, now) {
            assert!((100_000..=900_000).contains(&v), "emitted {}", v);
        }
        assert!((200_000..=900_000).contains(&c.current_level()));
    }
}

#[test]
fn quiet_content_raises_to_ceiling() {
    let mut c = controller();
    let mut prev = c.current_level();
    for i in 1..200u64 {
        c.update(0, i * 600);
        let level = c.current_level();
        assert!(level >= prev && level <= 900_000);
        prev = level;
    }
    assert_eq!(prev, 900_000);
}

#[test]
fn loud_content_lowers_to_floor() {
    let mut c = controller();
    let mut prev = c.current_level();
    for i in 1..200u64 {
        c.update(1_000_000, i * 600);
        let level = c.current_level();
        assert!(level <= prev && level >= 200_000);
        prev = level;
    }
    assert_eq!(prev, 200_000);
}

#[test]
fn normal_content_returns_to_baseline() {
    let mut c = controller();
    for i in 1..30u64 {
        c.update(0, i * 600);
    }
    let mut prev = c.current_level();
    assert!(prev > 500_000);
    for i in 30..300u64 {
        c.update(400_000, i * 600);
        let level = c.current_level();
        assert!(level <= prev && level >= 500_000);
        prev = level;
    }
    assert_eq!(prev, 500_000);

    for i in 300..330u64 {
        c.update(1_000_000, i * 600);
    }
    let mut prev = c.current_level();
    assert!(prev < 500_000);
    for i in 330..600u64 {
        c.update(400_000, i * 600);
        let level = c.current_level();
        assert!(level >= prev && level <= 500_000);
        prev = level;
    }
    assert_eq!(prev, 500_000);
}
