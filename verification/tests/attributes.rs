use imagequant::attr::DitherMapMode;
use imagequant::attr::ErrorGoals;
use imagequant::liq_error;
use imagequant::Attributes;
use imagequant::ControlFlow;
use imagequant::LIQ_VERSION;

#[test]
fn version_is_four() {
    assert_eq!(40000, LIQ_VERSION);
}

#[test]
fn error_codes_are_stable() {
    assert_eq!(0, liq_error::LIQ_OK.code());
    assert_eq!(99, liq_error::LIQ_QUALITY_TOO_LOW.code());
    assert_eq!(100, liq_error::LIQ_VALUE_OUT_OF_RANGE.code());
    assert_eq!(98, liq_error::LIQ_OUT_OF_MEMORY.code());
    assert_eq!(97, liq_error::LIQ_ABORTED.code());
    assert_eq!(96, liq_error::LIQ_BITMAP_NOT_AVAILABLE.code());
    assert_eq!(95, liq_error::LIQ_BUFFER_TOO_SMALL.code());
    assert_eq!(94, liq_error::LIQ_INVALID_POINTER.code());
    assert_eq!(93, liq_error::LIQ_UNSUPPORTED.code());
}

#[test]
fn error_codes_round_trip() {
    for c in 0..200u32 {
        match liq_error::from_code(c) {
            Some(e) => assert_eq!(c, e.code()),
            None => assert!(c != 0 && !(93..=100).contains(&c)),
        }
    }
    assert_eq!(Some(liq_error::LIQ_ABORTED), liq_error::from_code(97));
    assert_eq!(None, liq_error::from_code(1));
    assert_eq!(None, liq_error::from_code(101));
}

#[test]
fn error_as_result() {
    assert!(liq_error::LIQ_OK.is_ok());
    assert!(!liq_error::LIQ_OK.is_err());
    assert!(liq_error::LIQ_ABORTED.is_err());
    assert_eq!(Ok(()), liq_error::LIQ_OK.ok());
    assert_eq!(Err(liq_error::LIQ_UNSUPPORTED), liq_error::LIQ_UNSUPPORTED.ok());
}

#[test]
fn control_flow_codes() {
    assert_eq!(1, ControlFlow::Continue.code());
    assert_eq!(0, ControlFlow::Break.code());
}

#[test]
fn defaults() {
    let liq = imagequant::new();
    assert_eq!(256, liq.max_colors());
    assert_eq!(4, liq.speed());
    assert_eq!((0, 100), liq.quality());
    assert_eq!(0, liq.min_posterization());
    assert!(!liq.last_index_transparent());
    let other = Attributes::default();
    assert_eq!(liq.speed(), other.speed());
    assert_eq!(liq.max_colors(), other.max_colors());
    assert_eq!(liq.quality(), other.quality());
}

#[test]
fn min_posterization_round_trip() {
    let mut liq = Attributes::new();
    assert_eq!(liq_error::LIQ_OK, liq.set_min_posterization(1));
    assert_eq!(1, liq.min_posterization());
    assert_eq!(liq_error::LIQ_OK, liq.set_min_posterization(0));
    assert_eq!(0, liq.min_posterization());
    assert_eq!(liq_error::LIQ_OK, liq.set_min_posterization(4));
    assert_eq!(liq_error::LIQ_VALUE_OUT_OF_RANGE, liq.set_min_posterization(5));
    assert_eq!(4, liq.min_posterization());
}

#[test]
fn max_colors_range() {
    let mut liq = Attributes::new();
    assert_eq!(liq_error::LIQ_VALUE_OUT_OF_RANGE, liq.set_max_colors(0));
    assert_eq!(liq_error::LIQ_VALUE_OUT_OF_RANGE, liq.set_max_colors(1));
    assert_eq!(liq_error::LIQ_VALUE_OUT_OF_RANGE, liq.set_max_colors(257));
    assert_eq!(256, liq.max_colors());
    assert_eq!(liq_error::LIQ_OK, liq.set_max_colors(2));
    assert_eq!(2, liq.max_colors());
    assert_eq!(liq_error::LIQ_OK, liq.set_max_colors(16));
    assert_eq!(16, liq.max_colors());
    assert_eq!(liq_error::LIQ_OK, liq.set_max_colors(256));
    assert_eq!(256, liq.max_colors());
}

#[test]
fn quality_range() {
    let mut liq = Attributes::new();
    assert_eq!(liq_error::LIQ_OK, liq.set_quality(70, 99));
    assert_eq!((70, 99), liq.quality());
    assert_eq!(liq_error::LIQ_VALUE_OUT_OF_RANGE, liq.set_quality(80, 70));
    assert_eq!(liq_error::LIQ_VALUE_OUT_OF_RANGE, liq.set_quality(0, 101));
    assert_eq!((70, 99), liq.quality());
    assert_eq!(liq_error::LIQ_OK, liq.set_quality(50, 50));
    assert_eq!((50, 50), liq.quality());
    assert_eq!(liq_error::LIQ_OK, liq.set_quality(0, 100));
    assert_eq!((0, 100), liq.quality());
}

#[test]
fn speed_range() {
    let mut liq = Attributes::new();
    assert_eq!(liq_error::LIQ_VALUE_OUT_OF_RANGE, liq.set_speed(0));
    assert_eq!(liq_error::LIQ_VALUE_OUT_OF_RANGE, liq.set_speed(11));
    assert_eq!(liq_error::LIQ_VALUE_OUT_OF_RANGE, liq.set_speed(-3));
    assert_eq!(4, liq.speed());
    for speed in 1..=10 {
        assert_eq!(liq_error::LIQ_OK, liq.set_speed(speed));
        assert_eq!(speed as u32, liq.speed());
    }
}

#[test]
fn speed_leaves_other_settings() {
    let mut liq = Attributes::new();
    liq.set_max_colors(16);
    liq.set_quality(10, 90);
    liq.set_min_posterization(2);
    liq.set_last_index_transparent(true);
    liq.set_speed(9);
    assert_eq!(16, liq.max_colors());
    assert_eq!((10, 90), liq.quality());
    assert_eq!(2, liq.min_posterization());
    assert!(liq.last_index_transparent());
}

#[test]
fn limits_of_each_speed() {
    let iterations = [31u16, 24, 17, 12, 7, 4, 1, 0, 0, 0];
    let trials = [6u16, 6, 6, 6, 6, 2, 0, 0, 0, 0];
    let stage1 = [20u8, 20, 20, 20, 20, 20, 50, 38, 38, 38];
    let stage3 = [25u8, 16, 12, 10, 8, 7, 6, 5, 5, 4];
    let mut liq = Attributes::new();
    for speed in 1..=10usize {
        liq.set_speed(speed as i32);
        assert_eq!((iterations[speed - 1], 23 - speed as u8), liq.kmeans_iterations(100, true));
        assert_eq!(trials[speed - 1], liq.feedback_loop_trials(100));
        assert_eq!((1u32 << 17) + (1 << 18) * (10 - speed as u32), liq.max_histogram_entries());
        assert_eq!(speed <= 7, liq.use_contrast_maps());
        let mode = if speed < 3 {
            DitherMapMode::Always
        } else if speed <= 6 {
            DitherMapMode::Enabled
        } else {
            DitherMapMode::Disabled
        };
        assert_eq!(mode, liq.use_dither_map());
        let stages = liq.progress_stages();
        assert_eq!(stage1[speed - 1], stages.0);
        assert_eq!(stage3[speed - 1], stages.2);
        assert_eq!(100, stages.0 + stages.1 + stages.2);
        assert_eq!(if speed >= 8 { 1 } else { 0 }, liq.posterize_bits());
    }
}

#[test]
fn trials_shrink_with_histogram_size() {
    let mut liq = Attributes::new();
    assert_eq!(6, liq.feedback_loop_trials(0));
    assert_eq!(6, liq.feedback_loop_trials(5000));
    assert_eq!(5, liq.feedback_loop_trials(5001));
    assert_eq!(5, liq.feedback_loop_trials(25000));
    assert_eq!(4, liq.feedback_loop_trials(25001));
    assert_eq!(3, liq.feedback_loop_trials(50001));
    assert_eq!(3, liq.feedback_loop_trials(100001));
    liq.set_speed(1);
    assert_eq!(6, liq.feedback_loop_trials(5000));
    assert_eq!(3, liq.feedback_loop_trials(1_000_000));
    liq.set_speed(6);
    assert_eq!(2, liq.feedback_loop_trials(0));
    assert_eq!(2, liq.feedback_loop_trials(1_000_000));
    liq.set_speed(7);
    assert_eq!(0, liq.feedback_loop_trials(1_000_000));
    liq.set_speed(10);
    assert_eq!(0, liq.feedback_loop_trials(0));
}

#[test]
fn trials_never_grow_with_the_speed() {
    let mut liq = Attributes::new();
    for items in [0usize, 5001, 25001, 50001, 100001] {
        let mut last = u16::MAX;
        for speed in 1..=10 {
            liq.set_speed(speed);
            let trials = liq.feedback_loop_trials(items);
            assert!(trials <= last);
            assert!(trials <= 6);
            last = trials;
        }
        assert_eq!(0, last);
    }
}

#[test]
fn iterations_shrink_with_histogram_size() {
    let mut liq = Attributes::new();
    assert_eq!((12, 19), liq.kmeans_iterations(5000, false));
    assert_eq!((9, 19), liq.kmeans_iterations(5001, false));
    assert_eq!((7, 19), liq.kmeans_iterations(25001, false));
    assert_eq!((6, 19), liq.kmeans_iterations(50001, false));
    assert_eq!((5, 18), liq.kmeans_iterations(100001, false));
    liq.set_speed(10);
    assert_eq!((0, 13), liq.kmeans_iterations(10, false));
    assert_eq!((0, 12), liq.kmeans_iterations(100001, false));
    liq.set_quality(0, 100);
    assert_eq!((1, 13), liq.kmeans_iterations(10, false));
    assert_eq!((0, 13), liq.kmeans_iterations(10, true));
    liq.set_speed(7);
    assert_eq!((1, 16), liq.kmeans_iterations(10, true));
}

#[test]
fn posterize_bits_is_the_larger() {
    let mut liq = Attributes::new();
    assert_eq!(0, liq.posterize_bits());
    liq.set_min_posterization(3);
    assert_eq!(3, liq.posterize_bits());
    liq.set_speed(10);
    assert_eq!(3, liq.posterize_bits());
    liq.set_min_posterization(0);
    assert_eq!(1, liq.posterize_bits());
}

#[test]
fn error_goals() {
    let mut liq = Attributes::new();
    assert_eq!(
        ErrorGoals {
            min_quality: None,
            tightened: true,
            target_quality: 100,
            floor_bits: 0,
            aim_for_perfect_quality: true,
        },
        liq.target_mse(256)
    );
    liq.set_quality(70, 99);
    liq.set_min_posterization(2);
    assert_eq!(
        ErrorGoals {
            min_quality: Some(70),
            tightened: false,
            target_quality: 99,
            floor_bits: 2,
            aim_for_perfect_quality: false,
        },
        liq.target_mse(257)
    );
}

#[test]
fn progress_stops_on_break_only() {
    let liq = Attributes::new();
    assert!(!liq.progress(None));
    assert!(!liq.progress(Some(ControlFlow::Continue)));
    assert!(liq.progress(Some(ControlFlow::Break)));
}
