use playout::frame_rate::{rate_time_base, video_pts_in_audio_samples, FrameRateConverter};
use playout::rational::{rescale, Rational};

#[test]
fn converts_24_fps_to_25_fps() {
    let mut converter = FrameRateConverter::new(Rational(1, 24), 25);
    let output_frames = (0..240)
        .map(|timestamp| converter.output_frames(Some(timestamp)))
        .sum::<i64>();

    assert_eq!(output_frames, 250);
}

#[test]
fn converts_30_fps_to_25_fps() {
    let mut converter = FrameRateConverter::new(Rational(1, 30), 25);
    let output_counts = (0..300)
        .map(|timestamp| converter.output_frames(Some(timestamp)))
        .collect::<Vec<_>>();

    assert_eq!(output_counts.iter().sum::<i64>(), 250);
    assert_eq!(
        output_counts.iter().filter(|frames| **frames == 0).count(),
        50
    );
}

#[test]
fn video_pts_are_converted_to_audio_clock_samples() {
    assert_eq!(
        video_pts_in_audio_samples(25, Rational(1, 25), 48_000),
        48_000
    );
    assert_eq!(
        video_pts_in_audio_samples(1, Rational(1, 25), 48_000),
        1_920
    );
}

#[test]
fn negative_stamps_are_due_at_once() {
    assert_eq!(video_pts_in_audio_samples(-5, Rational(1, 25), 48_000), 0);
    assert_eq!(video_pts_in_audio_samples(5, Rational(1, 0), 48_000), 0);
}

#[test]
fn frames_without_a_stamp_count_once() {
    let mut converter = FrameRateConverter::new(Rational(1, 1_000), 25);
    assert_eq!(converter.output_frames(None), 1);
    assert_eq!(converter.output_frames(None), 1);
    assert_eq!(converter.output_frames(Some(500)), 0);
    assert_eq!(converter.output_frames(Some(600)), 2);
    assert_eq!(converter.output_frames(Some(400)), 0);
    assert_eq!(converter.output_frames(Some(1_500)), 22);
    assert_eq!(converter.next_output_frame, 26);
}

#[test]
fn output_follows_the_clock_of_the_input() {
    let mut converter = FrameRateConverter::new(Rational(1, 90_000), 25);
    for timestamp in [9_000, 9_100, 12_600, 99_000] {
        assert!(converter.accepts(Some(timestamp)));
        converter.output_frames(Some(timestamp));
    }
    assert_eq!(converter.next_output_frame, 26);
}

#[test]
fn uncountable_frames_are_refused() {
    let converter = FrameRateConverter::new(Rational(i32::MAX, 1), 1);
    assert!(converter.accepts(Some(i64::MAX)));
    let mut converter = FrameRateConverter::new(Rational(1, 1), 1);
    converter.output_frames(Some(0));
    assert!(!converter.accepts(Some(i64::MAX)));
    assert!(converter.accepts(Some(i64::MAX - 1)));
}

#[test]
fn time_bases() {
    assert_eq!(rate_time_base(25), Rational(1, 25));
    assert_eq!(rate_time_base(48_000), Rational(1, 48_000));
}

#[test]
fn rescaling_rounds_to_the_nearest() {
    assert_eq!(rescale(1, Rational(1, 2), Rational(1, 1)), 1);
    assert_eq!(rescale(-1, Rational(1, 2), Rational(1, 1)), -1);
    assert_eq!(rescale(1, Rational(1, 3), Rational(1, 1)), 0);
    assert_eq!(rescale(2, Rational(1, 3), Rational(1, 1)), 1);
    assert_eq!(rescale(12_345, Rational(1, 90_000), Rational(1, 48_000)), 6_584);
    assert_eq!(rescale(i64::MAX, Rational(1, 1), Rational(1, 1)), i64::MAX);
    assert_eq!(rescale(i64::MIN, Rational(1, 1), Rational(1, 1)), i64::MIN);
}

#[test]
fn rescaling_keeps_the_order() {
    let mut last = i64::MIN;
    for value in -100..100 {
        let converted = rescale(value, Rational(1, 24), Rational(1, 25));
        assert!(last <= converted);
        last = converted;
    }
}

#[test]
fn impossible_conversions_have_no_result() {
    assert_eq!(rescale(1, Rational(1, 0), Rational(1, 25)), i64::MIN);
    assert_eq!(rescale(1, Rational(-1, 5), Rational(1, 25)), i64::MIN);
    assert_eq!(rescale(i64::MAX, Rational(2, 1), Rational(1, 1)), i64::MIN);
}

#[test]
fn output_reaches_the_latest_frame_in_any_order() {
    let mut converter = FrameRateConverter::new(Rational(1, 1_000), 25);
    let mut shown = 0;
    for timestamp in [1_000, 1_400, 1_200, 900, 3_000, 2_960, 2_000] {
        shown += converter.output_frames(Some(timestamp));
    }
    assert_eq!(shown, 51);
    assert_eq!(converter.next_output_frame, 51);
}
