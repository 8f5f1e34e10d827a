use playout::desktop::{
    audio_format_matches, queued_audio_samples, AudioMasterClock, DesktopMessage, DesktopState,
    MessageStep, QueuedFrame, Starvation,
};
use playout::rational::Rational;
use std::time::Duration;

fn after(start: u64, milliseconds: u64) -> u64 {
    start + Duration::from_millis(milliseconds).as_nanos() as u64
}

fn position(clock: &mut AudioMasterClock, submitted: u64, queued: u64, now: u64) -> u64 {
    let elapsed = Duration::from_nanos(now - clock.anchor_time).as_secs_f64();
    let elapsed_samples = (elapsed * f64::from(clock.sample_rate)) as u64;
    clock.position(submitted, queued, now, elapsed_samples)
}

#[test]
fn audio_clock_interpolates_between_device_buffer_requests() {
    let start = 0;
    let mut clock = AudioMasterClock::new(48_000, 1_024, start);
    clock.reset(start);

    assert_eq!(position(&mut clock, 4_800, 3_776, start), 0);
    assert_eq!(position(&mut clock, 4_800, 3_776, after(start, 10)), 480);
    assert_eq!(position(&mut clock, 4_800, 3_776, after(start, 30)), 1_024);
}

#[test]
fn audio_clock_reanchors_when_sdl_requests_another_buffer() {
    let start = 0;
    let mut clock = AudioMasterClock::new(48_000, 1_024, start);
    clock.reset(start);

    assert_eq!(position(&mut clock, 4_800, 2_752, start), 1_024);
    assert_eq!(position(&mut clock, 4_800, 2_752, after(start, 10)), 1_504);
}

#[test]
fn the_clock_does_not_run_back() {
    let mut clock = AudioMasterClock::new(48_000, 1_024, 0);
    let mut last = 0;
    for (queued, milliseconds) in
        [(9_000, 0), (9_000, 5), (7_976, 21), (7_976, 30), (7_976, 99), (6_952, 100)]
    {
        let now = after(0, milliseconds);
        let reached = position(&mut clock, 10_000, queued, now);
        assert!(last <= reached && reached <= 10_000 - queued);
        last = reached;
    }
    assert_eq!(clock.position(5, 10, 0, 3), 0);
}

#[test]
fn queues_are_measured_in_samples() {
    assert_eq!(queued_audio_samples(8_192), 1_024);
    assert_eq!(queued_audio_samples(7), 0);
}

#[test]
fn devices_must_play_what_is_produced() {
    assert!(audio_format_matches(48_000, 2, 48_000));
    assert!(!audio_format_matches(44_100, 2, 48_000));
    assert!(!audio_format_matches(48_000, 1, 48_000));
}

fn state() -> DesktopState<&'static str> {
    DesktopState::new(48_000, 1_024, Rational(1, 25), 0)
}

fn push(state: &mut DesktopState<&'static str>, frame: &'static str, pts: Option<i64>) {
    let message = DesktopMessage::Video(QueuedFrame { frame, pts });
    assert_eq!(state.on_message(message, 0), MessageStep::Continue);
}

#[test]
fn audio_starts_when_enough_is_queued() {
    let mut state = state();
    let message = DesktopMessage::AudioQueued { samples_per_channel: 4_799, queued_bytes: 38_392 };
    assert_eq!(state.on_message(message, 5), MessageStep::Continue);
    assert!(!state.audio_started);
    assert!(!state.queue_is_full(u32::MAX));
    let message = DesktopMessage::AudioQueued { samples_per_channel: 1, queued_bytes: 38_400 };
    assert_eq!(state.on_message(message, 6), MessageStep::StartAudio);
    assert!(state.audio_started);
    assert_eq!(state.audio_clock.anchor_time, 6);
    assert_eq!(state.submitted_audio_samples, 4_800);
    assert!(!state.queue_is_full(96_000));
    assert!(state.queue_is_full(96_008));
    assert!(!state.start_audio_if_ready(u32::MAX, true, 7));
    assert_eq!(state.played_audio_samples(30_208, 7, 0), 0);
    assert_eq!(state.played_audio_samples(30_208, 8, 17), 17);
}

#[test]
fn audio_starts_when_forced() {
    let mut state = state();
    assert!(!state.start_audio_if_ready(0, false, 1));
    assert!(state.start_audio_if_ready(0, true, 1));
}

#[test]
fn messages() {
    let mut state = state();
    assert_eq!(state.on_message(DesktopMessage::VideoEnd(Some(9)), 0), MessageStep::Continue);
    assert_eq!(state.video_end_pts, Some(9));
    assert_eq!(state.on_message(DesktopMessage::VideoFinished, 0), MessageStep::Continue);
    assert!(state.video_finished);
    assert_eq!(state.on_message(DesktopMessage::ClipStarted, 0), MessageStep::Continue);
    assert!(!state.video_finished && state.video_end_pts.is_none());
    assert_eq!(state.on_message(DesktopMessage::Timeout, 0), MessageStep::Continue);
    assert_eq!(state.on_message(DesktopMessage::ClipFinished, 0), MessageStep::ClipDone);
    assert_eq!(state.on_message(DesktopMessage::Disconnected, 0), MessageStep::Lost);
    let message = DesktopMessage::AudioQueued { samples_per_channel: u64::MAX, queued_bytes: 0 };
    state.on_message(message, 0);
    let message = DesktopMessage::AudioQueued { samples_per_channel: 2, queued_bytes: 0 };
    state.on_message(message, 0);
    assert_eq!(state.submitted_audio_samples, u64::MAX);
}

#[test]
fn frames_are_shown_when_they_are_due() {
    let mut state = state();
    push(&mut state, "a", Some(0));
    push(&mut state, "b", Some(1));
    push(&mut state, "c", Some(2));
    push(&mut state, "d", Some(3));
    let due = state.take_due_video(1_920);
    let shown = due.frame.unwrap();
    assert_eq!((shown.frame, shown.pts, due.dropped_frames), ("b", Some(1), 1));
    state.video_shown(shown.pts);
    let due = state.take_due_video(3_839);
    assert!(due.frame.is_none());
    assert_eq!(due.dropped_frames, 0);
    let due = state.take_due_video(3_840);
    assert_eq!(due.frame.unwrap().frame, "c");
    assert_eq!(state.video_queue.len(), 1);
}

#[test]
fn late_frames_are_dropped() {
    let mut state = state();
    state.video_shown(Some(5));
    push(&mut state, "a", Some(4));
    push(&mut state, "b", Some(6));
    push(&mut state, "c", Some(5));
    let due = state.take_due_video(48_000);
    assert_eq!((due.frame.unwrap().frame, due.dropped_frames), ("b", 2));
    push(&mut state, "d", None);
    let due = state.take_due_video(0);
    assert!(due.frame.is_none());
    assert_eq!(due.dropped_frames, 1);
}

#[test]
fn missing_video_is_reported_now_and_then() {
    let mut state = state();
    state.video_shown(Some(1));
    let starved = state.handle_video_starvation(3 * 1_920, 10);
    assert_eq!(
        starved,
        Starvation { expected_video_pts: 3, last_video_pts: 1, report: true, black: false }
    );
    assert!(!state.handle_video_starvation(3 * 1_920, 10 + 999_999_999).report);
    assert!(state.handle_video_starvation(3 * 1_920, 10 + 1_000_000_000).report);
    assert!(!state.handle_video_starvation(2 * 1_920, u64::MAX).report);
    push(&mut state, "a", Some(3));
    assert!(!state.handle_video_starvation(3 * 1_920, u64::MAX).report);
}

#[test]
fn the_window_turns_black_behind_the_end_of_video() {
    let mut state = state();
    state.video_shown(Some(1));
    state.on_message(DesktopMessage::VideoFinished, 0);
    let starved = state.handle_video_starvation(3 * 1_920, 0);
    assert!(!starved.black && !starved.report);
    let starved = state.handle_video_starvation(4 * 1_920, 0);
    assert!(starved.black && !starved.report);
    assert_eq!(state.last_rendered_video_pts, Some(4));
    state.on_message(DesktopMessage::ClipStarted, 0);
    state.on_message(DesktopMessage::VideoEnd(Some(8)), 0);
    assert!(!state.handle_video_starvation(7 * 1_920, 0).black);
    assert!(state.handle_video_starvation(8 * 1_920, 0).black);
    assert_eq!(state.handle_video_starvation(u64::MAX, 0).expected_video_pts, 0);
}
