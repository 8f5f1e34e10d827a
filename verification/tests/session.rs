use playout::session::{
    check_inputs, check_subtitles, operation_result, select_target, settle_desktop,
    starts_at_offset, Attempt, ClipResult, DesktopRun, NextInput, SessionError, Target,
};
use playout::timeline::Timeline;

#[test]
fn arguments_are_checked() {
    assert_eq!(check_inputs(0), Err(SessionError::NoInput));
    assert_eq!(check_inputs(1), Ok(()));
    assert_eq!(check_subtitles(true, 0), Err(SessionError::SubtitlesWithoutVariants));
    assert_eq!(check_subtitles(true, 1), Ok(()));
    assert_eq!(check_subtitles(false, 0), Ok(()));
}

#[test]
fn targets() {
    assert!(matches!(
        select_target(true, Some("a".to_string()), Some("b".to_string())),
        Ok(Target::Desktop)
    ));
    assert!(matches!(
        select_target(false, Some("a".to_string()), Some("b".to_string())),
        Ok(Target::Hls(path)) if path == "a"
    ));
    assert!(matches!(
        select_target(false, None, Some("b".to_string())),
        Ok(Target::Encoded(path)) if path == "b"
    ));
    assert!(matches!(select_target(false, None, None), Err(SessionError::MissingOutput)));
}

#[test]
fn only_the_first_input_starts_at_the_offset() {
    assert!(starts_at_offset(0, true));
    assert!(!starts_at_offset(0, false));
    assert!(!starts_at_offset(1, true));
}

#[test]
fn failed_clips_are_replaced() {
    let failed = Attempt::Failed("no such file".to_string());
    assert!(failed.needs_fallback());
    assert!(!Attempt::Done.needs_fallback());
    assert!(!Attempt::Stopped.needs_fallback());
    let result = failed.into_result();
    assert_eq!(result.next_input(), NextInput::Report);
    assert!(matches!(result, ClipResult::Fallback { reason } if reason == "no such file"));
    assert_eq!(Attempt::Done.into_result().next_input(), NextInput::Continue);
    assert_eq!(Attempt::Stopped.into_result().next_input(), NextInput::Stop);
}

#[test]
fn a_fallback_does_not_end_the_run() {
    let results = [
        ClipResult::Played,
        ClipResult::Fallback { reason: String::new() },
        ClipResult::Played,
    ];
    assert!(results.iter().all(|result| result.next_input() != NextInput::Stop));
}

#[test]
fn lost_decoders_count_first() {
    assert_eq!(operation_result::<u8, &str>(Ok(1), Ok(())), Ok(1));
    assert_eq!(operation_result::<u8, &str>(Ok(1), Err("window")), Err("window"));
    assert_eq!(operation_result::<u8, &str>(Err("worker"), Err("window")), Err("worker"));
    assert_eq!(operation_result::<u8, &str>(Err("worker"), Ok(())), Err("worker"));
}

#[test]
fn a_complete_clip_moves_the_timeline() {
    let reached = Timeline { video_pts: 7, audio_pts: 8 };
    let mut timeline = Timeline::new();
    let mut live: Option<u8> = None;
    let result = settle_desktop::<u8, &str>(
        DesktopRun::Completed { result: Err("full"), timeline: reached, live: Some(3) },
        &mut timeline,
        &mut live,
    );
    assert!(matches!(result, Err("full")));
    assert_eq!((timeline, live), (reached, Some(3)));
    let result = settle_desktop::<u8, &str>(DesktopRun::Stopped, &mut timeline, &mut live);
    assert!(matches!(result, Ok(ClipResult::Stopped)));
    let result = settle_desktop::<u8, &str>(DesktopRun::Failed("gone"), &mut timeline, &mut live);
    assert!(matches!(result, Err("gone")));
    assert_eq!((timeline, live), (reached, Some(3)));
}
