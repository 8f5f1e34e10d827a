use playout::live::{
    ListenerStep, LiveEvent, LiveOverride, Media, OverrideAction, OverrideEvent,
    LIVE_IDLE_TIMEOUT_NS,
};

fn step(output: &mut LiveOverride, event: OverrideEvent) -> OverrideAction {
    assert!(output.accepts(event), "{event:?} after {:?}", output.pending);
    output.next(event)
}

fn live(event: LiveEvent, now: u64) -> OverrideEvent {
    OverrideEvent::Live(event, now)
}

#[test]
fn files_pass_unchanged() {
    let mut output = LiveOverride::new();
    for pts in [0, 1, 5] {
        let file = OverrideEvent::File(Media::Video, Some(pts));
        assert_eq!(step(&mut output, file), OverrideAction::Poll);
        assert_eq!(
            step(&mut output, live(LiveEvent::Empty, 0)),
            OverrideAction::WriteFile { media: Media::Video, pts }
        );
        assert_eq!(step(&mut output, OverrideEvent::Written), OverrideAction::Idle);
    }
    assert_eq!((output.video_pts, output.audio_pts), (6, 0));
}

#[test]
fn live_frames_take_over_and_files_resume_behind_them() {
    let mut output = LiveOverride::new();
    step(&mut output, OverrideEvent::File(Media::Video, Some(10)));
    assert_eq!(step(&mut output, live(LiveEvent::Frame(Media::Video), 0)), OverrideAction::Poll);
    assert_eq!(step(&mut output, live(LiveEvent::Started, 0)), OverrideAction::Poll);
    assert_eq!(
        step(&mut output, live(LiveEvent::Frame(Media::Video), 0)),
        OverrideAction::WriteLive { media: Media::Video, pts: 10 }
    );
    assert_eq!(step(&mut output, OverrideEvent::Written), OverrideAction::Poll);
    assert_eq!(
        step(&mut output, live(LiveEvent::Frame(Media::Audio(480)), 0)),
        OverrideAction::WriteLive { media: Media::Audio(480), pts: 0 }
    );
    step(&mut output, OverrideEvent::Written);
    assert_eq!(step(&mut output, live(LiveEvent::Empty, 0)), OverrideAction::Sleep);
    assert_eq!(step(&mut output, OverrideEvent::Woken), OverrideAction::Poll);
    assert_eq!(step(&mut output, live(LiveEvent::Ended, 1)), OverrideAction::Poll);
    assert_eq!(
        step(&mut output, live(LiveEvent::Empty, 1)),
        OverrideAction::WriteFile { media: Media::Video, pts: 11 }
    );
    step(&mut output, OverrideEvent::Written);
    step(&mut output, OverrideEvent::File(Media::Video, Some(11)));
    assert_eq!(
        step(&mut output, live(LiveEvent::Empty, 1)),
        OverrideAction::WriteFile { media: Media::Video, pts: 12 }
    );
    step(&mut output, OverrideEvent::Written);
    step(&mut output, OverrideEvent::File(Media::Audio(1_024), None));
    assert_eq!(
        step(&mut output, live(LiveEvent::Empty, 1)),
        OverrideAction::WriteFile { media: Media::Audio(1_024), pts: 480 }
    );
    step(&mut output, OverrideEvent::Written);
    assert_eq!((output.video_pts, output.audio_pts), (13, 1_504));
}

#[test]
fn an_idle_live_input_gives_way() {
    let mut output = LiveOverride::new();
    step(&mut output, OverrideEvent::File(Media::Video, Some(0)));
    step(&mut output, live(LiveEvent::Started, 100));
    assert_eq!(step(&mut output, live(LiveEvent::Empty, 100)), OverrideAction::Sleep);
    step(&mut output, OverrideEvent::Woken);
    let almost = 99 + LIVE_IDLE_TIMEOUT_NS;
    assert_eq!(step(&mut output, live(LiveEvent::Empty, almost)), OverrideAction::Sleep);
    step(&mut output, OverrideEvent::Woken);
    step(&mut output, live(LiveEvent::Frame(Media::Video), almost));
    step(&mut output, OverrideEvent::Written);
    assert_eq!(step(&mut output, live(LiveEvent::Empty, almost + 1)), OverrideAction::Sleep);
    step(&mut output, OverrideEvent::Woken);
    assert_eq!(
        step(&mut output, live(LiveEvent::Empty, almost + 1 + LIVE_IDLE_TIMEOUT_NS)),
        OverrideAction::WriteFile { media: Media::Video, pts: 1 }
    );
    assert!(!output.active);
}

#[test]
fn a_lost_listener_gives_way() {
    let mut output = LiveOverride::new();
    step(&mut output, OverrideEvent::File(Media::Video, None));
    step(&mut output, live(LiveEvent::Started, 0));
    assert_eq!(
        step(&mut output, live(LiveEvent::Disconnected, 0)),
        OverrideAction::WriteFile { media: Media::Video, pts: 0 }
    );
}

#[test]
fn a_frame_that_was_not_written_does_not_count() {
    let mut output = LiveOverride::new();
    step(&mut output, OverrideEvent::File(Media::Video, Some(3)));
    step(&mut output, live(LiveEvent::Empty, 0));
    assert_eq!(step(&mut output, OverrideEvent::Failed), OverrideAction::Idle);
    assert_eq!(output.video_pts, 3);
}

#[test]
fn stamps_never_go_back() {
    let mut output = LiveOverride::new();
    let mut last = -1;
    for round in 0..50_i64 {
        let mut action = step(&mut output, OverrideEvent::File(Media::Video, Some(round / 2)));
        let mut asked = 0;
        while action != OverrideAction::Idle {
            action = match action {
                OverrideAction::Poll => {
                    asked += 1;
                    let event = match (round % 7, asked) {
                        (3, 1) => LiveEvent::Started,
                        (3, 2) | (3, 3) => LiveEvent::Frame(Media::Video),
                        (3, 4) => LiveEvent::Ended,
                        _ => LiveEvent::Empty,
                    };
                    step(&mut output, live(event, 0))
                }
                OverrideAction::WriteLive { pts, .. } | OverrideAction::WriteFile { pts, .. } => {
                    assert!(pts > last);
                    last = pts;
                    step(&mut output, OverrideEvent::Written)
                }
                OverrideAction::Sleep => step(&mut output, OverrideEvent::Woken),
                OverrideAction::Idle => OverrideAction::Idle,
            };
        }
    }
    assert_eq!(last, 63);
}

#[test]
fn unexpected_events_of_the_output_are_refused() {
    let mut output = LiveOverride::new();
    assert!(!output.accepts(OverrideEvent::Written));
    assert!(!output.accepts(OverrideEvent::Failed));
    assert!(!output.accepts(OverrideEvent::File(Media::Audio(-1), None)));
    step(&mut output, OverrideEvent::File(Media::Video, Some(i64::MAX)));
    step(&mut output, live(LiveEvent::Empty, 0));
    assert!(!output.accepts(OverrideEvent::Written));
}

#[test]
fn listener_announces_starts_and_ends() {
    let mut step = ListenerStep::Open;
    let mut steps = vec![step];
    for succeeded in [false, true, true, true, true, false, true, true] {
        step = step.next(succeeded);
        steps.push(step);
    }
    assert_eq!(
        steps,
        vec![
            ListenerStep::Open,
            ListenerStep::Pause,
            ListenerStep::Open,
            ListenerStep::AnnounceStart,
            ListenerStep::Play,
            ListenerStep::AnnounceEnd,
            ListenerStep::Stop,
            ListenerStep::Stop,
            ListenerStep::Stop,
        ]
    );
    assert_eq!(ListenerStep::Play.next(false), ListenerStep::AnnounceEnd);
    assert_eq!(ListenerStep::AnnounceEnd.next(true), ListenerStep::Open);
    assert_eq!(ListenerStep::AnnounceStart.next(false), ListenerStep::Stop);
}

#[test]
fn switching_leaves_no_gap() {
    let mut output = LiveOverride::new();
    let mut expected = 0;
    for round in 0..20_i64 {
        let media = Media::Audio(100);
        let mut action = step(&mut output, OverrideEvent::File(media, Some(round * 100)));
        let mut asked = 0;
        while action != OverrideAction::Idle {
            action = match action {
                OverrideAction::Poll => {
                    asked += 1;
                    let event = match (round % 5, asked) {
                        (2, 1) => LiveEvent::Started,
                        (2, 2) => LiveEvent::Frame(Media::Audio(7)),
                        (2, 3) => LiveEvent::Frame(Media::Video),
                        (2, 4) => LiveEvent::Ended,
                        _ => LiveEvent::Empty,
                    };
                    step(&mut output, live(event, 0))
                }
                OverrideAction::WriteLive { media: Media::Audio(samples), pts }
                | OverrideAction::WriteFile { media: Media::Audio(samples), pts } => {
                    assert_eq!(pts, expected);
                    expected += samples;
                    step(&mut output, OverrideEvent::Written)
                }
                OverrideAction::WriteLive { .. } | OverrideAction::WriteFile { .. } => {
                    step(&mut output, OverrideEvent::Written)
                }
                OverrideAction::Sleep => step(&mut output, OverrideEvent::Woken),
                OverrideAction::Idle => OverrideAction::Idle,
            };
        }
    }
    assert_eq!((output.audio_pts, output.video_pts), (2_028, 4));
}
