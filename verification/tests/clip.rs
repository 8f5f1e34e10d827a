use playout::clip::{
    duration_fields, stream_duration, ClipAction, ClipError, ClipEvent, ClipPlayer, StreamDuration,
};
use playout::frame_rate::FrameRateConverter;
use playout::rational::Rational;
use playout::timeline::Timeline;

fn open(video: Option<usize>, audio: Option<usize>) -> ClipPlayer {
    ClipPlayer::open(
        video,
        audio,
        FrameRateConverter::new(Rational(1, 25), 25),
        Timeline { video_pts: 100, audio_pts: 1_000 },
        Some(150),
    )
    .unwrap()
}

fn run(player: &mut ClipPlayer, events: &[ClipEvent]) -> Vec<ClipAction> {
    let mut actions = Vec::new();
    for event in events {
        assert!(player.accepts(*event), "{event:?} after {:?}", player.pending);
        actions.push(player.next(*event));
    }
    actions
}

#[test]
fn an_input_without_streams_is_refused() {
    let player = ClipPlayer::open(
        None,
        None,
        FrameRateConverter::new(Rational(1, 25), 25),
        Timeline::new(),
        None,
    );
    assert_eq!(player.err(), Some(ClipError::NoStream));
}

#[test]
fn a_clip_with_both_streams() {
    let mut player = open(Some(0), Some(1));
    assert_eq!(player.pending, ClipAction::SetVideoEnd(Some(150)));
    let actions = run(
        &mut player,
        &[
            ClipEvent::Done,
            ClipEvent::Packet(7),
            ClipEvent::Packet(0),
            ClipEvent::Done,
            ClipEvent::VideoFrame(Some(10)),
            ClipEvent::Done,
            ClipEvent::Done,
            ClipEvent::VideoFrame(Some(12)),
            ClipEvent::Done,
            ClipEvent::Done,
            ClipEvent::Done,
            ClipEvent::VideoFrame(Some(11)),
            ClipEvent::NoFrame,
            ClipEvent::Packet(1),
            ClipEvent::Done,
            ClipEvent::AudioFrame(1_024),
            ClipEvent::Done,
            ClipEvent::NoFrame,
            ClipEvent::InputEnded,
            ClipEvent::Done,
            ClipEvent::NoFrame,
            ClipEvent::Done,
            ClipEvent::Done,
            ClipEvent::AudioFrame(10),
            ClipEvent::Done,
            ClipEvent::NoFrame,
        ],
    );
    assert_eq!(
        actions,
        vec![
            ClipAction::ReadPacket,
            ClipAction::ReadPacket,
            ClipAction::SendVideo,
            ClipAction::ReceiveVideo,
            ClipAction::ScaleVideo,
            ClipAction::WriteVideo { pts: 100 },
            ClipAction::ReceiveVideo,
            ClipAction::ScaleVideo,
            ClipAction::WriteVideo { pts: 101 },
            ClipAction::WriteVideo { pts: 102 },
            ClipAction::ReceiveVideo,
            ClipAction::ReceiveVideo,
            ClipAction::ReadPacket,
            ClipAction::SendAudio,
            ClipAction::ReceiveAudio,
            ClipAction::WriteAudio { pts: 1_000, samples: 1_024 },
            ClipAction::ReceiveAudio,
            ClipAction::ReadPacket,
            ClipAction::FlushVideo,
            ClipAction::ReceiveVideo,
            ClipAction::ReportVideoFinished,
            ClipAction::FlushAudio,
            ClipAction::ReceiveAudio,
            ClipAction::WriteAudio { pts: 2_024, samples: 10 },
            ClipAction::ReceiveAudio,
            ClipAction::Synchronize,
        ]
    );
    assert_eq!(player.timeline, Timeline { video_pts: 103, audio_pts: 2_034 });
    assert_eq!((player.decoded_video_frames, player.decoded_audio_samples), (3, 1_034));
    assert!(!player.accepts(ClipEvent::Done));
}

#[test]
fn a_clip_without_video_reports_its_end_at_once() {
    let mut player = open(None, Some(0));
    let actions = run(
        &mut player,
        &[
            ClipEvent::Done,
            ClipEvent::Done,
            ClipEvent::Packet(0),
            ClipEvent::Done,
            ClipEvent::AudioFrame(5),
            ClipEvent::Done,
            ClipEvent::NoFrame,
            ClipEvent::InputEnded,
            ClipEvent::Done,
            ClipEvent::NoFrame,
        ],
    );
    assert_eq!(actions[0], ClipAction::ReportVideoFinished);
    assert_eq!(actions[1], ClipAction::ReadPacket);
    assert_eq!(actions[7], ClipAction::FlushAudio);
    assert_eq!(actions[9], ClipAction::Synchronize);
    let reports =
        actions.iter().filter(|action| **action == ClipAction::ReportVideoFinished).count();
    assert_eq!(reports, 1);
}

#[test]
fn a_clip_without_audio_ends_with_its_video() {
    let mut player = open(Some(3), None);
    let actions = run(
        &mut player,
        &[
            ClipEvent::Done,
            ClipEvent::InputEnded,
            ClipEvent::Done,
            ClipEvent::VideoFrame(None),
            ClipEvent::Done,
            ClipEvent::Done,
            ClipEvent::NoFrame,
            ClipEvent::Done,
        ],
    );
    assert_eq!(*actions.last().unwrap(), ClipAction::Synchronize);
    assert_eq!(player.timeline, Timeline { video_pts: 101, audio_pts: 1_000 });
}

#[test]
fn an_input_without_frames_fails() {
    let mut player = open(Some(0), Some(1));
    let actions = run(
        &mut player,
        &[
            ClipEvent::Done,
            ClipEvent::InputEnded,
            ClipEvent::Done,
            ClipEvent::NoFrame,
            ClipEvent::Done,
            ClipEvent::Done,
            ClipEvent::NoFrame,
        ],
    );
    assert_eq!(
        *actions.last().unwrap(),
        ClipAction::Fail(ClipError::NothingDecoded)
    );
}

#[test]
fn unexpected_events_are_refused() {
    let player = open(Some(0), Some(1));
    assert!(!player.accepts(ClipEvent::NoFrame));
    assert!(!player.accepts(ClipEvent::Packet(0)));
    let mut player = open(None, Some(1));
    run(&mut player, &[ClipEvent::Done, ClipEvent::Done, ClipEvent::Packet(1), ClipEvent::Done]);
    assert!(!player.accepts(ClipEvent::AudioFrame(-1)));
    run(&mut player, &[ClipEvent::AudioFrame(i64::MAX)]);
    assert!(!player.accepts(ClipEvent::Done));
}

#[test]
fn durations_come_from_the_container_first() {
    assert!(matches!(
        stream_duration(90_000, Rational(1, 45_000), Some("00:00:01"), None),
        StreamDuration::Micros(2_000_000)
    ));
    match stream_duration(0, Rational(1, 1), Some("01:02:03.500"), Some("x")) {
        StreamDuration::Fields(hours, minutes, seconds) => {
            assert_eq!((&hours[..], &minutes[..], &seconds[..]), ("01", "02", "03.500"));
        }
        other => panic!("{other:?}"),
    }
    match stream_duration(-1, Rational(1, 1), None, Some("::")) {
        StreamDuration::Fields(hours, minutes, seconds) => {
            assert_eq!((&hours[..], &minutes[..], &seconds[..]), ("", "", ""));
        }
        other => panic!("{other:?}"),
    }
    assert!(matches!(
        stream_duration(0, Rational(1, 1), Some("invalid"), Some("1:2:3")),
        StreamDuration::Unknown
    ));
    assert!(matches!(stream_duration(0, Rational(1, 1), None, None), StreamDuration::Unknown));
}

#[test]
fn durations_have_three_parts() {
    assert!(duration_fields("1:2").is_none());
    assert!(duration_fields("1:2:3:4").is_none());
    assert_eq!(
        duration_fields("00:00:12.000000000"),
        Some(("00".to_string(), "00".to_string(), "12.000000000".to_string()))
    );
}
