use playout::timeline::{
    div_ceil, padding_to_sync, FillGoal, FillStep, PaddingError, SyncPlan, Timeline,
};

#[test]
fn pads_short_audio_to_video_duration() {
    assert_eq!(padding_to_sync(50, 95_000, 25, 48_000).unwrap(), (0, 1_000));
}

#[test]
fn pads_short_video_to_audio_duration() {
    assert_eq!(padding_to_sync(49, 96_000, 25, 48_000).unwrap(), (1, 0));
}

#[test]
fn rounds_both_streams_to_a_shared_boundary() {
    assert_eq!(padding_to_sync(30, 44_101, 30, 44_100).unwrap(), (1, 1_469));
}

#[test]
fn rejects_invalid_output_rates() {
    assert!(padding_to_sync(1, 1, 0, 48_000).is_err());
    assert!(padding_to_sync(1, 1, 25, 0).is_err());
}

#[test]
fn padding_errors() {
    assert_eq!(padding_to_sync(1, 1, 0, 48_000), Err(PaddingError::InvalidRates));
    assert_eq!(
        padding_to_sync(0, i64::MAX, u32::MAX, 1),
        Err(PaddingError::VideoPaddingExceedsI64)
    );
    assert_eq!(
        padding_to_sync(i64::MAX, 0, 1, u32::MAX),
        Err(PaddingError::AudioPaddingExceedsI64)
    );
}

#[test]
fn padding_aligns_streams() {
    for (video, audio) in [(0, 0), (1, 0), (0, 1), (10, 19_199), (10, 19_201), (7, 100_000)] {
        let (frames, samples) = padding_to_sync(video, audio, 25, 48_000).unwrap();
        assert_eq!((video + frames) * 48_000, (audio + samples) * 25);
        assert_eq!(
            padding_to_sync(video + frames, audio + samples, 25, 48_000).unwrap(),
            (0, 0)
        );
    }
}

#[test]
fn quotients_are_rounded_up() {
    assert_eq!(div_ceil(10, 5), 2);
    assert_eq!(div_ceil(11, 5), 3);
    assert_eq!(div_ceil(0, 5), 0);
    assert_eq!(div_ceil(-11, 5), -1);
}

#[test]
fn timelines_start_at_zero() {
    let mut timeline = Timeline::new();
    assert_eq!(timeline, Timeline { video_pts: 0, audio_pts: 0 });
    timeline.video_written();
    timeline.audio_written(1_024);
    assert_eq!(timeline, Timeline { video_pts: 1, audio_pts: 1_024 });
}

#[test]
fn clips_end_with_their_last_frame() {
    let timeline = Timeline { video_pts: 100, audio_pts: 0 };
    assert_eq!(timeline.clip_video_end(2_000_000, 25), 150);
    assert_eq!(timeline.clip_video_end(2_000_001, 25), 151);
}

fn video_not_ahead(timeline: &Timeline) -> bool {
    timeline.video_pts as f64 / 25.0 <= timeline.audio_pts as f64 / 48_000.0
}

fn play(timeline: &mut Timeline, goal: FillGoal, frame_size: usize) -> Vec<FillStep> {
    let mut steps = Vec::new();
    while let Some(step) = goal.next_step(timeline, video_not_ahead(timeline), frame_size) {
        timeline.step_written(step);
        steps.push(step);
    }
    steps
}

#[test]
fn fallback_fills_both_streams() {
    let mut timeline = Timeline { video_pts: 10, audio_pts: 19_200 };
    let goal = timeline.fallback_goal(3, 5_760);
    assert_eq!(goal, FillGoal { video_end: 13, audio_end: 24_960 });
    let steps = play(&mut timeline, goal, 1_024);
    assert_eq!(timeline, Timeline { video_pts: 13, audio_pts: 24_960 });
    assert_eq!(steps[0], FillStep::Black { pts: 10 });
    assert_eq!(steps[1], FillStep::Silence { pts: 19_200, samples: 1_024 });
    assert_eq!(steps[2], FillStep::Silence { pts: 20_224, samples: 1_024 });
    assert_eq!(steps[3], FillStep::Black { pts: 11 });
    assert_eq!(*steps.last().unwrap(), FillStep::Silence { pts: 24_320, samples: 640 });
}

#[test]
fn fallback_keeps_streams_together() {
    let mut timeline = Timeline::new();
    let goal = timeline.fallback_goal(250, 480_000);
    while let Some(step) = goal.next_step(&timeline, video_not_ahead(&timeline), 1_024) {
        timeline.step_written(step);
        let video = timeline.video_pts * 1_920;
        assert!(video <= timeline.audio_pts + 1_920);
        assert!(timeline.audio_pts <= video + 1_024);
    }
    assert_eq!(timeline, Timeline { video_pts: 250, audio_pts: 480_000 });
}

#[test]
fn an_unknown_frame_size_counts_as_one() {
    let mut timeline = Timeline::new();
    let goal = timeline.fallback_goal(0, 3);
    assert_eq!(
        play(&mut timeline, goal, 0),
        vec![
            FillStep::Silence { pts: 0, samples: 1 },
            FillStep::Silence { pts: 1, samples: 1 },
            FillStep::Silence { pts: 2, samples: 1 },
        ]
    );
}

#[test]
fn synchronising_writes_black_frames_first() {
    let mut timeline = Timeline { video_pts: 30, audio_pts: 44_101 };
    let mut plan = timeline.sync_plan(30, 44_100).unwrap();
    assert_eq!(plan, SyncPlan { video_frames: 1, audio_samples: 1_469 });
    let mut steps = Vec::new();
    while let Some(step) = plan.next_step(&timeline, 1_024) {
        timeline.step_written(step);
        steps.push(step);
    }
    assert_eq!(
        steps,
        vec![
            FillStep::Black { pts: 30 },
            FillStep::Silence { pts: 44_101, samples: 1_024 },
            FillStep::Silence { pts: 45_125, samples: 445 },
        ]
    );
    assert_eq!(timeline, Timeline { video_pts: 31, audio_pts: 45_570 });
    assert_eq!(
        timeline.sync_plan(30, 44_100).unwrap(),
        SyncPlan { video_frames: 0, audio_samples: 0 }
    );
    assert_eq!(timeline.sync_plan(0, 1), Err(PaddingError::InvalidRates));
}

#[test]
fn fallback_follows_the_comparison_of_times() {
    let timeline = Timeline { video_pts: 4, audio_pts: 7 };
    let goal = timeline.fallback_goal(1, 2);
    assert_eq!(goal.next_step(&timeline, true, 1_024), Some(FillStep::Black { pts: 4 }));
    assert_eq!(
        goal.next_step(&timeline, false, 1_024),
        Some(FillStep::Silence { pts: 7, samples: 2 })
    );
    let audio_done = Timeline { video_pts: 4, audio_pts: 9 };
    assert_eq!(goal.next_step(&audio_done, false, 1_024), Some(FillStep::Black { pts: 4 }));
    let video_done = Timeline { video_pts: 5, audio_pts: 7 };
    assert_eq!(
        goal.next_step(&video_done, true, 1),
        Some(FillStep::Silence { pts: 7, samples: 1 })
    );
    let done = Timeline { video_pts: 5, audio_pts: 9 };
    assert_eq!(goal.next_step(&done, true, 1), None);
}
