//! The continuous output timeline: timestamps, fallback material and the
//! padding that keeps audio and video together.
use vstd::arithmetic::div_mod::lemma_fundamental_div_mod;
use vstd::prelude::*;

verus! {

/// The timestamps of the next video frame and of the next audio sample.
#[derive(Clone, Copy, Debug, PartialEq, Eq, Structural)]
pub struct Timeline {
    /// The number of the next video frame.
    pub video_pts: i64,
    /// The number of the next audio sample.
    pub audio_pts: i64,
}

/// Why two streams cannot be brought to a common end.
#[derive(Clone, Copy, Debug, PartialEq, Eq, Structural)]
pub enum PaddingError {
    /// The frame rate or the sample rate is zero.
    InvalidRates,
    /// More video frames are missing than 64 bits can count.
    VideoPaddingExceedsI64,
    /// More audio samples are missing than 64 bits can count.
    AudioPaddingExceedsI64,
}

/// One piece of synthetic output.
#[derive(Clone, Copy, Debug, PartialEq, Eq, Structural)]
pub enum FillStep {
    /// A black video frame.
    Black {
        /// Its timestamp.
        pts: i64,
    },
    /// A run of silent audio samples.
    Silence {
        /// The timestamp of the first sample.
        pts: i64,
        /// How many samples there are.
        samples: i64,
    },
}

/// The end of a stretch of synthetic output.
#[derive(Clone, Copy, Debug, PartialEq, Eq, Structural)]
pub struct FillGoal {
    /// The video timestamp to reach.
    pub video_end: i64,
    /// The audio timestamp to reach.
    pub audio_end: i64,
}

/// Black frames and silent samples that are still to be written.
#[derive(Clone, Copy, Debug, PartialEq, Eq, Structural)]
pub struct SyncPlan {
    /// The number of black frames.
    pub video_frames: i64,
    /// The number of silent samples.
    pub audio_samples: i64,
}

/// Division that rounds towards zero.
pub open spec fn trunc_div(n: int, d: int) -> int {
    if n >= 0 {
        n / d
    } else {
        -((-n) / d)
    }
}

/// The quotient of [`div_ceil`].
pub open spec fn div_ceil_spec(n: int, d: int) -> int {
    trunc_div(n + d - 1, d)
}

/// Where video has to end so that it is not shorter than audio.
pub open spec fn padded_video_end(video: int, audio: int, fps: int, rate: int) -> int {
    if video * rate < audio * fps {
        div_ceil_spec(audio * fps, rate)
    } else {
        video
    }
}

/// Where audio has to end so that it is not shorter than video that ends at
/// `video`.
pub open spec fn padded_audio_end(video: int, audio: int, fps: int, rate: int) -> int {
    if audio * fps < video * rate {
        div_ceil_spec(video * rate, fps)
    } else {
        audio
    }
}

/// The frames and samples that are missing for a common end.
pub open spec fn padding_spec(video: int, audio: int, fps: int, rate: int) -> Result<
    (int, int),
    PaddingError,
> {
    let video_end = padded_video_end(video, audio, fps, rate);
    let audio_end = padded_audio_end(video_end, audio, fps, rate);
    if fps == 0 || rate == 0 {
        Err(PaddingError::InvalidRates)
    } else if !(i64::MIN <= video_end - video <= i64::MAX) {
        Err(PaddingError::VideoPaddingExceedsI64)
    } else if !(i64::MIN <= audio_end - audio <= i64::MAX) {
        Err(PaddingError::AudioPaddingExceedsI64)
    } else {
        Ok((video_end - video, audio_end - audio))
    }
}

/// The timeline after a step.
pub open spec fn stepped(timeline: (int, int), step: FillStep) -> (int, int) {
    match step {
        FillStep::Black { .. } => (timeline.0 + 1, timeline.1),
        FillStep::Silence { samples, .. } => (timeline.0, timeline.1 + samples),
    }
}

/// The smaller of `wanted` and the size of an audio frame, which counts as one
/// when it is unknown.
pub open spec fn silence_chunk(wanted: int, frame_size: int) -> int {
    let limit = if frame_size < 1 {
        1
    } else {
        frame_size
    };
    if wanted < limit {
        wanted
    } else {
        limit
    }
}

/// Whether the next piece of fallback output is a video frame: video is still
/// missing, and it is not ahead of audio or audio is complete. `not_ahead` says
/// how the times of the two streams compare.
pub open spec fn video_is_next(timeline: (int, int), goal: (int, int), not_ahead: bool) -> bool {
    timeline.0 < goal.0 && (timeline.1 >= goal.1 || not_ahead)
}

/// The next piece of fallback output.
pub open spec fn fallback_step_spec(
    timeline: (int, int),
    goal: (int, int),
    not_ahead: bool,
    frame_size: int,
) -> Option<FillStep> {
    if timeline.0 >= goal.0 && timeline.1 >= goal.1 {
        None
    } else if video_is_next(timeline, goal, not_ahead) {
        Some(FillStep::Black { pts: timeline.0 as i64 })
    } else {
        Some(
            FillStep::Silence {
                pts: timeline.1 as i64,
                samples: silence_chunk(goal.1 - timeline.1, frame_size) as i64,
            },
        )
    }
}

/// The next piece of padding: all black frames come before the silence.
pub open spec fn sync_step_spec(
    timeline: (int, int),
    plan: SyncPlan,
    frame_size: int,
) -> Option<FillStep> {
    if plan.video_frames > 0 {
        Some(FillStep::Black { pts: timeline.0 as i64 })
    } else if plan.audio_samples > 0 {
        Some(
            FillStep::Silence {
                pts: timeline.1 as i64,
                samples: silence_chunk(plan.audio_samples as int, frame_size) as i64,
            },
        )
    } else {
        None
    }
}

/// What is left of a plan after a step.
pub open spec fn plan_after(plan: SyncPlan, step: FillStep) -> SyncPlan {
    match step {
        FillStep::Black { .. } => SyncPlan {
            video_frames: (plan.video_frames - 1) as i64,
            audio_samples: plan.audio_samples,
        },
        FillStep::Silence { samples, .. } => SyncPlan {
            video_frames: plan.video_frames,
            audio_samples: (plan.audio_samples - samples) as i64,
        },
    }
}

/// For a numerator that is not negative and a positive denominator,
/// [`div_ceil`] gives the quotient rounded up.
pub proof fn law_div_ceil_rounds_up(n: int, d: int)
    requires
        n >= 0,
        d > 0,
    ensures
        (div_ceil_spec(n, d) - 1) * d < n <= div_ceil_spec(n, d) * d,
{
    lemma_quotient_bound(n, d);
    let q = div_ceil_spec(n, d);
    assert((q - 1) * d == q * d - d) by (nonlinear_arith);
}

/// Padding brings both streams to a common end: afterwards audio covers video
/// and is longer by less than one sample. No black frame and no silent sample
/// more than needed is written.
pub proof fn law_padding_aligns_streams(video: int, audio: int, fps: int, rate: int)
    requires
        video >= 0,
        audio >= 0,
        fps > 0,
        rate > 0,
    ensures
        padding_spec(video, audio, fps, rate) matches Ok((frames, samples)) ==> {
            &&& frames >= 0
            &&& samples >= 0
            &&& (video + frames) * rate <= (audio + samples) * fps
            &&& (audio + samples) * fps < (video + frames) * rate + fps
            &&& frames > 0 ==> (video + frames - 1) * rate < audio * fps
            &&& samples > 0 ==> (audio + samples - 1) * fps < (video + frames) * rate
        },
{
    let video_end = padded_video_end(video, audio, fps, rate);
    let audio_end = padded_audio_end(video_end, audio, fps, rate);
    assert(video * rate >= 0 && audio * fps >= 0) by (nonlinear_arith)
        requires
            video >= 0,
            audio >= 0,
            fps > 0,
            rate > 0,
    ;
    if video * rate < audio * fps {
        law_div_ceil_rounds_up(audio * fps, rate);
        assert(video < video_end) by (nonlinear_arith)
            requires
                rate > 0,
                video * rate < audio * fps,
                audio * fps <= video_end * rate,
        ;
    }
    assert(video_end * rate >= 0) by (nonlinear_arith)
        requires
            video_end >= 0,
            rate > 0,
    ;
    if audio * fps < video_end * rate {
        law_div_ceil_rounds_up(video_end * rate, fps);
        assert(audio < audio_end) by (nonlinear_arith)
            requires
                fps > 0,
                audio * fps < video_end * rate,
                video_end * rate <= audio_end * fps,
        ;
        assert((audio_end - 1) * fps == audio_end * fps - fps) by (nonlinear_arith);
    }
}

/// When a video frame lasts a whole number of audio samples, padding makes
/// both streams end at exactly the same time, and a second padding finds
/// nothing to do.
pub proof fn law_padding_is_exact_for_whole_frames(video: int, audio: int, fps: int, rate: int)
    requires
        video >= 0,
        audio >= 0,
        fps > 0,
        rate > 0,
        rate % fps == 0,
    ensures
        padding_spec(video, audio, fps, rate) matches Ok((frames, samples)) ==> {
            &&& (video + frames) * rate == (audio + samples) * fps
            &&& padding_spec(video + frames, audio + samples, fps, rate) == Ok::<
                (int, int),
                PaddingError,
            >((0, 0))
        },
{
    law_padding_aligns_streams(video, audio, fps, rate);
    if let Ok((frames, samples)) = padding_spec(video, audio, fps, rate) {
        let per_frame = rate / fps;
        lemma_fundamental_div_mod(rate, fps);
        let v = video + frames;
        let a = audio + samples;
        assert(v * rate == (v * per_frame) * fps) by (nonlinear_arith)
            requires
                rate == fps * per_frame,
        ;
        assert(a == v * per_frame) by (nonlinear_arith)
            requires
                fps > 0,
                (v * per_frame) * fps <= a * fps,
                a * fps < (v * per_frame) * fps + fps,
        ;
    }
}

/// Padding succeeds whenever its counts fit into 64 bits. It fails for want of
/// space only when no number of black frames that fits lets video cover audio,
/// or when no number of silent samples that fits lets audio cover video once
/// video covers audio. It always fails without a rate.
pub proof fn law_padding_succeeds_when_it_fits(video: int, audio: int, fps: int, rate: int)
    requires
        video >= 0,
        audio >= 0,
        fps >= 0,
        rate >= 0,
    ensures
        fps == 0 || rate == 0 ==> padding_spec(video, audio, fps, rate) == Err::<
            (int, int),
            PaddingError,
        >(PaddingError::InvalidRates),
        fps > 0 && rate > 0 ==> match padding_spec(video, audio, fps, rate) {
            Ok(_) => true,
            Err(PaddingError::InvalidRates) => false,
            Err(PaddingError::VideoPaddingExceedsI64) => forall|frames: int|
                frames <= i64::MAX ==> #[trigger] ((video + frames) * rate) < audio * fps,
            Err(PaddingError::AudioPaddingExceedsI64) => forall|frames: int, samples: int|
                #![trigger ((video + frames) * rate), ((audio + samples) * fps)]
                0 <= frames && (video + frames) * rate >= audio * fps && samples <= i64::MAX ==> (
                audio + samples) * fps < (video + frames) * rate,
        },
{
    if fps > 0 && rate > 0 {
        let video_end = padded_video_end(video, audio, fps, rate);
        let audio_end = padded_audio_end(video_end, audio, fps, rate);
        assert(video * rate >= 0 && audio * fps >= 0) by (nonlinear_arith)
            requires
                video >= 0,
                audio >= 0,
                fps > 0,
                rate > 0,
        ;
        if video * rate < audio * fps {
            law_div_ceil_rounds_up(audio * fps, rate);
            assert(video_end > video) by (nonlinear_arith)
                requires
                    rate > 0,
                    video * rate < audio * fps,
                    audio * fps <= video_end * rate,
            ;
        }
        assert(video_end * rate >= 0) by (nonlinear_arith)
            requires
                video_end >= 0,
                rate > 0,
        ;
        if audio * fps < video_end * rate {
            law_div_ceil_rounds_up(video_end * rate, fps);
            assert(audio_end > audio) by (nonlinear_arith)
                requires
                    fps > 0,
                    audio * fps < video_end * rate,
                    video_end * rate <= audio_end * fps,
            ;
        }
        if video_end - video > i64::MAX {
            assert forall|frames: int| frames <= i64::MAX implies #[trigger] ((video + frames)
                * rate) < audio * fps by {
                assert((video + frames) * rate <= (video_end - 1) * rate) by (nonlinear_arith)
                    requires
                        video + frames <= video_end - 1,
                        rate > 0,
                ;
            }
        } else if audio_end - audio > i64::MAX {
            assert forall|frames: int, samples: int|
                #![trigger ((video + frames) * rate), ((audio + samples) * fps)]
                0 <= frames && (video + frames) * rate >= audio * fps && samples
                    <= i64::MAX implies (audio + samples) * fps < (video + frames) * rate by {
                assert(video + frames >= video_end) by {
                    if video * rate < audio * fps {
                        assert(video + frames > video_end - 1) by (nonlinear_arith)
                            requires
                                rate > 0,
                                (video_end - 1) * rate < audio * fps,
                                (video + frames) * rate >= audio * fps,
                        ;
                    }
                }
                assert((audio + samples) * fps <= (audio_end - 1) * fps) by (nonlinear_arith)
                    requires
                        audio + samples <= audio_end - 1,
                        fps > 0,
                ;
                assert(video_end * rate <= (video + frames) * rate) by (nonlinear_arith)
                    requires
                        video_end <= video + frames,
                        rate > 0,
                ;
            }
        }
    }
}

/// Streams that end together need no padding.
pub proof fn law_aligned_streams_need_no_padding(video: int, audio: int, fps: int, rate: int)
    requires
        fps > 0,
        rate > 0,
        video * rate == audio * fps,
    ensures
        padding_spec(video, audio, fps, rate) == Ok::<(int, int), PaddingError>((0, 0)),
{
}

/// Below zero, where it rounds towards zero, [`div_ceil`] gives the quotient
/// of what is left when the denominator, less one, is added.
pub proof fn law_div_ceil_below_zero(n: int, d: int)
    requires
        d > 0,
        n + d - 1 <= 0,
    ensures
        (div_ceil_spec(n, d) - 1) * d < n + d - 1 <= div_ceil_spec(n, d) * d,
{
    let m = -(n + d - 1);
    lemma_fundamental_div_mod(m, d);
    let q = m / d;
    assert(m == d * q + m % d && 0 <= m % d < d) by (nonlinear_arith)
        requires
            m == d * (m / d) + m % d,
            q == m / d,
            d > 0,
    ;
    assert(div_ceil_spec(n, d) == -q) by {
        if n + d - 1 == 0 {
            assert(0int / d == 0) by (nonlinear_arith)
                requires
                    d > 0,
            ;
        }
    }
    assert((-q - 1) * d == -(d * q) - d) by (nonlinear_arith);
    assert((-q) * d == -(d * q)) by (nonlinear_arith);
}

/// The expected end of a clip is the first frame boundary that is not before
/// the end of its duration.
pub proof fn law_clip_ends_with_its_last_frame(timeline: Timeline, duration_us: i64, fps: u32)
    requires
        duration_us >= 0,
        duration_us * fps <= 1_000_000 * i64::MAX,
    ensures
        match timeline.clip_video_end_spec(duration_us, fps) {
            Some(end) => {
                let frames = end - timeline.video_pts;
                (frames - 1) * 1_000_000 < duration_us * fps <= frames * 1_000_000
            },
            None => forall|frames: int|
                #![trigger (frames * 1_000_000)]
                frames * 1_000_000 >= duration_us * fps ==> timeline.video_pts + frames > i64::MAX,
        },
{
    let total = duration_us * fps;
    assert(total >= 0) by (nonlinear_arith)
        requires
            total == duration_us * fps,
            duration_us >= 0,
            fps >= 0,
    ;
    law_div_ceil_rounds_up(total, 1_000_000);
    let frames = div_ceil_spec(total, 1_000_000);
    assert(0 <= frames <= i64::MAX);
    assert(frames as i64 == frames);
}

/// Fallback output goes by the comparison of times while both streams are
/// incomplete, and completes the one that is left.
pub proof fn law_fallback_chooses_the_stream(
    timeline: (int, int),
    goal: (int, int),
    not_ahead: bool,
    frame_size: int,
)
    requires
        in_range(timeline),
        in_range(goal),
    ensures
        ({
            let step = fallback_step_spec(timeline, goal, not_ahead, frame_size);
            &&& (step is None) == (timeline.0 >= goal.0 && timeline.1 >= goal.1)
            &&& timeline.0 < goal.0 && timeline.1 < goal.1 ==> (step matches Some(step) && (
            step is Black) == not_ahead)
            &&& timeline.0 < goal.0 && timeline.1 >= goal.1 ==> (step matches Some(step)
                && step is Black)
            &&& timeline.0 >= goal.0 && timeline.1 < goal.1 ==> (step matches Some(step)
                && step is Silence)
        }),
{
}

/// Silence comes in whole audio frames: a piece of it is as long as an audio
/// frame, and only the last one may be shorter. An unknown length counts as
/// one sample.
pub proof fn law_silence_comes_in_whole_frames(
    timeline: (int, int),
    goal: (int, int),
    plan: SyncPlan,
    not_ahead: bool,
    frame_size: int,
)
    requires
        in_range(timeline),
        in_range(goal),
        0 <= frame_size <= i64::MAX,
    ensures
        fallback_step_spec(timeline, goal, not_ahead, frame_size) matches Some(
            FillStep::Silence { samples, .. },
        ) ==> is_whole(samples as int, goal.1 - timeline.1, frame_size),
        sync_step_spec(timeline, plan, frame_size) matches Some(FillStep::Silence { samples, .. })
            ==> is_whole(samples as int, plan.audio_samples as int, frame_size),
{
}

/// Whether a piece is a whole audio frame, or all that is missing where that
/// is less.
pub open spec fn is_whole(samples: int, missing: int, frame_size: int) -> bool {
    &&& 0 < samples <= missing
    &&& samples <= frame_size || (frame_size == 0 && samples == 1)
    &&& samples == missing || samples == frame_size || (frame_size == 0 && samples == 1)
}

/// Padding writes its black frames before its silence, and stops when both are
/// written.
pub proof fn law_padding_writes_black_first(
    timeline: (int, int),
    plan: SyncPlan,
    frame_size: int,
)
    requires
        in_range(timeline),
        0 <= frame_size <= i64::MAX,
    ensures
        ({
            let step = sync_step_spec(timeline, plan, frame_size);
            &&& plan.video_frames > 0 ==> (step matches Some(FillStep::Black { pts }) && pts
                == timeline.0 && plan_after(plan, step->Some_0) == (SyncPlan {
                video_frames: (plan.video_frames - 1) as i64,
                audio_samples: plan.audio_samples,
            }))
            &&& plan.video_frames <= 0 && plan.audio_samples > 0 ==> (step matches Some(
                FillStep::Silence { pts, samples },
            ) && pts == timeline.1 && plan_after(plan, step->Some_0) == (SyncPlan {
                video_frames: plan.video_frames,
                audio_samples: (plan.audio_samples - samples) as i64,
            }))
            &&& plan.video_frames <= 0 && plan.audio_samples <= 0 ==> step is None
        }),
{
}

/// The timeline after a list of steps.
pub open spec fn replayed(timeline: (int, int), steps: Seq<FillStep>) -> (int, int)
    decreases steps.len(),
{
    if steps.len() == 0 {
        timeline
    } else {
        replayed(stepped(timeline, steps[0]), steps.skip(1))
    }
}

/// Whether every step carries the timestamp that the timeline has reached, so
/// that there is neither a gap nor an overlap.
pub open spec fn is_continuous(timeline: (int, int), steps: Seq<FillStep>) -> bool
    decreases steps.len(),
{
    steps.len() > 0 ==> {
        &&& match steps[0] {
            FillStep::Black { pts } => pts == timeline.0,
            FillStep::Silence { pts, samples } => pts == timeline.1 && samples > 0,
        }
        &&& is_continuous(stepped(timeline, steps[0]), steps.skip(1))
    }
}

/// How much is missing to reach a goal.
pub open spec fn missing(timeline: (int, int), goal: (int, int)) -> nat {
    ((if timeline.0 < goal.0 {
        goal.0 - timeline.0
    } else {
        0
    }) + (if timeline.1 < goal.1 {
        goal.1 - timeline.1
    } else {
        0
    })) as nat
}

/// Whether both timestamps fit into 64 bits.
pub open spec fn in_range(timeline: (int, int)) -> bool {
    &&& i64::MIN <= timeline.0 <= i64::MAX
    &&& i64::MIN <= timeline.1 <= i64::MAX
}

/// A step of fallback output takes the timeline nearer to its goal and never
/// beyond it.
pub proof fn lemma_fallback_step_progress(
    timeline: (int, int),
    goal: (int, int),
    not_ahead: bool,
    frame_size: int,
)
    requires
        in_range(timeline),
        in_range(goal),
        frame_size <= i64::MAX,
    ensures
        fallback_step_spec(timeline, goal, not_ahead, frame_size) matches Some(step) ==> {
            &&& missing(stepped(timeline, step), goal) < missing(timeline, goal)
            &&& in_range(stepped(timeline, step))
            &&& timeline.0 <= goal.0 ==> stepped(timeline, step).0 <= goal.0
            &&& timeline.1 <= goal.1 ==> stepped(timeline, step).1 <= goal.1
            &&& timeline.0 > goal.0 ==> stepped(timeline, step).0 == timeline.0
            &&& timeline.1 > goal.1 ==> stepped(timeline, step).1 == timeline.1
            &&& is_continuous(timeline, seq![step])
        },
{
    if let Some(step) = fallback_step_spec(timeline, goal, not_ahead, frame_size) {
        assert(seq![step].skip(1) =~= Seq::empty());
        assert(is_continuous(stepped(timeline, step), seq![step].skip(1)));
    }
}

/// All pieces of a stretch of fallback output. `not_ahead` says for each
/// timeline whether the time of video is not ahead of that of audio.
pub open spec fn fallback_run(
    timeline: (int, int),
    goal: (int, int),
    not_ahead: spec_fn((int, int)) -> bool,
    frame_size: int,
) -> Seq<FillStep>
    decreases missing(timeline, goal),
    when in_range(timeline) && in_range(goal) && frame_size <= i64::MAX
{
    proof {
        lemma_fallback_step_progress(timeline, goal, not_ahead(timeline), frame_size);
    }
    match fallback_step_spec(timeline, goal, not_ahead(timeline), frame_size) {
        None => Seq::empty(),
        Some(step) => seq![step] + fallback_run(
            stepped(timeline, step),
            goal,
            not_ahead,
            frame_size,
        ),
    }
}

/// However the times of the two streams compare, fallback output ends exactly
/// at its goal, and its timestamps run on from the timeline without a gap.
pub proof fn law_fallback_fills_exactly(
    timeline: (int, int),
    goal: (int, int),
    not_ahead: spec_fn((int, int)) -> bool,
    frame_size: int,
)
    requires
        in_range(timeline),
        in_range(goal),
        frame_size <= i64::MAX,
        timeline.0 <= goal.0,
        timeline.1 <= goal.1,
    ensures
        replayed(timeline, fallback_run(timeline, goal, not_ahead, frame_size)) == goal,
        is_continuous(timeline, fallback_run(timeline, goal, not_ahead, frame_size)),
    decreases missing(timeline, goal),
{
    lemma_fallback_step_progress(timeline, goal, not_ahead(timeline), frame_size);
    if let Some(step) = fallback_step_spec(timeline, goal, not_ahead(timeline), frame_size) {
        let next = stepped(timeline, step);
        let rest = fallback_run(next, goal, not_ahead, frame_size);
        law_fallback_fills_exactly(next, goal, not_ahead, frame_size);
        assert((seq![step] + rest).skip(1) =~= rest);
    }
}

/// While both streams are incomplete and their times are compared exactly,
/// fallback output keeps them together: video is ahead by at most one frame,
/// and audio by at most one audio frame.
pub proof fn law_fallback_keeps_streams_together(
    timeline: (int, int),
    goal: (int, int),
    fps: int,
    rate: int,
    frame_size: int,
)
    requires
        in_range(timeline),
        in_range(goal),
        fps > 0,
        rate > 0,
        1 <= frame_size <= i64::MAX,
        timeline.0 < goal.0,
        timeline.1 < goal.1,
        timeline.0 * rate <= timeline.1 * fps + rate,
        timeline.1 * fps <= timeline.0 * rate + frame_size * fps,
    ensures
        fallback_step_spec(
            timeline,
            goal,
            timeline.0 * rate <= timeline.1 * fps,
            frame_size,
        ) matches Some(step) && {
            let next = stepped(timeline, step);
            &&& next.0 * rate <= next.1 * fps + rate
            &&& next.1 * fps <= next.0 * rate + frame_size * fps
        },
{
    let (v, a) = timeline;
    assert((v + 1) * rate == v * rate + rate) by (nonlinear_arith);
    let n = silence_chunk(goal.1 - a, frame_size);
    assert((a + n) * fps == a * fps + n * fps) by (nonlinear_arith);
    assert(0 <= n * fps <= frame_size * fps) by (nonlinear_arith)
        requires
            0 <= n <= frame_size,
            fps > 0,
    ;
}

/// Counts of padding fit into 64 bits, wherever the streams stand; where one
/// does not fit, padding fails.
pub proof fn law_padding_fits(video: int, audio: int, fps: int, rate: int)
    ensures
        padding_spec(video, audio, fps, rate) matches Ok((frames, samples)) ==> {
            &&& i64::MIN <= frames <= i64::MAX
            &&& i64::MIN <= samples <= i64::MAX
            &&& video * rate >= audio * fps ==> frames == 0
            &&& audio * fps >= (video + frames) * rate ==> samples == 0
        },
{
}

/// All pieces of a plan of padding.
pub open spec fn sync_run(timeline: (int, int), plan: SyncPlan, frame_size: int) -> Seq<FillStep>
    decreases
            (if plan.video_frames > 0 {
                plan.video_frames as int
            } else {
                0
            }) + (if plan.audio_samples > 0 {
                plan.audio_samples as int
            } else {
                0
            }),
    when frame_size <= i64::MAX
{
    match sync_step_spec(timeline, plan, frame_size) {
        None => Seq::empty(),
        Some(step) => seq![step] + sync_run(
            stepped(timeline, step),
            plan_after(plan, step),
            frame_size,
        ),
    }
}

/// Padding writes exactly the frames and samples of its plan, and its
/// timestamps run on from the timeline without a gap.
pub proof fn law_sync_writes_the_plan(timeline: (int, int), plan: SyncPlan, frame_size: int)
    requires
        plan.video_frames >= 0,
        plan.audio_samples >= 0,
        frame_size <= i64::MAX,
        in_range(timeline),
        in_range((timeline.0 + plan.video_frames, timeline.1 + plan.audio_samples)),
    ensures
        replayed(timeline, sync_run(timeline, plan, frame_size)) == (
            timeline.0 + plan.video_frames,
            timeline.1 + plan.audio_samples,
        ),
        is_continuous(timeline, sync_run(timeline, plan, frame_size)),
    decreases plan.video_frames + plan.audio_samples,
{
    if let Some(step) = sync_step_spec(timeline, plan, frame_size) {
        let next = stepped(timeline, step);
        let left = plan_after(plan, step);
        let rest = sync_run(next, left, frame_size);
        law_sync_writes_the_plan(next, left, frame_size);
        assert((seq![step] + rest).skip(1) =~= rest);
    }
}

/// After the padding of [`Timeline::sync_plan`] is written, audio covers video
/// and is longer by less than one sample.
pub proof fn law_written_padding_aligns_streams(
    timeline: (int, int),
    plan: SyncPlan,
    fps: int,
    rate: int,
    frame_size: int,
)
    requires
        timeline.0 >= 0,
        timeline.1 >= 0,
        fps > 0,
        rate > 0,
        frame_size <= i64::MAX,
        padding_spec(timeline.0, timeline.1, fps, rate) == Ok::<(int, int), PaddingError>(
            (plan.video_frames as int, plan.audio_samples as int),
        ),
        in_range((timeline.0 + plan.video_frames, timeline.1 + plan.audio_samples)),
    ensures
        ({
            let end = replayed(timeline, sync_run(timeline, plan, frame_size));
            end.0 * rate <= end.1 * fps < end.0 * rate + fps
        }),
{
    law_padding_aligns_streams(timeline.0, timeline.1, fps, rate);
    law_sync_writes_the_plan(timeline, plan, frame_size);
}

impl Timeline {
    /// The two timestamps.
    pub open spec fn stamps(self) -> (int, int) {
        (self.video_pts as int, self.audio_pts as int)
    }

    /// A timeline that starts at zero.
    pub fn new() -> (timeline: Self)
        ensures
            timeline.video_pts == 0,
            timeline.audio_pts == 0,
    {
        Timeline { video_pts: 0, audio_pts: 0 }
    }

    /// Counts a video frame that was written.
    pub fn video_written(&mut self)
        requires
            old(self).video_pts < i64::MAX,
        ensures
            final(self).stamps() == (old(self).video_pts + 1, old(self).audio_pts as int),
    {
        self.video_pts = self.video_pts + 1;
    }

    /// Counts audio samples that were written.
    pub fn audio_written(&mut self, samples: i64)
        requires
            i64::MIN <= old(self).audio_pts + samples <= i64::MAX,
        ensures
            final(self).stamps() == (old(self).video_pts as int, old(self).audio_pts + samples),
    {
        self.audio_pts = self.audio_pts + samples;
    }

    /// Counts a piece of synthetic output that was written.
    pub fn step_written(&mut self, step: FillStep)
        requires
            ({
                let after = stepped(old(self).stamps(), step);
                &&& after.0 <= i64::MAX
                &&& i64::MIN <= after.1 <= i64::MAX
            }),
        ensures
            final(self).stamps() == stepped(old(self).stamps(), step),
    {
        match step {
            FillStep::Black { .. } => self.video_written(),
            FillStep::Silence { samples, .. } => self.audio_written(samples),
        }
    }

    /// The black frames and silent samples that bring both streams to a common
    /// end.
    pub fn sync_plan(&self, fps: u32, sample_rate: u32) -> (plan: Result<SyncPlan, PaddingError>)
        ensures
            match (
                plan,
                padding_spec(
                    self.video_pts as int,
                    self.audio_pts as int,
                    fps as int,
                    sample_rate as int,
                ),
            ) {
                (Ok(plan), Ok(expected)) => plan.video_frames == expected.0 && plan.audio_samples
                    == expected.1,
                (Err(error), Err(expected)) => error == expected,
                _ => false,
            },
    {
        match padding_to_sync(self.video_pts, self.audio_pts, fps, sample_rate) {
            Ok((video_frames, audio_samples)) => Ok(SyncPlan { video_frames, audio_samples }),
            Err(error) => Err(error),
        }
    }

    /// The end of a stretch of fallback output that starts here.
    pub fn fallback_goal(&self, video_frames: i64, audio_samples: i64) -> (goal: FillGoal)
        requires
            i64::MIN <= self.video_pts + video_frames <= i64::MAX,
            i64::MIN <= self.audio_pts + audio_samples <= i64::MAX,
        ensures
            goal.video_end == self.video_pts + video_frames,
            goal.audio_end == self.audio_pts + audio_samples,
    {
        FillGoal {
            video_end: self.video_pts + video_frames,
            audio_end: self.audio_pts + audio_samples,
        }
    }

    /// The video timestamp at which a clip that starts here ends, where 64 bits
    /// can count it. Frames that are cut off by the end count as whole ones.
    pub open spec fn clip_video_end_spec(self, duration_us: i64, fps: u32) -> Option<int> {
        let frames = div_ceil_spec(duration_us * fps, 1_000_000) as i64;
        if i64::MIN <= self.video_pts + frames <= i64::MAX {
            Some(self.video_pts + frames)
        } else {
            None
        }
    }

    /// The video timestamp at which a clip that starts here ends.
    pub fn clip_video_end(&self, duration_us: i64, fps: u32) -> (end: i64)
        requires
            self.clip_video_end_spec(duration_us, fps) is Some,
        ensures
            self.clip_video_end_spec(duration_us, fps) == Some(end as int),
    {
        proof {
            lemma_product_bound(duration_us as int, fps as int);
        }
        let frames: i64 = div_ceil(duration_us as i128 * fps as i128, 1_000_000) as i64;
        self.video_pts + frames
    }
}

impl FillGoal {
    /// The two timestamps to reach.
    pub open spec fn ends(self) -> (int, int) {
        (self.video_end as int, self.audio_end as int)
    }

    /// The next piece of fallback output, or none when the goal is reached.
    /// `video_not_ahead` says whether the time that video has reached is at most
    /// the time that audio has reached.
    pub fn next_step(&self, timeline: &Timeline, video_not_ahead: bool, frame_size: usize) -> (step:
        Option<FillStep>)
        ensures
            step == fallback_step_spec(
                timeline.stamps(),
                self.ends(),
                video_not_ahead,
                frame_size as int,
            ),
    {
        if timeline.video_pts >= self.video_end && timeline.audio_pts >= self.audio_end {
            return None;
        }
        if timeline.video_pts < self.video_end && (timeline.audio_pts >= self.audio_end
            || video_not_ahead) {
            Some(FillStep::Black { pts: timeline.video_pts })
        } else {
            let missing: i128 = self.audio_end as i128 - timeline.audio_pts as i128;
            Some(
                FillStep::Silence {
                    pts: timeline.audio_pts,
                    samples: chunk_of(missing, frame_size) as i64,
                },
            )
        }
    }
}

impl SyncPlan {
    /// Takes the next piece of padding out of the plan.
    pub fn next_step(&mut self, timeline: &Timeline, frame_size: usize) -> (step: Option<FillStep>)
        ensures
            step == sync_step_spec(timeline.stamps(), *old(self), frame_size as int),
            match step {
                Some(taken) => *final(self) == plan_after(*old(self), taken),
                None => *final(self) == *old(self),
            },
    {
        if self.video_frames > 0 {
            self.video_frames = self.video_frames - 1;
            Some(FillStep::Black { pts: timeline.video_pts })
        } else if self.audio_samples > 0 {
            let samples: i64 = chunk_of(self.audio_samples as i128, frame_size) as i64;
            self.audio_samples = self.audio_samples - samples;
            Some(FillStep::Silence { pts: timeline.audio_pts, samples })
        } else {
            None
        }
    }
}

fn chunk_of(wanted: i128, frame_size: usize) -> (samples: i128)
    ensures
        samples == silence_chunk(wanted as int, frame_size as int),
{
    let limit: i128 = if frame_size < 1 {
        1
    } else {
        frame_size as i128
    };
    if wanted < limit {
        wanted
    } else {
        limit
    }
}

/// `(numerator + denominator - 1) / denominator`: the quotient rounded up,
/// when the numerator is not negative and the denominator positive.
pub fn div_ceil(numerator: i128, denominator: i128) -> (quotient: i128)
    requires
        denominator != 0,
        numerator + denominator <= i128::MAX,
        i128::MIN <= numerator + denominator - 1,
        !(numerator + denominator - 1 == i128::MIN && denominator == -1),
    ensures
        quotient == div_ceil_spec(numerator as int, denominator as int),
{
    proof {
        lemma_trunc_div_bound(numerator + denominator - 1, denominator as int);
    }
    (numerator + denominator - 1) / denominator
}

/// The black frames and silent samples that bring both streams to a common
/// end.
pub fn padding_to_sync(
    video_pts: i64,
    audio_pts: i64,
    fps: u32,
    sample_rate: u32,
) -> (padding: Result<(i64, i64), PaddingError>)
    ensures
        match (
            padding,
            padding_spec(video_pts as int, audio_pts as int, fps as int, sample_rate as int),
        ) {
            (Ok(counts), Ok(expected)) => counts.0 == expected.0 && counts.1 == expected.1,
            (Err(error), Err(expected)) => error == expected,
            _ => false,
        },
{
    if fps == 0 || sample_rate == 0 {
        return Err(PaddingError::InvalidRates);
    }
    let rate: i128 = sample_rate as i128;
    let frame_rate: i128 = fps as i128;
    let audio_end: i128 = audio_pts as i128;
    let mut video_end: i128 = video_pts as i128;
    let mut video_padding: i128 = 0;
    let mut audio_padding: i128 = 0;
    proof {
        lemma_product_bound(video_pts as int, rate as int);
        lemma_product_bound(audio_pts as int, frame_rate as int);
    }
    if video_end * rate < audio_end * frame_rate {
        let target: i128 = div_ceil(audio_end * frame_rate, rate);
        proof {
            lemma_quotient_bound(audio_end * frame_rate, rate as int);
        }
        video_padding = target - video_end;
        video_end = target;
    }
    if audio_end * frame_rate < video_end * rate {
        let target: i128 = div_ceil(video_end * rate, frame_rate);
        proof {
            lemma_quotient_bound(video_end * rate, frame_rate as int);
        }
        audio_padding = target - audio_end;
    }
    if video_padding < i64::MIN as i128 || video_padding > i64::MAX as i128 {
        return Err(PaddingError::VideoPaddingExceedsI64);
    }
    if audio_padding < i64::MIN as i128 || audio_padding > i64::MAX as i128 {
        return Err(PaddingError::AudioPaddingExceedsI64);
    }
    Ok((video_padding as i64, audio_padding as i64))
}

proof fn lemma_product_bound(a: int, b: int)
    by (nonlinear_arith)
    requires
        -0x8000_0000_0000_0000 <= a < 0x8000_0000_0000_0000,
        0 <= b < 0x1_0000_0000,
    ensures
        -0x8000_0000_0000_0000_0000_0000 <= a * b <= 0x8000_0000_0000_0000_0000_0000,
{
}

proof fn lemma_trunc_div_bound(n: int, d: int)
    requires
        d != 0,
    ensures
        n >= 0 ==> -n <= trunc_div(n, d) <= n,
        n < 0 ==> n <= trunc_div(n, d) <= -n,
        n < 0 && d != -1 ==> trunc_div(n, d) < -n,
{
    let m = if n >= 0 {
        n
    } else {
        -n
    };
    lemma_fundamental_div_mod(m, d);
    let q = m / d;
    let r = m % d;
    assert(-m <= q <= m) by (nonlinear_arith)
        requires
            d != 0,
            m >= 0,
            m == d * q + r,
            0 <= r,
            d > 0 ==> r < d,
            d < 0 ==> r < -d,
    ;
    if d != -1 && m > 0 {
        assert(-m < q) by (nonlinear_arith)
            requires
                d != 0,
                d != -1,
                m > 0,
                m == d * q + r,
                0 <= r,
                d > 0 ==> r < d,
                d < 0 ==> r < -d,
        ;
    }
}

proof fn lemma_quotient_bound(n: int, d: int)
    requires
        d > 0,
    ensures
        n >= 0 ==> 0 <= div_ceil_spec(n, d) <= n + 1 && n <= div_ceil_spec(n, d) * d < n + d,
        n < 0 ==> n <= div_ceil_spec(n, d) <= 0 && n <= div_ceil_spec(n, d) * d <= 0,
{
    let sum = n + d - 1;
    let q = if sum >= 0 {
        sum / d
    } else {
        (-sum) / d
    };
    if sum >= 0 {
        lemma_fundamental_div_mod(sum, d);
        let r = sum % d;
        assert(q >= 0) by (nonlinear_arith)
            requires
                sum == d * q + r,
                0 <= r < d,
                sum >= 0,
        ;
        assert(d * q == q * d) by (nonlinear_arith);
        if n >= 0 {
            assert(q <= n + 1) by (nonlinear_arith)
                requires
                    n >= 0,
                    d > 0,
                    q * d <= n + d - 1,
            ;
        } else {
            assert(q <= 0) by (nonlinear_arith)
                requires
                    n < 0,
                    d > 0,
                    q * d <= n + d - 1,
            ;
        }
    } else {
        lemma_fundamental_div_mod(-sum, d);
        let r = (-sum) % d;
        assert(q >= 0) by (nonlinear_arith)
            requires
                -sum == d * q + r,
                0 <= r < d,
                sum < 0,
        ;
        assert(q <= -n) by (nonlinear_arith)
            requires
                d * q <= -n - d + 1,
                d > 0,
                q >= 0,
        ;
        assert((-q) * d == -(d * q)) by (nonlinear_arith);
    }
    assert(div_ceil_spec(n, d) == 0 ==> div_ceil_spec(n, d) * d == 0) by (nonlinear_arith);
    assert(div_ceil_spec(n, d) <= 0 ==> div_ceil_spec(n, d) * d <= 0) by (nonlinear_arith)
        requires
            d > 0,
    ;
}

} // verus!
