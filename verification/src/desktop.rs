//! Playback in a window: the audio device is the clock, and video frames are
//! shown when the audio has reached them.
//!
//! Moments are counted in nanoseconds from an arbitrary origin.
use crate::frame_rate::{
    at_least_zero, law_video_time_in_samples, rate_time_base, rate_time_base_spec,
    video_pts_in_audio_samples, video_pts_in_audio_samples_spec,
};
use crate::rational::{law_conversion_is_nearest, rescale, rescale_spec, Rational};
use std::collections::VecDeque;
use vstd::prelude::*;

verus! {

/// The number of audio channels.
pub const AUDIO_CHANNELS: usize = 2;

/// The number of samples in an audio frame.
pub const AUDIO_FRAME_SIZE: usize = 1024;

/// How much audio is queued before playback starts.
pub const AUDIO_PREBUFFER_MS: u64 = 100;

/// How much audio is queued at most.
pub const AUDIO_MAX_QUEUE_MS: u64 = 250;

/// How many frames the window may lag behind before it turns black.
pub const VIDEO_STARVATION_GRACE_FRAMES: i64 = 2;

/// The least time between two reports of missing video.
pub const REPORT_INTERVAL_NS: u64 = 1_000_000_000;

/// The larger of `a - b` and zero.
pub open spec fn saturating_difference(a: int, b: int) -> int {
    at_least_zero(a - b)
}

/// `a + b`, or the largest 64-bit number when that is too much.
pub open spec fn saturating_sum(a: int, b: int) -> int {
    if a + b > u64::MAX {
        u64::MAX as int
    } else {
        a + b
    }
}

/// The smaller of two numbers.
pub open spec fn smaller(a: int, b: int) -> int {
    if a < b {
        a
    } else {
        b
    }
}

/// The position of audio playback. The device takes samples in large pieces;
/// between two of them the clock advances with the time.
#[derive(Clone, Copy, Debug, PartialEq, Eq, Structural)]
pub struct AudioMasterClock {
    /// Samples per second.
    pub sample_rate: u32,
    /// The size of the pieces that the device takes.
    pub device_buffer_samples: u64,
    /// How many samples the device had taken at the last look.
    pub last_consumed_samples: u64,
    /// The position at the moment of the last change.
    pub anchor_samples: u64,
    /// The moment of the last change.
    pub anchor_time: u64,
}

impl AudioMasterClock {
    /// The clock once the device has taken `consumed` samples.
    pub open spec fn anchored(self, consumed: u64, now: u64) -> AudioMasterClock {
        if consumed == self.last_consumed_samples {
            self
        } else {
            AudioMasterClock {
                last_consumed_samples: consumed,
                anchor_samples: saturating_difference(
                    consumed as int,
                    self.device_buffer_samples as int,
                ) as u64,
                anchor_time: now,
                ..self
            }
        }
    }

    /// The position when the device has taken `consumed` samples and
    /// `elapsed_samples` could have been played since the last change. It never
    /// gets ahead of the device.
    pub open spec fn position_spec(self, consumed: u64, elapsed_samples: u64) -> int {
        if consumed == self.last_consumed_samples {
            smaller(
                saturating_sum(self.anchor_samples as int, elapsed_samples as int),
                consumed as int,
            )
        } else {
            saturating_difference(consumed as int, self.device_buffer_samples as int)
        }
    }

    /// A clock at the start.
    pub fn new(sample_rate: u32, device_buffer_samples: u64, now: u64) -> (clock: Self)
        ensures
            clock == (AudioMasterClock {
                sample_rate,
                device_buffer_samples,
                last_consumed_samples: 0,
                anchor_samples: 0,
                anchor_time: now,
            }),
    {
        AudioMasterClock {
            sample_rate,
            device_buffer_samples,
            last_consumed_samples: 0,
            anchor_samples: 0,
            anchor_time: now,
        }
    }

    /// Puts the clock back to the start.
    pub fn reset(&mut self, now: u64)
        ensures
            *final(self) == (AudioMasterClock {
                last_consumed_samples: 0,
                anchor_samples: 0,
                anchor_time: now,
                ..*old(self)
            }),
    {
        self.last_consumed_samples = 0;
        self.anchor_samples = 0;
        self.anchor_time = now;
    }

    /// The position of playback, from the samples that were handed to the
    /// device, those that still wait in its queue, and the number of samples
    /// that fit into the time from [`AudioMasterClock::anchor_time`] to `now`.
    pub fn position(
        &mut self,
        submitted: u64,
        queued: u64,
        now: u64,
        elapsed_samples: u64,
    ) -> (position: u64)
        ensures
            ({
                let consumed = saturating_difference(submitted as int, queued as int) as u64;
                &&& position == old(self).position_spec(consumed, elapsed_samples)
                &&& *final(self) == old(self).anchored(consumed, now)
            }),
    {
        let consumed: u64 = if submitted >= queued {
            submitted - queued
        } else {
            0
        };
        if consumed != self.last_consumed_samples {
            self.last_consumed_samples = consumed;
            self.anchor_samples = if consumed >= self.device_buffer_samples {
                consumed - self.device_buffer_samples
            } else {
                0
            };
            self.anchor_time = now;
            return self.anchor_samples;
        }
        let reached: u64 = if self.anchor_samples <= u64::MAX - elapsed_samples {
            self.anchor_samples + elapsed_samples
        } else {
            u64::MAX
        };
        if reached < consumed {
            reached
        } else {
            consumed
        }
    }
}

/// The clock stays between what the device has taken and one piece less.
pub proof fn law_clock_stays_with_the_device(
    clock: AudioMasterClock,
    consumed: u64,
    elapsed_samples: u64,
)
    requires
        clock.anchor_samples == saturating_difference(
            clock.last_consumed_samples as int,
            clock.device_buffer_samples as int,
        ),
    ensures
        clock.position_spec(consumed, elapsed_samples) <= consumed,
        clock.position_spec(consumed, elapsed_samples) >= consumed - clock.device_buffer_samples,
        clock.position_spec(consumed, elapsed_samples) >= 0,
        ({
            let after = clock.anchored(consumed, 0);
            after.anchor_samples == saturating_difference(
                after.last_consumed_samples as int,
                after.device_buffer_samples as int,
            )
        }),
{
}

/// The clock does not run backwards when the device takes whole pieces: later
/// positions are not before earlier ones.
pub proof fn law_clock_does_not_run_back(
    clock: AudioMasterClock,
    first_consumed: u64,
    first_elapsed: u64,
    first_now: u64,
    second_consumed: u64,
    second_elapsed: u64,
)
    requires
        second_consumed == first_consumed || second_consumed >= first_consumed
            + clock.device_buffer_samples,
        first_consumed == clock.last_consumed_samples ==> second_elapsed >= first_elapsed,
    ensures
        clock.anchored(first_consumed, first_now).position_spec(second_consumed, second_elapsed)
            >= clock.position_spec(first_consumed, first_elapsed),
{
}

/// A decoded video frame that waits for its time.
#[derive(Debug)]
pub struct QueuedFrame<F> {
    /// The frame.
    pub frame: F,
    /// Its timestamp.
    pub pts: Option<i64>,
}

/// What happened in the decoder that feeds the window.
pub enum DesktopMessage<F> {
    /// A clip begins.
    ClipStarted,
    /// A video frame was decoded.
    Video(QueuedFrame<F>),
    /// Audio samples were put into the queue of the device.
    AudioQueued {
        /// How many samples per channel.
        samples_per_channel: u64,
        /// How many bytes wait in the queue now.
        queued_bytes: u32,
    },
    /// Video is expected to end here.
    VideoEnd(Option<i64>),
    /// No more video follows.
    VideoFinished,
    /// The clip is complete.
    ClipFinished,
    /// The decoder is gone.
    Disconnected,
    /// Nothing happened for a while.
    Timeout,
}

/// What to do after a message.
#[derive(Clone, Copy, Debug, PartialEq, Eq, Structural)]
pub enum MessageStep {
    /// Go on.
    Continue,
    /// Start the audio device, and go on.
    StartAudio,
    /// The clip is complete.
    ClipDone,
    /// The decoder is gone: give up.
    Lost,
}

/// The frames that are due.
#[derive(Debug)]
pub struct DueVideo<F> {
    /// The frame to show.
    pub frame: Option<QueuedFrame<F>>,
    /// How many frames are too late to be shown.
    pub dropped_frames: u64,
}

/// What to do about missing video.
#[derive(Clone, Copy, Debug, PartialEq, Eq, Structural)]
pub struct Starvation {
    /// The frame that should be on show.
    pub expected_video_pts: i64,
    /// The frame that is on show.
    pub last_video_pts: i64,
    /// Whether to report that video is late.
    pub report: bool,
    /// Whether to make the window black.
    pub black: bool,
}

/// The state of playback in a window. `F` is the type of the video frames.
pub struct DesktopState<F> {
    /// The frames that wait for their time.
    pub video_queue: VecDeque<QueuedFrame<F>>,
    /// How many samples were handed to the audio device.
    pub submitted_audio_samples: u64,
    /// Whether the audio device runs.
    pub audio_started: bool,
    /// Samples per second.
    pub sample_rate: u32,
    /// The position of audio playback.
    pub audio_clock: AudioMasterClock,
    /// The duration of a video frame.
    pub video_time_base: Rational,
    /// Where video is expected to end.
    pub video_end_pts: Option<i64>,
    /// Whether no more video follows.
    pub video_finished: bool,
    /// The frame that is on show.
    pub last_rendered_video_pts: Option<i64>,
    /// When missing video was reported last.
    pub last_starvation_report: Option<u64>,
}

/// A timestamp, where a missing one counts as zero.
pub open spec fn pts_or_zero(pts: Option<i64>) -> int {
    match pts {
        Some(pts) => pts as int,
        None => 0,
    }
}

/// Whether audio playback has reached a frame with this timestamp.
pub open spec fn is_due(
    pts: Option<i64>,
    time_base: Rational,
    sample_rate: u32,
    audio_pts: int,
) -> bool {
    video_pts_in_audio_samples_spec(at_least_zero(pts_or_zero(pts)), time_base, sample_rate)
        <= audio_pts
}

/// How many frames at the front of a queue are due.
pub open spec fn due_count(
    queue: Seq<Option<i64>>,
    time_base: Rational,
    sample_rate: u32,
    audio_pts: int,
) -> nat
    decreases queue.len(),
{
    if queue.len() > 0 && is_due(queue[0], time_base, sample_rate, audio_pts) {
        1 + due_count(queue.skip(1), time_base, sample_rate, audio_pts)
    } else {
        0
    }
}

/// Whether a frame comes behind the one on show.
pub open spec fn is_new(pts: Option<i64>, on_show: Option<i64>) -> bool {
    match on_show {
        Some(last) => pts_or_zero(pts) > last,
        None => true,
    }
}

/// The last frame of a list that comes behind the one on show.
pub open spec fn newest(frames: Seq<Option<i64>>, on_show: Option<i64>) -> Option<int>
    decreases frames.len(),
{
    if frames.len() == 0 {
        None
    } else if is_new(frames.last(), on_show) {
        Some(frames.len() - 1)
    } else {
        newest(frames.drop_last(), on_show)
    }
}

/// The 64-bit pattern of a count as a signed number.
pub open spec fn as_signed(count: u64) -> int {
    if count > i64::MAX {
        count - 0x1_0000_0000_0000_0000
    } else {
        count as int
    }
}

/// The frame that should be on show at an audio position.
pub open spec fn expected_frame(audio_pts: u64, time_base: Rational, sample_rate: u32) -> int {
    at_least_zero(
        rescale_spec(as_signed(audio_pts), rate_time_base_spec(sample_rate), time_base),
    )
}

/// The samples that are played in some milliseconds.
pub open spec fn samples_in(sample_rate: u32, milliseconds: int) -> int {
    sample_rate * milliseconds / 1_000
}

/// The samples of one channel among the bytes of an audio queue.
pub fn queued_audio_samples(bytes: u32) -> (samples: u64)
    ensures
        samples == bytes / 8,
{
    bytes as u64 / 8
}

/// Whether an audio device plays what the output produces.
pub fn audio_format_matches(freq: i32, channels: u8, sample_rate: u32) -> (matching: bool)
    ensures
        matching == (freq == sample_rate as i32 && channels == AUDIO_CHANNELS),
{
    freq == sample_rate as i32 && channels as usize == AUDIO_CHANNELS
}

fn frame_is_due(
    pts: Option<i64>,
    time_base: Rational,
    sample_rate: u32,
    audio_pts: u64,
) -> (due: bool)
    ensures
        due == is_due(pts, time_base, sample_rate, audio_pts as int),
{
    let stamp: i64 = match pts {
        Some(pts) => if pts > 0 {
            pts
        } else {
            0
        },
        None => 0,
    };
    video_pts_in_audio_samples(stamp, time_base, sample_rate) <= audio_pts
}

/// The timestamps of the frames in a queue.
pub open spec fn queue_stamps<F>(queue: Seq<QueuedFrame<F>>) -> Seq<Option<i64>> {
    queue.map_values(|queued: QueuedFrame<F>| queued.pts)
}

/// What to do about missing video at a moment.
pub open spec fn starvation_spec<F>(
    state: DesktopState<F>,
    audio_pts: u64,
    now: u64,
) -> Starvation {
    let expected = expected_frame(audio_pts, state.video_time_base, state.sample_rate);
    let last = pts_or_zero(state.last_rendered_video_pts);
    let next = if state.video_queue@.len() > 0 && state.video_queue@[0].pts is Some {
        state.video_queue@[0].pts->0 as int
    } else {
        i64::MAX as int
    };
    let starved = expected > last + 1 && next > expected;
    let over = state.video_finished || match state.video_end_pts {
        Some(end) => expected >= end,
        None => false,
    };
    let may_report = match state.last_starvation_report {
        Some(last_report) => now - last_report >= REPORT_INTERVAL_NS,
        None => true,
    };
    Starvation {
        expected_video_pts: expected as i64,
        last_video_pts: last as i64,
        report: starved && !over && may_report,
        black: starved && over && expected - last > VIDEO_STARVATION_GRACE_FRAMES,
    }
}

impl<F> DesktopState<F> {
    /// The timestamps of the frames that wait for their time.
    pub open spec fn stamps(self) -> Seq<Option<i64>> {
        queue_stamps(self.video_queue@)
    }

    /// Whether everything but the queue of video frames is as it was.
    pub open spec fn kept(self, before: Self) -> bool {
        &&& self.submitted_audio_samples == before.submitted_audio_samples
        &&& self.audio_started == before.audio_started
        &&& self.sample_rate == before.sample_rate
        &&& self.audio_clock == before.audio_clock
        &&& self.video_time_base == before.video_time_base
        &&& self.video_end_pts == before.video_end_pts
        &&& self.video_finished == before.video_finished
        &&& self.last_rendered_video_pts == before.last_rendered_video_pts
        &&& self.last_starvation_report == before.last_starvation_report
    }

    /// How many waiting frames are due at an audio position.
    pub open spec fn due(self, audio_pts: u64) -> nat {
        due_count(self.stamps(), self.video_time_base, self.sample_rate, audio_pts as int)
    }

    /// Whether the audio device is to be started.
    pub open spec fn audio_is_ready(self, queued_bytes: u32, force: bool) -> bool {
        !self.audio_started && (force || queued_bytes / 8 >= samples_in(
            self.sample_rate,
            AUDIO_PREBUFFER_MS as int,
        ))
    }

    /// The state once the audio device was started.
    pub open spec fn with_audio_started(self, now: u64) -> Self {
        DesktopState {
            audio_started: true,
            audio_clock: AudioMasterClock {
                last_consumed_samples: 0,
                anchor_samples: 0,
                anchor_time: now,
                ..self.audio_clock
            },
            ..self
        }
    }

    /// Playback that has not begun.
    pub fn new(
        sample_rate: u32,
        device_buffer_samples: u64,
        video_time_base: Rational,
        now: u64,
    ) -> (state: Self)
        ensures
            state.video_queue@.len() == 0,
            state.submitted_audio_samples == 0,
            !state.audio_started,
            state.sample_rate == sample_rate,
            state.audio_clock == (AudioMasterClock {
                sample_rate,
                device_buffer_samples,
                last_consumed_samples: 0,
                anchor_samples: 0,
                anchor_time: now,
            }),
            state.video_time_base == video_time_base,
            state.video_end_pts is None,
            !state.video_finished,
            state.last_rendered_video_pts is None,
            state.last_starvation_report is None,
    {
        DesktopState {
            video_queue: VecDeque::new(),
            submitted_audio_samples: 0,
            audio_started: false,
            sample_rate,
            audio_clock: AudioMasterClock::new(sample_rate, device_buffer_samples, now),
            video_time_base,
            video_end_pts: None,
            video_finished: false,
            last_rendered_video_pts: None,
            last_starvation_report: None,
        }
    }

    /// Starts the audio clock when enough audio is queued, or when `force` asks
    /// for it, and says whether the audio device is to be started.
    pub fn start_audio_if_ready(&mut self, queued_bytes: u32, force: bool, now: u64) -> (started:
        bool)
        ensures
            started == old(self).audio_is_ready(queued_bytes, force),
            *final(self) == if started {
                old(self).with_audio_started(now)
            } else {
                *old(self)
            },
    {
        let prebuffer: u64 = self.sample_rate as u64 * AUDIO_PREBUFFER_MS / 1_000;
        if !self.audio_started && (force || queued_audio_samples(queued_bytes) >= prebuffer) {
            self.audio_started = true;
            self.audio_clock.reset(now);
            true
        } else {
            false
        }
    }

    /// Whether so much audio is queued that nothing more is to be taken from
    /// the decoder for now.
    pub fn queue_is_full(&self, queued_bytes: u32) -> (full: bool)
        ensures
            full == (self.audio_started && queued_bytes / 8 > samples_in(
                self.sample_rate,
                AUDIO_MAX_QUEUE_MS as int,
            )),
    {
        let max_queue: u64 = self.sample_rate as u64 * AUDIO_MAX_QUEUE_MS / 1_000;
        self.audio_started && queued_audio_samples(queued_bytes) > max_queue
    }

    /// The position of audio playback, as [`AudioMasterClock::position`] gives
    /// it.
    pub fn played_audio_samples(
        &mut self,
        queued_bytes: u32,
        now: u64,
        elapsed_samples: u64,
    ) -> (position: u64)
        ensures
            ({
                let consumed = saturating_difference(
                    old(self).submitted_audio_samples as int,
                    queued_bytes as int / 8,
                ) as u64;
                &&& position == old(self).audio_clock.position_spec(consumed, elapsed_samples)
                &&& *final(self) == (DesktopState {
                    audio_clock: old(self).audio_clock.anchored(consumed, now),
                    ..*old(self)
                })
            }),
    {
        self.audio_clock.position(
            self.submitted_audio_samples,
            queued_audio_samples(queued_bytes),
            now,
            elapsed_samples,
        )
    }

    /// Takes note of what happened in the decoder.
    pub fn on_message(&mut self, message: DesktopMessage<F>, now: u64) -> (step: MessageStep)
        ensures
            final(self).video_queue@ == match message {
                DesktopMessage::Video(queued) => old(self).video_queue@.push(queued),
                _ => old(self).video_queue@,
            },
            match message {
                DesktopMessage::ClipStarted => step is Continue && *final(self) == (DesktopState {
                    video_end_pts: None,
                    video_finished: false,
                    last_starvation_report: None,
                    ..*old(self)
                }),
                DesktopMessage::Video(_) => step is Continue && final(self).kept(*old(self)),
                DesktopMessage::AudioQueued { samples_per_channel, queued_bytes } => {
                    let queued = DesktopState {
                        submitted_audio_samples: saturating_sum(
                            old(self).submitted_audio_samples as int,
                            samples_per_channel as int,
                        ) as u64,
                        ..*old(self)
                    };
                    if old(self).audio_is_ready(queued_bytes, false) {
                        step is StartAudio && *final(self) == queued.with_audio_started(now)
                    } else {
                        step is Continue && *final(self) == queued
                    }
                },
                DesktopMessage::VideoEnd(end) => step is Continue && *final(self) == (
                DesktopState { video_end_pts: end, ..*old(self) }),
                DesktopMessage::VideoFinished => step is Continue && *final(self) == (
                DesktopState { video_finished: true, ..*old(self) }),
                DesktopMessage::ClipFinished => step is ClipDone && *final(self) == *old(self),
                DesktopMessage::Disconnected => step is Lost && *final(self) == *old(self),
                DesktopMessage::Timeout => step is Continue && *final(self) == *old(self),
            },
    {
        match message {
            DesktopMessage::ClipStarted => {
                self.video_end_pts = None;
                self.video_finished = false;
                self.last_starvation_report = None;
                MessageStep::Continue
            },
            DesktopMessage::Video(queued) => {
                self.video_queue.push_back(queued);
                MessageStep::Continue
            },
            DesktopMessage::AudioQueued { samples_per_channel, queued_bytes } => {
                self.submitted_audio_samples = if self.submitted_audio_samples <= u64::MAX
                    - samples_per_channel {
                    self.submitted_audio_samples + samples_per_channel
                } else {
                    u64::MAX
                };
                if self.start_audio_if_ready(queued_bytes, false, now) {
                    MessageStep::StartAudio
                } else {
                    MessageStep::Continue
                }
            },
            DesktopMessage::VideoEnd(end) => {
                self.video_end_pts = end;
                MessageStep::Continue
            },
            DesktopMessage::VideoFinished => {
                self.video_finished = true;
                MessageStep::Continue
            },
            DesktopMessage::ClipFinished => MessageStep::ClipDone,
            DesktopMessage::Disconnected => MessageStep::Lost,
            DesktopMessage::Timeout => MessageStep::Continue,
        }
    }

    /// Takes the frames that are due out of the queue. The last of them that
    /// comes behind the one on show is to be shown, the others are too late.
    pub fn take_due_video(&mut self, audio_pts: u64) -> (due: DueVideo<F>)
        ensures
            final(self).kept(*old(self)),
            final(self).video_queue@ == old(self).video_queue@.skip(
                old(self).due(audio_pts) as int,
            ),
            match newest(
                old(self).stamps().take(old(self).due(audio_pts) as int),
                old(self).last_rendered_video_pts,
            ) {
                Some(i) => {
                    &&& due.frame == Some(old(self).video_queue@[i])
                    &&& due.dropped_frames == old(self).due(audio_pts) - 1
                },
                None => {
                    &&& due.frame is None
                    &&& due.dropped_frames == old(self).due(audio_pts)
                },
            },
    {
        let mut frame: Option<QueuedFrame<F>> = None;
        let mut dropped_frames: u64 = 0;
        let ghost queue = self.video_queue@;
        let ghost stamps = self.stamps();
        let ghost on_show = self.last_rendered_video_pts;
        let ghost mut taken: int = 0;
        let waiting: usize = self.video_queue.len();
        proof {
            assert(queue.skip(0) =~= queue);
            assert(stamps.skip(0) =~= stamps);
        }
        while self.video_queue.len() > 0 && frame_is_due(
            self.video_queue[0].pts,
            self.video_time_base,
            self.sample_rate,
            audio_pts,
        )
            invariant
                self.kept(*old(self)),
                queue == old(self).video_queue@,
                stamps == old(self).stamps(),
                on_show == old(self).last_rendered_video_pts,
                0 <= taken <= queue.len(),
                queue.len() == waiting,
                self.video_queue@ == queue.skip(taken),
                due_count(stamps, self.video_time_base, self.sample_rate, audio_pts as int)
                    == taken + due_count(
                    stamps.skip(taken),
                    self.video_time_base,
                    self.sample_rate,
                    audio_pts as int,
                ),
                match newest(stamps.take(taken), on_show) {
                    Some(i) => frame == Some(queue[i]) && dropped_frames == taken - 1,
                    None => frame is None && dropped_frames == taken,
                },
            decreases queue.len() - taken,
        {
            let ghost before = self.video_queue@;
            if let Some(queued) = self.video_queue.pop_front() {
                proof {
                    assert(stamps[taken] == queue[taken].pts);
                    assert(stamps.skip(taken)[0] == before[0].pts);
                    assert(stamps.skip(taken).skip(1) =~= stamps.skip(taken + 1));
                    assert(stamps.take(taken + 1).drop_last() =~= stamps.take(taken));
                    assert(self.video_queue@ =~= queue.skip(taken + 1));
                    taken = taken + 1;
                }
                let pts: i64 = match queued.pts {
                    Some(pts) => pts,
                    None => 0,
                };
                let late = match self.last_rendered_video_pts {
                    Some(last) => pts <= last,
                    None => false,
                };
                if late || frame.is_some() {
                    dropped_frames = dropped_frames + 1;
                }
                if !late {
                    frame = Some(queued);
                }
            }
        }
        proof {
            assert(self.video_queue@.len() > 0 ==> stamps.skip(taken)[0]
                == self.video_queue@[0].pts);
        }
        DueVideo { frame, dropped_frames }
    }

    /// Takes note of the frame that is on show.
    pub fn video_shown(&mut self, pts: Option<i64>)
        ensures
            *final(self) == (DesktopState { last_rendered_video_pts: pts, ..*old(self) }),
    {
        self.last_rendered_video_pts = pts;
    }

    /// Finds out whether the window lags behind the audio, and what to do
    /// about it: while video is expected the delay is reported now and then,
    /// behind its end the window turns black.
    pub fn handle_video_starvation(&mut self, audio_pts: u64, now: u64) -> (starvation: Starvation)
        ensures
            starvation == starvation_spec(*old(self), audio_pts, now),
            *final(self) == (DesktopState {
                last_starvation_report: if starvation.report {
                    Some(now)
                } else {
                    old(self).last_starvation_report
                },
                last_rendered_video_pts: if starvation.black {
                    Some(starvation.expected_video_pts)
                } else {
                    old(self).last_rendered_video_pts
                },
                ..*old(self)
            }),
    {
        let signed: i64 = if audio_pts > i64::MAX as u64 {
            (audio_pts as i128 - 0x1_0000_0000_0000_0000) as i64
        } else {
            audio_pts as i64
        };
        let converted = rescale(signed, rate_time_base(self.sample_rate), self.video_time_base);
        let expected: i64 = if converted > 0 {
            converted
        } else {
            0
        };
        let last: i64 = match self.last_rendered_video_pts {
            Some(pts) => pts,
            None => 0,
        };
        let next: i64 = if self.video_queue.len() > 0 {
            match self.video_queue[0].pts {
                Some(pts) => pts,
                None => i64::MAX,
            }
        } else {
            i64::MAX
        };
        let lag: i128 = expected as i128 - last as i128;
        let starved = lag > 1 && next > expected;
        let over = self.video_finished || match self.video_end_pts {
            Some(end) => expected >= end,
            None => false,
        };
        let may_report = match self.last_starvation_report {
            Some(last_report) => now >= last_report && now - last_report >= REPORT_INTERVAL_NS,
            None => true,
        };
        let report = starved && !over && may_report;
        let black = starved && over && lag > VIDEO_STARVATION_GRACE_FRAMES as i128;
        if report {
            self.last_starvation_report = Some(now);
        }
        if black {
            self.last_rendered_video_pts = Some(expected);
        }
        Starvation { expected_video_pts: expected, last_video_pts: last, report, black }
    }
}

/// Frames leave the queue in order and not before their time: all frames in
/// front of the count are due, the frame behind them is not. The one to show
/// comes behind the one on show, and no due frame behind it does.
pub proof fn law_due_frames(
    queue: Seq<Option<i64>>,
    time_base: Rational,
    sample_rate: u32,
    audio_pts: int,
    on_show: Option<i64>,
)
    ensures
        ({
            let count = due_count(queue, time_base, sample_rate, audio_pts) as int;
            &&& count <= queue.len()
            &&& forall|i: int|
                0 <= i < count ==> is_due(#[trigger] queue[i], time_base, sample_rate, audio_pts)
            &&& count < queue.len() ==> !is_due(queue[count], time_base, sample_rate, audio_pts)
            &&& match newest(queue.take(count), on_show) {
                Some(shown) => {
                    &&& 0 <= shown < count
                    &&& is_new(queue[shown], on_show)
                    &&& forall|i: int|
                        shown < i < count ==> !is_new(#[trigger] queue[i], on_show)
                },
                None => forall|i: int| 0 <= i < count ==> !is_new(#[trigger] queue[i], on_show),
            }
        }),
{
    let count = due_count(queue, time_base, sample_rate, audio_pts) as int;
    lemma_due_prefix(queue, time_base, sample_rate, audio_pts);
    let prefix = queue.take(count);
    lemma_newest(prefix, on_show);
    assert(forall|i: int| 0 <= i < count ==> prefix[i] == queue[i]);
}

/// When frames arrive in the order of their timestamps, the one to show is the
/// last one that is due.
pub proof fn law_window_shows_the_current_frame(
    queue: Seq<Option<i64>>,
    time_base: Rational,
    sample_rate: u32,
    audio_pts: int,
    on_show: Option<i64>,
)
    requires
        forall|i: int, j: int|
            0 <= i < j < queue.len() ==> pts_or_zero(#[trigger] queue[i]) < pts_or_zero(
                #[trigger] queue[j],
            ),
        queue.len() > 0 ==> is_new(queue[0], on_show),
    ensures
        ({
            let count = due_count(queue, time_base, sample_rate, audio_pts) as int;
            newest(queue.take(count), on_show) == if count == 0 {
                None
            } else {
                Some(count - 1)
            }
        }),
{
    let count = due_count(queue, time_base, sample_rate, audio_pts) as int;
    lemma_due_prefix(queue, time_base, sample_rate, audio_pts);
    if count > 0 {
        assert(queue.take(count).last() == queue[count - 1]);
        if count > 1 {
            assert(pts_or_zero(queue[0]) < pts_or_zero(queue[count - 1]));
        }
    }
}

proof fn lemma_due_prefix(
    queue: Seq<Option<i64>>,
    time_base: Rational,
    sample_rate: u32,
    audio_pts: int,
)
    ensures
        ({
            let count = due_count(queue, time_base, sample_rate, audio_pts) as int;
            &&& count <= queue.len()
            &&& forall|i: int|
                0 <= i < count ==> is_due(#[trigger] queue[i], time_base, sample_rate, audio_pts)
            &&& count < queue.len() ==> !is_due(queue[count], time_base, sample_rate, audio_pts)
        }),
    decreases queue.len(),
{
    if queue.len() > 0 && is_due(queue[0], time_base, sample_rate, audio_pts) {
        let rest = queue.skip(1);
        lemma_due_prefix(rest, time_base, sample_rate, audio_pts);
        let count = due_count(queue, time_base, sample_rate, audio_pts) as int;
        assert forall|i: int| 0 <= i < count implies is_due(
            #[trigger] queue[i],
            time_base,
            sample_rate,
            audio_pts,
        ) by {
            if i > 0 {
                assert(rest[i - 1] == queue[i]);
            }
        }
        assert(count < queue.len() ==> rest[count - 1] == queue[count]);
    }
}

proof fn lemma_newest(frames: Seq<Option<i64>>, on_show: Option<i64>)
    ensures
        match newest(frames, on_show) {
            Some(shown) => {
                &&& 0 <= shown < frames.len()
                &&& is_new(frames[shown], on_show)
                &&& forall|i: int|
                    shown < i < frames.len() ==> !is_new(#[trigger] frames[i], on_show)
            },
            None => forall|i: int| 0 <= i < frames.len() ==> !is_new(#[trigger] frames[i], on_show),
        },
    decreases frames.len(),
{
    if frames.len() > 0 && !is_new(frames.last(), on_show) {
        let before = frames.drop_last();
        lemma_newest(before, on_show);
        assert(forall|i: int| 0 <= i < before.len() ==> before[i] == frames[i]);
    }
}

/// Between two pieces that the device takes, the clock advances with the time,
/// sample by sample, until it has reached the device. With each piece it is
/// set to one piece behind the device, and time counts from then on.
pub proof fn law_clock_follows_the_time(
    clock: AudioMasterClock,
    consumed: u64,
    elapsed_samples: u64,
    now: u64,
)
    ensures
        consumed == clock.last_consumed_samples ==> {
            let position = clock.position_spec(consumed, elapsed_samples);
            &&& clock.anchor_samples + elapsed_samples <= consumed ==> position
                == clock.anchor_samples + elapsed_samples
            &&& clock.anchor_samples + elapsed_samples >= consumed ==> position == consumed
            &&& clock.anchored(consumed, now) == clock
        },
        consumed != clock.last_consumed_samples ==> {
            let position = clock.position_spec(consumed, elapsed_samples);
            let after = clock.anchored(consumed, now);
            &&& consumed >= clock.device_buffer_samples ==> position == consumed
                - clock.device_buffer_samples
            &&& consumed < clock.device_buffer_samples ==> position == 0
            &&& after.anchor_samples == position
            &&& after.anchor_time == now
            &&& after.last_consumed_samples == consumed
            &&& after.sample_rate == clock.sample_rate
            &&& after.device_buffer_samples == clock.device_buffer_samples
        },
{
}

/// A frame is due from the audio sample on that is nearest to its time. One
/// without a timestamp, or with one before the start, is due at once.
pub proof fn law_frames_are_due_at_their_time(
    pts: i64,
    fps: u32,
    sample_rate: u32,
    audio_pts: int,
    nearest: int,
)
    requires
        0 < fps <= i32::MAX,
        0 < sample_rate <= i32::MAX,
        audio_pts >= 0,
        0 <= nearest <= i64::MAX,
        pts >= 0 ==> -fps < 2 * (nearest * fps - pts * sample_rate) <= fps,
    ensures
        is_due(None, Rational(1, fps as i32), sample_rate, audio_pts),
        pts < 0 ==> is_due(Some(pts), Rational(1, fps as i32), sample_rate, audio_pts),
        pts >= 0 ==> is_due(Some(pts), Rational(1, fps as i32), sample_rate, audio_pts) == (nearest
            <= audio_pts),
{
    law_video_time_in_samples(0, fps, sample_rate, 0);
    if pts >= 0 {
        law_video_time_in_samples(pts as int, fps, sample_rate, nearest);
    }
}

/// A frame is new when its timestamp is behind that of the frame on show, and
/// when nothing is on show. A missing timestamp counts as zero.
pub proof fn law_new_frames_come_behind_the_one_on_show(pts: i64, on_show: i64)
    ensures
        is_new(Some(pts), Some(on_show)) == (pts > on_show),
        is_new(None, Some(on_show)) == (0 > on_show),
        is_new(Some(pts), None),
        is_new(None, None),
{
}

/// The frames that are taken out of the queue are those at its front that are
/// due, up to the first one that is not.
pub proof fn law_due_frames_leave_the_queue<F>(state: DesktopState<F>, audio_pts: u64)
    ensures
        state.due(audio_pts) <= state.video_queue@.len(),
        forall|i: int|
            0 <= i < state.due(audio_pts) ==> is_due(
                (#[trigger] state.video_queue@[i]).pts,
                state.video_time_base,
                state.sample_rate,
                audio_pts as int,
            ),
        state.due(audio_pts) < state.video_queue@.len() ==> !is_due(
            state.video_queue@[state.due(audio_pts) as int].pts,
            state.video_time_base,
            state.sample_rate,
            audio_pts as int,
        ),
        state.stamps().len() == state.video_queue@.len(),
        forall|i: int|
            0 <= i < state.video_queue@.len() ==> #[trigger] state.stamps()[i]
                == state.video_queue@[i].pts,
{
    lemma_due_prefix(state.stamps(), state.video_time_base, state.sample_rate, audio_pts as int);
    assert forall|i: int| 0 <= i < state.due(audio_pts) implies is_due(
        (#[trigger] state.video_queue@[i]).pts,
        state.video_time_base,
        state.sample_rate,
        audio_pts as int,
    ) by {
        assert(state.stamps()[i] == state.video_queue@[i].pts);
    }
}

/// The window lags behind when the frame nearest to the audio position is more
/// than one frame behind the one on show, and the next frame in the queue is
/// not it. While video is expected, this is reported, at most once a second.
/// Behind the end of video the window turns black once it lags by more than
/// two frames.
pub proof fn law_window_lags_and_turns_black<F>(
    state: DesktopState<F>,
    audio_pts: u64,
    now: u64,
    fps: u32,
    expected: int,
)
    requires
        0 < fps <= i32::MAX,
        0 < state.sample_rate <= i32::MAX,
        state.video_time_base == Rational(1, fps as i32),
        audio_pts <= i64::MAX,
        0 <= expected <= i64::MAX,
        -state.sample_rate < 2 * (expected * state.sample_rate - audio_pts * fps)
            <= state.sample_rate,
    ensures
        ({
            let found = starvation_spec(state, audio_pts, now);
            let last = match state.last_rendered_video_pts {
                Some(pts) => pts as int,
                None => 0,
            };
            let queued = state.video_queue@.len() > 0 && (state.video_queue@[0].pts matches Some(
                pts,
            ) && pts <= expected);
            let lags = expected - last >= 2 && expected < i64::MAX && !queued;
            let over = state.video_finished || (state.video_end_pts matches Some(end) && expected
                >= end);
            let recent = state.last_starvation_report matches Some(report) && now - report
                < 1_000_000_000;
            &&& found.expected_video_pts == expected
            &&& found.last_video_pts == last
            &&& found.report == (lags && !over && !recent)
            &&& found.black == (lags && over && expected - last >= 3)
        }),
{
    let from = rate_time_base_spec(state.sample_rate);
    let to = state.video_time_base;
    assert(from.0 * to.1 == fps && from.1 * to.0 == state.sample_rate);
    law_conversion_is_nearest(audio_pts as int, from, to, expected);
}

/// The audio device starts, once, with a tenth of a second in its queue or
/// when it is forced to, and takes at most a quarter of a second: its clock
/// then starts from zero, and nothing else changes.
pub proof fn law_audio_starts_with_a_tenth_of_a_second<F>(
    state: DesktopState<F>,
    queued_bytes: u32,
    force: bool,
    now: u64,
)
    ensures
        state.audio_is_ready(queued_bytes, force) == (!state.audio_started && (force || queued_bytes
            / 8 >= state.sample_rate / 10)),
        samples_in(state.sample_rate, 250) == state.sample_rate / 4,
        ({
            let started = state.with_audio_started(now);
            &&& started.audio_started
            &&& started.audio_clock.anchor_time == now
            &&& started.audio_clock.anchor_samples == 0
            &&& started.audio_clock.last_consumed_samples == 0
            &&& started.audio_clock.sample_rate == state.audio_clock.sample_rate
            &&& started.audio_clock.device_buffer_samples
                == state.audio_clock.device_buffer_samples
            &&& started.video_queue == state.video_queue
            &&& started.submitted_audio_samples == state.submitted_audio_samples
            &&& started.last_rendered_video_pts == state.last_rendered_video_pts
            &&& started.video_end_pts == state.video_end_pts
            &&& started.video_finished == state.video_finished
        }),
{
}

/// Counts of samples add up, up to the largest 64-bit number.
pub proof fn law_counts_saturate(a: u64, b: u64)
    ensures
        a + b <= u64::MAX ==> saturating_sum(a as int, b as int) == a + b,
        a + b > u64::MAX ==> saturating_sum(a as int, b as int) == u64::MAX,
        a >= b ==> saturating_difference(a as int, b as int) == a - b,
        a < b ==> saturating_difference(a as int, b as int) == 0,
{
}

/// A count that is read as a signed number keeps its bits: counts of at most 63
/// bits stay as they are, and larger ones wrap around.
pub proof fn law_counts_keep_their_bits(count: u64)
    ensures
        i64::MIN <= as_signed(count) <= i64::MAX,
        (count - as_signed(count)) % 0x1_0000_0000_0000_0000 == 0,
        as_signed(count) == count as i64,
{
    assert(count <= 0x7fff_ffff_ffff_ffff ==> count as i64 == count) by (bit_vector);
    assert(count > 0x7fff_ffff_ffff_ffff ==> count as i64 == count - 0x1_0000_0000_0000_0000) by (bit_vector);
}

} // verus!
