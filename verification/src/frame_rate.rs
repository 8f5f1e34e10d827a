//! Converting a stream of video frames to a constant frame rate.
use crate::rational::{
    convertible, law_conversion_is_nearest, law_rescale_is_monotonic, rescale, rescale_spec, scaled, Rational,
};
use vstd::prelude::*;

verus! {

/// Decides how often each decoded frame is shown so that the output has a
/// constant frame rate.
#[derive(Clone, Copy, Debug)]
pub struct FrameRateConverter {
    /// The time base of the input timestamps.
    pub input_time_base: Rational,
    /// The duration of an output frame.
    pub output_time_base: Rational,
    /// The first timestamp that was seen.
    pub first_timestamp: Option<i64>,
    /// How many output frames there are so far.
    pub next_output_frame: i64,
}

/// The time base of a stream with `rate` ticks per second.
pub open spec fn rate_time_base_spec(rate: u32) -> Rational {
    Rational(1, rate as i32)
}

/// As many ticks of the time base as the rate says last one second.
pub proof fn law_rate_ticks_last_a_second(rate: u32)
    requires
        0 < rate <= i32::MAX,
    ensures
        rate * rate_time_base_spec(rate).0 == rate_time_base_spec(rate).1,
{
}

/// The time base of a stream with `rate` ticks per second.
pub fn rate_time_base(rate: u32) -> (time_base: Rational)
    ensures
        time_base == rate_time_base_spec(rate),
        rate <= i32::MAX ==> time_base.1 == rate,
{
    Rational(1, rate as i32)
}

/// The time since `first`, not below zero and not above what 64 bits hold.
pub open spec fn relative_timestamp(timestamp: int, first: int) -> int {
    if timestamp <= first {
        0
    } else if timestamp - first > i64::MAX {
        i64::MAX as int
    } else {
        timestamp - first
    }
}

/// The larger of a number and zero.
pub open spec fn at_least_zero(n: int) -> int {
    if n < 0 {
        0
    } else {
        n
    }
}

impl FrameRateConverter {
    /// Whether the count of output frames makes sense.
    pub open spec fn wf(self) -> bool {
        self.next_output_frame >= 0
    }

    /// The timestamp that counts as the start of the stream once `timestamp`
    /// was seen.
    pub open spec fn origin(self, timestamp: i64) -> int {
        match self.first_timestamp {
            Some(first) => first as int,
            None => timestamp as int,
        }
    }

    /// The number of the output frame that is on show at `timestamp`.
    pub open spec fn target_frame(self, timestamp: i64) -> int {
        at_least_zero(
            rescale_spec(
                relative_timestamp(timestamp as int, self.origin(timestamp)),
                self.input_time_base,
                self.output_time_base,
            ),
        )
    }

    /// Whether a frame with this timestamp can be counted in 64 bits.
    pub open spec fn accepts_spec(self, timestamp: Option<i64>) -> bool {
        match timestamp {
            None => self.next_output_frame < i64::MAX,
            Some(timestamp) => self.target_frame(timestamp) < i64::MAX,
        }
    }

    /// How many output frames a frame with this timestamp fills: one without a
    /// timestamp, else as many as are missing up to the frame on show.
    pub open spec fn output_frames_spec(self, timestamp: Option<i64>) -> int {
        match timestamp {
            None => 1,
            Some(timestamp) => at_least_zero(
                self.target_frame(timestamp) + 1 - self.next_output_frame,
            ),
        }
    }

    /// A converter that has seen no frame.
    pub fn new(input_time_base: Rational, output_fps: u32) -> (converter: Self)
        ensures
            converter.input_time_base == input_time_base,
            converter.output_time_base == rate_time_base_spec(output_fps),
            converter.first_timestamp is None,
            converter.next_output_frame == 0,
            converter.wf(),
    {
        FrameRateConverter {
            input_time_base,
            output_time_base: rate_time_base(output_fps),
            first_timestamp: None,
            next_output_frame: 0,
        }
    }

    fn find_target(&self, timestamp: i64) -> (target: i64)
        ensures
            target == self.target_frame(timestamp),
    {
        let first: i64 = match self.first_timestamp {
            Some(first) => first,
            None => timestamp,
        };
        let wide: i128 = timestamp as i128 - first as i128;
        let relative: i64 = if wide <= 0 {
            0
        } else if wide > i64::MAX as i128 {
            i64::MAX
        } else {
            wide as i64
        };
        let target = rescale(relative, self.input_time_base, self.output_time_base);
        if target < 0 {
            0
        } else {
            target
        }
    }

    /// Whether a frame with this timestamp can be counted in 64 bits.
    pub fn accepts(&self, timestamp: Option<i64>) -> (accepted: bool)
        ensures
            accepted == self.accepts_spec(timestamp),
    {
        match timestamp {
            None => self.next_output_frame < i64::MAX,
            Some(timestamp) => self.find_target(timestamp) < i64::MAX,
        }
    }

    /// Counts a decoded frame and says how many output frames it fills.
    pub fn output_frames(&mut self, timestamp: Option<i64>) -> (frames: i64)
        requires
            old(self).wf(),
            old(self).accepts_spec(timestamp),
        ensures
            frames == old(self).output_frames_spec(timestamp),
            final(self).next_output_frame == old(self).next_output_frame + frames,
            final(self).first_timestamp == match timestamp {
                None => old(self).first_timestamp,
                Some(timestamp) => Some(old(self).origin(timestamp) as i64),
            },
            final(self).input_time_base == old(self).input_time_base,
            final(self).output_time_base == old(self).output_time_base,
            final(self).wf(),
    {
        match timestamp {
            None => {
                self.next_output_frame = self.next_output_frame + 1;
                1
            },
            Some(timestamp) => {
                let target = self.find_target(timestamp);
                if self.first_timestamp.is_none() {
                    self.first_timestamp = Some(timestamp);
                }
                let missing: i64 = target + 1 - self.next_output_frame;
                let frames: i64 = if missing < 0 {
                    0
                } else {
                    missing
                };
                self.next_output_frame = self.next_output_frame + frames;
                frames
            },
        }
    }
}

/// The converter after it has counted a frame.
pub open spec fn counted(converter: FrameRateConverter, timestamp: i64) -> FrameRateConverter {
    FrameRateConverter {
        input_time_base: converter.input_time_base,
        output_time_base: converter.output_time_base,
        first_timestamp: Some(converter.origin(timestamp) as i64),
        next_output_frame: (converter.next_output_frame + converter.output_frames_spec(
            Some(timestamp),
        )) as i64,
    }
}

/// The converter after it has counted a list of frames.
pub open spec fn all_counted(converter: FrameRateConverter, timestamps: Seq<i64>) -> FrameRateConverter
    decreases timestamps.len(),
{
    if timestamps.len() == 0 {
        converter
    } else {
        counted(all_counted(converter, timestamps.drop_last()), timestamps.last())
    }
}

/// The number of the output frame that is on show at a timestamp of a stream
/// that starts at `first`.
pub open spec fn frame_at(
    input_time_base: Rational,
    output_time_base: Rational,
    first: i64,
    timestamp: i64,
) -> int {
    at_least_zero(
        rescale_spec(
            relative_timestamp(timestamp as int, first as int),
            input_time_base,
            output_time_base,
        ),
    )
}

/// A frame without a timestamp is shown once. A frame with one is shown as
/// often as it takes to fill the output up to the frame that is on show at its
/// timestamp, and not at all when the output has got there: the output frame
/// on show is the one nearest to the time since the start of the stream.
pub proof fn law_frames_fill_the_output(converter: FrameRateConverter, timestamp: i64)
    requires
        converter.wf(),
        convertible(converter.input_time_base, converter.output_time_base),
    ensures
        converter.output_frames_spec(None) == 1,
        converter.next_output_frame < i64::MAX ==> converter.accepts_spec(None),
        ({
            let first = match converter.first_timestamp {
                Some(first) => first,
                None => timestamp,
            };
            let since = timestamp - first;
            let shown = scaled(since, converter.input_time_base, converter.output_time_base);
            let filled = converter.next_output_frame;
            let frames = converter.output_frames_spec(Some(timestamp));
            &&& 0 <= since <= i64::MAX && shown < i64::MAX ==> {
                &&& converter.accepts_spec(Some(timestamp))
                &&& filled <= shown ==> filled + frames == shown + 1
                &&& filled > shown ==> frames == 0
                &&& shown >= 0
            }
            &&& since < 0 ==> {
                &&& converter.accepts_spec(Some(timestamp))
                &&& filled > 0 ==> frames == 0
                &&& filled == 0 ==> frames == 1
            }
        }),
{
    let first = match converter.first_timestamp {
        Some(first) => first,
        None => timestamp,
    };
    law_rescale_is_monotonic(0, 0, converter.input_time_base, converter.output_time_base);
    if timestamp >= first {
        law_rescale_is_monotonic(
            0,
            timestamp - first,
            converter.input_time_base,
            converter.output_time_base,
        );
    }
    law_conversion_is_nearest(0, converter.input_time_base, converter.output_time_base, 0);
}

/// The time since the start of a stream is the difference of the timestamps. It
/// is zero before the start, and stays at the largest number that fits.
pub proof fn law_time_since_the_start(timestamp: i64, first: i64)
    ensures
        first <= timestamp && timestamp - first <= i64::MAX ==> relative_timestamp(
            timestamp as int,
            first as int,
        ) == timestamp - first,
        timestamp < first ==> relative_timestamp(timestamp as int, first as int) == 0,
        timestamp - first > i64::MAX ==> relative_timestamp(timestamp as int, first as int)
            == i64::MAX,
{
}

/// Without a way to convert timestamps, the first frame is shown once and
/// every other frame with a timestamp not at all.
pub proof fn law_unconvertible_stamps_show_nothing(converter: FrameRateConverter, timestamp: i64)
    requires
        converter.wf(),
        !convertible(converter.input_time_base, converter.output_time_base),
    ensures
        converter.accepts_spec(Some(timestamp)),
        converter.output_frames_spec(Some(timestamp)) == if converter.next_output_frame == 0 {
            1int
        } else {
            0
        },
{
}

/// A video frame is due at the audio sample nearest to its time, and at the
/// start when its timestamp lies before it.
pub proof fn law_video_time_in_samples(video_pts: int, fps: u32, sample_rate: u32, nearest: int)
    requires
        0 < fps <= i32::MAX,
        0 < sample_rate <= i32::MAX,
        0 <= video_pts,
        0 <= nearest <= i64::MAX,
        -fps < 2 * (nearest * fps - video_pts * sample_rate) <= fps,
    ensures
        video_pts_in_audio_samples_spec(video_pts, Rational(1, fps as i32), sample_rate) == nearest,
{
    let from = Rational(1, fps as i32);
    let to = rate_time_base_spec(sample_rate);
    assert(from.0 * to.1 == sample_rate && from.1 * to.0 == fps);
    law_conversion_is_nearest(video_pts, from, to, nearest);
}

/// Timestamps may come in any order: the output frames that were filled so far
/// are those up to the latest one on show at any of the timestamps, and no
/// more.
pub proof fn law_output_reaches_the_latest_frame(
    input_time_base: Rational,
    output_time_base: Rational,
    timestamps: Seq<i64>,
)
    requires
        timestamps.len() > 0,
        forall|i: int|
            0 <= i < timestamps.len() ==> frame_at(
                input_time_base,
                output_time_base,
                timestamps[0],
                #[trigger] timestamps[i],
            ) < i64::MAX,
    ensures
        ({
            let start = FrameRateConverter {
                input_time_base,
                output_time_base,
                first_timestamp: None,
                next_output_frame: 0,
            };
            let end = all_counted(start, timestamps);
            &&& end.first_timestamp == Some(timestamps[0])
            &&& end.input_time_base == input_time_base
            &&& end.output_time_base == output_time_base
            &&& forall|i: int|
                0 <= i < timestamps.len() ==> frame_at(
                    input_time_base,
                    output_time_base,
                    timestamps[0],
                    #[trigger] timestamps[i],
                ) < end.next_output_frame
            &&& exists|i: int|
                0 <= i < timestamps.len() && frame_at(
                    input_time_base,
                    output_time_base,
                    timestamps[0],
                    #[trigger] timestamps[i],
                ) + 1 == end.next_output_frame
        }),
    decreases timestamps.len(),
{
    let start = FrameRateConverter {
        input_time_base,
        output_time_base,
        first_timestamp: None,
        next_output_frame: 0,
    };
    let first = timestamps[0];
    let last = timestamps.last();
    let before = timestamps.drop_last();
    let middle = all_counted(start, before);
    let end = all_counted(start, timestamps);
    let shown = frame_at(input_time_base, output_time_base, first, last);
    assert(timestamps[timestamps.len() - 1] == last);
    if timestamps.len() == 1 {
        assert(before =~= Seq::empty());
        assert(middle == start);
        assert(start.target_frame(last) == shown);
    } else {
        assert(before[0] == first);
        assert forall|i: int| 0 <= i < before.len() implies frame_at(
            input_time_base,
            output_time_base,
            before[0],
            #[trigger] before[i],
        ) < i64::MAX by {
            assert(before[i] == timestamps[i]);
        }
        law_output_reaches_the_latest_frame(input_time_base, output_time_base, before);
        assert(middle.target_frame(last) == shown);
        assert forall|i: int| 0 <= i < timestamps.len() implies frame_at(
            input_time_base,
            output_time_base,
            first,
            #[trigger] timestamps[i],
        ) < end.next_output_frame by {
            if i < before.len() {
                assert(before[i] == timestamps[i]);
            }
        }
        if shown + 1 <= middle.next_output_frame {
            let i = choose|i: int|
                0 <= i < before.len() && frame_at(
                    input_time_base,
                    output_time_base,
                    before[0],
                    #[trigger] before[i],
                ) + 1 == middle.next_output_frame;
            assert(before[i] == timestamps[i]);
            assert(frame_at(input_time_base, output_time_base, first, timestamps[i]) + 1
                == end.next_output_frame);
        } else {
            assert(frame_at(
                input_time_base,
                output_time_base,
                first,
                timestamps[timestamps.len() - 1],
            ) + 1 == end.next_output_frame);
        }
    }
}

/// For timestamps that do not go back, the number of output frames follows the
/// clock of the stream: after each frame exactly the output frames up to the
/// one on show at its timestamp have been filled, however many decoded frames
/// there were.
pub proof fn law_output_follows_the_clock(
    input_time_base: Rational,
    output_time_base: Rational,
    timestamps: Seq<i64>,
)
    requires
        convertible(input_time_base, output_time_base),
        timestamps.len() > 0,
        forall|i: int, j: int| 0 <= i <= j < timestamps.len() ==> timestamps[i] <= timestamps[j],
        timestamps.last() - timestamps[0] <= i64::MAX,
        scaled(timestamps.last() - timestamps[0], input_time_base, output_time_base) < i64::MAX,
    ensures
        ({
            let start = FrameRateConverter {
                input_time_base,
                output_time_base,
                first_timestamp: None,
                next_output_frame: 0,
            };
            let end = all_counted(start, timestamps);
            &&& end.first_timestamp == Some(timestamps[0])
            &&& end.next_output_frame == scaled(
                timestamps.last() - timestamps[0],
                input_time_base,
                output_time_base,
            ) + 1
            &&& end.input_time_base == input_time_base
            &&& end.output_time_base == output_time_base
        }),
    decreases timestamps.len(),
{
    let start = FrameRateConverter {
        input_time_base,
        output_time_base,
        first_timestamp: None,
        next_output_frame: 0,
    };
    let last = timestamps.last();
    let span = last - timestamps[0];
    law_rescale_is_monotonic(0, span, input_time_base, output_time_base);
    if timestamps.len() == 1 {
        assert(timestamps.drop_last() =~= Seq::empty());
        assert(all_counted(start, timestamps.drop_last()) == start);
        assert(start.target_frame(last) == scaled(0, input_time_base, output_time_base));
    } else {
        let before = timestamps.drop_last();
        assert(before.last() == timestamps[timestamps.len() - 2]);
        let span_before = before.last() - timestamps[0];
        law_rescale_is_monotonic(span_before, span, input_time_base, output_time_base);
        law_output_follows_the_clock(input_time_base, output_time_base, before);
        let middle = all_counted(start, before);
        assert(middle.target_frame(last) == scaled(span, input_time_base, output_time_base));
    }
}

/// The time at which a video frame is due, counted in audio samples.
pub open spec fn video_pts_in_audio_samples_spec(
    video_pts: int,
    video_time_base: Rational,
    sample_rate: u32,
) -> int {
    at_least_zero(rescale_spec(video_pts, video_time_base, rate_time_base_spec(sample_rate)))
}

/// The time at which a video frame is due, counted in audio samples.
pub fn video_pts_in_audio_samples(
    video_pts: i64,
    video_time_base: Rational,
    sample_rate: u32,
) -> (samples: u64)
    ensures
        samples == video_pts_in_audio_samples_spec(video_pts as int, video_time_base, sample_rate),
{
    let samples = rescale(video_pts, video_time_base, rate_time_base(sample_rate));
    if samples < 0 {
        0
    } else {
        samples as u64
    }
}

} // verus!
