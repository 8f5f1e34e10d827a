//! Cutting a stream of stereo samples into frames of the size that an audio
//! encoder asks for.
//!
//! A sample is the bit pattern of a 32-bit IEEE 754 number.
use std::collections::VecDeque;
use vstd::prelude::*;

verus! {

/// Whether a bit pattern stands for a number, and not for an infinity or for
/// something that is no number.
pub open spec fn is_finite(bits: u32) -> bool {
    (bits / 0x80_0000) % 0x100 != 0xff
}

/// A sample that can be encoded: itself when it is a number, else silence.
pub open spec fn finite_or_zero_spec(bits: u32) -> u32 {
    if is_finite(bits) {
        bits
    } else {
        0
    }
}

/// The samples of a channel with everything that is no number silenced.
pub open spec fn cleaned(samples: Seq<u32>) -> Seq<u32> {
    samples.map_values(|bits: u32| finite_or_zero_spec(bits))
}

/// `samples` cut off or filled with silence so that there are `len` of them.
pub open spec fn resized(samples: Seq<u32>, len: int) -> Seq<u32> {
    if len <= samples.len() {
        samples.take(len)
    } else {
        samples + Seq::new((len - samples.len()) as nat, |i: int| 0u32)
    }
}

/// A sample that can be encoded.
pub fn finite_or_zero(bits: u32) -> (sample: u32)
    ensures
        sample == finite_or_zero_spec(bits),
{
    if (bits / 0x80_0000) % 0x100 != 0xff {
        bits
    } else {
        0
    }
}

/// A frame for the audio encoder.
#[derive(Debug)]
pub struct AudioFrame {
    /// The timestamp of the first sample.
    pub pts: Option<i64>,
    /// The samples of the left channel.
    pub left: Vec<u32>,
    /// The samples of the right channel.
    pub right: Vec<u32>,
}

/// Why no frame can be cut.
#[derive(Clone, Copy, Debug, PartialEq, Eq, Structural)]
pub enum AudioBufferError {
    /// The audio encoder asks for frames without samples.
    ZeroFrameSize,
}

/// Samples that do not fill a frame yet.
#[derive(Debug)]
pub struct AudioBuffer {
    /// The samples of the left channel.
    pub left: VecDeque<u32>,
    /// The samples of the right channel.
    pub right: VecDeque<u32>,
    /// The timestamp of the first sample.
    pub pts: Option<i64>,
}

fn take_front(channel: &mut VecDeque<u32>, count: usize) -> (taken: Vec<u32>)
    requires
        count <= old(channel)@.len(),
    ensures
        taken@ == old(channel)@.take(count as int),
        final(channel)@ == old(channel)@.skip(count as int),
{
    let mut taken: Vec<u32> = Vec::new();
    assert(channel@ =~= old(channel)@.skip(0));
    while taken.len() < count
        invariant
            taken@.len() <= count <= old(channel)@.len(),
            taken@ == old(channel)@.take(taken@.len() as int),
            channel@ == old(channel)@.skip(taken@.len() as int),
        decreases count - taken@.len(),
    {
        let ghost now = channel@;
        if let Some(sample) = channel.pop_front() {
            taken.push(sample);
            assert(taken@ =~= old(channel)@.take(taken@.len() as int));
            assert(channel@ =~= old(channel)@.skip(taken@.len() as int));
        }
    }
    taken
}

fn push_cleaned(channel: &mut VecDeque<u32>, samples: &[u32])
    ensures
        final(channel)@ == old(channel)@ + cleaned(samples@),
{
    let mut i: usize = 0;
    assert(channel@ =~= old(channel)@ + cleaned(samples@.take(0)));
    while i < samples.len()
        invariant
            i <= samples.len(),
            channel@ == old(channel)@ + cleaned(samples@.take(i as int)),
        decreases samples.len() - i,
    {
        channel.push_back(finite_or_zero(samples[i]));
        assert(channel@ =~= old(channel)@ + cleaned(samples@.take(i + 1)));
        i += 1;
    }
    assert(samples@.take(samples@.len() as int) =~= samples@);
}

fn resize(channel: &mut VecDeque<u32>, len: usize)
    ensures
        final(channel)@ == resized(old(channel)@, len as int),
{
    if channel.len() >= len {
        channel.truncate(len);
    } else {
        while channel.len() < len
            invariant
                old(channel)@.len() <= channel@.len() <= len,
                channel@ == resized(old(channel)@, channel@.len() as int),
            decreases len - channel@.len(),
        {
            let ghost now = channel@.len() as int;
            channel.push_back(0);
            assert(channel@ =~= resized(old(channel)@, now + 1));
        }
    }
}

impl AudioBuffer {
    /// Whether both channels hold equally many samples.
    pub open spec fn wf(self) -> bool {
        self.left@.len() == self.right@.len()
    }

    /// Whether `after` is this buffer with decoded samples appended. The
    /// timestamp counts only when the buffer was empty before.
    pub open spec fn pushed(
        self,
        left: Seq<u32>,
        right: Seq<u32>,
        pts: Option<i64>,
        after: AudioBuffer,
    ) -> bool {
        &&& after.left@ == self.left@ + cleaned(left)
        &&& after.right@ == self.right@ + cleaned(right)
        &&& after.pts == if left.len() > 0 && self.left@.len() == 0 {
            pts
        } else {
            self.pts
        }
    }

    /// Whether the timestamp behind the next frame fits into 64 bits, if there
    /// is a frame to be cut.
    pub open spec fn can_take(self, frame_size: usize) -> bool {
        0 < frame_size <= self.left@.len() ==> (self.pts matches Some(pts) ==> pts + frame_size
            <= i64::MAX)
    }

    /// Whether `frame` is the next frame of this buffer, and `after` what it
    /// leaves behind.
    pub open spec fn taken(
        self,
        frame_size: usize,
        frame: Result<Option<AudioFrame>, AudioBufferError>,
        after: AudioBuffer,
    ) -> bool {
        match frame {
            Err(_) => frame_size == 0 && after == self,
            Ok(None) => frame_size > self.left@.len() && after == self,
            Ok(Some(frame)) => {
                &&& 0 < frame_size <= self.left@.len()
                &&& frame.pts == self.pts
                &&& frame.left@ == self.left@.take(frame_size as int)
                &&& frame.right@ == self.right@.take(frame_size as int)
                &&& after.left@ == self.left@.skip(frame_size as int)
                &&& after.right@ == self.right@.skip(frame_size as int)
                &&& match self.pts {
                    Some(pts) => after.pts == Some((pts + frame_size) as i64),
                    None => after.pts is None,
                }
            },
        }
    }

    /// A buffer without samples.
    pub fn new() -> (buffer: Self)
        ensures
            buffer.wf(),
            buffer.left@.len() == 0,
            buffer.pts is None,
    {
        AudioBuffer { left: VecDeque::new(), right: VecDeque::new(), pts: None }
    }

    /// Appends decoded samples. The timestamp counts only when the buffer was
    /// empty before.
    pub fn push(&mut self, left: &[u32], right: &[u32], pts: Option<i64>)
        requires
            old(self).wf(),
            left@.len() == right@.len(),
        ensures
            final(self).wf(),
            old(self).pushed(left@, right@, pts, *final(self)),
    {
        if left.len() == 0 {
            assert(self.left@ + cleaned(left@) =~= self.left@);
            assert(self.right@ + cleaned(right@) =~= self.right@);
            return;
        }
        if self.left.len() == 0 {
            self.pts = pts;
        }
        push_cleaned(&mut self.left, left);
        push_cleaned(&mut self.right, right);
    }

    /// Cuts the next frame off the front of the buffer, if there are samples
    /// for a whole one.
    pub fn take_frame(&mut self, frame_size: usize) -> (frame: Result<
        Option<AudioFrame>,
        AudioBufferError,
    >)
        requires
            old(self).wf(),
            old(self).can_take(frame_size),
        ensures
            final(self).wf(),
            old(self).taken(frame_size, frame, *final(self)),
    {
        if frame_size == 0 {
            return Err(AudioBufferError::ZeroFrameSize);
        }
        if self.left.len() < frame_size {
            return Ok(None);
        }
        let pts = self.pts;
        let left = take_front(&mut self.left, frame_size);
        let right = take_front(&mut self.right, frame_size);
        self.pts = match pts {
            Some(pts) => Some((pts as i128 + frame_size as i128) as i64),
            None => None,
        };
        Ok(Some(AudioFrame { pts, left, right }))
    }

    /// Fills the last, incomplete frame with silence.
    pub fn pad(&mut self, frame_size: usize)
        requires
            old(self).wf(),
        ensures
            final(self).wf(),
            final(self).pts == old(self).pts,
            if old(self).left@.len() == 0 {
                *final(self) == *old(self)
            } else {
                &&& final(self).left@ == resized(old(self).left@, frame_size as int)
                &&& final(self).right@ == resized(old(self).right@, frame_size as int)
            },
    {
        if self.left.len() == 0 {
            return;
        }
        resize(&mut self.left, frame_size);
        resize(&mut self.right, frame_size);
    }
}

/// The samples of both channels in turn, with everything that is no number
/// silenced. Samples without a counterpart are left out.
pub open spec fn interleaved(left: Seq<u32>, right: Seq<u32>) -> Seq<u32> {
    let pairs = if left.len() < right.len() {
        left.len()
    } else {
        right.len()
    };
    Seq::new(
        2 * pairs,
        |i: int|
            finite_or_zero_spec(
                if i % 2 == 0 {
                    left[i / 2]
                } else {
                    right[i / 2]
                },
            ),
    )
}

/// Interleaves two channels for an audio device.
pub fn interleave(left: &[u32], right: &[u32]) -> (samples: Vec<u32>)
    ensures
        samples@ == interleaved(left@, right@),
{
    let mut samples: Vec<u32> = Vec::new();
    let mut i: usize = 0;
    while i < left.len() && i < right.len()
        invariant
            i <= left.len(),
            i <= right.len(),
            samples@.len() == 2 * i,
            forall|k: int|
                0 <= k < 2 * i ==> #[trigger] samples@[k] == finite_or_zero_spec(
                    if k % 2 == 0 {
                        left@[k / 2]
                    } else {
                        right@[k / 2]
                    },
                ),
        decreases left.len() - i,
    {
        samples.push(finite_or_zero(left[i]));
        samples.push(finite_or_zero(right[i]));
        i += 1;
    }
    assert(samples@ =~= interleaved(left@, right@));
    samples
}

/// A sample that is a number passes unchanged, whatever its sign, its exponent
/// and its mantissa. Only the largest exponent, that of infinities and of what
/// is no number, is silenced.
pub proof fn law_numbers_pass_unchanged(sign: u32, exponent: u32, mantissa: u32)
    requires
        sign <= 1,
        exponent <= 255,
        mantissa < 0x80_0000,
    ensures
        ({
            let bits = (sign * 0x8000_0000 + exponent * 0x80_0000 + mantissa) as u32;
            &&& exponent < 255 ==> finite_or_zero_spec(bits) == bits
            &&& exponent == 255 ==> finite_or_zero_spec(bits) == 0
        }),
{
    let bits = (sign * 0x8000_0000 + exponent * 0x80_0000 + mantissa) as u32;
    assert(bits == sign * 0x8000_0000 + exponent * 0x80_0000 + mantissa);
    assert(bits / 0x80_0000 == sign * 256 + exponent);
    assert((bits / 0x80_0000) % 0x100 == exponent);
}

/// Whether a buffered sample is right: the sample that came in where that is a
/// number, that is, where its exponent is not the largest, and silence else.
pub open spec fn is_faithful(sample: u32, given: u32) -> bool {
    if (given / 0x80_0000) % 0x100 == 0xff {
        sample == 0
    } else {
        sample == given
    }
}

/// Samples reach a buffer one by one: behind what it held stand the samples
/// that came in, as many as came in and each one faithful.
pub proof fn law_samples_are_buffered(
    before: AudioBuffer,
    left: Seq<u32>,
    right: Seq<u32>,
    pts: Option<i64>,
    after: AudioBuffer,
)
    requires
        before.wf(),
        left.len() == right.len(),
        before.pushed(left, right, pts, after),
    ensures
        after.left@.len() == before.left@.len() + left.len(),
        after.right@.len() == before.right@.len() + right.len(),
        after.left@.take(before.left@.len() as int) == before.left@,
        after.right@.take(before.right@.len() as int) == before.right@,
        forall|i: int|
            0 <= i < left.len() ==> is_faithful(
                after.left@[before.left@.len() + i],
                #[trigger] left[i],
            ),
        forall|i: int|
            0 <= i < right.len() ==> is_faithful(
                after.right@[before.right@.len() + i],
                #[trigger] right[i],
            ),
        before.left@.len() > 0 || left.len() == 0 ==> after.pts == before.pts,
        before.left@.len() == 0 && left.len() > 0 ==> after.pts == pts,
{
    assert(after.left@.take(before.left@.len() as int) =~= before.left@);
    assert(after.right@.take(before.right@.len() as int) =~= before.right@);
    assert forall|i: int| 0 <= i < left.len() implies is_faithful(
        after.left@[before.left@.len() + i],
        #[trigger] left[i],
    ) by {
        assert(after.left@[before.left@.len() + i] == cleaned(left)[i]);
    }
    assert forall|i: int| 0 <= i < right.len() implies is_faithful(
        after.right@[before.right@.len() + i],
        #[trigger] right[i],
    ) by {
        assert(after.right@[before.right@.len() + i] == cleaned(right)[i]);
    }
}

/// A frame is cut whenever there are samples for a whole one: it has the size
/// that was asked for, it holds the oldest samples of both channels under
/// their timestamp, and the others stay in their order.
pub proof fn law_whole_frames_are_cut(
    before: AudioBuffer,
    frame_size: usize,
    result: Result<Option<AudioFrame>, AudioBufferError>,
    after: AudioBuffer,
)
    requires
        before.wf(),
        before.can_take(frame_size),
        before.taken(frame_size, result, after),
    ensures
        (result is Err) == (frame_size == 0),
        frame_size > before.left@.len() ==> result == Ok::<Option<AudioFrame>, AudioBufferError>(
            None,
        ),
        !(result matches Ok(Some(_))) ==> after == before,
        0 < frame_size <= before.left@.len() ==> (result matches Ok(Some(frame)) && {
            &&& frame.left@.len() == frame_size
            &&& frame.right@.len() == frame_size
            &&& frame.left@ + after.left@ == before.left@
            &&& frame.right@ + after.right@ == before.right@
            &&& frame.pts == before.pts
            &&& before.pts is None ==> after.pts is None
            &&& before.pts matches Some(pts) ==> (after.pts matches Some(next) && next == pts
                + frame_size)
        }),
{
    if let Ok(Some(frame)) = result {
        assert(frame.left@ + after.left@ =~= before.left@);
        assert(frame.right@ + after.right@ =~= before.right@);
    }
}

/// A cut is refused only where the timestamp behind the frame would not fit
/// into 64 bits.
pub proof fn law_cuts_are_refused_only_at_the_limit(buffer: AudioBuffer, frame_size: usize)
    ensures
        !buffer.can_take(frame_size) ==> frame_size > 0 && (buffer.pts matches Some(pts) && pts
            + frame_size > i64::MAX),
{
}

/// The samples of a channel as they came in.
pub open spec fn raw_in(steps: Seq<BufferStep>, is_left: bool) -> Seq<u32>
    decreases steps.len(),
{
    if steps.len() == 0 {
        Seq::empty()
    } else {
        let before = raw_in(steps.drop_last(), is_left);
        match steps.last() {
            BufferStep::Push { left, right, .. } => before + if is_left {
                left
            } else {
                right
            },
            BufferStep::Take { .. } => before,
        }
    }
}

/// Sample for sample, what went out in frames and what is held is what came
/// in: every number unchanged, everything else silent, nothing lost, added or
/// moved.
pub proof fn law_sound_passes_sample_for_sample(
    states: Seq<AudioBuffer>,
    steps: Seq<BufferStep>,
    frame_size: usize,
    is_left: bool,
)
    requires
        is_history(states, steps, frame_size),
        states[0].wf(),
        states[0].left@.len() == 0,
    ensures
        ({
            let held = if is_left {
                states.last().left@
            } else {
                states.last().right@
            };
            let passed = samples_out(steps, is_left) + held;
            let given = raw_in(steps, is_left);
            &&& passed.len() == given.len()
            &&& forall|i: int| 0 <= i < given.len() ==> is_faithful(passed[i], #[trigger] given[i])
        }),
{
    law_samples_keep_their_order(states, steps, frame_size);
    lemma_raw_in(steps, is_left);
}

proof fn lemma_raw_in(steps: Seq<BufferStep>, is_left: bool)
    ensures
        samples_in(steps, is_left).len() == raw_in(steps, is_left).len(),
        forall|i: int|
            0 <= i < raw_in(steps, is_left).len() ==> is_faithful(
                samples_in(steps, is_left)[i],
                #[trigger] raw_in(steps, is_left)[i],
            ),
    decreases steps.len(),
{
    if steps.len() > 0 {
        lemma_raw_in(steps.drop_last(), is_left);
        let clean = samples_in(steps.drop_last(), is_left);
        let raw = raw_in(steps.drop_last(), is_left);
        if let BufferStep::Push { left, right, .. } = steps.last() {
            let more = if is_left {
                left
            } else {
                right
            };
            assert forall|i: int| 0 <= i < raw_in(steps, is_left).len() implies is_faithful(
                samples_in(steps, is_left)[i],
                #[trigger] raw_in(steps, is_left)[i],
            ) by {
                if i < raw.len() {
                    assert(raw_in(steps, is_left)[i] == raw[i]);
                    assert(samples_in(steps, is_left)[i] == clean[i]);
                } else {
                    assert(raw_in(steps, is_left)[i] == more[i - raw.len()]);
                    assert(samples_in(steps, is_left)[i] == cleaned(more)[i - raw.len()]);
                }
            }
        }
    }
}

/// Interleaving takes the two channels in turn, left first, as far as both
/// reach: each sample stands where its number says, and is faithful.
pub proof fn law_channels_take_turns(left: Seq<u32>, right: Seq<u32>)
    ensures
        interleaved(left, right).len() == 2 * left.len() || interleaved(left, right).len() == 2
            * right.len(),
        interleaved(left, right).len() <= 2 * left.len(),
        interleaved(left, right).len() <= 2 * right.len(),
        forall|i: int|
            0 <= i < left.len() && i < right.len() ==> is_faithful(
                interleaved(left, right)[2 * i],
                #[trigger] left[i],
            ),
        forall|i: int|
            0 <= i < left.len() && i < right.len() ==> is_faithful(
                interleaved(left, right)[2 * i + 1],
                #[trigger] right[i],
            ),
{
}

/// Padding keeps the samples that are there and adds silence behind them, up
/// to one frame; what is longer is cut.
pub proof fn law_padding_adds_silence(samples: Seq<u32>, len: int)
    requires
        0 <= len,
    ensures
        resized(samples, len).len() == len,
        forall|i: int|
            0 <= i < len && i < samples.len() ==> #[trigger] resized(samples, len)[i] == samples[i],
        forall|i: int|
            samples.len() <= i < len ==> #[trigger] resized(samples, len)[i] == 0,
{
}

/// Something that is done with a buffer.
pub enum BufferStep {
    /// [`AudioBuffer::push`] appends these samples.
    Push { left: Seq<u32>, right: Seq<u32>, pts: Option<i64> },
    /// [`AudioBuffer::take_frame`] gives this frame, or none.
    Take { frame: Option<AudioFrame> },
}

/// Whether a step takes a buffer from one state to the next.
pub open spec fn step_holds(
    before: AudioBuffer,
    step: BufferStep,
    frame_size: usize,
    after: AudioBuffer,
) -> bool {
    match step {
        BufferStep::Push { left, right, pts } => {
            &&& left.len() == right.len()
            &&& before.pushed(left, right, pts, after)
        },
        BufferStep::Take { frame } => {
            &&& before.can_take(frame_size)
            &&& before.taken(frame_size, Ok(frame), after)
        },
    }
}

/// Whether the steps take a buffer through these states.
pub open spec fn is_history(
    states: Seq<AudioBuffer>,
    steps: Seq<BufferStep>,
    frame_size: usize,
) -> bool {
    &&& states.len() == steps.len() + 1
    &&& forall|i: int|
        0 <= i < steps.len() ==> step_holds(
            states[i],
            #[trigger] steps[i],
            frame_size,
            states[i + 1],
        )
}

/// The samples of a channel that came in, without what is no number.
pub open spec fn samples_in(steps: Seq<BufferStep>, is_left: bool) -> Seq<u32>
    decreases steps.len(),
{
    if steps.len() == 0 {
        Seq::empty()
    } else {
        let before = samples_in(steps.drop_last(), is_left);
        match steps.last() {
            BufferStep::Push { left, right, .. } => before + cleaned(
                if is_left {
                    left
                } else {
                    right
                },
            ),
            BufferStep::Take { .. } => before,
        }
    }
}

/// The samples of a channel that went out in frames.
pub open spec fn samples_out(steps: Seq<BufferStep>, is_left: bool) -> Seq<u32>
    decreases steps.len(),
{
    if steps.len() == 0 {
        Seq::empty()
    } else {
        let before = samples_out(steps.drop_last(), is_left);
        match steps.last() {
            BufferStep::Take { frame: Some(frame) } => before + if is_left {
                frame.left@
            } else {
                frame.right@
            },
            _ => before,
        }
    }
}

/// Whether the samples that come in are numbered from `origin` without a gap.
pub open spec fn input_is_continuous(steps: Seq<BufferStep>, origin: int) -> bool {
    forall|i: int|
        0 <= i < steps.len() ==> (#[trigger] steps[i] matches BufferStep::Push { left, pts, .. } ==> (
        left.len() > 0 ==> (pts matches Some(pts) && pts == origin + samples_in(
            steps.take(i),
            true,
        ).len())))
}

/// Cutting frames neither loses nor reorders samples: in each channel, what
/// went out and what is held is what came in.
pub proof fn law_samples_keep_their_order(
    states: Seq<AudioBuffer>,
    steps: Seq<BufferStep>,
    frame_size: usize,
)
    requires
        is_history(states, steps, frame_size),
        states[0].wf(),
        states[0].left@.len() == 0,
    ensures
        samples_out(steps, true) + states.last().left@ == samples_in(steps, true),
        samples_out(steps, false) + states.last().right@ == samples_in(steps, false),
        states.last().wf(),
        samples_out(steps, true).len() == samples_out(steps, false).len(),
    decreases steps.len(),
{
    if steps.len() > 0 {
        let before = states[steps.len() - 1];
        let after = states.last();
        let step = steps.last();
        lemma_history_prefix(states, steps, frame_size);
        law_samples_keep_their_order(states.drop_last(), steps.drop_last(), frame_size);
        assert(states.drop_last().last() == before);
        assert(step_holds(before, steps[steps.len() - 1], frame_size, after));
        let out_left = samples_out(steps.drop_last(), true);
        let out_right = samples_out(steps.drop_last(), false);
        match step {
            BufferStep::Push { left, right, .. } => {
                assert(out_left + (before.left@ + cleaned(left)) =~= (out_left + before.left@)
                    + cleaned(left));
                assert(out_right + (before.right@ + cleaned(right)) =~= (out_right + before.right@)
                    + cleaned(right));
            },
            BufferStep::Take { frame } => {
                if frame is Some {
                    let size = frame_size as int;
                    assert(out_left + before.left@.take(size) + before.left@.skip(size) =~= out_left
                        + before.left@);
                    assert(out_right + before.right@.take(size) + before.right@.skip(size)
                        =~= out_right + before.right@);
                }
            },
        }
    } else {
        assert(samples_out(steps, true) + states.last().left@ =~= samples_in(steps, true));
        assert(samples_out(steps, false) + states.last().right@ =~= samples_in(steps, false));
    }
}

/// When the samples that come in are numbered without a gap, the timestamp of
/// each frame is the number of its first sample.
pub proof fn law_frames_keep_their_time(
    states: Seq<AudioBuffer>,
    steps: Seq<BufferStep>,
    frame_size: usize,
    origin: int,
)
    requires
        is_history(states, steps, frame_size),
        input_is_continuous(steps, origin),
        states[0].wf(),
        states[0].left@.len() == 0,
    ensures
        forall|i: int|
            0 <= i < steps.len() ==> (#[trigger] steps[i] matches BufferStep::Take {
                frame: Some(frame),
            } ==> (frame.pts matches Some(pts) && pts == origin + samples_out(
                steps.take(i),
                true,
            ).len())),
        states.last().left@.len() > 0 ==> (states.last().pts matches Some(pts) && pts == origin
            + samples_out(steps, true).len()),
    decreases steps.len(),
{
    if steps.len() > 0 {
        let last = steps.len() - 1;
        let earlier = steps.drop_last();
        let before = states[last];
        lemma_history_prefix(states, steps, frame_size);
        assert forall|i: int| 0 <= i < earlier.len() implies (#[trigger] earlier[i] matches
            BufferStep::Push { left, pts, .. } ==> (left.len() > 0 ==> (pts matches Some(pts) && pts
            == origin + samples_in(earlier.take(i), true).len()))) by {
            assert(steps[i] == earlier[i]);
            assert(steps.take(i) =~= earlier.take(i));
        }
        law_frames_keep_their_time(states.drop_last(), earlier, frame_size, origin);
        law_samples_keep_their_order(states.drop_last(), earlier, frame_size);
        assert(states.drop_last().last() == before);
        assert(steps.take(last) =~= earlier);
        assert(step_holds(before, steps[last], frame_size, states[last + 1]));
        assert forall|i: int| 0 <= i < steps.len() implies (#[trigger] steps[i] matches
            BufferStep::Take { frame: Some(frame) } ==> (frame.pts matches Some(pts) && pts == origin
            + samples_out(steps.take(i), true).len())) by {
            if i < last {
                assert(steps[i] == earlier[i]);
                assert(steps.take(i) =~= earlier.take(i));
            }
        }
    }
}

proof fn lemma_history_prefix(
    states: Seq<AudioBuffer>,
    steps: Seq<BufferStep>,
    frame_size: usize,
)
    requires
        is_history(states, steps, frame_size),
        steps.len() > 0,
    ensures
        is_history(states.drop_last(), steps.drop_last(), frame_size),
        states.drop_last()[0] == states[0],
{
    let earlier = steps.drop_last();
    assert forall|i: int| 0 <= i < earlier.len() implies step_holds(
        states.drop_last()[i],
        #[trigger] earlier[i],
        frame_size,
        states.drop_last()[i + 1],
    ) by {
        assert(earlier[i] == steps[i]);
    }
}

} // verus!
