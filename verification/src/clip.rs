//! Playing one clip: which work comes next, which timestamps the output frames
//! carry, and what comes of it.
use crate::frame_rate::FrameRateConverter;
use crate::rational::{rescale, rescale_spec, Rational};
use crate::text::{
    from_chars, lemma_split_behind_separator, lemma_split_single, split_on, split_on_spec, to_chars,
};
use crate::timeline::Timeline;
use vstd::prelude::*;

verus! {

/// Why a clip cannot be played.
#[derive(Clone, Copy, Debug, PartialEq, Eq, Structural)]
pub enum ClipError {
    /// The input has neither an audio nor a video stream.
    NoStream,
    /// No frame of the input could be decoded.
    NothingDecoded,
}

/// The work that a clip asks for next.
#[derive(Clone, Copy, Debug, PartialEq, Eq, Structural)]
pub enum ClipAction {
    /// Tell the output where video is expected to end.
    SetVideoEnd(Option<i64>),
    /// Tell the output that no more video follows.
    ReportVideoFinished,
    /// Read a packet of the input.
    ReadPacket,
    /// Hand the packet to the video decoder.
    SendVideo,
    /// Hand the packet to the audio decoder.
    SendAudio,
    /// Tell the video decoder that the input has ended.
    FlushVideo,
    /// Tell the audio decoder that the input has ended.
    FlushAudio,
    /// Ask the video decoder for a frame.
    ReceiveVideo,
    /// Ask the audio decoder for a frame and resample it.
    ReceiveAudio,
    /// Scale the decoded video frame to the size of the output.
    ScaleVideo,
    /// Write the scaled video frame.
    WriteVideo {
        /// The timestamp that it carries.
        pts: i64,
    },
    /// Write the resampled audio frame.
    WriteAudio {
        /// The timestamp that it carries.
        pts: i64,
        /// How many samples it has.
        samples: i64,
    },
    /// Bring both streams to a common end: the clip is complete.
    Synchronize,
    /// Give up.
    Fail(ClipError),
}

/// What came of the work.
#[derive(Clone, Copy, Debug, PartialEq, Eq, Structural)]
pub enum ClipEvent {
    /// It is done.
    Done,
    /// A packet of this stream was read.
    Packet(usize),
    /// The input has no more packets.
    InputEnded,
    /// A video frame with this timestamp was decoded.
    VideoFrame(Option<i64>),
    /// An audio frame with this many samples was decoded and resampled.
    AudioFrame(i64),
    /// The decoder has no frame for now.
    NoFrame,
}

/// A clip that is being played.
#[derive(Clone, Copy, Debug)]
pub struct ClipPlayer {
    /// The number of the video stream.
    pub video_index: Option<usize>,
    /// The number of the audio stream.
    pub audio_index: Option<usize>,
    /// Decides how often a decoded frame is shown.
    pub converter: FrameRateConverter,
    /// The timestamps of the next output.
    pub timeline: Timeline,
    /// How many video frames were written.
    pub decoded_video_frames: i64,
    /// How many audio samples were written.
    pub decoded_audio_samples: i64,
    /// Whether no more video follows.
    pub video_finished: bool,
    /// Whether all packets were read.
    pub input_ended: bool,
    /// How often the decoded video frame is still to be written.
    pub copies_left: i64,
    /// The work that was asked for last.
    pub pending: ClipAction,
}

impl ClipPlayer {
    /// What holds at every moment.
    pub open spec fn wf(self) -> bool {
        &&& self.converter.wf()
        &&& self.video_index is Some || self.audio_index is Some
        &&& self.decoded_video_frames >= 0
        &&& self.decoded_audio_samples >= 0
        &&& self.video_index is None ==> self.video_finished
        &&& self.video_finished && self.video_index is Some ==> self.input_ended
        &&& match self.pending {
            ClipAction::SetVideoEnd(_) | ClipAction::ReadPacket => !self.input_ended,
            ClipAction::ReportVideoFinished => {
                &&& self.input_ended ==> !self.video_finished
                &&& !self.input_ended ==> self.video_index is None
            },
            ClipAction::SendVideo => self.video_index is Some && !self.input_ended,
            ClipAction::SendAudio => self.audio_index is Some && !self.input_ended,
            ClipAction::FlushVideo => !self.video_finished && self.input_ended,
            ClipAction::FlushAudio => {
                &&& self.audio_index is Some
                &&& self.video_finished
                &&& self.input_ended
            },
            ClipAction::ReceiveVideo => !self.video_finished,
            ClipAction::ReceiveAudio => {
                &&& self.audio_index is Some
                &&& self.input_ended ==> self.video_finished
            },
            ClipAction::ScaleVideo => !self.video_finished && self.copies_left > 0,
            ClipAction::WriteVideo { pts } => {
                &&& !self.video_finished
                &&& self.copies_left > 0
                &&& pts == self.timeline.video_pts
            },
            ClipAction::WriteAudio { pts, samples } => {
                &&& self.audio_index is Some
                &&& self.input_ended ==> self.video_finished
                &&& pts == self.timeline.audio_pts
                &&& samples >= 0
            },
            ClipAction::Synchronize => {
                &&& self.video_finished
                &&& self.input_ended
                &&& self.decoded_video_frames > 0 || self.decoded_audio_samples > 0
            },
            ClipAction::Fail(error) => {
                &&& self.video_finished
                &&& self.input_ended
                &&& error == ClipError::NothingDecoded
                &&& self.decoded_video_frames == 0
                &&& self.decoded_audio_samples == 0
            },
        }
    }

    /// Whether an event can follow the work that was asked for, with
    /// timestamps and counts that fit into 64 bits.
    pub open spec fn accepts_spec(self, event: ClipEvent) -> bool {
        match (self.pending, event) {
            (ClipAction::ReadPacket, ClipEvent::Packet(_)) => true,
            (ClipAction::ReadPacket, ClipEvent::InputEnded) => true,
            (ClipAction::ReceiveVideo, ClipEvent::VideoFrame(timestamp)) => {
                self.converter.accepts_spec(timestamp)
            },
            (ClipAction::ReceiveVideo, ClipEvent::NoFrame) => true,
            (ClipAction::ReceiveAudio, ClipEvent::AudioFrame(samples)) => samples >= 0,
            (ClipAction::ReceiveAudio, ClipEvent::NoFrame) => true,
            (ClipAction::WriteVideo { .. }, ClipEvent::Done) => {
                &&& self.timeline.video_pts < i64::MAX
                &&& self.decoded_video_frames < i64::MAX
            },
            (ClipAction::WriteAudio { samples, .. }, ClipEvent::Done) => {
                &&& self.timeline.audio_pts + samples <= i64::MAX
                &&& self.decoded_audio_samples + samples <= i64::MAX
            },
            (ClipAction::SetVideoEnd(_), ClipEvent::Done) => true,
            (ClipAction::ReportVideoFinished, ClipEvent::Done) => true,
            (ClipAction::SendVideo, ClipEvent::Done) => true,
            (ClipAction::SendAudio, ClipEvent::Done) => true,
            (ClipAction::FlushVideo, ClipEvent::Done) => true,
            (ClipAction::FlushAudio, ClipEvent::Done) => true,
            (ClipAction::ScaleVideo, ClipEvent::Done) => true,
            _ => false,
        }
    }

    /// The clip with other work asked for.
    pub open spec fn asking(self, action: ClipAction) -> ClipPlayer {
        ClipPlayer { pending: action, ..self }
    }

    /// The work on a packet: packets of other streams are skipped.
    pub open spec fn routed(self, stream: usize) -> ClipAction {
        if self.video_index == Some(stream) {
            if self.video_finished {
                ClipAction::ReadPacket
            } else {
                ClipAction::SendVideo
            }
        } else if self.audio_index == Some(stream) {
            ClipAction::SendAudio
        } else {
            ClipAction::ReadPacket
        }
    }

    /// The last work on a clip, when both decoders are empty.
    pub open spec fn outcome(self) -> ClipAction {
        if self.decoded_video_frames == 0 && self.decoded_audio_samples == 0 {
            ClipAction::Fail(ClipError::NothingDecoded)
        } else {
            ClipAction::Synchronize
        }
    }

    /// The work that follows the end of video, once all packets were read.
    pub open spec fn behind_video(self) -> ClipAction {
        if self.audio_index is Some {
            ClipAction::FlushAudio
        } else {
            self.outcome()
        }
    }

    /// The clip after a decoded video frame: it is written as often as the
    /// frame rate asks for.
    pub open spec fn with_video_frame(self, timestamp: Option<i64>) -> ClipPlayer {
        let copies = self.converter.output_frames_spec(timestamp);
        ClipPlayer {
            converter: FrameRateConverter {
                first_timestamp: match timestamp {
                    None => self.converter.first_timestamp,
                    Some(timestamp) => Some(self.converter.origin(timestamp) as i64),
                },
                next_output_frame: (self.converter.next_output_frame + copies) as i64,
                ..self.converter
            },
            copies_left: copies as i64,
            pending: if copies == 0 {
                ClipAction::ReceiveVideo
            } else {
                ClipAction::ScaleVideo
            },
            ..self
        }
    }

    /// The clip after a video frame was written.
    pub open spec fn with_video_written(self) -> ClipPlayer {
        let video_pts = (self.timeline.video_pts + 1) as i64;
        ClipPlayer {
            timeline: Timeline { video_pts, ..self.timeline },
            decoded_video_frames: (self.decoded_video_frames + 1) as i64,
            copies_left: (self.copies_left - 1) as i64,
            pending: if self.copies_left > 1 {
                ClipAction::WriteVideo { pts: video_pts }
            } else {
                ClipAction::ReceiveVideo
            },
            ..self
        }
    }

    /// The clip after audio samples were written.
    pub open spec fn with_audio_written(self, samples: i64) -> ClipPlayer {
        ClipPlayer {
            timeline: Timeline {
                audio_pts: (self.timeline.audio_pts + samples) as i64,
                ..self.timeline
            },
            decoded_audio_samples: (self.decoded_audio_samples + samples) as i64,
            pending: ClipAction::ReceiveAudio,
            ..self
        }
    }

    /// The clip after an event.
    pub open spec fn after(self, event: ClipEvent) -> ClipPlayer {
        match (self.pending, event) {
            (ClipAction::ReadPacket, ClipEvent::Packet(stream)) => self.asking(self.routed(stream)),
            (ClipAction::ReadPacket, ClipEvent::InputEnded) => ClipPlayer {
                input_ended: true,
                pending: if self.video_finished {
                    self.behind_video()
                } else {
                    ClipAction::FlushVideo
                },
                ..self
            },
            (ClipAction::ReceiveVideo, ClipEvent::VideoFrame(timestamp)) => {
                self.with_video_frame(timestamp)
            },
            (ClipAction::ReceiveVideo, ClipEvent::NoFrame) => self.asking(
                if self.input_ended {
                    ClipAction::ReportVideoFinished
                } else {
                    ClipAction::ReadPacket
                },
            ),
            (ClipAction::ReceiveAudio, ClipEvent::AudioFrame(samples)) => self.asking(
                ClipAction::WriteAudio { pts: self.timeline.audio_pts, samples },
            ),
            (ClipAction::ReceiveAudio, ClipEvent::NoFrame) => self.asking(
                if self.input_ended {
                    self.outcome()
                } else {
                    ClipAction::ReadPacket
                },
            ),
            (ClipAction::WriteVideo { .. }, ClipEvent::Done) => self.with_video_written(),
            (ClipAction::WriteAudio { samples, .. }, ClipEvent::Done) => self.with_audio_written(
                samples,
            ),
            (ClipAction::SetVideoEnd(_), ClipEvent::Done) => self.asking(
                if self.video_finished {
                    ClipAction::ReportVideoFinished
                } else {
                    ClipAction::ReadPacket
                },
            ),
            (ClipAction::ReportVideoFinished, ClipEvent::Done) => if self.input_ended {
                ClipPlayer { video_finished: true, pending: self.behind_video(), ..self }
            } else {
                self.asking(ClipAction::ReadPacket)
            },
            (ClipAction::SendVideo, ClipEvent::Done) => self.asking(ClipAction::ReceiveVideo),
            (ClipAction::FlushVideo, ClipEvent::Done) => self.asking(ClipAction::ReceiveVideo),
            (ClipAction::SendAudio, ClipEvent::Done) => self.asking(ClipAction::ReceiveAudio),
            (ClipAction::FlushAudio, ClipEvent::Done) => self.asking(ClipAction::ReceiveAudio),
            (ClipAction::ScaleVideo, ClipEvent::Done) => self.asking(
                ClipAction::WriteVideo { pts: self.timeline.video_pts },
            ),
            _ => self,
        }
    }

    /// Starts a clip that continues a timeline. `video_end` is the timestamp at
    /// which video is expected to end.
    pub fn open(
        video_index: Option<usize>,
        audio_index: Option<usize>,
        converter: FrameRateConverter,
        timeline: Timeline,
        video_end: Option<i64>,
    ) -> (player: Result<Self, ClipError>)
        requires
            converter.wf(),
        ensures
            match player {
                Err(error) => error == ClipError::NoStream && video_index is None
                    && audio_index is None,
                Ok(player) => {
                    &&& video_index is Some || audio_index is Some
                    &&& player == (ClipPlayer {
                        video_index,
                        audio_index,
                        converter,
                        timeline,
                        decoded_video_frames: 0,
                        decoded_audio_samples: 0,
                        video_finished: video_index is None,
                        input_ended: false,
                        copies_left: 0,
                        pending: ClipAction::SetVideoEnd(video_end),
                    })
                    &&& player.wf()
                },
            },
    {
        if video_index.is_none() && audio_index.is_none() {
            return Err(ClipError::NoStream);
        }
        Ok(
            ClipPlayer {
                video_index,
                audio_index,
                converter,
                timeline,
                decoded_video_frames: 0,
                decoded_audio_samples: 0,
                video_finished: video_index.is_none(),
                input_ended: false,
                copies_left: 0,
                pending: ClipAction::SetVideoEnd(video_end),
            },
        )
    }

    /// Whether an event can follow the work that was asked for.
    pub fn accepts(&self, event: ClipEvent) -> (accepted: bool)
        requires
            self.wf(),
        ensures
            accepted == self.accepts_spec(event),
    {
        match (self.pending, event) {
            (ClipAction::ReadPacket, ClipEvent::Packet(_)) => true,
            (ClipAction::ReadPacket, ClipEvent::InputEnded) => true,
            (ClipAction::ReceiveVideo, ClipEvent::VideoFrame(timestamp)) => {
                self.converter.accepts(timestamp)
            },
            (ClipAction::ReceiveVideo, ClipEvent::NoFrame) => true,
            (ClipAction::ReceiveAudio, ClipEvent::AudioFrame(samples)) => samples >= 0,
            (ClipAction::ReceiveAudio, ClipEvent::NoFrame) => true,
            (ClipAction::WriteVideo { .. }, ClipEvent::Done) => {
                self.timeline.video_pts < i64::MAX && self.decoded_video_frames < i64::MAX
            },
            (ClipAction::WriteAudio { samples, .. }, ClipEvent::Done) => {
                self.timeline.audio_pts <= i64::MAX - samples && self.decoded_audio_samples
                    <= i64::MAX - samples
            },
            (ClipAction::SetVideoEnd(_), ClipEvent::Done) => true,
            (ClipAction::ReportVideoFinished, ClipEvent::Done) => true,
            (ClipAction::SendVideo, ClipEvent::Done) => true,
            (ClipAction::SendAudio, ClipEvent::Done) => true,
            (ClipAction::FlushVideo, ClipEvent::Done) => true,
            (ClipAction::FlushAudio, ClipEvent::Done) => true,
            (ClipAction::ScaleVideo, ClipEvent::Done) => true,
            _ => false,
        }
    }

    fn route(&self, stream: usize) -> (action: ClipAction)
        ensures
            action == self.routed(stream),
    {
        let is_video = match self.video_index {
            Some(index) => index == stream,
            None => false,
        };
        let is_audio = match self.audio_index {
            Some(index) => index == stream,
            None => false,
        };
        if is_video {
            if self.video_finished {
                ClipAction::ReadPacket
            } else {
                ClipAction::SendVideo
            }
        } else if is_audio {
            ClipAction::SendAudio
        } else {
            ClipAction::ReadPacket
        }
    }

    fn conclude(&self) -> (action: ClipAction)
        ensures
            action == self.outcome(),
    {
        if self.decoded_video_frames == 0 && self.decoded_audio_samples == 0 {
            ClipAction::Fail(ClipError::NothingDecoded)
        } else {
            ClipAction::Synchronize
        }
    }

    fn follow_video(&self) -> (action: ClipAction)
        ensures
            action == self.behind_video(),
    {
        if self.audio_index.is_some() {
            ClipAction::FlushAudio
        } else {
            self.conclude()
        }
    }

    /// Takes note of what came of the work and says what comes next.
    pub fn next(&mut self, event: ClipEvent) -> (action: ClipAction)
        requires
            old(self).wf(),
            old(self).accepts_spec(event),
        ensures
            *final(self) == old(self).after(event),
            action == final(self).pending,
            final(self).wf(),
    {
        match (self.pending, event) {
            (ClipAction::ReadPacket, ClipEvent::Packet(stream)) => {
                self.pending = self.route(stream);
            },
            (ClipAction::ReadPacket, ClipEvent::InputEnded) => {
                self.pending = if self.video_finished {
                    self.follow_video()
                } else {
                    ClipAction::FlushVideo
                };
                self.input_ended = true;
            },
            (ClipAction::ReceiveVideo, ClipEvent::VideoFrame(timestamp)) => {
                let copies = self.converter.output_frames(timestamp);
                self.copies_left = copies;
                self.pending = if copies == 0 {
                    ClipAction::ReceiveVideo
                } else {
                    ClipAction::ScaleVideo
                };
            },
            (ClipAction::ReceiveVideo, ClipEvent::NoFrame) => {
                self.pending = if self.input_ended {
                    ClipAction::ReportVideoFinished
                } else {
                    ClipAction::ReadPacket
                };
            },
            (ClipAction::ReceiveAudio, ClipEvent::AudioFrame(samples)) => {
                self.pending = ClipAction::WriteAudio { pts: self.timeline.audio_pts, samples };
            },
            (ClipAction::ReceiveAudio, ClipEvent::NoFrame) => {
                self.pending = if self.input_ended {
                    self.conclude()
                } else {
                    ClipAction::ReadPacket
                };
            },
            (ClipAction::WriteVideo { .. }, ClipEvent::Done) => {
                self.timeline.video_written();
                self.decoded_video_frames = self.decoded_video_frames + 1;
                self.copies_left = self.copies_left - 1;
                self.pending = if self.copies_left > 0 {
                    ClipAction::WriteVideo { pts: self.timeline.video_pts }
                } else {
                    ClipAction::ReceiveVideo
                };
            },
            (ClipAction::WriteAudio { samples, .. }, ClipEvent::Done) => {
                self.timeline.audio_written(samples);
                self.decoded_audio_samples = self.decoded_audio_samples + samples;
                self.pending = ClipAction::ReceiveAudio;
            },
            (ClipAction::SetVideoEnd(_), ClipEvent::Done) => {
                self.pending = if self.video_finished {
                    ClipAction::ReportVideoFinished
                } else {
                    ClipAction::ReadPacket
                };
            },
            (ClipAction::ReportVideoFinished, ClipEvent::Done) => {
                if self.input_ended {
                    self.pending = self.follow_video();
                    self.video_finished = true;
                } else {
                    self.pending = ClipAction::ReadPacket;
                }
            },
            (ClipAction::SendVideo, ClipEvent::Done) => {
                self.pending = ClipAction::ReceiveVideo;
            },
            (ClipAction::FlushVideo, ClipEvent::Done) => {
                self.pending = ClipAction::ReceiveVideo;
            },
            (ClipAction::SendAudio, ClipEvent::Done) => {
                self.pending = ClipAction::ReceiveAudio;
            },
            (ClipAction::FlushAudio, ClipEvent::Done) => {
                self.pending = ClipAction::ReceiveAudio;
            },
            (ClipAction::ScaleVideo, ClipEvent::Done) => {
                self.pending = ClipAction::WriteVideo { pts: self.timeline.video_pts };
            },
            _ => {},
        }
        self.pending
    }
}

/// Whether each event can follow the work that was asked for before it.
pub open spec fn is_run(player: ClipPlayer, events: Seq<ClipEvent>) -> bool
    decreases events.len(),
{
    events.len() > 0 ==> {
        &&& is_run(player, events.drop_last())
        &&& ran(player, events.drop_last()).accepts_spec(events.last())
    }
}

/// The clip after a list of events.
pub open spec fn ran(player: ClipPlayer, events: Seq<ClipEvent>) -> ClipPlayer
    decreases events.len(),
{
    if events.len() == 0 {
        player
    } else {
        ran(player, events.drop_last()).after(events.last())
    }
}

/// The work that was done in the course of a list of events.
pub open spec fn work_done(player: ClipPlayer, events: Seq<ClipEvent>) -> Seq<ClipAction>
    decreases events.len(),
{
    if events.len() == 0 {
        Seq::empty()
    } else {
        let before = work_done(player, events.drop_last());
        if events.last() is Done {
            before.push(ran(player, events.drop_last()).pending)
        } else {
            before
        }
    }
}

/// The timestamps of the video frames among some work.
pub open spec fn video_written(work: Seq<ClipAction>) -> Seq<int>
    decreases work.len(),
{
    if work.len() == 0 {
        Seq::empty()
    } else {
        match work.last() {
            ClipAction::WriteVideo { pts } => video_written(work.drop_last()).push(pts as int),
            _ => video_written(work.drop_last()),
        }
    }
}

/// The timestamps and lengths of the audio frames among some work.
pub open spec fn audio_written(work: Seq<ClipAction>) -> Seq<(int, int)>
    decreases work.len(),
{
    if work.len() == 0 {
        Seq::empty()
    } else {
        match work.last() {
            ClipAction::WriteAudio { pts, samples } => audio_written(work.drop_last()).push(
                (pts as int, samples as int),
            ),
            _ => audio_written(work.drop_last()),
        }
    }
}

/// How often the output was told that no more video follows.
pub open spec fn ends_reported(work: Seq<ClipAction>) -> nat
    decreases work.len(),
{
    if work.len() == 0 {
        0
    } else {
        ends_reported(work.drop_last()) + if work.last() is ReportVideoFinished {
            1nat
        } else {
            0
        }
    }
}

/// The timestamp behind the last audio frame, or `start` before the first.
pub open spec fn audio_reached(start: int, frames: Seq<(int, int)>) -> int {
    if frames.len() == 0 {
        start
    } else {
        frames.last().0 + frames.last().1
    }
}

/// Whatever the input holds, the output of a clip continues the timeline: its
/// video frames are numbered without a gap from where the timeline was, each
/// audio frame starts where the one before it ended, and the timeline ends
/// behind what was written.
pub proof fn law_clip_continues_the_timeline(start: ClipPlayer, events: Seq<ClipEvent>)
    requires
        start.wf(),
        is_run(start, events),
    ensures
        ({
            let end = ran(start, events);
            let video = video_written(work_done(start, events));
            let audio = audio_written(work_done(start, events));
            &&& end.wf()
            &&& forall|i: int|
                0 <= i < video.len() ==> #[trigger] video[i] == start.timeline.video_pts + i
            &&& end.timeline.video_pts == start.timeline.video_pts + video.len()
            &&& forall|i: int|
                0 <= i < audio.len() ==> (#[trigger] audio[i]).0 == audio_reached(
                    start.timeline.audio_pts as int,
                    audio.take(i),
                )
            &&& end.timeline.audio_pts == audio_reached(start.timeline.audio_pts as int, audio)
        }),
    decreases events.len(),
{
    if events.len() > 0 {
        let before = events.drop_last();
        law_clip_continues_the_timeline(start, before);
        let middle = ran(start, before);
        lemma_step_keeps_wf(middle, events.last());
        let audio_before = audio_written(work_done(start, before));
        if events.last() is Done {
            let work = work_done(start, events);
            assert(work.drop_last() =~= work_done(start, before));
            let audio = audio_written(work);
            if middle.pending is WriteAudio {
                assert(audio.drop_last() =~= audio_before);
                assert forall|i: int| 0 <= i < audio.len() implies (#[trigger] audio[i]).0
                    == audio_reached(start.timeline.audio_pts as int, audio.take(i)) by {
                    if i < audio_before.len() {
                        assert(audio[i] == audio_before[i]);
                        assert(audio.take(i) =~= audio_before.take(i));
                    } else {
                        assert(audio.take(i) =~= audio_before);
                    }
                }
            } else {
                assert(audio == audio_before);
            }
        }
    }
}

/// The output is told exactly once that no more video follows: at once when
/// there is no video, else behind the last video frame.
pub proof fn law_end_of_video_is_reported_once(start: ClipPlayer, events: Seq<ClipEvent>)
    requires
        start.wf(),
        start.pending is SetVideoEnd,
        is_run(start, events),
    ensures
        ({
            let end = ran(start, events);
            let reports = ends_reported(work_done(start, events));
            &&& reports <= 1
            &&& end.pending is WriteVideo ==> reports == 0
            &&& end.pending is Synchronize || end.pending is Fail ==> reports == 1
        }),
{
    lemma_reports(start, events);
}

/// Every packet of the chosen streams goes to its decoder: whatever was read or
/// decoded before, a packet of the video stream is sent to the video decoder, a
/// packet of the audio stream to the audio decoder, and only packets of other
/// streams are skipped. Reading a packet changes nothing else.
pub proof fn law_packets_reach_their_decoder(player: ClipPlayer, stream: usize)
    requires
        player.wf(),
        player.pending is ReadPacket,
    ensures
        player.accepts_spec(ClipEvent::Packet(stream)),
        ({
            let read = player.after(ClipEvent::Packet(stream));
            &&& player.video_index == Some(stream) ==> read.pending is SendVideo
            &&& player.audio_index == Some(stream) && player.video_index != Some(stream)
                ==> read.pending is SendAudio
            &&& player.audio_index != Some(stream) && player.video_index != Some(stream)
                ==> read.pending is ReadPacket
            &&& read.timeline == player.timeline
            &&& read.converter == player.converter
            &&& read.decoded_video_frames == player.decoded_video_frames
            &&& read.decoded_audio_samples == player.decoded_audio_samples
            &&& read.video_finished == player.video_finished
            &&& read.input_ended == player.input_ended
        }),
{
}

/// How many packets of a stream were read.
pub open spec fn packets_read(events: Seq<ClipEvent>, stream: Option<usize>) -> nat
    decreases events.len(),
{
    if events.len() == 0 {
        0
    } else {
        packets_read(events.drop_last(), stream) + match events.last() {
            ClipEvent::Packet(index) if Some(index) == stream => 1nat,
            _ => 0,
        }
    }
}

/// How often work of one sort was done.
pub open spec fn times_done(work: Seq<ClipAction>, action: ClipAction) -> nat
    decreases work.len(),
{
    if work.len() == 0 {
        0
    } else {
        times_done(work.drop_last(), action) + if work.last() == action {
            1nat
        } else {
            0
        }
    }
}

/// One if the work is being waited for, else zero.
pub open spec fn waiting(player: ClipPlayer, action: ClipAction) -> nat {
    if player.pending == action {
        1
    } else {
        0
    }
}

/// Over a whole clip no packet is lost and none is decoded twice: as many
/// packets go to each decoder as were read of its stream. Each decoder is told
/// of the end of the input once, and before the clip is complete.
pub proof fn law_every_packet_is_decoded(start: ClipPlayer, events: Seq<ClipEvent>)
    requires
        start.wf(),
        start.pending is SetVideoEnd,
        start.audio_index != start.video_index,
        is_run(start, events),
    ensures
        ({
            let end = ran(start, events);
            let work = work_done(start, events);
            &&& times_done(work, ClipAction::SendVideo) + waiting(end, ClipAction::SendVideo)
                == if start.video_index is Some {
                packets_read(events, start.video_index)
            } else {
                0
            }
            &&& times_done(work, ClipAction::SendAudio) + waiting(end, ClipAction::SendAudio)
                == if start.audio_index is Some {
                packets_read(events, start.audio_index)
            } else {
                0
            }
            &&& times_done(work, ClipAction::FlushVideo) <= 1
            &&& times_done(work, ClipAction::FlushAudio) <= 1
            &&& end.pending is Synchronize || end.pending is Fail ==> {
                &&& events.contains(ClipEvent::InputEnded)
                &&& times_done(work, ClipAction::FlushVideo) == if start.video_index is Some {
                    1nat
                } else {
                    0
                }
                &&& times_done(work, ClipAction::FlushAudio) == if start.audio_index is Some {
                    1nat
                } else {
                    0
                }
            }
        }),
{
    lemma_packets(start, events);
    lemma_flushes(start, events);
}

proof fn lemma_packets(start: ClipPlayer, events: Seq<ClipEvent>)
    requires
        start.wf(),
        start.pending is SetVideoEnd,
        start.audio_index != start.video_index,
        is_run(start, events),
    ensures
        ({
            let end = ran(start, events);
            let work = work_done(start, events);
            &&& end.wf()
            &&& end.video_index == start.video_index
            &&& end.audio_index == start.audio_index
            &&& times_done(work, ClipAction::SendVideo) + waiting(end, ClipAction::SendVideo)
                == if start.video_index is Some {
                packets_read(events, start.video_index)
            } else {
                0
            }
            &&& times_done(work, ClipAction::SendAudio) + waiting(end, ClipAction::SendAudio)
                == if start.audio_index is Some {
                packets_read(events, start.audio_index)
            } else {
                0
            }
        }),
    decreases events.len(),
{
    if events.len() > 0 {
        let before = events.drop_last();
        lemma_packets(start, before);
        let middle = ran(start, before);
        lemma_step_keeps_wf(middle, events.last());
        if events.last() is Done {
            let work = work_done(start, events);
            assert(work.drop_last() =~= work_done(start, before));
            assert(work.last() == middle.pending);
        }
    }
}

proof fn lemma_flushes(start: ClipPlayer, events: Seq<ClipEvent>)
    requires
        start.wf(),
        start.pending is SetVideoEnd,
        is_run(start, events),
    ensures
        ({
            let end = ran(start, events);
            let work = work_done(start, events);
            let video = times_done(work, ClipAction::FlushVideo);
            let audio = times_done(work, ClipAction::FlushAudio);
            &&& end.wf()
            &&& end.video_index == start.video_index
            &&& end.audio_index == start.audio_index
            &&& end.input_ended ==> events.contains(ClipEvent::InputEnded)
            &&& !end.input_ended || start.video_index is None || end.pending is FlushVideo ==> video
                == 0
            &&& end.input_ended && start.video_index is Some && !(end.pending is FlushVideo)
                ==> video == 1
            &&& !end.input_ended || start.audio_index is None || !end.video_finished
                || end.pending is FlushAudio ==> audio == 0
            &&& end.input_ended && start.audio_index is Some && end.video_finished && !(
            end.pending is FlushAudio) ==> audio == 1
        }),
    decreases events.len(),
{
    if events.len() > 0 {
        let before = events.drop_last();
        lemma_flushes(start, before);
        let middle = ran(start, before);
        lemma_step_keeps_wf(middle, events.last());
        assert(events[events.len() - 1] == events.last());
        if before.contains(ClipEvent::InputEnded) {
            let k = choose|k: int| 0 <= k < before.len() && before[k] == ClipEvent::InputEnded;
            assert(events[k] == ClipEvent::InputEnded);
        }
        if events.last() is Done {
            let work = work_done(start, events);
            assert(work.drop_last() =~= work_done(start, before));
            assert(work.last() == middle.pending);
        }
    }
}

/// Whether a clip is busy with the frames of the video decoder.
pub open spec fn drains_video(action: ClipAction) -> bool {
    action is ReceiveVideo || action is ScaleVideo || action is WriteVideo
}

/// Whether a clip is busy with the frames of the audio decoder.
pub open spec fn drains_audio(action: ClipAction) -> bool {
    action is ReceiveAudio || action is WriteAudio
}

/// A decoder that was given something is asked for frames until it has none
/// left.
pub proof fn law_decoders_are_emptied(player: ClipPlayer, event: ClipEvent)
    requires
        player.wf(),
        player.accepts_spec(event),
    ensures
        player.pending is SendVideo || player.pending is FlushVideo ==> player.after(
            event,
        ).pending is ReceiveVideo,
        player.pending is SendAudio || player.pending is FlushAudio ==> player.after(
            event,
        ).pending is ReceiveAudio,
        drains_video(player.pending) ==> drains_video(player.after(event).pending) == !(
        event is NoFrame),
        drains_audio(player.pending) ==> drains_audio(player.after(event).pending) == !(
        event is NoFrame),
        player.pending is WriteAudio ==> player.after(event).pending is ReceiveAudio,
{
}

/// The lengths of the audio frames that were decoded.
pub open spec fn audio_decoded(events: Seq<ClipEvent>) -> Seq<int>
    decreases events.len(),
{
    if events.len() == 0 {
        Seq::empty()
    } else {
        match events.last() {
            ClipEvent::AudioFrame(samples) => audio_decoded(events.drop_last()).push(
                samples as int,
            ),
            _ => audio_decoded(events.drop_last()),
        }
    }
}

/// The lengths of the audio frames that were written, and of the one that is
/// about to be.
pub open spec fn audio_lengths(player: ClipPlayer, work: Seq<ClipAction>) -> Seq<int> {
    let done = audio_written(work).map_values(|frame: (int, int)| frame.1);
    match player.pending {
        ClipAction::WriteAudio { samples, .. } => done.push(samples as int),
        _ => done,
    }
}

/// No decoded sound is lost: the audio frames that are written are those that
/// were decoded, one by one, in order and with all their samples.
pub proof fn law_all_audio_is_written(start: ClipPlayer, events: Seq<ClipEvent>)
    requires
        start.wf(),
        start.pending is SetVideoEnd,
        is_run(start, events),
    ensures
        audio_lengths(ran(start, events), work_done(start, events)) == audio_decoded(events),
    decreases events.len(),
{
    if events.len() > 0 {
        let before = events.drop_last();
        law_all_audio_is_written(start, before);
        law_clip_continues_the_timeline(start, before);
        let middle = ran(start, before);
        let done = audio_written(work_done(start, before)).map_values(
            |frame: (int, int)| frame.1,
        );
        if events.last() is Done {
            let work = work_done(start, events);
            assert(work.drop_last() =~= work_done(start, before));
            assert(work.last() == middle.pending);
        }
        let now = audio_written(work_done(start, events)).map_values(|frame: (int, int)| frame.1);
        match middle.pending {
            ClipAction::WriteAudio { samples, .. } => {
                assert(now =~= done.push(samples as int));
            },
            _ => {
                assert(now =~= done);
            },
        }
    } else {
        assert(audio_lengths(start, work_done(start, events)) =~= audio_decoded(events));
    }
}

/// No video frame is lost: as many are written, or about to be, as the frame
/// rate has asked for since the start of the clip.
pub proof fn law_all_video_is_written(start: ClipPlayer, events: Seq<ClipEvent>)
    requires
        start.wf(),
        start.pending is SetVideoEnd,
        is_run(start, events),
    ensures
        ({
            let end = ran(start, events);
            let left = if end.pending is ScaleVideo || end.pending is WriteVideo {
                end.copies_left as int
            } else {
                0
            };
            video_written(work_done(start, events)).len() + left
                == end.converter.next_output_frame - start.converter.next_output_frame
        }),
    decreases events.len(),
{
    if events.len() > 0 {
        let before = events.drop_last();
        law_all_video_is_written(start, before);
        law_clip_continues_the_timeline(start, before);
        let middle = ran(start, before);
        if events.last() is Done {
            let work = work_done(start, events);
            assert(work.drop_last() =~= work_done(start, before));
            assert(work.last() == middle.pending);
        }
    }
}

/// A decoded video frame is written as often as it fills frames of the output,
/// and not at all when it fills none.
pub proof fn law_frames_are_repeated_as_needed(player: ClipPlayer, timestamp: Option<i64>)
    requires
        player.wf(),
        player.pending is ReceiveVideo,
        player.accepts_spec(ClipEvent::VideoFrame(timestamp)),
    ensures
        ({
            let decoded = player.after(ClipEvent::VideoFrame(timestamp));
            let copies = player.converter.output_frames_spec(timestamp);
            &&& decoded.converter.next_output_frame == player.converter.next_output_frame + copies
            &&& copies > 0 ==> decoded.pending is ScaleVideo && decoded.copies_left == copies
            &&& copies == 0 ==> decoded.pending is ReceiveVideo
            &&& copies >= 0
        }),
{
}

/// The samples of all audio frames together.
pub open spec fn total_samples(frames: Seq<(int, int)>) -> int
    decreases frames.len(),
{
    if frames.len() == 0 {
        0
    } else {
        total_samples(frames.drop_last()) + frames.last().1
    }
}

/// A clip that was read to its end fails exactly when nothing of it was
/// written, neither a video frame nor an audio sample.
pub proof fn law_only_empty_clips_fail(start: ClipPlayer, events: Seq<ClipEvent>)
    requires
        start.wf(),
        start.pending is SetVideoEnd,
        start.decoded_video_frames == 0,
        start.decoded_audio_samples == 0,
        is_run(start, events),
    ensures
        ({
            let end = ran(start, events);
            let work = work_done(start, events);
            let empty = video_written(work).len() == 0 && total_samples(audio_written(work)) == 0;
            &&& end.pending is Synchronize ==> !empty
            &&& end.pending is Fail ==> empty && end.pending == ClipAction::Fail(
                ClipError::NothingDecoded,
            )
        }),
{
    lemma_counts(start, events);
}

proof fn lemma_counts(start: ClipPlayer, events: Seq<ClipEvent>)
    requires
        start.wf(),
        start.pending is SetVideoEnd,
        start.decoded_video_frames == 0,
        start.decoded_audio_samples == 0,
        is_run(start, events),
    ensures
        ({
            let end = ran(start, events);
            let work = work_done(start, events);
            &&& end.wf()
            &&& end.decoded_video_frames == video_written(work).len()
            &&& end.decoded_audio_samples == total_samples(audio_written(work))
        }),
    decreases events.len(),
{
    if events.len() > 0 {
        let before = events.drop_last();
        lemma_counts(start, before);
        let middle = ran(start, before);
        lemma_step_keeps_wf(middle, events.last());
        if events.last() is Done {
            let work = work_done(start, events);
            assert(work.drop_last() =~= work_done(start, before));
            assert(work.last() == middle.pending);
            if middle.pending is WriteAudio {
                assert(audio_written(work).drop_last() =~= audio_written(work.drop_last()));
            }
        }
    }
}

/// A clip never gets stuck: whatever the outside world answers to the work
/// that was asked for is accepted, as long as the timestamps and counts fit
/// into 64 bits.
pub proof fn law_answers_are_accepted(player: ClipPlayer, samples: i64)
    requires
        player.wf(),
        samples >= 0,
    ensures
        player.pending is ReadPacket ==> player.accepts_spec(ClipEvent::InputEnded),
        player.pending is ReceiveVideo || player.pending is ReceiveAudio ==> player.accepts_spec(
            ClipEvent::NoFrame,
        ),
        player.pending is ReceiveAudio ==> player.accepts_spec(ClipEvent::AudioFrame(samples)),
        player.pending is ReceiveVideo && player.converter.next_output_frame < i64::MAX
            ==> player.accepts_spec(ClipEvent::VideoFrame(None)),
        player.pending is SetVideoEnd || player.pending is ReportVideoFinished
            || player.pending is SendVideo || player.pending is SendAudio
            || player.pending is FlushVideo || player.pending is FlushAudio
            || player.pending is ScaleVideo ==> player.accepts_spec(ClipEvent::Done),
        player.pending is WriteVideo && player.timeline.video_pts < i64::MAX
            && player.decoded_video_frames < i64::MAX ==> player.accepts_spec(ClipEvent::Done),
        player.pending matches ClipAction::WriteAudio { samples, .. } ==> (
        player.timeline.audio_pts + samples <= i64::MAX && player.decoded_audio_samples + samples
            <= i64::MAX ==> player.accepts_spec(ClipEvent::Done)),
{
}

proof fn lemma_step_keeps_wf(player: ClipPlayer, event: ClipEvent)
    requires
        player.wf(),
        player.accepts_spec(event),
    ensures
        player.after(event).wf(),
{
}

proof fn lemma_reports(start: ClipPlayer, events: Seq<ClipEvent>)
    requires
        start.wf(),
        start.pending is SetVideoEnd,
        is_run(start, events),
    ensures
        ({
            let end = ran(start, events);
            &&& end.wf()
            &&& end.video_index == start.video_index
            &&& ends_reported(work_done(start, events)) == if end.pending is SetVideoEnd
                || end.pending is ReportVideoFinished || !end.video_finished {
                0nat
            } else {
                1
            }
        }),
    decreases events.len(),
{
    if events.len() > 0 {
        let before = events.drop_last();
        lemma_reports(start, before);
        let middle = ran(start, before);
        lemma_step_keeps_wf(middle, events.last());
        if events.last() is Done {
            let work = work_done(start, events);
            assert(work.drop_last() =~= work_done(start, before));
            assert(work.last() == middle.pending);
        }
    }
}

/// What is known of the duration of a stream.
#[derive(Debug)]
pub enum StreamDuration {
    /// Microseconds.
    Micros(i64),
    /// Hours, minutes and seconds, as the stream's description gives them.
    Fields(String, String, String),
    /// Nothing.
    Unknown,
}

/// The three parts of a duration such as `01:02:03.5`.
pub open spec fn duration_fields_spec(text: Seq<char>) -> Option<(Seq<char>, Seq<char>, Seq<char>)> {
    let parts = split_on_spec(text, ':');
    if parts.len() == 3 {
        Some((parts[0], parts[1], parts[2]))
    } else {
        None
    }
}

/// What a description of a stream says of its duration: the entry `DURATION`
/// counts, and `duration` only where that is missing.
pub open spec fn described_duration(upper: Option<Seq<char>>, lower: Option<Seq<char>>) -> Option<
    (Seq<char>, Seq<char>, Seq<char>),
> {
    match upper {
        Some(text) => duration_fields_spec(text),
        None => match lower {
            Some(text) => duration_fields_spec(text),
            None => None,
        },
    }
}

/// The view of an optional string.
pub open spec fn optional_text(text: Option<&str>) -> Option<Seq<char>> {
    match text {
        Some(text) => Some(text@),
        None => None,
    }
}

/// The three parts of a duration such as `01:02:03.5`.
pub fn duration_fields(text: &str) -> (fields: Option<(String, String, String)>)
    ensures
        match (fields, duration_fields_spec(text@)) {
            (Some(fields), Some(expected)) => (fields.0@, fields.1@, fields.2@) == expected,
            (None, None) => true,
            _ => false,
        },
{
    let chars = to_chars(text);
    let parts = split_on(chars.as_slice(), ':');
    if parts.len() == 3 {
        Some((from_chars(parts[0]), from_chars(parts[1]), from_chars(parts[2])))
    } else {
        None
    }
}

/// The duration of a stream: what the container counts in `time_base`, else
/// what the stream's description says.
pub fn stream_duration(
    duration: i64,
    time_base: Rational,
    upper: Option<&str>,
    lower: Option<&str>,
) -> (known: StreamDuration)
    ensures
        match known {
            StreamDuration::Micros(micros) => duration > 0 && micros == rescale_spec(
                duration as int,
                time_base,
                Rational(1, 1_000_000),
            ),
            StreamDuration::Fields(hours, minutes, seconds) => duration <= 0 && described_duration(
                optional_text(upper),
                optional_text(lower),
            ) == Some((hours@, minutes@, seconds@)),
            StreamDuration::Unknown => duration <= 0 && described_duration(
                optional_text(upper),
                optional_text(lower),
            ) is None,
        },
{
    if duration > 0 {
        return StreamDuration::Micros(rescale(duration, time_base, Rational(1, 1_000_000)));
    }
    let text = match upper {
        Some(text) => Some(text),
        None => lower,
    };
    match text {
        Some(text) => match duration_fields(text) {
            Some((hours, minutes, seconds)) => StreamDuration::Fields(hours, minutes, seconds),
            None => StreamDuration::Unknown,
        },
        None => StreamDuration::Unknown,
    }
}

/// A duration has exactly three parts, separated by colons: with two colons
/// the parts are what stands between them, with any other number there are
/// none.
pub proof fn law_durations_have_three_parts(
    hours: Seq<char>,
    minutes: Seq<char>,
    seconds: Seq<char>,
    more: Seq<char>,
)
    requires
        !hours.contains(':'),
        !minutes.contains(':'),
        !seconds.contains(':'),
        !more.contains(':'),
    ensures
        duration_fields_spec(hours.push(':') + minutes.push(':') + seconds) == Some(
            (hours, minutes, seconds),
        ),
        duration_fields_spec(hours) is None,
        duration_fields_spec(hours.push(':') + minutes) is None,
        duration_fields_spec(
            hours.push(':') + minutes.push(':') + seconds.push(':') + more,
        ) is None,
{
    lemma_split_single(hours, ':');
    lemma_split_behind_separator(hours, minutes, ':');
    let two = hours.push(':') + minutes;
    assert(two.push(':') + seconds =~= hours.push(':') + minutes.push(':') + seconds);
    lemma_split_behind_separator(two, seconds, ':');
    let three = hours.push(':') + minutes.push(':') + seconds;
    assert(three.push(':') + more =~= hours.push(':') + minutes.push(':') + seconds.push(':')
        + more);
    lemma_split_behind_separator(three, more, ':');
}

/// The entry `DURATION` of a stream's description comes before `duration`, and
/// each counts on its own.
pub proof fn law_upper_case_duration_comes_first(upper: Seq<char>, lower: Option<Seq<char>>)
    ensures
        described_duration(Some(upper), lower) == duration_fields_spec(upper),
        described_duration(None, Some(upper)) == duration_fields_spec(upper),
        described_duration(None, None) is None,
{
}

} // verus!
