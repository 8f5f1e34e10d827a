//! Switching between files and a live input.
//!
//! While a live publisher delivers frames, they replace the frames of the
//! files. The timestamps of the output go on across every switch. Moments are
//! counted in nanoseconds from an arbitrary origin.
use vstd::prelude::*;

verus! {

/// How long a live input may stay silent before the files resume.
pub const LIVE_IDLE_TIMEOUT_NS: u64 = 3_000_000_000;

/// The kind of a frame.
#[derive(Clone, Copy, Debug, PartialEq, Eq, Structural)]
pub enum Media {
    /// A video frame.
    Video,
    /// An audio frame with this many samples.
    Audio(i64),
}

/// What the live input has to say.
#[derive(Clone, Copy, Debug, PartialEq, Eq, Structural)]
pub enum LiveEvent {
    /// A publisher has connected.
    Started,
    /// A frame has arrived.
    Frame(Media),
    /// The publisher is gone.
    Ended,
    /// There is nothing more for now.
    Empty,
    /// There will be nothing more.
    Disconnected,
}

/// What happens to the output.
#[derive(Clone, Copy, Debug, PartialEq, Eq, Structural)]
pub enum OverrideEvent {
    /// A file delivers a frame with this timestamp.
    File(Media, Option<i64>),
    /// The live input was asked, at this moment.
    Live(LiveEvent, u64),
    /// The frame was written.
    Written,
    /// The wait is over.
    Woken,
    /// The frame could not be written.
    Failed,
}

/// What to do next.
#[derive(Clone, Copy, Debug, PartialEq, Eq, Structural)]
pub enum OverrideAction {
    /// Wait for the next frame of a file.
    Idle,
    /// Ask the live input for an event.
    Poll,
    /// Write the live frame that has arrived.
    WriteLive {
        /// The kind of the frame.
        media: Media,
        /// The timestamp that it carries.
        pts: i64,
    },
    /// Wait a little while the live input is on.
    Sleep,
    /// Write the frame of the file.
    WriteFile {
        /// The kind of the frame.
        media: Media,
        /// The timestamp that it carries.
        pts: i64,
    },
}

/// An output that is shared by files and a live input.
#[derive(Clone, Copy, Debug, PartialEq, Eq, Structural)]
pub struct LiveOverride {
    /// Whether the live input is on.
    pub active: bool,
    /// The timestamp of the next video frame.
    pub video_pts: i64,
    /// The timestamp of the next audio sample.
    pub audio_pts: i64,
    /// The frame of a file that waits to be written.
    pub file_media: Media,
    /// The timestamp that the file gave it.
    pub file_pts: Option<i64>,
    /// Whether the live input is asked for the first time since that frame
    /// came.
    pub first_look: bool,
    /// Whether the live input had something to say at this look.
    pub received: bool,
    /// When the live input had something to say last.
    pub last_event: u64,
    /// What was to be done last.
    pub pending: OverrideAction,
}

/// The larger of two numbers.
pub open spec fn larger(a: int, b: int) -> int {
    if a < b {
        b
    } else {
        a
    }
}

/// How far a frame moves its stream on.
pub open spec fn length(media: Media) -> int {
    match media {
        Media::Video => 1,
        Media::Audio(samples) => samples as int,
    }
}

impl LiveOverride {
    /// What holds at every moment.
    pub open spec fn wf(self) -> bool {
        match self.pending {
            OverrideAction::WriteLive { media, pts } => {
                &&& self.active
                &&& pts == self.position(media)
                &&& length(media) >= 0
                &&& length(self.file_media) >= 0
            },
            OverrideAction::WriteFile { media, pts } => {
                &&& !self.active
                &&& media == self.file_media
                &&& pts == self.file_stamp()
                &&& length(media) >= 0
            },
            OverrideAction::Poll => length(self.file_media) >= 0,
            OverrideAction::Sleep => self.active && length(self.file_media) >= 0,
            OverrideAction::Idle => true,
        }
    }

    /// The output while it waits a little.
    pub open spec fn asleep(self) -> LiveOverride {
        LiveOverride { pending: OverrideAction::Sleep, ..self }
    }

    /// The timestamp that the stream of a frame has reached.
    pub open spec fn position(self, media: Media) -> int {
        match media {
            Media::Video => self.video_pts as int,
            Media::Audio(_) => self.audio_pts as int,
        }
    }

    /// The output with a stream moved to a timestamp.
    pub open spec fn moved(self, media: Media, pts: int) -> LiveOverride {
        match media {
            Media::Video => LiveOverride { video_pts: pts as i64, ..self },
            Media::Audio(_) => LiveOverride { audio_pts: pts as i64, ..self },
        }
    }

    /// Whether an event can follow what was to be done, with timestamps that
    /// fit into 64 bits.
    pub open spec fn accepts_spec(self, event: OverrideEvent) -> bool {
        match (self.pending, event) {
            (OverrideAction::Idle, OverrideEvent::File(media, _)) => length(media) >= 0,
            (OverrideAction::Poll, OverrideEvent::Live(LiveEvent::Frame(media), _)) => length(media)
                >= 0,
            (OverrideAction::Poll, OverrideEvent::Live(_, _)) => true,
            (OverrideAction::Sleep, OverrideEvent::Woken) => true,
            (OverrideAction::WriteLive { media, pts }, OverrideEvent::Written) => pts + length(
                media,
            ) <= i64::MAX,
            (OverrideAction::WriteFile { media, pts }, OverrideEvent::Written) => pts + length(
                media,
            ) <= i64::MAX,
            (OverrideAction::WriteLive { .. }, OverrideEvent::Failed) => true,
            (OverrideAction::WriteFile { .. }, OverrideEvent::Failed) => true,
            _ => false,
        }
    }

    /// A frame of a file has come: while the live input is off, its timestamp
    /// moves the stream on. Then the live input is asked.
    pub open spec fn with_file_frame(self, media: Media, pts: Option<i64>) -> LiveOverride {
        let moved = match pts {
            Some(pts) if !self.active => self.moved(
                media,
                larger(self.position(media), pts as int),
            ),
            _ => self,
        };
        LiveOverride {
            file_media: media,
            file_pts: pts,
            first_look: true,
            received: false,
            pending: OverrideAction::Poll,
            ..moved
        }
    }

    /// The timestamp that the waiting frame of the file gets.
    pub open spec fn file_stamp(self) -> int {
        match self.file_pts {
            Some(pts) => larger(pts as int, self.position(self.file_media)),
            None => self.position(self.file_media),
        }
    }

    /// The live input has nothing more to say at this look: the files resume
    /// when it is off, or when it was silent for too long.
    pub open spec fn with_look_done(self, now: u64) -> LiveOverride {
        let fresh = self.first_look || self.received;
        let idle = !fresh && now - self.last_event >= LIVE_IDLE_TIMEOUT_NS;
        let active = self.active && !idle;
        let looked = LiveOverride {
            active,
            last_event: if fresh {
                now
            } else {
                self.last_event
            },
            ..self
        };
        LiveOverride {
            pending: if active {
                OverrideAction::Sleep
            } else {
                OverrideAction::WriteFile { media: self.file_media, pts: self.file_stamp() as i64 }
            },
            ..looked
        }
    }

    /// The output after the live input was asked.
    pub open spec fn with_live_event(self, event: LiveEvent, now: u64) -> LiveOverride {
        match event {
            LiveEvent::Started => LiveOverride { active: true, received: true, ..self },
            LiveEvent::Frame(media) => LiveOverride {
                received: true,
                pending: if self.active {
                    OverrideAction::WriteLive { media, pts: self.position(media) as i64 }
                } else {
                    OverrideAction::Poll
                },
                ..self
            },
            LiveEvent::Ended => LiveOverride { active: false, received: true, ..self },
            LiveEvent::Empty => self.with_look_done(now),
            LiveEvent::Disconnected => (LiveOverride { active: false, ..self }).with_look_done(now),
        }
    }

    /// The output after an event.
    pub open spec fn after(self, event: OverrideEvent) -> LiveOverride {
        match (self.pending, event) {
            (OverrideAction::Idle, OverrideEvent::File(media, pts)) => self.with_file_frame(
                media,
                pts,
            ),
            (OverrideAction::Poll, OverrideEvent::Live(event, now)) => self.with_live_event(
                event,
                now,
            ),
            (OverrideAction::Sleep, OverrideEvent::Woken) => LiveOverride {
                first_look: false,
                received: false,
                pending: OverrideAction::Poll,
                ..self
            },
            (OverrideAction::WriteLive { media, pts }, OverrideEvent::Written) => LiveOverride {
                pending: OverrideAction::Poll,
                ..self.moved(media, pts + length(media))
            },
            (OverrideAction::WriteFile { media, pts }, OverrideEvent::Written) => LiveOverride {
                pending: OverrideAction::Idle,
                ..self.moved(media, pts + length(media))
            },
            (_, OverrideEvent::Failed) => LiveOverride { pending: OverrideAction::Idle, ..self },
            _ => self,
        }
    }

    /// An output without a live publisher: both streams are at their start, no
    /// frame of a file waits, and the live input was not asked yet.
    pub fn new() -> (output: Self)
        ensures
            output.wf(),
            output == (LiveOverride {
                active: false,
                video_pts: 0,
                audio_pts: 0,
                file_media: Media::Video,
                file_pts: None,
                first_look: false,
                received: false,
                last_event: 0,
                pending: OverrideAction::Idle,
            }),
    {
        LiveOverride {
            active: false,
            video_pts: 0,
            audio_pts: 0,
            file_media: Media::Video,
            file_pts: None,
            first_look: false,
            received: false,
            last_event: 0,
            pending: OverrideAction::Idle,
        }
    }

    fn reached(&self, media: Media) -> (pts: i64)
        ensures
            pts == self.position(media),
    {
        match media {
            Media::Video => self.video_pts,
            Media::Audio(_) => self.audio_pts,
        }
    }

    fn move_to(&mut self, media: Media, pts: i64)
        ensures
            *final(self) == old(self).moved(media, pts as int),
    {
        match media {
            Media::Video => {
                self.video_pts = pts;
            },
            Media::Audio(_) => {
                self.audio_pts = pts;
            },
        }
    }

    /// Whether an event can follow what was to be done.
    pub fn accepts(&self, event: OverrideEvent) -> (accepted: bool)
        requires
            self.wf(),
        ensures
            accepted == self.accepts_spec(event),
    {
        match (self.pending, event) {
            (OverrideAction::Idle, OverrideEvent::File(media, _)) => media_length(media) >= 0,
            (OverrideAction::Poll, OverrideEvent::Live(LiveEvent::Frame(media), _)) => media_length(
                media,
            ) >= 0,
            (OverrideAction::Poll, OverrideEvent::Live(_, _)) => true,
            (OverrideAction::Sleep, OverrideEvent::Woken) => true,
            (OverrideAction::WriteLive { media, pts }, OverrideEvent::Written) => pts <= i64::MAX
                - media_length(media),
            (OverrideAction::WriteFile { media, pts }, OverrideEvent::Written) => pts <= i64::MAX
                - media_length(media),
            (OverrideAction::WriteLive { .. }, OverrideEvent::Failed) => true,
            (OverrideAction::WriteFile { .. }, OverrideEvent::Failed) => true,
            _ => false,
        }
    }

    fn finish_look(&mut self, now: u64)
        requires
            length(old(self).file_media) >= 0,
        ensures
            *final(self) == old(self).with_look_done(now),
    {
        if self.first_look || self.received {
            self.last_event = now;
        } else if now >= self.last_event && now - self.last_event >= LIVE_IDLE_TIMEOUT_NS {
            self.active = false;
        }
        if self.active {
            self.pending = OverrideAction::Sleep;
        } else {
            let reached = self.reached(self.file_media);
            let pts: i64 = match self.file_pts {
                Some(pts) => if pts < reached {
                    reached
                } else {
                    pts
                },
                None => reached,
            };
            self.pending = OverrideAction::WriteFile { media: self.file_media, pts };
        }
    }

    /// Takes note of an event and says what to do next.
    pub fn next(&mut self, event: OverrideEvent) -> (action: OverrideAction)
        requires
            old(self).wf(),
            old(self).accepts_spec(event),
        ensures
            *final(self) == old(self).after(event),
            action == final(self).pending,
            final(self).wf(),
    {
        match (self.pending, event) {
            (OverrideAction::Idle, OverrideEvent::File(media, pts)) => {
                if let Some(pts) = pts {
                    if !self.active && self.reached(media) < pts {
                        self.move_to(media, pts);
                    }
                }
                self.file_media = media;
                self.file_pts = pts;
                self.first_look = true;
                self.received = false;
                self.pending = OverrideAction::Poll;
            },
            (OverrideAction::Poll, OverrideEvent::Live(event, now)) => {
                match event {
                    LiveEvent::Started => {
                        self.active = true;
                        self.received = true;
                    },
                    LiveEvent::Frame(media) => {
                        self.received = true;
                        if self.active {
                            self.pending = OverrideAction::WriteLive {
                                media,
                                pts: self.reached(media),
                            };
                        }
                    },
                    LiveEvent::Ended => {
                        self.active = false;
                        self.received = true;
                    },
                    LiveEvent::Empty => {
                        self.finish_look(now);
                    },
                    LiveEvent::Disconnected => {
                        self.active = false;
                        self.finish_look(now);
                    },
                }
            },
            (OverrideAction::Sleep, OverrideEvent::Woken) => {
                self.first_look = false;
                self.received = false;
                self.pending = OverrideAction::Poll;
            },
            (OverrideAction::WriteLive { media, pts }, OverrideEvent::Written) => {
                self.move_to(media, pts + media_length(media));
                self.pending = OverrideAction::Poll;
            },
            (OverrideAction::WriteFile { media, pts }, OverrideEvent::Written) => {
                self.move_to(media, pts + media_length(media));
                self.pending = OverrideAction::Idle;
            },
            (_, OverrideEvent::Failed) => {
                self.pending = OverrideAction::Idle;
            },
            _ => {},
        }
        self.pending
    }
}

fn media_length(media: Media) -> (samples: i64)
    ensures
        samples == length(media),
{
    match media {
        Media::Video => 1,
        Media::Audio(samples) => samples,
    }
}

/// Whether each event can follow what was to be done before it.
pub open spec fn is_run(output: LiveOverride, events: Seq<OverrideEvent>) -> bool
    decreases events.len(),
{
    events.len() > 0 ==> {
        &&& is_run(output, events.drop_last())
        &&& ran(output, events.drop_last()).accepts_spec(events.last())
    }
}

/// The output after a list of events.
pub open spec fn ran(output: LiveOverride, events: Seq<OverrideEvent>) -> LiveOverride
    decreases events.len(),
{
    if events.len() == 0 {
        output
    } else {
        ran(output, events.drop_last()).after(events.last())
    }
}

/// The frame that is to be written, with its timestamp.
pub open spec fn to_write(action: OverrideAction) -> Option<(Media, int)> {
    match action {
        OverrideAction::WriteLive { media, pts } => Some((media, pts as int)),
        OverrideAction::WriteFile { media, pts } => Some((media, pts as int)),
        _ => None,
    }
}

/// The timestamps of the frames of one stream that were written, each with the
/// timestamp behind it.
pub open spec fn written(
    output: LiveOverride,
    events: Seq<OverrideEvent>,
    video: bool,
) -> Seq<(int, int)>
    decreases events.len(),
{
    if events.len() == 0 {
        Seq::empty()
    } else {
        let before = written(output, events.drop_last(), video);
        match to_write(ran(output, events.drop_last()).pending) {
            Some((media, pts)) if events.last() is Written && (media is Video) == video => {
                before.push((pts, pts + length(media)))
            },
            _ => before,
        }
    }
}

/// The timestamp that a stream has reached.
pub open spec fn stream_position(output: LiveOverride, video: bool) -> int {
    if video {
        output.video_pts as int
    } else {
        output.audio_pts as int
    }
}

/// However often the output switches between files and the live input, its
/// timestamps never go back: each frame of a stream starts where the frame
/// before it ended or later.
pub proof fn law_stamps_never_go_back(
    start: LiveOverride,
    events: Seq<OverrideEvent>,
    video: bool,
)
    requires
        start.wf(),
        is_run(start, events),
    ensures
        ({
            let end = ran(start, events);
            let frames = written(start, events, video);
            &&& end.wf()
            &&& stream_position(start, video) <= stream_position(end, video)
            &&& forall|i: int|
                0 <= i < frames.len() ==> {
                    &&& stream_position(start, video) <= (#[trigger] frames[i]).0
                    &&& frames[i].0 <= frames[i].1 <= stream_position(end, video)
                    &&& video ==> frames[i].0 < frames[i].1
                }
            &&& forall|i: int, j: int|
                0 <= i < j < frames.len() ==> (#[trigger] frames[i]).1 <= (#[trigger] frames[j]).0
        }),
    decreases events.len(),
{
    if events.len() > 0 {
        let before = events.drop_last();
        law_stamps_never_go_back(start, before, video);
        let middle = ran(start, before);
        let end = ran(start, events);
        lemma_step(middle, events.last());
        let frames_before = written(start, before, video);
        let frames = written(start, events, video);
        if frames != frames_before {
            let last = frames.last();
            assert(frames == frames_before.push(last));
            assert(stream_position(middle, video) <= last.0);
            assert(last.1 == stream_position(end, video));
            assert forall|i: int| 0 <= i < frames.len() implies {
                &&& stream_position(start, video) <= (#[trigger] frames[i]).0
                &&& frames[i].0 <= frames[i].1 <= stream_position(end, video)
                &&& video ==> frames[i].0 < frames[i].1
            } by {
                if i < frames_before.len() {
                    assert(frames[i] == frames_before[i]);
                }
            }
            assert forall|i: int, j: int| 0 <= i < j < frames.len() implies (
            #[trigger] frames[i]).1 <= (#[trigger] frames[j]).0 by {
                assert(frames[i] == frames_before[i]);
                if j < frames_before.len() {
                    assert(frames[j] == frames_before[j]);
                }
            }
        }
    }
}

proof fn lemma_step(output: LiveOverride, event: OverrideEvent)
    requires
        output.wf(),
        output.accepts_spec(event),
    ensures
        output.after(event).wf(),
        output.video_pts <= output.after(event).video_pts,
        output.audio_pts <= output.after(event).audio_pts,
{
}

/// How far the frames of files have moved a stream.
pub open spec fn file_progress(
    output: LiveOverride,
    events: Seq<OverrideEvent>,
    video: bool,
) -> int
    decreases events.len(),
{
    if events.len() == 0 {
        0
    } else {
        let before = file_progress(output, events.drop_last(), video);
        match ran(output, events.drop_last()).pending {
            OverrideAction::WriteFile { media, .. } if events.last() is Written && (media is Video)
                == video => before + length(media),
            _ => before,
        }
    }
}

/// Whether the files number the frames of a stream without a gap from `origin`
/// on, as if there were no live input.
pub open spec fn files_are_continuous(
    output: LiveOverride,
    events: Seq<OverrideEvent>,
    video: bool,
    origin: int,
) -> bool
    decreases events.len(),
{
    events.len() > 0 ==> {
        &&& files_are_continuous(output, events.drop_last(), video, origin)
        &&& match events.last() {
            OverrideEvent::File(media, pts) if (media is Video) == video => pts is Some
                && pts->Some_0 == origin + file_progress(output, events.drop_last(), video),
            _ => true,
        }
    }
}

/// The timestamp behind the last frame, or `start` before the first.
pub open spec fn reached_by(start: int, frames: Seq<(int, int)>) -> int {
    if frames.len() == 0 {
        start
    } else {
        frames.last().1
    }
}

/// When the files number their frames without a gap, so does the output,
/// however often it switches between files and the live input: each frame
/// starts exactly where the frame before it ended.
pub proof fn law_switching_leaves_no_gap(
    start: LiveOverride,
    events: Seq<OverrideEvent>,
    video: bool,
)
    requires
        start.wf(),
        start.pending is Idle,
        is_run(start, events),
        files_are_continuous(start, events, video, stream_position(start, video)),
    ensures
        ({
            let frames = written(start, events, video);
            &&& forall|i: int|
                0 <= i < frames.len() ==> (#[trigger] frames[i]).0 == reached_by(
                    stream_position(start, video),
                    frames.take(i),
                )
            &&& stream_position(ran(start, events), video) == reached_by(
                stream_position(start, video),
                frames,
            )
        }),
{
    lemma_no_gap(start, events, video);
}

proof fn lemma_no_gap(start: LiveOverride, events: Seq<OverrideEvent>, video: bool)
    requires
        start.wf(),
        start.pending is Idle,
        is_run(start, events),
        files_are_continuous(start, events, video, stream_position(start, video)),
    ensures
        ({
            let origin = stream_position(start, video);
            let end = ran(start, events);
            let frames = written(start, events, video);
            let progress = origin + file_progress(start, events, video);
            &&& end.wf()
            &&& stream_position(end, video) >= progress
            &&& !(end.pending is Idle) && (end.file_media is Video) == video ==> end.file_pts
                == Some(progress as i64) && i64::MIN <= progress <= i64::MAX
            &&& forall|i: int|
                0 <= i < frames.len() ==> (#[trigger] frames[i]).0 == reached_by(
                    origin,
                    frames.take(i),
                )
            &&& stream_position(end, video) == reached_by(origin, frames)
        }),
    decreases events.len(),
{
    if events.len() > 0 {
        let before = events.drop_last();
        lemma_no_gap(start, before, video);
        let origin = stream_position(start, video);
        let middle = ran(start, before);
        let end = ran(start, events);
        lemma_step(middle, events.last());
        let frames_before = written(start, before, video);
        let frames = written(start, events, video);
        if frames != frames_before {
            let last = frames.last();
            assert(frames == frames_before.push(last));
            assert(last.0 == stream_position(middle, video));
            assert(last.1 == stream_position(end, video));
            assert forall|i: int| 0 <= i < frames.len() implies (#[trigger] frames[i]).0
                == reached_by(origin, frames.take(i)) by {
                if i < frames_before.len() {
                    assert(frames[i] == frames_before[i]);
                    assert(frames.take(i) =~= frames_before.take(i));
                } else {
                    assert(frames.take(i) =~= frames_before);
                }
            }
        }
    }
}

/// Without a live publisher a frame of a file is written as it is, unless its
/// timestamp lies before what was written already.
pub proof fn law_files_pass_unchanged(output: LiveOverride, media: Media, pts: i64, now: u64)
    requires
        output.wf(),
        output.pending is Idle,
        !output.active,
        length(media) >= 0,
        pts >= output.position(media),
    ensures
        output.after(OverrideEvent::File(media, Some(pts))).after(
            OverrideEvent::Live(LiveEvent::Empty, now),
        ).pending == (OverrideAction::WriteFile { media, pts }),
{
}

/// A frame of a file that comes behind live frames is numbered on from them.
pub proof fn law_files_resume_behind_live(output: LiveOverride, now: u64)
    requires
        output.wf(),
        output.pending is Poll,
        output.active,
        output.file_pts matches Some(pts) ==> pts <= output.position(output.file_media),
    ensures
        ({
            let ended = output.after(OverrideEvent::Live(LiveEvent::Ended, now)).after(
                OverrideEvent::Live(LiveEvent::Empty, now),
            );
            &&& !ended.active
            &&& ended.pending == (OverrideAction::WriteFile {
                media: output.file_media,
                pts: output.position(output.file_media) as i64,
            })
        }),
{
}

/// A publisher that connects takes the output over: its frames are written
/// before the frame of the file that waits.
pub proof fn law_live_takes_over(output: LiveOverride, media: Media, now: u64)
    requires
        output.wf(),
        output.pending is Poll,
        length(media) >= 0,
    ensures
        ({
            let connected = output.after(OverrideEvent::Live(LiveEvent::Started, now));
            &&& connected.active
            &&& connected.after(OverrideEvent::Live(LiveEvent::Frame(media), now)).pending == (
            OverrideAction::WriteLive { media, pts: output.position(media) as i64 })
            &&& connected.after(OverrideEvent::Live(LiveEvent::Empty, now)).pending is Sleep
        }),
{
}

/// While the live input is on, no frame of it is lost: whatever happened
/// before, and whether or not this is the first look, a live frame is written
/// next, at the position of its stream. While it is off, its frames are
/// skipped and move nothing.
pub proof fn law_no_live_frame_is_lost(output: LiveOverride, media: Media, now: u64)
    requires
        output.wf(),
        output.pending is Poll,
        length(media) >= 0,
    ensures
        output.accepts_spec(OverrideEvent::Live(LiveEvent::Frame(media), now)),
        ({
            let shown = output.after(OverrideEvent::Live(LiveEvent::Frame(media), now));
            &&& output.active ==> shown.pending == (OverrideAction::WriteLive {
                media,
                pts: match media {
                    Media::Video => output.video_pts,
                    Media::Audio(_) => output.audio_pts,
                },
            })
            &&& !output.active ==> shown.pending is Poll
            &&& shown.active == output.active
            &&& shown.video_pts == output.video_pts
            &&& shown.audio_pts == output.audio_pts
            &&& shown.file_media == output.file_media
            &&& shown.file_pts == output.file_pts
            &&& shown.received
        }),
{
}

/// The publisher decides whether the live input is on: it is on once one has
/// connected, and off once it is gone or the listener is lost. Nothing else
/// about the output changes with it, and the live input is asked on.
pub proof fn law_publisher_switches_the_input(output: LiveOverride, now: u64)
    requires
        output.wf(),
        output.pending is Poll,
    ensures
        ({
            let started = output.after(OverrideEvent::Live(LiveEvent::Started, now));
            let ended = output.after(OverrideEvent::Live(LiveEvent::Ended, now));
            let lost = output.after(OverrideEvent::Live(LiveEvent::Disconnected, now));
            &&& started.active && started.received && started.pending is Poll
            &&& !ended.active && ended.received && ended.pending is Poll
            &&& !lost.active && lost.pending is WriteFile
            &&& same_place(started, output) && same_place(ended, output) && same_place(lost, output)
        }),
        forall|event: LiveEvent|
            (event matches LiveEvent::Frame(media) ==> length(media) >= 0) ==> #[trigger] output.accepts_spec(
                OverrideEvent::Live(event, now),
            ),
{
}

/// Whether both streams and the waiting frame of a file are where they were.
pub open spec fn same_place(a: LiveOverride, b: LiveOverride) -> bool {
    &&& a.video_pts == b.video_pts
    &&& a.audio_pts == b.audio_pts
    &&& a.file_media == b.file_media
    &&& a.file_pts == b.file_pts
}

/// A look at the live input that finds nothing more ends in one of two ways.
/// While the input is on and not silent for too long, the output waits a
/// little and looks again; else the frame of the file is written, not before
/// its own timestamp and not before what was written already.
pub proof fn law_look_waits_or_resumes(output: LiveOverride, now: u64)
    requires
        output.wf(),
        output.pending is Poll,
    ensures
        ({
            let looked = output.after(OverrideEvent::Live(LiveEvent::Empty, now));
            let silent = !output.first_look && !output.received && now - output.last_event
                >= 3_000_000_000;
            let reached = match output.file_media {
                Media::Video => output.video_pts,
                Media::Audio(_) => output.audio_pts,
            };
            &&& same_place(looked, output)
            &&& output.active && !silent ==> looked.active && looked.pending is Sleep
            &&& !output.active || silent ==> {
                &&& !looked.active
                &&& looked.pending matches OverrideAction::WriteFile { media, pts } && {
                    &&& media == output.file_media
                    &&& pts >= reached
                    &&& output.file_pts matches Some(given) ==> pts >= given
                    &&& pts == reached || output.file_pts == Some(pts)
                }
            }
            &&& output.first_look || output.received ==> looked.last_event == now
            &&& !output.first_look && !output.received ==> looked.last_event == output.last_event
        }),
        ({
            let woken = output.asleep().after(OverrideEvent::Woken);
            &&& woken.pending is Poll
            &&& !woken.first_look && !woken.received
            &&& same_place(woken, output) && woken.active == output.active
            &&& woken.last_event == output.last_event
        }),
{
}

/// A frame of a file that comes in is the one that waits, and the live input is
/// asked before it is written. Its timestamp moves the stream on only while
/// the live input is off, and never back; the other stream stays.
pub proof fn law_file_frame_waits(output: LiveOverride, media: Media, pts: Option<i64>)
    requires
        output.wf(),
        output.pending is Idle,
        length(media) >= 0,
    ensures
        output.accepts_spec(OverrideEvent::File(media, pts)),
        ({
            let waiting = output.after(OverrideEvent::File(media, pts));
            let before = output.position(media);
            let behind = waiting.position(media);
            &&& waiting.pending is Poll
            &&& waiting.file_media == media
            &&& waiting.file_pts == pts
            &&& waiting.first_look && !waiting.received
            &&& waiting.active == output.active
            &&& output.active || pts is None ==> behind == before
            &&& !output.active ==> (pts matches Some(pts) ==> behind >= pts && behind >= before && (
            behind == pts || behind == before))
            &&& media is Video ==> waiting.audio_pts == output.audio_pts
            &&& media is Audio ==> waiting.video_pts == output.video_pts
        }),
{
}

/// A frame that was written moves its own stream to its end and nothing else;
/// a frame that could not be written moves nothing. Behind a live frame the
/// live input is asked on, behind the frame of a file the next one is waited
/// for.
pub proof fn law_only_written_frames_count(output: LiveOverride)
    requires
        output.wf(),
        output.pending is WriteLive || output.pending is WriteFile,
    ensures
        ({
            let (media, pts) = to_write(output.pending)->Some_0;
            let end = pts + match media {
                Media::Video => 1,
                Media::Audio(samples) => samples as int,
            };
            let done = output.after(OverrideEvent::Written);
            let failed = output.after(OverrideEvent::Failed);
            &&& output.accepts_spec(OverrideEvent::Failed)
            &&& same_place(failed, output) && failed.pending is Idle && failed.active
                == output.active
            &&& end <= i64::MAX ==> {
                &&& output.accepts_spec(OverrideEvent::Written)
                &&& media is Video ==> done.video_pts == end && done.audio_pts == output.audio_pts
                &&& media is Audio ==> done.audio_pts == end && done.video_pts == output.video_pts
                &&& done.active == output.active
                &&& output.pending is WriteLive ==> done.pending is Poll && done.file_media
                    == output.file_media && done.file_pts == output.file_pts
                &&& output.pending is WriteFile ==> done.pending is Idle
            }
        }),
{
}

/// The frames that files have delivered.
pub open spec fn files_delivered(events: Seq<OverrideEvent>) -> nat
    decreases events.len(),
{
    if events.len() == 0 {
        0
    } else {
        files_delivered(events.drop_last()) + if events.last() is File {
            1nat
        } else {
            0
        }
    }
}

/// How often a frame could not be written.
pub open spec fn failures(events: Seq<OverrideEvent>) -> nat
    decreases events.len(),
{
    if events.len() == 0 {
        0
    } else {
        failures(events.drop_last()) + if events.last() is Failed {
            1nat
        } else {
            0
        }
    }
}

/// The frames of files that were written.
pub open spec fn files_written(output: LiveOverride, events: Seq<OverrideEvent>) -> nat
    decreases events.len(),
{
    if events.len() == 0 {
        0
    } else {
        files_written(output, events.drop_last()) + if events.last() is Written && ran(
            output,
            events.drop_last(),
        ).pending is WriteFile {
            1nat
        } else {
            0
        }
    }
}

/// The live frames that arrived while the live input was on.
pub open spec fn live_arrived(output: LiveOverride, events: Seq<OverrideEvent>) -> nat
    decreases events.len(),
{
    if events.len() == 0 {
        0
    } else {
        live_arrived(output, events.drop_last()) + match events.last() {
            OverrideEvent::Live(LiveEvent::Frame(_), _) if ran(
                output,
                events.drop_last(),
            ).active => 1nat,
            _ => 0,
        }
    }
}

/// The live frames that were written, or could not be.
pub open spec fn live_handled(output: LiveOverride, events: Seq<OverrideEvent>) -> nat
    decreases events.len(),
{
    if events.len() == 0 {
        0
    } else {
        live_handled(output, events.drop_last()) + if (events.last() is Written
            || events.last() is Failed) && ran(output, events.drop_last()).pending is WriteLive {
            1nat
        } else {
            0
        }
    }
}

/// No frame is lost and none is written twice, however often the output
/// switches: each frame of a file is written once, unless a write fails, and
/// so is each live frame that arrives while the live input is on.
pub proof fn law_every_frame_is_written_once(start: LiveOverride, events: Seq<OverrideEvent>)
    requires
        start.wf(),
        start.pending is Idle,
        is_run(start, events),
    ensures
        ({
            let end = ran(start, events);
            &&& files_delivered(events) == files_written(start, events) + failures(events) + if (
            end.pending is Idle) {
                0nat
            } else {
                1
            }
            &&& live_arrived(start, events) == live_handled(start, events) + if (
            end.pending is WriteLive) {
                1nat
            } else {
                0
            }
        }),
    decreases events.len(),
{
    if events.len() > 0 {
        let before = events.drop_last();
        law_every_frame_is_written_once(start, before);
        law_stamps_never_go_back(start, before, true);
        lemma_step(ran(start, before), events.last());
    }
}

/// A live input that stays silent for too long gives way to the files.
pub proof fn law_idle_live_gives_way(output: LiveOverride, now: u64)
    requires
        output.wf(),
        output.pending is Sleep,
        now - output.last_event >= LIVE_IDLE_TIMEOUT_NS,
    ensures
        ({
            let looked = output.after(OverrideEvent::Woken).after(
                OverrideEvent::Live(LiveEvent::Empty, now),
            );
            &&& !looked.active
            &&& looked.pending is WriteFile
        }),
{
}

/// What the listener for publishers does next.
#[derive(Clone, Copy, Debug, PartialEq, Eq, Structural)]
pub enum ListenerStep {
    /// Wait for a publisher.
    Open,
    /// Announce that a publisher has connected.
    AnnounceStart,
    /// Decode what the publisher sends.
    Play,
    /// Announce that the publisher is gone.
    AnnounceEnd,
    /// Wait a second before the next attempt.
    Pause,
    /// Nobody is interested any more.
    Stop,
}

impl ListenerStep {
    /// What the listener does after a step that succeeded or failed. A
    /// publisher that fails while it is decoded is gone, too.
    pub open spec fn after(self, succeeded: bool) -> ListenerStep {
        match self {
            ListenerStep::Open => if succeeded {
                ListenerStep::AnnounceStart
            } else {
                ListenerStep::Pause
            },
            ListenerStep::AnnounceStart => if succeeded {
                ListenerStep::Play
            } else {
                ListenerStep::Stop
            },
            ListenerStep::Play => ListenerStep::AnnounceEnd,
            ListenerStep::AnnounceEnd => if succeeded {
                ListenerStep::Open
            } else {
                ListenerStep::Stop
            },
            ListenerStep::Pause => ListenerStep::Open,
            ListenerStep::Stop => ListenerStep::Stop,
        }
    }

    /// What the listener does after a step that succeeded or failed.
    pub fn next(self, succeeded: bool) -> (step: ListenerStep)
        ensures
            step == self.after(succeeded),
    {
        match self {
            ListenerStep::Open => if succeeded {
                ListenerStep::AnnounceStart
            } else {
                ListenerStep::Pause
            },
            ListenerStep::AnnounceStart => if succeeded {
                ListenerStep::Play
            } else {
                ListenerStep::Stop
            },
            ListenerStep::Play => ListenerStep::AnnounceEnd,
            ListenerStep::AnnounceEnd => if succeeded {
                ListenerStep::Open
            } else {
                ListenerStep::Stop
            },
            ListenerStep::Pause => ListenerStep::Open,
            ListenerStep::Stop => ListenerStep::Stop,
        }
    }
}

/// The step that the listener takes after the steps before it had these
/// results.
pub open spec fn listener_step(results: Seq<bool>) -> ListenerStep
    decreases results.len(),
{
    if results.len() == 0 {
        ListenerStep::Open
    } else {
        listener_step(results.drop_last()).after(results.last())
    }
}

/// How many publishers were announced, less those whose end was announced.
pub open spec fn publishers_announced(results: Seq<bool>) -> int
    decreases results.len(),
{
    if results.len() == 0 {
        0
    } else {
        publishers_announced(results.drop_last()) + if !results.last() {
            0int
        } else {
            match listener_step(results.drop_last()) {
                ListenerStep::AnnounceStart => 1,
                ListenerStep::AnnounceEnd => -1,
                _ => 0,
            }
        }
    }
}

/// Every publisher whose start was announced is announced to be gone before
/// the listener waits for the next one.
pub proof fn law_starts_and_ends_alternate(results: Seq<bool>)
    ensures
        match listener_step(results) {
            ListenerStep::Open | ListenerStep::AnnounceStart | ListenerStep::Pause => {
                publishers_announced(results) == 0
            },
            ListenerStep::Play | ListenerStep::AnnounceEnd => publishers_announced(results) == 1,
            ListenerStep::Stop => 0 <= publishers_announced(results) <= 1,
        },
    decreases results.len(),
{
    if results.len() > 0 {
        law_starts_and_ends_alternate(results.drop_last());
    }
}

/// The listener goes on as long as somebody takes its announcements: it stops
/// only when an announcement finds nobody. A publisher that has connected is
/// announced and then decoded, a failed attempt is repeated after a pause.
pub proof fn law_listener_goes_on(step: ListenerStep, succeeded: bool)
    ensures
        (step.after(succeeded) is Stop) == (step is Stop || (!succeeded && (step is AnnounceStart
            || step is AnnounceEnd))),
        ListenerStep::Open.after(true) is AnnounceStart,
        ListenerStep::AnnounceStart.after(true) is Play,
        ListenerStep::Play.after(succeeded) is AnnounceEnd,
        ListenerStep::AnnounceEnd.after(true) is Open,
        ListenerStep::Open.after(false) is Pause,
        ListenerStep::Pause.after(succeeded) is Open,
{
}

} // verus!
