//! The output of a whole run: clips, fallback output and padding in any order.
use crate::clip::{
    audio_reached, audio_written, is_run, law_clip_continues_the_timeline, ran, video_written,
    work_done, ClipEvent, ClipPlayer,
};
use crate::timeline::{
    fallback_run, in_range, is_continuous, law_fallback_fills_exactly, law_sync_writes_the_plan,
    replayed, stepped, sync_run, FillStep, SyncPlan,
};
use vstd::prelude::*;

verus! {

/// The timestamps of what was written: those of the video frames, and those of
/// the audio frames with their lengths.
pub struct Stamps {
    pub video: Seq<int>,
    pub audio: Seq<(int, int)>,
}

/// The timestamps of synthetic output.
pub open spec fn step_stamps(steps: Seq<FillStep>) -> Stamps
    decreases steps.len(),
{
    if steps.len() == 0 {
        Stamps { video: Seq::empty(), audio: Seq::empty() }
    } else {
        let rest = step_stamps(steps.skip(1));
        match steps[0] {
            FillStep::Black { pts } => Stamps { video: seq![pts as int] + rest.video, ..rest },
            FillStep::Silence { pts, samples } => Stamps {
                audio: seq![(pts as int, samples as int)] + rest.audio,
                ..rest
            },
        }
    }
}

/// A part of a run.
pub enum Piece {
    /// A clip, as far as these events take it.
    Clip { player: ClipPlayer, events: Seq<ClipEvent> },
    /// A stretch of fallback output up to a goal.
    Fallback { goal: (int, int), not_ahead: spec_fn((int, int)) -> bool, frame_size: int },
    /// Padding by a plan.
    Padding { plan: SyncPlan, frame_size: int },
}

impl Piece {
    /// Whether the piece can be played when the timeline stands here.
    pub open spec fn fits(self, timeline: (int, int)) -> bool {
        match self {
            Piece::Clip { player, events } => {
                &&& player.wf()
                &&& player.timeline.stamps() == timeline
                &&& is_run(player, events)
            },
            Piece::Fallback { goal, frame_size, .. } => {
                &&& in_range(timeline)
                &&& in_range(goal)
                &&& timeline.0 <= goal.0
                &&& timeline.1 <= goal.1
                &&& frame_size <= i64::MAX
            },
            Piece::Padding { plan, frame_size } => {
                &&& in_range(timeline)
                &&& plan.video_frames >= 0
                &&& plan.audio_samples >= 0
                &&& in_range((timeline.0 + plan.video_frames, timeline.1 + plan.audio_samples))
                &&& frame_size <= i64::MAX
            },
        }
    }

    /// The timeline behind the piece.
    pub open spec fn end(self, timeline: (int, int)) -> (int, int) {
        match self {
            Piece::Clip { player, events } => ran(player, events).timeline.stamps(),
            Piece::Fallback { goal, not_ahead, frame_size } => replayed(
                timeline,
                fallback_run(timeline, goal, not_ahead, frame_size),
            ),
            Piece::Padding { plan, frame_size } => replayed(
                timeline,
                sync_run(timeline, plan, frame_size),
            ),
        }
    }

    /// The timestamps of what the piece writes.
    pub open spec fn stamps(self, timeline: (int, int)) -> Stamps {
        match self {
            Piece::Clip { player, events } => Stamps {
                video: video_written(work_done(player, events)),
                audio: audio_written(work_done(player, events)),
            },
            Piece::Fallback { goal, not_ahead, frame_size } => step_stamps(
                fallback_run(timeline, goal, not_ahead, frame_size),
            ),
            Piece::Padding { plan, frame_size } => step_stamps(
                sync_run(timeline, plan, frame_size),
            ),
        }
    }
}

/// The timeline behind a list of pieces.
pub open spec fn run_end(timeline: (int, int), pieces: Seq<Piece>) -> (int, int)
    decreases pieces.len(),
{
    if pieces.len() == 0 {
        timeline
    } else {
        pieces.last().end(run_end(timeline, pieces.drop_last()))
    }
}

/// Whether each piece takes the timeline up where the piece before it left it.
pub open spec fn is_whole_run(timeline: (int, int), pieces: Seq<Piece>) -> bool
    decreases pieces.len(),
{
    pieces.len() > 0 ==> {
        &&& is_whole_run(timeline, pieces.drop_last())
        &&& pieces.last().fits(run_end(timeline, pieces.drop_last()))
    }
}

/// The timestamps of what a list of pieces writes.
pub open spec fn run_stamps(timeline: (int, int), pieces: Seq<Piece>) -> Stamps
    decreases pieces.len(),
{
    if pieces.len() == 0 {
        Stamps { video: Seq::empty(), audio: Seq::empty() }
    } else {
        let before = run_stamps(timeline, pieces.drop_last());
        let last = pieces.last().stamps(run_end(timeline, pieces.drop_last()));
        Stamps { video: before.video + last.video, audio: before.audio + last.audio }
    }
}

/// Whether output takes a timeline from one place to another without a gap:
/// video frames are numbered one by one, and each audio frame starts where the
/// one before it ended.
pub open spec fn leads(from: (int, int), to: (int, int), output: Stamps) -> bool {
    &&& forall|i: int| 0 <= i < output.video.len() ==> #[trigger] output.video[i] == from.0 + i
    &&& to.0 == from.0 + output.video.len()
    &&& forall|i: int|
        0 <= i < output.audio.len() ==> (#[trigger] output.audio[i]).0 == audio_reached(
            from.1,
            output.audio.take(i),
        )
    &&& to.1 == audio_reached(from.1, output.audio)
}

/// The timestamps of a run are continuous: over clips that are played to their
/// end or break off, over fallback output and over padding, in whichever order
/// they come, video frames are numbered without a gap and each audio frame
/// starts where the one before it ended.
pub proof fn law_timestamps_are_continuous(timeline: (int, int), pieces: Seq<Piece>)
    requires
        is_whole_run(timeline, pieces),
    ensures
        leads(timeline, run_end(timeline, pieces), run_stamps(timeline, pieces)),
    decreases pieces.len(),
{
    if pieces.len() > 0 {
        let before = pieces.drop_last();
        let middle = run_end(timeline, before);
        let last = pieces.last();
        law_timestamps_are_continuous(timeline, before);
        lemma_piece_leads(middle, last);
        lemma_leads_on(
            timeline,
            middle,
            last.end(middle),
            run_stamps(timeline, before),
            last.stamps(middle),
        );
    }
}

proof fn lemma_piece_leads(timeline: (int, int), piece: Piece)
    requires
        piece.fits(timeline),
    ensures
        leads(timeline, piece.end(timeline), piece.stamps(timeline)),
{
    match piece {
        Piece::Clip { player, events } => {
            law_clip_continues_the_timeline(player, events);
        },
        Piece::Fallback { goal, not_ahead, frame_size } => {
            law_fallback_fills_exactly(timeline, goal, not_ahead, frame_size);
            lemma_steps_lead(timeline, fallback_run(timeline, goal, not_ahead, frame_size));
        },
        Piece::Padding { plan, frame_size } => {
            law_sync_writes_the_plan(timeline, plan, frame_size);
            lemma_steps_lead(timeline, sync_run(timeline, plan, frame_size));
        },
    }
}

proof fn lemma_steps_lead(timeline: (int, int), steps: Seq<FillStep>)
    requires
        is_continuous(timeline, steps),
    ensures
        leads(timeline, replayed(timeline, steps), step_stamps(steps)),
    decreases steps.len(),
{
    if steps.len() > 0 {
        let next = stepped(timeline, steps[0]);
        let rest = steps.skip(1);
        lemma_steps_lead(next, rest);
        let first = match steps[0] {
            FillStep::Black { pts } => Stamps { video: seq![pts as int], audio: Seq::empty() },
            FillStep::Silence { pts, samples } => Stamps {
                video: Seq::empty(),
                audio: seq![(pts as int, samples as int)],
            },
        };
        lemma_leads_on(timeline, next, replayed(next, rest), first, step_stamps(rest));
        assert(first.video + step_stamps(rest).video =~= step_stamps(steps).video);
        assert(first.audio + step_stamps(rest).audio =~= step_stamps(steps).audio);
    }
}

proof fn lemma_leads_on(
    from: (int, int),
    middle: (int, int),
    to: (int, int),
    first: Stamps,
    second: Stamps,
)
    requires
        leads(from, middle, first),
        leads(middle, to, second),
    ensures
        leads(
            from,
            to,
            Stamps { video: first.video + second.video, audio: first.audio + second.audio },
        ),
{
    let video = first.video + second.video;
    let audio = first.audio + second.audio;
    assert forall|i: int| 0 <= i < video.len() implies #[trigger] video[i] == from.0 + i by {
        if i < first.video.len() {
            assert(video[i] == first.video[i]);
        } else {
            assert(video[i] == second.video[i - first.video.len()]);
        }
    }
    assert forall|i: int| 0 <= i < audio.len() implies (#[trigger] audio[i]).0 == audio_reached(
        from.1,
        audio.take(i),
    ) by {
        if i < first.audio.len() {
            assert(audio[i] == first.audio[i]);
            assert(audio.take(i) =~= first.audio.take(i));
        } else {
            let k = i - first.audio.len();
            assert(audio[i] == second.audio[k]);
            let behind = second.audio.take(k);
            assert(audio.take(i) =~= first.audio + behind);
            if k == 0 {
                assert(first.audio + behind =~= first.audio);
            } else {
                assert((first.audio + behind).last() == behind.last());
            }
        }
    }
    if second.audio.len() == 0 {
        assert(audio =~= first.audio);
    } else {
        assert(audio.last() == second.audio.last());
    }
}

} // verus!
