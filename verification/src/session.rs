//! A run over a list of inputs: where the output goes, what follows each clip,
//! and what a clip that cannot be played leads to.
use crate::timeline::Timeline;
use vstd::prelude::*;

verus! {

/// Why a run cannot start.
#[derive(Clone, Copy, Debug, PartialEq, Eq, Structural)]
pub enum SessionError {
    /// There is no input.
    NoInput,
    /// Subtitles are linked from a master playlist, which only renditions
    /// have.
    SubtitlesWithoutVariants,
    /// Nothing says where the output goes.
    MissingOutput,
}

/// Where the output goes.
#[derive(Debug)]
pub enum Target {
    /// Into a window.
    Desktop,
    /// Into an HLS playlist.
    Hls(String),
    /// Into a file or to a server.
    Encoded(String),
}

/// What came of a clip.
#[derive(Debug)]
pub enum ClipResult {
    /// It was played.
    Played,
    /// It could not be played, and the fallback was written instead.
    Fallback {
        /// Why it could not be played.
        reason: String,
    },
    /// The user has stopped playback.
    Stopped,
}

/// How an attempt to play a clip has ended.
#[derive(Debug)]
pub enum Attempt {
    /// The clip is complete.
    Done,
    /// The user has stopped playback.
    Stopped,
    /// It could not be played, for this reason.
    Failed(String),
}

/// What follows a clip.
#[derive(Clone, Copy, Debug, PartialEq, Eq, Structural)]
pub enum NextInput {
    /// The next input.
    Continue,
    /// A report that the clip was replaced, and the next input.
    Report,
    /// Nothing: the run is over, and the output is left as it is.
    Stop,
}

/// How a clip in a window has ended. `L` is the type of the live input, `E`
/// that of errors.
pub enum DesktopRun<L, E> {
    /// The decoder has come to its end.
    Completed {
        /// What came of the clip.
        result: Result<ClipResult, E>,
        /// The timeline behind the clip.
        timeline: Timeline,
        /// The live input, if there is one.
        live: Option<L>,
    },
    /// The user has closed the window.
    Stopped,
    /// The window could not go on.
    Failed(E),
}

/// Refuses a run that has nothing to play.
pub fn check_inputs(inputs: usize) -> (checked: Result<(), SessionError>)
    ensures
        checked == if inputs == 0 {
            Err::<(), SessionError>(SessionError::NoInput)
        } else {
            Ok(())
        },
{
    if inputs == 0 {
        Err(SessionError::NoInput)
    } else {
        Ok(())
    }
}

/// Refuses subtitles that nothing can link.
pub fn check_subtitles(subtitles: bool, variants: usize) -> (checked: Result<(), SessionError>)
    ensures
        checked == if subtitles && variants == 0 {
            Err::<(), SessionError>(SessionError::SubtitlesWithoutVariants)
        } else {
            Ok(())
        },
{
    if subtitles && variants == 0 {
        Err(SessionError::SubtitlesWithoutVariants)
    } else {
        Ok(())
    }
}

/// Where the output goes: a window comes before a playlist, and a playlist
/// before a file.
pub fn select_target(desktop: bool, hls: Option<String>, output: Option<String>) -> (target: Result<
    Target,
    SessionError,
>)
    ensures
        match target {
            Ok(Target::Desktop) => desktop,
            Ok(Target::Hls(playlist)) => !desktop && hls == Some(playlist),
            Ok(Target::Encoded(path)) => !desktop && hls is None && output == Some(path),
            Err(error) => {
                &&& error == SessionError::MissingOutput
                &&& !desktop
                &&& hls is None
                &&& output is None
            },
        },
{
    if desktop {
        return Ok(Target::Desktop);
    }
    match hls {
        Some(playlist) => Ok(Target::Hls(playlist)),
        None => match output {
            Some(path) => Ok(Target::Encoded(path)),
            None => Err(SessionError::MissingOutput),
        },
    }
}

/// Whether playback of an input starts at the offset that was asked for: only
/// the first one does, and only if the offset is not the start.
pub fn starts_at_offset(index: usize, offset_is_positive: bool) -> (applies: bool)
    ensures
        applies == (index == 0 && offset_is_positive),
{
    index == 0 && offset_is_positive
}

impl Attempt {
    /// Whether the fallback takes the place of the clip.
    pub fn needs_fallback(&self) -> (needed: bool)
        ensures
            needed == (self is Failed),
    {
        match self {
            Attempt::Failed(_) => true,
            _ => false,
        }
    }

    /// What came of the clip, once the fallback was written where it is
    /// needed.
    pub fn into_result(self) -> (result: ClipResult)
        ensures
            result == (match self {
                Attempt::Done => ClipResult::Played,
                Attempt::Stopped => ClipResult::Stopped,
                Attempt::Failed(reason) => ClipResult::Fallback { reason },
            }),
    {
        match self {
            Attempt::Done => ClipResult::Played,
            Attempt::Stopped => ClipResult::Stopped,
            Attempt::Failed(reason) => ClipResult::Fallback { reason },
        }
    }
}

impl ClipResult {
    /// What follows the clip.
    pub open spec fn next_input_spec(self) -> NextInput {
        match self {
            ClipResult::Played => NextInput::Continue,
            ClipResult::Fallback { .. } => NextInput::Report,
            ClipResult::Stopped => NextInput::Stop,
        }
    }

    /// What follows the clip.
    pub fn next_input(&self) -> (next: NextInput)
        ensures
            next == self.next_input_spec(),
    {
        match self {
            ClipResult::Played => NextInput::Continue,
            ClipResult::Fallback { .. } => NextInput::Report,
            ClipResult::Stopped => NextInput::Stop,
        }
    }
}

/// What came of a decoder that ran beside a window. A decoder that was lost
/// counts first, then a window that could not go on.
pub fn operation_result<T, E>(worker: Result<T, E>, rendered: Result<(), E>) -> (result: Result<
    T,
    E,
>)
    ensures
        result == match (worker, rendered) {
            (Err(error), _) => Err::<T, E>(error),
            (Ok(_), Err(error)) => Err(error),
            (Ok(value), Ok(())) => Ok(value),
        },
{
    match worker {
        Err(error) => Err(error),
        Ok(value) => match rendered {
            Err(error) => Err(error),
            Ok(()) => Ok(value),
        },
    }
}

/// Takes over what a clip in a window leaves behind. The timeline and the live
/// input change only when the decoder has come to its end.
pub fn settle_desktop<L, E>(
    run: DesktopRun<L, E>,
    timeline: &mut Timeline,
    live: &mut Option<L>,
) -> (result: Result<ClipResult, E>)
    ensures
        match run {
            DesktopRun::Completed { result: played, timeline: reached, live: kept } => {
                &&& result == played
                &&& *final(timeline) == reached
                &&& *final(live) == kept
            },
            DesktopRun::Stopped => {
                &&& result == Ok::<ClipResult, E>(ClipResult::Stopped)
                &&& *final(timeline) == *old(timeline)
                &&& *final(live) == *old(live)
            },
            DesktopRun::Failed(error) => {
                &&& result == Err::<ClipResult, E>(error)
                &&& *final(timeline) == *old(timeline)
                &&& *final(live) == *old(live)
            },
        },
{
    match run {
        DesktopRun::Completed { result, timeline: reached, live: kept } => {
            *timeline = reached;
            *live = kept;
            result
        },
        DesktopRun::Stopped => Ok(ClipResult::Stopped),
        DesktopRun::Failed(error) => Err(error),
    }
}

/// How many inputs are played when their clips have these results: all of them,
/// or those up to the one at which the user stops playback.
pub open spec fn inputs_played(results: Seq<ClipResult>) -> nat
    decreases results.len(),
{
    if results.len() == 0 {
        0
    } else if results[0].next_input_spec() is Stop {
        1
    } else {
        1 + inputs_played(results.skip(1))
    }
}

/// An input that cannot be played does not end the run: only the user does.
pub proof fn law_fallback_does_not_end_the_run(results: Seq<ClipResult>)
    requires
        forall|i: int| 0 <= i < results.len() ==> !(#[trigger] results[i] is Stopped),
    ensures
        inputs_played(results) == results.len(),
    decreases results.len(),
{
    if results.len() > 0 {
        let rest = results.skip(1);
        assert forall|i: int| 0 <= i < rest.len() implies !(#[trigger] rest[i] is Stopped) by {
            assert(rest[i] == results[i + 1]);
        }
        assert(!(results[0] is Stopped));
        law_fallback_does_not_end_the_run(rest);
    }
}

/// The user ends the run: the input at which playback is stopped is the last
/// one.
pub proof fn law_stopping_ends_the_run(results: Seq<ClipResult>, at: int)
    requires
        0 <= at < results.len(),
        results[at] is Stopped,
        forall|i: int| 0 <= i < at ==> !(#[trigger] results[i] is Stopped),
    ensures
        inputs_played(results) == at + 1,
    decreases at,
{
    if at > 0 {
        let rest = results.skip(1);
        assert forall|i: int| 0 <= i < at - 1 implies !(#[trigger] rest[i] is Stopped) by {
            assert(rest[i] == results[i + 1]);
        }
        assert(!(results[0] is Stopped));
        law_stopping_ends_the_run(rest, at - 1);
    }
}

/// A clip is reported exactly when the fallback took its place.
pub proof fn law_only_replaced_clips_are_reported(result: ClipResult)
    ensures
        (result.next_input_spec() is Report) == (result is Fallback),
        (result.next_input_spec() is Stop) == (result is Stopped),
{
}

} // verus!
