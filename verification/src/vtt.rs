//! WebVTT subtitles: reading the cues of a sidecar file.
use crate::paths::{
    file_name_span, file_name_spec, is_plain_name, lemma_file_name_is_plain,
    lemma_name_behind_directory, lemma_span_bounds, lemma_stem_len, stem_len, with_extension,
    with_extension_spec,
};
use crate::text::{
    all_digits, all_white, chars_equal, digit_value, find, find_spec, from_chars, is_digit,
    is_whitespace, law_digits_denote_their_value, law_leading_word_ends_at_white_space,
    law_numbers_are_read, law_prefixes, law_search_finds_the_first, law_search_misses_nothing,
    law_splitting_goes_piece_by_piece, law_stripping_takes_the_run, law_trimming_keeps_the_text,
    leading_word, leading_word_spec, lemma_split_nonempty, lemma_trim_start_of, parse_i64,
    parse_i64_spec, push_chars, replace, replace_spec, split_on, split_on_spec, starts_with,
    starts_with_spec, strip_leading, strip_leading_spec, to_chars, trim, trim_end, trim_end_spec,
    trim_spec, trim_start, trim_start_spec, value_of, NumberError,
};
use vstd::prelude::*;
use vstd::slice::slice_subrange;

verus! {

/// One subtitle: a text and the span of time in which it shows.
#[derive(Debug)]
pub struct VttCue {
    /// When the cue appears, in milliseconds.
    pub start_ms: i64,
    /// When the cue disappears, in milliseconds.
    pub end_ms: i64,
    /// The lines of the cue, separated by line feeds.
    pub text: String,
}

/// What a cue says, as mathematical values.
pub struct CueModel {
    pub start_ms: int,
    pub end_ms: int,
    pub text: Seq<char>,
}

impl View for VttCue {
    type V = CueModel;

    open spec fn view(&self) -> CueModel {
        CueModel { start_ms: self.start_ms as int, end_ms: self.end_ms as int, text: self.text@ }
    }
}

/// Why a subtitle file cannot be read.
#[derive(Debug)]
pub enum VttError {
    /// A cue has no line with `-->`.
    MissingTimingLine,
    /// A timing line has no `-->`.
    InvalidTimingLine,
    /// Nothing follows the `-->`.
    MissingEnd,
    /// A cue does not end after it starts.
    EndNotAfterStart,
    /// A timestamp has neither two nor three fields.
    InvalidTimestamp(String),
    /// A timestamp has no decimal point.
    MissingMilliseconds,
    /// The fraction of a timestamp does not begin with digits.
    InvalidMilliseconds,
    /// A field of a timestamp is not a number.
    Number(NumberError),
    /// A timestamp does not fit into 64 bits.
    TimestampOutOfRange,
}

/// What a [`VttError`] says, as mathematical values.
pub enum VttFailure {
    MissingTimingLine,
    InvalidTimingLine,
    MissingEnd,
    EndNotAfterStart,
    InvalidTimestamp(Seq<char>),
    MissingMilliseconds,
    InvalidMilliseconds,
    Number(NumberError),
    TimestampOutOfRange,
}

impl View for VttError {
    type V = VttFailure;

    open spec fn view(&self) -> VttFailure {
        match *self {
            VttError::MissingTimingLine => VttFailure::MissingTimingLine,
            VttError::InvalidTimingLine => VttFailure::InvalidTimingLine,
            VttError::MissingEnd => VttFailure::MissingEnd,
            VttError::EndNotAfterStart => VttFailure::EndNotAfterStart,
            VttError::InvalidTimestamp(value) => VttFailure::InvalidTimestamp(value@),
            VttError::MissingMilliseconds => VttFailure::MissingMilliseconds,
            VttError::InvalidMilliseconds => VttFailure::InvalidMilliseconds,
            VttError::Number(error) => VttFailure::Number(error),
            VttError::TimestampOutOfRange => VttFailure::TimestampOutOfRange,
        }
    }
}

/// `content` with every line ending (CR LF, CR or LF) as one line feed.
pub open spec fn normalize_spec(content: Seq<char>) -> Seq<char>
    decreases content.len(),
{
    if content.len() == 0 {
        Seq::empty()
    } else if content[0] == '\r' && content.len() > 1 && content[1] == '\n' {
        seq!['\n'] + normalize_spec(content.skip(2))
    } else if content[0] == '\r' {
        seq!['\n'] + normalize_spec(content.skip(1))
    } else {
        seq![content[0]] + normalize_spec(content.skip(1))
    }
}

/// Whether a line holds nothing but white space.
pub open spec fn is_blank(line: Seq<char>) -> bool {
    trim_spec(line).len() == 0
}

/// The blocks of `lines` that a blank line has closed, and the lines of the
/// block that is still open at the end.
pub open spec fn grouped(lines: Seq<Seq<char>>) -> (Seq<Seq<Seq<char>>>, Seq<Seq<char>>)
    decreases lines.len(),
{
    if lines.len() == 0 {
        (Seq::empty(), Seq::empty())
    } else {
        let (closed, open) = grouped(lines.drop_last());
        if !is_blank(lines.last()) {
            (closed, open.push(lines.last()))
        } else {
            (closed.push(open), Seq::empty())
        }
    }
}

/// The blocks of `lines`: the runs of lines between blank lines. A run may be
/// empty.
pub open spec fn blocks_spec(lines: Seq<Seq<char>>) -> Seq<Seq<Seq<char>>> {
    grouped(lines).0.push(grouped(lines).1)
}

/// The first three characters of a text, or all of a shorter one.
pub open spec fn first_three(value: Seq<char>) -> Seq<char> {
    if value.len() < 3 {
        value
    } else {
        value.take(3)
    }
}

/// The value of the first three digits of a fraction, as milliseconds.
pub open spec fn milliseconds_spec(value: Seq<char>) -> Result<int, VttFailure> {
    let digits = first_three(value);
    if digits.len() == 0 || exists|i: int| 0 <= i < digits.len() && !is_digit(digits[i]) {
        Err(VttFailure::InvalidMilliseconds)
    } else {
        Ok(
            digit_value(digits[0]) * 100 + (if digits.len() > 1 {
                digit_value(digits[1]) * 10
            } else {
                0
            }) + (if digits.len() > 2 {
                digit_value(digits[2])
            } else {
                0
            }),
        )
    }
}

/// Whether a number fits into 64 bits.
pub open spec fn fits_i64(n: int) -> bool {
    i64::MIN <= n <= i64::MAX
}

/// The milliseconds of a time of day, unless a step of the computation leaves
/// the range of 64 bits.
pub open spec fn total_ms(hours: int, minutes: int, seconds: int, millis: int) -> Result<
    int,
    VttFailure,
> {
    let all_minutes = hours * 60 + minutes;
    let all_seconds = all_minutes * 60 + seconds;
    let all_millis = all_seconds * 1000 + millis;
    if fits_i64(hours * 60) && fits_i64(all_minutes) && fits_i64(all_minutes * 60) && fits_i64(
        all_seconds,
    ) && fits_i64(all_seconds * 1000) && fits_i64(all_millis) {
        Ok(all_millis)
    } else {
        Err(VttFailure::TimestampOutOfRange)
    }
}

/// The milliseconds that the fields of a timestamp denote: the hours as a
/// number already, the minutes and the seconds with their fraction as text.
pub open spec fn fields_spec(hours: int, minutes: Seq<char>, seconds: Seq<char>) -> Result<
    int,
    VttFailure,
> {
    match parse_i64_spec(minutes) {
        Err(error) => Err(VttFailure::Number(error)),
        Ok(minutes) => match find_spec(seconds, seq!['.']) {
            None => Err(VttFailure::MissingMilliseconds),
            Some(point) => match parse_i64_spec(seconds.take(point)) {
                Err(error) => Err(VttFailure::Number(error)),
                Ok(whole) => match milliseconds_spec(seconds.skip(point + 1)) {
                    Err(failure) => Err(failure),
                    Ok(millis) => total_ms(hours, minutes, whole, millis),
                },
            },
        },
    }
}

/// The milliseconds that a timestamp `[hours:]minutes:seconds.fraction`
/// denotes; a comma serves as well as a point.
pub open spec fn timestamp_spec(value: Seq<char>) -> Result<int, VttFailure> {
    let value = replace_spec(value, ',', '.');
    let fields = split_on_spec(value, ':');
    if fields.len() == 2 {
        fields_spec(0, fields[0], fields[1])
    } else if fields.len() == 3 {
        match parse_i64_spec(fields[0]) {
            Err(error) => Err(VttFailure::Number(error)),
            Ok(hours) => fields_spec(hours, fields[1], fields[2]),
        }
    } else {
        Err(VttFailure::InvalidTimestamp(value))
    }
}

/// The arrow between the two timestamps of a timing line.
pub open spec fn arrow() -> Seq<char> {
    seq!['-', '-', '>']
}

/// The start and the end that a timing line gives. What follows the end after
/// white space is not read.
pub open spec fn timing_spec(line: Seq<char>) -> Result<(int, int), VttFailure> {
    match find_spec(line, arrow()) {
        None => Err(VttFailure::InvalidTimingLine),
        Some(at) => {
            let end = leading_word_spec(trim_start_spec(line.skip(at + 3)));
            if end.len() == 0 {
                Err(VttFailure::MissingEnd)
            } else {
                match timestamp_spec(trim_spec(line.take(at))) {
                    Err(failure) => Err(failure),
                    Ok(start_ms) => match timestamp_spec(end) {
                        Err(failure) => Err(failure),
                        Ok(end_ms) => Ok((start_ms, end_ms)),
                    },
                }
            }
        },
    }
}

/// The index, from `from` on, of the first line with an arrow.
pub open spec fn timing_index(lines: Seq<Seq<char>>, from: int) -> Option<int>
    decreases lines.len() - from,
{
    if from < 0 || from >= lines.len() {
        None
    } else if find_spec(lines[from], arrow()) is Some {
        Some(from)
    } else {
        timing_index(lines, from + 1)
    }
}

/// The lines without their trailing white space, separated by line feeds.
pub open spec fn joined(lines: Seq<Seq<char>>) -> Seq<char>
    decreases lines.len(),
{
    if lines.len() == 0 {
        Seq::empty()
    } else if lines.len() == 1 {
        trim_end_spec(lines[0])
    } else {
        joined(lines.drop_last()).push('\n') + trim_end_spec(lines.last())
    }
}

/// Whether the first line of a block says that the block is no cue.
pub open spec fn is_header(line: Seq<char>) -> bool {
    let first = trim_spec(strip_leading_spec(line, '\u{feff}'));
    ||| starts_with_spec(first, "WEBVTT"@)
    ||| starts_with_spec(first, "NOTE"@)
    ||| first == "STYLE"@
    ||| first == "REGION"@
}

/// The cue of a block, if it has one.
#[verifier::opaque]
pub open spec fn block_spec(lines: Seq<Seq<char>>) -> Result<Option<CueModel>, VttFailure> {
    if lines.len() == 0 || is_header(lines[0]) {
        Ok(None)
    } else {
        match timing_index(lines, 0) {
            None => Err(VttFailure::MissingTimingLine),
            Some(index) => match timing_spec(lines[index]) {
                Err(failure) => Err(failure),
                Ok((start_ms, end_ms)) => {
                    let text = joined(lines.skip(index + 1));
                    if end_ms <= start_ms {
                        Err(VttFailure::EndNotAfterStart)
                    } else if is_blank(text) {
                        Ok(None)
                    } else {
                        Ok(Some(CueModel { start_ms, end_ms, text }))
                    }
                },
            },
        }
    }
}

/// The cues of the blocks, in order; the first block that cannot be read
/// decides the error.
pub open spec fn cues_spec(blocks: Seq<Seq<Seq<char>>>) -> Result<Seq<CueModel>, VttFailure>
    decreases blocks.len(),
{
    if blocks.len() == 0 {
        Ok(Seq::empty())
    } else {
        match cues_spec(blocks.drop_last()) {
            Err(failure) => Err(failure),
            Ok(cues) => match block_spec(blocks.last()) {
                Err(failure) => Err(failure),
                Ok(None) => Ok(cues),
                Ok(Some(cue)) => Ok(cues.push(cue)),
            },
        }
    }
}

/// The cues of a subtitle file.
pub open spec fn parse_spec(content: Seq<char>) -> Result<Seq<CueModel>, VttFailure> {
    cues_spec(blocks_spec(split_on_spec(normalize_spec(content), '\n')))
}

/// The models of a list of cues.
pub open spec fn cue_models(cues: Seq<VttCue>) -> Seq<CueModel> {
    cues.map_values(|cue: VttCue| cue@)
}

/// The texts of a list of lines.
pub open spec fn line_models(lines: Seq<&[char]>) -> Seq<Seq<char>> {
    lines.map_values(|line: &[char]| line@)
}

/// The texts of a list of string slices.
pub open spec fn str_models(lines: Seq<&str>) -> Seq<Seq<char>> {
    lines.map_values(|line: &str| line@)
}

/// Whether a result with an integer says the same as its model.
pub open spec fn same_number(result: Result<i64, VttError>, model: Result<int, VttFailure>) -> bool {
    match (result, model) {
        (Ok(value), Ok(expected)) => value == expected,
        (Err(error), Err(failure)) => error@ == failure,
        _ => false,
    }
}

/// Every cue ends after it starts and has a text.
pub proof fn law_cues_have_time_and_text(content: Seq<char>)
    ensures
        parse_spec(content) matches Ok(cues) ==> forall|i: int|
            0 <= i < cues.len() ==> (#[trigger] cues[i]).start_ms < cues[i].end_ms && !is_blank(
                cues[i].text,
            ),
{
    lemma_cues_have_time_and_text(blocks_spec(split_on_spec(normalize_spec(content), '\n')));
}

proof fn lemma_cues_have_time_and_text(blocks: Seq<Seq<Seq<char>>>)
    ensures
        cues_spec(blocks) matches Ok(cues) ==> forall|i: int|
            0 <= i < cues.len() ==> (#[trigger] cues[i]).start_ms < cues[i].end_ms && !is_blank(
                cues[i].text,
            ),
    decreases blocks.len(),
{
    if blocks.len() > 0 {
        lemma_cues_have_time_and_text(blocks.drop_last());
        reveal(block_spec);
    }
}

proof fn lemma_normalized(content: Seq<char>)
    ensures
        !normalize_spec(content).contains('\r'),
    decreases content.len(),
{
    let normalized = normalize_spec(content);
    if content.len() > 0 {
        let skip: int = if content[0] == '\r' && content.len() > 1 && content[1] == '\n' {
            2
        } else {
            1
        };
        let rest = normalize_spec(content.skip(skip));
        lemma_normalized(content.skip(skip));
        assert forall|i: int| 0 <= i < normalized.len() implies normalized[i] != '\r' by {
            if i > 0 {
                assert(normalized[i] == rest[i - 1]);
            }
        }
    }
}

proof fn lemma_normal_stays(content: Seq<char>)
    requires
        !content.contains('\r'),
    ensures
        normalize_spec(content) == content,
    decreases content.len(),
{
    if content.len() > 0 {
        assert(content[0] != '\r');
        let rest = content.skip(1);
        assert forall|i: int| 0 <= i < rest.len() implies rest[i] != '\r' by {
            assert(rest[i] == content[i + 1]);
        }
        lemma_normal_stays(rest);
        assert(seq![content[0]] + rest =~= content);
    } else {
        assert(content =~= Seq::empty());
    }
}

/// Files that differ in their line endings alone have the same cues.
pub proof fn law_line_endings_do_not_matter(a: Seq<char>, b: Seq<char>)
    requires
        normalize_spec(a) == normalize_spec(b),
    ensures
        parse_spec(a) == parse_spec(b),
        parse_spec(normalize_spec(a)) == parse_spec(a),
{
    lemma_normalized(a);
    lemma_normal_stays(normalize_spec(a));
}

/// A decimal comma in a timestamp means the same as a decimal point.
pub proof fn law_comma_serves_as_point(value: Seq<char>)
    ensures
        timestamp_spec(replace_spec(value, ',', '.')) == timestamp_spec(value),
{
    assert(replace_spec(replace_spec(value, ',', '.'), ',', '.') =~= replace_spec(value, ',', '.'));
}

/// Each line ending counts as one line feed, be it CR LF, CR or LF: behind a
/// line that has none, what follows is read as the next line.
pub proof fn law_line_endings_are_one(line: Seq<char>, rest: Seq<char>)
    requires
        !line.contains('\r'),
    ensures
        normalize_spec(line) == line,
        normalize_spec(line + seq!['\n'] + rest) == line + seq!['\n'] + normalize_spec(rest),
        normalize_spec(line + seq!['\r', '\n'] + rest) == line + seq!['\n'] + normalize_spec(rest),
        rest.len() == 0 || rest[0] != '\n' ==> normalize_spec(line + seq!['\r'] + rest) == line
            + seq!['\n'] + normalize_spec(rest),
{
    lemma_normal_stays(line);
    let feed = seq!['\n'] + rest;
    let both = seq!['\r', '\n'] + rest;
    let ret = seq!['\r'] + rest;
    assert(line + seq!['\n'] + rest =~= line + feed);
    assert(line + seq!['\r', '\n'] + rest =~= line + both);
    assert(line + seq!['\r'] + rest =~= line + ret);
    lemma_normalize_behind(line, feed);
    lemma_normalize_behind(line, both);
    lemma_normalize_behind(line, ret);
    assert(feed.skip(1) =~= rest);
    assert(both.skip(2) =~= rest);
    assert(ret.skip(1) =~= rest);
    let end = seq!['\n'] + normalize_spec(rest);
    assert(line + end =~= line + seq!['\n'] + normalize_spec(rest));
}

proof fn lemma_normalize_behind(a: Seq<char>, b: Seq<char>)
    requires
        a.len() > 0 && a.last() == '\r' ==> b.len() == 0 || b[0] != '\n',
    ensures
        normalize_spec(a + b) == normalize_spec(a) + normalize_spec(b),
    decreases a.len(),
{
    let s = a + b;
    if a.len() == 0 {
        assert(s =~= b);
        assert(normalize_spec(a) + normalize_spec(b) =~= normalize_spec(b));
    } else {
        let skip: int = if a[0] == '\r' && a.len() > 1 && a[1] == '\n' {
            2
        } else {
            1
        };
        let rest = a.skip(skip);
        assert(rest.len() > 0 ==> rest.last() == a.last());
        lemma_normalize_behind(rest, b);
        assert(s.skip(skip) =~= rest + b);
        assert(s[0] == a[0]);
        if a.len() > 1 {
            assert(s[1] == a[1]);
        }
        let first = if a[0] == '\r' {
            '\n'
        } else {
            a[0]
        };
        assert(seq![first] + (normalize_spec(rest) + normalize_spec(b)) =~= seq![first]
            + normalize_spec(rest) + normalize_spec(b));
    }
}

/// Blocks are what blank lines part: lines without a blank one are one block,
/// and a blank line between two lists of lines parts their blocks.
pub proof fn law_blank_lines_part_blocks(
    a: Seq<Seq<char>>,
    blank: Seq<char>,
    b: Seq<Seq<char>>,
)
    ensures
        (forall|i: int| 0 <= i < a.len() ==> !is_blank(#[trigger] a[i])) ==> blocks_spec(a)
            == seq![a],
        is_blank(blank) ==> blocks_spec(a.push(blank) + b) == blocks_spec(a) + blocks_spec(b),
{
    if forall|i: int| 0 <= i < a.len() ==> !is_blank(#[trigger] a[i]) {
        lemma_open_block(a);
        assert(blocks_spec(a) =~= seq![a]);
    }
    if is_blank(blank) {
        lemma_grouped_behind(a, blank, b);
        assert(blocks_spec(a.push(blank) + b) =~= blocks_spec(a) + blocks_spec(b));
    }
}

proof fn lemma_open_block(lines: Seq<Seq<char>>)
    requires
        forall|i: int| 0 <= i < lines.len() ==> !is_blank(#[trigger] lines[i]),
    ensures
        grouped(lines) == (Seq::<Seq<Seq<char>>>::empty(), lines),
    decreases lines.len(),
{
    if lines.len() > 0 {
        let before = lines.drop_last();
        assert forall|i: int| 0 <= i < before.len() implies !is_blank(#[trigger] before[i]) by {
            assert(before[i] == lines[i]);
        }
        lemma_open_block(before);
        assert(!is_blank(lines[lines.len() - 1]));
        assert(before.push(lines.last()) =~= lines);
    } else {
        assert(lines =~= Seq::empty());
    }
}

proof fn lemma_grouped_behind(a: Seq<Seq<char>>, blank: Seq<char>, b: Seq<Seq<char>>)
    requires
        is_blank(blank),
    ensures
        grouped(a.push(blank) + b).0 == grouped(a).0.push(grouped(a).1) + grouped(b).0,
        grouped(a.push(blank) + b).1 == grouped(b).1,
    decreases b.len(),
{
    let all = a.push(blank) + b;
    let closed = grouped(a).0.push(grouped(a).1);
    if b.len() == 0 {
        assert(all =~= a.push(blank));
        assert(all.drop_last() =~= a);
        assert(closed + grouped(b).0 =~= closed);
    } else {
        lemma_grouped_behind(a, blank, b.drop_last());
        assert(all.drop_last() =~= a.push(blank) + b.drop_last());
        assert(all.last() == b.last());
        let (before, open) = grouped(b.drop_last());
        assert((closed + before).push(open) =~= closed + before.push(open));
    }
}

/// The blocks that have a cue.
pub open spec fn with_cue() -> spec_fn(Seq<Seq<char>>) -> bool {
    |lines: Seq<Seq<char>>| block_spec(lines) matches Ok(Some(_))
}

/// No cue is lost and none is added: blocks are read exactly when each of them
/// can be, and their cues are those of the blocks that have one, in order. If
/// a block cannot be read, the first such block says why.
pub proof fn law_each_block_gives_its_cue(blocks: Seq<Seq<Seq<char>>>)
    ensures
        (cues_spec(blocks) is Ok) == (forall|i: int|
            0 <= i < blocks.len() ==> block_spec(#[trigger] blocks[i]) is Ok),
        cues_spec(blocks) matches Ok(cues) ==> {
            let speaking = blocks.filter(with_cue());
            &&& cues.len() == speaking.len()
            &&& forall|i: int|
                0 <= i < cues.len() ==> block_spec(speaking[i]) == Ok::<
                    Option<CueModel>,
                    VttFailure,
                >(Some(#[trigger] cues[i]))
        },
        cues_spec(blocks) matches Err(failure) ==> exists|i: int|
            0 <= i < blocks.len() && block_spec(#[trigger] blocks[i]) == Err::<
                Option<CueModel>,
                VttFailure,
            >(failure) && forall|j: int| 0 <= j < i ==> block_spec(#[trigger] blocks[j]) is Ok,
    decreases blocks.len(),
{
    reveal(Seq::filter);
    if blocks.len() > 0 {
        let before = blocks.drop_last();
        let last = blocks.len() - 1;
        law_each_block_gives_its_cue(before);
        assert(blocks[last] == blocks.last());
        assert(forall|i: int| 0 <= i < last ==> before[i] == blocks[i]);
        match cues_spec(before) {
            Err(failure) => {
                let i = choose|i: int|
                    0 <= i < before.len() && block_spec(#[trigger] before[i]) == Err::<
                        Option<CueModel>,
                        VttFailure,
                    >(failure) && forall|j: int| 0 <= j < i ==> block_spec(#[trigger] before[j]) is Ok;
                assert(block_spec(blocks[i]) is Err);
                assert forall|j: int| 0 <= j < i implies block_spec(#[trigger] blocks[j]) is Ok by {
                    assert(before[j] == blocks[j]);
                }
            },
            Ok(cues) => {
                assert forall|i: int| 0 <= i < last implies block_spec(#[trigger] blocks[i]) is Ok by {
                    assert(before[i] == blocks[i]);
                }
                let speaking = blocks.filter(with_cue());
                if let Ok(Some(cue)) = block_spec(blocks.last()) {
                    assert(speaking == before.filter(with_cue()).push(blocks.last()));
                } else if block_spec(blocks.last()) is Ok {
                    assert(speaking == before.filter(with_cue()));
                }
            },
        }
    }
}

/// Files are read part by part: two texts with a blank line between them have
/// the cues of the one and then those of the other, however many there are. If
/// one cannot be read, neither can both together, for the same reason.
pub proof fn law_files_are_read_part_by_part(a: Seq<char>, b: Seq<char>)
    requires
        a.len() > 0 ==> a.last() != '\r',
    ensures
        parse_spec(a + seq!['\n', '\n'] + b) == match (parse_spec(a), parse_spec(b)) {
            (Err(failure), _) => Err::<Seq<CueModel>, VttFailure>(failure),
            (Ok(_), Err(failure)) => Err(failure),
            (Ok(first), Ok(second)) => Ok(first + second),
        },
{
    let gap = seq!['\n', '\n'];
    let na = normalize_spec(a);
    let nb = normalize_spec(b);
    assert(!gap.contains('\r')) by {
        assert(gap[0] == '\n' && gap[1] == '\n');
    }
    lemma_normal_stays(gap);
    assert(a + gap + b =~= a + (gap + b));
    lemma_normalize_behind(gap, b);
    lemma_normalize_behind(a, gap + b);
    let all = na + (gap + nb);
    assert(all =~= na.push('\n') + (seq!['\n'] + nb));
    let nothing = Seq::<char>::empty();
    law_splitting_goes_piece_by_piece(na, seq!['\n'] + nb, '\n');
    law_splitting_goes_piece_by_piece(nothing, nb, '\n');
    assert(nothing.push('\n') + nb =~= seq!['\n'] + nb);
    assert(split_on_spec(nothing, '\n') == seq![nothing]) by {
        assert(!nothing.contains('\n'));
    }
    let la = split_on_spec(na, '\n');
    let lb = split_on_spec(nb, '\n');
    assert(split_on_spec(all, '\n') =~= la.push(nothing) + lb);
    assert(is_blank(nothing));
    law_blank_lines_part_blocks(la, nothing, lb);
    lemma_cues_behind(blocks_spec(la), blocks_spec(lb));
}

proof fn lemma_cues_behind(a: Seq<Seq<Seq<char>>>, b: Seq<Seq<Seq<char>>>)
    ensures
        cues_spec(a + b) == match (cues_spec(a), cues_spec(b)) {
            (Err(failure), _) => Err::<Seq<CueModel>, VttFailure>(failure),
            (Ok(_), Err(failure)) => Err(failure),
            (Ok(first), Ok(second)) => Ok(first + second),
        },
    decreases b.len(),
{
    let all = a + b;
    if b.len() == 0 {
        assert(all =~= a);
        if let Ok(cues) = cues_spec(a) {
            assert(cues + Seq::<CueModel>::empty() =~= cues);
        }
    } else {
        lemma_cues_behind(a, b.drop_last());
        assert(all.drop_last() =~= a + b.drop_last());
        assert(all.last() == b.last());
        if let (Ok(first), Ok(second)) = (cues_spec(a), cues_spec(b.drop_last())) {
            if let Ok(Some(cue)) = block_spec(b.last()) {
                assert((first + second).push(cue) =~= first + second.push(cue));
            }
        }
    }
}

/// No cue is lost: a file is read exactly when each of its blocks can be, and
/// has as many cues as it has blocks with a cue. The cues are those of these
/// blocks, in order, for files of any length.
pub proof fn law_no_cue_is_lost(content: Seq<char>, lines: Seq<Seq<char>>)
    requires
        lines == split_on_spec(normalize_spec(content), '\n'),
    ensures
        (parse_spec(content) is Ok) == (forall|i: int|
            0 <= i < blocks_spec(lines).len() ==> block_spec(#[trigger] blocks_spec(lines)[i]) is Ok),
        parse_spec(content) matches Ok(cues) ==> {
            let speaking = blocks_spec(lines).filter(with_cue());
            &&& cues.len() == speaking.len()
            &&& forall|i: int|
                0 <= i < cues.len() ==> block_spec(speaking[i]) == Ok::<
                    Option<CueModel>,
                    VttFailure,
                >(Some(#[trigger] cues[i]))
        },
{
    law_each_block_gives_its_cue(blocks_spec(lines));
}

/// A text without a blank line is one block: its cue is that of its lines, if
/// they have one.
pub proof fn law_text_without_blank_lines_is_one_block(content: Seq<char>)
    requires
        !content.contains('\r'),
        forall|i: int|
            0 <= i < split_on_spec(content, '\n').len() ==> !is_blank(
                #[trigger] split_on_spec(content, '\n')[i],
            ),
    ensures
        parse_spec(content) == match block_spec(split_on_spec(content, '\n')) {
            Err(failure) => Err::<Seq<CueModel>, VttFailure>(failure),
            Ok(None) => Ok(Seq::empty()),
            Ok(Some(cue)) => Ok(seq![cue]),
        },
{
    let lines = split_on_spec(content, '\n');
    lemma_normal_stays(content);
    law_blank_lines_part_blocks(lines, Seq::empty(), Seq::empty());
    let blocks = seq![lines];
    assert(blocks.drop_last() =~= Seq::empty());
    assert(cues_spec(blocks.drop_last()) == Ok::<Seq<CueModel>, VttFailure>(Seq::empty()));
    assert(blocks.last() == lines);
    if let Ok(Some(cue)) = block_spec(lines) {
        assert(Seq::<CueModel>::empty().push(cue) =~= seq![cue]);
    }
}

/// Whether a line has an arrow.
pub open spec fn has_arrow(line: Seq<char>) -> bool {
    exists|at: int|
        0 <= at && at + 3 <= line.len() && #[trigger] line.subrange(at, at + 3) == seq![
            '-',
            '-',
            '>',
        ]
}

/// A block that is no header has its times in the first line with an arrow.
/// What stands before that line does not matter, and all lines behind it are
/// the text. A block without such a line is an error, and so is a cue that
/// does not end after it starts; a cue without a text is left out.
pub proof fn law_cue_of_a_block(
    before: Seq<Seq<char>>,
    timing: Seq<char>,
    text: Seq<Seq<char>>,
)
    requires
        forall|i: int| 0 <= i < before.len() ==> !has_arrow(#[trigger] before[i]),
        has_arrow(timing),
        !is_header((before.push(timing))[0]),
    ensures
        block_spec(before.push(timing) + text) == match timing_spec(timing) {
            Err(failure) => Err::<Option<CueModel>, VttFailure>(failure),
            Ok((start_ms, end_ms)) => if end_ms <= start_ms {
                Err(VttFailure::EndNotAfterStart)
            } else if is_blank(joined(text)) {
                Ok(None)
            } else {
                Ok(Some(CueModel { start_ms, end_ms, text: joined(text) }))
            },
        },
        before.len() > 0 ==> block_spec(before) == Err::<Option<CueModel>, VttFailure>(
            VttFailure::MissingTimingLine,
        ),
{
    reveal(block_spec);
    let lines = before.push(timing) + text;
    assert forall|i: int| 0 <= i < before.len() implies find_spec(
        #[trigger] before[i],
        arrow(),
    ) is None by {
        lemma_arrow(before[i]);
    }
    lemma_arrow(timing);
    assert(lines[before.len() as int] == timing);
    assert(lines[0] == before.push(timing)[0]);
    lemma_timing_index(lines, before, 0);
    assert(lines.skip((before.len() + 1) as int) =~= text);
    if before.len() > 0 {
        assert(before[0] == before.push(timing)[0]);
        lemma_no_timing_index(before, 0);
    }
}

/// The first line decides whether a block is a header, and a header has no cue.
/// Neither has a block without lines.
pub proof fn law_headers_have_no_cue(lines: Seq<Seq<char>>)
    ensures
        lines.len() == 0 || is_header(lines[0]) ==> block_spec(lines) == Ok::<
            Option<CueModel>,
            VttFailure,
        >(None),
{
    reveal(block_spec);
}

proof fn lemma_arrow(line: Seq<char>)
    ensures
        (find_spec(line, arrow()) is Some) == has_arrow(line),
{
    law_search_misses_nothing(line, arrow());
    assert(arrow() =~= seq!['-', '-', '>']);
    if has_arrow(line) {
        let at = choose|at: int|
            0 <= at && at + 3 <= line.len() && #[trigger] line.subrange(at, at + 3) == seq![
                '-',
                '-',
                '>',
            ];
        law_search_finds_the_first(line, arrow(), at);
    }
    if let Some(at) = find_spec(line, arrow()) {
        assert(line.subrange(at, at + 3) == seq!['-', '-', '>']);
    }
}

proof fn lemma_timing_index(lines: Seq<Seq<char>>, before: Seq<Seq<char>>, from: int)
    requires
        0 <= from <= before.len() < lines.len(),
        forall|i: int| 0 <= i < before.len() ==> lines[i] == #[trigger] before[i],
        forall|i: int| 0 <= i < before.len() ==> find_spec(#[trigger] before[i], arrow()) is None,
        find_spec(lines[before.len() as int], arrow()) is Some,
    ensures
        timing_index(lines, from) == Some(before.len() as int),
    decreases before.len() - from,
{
    if from < before.len() {
        assert(lines[from] == before[from]);
        lemma_timing_index(lines, before, from + 1);
    }
}

proof fn lemma_no_timing_index(lines: Seq<Seq<char>>, from: int)
    requires
        0 <= from <= lines.len(),
        forall|i: int| 0 <= i < lines.len() ==> find_spec(#[trigger] lines[i], arrow()) is None,
    ensures
        timing_index(lines, from) is None,
    decreases lines.len() - from,
{
    if from < lines.len() {
        assert(find_spec(lines[from], arrow()) is None);
        lemma_no_timing_index(lines, from + 1);
    }
}

/// Blocks that begin with `WEBVTT` or `NOTE`, or whose first line is `STYLE` or
/// `REGION`, are headers, also behind byte order marks and with white space
/// around. No other line is a header, so that no cue with a number or a time in
/// front is taken for one.
pub proof fn law_headers(marks: Seq<char>, before: Seq<char>, rest: Seq<char>, behind: Seq<char>)
    requires
        forall|i: int| 0 <= i < marks.len() ==> #[trigger] marks[i] == '\u{feff}',
        all_white(before),
        all_white(behind),
        rest.len() > 0 ==> !is_whitespace(rest.last()),
    ensures
        is_header(marks + (before + ("WEBVTT"@ + rest) + behind)),
        is_header(marks + (before + ("NOTE"@ + rest) + behind)),
        is_header(marks + (before + "STYLE"@ + behind)),
        is_header(marks + (before + "REGION"@ + behind)),
        rest.len() > 0 && rest[0] != '\u{feff}' && !is_whitespace(rest[0]) ==> is_header(rest) == (
        "WEBVTT"@.is_prefix_of(rest) || "NOTE"@.is_prefix_of(rest) || rest == "STYLE"@ || rest
            == "REGION"@),
{
    reveal_strlit("WEBVTT");
    reveal_strlit("NOTE");
    reveal_strlit("STYLE");
    reveal_strlit("REGION");
    lemma_first_line(marks, before, "WEBVTT"@ + rest, behind);
    lemma_first_line(marks, before, "NOTE"@ + rest, behind);
    lemma_first_line(marks, before, "STYLE"@, behind);
    lemma_first_line(marks, before, "REGION"@, behind);
    law_prefixes(rest, "WEBVTT"@, rest);
    law_prefixes(rest, "NOTE"@, rest);
    if rest.len() > 0 && rest[0] != '\u{feff}' && !is_whitespace(rest[0]) {
        let nothing = Seq::<char>::empty();
        assert(nothing + rest =~= rest);
        law_stripping_takes_the_run(nothing, rest, '\u{feff}');
        assert(nothing + rest + nothing =~= rest);
        law_trimming_keeps_the_text(nothing, rest, nothing);
    }
}

proof fn lemma_first_line(
    marks: Seq<char>,
    before: Seq<char>,
    word: Seq<char>,
    behind: Seq<char>,
)
    requires
        forall|i: int| 0 <= i < marks.len() ==> #[trigger] marks[i] == '\u{feff}',
        all_white(before),
        all_white(behind),
        word.len() > 0,
        'A' <= word[0] <= 'Z',
        !is_whitespace(word.last()),
    ensures
        trim_spec(strip_leading_spec(marks + (before + word + behind), '\u{feff}')) == word,
{
    let line = before + word + behind;
    if before.len() > 0 {
        assert(line[0] == before[0]);
    } else {
        assert(line[0] == word[0]);
    }
    law_stripping_takes_the_run(marks, line, '\u{feff}');
    law_trimming_keeps_the_text(before, word, behind);
}

/// The lines of a text are kept one by one: the text that is made of them has
/// these lines again, each without its trailing white space.
pub proof fn law_text_keeps_its_lines(lines: Seq<Seq<char>>)
    requires
        lines.len() > 0,
        forall|i: int| 0 <= i < lines.len() ==> !(#[trigger] lines[i]).contains('\n'),
    ensures
        split_on_spec(joined(lines), '\n').len() == lines.len(),
        forall|i: int|
            0 <= i < lines.len() ==> split_on_spec(joined(lines), '\n')[i] == trim_end_spec(
                #[trigger] lines[i],
            ),
    decreases lines.len(),
{
    let last = lines.last();
    let end = trim_end_spec(last);
    assert(lines[lines.len() - 1] == last);
    lemma_trim_end_adds_nothing(last, '\n');
    if lines.len() == 1 {
        law_splitting_goes_piece_by_piece(end, Seq::empty(), '\n');
        assert(lines[0] == last);
    } else {
        let before = lines.drop_last();
        assert forall|i: int| 0 <= i < before.len() implies !(#[trigger] before[i]).contains(
            '\n',
        ) by {
            assert(before[i] == lines[i]);
        }
        law_text_keeps_its_lines(before);
        law_splitting_goes_piece_by_piece(joined(before), end, '\n');
        law_splitting_goes_piece_by_piece(end, Seq::empty(), '\n');
        assert forall|i: int| 0 <= i < lines.len() implies split_on_spec(joined(lines), '\n')[i]
            == trim_end_spec(#[trigger] lines[i]) by {
            if i < before.len() {
                assert(before[i] == lines[i]);
            }
        }
    }
}

proof fn lemma_trim_end_adds_nothing(s: Seq<char>, c: char)
    requires
        !s.contains(c),
    ensures
        !trim_end_spec(s).contains(c),
    decreases s.len(),
{
    if s.len() > 0 && is_whitespace(s.last()) {
        let less = s.drop_last();
        assert forall|i: int| 0 <= i < less.len() implies less[i] != c by {
            assert(less[i] == s[i]);
        }
        lemma_trim_end_adds_nothing(less, c);
    }
}

/// A text without lines is blank, and so is no text with a character in it that
/// is not white space.
pub proof fn law_blank_texts(text: Seq<char>)
    ensures
        is_blank(Seq::<char>::empty()),
        is_blank(text) == all_white(text),
        joined(Seq::empty()).len() == 0,
{
    let nothing = Seq::<char>::empty();
    if all_white(text) {
        assert(text + nothing + nothing =~= text);
        law_trimming_keeps_the_text(text, nothing, nothing);
    }
    if is_blank(text) {
        assert forall|i: int| 0 <= i < text.len() implies is_whitespace(#[trigger] text[i]) by {
            if !is_whitespace(text[i]) {
                lemma_trim_start_keeps(text, i);
                let tail = trim_start_spec(text);
                let k = choose|k: int| 0 <= k < tail.len() && tail[k] == text[i];
                lemma_trim_end_keeps(tail, k);
            }
        }
    }
}

proof fn lemma_trim_start_keeps(s: Seq<char>, at: int)
    requires
        0 <= at < s.len(),
        !is_whitespace(s[at]),
    ensures
        trim_start_spec(s).contains(s[at]),
    decreases s.len(),
{
    if is_whitespace(s[0]) {
        assert(s.skip(1)[at - 1] == s[at]);
        lemma_trim_start_keeps(s.skip(1), at - 1);
    }
}

proof fn lemma_trim_end_keeps(s: Seq<char>, at: int)
    requires
        0 <= at < s.len(),
        !is_whitespace(s[at]),
    ensures
        trim_end_spec(s).len() > 0,
    decreases s.len(),
{
    if is_whitespace(s.last()) {
        assert(s.drop_last()[at] == s[at]);
        lemma_trim_end_keeps(s.drop_last(), at);
    }
}

/// A timing line gives the two timestamps around its arrow, with any white
/// space around them, whatever settings follow behind white space. Without an
/// end, or without an arrow, it is an error.
pub proof fn law_timing_lines(
    start: Seq<char>,
    end: Seq<char>,
    settings: Seq<char>,
    white: Seq<char>,
)
    requires
        start.len() > 0 ==> !is_whitespace(start[0]) && !is_whitespace(start.last()),
        !start.contains('-'),
        end.len() > 0,
        forall|i: int| 0 <= i < end.len() ==> !is_whitespace(#[trigger] end[i]),
        settings.len() > 0 ==> is_whitespace(settings[0]),
        all_white(white),
        !white.contains('-'),
    ensures
        timing_spec(white + start + white + seq!['-', '-', '>'] + (white + end + settings)) == match (
            timestamp_spec(start),
            timestamp_spec(end),
        ) {
            (Err(failure), _) => Err::<(int, int), VttFailure>(failure),
            (Ok(_), Err(failure)) => Err(failure),
            (Ok(start_ms), Ok(end_ms)) => Ok((start_ms, end_ms)),
        },
        timing_spec(white + start + white + seq!['-', '-', '>'] + white) == Err::<
            (int, int),
            VttFailure,
        >(VttFailure::MissingEnd),
        timing_spec(white + start + white) == Err::<(int, int), VttFailure>(
            VttFailure::InvalidTimingLine,
        ),
{
    let sign = seq!['-', '-', '>'];
    let front = white + start + white;
    let back = white + end + settings;
    assert(arrow() =~= sign);
    assert forall|i: int| 0 <= i < front.len() implies front[i] != '-' by {
        if i < white.len() {
            assert(front[i] == white[i]);
        } else if i < white.len() + start.len() {
            assert(front[i] == start[i - white.len()]);
        } else {
            assert(front[i] == white[i - white.len() - start.len()]);
        }
    }
    law_trimming_keeps_the_text(white, start, white);
    lemma_arrow_behind(front, back);
    lemma_arrow_behind(front, white);
    let line = front + sign + back;
    assert(line.take(front.len() as int) =~= front);
    assert(line.skip((front.len() + 3) as int) =~= back);
    let short = front + sign + white;
    assert(short.take(front.len() as int) =~= front);
    assert(short.skip((front.len() + 3) as int) =~= white);
    let nothing = Seq::<char>::empty();
    assert(!is_whitespace(end[0]));
    assert(!is_whitespace(end[end.len() - 1]));
    assert(white + end + nothing =~= white + end);
    assert(back =~= white + (end + settings));
    lemma_trim_start_of(white, end + settings);
    law_leading_word_ends_at_white_space(end, settings);
    assert(white + nothing =~= white);
    lemma_trim_start_of(white, nothing);
    assert(leading_word_spec(nothing) =~= nothing);
    lemma_arrow(front);
    if has_arrow(front) {
        let at = choose|at: int|
            0 <= at && at + 3 <= front.len() && #[trigger] front.subrange(at, at + 3) == sign;
        assert(front.subrange(at, at + 3)[0] == front[at]);
        assert(sign[0] == '-');
    }
}

proof fn lemma_arrow_behind(front: Seq<char>, back: Seq<char>)
    requires
        forall|i: int| 0 <= i < front.len() ==> front[i] != '-',
    ensures
        find_spec(front + seq!['-', '-', '>'] + back, arrow()) == Some(front.len() as int),
{
    let sign = seq!['-', '-', '>'];
    let line = front + sign + back;
    assert(arrow() =~= sign);
    lemma_found_behind(front, sign, back);
}

proof fn lemma_found_behind(front: Seq<char>, pattern: Seq<char>, back: Seq<char>)
    requires
        pattern.len() > 0,
        forall|i: int| 0 <= i < front.len() ==> front[i] != pattern[0],
    ensures
        find_spec(front + pattern + back, pattern) == Some(front.len() as int),
{
    let line = front + pattern + back;
    let at: int = front.len() as int;
    assert(line.subrange(at, at + pattern.len()) =~= pattern);
    law_search_finds_the_first(line, pattern, at);
    let first = find_spec(line, pattern)->Some_0;
    if first < at {
        let part = line.subrange(first, first + pattern.len());
        assert(part[0] == line[first]);
        assert(line[first] == front[first]);
        assert(part[0] == pattern[0]);
    }
}

/// A fraction counts thousandths: one digit hundreds of them, two digits tens,
/// and of three or more the first three. Without a digit at the front, or with
/// something else among the first three characters, it is an error.
pub proof fn law_fractions_count_thousandths(fraction: Seq<char>)
    ensures
        all_digits(fraction) && fraction.len() == 1 ==> milliseconds_spec(fraction) == Ok::<
            int,
            VttFailure,
        >(value_of(fraction) * 100),
        all_digits(fraction) && fraction.len() == 2 ==> milliseconds_spec(fraction) == Ok::<
            int,
            VttFailure,
        >(value_of(fraction) * 10),
        fraction.len() >= 3 && all_digits(fraction.take(3)) ==> milliseconds_spec(fraction)
            == Ok::<int, VttFailure>(value_of(fraction.take(3))),
        fraction.len() == 0 || fraction.len() < 3 && !all_digits(fraction) || fraction.len() >= 3
            && !all_digits(fraction.take(3)) ==> milliseconds_spec(fraction) == Err::<
            int,
            VttFailure,
        >(VttFailure::InvalidMilliseconds),
{
    reveal_with_fuel(value_of, 4);
    let digits = first_three(fraction);
    assert(digits =~= if fraction.len() < 3 {
        fraction
    } else {
        fraction.take(3)
    });
    if all_digits(digits) {
        assert forall|i: int| 0 <= i < digits.len() implies is_digit(digits[i]) by {}
    } else {
        let i = choose|i: int| 0 <= i < digits.len() && !('0' <= #[trigger] digits[i] <= '9');
        assert(!is_digit(digits[i]));
    }
    if digits.len() == 1 {
        assert(digits.drop_last() =~= Seq::empty());
    } else if digits.len() == 2 {
        assert(digits.drop_last().drop_last() =~= Seq::empty());
        assert(digits.drop_last().last() == digits[0]);
    } else if digits.len() == 3 {
        assert(digits.drop_last().drop_last().drop_last() =~= Seq::empty());
        assert(digits.drop_last().drop_last().last() == digits[0]);
        assert(digits.drop_last().last() == digits[1]);
    }
}

/// The thousandths of a second that a fraction of digits counts.
pub open spec fn thousandths(fraction: Seq<char>) -> int {
    if fraction.len() == 1 {
        value_of(fraction) * 100
    } else if fraction.len() == 2 {
        value_of(fraction) * 10
    } else {
        value_of(fraction.take(3))
    }
}

/// A timestamp counts the milliseconds of its hours, if it has any, its
/// minutes, its seconds and its fraction, with a point or a comma before the
/// fraction, whenever they fit into 64 bits.
pub proof fn law_timestamps_count_milliseconds(
    hours: Seq<char>,
    minutes: Seq<char>,
    seconds: Seq<char>,
    point: char,
    fraction: Seq<char>,
)
    requires
        hours.len() > 0 && all_digits(hours) && value_of(hours) <= i64::MAX,
        minutes.len() > 0 && all_digits(minutes) && value_of(minutes) <= i64::MAX,
        seconds.len() > 0 && all_digits(seconds) && value_of(seconds) <= i64::MAX,
        fraction.len() > 0 && all_digits(fraction),
        point == '.' || point == ',',
    ensures
        ({
            let clock = minutes.push(':') + (seconds.push(point) + fraction);
            let short = (value_of(minutes) * 60 + value_of(seconds)) * 1000 + thousandths(fraction);
            let long = value_of(hours) * 3600000 + short;
            &&& short <= i64::MAX ==> timestamp_spec(clock) == Ok::<int, VttFailure>(short)
            &&& short > i64::MAX ==> timestamp_spec(clock) == Err::<int, VttFailure>(
                VttFailure::TimestampOutOfRange,
            )
            &&& long <= i64::MAX ==> timestamp_spec(hours.push(':') + clock) == Ok::<
                int,
                VttFailure,
            >(long)
            &&& long > i64::MAX ==> timestamp_spec(hours.push(':') + clock) == Err::<
                int,
                VttFailure,
            >(VttFailure::TimestampOutOfRange)
        }),
{
    let clock = minutes.push(':') + (seconds.push(point) + fraction);
    let rest = seconds.push('.') + fraction;
    let plain = minutes.push(':') + rest;
    assert(replace_spec(clock, ',', '.') == plain && replace_spec(hours.push(':') + clock, ',', '.')
        == hours.push(':') + plain) by {
        lemma_comma_is_a_point(hours, minutes, seconds, point, fraction);
    }
    assert(split_on_spec(plain, ':') == seq![minutes, rest] && split_on_spec(
        hours.push(':') + plain,
        ':',
    ) == seq![hours, minutes, rest]) by {
        lemma_colons_part_fields(hours, minutes, seconds, fraction);
    }
    law_digits_denote_their_value(hours, 0, 0);
    law_numbers_are_read(hours);
    lemma_fields_add_up(0, minutes, seconds, fraction);
    lemma_fields_add_up(value_of(hours), minutes, seconds, fraction);
}

proof fn lemma_comma_is_a_point(
    hours: Seq<char>,
    minutes: Seq<char>,
    seconds: Seq<char>,
    point: char,
    fraction: Seq<char>,
)
    requires
        all_digits(hours) && all_digits(minutes) && all_digits(seconds) && all_digits(fraction),
        point == '.' || point == ',',
    ensures
        ({
            let clock = minutes.push(':') + (seconds.push(point) + fraction);
            let plain = minutes.push(':') + (seconds.push('.') + fraction);
            &&& replace_spec(clock, ',', '.') == plain
            &&& replace_spec(hours.push(':') + clock, ',', '.') == hours.push(':') + plain
        }),
{
    let clock = minutes.push(':') + (seconds.push(point) + fraction);
    let plain = minutes.push(':') + (seconds.push('.') + fraction);
    assert forall|i: int| 0 <= i < clock.len() implies #[trigger] replace_spec(clock, ',', '.')[i]
        == plain[i] by {
        let a: int = minutes.len() as int;
        let b: int = a + 1 + seconds.len();
        if i < a {
            assert(clock[i] == minutes[i]);
        } else if i > a && i < b {
            assert(clock[i] == seconds[i - a - 1]);
        } else if i > b {
            assert(clock[i] == fraction[i - b - 1]);
        }
    }
    assert(replace_spec(clock, ',', '.') =~= plain);
    let all = hours.push(':') + clock;
    assert forall|i: int| 0 <= i < all.len() implies #[trigger] replace_spec(all, ',', '.')[i] == (
    hours.push(':') + plain)[i] by {
        if i < hours.len() {
            assert(all[i] == hours[i]);
        } else if i > hours.len() {
            assert(all[i] == clock[i - hours.len() - 1]);
            assert(replace_spec(clock, ',', '.')[i - hours.len() - 1] == plain[i - hours.len() - 1]);
        }
    }
    assert(replace_spec(all, ',', '.') =~= hours.push(':') + plain);
}

proof fn lemma_colons_part_fields(
    hours: Seq<char>,
    minutes: Seq<char>,
    seconds: Seq<char>,
    fraction: Seq<char>,
)
    requires
        all_digits(hours) && all_digits(minutes) && all_digits(seconds) && all_digits(fraction),
    ensures
        ({
            let rest = seconds.push('.') + fraction;
            let plain = minutes.push(':') + rest;
            &&& split_on_spec(plain, ':') == seq![minutes, rest]
            &&& split_on_spec(hours.push(':') + plain, ':') == seq![hours, minutes, rest]
        }),
{
    let rest = seconds.push('.') + fraction;
    let plain = minutes.push(':') + rest;
    assert(!hours.contains(':'));
    assert(!minutes.contains(':'));
    assert forall|i: int| 0 <= i < rest.len() implies rest[i] != ':' by {
        if i < seconds.len() {
            assert(rest[i] == seconds[i]);
        } else if i > seconds.len() {
            assert(rest[i] == fraction[i - seconds.len() - 1]);
        }
    }
    assert(!rest.contains(':'));
    law_splitting_goes_piece_by_piece(minutes, rest, ':');
    law_splitting_goes_piece_by_piece(rest, rest, ':');
    law_splitting_goes_piece_by_piece(hours, plain, ':');
    assert(split_on_spec(plain, ':') =~= seq![minutes, rest]);
    assert(split_on_spec(hours.push(':') + plain, ':') =~= seq![hours, minutes, rest]);
}

proof fn lemma_fields_add_up(
    hours: int,
    minutes: Seq<char>,
    seconds: Seq<char>,
    fraction: Seq<char>,
)
    requires
        hours >= 0,
        minutes.len() > 0 && all_digits(minutes) && value_of(minutes) <= i64::MAX,
        seconds.len() > 0 && all_digits(seconds) && value_of(seconds) <= i64::MAX,
        fraction.len() > 0 && all_digits(fraction),
    ensures
        ({
            let total = hours * 3600000 + (value_of(minutes) * 60 + value_of(seconds)) * 1000
                + thousandths(fraction);
            let result = fields_spec(hours, minutes, seconds.push('.') + fraction);
            &&& total <= i64::MAX ==> result == Ok::<int, VttFailure>(total)
            &&& total > i64::MAX ==> result == Err::<int, VttFailure>(
                VttFailure::TimestampOutOfRange,
            )
        }),
{
    let rest = seconds.push('.') + fraction;
    let point = seq!['.'];
    law_numbers_are_read(minutes);
    law_numbers_are_read(seconds);
    assert(rest =~= seconds + point + fraction);
    assert(point[0] == '.');
    lemma_found_behind(seconds, point, fraction);
    assert(rest.take(seconds.len() as int) =~= seconds);
    assert(rest.skip((seconds.len() + 1) as int) =~= fraction);
    law_fractions_count_thousandths(fraction);
    if fraction.len() >= 3 {
        let three = fraction.take(3);
        assert forall|i: int| 0 <= i < three.len() implies '0' <= #[trigger] three[i] <= '9' by {
            assert(three[i] == fraction[i]);
        }
        law_digits_denote_their_value(three, 0, 0);
    }
    law_digits_denote_their_value(minutes, 0, 0);
    law_digits_denote_their_value(seconds, 0, 0);
    law_digits_denote_their_value(fraction, 0, 0);
    assert(milliseconds_spec(fraction) == Ok::<int, VttFailure>(thousandths(fraction)));
    assert(fields_spec(hours, minutes, rest) == total_ms(
        hours,
        value_of(minutes),
        value_of(seconds),
        thousandths(fraction),
    ));
}

/// Signs count in a timestamp: its fields may be any numbers, and are added up
/// with their signs.
pub proof fn law_signed_fields_add_up(
    hours: Seq<char>,
    minutes: Seq<char>,
    seconds: Seq<char>,
    fraction: Seq<char>,
    values: (int, int, int),
)
    requires
        parse_i64_spec(hours) == Ok::<int, NumberError>(values.0),
        parse_i64_spec(minutes) == Ok::<int, NumberError>(values.1),
        parse_i64_spec(seconds) == Ok::<int, NumberError>(values.2),
        !hours.contains(':') && !hours.contains(','),
        !minutes.contains(':') && !minutes.contains(','),
        !seconds.contains(':') && !seconds.contains(',') && !seconds.contains('.'),
        fraction.len() > 0 && all_digits(fraction),
        -1_000_000_000_000 <= values.0 <= 1_000_000_000_000,
        -1_000_000_000_000 <= values.1 <= 1_000_000_000_000,
        -1_000_000_000_000 <= values.2 <= 1_000_000_000_000,
    ensures
        timestamp_spec(hours.push(':') + (minutes.push(':') + (seconds.push('.') + fraction))) == Ok::<
            int,
            VttFailure,
        >(
            values.0 * 3600000 + values.1 * 60000 + values.2 * 1000 + thousandths(fraction),
        ),
        timestamp_spec(minutes.push(':') + (seconds.push('.') + fraction)) == Ok::<int, VttFailure>(
            values.1 * 60000 + values.2 * 1000 + thousandths(fraction),
        ),
{
    let rest = seconds.push('.') + fraction;
    let two = minutes.push(':') + rest;
    let three = hours.push(':') + two;
    assert forall|i: int| 0 <= i < rest.len() implies rest[i] != ':' && rest[i] != ',' by {
        if i < seconds.len() {
            assert(rest[i] == seconds[i]);
        } else if i > seconds.len() {
            assert(rest[i] == fraction[i - seconds.len() - 1]);
        }
    }
    assert forall|i: int| 0 <= i < two.len() implies two[i] != ',' by {
        if i < minutes.len() {
            assert(two[i] == minutes[i]);
        } else if i > minutes.len() {
            assert(two[i] == rest[i - minutes.len() - 1]);
        }
    }
    assert forall|i: int| 0 <= i < three.len() implies three[i] != ',' by {
        if i < hours.len() {
            assert(three[i] == hours[i]);
        } else if i > hours.len() {
            assert(three[i] == two[i - hours.len() - 1]);
        }
    }
    assert(replace_spec(two, ',', '.') =~= two);
    assert(replace_spec(three, ',', '.') =~= three);
    assert(!rest.contains(':'));
    law_splitting_goes_piece_by_piece(rest, rest, ':');
    law_splitting_goes_piece_by_piece(minutes, rest, ':');
    law_splitting_goes_piece_by_piece(hours, two, ':');
    assert(split_on_spec(two, ':') =~= seq![minutes, rest]);
    assert(split_on_spec(three, ':') =~= seq![hours, minutes, rest]);
    let point = seq!['.'];
    assert(rest =~= seconds + point + fraction);
    assert(point[0] == '.');
    assert forall|i: int| 0 <= i < seconds.len() implies seconds[i] != point[0] by {}
    lemma_found_behind(seconds, point, fraction);
    assert(rest.take(seconds.len() as int) =~= seconds);
    assert(rest.skip((seconds.len() + 1) as int) =~= fraction);
    lemma_thousandths(fraction);
}

proof fn lemma_thousandths(fraction: Seq<char>)
    requires
        fraction.len() > 0 && all_digits(fraction),
    ensures
        milliseconds_spec(fraction) == Ok::<int, VttFailure>(thousandths(fraction)),
        0 <= thousandths(fraction) < 1000,
{
    law_fractions_count_thousandths(fraction);
    if fraction.len() >= 3 {
        let three = fraction.take(3);
        assert forall|i: int| 0 <= i < three.len() implies '0' <= #[trigger] three[i] <= '9' by {
            assert(three[i] == fraction[i]);
        }
    }
    assert(first_three(fraction).len() >= 1);
    assert forall|i: int| 0 <= i < first_three(fraction).len() implies '0' <= #[trigger] first_three(
        fraction,
    )[i] <= '9' by {
        assert(first_three(fraction)[i] == fraction[i]);
    }
}

/// A text with fewer than one colon or more than two is no timestamp, and
/// neither is one whose seconds have no fraction.
pub proof fn law_what_is_no_timestamp(
    hours: Seq<char>,
    minutes: Seq<char>,
    seconds: Seq<char>,
    more: Seq<char>,
)
    requires
        !hours.contains(':') && !hours.contains(','),
        !minutes.contains(':') && !minutes.contains(','),
        !seconds.contains(':') && !seconds.contains(',') && !seconds.contains('.'),
        !more.contains(','),
    ensures
        timestamp_spec(hours) == Err::<int, VttFailure>(VttFailure::InvalidTimestamp(hours)),
        timestamp_spec(hours.push(':') + (minutes.push(':') + (seconds.push(':') + more))) == Err::<
            int,
            VttFailure,
        >(
            VttFailure::InvalidTimestamp(
                hours.push(':') + (minutes.push(':') + (seconds.push(':') + more)),
            ),
        ),
        parse_i64_spec(minutes) is Ok ==> timestamp_spec(minutes.push(':') + seconds) == Err::<
            int,
            VttFailure,
        >(VttFailure::MissingMilliseconds),
        parse_i64_spec(hours) is Ok && parse_i64_spec(minutes) is Ok ==> timestamp_spec(
            hours.push(':') + (minutes.push(':') + seconds),
        ) == Err::<int, VttFailure>(VttFailure::MissingMilliseconds),
        parse_i64_spec(minutes) matches Err(error) ==> timestamp_spec(minutes.push(':') + seconds)
            == Err::<int, VttFailure>(VttFailure::Number(error)),
        parse_i64_spec(hours) matches Err(error) ==> timestamp_spec(
            hours.push(':') + (minutes.push(':') + seconds),
        ) == Err::<int, VttFailure>(VttFailure::Number(error)),
{
    let tail = seconds.push(':') + more;
    let two = minutes.push(':') + seconds;
    let three = hours.push(':') + two;
    let four = hours.push(':') + (minutes.push(':') + tail);
    assert forall|i: int| 0 <= i < four.len() implies four[i] != ',' by {
        let a: int = hours.len() as int;
        let b: int = a + 1 + minutes.len();
        let c: int = b + 1 + seconds.len();
        if i < a {
            assert(four[i] == hours[i]);
        } else if i > a && i < b {
            assert(four[i] == minutes[i - a - 1]);
        } else if i > b && i < c {
            assert(four[i] == seconds[i - b - 1]);
        } else if i > c {
            assert(four[i] == more[i - c - 1]);
        }
    }
    assert forall|i: int| 0 <= i < three.len() implies three[i] != ',' by {
        assert(three[i] == four[i]);
    }
    assert forall|i: int| 0 <= i < two.len() implies two[i] != ',' by {
        assert(two[i] == three[i + hours.len() + 1]);
    }
    assert forall|i: int| 0 <= i < hours.len() implies hours[i] != ',' by {
        assert(hours[i] == three[i]);
    }
    assert(replace_spec(four, ',', '.') =~= four);
    assert(replace_spec(three, ',', '.') =~= three);
    assert(replace_spec(two, ',', '.') =~= two);
    assert(replace_spec(hours, ',', '.') =~= hours);
    law_splitting_goes_piece_by_piece(hours, two, ':');
    law_splitting_goes_piece_by_piece(hours, minutes.push(':') + tail, ':');
    law_splitting_goes_piece_by_piece(minutes, seconds, ':');
    law_splitting_goes_piece_by_piece(minutes, tail, ':');
    law_splitting_goes_piece_by_piece(seconds, more, ':');
    lemma_split_nonempty(more, ':');
    assert(split_on_spec(two, ':') =~= seq![minutes, seconds]);
    assert(split_on_spec(three, ':') =~= seq![hours, minutes, seconds]);
    law_search_misses_nothing(seconds, seq!['.']);
    if let Some(at) = find_spec(seconds, seq!['.']) {
        assert(seconds.subrange(at, at + 1)[0] == seconds[at]);
        assert(seq!['.'][0] == '.');
    }
}

/// The sidecar of a media file stands in the same directory and has the same
/// base name, with the extension `vtt`.
pub proof fn law_sidecar_shares_the_base_name(media_path: Seq<char>)
    requires
        file_name_spec(media_path) is Some,
    ensures
        ({
            let (from, to) = file_name_span(media_path)->Some_0;
            let name = media_path.subrange(from, to);
            let base = name.take(stem_len(name));
            let sidecar = with_extension_spec(media_path, "vtt"@);
            &&& sidecar == media_path.take(from) + (base + ".vtt"@)
            &&& file_name_spec(sidecar) == Some(base + ".vtt"@)
        }),
{
    reveal_strlit("vtt");
    reveal_strlit(".vtt");
    lemma_span_bounds(media_path);
    lemma_file_name_is_plain(media_path);
    let (from, to) = file_name_span(media_path)->Some_0;
    let name = media_path.subrange(from, to);
    lemma_stem_len(name);
    let base = name.take(stem_len(name));
    let renamed = base + ".vtt"@;
    assert(is_plain_name(renamed)) by {
        assert forall|i: int| 0 <= i < renamed.len() implies !crate::paths::PathUnit::is_separator(
            #[trigger] renamed[i],
        ) by {
            if i < base.len() {
                assert(renamed[i] == name[i]);
            } else {
                assert(renamed[i] == ".vtt"@[i - base.len()]);
            }
        }
    }
    assert(with_extension_spec(media_path, "vtt"@) =~= media_path.take(from) + renamed);
    lemma_name_behind_directory(media_path, renamed);
}

/// The path of the subtitle file that belongs to a media file.
pub fn sidecar_path(media_path: &str) -> (sidecar: String)
    ensures
        sidecar@ == with_extension_spec(media_path@, "vtt"@),
{
    let extension = to_chars("vtt");
    proof {
        reveal_strlit("vtt");
    }
    from_chars(with_extension(to_chars(media_path).as_slice(), extension.as_slice()).as_slice())
}

/// Reads the fraction of a timestamp.
pub fn parse_milliseconds(value: &str) -> (millis: Result<i64, VttError>)
    ensures
        same_number(millis, milliseconds_spec(value@)),
{
    read_milliseconds(to_chars(value).as_slice())
}

fn read_milliseconds(value: &[char]) -> (millis: Result<i64, VttError>)
    ensures
        same_number(millis, milliseconds_spec(value@)),
{
    let len: usize = if value.len() < 3 {
        value.len()
    } else {
        3
    };
    let ghost digits = first_three(value@);
    if len == 0 {
        return Err(VttError::InvalidMilliseconds);
    }
    let mut millis: i64 = 0;
    let mut unit: i64 = 100;
    let mut i: usize = 0;
    while i < len
        invariant
            i <= len,
            len == digits.len(),
            1 <= len <= 3,
            len <= value@.len(),
            digits == first_three(value@),
            forall|j: int| 0 <= j < i ==> is_digit(digits[j]),
            0 <= millis < 1000,
            i == 0 ==> unit == 100 && millis == 0,
            i == 1 ==> unit == 10 && millis == digit_value(digits[0]) * 100,
            i == 2 ==> unit == 1 && millis == digit_value(digits[0]) * 100 + digit_value(digits[1])
                * 10,
            i == 3 ==> unit == 0 && millis == digit_value(digits[0]) * 100 + digit_value(digits[1])
                * 10 + digit_value(digits[2]),
        decreases len - i,
    {
        let c = value[i];
        assert(c == digits[i as int]);
        if !('0' <= c && c <= '9') {
            assert(!is_digit(digits[i as int]));
            return Err(VttError::InvalidMilliseconds);
        }
        let digit: i64 = c as u32 as i64 - 48;
        assert(digit == digit_value(c));
        millis = millis + digit * unit;
        unit = unit / 10;
        i += 1;
    }
    Ok(millis)
}

/// The number of milliseconds of a time of day.
fn checked_total(hours: i64, minutes: i64, seconds: i64, millis: i64) -> (total: Result<
    i64,
    VttError,
>)
    ensures
        same_number(total, total_ms(hours as int, minutes as int, seconds as int, millis as int)),
{
    let hour_minutes = match hours.checked_mul(60) {
        Some(value) => value,
        None => return Err(VttError::TimestampOutOfRange),
    };
    let all_minutes = match hour_minutes.checked_add(minutes) {
        Some(value) => value,
        None => return Err(VttError::TimestampOutOfRange),
    };
    let minute_seconds = match all_minutes.checked_mul(60) {
        Some(value) => value,
        None => return Err(VttError::TimestampOutOfRange),
    };
    let all_seconds = match minute_seconds.checked_add(seconds) {
        Some(value) => value,
        None => return Err(VttError::TimestampOutOfRange),
    };
    let second_millis = match all_seconds.checked_mul(1000) {
        Some(value) => value,
        None => return Err(VttError::TimestampOutOfRange),
    };
    match second_millis.checked_add(millis) {
        Some(value) => Ok(value),
        None => Err(VttError::TimestampOutOfRange),
    }
}

fn read_fields(hours: i64, minutes: &[char], seconds: &[char]) -> (total: Result<i64, VttError>)
    ensures
        same_number(total, fields_spec(hours as int, minutes@, seconds@)),
{
    let minutes = match parse_i64(minutes) {
        Ok(value) => value,
        Err(error) => return Err(VttError::Number(error)),
    };
    let point_text: [char; 1] = ['.'];
    assert(point_text@ =~= seq!['.']);
    let point = match find(seconds, &point_text) {
        Some(point) => point,
        None => return Err(VttError::MissingMilliseconds),
    };
    let whole = match parse_i64(slice_subrange(seconds, 0, point)) {
        Ok(value) => value,
        Err(error) => return Err(VttError::Number(error)),
    };
    let len: usize = seconds.len();
    match read_milliseconds(slice_subrange(seconds, point + 1, len)) {
        Ok(millis) => checked_total(hours, minutes, whole, millis),
        Err(error) => Err(error),
    }
}

/// Reads a timestamp as milliseconds.
pub fn parse_timestamp(value: &str) -> (total: Result<i64, VttError>)
    ensures
        same_number(total, timestamp_spec(value@)),
{
    read_timestamp(to_chars(value).as_slice())
}

fn read_timestamp(value: &[char]) -> (total: Result<i64, VttError>)
    ensures
        same_number(total, timestamp_spec(value@)),
{
    let value = replace(value, ',', '.');
    let fields = split_on(value.as_slice(), ':');
    if fields.len() == 2 {
        read_fields(0, fields[0], fields[1])
    } else if fields.len() == 3 {
        match parse_i64(fields[0]) {
            Ok(hours) => read_fields(hours, fields[1], fields[2]),
            Err(error) => Err(VttError::Number(error)),
        }
    } else {
        Err(VttError::InvalidTimestamp(from_chars(value.as_slice())))
    }
}

/// Reads a timing line as the start and the end of a cue in milliseconds.
pub fn parse_timing(line: &str) -> (timing: Result<(i64, i64), VttError>)
    ensures
        match (timing, timing_spec(line@)) {
            (Ok(times), Ok(expected)) => times.0 == expected.0 && times.1 == expected.1,
            (Err(error), Err(failure)) => error@ == failure,
            _ => false,
        },
{
    read_timing(to_chars(line).as_slice())
}

fn find_arrow(line: &[char]) -> (at: Option<usize>)
    ensures
        match at {
            Some(i) => find_spec(line@, arrow()) == Some(i as int) && i + 3 <= line@.len(),
            None => find_spec(line@, arrow()) is None,
        },
{
    let arrow_text: [char; 3] = ['-', '-', '>'];
    assert(arrow_text@ =~= arrow());
    find(line, &arrow_text)
}

fn read_timing(line: &[char]) -> (timing: Result<(i64, i64), VttError>)
    ensures
        match (timing, timing_spec(line@)) {
            (Ok(times), Ok(expected)) => times.0 == expected.0 && times.1 == expected.1,
            (Err(error), Err(failure)) => error@ == failure,
            _ => false,
        },
{
    let at = match find_arrow(line) {
        Some(at) => at,
        None => return Err(VttError::InvalidTimingLine),
    };
    let len: usize = line.len();
    let end = leading_word(trim_start(slice_subrange(line, at + 3, len)));
    if end.len() == 0 {
        return Err(VttError::MissingEnd);
    }
    let start_ms = match read_timestamp(trim(slice_subrange(line, 0, at))) {
        Ok(value) => value,
        Err(error) => return Err(error),
    };
    match read_timestamp(end) {
        Ok(end_ms) => Ok((start_ms, end_ms)),
        Err(error) => Err(error),
    }
}

fn header_line(line: &[char]) -> (header: bool)
    ensures
        header == is_header(line@),
{
    let first = trim(strip_leading(line, '\u{feff}'));
    starts_with(first, to_chars("WEBVTT").as_slice()) || starts_with(
        first,
        to_chars("NOTE").as_slice(),
    ) || chars_equal(first, to_chars("STYLE").as_slice()) || chars_equal(
        first,
        to_chars("REGION").as_slice(),
    )
}

fn find_timing_line(lines: &Vec<&[char]>) -> (index: Option<usize>)
    ensures
        match index {
            Some(i) => i < lines.len() && timing_index(line_models(lines@), 0) == Some(i as int),
            None => timing_index(line_models(lines@), 0) is None,
        },
{
    let mut i: usize = 0;
    while i < lines.len()
        invariant
            i <= lines.len(),
            timing_index(line_models(lines@), i as int) == timing_index(line_models(lines@), 0),
        decreases lines.len() - i,
    {
        assert(line_models(lines@)[i as int] == lines@[i as int]@);
        if find_arrow(lines[i]).is_some() {
            return Some(i);
        }
        i += 1;
    }
    None
}

fn join_lines(lines: &Vec<&[char]>, from: usize) -> (text: String)
    requires
        from <= lines.len(),
    ensures
        text@ == joined(line_models(lines@).skip(from as int)),
{
    let ghost all = line_models(lines@).skip(from as int);
    let mut text: String = String::new();
    let mut i: usize = from;
    assert(all.take(0) =~= Seq::empty());
    while i < lines.len()
        invariant
            from <= i <= lines.len(),
            all == line_models(lines@).skip(from as int),
            text@ == joined(all.take(i - from)),
        decreases lines.len() - i,
    {
        assert(all.take(i - from + 1).drop_last() =~= all.take(i - from));
        assert(all.take(i - from + 1).last() == lines@[i as int]@);
        if i > from {
            text.push('\n');
        }
        let ghost before = text@;
        push_chars(&mut text, trim_end(lines[i]));
        assert(i == from ==> text@ =~= trim_end_spec(lines@[i as int]@));
        i += 1;
    }
    assert(all.take(all.len() as int) =~= all);
    text
}

fn blank_text(text: &[char]) -> (blank: bool)
    ensures
        blank == is_blank(text@),
{
    trim(text).len() == 0
}

fn read_block(lines: &Vec<&[char]>) -> (cue: Result<Option<VttCue>, VttError>)
    ensures
        match (cue, block_spec(line_models(lines@))) {
            (Ok(None), Ok(None)) => true,
            (Ok(Some(cue)), Ok(Some(model))) => cue@ == model,
            (Err(error), Err(failure)) => error@ == failure,
            _ => false,
        },
{
    reveal(block_spec);
    if lines.len() == 0 {
        return Ok(None);
    }
    assert(line_models(lines@)[0] == lines@[0]@);
    if header_line(lines[0]) {
        return Ok(None);
    }
    let index = match find_timing_line(lines) {
        Some(index) => index,
        None => return Err(VttError::MissingTimingLine),
    };
    assert(line_models(lines@)[index as int] == lines@[index as int]@);
    let (start_ms, end_ms) = match read_timing(lines[index]) {
        Ok(times) => times,
        Err(error) => return Err(error),
    };
    if end_ms <= start_ms {
        return Err(VttError::EndNotAfterStart);
    }
    let text = join_lines(lines, index + 1);
    if blank_text(to_chars(text.as_str()).as_slice()) {
        return Ok(None);
    }
    Ok(Some(VttCue { start_ms, end_ms, text }))
}

/// Reads the block made of `lines` and appends its cue, if it has one.
pub fn parse_block(lines: &[&str], cues: &mut Vec<VttCue>) -> (done: Result<(), VttError>)
    ensures
        match (done, block_spec(str_models(lines@))) {
            (Ok(_), Ok(None)) => final(cues)@ == old(cues)@,
            (Ok(_), Ok(Some(model))) => {
                &&& final(cues)@.len() == old(cues)@.len() + 1
                &&& final(cues)@.drop_last() == old(cues)@
                &&& final(cues)@.last()@ == model
            },
            (Err(error), Err(failure)) => error@ == failure && final(cues)@ == old(cues)@,
            _ => false,
        },
{
    let mut texts: Vec<Vec<char>> = Vec::new();
    let mut i: usize = 0;
    while i < lines.len()
        invariant
            i <= lines.len(),
            texts@.len() == i,
            forall|j: int| 0 <= j < i ==> (#[trigger] texts@[j])@ == lines@[j]@,
        decreases lines.len() - i,
    {
        texts.push(to_chars(lines[i]));
        i += 1;
    }
    let mut slices: Vec<&[char]> = Vec::new();
    let mut i: usize = 0;
    while i < texts.len()
        invariant
            i <= texts.len(),
            texts.len() == lines@.len(),
            slices@.len() == i,
            forall|j: int| 0 <= j < texts@.len() ==> (#[trigger] texts@[j])@ == lines@[j]@,
            forall|j: int| 0 <= j < i ==> (#[trigger] slices@[j])@ == lines@[j]@,
        decreases texts.len() - i,
    {
        assert(texts@[i as int]@ == lines@[i as int]@);
        slices.push(texts[i].as_slice());
        i += 1;
    }
    assert(line_models(slices@) =~= str_models(lines@));
    match read_block(&slices) {
        Ok(None) => Ok(()),
        Ok(Some(cue)) => {
            cues.push(cue);
            assert(cues@.drop_last() =~= old(cues)@);
            Ok(())
        },
        Err(error) => Err(error),
    }
}

/// Reads the block made of `lines` and appends its cue, if it has one.
fn close_block(lines: &Vec<&[char]>, cues: &mut Vec<VttCue>) -> (done: Result<(), VttError>)
    ensures
        match (done, block_spec(line_models(lines@))) {
            (Ok(_), Ok(None)) => final(cues)@ == old(cues)@,
            (Ok(_), Ok(Some(model))) => cue_models(final(cues)@) == cue_models(old(cues)@).push(
                model,
            ),
            (Err(error), Err(failure)) => error@ == failure,
            _ => false,
        },
{
    match read_block(lines) {
        Ok(None) => Ok(()),
        Ok(Some(cue)) => {
            cues.push(cue);
            assert(cue_models(cues@) =~= cue_models(old(cues)@).push(cue@));
            Ok(())
        },
        Err(error) => Err(error),
    }
}

fn normalize(content: &[char]) -> (normalized: Vec<char>)
    ensures
        normalized@ == normalize_spec(content@),
{
    let mut normalized: Vec<char> = Vec::new();
    let mut i: usize = 0;
    assert(content@.skip(0) =~= content@);
    while i < content.len()
        invariant
            i <= content.len(),
            normalize_spec(content@) == normalized@ + normalize_spec(content@.skip(i as int)),
        decreases content.len() - i,
    {
        let ghost rest = content@.skip(i as int);
        let ghost before = normalized@;
        assert(rest.skip(1) =~= content@.skip(i + 1));
        if content[i] == '\r' {
            normalized.push('\n');
            if i + 1 < content.len() && content[i + 1] == '\n' {
                assert(rest[1] == '\n');
                assert(rest.skip(2) =~= content@.skip(i + 2));
                assert(before + (seq!['\n'] + normalize_spec(rest.skip(2))) =~= normalized@
                    + normalize_spec(content@.skip(i + 2)));
                i += 2;
            } else {
                assert(before + (seq!['\n'] + normalize_spec(rest.skip(1))) =~= normalized@
                    + normalize_spec(content@.skip(i + 1)));
                i += 1;
            }
        } else {
            normalized.push(content[i]);
            assert(before + (seq![rest[0]] + normalize_spec(rest.skip(1))) =~= normalized@
                + normalize_spec(content@.skip(i + 1)));
            i += 1;
        }
    }
    assert(normalized@ + Seq::<char>::empty() =~= normalized@);
    normalized
}

proof fn lemma_cues_error_stays(blocks: Seq<Seq<Seq<char>>>, upto: nat)
    requires
        upto <= blocks.len(),
        cues_spec(blocks.take(upto as int)) is Err,
    ensures
        cues_spec(blocks) == cues_spec(blocks.take(upto as int)),
    decreases blocks.len(),
{
    if upto < blocks.len() {
        assert(blocks.drop_last().take(upto as int) =~= blocks.take(upto as int));
        lemma_cues_error_stays(blocks.drop_last(), upto);
    } else {
        assert(blocks.take(upto as int) =~= blocks);
    }
}

proof fn lemma_closed_blocks_stay(lines: Seq<Seq<char>>, upto: nat)
    requires
        upto <= lines.len(),
    ensures
        grouped(lines.take(upto as int)).0.len() <= grouped(lines).0.len(),
        grouped(lines).0.take(grouped(lines.take(upto as int)).0.len() as int) == grouped(
            lines.take(upto as int),
        ).0,
    decreases lines.len(),
{
    let before = grouped(lines.take(upto as int)).0;
    if upto < lines.len() {
        assert(lines.drop_last().take(upto as int) =~= lines.take(upto as int));
        lemma_closed_blocks_stay(lines.drop_last(), upto);
        assert(grouped(lines).0.take(before.len() as int) =~= grouped(lines.drop_last()).0.take(
            before.len() as int,
        ));
    } else {
        assert(lines.take(upto as int) =~= lines);
        assert(before.take(before.len() as int) =~= before);
    }
}

/// Reads the cues of a subtitle file.
pub fn parse(content: &str) -> (cues: Result<Vec<VttCue>, VttError>)
    ensures
        match (cues, parse_spec(content@)) {
            (Ok(cues), Ok(models)) => cue_models(cues@) == models,
            (Err(error), Err(failure)) => error@ == failure,
            _ => false,
        },
{
    let chars = to_chars(content);
    let normalized = normalize(chars.as_slice());
    let lines = split_on(normalized.as_slice(), '\n');
    let ghost texts = line_models(lines@);
    assert(texts =~= split_on_spec(normalize_spec(content@), '\n'));
    let mut cues: Vec<VttCue> = Vec::new();
    let mut block: Vec<&[char]> = Vec::new();
    let mut i: usize = 0;
    assert(texts.take(0) =~= Seq::empty());
    assert(line_models(block@) =~= Seq::empty());
    assert(cue_models(cues@) =~= Seq::empty());
    while i < lines.len()
        invariant
            i <= lines.len(),
            texts == line_models(lines@),
            parse_spec(content@) == cues_spec(blocks_spec(texts)),
            line_models(block@) == grouped(texts.take(i as int)).1,
            cues_spec(grouped(texts.take(i as int)).0) == Ok::<Seq<CueModel>, VttFailure>(
                cue_models(cues@),
            ),
        decreases lines.len() - i,
    {
        assert(texts.take(i + 1).drop_last() =~= texts.take(i as int));
        assert(texts.take(i + 1).last() == lines@[i as int]@);
        let ghost (closed, open) = grouped(texts.take(i as int));
        if blank_text(lines[i]) {
            let ghost now = closed.push(open);
            assert(now.drop_last() =~= closed);
            if let Err(error) = close_block(&block, &mut cues) {
                proof {
                    lemma_closed_blocks_stay(texts, (i + 1) as nat);
                    assert(blocks_spec(texts).take(now.len() as int) =~= now);
                    lemma_cues_error_stays(blocks_spec(texts), now.len());
                }
                return Err(error);
            }
            block.clear();
            assert(line_models(block@) =~= Seq::empty());
        } else {
            let ghost block_before = block@;
            block.push(lines[i]);
            assert(line_models(block@) =~= line_models(block_before).push(lines@[i as int]@));
        }
        i += 1;
    }
    assert(texts.take(texts.len() as int) =~= texts);
    let ghost (closed, open) = grouped(texts);
    assert(blocks_spec(texts).drop_last() =~= closed);
    match close_block(&block, &mut cues) {
        Ok(_) => Ok(cues),
        Err(error) => Err(error),
    }
}

/// Where a cue stands in the output.
#[derive(Clone, Copy, Debug, PartialEq, Eq, Structural)]
pub struct CuePlacement {
    /// When it appears, in milliseconds.
    pub start_ms: i64,
    /// How long it stays, in milliseconds.
    pub duration_ms: i64,
}

/// Where a cue stands in an output that shows its source from `source_start`
/// on, beginning at `output_start`: when it appears and how long it stays. A
/// cue that is over by then is left out, one that has begun is cut.
pub open spec fn placement_spec(cue: CueModel, output_start: int, source_start: int) -> Option<
    (int, int),
> {
    let visible = if cue.start_ms < source_start {
        source_start
    } else {
        cue.start_ms
    };
    let start = visible - source_start + output_start;
    if cue.end_ms <= visible || start > i64::MAX || cue.end_ms - visible > i64::MAX {
        None
    } else {
        Some((start, cue.end_ms - visible))
    }
}

/// A cue appears where it starts behind the part that is shown, or at the start
/// of the output if it has begun by then, and ends where it ends in the source.
/// It is left out exactly when it is over by then or its times do not fit.
pub proof fn law_cues_keep_their_place(cue: CueModel, output_start: int, source_start: int)
    requires
        cue.start_ms < cue.end_ms,
    ensures
        match placement_spec(cue, output_start, source_start) {
            Some((start, duration)) => {
                &&& cue.start_ms >= source_start ==> start - output_start == cue.start_ms
                    - source_start
                &&& cue.start_ms <= source_start ==> start == output_start
                &&& start + duration - output_start == cue.end_ms - source_start
                &&& duration > 0
                &&& cue.end_ms > source_start
            },
            None => {
                ||| cue.end_ms <= source_start
                ||| output_start > i64::MAX
                ||| output_start + cue.start_ms - source_start > i64::MAX
                ||| cue.end_ms - cue.start_ms > i64::MAX
            },
        },
{
}

/// Where a cue stands in the output, if it appears there.
pub fn place_cue(cue: &VttCue, output_start_ms: i64, source_start_ms: i64) -> (placement: Option<
    CuePlacement,
>)
    ensures
        match (placement, placement_spec(cue@, output_start_ms as int, source_start_ms as int)) {
            (Some(placement), Some(expected)) => (
                placement.start_ms as int,
                placement.duration_ms as int,
            ) == expected,
            (None, None) => true,
            _ => false,
        },
{
    let visible: i64 = if cue.start_ms < source_start_ms {
        source_start_ms
    } else {
        cue.start_ms
    };
    if cue.end_ms <= visible {
        return None;
    }
    let start: i128 = visible as i128 - source_start_ms as i128 + output_start_ms as i128;
    let duration: i128 = cue.end_ms as i128 - visible as i128;
    if start > i64::MAX as i128 || duration > i64::MAX as i128 {
        return None;
    }
    Some(CuePlacement { start_ms: start as i64, duration_ms: duration as i64 })
}

} // verus!
