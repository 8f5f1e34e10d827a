//! What the output looks like: size, rates and adaptive renditions.
use crate::rational::Rational;
use crate::text::{
    all_digits, digits_spec, find, find_spec, from_chars, is_digit, law_digits_denote_their_value,
    law_search_finds_the_first, law_search_misses_nothing, law_splitting_goes_piece_by_piece,
    lemma_split_nonempty, parse_digits, split_on, split_on_spec, to_chars, value_of,
};
use vstd::prelude::*;
use vstd::slice::slice_subrange;

verus! {

/// The size, rates and time bases of the output.
#[derive(Clone, Copy, Debug)]
pub struct OutputConfig {
    /// The width of the picture.
    pub width: u32,
    /// The height of the picture.
    pub height: u32,
    /// Video frames per second.
    pub fps: u32,
    /// Audio samples per second.
    pub sample_rate: u32,
    /// The duration of a video frame.
    pub video_time_base: Rational,
    /// The duration of an audio sample.
    pub audio_time_base: Rational,
}

/// The standard output: 1024 by 576 pixels, 25 frames and 48000 samples per
/// second.
pub open spec fn default_config() -> OutputConfig {
    OutputConfig {
        width: 1024,
        height: 576,
        fps: 25,
        sample_rate: 48_000,
        video_time_base: Rational(1, 25),
        audio_time_base: Rational(1, 48_000),
    }
}

impl Default for OutputConfig {
    fn default() -> (config: Self)
        ensures
            config == default_config(),
    {
        OutputConfig {
            width: 1024,
            height: 576,
            fps: 25,
            sample_rate: 48_000,
            video_time_base: Rational(1, 25),
            audio_time_base: Rational(1, 48_000),
        }
    }
}

/// A picture size.
#[derive(Clone, Copy, Debug, PartialEq, Eq, Structural)]
pub struct OutputSize {
    /// The width of the picture.
    pub width: u32,
    /// The height of the picture.
    pub height: u32,
}

impl OutputConfig {
    /// The standard output with another picture size, if one is given.
    pub fn with_size(size: Option<OutputSize>) -> (config: Self)
        ensures
            config == (match size {
                Some(size) => OutputConfig {
                    width: size.width,
                    height: size.height,
                    ..default_config()
                },
                None => default_config(),
            }),
    {
        let mut config = OutputConfig::default();
        if let Some(size) = size {
            config.width = size.width;
            config.height = size.height;
        }
        config
    }
}

/// One rendition of an adaptive HLS stream.
#[derive(Clone, Debug)]
pub struct HlsVariant {
    /// The name of the rendition.
    pub name: String,
    /// The picture size.
    pub size: OutputSize,
    /// Bits of video per second.
    pub video_bitrate: u64,
    /// Bits of audio per second.
    pub audio_bitrate: u64,
}

/// What an [`HlsVariant`] says, as mathematical values.
pub struct VariantModel {
    pub name: Seq<char>,
    pub width: int,
    pub height: int,
    pub video_bitrate: int,
    pub audio_bitrate: int,
}

impl View for HlsVariant {
    type V = VariantModel;

    open spec fn view(&self) -> VariantModel {
        VariantModel {
            name: self.name@,
            width: self.size.width as int,
            height: self.size.height as int,
            video_bitrate: self.video_bitrate as int,
            audio_bitrate: self.audio_bitrate as int,
        }
    }
}

/// Why a text does not describe a rendition or a size.
#[derive(Clone, Copy, Debug, PartialEq, Eq, Structural)]
pub enum ConfigError {
    /// The number of fields is wrong.
    Fields,
    /// The name is empty or holds a character that is not allowed.
    Name,
    /// The size is not two numbers.
    Size,
    /// A bitrate is not a number.
    Bitrate,
}

/// The bitrate of audio where none is given.
pub const DEFAULT_AUDIO_BITRATE: u64 = 128_000;

/// Whether a character may stand in the name of a rendition.
pub open spec fn is_name_char(c: char) -> bool {
    ||| 'a' <= c <= 'z'
    ||| 'A' <= c <= 'Z'
    ||| is_digit(c)
    ||| c == '_'
    ||| c == '-'
}

/// Whether a text can be the name of a rendition.
pub open spec fn is_variant_name(name: Seq<char>) -> bool {
    name.len() > 0 && forall|i: int| 0 <= i < name.len() ==> is_name_char(#[trigger] name[i])
}

/// The number, up to `max`, that a run of digits denotes.
pub open spec fn number_spec(text: Seq<char>, max: int) -> Option<int> {
    if text.len() == 0 {
        None
    } else {
        match digits_spec(text, false, i64::MIN as int, i64::MAX as int) {
            Ok(value) => if value <= max {
                Some(value)
            } else {
                None
            },
            Err(_) => None,
        }
    }
}

/// The size that two numbers with the character `separator` between them
/// denote.
pub open spec fn size_spec(text: Seq<char>, separator: char) -> Option<(int, int)> {
    match find_spec(text, seq![separator]) {
        None => None,
        Some(at) => match (
            number_spec(text.take(at), u32::MAX as int),
            number_spec(text.skip(at + 1), u32::MAX as int),
        ) {
            (Some(width), Some(height)) => Some((width, height)),
            _ => None,
        },
    }
}

/// The bits per second that a text denotes: a number, in thousands when a `k`
/// follows.
pub open spec fn bitrate_spec(text: Seq<char>) -> Option<int> {
    if text.len() > 0 && text.last() == 'k' {
        match number_spec(text.drop_last(), u64::MAX as int / 1000) {
            Some(value) => Some(value * 1000),
            None => None,
        }
    } else {
        number_spec(text, u64::MAX as int)
    }
}

/// The rendition that `NAME:WIDTHxHEIGHT:VIDEO_BITRATE[:AUDIO_BITRATE]`
/// describes.
pub open spec fn variant_spec(text: Seq<char>) -> Result<VariantModel, ConfigError> {
    let fields = split_on_spec(text, ':');
    if fields.len() != 3 && fields.len() != 4 {
        Err(ConfigError::Fields)
    } else if !is_variant_name(fields[0]) {
        Err(ConfigError::Name)
    } else {
        match size_spec(fields[1], 'x') {
            None => Err(ConfigError::Size),
            Some((width, height)) => match (
                bitrate_spec(fields[2]),
                if fields.len() == 4 {
                    bitrate_spec(fields[3])
                } else {
                    Some(DEFAULT_AUDIO_BITRATE as int)
                },
            ) {
                (Some(video_bitrate), Some(audio_bitrate)) => Ok(
                    VariantModel { name: fields[0], width, height, video_bitrate, audio_bitrate },
                ),
                _ => Err(ConfigError::Bitrate),
            },
        }
    }
}

/// The name of a rendition that was read holds only ASCII letters, digits, `_`
/// and `-`, and a rendition without an audio bitrate gets 128 kbit/s.
pub proof fn law_variant_names_and_defaults(text: Seq<char>)
    ensures
        variant_spec(text) matches Ok(variant) ==> {
            &&& is_variant_name(variant.name)
            &&& !variant.name.contains(' ')
            &&& split_on_spec(text, ':').len() == 3 ==> variant.audio_bitrate == 128_000
        },
{
}

/// The standard output has a picture of 1024 by 576 pixels, and its time bases
/// are those of its rates: a frame lasts one of `fps` parts of a second, a
/// sample one of `sample_rate`.
pub proof fn law_standard_output()
    ensures
        ({
            let config = default_config();
            &&& config.width == 1024 && config.height == 576
            &&& config.fps == 25 && config.sample_rate == 48_000
            &&& config.video_time_base.0 == 1 && config.video_time_base.1 == config.fps
            &&& config.audio_time_base.0 == 1 && config.audio_time_base.1 == config.sample_rate
        }),
{
}

/// Digits denote their value as long as it fits; nothing else is a number.
pub proof fn law_numbers_are_digits(text: Seq<char>, max: int)
    requires
        max >= 0,
    ensures
        text.len() > 0 && all_digits(text) && value_of(text) <= max && value_of(text) <= i64::MAX
            ==> number_spec(text, max) == Some(value_of(text)),
        text.len() == 0 || !all_digits(text) || value_of(text) > max ==> number_spec(text, max)
            is None,
{
    law_digits_denote_their_value(text, i64::MIN as int, i64::MAX as int);
}

/// A bitrate is the value of its digits, and a thousand times that with a `k`
/// behind them.
pub proof fn law_bitrates_count_bits(digits: Seq<char>)
    requires
        digits.len() > 0,
        all_digits(digits),
    ensures
        value_of(digits) <= i64::MAX ==> bitrate_spec(digits) == Some(value_of(digits)),
        value_of(digits) * 1000 <= u64::MAX ==> bitrate_spec(digits.push('k')) == Some(
            value_of(digits) * 1000,
        ),
        value_of(digits) * 1000 > u64::MAX ==> bitrate_spec(digits.push('k')) is None,
{
    law_numbers_are_digits(digits, u64::MAX as int);
    law_numbers_are_digits(digits, u64::MAX as int / 1000);
    law_digits_denote_their_value(digits, 0, 0);
    assert(digits.push('k').drop_last() =~= digits);
    assert('0' <= digits[digits.len() - 1] <= '9');
}

/// A size is two numbers with the separator between them, whenever both fit
/// into 32 bits. Without the separator there is no size.
pub proof fn law_sizes_are_two_numbers(width: Seq<char>, separator: char, height: Seq<char>)
    requires
        !is_digit(separator),
        width.len() > 0 && all_digits(width),
        height.len() > 0 && all_digits(height),
    ensures
        value_of(width) <= u32::MAX && value_of(height) <= u32::MAX ==> size_spec(
            width.push(separator) + height,
            separator,
        ) == Some((value_of(width), value_of(height))),
        value_of(width) > u32::MAX || value_of(height) > u32::MAX ==> size_spec(
            width.push(separator) + height,
            separator,
        ) is None,
        size_spec(width, separator) is None,
{
    let text = width.push(separator) + height;
    let pattern = seq![separator];
    let at: int = width.len() as int;
    assert(text.subrange(at, at + 1) =~= pattern);
    law_search_finds_the_first(text, pattern, at);
    let first = find_spec(text, pattern)->Some_0;
    if first < at {
        assert(text.subrange(first, first + 1)[0] == text[first]);
        assert(text[first] == width[first]);
        assert(pattern[0] == separator);
    }
    assert(text.take(at) =~= width);
    assert(text.skip(at + 1) =~= height);
    law_numbers_are_digits(width, u32::MAX as int);
    law_numbers_are_digits(height, u32::MAX as int);
    law_search_misses_nothing(width, pattern);
    if let Some(found) = find_spec(width, pattern) {
        assert(width.subrange(found, found + 1)[0] == width[found]);
        assert(pattern[0] == separator);
    }
}

/// A rendition is read field by field: the fields are the name, the size, the
/// bitrate of the video and, if it is there, that of the audio. The first field
/// that cannot be read decides the error, and too few or too many fields are
/// one.
pub proof fn law_renditions_are_read_by_field(
    name: Seq<char>,
    size: Seq<char>,
    video: Seq<char>,
    audio: Seq<char>,
    more: Seq<char>,
)
    requires
        !name.contains(':'),
        !size.contains(':'),
        !video.contains(':'),
        !audio.contains(':'),
    ensures
        ({
            let three = name.push(':') + (size.push(':') + video);
            let four = name.push(':') + (size.push(':') + (video.push(':') + audio));
            let five = name.push(':') + (size.push(':') + (video.push(':') + (audio.push(':')
                + more)));
            let good = name.len() > 0 && forall|i: int|
                0 <= i < name.len() ==> is_name_char(#[trigger] name[i]);
            let error = if !good {
                ConfigError::Name
            } else if size_spec(size, 'x') is None {
                ConfigError::Size
            } else {
                ConfigError::Bitrate
            };
            &&& match (size_spec(size, 'x'), bitrate_spec(video)) {
                (Some((width, height)), Some(video_bitrate)) if good => variant_spec(three) == Ok::<
                    VariantModel,
                    ConfigError,
                >(VariantModel { name, width, height, video_bitrate, audio_bitrate: 128_000 }),
                _ => variant_spec(three) == Err::<VariantModel, ConfigError>(error),
            }
            &&& match (size_spec(size, 'x'), bitrate_spec(video), bitrate_spec(audio)) {
                (Some((width, height)), Some(video_bitrate), Some(audio_bitrate)) if good =>
                    variant_spec(four) == Ok::<VariantModel, ConfigError>(
                    VariantModel { name, width, height, video_bitrate, audio_bitrate },
                ),
                _ => variant_spec(four) == Err::<VariantModel, ConfigError>(error),
            }
            &&& variant_spec(name) == Err::<VariantModel, ConfigError>(ConfigError::Fields)
            &&& variant_spec(name.push(':') + size) == Err::<VariantModel, ConfigError>(
                ConfigError::Fields,
            )
            &&& variant_spec(five) == Err::<VariantModel, ConfigError>(ConfigError::Fields)
        }),
{
    let tail = audio.push(':') + more;
    law_splitting_goes_piece_by_piece(name, size, ':');
    law_splitting_goes_piece_by_piece(size, video, ':');
    law_splitting_goes_piece_by_piece(video, audio, ':');
    law_splitting_goes_piece_by_piece(audio, more, ':');
    law_splitting_goes_piece_by_piece(name, size.push(':') + video, ':');
    law_splitting_goes_piece_by_piece(size, video.push(':') + audio, ':');
    law_splitting_goes_piece_by_piece(name, size.push(':') + (video.push(':') + audio), ':');
    law_splitting_goes_piece_by_piece(video, tail, ':');
    law_splitting_goes_piece_by_piece(size, video.push(':') + tail, ':');
    law_splitting_goes_piece_by_piece(name, size.push(':') + (video.push(':') + tail), ':');
    lemma_split_nonempty(more, ':');
    assert(split_on_spec(name.push(':') + (size.push(':') + video), ':') =~= seq![name, size, video]);
    assert(split_on_spec(name.push(':') + (size.push(':') + (video.push(':') + audio)), ':')
        =~= seq![name, size, video, audio]);
}

/// ASCII letters, digits, `_` and `-` may stand in the name of a rendition, and
/// nothing else may.
pub proof fn law_name_characters(c: char)
    ensures
        is_name_char(c) == {
            let code = c as int;
            97 <= code <= 122 || 65 <= code <= 90 || 48 <= code <= 57 || code == 95 || code == 45
        },
{
}

fn read_number(text: &[char], max: u64) -> (number: Option<u64>)
    ensures
        match number {
            Some(value) => number_spec(text@, max as int) == Some(value as int),
            None => number_spec(text@, max as int) is None,
        },
{
    if text.len() == 0 {
        return None;
    }
    match parse_digits(text, false) {
        Ok(value) => if value as u64 <= max {
            Some(value as u64)
        } else {
            None
        },
        Err(_) => None,
    }
}

fn read_size(text: &[char], separator: char) -> (size: Option<OutputSize>)
    ensures
        match size {
            Some(size) => size_spec(text@, separator) == Some(
                (size.width as int, size.height as int),
            ),
            None => size_spec(text@, separator) is None,
        },
{
    let pattern: [char; 1] = [separator];
    assert(pattern@ =~= seq![separator]);
    let at = match find(text, &pattern) {
        Some(at) => at,
        None => return None,
    };
    let len: usize = text.len();
    let width = match read_number(slice_subrange(text, 0, at), u32::MAX as u64) {
        Some(width) => width,
        None => return None,
    };
    match read_number(slice_subrange(text, at + 1, len), u32::MAX as u64) {
        Some(height) => Some(OutputSize { width: width as u32, height: height as u32 }),
        None => None,
    }
}

fn read_bitrate(text: &[char]) -> (bitrate: Option<u64>)
    ensures
        match bitrate {
            Some(value) => bitrate_spec(text@) == Some(value as int),
            None => bitrate_spec(text@) is None,
        },
{
    let len: usize = text.len();
    if len > 0 && text[len - 1] == 'k' {
        let thousands = slice_subrange(text, 0, len - 1);
        assert(thousands@ =~= text@.drop_last());
        match read_number(thousands, u64::MAX / 1000) {
            Some(value) => Some(value * 1000),
            None => None,
        }
    } else {
        read_number(text, u64::MAX)
    }
}

fn variant_name(name: &[char]) -> (valid: bool)
    ensures
        valid == is_variant_name(name@),
{
    let mut i: usize = 0;
    while i < name.len()
        invariant
            i <= name.len(),
            forall|j: int| 0 <= j < i ==> is_name_char(#[trigger] name@[j]),
        decreases name.len() - i,
    {
        let c = name[i];
        if !(('a' <= c && c <= 'z') || ('A' <= c && c <= 'Z') || ('0' <= c && c <= '9') || c == '_'
            || c == '-') {
            assert(!is_name_char(name@[i as int]));
            return false;
        }
        i += 1;
    }
    name.len() > 0
}

/// Reads a picture size `WIDTH:HEIGHT`.
pub fn parse_output_size(text: &str) -> (size: Result<OutputSize, ConfigError>)
    ensures
        match (size, size_spec(text@, ':')) {
            (Ok(size), Some((width, height))) => size.width == width && size.height == height,
            (Err(error), None) => error == ConfigError::Size,
            _ => false,
        },
{
    match read_size(to_chars(text).as_slice(), ':') {
        Some(size) => Ok(size),
        None => Err(ConfigError::Size),
    }
}

/// Reads a rendition `NAME:WIDTHxHEIGHT:VIDEO_BITRATE[:AUDIO_BITRATE]`.
pub fn parse_hls_variant(text: &str) -> (variant: Result<HlsVariant, ConfigError>)
    ensures
        match (variant, variant_spec(text@)) {
            (Ok(variant), Ok(model)) => variant@ == model,
            (Err(error), Err(expected)) => error == expected,
            _ => false,
        },
{
    let chars = to_chars(text);
    let fields = split_on(chars.as_slice(), ':');
    if fields.len() != 3 && fields.len() != 4 {
        return Err(ConfigError::Fields);
    }
    if !variant_name(fields[0]) {
        return Err(ConfigError::Name);
    }
    let size = match read_size(fields[1], 'x') {
        Some(size) => size,
        None => return Err(ConfigError::Size),
    };
    let video_bitrate = match read_bitrate(fields[2]) {
        Some(bitrate) => bitrate,
        None => return Err(ConfigError::Bitrate),
    };
    let audio_bitrate = if fields.len() == 4 {
        match read_bitrate(fields[3]) {
            Some(bitrate) => bitrate,
            None => return Err(ConfigError::Bitrate),
        }
    } else {
        DEFAULT_AUDIO_BITRATE
    };
    Ok(HlsVariant { name: from_chars(fields[0]), size, video_bitrate, audio_bitrate })
}

} // verus!
