//! How the output is encoded: container, codecs' settings and bit rates.
use crate::config::{HlsVariant, OutputConfig};
use crate::rational::Rational;
use crate::text::{starts_with, starts_with_spec, to_chars};
use vstd::prelude::*;

verus! {

/// Whether an output goes to an RTMP server.
pub open spec fn is_rtmp_url_spec(url: Seq<char>) -> bool {
    starts_with_spec(url, "rtmp://"@) || starts_with_spec(url, "rtmps://"@)
}

/// The container of an output, where the path does not decide it: FLV for RTMP
/// servers.
pub fn container_for(url: &str) -> (container: Option<&'static str>)
    ensures
        match container {
            Some(name) => is_rtmp_url_spec(url@) && name@ == "flv"@,
            None => !is_rtmp_url_spec(url@),
        },
{
    let chars = to_chars(url);
    if starts_with(chars.as_slice(), to_chars("rtmp://").as_slice()) || starts_with(
        chars.as_slice(),
        to_chars("rtmps://").as_slice(),
    ) {
        Some("flv")
    } else {
        None
    }
}

/// The settings of the video encoder.
#[derive(Clone, Copy, Debug, PartialEq, Eq, Structural)]
pub struct VideoSettings {
    /// The width of the picture.
    pub width: u32,
    /// The height of the picture.
    pub height: u32,
    /// The duration of a frame.
    pub time_base: Rational,
    /// Frames per second.
    pub frame_rate: Rational,
    /// Bits per second.
    pub bit_rate: u64,
    /// Whether stream headers go to the container's header.
    pub global_header: bool,
}

/// The settings of the audio encoder.
#[derive(Clone, Copy, Debug, PartialEq, Eq, Structural)]
pub struct AudioSettings {
    /// Samples per second.
    pub sample_rate: i32,
    /// The duration of a sample.
    pub time_base: Rational,
    /// Bits per second.
    pub bit_rate: u64,
    /// Whether stream headers go to the container's header.
    pub global_header: bool,
}

/// The settings of the video encoder for an output.
pub fn video_settings(config: &OutputConfig, global_header: bool) -> (settings: VideoSettings)
    ensures
        settings == (VideoSettings {
            width: config.width,
            height: config.height,
            time_base: config.video_time_base,
            frame_rate: Rational(config.fps as i32, 1),
            bit_rate: 3_000_000,
            global_header,
        }),
{
    VideoSettings {
        width: config.width,
        height: config.height,
        time_base: config.video_time_base,
        frame_rate: Rational(config.fps as i32, 1),
        bit_rate: 3_000_000,
        global_header,
    }
}

/// The settings of the audio encoder for an output.
pub fn audio_settings(config: &OutputConfig, global_header: bool) -> (settings: AudioSettings)
    ensures
        settings == (AudioSettings {
            sample_rate: config.sample_rate as i32,
            time_base: config.audio_time_base,
            bit_rate: 128_000,
            global_header,
        }),
{
    AudioSettings {
        sample_rate: config.sample_rate as i32,
        time_base: config.audio_time_base,
        bit_rate: 128_000,
        global_header,
    }
}

/// The settings of the video encoder for a rendition: size and bit rate are
/// those of the rendition, everything else is that of the output.
pub fn rendition_video_settings(
    config: &OutputConfig,
    variant: &HlsVariant,
    global_header: bool,
) -> (settings: VideoSettings)
    ensures
        settings == (VideoSettings {
            width: variant.size.width,
            height: variant.size.height,
            time_base: config.video_time_base,
            frame_rate: Rational(config.fps as i32, 1),
            bit_rate: variant.video_bitrate,
            global_header,
        }),
{
    let mut settings = video_settings(config, global_header);
    settings.width = variant.size.width;
    settings.height = variant.size.height;
    settings.bit_rate = variant.video_bitrate;
    settings
}

/// The settings of the audio encoder for a rendition: the bit rate is that of
/// the rendition, everything else is that of the output.
pub fn rendition_audio_settings(
    config: &OutputConfig,
    variant: &HlsVariant,
    global_header: bool,
) -> (settings: AudioSettings)
    ensures
        settings == (AudioSettings {
            sample_rate: config.sample_rate as i32,
            time_base: config.audio_time_base,
            bit_rate: variant.audio_bitrate,
            global_header,
        }),
{
    let mut settings = audio_settings(config, global_header);
    settings.bit_rate = variant.audio_bitrate;
    settings
}

/// The URLs of RTMP servers are those that begin with `rtmp://` or `rtmps://`,
/// whatever follows, and no others.
pub proof fn law_rtmp_urls(url: Seq<char>, rest: Seq<char>)
    ensures
        is_rtmp_url_spec("rtmp://"@ + rest),
        is_rtmp_url_spec("rtmps://"@ + rest),
        is_rtmp_url_spec(url) ==> url == "rtmp://"@ + url.skip(7) || url == "rtmps://"@ + url.skip(
            8,
        ),
{
    reveal_strlit("rtmp://");
    reveal_strlit("rtmps://");
    let plain = "rtmp://"@ + rest;
    let secure = "rtmps://"@ + rest;
    assert(plain.subrange(0, 7) =~= "rtmp://"@);
    assert(secure.subrange(0, 8) =~= "rtmps://"@);
    if starts_with_spec(url, "rtmp://"@) {
        assert(url =~= url.subrange(0, 7) + url.skip(7));
    }
    if starts_with_spec(url, "rtmps://"@) {
        assert(url =~= url.subrange(0, 8) + url.skip(8));
    }
}

} // verus!
