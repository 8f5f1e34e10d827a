use playout::config::{
    parse_hls_variant, parse_output_size, ConfigError, HlsVariant, OutputConfig, OutputSize,
    DEFAULT_AUDIO_BITRATE,
};
use playout::encoding::{
    audio_settings, container_for, rendition_audio_settings, rendition_video_settings,
    video_settings, AudioSettings, VideoSettings,
};
use playout::hls::{
    muxer_options, playlist_path, segment_pattern, validate_variants, var_stream_map, HlsError,
};
use playout::rational::Rational;

fn variant(name: &str) -> HlsVariant {
    parse_hls_variant(&format!("{name}:640x360:800k:96k")).unwrap()
}

#[test]
fn standard_output() {
    let config = OutputConfig::default();
    assert_eq!((config.width, config.height), (1024, 576));
    assert_eq!((config.fps, config.sample_rate), (25, 48_000));
    assert_eq!(config.video_time_base, Rational(1, 25));
    assert_eq!(config.audio_time_base, Rational(1, 48_000));
    let config = OutputConfig::with_size(Some(OutputSize { width: 640, height: 360 }));
    assert_eq!((config.width, config.height, config.fps), (640, 360, 25));
    assert_eq!(OutputConfig::with_size(None).width, 1024);
}

#[test]
fn sizes() {
    assert_eq!(
        parse_output_size("1280:720"),
        Ok(OutputSize { width: 1280, height: 720 })
    );
    assert_eq!(parse_output_size("1280x720"), Err(ConfigError::Size));
    assert_eq!(parse_output_size("1280:"), Err(ConfigError::Size));
    assert_eq!(parse_output_size("99999999999:1"), Err(ConfigError::Size));
}

#[test]
fn variants() {
    let full = parse_hls_variant("720p:1280x720:2800k:128k").unwrap();
    assert_eq!(full.name, "720p");
    assert_eq!(full.size, OutputSize { width: 1280, height: 720 });
    assert_eq!((full.video_bitrate, full.audio_bitrate), (2_800_000, 128_000));
    let short = parse_hls_variant("a-b_C:640x360:800k").unwrap();
    assert_eq!(short.audio_bitrate, DEFAULT_AUDIO_BITRATE);
    assert_eq!(short.video_bitrate, 800_000);
}

#[test]
fn invalid_variants() {
    assert!(matches!(parse_hls_variant("720p:1280x720"), Err(ConfigError::Fields)));
    assert!(matches!(
        parse_hls_variant("720p:1280x720:1k:1k:1k"),
        Err(ConfigError::Fields)
    ));
    assert!(matches!(parse_hls_variant(":1280x720:1k"), Err(ConfigError::Name)));
    assert!(matches!(parse_hls_variant("7 0:1280x720:1k"), Err(ConfigError::Name)));
    assert!(matches!(parse_hls_variant("720p:1280-720:1k"), Err(ConfigError::Size)));
    assert!(matches!(parse_hls_variant("720p:1280x720:fast"), Err(ConfigError::Bitrate)));
}

#[test]
fn playlists_of_renditions() {
    assert_eq!(playlist_path("public/live/index.m3u8", &[]).unwrap(), "public/live/index.m3u8");
    assert_eq!(
        playlist_path("public/live/index.m3u8", &[variant("360p")]).unwrap(),
        "public/live/%v_index.m3u8"
    );
    assert_eq!(playlist_path("index.m3u8", &[variant("360p")]).unwrap(), "%v_index.m3u8");
    assert!(matches!(
        playlist_path("public/..", &[variant("360p")]),
        Err(HlsError::MissingFileName)
    ));
    assert_eq!(playlist_path("public/..", &[]).unwrap(), "public/..");
}

#[test]
fn segments_stand_beside_the_playlist() {
    assert_eq!(segment_pattern("public/live/index.m3u8"), "public/live/%v_segment_%03d.ts");
    assert_eq!(segment_pattern("index.m3u8"), "%v_segment_%03d.ts");
}

#[test]
fn variant_names_are_unique() {
    assert!(validate_variants(&[]).is_ok());
    assert!(validate_variants(&[variant("a"), variant("b"), variant("A")]).is_ok());
    assert!(matches!(
        validate_variants(&[variant("a"), variant("b"), variant("b"), variant("a")]),
        Err(HlsError::DuplicateName(name)) if name == "b"
    ));
}

#[test]
fn stream_maps() {
    assert_eq!(var_stream_map(&[], true), "");
    assert_eq!(
        var_stream_map(&[variant("360p"), variant("720p")], false),
        "v:0,a:0,name:360p v:1,a:1,name:720p"
    );
    assert_eq!(
        var_stream_map(&[variant("360p"), variant("720p")], true),
        "v:0,a:0,s:0,sgroup:subs,name:360p v:1,a:1,name:720p"
    );
    let many: Vec<HlsVariant> = (0..11).map(|i| variant(&format!("r{i}"))).collect();
    assert!(var_stream_map(&many, false).ends_with(" v:9,a:9,name:r9 v:10,a:10,name:r10"));
}

#[test]
fn rtmp_uses_flv() {
    assert_eq!(container_for("rtmp://127.0.0.1/live/stream"), Some("flv"));
    assert_eq!(container_for("rtmps://host/live"), Some("flv"));
    assert_eq!(container_for("output.mp4"), None);
    assert_eq!(container_for("RTMP://host"), None);
    assert_eq!(container_for("rtmp:/"), None);
}

#[test]
fn encoder_settings() {
    let config = OutputConfig::default();
    assert_eq!(
        video_settings(&config, true),
        VideoSettings {
            width: 1024,
            height: 576,
            time_base: Rational(1, 25),
            frame_rate: Rational(25, 1),
            bit_rate: 3_000_000,
            global_header: true,
        }
    );
    assert_eq!(
        audio_settings(&config, false),
        AudioSettings {
            sample_rate: 48_000,
            time_base: Rational(1, 48_000),
            bit_rate: 128_000,
            global_header: false,
        }
    );
}

fn options(path: &str, variants: &[HlsVariant], subtitles: bool) -> Vec<(&'static str, String)> {
    muxer_options(path, variants, subtitles)
        .into_iter()
        .map(|option| (option.name, option.value))
        .collect()
}

#[test]
fn playlists_keep_five_segments_of_two_seconds() {
    let common = vec![("hls_time", "2".to_string()), ("hls_list_size", "5".to_string())];
    assert_eq!(options("live/index.m3u8", &[], false), common);
    let adaptive = options("live/index.m3u8", &[variant("360p")], true);
    assert_eq!(adaptive[..2], common[..]);
    assert_eq!(
        adaptive[2..],
        vec![
            ("master_pl_name", "master.m3u8".to_string()),
            ("hls_segment_filename", "live/%v_segment_%03d.ts".to_string()),
            ("var_stream_map", "v:0,a:0,s:0,sgroup:subs,name:360p".to_string()),
        ]
    );
}

#[test]
fn renditions_have_their_own_size_and_bit_rates() {
    let config = OutputConfig::default();
    assert_eq!(
        rendition_video_settings(&config, &variant("360p"), false),
        VideoSettings {
            width: 640,
            height: 360,
            time_base: Rational(1, 25),
            frame_rate: Rational(25, 1),
            bit_rate: 800_000,
            global_header: false,
        }
    );
    assert_eq!(
        rendition_audio_settings(&config, &variant("360p"), true),
        AudioSettings {
            sample_rate: 48_000,
            time_base: Rational(1, 48_000),
            bit_rate: 96_000,
            global_header: true,
        }
    );
}
