use playout::text::NumberError;
use playout::vtt::{
    parse, parse_block, parse_milliseconds, parse_timestamp, parse_timing, place_cue, sidecar_path,
    CuePlacement, VttCue, VttError,
};

fn triples(content: &str) -> Vec<(i64, i64, String)> {
    parse(content)
        .unwrap()
        .into_iter()
        .map(|cue| (cue.start_ms, cue.end_ms, cue.text))
        .collect()
}

#[test]
fn reads_cues() {
    let content = "WEBVTT\n\nNOTE a comment\nwith two lines\n\n1\n00:00:01.000 --> 00:00:02.500 align:start\nHello  \n  world\n\n00:03.250 --> 00:04,5\nBye\n";
    assert_eq!(
        triples(content),
        vec![
            (1_000, 2_500, "Hello\n  world".to_string()),
            (3_250, 4_500, "Bye".to_string()),
        ]
    );
}

#[test]
fn line_endings_do_not_matter() {
    let unix = "WEBVTT\n\n00:01.000 --> 00:02.000\na\nb\n";
    let expected = vec![(1_000, 2_000, "a\nb".to_string())];
    assert_eq!(triples(unix), expected);
    assert_eq!(triples(&unix.replace('\n', "\r\n")), expected);
    assert_eq!(triples(&unix.replace('\n', "\r")), expected);
}

#[test]
fn headers_and_empty_cues_are_skipped() {
    assert_eq!(triples(""), vec![]);
    assert_eq!(triples("\u{feff}WEBVTT title\n\nSTYLE\n::cue {}\n\nREGION\nid:1\n"), vec![]);
    assert_eq!(triples("00:01.000 --> 00:02.000\n"), vec![]);
    assert_eq!(triples("00:01.000 --> 00:02.000\n \t\n"), vec![]);
}

#[test]
fn a_cue_needs_a_timing_line() {
    assert!(matches!(parse("hello\nworld"), Err(VttError::MissingTimingLine)));
    assert!(matches!(parse("STYLED\n"), Err(VttError::MissingTimingLine)));
}

#[test]
fn a_cue_ends_after_it_starts() {
    assert!(matches!(
        parse("00:02.000 --> 00:02.000\nx"),
        Err(VttError::EndNotAfterStart)
    ));
    assert!(matches!(
        parse("00:02.000 --> 00:01.000\nx"),
        Err(VttError::EndNotAfterStart)
    ));
}

#[test]
fn an_error_stops_the_file() {
    let content = "00:01.000 --> 00:02.000\na\n\nbroken\n\n00:03.000 --> 00:04.000\nb\n";
    assert!(parse(content).is_err());
}

#[test]
fn blocks_append_cues() {
    let mut cues: Vec<VttCue> = Vec::new();
    parse_block(&[], &mut cues).unwrap();
    assert!(cues.is_empty());
    parse_block(&["1", "00:01.000 --> 00:02.000", "a ", "b"], &mut cues).unwrap();
    parse_block(&["00:03.000 --> 00:04.000", "c"], &mut cues).unwrap();
    assert_eq!(cues.len(), 2);
    assert_eq!(cues[0].text, "a\nb");
    assert_eq!((cues[1].start_ms, cues[1].end_ms), (3_000, 4_000));
    assert_eq!(cues[1].text, "c");
    assert!(matches!(
        parse_block(&["no time"], &mut cues),
        Err(VttError::MissingTimingLine)
    ));
    assert_eq!(cues.len(), 2);
}

#[test]
fn timing_lines() {
    assert_eq!(
        parse_timing("  00:01.000  -->  00:02.000 line:0").unwrap(),
        (1_000, 2_000)
    );
    assert_eq!(parse_timing("00:01.000-->00:02.000").unwrap(), (1_000, 2_000));
    assert!(matches!(
        parse_timing("00:01.000 -> 00:02.000"),
        Err(VttError::InvalidTimingLine)
    ));
    assert!(matches!(parse_timing("00:01.000 -->  "), Err(VttError::MissingEnd)));
}

#[test]
fn timestamps() {
    assert_eq!(parse_timestamp("01:02:03.456").unwrap(), 3_723_456);
    assert_eq!(parse_timestamp("02:03,4").unwrap(), 123_400);
    assert_eq!(parse_timestamp("+1:-2.5").unwrap(), 58_500);
    assert!(matches!(
        parse_timestamp("03.456"),
        Err(VttError::InvalidTimestamp(text)) if text == "03.456"
    ));
    assert!(matches!(
        parse_timestamp("1:2:3:4,5"),
        Err(VttError::InvalidTimestamp(text)) if text == "1:2:3:4.5"
    ));
    assert!(matches!(parse_timestamp("00:01"), Err(VttError::MissingMilliseconds)));
    assert!(matches!(
        parse_timestamp(":01.000"),
        Err(VttError::Number(NumberError::Empty))
    ));
    assert!(matches!(
        parse_timestamp("aa:01.000"),
        Err(VttError::Number(NumberError::InvalidDigit))
    ));
    assert!(matches!(
        parse_timestamp("9223372036854775808:01.000"),
        Err(VttError::Number(NumberError::PosOverflow))
    ));
    assert!(matches!(
        parse_timestamp("-9223372036854775809:01.000"),
        Err(VttError::Number(NumberError::NegOverflow))
    ));
    assert!(matches!(
        parse_timestamp("9223372036854775807:01.000"),
        Err(VttError::TimestampOutOfRange)
    ));
}

#[test]
fn a_comma_serves_as_decimal_point() {
    assert_eq!(
        parse_timestamp("00:01,250").unwrap(),
        parse_timestamp("00:01.250").unwrap()
    );
}

#[test]
fn milliseconds() {
    assert_eq!(parse_milliseconds("5").unwrap(), 500);
    assert_eq!(parse_milliseconds("05").unwrap(), 50);
    assert_eq!(parse_milliseconds("123456").unwrap(), 123);
    assert_eq!(parse_milliseconds("123x").unwrap(), 123);
    assert!(matches!(parse_milliseconds(""), Err(VttError::InvalidMilliseconds)));
    assert!(matches!(parse_milliseconds("1a3"), Err(VttError::InvalidMilliseconds)));
    assert!(matches!(parse_milliseconds("-12"), Err(VttError::InvalidMilliseconds)));
}

#[test]
fn sidecars_share_the_base_name() {
    assert_eq!(sidecar_path("input1.mp4"), "input1.vtt");
    assert_eq!(sidecar_path("media/day.1/a.b.mkv"), "media/day.1/a.b.vtt");
    assert_eq!(sidecar_path("media/clip"), "media/clip.vtt");
    assert_eq!(sidecar_path(".hidden"), ".hidden.vtt");
    assert_eq!(sidecar_path(".."), "..");
}

#[test]
fn cues_move_with_their_clip() {
    let cue = VttCue { start_ms: 1_000, end_ms: 3_000, text: "x".to_string() };
    assert_eq!(
        place_cue(&cue, 60_000, 0),
        Some(CuePlacement { start_ms: 61_000, duration_ms: 2_000 })
    );
    assert_eq!(
        place_cue(&cue, 60_000, 2_500),
        Some(CuePlacement { start_ms: 60_000, duration_ms: 500 })
    );
    assert_eq!(place_cue(&cue, 60_000, 3_000), None);
    assert_eq!(place_cue(&cue, i64::MAX, 0), None);
}
