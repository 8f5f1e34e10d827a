use playout::inputs::{
    contains_glob_pattern, is_supported_media_file, path_to_string, probe_for, resolve_directory,
    resolve_input, resolve_inputs, DirEntry, Found, GlobMatch, InputError, Probe, ProbedInput,
};

fn entry(path: &str) -> DirEntry {
    DirEntry { path: path.as_bytes().to_vec(), is_file: true }
}

fn directory(path: &str, entries: &[&str]) -> ProbedInput {
    ProbedInput {
        input: path.to_string(),
        found: Found::Directory(entries.iter().map(|path| entry(path)).collect()),
    }
}

fn plain(path: &str) -> ProbedInput {
    ProbedInput { input: path.to_string(), found: Found::Plain }
}

#[test]
fn expands_directories_and_globs_in_stable_order() {
    let root = "/tmp/input-expand";
    let first = format!("{root}/first");
    let second = format!("{root}/second");
    let inputs = vec![
        directory(
            &first,
            &[
                &format!("{first}/b.mp4"),
                &format!("{first}/a.mp3"),
                &format!("{first}/subtitle.vtt"),
            ],
        ),
        ProbedInput {
            input: format!("{second}/*.mov"),
            found: Found::Matches(vec![
                GlobMatch::Path(format!("{second}/c.mov").into_bytes()),
                GlobMatch::Path(format!("{second}/ignore.txt").into_bytes()),
            ]),
        },
    ];
    let resolved = resolve_inputs(&inputs).unwrap();

    assert_eq!(
        resolved,
        vec![
            format!("{first}/a.mp3"),
            format!("{first}/b.mp4"),
            format!("{second}/c.mov"),
        ]
    );
}

#[test]
fn keeps_plain_missing_inputs_for_fallback_handling() {
    let resolved = resolve_inputs(&vec![plain("missing.mp4")]).unwrap();
    assert_eq!(resolved, vec!["missing.mp4"]);
}

#[test]
fn each_file_is_played_once() {
    let inputs = vec![
        plain("a/x.mp4"),
        directory("a", &["a/y.mp4", "a/x.mp4"]),
        plain("a//x.mp4"),
        plain("a/x.mp4"),
        plain("z"),
    ];
    assert_eq!(resolve_inputs(&inputs).unwrap(), vec!["a/x.mp4", "a/y.mp4", "z"]);
}

#[test]
fn inputs_keep_their_order() {
    let inputs = vec![plain("b.mp4"), directory("d", &["d/2.ts", "d/1.ts"]), plain("a.mp4")];
    assert_eq!(
        resolve_inputs(&inputs).unwrap(),
        vec!["b.mp4", "d/1.ts", "d/2.ts", "a.mp4"]
    );
}

#[test]
fn listing_order_does_not_matter() {
    let one = directory("d", &["d/a.ts", "d/b.ts", "d/c/e.ts"]);
    let two = directory("d", &["d/c/e.ts", "d/b.ts", "d/a.ts"]);
    assert_eq!(
        resolve_inputs(&vec![one]).unwrap(),
        resolve_inputs(&vec![two]).unwrap()
    );
}

#[test]
fn only_regular_files_of_a_directory_count() {
    let entries = vec![
        entry("d/b.mp4"),
        DirEntry { path: b"d/a.mp4".to_vec(), is_file: false },
        entry("d/noextension"),
    ];
    assert_eq!(resolve_directory(&entries), vec![b"d/b.mp4".to_vec()]);
}

#[test]
fn patterns_look_into_directories() {
    let probed = ProbedInput {
        input: "*".to_string(),
        found: Found::Matches(vec![
            GlobMatch::Path(b"z.mp4".to_vec()),
            GlobMatch::Directory(vec![entry("m/b.wav"), entry("m/a.wav"), entry("m/readme.md")]),
            GlobMatch::Path(b"a.mp4".to_vec()),
        ]),
    };
    assert_eq!(
        resolve_input(&probed).unwrap(),
        vec![b"a.mp4".to_vec(), b"m/a.wav".to_vec(), b"m/b.wav".to_vec(), b"z.mp4".to_vec()]
    );
}

#[test]
fn nothing_to_play_is_an_error() {
    assert!(matches!(resolve_inputs(&vec![]), Err(InputError::NothingPlayable)));
    assert!(matches!(
        resolve_inputs(&vec![directory("d", &["d/a.txt"])]),
        Err(InputError::NothingPlayable)
    ));
}

#[test]
fn failures_are_reported() {
    let inputs = vec![
        plain("a.mp4"),
        ProbedInput { input: "[".to_string(), found: Found::Failed("bad pattern".to_string()) },
    ];
    assert!(matches!(
        resolve_inputs(&inputs),
        Err(InputError::Probe(text)) if text == "bad pattern"
    ));
    let inputs = vec![ProbedInput {
        input: "d".to_string(),
        found: Found::Directory(vec![DirEntry { path: b"d/\xff.mp4".to_vec(), is_file: true }]),
    }];
    assert!(matches!(
        resolve_inputs(&inputs),
        Err(InputError::NotUtf8(path)) if path == b"d/\xff.mp4".to_vec()
    ));
}

#[test]
fn paths_become_strings() {
    assert_eq!(path_to_string("m/\u{e4}.mp4".as_bytes().to_vec()).unwrap(), "m/\u{e4}.mp4");
    assert!(matches!(path_to_string(vec![0x66, 0xff]), Err(InputError::NotUtf8(_))));
}

#[test]
fn patterns_are_recognised() {
    assert!(contains_glob_pattern("media/**/*.mp4"));
    assert!(contains_glob_pattern("a?.mp4"));
    assert!(contains_glob_pattern("[ab].mp4"));
    assert!(!contains_glob_pattern("a]{b}.mp4"));
    assert!(!contains_glob_pattern(""));
}

#[test]
fn only_patterns_are_matched() {
    assert_eq!(probe_for("media/*.mp4"), Probe::Matches);
    assert_eq!(probe_for("media/day?"), Probe::Matches);
    assert_eq!(probe_for("[a].mp4"), Probe::Matches);
    assert_eq!(probe_for("media/day1"), Probe::Directory);
}

#[test]
fn media_files_are_recognised_by_extension() {
    for name in [
        "aac", "avi", "flac", "m4a", "m4v", "mkv", "mov", "mp3", "mp4", "mpeg", "mpg", "ogg",
        "opus", "ts", "wav", "webm",
    ] {
        assert!(is_supported_media_file(format!("d/clip.{name}").as_bytes()), "{name}");
        assert!(is_supported_media_file(
            format!("d/clip.{}", name.to_uppercase()).as_bytes()
        ));
    }
    assert!(!is_supported_media_file(b"clip.vtt"));
    assert!(!is_supported_media_file(b"mp4"));
    assert!(!is_supported_media_file(b".mp4"));
    assert!(!is_supported_media_file(b"clip.mp4x"));
    assert!(!is_supported_media_file(b"clip.m\xff4"));
}
