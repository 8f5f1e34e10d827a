use playout::order::sort_paths;
use playout::paths::{extension, file_name, with_extension, with_file_name};
use std::path::{Path, PathBuf};

fn samples() -> Vec<&'static str> {
    vec![
        "", "/", "//", ".", "..", "./", "../", "a", "a/", "a//", "/a", "//a", "a/b", "a//b/",
        "a/./b", "a/.", "a/./", "./a", "a/..", "a/../", "a/../b", ".a", "a/.a", "a.b", "a.b/",
        "a.b.c", "a/b.c.d", ".a.b", "..a", "...", "a..", "a.", ".", "/.", "/..", "/a/.", "a/b/./.",
        "media/day1/clip.mp4", "media/\u{e4}/\u{fc}.mkv", "a b/c d.TS",
    ]
}

fn chars(text: &str) -> Vec<char> {
    text.chars().collect()
}

fn text(chars: &[char]) -> String {
    chars.iter().collect()
}

#[test]
fn file_names_are_those_of_the_system() {
    for sample in samples() {
        let expected = Path::new(sample).file_name().map(|name| name.to_str().unwrap().to_string());
        let found = file_name(&chars(sample)).map(text);
        assert_eq!(found, expected, "{sample:?}");
        let bytes = file_name(sample.as_bytes()).map(|name| name.to_vec());
        assert_eq!(bytes, expected.map(String::into_bytes), "{sample:?}");
    }
}

#[test]
fn extensions_are_those_of_the_system() {
    for sample in samples() {
        let expected = Path::new(sample).extension().map(|name| name.to_str().unwrap().to_string());
        assert_eq!(extension(&chars(sample)).map(text), expected, "{sample:?}");
    }
}

#[test]
fn names_are_replaced_as_the_system_does() {
    for sample in samples() {
        for name in ["x", "x.y", "%v_index.m3u8"] {
            let expected = Path::new(sample).with_file_name(name);
            let found = with_file_name(&chars(sample), &chars(name));
            assert_eq!(text(&found), expected.to_str().unwrap(), "{sample:?} {name:?}");
        }
        let mut expected = PathBuf::from(sample);
        expected.set_extension("vtt");
        let found = with_extension(&chars(sample), &chars("vtt"));
        assert_eq!(text(&found), expected.to_str().unwrap(), "{sample:?}");
    }
}

#[test]
fn paths_sort_as_the_system_does() {
    let mut expected: Vec<PathBuf> = samples().into_iter().map(PathBuf::from).collect();
    expected.sort();
    let paths: Vec<Vec<u8>> = samples().into_iter().map(|path| path.as_bytes().to_vec()).collect();
    let sorted: Vec<String> =
        sort_paths(&paths).into_iter().map(|path| String::from_utf8(path).unwrap()).collect();
    let expected: Vec<String> =
        expected.into_iter().map(|path| path.to_str().unwrap().to_string()).collect();
    assert_eq!(sorted, expected);
}

#[test]
fn equal_paths_keep_their_order() {
    let paths: Vec<Vec<u8>> = vec![b"b//".to_vec(), b"a/./c".to_vec(), b"b".to_vec(), b"a/c".to_vec()];
    let sorted = sort_paths(&paths);
    assert_eq!(
        sorted,
        vec![b"a/./c".to_vec(), b"a/c".to_vec(), b"b//".to_vec(), b"b".to_vec()]
    );
}
