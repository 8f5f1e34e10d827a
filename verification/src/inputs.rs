//! The list of inputs: expanding directories and glob patterns into the files
//! to play.
use crate::order::{
    is_sorted, lemma_path_order, lemma_sorted_paths, part_models, parts_less, path_components,
    path_models, sort_paths, sorted_paths, PathPartBuf,
};
use crate::paths::{components, extension, extension_spec};
use crate::text::{chars_equal, to_chars};
use vstd::prelude::*;
use vstd::slice::slice_to_vec;
use vstd::utf8::{decode_utf8, encode_utf8, valid_utf8};

verus! {

/// One entry of a directory.
#[derive(Debug)]
pub struct DirEntry {
    /// The bytes of the path of the entry, with the directory in front.
    pub path: Vec<u8>,
    /// Whether the entry is a regular file.
    pub is_file: bool,
}

/// One path that a glob pattern matched.
#[derive(Debug)]
pub enum GlobMatch {
    /// Something other than a directory.
    Path(Vec<u8>),
    /// A directory, with its entries.
    Directory(Vec<DirEntry>),
}

/// What the file system says of an input.
#[derive(Debug)]
pub enum Found {
    /// The input is no pattern and no directory; it may be missing.
    Plain,
    /// The input is a directory with these entries.
    Directory(Vec<DirEntry>),
    /// The input is a pattern with these matches.
    Matches(Vec<GlobMatch>),
    /// The pattern is invalid or the file system could not be read.
    Failed(String),
}

/// An input as it was given, with what the file system says of it.
#[derive(Debug)]
pub struct ProbedInput {
    /// The input as it was given.
    pub input: String,
    /// What stands there.
    pub found: Found,
}

/// Why no list of files comes out of the inputs.
#[derive(Debug)]
pub enum InputError {
    /// A path to play is not valid UTF-8.
    NotUtf8(Vec<u8>),
    /// There is nothing to play.
    NothingPlayable,
    /// An input could not be looked up.
    Probe(String),
}

/// What an [`InputError`] says, as mathematical values.
pub enum InputFailure {
    NotUtf8(Seq<u8>),
    NothingPlayable,
    Probe(Seq<char>),
}

impl View for InputError {
    type V = InputFailure;

    open spec fn view(&self) -> InputFailure {
        match *self {
            InputError::NotUtf8(path) => InputFailure::NotUtf8(path@),
            InputError::NothingPlayable => InputFailure::NothingPlayable,
            InputError::Probe(reason) => InputFailure::Probe(reason@),
        }
    }
}

/// Whether an input is a glob pattern.
pub open spec fn is_glob_pattern(input: Seq<char>) -> bool {
    input.contains('*') || input.contains('?') || input.contains('[')
}

/// A byte as a character, with the ASCII letters in lower case.
pub open spec fn lower_char(byte: u8) -> char {
    if 0x41 <= byte <= 0x5a {
        (byte + 32) as char
    } else {
        byte as char
    }
}

/// The characters of an extension, with the ASCII letters in lower case.
pub open spec fn lowered(extension: Seq<u8>) -> Seq<char> {
    extension.map_values(|byte: u8| lower_char(byte))
}

/// Whether a lower-case extension is one of a media file.
pub open spec fn is_media_extension(extension: Seq<char>) -> bool {
    ||| extension == "aac"@
    ||| extension == "avi"@
    ||| extension == "flac"@
    ||| extension == "m4a"@
    ||| extension == "m4v"@
    ||| extension == "mkv"@
    ||| extension == "mov"@
    ||| extension == "mp3"@
    ||| extension == "mp4"@
    ||| extension == "mpeg"@
    ||| extension == "mpg"@
    ||| extension == "ogg"@
    ||| extension == "opus"@
    ||| extension == "ts"@
    ||| extension == "wav"@
    ||| extension == "webm"@
}

/// Whether a path has the extension of a media file.
pub open spec fn is_media_path(path: Seq<u8>) -> bool {
    match extension_spec(path) {
        Some(extension) => is_media_extension(lowered(extension)),
        None => false,
    }
}

/// Whether a directory entry is a media file.
pub open spec fn is_media_entry() -> spec_fn(DirEntry) -> bool {
    |entry: DirEntry| entry.is_file && is_media_path(entry.path@)
}

/// The path of a directory entry.
pub open spec fn entry_path() -> spec_fn(DirEntry) -> Seq<u8> {
    |entry: DirEntry| entry.path@
}

/// The media files of a directory, as they are listed.
pub open spec fn media_entries(entries: Seq<DirEntry>) -> Seq<Seq<u8>> {
    entries.filter(is_media_entry()).map_values(entry_path())
}

/// The media files of a directory, in order.
pub open spec fn directory_paths(entries: Seq<DirEntry>) -> Seq<Seq<u8>> {
    sorted_paths(media_entries(entries))
}

/// The media files among the matches of a pattern and in the directories that
/// it matched, as they are found.
pub open spec fn matched_paths(matches: Seq<GlobMatch>) -> Seq<Seq<u8>>
    decreases matches.len(),
{
    if matches.len() == 0 {
        Seq::empty()
    } else {
        let before = matched_paths(matches.drop_last());
        match matches.last() {
            GlobMatch::Directory(entries) => before + directory_paths(entries@),
            GlobMatch::Path(path) => if is_media_path(path@) {
                before.push(path@)
            } else {
                before
            },
        }
    }
}

/// What is to be found out of an input.
#[derive(Clone, Copy, Debug, PartialEq, Eq, Structural)]
pub enum Probe {
    /// What the input matches, as a glob pattern.
    Matches,
    /// Whether the input is a directory, and what it holds.
    Directory,
}

impl ProbedInput {
    /// Whether what was found answers the question that the input asks:
    /// patterns have matches, everything else is a directory or it is not.
    pub open spec fn wf(self) -> bool {
        match self.found {
            Found::Matches(_) => is_glob_pattern(self.input@),
            Found::Plain | Found::Directory(_) => !is_glob_pattern(self.input@),
            Found::Failed(_) => true,
        }
    }
}

/// Whether what was found answers each input of a list.
pub open spec fn all_wf(inputs: Seq<ProbedInput>) -> bool {
    forall|i: int| 0 <= i < inputs.len() ==> (#[trigger] inputs[i]).wf()
}

/// What a pattern has matched.
pub open spec fn matches_of(found: Found) -> Seq<GlobMatch> {
    match found {
        Found::Matches(matches) => matches@,
        _ => Seq::empty(),
    }
}

/// The paths that an input stands for. A text with `*`, `?` or `[` stands for
/// the media files among its matches, in order. Any other text stands for the
/// media files in the directory of that name, in order, and for itself where
/// there is no such directory.
pub open spec fn expansion(probed: ProbedInput) -> Result<Seq<Seq<u8>>, InputFailure> {
    if let Found::Failed(reason) = probed.found {
        Err(InputFailure::Probe(reason@))
    } else if is_glob_pattern(probed.input@) {
        Ok(sorted_paths(matched_paths(matches_of(probed.found))))
    } else if let Found::Directory(entries) = probed.found {
        Ok(directory_paths(entries@))
    } else {
        Ok(seq![encode_utf8(probed.input@)])
    }
}

/// Whether a list has a path with the components of `path`.
pub open spec fn lists(paths: Seq<Seq<u8>>, path: Seq<u8>) -> bool {
    exists|i: int| 0 <= i < paths.len() && components(#[trigger] paths[i]) == components(path)
}

/// `known` and, behind it, those of `paths` that are not listed yet.
pub open spec fn added(known: Seq<Seq<u8>>, paths: Seq<Seq<u8>>) -> Result<
    Seq<Seq<u8>>,
    InputFailure,
>
    decreases paths.len(),
{
    if paths.len() == 0 {
        Ok(known)
    } else {
        match added(known, paths.drop_last()) {
            Err(failure) => Err(failure),
            Ok(known) => if lists(known, paths.last()) {
                Ok(known)
            } else if valid_utf8(paths.last()) {
                Ok(known.push(paths.last()))
            } else {
                Err(InputFailure::NotUtf8(paths.last()))
            },
        }
    }
}

/// The paths of all inputs in order, each one once.
pub open spec fn all_paths(inputs: Seq<ProbedInput>) -> Result<Seq<Seq<u8>>, InputFailure>
    decreases inputs.len(),
{
    if inputs.len() == 0 {
        Ok(Seq::empty())
    } else {
        match all_paths(inputs.drop_last()) {
            Err(failure) => Err(failure),
            Ok(known) => match expansion(inputs.last()) {
                Err(failure) => Err(failure),
                Ok(paths) => added(known, paths),
            },
        }
    }
}

/// The paths to play for a list of inputs.
pub open spec fn resolve_spec(inputs: Seq<ProbedInput>) -> Result<Seq<Seq<u8>>, InputFailure> {
    match all_paths(inputs) {
        Err(failure) => Err(failure),
        Ok(paths) => if paths.len() == 0 {
            Err(InputFailure::NothingPlayable)
        } else {
            Ok(paths)
        },
    }
}

/// The UTF-8 bytes of a list of strings.
pub open spec fn encoded(strings: Seq<String>) -> Seq<Seq<u8>> {
    strings.map_values(|s: String| encode_utf8(s@))
}

/// Whether no two paths of a list have the same components.
pub open spec fn all_distinct(paths: Seq<Seq<u8>>) -> bool {
    forall|i: int, j: int|
        0 <= i < j < paths.len() ==> components(#[trigger] paths[i]) != components(
            #[trigger] paths[j],
        )
}

proof fn lemma_added(known: Seq<Seq<u8>>, paths: Seq<Seq<u8>>)
    requires
        added(known, paths) is Ok,
    ensures
        all_distinct(known) ==> all_distinct(added(known, paths)->Ok_0),
        known.len() <= added(known, paths)->Ok_0.len(),
        added(known, paths)->Ok_0.take(known.len() as int) == known,
        forall|i: int|
            0 <= i < paths.len() ==> lists(added(known, paths)->Ok_0, #[trigger] paths[i]),
        forall|i: int|
            known.len() <= i < added(known, paths)->Ok_0.len() ==> paths.contains(
                #[trigger] added(known, paths)->Ok_0[i],
            ) && valid_utf8(added(known, paths)->Ok_0[i]),
    decreases paths.len(),
{
    let result = added(known, paths)->Ok_0;
    if paths.len() == 0 {
        assert(known.take(known.len() as int) =~= known);
    } else {
        let before = paths.drop_last();
        let middle = added(known, before)->Ok_0;
        lemma_added(known, before);
        assert(result.take(known.len() as int) =~= middle.take(known.len() as int));
        assert forall|i: int| 0 <= i < paths.len() implies lists(result, #[trigger] paths[i]) by {
            if i < before.len() {
                assert(lists(middle, before[i]));
                let k = choose|k: int|
                    0 <= k < middle.len() && components(#[trigger] middle[k]) == components(
                        before[i],
                    );
                assert(result[k] == middle[k]);
            } else if !lists(middle, paths.last()) {
                assert(result[middle.len() as int] == paths.last());
            }
        }
        assert forall|i: int| known.len() <= i < result.len() implies paths.contains(
            #[trigger] result[i],
        ) && valid_utf8(result[i]) by {
            if i < middle.len() {
                assert(result[i] == middle[i]);
                let k = choose|k: int| 0 <= k < before.len() && before[k] == middle[i];
                assert(paths[k] == result[i]);
            } else {
                assert(paths[paths.len() - 1] == result[i]);
            }
        }
        if all_distinct(known) && !lists(middle, paths.last()) {
            assert forall|i: int, j: int| 0 <= i < j < result.len() implies components(
                #[trigger] result[i],
            ) != components(#[trigger] result[j]) by {
                assert(result[i] == middle[i]);
                if j < middle.len() {
                    assert(result[j] == middle[j]);
                }
            }
        }
    }
}

/// The list of files names no file twice.
pub proof fn law_each_file_once(inputs: Seq<ProbedInput>)
    ensures
        resolve_spec(inputs) matches Ok(paths) ==> all_distinct(paths),
    decreases inputs.len(),
{
    if inputs.len() > 0 {
        law_each_file_once(inputs.drop_last());
        if let Ok(known) = all_paths(inputs.drop_last()) {
            if let Ok(paths) = expansion(inputs.last()) {
                if added(known, paths) is Ok {
                    lemma_added(known, paths);
                }
            }
        }
    }
}

/// Every path of every input is on the list, up to spellings of the same
/// path; every path on the list is one of an input, and is valid UTF-8.
#[verifier::spinoff_prover]
#[verifier::rlimit(40)]
pub proof fn law_list_is_complete(inputs: Seq<ProbedInput>)
    requires
        all_paths(inputs) is Ok,
    ensures
        forall|i: int, j: int|
            0 <= i < inputs.len() && 0 <= j < expansion(inputs[i])->Ok_0.len() ==> lists(
                all_paths(inputs)->Ok_0,
                #[trigger] expansion(inputs[i])->Ok_0[j],
            ),
        forall|k: int|
            0 <= k < all_paths(inputs)->Ok_0.len() ==> valid_utf8(
                #[trigger] all_paths(inputs)->Ok_0[k],
            ) && exists|i: int|
                0 <= i < inputs.len() && (#[trigger] expansion(inputs[i]))->Ok_0.contains(
                    all_paths(inputs)->Ok_0[k],
                ),
    decreases inputs.len(),
{
    if inputs.len() > 0 {
        let before = inputs.drop_last();
        let known = all_paths(before)->Ok_0;
        let paths = expansion(inputs.last())->Ok_0;
        let result = all_paths(inputs)->Ok_0;
        law_list_is_complete(before);
        lemma_added(known, paths);
        assert forall|i: int, j: int|
            0 <= i < inputs.len() && 0 <= j < expansion(inputs[i])->Ok_0.len() implies lists(
            result,
            #[trigger] expansion(inputs[i])->Ok_0[j],
        ) by {
            if i < before.len() {
                assert(before[i] == inputs[i]);
                let path = expansion(before[i])->Ok_0[j];
                assert(lists(known, path));
                let k = choose|k: int|
                    0 <= k < known.len() && components(#[trigger] known[k]) == components(path);
                assert(result[k] == result.take(known.len() as int)[k]);
            }
        }
        assert forall|k: int| 0 <= k < result.len() implies valid_utf8(#[trigger] result[k])
            && exists|i: int|
            0 <= i < inputs.len() && (#[trigger] expansion(inputs[i]))->Ok_0.contains(result[k]) by {
            if k < known.len() {
                assert(result[k] == result.take(known.len() as int)[k]);
                assert(valid_utf8(known[k]));
                let i = choose|i: int|
                    0 <= i < before.len() && (#[trigger] expansion(before[i]))->Ok_0.contains(
                        known[k],
                    );
                assert(before[i] == inputs[i]);
            } else {
                assert(inputs[inputs.len() - 1] == inputs.last());
                assert(expansion(inputs[inputs.len() - 1])->Ok_0.contains(result[k]));
            }
        }
    }
}

/// Inputs play in the order in which they are given: what the first inputs
/// resolve to is where the list for all inputs begins.
pub proof fn law_inputs_keep_their_order(inputs: Seq<ProbedInput>, upto: nat)
    requires
        upto <= inputs.len(),
        all_paths(inputs) is Ok,
    ensures
        all_paths(inputs.take(upto as int)) is Ok,
        all_paths(inputs.take(upto as int))->Ok_0.len() <= all_paths(inputs)->Ok_0.len(),
        all_paths(inputs)->Ok_0.take(all_paths(inputs.take(upto as int))->Ok_0.len() as int)
            == all_paths(inputs.take(upto as int))->Ok_0,
    decreases inputs.len(),
{
    let first = all_paths(inputs.take(upto as int))->Ok_0;
    let result = all_paths(inputs)->Ok_0;
    if upto < inputs.len() {
        let before = inputs.drop_last();
        let known = all_paths(before)->Ok_0;
        assert(before.take(upto as int) =~= inputs.take(upto as int));
        law_inputs_keep_their_order(before, upto);
        lemma_added(known, expansion(inputs.last())->Ok_0);
        assert(result.take(first.len() as int) =~= result.take(known.len() as int).take(
            first.len() as int,
        ));
    } else {
        assert(inputs.take(upto as int) =~= inputs);
        assert(result.take(result.len() as int) =~= result);
    }
}

/// An input that is neither a pattern nor a directory is kept as it was
/// given, whether or not there is such a file.
pub proof fn law_plain_input_is_kept(probed: ProbedInput, resolved: Seq<String>)
    requires
        probed.wf(),
        probed.found is Plain,
        resolve_spec(seq![probed]) == Ok::<Seq<Seq<u8>>, InputFailure>(encoded(resolved)),
    ensures
        resolved.len() == 1,
        resolved[0]@ == probed.input@,
{
    broadcast use {vstd::utf8::encode_utf8_valid_utf8, vstd::utf8::encode_utf8_decode_utf8};

    let path = encode_utf8(probed.input@);
    lemma_plain_resolves(probed);
    assert(encoded(resolved)[0] == path);
    assert(decode_utf8(encode_utf8(resolved[0]@)) == decode_utf8(path));
}

/// An input that is neither a pattern nor a directory always resolves.
pub proof fn lemma_plain_resolves(probed: ProbedInput)
    requires
        probed.wf(),
        probed.found is Plain,
    ensures
        resolve_spec(seq![probed]) == Ok::<Seq<Seq<u8>>, InputFailure>(
            seq![encode_utf8(probed.input@)],
        ),
{
    broadcast use vstd::utf8::encode_utf8_valid_utf8;

    let path = encode_utf8(probed.input@);
    let nothing = Seq::<Seq<u8>>::empty();
    assert(seq![probed].drop_last() =~= Seq::empty());
    assert(seq![path].drop_last() =~= nothing);
    assert(added(nothing, nothing) == Ok::<Seq<Seq<u8>>, InputFailure>(nothing));
    assert(!lists(nothing, path));
    assert(nothing.push(path) =~= seq![path]);
    assert(all_paths(Seq::<ProbedInput>::empty()) == Ok::<Seq<Seq<u8>>, InputFailure>(nothing));
}

/// A directory stands for its media files, all of them and nothing else, in
/// order.
pub proof fn law_directory_is_sorted(entries: Seq<DirEntry>)
    ensures
        is_sorted(directory_paths(entries)),
        directory_paths(entries).to_multiset() == media_entries(entries).to_multiset(),
{
    lemma_sorted_paths(media_entries(entries));
}

/// A pattern stands for the media files among its matches and in the
/// directories that it matched, all of them and nothing else, in order.
pub proof fn law_pattern_is_sorted(probed: ProbedInput)
    requires
        probed.wf(),
        probed.found is Matches,
    ensures
        expansion(probed) matches Ok(paths) && {
            &&& is_sorted(paths)
            &&& paths.to_multiset() == matched_paths(matches_of(probed.found)).to_multiset()
        },
{
    lemma_sorted_paths(matched_paths(matches_of(probed.found)));
}

proof fn lemma_sorted_is_unique(a: Seq<Seq<u8>>, b: Seq<Seq<u8>>)
    requires
        is_sorted(a),
        is_sorted(b),
        all_distinct(a),
        a.to_multiset() == b.to_multiset(),
    ensures
        a == b,
    decreases a.len(),
{
    broadcast use {
        vstd::seq_lib::to_multiset_len,
        vstd::seq_lib::to_multiset_contains,
        vstd::seq_lib::to_multiset_remove,
    };

    assert(a.len() == a.to_multiset().len() == b.len());
    if a.len() > 0 {
        let last = a.len() - 1;
        assert(a.contains(a[last]));
        assert(b.contains(b[last]));
        assert(a.to_multiset().count(a[last]) > 0);
        assert(b.to_multiset().count(b[last]) > 0);
        assert(b.contains(a[last]));
        assert(a.contains(b[last]));
        let k = choose|k: int| 0 <= k < b.len() && b[k] == a[last];
        let m = choose|m: int| 0 <= m < a.len() && a[m] == b[last];
        if k < last && m < last {
            assert(!crate::order::path_less(b[last], b[k]));
            assert(!crate::order::path_less(a[last], a[m]));
            lemma_path_order(a[last], b[last], a[last]);
            assert(components(a[m]) == components(a[last]));
        }
        assert(a[last] == b[last]);
        assert(a.drop_last() =~= a.remove(last));
        assert(b.drop_last() =~= b.remove(last));
        assert(is_sorted(a.drop_last()));
        assert(is_sorted(b.drop_last()));
        assert(all_distinct(a.drop_last()));
        lemma_sorted_is_unique(a.drop_last(), b.drop_last());
        assert(a =~= a.drop_last().push(a[last]));
        assert(b =~= b.drop_last().push(b[last]));
    } else {
        assert(a =~= b);
    }
}

proof fn lemma_permutation_keeps_distinct(a: Seq<Seq<u8>>, b: Seq<Seq<u8>>)
    requires
        all_distinct(a),
        a.to_multiset() == b.to_multiset(),
    ensures
        all_distinct(b),
{
    broadcast use {
        vstd::seq_lib::to_multiset_len,
        vstd::seq_lib::to_multiset_contains,
        vstd::multiset::group_multiset_axioms,
    };

    assert(a.no_duplicates()) by {
        assert forall|i: int, j: int| 0 <= i < a.len() && 0 <= j < a.len() && i != j implies a[i]
            != a[j] by {
            if i < j {
                assert(components(a[i]) != components(a[j]));
            } else {
                assert(components(a[j]) != components(a[i]));
            }
        }
    }
    a.lemma_multiset_has_no_duplicates();
    b.lemma_multiset_has_no_duplicates_conv();
    assert forall|i: int, j: int| 0 <= i < j < b.len() implies components(#[trigger] b[i])
        != components(#[trigger] b[j]) by {
        assert(b.contains(b[i]) && b.contains(b[j]));
        assert(b.to_multiset().count(b[i]) > 0 && b.to_multiset().count(b[j]) > 0);
        assert(a.contains(b[i]) && a.contains(b[j]));
        let x = choose|x: int| 0 <= x < a.len() && a[x] == b[i];
        let y = choose|y: int| 0 <= y < a.len() && a[y] == b[j];
        assert(b[i] != b[j]);
        if x < y {
            assert(components(a[x]) != components(a[y]));
        } else {
            assert(components(a[y]) != components(a[x]));
        }
    }
}

/// The order in which the file system lists the files of a directory does not
/// matter.
pub proof fn law_listing_order_does_not_matter(a: Seq<DirEntry>, b: Seq<DirEntry>)
    requires
        media_entries(a).to_multiset() == media_entries(b).to_multiset(),
        all_distinct(media_entries(a)),
    ensures
        directory_paths(a) == directory_paths(b),
{
    lemma_sorted_paths(media_entries(a));
    lemma_sorted_paths(media_entries(b));
    lemma_permutation_keeps_distinct(media_entries(a), directory_paths(a));
    lemma_sorted_is_unique(directory_paths(a), directory_paths(b));
}

/// Whether one of the entries is a media file with this path.
pub open spec fn has_media_file(entries: Seq<DirEntry>, path: Seq<u8>) -> bool {
    exists|i: int|
        0 <= i < entries.len() && (#[trigger] entries[i]).path@ == path && entries[i].is_file
            && is_media_path(path)
}

proof fn lemma_media_entries(entries: Seq<DirEntry>, path: Seq<u8>)
    ensures
        media_entries(entries).contains(path) == has_media_file(entries, path),
    decreases entries.len(),
{
    reveal(Seq::filter);
    let listed = media_entries(entries);
    if entries.len() > 0 {
        let before = entries.drop_last();
        let last = entries.last();
        let earlier = media_entries(before);
        lemma_media_entries(before, path);
        assert(entries[entries.len() - 1] == last);
        if is_media_entry()(last) {
            assert(listed =~= earlier.push(last.path@));
            assert(listed[listed.len() - 1] == last.path@);
        } else {
            assert(listed =~= earlier);
        }
        if earlier.contains(path) {
            let k = choose|k: int| 0 <= k < earlier.len() && earlier[k] == path;
            assert(listed[k] == path);
            let i = choose|i: int|
                0 <= i < before.len() && (#[trigger] before[i]).path@ == path && before[i].is_file
                    && is_media_path(path);
            assert(entries[i] == before[i]);
        }
        if listed.contains(path) && !earlier.contains(path) {
            let k = choose|k: int| 0 <= k < listed.len() && listed[k] == path;
            if k < earlier.len() {
                assert(earlier[k] == path);
            }
        }
        if has_media_file(entries, path) && !has_media_file(before, path) {
            let i = choose|i: int|
                0 <= i < entries.len() && (#[trigger] entries[i]).path@ == path
                    && entries[i].is_file && is_media_path(path);
            if i < before.len() {
                assert(before[i] == entries[i]);
            }
        }
    } else {
        assert(listed =~= Seq::empty());
    }
}

proof fn lemma_sorted_contains(paths: Seq<Seq<u8>>, path: Seq<u8>)
    ensures
        sorted_paths(paths).contains(path) == paths.contains(path),
        sorted_paths(paths).len() == paths.len(),
{
    broadcast use {vstd::seq_lib::to_multiset_contains, vstd::seq_lib::to_multiset_len};

    lemma_sorted_paths(paths);
    assert(sorted_paths(paths).to_multiset().count(path) == paths.to_multiset().count(path));
    assert(sorted_paths(paths).to_multiset().len() == paths.to_multiset().len());
}

/// A directory stands for each regular file in it that has the extension of a
/// media file, and for nothing else.
pub proof fn law_directory_holds_its_media_files(entries: Seq<DirEntry>, path: Seq<u8>)
    ensures
        directory_paths(entries).contains(path) == exists|i: int|
            0 <= i < entries.len() && (#[trigger] entries[i]).path@ == path && entries[i].is_file
                && is_media_path(path),
{
    lemma_media_entries(entries, path);
    lemma_sorted_contains(media_entries(entries), path);
}

/// Whether a match of a pattern is this media file or a directory that holds it.
pub open spec fn leads_to(found: GlobMatch, path: Seq<u8>) -> bool {
    match found {
        GlobMatch::Path(matched) => matched@ == path && is_media_path(path),
        GlobMatch::Directory(entries) => has_media_file(entries@, path),
    }
}

/// A pattern stands for each media file that it matches and for those in the
/// directories that it matches, and for nothing else.
pub proof fn law_pattern_finds_its_media_files(matches: Seq<GlobMatch>, path: Seq<u8>)
    ensures
        sorted_paths(matched_paths(matches)).contains(path) == exists|i: int|
            0 <= i < matches.len() && leads_to(#[trigger] matches[i], path),
{
    lemma_matched(matches, path);
    lemma_sorted_contains(matched_paths(matches), path);
}

proof fn lemma_matched(matches: Seq<GlobMatch>, path: Seq<u8>)
    ensures
        matched_paths(matches).contains(path) == exists|i: int|
            0 <= i < matches.len() && leads_to(#[trigger] matches[i], path),
    decreases matches.len(),
{
    let all = matched_paths(matches);
    if matches.len() > 0 {
        let before = matches.drop_last();
        let earlier = matched_paths(before);
        let last = matches.last();
        lemma_matched(before, path);
        assert(matches[matches.len() - 1] == last);
        let added = match last {
            GlobMatch::Directory(entries) => directory_paths(entries@),
            GlobMatch::Path(matched) => if is_media_path(matched@) {
                seq![matched@]
            } else {
                Seq::empty()
            },
        };
        assert(all =~= earlier + added);
        match last {
            GlobMatch::Directory(entries) => {
                law_directory_holds_its_media_files(entries@, path);
            },
            GlobMatch::Path(matched) => {
                if added.len() > 0 {
                    assert(added[0] == matched@);
                }
            },
        }
        assert(added.contains(path) == leads_to(last, path));
        if earlier.contains(path) {
            let k = choose|k: int| 0 <= k < earlier.len() && earlier[k] == path;
            assert(all[k] == path);
            let i = choose|i: int| 0 <= i < before.len() && leads_to(#[trigger] before[i], path);
            assert(matches[i] == before[i]);
        }
        if added.contains(path) {
            let k = choose|k: int| 0 <= k < added.len() && added[k] == path;
            assert(all[earlier.len() + k] == path);
        }
        if all.contains(path) && !earlier.contains(path) {
            let k = choose|k: int| 0 <= k < all.len() && all[k] == path;
            if k < earlier.len() {
                assert(earlier[k] == path);
            } else {
                assert(added[k - earlier.len()] == path);
            }
        }
        if exists|i: int| 0 <= i < matches.len() && leads_to(#[trigger] matches[i], path) {
            let i = choose|i: int| 0 <= i < matches.len() && leads_to(#[trigger] matches[i], path);
            if i < before.len() {
                assert(before[i] == matches[i]);
            }
        }
    }
}

/// An input stands for what was found: a pattern for its matches, a directory
/// for its media files, everything else for itself. It fails exactly when it
/// could not be looked up.
pub proof fn law_inputs_stand_for_what_was_found(probed: ProbedInput, path: Seq<u8>)
    requires
        probed.wf(),
    ensures
        match (probed.found, expansion(probed)) {
            (Found::Failed(reason), Err(failure)) => failure == InputFailure::Probe(reason@),
            (Found::Matches(matches), Ok(paths)) => paths.contains(path) == exists|i: int|
                0 <= i < matches@.len() && leads_to(#[trigger] matches@[i], path),
            (Found::Directory(entries), Ok(paths)) => paths.contains(path) == has_media_file(
                entries@,
                path,
            ),
            (Found::Plain, Ok(paths)) => paths == seq![encode_utf8(probed.input@)],
            _ => false,
        },
{
    match probed.found {
        Found::Matches(matches) => {
            law_pattern_finds_its_media_files(matches@, path);
        },
        Found::Directory(entries) => {
            law_directory_holds_its_media_files(entries@, path);
        },
        _ => {},
    }
}

/// Whether two bytes are the same letter, or the same byte.
pub open spec fn same_letter(byte: u8, letter: char) -> bool {
    ||| byte as int == letter as int && !(65 <= byte <= 90)
    ||| 65 <= byte <= 90 && byte as int + 32 == letter as int
}

/// The extension alone decides whether a path is a media file, in upper or lower
/// case.
pub proof fn law_extension_decides(path: Seq<u8>, extension: Seq<u8>, letters: Seq<char>)
    requires
        extension_spec(path) == Some(extension),
        extension.len() == letters.len(),
        forall|i: int| 0 <= i < letters.len() ==> same_letter(extension[i], #[trigger] letters[i]),
    ensures
        is_media_path(path) == (letters == "aac"@ || letters == "avi"@ || letters == "flac"@
            || letters == "m4a"@ || letters == "m4v"@ || letters == "mkv"@ || letters == "mov"@
            || letters == "mp3"@ || letters == "mp4"@ || letters == "mpeg"@ || letters == "mpg"@
            || letters == "ogg"@ || letters == "opus"@ || letters == "ts"@ || letters == "wav"@
            || letters == "webm"@),
{
    assert forall|i: int| 0 <= i < letters.len() implies #[trigger] lowered(extension)[i]
        == letters[i] by {
        assert(same_letter(extension[i], letters[i]));
    }
    assert(lowered(extension) =~= letters);
}

/// New files follow the known ones, all of them and in their order.
pub proof fn law_new_files_are_appended(known: Seq<Seq<u8>>, paths: Seq<Seq<u8>>)
    requires
        all_distinct(known + paths),
        forall|i: int| 0 <= i < paths.len() ==> valid_utf8(#[trigger] paths[i]),
    ensures
        added(known, paths) == Ok::<Seq<Seq<u8>>, InputFailure>(known + paths),
    decreases paths.len(),
{
    if paths.len() == 0 {
        assert(known + paths =~= known);
    } else {
        let before = paths.drop_last();
        let all = known + paths;
        let middle = known + before;
        assert forall|i: int, j: int| 0 <= i < j < middle.len() implies components(
            #[trigger] middle[i],
        ) != components(#[trigger] middle[j]) by {
            assert(middle[i] == all[i] && middle[j] == all[j]);
        }
        assert forall|i: int| 0 <= i < before.len() implies valid_utf8(#[trigger] before[i]) by {
            assert(before[i] == paths[i]);
        }
        law_new_files_are_appended(known, before);
        assert(all[all.len() - 1] == paths.last());
        if lists(middle, paths.last()) {
            let k = choose|k: int|
                0 <= k < middle.len() && components(#[trigger] middle[k]) == components(
                    paths.last(),
                );
            assert(all[k] == middle[k]);
            assert(components(all[k]) != components(all[all.len() - 1]));
        }
        assert(valid_utf8(paths[paths.len() - 1]));
        assert(middle.push(paths.last()) =~= all);
    }
}

/// A further input appends the files that it stands for to the list.
pub proof fn law_inputs_are_appended(
    inputs: Seq<ProbedInput>,
    probed: ProbedInput,
    known: Seq<Seq<u8>>,
    paths: Seq<Seq<u8>>,
)
    requires
        all_paths(inputs) == Ok::<Seq<Seq<u8>>, InputFailure>(known),
        expansion(probed) == Ok::<Seq<Seq<u8>>, InputFailure>(paths),
        all_distinct(known + paths),
        forall|i: int| 0 <= i < paths.len() ==> valid_utf8(#[trigger] paths[i]),
    ensures
        all_paths(inputs.push(probed)) == Ok::<Seq<Seq<u8>>, InputFailure>(known + paths),
{
    law_new_files_are_appended(known, paths);
    assert(inputs.push(probed).drop_last() =~= inputs);
}

proof fn lemma_added_succeeds(known: Seq<Seq<u8>>, paths: Seq<Seq<u8>>)
    requires
        forall|i: int| 0 <= i < paths.len() ==> valid_utf8(#[trigger] paths[i]),
    ensures
        added(known, paths) is Ok,
    decreases paths.len(),
{
    if paths.len() > 0 {
        let before = paths.drop_last();
        assert forall|i: int| 0 <= i < before.len() implies valid_utf8(#[trigger] before[i]) by {
            assert(before[i] == paths[i]);
        }
        lemma_added_succeeds(known, before);
        assert(valid_utf8(paths[paths.len() - 1]));
    }
}

proof fn lemma_all_paths_succeed(inputs: Seq<ProbedInput>)
    requires
        forall|i: int| 0 <= i < inputs.len() ==> !((#[trigger] inputs[i]).found is Failed),
        forall|i: int, j: int|
            0 <= i < inputs.len() && 0 <= j < expansion(inputs[i])->Ok_0.len() ==> valid_utf8(
                #[trigger] expansion(inputs[i])->Ok_0[j],
            ),
    ensures
        all_paths(inputs) is Ok,
    decreases inputs.len(),
{
    if inputs.len() > 0 {
        let before = inputs.drop_last();
        let last = inputs.len() - 1;
        assert forall|i: int| 0 <= i < before.len() implies !((#[trigger] before[i]).found is Failed) by {
            assert(before[i] == inputs[i]);
        }
        assert forall|i: int, j: int|
            0 <= i < before.len() && 0 <= j < expansion(before[i])->Ok_0.len() implies valid_utf8(
            #[trigger] expansion(before[i])->Ok_0[j],
        ) by {
            assert(before[i] == inputs[i]);
            assert(valid_utf8(expansion(inputs[i])->Ok_0[j]));
        }
        lemma_all_paths_succeed(before);
        assert(!(inputs[last].found is Failed));
        let paths = expansion(inputs[last])->Ok_0;
        assert forall|j: int| 0 <= j < paths.len() implies valid_utf8(#[trigger] paths[j]) by {
            assert(valid_utf8(expansion(inputs[last])->Ok_0[j]));
        }
        lemma_added_succeeds(all_paths(before)->Ok_0, paths);
    }
}

/// Inputs that could be looked up and lead only to paths of valid UTF-8 resolve
/// whenever one of them leads to a file. If none does, there is nothing to play.
pub proof fn law_inputs_resolve(inputs: Seq<ProbedInput>)
    requires
        forall|i: int| 0 <= i < inputs.len() ==> !((#[trigger] inputs[i]).found is Failed),
        forall|i: int, j: int|
            0 <= i < inputs.len() && 0 <= j < expansion(inputs[i])->Ok_0.len() ==> valid_utf8(
                #[trigger] expansion(inputs[i])->Ok_0[j],
            ),
    ensures
        (resolve_spec(inputs) is Ok) == exists|i: int|
            0 <= i < inputs.len() && (#[trigger] expansion(inputs[i]))->Ok_0.len() > 0,
        resolve_spec(inputs) matches Err(failure) ==> failure == InputFailure::NothingPlayable,
{
    lemma_all_paths_succeed(inputs);
    law_list_is_complete(inputs);
    let all = all_paths(inputs)->Ok_0;
    if all.len() > 0 {
        assert(valid_utf8(all[0]));
        let i = choose|i: int|
            0 <= i < inputs.len() && (#[trigger] expansion(inputs[i]))->Ok_0.contains(all[0]);
        assert(expansion(inputs[i])->Ok_0.len() > 0);
    }
    if exists|i: int| 0 <= i < inputs.len() && (#[trigger] expansion(inputs[i]))->Ok_0.len() > 0 {
        let i = choose|i: int|
            0 <= i < inputs.len() && (#[trigger] expansion(inputs[i]))->Ok_0.len() > 0;
        assert(lists(all, expansion(inputs[i])->Ok_0[0]));
    }
}

/// An input that could not be looked up is an error, unless an earlier one is,
/// whatever comes behind it.
pub proof fn law_failed_lookups_are_reported(
    before: Seq<ProbedInput>,
    probed: ProbedInput,
    behind: Seq<ProbedInput>,
)
    requires
        all_paths(before) is Ok,
        probed.found is Failed,
    ensures
        resolve_spec(before.push(probed) + behind) == Err::<Seq<Seq<u8>>, InputFailure>(
            InputFailure::Probe(probed.found->Failed_0@),
        ),
    decreases behind.len(),
{
    let all = before.push(probed) + behind;
    if behind.len() == 0 {
        assert(all =~= before.push(probed));
        assert(all.drop_last() =~= before);
        assert(all.last() == probed);
    } else {
        law_failed_lookups_are_reported(before, probed, behind.drop_last());
        assert(all.drop_last() =~= before.push(probed) + behind.drop_last());
    }
}

/// An input is a pattern exactly when a `*`, a `?` or a `[` stands somewhere in
/// it.
pub proof fn law_patterns(front: Seq<char>, c: char, back: Seq<char>)
    ensures
        c == '*' || c == '?' || c == '[' ==> is_glob_pattern(front.push(c) + back),
        c != '*' && c != '?' && c != '[' ==> is_glob_pattern(front.push(c) + back) == (
        is_glob_pattern(front) || is_glob_pattern(back)),
        !is_glob_pattern(Seq::empty()),
{
    lemma_held(front, c, back, '*');
    lemma_held(front, c, back, '?');
    lemma_held(front, c, back, '[');
}

proof fn lemma_held(front: Seq<char>, c: char, back: Seq<char>, wanted: char)
    ensures
        (front.push(c) + back).contains(wanted) == (front.contains(wanted) || c == wanted
            || back.contains(wanted)),
{
    let all = front.push(c) + back;
    if front.contains(wanted) {
        let k = choose|k: int| 0 <= k < front.len() && front[k] == wanted;
        assert(all[k] == wanted);
    }
    if back.contains(wanted) {
        let k = choose|k: int| 0 <= k < back.len() && back[k] == wanted;
        assert(all[front.len() + 1 + k] == wanted);
    }
    assert(all[front.len() as int] == c);
    if all.contains(wanted) {
        let k = choose|k: int| 0 <= k < all.len() && all[k] == wanted;
        if k < front.len() {
            assert(front[k] == wanted);
        } else if k > front.len() {
            assert(back[k - front.len() - 1] == wanted);
        }
    }
}

/// Whether an input is a glob pattern.
pub fn contains_glob_pattern(input: &str) -> (pattern: bool)
    ensures
        pattern == is_glob_pattern(input@),
{
    let chars = to_chars(input);
    let mut i: usize = 0;
    while i < chars.len()
        invariant
            i <= chars.len(),
            chars@ == input@,
            forall|j: int| 0 <= j < i ==> chars@[j] != '*' && chars@[j] != '?' && chars@[j] != '[',
        decreases chars.len() - i,
    {
        let c = chars[i];
        if c == '*' || c == '?' || c == '[' {
            assert(input@[i as int] == c);
            return true;
        }
        i += 1;
    }
    false
}

/// What is to be found out of an input: patterns are matched, everything else
/// is looked up as a directory.
pub fn probe_for(input: &str) -> (probe: Probe)
    ensures
        probe == if is_glob_pattern(input@) {
            Probe::Matches
        } else {
            Probe::Directory
        },
{
    if contains_glob_pattern(input) {
        Probe::Matches
    } else {
        Probe::Directory
    }
}

fn lower_extension(extension: &[u8]) -> (text: Vec<char>)
    ensures
        text@ == lowered(extension@),
{
    let mut text: Vec<char> = Vec::new();
    let mut i: usize = 0;
    while i < extension.len()
        invariant
            i <= extension.len(),
            text@.len() == i,
            forall|j: int| 0 <= j < i ==> #[trigger] text@[j] == lower_char(extension@[j]),
        decreases extension.len() - i,
    {
        let byte = extension[i];
        text.push(
            if 0x41 <= byte && byte <= 0x5a {
                (byte + 32) as char
            } else {
                byte as char
            },
        );
        i += 1;
    }
    assert(text@ =~= lowered(extension@));
    text
}

fn media_extension(extension: &[char]) -> (media: bool)
    ensures
        media == is_media_extension(extension@),
{
    chars_equal(extension, to_chars("aac").as_slice()) || chars_equal(
        extension,
        to_chars("avi").as_slice(),
    ) || chars_equal(extension, to_chars("flac").as_slice()) || chars_equal(
        extension,
        to_chars("m4a").as_slice(),
    ) || chars_equal(extension, to_chars("m4v").as_slice()) || chars_equal(
        extension,
        to_chars("mkv").as_slice(),
    ) || chars_equal(extension, to_chars("mov").as_slice()) || chars_equal(
        extension,
        to_chars("mp3").as_slice(),
    ) || chars_equal(extension, to_chars("mp4").as_slice()) || chars_equal(
        extension,
        to_chars("mpeg").as_slice(),
    ) || chars_equal(extension, to_chars("mpg").as_slice()) || chars_equal(
        extension,
        to_chars("ogg").as_slice(),
    ) || chars_equal(extension, to_chars("opus").as_slice()) || chars_equal(
        extension,
        to_chars("ts").as_slice(),
    ) || chars_equal(extension, to_chars("wav").as_slice()) || chars_equal(
        extension,
        to_chars("webm").as_slice(),
    )
}

/// Whether a path has the extension of a media file.
pub fn is_supported_media_file(path: &[u8]) -> (supported: bool)
    ensures
        supported == is_media_path(path@),
{
    match extension(path) {
        Some(extension) => media_extension(lower_extension(extension).as_slice()),
        None => false,
    }
}

/// `String::from_utf8` succeeds exactly on valid UTF-8, with the string that
/// the bytes encode; on failure it hands the bytes back.
#[verifier::external_body]
fn decode(bytes: Vec<u8>) -> (decoded: Result<String, Vec<u8>>)
    ensures
        match decoded {
            Ok(s) => encode_utf8(s@) == bytes@,
            Err(back) => back@ == bytes@ && !valid_utf8(bytes@),
        },
{
    match String::from_utf8(bytes) {
        Ok(s) => Ok(s),
        Err(error) => Err(error.into_bytes()),
    }
}

/// The text of a path.
pub fn path_to_string(path: Vec<u8>) -> (text: Result<String, InputError>)
    ensures
        match text {
            Ok(s) => valid_utf8(path@) && encode_utf8(s@) == path@,
            Err(error) => !valid_utf8(path@) && error@ == InputFailure::NotUtf8(path@),
        },
{
    broadcast use vstd::utf8::encode_utf8_valid_utf8;

    match decode(path) {
        Ok(s) => Ok(s),
        Err(back) => Err(InputError::NotUtf8(back)),
    }
}

/// The media files of a directory, in order.
pub fn resolve_directory(entries: &Vec<DirEntry>) -> (paths: Vec<Vec<u8>>)
    ensures
        path_models(paths@) == directory_paths(entries@),
{
    let mut files: Vec<Vec<u8>> = Vec::new();
    let mut i: usize = 0;
    assert(entries@.take(0) =~= Seq::empty());
    reveal(Seq::filter);
    assert(path_models(files@) =~= media_entries(entries@.take(0)));
    while i < entries.len()
        invariant
            i <= entries.len(),
            path_models(files@) == media_entries(entries@.take(i as int)),
        decreases entries.len() - i,
    {
        reveal(Seq::filter);
        let ghost before = entries@.take(i as int);
        assert(entries@.take(i + 1).drop_last() =~= before);
        let ghost files_before = files@;
        if entries[i].is_file && is_supported_media_file(entries[i].path.as_slice()) {
            files.push(slice_to_vec(entries[i].path.as_slice()));
            assert(path_models(files@) =~= path_models(files_before).push(
                entries@[i as int].path@,
            ));
            assert(before.filter(is_media_entry()).push(entries@[i as int]).map_values(
                entry_path(),
            ) =~= media_entries(before).push(entries@[i as int].path@));
        }
        i += 1;
    }
    assert(entries@.take(entries.len() as int) =~= entries@);
    sort_paths(&files)
}

fn push_all(paths: &mut Vec<Vec<u8>>, more: Vec<Vec<u8>>)
    ensures
        path_models(final(paths)@) == path_models(old(paths)@) + path_models(more@),
{
    let mut rest = more;
    paths.append(&mut rest);
    assert(path_models(paths@) =~= path_models(old(paths)@) + path_models(more@));
}

/// The paths that an input stands for.
pub fn resolve_input(probed: &ProbedInput) -> (paths: Result<Vec<Vec<u8>>, InputError>)
    requires
        probed.wf(),
    ensures
        match (paths, expansion(*probed)) {
            (Ok(paths), Ok(expected)) => path_models(paths@) == expected,
            (Err(error), Err(failure)) => error@ == failure,
            _ => false,
        },
{
    match &probed.found {
        Found::Plain => {
            let mut paths: Vec<Vec<u8>> = Vec::new();
            paths.push(slice_to_vec(probed.input.as_str().as_bytes()));
            assert(path_models(paths@) =~= seq![encode_utf8(probed.input@)]);
            Ok(paths)
        },
        Found::Directory(entries) => Ok(resolve_directory(entries)),
        Found::Matches(matches) => {
            let mut found: Vec<Vec<u8>> = Vec::new();
            let mut i: usize = 0;
            assert(matches@.take(0) =~= Seq::empty());
            assert(path_models(found@) =~= Seq::empty());
            while i < matches.len()
                invariant
                    i <= matches.len(),
                    path_models(found@) == matched_paths(matches@.take(i as int)),
                decreases matches.len() - i,
            {
                assert(matches@.take(i + 1).drop_last() =~= matches@.take(i as int));
                let ghost before = found@;
                match &matches[i] {
                    GlobMatch::Directory(entries) => {
                        push_all(&mut found, resolve_directory(entries));
                    },
                    GlobMatch::Path(path) => {
                        if is_supported_media_file(path.as_slice()) {
                            found.push(slice_to_vec(path.as_slice()));
                            assert(path_models(found@) =~= path_models(before).push(path@));
                        }
                    },
                }
                i += 1;
            }
            assert(matches@.take(matches.len() as int) =~= matches@);
            Ok(sort_paths(&found))
        },
        Found::Failed(reason) => Err(InputError::Probe(reason.clone())),
    }
}

/// Whether a path is among those with the given components.
fn is_listed(
    keys: &Vec<Vec<PathPartBuf>>,
    key: &Vec<PathPartBuf>,
    Ghost(known): Ghost<Seq<Seq<u8>>>,
    Ghost(path): Ghost<Seq<u8>>,
) -> (listed: bool)
    requires
        keys@.len() == known.len(),
        forall|j: int|
            0 <= j < known.len() ==> part_models((#[trigger] keys@[j])@) == components(known[j]),
        part_models(key@) == components(path),
    ensures
        listed == lists(known, path),
{
    let mut i: usize = 0;
    while i < keys.len()
        invariant
            i <= keys.len(),
            keys@.len() == known.len(),
            forall|j: int|
                0 <= j < known.len() ==> part_models((#[trigger] keys@[j])@) == components(
                    known[j],
                ),
            part_models(key@) == components(path),
            forall|j: int|
                0 <= j < i ==> components(#[trigger] known[j]) != components(path),
        decreases keys.len() - i,
    {
        proof {
            lemma_path_order(known[i as int], path, path);
            lemma_path_order(path, known[i as int], path);
            assert(part_models(keys@[i as int]@) == components(known[i as int]));
        }
        if !parts_less(&keys[i], key) && !parts_less(key, &keys[i]) {
            assert(components(known[i as int]) == components(path));
            return true;
        }
        i += 1;
    }
    false
}

proof fn lemma_added_error_stays(known: Seq<Seq<u8>>, paths: Seq<Seq<u8>>, upto: nat)
    requires
        upto <= paths.len(),
        added(known, paths.take(upto as int)) is Err,
    ensures
        added(known, paths) == added(known, paths.take(upto as int)),
    decreases paths.len(),
{
    if upto < paths.len() {
        assert(paths.drop_last().take(upto as int) =~= paths.take(upto as int));
        lemma_added_error_stays(known, paths.drop_last(), upto);
    } else {
        assert(paths.take(upto as int) =~= paths);
    }
}

fn add_paths(resolved: &mut Vec<String>, keys: &mut Vec<Vec<PathPartBuf>>, paths: &Vec<Vec<u8>>) -> (
done: Result<(), InputError>)
    requires
        old(keys)@.len() == old(resolved)@.len(),
        forall|j: int|
            0 <= j < old(keys)@.len() ==> part_models((#[trigger] old(keys)@[j])@) == components(
                encoded(old(resolved)@)[j],
            ),
    ensures
        match (done, added(encoded(old(resolved)@), path_models(paths@))) {
            (Ok(_), Ok(known)) => {
                &&& encoded(final(resolved)@) == known
                &&& final(keys)@.len() == final(resolved)@.len()
                &&& forall|j: int|
                    0 <= j < final(keys)@.len() ==> part_models((#[trigger] final(keys)@[j])@)
                        == components(encoded(final(resolved)@)[j])
            },
            (Err(error), Err(failure)) => error@ == failure,
            _ => false,
        },
{
    let ghost all = path_models(paths@);
    let ghost start = encoded(resolved@);
    let mut i: usize = 0;
    assert(all.take(0) =~= Seq::empty());
    while i < paths.len()
        invariant
            i <= paths.len(),
            all == path_models(paths@),
            start == encoded(old(resolved)@),
            added(start, all.take(i as int)) == Ok::<Seq<Seq<u8>>, InputFailure>(
                encoded(resolved@),
            ),
            keys@.len() == resolved@.len(),
            forall|j: int|
                0 <= j < keys@.len() ==> part_models((#[trigger] keys@[j])@) == components(
                    encoded(resolved@)[j],
                ),
        decreases paths.len() - i,
    {
        assert(all.take(i + 1).drop_last() =~= all.take(i as int));
        let ghost known = encoded(resolved@);
        let ghost path = all[i as int];
        let key = path_components(paths[i].as_slice());
        if !is_listed(keys, &key, Ghost(known), Ghost(path)) {
            match path_to_string(slice_to_vec(paths[i].as_slice())) {
                Ok(text) => {
                    let ghost resolved_before = resolved@;
                    let ghost keys_before = keys@;
                    resolved.push(text);
                    keys.push(key);
                    assert(encoded(resolved@) =~= known.push(path));
                    assert forall|j: int| 0 <= j < keys@.len() implies part_models(
                        (#[trigger] keys@[j])@,
                    ) == components(encoded(resolved@)[j]) by {
                        if j < keys_before.len() {
                            assert(keys@[j] == keys_before[j]);
                        }
                    }
                },
                Err(error) => {
                    proof {
                        lemma_added_error_stays(start, all, (i + 1) as nat);
                    }
                    return Err(error);
                },
            }
        }
        i += 1;
    }
    assert(all.take(all.len() as int) =~= all);
    Ok(())
}

proof fn lemma_all_paths_error_stays(inputs: Seq<ProbedInput>, upto: nat)
    requires
        upto <= inputs.len(),
        all_paths(inputs.take(upto as int)) is Err,
    ensures
        all_paths(inputs) == all_paths(inputs.take(upto as int)),
    decreases inputs.len(),
{
    if upto < inputs.len() {
        assert(inputs.drop_last().take(upto as int) =~= inputs.take(upto as int));
        lemma_all_paths_error_stays(inputs.drop_last(), upto);
    } else {
        assert(inputs.take(upto as int) =~= inputs);
    }
}

/// The paths to play for a list of inputs.
pub fn resolve_inputs(inputs: &Vec<ProbedInput>) -> (resolved: Result<Vec<String>, InputError>)
    requires
        all_wf(inputs@),
    ensures
        match (resolved, resolve_spec(inputs@)) {
            (Ok(resolved), Ok(paths)) => encoded(resolved@) == paths,
            (Err(error), Err(failure)) => error@ == failure,
            _ => false,
        },
{
    let mut resolved: Vec<String> = Vec::new();
    let mut keys: Vec<Vec<PathPartBuf>> = Vec::new();
    let mut i: usize = 0;
    assert(inputs@.take(0) =~= Seq::empty());
    assert(encoded(resolved@) =~= Seq::empty());
    while i < inputs.len()
        invariant
            i <= inputs.len(),
            all_wf(inputs@),
            all_paths(inputs@.take(i as int)) == Ok::<Seq<Seq<u8>>, InputFailure>(
                encoded(resolved@),
            ),
            keys@.len() == resolved@.len(),
            forall|j: int|
                0 <= j < keys@.len() ==> part_models((#[trigger] keys@[j])@) == components(
                    encoded(resolved@)[j],
                ),
        decreases inputs.len() - i,
    {
        assert(inputs@.take(i + 1).drop_last() =~= inputs@.take(i as int));
        let paths = match resolve_input(&inputs[i]) {
            Ok(paths) => paths,
            Err(error) => {
                proof {
                    lemma_all_paths_error_stays(inputs@, (i + 1) as nat);
                }
                return Err(error);
            },
        };
        if let Err(error) = add_paths(&mut resolved, &mut keys, &paths) {
            proof {
                lemma_all_paths_error_stays(inputs@, (i + 1) as nat);
            }
            return Err(error);
        }
        i += 1;
    }
    assert(inputs@.take(inputs.len() as int) =~= inputs@);
    if resolved.len() == 0 {
        return Err(InputError::NothingPlayable);
    }
    Ok(resolved)
}

} // verus!
