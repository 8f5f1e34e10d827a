//! File paths as text: file names, extensions, components and their order.
use vstd::prelude::*;
use vstd::slice::slice_subrange;

verus! {

/// One unit of a path: a character, or a byte of an undecoded path.
pub trait PathUnit: Copy {
    /// Whether this is the separator between components.
    spec fn is_separator(self) -> bool;

    /// Whether this is a full stop.
    spec fn is_dot(self) -> bool;

    /// Whether this is the separator between components.
    fn separator(self) -> (yes: bool)
        ensures
            yes == self.is_separator(),
    ;

    /// Whether this is a full stop.
    fn dot(self) -> (yes: bool)
        ensures
            yes == self.is_dot(),
    ;
}

impl PathUnit for char {
    open spec fn is_separator(self) -> bool {
        self == '/'
    }

    open spec fn is_dot(self) -> bool {
        self == '.'
    }

    fn separator(self) -> (yes: bool) {
        self == '/'
    }

    fn dot(self) -> (yes: bool) {
        self == '.'
    }
}

impl PathUnit for u8 {
    open spec fn is_separator(self) -> bool {
        self == 0x2f
    }

    open spec fn is_dot(self) -> bool {
        self == 0x2e
    }

    fn separator(self) -> (yes: bool) {
        self == 0x2f
    }

    fn dot(self) -> (yes: bool) {
        self == 0x2e
    }
}

/// Where the body of a path begins: after the root of an absolute path, and
/// after a leading `.` component.
pub open spec fn body_start<T: PathUnit>(path: Seq<T>) -> int {
    if path.len() > 0 && path[0].is_separator() {
        1
    } else if path.len() > 0 && path[0].is_dot() && (path.len() == 1 || path[1].is_separator()) {
        1
    } else {
        0
    }
}

/// Where the last piece of a path begins: after the last separator that is
/// not before `body`.
pub open spec fn piece_start<T: PathUnit>(path: Seq<T>, body: int) -> int
    decreases path.len(),
{
    if path.len() <= body || path.len() == 0 {
        body
    } else if path.last().is_separator() {
        path.len() as int
    } else {
        piece_start(path.drop_last(), body)
    }
}

/// What stands before the last piece and its separator.
pub open spec fn before_piece<T: PathUnit>(path: Seq<T>, body: int) -> Seq<T> {
    let start = piece_start(path, body);
    path.take(if start > body {
        start - 1
    } else {
        body
    })
}

/// The last piece of a path.
pub open spec fn last_piece<T: PathUnit>(path: Seq<T>, body: int) -> Seq<T> {
    path.skip(piece_start(path, body))
}

/// Whether a piece names no component: it is empty or `.`.
pub open spec fn is_skipped<T: PathUnit>(piece: Seq<T>) -> bool {
    piece.len() == 0 || (piece.len() == 1 && piece[0].is_dot())
}

/// Whether a piece names the parent directory.
pub open spec fn is_parent<T: PathUnit>(piece: Seq<T>) -> bool {
    piece.len() == 2 && piece[0].is_dot() && piece[1].is_dot()
}

/// The last piece lies within the body of the path.
pub proof fn lemma_piece_start<T: PathUnit>(path: Seq<T>, body: int)
    requires
        0 <= body,
    ensures
        body <= piece_start(path, body),
        body <= path.len() ==> piece_start(path, body) <= path.len(),
    decreases path.len(),
{
    if path.len() > body && !path.last().is_separator() {
        lemma_piece_start(path.drop_last(), body);
    }
}

/// A path without the pieces at its end that name no component.
pub open spec fn trimmed<T: PathUnit>(path: Seq<T>, body: int) -> Seq<T>
    decreases path.len(),
    when 0 <= body
{
    proof {
        lemma_piece_start(path, body);
    }
    if path.len() <= body {
        path
    } else if is_skipped(last_piece(path, body)) {
        trimmed(before_piece(path, body), body)
    } else {
        path
    }
}

/// One component of a path.
pub enum PathPart<T> {
    /// The root of an absolute path.
    Root,
    /// A leading `.`.
    Current,
    /// A `..`.
    Parent,
    /// A name.
    Normal(Seq<T>),
}

/// The component that a piece names.
pub open spec fn part_of<T: PathUnit>(piece: Seq<T>) -> PathPart<T> {
    if is_parent(piece) {
        PathPart::Parent
    } else {
        PathPart::Normal(piece)
    }
}

/// The components of the body of a path: its pieces between separators, but
/// for those that are empty or `.`.
pub open spec fn body_parts<T: PathUnit>(path: Seq<T>, body: int) -> Seq<PathPart<T>>
    decreases path.len(),
    when 0 <= body
{
    proof {
        lemma_piece_start(path, body);
    }
    if path.len() <= body {
        Seq::empty()
    } else if is_skipped(last_piece(path, body)) {
        body_parts(before_piece(path, body), body)
    } else {
        body_parts(before_piece(path, body), body).push(part_of(last_piece(path, body)))
    }
}

/// What stands before the body of a path.
pub open spec fn leading_part<T: PathUnit>(path: Seq<T>) -> Seq<PathPart<T>> {
    if body_start(path) == 0 {
        Seq::empty()
    } else if path[0].is_separator() {
        seq![PathPart::Root]
    } else {
        seq![PathPart::Current]
    }
}

/// The components of a path.
pub open spec fn components<T: PathUnit>(path: Seq<T>) -> Seq<PathPart<T>> {
    leading_part(path) + body_parts(path, body_start(path))
}

/// Where the file name of a path stands: its first position and the one after
/// its last.
pub open spec fn file_name_span<T: PathUnit>(path: Seq<T>) -> Option<(int, int)> {
    let body = body_start(path);
    let whole = trimmed(path, body);
    if whole.len() <= body || is_parent(last_piece(whole, body)) {
        None
    } else {
        Some((piece_start(whole, body), whole.len() as int))
    }
}

/// The file name of a path: its last component, if that is a name.
pub open spec fn file_name_spec<T: PathUnit>(path: Seq<T>) -> Option<Seq<T>> {
    match file_name_span(path) {
        Some((from, to)) => Some(path.subrange(from, to)),
        None => None,
    }
}

/// The directory of a path that has a file name.
pub open spec fn directory_spec<T: PathUnit>(path: Seq<T>) -> Seq<T> {
    let body = body_start(path);
    trimmed(before_piece(trimmed(path, body), body), body)
}

/// `path` with its file name replaced by `name`, or with `name` appended when
/// it has none.
pub open spec fn with_file_name_spec(path: Seq<char>, name: Seq<char>) -> Seq<char> {
    let directory = if file_name_span(path) is Some {
        directory_spec(path)
    } else {
        path
    };
    if directory.len() > 0 && directory.last() != '/' {
        directory.push('/') + name
    } else {
        directory + name
    }
}

/// The position of the last full stop of a name.
pub open spec fn last_dot<T: PathUnit>(name: Seq<T>) -> Option<int>
    decreases name.len(),
{
    if name.len() == 0 {
        None
    } else if name.last().is_dot() {
        Some(name.len() - 1)
    } else {
        last_dot(name.drop_last())
    }
}

/// The length of the stem of a name: up to the last full stop, unless the
/// name only begins with one.
pub open spec fn stem_len<T: PathUnit>(name: Seq<T>) -> int {
    match last_dot(name) {
        Some(at) => if at > 0 {
            at
        } else {
            name.len() as int
        },
        None => name.len() as int,
    }
}

/// The extension of a path: what follows the stem and its full stop.
pub open spec fn extension_spec<T: PathUnit>(path: Seq<T>) -> Option<Seq<T>> {
    match file_name_spec(path) {
        Some(name) => if stem_len(name) < name.len() {
            Some(name.skip(stem_len(name) + 1))
        } else {
            None
        },
        None => None,
    }
}

/// `path` with the extension of its file name replaced, or added. A path
/// without a file name stays as it is.
pub open spec fn with_extension_spec(path: Seq<char>, extension: Seq<char>) -> Seq<char> {
    match file_name_span(path) {
        Some((from, to)) => path.take(from + stem_len(path.subrange(from, to))).push('.')
            + extension,
        None => path,
    }
}

proof fn lemma_trimmed<T: PathUnit>(path: Seq<T>, body: int)
    requires
        0 <= body,
    ensures
        trimmed(path, body).len() <= path.len(),
        trimmed(path, body) == path.take(trimmed(path, body).len() as int),
        body <= path.len() ==> body <= trimmed(path, body).len(),
        body_parts(trimmed(path, body), body) == body_parts(path, body),
        trimmed(path, body).len() > body ==> !is_skipped(last_piece(trimmed(path, body), body)),
    decreases path.len(),
{
    lemma_piece_start(path, body);
    if path.len() > body && is_skipped(last_piece(path, body)) {
        let before = before_piece(path, body);
        lemma_trimmed(before, body);
        assert(before.take(trimmed(path, body).len() as int) =~= path.take(
            trimmed(path, body).len() as int,
        ));
    } else {
        assert(path.take(path.len() as int) =~= path);
    }
}

/// The file name is the last component of a path when that is a name, and a
/// path whose last component is no name has no file name.
pub proof fn law_file_name_is_last_component<T: PathUnit>(path: Seq<T>)
    ensures
        match file_name_spec(path) {
            Some(name) => components(path).len() > 0 && components(path).last()
                == PathPart::Normal(name),
            None => components(path).len() == 0 || !(components(path).last() is Normal),
        },
{
    let body = body_start(path);
    let whole = trimmed(path, body);
    lemma_trimmed(path, body);
    lemma_piece_start(whole, body);
    if whole.len() > body {
        let start = piece_start(whole, body);
        assert(last_piece(whole, body) =~= path.subrange(start, whole.len() as int));
        assert(body_parts(whole, body).last() == part_of(last_piece(whole, body)));
        assert(components(path).last() == body_parts(path, body).last());
    } else {
        assert(body_parts(whole, body) =~= Seq::empty());
        assert(components(path) =~= leading_part(path));
    }
}

/// A file name lies within its path and is not empty.
pub proof fn lemma_span_bounds<T: PathUnit>(path: Seq<T>)
    ensures
        file_name_span(path) matches Some((from, to)) ==> 0 <= from < to <= path.len(),
{
    let body = body_start(path);
    lemma_trimmed(path, body);
    lemma_piece_start(trimmed(path, body), body);
}

/// Whether a text can be a file name: it has no separator, and names neither
/// the directory itself nor its parent.
pub open spec fn is_plain_name<T: PathUnit>(name: Seq<T>) -> bool {
    &&& forall|i: int| 0 <= i < name.len() ==> !(#[trigger] name[i]).is_separator()
    &&& !is_skipped(name)
    &&& !is_parent(name)
}

proof fn lemma_piece_is_whole<T: PathUnit>(path: Seq<T>, body: int)
    requires
        0 <= body <= path.len(),
    ensures
        piece_start(path, body) == body || path[piece_start(path, body) - 1].is_separator(),
        forall|i: int| piece_start(path, body) <= i < path.len() ==> !(#[trigger] path[i]).is_separator(),
    decreases path.len(),
{
    lemma_piece_start(path, body);
    if path.len() > body && !path.last().is_separator() {
        lemma_piece_is_whole(path.drop_last(), body);
        lemma_piece_start(path.drop_last(), body);
        let start = piece_start(path, body);
        assert forall|i: int| start <= i < path.len() implies !(#[trigger] path[i]).is_separator() by {
            if i < path.len() - 1 {
                assert(path.drop_last()[i] == path[i]);
            }
        }
        if start != body {
            assert(path.drop_last()[start - 1] == path[start - 1]);
        }
    }
}

proof fn lemma_piece_behind<T: PathUnit>(before: Seq<T>, name: Seq<T>, body: int)
    requires
        0 <= body <= before.len(),
        before.len() == body || before.last().is_separator(),
        forall|i: int| 0 <= i < name.len() ==> !(#[trigger] name[i]).is_separator(),
    ensures
        piece_start(before + name, body) == before.len(),
    decreases name.len(),
{
    if name.len() == 0 {
        assert(before + name =~= before);
    } else {
        assert((before + name).drop_last() =~= before + name.drop_last());
        lemma_piece_behind(before, name.drop_last(), body);
    }
}

/// A plain name behind the directory part of a path is the file name of the
/// result.
pub proof fn lemma_name_behind_directory<T: PathUnit>(path: Seq<T>, name: Seq<T>)
    requires
        file_name_span(path) is Some,
        is_plain_name(name),
    ensures
        file_name_span(path.take(file_name_span(path)->Some_0.0) + name) == Some(
            (
                file_name_span(path)->Some_0.0,
                file_name_span(path)->Some_0.0 + name.len(),
            ),
        ),
        file_name_spec(path.take(file_name_span(path)->Some_0.0) + name) == Some(name),
{
    let body = body_start(path);
    let whole = trimmed(path, body);
    lemma_trimmed(path, body);
    lemma_piece_start(whole, body);
    lemma_piece_is_whole(whole, body);
    let from = piece_start(whole, body);
    let before = path.take(from);
    let result = before + name;
    assert forall|i: int| 0 <= i < whole.len() implies #[trigger] whole[i] == path[i] by {
        assert(path.take(whole.len() as int)[i] == path[i]);
    }
    if from > body {
        assert(before.last() == whole[from - 1]);
    }
    if body == 1 && !path[0].is_separator() {
        assert(whole[1] == path[1]);
        assert(from >= 2);
        assert(result[0] == path[0] && result[1] == path[1]);
    } else if body == 0 {
        if from == 1 {
            assert(whole[0] == path[0]);
        }
        if from >= 2 {
            assert(result[0] == path[0] && result[1] == path[1]);
        } else {
            assert(result[0] == name[0]);
            if name.len() > 1 {
                assert(result[1] == name[1]);
            }
        }
    } else {
        assert(result[0] == path[0]);
    }
    assert(body_start(result) == body);
    lemma_piece_behind(before, name, body);
    assert(last_piece(result, body) =~= name);
    assert(trimmed(result, body) == result);
    assert(result.subrange(from, from + name.len()) =~= name);
}

proof fn lemma_trimmed_cut<T: PathUnit>(path: Seq<T>, body: int)
    requires
        0 <= body <= path.len(),
    ensures
        ({
            let len = trimmed(path, body).len() as int;
            len == path.len() || len == body || path[len].is_separator()
        }),
    decreases path.len(),
{
    lemma_piece_start(path, body);
    lemma_piece_is_whole(path, body);
    if path.len() > body && is_skipped(last_piece(path, body)) {
        let before = before_piece(path, body);
        lemma_trimmed_cut(before, body);
        lemma_trimmed(before, body);
        let len = trimmed(path, body).len() as int;
        if len != body && len < before.len() {
            assert(before[len] == path[len]);
        }
    }
}

/// Replacing the file name of a path gives a path with that file name.
pub proof fn lemma_replaced_name_is_file_name(path: Seq<char>, name: Seq<char>)
    requires
        file_name_span(path) is Some,
        is_plain_name(name),
    ensures
        file_name_spec(with_file_name_spec(path, name)) == Some(name),
{
    let body = body_start(path);
    let whole = trimmed(path, body);
    lemma_trimmed(path, body);
    lemma_piece_start(whole, body);
    lemma_piece_is_whole(whole, body);
    let before = before_piece(whole, body);
    let directory = directory_spec(path);
    lemma_trimmed(before, body);
    lemma_trimmed_cut(before, body);
    assert forall|i: int| 0 <= i < directory.len() implies #[trigger] directory[i] == path[i] by {
        assert(before.take(directory.len() as int)[i] == before[i]);
        assert(whole.take(before.len() as int)[i] == whole[i]);
        assert(path.take(whole.len() as int)[i] == path[i]);
    }
    if body < directory.len() {
        let len = directory.len() as int;
        if len < before.len() {
            assert(before[len] == whole[len]);
        }
        assert(path.take(whole.len() as int)[len] == path[len]);
        assert(path[len].is_separator());
        lemma_piece_start(directory, body);
        lemma_piece_is_whole(directory, body);
        assert(directory.last() == last_piece(directory, body).last());
        assert(!directory.last().is_separator());
    }
    let prefix = if directory.len() > 0 && directory.last() != '/' {
        directory.push('/')
    } else {
        directory
    };
    let result = with_file_name_spec(path, name);
    assert(result =~= prefix + name);
    if directory.len() >= 1 {
        assert(result[0] == path[0]);
        assert(directory.len() >= 2 ==> result[1] == directory[1]);
        if directory.len() == 1 && body == 0 {
            assert(path[1].is_separator());
        }
    } else {
        assert(result =~= name);
    }
    assert(body_start(result) == body);
    lemma_piece_behind(prefix, name, body);
    assert(last_piece(result, body) =~= name);
    assert(trimmed(result, body) == result);
    assert(result.subrange(prefix.len() as int, result.len() as int) =~= name);
}

/// The components of a path follow its separators. A text without a separator
/// is one component, or none if it is empty. Behind a separator it adds one to
/// those of the path before, unless it is empty or `.`.
pub proof fn law_components_follow_separators<T: PathUnit>(path: Seq<T>, separator: T, name: Seq<T>)
    requires
        separator.is_separator(),
        !separator.is_dot(),
        forall|i: int| 0 <= i < name.len() ==> !(#[trigger] name[i]).is_separator(),
    ensures
        ({
            let part = if name.len() == 0 || name.len() == 1 && name[0].is_dot() {
                Seq::<PathPart<T>>::empty()
            } else if name.len() == 2 && name[0].is_dot() && name[1].is_dot() {
                seq![PathPart::Parent]
            } else {
                seq![PathPart::Normal(name)]
            };
            &&& path.len() > 0 ==> components(path.push(separator) + name) == components(path) + part
            &&& components(seq![separator] + name) == seq![PathPart::Root] + part
            &&& components(name) == if name.len() == 1 && name[0].is_dot() {
                seq![PathPart::Current]
            } else {
                part
            }
        }),
{
    let nothing = Seq::<T>::empty();
    if path.len() > 0 {
        let longer = path.push(separator) + name;
        let body = body_start(path);
        assert(longer[0] == path[0]);
        if path.len() > 1 {
            assert(longer[1] == path[1]);
        } else {
            assert(longer[1] == separator);
        }
        assert(body_start(longer) == body);
        lemma_piece_behind(path.push(separator), name, body);
        assert(before_piece(longer, body) =~= path);
        assert(last_piece(longer, body) =~= name);
        assert(components(longer) =~= components(path) + (if is_skipped(name) {
            Seq::empty()
        } else {
            seq![part_of(name)]
        }));
    }
    let rooted = seq![separator] + name;
    assert(rooted[0] == separator);
    assert(body_start(rooted) == 1);
    lemma_piece_behind(seq![separator], name, 1);
    assert(before_piece(rooted, 1).len() == 1);
    assert(body_parts(before_piece(rooted, 1), 1) =~= Seq::empty());
    assert(last_piece(rooted, 1) =~= name);
    assert(components(rooted) =~= seq![PathPart::Root] + (if is_skipped(name) {
        Seq::empty()
    } else {
        seq![part_of(name)]
    }));
    if name.len() > 0 && !is_skipped(name) {
        assert(!name[0].is_separator());
        if name.len() > 1 {
            assert(!name[1].is_separator());
        }
        assert(body_start(name) == 0);
        assert(nothing + name =~= name);
        lemma_piece_behind(nothing, name, 0);
        assert(before_piece(name, 0).len() == 0);
        assert(body_parts(before_piece(name, 0), 0) =~= Seq::empty());
        assert(last_piece(name, 0) =~= name);
        assert(components(name) =~= seq![part_of(name)]);
    } else if name.len() > 0 {
        assert(!name[0].is_separator());
        assert(components(name) =~= seq![PathPart::Current]);
    } else {
        assert(components(name) =~= Seq::empty());
    }
}

proof fn lemma_last_dot<T: PathUnit>(stem: Seq<T>, dot: T, extension: Seq<T>)
    requires
        dot.is_dot(),
        forall|i: int| 0 <= i < extension.len() ==> !(#[trigger] extension[i]).is_dot(),
    ensures
        last_dot(stem.push(dot) + extension) == Some(stem.len() as int),
    decreases extension.len(),
{
    let name = stem.push(dot) + extension;
    if extension.len() == 0 {
        assert(name =~= stem.push(dot));
    } else {
        assert(name.last() == extension[extension.len() - 1]);
        assert(name.drop_last() =~= stem.push(dot) + extension.drop_last());
        lemma_last_dot(stem, dot, extension.drop_last());
    }
}

proof fn lemma_no_dot<T: PathUnit>(name: Seq<T>)
    requires
        forall|i: int| 0 <= i < name.len() ==> !(#[trigger] name[i]).is_dot(),
    ensures
        last_dot(name) is None,
    decreases name.len(),
{
    if name.len() > 0 {
        assert(!name[name.len() - 1].is_dot());
        lemma_no_dot(name.drop_last());
    }
}

/// The extension of a path is what stands behind the last full stop of its file
/// name, if something stands before that. A name without a full stop, or with
/// one only at its front, has none, and neither has a path without a name.
pub proof fn law_extension_is_behind_the_last_dot<T: PathUnit>(
    path: Seq<T>,
    stem: Seq<T>,
    dot: T,
    extension: Seq<T>,
)
    requires
        dot.is_dot(),
        forall|i: int| 0 <= i < extension.len() ==> !(#[trigger] extension[i]).is_dot(),
    ensures
        stem.len() > 0 && file_name_spec(path) == Some(stem.push(dot) + extension)
            ==> extension_spec(path) == Some(extension),
        file_name_spec(path) == Some(seq![dot] + extension) ==> extension_spec(path) is None,
        file_name_spec(path) == Some(extension) ==> extension_spec(path) is None,
        file_name_spec(path) is None ==> extension_spec(path) is None,
{
    lemma_last_dot(stem, dot, extension);
    lemma_last_dot(Seq::<T>::empty(), dot, extension);
    assert(Seq::<T>::empty().push(dot) + extension =~= seq![dot] + extension);
    lemma_no_dot(extension);
    let name = stem.push(dot) + extension;
    assert(name.skip((stem.len() + 1) as int) =~= extension);
}

/// Changing the extension of a path changes nothing before it: behind the
/// directory and the stem stands the new extension. A name without an extension
/// gets one.
pub proof fn law_extension_is_replaced(
    path: Seq<char>,
    stem: Seq<char>,
    extension: Seq<char>,
    replacement: Seq<char>,
)
    requires
        path.len() > 0,
        stem.len() > 0,
        forall|i: int| 0 <= i < stem.len() ==> #[trigger] stem[i] != '/',
        forall|i: int| 0 <= i < extension.len() ==> #[trigger] extension[i] != '/' && extension[i] != '.',
        extension.len() > 0 || stem != seq!['.'],
    ensures
        with_extension_spec(path.push('/') + (stem.push('.') + extension), replacement) == path.push(
            '/',
        ) + stem.push('.') + replacement,
        (forall|i: int| 0 <= i < stem.len() ==> #[trigger] stem[i] != '.') ==> with_extension_spec(
            path.push('/') + stem,
            replacement,
        ) == path.push('/') + stem.push('.') + replacement,
{
    let name = stem.push('.') + extension;
    let whole = path.push('/') + name;
    assert forall|i: int| 0 <= i < name.len() implies !(#[trigger] name[i]).is_separator() by {
        if i < stem.len() {
            assert(name[i] == stem[i]);
        } else if i > stem.len() {
            assert(name[i] == extension[i - stem.len() - 1]);
        }
    }
    assert(!is_parent(name)) by {
        if is_parent(name) {
            assert(name[0] == stem[0]);
            if extension.len() > 0 {
                assert(name[1] == '.');
                assert(name.len() == stem.len() + 1 + extension.len());
            } else {
                assert(stem =~= seq!['.']);
            }
        }
    }
    lemma_span_behind(path, name);
    lemma_last_dot(stem, '.', extension);
    assert(whole.subrange((path.len() + 1) as int, whole.len() as int) =~= name);
    assert(whole.take((path.len() + 1 + stem.len()) as int).push('.') + replacement =~= path.push('/')
        + stem.push('.') + replacement);
    if forall|i: int| 0 <= i < stem.len() ==> #[trigger] stem[i] != '.' {
        let short = path.push('/') + stem;
        assert forall|i: int| 0 <= i < stem.len() implies !(#[trigger] stem[i]).is_separator() by {}
        assert forall|i: int| 0 <= i < stem.len() implies !(#[trigger] stem[i]).is_dot() by {}
        assert(stem[0] != '.');
        lemma_span_behind(path, stem);
        lemma_no_dot(stem);
        assert(short.subrange((path.len() + 1) as int, short.len() as int) =~= stem);
        assert(short.take((path.len() + 1 + stem.len()) as int).push('.') + replacement =~= path.push('/')
            + stem.push('.') + replacement);
    }
}

proof fn lemma_span_behind(path: Seq<char>, name: Seq<char>)
    requires
        path.len() > 0,
        is_plain_name(name),
    ensures
        file_name_span(path.push('/') + name) == Some(
            ((path.len() + 1) as int, (path.len() + 1 + name.len()) as int),
        ),
{
    let whole = path.push('/') + name;
    let body = body_start(path);
    assert(whole[0] == path[0]);
    if path.len() > 1 {
        assert(whole[1] == path[1]);
    } else {
        assert(whole[1] == '/');
    }
    lemma_piece_behind(path.push('/'), name, body);
    assert(last_piece(whole, body) =~= name);
}

/// Another file name takes the place of the one behind the last separator.
pub proof fn law_file_name_is_replaced(path: Seq<char>, last: char, name: Seq<char>, new: Seq<char>)
    requires
        path.len() > 0 ==> path[0] != '.' || path.len() > 1,
        last != '/' && last != '.',
        is_plain_name(name),
    ensures
        with_file_name_spec(path.push(last).push('/') + name, new) == path.push(last).push('/') + new,
        with_file_name_spec(name, new) == new,
{
    let directory = path.push(last);
    let whole = directory.push('/') + name;
    let body = body_start(directory);
    lemma_span_behind(directory, name);
    assert(whole[0] == directory[0]);
    assert(whole[1] == if directory.len() > 1 {
        directory[1]
    } else {
        '/'
    });
    assert(body_start(whole) == body);
    lemma_piece_behind(directory.push('/'), name, body);
    assert(last_piece(whole, body) =~= name);
    assert(trimmed(whole, body) == whole);
    assert(before_piece(whole, body) =~= directory);
    lemma_piece_start(directory, body);
    lemma_piece_is_whole(directory, body);
    let piece = last_piece(directory, body);
    assert(!directory.last().is_separator());
    if directory.len() > body {
        assert(piece_start(directory, body) < directory.len()) by {
            lemma_piece_start(directory.drop_last(), body);
        }
        assert(piece.last() == last);
        assert(!is_skipped(piece));
    }
    assert(trimmed(directory, body) == directory);
    assert(directory_spec(whole) == directory);
    let nothing = Seq::<char>::empty();
    assert(nothing + name =~= name);
    assert(!name[0].is_separator());
    if name.len() > 1 {
        assert(!name[1].is_separator());
    }
    lemma_piece_behind(nothing, name, 0);
    assert(last_piece(name, 0) =~= name);
    assert(trimmed(name, 0) == name);
    assert(before_piece(name, 0) =~= nothing);
    assert(trimmed(nothing, 0) == nothing);
    assert(nothing + new =~= new);
}

/// The stem of a name is not empty and not longer than the name.
pub proof fn lemma_stem_len<T: PathUnit>(name: Seq<T>)
    ensures
        name.len() > 0 ==> 0 < stem_len(name),
        stem_len(name) <= name.len(),
    decreases name.len(),
{
    if name.len() > 0 && !name.last().is_dot() {
        lemma_stem_len(name.drop_last());
    }
}

/// A file name has no separator, and names neither the directory itself nor
/// its parent.
pub proof fn lemma_file_name_is_plain<T: PathUnit>(path: Seq<T>)
    ensures
        file_name_spec(path) matches Some(name) ==> is_plain_name(name),
{
    let body = body_start(path);
    let whole = trimmed(path, body);
    lemma_trimmed(path, body);
    lemma_piece_start(whole, body);
    lemma_piece_is_whole(whole, body);
    if whole.len() > body {
        let start = piece_start(whole, body);
        let name = path.subrange(start, whole.len() as int);
        assert(last_piece(whole, body) =~= name);
        assert forall|i: int| 0 <= i < name.len() implies !(#[trigger] name[i]).is_separator() by {
            assert(whole[start + i] == name[i]);
        }
    }
}

fn find_body<T: PathUnit>(path: &[T]) -> (body: usize)
    ensures
        body == body_start(path@),
        body <= path@.len(),
{
    if path.len() > 0 && path[0].separator() {
        1
    } else if path.len() > 0 && path[0].dot() && (path.len() == 1 || path[1].separator()) {
        1
    } else {
        0
    }
}

fn find_piece<T: PathUnit>(path: &[T], body: usize) -> (start: usize)
    requires
        body <= path@.len(),
    ensures
        start == piece_start(path@, body as int),
        body <= start <= path@.len(),
{
    let mut start: usize = path.len();
    assert(path@.take(start as int) =~= path@);
    while start > body && !path[start - 1].separator()
        invariant
            body <= start <= path.len(),
            piece_start(path@.take(start as int), body as int) == piece_start(path@, body as int),
        decreases start,
    {
        assert(path@.take(start as int).drop_last() =~= path@.take(start - 1));
        start -= 1;
    }
    start
}

fn skipped_piece<T: PathUnit>(piece: &[T]) -> (skipped: bool)
    ensures
        skipped == is_skipped(piece@),
{
    piece.len() == 0 || (piece.len() == 1 && piece[0].dot())
}

fn parent_piece<T: PathUnit>(piece: &[T]) -> (parent: bool)
    ensures
        parent == is_parent(piece@),
{
    piece.len() == 2 && piece[0].dot() && piece[1].dot()
}

/// Removes the pieces at the end that name no component.
fn trim_pieces<T: PathUnit>(path: &[T], body: usize) -> (whole: &[T])
    requires
        body <= path@.len(),
    ensures
        whole@ == trimmed(path@, body as int),
        body <= whole@.len() <= path@.len(),
{
    let mut whole = path;
    while whole.len() > body
        invariant
            body <= whole@.len() <= path@.len(),
            trimmed(whole@, body as int) == trimmed(path@, body as int),
        decreases whole@.len(),
    {
        let start = find_piece(whole, body);
        let len: usize = whole.len();
        if !skipped_piece(slice_subrange(whole, start, len)) {
            return whole;
        }
        whole = slice_subrange(
            whole,
            0,
            if start > body {
                start - 1
            } else {
                body
            },
        );
    }
    whole
}

/// Finds the file name of a path.
fn find_file_name<T: PathUnit>(path: &[T]) -> (span: Option<(usize, usize)>)
    ensures
        match span {
            Some((from, to)) => {
                &&& file_name_span(path@) == Some((from as int, to as int))
                &&& from < to <= path@.len()
            },
            None => file_name_span(path@) is None,
        },
{
    proof {
        lemma_span_bounds(path@);
    }
    let body = find_body(path);
    let whole = trim_pieces(path, body);
    if whole.len() <= body {
        return None;
    }
    let start = find_piece(whole, body);
    let len: usize = whole.len();
    if parent_piece(slice_subrange(whole, start, len)) {
        None
    } else {
        Some((start, len))
    }
}

/// The file name of a path.
pub fn file_name<'a, T: PathUnit>(path: &'a [T]) -> (name: Option<&'a [T]>)
    ensures
        match name {
            Some(name) => file_name_spec(path@) == Some(name@),
            None => file_name_spec(path@) is None,
        },
{
    match find_file_name(path) {
        Some((from, to)) => Some(slice_subrange(path, from, to)),
        None => None,
    }
}

fn find_stem<T: PathUnit>(name: &[T]) -> (len: usize)
    ensures
        len == stem_len(name@),
        len <= name@.len(),
{
    let mut at: usize = name.len();
    assert(name@.take(at as int) =~= name@);
    while at > 0
        invariant
            at <= name.len(),
            last_dot(name@.take(at as int)) == last_dot(name@),
        decreases at,
    {
        assert(name@.take(at as int).drop_last() =~= name@.take(at - 1));
        if name[at - 1].dot() {
            return if at > 1 {
                at - 1
            } else {
                name.len()
            };
        }
        at -= 1;
    }
    name.len()
}

/// The extension of a path.
pub fn extension<'a, T: PathUnit>(path: &'a [T]) -> (extension: Option<&'a [T]>)
    ensures
        match extension {
            Some(extension) => extension_spec(path@) == Some(extension@),
            None => extension_spec(path@) is None,
        },
{
    match file_name(path) {
        Some(name) => {
            let stem = find_stem(name);
            let len: usize = name.len();
            if stem < len {
                Some(slice_subrange(name, stem + 1, len))
            } else {
                None
            }
        },
        None => None,
    }
}

/// Replaces the file name of a path.
pub fn with_file_name(path: &[char], name: &[char]) -> (replaced: Vec<char>)
    requires
        name@.len() == 0 || name@[0] != '/',
    ensures
        replaced@ == with_file_name_spec(path@, name@),
{
    let directory: &[char] = match find_file_name(path) {
        Some(_) => {
            let body = find_body(path);
            let whole = trim_pieces(path, body);
            let start = find_piece(whole, body);
            let before = slice_subrange(
                whole,
                0,
                if start > body {
                    start - 1
                } else {
                    body
                },
            );
            trim_pieces(before, body)
        },
        None => path,
    };
    let mut replaced: Vec<char> = vstd::slice::slice_to_vec(directory);
    if directory.len() > 0 && directory[directory.len() - 1] != '/' {
        replaced.push('/');
    }
    let ghost start = replaced@;
    let mut i: usize = 0;
    while i < name.len()
        invariant
            i <= name.len(),
            replaced@ == start + name@.take(i as int),
        decreases name.len() - i,
    {
        replaced.push(name[i]);
        i += 1;
    }
    assert(name@.take(name@.len() as int) =~= name@);
    replaced
}

/// Replaces the extension of the file name of a path.
pub fn with_extension(path: &[char], extension: &[char]) -> (replaced: Vec<char>)
    requires
        extension@.len() > 0,
        forall|i: int| 0 <= i < extension@.len() ==> extension@[i] != '/',
    ensures
        replaced@ == with_extension_spec(path@, extension@),
{
    match find_file_name(path) {
        Some((from, to)) => {
            let stem = find_stem(slice_subrange(path, from, to));
            let mut replaced: Vec<char> = vstd::slice::slice_to_vec(
                slice_subrange(path, 0, from + stem),
            );
            replaced.push('.');
            let ghost start = replaced@;
            let mut i: usize = 0;
            while i < extension.len()
                invariant
                    i <= extension.len(),
                    replaced@ == start + extension@.take(i as int),
                decreases extension.len() - i,
            {
                replaced.push(extension[i]);
                i += 1;
            }
            assert(extension@.take(extension@.len() as int) =~= extension@);
            replaced
        },
        None => vstd::slice::slice_to_vec(path),
    }
}

} // verus!
