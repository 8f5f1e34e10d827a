//! The order of paths by their components, and sorting by it.
use crate::paths::{
    before_piece, body_parts, body_start, components, is_parent, is_skipped, last_piece,
    leading_part, part_of, piece_start, PathPart, PathUnit,
};
use vstd::prelude::*;
use vstd::slice::{slice_subrange, slice_to_vec};

verus! {

/// The lexicographic order of sequences over the order `less` of their
/// elements.
pub open spec fn lex_less<T>(a: Seq<T>, b: Seq<T>, less: spec_fn(T, T) -> bool) -> bool
    decreases b.len(),
{
    if b.len() == 0 {
        false
    } else if a.len() == 0 {
        true
    } else if less(a[0], b[0]) {
        true
    } else if less(b[0], a[0]) {
        false
    } else {
        lex_less(a.skip(1), b.skip(1), less)
    }
}

/// Whether `less` is a strict total order.
pub open spec fn strict_total<T>(less: spec_fn(T, T) -> bool) -> bool {
    &&& forall|x: T| !(#[trigger] less(x, x))
    &&& forall|x: T, y: T, z: T| #[trigger] less(x, y) && #[trigger] less(y, z) ==> less(x, z)
    &&& forall|x: T, y: T| #[trigger] less(x, y) || less(y, x) || x == y
}

/// The order of bytes by value.
pub open spec fn byte_order() -> spec_fn(u8, u8) -> bool {
    |x: u8, y: u8| x < y
}

/// The rank of the kind of a component.
pub open spec fn part_rank(part: PathPart<u8>) -> int {
    match part {
        PathPart::Root => 0,
        PathPart::Current => 1,
        PathPart::Parent => 2,
        PathPart::Normal(_) => 3,
    }
}

/// The order of components: by kind, and names byte by byte.
pub open spec fn part_order() -> spec_fn(PathPart<u8>, PathPart<u8>) -> bool {
    |x: PathPart<u8>, y: PathPart<u8>|
        match (x, y) {
            (PathPart::Normal(a), PathPart::Normal(b)) => lex_less(a, b, byte_order()),
            _ => part_rank(x) < part_rank(y),
        }
}

/// Whether one path comes before another: component by component.
pub open spec fn path_less(a: Seq<u8>, b: Seq<u8>) -> bool {
    lex_less(components(a), components(b), part_order())
}

proof fn lemma_lex_irreflexive<T>(a: Seq<T>, less: spec_fn(T, T) -> bool)
    requires
        strict_total(less),
    ensures
        !lex_less(a, a, less),
    decreases a.len(),
{
    if a.len() > 0 {
        assert(!less(a[0], a[0]));
        lemma_lex_irreflexive(a.skip(1), less);
    }
}

proof fn lemma_lex_transitive<T>(a: Seq<T>, b: Seq<T>, c: Seq<T>, less: spec_fn(T, T) -> bool)
    requires
        strict_total(less),
        lex_less(a, b, less),
        lex_less(b, c, less),
    ensures
        lex_less(a, c, less),
    decreases a.len(),
{
    if a.len() > 0 && b.len() > 0 && c.len() > 0 {
        assert(less(a[0], b[0]) || less(b[0], a[0]) || a[0] == b[0]);
        assert(less(b[0], c[0]) || less(c[0], b[0]) || b[0] == c[0]);
        if less(a[0], b[0]) {
            if less(b[0], c[0]) {
                assert(less(a[0], c[0]));
            } else {
                assert(b[0] == c[0]);
            }
        } else {
            assert(a[0] == b[0]);
            if !less(b[0], c[0]) {
                assert(b[0] == c[0]);
                lemma_lex_transitive(a.skip(1), b.skip(1), c.skip(1), less);
            }
        }
    }
}

proof fn lemma_lex_trichotomy<T>(a: Seq<T>, b: Seq<T>, less: spec_fn(T, T) -> bool)
    requires
        strict_total(less),
    ensures
        lex_less(a, b, less) || lex_less(b, a, less) || a == b,
    decreases a.len(),
{
    if a.len() > 0 && b.len() > 0 {
        assert(less(a[0], b[0]) || less(b[0], a[0]) || a[0] == b[0]);
        if a[0] == b[0] {
            lemma_lex_trichotomy(a.skip(1), b.skip(1), less);
            if a.skip(1) == b.skip(1) {
                assert(a =~= seq![a[0]] + a.skip(1));
                assert(b =~= seq![b[0]] + b.skip(1));
            }
        }
    } else {
        assert(a.len() == 0 && b.len() == 0 ==> a =~= b);
    }
}

proof fn lemma_part_order_total()
    ensures
        strict_total(part_order()),
{
    let less = part_order();
    assert(strict_total(byte_order()));
    assert forall|x: PathPart<u8>| !(#[trigger] less(x, x)) by {
        if let PathPart::Normal(name) = x {
            lemma_lex_irreflexive(name, byte_order());
        }
    }
    assert forall|x: PathPart<u8>, y: PathPart<u8>, z: PathPart<u8>| #[trigger]
        less(x, y) && #[trigger] less(y, z) implies less(x, z) by {
        if x is Normal && y is Normal && z is Normal {
            lemma_lex_transitive(x->Normal_0, y->Normal_0, z->Normal_0, byte_order());
        }
    }
    assert forall|x: PathPart<u8>, y: PathPart<u8>| #[trigger] less(x, y) || less(y, x) || x == y by {
        if x is Normal && y is Normal {
            lemma_lex_trichotomy(x->Normal_0, y->Normal_0, byte_order());
        }
    }
}

/// Paths are strictly and totally ordered, up to paths with the same
/// components.
pub proof fn lemma_path_order(a: Seq<u8>, b: Seq<u8>, c: Seq<u8>)
    ensures
        !path_less(a, a),
        path_less(a, b) && path_less(b, c) ==> path_less(a, c),
        path_less(a, b) || path_less(b, a) || components(a) == components(b),
        path_less(a, b) ==> !path_less(b, a),
{
    let less = part_order();
    lemma_part_order_total();
    lemma_lex_irreflexive(components(a), less);
    if path_less(a, b) && path_less(b, c) {
        lemma_lex_transitive(components(a), components(b), components(c), less);
    }
    if path_less(a, b) && path_less(b, a) {
        lemma_lex_transitive(components(a), components(b), components(a), less);
    }
    lemma_lex_trichotomy(components(a), components(b), less);
}

proof fn lemma_common_front<T>(front: Seq<T>, a: Seq<T>, b: Seq<T>, less: spec_fn(T, T) -> bool)
    requires
        strict_total(less),
    ensures
        lex_less(front + a, front + b, less) == lex_less(a, b, less),
    decreases front.len(),
{
    if front.len() == 0 {
        assert(front + a =~= a);
        assert(front + b =~= b);
    } else {
        lemma_common_front(front.skip(1), a, b, less);
        assert((front + a)[0] == front[0] && (front + b)[0] == front[0]);
        assert((front + a).skip(1) =~= front.skip(1) + a);
        assert((front + b).skip(1) =~= front.skip(1) + b);
        assert(!less(front[0], front[0]));
    }
}

proof fn lemma_first_difference<T>(
    front: Seq<T>,
    x: T,
    a: Seq<T>,
    y: T,
    b: Seq<T>,
    less: spec_fn(T, T) -> bool,
)
    requires
        strict_total(less),
    ensures
        less(x, y) ==> lex_less(front + (seq![x] + a), front + (seq![y] + b), less),
        lex_less(front, front + (seq![y] + b), less),
{
    lemma_common_front(front, seq![x] + a, seq![y] + b, less);
    assert((seq![x] + a)[0] == x && (seq![y] + b)[0] == y);
    let nothing = Seq::<T>::empty();
    lemma_common_front(front, nothing, seq![y] + b, less);
    assert(front + nothing =~= front);
}

/// The first component in which two paths differ decides which comes first, and
/// a path comes before all paths that go on behind it.
pub proof fn law_first_difference_decides(
    a: Seq<u8>,
    b: Seq<u8>,
    front: Seq<PathPart<u8>>,
    x: PathPart<u8>,
    rest_a: Seq<PathPart<u8>>,
    y: PathPart<u8>,
    rest_b: Seq<PathPart<u8>>,
)
    requires
        components(b) == front + (seq![y] + rest_b),
    ensures
        components(a) == front + (seq![x] + rest_a) && part_order()(x, y) ==> path_less(a, b)
            && !path_less(b, a),
        components(a) == front ==> path_less(a, b) && !path_less(b, a),
{
    lemma_part_order_total();
    lemma_first_difference(front, x, rest_a, y, rest_b, part_order());
    lemma_path_order(a, b, a);
}

/// Names are ordered byte by byte: the first byte in which two names differ
/// decides, and a name comes before all names that go on behind it. The root
/// comes before `.`, that before `..`, and that before all names.
pub proof fn law_names_are_ordered_by_bytes(
    front: Seq<u8>,
    x: u8,
    rest_x: Seq<u8>,
    y: u8,
    rest_y: Seq<u8>,
)
    ensures
        ({
            let less = part_order();
            let longer = PathPart::Normal(front + (seq![y] + rest_y));
            &&& x < y ==> less(PathPart::Normal(front + (seq![x] + rest_x)), longer)
            &&& less(PathPart::Normal(front), longer)
            &&& less(PathPart::Root, PathPart::Current)
            &&& less(PathPart::Current, PathPart::Parent)
            &&& less(PathPart::Parent, PathPart::Normal(front))
        }),
{
    assert(strict_total(byte_order()));
    lemma_first_difference(front, x, rest_x, y, rest_y, byte_order());
}

/// `sorted` with `path` inserted behind everything that does not come after
/// it.
pub open spec fn insert_sorted(sorted: Seq<Seq<u8>>, path: Seq<u8>) -> Seq<Seq<u8>>
    decreases sorted.len(),
{
    if sorted.len() > 0 && path_less(path, sorted.last()) {
        insert_sorted(sorted.drop_last(), path).push(sorted.last())
    } else {
        sorted.push(path)
    }
}

/// `paths` in order; paths with the same components keep their places
/// relative to each other.
pub open spec fn sorted_paths(paths: Seq<Seq<u8>>) -> Seq<Seq<u8>>
    decreases paths.len(),
{
    if paths.len() == 0 {
        Seq::empty()
    } else {
        insert_sorted(sorted_paths(paths.drop_last()), paths.last())
    }
}

/// Whether no path comes before an earlier one.
pub open spec fn is_sorted(paths: Seq<Seq<u8>>) -> bool {
    forall|i: int, j: int| 0 <= i < j < paths.len() ==> !path_less(#[trigger] paths[j], #[trigger] paths[i])
}

proof fn lemma_insert_sorted(sorted: Seq<Seq<u8>>, path: Seq<u8>)
    requires
        is_sorted(sorted),
    ensures
        is_sorted(insert_sorted(sorted, path)),
        insert_sorted(sorted, path).to_multiset() == sorted.to_multiset().insert(path),
        forall|i: int|
            0 <= i < insert_sorted(sorted, path).len() ==> #[trigger] insert_sorted(sorted, path)[i]
                == path || sorted.contains(insert_sorted(sorted, path)[i]),
        insert_sorted(sorted, path).len() == sorted.len() + 1,
    decreases sorted.len(),
{
    broadcast use vstd::seq_lib::to_multiset_build;

    let result = insert_sorted(sorted, path);
    if sorted.len() > 0 && path_less(path, sorted.last()) {
        let before = sorted.drop_last();
        let inner = insert_sorted(before, path);
        assert(is_sorted(before)) by {
            assert forall|i: int, j: int| 0 <= i < j < before.len() implies !path_less(
                #[trigger] before[j],
                #[trigger] before[i],
            ) by {
                assert(before[j] == sorted[j] && before[i] == sorted[i]);
            }
        }
        lemma_insert_sorted(before, path);
        assert(sorted =~= before.push(sorted.last()));
        assert(result.to_multiset() =~= inner.to_multiset().insert(sorted.last()));
        assert(sorted.to_multiset() =~= before.to_multiset().insert(sorted.last()));
        assert(result.to_multiset() =~= sorted.to_multiset().insert(path));
        assert forall|i: int| 0 <= i < result.len() implies #[trigger] result[i] == path
            || sorted.contains(result[i]) by {
            if i < inner.len() {
                assert(result[i] == inner[i]);
                if inner[i] != path {
                    let k = choose|k: int| 0 <= k < before.len() && before[k] == inner[i];
                    assert(sorted[k] == inner[i]);
                }
            } else {
                assert(sorted[sorted.len() - 1] == result[i]);
            }
        }
        assert forall|i: int, j: int| 0 <= i < j < result.len() implies !path_less(
            #[trigger] result[j],
            #[trigger] result[i],
        ) by {
            if j < inner.len() {
                assert(result[j] == inner[j] && result[i] == inner[i]);
            } else {
                assert(result[j] == sorted.last());
                assert(result[i] == inner[i]);
                if inner[i] == path {
                    lemma_path_order(path, sorted.last(), path);
                } else {
                    let k = choose|k: int| 0 <= k < before.len() && before[k] == inner[i];
                    assert(sorted[k] == inner[i]);
                    assert(!path_less(sorted[sorted.len() - 1], sorted[k]));
                }
            }
        }
    } else {
        assert forall|i: int| 0 <= i < result.len() implies #[trigger] result[i] == path
            || sorted.contains(result[i]) by {
            if i < sorted.len() {
                assert(result[i] == sorted[i]);
            }
        }
        assert forall|i: int, j: int| 0 <= i < j < result.len() implies !path_less(
            #[trigger] result[j],
            #[trigger] result[i],
        ) by {
            assert(result[i] == sorted[i]);
            if j < sorted.len() {
                assert(result[j] == sorted[j]);
            } else {
                assert(result[j] == path);
                let last = sorted.last();
                if path_less(path, sorted[i]) {
                    assert(i < sorted.len() - 1 ==> !path_less(sorted[sorted.len() - 1], sorted[i]));
                    lemma_path_order(last, sorted[i], last);
                    lemma_path_order(path, sorted[i], last);
                    assert(components(sorted[i]) == components(last) || path_less(sorted[i], last));
                    assert(path_less(path, last));
                }
            }
        }
    }
}

/// Whether a path has the given components.
pub open spec fn has_components(parts: Seq<PathPart<u8>>) -> spec_fn(Seq<u8>) -> bool {
    |path: Seq<u8>| components(path) == parts
}

/// The paths of a list that have the given components, in their order.
pub open spec fn paths_with(paths: Seq<Seq<u8>>, parts: Seq<PathPart<u8>>) -> Seq<Seq<u8>> {
    paths.filter(has_components(parts))
}

proof fn lemma_insert_stable(sorted: Seq<Seq<u8>>, path: Seq<u8>, key: Seq<PathPart<u8>>)
    ensures
        paths_with(insert_sorted(sorted, path), key) == paths_with(sorted.push(path), key),
    decreases sorted.len(),
{
    reveal(Seq::filter);
    if sorted.len() > 0 && path_less(path, sorted.last()) {
        let before = sorted.drop_last();
        let inner = insert_sorted(before, path);
        lemma_insert_stable(before, path, key);
        lemma_path_order(path, path, path);
        assert(components(path) != components(sorted.last()));
        assert(inner.push(sorted.last()).drop_last() =~= inner);
        assert(before.push(path).drop_last() =~= before);
        assert(sorted.push(path).drop_last() =~= sorted);
        let same = has_components(key);
        assert(sorted.filter(same) == if same(sorted.last()) {
            before.filter(same).push(sorted.last())
        } else {
            before.filter(same)
        });
        assert(inner.filter(same) == if same(path) {
            before.filter(same).push(path)
        } else {
            before.filter(same)
        });
    }
}

/// Sorting keeps every path, puts them in order, and leaves paths with the
/// same components in the order in which they came.
pub proof fn lemma_sorted_paths(paths: Seq<Seq<u8>>)
    ensures
        sorted_paths(paths).to_multiset() == paths.to_multiset(),
        is_sorted(sorted_paths(paths)),
        forall|key: Seq<PathPart<u8>>| #[trigger]
            paths_with(sorted_paths(paths), key) == paths_with(paths, key),
    decreases paths.len(),
{
    broadcast use vstd::seq_lib::to_multiset_build;

    if paths.len() > 0 {
        let before = paths.drop_last();
        lemma_sorted_paths(before);
        lemma_insert_sorted(sorted_paths(before), paths.last());
        assert(paths =~= before.push(paths.last()));
    } else {
        assert(paths =~= Seq::empty());
    }
    assert forall|key: Seq<PathPart<u8>>| #[trigger]
        paths_with(sorted_paths(paths), key) == paths_with(paths, key) by {
        if paths.len() > 0 {
            let before = paths.drop_last();
            let sorted = sorted_paths(before);
            lemma_insert_stable(sorted, paths.last(), key);
            reveal(Seq::filter);
            assert(sorted.push(paths.last()).drop_last() =~= sorted);
            assert(paths_with(sorted, key) == paths_with(before, key));
        }
    }
}

/// One component of a path, held in memory.
#[derive(Debug)]
pub enum PathPartBuf {
    /// The root of an absolute path.
    Root,
    /// A leading `.`.
    Current,
    /// A `..`.
    Parent,
    /// A name.
    Normal(Vec<u8>),
}

impl View for PathPartBuf {
    type V = PathPart<u8>;

    open spec fn view(&self) -> PathPart<u8> {
        match *self {
            PathPartBuf::Root => PathPart::Root,
            PathPartBuf::Current => PathPart::Current,
            PathPartBuf::Parent => PathPart::Parent,
            PathPartBuf::Normal(name) => PathPart::Normal(name@),
        }
    }
}

/// The components that a list of parts stands for.
pub open spec fn part_models(parts: Seq<PathPartBuf>) -> Seq<PathPart<u8>> {
    parts.map_values(|part: PathPartBuf| part@)
}

/// The texts of a list of paths.
pub open spec fn path_models(paths: Seq<Vec<u8>>) -> Seq<Seq<u8>> {
    paths.map_values(|path: Vec<u8>| path@)
}

/// The components of a path.
pub fn path_components(path: &[u8]) -> (parts: Vec<PathPartBuf>)
    ensures
        part_models(parts@) == components(path@),
{
    let body: usize = if path.len() > 0 && path[0].separator() {
        1
    } else if path.len() > 0 && path[0].dot() && (path.len() == 1 || path[1].separator()) {
        1
    } else {
        0
    };
    assert(body == body_start(path@));
    let mut reversed: Vec<PathPartBuf> = Vec::new();
    let mut end: usize = path.len();
    assert(path@.take(end as int) =~= path@);
    assert(part_models(reversed@).reverse() =~= Seq::empty());
    while end > body
        invariant
            body <= end <= path.len(),
            body_parts(path@, body as int) == body_parts(path@.take(end as int), body as int)
                + part_models(reversed@).reverse(),
        decreases end,
    {
        let ghost now = path@.take(end as int);
        let mut start: usize = end;
        assert(now.take(start as int) =~= now);
        while start > body && !path[start - 1].separator()
            invariant
                body <= start <= end <= path.len(),
                now == path@.take(end as int),
                piece_start(now.take(start as int), body as int) == piece_start(now, body as int),
            decreases start,
        {
            assert(now.take(start as int).drop_last() =~= now.take(start - 1));
            start -= 1;
        }
        assert(start == piece_start(now, body as int));
        let piece = slice_subrange(path, start, end);
        assert(piece@ =~= last_piece(now, body as int));
        let next: usize = if start > body {
            start - 1
        } else {
            body
        };
        assert(path@.take(next as int) =~= before_piece(now, body as int));
        let ghost rest = body_parts(path@.take(next as int), body as int);
        let ghost before = part_models(reversed@);
        if piece.len() == 0 || (piece.len() == 1 && piece[0].dot()) {
            assert(is_skipped(piece@));
        } else {
            let parent = piece.len() == 2 && piece[0].dot() && piece[1].dot();
            assert(parent == is_parent(piece@));
            reversed.push(
                if parent {
                    PathPartBuf::Parent
                } else {
                    PathPartBuf::Normal(slice_to_vec(piece))
                },
            );
            assert(part_models(reversed@) =~= before.push(part_of(piece@)));
            assert(part_models(reversed@).reverse() =~= seq![part_of(piece@)] + before.reverse());
            assert(rest.push(part_of(piece@)) + before.reverse() =~= rest + part_models(
                reversed@,
            ).reverse());
        }
        end = next;
    }
    assert(body_parts(path@.take(end as int), body as int) =~= Seq::empty());
    let mut parts: Vec<PathPartBuf> = Vec::new();
    if body == 1 {
        parts.push(
            if path[0].separator() {
                PathPartBuf::Root
            } else {
                PathPartBuf::Current
            },
        );
    }
    assert(part_models(parts@) =~= leading_part(path@));
    let ghost tail = part_models(reversed@).reverse();
    while reversed.len() > 0
        invariant
            part_models(parts@) + part_models(reversed@).reverse() == leading_part(path@) + tail,
        decreases reversed.len(),
    {
        let ghost parts_before = part_models(parts@);
        let ghost reversed_before = part_models(reversed@);
        if let Some(part) = reversed.pop() {
            parts.push(part);
            assert(part_models(parts@) =~= parts_before.push(part@));
            assert(reversed_before =~= part_models(reversed@).push(part@));
            assert(reversed_before.reverse() =~= seq![part@] + part_models(reversed@).reverse());
            assert(parts_before + (seq![part@] + part_models(reversed@).reverse()) =~= part_models(
                parts@,
            ) + part_models(reversed@).reverse());
        }
    }
    assert(part_models(reversed@).reverse() =~= Seq::empty());
    assert(part_models(parts@) + Seq::<PathPart<u8>>::empty() =~= part_models(parts@));
    parts
}

/// Whether one name comes before another, byte by byte.
fn bytes_less(a: &[u8], b: &[u8]) -> (less: bool)
    ensures
        less == lex_less(a@, b@, byte_order()),
{
    let mut i: usize = 0;
    assert(a@.skip(0) =~= a@);
    assert(b@.skip(0) =~= b@);
    while i < a.len() && i < b.len()
        invariant
            i <= a.len(),
            i <= b.len(),
            lex_less(a@, b@, byte_order()) == lex_less(
                a@.skip(i as int),
                b@.skip(i as int),
                byte_order(),
            ),
        decreases a.len() - i,
    {
        assert(a@.skip(i as int).skip(1) =~= a@.skip(i + 1));
        assert(b@.skip(i as int).skip(1) =~= b@.skip(i + 1));
        if a[i] < b[i] {
            return true;
        }
        if b[i] < a[i] {
            return false;
        }
        i += 1;
    }
    i < b.len()
}

fn part_rank_of(part: &PathPartBuf) -> (rank: u8)
    ensures
        rank == part_rank(part@),
{
    match part {
        PathPartBuf::Root => 0,
        PathPartBuf::Current => 1,
        PathPartBuf::Parent => 2,
        PathPartBuf::Normal(_) => 3,
    }
}

fn part_less(a: &PathPartBuf, b: &PathPartBuf) -> (less: bool)
    ensures
        less == part_order()(a@, b@),
{
    match (a, b) {
        (PathPartBuf::Normal(a), PathPartBuf::Normal(b)) => bytes_less(a.as_slice(), b.as_slice()),
        _ => part_rank_of(a) < part_rank_of(b),
    }
}

/// Whether the path with the components `a` comes before the one with the
/// components `b`.
pub fn parts_less(a: &Vec<PathPartBuf>, b: &Vec<PathPartBuf>) -> (less: bool)
    ensures
        less == lex_less(part_models(a@), part_models(b@), part_order()),
{
    let ghost x = part_models(a@);
    let ghost y = part_models(b@);
    let mut i: usize = 0;
    assert(x.skip(0) =~= x);
    assert(y.skip(0) =~= y);
    while i < a.len() && i < b.len()
        invariant
            i <= a.len(),
            i <= b.len(),
            x == part_models(a@),
            y == part_models(b@),
            lex_less(x, y, part_order()) == lex_less(
                x.skip(i as int),
                y.skip(i as int),
                part_order(),
            ),
        decreases a.len() - i,
    {
        assert(x.skip(i as int).skip(1) =~= x.skip(i + 1));
        assert(y.skip(i as int).skip(1) =~= y.skip(i + 1));
        if part_less(&a[i], &b[i]) {
            return true;
        }
        if part_less(&b[i], &a[i]) {
            return false;
        }
        i += 1;
    }
    i < b.len()
}

/// Sorts paths by their components.
pub fn sort_paths(paths: &Vec<Vec<u8>>) -> (sorted: Vec<Vec<u8>>)
    ensures
        path_models(sorted@) == sorted_paths(path_models(paths@)),
{
    let ghost all = path_models(paths@);
    let mut sorted: Vec<Vec<u8>> = Vec::new();
    let mut keys: Vec<Vec<PathPartBuf>> = Vec::new();
    let mut i: usize = 0;
    assert(all.take(0) =~= Seq::empty());
    assert(path_models(sorted@) =~= Seq::empty());
    while i < paths.len()
        invariant
            i <= paths.len(),
            all == path_models(paths@),
            path_models(sorted@) == sorted_paths(all.take(i as int)),
            keys@.len() == sorted@.len(),
            forall|j: int|
                0 <= j < sorted@.len() ==> part_models((#[trigger] keys@[j])@) == components(
                    sorted@[j]@,
                ),
        decreases paths.len() - i,
    {
        let ghost now = path_models(sorted@);
        let ghost path = all[i as int];
        assert(all.take(i + 1).drop_last() =~= all.take(i as int));
        let key = path_components(paths[i].as_slice());
        let mut at: usize = sorted.len();
        assert(now.take(at as int) =~= now);
        assert(insert_sorted(now, path) + now.skip(at as int) =~= insert_sorted(now, path));
        while at > 0 && parts_less(&key, &keys[at - 1])
            invariant
                at <= sorted.len(),
                now == path_models(sorted@),
                part_models(key@) == components(path),
                keys@.len() == sorted@.len(),
                forall|j: int|
                    0 <= j < sorted@.len() ==> part_models((#[trigger] keys@[j])@) == components(
                        sorted@[j]@,
                    ),
                insert_sorted(now, path) == insert_sorted(now.take(at as int), path) + now.skip(
                    at as int,
                ),
            decreases at,
        {
            assert(now.take(at as int).drop_last() =~= now.take(at - 1));
            assert(now.take(at as int).last() == sorted@[at - 1]@);
            assert(insert_sorted(now.take(at - 1), path).push(now[at - 1]) + now.skip(at as int)
                =~= insert_sorted(now.take(at - 1), path) + now.skip(at - 1));
            at -= 1;
        }
        assert(at > 0 ==> now.take(at as int).last() == sorted@[at - 1]@);
        assert(insert_sorted(now.take(at as int), path) == now.take(at as int).push(path));
        let ghost sorted_before = sorted@;
        let ghost keys_before = keys@;
        let copy = slice_to_vec(paths[i].as_slice());
        sorted.insert(at, copy);
        keys.insert(at, key);
        assert(path_models(sorted@) =~= now.take(at as int).push(path) + now.skip(at as int));
        assert forall|j: int| 0 <= j < sorted@.len() implies part_models((#[trigger] keys@[j])@)
            == components(sorted@[j]@) by {
            if j < at {
                assert(keys@[j] == keys_before[j] && sorted@[j] == sorted_before[j]);
            } else if j > at {
                assert(keys@[j] == keys_before[j - 1] && sorted@[j] == sorted_before[j - 1]);
            }
        }
        i += 1;
    }
    assert(all.take(all.len() as int) =~= all);
    sorted
}

} // verus!
