//! Paths as text: their segments, their depth and their canonical key.
//!
//! A path is cut into segments at its `/` separators. A separator in front is the
//! root, a segment of its own. Repeated and trailing separators produce nothing, and
//! neither does a `.` between separators, unless the path starts with it.

use vstd::prelude::*;
use vstd::std_specs::iter::IteratorSpec;
use vstd::string::*;

verus! {

/// The runs of a path: its maximal stretches of characters other than `/`, in order.
pub open spec fn runs(path: Seq<char>) -> Seq<Seq<char>>
    decreases path.len(),
{
    if path.len() == 0 {
        Seq::empty()
    } else {
        let before = runs(path.drop_last());
        let c = path.last();
        if c == '/' {
            before
        } else if path.len() >= 2 && path[path.len() - 2] != '/' {
            before.drop_last().push(before.last().push(c))
        } else {
            before.push(seq![c])
        }
    }
}

/// The path starts at the root: its first character is a separator.
pub open spec fn is_rooted(path: Seq<char>) -> bool {
    path.len() > 0 && path[0] == '/'
}

/// The part is the root segment, `/`.
pub open spec fn is_root(part: Seq<char>) -> bool {
    part.len() == 1 && part[0] == '/'
}

/// The part is `.`, which names the directory it stands in.
pub open spec fn is_dot(part: Seq<char>) -> bool {
    part.len() == 1 && part[0] == '.'
}

/// The segments that the runs of a path stand for: the root first, if the path is
/// rooted, then every run but those that are `.`; a `.` that starts a path without
/// a root stays.
pub open spec fn kept(runs: Seq<Seq<char>>, rooted: bool) -> Seq<Seq<char>>
    decreases runs.len(),
{
    if runs.len() == 0 {
        if rooted {
            seq![seq!['/']]
        } else {
            Seq::empty()
        }
    } else {
        let before = kept(runs.drop_last(), rooted);
        if is_dot(runs.last()) && (rooted || runs.len() > 1) {
            before
        } else {
            before.push(runs.last())
        }
    }
}

/// The segments of a path, in order.
pub open spec fn segments(path: Seq<char>) -> Seq<Seq<char>> {
    kept(runs(path), is_rooted(path))
}

/// The parts joined by single `/` separators, with none in front and none behind.
pub open spec fn join(parts: Seq<Seq<char>>) -> Seq<char>
    decreases parts.len(),
{
    if parts.len() == 0 {
        Seq::empty()
    } else if parts.len() == 1 {
        parts[0]
    } else {
        join(parts.drop_last()) + seq!['/'] + parts.last()
    }
}

/// The number of segments of a path.
pub open spec fn depth_of(path: Seq<char>) -> nat {
    segments(path).len()
}

/// The canonical key of a path: its segments joined by `/`.
pub open spec fn key_of(path: Seq<char>) -> Seq<char> {
    join(segments(path))
}

/// The path lies in a directory: it has a segment, and its last segment is not the
/// root.
pub open spec fn has_parent(path: Seq<char>) -> bool {
    segments(path).len() >= 1 && !is_root(segments(path).last())
}

/// The canonical key of the directory that holds `path`: all segments but the last,
/// joined by `/`. Meaningful for paths that lie in a directory.
pub open spec fn parent_key_of(path: Seq<char>) -> Seq<char> {
    join(segments(path).drop_last())
}

/// Lexicographic order of two texts by the code points of their characters;
/// a proper prefix comes first.
pub open spec fn text_le(a: Seq<char>, b: Seq<char>) -> bool
    decreases a.len(),
{
    if a.len() == 0 {
        true
    } else if b.len() == 0 {
        false
    } else if a[0] != b[0] {
        (a[0] as u32) < (b[0] as u32)
    } else {
        text_le(a.drop_first(), b.drop_first())
    }
}

/// A part that can stand between separators: not empty, and free of `/`.
pub open spec fn is_run(part: Seq<char>) -> bool {
    &&& part.len() > 0
    &&& forall|i: int| 0 <= i < part.len() ==> part[i] != '/'
}

/// Every part is a run.
pub open spec fn all_runs(parts: Seq<Seq<char>>) -> bool {
    forall|k: int| 0 <= k < parts.len() ==> is_run(#[trigger] parts[k])
}

/// The parts can be the segments of a path: the first is the root or a run, and
/// every other is a run other than `.`.
pub open spec fn are_segments(parts: Seq<Seq<char>>) -> bool {
    &&& parts.len() > 0 ==> is_root(parts[0]) || is_run(parts[0])
    &&& forall|k: int| 1 <= k < parts.len() ==> is_run(#[trigger] parts[k]) && !is_dot(parts[k])
}

/// The half-open character ranges `bounds` cut exactly `parts` out of `path`.
pub open spec fn bounds_cut(
    path: Seq<char>,
    bounds: Seq<(usize, usize)>,
    parts: Seq<Seq<char>>,
) -> bool {
    &&& bounds.len() == parts.len()
    &&& forall|k: int|
        0 <= k < bounds.len() ==> {
            &&& (#[trigger] bounds[k]).0 <= bounds[k].1 <= path.len()
            &&& path.subrange(bounds[k].0 as int, bounds[k].1 as int) == parts[k]
        }
}

proof fn lemma_runs_step(path: Seq<char>, i: int)
    requires
        0 <= i < path.len(),
    ensures
        path[i] == '/' ==> runs(path.take(i + 1)) == runs(path.take(i)),
        path[i] != '/' && i > 0 && path[i - 1] != '/' ==> runs(path.take(i + 1)) == runs(
            path.take(i),
        ).drop_last().push(runs(path.take(i)).last().push(path[i])),
        path[i] != '/' && (i == 0 || path[i - 1] == '/') ==> runs(path.take(i + 1)) == runs(
            path.take(i),
        ).push(seq![path[i]]),
{
    let p = path.take(i + 1);
    assert(p.drop_last() =~= path.take(i));
    assert(p.last() == path[i]);
    if i > 0 {
        assert(p[p.len() - 2] == path[i - 1]);
    }
}

/// One more run, closed behind the others, adds itself to the segments unless it is
/// a `.` that is dropped.
proof fn lemma_kept_step(closed: Seq<Seq<char>>, run: Seq<char>, rooted: bool)
    ensures
        is_dot(run) && (rooted || closed.len() > 0) ==> kept(closed.push(run), rooted) == kept(
            closed,
            rooted,
        ),
        !(is_dot(run) && (rooted || closed.len() > 0)) ==> kept(closed.push(run), rooted) == kept(
            closed,
            rooted,
        ).push(run),
{
    assert(closed.push(run).drop_last() =~= closed);
}

/// Where the segments of a path lie in it, as half-open ranges of character positions.
fn segment_bounds(path: &str) -> (bounds: Vec<(usize, usize)>)
    ensures
        bounds_cut(path@, bounds@, segments(path@)),
{
    broadcast use group_string_axioms;

    let n = path.unicode_len();
    let mut bounds: Vec<(usize, usize)> = Vec::new();
    let ghost mut closed: Seq<Seq<char>> = Seq::empty();
    let mut it = path.chars();
    let mut i: usize = 0;
    let mut start: usize = 0;
    let mut inside = false;
    let mut rooted = false;
    let mut dot = false;
    let mut first = true;
    assert(path@.take(0) =~= Seq::<char>::empty());
    assert(path@.skip(0) =~= path@);
    while i < n
        invariant
            n == path@.len(),
            i <= n,
            it.remaining() == path@.skip(i as int),
            it.obeys_prophetic_iter_laws(),
            rooted <==> (i > 0 && is_rooted(path@)),
            first <==> closed.len() == 0,
            bounds_cut(path@, bounds@, kept(closed, rooted)),
            inside <==> (i > 0 && path@[i - 1] != '/'),
            inside ==> start < i && runs(path@.take(i as int)) == closed.push(
                path@.subrange(start as int, i as int),
            ),
            inside ==> (dot <==> is_dot(path@.subrange(start as int, i as int))),
            !inside ==> runs(path@.take(i as int)) == closed,
        decreases n - i,
    {
        let ghost before = it;
        let next = it.next();
        assert(next_post(&before, &it, next));
        assert(next == Some(path@[i as int]));
        assert(it.remaining() =~= path@.skip(i + 1));
        proof {
            lemma_runs_step(path@, i as int);
        }
        let c = next.unwrap();
        if c == '/' {
            if i == 0 {
                rooted = true;
                bounds.push((0, 1));
                assert(path@.subrange(0, 1) =~= seq!['/']);
            }
            if inside {
                proof {
                    lemma_kept_step(closed, path@.subrange(start as int, i as int), rooted);
                    closed = closed.push(path@.subrange(start as int, i as int));
                }
                if !(dot && (rooted || !first)) {
                    bounds.push((start, i));
                }
                first = false;
                inside = false;
            }
        } else {
            if inside {
                assert(path@.subrange(start as int, i as int).push(path@[i as int])
                    =~= path@.subrange(start as int, i + 1));
                assert(closed.push(path@.subrange(start as int, i as int)).drop_last() =~= closed);
                dot = false;
            } else {
                start = i;
                inside = true;
                dot = c == '.';
                assert(seq![path@[i as int]] =~= path@.subrange(i as int, i + 1));
            }
        }
        i = i + 1;
    }
    assert(path@.take(n as int) =~= path@);
    if inside {
        proof {
            lemma_kept_step(closed, path@.subrange(start as int, n as int), rooted);
            closed = closed.push(path@.subrange(start as int, n as int));
        }
        if !(dot && (rooted || !first)) {
            bounds.push((start, n));
        }
    }
    bounds
}

/// The first `count` of the ranges, cut out of `path` and joined by `/`.
fn join_ranges(path: &str, bounds: &Vec<(usize, usize)>, count: usize) -> (text: String)
    requires
        count <= bounds@.len(),
        bounds_cut(path@, bounds@, segments(path@)),
    ensures
        text@ == join(segments(path@).take(count as int)),
{
    let ghost parts = segments(path@);
    let mut text = String::new();
    let mut k: usize = 0;
    assert(parts.take(0) =~= Seq::<Seq<char>>::empty());
    while k < count
        invariant
            k <= count <= bounds@.len(),
            parts == segments(path@),
            bounds_cut(path@, bounds@, parts),
            text@ == join(parts.take(k as int)),
        decreases count - k,
    {
        let (from, to) = bounds[k];
        let piece = path.substring_char(from, to);
        assert(parts.take(k + 1).drop_last() =~= parts.take(k as int));
        assert(parts.take(k + 1).last() == parts[k as int]);
        if k > 0 {
            text.append("/");
            proof {
                reveal_strlit("/");
                assert("/"@ =~= seq!['/']);
            }
        }
        text.append(piece);
        assert(parts.take(1) =~= seq![parts[0]]);
        k = k + 1;
    }
    text
}

/// The number of segments of `path`; the root counts as one.
pub fn path_depth(path: &str) -> (depth: usize)
    ensures
        depth == depth_of(path@),
{
    segment_bounds(path).len()
}

/// The canonical key of `path`: its segments joined by `/`. Two spellings of one
/// path that differ only in repeated or trailing separators, or in `.` segments
/// behind the first, share a key; a path with a root and one without never do.
pub fn path_key(path: &str) -> (key: String)
    ensures
        key@ == key_of(path@),
{
    let bounds = segment_bounds(path);
    let key = join_ranges(path, &bounds, bounds.len());
    assert(segments(path@).take(bounds@.len() as int) =~= segments(path@));
    key
}

/// The canonical key of the directory that holds `path`, or `None` for a path that
/// lies in no directory: the empty path, and the root.
pub fn parent_key(path: &str) -> (key: Option<String>)
    ensures
        key is Some <==> has_parent(path@),
        key is Some ==> key->0@ == parent_key_of(path@),
{
    let bounds = segment_bounds(path);
    let count = bounds.len();
    proof {
        lemma_segments_are_segments(path@);
    }
    if count == 0 {
        None
    } else if count == 1 && path.get_char(bounds[0].0) == '/' {
        assert(path@.subrange(bounds[0].0 as int, bounds[0].1 as int)[0] == '/');
        None
    } else {
        assert(!is_root(segments(path@).last())) by {
            let last = segments(path@).last();
            if count == 1 {
                assert(path@.subrange(bounds[0].0 as int, bounds[0].1 as int)[0] != '/');
            } else {
                assert(is_run(segments(path@)[count - 1]));
            }
        }
        let key = join_ranges(path, &bounds, count - 1);
        assert(segments(path@).take(count - 1) =~= segments(path@).drop_last());
        Some(key)
    }
}

/// A path that ends in a character other than `/` has a run.
proof fn lemma_open_run(path: Seq<char>)
    requires
        path.len() > 0,
        path.last() != '/',
    ensures
        runs(path).len() > 0,
{
}

/// Every run of a path is a run: not empty, and free of `/`.
pub proof fn lemma_runs_are_runs(path: Seq<char>)
    ensures
        all_runs(runs(path)),
    decreases path.len(),
{
    if path.len() > 0 {
        let before = runs(path.drop_last());
        let c = path.last();
        lemma_runs_are_runs(path.drop_last());
        if c == '/' {
        } else if path.len() >= 2 && path[path.len() - 2] != '/' {
            lemma_open_run(path.drop_last());
            let grown = before.last().push(c);
            assert(is_run(before.last()));
            assert(is_run(grown));
            assert forall|k: int| 0 <= k < runs(path).len() implies is_run(
                #[trigger] runs(path)[k],
            ) by {
                if k < before.len() - 1 {
                    assert(runs(path)[k] == before[k]);
                }
            }
        } else {
            assert(is_run(seq![c]));
            assert forall|k: int| 0 <= k < runs(path).len() implies is_run(
                #[trigger] runs(path)[k],
            ) by {
                if k < before.len() {
                    assert(runs(path)[k] == before[k]);
                }
            }
        }
    }
}

/// What is kept of a list of runs can be the segments of a path, and starts with
/// the root exactly when the path is rooted.
proof fn lemma_kept_are_segments(parts: Seq<Seq<char>>, rooted: bool)
    requires
        all_runs(parts),
    ensures
        are_segments(kept(parts, rooted)),
        rooted ==> kept(parts, rooted).len() > 0 && is_root(kept(parts, rooted)[0]),
        !rooted && parts.len() > 0 ==> kept(parts, rooted).len() > 0 && kept(parts, rooted)[0]
            == parts[0],
        !rooted && parts.len() == 0 ==> kept(parts, rooted).len() == 0,
    decreases parts.len(),
{
    if parts.len() > 0 {
        let fewer = parts.drop_last();
        assert forall|k: int| 0 <= k < fewer.len() implies is_run(#[trigger] fewer[k]) by {
            assert(fewer[k] == parts[k]);
        }
        lemma_kept_are_segments(fewer, rooted);
        assert(is_run(parts[parts.len() - 1]));
        if !rooted && parts.len() > 1 {
            assert(fewer[0] == parts[0]);
        }
    }
}

/// The segments of a path can be the segments of a path; the first of them is the
/// root exactly when the path is rooted.
pub proof fn lemma_segments_are_segments(path: Seq<char>)
    ensures
        are_segments(segments(path)),
        is_rooted(path) <==> segments(path).len() > 0 && is_root(segments(path)[0]),
{
    lemma_runs_are_runs(path);
    lemma_kept_are_segments(runs(path), is_rooted(path));
    if !is_rooted(path) && runs(path).len() > 0 {
        assert(is_run(runs(path)[0]));
    }
}

/// Of runs that hold no `.` behind the first, and none at all behind a root, all
/// are kept.
proof fn lemma_kept_keeps_all(parts: Seq<Seq<char>>, rooted: bool)
    requires
        forall|k: int| 0 <= k < parts.len() && is_dot(#[trigger] parts[k]) ==> k == 0 && !rooted,
    ensures
        rooted ==> kept(parts, rooted) == seq![seq!['/']] + parts,
        !rooted ==> kept(parts, rooted) == parts,
    decreases parts.len(),
{
    if parts.len() == 0 {
        assert(seq![seq!['/']] + parts =~= seq![seq!['/']]);
    } else {
        let fewer = parts.drop_last();
        assert forall|k: int| 0 <= k < fewer.len() && is_dot(#[trigger] fewer[k]) implies k == 0
            && !rooted by {
            assert(fewer[k] == parts[k]);
        }
        lemma_kept_keeps_all(fewer, rooted);
        assert(is_dot(parts[parts.len() - 1]) ==> parts.len() == 1 && !rooted);
        assert(fewer.push(parts.last()) =~= parts);
        assert((seq![seq!['/']] + fewer).push(parts.last()) =~= seq![seq!['/']] + parts);
    }
}

/// Behind a separator, or at the start, a run written out adds itself to the runs.
proof fn lemma_runs_append(front: Seq<char>, part: Seq<char>)
    requires
        front.len() == 0 || front.last() == '/',
        is_run(part),
    ensures
        runs(front + part) == runs(front).push(part),
    decreases part.len(),
{
    let whole = front + part;
    let c = part.last();
    assert(whole.last() == c);
    assert(whole.drop_last() =~= front + part.drop_last());
    if part.len() == 1 {
        assert(part.drop_last() =~= Seq::<char>::empty());
        assert(front + part.drop_last() =~= front);
        assert(part =~= seq![c]);
        if whole.len() >= 2 {
            assert(whole[whole.len() - 2] == front.last());
        }
    } else {
        let shorter = part.drop_last();
        assert(is_run(shorter));
        lemma_runs_append(front, shorter);
        assert(whole[whole.len() - 2] == shorter.last());
        assert(runs(front).push(shorter).drop_last() =~= runs(front));
        assert(shorter.push(c) =~= part);
    }
}

/// Fewer of the segments of a path can be the segments of a path too.
proof fn lemma_fewer_segments(parts: Seq<Seq<char>>)
    requires
        are_segments(parts),
        parts.len() > 0,
    ensures
        are_segments(parts.drop_last()),
{
    let fewer = parts.drop_last();
    if fewer.len() > 0 {
        assert(fewer[0] == parts[0]);
    }
    assert forall|k: int| 1 <= k < fewer.len() implies is_run(#[trigger] fewer[k]) && !is_dot(
        fewer[k],
    ) by {
        assert(fewer[k] == parts[k]);
    }
}

/// The text of joined segments starts as the first of them does, and its runs are
/// the segments but the root.
proof fn lemma_runs_of_join(parts: Seq<Seq<char>>)
    requires
        are_segments(parts),
        parts.len() > 0,
    ensures
        join(parts).len() > 0,
        join(parts)[0] == parts[0][0],
        is_root(parts[0]) ==> runs(join(parts)) == parts.drop_first(),
        !is_root(parts[0]) ==> runs(join(parts)) == parts,
    decreases parts.len(),
{
    if parts.len() == 1 {
        if is_root(parts[0]) {
            assert(parts[0].last() == '/');
            assert(parts[0].drop_last() =~= Seq::<char>::empty());
            assert(runs(parts[0]) == runs(parts[0].drop_last()));
            assert(runs(parts[0].drop_last()).len() == 0);
            assert(runs(parts[0]) =~= parts.drop_first());
        } else {
            lemma_runs_append(Seq::empty(), parts[0]);
            assert(Seq::<char>::empty() + parts[0] =~= parts[0]);
            assert(Seq::<Seq<char>>::empty().push(parts[0]) =~= parts);
        }
    } else {
        let init = parts.drop_last();
        lemma_fewer_segments(parts);
        lemma_runs_of_join(init);
        assert(init[0] == parts[0]);
        let front = join(init) + seq!['/'];
        assert(front.drop_last() =~= join(init));
        assert(runs(front) == runs(join(init)));
        assert(is_run(parts[parts.len() - 1]));
        lemma_runs_append(front, parts.last());
        if is_root(parts[0]) {
            assert(init.drop_first().push(parts.last()) =~= parts.drop_first());
        } else {
            assert(init.push(parts.last()) =~= parts);
        }
    }
}

/// Joining segments and taking the segments of the result gives them back.
pub proof fn lemma_segments_of_join(parts: Seq<Seq<char>>)
    requires
        are_segments(parts),
    ensures
        segments(join(parts)) == parts,
{
    if parts.len() == 0 {
        assert(segments(join(parts)) =~= parts);
    } else {
        lemma_runs_of_join(parts);
        if is_root(parts[0]) {
            let rest = parts.drop_first();
            assert forall|k: int| 0 <= k < rest.len() implies !is_dot(#[trigger] rest[k]) by {
                assert(rest[k] == parts[k + 1]);
            }
            lemma_kept_keeps_all(rest, true);
            assert(parts[0] =~= seq!['/']);
            assert(seq![seq!['/']] + rest =~= parts);
        } else {
            assert(is_run(parts[0]));
            lemma_kept_keeps_all(parts, false);
        }
    }
}

/// Two lists of segments with the same joined text are the same list.
pub proof fn lemma_join_is_injective(a: Seq<Seq<char>>, b: Seq<Seq<char>>)
    requires
        are_segments(a),
        are_segments(b),
        join(a) == join(b),
    ensures
        a == b,
{
    lemma_segments_of_join(a);
    lemma_segments_of_join(b);
}

/// A path whose key is the parent key of another lies exactly one level above it.
pub proof fn lemma_parent_is_one_level_up(parent: Seq<char>, child: Seq<char>)
    requires
        has_parent(child),
        key_of(parent) == parent_key_of(child),
    ensures
        segments(parent) == segments(child).drop_last(),
        depth_of(parent) + 1 == depth_of(child),
{
    lemma_segments_are_segments(parent);
    lemma_segments_are_segments(child);
    lemma_fewer_segments(segments(child));
    lemma_join_is_injective(segments(parent), segments(child).drop_last());
}

/// A key is canonical: it is its own key, and as deep as the path it was made of.
pub proof fn lemma_key_is_canonical(path: Seq<char>)
    ensures
        key_of(key_of(path)) == key_of(path),
        depth_of(key_of(path)) == depth_of(path),
        segments(key_of(path)) == segments(path),
{
    lemma_segments_are_segments(path);
    lemma_segments_of_join(segments(path));
}

} // verus!
