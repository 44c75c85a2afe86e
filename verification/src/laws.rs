//! Laws of the search, stated and proved against the traversal model.

use vstd::prelude::*;
use crate::matching::{contains_substring, lemma_empty_needle_matches};
use crate::traversal::{
    all_unvisited, emits, lemma_unvisited_count_update, spec_search, stack_ok, unvisited_count,
    walk, FsModel,
};

verus! {

/// A request without a root yields the empty result, whatever the query
/// and whatever the tree holds.
pub proof fn lemma_no_root_empty(fs: FsModel, needle: Seq<char>)
    ensures
        spec_search(fs, None, needle) == Seq::<Seq<char>>::empty(),
{
}

/// Searching twice with identical arguments on an unchanged tree yields
/// the same paths in the same order: the result is a function of the
/// model, the root and the query alone, and `search` returns exactly it.
pub proof fn lemma_search_repeatable(
    fs: FsModel,
    root: Option<usize>,
    needle: Seq<char>,
    r1: Seq<Seq<char>>,
    r2: Seq<Seq<char>>,
)
    requires
        r1 == spec_search(fs, root, needle),
        r2 == spec_search(fs, root, needle),
    ensures
        r1 == r2,
{
}

/// A map with nothing marked has as many unvisited nodes as it is long.
proof fn lemma_unvisited_count_all(n: nat)
    ensures
        unvisited_count(all_unvisited(n)) == n,
    decreases n,
{
    if n > 0 {
        assert(all_unvisited(n).drop_last() =~= all_unvisited((n - 1) as nat));
        lemma_unvisited_count_all((n - 1) as nat);
    }
}

/// Every path a walk yields contains the query as a substring.
pub proof fn lemma_walk_matches(fs: FsModel, visited: Seq<bool>, stack: Seq<usize>, needle: Seq<char>)
    requires
        fs.wf(),
        stack_ok(fs, stack),
        visited.len() == fs.entries@.len(),
    ensures
        forall|k: int|
            0 <= k < walk(fs, visited, stack, needle).len() ==> contains_substring(
                #[trigger] walk(fs, visited, stack, needle)[k],
                needle,
            ),
    decreases unvisited_count(visited), stack.len(),
{
    if stack.len() > 0 {
        let id = stack.last();
        let rest = stack.drop_last();
        if visited[id as int] {
            lemma_walk_matches(fs, visited, rest, needle);
            assert forall|k: int|
                0 <= k < walk(fs, visited, stack, needle).len() implies contains_substring(
                #[trigger] walk(fs, visited, stack, needle)[k],
                needle,
            ) by {
                assert(walk(fs, visited, stack, needle)[k] == walk(fs, visited, rest, needle)[k]);
            }
        } else {
            let marked = visited.update(id as int, true);
            let e = fs.entries@[id as int];
            let next = if e.resolvable && e.is_dir {
                rest + e.children@
            } else {
                rest
            };
            assert(stack_ok(fs, next)) by {
                assert(forall|b: int|
                    0 <= b < e.children@.len() ==> (#[trigger] e.children@[b])
                        < fs.entries@.len());
            }
            lemma_unvisited_count_update(visited, id as int);
            lemma_walk_matches(fs, marked, next, needle);
            let tail = walk(fs, marked, next, needle);
            let head = if emits(e, needle) {
                seq![e.path@]
            } else {
                Seq::<Seq<char>>::empty()
            };
            assert(walk(fs, visited, stack, needle) == head + tail);
            assert forall|k: int|
                0 <= k < walk(fs, visited, stack, needle).len() implies contains_substring(
                #[trigger] walk(fs, visited, stack, needle)[k],
                needle,
            ) by {
                assert(walk(fs, visited, stack, needle)[k] == (head + tail)[k]);
                if k < head.len() {
                    assert((head + tail)[k] == e.path@);
                } else {
                    assert((head + tail)[k] == tail[k - head.len()]);
                }
            }
        }
    }
}

/// Substring correctness: every path the search returns contains the
/// query as a literal substring; a path lacking it is never returned,
/// because the result holds exactly the emitted paths and a path is
/// emitted only when it contains the query.
pub proof fn lemma_search_matches(fs: FsModel, root: Option<usize>, needle: Seq<char>)
    requires
        fs.wf(),
        root matches Some(id) ==> id < fs.entries@.len(),
    ensures
        forall|k: int|
            0 <= k < spec_search(fs, root, needle).len() ==> contains_substring(
                #[trigger] spec_search(fs, root, needle)[k],
                needle,
            ),
{
    match root {
        Some(id) => {
            lemma_walk_matches(fs, all_unvisited(fs.entries@.len()), seq![id], needle);
        },
        None => {},
    }
}

/// Cycle safety, the bounded half: a walk yields at most one path per
/// node it has not yet visited, so the result is finite even when the
/// listings form a cycle. (Termination itself is the walk's decreasing
/// measure, which Verus checks at its definition and at the search loop.)
pub proof fn lemma_walk_bounded(fs: FsModel, visited: Seq<bool>, stack: Seq<usize>, needle: Seq<char>)
    requires
        fs.wf(),
        stack_ok(fs, stack),
        visited.len() == fs.entries@.len(),
    ensures
        walk(fs, visited, stack, needle).len() <= unvisited_count(visited),
    decreases unvisited_count(visited), stack.len(),
{
    if stack.len() > 0 {
        let id = stack.last();
        let rest = stack.drop_last();
        if visited[id as int] {
            lemma_walk_bounded(fs, visited, rest, needle);
        } else {
            let marked = visited.update(id as int, true);
            let e = fs.entries@[id as int];
            let next = if e.resolvable && e.is_dir {
                rest + e.children@
            } else {
                rest
            };
            assert(stack_ok(fs, next)) by {
                assert(forall|b: int|
                    0 <= b < e.children@.len() ==> (#[trigger] e.children@[b])
                        < fs.entries@.len());
            }
            lemma_unvisited_count_update(visited, id as int);
            lemma_walk_bounded(fs, marked, next, needle);
        }
    }
}

/// A search never returns more paths than the tree has nodes.
pub proof fn lemma_search_bounded(fs: FsModel, root: Option<usize>, needle: Seq<char>)
    requires
        fs.wf(),
        root matches Some(id) ==> id < fs.entries@.len(),
    ensures
        spec_search(fs, root, needle).len() <= fs.entries@.len(),
{
    match root {
        Some(id) => {
            lemma_unvisited_count_all(fs.entries@.len());
            lemma_walk_bounded(fs, all_unvisited(fs.entries@.len()), seq![id], needle);
        },
        None => {},
    }
}

/// With an empty query every emitted path matches, so the search keeps
/// the canonical path of every node it visits that still resolves and has
/// a non-empty path.
pub proof fn lemma_empty_query_emits(fs: FsModel, id: int)
    requires
        0 <= id < fs.entries@.len(),
        fs.entries@[id].resolvable,
        fs.entries@[id].path@.len() > 0,
    ensures
        emits(fs.entries@[id], Seq::<char>::empty()),
{
    lemma_empty_needle_matches(fs.entries@[id].path@);
}

/// One observation step: the listing of `a`, a directory that still
/// resolves, yields node `b`.
pub open spec fn lists(fs: FsModel, a: usize, b: usize) -> bool {
    &&& a < fs.entries@.len()
    &&& fs.entries@[a as int].resolvable
    &&& fs.entries@[a as int].is_dir
    &&& fs.entries@[a as int].children@.contains(b)
}

/// `p` is a chain of listings leading from `from` to `to`.
pub open spec fn lists_chain(fs: FsModel, p: Seq<usize>, from: usize, to: usize) -> bool {
    &&& p.len() >= 1
    &&& p.first() == from
    &&& p.last() == to
    &&& forall|k: int| 0 <= k < p.len() - 1 ==> lists(fs, #[trigger] p[k], p[k + 1])
}

/// `id` can be found from `root` by following directory listings.
pub open spec fn reachable(fs: FsModel, root: usize, id: usize) -> bool {
    exists|p: Seq<usize>| lists_chain(fs, p, root, id)
}

/// The visited map a walk leaves behind.
pub open spec fn marks(fs: FsModel, visited: Seq<bool>, stack: Seq<usize>) -> Seq<bool>
    recommends
        fs.wf(),
        stack_ok(fs, stack),
        visited.len() == fs.entries@.len(),
    decreases unvisited_count(visited), stack.len(),
        when fs.wf() && stack_ok(fs, stack) && visited.len() == fs.entries@.len()
        via marks_decreases
{
    if stack.len() == 0 {
        visited
    } else {
        let id = stack.last();
        let rest = stack.drop_last();
        if visited[id as int] {
            marks(fs, visited, rest)
        } else {
            let marked = visited.update(id as int, true);
            let e = fs.entries@[id as int];
            let next = if e.resolvable && e.is_dir {
                rest + e.children@
            } else {
                rest
            };
            marks(fs, marked, next)
        }
    }
}

#[via_fn]
proof fn marks_decreases(fs: FsModel, visited: Seq<bool>, stack: Seq<usize>) {
    if stack.len() > 0 {
        let id = stack.last();
        let rest = stack.drop_last();
        if !visited[id as int] {
            lemma_unvisited_count_update(visited, id as int);
            let e = fs.entries@[id as int];
            if e.resolvable && e.is_dir {
                assert(stack_ok(fs, rest + e.children@)) by {
                    assert(forall|b: int|
                        0 <= b < e.children@.len() ==> (#[trigger] e.children@[b])
                            < fs.entries@.len());
                }
            }
        }
    }
}

/// What one walk step pushes stays inside the model.
proof fn lemma_step_stack_ok(fs: FsModel, stack: Seq<usize>)
    requires
        fs.wf(),
        stack_ok(fs, stack),
        stack.len() > 0,
    ensures
        stack_ok(fs, stack.drop_last()),
        stack_ok(
            fs,
            stack.drop_last() + fs.entries@[stack.last() as int].children@,
        ),
{
    let e = fs.entries@[stack.last() as int];
    assert(forall|b: int|
        0 <= b < e.children@.len() ==> (#[trigger] e.children@[b]) < fs.entries@.len());
}

/// A walk never unmarks a node.
proof fn lemma_marks_mono(fs: FsModel, visited: Seq<bool>, stack: Seq<usize>, x: int)
    requires
        fs.wf(),
        stack_ok(fs, stack),
        visited.len() == fs.entries@.len(),
        0 <= x < visited.len(),
        visited[x],
    ensures
        marks(fs, visited, stack).len() == visited.len(),
        marks(fs, visited, stack)[x],
    decreases unvisited_count(visited), stack.len(),
{
    if stack.len() > 0 {
        let id = stack.last();
        let rest = stack.drop_last();
        lemma_step_stack_ok(fs, stack);
        if visited[id as int] {
            lemma_marks_mono(fs, visited, rest, x);
        } else {
            let marked = visited.update(id as int, true);
            let e = fs.entries@[id as int];
            let next = if e.resolvable && e.is_dir {
                rest + e.children@
            } else {
                rest
            };
            lemma_unvisited_count_update(visited, id as int);
            lemma_marks_mono(fs, marked, next, x);
        }
    }
}

/// Every node on the stack ends up marked.
proof fn lemma_marks_stack(fs: FsModel, visited: Seq<bool>, stack: Seq<usize>, x: usize)
    requires
        fs.wf(),
        stack_ok(fs, stack),
        visited.len() == fs.entries@.len(),
        stack.contains(x),
    ensures
        marks(fs, visited, stack)[x as int],
    decreases unvisited_count(visited), stack.len(),
{
    let id = stack.last();
    let rest = stack.drop_last();
    lemma_step_stack_ok(fs, stack);
    let i = choose|i: int| 0 <= i < stack.len() && stack[i] == x;
    if visited[id as int] {
        if x == id {
            lemma_marks_mono(fs, visited, rest, x as int);
        } else {
            assert(rest[i] == x);
            lemma_marks_stack(fs, visited, rest, x);
        }
    } else {
        let marked = visited.update(id as int, true);
        let e = fs.entries@[id as int];
        let next = if e.resolvable && e.is_dir {
            rest + e.children@
        } else {
            rest
        };
        lemma_unvisited_count_update(visited, id as int);
        if x == id {
            lemma_marks_mono(fs, marked, next, x as int);
        } else {
            assert(rest[i] == x);
            assert(next[i] == x);
            lemma_marks_stack(fs, marked, next, x);
        }
    }
}

/// Once the walk marks a node it had not seen before, every node that
/// node's listing yields gets marked too.
proof fn lemma_marks_children(fs: FsModel, visited: Seq<bool>, stack: Seq<usize>, x: usize, c: usize)
    requires
        fs.wf(),
        stack_ok(fs, stack),
        visited.len() == fs.entries@.len(),
        x < visited.len(),
        !visited[x as int],
        marks(fs, visited, stack)[x as int],
        lists(fs, x, c),
    ensures
        marks(fs, visited, stack)[c as int],
    decreases unvisited_count(visited), stack.len(),
{
    let id = stack.last();
    let rest = stack.drop_last();
    lemma_step_stack_ok(fs, stack);
    if visited[id as int] {
        lemma_marks_children(fs, visited, rest, x, c);
    } else {
        let marked = visited.update(id as int, true);
        let e = fs.entries@[id as int];
        let next = if e.resolvable && e.is_dir {
            rest + e.children@
        } else {
            rest
        };
        lemma_unvisited_count_update(visited, id as int);
        if x == id {
            let j = choose|j: int| 0 <= j < e.children@.len() && e.children@[j] == c;
            assert(next[rest.len() + j] == c);
            assert(next.contains(c));
            lemma_marks_stack(fs, marked, next, c);
        } else {
            lemma_marks_children(fs, marked, next, x, c);
        }
    }
}

/// Every node a chain of listings reaches from the root gets marked by
/// the walk that starts at the root with nothing visited.
proof fn lemma_marks_chain(fs: FsModel, p: Seq<usize>, root: usize, id: usize)
    requires
        fs.wf(),
        root < fs.entries@.len(),
        id < fs.entries@.len(),
        lists_chain(fs, p, root, id),
    ensures
        marks(fs, all_unvisited(fs.entries@.len()), seq![root])[id as int],
    decreases p.len(),
{
    let n = fs.entries@.len();
    let start = all_unvisited(n);
    assert(stack_ok(fs, seq![root]));
    if p.len() == 1 {
        assert(id == root);
        assert(seq![root][0] == root);
        assert(seq![root].contains(root));
        lemma_marks_stack(fs, start, seq![root], root);
    } else {
        let q = p.drop_last();
        let a = p[p.len() - 2];
        assert(lists(fs, a, id));
        assert(a < fs.entries@.len());
        assert(lists_chain(fs, q, root, a)) by {
            assert(q.last() == a);
            assert(forall|k: int| 0 <= k < q.len() - 1 ==> lists(fs, #[trigger] q[k], q[k + 1]));
        }
        lemma_marks_chain(fs, q, root, a);
        lemma_marks_children(fs, start, seq![root], a, id);
    }
}

/// A node the walk newly marks has its path in the walk's result,
/// provided its entry is one the walk records.
proof fn lemma_walk_emits(
    fs: FsModel,
    visited: Seq<bool>,
    stack: Seq<usize>,
    needle: Seq<char>,
    x: usize,
)
    requires
        fs.wf(),
        stack_ok(fs, stack),
        visited.len() == fs.entries@.len(),
        x < visited.len(),
        !visited[x as int],
        marks(fs, visited, stack)[x as int],
        emits(fs.entries@[x as int], needle),
    ensures
        walk(fs, visited, stack, needle).contains(fs.entries@[x as int].path@),
    decreases unvisited_count(visited), stack.len(),
{
    let path = fs.entries@[x as int].path@;
    let id = stack.last();
    let rest = stack.drop_last();
    lemma_step_stack_ok(fs, stack);
    if visited[id as int] {
        lemma_walk_emits(fs, visited, rest, needle, x);
        let j = choose|j: int|
            0 <= j < walk(fs, visited, rest, needle).len() && walk(fs, visited, rest, needle)[j]
                == path;
        assert(walk(fs, visited, stack, needle)[j] == path);
    } else {
        let marked = visited.update(id as int, true);
        let e = fs.entries@[id as int];
        let next = if e.resolvable && e.is_dir {
            rest + e.children@
        } else {
            rest
        };
        let head = if emits(e, needle) {
            seq![e.path@]
        } else {
            Seq::<Seq<char>>::empty()
        };
        let tail = walk(fs, marked, next, needle);
        lemma_unvisited_count_update(visited, id as int);
        assert(walk(fs, visited, stack, needle) == head + tail);
        if x == id {
            assert((head + tail)[0] == path);
            assert(walk(fs, visited, stack, needle).contains(path));
        } else {
            lemma_walk_emits(fs, marked, next, needle, x);
            let j = choose|j: int| 0 <= j < tail.len() && tail[j] == path;
            assert((head + tail)[head.len() + j] == path);
            assert(walk(fs, visited, stack, needle).contains(path));
        }
    }
}

/// Completeness of the traversal: the search returns the canonical path
/// of every node that a chain of directory listings reaches from the
/// root, whose entry still resolves, whose canonical path is non-empty,
/// and whose path contains the query.
pub proof fn lemma_search_complete(fs: FsModel, root: usize, id: usize, needle: Seq<char>)
    requires
        fs.wf(),
        root < fs.entries@.len(),
        id < fs.entries@.len(),
        reachable(fs, root, id),
        emits(fs.entries@[id as int], needle),
    ensures
        spec_search(fs, Some(root), needle).contains(fs.entries@[id as int].path@),
{
    let p = choose|p: Seq<usize>| lists_chain(fs, p, root, id);
    lemma_marks_chain(fs, p, root, id);
    assert(stack_ok(fs, seq![root]));
    lemma_walk_emits(fs, all_unvisited(fs.entries@.len()), seq![root], needle, id);
}

/// Every path a walk yields belongs to a node the walk had not visited
/// when it started.
proof fn lemma_walk_elems(fs: FsModel, visited: Seq<bool>, stack: Seq<usize>, needle: Seq<char>)
    requires
        fs.wf(),
        stack_ok(fs, stack),
        visited.len() == fs.entries@.len(),
    ensures
        forall|k: int|
            0 <= k < walk(fs, visited, stack, needle).len() ==> exists|j: int|
                0 <= j < fs.entries@.len() && !visited[j] && #[trigger] walk(
                    fs,
                    visited,
                    stack,
                    needle,
                )[k] == fs.entries@[j].path@,
    decreases unvisited_count(visited), stack.len(),
{
    if stack.len() > 0 {
        let id = stack.last();
        let rest = stack.drop_last();
        lemma_step_stack_ok(fs, stack);
        if visited[id as int] {
            lemma_walk_elems(fs, visited, rest, needle);
            assert forall|k: int|
                0 <= k < walk(fs, visited, stack, needle).len() implies exists|j: int|
                0 <= j < fs.entries@.len() && !visited[j] && #[trigger] walk(
                fs,
                visited,
                stack,
                needle,
            )[k] == fs.entries@[j].path@ by {
                assert(walk(fs, visited, stack, needle)[k] == walk(fs, visited, rest, needle)[k]);
            }
        } else {
            let marked = visited.update(id as int, true);
            let e = fs.entries@[id as int];
            let next = if e.resolvable && e.is_dir {
                rest + e.children@
            } else {
                rest
            };
            let head = if emits(e, needle) {
                seq![e.path@]
            } else {
                Seq::<Seq<char>>::empty()
            };
            let tail = walk(fs, marked, next, needle);
            lemma_unvisited_count_update(visited, id as int);
            lemma_walk_elems(fs, marked, next, needle);
            assert(walk(fs, visited, stack, needle) == head + tail);
            assert forall|k: int|
                0 <= k < walk(fs, visited, stack, needle).len() implies exists|j: int|
                0 <= j < fs.entries@.len() && !visited[j] && #[trigger] walk(
                fs,
                visited,
                stack,
                needle,
            )[k] == fs.entries@[j].path@ by {
                assert(walk(fs, visited, stack, needle)[k] == (head + tail)[k]);
                if k < head.len() {
                    assert((head + tail)[k] == fs.entries@[id as int].path@);
                    assert(!visited[id as int]);
                } else {
                    assert((head + tail)[k] == tail[k - head.len()]);
                    let j = choose|j: int|
                        0 <= j < fs.entries@.len() && !marked[j] && tail[k - head.len()]
                            == fs.entries@[j].path@;
                    assert(!visited[j]);
                }
            }
        }
    }
}

/// No two nodes share a canonical path.
pub open spec fn paths_distinct(fs: FsModel) -> bool {
    forall|a: int, b: int|
        0 <= a < fs.entries@.len() && 0 <= b < fs.entries@.len() && a != b
            ==> (#[trigger] fs.entries@[a].path@) != (#[trigger] fs.entries@[b].path@)
}

/// When no two nodes share a canonical path, a walk never yields the
/// same path twice.
proof fn lemma_walk_distinct(fs: FsModel, visited: Seq<bool>, stack: Seq<usize>, needle: Seq<char>)
    requires
        fs.wf(),
        stack_ok(fs, stack),
        visited.len() == fs.entries@.len(),
        paths_distinct(fs),
    ensures
        forall|k1: int, k2: int|
            0 <= k1 < k2 < walk(fs, visited, stack, needle).len() ==> #[trigger] walk(
                fs,
                visited,
                stack,
                needle,
            )[k1] != #[trigger] walk(fs, visited, stack, needle)[k2],
    decreases unvisited_count(visited), stack.len(),
{
    if stack.len() > 0 {
        let id = stack.last();
        let rest = stack.drop_last();
        lemma_step_stack_ok(fs, stack);
        if visited[id as int] {
            lemma_walk_distinct(fs, visited, rest, needle);
            assert forall|k1: int, k2: int|
                0 <= k1 < k2 < walk(fs, visited, stack, needle).len() implies #[trigger] walk(
                fs,
                visited,
                stack,
                needle,
            )[k1] != #[trigger] walk(fs, visited, stack, needle)[k2] by {
                assert(walk(fs, visited, stack, needle)[k1] == walk(fs, visited, rest, needle)[k1]);
                assert(walk(fs, visited, stack, needle)[k2] == walk(fs, visited, rest, needle)[k2]);
            }
        } else {
            let marked = visited.update(id as int, true);
            let e = fs.entries@[id as int];
            let next = if e.resolvable && e.is_dir {
                rest + e.children@
            } else {
                rest
            };
            let head = if emits(e, needle) {
                seq![e.path@]
            } else {
                Seq::<Seq<char>>::empty()
            };
            let tail = walk(fs, marked, next, needle);
            lemma_unvisited_count_update(visited, id as int);
            lemma_walk_distinct(fs, marked, next, needle);
            lemma_walk_elems(fs, marked, next, needle);
            assert(walk(fs, visited, stack, needle) == head + tail);
            assert forall|k1: int, k2: int|
                0 <= k1 < k2 < walk(fs, visited, stack, needle).len() implies #[trigger] walk(
                fs,
                visited,
                stack,
                needle,
            )[k1] != #[trigger] walk(fs, visited, stack, needle)[k2] by {
                assert(walk(fs, visited, stack, needle)[k1] == (head + tail)[k1]);
                assert(walk(fs, visited, stack, needle)[k2] == (head + tail)[k2]);
                if k1 < head.len() {
                    assert((head + tail)[k1] == fs.entries@[id as int].path@);
                    assert((head + tail)[k2] == tail[k2 - head.len()]);
                    let j = choose|j: int|
                        0 <= j < fs.entries@.len() && !marked[j] && tail[k2 - head.len()]
                            == fs.entries@[j].path@;
                    assert(j != id as int);
                } else {
                    assert((head + tail)[k1] == tail[k1 - head.len()]);
                    assert((head + tail)[k2] == tail[k2 - head.len()]);
                }
            }
        }
    }
}

/// The result invariant: when no two nodes share a canonical path, the
/// search result is duplicate-free.
pub proof fn lemma_search_distinct(fs: FsModel, root: Option<usize>, needle: Seq<char>)
    requires
        fs.wf(),
        paths_distinct(fs),
        root matches Some(id) ==> id < fs.entries@.len(),
    ensures
        forall|k1: int, k2: int|
            0 <= k1 < k2 < spec_search(fs, root, needle).len() ==> #[trigger] spec_search(
                fs,
                root,
                needle,
            )[k1] != #[trigger] spec_search(fs, root, needle)[k2],
{
    match root {
        Some(id) => {
            lemma_walk_distinct(fs, all_unvisited(fs.entries@.len()), seq![id], needle);
        },
        None => {},
    }
}

/// A chain of listings grows by one listing at its end.
proof fn lemma_chain_extend(fs: FsModel, p: Seq<usize>, root: usize, a: usize, c: usize)
    requires
        lists_chain(fs, p, root, a),
        lists(fs, a, c),
    ensures
        lists_chain(fs, p.push(c), root, c),
{
    let q = p.push(c);
    assert forall|k: int| 0 <= k < q.len() - 1 implies lists(fs, #[trigger] q[k], q[k + 1]) by {
        if k < p.len() - 1 {
            assert(q[k] == p[k]);
            assert(q[k + 1] == p[k + 1]);
        } else {
            assert(q[k] == p.last());
            assert(q[k + 1] == c);
        }
    }
}

/// Reachability extends along one listing.
proof fn lemma_reachable_step(fs: FsModel, root: usize, a: usize, c: usize)
    requires
        reachable(fs, root, a),
        lists(fs, a, c),
    ensures
        reachable(fs, root, c),
{
    let p = choose|p: Seq<usize>| lists_chain(fs, p, root, a);
    lemma_chain_extend(fs, p, root, a, c);
}

/// The root reaches itself, by the one-node chain.
proof fn lemma_reachable_self(fs: FsModel, root: usize)
    ensures
        reachable(fs, root, root),
{
    assert(lists_chain(fs, seq![root], root, root));
}

/// `path` belongs to some node reachable from `root` whose entry the
/// walk records.
pub open spec fn sound_result(fs: FsModel, root: usize, needle: Seq<char>, path: Seq<char>) -> bool {
    exists|j: usize|
        j < fs.entries@.len() && reachable(fs, root, j) && emits(fs.entries@[j as int], needle)
            && path == fs.entries@[j as int].path@
}

/// When every stacked node is reachable from `root`, every path the walk
/// yields is the canonical path of a node reachable from `root` whose
/// entry the walk records.
proof fn lemma_walk_sound(
    fs: FsModel,
    visited: Seq<bool>,
    stack: Seq<usize>,
    needle: Seq<char>,
    root: usize,
)
    requires
        fs.wf(),
        stack_ok(fs, stack),
        visited.len() == fs.entries@.len(),
        forall|k: int| 0 <= k < stack.len() ==> reachable(fs, root, #[trigger] stack[k]),
    ensures
        forall|k: int|
            0 <= k < walk(fs, visited, stack, needle).len() ==> sound_result(
                fs,
                root,
                needle,
                #[trigger] walk(fs, visited, stack, needle)[k],
            ),
    decreases unvisited_count(visited), stack.len(),
{
    if stack.len() > 0 {
        let id = stack.last();
        let rest = stack.drop_last();
        lemma_step_stack_ok(fs, stack);
        assert(forall|k: int| 0 <= k < rest.len() ==> rest[k] == stack[k]);
        if visited[id as int] {
            lemma_walk_sound(fs, visited, rest, needle, root);
            assert forall|k: int|
                0 <= k < walk(fs, visited, stack, needle).len() implies sound_result(
                fs,
                root,
                needle,
                #[trigger] walk(fs, visited, stack, needle)[k],
            ) by {
                assert(walk(fs, visited, stack, needle)[k] == walk(fs, visited, rest, needle)[k]);
            }
        } else {
            let marked = visited.update(id as int, true);
            let e = fs.entries@[id as int];
            let next = if e.resolvable && e.is_dir {
                rest + e.children@
            } else {
                rest
            };
            let head = if emits(e, needle) {
                seq![e.path@]
            } else {
                Seq::<Seq<char>>::empty()
            };
            let tail = walk(fs, marked, next, needle);
            lemma_unvisited_count_update(visited, id as int);
            assert(reachable(fs, root, id));
            if e.resolvable && e.is_dir {
                assert forall|k: int|
                    0 <= k < next.len() implies reachable(fs, root, #[trigger] next[k]) by {
                    if k < rest.len() {
                        assert(next[k] == rest[k]);
                    } else {
                        assert(next[k] == e.children@[k - rest.len()]);
                        assert(e.children@.contains(e.children@[k - rest.len()]));
                        assert(lists(fs, id, next[k]));
                        lemma_reachable_step(fs, root, id, next[k]);
                    }
                }
            }
            lemma_walk_sound(fs, marked, next, needle, root);
            assert(walk(fs, visited, stack, needle) == head + tail);
            assert forall|k: int|
                0 <= k < walk(fs, visited, stack, needle).len() implies sound_result(
                fs,
                root,
                needle,
                #[trigger] walk(fs, visited, stack, needle)[k],
            ) by {
                assert(walk(fs, visited, stack, needle)[k] == (head + tail)[k]);
                if k < head.len() {
                    assert((head + tail)[k] == e.path@);
                    assert(id < fs.entries@.len() && reachable(fs, root, id) && emits(
                        fs.entries@[id as int],
                        needle,
                    ) && e.path@ == fs.entries@[id as int].path@);
                } else {
                    assert((head + tail)[k] == tail[k - head.len()]);
                }
            }
        }
    }
}

/// Soundness of the traversal: every path the search returns is the
/// canonical path of some node that a chain of directory listings reaches
/// from the root, whose entry still resolves, has a non-empty path, and
/// contains the query.
pub proof fn lemma_search_sound(fs: FsModel, root: usize, needle: Seq<char>)
    requires
        fs.wf(),
        root < fs.entries@.len(),
    ensures
        forall|k: int|
            0 <= k < spec_search(fs, Some(root), needle).len() ==> sound_result(
                fs,
                root,
                needle,
                #[trigger] spec_search(fs, Some(root), needle)[k],
            ),
{
    lemma_reachable_self(fs, root);
    assert(stack_ok(fs, seq![root]));
    lemma_walk_sound(fs, all_unvisited(fs.entries@.len()), seq![root], needle, root);
}

/// With an empty query, the search returns the canonical path of every
/// reachable node that still resolves and has a non-empty path.
pub proof fn lemma_empty_query_complete(fs: FsModel, root: usize, id: usize)
    requires
        fs.wf(),
        root < fs.entries@.len(),
        id < fs.entries@.len(),
        reachable(fs, root, id),
        fs.entries@[id as int].resolvable,
        fs.entries@[id as int].path@.len() > 0,
    ensures
        spec_search(fs, Some(root), Seq::<char>::empty()).contains(fs.entries@[id as int].path@),
{
    lemma_empty_query_emits(fs, id as int);
    lemma_search_complete(fs, root, id, Seq::<char>::empty());
}

} // verus!
