//! The verified search over a modeled directory tree.
//!
//! The walk observes the filesystem only through directory listings and
//! canonicalization outcomes, so those observations are modeled as plain
//! data: a graph of nodes, each carrying its canonical path, whether it is
//! a directory, the nodes its listing yields, and whether resolving it
//! still succeeds when it is visited. Following symlinks makes the graph
//! arbitrary — child edges may point anywhere, including back at an
//! ancestor — so the walk keeps a visited set keyed by canonical identity
//! and never enters a node twice. That makes it terminate on every model,
//! cycles included, and yield each node's canonical path at most once.

use vstd::prelude::*;
use crate::matching::{chars_of, contains_chars, contains_substring};

verus! {

/// One filesystem node, identified by its index in the model.
pub struct FsEntry {
    /// The canonical absolute path the node resolves to.
    pub path: String,
    /// Whether the node is a directory whose listing the walk descends into.
    pub is_dir: bool,
    /// Indices of the nodes this node's listing yields (directories only).
    pub children: Vec<usize>,
    /// Whether the node can still be resolved when it is visited; a node
    /// deleted mid-walk or unreadable for permissions has `false` here.
    pub resolvable: bool,
}

/// A directory tree as a walk observes it. Because symlinks are followed,
/// two directories may list the same node and a listing may lead back to
/// an ancestor, so the entries form an arbitrary finite graph.
pub struct FsModel {
    pub entries: Vec<FsEntry>,
}

impl FsModel {
    /// Every child index points back into the model.
    pub open spec fn wf(self) -> bool {
        forall|a: int, b: int|
            0 <= a < self.entries@.len() && 0 <= b < self.entries@[a].children@.len()
                ==> (#[trigger] self.entries@[a].children@[b]) < self.entries@.len()
    }
}

/// How many nodes a visited map still has unmarked.
pub open spec fn unvisited_count(visited: Seq<bool>) -> nat
    decreases visited.len(),
{
    if visited.len() == 0 {
        0
    } else {
        unvisited_count(visited.drop_last()) + if visited.last() {
            0nat
        } else {
            1nat
        }
    }
}

/// Marking an unmarked node shrinks the unvisited count by one.
pub proof fn lemma_unvisited_count_update(visited: Seq<bool>, i: int)
    requires
        0 <= i < visited.len(),
        !visited[i],
    ensures
        unvisited_count(visited.update(i, true)) + 1 == unvisited_count(visited),
    decreases visited.len(),
{
    let marked = visited.update(i, true);
    if i == visited.len() - 1 {
        assert(marked.drop_last() =~= visited.drop_last());
    } else {
        assert(marked.drop_last() =~= visited.drop_last().update(i, true));
        lemma_unvisited_count_update(visited.drop_last(), i);
    }
}

/// Every index on the stack points into the model.
pub open spec fn stack_ok(fs: FsModel, stack: Seq<usize>) -> bool {
    forall|k: int| 0 <= k < stack.len() ==> (#[trigger] stack[k]) < fs.entries@.len()
}

/// Whether the walk records a node's path: the node still resolves, its
/// canonical path is non-empty, and that path contains the query.
pub open spec fn emits(e: FsEntry, needle: Seq<char>) -> bool {
    e.resolvable && e.path@.len() > 0 && contains_substring(e.path@, needle)
}

/// The paths a walk yields from a given state: pop the top of the stack;
/// a node already visited is skipped, and a fresh one is marked, its path
/// recorded if `emits` holds, and its listing pushed if it is a directory
/// that still resolves.
pub open spec fn walk(
    fs: FsModel,
    visited: Seq<bool>,
    stack: Seq<usize>,
    needle: Seq<char>,
) -> Seq<Seq<char>>
    recommends
        fs.wf(),
        stack_ok(fs, stack),
        visited.len() == fs.entries@.len(),
    decreases unvisited_count(visited), stack.len(),
        when fs.wf() && stack_ok(fs, stack) && visited.len() == fs.entries@.len()
        via walk_decreases
{
    if stack.len() == 0 {
        Seq::<Seq<char>>::empty()
    } else {
        let id = stack.last();
        let rest = stack.drop_last();
        if visited[id as int] {
            walk(fs, visited, rest, needle)
        } else {
            let marked = visited.update(id as int, true);
            let e = fs.entries@[id as int];
            let next = if e.resolvable && e.is_dir {
                rest + e.children@
            } else {
                rest
            };
            let head = if emits(e, needle) {
                seq![e.path@]
            } else {
                Seq::<Seq<char>>::empty()
            };
            head + walk(fs, marked, next, needle)
        }
    }
}

#[via_fn]
proof fn walk_decreases(fs: FsModel, visited: Seq<bool>, stack: Seq<usize>, needle: Seq<char>) {
    if stack.len() > 0 {
        let id = stack.last();
        let rest = stack.drop_last();
        if !visited[id as int] {
            lemma_unvisited_count_update(visited, id as int);
            let e = fs.entries@[id as int];
            if e.resolvable && e.is_dir {
                assert(stack_ok(fs, rest + e.children@)) by {
                    assert(forall|b: int|
                        0 <= b < e.children@.len()
                            ==> (#[trigger] e.children@[b]) < fs.entries@.len());
                }
            }
        }
    }
}

/// A visited map with nothing marked yet.
pub open spec fn all_unvisited(n: nat) -> Seq<bool> {
    Seq::new(n, |i: int| false)
}

/// Everything a search returns: nothing when there is no root, else the
/// walk from the root with an empty visited map.
pub open spec fn spec_search(fs: FsModel, root: Option<usize>, needle: Seq<char>) -> Seq<
    Seq<char>,
> {
    match root {
        None => Seq::<Seq<char>>::empty(),
        Some(id) => walk(fs, all_unvisited(fs.entries@.len()), seq![id], needle),
    }
}

/// Searches the modeled tree for nodes whose canonical path contains
/// `query`. An absent root yields the empty result without any traversal;
/// otherwise the tree is walked depth-first from the root, entering each
/// node at most once, skipping nodes that no longer resolve, and keeping
/// the non-empty canonical paths that contain `query` as a substring.
pub fn search(fs: &FsModel, root: Option<usize>, query: &str) -> (r: Vec<String>)
    requires
        root matches Some(id) ==> fs.wf() && id < fs.entries@.len(),
    ensures
        r.deep_view() == spec_search(*fs, root, query@),
{
    let root_id: usize = match root {
        None => {
            let r: Vec<String> = Vec::new();
            proof {
                assert(r.deep_view() =~= Seq::<Seq<char>>::empty());
            }
            return r;
        },
        Some(id) => id,
    };
    let needle = chars_of(query);
    let n = fs.entries.len();
    let mut visited: Vec<bool> = Vec::new();
    while visited.len() < n
        invariant
            visited@ == all_unvisited(visited@.len() as nat),
            visited@.len() <= n,
        decreases n - visited@.len(),
    {
        visited.push(false);
        proof {
            assert(visited@ =~= all_unvisited(visited@.len() as nat));
        }
    }
    let mut stack: Vec<usize> = Vec::new();
    stack.push(root_id);
    let mut out: Vec<String> = Vec::new();
    let ghost total = walk(*fs, visited@, stack@, needle@);
    proof {
        assert(stack@ =~= seq![root_id]);
        assert(out.deep_view() =~= Seq::<Seq<char>>::empty());
        assert(total == spec_search(*fs, root, query@));
    }
    while stack.len() > 0
        invariant
            fs.wf(),
            visited@.len() == fs.entries@.len(),
            stack_ok(*fs, stack@),
            needle@ == query@,
            total == out.deep_view() + walk(*fs, visited@, stack@, needle@),
        decreases unvisited_count(visited@), stack@.len(),
    {
        let ghost old_visited = visited@;
        let ghost old_stack = stack@;
        let ghost old_out = out.deep_view();
        let id = stack.pop().unwrap();
        if !visited[id] {
            proof {
                lemma_unvisited_count_update(old_visited, id as int);
            }
            visited.set(id, true);
            let e = &fs.entries[id];
            if e.resolvable {
                let path_chars = chars_of(e.path.as_str());
                if path_chars.len() > 0 && contains_chars(&path_chars, &needle) {
                    out.push(e.path.clone());
                    proof {
                        assert(out.deep_view() =~= old_out + seq![e.path@]);
                    }
                } else {
                    proof {
                        assert(!emits(fs.entries@[id as int], needle@));
                        assert(out.deep_view() =~= old_out);
                    }
                }
                if e.is_dir {
                    let ghost rest = stack@;
                    let mut ci: usize = 0;
                    while ci < e.children.len()
                        invariant
                            fs.wf(),
                            id < fs.entries@.len(),
                            *e == fs.entries@[id as int],
                            0 <= ci <= e.children@.len(),
                            stack@ == rest + e.children@.take(ci as int),
                            stack_ok(*fs, rest),
                        decreases e.children@.len() - ci,
                    {
                        stack.push(e.children[ci]);
                        ci += 1;
                        proof {
                            assert(stack@ =~= rest + e.children@.take(ci as int));
                        }
                    }
                    proof {
                        assert(stack@ =~= rest + e.children@);
                        assert(stack_ok(*fs, stack@));
                    }
                }
            } else {
                proof {
                    assert(out.deep_view() =~= old_out);
                }
            }
            proof {
                let e_spec = fs.entries@[id as int];
                let ghost head = if emits(e_spec, needle@) {
                    seq![e_spec.path@]
                } else {
                    Seq::<Seq<char>>::empty()
                };
                assert(walk(*fs, old_visited, old_stack, needle@) == head + walk(
                    *fs,
                    visited@,
                    stack@,
                    needle@,
                ));
                assert(out.deep_view() =~= old_out + head);
                assert(total == out.deep_view() + walk(*fs, visited@, stack@, needle@));
            }
        } else {
            proof {
                assert(walk(*fs, old_visited, old_stack, needle@) == walk(
                    *fs,
                    visited@,
                    stack@,
                    needle@,
                ));
            }
        }
    }
    proof {
        assert(walk(*fs, visited@, stack@, needle@) == Seq::<Seq<char>>::empty());
        assert(out.deep_view() =~= total);
    }
    out
}

} // verus!
