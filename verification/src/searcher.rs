//! The decision core of one search invocation.
//!
//! The shell around the library owns the filesystem: it canonicalizes
//! entries and lists directories. Every decision is made here: whether an
//! entry was already seen (the cycle guard), whether its canonical path is
//! kept as a match, and which directory is listed next. The shell feeds
//! each entry's canonicalization outcome in through [`Searcher::offer`] —
//! `None` for an entry that no longer resolves, which is skipped rather
//! than aborting the search — and takes directories to list back out
//! through [`Searcher::next_directory`] until none is pending.

use vstd::prelude::*;
use crate::matching::{chars_of, contains_chars, contains_substring};

verus! {

/// A filesystem entry after canonicalization, as the shell hands it in:
/// the canonical absolute path and whether the entry is a directory.
pub struct CanonEntry {
    pub path: String,
    pub is_dir: bool,
}

/// One search invocation's arguments as the command receives them: an
/// optional root directory and the query substring.
pub struct SearchRequest {
    pub location: Option<String>,
    pub guess: String,
}

/// The state of one search: the query, the canonical paths already seen,
/// the directories accepted but not yet listed, and the matches collected
/// so far.
pub struct Searcher {
    query: Vec<char>,
    seen: Vec<String>,
    pending: Vec<String>,
    found: Vec<String>,
}

/// How one offered entry advances a searcher's observable state: a failed
/// canonicalization and an already-seen path change nothing; a new path is
/// recorded as seen, collected when it is non-empty and contains the
/// query, and queued for listing when it is a directory.
pub open spec fn offer_step(pre: Searcher, post: Searcher, entry: Option<CanonEntry>) -> bool {
    &&& post.query_chars() == pre.query_chars()
    &&& match entry {
        None => {
            &&& post.seen_paths() == pre.seen_paths()
            &&& post.pending_dirs() == pre.pending_dirs()
            &&& post.found_paths() == pre.found_paths()
        },
        Some(e) => {
            if pre.seen_paths().contains(e.path@) {
                &&& post.seen_paths() == pre.seen_paths()
                &&& post.pending_dirs() == pre.pending_dirs()
                &&& post.found_paths() == pre.found_paths()
            } else {
                &&& post.seen_paths() == pre.seen_paths().push(e.path@)
                &&& post.found_paths() == if e.path@.len() > 0 && contains_substring(
                    e.path@,
                    pre.query_chars(),
                ) {
                    pre.found_paths().push(e.path@)
                } else {
                    pre.found_paths()
                }
                &&& post.pending_dirs() == if e.is_dir {
                    pre.pending_dirs().push(e.path@)
                } else {
                    pre.pending_dirs()
                }
            }
        },
    }
}

impl Searcher {
    /// The query, as the sequence of its characters.
    pub closed spec fn query_chars(self) -> Seq<char> {
        self.query@
    }

    /// Canonical paths of the entries offered so far, each kept once.
    pub closed spec fn seen_paths(self) -> Seq<Seq<char>> {
        self.seen.deep_view()
    }

    /// Canonical paths of directories accepted and not yet handed out.
    pub closed spec fn pending_dirs(self) -> Seq<Seq<char>> {
        self.pending.deep_view()
    }

    /// Canonical paths collected as matches, in traversal order.
    pub closed spec fn found_paths(self) -> Seq<Seq<char>> {
        self.found.deep_view()
    }

    /// Well-formedness, which the constructor establishes and every
    /// method keeps: each collected path is non-empty and contains the
    /// query.
    pub closed spec fn wf(self) -> bool {
        forall|k: int|
            0 <= k < self.found.deep_view().len() ==> (#[trigger] self.found.deep_view()[k]).len()
                > 0 && contains_substring(self.found.deep_view()[k], self.query@)
    }

    /// A fresh searcher for `query`: nothing seen, pending or found.
    pub fn new(query: &str) -> (s: Self)
        ensures
            s.wf(),
            s.query_chars() == query@,
            s.seen_paths() == Seq::<Seq<char>>::empty(),
            s.pending_dirs() == Seq::<Seq<char>>::empty(),
            s.found_paths() == Seq::<Seq<char>>::empty(),
    {
        let s = Searcher {
            query: chars_of(query),
            seen: Vec::new(),
            pending: Vec::new(),
            found: Vec::new(),
        };
        proof {
            assert(s.seen.deep_view() =~= Seq::<Seq<char>>::empty());
            assert(s.pending.deep_view() =~= Seq::<Seq<char>>::empty());
            assert(s.found.deep_view() =~= Seq::<Seq<char>>::empty());
        }
        s
    }

    /// Whether `path` is among the canonical paths already seen.
    fn knows(&self, path: &String) -> (r: bool)
        ensures
            r == self.seen_paths().contains(path@),
    {
        let mut i: usize = 0;
        while i < self.seen.len()
            invariant
                0 <= i <= self.seen@.len(),
                forall|k: int| 0 <= k < i ==> self.seen.deep_view()[k] != path@,
            decreases self.seen@.len() - i,
        {
            if self.seen[i].eq(path) {
                proof {
                    assert(self.seen.deep_view()[i as int] == path@);
                }
                return true;
            }
            i += 1;
        }
        false
    }

    /// Offers one traversal entry. `None` stands for an entry whose
    /// canonicalization failed (deleted mid-walk, permission refused): it
    /// is skipped and nothing changes. A canonical path already seen is
    /// skipped too; that refusal to re-enter a known path is what keeps a
    /// walk over symlink cycles finite. A new path is recorded as seen,
    /// collected when non-empty and containing the query, and queued when
    /// it names a directory.
    pub fn offer(&mut self, entry: Option<CanonEntry>)
        requires
            old(self).wf(),
        ensures
            final(self).wf(),
            offer_step(*old(self), *final(self), entry),
    {
        match entry {
            None => {},
            Some(e) => {
                if !self.knows(&e.path) {
                    let ghost pre_seen = self.seen.deep_view();
                    let ghost pre_found = self.found.deep_view();
                    let ghost pre_pending = self.pending.deep_view();
                    self.seen.push(e.path.clone());
                    proof {
                        assert(self.seen.deep_view() =~= pre_seen.push(e.path@));
                    }
                    let path_chars = chars_of(e.path.as_str());
                    if path_chars.len() > 0 && contains_chars(&path_chars, &self.query) {
                        self.found.push(e.path.clone());
                        proof {
                            assert(self.found.deep_view() =~= pre_found.push(e.path@));
                        }
                    }
                    if e.is_dir {
                        self.pending.push(e.path);
                        proof {
                            assert(self.pending.deep_view() =~= pre_pending.push(e.path@));
                        }
                    }
                }
            },
        }
    }

    /// Hands out one pending directory for the shell to list, most
    /// recently queued first; `None` once no directory is waiting, which
    /// ends the walk.
    pub fn next_directory(&mut self) -> (r: Option<String>)
        requires
            old(self).wf(),
        ensures
            final(self).wf(),
            final(self).query_chars() == old(self).query_chars(),
            final(self).seen_paths() == old(self).seen_paths(),
            final(self).found_paths() == old(self).found_paths(),
            old(self).pending_dirs().len() == 0 ==> r is None && final(self).pending_dirs()
                == old(self).pending_dirs(),
            old(self).pending_dirs().len() > 0 ==> (r matches Some(p) && p@ == old(
                self,
            ).pending_dirs().last() && final(self).pending_dirs() == old(
                self,
            ).pending_dirs().drop_last()),
    {
        let ghost pre_pending = self.pending.deep_view();
        let r = self.pending.pop();
        proof {
            if pre_pending.len() > 0 {
                assert(self.pending.deep_view() =~= pre_pending.drop_last());
            }
        }
        r
    }

    /// The matches collected so far, in traversal order. Whatever order
    /// the shell offered entries in, each returned path is non-empty and
    /// contains the query as a substring.
    pub fn into_results(self) -> (r: Vec<String>)
        requires
            self.wf(),
        ensures
            r.deep_view() == self.found_paths(),
            forall|k: int|
                0 <= k < r.deep_view().len() ==> (#[trigger] r.deep_view()[k]).len() > 0
                    && contains_substring(r.deep_view()[k], self.query_chars()),
    {
        self.found
    }
}

/// Starts a search for a request: yields the searcher and, when a root
/// was given, the root path the shell must canonicalize and offer first.
/// An absent root yields no path to visit at all, so the search ends at
/// once with the empty result; it is a short-circuit, not an error.
pub fn begin_search(req: SearchRequest) -> (r: (Searcher, Option<String>))
    ensures
        r.0.wf(),
        r.0.query_chars() == req.guess@,
        r.0.seen_paths() == Seq::<Seq<char>>::empty(),
        r.0.pending_dirs() == Seq::<Seq<char>>::empty(),
        r.0.found_paths() == Seq::<Seq<char>>::empty(),
        r.1 == req.location,
{
    let s = Searcher::new(req.guess.as_str());
    (s, req.location)
}

} // verus!
