//! Verified core of a small file-search backend.
//!
//! The backend's one algorithmic capability is searching a directory tree
//! for entries whose canonical path contains a query substring. The
//! traversal logic, the substring filter, and the cycle guard that makes a
//! symlink-following walk terminate all live here, stated and proved over
//! mathematical models. The filesystem itself is reached only by the
//! unverified shell around this library, which feeds canonicalized entries
//! in and takes directories to list out.

use vstd::prelude::*;
use vstd::string::StringExecFns;

pub mod matching;
pub mod traversal;
pub mod laws;
pub mod searcher;

verus! {

/// Builds the greeting the backend returns for a name.
pub fn greet(name: &str) -> (r: String)
    ensures
        r@ == "Hello, "@ + name@ + "!"@,
{
    let mut s = String::from_str("Hello, ");
    s.append(name);
    s.append("!");
    s
}

} // verus!
