//! Release tooling for a repository that holds many packages: the package
//! catalog, its dependency graphs, version arithmetic and the propagation of
//! version bumps through dependent packages.

pub mod bump;
pub mod cargo;
pub mod cmd;
pub mod graph;
pub mod manifest;
pub mod registry;
pub mod release;
pub mod semver_check;
pub mod seqs;
pub mod text;
pub mod types;
pub mod version;

use crate::text::{replace, replaced};
use vstd::prelude::*;
use vstd::string::*;

verus! {

/// The characters that mark a Windows path as verbatim: `\\?\`.
pub open spec fn verbatim_marker() -> Seq<char> {
    seq!['\\', '\\', '?', '\\']
}

/// `path` without the marker of a verbatim Windows path, wherever it stands,
/// so that tools that cannot read such paths can take it.
pub fn windows_safe_path(path: &str) -> (r: String)
    ensures
        r@ == replaced(path@, verbatim_marker(), Seq::empty()),
{
    proof {
        reveal_strlit("\\\\?\\");
        reveal_strlit("");
        assert("\\\\?\\"@ =~= verbatim_marker());
        assert(""@ =~= Seq::<char>::empty());
    }
    replace(path, "\\\\?\\", "")
}

} // verus!
