//! The one operation of the library: compare two walked trees.

use vstd::prelude::*;
use crate::reconcile::{ComparisonReport, reconcile};
use crate::walk::{WalkEntry, file_paths, normalizable, relative_files};

verus! {

/// Which of the two roots of a comparison.
#[derive(Debug, Clone, Copy, PartialEq, Eq, Structural)]
pub enum Side {
    A,
    B,
}

/// Why a comparison could not be made.
#[derive(Debug, Clone, Copy, PartialEq, Eq, Structural)]
pub enum Failure {
    /// The root does not exist or is not a directory.
    RootNotFound(Side),
    /// A regular file that the walk of this root yielded does not lie under it.
    PathNormalization(Side),
}

/// What a walk of one tree observed: the root as path components, whether
/// it exists as a directory, and every entry of the walk.
#[derive(Debug, PartialEq, Eq)]
pub struct TreeListing {
    pub root: Vec<Vec<u8>>,
    pub root_is_dir: bool,
    pub entries: Vec<WalkEntry>,
}

impl TreeListing {
    /// The relative paths of the regular files of the tree: its file set.
    pub open spec fn files(self) -> Seq<Seq<u8>> {
        file_paths(self.root.deep_view(), self.entries@)
    }

    /// Every regular file of the walk lies under the root.
    pub open spec fn normalizable(self) -> bool {
        normalizable(self.root.deep_view(), self.entries@)
    }
}

/// The failure that comparing `a` with `b` meets, if any: missing roots are
/// found before anything is walked, the first root before the second.
pub open spec fn failure_of(a: TreeListing, b: TreeListing) -> Option<Failure> {
    if !a.root_is_dir {
        Some(Failure::RootNotFound(Side::A))
    } else if !b.root_is_dir {
        Some(Failure::RootNotFound(Side::B))
    } else if !a.normalizable() {
        Some(Failure::PathNormalization(Side::A))
    } else if !b.normalizable() {
        Some(Failure::PathNormalization(Side::B))
    } else {
        None
    }
}

/// `r` is what comparing `a` with `b` gives.
pub open spec fn outcome(a: TreeListing, b: TreeListing, r: Result<ComparisonReport, Failure>) -> bool {
    match r {
        Ok(report) => failure_of(a, b) is None && report.describes(a.files(), b.files()),
        Err(f) => failure_of(a, b) == Some(f),
    }
}

/// Compares two trees: fails exactly as `failure_of` says, and otherwise
/// reports the paths of regular files found under one root and not the other.
/// Entries that could not be read are skipped, as if absent.
pub fn compare(a: &TreeListing, b: &TreeListing) -> (r: Result<ComparisonReport, Failure>)
    ensures
        outcome(*a, *b, r),
{
    if !a.root_is_dir {
        return Err(Failure::RootNotFound(Side::A));
    }
    if !b.root_is_dir {
        return Err(Failure::RootNotFound(Side::B));
    }
    let files_a = match relative_files(&a.root, &a.entries) {
        Some(f) => f,
        None => {
            return Err(Failure::PathNormalization(Side::A));
        },
    };
    let files_b = match relative_files(&b.root, &b.entries) {
        Some(f) => f,
        None => {
            return Err(Failure::PathNormalization(Side::B));
        },
    };
    Ok(reconcile(files_a, files_b))
}

} // verus!
