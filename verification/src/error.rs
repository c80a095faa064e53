//! What can be wrong with a manifest.

use vstd::prelude::*;

verus! {

/// Why a manifest was not turned into a tree.
///
/// A manifest with one bad path is refused whole: nothing is skipped.
#[derive(Debug, PartialEq, Eq)]
pub enum TreeError {
    /// A file name or a directory component does not have the required form.
    /// `text` is that name or component.
    Format { text: String },
    /// The schema differs between two paths of the manifest: at `depth` the
    /// one names the partition column `expected`, the other names it `found`.
    /// `first` is the one, which is the first of all the paths in rank, and
    /// `path` is the other; both are given as the tree would give them back.
    KeyMismatch { depth: usize, expected: String, found: String, first: String, path: String },
    /// The schema differs between two paths of the manifest: the one has
    /// `segments` segments, the other has `other`. `first` is the one, which
    /// is the first of all the paths in rank, and `path` is the other; both
    /// are given as the tree would give them back.
    DepthMismatch { segments: usize, other: usize, first: String, path: String },
}

/// A `TreeError` with its texts as sequences of characters.
pub ghost enum Failure {
    Format { text: Seq<char> },
    KeyMismatch {
        depth: nat,
        expected: Seq<char>,
        found: Seq<char>,
        first: Seq<char>,
        path: Seq<char>,
    },
    DepthMismatch { segments: nat, other: nat, first: Seq<char>, path: Seq<char> },
}

impl View for TreeError {
    type V = Failure;

    open spec fn view(&self) -> Failure {
        match self {
            TreeError::Format { text } => Failure::Format { text: text@ },
            TreeError::KeyMismatch { depth, expected, found, first, path } => Failure::KeyMismatch {
                depth: *depth as nat,
                expected: expected@,
                found: found@,
                first: first@,
                path: path@,
            },
            TreeError::DepthMismatch { segments, other, first, path } => Failure::DepthMismatch {
                segments: *segments as nat,
                other: *other as nat,
                first: first@,
                path: path@,
            },
        }
    }
}

impl TreeError {
    /// Whether the error is a disagreement between paths, not a fault of one.
    pub fn is_schema_mismatch(&self) -> (r: bool)
        ensures
            r == self@.is_schema_mismatch(),
    {
        match self {
            TreeError::Format { .. } => false,
            TreeError::KeyMismatch { .. } => true,
            TreeError::DepthMismatch { .. } => true,
        }
    }
}

impl Failure {
    /// Whether the failure is a disagreement between paths, not a fault of one.
    pub open spec fn is_schema_mismatch(self) -> bool {
        !(self is Format)
    }
}

} // verus!
