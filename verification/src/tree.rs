//! The partition tree: how it is grown from ranked paths of one schema, and
//! how it is flattened back into them.

use vstd::prelude::*;
use vstd::seq_lib::lemma_sorted_unique;
use crate::codec::rendered;
pub use crate::codec::{CompressionType, ParquetDeltaFile};
use crate::error::{Failure, TreeError};
use crate::laws::{
    key_at, lemma_grown_well_formed, lemma_uniform_depth, lemma_uniform_schema, manifest_depth,
    manifest_keys, segment_count,
};

use crate::order::{
    entry_order, file_le, lemma_entry_total, rank_text, sort_entries, text_lt, Rank,
};
use crate::segment::{
    entries_of, entry_at, entry_of, entry_path, read_path, rendered_path, Entry, PathEntry,
};

verus! {

/// A node of the tree.
#[derive(Debug, PartialEq, Eq)]
pub enum TreeNode {
    /// A partition column: its name, and for each of its values the subtree of
    /// the paths that have that value, in ascending order of the values.
    Partition { name: String, values: Vec<(String, TreeNode)> },
    /// The files of one leaf directory.
    FileEntries { files: Vec<ParquetDeltaFile> },
}

/// A manifest as a tree.
#[derive(Debug, PartialEq, Eq)]
pub struct DeltaTree {
    pub root: TreeNode,
}

/// A tree with its texts as sequences of characters.
pub ghost enum Shape {
    Partition { name: Seq<char>, values: Seq<(Seq<char>, Shape)> },
    FileEntries { files: Seq<ParquetDeltaFile> },
}

impl TreeNode {
    /// The node with its texts as sequences of characters.
    pub open spec fn shape(self) -> Shape
        decreases self, 0nat,
    {
        match self {
            TreeNode::Partition { name, values } => Shape::Partition {
                name: name@,
                values: shapes(values@),
            },
            TreeNode::FileEntries { files } => Shape::FileEntries { files: files@ },
        }
    }
}

impl View for TreeNode {
    type V = Shape;

    open spec fn view(&self) -> Shape {
        self.shape()
    }
}

/// The branches of a partition node, each as its value and its subtree's shape.
pub open spec fn shapes(values: Seq<(String, TreeNode)>) -> Seq<(Seq<char>, Shape)>
    decreases values, 1nat,
{
    if values.len() == 0 {
        Seq::empty()
    } else {
        shapes(values.drop_last()).push((values.last().0@, values.last().1.shape()))
    }
}

impl View for DeltaTree {
    type V = Shape;

    open spec fn view(&self) -> Shape {
        self.root@
    }
}

/// `shapes` position by position.
pub proof fn lemma_shapes(values: Seq<(String, TreeNode)>)
    ensures
        shapes(values).len() == values.len(),
        forall|i: int| 0 <= i < values.len() ==> #[trigger] shapes(values)[i] == (values[i].0@, values[i].1@),
    decreases values.len(),
{
    if values.len() > 0 {
        lemma_shapes(values.drop_last());
    }
}

/// The descriptors of `entries`, in their order.
pub open spec fn files_of(entries: Seq<PathEntry>) -> Seq<ParquetDeltaFile> {
    Seq::new(entries.len(), |i: int| entries[i].file)
}

/// The first level, from `level` down to the last of the `depth` levels, at
/// which `entry` does not have the key that `first` has there, as a failure.
pub open spec fn key_mismatch(first: PathEntry, entry: PathEntry, level: nat, depth: nat) -> Option<
    Failure,
>
    decreases depth - level,
{
    if level >= depth {
        None
    } else if entry.segments[level as int].0 != first.segments[level as int].0 {
        Some(
            Failure::KeyMismatch {
                depth: level,
                expected: first.segments[level as int].0,
                found: entry.segments[level as int].0,
                first: rendered_path(first),
                path: rendered_path(entry),
            },
        )
    } else {
        key_mismatch(first, entry, (level + 1) as nat, depth)
    }
}

/// What keeps `entry` out of a group of paths that have `depth` segments each
/// and, at every level from `level` down, the key that `first` has there: a
/// wrong number of segments, or else the first wrong key.
pub open spec fn mismatch(first: PathEntry, entry: PathEntry, level: nat, depth: nat) -> Option<
    Failure,
> {
    if entry.segments.len() != depth {
        Some(
            Failure::DepthMismatch {
                segments: depth,
                other: entry.segments.len(),
                first: rendered_path(first),
                path: rendered_path(entry),
            },
        )
    } else {
        key_mismatch(first, entry, level, depth)
    }
}

/// The mismatch of the first of `entries`, from index `from` on, that has one
/// against the group that `entries[0]` leads.
pub open spec fn first_mismatch(entries: Seq<PathEntry>, level: nat, depth: nat, from: nat) -> Option<
    Failure,
>
    decreases entries.len() - from,
{
    if from >= entries.len() {
        None
    } else {
        match mismatch(entries[0], entries[from as int], level, depth) {
            Some(failure) => Some(failure),
            None => first_mismatch(entries, level, depth, from + 1),
        }
    }
}

/// Whether the paths of a group have one schema from `level` down: `depth`
/// segments each and, at every level from `level` down, the key of the
/// first.
pub open spec fn uniform(entries: Seq<PathEntry>, level: nat, depth: nat) -> bool {
    forall|i: int|
        0 <= i < entries.len() ==> (#[trigger] entries[i]).segments.len() == depth && forall|d: int|
            level <= d < depth ==> (#[trigger] entries[i].segments[d]).0 == entries[0].segments[d].0
}

/// A path without a key mismatch has the keys of the first.
pub proof fn lemma_no_key_mismatch(first: PathEntry, entry: PathEntry, level: nat, depth: nat)
    requires
        key_mismatch(first, entry, level, depth) is None,
    ensures
        forall|d: int| level <= d < depth ==> (#[trigger] entry.segments[d]).0 == first.segments[d].0,
    decreases depth - level,
{
    if level < depth {
        lemma_no_key_mismatch(first, entry, (level + 1) as nat, depth);
    }
}

/// A group in which no path is found to have a mismatch has one schema.
pub proof fn lemma_no_mismatch(entries: Seq<PathEntry>, level: nat, depth: nat, from: nat)
    requires
        first_mismatch(entries, level, depth, from) is None,
    ensures
        forall|i: int|
            from <= i < entries.len() ==> (#[trigger] entries[i]).segments.len() == depth
                && forall|d: int|
                level <= d < depth ==> (#[trigger] entries[i].segments[d]).0
                    == entries[0].segments[d].0,
    decreases entries.len() - from,
{
    if from < entries.len() {
        lemma_no_mismatch(entries, level, depth, from + 1);
        lemma_no_key_mismatch(entries[0], entries[from as int], level, depth);
    }
}

/// The number of paths at the front of `entries` whose value at `level` is
/// `value`.
pub open spec fn run_length(entries: Seq<PathEntry>, level: nat, value: Seq<char>) -> nat
    decreases entries.len(),
{
    if entries.len() == 0 || entries[0].segments[level as int].1 != value {
        0
    } else {
        1 + run_length(entries.drop_first(), level, value)
    }
}

/// A run is no longer than the group that it begins.
pub proof fn lemma_run_length_bound(entries: Seq<PathEntry>, level: nat, value: Seq<char>)
    ensures
        run_length(entries, level, value) <= entries.len(),
    decreases entries.len(),
{
    if entries.len() > 0 {
        lemma_run_length_bound(entries.drop_first(), level, value);
    }
}

/// The tree of a group of one schema from `level` down: a leaf with all the
/// descriptors once the segments are used up, else a partition node named by
/// the key at `level` with one branch for each run of paths that have the
/// same value there.
pub open spec fn shape_of(entries: Seq<PathEntry>, level: nat, depth: nat) -> Shape
    decreases depth - level, entries.len(), 1nat,
{
    if entries.len() == 0 || level >= depth {
        Shape::FileEntries { files: files_of(entries) }
    } else {
        Shape::Partition {
            name: entries[0].segments[level as int].0,
            values: branches(entries, level, depth),
        }
    }
}

/// The branches of the partition node at `level`: one for each run of
/// `entries` with the same value there, in the order of the runs.
pub open spec fn branches(entries: Seq<PathEntry>, level: nat, depth: nat) -> Seq<
    (Seq<char>, Shape),
>
    decreases depth - level, entries.len(), 0nat,
{
    if entries.len() == 0 || level >= depth {
        Seq::empty()
    } else {
        let value = entries[0].segments[level as int].1;
        let n = run_length(entries, level, value);
        proof {
            lemma_run_length_bound(entries, level, value);
        }
        seq![(value, shape_of(entries.take(n as int), level + 1, depth))] + branches(
            entries.skip(n as int),
            level,
            depth,
        )
    }
}

/// The tree of `entries` from `level` down, where every path is to have
/// `depth` segments: the first mismatch in the group if there is one, else
/// the tree of the group.
pub open spec fn subtree(entries: Seq<PathEntry>, level: nat, depth: nat) -> Result<Shape, Failure> {
    match first_mismatch(entries, level, depth, 0) {
        Some(failure) => Err(failure),
        None => Ok(shape_of(entries, level, depth)),
    }
}

/// The number of segments that the first of `entries` has; 0 where there is
/// none.
pub open spec fn depth_of(entries: Seq<PathEntry>) -> nat {
    if entries.len() > 0 {
        entries[0].segments.len()
    } else {
        0
    }
}

/// A result of growing a tree, with its texts as sequences of characters.
pub open spec fn outcome(r: Result<TreeNode, TreeError>) -> Result<Shape, Failure> {
    match r {
        Ok(node) => Ok(node@),
        Err(error) => Err(error@),
    }
}

/// A mismatch that was or was not found, with its texts as sequences of
/// characters.
pub open spec fn failure_of(r: Option<TreeError>) -> Option<Failure> {
    match r {
        Some(error) => Some(error@),
        None => None,
    }
}

/// Holds one path against the first of its group: it has to have as many
/// segments and, at every level from `level` down, the same key.
pub fn entry_mismatch(first: &Entry<'_>, entry: &Entry<'_>, level: usize) -> (r: Option<TreeError>)
    ensures
        failure_of(r) == mismatch(
            entry_of(*first),
            entry_of(*entry),
            level as nat,
            entry_of(*first).segments.len(),
        ),
{
    let depth = first.0.len();
    let other = entry.0.len();
    if other != depth {
        return Some(
            TreeError::DepthMismatch {
                segments: depth,
                other,
                first: entry_path(first),
                path: entry_path(entry),
            },
        );
    }
    let mut d: usize = level;
    while d < depth
        invariant
            level <= d,
            depth == first.0@.len(),
            depth == entry.0@.len(),
            key_mismatch(entry_of(*first), entry_of(*entry), level as nat, depth as nat)
                == key_mismatch(entry_of(*first), entry_of(*entry), d as nat, depth as nat),
        decreases depth - d,
    {
        let expected = first.0[d].key;
        let key = entry.0[d].key;
        if rank_text(key, expected) != Rank::Same {
            return Some(
                TreeError::KeyMismatch {
                    depth: d,
                    expected: expected.to_owned(),
                    found: key.to_owned(),
                    first: entry_path(first),
                    path: entry_path(entry),
                },
            );
        }
        d += 1;
    }
    None
}

/// Looks through a group for the first path that does not have the schema of
/// the first from `level` down.
pub fn group_mismatch(paths: &[Entry<'_>], level: usize) -> (r: Option<TreeError>)
    requires
        paths@.len() > 0,
    ensures
        failure_of(r) == first_mismatch(
            entries_of(paths@),
            level as nat,
            depth_of(entries_of(paths@)),
            0,
        ),
{
    let ghost all = entries_of(paths@);
    let ghost depth = depth_of(all);
    let mut i: usize = 0;
    while i < paths.len()
        invariant
            i <= paths.len(),
            paths.len() > 0,
            all == entries_of(paths@),
            depth == all[0].segments.len(),
            first_mismatch(all, level as nat, depth, 0) == first_mismatch(
                all,
                level as nat,
                depth,
                i as nat,
            ),
        decreases paths.len() - i,
    {
        let r = entry_mismatch(&paths[0], &paths[i], level);
        if r.is_some() {
            return r;
        }
        i += 1;
    }
    None
}

/// The descriptors of `paths`, in their order.
pub fn descriptors(paths: &[Entry<'_>]) -> (files: Vec<ParquetDeltaFile>)
    ensures
        files@ == files_of(entries_of(paths@)),
{
    let ghost all = entries_of(paths@);
    let mut files: Vec<ParquetDeltaFile> = Vec::new();
    let mut k: usize = 0;
    while k < paths.len()
        invariant
            k <= paths.len(),
            all == entries_of(paths@),
            files@ == files_of(all).take(k as int),
        decreases paths.len() - k,
    {
        files.push(paths[k].1);
        assert(files@ =~= files_of(all).take(k + 1));
        k += 1;
    }
    assert(files@ =~= files_of(all));
    files
}

/// The end of the run that begins at `start`: the place of the first path
/// after `start` whose value at `level` is not that of the path at `start`.
pub fn run_end(paths: &[Entry<'_>], level: usize, start: usize) -> (end: usize)
    requires
        start < paths@.len(),
        forall|k: int| 0 <= k < paths@.len() ==> level < (#[trigger] paths@[k]).0@.len(),
    ensures
        start < end <= paths@.len(),
        end - start == run_length(
            entries_of(paths@).skip(start as int),
            level as nat,
            paths@[start as int].0@[level as int].value@,
        ),
{
    let ghost all = entries_of(paths@);
    let ghost tail = all.skip(start as int);
    let value = paths[start].0[level].value;
    let mut end: usize = start + 1;
    assert(tail.drop_first() =~= all.skip(start + 1));
    while end < paths.len() && rank_text(paths[end].0[level].value, value) == Rank::Same
        invariant
            start < end <= paths.len(),
            all == entries_of(paths@),
            tail == all.skip(start as int),
            forall|k: int| 0 <= k < paths@.len() ==> level < (#[trigger] paths@[k]).0@.len(),
            run_length(tail, level as nat, value@) == (end - start) + run_length(
                all.skip(end as int),
                level as nat,
                value@,
            ),
        decreases paths.len() - end,
    {
        assert(all.skip(end as int).drop_first() =~= all.skip(end + 1));
        end += 1;
    }
    end
}

/// Grows the tree of a group whose paths have as many segments as the first,
/// from `level` down.
fn grow(paths: &[Entry<'_>], level: usize) -> (node: TreeNode)
    requires
        forall|k: int|
            0 <= k < paths@.len() ==> (#[trigger] paths@[k]).0@.len() == depth_of(
                entries_of(paths@),
            ),
    ensures
        node@ == shape_of(entries_of(paths@), level as nat, depth_of(entries_of(paths@))),
    decreases depth_of(entries_of(paths@)) - level,
{
    let ghost all = entries_of(paths@);
    if paths.len() == 0 {
        assert(files_of(all) =~= Seq::<ParquetDeltaFile>::empty());
        return TreeNode::FileEntries { files: Vec::new() };
    }
    let depth = paths[0].0.len();
    if level >= depth {
        return TreeNode::FileEntries { files: descriptors(paths) };
    }
    let mut values: Vec<(String, TreeNode)> = Vec::new();
    let mut start: usize = 0;
    proof {
        assert(all.skip(0) =~= all);
        assert(shapes(values@) + branches(all, level as nat, depth as nat) =~= branches(
            all,
            level as nat,
            depth as nat,
        ));
    }
    while start < paths.len()
        invariant
            start <= paths.len(),
            level < depth,
            all == entries_of(paths@),
            depth == depth_of(all),
            forall|k: int| 0 <= k < paths@.len() ==> (#[trigger] paths@[k]).0@.len() == depth,
            branches(all, level as nat, depth as nat) == shapes(values@) + branches(
                all.skip(start as int),
                level as nat,
                depth as nat,
            ),
        decreases paths.len() - start,
    {
        let ghost tail = all.skip(start as int);
        let value = paths[start].0[level].value;
        let end = run_end(paths, level, start);
        let run = &paths[start..end];
        proof {
            assert(entries_of(run@) =~= tail.take(end - start));
            assert(tail.skip(end - start) =~= all.skip(end as int));
            assert forall|k: int| 0 <= k < run@.len() implies (#[trigger] run@[k]).0@.len()
                == depth_of(entries_of(run@)) by {
                assert(run@[k] == paths@[start + k]);
                assert(run@[0] == paths@[start as int]);
            }
        }
        let child = grow(run, level + 1);
        let ghost before = values@;
        values.push((value.to_owned(), child));
        proof {
            assert(values@.drop_last() =~= before);
            let rest = branches(all.skip(end as int), level as nat, depth as nat);
            assert(shapes(before) + (seq![(value@, child@)] + rest) =~= shapes(values@) + rest);
        }
        start = end;
    }
    assert(shapes(values@) + Seq::<(Seq<char>, Shape)>::empty() =~= shapes(values@));
    TreeNode::Partition { name: paths[0].0[level].key.to_owned(), values }
}

impl DeltaTree {
    /// Grows the tree of `paths` from `level` down. Every path has to have as
    /// many segments as the first and, at every level from `level` down, the
    /// first one's key: the first path that does not fails the whole. The
    /// paths of one value at a level have to stand next to each other to
    /// share a branch: ranked paths do.
    pub fn build_partition(paths: &[Entry<'_>], level: usize) -> (r: Result<TreeNode, TreeError>)
        ensures
            outcome(r) == subtree(entries_of(paths@), level as nat, depth_of(entries_of(paths@))),
    {
        let ghost all = entries_of(paths@);
        if paths.len() == 0 {
            assert(files_of(all) =~= Seq::<ParquetDeltaFile>::empty());
            return Ok(TreeNode::FileEntries { files: Vec::new() });
        }
        match group_mismatch(paths, level) {
            Some(error) => Err(error),
            None => {
                proof {
                    lemma_no_mismatch(all, level as nat, depth_of(all), 0);
                    assert forall|k: int| 0 <= k < paths@.len() implies (#[trigger] paths@[k]).0@.len()
                        == depth_of(all) by {
                        assert(all[k].segments.len() == depth_of(all));
                    }
                }
                Ok(grow(paths, level))
            },
        }
    }
}

/// The texts of `paths`, in their order.
pub open spec fn strings_of(paths: Seq<String>) -> Seq<Seq<char>> {
    Seq::new(paths.len(), |i: int| paths[i]@)
}

/// The directory under `prefix` that holds the paths with `value` in the
/// column `name`.
pub open spec fn branch_prefix(prefix: Seq<char>, name: Seq<char>, value: Seq<char>) -> Seq<char> {
    prefix + name + "="@ + value + "/"@
}

/// The paths of `files` in the directory `prefix`, in their order.
pub open spec fn file_paths(files: Seq<ParquetDeltaFile>, prefix: Seq<char>) -> Seq<Seq<char>> {
    Seq::new(files.len(), |i: int| prefix + rendered(files[i]))
}

impl Shape {
    /// Whether every leaf of the tree lies `depth` partition nodes below its
    /// root.
    pub open spec fn leaves_at(self, depth: nat) -> bool
        decreases self,
    {
        match self {
            Shape::FileEntries { files } => depth == 0,
            Shape::Partition { name, values } => depth > 0 && forall|i: int|
                0 <= i < values.len() ==> (#[trigger] values[i]).1.leaves_at((depth - 1) as nat),
        }
    }

    /// Whether the tree has the schema `keys`: its partition nodes at each
    /// depth bear the key of that depth, so that the nodes under one node bear
    /// one name, and its leaves lie below the last key.
    pub open spec fn follows(self, keys: Seq<Seq<char>>) -> bool
        decreases self,
    {
        match self {
            Shape::FileEntries { files } => keys.len() == 0,
            Shape::Partition { name, values } => keys.len() > 0 && name == keys[0] && forall|i: int|
                0 <= i < values.len() ==> (#[trigger] values[i]).1.follows(keys.drop_first()),
        }
    }

    /// Whether the tree is in the form in which it is grown: a partition node
    /// has a branch, and its branches stand in ascending order of their
    /// values, so that no value has two; the files of a leaf stand in
    /// ascending order.
    pub open spec fn well_formed(self) -> bool
        decreases self,
    {
        match self {
            Shape::FileEntries { files } => forall|i: int, j: int|
                0 <= i < j < files.len() ==> file_le(#[trigger] files[i], #[trigger] files[j]),
            Shape::Partition { name, values } => {
                &&& values.len() > 0
                &&& forall|i: int, j: int|
                    0 <= i < j < values.len() ==> text_lt(
                        (#[trigger] values[i]).0,
                        (#[trigger] values[j]).0,
                    )
                &&& forall|i: int|
                    0 <= i < values.len() ==> (#[trigger] values[i]).1.well_formed()
            },
        }
    }

    /// The paths of the files of the tree, each with `prefix` before it:
    /// branch by branch in the order of the branches, and in a leaf file by
    /// file.
    pub open spec fn paths(self, prefix: Seq<char>) -> Seq<Seq<char>>
        decreases self, 0nat,
    {
        match self {
            Shape::FileEntries { files } => file_paths(files, prefix),
            Shape::Partition { name, values } => branch_paths(name, values, prefix),
        }
    }
}

/// The paths of the files under the branches `values` of the column `name`.
pub open spec fn branch_paths(
    name: Seq<char>,
    values: Seq<(Seq<char>, Shape)>,
    prefix: Seq<char>,
) -> Seq<Seq<char>>
    decreases values, 1nat,
{
    if values.len() == 0 {
        Seq::empty()
    } else {
        values[0].1.paths(branch_prefix(prefix, name, values[0].0)) + branch_paths(
            name,
            values.drop_first(),
            prefix,
        )
    }
}

/// Writes the paths of the files under `node` at the end of `out`, each with
/// `prefix` before it.
pub fn files_in_subtree(prefix: &str, node: &TreeNode, out: &mut Vec<String>)
    ensures
        strings_of(final(out)@) == strings_of(old(out)@) + node@.paths(prefix@),
    decreases node,
{
    let ghost before = strings_of(out@);
    match node {
        TreeNode::FileEntries { files } => {
            let mut i: usize = 0;
            assert(strings_of(out@) =~= before + file_paths(files@, prefix@).take(0));
            while i < files.len()
                invariant
                    i <= files.len(),
                    strings_of(out@) == before + file_paths(files@, prefix@).take(i as int),
                decreases files.len() - i,
            {
                let mut path = prefix.to_owned();
                let name = files[i].name();
                path.append(name.as_str());
                let ghost shown = strings_of(out@);
                out.push(path);
                assert(strings_of(out@) =~= shown + seq![path@]);
                assert(strings_of(out@) =~= before + file_paths(files@, prefix@).take(i + 1));
                i += 1;
            }
            assert(file_paths(files@, prefix@).take(files@.len() as int) =~= file_paths(
                files@,
                prefix@,
            ));
        },
        TreeNode::Partition { name, values } => {
            let ghost all = shapes(values@);
            proof {
                lemma_shapes(values@);
                assert forall|k: int| 0 <= k < values@.len() implies decreases_to!(node => (#[trigger] values@[k]).1) by {
                    assert(decreases_to!(node => values));
                    assert(decreases_to!(values => values@));
                    assert(decreases_to!(values@ => values@[k]));
                    assert(decreases_to!(values@[k] => values@[k].1));
                }
                assert(all.skip(0) =~= all);
                assert(before + branch_paths(name@, all, prefix@) =~= strings_of(out@)
                    + branch_paths(name@, all, prefix@));
            }
            let mut i: usize = 0;
            while i < values.len()
                invariant
                    i <= values.len(),
                    forall|k: int|
                        0 <= k < values@.len() ==> decreases_to!(node => (#[trigger] values@[k]).1),
                    all == shapes(values@),
                    all.len() == values@.len(),
                    forall|k: int|
                        0 <= k < values@.len() ==> #[trigger] all[k] == (
                            values@[k].0@,
                            values@[k].1@,
                        ),
                    before + branch_paths(name@, all, prefix@) == strings_of(out@) + branch_paths(
                        name@,
                        all.skip(i as int),
                        prefix@,
                    ),
                decreases values.len() - i,
            {
                let branch = &values[i];
                let mut sub_prefix = prefix.to_owned();
                sub_prefix.append(name.as_str());
                sub_prefix.append("=");
                sub_prefix.append(branch.0.as_str());
                sub_prefix.append("/");
                let ghost shown = strings_of(out@);
                let ghost rest = all.skip(i as int);
                files_in_subtree(sub_prefix.as_str(), &branch.1, out);
                proof {
                    assert(rest[0] == all[i as int]);
                    assert(rest.drop_first() =~= all.skip(i + 1));
                    assert(sub_prefix@ =~= branch_prefix(prefix@, name@, rest[0].0));
                    assert(shown + (rest[0].1.paths(sub_prefix@) + branch_paths(
                        name@,
                        all.skip(i + 1),
                        prefix@,
                    )) =~= strings_of(out@) + branch_paths(name@, all.skip(i + 1), prefix@));
                }
                i += 1;
            }
            assert(strings_of(out@) + Seq::<Seq<char>>::empty() =~= strings_of(out@));
        },
    }
}

impl DeltaTree {
    /// The paths of the files of the tree: branch by branch in ascending
    /// order of the values, and in a leaf file by file.
    pub fn files(&self) -> (r: Vec<String>)
        ensures
            strings_of(r@) == self@.paths(Seq::empty()),
    {
        let mut out: Vec<String> = Vec::new();
        proof {
            reveal_strlit("");
        }
        files_in_subtree("", &self.root, &mut out);
        assert(""@ =~= Seq::<char>::empty());
        assert(strings_of(Seq::<String>::empty()) + self@.paths(Seq::empty()) =~= self@.paths(
            Seq::empty(),
        ));
        out
    }
}

/// What each of `paths` holds, in their order, or the complaint about the
/// first of them that is not a path.
pub open spec fn entries_from(paths: Seq<Seq<char>>) -> Result<Seq<PathEntry>, Failure>
    decreases paths.len(),
{
    if paths.len() == 0 {
        Ok(Seq::empty())
    } else {
        match entry_at(paths[0]) {
            Err(failure) => Err(failure),
            Ok(entry) => match entries_from(paths.drop_first()) {
                Ok(rest) => Ok(seq![entry] + rest),
                Err(failure) => Err(failure),
            },
        }
    }
}

/// `rest` with the paths `done` before it.
pub open spec fn entries_after(
    done: Seq<PathEntry>,
    rest: Result<Seq<PathEntry>, Failure>,
) -> Result<Seq<PathEntry>, Failure> {
    match rest {
        Ok(entries) => Ok(done + entries),
        Err(failure) => Err(failure),
    }
}

/// `entries` in ascending order.
pub open spec fn ranked(entries: Seq<PathEntry>) -> Seq<PathEntry> {
    entries.sort_by(entry_order())
}

/// The tree of the manifest `paths`: the tree of what the paths hold, ranked,
/// from the first segment down. Of no paths it is a leaf without files.
pub open spec fn grown(paths: Seq<Seq<char>>) -> Result<Shape, Failure> {
    match entries_from(paths) {
        Err(failure) => Err(failure),
        Ok(entries) => subtree(ranked(entries), 0, depth_of(ranked(entries))),
    }
}

/// A result of growing a whole tree, with its texts as sequences of
/// characters.
pub open spec fn tree_outcome(r: Result<DeltaTree, TreeError>) -> Result<Shape, Failure> {
    match r {
        Ok(tree) => Ok(tree@),
        Err(error) => Err(error@),
    }
}

impl DeltaTree {
    /// Grows the tree of a manifest. A text that is not a path fails the
    /// whole, and so do two paths that differ in their schema, in the number
    /// of their segments or in the key at one depth, wherever in the manifest
    /// they stand. A tree that is grown is well formed, its leaves lie as
    /// deep as the paths have segments, and its partition nodes at each depth
    /// bear the one key that the paths have there.
    pub fn from_paths(input_files: &Vec<String>) -> (r: Result<DeltaTree, TreeError>)
        ensures
            tree_outcome(r) == grown(strings_of(input_files@)),
            r matches Ok(tree) ==> {
                let paths = strings_of(input_files@);
                &&& tree@.well_formed()
                &&& tree@.leaves_at(manifest_depth(paths))
                &&& tree@.follows(manifest_keys(paths))
                &&& forall|i: int|
                    0 <= i < paths.len() ==> segment_count(#[trigger] paths[i]) == manifest_depth(
                        paths,
                    )
                &&& forall|i: int, d: int|
                    0 <= i < paths.len() && 0 <= d < manifest_depth(paths) ==> #[trigger] key_at(
                        paths[i],
                        d,
                    ) == key_at(paths[0], d)
            },
    {
        let ghost paths = strings_of(input_files@);
        let mut components: Vec<Entry<'_>> = Vec::new();
        let mut i: usize = 0;
        proof {
            assert(paths.skip(0) =~= paths);
            assert(entries_of(components@) + entries_from(paths)->Ok_0 =~= entries_from(
                paths,
            )->Ok_0);
        }
        while i < input_files.len()
            invariant
                i <= input_files.len(),
                paths == strings_of(input_files@),
                entries_from(paths) == entries_after(
                    entries_of(components@),
                    entries_from(paths.skip(i as int)),
                ),
            decreases input_files.len() - i,
        {
            let ghost rest = paths.skip(i as int);
            assert(rest[0] == input_files@[i as int]@);
            assert(rest.drop_first() =~= paths.skip(i + 1));
            let entry = match read_path(input_files[i].as_str()) {
                Ok(entry) => entry,
                Err(error) => {
                    return Err(error);
                },
            };
            let ghost before = entries_of(components@);
            components.push(entry);
            proof {
                assert(entries_of(components@) =~= before + seq![entry_of(entry)]);
                let after = entries_from(paths.skip(i + 1));
                if after is Ok {
                    assert(before + (seq![entry_of(entry)] + after->Ok_0) =~= entries_of(
                        components@,
                    ) + after->Ok_0);
                }
            }
            i += 1;
        }
        let ghost entries = entries_of(components@);
        assert(entries + Seq::<PathEntry>::empty() =~= entries);
        let sorted = sort_entries(components);
        proof {
            lemma_entry_total();
            entries.lemma_sort_by_ensures(entry_order());
            lemma_sorted_unique(entries_of(sorted@), ranked(entries), entry_order());
            if grown(paths) is Ok {
                lemma_grown_well_formed(paths);
                lemma_uniform_depth(paths);
                lemma_uniform_schema(paths);
            }

        }
        match Self::build_partition(sorted.as_slice(), 0) {
            Ok(root) => Ok(DeltaTree { root }),
            Err(error) => Err(error),
        }
    }
}

} // verus!
