//! How much memory a manifest takes as a list of paths, and how much as a
//! tree. The two figures are estimates for comparing the two forms with each
//! other: they count the texts and a fixed size for each node and file.

use vstd::prelude::*;
use vstd::utf8::encode_utf8;

use crate::tree::{lemma_shapes, shapes, strings_of, Shape, TreeNode};

verus! {

/// The bytes counted for one file in a leaf.
pub const FILE_ENTRY_BYTES: usize = 32;

/// The bytes counted for a partition node besides its texts and its subtrees.
pub const PARTITION_NODE_BYTES: usize = 48;

/// The number of bytes of `text` in UTF-8.
pub open spec fn byte_length(text: Seq<char>) -> nat {
    encode_utf8(text).len()
}

/// The bytes of all of `paths`.
pub open spec fn flat_bytes(paths: Seq<Seq<char>>) -> nat
    decreases paths.len(),
{
    if paths.len() == 0 {
        0
    } else {
        flat_bytes(paths.drop_last()) + byte_length(paths.last())
    }
}

/// The bytes counted for a tree: for a leaf the fixed size of a file for each
/// of its files; for a partition node its fixed size, its name, and for each
/// branch the value and the subtree.
pub open spec fn tree_bytes(shape: Shape) -> nat
    decreases shape, 0nat,
{
    match shape {
        Shape::FileEntries { files } => FILE_ENTRY_BYTES as nat * files.len(),
        Shape::Partition { name, values } => PARTITION_NODE_BYTES as nat + byte_length(name)
            + branch_bytes(values),
    }
}

/// The bytes counted for the branches `values`.
pub open spec fn branch_bytes(values: Seq<(Seq<char>, Shape)>) -> nat
    decreases values, 1nat,
{
    if values.len() == 0 {
        0
    } else {
        branch_bytes(values.drop_last()) + byte_length(values.last().0) + tree_bytes(
            values.last().1,
        )
    }
}

/// `total` where it fits in a `usize`, else the largest `usize`.
pub open spec fn capped(total: nat) -> usize {
    if total > usize::MAX {
        usize::MAX
    } else {
        total as usize
    }
}

/// The memory of a manifest kept as a list of paths: the bytes of the paths.
/// A sum beyond the largest `usize` is given as the largest `usize`.
pub fn estimate_file_memory(files: &Vec<String>) -> (r: usize)
    ensures
        r == capped(flat_bytes(strings_of(files@))),
{
    let ghost paths = strings_of(files@);
    let mut total: usize = 0;
    let mut i: usize = 0;
    while i < files.len()
        invariant
            i <= files.len(),
            paths == strings_of(files@),
            total == capped(flat_bytes(paths.take(i as int))),
        decreases files.len() - i,
    {
        assert(paths.take(i + 1).drop_last() =~= paths.take(i as int));
        total = total.saturating_add(files[i].as_str().as_bytes().len());
        i += 1;
    }
    assert(paths.take(files@.len() as int) =~= paths);
    total
}

/// The memory of a manifest kept as a tree. A sum beyond the largest `usize`
/// is given as the largest `usize`.
pub fn estimate_tree_memory(tree: &TreeNode) -> (r: usize)
    ensures
        r == capped(tree_bytes(tree@)),
    decreases tree,
{
    match tree {
        TreeNode::FileEntries { files } => {
            if files.len() > usize::MAX / FILE_ENTRY_BYTES {
                usize::MAX
            } else {
                FILE_ENTRY_BYTES * files.len()
            }
        },
        TreeNode::Partition { name, values } => {
            let ghost all = shapes(values@);
            proof {
                lemma_shapes(values@);
                assert forall|k: int| 0 <= k < values@.len() implies decreases_to!(tree => (#[trigger] values@[k]).1) by {
                    assert(decreases_to!(tree => values));
                    assert(decreases_to!(values => values@));
                    assert(decreases_to!(values@ => values@[k]));
                    assert(decreases_to!(values@[k] => values@[k].1));
                }
                assert(all.take(0) =~= Seq::<(Seq<char>, Shape)>::empty());
            }
            let mut total: usize = PARTITION_NODE_BYTES.saturating_add(name.as_str().as_bytes().len());
            let mut i: usize = 0;
            while i < values.len()
                invariant
                    i <= values.len(),
                    forall|k: int|
                        0 <= k < values@.len() ==> decreases_to!(tree => (#[trigger] values@[k]).1),
                    all == shapes(values@),
                    all.len() == values@.len(),
                    forall|k: int|
                        0 <= k < values@.len() ==> #[trigger] all[k] == (
                            values@[k].0@,
                            values@[k].1@,
                        ),
                    total == capped(
                        PARTITION_NODE_BYTES as nat + byte_length(name@) + branch_bytes(
                            all.take(i as int),
                        ),
                    ),
                decreases values.len() - i,
            {
                let branch = &values[i];
                assert(all.take(i + 1).drop_last() =~= all.take(i as int));
                assert(all.take(i + 1).last() == all[i as int]);
                total = total.saturating_add(branch.0.as_str().as_bytes().len());
                total = total.saturating_add(estimate_tree_memory(&branch.1));
                i += 1;
            }
            assert(all.take(values@.len() as int) =~= all);
            total
        },
    }
}

} // verus!
