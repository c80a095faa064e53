use deltatree::memory::{
    estimate_file_memory, estimate_tree_memory, FILE_ENTRY_BYTES, PARTITION_NODE_BYTES,
};
use deltatree::rowgroup::{filter_row_group_for_idx, read_le_i64, DESIRED_INDEX};
use deltatree::tree::{DeltaTree, TreeNode};

const F1: &str = "part-00007-00000000-0000-0000-0000-000000000000.c000.snappy.parquet";
const F2: &str = "part-00007-00000000-0000-0000-0000-000000000001.c001.snappy.parquet";
const F3: &str = "part-00007-00000000-0000-0000-0000-000000000002.c002.snappy.parquet";
const F4: &str = "part-00007-00000000-0000-0000-0000-000000000003.c003.snappy.parquet";

#[test]
fn list_of_paths_counts_its_bytes() {
    assert_eq!(estimate_file_memory(&vec![]), 0);
    assert_eq!(
        estimate_file_memory(&vec!["ab".to_string(), "cdé".to_string(), "".to_string()]),
        6
    );
    assert_eq!(estimate_file_memory(&vec![F1.to_string(), F2.to_string()]), 134);
}

#[test]
fn leaf_counts_a_fixed_size_for_each_file() {
    assert_eq!(FILE_ENTRY_BYTES, 32);
    let paths = vec![
        F1.to_string(),
        F2.to_string(),
        F3.to_string(),
        F4.to_string(),
    ];
    let tree = DeltaTree::from_paths(&paths).unwrap();
    assert_eq!(estimate_tree_memory(&tree.root), 128);
    assert_eq!(
        estimate_tree_memory(&TreeNode::FileEntries { files: vec![] }),
        0
    );
}

#[test]
fn partition_node_counts_its_texts_and_its_subtrees() {
    assert_eq!(PARTITION_NODE_BYTES, 48);
    let paths = vec![
        "a=1/b=1/".to_string() + F1,
        "a=4/b=2/".to_string() + F2,
        "a=1/b=7/".to_string() + F3,
        "a=4/b=1/".to_string() + F4,
    ];
    let tree = DeltaTree::from_paths(&paths).unwrap();
    assert_eq!(estimate_tree_memory(&tree.root), 281);
    assert_eq!(estimate_file_memory(&paths), 4 * (8 + 67));
    let wide = TreeNode::Partition {
        name: "città".to_string(),
        values: vec![("東京".to_string(), TreeNode::FileEntries { files: vec![] })],
    };
    assert_eq!(estimate_tree_memory(&wide), 48 + 6 + 6);
}

#[test]
fn eight_bytes_are_read_with_the_first_counting_least() {
    assert_eq!(read_le_i64(&[0x40, 0x4b, 0x4c, 0, 0, 0, 0, 0]), 5000000);
    assert_eq!(read_le_i64(&[0; 8]), 0);
    assert_eq!(read_le_i64(&[1, 2, 0, 0, 0, 0, 0, 0]), 513);
    assert_eq!(read_le_i64(&[0xff; 8]), -1);
    assert_eq!(read_le_i64(&[0, 0, 0, 0, 0, 0, 0, 0x80]), i64::MIN);
    assert_eq!(
        read_le_i64(&[0xff, 0xff, 0xff, 0xff, 0xff, 0xff, 0xff, 0x7f]),
        i64::MAX
    );
    assert_eq!(read_le_i64(&(-5000000i64).to_le_bytes()), -5000000);
}

#[test]
fn row_group_is_kept_where_the_index_lies_within_its_statistics() {
    assert_eq!(DESIRED_INDEX, 5000000);
    let at = DESIRED_INDEX.to_le_bytes();
    let below = (DESIRED_INDEX - 1).to_le_bytes();
    let above = (DESIRED_INDEX + 1).to_le_bytes();
    let least = i64::MIN.to_le_bytes();
    assert!(filter_row_group_for_idx(None));
    assert!(filter_row_group_for_idx(Some((&at, &at))));
    assert!(filter_row_group_for_idx(Some((&below, &above))));
    assert!(filter_row_group_for_idx(Some((&least, &at))));
    assert!(!filter_row_group_for_idx(Some((&above, &above))));
    assert!(!filter_row_group_for_idx(Some((&least, &below))));
    assert!(!filter_row_group_for_idx(Some((&above, &below))));
}
