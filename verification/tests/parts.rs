use std::cmp::Ordering;

use deltatree::codec::{digits_in, hyphenated_in, CompressionType, ParquetDeltaFile};
use deltatree::error::TreeError;
use deltatree::order::{compression_place, entry_ordering};
use deltatree::segment::{entry_path, Entry, PartitionPath};
use deltatree::text::{chars_of, holds_at};
use deltatree::tree::{
    descriptors, entry_mismatch, files_in_subtree, group_mismatch, run_end, TreeNode,
};

fn described(partition: u32) -> ParquetDeltaFile {
    ParquetDeltaFile {
        partition,
        uuid: 255,
        cluster: 1,
        compression: CompressionType::GZIP,
    }
}

fn entry<'a>(segments: &[(&'a str, &'a str)], partition: u32) -> Entry<'a> {
    (
        segments
            .iter()
            .map(|(key, value)| PartitionPath { key, value })
            .collect(),
        described(partition),
    )
}

#[test]
fn characters_of_a_text() {
    assert_eq!(chars_of("aé東"), vec!['a', 'é', '東']);
    assert_eq!(chars_of(""), Vec::<char>::new());
}

#[test]
fn pattern_is_looked_for_at_one_place() {
    let chars = chars_of("part-001.c");
    assert!(holds_at(&chars, 0, "part-"));
    assert!(holds_at(&chars, 8, ".c"));
    assert!(holds_at(&chars, 10, ""));
    assert!(!holds_at(&chars, 1, "part-"));
    assert!(!holds_at(&chars, 9, "c."));
    assert!(!holds_at(&chars, 11, ""));
    assert!(!holds_at(&chars, 0, "part-001.cc"));
}

#[test]
fn digits_are_looked_for_in_a_range() {
    let chars = chars_of("ab0129x");
    assert!(digits_in(&chars, 2, 6));
    assert!(digits_in(&chars, 3, 3));
    assert!(!digits_in(&chars, 1, 6));
    assert!(!digits_in(&chars, 2, 7));
}

#[test]
fn identifier_is_looked_for_at_one_place() {
    let good = chars_of("xx477077ae-1429-4633-B07A-0c0cb75caf55yy");
    assert!(hyphenated_in(&good, 2));
    assert!(!hyphenated_in(&good, 1));
    let no_hyphen = chars_of("477077ae0142904633-b07a-0c0cb75caf55");
    assert!(!hyphenated_in(&no_hyphen, 0));
    let not_hex = chars_of("477077ae-1429-4633-b07a-0c0cb75caf5g");
    assert!(!hyphenated_in(&not_hex, 0));
}

#[test]
fn codecs_have_their_places() {
    assert_eq!(compression_place(CompressionType::SNAPPY), 0);
    assert_eq!(compression_place(CompressionType::GZIP), 1);
    assert_eq!(compression_place(CompressionType::NONE), 2);
}

#[test]
fn paths_are_ordered_for_the_sort() {
    let a = entry(&[("a", "1")], 2);
    let b = entry(&[("a", "1")], 3);
    let c = entry(&[("a", "10")], 0);
    assert_eq!(entry_ordering(&a, &b), Ordering::Less);
    assert_eq!(entry_ordering(&b, &a), Ordering::Greater);
    assert_eq!(entry_ordering(&a, &a), Ordering::Equal);
    assert_eq!(entry_ordering(&b, &c), Ordering::Less);
}

const P1: &str = "a=1/b=1/part-00001-00000000-0000-0000-0000-0000000000ff.c001.gzip.parquet";
const P2: &str = "a=2/c=1/part-00002-00000000-0000-0000-0000-0000000000ff.c001.gzip.parquet";
const P3: &str = "a=3/part-00003-00000000-0000-0000-0000-0000000000ff.c001.gzip.parquet";

#[test]
fn path_of_an_entry_is_written() {
    assert_eq!(entry_path(&entry(&[("a", "1"), ("b", "1")], 1)), P1);
    assert_eq!(entry_path(&entry(&[("a", "3")], 3)), P3);
    assert_eq!(
        entry_path(&entry(&[], 3)),
        "part-00003-00000000-0000-0000-0000-0000000000ff.c001.gzip.parquet"
    );
    assert_eq!(
        entry_path(&entry(&[("k", "x=y"), ("", "")], 12)),
        "k=x=y/=/part-00012-00000000-0000-0000-0000-0000000000ff.c001.gzip.parquet"
    );
}

#[test]
fn first_mismatch_of_a_group_is_found() {
    let group = [
        entry(&[("a", "1"), ("b", "1")], 1),
        entry(&[("a", "2"), ("c", "1")], 2),
        entry(&[("a", "3")], 3),
    ];
    let keys = Some(TreeError::KeyMismatch {
        depth: 1,
        expected: "b".to_string(),
        found: "c".to_string(),
        first: P1.to_string(),
        path: P2.to_string(),
    });
    let depths = Some(TreeError::DepthMismatch {
        segments: 2,
        other: 1,
        first: P1.to_string(),
        path: P3.to_string(),
    });
    assert_eq!(group_mismatch(&group, 0), keys);
    assert_eq!(group_mismatch(&group, 1), keys);
    assert_eq!(group_mismatch(&group, 2), depths);
    assert_eq!(group_mismatch(&group[..2], 0), keys);
    assert_eq!(group_mismatch(&group[..2], 2), None);
    assert_eq!(group_mismatch(&group[..1], 0), None);
    assert_eq!(group_mismatch(&group[2..], 0), None);
    assert_eq!(entry_mismatch(&group[0], &group[1], 0), keys);
    assert_eq!(entry_mismatch(&group[0], &group[2], 0), depths);
    assert_eq!(entry_mismatch(&group[0], &group[0], 0), None);
    assert_eq!(
        entry_mismatch(&group[1], &group[0], 1),
        Some(TreeError::KeyMismatch {
            depth: 1,
            expected: "c".to_string(),
            found: "b".to_string(),
            first: P2.to_string(),
            path: P1.to_string(),
        })
    );
}

#[test]
fn run_ends_where_the_value_changes() {
    let group = [
        entry(&[("a", "1")], 1),
        entry(&[("a", "1")], 2),
        entry(&[("a", "2")], 3),
        entry(&[("a", "1")], 4),
    ];
    assert_eq!(run_end(&group, 0, 0), 2);
    assert_eq!(run_end(&group, 0, 1), 2);
    assert_eq!(run_end(&group, 0, 2), 3);
    assert_eq!(run_end(&group, 0, 3), 4);
    assert_eq!(
        descriptors(&group),
        vec![described(1), described(2), described(3), described(4)]
    );
}

#[test]
fn paths_under_a_node_follow_what_was_there() {
    let node = TreeNode::Partition {
        name: "k".to_string(),
        values: vec![
            (
                "v".to_string(),
                TreeNode::FileEntries {
                    files: vec![described(1)],
                },
            ),
            ("w".to_string(), TreeNode::FileEntries { files: vec![] }),
            (
                "x".to_string(),
                TreeNode::FileEntries {
                    files: vec![described(2), described(3)],
                },
            ),
        ],
    };
    let mut out = vec!["kept".to_string()];
    files_in_subtree("root/", &node, &mut out);
    assert_eq!(
        out,
        vec![
            "kept".to_string(),
            "root/k=v/part-00001-00000000-0000-0000-0000-0000000000ff.c001.gzip.parquet"
                .to_string(),
            "root/k=x/part-00002-00000000-0000-0000-0000-0000000000ff.c001.gzip.parquet"
                .to_string(),
            "root/k=x/part-00003-00000000-0000-0000-0000-0000000000ff.c001.gzip.parquet"
                .to_string(),
        ]
    );
}
