use deltatree::codec::{CompressionType, ParquetDeltaFile};
use deltatree::error::TreeError;
use deltatree::order::{rank_entries, rank_files, rank_segments, rank_text, Rank};
use deltatree::segment::{read_path, split_path, PartitionPath};
use deltatree::tree::{DeltaTree, TreeNode};

const G1: &str = "part-00001-00000000-0000-0000-0000-00000000000a.c000.snappy.parquet";
const G2: &str = "part-00002-00000000-0000-0000-0000-00000000000b.c001.gzip.parquet";
const G3: &str = "part-00003-00000000-0000-0000-0000-00000000000c.c002.none.parquet";

fn file(partition: u32, uuid: u128, cluster: u8, compression: CompressionType) -> ParquetDeltaFile {
    ParquetDeltaFile {
        partition,
        uuid,
        cluster,
        compression,
    }
}

fn manifest(paths: &[&str]) -> Vec<String> {
    paths.iter().map(|p| p.to_string()).collect()
}

fn sorted(mut paths: Vec<String>) -> Vec<String> {
    paths.sort();
    paths
}

fn leaf_depths(node: &TreeNode, depth: usize, out: &mut Vec<usize>) {
    match node {
        TreeNode::FileEntries { .. } => out.push(depth),
        TreeNode::Partition { values, .. } => {
            for (_, child) in values {
                leaf_depths(child, depth + 1, out);
            }
        }
    }
}

#[test]
fn empty_manifest_is_an_empty_leaf() {
    let tree = DeltaTree::from_paths(&Vec::new()).unwrap();
    assert_eq!(
        tree,
        DeltaTree {
            root: TreeNode::FileEntries { files: vec![] }
        }
    );
    assert_eq!(tree.files(), Vec::<String>::new());
}

#[test]
fn tree_does_not_depend_on_the_order_of_the_paths() {
    let a = format!("year=2021/month=3/{}", G1);
    let b = format!("year=2021/month=11/{}", G2);
    let c = format!("year=2020/month=3/{}", G3);
    let d = format!("year=2021/month=3/{}", G3);
    let first = DeltaTree::from_paths(&vec![a.clone(), b.clone(), c.clone(), d.clone()]).unwrap();
    let second = DeltaTree::from_paths(&vec![d.clone(), c.clone(), b.clone(), a.clone()]).unwrap();
    let third = DeltaTree::from_paths(&vec![c, a, d, b]).unwrap();
    assert_eq!(first, second);
    assert_eq!(first, third);
}

#[test]
fn branches_and_files_stand_in_ascending_order() {
    let paths = manifest(&[
        &format!("k=b/{}", G3),
        &format!("k=a/{}", G2),
        &format!("k=b/{}", G1),
        &format!("k=B/{}", G1),
    ]);
    let tree = DeltaTree::from_paths(&paths).unwrap();
    let expected = TreeNode::Partition {
        name: "k".to_string(),
        values: vec![
            (
                "B".to_string(),
                TreeNode::FileEntries {
                    files: vec![file(1, 10, 0, CompressionType::SNAPPY)],
                },
            ),
            (
                "a".to_string(),
                TreeNode::FileEntries {
                    files: vec![file(2, 11, 1, CompressionType::GZIP)],
                },
            ),
            (
                "b".to_string(),
                TreeNode::FileEntries {
                    files: vec![
                        file(1, 10, 0, CompressionType::SNAPPY),
                        file(3, 12, 2, CompressionType::NONE),
                    ],
                },
            ),
        ],
    };
    assert_eq!(tree.root, expected);
    assert_eq!(
        tree.files(),
        manifest(&[
            &format!("k=B/{}", G1),
            &format!("k=a/{}", G2),
            &format!("k=b/{}", G1),
            &format!("k=b/{}", G3),
        ])
    );
}

#[test]
fn flattening_gives_each_path_as_often_as_the_manifest_holds_it() {
    let paths = manifest(&[
        &format!("a=1/{}", G2),
        &format!("a=1/{}", G1),
        &format!("a=1/{}", G2),
        &format!("a=0/{}", G3),
    ]);
    let tree = DeltaTree::from_paths(&paths).unwrap();
    assert_eq!(sorted(tree.files()), sorted(paths));
}

#[test]
fn values_may_hold_equal_signs_and_any_characters() {
    let paths = manifest(&[
        &format!("città=Zürich/q=a=b=c/{}", G1),
        &format!("città=東京/q=/{}", G2),
        &format!("città=Zürich/q=a=b/{}", G3),
    ]);
    let tree = DeltaTree::from_paths(&paths).unwrap();
    assert_eq!(sorted(tree.files()), sorted(paths));
    match &tree.root {
        TreeNode::Partition { name, values } => {
            assert_eq!(name, "città");
            assert_eq!(values.len(), 2);
            assert_eq!(values[0].0, "Zürich");
            assert_eq!(values[1].0, "東京");
        }
        TreeNode::FileEntries { .. } => panic!("a partition node was expected"),
    }
}

#[test]
fn upper_case_identifiers_come_back_in_lower_case() {
    let upper = "a=1/part-00001-0000000A-0000-0000-0000-00000000000A.c000.snappy.parquet";
    let lower = "a=1/part-00001-0000000a-0000-0000-0000-00000000000a.c000.snappy.parquet";
    let tree = DeltaTree::from_paths(&manifest(&[upper])).unwrap();
    assert_eq!(tree.files(), manifest(&[lower]));
}

#[test]
fn every_leaf_lies_as_deep_as_the_paths_have_segments() {
    let paths = manifest(&[
        &format!("a=1/b=1/c=1/{}", G1),
        &format!("a=1/b=2/c=1/{}", G2),
        &format!("a=2/b=1/c=5/{}", G3),
    ]);
    let tree = DeltaTree::from_paths(&paths).unwrap();
    let mut depths = Vec::new();
    leaf_depths(&tree.root, 0, &mut depths);
    assert_eq!(depths, vec![3, 3, 3]);
}

#[test]
fn paths_of_different_depths_are_refused() {
    let deep = format!("a=1/b=2/{}", G1);
    let flat = format!("a=1/{}", G2);
    assert_eq!(
        DeltaTree::from_paths(&vec![deep.clone(), flat.clone()]),
        Err(TreeError::DepthMismatch {
            segments: 1,
            other: 2,
            first: flat.clone(),
            path: deep.clone(),
        })
    );
    let with_bare = manifest(&[&format!("a=1/{}", G1), G2]);
    assert_eq!(
        DeltaTree::from_paths(&with_bare),
        Err(TreeError::DepthMismatch {
            segments: 0,
            other: 1,
            first: G2.to_string(),
            path: format!("a=1/{}", G1),
        })
    );
}

#[test]
fn paths_of_different_keys_are_refused() {
    let b = format!("b=1/{}", G1);
    let a = format!("a=1/{}", G2);
    assert_eq!(
        DeltaTree::from_paths(&vec![b.clone(), a.clone()]),
        Err(TreeError::KeyMismatch {
            depth: 0,
            expected: "a".to_string(),
            found: "b".to_string(),
            first: a,
            path: b,
        })
    );
    let x = format!("a=1/x=1/{}", G1);
    let y = format!("a=1/y=1/{}", G2);
    assert_eq!(
        DeltaTree::from_paths(&vec![x.clone(), y.clone()]),
        Err(TreeError::KeyMismatch {
            depth: 1,
            expected: "x".to_string(),
            found: "y".to_string(),
            first: x,
            path: y,
        })
    );
}

#[test]
fn paths_of_different_keys_under_different_values_are_refused() {
    let x = format!("a=1/x=1/{}", G1);
    let y = format!("a=2/y=1/{}", G2);
    let expected = Err(TreeError::KeyMismatch {
        depth: 1,
        expected: "x".to_string(),
        found: "y".to_string(),
        first: x.clone(),
        path: y.clone(),
    });
    assert_eq!(DeltaTree::from_paths(&vec![x.clone(), y.clone()]), expected);
    assert_eq!(DeltaTree::from_paths(&vec![y.clone(), x.clone()]), expected);
    let b = "a=1/b=1/part-00007-00000000-0000-0000-0000-000000000000.c000.snappy.parquet";
    let c = "a=2/c=1/part-00007-00000000-0000-0000-0000-000000000001.c001.snappy.parquet";
    assert_eq!(
        DeltaTree::from_paths(&manifest(&[b, c])),
        Err(TreeError::KeyMismatch {
            depth: 1,
            expected: "b".to_string(),
            found: "c".to_string(),
            first: b.to_string(),
            path: c.to_string(),
        })
    );
    let deep = manifest(&[
        &format!("a=1/b=1/c=1/{}", G1),
        &format!("a=1/b=2/c=1/{}", G2),
        &format!("a=2/b=1/d=1/{}", G3),
    ]);
    assert_eq!(
        DeltaTree::from_paths(&deep),
        Err(TreeError::KeyMismatch {
            depth: 2,
            expected: "c".to_string(),
            found: "d".to_string(),
            first: deep[0].clone(),
            path: deep[2].clone(),
        })
    );
}

#[test]
fn group_with_two_keys_at_one_level_is_refused_from_any_level_above() {
    let x = (
        vec![
            PartitionPath {
                key: "a",
                value: "1",
            },
            PartitionPath {
                key: "x",
                value: "1",
            },
        ],
        file(1, 1, 1, CompressionType::SNAPPY),
    );
    let y = (
        vec![
            PartitionPath {
                key: "a",
                value: "2",
            },
            PartitionPath {
                key: "y",
                value: "1",
            },
        ],
        file(2, 2, 2, CompressionType::SNAPPY),
    );
    let refused = Err(TreeError::KeyMismatch {
        depth: 1,
        expected: "x".to_string(),
        found: "y".to_string(),
        first: "a=1/x=1/part-00001-00000000-0000-0000-0000-000000000001.c001.snappy.parquet"
            .to_string(),
        path: "a=2/y=1/part-00002-00000000-0000-0000-0000-000000000002.c002.snappy.parquet"
            .to_string(),
    });
    assert_eq!(DeltaTree::build_partition(&[x.clone(), y.clone()], 0), refused);
    assert_eq!(DeltaTree::build_partition(&[x.clone(), y.clone()], 1), refused);
    assert_eq!(
        DeltaTree::build_partition(&[x.clone(), y.clone()], 2),
        Ok(TreeNode::FileEntries {
            files: vec![x.1, y.1]
        })
    );
}

#[test]
fn mismatches_are_told_from_bad_texts() {
    let depth = DeltaTree::from_paths(&manifest(&[&format!("a=1/{}", G1), G2])).unwrap_err();
    let key = DeltaTree::from_paths(&manifest(&[
        &format!("a=1/{}", G1),
        &format!("b=1/{}", G2),
    ]))
    .unwrap_err();
    let text = DeltaTree::from_paths(&manifest(&["bogus.txt"])).unwrap_err();
    assert!(depth.is_schema_mismatch());
    assert!(key.is_schema_mismatch());
    assert!(!text.is_schema_mismatch());
}

#[test]
fn text_that_is_no_path_is_refused_with_the_bad_part() {
    let no_equals = manifest(&[&format!("a=1/{}", G1), &format!("no-equals-here/{}", G2)]);
    assert_eq!(
        DeltaTree::from_paths(&no_equals),
        Err(TreeError::Format {
            text: "no-equals-here".to_string()
        })
    );
    let bad_name = manifest(&["a=1/bogus.txt"]);
    assert_eq!(
        DeltaTree::from_paths(&bad_name),
        Err(TreeError::Format {
            text: "bogus.txt".to_string()
        })
    );
    let empty_component = manifest(&[&format!("a=1//{}", G1)]);
    assert_eq!(
        DeltaTree::from_paths(&empty_component),
        Err(TreeError::Format {
            text: "".to_string()
        })
    );
}

#[test]
fn bad_name_is_reported_before_a_bad_segment_and_the_first_bad_path_first() {
    let both = manifest(&["oops/bogus.txt"]);
    assert_eq!(
        DeltaTree::from_paths(&both),
        Err(TreeError::Format {
            text: "bogus.txt".to_string()
        })
    );
    let two = manifest(&[&format!("first/{}", G1), &format!("second/{}", G2)]);
    assert_eq!(
        DeltaTree::from_paths(&two),
        Err(TreeError::Format {
            text: "first".to_string()
        })
    );
}

#[test]
fn component_is_split_at_its_first_equals_sign() {
    assert_eq!(
        DeltaTree::key_value("a=13"),
        Some(PartitionPath {
            key: "a",
            value: "13"
        })
    );
    assert_eq!(DeltaTree::key_value("no-equals-here"), None);
    assert_eq!(
        DeltaTree::key_value("some-key=some-value-with-=-sign"),
        Some(PartitionPath {
            key: "some-key",
            value: "some-value-with-=-sign"
        })
    );
    assert_eq!(
        DeltaTree::key_value("="),
        Some(PartitionPath { key: "", value: "" })
    );
}

#[test]
fn path_is_split_at_every_slash() {
    assert_eq!(split_path("a=1/b=2/f"), vec!["a=1", "b=2", "f"]);
    assert_eq!(split_path("f"), vec!["f"]);
    assert_eq!(split_path(""), vec![""]);
    assert_eq!(split_path("/a//"), vec!["", "a", "", ""]);
    assert_eq!(split_path("é/ü"), vec!["é", "ü"]);
}

#[test]
fn components_are_read_as_segments_and_a_name() {
    let entry = DeltaTree::parse_path(vec!["a=1", "b=x=y", G1]).unwrap();
    assert_eq!(
        entry,
        (
            vec![
                PartitionPath {
                    key: "a",
                    value: "1"
                },
                PartitionPath {
                    key: "b",
                    value: "x=y"
                }
            ],
            file(1, 10, 0, CompressionType::SNAPPY)
        )
    );
    let path = format!("a=1/b=x=y/{}", G1);
    assert_eq!(read_path(&path), Ok(entry));
    assert_eq!(
        DeltaTree::parse_path(vec!["a", G1]),
        Err(TreeError::Format {
            text: "a".to_string()
        })
    );
}

#[test]
fn group_is_split_into_runs_of_one_value() {
    let one = (
        vec![PartitionPath {
            key: "a",
            value: "1",
        }],
        file(1, 1, 1, CompressionType::SNAPPY),
    );
    let two = (
        vec![PartitionPath {
            key: "a",
            value: "2",
        }],
        file(2, 2, 2, CompressionType::SNAPPY),
    );
    let node = DeltaTree::build_partition(&[one.clone(), one.clone(), two.clone()], 0).unwrap();
    assert_eq!(
        node,
        TreeNode::Partition {
            name: "a".to_string(),
            values: vec![
                (
                    "1".to_string(),
                    TreeNode::FileEntries {
                        files: vec![one.1, one.1]
                    }
                ),
                (
                    "2".to_string(),
                    TreeNode::FileEntries { files: vec![two.1] }
                ),
            ],
        }
    );
    let at_the_leaves = DeltaTree::build_partition(&[one.clone(), two.clone()], 1).unwrap();
    assert_eq!(
        at_the_leaves,
        TreeNode::FileEntries {
            files: vec![one.1, two.1]
        }
    );
    assert_eq!(
        DeltaTree::build_partition(&[], 0),
        Ok(TreeNode::FileEntries { files: vec![] })
    );
}

#[test]
fn texts_rank_by_code_point() {
    assert_eq!(rank_text("a", "b"), Rank::Before);
    assert_eq!(rank_text("b", "a"), Rank::After);
    assert_eq!(rank_text("abc", "abc"), Rank::Same);
    assert_eq!(rank_text("ab", "abc"), Rank::Before);
    assert_eq!(rank_text("", ""), Rank::Same);
    assert_eq!(rank_text("10", "9"), Rank::Before);
    assert_eq!(rank_text("Z", "a"), Rank::Before);
    assert_eq!(rank_text("z", "é"), Rank::Before);
    assert_eq!(rank_text("\u{ffff}", "\u{10000}"), Rank::Before);
}

#[test]
fn paths_rank_by_segments_and_then_by_descriptor() {
    let a1 = vec![PartitionPath {
        key: "a",
        value: "1",
    }];
    let a2 = vec![PartitionPath {
        key: "a",
        value: "2",
    }];
    let b0 = vec![PartitionPath {
        key: "b",
        value: "0",
    }];
    let a1b = vec![a1[0], b0[0]];
    assert_eq!(rank_segments(&a1, &a2), Rank::Before);
    assert_eq!(rank_segments(&a2, &b0), Rank::Before);
    assert_eq!(rank_segments(&a1, &a1b), Rank::Before);
    assert_eq!(rank_segments(&a1b, &a2), Rank::Before);
    assert_eq!(rank_segments(&a1b, &a1b), Rank::Same);
    let low = file(1, 5, 9, CompressionType::NONE);
    let high = file(2, 0, 0, CompressionType::SNAPPY);
    assert_eq!(rank_files(&low, &high), Rank::Before);
    assert_eq!(
        rank_files(
            &file(1, 5, 9, CompressionType::SNAPPY),
            &file(1, 5, 9, CompressionType::GZIP)
        ),
        Rank::Before
    );
    assert_eq!(
        rank_files(
            &file(1, 5, 9, CompressionType::NONE),
            &file(1, 5, 9, CompressionType::GZIP)
        ),
        Rank::After
    );
    assert_eq!(rank_files(&file(1, 6, 0, CompressionType::NONE), &low), Rank::After);
    assert_eq!(rank_files(&low, &low), Rank::Same);
    assert_eq!(rank_entries(&(a2.clone(), low), &(a1.clone(), high)), Rank::After);
    assert_eq!(rank_entries(&(a1.clone(), high), &(a1.clone(), low)), Rank::After);
    assert_eq!(rank_entries(&(a1.clone(), low), &(a1, low)), Rank::Same);
}
