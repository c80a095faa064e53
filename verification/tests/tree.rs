use deltatree::codec::name_fields;
use deltatree::segment::PartitionPath;
use deltatree::tree::{CompressionType, DeltaTree, ParquetDeltaFile, TreeNode};
use uuid::Uuid;

const F1: &str = "part-00007-00000000-0000-0000-0000-000000000000.c000.snappy.parquet";
const F2: &str = "part-00007-00000000-0000-0000-0000-000000000001.c001.snappy.parquet";
const F3: &str = "part-00007-00000000-0000-0000-0000-000000000002.c002.snappy.parquet";
const F4: &str = "part-00007-00000000-0000-0000-0000-000000000003.c003.snappy.parquet";

const FE1: ParquetDeltaFile = ParquetDeltaFile {
    partition: 7,
    uuid: 0,
    cluster: 0,
    compression: CompressionType::SNAPPY,
};
const FE2: ParquetDeltaFile = ParquetDeltaFile {
    partition: 7,
    uuid: 1,
    cluster: 1,
    compression: CompressionType::SNAPPY,
};
const FE3: ParquetDeltaFile = ParquetDeltaFile {
    partition: 7,
    uuid: 2,
    cluster: 2,
    compression: CompressionType::SNAPPY,
};
const FE4: ParquetDeltaFile = ParquetDeltaFile {
    partition: 7,
    uuid: 3,
    cluster: 3,
    compression: CompressionType::SNAPPY,
};

#[test]
fn list_of_files_as_flat_tree() {
    let paths = vec![
        F1.to_string(),
        F2.to_string(),
        F3.to_string(),
        F4.to_string(),
    ];
    let tree = DeltaTree::from_paths(&paths).unwrap();
    let expected = DeltaTree {
        root: TreeNode::FileEntries {
            files: vec![FE1, FE2, FE3, FE4],
        },
    };
    assert_eq!(expected, tree);
}

fn tree_round_trip(mut files: Vec<String>) {
    let tree = DeltaTree::from_paths(&files).unwrap();
    let mut files_from_tree = tree.files();

    files.sort();
    files_from_tree.sort();
    assert_eq!(files, files_from_tree);
}

#[test]
fn tree_parse_nested_partitions() {
    let nested_paths: Vec<String> = vec![
        "a=1/b=1/".to_string() + F1,
        "a=4/b=2/".to_string() + F2,
        "a=1/b=7/".to_string() + F3,
        "a=4/b=1/".to_string() + F4,
    ];

    let level_a_1_b = create_leaf_partition("b", vec![("1", FE1), ("7", FE3)]);
    let level_a_4_b = create_leaf_partition("b", vec![("1", FE4), ("2", FE2)]);
    let root = create_partition("a", vec![("1", level_a_1_b), ("4", level_a_4_b)]);
    let expected = DeltaTree { root };

    let actual = DeltaTree::from_paths(&nested_paths).unwrap();

    assert_eq!(expected, actual);
}

#[test]
fn file_name_round_trip() {
    assert_eq!(ParquetDeltaFile::from_string(F1).unwrap().name(), F1);
    assert_eq!(ParquetDeltaFile::from_string(F2).unwrap().name(), F2);
    assert_eq!(ParquetDeltaFile::from_string(F3).unwrap().name(), F3);
    assert_eq!(ParquetDeltaFile::from_string(F4).unwrap().name(), F4);
}

#[test]
fn flat_table_round_trip() {
    let paths = vec![
        F1.to_string(),
        F2.to_string(),
        F3.to_string(),
        F4.to_string(),
    ];
    tree_round_trip(paths);
}

#[test]
fn nested_partitions_round_trip() {
    let nested_paths: Vec<String> = vec![
        "a=1/b=1/".to_string() + F1,
        "a=4/b=2/".to_string() + F2,
        "a=1/b=7/".to_string() + F3,
        "a=4/b=1/".to_string() + F4,
    ];
    tree_round_trip(nested_paths);
}

fn single_file_entries(file: ParquetDeltaFile) -> TreeNode {
    TreeNode::FileEntries { files: vec![file] }
}

fn create_leaf_partition(name: &str, entries: Vec<(&str, ParquetDeltaFile)>) -> TreeNode {
    let mut values = Vec::new();
    for (k, v) in entries {
        values.push((k.to_string(), single_file_entries(v)));
    }
    TreeNode::Partition {
        name: name.to_string(),
        values,
    }
}

fn create_partition(name: &str, entries: Vec<(&str, TreeNode)>) -> TreeNode {
    let mut values = Vec::new();
    for (k, v) in entries {
        values.push((k.to_string(), v));
    }
    TreeNode::Partition {
        name: name.to_string(),
        values,
    }
}

#[test]
fn test_uuid_parse() {
    assert_eq!(
        10,
        Uuid::parse_str("00000000-0000-0000-0000-00000000000a")
            .unwrap()
            .as_u128()
    );
    assert_eq!(
        10,
        Uuid::parse_str("00000000-0000-0000-0000-00000000000A")
            .unwrap()
            .as_u128()
    );
}

#[test]
fn test_file_name_parse() {
    let name = "part-00009-477077ae-1429-4633-b07a-0c0cb75caf55.c177.snappy.parquet";
    let entry = ParquetDeltaFile::from_string(&name).unwrap();
    assert_eq!(
        entry,
        ParquetDeltaFile {
            partition: 9,
            uuid: 94959152347567637375526247419927637845,
            cluster: 177,
            compression: CompressionType::SNAPPY
        }
    );
}

#[test]
fn test_regex_filename() {
    let name = "part-00009-477077ae-1429-4633-b07a-0c0cb75caf55.c003.snappy.parquet";
    let caps = name_fields(name).unwrap();
    assert_eq!(caps.part, "00009");
    assert_eq!(caps.uuid, "477077ae-1429-4633-b07a-0c0cb75caf55");
    assert_eq!(caps.c, "003");
    assert_eq!(caps.compression, "snappy");
}

#[test]
fn test_key_value() {
    assert_eq!(
        DeltaTree::key_value("a=13"),
        Some(PartitionPath {
            key: "a",
            value: "13"
        })
    );
    assert_eq!(DeltaTree::key_value("askaban"), None);
    assert_eq!(
        DeltaTree::key_value("some-key=some-value-with-=-sign-in-the-middle"),
        Some(PartitionPath {
            key: "some-key",
            value: "some-value-with-=-sign-in-the-middle"
        })
    )
}
