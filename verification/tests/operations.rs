//! Operations: comparing them and finding conflicts.

use lance_dataset::assoc::StringMap;
use lance_dataset::format::DataFile;
use lance_dataset::format::Fragment;
use lance_dataset::format::Index;
use lance_dataset::format::MemWal;
use lance_dataset::format::MemWalState;
use lance_dataset::ids::Uuid;
use lance_dataset::operation::DataReplacementGroup;
use lance_dataset::operation::FieldMetadata;
use lance_dataset::operation::Operation;
use lance_dataset::operation::RewriteGroup;
use lance_dataset::operation::RewrittenIndex;
use lance_dataset::schema::Schema;
use lance_dataset::transaction::Transaction;

fn map(entries: &[(&str, &str)]) -> StringMap {
    let mut map = StringMap::new();
    for (k, v) in entries {
        map.insert(k.to_string(), v.to_string());
    }
    map
}

fn schema() -> Schema {
    Schema { fields: vec![], metadata: StringMap::new() }
}

fn update_config(set: &[(&str, &str)], deleted: &[&str]) -> Operation {
    Operation::UpdateConfig {
        upsert_values: Some(map(set)),
        delete_keys: Some(deleted.iter().map(|k| k.to_string()).collect()),
        schema_metadata: None,
        field_metadata: None,
    }
}

fn index(id: u128, name: &str, fragments: &[u32]) -> Index {
    Index {
        uuid: Uuid { bits: id },
        name: name.to_owned(),
        fields: vec![1],
        dataset_version: 3,
        fragment_bitmap: Some(fragments.iter().copied().collect()),
        system: false,
        details: None,
    }
}

fn file(path: &str) -> DataFile {
    DataFile {
        path: path.to_owned(),
        fields: vec![0],
        column_indices: vec![0],
        file_major_version: 2,
        file_minor_version: 0,
        file_size_bytes: None,
    }
}

fn wal(generation: u64) -> MemWal {
    MemWal {
        region: "r".to_owned(),
        generation,
        mem_table_location: "m".to_owned(),
        wal_location: "w".to_owned(),
        wal_entries: vec![1, 2],
        state: MemWalState::Open,
        owner_id: "o".to_owned(),
        last_updated_dataset_version: 4,
    }
}

/// One operation of each kind.
fn each_kind() -> Vec<Operation> {
    vec![
        Operation::Append { fragments: vec![Fragment::new(0)] },
        Operation::Delete {
            updated_fragments: vec![Fragment::new(1)],
            deleted_fragment_ids: vec![2],
            predicate: "x > 1".to_owned(),
        },
        Operation::Overwrite {
            fragments: vec![Fragment::new(0)],
            schema: schema(),
            config_upsert_values: Some(map(&[("k", "v")])),
        },
        Operation::CreateIndex { new_indices: vec![index(1, "i", &[0])], removed_indices: vec![] },
        Operation::Rewrite {
            groups: vec![RewriteGroup {
                old_fragments: vec![Fragment::new(1)],
                new_fragments: vec![Fragment::new(2)],
            }],
            rewritten_indices: vec![RewrittenIndex {
                old_id: Uuid { bits: 1 },
                new_id: Uuid { bits: 2 },
            }],
            frag_reuse_index: None,
        },
        Operation::DataReplacement { replacements: vec![DataReplacementGroup(1, file("p"))] },
        Operation::Merge { fragments: vec![Fragment::new(1)], schema: schema() },
        Operation::Restore { version: 7 },
        Operation::ReserveFragments { num_fragments: 4 },
        Operation::Update {
            removed_fragment_ids: vec![1],
            updated_fragments: vec![Fragment::new(2)],
            new_fragments: vec![Fragment::new(0)],
            fields_modified: vec![5],
            mem_wal_to_flush: Some(wal(1)),
        },
        Operation::Project { schema: schema() },
        update_config(&[("a", "1")], &["b"]),
        Operation::UpdateMemWalState { added: vec![wal(1)], updated: vec![], removed: vec![] },
    ]
}

#[test]
fn operations_of_other_kinds_differ() {
    let ops = each_kind();
    let names: Vec<&str> = ops.iter().map(|op| op.name()).collect();
    assert_eq!(
        names,
        vec![
            "Append",
            "Delete",
            "Overwrite",
            "CreateIndex",
            "Rewrite",
            "DataReplacement",
            "Merge",
            "Restore",
            "ReserveFragments",
            "Update",
            "Project",
            "UpdateConfig",
            "UpdateMemWalState",
        ]
    );
    for (i, a) in ops.iter().enumerate() {
        for (j, b) in each_kind().iter().enumerate() {
            assert_eq!(a == b, i == j, "{} and {}", a.name(), b.name());
        }
        assert_eq!(a.clone(), *a);
    }
}

#[test]
fn order_of_fragments_does_not_matter() {
    let a = Operation::Append { fragments: vec![Fragment::new(1), Fragment::new(2)] };
    let b = Operation::Append { fragments: vec![Fragment::new(2), Fragment::new(1)] };
    let c = Operation::Append { fragments: vec![Fragment::new(2)] };
    assert_eq!(a, b);
    assert!(a != c);
}

#[test]
fn repeated_values_count_as_often() {
    let append = |ids: &[u64]| Operation::Append {
        fragments: ids.iter().map(|id| Fragment::new(*id)).collect(),
    };
    assert!(append(&[1, 1]) != append(&[1, 2]));
    assert!(append(&[1, 2]) != append(&[1, 1]));
    assert!(append(&[1, 1, 2]) != append(&[1, 2, 2]));
    assert_eq!(append(&[1, 2, 1]), append(&[1, 1, 2]));
    let delete = |ids: &[u64]| Operation::Delete {
        updated_fragments: vec![],
        deleted_fragment_ids: ids.to_vec(),
        predicate: "p".to_owned(),
    };
    assert!(delete(&[1, 1]) != delete(&[1, 2]));
    assert!(delete(&[1, 2]) != delete(&[1, 1]));
    assert_eq!(delete(&[2, 1]), delete(&[1, 2]));
}

#[test]
fn rewrite_groups_are_compared_in_any_order() {
    let group = |old: &[u64], new: &[u64]| RewriteGroup {
        old_fragments: old.iter().map(|id| Fragment::new(*id)).collect(),
        new_fragments: new.iter().map(|id| Fragment::new(*id)).collect(),
    };
    let rewrite = |groups: Vec<RewriteGroup>| Operation::Rewrite {
        groups,
        rewritten_indices: vec![],
        frag_reuse_index: None,
    };
    assert_eq!(group(&[1, 2], &[3]), group(&[2, 1], &[3]));
    assert!(group(&[1, 1], &[3]) != group(&[1, 2], &[3]));
    assert!(group(&[1], &[3]) != group(&[3], &[1]));
    let a = || group(&[1, 2], &[7]);
    let b = || group(&[2, 1], &[7]);
    let c = || group(&[4], &[8]);
    assert_eq!(rewrite(vec![a(), c()]), rewrite(vec![c(), b()]));
    assert!(rewrite(vec![a(), b()]) != rewrite(vec![a(), c()]));
    assert!(rewrite(vec![a(), c()]) != rewrite(vec![a(), b()]));
    assert!(rewrite(vec![a(), b(), c()]) != rewrite(vec![a(), c(), c()]));
}

#[test]
fn bitmaps_are_compared_by_their_values() {
    let a = index(1, "i", &[3, 1]);
    let b = index(1, "i", &[1, 3]);
    let c = index(1, "i", &[1, 3, 4]);
    assert_eq!(a, b);
    assert!(a != c);
    assert_eq!(c.clone(), c);
    assert!(c.clone().fragment_bitmap.unwrap().contains(4));
}

#[test]
fn setting_the_same_key_conflicts() {
    let a = update_config(&[("x", "1"), ("y", "2")], &["z"]);
    let b = update_config(&[("x", "9")], &[]);
    let c = update_config(&[("w", "1")], &["y"]);
    let d = update_config(&[], &["z"]);
    assert!(a.upsert_key_conflict(&b));
    assert!(b.upsert_key_conflict(&a));
    // Set by one, deleted by the other.
    assert!(a.upsert_key_conflict(&c));
    assert!(c.upsert_key_conflict(&a));
    // Deleted by both.
    assert!(!a.upsert_key_conflict(&d));
    assert!(!b.upsert_key_conflict(&c));
    assert_eq!(a.get_delete_config_keys(), vec!["z"]);
    let mut keys = a.get_upsert_config_keys();
    keys.sort();
    assert_eq!(keys, vec!["x", "y"]);
    assert!(Operation::Restore { version: 1 }.get_upsert_config_keys().is_empty());
}

#[test]
fn config_keys_are_listed() {
    let repeated = update_config(&[("x", "1"), ("y", "2"), ("x", "3")], &["z", "w", "z"]);
    assert_eq!(repeated.get_delete_config_keys(), vec!["z", "w", "z"]);
    let mut keys = repeated.get_upsert_config_keys();
    keys.sort();
    assert_eq!(keys, vec!["x", "y"]);
    assert!(Operation::Restore { version: 1 }.get_delete_config_keys().is_empty());
}

#[test]
fn metadata_of_the_same_field_conflicts() {
    let with_fields = |ids: &[u32]| {
        let mut metadata = FieldMetadata::new();
        for id in ids {
            metadata.insert(*id, map(&[("k", "v")]));
        }
        Operation::UpdateConfig {
            upsert_values: None,
            delete_keys: None,
            schema_metadata: None,
            field_metadata: Some(metadata),
        }
    };
    let with_schema = || Operation::UpdateConfig {
        upsert_values: None,
        delete_keys: None,
        schema_metadata: Some(map(&[("k", "v")])),
        field_metadata: None,
    };
    assert!(with_fields(&[1, 2]).modifies_same_metadata(&with_fields(&[2, 3])));
    assert!(!with_fields(&[1]).modifies_same_metadata(&with_fields(&[3])));
    assert!(with_schema().modifies_same_metadata(&with_schema()));
    assert!(!with_schema().modifies_same_metadata(&with_fields(&[1])));
    assert!(!with_schema().modifies_same_metadata(&Operation::Restore { version: 1 }));
}

#[test]
fn new_transactions_have_random_ids() {
    let a = Transaction::new(3, Operation::Restore { version: 1 }, None, Some("t".to_owned()));
    let b = Transaction::new_from_version(3, Operation::Restore { version: 1 });
    for t in [&a, &b] {
        let parts: Vec<&str> = t.uuid.split('-').collect();
        let lengths: Vec<usize> = parts.iter().map(|p| p.len()).collect();
        assert_eq!(lengths, vec![8, 4, 4, 4, 12]);
        assert!(parts[2].starts_with('4'));
        assert!(matches!(parts[3].as_bytes()[0], b'8' | b'9' | b'a' | b'b'));
        assert_eq!(t.read_version, 3);
    }
    assert!(a.uuid != b.uuid);
    assert_eq!(a.tag, Some("t".to_owned()));
    assert_eq!(b.tag, None);
    let c = b.with_blobs_op(Some(Operation::Append { fragments: vec![] }));
    assert_eq!(c.blobs_op, Some(Operation::Append { fragments: vec![] }));
}

#[test]
fn ids_are_written_in_groups() {
    let id = Uuid { bits: 0x0123_4567_89ab_cdef_0011_2233_4455_66ff };
    assert_eq!(id.text(), "01234567-89ab-cdef-0011-2233445566ff");
    let t = Transaction::with_uuid(1, Operation::Restore { version: 1 }, None, None, id);
    assert_eq!(t.uuid, "01234567-89ab-cdef-0011-2233445566ff");
    assert_eq!(t.clone(), t);
}
