//! Building manifests from transactions.

use lance_dataset::arrow::ArrowField;
use lance_dataset::arrow::ArrowSchema;
use lance_dataset::arrow::DataType;
use lance_dataset::arrow::ScalarType;
use lance_dataset::assoc::StringMap;
use lance_dataset::error::Error;
use lance_dataset::format::DataFile;
use lance_dataset::format::Fragment;
use lance_dataset::format::Index;
use lance_dataset::format::MemWal;
use lance_dataset::format::MemWalState;
use lance_dataset::format::RowIdMeta;
use lance_dataset::ids::Uuid;
use lance_dataset::manifest::DataStorageFormat;
use lance_dataset::manifest::LanceFileVersion;
use lance_dataset::manifest::Manifest;
use lance_dataset::manifest::ManifestWriteConfig;
use lance_dataset::operation::DataReplacementGroup;
use lance_dataset::operation::FieldMetadata;
use lance_dataset::operation::Operation;
use lance_dataset::operation::RewriteGroup;
use lance_dataset::operation::RewrittenIndex;
use lance_dataset::planning::ManifestPlan;
use lance_dataset::schema::Schema;
use lance_dataset::transaction::Transaction;
use lance_dataset::validation::validate_operation;

const STABLE_ROW_IDS: u64 = 2;

fn schema(names: &[&str]) -> Schema {
    Schema::try_from(&ArrowSchema::new(
        names
            .iter()
            .map(|n| ArrowField::new(n, DataType::Scalar(ScalarType::Int32), true))
            .collect(),
    ))
    .unwrap()
}

fn file(path: &str, fields: &[i32]) -> DataFile {
    DataFile {
        path: path.to_owned(),
        fields: fields.to_vec(),
        column_indices: (0..fields.len() as i32).collect(),
        file_major_version: 2,
        file_minor_version: 0,
        file_size_bytes: None,
    }
}

fn fragment(id: u64, fields: &[i32], rows: usize) -> Fragment {
    Fragment {
        id,
        files: vec![file(&format!("f{}", id), fields)],
        deletion_file: None,
        row_id_meta: None,
        physical_rows: Some(rows),
    }
}

fn index(id: u128, name: &str, fields: &[i32], fragments: &[u32]) -> Index {
    Index {
        uuid: Uuid { bits: id },
        name: name.to_owned(),
        fields: fields.to_vec(),
        dataset_version: 1,
        fragment_bitmap: Some(fragments.iter().copied().collect()),
        system: false,
        details: None,
    }
}

fn covered(index: &Index) -> Vec<u32> {
    index.fragment_bitmap.as_ref().unwrap().iter().collect()
}

fn config() -> ManifestWriteConfig {
    ManifestWriteConfig {
        auto_set_feature_flags: false,
        timestamp_nanos: 1234,
        use_move_stable_row_ids: false,
        use_legacy_format: None,
        storage_version: None,
    }
}

/// Version 5 of a table of fields 0 and 1, with the fragments 0 to 3.
fn manifest() -> Manifest {
    let fragments = (0..4).map(|id| fragment(id, &[0, 1], 10)).collect();
    let mut manifest = Manifest::new(
        schema(&["x", "y"]),
        fragments,
        DataStorageFormat::new(LanceFileVersion::V2_0),
        None,
    );
    manifest.version = 5;
    manifest.max_fragment_id = Some(3);
    manifest
}

fn plan_of(operation: Operation, indices: Vec<Index>) -> Result<ManifestPlan, Error> {
    Transaction::new_from_version(5, operation).plan_manifest(
        Some(&manifest()),
        indices,
        &config(),
        &[],
    )
}

fn ids(fragments: &[Fragment]) -> Vec<u64> {
    fragments.iter().map(|f| f.id).collect()
}

/// Runs all steps, with no feature flags and no data files looked at.
fn commit(operation: Operation, current: Option<&Manifest>) -> Result<Manifest, Error> {
    let t = Transaction::new(5, operation, None, Some("tag".to_owned()));
    let plan = t.plan_manifest(current, vec![], &config(), &[])?;
    let m = t.assemble_manifest(
        plan.schema,
        plan.fragments,
        current,
        &config(),
        Ok(None),
        None,
    )?;
    Ok(t.finish_manifest(m, None, &config(), "tx", plan.next_row_id))
}

#[test]
fn appended_fragments_get_fresh_ids() {
    let plan = plan_of(
        Operation::Append { fragments: vec![fragment(0, &[0, 1], 1), fragment(0, &[0, 1], 2)] },
        vec![index(1, "i", &[0], &[0])],
    )
    .unwrap();
    assert_eq!(ids(&plan.fragments), vec![0, 1, 2, 3, 4, 5]);
    assert_eq!(plan.fragments[5].physical_rows, Some(2));
    assert_eq!(plan.indices.len(), 1);
    assert_eq!(plan.next_row_id, None);
}

#[test]
fn reserved_ids_are_sorted_in() {
    let plan = plan_of(
        Operation::Append { fragments: vec![fragment(2, &[0], 1)] },
        vec![],
    )
    .unwrap();
    assert_eq!(ids(&plan.fragments), vec![0, 1, 2, 2, 3]);
    // The one that was there comes first.
    assert_eq!(plan.fragments[2].files[0].fields, vec![0, 1]);
}

#[test]
fn row_ids_are_handed_out_in_a_row() {
    let mut current = manifest();
    current.reader_feature_flags = STABLE_ROW_IDS;
    current.next_row_id = 40;
    let t = Transaction::new_from_version(
        5,
        Operation::Append { fragments: vec![fragment(0, &[0, 1], 7), fragment(0, &[0, 1], 3)] },
    );
    let plan = t.plan_manifest(Some(&current), vec![], &config(), &[]).unwrap();
    assert!(matches!(
        plan.fragments[4].row_id_meta,
        Some(RowIdMeta::Range { start: 40, end: 47 })
    ));
    assert!(matches!(
        plan.fragments[5].row_id_meta,
        Some(RowIdMeta::Range { start: 47, end: 50 })
    ));
    assert_eq!(plan.next_row_id, Some(50));
}

#[test]
fn fragments_without_rows_get_no_row_ids() {
    let mut fragments = vec![fragment(1, &[0], 4), Fragment::new(2)];
    let mut next = 0;
    match Transaction::assign_row_ids(&mut next, &mut fragments) {
        Err(Error::Internal { message }) => {
            assert_eq!(message, "Fragment does not have physical rows")
        }
        other => panic!("{:?}", other),
    }
    assert_eq!(next, 4);
}

#[test]
fn stable_row_ids_cannot_be_switched_on() {
    let t = Transaction::new_from_version(5, Operation::ReserveFragments { num_fragments: 1 });
    let stable = ManifestWriteConfig { use_move_stable_row_ids: true, ..config() };
    match t.plan_manifest(Some(&manifest()), vec![], &stable, &[]) {
        Err(Error::NotSupported { source }) => {
            assert_eq!(source, "Cannot enable stable row ids on existing dataset")
        }
        other => panic!("{:?}", other),
    }
}

#[test]
fn new_table_needs_a_schema() {
    match commit(Operation::Append { fragments: vec![] }, None) {
        Err(Error::Internal { message }) => {
            assert_eq!(message, "Cannot create a new dataset without a schema")
        }
        other => panic!("{:?}", other),
    }
    match commit(Operation::Project { schema: schema(&["x"]) }, None) {
        Err(Error::Internal { message }) => assert_eq!(
            message,
            "No current manifest was provided while building manifest for operation Project"
        ),
        other => panic!("{:?}", other),
    }
}

#[test]
fn first_commit_is_version_one() {
    let m = commit(
        Operation::Overwrite {
            fragments: vec![fragment(0, &[0], 1), fragment(0, &[0], 1)],
            schema: schema(&["x"]),
            config_upsert_values: None,
        },
        None,
    )
    .unwrap();
    assert_eq!(m.version, 1);
    assert_eq!(ids(&m.fragments), vec![0, 1]);
    assert_eq!(m.max_fragment_id, Some(1));
    assert_eq!(m.tag, Some("tag".to_owned()));
    assert_eq!(m.timestamp_nanos, 1234);
    assert_eq!(m.transaction_file, Some("tx".to_owned()));
    assert_eq!(m.data_storage_format.file_format, "lance");
    assert_eq!(m.data_storage_format.version, "2.0");
}

#[test]
fn versions_count_up_by_one() {
    let m = commit(Operation::ReserveFragments { num_fragments: 6 }, Some(&manifest())).unwrap();
    assert_eq!(m.version, 6);
    assert_eq!(m.max_fragment_id, Some(9));
    assert_eq!(ids(&m.fragments), vec![0, 1, 2, 3]);
    // A later append does not use the reserved ids.
    let n = commit(Operation::Append { fragments: vec![Fragment::new(0)] }, Some(&m)).unwrap();
    assert_eq!(ids(&n.fragments), vec![0, 1, 2, 3, 10]);
    assert_eq!(n.version, 7);
}

#[test]
fn overwriting_drops_the_indices() {
    let plan = plan_of(
        Operation::Overwrite {
            fragments: vec![fragment(0, &[0], 1)],
            schema: schema(&["x"]),
            config_upsert_values: None,
        },
        vec![index(1, "i", &[0], &[0])],
    )
    .unwrap();
    assert!(plan.indices.is_empty());
    assert_eq!(ids(&plan.fragments), vec![0]);
}

#[test]
fn deleted_fragments_leave() {
    let mut updated = fragment(2, &[0, 1], 10);
    updated.physical_rows = Some(8);
    let plan = plan_of(
        Operation::Delete {
            updated_fragments: vec![updated],
            deleted_fragment_ids: vec![0, 3],
            predicate: "true".to_owned(),
        },
        vec![
            index(1, "on_gone", &[0], &[0, 3]),
            index(2, "on_kept", &[0], &[0, 1]),
            index(3, "on_unknown_field", &[9], &[1]),
            Index { system: true, ..index(4, "of_system", &[9], &[77]) },
        ],
    )
    .unwrap();
    assert_eq!(ids(&plan.fragments), vec![1, 2]);
    assert_eq!(plan.fragments[1].physical_rows, Some(8));
    let names: Vec<&str> = plan.indices.iter().map(|i| i.name.as_str()).collect();
    assert_eq!(names, vec!["on_kept", "of_system"]);
}

#[test]
fn updated_fields_leave_the_indices() {
    let log = MemWal {
        region: "r".to_owned(),
        generation: 1,
        mem_table_location: "m".to_owned(),
        wal_location: "w".to_owned(),
        wal_entries: vec![],
        state: MemWalState::Sealed,
        owner_id: "o".to_owned(),
        last_updated_dataset_version: 4,
    };
    let plan = plan_of(
        Operation::Update {
            removed_fragment_ids: vec![0],
            updated_fragments: vec![fragment(1, &[0, 1], 5)],
            new_fragments: vec![fragment(0, &[0, 1], 2)],
            fields_modified: vec![1],
            mem_wal_to_flush: Some(log),
        },
        vec![index(1, "on_x", &[0], &[0, 1, 2]), index(2, "on_y", &[1], &[0, 1, 2])],
    )
    .unwrap();
    assert_eq!(ids(&plan.fragments), vec![1, 2, 3, 4]);
    assert_eq!(plan.fragments[0].physical_rows, Some(5));
    assert_eq!(covered(&plan.indices[0]), vec![0, 1, 2]);
    assert_eq!(covered(&plan.indices[1]), vec![0, 2]);
    let update = plan.mem_wal.unwrap();
    assert_eq!(update.new_version, 6);
    assert_eq!(update.updated[0].state, MemWalState::Flushed);
    assert_eq!(update.removed[0].state, MemWalState::Sealed);
    assert!(update.added.is_empty());
}

#[test]
fn rewritten_groups_replace_their_fragments() {
    let plan = plan_of(
        Operation::Rewrite {
            groups: vec![RewriteGroup {
                old_fragments: vec![Fragment::new(1), Fragment::new(2)],
                new_fragments: vec![fragment(0, &[0, 1], 20)],
            }],
            rewritten_indices: vec![RewrittenIndex {
                old_id: Uuid { bits: 1 },
                new_id: Uuid { bits: 9 },
            }],
            frag_reuse_index: Some(index(5, "reuse", &[], &[])),
        },
        vec![index(1, "i", &[0], &[0, 1, 2]), index(4, "reuse", &[], &[])],
    )
    .unwrap();
    assert_eq!(ids(&plan.fragments), vec![0, 3, 4]);
    assert_eq!(plan.indices.len(), 2);
    assert_eq!(plan.indices[0].uuid, Uuid { bits: 9 });
    assert_eq!(plan.indices[1].uuid, Uuid { bits: 5 });
}

#[test]
fn rewriting_unknown_fragments_conflicts() {
    let group = |id: u64| RewriteGroup {
        old_fragments: vec![Fragment::new(id)],
        new_fragments: vec![],
    };
    match plan_of(
        Operation::Rewrite {
            groups: vec![group(8)],
            rewritten_indices: vec![],
            frag_reuse_index: None,
        },
        vec![],
    ) {
        Err(Error::CommitConflict { version, source }) => {
            assert_eq!(version, 5);
            assert_eq!(
                source,
                "dataset does not contain a fragment a rewrite operation wants to replace: id=8"
            );
        }
        other => panic!("{:?}", other),
    }
}

#[test]
fn bitmaps_follow_rewritten_groups() {
    let groups = vec![
        RewriteGroup {
            old_fragments: vec![Fragment::new(1), Fragment::new(2)],
            new_fragments: vec![Fragment::new(7)],
        },
        RewriteGroup {
            old_fragments: vec![Fragment::new(5)],
            new_fragments: vec![Fragment::new(8)],
        },
    ];
    let bitmap = [1u32, 2, 3].into_iter().collect();
    let rewritten = Transaction::recalculate_fragment_bitmap(&bitmap, &groups).unwrap();
    assert_eq!(rewritten.iter().collect::<Vec<u32>>(), vec![3, 7]);
    let split = [1u32, 3].into_iter().collect();
    match Transaction::recalculate_fragment_bitmap(&split, &groups) {
        Err(Error::InvalidInput { source }) => assert_eq!(
            source,
            "The compaction plan included a rewrite group that was a split of indexed and non-indexed data"
        ),
        other => panic!("{:?}", other),
    }
}

#[test]
fn indices_are_rewritten_once() {
    let rewritten = |old: u128| RewrittenIndex {
        old_id: Uuid { bits: old },
        new_id: Uuid { bits: old + 100 },
    };
    let mut indices = vec![index(1, "i", &[0], &[0])];
    match Transaction::handle_rewrite_indices(&mut indices, &[rewritten(1), rewritten(1)], &[]) {
        Err(Error::InvalidInput { source }) => {
            assert!(source.contains("00000000-0000-0000-0000-000000000001"), "{}", source)
        }
        other => panic!("{:?}", other),
    }
    assert_eq!(indices[0].uuid, Uuid { bits: 101 });
    assert!(Transaction::handle_rewrite_indices(&mut indices, &[rewritten(7)], &[]).is_err());
    indices[0].fragment_bitmap = None;
    assert!(Transaction::handle_rewrite_indices(&mut indices, &[rewritten(101)], &[]).is_err());
}

#[test]
fn new_indices_replace_those_of_their_name() {
    let plan = plan_of(
        Operation::CreateIndex {
            new_indices: vec![index(9, "i", &[0], &[0])],
            removed_indices: vec![index(3, "whatever", &[0], &[])],
        },
        vec![
            index(1, "i", &[0], &[0]),
            index(2, "j", &[0], &[0]),
            index(3, "k", &[0], &[0]),
        ],
    )
    .unwrap();
    let uuids: Vec<u128> = plan.indices.iter().map(|i| i.uuid.bits).collect();
    assert_eq!(uuids, vec![2, 9]);
}

#[test]
fn projecting_drops_files_without_fields() {
    let mut current = manifest();
    current.fragments[0].files.push(file("only_y", &[1]));
    let t = Transaction::new_from_version(5, Operation::Project { schema: schema(&["x"]) });
    let plan = t
        .plan_manifest(
            Some(&current),
            vec![index(1, "on_x", &[0], &[0]), index(2, "on_y", &[1], &[0])],
            &config(),
            &[],
        )
        .unwrap();
    assert_eq!(plan.fragments[0].files.len(), 1);
    assert_eq!(plan.schema.field_ids(), vec![0]);
    assert_eq!(plan.indices.len(), 1);
}

#[test]
fn merging_takes_the_given_fragments() {
    let plan = plan_of(
        Operation::Merge {
            fragments: vec![fragment(3, &[0, 1, 2], 1), fragment(1, &[0, 1, 2], 1)],
            schema: schema(&["x", "y", "z"]),
        },
        vec![],
    )
    .unwrap();
    assert_eq!(ids(&plan.fragments), vec![1, 3]);
    assert_eq!(plan.schema.field_ids(), vec![0, 1, 2]);
}

#[test]
fn replaced_data_files_keep_their_place() {
    let replace = |replacements: Vec<DataReplacementGroup>| {
        let numbers = vec![Some((2, 0)); replacements.len()];
        Transaction::new_from_version(5, Operation::DataReplacement { replacements })
            .plan_manifest(Some(&manifest()), vec![], &config(), &numbers)
    };
    let plan = replace(vec![DataReplacementGroup(1, file("new", &[0, 1]))]).unwrap();
    assert_eq!(ids(&plan.fragments), vec![0, 1, 2, 3]);
    assert_eq!(plan.fragments[1].files[0].path, "new");
    assert_eq!(plan.fragments[0].files[0].path, "f0");
    // A file of new fields is added.
    let plan = replace(vec![DataReplacementGroup(2, file("more", &[5]))]).unwrap();
    assert_eq!(plan.fragments[2].files.len(), 2);
    match replace(vec![DataReplacementGroup(9, file("new", &[0, 1]))]) {
        Err(Error::InvalidInput { source }) => assert_eq!(
            source,
            "Fragment being replaced not found in existing fragments"
        ),
        other => panic!("{:?}", other),
    }
    match replace(vec![DataReplacementGroup(1, file("new", &[0]))]) {
        Err(Error::InvalidInput { source }) => {
            assert!(source.starts_with("Expected to modify the fragment but no changes were made."))
        }
        other => panic!("{:?}", other),
    }
    match replace(vec![
        DataReplacementGroup(1, file("new", &[0, 1])),
        DataReplacementGroup(2, file("new", &[0])),
    ]) {
        Err(Error::InvalidInput { source }) => assert_eq!(
            source,
            "All new data files must have the same fields, but found different fields:\nFile 0: [0, 1]\nFile 1: [0]\n"
        ),
        other => panic!("{:?}", other),
    }
}

#[test]
fn keys_are_deleted_before_values_are_set() {
    let map = |entries: &[(&str, &str)]| {
        let mut map = StringMap::new();
        for (k, v) in entries {
            map.insert(k.to_string(), v.to_string());
        }
        map
    };
    let mut current = manifest();
    current.config = map(&[("a", "1"), ("b", "2"), ("c", "3")]);
    let mut fields = FieldMetadata::new();
    fields.insert(1, map(&[("unit", "m")]));
    let m = commit(
        Operation::UpdateConfig {
            upsert_values: Some(map(&[("a", "9"), ("d", "4")])),
            delete_keys: Some(vec!["a".to_owned(), "b".to_owned()]),
            schema_metadata: Some(map(&[("s", "t")])),
            field_metadata: Some(fields),
        },
        Some(&current),
    )
    .unwrap();
    assert_eq!(m.config.get(&"a".to_owned()), Some(&"9".to_owned()));
    assert_eq!(m.config.get(&"b".to_owned()), None);
    assert_eq!(m.config.get(&"c".to_owned()), Some(&"3".to_owned()));
    assert_eq!(m.config.get(&"d".to_owned()), Some(&"4".to_owned()));
    assert_eq!(m.schema.metadata, map(&[("s", "t")]));
    assert_eq!(m.schema.fields[1].metadata, map(&[("unit", "m")]));
    assert!(m.schema.fields[0].metadata.is_empty());
}

#[test]
fn storage_versions_have_to_agree() {
    let of = Transaction::data_storage_format_from_files;
    assert_eq!(of(Ok(None), None).unwrap().version, "2.0");
    assert_eq!(of(Ok(None), Some(LanceFileVersion::Next)).unwrap().version, "2.1");
    assert_eq!(of(Ok(Some(LanceFileVersion::Legacy)), None).unwrap().version, "0.1");
    match of(Ok(Some(LanceFileVersion::Legacy)), Some(LanceFileVersion::V2_0)) {
        Err(Error::InvalidInput { source }) => assert_eq!(
            source,
            "User requested data storage version (2.0) does not match version in data files (0.1)"
        ),
        other => panic!("{:?}", other),
    }
}

#[test]
fn overwriting_can_change_the_storage_version() {
    let t = Transaction::new_from_version(
        5,
        Operation::Overwrite {
            fragments: vec![],
            schema: schema(&["x"]),
            config_upsert_values: None,
        },
    );
    let asked = ManifestWriteConfig { storage_version: Some(LanceFileVersion::V2_1), ..config() };
    let m = t
        .assemble_manifest(schema(&["x"]), vec![], Some(&manifest()), &asked, Ok(None), Some(8))
        .unwrap();
    assert_eq!(m.data_storage_format.version, "2.1");
    assert_eq!(m.blob_dataset_version, Some(8));
    let m = t
        .assemble_manifest(schema(&["x"]), vec![], Some(&manifest()), &config(), Ok(None), None)
        .unwrap();
    assert_eq!(m.data_storage_format.version, "2.0");
}

#[test]
fn restoring_stamps_the_old_manifest() {
    let m = Transaction::restored_manifest(manifest(), &config(), "again");
    assert_eq!(m.version, 5);
    assert_eq!(m.timestamp_nanos, 1234);
    assert_eq!(m.transaction_file, Some("again".to_owned()));
    assert_eq!(ids(&m.fragments), vec![0, 1, 2, 3]);
}

#[test]
fn fragments_must_have_all_fields() {
    let m = manifest();
    let append = |fields: &[i32]| Operation::Append { fragments: vec![fragment(4, fields, 1)] };
    assert!(validate_operation(Some(&m), &append(&[0, 1])).is_ok());
    assert!(validate_operation(Some(&m), &append(&[1, 0, 7])).is_ok());
    match validate_operation(Some(&m), &append(&[0])) {
        Err(Error::InvalidInput { source }) => {
            assert!(source.starts_with("Fragment 4 does not contain field "), "{}", source)
        }
        other => panic!("{:?}", other),
    }
    match validate_operation(None, &append(&[0, 1])) {
        Err(Error::InvalidInput { source }) => assert_eq!(
            source,
            "Cannot apply operation Append to non-existent dataset"
        ),
        other => panic!("{:?}", other),
    }
    let overwrite = |config_upsert_values: Option<StringMap>| Operation::Overwrite {
        fragments: vec![fragment(0, &[0], 1)],
        schema: schema(&["x"]),
        config_upsert_values,
    };
    assert!(validate_operation(None, &overwrite(None)).is_ok());
    assert!(validate_operation(None, &overwrite(Some(StringMap::new()))).is_err());
}

#[test]
fn write_ahead_logs_are_updated_later() {
    let update_logs =
        || Operation::UpdateMemWalState { added: vec![], updated: vec![], removed: vec![] };
    let plan = plan_of(update_logs(), vec![index(1, "i", &[0], &[0])]).unwrap();
    assert_eq!(ids(&plan.fragments), vec![0, 1, 2, 3]);
    assert_eq!(plan.fragments, manifest().fragments);
    assert_eq!(plan.schema, manifest().schema);
    assert_eq!(plan.indices.len(), 1);
    let update = plan.mem_wal.unwrap();
    assert_eq!(update.read_version, 5);
    assert_eq!(update.new_version, 6);
    let m = commit(update_logs(), Some(&manifest())).unwrap();
    assert_eq!(m.fragments, manifest().fragments);
    assert_eq!(m.version, 6);
}

#[test]
fn operations_without_a_table_are_errors() {
    let operations = vec![
        Operation::Restore { version: 1 },
        Operation::Rewrite {
            groups: vec![RewriteGroup { old_fragments: vec![], new_fragments: vec![] }],
            rewritten_indices: vec![],
            frag_reuse_index: None,
        },
        Operation::Update {
            removed_fragment_ids: vec![],
            updated_fragments: vec![],
            new_fragments: vec![],
            fields_modified: vec![4],
            mem_wal_to_flush: None,
        },
        Operation::UpdateMemWalState { added: vec![], updated: vec![], removed: vec![] },
    ];
    for operation in operations {
        let t = Transaction::new_from_version(0, operation);
        let indices = vec![index(1, "i", &[-1], &[0])];
        assert!(t.can_plan_manifest(None, &indices, &config(), &[]));
        match t.plan_manifest(None, indices, &config(), &[]) {
            Err(Error::Internal { message }) => {
                assert_eq!(message, "Cannot create a new dataset without a schema")
            }
            other => panic!("{:?}", other),
        }
    }
    let restore = Transaction::new_from_version(0, Operation::Restore { version: 1 });
    let stable = ManifestWriteConfig { use_move_stable_row_ids: true, ..config() };
    assert!(restore.can_plan_manifest(Some(&manifest()), &vec![], &stable, &[]));
    assert!(matches!(
        restore.plan_manifest(Some(&manifest()), vec![], &stable, &[]),
        Err(Error::NotSupported { .. })
    ));
}
