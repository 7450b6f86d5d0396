//! Tests of whether an operation is possible.

use lance_dataset::arrow::ArrowField;
use lance_dataset::arrow::ArrowSchema;
use lance_dataset::arrow::DataType;
use lance_dataset::arrow::ScalarType;
use lance_dataset::assoc::StringMap;
use lance_dataset::batch::Column;
use lance_dataset::batch::NamedColumn;
use lance_dataset::batch::RecordBatch;
use lance_dataset::format::DataFile;
use lance_dataset::format::Fragment;
use lance_dataset::format::Index;
use lance_dataset::ids::Uuid;
use lance_dataset::manifest::DataStorageFormat;
use lance_dataset::manifest::Manifest;
use lance_dataset::manifest::ManifestWriteConfig;
use lance_dataset::operation::DataReplacementGroup;
use lance_dataset::operation::Operation;
use lance_dataset::operation::RewriteGroup;
use lance_dataset::projection::Projection;
use lance_dataset::schema::Schema;
use lance_dataset::schema_ops::ToSchema;
use lance_dataset::transaction::Transaction;
use std::sync::Arc;

fn arrow() -> ArrowSchema {
    ArrowSchema::new(vec![ArrowField::new(
        "a",
        DataType::Scalar(ScalarType::Int32),
        true,
    )])
}

fn config() -> ManifestWriteConfig {
    ManifestWriteConfig {
        auto_set_feature_flags: false,
        timestamp_nanos: 0,
        use_move_stable_row_ids: false,
        use_legacy_format: None,
        storage_version: None,
    }
}

fn manifest(fragments: Vec<Fragment>) -> Manifest {
    Manifest::new(
        Schema { fields: vec![], metadata: StringMap::new() },
        fragments,
        DataStorageFormat::default(),
        None,
    )
}

fn can_plan(operation: Operation, current: &Manifest) -> bool {
    Transaction::new_from_version(1, operation).can_plan_manifest(
        Some(current),
        &vec![],
        &config(),
        &[],
    )
}

#[test]
fn field_ids_can_run_out() {
    assert!(arrow().can_be_numbered());
    let mut schema = Schema::try_from(&arrow()).unwrap();
    schema.reset_id();
    assert!(!schema.can_set_field_id(Some(i32::MAX)));
    assert!(schema.can_set_field_id(Some(i32::MAX - 1)));
    schema.set_field_id(Some(i32::MAX - 1));
    assert_eq!(schema.field_ids(), vec![i32::MAX]);
    // Nothing is left to be numbered.
    assert!(schema.can_set_field_id(Some(i32::MAX)));
    schema.set_field_id(None);
    assert_eq!(schema.field_ids(), vec![i32::MAX]);
}

#[test]
fn fragment_ids_can_run_out() {
    let append = || Operation::Append { fragments: vec![Fragment::new(0)] };
    assert!(can_plan(append(), &manifest(vec![Fragment::new(7)])));
    assert!(can_plan(append(), &manifest(vec![Fragment::new(u64::MAX - 2)])));
    assert!(!can_plan(append(), &manifest(vec![Fragment::new(u64::MAX)])));
    let mut last = manifest(vec![]);
    last.version = u64::MAX;
    assert!(!can_plan(append(), &last));
}

#[test]
fn some_operations_cannot_be_planned() {
    let current = manifest(vec![]);
    assert!(!can_plan(Operation::Restore { version: 1 }, &current));
    let rewrite = |old_fragments: Vec<Fragment>| Operation::Rewrite {
        groups: vec![RewriteGroup { old_fragments, new_fragments: vec![] }],
        rewritten_indices: vec![],
        frag_reuse_index: None,
    };
    assert!(!can_plan(rewrite(vec![]), &current));
    assert!(can_plan(rewrite(vec![Fragment::new(1)]), &current));
    // A conflict comes before the group without fragments.
    let after_conflict = Operation::Rewrite {
        groups: vec![
            RewriteGroup { old_fragments: vec![Fragment::new(1)], new_fragments: vec![] },
            RewriteGroup { old_fragments: vec![], new_fragments: vec![] },
        ],
        rewritten_indices: vec![],
        frag_reuse_index: None,
    };
    assert!(can_plan(after_conflict.clone(), &current));
    assert!(!can_plan(after_conflict, &manifest(vec![Fragment::new(1)])));
    let update = Operation::Update {
        removed_fragment_ids: vec![],
        updated_fragments: vec![],
        new_fragments: vec![],
        fields_modified: vec![4],
        mem_wal_to_flush: None,
    };
    let over = |fields: Vec<i32>| {
        vec![Index {
            uuid: Uuid { bits: 1 },
            name: "i".to_owned(),
            fields,
            dataset_version: 1,
            fragment_bitmap: None,
            system: false,
            details: None,
        }]
    };
    let t = Transaction::new_from_version(1, update);
    assert!(!t.can_plan_manifest(Some(&current), &over(vec![-1]), &config(), &[]));
    assert!(t.can_plan_manifest(Some(&current), &over(vec![4, -1]), &config(), &[]));
}

#[test]
fn added_files_need_a_version() {
    let file = |fields: Vec<i32>| DataFile {
        path: "p".to_owned(),
        column_indices: vec![0; fields.len()],
        fields,
        file_major_version: 9,
        file_minor_version: 9,
        file_size_bytes: None,
    };
    let current = manifest(vec![Fragment {
        id: 1,
        files: vec![DataFile { path: "old".to_owned(), ..file(vec![0]) }],
        deletion_file: None,
        row_id_meta: None,
        physical_rows: None,
    }]);
    let can = |replacements: Vec<DataReplacementGroup>| {
        let numbers = vec![None; replacements.len()];
        Transaction::new_from_version(1, Operation::DataReplacement { replacements })
            .can_plan_manifest(Some(&current), &vec![], &config(), &numbers)
    };
    // A file of the same fields takes the place of the old one.
    assert!(can(vec![DataReplacementGroup(1, file(vec![0]))]));
    assert!(!can(vec![DataReplacementGroup(1, file(vec![5]))]));
    // Errors come first.
    assert!(can(vec![DataReplacementGroup(7, file(vec![5]))]));
    assert!(can(vec![
        DataReplacementGroup(1, file(vec![5])),
        DataReplacementGroup(1, file(vec![6])),
    ]));
}

#[test]
fn records_have_a_limit() {
    let reserve = |n: u32| {
        Transaction::new_from_version(1, Operation::ReserveFragments { num_fragments: n })
    };
    let m = manifest(vec![Fragment::new(5)]);
    assert!(reserve(u32::MAX - 5).can_finish_manifest(&m));
    assert!(!reserve(u32::MAX - 4).can_finish_manifest(&m));
    assert!(!reserve(0).can_finish_manifest(&manifest(vec![Fragment::new(1 << 32)])));
    assert!(reserve(u32::MAX).can_finish_manifest(&manifest(vec![])));
}

#[test]
fn batches_have_to_match() {
    let schema = Schema::try_from(&arrow()).unwrap();
    let batch = |column: Column| RecordBatch {
        columns: vec![NamedColumn { name: "a".to_owned(), column }],
    };
    assert!(schema.accepts(&batch(Column::Plain)));
    assert!(!schema.accepts(&batch(Column::Dictionary(1))));
    assert!(!schema.accepts(&batch(Column::List(Box::new(Column::Plain)))));
    assert!(schema.accepts(&batch(Column::Struct(vec![]))));
    assert!(schema.accepts(&RecordBatch { columns: vec![] }));
}

#[test]
fn schemas_of_other_bases_are_not_known() {
    let base = Arc::new(Schema::try_from(&arrow()).unwrap());
    let projection = Projection::empty(base.clone());
    assert!(projection.knows(&base));
    let mut other = (*base).clone();
    other.fields[0].id = 3;
    assert!(!projection.knows(&other));
    other.reset_id();
    assert!(projection.knows(&other));
}
