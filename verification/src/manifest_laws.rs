//! Laws of manifests: what the next version of a table records, and which operations are
//! valid, equal or in conflict.

use vstd::prelude::*;
use crate::commit::assembled;
use crate::commit::configured;
use crate::commit::finished;
use crate::commit::ids_can_be_recorded;
use crate::error::ErrorModel;
use crate::field::field_text;
use crate::field::pre_order;
use crate::field::FieldModel;
use crate::format::FragmentModel;
use crate::manifest::lemma_greatest_fragment;
use crate::manifest::LanceFileVersion;
use crate::manifest::ManifestModel;
use crate::manifest::ManifestWriteConfig;
use crate::operation::same_operation;
use crate::operation::Operation;
use crate::operation::OperationModel;
use crate::operation::RewriteGroupModel;
use crate::planning::next_version;
use crate::schema::SchemaModel;
use crate::text::int_text;
use crate::transaction::TransactionModel;
use crate::validation::first_missing;
use crate::validation::fragment_has;
use crate::validation::fragments_fault;
use crate::validation::operation_fault;

verus! {

// Recording.

/// Whether a number is the greatest fragment id that was ever used: no fragment has a
/// greater one, the record before was not greater, and it is that record or the id of a
/// fragment.
pub open spec fn is_record(
    before: Option<u32>,
    fragments: Seq<FragmentModel>,
    after: Option<u32>,
) -> bool {
    match after {
        Some(id) => {
            &&& forall|i: int| 0 <= i < fragments.len() ==> (#[trigger] fragments[i]).id <= id
            &&& before is Some ==> before->0 <= id
            &&& before == Some(id) || exists|i: int|
                0 <= i < fragments.len() && (#[trigger] fragments[i]).id == id
        },
        None => before is None && fragments.len() == 0,
    }
}

/// The version of the storage format that is asked for, if one is.
pub open spec fn asked_for(config: ManifestWriteConfig) -> Option<LanceFileVersion> {
    if config.storage_version is Some {
        config.storage_version
    } else if config.use_legacy_format == Some(true) {
        Some(LanceFileVersion::Legacy)
    } else if config.use_legacy_format == Some(false) {
        Some(LanceFileVersion::V2_0)
    } else {
        None
    }
}

/// How a version of the storage format is recorded.
pub open spec fn recorded_version(version: LanceFileVersion) -> Seq<char> {
    match version {
        LanceFileVersion::Legacy => "0.1"@,
        LanceFileVersion::V2_0 => "2.0"@,
        LanceFileVersion::Stable => "2.0"@,
        LanceFileVersion::V2_1 => "2.1"@,
        LanceFileVersion::Next => "2.1"@,
    }
}

/// The next version of a table has the schema and fragments that were planned, the tag of
/// the transaction, the time and the file of the commit, the feature flags that were worked
/// out, the greatest fragment id ever used, and, where row ids are kept, the next free one.
/// What belongs to the table is carried over: its configuration, the version of its dataset
/// of large binary values unless there is a new one, and its storage format, which only an
/// overwrite that asks for another one changes.
#[verifier::spinoff_prover]
#[verifier::rlimit(60)]
pub proof fn next_version_carries_over(
    t: TransactionModel,
    op: Operation,
    schema: SchemaModel,
    fragments: Seq<FragmentModel>,
    previous: ManifestModel,
    config: ManifestWriteConfig,
    inferred: Result<Option<LanceFileVersion>, ErrorModel>,
    new_blob_version: Option<u64>,
    flags: Option<(u64, u64)>,
    transaction_file: Seq<char>,
    next_row_id: Option<u64>,
)
    requires
        t.operation == op@,
        next_version(Some(previous)) <= u64::MAX,
    ensures
        assembled(t, schema, fragments, Some(previous), config, inferred, new_blob_version) is Ok,
        ({
            let m = assembled(
                t,
                schema,
                fragments,
                Some(previous),
                config,
                inferred,
                new_blob_version,
            )->Ok_0;
            let r = finished(
                m,
                op,
                flags,
                config.timestamp_nanos,
                transaction_file,
                next_row_id,
            );
            ids_can_be_recorded(m, op) ==> {
                &&& r.version == previous.version + 1
                &&& r.fragments == fragments
                &&& r.tag == t.tag
                &&& r.timestamp_nanos == config.timestamp_nanos
                &&& r.transaction_file == Some(transaction_file)
                &&& r.reader_feature_flags == (if flags is Some {
                    (flags->0).0
                } else {
                    0
                })
                &&& r.writer_feature_flags == (if flags is Some {
                    (flags->0).1
                } else {
                    0
                })
                &&& r.next_row_id == (if next_row_id is Some {
                    next_row_id->0
                } else {
                    previous.next_row_id
                })
                &&& r.blob_dataset_version == (if new_blob_version is Some {
                    new_blob_version
                } else {
                    previous.blob_dataset_version
                })
                &&& op is Overwrite && asked_for(config) is Some ==> {
                    &&& r.data_storage_format.file_format == "lance"@
                    &&& r.data_storage_format.version == recorded_version(asked_for(config)->0)
                }
                &&& !(op is Overwrite && asked_for(config) is Some) ==> r.data_storage_format
                    == previous.data_storage_format
                &&& op !is ReserveFragments ==> is_record(
                    previous.max_fragment_id,
                    fragments,
                    r.max_fragment_id,
                )
                &&& op !is UpdateConfig ==> r.schema == schema
                &&& op !is UpdateConfig && op !is Overwrite ==> r.config == previous.config
                &&& op is ReserveFragments ==> exists|used: Option<u32>|
                    #![auto]
                    is_record(previous.max_fragment_id, fragments, used) && r.max_fragment_id
                        is Some && r.max_fragment_id->0 == (if used is Some {
                        used->0
                    } else {
                        0
                    }) + op->num_fragments
            }
        }),
{
    let m = assembled(
        t,
        schema,
        fragments,
        Some(previous),
        config,
        inferred,
        new_blob_version,
    )->Ok_0;
    lemma_greatest_fragment(fragments);
    let stamped = ManifestModel { timestamp_nanos: config.timestamp_nanos, ..m };
    let used = stamped.record_fragments().max_fragment_id;
    if ids_can_be_recorded(m, op) {
        assert(is_record(previous.max_fragment_id, fragments, used));
    }
}

/// The first version of a table is version 1. Its storage format is that of its data files,
/// if there are any; asking for another one is an error. Without data files it is the one
/// that is asked for, or the stable one.
#[verifier::spinoff_prover]
#[verifier::rlimit(60)]
pub proof fn first_version_starts(
    t: TransactionModel,
    op: Operation,
    schema: SchemaModel,
    fragments: Seq<FragmentModel>,
    config: ManifestWriteConfig,
    inferred: Result<Option<LanceFileVersion>, ErrorModel>,
    new_blob_version: Option<u64>,
    flags: Option<(u64, u64)>,
    transaction_file: Seq<char>,
    next_row_id: Option<u64>,
)
    ensures
        ({
            let a = assembled(t, schema, fragments, None, config, inferred, new_blob_version);
            let r = finished(
                a->Ok_0,
                op,
                flags,
                config.timestamp_nanos,
                transaction_file,
                next_row_id,
            );
            let wanted = asked_for(config);
            &&& a is Ok <==> inferred is Ok && (inferred->Ok_0 is Some && wanted is Some ==> wanted
                == inferred->Ok_0)
            &&& inferred is Err ==> a->Err_0 == inferred->Err_0
            &&& a is Ok && ids_can_be_recorded(a->Ok_0, op) ==> {
                &&& r.version == 1
                &&& r.fragments == fragments
                &&& r.tag == t.tag
                &&& r.timestamp_nanos == config.timestamp_nanos
                &&& r.transaction_file == Some(transaction_file)
                &&& r.next_row_id == (if next_row_id is Some {
                    next_row_id->0
                } else {
                    0
                })
                &&& r.blob_dataset_version == new_blob_version
                &&& r.data_storage_format.file_format == "lance"@
                &&& r.data_storage_format.version == recorded_version(
                    if inferred->Ok_0 is Some {
                        inferred->Ok_0->0
                    } else if wanted is Some {
                        wanted->0
                    } else {
                        LanceFileVersion::Stable
                    },
                )
                &&& op !is ReserveFragments ==> is_record(None, fragments, r.max_fragment_id)
                &&& op !is UpdateConfig ==> r.schema == schema
                &&& op !is UpdateConfig && op !is Overwrite ==> r.config.dom() == Set::<
                    Seq<char>,
                >::empty()
            }
        }),
{
    lemma_greatest_fragment(fragments);
}

/// Overwriting sets the configuration values that it has and keeps the others; replacing the
/// metadata of the schema replaces all of it, and nothing else replaces it; the fields keep
/// all but their metadata. No operation but an overwrite and an update of the configuration
/// changes the configuration or the schema.
pub proof fn configuration_is_updated(m: ManifestModel, op: Operation, key: Seq<char>)
    ensures
        ({
            let r = configured(m, op);
            &&& r.fragments == m.fragments
            &&& r.version == m.version
            &&& op is Overwrite ==> {
                let values = op->config_upsert_values;
                let set = values is Some && values->0@.dom().contains(key);
                &&& r.schema == m.schema
                &&& set ==> r.config.dom().contains(key) && r.config[key] == values->0@[key]
                &&& !set ==> (r.config.dom().contains(key) <==> m.config.dom().contains(key))
                &&& !set && m.config.dom().contains(key) ==> r.config[key] == m.config[key]
            }
            &&& op is UpdateConfig ==> {
                &&& r.schema.metadata == (if op->schema_metadata is Some {
                    op->schema_metadata->0@
                } else {
                    m.schema.metadata
                })
                &&& op->field_metadata is None ==> r.schema.fields == m.schema.fields
            }
            &&& op !is Overwrite && op !is UpdateConfig ==> r == m
        }),
{
    match op {
        Operation::Overwrite { config_upsert_values, .. } => {
            assert(op->config_upsert_values == config_upsert_values);
        },
        Operation::UpdateConfig { schema_metadata, field_metadata, .. } => {
            assert(op->schema_metadata == schema_metadata);
            assert(op->field_metadata == field_metadata);
        },
        _ => {},
    }
}

// Validity.

/// Whether a data file of a fragment has a field.
pub open spec fn holds_field(f: FragmentModel, id: i32) -> bool {
    exists|j: int, k: int|
        0 <= j < f.files.len() && 0 <= k < f.files[j].fields.len() && (
        #[trigger] f.files[j].fields[k]) == id
}

/// Whether every fragment has every field of a schema, at any depth.
pub open spec fn are_complete(schema: SchemaModel, fragments: Seq<FragmentModel>) -> bool {
    forall|i: int, k: int|
        0 <= i < fragments.len() && 0 <= k < pre_order(schema.fields).len() ==> holds_field(
            #[trigger] fragments[i],
            (#[trigger] pre_order(schema.fields)[k]).id,
        )
}

/// Whether an error tells of a fragment that lacks a field, and of the field.
pub open spec fn tells_of_missing(
    schema: SchemaModel,
    fragments: Seq<FragmentModel>,
    e: ErrorModel,
) -> bool {
    exists|i: int, k: int|
        {
            let f = #[trigger] fragments[i];
            let field = #[trigger] pre_order(schema.fields)[k];
            &&& 0 <= i < fragments.len()
            &&& 0 <= k < pre_order(schema.fields).len()
            &&& !holds_field(f, field.id)
            &&& e == (ErrorModel::InvalidInput {
                source: "Fragment "@ + int_text(f.id as int) + " does not contain field "@
                    + field_text(field),
            })
        }
}

proof fn lemma_holds_field(f: FragmentModel, id: i32)
    ensures
        holds_field(f, id) <==> fragment_has(f, id),
{
    if holds_field(f, id) {
        let (j, k) = choose|j: int, k: int|
            0 <= j < f.files.len() && 0 <= k < f.files[j].fields.len() && (
            #[trigger] f.files[j].fields[k]) == id;
        assert(f.files[j].fields.contains(id));
    }
    if fragment_has(f, id) {
        let j = choose|j: int|
            0 <= j < f.files.len() && (#[trigger] f.files[j]).fields.contains(id);
        let k = choose|k: int| 0 <= k < f.files[j].fields.len() && f.files[j].fields[k] == id;
        assert(f.files[j].fields[k] == id);
    }
}

proof fn lemma_missing(f: FragmentModel, fields: Seq<FieldModel>)
    ensures
        match first_missing(f, fields) {
            Some(field) => exists|k: int|
                0 <= k < fields.len() && (#[trigger] fields[k]) == field && !holds_field(
                    f,
                    field.id,
                ),
            None => forall|k: int|
                0 <= k < fields.len() ==> holds_field(f, (#[trigger] fields[k]).id),
        },
    decreases fields.len(),
{
    if fields.len() > 0 {
        let rest = fields.drop_first();
        lemma_missing(f, rest);
        lemma_holds_field(f, fields[0].id);
        assert(forall|k: int| 0 <= k < rest.len() ==> (#[trigger] rest[k]) == fields[k + 1]);
        if fragment_has(f, fields[0].id) {
            match first_missing(f, rest) {
                Some(field) => {
                    let k = choose|k: int|
                        0 <= k < rest.len() && (#[trigger] rest[k]) == field && !holds_field(
                            f,
                            field.id,
                        );
                    assert(fields[k + 1] == field);
                },
                None => {
                    assert forall|k: int| 0 <= k < fields.len() implies holds_field(
                        f,
                        (#[trigger] fields[k]).id,
                    ) by {
                        if k > 0 {
                            assert(holds_field(f, rest[k - 1].id));
                        }
                    }
                },
            }
        } else {
            assert(fields[0] == first_missing(f, fields)->0);
        }
    }
}

#[verifier::spinoff_prover]
#[verifier::rlimit(60)]
proof fn lemma_complete(schema: SchemaModel, fragments: Seq<FragmentModel>)
    ensures
        match fragments_fault(schema, fragments) {
            Some(e) => !are_complete(schema, fragments) && tells_of_missing(schema, fragments, e),
            None => are_complete(schema, fragments),
        },
    decreases fragments.len(),
{
    if fragments.len() > 0 {
        let rest = fragments.drop_first();
        let fields = pre_order(schema.fields);
        lemma_complete(schema, rest);
        lemma_missing(fragments[0], fields);
        assert(forall|i: int| 0 <= i < rest.len() ==> (#[trigger] rest[i]) == fragments[i + 1]);
        match first_missing(fragments[0], fields) {
            Some(field) => {
                let k = choose|k: int|
                    0 <= k < fields.len() && (#[trigger] fields[k]) == field && !holds_field(
                        fragments[0],
                        field.id,
                    );
                assert(!holds_field(fragments[0], fields[k].id));
            },
            None => match fragments_fault(schema, rest) {
                Some(e) => {
                    let (i, k) = choose|i: int, k: int|
                        {
                            let f = #[trigger] rest[i];
                            let field = #[trigger] pre_order(schema.fields)[k];
                            &&& 0 <= i < rest.len()
                            &&& 0 <= k < pre_order(schema.fields).len()
                            &&& !holds_field(f, field.id)
                            &&& e == (ErrorModel::InvalidInput {
                                source: "Fragment "@ + int_text(f.id as int)
                                    + " does not contain field "@ + field_text(field),
                            })
                        };
                    assert(fragments[i + 1] == rest[i]);
                    assert(!holds_field(fragments[i + 1], fields[k].id));
                },
                None => {
                    assert forall|i: int, k: int|
                        0 <= i < fragments.len() && 0 <= k < fields.len() implies holds_field(
                        #[trigger] fragments[i],
                        (#[trigger] fields[k]).id,
                    ) by {
                        if i > 0 {
                            assert(holds_field(rest[i - 1], fields[k].id));
                        }
                    }
                },
            },
        }
    }
}

/// An operation is valid for a table exactly if the fragments that it brings have every
/// field of the schema they are for, or, where it projects, the fragments of the table those
/// of the new schema. Where there is no table only an overwrite is valid. An overwrite that
/// changes the configuration is not valid without a table, and is not looked into with one.
#[verifier::spinoff_prover]
#[verifier::rlimit(60)]
pub proof fn operation_is_valid(manifest: Option<ManifestModel>, op: OperationModel)
    ensures
        operation_fault(manifest, op) is None <==> match manifest {
            None => {
                &&& op is Overwrite
                &&& op->config_upsert_values is None
                &&& are_complete(op->Overwrite_schema, op->Overwrite_fragments)
            },
            Some(m) => {
                &&& op is Append ==> are_complete(m.schema, op->Append_fragments)
                &&& op is Project ==> are_complete(op->Project_schema, m.fragments)
                &&& op is Merge ==> are_complete(op->Merge_schema, op->Merge_fragments)
                &&& op is Overwrite && op->config_upsert_values is None ==> are_complete(
                    op->Overwrite_schema,
                    op->Overwrite_fragments,
                )
                &&& op is Update ==> are_complete(m.schema, op->Update_updated_fragments)
                    && are_complete(m.schema, op->Update_new_fragments)
            },
        },
        manifest is None && !(op is Overwrite && op->config_upsert_values is None)
            ==> operation_fault(manifest, op) == Some(
            ErrorModel::InvalidInput {
                source: "Cannot apply operation "@ + op.name() + " to non-existent dataset"@,
            },
        ),
        manifest is Some && op is Append && operation_fault(manifest, op) is Some
            ==> tells_of_missing(
            manifest->0.schema,
            op->Append_fragments,
            operation_fault(manifest, op)->0,
        ),
{
    match op {
        OperationModel::Append { fragments } => {
            if manifest is Some {
                lemma_complete(manifest->0.schema, fragments);
            }
        },
        OperationModel::Project { schema } => {
            if manifest is Some {
                lemma_complete(schema, manifest->0.fragments);
            }
        },
        OperationModel::Merge { fragments, schema } => {
            lemma_complete(schema, fragments);
        },
        OperationModel::Overwrite { fragments, schema, .. } => {
            lemma_complete(schema, fragments);
        },
        OperationModel::Update { updated_fragments, new_fragments, .. } => {
            if manifest is Some {
                lemma_complete(manifest->0.schema, updated_fragments);
                lemma_complete(manifest->0.schema, new_fragments);
            }
        },
        _ => {},
    }
}

// Conflicts.

/// Whether an operation sets a configuration key.
pub open spec fn sets_key(op: OperationModel, key: Seq<char>) -> bool {
    ||| op is Overwrite && op->config_upsert_values is Some
        && op->config_upsert_values->0.dom().contains(key)
    ||| op is UpdateConfig && op->upsert_values is Some && op->upsert_values->0.dom().contains(key)
}

/// Whether an operation deletes a configuration key.
pub open spec fn deletes_key(op: OperationModel, key: Seq<char>) -> bool {
    op is UpdateConfig && op->delete_keys is Some && op->delete_keys->0.contains(key)
}

/// Two operations conflict over a configuration key exactly if one sets a key that the other
/// sets or deletes. They conflict over metadata exactly if both replace that of the schema,
/// or both that of one field.
pub proof fn conflicts_are_over_one_thing(a: OperationModel, b: OperationModel)
    ensures
        a.key_conflict(b) <==> exists|key: Seq<char>|
            {
                ||| #[trigger] sets_key(a, key) && sets_key(b, key)
                ||| sets_key(a, key) && deletes_key(b, key)
                ||| deletes_key(a, key) && sets_key(b, key)
            },
        a.metadata_conflict(b) <==> a is UpdateConfig && b is UpdateConfig && {
            ||| a->schema_metadata is Some && b->schema_metadata is Some
            ||| a->field_metadata is Some && b->field_metadata is Some && exists|id: u32| #[trigger]
                a->field_metadata->0.dom().contains(id) && b->field_metadata->0.dom().contains(id)
        },
        a.deleted_keys() == (if a is UpdateConfig && a->delete_keys is Some {
            a->delete_keys->0
        } else {
            Seq::empty()
        }),
{
    assert forall|op: OperationModel, key: Seq<char>| #[trigger]
        op.upserts(key) == sets_key(op, key) by {}
    assert forall|op: OperationModel, key: Seq<char>| #[trigger]
        op.deletes(key) == deletes_key(op, key) by {}
    if a.key_conflict(b) {
        let key = choose|key: Seq<char>|
            {
                ||| #[trigger] a.upserts(key) && (b.upserts(key) || b.deletes(key))
                ||| b.upserts(key) && a.deletes(key)
            };
        assert(a.upserts(key) == sets_key(a, key));
        assert(b.upserts(key) == sets_key(b, key));
    }
    if exists|key: Seq<char>|
        {
            ||| #[trigger] sets_key(a, key) && sets_key(b, key)
            ||| sets_key(a, key) && deletes_key(b, key)
            ||| deletes_key(a, key) && sets_key(b, key)
        } {
        let key = choose|key: Seq<char>|
            {
                ||| #[trigger] sets_key(a, key) && sets_key(b, key)
                ||| sets_key(a, key) && deletes_key(b, key)
                ||| deletes_key(a, key) && sets_key(b, key)
            };
        assert(a.upserts(key) == sets_key(a, key));
        assert(b.upserts(key) == sets_key(b, key));
        assert(a.deletes(key) == deletes_key(a, key));
        assert(b.deletes(key) == deletes_key(b, key));
    }
    if a.metadata_conflict(b) && !(a.sets_schema_metadata() && b.sets_schema_metadata()) {
        let id = choose|id: u32| #[trigger] a.sets_field_metadata(id) && b.sets_field_metadata(id);
        assert(a->field_metadata->0.dom().contains(id));
    }
    if a is UpdateConfig && b is UpdateConfig && a->field_metadata is Some
        && b->field_metadata is Some && exists|id: u32| #[trigger]
        a->field_metadata->0.dom().contains(id) && b->field_metadata->0.dom().contains(id) {
        let id = choose|id: u32| #[trigger]
            a->field_metadata->0.dom().contains(id) && b->field_metadata->0.dom().contains(id);
        assert(a.sets_field_metadata(id) && b.sets_field_metadata(id));
    }
}

// Equality.

/// What rewrite groups replace by what, whatever the order in each.
pub open spec fn replaced_by(groups: Seq<RewriteGroupModel>) -> Seq<
    (
        vstd::multiset::Multiset<FragmentModel>,
        vstd::multiset::Multiset<FragmentModel>,
    ),
> {
    Seq::new(
        groups.len(),
        |i: int|
            (groups[i].old_fragments.to_multiset(), groups[i].new_fragments.to_multiset()),
    )
}

/// Two operations are equal exactly if they are of one kind and every part is equal. Lists
/// are equal that hold the same values, each as often, in whatever order; schemas are equal
/// that have the same fields.
#[verifier::spinoff_prover]
#[verifier::rlimit(60)]
pub proof fn equal_in_every_part(a: OperationModel, b: OperationModel)
    ensures
        a is Append ==> (same_operation(a, b) <==> b is Append
            && a->Append_fragments.to_multiset() == b->Append_fragments.to_multiset()),
        a is Delete ==> (same_operation(a, b) <==> {
            &&& b is Delete
            &&& a->Delete_updated_fragments.to_multiset()
                == b->Delete_updated_fragments.to_multiset()
            &&& a->deleted_fragment_ids.to_multiset() == b->deleted_fragment_ids.to_multiset()
            &&& a->predicate == b->predicate
        }),
        a is Overwrite ==> (same_operation(a, b) <==> {
            &&& b is Overwrite
            &&& a->Overwrite_fragments.to_multiset() == b->Overwrite_fragments.to_multiset()
            &&& a->Overwrite_schema.fields == b->Overwrite_schema.fields
            &&& a->config_upsert_values == b->config_upsert_values
        }),
        a is CreateIndex ==> (same_operation(a, b) <==> {
            &&& b is CreateIndex
            &&& a->new_indices.to_multiset() == b->new_indices.to_multiset()
            &&& a->removed_indices.to_multiset() == b->removed_indices.to_multiset()
        }),
        a is Rewrite ==> (same_operation(a, b) <==> {
            &&& b is Rewrite
            &&& replaced_by(a->groups).to_multiset() == replaced_by(b->groups).to_multiset()
            &&& a->rewritten_indices.to_multiset() == b->rewritten_indices.to_multiset()
            &&& a->frag_reuse_index == b->frag_reuse_index
        }),
        a is DataReplacement ==> (same_operation(a, b) <==> b is DataReplacement
            && a->replacements.to_multiset() == b->replacements.to_multiset()),
        a is Merge ==> (same_operation(a, b) <==> {
            &&& b is Merge
            &&& a->Merge_fragments.to_multiset() == b->Merge_fragments.to_multiset()
            &&& a->Merge_schema.fields == b->Merge_schema.fields
        }),
        a is Restore ==> (same_operation(a, b) <==> b is Restore && a->version == b->version),
        a is ReserveFragments ==> (same_operation(a, b) <==> b is ReserveFragments
            && a->num_fragments == b->num_fragments),
        a is Update ==> (same_operation(a, b) <==> {
            &&& b is Update
            &&& a->removed_fragment_ids.to_multiset() == b->removed_fragment_ids.to_multiset()
            &&& a->Update_updated_fragments.to_multiset()
                == b->Update_updated_fragments.to_multiset()
            &&& a->Update_new_fragments.to_multiset() == b->Update_new_fragments.to_multiset()
            &&& a->fields_modified.to_multiset() == b->fields_modified.to_multiset()
            &&& a->mem_wal_to_flush == b->mem_wal_to_flush
        }),
        a is Project ==> (same_operation(a, b) <==> b is Project && a->Project_schema.fields
            == b->Project_schema.fields),
        a is UpdateConfig ==> (same_operation(a, b) <==> {
            &&& b is UpdateConfig
            &&& a->upsert_values == b->upsert_values
            &&& a->delete_keys is Some <==> b->delete_keys is Some
            &&& a->delete_keys is Some ==> a->delete_keys->0.to_multiset()
                == b->delete_keys->0.to_multiset()
            &&& a->schema_metadata == b->schema_metadata
            &&& a->field_metadata == b->field_metadata
        }),
        a is UpdateMemWalState ==> (same_operation(a, b) <==> {
            &&& b is UpdateMemWalState
            &&& a->added.to_multiset() == b->added.to_multiset()
            &&& a->updated.to_multiset() == b->updated.to_multiset()
            &&& a->removed.to_multiset() == b->removed.to_multiset()
        }),
{
    if a is Rewrite && b is Rewrite {
        assert(replaced_by(a->groups) =~= crate::operation::group_contents(a->groups));
        assert(replaced_by(b->groups) =~= crate::operation::group_contents(b->groups));
    }
}

} // verus!
