//! Laws of messages: which part of a message holds which part of a transaction.

use vstd::prelude::*;
use crate::error::ErrorModel;
use crate::format::DataFileModel;
use crate::format::FragmentModel;
use crate::message::all_ok;
use crate::message::as_ok;
use crate::message::decode;
use crate::message::decode_group;
use crate::message::decode_groups;
use crate::message::decode_operation;
use crate::message::decode_replacement;
use crate::message::decode_replacements;
use crate::message::decode_rewritten;
use crate::message::decode_all_rewritten;
use crate::message::encode;
use crate::message::encode_blob;
use crate::message::encode_group;
use crate::message::encode_operation;
use crate::message::encode_replacement;
use crate::message::encode_rewritten;
use crate::message::is_blob_operation;
use crate::message::BlobOperationMessageModel;
use crate::message::DataReplacementMessageModel;
use crate::message::MessageModel;
use crate::message::OperationMessageModel;
use crate::message::RewriteGroupMessageModel;
use crate::message::RewrittenIndexMessageModel;
use crate::operation::OperationModel;
use crate::operation::RewriteGroupModel;
use crate::operation::RewrittenIndex;
use crate::transaction::TransactionModel;

verus! {

/// Whether a part of a message holds values, each in its place.
pub open spec fn holds_values<V>(part: Seq<Result<V, ErrorModel>>, values: Seq<V>) -> bool {
    &&& part.len() == values.len()
    &&& forall|i: int|
        0 <= i < values.len() ==> #[trigger] part[i] == Ok::<V, ErrorModel>(values[i])
}

/// Whether an error is the first one in a part of a message.
pub open spec fn fails_first<V>(part: Seq<Result<V, ErrorModel>>, e: ErrorModel) -> bool {
    exists|i: int|
        {
            &&& 0 <= i < part.len()
            &&& #[trigger] part[i] == Err::<V, ErrorModel>(e)
            &&& forall|j: int| 0 <= j < i ==> #[trigger] part[j] is Ok
        }
}

/// Whether every value in a part of a message can be decoded.
pub open spec fn decodes<V>(part: Seq<Result<V, ErrorModel>>) -> bool {
    forall|i: int| 0 <= i < part.len() ==> #[trigger] part[i] is Ok
}

proof fn lemma_collected<V>(part: Seq<Result<V, ErrorModel>>)
    ensures
        match all_ok(part) {
            Ok(values) => holds_values(part, values),
            Err(e) => fails_first(part, e),
        },
        all_ok(part) is Ok <==> decodes(part),
    decreases part.len(),
{
    if part.len() > 0 {
        let rest = part.drop_first();
        lemma_collected(rest);
        assert(forall|i: int| 0 <= i < rest.len() ==> #[trigger] rest[i] == part[i + 1]);
        match part[0] {
            Err(e) => {
                assert(part[0] == Err::<V, ErrorModel>(e));
            },
            Ok(v) => match all_ok(rest) {
                Err(e) => {
                    let i = choose|i: int|
                        {
                            &&& 0 <= i < rest.len()
                            &&& #[trigger] rest[i] == Err::<V, ErrorModel>(e)
                            &&& forall|j: int| 0 <= j < i ==> #[trigger] rest[j] is Ok
                        };
                    assert(part[i + 1] == Err::<V, ErrorModel>(e));
                    assert forall|j: int| 0 <= j < i + 1 implies #[trigger] part[j] is Ok by {
                        if j > 0 {
                            assert(rest[j - 1] is Ok);
                        }
                    }
                },
                Ok(values) => {
                    let all = all_ok(part)->Ok_0;
                    assert forall|i: int| 0 <= i < all.len() implies #[trigger] part[i] == Ok::<
                        V,
                        ErrorModel,
                    >(all[i]) by {
                        if i > 0 {
                            assert(rest[i - 1] == Ok::<V, ErrorModel>(values[i - 1]));
                        }
                    }
                },
            },
        }
    }
}

proof fn lemma_wrapped<V>(values: Seq<V>)
    ensures
        holds_values(as_ok(values), values),
{
}

/// Whether a message holds the fragments of a rewrite group, old ones as old and new ones
/// as new.
pub open spec fn holds_group(m: RewriteGroupMessageModel, g: RewriteGroupModel) -> bool {
    &&& holds_values(m.old_fragments, g.old_fragments)
    &&& holds_values(m.new_fragments, g.new_fragments)
}

/// A rewrite group is read with the old fragments of its message as old and the new ones
/// as new, if all of them can be decoded.
pub proof fn group_is_read(m: RewriteGroupMessageModel)
    ensures
        match decode_group(m) {
            Ok(g) => holds_group(m, g),
            Err(e) => fails_first(m.old_fragments, e) || (decodes(m.old_fragments) && fails_first(
                m.new_fragments,
                e,
            )),
        },
        decode_group(m) is Ok <==> decodes(m.old_fragments) && decodes(m.new_fragments),
{
    lemma_collected(m.old_fragments);
    lemma_collected(m.new_fragments);
}

/// Whether a message holds the ids of a rewritten index.
pub open spec fn holds_rewritten(m: RewrittenIndexMessageModel, r: RewrittenIndex) -> bool {
    &&& m.old_id == Some(Ok::<_, ErrorModel>(r.old_id))
    &&& m.new_id == Some(Ok::<_, ErrorModel>(r.new_id))
}

/// A rewritten index is read with the ids of its message, both of which it must have.
pub proof fn rewritten_index_is_read(m: RewrittenIndexMessageModel)
    ensures
        match decode_rewritten(m) {
            Ok(r) => holds_rewritten(m, r),
            Err(e) => match (m.old_id, m.new_id) {
                (None, _) => e == (ErrorModel::Io {
                    source: "required field (old_id) missing from message"@,
                }),
                (Some(Err(old)), _) => e == old,
                (Some(Ok(_)), None) => e == (ErrorModel::Io {
                    source: "required field (new_id) missing from message"@,
                }),
                (Some(Ok(_)), Some(new)) => new is Err && new->Err_0 == e,
            },
        },
{
}

/// Whether a message holds a replaced data file and the id of its fragment.
pub open spec fn holds_replacement(
    m: DataReplacementMessageModel,
    r: (u64, DataFileModel),
) -> bool {
    &&& m.fragment_id == r.0
    &&& m.new_file == Some(Ok::<_, ErrorModel>(r.1))
}

/// A replaced data file is read with the fragment id and the file of its message, which
/// must have a file.
pub proof fn replacement_is_read(m: DataReplacementMessageModel)
    ensures
        match decode_replacement(m) {
            Ok(r) => holds_replacement(m, r),
            Err(e) => match m.new_file {
                None => e == (ErrorModel::InvalidInput {
                    source: "DataReplacementGroup must have a new_file"@,
                }),
                Some(file) => file is Err && file->Err_0 == e,
            },
        },
{
}

/// Whether a map of a message holds an optional map: an empty one stands for none.
pub open spec fn holds_map<K, V>(m: Map<K, V>, o: Option<Map<K, V>>) -> bool {
    match o {
        Some(values) => m == values,
        None => m.dom() == Set::<K>::empty(),
    }
}

/// Whether the message of an operation holds the operation: it is of the same kind, and
/// each part of the message holds the part of the operation that has its name. Of a schema
/// only the fields are held.
pub open spec fn holds_operation(m: OperationMessageModel, op: OperationModel) -> bool {
    match (m, op) {
        (
            OperationMessageModel::Append { fragments: part },
            OperationModel::Append { fragments },
        ) => holds_values(part, fragments),
        (
            OperationMessageModel::Delete {
                updated_fragments: part,
                deleted_fragment_ids: ids,
                predicate: text,
            },
            OperationModel::Delete { updated_fragments, deleted_fragment_ids, predicate },
        ) => {
            &&& holds_values(part, updated_fragments)
            &&& ids == deleted_fragment_ids
            &&& text == predicate
        },
        (
            OperationMessageModel::Overwrite {
                fragments: part,
                schema: fields,
                config_upsert_values: config,
                ..
            },
            OperationModel::Overwrite { fragments, schema, config_upsert_values },
        ) => {
            &&& holds_values(part, fragments)
            &&& fields == schema.fields
            &&& holds_map(config, config_upsert_values)
        },
        (
            OperationMessageModel::CreateIndex { new_indices: new, removed_indices: removed },
            OperationModel::CreateIndex { new_indices, removed_indices },
        ) => holds_values(new, new_indices) && holds_values(removed, removed_indices),
        (
            OperationMessageModel::Rewrite {
                old_fragments,
                new_fragments,
                groups: parts,
                rewritten_indices: indices,
            },
            OperationModel::Rewrite { groups, rewritten_indices, .. },
        ) => {
            &&& if parts.len() > 0 {
                parts.len() == groups.len() && forall|i: int|
                    0 <= i < parts.len() ==> holds_group(#[trigger] parts[i], groups[i])
            } else if groups.len() > 0 {
                &&& groups.len() == 1
                &&& holds_values(old_fragments, groups[0].old_fragments)
                &&& holds_values(new_fragments, groups[0].new_fragments)
            } else {
                old_fragments.len() == 0 && new_fragments.len() == 0
            }
            &&& indices.len() == rewritten_indices.len()
            &&& forall|i: int|
                0 <= i < indices.len() ==> holds_rewritten(
                    #[trigger] indices[i],
                    rewritten_indices[i],
                )
        },
        (
            OperationMessageModel::DataReplacement { replacements: parts },
            OperationModel::DataReplacement { replacements },
        ) => {
            &&& parts.len() == replacements.len()
            &&& forall|i: int|
                0 <= i < parts.len() ==> holds_replacement(#[trigger] parts[i], replacements[i])
        },
        (
            OperationMessageModel::Merge { fragments: part, schema: fields, .. },
            OperationModel::Merge { fragments, schema },
        ) => holds_values(part, fragments) && fields == schema.fields,
        (
            OperationMessageModel::Restore { version: v },
            OperationModel::Restore { version },
        ) => v == version,
        (
            OperationMessageModel::ReserveFragments { num_fragments: n },
            OperationModel::ReserveFragments { num_fragments },
        ) => n == num_fragments,
        (
            OperationMessageModel::Update {
                removed_fragment_ids: removed,
                updated_fragments: updated,
                new_fragments: new,
                fields_modified: modified,
                mem_wal_to_flush: log,
            },
            OperationModel::Update {
                removed_fragment_ids,
                updated_fragments,
                new_fragments,
                fields_modified,
                mem_wal_to_flush,
            },
        ) => {
            &&& removed == removed_fragment_ids
            &&& holds_values(updated, updated_fragments)
            &&& holds_values(new, new_fragments)
            &&& modified == fields_modified
            &&& log == mem_wal_to_flush
        },
        (
            OperationMessageModel::Project { schema: fields },
            OperationModel::Project { schema },
        ) => fields == schema.fields,
        (
            OperationMessageModel::UpdateConfig {
                upsert_values: values,
                delete_keys: keys,
                schema_metadata: of_schema,
                field_metadata: of_fields,
            },
            OperationModel::UpdateConfig {
                upsert_values,
                delete_keys,
                schema_metadata,
                field_metadata,
            },
        ) => {
            &&& holds_map(values, upsert_values)
            &&& match delete_keys {
                Some(all) => keys == all,
                None => keys.len() == 0,
            }
            &&& holds_map(of_schema, schema_metadata)
            &&& holds_map(of_fields, field_metadata)
        },
        (
            OperationMessageModel::UpdateMemWalState { added: a, updated: u, removed: r },
            OperationModel::UpdateMemWalState { added, updated, removed },
        ) => a == added && u == updated && r == removed,
        _ => false,
    }
}

/// Whether everything in the message of an operation can be decoded.
pub open spec fn is_readable(m: OperationMessageModel) -> bool {
    match m {
        OperationMessageModel::Append { fragments } => decodes(fragments),
        OperationMessageModel::Delete { updated_fragments, .. } => decodes(updated_fragments),
        OperationMessageModel::Overwrite { fragments, .. } => decodes(fragments),
        OperationMessageModel::CreateIndex { new_indices, removed_indices } => decodes(new_indices)
            && decodes(removed_indices),
        OperationMessageModel::Rewrite {
            old_fragments,
            new_fragments,
            groups,
            rewritten_indices,
        } => {
            &&& if groups.len() > 0 {
                forall|i: int|
                    0 <= i < groups.len() ==> decodes((#[trigger] groups[i]).old_fragments)
                        && decodes(groups[i].new_fragments)
            } else {
                decodes(old_fragments) && decodes(new_fragments)
            }
            &&& forall|i: int|
                0 <= i < rewritten_indices.len() ==> {
                    &&& (#[trigger] rewritten_indices[i]).old_id is Some
                    &&& rewritten_indices[i].old_id->0 is Ok
                    &&& rewritten_indices[i].new_id is Some
                    &&& rewritten_indices[i].new_id->0 is Ok
                }
        },
        OperationMessageModel::DataReplacement { replacements } => forall|i: int|
            0 <= i < replacements.len() ==> (#[trigger] replacements[i]).new_file is Some
                && replacements[i].new_file->0 is Ok,
        OperationMessageModel::Merge { fragments, .. } => decodes(fragments),
        OperationMessageModel::Update { updated_fragments, new_fragments, .. } => decodes(
            updated_fragments,
        ) && decodes(new_fragments),
        _ => true,
    }
}

proof fn lemma_groups_are_read(ms: Seq<RewriteGroupMessageModel>)
    ensures
        match decode_groups(ms) {
            Ok(gs) => ms.len() == gs.len() && forall|i: int|
                0 <= i < ms.len() ==> holds_group(#[trigger] ms[i], gs[i]),
            Err(_) => true,
        },
        decode_groups(ms) is Ok <==> forall|i: int|
            0 <= i < ms.len() ==> decodes((#[trigger] ms[i]).old_fragments) && decodes(
                ms[i].new_fragments,
            ),
{
    let part = Seq::new(ms.len(), |i: int| decode_group(ms[i]));
    lemma_collected(part);
    assert forall|i: int| 0 <= i < ms.len() implies (#[trigger] part[i] is Ok <==> decodes(
        ms[i].old_fragments,
    ) && decodes(ms[i].new_fragments)) by {
        group_is_read(ms[i]);
    }
    match decode_groups(ms) {
        Ok(gs) => {
            assert forall|i: int| 0 <= i < ms.len() implies holds_group(
                #[trigger] ms[i],
                gs[i],
            ) by {
                assert(part[i] == Ok::<RewriteGroupModel, ErrorModel>(gs[i]));
                group_is_read(ms[i]);
            }
            assert forall|i: int| 0 <= i < ms.len() implies decodes(
                (#[trigger] ms[i]).old_fragments,
            ) && decodes(ms[i].new_fragments) by {
                assert(part[i] is Ok);
            }
        },
        Err(_) => {
            let i = choose|i: int| 0 <= i < part.len() && !(#[trigger] part[i] is Ok);
            assert(!(decodes(ms[i].old_fragments) && decodes(ms[i].new_fragments)));
        },
    }
}

proof fn lemma_rewritten_are_read(ms: Seq<RewrittenIndexMessageModel>)
    ensures
        match decode_all_rewritten(ms) {
            Ok(rs) => ms.len() == rs.len() && forall|i: int|
                0 <= i < ms.len() ==> holds_rewritten(#[trigger] ms[i], rs[i]),
            Err(_) => true,
        },
        decode_all_rewritten(ms) is Ok <==> forall|i: int|
            0 <= i < ms.len() ==> {
                &&& (#[trigger] ms[i]).old_id is Some
                &&& ms[i].old_id->0 is Ok
                &&& ms[i].new_id is Some
                &&& ms[i].new_id->0 is Ok
            },
{
    let part = Seq::new(ms.len(), |i: int| decode_rewritten(ms[i]));
    lemma_collected(part);
    match decode_all_rewritten(ms) {
        Ok(rs) => {
            assert forall|i: int| 0 <= i < ms.len() implies holds_rewritten(
                #[trigger] ms[i],
                rs[i],
            ) by {
                assert(part[i] == Ok::<RewrittenIndex, ErrorModel>(rs[i]));
            }
        },
        Err(_) => {
            let i = choose|i: int| 0 <= i < part.len() && !(#[trigger] part[i] is Ok);
            assert(!(ms[i].old_id is Some && ms[i].old_id->0 is Ok && ms[i].new_id is Some
                && ms[i].new_id->0 is Ok));
        },
    }
}

proof fn lemma_replacements_are_read(ms: Seq<DataReplacementMessageModel>)
    ensures
        match decode_replacements(ms) {
            Ok(rs) => ms.len() == rs.len() && forall|i: int|
                0 <= i < ms.len() ==> holds_replacement(#[trigger] ms[i], rs[i]),
            Err(_) => true,
        },
        decode_replacements(ms) is Ok <==> forall|i: int|
            0 <= i < ms.len() ==> (#[trigger] ms[i]).new_file is Some && ms[i].new_file->0 is Ok,
{
    let part = Seq::new(ms.len(), |i: int| decode_replacement(ms[i]));
    lemma_collected(part);
    match decode_replacements(ms) {
        Ok(rs) => {
            assert forall|i: int| 0 <= i < ms.len() implies holds_replacement(
                #[trigger] ms[i],
                rs[i],
            ) by {
                assert(part[i] == Ok::<(u64, DataFileModel), ErrorModel>(rs[i]));
            }
        },
        Err(_) => {
            let i = choose|i: int| 0 <= i < part.len() && !(#[trigger] part[i] is Ok);
            assert(!(ms[i].new_file is Some && ms[i].new_file->0 is Ok));
        },
    }
}

proof fn lemma_optional_map<K, V>(m: Map<K, V>)
    ensures
        holds_map(m, crate::message::if_any(m)),
{
}

/// An operation is read exactly if everything in its message can be decoded, and then the
/// message holds it: each part of the operation is what the part of the message that has
/// its name holds, the metadata of a schema is empty, and what a message has no part for is
/// none. Otherwise the error is the first one among the fragments or indices.
#[verifier::spinoff_prover]
#[verifier::rlimit(60)]
pub proof fn operation_is_read(m: OperationMessageModel)
    ensures
        decode_operation(m) is Ok <==> is_readable(m),
        match decode_operation(m) {
            Ok(op) => {
                &&& holds_operation(m, op)
                &&& match op {
                    OperationModel::Overwrite { schema, config_upsert_values, .. } => {
                        &&& schema.metadata.dom() == Set::<Seq<char>>::empty()
                        &&& config_upsert_values is Some
                            ==> config_upsert_values->0.dom() != Set::<Seq<char>>::empty()
                    },
                    OperationModel::Merge { schema, .. } => schema.metadata.dom() == Set::<
                        Seq<char>,
                    >::empty(),
                    OperationModel::Project { schema } => schema.metadata.dom() == Set::<
                        Seq<char>,
                    >::empty(),
                    OperationModel::Rewrite { groups, frag_reuse_index, .. } => groups.len() > 0
                        && frag_reuse_index is None,
                    OperationModel::UpdateConfig {
                        upsert_values,
                        delete_keys,
                        schema_metadata,
                        field_metadata,
                    } => {
                        &&& upsert_values is Some ==> upsert_values->0.dom() != Set::<
                            Seq<char>,
                        >::empty()
                        &&& delete_keys is Some ==> delete_keys->0.len() > 0
                        &&& schema_metadata is Some ==> schema_metadata->0.dom() != Set::<
                            Seq<char>,
                        >::empty()
                        &&& field_metadata is Some ==> field_metadata->0.dom() != Set::<
                            u32,
                        >::empty()
                    },
                    _ => true,
                }
            },
            Err(e) => match m {
                OperationMessageModel::Append { fragments } => fails_first(fragments, e),
                OperationMessageModel::Delete { updated_fragments, .. } => fails_first(
                    updated_fragments,
                    e,
                ),
                OperationMessageModel::Overwrite { fragments, .. } => fails_first(fragments, e),
                OperationMessageModel::Merge { fragments, .. } => fails_first(fragments, e),
                OperationMessageModel::CreateIndex { new_indices, removed_indices } => fails_first(
                    new_indices,
                    e,
                ) || (decodes(new_indices) && fails_first(removed_indices, e)),
                OperationMessageModel::Update { updated_fragments, new_fragments, .. } => {
                    fails_first(updated_fragments, e) || (decodes(updated_fragments)
                        && fails_first(new_fragments, e))
                },
                _ => true,
            },
        },
{
    match m {
        OperationMessageModel::Append { fragments } => {
            lemma_collected(fragments);
        },
        OperationMessageModel::Delete { updated_fragments, .. } => {
            lemma_collected(updated_fragments);
        },
        OperationMessageModel::Overwrite { fragments, config_upsert_values, .. } => {
            lemma_collected(fragments);
            lemma_optional_map(config_upsert_values);
            lemma_some_map(config_upsert_values);
        },
        OperationMessageModel::CreateIndex { new_indices, removed_indices } => {
            lemma_collected(new_indices);
            lemma_collected(removed_indices);
        },
        OperationMessageModel::Rewrite {
            old_fragments,
            new_fragments,
            groups,
            rewritten_indices,
        } => {
            lemma_groups_are_read(groups);
            group_is_read(RewriteGroupMessageModel { old_fragments, new_fragments });
            lemma_rewritten_are_read(rewritten_indices);
        },
        OperationMessageModel::DataReplacement { replacements } => {
            lemma_replacements_are_read(replacements);
        },
        OperationMessageModel::Merge { fragments, .. } => {
            lemma_collected(fragments);
        },
        OperationMessageModel::Update { updated_fragments, new_fragments, .. } => {
            lemma_collected(updated_fragments);
            lemma_collected(new_fragments);
        },
        OperationMessageModel::UpdateConfig {
            upsert_values,
            schema_metadata,
            field_metadata,
            ..
        } => {
            lemma_some_map(upsert_values);
            lemma_some_map(schema_metadata);
            lemma_some_map(field_metadata);
        },
        _ => {},
    }
}

proof fn lemma_some_map<K, V>(m: Map<K, V>)
    ensures
        m.dom() == Set::<K>::empty() ==> m == Map::<K, V>::empty(),
{
    if m.dom() == Set::<K>::empty() {
        assert(m =~= Map::<K, V>::empty());
    }
}

/// An operation is written so that the message holds it: each part of the operation is in
/// the part of the message that has its name, and all of it can be decoded. Parts of a
/// message that nothing stands in are empty.
#[verifier::spinoff_prover]
#[verifier::rlimit(60)]
pub proof fn operation_is_written(op: OperationModel)
    ensures
        holds_operation(encode_operation(op), op),
        is_readable(encode_operation(op)),
        match encode_operation(op) {
            OperationMessageModel::Rewrite { old_fragments, new_fragments, .. } => {
                &&& old_fragments.len() == 0
                &&& new_fragments.len() == 0
            },
            OperationMessageModel::Overwrite { schema_metadata, .. } => schema_metadata.dom()
                == Set::<Seq<char>>::empty(),
            OperationMessageModel::Merge { schema_metadata, .. } => schema_metadata.dom()
                == Set::<Seq<char>>::empty(),
            _ => true,
        },
{
    match op {
        OperationModel::Rewrite { groups, rewritten_indices, .. } => {
            match encode_operation(op) {
                OperationMessageModel::Rewrite { groups: parts, rewritten_indices: indices, .. } => {
                    assert forall|i: int| 0 <= i < parts.len() implies holds_group(
                        #[trigger] parts[i],
                        groups[i],
                    ) by {
                        assert(parts[i] == encode_group(groups[i]));
                    }
                    assert forall|i: int| 0 <= i < indices.len() implies holds_rewritten(
                        #[trigger] indices[i],
                        rewritten_indices[i],
                    ) by {
                        assert(indices[i] == encode_rewritten(rewritten_indices[i]));
                    }
                },
                _ => {},
            }
        },
        OperationModel::DataReplacement { replacements } => {
            match encode_operation(op) {
                OperationMessageModel::DataReplacement { replacements: parts } => {
                    assert forall|i: int| 0 <= i < parts.len() implies holds_replacement(
                        #[trigger] parts[i],
                        replacements[i],
                    ) by {
                        assert(parts[i] == encode_replacement(replacements[i]));
                    }
                },
                _ => {},
            }
        },
        OperationModel::Append { fragments } => {
            lemma_wrapped(fragments);
        },
        _ => {},
    }
}

/// Whether the message of an operation on large binary values holds the operation.
pub open spec fn holds_blob_operation(m: BlobOperationMessageModel, op: OperationModel) -> bool {
    match (m, op) {
        (
            BlobOperationMessageModel::BlobAppend { fragments: part },
            OperationModel::Append { fragments },
        ) => holds_values(part, fragments),
        (
            BlobOperationMessageModel::BlobOverwrite {
                fragments: part,
                schema: fields,
                config_upsert_values: config,
                ..
            },
            OperationModel::Overwrite { fragments, schema, config_upsert_values },
        ) => {
            &&& holds_values(part, fragments)
            &&& fields == schema.fields
            &&& holds_map(config, config_upsert_values)
        },
        _ => false,
    }
}

/// The fragments in the message of an operation on large binary values.
pub open spec fn blob_fragments(m: BlobOperationMessageModel) -> Seq<
    Result<FragmentModel, ErrorModel>,
> {
    match m {
        BlobOperationMessageModel::BlobAppend { fragments } => fragments,
        BlobOperationMessageModel::BlobOverwrite { fragments, .. } => fragments,
    }
}

/// A transaction is read exactly if its message has an operation and everything in the
/// message can be decoded, and then each part of the transaction is what the part of the
/// message that has its name holds. An empty tag stands for none.
pub proof fn transaction_is_read(m: MessageModel)
    ensures
        decode(m) is Ok <==> {
            &&& m.operation is Some
            &&& is_readable(m.operation->0)
            &&& m.blob_operation is Some ==> decodes(blob_fragments(m.blob_operation->0))
        },
        match decode(m) {
            Ok(t) => {
                &&& t.read_version == m.read_version
                &&& t.uuid == m.uuid
                &&& holds_operation(m.operation->0, t.operation)
                &&& match t.blobs_op {
                    Some(op) => m.blob_operation is Some && holds_blob_operation(
                        m.blob_operation->0,
                        op,
                    ),
                    None => m.blob_operation is None,
                }
                &&& match t.tag {
                    Some(tag) => tag == m.tag && tag.len() > 0,
                    None => m.tag.len() == 0,
                }
            },
            Err(e) => m.operation is None ==> e == (ErrorModel::Internal {
                message: "Transaction message did not contain an operation"@,
            }),
        },
{
    match m.operation {
        Some(op) => {
            operation_is_read(op);
        },
        None => {},
    }
    match m.blob_operation {
        Some(blob) => {
            lemma_collected(blob_fragments(blob));
        },
        None => {},
    }
}

/// A transaction is written so that each part of it is in the part of the message that has
/// its name.
pub proof fn transaction_is_written(t: TransactionModel)
    requires
        match t.blobs_op {
            Some(op) => is_blob_operation(op),
            None => true,
        },
    ensures
        ({
            let m = encode(t);
            &&& m.read_version == t.read_version
            &&& m.uuid == t.uuid
            &&& m.operation is Some
            &&& holds_operation(m.operation->0, t.operation)
            &&& match t.blobs_op {
                Some(op) => m.blob_operation is Some && holds_blob_operation(
                    m.blob_operation->0,
                    op,
                ),
                None => m.blob_operation is None,
            }
            &&& match t.tag {
                Some(tag) => m.tag == tag,
                None => m.tag.len() == 0,
            }
        }),
{
    operation_is_written(t.operation);
    match t.blobs_op {
        Some(op) => {
            let blob = encode_blob(op);
            lemma_wrapped(
                match op {
                    OperationModel::Append { fragments } => fragments,
                    OperationModel::Overwrite { fragments, .. } => fragments,
                    _ => Seq::empty(),
                },
            );
        },
        None => {},
    }
}

} // verus!
