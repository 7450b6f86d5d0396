//! Messages: transactions as they are stored.
//!
//! The parts of a message that other code decodes, such as fragments, come as the results
//! of that decoding.

use vstd::prelude::*;
use crate::assoc::Item;
use crate::assoc::StringMap;
use crate::error::outcome;
use crate::error::Error;
use crate::error::ErrorModel;
use crate::field::clone_fields;
use crate::field::Field;
use crate::field::FieldModel;
use crate::field_ops::lemma_prepend_nothing;
use crate::field_ops::lemma_prepend_push;
use crate::field_ops::prepend;
use crate::format::DataFile;
use crate::format::DataFileModel;
use crate::format::Fragment;
use crate::format::FragmentModel;
use crate::format::Index;
use crate::format::IndexModel;
use crate::format::MemWal;
use crate::format::MemWalModel;
use crate::ids::Uuid;
use crate::items::copy_all;
use crate::items::copy_opt;
use crate::operation::same_operation;
use crate::operation::DataReplacementGroup;
use crate::operation::FieldMetadata;
use crate::operation::Operation;
use crate::operation::OperationModel;
use crate::operation::RewriteGroup;
use crate::operation::RewriteGroupModel;
use crate::operation::RewrittenIndex;
use crate::schema::Schema;
use crate::schema::SchemaModel;
use crate::seqs::lemma_skip_ends;
use crate::seqs::lemma_skip_step;
use crate::seqs::lemma_views_push;
use crate::seqs::opt_view;
use crate::seqs::views;
use crate::text::same_text;
use crate::transaction::Transaction;
use crate::transaction::TransactionModel;

verus! {

/// A group of fragments that were rewritten, in a message.
#[derive(Debug)]
pub struct RewriteGroupMessage {
    pub old_fragments: Vec<Result<Fragment, Error>>,
    pub new_fragments: Vec<Result<Fragment, Error>>,
}

/// An index that was rewritten, in a message.
#[derive(Debug)]
pub struct RewrittenIndexMessage {
    pub old_id: Option<Result<Uuid, Error>>,
    pub new_id: Option<Result<Uuid, Error>>,
}

/// A data file that was put in place, in a message.
#[derive(Debug)]
pub struct DataReplacementMessage {
    pub fragment_id: u64,
    pub new_file: Option<Result<DataFile, Error>>,
}

/// An operation, in a message.
#[derive(Debug)]
pub enum OperationMessage {
    Append { fragments: Vec<Result<Fragment, Error>> },
    Delete {
        updated_fragments: Vec<Result<Fragment, Error>>,
        deleted_fragment_ids: Vec<u64>,
        predicate: String,
    },
    Overwrite {
        fragments: Vec<Result<Fragment, Error>>,
        schema: Vec<Field>,
        schema_metadata: StringMap,
        config_upsert_values: StringMap,
    },
    CreateIndex {
        new_indices: Vec<Result<Index, Error>>,
        removed_indices: Vec<Result<Index, Error>>,
    },
    Rewrite {
        /// The fragments of the only group, where there are no groups.
        old_fragments: Vec<Result<Fragment, Error>>,
        new_fragments: Vec<Result<Fragment, Error>>,
        groups: Vec<RewriteGroupMessage>,
        rewritten_indices: Vec<RewrittenIndexMessage>,
    },
    DataReplacement { replacements: Vec<DataReplacementMessage> },
    Merge {
        fragments: Vec<Result<Fragment, Error>>,
        schema: Vec<Field>,
        schema_metadata: StringMap,
    },
    Restore { version: u64 },
    ReserveFragments { num_fragments: u32 },
    Update {
        removed_fragment_ids: Vec<u64>,
        updated_fragments: Vec<Result<Fragment, Error>>,
        new_fragments: Vec<Result<Fragment, Error>>,
        fields_modified: Vec<u32>,
        mem_wal_to_flush: Option<MemWal>,
    },
    Project { schema: Vec<Field> },
    UpdateConfig {
        upsert_values: StringMap,
        delete_keys: Vec<String>,
        schema_metadata: StringMap,
        field_metadata: FieldMetadata,
    },
    UpdateMemWalState { added: Vec<MemWal>, updated: Vec<MemWal>, removed: Vec<MemWal> },
}

/// An operation on the dataset of large binary values, in a message.
#[derive(Debug)]
pub enum BlobOperationMessage {
    BlobAppend { fragments: Vec<Result<Fragment, Error>> },
    BlobOverwrite {
        fragments: Vec<Result<Fragment, Error>>,
        schema: Vec<Field>,
        schema_metadata: StringMap,
        config_upsert_values: StringMap,
    },
}

/// A transaction, as a message.
#[derive(Debug)]
pub struct TransactionMessage {
    pub read_version: u64,
    pub uuid: String,
    pub operation: Option<OperationMessage>,
    pub blob_operation: Option<BlobOperationMessage>,
    pub tag: String,
}

/// The results of decoding, as mathematical values.
pub open spec fn decoded<T: View>(s: Seq<Result<T, Error>>) -> Seq<Result<T::V, ErrorModel>> {
    Seq::new(s.len(), |i: int| outcome(s[i]))
}

/// The result of decoding something that may be absent, as a mathematical value.
pub open spec fn opt_decoded<T: View>(o: Option<Result<T, Error>>) -> Option<
    Result<T::V, ErrorModel>,
> {
    match o {
        Some(r) => Some(outcome(r)),
        None => None,
    }
}

/// A rewrite group in a message, as a mathematical value.
pub struct RewriteGroupMessageModel {
    pub old_fragments: Seq<Result<FragmentModel, ErrorModel>>,
    pub new_fragments: Seq<Result<FragmentModel, ErrorModel>>,
}

/// A rewritten index in a message, as a mathematical value.
pub struct RewrittenIndexMessageModel {
    pub old_id: Option<Result<Uuid, ErrorModel>>,
    pub new_id: Option<Result<Uuid, ErrorModel>>,
}

/// A replaced data file in a message, as a mathematical value.
pub struct DataReplacementMessageModel {
    pub fragment_id: u64,
    pub new_file: Option<Result<DataFileModel, ErrorModel>>,
}

/// An operation in a message, as a mathematical value.
pub enum OperationMessageModel {
    Append { fragments: Seq<Result<FragmentModel, ErrorModel>> },
    Delete {
        updated_fragments: Seq<Result<FragmentModel, ErrorModel>>,
        deleted_fragment_ids: Seq<u64>,
        predicate: Seq<char>,
    },
    Overwrite {
        fragments: Seq<Result<FragmentModel, ErrorModel>>,
        schema: Seq<FieldModel>,
        schema_metadata: Map<Seq<char>, Seq<char>>,
        config_upsert_values: Map<Seq<char>, Seq<char>>,
    },
    CreateIndex {
        new_indices: Seq<Result<IndexModel, ErrorModel>>,
        removed_indices: Seq<Result<IndexModel, ErrorModel>>,
    },
    Rewrite {
        old_fragments: Seq<Result<FragmentModel, ErrorModel>>,
        new_fragments: Seq<Result<FragmentModel, ErrorModel>>,
        groups: Seq<RewriteGroupMessageModel>,
        rewritten_indices: Seq<RewrittenIndexMessageModel>,
    },
    DataReplacement { replacements: Seq<DataReplacementMessageModel> },
    Merge {
        fragments: Seq<Result<FragmentModel, ErrorModel>>,
        schema: Seq<FieldModel>,
        schema_metadata: Map<Seq<char>, Seq<char>>,
    },
    Restore { version: u64 },
    ReserveFragments { num_fragments: u32 },
    Update {
        removed_fragment_ids: Seq<u64>,
        updated_fragments: Seq<Result<FragmentModel, ErrorModel>>,
        new_fragments: Seq<Result<FragmentModel, ErrorModel>>,
        fields_modified: Seq<u32>,
        mem_wal_to_flush: Option<MemWalModel>,
    },
    Project { schema: Seq<FieldModel> },
    UpdateConfig {
        upsert_values: Map<Seq<char>, Seq<char>>,
        delete_keys: Seq<Seq<char>>,
        schema_metadata: Map<Seq<char>, Seq<char>>,
        field_metadata: Map<u32, Map<Seq<char>, Seq<char>>>,
    },
    UpdateMemWalState {
        added: Seq<MemWalModel>,
        updated: Seq<MemWalModel>,
        removed: Seq<MemWalModel>,
    },
}

/// An operation on large binary values in a message, as a mathematical value.
pub enum BlobOperationMessageModel {
    BlobAppend { fragments: Seq<Result<FragmentModel, ErrorModel>> },
    BlobOverwrite {
        fragments: Seq<Result<FragmentModel, ErrorModel>>,
        schema: Seq<FieldModel>,
        schema_metadata: Map<Seq<char>, Seq<char>>,
        config_upsert_values: Map<Seq<char>, Seq<char>>,
    },
}

/// A message as a mathematical value.
pub struct MessageModel {
    pub read_version: u64,
    pub uuid: Seq<char>,
    pub operation: Option<OperationMessageModel>,
    pub blob_operation: Option<BlobOperationMessageModel>,
    pub tag: Seq<char>,
}

impl View for RewriteGroupMessage {
    type V = RewriteGroupMessageModel;

    open spec fn view(&self) -> RewriteGroupMessageModel {
        RewriteGroupMessageModel {
            old_fragments: decoded(self.old_fragments@),
            new_fragments: decoded(self.new_fragments@),
        }
    }
}

impl View for RewrittenIndexMessage {
    type V = RewrittenIndexMessageModel;

    open spec fn view(&self) -> RewrittenIndexMessageModel {
        RewrittenIndexMessageModel {
            old_id: opt_decoded(self.old_id),
            new_id: opt_decoded(self.new_id),
        }
    }
}

impl View for DataReplacementMessage {
    type V = DataReplacementMessageModel;

    open spec fn view(&self) -> DataReplacementMessageModel {
        DataReplacementMessageModel {
            fragment_id: self.fragment_id,
            new_file: opt_decoded(self.new_file),
        }
    }
}

impl View for OperationMessage {
    type V = OperationMessageModel;

    open spec fn view(&self) -> OperationMessageModel {
        match self {
            OperationMessage::Append { fragments } => OperationMessageModel::Append {
                fragments: decoded(fragments@),
            },
            OperationMessage::Delete { updated_fragments, deleted_fragment_ids, predicate } => {
                OperationMessageModel::Delete {
                    updated_fragments: decoded(updated_fragments@),
                    deleted_fragment_ids: views(deleted_fragment_ids@),
                    predicate: predicate@,
                }
            },
            OperationMessage::Overwrite {
                fragments,
                schema,
                schema_metadata,
                config_upsert_values,
            } => {
                OperationMessageModel::Overwrite {
                    fragments: decoded(fragments@),
                    schema: views(schema@),
                    schema_metadata: schema_metadata@,
                    config_upsert_values: config_upsert_values@,
                }
            },
            OperationMessage::CreateIndex { new_indices, removed_indices } => {
                OperationMessageModel::CreateIndex {
                    new_indices: decoded(new_indices@),
                    removed_indices: decoded(removed_indices@),
                }
            },
            OperationMessage::Rewrite {
                old_fragments,
                new_fragments,
                groups,
                rewritten_indices,
            } => OperationMessageModel::Rewrite {
                old_fragments: decoded(old_fragments@),
                new_fragments: decoded(new_fragments@),
                groups: views(groups@),
                rewritten_indices: views(rewritten_indices@),
            },
            OperationMessage::DataReplacement { replacements } => {
                OperationMessageModel::DataReplacement { replacements: views(replacements@) }
            },
            OperationMessage::Merge { fragments, schema, schema_metadata } => {
                OperationMessageModel::Merge {
                    fragments: decoded(fragments@),
                    schema: views(schema@),
                    schema_metadata: schema_metadata@,
                }
            },
            OperationMessage::Restore { version } => OperationMessageModel::Restore {
                version: *version,
            },
            OperationMessage::ReserveFragments { num_fragments } => {
                OperationMessageModel::ReserveFragments { num_fragments: *num_fragments }
            },
            OperationMessage::Update {
                removed_fragment_ids,
                updated_fragments,
                new_fragments,
                fields_modified,
                mem_wal_to_flush,
            } => OperationMessageModel::Update {
                removed_fragment_ids: views(removed_fragment_ids@),
                updated_fragments: decoded(updated_fragments@),
                new_fragments: decoded(new_fragments@),
                fields_modified: views(fields_modified@),
                mem_wal_to_flush: opt_view(*mem_wal_to_flush),
            },
            OperationMessage::Project { schema } => OperationMessageModel::Project {
                schema: views(schema@),
            },
            OperationMessage::UpdateConfig {
                upsert_values,
                delete_keys,
                schema_metadata,
                field_metadata,
            } => OperationMessageModel::UpdateConfig {
                upsert_values: upsert_values@,
                delete_keys: views(delete_keys@),
                schema_metadata: schema_metadata@,
                field_metadata: field_metadata@,
            },
            OperationMessage::UpdateMemWalState { added, updated, removed } => {
                OperationMessageModel::UpdateMemWalState {
                    added: views(added@),
                    updated: views(updated@),
                    removed: views(removed@),
                }
            },
        }
    }
}

impl View for BlobOperationMessage {
    type V = BlobOperationMessageModel;

    open spec fn view(&self) -> BlobOperationMessageModel {
        match self {
            BlobOperationMessage::BlobAppend { fragments } => {
                BlobOperationMessageModel::BlobAppend { fragments: decoded(fragments@) }
            },
            BlobOperationMessage::BlobOverwrite {
                fragments,
                schema,
                schema_metadata,
                config_upsert_values,
            } => {
                BlobOperationMessageModel::BlobOverwrite {
                    fragments: decoded(fragments@),
                    schema: views(schema@),
                    schema_metadata: schema_metadata@,
                    config_upsert_values: config_upsert_values@,
                }
            },
        }
    }
}

impl View for TransactionMessage {
    type V = MessageModel;

    open spec fn view(&self) -> MessageModel {
        MessageModel {
            read_version: self.read_version,
            uuid: self.uuid@,
            operation: opt_view(self.operation),
            blob_operation: opt_view(self.blob_operation),
            tag: self.tag@,
        }
    }
}

// Reading.

/// The values of results; the first error, if there is one.
pub open spec fn all_ok<V>(s: Seq<Result<V, ErrorModel>>) -> Result<Seq<V>, ErrorModel>
    decreases s.len(),
{
    if s.len() == 0 {
        Ok(Seq::empty())
    } else {
        match s[0] {
            Err(e) => Err(e),
            Ok(v) => match all_ok(s.drop_first()) {
                Err(e) => Err(e),
                Ok(rest) => Ok(seq![v] + rest),
            },
        }
    }
}

fn collect<T: Item>(results: &Vec<Result<T, Error>>) -> (r: Result<Vec<T>, Error>)
    ensures
        match r {
            Ok(v) => all_ok(decoded(results@)) == Ok::<Seq<T::V>, ErrorModel>(views(v@)),
            Err(e) => all_ok(decoded(results@)) == Err::<Seq<T::V>, ErrorModel>(e@),
        },
{
    let ghost all = decoded(results@);
    let ghost whole = all_ok(all);
    let mut out: Vec<T> = Vec::new();
    let mut i: usize = 0;
    proof {
        lemma_skip_ends(all);
        assert(views(out@) =~= Seq::<T::V>::empty());
        lemma_prepend_nothing(whole);
    }
    while i < results.len()
        invariant
            i <= results@.len(),
            all == decoded(results@),
            whole == all_ok(all),
            whole == prepend(views(out@), all_ok(all.skip(i as int))),
        decreases results@.len() - i,
    {
        proof {
            lemma_skip_step(all, i as int);
            assert(all[i as int] == outcome(results@[i as int]));
        }
        match &results[i] {
            Ok(x) => {
                let copy = x.copied();
                proof {
                    lemma_views_push(out@, copy);
                    lemma_prepend_push(views(out@), copy@, all_ok(all.skip(i + 1)));
                }
                out.push(copy);
            },
            Err(e) => {
                return Err(e.clone());
            },
        }
        i += 1;
    }
    proof {
        lemma_skip_ends(all);
        assert(views(out@) + Seq::<T::V>::empty() =~= views(out@));
    }
    Ok(out)
}

/// The rewrite group of a message.
pub open spec fn decode_group(m: RewriteGroupMessageModel) -> Result<
    RewriteGroupModel,
    ErrorModel,
> {
    match all_ok(m.old_fragments) {
        Err(e) => Err(e),
        Ok(old_fragments) => match all_ok(m.new_fragments) {
            Err(e) => Err(e),
            Ok(new_fragments) => Ok(RewriteGroupModel { old_fragments, new_fragments }),
        },
    }
}

/// A required id of a message.
pub open spec fn required_id(id: Option<Result<Uuid, ErrorModel>>, missing: Seq<char>) -> Result<
    Uuid,
    ErrorModel,
> {
    match id {
        None => Err(ErrorModel::Io { source: missing }),
        Some(r) => r,
    }
}

/// The rewritten index of a message.
pub open spec fn decode_rewritten(m: RewrittenIndexMessageModel) -> Result<
    RewrittenIndex,
    ErrorModel,
> {
    match required_id(m.old_id, "required field (old_id) missing from message"@) {
        Err(e) => Err(e),
        Ok(old_id) => match required_id(
            m.new_id,
            "required field (new_id) missing from message"@,
        ) {
            Err(e) => Err(e),
            Ok(new_id) => Ok(RewrittenIndex { old_id, new_id }),
        },
    }
}

/// The replaced data file of a message.
pub open spec fn decode_replacement(m: DataReplacementMessageModel) -> Result<
    (u64, DataFileModel),
    ErrorModel,
> {
    match m.new_file {
        None => Err(
            ErrorModel::InvalidInput { source: "DataReplacementGroup must have a new_file"@ },
        ),
        Some(Err(e)) => Err(e),
        Some(Ok(file)) => Ok((m.fragment_id, file)),
    }
}

/// The rewrite groups of messages; the first error, if there is one.
pub open spec fn decode_groups(ms: Seq<RewriteGroupMessageModel>) -> Result<
    Seq<RewriteGroupModel>,
    ErrorModel,
> {
    all_ok(Seq::new(ms.len(), |i: int| decode_group(ms[i])))
}

/// The rewritten indices of messages; the first error, if there is one.
pub open spec fn decode_all_rewritten(ms: Seq<RewrittenIndexMessageModel>) -> Result<
    Seq<RewrittenIndex>,
    ErrorModel,
> {
    all_ok(Seq::new(ms.len(), |i: int| decode_rewritten(ms[i])))
}

/// The replaced data files of messages; the first error, if there is one.
pub open spec fn decode_replacements(ms: Seq<DataReplacementMessageModel>) -> Result<
    Seq<(u64, DataFileModel)>,
    ErrorModel,
> {
    all_ok(Seq::new(ms.len(), |i: int| decode_replacement(ms[i])))
}

/// The schema of the fields of a message.
pub open spec fn schema_of(fields: Seq<FieldModel>) -> SchemaModel {
    SchemaModel { fields, metadata: Map::empty() }
}

/// The overwrite of a message.
pub open spec fn decode_overwrite(
    fragments: Seq<Result<FragmentModel, ErrorModel>>,
    schema: Seq<FieldModel>,
    config_upsert_values: Map<Seq<char>, Seq<char>>,
) -> Result<OperationModel, ErrorModel> {
    match all_ok(fragments) {
        Err(e) => Err(e),
        Ok(fragments) => Ok(
            OperationModel::Overwrite {
                fragments,
                schema: schema_of(schema),
                config_upsert_values: if_any(config_upsert_values),
            },
        ),
    }
}

/// The operation of a message.
pub open spec fn decode_operation(m: OperationMessageModel) -> Result<OperationModel, ErrorModel> {
    match m {
        OperationMessageModel::Append { fragments } => match all_ok(fragments) {
            Err(e) => Err(e),
            Ok(fragments) => Ok(OperationModel::Append { fragments }),
        },
        OperationMessageModel::Delete { updated_fragments, deleted_fragment_ids, predicate } => {
            match all_ok(updated_fragments) {
                Err(e) => Err(e),
                Ok(updated_fragments) => Ok(
                    OperationModel::Delete { updated_fragments, deleted_fragment_ids, predicate },
                ),
            }
        },
        OperationMessageModel::Overwrite { fragments, schema, config_upsert_values, .. } => {
            decode_overwrite(fragments, schema, config_upsert_values)
        },
        OperationMessageModel::CreateIndex { new_indices, removed_indices } => match all_ok(
            new_indices,
        ) {
            Err(e) => Err(e),
            Ok(new_indices) => match all_ok(removed_indices) {
                Err(e) => Err(e),
                Ok(removed_indices) => Ok(
                    OperationModel::CreateIndex { new_indices, removed_indices },
                ),
            },
        },
        OperationMessageModel::Rewrite {
            old_fragments,
            new_fragments,
            groups,
            rewritten_indices,
        } => {
            let groups = if groups.len() > 0 {
                decode_groups(groups)
            } else {
                match decode_group(RewriteGroupMessageModel { old_fragments, new_fragments }) {
                    Err(e) => Err(e),
                    Ok(group) => Ok(seq![group]),
                }
            };
            match groups {
                Err(e) => Err(e),
                Ok(groups) => match decode_all_rewritten(rewritten_indices) {
                    Err(e) => Err(e),
                    Ok(rewritten_indices) => Ok(
                        OperationModel::Rewrite {
                            groups,
                            rewritten_indices,
                            frag_reuse_index: None,
                        },
                    ),
                },
            }
        },
        OperationMessageModel::DataReplacement { replacements } => match decode_replacements(
            replacements,
        ) {
            Err(e) => Err(e),
            Ok(replacements) => Ok(OperationModel::DataReplacement { replacements }),
        },
        OperationMessageModel::Merge { fragments, schema, .. } => match all_ok(fragments) {
            Err(e) => Err(e),
            Ok(fragments) => Ok(OperationModel::Merge { fragments, schema: schema_of(schema) }),
        },
        OperationMessageModel::Restore { version } => Ok(OperationModel::Restore { version }),
        OperationMessageModel::ReserveFragments { num_fragments } => Ok(
            OperationModel::ReserveFragments { num_fragments },
        ),
        OperationMessageModel::Update {
            removed_fragment_ids,
            updated_fragments,
            new_fragments,
            fields_modified,
            mem_wal_to_flush,
        } => match all_ok(updated_fragments) {
            Err(e) => Err(e),
            Ok(updated_fragments) => match all_ok(new_fragments) {
                Err(e) => Err(e),
                Ok(new_fragments) => Ok(
                    OperationModel::Update {
                        removed_fragment_ids,
                        updated_fragments,
                        new_fragments,
                        fields_modified,
                        mem_wal_to_flush,
                    },
                ),
            },
        },
        OperationMessageModel::Project { schema } => Ok(
            OperationModel::Project { schema: schema_of(schema) },
        ),
        OperationMessageModel::UpdateConfig {
            upsert_values,
            delete_keys,
            schema_metadata,
            field_metadata,
        } => Ok(
            OperationModel::UpdateConfig {
                upsert_values: if_any(upsert_values),
                delete_keys: if delete_keys.len() == 0 {
                    None
                } else {
                    Some(delete_keys)
                },
                schema_metadata: if_any(schema_metadata),
                field_metadata: if_any(field_metadata),
            },
        ),
        OperationMessageModel::UpdateMemWalState { added, updated, removed } => Ok(
            OperationModel::UpdateMemWalState { added, updated, removed },
        ),
    }
}

/// A map, if it has entries.
pub open spec fn if_any<K, V>(m: Map<K, V>) -> Option<Map<K, V>> {
    if m == Map::<K, V>::empty() {
        None
    } else {
        Some(m)
    }
}

/// The operation on large binary values of a message.
pub open spec fn decode_blob(m: BlobOperationMessageModel) -> Result<OperationModel, ErrorModel> {
    match m {
        BlobOperationMessageModel::BlobAppend { fragments } => match all_ok(fragments) {
            Err(e) => Err(e),
            Ok(fragments) => Ok(OperationModel::Append { fragments }),
        },
        BlobOperationMessageModel::BlobOverwrite {
            fragments,
            schema,
            config_upsert_values,
            ..
        } => {
            decode_overwrite(fragments, schema, config_upsert_values)
        },
    }
}

/// The transaction of a message.
pub open spec fn decode(m: MessageModel) -> Result<TransactionModel, ErrorModel> {
    match m.operation {
        None => Err(
            ErrorModel::Internal { message: "Transaction message did not contain an operation"@ },
        ),
        Some(op) => match decode_operation(op) {
            Err(e) => Err(e),
            Ok(operation) => {
                let blobs_op = match m.blob_operation {
                    None => Ok(None),
                    Some(blob) => match decode_blob(blob) {
                        Err(e) => Err(e),
                        Ok(op) => Ok(Some(op)),
                    },
                };
                match blobs_op {
                    Err(e) => Err(e),
                    Ok(blobs_op) => Ok(
                        TransactionModel {
                            read_version: m.read_version,
                            uuid: m.uuid,
                            operation,
                            blobs_op,
                            tag: if m.tag.len() == 0 {
                                None
                            } else {
                                Some(m.tag)
                            },
                        },
                    ),
                }
            },
        },
    }
}

impl RewriteGroup {
    /// The rewrite group of a message.
    pub fn try_from(message: &RewriteGroupMessage) -> (r: Result<RewriteGroup, Error>)
        ensures
            outcome(r) == decode_group(message@),
    {
        match collect(&message.old_fragments) {
            Err(e) => Err(e),
            Ok(old_fragments) => match collect(&message.new_fragments) {
                Err(e) => Err(e),
                Ok(new_fragments) => Ok(RewriteGroup { old_fragments, new_fragments }),
            },
        }
    }
}

fn require_id(id: &Option<Result<Uuid, Error>>, missing: &str) -> (r: Result<Uuid, Error>)
    ensures
        outcome(r) == required_id(opt_decoded(*id), missing@),
{
    match id {
        None => Err(Error::Io { source: missing.to_owned() }),
        Some(Ok(id)) => Ok(*id),
        Some(Err(e)) => Err(e.clone()),
    }
}

impl RewrittenIndex {
    /// The rewritten index of a message.
    pub fn try_from(message: &RewrittenIndexMessage) -> (r: Result<RewrittenIndex, Error>)
        ensures
            outcome(r) == decode_rewritten(message@),
    {
        match require_id(&message.old_id, "required field (old_id) missing from message") {
            Err(e) => Err(e),
            Ok(old_id) => match require_id(
                &message.new_id,
                "required field (new_id) missing from message",
            ) {
                Err(e) => Err(e),
                Ok(new_id) => Ok(RewrittenIndex { old_id, new_id }),
            },
        }
    }
}

impl DataReplacementGroup {
    /// The replaced data file of a message.
    pub fn try_from(message: &DataReplacementMessage) -> (r: Result<DataReplacementGroup, Error>)
        ensures
            outcome(r) == decode_replacement(message@),
    {
        match &message.new_file {
            None => Err(
                Error::InvalidInput {
                    source: "DataReplacementGroup must have a new_file".to_owned(),
                },
            ),
            Some(Err(e)) => Err(e.clone()),
            Some(Ok(file)) => Ok(DataReplacementGroup(message.fragment_id, file.copied())),
        }
    }
}

fn collect_groups(messages: &Vec<RewriteGroupMessage>) -> (r: Result<Vec<RewriteGroup>, Error>)
    ensures
        match r {
            Ok(v) => decode_groups(views(messages@)) == Ok::<_, ErrorModel>(views(v@)),
            Err(e) => decode_groups(views(messages@)) == Err::<Seq<RewriteGroupModel>, _>(e@),
        },
{
    let ghost ms = views(messages@);
    let ghost all = Seq::new(ms.len(), |i: int| decode_group(ms[i]));
    let ghost whole = all_ok(all);
    let mut out: Vec<RewriteGroup> = Vec::new();
    let mut i: usize = 0;
    proof {
        lemma_skip_ends(all);
        assert(views(out@) =~= Seq::<RewriteGroupModel>::empty());
        lemma_prepend_nothing(whole);
    }
    while i < messages.len()
        invariant
            i <= messages@.len(),
            ms == views(messages@),
            all == Seq::new(ms.len(), |i: int| decode_group(ms[i])),
            whole == all_ok(all),
            whole == decode_groups(ms),
            whole == prepend(views(out@), all_ok(all.skip(i as int))),
        decreases messages@.len() - i,
    {
        proof {
            lemma_skip_step(all, i as int);
            assert(all[i as int] == decode_group(messages@[i as int]@));
        }
        match RewriteGroup::try_from(&messages[i]) {
            Ok(x) => {
                proof {
                    lemma_views_push(out@, x);
                    lemma_prepend_push(views(out@), x@, all_ok(all.skip(i + 1)));
                }
                out.push(x);
            },
            Err(e) => {
                return Err(e);
            },
        }
        i += 1;
    }
    proof {
        lemma_skip_ends(all);
        assert(views(out@) + Seq::<RewriteGroupModel>::empty() =~= views(out@));
    }
    Ok(out)
}

fn collect_rewritten(messages: &Vec<RewrittenIndexMessage>) -> (r: Result<
    Vec<RewrittenIndex>,
    Error,
>)
    ensures
        match r {
            Ok(v) => decode_all_rewritten(views(messages@)) == Ok::<_, ErrorModel>(views(v@)),
            Err(e) => decode_all_rewritten(views(messages@)) == Err::<Seq<RewrittenIndex>, _>(e@),
        },
{
    let ghost ms = views(messages@);
    let ghost all = Seq::new(ms.len(), |i: int| decode_rewritten(ms[i]));
    let ghost whole = all_ok(all);
    let mut out: Vec<RewrittenIndex> = Vec::new();
    let mut i: usize = 0;
    proof {
        lemma_skip_ends(all);
        assert(views(out@) =~= Seq::<RewrittenIndex>::empty());
        lemma_prepend_nothing(whole);
    }
    while i < messages.len()
        invariant
            i <= messages@.len(),
            ms == views(messages@),
            all == Seq::new(ms.len(), |i: int| decode_rewritten(ms[i])),
            whole == all_ok(all),
            whole == decode_all_rewritten(ms),
            whole == prepend(views(out@), all_ok(all.skip(i as int))),
        decreases messages@.len() - i,
    {
        proof {
            lemma_skip_step(all, i as int);
            assert(all[i as int] == decode_rewritten(messages@[i as int]@));
        }
        match RewrittenIndex::try_from(&messages[i]) {
            Ok(x) => {
                proof {
                    lemma_views_push(out@, x);
                    lemma_prepend_push(views(out@), x@, all_ok(all.skip(i + 1)));
                }
                out.push(x);
            },
            Err(e) => {
                return Err(e);
            },
        }
        i += 1;
    }
    proof {
        lemma_skip_ends(all);
        assert(views(out@) + Seq::<RewrittenIndex>::empty() =~= views(out@));
    }
    Ok(out)
}

fn collect_replacements(messages: &Vec<DataReplacementMessage>) -> (r: Result<
    Vec<DataReplacementGroup>,
    Error,
>)
    ensures
        match r {
            Ok(v) => decode_replacements(views(messages@)) == Ok::<_, ErrorModel>(views(v@)),
            Err(e) => decode_replacements(views(messages@)) == Err::<
                Seq<(u64, DataFileModel)>,
                _,
            >(e@),
        },
{
    let ghost ms = views(messages@);
    let ghost all = Seq::new(ms.len(), |i: int| decode_replacement(ms[i]));
    let ghost whole = all_ok(all);
    let mut out: Vec<DataReplacementGroup> = Vec::new();
    let mut i: usize = 0;
    proof {
        lemma_skip_ends(all);
        assert(views(out@) =~= Seq::<(u64, DataFileModel)>::empty());
        lemma_prepend_nothing(whole);
    }
    while i < messages.len()
        invariant
            i <= messages@.len(),
            ms == views(messages@),
            all == Seq::new(ms.len(), |i: int| decode_replacement(ms[i])),
            whole == all_ok(all),
            whole == decode_replacements(ms),
            whole == prepend(views(out@), all_ok(all.skip(i as int))),
        decreases messages@.len() - i,
    {
        proof {
            lemma_skip_step(all, i as int);
            assert(all[i as int] == decode_replacement(messages@[i as int]@));
        }
        match DataReplacementGroup::try_from(&messages[i]) {
            Ok(x) => {
                proof {
                    lemma_views_push(out@, x);
                    lemma_prepend_push(views(out@), x@, all_ok(all.skip(i + 1)));
                }
                out.push(x);
            },
            Err(e) => {
                return Err(e);
            },
        }
        i += 1;
    }
    proof {
        lemma_skip_ends(all);
        assert(views(out@) + Seq::<(u64, DataFileModel)>::empty() =~= views(out@));
    }
    Ok(out)
}

fn read_overwrite(
    fragments: &Vec<Result<Fragment, Error>>,
    schema: &Vec<Field>,
    config_upsert_values: &StringMap,
) -> (r: Result<Operation, Error>)
    ensures
        outcome(r) == decode_overwrite(
            decoded(fragments@),
            views(schema@),
            config_upsert_values@,
        ),
{
    let config = read_map(config_upsert_values);
    match collect(fragments) {
        Err(e) => Err(e),
        Ok(fragments) => Ok(
            Operation::Overwrite {
                fragments,
                schema: Schema { fields: clone_fields(schema), metadata: StringMap::new() },
                config_upsert_values: config,
            },
        ),
    }
}

fn read_map(m: &StringMap) -> (r: Option<StringMap>)
    ensures
        opt_view(r) == if_any(m@),
{
    if m.is_empty() {
        None
    } else {
        Some(m.clone())
    }
}

impl Operation {
    /// The operation of a message.
    pub fn try_from(message: &OperationMessage) -> (r: Result<Operation, Error>)
        ensures
            outcome(r) == decode_operation(message@),
    {
        match message {
            OperationMessage::Append { fragments } => match collect(fragments) {
                Err(e) => Err(e),
                Ok(fragments) => Ok(Operation::Append { fragments }),
            },
            OperationMessage::Delete { updated_fragments, deleted_fragment_ids, predicate } => {
                match collect(updated_fragments) {
                    Err(e) => Err(e),
                    Ok(updated_fragments) => Ok(
                        Operation::Delete {
                            updated_fragments,
                            deleted_fragment_ids: copy_all(deleted_fragment_ids),
                            predicate: predicate.clone(),
                        },
                    ),
                }
            },
            OperationMessage::Overwrite { fragments, schema, config_upsert_values, .. } => {
                read_overwrite(fragments, schema, config_upsert_values)
            },
            OperationMessage::CreateIndex { new_indices, removed_indices } => {
                match collect(new_indices) {
                    Err(e) => Err(e),
                    Ok(new_indices) => match collect(removed_indices) {
                        Err(e) => Err(e),
                        Ok(removed_indices) => Ok(
                            Operation::CreateIndex { new_indices, removed_indices },
                        ),
                    },
                }
            },
            OperationMessage::Rewrite {
                old_fragments,
                new_fragments,
                groups,
                rewritten_indices,
            } => {
                let groups = if groups.len() > 0 {
                    match collect_groups(groups) {
                        Err(e) => {
                            return Err(e);
                        },
                        Ok(groups) => groups,
                    }
                } else {
                    let old_fragments = match collect(old_fragments) {
                        Err(e) => {
                            return Err(e);
                        },
                        Ok(v) => v,
                    };
                    let new_fragments = match collect(new_fragments) {
                        Err(e) => {
                            return Err(e);
                        },
                        Ok(v) => v,
                    };
                    let mut one: Vec<RewriteGroup> = Vec::new();
                    one.push(RewriteGroup { old_fragments, new_fragments });
                    assert(views(one@) =~= seq![one@[0]@]);
                    one
                };
                match collect_rewritten(rewritten_indices) {
                    Err(e) => Err(e),
                    Ok(rewritten_indices) => Ok(
                        Operation::Rewrite { groups, rewritten_indices, frag_reuse_index: None },
                    ),
                }
            },
            OperationMessage::DataReplacement { replacements } => {
                match collect_replacements(replacements) {
                    Err(e) => Err(e),
                    Ok(replacements) => Ok(Operation::DataReplacement { replacements }),
                }
            },
            OperationMessage::Merge { fragments, schema, .. } => match collect(fragments) {
                Err(e) => Err(e),
                Ok(fragments) => Ok(
                    Operation::Merge {
                        fragments,
                        schema: Schema { fields: clone_fields(schema), metadata: StringMap::new() },
                    },
                ),
            },
            OperationMessage::Restore { version } => Ok(Operation::Restore { version: *version }),
            OperationMessage::ReserveFragments { num_fragments } => Ok(
                Operation::ReserveFragments { num_fragments: *num_fragments },
            ),
            OperationMessage::Update {
                removed_fragment_ids,
                updated_fragments,
                new_fragments,
                fields_modified,
                mem_wal_to_flush,
            } => match collect(updated_fragments) {
                Err(e) => Err(e),
                Ok(updated_fragments) => match collect(new_fragments) {
                    Err(e) => Err(e),
                    Ok(new_fragments) => Ok(
                        Operation::Update {
                            removed_fragment_ids: copy_all(removed_fragment_ids),
                            updated_fragments,
                            new_fragments,
                            fields_modified: copy_all(fields_modified),
                            mem_wal_to_flush: copy_opt(mem_wal_to_flush),
                        },
                    ),
                },
            },
            OperationMessage::Project { schema } => Ok(
                Operation::Project {
                    schema: Schema { fields: clone_fields(schema), metadata: StringMap::new() },
                },
            ),
            OperationMessage::UpdateConfig {
                upsert_values,
                delete_keys,
                schema_metadata,
                field_metadata,
            } => Ok(
                Operation::UpdateConfig {
                    upsert_values: read_map(upsert_values),
                    delete_keys: if delete_keys.len() == 0 {
                        None
                    } else {
                        Some(copy_all(delete_keys))
                    },
                    schema_metadata: read_map(schema_metadata),
                    field_metadata: if field_metadata.is_empty() {
                        None
                    } else {
                        Some(field_metadata.clone())
                    },
                },
            ),
            OperationMessage::UpdateMemWalState { added, updated, removed } => Ok(
                Operation::UpdateMemWalState {
                    added: copy_all(added),
                    updated: copy_all(updated),
                    removed: copy_all(removed),
                },
            ),
        }
    }
}

impl Transaction {
    /// The transaction of a message.
    pub fn try_from(message: &TransactionMessage) -> (r: Result<Transaction, Error>)
        ensures
            outcome(r) == decode(message@),
    {
        let operation = match &message.operation {
            None => {
                return Err(
                    Error::Internal {
                        message: "Transaction message did not contain an operation".to_owned(),
                    },
                );
            },
            Some(op) => match Operation::try_from(op) {
                Err(e) => {
                    return Err(e);
                },
                Ok(op) => op,
            },
        };
        let blobs_op = match &message.blob_operation {
            None => None,
            Some(BlobOperationMessage::BlobAppend { fragments }) => match collect(fragments) {
                Err(e) => {
                    return Err(e);
                },
                Ok(fragments) => Some(Operation::Append { fragments }),
            },
            Some(
                BlobOperationMessage::BlobOverwrite { fragments, schema, config_upsert_values, .. },
            ) => match read_overwrite(fragments, schema, config_upsert_values) {
                Err(e) => {
                    return Err(e);
                },
                Ok(op) => Some(op),
            },
        };
        proof {
            reveal_strlit("");
        }
        let untagged = same_text(message.tag.as_str(), "");
        assert(untagged <==> message.tag@.len() == 0) by {
            if message.tag@.len() == 0 {
                assert(message.tag@ =~= ""@);
            }
        }
        Ok(
            Transaction {
                read_version: message.read_version,
                uuid: message.uuid.clone(),
                operation,
                blobs_op,
                tag: if untagged {
                    None
                } else {
                    Some(message.tag.clone())
                },
            },
        )
    }
}

// Writing.

/// Values as results of decoding.
pub open spec fn as_ok<V>(s: Seq<V>) -> Seq<Result<V, ErrorModel>> {
    Seq::new(s.len(), |i: int| Ok(s[i]))
}

/// The message of a rewrite group.
pub open spec fn encode_group(g: RewriteGroupModel) -> RewriteGroupMessageModel {
    RewriteGroupMessageModel {
        old_fragments: as_ok(g.old_fragments),
        new_fragments: as_ok(g.new_fragments),
    }
}

/// The message of a rewritten index.
pub open spec fn encode_rewritten(i: RewrittenIndex) -> RewrittenIndexMessageModel {
    RewrittenIndexMessageModel { old_id: Some(Ok(i.old_id)), new_id: Some(Ok(i.new_id)) }
}

/// The message of a replaced data file.
pub open spec fn encode_replacement(r: (u64, DataFileModel)) -> DataReplacementMessageModel {
    DataReplacementMessageModel { fragment_id: r.0, new_file: Some(Ok(r.1)) }
}

/// A map that may be absent, which is written as an empty one.
pub open spec fn or_empty<K, V>(m: Option<Map<K, V>>) -> Map<K, V> {
    match m {
        Some(m) => m,
        None => Map::empty(),
    }
}

/// The message of an operation.
pub open spec fn encode_operation(op: OperationModel) -> OperationMessageModel {
    match op {
        OperationModel::Append { fragments } => OperationMessageModel::Append {
            fragments: as_ok(fragments),
        },
        OperationModel::Delete { updated_fragments, deleted_fragment_ids, predicate } => {
            OperationMessageModel::Delete {
                updated_fragments: as_ok(updated_fragments),
                deleted_fragment_ids,
                predicate,
            }
        },
        OperationModel::Overwrite { fragments, schema, config_upsert_values } => {
            OperationMessageModel::Overwrite {
                fragments: as_ok(fragments),
                schema: schema.fields,
                schema_metadata: Map::empty(),
                config_upsert_values: or_empty(config_upsert_values),
            }
        },
        OperationModel::CreateIndex { new_indices, removed_indices } => {
            OperationMessageModel::CreateIndex {
                new_indices: as_ok(new_indices),
                removed_indices: as_ok(removed_indices),
            }
        },
        OperationModel::Rewrite { groups, rewritten_indices, .. } => {
            OperationMessageModel::Rewrite {
                old_fragments: Seq::empty(),
                new_fragments: Seq::empty(),
                groups: Seq::new(groups.len(), |i: int| encode_group(groups[i])),
                rewritten_indices: Seq::new(
                    rewritten_indices.len(),
                    |i: int| encode_rewritten(rewritten_indices[i]),
                ),
            }
        },
        OperationModel::DataReplacement { replacements } => {
            OperationMessageModel::DataReplacement {
                replacements: Seq::new(
                    replacements.len(),
                    |i: int| encode_replacement(replacements[i]),
                ),
            }
        },
        OperationModel::Merge { fragments, schema } => OperationMessageModel::Merge {
            fragments: as_ok(fragments),
            schema: schema.fields,
            schema_metadata: Map::empty(),
        },
        OperationModel::Restore { version } => OperationMessageModel::Restore { version },
        OperationModel::ReserveFragments { num_fragments } => {
            OperationMessageModel::ReserveFragments { num_fragments }
        },
        OperationModel::Update {
            removed_fragment_ids,
            updated_fragments,
            new_fragments,
            fields_modified,
            mem_wal_to_flush,
        } => OperationMessageModel::Update {
            removed_fragment_ids,
            updated_fragments: as_ok(updated_fragments),
            new_fragments: as_ok(new_fragments),
            fields_modified,
            mem_wal_to_flush,
        },
        OperationModel::Project { schema } => OperationMessageModel::Project {
            schema: schema.fields,
        },
        OperationModel::UpdateConfig {
            upsert_values,
            delete_keys,
            schema_metadata,
            field_metadata,
        } => OperationMessageModel::UpdateConfig {
            upsert_values: or_empty(upsert_values),
            delete_keys: match delete_keys {
                Some(keys) => keys,
                None => Seq::empty(),
            },
            schema_metadata: or_empty(schema_metadata),
            field_metadata: or_empty(field_metadata),
        },
        OperationModel::UpdateMemWalState { added, updated, removed } => {
            OperationMessageModel::UpdateMemWalState { added, updated, removed }
        },
    }
}

/// Whether an operation can be one on large binary values.
pub open spec fn is_blob_operation(op: OperationModel) -> bool {
    op is Append || op is Overwrite
}

/// The message of an operation on large binary values.
pub open spec fn encode_blob(op: OperationModel) -> BlobOperationMessageModel {
    match op {
        OperationModel::Append { fragments } => BlobOperationMessageModel::BlobAppend {
            fragments: as_ok(fragments),
        },
        OperationModel::Overwrite { fragments, schema, config_upsert_values } => {
            BlobOperationMessageModel::BlobOverwrite {
                fragments: as_ok(fragments),
                schema: schema.fields,
                schema_metadata: Map::empty(),
                config_upsert_values: or_empty(config_upsert_values),
            }
        },
        _ => arbitrary(),
    }
}

/// The message of a transaction.
pub open spec fn encode(t: TransactionModel) -> MessageModel {
    MessageModel {
        read_version: t.read_version,
        uuid: t.uuid,
        operation: Some(encode_operation(t.operation)),
        blob_operation: match t.blobs_op {
            Some(op) => Some(encode_blob(op)),
            None => None,
        },
        tag: match t.tag {
            Some(tag) => tag,
            None => Seq::empty(),
        },
    }
}

fn wrap<T: Item>(items: &Vec<T>) -> (r: Vec<Result<T, Error>>)
    ensures
        decoded(r@) == as_ok(views(items@)),
{
    let mut out: Vec<Result<T, Error>> = Vec::new();
    let mut i: usize = 0;
    while i < items.len()
        invariant
            i <= items@.len(),
            out@.len() == i,
            forall|j: int|
                0 <= j < i ==> outcome(#[trigger] out@[j]) == Ok::<T::V, ErrorModel>(items@[j]@),
        decreases items@.len() - i,
    {
        out.push(Ok(items[i].copied()));
        i += 1;
    }
    assert(decoded(out@) =~= as_ok(views(items@)));
    out
}

impl RewriteGroupMessage {
    /// The message of a rewrite group.
    pub fn from(value: &RewriteGroup) -> (r: RewriteGroupMessage)
        ensures
            r@ == encode_group(value@),
    {
        RewriteGroupMessage {
            old_fragments: wrap(&value.old_fragments),
            new_fragments: wrap(&value.new_fragments),
        }
    }
}

impl RewrittenIndexMessage {
    /// The message of a rewritten index.
    pub fn from(value: &RewrittenIndex) -> (r: RewrittenIndexMessage)
        ensures
            r@ == encode_rewritten(*value),
    {
        RewrittenIndexMessage { old_id: Some(Ok(value.old_id)), new_id: Some(Ok(value.new_id)) }
    }
}

impl DataReplacementMessage {
    /// The message of a replaced data file.
    pub fn from(value: &DataReplacementGroup) -> (r: DataReplacementMessage)
        ensures
            r@ == encode_replacement(value@),
    {
        DataReplacementMessage { fragment_id: value.0, new_file: Some(Ok(value.1.copied())) }
    }
}

fn write_groups(items: &Vec<RewriteGroup>) -> (r: Vec<RewriteGroupMessage>)
    ensures
        views(r@) == Seq::new(views(items@).len(), |i: int| encode_group(views(items@)[i])),
{
    let mut out: Vec<RewriteGroupMessage> = Vec::new();
    let mut i: usize = 0;
    while i < items.len()
        invariant
            i <= items@.len(),
            out@.len() == i,
            forall|j: int| 0 <= j < i ==> (#[trigger] out@[j])@ == encode_group(items@[j]@),
        decreases items@.len() - i,
    {
        out.push(RewriteGroupMessage::from(&items[i]));
        i += 1;
    }
    assert(views(out@) =~= Seq::new(
        views(items@).len(),
        |i: int| encode_group(views(items@)[i]),
    ));
    out
}

fn write_rewritten(items: &Vec<RewrittenIndex>) -> (r: Vec<RewrittenIndexMessage>)
    ensures
        views(r@) == Seq::new(views(items@).len(), |i: int| encode_rewritten(views(items@)[i])),
{
    let mut out: Vec<RewrittenIndexMessage> = Vec::new();
    let mut i: usize = 0;
    while i < items.len()
        invariant
            i <= items@.len(),
            out@.len() == i,
            forall|j: int| 0 <= j < i ==> (#[trigger] out@[j])@ == encode_rewritten(items@[j]@),
        decreases items@.len() - i,
    {
        out.push(RewrittenIndexMessage::from(&items[i]));
        i += 1;
    }
    assert(views(out@) =~= Seq::new(
        views(items@).len(),
        |i: int| encode_rewritten(views(items@)[i]),
    ));
    out
}

fn write_replacements(items: &Vec<DataReplacementGroup>) -> (r: Vec<DataReplacementMessage>)
    ensures
        views(r@) == Seq::new(views(items@).len(), |i: int| encode_replacement(views(items@)[i])),
{
    let mut out: Vec<DataReplacementMessage> = Vec::new();
    let mut i: usize = 0;
    while i < items.len()
        invariant
            i <= items@.len(),
            out@.len() == i,
            forall|j: int| 0 <= j < i ==> (#[trigger] out@[j])@ == encode_replacement(items@[j]@),
        decreases items@.len() - i,
    {
        out.push(DataReplacementMessage::from(&items[i]));
        i += 1;
    }
    assert(views(out@) =~= Seq::new(
        views(items@).len(),
        |i: int| encode_replacement(views(items@)[i]),
    ));
    out
}

fn write_map(m: &Option<StringMap>) -> (r: StringMap)
    ensures
        r@ == or_empty(opt_view(*m)),
{
    match m {
        Some(m) => m.clone(),
        None => StringMap::new(),
    }
}

impl OperationMessage {
    /// The message of an operation.
    pub fn from(value: &Operation) -> (r: OperationMessage)
        ensures
            r@ == encode_operation(value@),
    {
        match value {
            Operation::Append { fragments } => OperationMessage::Append {
                fragments: wrap(fragments),
            },
            Operation::Delete { updated_fragments, deleted_fragment_ids, predicate } => {
                OperationMessage::Delete {
                    updated_fragments: wrap(updated_fragments),
                    deleted_fragment_ids: copy_all(deleted_fragment_ids),
                    predicate: predicate.clone(),
                }
            },
            Operation::Overwrite { fragments, schema, config_upsert_values } => {
                OperationMessage::Overwrite {
                    fragments: wrap(fragments),
                    schema: clone_fields(&schema.fields),
                    schema_metadata: StringMap::new(),
                    config_upsert_values: write_map(config_upsert_values),
                }
            },
            Operation::CreateIndex { new_indices, removed_indices } => {
                OperationMessage::CreateIndex {
                    new_indices: wrap(new_indices),
                    removed_indices: wrap(removed_indices),
                }
            },
            Operation::Rewrite { groups, rewritten_indices, .. } => {
                let old_fragments: Vec<Result<Fragment, Error>> = Vec::new();
                let new_fragments: Vec<Result<Fragment, Error>> = Vec::new();
                assert(decoded(old_fragments@) =~= Seq::empty());
                assert(decoded(new_fragments@) =~= Seq::empty());
                OperationMessage::Rewrite {
                    old_fragments,
                    new_fragments,
                    groups: write_groups(groups),
                    rewritten_indices: write_rewritten(rewritten_indices),
                }
            },
            Operation::DataReplacement { replacements } => OperationMessage::DataReplacement {
                replacements: write_replacements(replacements),
            },
            Operation::Merge { fragments, schema } => OperationMessage::Merge {
                fragments: wrap(fragments),
                schema: clone_fields(&schema.fields),
                schema_metadata: StringMap::new(),
            },
            Operation::Restore { version } => OperationMessage::Restore { version: *version },
            Operation::ReserveFragments { num_fragments } => OperationMessage::ReserveFragments {
                num_fragments: *num_fragments,
            },
            Operation::Update {
                removed_fragment_ids,
                updated_fragments,
                new_fragments,
                fields_modified,
                mem_wal_to_flush,
            } => OperationMessage::Update {
                removed_fragment_ids: copy_all(removed_fragment_ids),
                updated_fragments: wrap(updated_fragments),
                new_fragments: wrap(new_fragments),
                fields_modified: copy_all(fields_modified),
                mem_wal_to_flush: copy_opt(mem_wal_to_flush),
            },
            Operation::Project { schema } => OperationMessage::Project {
                schema: clone_fields(&schema.fields),
            },
            Operation::UpdateConfig {
                upsert_values,
                delete_keys,
                schema_metadata,
                field_metadata,
            } => {
                let keys = match delete_keys {
                    Some(keys) => copy_all(keys),
                    None => {
                        let none: Vec<String> = Vec::new();
                        assert(views(none@) =~= Seq::<Seq<char>>::empty());
                        none
                    },
                };
                OperationMessage::UpdateConfig {
                    upsert_values: write_map(upsert_values),
                    delete_keys: keys,
                    schema_metadata: write_map(schema_metadata),
                    field_metadata: match field_metadata {
                        Some(m) => m.clone(),
                        None => FieldMetadata::new(),
                    },
                }
            },
            Operation::UpdateMemWalState { added, updated, removed } => {
                OperationMessage::UpdateMemWalState {
                    added: copy_all(added),
                    updated: copy_all(updated),
                    removed: copy_all(removed),
                }
            },
        }
    }
}

impl TransactionMessage {
    /// The message of a transaction.
    pub fn from(value: &Transaction) -> (r: TransactionMessage)
        requires
            match value@.blobs_op {
                Some(op) => is_blob_operation(op),
                None => true,
            },
        ensures
            r@ == encode(value@),
    {
        let blob_operation = match &value.blobs_op {
            Some(Operation::Append { fragments }) => Some(
                BlobOperationMessage::BlobAppend { fragments: wrap(fragments) },
            ),
            Some(Operation::Overwrite { fragments, schema, config_upsert_values }) => Some(
                BlobOperationMessage::BlobOverwrite {
                    fragments: wrap(fragments),
                    schema: clone_fields(&schema.fields),
                    schema_metadata: StringMap::new(),
                    config_upsert_values: write_map(config_upsert_values),
                },
            ),
            _ => None,
        };
        let tag = match &value.tag {
            Some(tag) => tag.clone(),
            None => {
                let none = String::new();
                assert(none@ =~= Seq::<char>::empty());
                none
            },
        };
        TransactionMessage {
            read_version: value.read_version,
            uuid: value.uuid.clone(),
            operation: Some(OperationMessage::from(&value.operation)),
            blob_operation,
            tag,
        }
    }
}

// Laws.

proof fn lemma_all_ok<V>(s: Seq<V>)
    ensures
        all_ok(as_ok(s)) == Ok::<Seq<V>, ErrorModel>(s),
    decreases s.len(),
{
    if s.len() > 0 {
        lemma_all_ok(s.drop_first());
        assert(as_ok(s).drop_first() =~= as_ok(s.drop_first()));
        assert(seq![s[0]] + s.drop_first() =~= s);
    } else {
        assert(s =~= Seq::<V>::empty());
    }
}

/// What a stored operation is when it is read again. The metadata of a schema and an
/// index of reused fragments are not stored. Empty changes to the configuration come back
/// as none, and an empty list of groups as one empty group.
pub open spec fn carried(op: OperationModel) -> OperationModel {
    match op {
        OperationModel::Overwrite { fragments, schema, config_upsert_values } => {
            OperationModel::Overwrite {
                fragments,
                schema: schema_of(schema.fields),
                config_upsert_values: if_any(or_empty(config_upsert_values)),
            }
        },
        OperationModel::Merge { fragments, schema } => OperationModel::Merge {
            fragments,
            schema: schema_of(schema.fields),
        },
        OperationModel::Project { schema } => OperationModel::Project {
            schema: schema_of(schema.fields),
        },
        OperationModel::Rewrite { groups, rewritten_indices, .. } => OperationModel::Rewrite {
            groups: if groups.len() > 0 {
                groups
            } else {
                seq![
                    RewriteGroupModel { old_fragments: Seq::empty(), new_fragments: Seq::empty() },
                ]
            },
            rewritten_indices,
            frag_reuse_index: None,
        },
        OperationModel::UpdateConfig {
            upsert_values,
            delete_keys,
            schema_metadata,
            field_metadata,
        } => OperationModel::UpdateConfig {
            upsert_values: if_any(or_empty(upsert_values)),
            delete_keys: match delete_keys {
                Some(keys) if keys.len() > 0 => Some(keys),
                _ => None,
            },
            schema_metadata: if_any(or_empty(schema_metadata)),
            field_metadata: if_any(or_empty(field_metadata)),
        },
        _ => op,
    }
}

/// Whether an operation has nothing that is lost when it is stored.
pub open spec fn is_storable(op: OperationModel) -> bool {
    let none = Map::<Seq<char>, Seq<char>>::empty();
    match op {
        OperationModel::Overwrite { schema, config_upsert_values, .. } => schema.metadata == none
            && config_upsert_values != Some(none),
        OperationModel::Merge { schema, .. } => schema.metadata == none,
        OperationModel::Project { schema } => schema.metadata == none,
        OperationModel::Rewrite { groups, frag_reuse_index, .. } => groups.len() > 0
            && frag_reuse_index is None,
        OperationModel::UpdateConfig {
            upsert_values,
            delete_keys,
            schema_metadata,
            field_metadata,
        } => {
            &&& upsert_values != Some(none)
            &&& match delete_keys {
                Some(keys) => keys.len() > 0,
                None => true,
            }
            &&& schema_metadata != Some(none)
            &&& field_metadata != Some(Map::<u32, Map<Seq<char>, Seq<char>>>::empty())
        },
        _ => true,
    }
}

/// Reading the message of an operation gives what a message carries of it.
pub proof fn operation_round_trip(op: OperationModel)
    ensures
        decode_operation(encode_operation(op)) == Ok::<OperationModel, ErrorModel>(carried(op)),
{
    match op {
        OperationModel::Append { fragments } => {
            lemma_all_ok(fragments);
        },
        OperationModel::Delete { updated_fragments, .. } => {
            lemma_all_ok(updated_fragments);
        },
        OperationModel::Overwrite { fragments, .. } => {
            lemma_all_ok(fragments);
        },
        OperationModel::CreateIndex { new_indices, removed_indices } => {
            lemma_all_ok(new_indices);
            lemma_all_ok(removed_indices);
        },
        OperationModel::Rewrite { groups, rewritten_indices, .. } => {
            let ms = Seq::new(groups.len(), |i: int| encode_group(groups[i]));
            let is = Seq::new(
                rewritten_indices.len(),
                |i: int| encode_rewritten(rewritten_indices[i]),
            );
            assert forall|i: int| 0 <= i < groups.len() implies decode_group(#[trigger] ms[i])
                == Ok::<RewriteGroupModel, ErrorModel>(groups[i]) by {
                lemma_all_ok(groups[i].old_fragments);
                lemma_all_ok(groups[i].new_fragments);
            }
            assert(Seq::new(ms.len(), |i: int| decode_group(ms[i])) =~= as_ok(groups));
            lemma_all_ok(groups);
            assert(Seq::new(is.len(), |i: int| decode_rewritten(is[i])) =~= as_ok(
                rewritten_indices,
            ));
            lemma_all_ok(rewritten_indices);
            let nothing = Seq::<FragmentModel>::empty();
            lemma_all_ok(nothing);
            assert(as_ok(nothing) =~= Seq::<Result<FragmentModel, ErrorModel>>::empty());
        },
        OperationModel::DataReplacement { replacements } => {
            let ms = Seq::new(replacements.len(), |i: int| encode_replacement(replacements[i]));
            assert(Seq::new(ms.len(), |i: int| decode_replacement(ms[i])) =~= as_ok(replacements));
            lemma_all_ok(replacements);
        },
        OperationModel::Merge { fragments, .. } => {
            lemma_all_ok(fragments);
        },
        OperationModel::Update { updated_fragments, new_fragments, .. } => {
            lemma_all_ok(updated_fragments);
            lemma_all_ok(new_fragments);
        },
        _ => {},
    }
}

/// A transaction that has nothing that is lost when it is stored is read as it was
/// written.
pub proof fn transaction_round_trip(t: TransactionModel)
    requires
        is_storable(t.operation),
        match t.blobs_op {
            Some(op) => is_blob_operation(op) && is_storable(op),
            None => true,
        },
        match t.tag {
            Some(tag) => tag.len() > 0,
            None => true,
        },
    ensures
        decode(encode(t)) == Ok::<TransactionModel, ErrorModel>(t),
{
    operation_round_trip(t.operation);
    lemma_storable(t.operation);
    match t.blobs_op {
        Some(op) => {
            operation_round_trip(op);
            lemma_storable(op);
            match op {
                OperationModel::Append { fragments } => {
                    lemma_all_ok(fragments);
                },
                OperationModel::Overwrite { fragments, .. } => {
                    lemma_all_ok(fragments);
                },
                _ => {},
            }
        },
        None => {},
    }
}

/// The operation without the metadata of its schema.
pub open spec fn without_schema_metadata(op: OperationModel) -> OperationModel {
    match op {
        OperationModel::Overwrite { fragments, schema, config_upsert_values } => {
            OperationModel::Overwrite {
                fragments,
                schema: schema_of(schema.fields),
                config_upsert_values,
            }
        },
        OperationModel::Merge { fragments, schema } => OperationModel::Merge {
            fragments,
            schema: schema_of(schema.fields),
        },
        OperationModel::Project { schema } => OperationModel::Project {
            schema: schema_of(schema.fields),
        },
        _ => op,
    }
}

/// An operation of which at most the metadata of its schema is lost when it is stored
/// equals what is read again.
pub proof fn stored_operation_equals(op: OperationModel)
    requires
        is_storable(without_schema_metadata(op)),
    ensures
        decode_operation(encode_operation(op)) is Ok,
        same_operation(decode_operation(encode_operation(op))->Ok_0, op),
{
    operation_round_trip(op);
    assert(carried(op) == without_schema_metadata(op));
}

proof fn lemma_storable(op: OperationModel)
    requires
        is_storable(op),
    ensures
        carried(op) == op,
{
}

} // verus!
