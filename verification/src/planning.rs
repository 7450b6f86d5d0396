//! Planning: what becomes of the fragments and indices of a table.
//!
//! The next manifest is built in three steps. A plan tells what becomes of the content.
//! From the plan a manifest is put together, and that is finished with the time of the
//! commit and the changes to the configuration (see [`crate::commit`]). Between the steps
//! the caller updates the index of write-ahead logs, finds out the version of the data
//! files and works out the feature flags.

use vstd::prelude::*;
use crate::assoc::Item;
use crate::error::outcome;
use crate::error::Error;
use crate::error::ErrorModel;
use crate::field::ids_of;
use crate::field::pre_order;
use crate::format::DataFile;
use crate::format::DataFileModel;
use crate::format::Fragment;
use crate::format::FragmentModel;
use crate::format::Index;
use crate::format::IndexModel;
use crate::format::MemWal;
use crate::format::MemWalModel;
use crate::format::MemWalState;
use crate::fragments::can_rewrite;
use crate::fragments::drop_files;
use crate::fragments::find_first;
use crate::fragments::first_with_id;
use crate::fragments::keep_fields;
use crate::fragments::leave_out;
use crate::fragments::no_rows;
use crate::fragments::number_fragments;
use crate::fragments::number_rows;
use crate::fragments::rewrite_groups;
use crate::fragments::rows_in;
use crate::fragments::rows_known;
use crate::fragments::sort_by_id;
use crate::fragments::sort_fragments;
use crate::fragments::unnumbered;
use crate::fragments::update_by_first;
use crate::fragments::update_by_last;
use crate::fragments::updated_by_first;
use crate::fragments::updated_by_last;
use crate::fragments::without_ids;
use crate::indices::drop_indices;
use crate::indices::ids_are_sound;
use crate::indices::indices_without;
use crate::indices::prune_indices;
use crate::indices::recalculate_all;
use crate::indices::relevant_indices;
use crate::indices::rewrite_all_bitmaps;
use crate::indices::rewrite_indices;
use crate::items::copy_all;
use crate::items::same_all;
use crate::manifest::Manifest;
use crate::manifest::ManifestModel;
use crate::manifest::ManifestWriteConfig;
use crate::operation::DataReplacementGroup;
use crate::operation::Operation;
use crate::operation::OperationModel;
use crate::schema::Schema;
use crate::schema::SchemaModel;
use crate::seqs::lemma_views_add;
use crate::seqs::lemma_views_push;
use crate::seqs::opt_view;
use crate::seqs::views;
use crate::text::concat;
use crate::text::i32_text;
use crate::text::int_text;
use crate::text::join;
use crate::text::join_all;
use crate::text::u64_text;
use crate::transaction::Transaction;
use crate::transaction::TransactionModel;

verus! {

/// What is to be done to the index of write-ahead logs.
#[derive(Debug)]
pub struct MemWalUpdate {
    /// The version that the transaction was based on.
    pub read_version: u64,
    /// The version that the transaction makes.
    pub new_version: u64,
    pub added: Vec<MemWal>,
    pub updated: Vec<MemWal>,
    pub removed: Vec<MemWal>,
}

/// An update of write-ahead logs as a mathematical value.
pub struct MemWalUpdateModel {
    pub read_version: u64,
    pub new_version: u64,
    pub added: Seq<MemWalModel>,
    pub updated: Seq<MemWalModel>,
    pub removed: Seq<MemWalModel>,
}

impl View for MemWalUpdate {
    type V = MemWalUpdateModel;

    open spec fn view(&self) -> MemWalUpdateModel {
        MemWalUpdateModel {
            read_version: self.read_version,
            new_version: self.new_version,
            added: views(self.added@),
            updated: views(self.updated@),
            removed: views(self.removed@),
        }
    }
}

/// What becomes of the content of a table.
#[derive(Debug)]
pub struct ManifestPlan {
    pub schema: Schema,
    /// The fragments, in the order of their ids.
    pub fragments: Vec<Fragment>,
    pub indices: Vec<Index>,
    /// The next free row id, if row ids are kept.
    pub next_row_id: Option<u64>,
    /// What is still to be done to the indices.
    pub mem_wal: Option<MemWalUpdate>,
}

/// A plan as a mathematical value.
pub struct PlanModel {
    pub schema: SchemaModel,
    pub fragments: Seq<FragmentModel>,
    pub indices: Seq<IndexModel>,
    pub next_row_id: Option<u64>,
    pub mem_wal: Option<MemWalUpdateModel>,
}

impl View for ManifestPlan {
    type V = PlanModel;

    open spec fn view(&self) -> PlanModel {
        PlanModel {
            schema: self.schema@,
            fragments: views(self.fragments@),
            indices: views(self.indices@),
            next_row_id: self.next_row_id,
            mem_wal: opt_view(self.mem_wal),
        }
    }
}

/// Fragments and indices, and the next free row id.
#[derive(Debug)]
pub struct Content {
    pub fragments: Vec<Fragment>,
    pub indices: Vec<Index>,
    pub next_row_id: Option<u64>,
}

/// The content of a table as a mathematical value.
pub struct ContentModel {
    pub fragments: Seq<FragmentModel>,
    pub indices: Seq<IndexModel>,
    pub next_row_id: Option<u64>,
}

impl View for Content {
    type V = ContentModel;

    open spec fn view(&self) -> ContentModel {
        ContentModel {
            fragments: views(self.fragments@),
            indices: views(self.indices@),
            next_row_id: self.next_row_id,
        }
    }
}

/// New fragments with row ids, if row ids are kept, and the next free row id.
pub open spec fn with_rows(fragments: Seq<FragmentModel>, next_row_id: Option<u64>) -> Result<
    (Seq<FragmentModel>, Option<u64>),
    ErrorModel,
> {
    match next_row_id {
        None => Ok((fragments, None)),
        Some(next) => if rows_known(fragments) {
            Ok(
                (
                    number_rows(fragments, next as int),
                    Some((next + rows_in(fragments)) as u64),
                ),
            )
        } else {
            Err(no_rows())
        },
    }
}

/// The ids of the fields of a schema, in pre-order.
pub open spec fn schema_ids(schema: SchemaModel) -> Seq<i32> {
    ids_of(pre_order(schema.fields))
}

// Replacing data.

/// Whether two data files have the same fields in the same version of the format.
pub open spec fn same_layout(a: DataFileModel, b: DataFileModel) -> bool {
    &&& a.fields == b.fields
    &&& a.file_major_version == b.file_major_version
    &&& a.file_minor_version == b.file_minor_version
}

/// The data files, of which those of the same layout are replaced by a new one.
pub open spec fn replace_files(files: Seq<DataFileModel>, new: DataFileModel) -> Seq<
    DataFileModel,
> {
    Seq::new(
        files.len(),
        |i: int|
            if same_layout(files[i], new) {
                DataFileModel {
                    path: new.path,
                    file_size_bytes: new.file_size_bytes,
                    ..files[i]
                }
            } else {
                files[i]
            },
    )
}

/// Whether one of some data files has one of some fields.
pub open spec fn covers_field(files: Seq<DataFileModel>, fields: Seq<i32>) -> bool {
    exists|i: int|
        0 <= i < files.len() && crate::fragments::has_field(#[trigger] files[i], fields)
}

/// A fragment whose data was replaced by a new file. A file with fields of which the
/// fragment has none is added, with the given version numbers.
pub open spec fn replace_data(
    f: FragmentModel,
    new: DataFileModel,
    numbers: Option<(u32, u32)>,
) -> FragmentModel {
    let files = replace_files(f.files, new);
    FragmentModel {
        files: if covers_field(f.files, new.fields) {
            files
        } else {
            files.push(
                DataFileModel {
                    file_major_version: (numbers->0).0,
                    file_minor_version: (numbers->0).1,
                    ..new
                },
            )
        },
        ..f
    }
}

/// The error of a replacement whose fragment is not there.
pub open spec fn replaced_not_found() -> ErrorModel {
    ErrorModel::InvalidInput {
        source: "Fragment being replaced not found in existing fragments"@,
    }
}

/// The error of a replacement that changes nothing.
pub open spec fn nothing_replaced() -> ErrorModel {
    ErrorModel::InvalidInput {
        source:
            "Expected to modify the fragment but no changes were made. This means the new data files does not align with any exiting datafiles. Please check if the schema of the new data files matches the schema of the old data files including the file major and minor versions"@,
    }
}

/// The fragments whose data is replaced, one for each replacement from position `k` on.
pub open spec fn replaced_fragments(
    existing: Seq<FragmentModel>,
    replacements: Seq<(u64, DataFileModel)>,
    numbers: Seq<Option<(u32, u32)>>,
    k: int,
) -> Result<Seq<FragmentModel>, ErrorModel>
    decreases replacements.len() - k,
{
    if k < 0 || k >= replacements.len() {
        Ok(Seq::empty())
    } else {
        match first_with_id(existing, replacements[k].0) {
            None => Err(replaced_not_found()),
            Some(f) => {
                let g = replace_data(f, replacements[k].1, numbers[k]);
                if g == f {
                    Err(nothing_replaced())
                } else {
                    match replaced_fragments(existing, replacements, numbers, k + 1) {
                        Ok(rest) => Ok(seq![g] + rest),
                        Err(e) => Err(e),
                    }
                }
            },
        }
    }
}

/// Whether, from position `k` on and up to the first error, there are version numbers for
/// each new file that is added.
pub open spec fn versions_known(
    existing: Seq<FragmentModel>,
    replacements: Seq<(u64, DataFileModel)>,
    numbers: Seq<Option<(u32, u32)>>,
    k: int,
) -> bool
    decreases replacements.len() - k,
{
    0 <= k < replacements.len() ==> match first_with_id(existing, replacements[k].0) {
        None => true,
        Some(f) => {
            let new = replacements[k].1;
            &&& !covers_field(f.files, new.fields) ==> numbers[k] is Some
            &&& replace_data(f, new, numbers[k]) != f ==> versions_known(
                existing,
                replacements,
                numbers,
                k + 1,
            )
        },
    }
}

/// Whether all replacements have the fields of the first.
pub open spec fn fields_agree(replacements: Seq<(u64, DataFileModel)>) -> bool {
    forall|i: int|
        0 <= i < replacements.len() ==> (#[trigger] replacements[i]).1.fields
            == replacements[0].1.fields
}

/// The text of a list of field ids.
pub open spec fn ints_text(ids: Seq<i32>) -> Seq<char> {
    "["@ + join(Seq::new(ids.len(), |i: int| int_text(ids[i] as int)), ", "@) + "]"@
}

/// A line with the fields of each of the first `n` replacements.
pub open spec fn fields_lines(replacements: Seq<(u64, DataFileModel)>, n: int) -> Seq<char>
    decreases n,
{
    if n <= 0 {
        Seq::empty()
    } else {
        fields_lines(replacements, n - 1) + "File "@ + int_text(n - 1) + ": "@ + ints_text(
            replacements[n - 1].1.fields,
        ) + "\n"@
    }
}

/// The error of replacements with different fields.
pub open spec fn fields_differ(replacements: Seq<(u64, DataFileModel)>) -> ErrorModel {
    ErrorModel::InvalidInput {
        source: "All new data files must have the same fields, but found different fields:\n"@
            + fields_lines(replacements, replacements.len() as int),
    }
}

/// The ids of the fragments whose data is replaced.
pub open spec fn replaced_ids(replacements: Seq<(u64, DataFileModel)>) -> Seq<u64> {
    Seq::new(replacements.len(), |i: int| replacements[i].0)
}

// Planning.

/// The content of a table after an operation on content that exists: what becomes of
/// the fragments and indices, before the fragments are sorted.
pub open spec fn apply_operation(
    op: OperationModel,
    existing: Seq<FragmentModel>,
    schema: SchemaModel,
    indices: Seq<IndexModel>,
    next_fragment: int,
    next_row_id: Option<u64>,
    version: u64,
    numbers: Seq<Option<(u32, u32)>>,
) -> Result<ContentModel, ErrorModel> {
    match op {
        OperationModel::Append { fragments } => match with_rows(
            number_fragments(fragments, next_fragment),
            next_row_id,
        ) {
            Err(e) => Err(e),
            Ok((new, next_row_id)) => Ok(
                ContentModel { fragments: existing + new, indices, next_row_id },
            ),
        },
        OperationModel::Delete { updated_fragments, deleted_fragment_ids, .. } => {
            let fragments = updated_by_last(
                without_ids(existing, deleted_fragment_ids),
                updated_fragments,
            );
            Ok(
                ContentModel {
                    fragments,
                    indices: relevant_indices(indices, schema_ids(schema), fragments),
                    next_row_id,
                },
            )
        },
        OperationModel::Update {
            removed_fragment_ids,
            updated_fragments,
            new_fragments,
            fields_modified,
            ..
        } => {
            let kept = updated_by_first(
                without_ids(existing, removed_fragment_ids),
                updated_fragments,
            );
            let pruned = prune_indices(indices, updated_fragments, fields_modified);
            match with_rows(number_fragments(new_fragments, next_fragment), next_row_id) {
                Err(e) => Err(e),
                Ok((new, next_row_id)) => Ok(
                    ContentModel {
                        fragments: kept + new,
                        indices: relevant_indices(pruned, schema_ids(schema), kept + new),
                        next_row_id,
                    },
                ),
            }
        },
        OperationModel::Overwrite { fragments, .. } => match with_rows(
            number_fragments(fragments, next_fragment),
            next_row_id,
        ) {
            Err(e) => Err(e),
            Ok((new, next_row_id)) => Ok(
                ContentModel { fragments: new, indices: Seq::empty(), next_row_id },
            ),
        },
        OperationModel::Rewrite { groups, rewritten_indices, frag_reuse_index } => {
            let out = rewrite_groups(existing, groups, next_fragment, version);
            match out.2 {
                Some(e) => Err(e),
                None => {
                    let rewritten = if next_row_id is Some {
                        rewrite_all_bitmaps(indices, groups)
                    } else {
                        let done = rewrite_indices(indices, rewritten_indices, 0, groups);
                        match done.1 {
                            Some(e) => Err(e),
                            None => Ok(done.0),
                        }
                    };
                    match rewritten {
                        Err(e) => Err(e),
                        Ok(rewritten) => Ok(
                            ContentModel {
                                fragments: out.0,
                                indices: match frag_reuse_index {
                                    Some(reuse) => indices_without(
                                        rewritten,
                                        seq![reuse],
                                        Seq::empty(),
                                    ).push(reuse),
                                    None => rewritten,
                                },
                                next_row_id,
                            },
                        ),
                    }
                },
            }
        },
        OperationModel::CreateIndex { new_indices, removed_indices } => Ok(
            ContentModel {
                fragments: existing,
                indices: indices_without(indices, new_indices, removed_indices) + new_indices,
                next_row_id,
            },
        ),
        OperationModel::ReserveFragments { .. } => Ok(
            ContentModel { fragments: existing, indices, next_row_id },
        ),
        OperationModel::UpdateConfig { .. } => Ok(
            ContentModel { fragments: existing, indices, next_row_id },
        ),
        OperationModel::Merge { fragments, .. } => Ok(
            ContentModel {
                fragments,
                indices: relevant_indices(indices, schema_ids(schema), fragments),
                next_row_id,
            },
        ),
        OperationModel::Project { .. } => {
            let fragments = keep_fields(existing, schema_ids(schema));
            Ok(
                ContentModel {
                    fragments,
                    indices: relevant_indices(indices, schema_ids(schema), fragments),
                    next_row_id,
                },
            )
        },
        OperationModel::DataReplacement { replacements } => if !fields_agree(replacements) {
            Err(fields_differ(replacements))
        } else {
            match replaced_fragments(existing, replacements, numbers, 0) {
                Err(e) => Err(e),
                Ok(changed) => Ok(
                    ContentModel {
                        fragments: changed + without_ids(existing, replaced_ids(replacements)),
                        indices,
                        next_row_id,
                    },
                ),
            }
        },
        OperationModel::UpdateMemWalState { .. } => Ok(
            ContentModel { fragments: existing, indices, next_row_id },
        ),
        OperationModel::Restore { .. } => Ok(
            ContentModel { fragments: existing, indices, next_row_id },
        ),
    }
}

/// Whether an operation builds on the fragments of the current manifest.
pub open spec fn needs_existing(op: OperationModel) -> bool {
    match op {
        OperationModel::Overwrite { .. } => false,
        OperationModel::Merge { .. } => false,
        _ => true,
    }
}

/// The schema of the next version: that of the operation if it has one, or else the
/// current one.
pub open spec fn planned_schema(op: OperationModel, current: Option<ManifestModel>) -> Option<
    SchemaModel,
> {
    match op {
        OperationModel::Overwrite { schema, .. } => Some(schema),
        OperationModel::Merge { schema, .. } => Some(schema),
        OperationModel::Project { schema } => Some(schema),
        _ => match current {
            Some(m) => Some(m.schema),
            None => None,
        },
    }
}

/// The first fragment id that is free for an operation.
pub open spec fn next_fragment_id(op: OperationModel, current: Option<ManifestModel>) -> int {
    match (op, current) {
        (OperationModel::Overwrite { .. }, _) => 0,
        (_, Some(m)) => match m.top_fragment_id() {
            Some(id) => id + 1,
            None => 0,
        },
        _ => 0,
    }
}

/// The first row id that is free, if row ids are kept.
pub open spec fn first_row_id(current: Option<ManifestModel>, stable_row_ids: bool) -> Option<
    u64,
> {
    match current {
        Some(m) => if m.stable_row_ids() {
            Some(m.next_row_id)
        } else {
            None
        },
        None => if stable_row_ids {
            Some(0)
        } else {
            None
        },
    }
}

/// The version that comes after the current one.
pub open spec fn next_version(current: Option<ManifestModel>) -> int {
    match current {
        Some(m) => m.version + 1,
        None => 1,
    }
}

/// What a transaction does to the index of write-ahead logs.
pub open spec fn mem_wal_update(t: TransactionModel, current: Option<ManifestModel>) -> Option<
    MemWalUpdateModel,
> {
    match t.operation {
        OperationModel::Update { mem_wal_to_flush: Some(m), .. } => Some(
            MemWalUpdateModel {
                read_version: t.read_version,
                new_version: next_version(current) as u64,
                added: Seq::empty(),
                updated: seq![MemWalModel { state: MemWalState::Flushed, ..m }],
                removed: seq![m],
            },
        ),
        OperationModel::UpdateMemWalState { added, updated, removed } => Some(
            MemWalUpdateModel {
                read_version: t.read_version,
                new_version: next_version(current) as u64,
                added,
                updated,
                removed,
            },
        ),
        _ => None,
    }
}

/// The error of an operation that lacks a current manifest.
pub open spec fn no_current_manifest(op: OperationModel) -> ErrorModel {
    ErrorModel::Internal {
        message: "No current manifest was provided while building manifest for operation "@
            + op.name(),
    }
}

/// The fragments of the current version, if there is one.
pub open spec fn existing_fragments(current: Option<ManifestModel>) -> Seq<FragmentModel> {
    match current {
        Some(m) => m.fragments,
        None => Seq::empty(),
    }
}

/// Why a transaction cannot be planned from the current manifest, whatever its operation
/// holds.
pub open spec fn early_fault(
    op: OperationModel,
    current: Option<ManifestModel>,
    stable_row_ids: bool,
) -> Option<ErrorModel> {
    if stable_row_ids && current is Some && !current->0.stable_row_ids() {
        Some(
            ErrorModel::NotSupported {
                source: "Cannot enable stable row ids on existing dataset"@,
            },
        )
    } else if planned_schema(op, current) is None {
        Some(ErrorModel::Internal { message: "Cannot create a new dataset without a schema"@ })
    } else if needs_existing(op) && current is None {
        Some(no_current_manifest(op))
    } else {
        None
    }
}

/// The plan for a transaction.
pub open spec fn plan(
    t: TransactionModel,
    current: Option<ManifestModel>,
    indices: Seq<IndexModel>,
    stable_row_ids: bool,
    numbers: Seq<Option<(u32, u32)>>,
) -> Result<PlanModel, ErrorModel> {
    let op = t.operation;
    match early_fault(op, current, stable_row_ids) {
        Some(e) => Err(e),
        None => {
            let schema = planned_schema(op, current)->0;
            let version = match current {
                Some(m) => m.version,
                None => 0,
            };
            match apply_operation(
                op,
                existing_fragments(current),
                schema,
                indices,
                next_fragment_id(op, current),
                first_row_id(current, stable_row_ids),
                version,
                numbers,
            ) {
                Err(e) => Err(e),
                Ok(c) => Ok(
                    PlanModel {
                        schema,
                        fragments: sort_by_id(c.fragments),
                        indices: c.indices,
                        next_row_id: c.next_row_id,
                        mem_wal: mem_wal_update(t, current),
                    },
                ),
            }
        },
    }
}

/// How many fragment ids an operation other than a rewrite takes.
pub open spec fn ids_taken(op: OperationModel) -> nat {
    match op {
        OperationModel::Append { fragments } => unnumbered(fragments),
        OperationModel::Overwrite { fragments, .. } => unnumbered(fragments),
        OperationModel::Update { new_fragments, .. } => unnumbered(new_fragments),
        _ => 0,
    }
}

/// How many row ids an operation takes, if row ids are kept.
pub open spec fn rows_taken(op: OperationModel) -> nat {
    match op {
        OperationModel::Append { fragments } => rows_in(fragments),
        OperationModel::Overwrite { fragments, .. } => rows_in(fragments),
        OperationModel::Update { new_fragments, .. } => rows_in(new_fragments),
        _ => 0,
    }
}

/// Whether the versions, fragment ids and row ids that a plan hands out are numbers of
/// their types.
pub open spec fn numbers_suffice(
    op: OperationModel,
    current: Option<ManifestModel>,
    stable_row_ids: bool,
) -> bool {
    &&& next_version(current) <= u64::MAX
    &&& next_fragment_id(op, current) + ids_taken(op) <= u64::MAX
    &&& match first_row_id(current, stable_row_ids) {
        Some(next) => next + rows_taken(op) <= u64::MAX,
        None => true,
    }
}

/// Whether the parts of an operation fit together so that it can be carried out: it is no
/// restoration, the groups of a rewrite can be rewritten, there are version numbers for
/// the data files that are added, and the field ids of indices are sound where fields were
/// modified.
pub open spec fn can_apply(
    op: OperationModel,
    existing: Seq<FragmentModel>,
    indices: Seq<IndexModel>,
    next_fragment: int,
    numbers: Seq<Option<(u32, u32)>>,
) -> bool {
    match op {
        OperationModel::Restore { .. } => false,
        OperationModel::Rewrite { groups, .. } => can_rewrite(existing, groups, next_fragment),
        OperationModel::DataReplacement { replacements } => fields_agree(replacements) ==> {
            &&& numbers.len() == replacements.len()
            &&& versions_known(existing, replacements, numbers, 0)
        },
        OperationModel::Update { fields_modified, .. } => fields_modified.len() > 0 ==> forall|
            i: int,
        |
            0 <= i < indices.len() ==> ids_are_sound(
                (#[trigger] indices[i]).fields,
                fields_modified,
            ),
        _ => true,
    }
}

/// Whether a plan can be made for an operation, or the current manifest rules it out from
/// the start.
pub open spec fn can_plan(
    op: OperationModel,
    current: Option<ManifestModel>,
    indices: Seq<IndexModel>,
    stable_row_ids: bool,
    numbers: Seq<Option<(u32, u32)>>,
) -> bool {
    early_fault(op, current, stable_row_ids) is None ==> {
        &&& numbers_suffice(op, current, stable_row_ids)
        &&& can_apply(
            op,
            existing_fragments(current),
            indices,
            next_fragment_id(op, current),
            numbers,
        )
    }
}

/// Numbering fragments does not change how many rows they have.
pub proof fn lemma_numbered_rows(fragments: Seq<FragmentModel>, next: int)
    ensures
        rows_in(number_fragments(fragments, next)) == rows_in(fragments),
    decreases fragments.len(),
{
    if fragments.len() > 0 {
        let out = number_fragments(fragments, next);
        let after = if fragments[0].id == 0 {
            next + 1
        } else {
            next
        };
        assert(out.drop_first() =~= number_fragments(fragments.drop_first(), after));
        lemma_numbered_rows(fragments.drop_first(), after);
    } else {
        assert(number_fragments(fragments, next) =~= fragments);
    }
}

/// Gives ids and row ids to new fragments.
fn admit_new(new_fragments: &Vec<Fragment>, fragment_id: u64, next_row_id: Option<u64>) -> (r: Result<
    (Vec<Fragment>, Option<u64>),
    Error,
>)
    requires
        fragment_id + unnumbered(views(new_fragments@)) <= u64::MAX,
        match next_row_id {
            Some(next) => next + rows_in(views(new_fragments@)) <= u64::MAX,
            None => true,
        },
    ensures
        match r {
            Ok(out) => with_rows(
                number_fragments(views(new_fragments@), fragment_id as int),
                next_row_id,
            ) == Ok::<(Seq<FragmentModel>, Option<u64>), ErrorModel>((views(out.0@), out.1)),
            Err(e) => with_rows(
                number_fragments(views(new_fragments@), fragment_id as int),
                next_row_id,
            ) == Err::<(Seq<FragmentModel>, Option<u64>), ErrorModel>(e@),
        },
{
    let mut next_fragment: u64 = fragment_id;
    let mut fragments = Transaction::fragments_with_ids(new_fragments, &mut next_fragment);
    proof {
        lemma_numbered_rows(views(new_fragments@), fragment_id as int);
    }
    match next_row_id {
        None => Ok((fragments, None)),
        Some(next) => {
            let mut next_row: u64 = next;
            match Transaction::assign_row_ids(&mut next_row, &mut fragments) {
                Ok(_) => Ok((fragments, Some(next_row))),
                Err(e) => Err(e),
            }
        },
    }
}

fn text_of_ints(ids: &Vec<i32>) -> (r: String)
    ensures
        r@ == ints_text(views(ids@)),
{
    let mut texts: Vec<String> = Vec::new();
    let mut i: usize = 0;
    while i < ids.len()
        invariant
            i <= ids@.len(),
            texts@.len() == i,
            forall|j: int| 0 <= j < i ==> (#[trigger] texts@[j])@ == int_text(ids@[j] as int),
        decreases ids@.len() - i,
    {
        texts.push(i32_text(ids[i]));
        i += 1;
    }
    assert(views(texts@) =~= Seq::new(
        views(ids@).len(),
        |i: int| int_text(views(ids@)[i] as int),
    ));
    concat(concat("[", join_all(&texts, ", ").as_str()).as_str(), "]")
}

fn lines_of_fields(replacements: &Vec<DataReplacementGroup>) -> (r: String)
    ensures
        r@ == fields_lines(views(replacements@), replacements@.len() as int),
{
    let ghost all = views(replacements@);
    let mut out = String::new();
    let mut i: usize = 0;
    while i < replacements.len()
        invariant
            i <= replacements@.len(),
            all == views(replacements@),
            out@ == fields_lines(all, i as int),
        decreases replacements@.len() - i,
    {
        assert(all[i as int] == replacements@[i as int]@);
        let ghost before = out@;
        out.append("File ");
        out.append(u64_text(i as u64).as_str());
        out.append(": ");
        out.append(text_of_ints(&replacements[i].1.fields).as_str());
        out.append("\n");
        i += 1;
        assert(out@ == fields_lines(all, i as int));
    }
    out
}

/// Whether all replacements have the fields of the first.
pub fn agree_on_fields(replacements: &Vec<DataReplacementGroup>) -> (r: bool)
    ensures
        r == fields_agree(views(replacements@)),
{
    let ghost all = views(replacements@);
    let mut i: usize = 0;
    while i < replacements.len()
        invariant
            i <= replacements@.len(),
            all == views(replacements@),
            forall|j: int| 0 <= j < i ==> (#[trigger] all[j]).1.fields == all[0].1.fields,
        decreases replacements@.len() - i,
    {
        assert(all[i as int] == replacements@[i as int]@);
        assert(all[0] == replacements@[0]@);
        if !same_all(&replacements[i].1.fields, &replacements[0].1.fields) {
            return false;
        }
        i += 1;
    }
    true
}

/// Whether one of some data files has one of some fields.
pub fn any_field_covered(files: &Vec<DataFile>, fields: &Vec<i32>) -> (r: bool)
    ensures
        r == covers_field(views(files@), views(fields@)),
{
    let ghost all = views(files@);
    let mut i: usize = 0;
    while i < files.len()
        invariant
            i <= files@.len(),
            all == views(files@),
            forall|j: int|
                0 <= j < i ==> !crate::fragments::has_field(#[trigger] all[j], views(fields@)),
        decreases files@.len() - i,
    {
        assert(all[i as int] == files@[i as int]@);
        if crate::fragments::file_has_field(&files[i], fields) {
            return true;
        }
        i += 1;
    }
    false
}

/// Replaces the data of a fragment by a new file.
pub fn replace_data_of(f: &Fragment, new_file: &DataFile, numbers: Option<(u32, u32)>) -> (r:
    Fragment)
    requires
        !covers_field(f@.files, new_file@.fields) ==> numbers is Some,
    ensures
        r@ == replace_data(f@, new_file@, numbers),
{
    let ghost all = views(f.files@);
    let mut files: Vec<DataFile> = Vec::new();
    let mut i: usize = 0;
    while i < f.files.len()
        invariant
            i <= f.files@.len(),
            all == views(f.files@),
            files@.len() == i,
            forall|j: int|
                0 <= j < i ==> (#[trigger] files@[j])@ == replace_files(all, new_file@)[j],
        decreases f.files@.len() - i,
    {
        assert(all[i as int] == f.files@[i as int]@);
        let mut file = f.files[i].copied();
        if same_all(&file.fields, &new_file.fields) && file.file_major_version
            == new_file.file_major_version && file.file_minor_version
            == new_file.file_minor_version {
            file.path = new_file.path.clone();
            file.file_size_bytes = new_file.file_size_bytes;
        }
        files.push(file);
        i += 1;
    }
    assert(views(files@) =~= replace_files(all, new_file@));
    if !any_field_covered(&f.files, &new_file.fields) {
        let mut added = new_file.copied();
        match numbers {
            Some((major, minor)) => {
                added.file_major_version = major;
                added.file_minor_version = minor;
            },
            None => {},
        }
        proof {
            lemma_views_push(files@, added);
        }
        files.push(added);
    }
    let mut out = f.copied();
    out.files = files;
    out
}

fn replace_fragments(
    existing: &Vec<Fragment>,
    replacements: &Vec<DataReplacementGroup>,
    numbers: &[Option<(u32, u32)>],
) -> (r: Result<Vec<Fragment>, Error>)
    requires
        numbers@.len() == replacements@.len(),
        versions_known(views(existing@), views(replacements@), numbers@, 0),
    ensures
        match r {
            Ok(v) => replaced_fragments(views(existing@), views(replacements@), numbers@, 0)
                == Ok::<Seq<FragmentModel>, ErrorModel>(views(v@)),
            Err(e) => replaced_fragments(views(existing@), views(replacements@), numbers@, 0)
                == Err::<Seq<FragmentModel>, ErrorModel>(e@),
        },
{
    let ghost all = views(replacements@);
    let ghost there = views(existing@);
    let ghost whole = replaced_fragments(there, all, numbers@, 0);
    let mut out: Vec<Fragment> = Vec::new();
    let mut k: usize = 0;
    proof {
        assert(views(out@) =~= Seq::<FragmentModel>::empty());
        crate::field_ops::lemma_prepend_nothing(whole);
    }
    while k < replacements.len()
        invariant
            k <= replacements@.len(),
            all == views(replacements@),
            there == views(existing@),
            numbers@.len() == replacements@.len(),
            versions_known(there, all, numbers@, k as int),
            whole == replaced_fragments(there, all, numbers@, 0),
            whole == crate::field_ops::prepend(
                views(out@),
                replaced_fragments(there, all, numbers@, k as int),
            ),
        decreases replacements@.len() - k,
    {
        assert(all[k as int] == replacements@[k as int]@);
        let old_fragment = match find_first(existing, replacements[k].0) {
            Some(f) => f,
            None => {
                return Err(
                    Error::InvalidInput {
                        source:
                            "Fragment being replaced not found in existing fragments".to_owned(),
                    },
                );
            },
        };
        let new_fragment = replace_data_of(old_fragment, &replacements[k].1, numbers[k]);
        if new_fragment.same(old_fragment) {
            return Err(
                Error::InvalidInput {
                    source:
                        "Expected to modify the fragment but no changes were made. This means the new data files does not align with any exiting datafiles. Please check if the schema of the new data files matches the schema of the old data files including the file major and minor versions".to_owned(),
                },
            );
        }
        proof {
            lemma_views_push(out@, new_fragment);
            crate::field_ops::lemma_prepend_push(
                views(out@),
                new_fragment@,
                replaced_fragments(there, all, numbers@, k + 1),
            );
        }
        out.push(new_fragment);
        k += 1;
    }
    proof {
        assert(views(out@) + Seq::<FragmentModel>::empty() =~= views(out@));
    }
    Ok(out)
}

fn ids_of_replacements(replacements: &Vec<DataReplacementGroup>) -> (r: Vec<u64>)
    ensures
        views(r@) == replaced_ids(views(replacements@)),
{
    let mut out: Vec<u64> = Vec::new();
    let mut i: usize = 0;
    while i < replacements.len()
        invariant
            i <= replacements@.len(),
            out@.len() == i,
            forall|j: int| 0 <= j < i ==> out@[j] == (#[trigger] replacements@[j])@.0,
        decreases replacements@.len() - i,
    {
        out.push(replacements[i].0);
        i += 1;
    }
    assert(views(out@) =~= replaced_ids(views(replacements@)));
    out
}

/// What an operation makes of the content of a table.
fn apply(
    op: &Operation,
    existing: &Vec<Fragment>,
    schema: &Schema,
    indices: Vec<Index>,
    fragment_id: u64,
    next_row_id: Option<u64>,
    version: u64,
    numbers: &[Option<(u32, u32)>],
) -> (r: Result<Content, Error>)
    requires
        can_apply(op@, views(existing@), views(indices@), fragment_id as int, numbers@),
        fragment_id + ids_taken(op@) <= u64::MAX,
        match next_row_id {
            Some(next) => next + rows_taken(op@) <= u64::MAX,
            None => true,
        },
    ensures
        outcome(r) == apply_operation(
            op@,
            views(existing@),
            schema@,
            views(indices@),
            fragment_id as int,
            next_row_id,
            version,
            numbers@,
        ),
{
    match op {
        Operation::Append { fragments } => match admit_new(fragments, fragment_id, next_row_id) {
            Err(e) => Err(e),
            Ok((new, next_row_id)) => {
                let mut new = new;
                let mut all = copy_all(existing);
                proof {
                    lemma_views_add(all@, new@);
                }
                all.append(&mut new);
                Ok(Content { fragments: all, indices, next_row_id })
            },
        },
        Operation::Delete { updated_fragments, deleted_fragment_ids, .. } => {
            let kept = leave_out(existing, deleted_fragment_ids);
            let fragments = update_by_last(&kept, updated_fragments);
            let mut indices = indices;
            Transaction::retain_relevant_indices(&mut indices, schema, &fragments);
            Ok(Content { fragments, indices, next_row_id })
        },
        Operation::Update {
            removed_fragment_ids,
            updated_fragments,
            new_fragments,
            fields_modified,
            ..
        } => {
            let kept = leave_out(existing, removed_fragment_ids);
            let mut fragments = update_by_first(&kept, updated_fragments);
            let mut indices = indices;
            proof {
                assert forall|i: int|
                    0 <= i < indices@.len() && fields_modified@.len() > 0 implies ids_are_sound(
                    (#[trigger] indices@[i])@.fields,
                    views(fields_modified@),
                ) by {
                    assert(views(indices@)[i] == indices@[i]@);
                }
            }
            Transaction::prune_updated_fields_from_indices(
                &mut indices,
                updated_fragments,
                fields_modified,
            );
            match admit_new(new_fragments, fragment_id, next_row_id) {
                Err(e) => Err(e),
                Ok((new, next_row_id)) => {
                    let mut new = new;
                    proof {
                        lemma_views_add(fragments@, new@);
                    }
                    fragments.append(&mut new);
                    Transaction::retain_relevant_indices(&mut indices, schema, &fragments);
                    Ok(Content { fragments, indices, next_row_id })
                },
            }
        },
        Operation::Overwrite { fragments, .. } => match admit_new(
            fragments,
            fragment_id,
            next_row_id,
        ) {
            Err(e) => Err(e),
            Ok((new, next_row_id)) => {
                let none: Vec<Index> = Vec::new();
                assert(views(none@) =~= Seq::<IndexModel>::empty());
                Ok(Content { fragments: new, indices: none, next_row_id })
            },
        },
        Operation::Rewrite { groups, rewritten_indices, frag_reuse_index } => {
            let mut fragments = copy_all(existing);
            let mut next_fragment: u64 = fragment_id;
            match Transaction::handle_rewrite_fragments(
                &mut fragments,
                groups.as_slice(),
                &mut next_fragment,
                version,
            ) {
                Err(e) => {
                    return Err(e);
                },
                Ok(_) => {},
            }
            let mut rewritten = indices;
            if next_row_id.is_some() {
                match recalculate_all(&rewritten, groups.as_slice()) {
                    Err(e) => {
                        return Err(e);
                    },
                    Ok(v) => {
                        rewritten = v;
                    },
                }
            } else {
                assert(views(rewritten_indices@) =~= rewritten_indices@);
                match Transaction::handle_rewrite_indices(
                    &mut rewritten,
                    rewritten_indices.as_slice(),
                    groups.as_slice(),
                ) {
                    Err(e) => {
                        return Err(e);
                    },
                    Ok(_) => {},
                }
            }
            match frag_reuse_index {
                Some(reuse) => {
                    let mut named: Vec<Index> = Vec::new();
                    named.push(reuse.copied());
                    let none: Vec<Index> = Vec::new();
                    assert(views(named@) =~= seq![reuse@]);
                    assert(views(none@) =~= Seq::<IndexModel>::empty());
                    let mut kept = drop_indices(&rewritten, &named, &none);
                    let last = reuse.copied();
                    proof {
                        lemma_views_push(kept@, last);
                    }
                    kept.push(last);
                    Ok(Content { fragments, indices: kept, next_row_id })
                },
                None => Ok(Content { fragments, indices: rewritten, next_row_id }),
            }
        },
        Operation::CreateIndex { new_indices, removed_indices } => {
            let mut kept = drop_indices(&indices, new_indices, removed_indices);
            let mut new = copy_all(new_indices);
            proof {
                lemma_views_add(kept@, new@);
            }
            kept.append(&mut new);
            Ok(Content { fragments: copy_all(existing), indices: kept, next_row_id })
        },
        Operation::ReserveFragments { .. } => Ok(
            Content { fragments: copy_all(existing), indices, next_row_id },
        ),
        Operation::UpdateConfig { .. } => Ok(
            Content { fragments: copy_all(existing), indices, next_row_id },
        ),
        Operation::Merge { fragments, .. } => {
            let fragments = copy_all(fragments);
            let mut indices = indices;
            Transaction::retain_relevant_indices(&mut indices, schema, &fragments);
            Ok(Content { fragments, indices, next_row_id })
        },
        Operation::Project { .. } => {
            let field_ids = schema.field_ids();
            assert(views(field_ids@) =~= schema_ids(schema@));
            let fragments = drop_files(existing, &field_ids);
            let mut indices = indices;
            Transaction::retain_relevant_indices(&mut indices, schema, &fragments);
            Ok(Content { fragments, indices, next_row_id })
        },
        Operation::DataReplacement { replacements } => {
            if !agree_on_fields(replacements) {
                return Err(
                    Error::InvalidInput {
                        source: concat(
                            "All new data files must have the same fields, but found different fields:\n",
                            lines_of_fields(replacements).as_str(),
                        ),
                    },
                );
            }
            match replace_fragments(existing, replacements, numbers) {
                Err(e) => Err(e),
                Ok(changed) => {
                    let mut fragments = changed;
                    let ids = ids_of_replacements(replacements);
                    let mut unmodified = leave_out(existing, &ids);
                    proof {
                        lemma_views_add(fragments@, unmodified@);
                    }
                    fragments.append(&mut unmodified);
                    Ok(Content { fragments, indices, next_row_id })
                },
            }
        },
        Operation::UpdateMemWalState { .. } => Ok(
            Content { fragments: copy_all(existing), indices, next_row_id },
        ),
        Operation::Restore { .. } => Ok(
            Content { fragments: copy_all(existing), indices, next_row_id },
        ),
    }
}

fn plan_mem_wal(t: &Transaction, new_version: u64, current: Option<&Manifest>) -> (r: Option<
    MemWalUpdate,
>)
    requires
        new_version == next_version(opt_view(current)),
    ensures
        opt_view(r) == mem_wal_update(t@, opt_view(current)),
{
    match &t.operation {
        Operation::Update { mem_wal_to_flush: Some(m), .. } => {
            let mut flushed = m.copied();
            flushed.state = MemWalState::Flushed;
            let mut updated: Vec<MemWal> = Vec::new();
            updated.push(flushed);
            let mut removed: Vec<MemWal> = Vec::new();
            removed.push(m.copied());
            let added: Vec<MemWal> = Vec::new();
            assert(views(added@) =~= Seq::<MemWalModel>::empty());
            assert(views(updated@) =~= seq![MemWalModel { state: MemWalState::Flushed, ..m@ }]);
            assert(views(removed@) =~= seq![m@]);
            Some(
                MemWalUpdate { read_version: t.read_version, new_version, added, updated, removed },
            )
        },
        Operation::UpdateMemWalState { added, updated, removed } => Some(
            MemWalUpdate {
                read_version: t.read_version,
                new_version,
                added: copy_all(added),
                updated: copy_all(updated),
                removed: copy_all(removed),
            },
        ),
        _ => None,
    }
}

impl Transaction {
    /// What the transaction makes of the content of a table.
    ///
    /// `current_manifest` is `None` only if the dataset does not exist yet. For an
    /// operation that puts data files in place, `numbers` holds for each the version
    /// numbers under which it is recorded if it is added, if there are any.
    pub fn plan_manifest(
        &self,
        current_manifest: Option<&Manifest>,
        current_indices: Vec<Index>,
        config: &ManifestWriteConfig,
        numbers: &[Option<(u32, u32)>],
    ) -> (r: Result<ManifestPlan, Error>)
        requires
            can_plan(
                self@.operation,
                opt_view(current_manifest),
                views(current_indices@),
                config.use_move_stable_row_ids,
                numbers@,
            ),
        ensures
            outcome(r) == plan(
                self@,
                opt_view(current_manifest),
                views(current_indices@),
                config.use_move_stable_row_ids,
                numbers@,
            ),
    {
        let ghost current = opt_view(current_manifest);
        match current_manifest {
            Some(m) => {
                if config.use_move_stable_row_ids && !m.uses_move_stable_row_ids() {
                    return Err(
                        Error::NotSupported {
                            source: "Cannot enable stable row ids on existing dataset".to_owned(),
                        },
                    );
                }
            },
            None => {},
        }
        let schema = match &self.operation {
            Operation::Overwrite { schema, .. } => schema.clone(),
            Operation::Merge { schema, .. } => schema.clone(),
            Operation::Project { schema } => schema.clone(),
            _ => match current_manifest {
                Some(m) => m.schema.clone(),
                None => {
                    return Err(
                        Error::Internal {
                            message: "Cannot create a new dataset without a schema".to_owned(),
                        },
                    );
                },
            },
        };
        let needs = match &self.operation {
            Operation::Overwrite { .. } => false,
            Operation::Merge { .. } => false,
            _ => true,
        };
        if needs && current_manifest.is_none() {
            return Err(
                Error::Internal {
                    message: concat(
                        "No current manifest was provided while building manifest for operation ",
                        self.operation.name(),
                    ),
                },
            );
        }
        let fragment_id: u64 = match &self.operation {
            Operation::Overwrite { .. } => 0,
            _ => match current_manifest {
                Some(m) => match m.max_fragment_id() {
                    Some(id) => id + 1,
                    None => 0,
                },
                None => 0,
            },
        };
        assert(fragment_id == next_fragment_id(self@.operation, current));
        let next_row_id: Option<u64> = match current_manifest {
            Some(m) => if m.uses_move_stable_row_ids() {
                Some(m.next_row_id)
            } else {
                None
            },
            None => if config.use_move_stable_row_ids {
                Some(0)
            } else {
                None
            },
        };
        let none: Vec<Fragment> = Vec::new();
        assert(views(none@) =~= Seq::<FragmentModel>::empty());
        let existing = match current_manifest {
            Some(m) => &m.fragments,
            None => &none,
        };
        let version: u64 = match current_manifest {
            Some(m) => m.version,
            None => 0,
        };
        let new_version: u64 = match current_manifest {
            Some(m) => m.version + 1,
            None => 1,
        };
        match apply(
            &self.operation,
            existing,
            &schema,
            current_indices,
            fragment_id,
            next_row_id,
            version,
            numbers,
        ) {
            Err(e) => Err(e),
            Ok(content) => Ok(
                ManifestPlan {
                    schema,
                    fragments: sort_fragments(content.fragments),
                    indices: content.indices,
                    next_row_id: content.next_row_id,
                    mem_wal: plan_mem_wal(self, new_version, current_manifest),
                },
            ),
        }
    }
}

} // verus!
