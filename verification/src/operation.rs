//! Operations: the changes that a transaction makes to a dataset.

use vstd::prelude::*;
use vstd::multiset::Multiset;
use crate::assoc::AssocMap;
use crate::assoc::Item;
use crate::assoc::StringMap;
use crate::format::DataFile;
use crate::format::DataFileModel;
use crate::format::Fragment;
use crate::format::FragmentModel;
use crate::format::Index;
use crate::format::IndexModel;
use crate::format::MemWal;
use crate::format::MemWalModel;
use crate::ids::Uuid;
use crate::items::compare_vec;
use crate::items::copy_all;
use crate::items::copy_opt;
use crate::items::copy_opt_all;
use crate::items::count_in;
use crate::items::counts_match;
use crate::items::holds;
use crate::items::lemma_count_in;
use crate::items::lemma_counts_match;
use crate::items::opt_views;
use crate::items::same_opt;
use crate::items::same_values;
use crate::schema::Schema;
use crate::schema::SchemaModel;
use crate::seqs::opt_view;
use crate::seqs::views;

verus! {

/// What a transaction did to the dataset of large binary values.
#[derive(Debug, Clone, Copy, PartialEq, Eq, Structural)]
pub enum BlobsOperation {
    /// It was not modified.
    Unchanged,
    /// It was modified, and this is its new version.
    Updated(u64),
}

/// A data file that replaces the data of some columns of a fragment: the id of the
/// fragment and the file.
#[derive(Debug)]
pub struct DataReplacementGroup(pub u64, pub DataFile);

/// An index that was rewritten, under a new id.
#[derive(Debug, Clone, Copy, PartialEq, Eq, Structural)]
pub struct RewrittenIndex {
    pub old_id: Uuid,
    pub new_id: Uuid,
}

/// Fragments that were replaced, and those that replace them.
#[derive(Debug)]
pub struct RewriteGroup {
    pub old_fragments: Vec<Fragment>,
    pub new_fragments: Vec<Fragment>,
}

/// Metadata of fields, by the ids of the fields.
pub type FieldMetadata = AssocMap<u32, StringMap>;

/// An operation on a dataset.
#[derive(Debug)]
pub enum Operation {
    /// New fragments are added. They have no final id yet.
    Append { fragments: Vec<Fragment> },
    /// Rows are deleted. The updated fragments have new deletion files, the deleted
    /// ones leave the dataset.
    Delete {
        updated_fragments: Vec<Fragment>,
        deleted_fragment_ids: Vec<u64>,
        predicate: String,
    },
    /// The dataset is overwritten, or made.
    Overwrite {
        fragments: Vec<Fragment>,
        schema: Schema,
        config_upsert_values: Option<StringMap>,
    },
    /// Indices are made, or removed.
    CreateIndex { new_indices: Vec<Index>, removed_indices: Vec<Index> },
    /// Data is rewritten but not modified, such as by a compaction. Row addresses
    /// change, so indices over rewritten fragments have to be remapped.
    Rewrite {
        groups: Vec<RewriteGroup>,
        rewritten_indices: Vec<RewrittenIndex>,
        frag_reuse_index: Option<Index>,
    },
    /// The data of some columns is replaced by new files.
    DataReplacement { replacements: Vec<DataReplacementGroup> },
    /// Columns are merged in.
    Merge { fragments: Vec<Fragment>, schema: Schema },
    /// An old version is restored.
    Restore { version: u64 },
    /// Fragment ids are reserved.
    ReserveFragments { num_fragments: u32 },
    /// Values are updated.
    Update {
        removed_fragment_ids: Vec<u64>,
        updated_fragments: Vec<Fragment>,
        new_fragments: Vec<Fragment>,
        /// The ids of the fields that were modified.
        fields_modified: Vec<u32>,
        /// The log, as it was, that counts as flushed after the transaction.
        mem_wal_to_flush: Option<MemWal>,
    },
    /// The schema is replaced; the data stays.
    Project { schema: Schema },
    /// The configuration is updated.
    UpdateConfig {
        upsert_values: Option<StringMap>,
        delete_keys: Option<Vec<String>>,
        schema_metadata: Option<StringMap>,
        field_metadata: Option<FieldMetadata>,
    },
    /// The state of write-ahead logs is updated.
    UpdateMemWalState { added: Vec<MemWal>, updated: Vec<MemWal>, removed: Vec<MemWal> },
}

/// A rewrite group as a mathematical value.
pub struct RewriteGroupModel {
    pub old_fragments: Seq<FragmentModel>,
    pub new_fragments: Seq<FragmentModel>,
}

/// An operation as a mathematical value.
pub enum OperationModel {
    Append { fragments: Seq<FragmentModel> },
    Delete {
        updated_fragments: Seq<FragmentModel>,
        deleted_fragment_ids: Seq<u64>,
        predicate: Seq<char>,
    },
    Overwrite {
        fragments: Seq<FragmentModel>,
        schema: SchemaModel,
        config_upsert_values: Option<Map<Seq<char>, Seq<char>>>,
    },
    CreateIndex { new_indices: Seq<IndexModel>, removed_indices: Seq<IndexModel> },
    Rewrite {
        groups: Seq<RewriteGroupModel>,
        rewritten_indices: Seq<RewrittenIndex>,
        frag_reuse_index: Option<IndexModel>,
    },
    DataReplacement { replacements: Seq<(u64, DataFileModel)> },
    Merge { fragments: Seq<FragmentModel>, schema: SchemaModel },
    Restore { version: u64 },
    ReserveFragments { num_fragments: u32 },
    Update {
        removed_fragment_ids: Seq<u64>,
        updated_fragments: Seq<FragmentModel>,
        new_fragments: Seq<FragmentModel>,
        fields_modified: Seq<u32>,
        mem_wal_to_flush: Option<MemWalModel>,
    },
    Project { schema: SchemaModel },
    UpdateConfig {
        upsert_values: Option<Map<Seq<char>, Seq<char>>>,
        delete_keys: Option<Seq<Seq<char>>>,
        schema_metadata: Option<Map<Seq<char>, Seq<char>>>,
        field_metadata: Option<Map<u32, Map<Seq<char>, Seq<char>>>>,
    },
    UpdateMemWalState {
        added: Seq<MemWalModel>,
        updated: Seq<MemWalModel>,
        removed: Seq<MemWalModel>,
    },
}

impl View for DataReplacementGroup {
    type V = (u64, DataFileModel);

    open spec fn view(&self) -> (u64, DataFileModel) {
        (self.0, self.1@)
    }
}

impl View for RewrittenIndex {
    type V = RewrittenIndex;

    open spec fn view(&self) -> RewrittenIndex {
        *self
    }
}

impl View for RewriteGroup {
    type V = RewriteGroupModel;

    open spec fn view(&self) -> RewriteGroupModel {
        RewriteGroupModel {
            old_fragments: views(self.old_fragments@),
            new_fragments: views(self.new_fragments@),
        }
    }
}

impl View for Operation {
    type V = OperationModel;

    open spec fn view(&self) -> OperationModel {
        match self {
            Operation::Append { fragments } => OperationModel::Append {
                fragments: views(fragments@),
            },
            Operation::Delete { updated_fragments, deleted_fragment_ids, predicate } => {
                OperationModel::Delete {
                    updated_fragments: views(updated_fragments@),
                    deleted_fragment_ids: views(deleted_fragment_ids@),
                    predicate: predicate@,
                }
            },
            Operation::Overwrite { fragments, schema, config_upsert_values } => {
                OperationModel::Overwrite {
                    fragments: views(fragments@),
                    schema: schema@,
                    config_upsert_values: opt_view(*config_upsert_values),
                }
            },
            Operation::CreateIndex { new_indices, removed_indices } => OperationModel::CreateIndex {
                new_indices: views(new_indices@),
                removed_indices: views(removed_indices@),
            },
            Operation::Rewrite { groups, rewritten_indices, frag_reuse_index } => {
                OperationModel::Rewrite {
                    groups: views(groups@),
                    rewritten_indices: views(rewritten_indices@),
                    frag_reuse_index: opt_view(*frag_reuse_index),
                }
            },
            Operation::DataReplacement { replacements } => OperationModel::DataReplacement {
                replacements: views(replacements@),
            },
            Operation::Merge { fragments, schema } => OperationModel::Merge {
                fragments: views(fragments@),
                schema: schema@,
            },
            Operation::Restore { version } => OperationModel::Restore { version: *version },
            Operation::ReserveFragments { num_fragments } => OperationModel::ReserveFragments {
                num_fragments: *num_fragments,
            },
            Operation::Update {
                removed_fragment_ids,
                updated_fragments,
                new_fragments,
                fields_modified,
                mem_wal_to_flush,
            } => OperationModel::Update {
                removed_fragment_ids: views(removed_fragment_ids@),
                updated_fragments: views(updated_fragments@),
                new_fragments: views(new_fragments@),
                fields_modified: views(fields_modified@),
                mem_wal_to_flush: opt_view(*mem_wal_to_flush),
            },
            Operation::Project { schema } => OperationModel::Project { schema: schema@ },
            Operation::UpdateConfig {
                upsert_values,
                delete_keys,
                schema_metadata,
                field_metadata,
            } => OperationModel::UpdateConfig {
                upsert_values: opt_view(*upsert_values),
                delete_keys: opt_views(*delete_keys),
                schema_metadata: opt_view(*schema_metadata),
                field_metadata: opt_view(*field_metadata),
            },
            Operation::UpdateMemWalState { added, updated, removed } => {
                OperationModel::UpdateMemWalState {
                    added: views(added@),
                    updated: views(updated@),
                    removed: views(removed@),
                }
            },
        }
    }
}

impl Item for DataReplacementGroup {
    fn copied(&self) -> (r: Self) {
        DataReplacementGroup(self.0, self.1.copied())
    }

    fn same(&self, other: &Self) -> (r: bool) {
        self.0 == other.0 && self.1.same(&other.1)
    }
}

impl Item for RewrittenIndex {
    fn copied(&self) -> (r: Self) {
        *self
    }

    fn same(&self, other: &Self) -> (r: bool) {
        *self == *other
    }
}

/// Copies rewrite groups.
pub fn copy_groups(groups: &Vec<RewriteGroup>) -> (r: Vec<RewriteGroup>)
    ensures
        views(r@) == views(groups@),
{
    let mut out: Vec<RewriteGroup> = Vec::new();
    let mut i: usize = 0;
    while i < groups.len()
        invariant
            i <= groups@.len(),
            out@.len() == i,
            forall|j: int| 0 <= j < i ==> (#[trigger] out@[j])@ == groups@[j]@,
        decreases groups@.len() - i,
    {
        out.push(
            RewriteGroup {
                old_fragments: copy_all(&groups[i].old_fragments),
                new_fragments: copy_all(&groups[i].new_fragments),
            },
        );
        i += 1;
    }
    assert(views(out@) =~= views(groups@));
    out
}

impl Clone for DataReplacementGroup {
    fn clone(&self) -> (r: Self)
        ensures
            r@ == self@,
    {
        self.copied()
    }
}

impl PartialEq for DataReplacementGroup {
    fn eq(&self, other: &Self) -> (r: bool) {
        self.same(other)
    }
}

impl vstd::std_specs::cmp::PartialEqSpecImpl for DataReplacementGroup {
    open spec fn obeys_eq_spec() -> bool {
        true
    }

    open spec fn eq_spec(&self, other: &Self) -> bool {
        self@ == other@
    }
}

impl Clone for RewriteGroup {
    fn clone(&self) -> (r: Self)
        ensures
            r@ == self@,
    {
        RewriteGroup {
            old_fragments: copy_all(&self.old_fragments),
            new_fragments: copy_all(&self.new_fragments),
        }
    }
}

/// What a rewrite group replaces by what, whatever the order.
pub open spec fn group_content(g: RewriteGroupModel) -> (
    Multiset<FragmentModel>,
    Multiset<FragmentModel>,
) {
    (g.old_fragments.to_multiset(), g.new_fragments.to_multiset())
}

/// Whether two rewrite groups replace the same fragments by the same, in any order.
pub open spec fn same_group(a: RewriteGroupModel, b: RewriteGroupModel) -> bool {
    group_content(a) == group_content(b)
}

/// What rewrite groups replace by what.
pub open spec fn group_contents(groups: Seq<RewriteGroupModel>) -> Seq<
    (Multiset<FragmentModel>, Multiset<FragmentModel>),
> {
    Seq::new(groups.len(), |i: int| group_content(groups[i]))
}

/// Whether two lists hold the same rewrite groups, each as often, whatever the order of
/// the groups and of the fragments in them.
pub open spec fn same_groups(a: Seq<RewriteGroupModel>, b: Seq<RewriteGroupModel>) -> bool {
    same_values(group_contents(a), group_contents(b))
}

/// Two rewrite groups are equal where the order of fragments is all that differs.
impl PartialEq for RewriteGroup {
    fn eq(&self, other: &Self) -> (r: bool) {
        compare_vec(&self.old_fragments, &other.old_fragments) && compare_vec(
            &self.new_fragments,
            &other.new_fragments,
        )
    }
}

impl vstd::std_specs::cmp::PartialEqSpecImpl for RewriteGroup {
    open spec fn obeys_eq_spec() -> bool {
        true
    }

    open spec fn eq_spec(&self, other: &Self) -> bool {
        same_group(self@, other@)
    }
}

fn count_groups(groups: &Vec<RewriteGroup>, g: &RewriteGroup) -> (r: usize)
    ensures
        r == count_in(group_contents(views(groups@)), group_content(g@)),
{
    let ghost all = group_contents(views(groups@));
    let mut n: usize = 0;
    let mut i: usize = 0;
    while i < groups.len()
        invariant
            i <= groups@.len(),
            n <= i,
            all == group_contents(views(groups@)),
            n == count_in(all.take(i as int), group_content(g@)),
        decreases groups@.len() - i,
    {
        assert(all.take(i + 1).drop_last() =~= all.take(i as int));
        assert(all.take(i + 1).last() == group_content(groups@[i as int]@));
        if groups[i] == *g {
            n += 1;
        }
        i += 1;
    }
    assert(all.take(all.len() as int) =~= all);
    n
}

fn group_counts_agree(a: &Vec<RewriteGroup>, b: &Vec<RewriteGroup>) -> (r: bool)
    ensures
        r == counts_match(group_contents(views(a@)), group_contents(views(b@))),
{
    let ghost x = group_contents(views(a@));
    let ghost y = group_contents(views(b@));
    let mut i: usize = 0;
    while i < a.len()
        invariant
            i <= a@.len(),
            x == group_contents(views(a@)),
            y == group_contents(views(b@)),
            forall|j: int| 0 <= j < i ==> count_in(x, #[trigger] x[j]) == count_in(y, x[j]),
        decreases a@.len() - i,
    {
        assert(x[i as int] == group_content(a@[i as int]@));
        if count_groups(a, &a[i]) != count_groups(b, &a[i]) {
            return false;
        }
        i += 1;
    }
    true
}

fn compare_groups(a: &Vec<RewriteGroup>, b: &Vec<RewriteGroup>) -> (r: bool)
    ensures
        r == same_groups(views(a@), views(b@)),
{
    proof {
        lemma_counts_match(group_contents(views(a@)), group_contents(views(b@)));
    }
    group_counts_agree(a, b) && group_counts_agree(b, a)
}

/// Whether two lists of keys hold the same keys, each as often, in any order.
pub open spec fn same_keys(a: Option<Seq<Seq<char>>>, b: Option<Seq<Seq<char>>>) -> bool {
    match (a, b) {
        (Some(x), Some(y)) => same_values(x, y),
        (None, None) => true,
        _ => false,
    }
}

fn compare_keys(a: &Option<Vec<String>>, b: &Option<Vec<String>>) -> (r: bool)
    ensures
        r == same_keys(opt_views(*a), opt_views(*b)),
{
    match (a, b) {
        (Some(x), Some(y)) => compare_vec(x, y),
        (None, None) => true,
        _ => false,
    }
}

/// Whether two operations are the same. The order in lists does not matter, but how
/// often they hold a value does; the metadata of schemas does not matter.
pub open spec fn same_operation(a: OperationModel, b: OperationModel) -> bool {
    match (a, b) {
        (OperationModel::Append { fragments: x }, OperationModel::Append { fragments: y }) => {
            same_values(x, y)
        },
        (
            OperationModel::Delete { updated_fragments: u, deleted_fragment_ids: d, predicate: p },
            OperationModel::Delete { updated_fragments: v, deleted_fragment_ids: e, predicate: q },
        ) => same_values(u, v) && same_values(d, e) && p == q,
        (
            OperationModel::Overwrite { fragments: x, schema: s, config_upsert_values: c },
            OperationModel::Overwrite { fragments: y, schema: t, config_upsert_values: d },
        ) => same_values(x, y) && s.fields == t.fields && c == d,
        (
            OperationModel::CreateIndex { new_indices: x, removed_indices: u },
            OperationModel::CreateIndex { new_indices: y, removed_indices: v },
        ) => same_values(x, y) && same_values(u, v),
        (
            OperationModel::Rewrite { groups: g, rewritten_indices: x, frag_reuse_index: i },
            OperationModel::Rewrite { groups: h, rewritten_indices: y, frag_reuse_index: j },
        ) => same_groups(g, h) && same_values(x, y) && i == j,
        (
            OperationModel::DataReplacement { replacements: x },
            OperationModel::DataReplacement { replacements: y },
        ) => same_values(x, y),
        (
            OperationModel::Merge { fragments: x, schema: s },
            OperationModel::Merge { fragments: y, schema: t },
        ) => same_values(x, y) && s.fields == t.fields,
        (OperationModel::Restore { version: x }, OperationModel::Restore { version: y }) => x == y,
        (
            OperationModel::ReserveFragments { num_fragments: x },
            OperationModel::ReserveFragments { num_fragments: y },
        ) => x == y,
        (
            OperationModel::Update {
                removed_fragment_ids: r,
                updated_fragments: u,
                new_fragments: n,
                fields_modified: f,
                mem_wal_to_flush: w,
            },
            OperationModel::Update {
                removed_fragment_ids: r2,
                updated_fragments: u2,
                new_fragments: n2,
                fields_modified: f2,
                mem_wal_to_flush: w2,
            },
        ) => {
            &&& same_values(r, r2)
            &&& same_values(u, u2)
            &&& same_values(n, n2)
            &&& same_values(f, f2)
            &&& w == w2
        },
        (OperationModel::Project { schema: s }, OperationModel::Project { schema: t }) => s.fields
            == t.fields,
        (
            OperationModel::UpdateConfig {
                upsert_values: u,
                delete_keys: d,
                schema_metadata: s,
                field_metadata: f,
            },
            OperationModel::UpdateConfig {
                upsert_values: u2,
                delete_keys: d2,
                schema_metadata: s2,
                field_metadata: f2,
            },
        ) => u == u2 && same_keys(d, d2) && s == s2 && f == f2,
        (
            OperationModel::UpdateMemWalState { added: a, updated: u, removed: r },
            OperationModel::UpdateMemWalState { added: a2, updated: u2, removed: r2 },
        ) => same_values(a, a2) && same_values(u, u2) && same_values(r, r2),
        _ => false,
    }
}

/// Two operations are equal where the order in their lists is all that differs.
impl PartialEq for Operation {
    fn eq(&self, other: &Self) -> (r: bool) {
        match (self, other) {
            (Operation::Append { fragments: a }, Operation::Append { fragments: b }) => {
                compare_vec(a, b)
            },
            (
                Operation::Delete {
                    updated_fragments: a_updated,
                    deleted_fragment_ids: a_deleted,
                    predicate: a_predicate,
                },
                Operation::Delete {
                    updated_fragments: b_updated,
                    deleted_fragment_ids: b_deleted,
                    predicate: b_predicate,
                },
            ) => compare_vec(a_updated, b_updated) && compare_vec(a_deleted, b_deleted)
                && *a_predicate == *b_predicate,
            (
                Operation::Overwrite {
                    fragments: a_fragments,
                    schema: a_schema,
                    config_upsert_values: a_config,
                },
                Operation::Overwrite {
                    fragments: b_fragments,
                    schema: b_schema,
                    config_upsert_values: b_config,
                },
            ) => compare_vec(a_fragments, b_fragments) && *a_schema == *b_schema && same_opt(
                a_config,
                b_config,
            ),
            (
                Operation::CreateIndex { new_indices: a_new, removed_indices: a_removed },
                Operation::CreateIndex { new_indices: b_new, removed_indices: b_removed },
            ) => compare_vec(a_new, b_new) && compare_vec(a_removed, b_removed),
            (
                Operation::Rewrite {
                    groups: a_groups,
                    rewritten_indices: a_indices,
                    frag_reuse_index: a_frag_reuse_index,
                },
                Operation::Rewrite {
                    groups: b_groups,
                    rewritten_indices: b_indices,
                    frag_reuse_index: b_frag_reuse_index,
                },
            ) => compare_groups(a_groups, b_groups) && compare_vec(a_indices, b_indices)
                && same_opt(a_frag_reuse_index, b_frag_reuse_index),
            (
                Operation::DataReplacement { replacements: a },
                Operation::DataReplacement { replacements: b },
            ) => compare_vec(a, b),
            (
                Operation::Merge { fragments: a_fragments, schema: a_schema },
                Operation::Merge { fragments: b_fragments, schema: b_schema },
            ) => compare_vec(a_fragments, b_fragments) && *a_schema == *b_schema,
            (Operation::Restore { version: a }, Operation::Restore { version: b }) => *a == *b,
            (
                Operation::ReserveFragments { num_fragments: a },
                Operation::ReserveFragments { num_fragments: b },
            ) => *a == *b,
            (
                Operation::Update {
                    removed_fragment_ids: a_removed,
                    updated_fragments: a_updated,
                    new_fragments: a_new,
                    fields_modified: a_fields,
                    mem_wal_to_flush: a_mem_wal_to_flush,
                },
                Operation::Update {
                    removed_fragment_ids: b_removed,
                    updated_fragments: b_updated,
                    new_fragments: b_new,
                    fields_modified: b_fields,
                    mem_wal_to_flush: b_mem_wal_to_flush,
                },
            ) => compare_vec(a_removed, b_removed) && compare_vec(a_updated, b_updated)
                && compare_vec(a_new, b_new) && compare_vec(a_fields, b_fields) && same_opt(
                a_mem_wal_to_flush,
                b_mem_wal_to_flush,
            ),
            (Operation::Project { schema: a }, Operation::Project { schema: b }) => *a == *b,
            (
                Operation::UpdateConfig {
                    upsert_values: a_upsert,
                    delete_keys: a_delete,
                    schema_metadata: a_schema,
                    field_metadata: a_field,
                },
                Operation::UpdateConfig {
                    upsert_values: b_upsert,
                    delete_keys: b_delete,
                    schema_metadata: b_schema,
                    field_metadata: b_field,
                },
            ) => same_opt(a_upsert, b_upsert) && compare_keys(a_delete, b_delete) && same_opt(
                a_schema,
                b_schema,
            ) && same_opt(a_field, b_field),
            (
                Operation::UpdateMemWalState {
                    added: a_added,
                    updated: a_updated,
                    removed: a_removed,
                },
                Operation::UpdateMemWalState {
                    added: b_added,
                    updated: b_updated,
                    removed: b_removed,
                },
            ) => compare_vec(a_added, b_added) && compare_vec(a_updated, b_updated) && compare_vec(
                a_removed,
                b_removed,
            ),
            _ => false,
        }
    }
}

impl vstd::std_specs::cmp::PartialEqSpecImpl for Operation {
    open spec fn obeys_eq_spec() -> bool {
        true
    }

    open spec fn eq_spec(&self, other: &Self) -> bool {
        same_operation(self@, other@)
    }
}

impl Clone for Operation {
    fn clone(&self) -> (r: Self)
        ensures
            r@ == self@,
    {
        match self {
            Operation::Append { fragments } => Operation::Append { fragments: copy_all(fragments) },
            Operation::Delete { updated_fragments, deleted_fragment_ids, predicate } => {
                Operation::Delete {
                    updated_fragments: copy_all(updated_fragments),
                    deleted_fragment_ids: copy_all(deleted_fragment_ids),
                    predicate: predicate.clone(),
                }
            },
            Operation::Overwrite { fragments, schema, config_upsert_values } => {
                Operation::Overwrite {
                    fragments: copy_all(fragments),
                    schema: schema.clone(),
                    config_upsert_values: copy_opt(config_upsert_values),
                }
            },
            Operation::CreateIndex { new_indices, removed_indices } => Operation::CreateIndex {
                new_indices: copy_all(new_indices),
                removed_indices: copy_all(removed_indices),
            },
            Operation::Rewrite { groups, rewritten_indices, frag_reuse_index } => {
                Operation::Rewrite {
                    groups: copy_groups(groups),
                    rewritten_indices: copy_all(rewritten_indices),
                    frag_reuse_index: copy_opt(frag_reuse_index),
                }
            },
            Operation::DataReplacement { replacements } => Operation::DataReplacement {
                replacements: copy_all(replacements),
            },
            Operation::Merge { fragments, schema } => Operation::Merge {
                fragments: copy_all(fragments),
                schema: schema.clone(),
            },
            Operation::Restore { version } => Operation::Restore { version: *version },
            Operation::ReserveFragments { num_fragments } => Operation::ReserveFragments {
                num_fragments: *num_fragments,
            },
            Operation::Update {
                removed_fragment_ids,
                updated_fragments,
                new_fragments,
                fields_modified,
                mem_wal_to_flush,
            } => Operation::Update {
                removed_fragment_ids: copy_all(removed_fragment_ids),
                updated_fragments: copy_all(updated_fragments),
                new_fragments: copy_all(new_fragments),
                fields_modified: copy_all(fields_modified),
                mem_wal_to_flush: copy_opt(mem_wal_to_flush),
            },
            Operation::Project { schema } => Operation::Project { schema: schema.clone() },
            Operation::UpdateConfig {
                upsert_values,
                delete_keys,
                schema_metadata,
                field_metadata,
            } => Operation::UpdateConfig {
                upsert_values: copy_opt(upsert_values),
                delete_keys: copy_opt_all(delete_keys),
                schema_metadata: copy_opt(schema_metadata),
                field_metadata: copy_opt(field_metadata),
            },
            Operation::UpdateMemWalState { added, updated, removed } => {
                Operation::UpdateMemWalState {
                    added: copy_all(added),
                    updated: copy_all(updated),
                    removed: copy_all(removed),
                }
            },
        }
    }
}

impl OperationModel {
    /// The name of the operation.
    pub open spec fn name(self) -> Seq<char> {
        match self {
            OperationModel::Append { .. } => "Append"@,
            OperationModel::Delete { .. } => "Delete"@,
            OperationModel::Overwrite { .. } => "Overwrite"@,
            OperationModel::CreateIndex { .. } => "CreateIndex"@,
            OperationModel::Rewrite { .. } => "Rewrite"@,
            OperationModel::DataReplacement { .. } => "DataReplacement"@,
            OperationModel::Merge { .. } => "Merge"@,
            OperationModel::Restore { .. } => "Restore"@,
            OperationModel::ReserveFragments { .. } => "ReserveFragments"@,
            OperationModel::Update { .. } => "Update"@,
            OperationModel::Project { .. } => "Project"@,
            OperationModel::UpdateConfig { .. } => "UpdateConfig"@,
            OperationModel::UpdateMemWalState { .. } => "UpdateMemWalState"@,
        }
    }

    /// The configuration keys that the operation deletes.
    pub open spec fn deleted_keys(self) -> Seq<Seq<char>> {
        match self {
            OperationModel::UpdateConfig { delete_keys: Some(keys), .. } => keys,
            _ => Seq::empty(),
        }
    }

    /// Whether the operation sets a configuration key.
    pub open spec fn upserts(self, key: Seq<char>) -> bool {
        match self {
            OperationModel::Overwrite { config_upsert_values: Some(m), .. } => m.contains_key(key),
            OperationModel::UpdateConfig { upsert_values: Some(m), .. } => m.contains_key(key),
            _ => false,
        }
    }

    /// Whether the operation deletes a configuration key.
    pub open spec fn deletes(self, key: Seq<char>) -> bool {
        match self {
            OperationModel::UpdateConfig { delete_keys: Some(keys), .. } => keys.contains(key),
            _ => false,
        }
    }

    /// Whether the operation replaces the metadata of the schema.
    pub open spec fn sets_schema_metadata(self) -> bool {
        match self {
            OperationModel::UpdateConfig { schema_metadata: Some(_), .. } => true,
            _ => false,
        }
    }

    /// Whether the operation replaces the metadata of a field.
    pub open spec fn sets_field_metadata(self, field: u32) -> bool {
        match self {
            OperationModel::UpdateConfig { field_metadata: Some(m), .. } => m.contains_key(field),
            _ => false,
        }
    }

    /// Whether one of two operations sets a configuration key that the other sets or
    /// deletes.
    pub open spec fn key_conflict(self, other: OperationModel) -> bool {
        exists|key: Seq<char>|
            {
                ||| #[trigger] self.upserts(key) && (other.upserts(key) || other.deletes(key))
                ||| other.upserts(key) && self.deletes(key)
            }
    }

    /// Whether two operations both replace the metadata of the schema, or of the same
    /// field.
    pub open spec fn metadata_conflict(self, other: OperationModel) -> bool {
        ||| self.sets_schema_metadata() && other.sets_schema_metadata()
        ||| exists|field: u32| #[trigger]
            self.sets_field_metadata(field) && other.sets_field_metadata(field)
    }
}

impl Operation {
    /// The configuration keys that the operation sets, each once. The order is that in
    /// which the map lists them.
    pub fn get_upsert_config_keys(&self) -> (r: Vec<String>)
        ensures
            views(r@).no_duplicates(),
            forall|k: Seq<char>| #[trigger] views(r@).contains(k) <==> self@.upserts(k),
    {
        match self {
            Operation::Overwrite { config_upsert_values: Some(values), .. } => values.keys(),
            Operation::UpdateConfig { upsert_values: Some(values), .. } => values.keys(),
            _ => {
                let none: Vec<String> = Vec::new();
                none
            },
        }
    }

    /// The configuration keys that the operation deletes, as they are listed.
    pub fn get_delete_config_keys(&self) -> (r: Vec<String>)
        ensures
            views(r@) == self@.deleted_keys(),
            forall|k: Seq<char>| #[trigger] views(r@).contains(k) <==> self@.deletes(k),
    {
        match self {
            Operation::UpdateConfig { delete_keys: Some(keys), .. } => copy_all(keys),
            _ => {
                let none: Vec<String> = Vec::new();
                assert(views(none@) =~= Seq::<Seq<char>>::empty());
                none
            },
        }
    }

    /// Whether this operation and another replace the same metadata.
    pub fn modifies_same_metadata(&self, other: &Operation) -> (r: bool)
        ensures
            r == self@.metadata_conflict(other@),
    {
        match (self, other) {
            (
                Operation::UpdateConfig { schema_metadata, field_metadata, .. },
                Operation::UpdateConfig {
                    schema_metadata: other_schema_metadata,
                    field_metadata: other_field_metadata,
                    ..
                },
            ) => {
                if schema_metadata.is_some() && other_schema_metadata.is_some() {
                    return true;
                }
                match (field_metadata, other_field_metadata) {
                    (Some(ours), Some(theirs)) => {
                        let keys = ours.keys();
                        let mut i: usize = 0;
                        while i < keys.len()
                            invariant
                                i <= keys@.len(),
                                forall|j: int|
                                    0 <= j < i ==> !theirs@.contains_key(
                                        #[trigger] views(keys@)[j],
                                    ),
                                forall|k: u32| #[trigger]
                                    views(keys@).contains(k) <==> ours@.contains_key(k),
                                self@.sets_schema_metadata() && other@.sets_schema_metadata()
                                    ==> false,
                                forall|k: u32| #[trigger]
                                    self@.sets_field_metadata(k) <==> ours@.contains_key(k),
                                forall|k: u32| #[trigger]
                                    other@.sets_field_metadata(k) <==> theirs@.contains_key(k),
                            decreases keys@.len() - i,
                        {
                            assert(views(keys@)[i as int] == keys@[i as int]@);
                            assert(views(keys@).contains(views(keys@)[i as int]));
                            if theirs.contains_key(&keys[i]) {
                                assert(self@.sets_field_metadata(keys@[i as int]));
                                return true;
                            }
                            i += 1;
                        }
                        assert forall|field: u32| #[trigger]
                            self@.sets_field_metadata(field) implies !other@.sets_field_metadata(
                            field,
                        ) by {
                            assert(views(keys@).contains(field));
                            let j = choose|j: int|
                                0 <= j < views(keys@).len() && views(keys@)[j] == field;
                            assert(!theirs@.contains_key(views(keys@)[j]));
                        }
                        false
                    },
                    _ => false,
                }
            },
            _ => false,
        }
    }

    /// Whether this operation or another sets a configuration key that the other one
    /// sets or deletes.
    pub fn upsert_key_conflict(&self, other: &Operation) -> (r: bool)
        ensures
            r == self@.key_conflict(other@),
    {
        let self_upsert_keys = self.get_upsert_config_keys();
        let other_upsert_keys = other.get_upsert_config_keys();
        let self_delete_keys = self.get_delete_config_keys();
        let other_delete_keys = other.get_delete_config_keys();
        let forth = any_in(&self_upsert_keys, &other_upsert_keys, &other_delete_keys);
        let back = any_in(&other_upsert_keys, &self_upsert_keys, &self_delete_keys);
        proof {
            let su = views(self_upsert_keys@);
            let ou = views(other_upsert_keys@);
            let sd = views(self_delete_keys@);
            let od = views(other_delete_keys@);
            if forth {
                let k = choose|k: Seq<char>| #[trigger] su.contains(k) && (ou.contains(k)
                    || od.contains(k));
                assert(self@.upserts(k));
            }
            if back {
                let k = choose|k: Seq<char>| #[trigger] ou.contains(k) && (su.contains(k)
                    || sd.contains(k));
                assert(other@.upserts(k));
                assert(self@.upserts(k) || !self@.upserts(k));
            }
            if self@.key_conflict(other@) {
                let k = choose|k: Seq<char>|
                    {
                        ||| #[trigger] self@.upserts(k) && (other@.upserts(k) || other@.deletes(k))
                        ||| other@.upserts(k) && self@.deletes(k)
                    };
                assert(su.contains(k) <==> self@.upserts(k));
                assert(ou.contains(k) <==> other@.upserts(k));
                assert(sd.contains(k) <==> self@.deletes(k));
                assert(od.contains(k) <==> other@.deletes(k));
            }
        }
        forth || back
    }

    /// The name of the operation.
    pub fn name(&self) -> (r: &str)
        ensures
            r@ == self@.name(),
    {
        match self {
            Operation::Append { .. } => "Append",
            Operation::Delete { .. } => "Delete",
            Operation::Overwrite { .. } => "Overwrite",
            Operation::CreateIndex { .. } => "CreateIndex",
            Operation::Rewrite { .. } => "Rewrite",
            Operation::DataReplacement { .. } => "DataReplacement",
            Operation::Merge { .. } => "Merge",
            Operation::Restore { .. } => "Restore",
            Operation::ReserveFragments { .. } => "ReserveFragments",
            Operation::Update { .. } => "Update",
            Operation::Project { .. } => "Project",
            Operation::UpdateConfig { .. } => "UpdateConfig",
            Operation::UpdateMemWalState { .. } => "UpdateMemWalState",
        }
    }
}

/// Whether one of some texts is among others.
fn any_in(texts: &Vec<String>, a: &Vec<String>, b: &Vec<String>) -> (r: bool)
    ensures
        r == (exists|k: Seq<char>| #[trigger]
            views(texts@).contains(k) && (views(a@).contains(k) || views(b@).contains(k))),
{
    let ghost all = views(texts@);
    let mut i: usize = 0;
    while i < texts.len()
        invariant
            i <= texts@.len(),
            all == views(texts@),
            forall|j: int|
                0 <= j < i ==> !views(a@).contains(#[trigger] all[j]) && !views(b@).contains(
                    all[j],
                ),
        decreases texts@.len() - i,
    {
        assert(all[i as int] == texts@[i as int]@);
        if holds(a.as_slice(), &texts[i]) || holds(b.as_slice(), &texts[i]) {
            assert(all.contains(all[i as int]));
            return true;
        }
        i += 1;
    }
    assert forall|k: Seq<char>| #[trigger] all.contains(k) implies !views(a@).contains(k)
        && !views(b@).contains(k) by {
        let j = choose|j: int| 0 <= j < all.len() && all[j] == k;
        assert(!views(a@).contains(all[j]));
    }
    false
}

// Laws.

/// Conflicts over configuration keys and over metadata do not depend on which of two
/// operations comes first.
pub proof fn conflicts_are_mutual(a: OperationModel, b: OperationModel)
    ensures
        a.key_conflict(b) == b.key_conflict(a),
        a.metadata_conflict(b) == b.metadata_conflict(a),
{
    if a.key_conflict(b) {
        let k = choose|k: Seq<char>|
            {
                ||| #[trigger] a.upserts(k) && (b.upserts(k) || b.deletes(k))
                ||| b.upserts(k) && a.deletes(k)
            };
        assert(b.upserts(k) || !b.upserts(k));
    }
    if b.key_conflict(a) {
        let k = choose|k: Seq<char>|
            {
                ||| #[trigger] b.upserts(k) && (a.upserts(k) || a.deletes(k))
                ||| a.upserts(k) && b.deletes(k)
            };
        assert(a.upserts(k) || !a.upserts(k));
    }
    if exists|f: u32| #[trigger] a.sets_field_metadata(f) && b.sets_field_metadata(f) {
        let f = choose|f: u32| #[trigger] a.sets_field_metadata(f) && b.sets_field_metadata(f);
        assert(b.sets_field_metadata(f));
    }
    if exists|f: u32| #[trigger] b.sets_field_metadata(f) && a.sets_field_metadata(f) {
        let f = choose|f: u32| #[trigger] b.sets_field_metadata(f) && a.sets_field_metadata(f);
        assert(a.sets_field_metadata(f));
    }
}

/// Equality of operations is an equivalence: an operation equals itself, two operations
/// are equal in both directions or in none, and two that equal a third are equal.
/// Operations of different kinds are never equal.
pub proof fn equality_of_operations(a: OperationModel, b: OperationModel, c: OperationModel)
    ensures
        same_operation(a, a),
        same_operation(a, b) == same_operation(b, a),
        same_operation(a, b) && same_operation(b, c) ==> same_operation(a, c),
        same_operation(a, b) ==> a.name() == b.name(),
{
}

/// Lists that differ in how often they hold a value are not the same, and lists of
/// different lengths are not.
pub proof fn only_order_is_ignored<T>(a: Seq<T>, b: Seq<T>, x: T)
    requires
        same_values(a, b),
    ensures
        a.len() == b.len(),
        count_in(a, x) == count_in(b, x),
        a.contains(x) <==> b.contains(x),
{
    a.to_multiset_ensures();
    b.to_multiset_ensures();
    lemma_count_in(a, x);
    lemma_count_in(b, x);
    assert(a.contains(x) <==> a.to_multiset().count(x) > 0);
    assert(b.contains(x) <==> b.to_multiset().count(x) > 0);
}

} // verus!
