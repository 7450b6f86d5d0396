//! Laws of transactions: what every commit keeps.

use vstd::prelude::*;
use crate::commit::assembled;
use crate::commit::configured;
use crate::commit::finished;
use crate::commit::ids_can_be_recorded;
use crate::error::ErrorModel;
use crate::field::by_id;
use crate::field::pre_order;
use crate::field::replace_by_id;
use crate::field::FieldModel;
use crate::format::DataFileModel;
use crate::format::FragmentModel;
use crate::format::IndexModel;
use crate::format::RowIdMetaModel;
use crate::fragments::all_with_id;
use crate::fragments::files_with;
use crate::fragments::first_with_id;
use crate::fragments::fragment_ids;
use crate::fragments::has_field;
use crate::fragments::ids_ascend;
use crate::fragments::keep_fields;
use crate::fragments::last_with_id;
use crate::fragments::lemma_position_of;
use crate::fragments::number_fragments;
use crate::fragments::number_rows;
use crate::fragments::position_of;
use crate::fragments::rewrite_group;
use crate::fragments::rewrite_groups;
use crate::fragments::rows_in;
use crate::fragments::rows_known;
use crate::fragments::sort_by_id;
use crate::fragments::sorting_is_stable;
use crate::fragments::stands_at;
use crate::fragments::unnumbered;
use crate::fragments::updated_by_first;
use crate::fragments::updated_by_last;
use crate::fragments::without_ids;
use crate::indices::covers_all;
use crate::indices::covers_any;
use crate::indices::indices_without;
use crate::indices::is_relevant;
use crate::indices::relevant_indices;
use crate::indices::rewrite_bitmap;
use crate::indices::shares_id;
use crate::indices::shares_name;
use crate::indices::short_ids;
use crate::manifest::lemma_greatest_fragment;
use crate::manifest::with_field_metadata;
use crate::manifest::with_fields_metadata;
use crate::manifest::LanceFileVersion;
use crate::manifest::ManifestModel;
use crate::manifest::ManifestWriteConfig;
use crate::operation::FieldMetadata;
use crate::operation::Operation;
use crate::operation::OperationModel;
use crate::operation::RewriteGroupModel;
use crate::planning::can_plan;
use crate::planning::first_row_id;
use crate::planning::lemma_numbered_rows;
use crate::planning::next_fragment_id;
use crate::planning::next_version;
use crate::planning::numbers_suffice;
use crate::planning::plan;
use crate::planning::replace_data;
use crate::planning::replaced_fragments;
use crate::planning::replaced_ids;
use crate::planning::schema_ids;
use crate::planning::with_rows;
use crate::schema::SchemaModel;
use crate::seqs::views;
use crate::transaction::TransactionModel;
use crate::validation::first_missing;
use crate::validation::fragment_has;
use crate::validation::fragments_fault;

verus! {

// Numbering.

/// Fragments that have an id keep it, and the others get one id each, in order, from the
/// first free one on.
pub proof fn numbering_fragments(fragments: Seq<FragmentModel>, next: int, i: int)
    requires
        0 <= next,
        next + unnumbered(fragments) <= u64::MAX,
        0 <= i < fragments.len(),
    ensures
        number_fragments(fragments, next).len() == fragments.len(),
        number_fragments(fragments, next)[i] == (if fragments[i].id == 0 {
            FragmentModel { id: (next + unnumbered(fragments.take(i))) as u64, ..fragments[i] }
        } else {
            fragments[i]
        }),
        fragments[i].id == 0 ==> next + unnumbered(fragments.take(i)) < next + unnumbered(
            fragments,
        ),
    decreases fragments.len(),
{
    let rest = fragments.drop_first();
    let after = if fragments[0].id == 0 {
        next + 1
    } else {
        next
    };
    let out = number_fragments(fragments, next);
    assert(out.drop_first() =~= number_fragments(rest, after));
    if i > 0 {
        numbering_fragments(rest, after, i - 1);
        assert(out[i] == out.drop_first()[i - 1]);
        assert(fragments.take(i).drop_first() =~= rest.take(i - 1));
    } else {
        assert(fragments.take(0) =~= Seq::<FragmentModel>::empty());
        lemma_numbered_len(rest, after);
    }
}

proof fn lemma_numbered_len(fragments: Seq<FragmentModel>, next: int)
    ensures
        number_fragments(fragments, next).len() == fragments.len(),
    decreases fragments.len(),
{
    if fragments.len() > 0 {
        let after = if fragments[0].id == 0 {
            next + 1
        } else {
            next
        };
        lemma_numbered_len(fragments.drop_first(), after);
    }
}

proof fn lemma_unnumbered_grows(fragments: Seq<FragmentModel>, i: int, j: int)
    requires
        0 <= i < j <= fragments.len(),
        fragments[i].id == 0,
    ensures
        unnumbered(fragments.take(i)) < unnumbered(fragments.take(j)),
    decreases fragments.len(),
{
    let rest = fragments.drop_first();
    assert(fragments.take(j).drop_first() =~= rest.take(j - 1));
    if i > 0 {
        assert(fragments.take(i).drop_first() =~= rest.take(i - 1));
        lemma_unnumbered_grows(rest, i - 1, j - 1);
    } else {
        assert(fragments.take(0) =~= Seq::<FragmentModel>::empty());
    }
}

/// No two new fragments get the same id.
pub proof fn numbers_are_distinct(fragments: Seq<FragmentModel>, next: int, i: int, j: int)
    requires
        0 <= next,
        next + unnumbered(fragments) <= u64::MAX,
        0 <= i < j < fragments.len(),
        fragments[i].id == 0,
        fragments[j].id == 0,
    ensures
        number_fragments(fragments, next)[i].id < number_fragments(fragments, next)[j].id,
{
    numbering_fragments(fragments, next, i);
    numbering_fragments(fragments, next, j);
    lemma_unnumbered_grows(fragments, i, j);
}

/// Whether the greatest fragment id that is recorded is not smaller than that of any
/// fragment.
pub open spec fn record_is_sound(m: ManifestModel) -> bool {
    match m.max_fragment_id {
        Some(id) => forall|i: int|
            0 <= i < m.fragments.len() ==> (#[trigger] m.fragments[i]).id <= id,
        None => true,
    }
}

/// The ids that an operation other than an overwrite hands out are greater than those of
/// all fragments of the current version.
pub proof fn fresh_ids(
    op: OperationModel,
    current: ManifestModel,
    new: Seq<FragmentModel>,
    i: int,
    j: int,
)
    requires
        op !is Overwrite,
        record_is_sound(current),
        next_fragment_id(op, Some(current)) + unnumbered(new) <= u64::MAX,
        0 <= i < new.len(),
        new[i].id == 0,
        0 <= j < current.fragments.len(),
    ensures
        number_fragments(new, next_fragment_id(op, Some(current)))[i].id
            > current.fragments[j].id,
{
    let next = next_fragment_id(op, Some(current));
    numbering_fragments(new, next, i);
    lemma_greatest_fragment(current.fragments);
}

/// A commit keeps the record of the greatest fragment id sound, and the record never
/// goes down.
pub proof fn records_only_grow(
    m: ManifestModel,
    op: Operation,
    flags: Option<(u64, u64)>,
    timestamp_nanos: u128,
    transaction_file: Seq<char>,
    next_row_id: Option<u64>,
)
    requires
        ids_can_be_recorded(m, op),
    ensures
        ({
            let r = finished(m, op, flags, timestamp_nanos, transaction_file, next_row_id);
            &&& r.fragments == m.fragments
            &&& record_is_sound(r)
            &&& m.fragments.len() > 0 ==> r.max_fragment_id is Some
            &&& match m.max_fragment_id {
                Some(before) => r.max_fragment_id is Some && r.max_fragment_id->0 >= before,
                None => true,
            }
        }),
{
    lemma_greatest_fragment(m.fragments);
}

/// Reserving fragment ids raises the record by as many and changes nothing else of the
/// content.
pub proof fn reserving_only_raises(
    m: ManifestModel,
    op: Operation,
    num_fragments: u32,
    flags: Option<(u64, u64)>,
    timestamp_nanos: u128,
    transaction_file: Seq<char>,
    next_row_id: Option<u64>,
)
    requires
        op == (Operation::ReserveFragments { num_fragments }),
        ids_can_be_recorded(m, op),
    ensures
        ({
            let r = finished(m, op, flags, timestamp_nanos, transaction_file, next_row_id);
            let before = match m.record_fragments().max_fragment_id {
                Some(id) => id as int,
                None => 0,
            };
            &&& r.max_fragment_id is Some
            &&& r.max_fragment_id->0 == before + num_fragments
            &&& r.schema == m.schema
            &&& r.fragments == m.fragments
            &&& r.config == m.config
        }),
{
}

// Row ids.

/// New fragments get consecutive ranges of row ids, as long as their rows, from the
/// first free row id on.
pub proof fn row_ids_are_consecutive(fragments: Seq<FragmentModel>, next: int, i: int)
    requires
        0 <= next,
        next + rows_in(fragments) <= u64::MAX,
        rows_known(fragments),
        0 <= i < fragments.len(),
    ensures
        number_rows(fragments, next).len() == fragments.len(),
        number_rows(fragments, next)[i] == (FragmentModel {
            row_id_meta: Some(
                RowIdMetaModel::Range {
                    start: (next + rows_in(fragments.take(i))) as u64,
                    end: (next + rows_in(fragments.take(i + 1))) as u64,
                },
            ),
            ..fragments[i]
        }),
        rows_in(fragments.take(i + 1)) == rows_in(fragments.take(i))
            + fragments[i].physical_rows->0,
        rows_in(fragments.take(i + 1)) <= rows_in(fragments),
    decreases fragments.len(),
{
    let rest = fragments.drop_first();
    assert(fragments[0].physical_rows is Some);
    let n = fragments[0].physical_rows->0;
    let out = number_rows(fragments, next);
    assert(out.drop_first() =~= number_rows(rest, next + n));
    assert(rows_known(rest)) by {
        assert forall|k: int| 0 <= k < rest.len() implies (
        #[trigger] rest[k]).physical_rows is Some by {
            assert(rest[k] == fragments[k + 1]);
        }
    }
    assert(fragments.take(i + 1).drop_first() =~= rest.take(i));
    if i > 0 {
        row_ids_are_consecutive(rest, next + n, i - 1);
        assert(out[i] == out.drop_first()[i - 1]);
        assert(fragments.take(i).drop_first() =~= rest.take(i - 1));
    } else {
        assert(fragments.take(0) =~= Seq::<FragmentModel>::empty());
        assert(rest.take(0) =~= Seq::<FragmentModel>::empty());
        lemma_rows_len(rest, next + n);
    }
}

proof fn lemma_rows_len(fragments: Seq<FragmentModel>, next: int)
    ensures
        number_rows(fragments, next).len() == fragments.len(),
    decreases fragments.len(),
{
    if fragments.len() > 0 {
        match fragments[0].physical_rows {
            Some(n) => {
                lemma_rows_len(fragments.drop_first(), next + n);
            },
            None => {},
        }
    }
}

// Plans.

/// A plan has its fragments in the order of their ids.
pub proof fn plans_are_sorted(
    t: TransactionModel,
    current: Option<ManifestModel>,
    indices: Seq<IndexModel>,
    stable_row_ids: bool,
    numbers: Seq<Option<(u32, u32)>>,
)
    requires
        plan(t, current, indices, stable_row_ids, numbers) is Ok,
    ensures
        ids_ascend(plan(t, current, indices, stable_row_ids, numbers)->Ok_0.fragments),
{
    let c = choose|c: Seq<FragmentModel>|
        plan(t, current, indices, stable_row_ids, numbers)->Ok_0.fragments == #[trigger] sort_by_id(
            c,
        );
    sorting_is_stable(c, 0);
}

proof fn lemma_sorted_holds(fragments: Seq<FragmentModel>, f: FragmentModel)
    ensures
        sort_by_id(fragments).contains(f) <==> fragments.contains(f),
{
    sorting_is_stable(fragments, f.id);
    fragments.to_multiset_ensures();
    sort_by_id(fragments).to_multiset_ensures();
    assert(sort_by_id(fragments).contains(f) <==> sort_by_id(fragments).to_multiset().count(f) > 0);
    assert(fragments.contains(f) <==> fragments.to_multiset().count(f) > 0);
}

/// Without a current manifest only overwriting and merging can be planned; every other
/// operation is an internal error.
pub proof fn planning_needs_a_table(
    t: TransactionModel,
    indices: Seq<IndexModel>,
    stable_row_ids: bool,
    numbers: Seq<Option<(u32, u32)>>,
)
    requires
        t.operation !is Overwrite,
        t.operation !is Merge,
    ensures
        can_plan(t.operation, None, indices, stable_row_ids, numbers),
        plan(t, None, indices, stable_row_ids, numbers) is Err,
        plan(t, None, indices, stable_row_ids, numbers)->Err_0 is Internal,
{
}

/// Sorting fragments that are in the order of their ids changes nothing.
pub proof fn sorted_stay_in_place(fragments: Seq<FragmentModel>)
    requires
        ids_ascend(fragments),
    ensures
        sort_by_id(fragments) == fragments,
    decreases fragments.len(),
{
    if fragments.len() > 0 {
        let front = fragments.drop_last();
        assert(ids_ascend(front)) by {
            assert forall|i: int, j: int| 0 <= i < j < front.len() implies (
            #[trigger] front[i]).id <= (#[trigger] front[j]).id by {
                assert(front[i] == fragments[i]);
                assert(front[j] == fragments[j]);
            }
        }
        sorted_stay_in_place(front);
        assert(front.push(fragments.last()) =~= fragments);
    }
}

/// Updating the state of write-ahead logs, reserving fragment ids and updating the
/// configuration can always be planned for a table whose row ids are as asked for, and
/// keep its fragments, schema and indices.
pub proof fn content_is_kept(
    t: TransactionModel,
    current: ManifestModel,
    indices: Seq<IndexModel>,
    stable_row_ids: bool,
    numbers: Seq<Option<(u32, u32)>>,
)
    requires
        t.operation is UpdateMemWalState || t.operation is ReserveFragments
            || t.operation is UpdateConfig,
        stable_row_ids ==> current.stable_row_ids(),
    ensures
        ({
            let p = plan(t, Some(current), indices, stable_row_ids, numbers);
            &&& p is Ok
            &&& p->Ok_0.fragments == sort_by_id(current.fragments)
            &&& ids_ascend(current.fragments) ==> p->Ok_0.fragments == current.fragments
            &&& p->Ok_0.schema == current.schema
            &&& p->Ok_0.indices == indices
        }),
{
    if ids_ascend(current.fragments) {
        sorted_stay_in_place(current.fragments);
    }
}

/// A commit that updates the state of write-ahead logs keeps the fragments and the schema
/// of the table, and asks for exactly that update of the indices.
pub proof fn updating_logs_keeps_the_table(
    t: TransactionModel,
    op: Operation,
    current: ManifestModel,
    indices: Seq<IndexModel>,
    config: ManifestWriteConfig,
    numbers: Seq<Option<(u32, u32)>>,
    inferred: Result<Option<LanceFileVersion>, ErrorModel>,
    new_blob_version: Option<u64>,
    flags: Option<(u64, u64)>,
    transaction_file: Seq<char>,
)
    requires
        t.operation == op@,
        t.operation is UpdateMemWalState,
        ids_ascend(current.fragments),
        next_version(Some(current)) <= u64::MAX,
        config.use_move_stable_row_ids ==> current.stable_row_ids(),
    ensures
        ({
            let p = plan(t, Some(current), indices, config.use_move_stable_row_ids, numbers)->Ok_0;
            let m = assembled(
                t,
                p.schema,
                p.fragments,
                Some(current),
                config,
                inferred,
                new_blob_version,
            );
            let r = finished(
                m->Ok_0,
                op,
                flags,
                config.timestamp_nanos,
                transaction_file,
                p.next_row_id,
            );
            &&& m is Ok
            &&& r.fragments == current.fragments
            &&& r.schema == current.schema
            &&& r.config == current.config
            &&& p.mem_wal is Some
            &&& p.mem_wal->0.added == t.operation->added
            &&& p.mem_wal->0.updated == t.operation->updated
            &&& p.mem_wal->0.removed == t.operation->removed
            &&& p.mem_wal->0.new_version == current.version + 1
        }),
{
    content_is_kept(t, current, indices, config.use_move_stable_row_ids, numbers);
}

/// Appending keeps the fragments that there are, the schema and the indices, and adds
/// the new fragments.
pub proof fn appending_keeps(
    t: TransactionModel,
    current: ManifestModel,
    indices: Seq<IndexModel>,
    stable_row_ids: bool,
    numbers: Seq<Option<(u32, u32)>>,
)
    requires
        t.operation is Append,
        plan(t, Some(current), indices, stable_row_ids, numbers) is Ok,
    ensures
        ({
            let p = plan(t, Some(current), indices, stable_row_ids, numbers)->Ok_0;
            let new = number_fragments(
                t.operation->Append_fragments,
                next_fragment_id(t.operation, Some(current)),
            );
            let added = with_rows(new, first_row_id(Some(current), stable_row_ids))->Ok_0.0;
            &&& p.schema == current.schema
            &&& p.indices == indices
            &&& p.fragments.to_multiset() == (current.fragments + added).to_multiset()
            &&& p.fragments.len() == current.fragments.len() + t.operation->Append_fragments.len()
            &&& forall|f: FragmentModel| #[trigger]
                current.fragments.contains(f) ==> p.fragments.contains(f)
        }),
{
    let new = t.operation->Append_fragments;
    let next = next_fragment_id(t.operation, Some(current));
    let numbered = number_fragments(new, next);
    lemma_numbered_len(new, next);
    let first = first_row_id(Some(current), stable_row_ids);
    if first is Some {
        lemma_rows_len(numbered, first->0 as int);
    }
    let added = with_rows(numbered, first)->Ok_0.0;
    let all = current.fragments + added;
    sorting_is_stable(all, 0);
    all.to_multiset_ensures();
    sort_by_id(all).to_multiset_ensures();
    assert forall|f: FragmentModel| #[trigger] current.fragments.contains(f) implies plan(
        t,
        Some(current),
        indices,
        stable_row_ids,
        numbers,
    )->Ok_0.fragments.contains(f) by {
        let i = choose|i: int| 0 <= i < current.fragments.len() && current.fragments[i] == f;
        assert(all[i] == f);
        lemma_sorted_holds(all, f);
    }
}

proof fn lemma_all_with_id(fragments: Seq<FragmentModel>, id: u64)
    ensures
        all_with_id(fragments, id).len() == 0 <==> !fragment_ids(fragments).contains(id),
    decreases fragments.len(),
{
    if fragments.len() > 0 {
        let front = fragments.drop_last();
        lemma_all_with_id(front, id);
        let ids = fragment_ids(fragments);
        assert(fragment_ids(front) =~= ids.drop_last());
        if fragments.last().id == id {
            assert(ids[ids.len() - 1] == id);
        } else if ids.contains(id) {
            let i = choose|i: int| 0 <= i < ids.len() && ids[i] == id;
            assert(fragment_ids(front)[i] == id);
        } else if fragment_ids(front).contains(id) {
            let i = choose|i: int| 0 <= i < front.len() && fragment_ids(front)[i] == id;
            assert(ids[i] == id);
        }
    }
}

proof fn lemma_distinct_ids(fragments: Seq<FragmentModel>)
    ensures
        fragment_ids(fragments).no_duplicates() <==> forall|id: u64|
            (#[trigger] all_with_id(fragments, id)).len() <= 1,
    decreases fragments.len(),
{
    if fragments.len() > 0 {
        let front = fragments.drop_last();
        let last = fragments.last();
        let ids = fragment_ids(fragments);
        lemma_distinct_ids(front);
        lemma_all_with_id(front, last.id);
        assert(fragment_ids(front) =~= ids.drop_last());
        assert(ids.last() == last.id);
        if ids.no_duplicates() {
            assert(fragment_ids(front).no_duplicates());
            assert(!fragment_ids(front).contains(last.id));
            assert forall|id: u64| (#[trigger] all_with_id(fragments, id)).len() <= 1 by {
                assert(all_with_id(front, id).len() <= 1);
            }
        }
        if forall|id: u64| (#[trigger] all_with_id(fragments, id)).len() <= 1 {
            assert forall|id: u64| (#[trigger] all_with_id(front, id)).len() <= 1 by {
                assert(all_with_id(fragments, id).len() <= 1);
            }
            assert(all_with_id(fragments, last.id).len() <= 1);
            assert forall|i: int, j: int|
                0 <= i < ids.len() && 0 <= j < ids.len() && i != j implies ids[i] != ids[j] by {
                if i < front.len() && j < front.len() {
                    assert(fragment_ids(front)[i] != fragment_ids(front)[j]);
                } else if i < front.len() {
                    assert(fragment_ids(front)[i] == ids[i]);
                    assert(fragment_ids(front).contains(ids[i]));
                } else {
                    assert(fragment_ids(front)[j] == ids[j]);
                    assert(fragment_ids(front).contains(ids[j]));
                }
            }
        }
    }
}

/// Sorting keeps fragment ids distinct.
pub proof fn sorting_keeps_distinct(fragments: Seq<FragmentModel>)
    ensures
        fragment_ids(sort_by_id(fragments)).no_duplicates() <==> fragment_ids(
            fragments,
        ).no_duplicates(),
{
    lemma_distinct_ids(fragments);
    lemma_distinct_ids(sort_by_id(fragments));
    assert forall|id: u64| #[trigger] all_with_id(sort_by_id(fragments), id) == all_with_id(
        fragments,
        id,
    ) by {
        sorting_is_stable(fragments, id);
    }
    assert forall|id: u64| #[trigger] all_with_id(fragments, id) == all_with_id(
        sort_by_id(fragments),
        id,
    ) by {
        sorting_is_stable(fragments, id);
    }
}

/// Appending fragments without ids keeps the fragment ids of a table distinct.
pub proof fn appending_keeps_ids_distinct(
    t: TransactionModel,
    current: ManifestModel,
    indices: Seq<IndexModel>,
    stable_row_ids: bool,
    numbers: Seq<Option<(u32, u32)>>,
)
    requires
        t.operation is Append,
        plan(t, Some(current), indices, stable_row_ids, numbers) is Ok,
        numbers_suffice(t.operation, Some(current), stable_row_ids),
        record_is_sound(current),
        fragment_ids(current.fragments).no_duplicates(),
        forall|i: int|
            0 <= i < t.operation->Append_fragments.len() ==> (
            #[trigger] t.operation->Append_fragments[i]).id == 0,
    ensures
        fragment_ids(
            plan(t, Some(current), indices, stable_row_ids, numbers)->Ok_0.fragments,
        ).no_duplicates(),
{
    let new = t.operation->Append_fragments;
    let next = next_fragment_id(t.operation, Some(current));
    let numbered = number_fragments(new, next);
    lemma_numbered_len(new, next);
    let first = first_row_id(Some(current), stable_row_ids);
    let added = with_rows(numbered, first)->Ok_0.0;
    if first is Some {
        lemma_rows_len(numbered, first->0 as int);
        lemma_numbered_rows(new, next);
        assert forall|i: int| 0 <= i < added.len() implies (#[trigger] added[i]).id
            == numbered[i].id by {
            row_ids_are_consecutive(numbered, first->0 as int, i);
        }
    }
    let all = current.fragments + added;
    let ids = fragment_ids(all);
    assert forall|i: int, j: int| 0 <= i < j < ids.len() implies ids[i] != ids[j] by {
        let n = current.fragments.len();
        if j < n {
            assert(fragment_ids(current.fragments)[i] != fragment_ids(current.fragments)[j]);
        } else if i < n {
            fresh_ids(t.operation, current, new, j - n, i);
        } else {
            numbers_are_distinct(new, next, i - n, j - n);
        }
    }
    sorting_keeps_distinct(all);
}

/// Overwriting leaves no index and none of the old fragments, and takes ids from the
/// first one on.
pub proof fn overwriting_starts_over(
    t: TransactionModel,
    current: Option<ManifestModel>,
    indices: Seq<IndexModel>,
    stable_row_ids: bool,
    numbers: Seq<Option<(u32, u32)>>,
)
    requires
        t.operation is Overwrite,
        plan(t, current, indices, stable_row_ids, numbers) is Ok,
    ensures
        ({
            let p = plan(t, current, indices, stable_row_ids, numbers)->Ok_0;
            let new = number_fragments(t.operation->Overwrite_fragments, 0);
            let added = with_rows(new, first_row_id(current, stable_row_ids))->Ok_0.0;
            &&& p.indices.len() == 0
            &&& p.schema == t.operation->Overwrite_schema
            &&& p.fragments.to_multiset() == added.to_multiset()
        }),
{
    let new = number_fragments(t.operation->Overwrite_fragments, 0);
    let added = with_rows(new, first_row_id(current, stable_row_ids))->Ok_0.0;
    sorting_is_stable(added, 0);
}

/// Updating keeps the fragments that are neither removed nor updated.
pub proof fn updating_keeps_others(
    t: TransactionModel,
    current: ManifestModel,
    indices: Seq<IndexModel>,
    stable_row_ids: bool,
    numbers: Seq<Option<(u32, u32)>>,
    f: FragmentModel,
)
    requires
        t.operation is Update,
        plan(t, Some(current), indices, stable_row_ids, numbers) is Ok,
        current.fragments.contains(f),
        !t.operation->removed_fragment_ids.contains(f.id),
        !fragment_ids(t.operation->Update_updated_fragments).contains(f.id),
    ensures
        plan(t, Some(current), indices, stable_row_ids, numbers)->Ok_0.fragments.contains(f),
{
    let removed = t.operation->removed_fragment_ids;
    let updates = t.operation->Update_updated_fragments;
    let kept = without_ids(current.fragments, removed);
    let updated = updated_by_first(kept, updates);
    let new = number_fragments(
        t.operation->Update_new_fragments,
        next_fragment_id(t.operation, Some(current)),
    );
    let added = with_rows(new, first_row_id(Some(current), stable_row_ids))->Ok_0.0;
    lemma_without_ids(current.fragments, removed, f);
    let i = choose|i: int| 0 <= i < kept.len() && kept[i] == f;
    lemma_first_with_id(updates, f.id);
    match first_with_id(updates, f.id) {
        Some(g) => {
            let j = choose|j: int| 0 <= j < updates.len() && updates[j] == g;
            assert(fragment_ids(updates)[j] == f.id);
        },
        None => {},
    }
    assert(updated[i] == f);
    assert((updated + added)[i] == f);
    lemma_sorted_holds(updated + added, f);
}

/// Leaving fragments out by their ids leaves the others.
pub proof fn lemma_without_ids(fragments: Seq<FragmentModel>, ids: Seq<u64>, f: FragmentModel)
    ensures
        without_ids(fragments, ids).contains(f) <==> fragments.contains(f) && !ids.contains(f.id),
    decreases fragments.len(),
{
    if fragments.len() > 0 {
        let rest = fragments.drop_first();
        lemma_without_ids(rest, ids, f);
        let out = without_ids(fragments, ids);
        let tail = without_ids(rest, ids);
        lemma_first_or_rest(fragments, f);
        if !ids.contains(fragments[0].id) {
            assert(out.drop_first() =~= tail);
            lemma_first_or_rest(out, f);
        }
    }
}

proof fn lemma_first_or_rest<T>(s: Seq<T>, x: T)
    requires
        s.len() > 0,
    ensures
        s.contains(x) <==> s[0] == x || s.drop_first().contains(x),
{
    if s.contains(x) {
        let i = choose|i: int| 0 <= i < s.len() && s[i] == x;
        if i > 0 {
            assert(s.drop_first()[i - 1] == x);
        }
    }
    if s.drop_first().contains(x) {
        let i = choose|i: int| 0 <= i < s.drop_first().len() && s.drop_first()[i] == x;
        assert(s[i + 1] == x);
    }
}

proof fn lemma_last_with_id(fragments: Seq<FragmentModel>, id: u64)
    ensures
        match last_with_id(fragments, id) {
            Some(f) => f.id == id,
            None => true,
        },
    decreases fragments.len(),
{
    if fragments.len() > 0 && fragments.last().id != id {
        lemma_last_with_id(fragments.drop_last(), id);
    }
}

/// After a deletion no fragment has the id of a deleted one.
pub proof fn deleted_fragments_are_gone(
    t: TransactionModel,
    current: ManifestModel,
    indices: Seq<IndexModel>,
    stable_row_ids: bool,
    numbers: Seq<Option<(u32, u32)>>,
    i: int,
)
    requires
        t.operation is Delete,
        plan(t, Some(current), indices, stable_row_ids, numbers) is Ok,
        0 <= i < plan(t, Some(current), indices, stable_row_ids, numbers)->Ok_0.fragments.len(),
    ensures
        !t.operation->deleted_fragment_ids.contains(
            plan(t, Some(current), indices, stable_row_ids, numbers)->Ok_0.fragments[i].id,
        ),
{
    let ids = t.operation->deleted_fragment_ids;
    let updates = t.operation->Delete_updated_fragments;
    let kept = without_ids(current.fragments, ids);
    let all = updated_by_last(kept, updates);
    let p = plan(t, Some(current), indices, stable_row_ids, numbers)->Ok_0;
    let f = p.fragments[i];
    assert(p.fragments.contains(f));
    lemma_sorted_holds(all, f);
    let j = choose|j: int| 0 <= j < all.len() && all[j] == f;
    lemma_last_with_id(updates, kept[j].id);
    assert(kept.contains(kept[j]));
    lemma_without_ids(current.fragments, ids, kept[j]);
}

/// Projecting leaves only data files with a field of the new schema.
pub proof fn projected_files_have_fields(
    t: TransactionModel,
    current: ManifestModel,
    indices: Seq<IndexModel>,
    stable_row_ids: bool,
    numbers: Seq<Option<(u32, u32)>>,
    i: int,
    j: int,
)
    requires
        t.operation is Project,
        plan(t, Some(current), indices, stable_row_ids, numbers) is Ok,
        0 <= i < plan(t, Some(current), indices, stable_row_ids, numbers)->Ok_0.fragments.len(),
        0 <= j < plan(
            t,
            Some(current),
            indices,
            stable_row_ids,
            numbers,
        )->Ok_0.fragments[i].files.len(),
    ensures
        has_field(
            plan(t, Some(current), indices, stable_row_ids, numbers)->Ok_0.fragments[i].files[j],
            schema_ids(t.operation->Project_schema),
        ),
{
    let ids = schema_ids(t.operation->Project_schema);
    let all = keep_fields(current.fragments, ids);
    let p = plan(t, Some(current), indices, stable_row_ids, numbers)->Ok_0;
    let f = p.fragments[i];
    assert(p.fragments.contains(f));
    lemma_sorted_holds(all, f);
    let k = choose|k: int| 0 <= k < all.len() && all[k] == f;
    assert(f.files == files_with(current.fragments[k].files, ids));
    lemma_files_with(current.fragments[k].files, ids, j);
}

proof fn lemma_files_with(files: Seq<DataFileModel>, ids: Seq<i32>, j: int)
    requires
        0 <= j < files_with(files, ids).len(),
    ensures
        has_field(files_with(files, ids)[j], ids),
    decreases files.len(),
{
    let rest = files_with(files.drop_first(), ids);
    if has_field(files[0], ids) {
        assert(files_with(files, ids) =~= seq![files[0]] + rest);
        if j > 0 {
            lemma_files_with(files.drop_first(), ids, j - 1);
        }
    } else {
        lemma_files_with(files.drop_first(), ids, j);
    }
}

// Replacing data.

proof fn lemma_first_with_id(fragments: Seq<FragmentModel>, id: u64)
    ensures
        match first_with_id(fragments, id) {
            Some(f) => f.id == id && fragments.contains(f),
            None => true,
        },
    decreases fragments.len(),
{
    if fragments.len() > 0 {
        if fragments[0].id != id {
            lemma_first_with_id(fragments.drop_first(), id);
            match first_with_id(fragments, id) {
                Some(f) => {
                    lemma_first_or_rest(fragments, f);
                },
                None => {},
            }
        } else {
            assert(fragments.contains(fragments[0]));
        }
    }
}

proof fn lemma_replaced(
    existing: Seq<FragmentModel>,
    replacements: Seq<(u64, DataFileModel)>,
    numbers: Seq<Option<(u32, u32)>>,
    k: int,
    i: int,
)
    requires
        0 <= k <= i < replacements.len(),
        replaced_fragments(existing, replacements, numbers, k) is Ok,
    ensures
        ({
            let r = replaced_fragments(existing, replacements, numbers, k)->Ok_0;
            let f = first_with_id(existing, replacements[i].0);
            &&& r.len() == replacements.len() - k
            &&& f is Some
            &&& r[i - k] == replace_data(f->0, replacements[i].1, numbers[i])
        }),
    decreases i - k,
{
    let r = replaced_fragments(existing, replacements, numbers, k)->Ok_0;
    let rest = replaced_fragments(existing, replacements, numbers, k + 1)->Ok_0;
    if i > k {
        lemma_replaced(existing, replacements, numbers, k + 1, i);
        assert(r[i - k] == rest[i - (k + 1)]);
    } else {
        lemma_replaced_len(existing, replacements, numbers, k + 1);
    }
}

proof fn lemma_replaced_len(
    existing: Seq<FragmentModel>,
    replacements: Seq<(u64, DataFileModel)>,
    numbers: Seq<Option<(u32, u32)>>,
    k: int,
)
    requires
        0 <= k <= replacements.len(),
        replaced_fragments(existing, replacements, numbers, k) is Ok,
    ensures
        replaced_fragments(existing, replacements, numbers, k)->Ok_0.len() == replacements.len()
            - k,
    decreases replacements.len() - k,
{
    if k < replacements.len() {
        lemma_replaced_len(existing, replacements, numbers, k + 1);
    }
}

/// Replacing data leaves the other fragments as they are, and changes of the fragments
/// that are replaced only the data files.
pub proof fn replacing_changes_only_files(
    t: TransactionModel,
    current: ManifestModel,
    indices: Seq<IndexModel>,
    stable_row_ids: bool,
    numbers: Seq<Option<(u32, u32)>>,
)
    requires
        t.operation is DataReplacement,
        plan(t, Some(current), indices, stable_row_ids, numbers) is Ok,
    ensures
        ({
            let p = plan(t, Some(current), indices, stable_row_ids, numbers)->Ok_0;
            let replacements = t.operation->replacements;
            &&& p.schema == current.schema
            &&& p.indices == indices
            &&& forall|f: FragmentModel|
                current.fragments.contains(f) && !replaced_ids(replacements).contains(f.id)
                    ==> #[trigger] p.fragments.contains(f)
            &&& forall|i: int|
                0 <= i < replacements.len() ==> {
                    let f = first_with_id(current.fragments, (#[trigger] replacements[i]).0);
                    let g = replace_data(f->0, replacements[i].1, numbers[i]);
                    &&& f is Some
                    &&& p.fragments.contains(g)
                    &&& g == (FragmentModel { files: g.files, ..f->0 })
                }
        }),
{
    let p = plan(t, Some(current), indices, stable_row_ids, numbers)->Ok_0;
    let replacements = t.operation->replacements;
    let ids = replaced_ids(replacements);
    let changed = replaced_fragments(current.fragments, replacements, numbers, 0)->Ok_0;
    let kept = without_ids(current.fragments, ids);
    let all = changed + kept;
    assert forall|f: FragmentModel|
        current.fragments.contains(f) && !ids.contains(
            f.id,
        ) implies #[trigger] p.fragments.contains(f) by {
        lemma_without_ids(current.fragments, ids, f);
        let j = choose|j: int| 0 <= j < kept.len() && kept[j] == f;
        assert(all[changed.len() + j] == f);
        lemma_sorted_holds(all, f);
    }
    assert forall|i: int| 0 <= i < replacements.len() implies {
        let f = first_with_id(current.fragments, (#[trigger] replacements[i]).0);
        let g = replace_data(f->0, replacements[i].1, numbers[i]);
        &&& f is Some
        &&& p.fragments.contains(g)
        &&& g == (FragmentModel { files: g.files, ..f->0 })
    } by {
        lemma_replaced(current.fragments, replacements, numbers, 0, i);
        assert(all[i] == changed[i]);
        lemma_sorted_holds(all, changed[i]);
    }
}

// Rewriting.

/// Whether one of some groups replaces a fragment id.
pub open spec fn is_rewritten(groups: Seq<RewriteGroupModel>, id: u64) -> bool {
    exists|i: int|
        0 <= i < groups.len() && fragment_ids((#[trigger] groups[i]).old_fragments).contains(id)
}

/// Rewriting a group keeps the fragments that it does not replace.
pub proof fn lemma_group_keeps(
    fragments: Seq<FragmentModel>,
    start: int,
    group: RewriteGroupModel,
    next: int,
    f: FragmentModel,
)
    requires
        0 <= start < fragments.len(),
        fragments.contains(f),
        !fragment_ids(group.old_fragments).contains(f.id),
    ensures
        rewrite_group(fragments, start, group, next).contains(f),
{
    let new = number_fragments(group.new_fragments, next);
    let old = group.old_fragments;
    let out = rewrite_group(fragments, start, group, next);
    if stands_at(fragments, start, old) {
        let i = choose|i: int| 0 <= i < fragments.len() && fragments[i] == f;
        if i < start {
            assert(out[i] == f);
        } else if i < start + old.len() {
            assert(old[i - start].id == fragments[start + (i - start)].id);
            assert(fragment_ids(old)[i - start] == f.id);
        } else {
            assert(out[start + new.len() + (i - start - old.len())] == f);
        }
    } else {
        let kept = without_ids(fragments, fragment_ids(old));
        lemma_without_ids(fragments, fragment_ids(old), f);
        let i = choose|i: int| 0 <= i < kept.len() && kept[i] == f;
        assert(out[i] == f);
    }
}

/// Rewriting keeps the fragments that no group replaces.
pub proof fn rewriting_keeps_others(
    fragments: Seq<FragmentModel>,
    groups: Seq<RewriteGroupModel>,
    next: int,
    version: u64,
    f: FragmentModel,
)
    requires
        fragments.contains(f),
        !is_rewritten(groups, f.id),
    ensures
        rewrite_groups(fragments, groups, next, version).0.contains(f),
    decreases groups.len(),
{
    if groups.len() > 0 {
        let first = groups[0].old_fragments[0].id;
        lemma_position_of(fragments, first);
        match position_of(fragments, first) {
            None => {},
            Some(start) => {
                assert(!fragment_ids(groups[0].old_fragments).contains(f.id));
                lemma_group_keeps(fragments, start, groups[0], next, f);
                let rest = groups.drop_first();
                assert(!is_rewritten(rest, f.id)) by {
                    if is_rewritten(rest, f.id) {
                        let i = choose|i: int|
                            0 <= i < rest.len() && fragment_ids(
                                (#[trigger] rest[i]).old_fragments,
                            ).contains(f.id);
                        assert(groups[i + 1] == rest[i]);
                    }
                }
                rewriting_keeps_others(
                    rewrite_group(fragments, start, groups[0], next),
                    rest,
                    next + unnumbered(groups[0].new_fragments),
                    version,
                    f,
                );
            },
        }
    }
}

/// After a group was rewritten its old fragments are gone, where each fragment id occurs
/// once and no new fragment takes the id of an old one.
pub proof fn rewritten_fragments_are_gone(
    fragments: Seq<FragmentModel>,
    start: int,
    group: RewriteGroupModel,
    next: int,
    f: FragmentModel,
)
    requires
        fragment_ids(fragments).no_duplicates(),
        0 <= start < fragments.len(),
        fragment_ids(group.old_fragments).contains(f.id),
        forall|i: int|
            0 <= i < number_fragments(group.new_fragments, next).len() ==> (
            #[trigger] number_fragments(group.new_fragments, next)[i]).id != f.id,
    ensures
        !rewrite_group(fragments, start, group, next).contains(f),
{
    let new = number_fragments(group.new_fragments, next);
    let old = group.old_fragments;
    let out = rewrite_group(fragments, start, group, next);
    if out.contains(f) {
        let i = choose|i: int| 0 <= i < out.len() && out[i] == f;
        if stands_at(fragments, start, old) {
            let k = choose|k: int| 0 <= k < fragment_ids(old).len() && fragment_ids(old)[k] == f.id;
            assert(fragments[start + k].id == old[k].id);
            assert(fragment_ids(fragments)[start + k] == f.id);
            if i < start {
                assert(fragment_ids(fragments)[i] == f.id);
            } else if i < start + new.len() {
                assert(out[i] == new[i - start]);
            } else {
                let j = i - new.len() + old.len();
                assert(out[i] == fragments[j]);
                assert(fragment_ids(fragments)[j] == f.id);
            }
        } else {
            let kept = without_ids(fragments, fragment_ids(old));
            if i < kept.len() {
                assert(kept.contains(f));
                lemma_without_ids(fragments, fragment_ids(old), f);
            } else {
                assert(out[i] == new[i - kept.len()]);
            }
        }
    }
}

// Indices.

/// Whether an index covers a part of a group.
pub open spec fn is_split(ids: Set<u32>, group: RewriteGroupModel) -> bool {
    covers_any(ids, group.old_fragments) && !covers_all(ids, group.old_fragments)
}

/// Rewriting a bitmap fails exactly if it covers a part of a group, and otherwise only
/// concerns fragments of the groups.
pub proof fn bitmaps_follow_groups(
    before: Set<u32>,
    now: Set<u32>,
    groups: Seq<RewriteGroupModel>,
    id: u32,
)
    ensures
        rewrite_bitmap(before, now, groups) is Err <==> exists|i: int|
            0 <= i < groups.len() && is_split(before, #[trigger] groups[i]),
        rewrite_bitmap(before, now, groups) is Ok && (forall|i: int|
            0 <= i < groups.len() ==> !short_ids((#[trigger] groups[i]).old_fragments).contains(id)
                && !short_ids(groups[i].new_fragments).contains(id)) ==> (rewrite_bitmap(
            before,
            now,
            groups,
        )->Ok_0.contains(id) <==> now.contains(id)),
    decreases groups.len(),
{
    if groups.len() > 0 {
        let rest = groups.drop_first();
        let g = groups[0];
        let after = if covers_any(before, g.old_fragments) {
            now.difference(short_ids(g.old_fragments).to_set()).union(
                short_ids(g.new_fragments).to_set(),
            )
        } else {
            now
        };
        bitmaps_follow_groups(before, after, rest, id);
        if exists|i: int| 0 <= i < groups.len() && is_split(before, #[trigger] groups[i]) {
            let i = choose|i: int| 0 <= i < groups.len() && is_split(before, #[trigger] groups[i]);
            if i > 0 {
                assert(rest[i - 1] == groups[i]);
            }
        }
        if exists|i: int| 0 <= i < rest.len() && is_split(before, #[trigger] rest[i]) {
            let i = choose|i: int| 0 <= i < rest.len() && is_split(before, #[trigger] rest[i]);
            assert(groups[i + 1] == rest[i]);
        }
        assert(is_split(before, g) ==> is_split(before, groups[0]));
        if forall|i: int|
            0 <= i < groups.len() ==> !short_ids((#[trigger] groups[i]).old_fragments).contains(id)
                && !short_ids(groups[i].new_fragments).contains(id) {
            assert(!short_ids(groups[0].old_fragments).contains(id));
            assert forall|i: int| 0 <= i < rest.len() implies !short_ids(
                (#[trigger] rest[i]).old_fragments,
            ).contains(id) && !short_ids(rest[i].new_fragments).contains(id) by {
                assert(rest[i] == groups[i + 1]);
            }
        }
    }
}

/// An index that covers a group covers the new fragments of it after the group was
/// rewritten, and no old ones that are not also new.
pub proof fn covered_group_stays_covered(before: Set<u32>, group: RewriteGroupModel, id: u32)
    requires
        group.old_fragments.len() > 0,
        covers_all(before, group.old_fragments),
    ensures
        rewrite_bitmap(before, before, seq![group]) is Ok,
        rewrite_bitmap(before, before, seq![group])->Ok_0.contains(id) <==> short_ids(
            group.new_fragments,
        ).contains(id) || (before.contains(id) && !short_ids(group.old_fragments).contains(id)),
{
    assert(before.contains(group.old_fragments[0].id as u32));
    assert(covers_any(before, group.old_fragments));
    assert(seq![group].drop_first() =~= Seq::<RewriteGroupModel>::empty());
    let after = before.difference(short_ids(group.old_fragments).to_set()).union(
        short_ids(group.new_fragments).to_set(),
    );
    assert(rewrite_bitmap(before, after, Seq::empty()) == Ok::<Set<u32>, ErrorModel>(after));
    assert(rewrite_bitmap(before, before, seq![group]) == Ok::<Set<u32>, ErrorModel>(after));
}

/// Of the indices exactly the relevant ones are retained.
pub proof fn relevance_decides(
    indices: Seq<IndexModel>,
    field_ids: Seq<i32>,
    fragments: Seq<FragmentModel>,
    index: IndexModel,
)
    ensures
        relevant_indices(indices, field_ids, fragments).contains(index) <==> indices.contains(index)
            && is_relevant(index, field_ids, fragments),
    decreases indices.len(),
{
    if indices.len() > 0 {
        let rest = indices.drop_first();
        relevance_decides(rest, field_ids, fragments, index);
        lemma_first_or_rest(indices, index);
        let out = relevant_indices(indices, field_ids, fragments);
        if is_relevant(indices[0], field_ids, fragments) {
            assert(out.drop_first() =~= relevant_indices(rest, field_ids, fragments));
            lemma_first_or_rest(out, index);
        }
    }
}

/// Retaining the relevant indices again changes nothing.
pub proof fn retaining_twice(
    indices: Seq<IndexModel>,
    field_ids: Seq<i32>,
    fragments: Seq<FragmentModel>,
)
    ensures
        relevant_indices(
            relevant_indices(indices, field_ids, fragments),
            field_ids,
            fragments,
        ) == relevant_indices(indices, field_ids, fragments),
    decreases indices.len(),
{
    if indices.len() > 0 {
        let rest = indices.drop_first();
        retaining_twice(rest, field_ids, fragments);
        let out = relevant_indices(indices, field_ids, fragments);
        if is_relevant(indices[0], field_ids, fragments) {
            assert(out.drop_first() =~= relevant_indices(rest, field_ids, fragments));
        }
    }
}

proof fn lemma_indices_without(
    indices: Seq<IndexModel>,
    named: Seq<IndexModel>,
    removed: Seq<IndexModel>,
    index: IndexModel,
)
    ensures
        indices_without(indices, named, removed).contains(index) <==> indices.contains(index)
            && !shares_name(index, named) && !shares_id(index, removed),
    decreases indices.len(),
{
    if indices.len() > 0 {
        let rest = indices.drop_first();
        lemma_indices_without(rest, named, removed, index);
        lemma_first_or_rest(indices, index);
        let out = indices_without(indices, named, removed);
        if !(shares_name(indices[0], named) || shares_id(indices[0], removed)) {
            assert(out.drop_first() =~= indices_without(rest, named, removed));
            lemma_first_or_rest(out, index);
        }
    }
}

/// Creating indices keeps the fragments, puts the new indices in, and of the others
/// leaves out exactly those with the name of a new one or the id of a removed one.
pub proof fn creating_replaces_by_name(
    t: TransactionModel,
    current: ManifestModel,
    indices: Seq<IndexModel>,
    stable_row_ids: bool,
    numbers: Seq<Option<(u32, u32)>>,
    index: IndexModel,
)
    requires
        t.operation is CreateIndex,
        plan(t, Some(current), indices, stable_row_ids, numbers) is Ok,
    ensures
        ({
            let p = plan(t, Some(current), indices, stable_row_ids, numbers)->Ok_0;
            let new = t.operation->new_indices;
            &&& p.fragments.to_multiset() == current.fragments.to_multiset()
            &&& p.indices.contains(index) <==> new.contains(index) || (indices.contains(index)
                && !shares_name(index, new) && !shares_id(index, t.operation->removed_indices))
        }),
{
    let p = plan(t, Some(current), indices, stable_row_ids, numbers)->Ok_0;
    let new = t.operation->new_indices;
    let kept = indices_without(indices, new, t.operation->removed_indices);
    sorting_is_stable(current.fragments, 0);
    lemma_indices_without(indices, new, t.operation->removed_indices, index);
    if new.contains(index) {
        let i = choose|i: int| 0 <= i < new.len() && new[i] == index;
        assert(p.indices[kept.len() + i] == index);
    }
    if kept.contains(index) {
        let i = choose|i: int| 0 <= i < kept.len() && kept[i] == index;
        assert(p.indices[i] == index);
    }
    if p.indices.contains(index) {
        let i = choose|i: int| 0 <= i < p.indices.len() && p.indices[i] == index;
        if i < kept.len() {
            assert(kept[i] == index);
        } else {
            assert(new[i - kept.len()] == index);
        }
    }
}

// Commits.

/// Every commit makes the version after the current one, the first commit version 1.
pub proof fn versions_count_up(
    t: TransactionModel,
    schema: SchemaModel,
    fragments: Seq<FragmentModel>,
    current: Option<ManifestModel>,
    config: ManifestWriteConfig,
    inferred: Result<Option<LanceFileVersion>, ErrorModel>,
    new_blob_version: Option<u64>,
    op: Operation,
    flags: Option<(u64, u64)>,
    transaction_file: Seq<char>,
    next_row_id: Option<u64>,
)
    requires
        next_version(current) <= u64::MAX,
        assembled(t, schema, fragments, current, config, inferred, new_blob_version) is Ok,
    ensures
        ({
            let m = assembled(
                t,
                schema,
                fragments,
                current,
                config,
                inferred,
                new_blob_version,
            )->Ok_0;
            let r = finished(
                m,
                op,
                flags,
                config.timestamp_nanos,
                transaction_file,
                next_row_id,
            );
            &&& r.version == next_version(current)
            &&& r.fragments == fragments
            &&& r.tag == t.tag
            &&& r.timestamp_nanos == config.timestamp_nanos
            &&& r.transaction_file == Some(transaction_file)
        }),
{
}

/// After the configuration was updated a key that was set has its new value, also if it
/// was deleted too; one that was only deleted is gone; every other one is as before.
pub proof fn deleted_then_set(m: ManifestModel, op: Operation, key: Seq<char>)
    requires
        op is UpdateConfig,
    ensures
        ({
            let r = configured(m, op).config;
            let set = op->upsert_values is Some && op->upsert_values->0@.dom().contains(key);
            let deleted = op->delete_keys is Some && views(op->delete_keys->0@).contains(key);
            &&& set ==> r.dom().contains(key) && r[key] == op->upsert_values->0@[key]
            &&& !set && deleted ==> !r.dom().contains(key)
            &&& !set && !deleted ==> (r.dom().contains(key) <==> m.config.dom().contains(key))
            &&& !set && !deleted && m.config.dom().contains(key) ==> r[key] == m.config[key]
        }),
{
    match op {
        Operation::UpdateConfig { upsert_values, delete_keys, .. } => {
            assert(op->upsert_values == upsert_values);
            assert(op->delete_keys == delete_keys);
        },
        _ => {},
    }
}

// Metadata of fields.

/// Whether two lookups found fields that differ at most in their children.
pub open spec fn same_but_children(a: Option<FieldModel>, b: Option<FieldModel>) -> bool {
    match (a, b) {
        (Some(f), Some(g)) => f == (FieldModel { children: f.children, ..g }),
        (None, None) => true,
        _ => false,
    }
}

proof fn lemma_replaced_metadata(
    fields: Seq<FieldModel>,
    id: i32,
    metadata: Map<Seq<char>, Seq<char>>,
    other: i32,
)
    requires
        by_id(fields, id) is Some,
    ensures
        ({
            let f = by_id(fields, id)->0;
            let new = FieldModel { metadata, ..f };
            let after = replace_by_id(fields, id, new);
            &&& by_id(after, id) == Some(new)
            &&& other != id ==> same_but_children(by_id(after, other), by_id(fields, other))
        }),
    decreases fields,
{
    let f = by_id(fields, id)->0;
    let new = FieldModel { metadata, ..f };
    let after = replace_by_id(fields, id, new);
    lemma_found_has_id(fields, id);
    if fields[0].id == id {
        assert(after.drop_first() =~= fields.drop_first());
    } else if by_id(fields[0].children, id) is Some {
        lemma_replaced_metadata(fields[0].children, id, metadata, other);
        assert(after.drop_first() =~= fields.drop_first());
    } else {
        lemma_replaced_metadata(fields.drop_first(), id, metadata, other);
        assert(after.drop_first() =~= replace_by_id(fields.drop_first(), id, new));
    }
}

proof fn lemma_found_has_id(fields: Seq<FieldModel>, id: i32)
    ensures
        match by_id(fields, id) {
            Some(f) => f.id == id,
            None => true,
        },
    decreases fields,
{
    if fields.len() > 0 && fields[0].id != id {
        lemma_found_has_id(fields[0].children, id);
        lemma_found_has_id(fields.drop_first(), id);
    }
}

proof fn lemma_fields_metadata(
    fields: Seq<FieldModel>,
    entries: Seq<(u32, Map<Seq<char>, Seq<char>>)>,
    id: i32,
)
    requires
        forall|i: int, j: int|
            0 <= i < j < entries.len() ==> (#[trigger] entries[i]).0 as i32 != (
            #[trigger] entries[j]).0 as i32,
    ensures
        ({
            let after = by_id(with_fields_metadata(fields, entries), id);
            let before = by_id(fields, id);
            &&& after is Some <==> before is Some
            &&& before is Some ==> after->0 == (FieldModel {
                children: after->0.children,
                metadata: after->0.metadata,
                ..before->0
            })
            &&& forall|i: int|
                0 <= i < entries.len() && (#[trigger] entries[i]).0 as i32 == id && before is Some
                    ==> after->0.metadata == entries[i].1
            &&& before is Some && (forall|i: int|
                0 <= i < entries.len() ==> (#[trigger] entries[i]).0 as i32 != id)
                ==> after->0.metadata == before->0.metadata
        }),
    decreases entries.len(),
{
    if entries.len() > 0 {
        let rest = entries.drop_first();
        let first = entries[0].0 as i32;
        let next = with_field_metadata(fields, first, entries[0].1);
        assert forall|i: int, j: int| 0 <= i < j < rest.len() implies (
        #[trigger] rest[i]).0 as i32 != (#[trigger] rest[j]).0 as i32 by {
            assert(rest[i] == entries[i + 1]);
            assert(rest[j] == entries[j + 1]);
        }
        if by_id(fields, first) is Some {
            lemma_replaced_metadata(fields, first, entries[0].1, id);
        }
        lemma_fields_metadata(next, rest, id);
        let after = by_id(with_fields_metadata(fields, entries), id);
        let before = by_id(fields, id);
        if before is Some {
            assert forall|i: int|
                0 <= i < entries.len() && (#[trigger] entries[i]).0 as i32
                    == id implies after->0.metadata == entries[i].1 by {
                if i == 0 {
                    assert forall|j: int| 0 <= j < rest.len() implies (
                    #[trigger] rest[j]).0 as i32 != id by {
                        assert(rest[j] == entries[j + 1]);
                    }
                } else {
                    assert(rest[i - 1] == entries[i]);
                }
            }
            if forall|i: int| 0 <= i < entries.len() ==> (#[trigger] entries[i]).0 as i32 != id {
                assert(entries[0].0 as i32 != id);
                assert forall|j: int| 0 <= j < rest.len() implies (
                #[trigger] rest[j]).0 as i32 != id by {
                    assert(rest[j] == entries[j + 1]);
                }
            }
        }
    }
}

/// Replacing the metadata of fields gives each field that is named its new metadata and
/// leaves that of the others as it was, in whatever order the map lists the changes.
pub proof fn field_metadata_is_replaced(
    fields: Seq<FieldModel>,
    metadata: FieldMetadata,
    id: u32,
)
    ensures
        ({
            let after = by_id(with_fields_metadata(fields, metadata.listing()), id as i32);
            let before = by_id(fields, id as i32);
            &&& after is Some <==> before is Some
            &&& before is Some ==> after->0 == (FieldModel {
                children: after->0.children,
                metadata: if metadata@.contains_key(id) {
                    metadata@[id]
                } else {
                    before->0.metadata
                },
                ..before->0
            })
        }),
{
    let entries = metadata.listing();
    metadata.listing_is_map();
    assert forall|i: int, j: int| 0 <= i < j < entries.len() implies (
    #[trigger] entries[i]).0 as i32 != (#[trigger] entries[j]).0 as i32 by {
        lemma_distinct_casts(entries[i].0, entries[j].0);
    }
    lemma_fields_metadata(fields, entries, id as i32);
    if metadata@.contains_key(id) {
        let i = choose|i: int| 0 <= i < entries.len() && (#[trigger] entries[i]).0 == id;
        assert(entries[i].0 as i32 == id as i32);
    } else {
        assert forall|i: int| 0 <= i < entries.len() implies (#[trigger] entries[i]).0 as i32
            != id as i32 by {
            lemma_distinct_casts(entries[i].0, id);
        }
    }
}

proof fn lemma_distinct_casts(a: u32, b: u32)
    requires
        a != b,
    ensures
        a as i32 != b as i32,
{
    assert(a as i32 != b as i32) by (bit_vector)
        requires
            a != b,
    ;
}

// Validation.

/// Fragments are accepted exactly if each has every field of the schema, at any depth.
pub proof fn accepted_fragments_are_complete(schema: SchemaModel, fragments: Seq<FragmentModel>)
    ensures
        fragments_fault(schema, fragments) is None <==> forall|i: int, j: int|
            0 <= i < fragments.len() && 0 <= j < pre_order(schema.fields).len() ==> fragment_has(
                #[trigger] fragments[i],
                (#[trigger] pre_order(schema.fields)[j]).id,
            ),
    decreases fragments.len(),
{
    let fields = pre_order(schema.fields);
    if fragments.len() > 0 {
        let rest = fragments.drop_first();
        accepted_fragments_are_complete(schema, rest);
        lemma_first_missing(fragments[0], fields);
        assert(forall|i: int| 0 <= i < rest.len() ==> (#[trigger] rest[i]) == fragments[i + 1]);
        if fragments_fault(schema, fragments) is None {
            assert forall|i: int, j: int|
                0 <= i < fragments.len() && 0 <= j < fields.len() implies fragment_has(
                #[trigger] fragments[i],
                (#[trigger] fields[j]).id,
            ) by {
                if i > 0 {
                    assert(rest[i - 1] == fragments[i]);
                }
            }
        } else if first_missing(fragments[0], fields) is None {
            let (i, j) = choose|i: int, j: int|
                0 <= i < rest.len() && 0 <= j < fields.len() && !fragment_has(
                    #[trigger] rest[i],
                    (#[trigger] fields[j]).id,
                );
            assert(fragments[i + 1] == rest[i]);
        }
    }
}

proof fn lemma_first_missing(f: FragmentModel, fields: Seq<FieldModel>)
    ensures
        first_missing(f, fields) is None <==> forall|j: int|
            0 <= j < fields.len() ==> fragment_has(f, (#[trigger] fields[j]).id),
    decreases fields.len(),
{
    if fields.len() > 0 {
        let rest = fields.drop_first();
        lemma_first_missing(f, rest);
        assert(forall|j: int| 0 <= j < rest.len() ==> (#[trigger] rest[j]) == fields[j + 1]);
        if first_missing(f, fields) is None {
            assert forall|j: int| 0 <= j < fields.len() implies fragment_has(
                f,
                (#[trigger] fields[j]).id,
            ) by {
                if j > 0 {
                    assert(rest[j - 1] == fields[j]);
                }
            }
        } else if fragment_has(f, fields[0].id) {
            let j = choose|j: int|
                0 <= j < rest.len() && !fragment_has(f, (#[trigger] rest[j]).id);
            assert(fields[j + 1] == rest[j]);
        } else {
            assert(!fragment_has(f, fields[0].id));
        }
    }
}

} // verus!
