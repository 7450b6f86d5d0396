//! Laws of plans: what each operation does to the fragments and indices of a table.

use vstd::prelude::*;
use crate::commit_laws::lemma_without_ids;
use crate::commit_laws::numbering_fragments;
use crate::commit_laws::row_ids_are_consecutive;
use crate::error::ErrorModel;
use crate::field::pre_order;
use crate::format::DataFileModel;
use crate::format::FragmentModel;
use crate::format::IndexModel;
use crate::format::MemWalModel;
use crate::format::MemWalState;
use crate::fragments::files_with;
use crate::fragments::first_with_id;
use crate::fragments::fragment_ids;
use crate::fragments::has_field;
use crate::fragments::keep_fields;
use crate::fragments::last_with_id;
use crate::fragments::number_fragments;
use crate::fragments::number_rows;
use crate::fragments::rows_in;
use crate::fragments::rows_known;
use crate::fragments::sort_by_id;
use crate::fragments::sorting_is_stable;
use crate::fragments::unnumbered;
use crate::fragments::updated_by_first;
use crate::fragments::updated_by_last;
use crate::fragments::without_ids;
use crate::index_laws::among;
use crate::index_laws::lemma_among;
use crate::indices::is_relevant;
use crate::indices::prune_indices;
use crate::indices::relevant_indices;
use crate::manifest::lemma_greatest_fragment;
use crate::manifest::ManifestModel;
use crate::manifest::FLAG_MOVE_STABLE_ROW_IDS;
use crate::operation::OperationModel;
use crate::planning::covers_field;
use crate::planning::fields_agree;
use crate::planning::first_row_id;
use crate::planning::lemma_numbered_rows;
use crate::planning::next_fragment_id;
use crate::planning::numbers_suffice;
use crate::planning::plan;
use crate::planning::replace_data;
use crate::planning::replaced_fragments;
use crate::planning::replaced_ids;
use crate::planning::schema_ids;
use crate::planning::with_rows;
use crate::planning::PlanModel;
use crate::schema::SchemaModel;
use crate::transaction::TransactionModel;

verus! {

// New fragments.

/// How many of the first `n` fragments have no id.
pub open spec fn without_id_before(fragments: Seq<FragmentModel>, n: int) -> int
    decreases n,
{
    if n <= 0 {
        0
    } else {
        without_id_before(fragments, n - 1) + (if fragments[n - 1].id == 0 {
            1int
        } else {
            0int
        })
    }
}

/// How many rows the first `n` fragments have.
pub open spec fn rows_before(fragments: Seq<FragmentModel>, n: int) -> int
    decreases n,
{
    if n <= 0 {
        0
    } else {
        rows_before(fragments, n - 1) + fragments[n - 1].physical_rows->0
    }
}

/// Whether fragments are new ones as they are added to a table. One without an id gets the
/// next free one, from `first` on; where row ids are kept each gets the next free ones, from
/// `row` on, one for each row; all else is as it was.
pub open spec fn are_added(
    new: Seq<FragmentModel>,
    first: int,
    row: Option<u64>,
    added: Seq<FragmentModel>,
) -> bool {
    &&& added.len() == new.len()
    &&& forall|i: int|
        0 <= i < new.len() ==> {
            &&& (#[trigger] added[i]).id == (if new[i].id == 0 {
                first + without_id_before(new, i)
            } else {
                new[i].id as int
            })
            &&& match row {
                Some(row) => {
                    &&& new[i].physical_rows is Some
                    &&& added[i].row_id_meta is Some
                    &&& added[i].row_id_meta->0 is Range
                    &&& added[i].row_id_meta->0->start == row + rows_before(new, i)
                    &&& added[i].row_id_meta->0->end == row + rows_before(new, i + 1)
                },
                None => added[i].row_id_meta == new[i].row_id_meta,
            }
            &&& added[i] == (FragmentModel {
                id: added[i].id,
                row_id_meta: added[i].row_id_meta,
                ..new[i]
            })
        }
}

/// Whether a number is the first fragment id that is free in a table: the one after the
/// greatest that is recorded or, where none is, after that of every fragment.
pub open spec fn is_first_free(current: ManifestModel, first: int) -> bool {
    match current.max_fragment_id {
        Some(id) => first == id + 1,
        None => {
            &&& forall|i: int|
                0 <= i < current.fragments.len() ==> (#[trigger] current.fragments[i]).id < first
            &&& first == 0 || exists|i: int|
                0 <= i < current.fragments.len() && (#[trigger] current.fragments[i]).id + 1
                    == first
        },
    }
}

/// Whether row ids of a table are stable, so that they are kept.
pub open spec fn keeps_row_ids(current: ManifestModel) -> bool {
    current.reader_feature_flags & FLAG_MOVE_STABLE_ROW_IDS != 0
}

/// The next free row id of a table, if row ids are kept.
pub open spec fn free_row(current: ManifestModel) -> Option<u64> {
    if keeps_row_ids(current) {
        Some(current.next_row_id)
    } else {
        None
    }
}

/// Two ways to count the fragments without an id.
pub proof fn lemma_counted(fragments: Seq<FragmentModel>, n: int)
    requires
        0 <= n <= fragments.len(),
    ensures
        unnumbered(fragments.take(n)) == without_id_before(fragments, n),
    decreases n,
{
    if n > 0 {
        lemma_counted(fragments, n - 1);
        lemma_unnumbered_push(fragments.take(n - 1), fragments[n - 1]);
        assert(fragments.take(n) =~= fragments.take(n - 1).push(fragments[n - 1]));
    } else {
        assert(fragments.take(0) =~= Seq::<FragmentModel>::empty());
    }
}

proof fn lemma_unnumbered_push(fragments: Seq<FragmentModel>, f: FragmentModel)
    ensures
        unnumbered(fragments.push(f)) == unnumbered(fragments) + (if f.id == 0 {
            1int
        } else {
            0int
        }),
    decreases fragments.len(),
{
    let all = fragments.push(f);
    if fragments.len() > 0 {
        lemma_unnumbered_push(fragments.drop_first(), f);
        assert(all.drop_first() =~= fragments.drop_first().push(f));
    } else {
        assert(fragments =~= Seq::<FragmentModel>::empty());
        assert(all.drop_first() =~= Seq::<FragmentModel>::empty());
        assert(unnumbered(Seq::<FragmentModel>::empty()) == 0);
    }
}

proof fn lemma_rows_counted(fragments: Seq<FragmentModel>, numbered: Seq<FragmentModel>, n: int)
    requires
        0 <= n <= fragments.len(),
        numbered.len() == fragments.len(),
        rows_known(numbered),
        forall|i: int|
            0 <= i < fragments.len() ==> (#[trigger] numbered[i]).physical_rows
                == fragments[i].physical_rows,
        rows_in(numbered) <= u64::MAX,
    ensures
        rows_in(numbered.take(n)) == rows_before(fragments, n),
    decreases n,
{
    if n > 0 {
        lemma_rows_counted(fragments, numbered, n - 1);
        row_ids_are_consecutive(numbered, 0, n - 1);
    } else {
        assert(numbered.take(0) =~= Seq::<FragmentModel>::empty());
    }
}

#[verifier::spinoff_prover]
#[verifier::rlimit(60)]
proof fn lemma_added(new: Seq<FragmentModel>, first: int, row: Option<u64>)
    requires
        0 <= first,
        first + unnumbered(new) <= u64::MAX,
        match row {
            Some(row) => row + rows_in(new) <= u64::MAX,
            None => true,
        },
        with_rows(number_fragments(new, first), row) is Ok,
    ensures
        are_added(new, first, row, with_rows(number_fragments(new, first), row)->Ok_0.0),
        with_rows(number_fragments(new, first), row)->Ok_0.1 == (match row {
            Some(row) => Some((row + rows_before(new, new.len() as int)) as u64),
            None => None,
        }),
        row is Some ==> row->0 + rows_before(new, new.len() as int) <= u64::MAX,
{
    let numbered = number_fragments(new, first);
    if new.len() > 0 {
        numbering_fragments(new, first, 0);
    }
    assert(numbered.len() == new.len());
    let added = with_rows(numbered, row)->Ok_0.0;
    lemma_numbered_rows(new, first);
    assert forall|i: int| 0 <= i < new.len() implies (#[trigger] numbered[i]) == (FragmentModel {
        id: numbered[i].id,
        ..new[i]
    }) && numbered[i].id == (if new[i].id == 0 {
        first + without_id_before(new, i)
    } else {
        new[i].id as int
    }) by {
        numbering_fragments(new, first, i);
        lemma_counted(new, i);
    }
    match row {
        Some(row) => {
            if new.len() > 0 {
                row_ids_are_consecutive(numbered, row as int, 0);
            }
            assert(added == number_rows(numbered, row as int));
            assert(added.len() == new.len());
            assert forall|i: int| 0 <= i < new.len() implies {
                &&& (#[trigger] added[i]).row_id_meta is Some
                &&& added[i].row_id_meta->0 is Range
                &&& added[i].row_id_meta->0->start == row + rows_before(new, i)
                &&& added[i].row_id_meta->0->end == row + rows_before(new, i + 1)
                &&& added[i] == (FragmentModel {
                    row_id_meta: added[i].row_id_meta,
                    ..numbered[i]
                })
            } by {
                row_ids_are_consecutive(numbered, row as int, i);
                lemma_rows_counted(new, numbered, i);
                lemma_rows_counted(new, numbered, i + 1);
                assert(numbered[i].physical_rows is Some);
                lemma_rows_grow(numbered, i);
            }
            lemma_rows_counted(new, numbered, new.len() as int);
            assert(numbered.take(new.len() as int) =~= numbered);
        },
        None => {},
    }
}

proof fn lemma_rows_grow(fragments: Seq<FragmentModel>, i: int)
    requires
        rows_known(fragments),
        0 <= i < fragments.len(),
        rows_in(fragments) <= u64::MAX,
    ensures
        rows_in(fragments.take(i)) <= rows_in(fragments.take(i + 1)) <= rows_in(fragments),
{
    row_ids_are_consecutive(fragments, 0, i);
}

/// Ids are handed out from the first free one on.
pub proof fn lemma_first_free(op: OperationModel, current: ManifestModel)
    requires
        op !is Overwrite,
    ensures
        is_first_free(current, next_fragment_id(op, Some(current))),
        0 <= next_fragment_id(op, Some(current)),
{
    lemma_greatest_fragment(current.fragments);
}

// Order.

/// Whether some fragments are others, in the order of their ids.
pub open spec fn is_ordered(fragments: Seq<FragmentModel>, others: Seq<FragmentModel>) -> bool {
    &&& fragments.to_multiset() == others.to_multiset()
    &&& forall|i: int, j: int|
        0 <= i < j < fragments.len() ==> (#[trigger] fragments[i]).id <= (
        #[trigger] fragments[j]).id
}

/// Fragments in the order of their ids are the same fragments, as often as before.
pub proof fn lemma_ordered(fragments: Seq<FragmentModel>)
    ensures
        is_ordered(sort_by_id(fragments), fragments),
        sort_by_id(fragments).len() == fragments.len(),
        forall|f: FragmentModel| #[trigger]
            sort_by_id(fragments).contains(f) <==> fragments.contains(f),
{
    sorting_is_stable(fragments, 0);
    fragments.to_multiset_ensures();
    sort_by_id(fragments).to_multiset_ensures();
    assert forall|f: FragmentModel| #[trigger] sort_by_id(fragments).contains(
        f,
    ) <==> fragments.contains(f) by {
        assert(sort_by_id(fragments).contains(f) <==> sort_by_id(fragments).to_multiset().count(f)
            > 0);
        assert(fragments.contains(f) <==> fragments.to_multiset().count(f) > 0);
    }
}

// Choosing.

/// The fragments whose ids are not among some, in order.
pub open spec fn not_among(fragments: Seq<FragmentModel>, ids: Seq<u64>) -> Seq<FragmentModel> {
    fragments.filter(|f: FragmentModel| !ids.contains(f.id))
}

proof fn lemma_not_among(fragments: Seq<FragmentModel>, ids: Seq<u64>)
    ensures
        without_ids(fragments, ids) == not_among(fragments, ids),
    decreases fragments.len(),
{
    let cond = |f: FragmentModel| !ids.contains(f.id);
    if fragments.len() > 0 {
        let rest = fragments.drop_first();
        lemma_not_among(rest, ids);
        assert(fragments =~= seq![fragments[0]] + rest);
        rest.lemma_filter_prepend(fragments[0], cond);
        assert(Seq::<FragmentModel>::empty() + rest.filter(cond) =~= rest.filter(cond));
    } else {
        reveal(Seq::filter);
        assert(fragments =~= Seq::<FragmentModel>::empty());
    }
}

/// Whether fragments are others after an update by id: one whose id no update has is as it
/// was, and one whose id an update has is that update, with all its parts. Where several
/// updates have the id, it is the last of them, or the first.
pub open spec fn are_updated(
    fragments: Seq<FragmentModel>,
    updates: Seq<FragmentModel>,
    last: bool,
    out: Seq<FragmentModel>,
) -> bool {
    &&& out.len() == fragments.len()
    &&& forall|i: int|
        0 <= i < fragments.len() && (forall|k: int|
            0 <= k < updates.len() ==> (#[trigger] updates[k]).id != fragments[i].id)
            ==> #[trigger] out[i] == fragments[i]
    &&& forall|i: int, k: int|
        0 <= i < fragments.len() && 0 <= k < updates.len() && (#[trigger] updates[k]).id
            == fragments[i].id && (forall|j: int|
            0 <= j < updates.len() && (if last {
                j > k
            } else {
                j < k
            }) ==> (#[trigger] updates[j]).id != fragments[i].id) ==> #[trigger] out[i]
            == updates[k]
}

proof fn lemma_last_is(updates: Seq<FragmentModel>, id: u64)
    ensures
        match last_with_id(updates, id) {
            Some(f) => f.id == id,
            None => forall|k: int| 0 <= k < updates.len() ==> (#[trigger] updates[k]).id != id,
        },
        forall|k: int|
            0 <= k < updates.len() && (#[trigger] updates[k]).id == id && (forall|j: int|
                k < j < updates.len() ==> (#[trigger] updates[j]).id != id) ==> last_with_id(
                updates,
                id,
            ) == Some(updates[k]),
    decreases updates.len(),
{
    if updates.len() > 0 {
        let front = updates.drop_last();
        lemma_last_is(front, id);
        assert(forall|k: int| 0 <= k < front.len() ==> (#[trigger] front[k]) == updates[k]);
        assert(updates.last() == updates[updates.len() - 1]);
        if last_with_id(updates, id) is None {
            assert forall|k: int| 0 <= k < updates.len() implies (#[trigger] updates[k]).id
                != id by {
                if k < front.len() {
                    assert(front[k].id != id);
                }
            }
        }
        assert forall|k: int|
            0 <= k < updates.len() && (#[trigger] updates[k]).id == id && (forall|j: int|
                k < j < updates.len() ==> (#[trigger] updates[j]).id != id) implies last_with_id(
            updates,
            id,
        ) == Some(updates[k]) by {
            if k < front.len() {
                assert(updates[updates.len() - 1].id != id);
                assert(front[k].id == id);
            }
        }
    }
}

proof fn lemma_first_is(updates: Seq<FragmentModel>, id: u64)
    ensures
        match first_with_id(updates, id) {
            Some(f) => f.id == id,
            None => forall|k: int| 0 <= k < updates.len() ==> (#[trigger] updates[k]).id != id,
        },
        forall|k: int|
            0 <= k < updates.len() && (#[trigger] updates[k]).id == id && (forall|j: int|
                0 <= j < k ==> (#[trigger] updates[j]).id != id) ==> first_with_id(updates, id)
                == Some(updates[k]),
    decreases updates.len(),
{
    if updates.len() > 0 {
        let rest = updates.drop_first();
        lemma_first_is(rest, id);
        assert(forall|k: int| 0 <= k < rest.len() ==> (#[trigger] rest[k]) == updates[k + 1]);
        if first_with_id(updates, id) is None {
            assert forall|k: int| 0 <= k < updates.len() implies (#[trigger] updates[k]).id
                != id by {
                if k > 0 {
                    assert(rest[k - 1].id != id);
                }
            }
        }
        assert forall|k: int|
            0 <= k < updates.len() && (#[trigger] updates[k]).id == id && (forall|j: int|
                0 <= j < k ==> (#[trigger] updates[j]).id != id) implies first_with_id(updates, id)
            == Some(updates[k]) by {
            if k > 0 {
                assert(updates[0].id != id);
                assert(rest[k - 1].id == id);
                assert forall|j: int| 0 <= j < k - 1 implies (#[trigger] rest[j]).id != id by {
                    assert(updates[j + 1].id != id);
                }
            }
        }
    }
}

#[verifier::spinoff_prover]
#[verifier::rlimit(60)]
proof fn lemma_updated(fragments: Seq<FragmentModel>, updates: Seq<FragmentModel>)
    ensures
        are_updated(fragments, updates, true, updated_by_last(fragments, updates)),
        are_updated(fragments, updates, false, updated_by_first(fragments, updates)),
{
    let a = updated_by_last(fragments, updates);
    let b = updated_by_first(fragments, updates);
    assert forall|i: int|
        0 <= i < fragments.len() && (forall|k: int|
            0 <= k < updates.len() ==> (#[trigger] updates[k]).id
                != fragments[i].id) implies #[trigger] a[i] == fragments[i] by {
        lemma_last_is(updates, fragments[i].id);
        lemma_found_among(updates, fragments[i].id);
    }
    assert forall|i: int|
        0 <= i < fragments.len() && (forall|k: int|
            0 <= k < updates.len() ==> (#[trigger] updates[k]).id
                != fragments[i].id) implies #[trigger] b[i] == fragments[i] by {
        lemma_first_is(updates, fragments[i].id);
        lemma_found_among(updates, fragments[i].id);
    }
    assert forall|i: int, k: int|
        0 <= i < fragments.len() && 0 <= k < updates.len() && (#[trigger] updates[k]).id
            == fragments[i].id && (forall|j: int|
            0 <= j < updates.len() && j > k ==> (#[trigger] updates[j]).id
                != fragments[i].id) implies #[trigger] a[i] == updates[k] by {
        lemma_last_is(updates, fragments[i].id);
    }
    assert forall|i: int, k: int|
        0 <= i < fragments.len() && 0 <= k < updates.len() && (#[trigger] updates[k]).id
            == fragments[i].id && (forall|j: int|
            0 <= j < updates.len() && j < k ==> (#[trigger] updates[j]).id
                != fragments[i].id) implies #[trigger] b[i] == updates[k] by {
        lemma_first_is(updates, fragments[i].id);
    }
}

proof fn lemma_found_among(updates: Seq<FragmentModel>, id: u64)
    requires
        forall|k: int| 0 <= k < updates.len() ==> (#[trigger] updates[k]).id != id,
    ensures
        last_with_id(updates, id) is None,
        first_with_id(updates, id) is None,
    decreases updates.len(),
{
    if updates.len() > 0 {
        assert(updates[updates.len() - 1].id != id);
        assert(updates[0].id != id);
        assert(forall|k: int|
            0 <= k < updates.len() - 1 ==> (#[trigger] updates.drop_last()[k]) == updates[k]);
        assert(forall|k: int|
            0 <= k < updates.len() - 1 ==> (#[trigger] updates.drop_first()[k]) == updates[k + 1]);
        lemma_found_among(updates.drop_last(), id);
        lemma_found_among(updates.drop_first(), id);
    }
}

// Indices.

/// Whether a field of a schema, at any depth, has an id.
pub open spec fn in_schema(schema: SchemaModel, id: i32) -> bool {
    exists|k: int|
        0 <= k < pre_order(schema.fields).len() && (#[trigger] pre_order(schema.fields)[k]).id
            == id
}

/// Whether an index makes sense for a schema and fragments: it is one of the system, or
/// the schema has all its fields and it covers one of the fragments, if it is known which
/// ones it covers.
pub open spec fn makes_sense(
    index: IndexModel,
    schema: SchemaModel,
    fragments: Seq<FragmentModel>,
) -> bool {
    ||| index.system
    ||| {
        &&& forall|i: int|
            0 <= i < index.fields.len() ==> in_schema(schema, #[trigger] index.fields[i])
        &&& match index.fragment_bitmap {
            Some(ids) => exists|j: int|
                0 <= j < fragments.len() && (#[trigger] fragments[j]).id <= u32::MAX
                    && ids.contains(fragments[j].id as u32),
            None => true,
        }
    }
}

/// The indices that make sense, in order.
pub open spec fn sensible(
    indices: Seq<IndexModel>,
    schema: SchemaModel,
    fragments: Seq<FragmentModel>,
) -> Seq<IndexModel> {
    indices.filter(|index: IndexModel| makes_sense(index, schema, fragments))
}

#[verifier::spinoff_prover]
#[verifier::rlimit(60)]
proof fn lemma_makes_sense(
    index: IndexModel,
    schema: SchemaModel,
    fragments: Seq<FragmentModel>,
    others: Seq<FragmentModel>,
)
    requires
        forall|f: FragmentModel| #[trigger] others.contains(f) <==> fragments.contains(f),
    ensures
        is_relevant(index, schema_ids(schema), fragments) <==> makes_sense(index, schema, others),
{
    let ids = schema_ids(schema);
    let all = pre_order(schema.fields);
    assert forall|i: int| 0 <= i < index.fields.len() implies (ids.contains(
        #[trigger] index.fields[i],
    ) <==> in_schema(schema, index.fields[i])) by {
        let id = index.fields[i];
        if ids.contains(id) {
            let k = choose|k: int| 0 <= k < ids.len() && ids[k] == id;
            assert(all[k].id == id);
        }
        if in_schema(schema, id) {
            let k = choose|k: int| 0 <= k < all.len() && (#[trigger] all[k]).id == id;
            assert(ids[k] == id);
        }
    }
    match index.fragment_bitmap {
        Some(b) => {
            let present = fragment_ids(fragments);
            if crate::indices::covers_one_of(b, present) {
                let id = choose|id: u32| #[trigger] b.contains(id) && present.contains(id as u64);
                let j = choose|j: int| 0 <= j < present.len() && present[j] == id as u64;
                assert(fragments.contains(fragments[j]));
                assert(others.contains(fragments[j]));
                let k = choose|k: int| 0 <= k < others.len() && others[k] == fragments[j];
                assert(others[k].id as u32 == id);
            }
            if exists|j: int|
                0 <= j < others.len() && (#[trigger] others[j]).id <= u32::MAX && b.contains(
                    others[j].id as u32,
                ) {
                let j = choose|j: int|
                    0 <= j < others.len() && (#[trigger] others[j]).id <= u32::MAX && b.contains(
                        others[j].id as u32,
                    );
                assert(others.contains(others[j]));
                assert(fragments.contains(others[j]));
                let k = choose|k: int| 0 <= k < fragments.len() && fragments[k] == others[j];
                assert(present[k] == others[j].id);
                assert(present.contains((others[j].id as u32) as u64));
            }
        },
        None => {},
    }
}

proof fn lemma_sensible(
    indices: Seq<IndexModel>,
    schema: SchemaModel,
    fragments: Seq<FragmentModel>,
    others: Seq<FragmentModel>,
)
    requires
        forall|f: FragmentModel| #[trigger] others.contains(f) <==> fragments.contains(f),
    ensures
        relevant_indices(indices, schema_ids(schema), fragments) == sensible(
            indices,
            schema,
            others,
        ),
    decreases indices.len(),
{
    let cond = |index: IndexModel| makes_sense(index, schema, others);
    if indices.len() > 0 {
        let rest = indices.drop_first();
        lemma_sensible(rest, schema, fragments, others);
        lemma_makes_sense(indices[0], schema, fragments, others);
        assert(indices =~= seq![indices[0]] + rest);
        rest.lemma_filter_prepend(indices[0], cond);
        assert(Seq::<IndexModel>::empty() + rest.filter(cond) =~= rest.filter(cond));
    } else {
        reveal(Seq::filter);
        assert(indices =~= Seq::<IndexModel>::empty());
    }
}

// Operations.

/// Appending keeps every fragment as it is and adds the new ones, with the next free ids
/// and row ids; the schema and the indices stay.
pub proof fn appending_adds(
    t: TransactionModel,
    current: ManifestModel,
    indices: Seq<IndexModel>,
    stable_row_ids: bool,
    numbers: Seq<Option<(u32, u32)>>,
)
    requires
        t.operation is Append,
        numbers_suffice(t.operation, Some(current), stable_row_ids),
        plan(t, Some(current), indices, stable_row_ids, numbers) is Ok,
    ensures
        ({
            let p = plan(t, Some(current), indices, stable_row_ids, numbers)->Ok_0;
            let new = t.operation->Append_fragments;
            &&& exists|first: int, added: Seq<FragmentModel>|
                {
                    &&& is_first_free(current, first)
                    &&& #[trigger] are_added(new, first, free_row(current), added)
                    &&& is_ordered(p.fragments, current.fragments + added)
                }
            &&& p.schema == current.schema
            &&& p.indices == indices
            &&& match free_row(current) {
                Some(row) => p.next_row_id is Some && p.next_row_id->0 == row + rows_before(
                    new,
                    new.len() as int,
                ),
                None => p.next_row_id is None,
            }
        }),
{
    let new = t.operation->Append_fragments;
    let first = next_fragment_id(t.operation, Some(current));
    let row = first_row_id(Some(current), stable_row_ids);
    lemma_first_free(t.operation, current);
    lemma_added(new, first, row);
    let added = with_rows(number_fragments(new, first), row)->Ok_0.0;
    lemma_ordered(current.fragments + added);
    assert(are_added(new, first, free_row(current), added));
}

/// Deleting leaves out the fragments with a deleted id. Of the others, one whose id an
/// updated fragment has is exactly that updated fragment, all of its parts included, and
/// every other one stays as it is. Of the indices those stay that make sense for what is
/// left.
#[verifier::spinoff_prover]
#[verifier::rlimit(60)]
pub proof fn deleting_updates_the_rest(
    t: TransactionModel,
    current: ManifestModel,
    indices: Seq<IndexModel>,
    stable_row_ids: bool,
    numbers: Seq<Option<(u32, u32)>>,
)
    requires
        t.operation is Delete,
        plan(t, Some(current), indices, stable_row_ids, numbers) is Ok,
    ensures
        ({
            let p = plan(t, Some(current), indices, stable_row_ids, numbers)->Ok_0;
            let updates = t.operation->Delete_updated_fragments;
            let deleted = t.operation->deleted_fragment_ids;
            &&& exists|out: Seq<FragmentModel>|
                {
                    &&& #[trigger] are_updated(
                        not_among(current.fragments, deleted),
                        updates,
                        true,
                        out,
                    )
                    &&& is_ordered(p.fragments, out)
                }
            &&& forall|f: FragmentModel, k: int|
                #![trigger current.fragments.contains(f), updates[k]]
                current.fragments.contains(f) && !deleted.contains(f.id) && 0 <= k < updates.len()
                    && updates[k].id == f.id && (forall|j: int|
                    0 <= j < updates.len() && j != k ==> (#[trigger] updates[j]).id != f.id)
                    ==> p.fragments.contains(updates[k])
            &&& forall|f: FragmentModel| #[trigger]
                current.fragments.contains(f) && !deleted.contains(f.id) && (forall|j: int|
                    0 <= j < updates.len() ==> (#[trigger] updates[j]).id != f.id)
                    ==> p.fragments.contains(f)
            &&& p.schema == current.schema
            &&& p.indices == sensible(indices, current.schema, p.fragments)
            &&& p.next_row_id == free_row(current)
        }),
{
    let p = plan(t, Some(current), indices, stable_row_ids, numbers)->Ok_0;
    let updates = t.operation->Delete_updated_fragments;
    let deleted = t.operation->deleted_fragment_ids;
    let kept = without_ids(current.fragments, deleted);
    let out = updated_by_last(kept, updates);
    lemma_not_among(current.fragments, deleted);
    lemma_updated(kept, updates);
    lemma_ordered(out);
    lemma_sensible(indices, current.schema, out, p.fragments);
    assert(are_updated(not_among(current.fragments, deleted), updates, true, out));
    assert forall|f: FragmentModel, k: int|
        #![trigger current.fragments.contains(f), updates[k]]
        current.fragments.contains(f) && !deleted.contains(f.id) && 0 <= k < updates.len()
            && updates[k].id == f.id && (forall|j: int|
            0 <= j < updates.len() && j != k ==> (#[trigger] updates[j]).id
                != f.id) implies p.fragments.contains(updates[k]) by {
        lemma_without_ids(current.fragments, deleted, f);
        let i = choose|i: int| 0 <= i < kept.len() && kept[i] == f;
        assert(out[i] == updates[k]);
        assert(out.contains(updates[k]));
    }
    assert forall|f: FragmentModel| #[trigger]
        current.fragments.contains(f) && !deleted.contains(f.id) && (forall|j: int|
            0 <= j < updates.len() ==> (#[trigger] updates[j]).id
                != f.id) implies p.fragments.contains(f) by {
        lemma_without_ids(current.fragments, deleted, f);
        let i = choose|i: int| 0 <= i < kept.len() && kept[i] == f;
        assert(out[i] == f);
        assert(out.contains(f));
    }
}

/// Whether an index is over a field that was modified.
pub open spec fn is_over_modified(index: IndexModel, modified: Seq<u32>) -> bool {
    exists|i: int, k: int|
        0 <= i < index.fields.len() && 0 <= k < modified.len() && (#[trigger] index.fields[i])
            == #[trigger] modified[k]
}

/// Whether indices are others after fragments were updated: one over a field that was
/// modified does not cover the updated fragments any more, and is otherwise as it was; every
/// other one is as it was.
pub open spec fn are_pruned(
    indices: Seq<IndexModel>,
    updated: Seq<FragmentModel>,
    modified: Seq<u32>,
    out: Seq<IndexModel>,
) -> bool {
    &&& out.len() == indices.len()
    &&& forall|i: int|
        0 <= i < indices.len() ==> {
            &&& (#[trigger] out[i]) == (IndexModel {
                fragment_bitmap: out[i].fragment_bitmap,
                ..indices[i]
            })
            &&& match indices[i].fragment_bitmap {
                Some(ids) if is_over_modified(indices[i], modified) => {
                    &&& out[i].fragment_bitmap is Some
                    &&& forall|id: u32| #[trigger]
                        out[i].fragment_bitmap->0.contains(id) <==> ids.contains(id) && !among(
                            updated,
                            id,
                        )
                },
                before => out[i].fragment_bitmap == before,
            }
        }
}

proof fn lemma_over_modified(index: IndexModel, modified: Seq<u32>)
    ensures
        is_over_modified(index, modified) <==> crate::indices::is_over(index.fields, modified),
{
    let fields = index.fields;
    if is_over_modified(index, modified) {
        let (i, k) = choose|i: int, k: int|
            0 <= i < fields.len() && 0 <= k < modified.len() && (#[trigger] fields[i])
                == #[trigger] modified[k];
        assert(fields[i] >= 0);
        assert(modified[k] == fields[i] as u32);
    }
    if crate::indices::is_over(fields, modified) {
        let i = choose|i: int|
            0 <= i < fields.len() && (#[trigger] fields[i]) >= 0 && modified.contains(
                fields[i] as u32,
            );
        let k = choose|k: int| 0 <= k < modified.len() && modified[k] == fields[i] as u32;
        assert(fields[i] == modified[k]);
    }
}

proof fn lemma_pruned(
    indices: Seq<IndexModel>,
    updated: Seq<FragmentModel>,
    modified: Seq<u32>,
)
    ensures
        are_pruned(indices, updated, modified, prune_indices(indices, updated, modified)),
{
    let out = prune_indices(indices, updated, modified);
    assert forall|i: int| 0 <= i < indices.len() implies {
        &&& (#[trigger] out[i]) == (IndexModel {
            fragment_bitmap: out[i].fragment_bitmap,
            ..indices[i]
        })
        &&& match indices[i].fragment_bitmap {
            Some(ids) if is_over_modified(indices[i], modified) => {
                &&& out[i].fragment_bitmap is Some
                &&& forall|id: u32| #[trigger]
                    out[i].fragment_bitmap->0.contains(id) <==> ids.contains(id) && !among(
                        updated,
                        id,
                    )
            },
            before => out[i].fragment_bitmap == before,
        }
    } by {
        lemma_over_modified(indices[i], modified);
        match indices[i].fragment_bitmap {
            Some(ids) => {
                if is_over_modified(indices[i], modified) {
                    assert forall|id: u32| #[trigger] out[i].fragment_bitmap->0.contains(
                        id,
                    ) <==> ids.contains(id) && !among(updated, id) by {
                        lemma_among(updated, id);
                    }
                }
            },
            None => {},
        }
    }
}

/// Updating leaves out the fragments with a removed id. Of the others, one whose id an
/// updated fragment has is exactly that updated fragment, all of its parts included, and
/// every other one stays as it is. The new fragments are added, with the next free ids and
/// row ids. Indices over modified fields do not cover the updated fragments any more, and
/// those indices stay that make sense for what there is then.
#[verifier::spinoff_prover]
#[verifier::rlimit(60)]
pub proof fn updating_replaces_and_adds(
    t: TransactionModel,
    current: ManifestModel,
    indices: Seq<IndexModel>,
    stable_row_ids: bool,
    numbers: Seq<Option<(u32, u32)>>,
)
    requires
        t.operation is Update,
        numbers_suffice(t.operation, Some(current), stable_row_ids),
        plan(t, Some(current), indices, stable_row_ids, numbers) is Ok,
    ensures
        ({
            let p = plan(t, Some(current), indices, stable_row_ids, numbers)->Ok_0;
            let removed = t.operation->removed_fragment_ids;
            let updates = t.operation->Update_updated_fragments;
            let new = t.operation->Update_new_fragments;
            let modified = t.operation->fields_modified;
            &&& exists|first: int, out: Seq<FragmentModel>, added: Seq<FragmentModel>|
                {
                    &&& is_first_free(current, first)
                    &&& #[trigger] are_updated(
                        not_among(current.fragments, removed),
                        updates,
                        false,
                        out,
                    )
                    &&& #[trigger] are_added(new, first, free_row(current), added)
                    &&& is_ordered(p.fragments, out + added)
                }
            &&& exists|pruned: Seq<IndexModel>|
                {
                    &&& #[trigger] are_pruned(indices, updates, modified, pruned)
                    &&& p.indices == sensible(pruned, current.schema, p.fragments)
                }
            &&& p.schema == current.schema
            &&& match free_row(current) {
                Some(row) => p.next_row_id is Some && p.next_row_id->0 == row + rows_before(
                    new,
                    new.len() as int,
                ),
                None => p.next_row_id is None,
            }
        }),
{
    let p = plan(t, Some(current), indices, stable_row_ids, numbers)->Ok_0;
    let removed = t.operation->removed_fragment_ids;
    let updates = t.operation->Update_updated_fragments;
    let new = t.operation->Update_new_fragments;
    let modified = t.operation->fields_modified;
    let first = next_fragment_id(t.operation, Some(current));
    let row = first_row_id(Some(current), stable_row_ids);
    let kept = without_ids(current.fragments, removed);
    let out = updated_by_first(kept, updates);
    lemma_first_free(t.operation, current);
    lemma_added(new, first, row);
    let added = with_rows(number_fragments(new, first), row)->Ok_0.0;
    lemma_not_among(current.fragments, removed);
    lemma_updated(kept, updates);
    lemma_ordered(out + added);
    assert(are_updated(not_among(current.fragments, removed), updates, false, out));
    assert(are_added(new, first, free_row(current), added));
    let pruned = prune_indices(indices, updates, modified);
    lemma_pruned(indices, updates, modified);
    lemma_sensible(pruned, current.schema, out + added, p.fragments);
}

/// The next free row id of a table that may not be there yet, if row ids are kept.
pub open spec fn starting_row(current: Option<ManifestModel>, stable_row_ids: bool) -> Option<u64> {
    match current {
        Some(m) => free_row(m),
        None => if stable_row_ids {
            Some(0u64)
        } else {
            None
        },
    }
}

/// Overwriting leaves only the new fragments, with ids from the first one on and the next
/// free row ids, and no index; the schema is the new one.
pub proof fn overwriting_replaces_everything(
    t: TransactionModel,
    current: Option<ManifestModel>,
    indices: Seq<IndexModel>,
    stable_row_ids: bool,
    numbers: Seq<Option<(u32, u32)>>,
)
    requires
        t.operation is Overwrite,
        numbers_suffice(t.operation, current, stable_row_ids),
        plan(t, current, indices, stable_row_ids, numbers) is Ok,
    ensures
        ({
            let p = plan(t, current, indices, stable_row_ids, numbers)->Ok_0;
            let new = t.operation->Overwrite_fragments;
            let row = starting_row(current, stable_row_ids);
            &&& exists|added: Seq<FragmentModel>|
                #[trigger] are_added(new, 0, row, added) && is_ordered(p.fragments, added)
            &&& p.schema == t.operation->Overwrite_schema
            &&& p.indices.len() == 0
            &&& match row {
                Some(row) => p.next_row_id is Some && p.next_row_id->0 == row + rows_before(
                    new,
                    new.len() as int,
                ),
                None => p.next_row_id is None,
            }
        }),
{
    let new = t.operation->Overwrite_fragments;
    let row = starting_row(current, stable_row_ids);
    lemma_added(new, 0, row);
    let added = with_rows(number_fragments(new, 0), row)->Ok_0.0;
    lemma_ordered(added);
    assert(are_added(new, 0, row, added));
}

/// Merging puts the fragments and the schema of the operation in place of those of the
/// table, and keeps the indices that make sense for them.
pub proof fn merging_replaces_fragments(
    t: TransactionModel,
    current: ManifestModel,
    indices: Seq<IndexModel>,
    stable_row_ids: bool,
    numbers: Seq<Option<(u32, u32)>>,
)
    requires
        t.operation is Merge,
        plan(t, Some(current), indices, stable_row_ids, numbers) is Ok,
    ensures
        ({
            let p = plan(t, Some(current), indices, stable_row_ids, numbers)->Ok_0;
            &&& is_ordered(p.fragments, t.operation->Merge_fragments)
            &&& p.schema == t.operation->Merge_schema
            &&& p.indices == sensible(indices, t.operation->Merge_schema, p.fragments)
            &&& p.next_row_id == free_row(current)
        }),
{
    let p = plan(t, Some(current), indices, stable_row_ids, numbers)->Ok_0;
    let fragments = t.operation->Merge_fragments;
    lemma_ordered(fragments);
    lemma_sensible(indices, t.operation->Merge_schema, fragments, p.fragments);
}

/// Whether a data file has a field of a schema.
pub open spec fn has_field_of(file: DataFileModel, schema: SchemaModel) -> bool {
    exists|i: int| 0 <= i < file.fields.len() && in_schema(schema, #[trigger] file.fields[i])
}

proof fn lemma_has_field_of(file: DataFileModel, schema: SchemaModel)
    ensures
        has_field_of(file, schema) <==> has_field(file, schema_ids(schema)),
{
    let ids = schema_ids(schema);
    let all = pre_order(schema.fields);
    assert forall|id: i32| #[trigger] in_schema(schema, id) <==> ids.contains(id) by {
        if ids.contains(id) {
            let k = choose|k: int| 0 <= k < ids.len() && ids[k] == id;
            assert(all[k].id == id);
        }
        if in_schema(schema, id) {
            let k = choose|k: int| 0 <= k < all.len() && (#[trigger] all[k]).id == id;
            assert(ids[k] == id);
        }
    }
    if has_field(file, ids) {
        let i = choose|i: int|
            0 <= i < file.fields.len() && ids.contains(#[trigger] file.fields[i]);
        assert(in_schema(schema, file.fields[i]));
    }
}

/// The data files that have a field of a schema, in order.
pub open spec fn files_of_schema(files: Seq<DataFileModel>, schema: SchemaModel) -> Seq<
    DataFileModel,
> {
    files.filter(|file: DataFileModel| has_field_of(file, schema))
}

proof fn lemma_files_of_schema(files: Seq<DataFileModel>, schema: SchemaModel)
    ensures
        files_with(files, schema_ids(schema)) == files_of_schema(files, schema),
    decreases files.len(),
{
    let cond = |file: DataFileModel| has_field_of(file, schema);
    if files.len() > 0 {
        let rest = files.drop_first();
        lemma_files_of_schema(rest, schema);
        lemma_has_field_of(files[0], schema);
        assert(files =~= seq![files[0]] + rest);
        rest.lemma_filter_prepend(files[0], cond);
        assert(Seq::<DataFileModel>::empty() + rest.filter(cond) =~= rest.filter(cond));
    } else {
        reveal(Seq::filter);
        assert(files =~= Seq::<DataFileModel>::empty());
    }
}

/// Projecting keeps every fragment, with exactly those of its data files, in order, that
/// have a field of the new schema, and all else of it as it was. The indices stay that make
/// sense for the new schema.
pub proof fn projecting_drops_files(
    t: TransactionModel,
    current: ManifestModel,
    indices: Seq<IndexModel>,
    stable_row_ids: bool,
    numbers: Seq<Option<(u32, u32)>>,
)
    requires
        t.operation is Project,
        plan(t, Some(current), indices, stable_row_ids, numbers) is Ok,
    ensures
        ({
            let p = plan(t, Some(current), indices, stable_row_ids, numbers)->Ok_0;
            let schema = t.operation->Project_schema;
            &&& exists|out: Seq<FragmentModel>|
                {
                    &&& #[trigger] is_ordered(p.fragments, out)
                    &&& out.len() == current.fragments.len()
                    &&& forall|i: int|
                        0 <= i < out.len() ==> (#[trigger] out[i]) == (FragmentModel {
                            files: files_of_schema(current.fragments[i].files, schema),
                            ..current.fragments[i]
                        })
                }
            &&& p.schema == schema
            &&& p.indices == sensible(indices, schema, p.fragments)
            &&& p.next_row_id == free_row(current)
        }),
{
    let p = plan(t, Some(current), indices, stable_row_ids, numbers)->Ok_0;
    let schema = t.operation->Project_schema;
    let out = keep_fields(current.fragments, schema_ids(schema));
    lemma_ordered(out);
    lemma_sensible(indices, schema, out, p.fragments);
    assert forall|i: int| 0 <= i < out.len() implies (#[trigger] out[i]) == (FragmentModel {
        files: files_of_schema(current.fragments[i].files, schema),
        ..current.fragments[i]
    }) by {
        lemma_files_of_schema(current.fragments[i].files, schema);
    }
    assert(is_ordered(p.fragments, out));
}

/// Whether an index gives way to new ones or is removed: a new one has its name, or a
/// removed one has its id.
pub open spec fn gives_way(
    index: IndexModel,
    new: Seq<IndexModel>,
    removed: Seq<IndexModel>,
) -> bool {
    ||| exists|i: int| 0 <= i < new.len() && (#[trigger] new[i]).name == index.name
    ||| exists|i: int| 0 <= i < removed.len() && (#[trigger] removed[i]).uuid == index.uuid
}

/// The indices that do not give way, in order.
pub open spec fn remaining_indices(
    indices: Seq<IndexModel>,
    new: Seq<IndexModel>,
    removed: Seq<IndexModel>,
) -> Seq<IndexModel> {
    indices.filter(|index: IndexModel| !gives_way(index, new, removed))
}

/// Leaving out indices that give way.
pub proof fn lemma_remaining(
    indices: Seq<IndexModel>,
    new: Seq<IndexModel>,
    removed: Seq<IndexModel>,
)
    ensures
        crate::indices::indices_without(indices, new, removed) == remaining_indices(
            indices,
            new,
            removed,
        ),
    decreases indices.len(),
{
    let cond = |index: IndexModel| !gives_way(index, new, removed);
    if indices.len() > 0 {
        let rest = indices.drop_first();
        lemma_remaining(rest, new, removed);
        assert(indices =~= seq![indices[0]] + rest);
        rest.lemma_filter_prepend(indices[0], cond);
        assert(Seq::<IndexModel>::empty() + rest.filter(cond) =~= rest.filter(cond));
    } else {
        reveal(Seq::filter);
        assert(indices =~= Seq::<IndexModel>::empty());
    }
}

/// Creating indices leaves out those that have the name of a new one or the id of a removed
/// one, keeps the others in order and puts the new ones behind them; the fragments and the
/// schema stay.
pub proof fn creating_indices(
    t: TransactionModel,
    current: ManifestModel,
    indices: Seq<IndexModel>,
    stable_row_ids: bool,
    numbers: Seq<Option<(u32, u32)>>,
)
    requires
        t.operation is CreateIndex,
        plan(t, Some(current), indices, stable_row_ids, numbers) is Ok,
    ensures
        ({
            let p = plan(t, Some(current), indices, stable_row_ids, numbers)->Ok_0;
            let new = t.operation->new_indices;
            &&& p.indices == remaining_indices(indices, new, t.operation->removed_indices) + new
            &&& is_ordered(p.fragments, current.fragments)
            &&& p.schema == current.schema
            &&& p.next_row_id == free_row(current)
        }),
{
    lemma_remaining(indices, t.operation->new_indices, t.operation->removed_indices);
    lemma_ordered(current.fragments);
}

/// Reserving ids, updating the configuration and updating the state of write-ahead logs
/// leave the content of the table as it is.
pub proof fn content_stays(
    t: TransactionModel,
    current: ManifestModel,
    indices: Seq<IndexModel>,
    stable_row_ids: bool,
    numbers: Seq<Option<(u32, u32)>>,
)
    requires
        t.operation is ReserveFragments || t.operation is UpdateConfig
            || t.operation is UpdateMemWalState,
        plan(t, Some(current), indices, stable_row_ids, numbers) is Ok,
    ensures
        ({
            let p = plan(t, Some(current), indices, stable_row_ids, numbers)->Ok_0;
            &&& is_ordered(p.fragments, current.fragments)
            &&& p.schema == current.schema
            &&& p.indices == indices
            &&& p.next_row_id == free_row(current)
        }),
{
    lemma_ordered(current.fragments);
}

/// A plan asks for an update of the index of write-ahead logs where the operation flushes a
/// log, which then takes the place of itself with the state flushed, or where it updates the
/// states of logs, and nowhere else. The update is for the next version.
pub proof fn logs_are_updated(
    t: TransactionModel,
    current: Option<ManifestModel>,
    indices: Seq<IndexModel>,
    stable_row_ids: bool,
    numbers: Seq<Option<(u32, u32)>>,
)
    requires
        numbers_suffice(t.operation, current, stable_row_ids),
        plan(t, current, indices, stable_row_ids, numbers) is Ok,
    ensures
        ({
            let p = plan(t, current, indices, stable_row_ids, numbers)->Ok_0;
            let flushes = t.operation is Update && t.operation->mem_wal_to_flush is Some;
            &&& p.mem_wal is Some <==> flushes || t.operation is UpdateMemWalState
            &&& p.mem_wal is Some ==> {
                &&& p.mem_wal->0.read_version == t.read_version
                &&& p.mem_wal->0.new_version == (match current {
                    Some(m) => m.version + 1,
                    None => 1,
                })
            }
            &&& flushes ==> {
                let log = t.operation->mem_wal_to_flush->0;
                &&& p.mem_wal->0.added.len() == 0
                &&& p.mem_wal->0.removed == seq![log]
                &&& p.mem_wal->0.updated == seq![
                    MemWalModel { state: MemWalState::Flushed, ..log },
                ]
            }
            &&& t.operation is UpdateMemWalState ==> {
                &&& p.mem_wal->0.added == t.operation->added
                &&& p.mem_wal->0.updated == t.operation->updated
                &&& p.mem_wal->0.removed == t.operation->removed
            }
        }),
{
}

/// The fragments that an operation adds.
pub open spec fn fragments_to_add(op: OperationModel) -> Seq<FragmentModel> {
    match op {
        OperationModel::Append { fragments } => fragments,
        OperationModel::Overwrite { fragments, .. } => fragments,
        OperationModel::Update { new_fragments, .. } => new_fragments,
        _ => Seq::empty(),
    }
}

/// Whether it is not known of one of some fragments how many rows it has.
pub open spec fn lacks_rows(fragments: Seq<FragmentModel>) -> bool {
    exists|i: int| 0 <= i < fragments.len() && (#[trigger] fragments[i]).physical_rows is None
}

/// Planning fails from the start where stable row ids are asked for and the table has none,
/// and where an operation other than an overwrite or a merge has no table to build on.
/// Otherwise every operation can be planned, but one that adds fragments of which it is not
/// known how many rows they have, where row ids are kept, and but for rewrites and
/// replacements of data.
#[verifier::spinoff_prover]
#[verifier::rlimit(60)]
pub proof fn planning_succeeds(
    t: TransactionModel,
    current: Option<ManifestModel>,
    indices: Seq<IndexModel>,
    stable_row_ids: bool,
    numbers: Seq<Option<(u32, u32)>>,
)
    ensures
        ({
            let r = plan(t, current, indices, stable_row_ids, numbers);
            let refused = stable_row_ids && current is Some && !keeps_row_ids(current->0);
            let nowhere = current is None && t.operation !is Overwrite && t.operation !is Merge;
            let row_ids = match current {
                Some(m) => keeps_row_ids(m),
                None => stable_row_ids,
            };
            let unknown = row_ids && lacks_rows(fragments_to_add(t.operation));
            &&& refused ==> r == Err::<PlanModel, ErrorModel>(
                ErrorModel::NotSupported {
                    source: "Cannot enable stable row ids on existing dataset"@,
                },
            )
            &&& nowhere ==> r is Err
            &&& !refused && !nowhere && unknown ==> r == Err::<PlanModel, ErrorModel>(
                ErrorModel::Internal { message: "Fragment does not have physical rows"@ },
            )
            &&& !refused && !nowhere && !unknown && t.operation !is Rewrite
                && t.operation !is DataReplacement ==> r is Ok
        }),
{
    let new = fragments_to_add(t.operation);
    assert(lacks_rows(new) <==> !rows_known(new));
    lemma_rows_stay_known(new, next_fragment_id(t.operation, current));
}

proof fn lemma_rows_stay_known(new: Seq<FragmentModel>, first: int)
    ensures
        rows_known(number_fragments(new, first)) <==> rows_known(new),
        number_fragments(new, first).len() == new.len(),
    decreases new.len(),
{
    if new.len() > 0 {
        let rest = new.drop_first();
        let after = if new[0].id == 0 {
            first + 1
        } else {
            first
        };
        let out = number_fragments(new, first);
        let tail = number_fragments(rest, after);
        lemma_rows_stay_known(rest, after);
        assert(forall|i: int| 0 <= i < rest.len() ==> (#[trigger] rest[i]) == new[i + 1]);
        assert(forall|i: int| 0 <= i < tail.len() ==> (#[trigger] tail[i]) == out[i + 1]);
        assert(out[0].physical_rows == new[0].physical_rows);
        if rows_known(new) {
            assert(rows_known(rest));
            assert forall|i: int| 0 <= i < out.len() implies (
            #[trigger] out[i]).physical_rows is Some by {
                if i > 0 {
                    assert(tail[i - 1].physical_rows is Some);
                } else {
                    assert(new[0].physical_rows is Some);
                }
            }
        }
        if rows_known(out) {
            assert(rows_known(tail));
            assert forall|i: int| 0 <= i < new.len() implies (
            #[trigger] new[i]).physical_rows is Some by {
                if i > 0 {
                    assert(rest[i - 1].physical_rows is Some);
                } else {
                    assert(out[0].physical_rows is Some);
                }
            }
        }
    }
}

// Replacing data.

/// Whether a data file has the fields of a new one, in the same version of the format.
pub open spec fn is_aligned(file: DataFileModel, new: DataFileModel) -> bool {
    &&& file.fields == new.fields
    &&& file.file_major_version == new.file_major_version
    &&& file.file_minor_version == new.file_minor_version
}

/// Whether a data file of a fragment has a field of a new one.
pub open spec fn shares_field(f: FragmentModel, new: DataFileModel) -> bool {
    exists|j: int, a: int, b: int|
        {
            &&& 0 <= j < f.files.len()
            &&& 0 <= a < f.files[j].fields.len()
            &&& 0 <= b < new.fields.len()
            &&& (#[trigger] f.files[j].fields[a]) == #[trigger] new.fields[b]
        }
}

/// Whether a fragment is another whose data was replaced by a new file: wherever a file
/// stands that is aligned with it, that file has the path and the size of the new one; every
/// other file, and all else, is as it was; and a file of whose fields the fragment had none
/// comes at the end, with the given version.
pub open spec fn has_replaced(
    f: FragmentModel,
    new: DataFileModel,
    version: Option<(u32, u32)>,
    g: FragmentModel,
) -> bool {
    &&& g == (FragmentModel { files: g.files, ..f })
    &&& g.files.len() == f.files.len() + (if shares_field(f, new) {
        0int
    } else {
        1int
    })
    &&& forall|j: int|
        0 <= j < f.files.len() ==> (#[trigger] g.files[j]) == (if is_aligned(f.files[j], new) {
            DataFileModel {
                path: new.path,
                file_size_bytes: new.file_size_bytes,
                ..f.files[j]
            }
        } else {
            f.files[j]
        })
    &&& !shares_field(f, new) ==> g.files.last() == (DataFileModel {
        file_major_version: (version->0).0,
        file_minor_version: (version->0).1,
        ..new
    })
}

/// Whether replacing data by a new file changes a fragment: an aligned file has another path
/// or another size, or no file has a field of the new one.
pub open spec fn makes_a_change(f: FragmentModel, new: DataFileModel) -> bool {
    ||| !shares_field(f, new)
    ||| exists|j: int|
        0 <= j < f.files.len() && is_aligned(#[trigger] f.files[j], new) && (f.files[j].path
            != new.path || f.files[j].file_size_bytes != new.file_size_bytes)
}

/// Whether a fragment is the first one of its id.
pub open spec fn is_first_fragment(fragments: Seq<FragmentModel>, i: int) -> bool {
    &&& 0 <= i < fragments.len()
    &&& forall|j: int| 0 <= j < i ==> (#[trigger] fragments[j]).id != fragments[i].id
}

proof fn lemma_shares_field(f: FragmentModel, new: DataFileModel)
    ensures
        shares_field(f, new) <==> covers_field(f.files, new.fields),
{
    if shares_field(f, new) {
        let (j, a, b) = choose|j: int, a: int, b: int|
            {
                &&& 0 <= j < f.files.len()
                &&& 0 <= a < f.files[j].fields.len()
                &&& 0 <= b < new.fields.len()
                &&& (#[trigger] f.files[j].fields[a]) == #[trigger] new.fields[b]
            };
        assert(new.fields.contains(f.files[j].fields[a]));
        assert(has_field(f.files[j], new.fields));
    }
    if covers_field(f.files, new.fields) {
        let j = choose|j: int|
            0 <= j < f.files.len() && has_field(#[trigger] f.files[j], new.fields);
        let a = choose|a: int|
            0 <= a < f.files[j].fields.len() && new.fields.contains(
                #[trigger] f.files[j].fields[a],
            );
        let b = choose|b: int|
            0 <= b < new.fields.len() && new.fields[b] == f.files[j].fields[a];
        assert(f.files[j].fields[a] == new.fields[b]);
    }
}

/// A fragment whose data is replaced is as described, and is another one exactly if the
/// replacement makes a change.
pub proof fn replacing_data(f: FragmentModel, new: DataFileModel, version: Option<(u32, u32)>)
    ensures
        has_replaced(f, new, version, replace_data(f, new, version)),
        replace_data(f, new, version) != f <==> makes_a_change(f, new),
{
    let g = replace_data(f, new, version);
    lemma_shares_field(f, new);
    assert forall|j: int| 0 <= j < f.files.len() implies (#[trigger] g.files[j]) == (if is_aligned(
        f.files[j],
        new,
    ) {
        DataFileModel { path: new.path, file_size_bytes: new.file_size_bytes, ..f.files[j] }
    } else {
        f.files[j]
    }) by {}
    if makes_a_change(f, new) && shares_field(f, new) {
        let j = choose|j: int|
            0 <= j < f.files.len() && is_aligned(#[trigger] f.files[j], new) && (f.files[j].path
                != new.path || f.files[j].file_size_bytes != new.file_size_bytes);
        assert(g.files[j] != f.files[j]);
    }
    if !makes_a_change(f, new) {
        assert forall|j: int| 0 <= j < f.files.len() implies g.files[j] == f.files[j] by {
            assert(is_aligned(f.files[j], new) ==> f.files[j].path == new.path
                && f.files[j].file_size_bytes == new.file_size_bytes);
        }
        assert(g.files =~= f.files);
    }
}

proof fn lemma_first_fragment(fragments: Seq<FragmentModel>, id: u64)
    ensures
        match first_with_id(fragments, id) {
            Some(f) => exists|i: int|
                #[trigger] is_first_fragment(fragments, i) && fragments[i] == f && f.id == id,
            None => forall|i: int|
                0 <= i < fragments.len() ==> (#[trigger] fragments[i]).id != id,
        },
        forall|i: int| #[trigger]
            is_first_fragment(fragments, i) && fragments[i].id == id ==> first_with_id(
                fragments,
                id,
            ) == Some(fragments[i]),
    decreases fragments.len(),
{
    lemma_first_is(fragments, id);
    match first_with_id(fragments, id) {
        Some(f) => {
            if fragments[0].id == id {
                assert(is_first_fragment(fragments, 0));
            } else {
                let rest = fragments.drop_first();
                lemma_first_fragment(rest, id);
                let i = choose|i: int|
                    #[trigger] is_first_fragment(rest, i) && rest[i] == f && f.id == id;
                assert forall|j: int| 0 <= j < i + 1 implies (#[trigger] fragments[j]).id
                    != fragments[i + 1].id by {
                    if j > 0 {
                        assert(rest[j - 1] == fragments[j]);
                    }
                }
                assert(is_first_fragment(fragments, i + 1));
            }
        },
        None => {},
    }
}

#[verifier::spinoff_prover]
#[verifier::rlimit(60)]
proof fn lemma_replaced_each(
    existing: Seq<FragmentModel>,
    replacements: Seq<(u64, DataFileModel)>,
    numbers: Seq<Option<(u32, u32)>>,
    k: int,
)
    requires
        0 <= k <= replacements.len(),
    ensures
        match replaced_fragments(existing, replacements, numbers, k) {
            Ok(out) => {
                &&& out.len() == replacements.len() - k
                &&& forall|e: int|
                    k <= e < replacements.len() ==> {
                        let f = first_with_id(existing, (#[trigger] replacements[e]).0);
                        &&& f is Some
                        &&& makes_a_change(f->0, replacements[e].1)
                        &&& has_replaced(f->0, replacements[e].1, numbers[e], out[e - k])
                    }
            },
            Err(_) => exists|e: int|
                k <= e < replacements.len() && {
                    let f = first_with_id(existing, (#[trigger] replacements[e]).0);
                    f is None || !makes_a_change(f->0, replacements[e].1)
                },
        },
    decreases replacements.len() - k,
{
    if k < replacements.len() {
        lemma_replaced_each(existing, replacements, numbers, k + 1);
        match first_with_id(existing, replacements[k].0) {
            None => {
                assert(first_with_id(existing, replacements[k].0) is None);
            },
            Some(f) => {
                replacing_data(f, replacements[k].1, numbers[k]);
                match replaced_fragments(existing, replacements, numbers, k) {
                    Ok(out) => {
                        let rest = replaced_fragments(
                            existing,
                            replacements,
                            numbers,
                            k + 1,
                        )->Ok_0;
                        assert forall|e: int| k <= e < replacements.len() implies {
                            let f = first_with_id(existing, (#[trigger] replacements[e]).0);
                            &&& f is Some
                            &&& makes_a_change(f->0, replacements[e].1)
                            &&& has_replaced(f->0, replacements[e].1, numbers[e], out[e - k])
                        } by {
                            if e > k {
                                assert(out[e - k] == rest[e - (k + 1)]);
                            }
                        }
                    },
                    Err(_) => {
                        if !makes_a_change(f, replacements[k].1) {
                            assert(first_with_id(existing, replacements[k].0) == Some(f));
                        }
                    },
                }
            },
        }
    }
}

/// Replacing data puts, in the fragment that each replacement names, the path and size of
/// its file in place of those of every aligned file, wherever that stands, and adds the file
/// where the fragment has none of its fields. All other files and fragments, the schema and
/// the indices stay as they are.
#[verifier::spinoff_prover]
#[verifier::rlimit(60)]
pub proof fn replacing_puts_new_files(
    t: TransactionModel,
    current: ManifestModel,
    indices: Seq<IndexModel>,
    stable_row_ids: bool,
    numbers: Seq<Option<(u32, u32)>>,
)
    requires
        t.operation is DataReplacement,
        plan(t, Some(current), indices, stable_row_ids, numbers) is Ok,
    ensures
        ({
            let p = plan(t, Some(current), indices, stable_row_ids, numbers)->Ok_0;
            let replacements = t.operation->replacements;
            let ids = Seq::new(replacements.len(), |k: int| replacements[k].0);
            &&& exists|changed: Seq<FragmentModel>|
                {
                    &&& changed.len() == replacements.len()
                    &&& #[trigger] is_ordered(
                        p.fragments,
                        changed + not_among(current.fragments, ids),
                    )
                    &&& forall|k: int, i: int|
                        0 <= k < replacements.len() && is_first_fragment(current.fragments, i) && (
                        #[trigger] current.fragments[i]).id == replacements[k].0 ==> has_replaced(
                            current.fragments[i],
                            replacements[k].1,
                            numbers[k],
                            #[trigger] changed[k],
                        )
                }
            &&& forall|k: int|
                0 <= k < replacements.len() ==> exists|i: int|
                    0 <= i < current.fragments.len() && (#[trigger] current.fragments[i]).id == (
                    #[trigger] replacements[k]).0
            &&& p.schema == current.schema
            &&& p.indices == indices
            &&& p.next_row_id == free_row(current)
        }),
{
    let p = plan(t, Some(current), indices, stable_row_ids, numbers)->Ok_0;
    let replacements = t.operation->replacements;
    let ids = Seq::new(replacements.len(), |k: int| replacements[k].0);
    assert(ids =~= replaced_ids(replacements));
    let changed = replaced_fragments(current.fragments, replacements, numbers, 0)->Ok_0;
    lemma_replaced_each(current.fragments, replacements, numbers, 0);
    lemma_not_among(current.fragments, ids);
    let all = changed + without_ids(current.fragments, ids);
    lemma_ordered(all);
    assert(is_ordered(p.fragments, changed + not_among(current.fragments, ids)));
    assert forall|k: int, i: int|
        0 <= k < replacements.len() && is_first_fragment(current.fragments, i) && (
        #[trigger] current.fragments[i]).id == replacements[k].0 implies has_replaced(
        current.fragments[i],
        replacements[k].1,
        numbers[k],
        #[trigger] changed[k],
    ) by {
        lemma_first_fragment(current.fragments, replacements[k].0);
        assert(changed[k] == changed[k - 0]);
        assert(first_with_id(current.fragments, replacements[k].0) is Some);
    }
    assert forall|k: int| 0 <= k < replacements.len() implies exists|i: int|
        0 <= i < current.fragments.len() && (#[trigger] current.fragments[i]).id == (
        #[trigger] replacements[k]).0 by {
        lemma_first_fragment(current.fragments, replacements[k].0);
        let i = choose|i: int|
            #[trigger] is_first_fragment(current.fragments, i) && current.fragments[i].id
                == replacements[k].0;
        assert(current.fragments[i].id == replacements[k].0);
    }
}

/// Whether a replacement can be carried out: a fragment has its id, and it makes a change
/// to the first one that has it.
pub open spec fn is_replaceable(
    fragments: Seq<FragmentModel>,
    replacement: (u64, DataFileModel),
) -> bool {
    exists|i: int|
        {
            &&& #[trigger] is_first_fragment(fragments, i)
            &&& fragments[i].id == replacement.0
            &&& makes_a_change(fragments[i], replacement.1)
        }
}

/// Replacements of data can be planned exactly if they all have the same fields and each
/// makes a change to its fragment, where stable row ids are not asked for in vain. A file
/// with another path than an aligned one always makes a change, wherever the aligned one
/// stands.
#[verifier::spinoff_prover]
#[verifier::rlimit(60)]
pub proof fn replacing_succeeds(
    t: TransactionModel,
    current: ManifestModel,
    indices: Seq<IndexModel>,
    stable_row_ids: bool,
    numbers: Seq<Option<(u32, u32)>>,
)
    requires
        t.operation is DataReplacement,
        stable_row_ids ==> keeps_row_ids(current),
    ensures
        ({
            let replacements = t.operation->replacements;
            plan(t, Some(current), indices, stable_row_ids, numbers) is Ok <==> {
                &&& forall|k: int, l: int|
                    0 <= k < replacements.len() && 0 <= l < replacements.len() ==> (
                    #[trigger] replacements[k]).1.fields == (#[trigger] replacements[l]).1.fields
                &&& forall|k: int|
                    0 <= k < replacements.len() ==> is_replaceable(
                        current.fragments,
                        #[trigger] replacements[k],
                    )
            }
        }),
{
    let replacements = t.operation->replacements;
    let r = plan(t, Some(current), indices, stable_row_ids, numbers);
    lemma_replaced_each(current.fragments, replacements, numbers, 0);
    assert forall|k: int| 0 <= k < replacements.len() implies (is_replaceable(
        current.fragments,
        #[trigger] replacements[k],
    ) <==> {
        let f = first_with_id(current.fragments, replacements[k].0);
        f is Some && makes_a_change(f->0, replacements[k].1)
    }) by {
        lemma_first_fragment(current.fragments, replacements[k].0);
    }
    let agree = forall|k: int, l: int|
        0 <= k < replacements.len() && 0 <= l < replacements.len() ==> (
        #[trigger] replacements[k]).1.fields == (#[trigger] replacements[l]).1.fields;
    assert(agree <==> fields_agree(replacements)) by {
        if fields_agree(replacements) {
            assert forall|k: int, l: int|
                0 <= k < replacements.len() && 0 <= l < replacements.len() implies (
            #[trigger] replacements[k]).1.fields == (#[trigger] replacements[l]).1.fields by {
                assert(replacements[k].1.fields == replacements[0].1.fields);
                assert(replacements[l].1.fields == replacements[0].1.fields);
            }
        }
        if agree {
            assert forall|k: int| 0 <= k < replacements.len() implies (
            #[trigger] replacements[k]).1.fields == replacements[0].1.fields by {}
        }
    }
    if agree {
        match replaced_fragments(current.fragments, replacements, numbers, 0) {
            Ok(_) => {
                assert(r is Ok);
            },
            Err(_) => {
                assert(r is Err);
                let e = choose|e: int|
                    0 <= e < replacements.len() && {
                        let f = first_with_id(current.fragments, (#[trigger] replacements[e]).0);
                        f is None || !makes_a_change(f->0, replacements[e].1)
                    };
                assert(!is_replaceable(current.fragments, replacements[e]));
            },
        }
    }
}

} // verus!
