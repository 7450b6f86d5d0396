//! Laws of numbering fields, of their dictionaries, and of Arrow schemas.

use vstd::prelude::*;
use crate::arrow::ArrowFieldModel;
use crate::arrow::ArrowSchemaModel;
use crate::arrow::DataTypeModel;
use crate::arrow::ScalarType;
use crate::batch::attach;
use crate::batch::column_named;
use crate::batch::fields_with_column;
use crate::batch::with_all_dictionaries;
use crate::batch::with_dictionaries;
use crate::batch::ColumnModel;
use crate::batch::NamedColumnModel;
use crate::combining_laws::is_first;
use crate::convert::arrow_fields;
use crate::convert::fields_of_arrow;
use crate::error::ErrorModel;
use crate::field::ancestry;
use crate::field::assign_ids;
use crate::field::clear_ids;
use crate::field::greatest_id;
use crate::field::index_named;
use crate::field::lemma_index_named;
use crate::field::pre_order;
use crate::field::unassigned;
use crate::field::FieldModel;
use crate::field_laws::fields_are_like_arrow;
use crate::field_laws::field_is_like_arrow;
use crate::projection::has_column;
use crate::projection::with_column;
use crate::projection::ProjectionModel;
use crate::schema::keys_among;
use crate::schema::next_id;
use crate::schema::number_fields;
use crate::schema::resolve_path;
use crate::schema_ops::key_fault;
use crate::schema_ops::path_fault;
use crate::schema_ops::schema_of_arrow;
use crate::schema_ops::OnMissing;
use crate::tree::lemma_greatest_id;

verus! {

// Numbering.

/// Whether fields are others but for the ids and parent ids, at any depth.
pub open spec fn same_but_ids(a: Seq<FieldModel>, b: Seq<FieldModel>) -> bool
    decreases a,
{
    &&& a.len() == b.len()
    &&& forall|i: int|
        0 <= i < a.len() ==> {
            &&& (#[trigger] a[i]) == (FieldModel {
                id: a[i].id,
                parent_id: a[i].parent_id,
                children: a[i].children,
                ..b[i]
            })
            &&& same_but_ids(a[i].children, b[i].children)
        }
}

/// Whether each field has the id of the one that it is in as its parent id, at any depth.
pub open spec fn know_their_parents(fields: Seq<FieldModel>, parent_id: i32) -> bool
    decreases fields,
{
    forall|i: int|
        0 <= i < fields.len() ==> {
            &&& (#[trigger] fields[i]).parent_id == parent_id
            &&& know_their_parents(fields[i].children, fields[i].id)
        }
}

/// Numbering fields changes nothing but ids, and makes every field know its parent; at the
/// top level there is none.
pub proof fn numbering_changes_only_ids(fields: Seq<FieldModel>, max_existing_id: Option<i32>)
    ensures
        same_but_ids(number_fields(fields, max_existing_id), fields),
        know_their_parents(number_fields(fields, max_existing_id), -1i32),
{
    lemma_numbered(fields, -1i32, next_id(fields, max_existing_id));
}

proof fn lemma_numbered(fields: Seq<FieldModel>, parent_id: i32, next: int)
    ensures
        same_but_ids(assign_ids(fields, parent_id, next), fields),
        know_their_parents(assign_ids(fields, parent_id, next), parent_id),
    decreases fields,
{
    if fields.len() > 0 {
        let f = fields[0];
        let id = if f.id < 0 {
            next as i32
        } else {
            f.id
        };
        let after = if f.id < 0 {
            next + 1
        } else {
            next
        };
        let rest = fields.drop_first();
        let out = assign_ids(fields, parent_id, next);
        let tail = assign_ids(rest, parent_id, after + unassigned(f.children));
        lemma_numbered(f.children, id, after);
        lemma_numbered(rest, parent_id, after + unassigned(f.children));
        assert(out == seq![out[0]] + tail);
        assert forall|i: int| 0 <= i < out.len() implies {
            &&& (#[trigger] out[i]) == (FieldModel {
                id: out[i].id,
                parent_id: out[i].parent_id,
                children: out[i].children,
                ..fields[i]
            })
            &&& same_but_ids(out[i].children, fields[i].children)
        } by {
            if i > 0 {
                assert(out[i] == tail[i - 1]);
                assert(rest[i - 1] == fields[i]);
            }
        }
        assert forall|i: int| 0 <= i < out.len() implies {
            &&& (#[trigger] out[i]).parent_id == parent_id
            &&& know_their_parents(out[i].children, out[i].id)
        } by {
            if i > 0 {
                assert(out[i] == tail[i - 1]);
            }
        }
    }
}

/// Resetting ids changes nothing but ids, and leaves no field with an id.
pub proof fn resetting_clears_ids(fields: Seq<FieldModel>)
    ensures
        same_but_ids(clear_ids(fields), fields),
        forall|i: int|
            0 <= i < pre_order(clear_ids(fields)).len() ==> (
            #[trigger] pre_order(clear_ids(fields))[i]).id == -1,
    decreases fields,
{
    if fields.len() > 0 {
        let rest = fields.drop_first();
        let out = clear_ids(fields);
        let tail = clear_ids(rest);
        resetting_clears_ids(fields[0].children);
        resetting_clears_ids(rest);
        assert(out == seq![out[0]] + tail);
        assert(out.drop_first() =~= tail);
        assert forall|i: int| 0 <= i < out.len() implies {
            &&& (#[trigger] out[i]) == (FieldModel {
                id: out[i].id,
                parent_id: out[i].parent_id,
                children: out[i].children,
                ..fields[i]
            })
            &&& same_but_ids(out[i].children, fields[i].children)
        } by {
            if i > 0 {
                assert(out[i] == tail[i - 1]);
                assert(rest[i - 1] == fields[i]);
            }
        }
        let below = pre_order(out[0].children);
        let all = pre_order(out);
        assert(all =~= seq![out[0]] + below + pre_order(tail));
        assert forall|i: int| 0 <= i < all.len() implies (#[trigger] all[i]).id == -1 by {
            if 0 < i < 1 + below.len() {
                assert(all[i] == below[i - 1]);
            } else if i >= 1 + below.len() {
                assert(all[i] == pre_order(tail)[i - 1 - below.len()]);
            }
        }
    }
}

/// The first id that is handed out is the one after the greatest that is taken: after every
/// id of the fields and the given one, and after one of them, or after -1.
pub proof fn ids_follow_the_greatest(fields: Seq<FieldModel>, max_existing_id: Option<i32>)
    ensures
        ({
            let next = next_id(fields, max_existing_id);
            &&& next >= 0
            &&& forall|i: int|
                0 <= i < pre_order(fields).len() ==> (#[trigger] pre_order(fields)[i]).id < next
            &&& max_existing_id is Some ==> max_existing_id->0 < next
            &&& {
                ||| next == 0
                ||| max_existing_id is Some && next == max_existing_id->0 + 1
                ||| exists|i: int|
                    0 <= i < pre_order(fields).len() && (#[trigger] pre_order(fields)[i]).id + 1
                        == next
            }
        }),
{
    lemma_greatest_id(fields);
    greatest_id_is_taken(fields);
    if greatest_id(fields) != -1 {
        let i = choose|i: int|
            0 <= i < pre_order(fields).len() && (#[trigger] pre_order(fields)[i]).id
                == greatest_id(fields);
        assert(pre_order(fields)[i].id + 1 == greatest_id(fields) + 1);
    }
}

/// The greatest id of fields is the id of one of them, at any depth, or -1; none is greater.
pub proof fn greatest_id_is_taken(fields: Seq<FieldModel>)
    ensures
        greatest_id(fields) == -1 || exists|i: int|
            0 <= i < pre_order(fields).len() && (#[trigger] pre_order(fields)[i]).id
                == greatest_id(fields),
        forall|i: int|
            0 <= i < pre_order(fields).len() ==> (#[trigger] pre_order(fields)[i]).id
                <= greatest_id(fields),
    decreases fields,
{
    lemma_greatest_id(fields);
    if fields.len() > 0 {
        let all = pre_order(fields);
        let below = pre_order(fields[0].children);
        let rest = pre_order(fields.drop_first());
        greatest_id_is_taken(fields[0].children);
        greatest_id_is_taken(fields.drop_first());
        assert(all =~= seq![fields[0]] + below + rest);
        let top = greatest_id(fields);
        if top == fields[0].id {
            assert(all[0].id == top);
        } else if top == greatest_id(fields[0].children) && top != -1 {
            let i = choose|i: int|
                0 <= i < below.len() && (#[trigger] below[i]).id == greatest_id(
                    fields[0].children,
                );
            assert(all[i + 1].id == top);
        } else if top != -1 {
            let i = choose|i: int|
                0 <= i < rest.len() && (#[trigger] rest[i]).id == greatest_id(fields.drop_first());
            assert(all[i + 1 + below.len()].id == top);
        }
    }
}

// Arrow schemas.

/// Whether a field that is marked as part of the primary key can be: it has no children,
/// and neither it nor a field that it is in is nullable or a list.
pub open spec fn can_be_key(fields: Seq<FieldModel>, key: FieldModel) -> bool {
    &&& key.children.len() == 0
    &&& match ancestry(fields, key.id) {
        Some(path) => forall|i: int|
            0 <= i < path.len() ==> {
                &&& !(#[trigger] path[i]).nullable
                &&& !path[i].logical_type.is_list()
                &&& !path[i].logical_type.is_large_list()
            },
        None => true,
    }
}

proof fn lemma_path_fault(path: Seq<FieldModel>)
    ensures
        path_fault(path) is None <==> forall|i: int|
            0 <= i < path.len() ==> {
                &&& !(#[trigger] path[i]).nullable
                &&& !path[i].logical_type.is_list()
                &&& !path[i].logical_type.is_large_list()
            },
    decreases path.len(),
{
    if path.len() > 0 {
        let rest = path.drop_first();
        lemma_path_fault(rest);
        assert(forall|i: int| 0 <= i < rest.len() ==> (#[trigger] rest[i]) == path[i + 1]);
        let good = |f: FieldModel|
            !f.nullable && !f.logical_type.is_list() && !f.logical_type.is_large_list();
        if path_fault(path) is None {
            assert forall|i: int| 0 <= i < path.len() implies {
                &&& !(#[trigger] path[i]).nullable
                &&& !path[i].logical_type.is_list()
                &&& !path[i].logical_type.is_large_list()
            } by {
                if i > 0 {
                    assert(good(rest[i - 1]));
                }
            }
        } else if good(path[0]) {
            let i = choose|i: int| 0 <= i < rest.len() && !good(#[trigger] rest[i]);
            assert(!good(path[i + 1]));
        } else {
            assert(!good(path[0]));
        }
    }
}

proof fn lemma_key_fault(fields: Seq<FieldModel>, keys: Seq<FieldModel>)
    ensures
        key_fault(fields, keys) is None <==> forall|i: int|
            0 <= i < keys.len() ==> can_be_key(fields, #[trigger] keys[i]),
    decreases keys.len(),
{
    if keys.len() > 0 {
        let rest = keys.drop_first();
        lemma_key_fault(fields, rest);
        assert(forall|i: int| 0 <= i < rest.len() ==> (#[trigger] rest[i]) == keys[i + 1]);
        match ancestry(fields, keys[0].id) {
            Some(path) => {
                lemma_path_fault(path);
            },
            None => {},
        }
        if key_fault(fields, keys) is None {
            assert forall|i: int| 0 <= i < keys.len() implies can_be_key(
                fields,
                #[trigger] keys[i],
            ) by {
                if i > 0 {
                    assert(can_be_key(fields, rest[i - 1]));
                }
            }
        } else if can_be_key(fields, keys[0]) {
            let i = choose|i: int| 0 <= i < rest.len() && !can_be_key(fields, #[trigger] rest[i]);
            assert(!can_be_key(fields, keys[i + 1]));
        } else {
            assert(!can_be_key(fields, keys[0]));
        }
    }
}

/// A schema can be made of an Arrow schema exactly if its fields can be made and those that
/// are marked as the primary key can be that. It has the metadata and the fields of the
/// Arrow schema, in order, and the fields are numbered and know their parents.
pub proof fn schema_is_like_arrow(s: ArrowSchemaModel)
    ensures
        ({
            let r = schema_of_arrow(s);
            let fields = fields_of_arrow(s.fields);
            let numbered = number_fields(fields->Ok_0, None);
            &&& r is Ok <==> fields is Ok && forall|i: int|
                0 <= i < keys_among(pre_order(numbered)).len() ==> can_be_key(
                    numbered,
                    #[trigger] keys_among(pre_order(numbered))[i],
                )
            &&& r is Ok ==> {
                &&& r->Ok_0.metadata == s.metadata
                &&& r->Ok_0.fields.len() == s.fields.len()
                &&& forall|i: int|
                    0 <= i < s.fields.len() ==> {
                        &&& (#[trigger] r->Ok_0.fields[i]).name == s.fields[i].name
                        &&& r->Ok_0.fields[i].nullable == s.fields[i].nullable
                    }
                &&& same_but_ids(r->Ok_0.fields, fields->Ok_0)
                &&& know_their_parents(r->Ok_0.fields, -1i32)
            }
        }),
{
    let fields = fields_of_arrow(s.fields);
    if fields is Ok {
        let numbered = number_fields(fields->Ok_0, None);
        lemma_key_fault(numbered, keys_among(pre_order(numbered)));
        numbering_changes_only_ids(fields->Ok_0, None);
        fields_are_like_arrow(s.fields);
        assert forall|i: int| 0 <= i < s.fields.len() implies {
            &&& (#[trigger] numbered[i]).name == s.fields[i].name
            &&& numbered[i].nullable == s.fields[i].nullable
        } by {
            field_is_like_arrow(s.fields[i]);
        }
    }
}

// Columns of projections.

/// Adding a column to a projection adds exactly the fields that its name leads through. The
/// names of the row id and of the row address add these, and nothing else. A column that is
/// not there is an error, or changes nothing.
pub proof fn adding_a_column(p: ProjectionModel, column: Seq<char>, on_missing: OnMissing, id: i32)
    ensures
        ({
            let r = p.union_column(column, on_missing);
            let path = resolve_path(p.base.fields, column);
            let special = column == "_rowid"@ || column == "_rowaddr"@;
            &&& special || path is Some || on_missing != OnMissing::Error ==> r is Ok
            &&& r is Ok ==> {
                let q = r->Ok_0;
                &&& q.base == p.base
                &&& q.with_row_id <==> p.with_row_id || column == "_rowid"@
                &&& q.with_row_addr <==> p.with_row_addr || (column == "_rowaddr"@ && column
                    != "_rowid"@)
                &&& q.field_ids.contains(id) <==> p.field_ids.contains(id) || (!special
                    && path is Some && exists|i: int|
                    0 <= i < path->0.len() && (#[trigger] path->0[i]).id == id)
            }
            &&& !special && path is None && on_missing == OnMissing::Error ==> r == Err::<
                ProjectionModel,
                ErrorModel,
            >(ErrorModel::InvalidInput { source: "Column "@ + column + " does not exist"@ })
        }),
{
    match resolve_path(p.base.fields, column) {
        Some(path) => {
            let ids = crate::field::ids_of(path);
            if ids.contains(id) {
                let i = choose|i: int| 0 <= i < ids.len() && ids[i] == id;
                assert(path[i].id == id);
            }
            if exists|i: int| 0 <= i < path.len() && (#[trigger] path[i]).id == id {
                let i = choose|i: int| 0 <= i < path.len() && (#[trigger] path[i]).id == id;
                assert(ids[i] == id);
                assert(ids.contains(id));
            }
        },
        None => {},
    }
}

/// Whether a column adds a field: it is none of the special ones, and its name leads through
/// a field of that id.
pub open spec fn adds_field(p: ProjectionModel, column: Seq<char>, id: i32) -> bool {
    &&& column != "_rowid"@
    &&& column != "_rowaddr"@
    &&& resolve_path(p.base.fields, column) is Some
    &&& exists|i: int|
        0 <= i < resolve_path(p.base.fields, column)->0.len() && (#[trigger] resolve_path(
            p.base.fields,
            column,
        )->0[i]).id == id
}

/// Adding columns to a projection adds exactly what each of them adds.
#[verifier::spinoff_prover]
#[verifier::rlimit(60)]
pub proof fn adding_columns(
    p: ProjectionModel,
    columns: Seq<Seq<char>>,
    on_missing: OnMissing,
    id: i32,
)
    requires
        p.union_columns(columns, on_missing) is Ok,
    ensures
        ({
            let q = p.union_columns(columns, on_missing)->Ok_0;
            &&& q.base == p.base
            &&& q.field_ids.contains(id) <==> p.field_ids.contains(id) || exists|k: int|
                0 <= k < columns.len() && adds_field(p, #[trigger] columns[k], id)
            &&& q.with_row_id <==> p.with_row_id || columns.contains("_rowid"@)
        }),
    decreases columns.len(),
{
    if columns.len() > 0 {
        let rest = columns.drop_first();
        let first = p.union_column(columns[0], on_missing)->Ok_0;
        adding_a_column(p, columns[0], on_missing, id);
        adding_columns(first, rest, on_missing, id);
        assert(forall|k: int| 0 <= k < rest.len() ==> (#[trigger] rest[k]) == columns[k + 1]);
        assert forall|k: int| 0 <= k < rest.len() implies (adds_field(
            first,
            #[trigger] rest[k],
            id,
        ) <==> adds_field(p, rest[k], id)) by {}
        if exists|k: int| 0 <= k < columns.len() && adds_field(p, #[trigger] columns[k], id) {
            let k = choose|k: int|
                0 <= k < columns.len() && adds_field(p, #[trigger] columns[k], id);
            if k > 0 {
                assert(adds_field(first, rest[k - 1], id));
            }
        }
        if exists|k: int| 0 <= k < rest.len() && adds_field(first, #[trigger] rest[k], id) {
            let k = choose|k: int|
                0 <= k < rest.len() && adds_field(first, #[trigger] rest[k], id);
            assert(adds_field(p, columns[k + 1], id));
        }
        if first.field_ids.contains(id) && !p.field_ids.contains(id) {
            assert(adds_field(p, columns[0], id));
        }
        if columns.contains("_rowid"@) {
            let k = choose|k: int| 0 <= k < columns.len() && columns[k] == "_rowid"@;
            if k > 0 {
                assert(rest[k - 1] == "_rowid"@);
            }
        }
        if rest.contains("_rowid"@) {
            let k = choose|k: int| 0 <= k < rest.len() && rest[k] == "_rowid"@;
            assert(columns[k + 1] == "_rowid"@);
        }
    }
}

/// Adding columns fails exactly if one of them is not there, and that is an error.
pub proof fn missing_columns_fail(
    p: ProjectionModel,
    columns: Seq<Seq<char>>,
    on_missing: OnMissing,
)
    ensures
        p.union_columns(columns, on_missing) is Err <==> on_missing == OnMissing::Error
            && exists|k: int|
            {
                &&& 0 <= k < columns.len()
                &&& (#[trigger] columns[k]) != "_rowid"@
                &&& columns[k] != "_rowaddr"@
                &&& resolve_path(p.base.fields, columns[k]) is None
            },
    decreases columns.len(),
{
    if columns.len() > 0 {
        let rest = columns.drop_first();
        adding_a_column(p, columns[0], on_missing, 0);
        assert(forall|k: int| 0 <= k < rest.len() ==> (#[trigger] rest[k]) == columns[k + 1]);
        let missing = |column: Seq<char>|
            column != "_rowid"@ && column != "_rowaddr"@ && resolve_path(
                p.base.fields,
                column,
            ) is None;
        if p.union_column(columns[0], on_missing) is Ok {
            let first = p.union_column(columns[0], on_missing)->Ok_0;
            missing_columns_fail(first, rest, on_missing);
            assert(on_missing == OnMissing::Error ==> !missing(columns[0]));
            if on_missing == OnMissing::Error && exists|k: int|
                0 <= k < columns.len() && missing(#[trigger] columns[k]) {
                let k = choose|k: int| 0 <= k < columns.len() && missing(#[trigger] columns[k]);
                assert(missing(rest[k - 1]));
            }
            if exists|k: int| 0 <= k < rest.len() && missing(#[trigger] rest[k]) {
                let k = choose|k: int| 0 <= k < rest.len() && missing(#[trigger] rest[k]);
                assert(missing(columns[k + 1]));
            }
        } else {
            assert(missing(columns[0]));
        }
    }
}

// Dictionaries.

/// Whether fields are others but for dictionaries, at any depth.
pub open spec fn same_but_dictionaries(a: FieldModel, b: FieldModel) -> bool
    decreases a,
{
    &&& a == (FieldModel { dictionary: a.dictionary, children: a.children, ..b })
    &&& a.children.len() == b.children.len()
    &&& forall|i: int|
        0 <= i < a.children.len() ==> same_but_dictionaries(
            #[trigger] a.children[i],
            b.children[i],
        )
}

proof fn lemma_unchanged(f: FieldModel)
    ensures
        same_but_dictionaries(f, f),
    decreases f,
{
    assert forall|i: int| 0 <= i < f.children.len() implies same_but_dictionaries(
        #[trigger] f.children[i],
        f.children[i],
    ) by {
        lemma_unchanged(f.children[i]);
    }
}

proof fn lemma_changed_twice(a: FieldModel, b: FieldModel, c: FieldModel)
    requires
        same_but_dictionaries(a, b),
        same_but_dictionaries(b, c),
    ensures
        same_but_dictionaries(a, c),
    decreases a,
{
    assert forall|i: int| 0 <= i < a.children.len() implies same_but_dictionaries(
        #[trigger] a.children[i],
        c.children[i],
    ) by {
        assert(same_but_dictionaries(b.children[i], c.children[i]));
        lemma_changed_twice(a.children[i], b.children[i], c.children[i]);
    }
}

/// Setting dictionaries from a column changes nothing but dictionaries. A column with a
/// dictionary sets that of the field itself; one of structs sets those of the children, each
/// from the columns of its name; one of lists sets those of the item; a plain one sets none.
#[verifier::spinoff_prover]
#[verifier::rlimit(60)]
pub proof fn dictionaries_are_set(f: FieldModel, c: ColumnModel)
    ensures
        same_but_dictionaries(with_dictionaries(f, c), f),
        match c {
            ColumnModel::Plain => with_dictionaries(f, c) == f,
            ColumnModel::Dictionary(values) => {
                let d = with_dictionaries(f, c).dictionary;
                &&& d is Some
                &&& d->0.values == Some(values)
                &&& d->0.offset == 0
                &&& d->0.length == 0
                &&& with_dictionaries(f, c).children == f.children
            },
            ColumnModel::Struct(columns) => {
                &&& with_dictionaries(f, c).dictionary == f.dictionary
                &&& forall|i: int|
                    0 <= i < f.children.len() && (forall|j: int|
                        0 <= j < columns.len() ==> (#[trigger] columns[j]).name
                            != f.children[i].name) ==> #[trigger] with_dictionaries(
                        f,
                        c,
                    ).children[i] == f.children[i]
                &&& forall|i: int, j: int|
                    is_first(f.children, i) && 0 <= j < columns.len() && (
                    #[trigger] columns[j]).name == f.children[i].name && (forall|k: int|
                        0 <= k < columns.len() && k != j ==> (#[trigger] columns[k]).name
                            != f.children[i].name) ==> #[trigger] with_dictionaries(
                        f,
                        c,
                    ).children[i] == with_dictionaries(f.children[i], columns[j].column)
            },
            ColumnModel::List(items) => {
                &&& with_dictionaries(f, c).dictionary == f.dictionary
                &&& f.children.len() > 0 ==> with_dictionaries(f, c).children[0]
                    == with_dictionaries(f.children[0], *items)
            },
        },
    decreases c,
{
    lemma_unchanged(f);
    match c {
        ColumnModel::Plain => {},
        ColumnModel::Dictionary(_) => {
            let g = with_dictionaries(f, c);
            assert forall|i: int| 0 <= i < g.children.len() implies same_but_dictionaries(
                #[trigger] g.children[i],
                f.children[i],
            ) by {
                lemma_unchanged(f.children[i]);
            }
        },
        ColumnModel::Struct(columns) => {
            lemma_all_set(f.children, columns);
        },
        ColumnModel::List(items) => {
            if f.children.len() > 0 {
                dictionaries_are_set(f.children[0], *items);
                let g = with_dictionaries(f, c);
                assert forall|i: int| 0 <= i < g.children.len() implies same_but_dictionaries(
                    #[trigger] g.children[i],
                    f.children[i],
                ) by {
                    if i > 0 {
                        lemma_unchanged(f.children[i]);
                    }
                }
            }
        },
    }
}

#[verifier::spinoff_prover]
#[verifier::rlimit(60)]
proof fn lemma_all_set(children: Seq<FieldModel>, columns: Seq<NamedColumnModel>)
    ensures
        ({
            let out = with_all_dictionaries(children, columns);
            &&& out.len() == children.len()
            &&& forall|i: int|
                0 <= i < children.len() ==> same_but_dictionaries(#[trigger] out[i], children[i])
            &&& forall|i: int|
                0 <= i < children.len() && (forall|j: int|
                    0 <= j < columns.len() ==> (#[trigger] columns[j]).name != children[i].name)
                    ==> #[trigger] out[i] == children[i]
            &&& forall|i: int, j: int|
                is_first(children, i) && 0 <= j < columns.len() && (#[trigger] columns[j]).name
                    == children[i].name && (forall|k: int|
                    0 <= k < columns.len() && k != j ==> (#[trigger] columns[k]).name
                        != children[i].name) ==> #[trigger] out[i] == with_dictionaries(
                    children[i],
                    columns[j].column,
                )
        }),
    decreases columns,
{
    let out = with_all_dictionaries(children, columns);
    if columns.len() == 0 {
        assert forall|i: int| 0 <= i < children.len() implies same_but_dictionaries(
            #[trigger] out[i],
            children[i],
        ) by {
            lemma_unchanged(children[i]);
        }
    } else {
        let rest = columns.drop_first();
        let first = columns[0];
        lemma_index_named(children, first.name);
        let after = match index_named(children, first.name) {
            Some(i) => {
                dictionaries_are_set(children[i], first.column);
                children.update(i, with_dictionaries(children[i], first.column))
            },
            None => children,
        };
        lemma_all_set(after, rest);
        assert(forall|j: int| 0 <= j < rest.len() ==> (#[trigger] rest[j]) == columns[j + 1]);
        assert forall|i: int| 0 <= i < children.len() implies same_but_dictionaries(
            #[trigger] out[i],
            children[i],
        ) && after[i].name == children[i].name by {
            lemma_unchanged(children[i]);
            lemma_changed_twice(out[i], after[i], children[i]);
        }
        assert forall|i: int|
            0 <= i < children.len() && (forall|j: int|
                0 <= j < columns.len() ==> (#[trigger] columns[j]).name
                    != children[i].name) implies #[trigger] out[i] == children[i] by {
            assert(columns[0].name != children[i].name);
            assert(after[i] == children[i]);
            assert forall|j: int| 0 <= j < rest.len() implies (#[trigger] rest[j]).name
                != after[i].name by {
                assert(columns[j + 1].name != children[i].name);
            }
        }
        assert forall|i: int, j: int|
            is_first(children, i) && 0 <= j < columns.len() && (#[trigger] columns[j]).name
                == children[i].name && (forall|k: int|
                0 <= k < columns.len() && k != j ==> (#[trigger] columns[k]).name
                    != children[i].name) implies #[trigger] out[i] == with_dictionaries(
            children[i],
            columns[j].column,
        ) by {
            if j == 0 {
                let n = index_named(children, first.name)->0;
                assert(index_named(children, first.name) is Some);
                if n < i {
                    assert(children[n].name != children[i].name);
                }
                assert(n == i);
                assert forall|k: int| 0 <= k < rest.len() implies (#[trigger] rest[k]).name
                    != after[i].name by {
                    assert(columns[k + 1].name != children[i].name);
                }
            } else {
                assert(columns[0].name != children[i].name);
                assert(after[i] == children[i]);
                assert(rest[j - 1] == columns[j]);
                assert(is_first(after, i)) by {
                    assert forall|k: int| 0 <= k < i implies (#[trigger] after[k]).name
                        != after[i].name by {
                        assert(children[k].name != children[i].name);
                    }
                }
                assert forall|k: int| 0 <= k < rest.len() && k != j - 1 implies (
                #[trigger] rest[k]).name != after[i].name by {
                    assert(columns[k + 1].name != children[i].name);
                }
            }
        }
    }
}

/// Whether a column is the first one of a name.
pub open spec fn is_first_column(columns: Seq<NamedColumnModel>, j: int) -> bool {
    &&& 0 <= j < columns.len()
    &&& forall|k: int| 0 <= k < j ==> (#[trigger] columns[k]).name != columns[j].name
}

proof fn lemma_column_named(columns: Seq<NamedColumnModel>, name: Seq<char>)
    ensures
        match column_named(columns, name) {
            Some(c) => exists|j: int| #[trigger]
                is_first_column(columns, j) && columns[j].name == name && columns[j].column == c,
            None => forall|j: int| 0 <= j < columns.len() ==> (#[trigger] columns[j]).name != name,
        },
    decreases columns.len(),
{
    if columns.len() > 0 {
        if columns[0].name == name {
            assert(is_first_column(columns, 0));
        } else {
            let rest = columns.drop_first();
            lemma_column_named(rest, name);
            assert(forall|j: int| 0 <= j < rest.len() ==> (#[trigger] rest[j]) == columns[j + 1]);
            match column_named(rest, name) {
                Some(c) => {
                    let j = choose|j: int| #[trigger]
                        is_first_column(rest, j) && rest[j].name == name && rest[j].column == c;
                    assert forall|k: int| 0 <= k < j + 1 implies (#[trigger] columns[k]).name
                        != columns[j + 1].name by {
                        if k > 0 {
                            assert(rest[k - 1].name != rest[j].name);
                        }
                    }
                    assert(is_first_column(columns, j + 1));
                },
                None => {
                    assert forall|j: int| 0 <= j < columns.len() implies (
                    #[trigger] columns[j]).name != name by {
                        if j > 0 {
                            assert(rest[j - 1].name != name);
                        }
                    }
                },
            }
        }
    }
}

/// Setting the dictionaries of a schema from a batch goes from field to field up to the
/// first without a column. Each field before it is set from the first column of its name;
/// it and those behind it stay.
#[verifier::spinoff_prover]
#[verifier::rlimit(60)]
pub proof fn batch_sets_dictionaries(fields: Seq<FieldModel>, columns: Seq<NamedColumnModel>)
    ensures
        ({
            let n = fields_with_column(fields, columns) as int;
            let out = attach(fields, columns, n);
            &&& 0 <= n <= fields.len()
            &&& out.len() == fields.len()
            &&& forall|i: int|
                0 <= i < n ==> exists|j: int| #[trigger]
                    is_first_column(columns, j) && columns[j].name == fields[i].name
                        && #[trigger] out[i] == with_dictionaries(fields[i], columns[j].column)
            &&& forall|i: int| n <= i < fields.len() ==> #[trigger] out[i] == fields[i]
            &&& n < fields.len() ==> forall|j: int|
                0 <= j < columns.len() ==> (#[trigger] columns[j]).name != fields[n].name
        }),
    decreases fields.len(),
{
    let n = fields_with_column(fields, columns) as int;
    let out = attach(fields, columns, n);
    if fields.len() > 0 {
        let rest = fields.drop_first();
        batch_sets_dictionaries(rest, columns);
        lemma_column_named(columns, fields[0].name);
        if column_named(columns, fields[0].name) is Some {
            let m = fields_with_column(rest, columns) as int;
            let tail = attach(rest, columns, m);
            assert forall|i: int| 0 <= i < n implies exists|j: int| #[trigger]
                is_first_column(columns, j) && columns[j].name == fields[i].name
                    && #[trigger] out[i] == with_dictionaries(fields[i], columns[j].column) by {
                if i > 0 {
                    assert(rest[i - 1] == fields[i]);
                    assert(tail[i - 1] == out[i]);
                    let j = choose|j: int| #[trigger]
                        is_first_column(columns, j) && columns[j].name == rest[i - 1].name
                            && tail[i - 1] == with_dictionaries(rest[i - 1], columns[j].column);
                    assert(is_first_column(columns, j));
                }
            }
            if n < fields.len() {
                assert(rest[m] == fields[n]);
            }
        }
    }
}

// Arrow schemas of projections.

/// The Arrow schema of a projection has the columns of its fields, then the row id and then
/// the row address, where they are selected: columns of unsigned integers that may be null.
/// It fails exactly if a field has the name of one of these that is selected.
pub proof fn row_columns_come_last(p: ProjectionModel)
    ensures
        ({
            let r = p.to_arrow_schema();
            let plain = arrow_fields(p.to_schema().fields);
            let column = |name: Seq<char>|
                ArrowFieldModel {
                    name,
                    data_type: DataTypeModel::Scalar(ScalarType::UInt64),
                    nullable: true,
                    metadata: Map::empty(),
                };
            let ids = if p.with_row_id {
                plain.push(column("_rowid"@))
            } else {
                plain
            };
            let clash = |name: Seq<char>|
                exists|i: int| 0 <= i < plain.len() && (#[trigger] plain[i]).name == name;
            &&& r is Err <==> (p.with_row_id && clash("_rowid"@)) || (p.with_row_addr && clash(
                "_rowaddr"@,
            ))
            &&& r is Ok ==> {
                &&& r->Ok_0.metadata == p.base.metadata
                &&& r->Ok_0.fields == (if p.with_row_addr {
                    ids.push(column("_rowaddr"@))
                } else {
                    ids
                })
            }
        }),
{
    reveal_strlit("_rowid");
    reveal_strlit("_rowaddr");
    assert("_rowid"@.len() != "_rowaddr"@.len());
    let plain = arrow_fields(p.to_schema().fields);
    let s = ArrowSchemaModel { fields: plain, metadata: p.base.metadata };
    match with_column(s, "_rowid"@, p.with_row_id) {
        Ok(a) => {
            assert(has_column(a.fields, "_rowaddr"@) <==> has_column(plain, "_rowaddr"@)) by {
                if has_column(plain, "_rowaddr"@) {
                    let i = choose|i: int|
                        0 <= i < plain.len() && (#[trigger] plain[i]).name == "_rowaddr"@;
                    assert(a.fields[i].name == "_rowaddr"@);
                }
                if has_column(a.fields, "_rowaddr"@) {
                    let i = choose|i: int|
                        0 <= i < a.fields.len() && (#[trigger] a.fields[i]).name == "_rowaddr"@;
                    assert(i < plain.len());
                    assert(plain[i].name == "_rowaddr"@);
                }
            }
        },
        Err(_) => {},
    }
}

} // verus!
