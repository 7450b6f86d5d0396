//! What holds of schemas and projections as a whole.

use vstd::prelude::*;
use crate::arrow::ArrowSchemaModel;
use crate::compare::distinct;
use crate::compare::fields_explained;
use crate::compare::SchemaCompareOptions;
use crate::convert::all_plain;
use crate::convert::arrow_field;
use crate::convert::arrow_fields;
use crate::convert::arrow_round_trip_all;
use crate::convert::arrow_type;
use crate::convert::fields_of_arrow;
use crate::field::ancestry;
use crate::field::assign_ids;
use crate::field::by_id;
use crate::field::clear_ids;
use crate::field::greatest_id;
use crate::field::has_name;
use crate::field::ids_of;
use crate::field::index_named;
use crate::field::lemma_index_named;
use crate::field::lemma_index_unique;
use crate::field::lemma_pre_order_add;
use crate::field::named;
use crate::field::pre_order;
use crate::field::resolve_from;
use crate::field::sub_field;
use crate::field::unassigned;
use crate::field::FieldModel;
use crate::field::StorageClass;
use crate::field_ops::exclude_field;
use crate::field_ops::exclude_fields;
use crate::field_ops::merge_children;
use crate::field_ops::merge_field;
use crate::field_ops::select_field;
use crate::field_ops::select_fields;
use crate::projection::assigned_ids;
use crate::projection::id_set;
use crate::projection::ProjectionModel;
use crate::schema::lookup;
use crate::schema::ids_fit;
use crate::schema::next_id;
use crate::schema::number_fields;
use crate::schema::of_storage_class;
use crate::schema::resolve_path;
use crate::schema::Schema;
use crate::schema::SchemaModel;
use crate::schema_ops::add_new;
use crate::schema_ops::column_path;
use crate::schema_ops::exclude_schema;
use crate::schema_ops::id_fault;
use crate::schema_ops::merge_each;
use crate::schema_ops::merge_schema;
use crate::schema_ops::name_fault;
use crate::schema_ops::project_columns;
use crate::schema_ops::schema_difference;
use crate::schema_ops::schema_fault;
use crate::schema_ops::schema_matches;
use crate::schema_ops::schema_of_arrow;
use crate::schema_ops::OnMissing;
use crate::text::lemma_split_dots_nonempty;
use crate::text::lemma_split_dots_plain;
use crate::text::split_dots;
use crate::tree::lemma_greatest_id;
use crate::within::has_id;
use crate::within::lemma_has_id;

verus! {

// Numbering.

/// A list of ids in which the missing ones are numbered from `next` on.
pub open spec fn number_ids(ids: Seq<i32>, next: int) -> Seq<i32>
    decreases ids.len(),
{
    if ids.len() == 0 {
        Seq::empty()
    } else if ids[0] < 0 {
        seq![next as i32] + number_ids(ids.drop_first(), next + 1)
    } else {
        seq![ids[0]] + number_ids(ids.drop_first(), next)
    }
}

/// How many ids of a list are missing.
pub open spec fn missing_ids(ids: Seq<i32>) -> nat
    decreases ids.len(),
{
    if ids.len() == 0 {
        0
    } else {
        (if ids[0] < 0 {
            1nat
        } else {
            0nat
        }) + missing_ids(ids.drop_first())
    }
}

proof fn lemma_number_add(a: Seq<i32>, b: Seq<i32>, next: int)
    ensures
        number_ids(a + b, next) == number_ids(a, next) + number_ids(b, next + missing_ids(a)),
        missing_ids(a + b) == missing_ids(a) + missing_ids(b),
    decreases a.len(),
{
    if a.len() == 0 {
        assert(a + b =~= b);
        assert(number_ids(a + b, next) =~= number_ids(a, next) + number_ids(b, next));
    } else {
        assert((a + b).drop_first() =~= a.drop_first() + b);
        let after = if a[0] < 0 {
            next + 1
        } else {
            next
        };
        lemma_number_add(a.drop_first(), b, after);
        assert(number_ids(a + b, next) =~= number_ids(a, next) + number_ids(
            b,
            next + missing_ids(a),
        ));
    }
}

/// Numbering the fields of a forest numbers their ids in pre-order: ids that are
/// assigned stay, the others become the next free numbers, one after the other.
pub proof fn numbering_in_pre_order(fields: Seq<FieldModel>, parent_id: i32, next: int)
    ensures
        ids_of(pre_order(assign_ids(fields, parent_id, next))) == number_ids(
            ids_of(pre_order(fields)),
            next,
        ),
        missing_ids(ids_of(pre_order(fields))) == unassigned(fields),
    decreases fields,
{
    if fields.len() > 0 {
        let f = fields[0];
        let id = if f.id < 0 {
            next as i32
        } else {
            f.id
        };
        let after = if f.id < 0 {
            next + 1
        } else {
            next
        };
        let g = FieldModel { id, parent_id, children: assign_ids(f.children, id, after), ..f };
        let rest = assign_ids(fields.drop_first(), parent_id, after + unassigned(f.children));
        let out = assign_ids(fields, parent_id, next);
        assert(out[0] == g);
        assert(out.drop_first() =~= rest);
        numbering_in_pre_order(f.children, id, after);
        numbering_in_pre_order(
            fields.drop_first(),
            parent_id,
            after + unassigned(f.children),
        );
        let below = ids_of(pre_order(f.children));
        let beside = ids_of(pre_order(fields.drop_first()));
        assert(ids_of(pre_order(fields)) =~= seq![f.id] + (below + beside));
        assert(ids_of(pre_order(out)) =~= seq![id] + (ids_of(pre_order(g.children)) + ids_of(
            pre_order(rest),
        )));
        lemma_number_add(below, beside, after);
        assert((seq![f.id] + (below + beside)).drop_first() =~= below + beside);
    } else {
        assert(ids_of(pre_order(fields)) =~= Seq::<i32>::empty());
        assert(ids_of(pre_order(assign_ids(fields, parent_id, next))) =~= Seq::<i32>::empty());
    }
}

/// What numbering does to a list of ids: it has an id for each, those that were
/// assigned stay, the others are new, not smaller than the first free number, and
/// differ.
pub proof fn numbered_ids(ids: Seq<i32>, next: int)
    requires
        0 <= next,
        next + missing_ids(ids) <= i32::MAX + 1,
    ensures
        number_ids(ids, next).len() == ids.len(),
        forall|i: int|
            0 <= i < ids.len() ==> {
                let id = #[trigger] number_ids(ids, next)[i];
                if ids[i] < 0 {
                    next <= id < next + missing_ids(ids)
                } else {
                    id == ids[i]
                }
            },
        forall|i: int, j: int|
            0 <= i < j < ids.len() && ids[i] < 0 && ids[j] < 0 ==> (#[trigger] number_ids(
                ids,
                next,
            )[i]) < (#[trigger] number_ids(ids, next)[j]),
    decreases ids.len(),
{
    let out = number_ids(ids, next);
    if ids.len() > 0 {
        let rest = ids.drop_first();
        let after = if ids[0] < 0 {
            next + 1
        } else {
            next
        };
        numbered_ids(rest, after);
        let tail = number_ids(rest, after);
        assert forall|i: int| 1 <= i < ids.len() implies #[trigger] out[i] == tail[i - 1] && ids[i]
            == rest[i - 1] by {}
        assert forall|i: int, j: int|
            0 <= i < j < ids.len() && ids[i] < 0 && ids[j] < 0 implies (#[trigger] out[i]) < (
        #[trigger] out[j]) by {
            assert(out[j] == tail[j - 1]);
            if i > 0 {
                assert(out[i] == tail[i - 1]);
            }
        }
    }
}

/// After numbering, every field has an id; a field that had one keeps it; and if the
/// ids were distinct where they were assigned, all ids are distinct.
pub proof fn numbering_keeps_and_separates(
    fields: Seq<FieldModel>,
    max_existing_id: Option<i32>,
)
    requires
        ids_fit(fields, max_existing_id),
    ensures
        ({
            let before = ids_of(pre_order(fields));
            let after = ids_of(pre_order(number_fields(fields, max_existing_id)));
            &&& after.len() == before.len()
            &&& forall|i: int|
                0 <= i < after.len() ==> #[trigger] after[i] >= 0 && (before[i] >= 0 ==> after[i]
                    == before[i])
            &&& forall|i: int|
                0 <= i < after.len() && before[i] < 0 ==> (#[trigger] after[i]) > greatest_id(
                    fields,
                ) && (max_existing_id is Some ==> after[i] > max_existing_id->0)
            &&& (forall|i: int, j: int|
                0 <= i < j < before.len() && before[i] >= 0 && before[j] >= 0
                    ==> #[trigger] before[i] != #[trigger] before[j]) ==> forall|i: int, j: int|
                0 <= i < j < after.len() ==> #[trigger] after[i] != #[trigger] after[j]
        }),
{
    let next = next_id(fields, max_existing_id);
    let before = ids_of(pre_order(fields));
    let after = ids_of(pre_order(number_fields(fields, max_existing_id)));
    lemma_greatest_id(fields);
    numbering_in_pre_order(fields, -1i32, next);
    numbered_ids(before, next);
    assert(after == number_ids(before, next));
    assert forall|i: int| 0 <= i < before.len() implies #[trigger] before[i] <= greatest_id(
        fields,
    ) by {
        assert(pre_order(fields)[i].id <= greatest_id(fields));
    }
    assert forall|i: int| 0 <= i < after.len() implies #[trigger] after[i] >= 0 && (before[i] >= 0
        ==> after[i] == before[i]) by {
        assert(number_ids(before, next)[i] == after[i]);
    }
    assert forall|i: int| 0 <= i < after.len() && before[i] < 0 implies (#[trigger] after[i])
        > greatest_id(fields) && (max_existing_id is Some ==> after[i] > max_existing_id->0) by {
        assert(number_ids(before, next)[i] == after[i]);
    }
    if forall|i: int, j: int|
        0 <= i < j < before.len() && before[i] >= 0 && before[j] >= 0 ==> #[trigger] before[i]
            != #[trigger] before[j] {
        assert forall|i: int, j: int| 0 <= i < j < after.len() implies #[trigger] after[i]
            != #[trigger] after[j] by {
            assert(number_ids(before, next)[i] == after[i]);
            assert(number_ids(before, next)[j] == after[j]);
            assert(before[i] <= greatest_id(fields));
            assert(before[j] <= greatest_id(fields));
        }
    }
}

/// No id given, the numbering starts as if the greatest id of the schema were given.
pub proof fn numbering_from_own_ids(fields: Seq<FieldModel>)
    ensures
        -1 <= greatest_id(fields) <= i32::MAX ==> number_fields(fields, None) == number_fields(
            fields,
            Some(greatest_id(fields) as i32),
        ),
{
    lemma_greatest_id(fields);
}

/// Numbering a second time changes nothing.
pub proof fn numbering_twice(fields: Seq<FieldModel>, parent_id: i32, next: int, again: int)
    requires
        0 <= next,
        next + unassigned(fields) <= i32::MAX + 1,
    ensures
        assign_ids(assign_ids(fields, parent_id, next), parent_id, again) == assign_ids(
            fields,
            parent_id,
            next,
        ),
        unassigned(assign_ids(fields, parent_id, next)) == 0,
    decreases fields,
{
    if fields.len() > 0 {
        let f = fields[0];
        let id = if f.id < 0 {
            next as i32
        } else {
            f.id
        };
        let after = if f.id < 0 {
            next + 1
        } else {
            next
        };
        let out = assign_ids(fields, parent_id, next);
        let rest = assign_ids(fields.drop_first(), parent_id, after + unassigned(f.children));
        assert(out[0] == (FieldModel {
            id,
            parent_id,
            children: assign_ids(f.children, id, after),
            ..f
        }));
        assert(out.drop_first() =~= rest);
        numbering_twice(f.children, id, after, again);
        numbering_twice(
            fields.drop_first(),
            parent_id,
            after + unassigned(f.children),
            again,
        );
        assert(assign_ids(out, parent_id, again) =~= out);
    }
}

proof fn lemma_missing_bound(ids: Seq<i32>)
    ensures
        missing_ids(ids) <= ids.len(),
    decreases ids.len(),
{
    if ids.len() > 0 {
        lemma_missing_bound(ids.drop_first());
    }
}

proof fn lemma_numbered_in_turn(ids: Seq<i32>, next: int, i: int)
    requires
        0 <= next,
        next + missing_ids(ids) <= i32::MAX + 1,
        0 <= i < ids.len(),
    ensures
        number_ids(ids, next).len() == ids.len(),
        number_ids(ids, next)[i] == (if ids[i] < 0 {
            next + missing_ids(ids.take(i))
        } else {
            ids[i] as int
        }),
    decreases ids.len(),
{
    numbered_ids(ids, next);
    let rest = ids.drop_first();
    let after = if ids[0] < 0 {
        next + 1
    } else {
        next
    };
    if i > 0 {
        lemma_numbered_in_turn(rest, after, i - 1);
        assert(number_ids(ids, next)[i] == number_ids(rest, after)[i - 1]);
        assert(ids.take(i).drop_first() =~= rest.take(i - 1));
    } else {
        assert(ids.take(0) =~= Seq::<i32>::empty());
    }
}

/// Setting the field ids of a schema, where the greatest id that is taken and the number
/// of fields, nested ones included, add up to an id. Fields that have an id keep it. The
/// others get the numbers after the greatest id that is taken, one after the other in
/// pre-order. Then no id is negative, and setting the ids again, from whatever id, changes
/// nothing. No id given is as if the greatest id of the schema were given.
pub proof fn setting_field_ids(
    fields: Seq<FieldModel>,
    max_existing_id: Option<i32>,
    again: Option<i32>,
)
    requires
        next_id(fields, max_existing_id) - 1 + pre_order(fields).len() <= i32::MAX,
    ensures
        ids_fit(fields, max_existing_id),
        ({
            let before = ids_of(pre_order(fields));
            let numbered = number_fields(fields, max_existing_id);
            let after = ids_of(pre_order(numbered));
            &&& after.len() == before.len()
            &&& forall|i: int|
                0 <= i < after.len() ==> #[trigger] after[i] == (if before[i] < 0 {
                    next_id(fields, max_existing_id) + missing_ids(before.take(i))
                } else {
                    before[i] as int
                })
            &&& forall|i: int| 0 <= i < after.len() ==> #[trigger] after[i] >= 0
            &&& ids_fit(numbered, again)
            &&& number_fields(numbered, again) == numbered
            &&& number_fields(fields, None) == number_fields(
                fields,
                Some(greatest_id(fields) as i32),
            )
        }),
{
    let next = next_id(fields, max_existing_id);
    let before = ids_of(pre_order(fields));
    let numbered = number_fields(fields, max_existing_id);
    let after = ids_of(pre_order(numbered));
    lemma_greatest_id(fields);
    numbering_in_pre_order(fields, -1i32, next);
    lemma_missing_bound(before);
    assert(before.len() == pre_order(fields).len());
    numbered_ids(before, next);
    assert(after == number_ids(before, next));
    assert forall|i: int| 0 <= i < after.len() implies #[trigger] after[i] == (if before[i] < 0 {
        next + missing_ids(before.take(i))
    } else {
        before[i] as int
    }) by {
        lemma_numbered_in_turn(before, next, i);
    }
    assert forall|i: int| 0 <= i < after.len() implies #[trigger] after[i] >= 0 by {
        assert(number_ids(before, next)[i] == after[i]);
    }
    numbering_twice(fields, -1i32, next, next_id(numbered, again));
    lemma_greatest_id(numbered);
    numbering_from_own_ids(fields);
    lemma_greatest_is_id(fields);
    lemma_greatest_is_id(numbered);
}

proof fn lemma_greatest_is_id(fields: Seq<FieldModel>)
    ensures
        -1 <= greatest_id(fields) <= i32::MAX,
    decreases fields,
{
    if fields.len() > 0 {
        lemma_greatest_is_id(fields[0].children);
        lemma_greatest_is_id(fields.drop_first());
    }
}

// Lookups.

/// Whether a path goes from a field of the forest to one of its children and so on.
pub open spec fn is_descent(fields: Seq<FieldModel>, path: Seq<FieldModel>) -> bool
    decreases path.len(),
{
    path.len() > 0 && fields.contains(path[0]) && (path.len() > 1 ==> is_descent(
        path[0].children,
        path.drop_first(),
    ))
}

/// The ancestry of an id is found exactly where the forest has the id. It starts at
/// the top level, goes from a field to one of its children, and ends at a field with
/// the id.
pub proof fn ancestry_leads_to_id(fields: Seq<FieldModel>, id: i32)
    ensures
        ancestry(fields, id) is Some <==> has_id(fields, id),
        match ancestry(fields, id) {
            Some(path) => is_descent(fields, path) && path.last().id == id,
            None => true,
        },
    decreases fields,
{
    if fields.len() > 0 {
        let last = fields.last();
        let front = fields.drop_last();
        ancestry_leads_to_id(last.children, id);
        ancestry_leads_to_id(front, id);
        lemma_has_id_last(fields, id);
        if last.id == id {
            assert(fields.contains(last));
            assert(seq![last][0] == last);
        } else if ancestry(last.children, id) is Some {
            let below = ancestry(last.children, id)->0;
            let path = seq![last] + below;
            assert(path.drop_first() =~= below);
            assert(fields.contains(last));
        } else if ancestry(front, id) is Some {
            let path = ancestry(front, id)->0;
            let k = choose|k: int| 0 <= k < front.len() && front[k] == path[0];
            assert(fields[k] == path[0]);
        }
    }
}

proof fn lemma_has_id_last(fields: Seq<FieldModel>, id: i32)
    requires
        fields.len() > 0,
    ensures
        has_id(fields, id) <==> has_id(fields.drop_last(), id) || fields.last().id == id || has_id(
            fields.last().children,
            id,
        ),
    decreases fields.len(),
{
    if fields.len() > 1 {
        lemma_has_id_last(fields.drop_first(), id);
        assert(fields.drop_first().drop_last() =~= fields.drop_last().drop_first());
        assert(fields.drop_first().last() == fields.last());
        assert(fields.drop_last()[0] == fields[0]);
    } else {
        assert(fields.drop_first() =~= Seq::<FieldModel>::empty());
        assert(fields.drop_last() =~= Seq::<FieldModel>::empty());
    }
}

proof fn lemma_resolve_from(f: FieldModel, path: Seq<Seq<char>>)
    ensures
        resolve_from(f, path) is Some <==> sub_field(f, path) is Some,
        match resolve_from(f, path) {
            Some(fs) => {
                &&& fs.len() == path.len() + 1
                &&& fs[0] == f
                &&& Some(fs.last()) == sub_field(f, path)
                &&& forall|i: int| 0 <= i < path.len() ==> (#[trigger] fs[i + 1]).name == path[i]
            },
            None => true,
        },
    decreases path.len(),
{
    if path.len() > 0 {
        lemma_index_named(f.children, path[0]);
        match named(f.children, path[0]) {
            Some(c) => {
                lemma_resolve_from(c, path.drop_first());
                match resolve_from(c, path.drop_first()) {
                    Some(below) => {
                        let fs = seq![f] + below;
                        assert forall|i: int| 0 <= i < path.len() implies (
                        #[trigger] fs[i + 1]).name == path[i] by {
                            if i > 0 {
                                assert(below[i - 1 + 1].name == path.drop_first()[i - 1]);
                            }
                        }
                    },
                    None => {},
                }
            },
            None => {},
        }
    }
}

proof fn lemma_resolved_descent(fields: Seq<FieldModel>, f: FieldModel, path: Seq<Seq<char>>)
    requires
        fields.contains(f),
    ensures
        match resolve_from(f, path) {
            Some(fs) => is_descent(fields, fs),
            None => true,
        },
    decreases path.len(),
{
    if path.len() > 0 {
        lemma_index_named(f.children, path[0]);
        match named(f.children, path[0]) {
            Some(c) => {
                assert(f.children.contains(c));
                lemma_resolved_descent(f.children, c, path.drop_first());
                match resolve_from(c, path.drop_first()) {
                    Some(fs) => {
                        assert((seq![f] + fs).drop_first() =~= fs);
                    },
                    None => {},
                }
            },
            None => {},
        }
    }
}

/// Resolving a column gives one field for each part of its name, in order, each a child
/// of the one before, and ends at the field that a lookup by that name finds.
pub proof fn resolution_ends_at_field(fields: Seq<FieldModel>, column: Seq<char>)
    ensures
        resolve_path(fields, column) is Some <==> lookup(fields, column) is Some,
        match resolve_path(fields, column) {
            Some(fs) => {
                &&& fs.len() == split_dots(column).len()
                &&& forall|i: int|
                    0 <= i < fs.len() ==> (#[trigger] fs[i]).name == split_dots(column)[i]
                &&& is_descent(fields, fs)
                &&& Some(fs.last()) == lookup(fields, column)
            },
            None => true,
        },
{
    let path = split_dots(column);
    lemma_split_dots_nonempty(column);
    lemma_index_named(fields, path[0]);
    match named(fields, path[0]) {
        Some(f) => {
            lemma_resolve_from(f, path.drop_first());
            assert(fields.contains(f));
            lemma_resolved_descent(fields, f, path.drop_first());
            match resolve_path(fields, column) {
                Some(fs) => {
                    assert forall|i: int| 0 <= i < fs.len() implies (#[trigger] fs[i]).name
                        == path[i] by {
                        if i > 0 {
                            assert(fs[i - 1 + 1].name == path.drop_first()[i - 1]);
                        }
                    }
                },
                None => {},
            }
        },
        None => {},
    }
}

/// The field of a name without dots is the first top level field of that name.
pub proof fn lookup_of_plain_name(fields: Seq<FieldModel>, name: Seq<char>)
    requires
        !name.contains('.'),
    ensures
        lookup(fields, name) == named(fields, name),
{
    lemma_split_dots_plain(name);
    let path = split_dots(name);
    assert(path.drop_first() =~= Seq::<Seq<char>>::empty());
}

// Storage classes.

/// The two storage classes share the fields between them: each field is in the part
/// of its class, each part has only fields of its class, and nothing is lost.
pub proof fn storage_classes_share(fields: Seq<FieldModel>)
    ensures
        of_storage_class(fields, StorageClass::Default).len() + of_storage_class(
            fields,
            StorageClass::Blob,
        ).len() == fields.len(),
        forall|class: StorageClass, i: int|
            0 <= i < of_storage_class(fields, class).len() ==> (#[trigger] of_storage_class(
                fields,
                class,
            )[i]).storage_class == class,
        forall|i: int|
            0 <= i < fields.len() ==> of_storage_class(
                fields,
                (#[trigger] fields[i]).storage_class,
            ).contains(fields[i]),
    decreases fields.len(),
{
    if fields.len() > 0 {
        let rest = fields.drop_first();
        storage_classes_share(rest);
        assert forall|class: StorageClass, i: int|
            0 <= i < of_storage_class(fields, class).len() implies (#[trigger] of_storage_class(
            fields,
            class,
        )[i]).storage_class == class by {
            let part = of_storage_class(rest, class);
            if fields[0].storage_class == class {
                if i > 0 {
                    assert(of_storage_class(fields, class)[i] == part[i - 1]);
                }
            } else {
                assert(of_storage_class(fields, class)[i] == part[i]);
            }
        }
        assert forall|i: int| 0 <= i < fields.len() implies of_storage_class(
            fields,
            (#[trigger] fields[i]).storage_class,
        ).contains(fields[i]) by {
            let class = fields[i].storage_class;
            let part = of_storage_class(rest, class);
            let all = of_storage_class(fields, class);
            if i == 0 {
                assert(all[0] == fields[0]);
            } else {
                assert(rest[i - 1] == fields[i]);
                let k = choose|k: int| 0 <= k < part.len() && part[k] == fields[i];
                if fields[0].storage_class == class {
                    assert(all[k + 1] == fields[i]);
                } else {
                    assert(all[k] == fields[i]);
                }
            }
        }
        assert(fields[0].storage_class == StorageClass::Default || fields[0].storage_class
            == StorageClass::Blob);
    }
}

// Validity.

/// Whether the names and ids of a schema are in order: no top level name has a dot
/// or is used twice, and every field has an id of its own.
pub open spec fn is_valid(fields: Seq<FieldModel>) -> bool {
    let ids = ids_of(pre_order(fields));
    &&& forall|i: int| 0 <= i < fields.len() ==> !(#[trigger] fields[i]).name.contains('.')
    &&& forall|i: int, j: int|
        0 <= i < j < fields.len() ==> (#[trigger] fields[i]).name != (#[trigger] fields[j]).name
    &&& forall|i: int| 0 <= i < ids.len() ==> #[trigger] ids[i] >= 0
    &&& ids.no_duplicates()
}

proof fn lemma_id_fault(fields: Seq<FieldModel>, all: Seq<FieldModel>, i: int)
    requires
        0 <= i <= all.len(),
    ensures
        id_fault(fields, all, i) is None <==> forall|k: int|
            i <= k < all.len() ==> (#[trigger] all[k]).id >= 0 && forall|j: int|
                0 <= j < k ==> (#[trigger] all[j]).id != all[k].id,
    decreases all.len() - i,
{
    if i < all.len() {
        lemma_id_fault(fields, all, i + 1);
        if id_fault(fields, all, i) is Some && id_fault(fields, all, i + 1) is None {
            assert(all[i].id < 0 || exists|j: int| 0 <= j < i && (#[trigger] all[j]).id
                == all[i].id);
        }
    }
}

proof fn lemma_name_fault(fields: Seq<FieldModel>, i: int)
    requires
        0 <= i <= fields.len(),
    ensures
        name_fault(fields, i) is None <==> forall|k: int|
            i <= k < fields.len() ==> !(#[trigger] fields[k]).name.contains('.') && forall|j: int|
                0 <= j < k ==> column_path(fields, (#[trigger] fields[j]).id) != column_path(
                    fields,
                    fields[k].id,
                ),
    decreases fields.len() - i,
{
    if i < fields.len() {
        lemma_name_fault(fields, i + 1);
        if name_fault(fields, i) is Some && name_fault(fields, i + 1) is None {
            assert(fields[i].name.contains('.') || exists|j: int|
                0 <= j < i && column_path(fields, (#[trigger] fields[j]).id) == column_path(
                    fields,
                    fields[i].id,
                ));
        }
    }
}

proof fn lemma_pre_order_last(fields: Seq<FieldModel>)
    requires
        fields.len() > 0,
    ensures
        ids_of(pre_order(fields)) == ids_of(pre_order(fields.drop_last())) + (seq![
            fields.last().id,
        ] + ids_of(pre_order(fields.last().children))),
{
    let front = fields.drop_last();
    let last = fields.last();
    assert(front + seq![last] =~= fields);
    lemma_pre_order_add(front, seq![last]);
    assert(seq![last].drop_first() =~= Seq::<FieldModel>::empty());
    assert(pre_order(Seq::<FieldModel>::empty()) =~= Seq::<FieldModel>::empty());
    assert(seq![last][0] == last);
    assert(pre_order(seq![last]) =~= seq![last] + pre_order(last.children));
    assert(ids_of(pre_order(fields)) =~= ids_of(pre_order(front)) + (seq![last.id] + ids_of(
        pre_order(last.children),
    )));
}

proof fn lemma_top_level_id(fields: Seq<FieldModel>, i: int)
    requires
        0 <= i < fields.len(),
    ensures
        has_id(fields, fields[i].id),
    decreases fields.len(),
{
    if i > 0 {
        lemma_top_level_id(fields.drop_first(), i - 1);
        assert(fields.drop_first()[i - 1] == fields[i]);
    }
}

/// Where every id is used once, the ancestry of a top level field is the field
/// itself.
proof fn lemma_own_ancestry(fields: Seq<FieldModel>, i: int)
    requires
        0 <= i < fields.len(),
        ids_of(pre_order(fields)).no_duplicates(),
    ensures
        ancestry(fields, fields[i].id) == Some(seq![fields[i]]),
    decreases fields.len(),
{
    let last = fields.last();
    let front = fields.drop_last();
    lemma_pre_order_last(fields);
    let all = ids_of(pre_order(fields));
    let a = ids_of(pre_order(front));
    let b = ids_of(pre_order(last.children));
    if i < fields.len() - 1 {
        let id = fields[i].id;
        assert(front[i] == fields[i]);
        lemma_top_level_id(front, i);
        lemma_has_id(front, id);
        let k = choose|k: int| 0 <= k < a.len() && a[k] == id;
        assert(all[k] == id);
        assert(all[a.len() as int] == last.id);
        lemma_has_id(last.children, id);
        ancestry_leads_to_id(last.children, id);
        if has_id(last.children, id) {
            let m = choose|m: int| 0 <= m < b.len() && b[m] == id;
            assert(all[a.len() + 1 + m] == id);
        }
        assert(a.no_duplicates()) by {
            assert forall|x: int, y: int| 0 <= x < a.len() && 0 <= y < a.len() && x != y implies a[x]
                != a[y] by {
                assert(all[x] == a[x]);
                assert(all[y] == a[y]);
            }
        }
        lemma_own_ancestry(front, i);
    }
}

/// Validation succeeds exactly on schemas whose names and ids are in order.
pub proof fn validation_accepts_valid(fields: Seq<FieldModel>)
    ensures
        schema_fault(fields) is None <==> is_valid(fields),
{
    let all = pre_order(fields);
    let ids = ids_of(all);
    lemma_name_fault(fields, 0);
    lemma_id_fault(fields, all, 0);
    if id_fault(fields, all, 0) is None {
        assert forall|i: int, j: int|
            0 <= i < ids.len() && 0 <= j < ids.len() && i != j implies ids[i] != ids[j] by {
            if i < j {
                assert(all[j].id >= 0 && all[i].id != all[j].id);
            } else {
                assert(all[i].id >= 0 && all[j].id != all[i].id);
            }
        }
        assert forall|i: int| 0 <= i < ids.len() implies #[trigger] ids[i] >= 0 by {
            assert(all[i].id >= 0);
        }
    }
    if ids.no_duplicates() && forall|i: int| 0 <= i < ids.len() ==> #[trigger] ids[i] >= 0 {
        assert forall|k: int| 0 <= k < all.len() implies (#[trigger] all[k]).id >= 0 && forall|
            j: int,
        |
            0 <= j < k ==> (#[trigger] all[j]).id != all[k].id by {
            assert(ids[k] >= 0);
            assert forall|j: int| 0 <= j < k implies (#[trigger] all[j]).id != all[k].id by {
                assert(ids[j] != ids[k]);
            }
        }
        assert forall|i: int| 0 <= i < fields.len() implies column_path(
            fields,
            (#[trigger] fields[i]).id,
        ) == fields[i].name by {
            lemma_own_ancestry(fields, i);
            let path = ancestry(fields, fields[i].id)->0;
            let names = crate::compare::names_of(path);
            assert(names.len() == 1);
            assert(names[0] == fields[i].name);
        }
        if name_fault(fields, 0) is None {
            assert forall|i: int, j: int| 0 <= i < j < fields.len() implies (
            #[trigger] fields[i]).name != (#[trigger] fields[j]).name by {
                assert(!fields[j].name.contains('.'));
                assert(column_path(fields, fields[i].id) != column_path(fields, fields[j].id));
            }
        }
        if is_valid(fields) {
            assert forall|k: int| 0 <= k < fields.len() implies !(
            #[trigger] fields[k]).name.contains('.') && forall|j: int|
                0 <= j < k ==> column_path(fields, (#[trigger] fields[j]).id) != column_path(
                    fields,
                    fields[k].id,
                ) by {
                assert forall|j: int| 0 <= j < k implies column_path(
                    fields,
                    (#[trigger] fields[j]).id,
                ) != column_path(fields, fields[k].id) by {
                    assert(fields[j].name != fields[k].name);
                }
            }
        }
    }
}

// Arrow.

/// The Arrow fields of fields do not depend on their ids.
pub proof fn arrow_ignores_ids(fields: Seq<FieldModel>, parent_id: i32, next: int)
    ensures
        arrow_fields(assign_ids(fields, parent_id, next)) == arrow_fields(fields),
        assign_ids(fields, parent_id, next).len() == fields.len(),
    decreases fields,
{
    if fields.len() > 0 {
        let f = fields[0];
        let id = if f.id < 0 {
            next as i32
        } else {
            f.id
        };
        let after = if f.id < 0 {
            next + 1
        } else {
            next
        };
        let out = assign_ids(fields, parent_id, next);
        let rest = assign_ids(fields.drop_first(), parent_id, after + unassigned(f.children));
        let g = out[0];
        assert(g == (FieldModel {
            id,
            parent_id,
            children: assign_ids(f.children, id, after),
            ..f
        }));
        assert(out.drop_first() =~= rest);
        arrow_ignores_ids(f.children, id, after);
        arrow_ignores_ids(
            fields.drop_first(),
            parent_id,
            after + unassigned(f.children),
        );
        if f.children.len() > 0 {
            assert(arrow_fields(f.children)[0] == arrow_field(f.children[0]));
            assert(arrow_fields(g.children)[0] == arrow_field(g.children[0]));
        }
        assert(arrow_type(g) == arrow_type(f));
        assert(arrow_field(g) == arrow_field(f));
        assert(arrow_fields(out) =~= arrow_fields(fields));
    } else {
        assert(assign_ids(fields, parent_id, next) =~= fields);
    }
}

/// The Arrow schema of the schema of a plain Arrow schema is that Arrow schema.
pub proof fn schema_arrow_round_trip(s: ArrowSchemaModel)
    requires
        all_plain(s.fields),
        schema_of_arrow(s) is Ok,
    ensures
        arrow_fields(schema_of_arrow(s)->Ok_0.fields) == s.fields,
        schema_of_arrow(s)->Ok_0.metadata == s.metadata,
{
    let fields = fields_of_arrow(s.fields)->Ok_0;
    arrow_round_trip_all(s.fields);
    arrow_ignores_ids(fields, -1i32, next_id(fields, None));
}

// Merging.

proof fn lemma_one_id(f: FieldModel, id: i32)
    ensures
        has_id(seq![f], id) <==> f.id == id || has_id(f.children, id),
{
    assert(seq![f][0] == f);
    assert(seq![f].drop_first() =~= Seq::<FieldModel>::empty());
    assert(by_id(Seq::<FieldModel>::empty(), id) is None);
}

/// A forest has an id where one of its trees has it.
proof fn lemma_some_tree(fields: Seq<FieldModel>, id: i32)
    ensures
        has_id(fields, id) <==> exists|i: int|
            0 <= i < fields.len() && has_id(seq![#[trigger] fields[i]], id),
    decreases fields.len(),
{
    if fields.len() > 0 {
        let rest = fields.drop_first();
        lemma_some_tree(rest, id);
        lemma_one_id(fields[0], id);
        if has_id(rest, id) {
            let i = choose|i: int| 0 <= i < rest.len() && has_id(seq![#[trigger] rest[i]], id);
            assert(fields[i + 1] == rest[i]);
        }
        if exists|i: int| 0 <= i < fields.len() && has_id(seq![#[trigger] fields[i]], id) {
            let i = choose|i: int| 0 <= i < fields.len() && has_id(seq![#[trigger] fields[i]], id);
            if i > 0 {
                assert(rest[i - 1] == fields[i]);
            }
        }
    }
}

proof fn lemma_update_id(fields: Seq<FieldModel>, i: int, m: FieldModel, id: i32)
    requires
        0 <= i < fields.len(),
        has_id(seq![m], id) <==> has_id(seq![fields[i]], id),
    ensures
        has_id(fields.update(i, m), id) <==> has_id(fields, id),
{
    let out = fields.update(i, m);
    lemma_some_tree(fields, id);
    lemma_some_tree(out, id);
    if has_id(fields, id) {
        let k = choose|k: int| 0 <= k < fields.len() && has_id(seq![#[trigger] fields[k]], id);
        assert(has_id(seq![out[k]], id));
    }
    if has_id(out, id) {
        let k = choose|k: int| 0 <= k < out.len() && has_id(seq![#[trigger] out[k]], id);
        assert(has_id(seq![fields[k]], id));
    }
}

proof fn lemma_push_id(fields: Seq<FieldModel>, f: FieldModel, id: i32)
    requires
        !has_id(seq![f], id),
    ensures
        has_id(fields.push(f), id) <==> has_id(fields, id),
{
    let out = fields.push(f);
    lemma_some_tree(fields, id);
    lemma_some_tree(out, id);
    if has_id(fields, id) {
        let k = choose|k: int| 0 <= k < fields.len() && has_id(seq![#[trigger] fields[k]], id);
        assert(has_id(seq![out[k]], id));
    }
    if has_id(out, id) {
        let k = choose|k: int| 0 <= k < out.len() && has_id(seq![#[trigger] out[k]], id);
        assert(k < fields.len());
        assert(has_id(seq![fields[k]], id));
    }
}

proof fn lemma_cleared(fields: Seq<FieldModel>, id: i32)
    ensures
        has_id(clear_ids(fields), id) ==> id == -1,
    decreases fields,
{
    if fields.len() > 0 {
        let out = clear_ids(fields);
        lemma_cleared(fields[0].children, id);
        lemma_cleared(fields.drop_first(), id);
        assert(out.drop_first() =~= clear_ids(fields.drop_first()));
    }
}

proof fn lemma_merge_field_ids(a: FieldModel, b: FieldModel, id: i32)
    requires
        merge_field(a, b) is Ok,
        !has_id(seq![b], id),
    ensures
        has_id(seq![merge_field(a, b)->Ok_0], id) <==> has_id(seq![a], id),
    decreases b,
{
    let (s, t) = (a.logical_type, b.logical_type);
    let m = merge_field(a, b)->Ok_0;
    lemma_one_id(a, id);
    lemma_one_id(b, id);
    lemma_one_id(m, id);
    if s.is_struct() && t.is_struct() {
        lemma_merge_children_ids(a.children, b.children, id);
    } else if ((s.is_list() && t.is_list()) || (s.is_large_list() && t.is_large_list()))
        && a.children.len() > 0 && b.children.len() > 0 {
        lemma_some_tree(b.children, id);
        assert(!has_id(seq![b.children[0]], id));
        lemma_merge_field_ids(a.children[0], b.children[0], id);
        lemma_update_id(a.children, 0, m.children[0], id);
    }
}

proof fn lemma_merge_children_ids(a: Seq<FieldModel>, b: Seq<FieldModel>, id: i32)
    requires
        merge_children(a, b) is Ok,
        !has_id(b, id),
    ensures
        has_id(merge_children(a, b)->Ok_0, id) <==> has_id(a, id),
    decreases b,
{
    if b.len() > 0 {
        lemma_some_tree(b, id);
        assert(!has_id(seq![b[0]], id));
        assert(!has_id(b.drop_first(), id)) by {
            lemma_one_id(b[0], id);
        }
        lemma_index_named(a, b[0].name);
        match index_named(a, b[0].name) {
            Some(i) => {
                let m = merge_field(a[i], b[0])->Ok_0;
                lemma_merge_field_ids(a[i], b[0], id);
                lemma_update_id(a, i, m, id);
                lemma_merge_children_ids(a.update(i, m), b.drop_first(), id);
            },
            None => {
                lemma_push_id(a, b[0], id);
                lemma_merge_children_ids(a.push(b[0]), b.drop_first(), id);
            },
        }
    }
}

proof fn lemma_merge_each_ids(a: Seq<FieldModel>, b: Seq<FieldModel>, id: i32)
    requires
        merge_each(a, b) is Ok,
        !has_id(b, id),
    ensures
        merge_each(a, b)->Ok_0.len() == a.len(),
        has_id(merge_each(a, b)->Ok_0, id) <==> has_id(a, id),
        forall|i: int|
            0 <= i < a.len() ==> {
                let m = #[trigger] merge_each(a, b)->Ok_0[i];
                m.name == a[i].name && m.id == a[i].id
            },
    decreases a.len(),
{
    if a.len() > 0 {
        let rest = a.drop_first();
        let out = merge_each(a, b)->Ok_0;
        let tail = merge_each(rest, b)->Ok_0;
        lemma_merge_each_ids(rest, b, id);
        let f = out[0];
        assert(out.drop_first() =~= tail);
        lemma_one_id(a[0], id);
        lemma_one_id(f, id);
        match lookup(b, a[0].name) {
            Some(o) => {
                crate::within::lemma_lookup(b, a[0].name);
                assert(!has_id(seq![o], id));
                lemma_merge_field_ids(a[0], o, id);
            },
            None => {},
        }
        assert forall|i: int| 0 <= i < a.len() implies {
            let m = #[trigger] out[i];
            m.name == a[i].name && m.id == a[i].id
        } by {
            if i > 0 {
                assert(out[i] == tail[i - 1]);
                assert(a[i] == rest[i - 1]);
            }
        }
    } else {
        assert(merge_each(a, b)->Ok_0 =~= a);
    }
}

proof fn lemma_add_new_ids(a: Seq<FieldModel>, b: Seq<FieldModel>, id: i32)
    requires
        !has_id(b, id),
    ensures
        has_id(add_new(a, b), id) <==> has_id(a, id),
        add_new(a, b).len() >= a.len(),
        forall|i: int| 0 <= i < a.len() ==> #[trigger] add_new(a, b)[i] == a[i],
    decreases b.len(),
{
    if b.len() > 0 {
        lemma_some_tree(b, id);
        assert(!has_id(seq![b[0]], id));
        assert(!has_id(b.drop_first(), id)) by {
            lemma_one_id(b[0], id);
        }
        if has_name(a, b[0].name) {
            lemma_add_new_ids(a, b.drop_first(), id);
        } else {
            lemma_push_id(a, b[0], id);
            lemma_add_new_ids(a.push(b[0]), b.drop_first(), id);
            assert forall|i: int| 0 <= i < a.len() implies #[trigger] add_new(a, b)[i] == a[i] by {
                assert(add_new(a.push(b[0]), b.drop_first())[i] == a.push(b[0])[i]);
            }
        }
    }
}

/// A merged schema has the top level fields of the first schema in place, with their
/// names and ids. The ids it has are those of the first schema, besides -1: what comes
/// from the other schema has no id.
pub proof fn merging_keeps_own_ids(a: SchemaModel, b: SchemaModel, id: i32)
    requires
        merge_schema(a, b) is Ok,
        id != -1,
    ensures
        has_id(merge_schema(a, b)->Ok_0.fields, id) <==> has_id(a.fields, id),
        merge_schema(a, b)->Ok_0.fields.len() >= a.fields.len(),
        forall|i: int|
            0 <= i < a.fields.len() ==> {
                let m = #[trigger] merge_schema(a, b)->Ok_0.fields[i];
                m.name == a.fields[i].name && m.id == a.fields[i].id
            },
{
    let others = clear_ids(b.fields);
    let merged = merge_each(a.fields, others)->Ok_0;
    lemma_cleared(b.fields, id);
    lemma_merge_each_ids(a.fields, others, id);
    lemma_add_new_ids(merged, others, id);
    assert forall|i: int| 0 <= i < a.fields.len() implies {
        let m = #[trigger] merge_schema(a, b)->Ok_0.fields[i];
        m.name == a.fields[i].name && m.id == a.fields[i].id
    } by {
        assert(add_new(merged, others)[i] == merged[i]);
    }
}

// Projecting.

proof fn lemma_selected_field(f: FieldModel, ids: Set<i32>, whole: bool, id: i32)
    ensures
        ids.contains(id) && has_id(seq![f], id) ==> select_field(f, ids, whole) is Some && has_id(
            seq![select_field(f, ids, whole)->0],
            id,
        ),
        select_field(f, ids, whole) is Some && has_id(seq![select_field(f, ids, whole)->0], id)
            ==> has_id(seq![f], id),
    decreases f,
{
    lemma_one_id(f, id);
    if !(whole && ids.contains(f.id)) {
        let children = select_fields(f.children, ids, whole);
        let g = FieldModel { children, ..f };
        selection_keeps_selected(f.children, ids, whole, id);
        lemma_one_id(g, id);
        if has_id(children, id) {
            assert(children.len() > 0);
        }
    }
}

/// A selection by ids keeps every field whose id is selected, and has no id that the
/// schema does not have.
pub proof fn selection_keeps_selected(
    fields: Seq<FieldModel>,
    ids: Set<i32>,
    whole: bool,
    id: i32,
)
    ensures
        ids.contains(id) && has_id(fields, id) ==> has_id(select_fields(fields, ids, whole), id),
        has_id(select_fields(fields, ids, whole), id) ==> has_id(fields, id),
    decreases fields,
{
    if fields.len() > 0 {
        let rest = select_fields(fields.drop_first(), ids, whole);
        lemma_selected_field(fields[0], ids, whole, id);
        selection_keeps_selected(fields.drop_first(), ids, whole, id);
        lemma_one_id(fields[0], id);
        match select_field(fields[0], ids, whole) {
            Some(g) => {
                lemma_one_id(g, id);
                assert((seq![g] + rest)[0] == g);
                assert((seq![g] + rest).drop_first() =~= rest);
            },
            None => {},
        }
    }
}

/// With `whole`, a top level field whose id is selected stays as it is.
pub proof fn whole_selection_keeps_children(f: FieldModel, ids: Set<i32>)
    requires
        ids.contains(f.id),
    ensures
        select_field(f, ids, true) == Some(f),
{
}

/// A selection of all ids changes nothing.
pub proof fn selecting_everything(fields: Seq<FieldModel>, ids: Set<i32>, whole: bool)
    requires
        forall|id: i32| #[trigger] has_id(fields, id) ==> ids.contains(id),
    ensures
        select_fields(fields, ids, whole) == fields,
    decreases fields,
{
    if fields.len() > 0 {
        let f = fields[0];
        assert forall|id: i32| #[trigger] has_id(f.children, id) implies ids.contains(id) by {
            assert(f.id == id || has_id(f.children, id));
            assert(has_id(fields, id));
        }
        assert forall|id: i32| #[trigger] has_id(fields.drop_first(), id) implies ids.contains(
            id,
        ) by {
            assert(has_id(fields, id));
        }
        assert(has_id(fields, f.id));
        selecting_everything(f.children, ids, whole);
        selecting_everything(fields.drop_first(), ids, whole);
        assert(select_field(f, ids, whole) == Some(f));
        assert(select_fields(fields, ids, whole) =~= fields);
    } else {
        assert(select_fields(fields, ids, whole) =~= fields);
    }
}

/// A projection that succeeds when missing columns are errors gives the same when
/// they are dropped.
pub proof fn dropping_only_matters_on_error(
    fields: Seq<FieldModel>,
    columns: Seq<Seq<char>>,
    found: Seq<FieldModel>,
)
    requires
        project_columns(fields, columns, found, true) is Ok,
    ensures
        project_columns(fields, columns, found, false) == project_columns(
            fields,
            columns,
            found,
            true,
        ),
    decreases columns.len(),
{
    if columns.len() > 0 {
        let path = split_dots(columns[0]);
        let rest = columns.drop_first();
        match named(fields, path[0]) {
            Some(f) => {
                let part = crate::field_ops::project_path(f, path.drop_first());
                match index_named(found, path[0]) {
                    Some(i) => {
                        let m = merge_field(found[i], part)->Ok_0;
                        dropping_only_matters_on_error(fields, rest, found.update(i, m));
                    },
                    None => {
                        dropping_only_matters_on_error(fields, rest, found.push(part));
                    },
                }
            },
            None => {
                dropping_only_matters_on_error(fields, rest, found);
            },
        }
    }
}

// Excluding.

proof fn lemma_exclude_suffix(all: Seq<FieldModel>, k: int)
    requires
        distinct(all),
        0 <= k <= all.len(),
    ensures
        exclude_fields(all.skip(k), all) == Seq::<FieldModel>::empty(),
    decreases all, all.len() - k,
{
    let s = all.skip(k);
    if k < all.len() {
        let f = all[k];
        assert(s[0] == f);
        assert(s.drop_first() =~= all.skip(k + 1));
        lemma_index_unique(all, f.name, k);
        assert(f.children.skip(0) =~= f.children);
        lemma_exclude_suffix(f.children, 0);
        assert(exclude_field(f, f) is None);
        lemma_exclude_suffix(all, k + 1);
    }
}

proof fn lemma_exclude_schema_suffix(all: Seq<FieldModel>, k: int)
    requires
        distinct(all),
        forall|i: int| 0 <= i < all.len() ==> !(#[trigger] all[i]).name.contains('.'),
        0 <= k <= all.len(),
    ensures
        exclude_schema(all.skip(k), all) == Seq::<FieldModel>::empty(),
    decreases all.len() - k,
{
    let s = all.skip(k);
    if k < all.len() {
        let f = all[k];
        assert(s[0] == f);
        assert(s.drop_first() =~= all.skip(k + 1));
        lookup_of_plain_name(all, f.name);
        lemma_index_unique(all, f.name, k);
        assert(f.children.skip(0) =~= f.children);
        lemma_exclude_suffix(f.children, 0);
        assert(exclude_field(f, f) is None);
        lemma_exclude_schema_suffix(all, k + 1);
    }
}

/// A schema taken out of itself leaves nothing, if its names are distinct and no top
/// level name has a dot.
pub proof fn excluding_itself(fields: Seq<FieldModel>)
    requires
        distinct(fields),
        forall|i: int| 0 <= i < fields.len() ==> !(#[trigger] fields[i]).name.contains('.'),
    ensures
        exclude_schema(fields, fields) == Seq::<FieldModel>::empty(),
{
    assert(fields.skip(0) =~= fields);
    lemma_exclude_schema_suffix(fields, 0);
}

// Comparing.

/// A schema with distinct names is the expected one exactly where there is no
/// difference to explain.
pub proof fn mismatch_is_explained(s: Schema, expected: Schema, o: SchemaCompareOptions)
    requires
        distinct(s@.fields),
        distinct(expected@.fields),
    ensures
        schema_matches(s@, expected@, o) <==> schema_difference(s, expected, o) is None,
{
    fields_explained(s@.fields, expected@.fields, o, None);
}

// Projections.

/// The projection of everything selects the schema as it is, where every field has an
/// id.
pub proof fn full_projection_is_base(base: SchemaModel)
    requires
        forall|id: i32| #[trigger] has_id(base.fields, id) ==> id >= 0,
    ensures
        (ProjectionModel {
            base,
            field_ids: Set::empty(),
            with_row_id: false,
            with_row_addr: false,
        }).union_schema(base.fields).to_schema() == base,
{
    let ids = Set::<i32>::empty().union(assigned_ids(pre_order(base.fields)));
    assert forall|id: i32| #[trigger] has_id(base.fields, id) implies ids.contains(id) by {
        lemma_has_id(base.fields, id);
        assert(id_set(pre_order(base.fields)).contains(id));
    }
    selecting_everything(base.fields, ids, false);
}

/// The projection of nothing selects no field.
pub proof fn empty_projection_is_empty(fields: Seq<FieldModel>)
    ensures
        select_fields(fields, Set::empty(), false) == Seq::<FieldModel>::empty(),
    decreases fields,
{
    if fields.len() > 0 {
        empty_projection_is_empty(fields[0].children);
        empty_projection_is_empty(fields.drop_first());
        assert(select_field(fields[0], Set::empty(), false) is None);
    }
}

/// Adding a column selects the field that its name leads to and all fields above it,
/// and keeps what was selected.
pub proof fn union_column_selects_parents(
    p: ProjectionModel,
    column: Seq<char>,
    on_missing: OnMissing,
)
    requires
        column != crate::schema_ops::row_id(),
        column != crate::schema_ops::row_addr(),
        resolve_path(p.base.fields, column) is Some,
    ensures
        p.union_column(column, on_missing) is Ok,
        ({
            let path = resolve_path(p.base.fields, column)->0;
            let q = p.union_column(column, on_missing)->Ok_0;
            &&& forall|i: int| 0 <= i < path.len() ==> q.field_ids.contains((#[trigger] path[i]).id)
            &&& p.field_ids.subset_of(q.field_ids)
        }),
{
    let path = resolve_path(p.base.fields, column)->0;
    let q = p.union_column(column, on_missing)->Ok_0;
    assert forall|i: int| 0 <= i < path.len() implies q.field_ids.contains(
        (#[trigger] path[i]).id,
    ) by {
        assert(ids_of(path)[i] == path[i].id);
        assert(ids_of(path).contains(path[i].id));
    }
}

/// Of two projections, what they share and what only the first selects make up the
/// first; what one takes away from itself is nothing; and the union with what the
/// first selects alone is the union.
pub proof fn projections_are_sets(p: ProjectionModel, q: ProjectionModel)
    ensures
        p.intersect(q).union_projection(p.subtract_projection(q)) == p,
        p.subtract_projection(p) == (ProjectionModel {
            field_ids: Set::empty(),
            with_row_id: false,
            with_row_addr: false,
            ..p
        }),
        p.union_projection(q).subtract_projection(q) == p.subtract_projection(q),
        p.intersect(p) == p,
        p.union_projection(p) == p,
{
    assert(p.intersect(q).union_projection(p.subtract_projection(q)).field_ids =~= p.field_ids);
    assert(p.subtract_projection(p).field_ids =~= Set::<i32>::empty());
    assert(p.union_projection(q).subtract_projection(q).field_ids =~= p.subtract_projection(
        q,
    ).field_ids);
    assert(p.intersect(p).field_ids =~= p.field_ids);
    assert(p.union_projection(p).field_ids =~= p.field_ids);
}

} // verus!
