//! Laws of fields: of walking over them, of selecting and comparing them, and of their Arrow
//! counterparts.

use vstd::prelude::*;
use crate::arrow::ArrowFieldModel;
use crate::arrow::DataTypeModel;
use crate::combining_laws::all_differ;
use crate::combining_laws::occurs;
use crate::combining_laws::same_head;
use crate::compare::field_matches;
use crate::compare::fields_match;
use crate::compare::found_in;
use crate::compare::last_named;
use crate::compare::lemma_last_named;
use crate::compare::match_in_turn;
use crate::compare::NullabilityComparison;
use crate::compare::SchemaCompareOptions;
use crate::convert::arrow_field;
use crate::convert::arrow_fields;
use crate::convert::arrow_type;
use crate::convert::field_of_arrow;
use crate::convert::fields_of_arrow;
use crate::error::ErrorModel;
use crate::field::ids_of;
use crate::field::pre_order;
use crate::field::FieldModel;
use crate::field::StorageClass;
use crate::field_ops::select_field;
use crate::field_ops::select_fields;
use crate::logical::leaf_arrow;
use crate::logical::logical_of;
use crate::logical::LogicalModel;
use crate::projection::ProjectionModel;
use crate::schema::keys_among;
use crate::schema::of_storage_class;
use crate::text::sans_case;

verus! {

// Walking.

/// Walking over fields in pre-order comes first to the first field, then to what is in it,
/// and then to the other fields.
pub proof fn parents_come_first(first: FieldModel, rest: Seq<FieldModel>)
    ensures
        pre_order(Seq::<FieldModel>::empty()).len() == 0,
        pre_order(seq![first] + rest) == seq![first] + pre_order(first.children) + pre_order(rest),
{
    let fields = seq![first] + rest;
    assert(fields.drop_first() =~= rest);
}

/// The fields of a storage class are those that have it, in order.
pub proof fn storage_class_decides(fields: Seq<FieldModel>, class: StorageClass)
    ensures
        of_storage_class(fields, class) == fields.filter(
            |f: FieldModel| f.storage_class == class,
        ),
    decreases fields.len(),
{
    let cond = |f: FieldModel| f.storage_class == class;
    if fields.len() > 0 {
        let rest = fields.drop_first();
        storage_class_decides(rest, class);
        assert(fields =~= seq![fields[0]] + rest);
        rest.lemma_filter_prepend(fields[0], cond);
        assert(Seq::<FieldModel>::empty() + rest.filter(cond) =~= rest.filter(cond));
    } else {
        reveal(Seq::filter);
        assert(fields =~= Seq::<FieldModel>::empty());
    }
}

/// The fields of the primary key are those that are marked so, in order.
pub proof fn primary_key_is_marked(fields: Seq<FieldModel>)
    ensures
        keys_among(fields) == fields.filter(|f: FieldModel| f.unenforced_primary_key),
    decreases fields.len(),
{
    let cond = |f: FieldModel| f.unenforced_primary_key;
    if fields.len() > 0 {
        let rest = fields.drop_first();
        primary_key_is_marked(rest);
        assert(fields =~= seq![fields[0]] + rest);
        rest.lemma_filter_prepend(fields[0], cond);
        assert(Seq::<FieldModel>::empty() + rest.filter(cond) =~= rest.filter(cond));
    } else {
        reveal(Seq::filter);
        assert(fields =~= Seq::<FieldModel>::empty());
    }
}

// Selecting.

/// Whether a field or one in it, at any depth, has one of some ids.
pub open spec fn is_wanted(f: FieldModel, ids: Set<i32>) -> bool {
    ids.contains(f.id) || exists|i: int|
        0 <= i < pre_order(f.children).len() && ids.contains(
            (#[trigger] pre_order(f.children)[i]).id,
        )
}

/// The fields that are wanted, in order.
pub open spec fn wanted_fields(fields: Seq<FieldModel>, ids: Set<i32>) -> Seq<FieldModel> {
    fields.filter(|f: FieldModel| is_wanted(f, ids))
}

/// Selecting by ids gives the fields that are wanted, in order and as they are, up to their
/// children. Their children are selected in the same way, unless a field that is selected
/// itself is to keep all of its children.
#[verifier::spinoff_prover]
#[verifier::rlimit(60)]
pub proof fn selecting_by_ids(fields: Seq<FieldModel>, ids: Set<i32>, whole: bool)
    ensures
        ({
            let out = select_fields(fields, ids, whole);
            let wanted = wanted_fields(fields, ids);
            &&& out.len() == wanted.len()
            &&& forall|k: int|
                0 <= k < out.len() ==> {
                    &&& same_head(#[trigger] out[k], wanted[k])
                    &&& out[k].children == (if whole && ids.contains(wanted[k].id) {
                        wanted[k].children
                    } else {
                        select_fields(wanted[k].children, ids, whole)
                    })
                }
        }),
    decreases fields,
{
    let out = select_fields(fields, ids, whole);
    let wanted = wanted_fields(fields, ids);
    let cond = |f: FieldModel| is_wanted(f, ids);
    if fields.len() > 0 {
        let rest = fields.drop_first();
        let tail = select_fields(rest, ids, whole);
        selecting_by_ids(rest, ids, whole);
        lemma_selects_wanted(fields[0], ids, whole);
        assert(fields =~= seq![fields[0]] + rest);
        rest.lemma_filter_prepend(fields[0], cond);
        assert(Seq::<FieldModel>::empty() + rest.filter(cond) =~= rest.filter(cond));
        if is_wanted(fields[0], ids) {
            assert(wanted == seq![fields[0]] + wanted_fields(rest, ids));
            assert(out == seq![out[0]] + tail);
            assert forall|k: int| 0 <= k < out.len() implies {
                &&& same_head(#[trigger] out[k], wanted[k])
                &&& out[k].children == (if whole && ids.contains(wanted[k].id) {
                    wanted[k].children
                } else {
                    select_fields(wanted[k].children, ids, whole)
                })
            } by {
                if k > 0 {
                    assert(out[k] == tail[k - 1]);
                    assert(wanted[k] == wanted_fields(rest, ids)[k - 1]);
                }
            }
        } else {
            assert(wanted == wanted_fields(rest, ids));
            assert(out == tail);
        }
    } else {
        reveal(Seq::filter);
    }
}

proof fn lemma_selects_wanted(f: FieldModel, ids: Set<i32>, whole: bool)
    ensures
        select_field(f, ids, whole) is Some <==> is_wanted(f, ids),
    decreases f,
{
    if !ids.contains(f.id) {
        lemma_selects_some(f.children, ids, whole);
    }
}

proof fn lemma_selects_some(fields: Seq<FieldModel>, ids: Set<i32>, whole: bool)
    ensures
        select_fields(fields, ids, whole).len() > 0 <==> exists|i: int|
            0 <= i < pre_order(fields).len() && ids.contains((#[trigger] pre_order(fields)[i]).id),
    decreases fields,
{
    if fields.len() > 0 {
        let all = pre_order(fields);
        let below = pre_order(fields[0].children);
        let rest = pre_order(fields.drop_first());
        lemma_selects_wanted(fields[0], ids, whole);
        lemma_selects_some(fields.drop_first(), ids, whole);
        assert(all =~= seq![fields[0]] + below + rest);
        if is_wanted(fields[0], ids) {
            if ids.contains(fields[0].id) {
                assert(ids.contains(all[0].id));
            } else {
                let i = choose|i: int|
                    0 <= i < below.len() && ids.contains((#[trigger] below[i]).id);
                assert(ids.contains(all[i + 1].id));
            }
        } else {
            if exists|i: int| 0 <= i < rest.len() && ids.contains((#[trigger] rest[i]).id) {
                let i = choose|i: int| 0 <= i < rest.len() && ids.contains((#[trigger] rest[i]).id);
                assert(ids.contains(all[i + 1 + below.len()].id));
            }
            if exists|i: int| 0 <= i < all.len() && ids.contains((#[trigger] all[i]).id) {
                let i = choose|i: int| 0 <= i < all.len() && ids.contains((#[trigger] all[i]).id);
                if 0 < i < 1 + below.len() {
                    assert(ids.contains(below[i - 1].id));
                } else if i >= 1 + below.len() {
                    assert(ids.contains(rest[i - 1 - below.len()].id));
                }
            }
        }
    }
}

/// Whether fields, at any depth, name a column: they have a field of that name without an
/// id.
pub open spec fn name_special(fields: Seq<FieldModel>, name: Seq<char>) -> bool {
    exists|i: int|
        0 <= i < pre_order(fields).len() && (#[trigger] pre_order(fields)[i]).id < 0 && pre_order(
            fields,
        )[i].name == name
}

/// Whether fields, at any depth, have an id.
pub open spec fn have_id(fields: Seq<FieldModel>, id: i32) -> bool {
    exists|i: int| 0 <= i < pre_order(fields).len() && (#[trigger] pre_order(fields)[i]).id == id
}

/// Adding a schema to a projection selects what was selected and every field of the schema,
/// and taking it away selects what was selected but no field of it. The row id and the row
/// address go with a field of their name that has no id.
pub proof fn projections_take_schemas(p: ProjectionModel, fields: Seq<FieldModel>, id: i32)
    ensures
        ({
            let q = p.union_schema(fields);
            &&& q.base == p.base
            &&& q.field_ids.contains(id) <==> p.field_ids.contains(id) || (id >= 0 && have_id(
                fields,
                id,
            ))
            &&& q.with_row_id <==> p.with_row_id || name_special(fields, "_rowid"@)
            &&& q.with_row_addr <==> p.with_row_addr || name_special(fields, "_rowaddr"@)
        }),
        ({
            let q = p.subtract_schema(fields);
            &&& q.base == p.base
            &&& q.field_ids.contains(id) <==> p.field_ids.contains(id) && !(id >= 0 && have_id(
                fields,
                id,
            ))
            &&& q.with_row_id <==> p.with_row_id && !name_special(fields, "_rowid"@)
            &&& q.with_row_addr <==> p.with_row_addr && !name_special(fields, "_rowaddr"@)
        }),
{
    let all = pre_order(fields);
    let ids = ids_of(all);
    if have_id(fields, id) {
        let i = choose|i: int| 0 <= i < all.len() && (#[trigger] all[i]).id == id;
        assert(ids[i] == id);
        assert(ids.contains(id));
    }
    if ids.contains(id) {
        let i = choose|i: int| 0 <= i < ids.len() && ids[i] == id;
        assert(all[i].id == id);
    }
}

/// The union, the intersection and the difference of projections select what one, both or
/// only the first of them selects, of the first one's schema.
pub proof fn projections_combine(p: ProjectionModel, q: ProjectionModel, id: i32)
    ensures
        ({
            let r = p.union_projection(q);
            &&& r.base == p.base
            &&& r.field_ids.contains(id) <==> p.field_ids.contains(id) || q.field_ids.contains(id)
            &&& r.with_row_id <==> p.with_row_id || q.with_row_id
            &&& r.with_row_addr <==> p.with_row_addr || q.with_row_addr
        }),
        ({
            let r = p.intersect(q);
            &&& r.base == p.base
            &&& r.field_ids.contains(id) <==> p.field_ids.contains(id) && q.field_ids.contains(id)
            &&& r.with_row_id <==> p.with_row_id && q.with_row_id
            &&& r.with_row_addr <==> p.with_row_addr && q.with_row_addr
        }),
        ({
            let r = p.subtract_projection(q);
            &&& r.base == p.base
            &&& r.field_ids.contains(id) <==> p.field_ids.contains(id) && !q.field_ids.contains(id)
            &&& r.with_row_id <==> p.with_row_id && !q.with_row_id
            &&& r.with_row_addr <==> p.with_row_addr && !q.with_row_addr
        }),
{
}

// Comparing.

/// Whether a field is the expected one, leaving its children aside.
pub open spec fn is_like(f: FieldModel, e: FieldModel, o: SchemaCompareOptions) -> bool {
    &&& f.name == e.name
    &&& f.logical_type == e.logical_type
    &&& o.compare_nullability == NullabilityComparison::Strict ==> f.nullable == e.nullable
    &&& o.compare_nullability == NullabilityComparison::OneWay && f.nullable ==> e.nullable
    &&& o.compare_field_ids ==> f.id == e.id
    &&& o.compare_dictionary ==> f.dictionary == e.dictionary
    &&& o.compare_metadata ==> f.metadata == e.metadata
}

/// A field is the expected one exactly if it is like it and its children are the expected
/// ones.
pub proof fn matching_fields(f: FieldModel, e: FieldModel, o: SchemaCompareOptions)
    ensures
        field_matches(f, e, o) <==> is_like(f, e, o) && fields_match(f.children, e.children, o),
{
}

/// Where neither may fields be missing nor their order differ, fields are the expected ones
/// exactly if they are as many and each is the expected one in its place.
pub proof fn matching_in_place(
    fields: Seq<FieldModel>,
    expected: Seq<FieldModel>,
    o: SchemaCompareOptions,
)
    requires
        !o.allow_missing_if_nullable,
        !o.ignore_field_order,
    ensures
        fields_match(fields, expected, o) <==> fields.len() == expected.len() && forall|i: int|
            0 <= i < expected.len() ==> field_matches(#[trigger] fields[i], expected[i], o),
{
    if fields.len() == expected.len() {
        lemma_in_place(fields, expected, o);
    }
}

proof fn lemma_in_place(
    fields: Seq<FieldModel>,
    expected: Seq<FieldModel>,
    o: SchemaCompareOptions,
)
    requires
        fields.len() == expected.len(),
    ensures
        match_in_turn(fields, expected, o) <==> forall|i: int|
            0 <= i < expected.len() ==> field_matches(#[trigger] fields[i], expected[i], o),
    decreases expected.len(),
{
    if expected.len() > 0 {
        let f = fields.drop_first();
        let e = expected.drop_first();
        lemma_in_place(f, e, o);
        if match_in_turn(fields, expected, o) {
            assert forall|i: int| 0 <= i < expected.len() implies field_matches(
                #[trigger] fields[i],
                expected[i],
                o,
            ) by {
                if i > 0 {
                    assert(f[i - 1] == fields[i]);
                    assert(e[i - 1] == expected[i]);
                }
            }
        }
        if forall|i: int|
            0 <= i < expected.len() ==> field_matches(#[trigger] fields[i], expected[i], o) {
            assert(field_matches(fields[0], expected[0], o));
            assert forall|i: int| 0 <= i < e.len() implies field_matches(
                #[trigger] f[i],
                e[i],
                o,
            ) by {
                assert(field_matches(fields[i + 1], expected[i + 1], o));
            }
        }
    }
}

/// Whether an expected field is there, or is nullable and may be missing.
pub open spec fn is_there(
    fields: Seq<FieldModel>,
    e: FieldModel,
    o: SchemaCompareOptions,
) -> bool {
    ||| exists|j: int|
        0 <= j < fields.len() && (#[trigger] fields[j]).name == e.name && field_matches(
            fields[j],
            e,
            o,
        )
    ||| !occurs(fields, e.name) && o.allow_missing_if_nullable && e.nullable
}

/// Whether a field of a name stands at a position.
pub open spec fn stands(fields: Seq<FieldModel>, p: int, name: Seq<char>) -> bool {
    0 <= p < fields.len() && fields[p].name == name
}

/// Whether the expected fields that are there stand in the expected order, none of them
/// before a position.
pub open spec fn in_order(
    fields: Seq<FieldModel>,
    expected: Seq<FieldModel>,
    after: int,
) -> bool {
    &&& forall|i: int, p: int|
        0 <= i < expected.len() && #[trigger] stands(fields, p, expected[i].name) ==> after <= p
    &&& forall|i: int, j: int, p: int, q: int|
        0 <= i < j < expected.len() && #[trigger] stands(fields, p, expected[i].name)
            && #[trigger] stands(fields, q, expected[j].name) ==> p <= q
}

/// Where fields may be missing or their order differ, fields of distinct names are the
/// expected ones exactly if none is of a name that is not expected, every expected one is
/// there or may be missing, and they stand in the expected order, if that matters.
pub proof fn matching_by_name(
    fields: Seq<FieldModel>,
    expected: Seq<FieldModel>,
    o: SchemaCompareOptions,
)
    requires
        o.allow_missing_if_nullable || o.ignore_field_order,
        all_differ(fields),
    ensures
        fields_match(fields, expected, o) <==> {
            &&& forall|i: int|
                0 <= i < fields.len() ==> occurs(expected, (#[trigger] fields[i]).name)
            &&& forall|i: int|
                0 <= i < expected.len() ==> is_there(fields, #[trigger] expected[i], o)
            &&& o.ignore_field_order || in_order(fields, expected, 0)
        },
{
    lemma_by_name(fields, expected, 0, o);
    assert forall|name: Seq<char>| #[trigger] occurs(expected, name) <==> crate::field::has_name(
        expected,
        name,
    ) by {}
}

#[verifier::spinoff_prover]
#[verifier::rlimit(60)]
proof fn lemma_order_step(fields: Seq<FieldModel>, expected: Seq<FieldModel>, after: int, p: int)
    requires
        all_differ(fields),
        expected.len() > 0,
        stands(fields, p, expected[0].name),
    ensures
        in_order(fields, expected, after) <==> after <= p && in_order(
            fields,
            expected.drop_first(),
            p,
        ),
{
    let rest = expected.drop_first();
    if in_order(fields, expected, after) {
        assert forall|i: int, q: int|
            0 <= i < rest.len() && #[trigger] stands(fields, q, rest[i].name) implies p <= q by {
            assert(stands(fields, q, expected[i + 1].name));
        }
        assert forall|i: int, j: int, a: int, b: int|
            0 <= i < j < rest.len() && #[trigger] stands(fields, a, rest[i].name)
                && #[trigger] stands(fields, b, rest[j].name) implies a <= b by {
            assert(stands(fields, a, expected[i + 1].name));
            assert(stands(fields, b, expected[j + 1].name));
        }
    }
    if after <= p && in_order(fields, rest, p) {
        assert forall|i: int, q: int|
            0 <= i < expected.len() && #[trigger] stands(
                fields,
                q,
                expected[i].name,
            ) implies after <= q by {
            if i == 0 {
                lemma_one_place(fields, p, q);
            } else {
                assert(stands(fields, q, rest[i - 1].name));
            }
        }
        assert forall|i: int, j: int, a: int, b: int|
            0 <= i < j < expected.len() && #[trigger] stands(fields, a, expected[i].name)
                && #[trigger] stands(fields, b, expected[j].name) implies a <= b by {
            assert(stands(fields, b, rest[j - 1].name));
            if i == 0 {
                lemma_one_place(fields, p, a);
            } else {
                assert(stands(fields, a, rest[i - 1].name));
            }
        }
    }
}

#[verifier::spinoff_prover]
#[verifier::rlimit(60)]
proof fn lemma_order_missing(fields: Seq<FieldModel>, expected: Seq<FieldModel>, after: int)
    requires
        expected.len() > 0,
        !occurs(fields, expected[0].name),
    ensures
        in_order(fields, expected, after) <==> in_order(fields, expected.drop_first(), after),
{
    let rest = expected.drop_first();
    if in_order(fields, expected, after) {
        assert forall|i: int, q: int|
            0 <= i < rest.len() && #[trigger] stands(
                fields,
                q,
                rest[i].name,
            ) implies after <= q by {
            assert(stands(fields, q, expected[i + 1].name));
        }
        assert forall|i: int, j: int, a: int, b: int|
            0 <= i < j < rest.len() && #[trigger] stands(fields, a, rest[i].name)
                && #[trigger] stands(fields, b, rest[j].name) implies a <= b by {
            assert(stands(fields, a, expected[i + 1].name));
            assert(stands(fields, b, expected[j + 1].name));
        }
    }
    if in_order(fields, rest, after) {
        assert forall|i: int, q: int|
            0 <= i < expected.len() && #[trigger] stands(
                fields,
                q,
                expected[i].name,
            ) implies after <= q by {
            assert(fields[q].name == expected[i].name);
            assert(i > 0);
            assert(stands(fields, q, rest[i - 1].name));
        }
        assert forall|i: int, j: int, a: int, b: int|
            0 <= i < j < expected.len() && #[trigger] stands(fields, a, expected[i].name)
                && #[trigger] stands(fields, b, expected[j].name) implies a <= b by {
            assert(fields[a].name == expected[i].name);
            assert(i > 0);
            assert(stands(fields, a, rest[i - 1].name));
            assert(stands(fields, b, rest[j - 1].name));
        }
    }
}

proof fn lemma_one_place(fields: Seq<FieldModel>, p: int, q: int)
    requires
        all_differ(fields),
        0 <= p < fields.len(),
        0 <= q < fields.len(),
        fields[p].name == fields[q].name,
    ensures
        p == q,
{
    if p < q {
        assert(fields[p].name != fields[q].name);
    } else if q < p {
        assert(fields[q].name != fields[p].name);
    }
}

proof fn lemma_all_there(
    fields: Seq<FieldModel>,
    expected: Seq<FieldModel>,
    o: SchemaCompareOptions,
)
    requires
        expected.len() > 0,
    ensures
        (forall|i: int| 0 <= i < expected.len() ==> is_there(fields, #[trigger] expected[i], o))
            <==> is_there(fields, expected[0], o) && forall|i: int|
            0 <= i < expected.drop_first().len() ==> is_there(
                fields,
                #[trigger] expected.drop_first()[i],
                o,
            ),
{
    let rest = expected.drop_first();
    assert(forall|i: int| 0 <= i < rest.len() ==> (#[trigger] rest[i]) == expected[i + 1]);
    if forall|i: int| 0 <= i < expected.len() ==> is_there(fields, #[trigger] expected[i], o) {
        assert(is_there(fields, expected[0], o));
        assert forall|i: int| 0 <= i < rest.len() implies is_there(
            fields,
            #[trigger] rest[i],
            o,
        ) by {
            assert(is_there(fields, expected[i + 1], o));
        }
    }
    if is_there(fields, expected[0], o) && forall|i: int|
        0 <= i < rest.len() ==> is_there(fields, #[trigger] rest[i], o) {
        assert forall|i: int| 0 <= i < expected.len() implies is_there(
            fields,
            #[trigger] expected[i],
            o,
        ) by {
            if i > 0 {
                assert(is_there(fields, rest[i - 1], o));
            }
        }
    }
}

proof fn lemma_is_there(fields: Seq<FieldModel>, e: FieldModel, o: SchemaCompareOptions)
    requires
        all_differ(fields),
    ensures
        match last_named(fields, e.name) {
            Some(p) => {
                &&& 0 <= p < fields.len()
                &&& fields[p].name == e.name
                &&& is_there(fields, e, o) <==> field_matches(fields[p], e, o)
            },
            None => {
                &&& !occurs(fields, e.name)
                &&& is_there(fields, e, o) <==> o.allow_missing_if_nullable && e.nullable
            },
        },
{
    lemma_last_named(fields, e.name);
    match last_named(fields, e.name) {
        Some(p) => {
            assert(fields[p].name == e.name);
            assert(occurs(fields, e.name));
            if is_there(fields, e, o) {
                let j = choose|j: int|
                    0 <= j < fields.len() && (#[trigger] fields[j]).name == e.name && field_matches(
                        fields[j],
                        e,
                        o,
                    );
                lemma_one_place(fields, p, j);
            }
        },
        None => {
            assert(!occurs(fields, e.name));
        },
    }
}

#[verifier::spinoff_prover]
#[verifier::rlimit(60)]
proof fn lemma_by_name(
    fields: Seq<FieldModel>,
    expected: Seq<FieldModel>,
    after: int,
    o: SchemaCompareOptions,
)
    requires
        all_differ(fields),
    ensures
        found_in(fields, expected, after, o) <==> {
            &&& forall|i: int|
                0 <= i < expected.len() ==> is_there(fields, #[trigger] expected[i], o)
            &&& o.ignore_field_order || in_order(fields, expected, after)
        },
    decreases expected.len(),
{
    if expected.len() > 0 {
        lemma_is_there(fields, expected[0], o);
        lemma_all_there(fields, expected, o);
        match last_named(fields, expected[0].name) {
            Some(p) => {
                lemma_order_step(fields, expected, after, p);
                lemma_by_name(fields, expected.drop_first(), p, o);
            },
            None => {
                lemma_order_missing(fields, expected, after);
                lemma_by_name(fields, expected.drop_first(), after, o);
            },
        }
    }
}

// Arrow.

/// The key of metadata that tells the storage class.
pub open spec fn class_key() -> Seq<char> {
    "lance-schema:storage-class"@
}

/// The key of metadata that marks a field of the primary key.
pub open spec fn key_key() -> Seq<char> {
    "lance-schema:unenforced-primary-key"@
}

/// A field that is made of an Arrow field has its name, its nullability and its metadata,
/// but for the storage class, which it has as such; it has no id and no dictionary. Of a
/// struct it has the children, in order, and of a list the item.
#[verifier::spinoff_prover]
#[verifier::rlimit(60)]
pub proof fn field_is_like_arrow(f: ArrowFieldModel)
    requires
        field_of_arrow(f) is Ok,
    ensures
        ({
            let g = field_of_arrow(f)->Ok_0;
            &&& g.name == f.name
            &&& g.nullable == f.nullable
            &&& g.id == -1
            &&& g.parent_id == -1
            &&& g.dictionary is None
            &&& !g.metadata.dom().contains(class_key())
            &&& forall|key: Seq<char>|
                key != class_key() ==> (#[trigger] g.metadata.dom().contains(key)
                    <==> f.metadata.dom().contains(key)) && (f.metadata.dom().contains(key)
                    ==> g.metadata[key] == f.metadata[key])
            &&& g.storage_class == StorageClass::Blob ==> f.metadata.dom().contains(class_key())
                && f.metadata[class_key()] == "blob"@
            &&& f.metadata.dom().contains(class_key()) && g.storage_class == StorageClass::Default
                ==> f.metadata[class_key()] == "default"@ || f.metadata[class_key()] == ""@
            &&& g.unenforced_primary_key <==> f.metadata.dom().contains(key_key()) && {
                ||| sans_case(f.metadata[key_key()], "true"@)
                ||| sans_case(f.metadata[key_key()], "yes"@)
                ||| f.metadata[key_key()] == "1"@
            }
            &&& match f.data_type {
                DataTypeModel::Struct(fields) => {
                    &&& g.logical_type is Struct
                    &&& fields_of_arrow(fields) == Ok::<Seq<FieldModel>, ErrorModel>(g.children)
                },
                DataTypeModel::List(item) => {
                    &&& g.logical_type is List
                    &&& g.logical_type->List_structs <==> item.data_type is Struct
                    &&& g.children.len() == 1
                    &&& field_of_arrow(*item) == Ok::<FieldModel, ErrorModel>(g.children[0])
                },
                DataTypeModel::LargeList(item) => {
                    &&& g.logical_type is LargeList
                    &&& g.logical_type->LargeList_structs <==> item.data_type is Struct
                    &&& g.children.len() == 1
                    &&& field_of_arrow(*item) == Ok::<FieldModel, ErrorModel>(g.children[0])
                },
                DataTypeModel::Scalar(s) => g.logical_type == LogicalModel::Scalar(s)
                    && g.children.len() == 0,
                DataTypeModel::Timestamp(unit, zone) => g.logical_type
                    == LogicalModel::Timestamp(unit, zone) && g.children.len() == 0,
                DataTypeModel::FixedSizeList(item, n) => {
                    &&& g.logical_type is FixedSizeList
                    &&& g.logical_type->FixedSizeList_1 == n
                    &&& logical_of(item.data_type) == Ok::<LogicalModel, ErrorModel>(
                        *g.logical_type->FixedSizeList_0,
                    )
                    &&& g.children.len() == 0
                },
                DataTypeModel::Dictionary(key, value) => {
                    &&& g.logical_type is Dictionary
                    &&& logical_of(*key) == Ok::<LogicalModel, ErrorModel>(
                        *g.logical_type->Dictionary_key,
                    )
                    &&& logical_of(*value) == Ok::<LogicalModel, ErrorModel>(
                        *g.logical_type->Dictionary_value,
                    )
                    &&& g.children.len() == 0
                },
                DataTypeModel::Unsupported(_) => false,
            }
        }),
    decreases f,
{
}

/// Fields that are made of Arrow fields are as many, in order, each made of the one in its
/// place; and they can be made exactly if each can.
pub proof fn fields_are_like_arrow(fields: Seq<ArrowFieldModel>)
    ensures
        fields_of_arrow(fields) is Ok <==> forall|i: int|
            0 <= i < fields.len() ==> field_of_arrow(#[trigger] fields[i]) is Ok,
        match fields_of_arrow(fields) {
            Ok(out) => out.len() == fields.len() && forall|i: int|
                0 <= i < fields.len() ==> field_of_arrow(#[trigger] fields[i]) == Ok::<
                    FieldModel,
                    ErrorModel,
                >(out[i]),
            Err(_) => true,
        },
    decreases fields.len(),
{
    if fields.len() > 0 {
        let rest = fields.drop_first();
        fields_are_like_arrow(rest);
        assert(forall|i: int| 0 <= i < rest.len() ==> (#[trigger] rest[i]) == fields[i + 1]);
        match fields_of_arrow(fields) {
            Ok(out) => {
                let tail = fields_of_arrow(rest)->Ok_0;
                assert forall|i: int| 0 <= i < fields.len() implies field_of_arrow(
                    #[trigger] fields[i],
                ) == Ok::<FieldModel, ErrorModel>(out[i]) by {
                    if i > 0 {
                        assert(field_of_arrow(rest[i - 1]) == Ok::<FieldModel, ErrorModel>(
                            tail[i - 1],
                        ));
                    }
                }
            },
            Err(_) => {
                if field_of_arrow(fields[0]) is Ok {
                    let i = choose|i: int|
                        0 <= i < rest.len() && field_of_arrow(#[trigger] rest[i]) is Err;
                    assert(field_of_arrow(fields[i + 1]) is Err);
                } else {
                    assert(!(field_of_arrow(fields[0]) is Ok));
                }
            },
        }
    }
}

/// A field of a scalar type or of a timestamp can be made of an Arrow field that has no
/// storage class, and so can one of a struct whose fields can be made, and of a list whose
/// item can.
pub proof fn plain_fields_can_be_made(f: ArrowFieldModel)
    requires
        !f.metadata.dom().contains(class_key()),
    ensures
        f.data_type is Scalar || f.data_type is Timestamp ==> field_of_arrow(f) is Ok,
        match f.data_type {
            DataTypeModel::Struct(fields) => field_of_arrow(f) is Ok <==> fields_of_arrow(fields)
                is Ok,
            DataTypeModel::List(item) => field_of_arrow(f) is Ok <==> field_of_arrow(*item) is Ok,
            DataTypeModel::LargeList(item) => field_of_arrow(f) is Ok <==> field_of_arrow(*item)
                is Ok,
            _ => true,
        },
{
}

/// The Arrow field of a field has its name, its nullability and its metadata, to which the
/// storage class is added where it is not the default. Of a struct it has the children, in
/// order, and of a list the item.
pub proof fn arrow_is_like_field(f: FieldModel)
    ensures
        ({
            let a = arrow_field(f);
            &&& a.name == f.name
            &&& a.nullable == f.nullable
            &&& f.storage_class == StorageClass::Default ==> a.metadata == f.metadata
            &&& f.storage_class == StorageClass::Blob ==> {
                &&& a.metadata.dom().contains(class_key())
                &&& a.metadata[class_key()] == "blob"@
            }
            &&& forall|key: Seq<char>|
                key != class_key() ==> (#[trigger] a.metadata.dom().contains(key)
                    <==> f.metadata.dom().contains(key)) && (f.metadata.dom().contains(key)
                    ==> a.metadata[key] == f.metadata[key])
            &&& f.logical_type is Struct ==> {
                &&& a.data_type is Struct
                &&& a.data_type->Struct_0 == arrow_fields(f.children)
            }
            &&& f.logical_type is List && f.children.len() > 0 ==> {
                &&& a.data_type is List
                &&& *a.data_type->List_0 == arrow_field(f.children[0])
            }
            &&& f.logical_type is LargeList && f.children.len() > 0 ==> {
                &&& a.data_type is LargeList
                &&& *a.data_type->LargeList_0 == arrow_field(f.children[0])
            }
            &&& f.logical_type is Scalar ==> a.data_type == DataTypeModel::Scalar(
                f.logical_type->Scalar_0,
            )
            &&& f.logical_type is FixedSizeList ==> {
                &&& a.data_type is FixedSizeList
                &&& a.data_type->FixedSizeList_1 == f.logical_type->FixedSizeList_1
                &&& a.data_type->FixedSizeList_0.data_type == leaf_arrow(
                    *f.logical_type->FixedSizeList_0,
                )
            }
            &&& f.logical_type is Dictionary ==> {
                &&& a.data_type is Dictionary
                &&& *a.data_type->Dictionary_0 == leaf_arrow(*f.logical_type->Dictionary_key)
                &&& *a.data_type->Dictionary_1 == leaf_arrow(*f.logical_type->Dictionary_value)
            }
            &&& f.logical_type is Timestamp ==> a.data_type == DataTypeModel::Timestamp(
                f.logical_type->Timestamp_0,
                f.logical_type->Timestamp_1,
            )
        }),
{
    assert(arrow_field(f).data_type == arrow_type(f));
}

/// The Arrow fields of fields are as many, in order, each that of the field in its place.
pub proof fn arrows_are_like_fields(fields: Seq<FieldModel>)
    ensures
        arrow_fields(fields).len() == fields.len(),
        forall|i: int|
            0 <= i < fields.len() ==> #[trigger] arrow_fields(fields)[i] == arrow_field(fields[i]),
    decreases fields.len(),
{
    if fields.len() > 0 {
        let rest = fields.drop_first();
        arrows_are_like_fields(rest);
        let out = arrow_fields(fields);
        assert forall|i: int| 0 <= i < fields.len() implies #[trigger] out[i] == arrow_field(
            fields[i],
        ) by {
            if i > 0 {
                assert(out[i] == arrow_fields(rest)[i - 1]);
                assert(rest[i - 1] == fields[i]);
            }
        }
    }
}

} // verus!
