//! Laws of combining schemas: which fields an intersection, a difference, a merge and a
//! projection have.

use vstd::prelude::*;
use crate::compare::fields_match;
use crate::compare::SchemaCompareOptions;
use crate::error::ErrorModel;
use crate::field::clear_ids;
use crate::field::has_name;
use crate::field::index_named;
use crate::field::lemma_index_named;
use crate::field::named;
use crate::field::FieldModel;
use crate::field_ops::exclude_field;
use crate::field_ops::exclude_fields;
use crate::field_ops::intersect_children;
use crate::field_ops::intersect_field;
use crate::field_ops::merge_children;
use crate::field_ops::merge_field;
use crate::field_ops::project_onto;
use crate::field_ops::project_onto_all;
use crate::field_ops::OnTypeMismatch;
use crate::logical::LogicalModel;
use crate::schema::lookup;
use crate::schema::resolve_path;
use crate::schema::SchemaModel;
use crate::schema_laws::lookup_of_plain_name;
use crate::schema_laws::resolution_ends_at_field;
use crate::schema_ops::add_new;
use crate::schema_ops::exclude_schema;
use crate::schema_ops::intersect_schema;
use crate::schema_ops::merge_each;
use crate::schema_ops::merge_schema;
use crate::schema_ops::project_schema;
use crate::schema_ops::repeats_name;
use crate::schema_ops::schema_matches;
use crate::schema_ops::OnMissing;
use crate::text::join;
use crate::text::lemma_split_dots_nonempty;
use crate::text::split_dots;

verus! {

// Names.

/// Whether a field of a list has a name.
pub open spec fn occurs(fields: Seq<FieldModel>, name: Seq<char>) -> bool {
    exists|i: int| 0 <= i < fields.len() && (#[trigger] fields[i]).name == name
}

/// Whether a field is the first of its name in a list.
pub open spec fn is_first(fields: Seq<FieldModel>, i: int) -> bool {
    &&& 0 <= i < fields.len()
    &&& forall|j: int| 0 <= j < i ==> (#[trigger] fields[j]).name != fields[i].name
}

/// Whether no two fields of a list have the same name.
pub open spec fn all_differ(fields: Seq<FieldModel>) -> bool {
    forall|i: int, j: int|
        0 <= i < j < fields.len() ==> (#[trigger] fields[i]).name != (#[trigger] fields[j]).name
}

/// The names of fields, in order.
pub open spec fn list_names(fields: Seq<FieldModel>) -> Seq<Seq<char>> {
    Seq::new(fields.len(), |i: int| fields[i].name)
}

/// Those of some names that are names of fields and have no dot, in order.
pub open spec fn names_in_both(names: Seq<Seq<char>>, fields: Seq<FieldModel>) -> Seq<Seq<char>> {
    names.filter(|name: Seq<char>| !name.contains('.') && occurs(fields, name))
}

/// Whether a field is another one, but for its children.
pub open spec fn same_head(f: FieldModel, g: FieldModel) -> bool {
    f == (FieldModel { children: f.children, ..g })
}

proof fn lemma_no_dots(s: Seq<char>)
    ensures
        forall|i: int| 0 <= i < split_dots(s).len() ==> !(#[trigger] split_dots(s)[i]).contains('.'),
    decreases s.len(),
{
    lemma_split_dots_nonempty(s);
    if s.len() > 0 {
        let before = split_dots(s.drop_last());
        lemma_split_dots_nonempty(s.drop_last());
        lemma_no_dots(s.drop_last());
        let out = split_dots(s);
        assert forall|i: int| 0 <= i < out.len() implies !(#[trigger] out[i]).contains('.') by {
            if i < before.len() {
                assert(!before[i].contains('.'));
            }
            if s.last() != '.' && i == before.len() - 1 {
                let part = before.last();
                if out[i].contains('.') {
                    let k = choose|k: int| 0 <= k < out[i].len() && out[i][k] == '.';
                    assert(k < part.len());
                    assert(part[k] == '.');
                    assert(part.contains('.'));
                }
            }
        }
    } else {
        assert(!Seq::<char>::empty().contains('.'));
    }
}

/// The parts of a column path have no dots, and joined by dots they are the path again.
pub proof fn paths_split_at_dots(s: Seq<char>)
    ensures
        split_dots(s).len() > 0,
        forall|i: int| 0 <= i < split_dots(s).len() ==> !(#[trigger] split_dots(s)[i]).contains('.'),
        join(split_dots(s), "."@) == s,
    decreases s.len(),
{
    lemma_split_dots_nonempty(s);
    lemma_no_dots(s);
    reveal_strlit(".");
    if s.len() > 0 {
        let front = s.drop_last();
        let before = split_dots(front);
        let out = split_dots(s);
        paths_split_at_dots(front);
        if s.last() == '.' {
            assert(out.drop_last() =~= before);
            assert(join(out, "."@) =~= front + "."@ + Seq::<char>::empty());
            assert(front + "."@ + Seq::<char>::empty() =~= s);
        } else if before.len() == 1 {
            assert(join(out, "."@) =~= s);
        } else {
            assert(out.drop_last() =~= before.drop_last());
            let start = join(before.drop_last(), "."@) + "."@;
            assert(front == start + before.last());
            assert(join(out, "."@) == start + out.last());
            assert(start + before.last().push(s.last()) =~= front.push(s.last()));
            assert(front.push(s.last()) =~= s);
        }
    } else {
        assert(split_dots(s) =~= seq![Seq::<char>::empty()]);
        assert(join(split_dots(s), "."@) =~= s);
    }
}

/// Types that have children are structs, lists and large lists, and no others; lists of a
/// fixed size agree where their sizes do.
pub proof fn kinds_of_types(t: LogicalModel, u: LogicalModel)
    ensures
        t.is_struct() <==> t is Struct,
        t.is_list() <==> t is List,
        t.is_large_list() <==> t is LargeList,
        t.is_nested() <==> t is Struct || t is List || t is LargeList,
        t.is_dictionary() <==> t is Dictionary,
        t.same_list_size(u) <==> t is FixedSizeList && u is FixedSizeList && t->FixedSizeList_1
            == u->FixedSizeList_1,
{
}

/// A lookup finds a field of the name exactly for names without dots, and then the first.
proof fn lemma_found_by_name(fields: Seq<FieldModel>, name: Seq<char>)
    ensures
        !name.contains('.') ==> lookup(fields, name) == named(fields, name),
        name.contains('.') && lookup(fields, name) is Some ==> lookup(fields, name)->0.name != name,
        match named(fields, name) {
            Some(f) => occurs(fields, name) && f.name == name,
            None => !occurs(fields, name),
        },
        forall|i: int|
            #[trigger] is_first(fields, i) && fields[i].name == name ==> named(fields, name)
                == Some(fields[i]),
{
    if !name.contains('.') {
        lookup_of_plain_name(fields, name);
    } else if lookup(fields, name) is Some {
        resolution_ends_at_field(fields, name);
        lemma_no_dots(name);
        lemma_split_dots_nonempty(name);
        let fs = resolve_path(fields, name)->0;
        assert(fs.last().name == split_dots(name)[fs.len() - 1]);
    }
    lemma_index_named(fields, name);
    assert forall|i: int| #[trigger] is_first(fields, i) && fields[i].name == name implies named(
        fields,
        name,
    ) == Some(fields[i]) by {
        let k = index_named(fields, name)->0;
        assert(occurs(fields, name));
        assert(fields[k].name == name);
        if k < i {
            assert(fields[k].name != fields[i].name);
        }
    }
    if named(fields, name) is Some {
        assert(fields[index_named(fields, name)->0].name == name);
    }
}

proof fn lemma_names_step(others: Seq<FieldModel>, fields: Seq<FieldModel>)
    requires
        others.len() > 0,
    ensures
        names_in_both(list_names(others), fields) == (if !others[0].name.contains('.') && occurs(
            fields,
            others[0].name,
        ) {
            seq![others[0].name]
        } else {
            Seq::empty()
        }) + names_in_both(list_names(others.drop_first()), fields),
{
    let cond = |name: Seq<char>| !name.contains('.') && occurs(fields, name);
    let rest = list_names(others.drop_first());
    assert(list_names(others) =~= seq![others[0].name] + rest);
    rest.lemma_filter_prepend(others[0].name, cond);
    assert(Seq::<Seq<char>>::empty() + rest.filter(cond) =~= rest.filter(cond));
}

// Intersections.

/// Whether fields can be intersected: both are structs, both are lists or both are large
/// lists, or their types are the same or do not matter.
pub open spec fn can_meet(a: FieldModel, b: FieldModel, ignore_types: bool) -> bool {
    ||| ignore_types
    ||| a.logical_type == b.logical_type
    ||| a.logical_type.is_struct() && b.logical_type.is_struct()
    ||| a.logical_type.is_list() && b.logical_type.is_list()
    ||| a.logical_type.is_large_list() && b.logical_type.is_large_list()
}

/// Whether the children of fields are intersected.
pub open spec fn children_meet(a: FieldModel, b: FieldModel) -> bool {
    ||| a.logical_type.is_struct() && b.logical_type.is_struct()
    ||| a.logical_type.is_list() && b.logical_type.is_list()
    ||| a.logical_type.is_large_list() && b.logical_type.is_large_list()
}

/// Whether a field is the intersection of one of some fields with the first of its name
/// among others.
pub open spec fn is_meet(
    m: FieldModel,
    a: Seq<FieldModel>,
    b: Seq<FieldModel>,
    ignore_types: bool,
) -> bool {
    exists|i: int, j: int|
        {
            &&& 0 <= i < a.len()
            &&& is_first(b, j)
            &&& (#[trigger] a[i]).name == (#[trigger] b[j]).name
            &&& intersect_field(a[i], b[j], ignore_types) == Ok::<FieldModel, ErrorModel>(m)
        }
}

/// The intersection of two fields of one name fails exactly if their types do not allow
/// it. Otherwise it is the first field, if that has an id, with all that belongs to it; of
/// structs and lists the children are those of the first field of whose names the other one
/// has a child that they can be intersected with, and each is the intersection of the two.
#[verifier::spinoff_prover]
#[verifier::rlimit(60)]
pub proof fn intersecting_fields(a: FieldModel, b: FieldModel, ignore_types: bool)
    requires
        a.name == b.name,
    ensures
        intersect_field(a, b, ignore_types) is Ok <==> can_meet(a, b, ignore_types),
        match intersect_field(a, b, ignore_types) {
            Ok(m) => {
                &&& m.name == a.name
                &&& a.id >= 0 ==> same_head(m, a)
                &&& a.id < 0 ==> m.id == b.id
                &&& children_meet(a, b) ==> {
                    &&& forall|k: int|
                        0 <= k < m.children.len() ==> occurs(
                            a.children,
                            (#[trigger] m.children[k]).name,
                        ) && occurs(b.children, m.children[k].name) && is_meet(
                            m.children[k],
                            a.children,
                            b.children,
                            ignore_types,
                        )
                    &&& forall|i: int, j: int|
                        0 <= i < a.children.len() && is_first(b.children, j) && (
                        #[trigger] a.children[i]).name == (#[trigger] b.children[j]).name
                            && can_meet(a.children[i], b.children[j], ignore_types) ==> occurs(
                            m.children,
                            a.children[i].name,
                        )
                }
                &&& !children_meet(a, b) && a.id >= 0 ==> m.children == a.children
            },
            Err(_) => true,
        },
{
    if children_meet(a, b) {
        let (c, d) = (a.children, b.children);
        let out = intersect_children(c, d, ignore_types);
        assert forall|k: int| 0 <= k < out.len() implies occurs(c, (#[trigger] out[k]).name)
            && occurs(d, out[k].name) && is_meet(out[k], c, d, ignore_types) by {
            lemma_child_is_meet(c, d, ignore_types, k);
            let (i, j) = choose|i: int, j: int|
                {
                    &&& 0 <= i < c.len()
                    &&& is_first(d, j)
                    &&& (#[trigger] c[i]).name == (#[trigger] d[j]).name
                    &&& intersect_field(c[i], d[j], ignore_types) == Ok::<FieldModel, ErrorModel>(
                        out[k],
                    )
                };
            assert(out[k].name == c[i].name);
        }
        assert forall|i: int, j: int|
            0 <= i < c.len() && is_first(d, j) && (#[trigger] c[i]).name == (#[trigger] d[j]).name
                && can_meet(c[i], d[j], ignore_types) implies occurs(out, c[i].name) by {
            lemma_child_is_put_in(c, d, ignore_types, i, j);
        }
    }
}

proof fn lemma_child_is_meet(a: Seq<FieldModel>, b: Seq<FieldModel>, ignore_types: bool, k: int)
    requires
        0 <= k < intersect_children(a, b, ignore_types).len(),
    ensures
        is_meet(intersect_children(a, b, ignore_types)[k], a, b, ignore_types),
    decreases a,
{
    let rest = a.drop_first();
    let tail = intersect_children(rest, b, ignore_types);
    let out = intersect_children(a, b, ignore_types);
    lemma_index_named(b, a[0].name);
    let met = named(b, a[0].name) is Some && intersect_field(
        a[0],
        named(b, a[0].name)->0,
        ignore_types,
    ) is Ok;
    if met && k == 0 {
        let j = index_named(b, a[0].name)->0;
        assert(is_first(b, j));
        assert(a[0].name == b[j].name);
    } else {
        let t = if met {
            k - 1
        } else {
            k
        };
        assert(out[k] == tail[t]);
        lemma_child_is_meet(rest, b, ignore_types, t);
        let (m, n) = choose|m: int, n: int|
            {
                &&& 0 <= m < rest.len()
                &&& is_first(b, n)
                &&& (#[trigger] rest[m]).name == (#[trigger] b[n]).name
                &&& intersect_field(rest[m], b[n], ignore_types) == Ok::<FieldModel, ErrorModel>(
                    tail[t],
                )
            };
        assert(a[m + 1] == rest[m]);
        assert(a[m + 1].name == b[n].name);
    }
}

proof fn lemma_child_is_put_in(
    a: Seq<FieldModel>,
    b: Seq<FieldModel>,
    ignore_types: bool,
    i: int,
    j: int,
)
    requires
        0 <= i < a.len(),
        is_first(b, j),
        a[i].name == b[j].name,
        can_meet(a[i], b[j], ignore_types),
    ensures
        occurs(intersect_children(a, b, ignore_types), a[i].name),
    decreases a.len(),
{
    let rest = a.drop_first();
    let tail = intersect_children(rest, b, ignore_types);
    let out = intersect_children(a, b, ignore_types);
    if i == 0 {
        lemma_found_by_name(b, a[0].name);
        assert(named(b, a[0].name) == Some(b[j]));
        assert(out[0].name == a[0].name);
    } else {
        assert(rest[i - 1] == a[i]);
        lemma_child_is_put_in(rest, b, ignore_types, i - 1, j);
        let k = choose|k: int| 0 <= k < tail.len() && (#[trigger] tail[k]).name == a[i].name;
        let met = named(b, a[0].name) is Some && intersect_field(
            a[0],
            named(b, a[0].name)->0,
            ignore_types,
        ) is Ok;
        if met {
            assert(out[k + 1] == tail[k]);
        } else {
            assert(out[k] == tail[k]);
        }
    }
}

/// The intersection of two schemas, if there is one, has the names that fields of both have
/// at the top level, in the order of the other schema and wherever they stand in it, and no
/// others. Names with a dot stand for no top level field. Each of its fields is the first
/// field of the name in this schema, if that has an id, up to its children.
#[verifier::spinoff_prover]
#[verifier::rlimit(60)]
pub proof fn intersection_has_common_names(
    fields: Seq<FieldModel>,
    others: Seq<FieldModel>,
    ignore_types: bool,
)
    ensures
        match intersect_schema(fields, others, ignore_types) {
            Ok(out) => {
                &&& list_names(out) == names_in_both(list_names(others), fields)
                &&& forall|i: int|
                    0 <= i < others.len() && !(#[trigger] others[i]).name.contains('.') && occurs(
                        fields,
                        others[i].name,
                    ) ==> occurs(out, others[i].name)
                &&& forall|k: int|
                    0 <= k < out.len() ==> occurs(others, (#[trigger] out[k]).name) && occurs(
                        fields,
                        out[k].name,
                    )
                &&& forall|k: int, i: int|
                    0 <= k < out.len() && is_first(fields, i) && (#[trigger] fields[i]).name == (
                    #[trigger] out[k]).name && fields[i].id >= 0 ==> same_head(out[k], fields[i])
            },
            Err(_) => true,
        },
    decreases others.len(),
{
    if others.len() > 0 && intersect_schema(fields, others, ignore_types) is Ok {
        let rest = others.drop_first();
        let out = intersect_schema(fields, others, ignore_types)->Ok_0;
        intersection_has_common_names(fields, rest, ignore_types);
        lemma_found_by_name(fields, others[0].name);
        lemma_names_step(others, fields);
        assert(forall|i: int| 0 <= i < rest.len() ==> (#[trigger] rest[i]) == others[i + 1]);
        let found = lookup(fields, others[0].name) is Some;
        let tail = intersect_schema(fields, rest, ignore_types)->Ok_0;
        if found {
            let f = lookup(fields, others[0].name)->0;
            assert(f.name == others[0].name);
            assert(!others[0].name.contains('.'));
            intersecting_fields(f, others[0], ignore_types);
            assert(out == seq![out[0]] + tail);
            assert(list_names(out) =~= seq![others[0].name] + list_names(tail));
        } else {
            assert(out == tail);
            assert(Seq::<Seq<char>>::empty() + list_names(tail) =~= list_names(tail));
        }
        let shift: int = if found {
            1
        } else {
            0
        };
        assert forall|i: int|
            0 <= i < others.len() && !(#[trigger] others[i]).name.contains('.') && occurs(
                fields,
                others[i].name,
            ) implies occurs(out, others[i].name) by {
            if i == 0 {
                assert(out[0].name == others[0].name);
            } else {
                assert(rest[i - 1] == others[i]);
                let k = choose|k: int| 0 <= k < tail.len() && (#[trigger] tail[k]).name
                    == others[i].name;
                assert(out[k + shift].name == others[i].name);
            }
        }
        assert forall|k: int| 0 <= k < out.len() implies occurs(others, (#[trigger] out[k]).name)
            && occurs(fields, out[k].name) by {
            if k < shift {
                assert(others[0].name == out[k].name);
            } else {
                let t = tail[k - shift];
                let i = choose|i: int| 0 <= i < rest.len() && (#[trigger] rest[i]).name == t.name;
                assert(others[i + 1].name == t.name);
            }
        }
        assert forall|k: int, i: int|
            0 <= k < out.len() && is_first(fields, i) && (#[trigger] fields[i]).name == (
            #[trigger] out[k]).name && fields[i].id >= 0 implies same_head(out[k], fields[i]) by {
            if k >= shift {
                assert(out[k] == tail[k - shift]);
            }
        }
    } else if others.len() == 0 {
        assert(list_names(others) =~= Seq::<Seq<char>>::empty());
        reveal(Seq::filter);
        assert(list_names(Seq::<FieldModel>::empty()) =~= Seq::<Seq<char>>::empty());
    }
}

/// The intersection of two schemas of names without dots fails exactly if two fields of one
/// name are of types that do not allow it.
#[verifier::spinoff_prover]
#[verifier::rlimit(60)]
pub proof fn intersection_needs_like_types(
    fields: Seq<FieldModel>,
    others: Seq<FieldModel>,
    ignore_types: bool,
)
    requires
        forall|i: int| 0 <= i < others.len() ==> !(#[trigger] others[i]).name.contains('.'),
    ensures
        intersect_schema(fields, others, ignore_types) is Ok <==> forall|i: int, j: int|
            is_first(fields, i) && 0 <= j < others.len() && (#[trigger] fields[i]).name == (
            #[trigger] others[j]).name ==> can_meet(fields[i], others[j], ignore_types),
    decreases others.len(),
{
    if others.len() > 0 {
        let rest = others.drop_first();
        assert(forall|i: int| 0 <= i < rest.len() ==> (#[trigger] rest[i]) == others[i + 1]);
        intersection_needs_like_types(fields, rest, ignore_types);
        lemma_found_by_name(fields, others[0].name);
        lemma_index_named(fields, others[0].name);
        match lookup(fields, others[0].name) {
            Some(f) => {
                let k = index_named(fields, others[0].name)->0;
                assert(is_first(fields, k));
                assert(fields[k] == f);
                intersecting_fields(f, others[0], ignore_types);
            },
            None => {},
        }
        if intersect_schema(fields, others, ignore_types) is Ok {
            assert forall|i: int, j: int|
                is_first(fields, i) && 0 <= j < others.len() && (#[trigger] fields[i]).name == (
                #[trigger] others[j]).name implies can_meet(
                fields[i],
                others[j],
                ignore_types,
            ) by {
                if j > 0 {
                    assert(rest[j - 1] == others[j]);
                } else {
                    assert(occurs(fields, others[0].name));
                }
            }
        } else if intersect_schema(fields, rest, ignore_types) is Err {
            let (i, j) = choose|i: int, j: int|
                is_first(fields, i) && 0 <= j < rest.len() && (#[trigger] fields[i]).name == (
                #[trigger] rest[j]).name && !can_meet(fields[i], rest[j], ignore_types);
            assert(others[j + 1] == rest[j]);
        } else {
            let k = index_named(fields, others[0].name)->0;
            assert(is_first(fields, k));
            assert(!can_meet(fields[k], others[0], ignore_types));
        }
    }
}

// Differences.

/// Whether a field stays, in part at least, when others are taken out: none of them has its
/// name, or it is a struct of which children are left when those of the first of its name
/// are taken out.
pub open spec fn stays(f: FieldModel, others: Seq<FieldModel>) -> bool {
    forall|j: int|
        is_first(others, j) && (#[trigger] others[j]).name == f.name ==> {
            &&& f.logical_type.is_struct()
            &&& exclude_fields(f.children, others[j].children).len() > 0
        }
}

/// Whether a field is what is left of another when others are taken out: all of it if none
/// of them has its name, and otherwise the field with the children that are left.
pub open spec fn is_left(g: FieldModel, f: FieldModel, others: Seq<FieldModel>) -> bool {
    &&& same_head(g, f)
    &&& !occurs(others, f.name) ==> g == f
    &&& forall|j: int|
        is_first(others, j) && (#[trigger] others[j]).name == f.name ==> g.children
            == exclude_fields(f.children, others[j].children)
}

/// Whether fields are what is left of others, at the given positions.
pub open spec fn are_left(
    out: Seq<FieldModel>,
    fields: Seq<FieldModel>,
    others: Seq<FieldModel>,
    at: Seq<int>,
) -> bool {
    &&& at.len() == out.len()
    &&& forall|k: int, l: int| 0 <= k < l < at.len() ==> (#[trigger] at[k]) < (#[trigger] at[l])
    &&& forall|k: int|
        0 <= k < at.len() ==> {
            &&& 0 <= (#[trigger] at[k]) < fields.len()
            &&& stays(fields[at[k]], others)
            &&& is_left(out[k], fields[at[k]], others)
        }
    &&& forall|i: int|
        0 <= i < fields.len() && stays(#[trigger] fields[i], others) ==> exists|k: int|
            0 <= k < at.len() && #[trigger] at[k] == i
}

/// Taking fields out of others leaves, in order, exactly the fields that stay: those of
/// other names as they are, and structs with the children that are left of them.
#[verifier::spinoff_prover]
#[verifier::rlimit(60)]
pub proof fn excluding_fields(fields: Seq<FieldModel>, others: Seq<FieldModel>)
    ensures
        exists|at: Seq<int>| #[trigger]
            are_left(exclude_fields(fields, others), fields, others, at),
    decreases fields,
{
    let out = exclude_fields(fields, others);
    if fields.len() == 0 {
        assert(are_left(out, fields, others, Seq::empty()));
    } else {
        let rest = fields.drop_first();
        let tail = exclude_fields(rest, others);
        excluding_fields(rest, others);
        let before = choose|at: Seq<int>| #[trigger] are_left(tail, rest, others, at);
        let f = fields[0];
        lemma_found_by_name(others, f.name);
        lemma_index_named(others, f.name);
        assert(forall|i: int| 0 <= i < rest.len() ==> (#[trigger] rest[i]) == fields[i + 1]);
        let kept = match named(others, f.name) {
            Some(o) => exclude_field(f, o) is Some,
            None => true,
        };
        if named(others, f.name) is Some {
            let j = index_named(others, f.name)->0;
            assert(is_first(others, j));
            assert(others[j].name == f.name);
        }
        assert(kept <==> stays(f, others));
        let moved = Seq::new(before.len(), |k: int| before[k] + 1);
        let at = if kept {
            seq![0int] + moved
        } else {
            moved
        };
        let shift: int = if kept {
            1
        } else {
            0
        };
        assert(kept ==> out == seq![out[0]] + tail);
        assert(!kept ==> out == tail);
        assert forall|k: int| 0 <= k < at.len() implies {
            &&& 0 <= (#[trigger] at[k]) < fields.len()
            &&& stays(fields[at[k]], others)
            &&& is_left(out[k], fields[at[k]], others)
        } by {
            if k >= shift {
                let b = before[k - shift];
                assert(at[k] == b + 1);
                assert(rest[b] == fields[b + 1]);
                assert(out[k] == tail[k - shift]);
            }
        }
        assert forall|k: int, l: int| 0 <= k < l < at.len() implies (#[trigger] at[k]) < (
        #[trigger] at[l]) by {
            if k >= shift {
                assert(before[k - shift] < before[l - shift]);
            } else {
                assert(at[l] == before[l - shift] + 1);
                assert(0 <= before[l - shift]);
            }
        }
        assert forall|i: int|
            0 <= i < fields.len() && stays(#[trigger] fields[i], others) implies exists|k: int|
            0 <= k < at.len() && #[trigger] at[k] == i by {
            if i == 0 {
                assert(at[0] == 0);
            } else {
                assert(stays(rest[i - 1], others));
                let k = choose|k: int| 0 <= k < before.len() && #[trigger] before[k] == i - 1;
                assert(at[k + shift] == i);
            }
        }
        assert(are_left(out, fields, others, at));
    }
}

/// A schema of names without dots, with another one taken out, has what is left of its
/// fields, in order.
pub proof fn excluding_schemas(fields: Seq<FieldModel>, others: Seq<FieldModel>)
    requires
        forall|i: int| 0 <= i < fields.len() ==> !(#[trigger] fields[i]).name.contains('.'),
    ensures
        exists|at: Seq<int>| #[trigger]
            are_left(exclude_schema(fields, others), fields, others, at),
{
    lemma_exclude_schema(fields, others);
    excluding_fields(fields, others);
}

proof fn lemma_exclude_schema(fields: Seq<FieldModel>, others: Seq<FieldModel>)
    requires
        forall|i: int| 0 <= i < fields.len() ==> !(#[trigger] fields[i]).name.contains('.'),
    ensures
        exclude_schema(fields, others) == exclude_fields(fields, others),
    decreases fields.len(),
{
    if fields.len() > 0 {
        let rest = fields.drop_first();
        assert(forall|i: int| 0 <= i < rest.len() ==> (#[trigger] rest[i]) == fields[i + 1]);
        lemma_exclude_schema(rest, others);
        assert(!fields[0].name.contains('.'));
        lemma_found_by_name(others, fields[0].name);
    }
}

// Projections onto schemas.

/// Whether fields are lists of one kind.
pub open spec fn both_lists(a: FieldModel, b: FieldModel) -> bool {
    ||| a.logical_type.is_list() && b.logical_type.is_list()
    ||| a.logical_type.is_large_list() && b.logical_type.is_large_list()
}

/// A field that is projected onto another one of its name is itself, up to its children. Of
/// structs it has the children that the other one names, in their order, each projected in
/// turn, and of lists the item, projected in turn; a leaf stays as it is.
#[verifier::spinoff_prover]
#[verifier::rlimit(60)]
pub proof fn projecting_fields(a: FieldModel, b: FieldModel, policy: OnTypeMismatch)
    ensures
        match project_onto(a, b, policy) {
            Ok(m) => {
                &&& a.name == b.name
                &&& same_head(m, a)
                &&& a.logical_type.is_struct() && b.logical_type.is_struct() ==> {
                    &&& list_names(m.children) == list_names(b.children)
                    &&& forall|k: int, i: int|
                        0 <= k < b.children.len() && is_first(a.children, i) && (
                        #[trigger] a.children[i]).name == (#[trigger] b.children[k]).name
                            ==> project_onto(a.children[i], b.children[k], policy) == Ok::<
                            FieldModel,
                            ErrorModel,
                        >(m.children[k])
                }
                &&& both_lists(a, b) && a.children.len() > 0 && b.children.len() > 0 ==> {
                    &&& m.children.len() == 1
                    &&& project_onto(a.children[0], b.children[0], policy) == Ok::<
                        FieldModel,
                        ErrorModel,
                    >(m.children[0])
                }
                &&& !a.logical_type.is_nested() ==> m == a
                &&& policy == OnTypeMismatch::Error && !a.logical_type.is_nested()
                    && !b.logical_type.is_nested() ==> a.logical_type == b.logical_type
            },
            Err(_) => true,
        },
        a.name == b.name && a.logical_type == b.logical_type && !a.logical_type.is_nested()
            ==> project_onto(a, b, policy) == Ok::<FieldModel, ErrorModel>(a),
        a.name == b.name && both_lists(a, b) && a.children.len() > 0 && b.children.len() > 0 ==> (
        project_onto(a, b, policy) is Ok <==> project_onto(a.children[0], b.children[0], policy)
            is Ok),
{
    if project_onto(a, b, policy) is Ok && a.logical_type.is_struct()
        && b.logical_type.is_struct() {
        lemma_projected_children(a, b.children, policy);
    }
}

#[verifier::spinoff_prover]
#[verifier::rlimit(60)]
proof fn lemma_projected_children(a: FieldModel, onto: Seq<FieldModel>, policy: OnTypeMismatch)
    requires
        project_onto_all(a, onto, policy) is Ok,
    ensures
        ({
            let out = project_onto_all(a, onto, policy)->Ok_0;
            &&& list_names(out) == list_names(onto)
            &&& forall|k: int, i: int|
                0 <= k < onto.len() && is_first(a.children, i) && (#[trigger] a.children[i]).name
                    == (#[trigger] onto[k]).name ==> project_onto(
                    a.children[i],
                    onto[k],
                    policy,
                ) == Ok::<FieldModel, ErrorModel>(out[k])
        }),
    decreases onto.len(),
{
    let out = project_onto_all(a, onto, policy)->Ok_0;
    if onto.len() > 0 {
        let rest = onto.drop_first();
        let tail = project_onto_all(a, rest, policy)->Ok_0;
        lemma_projected_children(a, rest, policy);
        lemma_found_by_name(a.children, onto[0].name);
        let c = named(a.children, onto[0].name)->0;
        lemma_projected_head(c, onto[0], policy);
        assert(out == seq![out[0]] + tail);
        assert(list_names(out) =~= seq![onto[0].name] + list_names(tail));
        assert(list_names(onto) =~= seq![onto[0].name] + list_names(rest));
        assert forall|k: int, i: int|
            0 <= k < onto.len() && is_first(a.children, i) && (#[trigger] a.children[i]).name == (
            #[trigger] onto[k]).name implies project_onto(a.children[i], onto[k], policy) == Ok::<
            FieldModel,
            ErrorModel,
        >(out[k]) by {
            if k > 0 {
                assert(rest[k - 1] == onto[k]);
                assert(out[k] == tail[k - 1]);
            }
        }
    } else {
        assert(list_names(out) =~= list_names(onto));
    }
}

proof fn lemma_projected_head(a: FieldModel, b: FieldModel, policy: OnTypeMismatch)
    requires
        project_onto(a, b, policy) is Ok,
    ensures
        same_head(project_onto(a, b, policy)->Ok_0, a),
        a.name == b.name,
{
}

/// A schema that is projected onto another one has the fields that both have, in the order
/// of the other one; each is the first field of its name in this schema, up to its children.
/// Where missing fields are an error it has every field of the other one.
#[verifier::spinoff_prover]
#[verifier::rlimit(60)]
pub proof fn projecting_onto_schemas(
    fields: Seq<FieldModel>,
    onto: Seq<FieldModel>,
    on_missing: OnMissing,
    policy: OnTypeMismatch,
)
    ensures
        match project_schema(fields, onto, on_missing, policy) {
            Ok(out) => {
                &&& list_names(out) == names_in_both(list_names(onto), fields)
                &&& on_missing == OnMissing::Error ==> list_names(out) == list_names(onto)
                &&& forall|k: int, i: int|
                    0 <= k < out.len() && is_first(fields, i) && (#[trigger] fields[i]).name == (
                    #[trigger] out[k]).name ==> same_head(out[k], fields[i])
                &&& forall|k: int| 0 <= k < out.len() ==> occurs(fields, (#[trigger] out[k]).name)
            },
            Err(_) => true,
        },
    decreases onto.len(),
{
    if onto.len() > 0 {
        let rest = onto.drop_first();
        projecting_onto_schemas(fields, rest, on_missing, policy);
        lemma_found_by_name(fields, onto[0].name);
        lemma_names_step(onto, fields);
        assert(list_names(onto) =~= seq![onto[0].name] + list_names(rest));
        if project_schema(fields, onto, on_missing, policy) is Ok {
            let out = project_schema(fields, onto, on_missing, policy)->Ok_0;
            let tail = project_schema(fields, rest, on_missing, policy)->Ok_0;
            let found = lookup(fields, onto[0].name) is Some;
            if found {
                let f = lookup(fields, onto[0].name)->0;
                lemma_projected_head(f, onto[0], policy);
                assert(out == seq![out[0]] + tail);
                assert(list_names(out) =~= seq![onto[0].name] + list_names(tail));
            } else {
                assert(out == tail);
                assert(Seq::<Seq<char>>::empty() + list_names(tail) =~= list_names(tail));
            }
            let shift: int = if found {
                1
            } else {
                0
            };
            assert forall|k: int, i: int|
                0 <= k < out.len() && is_first(fields, i) && (#[trigger] fields[i]).name == (
                #[trigger] out[k]).name implies same_head(out[k], fields[i]) by {
                if k >= shift {
                    assert(out[k] == tail[k - shift]);
                }
            }
            assert forall|k: int| 0 <= k < out.len() implies occurs(
                fields,
                (#[trigger] out[k]).name,
            ) by {
                if k >= shift {
                    assert(out[k] == tail[k - shift]);
                }
            }
        }
    } else {
        assert(list_names(onto) =~= Seq::<Seq<char>>::empty());
        reveal(Seq::filter);
        assert(list_names(Seq::<FieldModel>::empty()) =~= Seq::<Seq<char>>::empty());
    }
}

// Merges.

/// Merging the children of two fields keeps those of the first in their places, up to their
/// own children, and puts those of other names behind them. One that has no namesake in the
/// other field is as it was; where names differ in each list, one that has is merged with
/// it, and a new one is as the other field has it.
#[verifier::spinoff_prover]
#[verifier::rlimit(60)]
pub proof fn merging_children(a: Seq<FieldModel>, b: Seq<FieldModel>)
    requires
        merge_children(a, b) is Ok,
    ensures
        ({
            let out = merge_children(a, b)->Ok_0;
            &&& out.len() >= a.len()
            &&& forall|i: int| 0 <= i < a.len() ==> same_head(#[trigger] out[i], a[i])
            &&& forall|i: int|
                0 <= i < a.len() && !occurs(b, (#[trigger] a[i]).name) ==> out[i] == a[i]
            &&& forall|name: Seq<char>| #[trigger]
                occurs(out, name) <==> occurs(a, name) || occurs(b, name)
            &&& all_differ(a) ==> all_differ(out)
            &&& all_differ(a) && all_differ(b) ==> {
                &&& forall|i: int, j: int|
                    0 <= i < a.len() && 0 <= j < b.len() && (#[trigger] a[i]).name == (
                    #[trigger] b[j]).name ==> merge_field(a[i], b[j]) == Ok::<
                        FieldModel,
                        ErrorModel,
                    >(out[i])
                &&& forall|i: int| a.len() <= i < out.len() ==> b.contains(#[trigger] out[i])
            }
        }),
    decreases b.len(),
{
    let out = merge_children(a, b)->Ok_0;
    if b.len() > 0 {
        let rest = b.drop_first();
        assert(forall|j: int| 0 <= j < rest.len() ==> (#[trigger] rest[j]) == b[j + 1]);
        lemma_found_by_name(a, b[0].name);
        lemma_index_named(a, b[0].name);
        let next = match index_named(a, b[0].name) {
            Some(i) => a.update(i, merge_field(a[i], b[0])->Ok_0),
            None => a.push(b[0]),
        };
        merging_children(next, rest);
        assert(out == merge_children(next, rest)->Ok_0);
        assert forall|i: int| 0 <= i < a.len() implies same_head(#[trigger] next[i], a[i]) by {}
        assert forall|name: Seq<char>| #[trigger] occurs(b, name) <==> b[0].name == name || occurs(
            rest,
            name,
        ) by {
            if occurs(b, name) && b[0].name != name {
                let j = choose|j: int| 0 <= j < b.len() && (#[trigger] b[j]).name == name;
                assert(rest[j - 1].name == name);
            }
            if occurs(rest, name) {
                let j = choose|j: int| 0 <= j < rest.len() && (#[trigger] rest[j]).name == name;
                assert(b[j + 1].name == name);
            }
        }
        assert forall|name: Seq<char>| #[trigger] occurs(next, name) <==> occurs(a, name)
            || b[0].name == name by {
            if occurs(a, name) {
                let i = choose|i: int| 0 <= i < a.len() && (#[trigger] a[i]).name == name;
                assert(next[i].name == name);
            }
            if occurs(next, name) {
                let i = choose|i: int| 0 <= i < next.len() && (#[trigger] next[i]).name == name;
                if i < a.len() {
                    assert(a[i].name == name);
                }
            }
            if b[0].name == name {
                match index_named(a, b[0].name) {
                    Some(i) => {
                        assert(next[i].name == name);
                    },
                    None => {
                        assert(next[a.len() as int].name == name);
                    },
                }
            }
        }
        assert forall|i: int| 0 <= i < a.len() implies same_head(#[trigger] out[i], a[i]) by {
            assert(same_head(out[i], next[i]));
            assert(same_head(next[i], a[i]));
        }
        assert forall|i: int|
            0 <= i < a.len() && !occurs(b, (#[trigger] a[i]).name) implies out[i] == a[i] by {
            assert(next[i] == a[i]) by {
                assert(b[0].name != a[i].name);
            }
            assert(!occurs(rest, next[i].name));
        }
        if all_differ(a) {
            assert(all_differ(next)) by {
                assert forall|i: int, j: int| 0 <= i < j < next.len() implies (
                #[trigger] next[i]).name != (#[trigger] next[j]).name by {
                    if j < a.len() {
                        assert(a[i].name != a[j].name);
                    } else {
                        assert(!occurs(a, b[0].name));
                        assert(a[i].name != b[0].name);
                    }
                }
            }
        }
        if all_differ(a) && all_differ(b) {
            assert(all_differ(rest)) by {
                assert forall|i: int, j: int| 0 <= i < j < rest.len() implies (
                #[trigger] rest[i]).name != (#[trigger] rest[j]).name by {
                    assert(b[i + 1].name != b[j + 1].name);
                }
            }
            assert(!occurs(rest, b[0].name)) by {
                if occurs(rest, b[0].name) {
                    let j = choose|j: int|
                        0 <= j < rest.len() && (#[trigger] rest[j]).name == b[0].name;
                    assert(b[0].name != b[j + 1].name);
                }
            }
            assert forall|i: int, j: int|
                0 <= i < a.len() && 0 <= j < b.len() && (#[trigger] a[i]).name == (
                #[trigger] b[j]).name implies merge_field(a[i], b[j]) == Ok::<
                FieldModel,
                ErrorModel,
            >(out[i]) by {
                if j == 0 {
                    assert(is_first(a, i)) by {
                        assert forall|k: int| 0 <= k < i implies (#[trigger] a[k]).name
                            != a[i].name by {}
                    }
                    assert(named(a, b[0].name) == Some(a[i]));
                    let k = index_named(a, b[0].name)->0;
                    assert(k == i) by {
                        assert(a[k].name == a[i].name);
                        if k < i {
                            assert(a[k].name != a[i].name);
                        } else if i < k {
                            assert(a[i].name != a[k].name);
                        }
                    }
                    assert(!occurs(rest, next[i].name));
                    assert(out[i] == next[i]);
                } else {
                    assert(rest[j - 1] == b[j]);
                    assert(b[0].name != b[j].name);
                    assert(next[i] == a[i]);
                }
            }
            assert forall|i: int| a.len() <= i < out.len() implies b.contains(
                #[trigger] out[i],
            ) by {
                if i >= next.len() {
                    assert(rest.contains(out[i]));
                    let j = choose|j: int| 0 <= j < rest.len() && rest[j] == out[i];
                    assert(b[j + 1] == out[i]);
                } else {
                    assert(i == a.len());
                    assert(next[i] == b[0]);
                    assert(!occurs(rest, next[i].name));
                    assert(out[i] == next[i]);
                    assert(b[0] == out[i]);
                }
            }
        }
    }
}

/// Merging two fields gives the first one, up to its children: of structs, the children of
/// both; of lists, the items merged; of a leaf, itself, where the types are the same. Leaves
/// of different types do not merge.
pub proof fn merging_fields(a: FieldModel, b: FieldModel)
    ensures
        match merge_field(a, b) {
            Ok(m) => {
                &&& same_head(m, a)
                &&& a.logical_type.is_struct() && b.logical_type.is_struct() ==> merge_children(
                    a.children,
                    b.children,
                ) == Ok::<Seq<FieldModel>, ErrorModel>(m.children)
                &&& both_lists(a, b) && a.children.len() > 0 && b.children.len() > 0 ==> {
                    &&& m.children.len() == a.children.len()
                    &&& merge_field(a.children[0], b.children[0]) == Ok::<FieldModel, ErrorModel>(
                        m.children[0],
                    )
                    &&& forall|i: int|
                        0 < i < a.children.len() ==> (#[trigger] m.children[i]) == a.children[i]
                }
                &&& !a.logical_type.is_nested() ==> m == a
            },
            Err(_) => true,
        },
        a.logical_type.is_struct() && b.logical_type.is_struct() ==> (merge_field(a, b) is Ok
            <==> merge_children(a.children, b.children) is Ok),
        both_lists(a, b) && a.children.len() > 0 && b.children.len() > 0 ==> (merge_field(a, b)
            is Ok <==> merge_field(a.children[0], b.children[0]) is Ok),
        a.logical_type == b.logical_type && !a.logical_type.is_nested() ==> merge_field(a, b)
            is Ok,
        a.logical_type != b.logical_type && !a.logical_type.is_nested()
            && !b.logical_type.is_nested() && !a.logical_type.same_list_size(b.logical_type)
            ==> merge_field(a, b) is Err,
{
}

/// Whether a field is another one without ids, up to its children.
pub open spec fn is_unnumbered(g: FieldModel, f: FieldModel) -> bool {
    g == (FieldModel { id: -1i32, children: g.children, ..f })
}

proof fn lemma_cleared(fields: Seq<FieldModel>)
    ensures
        clear_ids(fields).len() == fields.len(),
        forall|i: int|
            0 <= i < fields.len() ==> {
                &&& is_unnumbered(#[trigger] clear_ids(fields)[i], fields[i])
                &&& clear_ids(fields)[i].children == clear_ids(fields[i].children)
            },
    decreases fields.len(),
{
    if fields.len() > 0 {
        let rest = fields.drop_first();
        lemma_cleared(rest);
        let out = clear_ids(fields);
        assert forall|i: int| 0 <= i < fields.len() implies {
            &&& is_unnumbered(#[trigger] out[i], fields[i])
            &&& out[i].children == clear_ids(fields[i].children)
        } by {
            if i > 0 {
                assert(rest[i - 1] == fields[i]);
                assert(out[i] == clear_ids(rest)[i - 1]);
            }
        }
    }
}

#[verifier::spinoff_prover]
#[verifier::rlimit(60)]
proof fn lemma_add_new(a: Seq<FieldModel>, b: Seq<FieldModel>)
    ensures
        ({
            let out = add_new(a, b);
            &&& out.len() >= a.len()
            &&& forall|i: int| 0 <= i < a.len() ==> #[trigger] out[i] == a[i]
            &&& forall|name: Seq<char>| #[trigger]
                occurs(out, name) <==> occurs(a, name) || occurs(b, name)
            &&& all_differ(a) ==> all_differ(out)
            &&& forall|i: int|
                a.len() <= i < out.len() ==> b.contains(#[trigger] out[i]) && !occurs(
                    a,
                    out[i].name,
                )
        }),
    decreases b.len(),
{
    let out = add_new(a, b);
    if b.len() > 0 {
        let rest = b.drop_first();
        assert(forall|j: int| 0 <= j < rest.len() ==> (#[trigger] rest[j]) == b[j + 1]);
        assert(has_name(a, b[0].name) <==> occurs(a, b[0].name));
        let next = if occurs(a, b[0].name) {
            a
        } else {
            a.push(b[0])
        };
        lemma_add_new(next, rest);
        assert(out == add_new(next, rest));
        assert forall|name: Seq<char>| #[trigger] occurs(b, name) <==> b[0].name == name || occurs(
            rest,
            name,
        ) by {
            if occurs(b, name) && b[0].name != name {
                let j = choose|j: int| 0 <= j < b.len() && (#[trigger] b[j]).name == name;
                assert(rest[j - 1].name == name);
            }
            if occurs(rest, name) {
                let j = choose|j: int| 0 <= j < rest.len() && (#[trigger] rest[j]).name == name;
                assert(b[j + 1].name == name);
            }
        }
        assert forall|name: Seq<char>| #[trigger] occurs(next, name) <==> occurs(a, name)
            || b[0].name == name by {
            if occurs(a, name) {
                let i = choose|i: int| 0 <= i < a.len() && (#[trigger] a[i]).name == name;
                assert(next[i].name == name);
            }
            if occurs(next, name) {
                let i = choose|i: int| 0 <= i < next.len() && (#[trigger] next[i]).name == name;
                if i < a.len() {
                    assert(a[i].name == name);
                }
            }
            if b[0].name == name && !occurs(a, name) {
                assert(next[a.len() as int].name == name);
            }
        }
        assert forall|i: int| 0 <= i < a.len() implies #[trigger] out[i] == a[i] by {
            assert(out[i] == next[i]);
        }
        if all_differ(a) {
            assert(all_differ(next)) by {
                assert forall|i: int, j: int| 0 <= i < j < next.len() implies (
                #[trigger] next[i]).name != (#[trigger] next[j]).name by {
                    if j < a.len() {
                        assert(a[i].name != a[j].name);
                    } else {
                        assert(a[i].name != b[0].name);
                    }
                }
            }
        }
        assert forall|i: int| a.len() <= i < out.len() implies b.contains(#[trigger] out[i])
            && !occurs(a, out[i].name) by {
            if i >= next.len() {
                let j = choose|j: int| 0 <= j < rest.len() && rest[j] == out[i];
                assert(b[j + 1] == out[i]);
                assert(!occurs(next, out[i].name));
            } else {
                assert(out[i] == next[i]);
                assert(b[0] == out[i]);
            }
        }
    }
}

#[verifier::spinoff_prover]
#[verifier::rlimit(60)]
proof fn lemma_merge_each(a: Seq<FieldModel>, b: Seq<FieldModel>)
    requires
        merge_each(a, b) is Ok,
    ensures
        ({
            let out = merge_each(a, b)->Ok_0;
            &&& out.len() == a.len()
            &&& forall|i: int|
                0 <= i < a.len() ==> {
                    &&& same_head(#[trigger] out[i], a[i])
                    &&& !a[i].name.contains('.') && !occurs(b, a[i].name) ==> out[i] == a[i]
                }
            &&& forall|i: int, j: int|
                0 <= i < a.len() && is_first(b, j) && (#[trigger] a[i]).name == (
                #[trigger] b[j]).name && !a[i].name.contains('.') ==> merge_field(a[i], b[j])
                    == Ok::<FieldModel, ErrorModel>(out[i])
        }),
    decreases a.len(),
{
    if a.len() > 0 {
        let rest = a.drop_first();
        let out = merge_each(a, b)->Ok_0;
        let tail = merge_each(rest, b)->Ok_0;
        lemma_merge_each(rest, b);
        lemma_found_by_name(b, a[0].name);
        assert(out == seq![out[0]] + tail);
        match lookup(b, a[0].name) {
            Some(o) => {
                merging_fields(a[0], o);
            },
            None => {},
        }
        assert forall|i: int| 0 <= i < a.len() implies {
            &&& same_head(#[trigger] out[i], a[i])
            &&& !a[i].name.contains('.') && !occurs(b, a[i].name) ==> out[i] == a[i]
        } by {
            if i > 0 {
                assert(rest[i - 1] == a[i]);
                assert(out[i] == tail[i - 1]);
            }
        }
        assert forall|i: int, j: int|
            0 <= i < a.len() && is_first(b, j) && (#[trigger] a[i]).name == (#[trigger] b[j]).name
                && !a[i].name.contains('.') implies merge_field(a[i], b[j]) == Ok::<
            FieldModel,
            ErrorModel,
        >(out[i]) by {
            if i > 0 {
                assert(rest[i - 1] == a[i]);
                assert(out[i] == tail[i - 1]);
            }
        }
    }
}

/// Merging a schema into another keeps the fields of the first in their places, up to their
/// children, and puts the fields of other names behind them, without ids. One that has no
/// namesake is as it was, and one that has is merged with it. Of the metadata the values of
/// the second schema win.
#[verifier::spinoff_prover]
#[verifier::rlimit(60)]
pub proof fn merging_schemas(a: SchemaModel, b: SchemaModel)
    requires
        merge_schema(a, b) is Ok,
    ensures
        ({
            let m = merge_schema(a, b)->Ok_0;
            let n = a.fields.len();
            &&& m.fields.len() >= n
            &&& forall|name: Seq<char>| #[trigger]
                occurs(m.fields, name) <==> occurs(a.fields, name) || occurs(b.fields, name)
            &&& all_differ(a.fields) ==> all_differ(m.fields)
            &&& forall|i: int| 0 <= i < n ==> same_head(#[trigger] m.fields[i], a.fields[i])
            &&& forall|i: int|
                0 <= i < n && !(#[trigger] a.fields[i]).name.contains('.') && !occurs(
                    b.fields,
                    a.fields[i].name,
                ) ==> m.fields[i] == a.fields[i]
            &&& forall|i: int, j: int|
                0 <= i < n && is_first(b.fields, j) && (#[trigger] a.fields[i]).name == (
                #[trigger] b.fields[j]).name && !a.fields[i].name.contains('.') ==> merge_field(
                    a.fields[i],
                    clear_ids(b.fields)[j],
                ) == Ok::<FieldModel, ErrorModel>(m.fields[i])
            &&& forall|i: int|
                n <= i < m.fields.len() ==> !occurs(a.fields, (#[trigger] m.fields[i]).name)
                    && exists|j: int|
                    0 <= j < b.fields.len() && is_unnumbered(m.fields[i], #[trigger] b.fields[j])
            &&& forall|key: Seq<char>| #[trigger]
                m.metadata.dom().contains(key) <==> a.metadata.dom().contains(key)
                    || b.metadata.dom().contains(key)
            &&& forall|key: Seq<char>|
                b.metadata.dom().contains(key) ==> #[trigger] m.metadata[key] == b.metadata[key]
            &&& forall|key: Seq<char>|
                a.metadata.dom().contains(key) && !b.metadata.dom().contains(key)
                    ==> #[trigger] m.metadata[key] == a.metadata[key]
        }),
{
    let m = merge_schema(a, b)->Ok_0;
    let others = clear_ids(b.fields);
    let merged = merge_each(a.fields, others)->Ok_0;
    lemma_cleared(b.fields);
    lemma_merge_each(a.fields, others);
    lemma_add_new(merged, others);
    assert forall|name: Seq<char>| #[trigger] occurs(others, name) <==> occurs(
        b.fields,
        name,
    ) by {
        if occurs(others, name) {
            let j = choose|j: int| 0 <= j < others.len() && (#[trigger] others[j]).name == name;
            assert(b.fields[j].name == name);
        }
        if occurs(b.fields, name) {
            let j = choose|j: int| 0 <= j < b.fields.len() && (#[trigger] b.fields[j]).name == name;
            assert(others[j].name == name);
        }
    }
    assert forall|name: Seq<char>| #[trigger] occurs(merged, name) <==> occurs(
        a.fields,
        name,
    ) by {
        if occurs(merged, name) {
            let j = choose|j: int| 0 <= j < merged.len() && (#[trigger] merged[j]).name == name;
            assert(a.fields[j].name == name);
        }
        if occurs(a.fields, name) {
            let j = choose|j: int| 0 <= j < a.fields.len() && (#[trigger] a.fields[j]).name == name;
            assert(merged[j].name == name);
        }
    }
    if all_differ(a.fields) {
        assert(all_differ(merged)) by {
            assert forall|i: int, j: int| 0 <= i < j < merged.len() implies (
            #[trigger] merged[i]).name != (#[trigger] merged[j]).name by {
                assert(a.fields[i].name != a.fields[j].name);
            }
        }
    }
    assert forall|i: int, j: int|
        0 <= i < a.fields.len() && is_first(b.fields, j) && (#[trigger] a.fields[i]).name == (
        #[trigger] b.fields[j]).name && !a.fields[i].name.contains('.') implies merge_field(
        a.fields[i],
        clear_ids(b.fields)[j],
    ) == Ok::<FieldModel, ErrorModel>(m.fields[i]) by {
        assert forall|k: int| 0 <= k < j implies (#[trigger] others[k]).name != others[j].name by {
            assert(b.fields[k].name != b.fields[j].name);
        }
        assert(is_first(others, j));
        assert(m.fields[i] == merged[i]);
    }
    assert forall|i: int| a.fields.len() <= i < m.fields.len() implies !occurs(
        a.fields,
        (#[trigger] m.fields[i]).name,
    ) && exists|j: int|
        0 <= j < b.fields.len() && is_unnumbered(m.fields[i], #[trigger] b.fields[j]) by {
        assert(others.contains(m.fields[i]));
        let j = choose|j: int| 0 <= j < others.len() && others[j] == m.fields[i];
        assert(is_unnumbered(others[j], b.fields[j]));
    }
}

/// Children can be merged where names differ in each list and every two of one name can be
/// merged.
#[verifier::spinoff_prover]
#[verifier::rlimit(60)]
pub proof fn merging_children_succeeds(a: Seq<FieldModel>, b: Seq<FieldModel>)
    requires
        all_differ(a),
        all_differ(b),
        forall|i: int, j: int|
            0 <= i < a.len() && 0 <= j < b.len() && (#[trigger] a[i]).name == (#[trigger] b[j]).name
                ==> merge_field(a[i], b[j]) is Ok,
    ensures
        merge_children(a, b) is Ok,
    decreases b.len(),
{
    if b.len() > 0 {
        let rest = b.drop_first();
        assert(forall|j: int| 0 <= j < rest.len() ==> (#[trigger] rest[j]) == b[j + 1]);
        lemma_index_named(a, b[0].name);
        let next = match index_named(a, b[0].name) {
            Some(i) => {
                assert(a[i].name == b[0].name);
                merging_fields(a[i], b[0]);
                a.update(i, merge_field(a[i], b[0])->Ok_0)
            },
            None => a.push(b[0]),
        };
        assert(all_differ(next)) by {
            assert forall|i: int, j: int| 0 <= i < j < next.len() implies (#[trigger] next[i]).name
                != (#[trigger] next[j]).name by {
                if j < a.len() {
                    assert(a[i].name != a[j].name);
                } else {
                    assert(a[i].name != b[0].name);
                }
            }
        }
        assert(all_differ(rest)) by {
            assert forall|i: int, j: int| 0 <= i < j < rest.len() implies (#[trigger] rest[i]).name
                != (#[trigger] rest[j]).name by {
                assert(b[i + 1].name != b[j + 1].name);
            }
        }
        assert forall|i: int, j: int|
            0 <= i < next.len() && 0 <= j < rest.len() && (#[trigger] next[i]).name == (
            #[trigger] rest[j]).name implies merge_field(next[i], rest[j]) is Ok by {
            assert(b[0].name != b[j + 1].name);
            if i < a.len() {
                assert(a[i].name == b[j + 1].name);
                assert(next[i] == a[i]);
            }
        }
        merging_children_succeeds(next, rest);
    }
}

/// A schema of names without dots can be merged with another one exactly if each of its
/// fields can be merged with the first of its name there.
#[verifier::spinoff_prover]
#[verifier::rlimit(60)]
pub proof fn merging_succeeds(a: SchemaModel, b: SchemaModel)
    requires
        forall|i: int| 0 <= i < a.fields.len() ==> !(#[trigger] a.fields[i]).name.contains('.'),
    ensures
        merge_schema(a, b) is Ok <==> forall|i: int, j: int|
            0 <= i < a.fields.len() && is_first(b.fields, j) && (#[trigger] a.fields[i]).name == (
            #[trigger] b.fields[j]).name ==> merge_field(a.fields[i], clear_ids(b.fields)[j])
                is Ok,
{
    let others = clear_ids(b.fields);
    lemma_cleared(b.fields);
    assert forall|j: int| #[trigger] is_first(b.fields, j) <==> is_first(others, j) by {
        if is_first(b.fields, j) {
            assert forall|k: int| 0 <= k < j implies (#[trigger] others[k]).name
                != others[j].name by {
                assert(b.fields[k].name != b.fields[j].name);
            }
        }
        if is_first(others, j) {
            assert forall|k: int| 0 <= k < j implies (#[trigger] b.fields[k]).name
                != b.fields[j].name by {
                assert(others[k].name != others[j].name);
            }
        }
    }
    lemma_merge_each_succeeds(a.fields, others);
    if merge_schema(a, b) is Ok {
        assert forall|i: int, j: int|
            0 <= i < a.fields.len() && is_first(b.fields, j) && (#[trigger] a.fields[i]).name == (
            #[trigger] b.fields[j]).name implies merge_field(
            a.fields[i],
            clear_ids(b.fields)[j],
        ) is Ok by {
            assert(is_first(others, j));
            assert(others[j].name == a.fields[i].name);
        }
    } else {
        let (i, j) = choose|i: int, j: int|
            0 <= i < a.fields.len() && is_first(others, j) && (#[trigger] a.fields[i]).name == (
            #[trigger] others[j]).name && merge_field(a.fields[i], others[j]) is Err;
        assert(is_first(b.fields, j));
        assert(a.fields[i].name == b.fields[j].name);
    }
}

#[verifier::spinoff_prover]
#[verifier::rlimit(60)]
proof fn lemma_merge_each_succeeds(a: Seq<FieldModel>, b: Seq<FieldModel>)
    requires
        forall|i: int| 0 <= i < a.len() ==> !(#[trigger] a[i]).name.contains('.'),
    ensures
        merge_each(a, b) is Ok <==> forall|i: int, j: int|
            0 <= i < a.len() && is_first(b, j) && (#[trigger] a[i]).name == (#[trigger] b[j]).name
                ==> merge_field(a[i], b[j]) is Ok,
    decreases a.len(),
{
    if a.len() > 0 {
        let rest = a.drop_first();
        assert(forall|i: int| 0 <= i < rest.len() ==> (#[trigger] rest[i]) == a[i + 1]);
        lemma_merge_each_succeeds(rest, b);
        assert(!a[0].name.contains('.'));
        lemma_found_by_name(b, a[0].name);
        lemma_index_named(b, a[0].name);
        if merge_each(a, b) is Ok {
            assert forall|i: int, j: int|
                0 <= i < a.len() && is_first(b, j) && (#[trigger] a[i]).name == (
                #[trigger] b[j]).name implies merge_field(a[i], b[j]) is Ok by {
                if i > 0 {
                    assert(rest[i - 1] == a[i]);
                }
            }
        } else if merge_each(rest, b) is Err {
            let (i, j) = choose|i: int, j: int|
                0 <= i < rest.len() && is_first(b, j) && (#[trigger] rest[i]).name == (
                #[trigger] b[j]).name && merge_field(rest[i], b[j]) is Err;
            assert(a[i + 1].name == b[j].name);
        } else {
            let k = index_named(b, a[0].name)->0;
            assert(is_first(b, k));
            assert(a[0].name == b[k].name);
        }
    }
}

/// A schema can be projected onto one of names without dots exactly if each field there
/// that it has a field of the name of can be projected onto, and, where missing fields are
/// an error, it has a field of every name.
#[verifier::spinoff_prover]
#[verifier::rlimit(60)]
pub proof fn projecting_succeeds(
    fields: Seq<FieldModel>,
    onto: Seq<FieldModel>,
    on_missing: OnMissing,
    policy: OnTypeMismatch,
)
    requires
        forall|i: int| 0 <= i < onto.len() ==> !(#[trigger] onto[i]).name.contains('.'),
    ensures
        project_schema(fields, onto, on_missing, policy) is Ok <==> {
            &&& forall|i: int, j: int|
                is_first(fields, i) && 0 <= j < onto.len() && (#[trigger] fields[i]).name == (
                #[trigger] onto[j]).name ==> project_onto(fields[i], onto[j], policy) is Ok
            &&& on_missing == OnMissing::Error ==> forall|j: int|
                0 <= j < onto.len() ==> occurs(fields, (#[trigger] onto[j]).name)
        },
    decreases onto.len(),
{
    if onto.len() > 0 {
        let rest = onto.drop_first();
        assert(forall|i: int| 0 <= i < rest.len() ==> (#[trigger] rest[i]) == onto[i + 1]);
        projecting_succeeds(fields, rest, on_missing, policy);
        assert(!onto[0].name.contains('.'));
        lemma_found_by_name(fields, onto[0].name);
        lemma_index_named(fields, onto[0].name);
        let whole = project_schema(fields, onto, on_missing, policy);
        let tail = project_schema(fields, rest, on_missing, policy);
        if whole is Ok {
            assert forall|i: int, j: int|
                is_first(fields, i) && 0 <= j < onto.len() && (#[trigger] fields[i]).name == (
                #[trigger] onto[j]).name implies project_onto(
                fields[i],
                onto[j],
                policy,
            ) is Ok by {
                if j > 0 {
                    assert(rest[j - 1] == onto[j]);
                }
            }
            if on_missing == OnMissing::Error {
                assert forall|j: int| 0 <= j < onto.len() implies occurs(
                    fields,
                    (#[trigger] onto[j]).name,
                ) by {
                    if j > 0 {
                        assert(rest[j - 1] == onto[j]);
                    }
                }
            }
        } else if tail is Err {
            if on_missing == OnMissing::Error && exists|j: int|
                0 <= j < rest.len() && !occurs(fields, (#[trigger] rest[j]).name) {
                let j = choose|j: int|
                    0 <= j < rest.len() && !occurs(fields, (#[trigger] rest[j]).name);
                assert(!occurs(fields, onto[j + 1].name));
            } else {
                let (i, j) = choose|i: int, j: int|
                    is_first(fields, i) && 0 <= j < rest.len() && (#[trigger] fields[i]).name == (
                    #[trigger] rest[j]).name && project_onto(fields[i], rest[j], policy) is Err;
                assert(fields[i].name == onto[j + 1].name);
            }
        } else if lookup(fields, onto[0].name) is Some {
            let k = index_named(fields, onto[0].name)->0;
            assert(is_first(fields, k));
            assert(fields[k].name == onto[0].name);
        } else {
            assert(!occurs(fields, onto[0].name));
        }
    }
}

/// A struct can be projected onto another one of its name exactly if it has a child of every
/// name there, and the first of each name can be projected in turn.
#[verifier::spinoff_prover]
#[verifier::rlimit(60)]
pub proof fn projecting_structs_succeeds(a: FieldModel, b: FieldModel, policy: OnTypeMismatch)
    requires
        a.name == b.name,
        a.logical_type.is_struct(),
        b.logical_type.is_struct(),
    ensures
        project_onto(a, b, policy) is Ok <==> forall|j: int|
            0 <= j < b.children.len() ==> {
                &&& occurs(a.children, (#[trigger] b.children[j]).name)
                &&& forall|i: int|
                    is_first(a.children, i) && (#[trigger] a.children[i]).name
                        == b.children[j].name ==> project_onto(
                        a.children[i],
                        b.children[j],
                        policy,
                    ) is Ok
            },
{
    lemma_projecting_all_succeeds(a, b.children, policy);
}

#[verifier::spinoff_prover]
#[verifier::rlimit(60)]
proof fn lemma_projecting_all_succeeds(a: FieldModel, onto: Seq<FieldModel>, policy: OnTypeMismatch)
    ensures
        project_onto_all(a, onto, policy) is Ok <==> forall|j: int|
            0 <= j < onto.len() ==> {
                &&& occurs(a.children, (#[trigger] onto[j]).name)
                &&& forall|i: int|
                    is_first(a.children, i) && (#[trigger] a.children[i]).name == onto[j].name
                        ==> project_onto(a.children[i], onto[j], policy) is Ok
            },
    decreases onto.len(),
{
    if onto.len() > 0 {
        let rest = onto.drop_first();
        assert(forall|i: int| 0 <= i < rest.len() ==> (#[trigger] rest[i]) == onto[i + 1]);
        lemma_projecting_all_succeeds(a, rest, policy);
        lemma_found_by_name(a.children, onto[0].name);
        lemma_index_named(a.children, onto[0].name);
        let good = |j: int|
            {
                &&& occurs(a.children, onto[j].name)
                &&& forall|i: int|
                    is_first(a.children, i) && (#[trigger] a.children[i]).name == onto[j].name
                        ==> project_onto(a.children[i], onto[j], policy) is Ok
            };
        if named(a.children, onto[0].name) is Some {
            let k = index_named(a.children, onto[0].name)->0;
            assert(is_first(a.children, k));
            assert(a.children[k].name == onto[0].name);
        }
        assert(good(0) <==> named(a.children, onto[0].name) is Some && project_onto(
            named(a.children, onto[0].name)->0,
            onto[0],
            policy,
        ) is Ok);
        if project_onto_all(a, onto, policy) is Ok {
            assert forall|j: int| 0 <= j < onto.len() implies {
                &&& occurs(a.children, (#[trigger] onto[j]).name)
                &&& forall|i: int|
                    is_first(a.children, i) && (#[trigger] a.children[i]).name == onto[j].name
                        ==> project_onto(a.children[i], onto[j], policy) is Ok
            } by {
                if j > 0 {
                    assert(rest[j - 1] == onto[j]);
                } else {
                    assert(good(0));
                }
            }
        }
        if forall|j: int|
            0 <= j < onto.len() ==> {
                &&& occurs(a.children, (#[trigger] onto[j]).name)
                &&& forall|i: int|
                    is_first(a.children, i) && (#[trigger] a.children[i]).name == onto[j].name
                        ==> project_onto(a.children[i], onto[j], policy) is Ok
            } {
            assert(occurs(a.children, onto[0].name));
            assert(good(0));
            assert forall|j: int| 0 <= j < rest.len() implies {
                &&& occurs(a.children, (#[trigger] rest[j]).name)
                &&& forall|i: int|
                    is_first(a.children, i) && (#[trigger] a.children[i]).name == rest[j].name
                        ==> project_onto(a.children[i], rest[j], policy) is Ok
            } by {
                assert(occurs(a.children, onto[j + 1].name));
            }
        }
    }
}

// Repeated names and whole schemas.

/// Fields repeat a name exactly if not all their names differ.
pub proof fn repeated_names(fields: Seq<FieldModel>)
    ensures
        repeats_name(fields) <==> !all_differ(fields),
{
}

/// A schema is the expected one exactly if its fields are and, where that is compared, its
/// metadata is.
pub proof fn matching_schemas(s: SchemaModel, expected: SchemaModel, o: SchemaCompareOptions)
    ensures
        schema_matches(s, expected, o) ==> fields_match(s.fields, expected.fields, o),
        schema_matches(s, expected, o) && o.compare_metadata ==> s.metadata == expected.metadata,
        fields_match(s.fields, expected.fields, o) && s.metadata == expected.metadata
            ==> schema_matches(s, expected, o),
        fields_match(s.fields, expected.fields, o) && !o.compare_metadata ==> schema_matches(
            s,
            expected,
            o,
        ),
{
}

} // verus!
