//! Laws of projections onto columns: which fields a projected schema has.

use vstd::prelude::*;
use crate::combining_laws::all_differ;
use crate::combining_laws::is_first;
use crate::combining_laws::merging_children;
use crate::combining_laws::merging_fields;
use crate::combining_laws::occurs;
use crate::combining_laws::same_head;
use crate::compare::distinct;
use crate::error::ErrorModel;
use crate::field::index_named;
use crate::field::lemma_index_named;
use crate::field::FieldModel;
use crate::field_ops::merge_children;
use crate::field_ops::merge_field;
use crate::field_ops::project_path;
use crate::schema_ops::project_columns;
use crate::text::lemma_split_dots_nonempty;
use crate::text::split_dots;

verus! {

/// Whether names lead from a field down to one in it, each to the first child of a struct
/// that has the name.
pub open spec fn leads(f: FieldModel, path: Seq<Seq<char>>) -> bool
    decreases path.len(),
{
    path.len() > 0 ==> {
        &&& f.logical_type.is_struct()
        &&& exists|i: int|
            {
                &&& #[trigger] is_first(f.children, i)
                &&& f.children[i].name == path[0]
                &&& leads(f.children[i], path.drop_first())
            }
    }
}

/// Whether names lead from the top level of a schema down to a field.
pub open spec fn leads_in(fields: Seq<FieldModel>, path: Seq<Seq<char>>) -> bool {
    path.len() > 0 && exists|i: int|
        {
            &&& #[trigger] is_first(fields, i)
            &&& fields[i].name == path[0]
            &&& leads(fields[i], path.drop_first())
        }
}

/// Whether one of two paths is the start of the other.
pub open spec fn is_on(a: Seq<Seq<char>>, b: Seq<Seq<char>>) -> bool {
    forall|i: int| 0 <= i < a.len() && i < b.len() ==> #[trigger] a[i] == b[i]
}

/// Whether a field is a part of another: it is that field, up to its children, and of a
/// struct each child is a part of the first child of its name there.
pub open spec fn is_part(g: FieldModel, f: FieldModel) -> bool
    decreases g, 0int,
{
    &&& same_head(g, f)
    &&& f.logical_type.is_struct() ==> {
        &&& all_differ(g.children)
        &&& forall|k: int|
            0 <= k < g.children.len() ==> part_at(#[trigger] g.children[k], f.children)
    }
}

/// Whether a field is a part of the first field of its name in a list.
pub open spec fn part_at(g: FieldModel, fields: Seq<FieldModel>) -> bool
    decreases g, 1int,
{
    exists|i: int|
        {
            &&& #[trigger] is_first(fields, i)
            &&& fields[i].name == g.name
            &&& is_part(g, fields[i])
        }
}

proof fn lemma_one_first(fields: Seq<FieldModel>, i: int, j: int)
    requires
        is_first(fields, i),
        is_first(fields, j),
        fields[i].name == fields[j].name,
    ensures
        i == j,
{
    if i < j {
        assert(fields[i].name != fields[j].name);
    } else if j < i {
        assert(fields[j].name != fields[i].name);
    }
}

proof fn lemma_differ_first(fields: Seq<FieldModel>, i: int)
    requires
        all_differ(fields),
        0 <= i < fields.len(),
    ensures
        is_first(fields, i),
{
    assert forall|j: int| 0 <= j < i implies (#[trigger] fields[j]).name != fields[i].name by {}
}

#[verifier::spinoff_prover]
#[verifier::rlimit(60)]
proof fn lemma_whole_part(f: FieldModel)
    requires
        distinct(f.children),
    ensures
        is_part(f, f),
    decreases f,
{
    if f.logical_type.is_struct() {
        assert(all_differ(f.children));
        assert forall|k: int| 0 <= k < f.children.len() implies part_at(
            #[trigger] f.children[k],
            f.children,
        ) by {
            lemma_whole_part(f.children[k]);
            lemma_differ_first(f.children, k);
        }
    }
}

#[verifier::spinoff_prover]
#[verifier::rlimit(60)]
proof fn lemma_path_part(f: FieldModel, path: Seq<Seq<char>>)
    requires
        distinct(f.children),
    ensures
        is_part(project_path(f, path), f),
    decreases path.len(),
{
    if path.len() == 0 {
        lemma_whole_part(f);
    } else {
        lemma_index_named(f.children, path[0]);
        let g = project_path(f, path);
        match index_named(f.children, path[0]) {
            Some(i) => {
                lemma_path_part(f.children[i], path.drop_first());
                assert(is_first(f.children, i));
                let c = project_path(f.children[i], path.drop_first());
                assert(g.children =~= seq![c]);
                assert forall|k: int| 0 <= k < g.children.len() implies part_at(
            #[trigger] g.children[k],
            f.children,
        ) by {
                    assert(g.children[k] == c);
                    assert(c.name == f.children[i].name);
                }
            },
            None => {},
        }
    }
}

/// What a projected field leads to: what the field leads to, along the path.
#[verifier::spinoff_prover]
#[verifier::rlimit(60)]
proof fn lemma_path_leads(f: FieldModel, path: Seq<Seq<char>>, q: Seq<Seq<char>>)
    ensures
        leads(project_path(f, path), q) <==> leads(f, q) && is_on(path, q),
    decreases path.len(),
{
    let g = project_path(f, path);
    if path.len() == 0 {
        assert(is_on(path, q));
    } else if q.len() > 0 {
        lemma_index_named(f.children, path[0]);
        match index_named(f.children, path[0]) {
            Some(n) => {
                let c = project_path(f.children[n], path.drop_first());
                assert(g.children =~= seq![c]);
                assert(c.name == path[0]);
                assert(is_first(f.children, n));
                assert(is_first(g.children, 0));
                lemma_path_leads(f.children[n], path.drop_first(), q.drop_first());
                if leads(g, q) {
                    let i = choose|i: int|
                        {
                            &&& #[trigger] is_first(g.children, i)
                            &&& g.children[i].name == q[0]
                            &&& leads(g.children[i], q.drop_first())
                        };
                    assert(i == 0);
                    assert(is_on(path, q)) by {
                        assert forall|k: int| 0 <= k < path.len() && k < q.len() implies #[trigger]
                        path[k] == q[k] by {
                            if k > 0 {
                                assert(path.drop_first()[k - 1] == q.drop_first()[k - 1]);
                            }
                        }
                    }
                }
                if leads(f, q) && is_on(path, q) {
                    assert(path[0] == q[0]);
                    let i = choose|i: int|
                        {
                            &&& #[trigger] is_first(f.children, i)
                            &&& f.children[i].name == q[0]
                            &&& leads(f.children[i], q.drop_first())
                        };
                    lemma_one_first(f.children, i, n);
                    assert(is_on(path.drop_first(), q.drop_first())) by {
                        assert forall|k: int|
                            0 <= k < path.drop_first().len() && k
                                < q.drop_first().len() implies #[trigger] path.drop_first()[k]
                            == q.drop_first()[k] by {
                            assert(path[k + 1] == q[k + 1]);
                        }
                    }
                    assert(g.children[0].name == q[0]);
                }
            },
            None => {
                assert(g.children =~= Seq::<FieldModel>::empty());
                if leads(f, q) && is_on(path, q) {
                    assert(path[0] == q[0]);
                    let i = choose|i: int|
                        {
                            &&& #[trigger] is_first(f.children, i)
                            &&& f.children[i].name == q[0]
                            &&& leads(f.children[i], q.drop_first())
                        };
                    assert(f.children[i].name != path[0]);
                }
            },
        }
    }
}

/// Two parts of a field merge to a part of it, that leads to what either of them leads to.
#[verifier::spinoff_prover]
#[verifier::rlimit(60)]
proof fn lemma_merged_parts(g: FieldModel, h: FieldModel, f: FieldModel, q: Seq<Seq<char>>)
    requires
        is_part(g, f),
        is_part(h, f),
        merge_field(g, h) is Ok,
    ensures
        is_part(merge_field(g, h)->Ok_0, f),
        leads(merge_field(g, h)->Ok_0, q) <==> leads(g, q) || leads(h, q),
    decreases h,
{
    let m = merge_field(g, h)->Ok_0;
    merging_fields(g, h);
    if f.logical_type.is_struct() {
        let a = g.children;
        let b = h.children;
        let out = m.children;
        merging_children(a, b);
        assert(out == merge_children(a, b)->Ok_0);
        assert forall|k: int| 0 <= k < out.len() implies part_at(
            #[trigger] out[k],
            f.children,
        ) by {
            lemma_child_part(g, h, f, k);
        }
        if q.len() > 0 {
            lemma_children_lead(g, h, f, q);
        }
    }
}

/// A child of two merged parts is a part.
#[verifier::spinoff_prover]
#[verifier::rlimit(60)]
proof fn lemma_child_part(g: FieldModel, h: FieldModel, f: FieldModel, k: int)
    requires
        is_part(g, f),
        is_part(h, f),
        f.logical_type.is_struct(),
        merge_children(g.children, h.children) is Ok,
        0 <= k < merge_children(g.children, h.children)->Ok_0.len(),
    ensures
        part_at(merge_children(g.children, h.children)->Ok_0[k], f.children),
    decreases h, 0int,
{
    let a = g.children;
    let b = h.children;
    let out = merge_children(a, b)->Ok_0;
    merging_children(a, b);
    if k >= a.len() {
        assert(b.contains(out[k]));
        let j = choose|j: int| 0 <= j < b.len() && b[j] == out[k];
        assert(b[j] == out[k]);
        assert(part_at(b[j], f.children));
    } else {
        let i = choose|i: int|
            {
                &&& #[trigger] is_first(f.children, i)
                &&& f.children[i].name == a[k].name
                &&& is_part(a[k], f.children[i])
            };
        if occurs(b, a[k].name) {
            let j = choose|j: int| 0 <= j < b.len() && (#[trigger] b[j]).name == a[k].name;
            let n = choose|n: int|
                {
                    &&& #[trigger] is_first(f.children, n)
                    &&& f.children[n].name == b[j].name
                    &&& is_part(b[j], f.children[n])
                };
            lemma_one_first(f.children, i, n);
            assert(merge_field(a[k], b[j]) == Ok::<FieldModel, ErrorModel>(out[k]));
            lemma_merged_parts(a[k], b[j], f.children[i], Seq::empty());
        } else {
            assert(out[k] == a[k]);
        }
    }
}

/// What merged children lead to.
#[verifier::spinoff_prover]
#[verifier::rlimit(60)]
proof fn lemma_children_lead(g: FieldModel, h: FieldModel, f: FieldModel, q: Seq<Seq<char>>)
    requires
        is_part(g, f),
        is_part(h, f),
        f.logical_type.is_struct(),
        merge_children(g.children, h.children) is Ok,
        q.len() > 0,
    ensures
        ({
            let m = FieldModel {
                children: merge_children(g.children, h.children)->Ok_0,
                ..g
            };
            leads(m, q) <==> leads(g, q) || leads(h, q)
        }),
    decreases h, 0int,
{
    let a = g.children;
    let b = h.children;
    let out = merge_children(a, b)->Ok_0;
    let m = FieldModel { children: out, ..g };
    let rest = q.drop_first();
    merging_children(a, b);
    assert forall|k: int, j: int|
        0 <= k < a.len() && 0 <= j < b.len() && (#[trigger] a[k]).name == (
        #[trigger] b[j]).name implies (leads(out[k], rest) <==> leads(a[k], rest) || leads(
        b[j],
        rest,
    )) by {
        let i = choose|i: int|
            {
                &&& #[trigger] is_first(f.children, i)
                &&& f.children[i].name == a[k].name
                &&& is_part(a[k], f.children[i])
            };
        let n = choose|n: int|
            {
                &&& #[trigger] is_first(f.children, n)
                &&& f.children[n].name == b[j].name
                &&& is_part(b[j], f.children[n])
            };
        lemma_one_first(f.children, i, n);
        assert(merge_field(a[k], b[j]) == Ok::<FieldModel, ErrorModel>(out[k]));
        lemma_merged_parts(a[k], b[j], f.children[i], rest);
    }
    if leads(m, q) {
        let k = choose|k: int|
            {
                &&& #[trigger] is_first(out, k)
                &&& out[k].name == q[0]
                &&& leads(out[k], rest)
            };
        if k >= a.len() {
            assert(b.contains(out[k]));
            let j = choose|j: int| 0 <= j < b.len() && b[j] == out[k];
            lemma_differ_first(b, j);
            assert(leads(h, q));
        } else if occurs(b, a[k].name) {
            let j = choose|j: int| 0 <= j < b.len() && (#[trigger] b[j]).name == a[k].name;
            lemma_differ_first(a, k);
            lemma_differ_first(b, j);
            assert(same_head(out[k], a[k]));
            if leads(a[k], rest) {
                assert(leads(g, q));
            } else {
                assert(leads(h, q));
            }
        } else {
            assert(out[k] == a[k]);
            lemma_differ_first(a, k);
            assert(leads(g, q));
        }
    }
    if leads(g, q) {
        let k = choose|k: int|
            {
                &&& #[trigger] is_first(a, k)
                &&& a[k].name == q[0]
                &&& leads(a[k], rest)
            };
        assert(same_head(out[k], a[k]));
        lemma_differ_first(out, k);
        if occurs(b, a[k].name) {
            let j = choose|j: int| 0 <= j < b.len() && (#[trigger] b[j]).name == a[k].name;
            assert(a[k].name == b[j].name);
        } else {
            assert(out[k] == a[k]);
        }
        assert(leads(m, q));
    }
    if leads(h, q) {
        let j = choose|j: int|
            {
                &&& #[trigger] is_first(b, j)
                &&& b[j].name == q[0]
                &&& leads(b[j], rest)
            };
        if occurs(a, b[j].name) {
            let k = choose|k: int| 0 <= k < a.len() && (#[trigger] a[k]).name == b[j].name;
            assert(a[k].name == b[j].name);
            assert(same_head(out[k], a[k]));
            lemma_differ_first(out, k);
            assert(leads(m, q));
        } else {
            assert(b[j].name == b[j].name);
            assert(occurs(b, b[j].name));
            assert(occurs(out, b[j].name));
            let k = choose|k: int| 0 <= k < out.len() && (#[trigger] out[k]).name == b[j].name;
            if k < a.len() {
                assert(same_head(out[k], a[k]));
                assert(a[k].name == b[j].name);
            }
            assert(b.contains(out[k]));
            let l = choose|l: int| 0 <= l < b.len() && b[l] == out[k];
            lemma_differ_first(b, l);
            lemma_one_first(b, l, j);
            lemma_differ_first(out, k);
            assert(leads(m, q));
        }
    }
}

/// Whether fields are parts of the first fields of their names in a schema, each name once.
pub open spec fn are_parts(found: Seq<FieldModel>, fields: Seq<FieldModel>) -> bool {
    &&& all_differ(found)
    &&& forall|k: int|
        0 <= k < found.len() ==> part_at(
            #[trigger] found[k],
            fields,
        )
}

/// Whether one of some columns is on a path.
pub open spec fn any_on(columns: Seq<Seq<char>>, q: Seq<Seq<char>>) -> bool {
    exists|k: int| 0 <= k < columns.len() && is_on(split_dots(#[trigger] columns[k]), q)
}

proof fn lemma_any_on(columns: Seq<Seq<char>>, q: Seq<Seq<char>>)
    requires
        columns.len() > 0,
    ensures
        any_on(columns, q) <==> is_on(split_dots(columns[0]), q) || any_on(
            columns.drop_first(),
            q,
        ),
{
    let rest = columns.drop_first();
    if any_on(columns, q) && !is_on(split_dots(columns[0]), q) {
        let k = choose|k: int|
            0 <= k < columns.len() && is_on(split_dots(#[trigger] columns[k]), q);
        assert(rest[k - 1] == columns[k]);
    }
    if any_on(rest, q) {
        let k = choose|k: int| 0 <= k < rest.len() && is_on(split_dots(#[trigger] rest[k]), q);
        assert(columns[k + 1] == rest[k]);
    }
}

proof fn lemma_not_there(fields: Seq<FieldModel>, path: Seq<Seq<char>>, q: Seq<Seq<char>>)
    requires
        path.len() > 0,
        index_named(fields, path[0]) is None,
    ensures
        !(leads_in(fields, q) && is_on(path, q)),
{
    lemma_index_named(fields, path[0]);
    if leads_in(fields, q) && is_on(path, q) {
        assert(path[0] == q[0]);
        let i = choose|i: int|
            {
                &&& #[trigger] is_first(fields, i)
                &&& fields[i].name == q[0]
                &&& leads(fields[i], q.drop_first())
            };
        assert(fields[i].name != path[0]);
    }
}

#[verifier::spinoff_prover]
#[verifier::rlimit(60)]
proof fn lemma_columns(
    fields: Seq<FieldModel>,
    columns: Seq<Seq<char>>,
    found: Seq<FieldModel>,
    err_on_missing: bool,
    q: Seq<Seq<char>>,
)
    requires
        distinct(fields),
        are_parts(found, fields),
        project_columns(fields, columns, found, err_on_missing) is Ok,
        q.len() > 0,
    ensures
        ({
            let out = project_columns(fields, columns, found, err_on_missing)->Ok_0;
            &&& are_parts(out, fields)
            &&& leads_in(out, q) <==> leads_in(found, q) || (leads_in(fields, q) && any_on(
                columns,
                q,
            ))
        }),
    decreases columns.len(),
{
    if columns.len() > 0 {
        let path = split_dots(columns[0]);
        let rest = columns.drop_first();
        lemma_split_dots_nonempty(columns[0]);
        lemma_index_named(fields, path[0]);
        lemma_index_named(found, path[0]);
        lemma_any_on(columns, q);
        match index_named(fields, path[0]) {
            Some(n) => {
                let f = fields[n];
                let part = project_path(f, path.drop_first());
                assert(is_first(fields, n));
                let next = match index_named(found, path[0]) {
                    Some(i) => found.update(i, merge_field(found[i], part)->Ok_0),
                    None => found.push(part),
                };
                lemma_column_step(fields, n, path, found, next, q);
                lemma_columns(fields, rest, next, err_on_missing, q);
            },
            None => {
                lemma_not_there(fields, path, q);
                lemma_columns(fields, rest, found, err_on_missing, q);
            },
        }
    }
}

#[verifier::spinoff_prover]
#[verifier::rlimit(60)]
proof fn lemma_column_step(
    fields: Seq<FieldModel>,
    n: int,
    path: Seq<Seq<char>>,
    found: Seq<FieldModel>,
    next: Seq<FieldModel>,
    q: Seq<Seq<char>>,
)
    requires
        distinct(fields),
        are_parts(found, fields),
        q.len() > 0,
        path.len() > 0,
        is_first(fields, n),
        fields[n].name == path[0],
        match index_named(found, path[0]) {
            Some(i) => {
                &&& merge_field(found[i], project_path(fields[n], path.drop_first())) is Ok
                &&& next == found.update(
                    i,
                    merge_field(found[i], project_path(fields[n], path.drop_first()))->Ok_0,
                )
            },
            None => next == found.push(project_path(fields[n], path.drop_first())),
        },
    ensures
        are_parts(next, fields),
        leads_in(next, q) <==> leads_in(found, q) || (leads_in(fields, q) && is_on(path, q)),
{
    let f = fields[n];
    let part = project_path(f, path.drop_first());
    let rest = q.drop_first();
    assert(distinct(f.children));
    lemma_index_named(found, path[0]);
    lemma_path_part(f, path.drop_first());
    lemma_path_leads(f, path.drop_first(), rest);
    let changed = match index_named(found, path[0]) {
        Some(i) => i,
        None => found.len() as int,
    };
    // The field that changes is a part, and leads to what it led to and what is new.
    assert(is_part(next[changed], f) && (leads(next[changed], rest) <==> leads(part, rest) || (
    changed < found.len() && leads(found[changed], rest)))) by {
        match index_named(found, path[0]) {
            Some(i) => {
                let j = choose|j: int|
                    {
                        &&& #[trigger] is_first(fields, j)
                        &&& fields[j].name == found[i].name
                        &&& is_part(found[i], fields[j])
                    };
                lemma_one_first(fields, j, n);
                lemma_merged_parts(found[i], part, f, rest);
            },
            None => {},
        }
    }
    assert(next[changed].name == path[0]);
    assert forall|k: int| 0 <= k < next.len() implies part_at(
            #[trigger] next[k],
            fields,
        ) by {
        if k != changed {
            assert(next[k] == found[k]);
        }
    }
    assert(all_differ(next)) by {
        assert forall|i: int, j: int| 0 <= i < j < next.len() implies (#[trigger] next[i]).name
            != (#[trigger] next[j]).name by {
            if changed < found.len() {
                assert(found[changed].name == path[0]);
                assert(found[i].name != found[j].name);
            } else if j < found.len() {
                assert(found[i].name != found[j].name);
            } else {
                assert(found[i].name != path[0]);
            }
        }
    }
    // What it means that names lead to a field, on each side.
    if leads_in(next, q) {
        let k = choose|k: int|
            {
                &&& #[trigger] is_first(next, k)
                &&& next[k].name == q[0]
                &&& leads(next[k], rest)
            };
        if k == changed {
            if leads(part, rest) {
                assert(is_on(path, q)) by {
                    assert forall|i: int| 0 <= i < path.len() && i < q.len() implies #[trigger]
                    path[i] == q[i] by {
                        if i > 0 {
                            assert(path.drop_first()[i - 1] == rest[i - 1]);
                        }
                    }
                }
                assert(leads_in(fields, q));
            } else {
                lemma_differ_first(found, k);
                assert(leads_in(found, q));
            }
        } else {
            lemma_differ_first(found, k);
            assert(found[k] == next[k]);
            assert(leads_in(found, q));
        }
    }
    if leads_in(found, q) {
        let k = choose|k: int|
            {
                &&& #[trigger] is_first(found, k)
                &&& found[k].name == q[0]
                &&& leads(found[k], rest)
            };
        lemma_differ_first(next, k);
        if k != changed {
            assert(next[k] == found[k]);
        }
        assert(leads_in(next, q));
    }
    if leads_in(fields, q) && is_on(path, q) {
        assert(path[0] == q[0]);
        let i = choose|i: int|
            {
                &&& #[trigger] is_first(fields, i)
                &&& fields[i].name == q[0]
                &&& leads(fields[i], rest)
            };
        lemma_one_first(fields, i, n);
        assert(is_on(path.drop_first(), rest)) by {
            assert forall|k: int|
                0 <= k < path.drop_first().len() && k < rest.len() implies #[trigger]
            path.drop_first()[k] == rest[k] by {
                assert(path[k + 1] == q[k + 1]);
            }
        }
        lemma_differ_first(next, changed);
        assert(leads_in(next, q));
    }
}

/// A schema that is projected onto columns has parts of its fields, each once. Through
/// structs, names lead to a field in it exactly if they do so in the schema and one of the
/// columns is on the way or goes on from there. So every column that the schema has is
/// there, with all that is in it and above it, and nothing else.
pub proof fn projecting_onto_columns(
    fields: Seq<FieldModel>,
    columns: Seq<Seq<char>>,
    err_on_missing: bool,
    q: Seq<Seq<char>>,
)
    requires
        distinct(fields),
        project_columns(fields, columns, Seq::empty(), err_on_missing) is Ok,
        q.len() > 0,
    ensures
        ({
            let out = project_columns(fields, columns, Seq::empty(), err_on_missing)->Ok_0;
            &&& are_parts(out, fields)
            &&& leads_in(out, q) <==> leads_in(fields, q) && any_on(columns, q)
        }),
{
    lemma_columns(fields, columns, Seq::empty(), err_on_missing, q);
}

/// Whether a column is there, at its top level at least, or is the row id or row address.
pub open spec fn is_known(fields: Seq<FieldModel>, column: Seq<char>) -> bool {
    ||| occurs(fields, split_dots(column)[0])
    ||| split_dots(column)[0] == "_rowid"@
    ||| split_dots(column)[0] == "_rowaddr"@
}

/// Projecting onto columns fails where a column is not known and that is an error.
pub proof fn unknown_columns_are_errors(
    fields: Seq<FieldModel>,
    columns: Seq<Seq<char>>,
    found: Seq<FieldModel>,
    k: int,
)
    requires
        0 <= k < columns.len(),
        !is_known(fields, columns[k]),
    ensures
        project_columns(fields, columns, found, true) is Err,
    decreases columns.len(),
{
    let path = split_dots(columns[0]);
    let rest = columns.drop_first();
    lemma_index_named(fields, path[0]);
    if k > 0 {
        assert(rest[k - 1] == columns[k]);
        match index_named(fields, path[0]) {
            Some(n) => {
                let part = project_path(fields[n], path.drop_first());
                match index_named(found, path[0]) {
                    Some(i) => {
                        if merge_field(found[i], part) is Ok {
                            unknown_columns_are_errors(
                                fields,
                                rest,
                                found.update(i, merge_field(found[i], part)->Ok_0),
                                k - 1,
                            );
                        }
                    },
                    None => {
                        unknown_columns_are_errors(fields, rest, found.push(part), k - 1);
                    },
                }
            },
            None => {
                if is_known(fields, columns[0]) {
                    unknown_columns_are_errors(fields, rest, found, k - 1);
                }
            },
        }
    } else {
        assert(!occurs(fields, path[0]));
        match index_named(fields, path[0]) {
            Some(n) => {
                assert(fields[n].name == path[0]);
            },
            None => {},
        }
    }
}

/// Columns of which no two are below one top level field, nor below one that was found
/// before, can be projected onto exactly if they are known, or need not be.
#[verifier::spinoff_prover]
#[verifier::rlimit(60)]
pub proof fn known_columns_are_found(
    fields: Seq<FieldModel>,
    columns: Seq<Seq<char>>,
    found: Seq<FieldModel>,
    err_on_missing: bool,
)
    requires
        forall|i: int, j: int|
            0 <= i < j < columns.len() ==> split_dots(#[trigger] columns[i])[0] != split_dots(
                #[trigger] columns[j],
            )[0],
        forall|i: int|
            0 <= i < columns.len() ==> !occurs(found, split_dots(#[trigger] columns[i])[0]),
    ensures
        project_columns(fields, columns, found, err_on_missing) is Ok <==> !err_on_missing
            || forall|i: int| 0 <= i < columns.len() ==> is_known(fields, #[trigger] columns[i]),
    decreases columns.len(),
{
    if columns.len() > 0 {
        let path = split_dots(columns[0]);
        let rest = columns.drop_first();
        lemma_index_named(fields, path[0]);
        lemma_index_named(found, path[0]);
        assert(!occurs(found, split_dots(columns[0])[0]));
        assert(forall|k: int| 0 <= k < rest.len() ==> (#[trigger] rest[k]) == columns[k + 1]);
        assert(index_named(found, path[0]) is None) by {
            if index_named(found, path[0]) is Some {
                assert(found[index_named(found, path[0])->0].name == path[0]);
            }
        }
        let next = match index_named(fields, path[0]) {
            Some(n) => {
                assert(fields[n].name == path[0]);
                found.push(project_path(fields[n], path.drop_first()))
            },
            None => found,
        };
        assert forall|i: int| 0 <= i < rest.len() implies !occurs(
            next,
            split_dots(#[trigger] rest[i])[0],
        ) by {
            let name = split_dots(columns[i + 1])[0];
            assert(split_dots(columns[0])[0] != name);
            assert(!occurs(found, name));
            if occurs(next, name) {
                let k = choose|k: int| 0 <= k < next.len() && (#[trigger] next[k]).name == name;
                if k < found.len() {
                    assert(found[k].name == name);
                }
            }
        }
        assert forall|i: int, j: int| 0 <= i < j < rest.len() implies split_dots(
            #[trigger] rest[i],
        )[0] != split_dots(#[trigger] rest[j])[0] by {
            assert(split_dots(columns[i + 1])[0] != split_dots(columns[j + 1])[0]);
        }
        known_columns_are_found(fields, rest, next, err_on_missing);
        let known = forall|i: int|
            0 <= i < columns.len() ==> is_known(fields, #[trigger] columns[i]);
        let others = forall|i: int| 0 <= i < rest.len() ==> is_known(fields, #[trigger] rest[i]);
        assert(known <==> is_known(fields, columns[0]) && others) by {
            if known {
                assert forall|i: int| 0 <= i < rest.len() implies is_known(
                    fields,
                    #[trigger] rest[i],
                ) by {
                    assert(is_known(fields, columns[i + 1]));
                }
            }
            if is_known(fields, columns[0]) && others {
                assert forall|i: int| 0 <= i < columns.len() implies is_known(
                    fields,
                    #[trigger] columns[i],
                ) by {
                    if i > 0 {
                        assert(is_known(fields, rest[i - 1]));
                    }
                }
            }
        }
        assert(occurs(fields, path[0]) <==> index_named(fields, path[0]) is Some);
    }
}

} // verus!
