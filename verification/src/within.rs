//! Which ids a projected schema can have.

use vstd::prelude::*;
use crate::field::by_id;
use crate::field::ids_of;
use crate::field::index_named;
use crate::field::lemma_index_named;
use crate::field::named;
use crate::field::pre_order;
use crate::field::sub_field;
use crate::field::FieldModel;
use crate::field_ops::project_onto;
use crate::field_ops::project_onto_all;
use crate::field_ops::OnTypeMismatch;
use crate::schema::lookup;
use crate::schema_ops::project_schema;
use crate::schema_ops::OnMissing;
use crate::text::split_dots;

verus! {

/// Whether a field of a forest has an id.
pub open spec fn has_id(fields: Seq<FieldModel>, id: i32) -> bool {
    by_id(fields, id) is Some
}

/// A lookup by id finds a field exactly where the id is one of the forest, and
/// finds the first of that id in pre-order.
pub proof fn lemma_has_id(fields: Seq<FieldModel>, id: i32)
    ensures
        has_id(fields, id) <==> ids_of(pre_order(fields)).contains(id),
        match by_id(fields, id) {
            Some(f) => exists|i: int|
                {
                    &&& 0 <= i < pre_order(fields).len()
                    &&& #[trigger] pre_order(fields)[i] == f
                    &&& f.id == id
                    &&& forall|j: int| 0 <= j < i ==> (#[trigger] pre_order(fields)[j]).id != id
                },
            None => true,
        },
    decreases fields,
{
    let all = pre_order(fields);
    if fields.len() == 0 {
        assert(!ids_of(all).contains(id));
    } else {
        let below = pre_order(fields[0].children);
        let rest = pre_order(fields.drop_first());
        lemma_has_id(fields[0].children, id);
        lemma_has_id(fields.drop_first(), id);
        assert(all =~= seq![fields[0]] + below + rest);
        assert(forall|i: int| 0 <= i < below.len() ==> all[i + 1] == #[trigger] below[i]);
        assert(forall|i: int|
            0 <= i < rest.len() ==> all[i + 1 + below.len()] == #[trigger] rest[i]);
        if fields[0].id == id {
            assert(all[0] == fields[0]);
            assert(ids_of(all)[0] == id);
        } else if has_id(fields[0].children, id) {
            let f = by_id(fields[0].children, id)->0;
            let i = choose|i: int|
                {
                    &&& 0 <= i < below.len()
                    &&& #[trigger] below[i] == f
                    &&& f.id == id
                    &&& forall|j: int| 0 <= j < i ==> (#[trigger] below[j]).id != id
                };
            assert(all[i + 1] == f);
            assert(ids_of(all)[i + 1] == id);
            assert forall|j: int| 0 <= j < i + 1 implies (#[trigger] all[j]).id != id by {
                if j > 0 {
                    assert(all[j] == below[j - 1]);
                }
            }
        } else {
            assert forall|i: int| 0 <= i < below.len() implies (#[trigger] below[i]).id != id by {
                assert(ids_of(below)[i] == below[i].id);
                assert(!ids_of(below).contains(id));
            }
            if has_id(fields.drop_first(), id) {
                let f = by_id(fields.drop_first(), id)->0;
                let i = choose|i: int|
                    {
                        &&& 0 <= i < rest.len()
                        &&& #[trigger] rest[i] == f
                        &&& f.id == id
                        &&& forall|j: int| 0 <= j < i ==> (#[trigger] rest[j]).id != id
                    };
                let k = i + 1 + below.len();
                assert(all[k] == f);
                assert(ids_of(all)[k] == id);
                assert forall|j: int| 0 <= j < k implies (#[trigger] all[j]).id != id by {
                    if 0 < j < 1 + below.len() {
                        assert(all[j] == below[j - 1]);
                    } else if j >= 1 + below.len() {
                        assert(all[j] == rest[j - 1 - below.len()]);
                    }
                }
            } else {
                assert forall|j: int| 0 <= j < all.len() implies (#[trigger] all[j]).id != id by {
                    if 0 < j < 1 + below.len() {
                        assert(all[j] == below[j - 1]);
                    } else if j >= 1 + below.len() {
                        let m = j - 1 - below.len();
                        assert(all[j] == rest[m]);
                        assert(ids_of(rest)[m] == rest[m].id);
                        assert(!ids_of(rest).contains(id));
                    }
                }
                assert(!ids_of(all).contains(id));
            }
        }
    }
}

/// Whether all ids of one forest are ids of another.
pub open spec fn ids_within(a: Seq<FieldModel>, b: Seq<FieldModel>) -> bool {
    forall|id: i32| #[trigger] has_id(a, id) ==> has_id(b, id)
}

proof fn lemma_single(f: FieldModel, id: i32)
    ensures
        has_id(seq![f], id) <==> f.id == id || has_id(f.children, id),
{
    assert(seq![f][0] == f);
    assert(seq![f].drop_first() =~= Seq::<FieldModel>::empty());
    assert(by_id(Seq::<FieldModel>::empty(), id) is None);
}

proof fn lemma_front(f: FieldModel, rest: Seq<FieldModel>, id: i32)
    ensures
        has_id(seq![f] + rest, id) <==> has_id(seq![f], id) || has_id(rest, id),
{
    lemma_single(f, id);
    assert((seq![f] + rest)[0] == f);
    assert((seq![f] + rest).drop_first() =~= rest);
}

/// The ids of a field of a list are ids of the list.
pub proof fn lemma_member(fields: Seq<FieldModel>, i: int)
    requires
        0 <= i < fields.len(),
    ensures
        ids_within(seq![fields[i]], fields),
    decreases fields.len(),
{
    assert forall|id: i32| #[trigger] has_id(seq![fields[i]], id) implies has_id(fields, id) by {
        lemma_single(fields[i], id);
        if i > 0 {
            lemma_member(fields.drop_first(), i - 1);
            assert(fields.drop_first()[i - 1] == fields[i]);
            assert(has_id(fields.drop_first(), id));
        }
    }
}

proof fn lemma_sub_field(f: FieldModel, path: Seq<Seq<char>>)
    requires
        sub_field(f, path) is Some,
    ensures
        ids_within(seq![sub_field(f, path)->0], seq![f]),
    decreases path.len(),
{
    if path.len() > 0 {
        lemma_index_named(f.children, path[0]);
        let c = named(f.children, path[0])->0;
        let g = sub_field(f, path)->0;
        lemma_sub_field(c, path.drop_first());
        lemma_member(f.children, index_named(f.children, path[0])->0);
        assert forall|id: i32| #[trigger] has_id(seq![g], id) implies has_id(seq![f], id) by {
            assert(has_id(seq![c], id));
            assert(has_id(f.children, id));
            lemma_single(f, id);
        }
    }
}

/// The ids of a field that is found by name are ids of the schema.
pub proof fn lemma_lookup(fields: Seq<FieldModel>, name: Seq<char>)
    requires
        lookup(fields, name) is Some,
    ensures
        ids_within(seq![lookup(fields, name)->0], fields),
{
    let path = split_dots(name);
    lemma_index_named(fields, path[0]);
    let f = named(fields, path[0])->0;
    let g = lookup(fields, name)->0;
    lemma_sub_field(f, path.drop_first());
    lemma_member(fields, index_named(fields, path[0])->0);
    assert forall|id: i32| #[trigger] has_id(seq![g], id) implies has_id(fields, id) by {
        assert(has_id(seq![f], id));
    }
}

proof fn lemma_project_onto(a: FieldModel, b: FieldModel, policy: OnTypeMismatch)
    requires
        project_onto(a, b, policy) is Ok,
    ensures
        ids_within(seq![project_onto(a, b, policy)->Ok_0], seq![a]),
    decreases b,
{
    let (s, t) = (a.logical_type, b.logical_type);
    let m = project_onto(a, b, policy)->Ok_0;
    if s.is_struct() && t.is_struct() {
        lemma_project_onto_all(a, b.children, policy);
        assert forall|id: i32| #[trigger] has_id(seq![m], id) implies has_id(seq![a], id) by {
            lemma_single(m, id);
            lemma_single(a, id);
        }
    } else if ((s.is_list() && t.is_list()) || (s.is_large_list() && t.is_large_list()))
        && a.children.len() > 0 && b.children.len() > 0 {
        lemma_project_onto(a.children[0], b.children[0], policy);
        lemma_member(a.children, 0);
        assert forall|id: i32| #[trigger] has_id(seq![m], id) implies has_id(seq![a], id) by {
            lemma_single(m, id);
            lemma_single(a, id);
            if has_id(m.children, id) {
                assert(has_id(seq![a.children[0]], id));
            }
        }
    }
}

proof fn lemma_project_onto_all(a: FieldModel, onto: Seq<FieldModel>, policy: OnTypeMismatch)
    requires
        project_onto_all(a, onto, policy) is Ok,
    ensures
        ids_within(project_onto_all(a, onto, policy)->Ok_0, a.children),
    decreases onto,
{
    let all = project_onto_all(a, onto, policy)->Ok_0;
    if onto.len() > 0 {
        lemma_index_named(a.children, onto[0].name);
        let c = named(a.children, onto[0].name)->0;
        let f = project_onto(c, onto[0], policy)->Ok_0;
        let rest = project_onto_all(a, onto.drop_first(), policy)->Ok_0;
        lemma_project_onto(c, onto[0], policy);
        lemma_project_onto_all(a, onto.drop_first(), policy);
        lemma_member(a.children, index_named(a.children, onto[0].name)->0);
        assert forall|id: i32| #[trigger] has_id(all, id) implies has_id(a.children, id) by {
            lemma_front(f, rest, id);
            if has_id(seq![f], id) {
                assert(has_id(seq![c], id));
            }
        }
    }
}

/// A schema that is projected by another one has only ids of its own.
pub proof fn projection_within(
    fields: Seq<FieldModel>,
    onto: Seq<FieldModel>,
    on_missing: OnMissing,
    policy: OnTypeMismatch,
)
    requires
        project_schema(fields, onto, on_missing, policy) is Ok,
    ensures
        ids_within(project_schema(fields, onto, on_missing, policy)->Ok_0, fields),
    decreases onto.len(),
{
    let all = project_schema(fields, onto, on_missing, policy)->Ok_0;
    if onto.len() > 0 {
        projection_within(fields, onto.drop_first(), on_missing, policy);
        let rest = project_schema(fields, onto.drop_first(), on_missing, policy)->Ok_0;
        match lookup(fields, onto[0].name) {
            Some(f) => {
                let m = project_onto(f, onto[0], policy)->Ok_0;
                lemma_lookup(fields, onto[0].name);
                lemma_project_onto(f, onto[0], policy);
                assert forall|id: i32| #[trigger] has_id(all, id) implies has_id(fields, id) by {
                    lemma_front(m, rest, id);
                    if has_id(seq![m], id) {
                        assert(has_id(seq![f], id));
                    }
                }
            },
            None => {},
        }
    }
}

} // verus!
