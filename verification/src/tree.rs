//! Walking and numbering the tree of fields.

use vstd::prelude::*;
use crate::field::ancestry;
use crate::field::any_dictionary;
use crate::field::assign_ids;
use crate::field::by_id;
use crate::field::clear_ids;
use crate::field::field_text;
use crate::field::fields_text;
use crate::field::find_named;
use crate::field::greatest_id;
use crate::field::lemma_children;
use crate::field::lemma_index_named;
use crate::field::lemma_pre_order_add;
use crate::field::pre_order;
use crate::field::replace_by_id;
use crate::field::resolve_from;
use crate::field::sub_field;
use crate::field::unassigned;
use crate::field::Field;
use crate::field::FieldModel;
use crate::seqs::lemma_skip_ends;
use crate::seqs::lemma_skip_step;
use crate::seqs::views;
use crate::text::concat;
use crate::text::i32_text;

verus! {

/// State for a walk over a forest that meets each field before its children.
pub struct SchemaFieldIterPreOrder<'a> {
    field_stack: Vec<&'a Field>,
}

/// Puts fields on a stack, so that the first of them comes off first.
fn push_reversed<'a>(stack: &mut Vec<&'a Field>, fields: &'a Vec<Field>)
    ensures
        views(final(stack)@).reverse() == views(fields@) + views(old(stack)@).reverse(),
{
    let ghost kept = stack@;
    let mut i: usize = fields.len();
    while i > 0
        invariant
            i <= fields@.len(),
            stack@.len() == kept.len() + fields@.len() - i,
            forall|j: int| 0 <= j < kept.len() ==> (#[trigger] stack@[j]) == kept[j],
            forall|j: int|
                kept.len() <= j < stack@.len() ==> (#[trigger] stack@[j])@ == fields@[kept.len()
                    + fields@.len() - 1 - j]@,
        decreases i,
    {
        i -= 1;
        stack.push(&fields[i]);
    }
    assert(views(stack@).reverse() =~= views(fields@) + views(kept).reverse());
}

/// Where a walk goes on after its first field.
proof fn lemma_pre_order_step(before: Seq<FieldModel>)
    requires
        before.len() > 0,
    ensures
        pre_order(before).len() > 0,
        pre_order(before)[0] == before[0],
        pre_order(before[0].children + before.drop_first()) == pre_order(before).drop_first(),
{
    lemma_pre_order_add(before[0].children, before.drop_first());
    assert(pre_order(before).drop_first() =~= pre_order(before[0].children) + pre_order(
        before.drop_first(),
    ));
}

impl<'a> SchemaFieldIterPreOrder<'a> {
    /// The fields that are still to come.
    pub closed spec fn remaining(self) -> Seq<FieldModel> {
        pre_order(views(self.field_stack@).reverse())
    }

    /// A walk over all fields.
    pub fn new(fields: &'a Vec<Field>) -> (r: Self)
        ensures
            r.remaining() == pre_order(views(fields@)),
    {
        let mut field_stack: Vec<&'a Field> = Vec::new();
        let ghost none = views(field_stack@).reverse();
        push_reversed(&mut field_stack, fields);
        assert(views(fields@) + none =~= views(fields@));
        SchemaFieldIterPreOrder { field_stack }
    }

    /// The next field of the walk.
    pub fn next(&mut self) -> (r: Option<&'a Field>)
        ensures
            match r {
                Some(f) => {
                    &&& old(self).remaining().len() > 0
                    &&& f@ == old(self).remaining()[0]
                    &&& final(self).remaining() == old(self).remaining().drop_first()
                },
                None => {
                    &&& old(self).remaining().len() == 0
                    &&& final(self).remaining().len() == 0
                },
            },
    {
        let ghost before = views(self.field_stack@).reverse();
        match self.field_stack.pop() {
            Some(next_field) => {
                proof {
                    lemma_children(*next_field);
                    assert(before[0] == next_field@);
                    assert(before.drop_first() =~= views(self.field_stack@).reverse());
                    lemma_pre_order_step(before);
                }
                push_reversed(&mut self.field_stack, &next_field.children);
                Some(next_field)
            },
            None => {
                assert(before.len() == 0);
                None
            },
        }
    }
}

/// The fields of a forest, each before its children.
pub fn walk<'a>(fields: &'a Vec<Field>) -> (r: Vec<&'a Field>)
    ensures
        views(r@) == pre_order(views(fields@)),
{
    let mut iter = SchemaFieldIterPreOrder::new(fields);
    let mut out: Vec<&'a Field> = Vec::new();
    let ghost all = pre_order(views(fields@));
    assert(views(out@) + iter.remaining() =~= all);
    loop
        invariant
            views(out@) + iter.remaining() == all,
        ensures
            views(out@) == all,
        decreases iter.remaining().len(),
    {
        let ghost left = iter.remaining();
        match iter.next() {
            Some(f) => {
                let ghost old_out = out@;
                out.push(f);
                proof {
                    assert(views(out@) =~= views(old_out).push(f@));
                    assert(views(old_out) + left =~= views(out@) + iter.remaining());
                }
            },
            None => {
                assert(views(out@) =~= all);
                break;
            },
        }
    }
    out
}

impl Field {
    /// The field that a path leads to; the path starts at position `from`.
    pub fn sub_field(&self, path: &Vec<String>, from: usize) -> (r: Option<&Field>)
        requires
            from <= path@.len(),
        ensures
            match r {
                Some(f) => sub_field(self@, views(path@).skip(from as int)) == Some(f@),
                None => sub_field(self@, views(path@).skip(from as int)) is None,
            },
        decreases path@.len() - from,
    {
        proof {
            lemma_children(*self);
        }
        if from == path.len() {
            proof {
                lemma_skip_ends(views(path@));
            }
            Some(self)
        } else {
            proof {
                lemma_skip_step(views(path@), from as int);
                assert(views(path@)[from as int] == path@[from as int]@);
                lemma_index_named(self@.children, path@[from as int]@);
            }
            match find_named(self.children.as_slice(), path[from].as_str()) {
                Some(i) => self.children[i].sub_field(path, from + 1),
                None => None,
            }
        }
    }

    /// The fields along a path, starting with this one; the path starts at
    /// position `from`.
    pub fn resolve<'a>(&'a self, path: &Vec<String>, from: usize) -> (r: Option<Vec<&'a Field>>)
        requires
            from <= path@.len(),
        ensures
            match r {
                Some(fs) => resolve_from(self@, views(path@).skip(from as int)) == Some(views(fs@)),
                None => resolve_from(self@, views(path@).skip(from as int)) is None,
            },
        decreases path@.len() - from,
    {
        proof {
            lemma_children(*self);
        }
        if from == path.len() {
            proof {
                lemma_skip_ends(views(path@));
            }
            let mut fs: Vec<&'a Field> = Vec::new();
            fs.push(self);
            assert(views(fs@) =~= seq![self@]);
            Some(fs)
        } else {
            proof {
                lemma_skip_step(views(path@), from as int);
                assert(views(path@)[from as int] == path@[from as int]@);
                lemma_index_named(self@.children, path@[from as int]@);
            }
            match find_named(self.children.as_slice(), path[from].as_str()) {
                Some(i) => match self.children[i].resolve(path, from + 1) {
                    Some(mut fs) => {
                        let ghost below = views(fs@);
                        fs.insert(0, self);
                        assert(views(fs@) =~= seq![self@] + below);
                        Some(fs)
                    },
                    None => None,
                },
                None => None,
            }
        }
    }

    /// The text of the field.
    pub fn text(&self) -> (r: String)
        ensures
            r@ == field_text(self@),
        decreases self,
    {
        proof {
            lemma_children(*self);
        }
        let a = concat("Field(id=", i32_text(self.id).as_str());
        let b = concat(concat(a.as_str(), ", name=").as_str(), self.name.as_str());
        let head = concat(concat(b.as_str(), ", type=").as_str(), self.logical_type.text().as_str());
        if self.children.len() == 0 {
            concat(head.as_str(), ")")
        } else {
            let mut out = concat(head.as_str(), ", children=[");
            let mut i: usize = 0;
            let ghost all = self@.children;
            let ghost start = out@;
            proof {
                lemma_skip_ends(all);
            }
            while i < self.children.len()
                invariant
                    i <= self.children@.len(),
                    all == views(self.children@),
                    start + fields_text(all) == out@ + fields_text(all.skip(i as int)),
                decreases self.children@.len() - i,
            {
                proof {
                    lemma_skip_step(all, i as int);
                }
                let ghost before = out@;
                out.append(self.children[i].text().as_str());
                out.append(", ");
                proof {
                    assert(before + fields_text(all.skip(i as int)) =~= out@ + fields_text(
                        all.skip(i + 1),
                    ));
                }
                i += 1;
            }
            proof {
                lemma_skip_ends(all);
                assert(out@ =~= start + fields_text(all));
            }
            concat(out.as_str(), "])")
        }
    }
}

/// Whether a field of the forest is dictionary encoded.
pub fn has_dictionary(fields: &Vec<Field>) -> (r: bool)
    ensures
        r == any_dictionary(views(fields@)),
{
    let all = walk(fields);
    let mut i: usize = 0;
    while i < all.len()
        invariant
            i <= all@.len(),
            views(all@) == pre_order(views(fields@)),
            forall|j: int| 0 <= j < i ==> !(#[trigger] views(all@)[j]).logical_type.is_dictionary(),
        decreases all@.len() - i,
    {
        assert(views(all@)[i as int] == all@[i as int]@);
        if all[i].logical_type.is_dictionary() {
            return true;
        }
        i += 1;
    }
    false
}

/// Finds the first field with an id, in pre-order.
pub fn find_by_id<'a>(fields: &'a Vec<Field>, id: i32) -> (r: Option<&'a Field>)
    ensures
        match r {
            Some(f) => by_id(views(fields@), id) == Some(f@),
            None => by_id(views(fields@), id) is None,
        },
    decreases fields,
{
    let ghost all = views(fields@);
    let mut i: usize = 0;
    proof {
        lemma_skip_ends(all);
    }
    while i < fields.len()
        invariant
            i <= fields@.len(),
            all == views(fields@),
            by_id(all, id) == by_id(all.skip(i as int), id),
        decreases fields@.len() - i,
    {
        let field = &fields[i];
        proof {
            lemma_skip_step(all, i as int);
            lemma_children(*field);
        }
        if field.id == id {
            return Some(field);
        }
        match find_by_id(&field.children, id) {
            Some(f) => {
                return Some(f);
            },
            None => {},
        }
        i += 1;
    }
    proof {
        lemma_skip_ends(all);
    }
    None
}

proof fn lemma_by_id_at(fields: Seq<FieldModel>, id: i32, i: int)
    requires
        0 <= i < fields.len(),
        forall|j: int|
            0 <= j < i ==> (#[trigger] fields[j]).id != id && by_id(fields[j].children, id) is None,
        fields[i].id == id || by_id(fields[i].children, id) is Some,
    ensures
        by_id(fields, id) == (if fields[i].id == id {
            Some(fields[i])
        } else {
            by_id(fields[i].children, id)
        }),
        forall|new: FieldModel| #[trigger]
            replace_by_id(fields, id, new) == fields.update(
                i,
                if fields[i].id == id {
                    new
                } else {
                    FieldModel {
                        children: replace_by_id(fields[i].children, id, new),
                        ..fields[i]
                    }
                },
            ),
    decreases i,
{
    if i == 0 {
        assert forall|new: FieldModel| #[trigger]
            replace_by_id(fields, id, new) == fields.update(
                i,
                if fields[i].id == id {
                    new
                } else {
                    FieldModel {
                        children: replace_by_id(fields[i].children, id, new),
                        ..fields[i]
                    }
                },
            ) by {
            assert(replace_by_id(fields, id, new) =~= fields.update(
                i,
                if fields[i].id == id {
                    new
                } else {
                    FieldModel {
                        children: replace_by_id(fields[i].children, id, new),
                        ..fields[i]
                    }
                },
            ));
        }
    } else {
        let rest = fields.drop_first();
        assert(fields[0].id != id && by_id(fields[0].children, id) is None);
        assert forall|j: int| 0 <= j < i - 1 implies (#[trigger] rest[j]).id != id && by_id(
            rest[j].children,
            id,
        ) is None by {
            assert(rest[j] == fields[j + 1]);
        }
        lemma_by_id_at(rest, id, i - 1);
        assert forall|new: FieldModel| #[trigger]
            replace_by_id(fields, id, new) == fields.update(
                i,
                if fields[i].id == id {
                    new
                } else {
                    FieldModel {
                        children: replace_by_id(fields[i].children, id, new),
                        ..fields[i]
                    }
                },
            ) by {
            assert(replace_by_id(fields, id, new) == seq![fields[0]] + replace_by_id(
                rest,
                id,
                new,
            ));
            assert(replace_by_id(fields, id, new) =~= fields.update(
                i,
                if fields[i].id == id {
                    new
                } else {
                    FieldModel {
                        children: replace_by_id(fields[i].children, id, new),
                        ..fields[i]
                    }
                },
            ));
        }
    }
}

proof fn lemma_swap_children(before: Field)
    ensures
        forall|x: Field|
            #![trigger x.model()]
            (x == Field { children: x.children, ..before }) ==> x@ == (FieldModel {
                children: views(x.children@),
                ..before@
            }),
{
    assert forall|x: Field| #![trigger x.model()] (x == Field { children: x.children, ..before })
        implies x@ == (FieldModel { children: views(x.children@), ..before@ }) by {
        lemma_children(x);
    }
}

/// Finds the first field with an id, in pre-order, to change it in place.
pub fn find_by_id_mut<'a>(fields: &'a mut Vec<Field>, id: i32) -> (r: Option<&'a mut Field>)
    ensures
        match r {
            Some(f) => {
                &&& by_id(views(old(fields)@), id) == Some(f@)
                &&& views(final(fields)@) == replace_by_id(views(old(fields)@), id, final(f)@)
            },
            None => {
                &&& by_id(views(old(fields)@), id) is None
                &&& views(final(fields)@) == views(old(fields)@)
            },
        },
    decreases *old(fields),
{
    let ghost all = views(fields@);
    let ghost before = fields@;
    let mut i: usize = 0;
    let mut own: bool = false;
    let mut found: bool = false;
    while i < fields.len() && !found
        invariant
            i <= fields@.len(),
            fields@ == before,
            all == views(fields@),
            *fields == *old(fields),
            forall|j: int|
                0 <= j < i ==> (#[trigger] all[j]).id != id && by_id(all[j].children, id) is None,
            found ==> i < fields@.len() && own == (all[i as int].id == id) && (own || by_id(
                all[i as int].children,
                id,
            ) is Some),
        decreases fields@.len() - i + (if found {
            0int
        } else {
            1int
        }),
    {
        proof {
            lemma_children(fields@[i as int]);
            assert(all[i as int] == fields@[i as int]@);
        }
        if fields[i].id == id {
            own = true;
            found = true;
        } else if find_by_id(&fields[i].children, id).is_some() {
            own = false;
            found = true;
        } else {
            i += 1;
        }
    }
    if found {
        proof {
            lemma_by_id_at(all, id, i as int);
            lemma_children(before[i as int]);
            lemma_swap_children(before[i as int]);
            assert forall|x: Seq<Field>, g: Field|
                #![trigger views(x), g.model()]
                x == before.update(i as int, g) implies views(x) == all.update(i as int, g@) by {
                assert(views(x) =~= all.update(i as int, g@));
            }
        }
        if own {
            Some(&mut fields[i])
        } else {
            find_by_id_mut(&mut fields[i].children, id)
        }
    } else {
        proof {
            lemma_no_id(all, id);
        }
        None
    }
}

proof fn lemma_no_id(fields: Seq<FieldModel>, id: i32)
    requires
        forall|j: int|
            0 <= j < fields.len() ==> (#[trigger] fields[j]).id != id && by_id(
                fields[j].children,
                id,
            ) is None,
    ensures
        by_id(fields, id) is None,
    decreases fields.len(),
{
    if fields.len() > 0 {
        let rest = fields.drop_first();
        assert(fields[0].id != id && by_id(fields[0].children, id) is None);
        assert forall|j: int| 0 <= j < rest.len() implies (#[trigger] rest[j]).id != id && by_id(
            rest[j].children,
            id,
        ) is None by {
            assert(rest[j] == fields[j + 1]);
        }
        lemma_no_id(rest, id);
    }
}

/// Finds the fields from the root to the field with an id.
pub fn find_ancestry<'a>(fields: &'a Vec<Field>, id: i32) -> (r: Option<Vec<&'a Field>>)
    ensures
        match r {
            Some(path) => ancestry(views(fields@), id) == Some(views(path@)),
            None => ancestry(views(fields@), id) is None,
        },
    decreases fields,
{
    let ghost all = views(fields@);
    let mut i: usize = fields.len();
    assert(all.take(all.len() as int) =~= all);
    while i > 0
        invariant
            i <= fields@.len(),
            all == views(fields@),
            ancestry(all, id) == ancestry(all.take(i as int), id),
        decreases i,
    {
        i -= 1;
        let field = &fields[i];
        proof {
            lemma_children(*field);
            assert(all.take(i + 1).last() == field@);
            assert(all.take(i + 1).drop_last() =~= all.take(i as int));
        }
        if field.id == id {
            let mut path: Vec<&'a Field> = Vec::new();
            path.push(field);
            assert(views(path@) =~= seq![field@]);
            return Some(path);
        }
        match find_ancestry(&field.children, id) {
            Some(mut path) => {
                let ghost below = views(path@);
                path.insert(0, field);
                assert(views(path@) =~= seq![field@] + below);
                return Some(path);
            },
            None => {},
        }
    }
    None
}

/// No id is greater than the greatest, and the greatest is at least -1.
pub proof fn lemma_greatest_id(fields: Seq<FieldModel>)
    ensures
        greatest_id(fields) >= -1,
        forall|i: int|
            0 <= i < pre_order(fields).len() ==> (#[trigger] pre_order(fields)[i]).id
                <= greatest_id(fields),
    decreases fields,
{
    if fields.len() > 0 {
        let below = pre_order(fields[0].children);
        let rest = pre_order(fields.drop_first());
        lemma_greatest_id(fields[0].children);
        lemma_greatest_id(fields.drop_first());
        assert forall|i: int| 0 <= i < pre_order(fields).len() implies (
        #[trigger] pre_order(fields)[i]).id <= greatest_id(fields) by {
            if 1 <= i < 1 + below.len() {
                assert(pre_order(fields)[i] == below[i - 1]);
            } else if 1 + below.len() <= i {
                assert(pre_order(fields)[i] == rest[i - 1 - below.len()]);
            }
        }
    }
}

/// The greatest id in a forest, at least -1.
pub fn max_id(fields: &Vec<Field>) -> (r: i32)
    ensures
        r == greatest_id(views(fields@)),
    decreases fields,
{
    let ghost all = views(fields@);
    let mut max: i32 = -1;
    let mut i: usize = 0;
    proof {
        lemma_skip_ends(all);
        lemma_greatest_id(all);
    }
    while i < fields.len()
        invariant
            i <= fields@.len(),
            all == views(fields@),
            max >= -1,
            greatest_id(all) == (if max >= greatest_id(all.skip(i as int)) {
                max as int
            } else {
                greatest_id(all.skip(i as int))
            }),
        decreases fields@.len() - i,
    {
        let field = &fields[i];
        proof {
            lemma_skip_step(all, i as int);
            lemma_children(*field);
        }
        let below: i32 = max_id(&field.children);
        if field.id > max {
            max = field.id;
        }
        if below > max {
            max = below;
        }
        i += 1;
    }
    proof {
        lemma_skip_ends(all);
    }
    max
}

/// Gives an id to every field that has none; also returns the next free id.
pub fn with_ids(fields: &Vec<Field>, parent_id: i32, next: i64) -> (r: (Vec<Field>, i64))
    requires
        0 <= next,
        next + unassigned(views(fields@)) <= i32::MAX + 1,
    ensures
        views(r.0@) == assign_ids(views(fields@), parent_id, next as int),
        r.1 == next + unassigned(views(fields@)),
    decreases fields,
{
    let ghost all = views(fields@);
    let mut out: Vec<Field> = Vec::new();
    let mut free: i64 = next;
    let mut i: usize = 0;
    proof {
        lemma_skip_ends(all);
        assert(views(out@) + assign_ids(all, parent_id, next as int) =~= assign_ids(
            all,
            parent_id,
            next as int,
        ));
    }
    while i < fields.len()
        invariant
            i <= fields@.len(),
            all == views(fields@),
            next + unassigned(all) == free + unassigned(all.skip(i as int)),
            0 <= free,
            next + unassigned(all) <= i32::MAX + 1,
            assign_ids(all, parent_id, next as int) == views(out@) + assign_ids(
                all.skip(i as int),
                parent_id,
                free as int,
            ),
        decreases fields@.len() - i,
    {
        let field = &fields[i];
        proof {
            lemma_skip_step(all, i as int);
            lemma_children(*field);
        }
        let mut id: i32 = field.id;
        if field.id < 0 {
            id = free as i32;
            free = free + 1;
        }
        let ghost after = free;
        let (children, then): (Vec<Field>, i64) = with_ids(&field.children, id, free);
        free = then;
        let new_field = Field {
            name: field.name.clone(),
            id,
            parent_id,
            logical_type: field.logical_type.clone(),
            metadata: field.metadata.clone(),
            nullable: field.nullable,
            children,
            dictionary: field.dictionary,
            storage_class: field.storage_class,
            unenforced_primary_key: field.unenforced_primary_key,
        };
        let ghost old_out = out@;
        proof {
            lemma_children(new_field);
        }
        out.push(new_field);
        proof {
            assert(views(out@) =~= views(old_out).push(new_field@));
            assert(new_field@ == (FieldModel {
                id,
                parent_id,
                children: assign_ids(field@.children, id, after as int),
                ..field@
            }));
            assert(assign_ids(all, parent_id, next as int) =~= views(out@) + assign_ids(
                all.skip(i + 1),
                parent_id,
                free as int,
            ));
        }
        i += 1;
    }
    proof {
        lemma_skip_ends(all);
        assert(assign_ids(all, parent_id, next as int) =~= views(out@));
    }
    (out, free)
}

/// Takes the ids of all fields away.
pub fn without_ids(fields: &Vec<Field>) -> (r: Vec<Field>)
    ensures
        views(r@) == clear_ids(views(fields@)),
    decreases fields,
{
    let ghost all = views(fields@);
    let mut out: Vec<Field> = Vec::new();
    let mut i: usize = 0;
    proof {
        lemma_skip_ends(all);
        assert(views(out@) + clear_ids(all) =~= clear_ids(all));
    }
    while i < fields.len()
        invariant
            i <= fields@.len(),
            all == views(fields@),
            clear_ids(all) == views(out@) + clear_ids(all.skip(i as int)),
        decreases fields@.len() - i,
    {
        let field = &fields[i];
        proof {
            lemma_skip_step(all, i as int);
            lemma_children(*field);
        }
        let new_field = Field {
            name: field.name.clone(),
            id: -1,
            parent_id: field.parent_id,
            logical_type: field.logical_type.clone(),
            metadata: field.metadata.clone(),
            nullable: field.nullable,
            children: without_ids(&field.children),
            dictionary: field.dictionary,
            storage_class: field.storage_class,
            unenforced_primary_key: field.unenforced_primary_key,
        };
        let ghost old_out = out@;
        proof {
            lemma_children(new_field);
        }
        out.push(new_field);
        proof {
            assert(views(out@) =~= views(old_out).push(new_field@));
            assert(clear_ids(all) =~= views(out@) + clear_ids(all.skip(i + 1)));
        }
        i += 1;
    }
    proof {
        lemma_skip_ends(all);
        assert(clear_ids(all) =~= views(out@));
    }
    out
}

} // verus!
