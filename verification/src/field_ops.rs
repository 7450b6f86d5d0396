//! Cutting fields down and putting them together.

use vstd::prelude::*;
use crate::error::outcome;
use crate::error::Error;
use crate::error::ErrorModel;
use crate::field::clone_fields;
use crate::field::field_text;
use crate::field::find_named;
use crate::field::index_named;
use crate::field::lemma_children;
use crate::field::lemma_index_named;
use crate::field::named;
use crate::field::Field;
use crate::field::FieldModel;
use crate::seqs::lemma_skip_ends;
use crate::seqs::lemma_skip_step;
use crate::seqs::lemma_views_push;
use crate::seqs::opt_view;
use crate::seqs::views;
use crate::text::concat4;

verus! {

/// What to do when a field is projected by one of another type.
#[derive(Debug, Clone, Copy, PartialEq, Eq, Structural)]
pub enum OnTypeMismatch {
    /// Fail.
    Error,
    /// Keep the field as it is.
    TakeSelf,
}

/// The field with only the part that a path leads to; with all of it where the
/// path is empty.
pub open spec fn project_path(f: FieldModel, path: Seq<Seq<char>>) -> FieldModel
    decreases path.len(),
{
    if path.len() == 0 {
        f
    } else {
        FieldModel {
            children: match named(f.children, path[0]) {
                Some(c) => seq![project_path(c, path.drop_first())],
                None => Seq::empty(),
            },
            ..f
        }
    }
}

/// An error about two things.
pub open spec fn clash(start: Seq<char>, a: Seq<char>, b: Seq<char>) -> ErrorModel {
    ErrorModel::Schema { message: start + a + " and "@ + b }
}

fn clash_error(start: &str, a: &str, b: &str) -> (r: Error)
    ensures
        r@ == clash(start@, a@, b@),
{
    Error::Schema { message: concat4(start, a, " and ", b) }
}

/// Field `a` with what `b` has more. Structs are merged child by child, lists by
/// their item. Of lists of one fixed size `a` stays; other fields must have the same
/// type.
pub open spec fn merge_field(a: FieldModel, b: FieldModel) -> Result<FieldModel, ErrorModel>
    decreases b,
{
    let (s, t) = (a.logical_type, b.logical_type);
    if s.is_struct() && t.is_struct() {
        match merge_children(a.children, b.children) {
            Ok(children) => Ok(FieldModel { children, ..a }),
            Err(e) => Err(e),
        }
    } else if ((s.is_list() && t.is_list()) || (s.is_large_list() && t.is_large_list()))
        && a.children.len() > 0 && b.children.len() > 0 {
        match merge_field(a.children[0], b.children[0]) {
            Ok(item) => Ok(FieldModel { children: a.children.update(0, item), ..a }),
            Err(e) => Err(e),
        }
    } else if (s == t && !s.is_nested()) || s.same_list_size(t) {
        Ok(a)
    } else {
        Err(clash("Attempt to merge incompatible fields: "@, field_text(a), field_text(b)))
    }
}

/// The fields of `a`, each merged with those of its name in `b`, then the fields
/// of `b` with a name that `a` does not have.
pub open spec fn merge_children(a: Seq<FieldModel>, b: Seq<FieldModel>) -> Result<
    Seq<FieldModel>,
    ErrorModel,
>
    decreases b,
{
    if b.len() == 0 {
        Ok(a)
    } else {
        match index_named(a, b[0].name) {
            Some(i) => match merge_field(a[i], b[0]) {
                Ok(m) => merge_children(a.update(i, m), b.drop_first()),
                Err(e) => Err(e),
            },
            None => merge_children(a.push(b[0]), b.drop_first()),
        }
    }
}

/// What two fields of one name have in common.
pub open spec fn intersect_field(a: FieldModel, b: FieldModel, ignore_types: bool) -> Result<
    FieldModel,
    ErrorModel,
>
    decreases a,
{
    let (s, t) = (a.logical_type, b.logical_type);
    if a.name != b.name {
        Err(clash("Attempt to intersect different fields: "@, a.name, b.name))
    } else if (s.is_struct() && t.is_struct()) || (s.is_list() && t.is_list()) || (
    s.is_large_list() && t.is_large_list()) {
        Ok(
            FieldModel {
                id: if a.id >= 0 {
                    a.id
                } else {
                    b.id
                },
                children: intersect_children(a.children, b.children, ignore_types),
                ..a
            },
        )
    } else if !ignore_types && s != t {
        Err(clash("Attempt to intersect different fields: "@, field_text(a), field_text(b)))
    } else if a.id >= 0 {
        Ok(a)
    } else {
        Ok(b)
    }
}

/// The fields of `a` that have something in common with their namesake in `b`.
pub open spec fn intersect_children(
    a: Seq<FieldModel>,
    b: Seq<FieldModel>,
    ignore_types: bool,
) -> Seq<FieldModel>
    decreases a,
{
    if a.len() == 0 {
        Seq::empty()
    } else {
        let rest = intersect_children(a.drop_first(), b, ignore_types);
        match named(b, a[0].name) {
            Some(c) => match intersect_field(a[0], c, ignore_types) {
                Ok(m) => seq![m] + rest,
                Err(_) => rest,
            },
            None => rest,
        }
    }
}

/// What a selection of ids leaves of a field. Where `whole` is set, a field whose
/// id is selected stays with everything below it. Otherwise it stays with those
/// children that are selected themselves, or have a selected descendant.
pub open spec fn select_field(f: FieldModel, ids: Set<i32>, whole: bool) -> Option<FieldModel>
    decreases f,
{
    if whole && ids.contains(f.id) {
        Some(f)
    } else {
        let children = select_fields(f.children, ids, whole);
        if ids.contains(f.id) || children.len() > 0 {
            Some(FieldModel { children, ..f })
        } else {
            None
        }
    }
}

/// What a selection of ids leaves of a list of fields.
pub open spec fn select_fields(fields: Seq<FieldModel>, ids: Set<i32>, whole: bool) -> Seq<
    FieldModel,
>
    decreases fields,
{
    if fields.len() == 0 {
        Seq::empty()
    } else {
        let rest = select_fields(fields.drop_first(), ids, whole);
        match select_field(fields[0], ids, whole) {
            Some(f) => seq![f] + rest,
            None => rest,
        }
    }
}

/// The part of field `a` that field `b` names, with everything else as in `a`.
pub open spec fn project_onto(a: FieldModel, b: FieldModel, policy: OnTypeMismatch) -> Result<
    FieldModel,
    ErrorModel,
>
    decreases b,
{
    let (s, t) = (a.logical_type, b.logical_type);
    if a.name != b.name {
        Err(clash("Attempt to project field by different names: "@, a.name, b.name))
    } else if s.is_struct() && t.is_struct() {
        match project_onto_all(a, b.children, policy) {
            Ok(children) => Ok(FieldModel { children, ..a }),
            Err(e) => Err(e),
        }
    } else if ((s.is_list() && t.is_list()) || (s.is_large_list() && t.is_large_list()))
        && a.children.len() > 0 && b.children.len() > 0 {
        match project_onto(a.children[0], b.children[0], policy) {
            Ok(item) => Ok(FieldModel { children: seq![item], ..a }),
            Err(e) => Err(e),
        }
    } else if s == t && !s.is_nested() {
        Ok(a)
    } else if (s.is_primitive() && t.is_primitive()) || (s.is_binary_like()
        && t.is_binary_like()) {
        Err(clash("Attempt to project field by different types: "@, s.text(), t.text()))
    } else if policy == OnTypeMismatch::TakeSelf {
        Ok(a)
    } else {
        Err(clash("Attempt to project incompatible fields: "@, field_text(a), field_text(b)))
    }
}

/// The children of `a` that a list of fields names, in the order of that list.
pub open spec fn project_onto_all(
    a: FieldModel,
    onto: Seq<FieldModel>,
    policy: OnTypeMismatch,
) -> Result<Seq<FieldModel>, ErrorModel>
    decreases onto,
{
    if onto.len() == 0 {
        Ok(Seq::empty())
    } else {
        match named(a.children, onto[0].name) {
            Some(c) => match project_onto(c, onto[0], policy) {
                Ok(f) => match project_onto_all(a, onto.drop_first(), policy) {
                    Ok(rest) => Ok(seq![f] + rest),
                    Err(e) => Err(e),
                },
                Err(e) => Err(e),
            },
            None => Err(
                ErrorModel::Schema {
                    message: "Attempt to project non-existed field: "@ + onto[0].name + " on "@
                        + field_text(a),
                },
            ),
        }
    }
}

/// What is left of a field when another of its name is taken out of it: of a
/// struct, the children that are left; of any other field, nothing.
pub open spec fn exclude_field(a: FieldModel, b: FieldModel) -> Option<FieldModel>
    decreases a,
{
    if !a.logical_type.is_struct() {
        None
    } else {
        let children = exclude_fields(a.children, b.children);
        if children.len() == 0 {
            None
        } else {
            Some(FieldModel { children, ..a })
        }
    }
}

/// What is left of a list of fields when another is taken out of it.
pub open spec fn exclude_fields(a: Seq<FieldModel>, b: Seq<FieldModel>) -> Seq<FieldModel>
    decreases a,
{
    if a.len() == 0 {
        Seq::empty()
    } else {
        let rest = exclude_fields(a.drop_first(), b);
        match named(b, a[0].name) {
            Some(c) => match exclude_field(a[0], c) {
                Some(f) => seq![f] + rest,
                None => rest,
            },
            None => seq![a[0]] + rest,
        }
    }
}

/// Replacing a child of a field replaces it in the model.
proof fn lemma_replace_child(before: Field, k: int)
    requires
        0 <= k < before.children@.len(),
    ensures
        before@.children[k] == before.children@[k]@,
        forall|x: Field, g: Field|
            #![trigger x.model(), g.model()]
            x == (Field { children: x.children, ..before }) && x.children@
                == before.children@.update(k, g) ==> x@ == (FieldModel {
                children: before@.children.update(k, g@),
                ..before@
            }),
{
    lemma_children(before);
    assert forall|x: Field, g: Field|
        #![trigger x.model(), g.model()]
        x == (Field { children: x.children, ..before }) && x.children@ == before.children@.update(
            k,
            g,
        ) implies x@ == (FieldModel {
        children: before@.children.update(k, g@),
        ..before@
    }) by {
        lemma_children(x);
        assert(views(x.children@) =~= before@.children.update(k, g@));
    }
}

impl Field {
    /// The field with other children.
    pub fn with_children(&self, children: Vec<Field>) -> (r: Field)
        ensures
            r@ == (FieldModel { children: views(children@), ..self@ }),
    {
        let r = Field {
            name: self.name.clone(),
            id: self.id,
            parent_id: self.parent_id,
            logical_type: self.logical_type.clone(),
            metadata: self.metadata.clone(),
            nullable: self.nullable,
            children,
            dictionary: self.dictionary,
            storage_class: self.storage_class,
            unenforced_primary_key: self.unenforced_primary_key,
        };
        proof {
            lemma_children(r);
        }
        r
    }

    /// The first child of a name.
    pub fn child(&self, name: &str) -> (r: Option<&Field>)
        ensures
            match r {
                Some(c) => named(self@.children, name@) == Some(c@),
                None => named(self@.children, name@) is None,
            },
    {
        proof {
            lemma_children(*self);
            lemma_index_named(self@.children, name@);
        }
        match find_named(self.children.as_slice(), name) {
            Some(i) => {
                assert(self@.children[i as int] == self.children@[i as int]@);
                Some(&self.children[i])
            },
            None => None,
        }
    }

    /// The first child of a name, to change it in place.
    pub fn child_mut(&mut self, name: &str) -> (r: Option<&mut Field>)
        ensures
            match r {
                Some(c) => {
                    let i = index_named(old(self)@.children, name@);
                    &&& i is Some
                    &&& c@ == old(self)@.children[i->0]
                    &&& final(self)@ == (FieldModel {
                        children: old(self)@.children.update(i->0, final(c)@),
                        ..old(self)@
                    })
                },
                None => {
                    &&& index_named(old(self)@.children, name@) is None
                    &&& final(self)@ == old(self)@
                },
            },
    {
        let ghost before = *self;
        proof {
            lemma_children(*self);
            lemma_index_named(self@.children, name@);
        }
        match find_named(self.children.as_slice(), name) {
            Some(i) => {
                proof {
                    lemma_replace_child(before, i as int);
                }
                Some(&mut self.children[i])
            },
            None => None,
        }
    }

    /// The part of the field that a path leads to; the path starts at position
    /// `from`.
    pub fn project(&self, path: &Vec<String>, from: usize) -> (r: Field)
        requires
            from <= path@.len(),
        ensures
            r@ == project_path(self@, views(path@).skip(from as int)),
        decreases path@.len() - from,
    {
        if from == path.len() {
            proof {
                lemma_skip_ends(views(path@));
            }
            self.clone()
        } else {
            proof {
                lemma_skip_step(views(path@), from as int);
                assert(views(path@)[from as int] == path@[from as int]@);
            }
            let mut children: Vec<Field> = Vec::new();
            match self.child(path[from].as_str()) {
                Some(c) => {
                    let projected = c.project(path, from + 1);
                    children.push(projected);
                    assert(views(children@) =~= seq![projected@]);
                },
                None => {
                    assert(views(children@) =~= Seq::<FieldModel>::empty());
                },
            }
            self.with_children(children)
        }
    }

    /// Merges another field into this one.
    pub fn merge(&self, other: &Field) -> (r: Result<Field, Error>)
        ensures
            outcome(r) == merge_field(self@, other@),
        decreases other,
    {
        proof {
            lemma_children(*self);
            lemma_children(*other);
        }
        if self.logical_type.is_struct() && other.logical_type.is_struct() {
            let ghost ours = self@.children;
            let ghost theirs = other@.children;
            let mut children = clone_fields(&self.children);
            let mut i: usize = 0;
            proof {
                lemma_skip_ends(theirs);
            }
            while i < other.children.len()
                invariant
                    i <= other.children@.len(),
                    theirs == views(other.children@),
                    merge_children(ours, theirs) == merge_children(
                        views(children@),
                        theirs.skip(i as int),
                    ),
                    ours == self@.children,
                    theirs == other@.children,
                    self@.logical_type.is_struct(),
                    other@.logical_type.is_struct(),
                decreases other.children@.len() - i,
            {
                let theirs_i = &other.children[i];
                proof {
                    lemma_skip_step(theirs, i as int);
                    lemma_index_named(views(children@), theirs_i@.name);
                }
                match find_named(children.as_slice(), theirs_i.name.as_str()) {
                    Some(k) => match children[k].merge(theirs_i) {
                        Ok(merged) => {
                            let ghost before = children@;
                            children.set(k, merged);
                            assert(views(children@) =~= views(before).update(k as int, merged@));
                        },
                        Err(e) => {
                            return Err(e);
                        },
                    },
                    None => {
                        let copy = theirs_i.clone();
                        proof {
                            lemma_views_push(children@, copy);
                        }
                        children.push(copy);
                    },
                }
                i += 1;
            }
            proof {
                lemma_skip_ends(theirs);
            }
            Ok(self.with_children(children))
        } else if ((self.logical_type.is_list() && other.logical_type.is_list()) || (
        self.logical_type.is_large_list() && other.logical_type.is_large_list()))
            && self.children.len() > 0 && other.children.len() > 0 {
            match self.children[0].merge(&other.children[0]) {
                Ok(item) => {
                    let mut children = clone_fields(&self.children);
                    let ghost before = children@;
                    children.set(0, item);
                    assert(views(children@) =~= views(before).update(0, item@));
                    Ok(self.with_children(children))
                },
                Err(e) => Err(e),
            }
        } else if (self.logical_type == other.logical_type && !self.logical_type.is_nested())
            || self.logical_type.same_list_size(&other.logical_type) {
            Ok(self.clone())
        } else {
            Err(
                clash_error(
                    "Attempt to merge incompatible fields: ",
                    self.text().as_str(),
                    other.text().as_str(),
                ),
            )
        }
    }

    /// What this field and another of its name have in common.
    pub fn do_intersection(&self, other: &Field, ignore_types: bool) -> (r: Result<Field, Error>)
        ensures
            outcome(r) == intersect_field(self@, other@, ignore_types),
        decreases self,
    {
        proof {
            lemma_children(*self);
        }
        if self.name != other.name {
            Err(
                clash_error(
                    "Attempt to intersect different fields: ",
                    self.name.as_str(),
                    other.name.as_str(),
                ),
            )
        } else if (self.logical_type.is_struct() && other.logical_type.is_struct()) || (
        self.logical_type.is_list() && other.logical_type.is_list()) || (
        self.logical_type.is_large_list() && other.logical_type.is_large_list()) {
            let ghost ours = self@.children;
            let ghost theirs = other@.children;
            let mut children: Vec<Field> = Vec::new();
            let mut i: usize = 0;
            proof {
                lemma_skip_ends(ours);
                assert(views(children@) + intersect_children(ours, theirs, ignore_types)
                    =~= intersect_children(ours, theirs, ignore_types));
            }
            while i < self.children.len()
                invariant
                    i <= self.children@.len(),
                    ours == views(self.children@),
                    theirs == other@.children,
                    intersect_children(ours, theirs, ignore_types) == views(children@)
                        + intersect_children(ours.skip(i as int), theirs, ignore_types),
                decreases self.children@.len() - i,
            {
                let c = &self.children[i];
                proof {
                    lemma_skip_step(ours, i as int);
                }
                match other.child(c.name.as_str()) {
                    Some(d) => match c.do_intersection(d, ignore_types) {
                        Ok(m) => {
                            proof {
                                lemma_views_push(children@, m);
                                assert(views(children@) + intersect_children(
                                    ours.skip(i as int),
                                    theirs,
                                    ignore_types,
                                ) =~= views(children@.push(m)) + intersect_children(
                                    ours.skip(i + 1),
                                    theirs,
                                    ignore_types,
                                ));
                            }
                            children.push(m);
                        },
                        Err(_) => {},
                    },
                    None => {},
                }
                i += 1;
            }
            proof {
                lemma_skip_ends(ours);
                assert(intersect_children(ours, theirs, ignore_types) =~= views(children@));
            }
            let mut common = self.with_children(children);
            if self.id < 0 {
                let ghost before = common;
                common.id = other.id;
                proof {
                    lemma_children(before);
                    lemma_children(common);
                }
            }
            Ok(common)
        } else if !ignore_types && self.logical_type != other.logical_type {
            Err(
                clash_error(
                    "Attempt to intersect different fields: ",
                    self.text().as_str(),
                    other.text().as_str(),
                ),
            )
        } else if self.id >= 0 {
            Ok(self.clone())
        } else {
            Ok(other.clone())
        }
    }

    /// What a selection of ids leaves of the field.
    pub fn project_by_ids(&self, ids: &[i32], whole: bool) -> (r: Option<Field>)
        ensures
            opt_view(r) == select_field(self@, ids@.to_set(), whole),
        decreases self,
    {
        proof {
            lemma_children(*self);
        }
        let selected = holds_id(ids, self.id);
        if whole && selected {
            Some(self.clone())
        } else {
            let children = keep_ids(&self.children, ids, whole);
            if selected || children.len() > 0 {
                Some(self.with_children(children))
            } else {
                None
            }
        }
    }

    /// The part of this field that another one names.
    pub fn project_by_field(&self, other: &Field, policy: OnTypeMismatch) -> (r: Result<
        Field,
        Error,
    >)
        ensures
            outcome(r) == project_onto(self@, other@, policy),
        decreases other,
    {
        proof {
            lemma_children(*self);
            lemma_children(*other);
        }
        let s = &self.logical_type;
        let t = &other.logical_type;
        if self.name != other.name {
            Err(
                clash_error(
                    "Attempt to project field by different names: ",
                    self.name.as_str(),
                    other.name.as_str(),
                ),
            )
        } else if s.is_struct() && t.is_struct() {
            let ghost onto = other@.children;
            let ghost whole = project_onto_all(self@, onto, policy);
            let mut children: Vec<Field> = Vec::new();
            let mut i: usize = 0;
            proof {
                lemma_skip_ends(onto);
                lemma_prepend_nothing(whole);
            }
            while i < other.children.len()
                invariant
                    i <= other.children@.len(),
                    onto == views(other.children@),
                    whole == project_onto_all(self@, onto, policy),
                    whole == prepend(
                        views(children@),
                        project_onto_all(self@, onto.skip(i as int), policy),
                    ),
                    onto == other@.children,
                    self@.name == other@.name,
                    self@.logical_type.is_struct(),
                    other@.logical_type.is_struct(),
                decreases other.children@.len() - i,
            {
                let other_field = &other.children[i];
                proof {
                    lemma_skip_step(onto, i as int);
                }
                match self.child(other_field.name.as_str()) {
                    Some(c) => match c.project_by_field(other_field, policy) {
                        Ok(f) => {
                            proof {
                                lemma_views_push(children@, f);
                                lemma_prepend_push(
                                    views(children@),
                                    f@,
                                    project_onto_all(self@, onto.skip(i + 1), policy),
                                );
                            }
                            children.push(f);
                        },
                        Err(e) => {
                            return Err(e);
                        },
                    },
                    None => {
                        return Err(
                            Error::Schema {
                                message: concat4(
                                    "Attempt to project non-existed field: ",
                                    other_field.name.as_str(),
                                    " on ",
                                    self.text().as_str(),
                                ),
                            },
                        );
                    },
                }
                i += 1;
            }
            proof {
                lemma_skip_ends(onto);
                assert(views(children@) + Seq::<FieldModel>::empty() =~= views(children@));
            }
            Ok(self.with_children(children))
        } else if ((s.is_list() && t.is_list()) || (s.is_large_list() && t.is_large_list()))
            && self.children.len() > 0 && other.children.len() > 0 {
            match self.children[0].project_by_field(&other.children[0], policy) {
                Ok(item) => {
                    let mut children: Vec<Field> = Vec::new();
                    children.push(item);
                    assert(views(children@) =~= seq![item@]);
                    Ok(self.with_children(children))
                },
                Err(e) => Err(e),
            }
        } else if *s == *t && !s.is_nested() {
            Ok(self.clone())
        } else if (s.is_primitive() && t.is_primitive()) || (s.is_binary_like()
            && t.is_binary_like()) {
            Err(
                clash_error(
                    "Attempt to project field by different types: ",
                    s.text().as_str(),
                    t.text().as_str(),
                ),
            )
        } else if policy == OnTypeMismatch::TakeSelf {
            Ok(self.clone())
        } else {
            Err(
                clash_error(
                    "Attempt to project incompatible fields: ",
                    self.text().as_str(),
                    other.text().as_str(),
                ),
            )
        }
    }

    /// What is left of this field when another one is taken out of it.
    pub fn exclude(&self, other: &Field) -> (r: Option<Field>)
        ensures
            opt_view(r) == exclude_field(self@, other@),
        decreases self,
    {
        proof {
            lemma_children(*self);
            lemma_children(*other);
        }
        if !self.logical_type.is_struct() {
            None
        } else {
            let children = take_out(&self.children, &other.children);
            if children.len() == 0 {
                None
            } else {
                Some(self.with_children(children))
            }
        }
    }
}

/// A successful result with more in front of it.
pub open spec fn prepend<T>(front: Seq<T>, r: Result<Seq<T>, ErrorModel>) -> Result<
    Seq<T>,
    ErrorModel,
> {
    match r {
        Ok(s) => Ok(front + s),
        Err(e) => Err(e),
    }
}

/// Nothing in front changes nothing.
pub proof fn lemma_prepend_nothing<T>(r: Result<Seq<T>, ErrorModel>)
    ensures
        prepend(Seq::<T>::empty(), r) == r,
{
    if r is Ok {
        assert(Seq::<T>::empty() + r->Ok_0 =~= r->Ok_0);
    }
}

/// One more element in front of a result.
pub proof fn lemma_prepend_push<T>(front: Seq<T>, x: T, r: Result<Seq<T>, ErrorModel>)
    ensures
        prepend(front.push(x), r) == prepend(
            front,
            match r {
                Ok(s) => Ok::<Seq<T>, ErrorModel>(seq![x] + s),
                Err(e) => Err::<Seq<T>, ErrorModel>(e),
            },
        ),
{
    if r is Ok {
        assert(front.push(x) + r->Ok_0 =~= front + (seq![x] + r->Ok_0));
    }
}

/// Whether a list holds an id.
fn holds_id(ids: &[i32], id: i32) -> (r: bool)
    ensures
        r == ids@.to_set().contains(id),
{
    let mut i: usize = 0;
    while i < ids.len()
        invariant
            i <= ids@.len(),
            forall|j: int| 0 <= j < i ==> ids@[j] != id,
        decreases ids@.len() - i,
    {
        if ids[i] == id {
            assert(ids@.contains(id));
            return true;
        }
        i += 1;
    }
    assert(!ids@.contains(id));
    false
}

/// What a selection of ids leaves of a list of fields.
pub fn keep_ids(fields: &Vec<Field>, ids: &[i32], whole: bool) -> (r: Vec<Field>)
    ensures
        views(r@) == select_fields(views(fields@), ids@.to_set(), whole),
    decreases fields,
{
    let ghost all = views(fields@);
    let ghost set = ids@.to_set();
    let mut kept: Vec<Field> = Vec::new();
    let mut i: usize = 0;
    proof {
        lemma_skip_ends(all);
        assert(views(kept@) + select_fields(all, set, whole) =~= select_fields(all, set, whole));
    }
    while i < fields.len()
        invariant
            i <= fields@.len(),
            all == views(fields@),
            set == ids@.to_set(),
            select_fields(all, set, whole) == views(kept@) + select_fields(
                all.skip(i as int),
                set,
                whole,
            ),
        decreases fields@.len() - i,
    {
        proof {
            lemma_skip_step(all, i as int);
        }
        match fields[i].project_by_ids(ids, whole) {
            Some(f) => {
                proof {
                    lemma_views_push(kept@, f);
                    assert(views(kept@) + (seq![f@] + select_fields(all.skip(i + 1), set, whole))
                        =~= views(kept@.push(f)) + select_fields(all.skip(i + 1), set, whole));
                }
                kept.push(f);
            },
            None => {},
        }
        i += 1;
    }
    proof {
        lemma_skip_ends(all);
        assert(select_fields(all, set, whole) =~= views(kept@));
    }
    kept
}

/// What is left of a list of fields when another is taken out of it.
fn take_out(fields: &Vec<Field>, others: &Vec<Field>) -> (r: Vec<Field>)
    ensures
        views(r@) == exclude_fields(views(fields@), views(others@)),
    decreases fields,
{
    let ghost all = views(fields@);
    let ghost theirs = views(others@);
    let mut kept: Vec<Field> = Vec::new();
    let mut i: usize = 0;
    proof {
        lemma_skip_ends(all);
        assert(views(kept@) + exclude_fields(all, theirs) =~= exclude_fields(all, theirs));
    }
    while i < fields.len()
        invariant
            i <= fields@.len(),
            all == views(fields@),
            theirs == views(others@),
            exclude_fields(all, theirs) == views(kept@) + exclude_fields(
                all.skip(i as int),
                theirs,
            ),
        decreases fields@.len() - i,
    {
        let field = &fields[i];
        proof {
            lemma_skip_step(all, i as int);
            lemma_index_named(theirs, field@.name);
        }
        let ghost rest = exclude_fields(all.skip(i + 1), theirs);
        let ghost before = kept@;
        match find_named(others.as_slice(), field.name.as_str()) {
            Some(k) => match field.exclude(&others[k]) {
                Some(f) => {
                    kept.push(f);
                    proof {
                        lemma_views_push(before, f);
                        assert(views(before) + (seq![f@] + rest) =~= views(kept@) + rest);
                    }
                },
                None => {},
            },
            None => {
                let f = field.clone();
                kept.push(f);
                proof {
                    lemma_views_push(before, f);
                    assert(views(before) + (seq![f@] + rest) =~= views(kept@) + rest);
                }
            },
        }
        i += 1;
    }
    proof {
        lemma_skip_ends(all);
        assert(exclude_fields(all, theirs) =~= views(kept@));
    }
    kept
}

} // verus!
