//! Schemas: the columns of a dataset.

use vstd::prelude::*;
use crate::assoc::StringMap;
use crate::error::Error;
use crate::error::ErrorModel;
use crate::field::ancestry;
use crate::field::any_dictionary;
use crate::field::assign_ids;
use crate::field::by_id;
use crate::field::clear_ids;
use crate::field::clone_fields;
use crate::field::field_text;
use crate::field::find_named;
use crate::field::greatest_id;
use crate::field::ids_of;
use crate::field::lemma_index_named;
use crate::field::named;
use crate::field::pre_order;
use crate::field::replace_by_id;
use crate::field::resolve_from;
use crate::field::same_fields;
use crate::field::sub_field;
use crate::field::unassigned;
use crate::field::Field;
use crate::field::FieldModel;
use crate::field::StorageClass;
use crate::seqs::lemma_skip_ends;
use crate::seqs::lemma_skip_step;
use crate::seqs::lemma_views_push;
use crate::seqs::opt_view;
use crate::seqs::views;
use crate::text::lemma_split_dots_nonempty;
use crate::text::split_dots;
use crate::text::split_path;
use crate::tree::find_ancestry;
use crate::tree::find_by_id;
use crate::tree::find_by_id_mut;
use crate::tree::has_dictionary;
use crate::tree::lemma_greatest_id;
use crate::tree::max_id;
use crate::tree::walk;
use crate::tree::with_ids;
use crate::tree::without_ids;

verus! {

/// The columns of a dataset.
#[derive(Debug)]
pub struct Schema {
    /// The top level fields.
    pub fields: Vec<Field>,
    /// The metadata of the schema.
    pub metadata: StringMap,
}

/// A schema as a mathematical value.
pub struct SchemaModel {
    pub fields: Seq<FieldModel>,
    pub metadata: Map<Seq<char>, Seq<char>>,
}

impl View for Schema {
    type V = SchemaModel;

    open spec fn view(&self) -> SchemaModel {
        SchemaModel { fields: views(self.fields@), metadata: self.metadata@ }
    }
}

impl Clone for Schema {
    fn clone(&self) -> (r: Self)
        ensures
            r@ == self@,
    {
        Schema { fields: clone_fields(&self.fields), metadata: self.metadata.clone() }
    }
}

impl Default for Schema {
    fn default() -> (r: Self)
        ensures
            r@.fields == Seq::<FieldModel>::empty(),
            r@.metadata == Map::<Seq<char>, Seq<char>>::empty(),
    {
        let r = Schema { fields: Vec::new(), metadata: StringMap::new() };
        assert(r@.fields =~= Seq::<FieldModel>::empty());
        r
    }
}

/// Two schemas are equal where their fields are; the metadata does not matter.
impl PartialEq for Schema {
    fn eq(&self, other: &Self) -> (r: bool) {
        same_fields(&self.fields, &other.fields)
    }
}

impl vstd::std_specs::cmp::PartialEqSpecImpl for Schema {
    open spec fn obeys_eq_spec() -> bool {
        true
    }

    open spec fn eq_spec(&self, other: &Self) -> bool {
        self@.fields == other@.fields
    }
}

/// The field that a path of names leads to.
pub open spec fn lookup_path(fields: Seq<FieldModel>, path: Seq<Seq<char>>) -> Option<FieldModel> {
    match named(fields, path[0]) {
        Some(f) => sub_field(f, path.drop_first()),
        None => None,
    }
}

/// The field of a name; a dot leads from a field to one of its children.
pub open spec fn lookup(fields: Seq<FieldModel>, name: Seq<char>) -> Option<FieldModel> {
    lookup_path(fields, split_dots(name))
}

/// The fields along a column name with dots.
pub open spec fn resolve_path(fields: Seq<FieldModel>, column: Seq<char>) -> Option<
    Seq<FieldModel>,
> {
    let path = split_dots(column);
    match named(fields, path[0]) {
        Some(f) => resolve_from(f, path.drop_first()),
        None => None,
    }
}

/// The fields of a storage class, in order.
pub open spec fn of_storage_class(fields: Seq<FieldModel>, class: StorageClass) -> Seq<FieldModel>
    decreases fields.len(),
{
    if fields.len() == 0 {
        Seq::empty()
    } else {
        let rest = of_storage_class(fields.drop_first(), class);
        if fields[0].storage_class == class {
            seq![fields[0]] + rest
        } else {
            rest
        }
    }
}

/// The fields of a list that are marked as part of the primary key, in order.
pub open spec fn keys_among(fields: Seq<FieldModel>) -> Seq<FieldModel>
    decreases fields.len(),
{
    if fields.len() == 0 {
        Seq::empty()
    } else {
        let rest = keys_among(fields.drop_first());
        if fields[0].unenforced_primary_key {
            seq![fields[0]] + rest
        } else {
            rest
        }
    }
}

/// The first id that is free, given the greatest id that is taken elsewhere.
pub open spec fn next_id(fields: Seq<FieldModel>, max_existing_id: Option<i32>) -> int {
    let taken = match max_existing_id {
        Some(id) => id as int,
        None => -1,
    };
    if greatest_id(fields) >= taken {
        greatest_id(fields) + 1
    } else {
        taken + 1
    }
}

/// Whether the ids that fields without an id will get are ids.
pub open spec fn ids_fit(fields: Seq<FieldModel>, max_existing_id: Option<i32>) -> bool {
    next_id(fields, max_existing_id) + unassigned(fields) <= i32::MAX + 1
}

/// The fields with ids for those that had none.
pub open spec fn number_fields(fields: Seq<FieldModel>, max_existing_id: Option<i32>) -> Seq<
    FieldModel,
> {
    assign_ids(fields, -1i32, next_id(fields, max_existing_id))
}

/// The texts of fields, each on a line.
pub open spec fn lines(fields: Seq<FieldModel>) -> Seq<char>
    decreases fields.len(),
{
    if fields.len() == 0 {
        Seq::empty()
    } else {
        field_text(fields[0]) + "\n"@ + lines(fields.drop_first())
    }
}

impl Schema {
    /// The fields that are marked as the unenforced primary key.
    pub fn unenforced_primary_key(&self) -> (r: Vec<&Field>)
        ensures
            views(r@) == keys_among(pre_order(self@.fields)),
    {
        let all = walk(&self.fields);
        let ghost seen = views(all@);
        let mut out: Vec<&Field> = Vec::new();
        let mut i: usize = 0;
        proof {
            lemma_skip_ends(seen);
            assert(views(out@) + keys_among(seen) =~= keys_among(seen));
        }
        while i < all.len()
            invariant
                i <= all@.len(),
                seen == views(all@),
                keys_among(seen) == views(out@) + keys_among(seen.skip(i as int)),
            decreases all@.len() - i,
        {
            proof {
                lemma_skip_step(seen, i as int);
            }
            let f = all[i];
            if f.unenforced_primary_key {
                proof {
                    lemma_views_push(out@, f);
                    assert(views(out@) + (seq![f@] + keys_among(seen.skip(i + 1))) =~= views(
                        out@.push(f),
                    ) + keys_among(seen.skip(i + 1)));
                }
                out.push(f);
            }
            i += 1;
        }
        proof {
            lemma_skip_ends(seen);
            assert(keys_among(seen) =~= views(out@));
        }
        out
    }

    /// The schema with only the fields of a storage class.
    pub fn retain_storage_class(&self, storage_class: StorageClass) -> (r: Schema)
        ensures
            r@ == (SchemaModel {
                fields: of_storage_class(self@.fields, storage_class),
                metadata: self@.metadata,
            }),
    {
        let ghost all = self@.fields;
        let mut fields: Vec<Field> = Vec::new();
        let mut i: usize = 0;
        proof {
            lemma_skip_ends(all);
            assert(views(fields@) + of_storage_class(all, storage_class) =~= of_storage_class(
                all,
                storage_class,
            ));
        }
        while i < self.fields.len()
            invariant
                i <= self.fields@.len(),
                all == views(self.fields@),
                of_storage_class(all, storage_class) == views(fields@) + of_storage_class(
                    all.skip(i as int),
                    storage_class,
                ),
            decreases self.fields@.len() - i,
        {
            proof {
                lemma_skip_step(all, i as int);
            }
            if self.fields[i].storage_class == storage_class {
                let f = self.fields[i].clone();
                proof {
                    lemma_views_push(fields@, f);
                    let rest = of_storage_class(all.skip(i + 1), storage_class);
                    assert(views(fields@) + (seq![f@] + rest) =~= views(fields@.push(f)) + rest);
                }
                fields.push(f);
            }
            i += 1;
        }
        proof {
            lemma_skip_ends(all);
            assert(of_storage_class(all, storage_class) =~= views(fields@));
        }
        Schema { fields, metadata: self.metadata.clone() }
    }

    /// Splits the schema in two: the fields of the default storage class, and those
    /// of the blob storage class if there are any. The order of fields is kept.
    pub fn partition_by_storage_class(&self) -> (r: (Schema, Option<Schema>))
        ensures
            r.0@ == (SchemaModel {
                fields: of_storage_class(self@.fields, StorageClass::Default),
                metadata: self@.metadata,
            }),
            opt_view(r.1) == (if of_storage_class(self@.fields, StorageClass::Blob).len() == 0 {
                None
            } else {
                Some(
                    SchemaModel {
                        fields: of_storage_class(self@.fields, StorageClass::Blob),
                        metadata: self@.metadata,
                    },
                )
            }),
    {
        let local = self.retain_storage_class(StorageClass::Default);
        let sibling = self.retain_storage_class(StorageClass::Blob);
        let none = sibling.fields.len() == 0;
        assert(sibling@.fields.len() == sibling.fields@.len());
        if none {
            (local, None)
        } else {
            (local, Some(sibling))
        }
    }

    /// Whether a field is dictionary encoded.
    pub fn has_dictionary_types(&self) -> (r: bool)
        ensures
            r == any_dictionary(self@.fields),
    {
        has_dictionary(&self.fields)
    }

    /// The fields along a column name: for `a.b.c` the fields `a`, `b` and `c`.
    /// `None` if one of them is not found.
    pub fn resolve(&self, column: &str) -> (r: Option<Vec<&Field>>)
        ensures
            match r {
                Some(fs) => resolve_path(self@.fields, column@) == Some(views(fs@)),
                None => resolve_path(self@.fields, column@) is None,
            },
    {
        let path = split_path(column);
        proof {
            lemma_split_dots_nonempty(column@);
            lemma_skip_ends(views(path@));
            lemma_skip_step(views(path@), 0);
            lemma_index_named(self@.fields, path@[0]@);
            assert(views(path@)[0] == path@[0]@);
        }
        match find_named(self.fields.as_slice(), path[0].as_str()) {
            Some(i) => self.fields[i].resolve(&path, 1),
            None => None,
        }
    }

    /// The field of a name; a dot leads from a field to one of its children.
    pub fn field(&self, name: &str) -> (r: Option<&Field>)
        ensures
            match r {
                Some(f) => lookup(self@.fields, name@) == Some(f@),
                None => lookup(self@.fields, name@) is None,
            },
    {
        let path = split_path(name);
        proof {
            lemma_split_dots_nonempty(name@);
            lemma_skip_ends(views(path@));
            lemma_skip_step(views(path@), 0);
            lemma_index_named(self@.fields, path@[0]@);
            assert(views(path@)[0] == path@[0]@);
        }
        match find_named(self.fields.as_slice(), path[0].as_str()) {
            Some(i) => self.fields[i].sub_field(&path, 1),
            None => None,
        }
    }

    /// The id of the field of a name.
    pub fn field_id(&self, column: &str) -> (r: Result<i32, Error>)
        ensures
            match r {
                Ok(id) => lookup(self@.fields, column@) is Some && id == lookup(
                    self@.fields,
                    column@,
                )->0.id,
                Err(e) => lookup(self@.fields, column@) is None && e@ == (ErrorModel::Schema {
                    message: "Vector column not in schema"@,
                }),
            },
    {
        match self.field(column) {
            Some(f) => Ok(f.id),
            None => Err(Error::Schema { message: "Vector column not in schema".to_owned() }),
        }
    }

    /// The fields of the schema, each before its children.
    pub fn fields_pre_order(&self) -> (r: Vec<&Field>)
        ensures
            views(r@) == pre_order(self@.fields),
    {
        walk(&self.fields)
    }

    /// The ids of the top level fields.
    pub fn top_level_field_ids(&self) -> (r: Vec<i32>)
        ensures
            r@ == ids_of(self@.fields),
    {
        let mut out: Vec<i32> = Vec::new();
        let mut i: usize = 0;
        while i < self.fields.len()
            invariant
                i <= self.fields@.len(),
                out@.len() == i,
                forall|j: int| 0 <= j < i ==> out@[j] == self.fields@[j]@.id,
            decreases self.fields@.len() - i,
        {
            out.push(self.fields[i].id);
            i += 1;
        }
        assert(out@ =~= ids_of(self@.fields));
        out
    }

    /// The ids of all fields, in pre-order.
    pub fn field_ids(&self) -> (r: Vec<i32>)
        ensures
            r@ == ids_of(pre_order(self@.fields)),
    {
        let all = walk(&self.fields);
        let mut out: Vec<i32> = Vec::new();
        let mut i: usize = 0;
        while i < all.len()
            invariant
                i <= all@.len(),
                out@.len() == i,
                forall|j: int| 0 <= j < i ==> out@[j] == (#[trigger] views(all@)[j]).id,
            decreases all@.len() - i,
        {
            assert(views(all@)[i as int] == all@[i as int]@);
            out.push(all[i].id);
            i += 1;
        }
        assert(out@ =~= ids_of(views(all@)));
        out
    }

    /// The first field with an id, in pre-order, to change it in place.
    pub fn field_by_id_mut(&mut self, id: i32) -> (r: Option<&mut Field>)
        ensures
            final(self)@.metadata == old(self)@.metadata,
            match r {
                Some(f) => {
                    &&& by_id(old(self)@.fields, id) == Some(f@)
                    &&& final(self)@.fields == replace_by_id(old(self)@.fields, id, final(f)@)
                },
                None => {
                    &&& by_id(old(self)@.fields, id) is None
                    &&& final(self)@.fields == old(self)@.fields
                },
            },
    {
        find_by_id_mut(&mut self.fields, id)
    }

    /// The first field with an id, in pre-order.
    pub fn field_by_id(&self, id: i32) -> (r: Option<&Field>)
        ensures
            match r {
                Some(f) => by_id(self@.fields, id) == Some(f@),
                None => by_id(self@.fields, id) is None,
            },
    {
        find_by_id(&self.fields, id)
    }

    /// The fields from the root to the field with an id.
    pub fn field_ancestry_by_id(&self, id: i32) -> (r: Option<Vec<&Field>>)
        ensures
            match r {
                Some(path) => ancestry(self@.fields, id) == Some(views(path@)),
                None => ancestry(self@.fields, id) is None,
            },
    {
        find_ancestry(&self.fields, id)
    }

    /// The first field with an id, in pre-order, to change it in place.
    pub fn mut_field_by_id(&mut self, id: i32) -> (r: Option<&mut Field>)
        ensures
            final(self)@.metadata == old(self)@.metadata,
            match r {
                Some(f) => {
                    &&& by_id(old(self)@.fields, id) == Some(f@)
                    &&& final(self)@.fields == replace_by_id(old(self)@.fields, id, final(f)@)
                },
                None => {
                    &&& by_id(old(self)@.fields, id) is None
                    &&& final(self)@.fields == old(self)@.fields
                },
            },
    {
        find_by_id_mut(&mut self.fields, id)
    }

    /// The greatest id of a field, at least -1; `None` if there are no fields.
    pub fn max_field_id(&self) -> (r: Option<i32>)
        ensures
            match r {
                Some(id) => self@.fields.len() > 0 && id == greatest_id(self@.fields),
                None => self@.fields.len() == 0,
            },
    {
        if self.fields.len() == 0 {
            None
        } else {
            Some(max_id(&self.fields))
        }
    }

    /// Gives an id to each field that has none. The ids start after the greatest id
    /// of the schema, or after `max_existing_id` if that is greater.
    pub fn set_field_id(&mut self, max_existing_id: Option<i32>)
        requires
            ids_fit(old(self)@.fields, max_existing_id),
        ensures
            final(self)@ == (SchemaModel {
                fields: number_fields(old(self)@.fields, max_existing_id),
                metadata: old(self)@.metadata,
            }),
    {
        let schema_max_id: i32 = match self.max_field_id() {
            Some(id) => id,
            None => -1,
        };
        let existing: i32 = match max_existing_id {
            Some(id) => id,
            None => -1,
        };
        proof {
            lemma_greatest_id(self@.fields);
        }
        let current_id: i64 = if schema_max_id >= existing {
            schema_max_id as i64 + 1
        } else {
            existing as i64 + 1
        };
        let (fields, _) = with_ids(&self.fields, -1, current_id);
        self.fields = fields;
    }

    /// Takes the ids of all fields away.
    pub fn reset_id(&mut self)
        ensures
            final(self)@ == (SchemaModel {
                fields: clear_ids(old(self)@.fields),
                metadata: old(self)@.metadata,
            }),
    {
        self.fields = without_ids(&self.fields);
    }

    /// Whether all fields, at every level, are nullable.
    pub fn all_fields_nullable(&self) -> (r: bool)
        ensures
            r == (forall|i: int|
                0 <= i < pre_order(self@.fields).len() ==> (
                #[trigger] pre_order(self@.fields)[i]).nullable),
    {
        let all = walk(&self.fields);
        let mut i: usize = 0;
        while i < all.len()
            invariant
                i <= all@.len(),
                views(all@) == pre_order(self@.fields),
                forall|j: int| 0 <= j < i ==> (#[trigger] views(all@)[j]).nullable,
            decreases all@.len() - i,
        {
            assert(views(all@)[i as int] == all@[i as int]@);
            if !all[i].nullable {
                return false;
            }
            i += 1;
        }
        true
    }

    /// The text of the schema: a line for each field.
    pub fn text(&self) -> (r: String)
        ensures
            r@ == lines(self@.fields),
    {
        let ghost all = self@.fields;
        let mut out = String::new();
        let mut i: usize = 0;
        proof {
            lemma_skip_ends(all);
            assert(out@ + lines(all) =~= lines(all));
        }
        while i < self.fields.len()
            invariant
                i <= self.fields@.len(),
                all == views(self.fields@),
                lines(all) == out@ + lines(all.skip(i as int)),
            decreases self.fields@.len() - i,
        {
            proof {
                lemma_skip_step(all, i as int);
            }
            let ghost before = out@;
            out.append(self.fields[i].text().as_str());
            out.append("\n");
            assert(before + lines(all.skip(i as int)) =~= out@ + lines(all.skip(i + 1)));
            i += 1;
        }
        proof {
            lemma_skip_ends(all);
            assert(lines(all) =~= out@);
        }
        out
    }
}

} // verus!
