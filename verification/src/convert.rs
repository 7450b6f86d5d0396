//! Fields from Arrow fields, and back.

use vstd::prelude::*;
use crate::arrow::lemma_struct_fields;
use crate::arrow::ArrowField;
use crate::arrow::ArrowFieldModel;
use crate::arrow::DataType;
use crate::arrow::DataTypeModel;
use crate::assoc::StringMap;
use crate::error::outcome;
use crate::error::Error;
use crate::error::ErrorModel;
use crate::field::lemma_children;
use crate::field::pre_order;
use crate::field::Field;
use crate::field::FieldModel;
use crate::field::StorageClass;
use crate::field_ops::lemma_prepend_nothing;
use crate::field_ops::lemma_prepend_push;
use crate::field_ops::prepend;
use crate::logical::leaf_arrow;
use crate::logical::leaf_logical;
use crate::logical::logical_of;
use crate::logical::LogicalType;
use crate::seqs::lemma_skip_ends;
use crate::seqs::lemma_skip_step;
use crate::seqs::lemma_views_push;
use crate::seqs::views;
use crate::text::concat;
use crate::text::same_ignoring_case;
use crate::text::same_text;
use crate::text::sans_case;
use crate::tree::walk;

verus! {

/// The metadata key that tells where the data of a column is kept.
pub open spec fn storage_class_key() -> Seq<char> {
    "lance-schema:storage-class"@
}

/// The metadata key that marks a column of the unenforced primary key.
pub open spec fn primary_key_key() -> Seq<char> {
    "lance-schema:unenforced-primary-key"@
}

/// The storage class that the metadata of an Arrow field asks for.
pub open spec fn storage_class_of(metadata: Map<Seq<char>, Seq<char>>) -> Result<
    StorageClass,
    ErrorModel,
> {
    if !metadata.contains_key(storage_class_key()) {
        Ok(StorageClass::Default)
    } else {
        let value = metadata[storage_class_key()];
        if value == "default"@ || value == ""@ {
            Ok(StorageClass::Default)
        } else if value == "blob"@ {
            Ok(StorageClass::Blob)
        } else {
            Err(ErrorModel::Schema { message: "Unknown storage class: "@ + value })
        }
    }
}

/// Whether the metadata of an Arrow field marks it as part of the primary key.
pub open spec fn marks_primary_key(metadata: Map<Seq<char>, Seq<char>>) -> bool {
    metadata.contains_key(primary_key_key()) && {
        let value = metadata[primary_key_key()];
        sans_case(value, "true"@) || value == "1"@ || sans_case(value, "yes"@)
    }
}

/// The field of an Arrow field. It has no id yet.
pub open spec fn field_of_arrow(f: ArrowFieldModel) -> Result<FieldModel, ErrorModel>
    decreases f,
{
    match children_of_arrow(f.data_type) {
        Err(e) => Err(e),
        Ok(children) => match storage_class_of(f.metadata) {
            Err(e) => Err(e),
            Ok(storage_class) => match logical_of(f.data_type) {
                Err(e) => Err(e),
                Ok(logical_type) => Ok(
                    FieldModel {
                        name: f.name,
                        id: -1i32,
                        parent_id: -1i32,
                        logical_type,
                        metadata: f.metadata.remove(storage_class_key()),
                        nullable: f.nullable,
                        children,
                        dictionary: None,
                        storage_class,
                        unenforced_primary_key: marks_primary_key(f.metadata),
                    },
                ),
            },
        },
    }
}

/// The fields nested in an Arrow type.
pub open spec fn children_of_arrow(dt: DataTypeModel) -> Result<Seq<FieldModel>, ErrorModel>
    decreases dt,
{
    match dt {
        DataTypeModel::Struct(fields) => fields_of_arrow(fields),
        DataTypeModel::List(item) => match field_of_arrow(*item) {
            Ok(f) => Ok(seq![f]),
            Err(e) => Err(e),
        },
        DataTypeModel::LargeList(item) => match field_of_arrow(*item) {
            Ok(f) => Ok(seq![f]),
            Err(e) => Err(e),
        },
        _ => Ok(Seq::empty()),
    }
}

/// The fields of Arrow fields; the error of the first that cannot be stored.
pub open spec fn fields_of_arrow(fields: Seq<ArrowFieldModel>) -> Result<
    Seq<FieldModel>,
    ErrorModel,
>
    decreases fields,
{
    if fields.len() == 0 {
        Ok(Seq::empty())
    } else {
        match field_of_arrow(fields[0]) {
            Err(e) => Err(e),
            Ok(f) => match fields_of_arrow(fields.drop_first()) {
                Err(e) => Err(e),
                Ok(rest) => Ok(seq![f] + rest),
            },
        }
    }
}

/// The Arrow field of a field.
pub open spec fn arrow_field(f: FieldModel) -> ArrowFieldModel
    decreases f, 1nat,
{
    ArrowFieldModel {
        name: f.name,
        data_type: arrow_type(f),
        nullable: f.nullable,
        metadata: match f.storage_class {
            StorageClass::Default => f.metadata,
            StorageClass::Blob => f.metadata.insert(storage_class_key(), "blob"@),
        },
    }
}

/// The Arrow type of a field.
pub open spec fn arrow_type(f: FieldModel) -> DataTypeModel
    decreases f, 0nat,
{
    if f.logical_type.is_struct() {
        DataTypeModel::Struct(arrow_fields(f.children))
    } else if f.logical_type.is_list() && f.children.len() > 0 {
        DataTypeModel::List(Box::new(arrow_field(f.children[0])))
    } else if f.logical_type.is_large_list() && f.children.len() > 0 {
        DataTypeModel::LargeList(Box::new(arrow_field(f.children[0])))
    } else {
        leaf_arrow(f.logical_type)
    }
}

/// The Arrow fields of fields.
pub open spec fn arrow_fields(fields: Seq<FieldModel>) -> Seq<ArrowFieldModel>
    decreases fields, 0nat,
{
    if fields.len() == 0 {
        Seq::empty()
    } else {
        seq![arrow_field(fields[0])] + arrow_fields(fields.drop_first())
    }
}

/// Whether every list among the fields, or below them, has an item.
pub open spec fn lists_whole(fields: Seq<FieldModel>) -> bool {
    forall|i: int|
        0 <= i < pre_order(fields).len() ==> {
            let f = #[trigger] pre_order(fields)[i];
            f.logical_type.is_list() || f.logical_type.is_large_list() ==> f.children.len() > 0
        }
}

/// Whether every list among the fields, or below them, has an item.
pub fn have_items(fields: &Vec<Field>) -> (r: bool)
    ensures
        r == lists_whole(views(fields@)),
{
    let all = walk(fields);
    let mut i: usize = 0;
    while i < all.len()
        invariant
            i <= all@.len(),
            views(all@) == pre_order(views(fields@)),
            forall|j: int|
                0 <= j < i ==> {
                    let f = #[trigger] views(all@)[j];
                    f.logical_type.is_list() || f.logical_type.is_large_list() ==> f.children.len()
                        > 0
                },
        decreases all@.len() - i,
    {
        let f = all[i];
        proof {
            lemma_children(*f);
            assert(views(all@)[i as int] == f@);
        }
        if (f.logical_type.is_list() || f.logical_type.is_large_list()) && f.children.len() == 0 {
            return false;
        }
        i += 1;
    }
    true
}

fn storage_class_from(metadata: &StringMap) -> (r: Result<StorageClass, Error>)
    ensures
        match r {
            Ok(c) => storage_class_of(metadata@) == Ok::<StorageClass, ErrorModel>(c),
            Err(e) => storage_class_of(metadata@) == Err::<StorageClass, ErrorModel>(e@),
        },
{
    match metadata.get(&"lance-schema:storage-class".to_owned()) {
        None => Ok(StorageClass::Default),
        Some(value) => {
            if same_text(value.as_str(), "default") || same_text(value.as_str(), "") {
                Ok(StorageClass::Default)
            } else if same_text(value.as_str(), "blob") {
                Ok(StorageClass::Blob)
            } else {
                Err(Error::Schema { message: concat("Unknown storage class: ", value.as_str()) })
            }
        },
    }
}

fn primary_key_from(metadata: &StringMap) -> (r: bool)
    ensures
        r == marks_primary_key(metadata@),
{
    match metadata.get(&"lance-schema:unenforced-primary-key".to_owned()) {
        None => false,
        Some(value) => same_ignoring_case(value.as_str(), "true") || same_text(value.as_str(), "1")
            || same_ignoring_case(value.as_str(), "yes"),
    }
}

/// The fields of Arrow fields; the error of the first that cannot be stored.
pub fn fields_from_arrow(fields: &[ArrowField]) -> (r: Result<Vec<Field>, Error>)
    ensures
        match r {
            Ok(v) => fields_of_arrow(views(fields@)) == Ok::<Seq<FieldModel>, ErrorModel>(
                views(v@),
            ),
            Err(e) => fields_of_arrow(views(fields@)) == Err::<Seq<FieldModel>, ErrorModel>(e@),
        },
    decreases fields@, 0nat,
{
    let ghost all = views(fields@);
    let ghost whole = fields_of_arrow(all);
    let mut out: Vec<Field> = Vec::new();
    let mut i: usize = 0;
    proof {
        lemma_skip_ends(all);
        lemma_prepend_nothing(whole);
        assert(views(out@) =~= Seq::<FieldModel>::empty());
    }
    while i < fields.len()
        invariant
            i <= fields@.len(),
            all == views(fields@),
            whole == fields_of_arrow(all),
            whole == prepend(views(out@), fields_of_arrow(all.skip(i as int))),
        decreases fields@.len() - i,
    {
        proof {
            lemma_skip_step(all, i as int);
        }
        match Field::from_arrow(&fields[i]) {
            Ok(f) => {
                proof {
                    lemma_views_push(out@, f);
                    lemma_prepend_push(views(out@), f@, fields_of_arrow(all.skip(i + 1)));
                }
                out.push(f);
            },
            Err(e) => {
                return Err(e);
            },
        }
        i += 1;
    }
    proof {
        lemma_skip_ends(all);
        assert(views(out@) + Seq::<FieldModel>::empty() =~= views(out@));
    }
    Ok(out)
}

fn children_from_arrow(dt: &DataType) -> (r: Result<Vec<Field>, Error>)
    ensures
        match r {
            Ok(v) => children_of_arrow(dt@) == Ok::<Seq<FieldModel>, ErrorModel>(views(v@)),
            Err(e) => children_of_arrow(dt@) == Err::<Seq<FieldModel>, ErrorModel>(e@),
        },
    decreases dt, 0nat,
{
    match dt {
        DataType::Struct(fields) => {
            proof {
                lemma_struct_fields(*fields);
            }
            fields_from_arrow(fields.as_slice())
        },
        DataType::List(item) => one_from_arrow(item),
        DataType::LargeList(item) => one_from_arrow(item),
        _ => {
            let none: Vec<Field> = Vec::new();
            assert(views(none@) =~= Seq::<FieldModel>::empty());
            Ok(none)
        },
    }
}

fn one_from_arrow(item: &ArrowField) -> (r: Result<Vec<Field>, Error>)
    ensures
        match r {
            Ok(v) => views(v@).len() == 1 && field_of_arrow(item@) == Ok::<FieldModel, ErrorModel>(
                views(v@)[0],
            ) && views(v@) == seq![views(v@)[0]],
            Err(e) => field_of_arrow(item@) == Err::<FieldModel, ErrorModel>(e@),
        },
    decreases item, 1nat,
{
    match Field::from_arrow(item) {
        Ok(f) => {
            let mut v: Vec<Field> = Vec::new();
            v.push(f);
            assert(views(v@) =~= seq![f@]);
            Ok(v)
        },
        Err(e) => Err(e),
    }
}

impl Field {
    /// The field of an Arrow field.
    pub fn from_arrow(field: &ArrowField) -> (r: Result<Field, Error>)
        ensures
            outcome(r) == field_of_arrow(field@),
        decreases field, 0nat,
    {
        reveal_with_fuel(DataType::model, 2);
        reveal_with_fuel(ArrowField::model, 2);
        let children = match children_from_arrow(&field.data_type) {
            Ok(children) => children,
            Err(e) => {
                return Err(e);
            },
        };
        let storage_class = match storage_class_from(&field.metadata) {
            Ok(c) => c,
            Err(e) => {
                return Err(e);
            },
        };
        let logical_type = match LogicalType::from_arrow(&field.data_type) {
            Ok(t) => t,
            Err(e) => {
                return Err(e);
            },
        };
        let mut metadata = field.metadata.clone();
        metadata.remove(&"lance-schema:storage-class".to_owned());
        let r = Field {
            name: field.name.clone(),
            id: -1,
            parent_id: -1,
            logical_type,
            metadata,
            nullable: field.nullable,
            children,
            dictionary: None,
            storage_class,
            unenforced_primary_key: primary_key_from(&field.metadata),
        };
        proof {
            lemma_children(r);
        }
        Ok(r)
    }

    /// A field with a name, an Arrow type and a nullability.
    pub fn new_arrow(name: &str, data_type: DataType, nullable: bool) -> (r: Result<Field, Error>)
        ensures
            outcome(r) == field_of_arrow(
                ArrowFieldModel {
                    name: name@,
                    data_type: data_type@,
                    nullable,
                    metadata: Map::empty(),
                },
            ),
    {
        let field = ArrowField::new(name, data_type, nullable);
        Field::from_arrow(&field)
    }

    /// The Arrow field of the field.
    pub fn to_arrow(&self) -> (r: ArrowField)
        ensures
            r@ == arrow_field(self@),
        decreases self, 1nat,
    {
        reveal_with_fuel(ArrowField::model, 2);
        reveal_with_fuel(DataType::model, 2);
        let mut metadata = self.metadata.clone();
        if self.storage_class == StorageClass::Blob {
            metadata.insert("lance-schema:storage-class".to_owned(), "blob".to_owned());
        }
        ArrowField {
            name: self.name.clone(),
            data_type: self.data_type(),
            nullable: self.nullable,
            metadata,
        }
    }

    /// The Arrow type of the field.
    pub fn data_type(&self) -> (r: DataType)
        ensures
            r@ == arrow_type(self@),
        decreases self, 0nat,
    {
        reveal_with_fuel(ArrowField::model, 2);
        reveal_with_fuel(DataType::model, 2);
        proof {
            lemma_children(*self);
        }
        if self.logical_type.is_struct() {
            let fields = fields_to_arrow(&self.children);
            proof {
                lemma_struct_fields(fields);
            }
            DataType::Struct(fields)
        } else if self.logical_type.is_list() && self.children.len() > 0 {
            DataType::List(Box::new(self.children[0].to_arrow()))
        } else if self.logical_type.is_large_list() && self.children.len() > 0 {
            DataType::LargeList(Box::new(self.children[0].to_arrow()))
        } else {
            self.logical_type.leaf_to_arrow()
        }
    }
}

/// The Arrow fields of fields.
pub fn fields_to_arrow(fields: &Vec<Field>) -> (r: Vec<ArrowField>)
    ensures
        views(r@) == arrow_fields(views(fields@)),
    decreases fields, 0nat,
{
    let ghost all = views(fields@);
    let mut out: Vec<ArrowField> = Vec::new();
    let mut i: usize = 0;
    proof {
        lemma_skip_ends(all);
        assert(views(out@) + arrow_fields(all) =~= arrow_fields(all));
    }
    while i < fields.len()
        invariant
            i <= fields@.len(),
            all == views(fields@),
            arrow_fields(all) == views(out@) + arrow_fields(all.skip(i as int)),
        decreases fields@.len() - i,
    {
        proof {
            lemma_skip_step(all, i as int);
        }
        let f = fields[i].to_arrow();
        proof {
            lemma_views_push(out@, f);
            assert(views(out@) + (seq![f@] + arrow_fields(all.skip(i + 1))) =~= views(out@.push(f))
                + arrow_fields(all.skip(i + 1)));
        }
        out.push(f);
        i += 1;
    }
    proof {
        lemma_skip_ends(all);
        assert(arrow_fields(all) =~= views(out@));
    }
    out
}

// Laws.

/// Whether an Arrow field says nothing that a field does not keep: the item of a
/// fixed size list is a nullable field `item` without metadata, and a storage class
/// is named only where it is not the default.
pub open spec fn plain(f: ArrowFieldModel) -> bool
    decreases f, 1nat,
{
    &&& f.metadata.contains_key(storage_class_key()) ==> f.metadata[storage_class_key()] == "blob"@
    &&& plain_type(f.data_type)
}

/// Whether the fields in an Arrow type are plain.
pub open spec fn plain_type(dt: DataTypeModel) -> bool
    decreases dt, 0nat,
{
    match dt {
        DataTypeModel::Struct(fields) => all_plain(fields),
        DataTypeModel::List(item) => plain(*item),
        DataTypeModel::LargeList(item) => plain(*item),
        DataTypeModel::FixedSizeList(item, _) => {
            &&& (*item).name == "item"@
            &&& (*item).nullable
            &&& (*item).metadata == Map::<Seq<char>, Seq<char>>::empty()
            &&& plain_type((*item).data_type)
        },
        DataTypeModel::Dictionary(key, value) => plain_type(*key) && plain_type(*value),
        _ => true,
    }
}

/// Whether all fields of a list are plain.
pub open spec fn all_plain(fields: Seq<ArrowFieldModel>) -> bool
    decreases fields, 0nat,
{
    fields.len() > 0 ==> plain(fields[0]) && all_plain(fields.drop_first())
}

proof fn lemma_leaf_round_trip(dt: DataTypeModel)
    requires
        plain_type(dt),
        leaf_logical(dt) is Ok,
    ensures
        leaf_arrow(leaf_logical(dt)->Ok_0) == dt,
        !leaf_logical(dt)->Ok_0.is_nested(),
    decreases dt,
{
    match dt {
        DataTypeModel::FixedSizeList(item, n) => {
            lemma_leaf_round_trip((*item).data_type);
        },
        DataTypeModel::Dictionary(key, value) => {
            lemma_leaf_round_trip(*key);
            lemma_leaf_round_trip(*value);
        },
        _ => {},
    }
}

/// The Arrow field of the field of a plain Arrow field is that Arrow field.
pub proof fn arrow_round_trip(f: ArrowFieldModel)
    requires
        plain(f),
        field_of_arrow(f) is Ok,
    ensures
        arrow_field(field_of_arrow(f)->Ok_0) == f,
    decreases f,
{
    let g = field_of_arrow(f)->Ok_0;
    reveal_strlit("blob");
    reveal_strlit("default");
    reveal_strlit("");
    assert("blob"@.len() == 4 && "default"@.len() == 7 && ""@.len() == 0);
    if f.metadata.contains_key(storage_class_key()) {
        assert(g.storage_class == StorageClass::Blob);
        assert(g.metadata.insert(storage_class_key(), "blob"@) =~= f.metadata);
    } else {
        assert(g.storage_class == StorageClass::Default);
        assert(g.metadata =~= f.metadata);
    }
    assert(arrow_type(g) == f.data_type) by {
        match f.data_type {
            DataTypeModel::Struct(fields) => {
                arrow_round_trip_all(fields);
            },
            DataTypeModel::List(item) => {
                arrow_round_trip(*item);
            },
            DataTypeModel::LargeList(item) => {
                arrow_round_trip(*item);
            },
            _ => {
                lemma_leaf_round_trip(f.data_type);
            },
        }
    }
}

/// The Arrow fields of the fields of plain Arrow fields are those Arrow fields.
pub proof fn arrow_round_trip_all(fields: Seq<ArrowFieldModel>)
    requires
        all_plain(fields),
        fields_of_arrow(fields) is Ok,
    ensures
        arrow_fields(fields_of_arrow(fields)->Ok_0) == fields,
    decreases fields,
{
    let all = fields_of_arrow(fields)->Ok_0;
    if fields.len() > 0 {
        arrow_round_trip(fields[0]);
        arrow_round_trip_all(fields.drop_first());
        assert(all.drop_first() =~= fields_of_arrow(fields.drop_first())->Ok_0);
        assert(arrow_fields(all) =~= fields);
    } else {
        assert(arrow_fields(all) =~= fields);
    }
}

} // verus!
