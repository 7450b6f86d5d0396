//! Arrow schemas as plain values.

use vstd::prelude::*;
use crate::assoc::StringMap;
use crate::seqs::opt_view;
use crate::seqs::views;

verus! {

/// The resolution of a time value.
#[derive(Debug, Clone, Copy, PartialEq, Eq, Structural)]
pub enum TimeUnit {
    Second,
    Millisecond,
    Microsecond,
    Nanosecond,
}

/// A type without children or text.
#[derive(Debug, Clone, Copy, PartialEq, Eq, Structural)]
pub enum ScalarType {
    Null,
    Boolean,
    Int8,
    Int16,
    Int32,
    Int64,
    UInt8,
    UInt16,
    UInt32,
    UInt64,
    Float16,
    Float32,
    Float64,
    Utf8,
    LargeUtf8,
    Binary,
    LargeBinary,
    FixedSizeBinary(i32),
    Date32,
    Date64,
    Time32(TimeUnit),
    Time64(TimeUnit),
    Duration(TimeUnit),
    Decimal128(u8, i8),
    Decimal256(u8, i8),
}

/// The type of an Arrow field.
#[derive(Debug)]
pub enum DataType {
    Scalar(ScalarType),
    /// A point in time, with the name of its time zone.
    Timestamp(TimeUnit, Option<String>),
    /// Lists of one length.
    FixedSizeList(Box<ArrowField>, i32),
    /// Keys into a list of values: the key type and the value type.
    Dictionary(Box<DataType>, Box<DataType>),
    List(Box<ArrowField>),
    LargeList(Box<ArrowField>),
    Struct(Vec<ArrowField>),
    /// A type that a dataset cannot store, by its name.
    Unsupported(String),
}

/// A field of an Arrow schema.
#[derive(Debug)]
pub struct ArrowField {
    pub name: String,
    pub data_type: DataType,
    pub nullable: bool,
    pub metadata: StringMap,
}

/// An Arrow schema.
#[derive(Debug)]
pub struct ArrowSchema {
    pub fields: Vec<ArrowField>,
    pub metadata: StringMap,
}

/// An Arrow type as a mathematical value.
pub enum DataTypeModel {
    Scalar(ScalarType),
    Timestamp(TimeUnit, Option<Seq<char>>),
    FixedSizeList(Box<ArrowFieldModel>, i32),
    Dictionary(Box<DataTypeModel>, Box<DataTypeModel>),
    List(Box<ArrowFieldModel>),
    LargeList(Box<ArrowFieldModel>),
    Struct(Seq<ArrowFieldModel>),
    Unsupported(Seq<char>),
}

/// An Arrow field as a mathematical value.
pub struct ArrowFieldModel {
    pub name: Seq<char>,
    pub data_type: DataTypeModel,
    pub nullable: bool,
    pub metadata: Map<Seq<char>, Seq<char>>,
}

/// An Arrow schema as a mathematical value.
pub struct ArrowSchemaModel {
    pub fields: Seq<ArrowFieldModel>,
    pub metadata: Map<Seq<char>, Seq<char>>,
}

impl DataType {
    /// The type as a mathematical value.
    pub open spec fn model(self) -> DataTypeModel
        decreases self,
    {
        match self {
            DataType::Scalar(s) => DataTypeModel::Scalar(s),
            DataType::Timestamp(unit, zone) => DataTypeModel::Timestamp(unit, opt_view(zone)),
            DataType::FixedSizeList(item, n) => DataTypeModel::FixedSizeList(
                Box::new((*item).model()),
                n,
            ),
            DataType::Dictionary(key, value) => DataTypeModel::Dictionary(
                Box::new((*key).model()),
                Box::new((*value).model()),
            ),
            DataType::List(item) => DataTypeModel::List(Box::new((*item).model())),
            DataType::LargeList(item) => DataTypeModel::LargeList(Box::new((*item).model())),
            DataType::Struct(fields) => DataTypeModel::Struct(
                Seq::new(
                    fields@.len(),
                    |i: int|
                        if 0 <= i < fields@.len() {
                            fields[i].model()
                        } else {
                            arbitrary()
                        },
                ),
            ),
            DataType::Unsupported(name) => DataTypeModel::Unsupported(name@),
        }
    }
}

impl ArrowField {
    /// The field as a mathematical value.
    pub open spec fn model(self) -> ArrowFieldModel
        decreases self,
    {
        ArrowFieldModel {
            name: self.name@,
            data_type: self.data_type.model(),
            nullable: self.nullable,
            metadata: self.metadata@,
        }
    }
}

impl View for DataType {
    type V = DataTypeModel;

    open spec fn view(&self) -> DataTypeModel {
        self.model()
    }
}

impl View for ArrowField {
    type V = ArrowFieldModel;

    open spec fn view(&self) -> ArrowFieldModel {
        self.model()
    }
}

impl View for ArrowSchema {
    type V = ArrowSchemaModel;

    open spec fn view(&self) -> ArrowSchemaModel {
        ArrowSchemaModel { fields: views(self.fields@), metadata: self.metadata@ }
    }
}

/// The fields of a struct type are those of its model.
pub proof fn lemma_struct_fields(fields: Vec<ArrowField>)
    ensures
        DataType::Struct(fields)@ == DataTypeModel::Struct(views(fields@)),
{
    assert(DataType::Struct(fields)@->Struct_0 =~= views(fields@));
}

fn same_zone(a: &Option<String>, b: &Option<String>) -> (r: bool)
    ensures
        r == (opt_view(*a) == opt_view(*b)),
{
    match (a, b) {
        (Some(x), Some(y)) => *x == *y,
        (None, None) => true,
        _ => false,
    }
}

impl DataType {
    fn same(&self, other: &DataType) -> (r: bool)
        ensures
            r == (self@ == other@),
        decreases self,
    {
        match (self, other) {
            (DataType::Scalar(a), DataType::Scalar(b)) => *a == *b,
            (DataType::Timestamp(a, x), DataType::Timestamp(b, y)) => *a == *b && same_zone(x, y),
            (DataType::FixedSizeList(a, n), DataType::FixedSizeList(b, m)) => *n == *m && a.same(b),
            (DataType::Dictionary(k, v), DataType::Dictionary(l, w)) => k.same(l) && v.same(w),
            (DataType::List(a), DataType::List(b)) => a.same(b),
            (DataType::LargeList(a), DataType::LargeList(b)) => a.same(b),
            (DataType::Struct(a), DataType::Struct(b)) => {
                proof {
                    lemma_struct_fields(*a);
                    lemma_struct_fields(*b);
                    assert(*self == DataType::Struct(*a));
                    assert(*other == DataType::Struct(*b));
                }
                if a.len() != b.len() {
                    assert(views(a@).len() != views(b@).len());
                    return false;
                }
                let mut i: usize = 0;
                while i < a.len()
                    invariant
                        i <= a@.len(),
                        a@.len() == b@.len(),
                        *self == DataType::Struct(*a),
                        self@ == DataTypeModel::Struct(views(a@)),
                        other@ == DataTypeModel::Struct(views(b@)),
                        forall|j: int| 0 <= j < i ==> (#[trigger] a@[j])@ == b@[j]@,
                    decreases a@.len() - i,
                {
                    if !a[i].same(&b[i]) {
                        assert(views(a@)[i as int] != views(b@)[i as int]);
                        return false;
                    }
                    i += 1;
                }
                assert(views(a@) =~= views(b@));
                true
            },
            (DataType::Unsupported(a), DataType::Unsupported(b)) => *a == *b,
            _ => false,
        }
    }
}

impl ArrowField {
    /// A field without metadata.
    pub fn new(name: &str, data_type: DataType, nullable: bool) -> (r: Self)
        ensures
            r@ == (ArrowFieldModel {
                name: name@,
                data_type: data_type@,
                nullable,
                metadata: Map::empty(),
            }),
    {
        ArrowField { name: name.to_owned(), data_type, nullable, metadata: StringMap::new() }
    }

    /// The same field with other metadata.
    pub fn with_metadata(self, metadata: StringMap) -> (r: Self)
        ensures
            r@ == (ArrowFieldModel { metadata: metadata@, ..self@ }),
    {
        ArrowField { name: self.name, data_type: self.data_type, nullable: self.nullable, metadata }
    }

    fn same(&self, other: &ArrowField) -> (r: bool)
        ensures
            r == (self@ == other@),
        decreases self,
    {
        self.name == other.name && self.nullable == other.nullable && self.metadata
            == other.metadata && self.data_type.same(&other.data_type)
    }
}

impl ArrowSchema {
    /// A schema without metadata.
    pub fn new(fields: Vec<ArrowField>) -> (r: Self)
        ensures
            r@ == (ArrowSchemaModel { fields: views(fields@), metadata: Map::empty() }),
    {
        ArrowSchema { fields, metadata: StringMap::new() }
    }

    fn same(&self, other: &ArrowSchema) -> (r: bool)
        ensures
            r == (self@ == other@),
    {
        if self.metadata != other.metadata || self.fields.len() != other.fields.len() {
            assert(self.metadata@ != other.metadata@ || self@.fields.len() != other@.fields.len());
            return false;
        }
        let mut i: usize = 0;
        while i < self.fields.len()
            invariant
                i <= self.fields@.len(),
                self.fields@.len() == other.fields@.len(),
                forall|j: int| 0 <= j < i ==> (#[trigger] self.fields@[j])@ == other.fields@[j]@,
            decreases self.fields@.len() - i,
        {
            if !self.fields[i].same(&other.fields[i]) {
                assert(self@.fields[i as int] != other@.fields[i as int]);
                return false;
            }
            i += 1;
        }
        assert(self@.fields =~= other@.fields);
        true
    }
}

impl PartialEq for DataType {
    fn eq(&self, other: &Self) -> (r: bool) {
        self.same(other)
    }
}

impl vstd::std_specs::cmp::PartialEqSpecImpl for DataType {
    open spec fn obeys_eq_spec() -> bool {
        true
    }

    open spec fn eq_spec(&self, other: &Self) -> bool {
        self@ == other@
    }
}

impl PartialEq for ArrowField {
    fn eq(&self, other: &Self) -> (r: bool) {
        self.same(other)
    }
}

impl vstd::std_specs::cmp::PartialEqSpecImpl for ArrowField {
    open spec fn obeys_eq_spec() -> bool {
        true
    }

    open spec fn eq_spec(&self, other: &Self) -> bool {
        self@ == other@
    }
}

impl PartialEq for ArrowSchema {
    fn eq(&self, other: &Self) -> (r: bool) {
        self.same(other)
    }
}

impl vstd::std_specs::cmp::PartialEqSpecImpl for ArrowSchema {
    open spec fn obeys_eq_spec() -> bool {
        true
    }

    open spec fn eq_spec(&self, other: &Self) -> bool {
        self@ == other@
    }
}

} // verus!
