//! The stored type of a field.

use vstd::prelude::*;
use crate::arrow::ArrowField;
use crate::arrow::ArrowFieldModel;
use crate::arrow::DataType;
use crate::arrow::DataTypeModel;
use crate::arrow::ScalarType;
use crate::arrow::TimeUnit;
use crate::error::outcome;
use crate::error::Error;
use crate::error::ErrorModel;
use crate::seqs::opt_view;
use crate::text::concat;
use crate::text::i32_text;
use crate::text::int_text;
use crate::text::nat_text;
use crate::text::u64_text;

verus! {

/// The type of a field as a dataset stores it. What a nested type holds is not
/// part of it: that is told by the children of the field.
#[derive(Debug)]
pub enum LogicalType {
    Scalar(ScalarType),
    Timestamp(TimeUnit, Option<String>),
    FixedSizeList(Box<LogicalType>, i32),
    Dictionary { value: Box<LogicalType>, key: Box<LogicalType> },
    /// A list; `structs` tells whether its items are structs.
    List { structs: bool },
    /// A list with large offsets; `structs` tells whether its items are structs.
    LargeList { structs: bool },
    Struct,
}

/// A stored type as a mathematical value.
pub enum LogicalModel {
    Scalar(ScalarType),
    Timestamp(TimeUnit, Option<Seq<char>>),
    FixedSizeList(Box<LogicalModel>, i32),
    Dictionary { value: Box<LogicalModel>, key: Box<LogicalModel> },
    List { structs: bool },
    LargeList { structs: bool },
    Struct,
}

impl LogicalType {
    /// The type as a mathematical value.
    pub open spec fn model(self) -> LogicalModel
        decreases self,
    {
        match self {
            LogicalType::Scalar(s) => LogicalModel::Scalar(s),
            LogicalType::Timestamp(unit, zone) => LogicalModel::Timestamp(unit, opt_view(zone)),
            LogicalType::FixedSizeList(item, n) => LogicalModel::FixedSizeList(
                Box::new((*item).model()),
                n,
            ),
            LogicalType::Dictionary { value, key } => LogicalModel::Dictionary {
                value: Box::new((*value).model()),
                key: Box::new((*key).model()),
            },
            LogicalType::List { structs } => LogicalModel::List { structs },
            LogicalType::LargeList { structs } => LogicalModel::LargeList { structs },
            LogicalType::Struct => LogicalModel::Struct,
        }
    }
}

impl View for LogicalType {
    type V = LogicalModel;

    open spec fn view(&self) -> LogicalModel {
        self.model()
    }
}

/// The short name of a time unit.
pub open spec fn unit_text(unit: TimeUnit) -> Seq<char> {
    match unit {
        TimeUnit::Second => "s"@,
        TimeUnit::Millisecond => "ms"@,
        TimeUnit::Microsecond => "us"@,
        TimeUnit::Nanosecond => "ns"@,
    }
}

fn unit_name(unit: TimeUnit) -> (r: &'static str)
    ensures
        r@ == unit_text(unit),
{
    match unit {
        TimeUnit::Second => "s",
        TimeUnit::Millisecond => "ms",
        TimeUnit::Microsecond => "us",
        TimeUnit::Nanosecond => "ns",
    }
}

/// The text of a decimal type.
pub open spec fn decimal_text(name: Seq<char>, precision: u8, scale: i8) -> Seq<char> {
    name + nat_text(precision as nat) + ":"@ + int_text(scale as int)
}

/// The text of a scalar type.
pub open spec fn scalar_text(s: ScalarType) -> Seq<char> {
    match s {
        ScalarType::Null => "null"@,
        ScalarType::Boolean => "bool"@,
        ScalarType::Int8 => "int8"@,
        ScalarType::Int16 => "int16"@,
        ScalarType::Int32 => "int32"@,
        ScalarType::Int64 => "int64"@,
        ScalarType::UInt8 => "uint8"@,
        ScalarType::UInt16 => "uint16"@,
        ScalarType::UInt32 => "uint32"@,
        ScalarType::UInt64 => "uint64"@,
        ScalarType::Float16 => "halffloat"@,
        ScalarType::Float32 => "float"@,
        ScalarType::Float64 => "double"@,
        ScalarType::Utf8 => "string"@,
        ScalarType::LargeUtf8 => "large_string"@,
        ScalarType::Binary => "binary"@,
        ScalarType::LargeBinary => "large_binary"@,
        ScalarType::FixedSizeBinary(n) => "fixed_size_binary:"@ + int_text(n as int),
        ScalarType::Date32 => "date32:day"@,
        ScalarType::Date64 => "date64:ms"@,
        ScalarType::Time32(unit) => "time32:"@ + unit_text(unit),
        ScalarType::Time64(unit) => "time64:"@ + unit_text(unit),
        ScalarType::Duration(unit) => "duration:"@ + unit_text(unit),
        ScalarType::Decimal128(p, s) => decimal_text("decimal:128:"@, p, s),
        ScalarType::Decimal256(p, s) => decimal_text("decimal:256:"@, p, s),
    }
}

fn decimal_name(name: &str, precision: u8, scale: i8) -> (r: String)
    ensures
        r@ == decimal_text(name@, precision, scale),
{
    let head = concat(concat(name, u64_text(precision as u64).as_str()).as_str(), ":");
    concat(head.as_str(), i32_text(scale as i32).as_str())
}

fn scalar_name(s: ScalarType) -> (r: String)
    ensures
        r@ == scalar_text(s),
{
    match s {
        ScalarType::Null => "null".to_owned(),
        ScalarType::Boolean => "bool".to_owned(),
        ScalarType::Int8 => "int8".to_owned(),
        ScalarType::Int16 => "int16".to_owned(),
        ScalarType::Int32 => "int32".to_owned(),
        ScalarType::Int64 => "int64".to_owned(),
        ScalarType::UInt8 => "uint8".to_owned(),
        ScalarType::UInt16 => "uint16".to_owned(),
        ScalarType::UInt32 => "uint32".to_owned(),
        ScalarType::UInt64 => "uint64".to_owned(),
        ScalarType::Float16 => "halffloat".to_owned(),
        ScalarType::Float32 => "float".to_owned(),
        ScalarType::Float64 => "double".to_owned(),
        ScalarType::Utf8 => "string".to_owned(),
        ScalarType::LargeUtf8 => "large_string".to_owned(),
        ScalarType::Binary => "binary".to_owned(),
        ScalarType::LargeBinary => "large_binary".to_owned(),
        ScalarType::FixedSizeBinary(n) => concat("fixed_size_binary:", i32_text(n).as_str()),
        ScalarType::Date32 => "date32:day".to_owned(),
        ScalarType::Date64 => "date64:ms".to_owned(),
        ScalarType::Time32(unit) => concat("time32:", unit_name(unit)),
        ScalarType::Time64(unit) => concat("time64:", unit_name(unit)),
        ScalarType::Duration(unit) => concat("duration:", unit_name(unit)),
        ScalarType::Decimal128(p, s) => decimal_name("decimal:128:", p, s),
        ScalarType::Decimal256(p, s) => decimal_name("decimal:256:", p, s),
    }
}

impl LogicalModel {
    /// Whether the type is a list.
    pub open spec fn is_list(self) -> bool {
        self is List
    }

    /// Whether the type is a list with large offsets.
    pub open spec fn is_large_list(self) -> bool {
        self is LargeList
    }

    /// Whether the type is a struct.
    pub open spec fn is_struct(self) -> bool {
        self is Struct
    }

    /// Whether the fields of the type have children.
    pub open spec fn is_nested(self) -> bool {
        self is List || self is LargeList || self is Struct
    }

    /// Whether both types are lists of one fixed size.
    pub open spec fn same_list_size(self, other: LogicalModel) -> bool {
        self is FixedSizeList && other is FixedSizeList && self->FixedSizeList_1
            == other->FixedSizeList_1
    }

    /// Whether the type is a dictionary.
    pub open spec fn is_dictionary(self) -> bool {
        self is Dictionary
    }

    /// Whether values of the type are numbers or points or spans of time.
    pub open spec fn is_primitive(self) -> bool {
        match self {
            LogicalModel::Scalar(s) => match s {
                ScalarType::Null | ScalarType::Boolean | ScalarType::Utf8 | ScalarType::LargeUtf8
                | ScalarType::Binary | ScalarType::LargeBinary
                | ScalarType::FixedSizeBinary(_) => false,
                _ => true,
            },
            LogicalModel::Timestamp(_, _) => true,
            _ => false,
        }
    }

    /// Whether values of the type are byte strings of any length.
    pub open spec fn is_binary_like(self) -> bool {
        match self {
            LogicalModel::Scalar(s) => match s {
                ScalarType::Utf8 | ScalarType::LargeUtf8 | ScalarType::Binary
                | ScalarType::LargeBinary => true,
                _ => false,
            },
            _ => false,
        }
    }

    /// The text of the type.
    pub open spec fn text(self) -> Seq<char>
        decreases self,
    {
        match self {
            LogicalModel::Scalar(s) => scalar_text(s),
            LogicalModel::Timestamp(unit, zone) => "timestamp:"@ + unit_text(unit) + ":"@ + (
            match zone {
                Some(z) => z,
                None => "-"@,
            }),
            LogicalModel::FixedSizeList(item, n) => "fixed_size_list:"@ + (*item).text() + ":"@
                + int_text(n as int),
            LogicalModel::Dictionary { value, key } => "dict:"@ + (*value).text() + ":"@
                + (*key).text() + ":false"@,
            LogicalModel::List { structs } => if structs {
                "list.struct"@
            } else {
                "list"@
            },
            LogicalModel::LargeList { structs } => if structs {
                "large_list.struct"@
            } else {
                "large_list"@
            },
            LogicalModel::Struct => "struct"@,
        }
    }
}

fn copy_zone(zone: &Option<String>) -> (r: Option<String>)
    ensures
        opt_view(r) == opt_view(*zone),
{
    match zone {
        Some(z) => Some(z.clone()),
        None => None,
    }
}

impl LogicalType {
    /// Whether the type is a list.
    pub fn is_list(&self) -> (r: bool)
        ensures
            r == self@.is_list(),
    {
        matches!(self, LogicalType::List { .. })
    }

    /// Whether the type is a list with large offsets.
    pub fn is_large_list(&self) -> (r: bool)
        ensures
            r == self@.is_large_list(),
    {
        matches!(self, LogicalType::LargeList { .. })
    }

    /// Whether the type is a struct.
    pub fn is_struct(&self) -> (r: bool)
        ensures
            r == self@.is_struct(),
    {
        matches!(self, LogicalType::Struct)
    }

    /// Whether the fields of the type have children.
    pub fn is_nested(&self) -> (r: bool)
        ensures
            r == self@.is_nested(),
    {
        self.is_list() || self.is_large_list() || self.is_struct()
    }

    /// Whether both types are lists of one fixed size.
    pub fn same_list_size(&self, other: &LogicalType) -> (r: bool)
        ensures
            r == self@.same_list_size(other@),
    {
        match (self, other) {
            (LogicalType::FixedSizeList(_, n), LogicalType::FixedSizeList(_, m)) => *n == *m,
            _ => false,
        }
    }

    /// Whether the type is a dictionary.
    pub fn is_dictionary(&self) -> (r: bool)
        ensures
            r == self@.is_dictionary(),
    {
        matches!(self, LogicalType::Dictionary { .. })
    }

    /// Whether values of the type are numbers or points or spans of time.
    pub fn is_primitive(&self) -> (r: bool)
        ensures
            r == self@.is_primitive(),
    {
        match self {
            LogicalType::Scalar(s) => match s {
                ScalarType::Null | ScalarType::Boolean | ScalarType::Utf8 | ScalarType::LargeUtf8
                | ScalarType::Binary | ScalarType::LargeBinary
                | ScalarType::FixedSizeBinary(_) => false,
                _ => true,
            },
            LogicalType::Timestamp(_, _) => true,
            _ => false,
        }
    }

    /// Whether values of the type are byte strings of any length.
    pub fn is_binary_like(&self) -> (r: bool)
        ensures
            r == self@.is_binary_like(),
    {
        match self {
            LogicalType::Scalar(s) => match s {
                ScalarType::Utf8 | ScalarType::LargeUtf8 | ScalarType::Binary
                | ScalarType::LargeBinary => true,
                _ => false,
            },
            _ => false,
        }
    }

    /// The text of the type.
    pub fn text(&self) -> (r: String)
        ensures
            r@ == self@.text(),
        decreases self,
    {
        match self {
            LogicalType::Scalar(s) => scalar_name(*s),
            LogicalType::Timestamp(unit, zone) => {
                let head = concat(concat("timestamp:", unit_name(*unit)).as_str(), ":");
                match zone {
                    Some(z) => concat(head.as_str(), z.as_str()),
                    None => concat(head.as_str(), "-"),
                }
            },
            LogicalType::FixedSizeList(item, n) => {
                let head = concat("fixed_size_list:", item.text().as_str());
                concat(concat(head.as_str(), ":").as_str(), i32_text(*n).as_str())
            },
            LogicalType::Dictionary { value, key } => {
                let head = concat(concat("dict:", value.text().as_str()).as_str(), ":");
                concat(concat(head.as_str(), key.text().as_str()).as_str(), ":false")
            },
            LogicalType::List { structs } => if *structs {
                "list.struct".to_owned()
            } else {
                "list".to_owned()
            },
            LogicalType::LargeList { structs } => if *structs {
                "large_list.struct".to_owned()
            } else {
                "large_list".to_owned()
            },
            LogicalType::Struct => "struct".to_owned(),
        }
    }

    fn same(&self, other: &LogicalType) -> (r: bool)
        ensures
            r == (self@ == other@),
        decreases self,
    {
        match (self, other) {
            (LogicalType::Scalar(a), LogicalType::Scalar(b)) => *a == *b,
            (LogicalType::Timestamp(a, x), LogicalType::Timestamp(b, y)) => *a == *b && (match (
                x,
                y,
            ) {
                (Some(p), Some(q)) => *p == *q,
                (None, None) => true,
                _ => false,
            }),
            (
                LogicalType::FixedSizeList(a, n),
                LogicalType::FixedSizeList(b, m),
            ) => *n == *m && a.same(b),
            (
                LogicalType::Dictionary { value: v, key: k },
                LogicalType::Dictionary { value: w, key: l },
            ) => v.same(w) && k.same(l),
            (LogicalType::List { structs: a }, LogicalType::List { structs: b }) => *a == *b,
            (
                LogicalType::LargeList { structs: a },
                LogicalType::LargeList { structs: b },
            ) => *a == *b,
            (LogicalType::Struct, LogicalType::Struct) => true,
            _ => false,
        }
    }
}

impl Clone for LogicalType {
    fn clone(&self) -> (r: Self)
        ensures
            r@ == self@,
        decreases self,
    {
        match self {
            LogicalType::Scalar(s) => LogicalType::Scalar(*s),
            LogicalType::Timestamp(unit, zone) => LogicalType::Timestamp(*unit, copy_zone(zone)),
            LogicalType::FixedSizeList(item, n) => LogicalType::FixedSizeList(
                Box::new((&**item).clone()),
                *n,
            ),
            LogicalType::Dictionary { value, key } => LogicalType::Dictionary {
                value: Box::new((&**value).clone()),
                key: Box::new((&**key).clone()),
            },
            LogicalType::List { structs } => LogicalType::List { structs: *structs },
            LogicalType::LargeList { structs } => LogicalType::LargeList { structs: *structs },
            LogicalType::Struct => LogicalType::Struct,
        }
    }
}

impl PartialEq for LogicalType {
    fn eq(&self, other: &Self) -> (r: bool) {
        self.same(other)
    }
}

impl vstd::std_specs::cmp::PartialEqSpecImpl for LogicalType {
    open spec fn obeys_eq_spec() -> bool {
        true
    }

    open spec fn eq_spec(&self, other: &Self) -> bool {
        self@ == other@
    }
}

/// The refusal of a type that a dataset cannot store.
pub open spec fn unsupported(name: Seq<char>) -> ErrorModel {
    ErrorModel::Schema { message: "Unsupported data type: "@ + name }
}

fn refuse(name: &str) -> (r: Error)
    ensures
        r@ == unsupported(name@),
{
    Error::Schema { message: concat("Unsupported data type: ", name) }
}

/// The stored type of a type whose values have no fields of their own. The items
/// of a fixed size list, and the keys and values of a dictionary, are of such
/// types.
pub open spec fn leaf_logical(dt: DataTypeModel) -> Result<LogicalModel, ErrorModel>
    decreases dt,
{
    match dt {
        DataTypeModel::Scalar(s) => Ok(LogicalModel::Scalar(s)),
        DataTypeModel::Timestamp(unit, zone) => Ok(LogicalModel::Timestamp(unit, zone)),
        DataTypeModel::FixedSizeList(item, n) => match leaf_logical((*item).data_type) {
            Ok(t) => Ok(LogicalModel::FixedSizeList(Box::new(t), n)),
            Err(e) => Err(e),
        },
        DataTypeModel::Dictionary(key, value) => match leaf_logical(*value) {
            Err(e) => Err(e),
            Ok(v) => match leaf_logical(*key) {
                Err(e) => Err(e),
                Ok(k) => Ok(LogicalModel::Dictionary { value: Box::new(v), key: Box::new(k) }),
            },
        },
        DataTypeModel::List(_) => Err(unsupported("list"@)),
        DataTypeModel::LargeList(_) => Err(unsupported("large_list"@)),
        DataTypeModel::Struct(_) => Err(unsupported("struct"@)),
        DataTypeModel::Unsupported(name) => Err(unsupported(name)),
    }
}

/// The stored type of an Arrow type.
pub open spec fn logical_of(dt: DataTypeModel) -> Result<LogicalModel, ErrorModel> {
    match dt {
        DataTypeModel::List(item) => Ok(LogicalModel::List { structs: (*item).data_type is Struct }),
        DataTypeModel::LargeList(item) => Ok(
            LogicalModel::LargeList { structs: (*item).data_type is Struct },
        ),
        DataTypeModel::Struct(_) => Ok(LogicalModel::Struct),
        _ => leaf_logical(dt),
    }
}

/// The Arrow type of a stored type without children.
pub open spec fn leaf_arrow(t: LogicalModel) -> DataTypeModel
    decreases t,
{
    match t {
        LogicalModel::Scalar(s) => DataTypeModel::Scalar(s),
        LogicalModel::Timestamp(unit, zone) => DataTypeModel::Timestamp(unit, zone),
        LogicalModel::FixedSizeList(item, n) => DataTypeModel::FixedSizeList(
            Box::new(
                ArrowFieldModel {
                    name: "item"@,
                    data_type: leaf_arrow(*item),
                    nullable: true,
                    metadata: Map::empty(),
                },
            ),
            n,
        ),
        LogicalModel::Dictionary { value, key } => DataTypeModel::Dictionary(
            Box::new(leaf_arrow(*key)),
            Box::new(leaf_arrow(*value)),
        ),
        LogicalModel::List { .. } => DataTypeModel::Unsupported("list"@),
        LogicalModel::LargeList { .. } => DataTypeModel::Unsupported("large_list"@),
        LogicalModel::Struct => DataTypeModel::Unsupported("struct"@),
    }
}

fn leaf_type(dt: &DataType) -> (r: Result<LogicalType, Error>)
    ensures
        outcome(r) == leaf_logical(dt@),
    decreases dt,
{
    reveal_with_fuel(DataType::model, 2);
    reveal_with_fuel(ArrowField::model, 2);
    match dt {
        DataType::Scalar(s) => Ok(LogicalType::Scalar(*s)),
        DataType::Timestamp(unit, zone) => Ok(LogicalType::Timestamp(*unit, copy_zone(zone))),
        DataType::FixedSizeList(item, n) => match leaf_type(&item.data_type) {
            Ok(t) => Ok(LogicalType::FixedSizeList(Box::new(t), *n)),
            Err(e) => Err(e),
        },
        DataType::Dictionary(key, value) => match leaf_type(value) {
            Err(e) => Err(e),
            Ok(v) => match leaf_type(key) {
                Err(e) => Err(e),
                Ok(k) => Ok(LogicalType::Dictionary { value: Box::new(v), key: Box::new(k) }),
            },
        },
        DataType::List(_) => Err(refuse("list")),
        DataType::LargeList(_) => Err(refuse("large_list")),
        DataType::Struct(_) => Err(refuse("struct")),
        DataType::Unsupported(name) => Err(refuse(name.as_str())),
    }
}

impl LogicalType {
    /// The stored type of an Arrow type; an error where a dataset cannot store it.
    pub fn from_arrow(dt: &DataType) -> (r: Result<LogicalType, Error>)
        ensures
            outcome(r) == logical_of(dt@),
    {
        reveal_with_fuel(DataType::model, 3);
        reveal_with_fuel(ArrowField::model, 3);
        match dt {
            DataType::List(item) => Ok(
                LogicalType::List { structs: matches!(item.data_type, DataType::Struct(_)) },
            ),
            DataType::LargeList(item) => Ok(
                LogicalType::LargeList { structs: matches!(item.data_type, DataType::Struct(_)) },
            ),
            DataType::Struct(_) => Ok(LogicalType::Struct),
            _ => leaf_type(dt),
        }
    }

    /// The Arrow type of a stored type without children.
    pub fn leaf_to_arrow(&self) -> (r: DataType)
        ensures
            r@ == leaf_arrow(self@),
        decreases self,
    {
        match self {
            LogicalType::Scalar(s) => DataType::Scalar(*s),
            LogicalType::Timestamp(unit, zone) => DataType::Timestamp(*unit, copy_zone(zone)),
            LogicalType::FixedSizeList(item, n) => {
                let field = ArrowField::new("item", item.leaf_to_arrow(), true);
                DataType::FixedSizeList(Box::new(field), *n)
            },
            LogicalType::Dictionary { value, key } => DataType::Dictionary(
                Box::new(key.leaf_to_arrow()),
                Box::new(value.leaf_to_arrow()),
            ),
            LogicalType::List { .. } => DataType::Unsupported("list".to_owned()),
            LogicalType::LargeList { .. } => DataType::Unsupported("large_list".to_owned()),
            LogicalType::Struct => DataType::Unsupported("struct".to_owned()),
        }
    }
}

} // verus!
