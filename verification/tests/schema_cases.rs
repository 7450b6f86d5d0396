//! Schemas: numbering, looking up, selecting and their errors.

use lance_dataset::arrow::ArrowField;
use lance_dataset::arrow::ArrowSchema;
use lance_dataset::arrow::DataType;
use lance_dataset::arrow::ScalarType;
use lance_dataset::arrow::TimeUnit;
use lance_dataset::assoc::StringMap;
use lance_dataset::batch::Column;
use lance_dataset::batch::NamedColumn;
use lance_dataset::batch::RecordBatch;
use lance_dataset::compare::NullabilityComparison;
use lance_dataset::compare::SchemaCompareOptions;
use lance_dataset::error::Error;
use lance_dataset::field::Dictionary;
use lance_dataset::field::Field;
use lance_dataset::field::StorageClass;
use lance_dataset::field_ops::OnTypeMismatch;
use lance_dataset::schema::Schema;
use lance_dataset::schema_ops::OnMissing;
use lance_dataset::tree::SchemaFieldIterPreOrder;

fn scalar(name: &str, scalar: ScalarType, nullable: bool) -> ArrowField {
    ArrowField::new(name, DataType::Scalar(scalar), nullable)
}

/// Fields `a`, `b` with `f1`, `f2` and `f3`, and `c`, with the ids 0 to 5.
fn nested() -> Schema {
    Schema::try_from(&ArrowSchema::new(vec![
        scalar("a", ScalarType::Int32, false),
        ArrowField::new(
            "b",
            DataType::Struct(vec![
                scalar("f1", ScalarType::Utf8, true),
                scalar("f2", ScalarType::Boolean, false),
                scalar("f3", ScalarType::Float32, false),
            ]),
            true,
        ),
        scalar("c", ScalarType::Float64, false),
    ]))
    .unwrap()
}

fn schema_of(fields: Vec<ArrowField>) -> Schema {
    Schema::try_from(&ArrowSchema::new(fields)).unwrap()
}

fn names(schema: &Schema) -> Vec<String> {
    schema
        .fields_pre_order()
        .iter()
        .map(|f| f.name.clone())
        .collect()
}

fn one_entry(key: &str, value: &str) -> StringMap {
    let mut map = StringMap::new();
    map.insert(key.to_owned(), value.to_owned());
    map
}

#[test]
fn ids_are_given_in_pre_order() {
    let schema = nested();
    assert_eq!(schema.field_ids(), vec![0, 1, 2, 3, 4, 5]);
    assert_eq!(names(&schema), vec!["a", "b", "f1", "f2", "f3", "c"]);
    assert_eq!(schema.top_level_field_ids(), vec![0, 1, 5]);
    let parents: Vec<i32> = schema.fields_pre_order().iter().map(|f| f.parent_id).collect();
    assert_eq!(parents, vec![-1, -1, 1, 1, 1, -1]);
}

#[test]
fn iterator_yields_parents_before_children() {
    let schema = nested();
    let mut iter = SchemaFieldIterPreOrder::new(&schema.fields);
    let mut seen = Vec::new();
    while let Some(field) = iter.next() {
        seen.push(field.name.clone());
    }
    assert_eq!(seen, vec!["a", "b", "f1", "f2", "f3", "c"]);
    assert!(iter.next().is_none());
}

#[test]
fn numbering_again_keeps_ids() {
    let mut schema = nested();
    schema.set_field_id(None);
    assert_eq!(schema.field_ids(), vec![0, 1, 2, 3, 4, 5]);
    schema.set_field_id(Some(40));
    assert_eq!(schema.field_ids(), vec![0, 1, 2, 3, 4, 5]);
}

#[test]
fn reset_ids_are_given_anew() {
    let mut schema = nested();
    schema.reset_id();
    assert_eq!(schema.field_ids(), vec![-1; 6]);
    assert_eq!(schema.max_field_id(), Some(-1));
    schema.set_field_id(Some(9));
    assert_eq!(schema.field_ids(), vec![10, 11, 12, 13, 14, 15]);
}

#[test]
fn missing_ids_follow_the_greatest() {
    let mut schema = nested();
    schema.fields[0].id = -1;
    schema.fields[1].children[1].id = -1;
    let mut same = schema.clone();
    schema.set_field_id(None);
    assert_eq!(schema.field_ids(), vec![6, 1, 2, 7, 4, 5]);
    let greatest = same.max_field_id();
    same.set_field_id(greatest);
    assert_eq!(same.field_ids(), schema.field_ids());
    schema.set_field_id(Some(70));
    assert_eq!(schema.field_ids(), vec![6, 1, 2, 7, 4, 5]);
}

#[test]
fn empty_schema_has_no_greatest_id() {
    let schema = Schema { fields: vec![], metadata: StringMap::new() };
    assert_eq!(schema.max_field_id(), None);
    assert!(schema.fields_pre_order().is_empty());
    assert!(schema.all_fields_nullable());
}

#[test]
fn ancestry_leads_to_the_field() {
    let schema = nested();
    let path = schema.field_ancestry_by_id(4).unwrap();
    let path: Vec<&str> = path.iter().map(|f| f.name.as_str()).collect();
    assert_eq!(path, vec!["b", "f3"]);
    assert!(schema.field_ancestry_by_id(77).is_none());
}

#[test]
fn fields_can_be_changed_by_id() {
    let mut schema = nested();
    schema.field_by_id_mut(3).unwrap().name = "renamed".to_owned();
    assert_eq!(names(&schema), vec!["a", "b", "f1", "renamed", "f3", "c"]);
    schema.mut_field_by_id(5).unwrap().nullable = true;
    assert!(schema.field_by_id(5).unwrap().nullable);
    assert!(schema.field_by_id_mut(99).is_none());
    assert!(schema.mut_field_by_id(99).is_none());
}

#[test]
fn columns_are_resolved_by_path() {
    let schema = nested();
    let path = schema.resolve("b.f2").unwrap();
    assert_eq!(path.len(), 2);
    assert_eq!(path[0].name, "b");
    assert_eq!(path[1].id, 3);
    assert!(path[0].children.iter().any(|f| f.id == path[1].id));
    assert!(schema.resolve("b.f9").is_none());
    assert!(schema.resolve("z").is_none());
    assert_eq!(schema.field_id("b.f3").unwrap(), 4);
    match schema.field_id("b.nope") {
        Err(Error::Schema { message }) => {
            assert_eq!(message, "Vector column not in schema")
        }
        other => panic!("{:?}", other),
    }
}

#[test]
fn missing_column_is_an_error_or_dropped() {
    let schema = nested();
    match schema.project(&["a", "nope"]) {
        Err(Error::Schema { message }) => assert_eq!(message, "Column nope does not exist"),
        other => panic!("{:?}", other),
    }
    let dropped = schema.project_or_drop(&["a", "nope"]).unwrap();
    assert_eq!(names(&dropped), vec!["a"]);
}

#[test]
fn row_id_columns_are_always_there() {
    let schema = nested();
    let projected = schema.project(&["_rowid", "c", "_rowaddr"]).unwrap();
    assert_eq!(names(&projected), vec!["c"]);
}

#[test]
fn projecting_subfields_merges_them() {
    let schema = nested();
    let projected = schema.project(&["b.f3", "b.f1", "b.f3"]).unwrap();
    assert_eq!(projected.field_ids(), vec![1, 4, 2]);
}

#[test]
fn selecting_every_id_keeps_everything() {
    let schema = nested();
    assert_eq!(schema.project_by_ids(&[0, 1, 2, 3, 4, 5], false), schema);
    assert_eq!(names(&schema.project_by_ids(&[], true)), Vec::<String>::new());
    // A parent without its children is kept as a parent only.
    assert_eq!(names(&schema.project_by_ids(&[1], false)), vec!["b"]);
}

#[test]
fn excluding_itself_leaves_nothing() {
    let schema = nested();
    assert!(schema.exclude(&schema).unwrap().fields.is_empty());
}

#[test]
fn projecting_by_schema_reports_missing_fields() {
    let schema = nested();
    let other = ArrowSchema::new(vec![scalar("x", ScalarType::Int32, false)]);
    match schema.project_by_schema(&other, OnMissing::Error, OnTypeMismatch::TakeSelf) {
        Err(Error::Schema { message }) => assert_eq!(message, "Field x not found"),
        other => panic!("{:?}", other),
    }
    let ignored = schema
        .project_by_schema(&other, OnMissing::Ignore, OnTypeMismatch::TakeSelf)
        .unwrap();
    assert!(ignored.fields.is_empty());
}

#[test]
fn type_mismatch_follows_the_policy() {
    let schema = nested();
    let other = ArrowSchema::new(vec![scalar("a", ScalarType::Utf8, false)]);
    assert!(schema
        .project_by_schema(&other, OnMissing::Error, OnTypeMismatch::Error)
        .is_err());
    let kept = schema
        .project_by_schema(&other, OnMissing::Error, OnTypeMismatch::TakeSelf)
        .unwrap();
    assert_eq!(kept.fields[0].data_type(), DataType::Scalar(ScalarType::Int32));
}

#[test]
fn intersection_of_other_types_is_refused() {
    let schema = nested();
    let other = schema_of(vec![scalar("a", ScalarType::Int64, false)]);
    assert!(schema.intersection(&other).is_err());
    assert_eq!(names(&schema.intersection_ignore_types(&other).unwrap()), vec!["a"]);
}

#[test]
fn dots_in_names_are_not_valid() {
    let schema = schema_of(vec![scalar("a.b", ScalarType::Int32, false)]);
    match schema.validate() {
        Err(Error::Schema { message }) => assert_eq!(
            message,
            "Top level field a.b cannot contain `.`. Maybe you meant to create a struct field?"
        ),
        other => panic!("{:?}", other),
    }
}

#[test]
fn duplicate_names_and_ids_are_not_valid() {
    let twice = schema_of(vec![
        scalar("a", ScalarType::Int32, false),
        scalar("a", ScalarType::Int32, false),
    ]);
    match twice.validate() {
        Err(Error::Schema { message }) => {
            assert_eq!(
                message,
                format!("Duplicate field name \"a\" in schema:\n {}", twice.text())
            )
        }
        other => panic!("{:?}", other),
    }
    let mut schema = nested();
    schema.fields[1].children[0].id = 0;
    match schema.validate() {
        Err(Error::Schema { message }) => {
            assert_eq!(message, format!("Duplicate field id 0 in schema {}", schema.text()))
        }
        other => panic!("{:?}", other),
    }
    let mut schema = nested();
    schema.fields[2].id = -3;
    match schema.validate() {
        Err(Error::Schema { message }) => assert_eq!(message, "Field c has a negative id -3"),
        other => panic!("{:?}", other),
    }
    assert!(nested().validate().is_ok());
}

#[test]
fn extending_by_a_known_name_is_refused() {
    let mut schema = nested();
    schema
        .extend(&[scalar("d", ScalarType::Int32, true)])
        .unwrap();
    assert_eq!(schema.field("d").unwrap().id, -1);
    match schema.extend(&[
        scalar("e", ScalarType::Int32, true),
        scalar("c", ScalarType::Int32, true),
    ]) {
        Err(Error::Internal { message }) => assert_eq!(
            message,
            "Attempt to add fields [[\"e\", \"c\"]] would lead to duplicate field names"
        ),
        other => panic!("{:?}", other),
    }
}

#[test]
fn merging_keeps_own_ids() {
    let schema = nested();
    let other = schema_of(vec![
        ArrowField::new(
            "b",
            DataType::Struct(vec![scalar("f4", ScalarType::Int32, true)]),
            true,
        ),
        scalar("d", ScalarType::Int32, true),
    ]);
    let merged = schema.merge(&other).unwrap();
    assert_eq!(names(&merged), vec!["a", "b", "f1", "f2", "f3", "f4", "c", "d"]);
    assert_eq!(merged.field_ids(), vec![0, 1, 2, 3, 4, -1, 5, -1]);
}

#[test]
fn arrow_schema_comes_back() {
    let arrow = ArrowSchema::new(vec![
        scalar("a", ScalarType::Decimal128(10, 2), false),
        ArrowField::new(
            "t",
            DataType::Timestamp(TimeUnit::Microsecond, Some("UTC".to_owned())),
            true,
        ),
        ArrowField::new(
            "v",
            DataType::FixedSizeList(Box::new(scalar("item", ScalarType::Float32, true)), 16),
            true,
        ),
        ArrowField::new(
            "l",
            DataType::LargeList(Box::new(ArrowField::new(
                "item",
                DataType::Struct(vec![scalar("x", ScalarType::Binary, true)]),
                true,
            ))),
            true,
        ),
    ]);
    let schema = Schema::try_from(&arrow).unwrap();
    assert_eq!(ArrowSchema::from(&schema), arrow);
    let mut renumbered = schema.clone();
    renumbered.reset_id();
    assert_eq!(ArrowSchema::from(&renumbered), arrow);
}

#[test]
fn unsupported_types_are_refused() {
    let arrow = ArrowSchema::new(vec![ArrowField::new(
        "u",
        DataType::Unsupported("Union".to_owned()),
        true,
    )]);
    assert!(matches!(Schema::try_from(&arrow), Err(Error::Schema { .. })));
}

#[test]
fn storage_classes_are_parted() {
    let mut schema = nested();
    let (local, blobs) = schema.partition_by_storage_class();
    assert_eq!(local, schema);
    assert!(blobs.is_none());
    schema.fields[2].storage_class = StorageClass::Blob;
    let (local, blobs) = schema.partition_by_storage_class();
    assert_eq!(local.top_level_field_ids(), vec![0, 1]);
    assert_eq!(blobs.unwrap().top_level_field_ids(), vec![5]);
    assert_eq!(
        schema.retain_storage_class(StorageClass::Blob).top_level_field_ids(),
        vec![5]
    );
}

#[test]
fn storage_class_is_read_from_metadata() {
    let field = scalar("blob", ScalarType::LargeBinary, true)
        .with_metadata(one_entry("lance-schema:storage-class", "blob"));
    let schema = schema_of(vec![field]);
    assert_eq!(schema.fields[0].storage_class, StorageClass::Blob);
}

#[test]
fn metadata_differences_show_quoted_texts() {
    let mut a = nested();
    let mut b = nested();
    a.metadata = one_entry("k", "x\"y");
    b.metadata = one_entry("k", "z");
    let options = SchemaCompareOptions {
        compare_metadata: true,
        ..Default::default()
    };
    assert!(!a.compare_with_options(&b, &options));
    let difference = a.explain_difference(&b, &options).unwrap();
    assert!(difference.contains("metadata"), "{}", difference);
    assert!(difference.contains("\"x\\\"y\""), "{}", difference);
    match a.check_compatible(&b, &options) {
        Err(Error::SchemaMismatch { difference: d }) => assert_eq!(d, difference),
        other => panic!("{:?}", other),
    }
    assert!(a.check_compatible(&b, &SchemaCompareOptions::default()).is_ok());
}

#[test]
fn nullability_can_go_one_way() {
    let strict = schema_of(vec![scalar("a", ScalarType::Int32, false)]);
    let loose = schema_of(vec![scalar("a", ScalarType::Int32, true)]);
    let one_way = SchemaCompareOptions {
        compare_nullability: NullabilityComparison::OneWay,
        ..Default::default()
    };
    assert!(strict.compare_with_options(&loose, &one_way));
    assert!(!loose.compare_with_options(&strict, &one_way));
    let ignore = SchemaCompareOptions {
        compare_nullability: NullabilityComparison::Ignore,
        ..Default::default()
    };
    assert!(loose.compare_with_options(&strict, &ignore));
    assert_eq!(loose.explain_difference(&strict, &ignore), None);
}

#[test]
fn order_can_be_ignored_on_both_sides() {
    let options = SchemaCompareOptions {
        ignore_field_order: true,
        ..Default::default()
    };
    let fields = || {
        vec![
            scalar("a", ScalarType::Int32, false),
            scalar("b", ScalarType::Utf8, true),
            scalar("c", ScalarType::Boolean, true),
        ]
    };
    let mut turned = fields();
    turned.rotate_left(1);
    let mut back = fields();
    back.reverse();
    let (turned, back) = (schema_of(turned), schema_of(back));
    assert!(schema_of(fields()).compare_with_options(&turned, &options));
    assert!(turned.compare_with_options(&back, &options));
    assert!(!turned.compare_with_options(&back, &SchemaCompareOptions::default()));
}

#[test]
fn ids_are_compared_on_request() {
    let a = nested();
    let mut b = nested();
    b.fields[0].id = 17;
    let options = SchemaCompareOptions {
        compare_field_ids: true,
        ..Default::default()
    };
    assert!(!a.compare_with_options(&b, &options));
    assert!(a.explain_difference(&b, &options).unwrap().contains("17"));
    assert!(a.compare_with_options(&b, &SchemaCompareOptions::default()));
}

#[test]
fn dictionaries_are_set_from_a_batch() {
    let mut schema = schema_of(vec![
        ArrowField::new(
            "d",
            DataType::Dictionary(
                Box::new(DataType::Scalar(ScalarType::Int8)),
                Box::new(DataType::Scalar(ScalarType::Utf8)),
            ),
            false,
        ),
        scalar("x", ScalarType::Int32, false),
    ]);
    assert!(schema.has_dictionary_types());
    assert!(!nested().has_dictionary_types());
    let batch = RecordBatch {
        columns: vec![
            NamedColumn { name: "d".to_owned(), column: Column::Dictionary(42) },
            NamedColumn { name: "x".to_owned(), column: Column::Plain },
        ],
    };
    schema.set_dictionary(&batch).unwrap();
    assert_eq!(
        schema.fields[0].dictionary,
        Some(Dictionary { offset: 0, length: 0, values: Some(42) })
    );
    assert_eq!(schema.fields[1].dictionary, None);
    let missing = RecordBatch { columns: vec![] };
    match schema.set_dictionary(&missing) {
        Err(Error::Schema { message }) => {
            assert_eq!(message, "column 'd' does not exist in the record batch")
        }
        other => panic!("{:?}", other),
    }
}

#[test]
fn schema_text_has_a_line_per_field() {
    let schema = schema_of(vec![
        scalar("a", ScalarType::Int32, false),
        scalar("b", ScalarType::Utf8, true),
    ]);
    let text = schema.text();
    assert_eq!(text.matches('\n').count(), 2);
    assert!(text.contains("a") && text.contains("int32"));
}

#[test]
fn equality_is_of_fields() {
    let a = nested();
    let mut b = nested();
    b.metadata = one_entry("k", "v");
    assert_eq!(a, b);
    b.fields[0].name = "z".to_owned();
    assert!(a != b);
}

#[test]
fn new_field_of_an_arrow_type() {
    let field = Field::new_arrow("a", DataType::Scalar(ScalarType::Int32), true).unwrap();
    assert_eq!(field.id, -1);
    assert_eq!(field.parent_id, -1);
    assert!(field.nullable);
    assert_eq!(field.data_type(), DataType::Scalar(ScalarType::Int32));
}
