//! Schemas: projecting, merging and comparing.

use lance_dataset::arrow::ArrowField;
use lance_dataset::arrow::ArrowSchema;
use lance_dataset::arrow::DataType;
use lance_dataset::arrow::ScalarType;
use lance_dataset::assoc::StringMap;
use lance_dataset::compare::SchemaCompareOptions;
use lance_dataset::field::Field;
use lance_dataset::field_ops::OnTypeMismatch;
use lance_dataset::schema::Schema;
use lance_dataset::schema_ops::OnMissing;

fn scalar(scalar: ScalarType) -> DataType {
    DataType::Scalar(scalar)
}

fn primary_key() -> StringMap {
    let mut metadata = StringMap::new();
    metadata.insert(
        "lance-schema:unenforced-primary-key".to_owned(),
        "true".to_owned(),
    );
    metadata
}

#[test]
fn test_schema_projection() {
    let arrow_schema = ArrowSchema::new(vec![
        ArrowField::new("a", scalar(ScalarType::Int32), false),
        ArrowField::new(
            "b",
            DataType::Struct(vec![
                ArrowField::new("f1", scalar(ScalarType::Utf8), true),
                ArrowField::new("f2", scalar(ScalarType::Boolean), false),
                ArrowField::new("f3", scalar(ScalarType::Float32), false),
            ]),
            true,
        ),
        ArrowField::new("c", scalar(ScalarType::Float64), false),
    ]);
    let schema = Schema::try_from(&arrow_schema).unwrap();
    let projected = schema.project(&["b.f1", "b.f3", "c"]).unwrap();

    let expected_arrow_schema = ArrowSchema::new(vec![
        ArrowField::new(
            "b",
            DataType::Struct(vec![
                ArrowField::new("f1", scalar(ScalarType::Utf8), true),
                ArrowField::new("f3", scalar(ScalarType::Float32), false),
            ]),
            true,
        ),
        ArrowField::new("c", scalar(ScalarType::Float64), false),
    ]);
    assert_eq!(ArrowSchema::from(&projected), expected_arrow_schema);
}

#[test]
fn test_schema_project_by_ids() {
    let arrow_schema = ArrowSchema::new(vec![
        ArrowField::new("a", scalar(ScalarType::Int32), false),
        ArrowField::new(
            "b",
            DataType::Struct(vec![
                ArrowField::new("f1", scalar(ScalarType::Utf8), true),
                ArrowField::new("f2", scalar(ScalarType::Boolean), false),
                ArrowField::new("f3", scalar(ScalarType::Float32), false),
            ]),
            true,
        ),
        ArrowField::new("c", scalar(ScalarType::Float64), false),
    ]);
    let mut schema = Schema::try_from(&arrow_schema).unwrap();
    schema.set_field_id(None);
    let projected = schema.project_by_ids(&[2, 4, 5], true);

    let expected_arrow_schema = ArrowSchema::new(vec![
        ArrowField::new(
            "b",
            DataType::Struct(vec![
                ArrowField::new("f1", scalar(ScalarType::Utf8), true),
                ArrowField::new("f3", scalar(ScalarType::Float32), false),
            ]),
            true,
        ),
        ArrowField::new("c", scalar(ScalarType::Float64), false),
    ]);
    assert_eq!(ArrowSchema::from(&projected), expected_arrow_schema);

    let projected = schema.project_by_ids(&[2], true);
    let expected_arrow_schema = ArrowSchema::new(vec![ArrowField::new(
        "b",
        DataType::Struct(vec![ArrowField::new(
            "f1",
            scalar(ScalarType::Utf8),
            true,
        )]),
        true,
    )]);
    assert_eq!(ArrowSchema::from(&projected), expected_arrow_schema);

    let projected = schema.project_by_ids(&[1], true);
    let expected_arrow_schema = ArrowSchema::new(vec![ArrowField::new(
        "b",
        DataType::Struct(vec![
            ArrowField::new("f1", scalar(ScalarType::Utf8), true),
            ArrowField::new("f2", scalar(ScalarType::Boolean), false),
            ArrowField::new("f3", scalar(ScalarType::Float32), false),
        ]),
        true,
    )]);
    assert_eq!(ArrowSchema::from(&projected), expected_arrow_schema);

    let projected = schema.project_by_ids(&[1, 2], false);
    let expected_arrow_schema = ArrowSchema::new(vec![ArrowField::new(
        "b",
        DataType::Struct(vec![ArrowField::new(
            "f1",
            scalar(ScalarType::Utf8),
            true,
        )]),
        true,
    )]);
    assert_eq!(ArrowSchema::from(&projected), expected_arrow_schema);
}

#[test]
fn test_schema_project_by_schema() {
    let arrow_schema = ArrowSchema::new(vec![
        ArrowField::new("a", scalar(ScalarType::Int32), false),
        ArrowField::new(
            "b",
            DataType::Struct(vec![
                ArrowField::new("f1", scalar(ScalarType::Utf8), true),
                ArrowField::new("f2", scalar(ScalarType::Boolean), false),
                ArrowField::new("f3", scalar(ScalarType::Float32), false),
            ]),
            true,
        ),
        ArrowField::new("c", scalar(ScalarType::Float64), false),
        ArrowField::new("s", scalar(ScalarType::Utf8), false),
        ArrowField::new(
            "l",
            DataType::List(Box::new(ArrowField::new("le", scalar(ScalarType::Int32), false))),
            false,
        ),
        ArrowField::new(
            "fixed_l",
            DataType::List(Box::new(ArrowField::new("elem", scalar(ScalarType::Float32), false))),
            false,
        ),
        ArrowField::new(
            "d",
            DataType::Dictionary(Box::new(scalar(ScalarType::UInt32)), Box::new(scalar(ScalarType::Utf8))),
            false,
        ),
    ]);
    let schema = Schema::try_from(&arrow_schema).unwrap();

    let projection = ArrowSchema::new(vec![
        ArrowField::new(
            "b",
            DataType::Struct(vec![ArrowField::new(
                "f1",
                scalar(ScalarType::Utf8),
                true,
            )]),
            true,
        ),
        ArrowField::new("s", scalar(ScalarType::Utf8), false),
        ArrowField::new(
            "l",
            DataType::List(Box::new(ArrowField::new("le", scalar(ScalarType::Int32), false))),
            false,
        ),
        ArrowField::new(
            "fixed_l",
            DataType::List(Box::new(ArrowField::new("elem", scalar(ScalarType::Float32), false))),
            false,
        ),
        ArrowField::new(
            "d",
            DataType::Dictionary(Box::new(scalar(ScalarType::UInt32)), Box::new(scalar(ScalarType::Utf8))),
            false,
        ),
    ]);
    let projected = schema
        .project_by_schema(&projection, OnMissing::Error, OnTypeMismatch::TakeSelf)
        .unwrap();

    assert_eq!(ArrowSchema::from(&projected), projection);
}

#[test]
fn test_get_nested_field() {
    let arrow_schema = ArrowSchema::new(vec![ArrowField::new(
        "b",
        DataType::Struct(vec![
            ArrowField::new("f1", scalar(ScalarType::Utf8), true),
            ArrowField::new("f2", scalar(ScalarType::Boolean), false),
            ArrowField::new("f3", scalar(ScalarType::Float32), false),
        ]),
        true,
    )]);
    let schema = Schema::try_from(&arrow_schema).unwrap();

    let field = schema.field("b.f2").unwrap();
    assert_eq!(field.data_type(), scalar(ScalarType::Boolean));
}

#[test]
fn test_exclude_fields() {
    let arrow_schema = ArrowSchema::new(vec![
        ArrowField::new("a", scalar(ScalarType::Int32), false),
        ArrowField::new(
            "b",
            DataType::Struct(vec![
                ArrowField::new("f1", scalar(ScalarType::Utf8), true),
                ArrowField::new("f2", scalar(ScalarType::Boolean), false),
                ArrowField::new("f3", scalar(ScalarType::Float32), false),
            ]),
            true,
        ),
        ArrowField::new("c", scalar(ScalarType::Float64), false),
    ]);
    let schema = Schema::try_from(&arrow_schema).unwrap();

    let projection = schema.project(&["a", "b.f2", "b.f3"]).unwrap();
    let excluded = schema.exclude(&projection).unwrap();

    let expected_arrow_schema = ArrowSchema::new(vec![
        ArrowField::new(
            "b",
            DataType::Struct(vec![ArrowField::new(
                "f1",
                scalar(ScalarType::Utf8),
                true,
            )]),
            true,
        ),
        ArrowField::new("c", scalar(ScalarType::Float64), false),
    ]);
    assert_eq!(ArrowSchema::from(&excluded), expected_arrow_schema);
}

#[test]
fn test_intersection() {
    let arrow_schema = ArrowSchema::new(vec![
        ArrowField::new("a", scalar(ScalarType::Int32), false),
        ArrowField::new(
            "b",
            DataType::Struct(vec![
                ArrowField::new("f1", scalar(ScalarType::Utf8), true),
                ArrowField::new("f2", scalar(ScalarType::Boolean), false),
                ArrowField::new("f3", scalar(ScalarType::Float32), false),
            ]),
            true,
        ),
        ArrowField::new("c", scalar(ScalarType::Float64), false),
    ]);
    let schema = Schema::try_from(&arrow_schema).unwrap();

    let arrow_schema = ArrowSchema::new(vec![
        ArrowField::new(
            "b",
            DataType::Struct(vec![
                ArrowField::new("f1", scalar(ScalarType::Utf8), true),
                ArrowField::new("f2", scalar(ScalarType::Boolean), false),
            ]),
            true,
        ),
        ArrowField::new("c", scalar(ScalarType::Float64), false),
        ArrowField::new("d", scalar(ScalarType::Utf8), false),
    ]);
    let other = Schema::try_from(&arrow_schema).unwrap();

    let actual = ArrowSchema::from(&schema.intersection(&other).unwrap());

    let expected = ArrowSchema::new(vec![
        ArrowField::new(
            "b",
            DataType::Struct(vec![
                ArrowField::new("f1", scalar(ScalarType::Utf8), true),
                ArrowField::new("f2", scalar(ScalarType::Boolean), false),
            ]),
            true,
        ),
        ArrowField::new("c", scalar(ScalarType::Float64), false),
    ]);
    assert_eq!(actual, expected);

    let schema_with_list_struct = ArrowSchema::new(vec![ArrowField::new(
        "struct_list",
        DataType::List(Box::new(ArrowField::new(
            "item",
            DataType::Struct(vec![
                ArrowField::new("f1", scalar(ScalarType::Utf8), true),
                ArrowField::new("f2", scalar(ScalarType::Boolean), false),
            ]),
            true,
        ))),
        true,
    )]);
    let schema_with_list_struct = Schema::try_from(&schema_with_list_struct).unwrap();

    let with_missing_field = schema_with_list_struct.project_by_ids(&[1, 3], false);
    let intersection = schema_with_list_struct
        .intersection_ignore_types(&with_missing_field)
        .unwrap();
    assert_eq!(intersection, with_missing_field);
    let intersection = with_missing_field
        .intersection_ignore_types(&schema_with_list_struct)
        .unwrap();
    assert_eq!(intersection, with_missing_field);
}

#[test]
fn test_merge_schemas_and_assign_field_ids() {
    let arrow_schema = ArrowSchema::new(vec![
        ArrowField::new("a", scalar(ScalarType::Int32), false),
        ArrowField::new(
            "b",
            DataType::Struct(vec![
                ArrowField::new("f1", scalar(ScalarType::Utf8), true),
                ArrowField::new("f2", scalar(ScalarType::Boolean), false),
                ArrowField::new("f3", scalar(ScalarType::Float32), false),
            ]),
            true,
        ),
        ArrowField::new("c", scalar(ScalarType::Float64), false),
    ]);
    let schema = Schema::try_from(&arrow_schema).unwrap();

    assert_eq!(schema.max_field_id(), Some(5));

    let to_merged_arrow_schema = ArrowSchema::new(vec![
        ArrowField::new("d", scalar(ScalarType::Int32), false),
        ArrowField::new("e", scalar(ScalarType::Binary), false),
    ]);
    let to_merged = Schema::try_from(&to_merged_arrow_schema).unwrap();
    // It is already assigned with field ids.
    assert_eq!(to_merged.max_field_id(), Some(1));

    let mut merged = schema.merge(&to_merged).unwrap();
    assert_eq!(merged.max_field_id(), Some(5));

    let field = merged.field("d").unwrap();
    assert_eq!(field.id, -1);
    let field = merged.field("e").unwrap();
    assert_eq!(field.id, -1);

    // Need to explicitly assign field ids. Testing we can pass a larger
    // field id to set_field_id.
    merged.set_field_id(Some(7));
    let field = merged.field("d").unwrap();
    assert_eq!(field.id, 8);
    let field = merged.field("e").unwrap();
    assert_eq!(field.id, 9);
    assert_eq!(merged.max_field_id(), Some(9));
}

#[test]
fn test_merge_arrow_schema() {
    let arrow_schema = ArrowSchema::new(vec![
        ArrowField::new("a", scalar(ScalarType::Int32), false),
        ArrowField::new(
            "b",
            DataType::Struct(vec![
                ArrowField::new("f1", scalar(ScalarType::Utf8), true),
                ArrowField::new("f2", scalar(ScalarType::Boolean), false),
                ArrowField::new("f3", scalar(ScalarType::Float32), false),
            ]),
            true,
        ),
        ArrowField::new("c", scalar(ScalarType::Float64), false),
    ]);
    let schema = Schema::try_from(&arrow_schema).unwrap();

    assert_eq!(schema.max_field_id(), Some(5));

    let to_merged_arrow_schema = ArrowSchema::new(vec![
        ArrowField::new("d", scalar(ScalarType::Int32), false),
        ArrowField::new("e", scalar(ScalarType::Binary), false),
    ]);
    let mut merged = schema.merge(&to_merged_arrow_schema).unwrap();
    merged.set_field_id(None);
    assert_eq!(merged.max_field_id(), Some(7));

    let field = merged.field("d").unwrap();
    assert_eq!(field.id, 6);
    let field = merged.field("e").unwrap();
    assert_eq!(field.id, 7);
}

#[test]
fn test_merge_nested_field() {
    let arrow_schema1 = ArrowSchema::new(vec![ArrowField::new(
        "b",
        DataType::Struct(vec![
            ArrowField::new(
                "f1",
                DataType::Struct(vec![ArrowField::new(
                    "f11",
                    scalar(ScalarType::Utf8),
                    true,
                )]),
                true,
            ),
            ArrowField::new("f2", scalar(ScalarType::Float32), false),
        ]),
        true,
    )]);
    let schema1 = Schema::try_from(&arrow_schema1).unwrap();

    let arrow_schema2 = ArrowSchema::new(vec![ArrowField::new(
        "b",
        DataType::Struct(vec![
            ArrowField::new(
                "f1",
                DataType::Struct(vec![ArrowField::new(
                    "f22",
                    scalar(ScalarType::Utf8),
                    true,
                )]),
                true,
            ),
            ArrowField::new("f3", scalar(ScalarType::Float32), false),
        ]),
        true,
    )]);
    let schema2 = Schema::try_from(&arrow_schema2).unwrap();

    let expected_arrow_schema = ArrowSchema::new(vec![ArrowField::new(
        "b",
        DataType::Struct(vec![
            ArrowField::new(
                "f1",
                DataType::Struct(vec![
                    ArrowField::new("f11", scalar(ScalarType::Utf8), true),
                    ArrowField::new("f22", scalar(ScalarType::Utf8), true),
                ]),
                true,
            ),
            ArrowField::new("f2", scalar(ScalarType::Float32), false),
            ArrowField::new("f3", scalar(ScalarType::Float32), false),
        ]),
        true,
    )]);
    let mut expected_schema = Schema::try_from(&expected_arrow_schema).unwrap();
    expected_schema.fields[0]
        .child_mut("f1")
        .unwrap()
        .child_mut("f22")
        .unwrap()
        .id = 4;
    expected_schema.fields[0].child_mut("f2").unwrap().id = 3;

    let mut result = schema1.merge(&schema2).unwrap();
    result.set_field_id(None);
    assert_eq!(result, expected_schema);
}

#[test]
fn test_field_by_id() {
    let arrow_schema = ArrowSchema::new(vec![
        ArrowField::new("a", scalar(ScalarType::Int32), false),
        ArrowField::new(
            "b",
            DataType::Struct(vec![
                ArrowField::new("f1", scalar(ScalarType::Utf8), true),
                ArrowField::new("f2", scalar(ScalarType::Boolean), false),
                ArrowField::new("f3", scalar(ScalarType::Float32), false),
            ]),
            true,
        ),
        ArrowField::new("c", scalar(ScalarType::Float64), false),
    ]);
    let schema = Schema::try_from(&arrow_schema).unwrap();

    let field = schema.field_by_id(1).unwrap();
    assert_eq!(field.name, "b");

    let field = schema.field_by_id(3).unwrap();
    assert_eq!(field.name, "f2");
}

#[test]
fn test_explain_difference() {
    let expected = ArrowSchema::new(vec![
        ArrowField::new("a", scalar(ScalarType::Int32), false),
        ArrowField::new(
            "b",
            DataType::Struct(vec![
                ArrowField::new("f1", scalar(ScalarType::Utf8), true),
                ArrowField::new("f2", scalar(ScalarType::Boolean), false),
                ArrowField::new("f3", scalar(ScalarType::Float32), false),
            ]),
            true,
        ),
        ArrowField::new("c", scalar(ScalarType::Float64), false),
    ]);
    let expected = Schema::try_from(&expected).unwrap();

    let mismatched = ArrowSchema::new(vec![
        ArrowField::new("a", scalar(ScalarType::Int32), false),
        ArrowField::new(
            "b",
            DataType::Struct(vec![
                ArrowField::new("f1", scalar(ScalarType::Utf8), true),
                ArrowField::new("f3", scalar(ScalarType::Float32), false),
            ]),
            true,
        ),
        ArrowField::new("c", scalar(ScalarType::Float64), true),
    ]);
    let mismatched = Schema::try_from(&mismatched).unwrap();

    assert_eq!(
        mismatched.explain_difference(&expected, &SchemaCompareOptions::default()),
        Some(
            "`b` had mismatched children: fields did not match, missing=[b.f2], \
              unexpected=[], `c` should have nullable=false but nullable=true"
                .to_string()
        )
    );
}

#[test]
fn test_schema_difference_subschema() {
    let expected = ArrowSchema::new(vec![
        ArrowField::new("a", scalar(ScalarType::Int32), false),
        ArrowField::new(
            "b",
            DataType::Struct(vec![
                ArrowField::new("f1", scalar(ScalarType::Utf8), true),
                ArrowField::new("f2", scalar(ScalarType::Boolean), false),
                ArrowField::new("f3", scalar(ScalarType::Float32), false),
            ]),
            true,
        ),
        ArrowField::new("c", scalar(ScalarType::Float64), true),
    ]);
    let expected = Schema::try_from(&expected).unwrap();

    // Can omit nullable fields and subfields
    let subschema = ArrowSchema::new(vec![
        ArrowField::new("a", scalar(ScalarType::Int32), false),
        ArrowField::new(
            "b",
            DataType::Struct(vec![
                ArrowField::new("f2", scalar(ScalarType::Boolean), false),
                ArrowField::new("f3", scalar(ScalarType::Float32), false),
            ]),
            true,
        ),
    ]);
    let subschema = Schema::try_from(&subschema).unwrap();

    assert!(!subschema.compare_with_options(&expected, &SchemaCompareOptions::default()));
    assert_eq!(
        subschema.explain_difference(&expected, &SchemaCompareOptions::default()),
        Some(
            "fields did not match, missing=[c], unexpected=[], `b` had mismatched \
             children: fields did not match, missing=[b.f1], unexpected=[]"
                .to_string()
        )
    );
    let options = SchemaCompareOptions {
        allow_missing_if_nullable: true,
        ..Default::default()
    };
    assert!(subschema.compare_with_options(&expected, &options));
    let res = subschema.explain_difference(&expected, &options);
    assert!(res.is_none(), "Expected None, got {:?}", res);

    // Omitting non-nullable fields should fail
    let subschema = ArrowSchema::new(vec![ArrowField::new(
        "b",
        DataType::Struct(vec![ArrowField::new(
            "f2",
            scalar(ScalarType::Boolean),
            false,
        )]),
        true,
    )]);
    let subschema = Schema::try_from(&subschema).unwrap();
    assert!(!subschema.compare_with_options(&expected, &options));
    assert_eq!(
        subschema.explain_difference(&expected, &options),
        Some(
            "fields did not match, missing=[a], unexpected=[], `b` had mismatched \
             children: fields did not match, missing=[b.f3], unexpected=[]"
                .to_string()
        )
    );

    let out_of_order = ArrowSchema::new(vec![
        ArrowField::new("c", scalar(ScalarType::Float64), true),
        ArrowField::new(
            "b",
            DataType::Struct(vec![
                ArrowField::new("f3", scalar(ScalarType::Float32), false),
                ArrowField::new("f2", scalar(ScalarType::Boolean), false),
                ArrowField::new("f1", scalar(ScalarType::Utf8), true),
            ]),
            true,
        ),
        ArrowField::new("a", scalar(ScalarType::Int32), false),
    ]);
    let out_of_order = Schema::try_from(&out_of_order).unwrap();
    assert!(!out_of_order.compare_with_options(&expected, &options));
    assert_eq!(
        subschema.explain_difference(&expected, &options),
        Some(
            "fields did not match, missing=[a], unexpected=[], `b` had mismatched \
             children: fields did not match, missing=[b.f3], unexpected=[]"
                .to_string()
        )
    );

    let options = SchemaCompareOptions {
        ignore_field_order: true,
        ..Default::default()
    };
    assert!(out_of_order.compare_with_options(&expected, &options));
    let res = out_of_order.explain_difference(&expected, &options);
    assert!(res.is_none(), "Expected None, got {:?}", res);
}

#[test]
fn test_all_fields_nullable() {
    let test_cases = vec![
        (
            vec![], // empty schema
            true,
        ),
        (
            vec![
                Field::new_arrow("a", scalar(ScalarType::Int32), true).unwrap(),
                Field::new_arrow("b", scalar(ScalarType::Utf8), true).unwrap(),
            ], // basic case
            true,
        ),
        (
            vec![
                Field::new_arrow("a", scalar(ScalarType::Int32), false).unwrap(),
                Field::new_arrow("b", scalar(ScalarType::Utf8), true).unwrap(),
            ],
            false,
        ),
        (
            // check nested schema, parent is nullable
            vec![Field::new_arrow(
                "struct",
                DataType::Struct(vec![ArrowField::new(
                    "a",
                    scalar(ScalarType::Int32),
                    false,
                )]),
                true,
            )
            .unwrap()],
            false,
        ),
        (
            // check nested schema, child is nullable
            vec![Field::new_arrow(
                "struct",
                DataType::Struct(vec![ArrowField::new(
                    "a",
                    scalar(ScalarType::Int32),
                    true,
                )]),
                false,
            )
            .unwrap()],
            false,
        ),
        (
            // check nested schema, all is nullable
            vec![Field::new_arrow(
                "struct",
                DataType::Struct(vec![ArrowField::new(
                    "a",
                    scalar(ScalarType::Int32),
                    true,
                )]),
                true,
            )
            .unwrap()],
            true,
        ),
    ];

    for (fields, expected) in test_cases {
        let schema = Schema {
            fields,
            metadata: StringMap::new(),
        };
        assert_eq!(schema.all_fields_nullable(), expected);
    }
}

#[test]
fn test_schema_unenforced_primary_key() {
    let cases = vec![
        ArrowSchema::new(vec![ArrowField::new("a", scalar(ScalarType::Int32), false)]),
        ArrowSchema::new(vec![ArrowField::new("a", scalar(ScalarType::Int32), false).with_metadata(primary_key())]),
        ArrowSchema::new(vec![
            ArrowField::new("a", scalar(ScalarType::Int32), false).with_metadata(primary_key()),
            ArrowField::new(
                "b",
                DataType::Struct(vec![ArrowField::new(
                    "f1",
                    scalar(ScalarType::Utf8),
                    false,
                ).with_metadata(primary_key())]),
                false,
            ),
        ]),
    ];
    let expected = [
        vec![],
        vec!["a".to_owned()],
        vec!["a".to_owned(), "f1".to_owned()],
    ];

    for (idx, case) in cases.into_iter().enumerate() {
        let schema = Schema::try_from(&case).unwrap();
        assert_eq!(
            schema
                .unenforced_primary_key()
                .iter()
                .map(|f| f.name.clone())
                .collect::<Vec<_>>(),
            expected[idx]
        );
    }
}

#[test]
fn test_schema_unenforced_primary_key_failures() {
    let cases = vec![
        ArrowSchema::new(vec![ArrowField::new("a", scalar(ScalarType::Int32), true).with_metadata(primary_key())]),
        ArrowSchema::new(vec![ArrowField::new(
            "b",
            DataType::Struct(vec![ArrowField::new(
                "f1",
                scalar(ScalarType::Utf8),
                false,
            )]),
            false,
        ).with_metadata(primary_key())]),
        ArrowSchema::new(vec![ArrowField::new(
            "b",
            DataType::Struct(vec![ArrowField::new(
                "f1",
                scalar(ScalarType::Utf8),
                false,
            ).with_metadata(primary_key())]),
            true,
        )]),
        ArrowSchema::new(vec![ArrowField::new(
            "b",
            DataType::List(Box::new(
                ArrowField::new("f1", scalar(ScalarType::Utf8), false).with_metadata(primary_key()),
            )),
            false,
        )]),
    ];
    let error_message_contains = [
        "Primary key column and all its ancestors must not be nullable",
        "Primary key column must be a leaf",
        "Primary key column and all its ancestors must not be nullable",
        "Primary key column must not be in a list type",
    ];

    for (idx, case) in cases.into_iter().enumerate() {
        let result = Schema::try_from(&case);
        assert!(result.is_err());
        assert!(result
            .unwrap_err()
            .message()
            .contains(error_message_contains[idx]));
    }
}
