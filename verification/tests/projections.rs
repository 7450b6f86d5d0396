//! Projections: sets of fields of a schema.

use lance_dataset::arrow::ArrowField;
use lance_dataset::arrow::ArrowSchema;
use lance_dataset::arrow::DataType;
use lance_dataset::arrow::ScalarType;
use lance_dataset::error::Error;
use lance_dataset::projection::Projectable;
use lance_dataset::projection::Projection;
use lance_dataset::schema::Schema;
use lance_dataset::schema_ops::OnMissing;
use std::sync::Arc;

fn scalar(name: &str, scalar: ScalarType) -> ArrowField {
    ArrowField::new(name, DataType::Scalar(scalar), true)
}

/// Fields `a`, `b` with `f1` and `f2`, and `c`, with the ids 0 to 4.
fn base() -> Arc<Schema> {
    Arc::new(
        Schema::try_from(&ArrowSchema::new(vec![
            scalar("a", ScalarType::Int32),
            ArrowField::new(
                "b",
                DataType::Struct(vec![
                    scalar("f1", ScalarType::Utf8),
                    scalar("f2", ScalarType::Boolean),
                ]),
                true,
            ),
            scalar("c", ScalarType::Float64),
        ]))
        .unwrap(),
    )
}

#[test]
fn full_and_empty_projections() {
    let full = Projection::full(base());
    assert_eq!(full.to_schema(), *base());
    assert!(full.has_data_fields());
    let empty = Projection::empty(base());
    assert!(empty.is_empty());
    assert!(!empty.has_data_fields());
    assert!(empty.to_schema().fields.is_empty());
    assert!(!empty.with_row_id().is_empty());
}

#[test]
fn unions_and_differences() {
    let p = Projection::empty(base())
        .union_column("a", OnMissing::Error)
        .unwrap()
        .union_columns(&["b.f2"], OnMissing::Error)
        .unwrap();
    assert_eq!(p.clone().into_schema().field_ids(), vec![0, 1, 3]);
    assert!(p.contains_field_id(3));
    assert!(!p.contains_field_id(4));
    let rest = Projection::full(base()).subtract_projection(&p);
    assert_eq!(rest.field_ids.len(), 2);
    assert_eq!(rest.clone().into_schema().field_ids(), vec![1, 2, 4]);
    let both = rest.clone().union_projection(&p);
    assert_eq!(*both.into_schema_ref(), *base());
    let none = rest.intersect(&p);
    assert!(none.is_empty());
}

#[test]
fn missing_columns_of_projections() {
    match Projection::empty(base()).union_column("nope", OnMissing::Error) {
        Err(Error::InvalidInput { source }) => assert_eq!(source, "Column nope does not exist"),
        other => panic!("{}", other.is_ok()),
    }
    let ignored = Projection::empty(base())
        .union_columns(&["nope", "c"], OnMissing::Ignore)
        .unwrap();
    assert_eq!(ignored.to_schema().field_ids(), vec![4]);
}

#[test]
fn predicates_choose_fields() {
    let p = Projection::empty(base()).union_predicate(|f| f.name.starts_with('f'));
    assert_eq!(p.to_schema().field_ids(), vec![1, 2, 3]);
    let q = Projection::full(base()).subtract_predicate(|f| f.name == "a");
    assert_eq!(q.to_schema().field_ids(), vec![1, 2, 3, 4]);
}

#[test]
fn schemas_are_added_and_taken_out() {
    let ac = base().project(&["a", "c"]).unwrap();
    let p = Projection::empty(base()).union_schema(&ac);
    assert_eq!(p.to_schema().field_ids(), vec![0, 4]);
    let q = Projection::full(base()).subtract_schema(&ac);
    assert_eq!(q.to_schema().field_ids(), vec![1, 2, 3]);
    let arrow = ArrowSchema::new(vec![scalar("c", ScalarType::Float64)]);
    let r = Projection::full(base())
        .subtract_arrow_schema(&arrow, OnMissing::Error)
        .unwrap();
    assert_eq!(r.to_schema().field_ids(), vec![0, 1, 2, 3]);
    let s = Projection::empty(base())
        .union_arrow_schema(&arrow, OnMissing::Error)
        .unwrap();
    assert_eq!(s.to_schema().field_ids(), vec![4]);
    let unknown = ArrowSchema::new(vec![scalar("z", ScalarType::Float64)]);
    assert!(Projection::empty(base())
        .union_arrow_schema(&unknown, OnMissing::Error)
        .is_err());
    assert!(Projection::empty(base())
        .union_arrow_schema(&unknown, OnMissing::Ignore)
        .unwrap()
        .is_empty());
}

#[test]
fn row_ids_come_as_columns() {
    let p = Projection::empty(base())
        .union_column("_rowid", OnMissing::Error)
        .unwrap();
    assert!(p.with_row_id);
    assert!(!p.with_row_addr);
    let arrow = p.with_row_addr().to_arrow_schema().unwrap();
    let names: Vec<&str> = arrow.fields.iter().map(|f| f.name.as_str()).collect();
    assert_eq!(names, vec!["_rowid", "_rowaddr"]);
    assert_eq!(
        arrow.fields[0].data_type,
        DataType::Scalar(ScalarType::UInt64)
    );
}

#[test]
fn projections_of_shared_things() {
    let table: Arc<dyn Projectable> = base();
    let p: Projection = Projection::full(table);
    assert_eq!(p.to_schema(), *base());
}
