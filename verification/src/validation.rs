//! Checking that operations are valid for a table.

use vstd::prelude::*;
use crate::error::Error;
use crate::error::ErrorModel;
use crate::field::field_text;
use crate::field::pre_order;
use crate::field::Field;
use crate::field::FieldModel;
use crate::format::Fragment;
use crate::format::FragmentModel;
use crate::items::holds;
use crate::manifest::Manifest;
use crate::manifest::ManifestModel;
use crate::operation::Operation;
use crate::operation::OperationModel;
use crate::schema::Schema;
use crate::schema::SchemaModel;
use crate::seqs::lemma_skip_ends;
use crate::seqs::lemma_skip_step;
use crate::seqs::opt_view;
use crate::seqs::views;
use crate::text::concat;
use crate::text::concat4;
use crate::text::int_text;
use crate::text::u64_text;

verus! {

/// Whether a fragment has a data file with a field.
pub open spec fn fragment_has(f: FragmentModel, id: i32) -> bool {
    exists|i: int| 0 <= i < f.files.len() && (#[trigger] f.files[i]).fields.contains(id)
}

/// The error of a fragment without a field. The text of the field stands for its debug
/// text.
pub open spec fn field_missing(id: u64, field: FieldModel) -> ErrorModel {
    ErrorModel::InvalidInput {
        source: "Fragment "@ + int_text(id as int) + " does not contain field "@ + field_text(
            field,
        ),
    }
}

/// The first of some fields that a fragment does not have.
pub open spec fn first_missing(f: FragmentModel, fields: Seq<FieldModel>) -> Option<FieldModel>
    decreases fields.len(),
{
    if fields.len() == 0 {
        None
    } else if !fragment_has(f, fields[0].id) {
        Some(fields[0])
    } else {
        first_missing(f, fields.drop_first())
    }
}

/// The first fault of fragments: a field of the schema that one does not have.
pub open spec fn fragments_fault(schema: SchemaModel, fragments: Seq<FragmentModel>) -> Option<
    ErrorModel,
>
    decreases fragments.len(),
{
    if fragments.len() == 0 {
        None
    } else {
        match first_missing(fragments[0], pre_order(schema.fields)) {
            Some(field) => Some(field_missing(fragments[0].id, field)),
            None => fragments_fault(schema, fragments.drop_first()),
        }
    }
}

/// The fault of an operation, if it is not valid for a manifest.
pub open spec fn operation_fault(manifest: Option<ManifestModel>, op: OperationModel) -> Option<
    ErrorModel,
> {
    match manifest {
        None => match op {
            OperationModel::Overwrite { fragments, schema, config_upsert_values: None } => {
                fragments_fault(schema, fragments)
            },
            _ => Some(
                ErrorModel::InvalidInput {
                    source: "Cannot apply operation "@ + op.name() + " to non-existent dataset"@,
                },
            ),
        },
        Some(m) => match op {
            OperationModel::Append { fragments } => fragments_fault(m.schema, fragments),
            OperationModel::Project { schema } => fragments_fault(schema, m.fragments),
            OperationModel::Merge { fragments, schema } => fragments_fault(schema, fragments),
            OperationModel::Overwrite { fragments, schema, config_upsert_values: None } => {
                fragments_fault(schema, fragments)
            },
            OperationModel::Update { updated_fragments, new_fragments, .. } => {
                match fragments_fault(m.schema, updated_fragments) {
                    Some(e) => Some(e),
                    None => fragments_fault(m.schema, new_fragments),
                }
            },
            _ => None,
        },
    }
}

fn has_field_of(f: &Fragment, id: i32) -> (r: bool)
    ensures
        r == fragment_has(f@, id),
{
    let ghost files = f@.files;
    let mut i: usize = 0;
    while i < f.files.len()
        invariant
            i <= f.files@.len(),
            files == f@.files,
            forall|j: int| 0 <= j < i ==> !(#[trigger] files[j]).fields.contains(id),
        decreases f.files@.len() - i,
    {
        assert(files[i as int] == f.files@[i as int]@);
        if holds(f.files[i].fields.as_slice(), &id) {
            return true;
        }
        i += 1;
    }
    false
}

fn missing_field<'a>(f: &Fragment, fields: &Vec<&'a Field>) -> (r: Option<&'a Field>)
    ensures
        match r {
            Some(field) => first_missing(f@, views(fields@)) == Some(field@),
            None => first_missing(f@, views(fields@)) is None,
        },
{
    let ghost all = views(fields@);
    let mut i: usize = 0;
    proof {
        lemma_skip_ends(all);
    }
    while i < fields.len()
        invariant
            i <= fields@.len(),
            all == views(fields@),
            first_missing(f@, all) == first_missing(f@, all.skip(i as int)),
        decreases fields@.len() - i,
    {
        proof {
            lemma_skip_step(all, i as int);
        }
        if !has_field_of(f, fields[i].id) {
            return Some(fields[i]);
        }
        i += 1;
    }
    proof {
        lemma_skip_ends(all);
    }
    None
}

/// Checks that each fragment has all fields of the schema. A fragment may have fields
/// that the schema does not have.
pub fn schema_fragments_valid(schema: &Schema, fragments: &Vec<Fragment>) -> (r: Result<(), Error>)
    ensures
        match r {
            Ok(_) => fragments_fault(schema@, views(fragments@)) is None,
            Err(e) => fragments_fault(schema@, views(fragments@)) == Some(e@),
        },
{
    let ghost all = views(fragments@);
    let fields = schema.fields_pre_order();
    let mut i: usize = 0;
    proof {
        lemma_skip_ends(all);
    }
    while i < fragments.len()
        invariant
            i <= fragments@.len(),
            all == views(fragments@),
            views(fields@) == pre_order(schema@.fields),
            fragments_fault(schema@, all) == fragments_fault(schema@, all.skip(i as int)),
        decreases fragments@.len() - i,
    {
        proof {
            lemma_skip_step(all, i as int);
        }
        match missing_field(&fragments[i], &fields) {
            Some(field) => {
                return Err(
                    Error::InvalidInput {
                        source: concat4(
                            "Fragment ",
                            u64_text(fragments[i].id).as_str(),
                            " does not contain field ",
                            field.text().as_str(),
                        ),
                    },
                );
            },
            None => {},
        }
        i += 1;
    }
    proof {
        lemma_skip_ends(all);
    }
    Ok(())
}

/// Checks that an operation is valid for a manifest.
pub fn validate_operation(manifest: Option<&Manifest>, operation: &Operation) -> (r: Result<
    (),
    Error,
>)
    ensures
        match r {
            Ok(_) => operation_fault(opt_view(manifest), operation@) is None,
            Err(e) => operation_fault(opt_view(manifest), operation@) == Some(e@),
        },
{
    let manifest = match manifest {
        Some(m) => m,
        None => {
            return match operation {
                Operation::Overwrite { fragments, schema, config_upsert_values: None } => {
                    schema_fragments_valid(schema, fragments)
                },
                _ => Err(
                    Error::InvalidInput {
                        source: concat(
                            concat("Cannot apply operation ", operation.name()).as_str(),
                            " to non-existent dataset",
                        ),
                    },
                ),
            };
        },
    };
    match operation {
        Operation::Append { fragments } => schema_fragments_valid(&manifest.schema, fragments),
        Operation::Project { schema } => schema_fragments_valid(schema, &manifest.fragments),
        Operation::Merge { fragments, schema } => schema_fragments_valid(schema, fragments),
        Operation::Overwrite { fragments, schema, config_upsert_values: None } => {
            schema_fragments_valid(schema, fragments)
        },
        Operation::Update { updated_fragments, new_fragments, .. } => {
            match schema_fragments_valid(&manifest.schema, updated_fragments) {
                Ok(_) => schema_fragments_valid(&manifest.schema, new_fragments),
                Err(e) => Err(e),
            }
        },
        _ => Ok(()),
    }
}

} // verus!
