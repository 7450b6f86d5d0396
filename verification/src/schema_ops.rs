//! Schemas from schemas: projections, intersections, merges and comparisons.

use vstd::prelude::*;
use crate::arrow::ArrowField;
use crate::arrow::ArrowSchema;
use crate::arrow::ArrowSchemaModel;
use crate::assoc::StringMap;
use crate::compare::compare_fields;
use crate::compare::explain_fields_difference;
use crate::compare::fields_differences;
use crate::compare::fields_match;
use crate::compare::holds_text;
use crate::compare::names_of;
use crate::compare::SchemaCompareOptions;
use crate::convert::arrow_fields;
use crate::convert::fields_from_arrow;
use crate::convert::fields_of_arrow;
use crate::convert::fields_to_arrow;
use crate::convert::lists_whole;
use crate::error::outcome;
use crate::error::Error;
use crate::error::ErrorModel;
use crate::field::ancestry;
use crate::field::clear_ids;
use crate::field::field_text;
use crate::field::find_named;
use crate::field::has_name;
use crate::field::index_named;
use crate::field::lemma_children;
use crate::field::lemma_index_named;
use crate::field::named;
use crate::field::pre_order;
use crate::field::Field;
use crate::field::FieldModel;
use crate::field_ops::exclude_field;
use crate::field_ops::intersect_field;
use crate::field_ops::keep_ids;
use crate::field_ops::lemma_prepend_nothing;
use crate::field_ops::lemma_prepend_push;
use crate::field_ops::merge_field;
use crate::field_ops::prepend;
use crate::field_ops::project_onto;
use crate::field_ops::project_path;
use crate::field_ops::select_fields;
use crate::field_ops::OnTypeMismatch;
use crate::limits::can_number;
use crate::schema::ids_fit;
use crate::schema::lines;
use crate::schema::keys_among;
use crate::schema::lookup;
use crate::schema::number_fields;
use crate::schema::Schema;
use crate::schema::SchemaModel;
use crate::seqs::lemma_skip_ends;
use crate::seqs::lemma_skip_step;
use crate::seqs::lemma_views_add;
use crate::seqs::lemma_views_push;
use crate::seqs::opt_view;
use crate::seqs::views;
use crate::text::concat;
use crate::text::concat4;
use crate::text::contains_dot;
use crate::text::debug_text;
use crate::text::debug_texts;
use crate::text::i32_text;
use crate::text::int_text;
use crate::text::join;
use crate::text::join_all;
use crate::text::lemma_split_dots_nonempty;
use crate::text::quoted;
use crate::text::quoted_all;
use crate::text::same_text;
use crate::text::split_dots;
use crate::text::split_path;

verus! {

/// What to do when a column is missing in the schema.
#[derive(Debug, Clone, Copy, PartialEq, Eq, Structural)]
pub enum OnMissing {
    Error,
    Ignore,
}

/// The name of the column of row ids, which every dataset has.
pub open spec fn row_id() -> Seq<char> {
    "_rowid"@
}

/// The name of the column of row addresses, which every dataset has.
pub open spec fn row_addr() -> Seq<char> {
    "_rowaddr"@
}

/// The columns that are named, in the order in which their top level fields are
/// first named, added to `found`. Columns below one top level field are merged.
pub open spec fn project_columns(
    fields: Seq<FieldModel>,
    columns: Seq<Seq<char>>,
    found: Seq<FieldModel>,
    err_on_missing: bool,
) -> Result<Seq<FieldModel>, ErrorModel>
    decreases columns.len(),
{
    if columns.len() == 0 {
        Ok(found)
    } else {
        let path = split_dots(columns[0]);
        let rest = columns.drop_first();
        match named(fields, path[0]) {
            Some(f) => {
                let part = project_path(f, path.drop_first());
                match index_named(found, path[0]) {
                    Some(i) => match merge_field(found[i], part) {
                        Ok(m) => project_columns(fields, rest, found.update(i, m), err_on_missing),
                        Err(e) => Err(e),
                    },
                    None => project_columns(fields, rest, found.push(part), err_on_missing),
                }
            },
            None => if err_on_missing && path[0] != row_id() && path[0] != row_addr() {
                Err(
                    ErrorModel::Schema { message: "Column "@ + columns[0] + " does not exist"@ },
                )
            } else {
                project_columns(fields, rest, found, err_on_missing)
            },
        }
    }
}

/// A schema with the metadata of another, if there is one.
pub open spec fn with_metadata(
    fields: Result<Seq<FieldModel>, ErrorModel>,
    metadata: Map<Seq<char>, Seq<char>>,
) -> Result<SchemaModel, ErrorModel> {
    match fields {
        Ok(fields) => Ok(SchemaModel { fields, metadata }),
        Err(e) => Err(e),
    }
}

impl Schema {
    fn do_project(&self, columns: &[&str], err_on_missing: bool) -> (r: Result<Schema, Error>)
        ensures
            outcome(r) == with_metadata(
                project_columns(self@.fields, views(columns@), Seq::empty(), err_on_missing),
                self@.metadata,
            ),
    {
        let ghost all = views(columns@);
        let ghost ours = self@.fields;
        let mut candidates: Vec<Field> = Vec::new();
        let mut i: usize = 0;
        proof {
            lemma_skip_ends(all);
            assert(views(candidates@) =~= Seq::<FieldModel>::empty());
        }
        while i < columns.len()
            invariant
                i <= columns@.len(),
                all == views(columns@),
                ours == self@.fields,
                project_columns(ours, all, Seq::empty(), err_on_missing) == project_columns(
                    ours,
                    all.skip(i as int),
                    views(candidates@),
                    err_on_missing,
                ),
            decreases columns@.len() - i,
        {
            let column = columns[i];
            let path = split_path(column);
            proof {
                lemma_skip_step(all, i as int);
                assert(all[i as int] == column@);
                lemma_split_dots_nonempty(column@);
                lemma_skip_ends(views(path@));
                lemma_skip_step(views(path@), 0);
                assert(views(path@)[0] == path@[0]@);
                lemma_index_named(ours, path@[0]@);
                lemma_index_named(views(candidates@), path@[0]@);
            }
            match find_named(self.fields.as_slice(), path[0].as_str()) {
                Some(k) => {
                    let projected = self.fields[k].project(&path, 1);
                    match find_named(candidates.as_slice(), path[0].as_str()) {
                        Some(c) => match candidates[c].merge(&projected) {
                            Ok(merged) => {
                                let ghost before = candidates@;
                                candidates.set(c, merged);
                                assert(views(candidates@) =~= views(before).update(
                                    c as int,
                                    merged@,
                                ));
                            },
                            Err(e) => {
                                return Err(e);
                            },
                        },
                        None => {
                            proof {
                                lemma_views_push(candidates@, projected);
                            }
                            candidates.push(projected);
                        },
                    }
                },
                None => {
                    if err_on_missing && !same_text(path[0].as_str(), "_rowid") && !same_text(
                        path[0].as_str(),
                        "_rowaddr",
                    ) {
                        return Err(
                            Error::Schema {
                                message: concat(concat("Column ", column).as_str(), " does not exist"),
                            },
                        );
                    }
                },
            }
            i += 1;
        }
        proof {
            lemma_skip_ends(all);
        }
        Ok(Schema { fields: candidates, metadata: self.metadata.clone() })
    }

    /// The schema with only the columns that are named. A column that does not
    /// exist is an error, unless it is one that every dataset has.
    pub fn project(&self, columns: &[&str]) -> (r: Result<Schema, Error>)
        ensures
            outcome(r) == with_metadata(
                project_columns(self@.fields, views(columns@), Seq::empty(), true),
                self@.metadata,
            ),
    {
        self.do_project(columns, true)
    }

    /// The schema with only the columns that are named. Columns that do not exist
    /// are dropped.
    pub fn project_or_drop(&self, columns: &[&str]) -> (r: Result<Schema, Error>)
        ensures
            outcome(r) == with_metadata(
                project_columns(self@.fields, views(columns@), Seq::empty(), false),
                self@.metadata,
            ),
    {
        self.do_project(columns, false)
    }
}

/// The names from the root to the field with an id, with dots between them.
pub open spec fn column_path(fields: Seq<FieldModel>, id: i32) -> Seq<char> {
    join(names_of(ancestry(fields, id)->0), "."@)
}

/// The first fault in the names of top level fields, from position `i` on. A message about
/// a name that occurs twice ends with the text of the schema, which stands for its debug
/// text.
pub open spec fn name_fault(fields: Seq<FieldModel>, i: int) -> Option<ErrorModel>
    decreases fields.len() - i,
{
    if i < 0 || i >= fields.len() {
        None
    } else if fields[i].name.contains('.') {
        Some(
            ErrorModel::Schema {
                message: "Top level field "@ + fields[i].name
                    + " cannot contain `.`. Maybe you meant to create a struct field?"@,
            },
        )
    } else if exists|j: int|
        0 <= j < i && column_path(fields, (#[trigger] fields[j]).id) == column_path(
            fields,
            fields[i].id,
        ) {
        Some(
            ErrorModel::Schema {
                message: "Duplicate field name \""@ + column_path(fields, fields[i].id)
                    + "\" in schema:\n "@ + lines(fields),
            },
        )
    } else {
        name_fault(fields, i + 1)
    }
}

/// The first fault in the ids of all fields of a schema, from position `i` on. A message
/// about an id that occurs twice ends with the text of the schema, which stands for its
/// debug text.
pub open spec fn id_fault(fields: Seq<FieldModel>, all: Seq<FieldModel>, i: int) -> Option<ErrorModel>
    decreases all.len() - i,
{
    if i < 0 || i >= all.len() {
        None
    } else if all[i].id < 0 {
        Some(
            ErrorModel::Schema {
                message: "Field "@ + all[i].name + " has a negative id "@ + int_text(
                    all[i].id as int,
                ),
            },
        )
    } else if exists|j: int| 0 <= j < i && (#[trigger] all[j]).id == all[i].id {
        Some(
            ErrorModel::Schema {
                message: "Duplicate field id "@ + int_text(all[i].id as int) + " in schema "@ + lines(
                    fields,
                ),
            },
        )
    } else {
        id_fault(fields, all, i + 1)
    }
}

/// The first fault of a schema: in the names of its top level fields, then in the
/// ids of all its fields.
pub open spec fn schema_fault(fields: Seq<FieldModel>) -> Option<ErrorModel> {
    match name_fault(fields, 0) {
        Some(e) => Some(e),
        None => id_fault(fields, pre_order(fields), 0),
    }
}

/// A top level field is found by its id.
proof fn lemma_ancestry_found(fields: Seq<FieldModel>, i: int)
    requires
        0 <= i < fields.len(),
    ensures
        ancestry(fields, fields[i].id) is Some,
    decreases fields.len(),
{
    if i < fields.len() - 1 {
        lemma_ancestry_found(fields.drop_last(), i);
    }
}

fn path_names(path: &Vec<&Field>) -> (r: Vec<String>)
    ensures
        views(r@) == names_of(views(path@)),
{
    let mut out: Vec<String> = Vec::new();
    let mut i: usize = 0;
    while i < path.len()
        invariant
            i <= path@.len(),
            out@.len() == i,
            forall|j: int| 0 <= j < i ==> (#[trigger] out@[j])@ == path@[j]@.name,
        decreases path@.len() - i,
    {
        out.push(path[i].name.clone());
        i += 1;
    }
    assert(views(out@) =~= names_of(views(path@)));
    out
}

impl Schema {
    /// Checks the names and ids of the fields: top level names have no dot and
    /// differ, ids are assigned and differ.
    pub fn validate(&self) -> (r: Result<(), Error>)
        ensures
            match r {
                Ok(_) => schema_fault(self@.fields) is None,
                Err(e) => schema_fault(self@.fields) == Some(e@),
            },
    {
        let ghost fields = self@.fields;
        let mut seen_names: Vec<String> = Vec::new();
        let mut i: usize = 0;
        while i < self.fields.len()
            invariant
                i <= self.fields@.len(),
                fields == self@.fields,
                name_fault(fields, 0) == name_fault(fields, i as int),
                seen_names@.len() == i,
                forall|j: int|
                    0 <= j < i ==> (#[trigger] views(seen_names@)[j]) == column_path(
                        fields,
                        fields[j].id,
                    ),
            decreases self.fields@.len() - i,
        {
            let field = &self.fields[i];
            assert(fields[i as int] == field@);
            if contains_dot(field.name.as_str()) {
                return Err(
                    Error::Schema {
                        message: concat(
                            concat("Top level field ", field.name.as_str()).as_str(),
                            " cannot contain `.`. Maybe you meant to create a struct field?",
                        ),
                    },
                );
            }
            proof {
                lemma_ancestry_found(fields, i as int);
            }
            let path = match self.field_ancestry_by_id(field.id) {
                Some(path) => path_names(&path),
                None => Vec::new(),
            };
            let column_path_text = join_all(&path, ".");
            assert(column_path_text@ == column_path(fields, field.id));
            let seen = holds_text(&seen_names, column_path_text.as_str());
            proof {
                if seen {
                    let j = choose|j: int|
                        0 <= j < views(seen_names@).len() && views(seen_names@)[j]
                            == column_path_text@;
                    assert(views(seen_names@)[j] == column_path_text@);
                    assert(column_path(fields, fields[j].id) == column_path_text@);
                } else {
                    assert forall|j: int| 0 <= j < i implies column_path(
                        fields,
                        (#[trigger] fields[j]).id,
                    ) != column_path_text@ by {
                        assert(views(seen_names@)[j] == column_path(fields, fields[j].id));
                        assert(views(seen_names@).contains(views(seen_names@)[j]));
                    }
                }
            }
            if seen {
                return Err(
                    Error::Schema {
                        message: concat4(
                            "Duplicate field name \"",
                            column_path_text.as_str(),
                            "\" in schema:\n ",
                            self.text().as_str(),
                        ),
                    },
                );
            }
            proof {
                lemma_views_push(seen_names@, column_path_text);
            }
            seen_names.push(column_path_text);
            i += 1;
        }
        let all = self.fields_pre_order();
        let ghost seen = views(all@);
        let mut k: usize = 0;
        while k < all.len()
            invariant
                k <= all@.len(),
                seen == views(all@),
                seen == pre_order(self@.fields),
                name_fault(self@.fields, 0) is None,
                id_fault(self@.fields, seen, 0) == id_fault(self@.fields, seen, k as int),
            decreases all@.len() - k,
        {
            let field = all[k];
            assert(seen[k as int] == field@);
            if field.id < 0 {
                return Err(
                    Error::Schema {
                        message: concat4(
                            "Field ",
                            field.name.as_str(),
                            " has a negative id ",
                            i32_text(field.id).as_str(),
                        ),
                    },
                );
            }
            let mut j: usize = 0;
            while j < k
                invariant
                    j <= k < all@.len(),
                    seen == views(all@),
                    seen == pre_order(self@.fields),
                    name_fault(self@.fields, 0) is None,
                    id_fault(self@.fields, seen, 0) == id_fault(self@.fields, seen, k as int),
                    seen[k as int] == field@,
                    field.id >= 0,
                    forall|n: int| 0 <= n < j ==> (#[trigger] seen[n]).id != field.id,
                decreases k - j,
            {
                assert(seen[j as int] == all@[j as int]@);
                if all[j].id == field.id {
                    return Err(
                        Error::Schema {
                            message: concat4(
                                "Duplicate field id ",
                                i32_text(field.id).as_str(),
                                " in schema ",
                                self.text().as_str(),
                            ),
                        },
                    );
                }
                j += 1;
            }
            k += 1;
        }
        Ok(())
    }
}

/// What the fields of a schema have in common with others, in the order of the
/// others.
pub open spec fn intersect_schema(
    fields: Seq<FieldModel>,
    others: Seq<FieldModel>,
    ignore_types: bool,
) -> Result<Seq<FieldModel>, ErrorModel>
    decreases others.len(),
{
    if others.len() == 0 {
        Ok(Seq::empty())
    } else {
        let rest = intersect_schema(fields, others.drop_first(), ignore_types);
        match lookup(fields, others[0].name) {
            Some(f) => match intersect_field(f, others[0], ignore_types) {
                Ok(m) => match rest {
                    Ok(rest) => Ok(seq![m] + rest),
                    Err(e) => Err(e),
                },
                Err(e) => Err(e),
            },
            None => rest,
        }
    }
}

impl Schema {
    fn do_intersection(&self, other: &Schema, ignore_types: bool) -> (r: Result<Schema, Error>)
        ensures
            outcome(r) == with_metadata(
                intersect_schema(self@.fields, other@.fields, ignore_types),
                self@.metadata,
            ),
    {
        let ghost ours = self@.fields;
        let ghost theirs = other@.fields;
        let ghost whole = intersect_schema(ours, theirs, ignore_types);
        let mut candidates: Vec<Field> = Vec::new();
        let mut i: usize = 0;
        proof {
            lemma_skip_ends(theirs);
            assert(views(candidates@) =~= Seq::<FieldModel>::empty());
            lemma_prepend_nothing(whole);
        }
        while i < other.fields.len()
            invariant
                i <= other.fields@.len(),
                ours == self@.fields,
                theirs == other@.fields,
                whole == intersect_schema(ours, theirs, ignore_types),
                whole == prepend(
                    views(candidates@),
                    intersect_schema(ours, theirs.skip(i as int), ignore_types),
                ),
            decreases other.fields@.len() - i,
        {
            let field = &other.fields[i];
            proof {
                lemma_skip_step(theirs, i as int);
            }
            match self.field(field.name.as_str()) {
                Some(candidate) => match candidate.do_intersection(field, ignore_types) {
                    Ok(f) => {
                        proof {
                            lemma_views_push(candidates@, f);
                            lemma_prepend_push(
                                views(candidates@),
                                f@,
                                intersect_schema(ours, theirs.skip(i + 1), ignore_types),
                            );
                        }
                        candidates.push(f);
                    },
                    Err(e) => {
                        return Err(e);
                    },
                },
                None => {},
            }
            i += 1;
        }
        proof {
            lemma_skip_ends(theirs);
            assert(views(candidates@) + Seq::<FieldModel>::empty() =~= views(candidates@));
        }
        Ok(Schema { fields: candidates, metadata: self.metadata.clone() })
    }

    /// What two schemas have in common.
    pub fn intersection(&self, other: &Schema) -> (r: Result<Schema, Error>)
        ensures
            outcome(r) == with_metadata(
                intersect_schema(self@.fields, other@.fields, false),
                self@.metadata,
            ),
    {
        self.do_intersection(other, false)
    }

    /// What two schemas have in common, whatever the types of the fields.
    pub fn intersection_ignore_types(&self, other: &Schema) -> (r: Result<Schema, Error>)
        ensures
            outcome(r) == with_metadata(
                intersect_schema(self@.fields, other@.fields, true),
                self@.metadata,
            ),
    {
        self.do_intersection(other, true)
    }

    /// The schema with only the fields in `column_ids`. Top level and nested fields
    /// can be left out.
    ///
    /// Where `include_all_children` is set, all children of a field whose id was
    /// passed stay. Otherwise only the child fields with the passed ids stay.
    pub fn project_by_ids(&self, column_ids: &[i32], include_all_children: bool) -> (r: Schema)
        ensures
            r@ == (SchemaModel {
                fields: select_fields(self@.fields, column_ids@.to_set(), include_all_children),
                metadata: self@.metadata,
            }),
    {
        Schema {
            fields: keep_ids(&self.fields, column_ids, include_all_children),
            metadata: self.metadata.clone(),
        }
    }
}

/// The fields of a schema that others name, in the order of the others.
pub open spec fn project_schema(
    fields: Seq<FieldModel>,
    onto: Seq<FieldModel>,
    on_missing: OnMissing,
    policy: OnTypeMismatch,
) -> Result<Seq<FieldModel>, ErrorModel>
    decreases onto.len(),
{
    if onto.len() == 0 {
        Ok(Seq::empty())
    } else {
        let rest = project_schema(fields, onto.drop_first(), on_missing, policy);
        match lookup(fields, onto[0].name) {
            Some(f) => match project_onto(f, onto[0], policy) {
                Ok(m) => match rest {
                    Ok(rest) => Ok(seq![m] + rest),
                    Err(e) => Err(e),
                },
                Err(e) => Err(e),
            },
            None => if on_missing == OnMissing::Error {
                Err(ErrorModel::Schema { message: "Field "@ + onto[0].name + " not found"@ })
            } else {
                rest
            },
        }
    }
}

/// What is left of the fields of a schema when others are taken out.
pub open spec fn exclude_schema(fields: Seq<FieldModel>, others: Seq<FieldModel>) -> Seq<FieldModel>
    decreases fields.len(),
{
    if fields.len() == 0 {
        Seq::empty()
    } else {
        let rest = exclude_schema(fields.drop_first(), others);
        match lookup(others, fields[0].name) {
            Some(o) => match exclude_field(fields[0], o) {
                Some(f) => seq![f] + rest,
                None => rest,
            },
            None => seq![fields[0]] + rest,
        }
    }
}

/// The fields of a schema, each merged with the one of its name among others.
pub open spec fn merge_each(fields: Seq<FieldModel>, others: Seq<FieldModel>) -> Result<
    Seq<FieldModel>,
    ErrorModel,
>
    decreases fields.len(),
{
    if fields.len() == 0 {
        Ok(Seq::empty())
    } else {
        let first = match lookup(others, fields[0].name) {
            Some(o) => merge_field(fields[0], o),
            None => Ok(fields[0]),
        };
        match first {
            Ok(f) => match merge_each(fields.drop_first(), others) {
                Ok(rest) => Ok(seq![f] + rest),
                Err(e) => Err(e),
            },
            Err(e) => Err(e),
        }
    }
}

/// The fields, then those of others with a name that is not there yet.
pub open spec fn add_new(fields: Seq<FieldModel>, others: Seq<FieldModel>) -> Seq<FieldModel>
    decreases others.len(),
{
    if others.len() == 0 {
        fields
    } else if has_name(fields, others[0].name) {
        add_new(fields, others.drop_first())
    } else {
        add_new(fields.push(others[0]), others.drop_first())
    }
}

/// A schema merged with another, whose fields lose their ids first. Where both have
/// a metadata key, the value is that of the other.
pub open spec fn merge_schema(a: SchemaModel, b: SchemaModel) -> Result<SchemaModel, ErrorModel> {
    let others = clear_ids(b.fields);
    match merge_each(a.fields, others) {
        Ok(merged) => Ok(
            SchemaModel {
                fields: add_new(merged, others),
                metadata: a.metadata.union_prefer_right(b.metadata),
            },
        ),
        Err(e) => Err(e),
    }
}

/// The first field of a path that a primary key column may not have above it.
pub open spec fn path_fault(path: Seq<FieldModel>) -> Option<ErrorModel>
    decreases path.len(),
{
    if path.len() == 0 {
        None
    } else if path[0].nullable {
        Some(
            ErrorModel::Schema {
                message: "Primary key column and all its ancestors must not be nullable: "@
                    + field_text(path[0]),
            },
        )
    } else if path[0].logical_type.is_list() || path[0].logical_type.is_large_list() {
        Some(
            ErrorModel::Schema {
                message: "Primary key column must not be in a list type: "@ + field_text(path[0]),
            },
        )
    } else {
        path_fault(path.drop_first())
    }
}

/// The first fault of primary key columns.
pub open spec fn key_fault(fields: Seq<FieldModel>, keys: Seq<FieldModel>) -> Option<ErrorModel>
    decreases keys.len(),
{
    if keys.len() == 0 {
        None
    } else if keys[0].children.len() > 0 {
        Some(
            ErrorModel::Schema {
                message: "Primary key column must be a leaf: "@ + field_text(keys[0]),
            },
        )
    } else {
        let above = match ancestry(fields, keys[0].id) {
            Some(path) => path_fault(path),
            None => None,
        };
        match above {
            Some(e) => Some(e),
            None => key_fault(fields, keys.drop_first()),
        }
    }
}

/// The schema of an Arrow schema. All its fields get ids.
pub open spec fn schema_of_arrow(s: ArrowSchemaModel) -> Result<SchemaModel, ErrorModel> {
    match fields_of_arrow(s.fields) {
        Err(e) => Err(e),
        Ok(fields) => {
            let fields = number_fields(fields, None);
            match key_fault(fields, keys_among(pre_order(fields))) {
                Some(e) => Err(e),
                None => Ok(SchemaModel { fields, metadata: s.metadata }),
            }
        },
    }
}

/// What a schema can be made from.
pub trait ToSchema {
    /// The schema, or why there is none.
    spec fn spec_to_schema(&self) -> Result<SchemaModel, ErrorModel>;

    /// Whether the fields can be numbered.
    spec fn numbers_fit(&self) -> bool;

    /// Whether the fields can be numbered.
    fn can_be_numbered(&self) -> (r: bool)
        ensures
            r == self.numbers_fit(),
    ;

    /// The schema, or why there is none.
    fn to_schema(&self) -> (r: Result<Schema, Error>)
        requires
            self.numbers_fit(),
        ensures
            outcome(r) == self.spec_to_schema(),
    ;
}

impl ToSchema for Schema {
    open spec fn spec_to_schema(&self) -> Result<SchemaModel, ErrorModel> {
        Ok(self@)
    }

    open spec fn numbers_fit(&self) -> bool {
        true
    }

    fn can_be_numbered(&self) -> (r: bool) {
        true
    }

    fn to_schema(&self) -> (r: Result<Schema, Error>) {
        Ok(self.clone())
    }
}

impl ToSchema for ArrowSchema {
    open spec fn spec_to_schema(&self) -> Result<SchemaModel, ErrorModel> {
        schema_of_arrow(self@)
    }

    open spec fn numbers_fit(&self) -> bool {
        match fields_of_arrow(self@.fields) {
            Ok(fields) => ids_fit(fields, None),
            Err(_) => true,
        }
    }

    fn can_be_numbered(&self) -> (r: bool) {
        match fields_from_arrow(self.fields.as_slice()) {
            Ok(fields) => can_number(&fields, None),
            Err(_) => true,
        }
    }

    fn to_schema(&self) -> (r: Result<Schema, Error>) {
        let fields = match fields_from_arrow(self.fields.as_slice()) {
            Ok(fields) => fields,
            Err(e) => {
                return Err(e);
            },
        };
        let mut schema = Schema { fields, metadata: self.metadata.clone() };
        schema.set_field_id(None);
        let pk = schema.unenforced_primary_key();
        let ghost keys = views(pk@);
        let ghost all = schema@.fields;
        let mut i: usize = 0;
        proof {
            lemma_skip_ends(keys);
        }
        while i < pk.len()
            invariant
                i <= pk@.len(),
                keys == views(pk@),
                all == schema@.fields,
                key_fault(all, keys) == key_fault(all, keys.skip(i as int)),
                fields_of_arrow(self@.fields) is Ok,
                all == number_fields(fields_of_arrow(self@.fields)->Ok_0, None),
                keys == keys_among(pre_order(all)),
            decreases pk@.len() - i,
        {
            let pk_col = pk[i];
            proof {
                lemma_skip_step(keys, i as int);
                lemma_children(*pk_col);
            }
            if pk_col.children.len() > 0 {
                return Err(
                    Error::Schema {
                        message: concat(
                            "Primary key column must be a leaf: ",
                            pk_col.text().as_str(),
                        ),
                    },
                );
            }
            match schema.field_ancestry_by_id(pk_col.id) {
                Some(ancestors) => match check_key_path(&ancestors) {
                    Some(e) => {
                        return Err(e);
                    },
                    None => {},
                },
                None => {},
            }
            i += 1;
        }
        proof {
            lemma_skip_ends(keys);
        }
        Ok(schema)
    }
}

fn check_key_path(path: &Vec<&Field>) -> (r: Option<Error>)
    ensures
        opt_view(r) == path_fault(views(path@)),
{
    let ghost all = views(path@);
    let mut i: usize = 0;
    proof {
        lemma_skip_ends(all);
    }
    while i < path.len()
        invariant
            i <= path@.len(),
            all == views(path@),
            path_fault(all) == path_fault(all.skip(i as int)),
        decreases path@.len() - i,
    {
        let ancestor = path[i];
        proof {
            lemma_skip_step(all, i as int);
        }
        if ancestor.nullable {
            return Some(
                Error::Schema {
                    message: concat(
                        "Primary key column and all its ancestors must not be nullable: ",
                        ancestor.text().as_str(),
                    ),
                },
            );
        }
        if ancestor.logical_type.is_list() || ancestor.logical_type.is_large_list() {
            return Some(
                Error::Schema {
                    message: concat(
                        "Primary key column must not be in a list type: ",
                        ancestor.text().as_str(),
                    ),
                },
            );
        }
        i += 1;
    }
    proof {
        lemma_skip_ends(all);
    }
    None
}

impl Schema {
    /// The schema of a schema, or of an Arrow schema.
    pub fn try_from<S: ToSchema>(schema: &S) -> (r: Result<Schema, Error>)
        requires
            schema.numbers_fit(),
        ensures
            outcome(r) == schema.spec_to_schema(),
    {
        schema.to_schema()
    }

    /// The part of the schema that another one names, with everything else of the
    /// fields, such as their ids, as in this schema.
    pub fn project_by_schema<S: ToSchema>(
        &self,
        projection: &S,
        on_missing: OnMissing,
        on_type_mismatch: OnTypeMismatch,
    ) -> (r: Result<Schema, Error>)
        requires
            projection.numbers_fit(),
        ensures
            outcome(r) == match projection.spec_to_schema() {
                Ok(p) => with_metadata(
                    project_schema(self@.fields, p.fields, on_missing, on_type_mismatch),
                    self@.metadata,
                ),
                Err(e) => Err(e),
            },
    {
        let target = match projection.to_schema() {
            Ok(p) => p,
            Err(e) => {
                return Err(e);
            },
        };
        let ghost ours = self@.fields;
        let ghost onto = target@.fields;
        let ghost whole = project_schema(ours, onto, on_missing, on_type_mismatch);
        let mut new_fields: Vec<Field> = Vec::new();
        let mut i: usize = 0;
        proof {
            lemma_skip_ends(onto);
            assert(views(new_fields@) =~= Seq::<FieldModel>::empty());
            lemma_prepend_nothing(whole);
        }
        while i < target.fields.len()
            invariant
                i <= target.fields@.len(),
                ours == self@.fields,
                onto == target@.fields,
                projection.spec_to_schema() == Ok::<SchemaModel, ErrorModel>(target@),
                whole == project_schema(ours, onto, on_missing, on_type_mismatch),
                whole == prepend(
                    views(new_fields@),
                    project_schema(ours, onto.skip(i as int), on_missing, on_type_mismatch),
                ),
            decreases target.fields@.len() - i,
        {
            let field = &target.fields[i];
            proof {
                lemma_skip_step(onto, i as int);
            }
            match self.field(field.name.as_str()) {
                Some(self_field) => match self_field.project_by_field(field, on_type_mismatch) {
                    Ok(f) => {
                        proof {
                            lemma_views_push(new_fields@, f);
                            lemma_prepend_push(
                                views(new_fields@),
                                f@,
                                project_schema(
                                    ours,
                                    onto.skip(i + 1),
                                    on_missing,
                                    on_type_mismatch,
                                ),
                            );
                        }
                        new_fields.push(f);
                    },
                    Err(e) => {
                        return Err(e);
                    },
                },
                None => {
                    if on_missing == OnMissing::Error {
                        return Err(
                            Error::Schema {
                                message: concat(
                                    concat("Field ", field.name.as_str()).as_str(),
                                    " not found",
                                ),
                            },
                        );
                    }
                },
            }
            i += 1;
        }
        proof {
            lemma_skip_ends(onto);
            assert(views(new_fields@) + Seq::<FieldModel>::empty() =~= views(new_fields@));
        }
        Ok(Schema { fields: new_fields, metadata: self.metadata.clone() })
    }

    /// What is left of the schema when the fields of another are taken out.
    pub fn exclude<S: ToSchema>(&self, schema: &S) -> (r: Result<Schema, Error>)
        requires
            schema.numbers_fit(),
        ensures
            outcome(r) == match schema.spec_to_schema() {
                Ok(o) => Ok(
                    SchemaModel {
                        fields: exclude_schema(self@.fields, o.fields),
                        metadata: self@.metadata,
                    },
                ),
                Err(_) => Err(
                    ErrorModel::Schema {
                        message: "The other schema is not compatible with this schema"@,
                    },
                ),
            },
    {
        let other = match schema.to_schema() {
            Ok(o) => o,
            Err(_) => {
                return Err(
                    Error::Schema {
                        message: "The other schema is not compatible with this schema".to_owned(),
                    },
                );
            },
        };
        let ghost ours = self@.fields;
        let ghost theirs = other@.fields;
        let mut fields: Vec<Field> = Vec::new();
        let mut i: usize = 0;
        proof {
            lemma_skip_ends(ours);
            assert(views(fields@) + exclude_schema(ours, theirs) =~= exclude_schema(ours, theirs));
        }
        while i < self.fields.len()
            invariant
                i <= self.fields@.len(),
                ours == self@.fields,
                theirs == other@.fields,
                exclude_schema(ours, theirs) == views(fields@) + exclude_schema(
                    ours.skip(i as int),
                    theirs,
                ),
            decreases self.fields@.len() - i,
        {
            let field = &self.fields[i];
            proof {
                lemma_skip_step(ours, i as int);
            }
            let ghost before = fields@;
            let ghost rest = exclude_schema(ours.skip(i + 1), theirs);
            match other.field(field.name.as_str()) {
                Some(other_field) => match field.exclude(other_field) {
                    Some(f) => {
                        fields.push(f);
                        proof {
                            lemma_views_push(before, f);
                            assert(views(before) + (seq![f@] + rest) =~= views(fields@) + rest);
                        }
                    },
                    None => {},
                },
                None => {
                    let f = field.clone();
                    fields.push(f);
                    proof {
                        lemma_views_push(before, f);
                        assert(views(before) + (seq![f@] + rest) =~= views(fields@) + rest);
                    }
                },
            }
            i += 1;
        }
        proof {
            lemma_skip_ends(ours);
            assert(exclude_schema(ours, theirs) =~= views(fields@));
        }
        Ok(Schema { fields, metadata: self.metadata.clone() })
    }

    fn merge_fields(&self, other: &Schema) -> (r: Result<Vec<Field>, Error>)
        ensures
            match r {
                Ok(v) => merge_each(self@.fields, other@.fields) == Ok::<
                    Seq<FieldModel>,
                    ErrorModel,
                >(views(v@)),
                Err(e) => merge_each(self@.fields, other@.fields) == Err::<
                    Seq<FieldModel>,
                    ErrorModel,
                >(e@),
            },
    {
        let ghost ours = self@.fields;
        let ghost theirs = other@.fields;
        let ghost whole = merge_each(ours, theirs);
        let mut merged: Vec<Field> = Vec::new();
        let mut i: usize = 0;
        proof {
            lemma_skip_ends(ours);
            assert(views(merged@) =~= Seq::<FieldModel>::empty());
            lemma_prepend_nothing(whole);
        }
        while i < self.fields.len()
            invariant
                i <= self.fields@.len(),
                ours == self@.fields,
                theirs == other@.fields,
                whole == merge_each(ours, theirs),
                whole == prepend(views(merged@), merge_each(ours.skip(i as int), theirs)),
            decreases self.fields@.len() - i,
        {
            let field = &self.fields[i];
            proof {
                lemma_skip_step(ours, i as int);
            }
            let one = match other.field(field.name.as_str()) {
                Some(other_field) => field.merge(other_field),
                None => Ok(field.clone()),
            };
            match one {
                Ok(f) => {
                    proof {
                        lemma_views_push(merged@, f);
                        lemma_prepend_push(
                            views(merged@),
                            f@,
                            merge_each(ours.skip(i + 1), theirs),
                        );
                    }
                    merged.push(f);
                },
                Err(e) => {
                    return Err(e);
                },
            }
            i += 1;
        }
        proof {
            lemma_skip_ends(ours);
            assert(views(merged@) + Seq::<FieldModel>::empty() =~= views(merged@));
        }
        Ok(merged)
    }

    /// Merges another schema into a copy of this one. Fields that only the other
    /// schema has come without an id.
    pub fn merge<S: ToSchema>(&self, other: &S) -> (r: Result<Schema, Error>)
        requires
            other.numbers_fit(),
        ensures
            outcome(r) == match other.spec_to_schema() {
                Ok(o) => merge_schema(self@, o),
                Err(e) => Err(e),
            },
    {
        let mut other = match other.to_schema() {
            Ok(o) => o,
            Err(e) => {
                return Err(e);
            },
        };
        other.reset_id();
        let mut merged = match self.merge_fields(&other) {
            Ok(v) => v,
            Err(e) => {
                return Err(e);
            },
        };
        let ghost start = views(merged@);
        let ghost theirs = other@.fields;
        let mut i: usize = 0;
        proof {
            lemma_skip_ends(theirs);
        }
        while i < other.fields.len()
            invariant
                i <= other.fields@.len(),
                theirs == other@.fields,
                add_new(start, theirs) == add_new(views(merged@), theirs.skip(i as int)),
            decreases other.fields@.len() - i,
        {
            let field = &other.fields[i];
            proof {
                lemma_skip_step(theirs, i as int);
                lemma_index_named(views(merged@), field@.name);
            }
            if find_named(merged.as_slice(), field.name.as_str()).is_none() {
                let f = field.clone();
                proof {
                    lemma_views_push(merged@, f);
                }
                merged.push(f);
            }
            i += 1;
        }
        proof {
            lemma_skip_ends(theirs);
        }
        let mut metadata = self.metadata.clone();
        metadata.extend(&other.metadata);
        Ok(Schema { fields: merged, metadata })
    }
}

/// Whether two fields of a list have the same name.
pub open spec fn repeats_name(fields: Seq<FieldModel>) -> bool {
    exists|i: int, j: int|
        0 <= i < j < fields.len() && (#[trigger] fields[i]).name == (#[trigger] fields[j]).name
}

/// The names of Arrow fields.
pub open spec fn arrow_names(fields: Seq<ArrowField>) -> Seq<Seq<char>> {
    Seq::new(fields.len(), |i: int| fields[i].name@)
}

fn find_repeat(fields: &Vec<Field>) -> (r: bool)
    ensures
        r == repeats_name(views(fields@)),
{
    let ghost all = views(fields@);
    let mut j: usize = 0;
    while j < fields.len()
        invariant
            j <= fields@.len(),
            all == views(fields@),
            forall|a: int, b: int|
                0 <= a < b < j ==> (#[trigger] all[a]).name != (#[trigger] all[b]).name,
        decreases fields@.len() - j,
    {
        let mut i: usize = 0;
        assert(all[j as int] == fields@[j as int]@);
        while i < j
            invariant
                i <= j < fields@.len(),
                all == views(fields@),
                all[j as int] == fields@[j as int]@,
                forall|a: int| 0 <= a < i ==> (#[trigger] all[a]).name != all[j as int].name,
            decreases j - i,
        {
            assert(all[i as int] == fields@[i as int]@);
            if fields[i].name == fields[j].name {
                assert(all[i as int].name == all[j as int].name);
                return true;
            }
            i += 1;
        }
        j += 1;
    }
    false
}

/// The text of metadata: its entries in a list, as `Debug` writes them.
pub open spec fn metadata_text(entries: Seq<(Seq<char>, Seq<char>)>) -> Seq<char> {
    "{"@ + join(
        Seq::new(
            entries.len(),
            |i: int| debug_text(entries[i].0) + ": "@ + debug_text(entries[i].1),
        ),
        ", "@,
    ) + "}"@
}

fn text_of_metadata(metadata: &StringMap) -> (r: String)
    ensures
        r@ == metadata_text(metadata.listing()),
{
    let entries = metadata.list();
    let ghost listing = metadata.listing();
    let mut texts: Vec<String> = Vec::new();
    let mut i: usize = 0;
    while i < entries.len()
        invariant
            i <= entries@.len(),
            entries@.len() == listing.len(),
            forall|j: int|
                0 <= j < entries@.len() ==> {
                    let e = #[trigger] entries@[j];
                    e.0@ == listing[j].0 && e.1@ == listing[j].1
                },
            texts@.len() == i,
            forall|j: int|
                0 <= j < i ==> (#[trigger] texts@[j])@ == debug_text(listing[j].0) + ": "@
                    + debug_text(listing[j].1),
        decreases entries@.len() - i,
    {
        let text = concat(
            concat(quoted(entries[i].0.as_str()).as_str(), ": ").as_str(),
            quoted(entries[i].1.as_str()).as_str(),
        );
        texts.push(text);
        i += 1;
    }
    assert(views(texts@) =~= Seq::new(
        listing.len(),
        |i: int| debug_text(listing[i].0) + ": "@ + debug_text(listing[i].1),
    ));
    concat(concat("{", join_all(&texts, ", ").as_str()).as_str(), "}")
}

/// How metadata differs from what was expected.
pub open spec fn metadata_difference(metadata: StringMap, expected: StringMap) -> Option<Seq<char>> {
    if metadata@ != expected@ {
        Some(
            "metadata did not match, expected: "@ + metadata_text(expected.listing())
                + ", actual: "@ + metadata_text(metadata.listing()),
        )
    } else {
        None
    }
}

fn explain_metadata_difference(metadata: &StringMap, expected: &StringMap) -> (r: Option<String>)
    ensures
        opt_view(r) == metadata_difference(*metadata, *expected),
{
    if *metadata != *expected {
        Some(
            concat4(
                "metadata did not match, expected: ",
                text_of_metadata(expected).as_str(),
                ", actual: ",
                text_of_metadata(metadata).as_str(),
            ),
        )
    } else {
        None
    }
}

/// Whether a schema is the expected one.
pub open spec fn schema_matches(
    s: SchemaModel,
    expected: SchemaModel,
    o: SchemaCompareOptions,
) -> bool {
    fields_match(s.fields, expected.fields, o) && (o.compare_metadata ==> s.metadata
        == expected.metadata)
}

/// The ways in which a schema differs from the expected one.
pub open spec fn schema_differences(
    s: Schema,
    expected: Schema,
    o: SchemaCompareOptions,
) -> Seq<Seq<char>> {
    let own = fields_differences(s@.fields, expected@.fields, o, None);
    if !o.compare_metadata {
        own
    } else {
        match metadata_difference(s.metadata, expected.metadata) {
            Some(d) => own.push(d),
            None => own,
        }
    }
}

/// The ways in which a schema differs from the expected one, in one text.
pub open spec fn schema_difference(
    s: Schema,
    expected: Schema,
    o: SchemaCompareOptions,
) -> Option<Seq<char>> {
    let all = schema_differences(s, expected, o);
    if all.len() == 0 {
        None
    } else {
        Some(join(all, ", "@))
    }
}

impl Schema {
    /// Adds fields to the end of the schema.
    ///
    /// Fields that cannot be stored are not added. Fields that repeat a name are
    /// added, and reported.
    pub fn extend(&mut self, fields: &[ArrowField]) -> (r: Result<(), Error>)
        ensures
            final(self)@.metadata == old(self)@.metadata,
            match fields_of_arrow(views(fields@)) {
                Err(e) => {
                    &&& final(self)@.fields == old(self)@.fields
                    &&& r is Err
                    &&& r->Err_0@ == e
                },
                Ok(new) => {
                    &&& final(self)@.fields == old(self)@.fields + new
                    &&& match r {
                        Ok(_) => !repeats_name(old(self)@.fields + new),
                        Err(e) => {
                            &&& repeats_name(old(self)@.fields + new)
                            &&& e@ == (ErrorModel::Internal {
                                message: "Attempt to add fields [["@ + join(
                                    debug_texts(arrow_names(fields@)),
                                    ", "@,
                                ) + "]] would lead to duplicate field names"@,
                            })
                        },
                    }
                },
            },
    {
        let mut new_fields = match fields_from_arrow(fields) {
            Ok(v) => v,
            Err(e) => {
                return Err(e);
            },
        };
        let ghost before = self.fields@;
        let ghost new = new_fields@;
        self.fields.append(&mut new_fields);
        proof {
            lemma_views_add(before, new);
        }
        if find_repeat(&self.fields) {
            let mut names: Vec<String> = Vec::new();
            let mut i: usize = 0;
            while i < fields.len()
                invariant
                    i <= fields@.len(),
                    names@.len() == i,
                    forall|j: int| 0 <= j < i ==> (#[trigger] names@[j])@ == fields@[j].name@,
                decreases fields@.len() - i,
            {
                names.push(fields[i].name.clone());
                i += 1;
            }
            assert(views(names@) =~= arrow_names(fields@));
            Err(
                Error::Internal {
                    message: concat(
                        concat(
                            "Attempt to add fields [[",
                            join_all(&quoted_all(&names), ", ").as_str(),
                        ).as_str(),
                        "]] would lead to duplicate field names",
                    ),
                },
            )
        } else {
            Ok(())
        }
    }

    /// Whether the schema is the expected one.
    pub fn compare_with_options(&self, expected: &Schema, options: &SchemaCompareOptions) -> (r:
        bool)
        ensures
            r == schema_matches(self@, expected@, *options),
    {
        compare_fields(self.fields.as_slice(), expected.fields.as_slice(), options) && (
        !options.compare_metadata || self.metadata == expected.metadata)
    }

    /// The ways in which the schema differs from the expected one; `None` if there
    /// are none.
    pub fn explain_difference(&self, expected: &Schema, options: &SchemaCompareOptions) -> (r:
        Option<String>)
        ensures
            opt_view(r) == schema_difference(*self, *expected, *options),
    {
        let mut differences = explain_fields_difference(
            self.fields.as_slice(),
            expected.fields.as_slice(),
            options,
            None,
        );
        if options.compare_metadata {
            match explain_metadata_difference(&self.metadata, &expected.metadata) {
                Some(difference) => {
                    proof {
                        lemma_views_push(differences@, difference);
                    }
                    differences.push(difference);
                },
                None => {},
            }
        }
        assert(views(differences@) == schema_differences(*self, *expected, *options));
        if differences.len() == 0 {
            None
        } else {
            Some(join_all(&differences, ", "))
        }
    }

    /// Fails with the differences if the schema is not the expected one.
    pub fn check_compatible(&self, expected: &Schema, options: &SchemaCompareOptions) -> (r: Result<
        (),
        Error,
    >)
        ensures
            match r {
                Ok(_) => schema_matches(self@, expected@, *options),
                Err(e) => {
                    &&& !schema_matches(self@, expected@, *options)
                    &&& e@ == (ErrorModel::SchemaMismatch {
                        difference: match schema_difference(*self, *expected, *options) {
                            Some(d) => d,
                            None => "unknown reason"@,
                        },
                    })
                },
            },
    {
        if !self.compare_with_options(expected, options) {
            let difference = match self.explain_difference(expected, options) {
                Some(d) => d,
                None => "unknown reason".to_owned(),
            };
            Err(Error::SchemaMismatch { difference })
        } else {
            Ok(())
        }
    }
}

impl ArrowSchema {
    /// The Arrow schema of a schema.
    pub fn from(schema: &Schema) -> (r: ArrowSchema)
        requires
            lists_whole(schema@.fields),
        ensures
            r@ == (ArrowSchemaModel {
                fields: arrow_fields(schema@.fields),
                metadata: schema@.metadata,
            }),
    {
        ArrowSchema {
            fields: fields_to_arrow(&schema.fields),
            metadata: schema.metadata.clone(),
        }
    }
}

} // verus!
