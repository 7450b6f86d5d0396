//! Dictionaries of record batches, as far as a schema keeps them.

use vstd::prelude::*;
use crate::error::Error;
use crate::error::ErrorModel;
use crate::field::clone_fields;
use crate::field::find_named;
use crate::field::index_named;
use crate::field::lemma_children;
use crate::field::lemma_index_named;
use crate::field::Dictionary;
use crate::field::Field;
use crate::field::FieldModel;
use crate::schema::Schema;
use crate::schema::SchemaModel;
use crate::seqs::lemma_skip_ends;
use crate::seqs::lemma_skip_step;
use crate::seqs::views;
use crate::text::concat;
use crate::text::same_text;

verus! {

/// The shape of a column of a batch. The arrays belong to the caller, who finds the
/// values of a dictionary again by a number.
#[derive(Debug)]
pub enum Column {
    /// Values without fields and without a dictionary.
    Plain,
    /// Dictionary encoded values: the number of the array of values.
    Dictionary(u64),
    /// The columns of the fields of a struct.
    Struct(Vec<NamedColumn>),
    /// The column of the items of a list.
    List(Box<Column>),
}

/// A column with its name.
#[derive(Debug)]
pub struct NamedColumn {
    pub name: String,
    pub column: Column,
}

/// The columns of a batch.
#[derive(Debug)]
pub struct RecordBatch {
    pub columns: Vec<NamedColumn>,
}

/// The shape of a column as a mathematical value.
pub enum ColumnModel {
    Plain,
    Dictionary(u64),
    Struct(Seq<NamedColumnModel>),
    List(Box<ColumnModel>),
}

/// A named column as a mathematical value.
pub struct NamedColumnModel {
    pub name: Seq<char>,
    pub column: ColumnModel,
}

impl Column {
    /// The column as a mathematical value.
    pub open spec fn model(self) -> ColumnModel
        decreases self,
    {
        match self {
            Column::Plain => ColumnModel::Plain,
            Column::Dictionary(values) => ColumnModel::Dictionary(values),
            Column::Struct(columns) => ColumnModel::Struct(
                Seq::new(
                    columns@.len(),
                    |i: int|
                        if 0 <= i < columns@.len() {
                            columns[i].model()
                        } else {
                            arbitrary()
                        },
                ),
            ),
            Column::List(items) => ColumnModel::List(Box::new((*items).model())),
        }
    }
}

impl NamedColumn {
    /// The named column as a mathematical value.
    pub open spec fn model(self) -> NamedColumnModel
        decreases self,
    {
        NamedColumnModel { name: self.name@, column: self.column.model() }
    }
}

impl View for Column {
    type V = ColumnModel;

    open spec fn view(&self) -> ColumnModel {
        self.model()
    }
}

impl View for NamedColumn {
    type V = NamedColumnModel;

    open spec fn view(&self) -> NamedColumnModel {
        self.model()
    }
}

impl View for RecordBatch {
    type V = Seq<NamedColumnModel>;

    open spec fn view(&self) -> Seq<NamedColumnModel> {
        views(self.columns@)
    }
}

/// The first column of a name.
pub open spec fn column_named(columns: Seq<NamedColumnModel>, name: Seq<char>) -> Option<
    ColumnModel,
>
    decreases columns.len(),
{
    if columns.len() == 0 {
        None
    } else if columns[0].name == name {
        Some(columns[0].column)
    } else {
        column_named(columns.drop_first(), name)
    }
}

/// Whether a column holds what a field describes: a dictionary only where the field
/// is dictionary encoded, a struct only with columns of children, items only where
/// the field has an item.
pub open spec fn fits(f: FieldModel, c: ColumnModel) -> bool
    decreases c,
{
    match c {
        ColumnModel::Plain => true,
        ColumnModel::Dictionary(_) => f.logical_type.is_dictionary(),
        ColumnModel::Struct(columns) => all_fit(f.children, columns),
        ColumnModel::List(items) => f.children.len() > 0 && fits(f.children[0], *items),
    }
}

/// Whether columns hold what the children of their names describe.
pub open spec fn all_fit(children: Seq<FieldModel>, columns: Seq<NamedColumnModel>) -> bool
    decreases columns,
{
    columns.len() > 0 ==> match index_named(children, columns[0].name) {
        Some(i) => fits(children[i], columns[0].column) && all_fit(children, columns.drop_first()),
        None => false,
    }
}

/// The field with the dictionaries of a column.
pub open spec fn with_dictionaries(f: FieldModel, c: ColumnModel) -> FieldModel
    decreases c,
{
    match c {
        ColumnModel::Plain => f,
        ColumnModel::Dictionary(values) => FieldModel {
            dictionary: Some(Dictionary { offset: 0, length: 0, values: Some(values) }),
            ..f
        },
        ColumnModel::Struct(columns) => FieldModel {
            children: with_all_dictionaries(f.children, columns),
            ..f
        },
        ColumnModel::List(items) => if f.children.len() > 0 {
            FieldModel {
                children: f.children.update(0, with_dictionaries(f.children[0], *items)),
                ..f
            }
        } else {
            f
        },
    }
}

/// The children with the dictionaries of the columns of their names.
pub open spec fn with_all_dictionaries(
    children: Seq<FieldModel>,
    columns: Seq<NamedColumnModel>,
) -> Seq<FieldModel>
    decreases columns,
{
    if columns.len() == 0 {
        children
    } else {
        let after = match index_named(children, columns[0].name) {
            Some(i) => children.update(i, with_dictionaries(children[i], columns[0].column)),
            None => children,
        };
        with_all_dictionaries(after, columns.drop_first())
    }
}

/// How many top level fields of a schema, from the first on, have a column.
pub open spec fn fields_with_column(
    fields: Seq<FieldModel>,
    columns: Seq<NamedColumnModel>,
) -> nat
    decreases fields.len(),
{
    if fields.len() == 0 || column_named(columns, fields[0].name) is None {
        0
    } else {
        1 + fields_with_column(fields.drop_first(), columns)
    }
}

/// The fields, of which the first `n` have the dictionaries of their columns.
pub open spec fn attach(
    fields: Seq<FieldModel>,
    columns: Seq<NamedColumnModel>,
    n: int,
) -> Seq<FieldModel> {
    Seq::new(
        fields.len(),
        |i: int|
            if i < n {
                with_dictionaries(fields[i], column_named(columns, fields[i].name)->0)
            } else {
                fields[i]
            },
    )
}

proof fn lemma_struct_columns(columns: Vec<NamedColumn>)
    ensures
        Column::Struct(columns)@ == ColumnModel::Struct(views(columns@)),
{
    assert(Column::Struct(columns)@->Struct_0 =~= views(columns@));
}

impl RecordBatch {
    /// The first column of a name.
    pub fn column_by_name(&self, name: &str) -> (r: Option<&Column>)
        ensures
            match r {
                Some(c) => column_named(self@, name@) == Some(c@),
                None => column_named(self@, name@) is None,
            },
    {
        let ghost all = self@;
        let mut i: usize = 0;
        proof {
            lemma_skip_ends(all);
        }
        while i < self.columns.len()
            invariant
                i <= self.columns@.len(),
                all == self@,
                column_named(all, name@) == column_named(all.skip(i as int), name@),
            decreases self.columns@.len() - i,
        {
            proof {
                lemma_skip_step(all, i as int);
                reveal_with_fuel(NamedColumn::model, 2);
            }
            if same_text(self.columns[i].name.as_str(), name) {
                return Some(&self.columns[i].column);
            }
            i += 1;
        }
        proof {
            lemma_skip_ends(all);
        }
        None
    }
}

impl Field {
    /// The field with the dictionaries of a column.
    pub fn with_dictionary(&self, column: &Column) -> (r: Field)
        ensures
            r@ == with_dictionaries(self@, column@),
        decreases column,
    {
        proof {
            lemma_children(*self);
        }
        match column {
            Column::Plain => self.clone(),
            Column::Dictionary(values) => {
                let mut r = self.clone();
                let ghost before = r;
                r.dictionary = Some(Dictionary { offset: 0, length: 0, values: Some(*values) });
                proof {
                    lemma_children(before);
                    lemma_children(r);
                }
                r
            },
            Column::Struct(columns) => {
                proof {
                    lemma_struct_columns(*columns);
                }
                self.with_children(with_columns(&self.children, columns))
            },
            Column::List(items) => {
                if self.children.len() > 0 {
                    let mut children = self.children.clone();
                    assert(views(children@) =~= self@.children);
                    let item = children[0].with_dictionary(items);
                    let ghost before = children@;
                    children.set(0, item);
                    assert(views(children@) =~= views(before).update(0, item@));
                    self.with_children(children)
                } else {
                    self.clone()
                }
            },
        }
    }
}

fn with_columns(fields: &Vec<Field>, columns: &Vec<NamedColumn>) -> (r: Vec<Field>)
    ensures
        views(r@) == with_all_dictionaries(views(fields@), views(columns@)),
    decreases columns,
{
    let ghost all = views(columns@);
    let ghost start = views(fields@);
    let mut children = clone_fields(fields);
    let mut i: usize = 0;
    proof {
        lemma_skip_ends(all);
    }
    while i < columns.len()
        invariant
            i <= columns@.len(),
            all == views(columns@),
            with_all_dictionaries(start, all) == with_all_dictionaries(
                views(children@),
                all.skip(i as int),
            ),
        decreases columns@.len() - i,
    {
        let c = &columns[i];
        proof {
            lemma_skip_step(all, i as int);
            reveal_with_fuel(NamedColumn::model, 2);
            lemma_index_named(views(children@), c.name@);
        }
        match find_named(children.as_slice(), c.name.as_str()) {
            Some(k) => {
                let ghost before = children@;
                let child = children[k].with_dictionary(&c.column);
                children.set(k, child);
                assert(views(children@) =~= views(before).update(k as int, child@));
            },
            None => {},
        }
        i += 1;
    }
    proof {
        lemma_skip_ends(all);
    }
    children
}

proof fn lemma_with_column(fields: Seq<FieldModel>, columns: Seq<NamedColumnModel>)
    ensures
        fields_with_column(fields, columns) <= fields.len(),
        forall|i: int|
            0 <= i < fields_with_column(fields, columns) ==> column_named(
                columns,
                (#[trigger] fields[i]).name,
            ) is Some,
        fields_with_column(fields, columns) < fields.len() ==> column_named(
            columns,
            fields[fields_with_column(fields, columns) as int].name,
        ) is None,
    decreases fields.len(),
{
    if fields.len() > 0 && column_named(columns, fields[0].name) is Some {
        let rest = fields.drop_first();
        lemma_with_column(rest, columns);
        assert forall|i: int| 0 <= i < fields_with_column(fields, columns) implies column_named(
            columns,
            (#[trigger] fields[i]).name,
        ) is Some by {
            if i > 0 {
                assert(rest[i - 1] == fields[i]);
            }
        }
    }
}

fn column_fits(field: &Field, column: &Column) -> (r: bool)
    ensures
        r == fits(field@, column@),
    decreases column, 0nat,
{
    proof {
        lemma_children(*field);
    }
    match column {
        Column::Plain => true,
        Column::Dictionary(_) => field.logical_type.is_dictionary(),
        Column::Struct(columns) => {
            proof {
                lemma_struct_columns(*columns);
            }
            columns_fit(&field.children, columns)
        },
        Column::List(items) => field.children.len() > 0 && column_fits(&field.children[0], items),
    }
}

fn columns_fit(children: &Vec<Field>, columns: &Vec<NamedColumn>) -> (r: bool)
    ensures
        r == all_fit(views(children@), views(columns@)),
    decreases columns, 1nat,
{
    let ghost all = views(columns@);
    let mut i: usize = 0;
    proof {
        lemma_skip_ends(all);
    }
    while i < columns.len()
        invariant
            i <= columns@.len(),
            all == views(columns@),
            all_fit(views(children@), all) == all_fit(views(children@), all.skip(i as int)),
        decreases columns@.len() - i,
    {
        let c = &columns[i];
        proof {
            lemma_skip_step(all, i as int);
            reveal_with_fuel(NamedColumn::model, 2);
            lemma_index_named(views(children@), c.name@);
        }
        match find_named(children.as_slice(), c.name.as_str()) {
            Some(k) => {
                if !column_fits(&children[k], &c.column) {
                    return false;
                }
            },
            None => {
                return false;
            },
        }
        i += 1;
    }
    proof {
        lemma_skip_ends(all);
    }
    true
}

impl Schema {
    /// Whether each column of a batch that has a field holds what the field describes.
    pub fn accepts(&self, batch: &RecordBatch) -> (r: bool)
        ensures
            r == (forall|i: int|
                0 <= i < self@.fields.len() ==> match column_named(
                    batch@,
                    (#[trigger] self@.fields[i]).name,
                ) {
                    Some(c) => fits(self@.fields[i], c),
                    None => true,
                }),
    {
        let mut i: usize = 0;
        while i < self.fields.len()
            invariant
                i <= self.fields@.len(),
                forall|j: int|
                    0 <= j < i ==> match column_named(batch@, (#[trigger] self@.fields[j]).name) {
                        Some(c) => fits(self@.fields[j], c),
                        None => true,
                    },
            decreases self.fields@.len() - i,
        {
            let field = &self.fields[i];
            assert(self@.fields[i as int] == field@);
            proof {
                lemma_children(*field);
            }
            match batch.column_by_name(field.name.as_str()) {
                Some(column) => {
                    if !column_fits(field, column) {
                        return false;
                    }
                },
                None => {},
            }
            i += 1;
        }
        true
    }

    /// Attaches the dictionaries of a batch to the fields of its columns.
    ///
    /// A field without a column is an error. The fields before it have their
    /// dictionaries then, it and those after it stay as they were.
    pub fn set_dictionary(&mut self, batch: &RecordBatch) -> (r: Result<(), Error>)
        requires
            forall|i: int|
                0 <= i < old(self)@.fields.len() ==> match column_named(
                    batch@,
                    (#[trigger] old(self)@.fields[i]).name,
                ) {
                    Some(c) => fits(old(self)@.fields[i], c),
                    None => true,
                },
        ensures
            final(self)@ == (SchemaModel {
                fields: attach(
                    old(self)@.fields,
                    batch@,
                    fields_with_column(old(self)@.fields, batch@) as int,
                ),
                metadata: old(self)@.metadata,
            }),
            match r {
                Ok(_) => fields_with_column(old(self)@.fields, batch@) == old(self)@.fields.len(),
                Err(e) => {
                    let n = fields_with_column(old(self)@.fields, batch@);
                    &&& n < old(self)@.fields.len()
                    &&& e@ == (ErrorModel::Schema {
                        message: "column '"@ + old(self)@.fields[n as int].name
                            + "' does not exist in the record batch"@,
                    })
                },
            },
    {
        let ghost start = self@.fields;
        let ghost n = fields_with_column(start, batch@);
        proof {
            lemma_with_column(start, batch@);
        }
        let mut i: usize = 0;
        assert(self@.fields =~= attach(start, batch@, 0));
        while i < self.fields.len()
            invariant
                i <= self.fields@.len(),
                i <= n <= start.len(),
                start.len() == self.fields@.len(),
                start == old(self)@.fields,
                n == fields_with_column(start, batch@),
                self.metadata == old(self).metadata,
                self@.fields == attach(start, batch@, i as int),
                forall|j: int|
                    0 <= j < n ==> column_named(batch@, (#[trigger] start[j]).name) is Some,
                n < start.len() ==> column_named(batch@, start[n as int].name) is None,
            decreases self.fields@.len() - i,
        {
            assert(self@.fields[i as int] == self.fields@[i as int]@);
            assert(self.fields@[i as int]@ == start[i as int]);
            match batch.column_by_name(self.fields[i].name.as_str()) {
                None => {
                    return Err(
                        Error::Schema {
                            message: concat(
                                concat("column '", self.fields[i].name.as_str()).as_str(),
                                "' does not exist in the record batch",
                            ),
                        },
                    );
                },
                Some(column) => {
                    let field = self.fields[i].with_dictionary(column);
                    let ghost before = self.fields@;
                    self.fields.set(i, field);
                    assert(self@.fields =~= attach(start, batch@, i + 1)) by {
                        assert forall|j: int| 0 <= j < start.len() implies self@.fields[j] == attach(
                            start,
                            batch@,
                            i + 1,
                        )[j] by {
                            assert(views(before)[j] == attach(start, batch@, i as int)[j]);
                        }
                    }
                },
            }
            i += 1;
        }
        Ok(())
    }
}

} // verus!
