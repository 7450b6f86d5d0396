//! Projections: selections of the fields of a schema.

use vstd::prelude::*;
use vstd::std_specs::iter::IteratorSpec;
use std::collections::HashSet;
use std::sync::Arc;
use crate::arrow::ArrowField;
use crate::arrow::ArrowFieldModel;
use crate::arrow::ArrowSchema;
use crate::arrow::ArrowSchemaModel;
use crate::arrow::DataType;
use crate::arrow::DataTypeModel;
use crate::arrow::ScalarType;
use crate::convert::arrow_fields;
use crate::convert::lists_whole;
use crate::error::outcome;
use crate::error::Error;
use crate::error::ErrorModel;
use crate::field::ids_of;
use crate::field::pre_order;
use crate::field::Field;
use crate::field::FieldModel;
use crate::field_ops::select_fields;
use crate::field_ops::OnTypeMismatch;
use crate::schema::resolve_path;
use crate::schema::Schema;
use crate::schema::SchemaModel;
use crate::schema_ops::project_schema;
use crate::schema_ops::row_addr;
use crate::schema_ops::row_id;
use crate::schema_ops::OnMissing;
use crate::schema_ops::ToSchema;
use crate::seqs::lemma_skip_ends;
use crate::seqs::lemma_skip_step;
use crate::seqs::lemma_views_push;
use crate::seqs::views;
use crate::text::concat;
use crate::text::same_text;
use crate::within::has_id;
use crate::within::lemma_has_id;
use crate::within::projection_within;

verus! {

broadcast use vstd::std_specs::hash::group_hash_axioms;

/// Something that fields can be projected from.
pub trait Projectable: std::fmt::Debug + Send + Sync {
    /// The schema that the fields belong to.
    spec fn spec_schema(&self) -> SchemaModel;

    /// The schema that the fields belong to.
    fn schema(&self) -> (r: &Schema)
        ensures
            r@ == self.spec_schema(),
    ;
}

impl Projectable for Schema {
    open spec fn spec_schema(&self) -> SchemaModel {
        self@
    }

    fn schema(&self) -> (r: &Schema) {
        self
    }
}

/// A selection of fields of a schema, and whether the row id and the row address are
/// selected, which have no field id.
pub struct Projection<P: Projectable + ?Sized = dyn Projectable> {
    pub base: Arc<P>,
    pub field_ids: HashSet<i32>,
    pub with_row_id: bool,
    pub with_row_addr: bool,
}

/// A projection as a mathematical value.
pub struct ProjectionModel {
    pub base: SchemaModel,
    pub field_ids: Set<i32>,
    pub with_row_id: bool,
    pub with_row_addr: bool,
}

impl<P: Projectable + ?Sized> View for Projection<P> {
    type V = ProjectionModel;

    open spec fn view(&self) -> ProjectionModel {
        ProjectionModel {
            base: self.base_schema(),
            field_ids: self.field_ids@,
            with_row_id: self.with_row_id,
            with_row_addr: self.with_row_addr,
        }
    }
}

/// The ids of a list of fields, as a set.
pub open spec fn id_set(fields: Seq<FieldModel>) -> Set<i32> {
    ids_of(fields).to_set()
}

/// The ids of a list of fields that are not negative, as a set.
pub open spec fn assigned_ids(fields: Seq<FieldModel>) -> Set<i32> {
    id_set(fields).filter(|id: i32| id >= 0)
}

/// Whether a field of a list has no id and stands for a column by its name.
pub open spec fn names_column(fields: Seq<FieldModel>, name: Seq<char>) -> bool {
    exists|i: int| 0 <= i < fields.len() && (#[trigger] fields[i]).id < 0 && fields[i].name == name
}

/// Whether every id that is assigned in one schema is an id of another.
pub open spec fn ids_known(fields: Seq<FieldModel>, base: Seq<FieldModel>) -> bool {
    forall|id: i32| id >= 0 && #[trigger] has_id(fields, id) ==> has_id(base, id)
}

/// Whether an Arrow schema has a top level column of a name.
pub open spec fn has_column(fields: Seq<ArrowFieldModel>, name: Seq<char>) -> bool {
    exists|i: int| 0 <= i < fields.len() && (#[trigger] fields[i]).name == name
}

impl ProjectionModel {
    /// The projection with a column, and the fields above it.
    pub open spec fn union_column(self, column: Seq<char>, on_missing: OnMissing) -> Result<
        ProjectionModel,
        ErrorModel,
    > {
        if column == row_id() {
            Ok(ProjectionModel { with_row_id: true, ..self })
        } else if column == row_addr() {
            Ok(ProjectionModel { with_row_addr: true, ..self })
        } else {
            match resolve_path(self.base.fields, column) {
                Some(path) => Ok(
                    ProjectionModel { field_ids: self.field_ids.union(id_set(path)), ..self },
                ),
                None => if on_missing == OnMissing::Error {
                    Err(
                        ErrorModel::InvalidInput {
                            source: "Column "@ + column + " does not exist"@,
                        },
                    )
                } else {
                    Ok(self)
                },
            }
        }
    }

    /// The projection with columns, and the fields above them; the error of the first
    /// that does not exist.
    pub open spec fn union_columns(self, columns: Seq<Seq<char>>, on_missing: OnMissing) -> Result<
        ProjectionModel,
        ErrorModel,
    >
        decreases columns.len(),
    {
        if columns.len() == 0 {
            Ok(self)
        } else {
            match self.union_column(columns[0], on_missing) {
                Ok(p) => p.union_columns(columns.drop_first(), on_missing),
                Err(e) => Err(e),
            }
        }
    }

    /// The projection with the fields of a schema.
    pub open spec fn union_schema(self, fields: Seq<FieldModel>) -> ProjectionModel {
        let all = pre_order(fields);
        ProjectionModel {
            field_ids: self.field_ids.union(assigned_ids(all)),
            with_row_id: self.with_row_id || names_column(all, row_id()),
            with_row_addr: self.with_row_addr || names_column(all, row_addr()),
            ..self
        }
    }

    /// The projection without the fields of a schema.
    pub open spec fn subtract_schema(self, fields: Seq<FieldModel>) -> ProjectionModel {
        let all = pre_order(fields);
        ProjectionModel {
            field_ids: self.field_ids.difference(assigned_ids(all)),
            with_row_id: self.with_row_id && !names_column(all, row_id()),
            with_row_addr: self.with_row_addr && !names_column(all, row_addr()),
            ..self
        }
    }

    /// What two projections both select.
    pub open spec fn intersect(self, other: ProjectionModel) -> ProjectionModel {
        ProjectionModel {
            field_ids: self.field_ids.intersect(other.field_ids),
            with_row_id: self.with_row_id && other.with_row_id,
            with_row_addr: self.with_row_addr && other.with_row_addr,
            ..self
        }
    }

    /// What one of two projections selects.
    pub open spec fn union_projection(self, other: ProjectionModel) -> ProjectionModel {
        ProjectionModel {
            field_ids: self.field_ids.union(other.field_ids),
            with_row_id: self.with_row_id || other.with_row_id,
            with_row_addr: self.with_row_addr || other.with_row_addr,
            ..self
        }
    }

    /// What the projection selects and another does not.
    pub open spec fn subtract_projection(self, other: ProjectionModel) -> ProjectionModel {
        ProjectionModel {
            field_ids: self.field_ids.difference(other.field_ids),
            with_row_id: self.with_row_id && !other.with_row_id,
            with_row_addr: self.with_row_addr && !other.with_row_addr,
            ..self
        }
    }

    /// The fields that the projection selects, as a schema.
    pub open spec fn to_schema(self) -> SchemaModel {
        SchemaModel {
            fields: select_fields(self.base.fields, self.field_ids, false),
            metadata: self.base.metadata,
        }
    }

    /// The Arrow schema of what the projection selects, with the row id and the row
    /// address at the end.
    pub open spec fn to_arrow_schema(self) -> Result<ArrowSchemaModel, ErrorModel> {
        let s = self.to_schema();
        let plain = ArrowSchemaModel { fields: arrow_fields(s.fields), metadata: s.metadata };
        match with_column(plain, row_id(), self.with_row_id) {
            Ok(a) => with_column(a, row_addr(), self.with_row_addr),
            Err(e) => Err(e),
        }
    }
}

/// An Arrow schema with one more column of unsigned integers, if it is wanted.
pub open spec fn with_column(s: ArrowSchemaModel, name: Seq<char>, wanted: bool) -> Result<
    ArrowSchemaModel,
    ErrorModel,
> {
    if !wanted {
        Ok(s)
    } else if has_column(s.fields, name) {
        Err(ErrorModel::Schema { message: "Can not append column "@ + name + " on schema"@ })
    } else {
        Ok(
            ArrowSchemaModel {
                fields: s.fields.push(
                    ArrowFieldModel {
                        name,
                        data_type: DataTypeModel::Scalar(ScalarType::UInt64),
                        nullable: true,
                        metadata: Map::empty(),
                    },
                ),
                ..s
            },
        )
    }
}

fn column_exists(fields: &Vec<ArrowField>, name: &str) -> (r: bool)
    ensures
        r == has_column(views(fields@), name@),
{
    let mut i: usize = 0;
    while i < fields.len()
        invariant
            i <= fields@.len(),
            forall|j: int| 0 <= j < i ==> (#[trigger] views(fields@)[j]).name != name@,
        decreases fields@.len() - i,
    {
        assert(views(fields@)[i as int] == fields@[i as int]@);
        reveal_with_fuel(ArrowField::model, 2);
        if same_text(fields[i].name.as_str(), name) {
            return true;
        }
        i += 1;
    }
    false
}

fn try_with_column(schema: ArrowSchema, name: &str, wanted: bool) -> (r: Result<ArrowSchema, Error>)
    ensures
        outcome(r) == with_column(schema@, name@, wanted),
{
    if !wanted {
        return Ok(schema);
    }
    if column_exists(&schema.fields, name) {
        return Err(
            Error::Schema {
                message: concat(concat("Can not append column ", name).as_str(), " on schema"),
            },
        );
    }
    let field = ArrowField::new(name, DataType::Scalar(ScalarType::UInt64), true);
    let mut fields = schema.fields;
    proof {
        lemma_views_push(fields@, field);
        reveal_with_fuel(ArrowField::model, 2);
        reveal_with_fuel(DataType::model, 2);
    }
    fields.push(field);
    Ok(ArrowSchema { fields, metadata: schema.metadata })
}

/// The members of a set, in some order.
fn members(set: &HashSet<i32>) -> (r: Vec<i32>)
    ensures
        r@.to_set() == set@,
{
    let mut out: Vec<i32> = Vec::new();
    let ghost keys = vstd::std_specs::hash::spec_hash_keys_iter(set).remaining().unref();
    for x in it: set.iter()
        invariant
            out@.len() == it.index(),
            it.seq().unref() == keys,
            it.seq().len() == keys.len(),
            forall|i: int| 0 <= i < out@.len() ==> out@[i] == keys[i],
    {
        assert(*x == it.seq().unref()[it.index()]);
        out.push(*x);
    }
    assert(out@ =~= keys);
    assert(out@.to_set() =~= set@);
    out
}

/// What a walk over fields adds to a selection.
proof fn lemma_ids_take(all: Seq<FieldModel>, i: int)
    requires
        0 <= i < all.len(),
    ensures
        assigned_ids(all.take(i + 1)) == (if all[i].id >= 0 {
            assigned_ids(all.take(i)).insert(all[i].id)
        } else {
            assigned_ids(all.take(i))
        }),
        id_set(all.take(i + 1)) == id_set(all.take(i)).insert(all[i].id),
        forall|name: Seq<char>| #[trigger]
            names_column(all.take(i + 1), name) == (names_column(all.take(i), name) || (all[i].id
                < 0 && all[i].name == name)),
{
    let now = all.take(i);
    let then = all.take(i + 1);
    assert(ids_of(then) =~= ids_of(now).push(all[i].id));
    assert(id_set(then) =~= id_set(now).insert(all[i].id)) by {
        assert forall|x: i32| ids_of(then).contains(x) <==> ids_of(now).contains(x) || x
            == all[i].id by {
            if ids_of(now).contains(x) {
                let k = choose|k: int| 0 <= k < ids_of(now).len() && ids_of(now)[k] == x;
                assert(ids_of(then)[k] == x);
            }
            if x == all[i].id {
                assert(ids_of(then)[i] == x);
            }
            if ids_of(then).contains(x) && x != all[i].id {
                let k = choose|k: int| 0 <= k < ids_of(then).len() && ids_of(then)[k] == x;
                assert(ids_of(now)[k] == x);
            }
        }
    }
    assert(assigned_ids(then) =~= (if all[i].id >= 0 {
        assigned_ids(now).insert(all[i].id)
    } else {
        assigned_ids(now)
    }));
    assert forall|name: Seq<char>| #[trigger]
        names_column(then, name) == (names_column(now, name) || (all[i].id < 0 && all[i].name
            == name)) by {
        if names_column(now, name) {
            let k = choose|k: int|
                0 <= k < now.len() && (#[trigger] now[k]).id < 0 && now[k].name == name;
            assert(then[k] == now[k]);
        }
        if all[i].id < 0 && all[i].name == name {
            assert(then[i] == all[i]);
        }
        if names_column(then, name) && !(all[i].id < 0 && all[i].name == name) {
            let k = choose|k: int|
                0 <= k < then.len() && (#[trigger] then[k]).id < 0 && then[k].name == name;
            assert(now[k] == then[k]);
        }
    }
}

/// The fields of which a predicate may have said what it did, with the answers.
pub open spec fn answered<F: Fn(&Field) -> bool>(
    predicate: F,
    fields: Seq<FieldModel>,
    asked: Seq<&Field>,
    answers: Seq<bool>,
) -> bool {
    &&& views(asked) == fields
    &&& answers.len() == asked.len()
    &&& forall|i: int|
        0 <= i < asked.len() ==> call_ensures(predicate, (#[trigger] asked[i],), answers[i])
}

/// The ids of the fields for which the answer was yes.
pub open spec fn ids_where(fields: Seq<FieldModel>, answers: Seq<bool>) -> Set<i32> {
    Set::new(
        |id: i32|
            exists|i: int|
                0 <= i < fields.len() && i < answers.len() && #[trigger] answers[i]
                    && fields[i].id == id,
    )
}

/// The ids of the fields of a schema for which a predicate answered yes.
fn ask<F: Fn(&Field) -> bool>(schema: &Schema, predicate: F) -> (r: Vec<i32>)
    requires
        forall|f: &Field| call_requires(predicate, (f,)),
    ensures
        exists|asked: Seq<&Field>, answers: Seq<bool>|
            #[trigger] answered(predicate, pre_order(schema@.fields), asked, answers)
                && r@.to_set() == ids_where(pre_order(schema@.fields), answers),
{
    let all = schema.fields_pre_order();
    let ghost seen = pre_order(schema@.fields);
    let mut out: Vec<i32> = Vec::new();
    let ghost mut answers: Seq<bool> = Seq::empty();
    let mut i: usize = 0;
    assert(out@.to_set() =~= ids_where(seen, answers));
    while i < all.len()
        invariant
            i <= all@.len(),
            views(all@) == seen,
            answers.len() == i,
            forall|f: &Field| call_requires(predicate, (f,)),
            forall|j: int|
                0 <= j < i ==> call_ensures(predicate, (#[trigger] all@[j],), answers[j]),
            out@.to_set() == ids_where(seen, answers),
        decreases all@.len() - i,
    {
        let f = all[i];
        let yes = predicate(f);
        let ghost before = out@;
        let ghost earlier = answers;
        proof {
            answers = answers.push(yes);
            assert(seen[i as int] == f@);
        }
        if yes {
            out.push(f.id);
        }
        proof {
            assert forall|id: i32| out@.to_set().contains(id) <==> ids_where(
                seen,
                answers,
            ).contains(id) by {
                if out@.contains(id) {
                    let k = choose|k: int| 0 <= k < out@.len() && out@[k] == id;
                    if k < before.len() {
                        assert(before[k] == id);
                        assert(before.to_set().contains(id));
                        let m = choose|m: int|
                            0 <= m < seen.len() && m < earlier.len() && #[trigger] earlier[m]
                                && seen[m].id == id;
                        assert(answers[m]);
                    } else {
                        assert(answers[i as int]);
                    }
                }
                if ids_where(seen, answers).contains(id) {
                    let m = choose|m: int|
                        0 <= m < seen.len() && m < answers.len() && #[trigger] answers[m]
                            && seen[m].id == id;
                    if m < i {
                        assert(earlier[m]);
                        assert(ids_where(seen, earlier).contains(id));
                        assert(before.to_set().contains(id));
                        let k = choose|k: int| 0 <= k < before.len() && before[k] == id;
                        assert(out@[k] == id);
                    } else {
                        assert(out@[out@.len() - 1] == id);
                    }
                }
            }
            assert(out@.to_set() =~= ids_where(seen, answers));
        }
        i += 1;
    }
    assert(answered(predicate, seen, all@, answers));
    out
}

fn add_ids(set: &mut HashSet<i32>, ids: &Vec<i32>)
    ensures
        final(set)@ == old(set)@.union(ids@.to_set()),
{
    let ghost before = set@;
    let mut i: usize = 0;
    assert(set@ =~= before.union(ids@.take(0).to_set()));
    while i < ids.len()
        invariant
            i <= ids@.len(),
            set@ == before.union(ids@.take(i as int).to_set()),
        decreases ids@.len() - i,
    {
        set.insert(ids[i]);
        proof {
            lemma_take_set(ids@, i as int);
            assert(set@ =~= before.union(ids@.take(i + 1).to_set()));
        }
        i += 1;
    }
    assert(ids@.take(ids@.len() as int) =~= ids@);
}

fn remove_ids(set: &mut HashSet<i32>, ids: &Vec<i32>)
    ensures
        final(set)@ == old(set)@.difference(ids@.to_set()),
{
    let ghost before = set@;
    let mut i: usize = 0;
    assert(set@ =~= before.difference(ids@.take(0).to_set()));
    while i < ids.len()
        invariant
            i <= ids@.len(),
            set@ == before.difference(ids@.take(i as int).to_set()),
        decreases ids@.len() - i,
    {
        set.remove(&ids[i]);
        proof {
            lemma_take_set(ids@, i as int);
            assert(set@ =~= before.difference(ids@.take(i + 1).to_set()));
        }
        i += 1;
    }
    assert(ids@.take(ids@.len() as int) =~= ids@);
}

proof fn lemma_take_set(ids: Seq<i32>, i: int)
    requires
        0 <= i < ids.len(),
    ensures
        ids.take(i + 1).to_set() == ids.take(i).to_set().insert(ids[i]),
{
    let now = ids.take(i);
    let then = ids.take(i + 1);
    assert forall|x: i32| then.contains(x) <==> now.contains(x) || x == ids[i] by {
        if now.contains(x) {
            let k = choose|k: int| 0 <= k < now.len() && now[k] == x;
            assert(then[k] == x);
        }
        if x == ids[i] {
            assert(then[i] == x);
        }
        if then.contains(x) && x != ids[i] {
            let k = choose|k: int| 0 <= k < then.len() && then[k] == x;
            assert(now[k] == x);
        }
    }
    assert(then.to_set() =~= now.to_set().insert(ids[i]));
}

impl<P: Projectable + ?Sized> Projection<P> {
    /// The schema that the fields belong to.
    pub open spec fn base_schema(self) -> SchemaModel {
        self.base.spec_schema()
    }

    /// A projection that selects nothing.
    pub fn empty(base: Arc<P>) -> (r: Self)
        ensures
            r@ == (ProjectionModel {
                base: base.spec_schema(),
                field_ids: Set::empty(),
                with_row_id: false,
                with_row_addr: false,
            }),
    {
        Projection { base, field_ids: HashSet::new(), with_row_id: false, with_row_addr: false }
    }

    /// A projection that selects every field.
    pub fn full(base: Arc<P>) -> (r: Self)
        ensures
            r@ == (ProjectionModel {
                base: base.spec_schema(),
                field_ids: Set::empty(),
                with_row_id: false,
                with_row_addr: false,
            }).union_schema(base.spec_schema().fields),
    {
        let schema = base.schema().clone();
        Projection::empty(base).union_schema(&schema)
    }

    /// The projection with the row id.
    pub fn with_row_id(self) -> (r: Self)
        ensures
            r@ == (ProjectionModel { with_row_id: true, ..self@ }),
    {
        let mut out = self;
        out.with_row_id = true;
        out
    }

    /// The projection with the row address.
    pub fn with_row_addr(self) -> (r: Self)
        ensures
            r@ == (ProjectionModel { with_row_addr: true, ..self@ }),
    {
        let mut out = self;
        out.with_row_addr = true;
        out
    }

    /// The projection with a column, and the fields above it.
    pub fn union_column(self, column: &str, on_missing: OnMissing) -> (r: Result<Self, Error>)
        ensures
            outcome(r) == self@.union_column(column@, on_missing),
    {
        let mut out = self;
        if same_text(column, "_rowid") {
            out.with_row_id = true;
            return Ok(out);
        } else if same_text(column, "_rowaddr") {
            out.with_row_addr = true;
            return Ok(out);
        }
        let mut ids: Vec<i32> = Vec::new();
        match out.base.schema().resolve(column) {
            Some(path) => {
                let mut i: usize = 0;
                while i < path.len()
                    invariant
                        i <= path@.len(),
                        ids@.len() == i,
                        forall|j: int| 0 <= j < i ==> ids@[j] == (#[trigger] path@[j])@.id,
                    decreases path@.len() - i,
                {
                    ids.push(path[i].id);
                    i += 1;
                }
                assert(ids@ =~= ids_of(views(path@)));
            },
            None => {
                if on_missing == OnMissing::Error {
                    return Err(
                        Error::InvalidInput {
                            source: concat(concat("Column ", column).as_str(), " does not exist"),
                        },
                    );
                }
                assert(out@.field_ids.union(ids@.to_set()) =~= out@.field_ids);
            },
        }
        add_ids(&mut out.field_ids, &ids);
        Ok(out)
    }

    /// Whether a field is selected.
    pub fn contains_field_id(&self, id: i32) -> (r: bool)
        ensures
            r == self@.field_ids.contains(id),
    {
        self.field_ids.contains(&id)
    }

    /// Whether anything besides the row id and the row address is selected.
    pub fn has_data_fields(&self) -> (r: bool)
        ensures
            r == (self@.field_ids != Set::<i32>::empty()),
    {
        let none = self.field_ids.is_empty();
        proof {
            lemma_empty(&self.field_ids);
        }
        !none
    }

    /// The projection with columns, and the fields above them.
    pub fn union_columns(self, columns: &[&str], on_missing: OnMissing) -> (r: Result<Self, Error>)
        ensures
            outcome(r) == self@.union_columns(views(columns@), on_missing),
    {
        let ghost start = self@;
        let ghost all = views(columns@);
        let mut out = self;
        let mut i: usize = 0;
        proof {
            lemma_skip_ends(all);
        }
        while i < columns.len()
            invariant
                i <= columns@.len(),
                all == views(columns@),
                start == self@,
                start.union_columns(all, on_missing) == out@.union_columns(
                    all.skip(i as int),
                    on_missing,
                ),
            decreases columns@.len() - i,
        {
            proof {
                lemma_skip_step(all, i as int);
                assert(all[i as int] == columns@[i as int]@);
            }
            match out.union_column(columns[i], on_missing) {
                Ok(p) => {
                    out = p;
                },
                Err(e) => {
                    return Err(e);
                },
            }
            i += 1;
        }
        proof {
            lemma_skip_ends(all);
        }
        Ok(out)
    }

    /// The projection with all fields of the schema that satisfy a predicate.
    pub fn union_predicate<F: Fn(&Field) -> bool>(self, predicate: F) -> (r: Self)
        requires
            forall|f: &Field| call_requires(predicate, (f,)),
        ensures
            exists|asked: Seq<&Field>, answers: Seq<bool>|
                #[trigger] answered(predicate, pre_order(self@.base.fields), asked, answers) && r@
                    == (ProjectionModel {
                    field_ids: self@.field_ids.union(
                        ids_where(pre_order(self@.base.fields), answers),
                    ),
                    ..self@
                }),
    {
        let mut out = self;
        let ids = ask(out.base.schema(), predicate);
        let ghost (asked, answers) = choose|asked: Seq<&Field>, answers: Seq<bool>|
            #[trigger] answered(predicate, pre_order(self@.base.fields), asked, answers)
                && ids@.to_set() == ids_where(pre_order(self@.base.fields), answers);
        assert(answered(predicate, pre_order(self@.base.fields), asked, answers));
        add_ids(&mut out.field_ids, &ids);
        out
    }

    /// The projection without the fields of the schema that satisfy a predicate.
    pub fn subtract_predicate<F: Fn(&Field) -> bool>(self, predicate: F) -> (r: Self)
        requires
            forall|f: &Field| call_requires(predicate, (f,)),
        ensures
            exists|asked: Seq<&Field>, answers: Seq<bool>|
                #[trigger] answered(predicate, pre_order(self@.base.fields), asked, answers) && r@
                    == (ProjectionModel {
                    field_ids: self@.field_ids.difference(
                        ids_where(pre_order(self@.base.fields), answers),
                    ),
                    ..self@
                }),
    {
        let mut out = self;
        let ids = ask(out.base.schema(), predicate);
        let ghost (asked, answers) = choose|asked: Seq<&Field>, answers: Seq<bool>|
            #[trigger] answered(predicate, pre_order(self@.base.fields), asked, answers)
                && ids@.to_set() == ids_where(pre_order(self@.base.fields), answers);
        assert(answered(predicate, pre_order(self@.base.fields), asked, answers));
        remove_ids(&mut out.field_ids, &ids);
        out
    }

    /// What two projections both select.
    pub fn intersect(self, other: &Self) -> (r: Self)
        ensures
            r@ == self@.intersect(other@),
    {
        let ids = members(&self.field_ids);
        let mut common: HashSet<i32> = HashSet::new();
        let mut i: usize = 0;
        assert(common@ =~= ids@.take(0).to_set().intersect(other@.field_ids));
        while i < ids.len()
            invariant
                i <= ids@.len(),
                common@ == ids@.take(i as int).to_set().intersect(other@.field_ids),
            decreases ids@.len() - i,
        {
            if other.field_ids.contains(&ids[i]) {
                common.insert(ids[i]);
            }
            proof {
                lemma_take_set(ids@, i as int);
                assert(common@ =~= ids@.take(i + 1).to_set().intersect(other@.field_ids));
            }
            i += 1;
        }
        assert(ids@.take(ids@.len() as int) =~= ids@);
        let mut out = self;
        out.field_ids = common;
        out.with_row_id = out.with_row_id && other.with_row_id;
        out.with_row_addr = out.with_row_addr && other.with_row_addr;
        out
    }

    /// Whether every id that is assigned in a schema is an id of the base.
    pub fn knows(&self, other: &Schema) -> (r: bool)
        ensures
            r == ids_known(other@.fields, self@.base.fields),
    {
        let base = self.base.schema();
        let ids = other.field_ids();
        let mut i: usize = 0;
        while i < ids.len()
            invariant
                i <= ids@.len(),
                base@ == self@.base,
                ids@ == ids_of(pre_order(other@.fields)),
                forall|j: int|
                    0 <= j < i && (#[trigger] ids@[j]) >= 0 ==> has_id(self@.base.fields, ids@[j]),
            decreases ids@.len() - i,
        {
            let id: i32 = ids[i];
            if id >= 0 && base.field_by_id(id).is_none() {
                proof {
                    lemma_has_id(other@.fields, id);
                    assert(ids@.contains(id));
                }
                return false;
            }
            i += 1;
        }
        proof {
            assert forall|id: i32| id >= 0 && #[trigger] has_id(other@.fields, id) implies has_id(
                self@.base.fields,
                id,
            ) by {
                lemma_has_id(other@.fields, id);
                let j = choose|j: int| 0 <= j < ids@.len() && ids@[j] == id;
                assert(ids@[j] >= 0);
            }
        }
        true
    }

    /// The projection with the fields of a schema. A field without an id counts only
    /// where it stands for the row id or the row address.
    pub fn union_schema(self, other: &Schema) -> (r: Self)
        requires
            ids_known(other@.fields, self@.base.fields),
        ensures
            r@ == self@.union_schema(other@.fields),
    {
        let ghost start = self@;
        let mut out = self;
        let all = other.fields_pre_order();
        let ghost seen = views(all@);
        let mut i: usize = 0;
        assert(out@.field_ids =~= start.field_ids.union(assigned_ids(seen.take(0))));
        while i < all.len()
            invariant
                i <= all@.len(),
                seen == views(all@),
                out@ == (ProjectionModel {
                    field_ids: start.field_ids.union(assigned_ids(seen.take(i as int))),
                    with_row_id: start.with_row_id || names_column(
                        seen.take(i as int),
                        row_id(),
                    ),
                    with_row_addr: start.with_row_addr || names_column(
                        seen.take(i as int),
                        row_addr(),
                    ),
                    ..start
                }),
            decreases all@.len() - i,
        {
            let field = all[i];
            proof {
                assert(seen[i as int] == field@);
                lemma_ids_take(seen, i as int);
                lemma_row_names();
            }
            if field.id >= 0 {
                out.field_ids.insert(field.id);
            } else if same_text(field.name.as_str(), "_rowid") {
                out.with_row_id = true;
            } else if same_text(field.name.as_str(), "_rowaddr") {
                out.with_row_addr = true;
            }
            assert(out@.field_ids =~= start.field_ids.union(assigned_ids(seen.take(i + 1))));
            i += 1;
        }
        assert(seen.take(seen.len() as int) =~= seen);
        out
    }

    /// What one of two projections selects.
    pub fn union_projection(self, other: &Self) -> (r: Self)
        ensures
            r@ == self@.union_projection(other@),
    {
        let mut out = self;
        let ids = members(&other.field_ids);
        add_ids(&mut out.field_ids, &ids);
        out.with_row_id = out.with_row_id || other.with_row_id;
        out.with_row_addr = out.with_row_addr || other.with_row_addr;
        out
    }

    /// The projection with the fields that an Arrow schema names.
    pub fn union_arrow_schema(self, other: &ArrowSchema, on_missing: OnMissing) -> (r: Result<Self, Error>)
        requires
            other.numbers_fit(),
        ensures
            outcome(r) == match other.spec_to_schema() {
                Err(e) => Err(e),
                Ok(o) => match project_schema(
                    self@.base.fields,
                    o.fields,
                    on_missing,
                    OnTypeMismatch::TakeSelf,
                ) {
                    Err(e) => Err(e),
                    Ok(fields) => Ok(
                        (ProjectionModel {
                            with_row_id: self@.with_row_id || has_column(other@.fields, row_id()),
                            with_row_addr: self@.with_row_addr || has_column(
                                other@.fields,
                                row_addr(),
                            ),
                            ..self@
                        }).union_schema(fields),
                    ),
                },
            },
    {
        let mut out = self;
        out.with_row_id = out.with_row_id || column_exists(&other.fields, "_rowid");
        out.with_row_addr = out.with_row_addr || column_exists(&other.fields, "_rowaddr");
        let projected = match out.base.schema().project_by_schema(
            other,
            on_missing,
            OnTypeMismatch::TakeSelf,
        ) {
            Ok(s) => s,
            Err(e) => {
                return Err(e);
            },
        };
        proof {
            projection_within(
                out@.base.fields,
                other.spec_to_schema()->Ok_0.fields,
                on_missing,
                OnTypeMismatch::TakeSelf,
            );
        }
        Ok(out.union_schema(&projected))
    }

    /// The projection without the fields that an Arrow schema names.
    pub fn subtract_arrow_schema(self, other: &ArrowSchema, on_missing: OnMissing) -> (r: Result<Self, Error>)
        requires
            other.numbers_fit(),
        ensures
            outcome(r) == match other.spec_to_schema() {
                Err(e) => Err(e),
                Ok(o) => match project_schema(
                    self@.base.fields,
                    o.fields,
                    on_missing,
                    OnTypeMismatch::TakeSelf,
                ) {
                    Err(e) => Err(e),
                    Ok(fields) => Ok(
                        (ProjectionModel {
                            with_row_id: self@.with_row_id && !has_column(
                                other@.fields,
                                row_id(),
                            ),
                            with_row_addr: self@.with_row_addr && !has_column(
                                other@.fields,
                                row_addr(),
                            ),
                            ..self@
                        }).subtract_schema(fields),
                    ),
                },
            },
    {
        let mut out = self;
        out.with_row_id = out.with_row_id && !column_exists(&other.fields, "_rowid");
        out.with_row_addr = out.with_row_addr && !column_exists(&other.fields, "_rowaddr");
        let projected = match out.base.schema().project_by_schema(
            other,
            on_missing,
            OnTypeMismatch::TakeSelf,
        ) {
            Ok(s) => s,
            Err(e) => {
                return Err(e);
            },
        };
        proof {
            projection_within(
                out@.base.fields,
                other.spec_to_schema()->Ok_0.fields,
                on_missing,
                OnTypeMismatch::TakeSelf,
            );
        }
        Ok(out.subtract_schema(&projected))
    }

    /// What the projection selects and another does not.
    pub fn subtract_projection(self, other: &Self) -> (r: Self)
        ensures
            r@ == self@.subtract_projection(other@),
    {
        let mut out = self;
        let ids = members(&other.field_ids);
        remove_ids(&mut out.field_ids, &ids);
        out.with_row_addr = out.with_row_addr && !other.with_row_addr;
        out.with_row_id = out.with_row_id && !other.with_row_id;
        out
    }

    /// The projection without the fields of a schema. A field without an id counts
    /// only where it stands for the row id or the row address.
    pub fn subtract_schema(self, other: &Schema) -> (r: Self)
        requires
            ids_known(other@.fields, self@.base.fields),
        ensures
            r@ == self@.subtract_schema(other@.fields),
    {
        let ghost start = self@;
        let mut out = self;
        let all = other.fields_pre_order();
        let ghost seen = views(all@);
        let mut i: usize = 0;
        assert(out@.field_ids =~= start.field_ids.difference(assigned_ids(seen.take(0))));
        while i < all.len()
            invariant
                i <= all@.len(),
                seen == views(all@),
                out@ == (ProjectionModel {
                    field_ids: start.field_ids.difference(assigned_ids(seen.take(i as int))),
                    with_row_id: start.with_row_id && !names_column(
                        seen.take(i as int),
                        row_id(),
                    ),
                    with_row_addr: start.with_row_addr && !names_column(
                        seen.take(i as int),
                        row_addr(),
                    ),
                    ..start
                }),
            decreases all@.len() - i,
        {
            let field = all[i];
            proof {
                assert(seen[i as int] == field@);
                lemma_ids_take(seen, i as int);
                lemma_row_names();
            }
            if field.id >= 0 {
                out.field_ids.remove(&field.id);
            } else if same_text(field.name.as_str(), "_rowid") {
                out.with_row_id = false;
            } else if same_text(field.name.as_str(), "_rowaddr") {
                out.with_row_addr = false;
            }
            assert(out@.field_ids =~= start.field_ids.difference(assigned_ids(seen.take(i + 1))));
            i += 1;
        }
        assert(seen.take(seen.len() as int) =~= seen);
        out
    }

    /// Whether nothing is selected, neither fields nor the row id or address.
    pub fn is_empty(&self) -> (r: bool)
        ensures
            r == (self@.field_ids == Set::<i32>::empty() && !self@.with_row_addr
                && !self@.with_row_id),
    {
        proof {
            lemma_empty(&self.field_ids);
        }
        self.field_ids.is_empty() && !self.with_row_addr && !self.with_row_id
    }

    /// The fields that the projection selects, as a schema.
    pub fn to_schema(&self) -> (r: Schema)
        ensures
            r@ == self@.to_schema(),
    {
        let field_ids = members(&self.field_ids);
        self.base.schema().project_by_ids(field_ids.as_slice(), false)
    }

    /// The fields that the projection selects, as a schema.
    pub fn into_schema(self) -> (r: Schema)
        ensures
            r@ == self@.to_schema(),
    {
        self.to_schema()
    }

    /// The fields that the projection selects, as a shared schema.
    pub fn into_schema_ref(self) -> (r: Arc<Schema>)
        ensures
            r@ == self@.to_schema(),
    {
        Arc::new(self.into_schema())
    }

    /// The Arrow schema of what the projection selects, with the row id and the row
    /// address at the end.
    pub fn to_arrow_schema(&self) -> (r: Result<ArrowSchema, Error>)
        requires
            lists_whole(self@.to_schema().fields),
        ensures
            outcome(r) == self@.to_arrow_schema(),
    {
        let schema = self.to_schema();
        let arrow_schema = ArrowSchema::from(&schema);
        match try_with_column(arrow_schema, "_rowid", self.with_row_id) {
            Ok(a) => try_with_column(a, "_rowaddr", self.with_row_addr),
            Err(e) => Err(e),
        }
    }
}

impl<P: Projectable + ?Sized> Clone for Projection<P> {
    fn clone(&self) -> (r: Self)
        ensures
            r@ == self@,
    {
        let ids = members(&self.field_ids);
        let mut field_ids: HashSet<i32> = HashSet::new();
        let ghost none = field_ids@;
        add_ids(&mut field_ids, &ids);
        assert(field_ids@ =~= self.field_ids@);
        Projection {
            base: self.base.clone(),
            field_ids,
            with_row_id: self.with_row_id,
            with_row_addr: self.with_row_addr,
        }
    }
}

proof fn lemma_row_names()
    ensures
        row_id() != row_addr(),
{
    reveal_strlit("_rowid");
    reveal_strlit("_rowaddr");
    assert("_rowid"@.len() != "_rowaddr"@.len());
}

proof fn lemma_empty(set: &HashSet<i32>)
    ensures
        set@.len() == 0 <==> set@ == Set::<i32>::empty(),
{
    let keys = vstd::std_specs::hash::spec_hash_keys_iter(set).remaining().unref();
    vstd::seq_lib::seq_to_set_is_finite(keys);
    let s = set@;
    if s.len() == 0 {
        assert(s =~= Set::<i32>::empty());
    }
}

} // verus!
