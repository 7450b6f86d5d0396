//! Fields: the nodes of a schema.

use vstd::prelude::*;
use crate::assoc::StringMap;
use crate::logical::LogicalModel;
use crate::logical::LogicalType;
use crate::seqs::views;
use crate::text::int_text;
use crate::text::same_text;

verus! {

/// Where the data of a column is kept.
#[derive(Debug, Clone, Copy, PartialEq, Eq, Structural)]
pub enum StorageClass {
    /// In the dataset itself.
    Default,
    /// In the dataset of large binary values beside it.
    Blob,
}

/// The dictionary of a dictionary encoded column. The array that holds the values
/// belongs to the caller, who finds it again by the number in `values`.
#[derive(Debug, Clone, Copy, PartialEq, Eq, Structural)]
pub struct Dictionary {
    pub offset: usize,
    pub length: usize,
    pub values: Option<u64>,
}

/// A column of a dataset, with the columns nested in it.
#[derive(Debug)]
pub struct Field {
    pub name: String,
    /// The id of the field, or a negative number where none is assigned.
    pub id: i32,
    /// The id of the field that this one is nested in, or -1 at the top level.
    pub parent_id: i32,
    pub logical_type: LogicalType,
    pub metadata: StringMap,
    pub nullable: bool,
    pub children: Vec<Field>,
    pub dictionary: Option<Dictionary>,
    pub storage_class: StorageClass,
    pub unenforced_primary_key: bool,
}

/// A field as a mathematical value.
pub struct FieldModel {
    pub name: Seq<char>,
    pub id: i32,
    pub parent_id: i32,
    pub logical_type: LogicalModel,
    pub metadata: Map<Seq<char>, Seq<char>>,
    pub nullable: bool,
    pub children: Seq<FieldModel>,
    pub dictionary: Option<Dictionary>,
    pub storage_class: StorageClass,
    pub unenforced_primary_key: bool,
}

impl Field {
    /// The field as a mathematical value.
    pub open spec fn model(self) -> FieldModel
        decreases self,
    {
        FieldModel {
            name: self.name@,
            id: self.id,
            parent_id: self.parent_id,
            logical_type: self.logical_type@,
            metadata: self.metadata@,
            nullable: self.nullable,
            children: Seq::new(
                self.children@.len(),
                |i: int|
                    if 0 <= i < self.children@.len() {
                        self.children[i].model()
                    } else {
                        arbitrary()
                    },
            ),
            dictionary: self.dictionary,
            storage_class: self.storage_class,
            unenforced_primary_key: self.unenforced_primary_key,
        }
    }
}

impl View for Field {
    type V = FieldModel;

    open spec fn view(&self) -> FieldModel {
        self.model()
    }
}

/// The children of the model are the views of the children.
pub proof fn lemma_children(f: Field)
    ensures
        f@.children == views(f.children@),
{
    assert(f@.children =~= views(f.children@));
}

// Lookups by name.

/// The position of the first field of a name.
pub open spec fn index_named(fields: Seq<FieldModel>, name: Seq<char>) -> Option<int>
    decreases fields.len(),
{
    if fields.len() == 0 {
        None
    } else if fields[0].name == name {
        Some(0)
    } else {
        match index_named(fields.drop_first(), name) {
            Some(i) => Some(i + 1),
            None => None,
        }
    }
}

/// The first field of a name.
pub open spec fn named(fields: Seq<FieldModel>, name: Seq<char>) -> Option<FieldModel> {
    match index_named(fields, name) {
        Some(i) => Some(fields[i]),
        None => None,
    }
}

/// Whether a field has the name.
pub open spec fn has_name(fields: Seq<FieldModel>, name: Seq<char>) -> bool {
    exists|i: int| 0 <= i < fields.len() && (#[trigger] fields[i]).name == name
}

/// The position that a lookup gives is that of the first field of the name, and a
/// lookup fails only where no field has the name.
pub proof fn lemma_index_named(fields: Seq<FieldModel>, name: Seq<char>)
    ensures
        match index_named(fields, name) {
            Some(i) => {
                &&& 0 <= i < fields.len()
                &&& fields[i].name == name
                &&& forall|j: int| 0 <= j < i ==> (#[trigger] fields[j]).name != name
            },
            None => forall|j: int| 0 <= j < fields.len() ==> (#[trigger] fields[j]).name != name,
        },
        index_named(fields, name) is Some <==> has_name(fields, name),
    decreases fields.len(),
{
    if fields.len() > 0 && fields[0].name != name {
        let rest = fields.drop_first();
        lemma_index_named(rest, name);
        match index_named(rest, name) {
            Some(i) => {
                assert(rest[i] == fields[i + 1]);
                assert forall|j: int| 0 <= j < i + 1 implies (#[trigger] fields[j]).name != name by {
                    if j > 0 {
                        assert(rest[j - 1] == fields[j]);
                    }
                }
            },
            None => {
                assert forall|j: int| 0 <= j < fields.len() implies (#[trigger] fields[j]).name
                    != name by {
                    if j > 0 {
                        assert(rest[j - 1] == fields[j]);
                    }
                }
            },
        }
    }
}

/// The position of a name is determined by being the first.
pub proof fn lemma_index_unique(fields: Seq<FieldModel>, name: Seq<char>, i: int)
    requires
        0 <= i < fields.len(),
        fields[i].name == name,
        forall|j: int| 0 <= j < i ==> (#[trigger] fields[j]).name != name,
    ensures
        index_named(fields, name) == Some(i),
{
    lemma_index_named(fields, name);
    let k = index_named(fields, name)->0;
    assert(fields[k].name == name);
    assert(fields[i].name == name);
}

/// Finds the first field of a name.
pub fn find_named(fields: &[Field], name: &str) -> (r: Option<usize>)
    ensures
        match r {
            Some(i) => i < fields@.len() && index_named(views(fields@), name@) == Some(i as int),
            None => index_named(views(fields@), name@) is None,
        },
{
    let mut i: usize = 0;
    while i < fields.len()
        invariant
            i <= fields@.len(),
            forall|j: int| 0 <= j < i ==> (#[trigger] views(fields@)[j]).name != name@,
        decreases fields@.len() - i,
    {
        if same_text(fields[i].name.as_str(), name) {
            proof {
                assert(views(fields@)[i as int] == fields@[i as int]@);
                lemma_index_unique(views(fields@), name@, i as int);
            }
            return Some(i);
        }
        assert(views(fields@)[i as int] == fields@[i as int]@);
        i += 1;
    }
    proof {
        lemma_index_named(views(fields@), name@);
    }
    None
}

/// The field that a path leads to, starting below `f`.
pub open spec fn sub_field(f: FieldModel, path: Seq<Seq<char>>) -> Option<FieldModel>
    decreases path.len(),
{
    if path.len() == 0 {
        Some(f)
    } else {
        match named(f.children, path[0]) {
            Some(c) => sub_field(c, path.drop_first()),
            None => None,
        }
    }
}

/// The fields along a path: `f`, then one field for each component.
pub open spec fn resolve_from(f: FieldModel, path: Seq<Seq<char>>) -> Option<Seq<FieldModel>>
    decreases path.len(),
{
    if path.len() == 0 {
        Some(seq![f])
    } else {
        match named(f.children, path[0]) {
            Some(c) => match resolve_from(c, path.drop_first()) {
                Some(fs) => Some(seq![f] + fs),
                None => None,
            },
            None => None,
        }
    }
}

// Traversal.

/// The fields of a forest, each before its children.
pub open spec fn pre_order(fields: Seq<FieldModel>) -> Seq<FieldModel>
    decreases fields,
{
    if fields.len() == 0 {
        Seq::empty()
    } else {
        seq![fields[0]] + pre_order(fields[0].children) + pre_order(fields.drop_first())
    }
}

/// The traversal of two forests in turn.
pub proof fn lemma_pre_order_add(a: Seq<FieldModel>, b: Seq<FieldModel>)
    ensures
        pre_order(a + b) == pre_order(a) + pre_order(b),
    decreases a.len(),
{
    if a.len() == 0 {
        assert(a + b =~= b);
        assert(pre_order(a) + pre_order(b) =~= pre_order(b));
    } else {
        assert((a + b).drop_first() =~= a.drop_first() + b);
        lemma_pre_order_add(a.drop_first(), b);
        assert(pre_order(a + b) =~= pre_order(a) + pre_order(b));
    }
}

/// The ids of a list of fields.
pub open spec fn ids_of(fields: Seq<FieldModel>) -> Seq<i32> {
    Seq::new(fields.len(), |i: int| fields[i].id)
}

// Lookups by id.

/// The first field with an id, in pre-order.
pub open spec fn by_id(fields: Seq<FieldModel>, id: i32) -> Option<FieldModel>
    decreases fields,
{
    if fields.len() == 0 {
        None
    } else if fields[0].id == id {
        Some(fields[0])
    } else {
        match by_id(fields[0].children, id) {
            Some(f) => Some(f),
            None => by_id(fields.drop_first(), id),
        }
    }
}

/// The forest with the first field of an id, in pre-order, replaced.
pub open spec fn replace_by_id(fields: Seq<FieldModel>, id: i32, new: FieldModel) -> Seq<FieldModel>
    decreases fields,
{
    if fields.len() == 0 {
        fields
    } else if fields[0].id == id {
        seq![new] + fields.drop_first()
    } else if by_id(fields[0].children, id) is Some {
        seq![
            FieldModel { children: replace_by_id(fields[0].children, id, new), ..fields[0] },
        ] + fields.drop_first()
    } else {
        seq![fields[0]] + replace_by_id(fields.drop_first(), id, new)
    }
}

/// The fields from the root to the field with an id. Where several fields have
/// the id, the one that is reached when siblings are visited from the last to the
/// first, each before its children.
pub open spec fn ancestry(fields: Seq<FieldModel>, id: i32) -> Option<Seq<FieldModel>>
    decreases fields,
{
    if fields.len() == 0 {
        None
    } else {
        let last = fields.last();
        if last.id == id {
            Some(seq![last])
        } else {
            match ancestry(last.children, id) {
                Some(path) => Some(seq![last] + path),
                None => ancestry(fields.drop_last(), id),
            }
        }
    }
}

/// The greatest id in a forest, at least -1.
pub open spec fn greatest_id(fields: Seq<FieldModel>) -> int
    decreases fields,
{
    if fields.len() == 0 {
        -1
    } else {
        let own = fields[0].id as int;
        let below = greatest_id(fields[0].children);
        let rest = greatest_id(fields.drop_first());
        let top = if own >= below {
            own
        } else {
            below
        };
        if top >= rest {
            top
        } else {
            rest
        }
    }
}

/// How many fields of a forest have no id.
pub open spec fn unassigned(fields: Seq<FieldModel>) -> nat
    decreases fields,
{
    if fields.len() == 0 {
        0
    } else {
        (if fields[0].id < 0 {
            1nat
        } else {
            0nat
        }) + unassigned(fields[0].children) + unassigned(fields.drop_first())
    }
}

/// The forest with an id for every field that had none. Ids are handed out in
/// pre-order, counting up from `next`, and every field learns the id of its
/// parent.
pub open spec fn assign_ids(fields: Seq<FieldModel>, parent_id: i32, next: int) -> Seq<FieldModel>
    decreases fields,
{
    if fields.len() == 0 {
        fields
    } else {
        let f = fields[0];
        let id = if f.id < 0 {
            next as i32
        } else {
            f.id
        };
        let after = if f.id < 0 {
            next + 1
        } else {
            next
        };
        seq![
            FieldModel { id, parent_id, children: assign_ids(f.children, id, after), ..f },
        ] + assign_ids(fields.drop_first(), parent_id, after + unassigned(f.children))
    }
}

/// The forest with no id assigned.
pub open spec fn clear_ids(fields: Seq<FieldModel>) -> Seq<FieldModel>
    decreases fields,
{
    if fields.len() == 0 {
        fields
    } else {
        let f = fields[0];
        seq![FieldModel { id: -1i32, children: clear_ids(f.children), ..f }] + clear_ids(
            fields.drop_first(),
        )
    }
}

/// Whether a field or one below it is dictionary encoded.
pub open spec fn any_dictionary(fields: Seq<FieldModel>) -> bool {
    exists|i: int|
        0 <= i < pre_order(fields).len() && (
        #[trigger] pre_order(fields)[i]).logical_type.is_dictionary()
}

/// The text of a field.
pub open spec fn field_text(f: FieldModel) -> Seq<char>
    decreases f,
{
    let head = "Field(id="@ + int_text(f.id as int) + ", name="@ + f.name + ", type="@
        + f.logical_type.text();
    if f.children.len() == 0 {
        head + ")"@
    } else {
        head + ", children=["@ + fields_text(f.children) + "])"@
    }
}

/// The texts of fields, each followed by a comma.
pub open spec fn fields_text(fields: Seq<FieldModel>) -> Seq<char>
    decreases fields,
{
    if fields.len() == 0 {
        Seq::empty()
    } else {
        field_text(fields[0]) + ", "@ + fields_text(fields.drop_first())
    }
}

impl Clone for Field {
    fn clone(&self) -> (r: Self)
        ensures
            r@ == self@,
        decreases self,
    {
        let mut children: Vec<Field> = Vec::new();
        let mut i: usize = 0;
        while i < self.children.len()
            invariant
                i <= self.children@.len(),
                children@.len() == i,
                forall|j: int| 0 <= j < i ==> (#[trigger] children@[j])@ == self.children@[j]@,
            decreases self.children@.len() - i,
        {
            children.push(self.children[i].clone());
            i += 1;
        }
        let r = Field {
            name: self.name.clone(),
            id: self.id,
            parent_id: self.parent_id,
            logical_type: self.logical_type.clone(),
            metadata: self.metadata.clone(),
            nullable: self.nullable,
            children,
            dictionary: self.dictionary,
            storage_class: self.storage_class,
            unenforced_primary_key: self.unenforced_primary_key,
        };
        assert(r@.children =~= self@.children);
        r
    }
}

/// Copies a list of fields.
pub fn clone_fields(fields: &Vec<Field>) -> (r: Vec<Field>)
    ensures
        views(r@) == views(fields@),
{
    let r = fields.clone();
    assert(views(r@) =~= views(fields@));
    r
}

/// Whether two lists hold the same fields.
pub fn same_fields(a: &Vec<Field>, b: &Vec<Field>) -> (r: bool)
    ensures
        r == (views(a@) == views(b@)),
    decreases a,
{
    if a.len() != b.len() {
        assert(views(a@).len() != views(b@).len());
        return false;
    }
    let mut i: usize = 0;
    while i < a.len()
        invariant
            i <= a@.len(),
            a@.len() == b@.len(),
            forall|j: int| 0 <= j < i ==> (#[trigger] a@[j])@ == b@[j]@,
        decreases a@.len() - i,
    {
        let x = &a[i];
        let y = &b[i];
        proof {
            lemma_children(*x);
            lemma_children(*y);
            assert(views(a@)[i as int] == x@);
            assert(views(b@)[i as int] == y@);
        }
        if !(x.name == y.name && x.id == y.id && x.parent_id == y.parent_id && x.logical_type
            == y.logical_type && x.metadata == y.metadata && x.nullable == y.nullable
            && x.dictionary == y.dictionary && x.storage_class == y.storage_class
            && x.unenforced_primary_key == y.unenforced_primary_key && same_fields(
            &x.children,
            &y.children,
        )) {
            return false;
        }
        i += 1;
    }
    assert(views(a@) =~= views(b@));
    true
}

impl PartialEq for Field {
    fn eq(&self, other: &Self) -> (r: bool) {
        proof {
            lemma_children(*self);
            lemma_children(*other);
        }
        self.name == other.name && self.id == other.id && self.parent_id == other.parent_id
            && self.logical_type == other.logical_type && self.metadata == other.metadata
            && self.nullable == other.nullable && self.dictionary == other.dictionary
            && self.storage_class == other.storage_class && self.unenforced_primary_key
            == other.unenforced_primary_key && same_fields(&self.children, &other.children)
    }
}

impl vstd::std_specs::cmp::PartialEqSpecImpl for Field {
    open spec fn obeys_eq_spec() -> bool {
        true
    }

    open spec fn eq_spec(&self, other: &Self) -> bool {
        self@ == other@
    }
}

} // verus!
