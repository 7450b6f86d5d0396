//! Whether fields are what was expected, and how they differ.

use vstd::prelude::*;
use crate::field::find_named;
use crate::field::has_name;
use crate::field::index_named;
use crate::field::lemma_children;
use crate::field::lemma_index_named;
use crate::field::named;
use crate::field::Dictionary;
use crate::field::Field;
use crate::field::FieldModel;
use crate::seqs::lemma_skip_ends;
use crate::seqs::lemma_skip_step;
use crate::seqs::lemma_views_push;
use crate::seqs::opt_view;
use crate::seqs::views;
use crate::text::concat;
use crate::text::concat4;
use crate::text::i32_text;
use crate::text::int_text;
use crate::text::join;
use crate::text::join_all;
use crate::text::same_text;

verus! {

/// How the nullability of two fields is compared.
#[derive(Debug, Clone, Copy, PartialEq, Eq, Structural)]
pub enum NullabilityComparison {
    /// The nullability must be the same.
    Strict,
    /// A field that is not nullable is accepted where a nullable one is expected.
    OneWay,
    /// The nullability does not matter.
    Ignore,
}

/// What is compared when two schemas are compared.
#[derive(Debug, Clone, Copy, PartialEq, Eq, Structural)]
pub struct SchemaCompareOptions {
    /// Whether the dictionaries must be the same.
    pub compare_dictionary: bool,
    /// Whether the metadata of schemas and fields must be the same.
    pub compare_metadata: bool,
    /// How the nullability of fields is compared.
    pub compare_nullability: NullabilityComparison,
    /// Whether the ids of the fields must be the same.
    pub compare_field_ids: bool,
    /// Whether a nullable field may be missing.
    pub allow_missing_if_nullable: bool,
    /// Whether the fields may come in another order.
    pub ignore_field_order: bool,
}

impl Default for SchemaCompareOptions {
    fn default() -> (r: Self)
        ensures
            r == (SchemaCompareOptions {
                compare_dictionary: false,
                compare_metadata: false,
                compare_nullability: NullabilityComparison::Strict,
                compare_field_ids: false,
                allow_missing_if_nullable: false,
                ignore_field_order: false,
            }),
    {
        SchemaCompareOptions {
            compare_dictionary: false,
            compare_metadata: false,
            compare_nullability: NullabilityComparison::Strict,
            compare_field_ids: false,
            allow_missing_if_nullable: false,
            ignore_field_order: false,
        }
    }
}

impl NullabilityComparison {
    /// Whether a nullability is accepted where another is expected.
    pub open spec fn accepts(self, expected: bool, actual: bool) -> bool {
        match self {
            NullabilityComparison::Strict => expected == actual,
            NullabilityComparison::OneWay => expected || !actual,
            NullabilityComparison::Ignore => true,
        }
    }

    fn is_accepted(&self, expected: bool, actual: bool) -> (r: bool)
        ensures
            r == self.accepts(expected, actual),
    {
        match self {
            NullabilityComparison::Strict => expected == actual,
            NullabilityComparison::OneWay => expected || !actual,
            NullabilityComparison::Ignore => true,
        }
    }
}

/// The position of the last field of a name.
pub open spec fn last_named(fields: Seq<FieldModel>, name: Seq<char>) -> Option<int>
    decreases fields.len(),
{
    if fields.len() == 0 {
        None
    } else if fields.last().name == name {
        Some(fields.len() - 1)
    } else {
        last_named(fields.drop_last(), name)
    }
}

/// Whether a field is the expected one, leaving its children aside.
pub open spec fn node_matches(f: FieldModel, e: FieldModel, o: SchemaCompareOptions) -> bool {
    &&& f.name == e.name
    &&& f.logical_type == e.logical_type
    &&& o.compare_nullability.accepts(e.nullable, f.nullable)
    &&& o.compare_field_ids ==> f.id == e.id
    &&& o.compare_dictionary ==> f.dictionary == e.dictionary
    &&& o.compare_metadata ==> f.metadata == e.metadata
}

/// Whether a field is the expected one.
pub open spec fn field_matches(f: FieldModel, e: FieldModel, o: SchemaCompareOptions) -> bool
    decreases e, 0nat,
{
    node_matches(f, e, o) && fields_match(f.children, e.children, o)
}

/// Whether fields are the expected ones. Where fields may be missing or come in
/// another order they are looked up by name; otherwise they must agree one by one.
pub open spec fn fields_match(
    fields: Seq<FieldModel>,
    expected: Seq<FieldModel>,
    o: SchemaCompareOptions,
) -> bool
    decreases expected, 1nat,
{
    if o.allow_missing_if_nullable || o.ignore_field_order {
        &&& forall|i: int| 0 <= i < fields.len() ==> has_name(expected, (#[trigger] fields[i]).name)
        &&& found_in(fields, expected, 0, o)
    } else {
        fields.len() == expected.len() && match_in_turn(fields, expected, o)
    }
}

/// Whether each expected field is found by its name, unless it may be missing, and
/// none stands before position `after` or one that was found before.
pub open spec fn found_in(
    fields: Seq<FieldModel>,
    expected: Seq<FieldModel>,
    after: int,
    o: SchemaCompareOptions,
) -> bool
    decreases expected, 0nat,
{
    expected.len() > 0 ==> match last_named(fields, expected[0].name) {
        Some(p) => {
            &&& field_matches(fields[p], expected[0], o)
            &&& o.ignore_field_order || after <= p
            &&& found_in(fields, expected.drop_first(), p, o)
        },
        None => {
            &&& o.allow_missing_if_nullable && expected[0].nullable
            &&& found_in(fields, expected.drop_first(), after, o)
        },
    }
}

/// Whether fields agree one by one.
pub open spec fn match_in_turn(
    fields: Seq<FieldModel>,
    expected: Seq<FieldModel>,
    o: SchemaCompareOptions,
) -> bool
    decreases expected, 0nat,
{
    expected.len() > 0 ==> field_matches(fields[0], expected[0], o) && match_in_turn(
        fields.drop_first(),
        expected.drop_first(),
        o,
    )
}

/// A name below a path.
pub open spec fn path_text(path: Option<Seq<char>>, name: Seq<char>) -> Seq<char> {
    match path {
        Some(p) => p + "."@ + name,
        None => name,
    }
}

/// The names of the fields that satisfy a condition, each once.
pub open spec fn names_where(fields: Seq<FieldModel>, cond: spec_fn(Seq<char>) -> bool) -> Seq<
    Seq<char>,
>
    decreases fields.len(),
{
    if fields.len() == 0 {
        Seq::empty()
    } else {
        let before = names_where(fields.drop_last(), cond);
        let name = fields.last().name;
        if cond(name) && !before.contains(name) {
            before.push(name)
        } else {
            before
        }
    }
}

/// The names that were not expected.
pub open spec fn unexpected_names(fields: Seq<FieldModel>, expected: Seq<FieldModel>) -> Seq<
    Seq<char>,
> {
    names_where(fields, |n: Seq<char>| !has_name(expected, n))
}

/// Whether a name is expected, not there, and may not be missing.
pub open spec fn is_missing(
    name: Seq<char>,
    fields: Seq<FieldModel>,
    expected: Seq<FieldModel>,
    o: SchemaCompareOptions,
) -> bool {
    !has_name(fields, name) && !(o.allow_missing_if_nullable && named(expected, name)->0.nullable)
}

/// The names that were expected and are missing.
pub open spec fn missing_names(
    fields: Seq<FieldModel>,
    expected: Seq<FieldModel>,
    o: SchemaCompareOptions,
) -> Seq<Seq<char>> {
    names_where(expected, |n: Seq<char>| is_missing(n, fields, expected, o))
}

/// Names below a path.
pub open spec fn path_texts(path: Option<Seq<char>>, names: Seq<Seq<char>>) -> Seq<Seq<char>> {
    Seq::new(names.len(), |i: int| path_text(path, names[i]))
}

/// The names of fields.
pub open spec fn names_of(fields: Seq<FieldModel>) -> Seq<Seq<char>> {
    Seq::new(fields.len(), |i: int| fields[i].name)
}

/// Where the expected fields are found.
pub open spec fn positions(fields: Seq<FieldModel>, expected: Seq<FieldModel>) -> Seq<int>
    decreases expected.len(),
{
    if expected.len() == 0 {
        Seq::empty()
    } else {
        let rest = positions(fields, expected.drop_first());
        match index_named(fields, expected[0].name) {
            Some(p) => seq![p] + rest,
            None => rest,
        }
    }
}

/// Whether a position is smaller than the one before it.
pub open spec fn out_of_order(ps: Seq<int>) -> bool {
    exists|i: int| 0 <= i < ps.len() - 1 && #[trigger] ps[i] > ps[i + 1]
}

/// The text of a truth value.
pub open spec fn bool_text(b: bool) -> Seq<char> {
    if b {
        "true"@
    } else {
        "false"@
    }
}

/// A list of one text, if a condition holds.
pub open spec fn note(cond: bool, text: Seq<char>) -> Seq<Seq<char>> {
    if cond {
        seq![text]
    } else {
        Seq::empty()
    }
}

/// The ways in which a field differs from the expected one, leaving its children
/// aside.
pub open spec fn node_differences(
    f: FieldModel,
    e: FieldModel,
    o: SchemaCompareOptions,
    path: Option<Seq<char>>,
) -> Seq<Seq<char>> {
    let name = path_text(path, f.name);
    note(
        f.name != e.name,
        "expected name '"@ + path_text(path, e.name) + "' but name was '"@ + name + "'"@,
    ) + note(
        o.compare_field_ids && f.id != e.id,
        "`"@ + name + "` should have id "@ + int_text(e.id as int) + " but id was "@ + int_text(
            f.id as int,
        ),
    ) + note(
        f.logical_type != e.logical_type,
        "`"@ + name + "` should have type "@ + e.logical_type.text() + " but type was "@
            + f.logical_type.text(),
    ) + note(
        !o.compare_nullability.accepts(e.nullable, f.nullable),
        "`"@ + name + "` should have nullable="@ + bool_text(e.nullable) + " but nullable="@
            + bool_text(f.nullable),
    ) + note(
        o.compare_dictionary && f.dictionary != e.dictionary,
        "dictionary for `"@ + name + "` did not match expected dictionary"@,
    ) + note(
        o.compare_metadata && f.metadata != e.metadata,
        "metadata for `"@ + name + "` did not match expected metadata"@,
    )
}

/// The ways in which a field differs from the expected one.
pub open spec fn field_differences(
    f: FieldModel,
    e: FieldModel,
    o: SchemaCompareOptions,
    path: Option<Seq<char>>,
) -> Seq<Seq<char>>
    decreases e, 0nat,
{
    let name = path_text(path, f.name);
    let below = fields_differences(f.children, e.children, o, Some(name));
    node_differences(f, e, o, path) + note(
        below.len() > 0,
        "`"@ + name + "` had mismatched children: "@ + join(below, ", "@),
    )
}

/// The ways in which fields differ from the expected ones: which are missing or
/// were not expected, whether the order is another, and how each that was found
/// differs.
pub open spec fn fields_differences(
    fields: Seq<FieldModel>,
    expected: Seq<FieldModel>,
    o: SchemaCompareOptions,
    path: Option<Seq<char>>,
) -> Seq<Seq<char>>
    decreases expected, 1nat,
{
    let missing = missing_names(fields, expected, o);
    let unexpected = unexpected_names(fields, expected);
    note(
        missing.len() > 0 || unexpected.len() > 0,
        "fields did not match, missing=["@ + join(path_texts(path, missing), ", "@)
            + "], unexpected=["@ + join(path_texts(path, unexpected), ", "@) + "]"@,
    ) + note(
        !o.ignore_field_order && out_of_order(positions(fields, expected)),
        "fields in different order, expected: ["@ + join(names_of(expected), ", "@)
            + "], actual: ["@ + join(names_of(fields), ", "@) + "]"@,
    ) + found_differences(fields, expected, o, path)
}

/// How each field that was found differs from the expected one.
pub open spec fn found_differences(
    fields: Seq<FieldModel>,
    expected: Seq<FieldModel>,
    o: SchemaCompareOptions,
    path: Option<Seq<char>>,
) -> Seq<Seq<char>>
    decreases expected, 0nat,
{
    if expected.len() == 0 {
        Seq::empty()
    } else {
        let rest = found_differences(fields, expected.drop_first(), o, path);
        match named(fields, expected[0].name) {
            Some(f) => {
                let own = field_differences(f, expected[0], o, path);
                note(own.len() > 0, join(own, ", "@)) + rest
            },
            None => rest,
        }
    }
}

/// The last position of a name is the one that no other of the name follows.
pub proof fn lemma_last_named(fields: Seq<FieldModel>, name: Seq<char>)
    ensures
        match last_named(fields, name) {
            Some(p) => {
                &&& 0 <= p < fields.len()
                &&& fields[p].name == name
                &&& forall|j: int| p < j < fields.len() ==> (#[trigger] fields[j]).name != name
            },
            None => forall|j: int| 0 <= j < fields.len() ==> (#[trigger] fields[j]).name != name,
        },
    decreases fields.len(),
{
    if fields.len() > 0 && fields.last().name != name {
        let front = fields.drop_last();
        lemma_last_named(front, name);
        match last_named(front, name) {
            Some(p) => {
                assert forall|j: int| p < j < fields.len() implies (#[trigger] fields[j]).name
                    != name by {
                    if j < front.len() {
                        assert(front[j] == fields[j]);
                    }
                }
            },
            None => {
                assert forall|j: int| 0 <= j < fields.len() implies (#[trigger] fields[j]).name
                    != name by {
                    if j < front.len() {
                        assert(front[j] == fields[j]);
                    }
                }
            },
        }
    }
}

fn find_last_named(fields: &[Field], name: &str) -> (r: Option<usize>)
    ensures
        match r {
            Some(i) => i < fields@.len() && last_named(views(fields@), name@) == Some(i as int),
            None => last_named(views(fields@), name@) is None,
        },
{
    let mut i: usize = fields.len();
    proof {
        lemma_last_named(views(fields@), name@);
    }
    while i > 0
        invariant
            i <= fields@.len(),
            forall|j: int| i <= j < fields@.len() ==> (#[trigger] views(fields@)[j]).name != name@,
        decreases i,
    {
        i -= 1;
        assert(views(fields@)[i as int] == fields@[i as int]@);
        if same_text(fields[i].name.as_str(), name) {
            proof {
                lemma_last_named(views(fields@), name@);
                let p = last_named(views(fields@), name@)->0;
                assert(views(fields@)[p].name == name@);
                assert(p == i);
            }
            return Some(i);
        }
    }
    proof {
        lemma_last_named(views(fields@), name@);
    }
    None
}

fn same_dictionary(a: &Option<Dictionary>, b: &Option<Dictionary>) -> (r: bool)
    ensures
        r == (*a == *b),
{
    match (a, b) {
        (Some(x), Some(y)) => *x == *y,
        (None, None) => true,
        _ => false,
    }
}

impl Field {
    fn node_is(&self, expected: &Field, options: &SchemaCompareOptions) -> (r: bool)
        ensures
            r == node_matches(self@, expected@, *options),
    {
        self.name == expected.name && self.logical_type == expected.logical_type
            && options.compare_nullability.is_accepted(expected.nullable, self.nullable) && (
        !options.compare_field_ids || self.id == expected.id) && (!options.compare_dictionary
            || same_dictionary(&self.dictionary, &expected.dictionary)) && (
        !options.compare_metadata || self.metadata == expected.metadata)
    }

    /// Whether the field is the expected one.
    pub fn compare_with_options(&self, expected: &Field, options: &SchemaCompareOptions) -> (r:
        bool)
        ensures
            r == field_matches(self@, expected@, *options),
        decreases expected, 0nat,
    {
        proof {
            lemma_children(*self);
            lemma_children(*expected);
        }
        self.node_is(expected, options) && compare_fields(
            self.children.as_slice(),
            expected.children.as_slice(),
            options,
        )
    }
}

/// Whether fields are the expected ones.
pub fn compare_fields(
    fields: &[Field],
    expected: &[Field],
    options: &SchemaCompareOptions,
) -> (r: bool)
    ensures
        r == fields_match(views(fields@), views(expected@), *options),
    decreases expected@, 1nat,
{
    let ghost ours = views(fields@);
    let ghost theirs = views(expected@);
    if options.allow_missing_if_nullable || options.ignore_field_order {
        let mut i: usize = 0;
        while i < fields.len()
            invariant
                i <= fields@.len(),
                ours == views(fields@),
                theirs == views(expected@),
                forall|j: int| 0 <= j < i ==> has_name(theirs, (#[trigger] ours[j]).name),
                options.allow_missing_if_nullable || options.ignore_field_order,
            decreases fields@.len() - i,
        {
            proof {
                lemma_index_named(theirs, fields@[i as int]@.name);
                assert(ours[i as int] == fields@[i as int]@);
            }
            if find_named(expected, fields[i].name.as_str()).is_none() {
                return false;
            }
            i += 1;
        }
        let mut cumulative_position: usize = 0;
        let mut k: usize = 0;
        proof {
            lemma_skip_ends(theirs);
        }
        while k < expected.len()
            invariant
                k <= expected@.len(),
                ours == views(fields@),
                theirs == views(expected@),
                found_in(ours, theirs, 0, *options) == found_in(
                    ours,
                    theirs.skip(k as int),
                    cumulative_position as int,
                    *options,
                ),
                options.allow_missing_if_nullable || options.ignore_field_order,
                forall|j: int|
                    0 <= j < ours.len() ==> has_name(theirs, (#[trigger] ours[j]).name),
            decreases expected@.len() - k,
        {
            let expected_field = &expected[k];
            proof {
                lemma_skip_step(theirs, k as int);
                lemma_last_named(ours, expected_field@.name);
            }
            match find_last_named(fields, expected_field.name.as_str()) {
                Some(p) => {
                    if !fields[p].compare_with_options(expected_field, options) {
                        return false;
                    }
                    if !options.ignore_field_order && p < cumulative_position {
                        return false;
                    }
                    cumulative_position = p;
                },
                None => {
                    if !(options.allow_missing_if_nullable && expected_field.nullable) {
                        return false;
                    }
                },
            }
            k += 1;
        }
        proof {
            lemma_skip_ends(theirs);
        }
        true
    } else {
        if fields.len() != expected.len() {
            return false;
        }
        let mut k: usize = 0;
        proof {
            lemma_skip_ends(ours);
            lemma_skip_ends(theirs);
        }
        while k < expected.len()
            invariant
                k <= expected@.len(),
                fields@.len() == expected@.len(),
                ours == views(fields@),
                theirs == views(expected@),
                match_in_turn(ours, theirs, *options) == match_in_turn(
                    ours.skip(k as int),
                    theirs.skip(k as int),
                    *options,
                ),
                !options.allow_missing_if_nullable && !options.ignore_field_order,
            decreases expected@.len() - k,
        {
            proof {
                lemma_skip_step(ours, k as int);
                lemma_skip_step(theirs, k as int);
            }
            if !fields[k].compare_with_options(&expected[k], options) {
                return false;
            }
            k += 1;
        }
        proof {
            lemma_skip_ends(theirs);
        }
        true
    }
}

/// Whether a list holds a text.
pub fn holds_text(texts: &Vec<String>, text: &str) -> (r: bool)
    ensures
        r == views(texts@).contains(text@),
{
    let mut i: usize = 0;
    while i < texts.len()
        invariant
            i <= texts@.len(),
            forall|j: int| 0 <= j < i ==> (#[trigger] views(texts@)[j]) != text@,
        decreases texts@.len() - i,
    {
        assert(views(texts@)[i as int] == texts@[i as int]@);
        if same_text(texts[i].as_str(), text) {
            return true;
        }
        i += 1;
    }
    false
}

fn prepend_path(path: Option<&str>, name: &str) -> (r: String)
    ensures
        r@ == path_text(opt_view(path), name@),
{
    match path {
        Some(p) => concat(concat(p, ".").as_str(), name),
        None => name.to_owned(),
    }
}

fn prepend_paths(path: Option<&str>, names: &Vec<String>) -> (r: Vec<String>)
    ensures
        views(r@) == path_texts(opt_view(path), views(names@)),
{
    let mut out: Vec<String> = Vec::new();
    let mut i: usize = 0;
    while i < names.len()
        invariant
            i <= names@.len(),
            out@.len() == i,
            forall|j: int|
                0 <= j < i ==> (#[trigger] out@[j])@ == path_text(opt_view(path), names@[j]@),
        decreases names@.len() - i,
    {
        out.push(prepend_path(path, names[i].as_str()));
        i += 1;
    }
    assert(views(out@) =~= path_texts(opt_view(path), views(names@)));
    out
}

/// The names of fields.
pub fn names_in(fields: &[Field]) -> (r: Vec<String>)
    ensures
        views(r@) == names_of(views(fields@)),
{
    let mut out: Vec<String> = Vec::new();
    let mut i: usize = 0;
    while i < fields.len()
        invariant
            i <= fields@.len(),
            out@.len() == i,
            forall|j: int| 0 <= j < i ==> (#[trigger] out@[j])@ == fields@[j]@.name,
        decreases fields@.len() - i,
    {
        out.push(fields[i].name.clone());
        i += 1;
    }
    assert(views(out@) =~= names_of(views(fields@)));
    out
}

fn find_unexpected(fields: &[Field], expected: &[Field]) -> (r: Vec<String>)
    ensures
        views(r@) == unexpected_names(views(fields@), views(expected@)),
{
    let ghost all = views(fields@);
    let ghost theirs = views(expected@);
    let ghost cond = |n: Seq<char>| !has_name(theirs, n);
    let mut out: Vec<String> = Vec::new();
    let mut i: usize = 0;
    assert(views(out@) =~= names_where(all.take(0), cond));
    while i < fields.len()
        invariant
            i <= fields@.len(),
            all == views(fields@),
            theirs == views(expected@),
            cond == (|n: Seq<char>| !has_name(theirs, n)),
            views(out@) == names_where(all.take(i as int), cond),
        decreases fields@.len() - i,
    {
        let name = &fields[i].name;
        proof {
            assert(all.take(i + 1).drop_last() =~= all.take(i as int));
            assert(all.take(i + 1).last().name == name@);
            lemma_index_named(theirs, name@);
        }
        if find_named(expected, name.as_str()).is_none() && !holds_text(&out, name.as_str()) {
            let copy = name.clone();
            proof {
                lemma_views_push(out@, copy);
            }
            out.push(copy);
        }
        i += 1;
    }
    assert(all.take(all.len() as int) =~= all);
    out
}

fn find_missing(fields: &[Field], expected: &[Field], options: &SchemaCompareOptions) -> (r: Vec<
    String,
>)
    ensures
        views(r@) == missing_names(views(fields@), views(expected@), *options),
{
    let ghost ours = views(fields@);
    let ghost all = views(expected@);
    let ghost o = *options;
    let ghost cond = |n: Seq<char>| is_missing(n, ours, all, o);
    let mut out: Vec<String> = Vec::new();
    let mut i: usize = 0;
    assert(views(out@) =~= names_where(all.take(0), cond));
    while i < expected.len()
        invariant
            i <= expected@.len(),
            ours == views(fields@),
            all == views(expected@),
            o == *options,
            cond == (|n: Seq<char>| is_missing(n, ours, all, o)),
            views(out@) == names_where(all.take(i as int), cond),
        decreases expected@.len() - i,
    {
        let name = &expected[i].name;
        proof {
            assert(all.take(i + 1).drop_last() =~= all.take(i as int));
            assert(all.take(i + 1).last().name == name@);
            assert(all[i as int].name == name@);
            lemma_index_named(ours, name@);
            lemma_index_named(all, name@);
        }
        let mut missing = find_named(fields, name.as_str()).is_none();
        if missing && options.allow_missing_if_nullable {
            match find_named(expected, name.as_str()) {
                Some(k) => {
                    assert(all[k as int] == expected@[k as int]@);
                    missing = !expected[k].nullable;
                },
                None => {},
            }
        }
        if missing && !holds_text(&out, name.as_str()) {
            let copy = name.clone();
            proof {
                lemma_views_push(out@, copy);
            }
            out.push(copy);
        }
        i += 1;
    }
    assert(all.take(all.len() as int) =~= all);
    out
}

fn find_disorder(fields: &[Field], expected: &[Field]) -> (r: bool)
    ensures
        r == out_of_order(positions(views(fields@), views(expected@))),
{
    let ghost ours = views(fields@);
    let ghost all = views(expected@);
    let ghost at = positions(ours, all);
    let mut ps: Vec<usize> = Vec::new();
    let mut i: usize = 0;
    let ghost mut seen: Seq<int> = Seq::empty();
    proof {
        lemma_skip_ends(all);
        assert(seen + positions(ours, all) =~= at);
    }
    while i < expected.len()
        invariant
            i <= expected@.len(),
            ours == views(fields@),
            all == views(expected@),
            at == positions(ours, all),
            at == seen + positions(ours, all.skip(i as int)),
            ps@.len() == seen.len(),
            forall|j: int| 0 <= j < ps@.len() ==> (#[trigger] ps@[j]) == seen[j],
        decreases expected@.len() - i,
    {
        proof {
            lemma_skip_step(all, i as int);
        }
        match find_named(fields, expected[i].name.as_str()) {
            Some(p) => {
                proof {
                    assert(at =~= seen.push(p as int) + positions(ours, all.skip(i + 1)));
                    seen = seen.push(p as int);
                }
                ps.push(p);
            },
            None => {},
        }
        i += 1;
    }
    proof {
        lemma_skip_ends(all);
        assert(at =~= seen);
    }
    let mut k: usize = 1;
    while k < ps.len()
        invariant
            1 <= k,
            k <= ps@.len() || ps@.len() == 0,
            ps@.len() == at.len(),
            at == positions(views(fields@), views(expected@)),
            forall|j: int| 0 <= j < ps@.len() ==> (#[trigger] ps@[j]) == at[j],
            forall|j: int| 0 <= j < k - 1 ==> (#[trigger] at[j]) <= at[j + 1],
        decreases ps@.len() - k,
    {
        if ps[k - 1] > ps[k] {
            assert(at[k - 1] > at[k - 1 + 1]);
            return true;
        }
        k += 1;
    }
    false
}

fn text_of_bool(b: bool) -> (r: &'static str)
    ensures
        r@ == bool_text(b),
{
    if b {
        "true"
    } else {
        "false"
    }
}

/// Adds a text to a list, if a condition holds.
fn add_note(notes: &mut Vec<String>, cond: bool, text: String)
    ensures
        views(final(notes)@) == views(old(notes)@) + note(cond, text@),
{
    let ghost before = notes@;
    if cond {
        notes.push(text);
        proof {
            lemma_views_push(before, text);
        }
        assert(views(notes@) =~= views(before) + seq![text@]);
    } else {
        assert(views(notes@) =~= views(before) + Seq::<Seq<char>>::empty());
    }
}

impl Field {
    fn explain_node(
        &self,
        expected: &Field,
        options: &SchemaCompareOptions,
        path: Option<&str>,
    ) -> (r: Vec<String>)
        ensures
            views(r@) == node_differences(self@, expected@, *options, opt_view(path)),
    {
        let name = prepend_path(path, self.name.as_str());
        let mut notes: Vec<String> = Vec::new();
        assert(views(notes@) =~= Seq::<Seq<char>>::empty());
        let wanted = prepend_path(path, expected.name.as_str());
        let text = concat(
            concat4("expected name '", wanted.as_str(), "' but name was '", name.as_str()).as_str(),
            "'",
        );
        add_note(&mut notes, self.name != expected.name, text);
        let id = i32_text(self.id);
        let wanted_id = i32_text(expected.id);
        let text = concat(
            concat(
                concat4("`", name.as_str(), "` should have id ", wanted_id.as_str()).as_str(),
                " but id was ",
            ).as_str(),
            id.as_str(),
        );
        add_note(&mut notes, options.compare_field_ids && self.id != expected.id, text);
        let logical = self.logical_type.text();
        let wanted_logical = expected.logical_type.text();
        let text = concat(
            concat(
                concat4("`", name.as_str(), "` should have type ", wanted_logical.as_str()).as_str(),
                " but type was ",
            ).as_str(),
            logical.as_str(),
        );
        add_note(&mut notes, self.logical_type != expected.logical_type, text);
        let text = concat(
            concat(
                concat4(
                    "`",
                    name.as_str(),
                    "` should have nullable=",
                    text_of_bool(expected.nullable),
                ).as_str(),
                " but nullable=",
            ).as_str(),
            text_of_bool(self.nullable),
        );
        add_note(
            &mut notes,
            !options.compare_nullability.is_accepted(expected.nullable, self.nullable),
            text,
        );
        let text = concat(
            concat("dictionary for `", name.as_str()).as_str(),
            "` did not match expected dictionary",
        );
        add_note(
            &mut notes,
            options.compare_dictionary && !same_dictionary(&self.dictionary, &expected.dictionary),
            text,
        );
        let text = concat(
            concat("metadata for `", name.as_str()).as_str(),
            "` did not match expected metadata",
        );
        add_note(&mut notes, options.compare_metadata && self.metadata != expected.metadata, text);
        assert(views(notes@) =~= node_differences(self@, expected@, *options, opt_view(path)));
        notes
    }

    /// The ways in which the field differs from the expected one.
    pub fn explain_differences(
        &self,
        expected: &Field,
        options: &SchemaCompareOptions,
        path: Option<&str>,
    ) -> (r: Vec<String>)
        ensures
            views(r@) == field_differences(self@, expected@, *options, opt_view(path)),
        decreases expected, 0nat,
    {
        proof {
            lemma_children(*self);
            lemma_children(*expected);
        }
        let mut notes = self.explain_node(expected, options, path);
        let name = prepend_path(path, self.name.as_str());
        let below = explain_fields_difference(
            self.children.as_slice(),
            expected.children.as_slice(),
            options,
            Some(name.as_str()),
        );
        let text = concat4(
            "`",
            name.as_str(),
            "` had mismatched children: ",
            join_all(&below, ", ").as_str(),
        );
        add_note(&mut notes, below.len() > 0, text);
        notes
    }
}

/// The ways in which fields differ from the expected ones.
pub fn explain_fields_difference(
    fields: &[Field],
    expected: &[Field],
    options: &SchemaCompareOptions,
    path: Option<&str>,
) -> (r: Vec<String>)
    ensures
        views(r@) == fields_differences(
            views(fields@),
            views(expected@),
            *options,
            opt_view(path),
        ),
    decreases expected@, 1nat,
{
    let ghost ours = views(fields@);
    let ghost theirs = views(expected@);
    let ghost at = opt_view(path);
    let missing = find_missing(fields, expected, options);
    let unexpected = find_unexpected(fields, expected);
    let mut differences: Vec<String> = Vec::new();
    assert(views(differences@) =~= Seq::<Seq<char>>::empty());
    let text = concat(
        concat4(
            "fields did not match, missing=[",
            join_all(&prepend_paths(path, &missing), ", ").as_str(),
            "], unexpected=[",
            join_all(&prepend_paths(path, &unexpected), ", ").as_str(),
        ).as_str(),
        "]",
    );
    add_note(&mut differences, missing.len() > 0 || unexpected.len() > 0, text);
    let text = concat(
        concat4(
            "fields in different order, expected: [",
            join_all(&names_in(expected), ", ").as_str(),
            "], actual: [",
            join_all(&names_in(fields), ", ").as_str(),
        ).as_str(),
        "]",
    );
    add_note(
        &mut differences,
        !options.ignore_field_order && find_disorder(fields, expected),
        text,
    );
    let ghost start = views(differences@);
    let mut i: usize = 0;
    proof {
        lemma_skip_ends(theirs);
    }
    while i < expected.len()
        invariant
            i <= expected@.len(),
            ours == views(fields@),
            theirs == views(expected@),
            at == opt_view(path),
            start + found_differences(ours, theirs, *options, at) == views(differences@)
                + found_differences(ours, theirs.skip(i as int), *options, at),
        decreases expected@.len() - i,
    {
        let expected_field = &expected[i];
        proof {
            lemma_skip_step(theirs, i as int);
            lemma_index_named(ours, expected_field@.name);
        }
        let ghost before = views(differences@);
        let ghost rest = found_differences(ours, theirs.skip(i + 1), *options, at);
        match find_named(fields, expected_field.name.as_str()) {
            Some(p) => {
                assert(ours[p as int] == fields@[p as int]@);
                let own = fields[p].explain_differences(expected_field, options, path);
                let text = join_all(&own, ", ");
                add_note(&mut differences, own.len() > 0, text);
                assert(before + (note(own@.len() > 0, text@) + rest) =~= views(differences@)
                    + rest);
            },
            None => {},
        }
        i += 1;
    }
    proof {
        lemma_skip_ends(theirs);
        assert(views(differences@) + Seq::<Seq<char>>::empty() =~= views(differences@));
    }
    differences
}

// Laws.

/// Whether no two fields that stand side by side have the same name, here and
/// below.
pub open spec fn distinct(fields: Seq<FieldModel>) -> bool
    decreases fields,
{
    &&& forall|i: int, j: int|
        0 <= i < j < fields.len() ==> (#[trigger] fields[i]).name != (#[trigger] fields[j]).name
    &&& forall|i: int| 0 <= i < fields.len() ==> distinct((#[trigger] fields[i]).children)
}

proof fn lemma_only_named(fields: Seq<FieldModel>, name: Seq<char>)
    requires
        distinct(fields),
    ensures
        last_named(fields, name) == index_named(fields, name),
        match index_named(fields, name) {
            Some(p) => 0 <= p < fields.len() && fields[p].name == name && distinct(
                fields[p].children,
            ),
            None => true,
        },
        index_named(fields, name) is Some <==> has_name(fields, name),
{
    lemma_last_named(fields, name);
    lemma_index_named(fields, name);
    if index_named(fields, name) is Some {
        let p = index_named(fields, name)->0;
        assert(fields[p].name == name);
        assert(last_named(fields, name) is Some);
        let q = last_named(fields, name)->0;
        assert(fields[q].name == name);
    }
}

proof fn lemma_names_where(fields: Seq<FieldModel>, cond: spec_fn(Seq<char>) -> bool)
    ensures
        names_where(fields, cond).len() == 0 <==> forall|i: int|
            0 <= i < fields.len() ==> !cond((#[trigger] fields[i]).name),
    decreases fields.len(),
{
    if fields.len() > 0 {
        let front = fields.drop_last();
        lemma_names_where(front, cond);
        assert(forall|i: int| 0 <= i < front.len() ==> front[i] == (#[trigger] fields[i]));
        if names_where(fields, cond).len() == 0 {
            assert forall|i: int| 0 <= i < fields.len() implies !cond(
                (#[trigger] fields[i]).name,
            ) by {
                if i < front.len() {
                    assert(front[i] == fields[i]);
                }
            }
        } else if forall|i: int| 0 <= i < fields.len() ==> !cond((#[trigger] fields[i]).name) {
            assert forall|i: int| 0 <= i < front.len() implies !cond((#[trigger] front[i]).name) by {
                assert(front[i] == fields[i]);
            }
            assert(fields.last() == fields[fields.len() - 1]);
        }
    }
}

/// Whether numbers do not fall, starting from one.
spec fn rising(after: int, ps: Seq<int>) -> bool
    decreases ps.len(),
{
    ps.len() > 0 ==> after <= ps[0] && rising(ps[0], ps.drop_first())
}

proof fn lemma_rising(after: int, ps: Seq<int>)
    ensures
        rising(after, ps) <==> !out_of_order(ps) && (ps.len() > 0 ==> after <= ps[0]),
    decreases ps.len(),
{
    if ps.len() > 0 {
        let rest = ps.drop_first();
        lemma_rising(ps[0], rest);
        if out_of_order(ps) {
            let i = choose|i: int| 0 <= i < ps.len() - 1 && #[trigger] ps[i] > ps[i + 1];
            if i > 0 {
                assert(rest[i - 1] > rest[i - 1 + 1]);
            } else {
                assert(rest[0] == ps[1]);
            }
        } else {
            assert forall|i: int| 0 <= i < rest.len() - 1 implies #[trigger] rest[i] <= rest[i
                + 1] by {
                assert(ps[i + 1] <= ps[i + 1 + 1]);
            }
            if rest.len() > 0 {
                assert(ps[0] <= ps[0int + 1]);
            }
        }
    }
}

/// Whether an expected field that is found matches, and one that is not may be
/// missing.
spec fn is_met(fields: Seq<FieldModel>, e: FieldModel, o: SchemaCompareOptions) -> bool {
    match index_named(fields, e.name) {
        Some(p) => field_matches(fields[p], e, o),
        None => o.allow_missing_if_nullable && e.nullable,
    }
}

proof fn lemma_found_in(
    fields: Seq<FieldModel>,
    expected: Seq<FieldModel>,
    after: int,
    o: SchemaCompareOptions,
)
    requires
        distinct(fields),
    ensures
        found_in(fields, expected, after, o) <==> {
            &&& forall|i: int| 0 <= i < expected.len() ==> is_met(fields, #[trigger] expected[i], o)
            &&& o.ignore_field_order || rising(after, positions(fields, expected))
        },
    decreases expected.len(),
{
    if expected.len() > 0 {
        let rest = expected.drop_first();
        lemma_only_named(fields, expected[0].name);
        let next = match index_named(fields, expected[0].name) {
            Some(p) => p,
            None => after,
        };
        lemma_found_in(fields, rest, next, o);
        assert(forall|i: int| 0 <= i < rest.len() ==> (#[trigger] rest[i]) == expected[i + 1]);
        if forall|i: int| 0 <= i < rest.len() ==> is_met(fields, #[trigger] rest[i], o) {
            assert forall|i: int| 1 <= i < expected.len() implies is_met(
                fields,
                #[trigger] expected[i],
                o,
            ) by {
                assert(rest[i - 1] == expected[i]);
            }
        } else {
            let i = choose|i: int| 0 <= i < rest.len() && !is_met(fields, #[trigger] rest[i], o);
            assert(!is_met(fields, expected[i + 1], o));
        }
        match index_named(fields, expected[0].name) {
            Some(p) => {
                let ps = positions(fields, expected);
                assert(ps.drop_first() =~= positions(fields, rest));
            },
            None => {},
        }
    }
}

proof fn lemma_in_turn(
    fields: Seq<FieldModel>,
    expected: Seq<FieldModel>,
    o: SchemaCompareOptions,
)
    requires
        fields.len() == expected.len(),
    ensures
        match_in_turn(fields, expected, o) <==> forall|i: int|
            0 <= i < expected.len() ==> field_matches(fields[i], #[trigger] expected[i], o),
    decreases expected.len(),
{
    if expected.len() > 0 {
        let f = fields.drop_first();
        let e = expected.drop_first();
        lemma_in_turn(f, e, o);
        if match_in_turn(f, e, o) {
            assert forall|i: int| 1 <= i < expected.len() implies field_matches(
                fields[i],
                #[trigger] expected[i],
                o,
            ) by {
                assert(e[i - 1] == expected[i]);
                assert(f[i - 1] == fields[i]);
            }
        } else {
            let i = choose|i: int| 0 <= i < e.len() && !field_matches(f[i], #[trigger] e[i], o);
            assert(e[i] == expected[i + 1]);
            assert(f[i] == fields[i + 1]);
            assert(!field_matches(fields[i + 1], expected[i + 1], o));
        }
    }
}

proof fn lemma_found_differences(
    fields: Seq<FieldModel>,
    expected: Seq<FieldModel>,
    o: SchemaCompareOptions,
    path: Option<Seq<char>>,
)
    ensures
        found_differences(fields, expected, o, path).len() == 0 <==> forall|i: int|
            0 <= i < expected.len() ==> {
                let e = #[trigger] expected[i];
                named(fields, e.name) is Some ==> field_differences(
                    named(fields, e.name)->0,
                    e,
                    o,
                    path,
                ).len() == 0
            },
    decreases expected.len(),
{
    if expected.len() > 0 {
        let rest = expected.drop_first();
        lemma_found_differences(fields, rest, o, path);
        assert(forall|i: int| 0 <= i < rest.len() ==> (#[trigger] rest[i]) == expected[i + 1]);
        if found_differences(fields, rest, o, path).len() == 0 {
            assert forall|i: int| 1 <= i < expected.len() implies {
                let e = #[trigger] expected[i];
                named(fields, e.name) is Some ==> field_differences(
                    named(fields, e.name)->0,
                    e,
                    o,
                    path,
                ).len() == 0
            } by {
                assert(rest[i - 1] == expected[i]);
            }
        } else {
            let i = choose|i: int|
                0 <= i < rest.len() && !{
                    let e = #[trigger] rest[i];
                    named(fields, e.name) is Some ==> field_differences(
                        named(fields, e.name)->0,
                        e,
                        o,
                        path,
                    ).len() == 0
                };
            assert(rest[i] == expected[i + 1]);
        }
    }
}

/// Where all expected fields are found, there is one position for each.
proof fn lemma_positions(fields: Seq<FieldModel>, expected: Seq<FieldModel>)
    requires
        forall|i: int|
            0 <= i < expected.len() ==> index_named(fields, (#[trigger] expected[i]).name) is Some,
    ensures
        positions(fields, expected).len() == expected.len(),
        forall|i: int|
            0 <= i < expected.len() ==> #[trigger] positions(fields, expected)[i] == index_named(
                fields,
                expected[i].name,
            )->0,
    decreases expected.len(),
{
    if expected.len() > 0 {
        let rest = expected.drop_first();
        assert forall|i: int| 0 <= i < rest.len() implies index_named(
            fields,
            (#[trigger] rest[i]).name,
        ) is Some by {
            assert(rest[i] == expected[i + 1]);
        }
        lemma_positions(fields, rest);
        assert forall|i: int| 0 <= i < expected.len() implies #[trigger] positions(
            fields,
            expected,
        )[i] == index_named(fields, expected[i].name)->0 by {
            assert(index_named(fields, expected[0].name) is Some);
            if i > 0 {
                assert(rest[i - 1] == expected[i]);
                assert(positions(fields, expected)[i] == positions(fields, rest)[i - 1]);
            }
        }
    }
}

proof fn lemma_not_falling(ps: Seq<int>, i: int, j: int)
    requires
        !out_of_order(ps),
        0 <= i <= j < ps.len(),
    ensures
        ps[i] <= ps[j],
    decreases j - i,
{
    if i < j {
        lemma_not_falling(ps, i, j - 1);
        assert(ps[j - 1] <= ps[j - 1 + 1]);
    }
}

/// Where the same distinct names stand on both sides in one order, they stand at
/// the same positions.
proof fn lemma_same_places(fields: Seq<FieldModel>, expected: Seq<FieldModel>)
    requires
        distinct(fields),
        distinct(expected),
        forall|i: int| 0 <= i < fields.len() ==> has_name(expected, (#[trigger] fields[i]).name),
        forall|i: int| 0 <= i < expected.len() ==> has_name(fields, (#[trigger] expected[i]).name),
        !out_of_order(positions(fields, expected)),
    ensures
        fields.len() == expected.len(),
        forall|i: int|
            0 <= i < expected.len() ==> fields[i].name == (#[trigger] expected[i]).name,
{
    assert forall|i: int| 0 <= i < expected.len() implies index_named(
        fields,
        (#[trigger] expected[i]).name,
    ) is Some by {
        lemma_only_named(fields, expected[i].name);
    }
    lemma_positions(fields, expected);
    let ps = positions(fields, expected);
    assert forall|i: int| 0 <= i < expected.len() implies 0 <= #[trigger] ps[i] < fields.len()
        && fields[ps[i]].name == expected[i].name by {
        lemma_only_named(fields, expected[i].name);
    }
    assert forall|i: int, j: int| 0 <= i < j < ps.len() implies #[trigger] ps[i]
        < #[trigger] ps[j] by {
        lemma_not_falling(ps, i, j);
        assert(expected[i].name != expected[j].name);
        assert(fields[ps[i]].name == expected[i].name);
    }
    assert forall|k: int| 0 <= k < fields.len() implies #[trigger] ps.contains(k) by {
        assert(has_name(expected, fields[k].name));
        let i = choose|i: int|
            0 <= i < expected.len() && (#[trigger] expected[i]).name == fields[k].name;
        assert(fields[ps[i]].name == fields[k].name);
        assert(ps[i] == k);
    }
    lemma_onto(ps, fields.len() as int, ps.len() as int);
    assert forall|i: int| 0 <= i < expected.len() implies fields[i].name == (
    #[trigger] expected[i]).name by {
        assert(ps[i] == i);
    }
}

/// Growing numbers that hit everything below `n` are 0, 1, 2 and so on, up to `n`.
proof fn lemma_onto(ps: Seq<int>, n: int, upto: int)
    requires
        0 <= upto <= ps.len(),
        n >= 0,
        forall|i: int| 0 <= i < ps.len() ==> 0 <= #[trigger] ps[i] < n,
        forall|i: int, j: int| 0 <= i < j < ps.len() ==> #[trigger] ps[i] < #[trigger] ps[j],
        forall|k: int| 0 <= k < n ==> #[trigger] ps.contains(k),
    ensures
        forall|i: int| 0 <= i < upto ==> #[trigger] ps[i] == i,
        upto == ps.len() ==> n == ps.len(),
    decreases upto,
{
    if upto > 0 {
        lemma_onto(ps, n, upto - 1);
        let k = upto - 1;
        if k > 0 {
            assert(ps[k - 1] < ps[k]);
        }
        assert(ps[k] >= k);
        if ps[k] > k {
            assert(ps.contains(k));
            let i = choose|i: int| 0 <= i < ps.len() && #[trigger] ps[i] == k;
            if i < k {
                assert(ps[i] == i);
            } else if i > k {
                assert(ps[k] < ps[i]);
            }
        }
    }
    if upto == ps.len() && n > ps.len() {
        assert(ps.contains(ps.len() as int));
        let i = choose|i: int| 0 <= i < ps.len() && #[trigger] ps[i] == ps.len() as int;
        assert(ps[i] == i);
    }
    if upto == ps.len() && ps.len() > 0 {
        assert(ps[ps.len() - 1] == ps.len() - 1);
    }
}

proof fn lemma_node_explained(
    f: FieldModel,
    e: FieldModel,
    o: SchemaCompareOptions,
    path: Option<Seq<char>>,
)
    ensures
        node_matches(f, e, o) <==> node_differences(f, e, o, path).len() == 0,
{
}

/// A field whose siblings have distinct names is the expected one exactly where
/// no difference is found.
pub proof fn field_explained(
    f: FieldModel,
    e: FieldModel,
    o: SchemaCompareOptions,
    path: Option<Seq<char>>,
)
    requires
        distinct(f.children),
        distinct(e.children),
    ensures
        field_matches(f, e, o) <==> field_differences(f, e, o, path).len() == 0,
    decreases e, 0nat,
{
    lemma_node_explained(f, e, o, path);
    fields_explained(f.children, e.children, o, Some(path_text(path, f.name)));
}

/// What it takes for fields with distinct names to be the expected ones.
spec fn agrees(
    fields: Seq<FieldModel>,
    expected: Seq<FieldModel>,
    o: SchemaCompareOptions,
) -> bool {
    &&& forall|i: int| 0 <= i < fields.len() ==> has_name(expected, (#[trigger] fields[i]).name)
    &&& forall|i: int| 0 <= i < expected.len() ==> is_met(fields, #[trigger] expected[i], o)
    &&& o.ignore_field_order || !out_of_order(positions(fields, expected))
}

proof fn lemma_agrees_by_name(
    fields: Seq<FieldModel>,
    expected: Seq<FieldModel>,
    o: SchemaCompareOptions,
)
    requires
        distinct(fields),
        distinct(expected),
        o.allow_missing_if_nullable || o.ignore_field_order,
    ensures
        fields_match(fields, expected, o) <==> agrees(fields, expected, o),
{
    lemma_found_in(fields, expected, 0, o);
    lemma_rising(0, positions(fields, expected));
    lemma_positions_bounds(fields, expected);
}

proof fn lemma_agrees_in_turn(
    fields: Seq<FieldModel>,
    expected: Seq<FieldModel>,
    o: SchemaCompareOptions,
)
    requires
        distinct(fields),
        distinct(expected),
        !o.allow_missing_if_nullable && !o.ignore_field_order,
    ensures
        fields_match(fields, expected, o) <==> agrees(fields, expected, o),
{
    let ps = positions(fields, expected);
    if agrees(fields, expected, o) {
        assert forall|i: int| 0 <= i < expected.len() implies has_name(
            fields,
            (#[trigger] expected[i]).name,
        ) by {
            assert(is_met(fields, expected[i], o));
            lemma_only_named(fields, expected[i].name);
        }
        lemma_same_places(fields, expected);
        lemma_in_turn(fields, expected, o);
        assert forall|i: int| 0 <= i < expected.len() implies field_matches(
            fields[i],
            #[trigger] expected[i],
            o,
        ) by {
            assert(is_met(fields, expected[i], o));
            lemma_only_named(fields, expected[i].name);
            let p = index_named(fields, expected[i].name)->0;
            assert(fields[p].name == fields[i].name);
            assert(p == i);
        }
    }
    if fields_match(fields, expected, o) {
        lemma_in_turn(fields, expected, o);
        assert forall|i: int| 0 <= i < expected.len() implies {
            let e = #[trigger] expected[i];
            index_named(fields, e.name) == Some(i) && fields[i].name == e.name
        } by {
            let e = expected[i];
            assert(field_matches(fields[i], e, o));
            lemma_only_named(fields, e.name);
            assert(has_name(fields, e.name));
            let p = index_named(fields, e.name)->0;
            assert(fields[p].name == fields[i].name);
        }
        assert forall|i: int| 0 <= i < fields.len() implies has_name(
            expected,
            (#[trigger] fields[i]).name,
        ) by {
            assert(expected[i].name == fields[i].name);
        }
        lemma_positions(fields, expected);
        assert(!out_of_order(ps)) by {
            assert forall|i: int| 0 <= i < ps.len() - 1 implies #[trigger] ps[i] <= ps[i + 1] by {
                assert(ps[i] == index_named(fields, expected[i].name)->0);
                assert(ps[i + 1] == index_named(fields, expected[i + 1].name)->0);
            }
        }
    }
}

/// An expected field is met where it is not missing, and matches where it is
/// found.
proof fn lemma_met(
    fields: Seq<FieldModel>,
    expected: Seq<FieldModel>,
    i: int,
    o: SchemaCompareOptions,
)
    requires
        distinct(fields),
        distinct(expected),
        0 <= i < expected.len(),
    ensures
        is_met(fields, expected[i], o) <==> {
            let e = expected[i];
            &&& !is_missing(e.name, fields, expected, o)
            &&& named(fields, e.name) is Some ==> field_matches(named(fields, e.name)->0, e, o)
        },
        match named(fields, expected[i].name) {
            Some(f) => distinct(f.children),
            None => true,
        },
{
    let e = expected[i];
    lemma_only_named(fields, e.name);
    lemma_only_named(expected, e.name);
    assert(has_name(expected, e.name));
    let k = index_named(expected, e.name)->0;
    assert(expected[k].name == expected[i].name);
    assert(k == i);
}

/// Fields with distinct names are the expected ones exactly where no difference
/// is found.
pub proof fn fields_explained(
    fields: Seq<FieldModel>,
    expected: Seq<FieldModel>,
    o: SchemaCompareOptions,
    path: Option<Seq<char>>,
)
    requires
        distinct(fields),
        distinct(expected),
    ensures
        fields_match(fields, expected, o) <==> fields_differences(fields, expected, o, path).len()
            == 0,
    decreases expected, 1nat,
{
    if o.allow_missing_if_nullable || o.ignore_field_order {
        lemma_agrees_by_name(fields, expected, o);
    } else {
        lemma_agrees_in_turn(fields, expected, o);
    }
    let is_unexpected = |n: Seq<char>| !has_name(expected, n);
    let gone = |n: Seq<char>| is_missing(n, fields, expected, o);
    lemma_names_where(fields, is_unexpected);
    lemma_names_where(expected, gone);
    lemma_found_differences(fields, expected, o, path);
    assert forall|i: int| 0 <= i < expected.len() implies {
        let e = #[trigger] expected[i];
        is_met(fields, e, o) <==> !gone(e.name) && (named(fields, e.name) is Some
            ==> field_differences(named(fields, e.name)->0, e, o, path).len() == 0)
    } by {
        let e = expected[i];
        lemma_met(fields, expected, i, o);
        if named(fields, e.name) is Some {
            field_explained(named(fields, e.name)->0, e, o, path);
        }
    }
    let all_expected = forall|i: int|
        0 <= i < fields.len() ==> has_name(expected, (#[trigger] fields[i]).name);
    assert(all_expected <==> unexpected_names(fields, expected).len() == 0) by {
        if all_expected {
            assert forall|i: int| 0 <= i < fields.len() implies !is_unexpected(
                (#[trigger] fields[i]).name,
            ) by {}
        } else {
            let i = choose|i: int|
                0 <= i < fields.len() && !has_name(expected, (#[trigger] fields[i]).name);
            assert(is_unexpected(fields[i].name));
        }
    }
    let all_met = forall|i: int|
        0 <= i < expected.len() ==> is_met(fields, #[trigger] expected[i], o);
    assert(all_met <==> missing_names(fields, expected, o).len() == 0 && found_differences(
        fields,
        expected,
        o,
        path,
    ).len() == 0) by {
        if !all_met {
            let i = choose|i: int|
                0 <= i < expected.len() && !is_met(fields, #[trigger] expected[i], o);
            assert(expected[i] == expected[i]);
        }
    }
}

proof fn lemma_positions_bounds(fields: Seq<FieldModel>, expected: Seq<FieldModel>)
    ensures
        forall|i: int|
            0 <= i < positions(fields, expected).len() ==> #[trigger] positions(
                fields,
                expected,
            )[i] >= 0,
    decreases expected.len(),
{
    if expected.len() > 0 {
        let rest = positions(fields, expected.drop_first());
        lemma_positions_bounds(fields, expected.drop_first());
        lemma_index_named(fields, expected[0].name);
        assert forall|i: int| 0 <= i < positions(fields, expected).len() implies #[trigger] positions(
            fields,
            expected,
        )[i] >= 0 by {
            if index_named(fields, expected[0].name) is Some {
                if i > 0 {
                    assert(positions(fields, expected)[i] == rest[i - 1]);
                }
            } else {
                assert(positions(fields, expected)[i] == rest[i]);
            }
        }
    }
}

proof fn lemma_same_named(a: Seq<FieldModel>, b: Seq<FieldModel>, name: Seq<char>)
    requires
        a.to_set() == b.to_set(),
        distinct(a),
        distinct(b),
    ensures
        index_named(a, name) is Some <==> index_named(b, name) is Some,
        index_named(a, name) is Some ==> a[index_named(a, name)->0] == b[index_named(b, name)->0],
{
    lemma_index_named(a, name);
    lemma_index_named(b, name);
    match index_named(a, name) {
        Some(p) => {
            assert(a.to_set().contains(a[p]));
            assert(b.contains(a[p]));
            let q = choose|q: int| 0 <= q < b.len() && b[q] == a[p];
            assert(b[q].name == name);
            let r = index_named(b, name)->0;
            assert(b[r].name == name);
            assert(q == r);
        },
        None => {
            match index_named(b, name) {
                Some(q) => {
                    assert(b.to_set().contains(b[q]));
                    assert(a.contains(b[q]));
                    let p = choose|p: int| 0 <= p < a.len() && a[p] == b[q];
                    assert(a[p].name == name);
                },
                None => {},
            }
        },
    }
}

proof fn lemma_unordered(
    fields: Seq<FieldModel>,
    others: Seq<FieldModel>,
    expected: Seq<FieldModel>,
    wanted: Seq<FieldModel>,
    o: SchemaCompareOptions,
)
    requires
        o.ignore_field_order,
        distinct(fields),
        distinct(others),
        fields.to_set() == others.to_set(),
        expected.to_set() == wanted.to_set(),
        fields_match(fields, expected, o),
    ensures
        fields_match(others, wanted, o),
{
    lemma_found_in(fields, expected, 0, o);
    lemma_found_in(others, wanted, 0, o);
    assert forall|i: int| 0 <= i < others.len() implies has_name(
        wanted,
        (#[trigger] others[i]).name,
    ) by {
        assert(others.to_set().contains(others[i]));
        assert(fields.contains(others[i]));
        let j = choose|j: int| 0 <= j < fields.len() && fields[j] == others[i];
        assert(has_name(expected, fields[j].name));
        let k = choose|k: int|
            0 <= k < expected.len() && (#[trigger] expected[k]).name == fields[j].name;
        assert(expected.to_set().contains(expected[k]));
        assert(wanted.contains(expected[k]));
        let m = choose|m: int| 0 <= m < wanted.len() && wanted[m] == expected[k];
        assert(wanted[m].name == others[i].name);
    }
    assert forall|i: int| 0 <= i < wanted.len() implies is_met(
        others,
        #[trigger] wanted[i],
        o,
    ) by {
        assert(wanted.to_set().contains(wanted[i]));
        assert(expected.contains(wanted[i]));
        let k = choose|k: int| 0 <= k < expected.len() && expected[k] == wanted[i];
        assert(is_met(fields, expected[k], o));
        lemma_same_named(fields, others, wanted[i].name);
    }
}

/// Where the order of fields is ignored, a comparison gives the same for the same fields,
/// of distinct names, in another order, and for the same expected fields in another order.
pub proof fn order_is_ignored(
    fields: Seq<FieldModel>,
    others: Seq<FieldModel>,
    expected: Seq<FieldModel>,
    wanted: Seq<FieldModel>,
    o: SchemaCompareOptions,
)
    requires
        o.ignore_field_order,
        distinct(fields),
        distinct(others),
        fields.to_set() == others.to_set(),
        expected.to_set() == wanted.to_set(),
    ensures
        fields_match(fields, expected, o) == fields_match(others, wanted, o),
{
    if fields_match(fields, expected, o) {
        lemma_unordered(fields, others, expected, wanted, o);
    }
    if fields_match(others, wanted, o) {
        lemma_unordered(others, fields, wanted, expected, o);
    }
}

} // verus!
