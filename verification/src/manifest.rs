//! Manifests: the versions of a table.

use vstd::prelude::*;
use crate::assoc::StringMap;
use crate::field::by_id;
use crate::field::lemma_children;
use crate::field::replace_by_id;
use crate::field::FieldModel;
use crate::format::Fragment;
use crate::format::FragmentModel;
use crate::items::copy_all;
use crate::items::copy_opt;
use crate::operation::FieldMetadata;
use crate::schema::Schema;
use crate::schema::SchemaModel;
use crate::seqs::lemma_skip_ends;
use crate::seqs::lemma_skip_step;
use crate::seqs::opt_view;
use crate::seqs::views;

verus! {

/// The feature flag of tables whose row ids stay when rows move.
pub const FLAG_MOVE_STABLE_ROW_IDS: u64 = 2;

/// A version of the file format.
#[derive(Debug, Clone, Copy, PartialEq, Eq, Structural)]
pub enum LanceFileVersion {
    Legacy,
    V2_0,
    /// The newest version that is stable.
    Stable,
    V2_1,
    /// The newest version.
    Next,
}

impl LanceFileVersion {
    /// The version itself, for the names that stand for one.
    pub open spec fn resolved(self) -> LanceFileVersion {
        match self {
            LanceFileVersion::Stable => LanceFileVersion::V2_0,
            LanceFileVersion::Next => LanceFileVersion::V2_1,
            _ => self,
        }
    }

    /// The text of the version.
    pub open spec fn spec_text(self) -> Seq<char> {
        match self {
            LanceFileVersion::Legacy => "0.1"@,
            LanceFileVersion::V2_0 => "2.0"@,
            LanceFileVersion::Stable => "stable"@,
            LanceFileVersion::V2_1 => "2.1"@,
            LanceFileVersion::Next => "next"@,
        }
    }

    /// The version itself, for the names that stand for one.
    pub fn resolve(&self) -> (r: LanceFileVersion)
        ensures
            r == self.resolved(),
    {
        match self {
            LanceFileVersion::Stable => LanceFileVersion::V2_0,
            LanceFileVersion::Next => LanceFileVersion::V2_1,
            _ => *self,
        }
    }

    /// The text of the version.
    pub fn text(&self) -> (r: &'static str)
        ensures
            r@ == self.spec_text(),
    {
        match self {
            LanceFileVersion::Legacy => "0.1",
            LanceFileVersion::V2_0 => "2.0",
            LanceFileVersion::Stable => "stable",
            LanceFileVersion::V2_1 => "2.1",
            LanceFileVersion::Next => "next",
        }
    }
}

/// The format of the data files of a table.
#[derive(Debug)]
pub struct DataStorageFormat {
    pub file_format: String,
    pub version: String,
}

/// A storage format as a mathematical value.
pub struct DataStorageFormatModel {
    pub file_format: Seq<char>,
    pub version: Seq<char>,
}

impl View for DataStorageFormat {
    type V = DataStorageFormatModel;

    open spec fn view(&self) -> DataStorageFormatModel {
        DataStorageFormatModel { file_format: self.file_format@, version: self.version@ }
    }
}

/// The storage format of a version of the file format.
pub open spec fn format_of(version: LanceFileVersion) -> DataStorageFormatModel {
    DataStorageFormatModel { file_format: "lance"@, version: version.resolved().spec_text() }
}

impl DataStorageFormat {
    /// The storage format of a version of the file format.
    pub fn new(version: LanceFileVersion) -> (r: Self)
        ensures
            r@ == format_of(version),
    {
        DataStorageFormat {
            file_format: "lance".to_owned(),
            version: version.resolve().text().to_owned(),
        }
    }
}

impl Default for DataStorageFormat {
    fn default() -> (r: Self)
        ensures
            r@ == format_of(LanceFileVersion::Stable),
    {
        DataStorageFormat::new(LanceFileVersion::Stable)
    }
}

impl Clone for DataStorageFormat {
    fn clone(&self) -> (r: Self)
        ensures
            r@ == self@,
    {
        DataStorageFormat {
            file_format: self.file_format.clone(),
            version: self.version.clone(),
        }
    }
}

/// How manifests are written.
#[derive(Debug, Clone, Copy, PartialEq, Eq)]
pub struct ManifestWriteConfig {
    /// Whether the feature flags are set from the content of the manifest.
    pub auto_set_feature_flags: bool,
    /// The time of the commit, in nanoseconds since the epoch.
    pub timestamp_nanos: u128,
    /// Whether row ids stay when rows move.
    pub use_move_stable_row_ids: bool,
    /// Whether data files are of the legacy version.
    pub use_legacy_format: Option<bool>,
    /// The version of the storage format that was asked for.
    pub storage_version: Option<LanceFileVersion>,
}

/// A version of a table.
#[derive(Debug)]
pub struct Manifest {
    pub schema: Schema,
    pub version: u64,
    pub fragments: Vec<Fragment>,
    /// When the version was committed, in nanoseconds since the epoch.
    pub timestamp_nanos: u128,
    pub tag: Option<String>,
    pub reader_feature_flags: u64,
    pub writer_feature_flags: u64,
    /// The greatest fragment id that was ever used, if it is known.
    pub max_fragment_id: Option<u32>,
    pub transaction_file: Option<String>,
    pub next_row_id: u64,
    pub data_storage_format: DataStorageFormat,
    pub config: StringMap,
    /// The version of the dataset of large binary values.
    pub blob_dataset_version: Option<u64>,
}

/// A manifest as a mathematical value.
pub struct ManifestModel {
    pub schema: SchemaModel,
    pub version: u64,
    pub fragments: Seq<FragmentModel>,
    pub timestamp_nanos: u128,
    pub tag: Option<Seq<char>>,
    pub reader_feature_flags: u64,
    pub writer_feature_flags: u64,
    pub max_fragment_id: Option<u32>,
    pub transaction_file: Option<Seq<char>>,
    pub next_row_id: u64,
    pub data_storage_format: DataStorageFormatModel,
    pub config: Map<Seq<char>, Seq<char>>,
    pub blob_dataset_version: Option<u64>,
}

impl View for Manifest {
    type V = ManifestModel;

    open spec fn view(&self) -> ManifestModel {
        ManifestModel {
            schema: self.schema@,
            version: self.version,
            fragments: views(self.fragments@),
            timestamp_nanos: self.timestamp_nanos,
            tag: opt_view(self.tag),
            reader_feature_flags: self.reader_feature_flags,
            writer_feature_flags: self.writer_feature_flags,
            max_fragment_id: self.max_fragment_id,
            transaction_file: opt_view(self.transaction_file),
            next_row_id: self.next_row_id,
            data_storage_format: self.data_storage_format@,
            config: self.config@,
            blob_dataset_version: self.blob_dataset_version,
        }
    }
}

/// The greatest id of fragments, if there are any.
pub open spec fn greatest_fragment(fragments: Seq<FragmentModel>) -> Option<u64>
    decreases fragments.len(),
{
    if fragments.len() == 0 {
        None
    } else {
        match greatest_fragment(fragments.drop_last()) {
            Some(id) if id > fragments.last().id => Some(id),
            _ => Some(fragments.last().id),
        }
    }
}

/// The greatest id is that of a fragment, and no fragment has a greater one.
pub proof fn lemma_greatest_fragment(fragments: Seq<FragmentModel>)
    ensures
        greatest_fragment(fragments) is None <==> fragments.len() == 0,
        fragments.len() > 0 ==> exists|i: int|
            0 <= i < fragments.len() && (#[trigger] fragments[i]).id == greatest_fragment(
                fragments,
            )->0,
        forall|i: int|
            0 <= i < fragments.len() ==> (#[trigger] fragments[i]).id <= greatest_fragment(
                fragments,
            )->0,
    decreases fragments.len(),
{
    if fragments.len() > 0 {
        let front = fragments.drop_last();
        lemma_greatest_fragment(front);
        assert(fragments[fragments.len() - 1] == fragments.last());
        if greatest_fragment(fragments) == greatest_fragment(front) {
            let k = choose|k: int|
                0 <= k < front.len() && (#[trigger] front[k]).id == greatest_fragment(front)->0;
            if front.len() > 0 {
                assert(fragments[k].id == greatest_fragment(fragments)->0);
            }
        }
        assert forall|i: int| 0 <= i < fragments.len() implies (#[trigger] fragments[i]).id
            <= greatest_fragment(fragments)->0 by {
            if i < front.len() {
                assert(front[i] == fragments[i]);
            }
        }
    }
}

/// The greatest id of fragments, if there are any.
pub fn max_fragment(fragments: &Vec<Fragment>) -> (r: Option<u64>)
    ensures
        r == greatest_fragment(views(fragments@)),
{
    let ghost all = views(fragments@);
    let mut max: Option<u64> = None;
    let mut i: usize = 0;
    assert(all.take(0) =~= Seq::<FragmentModel>::empty());
    while i < fragments.len()
        invariant
            i <= fragments@.len(),
            all == views(fragments@),
            max == greatest_fragment(all.take(i as int)),
        decreases fragments@.len() - i,
    {
        assert(all.take(i + 1).drop_last() =~= all.take(i as int));
        assert(all.take(i + 1).last() == fragments@[i as int]@);
        let id: u64 = fragments[i].id;
        max = match max {
            Some(m) if m > id => Some(m),
            _ => Some(id),
        };
        i += 1;
    }
    assert(all.take(all.len() as int) =~= all);
    max
}

impl ManifestModel {
    /// Whether row ids stay when rows move.
    pub open spec fn stable_row_ids(self) -> bool {
        self.reader_feature_flags & FLAG_MOVE_STABLE_ROW_IDS != 0
    }

    /// The greatest fragment id that was ever used: what was recorded, or else the
    /// greatest id of the fragments.
    pub open spec fn top_fragment_id(self) -> Option<u64> {
        match self.max_fragment_id {
            Some(id) => Some(id as u64),
            None => greatest_fragment(self.fragments),
        }
    }

    /// The manifest with a record of the greatest fragment id.
    pub open spec fn record_fragments(self) -> ManifestModel {
        match greatest_fragment(self.fragments) {
            None => self,
            Some(id) => match self.max_fragment_id {
                Some(max) if max >= id => self,
                _ => ManifestModel { max_fragment_id: Some(id as u32), ..self },
            },
        }
    }

    /// The manifest with configuration values.
    pub open spec fn set_config(self, values: Map<Seq<char>, Seq<char>>) -> ManifestModel {
        ManifestModel { config: self.config.union_prefer_right(values), ..self }
    }

    /// The manifest without configuration keys.
    pub open spec fn drop_config(self, keys: Seq<Seq<char>>) -> ManifestModel {
        ManifestModel { config: self.config.remove_keys(keys.to_set()), ..self }
    }
}

/// A new manifest, of the first version of a table.
pub open spec fn first_manifest(
    schema: SchemaModel,
    fragments: Seq<FragmentModel>,
    format: DataStorageFormatModel,
    blob_dataset_version: Option<u64>,
) -> ManifestModel {
    ManifestModel {
        schema,
        version: 1,
        fragments,
        timestamp_nanos: 0,
        tag: None,
        reader_feature_flags: 0,
        writer_feature_flags: 0,
        max_fragment_id: None,
        transaction_file: None,
        next_row_id: 0,
        data_storage_format: format,
        config: Map::empty(),
        blob_dataset_version,
    }
}

/// The manifest of the version after another.
pub open spec fn next_manifest(
    previous: ManifestModel,
    schema: SchemaModel,
    fragments: Seq<FragmentModel>,
    new_blob_version: Option<u64>,
) -> ManifestModel {
    ManifestModel {
        schema,
        version: (previous.version + 1) as u64,
        fragments,
        timestamp_nanos: 0,
        tag: None,
        reader_feature_flags: 0,
        writer_feature_flags: 0,
        max_fragment_id: previous.max_fragment_id,
        transaction_file: None,
        next_row_id: previous.next_row_id,
        data_storage_format: previous.data_storage_format,
        config: previous.config,
        blob_dataset_version: match new_blob_version {
            Some(v) => Some(v),
            None => previous.blob_dataset_version,
        },
    }
}

/// Fields with the metadata of the one with an id replaced, if there is one.
pub open spec fn with_field_metadata(
    fields: Seq<FieldModel>,
    id: i32,
    metadata: Map<Seq<char>, Seq<char>>,
) -> Seq<FieldModel> {
    match by_id(fields, id) {
        Some(f) => replace_by_id(fields, id, FieldModel { metadata, ..f }),
        None => fields,
    }
}

/// Fields with the metadata of several replaced, one after the other.
pub open spec fn with_fields_metadata(
    fields: Seq<FieldModel>,
    entries: Seq<(u32, Map<Seq<char>, Seq<char>>)>,
) -> Seq<FieldModel>
    decreases entries.len(),
{
    if entries.len() == 0 {
        fields
    } else {
        with_fields_metadata(
            with_field_metadata(fields, entries[0].0 as i32, entries[0].1),
            entries.drop_first(),
        )
    }
}

impl Manifest {
    /// The manifest of the first version of a table.
    pub fn new(
        schema: Schema,
        fragments: Vec<Fragment>,
        data_storage_format: DataStorageFormat,
        blob_dataset_version: Option<u64>,
    ) -> (r: Manifest)
        ensures
            r@ == first_manifest(
                schema@,
                views(fragments@),
                data_storage_format@,
                blob_dataset_version,
            ),
    {
        Manifest {
            schema,
            version: 1,
            fragments,
            timestamp_nanos: 0,
            tag: None,
            reader_feature_flags: 0,
            writer_feature_flags: 0,
            max_fragment_id: None,
            transaction_file: None,
            next_row_id: 0,
            data_storage_format,
            config: StringMap::new(),
            blob_dataset_version,
        }
    }

    /// The manifest of the version after another.
    pub fn new_from_previous(
        previous: &Manifest,
        schema: Schema,
        fragments: Vec<Fragment>,
        new_blob_version: Option<u64>,
    ) -> (r: Manifest)
        requires
            previous@.version < u64::MAX,
        ensures
            r@ == next_manifest(previous@, schema@, views(fragments@), new_blob_version),
    {
        Manifest {
            schema,
            version: previous.version + 1,
            fragments,
            timestamp_nanos: 0,
            tag: None,
            reader_feature_flags: 0,
            writer_feature_flags: 0,
            max_fragment_id: previous.max_fragment_id,
            transaction_file: None,
            next_row_id: previous.next_row_id,
            data_storage_format: previous.data_storage_format.clone(),
            config: previous.config.clone(),
            blob_dataset_version: match new_blob_version {
                Some(v) => Some(v),
                None => previous.blob_dataset_version,
            },
        }
    }

    /// Whether row ids stay when rows move.
    pub fn uses_move_stable_row_ids(&self) -> (r: bool)
        ensures
            r == self@.stable_row_ids(),
    {
        self.reader_feature_flags & FLAG_MOVE_STABLE_ROW_IDS != 0
    }

    /// The greatest fragment id that was ever used.
    pub fn max_fragment_id(&self) -> (r: Option<u64>)
        ensures
            r == self@.top_fragment_id(),
    {
        match self.max_fragment_id {
            Some(id) => Some(id as u64),
            None => max_fragment(&self.fragments),
        }
    }

    /// Records the greatest fragment id.
    pub fn update_max_fragment_id(&mut self)
        requires
            match greatest_fragment(old(self)@.fragments) {
                Some(id) => id <= u32::MAX,
                None => true,
            },
        ensures
            final(self)@ == old(self)@.record_fragments(),
    {
        match max_fragment(&self.fragments) {
            None => {},
            Some(id) => {
                let id: u32 = id as u32;
                match self.max_fragment_id {
                    Some(max) => {
                        if max < id {
                            self.max_fragment_id = Some(id);
                        }
                    },
                    None => {
                        self.max_fragment_id = Some(id);
                    },
                }
            },
        }
    }

    /// Sets configuration values.
    pub fn update_config(&mut self, values: &StringMap)
        ensures
            final(self)@ == old(self)@.set_config(values@),
    {
        self.config.extend(values);
    }

    /// Deletes configuration keys.
    pub fn delete_config_keys(&mut self, keys: &Vec<String>)
        ensures
            final(self)@ == old(self)@.drop_config(views(keys@)),
    {
        let ghost all = views(keys@);
        let ghost before = self@;
        let mut i: usize = 0;
        assert(self.config@ =~= before.config.remove_keys(all.take(0).to_set()));
        while i < keys.len()
            invariant
                i <= keys@.len(),
                all == views(keys@),
                self@ == (ManifestModel {
                    config: before.config.remove_keys(all.take(i as int).to_set()),
                    ..before
                }),
            decreases keys@.len() - i,
        {
            let ghost now = self.config@;
            self.config.remove(&keys[i]);
            proof {
                let a = all.take(i as int);
                let b = all.take(i + 1);
                assert(all[i as int] == keys@[i as int]@);
                assert forall|k: Seq<char>| b.to_set().contains(k) <==> a.to_set().contains(k) || k
                    == all[i as int] by {
                    if a.contains(k) {
                        let j = choose|j: int| 0 <= j < a.len() && a[j] == k;
                        assert(b[j] == k);
                    }
                    if k == all[i as int] {
                        assert(b[i as int] == k);
                    }
                    if b.contains(k) && k != all[i as int] {
                        let j = choose|j: int| 0 <= j < b.len() && b[j] == k;
                        assert(a[j] == k);
                    }
                }
                assert(self.config@ =~= before.config.remove_keys(b.to_set()));
            }
            i += 1;
        }
        assert(all.take(all.len() as int) =~= all);
    }

    /// Replaces the metadata of the schema.
    pub fn replace_schema_metadata(&mut self, metadata: &StringMap)
        ensures
            final(self)@ == (ManifestModel {
                schema: SchemaModel { metadata: metadata@, ..old(self)@.schema },
                ..old(self)@
            }),
    {
        self.schema.metadata = metadata.clone();
    }

    /// Replaces the metadata of the field with an id, if there is one.
    pub fn replace_field_metadata(&mut self, field_id: i32, metadata: &StringMap)
        ensures
            final(self)@ == (ManifestModel {
                schema: SchemaModel {
                    fields: with_field_metadata(old(self)@.schema.fields, field_id, metadata@),
                    ..old(self)@.schema
                },
                ..old(self)@
            }),
    {
        let new = metadata.clone();
        match self.schema.field_by_id_mut(field_id) {
            Some(field) => {
                let ghost before = *field;
                proof {
                    lemma_children(before);
                }
                field.metadata = new;
                proof {
                    lemma_children(*field);
                }
            },
            None => {},
        }
    }

    /// Replaces the metadata of several fields.
    pub fn replace_fields_metadata(&mut self, metadata: &FieldMetadata)
        ensures
            final(self)@ == (ManifestModel {
                schema: SchemaModel {
                    fields: with_fields_metadata(old(self)@.schema.fields, metadata.listing()),
                    ..old(self)@.schema
                },
                ..old(self)@
            }),
    {
        let entries = metadata.list();
        let ghost all = metadata.listing();
        let ghost before = self@;
        let mut i: usize = 0;
        proof {
            lemma_skip_ends(all);
        }
        while i < entries.len()
            invariant
                i <= entries@.len(),
                entries@.len() == all.len(),
                forall|j: int|
                    0 <= j < entries@.len() ==> {
                        let e = #[trigger] entries@[j];
                        e.0@ == all[j].0 && e.1@ == all[j].1
                    },
                self@ == (ManifestModel {
                    schema: SchemaModel { fields: self@.schema.fields, ..before.schema },
                    ..before
                }),
                with_fields_metadata(before.schema.fields, all) == with_fields_metadata(
                    self@.schema.fields,
                    all.skip(i as int),
                ),
            decreases entries@.len() - i,
        {
            proof {
                lemma_skip_step(all, i as int);
            }
            self.replace_field_metadata(entries[i].0 as i32, &entries[i].1);
            i += 1;
        }
        proof {
            lemma_skip_ends(all);
        }
    }

    /// Sets when the version was committed.
    pub fn set_timestamp(&mut self, nanos: u128)
        ensures
            final(self)@ == (ManifestModel { timestamp_nanos: nanos, ..old(self)@ }),
    {
        self.timestamp_nanos = nanos;
    }
}

impl Clone for Manifest {
    fn clone(&self) -> (r: Self)
        ensures
            r@ == self@,
    {
        Manifest {
            schema: self.schema.clone(),
            version: self.version,
            fragments: copy_all(&self.fragments),
            timestamp_nanos: self.timestamp_nanos,
            tag: copy_opt(&self.tag),
            reader_feature_flags: self.reader_feature_flags,
            writer_feature_flags: self.writer_feature_flags,
            max_fragment_id: self.max_fragment_id,
            transaction_file: copy_opt(&self.transaction_file),
            next_row_id: self.next_row_id,
            data_storage_format: self.data_storage_format.clone(),
            config: self.config.clone(),
            blob_dataset_version: self.blob_dataset_version,
        }
    }
}

} // verus!
