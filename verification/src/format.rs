//! The parts of a table: fragments, data files, indices and write-ahead logs.

use vstd::prelude::*;
use crate::assoc::Item;
use crate::bitmap::copy_opt_bitmap;
use crate::bitmap::opt_ids;
use crate::bitmap::same_opt_bitmap;
use crate::ids::Uuid;
use crate::items::copy_all;
use crate::items::copy_opt;
use crate::items::copy_opt_all;
use crate::items::opt_views;
use crate::items::same_all;
use crate::items::same_opt;
use crate::items::same_opt_all;
use crate::seqs::opt_view;
use crate::seqs::views;

verus! {

/// A file with the data of some columns of a fragment.
#[derive(Debug)]
pub struct DataFile {
    /// Where the file is, relative to the data of the dataset.
    pub path: String,
    /// The ids of the fields in the file.
    pub fields: Vec<i32>,
    /// For each field, the position of its column in the file.
    pub column_indices: Vec<i32>,
    pub file_major_version: u32,
    pub file_minor_version: u32,
    /// The size of the file, if it is known.
    pub file_size_bytes: Option<u64>,
}

/// A data file as a mathematical value.
pub struct DataFileModel {
    pub path: Seq<char>,
    pub fields: Seq<i32>,
    pub column_indices: Seq<i32>,
    pub file_major_version: u32,
    pub file_minor_version: u32,
    pub file_size_bytes: Option<u64>,
}

impl View for DataFile {
    type V = DataFileModel;

    open spec fn view(&self) -> DataFileModel {
        DataFileModel {
            path: self.path@,
            fields: views(self.fields@),
            column_indices: views(self.column_indices@),
            file_major_version: self.file_major_version,
            file_minor_version: self.file_minor_version,
            file_size_bytes: self.file_size_bytes,
        }
    }
}

impl Item for DataFile {
    fn copied(&self) -> (r: Self) {
        DataFile {
            path: self.path.clone(),
            fields: copy_all(&self.fields),
            column_indices: copy_all(&self.column_indices),
            file_major_version: self.file_major_version,
            file_minor_version: self.file_minor_version,
            file_size_bytes: self.file_size_bytes,
        }
    }

    fn same(&self, other: &Self) -> (r: bool) {
        self.path == other.path && same_all(&self.fields, &other.fields) && same_all(
            &self.column_indices,
            &other.column_indices,
        ) && self.file_major_version == other.file_major_version && self.file_minor_version
            == other.file_minor_version && same_size(self.file_size_bytes, other.file_size_bytes)
    }
}

fn same_size(a: Option<u64>, b: Option<u64>) -> (r: bool)
    ensures
        r == (a == b),
{
    match (a, b) {
        (Some(x), Some(y)) => x == y,
        (None, None) => true,
        _ => false,
    }
}

fn same_rows(a: Option<usize>, b: Option<usize>) -> (r: bool)
    ensures
        r == (a == b),
{
    match (a, b) {
        (Some(x), Some(y)) => x == y,
        (None, None) => true,
        _ => false,
    }
}

/// How the deleted rows of a fragment are written down.
#[derive(Debug, Clone, Copy, PartialEq, Eq, Structural)]
pub enum DeletionFileType {
    Array,
    Bitmap,
}

/// A file with the deleted rows of a fragment.
#[derive(Debug, Clone, Copy, PartialEq, Eq, Structural)]
pub struct DeletionFile {
    pub read_version: u64,
    pub id: u64,
    pub file_type: DeletionFileType,
    pub num_deleted_rows: Option<usize>,
}

/// Where the row ids of a fragment are.
#[derive(Debug)]
pub enum RowIdMeta {
    /// In these bytes.
    Inline(Vec<u8>),
    /// In a part of a file.
    External { path: String, offset: u64, size: u64 },
    /// The ids from `start` up to `end`, without `end`.
    Range { start: u64, end: u64 },
}

/// Row ids as a mathematical value.
pub enum RowIdMetaModel {
    Inline(Seq<u8>),
    External { path: Seq<char>, offset: u64, size: u64 },
    Range { start: u64, end: u64 },
}

impl View for RowIdMeta {
    type V = RowIdMetaModel;

    open spec fn view(&self) -> RowIdMetaModel {
        match self {
            RowIdMeta::Inline(bytes) => RowIdMetaModel::Inline(views(bytes@)),
            RowIdMeta::External { path, offset, size } => RowIdMetaModel::External {
                path: path@,
                offset: *offset,
                size: *size,
            },
            RowIdMeta::Range { start, end } => RowIdMetaModel::Range { start: *start, end: *end },
        }
    }
}

impl Item for RowIdMeta {
    fn copied(&self) -> (r: Self) {
        match self {
            RowIdMeta::Inline(bytes) => RowIdMeta::Inline(copy_all(bytes)),
            RowIdMeta::External { path, offset, size } => RowIdMeta::External {
                path: path.clone(),
                offset: *offset,
                size: *size,
            },
            RowIdMeta::Range { start, end } => RowIdMeta::Range { start: *start, end: *end },
        }
    }

    fn same(&self, other: &Self) -> (r: bool) {
        match (self, other) {
            (RowIdMeta::Inline(a), RowIdMeta::Inline(b)) => same_all(a, b),
            (
                RowIdMeta::External { path, offset, size },
                RowIdMeta::External { path: path2, offset: offset2, size: size2 },
            ) => *path == *path2 && *offset == *offset2 && *size == *size2,
            (
                RowIdMeta::Range { start, end },
                RowIdMeta::Range { start: start2, end: end2 },
            ) => *start == *start2 && *end == *end2,
            _ => false,
        }
    }
}

/// A part of the rows of a dataset.
#[derive(Debug)]
pub struct Fragment {
    /// The id of the fragment, or 0 where none is assigned.
    pub id: u64,
    pub files: Vec<DataFile>,
    pub deletion_file: Option<DeletionFile>,
    pub row_id_meta: Option<RowIdMeta>,
    /// How many rows were written, deleted ones included.
    pub physical_rows: Option<usize>,
}

/// A fragment as a mathematical value.
pub struct FragmentModel {
    pub id: u64,
    pub files: Seq<DataFileModel>,
    pub deletion_file: Option<DeletionFile>,
    pub row_id_meta: Option<RowIdMetaModel>,
    pub physical_rows: Option<usize>,
}

impl View for Fragment {
    type V = FragmentModel;

    open spec fn view(&self) -> FragmentModel {
        FragmentModel {
            id: self.id,
            files: views(self.files@),
            deletion_file: self.deletion_file,
            row_id_meta: opt_view(self.row_id_meta),
            physical_rows: self.physical_rows,
        }
    }
}

fn same_deletion(a: Option<DeletionFile>, b: Option<DeletionFile>) -> (r: bool)
    ensures
        r == (a == b),
{
    match (a, b) {
        (Some(x), Some(y)) => x.read_version == y.read_version && x.id == y.id && x.file_type
            == y.file_type && same_rows(x.num_deleted_rows, y.num_deleted_rows),
        (None, None) => true,
        _ => false,
    }
}

impl Item for Fragment {
    fn copied(&self) -> (r: Self) {
        Fragment {
            id: self.id,
            files: copy_all(&self.files),
            deletion_file: self.deletion_file,
            row_id_meta: copy_opt(&self.row_id_meta),
            physical_rows: self.physical_rows,
        }
    }

    fn same(&self, other: &Self) -> (r: bool) {
        self.id == other.id && same_all(&self.files, &other.files) && same_deletion(
            self.deletion_file,
            other.deletion_file,
        ) && same_opt(&self.row_id_meta, &other.row_id_meta) && same_rows(
            self.physical_rows,
            other.physical_rows,
        )
    }
}

impl Fragment {
    /// A fragment without files.
    pub fn new(id: u64) -> (r: Self)
        ensures
            r@ == (FragmentModel {
                id,
                files: Seq::empty(),
                deletion_file: None,
                row_id_meta: None,
                physical_rows: None,
            }),
    {
        let r = Fragment {
            id,
            files: Vec::new(),
            deletion_file: None,
            row_id_meta: None,
            physical_rows: None,
        };
        assert(views(r.files@) =~= Seq::<DataFileModel>::empty());
        r
    }
}

/// An index over columns of a dataset.
#[derive(Debug)]
pub struct Index {
    pub uuid: Uuid,
    pub name: String,
    /// The ids of the fields that are indexed.
    pub fields: Vec<i32>,
    /// The version of the dataset that the index was made for.
    pub dataset_version: u64,
    /// The ids of the fragments that the index covers, if they are known.
    pub fragment_bitmap: Option<roaring::RoaringBitmap>,
    /// Whether the index is kept by the system itself rather than made by a user.
    pub system: bool,
    /// What else is known of the index, as bytes.
    pub details: Option<Vec<u8>>,
}

/// An index as a mathematical value.
pub struct IndexModel {
    pub uuid: Uuid,
    pub name: Seq<char>,
    pub fields: Seq<i32>,
    pub dataset_version: u64,
    pub fragment_bitmap: Option<Set<u32>>,
    pub system: bool,
    pub details: Option<Seq<u8>>,
}

impl View for Index {
    type V = IndexModel;

    open spec fn view(&self) -> IndexModel {
        IndexModel {
            uuid: self.uuid,
            name: self.name@,
            fields: views(self.fields@),
            dataset_version: self.dataset_version,
            fragment_bitmap: opt_ids(self.fragment_bitmap),
            system: self.system,
            details: opt_views(self.details),
        }
    }
}

impl Item for Index {
    fn copied(&self) -> (r: Self) {
        Index {
            uuid: self.uuid,
            name: self.name.clone(),
            fields: copy_all(&self.fields),
            dataset_version: self.dataset_version,
            fragment_bitmap: copy_opt_bitmap(&self.fragment_bitmap),
            system: self.system,
            details: copy_opt_all(&self.details),
        }
    }

    fn same(&self, other: &Self) -> (r: bool) {
        self.uuid == other.uuid && self.name == other.name && same_all(&self.fields, &other.fields)
            && self.dataset_version == other.dataset_version && same_opt_bitmap(
            &self.fragment_bitmap,
            &other.fragment_bitmap,
        ) && self.system == other.system && same_opt_all(&self.details, &other.details)
    }
}

/// The state of a write-ahead log.
#[derive(Debug, Clone, Copy, PartialEq, Eq, Structural)]
pub enum MemWalState {
    Open,
    Sealed,
    Flushed,
    Merged,
}

/// A write-ahead log of rows that are still in memory.
#[derive(Debug)]
pub struct MemWal {
    pub region: String,
    pub generation: u64,
    pub mem_table_location: String,
    pub wal_location: String,
    pub wal_entries: Vec<u8>,
    pub state: MemWalState,
    pub owner_id: String,
    pub last_updated_dataset_version: u64,
}

/// A write-ahead log as a mathematical value.
pub struct MemWalModel {
    pub region: Seq<char>,
    pub generation: u64,
    pub mem_table_location: Seq<char>,
    pub wal_location: Seq<char>,
    pub wal_entries: Seq<u8>,
    pub state: MemWalState,
    pub owner_id: Seq<char>,
    pub last_updated_dataset_version: u64,
}

impl View for MemWal {
    type V = MemWalModel;

    open spec fn view(&self) -> MemWalModel {
        MemWalModel {
            region: self.region@,
            generation: self.generation,
            mem_table_location: self.mem_table_location@,
            wal_location: self.wal_location@,
            wal_entries: views(self.wal_entries@),
            state: self.state,
            owner_id: self.owner_id@,
            last_updated_dataset_version: self.last_updated_dataset_version,
        }
    }
}

impl Item for MemWal {
    fn copied(&self) -> (r: Self) {
        MemWal {
            region: self.region.clone(),
            generation: self.generation,
            mem_table_location: self.mem_table_location.clone(),
            wal_location: self.wal_location.clone(),
            wal_entries: copy_all(&self.wal_entries),
            state: self.state,
            owner_id: self.owner_id.clone(),
            last_updated_dataset_version: self.last_updated_dataset_version,
        }
    }

    fn same(&self, other: &Self) -> (r: bool) {
        self.region == other.region && self.generation == other.generation
            && self.mem_table_location == other.mem_table_location && self.wal_location
            == other.wal_location && same_all(&self.wal_entries, &other.wal_entries) && self.state
            == other.state && self.owner_id == other.owner_id && self.last_updated_dataset_version
            == other.last_updated_dataset_version
    }
}

impl Clone for DataFile {
    fn clone(&self) -> (r: Self)
        ensures
            r@ == self@,
    {
        self.copied()
    }
}

impl PartialEq for DataFile {
    fn eq(&self, other: &Self) -> (r: bool) {
        self.same(other)
    }
}

impl vstd::std_specs::cmp::PartialEqSpecImpl for DataFile {
    open spec fn obeys_eq_spec() -> bool {
        true
    }

    open spec fn eq_spec(&self, other: &Self) -> bool {
        self@ == other@
    }
}

impl Clone for Fragment {
    fn clone(&self) -> (r: Self)
        ensures
            r@ == self@,
    {
        self.copied()
    }
}

impl PartialEq for Fragment {
    fn eq(&self, other: &Self) -> (r: bool) {
        self.same(other)
    }
}

impl vstd::std_specs::cmp::PartialEqSpecImpl for Fragment {
    open spec fn obeys_eq_spec() -> bool {
        true
    }

    open spec fn eq_spec(&self, other: &Self) -> bool {
        self@ == other@
    }
}

impl Clone for Index {
    fn clone(&self) -> (r: Self)
        ensures
            r@ == self@,
    {
        self.copied()
    }
}

impl PartialEq for Index {
    fn eq(&self, other: &Self) -> (r: bool) {
        self.same(other)
    }
}

impl vstd::std_specs::cmp::PartialEqSpecImpl for Index {
    open spec fn obeys_eq_spec() -> bool {
        true
    }

    open spec fn eq_spec(&self, other: &Self) -> bool {
        self@ == other@
    }
}

impl Clone for MemWal {
    fn clone(&self) -> (r: Self)
        ensures
            r@ == self@,
    {
        self.copied()
    }
}

impl PartialEq for MemWal {
    fn eq(&self, other: &Self) -> (r: bool) {
        self.same(other)
    }
}

impl vstd::std_specs::cmp::PartialEqSpecImpl for MemWal {
    open spec fn obeys_eq_spec() -> bool {
        true
    }

    open spec fn eq_spec(&self, other: &Self) -> bool {
        self@ == other@
    }
}

} // verus!
