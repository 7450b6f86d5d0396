//! Putting manifests together from plans, and finishing them for a commit.

use vstd::prelude::*;
use crate::error::outcome;
use crate::error::Error;
use crate::error::ErrorModel;
use crate::format::Fragment;
use crate::format::FragmentModel;
use crate::items::copy_opt;
use crate::manifest::first_manifest;
use crate::manifest::format_of;
use crate::manifest::greatest_fragment;
use crate::manifest::next_manifest;
use crate::manifest::with_fields_metadata;
use crate::manifest::DataStorageFormat;
use crate::manifest::DataStorageFormatModel;
use crate::manifest::LanceFileVersion;
use crate::manifest::Manifest;
use crate::manifest::ManifestModel;
use crate::manifest::ManifestWriteConfig;
use crate::operation::Operation;
use crate::planning::next_version;
use crate::schema::Schema;
use crate::schema::SchemaModel;
use crate::seqs::opt_view;
use crate::seqs::views;
use crate::text::concat;
use crate::text::concat4;
use crate::transaction::Transaction;
use crate::transaction::TransactionModel;

verus! {

/// The version of the file format that was asked for.
pub open spec fn requested_version(config: ManifestWriteConfig) -> Option<LanceFileVersion> {
    match (config.storage_version, config.use_legacy_format) {
        (Some(v), _) => Some(v),
        (None, Some(true)) => Some(LanceFileVersion::Legacy),
        (None, Some(false)) => Some(LanceFileVersion::V2_0),
        (None, None) => None,
    }
}

/// The storage format of data files: of the version that they have, which has to be the
/// one that was asked for; where there are no files, of the version that was asked for,
/// or of the default one.
pub open spec fn format_from_files(
    inferred: Result<Option<LanceFileVersion>, ErrorModel>,
    requested: Option<LanceFileVersion>,
) -> Result<DataStorageFormatModel, ErrorModel> {
    match inferred {
        Err(e) => Err(e),
        Ok(Some(found)) => match requested {
            Some(wanted) if wanted != found => Err(
                ErrorModel::InvalidInput {
                    source: "User requested data storage version ("@ + wanted.spec_text()
                        + ") does not match version in data files ("@ + found.spec_text() + ")"@,
                },
            ),
            _ => Ok(format_of(found)),
        },
        Ok(None) => match requested {
            Some(wanted) => Ok(format_of(wanted)),
            None => Ok(format_of(LanceFileVersion::Stable)),
        },
    }
}

/// The result of looking at data files, as a mathematical value.
pub open spec fn inference(r: Result<Option<LanceFileVersion>, Error>) -> Result<
    Option<LanceFileVersion>,
    ErrorModel,
> {
    match r {
        Ok(v) => Ok(v),
        Err(e) => Err(e@),
    }
}

/// The manifest of a schema and fragments, without what is set at the commit.
pub open spec fn assembled(
    t: TransactionModel,
    schema: SchemaModel,
    fragments: Seq<FragmentModel>,
    current: Option<ManifestModel>,
    config: ManifestWriteConfig,
    inferred: Result<Option<LanceFileVersion>, ErrorModel>,
    new_blob_version: Option<u64>,
) -> Result<ManifestModel, ErrorModel> {
    let requested = requested_version(config);
    match current {
        Some(previous) => {
            let m = next_manifest(previous, schema, fragments, new_blob_version);
            Ok(
                ManifestModel {
                    data_storage_format: if requested is Some && t.operation is Overwrite {
                        format_of(requested->0)
                    } else {
                        m.data_storage_format
                    },
                    tag: t.tag,
                    ..m
                },
            )
        },
        None => match format_from_files(inferred, requested) {
            Err(e) => Err(e),
            Ok(format) => Ok(
                ManifestModel {
                    tag: t.tag,
                    ..first_manifest(schema, fragments, format, new_blob_version)
                },
            ),
        },
    }
}

impl Transaction {
    /// The storage format of data files whose version, if there are any, was found out.
    pub fn data_storage_format_from_files(
        inferred: Result<Option<LanceFileVersion>, Error>,
        user_requested: Option<LanceFileVersion>,
    ) -> (r: Result<DataStorageFormat, Error>)
        ensures
            outcome(r) == format_from_files(inference(inferred), user_requested),
    {
        match inferred {
            Err(e) => Err(e),
            Ok(Some(file_version)) => {
                match user_requested {
                    Some(wanted) => {
                        if wanted != file_version {
                            return Err(
                                Error::InvalidInput {
                                    source: concat(
                                        concat4(
                                            "User requested data storage version (",
                                            wanted.text(),
                                            ") does not match version in data files (",
                                            file_version.text(),
                                        ).as_str(),
                                        ")",
                                    ),
                                },
                            );
                        }
                    },
                    None => {},
                }
                Ok(DataStorageFormat::new(file_version))
            },
            Ok(None) => match user_requested {
                Some(wanted) => Ok(DataStorageFormat::new(wanted)),
                None => Ok(DataStorageFormat::default()),
            },
        }
    }

    /// Puts the manifest of a schema and fragments together.
    ///
    /// `inferred` is the version of the data files of the fragments, if they have any. It
    /// counts only for the first version of a table.
    pub fn assemble_manifest(
        &self,
        schema: Schema,
        fragments: Vec<Fragment>,
        current_manifest: Option<&Manifest>,
        config: &ManifestWriteConfig,
        inferred: Result<Option<LanceFileVersion>, Error>,
        new_blob_version: Option<u64>,
    ) -> (r: Result<Manifest, Error>)
        requires
            next_version(opt_view(current_manifest)) <= u64::MAX,
        ensures
            outcome(r) == assembled(
                self@,
                schema@,
                views(fragments@),
                opt_view(current_manifest),
                *config,
                inference(inferred),
                new_blob_version,
            ),
    {
        let requested = match (config.storage_version, config.use_legacy_format) {
            (Some(v), _) => Some(v),
            (None, Some(true)) => Some(LanceFileVersion::Legacy),
            (None, Some(false)) => Some(LanceFileVersion::V2_0),
            (None, None) => None,
        };
        let overwrites = matches!(self.operation, Operation::Overwrite { .. });
        match current_manifest {
            Some(current) => {
                let mut manifest = Manifest::new_from_previous(
                    current,
                    schema,
                    fragments,
                    new_blob_version,
                );
                match requested {
                    Some(wanted) => {
                        if overwrites {
                            manifest.data_storage_format = DataStorageFormat::new(wanted);
                        }
                    },
                    None => {},
                }
                manifest.tag = copy_opt(&self.tag);
                Ok(manifest)
            },
            None => match Transaction::data_storage_format_from_files(inferred, requested) {
                Err(e) => Err(e),
                Ok(format) => {
                    let mut manifest = Manifest::new(schema, fragments, format, new_blob_version);
                    manifest.tag = copy_opt(&self.tag);
                    Ok(manifest)
                },
            },
        }
    }
}

// Finishing.

/// The manifest with the configuration changes of an operation. Keys are deleted before
/// values are set, so a key that is both deleted and set has its new value.
pub open spec fn configured(m: ManifestModel, op: Operation) -> ManifestModel {
    match op {
        Operation::Overwrite { config_upsert_values: Some(values), .. } => m.set_config(values@),
        Operation::UpdateConfig { upsert_values, delete_keys, schema_metadata, field_metadata } => {
            let m = match delete_keys {
                Some(keys) => m.drop_config(views(keys@)),
                None => m,
            };
            let m = match upsert_values {
                Some(values) => m.set_config(values@),
                None => m,
            };
            let m = match schema_metadata {
                Some(metadata) => ManifestModel {
                    schema: SchemaModel { metadata: metadata@, ..m.schema },
                    ..m
                },
                None => m,
            };
            match field_metadata {
                Some(metadata) => ManifestModel {
                    schema: SchemaModel {
                        fields: with_fields_metadata(m.schema.fields, metadata.listing()),
                        ..m.schema
                    },
                    ..m
                },
                None => m,
            }
        },
        _ => m,
    }
}

/// The manifest with the fragment ids that an operation reserves.
pub open spec fn reserved(m: ManifestModel, op: Operation) -> ManifestModel {
    match op {
        Operation::ReserveFragments { num_fragments } => ManifestModel {
            max_fragment_id: Some(
                (match m.max_fragment_id {
                    Some(id) => id as int,
                    None => 0,
                } + num_fragments) as u32,
            ),
            ..m
        },
        _ => m,
    }
}

/// The manifest as it is committed.
pub open spec fn finished(
    m: ManifestModel,
    op: Operation,
    flags: Option<(u64, u64)>,
    timestamp_nanos: u128,
    transaction_file: Seq<char>,
    next_row_id: Option<u64>,
) -> ManifestModel {
    let flagged = match flags {
        Some((reader, writer)) => ManifestModel {
            reader_feature_flags: reader,
            writer_feature_flags: writer,
            ..m
        },
        None => m,
    };
    let stamped = ManifestModel { timestamp_nanos, ..flagged };
    let done = reserved(configured(stamped.record_fragments(), op), op);
    ManifestModel {
        transaction_file: Some(transaction_file),
        next_row_id: match next_row_id {
            Some(next) => next,
            None => done.next_row_id,
        },
        ..done
    }
}

/// Whether the fragment ids of a manifest, and those that an operation reserves, can be
/// recorded.
pub open spec fn ids_can_be_recorded(m: ManifestModel, op: Operation) -> bool {
    &&& match greatest_fragment(m.fragments) {
        Some(id) => id <= u32::MAX,
        None => true,
    }
    &&& match op {
        Operation::ReserveFragments { num_fragments } => match m.record_fragments().max_fragment_id {
            Some(id) => id + num_fragments <= u32::MAX,
            None => true,
        },
        _ => true,
    }
}

impl Transaction {
    /// Finishes a manifest: sets its feature flags, if they were worked out, and the time
    /// of the commit, and makes the changes to the configuration.
    pub fn finish_manifest(
        &self,
        manifest: Manifest,
        flags: Option<(u64, u64)>,
        config: &ManifestWriteConfig,
        transaction_file_path: &str,
        next_row_id: Option<u64>,
    ) -> (r: Manifest)
        requires
            ids_can_be_recorded(manifest@, self.operation),
        ensures
            r@ == finished(
                manifest@,
                self.operation,
                flags,
                config.timestamp_nanos,
                transaction_file_path@,
                next_row_id,
            ),
    {
        let mut manifest = manifest;
        match flags {
            Some((reader, writer)) => {
                manifest.reader_feature_flags = reader;
                manifest.writer_feature_flags = writer;
            },
            None => {},
        }
        manifest.set_timestamp(config.timestamp_nanos);
        manifest.update_max_fragment_id();
        match &self.operation {
            Operation::Overwrite { config_upsert_values: Some(values), .. } => {
                manifest.update_config(values);
            },
            Operation::UpdateConfig {
                upsert_values,
                delete_keys,
                schema_metadata,
                field_metadata,
            } => {
                match delete_keys {
                    Some(keys) => {
                        manifest.delete_config_keys(keys);
                    },
                    None => {},
                }
                match upsert_values {
                    Some(values) => {
                        manifest.update_config(values);
                    },
                    None => {},
                }
                match schema_metadata {
                    Some(metadata) => {
                        manifest.replace_schema_metadata(metadata);
                    },
                    None => {},
                }
                match field_metadata {
                    Some(metadata) => {
                        manifest.replace_fields_metadata(metadata);
                    },
                    None => {},
                }
            },
            _ => {},
        }
        match &self.operation {
            Operation::ReserveFragments { num_fragments } => {
                let used: u32 = match manifest.max_fragment_id {
                    Some(id) => id,
                    None => 0,
                };
                manifest.max_fragment_id = Some(used + *num_fragments);
            },
            _ => {},
        }
        manifest.transaction_file = Some(transaction_file_path.to_owned());
        match next_row_id {
            Some(next) => {
                manifest.next_row_id = next;
            },
            None => {},
        }
        manifest
    }

    /// An old manifest as it is committed again: with the time of the commit and the
    /// file of the transaction.
    pub fn restored_manifest(
        manifest: Manifest,
        config: &ManifestWriteConfig,
        tx_path: &str,
    ) -> (r: Manifest)
        ensures
            r@ == (ManifestModel {
                timestamp_nanos: config.timestamp_nanos,
                transaction_file: Some(tx_path@),
                ..manifest@
            }),
    {
        let mut manifest = manifest;
        manifest.set_timestamp(config.timestamp_nanos);
        manifest.transaction_file = Some(tx_path.to_owned());
        manifest
    }
}

} // verus!
