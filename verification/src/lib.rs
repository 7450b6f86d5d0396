//! Schemas and transactions of a columnar dataset.
//!
//! A dataset is described by a tree of fields (a [`schema::Schema`]) and by a
//! manifest that lists the fragments holding its rows. A
//! [`transaction::Transaction`] describes one change to the dataset; from it and
//! the current manifest the next manifest is built.

pub mod seqs;
pub mod text;
pub mod assoc;
pub mod items;
pub mod error;

pub mod arrow;
pub mod logical;
pub mod convert;

pub mod field;
pub mod tree;
pub mod field_ops;
pub mod schema;
pub mod schema_ops;
pub mod compare;
pub mod batch;
pub mod projection;
pub mod within;
pub mod schema_laws;
pub mod combining_laws;
pub mod field_laws;
pub mod projection_laws;
pub mod tree_laws;

pub mod bitmap;
pub mod ids;
pub mod format;
pub mod manifest;

pub mod operation;
pub mod transaction;
pub mod fragments;
pub mod indices;
pub mod planning;
pub mod commit;
pub mod validation;
pub mod message;
pub mod message_laws;
pub mod limits;
pub mod commit_laws;
pub mod index_laws;
pub mod plan_laws;
pub mod rewrite_laws;
pub mod manifest_laws;
