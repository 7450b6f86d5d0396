# lance_dataset

Schemas and transactions of a columnar dataset, verified with Verus.

A dataset has a schema, a tree of fields with stable ids, and a manifest, which lists the
fragments that hold its rows. A transaction describes one change. The library works out
what the next manifest is, and says in contracts what every such step does.

## Layout

- `src/` is the verified library.
  - Basics: `seqs`, `text`, `assoc` (maps), `items`, `error`.
  - Types of columns: `arrow`, `logical`, `convert`.
  - Schemas: `field`, `tree`, `field_ops`, `schema`, `schema_ops`, `compare`, `batch`,
    `projection`, `within`; their laws are in `schema_laws`.
  - The table format: `bitmap`, `ids`, `format`, `manifest`.
  - Transactions: `operation`, `transaction`, `fragments`, `indices`, `planning`, `commit`,
    `validation`, `message`, `limits`; their laws are in `commit_laws`.
- `tests/` runs the library on examples.
- `app/` joins it to the Arrow crates, the object store and the rest of the table format.

## What is trusted

The bitmaps of `roaring` (in `bitmap`), the ids of `uuid` (in `ids`) and the `Debug` text
of a string (in `text`) are called through functions whose contracts are believed, not
proved. Everything else in `src/` is proved.

## Building a manifest

1. `Transaction::plan_manifest` works out schema, fragments and indices.
2. The caller updates the index of write-ahead logs, if the plan asks for it, and finds out
   the version of the data files.
3. `Transaction::assemble_manifest` puts the manifest together.
4. The caller works out the feature flags.
5. `Transaction::finish_manifest` completes the manifest.

`Transaction::can_plan_manifest` and `Transaction::can_finish_manifest` tell whether the
steps can be taken, and `validation::validate_operation` whether the operation is valid for
the current manifest.
