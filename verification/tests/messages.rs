//! Storing transactions as messages.

use lance_dataset::assoc::StringMap;
use lance_dataset::error::Error;
use lance_dataset::format::DataFile;
use lance_dataset::format::Fragment;
use lance_dataset::ids::Uuid;
use lance_dataset::message::DataReplacementMessage;
use lance_dataset::message::OperationMessage;
use lance_dataset::message::RewriteGroupMessage;
use lance_dataset::message::RewrittenIndexMessage;
use lance_dataset::message::TransactionMessage;
use lance_dataset::operation::DataReplacementGroup;
use lance_dataset::operation::Operation;
use lance_dataset::operation::RewriteGroup;
use lance_dataset::operation::RewrittenIndex;
use lance_dataset::schema::Schema;
use lance_dataset::transaction::Transaction;

fn transaction(operation: Operation, tag: Option<&str>) -> Transaction {
    Transaction::with_uuid(
        3,
        operation,
        None,
        tag.map(|t| t.to_owned()),
        Uuid { bits: 77 },
    )
}

fn message(operation: Option<OperationMessage>) -> TransactionMessage {
    TransactionMessage {
        read_version: 3,
        uuid: "id".to_owned(),
        operation,
        blob_operation: None,
        tag: String::new(),
    }
}

fn broken() -> Error {
    Error::Internal { message: "broken".to_owned() }
}

fn file() -> DataFile {
    DataFile {
        path: "p".to_owned(),
        fields: vec![1],
        column_indices: vec![0],
        file_major_version: 2,
        file_minor_version: 0,
        file_size_bytes: Some(10),
    }
}

fn values(key: &str) -> StringMap {
    let mut map = StringMap::new();
    map.insert(key.to_owned(), "v".to_owned());
    map
}

#[test]
fn stored_transactions_come_back() {
    let operations = vec![
        Operation::Append { fragments: vec![Fragment::new(1), Fragment::new(2)] },
        Operation::Delete {
            updated_fragments: vec![Fragment::new(1)],
            deleted_fragment_ids: vec![4],
            predicate: "a = 1".to_owned(),
        },
        Operation::Rewrite {
            groups: vec![RewriteGroup {
                old_fragments: vec![Fragment::new(1)],
                new_fragments: vec![Fragment::new(2)],
            }],
            rewritten_indices: vec![RewrittenIndex {
                old_id: Uuid { bits: 1 },
                new_id: Uuid { bits: 2 },
            }],
            frag_reuse_index: None,
        },
        Operation::DataReplacement { replacements: vec![DataReplacementGroup(1, file())] },
        Operation::Restore { version: 2 },
        Operation::ReserveFragments { num_fragments: 5 },
        Operation::UpdateConfig {
            upsert_values: Some(values("k")),
            delete_keys: Some(vec!["d".to_owned()]),
            schema_metadata: None,
            field_metadata: None,
        },
    ];
    for operation in operations {
        let t = transaction(operation, Some("tag"));
        let back = Transaction::try_from(&TransactionMessage::from(&t)).unwrap();
        assert_eq!(back, t);
    }
    let t = transaction(Operation::Restore { version: 2 }, None)
        .with_blobs_op(Some(Operation::Append { fragments: vec![Fragment::new(9)] }));
    let written = TransactionMessage::from(&t);
    assert_eq!(written.tag, "");
    assert_eq!(Transaction::try_from(&written).unwrap(), t);
}

#[test]
fn configuration_of_an_overwrite_comes_back() {
    let overwrite = |config_upsert_values: Option<StringMap>| Operation::Overwrite {
        fragments: vec![Fragment::new(3)],
        schema: Schema { fields: vec![], metadata: values("m") },
        config_upsert_values,
    };
    let read = |config_upsert_values: Option<StringMap>| {
        let t = transaction(overwrite(config_upsert_values), None);
        match Transaction::try_from(&TransactionMessage::from(&t)).unwrap().operation {
            Operation::Overwrite { schema, config_upsert_values, .. } => {
                assert!(schema.metadata.is_empty());
                config_upsert_values
            }
            other => panic!("{}", other.name()),
        }
    };
    assert!(read(Some(values("k"))) == Some(values("k")));
    assert!(read(None).is_none());
    assert!(read(Some(StringMap::new())).is_none());
    // Whole transactions are equal, as the metadata of schemas does not count.
    let t = transaction(overwrite(Some(values("k"))), None)
        .with_blobs_op(Some(overwrite(Some(values("b")))));
    let back = Transaction::try_from(&TransactionMessage::from(&t)).unwrap();
    assert_eq!(back, t);
    match back.blobs_op {
        Some(Operation::Overwrite { config_upsert_values, .. }) => {
            assert!(config_upsert_values == Some(values("b")))
        }
        other => panic!("{:?}", other),
    }
}

#[test]
fn empty_changes_come_back_as_none() {
    let t = transaction(
        Operation::UpdateConfig {
            upsert_values: Some(StringMap::new()),
            delete_keys: Some(vec![]),
            schema_metadata: Some(StringMap::new()),
            field_metadata: None,
        },
        Some(""),
    );
    let back = Transaction::try_from(&TransactionMessage::from(&t)).unwrap();
    assert_eq!(back.tag, None);
    match back.operation {
        Operation::UpdateConfig { upsert_values, delete_keys, schema_metadata, field_metadata } => {
            assert!(upsert_values.is_none());
            assert!(delete_keys.is_none());
            assert!(schema_metadata.is_none());
            assert!(field_metadata.is_none());
        }
        other => panic!("{}", other.name()),
    }
}

#[test]
fn messages_without_groups_have_one() {
    let m = message(Some(OperationMessage::Rewrite {
        old_fragments: vec![Ok(Fragment::new(1))],
        new_fragments: vec![Ok(Fragment::new(2)), Ok(Fragment::new(3))],
        groups: vec![],
        rewritten_indices: vec![],
    }));
    match Transaction::try_from(&m).unwrap().operation {
        Operation::Rewrite { groups, .. } => {
            assert_eq!(groups.len(), 1);
            assert_eq!(groups[0].old_fragments.len(), 1);
            assert_eq!(groups[0].new_fragments.len(), 2);
        }
        other => panic!("{}", other.name()),
    }
}

#[test]
fn incomplete_messages_are_refused() {
    match Transaction::try_from(&message(None)) {
        Err(Error::Internal { message }) => {
            assert_eq!(message, "Transaction message did not contain an operation")
        }
        other => panic!("{:?}", other),
    }
    match RewrittenIndex::try_from(&RewrittenIndexMessage { old_id: None, new_id: None }) {
        Err(Error::Io { source }) => {
            assert_eq!(source, "required field (old_id) missing from message")
        }
        other => panic!("{:?}", other),
    }
    match RewrittenIndex::try_from(&RewrittenIndexMessage {
        old_id: Some(Ok(Uuid { bits: 1 })),
        new_id: None,
    }) {
        Err(Error::Io { source }) => {
            assert_eq!(source, "required field (new_id) missing from message")
        }
        other => panic!("{:?}", other),
    }
    match DataReplacementGroup::try_from(&DataReplacementMessage { fragment_id: 1, new_file: None })
    {
        Err(Error::InvalidInput { source }) => {
            assert_eq!(source, "DataReplacementGroup must have a new_file")
        }
        other => panic!("{:?}", other),
    }
}

#[test]
fn errors_of_parts_are_passed_on() {
    let m = message(Some(OperationMessage::Append {
        fragments: vec![Ok(Fragment::new(1)), Err(broken()), Ok(Fragment::new(2))],
    }));
    assert_eq!(Transaction::try_from(&m).unwrap_err().message(), "broken");
    let group = RewriteGroupMessage {
        old_fragments: vec![],
        new_fragments: vec![Err(broken())],
    };
    assert_eq!(RewriteGroup::try_from(&group).unwrap_err().message(), "broken");
    let m = message(Some(OperationMessage::Rewrite {
        old_fragments: vec![],
        new_fragments: vec![],
        groups: vec![group],
        rewritten_indices: vec![],
    }));
    assert_eq!(Transaction::try_from(&m).unwrap_err().message(), "broken");
}
