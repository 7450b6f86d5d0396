//! Transactions: operations with what they are based on.

use vstd::prelude::*;
use crate::ids::is_random;
use crate::ids::random_id;
use crate::ids::uuid_text;
use crate::ids::Uuid;
use crate::items::copy_opt;
use crate::items::same_opt;
use crate::operation::same_operation;
use crate::operation::Operation;
use crate::operation::OperationModel;
use crate::seqs::opt_view;

verus! {

/// A change to a dataset that can be retried. With the current manifest it tells what
/// the next manifest is.
#[derive(Debug)]
pub struct Transaction {
    /// The version of the table that the transaction is based on; 0 for the first
    /// transaction.
    pub read_version: u64,
    pub uuid: String,
    pub operation: Operation,
    /// The operation on the dataset of large binary values; `None` if it was not
    /// modified.
    pub blobs_op: Option<Operation>,
    pub tag: Option<String>,
}

/// A transaction as a mathematical value.
pub struct TransactionModel {
    pub read_version: u64,
    pub uuid: Seq<char>,
    pub operation: OperationModel,
    pub blobs_op: Option<OperationModel>,
    pub tag: Option<Seq<char>>,
}

impl View for Transaction {
    type V = TransactionModel;

    open spec fn view(&self) -> TransactionModel {
        TransactionModel {
            read_version: self.read_version,
            uuid: self.uuid@,
            operation: self.operation@,
            blobs_op: opt_view(self.blobs_op),
            tag: opt_view(self.tag),
        }
    }
}

fn copy_operation(op: &Option<Operation>) -> (r: Option<Operation>)
    ensures
        opt_view(r) == opt_view(*op),
{
    match op {
        Some(op) => Some(op.clone()),
        None => None,
    }
}

impl Clone for Transaction {
    fn clone(&self) -> (r: Self)
        ensures
            r@ == self@,
    {
        Transaction {
            read_version: self.read_version,
            uuid: self.uuid.clone(),
            operation: self.operation.clone(),
            blobs_op: copy_operation(&self.blobs_op),
            tag: copy_opt(&self.tag),
        }
    }
}

/// Whether two optional operations are the same.
pub open spec fn same_opt_operation(
    a: Option<OperationModel>,
    b: Option<OperationModel>,
) -> bool {
    match (a, b) {
        (Some(x), Some(y)) => same_operation(x, y),
        (None, None) => true,
        _ => false,
    }
}

fn compare_operations(a: &Option<Operation>, b: &Option<Operation>) -> (r: bool)
    ensures
        r == same_opt_operation(opt_view(*a), opt_view(*b)),
{
    match (a, b) {
        (Some(x), Some(y)) => *x == *y,
        (None, None) => true,
        _ => false,
    }
}

impl PartialEq for Transaction {
    fn eq(&self, other: &Self) -> (r: bool) {
        self.read_version == other.read_version && self.uuid == other.uuid && self.operation
            == other.operation && compare_operations(&self.blobs_op, &other.blobs_op) && same_opt(
            &self.tag,
            &other.tag,
        )
    }
}

impl vstd::std_specs::cmp::PartialEqSpecImpl for Transaction {
    open spec fn obeys_eq_spec() -> bool {
        true
    }

    open spec fn eq_spec(&self, other: &Self) -> bool {
        &&& self@.read_version == other@.read_version
        &&& self@.uuid == other@.uuid
        &&& same_operation(self@.operation, other@.operation)
        &&& same_opt_operation(self@.blobs_op, other@.blobs_op)
        &&& self@.tag == other@.tag
    }
}

impl Transaction {
    /// A transaction under an id.
    pub fn with_uuid(
        read_version: u64,
        operation: Operation,
        blobs_op: Option<Operation>,
        tag: Option<String>,
        uuid: Uuid,
    ) -> (r: Transaction)
        ensures
            r@ == (TransactionModel {
                read_version,
                uuid: uuid_text(uuid.bits),
                operation: operation@,
                blobs_op: opt_view(blobs_op),
                tag: opt_view(tag),
            }),
    {
        Transaction { read_version, uuid: uuid.text(), operation, blobs_op, tag }
    }

    /// A transaction under a new id, with no operation on the dataset of large binary
    /// values and no tag.
    pub fn new_from_version(read_version: u64, operation: Operation) -> (r: Transaction)
        ensures
            exists|bits: u128|
                #[trigger] is_random(bits) && r@ == (TransactionModel {
                    read_version,
                    uuid: uuid_text(bits),
                    operation: operation@,
                    blobs_op: None,
                    tag: None,
                }),
    {
        let bits: u128 = random_id();
        Transaction::with_uuid(read_version, operation, None, None, Uuid { bits })
    }

    /// The transaction with another operation on the dataset of large binary values.
    pub fn with_blobs_op(self, blobs_op: Option<Operation>) -> (r: Transaction)
        ensures
            r@ == (TransactionModel { blobs_op: opt_view(blobs_op), ..self@ }),
    {
        Transaction {
            read_version: self.read_version,
            uuid: self.uuid,
            operation: self.operation,
            blobs_op,
            tag: self.tag,
        }
    }

    /// A transaction under a new id.
    pub fn new(
        read_version: u64,
        operation: Operation,
        blobs_op: Option<Operation>,
        tag: Option<String>,
    ) -> (r: Transaction)
        ensures
            exists|bits: u128|
                #[trigger] is_random(bits) && r@ == (TransactionModel {
                    read_version,
                    uuid: uuid_text(bits),
                    operation: operation@,
                    blobs_op: opt_view(blobs_op),
                    tag: opt_view(tag),
                }),
    {
        let bits: u128 = random_id();
        Transaction::with_uuid(read_version, operation, blobs_op, tag, Uuid { bits })
    }
}

} // verus!
