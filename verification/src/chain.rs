//! The part of an Ethereum block that the modules read: transactions with
//! their status and hash, and their logs, each log with the emitting address
//! and the staking event it was decoded as.

use vstd::prelude::*;
use crate::amount::Amount;

verus! {

/// The status of a transaction that succeeded.
pub const TRANSACTION_SUCCEEDED: i32 = 1;

/// The fields of an `AllocationClosed` event that the modules read.
pub struct ClosedAllocation {
    pub indexer: Vec<u8>,
    pub subgraph_deployment_id: Vec<u8>,
    pub tokens: Amount,
    pub allocation_id: Vec<u8>,
    pub poi: Vec<u8>,
}

/// A log decoded against the events that the modules know; `Other` for any
/// other log.
pub enum GraphEvent {
    RebateCollected {
        indexer: Vec<u8>,
        subgraph_deployment_id: Vec<u8>,
        allocation_id: Vec<u8>,
        query_rebates: Amount,
    },
    RewardsAssigned,
    Transfer { from: Vec<u8>, to: Vec<u8>, value: Amount },
    AllocationClosed1(ClosedAllocation),
    AllocationClosed2(ClosedAllocation),
    StakeDeposited { indexer: Vec<u8>, tokens: Amount },
    StakeWithdrawn { indexer: Vec<u8>, tokens: Amount },
    Other,
}

/// A log: the emitting contract's address and the decoded event.
pub struct EventLog {
    pub address: Vec<u8>,
    pub event: GraphEvent,
}

/// A transaction trace: its status, its hash, the logs of its calls that
/// were recorded to the chain's state (in ordinal order), and the logs of
/// its receipt (`None` where it carries no receipt).
pub struct Transaction {
    pub status: i32,
    pub hash: Vec<u8>,
    pub call_logs: Vec<EventLog>,
    pub receipt_logs: Option<Vec<EventLog>>,
}

/// A block: all its transaction traces, failed ones included.
pub struct Block {
    pub transaction_traces: Vec<Transaction>,
}

/// Whether a transaction succeeded.
pub open spec fn succeeded(t: Transaction) -> bool {
    t.status == TRANSACTION_SUCCEEDED
}

/// Every successful transaction of the block carries a receipt.
pub open spec fn receipts_present(b: Block) -> bool {
    forall|i: int|
        0 <= i < b.transaction_traces@.len() && succeeded(#[trigger] b.transaction_traces@[i])
            ==> b.transaction_traces@[i].receipt_logs is Some
}

/// A closed allocation as the contract emits it: 20-byte indexer and
/// allocation addresses, 32-byte deployment id and proof of indexing, and
/// unsigned tokens.
pub open spec fn closed_allocation_well_formed(c: ClosedAllocation) -> bool {
    &&& c.indexer@.len() == 20
    &&& c.subgraph_deployment_id@.len() == 32
    &&& c.allocation_id@.len() == 20
    &&& c.poi@.len() == 32
    &&& c.tokens.value() >= 0
}

/// An event as its ABI types allow it: addresses of 20 bytes, ids of 32
/// bytes, unsigned amounts.
pub open spec fn event_well_formed(e: GraphEvent) -> bool {
    match e {
        GraphEvent::RebateCollected {
            indexer,
            subgraph_deployment_id,
            allocation_id,
            query_rebates,
        } => indexer@.len() == 20 && subgraph_deployment_id@.len() == 32 && allocation_id@.len()
            == 20 && query_rebates.value() >= 0,
        GraphEvent::RewardsAssigned => true,
        GraphEvent::Transfer { from, to, value } => from@.len() == 20 && to@.len() == 20
            && value.value() >= 0,
        GraphEvent::AllocationClosed1(c) => closed_allocation_well_formed(c),
        GraphEvent::AllocationClosed2(c) => closed_allocation_well_formed(c),
        GraphEvent::StakeDeposited { indexer, tokens } => indexer@.len() == 20 && tokens.value()
            >= 0,
        GraphEvent::StakeWithdrawn { indexer, tokens } => indexer@.len() == 20 && tokens.value()
            >= 0,
        GraphEvent::Other => true,
    }
}

/// Every log of the run comes from a 20-byte address and holds a
/// well-formed event.
pub open spec fn logs_well_formed(logs: Seq<EventLog>) -> bool {
    forall|j: int|
        0 <= j < logs.len() ==> (#[trigger] logs[j]).address@.len() == 20 && event_well_formed(
            logs[j].event,
        )
}

/// A transaction with a 32-byte hash whose logs are well formed.
pub open spec fn transaction_well_formed(t: Transaction) -> bool {
    &&& t.hash@.len() == 32
    &&& logs_well_formed(t.call_logs@)
    &&& match t.receipt_logs {
        Some(logs) => logs_well_formed(logs@),
        None => true,
    }
}

/// Every transaction of the run is well formed.
pub open spec fn transactions_well_formed(txs: Seq<Transaction>) -> bool {
    forall|i: int| 0 <= i < txs.len() ==> transaction_well_formed(#[trigger] txs[i])
}

/// A block whose transactions are well formed, as blocks decoded against
/// the contracts' ABI are.
pub open spec fn block_well_formed(b: Block) -> bool {
    transactions_well_formed(b.transaction_traces@)
}

} // verus!
