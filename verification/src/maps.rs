//! The modules that turn a block into records: query fees, indexing
//! rewards, stake deposits and withdrawals, closed allocations.

use vstd::prelude::*;
use crate::amount::decimal_string;
use crate::chain::{
    receipts_present, succeeded, Block, ClosedAllocation, EventLog, GraphEvent, Transaction,
    TRANSACTION_SUCCEEDED,
};
use crate::filter::IndexerFilter;
use crate::records::{
    AllocationClosedData, AllocationClosedDataView, AllocationClosedDatas, IndexingRewardsCollected,
    IndexingRewardsCollectedView, IndexingRewardsCollecteds, OwnedStakeTokenChange,
    OwnedStakeTokenChangeView, OwnedStakeTokenChanges, QueryFeesCollected, QueryFeesCollectedView,
    QueryFeesCollecteds,
};
use crate::text::{
    bytes_equal, hex_encode, is_lower_hex_of_bytes, lemma_lowercase_of_hex, lower_hex, to_lowercase,
};
use crate::amount::parse_decimal;
use crate::chain::block_well_formed;
use crate::shapes::{
    all_closed_allocation_shaped, all_indexing_reward_shaped, all_query_fee_shaped,
    all_stake_deposit_shaped, lemma_closed_allocation_transactions_shaped,
    lemma_indexing_reward_transactions_shaped, lemma_query_fee_transactions_shaped,
    lemma_stake_deposit_transactions_shaped, lemma_withdrawal_record_shape,
    lemma_withdrawals_match, withdrawal_events, withdrawals_match_events,
};
use vstd::string::StringExecFns;

verus! {

/// The query-fee record of one log: a `RebateCollected` event emitted by
/// the staking contract, for an indexer that the filter keeps.
pub open spec fn query_fee_of_log(filter: IndexerFilter, graph: Seq<u8>, log: EventLog) -> Seq<
    QueryFeesCollectedView,
> {
    match log.event {
        GraphEvent::RebateCollected {
            indexer,
            subgraph_deployment_id,
            allocation_id,
            query_rebates,
        } => if log.address@ == graph && filter.admits(lower_hex(indexer@)) {
            seq![
                QueryFeesCollectedView {
                    indexer: lower_hex(indexer@),
                    deployment_id: lower_hex(subgraph_deployment_id@),
                    allocation_id: lower_hex(allocation_id@),
                    query_fees: decimal_string(query_rebates.value()),
                },
            ]
        } else {
            Seq::empty()
        },
        _ => Seq::empty(),
    }
}

/// The query-fee records of a run of logs, in order.
pub open spec fn query_fees_of_logs(filter: IndexerFilter, graph: Seq<u8>, logs: Seq<EventLog>) -> Seq<
    QueryFeesCollectedView,
>
    decreases logs.len(),
{
    if logs.len() == 0 {
        Seq::empty()
    } else {
        query_fees_of_logs(filter, graph, logs.drop_last()) + query_fee_of_log(
            filter,
            graph,
            logs.last(),
        )
    }
}

/// The query-fee records of the call logs of the successful transactions.
pub open spec fn query_fees_of_transactions(
    filter: IndexerFilter,
    graph: Seq<u8>,
    txs: Seq<Transaction>,
) -> Seq<QueryFeesCollectedView>
    decreases txs.len(),
{
    if txs.len() == 0 {
        Seq::empty()
    } else {
        query_fees_of_transactions(filter, graph, txs.drop_last()) + if succeeded(txs.last()) {
            query_fees_of_logs(filter, graph, txs.last().call_logs@)
        } else {
            Seq::empty()
        }
    }
}

/// The query fees collected in a block: for each `RebateCollected` event
/// that the staking contract (`graph`) emitted in a successful transaction,
/// the indexer, deployment and allocation in hexadecimal and the query
/// rebates in decimal, for the indexers that the filter keeps.
pub fn map_query_fees_collected(filter: &IndexerFilter, graph: &[u8], block: &Block) -> (r:
    QueryFeesCollecteds)
    ensures
        r@ == query_fees_of_transactions(*filter, graph@, block.transaction_traces@),
        block_well_formed(*block) ==> all_query_fee_shaped(r@),
{
    let txs = &block.transaction_traces;
    let mut out: Vec<QueryFeesCollected> = Vec::new();
    let mut i: usize = 0;
    while i < txs.len()
        invariant
            i <= txs@.len(),
            out@.map_values(|r: QueryFeesCollected| r@) == query_fees_of_transactions(
                *filter,
                graph@,
                txs@.take(i as int),
            ),
        decreases txs@.len() - i,
    {
        let tx = &txs[i];
        let ghost before = out@.map_values(|r: QueryFeesCollected| r@);
        if tx.status == TRANSACTION_SUCCEEDED {
            let logs = &tx.call_logs;
            let mut j: usize = 0;
            while j < logs.len()
                invariant
                    j <= logs@.len(),
                    out@.map_values(|r: QueryFeesCollected| r@) == before + query_fees_of_logs(
                        *filter,
                        graph@,
                        logs@.take(j as int),
                    ),
                decreases logs@.len() - j,
            {
                let log = &logs[j];
                let ghost mid = out@.map_values(|r: QueryFeesCollected| r@);
                match &log.event {
                    GraphEvent::RebateCollected {
                        indexer,
                        subgraph_deployment_id,
                        allocation_id,
                        query_rebates,
                    } => {
                        if bytes_equal(&log.address, graph) {
                            let record = QueryFeesCollected {
                                indexer: hex_encode(indexer),
                                deployment_id: hex_encode(subgraph_deployment_id),
                                allocation_id: hex_encode(allocation_id),
                                query_fees: query_rebates.to_decimal_string(),
                            };
                            if filter.admits_indexer(&record.indexer) {
                                out.push(record);
                                assert(out@.map_values(|r: QueryFeesCollected| r@) =~= mid.push(
                                    record@,
                                ));
                            }
                        }
                    },
                    _ => {},
                }
                proof {
                    assert(logs@.take(j + 1).drop_last() =~= logs@.take(j as int));
                    assert(logs@.take(j + 1).last() == logs@[j as int]);
                    assert(query_fees_of_logs(*filter, graph@, logs@.take(j + 1)) == query_fees_of_logs(
                        *filter,
                        graph@,
                        logs@.take(j as int),
                    ) + query_fee_of_log(*filter, graph@, logs@[j as int]));
                    assert(out@.map_values(|r: QueryFeesCollected| r@) =~= before
                        + query_fees_of_logs(*filter, graph@, logs@.take(j + 1)));
                }
                j = j + 1;
            }
            assert(logs@.take(logs@.len() as int) =~= logs@);
        }
        proof {
            assert(txs@.take(i + 1).drop_last() =~= txs@.take(i as int));
            assert(txs@.take(i + 1).last() == txs@[i as int]);
            assert(out@.map_values(|r: QueryFeesCollected| r@) =~= query_fees_of_transactions(
                *filter,
                graph@,
                txs@.take(i + 1),
            ));
        }
        i = i + 1;
    }
    assert(txs@.take(txs@.len() as int) =~= txs@);
    proof {
        if block_well_formed(*block) {
            lemma_query_fee_transactions_shaped(*filter, graph@, txs@);
        }
    }
    QueryFeesCollecteds { query_fees_collecteds: out }
}

/// Whether some log of the run was emitted by the staking contract.
pub open spec fn has_log_from(graph: Seq<u8>, logs: Seq<EventLog>) -> bool {
    exists|k: int| 0 <= k < logs.len() && (#[trigger] logs[k]).address@ == graph
}

/// Whether some log of the run is a `RewardsAssigned` event.
pub open spec fn has_rewards_assigned(logs: Seq<EventLog>) -> bool {
    exists|k: int| 0 <= k < logs.len() && (#[trigger] logs[k]).event is RewardsAssigned
}

/// Whether some log of the run is a `Transfer` event.
pub open spec fn has_transfer(logs: Seq<EventLog>) -> bool {
    exists|k: int| 0 <= k < logs.len() && (#[trigger] logs[k]).event is Transfer
}

/// Whether some log of the run is an `AllocationClosed` event of either
/// version.
pub open spec fn has_allocation_closed(logs: Seq<EventLog>) -> bool {
    exists|k: int|
        0 <= k < logs.len() && ((#[trigger] logs[k]).event is AllocationClosed1
            || logs[k].event is AllocationClosed2)
}

/// The rewards record of one log: a `Transfer` out of the staking contract,
/// to an indexer that the filter keeps.
pub open spec fn indexing_reward_of_log(filter: IndexerFilter, graph: Seq<u8>, log: EventLog) -> Seq<
    IndexingRewardsCollectedView,
> {
    match log.event {
        GraphEvent::Transfer { from, to, value } => if from@ == graph && filter.admits(
            lower_hex(to@),
        ) {
            seq![
                IndexingRewardsCollectedView {
                    indexer: lower_hex(to@),
                    allocation_id: Seq::empty(),
                    rewards: decimal_string(value.value()),
                },
            ]
        } else {
            Seq::empty()
        },
        _ => Seq::empty(),
    }
}

/// The rewards records of a run of logs, in order.
pub open spec fn indexing_rewards_of_logs(
    filter: IndexerFilter,
    graph: Seq<u8>,
    logs: Seq<EventLog>,
) -> Seq<IndexingRewardsCollectedView>
    decreases logs.len(),
{
    if logs.len() == 0 {
        Seq::empty()
    } else {
        indexing_rewards_of_logs(filter, graph, logs.drop_last()) + indexing_reward_of_log(
            filter,
            graph,
            logs.last(),
        )
    }
}

/// Whether a transaction pays indexing rewards: among its logs one comes
/// from the staking contract, one is `RewardsAssigned` and one a `Transfer`.
pub open spec fn pays_indexing_rewards(graph: Seq<u8>, logs: Seq<EventLog>) -> bool {
    has_log_from(graph, logs) && has_rewards_assigned(logs) && has_transfer(logs)
}

/// The rewards records of the successful transactions that pay indexing
/// rewards.
pub open spec fn indexing_rewards_of_transactions(
    filter: IndexerFilter,
    graph: Seq<u8>,
    txs: Seq<Transaction>,
) -> Seq<IndexingRewardsCollectedView>
    decreases txs.len(),
{
    if txs.len() == 0 {
        Seq::empty()
    } else {
        indexing_rewards_of_transactions(filter, graph, txs.drop_last()) + if succeeded(txs.last())
            && pays_indexing_rewards(graph, txs.last().call_logs@) {
            indexing_rewards_of_logs(filter, graph, txs.last().call_logs@)
        } else {
            Seq::empty()
        }
    }
}

/// The three facts about a transaction's logs that decide whether it pays
/// indexing rewards.
fn scan_rewards_transaction(graph: &[u8], logs: &Vec<EventLog>) -> (r: (bool, bool, bool))
    ensures
        r.0 == has_log_from(graph@, logs@),
        r.1 == has_rewards_assigned(logs@),
        r.2 == has_transfer(logs@),
{
    let mut from_graph = false;
    let mut rewards_assigned = false;
    let mut transfer = false;
    let mut j: usize = 0;
    while j < logs.len()
        invariant
            j <= logs@.len(),
            from_graph == has_log_from(graph@, logs@.take(j as int)),
            rewards_assigned == has_rewards_assigned(logs@.take(j as int)),
            transfer == has_transfer(logs@.take(j as int)),
        decreases logs@.len() - j,
    {
        let log = &logs[j];
        let ghost prefix = logs@.take(j as int);
        let ghost next = logs@.take(j + 1);
        assert(next[j as int] == logs@[j as int]);
        assert(forall|k: int| 0 <= k < j ==> next[k] == prefix[k]);
        if bytes_equal(&log.address, graph) {
            from_graph = true;
        }
        match &log.event {
            GraphEvent::RewardsAssigned => {
                rewards_assigned = true;
            },
            GraphEvent::Transfer { .. } => {
                transfer = true;
            },
            _ => {},
        }
        proof {
            if from_graph && !has_log_from(graph@, prefix) {
                assert(next[j as int].address@ == graph@);
            }
            if rewards_assigned && !has_rewards_assigned(prefix) {
                assert(next[j as int].event is RewardsAssigned);
            }
            if transfer && !has_transfer(prefix) {
                assert(next[j as int].event is Transfer);
            }
        }
        j = j + 1;
    }
    assert(logs@.take(logs@.len() as int) =~= logs@);
    (from_graph, rewards_assigned, transfer)
}

/// The indexing rewards collected in a block: in each successful
/// transaction that pays indexing rewards, every `Transfer` out of the
/// staking contract (`graph`) gives the receiving indexer in hexadecimal and
/// the amount in decimal, for the indexers that the filter keeps.
pub fn map_indexing_rewards_collected(filter: &IndexerFilter, graph: &[u8], block: &Block) -> (r:
    IndexingRewardsCollecteds)
    ensures
        r@ == indexing_rewards_of_transactions(*filter, graph@, block.transaction_traces@),
        block_well_formed(*block) ==> all_indexing_reward_shaped(r@),
{
    let txs = &block.transaction_traces;
    let mut out: Vec<IndexingRewardsCollected> = Vec::new();
    let mut i: usize = 0;
    while i < txs.len()
        invariant
            i <= txs@.len(),
            out@.map_values(|r: IndexingRewardsCollected| r@) == indexing_rewards_of_transactions(
                *filter,
                graph@,
                txs@.take(i as int),
            ),
        decreases txs@.len() - i,
    {
        let tx = &txs[i];
        let ghost before = out@.map_values(|r: IndexingRewardsCollected| r@);
        if tx.status == TRANSACTION_SUCCEEDED {
            let logs = &tx.call_logs;
            let (from_graph, rewards_assigned, transfer) = scan_rewards_transaction(graph, logs);
            if from_graph && rewards_assigned && transfer {
                let mut j: usize = 0;
                while j < logs.len()
                    invariant
                        j <= logs@.len(),
                        out@.map_values(|r: IndexingRewardsCollected| r@) == before
                            + indexing_rewards_of_logs(*filter, graph@, logs@.take(j as int)),
                    decreases logs@.len() - j,
                {
                    let log = &logs[j];
                    let ghost mid = out@.map_values(|r: IndexingRewardsCollected| r@);
                    match &log.event {
                        GraphEvent::Transfer { from, to, value } => {
                            if bytes_equal(from, graph) {
                                let record = IndexingRewardsCollected {
                                    indexer: hex_encode(to),
                                    allocation_id: String::new(),
                                    rewards: value.to_decimal_string(),
                                };
                                if filter.admits_indexer(&record.indexer) {
                                    out.push(record);
                                    assert(out@.map_values(|r: IndexingRewardsCollected| r@)
                                        =~= mid.push(record@));
                                }
                            }
                        },
                        _ => {},
                    }
                    proof {
                        assert(logs@.take(j + 1).drop_last() =~= logs@.take(j as int));
                        assert(logs@.take(j + 1).last() == logs@[j as int]);
                        assert(out@.map_values(|r: IndexingRewardsCollected| r@) =~= before
                            + indexing_rewards_of_logs(*filter, graph@, logs@.take(j + 1)));
                    }
                    j = j + 1;
                }
                assert(logs@.take(logs@.len() as int) =~= logs@);
            }
        }
        proof {
            assert(txs@.take(i + 1).drop_last() =~= txs@.take(i as int));
            assert(txs@.take(i + 1).last() == txs@[i as int]);
            assert(out@.map_values(|r: IndexingRewardsCollected| r@)
                =~= indexing_rewards_of_transactions(*filter, graph@, txs@.take(i + 1)));
        }
        i = i + 1;
    }
    assert(txs@.take(txs@.len() as int) =~= txs@);
    proof {
        if block_well_formed(*block) {
            lemma_indexing_reward_transactions_shaped(*filter, graph@, txs@);
        }
    }
    IndexingRewardsCollecteds { indexing_rewards_collecteds: out }
}

/// The deposit record of one log: a `StakeDeposited` event, whatever
/// contract emitted it.
pub open spec fn stake_deposit_of_log(log: EventLog) -> Seq<OwnedStakeTokenChangeView> {
    match log.event {
        GraphEvent::StakeDeposited { indexer, tokens } => seq![
            OwnedStakeTokenChangeView {
                indexer: lower_hex(indexer@),
                tokens_amount: decimal_string(tokens.value()),
            },
        ],
        _ => Seq::empty(),
    }
}

/// The deposit records of a run of logs, in order.
pub open spec fn stake_deposits_of_logs(logs: Seq<EventLog>) -> Seq<OwnedStakeTokenChangeView>
    decreases logs.len(),
{
    if logs.len() == 0 {
        Seq::empty()
    } else {
        stake_deposits_of_logs(logs.drop_last()) + stake_deposit_of_log(logs.last())
    }
}

/// Whether a transaction deposits stake directly: it closes no allocation,
/// assigns no rewards, and moves tokens.
pub open spec fn deposits_stake_directly(logs: Seq<EventLog>) -> bool {
    !has_allocation_closed(logs) && !has_rewards_assigned(logs) && has_transfer(logs)
}

/// The deposit records of the successful transactions that deposit stake
/// directly.
pub open spec fn stake_deposits_of_transactions(txs: Seq<Transaction>) -> Seq<
    OwnedStakeTokenChangeView,
>
    decreases txs.len(),
{
    if txs.len() == 0 {
        Seq::empty()
    } else {
        stake_deposits_of_transactions(txs.drop_last()) + if succeeded(txs.last())
            && deposits_stake_directly(txs.last().call_logs@) {
            stake_deposits_of_logs(txs.last().call_logs@)
        } else {
            Seq::empty()
        }
    }
}

/// The three facts about a transaction's logs that decide whether it
/// deposits stake directly.
fn scan_deposit_transaction(logs: &Vec<EventLog>) -> (r: (bool, bool, bool))
    ensures
        r.0 == has_allocation_closed(logs@),
        r.1 == has_rewards_assigned(logs@),
        r.2 == has_transfer(logs@),
{
    let mut closed = false;
    let mut rewards_assigned = false;
    let mut transfer = false;
    let mut j: usize = 0;
    while j < logs.len()
        invariant
            j <= logs@.len(),
            closed == has_allocation_closed(logs@.take(j as int)),
            rewards_assigned == has_rewards_assigned(logs@.take(j as int)),
            transfer == has_transfer(logs@.take(j as int)),
        decreases logs@.len() - j,
    {
        let log = &logs[j];
        let ghost prefix = logs@.take(j as int);
        let ghost next = logs@.take(j + 1);
        assert(next[j as int] == logs@[j as int]);
        assert(forall|k: int| 0 <= k < j ==> next[k] == prefix[k]);
        match &log.event {
            GraphEvent::AllocationClosed1(_) => {
                closed = true;
            },
            GraphEvent::AllocationClosed2(_) => {
                closed = true;
            },
            GraphEvent::RewardsAssigned => {
                rewards_assigned = true;
            },
            GraphEvent::Transfer { .. } => {
                transfer = true;
            },
            _ => {},
        }
        proof {
            if closed && !has_allocation_closed(prefix) {
                assert(next[j as int].event is AllocationClosed1 || next[j as int].event is AllocationClosed2);
            }
            if rewards_assigned && !has_rewards_assigned(prefix) {
                assert(next[j as int].event is RewardsAssigned);
            }
            if transfer && !has_transfer(prefix) {
                assert(next[j as int].event is Transfer);
            }
        }
        j = j + 1;
    }
    assert(logs@.take(logs@.len() as int) =~= logs@);
    (closed, rewards_assigned, transfer)
}

/// The stake deposited in a block: in each successful transaction that
/// closes no allocation, assigns no rewards and moves tokens, every
/// `StakeDeposited` event gives the indexer in hexadecimal and the tokens in
/// decimal.
pub fn map_stake_deposited(block: &Block) -> (r: OwnedStakeTokenChanges)
    ensures
        r@ == stake_deposits_of_transactions(block.transaction_traces@),
        block_well_formed(*block) ==> all_stake_deposit_shaped(r@),
{
    let txs = &block.transaction_traces;
    let mut out: Vec<OwnedStakeTokenChange> = Vec::new();
    let mut i: usize = 0;
    while i < txs.len()
        invariant
            i <= txs@.len(),
            out@.map_values(|r: OwnedStakeTokenChange| r@) == stake_deposits_of_transactions(
                txs@.take(i as int),
            ),
        decreases txs@.len() - i,
    {
        let tx = &txs[i];
        let ghost before = out@.map_values(|r: OwnedStakeTokenChange| r@);
        if tx.status == TRANSACTION_SUCCEEDED {
            let logs = &tx.call_logs;
            let (closed, rewards_assigned, transfer) = scan_deposit_transaction(logs);
            if !closed && !rewards_assigned && transfer {
                let mut j: usize = 0;
                while j < logs.len()
                    invariant
                        j <= logs@.len(),
                        out@.map_values(|r: OwnedStakeTokenChange| r@) == before
                            + stake_deposits_of_logs(logs@.take(j as int)),
                    decreases logs@.len() - j,
                {
                    let log = &logs[j];
                    let ghost mid = out@.map_values(|r: OwnedStakeTokenChange| r@);
                    match &log.event {
                        GraphEvent::StakeDeposited { indexer, tokens } => {
                            let record = OwnedStakeTokenChange {
                                indexer: hex_encode(indexer),
                                tokens_amount: tokens.to_decimal_string(),
                            };
                            out.push(record);
                            assert(out@.map_values(|r: OwnedStakeTokenChange| r@) =~= mid.push(
                                record@,
                            ));
                        },
                        _ => {},
                    }
                    proof {
                        assert(logs@.take(j + 1).drop_last() =~= logs@.take(j as int));
                        assert(logs@.take(j + 1).last() == logs@[j as int]);
                        assert(out@.map_values(|r: OwnedStakeTokenChange| r@) =~= before
                            + stake_deposits_of_logs(logs@.take(j + 1)));
                    }
                    j = j + 1;
                }
                assert(logs@.take(logs@.len() as int) =~= logs@);
            }
        }
        proof {
            assert(txs@.take(i + 1).drop_last() =~= txs@.take(i as int));
            assert(txs@.take(i + 1).last() == txs@[i as int]);
            assert(out@.map_values(|r: OwnedStakeTokenChange| r@) =~= stake_deposits_of_transactions(
                txs@.take(i + 1),
            ));
        }
        i = i + 1;
    }
    assert(txs@.take(txs@.len() as int) =~= txs@);
    proof {
        if block_well_formed(*block) {
            lemma_stake_deposit_transactions_shaped(txs@);
        }
    }
    OwnedStakeTokenChanges { owned_stake_token_changes: out }
}

/// The receipt logs of a transaction (empty where it carries no receipt).
pub open spec fn receipt_logs_of(t: Transaction) -> Seq<EventLog> {
    match t.receipt_logs {
        Some(logs) => logs@,
        None => Seq::empty(),
    }
}

/// The withdrawal record of one log: a `StakeWithdrawn` event emitted by the
/// staking contract; the tokens are written negated.
pub open spec fn stake_withdrawal_of_log(graph: Seq<u8>, log: EventLog) -> Seq<
    OwnedStakeTokenChangeView,
> {
    match log.event {
        GraphEvent::StakeWithdrawn { indexer, tokens } => if log.address@ == graph {
            seq![
                OwnedStakeTokenChangeView {
                    indexer: lower_hex(indexer@),
                    tokens_amount: seq!['-'] + decimal_string(tokens.value()),
                },
            ]
        } else {
            Seq::empty()
        },
        _ => Seq::empty(),
    }
}

/// The withdrawal records of a run of logs, in order.
pub open spec fn stake_withdrawals_of_logs(graph: Seq<u8>, logs: Seq<EventLog>) -> Seq<
    OwnedStakeTokenChangeView,
>
    decreases logs.len(),
{
    if logs.len() == 0 {
        Seq::empty()
    } else {
        stake_withdrawals_of_logs(graph, logs.drop_last()) + stake_withdrawal_of_log(
            graph,
            logs.last(),
        )
    }
}

/// The withdrawal records of the receipt logs of the successful
/// transactions.
pub open spec fn stake_withdrawals_of_transactions(graph: Seq<u8>, txs: Seq<Transaction>) -> Seq<
    OwnedStakeTokenChangeView,
>
    decreases txs.len(),
{
    if txs.len() == 0 {
        Seq::empty()
    } else {
        stake_withdrawals_of_transactions(graph, txs.drop_last()) + if succeeded(txs.last()) {
            stake_withdrawals_of_logs(graph, receipt_logs_of(txs.last()))
        } else {
            Seq::empty()
        }
    }
}

/// The stake withdrawn in a block: every `StakeWithdrawn` event that the
/// staking contract (`graph`) emitted in the receipt of a successful
/// transaction gives the indexer in hexadecimal and the tokens in decimal
/// after a '-'. Every successful transaction must carry a receipt.
pub fn map_stake_withdrawn(graph: &[u8], block: &Block) -> (r: OwnedStakeTokenChanges)
    requires
        receipts_present(*block),
    ensures
        r@ == stake_withdrawals_of_transactions(graph@, block.transaction_traces@),
        withdrawals_match_events(
            r@,
            withdrawal_events(graph@, block.transaction_traces@),
            block_well_formed(*block),
        ),
        block_well_formed(*block) ==> forall|i: int|
            0 <= i < r@.len() ==> is_lower_hex_of_bytes((#[trigger] r@[i]).indexer, 20)
                && r@[i].tokens_amount[0] == '-' && parse_decimal(r@[i].tokens_amount) == Some(
                -withdrawal_events(graph@, block.transaction_traces@)[i].1,
            ),
{
    let txs = &block.transaction_traces;
    let mut out: Vec<OwnedStakeTokenChange> = Vec::new();
    let mut i: usize = 0;
    while i < txs.len()
        invariant
            i <= txs@.len(),
            out@.map_values(|r: OwnedStakeTokenChange| r@) == stake_withdrawals_of_transactions(
                graph@,
                txs@.take(i as int),
            ),
        decreases txs@.len() - i,
    {
        let tx = &txs[i];
        let ghost before = out@.map_values(|r: OwnedStakeTokenChange| r@);
        if tx.status == TRANSACTION_SUCCEEDED {
            match &tx.receipt_logs {
                Some(logs) => {
                    let mut j: usize = 0;
                    while j < logs.len()
                        invariant
                            j <= logs@.len(),
                            out@.map_values(|r: OwnedStakeTokenChange| r@) == before
                                + stake_withdrawals_of_logs(graph@, logs@.take(j as int)),
                        decreases logs@.len() - j,
                    {
                        let log = &logs[j];
                        let ghost mid = out@.map_values(|r: OwnedStakeTokenChange| r@);
                        match &log.event {
                            GraphEvent::StakeWithdrawn { indexer, tokens } => {
                                if bytes_equal(&log.address, graph) {
                                    let mut amount = String::new();
                                    proof {
                                        reveal_strlit("-");
                                    }
                                    amount.append("-");
                                    amount.append(tokens.to_decimal_string().as_str());
                                    let record = OwnedStakeTokenChange {
                                        indexer: hex_encode(indexer),
                                        tokens_amount: amount,
                                    };
                                    out.push(record);
                                    assert(record.tokens_amount@ =~= seq!['-'] + decimal_string(
                                        tokens.value(),
                                    ));
                                    assert(out@.map_values(|r: OwnedStakeTokenChange| r@)
                                        =~= mid.push(record@));
                                }
                            },
                            _ => {},
                        }
                        proof {
                            assert(logs@.take(j + 1).drop_last() =~= logs@.take(j as int));
                            assert(logs@.take(j + 1).last() == logs@[j as int]);
                            assert(out@.map_values(|r: OwnedStakeTokenChange| r@) =~= before
                                + stake_withdrawals_of_logs(graph@, logs@.take(j + 1)));
                        }
                        j = j + 1;
                    }
                    assert(logs@.take(logs@.len() as int) =~= logs@);
                },
                None => {
                    assert(succeeded(txs@[i as int]));
                },
            }
        }
        proof {
            assert(txs@.take(i + 1).drop_last() =~= txs@.take(i as int));
            assert(txs@.take(i + 1).last() == txs@[i as int]);
            assert(out@.map_values(|r: OwnedStakeTokenChange| r@)
                =~= stake_withdrawals_of_transactions(graph@, txs@.take(i + 1)));
        }
        i = i + 1;
    }
    assert(txs@.take(txs@.len() as int) =~= txs@);
    proof {
        lemma_withdrawals_match(graph@, txs@);
        if block_well_formed(*block) {
            let events = withdrawal_events(graph@, txs@);
            assert forall|i: int| 0 <= i < out@.len() implies is_lower_hex_of_bytes(
                (#[trigger] out@[i])@.indexer,
                20,
            ) && out@[i]@.tokens_amount[0] == '-' && parse_decimal(out@[i]@.tokens_amount) == Some(
                -events[i].1,
            ) by {
                assert(out@[i]@ == out@.map_values(|r: OwnedStakeTokenChange| r@)[i]);
                lemma_withdrawal_record_shape(events[i]);
            }
        }
    }
    OwnedStakeTokenChanges { owned_stake_token_changes: out }
}

/// The record of a closed allocation: indexer, deployment, allocation and
/// proof of indexing in hexadecimal, the tokens in decimal, the hash of the
/// transaction in hexadecimal.
pub open spec fn closed_allocation_record(c: ClosedAllocation, tx_hash: Seq<u8>) -> AllocationClosedDataView {
    AllocationClosedDataView {
        address: lower_hex(c.indexer@),
        deployment_id: lower_hex(c.subgraph_deployment_id@),
        tokens: decimal_string(c.tokens.value()),
        allocation_id: lower_hex(c.allocation_id@),
        poi: lower_hex(c.poi@),
        transaction_hash: lower_hex(tx_hash),
    }
}

/// The event of a log as an allocation closed by the given version of the
/// event (1 or 2).
pub open spec fn closed_allocation_of(version: int, e: GraphEvent) -> Option<ClosedAllocation> {
    match e {
        GraphEvent::AllocationClosed1(c) => if version == 1 {
            Some(c)
        } else {
            None
        },
        GraphEvent::AllocationClosed2(c) => if version == 2 {
            Some(c)
        } else {
            None
        },
        _ => None,
    }
}

/// The closed-allocation records of a run of receipt logs: the events of
/// the given version that the staking contract emitted.
pub open spec fn closed_allocations_of_logs(
    version: int,
    graph: Seq<u8>,
    tx_hash: Seq<u8>,
    logs: Seq<EventLog>,
) -> Seq<AllocationClosedDataView>
    decreases logs.len(),
{
    if logs.len() == 0 {
        Seq::empty()
    } else {
        closed_allocations_of_logs(version, graph, tx_hash, logs.drop_last()) + match closed_allocation_of(
            version,
            logs.last().event,
        ) {
            Some(c) => if logs.last().address@ == graph {
                seq![closed_allocation_record(c, tx_hash)]
            } else {
                Seq::empty()
            },
            None => Seq::empty(),
        }
    }
}

/// The closed-allocation records of the receipts of the successful
/// transactions.
pub open spec fn closed_allocations_of_transactions(
    version: int,
    graph: Seq<u8>,
    txs: Seq<Transaction>,
) -> Seq<AllocationClosedDataView>
    decreases txs.len(),
{
    if txs.len() == 0 {
        Seq::empty()
    } else {
        closed_allocations_of_transactions(version, graph, txs.drop_last()) + if succeeded(
            txs.last(),
        ) {
            closed_allocations_of_logs(version, graph, txs.last().hash@, receipt_logs_of(txs.last()))
        } else {
            Seq::empty()
        }
    }
}

/// The record of a closed allocation, the indexer lower-cased where
/// `lower_indexer` is set.
fn closed_allocation_data(c: &ClosedAllocation, tx_hash: &Vec<u8>, lower_indexer: bool) -> (r:
    AllocationClosedData)
    ensures
        r@ == closed_allocation_record(*c, tx_hash@),
{
    let address = if lower_indexer {
        let text = hex_encode(&c.indexer);
        proof {
            lemma_lowercase_of_hex(c.indexer@);
        }
        to_lowercase(text.as_str())
    } else {
        hex_encode(&c.indexer)
    };
    AllocationClosedData {
        address,
        deployment_id: hex_encode(&c.subgraph_deployment_id),
        tokens: c.tokens.to_decimal_string(),
        allocation_id: hex_encode(&c.allocation_id),
        poi: hex_encode(&c.poi),
        transaction_hash: hex_encode(tx_hash),
    }
}

/// The closed allocations of one version of the event in a block.
fn closed_allocations(version: u8, graph: &[u8], block: &Block) -> (r: AllocationClosedDatas)
    requires
        version == 1 || version == 2,
        receipts_present(*block),
    ensures
        r@ == closed_allocations_of_transactions(version as int, graph@, block.transaction_traces@),
        block_well_formed(*block) ==> all_closed_allocation_shaped(r@),
{
    let txs = &block.transaction_traces;
    let mut out: Vec<AllocationClosedData> = Vec::new();
    let mut i: usize = 0;
    while i < txs.len()
        invariant
            version == 1 || version == 2,
            i <= txs@.len(),
            out@.map_values(|r: AllocationClosedData| r@) == closed_allocations_of_transactions(
                version as int,
                graph@,
                txs@.take(i as int),
            ),
        decreases txs@.len() - i,
    {
        let tx = &txs[i];
        let ghost before = out@.map_values(|r: AllocationClosedData| r@);
        if tx.status == TRANSACTION_SUCCEEDED {
            match &tx.receipt_logs {
                Some(logs) => {
                    let mut j: usize = 0;
                    while j < logs.len()
                        invariant
                            version == 1 || version == 2,
                            j <= logs@.len(),
                            out@.map_values(|r: AllocationClosedData| r@) == before
                                + closed_allocations_of_logs(
                                version as int,
                                graph@,
                                tx.hash@,
                                logs@.take(j as int),
                            ),
                        decreases logs@.len() - j,
                    {
                        let log = &logs[j];
                        let ghost mid = out@.map_values(|r: AllocationClosedData| r@);
                        let closed: Option<&ClosedAllocation> = match &log.event {
                            GraphEvent::AllocationClosed1(c) => if version == 1 {
                                Some(c)
                            } else {
                                None
                            },
                            GraphEvent::AllocationClosed2(c) => if version == 2 {
                                Some(c)
                            } else {
                                None
                            },
                            _ => None,
                        };
                        match closed {
                            Some(c) => {
                                if bytes_equal(&log.address, graph) {
                                    let record = closed_allocation_data(c, &tx.hash, version == 2);
                                    out.push(record);
                                    assert(out@.map_values(|r: AllocationClosedData| r@) =~= mid.push(
                                        record@,
                                    ));
                                }
                            },
                            None => {},
                        }
                        proof {
                            assert(logs@.take(j + 1).drop_last() =~= logs@.take(j as int));
                            assert(logs@.take(j + 1).last() == logs@[j as int]);
                            assert(out@.map_values(|r: AllocationClosedData| r@) =~= before
                                + closed_allocations_of_logs(
                                version as int,
                                graph@,
                                tx.hash@,
                                logs@.take(j + 1),
                            ));
                        }
                        j = j + 1;
                    }
                    assert(logs@.take(logs@.len() as int) =~= logs@);
                },
                None => {
                    assert(succeeded(txs@[i as int]));
                },
            }
        }
        proof {
            assert(txs@.take(i + 1).drop_last() =~= txs@.take(i as int));
            assert(txs@.take(i + 1).last() == txs@[i as int]);
            assert(out@.map_values(|r: AllocationClosedData| r@)
                =~= closed_allocations_of_transactions(version as int, graph@, txs@.take(i + 1)));
        }
        i = i + 1;
    }
    assert(txs@.take(txs@.len() as int) =~= txs@);
    proof {
        if block_well_formed(*block) {
            lemma_closed_allocation_transactions_shaped(version as int, graph@, txs@);
        }
    }
    AllocationClosedDatas { allocation_closed_datas: out }
}

/// The allocations closed in a block by the first version of the
/// `AllocationClosed` event that the staking contract (`graph`) emitted in
/// the receipts of successful transactions. Every successful transaction
/// must carry a receipt.
pub fn map_allocation_closed1(graph: &[u8], block: &Block) -> (r: AllocationClosedDatas)
    requires
        receipts_present(*block),
    ensures
        r@ == closed_allocations_of_transactions(1, graph@, block.transaction_traces@),
        block_well_formed(*block) ==> all_closed_allocation_shaped(r@),
{
    closed_allocations(1, graph, block)
}

/// The allocations closed in a block by the second version of the
/// `AllocationClosed` event, the indexer address lower-cased (which leaves
/// hexadecimal text as it is). Every successful transaction must carry a
/// receipt.
pub fn map_allocation_closed2(graph: &[u8], block: &Block) -> (r: AllocationClosedDatas)
    requires
        receipts_present(*block),
    ensures
        r@ == closed_allocations_of_transactions(2, graph@, block.transaction_traces@),
        block_well_formed(*block) ==> all_closed_allocation_shaped(r@),
{
    closed_allocations(2, graph, block)
}

/// The closed allocations of the indexers that the filter keeps, in order.
pub open spec fn kept_allocations(filter: IndexerFilter, s: Seq<AllocationClosedDataView>) -> Seq<
    AllocationClosedDataView,
> {
    s.filter(|a: AllocationClosedDataView| filter.admits(a.address))
}

/// Appends to `out` the closed allocations of `from` whose indexer the
/// filter keeps.
fn append_kept_allocations(
    filter: &IndexerFilter,
    from: &Vec<AllocationClosedData>,
    out: &mut Vec<AllocationClosedData>,
)
    ensures
        final(out)@.map_values(|r: AllocationClosedData| r@) == old(out)@.map_values(
            |r: AllocationClosedData| r@,
        ) + kept_allocations(*filter, from@.map_values(|r: AllocationClosedData| r@)),
{
    let ghost start = out@.map_values(|r: AllocationClosedData| r@);
    let ghost views = from@.map_values(|r: AllocationClosedData| r@);
    let ghost keep = |a: AllocationClosedDataView| filter.admits(a.address);
    let mut i: usize = 0;
    while i < from.len()
        invariant
            i <= from@.len(),
            views == from@.map_values(|r: AllocationClosedData| r@),
            keep == (|a: AllocationClosedDataView| filter.admits(a.address)),
            out@.map_values(|r: AllocationClosedData| r@) == start + views.take(i as int).filter(
                keep,
            ),
        decreases from@.len() - i,
    {
        let ghost mid = out@.map_values(|r: AllocationClosedData| r@);
        let x = &from[i];
        if filter.admits_indexer(&x.address) {
            out.push(x.duplicate());
            assert(out@.map_values(|r: AllocationClosedData| r@) =~= mid.push(x@));
        }
        proof {
            assert(views.take(i + 1).drop_last() =~= views.take(i as int));
            assert(views.take(i + 1).last() == x@);
            reveal(Seq::filter);
            assert(views.take(i + 1).filter(keep) == if keep(x@) {
                views.take(i as int).filter(keep).push(x@)
            } else {
                views.take(i as int).filter(keep)
            });
            assert(out@.map_values(|r: AllocationClosedData| r@) =~= start + views.take(
                i + 1,
            ).filter(keep));
        }
        i = i + 1;
    }
    assert(views.take(from@.len() as int) =~= views);
}

/// The allocations closed by either version of the event, for the indexers
/// that the filter keeps: those of the first version, then those of the
/// second, each in their order.
pub fn map_allocation_closed(
    filter: &IndexerFilter,
    allocation_closed1: &AllocationClosedDatas,
    allocation_closed2: &AllocationClosedDatas,
) -> (r: AllocationClosedDatas)
    ensures
        r@ == kept_allocations(*filter, allocation_closed1@) + kept_allocations(
            *filter,
            allocation_closed2@,
        ),
{
    let mut res: Vec<AllocationClosedData> = Vec::new();
    append_kept_allocations(filter, &allocation_closed1.allocation_closed_datas, &mut res);
    append_kept_allocations(filter, &allocation_closed2.allocation_closed_datas, &mut res);
    assert(Seq::<AllocationClosedDataView>::empty() + kept_allocations(*filter, allocation_closed1@)
        =~= kept_allocations(*filter, allocation_closed1@));
    AllocationClosedDatas { allocation_closed_datas: res }
}

} // verus!
