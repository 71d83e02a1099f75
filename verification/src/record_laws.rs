//! Laws that tie each record of the modules to the event it reports, and
//! each event to the record it must give: which logs count, which fields the
//! record holds, and what amount its decimal text reads back as; and laws
//! that tie the store additions, snapshots and rows to the records and
//! lookups they are made of.

use vstd::prelude::*;
use crate::amount::{lemma_decimal_round_trip, lemma_negated_decimal_round_trip, parse_decimal};
use crate::chain::{succeeded, ClosedAllocation, EventLog, GraphEvent, Transaction};
use crate::filter::IndexerFilter;
use crate::maps::{
    has_rewards_assigned, has_transfer, stake_withdrawal_of_log, stake_withdrawals_of_logs, stake_withdrawals_of_transactions,
    closed_allocations_of_logs, closed_allocations_of_transactions, receipt_logs_of,
    deposits_stake_directly, has_allocation_closed, stake_deposit_of_log, stake_deposits_of_logs,
    stake_deposits_of_transactions, indexing_reward_of_log, indexing_rewards_of_logs, indexing_rewards_of_transactions,
    pays_indexing_rewards, query_fee_of_log, query_fees_of_logs, query_fees_of_transactions,
};
use crate::module_laws::law_deposits_ignore_indirect_transaction;
use crate::records::{
    AllocationClosedDataView, IndexingRewardsCollectedView, OwnedStakeTokenChangeView,
    QueryFeesCollectedView, StakedTokensChangeView,
};
use crate::amount::Amount;
use crate::sink::{names_distinct, snapshot_rows, staked_tokens_of, staked_tokens_record, StakeLookup};
use crate::stores::{query_fee_additions, rewards_additions};
use crate::text::{lower_hex, lowercase};

verus! {

/// A `Transfer` out of the staking contract to an indexer that the filter
/// keeps.
pub open spec fn is_reward_transfer(filter: IndexerFilter, graph: Seq<u8>, e: GraphEvent) -> bool {
    &&& e is Transfer
    &&& e->from@ == graph
    &&& filter.admits(lower_hex(e->to@))
}

/// `r` reports the transfer `e`: the receiver in hexadecimal, no allocation,
/// and rewards text that reads back as the transferred amount.
pub open spec fn reports_transfer(e: GraphEvent, r: IndexingRewardsCollectedView) -> bool {
    &&& r.indexer == lower_hex(e->to@)
    &&& r.allocation_id == Seq::<char>::empty()
    &&& parse_decimal(r.rewards) == Some(e->value.value())
}

/// A `RebateCollected` event emitted by the staking contract, for an indexer
/// that the filter keeps.
pub open spec fn is_fee_rebate(filter: IndexerFilter, graph: Seq<u8>, log: EventLog) -> bool {
    &&& log.address@ == graph
    &&& log.event is RebateCollected
    &&& filter.admits(lower_hex(log.event->RebateCollected_indexer@))
}

/// `r` reports the rebate `e`: indexer, deployment and allocation in
/// hexadecimal, and fee text that reads back as the query rebates.
pub open spec fn reports_rebate(e: GraphEvent, r: QueryFeesCollectedView) -> bool {
    &&& r.indexer == lower_hex(e->RebateCollected_indexer@)
    &&& r.deployment_id == lower_hex(e->subgraph_deployment_id@)
    &&& r.allocation_id == lower_hex(e->allocation_id@)
    &&& parse_decimal(r.query_fees) == Some(e->query_rebates.value())
}

/// Some log of the run is a rewards transfer that `r` reports.
pub open spec fn reported_by_logs(
    filter: IndexerFilter,
    graph: Seq<u8>,
    logs: Seq<EventLog>,
    r: IndexingRewardsCollectedView,
) -> bool {
    exists|j: int|
        0 <= j < logs.len() && is_reward_transfer(filter, graph, logs[j].event)
            && #[trigger] reports_transfer(logs[j].event, r)
}

/// Some successful transaction of the run pays indexing rewards and holds a
/// rewards transfer that `r` reports.
pub open spec fn reported_by_transactions(
    filter: IndexerFilter,
    graph: Seq<u8>,
    txs: Seq<Transaction>,
    r: IndexingRewardsCollectedView,
) -> bool {
    exists|k: int|
        0 <= k < txs.len() && succeeded(txs[k]) && pays_indexing_rewards(graph, txs[k].call_logs@)
            && #[trigger] reported_by_logs(filter, graph, txs[k].call_logs@, r)
}

proof fn lemma_reward_logs_complete(filter: IndexerFilter, graph: Seq<u8>, logs: Seq<EventLog>, j: int)
    requires
        0 <= j < logs.len(),
        is_reward_transfer(filter, graph, logs[j].event),
    ensures
        exists|i: int|
            0 <= i < indexing_rewards_of_logs(filter, graph, logs).len() && #[trigger] reports_transfer(
                logs[j].event,
                indexing_rewards_of_logs(filter, graph, logs)[i],
            ),
    decreases logs.len(),
{
    let all = indexing_rewards_of_logs(filter, graph, logs);
    let pre = indexing_rewards_of_logs(filter, graph, logs.drop_last());
    let last = indexing_reward_of_log(filter, graph, logs.last());
    assert(all == pre + last);
    if j == logs.len() - 1 {
        let e = logs.last().event;
        lemma_decimal_round_trip(e->value.value());
        assert(last.len() == 1);
        assert(all[pre.len() as int] == last[0]);
        assert(reports_transfer(logs[j].event, all[pre.len() as int]));
    } else {
        assert(logs.drop_last()[j] == logs[j]);
        lemma_reward_logs_complete(filter, graph, logs.drop_last(), j);
        let i0 = choose|i: int|
            0 <= i < pre.len() && #[trigger] reports_transfer(logs.drop_last()[j].event, pre[i]);
        assert(all[i0] == pre[i0]);
        assert(reports_transfer(logs[j].event, all[i0]));
    }
}

proof fn lemma_reward_logs_sound(filter: IndexerFilter, graph: Seq<u8>, logs: Seq<EventLog>)
    ensures
        forall|i: int|
            0 <= i < indexing_rewards_of_logs(filter, graph, logs).len() ==> reported_by_logs(
                filter,
                graph,
                logs,
                #[trigger] indexing_rewards_of_logs(filter, graph, logs)[i],
            ),
    decreases logs.len(),
{
    if logs.len() > 0 {
        lemma_reward_logs_sound(filter, graph, logs.drop_last());
        let all = indexing_rewards_of_logs(filter, graph, logs);
        let pre = indexing_rewards_of_logs(filter, graph, logs.drop_last());
        let last = indexing_reward_of_log(filter, graph, logs.last());
        assert(all == pre + last);
        assert forall|i: int| 0 <= i < all.len() implies reported_by_logs(
            filter,
            graph,
            logs,
            #[trigger] all[i],
        ) by {
            if i < pre.len() {
                assert(reported_by_logs(filter, graph, logs.drop_last(), pre[i]));
                let j = choose|j: int|
                    0 <= j < logs.drop_last().len() && is_reward_transfer(
                        filter,
                        graph,
                        logs.drop_last()[j].event,
                    ) && #[trigger] reports_transfer(logs.drop_last()[j].event, pre[i]);
                assert(logs.drop_last()[j] == logs[j]);
                assert(all[i] == pre[i]);
                assert(reports_transfer(logs[j].event, all[i]));
            } else {
                let n = logs.len() - 1;
                assert(logs[n] == logs.last());
                assert(last.len() == 1);
                lemma_decimal_round_trip(logs[n].event->value.value());
                assert(all[i] == last[0]);
                assert(reports_transfer(logs[n].event, all[i]));
            }
        }
    } else {
        assert(indexing_rewards_of_logs(filter, graph, logs).len() == 0);
    }
}

/// Rewards law: which contract emitted a log plays no part in the rewards
/// records of a run of logs; giving one log another emitter, its event kept,
/// leaves them as they are.
pub proof fn law_rewards_ignore_emitter(
    filter: IndexerFilter,
    graph: Seq<u8>,
    logs: Seq<EventLog>,
    j: int,
    relabelled: EventLog,
)
    requires
        0 <= j < logs.len(),
        relabelled.event == logs[j].event,
    ensures
        indexing_rewards_of_logs(filter, graph, logs.update(j, relabelled))
            == indexing_rewards_of_logs(filter, graph, logs),
    decreases logs.len(),
{
    let changed = logs.update(j, relabelled);
    if j == logs.len() - 1 {
        assert(changed.drop_last() =~= logs.drop_last());
        assert(changed.last() == relabelled);
        assert(indexing_reward_of_log(filter, graph, relabelled) == indexing_reward_of_log(
            filter,
            graph,
            logs.last(),
        ));
    } else {
        assert(changed.drop_last() =~= logs.drop_last().update(j, relabelled));
        assert(changed.last() == logs.last());
        law_rewards_ignore_emitter(filter, graph, logs.drop_last(), j, relabelled);
    }
}

proof fn lemma_reward_transactions_complete(
    filter: IndexerFilter,
    graph: Seq<u8>,
    txs: Seq<Transaction>,
    k: int,
    j: int,
)
    requires
        0 <= k < txs.len(),
        succeeded(txs[k]),
        pays_indexing_rewards(graph, txs[k].call_logs@),
        0 <= j < txs[k].call_logs@.len(),
        is_reward_transfer(filter, graph, txs[k].call_logs@[j].event),
    ensures
        exists|i: int|
            0 <= i < indexing_rewards_of_transactions(filter, graph, txs).len()
                && #[trigger] reports_transfer(
                txs[k].call_logs@[j].event,
                indexing_rewards_of_transactions(filter, graph, txs)[i],
            ),
    decreases txs.len(),
{
    let all = indexing_rewards_of_transactions(filter, graph, txs);
    let pre = indexing_rewards_of_transactions(filter, graph, txs.drop_last());
    if k == txs.len() - 1 {
        let logs = txs.last().call_logs@;
        assert(txs.last() == txs[k]);
        lemma_reward_logs_complete(filter, graph, logs, j);
        let tail = indexing_rewards_of_logs(filter, graph, logs);
        assert(all == pre + tail);
        let i0 = choose|i: int| 0 <= i < tail.len() && #[trigger] reports_transfer(logs[j].event, tail[i]);
        assert(all[pre.len() + i0] == tail[i0]);
        assert(reports_transfer(txs[k].call_logs@[j].event, all[pre.len() + i0]));
    } else {
        assert(txs.drop_last()[k] == txs[k]);
        lemma_reward_transactions_complete(filter, graph, txs.drop_last(), k, j);
        let i0 = choose|i: int|
            0 <= i < pre.len() && #[trigger] reports_transfer(txs[k].call_logs@[j].event, pre[i]);
        let tail: Seq<IndexingRewardsCollectedView> = if succeeded(txs.last())
            && pays_indexing_rewards(graph, txs.last().call_logs@) {
            indexing_rewards_of_logs(filter, graph, txs.last().call_logs@)
        } else {
            Seq::empty()
        };
        assert(all == pre + tail);
        assert(all[i0] == pre[i0]);
    }
}

/// Rewards law: in a successful transaction with a log of the staking
/// contract and a `RewardsAssigned` log, every `Transfer` out of the staking
/// contract to a kept indexer gives a record of the receiver whose rewards
/// read back as the amount, whichever contract emitted the transfer's log.
pub proof fn law_rewards_record_every_transfer(
    filter: IndexerFilter,
    graph: Seq<u8>,
    txs: Seq<Transaction>,
    k: int,
    from_graph: int,
    assigned: int,
    j: int,
)
    requires
        0 <= k < txs.len(),
        succeeded(txs[k]),
        0 <= from_graph < txs[k].call_logs@.len(),
        txs[k].call_logs@[from_graph].address@ == graph,
        0 <= assigned < txs[k].call_logs@.len(),
        txs[k].call_logs@[assigned].event is RewardsAssigned,
        0 <= j < txs[k].call_logs@.len(),
        is_reward_transfer(filter, graph, txs[k].call_logs@[j].event),
    ensures
        exists|i: int|
            0 <= i < indexing_rewards_of_transactions(filter, graph, txs).len()
                && #[trigger] reports_transfer(
                txs[k].call_logs@[j].event,
                indexing_rewards_of_transactions(filter, graph, txs)[i],
            ),
{
    let logs = txs[k].call_logs@;
    assert(logs[from_graph].address@ == graph);
    assert(logs[assigned].event is RewardsAssigned);
    assert(logs[j].event is Transfer);
    assert(pays_indexing_rewards(graph, logs));
    lemma_reward_transactions_complete(filter, graph, txs, k, j);
}

/// Rewards law: every rewards record reports a `Transfer` out of the staking
/// contract to a kept indexer, made in a successful transaction that pays
/// indexing rewards.
pub proof fn law_rewards_records_come_from_transfers(
    filter: IndexerFilter,
    graph: Seq<u8>,
    txs: Seq<Transaction>,
)
    ensures
        forall|i: int|
            0 <= i < indexing_rewards_of_transactions(filter, graph, txs).len()
                ==> reported_by_transactions(
                filter,
                graph,
                txs,
                #[trigger] indexing_rewards_of_transactions(filter, graph, txs)[i],
            ),
    decreases txs.len(),
{
    if txs.len() > 0 {
        law_rewards_records_come_from_transfers(filter, graph, txs.drop_last());
        let all = indexing_rewards_of_transactions(filter, graph, txs);
        let pre = indexing_rewards_of_transactions(filter, graph, txs.drop_last());
        let n = txs.len() - 1;
        assert(txs[n] == txs.last());
        let logs = txs.last().call_logs@;
        let pays = succeeded(txs.last()) && pays_indexing_rewards(graph, logs);
        let tail: Seq<IndexingRewardsCollectedView> = if pays {
            indexing_rewards_of_logs(filter, graph, logs)
        } else {
            Seq::empty()
        };
        assert(all == pre + tail);
        lemma_reward_logs_sound(filter, graph, logs);
        assert forall|i: int| 0 <= i < all.len() implies reported_by_transactions(
            filter,
            graph,
            txs,
            #[trigger] all[i],
        ) by {
            if i < pre.len() {
                assert(reported_by_transactions(filter, graph, txs.drop_last(), pre[i]));
                let k = choose|k: int|
                    0 <= k < txs.drop_last().len() && succeeded(txs.drop_last()[k])
                        && pays_indexing_rewards(graph, txs.drop_last()[k].call_logs@)
                        && #[trigger] reported_by_logs(
                        filter,
                        graph,
                        txs.drop_last()[k].call_logs@,
                        pre[i],
                    );
                assert(txs.drop_last()[k] == txs[k]);
                assert(all[i] == pre[i]);
                assert(reported_by_logs(filter, graph, txs[k].call_logs@, all[i]));
            } else {
                let m = i - pre.len();
                assert(pays);
                assert(all[i] == tail[m]);
                assert(reported_by_logs(filter, graph, txs[n].call_logs@, all[i]));
            }
        }
    } else {
        assert(indexing_rewards_of_transactions(filter, graph, txs).len() == 0);
    }
}

/// Some log of the run is a kept rebate of the staking contract that `r`
/// reports.
pub open spec fn rebate_reported_by_logs(
    filter: IndexerFilter,
    graph: Seq<u8>,
    logs: Seq<EventLog>,
    r: QueryFeesCollectedView,
) -> bool {
    exists|j: int|
        0 <= j < logs.len() && is_fee_rebate(filter, graph, logs[j])
            && #[trigger] reports_rebate(logs[j].event, r)
}

/// Some successful transaction of the run holds, among its call logs, a kept
/// rebate of the staking contract that `r` reports.
pub open spec fn rebate_reported_by_transactions(
    filter: IndexerFilter,
    graph: Seq<u8>,
    txs: Seq<Transaction>,
    r: QueryFeesCollectedView,
) -> bool {
    exists|k: int|
        0 <= k < txs.len() && succeeded(txs[k]) && #[trigger] rebate_reported_by_logs(
            filter,
            graph,
            txs[k].call_logs@,
            r,
        )
}

proof fn lemma_fee_logs_complete(filter: IndexerFilter, graph: Seq<u8>, logs: Seq<EventLog>, j: int)
    requires
        0 <= j < logs.len(),
        is_fee_rebate(filter, graph, logs[j]),
    ensures
        exists|i: int|
            0 <= i < query_fees_of_logs(filter, graph, logs).len() && #[trigger] reports_rebate(
                logs[j].event,
                query_fees_of_logs(filter, graph, logs)[i],
            ),
    decreases logs.len(),
{
    let all = query_fees_of_logs(filter, graph, logs);
    let pre = query_fees_of_logs(filter, graph, logs.drop_last());
    let last = query_fee_of_log(filter, graph, logs.last());
    assert(all == pre + last);
    if j == logs.len() - 1 {
        let e = logs.last().event;
        lemma_decimal_round_trip(e->query_rebates.value());
        assert(last.len() == 1);
        assert(all[pre.len() as int] == last[0]);
        assert(reports_rebate(logs[j].event, all[pre.len() as int]));
    } else {
        assert(logs.drop_last()[j] == logs[j]);
        lemma_fee_logs_complete(filter, graph, logs.drop_last(), j);
        let i0 = choose|i: int|
            0 <= i < pre.len() && #[trigger] reports_rebate(logs.drop_last()[j].event, pre[i]);
        assert(all[i0] == pre[i0]);
        assert(reports_rebate(logs[j].event, all[i0]));
    }
}

proof fn lemma_fee_logs_sound(filter: IndexerFilter, graph: Seq<u8>, logs: Seq<EventLog>)
    ensures
        forall|i: int|
            0 <= i < query_fees_of_logs(filter, graph, logs).len() ==> rebate_reported_by_logs(
                filter,
                graph,
                logs,
                #[trigger] query_fees_of_logs(filter, graph, logs)[i],
            ),
    decreases logs.len(),
{
    if logs.len() > 0 {
        lemma_fee_logs_sound(filter, graph, logs.drop_last());
        let all = query_fees_of_logs(filter, graph, logs);
        let pre = query_fees_of_logs(filter, graph, logs.drop_last());
        let last = query_fee_of_log(filter, graph, logs.last());
        assert(all == pre + last);
        assert forall|i: int| 0 <= i < all.len() implies rebate_reported_by_logs(
            filter,
            graph,
            logs,
            #[trigger] all[i],
        ) by {
            if i < pre.len() {
                assert(rebate_reported_by_logs(filter, graph, logs.drop_last(), pre[i]));
                let j = choose|j: int|
                    0 <= j < logs.drop_last().len() && is_fee_rebate(
                        filter,
                        graph,
                        logs.drop_last()[j],
                    ) && #[trigger] reports_rebate(logs.drop_last()[j].event, pre[i]);
                assert(logs.drop_last()[j] == logs[j]);
                assert(all[i] == pre[i]);
                assert(reports_rebate(logs[j].event, all[i]));
            } else {
                let n = logs.len() - 1;
                assert(logs[n] == logs.last());
                assert(last.len() == 1);
                lemma_decimal_round_trip(logs[n].event->query_rebates.value());
                assert(all[i] == last[0]);
                assert(reports_rebate(logs[n].event, all[i]));
            }
        }
    } else {
        assert(query_fees_of_logs(filter, graph, logs).len() == 0);
    }
}

/// Query-fee law: every `RebateCollected` event that the staking contract
/// emitted in a successful transaction, for a kept indexer, gives a record of
/// its indexer, deployment and allocation whose fees read back as the query
/// rebates, however large.
pub proof fn law_query_fees_record_every_rebate(
    filter: IndexerFilter,
    graph: Seq<u8>,
    txs: Seq<Transaction>,
    k: int,
    j: int,
)
    requires
        0 <= k < txs.len(),
        succeeded(txs[k]),
        0 <= j < txs[k].call_logs@.len(),
        is_fee_rebate(filter, graph, txs[k].call_logs@[j]),
    ensures
        exists|i: int|
            0 <= i < query_fees_of_transactions(filter, graph, txs).len() && #[trigger] reports_rebate(
                txs[k].call_logs@[j].event,
                query_fees_of_transactions(filter, graph, txs)[i],
            ),
    decreases txs.len(),
{
    let all = query_fees_of_transactions(filter, graph, txs);
    let pre = query_fees_of_transactions(filter, graph, txs.drop_last());
    if k == txs.len() - 1 {
        let logs = txs.last().call_logs@;
        assert(txs.last() == txs[k]);
        lemma_fee_logs_complete(filter, graph, logs, j);
        let tail = query_fees_of_logs(filter, graph, logs);
        assert(all == pre + tail);
        let i0 = choose|i: int| 0 <= i < tail.len() && #[trigger] reports_rebate(logs[j].event, tail[i]);
        assert(all[pre.len() + i0] == tail[i0]);
        assert(reports_rebate(txs[k].call_logs@[j].event, all[pre.len() + i0]));
    } else {
        assert(txs.drop_last()[k] == txs[k]);
        law_query_fees_record_every_rebate(filter, graph, txs.drop_last(), k, j);
        let i0 = choose|i: int|
            0 <= i < pre.len() && #[trigger] reports_rebate(txs[k].call_logs@[j].event, pre[i]);
        let tail: Seq<QueryFeesCollectedView> = if succeeded(txs.last()) {
            query_fees_of_logs(filter, graph, txs.last().call_logs@)
        } else {
            Seq::empty()
        };
        assert(all == pre + tail);
        assert(all[i0] == pre[i0]);
    }
}

/// Query-fee law: every query-fee record reports a `RebateCollected` event
/// that the staking contract emitted in a successful transaction, for a kept
/// indexer.
pub proof fn law_query_fees_records_come_from_rebates(
    filter: IndexerFilter,
    graph: Seq<u8>,
    txs: Seq<Transaction>,
)
    ensures
        forall|i: int|
            0 <= i < query_fees_of_transactions(filter, graph, txs).len()
                ==> rebate_reported_by_transactions(
                filter,
                graph,
                txs,
                #[trigger] query_fees_of_transactions(filter, graph, txs)[i],
            ),
    decreases txs.len(),
{
    if txs.len() > 0 {
        law_query_fees_records_come_from_rebates(filter, graph, txs.drop_last());
        let all = query_fees_of_transactions(filter, graph, txs);
        let pre = query_fees_of_transactions(filter, graph, txs.drop_last());
        let n = txs.len() - 1;
        assert(txs[n] == txs.last());
        let logs = txs.last().call_logs@;
        let tail: Seq<QueryFeesCollectedView> = if succeeded(txs.last()) {
            query_fees_of_logs(filter, graph, logs)
        } else {
            Seq::empty()
        };
        assert(all == pre + tail);
        lemma_fee_logs_sound(filter, graph, logs);
        assert forall|i: int| 0 <= i < all.len() implies rebate_reported_by_transactions(
            filter,
            graph,
            txs,
            #[trigger] all[i],
        ) by {
            if i < pre.len() {
                assert(rebate_reported_by_transactions(filter, graph, txs.drop_last(), pre[i]));
                let k = choose|k: int|
                    0 <= k < txs.drop_last().len() && succeeded(txs.drop_last()[k])
                        && #[trigger] rebate_reported_by_logs(
                        filter,
                        graph,
                        txs.drop_last()[k].call_logs@,
                        pre[i],
                    );
                assert(txs.drop_last()[k] == txs[k]);
                assert(all[i] == pre[i]);
                assert(rebate_reported_by_logs(filter, graph, txs[k].call_logs@, all[i]));
            } else {
                let m = i - pre.len();
                assert(succeeded(txs.last()));
                assert(all[i] == tail[m]);
                assert(rebate_reported_by_logs(filter, graph, txs[n].call_logs@, all[i]));
            }
        }
    } else {
        assert(query_fees_of_transactions(filter, graph, txs).len() == 0);
    }
}

/// Deposit law: a transaction with a call log of either version of
/// `AllocationClosed` adds no deposit record; removing it from the block
/// leaves the deposit records as they are.
pub proof fn law_deposits_skip_closing_transaction(txs: Seq<Transaction>, k: int, j: int)
    requires
        0 <= k < txs.len(),
        0 <= j < txs[k].call_logs@.len(),
        txs[k].call_logs@[j].event is AllocationClosed1 || txs[k].call_logs@[j].event is AllocationClosed2,
    ensures
        stake_deposits_of_transactions(txs) == stake_deposits_of_transactions(txs.remove(k)),
{
    let logs = txs[k].call_logs@;
    assert(logs[j].event is AllocationClosed1 || logs[j].event is AllocationClosed2);
    assert(has_allocation_closed(logs));
    law_deposits_ignore_indirect_transaction(txs, k);
}

/// No log of the run is an `AllocationClosed` event of either version.
pub open spec fn closes_no_allocation(logs: Seq<EventLog>) -> bool {
    forall|j: int|
        0 <= j < logs.len() ==> !((#[trigger] logs[j]).event is AllocationClosed1)
            && !(logs[j].event is AllocationClosed2)
}

/// `r` reports the deposit `e`: the indexer in hexadecimal and tokens text
/// that reads back as the deposited tokens.
pub open spec fn reports_deposit(e: GraphEvent, r: OwnedStakeTokenChangeView) -> bool {
    &&& e is StakeDeposited
    &&& r.indexer == lower_hex(e->StakeDeposited_indexer@)
    &&& parse_decimal(r.tokens_amount) == Some(e->StakeDeposited_tokens.value())
}

/// Some successful transaction of the run that closes no allocation holds a
/// deposit that `r` reports among its call logs.
pub open spec fn deposit_reported_by_transactions(
    txs: Seq<Transaction>,
    r: OwnedStakeTokenChangeView,
) -> bool {
    exists|k: int, j: int|
        0 <= k < txs.len() && succeeded(txs[k]) && closes_no_allocation(txs[k].call_logs@) && 0 <= j
            < txs[k].call_logs@.len() && #[trigger] reports_deposit(txs[k].call_logs@[j].event, r)
}

/// Some log of the run is a deposit that `r` reports.
pub open spec fn deposit_reported_by_logs(logs: Seq<EventLog>, r: OwnedStakeTokenChangeView) -> bool {
    exists|j: int| 0 <= j < logs.len() && #[trigger] reports_deposit(logs[j].event, r)
}

proof fn lemma_deposit_logs_sound(logs: Seq<EventLog>)
    ensures
        forall|i: int|
            0 <= i < stake_deposits_of_logs(logs).len() ==> deposit_reported_by_logs(
                logs,
                #[trigger] stake_deposits_of_logs(logs)[i],
            ),
    decreases logs.len(),
{
    if logs.len() > 0 {
        lemma_deposit_logs_sound(logs.drop_last());
        let all = stake_deposits_of_logs(logs);
        let pre = stake_deposits_of_logs(logs.drop_last());
        let last = stake_deposit_of_log(logs.last());
        assert(all == pre + last);
        assert forall|i: int| 0 <= i < all.len() implies deposit_reported_by_logs(
            logs,
            #[trigger] all[i],
        ) by {
            if i < pre.len() {
                assert(deposit_reported_by_logs(logs.drop_last(), pre[i]));
                let j = choose|j: int|
                    0 <= j < logs.drop_last().len() && #[trigger] reports_deposit(
                        logs.drop_last()[j].event,
                        pre[i],
                    );
                assert(logs.drop_last()[j] == logs[j]);
                assert(all[i] == pre[i]);
                assert(reports_deposit(logs[j].event, all[i]));
            } else {
                let n = logs.len() - 1;
                assert(logs[n] == logs.last());
                assert(last.len() == 1);
                lemma_decimal_round_trip(logs[n].event->StakeDeposited_tokens.value());
                assert(all[i] == last[0]);
                assert(reports_deposit(logs[n].event, all[i]));
            }
        }
    } else {
        assert(stake_deposits_of_logs(logs).len() == 0);
    }
}

/// Deposit law: every deposit record reports a `StakeDeposited` event among
/// the call logs of a successful transaction that closes no allocation.
pub proof fn law_deposits_come_from_non_closing_transactions(txs: Seq<Transaction>)
    ensures
        forall|i: int|
            0 <= i < stake_deposits_of_transactions(txs).len()
                ==> deposit_reported_by_transactions(
                txs,
                #[trigger] stake_deposits_of_transactions(txs)[i],
            ),
    decreases txs.len(),
{
    if txs.len() > 0 {
        law_deposits_come_from_non_closing_transactions(txs.drop_last());
        let all = stake_deposits_of_transactions(txs);
        let pre = stake_deposits_of_transactions(txs.drop_last());
        let n = txs.len() - 1;
        assert(txs[n] == txs.last());
        let logs = txs.last().call_logs@;
        let direct = succeeded(txs.last()) && deposits_stake_directly(logs);
        let tail: Seq<OwnedStakeTokenChangeView> = if direct {
            stake_deposits_of_logs(logs)
        } else {
            Seq::empty()
        };
        assert(all == pre + tail);
        lemma_deposit_logs_sound(logs);
        assert forall|i: int| 0 <= i < all.len() implies deposit_reported_by_transactions(
            txs,
            #[trigger] all[i],
        ) by {
            if i < pre.len() {
                assert(deposit_reported_by_transactions(txs.drop_last(), pre[i]));
                let (k, j) = choose|k: int, j: int|
                    0 <= k < txs.drop_last().len() && succeeded(txs.drop_last()[k])
                        && closes_no_allocation(txs.drop_last()[k].call_logs@) && 0 <= j
                        < txs.drop_last()[k].call_logs@.len() && #[trigger] reports_deposit(
                        txs.drop_last()[k].call_logs@[j].event,
                        pre[i],
                    );
                assert(txs.drop_last()[k] == txs[k]);
                assert(all[i] == pre[i]);
                assert(reports_deposit(txs[k].call_logs@[j].event, all[i]));
            } else {
                let m = i - pre.len();
                assert(direct);
                assert(all[i] == tail[m]);
                assert(deposit_reported_by_logs(logs, tail[m]));
                let j = choose|j: int| 0 <= j < logs.len() && #[trigger] reports_deposit(logs[j].event, tail[m]);
                assert forall|q: int| 0 <= q < logs.len() implies !((#[trigger] logs[q]).event is AllocationClosed1)
                    && !(logs[q].event is AllocationClosed2) by {
                    if logs[q].event is AllocationClosed1 || logs[q].event is AllocationClosed2 {
                        assert(has_allocation_closed(logs));
                    }
                }
                assert(closes_no_allocation(txs[n].call_logs@));
                assert(reports_deposit(txs[n].call_logs@[j].event, all[i]));
            }
        }
    } else {
        assert(stake_deposits_of_transactions(txs).len() == 0);
    }
}

/// Store law: the rewards store receives one addition per record, in order,
/// under the record's indexer, of the amount that the record's rewards text
/// parses to, however many digits it has; zero where the text does not
/// parse.
pub proof fn law_rewards_additions_read_records(records: Seq<IndexingRewardsCollectedView>)
    ensures
        rewards_additions(records).len() == records.len(),
        forall|i: int|
            #![trigger rewards_additions(records)[i]]
            0 <= i < records.len() ==> {
                &&& rewards_additions(records)[i].0 == records[i].indexer
                &&& parse_decimal(records[i].rewards) is Some ==> rewards_additions(records)[i].1
                    == parse_decimal(records[i].rewards)->0
                &&& parse_decimal(records[i].rewards) is None ==> rewards_additions(records)[i].1
                    == 0
            },
{
}

/// Store law: the query-fee store receives one addition per record, in
/// order, under the record's indexer, of the amount that the record's fee
/// text parses to, however many digits it has; zero where the text does not
/// parse.
pub proof fn law_query_fee_additions_read_records(records: Seq<QueryFeesCollectedView>)
    ensures
        query_fee_additions(records).len() == records.len(),
        forall|i: int|
            #![trigger query_fee_additions(records)[i]]
            0 <= i < records.len() ==> {
                &&& query_fee_additions(records)[i].0 == records[i].indexer
                &&& parse_decimal(records[i].query_fees) is Some ==> query_fee_additions(
                    records,
                )[i].1 == parse_decimal(records[i].query_fees)->0
                &&& parse_decimal(records[i].query_fees) is None ==> query_fee_additions(
                    records,
                )[i].1 == 0
            },
{
}

/// The value of a looked-up store total as the snapshot must show it: the
/// total where the store holds one, zero where it holds nothing.
pub open spec fn looked_up_total(a: Option<Amount>) -> int {
    if a is Some {
        a->0.value()
    } else {
        0
    }
}

/// The snapshot `s` reports the closed allocation `a` whose lookups gave
/// `l`: the staked-tokens call succeeded; the indexer is the lower-cased
/// address; block number and transaction hash are those of the allocation;
/// and the staked tokens and the three store totals read back as what the
/// call and the stores gave, whatever the call gave.
pub open spec fn snapshot_reports(
    block_number: u64,
    a: AllocationClosedDataView,
    l: StakeLookup,
    s: StakedTokensChangeView,
) -> bool {
    &&& l.staked_tokens is Some
    &&& s.indexer == lowercase(a.address)
    &&& s.block_number == block_number
    &&& s.transaction_hash == a.transaction_hash
    &&& parse_decimal(s.tokens) == Some(l.staked_tokens->0.value())
    &&& parse_decimal(s.stake) == Some(looked_up_total(l.stake))
    &&& parse_decimal(s.query_fees) == Some(looked_up_total(l.query_fees))
    &&& parse_decimal(s.indexing_rewards) == Some(looked_up_total(l.indexing_rewards))
}

proof fn lemma_snapshot_record_reports(
    block_number: u64,
    a: AllocationClosedDataView,
    t: Amount,
    l: StakeLookup,
)
    requires
        l.staked_tokens == Some(t),
    ensures
        snapshot_reports(block_number, a, l, staked_tokens_record(block_number, a, t, l)),
{
    lemma_decimal_round_trip(t.value());
    lemma_decimal_round_trip(looked_up_total(l.stake));
    lemma_decimal_round_trip(looked_up_total(l.query_fees));
    lemma_decimal_round_trip(looked_up_total(l.indexing_rewards));
}

/// Snapshot law: where every staked-tokens call succeeded, each closed
/// allocation gives one snapshot, in order, that reports it; in particular
/// its stake reads back as the stake store's total, and as zero where the
/// store holds nothing, whatever the staked-tokens call gave.
pub proof fn law_snapshots_when_every_call_succeeds(
    block_number: u64,
    allocations: Seq<AllocationClosedDataView>,
    lookups: Seq<StakeLookup>,
)
    requires
        lookups.len() == allocations.len(),
        forall|i: int| 0 <= i < lookups.len() ==> (#[trigger] lookups[i]).staked_tokens is Some,
    ensures
        staked_tokens_of(block_number, allocations, lookups).len() == allocations.len(),
        forall|i: int|
            #![trigger staked_tokens_of(block_number, allocations, lookups)[i]]
            0 <= i < allocations.len() ==> snapshot_reports(
                block_number,
                allocations[i],
                lookups[i],
                staked_tokens_of(block_number, allocations, lookups)[i],
            ),
    decreases allocations.len(),
{
    if allocations.len() > 0 {
        let n = allocations.len() - 1;
        let pre_a = allocations.drop_last();
        let pre_l = lookups.drop_last();
        assert forall|i: int| 0 <= i < pre_l.len() implies (#[trigger] pre_l[i]).staked_tokens is Some by {
            assert(pre_l[i] == lookups[i]);
        }
        law_snapshots_when_every_call_succeeds(block_number, pre_a, pre_l);
        let out = staked_tokens_of(block_number, allocations, lookups);
        let pre = staked_tokens_of(block_number, pre_a, pre_l);
        assert(lookups[n] == lookups.last());
        assert(allocations[n] == allocations.last());
        let t = lookups.last().staked_tokens->0;
        let rec = staked_tokens_record(block_number, allocations.last(), t, lookups.last());
        assert(out == pre + seq![rec]);
        lemma_snapshot_record_reports(block_number, allocations.last(), t, lookups.last());
        assert forall|i: int| 0 <= i < allocations.len() implies snapshot_reports(
            block_number,
            allocations[i],
            lookups[i],
            #[trigger] out[i],
        ) by {
            if i < n {
                assert(pre_a[i] == allocations[i]);
                assert(pre_l[i] == lookups[i]);
                assert(out[i] == pre[i]);
            } else {
                assert(out[i] == rec);
            }
        }
    } else {
        assert(staked_tokens_of(block_number, allocations, lookups).len() == 0);
    }
}

/// Some closed allocation of the run, with its lookups, is what `s`
/// reports.
pub open spec fn snapshot_of_some_allocation(
    block_number: u64,
    allocations: Seq<AllocationClosedDataView>,
    lookups: Seq<StakeLookup>,
    s: StakedTokensChangeView,
) -> bool {
    exists|i: int|
        0 <= i < allocations.len() && #[trigger] snapshot_reports(
            block_number,
            allocations[i],
            lookups[i],
            s,
        )
}

/// Snapshot law: there are at most as many snapshots as closed allocations,
/// and every snapshot reports a closed allocation whose staked-tokens call
/// succeeded, with the totals that its lookups gave.
pub proof fn law_snapshots_come_from_allocations(
    block_number: u64,
    allocations: Seq<AllocationClosedDataView>,
    lookups: Seq<StakeLookup>,
)
    ensures
        staked_tokens_of(block_number, allocations, lookups).len() <= allocations.len(),
        forall|p: int|
            0 <= p < staked_tokens_of(block_number, allocations, lookups).len()
                ==> snapshot_of_some_allocation(
                block_number,
                allocations,
                lookups,
                #[trigger] staked_tokens_of(block_number, allocations, lookups)[p],
            ),
    decreases allocations.len(),
{
    if allocations.len() > 0 && lookups.len() == allocations.len() {
        let n = allocations.len() - 1;
        let pre_a = allocations.drop_last();
        let pre_l = lookups.drop_last();
        law_snapshots_come_from_allocations(block_number, pre_a, pre_l);
        let out = staked_tokens_of(block_number, allocations, lookups);
        let pre = staked_tokens_of(block_number, pre_a, pre_l);
        assert(lookups[n] == lookups.last());
        assert(allocations[n] == allocations.last());
        let tail: Seq<StakedTokensChangeView> = match lookups.last().staked_tokens {
            Some(t) => seq![staked_tokens_record(block_number, allocations.last(), t, lookups.last())],
            None => Seq::empty(),
        };
        assert(out == pre + tail);
        assert forall|p: int| 0 <= p < out.len() implies snapshot_of_some_allocation(
            block_number,
            allocations,
            lookups,
            #[trigger] out[p],
        ) by {
            if p < pre.len() {
                assert(snapshot_of_some_allocation(block_number, pre_a, pre_l, pre[p]));
                let i = choose|i: int|
                    0 <= i < pre_a.len() && #[trigger] snapshot_reports(
                        block_number,
                        pre_a[i],
                        pre_l[i],
                        pre[p],
                    );
                assert(pre_a[i] == allocations[i]);
                assert(pre_l[i] == lookups[i]);
                assert(out[p] == pre[p]);
                assert(snapshot_reports(block_number, allocations[i], lookups[i], out[p]));
            } else {
                let t = lookups.last().staked_tokens->0;
                assert(out[p] == tail[0]);
                lemma_snapshot_record_reports(block_number, allocations.last(), t, lookups.last());
                assert(snapshot_reports(block_number, allocations[n], lookups[n], out[p]));
            }
        }
    } else {
        assert(staked_tokens_of(block_number, allocations, lookups).len() == 0);
    }
}

/// `r` reports the closed allocation `c` of the transaction with hash
/// `tx_hash`: indexer, deployment, allocation, proof of indexing and hash in
/// hexadecimal, and tokens text that reads back as the allocated tokens.
pub open spec fn reports_closed(c: ClosedAllocation, tx_hash: Seq<u8>, r: AllocationClosedDataView) -> bool {
    &&& r.address == lower_hex(c.indexer@)
    &&& r.deployment_id == lower_hex(c.subgraph_deployment_id@)
    &&& r.allocation_id == lower_hex(c.allocation_id@)
    &&& r.poi == lower_hex(c.poi@)
    &&& r.transaction_hash == lower_hex(tx_hash)
    &&& parse_decimal(r.tokens) == Some(c.tokens.value())
}

/// The log is an `AllocationClosed` event of the given version (1 or 2)
/// emitted by the staking contract, and `r` reports it.
pub open spec fn reports_closing(
    version: int,
    graph: Seq<u8>,
    tx_hash: Seq<u8>,
    log: EventLog,
    r: AllocationClosedDataView,
) -> bool {
    &&& log.address@ == graph
    &&& match log.event {
        GraphEvent::AllocationClosed1(c) => version == 1 && reports_closed(c, tx_hash, r),
        GraphEvent::AllocationClosed2(c) => version == 2 && reports_closed(c, tx_hash, r),
        _ => false,
    }
}

/// Some log of the run is what `r` reports.
pub open spec fn closing_reported_by_logs(
    version: int,
    graph: Seq<u8>,
    tx_hash: Seq<u8>,
    logs: Seq<EventLog>,
    r: AllocationClosedDataView,
) -> bool {
    exists|j: int| 0 <= j < logs.len() && #[trigger] reports_closing(version, graph, tx_hash, logs[j], r)
}

/// Some successful transaction of the run holds, in its receipt, what `r`
/// reports.
pub open spec fn closing_reported_by_transactions(
    version: int,
    graph: Seq<u8>,
    txs: Seq<Transaction>,
    r: AllocationClosedDataView,
) -> bool {
    exists|k: int|
        0 <= k < txs.len() && succeeded(txs[k]) && #[trigger] closing_reported_by_logs(
            version,
            graph,
            txs[k].hash@,
            receipt_logs_of(txs[k]),
            r,
        )
}

proof fn lemma_closing_logs_complete(
    version: int,
    graph: Seq<u8>,
    tx_hash: Seq<u8>,
    logs: Seq<EventLog>,
    j: int,
)
    requires
        0 <= j < logs.len(),
        logs[j].address@ == graph,
        (version == 1 && logs[j].event is AllocationClosed1) || (version == 2
            && logs[j].event is AllocationClosed2),
    ensures
        exists|i: int|
            0 <= i < closed_allocations_of_logs(version, graph, tx_hash, logs).len()
                && #[trigger] reports_closing(
                version,
                graph,
                tx_hash,
                logs[j],
                closed_allocations_of_logs(version, graph, tx_hash, logs)[i],
            ),
    decreases logs.len(),
{
    let all = closed_allocations_of_logs(version, graph, tx_hash, logs);
    let pre = closed_allocations_of_logs(version, graph, tx_hash, logs.drop_last());
    if j == logs.len() - 1 {
        assert(logs[j] == logs.last());
        match logs.last().event {
            GraphEvent::AllocationClosed1(c) => {
                lemma_decimal_round_trip(c.tokens.value());
                assert(all[pre.len() as int] == crate::maps::closed_allocation_record(c, tx_hash));
                assert(reports_closing(version, graph, tx_hash, logs[j], all[pre.len() as int]));
            },
            GraphEvent::AllocationClosed2(c) => {
                lemma_decimal_round_trip(c.tokens.value());
                assert(all[pre.len() as int] == crate::maps::closed_allocation_record(c, tx_hash));
                assert(reports_closing(version, graph, tx_hash, logs[j], all[pre.len() as int]));
            },
            _ => {},
        }
    } else {
        assert(logs.drop_last()[j] == logs[j]);
        lemma_closing_logs_complete(version, graph, tx_hash, logs.drop_last(), j);
        let i0 = choose|i: int|
            0 <= i < pre.len() && #[trigger] reports_closing(
                version,
                graph,
                tx_hash,
                logs.drop_last()[j],
                pre[i],
            );
        let tail = all.skip(pre.len() as int);
        assert(all =~= pre + tail);
        assert(all[i0] == pre[i0]);
        assert(reports_closing(version, graph, tx_hash, logs[j], all[i0]));
    }
}

proof fn lemma_closing_logs_sound(version: int, graph: Seq<u8>, tx_hash: Seq<u8>, logs: Seq<EventLog>)
    ensures
        forall|i: int|
            0 <= i < closed_allocations_of_logs(version, graph, tx_hash, logs).len()
                ==> closing_reported_by_logs(
                version,
                graph,
                tx_hash,
                logs,
                #[trigger] closed_allocations_of_logs(version, graph, tx_hash, logs)[i],
            ),
    decreases logs.len(),
{
    if logs.len() > 0 {
        lemma_closing_logs_sound(version, graph, tx_hash, logs.drop_last());
        let all = closed_allocations_of_logs(version, graph, tx_hash, logs);
        let pre = closed_allocations_of_logs(version, graph, tx_hash, logs.drop_last());
        let n = logs.len() - 1;
        assert(logs[n] == logs.last());
        let tail = all.skip(pre.len() as int);
        assert(all =~= pre + tail);
        assert forall|i: int| 0 <= i < all.len() implies closing_reported_by_logs(
            version,
            graph,
            tx_hash,
            logs,
            #[trigger] all[i],
        ) by {
            if i < pre.len() {
                assert(closing_reported_by_logs(version, graph, tx_hash, logs.drop_last(), pre[i]));
                let j = choose|j: int|
                    0 <= j < logs.drop_last().len() && #[trigger] reports_closing(
                        version,
                        graph,
                        tx_hash,
                        logs.drop_last()[j],
                        pre[i],
                    );
                assert(logs.drop_last()[j] == logs[j]);
                assert(all[i] == pre[i]);
                assert(reports_closing(version, graph, tx_hash, logs[j], all[i]));
            } else {
                match logs.last().event {
                    GraphEvent::AllocationClosed1(c) => {
                        lemma_decimal_round_trip(c.tokens.value());
                    },
                    GraphEvent::AllocationClosed2(c) => {
                        lemma_decimal_round_trip(c.tokens.value());
                    },
                    _ => {},
                }
                assert(reports_closing(version, graph, tx_hash, logs[n], all[i]));
            }
        }
    } else {
        assert(closed_allocations_of_logs(version, graph, tx_hash, logs).len() == 0);
    }
}

/// Closed-allocation law: every `AllocationClosed` event of the given
/// version (1 or 2) that the staking contract emitted in the receipt of a
/// successful transaction gives a record of its indexer, deployment,
/// allocation, proof of indexing and transaction hash whose tokens read back
/// as the allocated tokens.
pub proof fn law_closed_allocations_record_every_event(
    version: int,
    graph: Seq<u8>,
    txs: Seq<Transaction>,
    k: int,
    j: int,
)
    requires
        0 <= k < txs.len(),
        succeeded(txs[k]),
        0 <= j < receipt_logs_of(txs[k]).len(),
        receipt_logs_of(txs[k])[j].address@ == graph,
        (version == 1 && receipt_logs_of(txs[k])[j].event is AllocationClosed1) || (version == 2
            && receipt_logs_of(txs[k])[j].event is AllocationClosed2),
    ensures
        exists|i: int|
            0 <= i < closed_allocations_of_transactions(version, graph, txs).len()
                && #[trigger] reports_closing(
                version,
                graph,
                txs[k].hash@,
                receipt_logs_of(txs[k])[j],
                closed_allocations_of_transactions(version, graph, txs)[i],
            ),
    decreases txs.len(),
{
    let all = closed_allocations_of_transactions(version, graph, txs);
    let pre = closed_allocations_of_transactions(version, graph, txs.drop_last());
    let tail = all.skip(pre.len() as int);
    assert(all =~= pre + tail);
    if k == txs.len() - 1 {
        assert(txs.last() == txs[k]);
        let logs = receipt_logs_of(txs[k]);
        lemma_closing_logs_complete(version, graph, txs[k].hash@, logs, j);
        let recs = closed_allocations_of_logs(version, graph, txs[k].hash@, logs);
        assert(tail =~= recs);
        let i0 = choose|i: int|
            0 <= i < recs.len() && #[trigger] reports_closing(version, graph, txs[k].hash@, logs[j], recs[i]);
        assert(all[pre.len() + i0] == recs[i0]);
    } else {
        assert(txs.drop_last()[k] == txs[k]);
        law_closed_allocations_record_every_event(version, graph, txs.drop_last(), k, j);
        let i0 = choose|i: int|
            0 <= i < pre.len() && #[trigger] reports_closing(
                version,
                graph,
                txs[k].hash@,
                receipt_logs_of(txs[k])[j],
                pre[i],
            );
        assert(all[i0] == pre[i0]);
    }
}

/// Closed-allocation law: every closed-allocation record of the given
/// version reports an `AllocationClosed` event of that version that the
/// staking contract emitted in the receipt of a successful transaction.
pub proof fn law_closed_allocations_come_from_events(version: int, graph: Seq<u8>, txs: Seq<Transaction>)
    ensures
        forall|i: int|
            0 <= i < closed_allocations_of_transactions(version, graph, txs).len()
                ==> closing_reported_by_transactions(
                version,
                graph,
                txs,
                #[trigger] closed_allocations_of_transactions(version, graph, txs)[i],
            ),
    decreases txs.len(),
{
    if txs.len() > 0 {
        law_closed_allocations_come_from_events(version, graph, txs.drop_last());
        let all = closed_allocations_of_transactions(version, graph, txs);
        let pre = closed_allocations_of_transactions(version, graph, txs.drop_last());
        let n = txs.len() - 1;
        assert(txs[n] == txs.last());
        let logs = receipt_logs_of(txs.last());
        let tail = all.skip(pre.len() as int);
        assert(all =~= pre + tail);
        lemma_closing_logs_sound(version, graph, txs[n].hash@, logs);
        assert forall|i: int| 0 <= i < all.len() implies closing_reported_by_transactions(
            version,
            graph,
            txs,
            #[trigger] all[i],
        ) by {
            if i < pre.len() {
                assert(closing_reported_by_transactions(version, graph, txs.drop_last(), pre[i]));
                let k = choose|k: int|
                    0 <= k < txs.drop_last().len() && succeeded(txs.drop_last()[k])
                        && #[trigger] closing_reported_by_logs(
                        version,
                        graph,
                        txs.drop_last()[k].hash@,
                        receipt_logs_of(txs.drop_last()[k]),
                        pre[i],
                    );
                assert(txs.drop_last()[k] == txs[k]);
                assert(all[i] == pre[i]);
                assert(closing_reported_by_logs(version, graph, txs[k].hash@, receipt_logs_of(txs[k]), all[i]));
            } else {
                let m = i - pre.len();
                assert(succeeded(txs[n]));
                assert(all[i] == tail[m]);
                assert(tail =~= closed_allocations_of_logs(version, graph, txs[n].hash@, logs));
                assert(closing_reported_by_logs(version, graph, txs[n].hash@, receipt_logs_of(txs[n]), all[i]));
            }
        }
    } else {
        assert(closed_allocations_of_transactions(version, graph, txs).len() == 0);
    }
}

/// A `StakeWithdrawn` event emitted by the staking contract.
pub open spec fn is_graph_withdrawal(graph: Seq<u8>, log: EventLog) -> bool {
    log.address@ == graph && log.event is StakeWithdrawn
}

/// `r` reports the withdrawal `e`: the indexer in hexadecimal, and tokens
/// text that starts with '-' and, for the unsigned amounts that the contract
/// emits, reads back as the negated tokens.
pub open spec fn reports_withdrawal(e: GraphEvent, r: OwnedStakeTokenChangeView) -> bool {
    &&& r.indexer == lower_hex(e->StakeWithdrawn_indexer@)
    &&& r.tokens_amount.len() > 0
    &&& r.tokens_amount[0] == '-'
    &&& e->StakeWithdrawn_tokens.value() >= 0 ==> parse_decimal(r.tokens_amount) == Some(
        -e->StakeWithdrawn_tokens.value(),
    )
}

/// Some log of the run is a withdrawal of the staking contract that `r`
/// reports.
pub open spec fn withdrawal_reported_by_logs(
    graph: Seq<u8>,
    logs: Seq<EventLog>,
    r: OwnedStakeTokenChangeView,
) -> bool {
    exists|j: int|
        0 <= j < logs.len() && is_graph_withdrawal(graph, logs[j]) && #[trigger] reports_withdrawal(
            logs[j].event,
            r,
        )
}

/// Some successful transaction of the run holds, in its receipt, a
/// withdrawal of the staking contract that `r` reports.
pub open spec fn withdrawal_reported_by_transactions(
    graph: Seq<u8>,
    txs: Seq<Transaction>,
    r: OwnedStakeTokenChangeView,
) -> bool {
    exists|k: int|
        0 <= k < txs.len() && succeeded(txs[k]) && #[trigger] withdrawal_reported_by_logs(
            graph,
            receipt_logs_of(txs[k]),
            r,
        )
}

/// The withdrawal record of a withdrawal log reports it.
proof fn lemma_withdrawal_record_reports(graph: Seq<u8>, log: EventLog)
    requires
        is_graph_withdrawal(graph, log),
    ensures
        stake_withdrawal_of_log(graph, log).len() == 1,
        reports_withdrawal(log.event, stake_withdrawal_of_log(graph, log)[0]),
{
    let v = log.event->StakeWithdrawn_tokens.value();
    if v >= 0 {
        lemma_negated_decimal_round_trip(v);
    }
}

proof fn lemma_withdrawal_logs_complete(graph: Seq<u8>, logs: Seq<EventLog>, j: int)
    requires
        0 <= j < logs.len(),
        is_graph_withdrawal(graph, logs[j]),
    ensures
        exists|i: int|
            0 <= i < stake_withdrawals_of_logs(graph, logs).len() && #[trigger] reports_withdrawal(
                logs[j].event,
                stake_withdrawals_of_logs(graph, logs)[i],
            ),
    decreases logs.len(),
{
    let all = stake_withdrawals_of_logs(graph, logs);
    let pre = stake_withdrawals_of_logs(graph, logs.drop_last());
    let last = stake_withdrawal_of_log(graph, logs.last());
    assert(all == pre + last);
    if j == logs.len() - 1 {
        assert(logs[j] == logs.last());
        lemma_withdrawal_record_reports(graph, logs.last());
        assert(all[pre.len() as int] == last[0]);
        assert(reports_withdrawal(logs[j].event, all[pre.len() as int]));
    } else {
        assert(logs.drop_last()[j] == logs[j]);
        lemma_withdrawal_logs_complete(graph, logs.drop_last(), j);
        let i0 = choose|i: int|
            0 <= i < pre.len() && #[trigger] reports_withdrawal(logs.drop_last()[j].event, pre[i]);
        assert(all[i0] == pre[i0]);
        assert(reports_withdrawal(logs[j].event, all[i0]));
    }
}

proof fn lemma_withdrawal_logs_sound(graph: Seq<u8>, logs: Seq<EventLog>)
    ensures
        forall|i: int|
            0 <= i < stake_withdrawals_of_logs(graph, logs).len() ==> withdrawal_reported_by_logs(
                graph,
                logs,
                #[trigger] stake_withdrawals_of_logs(graph, logs)[i],
            ),
    decreases logs.len(),
{
    if logs.len() > 0 {
        lemma_withdrawal_logs_sound(graph, logs.drop_last());
        let all = stake_withdrawals_of_logs(graph, logs);
        let pre = stake_withdrawals_of_logs(graph, logs.drop_last());
        let last = stake_withdrawal_of_log(graph, logs.last());
        assert(all == pre + last);
        assert forall|i: int| 0 <= i < all.len() implies withdrawal_reported_by_logs(
            graph,
            logs,
            #[trigger] all[i],
        ) by {
            if i < pre.len() {
                assert(withdrawal_reported_by_logs(graph, logs.drop_last(), pre[i]));
                let j = choose|j: int|
                    0 <= j < logs.drop_last().len() && is_graph_withdrawal(graph, logs.drop_last()[j])
                        && #[trigger] reports_withdrawal(logs.drop_last()[j].event, pre[i]);
                assert(logs.drop_last()[j] == logs[j]);
                assert(all[i] == pre[i]);
                assert(reports_withdrawal(logs[j].event, all[i]));
            } else {
                let n = logs.len() - 1;
                assert(logs[n] == logs.last());
                assert(is_graph_withdrawal(graph, logs[n]));
                lemma_withdrawal_record_reports(graph, logs[n]);
                assert(all[i] == last[0]);
                assert(reports_withdrawal(logs[n].event, all[i]));
            }
        }
    } else {
        assert(stake_withdrawals_of_logs(graph, logs).len() == 0);
    }
}

/// Withdrawal law: every `StakeWithdrawn` event that the staking contract
/// emitted in the receipt of a successful transaction gives a record of its
/// indexer whose tokens read back as the negated amount.
pub proof fn law_withdrawals_record_every_event(graph: Seq<u8>, txs: Seq<Transaction>, k: int, j: int)
    requires
        0 <= k < txs.len(),
        succeeded(txs[k]),
        0 <= j < receipt_logs_of(txs[k]).len(),
        is_graph_withdrawal(graph, receipt_logs_of(txs[k])[j]),
    ensures
        exists|i: int|
            0 <= i < stake_withdrawals_of_transactions(graph, txs).len()
                && #[trigger] reports_withdrawal(
                receipt_logs_of(txs[k])[j].event,
                stake_withdrawals_of_transactions(graph, txs)[i],
            ),
    decreases txs.len(),
{
    let all = stake_withdrawals_of_transactions(graph, txs);
    let pre = stake_withdrawals_of_transactions(graph, txs.drop_last());
    let tail = all.skip(pre.len() as int);
    assert(all =~= pre + tail);
    if k == txs.len() - 1 {
        assert(txs.last() == txs[k]);
        let logs = receipt_logs_of(txs[k]);
        lemma_withdrawal_logs_complete(graph, logs, j);
        let recs = stake_withdrawals_of_logs(graph, logs);
        assert(tail =~= recs);
        let i0 = choose|i: int| 0 <= i < recs.len() && #[trigger] reports_withdrawal(logs[j].event, recs[i]);
        assert(all[pre.len() + i0] == recs[i0]);
    } else {
        assert(txs.drop_last()[k] == txs[k]);
        law_withdrawals_record_every_event(graph, txs.drop_last(), k, j);
        let i0 = choose|i: int|
            0 <= i < pre.len() && #[trigger] reports_withdrawal(receipt_logs_of(txs[k])[j].event, pre[i]);
        assert(all[i0] == pre[i0]);
    }
}

/// Withdrawal law: every withdrawal record reports a `StakeWithdrawn` event
/// that the staking contract emitted in the receipt of a successful
/// transaction.
pub proof fn law_withdrawals_come_from_events(graph: Seq<u8>, txs: Seq<Transaction>)
    ensures
        forall|i: int|
            0 <= i < stake_withdrawals_of_transactions(graph, txs).len()
                ==> withdrawal_reported_by_transactions(
                graph,
                txs,
                #[trigger] stake_withdrawals_of_transactions(graph, txs)[i],
            ),
    decreases txs.len(),
{
    if txs.len() > 0 {
        law_withdrawals_come_from_events(graph, txs.drop_last());
        let all = stake_withdrawals_of_transactions(graph, txs);
        let pre = stake_withdrawals_of_transactions(graph, txs.drop_last());
        let n = txs.len() - 1;
        assert(txs[n] == txs.last());
        let logs = receipt_logs_of(txs.last());
        let tail = all.skip(pre.len() as int);
        assert(all =~= pre + tail);
        lemma_withdrawal_logs_sound(graph, logs);
        assert forall|i: int| 0 <= i < all.len() implies withdrawal_reported_by_transactions(
            graph,
            txs,
            #[trigger] all[i],
        ) by {
            if i < pre.len() {
                assert(withdrawal_reported_by_transactions(graph, txs.drop_last(), pre[i]));
                let k = choose|k: int|
                    0 <= k < txs.drop_last().len() && succeeded(txs.drop_last()[k])
                        && #[trigger] withdrawal_reported_by_logs(
                        graph,
                        receipt_logs_of(txs.drop_last()[k]),
                        pre[i],
                    );
                assert(txs.drop_last()[k] == txs[k]);
                assert(all[i] == pre[i]);
                assert(withdrawal_reported_by_logs(graph, receipt_logs_of(txs[k]), all[i]));
            } else {
                let m = i - pre.len();
                assert(succeeded(txs[n]));
                assert(all[i] == tail[m]);
                assert(tail =~= stake_withdrawals_of_logs(graph, logs));
                assert(withdrawal_reported_by_logs(graph, receipt_logs_of(txs[n]), all[i]));
            }
        }
    } else {
        assert(stake_withdrawals_of_transactions(graph, txs).len() == 0);
    }
}

proof fn lemma_deposit_logs_complete(logs: Seq<EventLog>, j: int)
    requires
        0 <= j < logs.len(),
        logs[j].event is StakeDeposited,
    ensures
        exists|i: int|
            0 <= i < stake_deposits_of_logs(logs).len() && #[trigger] reports_deposit(
                logs[j].event,
                stake_deposits_of_logs(logs)[i],
            ),
    decreases logs.len(),
{
    let all = stake_deposits_of_logs(logs);
    let pre = stake_deposits_of_logs(logs.drop_last());
    let last = stake_deposit_of_log(logs.last());
    assert(all == pre + last);
    if j == logs.len() - 1 {
        assert(logs[j] == logs.last());
        lemma_decimal_round_trip(logs[j].event->StakeDeposited_tokens.value());
        assert(all[pre.len() as int] == last[0]);
        assert(reports_deposit(logs[j].event, all[pre.len() as int]));
    } else {
        assert(logs.drop_last()[j] == logs[j]);
        lemma_deposit_logs_complete(logs.drop_last(), j);
        let i0 = choose|i: int|
            0 <= i < pre.len() && #[trigger] reports_deposit(logs.drop_last()[j].event, pre[i]);
        assert(all[i0] == pre[i0]);
        assert(reports_deposit(logs[j].event, all[i0]));
    }
}

/// Deposit law: in a successful transaction that closes no allocation,
/// assigns no rewards and holds a `Transfer` log, every `StakeDeposited`
/// event, whichever contract emitted it, gives a record of its indexer whose
/// tokens read back as the deposited amount.
pub proof fn law_deposits_record_every_direct_deposit(
    txs: Seq<Transaction>,
    k: int,
    transfer: int,
    j: int,
)
    requires
        0 <= k < txs.len(),
        succeeded(txs[k]),
        closes_no_allocation(txs[k].call_logs@),
        forall|q: int|
            0 <= q < txs[k].call_logs@.len() ==> !((#[trigger] txs[k].call_logs@[q]).event is RewardsAssigned),
        0 <= transfer < txs[k].call_logs@.len(),
        txs[k].call_logs@[transfer].event is Transfer,
        0 <= j < txs[k].call_logs@.len(),
        txs[k].call_logs@[j].event is StakeDeposited,
    ensures
        exists|i: int|
            0 <= i < stake_deposits_of_transactions(txs).len() && #[trigger] reports_deposit(
                txs[k].call_logs@[j].event,
                stake_deposits_of_transactions(txs)[i],
            ),
    decreases txs.len(),
{
    let all = stake_deposits_of_transactions(txs);
    let pre = stake_deposits_of_transactions(txs.drop_last());
    let tail = all.skip(pre.len() as int);
    assert(all =~= pre + tail);
    if k == txs.len() - 1 {
        assert(txs.last() == txs[k]);
        let logs = txs[k].call_logs@;
        assert(logs[transfer].event is Transfer);
        assert(has_transfer(logs));
        assert(!has_allocation_closed(logs)) by {
            if has_allocation_closed(logs) {
                let q = choose|q: int|
                    0 <= q < logs.len() && ((#[trigger] logs[q]).event is AllocationClosed1
                        || logs[q].event is AllocationClosed2);
                assert(!(logs[q].event is AllocationClosed1) && !(logs[q].event is AllocationClosed2));
            }
        }
        assert(!has_rewards_assigned(logs)) by {
            if has_rewards_assigned(logs) {
                let q = choose|q: int| 0 <= q < logs.len() && (#[trigger] logs[q]).event is RewardsAssigned;
                assert(!(logs[q].event is RewardsAssigned));
            }
        }
        assert(deposits_stake_directly(logs));
        lemma_deposit_logs_complete(logs, j);
        let recs = stake_deposits_of_logs(logs);
        assert(tail =~= recs);
        let i0 = choose|i: int| 0 <= i < recs.len() && #[trigger] reports_deposit(logs[j].event, recs[i]);
        assert(all[pre.len() + i0] == recs[i0]);
    } else {
        let prefix = txs.drop_last();
        assert(prefix[k] == txs[k]);
        law_deposits_record_every_direct_deposit(prefix, k, transfer, j);
        let i0 = choose|i: int|
            0 <= i < pre.len() && #[trigger] reports_deposit(txs[k].call_logs@[j].event, pre[i]);
        assert(all[i0] == pre[i0]);
    }
}

/// Row law: each snapshot gives one row of "staked_tokens_changes", in
/// order, keyed by its indexer, the block number (read back from its
/// decimal text) and its transaction hash; the row's columns have distinct
/// names, and "staked_tokens" holds the snapshot's stake, "tokens" its
/// staked tokens, "query_fees" and "indexing_rewards" its totals, and
/// "block_timestamp" text that reads back as the block's timestamp.
pub proof fn law_snapshot_rows(
    block_number: u64,
    timestamp_seconds: i64,
    changes: Seq<StakedTokensChangeView>,
)
    ensures
        snapshot_rows(block_number, timestamp_seconds, changes).len() == changes.len(),
        forall|i: int|
            #![trigger snapshot_rows(block_number, timestamp_seconds, changes)[i]]
            0 <= i < changes.len() ==> {
                let row = snapshot_rows(block_number, timestamp_seconds, changes)[i];
                &&& row.table == "staked_tokens_changes"@
                &&& row.key.len() == 3
                &&& row.key[0] == ("indexer"@, changes[i].indexer)
                &&& row.key[1].0 == "block_number"@
                &&& parse_decimal(row.key[1].1) == Some(block_number as int)
                &&& row.key[2] == ("transaction_hash"@, changes[i].transaction_hash)
                &&& names_distinct(row.columns)
                &&& row.columns.contains(("indexer"@, changes[i].indexer))
                &&& row.columns.contains(("staked_tokens"@, changes[i].stake))
                &&& row.columns.contains(("tokens"@, changes[i].tokens))
                &&& row.columns.contains(("query_fees"@, changes[i].query_fees))
                &&& row.columns.contains(("indexing_rewards"@, changes[i].indexing_rewards))
                &&& exists|t: int|
                    0 <= t < row.columns.len() && #[trigger] row.columns[t].0 == "block_timestamp"@
                        && parse_decimal(row.columns[t].1) == Some(timestamp_seconds as int)
            },
{
    reveal_strlit("indexer");
    reveal_strlit("tokens");
    reveal_strlit("staked_tokens");
    reveal_strlit("indexing_rewards");
    reveal_strlit("query_fees");
    reveal_strlit("block_timestamp");
    lemma_decimal_round_trip(block_number as int);
    lemma_decimal_round_trip(timestamp_seconds as int);
    let rows = snapshot_rows(block_number, timestamp_seconds, changes);
    assert forall|i: int| 0 <= i < changes.len() implies {
        let row = #[trigger] rows[i];
        &&& row.table == "staked_tokens_changes"@
        &&& row.key.len() == 3
        &&& row.key[0] == ("indexer"@, changes[i].indexer)
        &&& row.key[1].0 == "block_number"@
        &&& parse_decimal(row.key[1].1) == Some(block_number as int)
        &&& row.key[2] == ("transaction_hash"@, changes[i].transaction_hash)
        &&& names_distinct(row.columns)
        &&& row.columns.contains(("indexer"@, changes[i].indexer))
        &&& row.columns.contains(("staked_tokens"@, changes[i].stake))
        &&& row.columns.contains(("tokens"@, changes[i].tokens))
        &&& row.columns.contains(("query_fees"@, changes[i].query_fees))
        &&& row.columns.contains(("indexing_rewards"@, changes[i].indexing_rewards))
        &&& exists|t: int|
            0 <= t < row.columns.len() && #[trigger] row.columns[t].0 == "block_timestamp"@
                && parse_decimal(row.columns[t].1) == Some(timestamp_seconds as int)
    } by {
        let row = rows[i];
        let c = changes[i];
        assert(row.columns[0] == ("indexer"@, c.indexer));
        assert(row.columns[1] == ("tokens"@, c.tokens));
        assert(row.columns[2] == ("staked_tokens"@, c.stake));
        assert(row.columns[3] == ("indexing_rewards"@, c.indexing_rewards));
        assert(row.columns[4] == ("query_fees"@, c.query_fees));
        assert(row.columns[5].0 == "block_timestamp"@);
        assert forall|a: int, b: int|
            0 <= a < row.columns.len() && 0 <= b < row.columns.len() && a != b implies (
            #[trigger] row.columns[a]).0 != (#[trigger] row.columns[b]).0 by {
            assert(row.columns[a].0.len() != row.columns[b].0.len());
        }
    }
}

} // verus!
