//! The shape of the records that the map modules make of well-formed
//! blocks: hexadecimal texts of the ABI widths and unsigned decimal amounts.

use vstd::prelude::*;
use crate::amount::{decimal_string, is_unsigned_decimal, lemma_unsigned_decimal_shape, parse_decimal};
use crate::chain::{
    closed_allocation_well_formed, event_well_formed, logs_well_formed, succeeded,
    transaction_well_formed, transactions_well_formed, EventLog, GraphEvent, Transaction,
};
use crate::filter::IndexerFilter;
use crate::maps::{
    closed_allocation_of, closed_allocations_of_logs, closed_allocations_of_transactions,
    indexing_reward_of_log, indexing_rewards_of_logs, indexing_rewards_of_transactions,
    pays_indexing_rewards, query_fee_of_log, query_fees_of_logs, query_fees_of_transactions,
    receipt_logs_of, stake_deposit_of_log, stake_deposits_of_logs, stake_deposits_of_transactions,
    deposits_stake_directly, stake_withdrawal_of_log, stake_withdrawals_of_logs,
    stake_withdrawals_of_transactions,
};
use crate::records::{
    AllocationClosedDataView, IndexingRewardsCollectedView, OwnedStakeTokenChangeView,
    QueryFeesCollectedView,
};
use crate::text::{is_lower_hex_of_bytes, lemma_lower_hex_shape, lemma_lowercase_of_hex, lowercase};

verus! {

/// Dropping the last log keeps a run well formed.
pub proof fn lemma_logs_well_formed_prefix(logs: Seq<EventLog>)
    requires
        logs_well_formed(logs),
        logs.len() > 0,
    ensures
        logs_well_formed(logs.drop_last()),
        logs.last().address@.len() == 20,
        event_well_formed(logs.last().event),
{
    assert forall|j: int| 0 <= j < logs.len() - 1 implies (#[trigger] logs.drop_last()[j]).address@.len()
        == 20 && event_well_formed(logs.drop_last()[j].event) by {
        assert(logs.drop_last()[j] == logs[j]);
    }
    assert(logs[logs.len() - 1] == logs.last());
}

/// Dropping the last transaction keeps a run well formed.
pub proof fn lemma_transactions_well_formed_prefix(txs: Seq<Transaction>)
    requires
        transactions_well_formed(txs),
        txs.len() > 0,
    ensures
        transactions_well_formed(txs.drop_last()),
        transaction_well_formed(txs.last()),
        logs_well_formed(txs.last().call_logs@),
        logs_well_formed(receipt_logs_of(txs.last())),
{
    assert forall|i: int| 0 <= i < txs.len() - 1 implies transaction_well_formed(
        #[trigger] txs.drop_last()[i],
    ) by {
        assert(txs.drop_last()[i] == txs[i]);
    }
    assert(txs[txs.len() - 1] == txs.last());
    assert(transaction_well_formed(txs.last()));
    match txs.last().receipt_logs {
        Some(logs) => {},
        None => {
            assert(receipt_logs_of(txs.last()) =~= Seq::<EventLog>::empty());
        },
    }
}

/// The shape of a record made of a well-formed event.
pub open spec fn query_fee_shaped(r: QueryFeesCollectedView) -> bool {
    &&& is_lower_hex_of_bytes(r.indexer, 20)
    &&& is_lower_hex_of_bytes(r.deployment_id, 32)
    &&& is_lower_hex_of_bytes(r.allocation_id, 20)
    &&& is_unsigned_decimal(r.query_fees)
}

/// Every record of the run has the shape of one made of a well-formed
/// event.
pub open spec fn all_query_fee_shaped(s: Seq<QueryFeesCollectedView>) -> bool {
    forall|i: int| 0 <= i < s.len() ==> query_fee_shaped(#[trigger] s[i])
}

/// The records of a run of well-formed logs are shaped.
pub proof fn lemma_query_fee_logs_shaped(filter: IndexerFilter, graph: Seq<u8>, logs: Seq<EventLog>)
    requires
        logs_well_formed(logs),
    ensures
        all_query_fee_shaped(query_fees_of_logs(filter, graph, logs)),
    decreases logs.len(),
{
    if logs.len() > 0 {
        lemma_logs_well_formed_prefix(logs);
        lemma_query_fee_logs_shaped(filter, graph, logs.drop_last());
        match logs.last().event {
            GraphEvent::RebateCollected { indexer, subgraph_deployment_id, allocation_id, query_rebates } => {
                lemma_lower_hex_shape(indexer@);
                lemma_lower_hex_shape(subgraph_deployment_id@);
                lemma_lower_hex_shape(allocation_id@);
                lemma_unsigned_decimal_shape(query_rebates.value());
            },
            _ => {},
        }
        let a = query_fees_of_logs(filter, graph, logs.drop_last());
        let b = query_fee_of_log(filter, graph, logs.last());
        assert forall|i: int| 0 <= i < (a + b).len() implies query_fee_shaped(#[trigger] (a + b)[i]) by {
            if i < a.len() {
                assert((a + b)[i] == a[i]);
            } else {
                assert((a + b)[i] == b[i - a.len()]);
            }
        }
    }
}

/// The records of a run of well-formed transactions are shaped.
pub proof fn lemma_query_fee_transactions_shaped(filter: IndexerFilter, graph: Seq<u8>, txs: Seq<Transaction>)
    requires
        transactions_well_formed(txs),
    ensures
        all_query_fee_shaped(query_fees_of_transactions(filter, graph, txs)),
    decreases txs.len(),
{
    if txs.len() > 0 {
        lemma_transactions_well_formed_prefix(txs);
        lemma_query_fee_transactions_shaped(filter, graph, txs.drop_last());
        lemma_query_fee_logs_shaped(filter, graph, txs.last().call_logs@);
        let a = query_fees_of_transactions(filter, graph, txs.drop_last());
        let b: Seq<QueryFeesCollectedView> = if succeeded(txs.last()) {
            query_fees_of_logs(filter, graph, txs.last().call_logs@)
        } else {
            Seq::empty()
        };
        assert forall|i: int| 0 <= i < (a + b).len() implies query_fee_shaped(#[trigger] (a + b)[i]) by {
            if i < a.len() {
                assert((a + b)[i] == a[i]);
            } else {
                assert((a + b)[i] == b[i - a.len()]);
            }
        }
    }
}

/// The shape of a record made of a well-formed event.
pub open spec fn indexing_reward_shaped(r: IndexingRewardsCollectedView) -> bool {
    &&& is_lower_hex_of_bytes(r.indexer, 20)
    &&& is_unsigned_decimal(r.rewards)
}

/// Every record of the run has the shape of one made of a well-formed
/// event.
pub open spec fn all_indexing_reward_shaped(s: Seq<IndexingRewardsCollectedView>) -> bool {
    forall|i: int| 0 <= i < s.len() ==> indexing_reward_shaped(#[trigger] s[i])
}

/// The records of a run of well-formed logs are shaped.
pub proof fn lemma_indexing_reward_logs_shaped(filter: IndexerFilter, graph: Seq<u8>, logs: Seq<EventLog>)
    requires
        logs_well_formed(logs),
    ensures
        all_indexing_reward_shaped(indexing_rewards_of_logs(filter, graph, logs)),
    decreases logs.len(),
{
    if logs.len() > 0 {
        lemma_logs_well_formed_prefix(logs);
        lemma_indexing_reward_logs_shaped(filter, graph, logs.drop_last());
        match logs.last().event {
            GraphEvent::Transfer { from, to, value } => {
                lemma_lower_hex_shape(to@);
                lemma_unsigned_decimal_shape(value.value());
            },
            _ => {},
        }
        let a = indexing_rewards_of_logs(filter, graph, logs.drop_last());
        let b = indexing_reward_of_log(filter, graph, logs.last());
        assert forall|i: int| 0 <= i < (a + b).len() implies indexing_reward_shaped(#[trigger] (a + b)[i]) by {
            if i < a.len() {
                assert((a + b)[i] == a[i]);
            } else {
                assert((a + b)[i] == b[i - a.len()]);
            }
        }
    }
}

/// The records of a run of well-formed transactions are shaped.
pub proof fn lemma_indexing_reward_transactions_shaped(filter: IndexerFilter, graph: Seq<u8>, txs: Seq<Transaction>)
    requires
        transactions_well_formed(txs),
    ensures
        all_indexing_reward_shaped(indexing_rewards_of_transactions(filter, graph, txs)),
    decreases txs.len(),
{
    if txs.len() > 0 {
        lemma_transactions_well_formed_prefix(txs);
        lemma_indexing_reward_transactions_shaped(filter, graph, txs.drop_last());
        lemma_indexing_reward_logs_shaped(filter, graph, txs.last().call_logs@);
        let a = indexing_rewards_of_transactions(filter, graph, txs.drop_last());
        let b: Seq<IndexingRewardsCollectedView> = if succeeded(txs.last()) && pays_indexing_rewards(graph, txs.last().call_logs@) {
            indexing_rewards_of_logs(filter, graph, txs.last().call_logs@)
        } else {
            Seq::empty()
        };
        assert forall|i: int| 0 <= i < (a + b).len() implies indexing_reward_shaped(#[trigger] (a + b)[i]) by {
            if i < a.len() {
                assert((a + b)[i] == a[i]);
            } else {
                assert((a + b)[i] == b[i - a.len()]);
            }
        }
    }
}

/// The shape of a record made of a well-formed event.
pub open spec fn stake_deposit_shaped(r: OwnedStakeTokenChangeView) -> bool {
    &&& is_lower_hex_of_bytes(r.indexer, 20)
    &&& is_unsigned_decimal(r.tokens_amount)
}

/// Every record of the run has the shape of one made of a well-formed
/// event.
pub open spec fn all_stake_deposit_shaped(s: Seq<OwnedStakeTokenChangeView>) -> bool {
    forall|i: int| 0 <= i < s.len() ==> stake_deposit_shaped(#[trigger] s[i])
}

/// The records of a run of well-formed logs are shaped.
pub proof fn lemma_stake_deposit_logs_shaped(logs: Seq<EventLog>)
    requires
        logs_well_formed(logs),
    ensures
        all_stake_deposit_shaped(stake_deposits_of_logs(logs)),
    decreases logs.len(),
{
    if logs.len() > 0 {
        lemma_logs_well_formed_prefix(logs);
        lemma_stake_deposit_logs_shaped(logs.drop_last());
        match logs.last().event {
            GraphEvent::StakeDeposited { indexer, tokens } => {
                lemma_lower_hex_shape(indexer@);
                lemma_unsigned_decimal_shape(tokens.value());
            },
            _ => {},
        }
        let a = stake_deposits_of_logs(logs.drop_last());
        let b = stake_deposit_of_log(logs.last());
        assert forall|i: int| 0 <= i < (a + b).len() implies stake_deposit_shaped(#[trigger] (a + b)[i]) by {
            if i < a.len() {
                assert((a + b)[i] == a[i]);
            } else {
                assert((a + b)[i] == b[i - a.len()]);
            }
        }
    }
}

/// The records of a run of well-formed transactions are shaped.
pub proof fn lemma_stake_deposit_transactions_shaped(txs: Seq<Transaction>)
    requires
        transactions_well_formed(txs),
    ensures
        all_stake_deposit_shaped(stake_deposits_of_transactions(txs)),
    decreases txs.len(),
{
    if txs.len() > 0 {
        lemma_transactions_well_formed_prefix(txs);
        lemma_stake_deposit_transactions_shaped(txs.drop_last());
        lemma_stake_deposit_logs_shaped(txs.last().call_logs@);
        let a = stake_deposits_of_transactions(txs.drop_last());
        let b: Seq<OwnedStakeTokenChangeView> = if succeeded(txs.last()) && deposits_stake_directly(txs.last().call_logs@) {
            stake_deposits_of_logs(txs.last().call_logs@)
        } else {
            Seq::empty()
        };
        assert forall|i: int| 0 <= i < (a + b).len() implies stake_deposit_shaped(#[trigger] (a + b)[i]) by {
            if i < a.len() {
                assert((a + b)[i] == a[i]);
            } else {
                assert((a + b)[i] == b[i - a.len()]);
            }
        }
    }
}

/// The shape of a closed-allocation record made of a well-formed event in
/// a transaction with a 32-byte hash.
pub open spec fn closed_allocation_shaped(r: AllocationClosedDataView) -> bool {
    &&& is_lower_hex_of_bytes(r.address, 20)
    &&& lowercase(r.address) == r.address
    &&& is_lower_hex_of_bytes(r.deployment_id, 32)
    &&& is_unsigned_decimal(r.tokens)
    &&& is_lower_hex_of_bytes(r.allocation_id, 20)
    &&& is_lower_hex_of_bytes(r.poi, 32)
    &&& is_lower_hex_of_bytes(r.transaction_hash, 32)
}

/// Every closed-allocation record of the run is shaped.
pub open spec fn all_closed_allocation_shaped(s: Seq<AllocationClosedDataView>) -> bool {
    forall|i: int| 0 <= i < s.len() ==> closed_allocation_shaped(#[trigger] s[i])
}

/// The closed-allocation records of a run of well-formed logs are shaped.
pub proof fn lemma_closed_allocation_logs_shaped(
    version: int,
    graph: Seq<u8>,
    tx_hash: Seq<u8>,
    logs: Seq<EventLog>,
)
    requires
        logs_well_formed(logs),
        tx_hash.len() == 32,
    ensures
        all_closed_allocation_shaped(closed_allocations_of_logs(version, graph, tx_hash, logs)),
    decreases logs.len(),
{
    if logs.len() > 0 {
        lemma_logs_well_formed_prefix(logs);
        lemma_closed_allocation_logs_shaped(version, graph, tx_hash, logs.drop_last());
        lemma_lower_hex_shape(tx_hash);
        match closed_allocation_of(version, logs.last().event) {
            Some(c) => {
                assert(closed_allocation_well_formed(c));
                lemma_lower_hex_shape(c.indexer@);
                lemma_lowercase_of_hex(c.indexer@);
                lemma_lower_hex_shape(c.subgraph_deployment_id@);
                lemma_lower_hex_shape(c.allocation_id@);
                lemma_lower_hex_shape(c.poi@);
                lemma_unsigned_decimal_shape(c.tokens.value());
            },
            None => {},
        }
        let a = closed_allocations_of_logs(version, graph, tx_hash, logs.drop_last());
        let whole = closed_allocations_of_logs(version, graph, tx_hash, logs);
        assert forall|i: int| 0 <= i < whole.len() implies closed_allocation_shaped(#[trigger] whole[i]) by {
            if i < a.len() {
                assert(whole[i] == a[i]);
            }
        }
    }
}

/// The closed-allocation records of a run of well-formed transactions are
/// shaped.
pub proof fn lemma_closed_allocation_transactions_shaped(
    version: int,
    graph: Seq<u8>,
    txs: Seq<Transaction>,
)
    requires
        transactions_well_formed(txs),
    ensures
        all_closed_allocation_shaped(closed_allocations_of_transactions(version, graph, txs)),
    decreases txs.len(),
{
    if txs.len() > 0 {
        lemma_transactions_well_formed_prefix(txs);
        lemma_closed_allocation_transactions_shaped(version, graph, txs.drop_last());
        lemma_closed_allocation_logs_shaped(version, graph, txs.last().hash@, receipt_logs_of(txs.last()));
        let a = closed_allocations_of_transactions(version, graph, txs.drop_last());
        let b: Seq<AllocationClosedDataView> = if succeeded(txs.last()) {
            closed_allocations_of_logs(version, graph, txs.last().hash@, receipt_logs_of(txs.last()))
        } else {
            Seq::empty()
        };
        assert forall|i: int| 0 <= i < (a + b).len() implies closed_allocation_shaped(#[trigger] (a + b)[i]) by {
            if i < a.len() {
                assert((a + b)[i] == a[i]);
            } else {
                assert((a + b)[i] == b[i - a.len()]);
            }
        }
    }
}

/// The `StakeWithdrawn` events that the staking contract emitted in a run
/// of logs, as (indexer bytes, tokens), in order.
pub open spec fn withdrawal_events_of_logs(graph: Seq<u8>, logs: Seq<EventLog>) -> Seq<(Seq<u8>, int)>
    decreases logs.len(),
{
    if logs.len() == 0 {
        Seq::empty()
    } else {
        withdrawal_events_of_logs(graph, logs.drop_last()) + match logs.last().event {
            GraphEvent::StakeWithdrawn { indexer, tokens } => if logs.last().address@ == graph {
                seq![(indexer@, tokens.value())]
            } else {
                Seq::empty()
            },
            _ => Seq::empty(),
        }
    }
}

/// The `StakeWithdrawn` events that the staking contract emitted in the
/// receipts of the successful transactions, in order.
pub open spec fn withdrawal_events(graph: Seq<u8>, txs: Seq<Transaction>) -> Seq<(Seq<u8>, int)>
    decreases txs.len(),
{
    if txs.len() == 0 {
        Seq::empty()
    } else {
        withdrawal_events(graph, txs.drop_last()) + if succeeded(txs.last()) {
            withdrawal_events_of_logs(graph, receipt_logs_of(txs.last()))
        } else {
            Seq::empty()
        }
    }
}

/// The withdrawal record of a (indexer bytes, tokens) event.
pub open spec fn withdrawal_record(e: (Seq<u8>, int)) -> OwnedStakeTokenChangeView {
    OwnedStakeTokenChangeView {
        indexer: crate::text::lower_hex(e.0),
        tokens_amount: seq!['-'] + decimal_string(e.1),
    }
}

/// The records are the withdrawal events, one for one; the events of
/// well-formed logs have 20-byte indexers and unsigned tokens.
pub open spec fn withdrawals_match_events(
    records: Seq<OwnedStakeTokenChangeView>,
    events: Seq<(Seq<u8>, int)>,
    well_formed: bool,
) -> bool {
    &&& records.len() == events.len()
    &&& forall|i: int| 0 <= i < records.len() ==> #[trigger] records[i] == withdrawal_record(events[i])
    &&& well_formed ==> forall|i: int|
        0 <= i < events.len() ==> (#[trigger] events[i]).0.len() == 20 && events[i].1 >= 0
}

/// Concatenations of matching runs match.
proof fn lemma_withdrawals_match_concat(
    r1: Seq<OwnedStakeTokenChangeView>,
    e1: Seq<(Seq<u8>, int)>,
    r2: Seq<OwnedStakeTokenChangeView>,
    e2: Seq<(Seq<u8>, int)>,
    well_formed: bool,
)
    requires
        withdrawals_match_events(r1, e1, well_formed),
        withdrawals_match_events(r2, e2, well_formed),
    ensures
        withdrawals_match_events(r1 + r2, e1 + e2, well_formed),
{
    assert forall|i: int| 0 <= i < (r1 + r2).len() implies #[trigger] (r1 + r2)[i] == withdrawal_record(
        (e1 + e2)[i],
    ) by {
        if i < r1.len() {
            assert((r1 + r2)[i] == r1[i] && (e1 + e2)[i] == e1[i]);
        } else {
            assert((r1 + r2)[i] == r2[i - r1.len()] && (e1 + e2)[i] == e2[i - e1.len()]);
        }
    }
    if well_formed {
        assert forall|i: int| 0 <= i < (e1 + e2).len() implies (#[trigger] (e1 + e2)[i]).0.len() == 20
            && (e1 + e2)[i].1 >= 0 by {
            if i < e1.len() {
                assert((e1 + e2)[i] == e1[i]);
            } else {
                assert((e1 + e2)[i] == e2[i - e1.len()]);
            }
        }
    }
}

/// The withdrawal records of a run of logs are its withdrawal events.
pub proof fn lemma_withdrawal_logs_match(graph: Seq<u8>, logs: Seq<EventLog>)
    ensures
        withdrawals_match_events(
            stake_withdrawals_of_logs(graph, logs),
            withdrawal_events_of_logs(graph, logs),
            logs_well_formed(logs),
        ),
    decreases logs.len(),
{
    if logs.len() > 0 {
        let wf = logs_well_formed(logs);
        if wf {
            lemma_logs_well_formed_prefix(logs);
        }
        lemma_withdrawal_logs_match(graph, logs.drop_last());
        let r2 = stake_withdrawal_of_log(graph, logs.last());
        let e2: Seq<(Seq<u8>, int)> = match logs.last().event {
            GraphEvent::StakeWithdrawn { indexer, tokens } => if logs.last().address@ == graph {
                seq![(indexer@, tokens.value())]
            } else {
                Seq::empty()
            },
            _ => Seq::empty(),
        };
        assert(withdrawals_match_events(r2, e2, wf));
        lemma_withdrawal_logs_match(graph, logs.drop_last());
        lemma_withdrawals_match_concat(
            stake_withdrawals_of_logs(graph, logs.drop_last()),
            withdrawal_events_of_logs(graph, logs.drop_last()),
            r2,
            e2,
            wf,
        );
    } else {
        assert(withdrawals_match_events(Seq::empty(), Seq::empty(), logs_well_formed(logs)));
    }
}

/// The withdrawal records of a run of transactions are its withdrawal
/// events.
pub proof fn lemma_withdrawals_match(graph: Seq<u8>, txs: Seq<Transaction>)
    ensures
        withdrawals_match_events(
            stake_withdrawals_of_transactions(graph, txs),
            withdrawal_events(graph, txs),
            transactions_well_formed(txs),
        ),
    decreases txs.len(),
{
    if txs.len() > 0 {
        let wf = transactions_well_formed(txs);
        if wf {
            lemma_transactions_well_formed_prefix(txs);
        }
        lemma_withdrawals_match(graph, txs.drop_last());
        let logs = receipt_logs_of(txs.last());
        lemma_withdrawal_logs_match(graph, logs);
        let r2: Seq<OwnedStakeTokenChangeView> = if succeeded(txs.last()) {
            stake_withdrawals_of_logs(graph, logs)
        } else {
            Seq::empty()
        };
        let e2: Seq<(Seq<u8>, int)> = if succeeded(txs.last()) {
            withdrawal_events_of_logs(graph, logs)
        } else {
            Seq::empty()
        };
        assert(withdrawals_match_events(r2, e2, wf));
        lemma_withdrawals_match_concat(
            stake_withdrawals_of_transactions(graph, txs.drop_last()),
            withdrawal_events(graph, txs.drop_last()),
            r2,
            e2,
            wf,
        );
    } else {
        assert(withdrawals_match_events(Seq::empty(), Seq::empty(), transactions_well_formed(txs)));
    }
}

/// The withdrawal record of an unsigned event names the indexer in 40
/// lower-case hexadecimal digits and writes the tokens as a text that
/// starts with '-' and parses to the negated tokens.
pub proof fn lemma_withdrawal_record_shape(e: (Seq<u8>, int))
    requires
        e.0.len() == 20,
        e.1 >= 0,
    ensures
        is_lower_hex_of_bytes(withdrawal_record(e).indexer, 20),
        withdrawal_record(e).tokens_amount[0] == '-',
        parse_decimal(withdrawal_record(e).tokens_amount) == Some(-e.1),
{
    lemma_lower_hex_shape(e.0);
    lemma_unsigned_decimal_shape(e.1);
}

} // verus!
