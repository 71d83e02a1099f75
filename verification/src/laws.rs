//! Laws that span the modules: how the stake store sums what the deposit
//! and withdrawal modules record.

use vstd::prelude::*;
use crate::amount::{
    lemma_decimal_round_trip, lemma_negated_decimal_round_trip, parse_decimal,
    parse_decimal_or_zero,
};
use crate::chain::{
    event_well_formed, logs_well_formed, transaction_well_formed, transactions_well_formed,
    GraphEvent, Transaction,
};
use crate::filter::IndexerFilter;
use crate::maps::{
    indexing_reward_of_log, indexing_rewards_of_logs, indexing_rewards_of_transactions,
    kept_allocations, pays_indexing_rewards, query_fee_of_log, query_fees_of_logs,
    query_fees_of_transactions, receipt_logs_of, stake_deposit_of_log, stake_deposits_of_logs, stake_deposits_of_transactions,
    stake_withdrawal_of_log, stake_withdrawals_of_logs, stake_withdrawals_of_transactions,
};
use crate::chain::{succeeded, EventLog};
use crate::records::{
    AllocationClosedDataView, IndexingRewardsCollectedView, OwnedStakeTokenChangeView,
    QueryFeesCollectedView,
};
use crate::stores::{stake_fold, stake_totals};
use crate::text::{ascii_lower_char, lemma_lowercase_of_hex, lower_hex, lowercase};
use crate::shapes::{lemma_withdrawals_match, withdrawal_events, withdrawal_record};
use vstd::utf8::is_ascii_chars;

verus! {

/// Whether a kept record of the run names the indexer `k`.
pub open spec fn kept_has(filter: IndexerFilter, xs: Seq<OwnedStakeTokenChangeView>, k: Seq<char>) -> bool {
    exists|i: int|
        0 <= i < xs.len() && filter.admits((#[trigger] xs[i]).indexer) && xs[i].indexer == k
}

/// The sum of the amounts of the kept records of the run that name `k`.
pub open spec fn kept_sum(filter: IndexerFilter, xs: Seq<OwnedStakeTokenChangeView>, k: Seq<char>) -> int
    decreases xs.len(),
{
    if xs.len() == 0 {
        0
    } else {
        kept_sum(filter, xs.drop_last(), k) + if filter.admits(xs.last().indexer)
            && xs.last().indexer == k {
            parse_decimal_or_zero(xs.last().tokens_amount)
        } else {
            0
        }
    }
}

/// Every kept record names its indexer in lower case and carries an amount
/// that parses.
pub open spec fn summable(filter: IndexerFilter, xs: Seq<OwnedStakeTokenChangeView>) -> bool {
    forall|i: int|
        0 <= i < xs.len() && filter.admits((#[trigger] xs[i]).indexer) ==> lowercase(xs[i].indexer)
            == xs[i].indexer && parse_decimal(xs[i].tokens_amount) is Some
}

/// The total already held under `k`, zero where there is none.
pub open spec fn held(m: Map<Seq<char>, int>, k: Seq<char>) -> int {
    if m.contains_key(k) {
        m[k]
    } else {
        0
    }
}

/// Summing law of the stake totals: where every kept record names its
/// indexer in lower case and carries an amount that parses, folding the
/// records into totals `m` adds to each indexer's total the sum of the
/// amounts of its kept records, and enters exactly the indexers named.
pub proof fn law_stake_fold_sums(
    filter: IndexerFilter,
    m: Map<Seq<char>, int>,
    xs: Seq<OwnedStakeTokenChangeView>,
)
    requires
        summable(filter, xs),
    ensures
        stake_fold(filter, m, xs) is Some,
        forall|k: Seq<char>|
            #![trigger stake_fold(filter, m, xs)->0.contains_key(k)]
            stake_fold(filter, m, xs)->0.contains_key(k) == (m.contains_key(k) || kept_has(
                filter,
                xs,
                k,
            )),
        forall|k: Seq<char>|
            #![trigger stake_fold(filter, m, xs)->0.contains_key(k)]
            stake_fold(filter, m, xs)->0.contains_key(k) ==> stake_fold(filter, m, xs)->0[k]
                == held(m, k) + kept_sum(filter, xs, k),
        forall|k: Seq<char>|
            #![trigger stake_fold(filter, m, xs)->0.contains_key(k)]
            !stake_fold(filter, m, xs)->0.contains_key(k) ==> kept_sum(filter, xs, k) == 0,
    decreases xs.len(),
{
    if xs.len() > 0 {
        let ys = xs.drop_last();
        let x = xs.last();
        assert(summable(filter, ys)) by {
            assert forall|i: int| 0 <= i < ys.len() && filter.admits((#[trigger] ys[i]).indexer) implies lowercase(
                ys[i].indexer,
            ) == ys[i].indexer && parse_decimal(ys[i].tokens_amount) is Some by {
                assert(ys[i] == xs[i]);
            }
        }
        law_stake_fold_sums(filter, m, ys);
        let m1 = stake_fold(filter, m, ys)->0;
        let m2 = stake_fold(filter, m, xs)->0;
        assert forall|k: Seq<char>| kept_has(filter, xs, k) == (kept_has(filter, ys, k) || (
            filter.admits(x.indexer) && x.indexer == k)) by {
            if kept_has(filter, xs, k) {
                let i = choose|i: int|
                    0 <= i < xs.len() && filter.admits((#[trigger] xs[i]).indexer) && xs[i].indexer
                        == k;
                if i < ys.len() {
                    assert(ys[i] == xs[i]);
                }
            }
            if kept_has(filter, ys, k) {
                let i = choose|i: int|
                    0 <= i < ys.len() && filter.admits((#[trigger] ys[i]).indexer) && ys[i].indexer
                        == k;
                assert(xs[i] == ys[i]);
            }
            if filter.admits(x.indexer) && x.indexer == k {
                assert(xs[xs.len() - 1] == x);
            }
        }
        if filter.admits(x.indexer) {
            assert(xs[xs.len() - 1] == x);
            let k0 = x.indexer;
            let b = parse_decimal(x.tokens_amount)->0;
            assert(lowercase(k0) == k0);
            assert(m2 == m1.insert(k0, held(m1, k0) + b));
            assert forall|k: Seq<char>| m2.contains_key(k) implies m2[k] == held(m, k) + kept_sum(
                filter,
                xs,
                k,
            ) by {
                if k == k0 && !m1.contains_key(k0) {
                    assert(kept_sum(filter, ys, k0) == 0);
                    assert(!m.contains_key(k0));
                }
            }
        }
    }
}

/// The records of the deposit module name their indexers in lower-case
/// hexadecimal and carry decimal amounts.
proof fn lemma_deposit_records_summable(filter: IndexerFilter, txs: Seq<Transaction>)
    ensures
        summable(filter, stake_deposits_of_transactions(txs)),
    decreases txs.len(),
{
    if txs.len() > 0 {
        lemma_deposit_records_summable(filter, txs.drop_last());
        let logs = txs.last().call_logs@;
        lemma_deposit_logs_summable(filter, logs);
        let a = stake_deposits_of_transactions(txs.drop_last());
        let b = stake_deposits_of_logs(logs);
        let whole = stake_deposits_of_transactions(txs);
        assert forall|i: int| 0 <= i < whole.len() && filter.admits((#[trigger] whole[i]).indexer) implies lowercase(
            whole[i].indexer,
        ) == whole[i].indexer && parse_decimal(whole[i].tokens_amount) is Some by {
            if i < a.len() {
                assert(whole[i] == a[i]);
            } else {
                assert(whole[i] == b[i - a.len()]);
            }
        }
    }
}

/// The deposit records of a run of logs are summable.
proof fn lemma_deposit_logs_summable(filter: IndexerFilter, logs: Seq<crate::chain::EventLog>)
    ensures
        summable(filter, stake_deposits_of_logs(logs)),
    decreases logs.len(),
{
    if logs.len() > 0 {
        lemma_deposit_logs_summable(filter, logs.drop_last());
        let a = stake_deposits_of_logs(logs.drop_last());
        let b = stake_deposit_of_log(logs.last());
        let whole = stake_deposits_of_logs(logs);
        match logs.last().event {
            GraphEvent::StakeDeposited { indexer, tokens } => {
                lemma_lowercase_of_hex(indexer@);
                lemma_decimal_round_trip(tokens.value());
            },
            _ => {},
        }
        assert forall|i: int| 0 <= i < whole.len() && filter.admits((#[trigger] whole[i]).indexer) implies lowercase(
            whole[i].indexer,
        ) == whole[i].indexer && parse_decimal(whole[i].tokens_amount) is Some by {
            if i < a.len() {
                assert(whole[i] == a[i]);
            } else {
                assert(whole[i] == b[i - a.len()]);
            }
        }
    }
}

/// Every `StakeWithdrawn` event in the receipts holds a non-negative
/// amount (as the contract's unsigned amounts do).
pub open spec fn withdrawals_nonnegative(txs: Seq<Transaction>) -> bool {
    forall|i: int, j: int|
        #![trigger receipt_logs_of(txs[i])[j]]
        0 <= i < txs.len() && 0 <= j < receipt_logs_of(txs[i]).len() ==> match receipt_logs_of(
            txs[i],
        )[j].event {
            GraphEvent::StakeWithdrawn { indexer, tokens } => tokens.value() >= 0,
            _ => true,
        }
}

/// The withdrawal records of a run of non-negative withdrawals are
/// summable.
proof fn lemma_withdrawal_logs_summable(
    filter: IndexerFilter,
    graph: Seq<u8>,
    logs: Seq<crate::chain::EventLog>,
)
    requires
        forall|j: int|
            0 <= j < logs.len() ==> match (#[trigger] logs[j]).event {
                GraphEvent::StakeWithdrawn { indexer, tokens } => tokens.value() >= 0,
                _ => true,
            },
    ensures
        summable(filter, stake_withdrawals_of_logs(graph, logs)),
    decreases logs.len(),
{
    if logs.len() > 0 {
        assert forall|j: int| 0 <= j < logs.len() - 1 implies match (#[trigger] logs.drop_last()[j]).event {
            GraphEvent::StakeWithdrawn { indexer, tokens } => tokens.value() >= 0,
            _ => true,
        } by {
            assert(logs.drop_last()[j] == logs[j]);
        }
        lemma_withdrawal_logs_summable(filter, graph, logs.drop_last());
        let a = stake_withdrawals_of_logs(graph, logs.drop_last());
        let b = stake_withdrawal_of_log(graph, logs.last());
        let whole = stake_withdrawals_of_logs(graph, logs);
        assert(logs[logs.len() - 1] == logs.last());
        match logs.last().event {
            GraphEvent::StakeWithdrawn { indexer, tokens } => {
                lemma_lowercase_of_hex(indexer@);
                lemma_negated_decimal_round_trip(tokens.value());
            },
            _ => {},
        }
        assert forall|i: int| 0 <= i < whole.len() && filter.admits((#[trigger] whole[i]).indexer) implies lowercase(
            whole[i].indexer,
        ) == whole[i].indexer && parse_decimal(whole[i].tokens_amount) is Some by {
            if i < a.len() {
                assert(whole[i] == a[i]);
            } else {
                assert(whole[i] == b[i - a.len()]);
            }
        }
    }
}

/// The records of the withdrawal module are summable where the withdrawn
/// amounts are non-negative.
proof fn lemma_withdrawal_records_summable(filter: IndexerFilter, graph: Seq<u8>, txs: Seq<Transaction>)
    requires
        withdrawals_nonnegative(txs),
    ensures
        summable(filter, stake_withdrawals_of_transactions(graph, txs)),
    decreases txs.len(),
{
    if txs.len() > 0 {
        let n = txs.len() - 1;
        assert(withdrawals_nonnegative(txs.drop_last())) by {
            assert forall|i: int, j: int|
                0 <= i < txs.drop_last().len() && 0 <= j < receipt_logs_of(txs.drop_last()[i]).len() implies match #[trigger] receipt_logs_of(
                txs.drop_last()[i],
            )[j].event {
                GraphEvent::StakeWithdrawn { indexer, tokens } => tokens.value() >= 0,
                _ => true,
            } by {
                assert(txs.drop_last()[i] == txs[i]);
                assert(receipt_logs_of(txs[i])[j] == receipt_logs_of(txs[i])[j]);
            }
        }
        lemma_withdrawal_records_summable(filter, graph, txs.drop_last());
        let logs = receipt_logs_of(txs.last());
        assert forall|j: int| 0 <= j < logs.len() implies match (#[trigger] logs[j]).event {
            GraphEvent::StakeWithdrawn { indexer, tokens } => tokens.value() >= 0,
            _ => true,
        } by {
            assert(txs[n] == txs.last());
            assert(receipt_logs_of(txs[n])[j] == logs[j]);
        }
        lemma_withdrawal_logs_summable(filter, graph, logs);
        let a = stake_withdrawals_of_transactions(graph, txs.drop_last());
        let b = stake_withdrawals_of_logs(graph, logs);
        let whole = stake_withdrawals_of_transactions(graph, txs);
        assert forall|i: int| 0 <= i < whole.len() && filter.admits((#[trigger] whole[i]).indexer) implies lowercase(
            whole[i].indexer,
        ) == whole[i].indexer && parse_decimal(whole[i].tokens_amount) is Some by {
            if i < a.len() {
                assert(whole[i] == a[i]);
            } else {
                assert(whole[i] == b[i - a.len()]);
            }
        }
    }
}

/// Net-stake law: for the records that the deposit and withdrawal modules
/// make of a well-formed block, the stake store's totals are defined, hold
/// exactly the indexers named by a kept record, and hold for each the sum of
/// its deposited amounts plus the sum of its (negated) withdrawn amounts.
pub proof fn law_net_stake(filter: IndexerFilter, graph: Seq<u8>, txs: Seq<Transaction>)
    requires
        transactions_well_formed(txs),
    ensures
        ({
            let deposited = stake_deposits_of_transactions(txs);
            let withdrawn = stake_withdrawals_of_transactions(graph, txs);
            let totals = stake_totals(filter, deposited, withdrawn);
            &&& totals is Some
            &&& forall|k: Seq<char>|
                #![trigger totals->0.contains_key(k)]
                totals->0.contains_key(k) == (kept_has(filter, deposited, k) || kept_has(
                    filter,
                    withdrawn,
                    k,
                ))
            &&& forall|k: Seq<char>|
                #![trigger totals->0.contains_key(k)]
                totals->0.contains_key(k) ==> totals->0[k] == kept_sum(filter, deposited, k)
                    + kept_sum(filter, withdrawn, k)
        }),
{
    let deposited = stake_deposits_of_transactions(txs);
    let withdrawn = stake_withdrawals_of_transactions(graph, txs);
    lemma_withdrawals_nonnegative(txs);
    lemma_deposit_records_summable(filter, txs);
    lemma_withdrawal_records_summable(filter, graph, txs);
    let empty = Map::<Seq<char>, int>::empty();
    law_stake_fold_sums(filter, empty, deposited);
    let m = stake_fold(filter, empty, deposited)->0;
    law_stake_fold_sums(filter, m, withdrawn);
    let totals = stake_totals(filter, deposited, withdrawn)->0;
    assert forall|k: Seq<char>| totals.contains_key(k) implies totals[k] == kept_sum(
        filter,
        deposited,
        k,
    ) + kept_sum(filter, withdrawn, k) by {
        if !m.contains_key(k) {
            assert(kept_sum(filter, deposited, k) == 0);
        }
    }
}

/// The query-fee records of a run of logs name only kept indexers.
proof fn lemma_query_fee_logs_kept(filter: IndexerFilter, graph: Seq<u8>, logs: Seq<EventLog>)
    ensures
        forall|i: int|
            0 <= i < query_fees_of_logs(filter, graph, logs).len() ==> filter.admits(
                (#[trigger] query_fees_of_logs(filter, graph, logs)[i]).indexer,
            ),
    decreases logs.len(),
{
    if logs.len() > 0 {
        lemma_query_fee_logs_kept(filter, graph, logs.drop_last());
        let a = query_fees_of_logs(filter, graph, logs.drop_last());
        let b = query_fee_of_log(filter, graph, logs.last());
        assert forall|i: int| 0 <= i < (a + b).len() implies filter.admits(
            (#[trigger] (a + b)[i]).indexer,
        ) by {
            if i < a.len() {
                assert((a + b)[i] == a[i]);
            } else {
                assert((a + b)[i] == b[i - a.len()]);
            }
        }
    }
}

/// Filter law of the query-fee module: every record it makes of a block
/// names an indexer that the filter keeps.
pub proof fn law_query_fees_only_kept_indexers(
    filter: IndexerFilter,
    graph: Seq<u8>,
    txs: Seq<crate::chain::Transaction>,
)
    ensures
        forall|i: int|
            0 <= i < query_fees_of_transactions(filter, graph, txs).len() ==> filter.admits(
                (#[trigger] query_fees_of_transactions(filter, graph, txs)[i]).indexer,
            ),
    decreases txs.len(),
{
    if txs.len() > 0 {
        law_query_fees_only_kept_indexers(filter, graph, txs.drop_last());
        lemma_query_fee_logs_kept(filter, graph, txs.last().call_logs@);
        let a = query_fees_of_transactions(filter, graph, txs.drop_last());
        let b: Seq<QueryFeesCollectedView> = if succeeded(txs.last()) {
            query_fees_of_logs(filter, graph, txs.last().call_logs@)
        } else {
            Seq::empty()
        };
        assert forall|i: int| 0 <= i < (a + b).len() implies filter.admits(
            (#[trigger] (a + b)[i]).indexer,
        ) by {
            if i < a.len() {
                assert((a + b)[i] == a[i]);
            } else {
                assert((a + b)[i] == b[i - a.len()]);
            }
        }
    }
}

/// The rewards records of a run of logs name only kept indexers.
proof fn lemma_reward_logs_kept(filter: IndexerFilter, graph: Seq<u8>, logs: Seq<EventLog>)
    ensures
        forall|i: int|
            0 <= i < indexing_rewards_of_logs(filter, graph, logs).len() ==> filter.admits(
                (#[trigger] indexing_rewards_of_logs(filter, graph, logs)[i]).indexer,
            ),
    decreases logs.len(),
{
    if logs.len() > 0 {
        lemma_reward_logs_kept(filter, graph, logs.drop_last());
        let a = indexing_rewards_of_logs(filter, graph, logs.drop_last());
        let b = indexing_reward_of_log(filter, graph, logs.last());
        assert forall|i: int| 0 <= i < (a + b).len() implies filter.admits(
            (#[trigger] (a + b)[i]).indexer,
        ) by {
            if i < a.len() {
                assert((a + b)[i] == a[i]);
            } else {
                assert((a + b)[i] == b[i - a.len()]);
            }
        }
    }
}

/// Filter law of the indexing-rewards module: every record it makes of a
/// block names an indexer that the filter keeps.
pub proof fn law_indexing_rewards_only_kept_indexers(
    filter: IndexerFilter,
    graph: Seq<u8>,
    txs: Seq<crate::chain::Transaction>,
)
    ensures
        forall|i: int|
            0 <= i < indexing_rewards_of_transactions(filter, graph, txs).len() ==> filter.admits(
                (#[trigger] indexing_rewards_of_transactions(filter, graph, txs)[i]).indexer,
            ),
    decreases txs.len(),
{
    if txs.len() > 0 {
        law_indexing_rewards_only_kept_indexers(filter, graph, txs.drop_last());
        lemma_reward_logs_kept(filter, graph, txs.last().call_logs@);
        let a = indexing_rewards_of_transactions(filter, graph, txs.drop_last());
        let b: Seq<IndexingRewardsCollectedView> = if succeeded(txs.last())
            && pays_indexing_rewards(graph, txs.last().call_logs@) {
            indexing_rewards_of_logs(filter, graph, txs.last().call_logs@)
        } else {
            Seq::empty()
        };
        assert forall|i: int| 0 <= i < (a + b).len() implies filter.admits(
            (#[trigger] (a + b)[i]).indexer,
        ) by {
            if i < a.len() {
                assert((a + b)[i] == a[i]);
            } else {
                assert((a + b)[i] == b[i - a.len()]);
            }
        }
    }
}

/// Filter law of the closed-allocation module: it keeps the allocations of
/// exactly the indexers that the filter keeps, so with a filter that keeps
/// every indexer it passes both versions through whole, in order.
pub proof fn law_kept_allocations(filter: IndexerFilter, s: Seq<AllocationClosedDataView>)
    ensures
        forall|i: int|
            0 <= i < kept_allocations(filter, s).len() ==> filter.admits(
                (#[trigger] kept_allocations(filter, s)[i]).address,
            ),
        (forall|k: Seq<char>| filter.admits(k)) ==> kept_allocations(filter, s) == s,
    decreases s.len(),
{
    let keep = |a: AllocationClosedDataView| filter.admits(a.address);
    assert forall|i: int| 0 <= i < kept_allocations(filter, s).len() implies filter.admits(
        (#[trigger] kept_allocations(filter, s)[i]).address,
    ) by {
        s.lemma_filter_pred(keep, i);
    }
    if forall|k: Seq<char>| filter.admits(k) {
        if s.len() > 0 {
            law_kept_allocations(filter, s.drop_last());
            reveal(Seq::filter);
            assert(s.drop_last().push(s.last()) =~= s);
        } else {
            reveal(Seq::filter);
        }
    }
}

/// Well-formed transactions withdraw non-negative amounts.
proof fn lemma_withdrawals_nonnegative(txs: Seq<Transaction>)
    requires
        transactions_well_formed(txs),
    ensures
        withdrawals_nonnegative(txs),
{
    assert forall|i: int, j: int|
        0 <= i < txs.len() && 0 <= j < receipt_logs_of(txs[i]).len() implies match #[trigger] receipt_logs_of(
        txs[i],
    )[j].event {
        GraphEvent::StakeWithdrawn { indexer, tokens } => tokens.value() >= 0,
        _ => true,
    } by {
        assert(transaction_well_formed(txs[i]));
        let logs = receipt_logs_of(txs[i]);
        assert(logs_well_formed(logs));
        assert(event_well_formed(logs[j].event));
    }
}

/// The sum of the tokens of the withdrawal events whose indexer is written
/// `k`.
pub open spec fn withdrawn_total(events: Seq<(Seq<u8>, int)>, k: Seq<char>) -> int
    decreases events.len(),
{
    if events.len() == 0 {
        0
    } else {
        withdrawn_total(events.drop_last(), k) + if lower_hex(events.last().0) == k {
            events.last().1
        } else {
            0
        }
    }
}

/// The kept sum of withdrawal records is the negated total of their events.
proof fn lemma_withdrawal_kept_sum(
    filter: IndexerFilter,
    records: Seq<OwnedStakeTokenChangeView>,
    events: Seq<(Seq<u8>, int)>,
    k: Seq<char>,
)
    requires
        records.len() == events.len(),
        forall|i: int| 0 <= i < records.len() ==> #[trigger] records[i] == withdrawal_record(events[i]),
        forall|i: int| 0 <= i < events.len() ==> (#[trigger] events[i]).1 >= 0,
    ensures
        kept_sum(filter, records, k) == if filter.admits(k) {
            -withdrawn_total(events, k)
        } else {
            0
        },
    decreases records.len(),
{
    if records.len() > 0 {
        let n = records.len() - 1;
        assert forall|i: int| 0 <= i < n implies #[trigger] records.drop_last()[i] == withdrawal_record(
            events.drop_last()[i],
        ) by {
            assert(records.drop_last()[i] == records[i]);
            assert(events.drop_last()[i] == events[i]);
        }
        assert forall|i: int| 0 <= i < n implies (#[trigger] events.drop_last()[i]).1 >= 0 by {
            assert(events.drop_last()[i] == events[i]);
        }
        lemma_withdrawal_kept_sum(filter, records.drop_last(), events.drop_last(), k);
        assert(records[n] == withdrawal_record(events[n]));
        assert(events[n].1 >= 0);
        lemma_negated_decimal_round_trip(events[n].1);
    }
}

/// Withdrawal-only law: where no stake was deposited, the stake store's
/// totals for the withdrawals of a well-formed block are defined and hold,
/// for each kept indexer that withdrew, the negated sum of its withdrawn
/// tokens, and no other indexer.
pub proof fn law_withdrawal_only_totals(filter: IndexerFilter, graph: Seq<u8>, txs: Seq<Transaction>)
    requires
        transactions_well_formed(txs),
    ensures
        ({
            let withdrawn = stake_withdrawals_of_transactions(graph, txs);
            let events = withdrawal_events(graph, txs);
            let totals = stake_totals(filter, Seq::empty(), withdrawn);
            &&& totals is Some
            &&& forall|k: Seq<char>|
                #![trigger totals->0.contains_key(k)]
                totals->0.contains_key(k) == (filter.admits(k) && exists|i: int|
                    0 <= i < events.len() && lower_hex((#[trigger] events[i]).0) == k)
            &&& forall|k: Seq<char>|
                #![trigger totals->0.contains_key(k)]
                totals->0.contains_key(k) ==> totals->0[k] == -withdrawn_total(events, k)
        }),
{
    let withdrawn = stake_withdrawals_of_transactions(graph, txs);
    let events = withdrawal_events(graph, txs);
    lemma_withdrawals_match(graph, txs);
    lemma_withdrawals_nonnegative(txs);
    lemma_withdrawal_records_summable(filter, graph, txs);
    let empty = Map::<Seq<char>, int>::empty();
    assert(stake_fold(filter, empty, Seq::<OwnedStakeTokenChangeView>::empty()) == Some(empty));
    law_stake_fold_sums(filter, empty, withdrawn);
    let totals = stake_totals(filter, Seq::empty(), withdrawn)->0;
    assert forall|k: Seq<char>| kept_has(filter, withdrawn, k) == (filter.admits(k) && exists|i: int|
        0 <= i < events.len() && lower_hex((#[trigger] events[i]).0) == k) by {
        if kept_has(filter, withdrawn, k) {
            let i = choose|i: int|
                0 <= i < withdrawn.len() && filter.admits((#[trigger] withdrawn[i]).indexer)
                    && withdrawn[i].indexer == k;
            assert(withdrawn[i] == withdrawal_record(events[i]));
        }
        if filter.admits(k) && exists|i: int|
            0 <= i < events.len() && lower_hex((#[trigger] events[i]).0) == k {
            let i = choose|i: int| 0 <= i < events.len() && lower_hex((#[trigger] events[i]).0) == k;
            assert(withdrawn[i] == withdrawal_record(events[i]));
        }
    }
    assert forall|k: Seq<char>| totals.contains_key(k) implies totals[k] == -withdrawn_total(
        events,
        k,
    ) by {
        lemma_withdrawal_kept_sum(filter, withdrawn, events, k);
    }
}

/// Whether `k` is the lower-cased indexer of a kept record of the run.
pub open spec fn lowercased_kept_indexer(
    filter: IndexerFilter,
    xs: Seq<OwnedStakeTokenChangeView>,
    k: Seq<char>,
) -> bool {
    exists|i: int|
        0 <= i < xs.len() && filter.admits((#[trigger] xs[i]).indexer) && k == lowercase(
            xs[i].indexer,
        )
}

/// Every key that the fold enters is one of `m` or the lower-cased
/// indexer of a kept record.
proof fn lemma_stake_fold_keys(
    filter: IndexerFilter,
    m: Map<Seq<char>, int>,
    xs: Seq<OwnedStakeTokenChangeView>,
)
    ensures
        stake_fold(filter, m, xs) is Some ==> forall|k: Seq<char>|
            #![trigger stake_fold(filter, m, xs)->0.contains_key(k)]
            stake_fold(filter, m, xs)->0.contains_key(k) ==> m.contains_key(k)
                || lowercased_kept_indexer(filter, xs, k),
    decreases xs.len(),
{
    if xs.len() > 0 {
        let ys = xs.drop_last();
        lemma_stake_fold_keys(filter, m, ys);
        if stake_fold(filter, m, xs) is Some {
            let m1 = stake_fold(filter, m, ys)->0;
            let m2 = stake_fold(filter, m, xs)->0;
            assert forall|k: Seq<char>| m2.contains_key(k) implies m.contains_key(k)
                || lowercased_kept_indexer(filter, xs, k) by {
                if m1.contains_key(k) {
                    if lowercased_kept_indexer(filter, ys, k) {
                        let i = choose|i: int|
                            0 <= i < ys.len() && filter.admits((#[trigger] ys[i]).indexer) && k
                                == lowercase(ys[i].indexer);
                        assert(xs[i] == ys[i]);
                    }
                } else {
                    assert(xs[xs.len() - 1] == xs.last());
                }
            }
        }
    }
}

/// Lower-casing ASCII text gives ASCII text that lower-casing leaves as it
/// is.
pub proof fn lemma_ascii_lowercase_idempotent(s: Seq<char>)
    requires
        is_ascii_chars(s),
    ensures
        is_ascii_chars(lowercase(s)),
        lowercase(lowercase(s)) == lowercase(s),
{
    let l = lowercase(s);
    assert forall|i: int| 0 <= i < l.len() implies '\0' <= #[trigger] l[i] <= '\u{7f}'
        && ascii_lower_char(l[i]) == l[i] by {
        assert(l[i] == ascii_lower_char(s[i]));
        if 'A' <= s[i] && s[i] <= 'Z' {
            assert(ascii_lower_char(s[i]) as int == s[i] as int + 32);
        }
    }
    assert(l.map_values(|c: char| ascii_lower_char(c)) =~= l);
}

/// Key law of the stake store: every key it receives is the lower-cased
/// text of a kept deposit or withdrawal indexer, so where those indexers are
/// ASCII every key equals its lower-cased form.
pub proof fn law_stake_keys_lowercased(
    filter: IndexerFilter,
    deposited: Seq<OwnedStakeTokenChangeView>,
    withdrawn: Seq<OwnedStakeTokenChangeView>,
)
    ensures
        stake_totals(filter, deposited, withdrawn) is Some ==> forall|k: Seq<char>|
            #![trigger stake_totals(filter, deposited, withdrawn)->0.contains_key(k)]
            stake_totals(filter, deposited, withdrawn)->0.contains_key(k) ==> (
            lowercased_kept_indexer(filter, deposited, k) || lowercased_kept_indexer(
                filter,
                withdrawn,
                k,
            )),
        stake_totals(filter, deposited, withdrawn) is Some && (forall|i: int|
            0 <= i < deposited.len() ==> is_ascii_chars((#[trigger] deposited[i]).indexer)) && (
        forall|i: int| 0 <= i < withdrawn.len() ==> is_ascii_chars((#[trigger] withdrawn[i]).indexer))
            ==> forall|k: Seq<char>|
            #![trigger stake_totals(filter, deposited, withdrawn)->0.contains_key(k)]
            stake_totals(filter, deposited, withdrawn)->0.contains_key(k) ==> lowercase(k) == k,
{
    let empty = Map::<Seq<char>, int>::empty();
    lemma_stake_fold_keys(filter, empty, deposited);
    if stake_fold(filter, empty, deposited) is Some {
        let m = stake_fold(filter, empty, deposited)->0;
        lemma_stake_fold_keys(filter, m, withdrawn);
        if stake_totals(filter, deposited, withdrawn) is Some {
            let totals = stake_totals(filter, deposited, withdrawn)->0;
            if (forall|i: int| 0 <= i < deposited.len() ==> is_ascii_chars((#[trigger] deposited[i]).indexer))
                && (forall|i: int| 0 <= i < withdrawn.len() ==> is_ascii_chars((#[trigger] withdrawn[i]).indexer)) {
                assert forall|k: Seq<char>| totals.contains_key(k) implies lowercase(k) == k by {
                    if lowercased_kept_indexer(filter, deposited, k) {
                        let i = choose|i: int|
                            0 <= i < deposited.len() && filter.admits((#[trigger] deposited[i]).indexer) && k
                                == lowercase(deposited[i].indexer);
                        lemma_ascii_lowercase_idempotent(deposited[i].indexer);
                    } else {
                        let i = choose|i: int|
                            0 <= i < withdrawn.len() && filter.admits((#[trigger] withdrawn[i]).indexer) && k
                                == lowercase(withdrawn[i].indexer);
                        lemma_ascii_lowercase_idempotent(withdrawn[i].indexer);
                    }
                }
            }
        }
    }
}

} // verus!
