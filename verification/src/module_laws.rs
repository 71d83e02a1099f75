//! Laws of single modules that the reader may want at hand: which
//! transactions and logs cannot contribute, how a listed filter relates to
//! "*", and how the stake store treats the order of its inputs.

use vstd::prelude::*;
use crate::chain::{succeeded, EventLog, Transaction};
use crate::filter::IndexerFilter;
use crate::laws::{held, kept_has, kept_sum, law_stake_fold_sums, summable};
use crate::maps::{
    deposits_stake_directly, indexing_reward_of_log, indexing_rewards_of_logs,
    indexing_rewards_of_transactions, kept_allocations, pays_indexing_rewards, query_fee_of_log,
    query_fees_of_logs, query_fees_of_transactions, stake_deposits_of_transactions,
};
use crate::records::{
    AllocationClosedDataView, IndexingRewardsCollectedView, OwnedStakeTokenChangeView,
    QueryFeesCollectedView,
};
use crate::stores::{stake_fold, stake_totals};

verus! {

broadcast use Seq::filter_distributes_over_add;

/// The rewards records of two runs of transactions one after the other.
proof fn lemma_rewards_concat(
    filter: IndexerFilter,
    graph: Seq<u8>,
    a: Seq<Transaction>,
    b: Seq<Transaction>,
)
    ensures
        indexing_rewards_of_transactions(filter, graph, a + b) == indexing_rewards_of_transactions(
            filter,
            graph,
            a,
        ) + indexing_rewards_of_transactions(filter, graph, b),
    decreases b.len(),
{
    if b.len() == 0 {
        assert(a + b =~= a);
        assert(indexing_rewards_of_transactions(filter, graph, a) + Seq::empty() =~= indexing_rewards_of_transactions(filter, graph, a));
    } else {
        lemma_rewards_concat(filter, graph, a, b.drop_last());
        assert((a + b).drop_last() =~= a + b.drop_last());
        assert((a + b).last() == b.last());
        let x = indexing_rewards_of_transactions(filter, graph, a);
        let y = indexing_rewards_of_transactions(filter, graph, b.drop_last());
        let z: Seq<IndexingRewardsCollectedView> = if succeeded(b.last()) && pays_indexing_rewards(
            graph,
            b.last().call_logs@,
        ) {
            indexing_rewards_of_logs(filter, graph, b.last().call_logs@)
        } else {
            Seq::empty()
        };
        assert(x + y + z =~= x + (y + z));
    }
}

/// Rewards law: removing a transaction that fails, or lacks a log of the
/// staking contract, a `RewardsAssigned` log or a `Transfer` log, leaves the
/// rewards records as they are.
pub proof fn law_rewards_ignore_non_paying_transaction(
    filter: IndexerFilter,
    graph: Seq<u8>,
    txs: Seq<Transaction>,
    k: int,
)
    requires
        0 <= k < txs.len(),
        !(succeeded(txs[k]) && pays_indexing_rewards(graph, txs[k].call_logs@)),
    ensures
        indexing_rewards_of_transactions(filter, graph, txs) == indexing_rewards_of_transactions(
            filter,
            graph,
            txs.remove(k),
        ),
{
    let pre = txs.take(k);
    let one = seq![txs[k]];
    let post = txs.skip(k + 1);
    assert(txs =~= pre + one + post);
    assert(txs.remove(k) =~= pre + post);
    lemma_rewards_concat(filter, graph, pre + one, post);
    lemma_rewards_concat(filter, graph, pre, one);
    lemma_rewards_concat(filter, graph, pre, post);
    assert(one.drop_last() =~= Seq::<Transaction>::empty());
    assert(one.last() == txs[k]);
    assert(indexing_rewards_of_transactions(filter, graph, one.drop_last()) == Seq::<IndexingRewardsCollectedView>::empty());
    assert(indexing_rewards_of_transactions(filter, graph, one) == indexing_rewards_of_transactions(filter, graph, one.drop_last()) + Seq::<IndexingRewardsCollectedView>::empty());
    assert(indexing_rewards_of_transactions(filter, graph, one) =~= Seq::<IndexingRewardsCollectedView>::empty());
    assert(indexing_rewards_of_transactions(filter, graph, pre) + Seq::empty() =~= indexing_rewards_of_transactions(filter, graph, pre));
}

/// The deposit records of two runs of transactions one after the other.
proof fn lemma_deposits_concat(a: Seq<Transaction>, b: Seq<Transaction>)
    ensures
        stake_deposits_of_transactions(a + b) == stake_deposits_of_transactions(a)
            + stake_deposits_of_transactions(b),
    decreases b.len(),
{
    if b.len() == 0 {
        assert(a + b =~= a);
        assert(stake_deposits_of_transactions(a) + Seq::empty() =~= stake_deposits_of_transactions(a));
    } else {
        lemma_deposits_concat(a, b.drop_last());
        assert((a + b).drop_last() =~= a + b.drop_last());
        assert((a + b).last() == b.last());
        let x = stake_deposits_of_transactions(a);
        let y = stake_deposits_of_transactions(b.drop_last());
        let z: Seq<OwnedStakeTokenChangeView> = if succeeded(b.last()) && deposits_stake_directly(
            b.last().call_logs@,
        ) {
            crate::maps::stake_deposits_of_logs(b.last().call_logs@)
        } else {
            Seq::empty()
        };
        assert(x + y + z =~= x + (y + z));
    }
}

/// Deposit law: removing a transaction that fails, closes an allocation,
/// assigns rewards or moves no tokens leaves the deposit records as they
/// are.
pub proof fn law_deposits_ignore_indirect_transaction(txs: Seq<Transaction>, k: int)
    requires
        0 <= k < txs.len(),
        !(succeeded(txs[k]) && deposits_stake_directly(txs[k].call_logs@)),
    ensures
        stake_deposits_of_transactions(txs) == stake_deposits_of_transactions(txs.remove(k)),
{
    let pre = txs.take(k);
    let one = seq![txs[k]];
    let post = txs.skip(k + 1);
    assert(txs =~= pre + one + post);
    assert(txs.remove(k) =~= pre + post);
    lemma_deposits_concat(pre + one, post);
    lemma_deposits_concat(pre, one);
    lemma_deposits_concat(pre, post);
    assert(one.drop_last() =~= Seq::<Transaction>::empty());
    assert(one.last() == txs[k]);
    assert(stake_deposits_of_transactions(one.drop_last()) == Seq::<OwnedStakeTokenChangeView>::empty());
    assert(stake_deposits_of_transactions(one) == stake_deposits_of_transactions(one.drop_last()) + Seq::<OwnedStakeTokenChangeView>::empty());
    assert(stake_deposits_of_transactions(one) =~= Seq::<OwnedStakeTokenChangeView>::empty());
    assert(stake_deposits_of_transactions(pre) + Seq::empty() =~= stake_deposits_of_transactions(pre));
}

/// The query-fee records that a filter keeps.
pub open spec fn query_fee_kept_by(filter: IndexerFilter) -> spec_fn(QueryFeesCollectedView) -> bool {
    |r: QueryFeesCollectedView| filter.admits(r.indexer)
}

/// The rewards records that a filter keeps.
pub open spec fn reward_kept_by(filter: IndexerFilter) -> spec_fn(IndexingRewardsCollectedView) -> bool {
    |r: IndexingRewardsCollectedView| filter.admits(r.indexer)
}

/// A filter that keeps every indexer.
pub open spec fn keeps_everyone(filter: IndexerFilter) -> bool {
    forall|s: Seq<char>| filter.admits(s)
}

proof fn lemma_query_fee_logs_filtered(
    filter: IndexerFilter,
    everyone: IndexerFilter,
    graph: Seq<u8>,
    logs: Seq<EventLog>,
)
    requires
        keeps_everyone(everyone),
    ensures
        query_fees_of_logs(filter, graph, logs) == query_fees_of_logs(everyone, graph, logs).filter(
            query_fee_kept_by(filter),
        ),
    decreases logs.len(),
{
    reveal(Seq::filter);
    if logs.len() > 0 {
        lemma_query_fee_logs_filtered(filter, everyone, graph, logs.drop_last());
        let b = query_fee_of_log(everyone, graph, logs.last());
        assert(b.filter(query_fee_kept_by(filter)) =~= query_fee_of_log(filter, graph, logs.last())) by {
            lemma_filter_empty(query_fee_kept_by(filter));
            if b.len() == 1 {
                lemma_filter_singleton(b[0], query_fee_kept_by(filter));
                assert(b =~= seq![b[0]]);
            } else {
                assert(b =~= Seq::<QueryFeesCollectedView>::empty());
            }
        }
    } else {
        assert(Seq::<QueryFeesCollectedView>::empty().filter(query_fee_kept_by(filter)) =~= Seq::empty());
    }
}

/// Filter law of the query-fee module: a filter's records are the records
/// that "*" gives, kept where the filter keeps their indexer, in order.
pub proof fn law_query_fees_listed_filter(
    filter: IndexerFilter,
    everyone: IndexerFilter,
    graph: Seq<u8>,
    txs: Seq<Transaction>,
)
    requires
        keeps_everyone(everyone),
    ensures
        query_fees_of_transactions(filter, graph, txs) == query_fees_of_transactions(
            everyone,
            graph,
            txs,
        ).filter(query_fee_kept_by(filter)),
    decreases txs.len(),
{
    reveal(Seq::filter);
    if txs.len() > 0 {
        law_query_fees_listed_filter(filter, everyone, graph, txs.drop_last());
        lemma_query_fee_logs_filtered(filter, everyone, graph, txs.last().call_logs@);
        assert(Seq::<QueryFeesCollectedView>::empty().filter(query_fee_kept_by(filter)) =~= Seq::empty());
    } else {
        assert(Seq::<QueryFeesCollectedView>::empty().filter(query_fee_kept_by(filter)) =~= Seq::empty());
    }
}

proof fn lemma_reward_logs_filtered(
    filter: IndexerFilter,
    everyone: IndexerFilter,
    graph: Seq<u8>,
    logs: Seq<EventLog>,
)
    requires
        keeps_everyone(everyone),
    ensures
        indexing_rewards_of_logs(filter, graph, logs) == indexing_rewards_of_logs(
            everyone,
            graph,
            logs,
        ).filter(reward_kept_by(filter)),
    decreases logs.len(),
{
    reveal(Seq::filter);
    if logs.len() > 0 {
        lemma_reward_logs_filtered(filter, everyone, graph, logs.drop_last());
        let b = indexing_reward_of_log(everyone, graph, logs.last());
        assert(b.filter(reward_kept_by(filter)) =~= indexing_reward_of_log(filter, graph, logs.last())) by {
            lemma_filter_empty(reward_kept_by(filter));
            if b.len() == 1 {
                lemma_filter_singleton(b[0], reward_kept_by(filter));
                assert(b =~= seq![b[0]]);
            } else {
                assert(b =~= Seq::<IndexingRewardsCollectedView>::empty());
            }
        }
    } else {
        assert(Seq::<IndexingRewardsCollectedView>::empty().filter(reward_kept_by(filter)) =~= Seq::empty());
    }
}

/// Filter law of the rewards module: a filter's records are the records
/// that "*" gives, kept where the filter keeps their indexer, in order.
pub proof fn law_indexing_rewards_listed_filter(
    filter: IndexerFilter,
    everyone: IndexerFilter,
    graph: Seq<u8>,
    txs: Seq<Transaction>,
)
    requires
        keeps_everyone(everyone),
    ensures
        indexing_rewards_of_transactions(filter, graph, txs) == indexing_rewards_of_transactions(
            everyone,
            graph,
            txs,
        ).filter(reward_kept_by(filter)),
    decreases txs.len(),
{
    reveal(Seq::filter);
    if txs.len() > 0 {
        law_indexing_rewards_listed_filter(filter, everyone, graph, txs.drop_last());
        lemma_reward_logs_filtered(filter, everyone, graph, txs.last().call_logs@);
        assert(Seq::<IndexingRewardsCollectedView>::empty().filter(reward_kept_by(filter)) =~= Seq::empty());
    } else {
        assert(Seq::<IndexingRewardsCollectedView>::empty().filter(reward_kept_by(filter)) =~= Seq::empty());
    }
}

/// Whether a log was emitted by the staking contract.
pub open spec fn emitted_by(graph: Seq<u8>) -> spec_fn(EventLog) -> bool {
    |l: EventLog| l.address@ == graph
}

/// Query-fee law on logs: only the logs of the staking contract count.
pub proof fn law_query_fees_only_graph_logs(filter: IndexerFilter, graph: Seq<u8>, logs: Seq<EventLog>)
    ensures
        query_fees_of_logs(filter, graph, logs) == query_fees_of_logs(
            filter,
            graph,
            logs.filter(emitted_by(graph)),
        ),
    decreases logs.len(),
{
    reveal(Seq::filter);
    if logs.len() > 0 {
        law_query_fees_only_graph_logs(filter, graph, logs.drop_last());
        let kept = logs.filter(emitted_by(graph));
        if logs.last().address@ == graph {
            assert(kept.drop_last() =~= logs.drop_last().filter(emitted_by(graph)));
            assert(kept.last() == logs.last());
        } else {
            assert(query_fee_of_log(filter, graph, logs.last()) =~= Seq::empty());
        }
    }
}

/// Query-fee law: two runs of transactions with the same statuses and the
/// same logs of the staking contract, in order, give the same records; the
/// logs of other contracts never count.
pub proof fn law_query_fees_ignore_other_contracts(
    filter: IndexerFilter,
    graph: Seq<u8>,
    txs1: Seq<Transaction>,
    txs2: Seq<Transaction>,
)
    requires
        txs1.len() == txs2.len(),
        forall|i: int|
            0 <= i < txs1.len() ==> (#[trigger] txs1[i]).status == txs2[i].status
                && txs1[i].call_logs@.filter(emitted_by(graph)) == txs2[i].call_logs@.filter(
                emitted_by(graph),
            ),
    ensures
        query_fees_of_transactions(filter, graph, txs1) == query_fees_of_transactions(
            filter,
            graph,
            txs2,
        ),
    decreases txs1.len(),
{
    if txs1.len() > 0 {
        let n = txs1.len() - 1;
        assert forall|i: int| 0 <= i < n implies (#[trigger] txs1.drop_last()[i]).status
            == txs2.drop_last()[i].status && txs1.drop_last()[i].call_logs@.filter(
            emitted_by(graph),
        ) == txs2.drop_last()[i].call_logs@.filter(emitted_by(graph)) by {
            assert(txs1.drop_last()[i] == txs1[i]);
            assert(txs2.drop_last()[i] == txs2[i]);
        }
        law_query_fees_ignore_other_contracts(filter, graph, txs1.drop_last(), txs2.drop_last());
        assert(txs1[n] == txs1.last());
        assert(txs2[n] == txs2.last());
        law_query_fees_only_graph_logs(filter, graph, txs1.last().call_logs@);
        law_query_fees_only_graph_logs(filter, graph, txs2.last().call_logs@);
    }
}

/// The stake totals of two runs of records one after the other.
pub proof fn lemma_stake_fold_concat(
    filter: IndexerFilter,
    m: Map<Seq<char>, int>,
    a: Seq<OwnedStakeTokenChangeView>,
    b: Seq<OwnedStakeTokenChangeView>,
)
    ensures
        stake_fold(filter, m, a + b) == match stake_fold(filter, m, a) {
            Some(m1) => stake_fold(filter, m1, b),
            None => None,
        },
    decreases b.len(),
{
    if b.len() == 0 {
        assert(a + b =~= a);
    } else {
        lemma_stake_fold_concat(filter, m, a, b.drop_last());
        assert((a + b).drop_last() =~= a + b.drop_last());
        assert((a + b).last() == b.last());
    }
}

/// Stake law, concatenation: the totals of deposits then withdrawals are
/// those of the two run one after the other as deposits, with no
/// withdrawals.
pub proof fn law_stake_totals_concatenated(
    filter: IndexerFilter,
    deposited: Seq<OwnedStakeTokenChangeView>,
    withdrawn: Seq<OwnedStakeTokenChangeView>,
)
    ensures
        stake_totals(filter, deposited, withdrawn) == stake_totals(
            filter,
            deposited + withdrawn,
            Seq::empty(),
        ),
{
    let empty = Map::<Seq<char>, int>::empty();
    lemma_stake_fold_concat(filter, empty, deposited, withdrawn);
    match stake_fold(filter, empty, deposited + withdrawn) {
        Some(m) => {
            assert(stake_fold(filter, m, Seq::<OwnedStakeTokenChangeView>::empty()) == Some(m));
        },
        None => {},
    }
}

/// Stake law, order: where every kept record names its indexer in lower
/// case and carries an amount that parses, swapping deposits and
/// withdrawals gives the same totals.
pub proof fn law_stake_totals_swapped(
    filter: IndexerFilter,
    deposited: Seq<OwnedStakeTokenChangeView>,
    withdrawn: Seq<OwnedStakeTokenChangeView>,
)
    requires
        summable(filter, deposited),
        summable(filter, withdrawn),
    ensures
        stake_totals(filter, deposited, withdrawn) == stake_totals(filter, withdrawn, deposited),
{
    let empty = Map::<Seq<char>, int>::empty();
    law_stake_fold_sums(filter, empty, deposited);
    law_stake_fold_sums(filter, empty, withdrawn);
    let md = stake_fold(filter, empty, deposited)->0;
    let mw = stake_fold(filter, empty, withdrawn)->0;
    law_stake_fold_sums(filter, md, withdrawn);
    law_stake_fold_sums(filter, mw, deposited);
    let t1 = stake_fold(filter, md, withdrawn)->0;
    let t2 = stake_fold(filter, mw, deposited)->0;
    assert forall|k: Seq<char>| held(md, k) == kept_sum(filter, deposited, k) by {
        assert(md.contains_key(k) || kept_sum(filter, deposited, k) == 0);
    }
    assert forall|k: Seq<char>| held(mw, k) == kept_sum(filter, withdrawn, k) by {
        assert(mw.contains_key(k) || kept_sum(filter, withdrawn, k) == 0);
    }
    assert forall|k: Seq<char>| t1.contains_key(k) == t2.contains_key(k) by {
        assert(md.contains_key(k) == kept_has(filter, deposited, k));
        assert(mw.contains_key(k) == kept_has(filter, withdrawn, k));
    }
    assert(t1 =~= t2) by {
        assert forall|k: Seq<char>| t1.contains_key(k) implies t1[k] == t2[k] by {
            assert(t2.contains_key(k));
        }
    }
}

/// Merge law of the closed-allocation module: merging with an empty second
/// list gives the first as the filter keeps it; with a filter that keeps
/// every indexer, the first whole.
pub proof fn law_merge_with_empty(filter: IndexerFilter, first: Seq<AllocationClosedDataView>)
    ensures
        kept_allocations(filter, first) + kept_allocations(filter, Seq::empty())
            == kept_allocations(filter, first),
        keeps_everyone(filter) ==> kept_allocations(filter, first) + kept_allocations(
            filter,
            Seq::empty(),
        ) == first,
{
    reveal(Seq::filter);
    assert(kept_allocations(filter, Seq::empty()) =~= Seq::<AllocationClosedDataView>::empty());
    assert(kept_allocations(filter, first) + Seq::empty() =~= kept_allocations(filter, first));
    crate::laws::law_kept_allocations(filter, first);
}

/// Merge law: a filter that keeps more indexers never drops a closed
/// allocation that another keeps.
pub proof fn law_more_indexers_keep_more(
    fewer: IndexerFilter,
    more: IndexerFilter,
    s: Seq<AllocationClosedDataView>,
    x: AllocationClosedDataView,
)
    requires
        forall|k: Seq<char>| fewer.admits(k) ==> more.admits(k),
        kept_allocations(fewer, s).contains(x),
    ensures
        kept_allocations(more, s).contains(x),
{
    let pf = |a: AllocationClosedDataView| fewer.admits(a.address);
    let pm = |a: AllocationClosedDataView| more.admits(a.address);
    s.lemma_filter_contains_rev(pf, x);
    let i = choose|i: int| 0 <= i < s.len() && s[i] == x;
    let j = choose|j: int| 0 <= j < s.filter(pf).len() && s.filter(pf)[j] == x;
    s.lemma_filter_pred(pf, j);
    s.lemma_filter_contains(pm, i);
}

/// Filtering the empty run gives the empty run.
proof fn lemma_filter_empty<A>(p: spec_fn(A) -> bool)
    ensures
        Seq::<A>::empty().filter(p) == Seq::<A>::empty(),
{
    reveal(Seq::filter);
    assert(Seq::<A>::empty().filter(p) =~= Seq::<A>::empty());
}

/// Filtering a one-element run keeps its element exactly where it passes.
proof fn lemma_filter_singleton<A>(x: A, p: spec_fn(A) -> bool)
    ensures
        seq![x].filter(p) == if p(x) {
            seq![x]
        } else {
            Seq::<A>::empty()
        },
{
    reveal(Seq::filter);
    lemma_filter_empty(p);
    assert(seq![x].drop_last() =~= Seq::<A>::empty());
    assert(seq![x].last() == x);
    assert(Seq::<A>::empty().push(x) =~= seq![x]);
}

} // verus!
