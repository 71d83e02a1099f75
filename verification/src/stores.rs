//! The store modules: what each adds to the per-indexer totals that the
//! substreams stores keep.

use vstd::prelude::*;
use crate::amount::{parse_decimal, parse_decimal_or_zero, Amount};
use crate::filter::IndexerFilter;
use crate::records::{
    IndexingRewardsCollectedView, IndexingRewardsCollecteds, OwnedStakeTokenChange,
    OwnedStakeTokenChangeView, OwnedStakeTokenChanges, QueryFeesCollectedView, QueryFeesCollecteds,
};
use crate::text::{lowercase, to_lowercase};

verus! {

/// An amount to add to the total kept under a key.
pub struct StoreAddition {
    pub key: String,
    pub value: Amount,
}

impl View for StoreAddition {
    type V = (Seq<char>, int);

    open spec fn view(&self) -> (Seq<char>, int) {
        (self.key@, self.value.value())
    }
}

/// The additions of the rewards records: under each indexer, the rewards
/// as parsed (zero where they do not parse), one per record, in order.
pub open spec fn rewards_additions(records: Seq<IndexingRewardsCollectedView>) -> Seq<(Seq<char>, int)> {
    records.map_values(
        |r: IndexingRewardsCollectedView| (r.indexer, parse_decimal_or_zero(r.rewards)),
    )
}

/// The additions of the query-fee records: under each indexer, the fees as
/// parsed (zero where they do not parse), one per record, in order.
pub open spec fn query_fee_additions(records: Seq<QueryFeesCollectedView>) -> Seq<(Seq<char>, int)> {
    records.map_values(
        |r: QueryFeesCollectedView| (r.indexer, parse_decimal_or_zero(r.query_fees)),
    )
}

/// What the indexing-rewards store receives: for each record, its rewards
/// under its indexer.
pub fn store_indexing_rewards_collected(indexing_rewards_collecteds: &IndexingRewardsCollecteds) -> (r: Vec<
    StoreAddition,
>)
    ensures
        r@.map_values(|a: StoreAddition| a@) == rewards_additions(indexing_rewards_collecteds@),
{
    let records = &indexing_rewards_collecteds.indexing_rewards_collecteds;
    let mut out: Vec<StoreAddition> = Vec::new();
    let mut i: usize = 0;
    while i < records.len()
        invariant
            i <= records@.len(),
            out@.len() == i,
            forall|j: int|
                0 <= j < i ==> (#[trigger] out@[j])@ == (
                    records@[j].indexer@,
                    parse_decimal_or_zero(records@[j].rewards@),
                ),
        decreases records@.len() - i,
    {
        let x = &records[i];
        out.push(
            StoreAddition {
                key: x.indexer.clone(),
                value: Amount::parse_or_zero(x.rewards.as_str()),
            },
        );
        i = i + 1;
    }
    assert(out@.map_values(|a: StoreAddition| a@) =~= rewards_additions(
        indexing_rewards_collecteds@,
    ));
    out
}

/// What the query-fees store receives: for each record, its fees under its
/// indexer.
pub fn store_query_fees_collected(query_fees_collecteds: &QueryFeesCollecteds) -> (r: Vec<StoreAddition>)
    ensures
        r@.map_values(|a: StoreAddition| a@) == query_fee_additions(query_fees_collecteds@),
{
    let records = &query_fees_collecteds.query_fees_collecteds;
    let mut out: Vec<StoreAddition> = Vec::new();
    let mut i: usize = 0;
    while i < records.len()
        invariant
            i <= records@.len(),
            out@.len() == i,
            forall|j: int|
                0 <= j < i ==> (#[trigger] out@[j])@ == (
                    records@[j].indexer@,
                    parse_decimal_or_zero(records@[j].query_fees@),
                ),
        decreases records@.len() - i,
    {
        let x = &records[i];
        out.push(
            StoreAddition {
                key: x.indexer.clone(),
                value: Amount::parse_or_zero(x.query_fees.as_str()),
            },
        );
        i = i + 1;
    }
    assert(out@.map_values(|a: StoreAddition| a@) =~= query_fee_additions(query_fees_collecteds@));
    out
}

/// One step of the stake totals: an indexer already present gets the
/// record's amount added (the amount must parse); an absent one is entered
/// under its lower-cased text with the amount as parsed, zero where it does
/// not parse. `None` where an amount that must parse does not.
pub open spec fn stake_step(m: Map<Seq<char>, int>, x: OwnedStakeTokenChangeView) -> Option<
    Map<Seq<char>, int>,
> {
    if m.contains_key(x.indexer) {
        match parse_decimal(x.tokens_amount) {
            Some(b) => Some(m.insert(x.indexer, m[x.indexer] + b)),
            None => None,
        }
    } else {
        Some(m.insert(lowercase(x.indexer), parse_decimal_or_zero(x.tokens_amount)))
    }
}

/// The stake totals after the records of the indexers that the filter
/// keeps, in order, starting from `m`.
pub open spec fn stake_fold(
    filter: IndexerFilter,
    m: Map<Seq<char>, int>,
    xs: Seq<OwnedStakeTokenChangeView>,
) -> Option<Map<Seq<char>, int>>
    decreases xs.len(),
{
    if xs.len() == 0 {
        Some(m)
    } else {
        match stake_fold(filter, m, xs.drop_last()) {
            Some(m2) => if filter.admits(xs.last().indexer) {
                stake_step(m2, xs.last())
            } else {
                Some(m2)
            },
            None => None,
        }
    }
}

/// The stake totals of the deposits, then the withdrawals.
pub open spec fn stake_totals(
    filter: IndexerFilter,
    deposited: Seq<OwnedStakeTokenChangeView>,
    withdrawn: Seq<OwnedStakeTokenChangeView>,
) -> Option<Map<Seq<char>, int>> {
    match stake_fold(filter, Map::empty(), deposited) {
        Some(m) => stake_fold(filter, m, withdrawn),
        None => None,
    }
}

/// The additions list each key once and hold exactly the entries of `m`.
pub open spec fn additions_hold(s: Seq<StoreAddition>, m: Map<Seq<char>, int>) -> bool {
    &&& forall|i: int, j: int|
        0 <= i < s.len() && 0 <= j < s.len() && i != j ==> (#[trigger] s[i]).key@ != (
        #[trigger] s[j]).key@
    &&& forall|i: int|
        0 <= i < s.len() ==> m.contains_key((#[trigger] s[i]).key@) && m[s[i].key@]
            == s[i].value.value()
    &&& forall|k: Seq<char>|
        #[trigger] m.contains_key(k) ==> exists|i: int| 0 <= i < s.len() && (#[trigger] s[i]).key@ == k
}

/// A prefix of records whose totals are defined has defined totals.
pub proof fn lemma_stake_fold_prefix(
    filter: IndexerFilter,
    m: Map<Seq<char>, int>,
    xs: Seq<OwnedStakeTokenChangeView>,
    i: int,
)
    requires
        0 <= i <= xs.len(),
        stake_fold(filter, m, xs) is Some,
    ensures
        stake_fold(filter, m, xs.take(i)) is Some,
    decreases xs.len(),
{
    if i == xs.len() {
        assert(xs.take(i) =~= xs);
    } else {
        lemma_stake_fold_prefix(filter, m, xs.drop_last(), i);
        assert(xs.drop_last().take(i) =~= xs.take(i));
    }
}

/// The position of the addition under `key`, if any.
fn find_key(s: &Vec<StoreAddition>, key: &String) -> (r: Option<usize>)
    ensures
        match r {
            Some(i) => i < s@.len() && s@[i as int].key@ == key@,
            None => forall|i: int| 0 <= i < s@.len() ==> (#[trigger] s@[i]).key@ != key@,
        },
{
    let mut i: usize = 0;
    while i < s.len()
        invariant
            i <= s@.len(),
            forall|j: int| 0 <= j < i ==> (#[trigger] s@[j]).key@ != key@,
        decreases s@.len() - i,
    {
        if s[i].key == *key {
            return Some(i);
        }
        i = i + 1;
    }
    None
}

/// Enters `value` under `key`, replacing what was there.
fn put_entry(s: &mut Vec<StoreAddition>, key: String, value: Amount, Ghost(m): Ghost<
    Map<Seq<char>, int>,
>)
    requires
        additions_hold(old(s)@, m),
    ensures
        additions_hold(final(s)@, m.insert(key@, value.value())),
{
    let ghost k = key@;
    let ghost v = value.value();
    let ghost m2 = m.insert(k, v);
    match find_key(s, &key) {
        Some(idx) => {
            s.set(idx, StoreAddition { key, value });
            assert forall|k2: Seq<char>| #[trigger] m2.contains_key(k2) implies exists|i: int|
                0 <= i < s@.len() && (#[trigger] s@[i]).key@ == k2 by {
                if k2 == k {
                    assert(s@[idx as int].key@ == k2);
                } else {
                    let i = choose|i: int| 0 <= i < old(s)@.len() && (#[trigger] old(s)@[i]).key@ == k2;
                    assert(s@[i].key@ == k2);
                }
            }
        },
        None => {
            s.push(StoreAddition { key, value });
            assert forall|k2: Seq<char>| #[trigger] m2.contains_key(k2) implies exists|i: int|
                0 <= i < s@.len() && (#[trigger] s@[i]).key@ == k2 by {
                if k2 == k {
                    assert(s@[s@.len() - 1].key@ == k2);
                } else {
                    let i = choose|i: int| 0 <= i < old(s)@.len() && (#[trigger] old(s)@[i]).key@ == k2;
                    assert(s@[i].key@ == k2);
                }
            }
            assert forall|i: int| 0 <= i < s@.len() implies m2.contains_key((#[trigger] s@[i]).key@)
                && m2[s@[i].key@] == s@[i].value.value() by {
                if i < s@.len() - 1 {
                    assert(s@[i] == old(s)@[i]);
                }
            }
        },
    }
}

/// Folds the records of the indexers that the filter keeps into the stake
/// totals held by `s`; `false` where an amount that must parse does not.
fn fold_stake_changes(
    filter: &IndexerFilter,
    changes: &Vec<OwnedStakeTokenChange>,
    s: &mut Vec<StoreAddition>,
    Ghost(m): Ghost<Map<Seq<char>, int>>,
) -> (ok: bool)
    requires
        additions_hold(old(s)@, m),
    ensures
        ok == stake_fold(*filter, m, changes@.map_values(|r: OwnedStakeTokenChange| r@)) is Some,
        ok ==> additions_hold(
            final(s)@,
            stake_fold(*filter, m, changes@.map_values(|r: OwnedStakeTokenChange| r@))->0,
        ),
{
    let ghost xs = changes@.map_values(|r: OwnedStakeTokenChange| r@);
    let ghost mut cur = m;
    let mut i: usize = 0;
    proof {
        assert(xs.take(0) =~= Seq::<OwnedStakeTokenChangeView>::empty());
    }
    while i < changes.len()
        invariant
            i <= changes@.len(),
            xs == changes@.map_values(|r: OwnedStakeTokenChange| r@),
            stake_fold(*filter, m, xs.take(i as int)) == Some(cur),
            additions_hold(s@, cur),
        decreases changes@.len() - i,
    {
        let x = &changes[i];
        proof {
            assert(xs.take(i + 1).drop_last() =~= xs.take(i as int));
            assert(xs.take(i + 1).last() == x@);
        }
        if filter.admits_indexer(&x.indexer) {
            match find_key(s, &x.indexer) {
                Some(idx) => {
                    proof {
                        assert(cur.contains_key(x.indexer@));
                    }
                    match Amount::parse(x.tokens_amount.as_str()) {
                        Some(b) => {
                            let total = s[idx].value.add(&b);
                            put_entry(s, x.indexer.clone(), total, Ghost(cur));
                            proof {
                                cur = cur.insert(x.indexer@, cur[x.indexer@] + b.value());
                            }
                        },
                        None => {
                            proof {
                                if stake_fold(*filter, m, xs) is Some {
                                    lemma_stake_fold_prefix(*filter, m, xs, i + 1);
                                }
                            }
                            return false;
                        },
                    }
                },
                None => {
                    proof {
                        if cur.contains_key(x.indexer@) {
                            let j = choose|j: int| 0 <= j < s@.len() && (#[trigger] s@[j]).key@ == x.indexer@;
                            assert(false);
                        }
                    }
                    let key = to_lowercase(x.indexer.as_str());
                    let value = Amount::parse_or_zero(x.tokens_amount.as_str());
                    put_entry(s, key, value, Ghost(cur));
                    proof {
                        cur = cur.insert(lowercase(x.indexer@), parse_decimal_or_zero(x.tokens_amount@));
                    }
                },
            }
        }
        i = i + 1;
    }
    assert(xs.take(changes@.len() as int) =~= xs);
    true
}

/// The stake store's additions where they are defined (see
/// `store_stake_token_changes`); `None` exactly where an amount added to an
/// existing total does not parse.
pub fn checked_store_stake_token_changes(
    filter: &IndexerFilter,
    stake_deposited: &OwnedStakeTokenChanges,
    stake_withdrawn: &OwnedStakeTokenChanges,
) -> (r: Option<Vec<StoreAddition>>)
    ensures
        r is Some == stake_totals(*filter, stake_deposited@, stake_withdrawn@) is Some,
        r is Some ==> additions_hold(
            r->0@,
            stake_totals(*filter, stake_deposited@, stake_withdrawn@)->0,
        ),
{
    let mut entries: Vec<StoreAddition> = Vec::new();
    let ghost empty = Map::<Seq<char>, int>::empty();
    if !fold_stake_changes(filter, &stake_deposited.owned_stake_token_changes, &mut entries, Ghost(empty)) {
        return None;
    }
    let ghost after_deposits = stake_fold(*filter, empty, stake_deposited@)->0;
    if !fold_stake_changes(
        filter,
        &stake_withdrawn.owned_stake_token_changes,
        &mut entries,
        Ghost(after_deposits),
    ) {
        return None;
    }
    Some(entries)
}

/// What the stake store receives: the deposits, then the withdrawals, of
/// the indexers that the filter keeps, summed per indexer (see
/// `stake_step`), each total once. Defined where every amount that is
/// added to an existing total parses.
pub fn store_stake_token_changes(
    filter: &IndexerFilter,
    stake_deposited: &OwnedStakeTokenChanges,
    stake_withdrawn: &OwnedStakeTokenChanges,
) -> (r: Vec<StoreAddition>)
    requires
        stake_totals(*filter, stake_deposited@, stake_withdrawn@) is Some,
    ensures
        additions_hold(r@, stake_totals(*filter, stake_deposited@, stake_withdrawn@)->0),
{
    checked_store_stake_token_changes(filter, stake_deposited, stake_withdrawn).unwrap()
}

} // verus!
