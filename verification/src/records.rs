//! The records that the modules hand to each other and to the sink, with
//! their mathematical views (each text field viewed as its characters).

use vstd::prelude::*;

verus! {

/// A change of the tokens that an indexer owns in stake (a decimal text;
/// withdrawals carry a leading '-').
#[derive(Clone, Debug, PartialEq, Eq, Default)]
pub struct OwnedStakeTokenChange {
    pub indexer: String,
    pub tokens_amount: String,
}

pub struct OwnedStakeTokenChangeView {
    pub indexer: Seq<char>,
    pub tokens_amount: Seq<char>,
}

impl View for OwnedStakeTokenChange {
    type V = OwnedStakeTokenChangeView;

    open spec fn view(&self) -> OwnedStakeTokenChangeView {
        OwnedStakeTokenChangeView { indexer: self.indexer@, tokens_amount: self.tokens_amount@ }
    }
}

#[derive(Clone, Debug, PartialEq, Eq, Default)]
pub struct OwnedStakeTokenChanges {
    pub owned_stake_token_changes: Vec<OwnedStakeTokenChange>,
}

impl View for OwnedStakeTokenChanges {
    type V = Seq<OwnedStakeTokenChangeView>;

    open spec fn view(&self) -> Seq<OwnedStakeTokenChangeView> {
        self.owned_stake_token_changes@.map_values(|r: OwnedStakeTokenChange| r@)
    }
}

/// A closed allocation of an indexer.
#[derive(Clone, Debug, PartialEq, Eq, Default)]
pub struct AllocationClosedData {
    pub address: String,
    pub deployment_id: String,
    pub tokens: String,
    pub allocation_id: String,
    pub poi: String,
    pub transaction_hash: String,
}

pub struct AllocationClosedDataView {
    pub address: Seq<char>,
    pub deployment_id: Seq<char>,
    pub tokens: Seq<char>,
    pub allocation_id: Seq<char>,
    pub poi: Seq<char>,
    pub transaction_hash: Seq<char>,
}

impl View for AllocationClosedData {
    type V = AllocationClosedDataView;

    open spec fn view(&self) -> AllocationClosedDataView {
        AllocationClosedDataView {
            address: self.address@,
            deployment_id: self.deployment_id@,
            tokens: self.tokens@,
            allocation_id: self.allocation_id@,
            poi: self.poi@,
            transaction_hash: self.transaction_hash@,
        }
    }
}

impl AllocationClosedData {
    /// A field-by-field copy.
    pub fn duplicate(&self) -> (r: AllocationClosedData)
        ensures
            r@ == self@,
    {
        AllocationClosedData {
            address: self.address.clone(),
            deployment_id: self.deployment_id.clone(),
            tokens: self.tokens.clone(),
            allocation_id: self.allocation_id.clone(),
            poi: self.poi.clone(),
            transaction_hash: self.transaction_hash.clone(),
        }
    }
}

#[derive(Clone, Debug, PartialEq, Eq, Default)]
pub struct AllocationClosedDatas {
    pub allocation_closed_datas: Vec<AllocationClosedData>,
}

impl View for AllocationClosedDatas {
    type V = Seq<AllocationClosedDataView>;

    open spec fn view(&self) -> Seq<AllocationClosedDataView> {
        self.allocation_closed_datas@.map_values(|r: AllocationClosedData| r@)
    }
}

/// The outcome of a closed allocation (part of the record schema).
#[derive(Clone, Debug, PartialEq, Eq, Default)]
pub struct AllocationClosedResult {
    pub address: String,
    pub allocation_id: String,
    pub tokens: String,
    pub stake: String,
}

/// A snapshot of an indexer's staked tokens taken when one of its
/// allocations closed.
#[derive(Clone, Debug, PartialEq, Eq, Default)]
pub struct StakedTokensChange {
    pub indexer: String,
    pub block_number: u64,
    pub transaction_hash: String,
    pub tokens: String,
    pub stake: String,
    pub query_fees: String,
    pub indexing_rewards: String,
}

pub struct StakedTokensChangeView {
    pub indexer: Seq<char>,
    pub block_number: u64,
    pub transaction_hash: Seq<char>,
    pub tokens: Seq<char>,
    pub stake: Seq<char>,
    pub query_fees: Seq<char>,
    pub indexing_rewards: Seq<char>,
}

impl View for StakedTokensChange {
    type V = StakedTokensChangeView;

    open spec fn view(&self) -> StakedTokensChangeView {
        StakedTokensChangeView {
            indexer: self.indexer@,
            block_number: self.block_number,
            transaction_hash: self.transaction_hash@,
            tokens: self.tokens@,
            stake: self.stake@,
            query_fees: self.query_fees@,
            indexing_rewards: self.indexing_rewards@,
        }
    }
}

#[derive(Clone, Debug, PartialEq, Eq, Default)]
pub struct StakedTokensChanges {
    pub staked_tokens_changes: Vec<StakedTokensChange>,
}

impl View for StakedTokensChanges {
    type V = Seq<StakedTokensChangeView>;

    open spec fn view(&self) -> Seq<StakedTokensChangeView> {
        self.staked_tokens_changes@.map_values(|r: StakedTokensChange| r@)
    }
}

/// Query fees (the query rebates) collected by an indexer.
#[derive(Clone, Debug, PartialEq, Eq, Default)]
pub struct QueryFeesCollected {
    pub indexer: String,
    pub deployment_id: String,
    pub allocation_id: String,
    pub query_fees: String,
}

pub struct QueryFeesCollectedView {
    pub indexer: Seq<char>,
    pub deployment_id: Seq<char>,
    pub allocation_id: Seq<char>,
    pub query_fees: Seq<char>,
}

impl View for QueryFeesCollected {
    type V = QueryFeesCollectedView;

    open spec fn view(&self) -> QueryFeesCollectedView {
        QueryFeesCollectedView {
            indexer: self.indexer@,
            deployment_id: self.deployment_id@,
            allocation_id: self.allocation_id@,
            query_fees: self.query_fees@,
        }
    }
}

#[derive(Clone, Debug, PartialEq, Eq, Default)]
pub struct QueryFeesCollecteds {
    pub query_fees_collecteds: Vec<QueryFeesCollected>,
}

impl View for QueryFeesCollecteds {
    type V = Seq<QueryFeesCollectedView>;

    open spec fn view(&self) -> Seq<QueryFeesCollectedView> {
        self.query_fees_collecteds@.map_values(|r: QueryFeesCollected| r@)
    }
}

/// Indexing rewards paid out to an indexer.
#[derive(Clone, Debug, PartialEq, Eq, Default)]
pub struct IndexingRewardsCollected {
    pub indexer: String,
    pub allocation_id: String,
    pub rewards: String,
}

pub struct IndexingRewardsCollectedView {
    pub indexer: Seq<char>,
    pub allocation_id: Seq<char>,
    pub rewards: Seq<char>,
}

impl View for IndexingRewardsCollected {
    type V = IndexingRewardsCollectedView;

    open spec fn view(&self) -> IndexingRewardsCollectedView {
        IndexingRewardsCollectedView {
            indexer: self.indexer@,
            allocation_id: self.allocation_id@,
            rewards: self.rewards@,
        }
    }
}

#[derive(Clone, Debug, PartialEq, Eq, Default)]
pub struct IndexingRewardsCollecteds {
    pub indexing_rewards_collecteds: Vec<IndexingRewardsCollected>,
}

impl View for IndexingRewardsCollecteds {
    type V = Seq<IndexingRewardsCollectedView>;

    open spec fn view(&self) -> Seq<IndexingRewardsCollectedView> {
        self.indexing_rewards_collecteds@.map_values(|r: IndexingRewardsCollected| r@)
    }
}

} // verus!
