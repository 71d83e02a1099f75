use substreams_database_change::pb::database::table_change::PrimaryKey;
use staked_tokens_tracker::amount::Amount;
use staked_tokens_tracker::chain::{Block, ClosedAllocation, EventLog, GraphEvent, Transaction};
use staked_tokens_tracker::filter::{parse_indexer_filter, IndexerFilter};
use staked_tokens_tracker::maps::{
    map_allocation_closed, map_allocation_closed1, map_allocation_closed2,
    map_indexing_rewards_collected, map_query_fees_collected, map_stake_deposited,
    map_stake_withdrawn,
};
use staked_tokens_tracker::records::{
    AllocationClosedData, AllocationClosedDatas, IndexingRewardsCollected,
    IndexingRewardsCollecteds, OwnedStakeTokenChange, OwnedStakeTokenChanges, QueryFeesCollected,
    QueryFeesCollecteds, StakedTokensChange, StakedTokensChanges,
};
use staked_tokens_tracker::sink::{
    db_out, db_out_rows, map_staked_tokens_changes, staked_tokens_requests, StakeLookup,
};
use staked_tokens_tracker::stores::{
    checked_store_stake_token_changes, store_indexing_rewards_collected, store_query_fees_collected,
    store_stake_token_changes, StoreAddition,
};

const GRAPH: [u8; 2] = [0xf5, 0x50];
const OTHER: [u8; 2] = [0x01, 0x02];

fn amount(text: &str) -> Amount {
    Amount::parse(text).unwrap()
}

fn log(address: &[u8], event: GraphEvent) -> EventLog {
    EventLog { address: address.to_vec(), event }
}

fn tx(status: i32, hash: &[u8], call_logs: Vec<EventLog>, receipt_logs: Vec<EventLog>) -> Transaction {
    Transaction { status, hash: hash.to_vec(), call_logs, receipt_logs: Some(receipt_logs) }
}

fn rebate(indexer: u8, rebates: &str) -> GraphEvent {
    GraphEvent::RebateCollected {
        indexer: vec![indexer],
        subgraph_deployment_id: vec![0xd0],
        allocation_id: vec![0xa1],
        query_rebates: amount(rebates),
    }
}

fn transfer(from: &[u8], to: u8, value: &str) -> GraphEvent {
    GraphEvent::Transfer { from: from.to_vec(), to: vec![to], value: amount(value) }
}

fn deposit(indexer: u8, tokens: &str) -> GraphEvent {
    GraphEvent::StakeDeposited { indexer: vec![indexer], tokens: amount(tokens) }
}

fn withdrawal(indexer: u8, tokens: &str) -> GraphEvent {
    GraphEvent::StakeWithdrawn { indexer: vec![indexer], tokens: amount(tokens) }
}

fn closed(indexer: u8, tokens: &str) -> ClosedAllocation {
    ClosedAllocation {
        indexer: vec![indexer],
        subgraph_deployment_id: vec![0xd0],
        tokens: amount(tokens),
        allocation_id: vec![0xa1],
        poi: vec![0x90],
    }
}

fn all() -> IndexerFilter {
    IndexerFilter::every_indexer()
}

fn change(indexer: &str, tokens: &str) -> OwnedStakeTokenChange {
    OwnedStakeTokenChange { indexer: indexer.to_string(), tokens_amount: tokens.to_string() }
}

fn total<'a>(additions: &'a [StoreAddition], key: &str) -> Option<String> {
    additions.iter().find(|a| a.key == key).map(|a| a.value.to_decimal_string())
}

#[test]
fn query_fees_come_from_rebates_of_the_staking_contract() {
    let block = Block {
        transaction_traces: vec![
            tx(1, &[1], vec![
                log(&GRAPH, rebate(0xaa, "100")),
                log(&OTHER, rebate(0xbb, "5")),
                log(&GRAPH, deposit(0xaa, "1")),
                log(&GRAPH, rebate(0xcc, "7")),
            ], vec![]),
            tx(2, &[2], vec![log(&GRAPH, rebate(0xdd, "9"))], vec![]),
        ],
    };
    let out = map_query_fees_collected(&all(), &GRAPH, &block);
    assert_eq!(out, QueryFeesCollecteds {
        query_fees_collecteds: vec![
            QueryFeesCollected {
                indexer: "aa".to_string(),
                deployment_id: "d0".to_string(),
                allocation_id: "a1".to_string(),
                query_fees: "100".to_string(),
            },
            QueryFeesCollected {
                indexer: "cc".to_string(),
                deployment_id: "d0".to_string(),
                allocation_id: "a1".to_string(),
                query_fees: "7".to_string(),
            },
        ],
    });
    let only_cc = parse_indexer_filter("[\"cc\"]").unwrap();
    let out = map_query_fees_collected(&only_cc, &GRAPH, &block);
    assert_eq!(out.query_fees_collecteds.len(), 1);
    assert_eq!(out.query_fees_collecteds[0].indexer, "cc");
}

#[test]
fn indexing_rewards_need_graph_log_rewards_assigned_and_transfer() {
    let paying = tx(1, &[1], vec![
        log(&OTHER, GraphEvent::RewardsAssigned),
        log(&GRAPH, transfer(&GRAPH, 0xaa, "50")),
        log(&OTHER, transfer(&OTHER, 0xbb, "60")),
    ], vec![]);
    let no_rewards_assigned = tx(1, &[2], vec![log(&GRAPH, transfer(&GRAPH, 0xcc, "70"))], vec![]);
    let no_graph_log = tx(1, &[3], vec![
        log(&OTHER, GraphEvent::RewardsAssigned),
        log(&OTHER, transfer(&GRAPH, 0xdd, "80")),
    ], vec![]);
    let failed = tx(0, &[4], vec![
        log(&GRAPH, GraphEvent::RewardsAssigned),
        log(&GRAPH, transfer(&GRAPH, 0xee, "90")),
    ], vec![]);
    let block = Block { transaction_traces: vec![paying, no_rewards_assigned, no_graph_log, failed] };
    let out = map_indexing_rewards_collected(&all(), &GRAPH, &block);
    assert_eq!(out, IndexingRewardsCollecteds {
        indexing_rewards_collecteds: vec![IndexingRewardsCollected {
            indexer: "aa".to_string(),
            allocation_id: String::new(),
            rewards: "50".to_string(),
        }],
    });
    let nobody = parse_indexer_filter("[]").unwrap();
    assert!(map_indexing_rewards_collected(&nobody, &GRAPH, &block).indexing_rewards_collecteds.is_empty());
}

#[test]
fn stake_deposits_only_in_plain_transfer_transactions() {
    let plain = tx(1, &[1], vec![
        log(&OTHER, transfer(&OTHER, 0x01, "10")),
        log(&OTHER, deposit(0xaa, "1000")),
    ], vec![]);
    let closing = tx(1, &[2], vec![
        log(&GRAPH, GraphEvent::AllocationClosed2(closed(0xbb, "1"))),
        log(&OTHER, transfer(&OTHER, 0x01, "10")),
        log(&GRAPH, deposit(0xbb, "2000")),
    ], vec![]);
    let rewarded = tx(1, &[3], vec![
        log(&OTHER, GraphEvent::RewardsAssigned),
        log(&OTHER, transfer(&OTHER, 0x01, "10")),
        log(&GRAPH, deposit(0xcc, "3000")),
    ], vec![]);
    let no_transfer = tx(1, &[4], vec![log(&GRAPH, deposit(0xdd, "4000"))], vec![]);
    let block = Block { transaction_traces: vec![plain, closing, rewarded, no_transfer] };
    assert_eq!(map_stake_deposited(&block), OwnedStakeTokenChanges {
        owned_stake_token_changes: vec![change("aa", "1000")],
    });
}

#[test]
fn stake_withdrawals_are_negated() {
    let block = Block {
        transaction_traces: vec![
            tx(1, &[1], vec![], vec![
                log(&GRAPH, withdrawal(0xaa, "300")),
                log(&OTHER, withdrawal(0xbb, "1")),
                log(&GRAPH, withdrawal(0xcc, "0")),
            ]),
            tx(3, &[2], vec![], vec![log(&GRAPH, withdrawal(0xdd, "5"))]),
        ],
    };
    assert_eq!(map_stake_withdrawn(&GRAPH, &block), OwnedStakeTokenChanges {
        owned_stake_token_changes: vec![change("aa", "-300"), change("cc", "-0")],
    });
}

fn closed_data(address: &str, tokens: &str, hash: &str) -> AllocationClosedData {
    AllocationClosedData {
        address: address.to_string(),
        deployment_id: "d0".to_string(),
        tokens: tokens.to_string(),
        allocation_id: "a1".to_string(),
        poi: "90".to_string(),
        transaction_hash: hash.to_string(),
    }
}

#[test]
fn allocations_closed_by_each_version() {
    let block = Block {
        transaction_traces: vec![
            tx(1, &[0x11], vec![], vec![
                log(&GRAPH, GraphEvent::AllocationClosed1(closed(0xaa, "10"))),
                log(&GRAPH, GraphEvent::AllocationClosed2(closed(0xbb, "20"))),
                log(&OTHER, GraphEvent::AllocationClosed1(closed(0xcc, "30"))),
            ]),
            tx(1, &[0x22], vec![], vec![log(&GRAPH, GraphEvent::AllocationClosed1(closed(0xdd, "40")))]),
        ],
    };
    assert_eq!(map_allocation_closed1(&GRAPH, &block), AllocationClosedDatas {
        allocation_closed_datas: vec![closed_data("aa", "10", "11"), closed_data("dd", "40", "22")],
    });
    assert_eq!(map_allocation_closed2(&GRAPH, &block), AllocationClosedDatas {
        allocation_closed_datas: vec![closed_data("bb", "20", "11")],
    });
}

#[test]
fn allocations_closed_are_filtered_and_concatenated() {
    let first = AllocationClosedDatas {
        allocation_closed_datas: vec![closed_data("aa", "1", "01"), closed_data("bb", "2", "02")],
    };
    let second = AllocationClosedDatas {
        allocation_closed_datas: vec![closed_data("cc", "3", "03"), closed_data("aa", "4", "04")],
    };
    let out = map_allocation_closed(&all(), &first, &second);
    let addresses: Vec<&str> = out.allocation_closed_datas.iter().map(|a| a.address.as_str()).collect();
    assert_eq!(addresses, vec!["aa", "bb", "cc", "aa"]);
    let only_aa = parse_indexer_filter("[\"aa\"]").unwrap();
    let out = map_allocation_closed(&only_aa, &first, &second);
    assert_eq!(out.allocation_closed_datas, vec![closed_data("aa", "1", "01"), closed_data("aa", "4", "04")]);
}

#[test]
fn rewards_and_fees_stores_add_each_record() {
    let rewards = IndexingRewardsCollecteds {
        indexing_rewards_collecteds: vec![
            IndexingRewardsCollected { indexer: "aa".to_string(), allocation_id: String::new(), rewards: "5".to_string() },
            IndexingRewardsCollected { indexer: "aa".to_string(), allocation_id: String::new(), rewards: "bad".to_string() },
        ],
    };
    let adds = store_indexing_rewards_collected(&rewards);
    assert_eq!(adds.len(), 2);
    assert_eq!(adds[0].key, "aa");
    assert_eq!(adds[0].value.to_decimal_string(), "5");
    assert_eq!(adds[1].value.to_decimal_string(), "0");
    let fees = QueryFeesCollecteds {
        query_fees_collecteds: vec![QueryFeesCollected {
            indexer: "bb".to_string(),
            deployment_id: "d0".to_string(),
            allocation_id: "a1".to_string(),
            query_fees: "-12".to_string(),
        }],
    };
    let adds = store_query_fees_collected(&fees);
    assert_eq!(adds.len(), 1);
    assert_eq!(adds[0].key, "bb");
    assert_eq!(adds[0].value.to_decimal_string(), "-12");
}

#[test]
fn stake_store_sums_deposits_and_withdrawals_per_indexer() {
    let deposited = OwnedStakeTokenChanges {
        owned_stake_token_changes: vec![change("aa", "100"), change("bb", "7"), change("aa", "50")],
    };
    let withdrawn = OwnedStakeTokenChanges {
        owned_stake_token_changes: vec![change("aa", "-30"), change("cc", "-4")],
    };
    let adds = store_stake_token_changes(&all(), &deposited, &withdrawn);
    assert_eq!(adds.len(), 3);
    assert_eq!(total(&adds, "aa"), Some("120".to_string()));
    assert_eq!(total(&adds, "bb"), Some("7".to_string()));
    assert_eq!(total(&adds, "cc"), Some("-4".to_string()));
    let only_bb = parse_indexer_filter("[\"bb\"]").unwrap();
    let adds = store_stake_token_changes(&only_bb, &deposited, &withdrawn);
    assert_eq!(adds.len(), 1);
    assert_eq!(total(&adds, "bb"), Some("7".to_string()));
}

#[test]
fn stake_store_enters_new_indexers_lower_cased() {
    let deposited = OwnedStakeTokenChanges {
        owned_stake_token_changes: vec![change("AB", "10"), change("AB", "5"), change("cd", "x")],
    };
    let withdrawn = OwnedStakeTokenChanges { owned_stake_token_changes: vec![] };
    let adds = store_stake_token_changes(&all(), &deposited, &withdrawn);
    assert_eq!(adds.len(), 2);
    assert_eq!(total(&adds, "ab"), Some("5".to_string()));
    assert_eq!(total(&adds, "AB"), None);
    assert_eq!(total(&adds, "cd"), Some("0".to_string()));
}

#[test]
fn net_stake_of_a_block() {
    let block = Block {
        transaction_traces: vec![
            tx(1, &[1], vec![
                log(&OTHER, transfer(&OTHER, 0x01, "10")),
                log(&GRAPH, deposit(0xaa, "1000")),
                log(&GRAPH, deposit(0xbb, "10")),
            ], vec![log(&GRAPH, withdrawal(0xaa, "250"))]),
        ],
    };
    let deposited = map_stake_deposited(&block);
    let withdrawn = map_stake_withdrawn(&GRAPH, &block);
    let adds = store_stake_token_changes(&all(), &deposited, &withdrawn);
    assert_eq!(total(&adds, "aa"), Some("750".to_string()));
    assert_eq!(total(&adds, "bb"), Some("10".to_string()));
}

#[test]
fn staked_tokens_snapshots_and_rows() {
    let allocations = AllocationClosedDatas {
        allocation_closed_datas: vec![
            closed_data("0xAB01", "1", "h1"),
            closed_data("cd02", "2", "h2"),
        ],
    };
    let requests = staked_tokens_requests(&allocations);
    assert_eq!(requests.len(), 2);
    assert_eq!(requests[0].indexer_address, vec![0xab, 0x01]);
    assert_eq!(requests[0].store_key, "0xab01");
    assert_eq!(requests[1].indexer_address, vec![0xcd, 0x02]);
    assert_eq!(requests[1].store_key, "cd02");
    let lookups = vec![
        StakeLookup {
            staked_tokens: Some(amount("900")),
            stake: Some(amount("800")),
            query_fees: None,
            indexing_rewards: Some(amount("3")),
        },
        StakeLookup { staked_tokens: None, stake: None, query_fees: None, indexing_rewards: None },
    ];
    let changes = map_staked_tokens_changes(77, &allocations, &lookups);
    assert_eq!(changes, StakedTokensChanges {
        staked_tokens_changes: vec![StakedTokensChange {
            indexer: "0xab01".to_string(),
            block_number: 77,
            transaction_hash: "h1".to_string(),
            tokens: "900".to_string(),
            stake: "800".to_string(),
            query_fees: "0".to_string(),
            indexing_rewards: "3".to_string(),
        }],
    });
    let rows = db_out_rows(78, 1_700_000_000, &changes);
    assert_eq!(rows.len(), 1);
    let row = &rows[0];
    assert_eq!(row.table, "staked_tokens_changes");
    let key: Vec<(&str, &str)> = row.key.iter().map(|c| (c.name.as_str(), c.value.as_str())).collect();
    assert_eq!(key, vec![("indexer", "0xab01"), ("block_number", "78"), ("transaction_hash", "h1")]);
    let columns: Vec<(&str, &str)> = row.columns.iter().map(|c| (c.name.as_str(), c.value.as_str())).collect();
    assert_eq!(columns, vec![
        ("indexer", "0xab01"),
        ("tokens", "900"),
        ("staked_tokens", "800"),
        ("indexing_rewards", "3"),
        ("query_fees", "0"),
        ("block_timestamp", "1700000000"),
    ]);
}

#[test]
fn stake_store_refuses_unparsable_amount_added_to_a_total() {
    let withdrawn = OwnedStakeTokenChanges { owned_stake_token_changes: vec![] };
    let bad = OwnedStakeTokenChanges {
        owned_stake_token_changes: vec![change("aa", "1"), change("aa", "x")],
    };
    assert!(checked_store_stake_token_changes(&all(), &bad, &withdrawn).is_none());
    let first_bad = OwnedStakeTokenChanges {
        owned_stake_token_changes: vec![change("aa", "x"), change("aa", "1")],
    };
    let adds = checked_store_stake_token_changes(&all(), &first_bad, &withdrawn).unwrap();
    assert_eq!(adds.len(), 1);
    assert_eq!(total(&adds, "aa"), Some("1".to_string()));
}

#[test]
fn db_out_creates_one_row_per_snapshot() {
    let snapshot = StakedTokensChange {
        indexer: "aa".to_string(),
        block_number: 3,
        transaction_hash: "t".to_string(),
        tokens: "1".to_string(),
        stake: "2".to_string(),
        query_fees: "3".to_string(),
        indexing_rewards: "4".to_string(),
    };
    let empty = StakedTokensChanges { staked_tokens_changes: vec![] };
    assert!(db_out(7, 100, &empty).table_changes.is_empty());
    let one = StakedTokensChanges { staked_tokens_changes: vec![snapshot.clone()] };
    let d = db_out(7, 100, &one);
    assert_eq!(d.table_changes.len(), 1);
    let change = &d.table_changes[0];
    assert_eq!(change.table, "staked_tokens_changes");
    assert_eq!(change.operation, 1);
    match &change.primary_key {
        Some(PrimaryKey::CompositePk(k)) => {
            assert_eq!(k.keys.len(), 3);
            assert_eq!(k.keys["indexer"], "aa");
            assert_eq!(k.keys["block_number"], "7");
            assert_eq!(k.keys["transaction_hash"], "t");
        }
        _ => panic!("expected a composite key"),
    }
    let mut fields: Vec<(String, String)> =
        change.fields.iter().map(|f| (f.name.clone(), f.new_value.clone())).collect();
    fields.sort();
    assert_eq!(fields, vec![
        ("block_timestamp".to_string(), "100".to_string()),
        ("indexer".to_string(), "aa".to_string()),
        ("indexing_rewards".to_string(), "4".to_string()),
        ("query_fees".to_string(), "3".to_string()),
        ("staked_tokens".to_string(), "2".to_string()),
        ("tokens".to_string(), "1".to_string()),
    ]);
    let mut other = snapshot.clone();
    other.transaction_hash = "u".to_string();
    let two = StakedTokensChanges { staked_tokens_changes: vec![snapshot.clone(), other, snapshot] };
    assert_eq!(db_out(7, 100, &two).table_changes.len(), 2);
}
