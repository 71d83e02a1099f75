//! Snapshots of staked tokens taken when allocations close, and the rows
//! they become in the database sink.

use vstd::prelude::*;
use vstd::string::StringExecFns;
use crate::amount::{decimal_string, i64_to_decimal, u64_to_decimal, Amount};
use crate::records::{
    AllocationClosedData, AllocationClosedDataView, AllocationClosedDatas, StakedTokensChange,
    StakedTokensChangeView, StakedTokensChanges,
};
use crate::tables::{
    changes_hold, composite_key, lemma_composite_key_of_three, database_change_list, database_changes, lemma_rows_table_dom,
    operation_create, place_seq, rows_table,
};
use substreams_database_change::pb::database::DatabaseChanges;
use crate::text::{hex_decode, hex_decode_panics, hex_decode_text, lowercase, to_lowercase};

verus! {

/// What must be looked up for a closed allocation: the indexer's address as
/// bytes (the argument of the staking contract's `getIndexerStakedTokens`
/// call) and the key of the indexer in the stores.
pub struct StakedTokensRequest {
    pub indexer_address: Vec<u8>,
    pub store_key: String,
}

/// What the lookups of a closed allocation gave: the result of the
/// `getIndexerStakedTokens` call (`None` where the call failed) and the last
/// totals of the stake, query-fee and indexing-reward stores (`None` where
/// the store holds nothing under the key).
pub struct StakeLookup {
    pub staked_tokens: Option<Amount>,
    pub stake: Option<Amount>,
    pub query_fees: Option<Amount>,
    pub indexing_rewards: Option<Amount>,
}

/// Every closed allocation's address is hexadecimal text that decodes.
pub open spec fn addresses_decode(allocations: Seq<AllocationClosedDataView>) -> bool {
    forall|i: int|
        0 <= i < allocations.len() ==> !hex_decode_panics((#[trigger] allocations[i]).address)
            && hex_decode_text(allocations[i].address) is Some
}

/// The lookups of each closed allocation, in order: the decoded address and
/// the lower-cased address as store key.
pub fn staked_tokens_requests(allocation_closed: &AllocationClosedDatas) -> (r: Vec<StakedTokensRequest>)
    requires
        addresses_decode(allocation_closed@),
    ensures
        r@.len() == allocation_closed@.len(),
        forall|i: int|
            0 <= i < r@.len() ==> (#[trigger] r@[i]).indexer_address@ == hex_decode_text(
                allocation_closed@[i].address,
            )->0 && r@[i].store_key@ == lowercase(allocation_closed@[i].address),
{
    let allocations = &allocation_closed.allocation_closed_datas;
    let mut out: Vec<StakedTokensRequest> = Vec::new();
    let mut i: usize = 0;
    while i < allocations.len()
        invariant
            i <= allocations@.len(),
            allocation_closed@ == allocations@.map_values(|r: AllocationClosedData| r@),
            addresses_decode(allocation_closed@),
            out@.len() == i,
            forall|j: int|
                0 <= j < i ==> (#[trigger] out@[j]).indexer_address@ == hex_decode_text(
                    allocation_closed@[j].address,
                )->0 && out@[j].store_key@ == lowercase(allocation_closed@[j].address),
        decreases allocations@.len() - i,
    {
        let a = &allocations[i];
        assert(allocation_closed@[i as int].address == a.address@);
        assert(!hex_decode_panics(a.address@) && hex_decode_text(a.address@) is Some);
        let decoded = hex_decode(a.address.as_str());
        out.push(
            StakedTokensRequest {
                indexer_address: decoded.unwrap(),
                store_key: to_lowercase(a.address.as_str()),
            },
        );
        i = i + 1;
    }
    out
}

/// The value of a looked-up total, zero where there is none.
pub open spec fn value_or_zero(a: Option<Amount>) -> int {
    match a {
        Some(x) => x.value(),
        None => 0,
    }
}

/// The snapshot of one closed allocation whose staked-tokens call gave
/// `tokens`.
pub open spec fn staked_tokens_record(
    block_number: u64,
    a: AllocationClosedDataView,
    tokens: Amount,
    l: StakeLookup,
) -> StakedTokensChangeView {
    StakedTokensChangeView {
        indexer: lowercase(a.address),
        block_number,
        transaction_hash: a.transaction_hash,
        tokens: decimal_string(tokens.value()),
        stake: decimal_string(value_or_zero(l.stake)),
        query_fees: decimal_string(value_or_zero(l.query_fees)),
        indexing_rewards: decimal_string(value_or_zero(l.indexing_rewards)),
    }
}

/// The snapshots of the closed allocations, paired with their lookups, in
/// order; an allocation whose call failed gives none.
pub open spec fn staked_tokens_of(
    block_number: u64,
    allocations: Seq<AllocationClosedDataView>,
    lookups: Seq<StakeLookup>,
) -> Seq<StakedTokensChangeView>
    decreases allocations.len(),
{
    if allocations.len() == 0 || lookups.len() != allocations.len() {
        Seq::empty()
    } else {
        staked_tokens_of(block_number, allocations.drop_last(), lookups.drop_last()) + match lookups.last().staked_tokens {
            Some(t) => seq![staked_tokens_record(block_number, allocations.last(), t, lookups.last())],
            None => Seq::empty(),
        }
    }
}

/// The decimal text of a looked-up total, "0" where there is none.
fn total_text(a: &Option<Amount>) -> (r: String)
    ensures
        r@ == decimal_string(value_or_zero(*a)),
{
    match a {
        Some(x) => x.to_decimal_string(),
        None => Amount::zero().to_decimal_string(),
    }
}

/// The staked-tokens snapshots of a block: for each closed allocation whose
/// staked-tokens call succeeded, the lower-cased indexer, the block number,
/// the transaction hash, the staked tokens, and the last stake, query-fee
/// and indexing-reward totals (zero where there is none), all in decimal.
/// `lookups` holds what the lookups of `staked_tokens_requests` gave, one
/// per allocation.
pub fn map_staked_tokens_changes(
    block_number: u64,
    allocation_closed: &AllocationClosedDatas,
    lookups: &Vec<StakeLookup>,
) -> (r: StakedTokensChanges)
    requires
        lookups@.len() == allocation_closed@.len(),
    ensures
        r@ == staked_tokens_of(block_number, allocation_closed@, lookups@),
{
    let allocations = &allocation_closed.allocation_closed_datas;
    let ghost views = allocation_closed@;
    let mut out: Vec<StakedTokensChange> = Vec::new();
    let mut i: usize = 0;
    while i < allocations.len()
        invariant
            i <= allocations@.len(),
            lookups@.len() == allocations@.len(),
            views == allocations@.map_values(|r: AllocationClosedData| r@),
            out@.map_values(|r: StakedTokensChange| r@) == staked_tokens_of(
                block_number,
                views.take(i as int),
                lookups@.take(i as int),
            ),
        decreases allocations@.len() - i,
    {
        let a = &allocations[i];
        let l = &lookups[i];
        let ghost mid = out@.map_values(|r: StakedTokensChange| r@);
        match &l.staked_tokens {
            Some(t) => {
                let record = StakedTokensChange {
                    indexer: to_lowercase(a.address.as_str()),
                    block_number,
                    transaction_hash: a.transaction_hash.clone(),
                    tokens: t.to_decimal_string(),
                    stake: total_text(&l.stake),
                    query_fees: total_text(&l.query_fees),
                    indexing_rewards: total_text(&l.indexing_rewards),
                };
                out.push(record);
                assert(out@.map_values(|r: StakedTokensChange| r@) =~= mid.push(record@));
            },
            None => {},
        }
        proof {
            assert(views.take(i + 1).drop_last() =~= views.take(i as int));
            assert(lookups@.take(i + 1).drop_last() =~= lookups@.take(i as int));
            assert(views.take(i + 1).last() == a@);
            assert(lookups@.take(i + 1).last() == *l);
            assert(out@.map_values(|r: StakedTokensChange| r@) =~= staked_tokens_of(
                block_number,
                views.take(i + 1),
                lookups@.take(i + 1),
            ));
        }
        i = i + 1;
    }
    assert(views.take(allocations@.len() as int) =~= views);
    assert(lookups@.take(allocations@.len() as int) =~= lookups@);
    StakedTokensChanges { staked_tokens_changes: out }
}

/// A named value of a row.
pub struct TableColumn {
    pub name: String,
    pub value: String,
}

impl View for TableColumn {
    type V = (Seq<char>, Seq<char>);

    open spec fn view(&self) -> (Seq<char>, Seq<char>) {
        (self.name@, self.value@)
    }
}

/// The (name, value) pairs of a run of columns.
pub open spec fn columns_view(s: Seq<TableColumn>) -> Seq<(Seq<char>, Seq<char>)> {
    s.map_values(|c: TableColumn| c@)
}

/// A row to create in a table of the sink: its primary key (a composite of
/// named values) and the values to set, in order.
pub struct TableRow {
    pub table: String,
    pub key: Vec<TableColumn>,
    pub columns: Vec<TableColumn>,
}

pub struct TableRowView {
    pub table: Seq<char>,
    pub key: Seq<(Seq<char>, Seq<char>)>,
    pub columns: Seq<(Seq<char>, Seq<char>)>,
}

impl View for TableRow {
    type V = TableRowView;

    open spec fn view(&self) -> TableRowView {
        TableRowView {
            table: self.table@,
            key: columns_view(self.key@),
            columns: columns_view(self.columns@),
        }
    }
}

/// The row of one snapshot: keyed by indexer, block number and transaction
/// hash in the table "staked_tokens_changes".
pub open spec fn staked_tokens_row(
    block_number: u64,
    timestamp_seconds: i64,
    c: StakedTokensChangeView,
) -> TableRowView {
    TableRowView {
        table: "staked_tokens_changes"@,
        key: seq![
            ("indexer"@, c.indexer),
            ("block_number"@, decimal_string(block_number as int)),
            ("transaction_hash"@, c.transaction_hash),
        ],
        columns: seq![
            ("indexer"@, c.indexer),
            ("tokens"@, c.tokens),
            ("staked_tokens"@, c.stake),
            ("indexing_rewards"@, c.indexing_rewards),
            ("query_fees"@, c.query_fees),
            ("block_timestamp"@, decimal_string(timestamp_seconds as int)),
        ],
    }
}

/// A column from a name and a value.
fn column(name: &str, value: String) -> (r: TableColumn)
    ensures
        r@ == (name@, value@),
{
    TableColumn { name: String::from_str(name), value }
}

/// The row of one snapshot.
fn staked_tokens_table_row(block_number: &String, timestamp: &String, c: &StakedTokensChange) -> (r:
    TableRow)
    ensures
        r@.table == "staked_tokens_changes"@,
        r@.key == seq![
            ("indexer"@, c.indexer@),
            ("block_number"@, block_number@),
            ("transaction_hash"@, c.transaction_hash@),
        ],
        r@.columns == seq![
            ("indexer"@, c.indexer@),
            ("tokens"@, c.tokens@),
            ("staked_tokens"@, c.stake@),
            ("indexing_rewards"@, c.indexing_rewards@),
            ("query_fees"@, c.query_fees@),
            ("block_timestamp"@, timestamp@),
        ],
{
    let mut key: Vec<TableColumn> = Vec::new();
    key.push(column("indexer", c.indexer.clone()));
    key.push(column("block_number", block_number.clone()));
    key.push(column("transaction_hash", c.transaction_hash.clone()));
    let mut columns: Vec<TableColumn> = Vec::new();
    columns.push(column("indexer", c.indexer.clone()));
    columns.push(column("tokens", c.tokens.clone()));
    columns.push(column("staked_tokens", c.stake.clone()));
    columns.push(column("indexing_rewards", c.indexing_rewards.clone()));
    columns.push(column("query_fees", c.query_fees.clone()));
    columns.push(column("block_timestamp", timestamp.clone()));
    let r = TableRow { table: String::from_str("staked_tokens_changes"), key, columns };
    assert(r@.key =~= seq![
        ("indexer"@, c.indexer@),
        ("block_number"@, block_number@),
        ("transaction_hash"@, c.transaction_hash@),
    ]);
    assert(r@.columns =~= seq![
        ("indexer"@, c.indexer@),
        ("tokens"@, c.tokens@),
        ("staked_tokens"@, c.stake@),
        ("indexing_rewards"@, c.indexing_rewards@),
        ("query_fees"@, c.query_fees@),
        ("block_timestamp"@, timestamp@),
    ]);
    r
}

/// The views of a run of rows.
pub open spec fn row_views(rows: Seq<TableRow>) -> Seq<TableRowView> {
    rows.map_values(|row: TableRow| row@)
}

/// The rows of the snapshots, one per snapshot in order.
pub open spec fn snapshot_rows(
    block_number: u64,
    timestamp_seconds: i64,
    changes: Seq<StakedTokensChangeView>,
) -> Seq<TableRowView> {
    changes.map_values(|c: StakedTokensChangeView| staked_tokens_row(block_number, timestamp_seconds, c))
}

/// No two columns of the run have the same name.
pub open spec fn names_distinct(columns: Seq<(Seq<char>, Seq<char>)>) -> bool {
    forall|i: int, j: int|
        0 <= i < columns.len() && 0 <= j < columns.len() && i != j ==> (#[trigger] columns[i]).0
            != (#[trigger] columns[j]).0
}

/// The three key columns of a snapshot's row have distinct names.
pub proof fn lemma_snapshot_row_key_names(
    block_number: u64,
    timestamp_seconds: i64,
    c: StakedTokensChangeView,
)
    ensures
        names_distinct(staked_tokens_row(block_number, timestamp_seconds, c).key),
        "indexer"@ != "block_number"@,
        "indexer"@ != "transaction_hash"@,
        "block_number"@ != "transaction_hash"@,
{
    reveal_strlit("indexer");
    reveal_strlit("block_number");
    reveal_strlit("transaction_hash");
    assert("indexer"@.len() != "block_number"@.len());
    assert("indexer"@.len() != "transaction_hash"@.len());
    assert("block_number"@.len() != "transaction_hash"@.len());
}

/// The database rows of the snapshots, one per snapshot in order; the
/// block number and timestamp are those of the block being processed.
pub fn db_out_rows(block_number: u64, timestamp_seconds: i64, staked_tokens_changes: &StakedTokensChanges) -> (r:
    Vec<TableRow>)
    ensures
        row_views(r@) == snapshot_rows(block_number, timestamp_seconds, staked_tokens_changes@),
{
    let block_text = u64_to_decimal(block_number);
    let timestamp_text = i64_to_decimal(timestamp_seconds);
    let changes = &staked_tokens_changes.staked_tokens_changes;
    let mut rows: Vec<TableRow> = Vec::new();
    let mut i: usize = 0;
    while i < changes.len()
        invariant
            i <= changes@.len(),
            block_text@ == decimal_string(block_number as int),
            timestamp_text@ == decimal_string(timestamp_seconds as int),
            rows@.len() == i,
            forall|j: int|
                0 <= j < i ==> (#[trigger] rows@[j])@ == staked_tokens_row(
                    block_number,
                    timestamp_seconds,
                    changes@[j]@,
                ),
        decreases changes@.len() - i,
    {
        let row = staked_tokens_table_row(&block_text, &timestamp_text, &changes[i]);
        rows.push(row);
        i = i + 1;
    }
    assert(row_views(rows@) =~= snapshot_rows(
        block_number,
        timestamp_seconds,
        staked_tokens_changes@,
    ));
    rows
}

/// No two snapshots share both indexer and transaction hash.
pub open spec fn snapshot_keys_distinct(changes: Seq<StakedTokensChangeView>) -> bool {
    forall|i: int, j: int|
        0 <= i < changes.len() && 0 <= j < changes.len() && i != j ==> !((#[trigger] changes[i]).indexer
            == (#[trigger] changes[j]).indexer && changes[i].transaction_hash
            == changes[j].transaction_hash)
}

/// The database changes of the snapshots: exactly one change per place of
/// a snapshot's row, each creating that row in "staked_tokens_changes" with
/// the columns of the snapshots at that place merged in order; none for no
/// snapshot, and one per snapshot where no two share indexer and
/// transaction hash.
pub fn db_out(block_number: u64, timestamp_seconds: i64, staked_tokens_changes: &StakedTokensChanges) -> (d:
    DatabaseChanges)
    ensures
        changes_hold(
            database_change_list(d),
            rows_table(snapshot_rows(block_number, timestamp_seconds, staked_tokens_changes@)),
        ),
        forall|i: int|
            0 <= i < database_change_list(d).len() ==> (#[trigger] database_change_list(d)[i]).0
                == "staked_tokens_changes"@ && database_change_list(d)[i].2 == operation_create(),
        staked_tokens_changes@.len() == 0 ==> database_change_list(d).len() == 0,
        snapshot_keys_distinct(staked_tokens_changes@) ==> database_change_list(d).len()
            == staked_tokens_changes@.len(),
{
    let rows = db_out_rows(block_number, timestamp_seconds, staked_tokens_changes);
    let ghost snapshots = staked_tokens_changes@;
    let ghost views = snapshot_rows(block_number, timestamp_seconds, snapshots);
    proof {
        assert forall|i: int| 0 <= i < row_views(rows@).len() implies names_distinct(
            (#[trigger] row_views(rows@)[i]).key,
        ) by {
            lemma_snapshot_row_key_names(block_number, timestamp_seconds, snapshots[i]);
        }
    }
    let d = database_changes(&rows);
    proof {
        let list = database_change_list(d);
        let m = rows_table(views);
        lemma_rows_table_dom(views);
        let places = place_seq(views);
        assert forall|i: int| 0 <= i < list.len() implies (#[trigger] list[i]).0
            == "staked_tokens_changes"@ && list[i].2 == operation_create() by {
            assert(m.contains_key((list[i].0, list[i].1)));
            assert(places.to_set().contains((list[i].0, list[i].1)));
            let k = choose|k: int| 0 <= k < places.len() && places[k] == (list[i].0, list[i].1);
            assert(places[k].0 == views[k].table);
        }
        if snapshots.len() == 0 {
            if list.len() > 0 {
                assert(m.contains_key((list[0].0, list[0].1)));
                assert(places.to_set().contains((list[0].0, list[0].1)));
            }
        }
        if snapshot_keys_distinct(snapshots) {
            lemma_snapshot_places_distinct(block_number, timestamp_seconds, snapshots);
            lemma_list_len_from_places(list, m, places);
        }
    }
    d
}

/// Snapshots that share neither indexer nor transaction hash give rows at
/// distinct places.
proof fn lemma_snapshot_places_distinct(
    block_number: u64,
    timestamp_seconds: i64,
    snapshots: Seq<StakedTokensChangeView>,
)
    requires
        snapshot_keys_distinct(snapshots),
    ensures
        place_seq(snapshot_rows(block_number, timestamp_seconds, snapshots)).no_duplicates(),
{
    let views = snapshot_rows(block_number, timestamp_seconds, snapshots);
    let places = place_seq(views);
    assert forall|i: int, j: int|
        0 <= i < places.len() && 0 <= j < places.len() && i != j implies places[i] != places[j] by {
        let a = snapshots[i];
        let b = snapshots[j];
        lemma_snapshot_row_key_names(block_number, timestamp_seconds, a);
        let ka = composite_key(views[i].key);
        let kb = composite_key(views[j].key);
        lemma_composite_key_of_three(views[i].key);
        lemma_composite_key_of_three(views[j].key);
        assert(ka["indexer"@] == a.indexer);
        assert(kb["indexer"@] == b.indexer);
        assert(ka["transaction_hash"@] == a.transaction_hash);
        assert(kb["transaction_hash"@] == b.transaction_hash);
        assert(!(a.indexer == b.indexer && a.transaction_hash == b.transaction_hash));
    }
}

/// A list of changes that holds exactly the entries of `m`, whose places
/// are those of a duplicate-free run, is as long as the run.
proof fn lemma_list_len_from_places(
    list: Seq<(Seq<char>, Map<Seq<char>, Seq<char>>, int, Map<Seq<char>, Seq<char>>)>,
    m: Map<(Seq<char>, Map<Seq<char>, Seq<char>>), Map<Seq<char>, Seq<char>>>,
    places: Seq<(Seq<char>, Map<Seq<char>, Seq<char>>)>,
)
    requires
        changes_hold(list, m),
        m.dom() == places.to_set(),
        places.no_duplicates(),
    ensures
        list.len() == places.len(),
{
    let lp = list.map_values(
        |c: (Seq<char>, Map<Seq<char>, Seq<char>>, int, Map<Seq<char>, Seq<char>>)| (c.0, c.1),
    );
    assert(lp.no_duplicates()) by {
        assert forall|i: int, j: int| 0 <= i < lp.len() && 0 <= j < lp.len() && i != j implies lp[i]
            != lp[j] by {
            assert(lp[i] == (list[i].0, list[i].1));
            assert(lp[j] == (list[j].0, list[j].1));
        }
    }
    assert(lp.to_set() =~= places.to_set()) by {
        assert forall|p: (Seq<char>, Map<Seq<char>, Seq<char>>)| lp.to_set().contains(p) implies places.to_set().contains(
            p,
        ) by {
            let i = choose|i: int| 0 <= i < lp.len() && lp[i] == p;
            assert(m.contains_key((list[i].0, list[i].1)));
        }
        assert forall|p: (Seq<char>, Map<Seq<char>, Seq<char>>)| places.to_set().contains(p) implies lp.to_set().contains(
            p,
        ) by {
            assert(m.contains_key(p));
            let i = choose|i: int| 0 <= i < list.len() && (#[trigger] list[i]).0 == p.0 && list[i].1 == p.1;
            assert(lp[i] == p);
        }
    }
    lp.unique_seq_to_set();
    places.unique_seq_to_set();
}

} // verus!
