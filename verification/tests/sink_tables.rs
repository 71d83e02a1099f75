use staked_tokens_tracker::sink::{TableColumn, TableRow};
use staked_tokens_tracker::tables::database_changes;
use substreams_database_change::pb::database::table_change::PrimaryKey;
use std::collections::HashMap;

fn column(name: &str, value: &str) -> TableColumn {
    TableColumn { name: name.to_string(), value: value.to_string() }
}

fn row(key: &str, columns: Vec<TableColumn>) -> TableRow {
    TableRow {
        table: "staked_tokens_changes".to_string(),
        key: vec![column("indexer", key), column("block_number", "7")],
        columns,
    }
}

#[test]
fn rows_become_create_changes_merged_by_key() {
    let rows = vec![
        row("aa", vec![column("tokens", "1"), column("stake", "2")]),
        row("bb", vec![column("tokens", "3")]),
        row("aa", vec![column("tokens", "9")]),
    ];
    let changes = database_changes(&rows);
    assert_eq!(changes.table_changes.len(), 2);
    let mut by_indexer: HashMap<String, HashMap<String, String>> = HashMap::new();
    for change in &changes.table_changes {
        assert_eq!(change.table, "staked_tokens_changes");
        assert_eq!(change.operation, 1);
        let keys = match &change.primary_key {
            Some(PrimaryKey::CompositePk(k)) => k.keys.clone(),
            _ => panic!("expected a composite key"),
        };
        assert_eq!(keys.get("block_number").map(|s| s.as_str()), Some("7"));
        let fields: HashMap<String, String> =
            change.fields.iter().map(|f| (f.name.clone(), f.new_value.clone())).collect();
        by_indexer.insert(keys["indexer"].clone(), fields);
    }
    assert_eq!(by_indexer["aa"]["tokens"], "9");
    assert_eq!(by_indexer["aa"]["stake"], "2");
    assert_eq!(by_indexer["bb"]["tokens"], "3");
    assert_eq!(by_indexer["bb"].len(), 1);
}

#[test]
fn no_rows_no_changes() {
    assert!(database_changes(&Vec::new()).table_changes.is_empty());
}
