//! The database sink's table builder: rows created under a table name and a
//! composite primary key, their columns set, and the changes that result.

use vstd::prelude::*;
use substreams_database_change::pb::database::DatabaseChanges;
use substreams_database_change::tables::{PrimaryKey, Tables};
use crate::sink::{columns_view, names_distinct, row_views, TableColumn, TableRow, TableRowView};

verus! {

#[verifier::external_type_specification]
#[verifier::external_body]
pub struct ExTables(Tables);

#[verifier::external_type_specification]
#[verifier::external_body]
pub struct ExDatabaseChanges(DatabaseChanges);

/// The place of a row: its table and its composite primary key (column
/// name to value).
pub open spec fn row_place(table: Seq<char>, key: Seq<(Seq<char>, Seq<char>)>) -> (Seq<char>, Map<
    Seq<char>,
    Seq<char>,
>) {
    (table, composite_key(key))
}

/// A composite primary key from its (name, value) pairs; a later pair under
/// the same name wins.
pub open spec fn composite_key(key: Seq<(Seq<char>, Seq<char>)>) -> Map<Seq<char>, Seq<char>>
    decreases key.len(),
{
    if key.len() == 0 {
        Map::empty()
    } else {
        composite_key(key.drop_last()).insert(key.last().0, key.last().1)
    }
}

/// What the rows of a `Tables` hold: by place, the columns set (name to
/// value).
pub uninterp spec fn table_rows(t: Tables) -> Map<(Seq<char>, Map<Seq<char>, Seq<char>>), Map<Seq<char>, Seq<char>>>;

/// The places of the rows of a `Tables` that are marked for creation.
pub uninterp spec fn created_row_places(t: Tables) -> Set<(Seq<char>, Map<Seq<char>, Seq<char>>)>;

/// The changes of a `DatabaseChanges`, in order, each as its table, its
/// primary key (the composite key's map; a single key stands as the map
/// from the empty name to it), its operation's number, and its fields (name
/// to new value).
pub uninterp spec fn database_change_list(d: DatabaseChanges) -> Seq<(Seq<char>, Map<Seq<char>, Seq<char>>, int, Map<Seq<char>, Seq<char>>)>;

/// The number of the operation that creates a row.
pub open spec fn operation_create() -> int {
    1
}

/// The changes create exactly the rows of `m`: each change creates a row
/// of `m` with its columns as fields, no two changes have the same place,
/// and every row has a change.
pub open spec fn changes_hold(
    list: Seq<(Seq<char>, Map<Seq<char>, Seq<char>>, int, Map<Seq<char>, Seq<char>>)>,
    m: Map<(Seq<char>, Map<Seq<char>, Seq<char>>), Map<Seq<char>, Seq<char>>>,
) -> bool {
    &&& forall|i: int|
        0 <= i < list.len() ==> m.contains_key(((#[trigger] list[i]).0, list[i].1)) && list[i].2
            == operation_create() && list[i].3 == m[(list[i].0, list[i].1)]
    &&& forall|i: int, j: int|
        0 <= i < list.len() && 0 <= j < list.len() && i != j ==> ((#[trigger] list[i]).0, list[i].1)
            != ((#[trigger] list[j]).0, list[j].1)
    &&& forall|p: (Seq<char>, Map<Seq<char>, Seq<char>>)|
        #[trigger] m.contains_key(p) ==> exists|i: int|
            0 <= i < list.len() && (#[trigger] list[i]).0 == p.0 && list[i].1 == p.1
}

/// Every row of the tables is marked for creation.
pub open spec fn only_created_rows(t: Tables) -> bool {
    forall|p: (Seq<char>, Map<Seq<char>, Seq<char>>)|
        #[trigger] table_rows(t).contains_key(p) ==> created_row_places(t).contains(p)
}

/// `Tables::new`: the claim is that it holds no row.
#[verifier::external_body]
fn tables_new() -> (t: Tables)
    ensures
        table_rows(t).is_empty(),
        created_row_places(t).is_empty(),
{
    Tables::new()
}

/// `Tables::create_row` with a composite key whose column names are
/// distinct: the claim is that a row not
/// yet there is entered with no columns and marked for creation, and that
/// one already marked for creation is left as it is. It panics on a row
/// marked for update or deletion, which the `requires` leaves out.
#[verifier::external_body]
fn tables_create_row(t: &mut Tables, table: &str, key: &Vec<TableColumn>)
    requires
        names_distinct(columns_view(key@)),
        table_rows(*old(t)).contains_key(row_place(table@, columns_view(key@)))
            ==> created_row_places(*old(t)).contains(row_place(table@, columns_view(key@))),
    ensures
        table_rows(*final(t)) == (if table_rows(*old(t)).contains_key(
            row_place(table@, columns_view(key@)),
        ) {
            table_rows(*old(t))
        } else {
            table_rows(*old(t)).insert(row_place(table@, columns_view(key@)), Map::empty())
        }),
        created_row_places(*final(t)) == created_row_places(*old(t)).insert(
            row_place(table@, columns_view(key@)),
        ),
{
    t.create_row(
        table,
        PrimaryKey::Composite(key.iter().map(|c| (c.name.clone(), c.value.clone())).collect()),
    );
}

/// `Row::set` on the row that `Tables::create_row` gives back for a row
/// already marked for creation (its key's column names distinct): the claim is that the column is set to the
/// value, the other rows and columns left as they are.
#[verifier::external_body]
fn tables_set(t: &mut Tables, table: &str, key: &Vec<TableColumn>, name: &str, value: String)
    requires
        names_distinct(columns_view(key@)),
        table_rows(*old(t)).contains_key(row_place(table@, columns_view(key@))),
        created_row_places(*old(t)).contains(row_place(table@, columns_view(key@))),
    ensures
        table_rows(*final(t)) == table_rows(*old(t)).insert(
            row_place(table@, columns_view(key@)),
            table_rows(*old(t))[row_place(table@, columns_view(key@))].insert(name@, value@),
        ),
        created_row_places(*final(t)) == created_row_places(*old(t)),
{
    t.create_row(
        table,
        PrimaryKey::Composite(key.iter().map(|c| (c.name.clone(), c.value.clone())).collect()),
    ).set(name, value);
}

/// `Tables::to_database_changes`: the claim is that, where every row is
/// marked for creation, there is exactly one change per row, which creates
/// it with its columns as fields. The order of the changes is not stated
/// (the builder keeps the rows in hash maps).
#[verifier::external_body]
fn tables_to_database_changes(t: Tables) -> (d: DatabaseChanges)
    requires
        only_created_rows(t),
    ensures
        changes_hold(database_change_list(d), table_rows(t)),
{
    t.to_database_changes()
}

/// Sets the columns, in order, on the columns `m`.
pub open spec fn set_columns(m: Map<Seq<char>, Seq<char>>, columns: Seq<(Seq<char>, Seq<char>)>) -> Map<
    Seq<char>,
    Seq<char>,
>
    decreases columns.len(),
{
    if columns.len() == 0 {
        m
    } else {
        set_columns(m, columns.drop_last()).insert(columns.last().0, columns.last().1)
    }
}

/// The rows that creating each row, then setting its columns, in order,
/// gives: rows at the same place are merged, a later value of a column
/// winning.
pub open spec fn rows_table(rows: Seq<TableRowView>) -> Map<(Seq<char>, Map<Seq<char>, Seq<char>>), Map<Seq<char>, Seq<char>>>
    decreases rows.len(),
{
    if rows.len() == 0 {
        Map::empty()
    } else {
        let before = rows_table(rows.drop_last());
        let p = row_place(rows.last().table, rows.last().key);
        let base = if before.contains_key(p) {
            before[p]
        } else {
            Map::empty()
        };
        before.insert(p, set_columns(base, rows.last().columns))
    }
}

/// The database changes of the rows (their keys' column names distinct):
/// exactly one change per place of a row, creating it with the columns of
/// the rows at that place merged in order.
pub fn database_changes(rows: &Vec<TableRow>) -> (d: DatabaseChanges)
    requires
        forall|i: int| 0 <= i < rows@.len() ==> names_distinct(#[trigger] row_views(rows@)[i].key),
    ensures
        changes_hold(database_change_list(d), rows_table(row_views(rows@))),
{
    let ghost views = row_views(rows@);
    let mut t = tables_new();
    assert(table_rows(t) =~= rows_table(views.take(0)));
    let mut i: usize = 0;
    while i < rows.len()
        invariant
            i <= rows@.len(),
            views == row_views(rows@),
            forall|k: int| 0 <= k < rows@.len() ==> names_distinct(#[trigger] views[k].key),
            table_rows(t) == rows_table(views.take(i as int)),
            only_created_rows(t),
        decreases rows@.len() - i,
    {
        let row = &rows[i];
        assert(views[i as int] == row@);
        assert(names_distinct(views[i as int].key));
        let ghost p = row_place(row.table@, columns_view(row.key@));
        let ghost before = table_rows(t);
        let ghost base = if before.contains_key(p) {
            before[p]
        } else {
            Map::<Seq<char>, Seq<char>>::empty()
        };
        tables_create_row(&mut t, row.table.as_str(), &row.key);
        assert(columns_view(row.columns@).take(0) =~= Seq::<(Seq<char>, Seq<char>)>::empty());
        assert(table_rows(t) =~= before.insert(p, base));
        let mut j: usize = 0;
        while j < row.columns.len()
            invariant
                j <= row.columns@.len(),
                names_distinct(columns_view(row.key@)),
                p == row_place(row.table@, columns_view(row.key@)),
                table_rows(t) == before.insert(
                    p,
                    set_columns(base, columns_view(row.columns@).take(j as int)),
                ),
                created_row_places(t).contains(p),
                only_created_rows(t),
            decreases row.columns@.len() - j,
        {
            let column = &row.columns[j];
            tables_set(
                &mut t,
                row.table.as_str(),
                &row.key,
                column.name.as_str(),
                column.value.clone(),
            );
            proof {
                let cols = columns_view(row.columns@);
                assert(cols.take(j + 1).drop_last() =~= cols.take(j as int));
                assert(cols.take(j + 1).last() == column@);
                assert(table_rows(t) =~= before.insert(p, set_columns(base, cols.take(j + 1))));
                assert forall|q: (Seq<char>, Map<Seq<char>, Seq<char>>)|
                    #[trigger] table_rows(t).contains_key(q) implies created_row_places(t).contains(
                    q,
                ) by {
                    if q != p {
                        assert(table_rows(t).contains_key(q));
                    }
                }
            }
            j = j + 1;
        }
        proof {
            let cols = columns_view(row.columns@);
            assert(cols.take(cols.len() as int) =~= cols);
            assert(views.take(i + 1).drop_last() =~= views.take(i as int));
            assert(views.take(i + 1).last() == row@);
            assert(table_rows(t) =~= rows_table(views.take(i + 1)));
        }
        i = i + 1;
    }
    assert(views.take(rows@.len() as int) =~= views);
    tables_to_database_changes(t)
}

/// The places of a run of rows.
pub open spec fn place_seq(rows: Seq<TableRowView>) -> Seq<(Seq<char>, Map<Seq<char>, Seq<char>>)> {
    rows.map_values(|r: TableRowView| row_place(r.table, r.key))
}

/// The rows that the run gives are at exactly the places of the run.
pub proof fn lemma_rows_table_dom(rows: Seq<TableRowView>)
    ensures
        rows_table(rows).dom() == place_seq(rows).to_set(),
    decreases rows.len(),
{
    if rows.len() > 0 {
        lemma_rows_table_dom(rows.drop_last());
        let ps = place_seq(rows);
        let pd = place_seq(rows.drop_last());
        assert(ps =~= pd.push(row_place(rows.last().table, rows.last().key)));
        assert forall|p: (Seq<char>, Map<Seq<char>, Seq<char>>)| ps.to_set().contains(p) == (pd.to_set().contains(p)
            || p == row_place(rows.last().table, rows.last().key)) by {
            if ps.to_set().contains(p) {
                let i = choose|i: int| 0 <= i < ps.len() && ps[i] == p;
                if i < pd.len() {
                    assert(pd[i] == p);
                }
            }
            if pd.to_set().contains(p) {
                let i = choose|i: int| 0 <= i < pd.len() && pd[i] == p;
                assert(ps[i] == p);
            }
            if p == row_place(rows.last().table, rows.last().key) {
                assert(ps[ps.len() - 1] == p);
            }
        }
        assert(rows_table(rows).dom() =~= ps.to_set());
    } else {
        assert(rows_table(rows).dom() =~= place_seq(rows).to_set());
    }
}

/// The composite key of three named values.
pub proof fn lemma_composite_key_of_three(k: Seq<(Seq<char>, Seq<char>)>)
    requires
        k.len() == 3,
    ensures
        composite_key(k) == Map::<Seq<char>, Seq<char>>::empty().insert(k[0].0, k[0].1).insert(
            k[1].0,
            k[1].1,
        ).insert(k[2].0, k[2].1),
{
    let k2 = k.drop_last();
    let k1 = k2.drop_last();
    let k0 = k1.drop_last();
    assert(k0 =~= Seq::<(Seq<char>, Seq<char>)>::empty());
    assert(k1.last() == k[0]);
    assert(k2.last() == k[1]);
    assert(k.last() == k[2]);
    assert(composite_key(k0) == Map::<Seq<char>, Seq<char>>::empty());
    assert(composite_key(k1) == composite_key(k0).insert(k[0].0, k[0].1));
    assert(composite_key(k2) == composite_key(k1).insert(k[1].0, k[1].1));
}

} // verus!
