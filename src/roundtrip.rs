//! Saving a table as a snapshot and loading it back.
use vstd::prelude::*;
use crate::db::{empty_table, row_free, with_row};
use crate::fields::{as_map, has_key, keys, lemma_set_entry, unique_keys};
use crate::snapshot::{cell, install, install_all, pairs_of, record_of, rows_records, same_items, snapshot_records, table_of_records, tail_of};
use crate::table::{add_cols, covered, lemma_add_cols_present, lemma_row_pos, no_dups, reserved_id, FieldsView, TableView};

verus! {

/// The values of `row` in the columns `cs`, empty where missing.
pub open spec fn cells(row: FieldsView, cs: Seq<Seq<char>>) -> Seq<Seq<char>> {
    cs.map_values(|c: Seq<char>| cell(row, c))
}

/// Every user row, and the type row, has a value in every column.
pub open spec fn full(tv: TableView) -> bool {
    &&& forall|i: int, c: Seq<char>|
        0 <= i < tv.rows.len() && tv.columns.contains(c) ==> #[trigger] has_key(tv.rows[i].1, c)
    &&& tv.datatypes matches Some(d) ==> forall|c: Seq<char>| tv.columns.contains(c) ==> has_key(d, c)
}

proof fn lemma_dup_count(s: Seq<Seq<char>>, i: int, j: int)
    requires
        0 <= i < j < s.len(),
        s[i] == s[j],
    ensures
        s.to_multiset().count(s[i]) >= 2,
    decreases s.len(),
{
    let t = s.drop_last();
    assert(s =~= t.push(s.last()));
    t.to_multiset_ensures();
    if j < s.len() - 1 {
        lemma_dup_count(t, i, j);
        assert(t[i] == s[i]);
    } else {
        assert(t[i] == s[i]);
        assert(t.contains(s[i]));
    }
}

/// A list with the same items as a list without repetition has none, and
/// holds the same texts.
proof fn lemma_same_items(a: Seq<Seq<char>>, b: Seq<Seq<char>>)
    requires
        same_items(a, b),
        no_dups(b),
    ensures
        no_dups(a),
        forall|x: Seq<char>| a.contains(x) <==> b.contains(x),
{
    a.to_multiset_ensures();
    b.to_multiset_ensures();
    assert forall|x: Seq<char>| a.contains(x) <==> b.contains(x) by {
        assert(a.to_multiset().count(x) == b.to_multiset().count(x));
    }
    assert forall|i: int, j: int| 0 <= i < a.len() && 0 <= j < a.len() && a[i] == a[j] implies i == j by {
        if i != j {
            if i < j {
                lemma_dup_count(a, i, j);
            } else {
                lemma_dup_count(a, j, i);
            }
            lemma_count_le_one(b, a[i]);
        }
    }
}

proof fn lemma_count_le_one(s: Seq<Seq<char>>, x: Seq<char>)
    requires
        no_dups(s),
    ensures
        s.to_multiset().count(x) <= 1,
    decreases s.len(),
{
    if s.len() > 0 {
        let t = s.drop_last();
        assert(s =~= t.push(s.last()));
        t.to_multiset_ensures();
        assert(no_dups(t)) by {
            assert forall|i: int, j: int| 0 <= i < t.len() && 0 <= j < t.len() && t[i] == t[j] implies i == j by {
                assert(s[i] == s[j]);
            }
        }
        lemma_count_le_one(t, x);
        if x == s.last() {
            if t.contains(x) {
                let k = choose|k: int| 0 <= k < t.len() && t[k] == x;
                assert(s[k] == s[s.len() - 1]);
            }
        }
    } else {
        s.to_multiset_ensures();
    }
}

proof fn lemma_add_cols_fresh(cols: Seq<Seq<char>>, n: int)
    requires
        no_dups(cols),
        0 <= n <= cols.len(),
    ensures
        add_cols(seq![], cols.take(n)) == cols.take(n),
    decreases n,
{
    if n > 0 {
        assert(cols.take(n).drop_last() =~= cols.take(n - 1));
        lemma_add_cols_fresh(cols, n - 1);
        assert(!cols.take(n - 1).contains(cols[n - 1]));
        assert(cols.take(n - 1).push(cols[n - 1]) =~= cols.take(n));
    }
}

/// The pairs that a record of `row` loads back hold `row`'s map.
proof fn lemma_pairs_of_cells(cols: Seq<Seq<char>>, row: FieldsView, n: int)
    requires
        no_dups(cols),
        0 <= n <= cols.len(),
    ensures
        ({
            let p = pairs_of(cols.take(n), cells(row, cols.take(n)));
            &&& unique_keys(p)
            &&& forall|k: Seq<char>| has_key(p, k) <==> cols.take(n).contains(k)
            &&& as_map(p) == Map::new(|k: Seq<char>| cols.take(n).contains(k), |k: Seq<char>| cell(row, k))
        }),
    decreases n,
{
    let cs = cols.take(n);
    let vs = cells(row, cs);
    let p = pairs_of(cs, vs);
    if n == 0 {
        assert(p =~= Seq::<(Seq<char>, Seq<char>)>::empty());
        assert forall|k: Seq<char>| has_key(p, k) <==> cs.contains(k) by {}
        assert(as_map(p) =~= Map::new(|k: Seq<char>| cs.contains(k), |k: Seq<char>| cell(row, k)));
    } else {
        lemma_pairs_of_cells(cols, row, n - 1);
        let cs1 = cols.take(n - 1);
        assert(cs.take(n - 1) =~= cs1);
        assert(vs.take(n - 1) =~= cells(row, cs1));
        let prev = pairs_of(cs1, cells(row, cs1));
        assert(p == crate::fields::set_entry(prev, cs[n - 1], vs[n - 1]));
        lemma_set_entry(prev, cs[n - 1], vs[n - 1]);
        assert forall|k: Seq<char>| cs.contains(k) <==> (cs1.contains(k) || k == cs[n - 1]) by {
            if cs.contains(k) {
                let q = choose|q: int| 0 <= q < cs.len() && cs[q] == k;
                if q < n - 1 {
                    assert(cs1[q] == k);
                }
            }
            if cs1.contains(k) {
                let q = choose|q: int| 0 <= q < cs1.len() && cs1[q] == k;
                assert(cs[q] == k);
            }
        }
        assert(as_map(p) =~= Map::new(|k: Seq<char>| cs.contains(k), |k: Seq<char>| cell(row, k)));
        assert(unique_keys(p));
        assert forall|k: Seq<char>| has_key(p, k) <==> cs.contains(k) by {
            assert(has_key(crate::fields::set_entry(prev, cs[n - 1], vs[n - 1]), k) <==> (has_key(prev, k) || k == cs[n - 1]));
            assert(has_key(prev, k) <==> cs1.contains(k));
            assert(cs.contains(k) <==> (cs1.contains(k) || k == cs[n - 1]));
        }
    }
}

/// What a row reads back as from a snapshot with the columns `cols`: a
/// value in each column, empty where the row had none.
pub open spec fn read_back(row: FieldsView, cols: Seq<Seq<char>>) -> Map<Seq<char>, Seq<char>> {
    Map::new(|k: Seq<char>| cols.contains(k), |k: Seq<char>| cell(row, k))
}

/// A row with a value in each of the columns, and no other, reads back as itself.
pub proof fn lemma_read_back_full(row: FieldsView, cols: Seq<Seq<char>>)
    requires
        unique_keys(row),
        covered(row, cols),
        forall|c: Seq<char>| cols.contains(c) ==> has_key(row, c),
    ensures
        read_back(row, cols) == as_map(row),
{
    assert(read_back(row, cols) =~= as_map(row));
}

proof fn lemma_record_pairs(cols: Seq<Seq<char>>, id: Seq<char>, row: FieldsView)
    requires
        no_dups(cols),
    ensures
        ({
            let p = pairs_of(cols, tail_of(record_of(id, row, cols)));
            &&& unique_keys(p)
            &&& as_map(p) == read_back(row, cols)
            &&& forall|i: int| 0 <= i < keys(p).len() ==> cols.contains(#[trigger] keys(p)[i])
        }),
{
    assert(tail_of(record_of(id, row, cols)) =~= cells(row, cols));
    lemma_pairs_of_cells(cols, row, cols.len() as int);
    assert(cols.take(cols.len() as int) =~= cols);
    let p = pairs_of(cols, cells(row, cols));
    assert forall|i: int| 0 <= i < keys(p).len() implies cols.contains(#[trigger] keys(p)[i]) by {
        assert(has_key(p, p[i].0));
    }
}

/// The state after loading the first `k` user rows of the snapshot.
spec fn loaded(tv: TableView, cols: Seq<Seq<char>>, ids: Seq<Seq<char>>, d: Option<FieldsView>, k: int) -> TableView {
    TableView {
        columns: cols,
        rows: ids.take(k).map_values(|id: Seq<char>| (id, pairs_of(cols, tail_of(record_of(id, tv.rows[tv.row_pos(id)].1, cols))))),
        datatypes: d,
        saved_rows: 0,
    }
}

proof fn lemma_install_all_append(tv: TableView, cols: Seq<Seq<char>>, a: Seq<Seq<Seq<char>>>, b: Seq<Seq<Seq<char>>>)
    ensures
        install_all(tv, cols, a + b) == install_all(install_all(tv, cols, a), cols, b),
    decreases b.len(),
{
    if b.len() == 0 {
        assert(a + b =~= a);
    } else {
        assert((a + b).drop_last() =~= a + b.drop_last());
        assert((a + b).last() == b.last());
        lemma_install_all_append(tv, cols, a, b.drop_last());
    }
}

/// Saving a table and loading the snapshot back gives the same columns
/// (as a set), the same user rows, each holding a value in every column
/// (empty where the row had none), and the type row read back the same
/// way. Where every row holds every column, the rows and the declared
/// types come back equal.
pub proof fn lemma_snapshot_round_trip(tv: TableView, cols: Seq<Seq<char>>, ids: Seq<Seq<char>>)
    requires
        tv.wf(),
        same_items(cols, tv.columns),
        same_items(ids, tv.ids()),
    ensures
        ({
            let t2 = table_of_records(snapshot_records(tv, cols, ids));
            &&& forall|c: Seq<char>| t2.columns.contains(c) <==> tv.columns.contains(c)
            &&& forall|id: Seq<char>| t2.has_row(id) <==> tv.has_row(id)
            &&& forall|id: Seq<char>| tv.has_row(id) ==> #[trigger] t2.row(id) == read_back(tv.rows[tv.row_pos(id)].1, tv.columns)
            &&& (t2.datatypes is Some <==> tv.datatypes is Some)
            &&& tv.datatypes is Some ==> as_map(t2.datatypes->0) == read_back(tv.datatypes->0, tv.columns)
            &&& full(tv) ==> forall|id: Seq<char>| tv.has_row(id) ==> #[trigger] t2.row(id) == tv.row(id)
            &&& full(tv) && tv.datatypes is Some ==> as_map(t2.datatypes->0) == as_map(tv.datatypes->0)
        }),
{
    lemma_same_items(cols, tv.columns);
    lemma_same_items(ids, tv.ids());
    let recs = snapshot_records(tv, cols, ids);
    let dpart: Seq<Seq<Seq<char>>> = match tv.datatypes {
        Some(d) => seq![record_of("datatypes"@, d, cols)],
        None => seq![],
    };
    let rpart = rows_records(tv, ids, cols);
    assert(tail_of(recs[0]) =~= cols);
    assert(tail_of(recs) =~= dpart + rpart);
    lemma_add_cols_fresh(cols, cols.len() as int);
    assert(cols.take(cols.len() as int) =~= cols);
    let base = TableView { columns: cols, ..empty_table() };
    assert(table_of_records(recs) == install_all(base, cols, dpart + rpart));
    lemma_install_all_append(base, cols, dpart, rpart);
    // the type row
    let d2: Option<FieldsView> = match tv.datatypes {
        Some(d) => Some(pairs_of(cols, tail_of(record_of("datatypes"@, d, cols)))),
        None => None,
    };
    let after_d = install_all(base, cols, dpart);
    assert(after_d == loaded(tv, cols, ids, d2, 0)) by {
        assert(ids.take(0) =~= Seq::<Seq<char>>::empty());
        match tv.datatypes {
            Some(d) => {
                lemma_record_pairs(cols, "datatypes"@, d);
                reveal_strlit("datatypes");
                assert(dpart.drop_last() =~= Seq::<Seq<Seq<char>>>::empty());
                let p = pairs_of(cols, tail_of(record_of("datatypes"@, d, cols)));
                lemma_add_cols_present(cols, keys(p));
                assert(add_cols(cols, keys(p)) == cols);
                assert(install(base, cols, record_of("datatypes"@, d, cols)) == with_row(base, reserved_id(), p));
                assert(with_row(base, reserved_id(), p) == TableView { datatypes: Some(p), ..base });
                assert(install_all(base, cols, dpart) == install(install_all(base, cols, dpart.drop_last()), cols, dpart.last()));
                assert(install_all(base, cols, dpart.drop_last()) == base);
                assert(after_d == TableView { datatypes: d2, ..base });
            },
            None => {
                assert(dpart =~= Seq::<Seq<Seq<char>>>::empty());
                assert(after_d == base);
            },
        }
        assert(loaded(tv, cols, ids, d2, 0).rows =~= Seq::<(Seq<char>, FieldsView)>::empty());
    }
    // the user rows, one by one
    assert forall|k: int| 0 <= k <= ids.len() implies #[trigger] install_all(after_d, cols, rpart.take(k)) == loaded(tv, cols, ids, d2, k) by {
        lemma_rows_loaded(tv, cols, ids, d2, k);
    }
    assert(rpart.take(ids.len() as int) =~= rpart);
    let t2 = loaded(tv, cols, ids, d2, ids.len() as int);
    assert(table_of_records(recs) == t2);
    lemma_loaded_rows(tv, cols, ids, d2);
    match tv.datatypes {
        Some(d) => {
            lemma_record_pairs(cols, "datatypes"@, d);
            assert(read_back(d, cols) =~= read_back(d, tv.columns));
            if full(tv) {
                lemma_read_back_full(d, tv.columns);
            }
        },
        None => {},
    }
    if full(tv) {
        assert forall|id: Seq<char>| tv.has_row(id) implies #[trigger] t2.row(id) == read_back(tv.rows[tv.row_pos(id)].1, tv.columns) by {
            let r = tv.row_pos(id);
            lemma_row_pos(tv, tv.row_pos(id));
            let row = tv.rows[r].1;
            assert(forall|c: Seq<char>| tv.columns.contains(c) ==> has_key(row, c));
            lemma_read_back_full(row, tv.columns);
            assert(t2.row(id) == read_back(tv.rows[tv.row_pos(id)].1, tv.columns));
        }
    }
}

proof fn lemma_loaded_rows(tv: TableView, cols: Seq<Seq<char>>, ids: Seq<Seq<char>>, d2: Option<FieldsView>)
    requires
        tv.wf(),
        no_dups(cols),
        no_dups(ids),
        forall|x: Seq<char>| cols.contains(x) <==> tv.columns.contains(x),
        forall|x: Seq<char>| ids.contains(x) <==> tv.ids().contains(x),
    ensures
        ({
            let t2 = loaded(tv, cols, ids, d2, ids.len() as int);
            &&& forall|id: Seq<char>| t2.has_row(id) <==> tv.has_row(id)
            &&& forall|id: Seq<char>| tv.has_row(id) ==> #[trigger] t2.row(id) == read_back(tv.rows[tv.row_pos(id)].1, tv.columns)
        }),
{
    let t2 = loaded(tv, cols, ids, d2, ids.len() as int);
    assert(ids.take(ids.len() as int) =~= ids);
    assert forall|id: Seq<char>| t2.has_row(id) <==> tv.has_row(id) by {
        if t2.has_row(id) {
            let q = choose|q: int| 0 <= q < t2.rows.len() && t2.rows[q].0 == id;
            assert(ids[q] == id);
            assert(ids.contains(id));
            let r = choose|r: int| 0 <= r < tv.ids().len() && tv.ids()[r] == id;
            assert(tv.rows[r].0 == id);
        }
        if tv.has_row(id) {
            let r = choose|r: int| 0 <= r < tv.rows.len() && tv.rows[r].0 == id;
            assert(tv.ids()[r] == id);
            assert(tv.ids().contains(id));
            assert(ids.contains(id));
            let q = choose|q: int| 0 <= q < ids.len() && ids[q] == id;
            assert(t2.rows[q].0 == ids[q]);
            assert(t2.rows[q].0 == id);
        }
    }
    assert forall|id: Seq<char>| tv.has_row(id) implies #[trigger] t2.row(id) == read_back(tv.rows[tv.row_pos(id)].1, tv.columns) by {
        assert(t2.has_row(id));
        let q = t2.row_pos(id);
        assert(t2.rows[q].0 == id);
        assert(ids[q] == id);
        let r = tv.row_pos(id);
        lemma_row_pos(tv, r);
        assert(tv.rows[r].0 == id);
        let row = tv.rows[r].1;
        lemma_record_pairs(cols, id, row);
        assert(read_back(row, cols) =~= read_back(row, tv.columns));
    }
}

proof fn lemma_rows_loaded(tv: TableView, cols: Seq<Seq<char>>, ids: Seq<Seq<char>>, d2: Option<FieldsView>, k: int)
    requires
        tv.wf(),
        no_dups(cols),
        no_dups(ids),
        forall|x: Seq<char>| cols.contains(x) <==> tv.columns.contains(x),
        forall|x: Seq<char>| ids.contains(x) <==> tv.ids().contains(x),
        0 <= k <= ids.len(),
    ensures
        install_all(
            loaded(tv, cols, ids, d2, 0),
            cols,
            rows_records(tv, ids, cols).take(k),
        ) == loaded(tv, cols, ids, d2, k),
    decreases k,
{
    let rp = rows_records(tv, ids, cols);
    let start = loaded(tv, cols, ids, d2, 0);
    if k == 0 {
        assert(rp.take(0) =~= Seq::<Seq<Seq<char>>>::empty());
    } else {
        lemma_rows_loaded(tv, cols, ids, d2, k - 1);
        assert(rp.take(k).drop_last() =~= rp.take(k - 1));
        let prev = loaded(tv, cols, ids, d2, k - 1);
        let id = ids[k - 1];
        let rec = rp[k - 1];
        assert(rp.take(k).last() == rec);
        assert(tv.ids().contains(id)) by {
            assert(ids.contains(id));
        }
        let r = choose|r: int| 0 <= r < tv.ids().len() && tv.ids()[r] == id;
        assert(tv.rows[r].0 == id);
        lemma_row_pos(tv, r);
        let row = tv.rows[tv.row_pos(id)].1;
        assert(rec == record_of(id, row, cols));
        assert(rec[0] == id);
        assert(id != reserved_id());
        assert(!prev.has_row(id)) by {
            if prev.has_row(id) {
                let q = choose|q: int| 0 <= q < prev.rows.len() && prev.rows[q].0 == id;
                assert(ids[q] == id);
            }
        }
        assert(row_free(prev, id));
        lemma_record_pairs(cols, id, row);
        let p = pairs_of(cols, tail_of(rec));
        lemma_add_cols_present(cols, keys(p));
        assert(install(prev, cols, rec) == with_row(prev, id, p));
        assert(with_row(prev, id, p).rows =~= loaded(tv, cols, ids, d2, k).rows);
    }
}

} // verus!
