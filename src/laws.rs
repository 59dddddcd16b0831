//! Properties that relate several operations of the store.
use vstd::prelude::*;
use crate::db::{apply_op, render, row_free, with_field, with_row, LogOp, Tables};
use crate::fields::{as_map, has_key, key_pos, keys, lemma_key_pos, lemma_set_entry, set_entry, unique_keys};
use crate::query::{cond_hits, search_hits, NumOrder};
use crate::replay::{apply_record, parse_record, replay};
use crate::snapshot::append_records;
use crate::table::{add_col, add_cols, lemma_row_pos, reserved_id, FieldsView, TableView};
use crate::text::{lemma_colon_pos, split_colon, words};

verus! {

/// Every table of `m` is well formed.
pub open spec fn all_wf(m: Tables) -> bool {
    forall|n: Seq<char>| m.contains_key(n) ==> (#[trigger] m[n]).wf()
}

/// The effect of a sequence of mutations, in order.
pub open spec fn apply_all(m: Tables, ops: Seq<LogOp>) -> Tables
    decreases ops.len(),
{
    if ops.len() == 0 {
        m
    } else {
        apply_op(apply_all(m, ops.drop_last()), ops.last())
    }
}

/// Creating a table makes it present, so a second creation of the same
/// name finds it there and fails.
pub proof fn lemma_create_then_present(m: Tables, t: Seq<char>)
    ensures
        apply_op(m, LogOp::CreateTable(t)).contains_key(t),
        m.contains_key(t) ==> apply_op(m, LogOp::CreateTable(t)) == m,
{
}

proof fn lemma_add_cols_contains(cols: Seq<Seq<char>>, ks: Seq<Seq<char>>, i: int)
    requires
        0 <= i < ks.len(),
    ensures
        add_cols(cols, ks).contains(ks[i]),
    decreases ks.len(),
{
    let p = add_cols(cols, ks.drop_last());
    if i == ks.len() - 1 {
        if !p.contains(ks.last()) {
            assert(p.push(ks.last())[p.len() as int] == ks.last());
        }
    } else {
        lemma_add_cols_contains(cols, ks.drop_last(), i);
        crate::table::lemma_add_cols_grows(p, seq![ks.last()], ks[i]);
        assert(add_cols(p, seq![ks.last()]) == add_col(add_cols(p, seq![]), ks.last())) by {
            assert(seq![ks.last()].drop_last() =~= Seq::<Seq<char>>::empty());
        }
    }
}

/// After inserting row `id` with the pairs `d` into table `t`, the row
/// reads back as the map of `d`, and each column of `d` is a column of the
/// table: the row equals `d` restricted to the table's columns.
pub proof fn lemma_insert_then_get(m: Tables, t: Seq<char>, id: Seq<char>, d: FieldsView)
    requires
        m.contains_key(t),
        m[t].wf(),
        unique_keys(d),
        id != reserved_id(),
        !m[t].has_row(id),
    ensures
        apply_op(m, LogOp::InsertRow(t, id, d))[t].has_row(id),
        apply_op(m, LogOp::InsertRow(t, id, d))[t].row(id) == as_map(d),
        forall|k: Seq<char>| has_key(d, k) ==> apply_op(m, LogOp::InsertRow(t, id, d))[t].columns.contains(k),
{
    let tv = m[t];
    let tv2 = apply_op(m, LogOp::InsertRow(t, id, d))[t];
    assert(tv2 == with_row(tv, id, d));
    let n = tv.rows.len() as int;
    assert(tv2.rows[n].0 == id);
    assert(tv2.has_row(id));
    let p = tv2.row_pos(id);
    if p != n {
        assert(tv.rows[p].0 == id);
    }
    assert forall|k: Seq<char>| has_key(d, k) implies tv2.columns.contains(k) by {
        let i = choose|i: int| 0 <= i < d.len() && d[i].0 == k;
        assert(keys(d)[i] == k);
        lemma_add_cols_contains(tv.columns, keys(d), i);
    }
}

proof fn lemma_add_col_twice(cols: Seq<Seq<char>>, c: Seq<char>)
    ensures
        add_col(add_col(cols, c), c) == add_col(cols, c),
{
    if !cols.contains(c) {
        assert(cols.push(c)[cols.len() as int] == c);
    }
}

/// Adding the same column twice has the effect of adding it once.
pub proof fn lemma_add_column_idempotent(m: Tables, t: Seq<char>, c: Seq<char>)
    ensures
        apply_op(apply_op(m, LogOp::AddColumn(t, c)), LogOp::AddColumn(t, c)) == apply_op(
            m,
            LogOp::AddColumn(t, c),
        ),
{
    lemma_add_col_twice(m[t].columns, c);
    if m.contains_key(t) {
        let m1 = apply_op(m, LogOp::AddColumn(t, c));
        assert(m1[t] == TableView { columns: add_col(m[t].columns, c), ..m[t] });
        assert(m1.insert(t, TableView { columns: add_col(m1[t].columns, c), ..m1[t] }) =~= m1);
    }
}

proof fn lemma_set_entry_twice(f: FieldsView, k: Seq<char>, v: Seq<char>)
    requires
        unique_keys(f),
    ensures
        set_entry(set_entry(f, k, v), k, v) == set_entry(f, k, v),
{
    lemma_set_entry(f, k, v);
    let f1 = set_entry(f, k, v);
    let i = if has_key(f, k) { key_pos(f, k) } else { f.len() as int };
    assert(f1[i].0 == k);
    assert(has_key(f1, k));
    lemma_key_pos(f1, i);
    assert(f1.update(i, (k, v)) =~= f1);
}

/// Replaying one log record a second time changes nothing: creating a
/// table, adding a column and inserting a row find their effect already
/// there, and an update sets the value it set before.
pub proof fn lemma_replay_record_twice(m: Tables, rec: Seq<char>)
    requires
        all_wf(m),
    ensures
        apply_record(apply_record(m, rec), rec) == apply_record(m, rec),
{
    match parse_record(rec) {
        None => {},
        Some(op) => {
            let m1 = apply_op(m, op);
            match op {
                LogOp::CreateTable(t) => {},
                LogOp::AddColumn(t, c) => {
                    lemma_add_column_idempotent(m, t, c);
                },
                LogOp::InsertRow(t, id, d) => {
                    if m.contains_key(t) && unique_keys(d) && row_free(m[t], id) {
                        let tv1 = m1[t];
                        if id != reserved_id() {
                            let n = m[t].rows.len() as int;
                            assert(tv1.rows[n].0 == id);
                        }
                        assert(!row_free(tv1, id));
                    }
                },
                LogOp::UpdateRow(t, id, c, v) => {
                    if m.contains_key(t) && crate::db::row_present(m[t], id) {
                        let tv = m[t];
                        assert(tv.wf());
                        let tv1 = with_field(tv, id, c, v);
                        assert(m1[t] == tv1);
                        lemma_add_col_twice(tv.columns, c);
                        if id == reserved_id() {
                            lemma_set_entry_twice(tv.datatypes->0, c, v);
                            assert(crate::db::row_present(tv1, id));
                            assert(with_field(tv1, id, c, v) == tv1);
                        } else {
                            let i = tv.row_pos(id);
                            lemma_row_pos(tv, i);
                            assert(tv.rows[i].0 == id);
                            lemma_set_entry_twice(tv.rows[i].1, c, v);
                            assert(tv1.rows[i].0 == id);
                            assert(tv1.has_row(id));
                            let j = tv1.row_pos(id);
                            if j != i {
                                assert(tv.ids()[j] == tv.ids()[i]);
                            }
                            assert(tv1.rows.update(i, (id, set_entry(tv1.rows[i].1, c, v))) =~= tv1.rows);
                            assert(with_field(tv1, id, c, v) == tv1);
                        }
                        assert(m1.insert(t, with_field(m1[t], id, c, v)) =~= m1);
                    }
                },
            }
        },
    }
}

/// Replaying the records of a sequence of mutations reproduces their
/// effect, given that each record reads back as its mutation.
pub proof fn lemma_replay_reproduces(m: Tables, ops: Seq<LogOp>)
    requires
        forall|i: int| 0 <= i < ops.len() ==> parse_record(render(#[trigger] ops[i])) == Some(ops[i]),
    ensures
        replay(m, ops.map_values(|op: LogOp| render(op))) == apply_all(m, ops),
    decreases ops.len(),
{
    let recs = ops.map_values(|op: LogOp| render(op));
    if ops.len() > 0 {
        assert(recs.drop_last() =~= ops.drop_last().map_values(|op: LogOp| render(op)));
        lemma_replay_reproduces(m, ops.drop_last());
        assert(parse_record(render(ops[ops.len() - 1])) == Some(ops.last()));
    }
}

proof fn lemma_split_after_word(w: Seq<char>, rest: Seq<char>)
    requires
        forall|i: int| 0 <= i < w.len() ==> w[i] != ':',
    ensures
        split_colon(w + ":"@ + rest) == Some((w, rest)),
{
    reveal_strlit(":");
    let s = w + ":"@ + rest;
    assert forall|j: int| 0 <= j < w.len() implies s[j] != ':' by {
        assert(s[j] == w[j]);
    }
    assert(s[w.len() as int] == ':');
    lemma_colon_pos(s, w.len() as int);
    assert(s.take(w.len() as int) =~= w);
    assert(s.skip(w.len() as int + 1) =~= rest);
}

/// The record of creating a table whose name has no colon reads back as
/// that creation.
pub proof fn lemma_create_record_round_trip(t: Seq<char>)
    ensures
        parse_record(render(LogOp::CreateTable(t))) == Some(LogOp::CreateTable(t)),
{
    reveal_strlit("create_table:");
    reveal_strlit("create_table");
    reveal_strlit(":");
    let w = "create_table"@;
    assert("create_table:"@ =~= w + ":"@);
    assert(render(LogOp::CreateTable(t)) =~= w + ":"@ + t);
    lemma_split_after_word(w, t);
}

/// The record of adding a column to a table whose name has no colon reads
/// back as that addition.
pub proof fn lemma_add_column_record_round_trip(t: Seq<char>, c: Seq<char>)
    requires
        colon_free(t),
    ensures
        parse_record(render(LogOp::AddColumn(t, c))) == Some(LogOp::AddColumn(t, c)),
{
    reveal_strlit("add_column:");
    reveal_strlit("add_column");
    reveal_strlit(":");
    reveal_strlit("create_table");
    let w = "add_column"@;
    assert("add_column:"@ =~= w + ":"@);
    assert(render(LogOp::AddColumn(t, c)) =~= w + ":"@ + (t + ":"@ + c));
    lemma_split_after_word(w, t + ":"@ + c);
    lemma_split_after_word(t, c);
    assert(w != "create_table"@) by {
        assert(w.len() != "create_table"@.len());
    }
}

/// Text without a colon.
pub open spec fn colon_free(s: Seq<char>) -> bool {
    forall|i: int| 0 <= i < s.len() ==> s[i] != ':'
}

/// The record of inserting a row reads back as that insertion, where the
/// table name and the row id have no colon and the JSON text of the pairs
/// reads back as the pairs.
pub proof fn lemma_insert_record_round_trip(t: Seq<char>, id: Seq<char>, d: FieldsView)
    requires
        colon_free(t),
        colon_free(id),
        crate::codec::json_object_read(crate::codec::json_object_of(d)) == Some(d),
    ensures
        parse_record(render(LogOp::InsertRow(t, id, d))) == Some(LogOp::InsertRow(t, id, d)),
{
    reveal_strlit("insert_row:");
    reveal_strlit("insert_row");
    reveal_strlit(":");
    reveal_strlit("create_table");
    reveal_strlit("add_column");
    let w = "insert_row"@;
    let js = crate::codec::json_object_of(d);
    assert("insert_row:"@ =~= w + ":"@);
    assert(render(LogOp::InsertRow(t, id, d)) =~= w + ":"@ + (t + ":"@ + (id + ":"@ + js)));
    lemma_split_after_word(w, t + ":"@ + (id + ":"@ + js));
    lemma_split_after_word(t, id + ":"@ + js);
    lemma_split_after_word(id, js);
    assert(w != "create_table"@) by {
        assert(w.len() != "create_table"@.len());
    }
    assert(w != "add_column"@) by {
        assert(w[0] != "add_column"@[0]);
    }
}

/// The record of an update reads back as that update, where the table
/// name, the row id and the column have no colon and the JSON text of the
/// value reads back as the value.
pub proof fn lemma_update_record_round_trip(t: Seq<char>, id: Seq<char>, c: Seq<char>, v: Seq<char>)
    requires
        colon_free(t),
        colon_free(id),
        colon_free(c),
        crate::codec::json_string_read(crate::codec::json_string_of(v)) == Some(v),
    ensures
        parse_record(render(LogOp::UpdateRow(t, id, c, v))) == Some(LogOp::UpdateRow(t, id, c, v)),
{
    reveal_strlit("update_row:");
    reveal_strlit("update_row");
    reveal_strlit(":");
    reveal_strlit("create_table");
    reveal_strlit("add_column");
    reveal_strlit("insert_row");
    let w = "update_row"@;
    let js = crate::codec::json_string_of(v);
    assert("update_row:"@ =~= w + ":"@);
    assert(render(LogOp::UpdateRow(t, id, c, v)) =~= w + ":"@ + (t + ":"@ + (id + ":"@ + (c + ":"@ + js))));
    lemma_split_after_word(w, t + ":"@ + (id + ":"@ + (c + ":"@ + js)));
    lemma_split_after_word(t, id + ":"@ + (c + ":"@ + js));
    lemma_split_after_word(id, c + ":"@ + js);
    lemma_split_after_word(c, js);
    assert(w != "create_table"@) by {
        assert(w.len() != "create_table"@.len());
    }
    assert(w != "add_column"@) by {
        assert(w[0] != "add_column"@[0]);
    }
    assert(w != "insert_row"@) by {
        assert(w[0] != "insert_row"@[0]);
    }
}

/// A mutation whose record reads back as itself: the names before the last
/// field have no colon, and the JSON text of its data reads back as the data.
pub open spec fn readable(op: LogOp) -> bool {
    match op {
        LogOp::CreateTable(_) => true,
        LogOp::AddColumn(t, _) => colon_free(t),
        LogOp::InsertRow(t, id, d) => colon_free(t) && colon_free(id)
            && crate::codec::json_object_read(crate::codec::json_object_of(d)) == Some(d),
        LogOp::UpdateRow(t, id, c, v) => colon_free(t) && colon_free(id) && colon_free(c)
            && crate::codec::json_string_read(crate::codec::json_string_of(v)) == Some(v),
    }
}

/// Loading the log of a sequence of mutations into a fresh database and
/// replaying it gives the tables that the mutations gave.
pub proof fn lemma_log_rebuilds_tables(ops: Seq<LogOp>)
    requires
        forall|i: int| 0 <= i < ops.len() ==> readable(#[trigger] ops[i]),
    ensures
        replay(Map::empty(), ops.map_values(|op: LogOp| render(op))) == apply_all(Map::empty(), ops),
{
    assert forall|i: int| 0 <= i < ops.len() implies parse_record(render(#[trigger] ops[i])) == Some(ops[i]) by {
        assert(readable(ops[i]));
        match ops[i] {
            LogOp::CreateTable(t) => lemma_create_record_round_trip(t),
            LogOp::AddColumn(t, c) => lemma_add_column_record_round_trip(t, c),
            LogOp::InsertRow(t, id, d) => lemma_insert_record_round_trip(t, id, d),
            LogOp::UpdateRow(t, id, c, v) => lemma_update_record_round_trip(t, id, c, v),
        }
    }
    lemma_replay_reproduces(Map::empty(), ops);
}

/// A predicate that is not three words, or whose operator is none of
/// `==`, `<`, `<=`, `>`, `>=`, selects no row.
pub proof fn lemma_malformed_predicate_selects_nothing<F: Fn(&str, &str) -> NumOrder>(
    tv: TableView,
    condition: Seq<char>,
    f: F,
)
    requires
        words(condition).len() != 3 || ({
            let op = words(condition)[1];
            op != "=="@ && op != "<"@ && op != "<="@ && op != ">"@ && op != ">="@
        }),
    ensures
        search_hits(tv, condition, f) == Seq::<(Seq<char>, FieldsView)>::empty(),
{
    let w = words(condition);
    if w.len() == 3 {
        lemma_no_hits(tv.rows, w[0], w[1], w[2], f);
    }
}

proof fn lemma_no_hits<F: Fn(&str, &str) -> NumOrder>(
    rows: Seq<(Seq<char>, FieldsView)>,
    col: Seq<char>,
    op: Seq<char>,
    cv: Seq<char>,
    f: F,
)
    requires
        op != "=="@ && op != "<"@ && op != "<="@ && op != ">"@ && op != ">="@,
    ensures
        cond_hits(rows, col, op, cv, f) == Seq::<(Seq<char>, FieldsView)>::empty(),
    decreases rows.len(),
{
    if rows.len() > 0 {
        lemma_no_hits(rows.drop_last(), col, op, cv, f);
    }
}

/// After `k` user rows are inserted past the watermark, an append save
/// writes exactly those `k` rows (the reserved type row is not among them).
pub proof fn lemma_append_writes_new_rows(tv: TableView, cols: Seq<Seq<char>>, k: nat)
    requires
        tv.rows.len() == tv.saved_rows + k,
    ensures
        append_records(tv, cols, true).len() == k,
        forall|i: int| 0 <= i < k ==> #[trigger] append_records(tv, cols, true)[i][0] == tv.rows[tv.saved_rows + i].0,
{
    let r = append_records(tv, cols, true);
    assert forall|i: int| 0 <= i < k implies #[trigger] r[i][0] == tv.rows[tv.saved_rows + i].0 by {
        assert(r[i] == crate::snapshot::record_of(tv.rows[tv.saved_rows + i].0, tv.rows[tv.saved_rows + i].1, cols));
    }
}

} // verus!
