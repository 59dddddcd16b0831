use vstd::prelude::*;
use crate::codec::{csv_of, csv_read, read_csv, rview, write_csv};
use crate::db::{no_table, with_row, Database, DatabaseError};
use crate::fields::{as_map, fview, get_value, has_key, set_entry, set_value, unique_keys, lemma_set_entry};
use crate::table::{add_cols, FieldsView, Table, TableView};
use crate::text::{bytes_of, lex_lt, str_eq, views};

verus! {

/// `s` is in ascending order of `str`.
pub open spec fn sorted(s: Seq<Seq<char>>) -> bool {
    forall|i: int, j: int| 0 <= i < j < s.len() ==> !lex_lt(bytes_of(s[j]), bytes_of(s[i]))
}

/// `a` holds the same texts as `b`, as often.
pub open spec fn same_items(a: Seq<Seq<char>>, b: Seq<Seq<char>>) -> bool {
    a.to_multiset() == b.to_multiset()
}

/// Relies on `slice::sort` on `String`s: the same strings in ascending
/// order, which for `String` is the lexicographic order of their bytes.
#[verifier::external_body]
fn sort_strings(v: &mut Vec<String>)
    ensures
        same_items(views(final(v)@), views(old(v)@)),
        sorted(views(final(v)@)),
{
    v.sort();
}

/// The value of column `c` in `row`, empty where it is missing.
pub open spec fn cell(row: FieldsView, c: Seq<char>) -> Seq<char> {
    if has_key(row, c) {
        as_map(row)[c]
    } else {
        seq![]
    }
}

/// The snapshot record of row `id`: its id, then its value in each column.
pub open spec fn record_of(id: Seq<char>, row: FieldsView, cols: Seq<Seq<char>>) -> Seq<Seq<char>> {
    seq![id] + cols.map_values(|c: Seq<char>| cell(row, c))
}

/// The header record: `row_id`, then the columns.
pub open spec fn header_of(cols: Seq<Seq<char>>) -> Seq<Seq<char>> {
    seq!["row_id"@] + cols
}

/// The records of user rows `ids` of `tv`, in the order of `ids`.
pub open spec fn rows_records(tv: TableView, ids: Seq<Seq<char>>, cols: Seq<Seq<char>>) -> Seq<Seq<Seq<char>>> {
    ids.map_values(|id: Seq<char>| record_of(id, tv.rows[tv.row_pos(id)].1, cols))
}

/// The records of a full snapshot: header, the type row if any, then the
/// user rows; columns and rows in the orders given.
pub open spec fn snapshot_records(tv: TableView, cols: Seq<Seq<char>>, ids: Seq<Seq<char>>) -> Seq<Seq<Seq<char>>> {
    seq![header_of(cols)] + match tv.datatypes {
        Some(d) => seq![record_of("datatypes"@, d, cols)],
        None => seq![],
    } + rows_records(tv, ids, cols)
}

/// The records that an append save writes: the header when the file is
/// new, then the user rows from the watermark on.
pub open spec fn append_records(tv: TableView, cols: Seq<Seq<char>>, file_exists: bool) -> Seq<Seq<Seq<char>>> {
    (if file_exists { seq![] } else { seq![header_of(cols)] }) + tv.rows.subrange(
        tv.saved_rows as int,
        tv.rows.len() as int,
    ).map_values(|r: (Seq<char>, FieldsView)| record_of(r.0, r.1, cols))
}

/// `s` without its first element.
pub open spec fn tail_of<A>(s: Seq<A>) -> Seq<A> {
    if s.len() == 0 {
        seq![]
    } else {
        s.skip(1)
    }
}

/// The pairs of a loaded record: each header column with the field below it.
pub open spec fn pairs_of(cols: Seq<Seq<char>>, vals: Seq<Seq<char>>) -> FieldsView
    decreases cols.len(),
{
    if cols.len() == 0 || vals.len() == 0 {
        seq![]
    } else {
        let n = if cols.len() < vals.len() { cols.len() } else { vals.len() };
        set_entry(pairs_of(cols.take(n - 1), vals.take(n - 1)), cols[n - 1], vals[n - 1])
    }
}

/// Table `tv` with a loaded record installed: a new id becomes a row, the
/// reserved id the type row; a taken id is skipped.
pub open spec fn install(tv: TableView, cols: Seq<Seq<char>>, rec: Seq<Seq<char>>) -> TableView {
    if rec.len() == 0 {
        tv
    } else {
        let d = pairs_of(cols, tail_of(rec));
        if crate::db::row_free(tv, rec[0]) {
            with_row(tv, rec[0], d)
        } else {
            tv
        }
    }
}

pub open spec fn install_all(tv: TableView, cols: Seq<Seq<char>>, recs: Seq<Seq<Seq<char>>>) -> TableView
    decreases recs.len(),
{
    if recs.len() == 0 {
        tv
    } else {
        install(install_all(tv, cols, recs.drop_last()), cols, recs.last())
    }
}

/// The table that a snapshot's records denote.
pub open spec fn table_of_records(recs: Seq<Seq<Seq<char>>>) -> TableView {
    if recs.len() == 0 {
        crate::db::empty_table()
    } else {
        let cols = tail_of(recs[0]);
        install_all(
            TableView { columns: add_cols(seq![], cols), ..crate::db::empty_table() },
            cols,
            tail_of(recs),
        )
    }
}

fn header(cols: &Vec<String>) -> (r: Vec<String>)
    ensures
        views(r@) == header_of(views(cols@)),
{
    let mut r: Vec<String> = Vec::new();
    r.push(String::from_str("row_id"));
    let mut i: usize = 0;
    while i < cols.len()
        invariant
            i <= cols@.len(),
            views(r@) == header_of(views(cols@).take(i as int)),
        decreases cols@.len() - i,
    {
        let ghost r0 = r@;
        r.push(cols[i].clone());
        proof {
            assert(views(r@) =~= views(r0).push(cols@[i as int]@));
            assert(views(cols@).take(i + 1) =~= views(cols@).take(i as int).push(cols@[i as int]@));
            assert(header_of(views(cols@).take(i + 1)) =~= header_of(views(cols@).take(i as int)).push(cols@[i as int]@));
        }
        i = i + 1;
    }
    assert(views(cols@).take(i as int) =~= views(cols@));
    r
}

fn record(id: &str, row: &Vec<(String, String)>, cols: &Vec<String>) -> (r: Vec<String>)
    requires
        unique_keys(fview(row@)),
    ensures
        views(r@) == record_of(id@, fview(row@), views(cols@)),
{
    let mut r: Vec<String> = Vec::new();
    r.push(id.to_owned());
    let ghost f = |c: Seq<char>| cell(fview(row@), c);
    let mut i: usize = 0;
    while i < cols.len()
        invariant
            unique_keys(fview(row@)),
            i <= cols@.len(),
            f == (|c: Seq<char>| cell(fview(row@), c)),
            views(r@) == seq![id@] + views(cols@).take(i as int).map_values(f),
        decreases cols@.len() - i,
    {
        let v = match get_value(row, cols[i].as_str()) {
            Some(v) => v,
            None => String::new(),
        };
        let ghost r0 = r@;
        r.push(v);
        proof {
            assert(views(r@) =~= views(r0).push(v@));
            assert(views(cols@).take(i + 1).map_values(f) =~= views(cols@).take(i as int).map_values(f).push(f(cols@[i as int]@)));
            assert(seq![id@] + views(cols@).take(i + 1).map_values(f) =~= (seq![id@] + views(cols@).take(i as int).map_values(f)).push(f(cols@[i as int]@)));
        }
        i = i + 1;
    }
    assert(views(cols@).take(i as int) =~= views(cols@));
    r
}

fn copy_strings(v: &Vec<String>) -> (r: Vec<String>)
    ensures
        views(r@) == views(v@),
{
    let mut r: Vec<String> = Vec::new();
    let mut i: usize = 0;
    while i < v.len()
        invariant
            i <= v@.len(),
            views(r@) == views(v@).take(i as int),
        decreases v@.len() - i,
    {
        let ghost r0 = r@;
        r.push(v[i].clone());
        assert(views(r@) =~= views(r0).push(v@[i as int]@));
        assert(views(r@) =~= views(v@).take(i + 1));
        i = i + 1;
    }
    assert(views(v@).take(i as int) =~= views(v@));
    r
}

impl Database {
    /// The records of a full snapshot of table `table`: the header
    /// `row_id` and the columns in ascending order, the type row if there
    /// is one, then the user rows in ascending order of id. Missing fields
    /// are empty.
    pub fn snapshot_table(&self, table: &str) -> (r: Result<Vec<Vec<String>>, DatabaseError>)
        requires
            self.wf(),
        ensures
            match r {
                Ok(recs) => self.tmap().contains_key(table@) && exists|cols: Seq<Seq<char>>, ids: Seq<Seq<char>>|
                    #![trigger snapshot_records(self.tmap()[table@], cols, ids)]
                    sorted(cols) && same_items(cols, self.tmap()[table@].columns) && sorted(ids) && same_items(ids, self.tmap()[table@].ids())
                        && rview(recs@) == snapshot_records(self.tmap()[table@], cols, ids),
                Err(e) => !self.tmap().contains_key(table@) && no_table(e, table@),
            },
    {
        let t = match self.get_table(table) {
            Ok(t) => t,
            Err(e) => return Err(e),
        };
        let ghost tv = t@;
        let mut cols = copy_strings(&t.columns);
        sort_strings(&mut cols);
        let mut ids: Vec<String> = Vec::new();
        let mut i: usize = 0;
        while i < t.rows.len()
            invariant
                tv == t@,
                i <= t.rows@.len(),
                views(ids@) == tv.ids().take(i as int),
            decreases t.rows@.len() - i,
        {
            let ghost i0 = ids@;
            ids.push(t.rows[i].0.clone());
            assert(views(ids@) =~= views(i0).push(t.rows@[i as int].0@));
            assert(views(ids@) =~= tv.ids().take(i + 1));
            i = i + 1;
        }
        assert(tv.ids().take(i as int) =~= tv.ids());
        sort_strings(&mut ids);
        let mut out: Vec<Vec<String>> = Vec::new();
        out.push(header(&cols));
        match &t.datatypes {
            Some(d) => {
                out.push(record("datatypes", d, &cols));
            },
            None => {},
        }
        let ghost pre = rview(out@);
        let ghost f = |id: Seq<char>| record_of(id, tv.rows[tv.row_pos(id)].1, views(cols@));
        proof {
            assert(pre =~= seq![header_of(views(cols@))] + match tv.datatypes {
                Some(d) => seq![record_of("datatypes"@, d, views(cols@))],
                None => seq![],
            });
        }
        let mut k: usize = 0;
        while k < ids.len()
            invariant
                tv == t@,
                tv.wf(),
                k <= ids@.len(),
                same_items(views(ids@), tv.ids()),
                f == (|id: Seq<char>| record_of(id, tv.rows[tv.row_pos(id)].1, views(cols@))),
                rview(out@) == pre + views(ids@).take(k as int).map_values(f),
            decreases ids@.len() - k,
        {
            proof {
                assert(views(ids@).to_multiset().count(ids@[k as int]@) > 0) by {
                    assert(views(ids@)[k as int] == ids@[k as int]@);
                    vstd::seq_lib::lemma_seq_contains_after_push(views(ids@), ids@[k as int]@, ids@[k as int]@);
                    views(ids@).to_multiset_ensures();
                }
                tv.ids().to_multiset_ensures();
                assert(tv.ids().contains(ids@[k as int]@));
            }
            let j = match t.find_row(ids[k].as_str()) {
                Some(j) => j,
                None => {
                    proof {
                        let q = choose|q: int| 0 <= q < tv.ids().len() && tv.ids()[q] == ids@[k as int]@;
                        assert(tv.rows[q].0 == ids@[k as int]@);
                    }
                    k = k + 1;
                    continue;
                },
            };
            assert(tv.rows[j as int].1 == fview(t.rows@[j as int].1@));
            let rec = record(ids[k].as_str(), &t.rows[j].1, &cols);
            let ghost o0 = out@;
            out.push(rec);
            proof {
                assert(rview(out@) =~= rview(o0).push(views(rec@)));
                assert(views(ids@).take(k + 1).map_values(f) =~= views(ids@).take(k as int).map_values(f).push(f(ids@[k as int]@)));
                assert(rview(out@) =~= pre + views(ids@).take(k + 1).map_values(f));
            }
            k = k + 1;
        }
        proof {
            assert(views(ids@).take(k as int) =~= views(ids@));
            assert(rview(out@) =~= snapshot_records(tv, views(cols@), views(ids@)));
        }
        Ok(out)
    }
}

impl Database {
    /// The CSV text of a full snapshot of table `table`; see `snapshot_table`.
    /// It fails only when the table is not in memory.
    pub fn save_table(&self, table: &str) -> (r: Result<String, DatabaseError>)
        requires
            self.wf(),
        ensures
            match r {
                Ok(text) => self.tmap().contains_key(table@) && exists|cols: Seq<Seq<char>>, ids: Seq<Seq<char>>|
                    #![trigger snapshot_records(self.tmap()[table@], cols, ids)]
                    sorted(cols) && same_items(cols, self.tmap()[table@].columns) && sorted(ids) && same_items(ids, self.tmap()[table@].ids())
                        && csv_of(snapshot_records(self.tmap()[table@], cols, ids)) == text@,
                Err(e) => !self.tmap().contains_key(table@) && no_table(e, table@),
            },
    {
        let recs = match self.snapshot_table(table) {
            Ok(recs) => recs,
            Err(e) => return Err(e),
        };
        Ok(write_csv(&recs))
    }

    /// The CSV text that an append save of table `table` adds to its file:
    /// the header when the file does not exist yet, then the user rows past
    /// the table's watermark, which then moves to the end.
    pub fn save_table_for_insert(&mut self, table: &str, file_exists: bool) -> (r: Result<String, DatabaseError>)
        requires
            old(self).wf(),
        ensures
            final(self).wf(),
            match r {
                Ok(text) => {
                    &&& old(self).tmap().contains_key(table@)
                    &&& exists|cols: Seq<Seq<char>>|
                        #![trigger append_records(old(self).tmap()[table@], cols, file_exists)]
                        sorted(cols) && same_items(cols, old(self).tmap()[table@].columns)
                            && csv_of(append_records(old(self).tmap()[table@], cols, file_exists)) == text@
                    &&& final(self).tmap() == old(self).tmap().insert(
                        table@,
                        TableView { saved_rows: old(self).tmap()[table@].rows.len(), ..old(self).tmap()[table@] },
                    )
                    &&& Database::only_tables(old(self), final(self))
                },
                Err(e) => {
                    &&& *final(self) == *old(self)
                    &&& !old(self).tmap().contains_key(table@)
                    &&& no_table(e, table@)
                },
            },
    {
        let i = match self.find_table_pos(table) {
            Some(i) => i,
            None => return Err(DatabaseError::TableDoesNotExist(table.to_owned())),
        };
        let ghost a = *self;
        let ghost tv = a.tlist()[i as int].1;
        let t = &self.tables[i].1;
        assert(t@ == tv);
        let mut cols = copy_strings(&t.columns);
        sort_strings(&mut cols);
        let mut out: Vec<Vec<String>> = Vec::new();
        if !file_exists {
            out.push(header(&cols));
        }
        let ghost pre = rview(out@);
        let ghost f = |r: (Seq<char>, FieldsView)| record_of(r.0, r.1, views(cols@));
        let ghost tail = tv.rows.subrange(tv.saved_rows as int, tv.rows.len() as int);
        let mut k: usize = t.saved_rows;
        proof {
            assert(tail.take(0) =~= seq![]);
            assert(pre + tail.take(0).map_values(f) =~= pre);
        }
        while k < t.rows.len()
            invariant
                tv == t@,
                tv.wf(),
                tv.saved_rows <= k <= tv.rows.len(),
                tail == tv.rows.subrange(tv.saved_rows as int, tv.rows.len() as int),
                f == (|r: (Seq<char>, FieldsView)| record_of(r.0, r.1, views(cols@))),
                rview(out@) == pre + tail.take(k - tv.saved_rows).map_values(f),
            decreases tv.rows.len() - k,
        {
            assert(tv.rows[k as int].1 == fview(t.rows@[k as int].1@));
            let rec = record(t.rows[k].0.as_str(), &t.rows[k].1, &cols);
            let ghost o0 = out@;
            out.push(rec);
            proof {
                let m = k - tv.saved_rows;
                assert(tail[m] == tv.rows[k as int]);
                assert(rview(out@) =~= rview(o0).push(views(rec@)));
                assert(tail.take(m + 1).map_values(f) =~= tail.take(m).map_values(f).push(f(tail[m])));
                assert(rview(out@) =~= pre + tail.take(m + 1).map_values(f));
            }
            k = k + 1;
        }
        proof {
            assert(tail.take(tail.len() as int) =~= tail);
            assert(rview(out@) =~= append_records(tv, views(cols@), file_exists));
        }
        let text = write_csv(&out);
        let n = self.tables[i].1.rows.len();
        self.tables[i].1.saved_rows = n;
        proof {
            let tv2 = TableView { saved_rows: tv.rows.len(), ..tv };
            assert(self.tlist() =~= a.tlist().update(i as int, (table@, tv2)));
            crate::db::lemma_set_table(&a, self, i as int, tv2);
        }
        Ok(text)
    }

    /// Installs table `name` from the text of its snapshot: the header gives
    /// the columns, each further record a row keyed by its first field. A
    /// table of that name in memory is replaced.
    pub fn load_table_from_text(&mut self, name: &str, text: &str) -> (r: Result<(), DatabaseError>)
        requires
            old(self).wf(),
        ensures
            final(self).wf(),
            match r {
                Ok(()) => csv_read(text@) is Some && final(self).tmap() == old(self).tmap().insert(
                    name@,
                    table_of_records(csv_read(text@)->0),
                ),
                Err(e) => csv_read(text@) is None && e is FileCreationError && *final(self) == *old(self),
            },
            r is Ok ==> Database::same_rest(old(self), final(self)) && final(self).wal == old(self).wal,
    {
        let recs = match read_csv(text) {
            Some(recs) => recs,
            None => return Err(DatabaseError::FileCreationError(name.to_owned(), String::from_str("the snapshot is not valid CSV"))),
        };
        let t = table_from_records(&recs);
        self.put_table(name, t);
        Ok(())
    }
}

/// The table that snapshot records denote; see `table_of_records`.
pub fn table_from_records(recs: &Vec<Vec<String>>) -> (r: Table)
    ensures
        r@ == table_of_records(rview(recs@)),
        r@.wf(),
{
    let mut t = Table::new();
    if recs.len() == 0 {
        return t;
    }
    let ghost cols = tail_of(rview(recs@)[0]);
    let hdr = &recs[0];
    let mut c: usize = 1;
    proof {
        assert(cols.take(0) =~= seq![]);
    }
    while c < hdr.len()
        invariant
            hdr@.len() > 0 ==> cols.len() == hdr@.len() - 1,
            hdr@.len() > 0 ==> forall|q: int| 0 <= q < cols.len() ==> cols[q] == hdr@[q + 1]@,
            recs@.len() > 0,
            hdr == recs@[0],
            cols == tail_of(rview(recs@)[0]),
            1 <= c,
            c <= hdr@.len() || (hdr@.len() == 0 && c == 1),
            t@.wf(),
            t@ == (TableView { columns: add_cols(seq![], cols.take(c - 1)), ..crate::db::empty_table() }),
        decreases hdr@.len() - c,
    {
        proof {
            assert(cols.take(c as int).drop_last() =~= cols.take(c - 1));
            assert(cols.take(c as int).last() == hdr@[c as int]@);
        }
        t.add_column(hdr[c].as_str());
        c = c + 1;
    }
    proof {
        assert(cols.take(cols.len() as int) =~= cols);
    }
    let ghost base = t@;
    let ghost body = tail_of(rview(recs@));
    let mut k: usize = 1;
    proof {
        assert(body.take(0) =~= seq![]);
    }
    while k < recs.len()
        invariant
            recs@.len() > 0,
            hdr == recs@[0],
            cols == tail_of(rview(recs@)[0]),
            body == tail_of(rview(recs@)),
            body.len() == recs@.len() - 1,
            forall|q: int| 0 <= q < body.len() ==> body[q] == rview(recs@)[q + 1],
            1 <= k <= recs@.len(),
            t@.wf(),
            t@ == install_all(base, cols, body.take(k - 1)),
        decreases recs@.len() - k,
    {
        proof {
            assert(body.take(k as int).drop_last() =~= body.take(k - 1));
            assert(body.take(k as int).last() == rview(recs@)[k as int]);
        }
        let rec = &recs[k];
        if rec.len() > 0 {
            let d = pairs_from(hdr, rec);
            proof {
                assert(views(hdr@) == rview(recs@)[0]);
                assert(views(rec@) == rview(recs@)[k as int]);
            }
            if str_eq(rec[0].as_str(), "datatypes") {
                if t.datatypes.is_none() {
                    t.set_datatypes_row(&d);
                }
            } else if t.find_row(rec[0].as_str()).is_none() {
                t.insert_row(rec[0].as_str(), &d);
            }
        }
        k = k + 1;
    }
    proof {
        assert(body.take(body.len() as int) =~= body);
    }
    t
}

/// The pairs of a loaded record: each header column past the first with
/// the field below it; see `pairs_of`.
fn pairs_from(hdr: &Vec<String>, rec: &Vec<String>) -> (r: Vec<(String, String)>)
    ensures
        fview(r@) == pairs_of(tail_of(views(hdr@)), tail_of(views(rec@))),
        unique_keys(fview(r@)),
{
    let ghost cols = tail_of(views(hdr@));
    let ghost vals = tail_of(views(rec@));
    let mut r: Vec<(String, String)> = Vec::new();
    let mut i: usize = 1;
    proof {
        assert(fview(r@) =~= seq![]);
    }
    while i < hdr.len() && i < rec.len()
        invariant
            cols == tail_of(views(hdr@)),
            vals == tail_of(views(rec@)),
            hdr@.len() > 0 ==> cols.len() == hdr@.len() - 1,
            rec@.len() > 0 ==> vals.len() == rec@.len() - 1,
            hdr@.len() > 0 ==> forall|q: int| 0 <= q < cols.len() ==> cols[q] == hdr@[q + 1]@,
            rec@.len() > 0 ==> forall|q: int| 0 <= q < vals.len() ==> vals[q] == rec@[q + 1]@,
            1 <= i,
            i <= hdr@.len() || hdr@.len() == 0,
            i <= rec@.len() || rec@.len() == 0,
            (hdr@.len() == 0 || rec@.len() == 0) ==> i == 1,
            fview(r@) == pairs_of(cols.take(i - 1), vals.take(i - 1)),
            unique_keys(fview(r@)),
        decreases hdr@.len() - i,
    {
        proof {
            let n = i as int;
            assert(cols.take(n).take(n - 1) =~= cols.take(n - 1));
            assert(vals.take(n).take(n - 1) =~= vals.take(n - 1));
            assert(cols.take(n)[n - 1] == hdr@[n]@);
            assert(vals.take(n)[n - 1] == rec@[n]@);
            assert(cols.take(n).len() == n && vals.take(n).len() == n);
            lemma_set_entry(fview(r@), hdr@[n]@, rec@[n]@);
        }
        set_value(&mut r, hdr[i].as_str(), rec[i].as_str());
        i = i + 1;
    }
    proof {
        let n = (i - 1) as int;
        if hdr@.len() > 0 && rec@.len() > 0 {
            assert(pairs_of(cols, vals) == pairs_of(cols.take(n), vals.take(n))) by {
                lemma_pairs_of_prefix(cols, vals, n);
            }
        } else {
            assert(cols.len() == 0 || vals.len() == 0);
        }
    }
    r
}

proof fn lemma_pairs_of_prefix(cols: Seq<Seq<char>>, vals: Seq<Seq<char>>, n: int)
    requires
        0 <= n,
        n == cols.len() || n == vals.len(),
        n <= cols.len(),
        n <= vals.len(),
    ensures
        pairs_of(cols, vals) == pairs_of(cols.take(n), vals.take(n)),
    decreases cols.len(),
{
    if n == cols.len() && n == vals.len() {
        assert(cols.take(n) =~= cols);
        assert(vals.take(n) =~= vals);
    } else if n == 0 {
    } else {
        let m = if cols.len() < vals.len() { cols.len() } else { vals.len() };
        assert(m == n);
        let a = cols.take(n);
        let b = vals.take(n);
        assert(a.take(n - 1) =~= cols.take(n - 1));
        assert(b.take(n - 1) =~= vals.take(n - 1));
    }
}

} // verus!
