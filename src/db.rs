use vstd::prelude::*;
use crate::bloom::BloomFilter;
use crate::codec::{json_object, json_object_of, json_string, json_string_of};
use crate::fields::{as_map, copy_fields, fview, set_entry, unique_keys};
use crate::datatype::{check_value_matches, value_matches};
use crate::indexer::Indexer;
use crate::table::{add_col, add_cols, Table, TableView};
use crate::text::str_eq;
use crate::walwriter::WalWriter;
use crate::fields::keys;

verus! {

/// The errors of the database's operations.
#[derive(Debug, PartialEq, Eq)]
pub enum DatabaseError {
    TableAlreadyExists(String),
    TableDoesNotExist(String),
    RowDoesNotExist(String, String),
    RowNotFound(String, String),
    RowAlreadyExists(String, String),
    FileCreationError(String, String),
    DataTypeError,
    InvalidDataType,
}

pub open spec fn no_table(e: DatabaseError, n: Seq<char>) -> bool {
    match e {
        DatabaseError::TableDoesNotExist(s) => s@ == n,
        _ => false,
    }
}

pub open spec fn table_exists(e: DatabaseError, n: Seq<char>) -> bool {
    match e {
        DatabaseError::TableAlreadyExists(s) => s@ == n,
        _ => false,
    }
}

pub open spec fn no_row(e: DatabaseError, id: Seq<char>, n: Seq<char>) -> bool {
    match e {
        DatabaseError::RowDoesNotExist(r, s) => r@ == id && s@ == n,
        _ => false,
    }
}

pub open spec fn row_exists(e: DatabaseError, id: Seq<char>, n: Seq<char>) -> bool {
    match e {
        DatabaseError::RowAlreadyExists(r, s) => r@ == id && s@ == n,
        _ => false,
    }
}

/// A mutation, as the operation log records it.
pub ghost enum LogOp {
    CreateTable(Seq<char>),
    AddColumn(Seq<char>, Seq<char>),
    InsertRow(Seq<char>, Seq<char>, Seq<(Seq<char>, Seq<char>)>),
    UpdateRow(Seq<char>, Seq<char>, Seq<char>, Seq<char>),
}

/// The text of the log record of a mutation.
pub open spec fn render(op: LogOp) -> Seq<char> {
    match op {
        LogOp::CreateTable(t) => "create_table:"@ + t,
        LogOp::AddColumn(t, c) => "add_column:"@ + t + ":"@ + c,
        LogOp::InsertRow(t, id, d) => "insert_row:"@ + t + ":"@ + id + ":"@ + json_object_of(d),
        LogOp::UpdateRow(t, id, c, v) => "update_row:"@ + t + ":"@ + id + ":"@ + c + ":"@
            + json_string_of(v),
    }
}

pub type Tables = Map<Seq<char>, TableView>;

pub open spec fn list_has(l: Seq<(Seq<char>, TableView)>, n: Seq<char>) -> bool {
    exists|i: int| 0 <= i < l.len() && l[i].0 == n
}

pub open spec fn list_pos(l: Seq<(Seq<char>, TableView)>, n: Seq<char>) -> int {
    choose|i: int| 0 <= i < l.len() && l[i].0 == n
}

/// No two tables share a name.
pub open spec fn names_unique(l: Seq<(Seq<char>, TableView)>) -> bool {
    forall|i: int, j: int| 0 <= i < l.len() && 0 <= j < l.len() && l[i].0 == l[j].0 ==> i == j
}

/// The tables of a list of named tables, by name.
pub open spec fn list_map(l: Seq<(Seq<char>, TableView)>) -> Tables {
    Map::new(|n: Seq<char>| list_has(l, n), |n: Seq<char>| l[list_pos(l, n)].1)
}

pub open spec fn empty_table() -> TableView {
    TableView { columns: seq![], rows: seq![], datatypes: None, saved_rows: 0 }
}

/// Table `tv` with user row `id` installed, or with its reserved type row
/// installed when `id` is the reserved id.
pub open spec fn with_row(tv: TableView, id: Seq<char>, d: Seq<(Seq<char>, Seq<char>)>) -> TableView {
    if id == crate::table::reserved_id() {
        TableView { columns: add_cols(tv.columns, keys(d)), datatypes: Some(d), ..tv }
    } else {
        TableView {
            columns: add_cols(tv.columns, keys(d)),
            rows: tv.rows.push((id, d)),
            ..tv
        }
    }
}

/// Whether row `id` can be installed in `tv`: its id is free.
pub open spec fn row_free(tv: TableView, id: Seq<char>) -> bool {
    if id == crate::table::reserved_id() {
        tv.datatypes is None
    } else {
        !tv.has_row(id)
    }
}

/// Whether row `id` of `tv` exists for an update.
pub open spec fn row_present(tv: TableView, id: Seq<char>) -> bool {
    if id == crate::table::reserved_id() {
        tv.datatypes is Some
    } else {
        tv.has_row(id)
    }
}

/// Table `tv` with column `c` of row `id` set to `v`.
pub open spec fn with_field(tv: TableView, id: Seq<char>, c: Seq<char>, v: Seq<char>) -> TableView {
    if id == crate::table::reserved_id() {
        TableView {
            columns: add_col(tv.columns, c),
            datatypes: Some(set_entry(tv.datatypes->0, c, v)),
            ..tv
        }
    } else {
        let i = tv.row_pos(id);
        TableView {
            columns: add_col(tv.columns, c),
            rows: tv.rows.update(i, (id, set_entry(tv.rows[i].1, c, v))),
            ..tv
        }
    }
}

/// The effect of one mutation on the tables; a mutation that does not apply
/// leaves them as they are.
pub open spec fn apply_op(m: Tables, op: LogOp) -> Tables {
    match op {
        LogOp::CreateTable(t) => if m.contains_key(t) {
            m
        } else {
            m.insert(t, empty_table())
        },
        LogOp::AddColumn(t, c) => if m.contains_key(t) {
            m.insert(t, TableView { columns: add_col(m[t].columns, c), ..m[t] })
        } else {
            m
        },
        LogOp::InsertRow(t, id, d) => if m.contains_key(t) && unique_keys(d) && row_free(m[t], id) {
            m.insert(t, with_row(m[t], id, d))
        } else {
            m
        },
        LogOp::UpdateRow(t, id, c, v) => if m.contains_key(t) && row_present(m[t], id) {
            m.insert(t, with_field(m[t], id, c, v))
        } else {
            m
        },
    }
}

/// The database: its tables, the in-memory operation log, and the
/// acceleration structures.
pub struct Database {
    pub tables: Vec<(String, Table)>,
    pub operations_since_save: usize,
    pub save_threshold: usize,
    pub wal: Vec<String>,
    pub wal_file: String,
    pub wal_writer: Option<WalWriter>,
    pub indexer: Option<Indexer>,
    pub bloom_filter: Option<BloomFilter>,
    /// The table whose append save is due after an insertion.
    pub pending_save: Option<String>,
}

impl Database {
    pub open spec fn tlist(&self) -> Seq<(Seq<char>, TableView)> {
        self.tables@.map_values(|p: (String, Table)| (p.0@, p.1@))
    }

    pub open spec fn tname(&self, i: int) -> Seq<char> {
        self.tlist()[i].0
    }

    pub open spec fn has_table(&self, n: Seq<char>) -> bool {
        list_has(self.tlist(), n)
    }

    pub open spec fn tpos(&self, n: Seq<char>) -> int {
        list_pos(self.tlist(), n)
    }

    /// The tables by name.
    pub open spec fn tmap(&self) -> Tables {
        list_map(self.tlist())
    }

    /// The log records held in memory.
    pub open spec fn log(&self) -> Seq<Seq<char>> {
        crate::text::views(self.wal@)
    }

    pub open spec fn wf(&self) -> bool {
        &&& names_unique(self.tlist())
        &&& forall|i: int| 0 <= i < self.tlist().len() ==> (#[trigger] self.tlist()[i]).1.wf()
        &&& self.indexer matches Some(x) ==> x.wf()
        &&& self.bloom_filter matches Some(b) ==> b.wf()
    }

    /// The log grows by `rec` when no writer takes the records.
    pub open spec fn logged(old_db: &Database, new_db: &Database, rec: Seq<char>) -> bool {
        &&& new_db.wal_writer == old_db.wal_writer
        &&& new_db.log() == if old_db.wal_writer is None {
            old_db.log().push(rec)
        } else {
            old_db.log()
        }
    }

    /// Everything but the tables and the log is as it was.
    pub open spec fn same_rest(a: &Database, b: &Database) -> bool {
        &&& a.operations_since_save == b.operations_since_save
        &&& a.save_threshold == b.save_threshold
        &&& a.wal_file == b.wal_file
        &&& a.indexer == b.indexer
        &&& a.bloom_filter == b.bloom_filter
        &&& a.pending_save == b.pending_save
        &&& a.wal_writer == b.wal_writer
    }
}

proof fn lemma_tpos(db: &Database, i: int)
    requires
        db.wf(),
        0 <= i < db.tlist().len(),
    ensures
        db.has_table(db.tname(i)),
        db.tpos(db.tname(i)) == i,
        db.tmap()[db.tname(i)] == db.tlist()[i].1,
{
    assert(db.has_table(db.tname(i)));
    let j = db.tpos(db.tname(i));
    assert(db.tlist()[j].0 == db.tlist()[i].0);
    assert(db.tname(j) == db.tname(i));
}

impl Database {
    /// An empty database with a save threshold of 5 and the working log
    /// `wal.log`.
    pub fn new() -> (r: Self)
        ensures
            r.wf(),
            r.tmap() == Map::<Seq<char>, TableView>::empty(),
            r.log() == Seq::<Seq<char>>::empty(),
            r.operations_since_save == 0,
            r.save_threshold == 5,
            r.wal_writer is None,
            r.indexer is None,
            r.bloom_filter is None,
            r.pending_save is None,
    {
        let r = Database {
            tables: Vec::new(),
            operations_since_save: 0,
            save_threshold: 5,
            wal: Vec::new(),
            wal_file: String::from_str("wal.log"),
            wal_writer: None,
            indexer: None,
            bloom_filter: None,
            pending_save: None,
        };
        assert(r.tlist() =~= seq![]);
        assert(r.tmap() =~= Map::<Seq<char>, TableView>::empty());
        assert(r.log() =~= Seq::<Seq<char>>::empty());
        r
    }

    /// The position of table `name`, if it is there.
    fn find_table(&self, name: &str) -> (r: Option<usize>)
        requires
            self.wf(),
        ensures
            match r {
                Some(i) => i < self.tlist().len() && self.tname(i as int) == name@ && self.has_table(
                    name@,
                ) && self.tpos(name@) == i && self.tmap()[name@] == self.tlist()[i as int].1,
                None => !self.has_table(name@),
            },
    {
        let mut i: usize = 0;
        while i < self.tables.len()
            invariant
                self.wf(),
                i <= self.tlist().len(),
                forall|j: int| 0 <= j < i ==> self.tname(j) != name@,
            decreases self.tlist().len() - i,
        {
            assert(self.tname(i as int) == self.tables@[i as int].0@);
            if str_eq(self.tables[i].0.as_str(), name) {
                proof {
                    lemma_tpos(self, i as int);
                }
                return Some(i);
            }
            i = i + 1;
        }
        assert forall|j: int| 0 <= j < self.tlist().len() implies self.tlist()[j].0 != name@ by {
            assert(self.tname(j) != name@);
        }
        None
    }

    /// Whether table `name` is in memory.
    pub fn check_table(&self, name: &str) -> (r: bool)
        requires
            self.wf(),
        ensures
            r == self.tmap().contains_key(name@),
    {
        self.find_table(name).is_some()
    }

    /// The table `name`.
    pub fn get_table(&self, name: &str) -> (r: Result<&Table, DatabaseError>)
        requires
            self.wf(),
        ensures
            match r {
                Ok(t) => self.tmap().contains_key(name@) && t@ == self.tmap()[name@],
                Err(e) => !self.tmap().contains_key(name@) && no_table(e, name@),
            },
    {
        match self.find_table(name) {
            Some(i) => Ok(&self.tables[i].1),
            None => Err(DatabaseError::TableDoesNotExist(name.to_owned())),
        }
    }
}

pub(crate) proof fn lemma_set_table(a: &Database, b: &Database, i: int, tv: TableView)
    requires
        a.wf(),
        0 <= i < a.tlist().len(),
        b.tlist() == a.tlist().update(i, (a.tname(i), tv)),
        tv.wf(),
        b.indexer == a.indexer,
        b.bloom_filter == a.bloom_filter,
    ensures
        b.wf(),
        b.tmap() == a.tmap().insert(a.tname(i), tv),
{
    let n = a.tname(i);
    assert forall|x: int| 0 <= x < b.tlist().len() implies b.tname(x) == a.tname(x) by {}
    assert forall|x: int, y: int|
        0 <= x < b.tlist().len() && 0 <= y < b.tlist().len() && b.tname(x) == b.tname(y) implies x
        == y by {
        assert(a.tname(x) == a.tname(y));
    }
    assert forall|x: int| 0 <= x < b.tlist().len() implies (#[trigger] b.tlist()[x]).1.wf() by {
        if x != i {
            assert(b.tlist()[x] == a.tlist()[x]);
        }
    }
    assert forall|k: Seq<char>| #[trigger] b.tmap().contains_key(k) == a.tmap().insert(n, tv).contains_key(k) && (b.tmap().contains_key(k) ==> b.tmap()[k] == a.tmap().insert(n, tv)[k]) by {
        if b.has_table(k) {
            let j = b.tpos(k);
            lemma_tpos(b, j);
            assert(a.tname(j) == k);
            lemma_tpos(a, j);
        }
        if a.has_table(k) {
            let j = a.tpos(k);
            assert(b.tname(j) == k);
        }
    }
    assert(b.tmap() =~= a.tmap().insert(n, tv));
}

proof fn lemma_push_table(a: &Database, b: &Database, n: Seq<char>, tv: TableView)
    requires
        a.wf(),
        !a.has_table(n),
        b.tlist() == a.tlist().push((n, tv)),
        tv.wf(),
        b.indexer == a.indexer,
        b.bloom_filter == a.bloom_filter,
    ensures
        b.wf(),
        b.tmap() == a.tmap().insert(n, tv),
{
    let len = a.tlist().len() as int;
    assert forall|x: int| 0 <= x < len implies b.tname(x) == a.tname(x) by {}
    assert forall|x: int, y: int|
        0 <= x < b.tlist().len() && 0 <= y < b.tlist().len() && b.tname(x) == b.tname(y) implies x
        == y by {
        if x < len && y < len {
            assert(a.tname(x) == a.tname(y));
        } else if x < len {
            assert(a.tname(x) == n);
        } else if y < len {
            assert(a.tname(y) == n);
        }
    }
    assert forall|x: int| 0 <= x < b.tlist().len() implies (#[trigger] b.tlist()[x]).1.wf() by {
        if x < len {
            assert(b.tlist()[x] == a.tlist()[x]);
        }
    }
    assert forall|k: Seq<char>| #[trigger] b.tmap().contains_key(k) == a.tmap().insert(n, tv).contains_key(k) && (b.tmap().contains_key(k) ==> b.tmap()[k] == a.tmap().insert(n, tv)[k]) by {
        if b.has_table(k) {
            let j = b.tpos(k);
            lemma_tpos(b, j);
            if j < len {
                assert(a.tname(j) == k);
                lemma_tpos(a, j);
            }
        }
        if a.has_table(k) {
            let j = a.tpos(k);
            assert(b.tname(j) == k);
        }
        if k == n {
            assert(b.tname(len) == n);
        }
    }
    assert(b.tmap() =~= a.tmap().insert(n, tv));
}

/// The record of creating table `t`.
fn record_create(t: &str) -> (r: String)
    ensures
        r@ == render(LogOp::CreateTable(t@)),
{
    let mut r = String::from_str("create_table:");
    r.append(t);
    r
}

fn record_add_column(t: &str, c: &str) -> (r: String)
    ensures
        r@ == render(LogOp::AddColumn(t@, c@)),
{
    let mut r = String::from_str("add_column:");
    r.append(t);
    r.append(":");
    r.append(c);
    r
}

fn record_insert(t: &str, id: &str, data: &Vec<(String, String)>) -> (r: String)
    ensures
        r@ == render(LogOp::InsertRow(t@, id@, fview(data@))),
{
    let mut r = String::from_str("insert_row:");
    r.append(t);
    r.append(":");
    r.append(id);
    r.append(":");
    let j = json_object(data);
    r.append(j.as_str());
    r
}

fn record_update(t: &str, id: &str, c: &str, v: &str) -> (r: String)
    ensures
        r@ == render(LogOp::UpdateRow(t@, id@, c@, v@)),
{
    let mut r = String::from_str("update_row:");
    r.append(t);
    r.append(":");
    r.append(id);
    r.append(":");
    r.append(c);
    r.append(":");
    let j = json_string(v);
    r.append(j.as_str());
    r
}

fn pair(a: &str, b: &str) -> (r: Vec<String>)
    ensures
        crate::text::views(r@) == seq![a@, b@],
{
    let mut r: Vec<String> = Vec::new();
    r.push(a.to_owned());
    r.push(b.to_owned());
    assert(crate::text::views(r@) =~= seq![a@, b@]);
    r
}

impl Database {
    /// Hands a record to the writer, or keeps it in memory when there is none.
    fn log_record(&mut self, rec: String)
        ensures
            Database::logged(old(self), final(self), rec@),
            Database::same_rest(old(self), final(self)),
            final(self).tables == old(self).tables,
            final(self).wal_writer == old(self).wal_writer,
    {
        match &self.wal_writer {
            Some(w) => w.log(rec),
            None => {
                self.wal.push(rec);
                assert(self.log() =~= old(self).log().push(rec@));
            },
        }
    }

    /// Creates the empty table `name`.
    pub fn create_table(&mut self, name: &str) -> (r: Result<String, DatabaseError>)
        requires
            old(self).wf(),
        ensures
            final(self).wf(),
            match r {
                Ok(s) => {
                    &&& !old(self).tmap().contains_key(name@)
                    &&& s@ == name@
                    &&& final(self).tmap() == apply_op(old(self).tmap(), LogOp::CreateTable(name@))
                    &&& Database::logged(old(self), final(self), render(LogOp::CreateTable(name@)))
                    &&& Database::same_rest(old(self), final(self))
                },
                Err(e) => {
                    &&& old(self).tmap().contains_key(name@)
                    &&& table_exists(e, name@)
                    &&& *final(self) == *old(self)
                },
            },
    {
        if self.check_table(name) {
            return Err(DatabaseError::TableAlreadyExists(name.to_owned()));
        }
        self.do_create(name);
        let ghost b = *self;
        self.log_record(record_create(name));
        proof {
            assert(self.tlist() =~= b.tlist());
        }
        Ok(name.to_owned())
    }

    /// Adds column `column` to table `table`; a column already there stays
    /// as it is.
    pub fn add_column(&mut self, table: &str, column: &str) -> (r: Result<Vec<String>, DatabaseError>)
        requires
            old(self).wf(),
        ensures
            final(self).wf(),
            match r {
                Ok(v) => {
                    &&& old(self).tmap().contains_key(table@)
                    &&& crate::text::views(v@) == seq![column@, table@]
                    &&& final(self).tmap() == apply_op(old(self).tmap(), LogOp::AddColumn(table@, column@))
                    &&& Database::logged(old(self), final(self), render(LogOp::AddColumn(table@, column@)))
                    &&& Database::same_rest(old(self), final(self))
                },
                Err(e) => {
                    &&& !old(self).tmap().contains_key(table@)
                    &&& no_table(e, table@)
                    &&& *final(self) == *old(self)
                },
            },
    {
        if !self.do_add_column(table, column) {
            return Err(DatabaseError::TableDoesNotExist(table.to_owned()));
        }
        let ghost b = *self;
        self.log_record(record_add_column(table, column));
        proof {
            assert(self.tlist() =~= b.tlist());
        }
        Ok(pair(column, table))
    }
}

/// The declared type of each column of `d` accepts its value.
pub open spec fn typed_ok(tv: TableView, d: Seq<(Seq<char>, Seq<char>)>) -> bool {
    forall|k: int|
        0 <= k < d.len() ==> match tv.column_type(#[trigger] d[k].0) {
            Some(ty) => value_matches(d[k].1, ty),
            None => false,
        }
}

impl Database {
    /// The effect of a successful insertion of row `id` with `d` into table
    /// `t`: the tables, the log, and the save counter.
    pub open spec fn inserted(
        a: &Database,
        b: &Database,
        t: Seq<char>,
        id: Seq<char>,
        d: Seq<(Seq<char>, Seq<char>)>,
    ) -> bool {
        &&& a.tmap().contains_key(t)
        &&& row_free(a.tmap()[t], id)
        &&& b.tmap() == apply_op(a.tmap(), LogOp::InsertRow(t, id, d))
        &&& Database::logged(a, b, render(LogOp::InsertRow(t, id, d)))
        &&& if a.operations_since_save + 1 >= a.save_threshold {
            &&& b.operations_since_save == 0
            &&& b.pending_save matches Some(p) && p@ == t
        } else {
            &&& b.operations_since_save == a.operations_since_save + 1
            &&& b.pending_save == a.pending_save
        }
        &&& b.save_threshold == a.save_threshold
        &&& b.wal_file == a.wal_file
        &&& b.indexer == a.indexer
        &&& b.bloom_filter == a.bloom_filter
    }

    /// Inserts row `row_id` with the pairs of `data` into table `table`,
    /// adding the columns of `data` that the table lacks. The reserved id
    /// `datatypes` installs the table's type row. Every insertion counts
    /// towards the save threshold; on reaching it the table's append save
    /// becomes due.
    pub fn insert_row(&mut self, table: &str, row_id: &str, data: Vec<(String, String)>) -> (r:
        Result<Vec<String>, DatabaseError>)
        requires
            old(self).wf(),
            unique_keys(fview(data@)),
        ensures
            final(self).wf(),
            match r {
                Ok(v) => {
                    &&& crate::text::views(v@) == seq![row_id@, table@]
                    &&& Database::inserted(old(self), final(self), table@, row_id@, fview(data@))
                },
                Err(e) => {
                    &&& *final(self) == *old(self)
                    &&& if !old(self).tmap().contains_key(table@) {
                        no_table(e, table@)
                    } else {
                        !row_free(old(self).tmap()[table@], row_id@) && row_exists(
                            e,
                            row_id@,
                            table@,
                        )
                    }
                },
            },
    {
        match self.do_insert(table, row_id, &data) {
            Ok(()) => {},
            Err(e) => return Err(e),
        }
        let ghost b = *self;
        self.log_record(record_insert(table, row_id, &data));
        proof {
            assert(self.tlist() =~= b.tlist());
        }
        if self.operations_since_save >= self.save_threshold || self.save_threshold
            - self.operations_since_save <= 1 {
            self.operations_since_save = 0;
            self.pending_save = Some(table.to_owned());
        } else {
            self.operations_since_save = self.operations_since_save + 1;
        }
        Ok(pair(row_id, table))
    }

    /// Inserts a row as `insert_row` does, once every value is accepted by
    /// the declared type of its column.
    pub fn insert_row_with_datatype(
        &mut self,
        table: &str,
        row_id: &str,
        data: Vec<(String, String)>,
    ) -> (r: Result<Vec<Vec<String>>, DatabaseError>)
        requires
            old(self).wf(),
            unique_keys(fview(data@)),
        ensures
            final(self).wf(),
            match r {
                Ok(v) => {
                    &&& v@.len() == 1
                    &&& crate::text::views(v@[0]@) == seq![row_id@, table@]
                    &&& typed_ok(old(self).tmap()[table@], fview(data@))
                    &&& Database::inserted(old(self), final(self), table@, row_id@, fview(data@))
                },
                Err(e) => {
                    &&& *final(self) == *old(self)
                    &&& if !old(self).tmap().contains_key(table@) {
                        no_table(e, table@)
                    } else if !row_free(old(self).tmap()[table@], row_id@) {
                        row_exists(e, row_id@, table@)
                    } else {
                        !typed_ok(old(self).tmap()[table@], fview(data@)) && e
                            is DataTypeError
                    }
                },
            },
    {
        let i = match self.find_table(table) {
            Some(i) => i,
            None => return Err(DatabaseError::TableDoesNotExist(table.to_owned())),
        };
        let ghost tv = self.tlist()[i as int].1;
        let taken = if str_eq(row_id, "datatypes") {
            self.tables[i].1.datatypes.is_some()
        } else {
            self.tables[i].1.find_row(row_id).is_some()
        };
        proof {
            lemma_tpos(self, i as int);
        }
        if taken {
            return Err(DatabaseError::RowAlreadyExists(row_id.to_owned(), table.to_owned()));
        }
        let mut k: usize = 0;
        while k < data.len()
            invariant
                self.wf(),
                *self == *old(self),
                i < self.tlist().len(),
                tv == self.tlist()[i as int].1,
                self.tlist()[i as int].0 == table@,
                row_free(tv, row_id@),
                k <= data@.len(),
                forall|j: int|
                    0 <= j < k ==> match tv.column_type(#[trigger] fview(data@)[j].0) {
                        Some(ty) => value_matches(fview(data@)[j].1, ty),
                        None => false,
                    },
            decreases data@.len() - k,
        {
            let ok = match self.tables[i].1.column_type(data[k].0.as_str()) {
                Some(ty) => check_value_matches(data[k].1.as_str(), ty.as_str()),
                None => false,
            };
            assert(fview(data@)[k as int] == (data@[k as int].0@, data@[k as int].1@));
            if !ok {
                proof {
                    lemma_tpos(self, i as int);
                    let d = fview(data@);
                    assert(!match tv.column_type(d[k as int].0) {
                        Some(ty) => value_matches(d[k as int].1, ty),
                        None => false,
                    });
                }
                return Err(DatabaseError::DataTypeError);
            }
            k = k + 1;
        }
        proof {
            lemma_tpos(self, i as int);
        }
        let res = self.insert_row(table, row_id, data);
        match res {
            Ok(v) => {
                let mut out: Vec<Vec<String>> = Vec::new();
                out.push(v);
                Ok(out)
            },
            Err(e) => Err(e),
        }
    }

    /// Sets column `column` of row `row_id` in table `table` to `value`,
    /// adding the column when the table lacks it.
    pub fn update_row(&mut self, table: &str, row_id: &str, column: &str, value: &str) -> (r:
        Result<Vec<String>, DatabaseError>)
        requires
            old(self).wf(),
        ensures
            final(self).wf(),
            match r {
                Ok(v) => {
                    &&& old(self).tmap().contains_key(table@)
                    &&& row_present(old(self).tmap()[table@], row_id@)
                    &&& crate::text::views(v@) == seq![row_id@, column@, value@]
                    &&& final(self).tmap() == apply_op(
                        old(self).tmap(),
                        LogOp::UpdateRow(table@, row_id@, column@, value@),
                    )
                    &&& Database::logged(
                        old(self),
                        final(self),
                        render(LogOp::UpdateRow(table@, row_id@, column@, value@)),
                    )
                    &&& Database::same_rest(old(self), final(self))
                },
                Err(e) => {
                    &&& *final(self) == *old(self)
                    &&& if !old(self).tmap().contains_key(table@) {
                        no_table(e, table@)
                    } else {
                        !row_present(old(self).tmap()[table@], row_id@) && no_row(
                            e,
                            row_id@,
                            table@,
                        )
                    }
                },
            },
    {
        match self.do_update(table, row_id, column, value) {
            Ok(()) => {},
            Err(e) => return Err(e),
        }
        let ghost b = *self;
        self.log_record(record_update(table, row_id, column, value));
        proof {
            assert(self.tlist() =~= b.tlist());
        }
        let mut v: Vec<String> = pair(row_id, column);
        let ghost v0 = v@;
        v.push(value.to_owned());
        assert(crate::text::views(v@) =~= crate::text::views(v0).push(value@));
        assert(crate::text::views(v@) =~= seq![row_id@, column@, value@]);
        Ok(v)
    }

    /// A copy of user row `row_id` of table `table`.
    pub fn get_row(&self, table: &str, row_id: &str) -> (r: Result<
        Vec<(String, String)>,
        DatabaseError,
    >)
        requires
            self.wf(),
        ensures
            match r {
                Ok(v) => {
                    &&& self.tmap().contains_key(table@)
                    &&& row_id@ != crate::table::reserved_id()
                    &&& self.tmap()[table@].has_row(row_id@)
                    &&& fview(v@) == self.tmap()[table@].rows[self.tmap()[table@].row_pos(
                        row_id@,
                    )].1
                    &&& as_map(fview(v@)) == self.tmap()[table@].row(row_id@)
                },
                Err(e) => if !self.tmap().contains_key(table@) {
                    no_table(e, table@)
                } else {
                    no_row(e, row_id@, table@) && (row_id@ == crate::table::reserved_id()
                        || !self.tmap()[table@].has_row(row_id@))
                },
            },
    {
        let i = match self.find_table(table) {
            Some(i) => i,
            None => return Err(DatabaseError::TableDoesNotExist(table.to_owned())),
        };
        let t = &self.tables[i].1;
        if str_eq(row_id, "datatypes") {
            return Err(DatabaseError::RowDoesNotExist(row_id.to_owned(), table.to_owned()));
        }
        match t.find_row(row_id) {
            Some(j) => {
                let v = copy_fields(&t.rows[j].1);
                assert(t@.rows[j as int].1 == fview(t.rows@[j as int].1@));
                Ok(v)
            },
            None => Err(DatabaseError::RowDoesNotExist(row_id.to_owned(), table.to_owned())),
        }
    }
}

impl Database {
    /// Everything but the tables is as it was.
    pub open spec fn only_tables(a: &Database, b: &Database) -> bool {
        &&& Database::same_rest(a, b)
        &&& a.wal == b.wal
    }

    pub(crate) fn do_create(&mut self, name: &str)
        requires
            old(self).wf(),
        ensures
            final(self).wf(),
            final(self).tmap() == apply_op(old(self).tmap(), LogOp::CreateTable(name@)),
            Database::only_tables(old(self), final(self)),
    {
        if self.check_table(name) {
            return;
        }
        let ghost a = *self;
        let t = Table::new();
        self.tables.push((name.to_owned(), t));
        proof {
            assert(self.tlist() =~= a.tlist().push((name@, empty_table())));
            lemma_push_table(&a, self, name@, empty_table());
        }
    }

    pub(crate) fn do_add_column(&mut self, table: &str, column: &str) -> (r: bool)
        requires
            old(self).wf(),
        ensures
            final(self).wf(),
            r == old(self).tmap().contains_key(table@),
            !r ==> *final(self) == *old(self),
            final(self).tmap() == apply_op(old(self).tmap(), LogOp::AddColumn(table@, column@)),
            Database::only_tables(old(self), final(self)),
    {
        let i = match self.find_table(table) {
            Some(i) => i,
            None => return false,
        };
        let ghost a = *self;
        self.tables[i].1.add_column(column);
        proof {
            let tv = TableView { columns: add_col(a.tlist()[i as int].1.columns, column@), ..a.tlist()[i as int].1 };
            assert(self.tlist() =~= a.tlist().update(i as int, (table@, tv)));
            lemma_set_table(&a, self, i as int, tv);
        }
        true
    }

    pub(crate) fn do_insert(&mut self, table: &str, row_id: &str, data: &Vec<(String, String)>) -> (r: Result<(), DatabaseError>)
        requires
            old(self).wf(),
            unique_keys(fview(data@)),
        ensures
            final(self).wf(),
            final(self).tmap() == apply_op(old(self).tmap(), LogOp::InsertRow(table@, row_id@, fview(data@))),
            Database::only_tables(old(self), final(self)),
            match r {
                Ok(()) => old(self).tmap().contains_key(table@) && row_free(old(self).tmap()[table@], row_id@),
                Err(e) => {
                    &&& *final(self) == *old(self)
                    &&& if !old(self).tmap().contains_key(table@) {
                        no_table(e, table@)
                    } else {
                        !row_free(old(self).tmap()[table@], row_id@) && row_exists(e, row_id@, table@)
                    }
                },
            },
    {
        let i = match self.find_table(table) {
            Some(i) => i,
            None => return Err(DatabaseError::TableDoesNotExist(table.to_owned())),
        };
        let ghost a = *self;
        let ghost tv0 = a.tlist()[i as int].1;
        if str_eq(row_id, "datatypes") {
            if self.tables[i].1.datatypes.is_some() {
                return Err(DatabaseError::RowAlreadyExists(row_id.to_owned(), table.to_owned()));
            }
            self.tables[i].1.set_datatypes_row(data);
        } else {
            if self.tables[i].1.find_row(row_id).is_some() {
                return Err(DatabaseError::RowAlreadyExists(row_id.to_owned(), table.to_owned()));
            }
            self.tables[i].1.insert_row(row_id, data);
        }
        proof {
            let tv = with_row(tv0, row_id@, fview(data@));
            assert(self.tlist() =~= a.tlist().update(i as int, (table@, tv)));
            lemma_set_table(&a, self, i as int, tv);
        }
        Ok(())
    }

    pub(crate) fn do_update(&mut self, table: &str, row_id: &str, column: &str, value: &str) -> (r: Result<(), DatabaseError>)
        requires
            old(self).wf(),
        ensures
            final(self).wf(),
            final(self).tmap() == apply_op(old(self).tmap(), LogOp::UpdateRow(table@, row_id@, column@, value@)),
            Database::only_tables(old(self), final(self)),
            match r {
                Ok(()) => old(self).tmap().contains_key(table@) && row_present(old(self).tmap()[table@], row_id@),
                Err(e) => {
                    &&& *final(self) == *old(self)
                    &&& if !old(self).tmap().contains_key(table@) {
                        no_table(e, table@)
                    } else {
                        !row_present(old(self).tmap()[table@], row_id@) && no_row(e, row_id@, table@)
                    }
                },
            },
    {
        let i = match self.find_table(table) {
            Some(i) => i,
            None => return Err(DatabaseError::TableDoesNotExist(table.to_owned())),
        };
        let ghost a = *self;
        let ghost tv0 = a.tlist()[i as int].1;
        if str_eq(row_id, "datatypes") {
            if self.tables[i].1.datatypes.is_none() {
                return Err(DatabaseError::RowDoesNotExist(row_id.to_owned(), table.to_owned()));
            }
            self.tables[i].1.set_datatype_field(column, value);
        } else {
            let j = match self.tables[i].1.find_row(row_id) {
                Some(j) => j,
                None => {
                    return Err(DatabaseError::RowDoesNotExist(row_id.to_owned(), table.to_owned()))
                },
            };
            self.tables[i].1.set_field(j, column, value);
        }
        proof {
            let tv = with_field(tv0, row_id@, column@, value@);
            assert(self.tlist() =~= a.tlist().update(i as int, (table@, tv)));
            lemma_set_table(&a, self, i as int, tv);
        }
        Ok(())
    }
}

impl Database {
    /// The position of table `name`, if it is there.
    pub(crate) fn find_table_pos(&self, name: &str) -> (r: Option<usize>)
        requires
            self.wf(),
        ensures
            match r {
                Some(i) => i < self.tlist().len() && self.tname(i as int) == name@ && self.has_table(
                    name@,
                ) && self.tpos(name@) == i && self.tmap()[name@] == self.tlist()[i as int].1,
                None => !self.has_table(name@),
            },
    {
        self.find_table(name)
    }

    /// Installs table `t` under `name`, replacing a table of that name.
    pub(crate) fn put_table(&mut self, name: &str, t: Table)
        requires
            old(self).wf(),
            t@.wf(),
        ensures
            final(self).wf(),
            final(self).tmap() == old(self).tmap().insert(name@, t@),
            Database::only_tables(old(self), final(self)),
    {
        let ghost a = *self;
        let ghost tv = t@;
        match self.find_table(name) {
            Some(i) => {
                self.tables.set(i, (name.to_owned(), t));
                proof {
                    assert(self.tlist() =~= a.tlist().update(i as int, (name@, tv)));
                    lemma_set_table(&a, self, i as int, tv);
                }
            },
            None => {
                self.tables.push((name.to_owned(), t));
                proof {
                    assert(self.tlist() =~= a.tlist().push((name@, tv)));
                    lemma_push_table(&a, self, name@, tv);
                }
            },
        }
    }
}

} // verus!
