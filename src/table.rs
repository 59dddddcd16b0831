use vstd::prelude::*;
use crate::fields::{
    as_map, copy_fields, fview, get_value, has_key, keys, lemma_set_entry, set_entry, set_value,
    unique_keys,
};
use crate::text::{str_eq, views};

verus! {

/// The id of the reserved row that holds the declared type of each column.
pub open spec fn reserved_id() -> Seq<char> {
    "datatypes"@
}

/// No element appears twice.
pub open spec fn no_dups(s: Seq<Seq<char>>) -> bool {
    forall|i: int, j: int| 0 <= i < s.len() && 0 <= j < s.len() && s[i] == s[j] ==> i == j
}

/// `cols` with `c` appended unless it is already there.
pub open spec fn add_col(cols: Seq<Seq<char>>, c: Seq<char>) -> Seq<Seq<char>> {
    if cols.contains(c) {
        cols
    } else {
        cols.push(c)
    }
}

/// `cols` with each of `ks` added in turn.
pub open spec fn add_cols(cols: Seq<Seq<char>>, ks: Seq<Seq<char>>) -> Seq<Seq<char>>
    decreases ks.len(),
{
    if ks.len() == 0 {
        cols
    } else {
        add_col(add_cols(cols, ks.drop_last()), ks.last())
    }
}

/// Every column of the pairs `f` is among `cols`.
pub open spec fn covered(f: Seq<(Seq<char>, Seq<char>)>, cols: Seq<Seq<char>>) -> bool {
    forall|k: Seq<char>| has_key(f, k) ==> cols.contains(k)
}

pub type FieldsView = Seq<(Seq<char>, Seq<char>)>;

/// What a table holds: its columns in order of addition, its user rows in
/// order of insertion, the reserved type row, and how many user rows the
/// last append save wrote.
pub ghost struct TableView {
    pub columns: Seq<Seq<char>>,
    pub rows: Seq<(Seq<char>, FieldsView)>,
    pub datatypes: Option<FieldsView>,
    pub saved_rows: nat,
}

impl TableView {
    pub open spec fn ids(self) -> Seq<Seq<char>> {
        self.rows.map_values(|r: (Seq<char>, FieldsView)| r.0)
    }

    pub open spec fn has_row(self, id: Seq<char>) -> bool {
        exists|i: int| 0 <= i < self.rows.len() && self.rows[i].0 == id
    }

    pub open spec fn row_pos(self, id: Seq<char>) -> int {
        choose|i: int| 0 <= i < self.rows.len() && self.rows[i].0 == id
    }

    /// The contents of user row `id`.
    pub open spec fn row(self, id: Seq<char>) -> Map<Seq<char>, Seq<char>> {
        as_map(self.rows[self.row_pos(id)].1)
    }

    /// The declared type of column `c`, read from the reserved row.
    pub open spec fn column_type(self, c: Seq<char>) -> Option<Seq<char>> {
        match self.datatypes {
            Some(d) => if has_key(d, c) {
                Some(as_map(d)[c])
            } else {
                None
            },
            None => None,
        }
    }

    pub open spec fn wf(self) -> bool {
        &&& no_dups(self.columns)
        &&& no_dups(self.ids())
        &&& forall|i: int| #![trigger self.rows[i]] 0 <= i < self.rows.len() ==> {
            &&& unique_keys(self.rows[i].1)
            &&& covered(self.rows[i].1, self.columns)
            &&& self.rows[i].0 != reserved_id()
        }
        &&& match self.datatypes {
            Some(d) => unique_keys(d) && covered(d, self.columns),
            None => true,
        }
        &&& self.saved_rows <= self.rows.len()
    }
}

/// A table: columns, user rows, and the reserved row of column types.
#[derive(Debug)]
pub struct Table {
    pub columns: Vec<String>,
    pub rows: Vec<(String, Vec<(String, String)>)>,
    pub datatypes: Option<Vec<(String, String)>>,
    pub saved_rows: usize,
}

impl View for Table {
    type V = TableView;

    open spec fn view(&self) -> TableView {
        TableView {
            columns: views(self.columns@),
            rows: self.rows@.map_values(
                |r: (String, Vec<(String, String)>)| (r.0@, fview(r.1@)),
            ),
            datatypes: match self.datatypes {
                Some(d) => Some(fview(d@)),
                None => None,
            },
            saved_rows: self.saved_rows as nat,
        }
    }
}

pub proof fn lemma_row_pos(t: TableView, i: int)
    requires
        t.wf(),
        0 <= i < t.rows.len(),
    ensures
        t.has_row(t.rows[i].0),
        t.row_pos(t.rows[i].0) == i,
        t.row(t.rows[i].0) == as_map(t.rows[i].1),
{
    assert(t.has_row(t.rows[i].0));
    let j = t.row_pos(t.rows[i].0);
    assert(t.ids()[i] == t.ids()[j]);
}

impl Table {
    /// A table with no columns and no rows.
    pub fn new() -> (r: Self)
        ensures
            r@ == (TableView {
                columns: seq![],
                rows: seq![],
                datatypes: None,
                saved_rows: 0,
            }),
            r@.wf(),
    {
        let r = Table { columns: Vec::new(), rows: Vec::new(), datatypes: None, saved_rows: 0 };
        assert(r@.columns =~= seq![]);
        assert(r@.rows =~= seq![]);
        r
    }

    pub fn has_column(&self, c: &str) -> (r: bool)
        ensures
            r == self@.columns.contains(c@),
    {
        let mut i: usize = 0;
        while i < self.columns.len()
            invariant
                i <= self.columns@.len(),
                forall|j: int| 0 <= j < i ==> self@.columns[j] != c@,
            decreases self.columns@.len() - i,
        {
            if str_eq(self.columns[i].as_str(), c) {
                assert(self@.columns[i as int] == c@);
                return true;
            }
            i = i + 1;
        }
        false
    }

    /// Appends column `c` unless it is already there.
    pub fn add_column(&mut self, c: &str)
        requires
            old(self)@.wf(),
        ensures
            final(self)@ == (TableView { columns: add_col(old(self)@.columns, c@), ..old(self)@ }),
            final(self)@.wf(),
    {
        if !self.has_column(c) {
            let ghost before = self@;
            self.columns.push(c.to_owned());
            proof {
                assert(self@.columns =~= before.columns.push(c@));
                assert(self@.rows =~= before.rows);
                assert forall|i: int, j: int|
                    0 <= i < self@.columns.len() && 0 <= j < self@.columns.len()
                        && self@.columns[i] == self@.columns[j] implies i == j by {
                    if i < before.columns.len() && j == before.columns.len() {
                        assert(before.columns.contains(c@));
                    }
                    if j < before.columns.len() && i == before.columns.len() {
                        assert(before.columns.contains(c@));
                    }
                }
                assert forall|k: Seq<char>| before.columns.contains(k) implies self@.columns.contains(k) by {
                    let j = choose|j: int| 0 <= j < before.columns.len() && before.columns[j] == k;
                    assert(self@.columns[j] == k);
                }
            }
        }
    }

    /// The position of user row `id`, if it is there.
    pub fn find_row(&self, id: &str) -> (r: Option<usize>)
        requires
            self@.wf(),
        ensures
            match r {
                Some(i) => i < self@.rows.len() && self@.rows[i as int].0 == id@ && self@.row_pos(
                    id@,
                ) == i && self@.has_row(id@),
                None => !self@.has_row(id@),
            },
    {
        let mut i: usize = 0;
        while i < self.rows.len()
            invariant
                self@.wf(),
                i <= self@.rows.len(),
                forall|j: int| 0 <= j < i ==> self@.rows[j].0 != id@,
            decreases self@.rows.len() - i,
        {
            if str_eq(self.rows[i].0.as_str(), id) {
                proof {
                    lemma_row_pos(self@, i as int);
                }
                return Some(i);
            }
            i = i + 1;
        }
        None
    }

    /// Adds each column of `data` that the table lacks, in the order of `data`.
    pub fn add_columns_of(&mut self, data: &Vec<(String, String)>)
        requires
            old(self)@.wf(),
        ensures
            final(self)@ == (TableView {
                columns: add_cols(old(self)@.columns, keys(fview(data@))),
                ..old(self)@
            }),
            final(self)@.wf(),
            covered(fview(data@), final(self)@.columns),
    {
        let mut i: usize = 0;
        while i < data.len()
            invariant
                i <= data@.len(),
                self@.wf(),
                self@ == (TableView {
                    columns: add_cols(old(self)@.columns, keys(fview(data@)).take(i as int)),
                    ..old(self)@
                }),
                forall|j: int| 0 <= j < i ==> self@.columns.contains(fview(data@)[j].0),
            decreases data@.len() - i,
        {
            let ghost before = self@;
            self.add_column(data[i].0.as_str());
            proof {
                let ks = keys(fview(data@));
                assert(ks.take(i + 1).drop_last() =~= ks.take(i as int));
                assert(ks.take(i + 1).last() == fview(data@)[i as int].0);
                assert forall|k: Seq<char>| before.columns.contains(k) implies self@.columns.contains(k) by {
                    let j = choose|j: int| 0 <= j < before.columns.len() && before.columns[j] == k;
                    if !before.columns.contains(fview(data@)[i as int].0) {
                        assert(self@.columns[j] == k);
                    }
                }
                if !before.columns.contains(fview(data@)[i as int].0) {
                    assert(self@.columns[before.columns.len() as int] == fview(data@)[i as int].0);
                }
            }
            i = i + 1;
        }
        proof {
            assert(keys(fview(data@)).take(i as int) =~= keys(fview(data@)));
            assert forall|k: Seq<char>| has_key(fview(data@), k) implies self@.columns.contains(k) by {
                let j = choose|j: int| 0 <= j < fview(data@).len() && fview(data@)[j].0 == k;
            }
        }
    }

    /// Installs user row `id` with the pairs of `data`, adding the columns
    /// of `data` that the table lacks.
    pub fn insert_row(&mut self, id: &str, data: &Vec<(String, String)>)
        requires
            old(self)@.wf(),
            !old(self)@.has_row(id@),
            id@ != reserved_id(),
            unique_keys(fview(data@)),
        ensures
            final(self)@ == (TableView {
                columns: add_cols(old(self)@.columns, keys(fview(data@))),
                rows: old(self)@.rows.push((id@, fview(data@))),
                ..old(self)@
            }),
            final(self)@.wf(),
    {
        self.add_columns_of(data);
        let ghost before = self@;
        let copy = copy_fields(data);
        self.rows.push((id.to_owned(), copy));
        proof {
            assert(self@.rows =~= before.rows.push((id@, fview(data@))));
            let n = before.rows.len() as int;
            assert forall|i: int, j: int|
                0 <= i < self@.ids().len() && 0 <= j < self@.ids().len() && self@.ids()[i]
                    == self@.ids()[j] implies i == j by {
                if i < n && j < n {
                    assert(before.ids()[i] == self@.ids()[i]);
                    assert(before.ids()[j] == self@.ids()[j]);
                } else if i < n {
                    assert(before.rows[i].0 == id@);
                } else if j < n {
                    assert(before.rows[j].0 == id@);
                }
            }
            assert forall|i: int| #![trigger self@.rows[i]] 0 <= i < self@.rows.len() implies {
                &&& unique_keys(self@.rows[i].1)
                &&& covered(self@.rows[i].1, self@.columns)
                &&& self@.rows[i].0 != reserved_id()
            } by {
                if i < n {
                    assert(self@.rows[i] == before.rows[i]);
                }
            }
        }
    }

    /// Sets column `c` of user row `i` to `v`, adding the column when the
    /// table lacks it.
    pub fn set_field(&mut self, i: usize, c: &str, v: &str)
        requires
            old(self)@.wf(),
            i < old(self)@.rows.len(),
        ensures
            final(self)@ == (TableView {
                columns: add_col(old(self)@.columns, c@),
                rows: old(self)@.rows.update(
                    i as int,
                    (old(self)@.rows[i as int].0, set_entry(old(self)@.rows[i as int].1, c@, v@)),
                ),
                ..old(self)@
            }),
            final(self)@.wf(),
    {
        self.add_column(c);
        let ghost before = self@;
        let mut row = (String::new(), Vec::new());
        std::mem::swap(&mut row, &mut self.rows[i]);
        set_value(&mut row.1, c, v);
        self.rows.set(i, row);
        proof {
            lemma_set_entry(before.rows[i as int].1, c@, v@);
            assert(self@.rows =~= before.rows.update(
                i as int,
                (before.rows[i as int].0, set_entry(before.rows[i as int].1, c@, v@)),
            ));
            assert(self@.ids() =~= before.ids());
            assert(self@.columns.contains(c@)) by {
                if !old(self)@.columns.contains(c@) {
                    assert(self@.columns[old(self)@.columns.len() as int] == c@);
                }
            }
            assert forall|j: int| #![trigger self@.rows[j]] 0 <= j < self@.rows.len() implies {
                &&& unique_keys(self@.rows[j].1)
                &&& covered(self@.rows[j].1, self@.columns)
                &&& self@.rows[j].0 != reserved_id()
            } by {
                if j != i {
                    assert(self@.rows[j] == before.rows[j]);
                }
            }
        }
    }

    /// Installs the reserved type row with the pairs of `data`, adding the
    /// columns of `data` that the table lacks.
    pub fn set_datatypes_row(&mut self, data: &Vec<(String, String)>)
        requires
            old(self)@.wf(),
            old(self)@.datatypes is None,
            unique_keys(fview(data@)),
        ensures
            final(self)@ == (TableView {
                columns: add_cols(old(self)@.columns, keys(fview(data@))),
                datatypes: Some(fview(data@)),
                ..old(self)@
            }),
            final(self)@.wf(),
    {
        self.add_columns_of(data);
        self.datatypes = Some(copy_fields(data));
    }

    /// Sets column `c` of the reserved type row to `v`, creating the row
    /// and adding the column where needed.
    pub fn set_datatype_field(&mut self, c: &str, v: &str)
        requires
            old(self)@.wf(),
        ensures
            final(self)@ == (TableView {
                columns: add_col(old(self)@.columns, c@),
                datatypes: Some(
                    set_entry(
                        match old(self)@.datatypes {
                            Some(d) => d,
                            None => seq![],
                        },
                        c@,
                        v@,
                    ),
                ),
                ..old(self)@
            }),
            final(self)@.wf(),
    {
        self.add_column(c);
        let ghost before = self@;
        let mut d: Vec<(String, String)> = match self.datatypes.take() {
            Some(d) => d,
            None => Vec::new(),
        };
        proof {
            let d0 = match before.datatypes {
                Some(x) => x,
                None => seq![],
            };
            assert(fview(d@) =~= d0);
            lemma_set_entry(d0, c@, v@);
            assert(self@.columns.contains(c@)) by {
                if !old(self)@.columns.contains(c@) {
                    assert(self@.columns[old(self)@.columns.len() as int] == c@);
                }
            }
        }
        set_value(&mut d, c, v);
        self.datatypes = Some(d);
    }

    /// The declared type of column `c`.
    pub fn column_type(&self, c: &str) -> (r: Option<String>)
        requires
            self@.wf(),
        ensures
            match r {
                Some(t) => self@.column_type(c@) == Some(t@),
                None => self@.column_type(c@) is None,
            },
    {
        match &self.datatypes {
            Some(d) => {
                let r = get_value(d, c);
                proof {
                    if has_key(fview(d@), c@) {
                        assert(as_map(fview(d@)).contains_key(c@));
                    }
                }
                r
            },
            None => None,
        }
    }
}

/// Adding columns that are all there already changes nothing.
pub proof fn lemma_add_cols_present(cols: Seq<Seq<char>>, ks: Seq<Seq<char>>)
    requires
        forall|i: int| 0 <= i < ks.len() ==> cols.contains(#[trigger] ks[i]),
    ensures
        add_cols(cols, ks) == cols,
    decreases ks.len(),
{
    if ks.len() > 0 {
        lemma_add_cols_present(cols, ks.drop_last());
        assert(cols.contains(ks[ks.len() - 1]));
    }
}

/// Adding columns keeps the columns already there.
pub proof fn lemma_add_cols_grows(cols: Seq<Seq<char>>, ks: Seq<Seq<char>>, c: Seq<char>)
    requires
        cols.contains(c),
    ensures
        add_cols(cols, ks).contains(c),
    decreases ks.len(),
{
    if ks.len() > 0 {
        lemma_add_cols_grows(cols, ks.drop_last(), c);
        let p = add_cols(cols, ks.drop_last());
        if !p.contains(ks.last()) {
            let j = choose|j: int| 0 <= j < p.len() && p[j] == c;
            assert(p.push(ks.last())[j] == c);
        }
    }
}

/// Adding a column twice leaves a single occurrence of it.
pub proof fn lemma_add_column_twice(cols: Seq<Seq<char>>, c: Seq<char>)
    requires
        no_dups(cols),
    ensures
        add_col(add_col(cols, c), c) == add_col(cols, c),
        no_dups(add_col(cols, c)),
        exists|i: int|
            0 <= i < add_col(cols, c).len() && add_col(cols, c)[i] == c && forall|j: int|
                0 <= j < add_col(cols, c).len() && add_col(cols, c)[j] == c ==> j == i,
{
    let r = add_col(cols, c);
    assert(r.contains(c)) by {
        if !cols.contains(c) {
            assert(r[cols.len() as int] == c);
        }
    }
    assert forall|i: int, j: int| 0 <= i < r.len() && 0 <= j < r.len() && r[i] == r[j] implies i
        == j by {
        if !cols.contains(c) {
            if i < cols.len() && j == cols.len() {
                assert(cols[i] == c);
            }
            if j < cols.len() && i == cols.len() {
                assert(cols[j] == c);
            }
        }
    }
    let i = choose|i: int| 0 <= i < r.len() && r[i] == c;
    assert(forall|j: int| 0 <= j < r.len() && r[j] == c ==> j == i);
}

} // verus!
