use vstd::prelude::*;
use crate::bloom::BloomFilter;
use crate::db::{no_table, Database, DatabaseError};
use crate::fields::{as_map, copy_fields, fview, get_value, has_key};
use crate::table::{TableView, FieldsView};
use crate::text::{bytes_of, lex_lt, split_words, str_eq, str_lt, views, words};

verus! {

/// How two values compare as numbers: `NotNumeric` when either is not a
/// number, `Unordered` when they are numbers without an order.
#[derive(PartialEq, Eq, Structural, Clone, Copy, Debug)]
pub enum NumOrder {
    NotNumeric,
    Less,
    Equal,
    Greater,
    Unordered,
}

/// A found row: its id and its pairs.
pub type Found = (String, Vec<(String, String)>);

pub open spec fn found_view(v: Seq<Found>) -> Seq<(Seq<char>, FieldsView)> {
    v.map_values(|p: Found| (p.0@, fview(p.1@)))
}

/// All results, or the first one only.
pub open spec fn first_or_all<A>(s: Seq<A>, many: bool) -> Seq<A> {
    if many || s.len() == 0 {
        s
    } else {
        s.take(1)
    }
}

/// The user rows of `tv` named by `ids` whose `column` holds `value`, in
/// the order of `ids`, each once: an id listed for a row of another table
/// is dropped unless this table's row of that id holds the value too.
pub open spec fn index_hits(
    ids: Seq<Seq<char>>,
    tv: TableView,
    column: Seq<char>,
    value: Seq<char>,
) -> Seq<(Seq<char>, FieldsView)>
    decreases ids.len(),
{
    if ids.len() == 0 {
        seq![]
    } else {
        let p = index_hits(ids.drop_last(), tv, column, value);
        let id = ids.last();
        if tv.has_row(id) && holds(tv.rows[tv.row_pos(id)].1, column, value) && !ids.drop_last().contains(id) {
            p.push((id, tv.rows[tv.row_pos(id)].1))
        } else {
            p
        }
    }
}

/// Row `row` has column `c` with value `v`.
pub open spec fn holds(row: FieldsView, c: Seq<char>, v: Seq<char>) -> bool {
    has_key(row, c) && as_map(row)[c] == v
}

/// Whether `ids[i]` also stands earlier in `ids`.
fn listed_before(ids: &Vec<String>, i: usize) -> (r: bool)
    requires
        i < ids@.len(),
    ensures
        r == views(ids@).take(i as int).contains(ids@[i as int]@),
{
    let mut k: usize = 0;
    while k < i
        invariant
            i < ids@.len(),
            k <= i,
            forall|q: int| 0 <= q < k ==> ids@[q]@ != ids@[i as int]@,
        decreases i - k,
    {
        if str_eq(ids[k].as_str(), ids[i].as_str()) {
            assert(views(ids@).take(i as int)[k as int] == ids@[i as int]@);
            return true;
        }
        k = k + 1;
    }
    proof {
        if views(ids@).take(i as int).contains(ids@[i as int]@) {
            let q = choose|q: int| 0 <= q < i && views(ids@).take(i as int)[q] == ids@[i as int]@;
            assert(ids@[q]@ == ids@[i as int]@);
        }
    }
    false
}

/// Whether a scan keeps a row: its `column` holds `value`, and where the
/// column is `email` and a Bloom filter is built, the filter admits it.
pub open spec fn scan_hit(
    row: FieldsView,
    column: Seq<char>,
    value: Seq<char>,
    bloom: Option<BloomFilter>,
) -> bool {
    &&& has_key(row, column)
    &&& as_map(row)[column] == value
    &&& (column == "email"@ && bloom is Some) ==> bloom->0.holds(value)
}

/// The rows that a scan keeps, in order.
pub open spec fn scan_hits(
    rows: Seq<(Seq<char>, FieldsView)>,
    column: Seq<char>,
    value: Seq<char>,
    bloom: Option<BloomFilter>,
) -> Seq<(Seq<char>, FieldsView)>
    decreases rows.len(),
{
    if rows.len() == 0 {
        seq![]
    } else {
        let p = scan_hits(rows.drop_last(), column, value, bloom);
        if scan_hit(rows.last().1, column, value, bloom) {
            p.push(rows.last())
        } else {
            p
        }
    }
}

/// Whether the index answers a lookup of `value` in `column`.
pub open spec fn index_answers(db: &Database, column: Seq<char>, value: Seq<char>) -> bool {
    column == "name"@ && db.indexer is Some && db.indexer->0@.contains_key(value)
}

/// The rows that a lookup of `value` in `column` of table `tv` finds.
pub open spec fn lookup(db: &Database, tv: TableView, column: Seq<char>, value: Seq<char>) -> Seq<
    (Seq<char>, FieldsView),
> {
    if index_answers(db, column, value) {
        index_hits(db.indexer->0@[value], tv, column, value)
    } else {
        scan_hits(tv.rows, column, value, db.bloom_filter)
    }
}

/// Whether value `val` meets `op cv`, given how the two compare as numbers.
/// Numbers compare numerically, for every operator; other values compare
/// as text, in the order of `str`.
pub open spec fn cond_holds(op: Seq<char>, val: Seq<char>, cv: Seq<char>, o: NumOrder) -> bool {
    if op == "=="@ {
        match o {
            NumOrder::NotNumeric => val == cv,
            NumOrder::Equal => true,
            _ => false,
        }
    } else if op == ">"@ || op == "<"@ || op == ">="@ || op == "<="@ {
        match o {
            NumOrder::NotNumeric => if op == ">"@ {
                lex_lt(bytes_of(cv), bytes_of(val))
            } else if op == "<"@ {
                lex_lt(bytes_of(val), bytes_of(cv))
            } else if op == ">="@ {
                !lex_lt(bytes_of(val), bytes_of(cv))
            } else {
                !lex_lt(bytes_of(cv), bytes_of(val))
            },
            NumOrder::Less => op == "<"@ || op == "<="@,
            NumOrder::Equal => op == "<="@ || op == ">="@,
            NumOrder::Greater => op == ">"@ || op == ">="@,
            NumOrder::Unordered => false,
        }
    } else {
        false
    }
}

/// Whether `val op cv` holds, given how the two compare as numbers.
pub fn condition_holds(op: &str, val: &str, cv: &str, o: NumOrder) -> (r: bool)
    ensures
        r == cond_holds(op@, val@, cv@, o),
{
    if str_eq(op, "==") {
        match o {
            NumOrder::NotNumeric => str_eq(val, cv),
            NumOrder::Equal => true,
            _ => false,
        }
    } else if str_eq(op, ">") || str_eq(op, "<") || str_eq(op, ">=") || str_eq(op, "<=") {
        match o {
            NumOrder::NotNumeric => if str_eq(op, ">") {
                str_lt(cv, val)
            } else if str_eq(op, "<") {
                str_lt(val, cv)
            } else if str_eq(op, ">=") {
                !str_lt(val, cv)
            } else {
                !str_lt(cv, val)
            },
            NumOrder::Less => str_eq(op, "<") || str_eq(op, "<="),
            NumOrder::Equal => str_eq(op, "<=") || str_eq(op, ">="),
            NumOrder::Greater => str_eq(op, ">") || str_eq(op, ">="),
            NumOrder::Unordered => false,
        }
    } else {
        false
    }
}

/// How `f` orders two values; `f` is deterministic on the text of its arguments.
pub open spec fn ord_of<F: Fn(&str, &str) -> NumOrder>(f: F, a: Seq<char>, b: Seq<char>) -> NumOrder {
    choose|o: NumOrder| #[trigger] answers(f, a, b, o)
}

/// `f` can answer `o` on two values with the texts `a` and `b`.
pub open spec fn answers<F: Fn(&str, &str) -> NumOrder>(f: F, a: Seq<char>, b: Seq<char>, o: NumOrder) -> bool {
    exists|x: &str, y: &str| x@ == a && y@ == b && #[trigger] call_ensures(f, (x, y), o)
}

/// `f` answers on every pair of values, by their text alone.
pub open spec fn comparator<F: Fn(&str, &str) -> NumOrder>(f: F) -> bool {
    &&& forall|x: &str, y: &str| #[trigger] call_requires(f, (x, y))
    &&& forall|x1: &str, y1: &str, x2: &str, y2: &str, o1: NumOrder, o2: NumOrder|
        x1@ == x2@ && y1@ == y2@ && #[trigger] call_ensures(f, (x1, y1), o1) && #[trigger] call_ensures(
            f,
            (x2, y2),
            o2,
        ) ==> o1 == o2
}

/// The rows of `tv` whose `col` meets `op cv`, in order.
pub open spec fn cond_hits<F: Fn(&str, &str) -> NumOrder>(
    rows: Seq<(Seq<char>, FieldsView)>,
    col: Seq<char>,
    op: Seq<char>,
    cv: Seq<char>,
    f: F,
) -> Seq<(Seq<char>, FieldsView)>
    decreases rows.len(),
{
    if rows.len() == 0 {
        seq![]
    } else {
        let p = cond_hits(rows.drop_last(), col, op, cv, f);
        let row = rows.last().1;
        if has_key(row, col) && cond_holds(op, as_map(row)[col], cv, ord_of(f, as_map(row)[col], cv)) {
            p.push(rows.last())
        } else {
            p
        }
    }
}

/// The rows that a predicate `col op value` selects: none when the
/// predicate is not three words.
pub open spec fn search_hits<F: Fn(&str, &str) -> NumOrder>(
    tv: TableView,
    condition: Seq<char>,
    f: F,
) -> Seq<(Seq<char>, FieldsView)> {
    let w = words(condition);
    if w.len() != 3 {
        seq![]
    } else {
        cond_hits(tv.rows, w[0], w[1], w[2], f)
    }
}

impl Database {
    /// The rows of table `table` whose `column` holds `value`, or the first
    /// of them when `return_many` is false. A lookup on `name` is answered
    /// by the index where it holds the value, and only with rows of this
    /// table; otherwise the rows are scanned, and on `email` the Bloom
    /// filter rules out values it has not seen.
    pub fn find_rows_by_value_in_table(
        &self,
        table: &str,
        column: &str,
        value: &str,
        return_many: bool,
    ) -> (r: Result<Vec<Found>, DatabaseError>)
        requires
            self.wf(),
        ensures
            match r {
                Ok(v) => self.tmap().contains_key(table@) && found_view(v@) == first_or_all(
                    lookup(self, self.tmap()[table@], column@, value@),
                    return_many,
                ),
                Err(e) => !self.tmap().contains_key(table@) && no_table(e, table@),
            },
    {
        let t = match self.get_table(table) {
            Ok(t) => t,
            Err(e) => return Err(e),
        };
        let ghost tv = t@;
        let mut out: Vec<Found> = Vec::new();
        let mut answered = false;
        if str_eq(column, "name") {
            if let Some(idx) = &self.indexer {
                if let Some(ids) = idx.get(value) {
                    answered = true;
                    let mut i: usize = 0;
                    while i < ids.len()
                        invariant
                            tv.wf(),
                            tv == t@,
                            i <= ids@.len(),
                            found_view(out@) == index_hits(views(ids@).take(i as int), tv, column@, value@),
                        decreases ids@.len() - i,
                    {
                        proof {
                            assert(views(ids@).take(i + 1).drop_last() =~= views(ids@).take(i as int));
                            assert(views(ids@).take(i + 1).last() == ids@[i as int]@);
                        }
                        proof {
                            assert(views(ids@).take(i + 1).drop_last() == views(ids@).take(i as int));
                        }
                        let again = listed_before(ids, i);
                        match t.find_row(ids[i].as_str()) {
                            Some(j) => {
                                assert(tv.rows[j as int].1 == fview(t.rows@[j as int].1@));
                                let hit = match get_value(&t.rows[j].1, column) {
                                    Some(v) => str_eq(v.as_str(), value),
                                    None => false,
                                };
                                if hit && !again {
                                let f = copy_fields(&t.rows[j].1);
                                let ghost o0 = out@;
                                out.push((ids[i].clone(), f));
                                proof {
                                    assert(tv.rows[j as int].1 == fview(t.rows@[j as int].1@));
                                    assert(found_view(out@) =~= found_view(o0).push((ids@[i as int]@, tv.rows[j as int].1)));
                                }
                                }
                            },
                            None => {},
                        }
                        i = i + 1;
                    }
                    proof {
                        assert(views(ids@).take(i as int) =~= views(ids@));
                    }
                }
            }
        }
        if !answered {
            let mut i: usize = 0;
            let is_email = str_eq(column, "email");
            while i < t.rows.len()
                invariant
                    tv.wf(),
                    tv == t@,
                    self.wf(),
                    is_email == (column@ == "email"@),
                    i <= tv.rows.len(),
                    found_view(out@) == scan_hits(tv.rows.take(i as int), column@, value@, self.bloom_filter),
                decreases tv.rows.len() - i,
            {
                proof {
                    assert(tv.rows.take(i + 1).drop_last() =~= tv.rows.take(i as int));
                    assert(tv.rows[i as int].1 == fview(t.rows@[i as int].1@));
                }
                let row = &t.rows[i].1;
                let keep = match get_value(row, column) {
                    Some(v) => {
                        let admitted = if is_email {
                            match &self.bloom_filter {
                                Some(b) => b.contains(v.as_str()),
                                None => true,
                            }
                        } else {
                            true
                        };
                        admitted && str_eq(v.as_str(), value)
                    },
                    None => false,
                };
                if keep {
                    let f = copy_fields(row);
                    let ghost o0 = out@;
                    out.push((t.rows[i].0.clone(), f));
                    proof {
                        assert(found_view(out@) =~= found_view(o0).push(tv.rows[i as int]));
                    }
                }
                i = i + 1;
            }
            proof {
                assert(tv.rows.take(i as int) =~= tv.rows);
            }
        }
        if !return_many {
            out.truncate(1);
            proof {
                assert(found_view(out@) =~= first_or_all(lookup(self, tv, column@, value@), false));
            }
        }
        Ok(out)
    }

    /// The rows of table `table` that meet a predicate `column op value`,
    /// with `op` one of `==`, `<`, `<=`, `>`, `>=`. Where `num_cmp` finds
    /// both values numbers they compare as numbers, else as text. A
    /// predicate that is not three words, or has another operator, selects
    /// nothing.
    pub fn search_rows_by_condition_in_table<F: Fn(&str, &str) -> NumOrder>(
        &self,
        table: &str,
        condition: &str,
        num_cmp: F,
    ) -> (r: Result<Vec<Found>, DatabaseError>)
        requires
            self.wf(),
            comparator(num_cmp),
        ensures
            match r {
                Ok(v) => self.tmap().contains_key(table@) && found_view(v@) == search_hits(
                    self.tmap()[table@],
                    condition@,
                    num_cmp,
                ),
                Err(e) => !self.tmap().contains_key(table@) && no_table(e, table@),
            },
    {
        let t = match self.get_table(table) {
            Ok(t) => t,
            Err(e) => return Err(e),
        };
        let ghost tv = t@;
        let parts = split_words(condition);
        let mut out: Vec<Found> = Vec::new();
        if parts.len() != 3 {
            return Ok(out);
        }
        let col = parts[0].as_str();
        let op = parts[1].as_str();
        let cv = parts[2].as_str();
        assert(views(parts@)[0] == col@ && views(parts@)[1] == op@ && views(parts@)[2] == cv@);
        let mut i: usize = 0;
        while i < t.rows.len()
            invariant
                tv.wf(),
                tv == t@,
                comparator(num_cmp),
                i <= tv.rows.len(),
                found_view(out@) == cond_hits(tv.rows.take(i as int), col@, op@, cv@, num_cmp),
            decreases tv.rows.len() - i,
        {
            proof {
                assert(tv.rows.take(i + 1).drop_last() =~= tv.rows.take(i as int));
                assert(tv.rows[i as int].1 == fview(t.rows@[i as int].1@));
            }
            let row = &t.rows[i].1;
            let keep = match get_value(row, col) {
                Some(v) => {
                    let vs = v.as_str();
                    let o = num_cmp(vs, cv);
                    proof {
                        assert(call_ensures(num_cmp, (vs, cv), o));
                        let c = ord_of(num_cmp, v@, cv@);
                        assert(answers(num_cmp, v@, cv@, o));
                        let (x2, y2) = choose|x2: &str, y2: &str| x2@ == v@ && y2@ == cv@ && call_ensures(num_cmp, (x2, y2), c);
                        assert(c == o);
                    }
                    condition_holds(op, vs, cv, o)
                },
                None => false,
            };
            if keep {
                let f = copy_fields(row);
                let ghost o0 = out@;
                out.push((t.rows[i].0.clone(), f));
                proof {
                    assert(found_view(out@) =~= found_view(o0).push(tv.rows[i as int]));
                }
            }
            i = i + 1;
        }
        proof {
            assert(tv.rows.take(i as int) =~= tv.rows);
        }
        Ok(out)
    }
}

} // verus!
