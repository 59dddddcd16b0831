use vstd::prelude::*;
use crate::datatype::{is_type_tag, valid_datatype};
use crate::db::{no_table, render, Database, DatabaseError, LogOp};
use crate::fields::{as_map, fview, has_key, keys, lemma_set_entry, set_entry, set_value, unique_keys};
use crate::table::{add_cols, lemma_add_cols_present, TableView};
use crate::text::views;

verus! {

/// The declared types of table `tv`, column to type.
pub open spec fn dt_map(tv: TableView) -> Map<Seq<char>, Seq<char>> {
    match tv.datatypes {
        Some(d) => as_map(d),
        None => Map::empty(),
    }
}

/// `base` with the first `n` columns of `cols` declared with the types of
/// `tys`, in order.
pub open spec fn types_after(
    base: Map<Seq<char>, Seq<char>>,
    cols: Seq<Seq<char>>,
    tys: Seq<Seq<char>>,
    n: int,
) -> Map<Seq<char>, Seq<char>>
    decreases n,
{
    if n <= 0 {
        base
    } else {
        types_after(base, cols, tys, n - 1).insert(cols[n - 1], tys[n - 1])
    }
}

/// The type row that declares the first `n` columns of `cols` with the
/// types of `tys`, in order.
pub open spec fn typed_pairs(cols: Seq<Seq<char>>, tys: Seq<Seq<char>>, n: int) -> Seq<(Seq<char>, Seq<char>)>
    decreases n,
{
    if n <= 0 {
        seq![]
    } else {
        set_entry(typed_pairs(cols, tys, n - 1), cols[n - 1], tys[n - 1])
    }
}

/// The records of adding the columns `cols` to table `t`.
pub open spec fn add_records(t: Seq<char>, cols: Seq<Seq<char>>) -> Seq<Seq<char>> {
    cols.map_values(|c: Seq<char>| render(LogOp::AddColumn(t, c)))
}

/// The records of declaring the types: one insertion of the type row when
/// the table has none, else one update of it per column.
pub open spec fn type_records(t: Seq<char>, cols: Seq<Seq<char>>, tys: Seq<Seq<char>>, had_row: bool) -> Seq<Seq<char>> {
    if had_row {
        Seq::new(cols.len(), |k: int| render(LogOp::UpdateRow(t, "datatypes"@, cols[k], tys[k])))
    } else {
        seq![render(LogOp::InsertRow(t, "datatypes"@, typed_pairs(cols, tys, cols.len() as int)))]
    }
}

impl Database {
    /// Adds the columns `column_names` to table `table` and declares the
    /// type of each, `datatypes` giving the tags in the same order. Every
    /// tag is checked before anything changes. The types are kept in the
    /// table's reserved `datatypes` row, which is inserted (counting as an
    /// insertion towards the save threshold) when the table has none and
    /// updated otherwise.
    pub fn add_columns(
        &mut self,
        table: &str,
        column_names: Vec<String>,
        datatypes: Vec<String>,
    ) -> (r: Result<Vec<Vec<String>>, DatabaseError>)
        requires
            old(self).wf(),
        ensures
            final(self).wf(),
            match r {
                Ok(v) => {
                    let tv0 = old(self).tmap()[table@];
                    let tv = final(self).tmap()[table@];
                    let cn = views(column_names@);
                    let ts = views(datatypes@);
                    let had = tv0.datatypes is Some;
                    &&& column_names@.len() == datatypes@.len()
                    &&& old(self).tmap().contains_key(table@)
                    &&& forall|k: int| 0 <= k < datatypes@.len() ==> is_type_tag(#[trigger] datatypes@[k]@)
                    &&& final(self).tmap().dom() == old(self).tmap().dom()
                    &&& forall|n: Seq<char>| n != table@ && old(self).tmap().contains_key(n) ==> #[trigger] final(self).tmap()[n] == old(self).tmap()[n]
                    &&& tv.rows == tv0.rows
                    &&& tv.saved_rows == tv0.saved_rows
                    &&& tv.columns == add_cols(tv0.columns, cn)
                    &&& tv.datatypes is Some
                    &&& dt_map(tv) == types_after(dt_map(tv0), cn, ts, cn.len() as int)
                    &&& !had ==> tv.datatypes == Some(typed_pairs(cn, ts, cn.len() as int))
                    &&& v@.len() == column_names@.len() + if had { column_names@.len() as int } else { 1int }
                    &&& final(self).wal_writer == old(self).wal_writer
                    &&& final(self).log() == old(self).log() + if old(self).wal_writer is None {
                        add_records(table@, cn) + type_records(table@, cn, ts, had)
                    } else {
                        seq![]
                    }
                    &&& final(self).save_threshold == old(self).save_threshold
                    &&& final(self).wal_file == old(self).wal_file
                    &&& final(self).indexer == old(self).indexer
                    &&& final(self).bloom_filter == old(self).bloom_filter
                    &&& if had || old(self).operations_since_save + 1 < old(self).save_threshold {
                        &&& final(self).operations_since_save == old(self).operations_since_save + if had { 0int } else { 1 }
                        &&& final(self).pending_save == old(self).pending_save
                    } else {
                        &&& final(self).operations_since_save == 0
                        &&& final(self).pending_save matches Some(p) && p@ == table@
                    }
                },
                Err(e) => {
                    &&& *final(self) == *old(self)
                    &&& if column_names@.len() != datatypes@.len() {
                        e is DataTypeError
                    } else if !old(self).tmap().contains_key(table@) {
                        no_table(e, table@)
                    } else {
                        e is InvalidDataType && exists|k: int| 0 <= k < datatypes@.len() && !is_type_tag(#[trigger] datatypes@[k]@)
                    }
                },
            },
    {
        if column_names.len() != datatypes.len() {
            return Err(DatabaseError::DataTypeError);
        }
        if !self.check_table(table) {
            return Err(DatabaseError::TableDoesNotExist(table.to_owned()));
        }
        let n = column_names.len();
        let mut k: usize = 0;
        while k < n
            invariant
                n == datatypes@.len(),
                n == column_names@.len(),
                k <= n,
                self.wf(),
                *self == *old(self),
                self.tmap().contains_key(table@),
                forall|q: int| 0 <= q < k ==> is_type_tag(#[trigger] datatypes@[q]@),
            decreases n - k,
        {
            if !valid_datatype(datatypes[k].as_str()) {
                assert(!is_type_tag(datatypes@[k as int]@));
                return Err(DatabaseError::InvalidDataType);
            }
            k = k + 1;
        }
        let ghost a = *self;
        let ghost tv0 = a.tmap()[table@];
        assert(forall|q: int| 0 <= q < n ==> is_type_tag(#[trigger] datatypes@[q]@));
        let ghost cn = views(column_names@);
        let ghost ts = views(datatypes@);
        let ghost logs = a.wal_writer is None;
        let mut results: Vec<Vec<String>> = Vec::new();
        let mut k: usize = 0;
        proof {
            assert(cn.take(0) =~= Seq::<Seq<char>>::empty());
            assert(add_records(table@, cn.take(0)) =~= Seq::<Seq<char>>::empty());
            assert(a.log() + Seq::<Seq<char>>::empty() =~= a.log());
        }
        while k < n
            invariant
                n == column_names@.len(),
                n == datatypes@.len(),
                cn == views(column_names@),
                k <= n,
                self.wf(),
                self.tmap().dom() == a.tmap().dom(),
                a.tmap().contains_key(table@),
                forall|m: Seq<char>| m != table@ && a.tmap().contains_key(m) ==> #[trigger] self.tmap()[m] == a.tmap()[m],
                self.tmap()[table@] == (TableView { columns: add_cols(tv0.columns, cn.take(k as int)), ..tv0 }),
                forall|q: int| 0 <= q < k ==> self.tmap()[table@].columns.contains(#[trigger] column_names@[q]@),
                results@.len() == k,
                tv0 == a.tmap()[table@],
                logs == (a.wal_writer is None),
                Database::same_rest(&a, self),
                self.log() == a.log() + if logs { add_records(table@, cn.take(k as int)) } else { seq![] },
            decreases n - k,
        {
            let ghost before = self.tmap()[table@];
            let ghost log0 = self.log();
            let res = self.add_column(table, column_names[k].as_str());
            match res {
                Ok(v) => {
                    results.push(v);
                },
                Err(_) => {
                    return Err(DatabaseError::TableDoesNotExist(table.to_owned()));
                },
            }
            proof {
                let after = self.tmap()[table@];
                let c = cn[k as int];
                assert(cn.take(k + 1).drop_last() =~= cn.take(k as int));
                assert(cn.take(k + 1).last() == c);
                assert(after.columns == crate::table::add_col(before.columns, c));
                assert forall|x: Seq<char>| before.columns.contains(x) implies after.columns.contains(x) by {
                    if !before.columns.contains(c) {
                        let j = choose|j: int| 0 <= j < before.columns.len() && before.columns[j] == x;
                        assert(after.columns[j] == x);
                    }
                }
                assert(after.columns.contains(c)) by {
                    if !before.columns.contains(c) {
                        assert(after.columns[before.columns.len() as int] == c);
                    }
                }
                assert(after =~= TableView { columns: add_cols(tv0.columns, cn.take(k + 1)), ..tv0 });
                assert(self.tmap().dom() =~= a.tmap().dom());
                if logs {
                    assert(add_records(table@, cn.take(k + 1)) =~= add_records(table@, cn.take(k as int)).push(render(LogOp::AddColumn(table@, c))));
                    assert(self.log() =~= a.log() + add_records(table@, cn.take(k + 1)));
                }
            }
            k = k + 1;
        }
        proof {
            assert(cn.take(n as int) =~= cn);
        }
        let ghost mid = *self;
        let ghost cols1 = add_cols(tv0.columns, cn);
        if self.has_datatypes_row(table) {
            let mut k: usize = 0;
            proof {
                assert(types_after(dt_map(tv0), cn, ts, 0) == dt_map(tv0));
                assert(type_records(table@, cn, ts, true).take(0) =~= Seq::<Seq<char>>::empty());
                assert(mid.log() + Seq::<Seq<char>>::empty() =~= mid.log());
            }
            while k < n
                invariant
                    n == column_names@.len(),
                    n == datatypes@.len(),
                    cn == views(column_names@),
                    ts == views(datatypes@),
                    k <= n,
                    self.wf(),
                    self.tmap().dom() == a.tmap().dom(),
                    a.tmap().contains_key(table@),
                    forall|m: Seq<char>| m != table@ && a.tmap().contains_key(m) ==> #[trigger] self.tmap()[m] == a.tmap()[m],
                    self.tmap()[table@].rows == tv0.rows,
                    self.tmap()[table@].saved_rows == tv0.saved_rows,
                    self.tmap()[table@].columns == cols1,
                    self.tmap()[table@].datatypes is Some,
                    tv0.datatypes is Some,
                    forall|q: int| 0 <= q < n ==> cols1.contains(#[trigger] column_names@[q]@),
                    dt_map(self.tmap()[table@]) == types_after(dt_map(tv0), cn, ts, k as int),
                    results@.len() == n + k,
                    tv0 == a.tmap()[table@],
                    logs == (a.wal_writer is None),
                    Database::same_rest(&a, self),
                    self.log() == mid.log() + if logs { type_records(table@, cn, ts, true).take(k as int) } else { seq![] },
                decreases n - k,
            {
                let ghost before = self.tmap()[table@];
                let res = self.update_row(table, "datatypes", column_names[k].as_str(), datatypes[k].as_str());
                match res {
                    Ok(v) => {
                        results.push(v);
                    },
                    Err(_) => {
                        return Err(DatabaseError::TableDoesNotExist(table.to_owned()));
                    },
                }
                proof {
                    reveal_strlit("datatypes");
                    let after = self.tmap()[table@];
                    let d0 = before.datatypes->0;
                    lemma_set_entry(d0, cn[k as int], ts[k as int]);
                    assert(after.datatypes == Some(set_entry(d0, cn[k as int], ts[k as int])));
                    assert(cols1.contains(column_names@[k as int]@));
                    assert(after.columns == crate::table::add_col(before.columns, cn[k as int]));
                    assert(self.tmap().dom() =~= a.tmap().dom());
                    if logs {
                        assert(type_records(table@, cn, ts, true).take(k + 1) =~= type_records(table@, cn, ts, true).take(k as int).push(
                            render(LogOp::UpdateRow(table@, "datatypes"@, cn[k as int], ts[k as int]))));
                    }
                }
                k = k + 1;
            }
            proof {
                assert(type_records(table@, cn, ts, true).take(n as int) =~= type_records(table@, cn, ts, true));
                assert(a.log() + add_records(table@, cn) + type_records(table@, cn, ts, true) =~= a.log() + (add_records(table@, cn) + type_records(table@, cn, ts, true)));
                if !logs {
                    assert(a.log() + Seq::<Seq<char>>::empty() =~= a.log());
                }
            }
        } else {
            let mut data: Vec<(String, String)> = Vec::new();
            let mut k: usize = 0;
            proof {
                assert(fview(data@) =~= typed_pairs(cn, ts, 0));
            }
            while k < n
                invariant
                    n == column_names@.len(),
                    n == datatypes@.len(),
                    cn == views(column_names@),
                    ts == views(datatypes@),
                    k <= n,
                    unique_keys(fview(data@)),
                    fview(data@) == typed_pairs(cn, ts, k as int),
                    as_map(fview(data@)) == types_after(Map::empty(), cn, ts, k as int),
                    forall|x: Seq<char>| has_key(fview(data@), x) ==> cols1.contains(x),
                    forall|q: int| 0 <= q < n ==> cols1.contains(#[trigger] column_names@[q]@),
                decreases n - k,
            {
                proof {
                    lemma_set_entry(fview(data@), cn[k as int], ts[k as int]);
                    assert(cols1.contains(column_names@[k as int]@));
                }
                set_value(&mut data, column_names[k].as_str(), datatypes[k].as_str());
                k = k + 1;
            }
            let ghost before = self.tmap()[table@];
            let ghost d = fview(data@);
            let res = self.insert_row(table, "datatypes", data);
            match res {
                Ok(v) => {
                    results.push(v);
                },
                Err(_) => {
                    return Err(DatabaseError::TableDoesNotExist(table.to_owned()));
                },
            }
            proof {
                reveal_strlit("datatypes");
                let after = self.tmap()[table@];
                assert forall|i: int| 0 <= i < keys(d).len() implies cols1.contains(#[trigger] keys(d)[i]) by {
                    assert(has_key(d, d[i].0));
                }
                lemma_add_cols_present(cols1, keys(d));
                assert(self.tmap().dom() =~= a.tmap().dom());
                assert(dt_map(tv0) =~= Map::<Seq<char>, Seq<char>>::empty());
                assert(a.log() + add_records(table@, cn) + type_records(table@, cn, ts, false) =~= a.log() + (add_records(table@, cn) + type_records(table@, cn, ts, false)));
                if !logs {
                    assert(a.log() + Seq::<Seq<char>>::empty() =~= a.log());
                }
            }
        }
        Ok(results)
    }

    /// Whether table `table` has its reserved type row.
    fn has_datatypes_row(&self, table: &str) -> (r: bool)
        requires
            self.wf(),
            self.tmap().contains_key(table@),
        ensures
            r == (self.tmap()[table@].datatypes is Some),
    {
        match self.get_table(table) {
            Ok(t) => t.datatypes.is_some(),
            Err(_) => false,
        }
    }
}

} // verus!
