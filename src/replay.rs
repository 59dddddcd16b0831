use vstd::prelude::*;
use crate::codec::{json_object_read, json_string_read, parse_json_object, parse_json_string};
use crate::db::{apply_op, Database, LogOp, Tables};
use crate::fields::has_unique_keys;
use crate::text::{split_at_colon, split_colon, str_eq, views, is_ws, is_whitespace};

verus! {

/// The mutation that a log record states, if it is well formed. Each record
/// is split at its first colons only, so its last field may hold colons.
pub open spec fn parse_record(s: Seq<char>) -> Option<LogOp> {
    match split_colon(s) {
        None => None,
        Some((kind, rest)) => if kind == "create_table"@ {
            Some(LogOp::CreateTable(rest))
        } else if kind == "add_column"@ {
            match split_colon(rest) {
                Some((t, c)) => Some(LogOp::AddColumn(t, c)),
                None => None,
            }
        } else if kind == "insert_row"@ {
            match split_colon(rest) {
                Some((t, r2)) => match split_colon(r2) {
                    Some((id, js)) => match json_object_read(js) {
                        Some(d) => Some(LogOp::InsertRow(t, id, d)),
                        None => None,
                    },
                    None => None,
                },
                None => None,
            }
        } else if kind == "update_row"@ {
            match split_colon(rest) {
                Some((t, r2)) => match split_colon(r2) {
                    Some((id, r3)) => match split_colon(r3) {
                        Some((c, vj)) => Some(
                            LogOp::UpdateRow(
                                t,
                                id,
                                c,
                                match json_string_read(vj) {
                                    Some(v) => v,
                                    None => vj,
                                },
                            ),
                        ),
                        None => None,
                    },
                    None => None,
                },
                None => None,
            }
        } else {
            None
        },
    }
}

/// The effect of one log record; a malformed one is skipped.
pub open spec fn apply_record(m: Tables, rec: Seq<char>) -> Tables {
    match parse_record(rec) {
        Some(op) => apply_op(m, op),
        None => m,
    }
}

/// The effect of a log, record by record in order.
pub open spec fn replay(m: Tables, recs: Seq<Seq<char>>) -> Tables
    decreases recs.len(),
{
    if recs.len() == 0 {
        m
    } else {
        apply_record(replay(m, recs.drop_last()), recs.last())
    }
}

/// A line that holds nothing but whitespace.
pub open spec fn blank(s: Seq<char>) -> bool {
    forall|i: int| 0 <= i < s.len() ==> is_ws(s[i])
}

/// The lines that are not blank, in order.
pub open spec fn kept_lines(lines: Seq<Seq<char>>) -> Seq<Seq<char>> {
    lines.filter(|l: Seq<char>| !blank(l))
}

fn is_blank(s: &str) -> (r: bool)
    ensures
        r == blank(s@),
{
    let n = s.unicode_len();
    let mut i: usize = 0;
    while i < n
        invariant
            n == s@.len(),
            i <= n,
            forall|j: int| 0 <= j < i ==> is_ws(s@[j]),
        decreases n - i,
    {
        if !is_whitespace(s.get_char(i)) {
            return false;
        }
        i = i + 1;
    }
    true
}

impl Database {
    /// Applies one log record to the tables, without logging it again.
    pub fn apply_log_record(&mut self, rec: &str)
        requires
            old(self).wf(),
        ensures
            final(self).wf(),
            final(self).tmap() == apply_record(old(self).tmap(), rec@),
            Database::only_tables(old(self), final(self)),
    {
        let (kind, rest) = match split_at_colon(rec) {
            Some(p) => p,
            None => return,
        };
        if str_eq(kind.as_str(), "create_table") {
            self.do_create(rest.as_str());
        } else if str_eq(kind.as_str(), "add_column") {
            if let Some((t, c)) = split_at_colon(rest.as_str()) {
                self.do_add_column(t.as_str(), c.as_str());
            }
        } else if str_eq(kind.as_str(), "insert_row") {
            if let Some((t, r2)) = split_at_colon(rest.as_str()) {
                if let Some((id, js)) = split_at_colon(r2.as_str()) {
                    if let Some(d) = parse_json_object(js.as_str()) {
                        if has_unique_keys(&d) {
                            let _ = self.do_insert(t.as_str(), id.as_str(), &d);
                        }
                    }
                }
            }
        } else if str_eq(kind.as_str(), "update_row") {
            if let Some((t, r2)) = split_at_colon(rest.as_str()) {
                if let Some((id, r3)) = split_at_colon(r2.as_str()) {
                    if let Some((c, vj)) = split_at_colon(r3.as_str()) {
                        let v = match parse_json_string(vj.as_str()) {
                            Some(v) => v,
                            None => vj,
                        };
                        let _ = self.do_update(t.as_str(), id.as_str(), c.as_str(), v.as_str());
                    }
                }
            }
        }
    }

    /// Replays the in-memory log on the tables, record by record. Creating a
    /// table, adding a column and inserting a row whose id is taken change
    /// nothing where the effect is already there.
    pub fn flush_wal(&mut self) -> (r: Result<(), crate::db::DatabaseError>)
        requires
            old(self).wf(),
        ensures
            final(self).wf(),
            r is Ok,
            final(self).tmap() == replay(old(self).tmap(), old(self).log()),
            Database::only_tables(old(self), final(self)),
    {
        let mut log: Vec<String> = Vec::new();
        std::mem::swap(&mut log, &mut self.wal);
        let ghost a = *old(self);
        let mut i: usize = 0;
        while i < log.len()
            invariant
                self.wf(),
                i <= log@.len(),
                views(log@) == a.log(),
                self.tmap() == replay(a.tmap(), a.log().take(i as int)),
                Database::same_rest(&a, self),
                self.wal@ == Seq::<String>::empty(),
            decreases log@.len() - i,
        {
            proof {
                assert(a.log().take(i + 1).drop_last() =~= a.log().take(i as int));
                assert(a.log()[i as int] == log@[i as int]@);
            }
            self.apply_log_record(log[i].as_str());
            i = i + 1;
        }
        proof {
            assert(a.log().take(i as int) =~= a.log());
        }
        self.wal = log;
        proof {
            assert(self.wal == a.wal);
        }
        Ok(())
    }

    /// Replays the in-memory log on the tables; see `flush_wal`.
    pub fn replay_wal(&mut self) -> (r: Result<(), crate::db::DatabaseError>)
        requires
            old(self).wf(),
        ensures
            final(self).wf(),
            r is Ok,
            final(self).tmap() == replay(old(self).tmap(), old(self).log()),
            Database::only_tables(old(self), final(self)),
    {
        self.flush_wal()
    }

    /// Appends the lines of a working log file to the in-memory log,
    /// skipping blank lines.
    pub fn load_wal(&mut self, lines: Vec<String>)
        requires
            old(self).wf(),
        ensures
            final(self).wf(),
            final(self).log() == old(self).log() + kept_lines(views(lines@)),
            final(self).tables == old(self).tables,
            Database::same_rest(old(self), final(self)),
    {
        let mut i: usize = 0;
        let ghost ls = views(lines@);
        while i < lines.len()
            invariant
                self.wf(),
                i <= lines@.len(),
                ls == views(lines@),
                self.log() == old(self).log() + kept_lines(ls.take(i as int)),
                self.tables == old(self).tables,
                Database::same_rest(old(self), self),
            decreases lines@.len() - i,
        {
            let ghost before = self.log();
            proof {
                let f = |l: Seq<char>| !blank(l);
                assert(ls.take(i + 1) =~= ls.take(i as int).push(ls[i as int]));
                ls.take(i as int).lemma_filter_push(ls[i as int], f);
                assert(ls[i as int] == lines@[i as int]@);
            }
            if !is_blank(lines[i].as_str()) {
                self.wal.push(lines[i].clone());
                assert(self.log() =~= before.push(lines@[i as int]@));
            }
            i = i + 1;
        }
        assert(ls.take(i as int) =~= ls);
    }

    /// Empties the in-memory log.
    pub fn clear_wal(&mut self)
        requires
            old(self).wf(),
        ensures
            final(self).wf(),
            final(self).log() == Seq::<Seq<char>>::empty(),
            final(self).tables == old(self).tables,
            Database::same_rest(old(self), final(self)),
    {
        self.wal.clear();
        assert(self.log() =~= Seq::<Seq<char>>::empty());
    }
}

} // verus!
