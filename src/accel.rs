use vstd::prelude::*;
use crate::bloom::{lemma_added_is_present, slot1, slot2, BloomFilter};
use crate::db::{Database, Tables};
use crate::fields::{as_map, get_value, has_key};
use crate::indexer::Indexer;
use crate::table::{lemma_row_pos, FieldsView, TableView};

verus! {

/// Row `row` has column `c` with value `v`.
pub open spec fn holds_value(row: FieldsView, c: Seq<char>, v: Seq<char>) -> bool {
    has_key(row, c) && as_map(row)[c] == v
}

/// The index lists row `id` under value `v`.
pub open spec fn listed(m: Map<Seq<char>, Seq<Seq<char>>>, v: Seq<char>, id: Seq<char>) -> bool {
    m.contains_key(v) && m[v].contains(id)
}

/// Some table of `m` has a user row `id` whose column `c` holds `v`.
pub open spec fn some_row_holds(m: Tables, c: Seq<char>, v: Seq<char>, id: Seq<char>) -> bool {
    exists|n: Seq<char>|
        #![trigger m[n]]
        m.contains_key(n) && m[n].has_row(id) && holds_value(m[n].rows[m[n].row_pos(id)].1, c, v)
}

/// Some table of the list has, before position `(i, j)`, a row `id` whose
/// column `c` holds `v`.
pub open spec fn seen_before(
    l: Seq<(Seq<char>, TableView)>,
    i: int,
    j: int,
    c: Seq<char>,
    v: Seq<char>,
    id: Seq<char>,
) -> bool {
    exists|a: int, k: int|
        #![trigger l[a].1.rows[k]]
        0 <= a < l.len() && 0 <= k < l[a].1.rows.len() && (a < i || (a == i && k < j))
            && l[a].1.rows[k].0 == id && holds_value(l[a].1.rows[k].1, c, v)
}

proof fn lemma_seen_all(db: &Database, c: Seq<char>, v: Seq<char>, id: Seq<char>)
    requires
        db.wf(),
    ensures
        seen_before(db.tlist(), db.tlist().len() as int, 0, c, v, id) <==> some_row_holds(
            db.tmap(),
            c,
            v,
            id,
        ),
{
    let l = db.tlist();
    let m = db.tmap();
    if seen_before(l, l.len() as int, 0, c, v, id) {
        let (a, k) = choose|a: int, k: int|
            #![trigger l[a].1.rows[k]]
            0 <= a < l.len() && 0 <= k < l[a].1.rows.len() && (a < l.len() || (a == l.len() && k < 0))
                && l[a].1.rows[k].0 == id && holds_value(l[a].1.rows[k].1, c, v);
        let n = l[a].0;
        assert(db.has_table(n));
        let p = db.tpos(n);
        assert(l[p].0 == n);
        assert(p == a);
        assert(m[n] == l[a].1);
        lemma_row_pos(l[a].1, k);
        assert(m.contains_key(n));
    }
    if some_row_holds(m, c, v, id) {
        let n = choose|n: Seq<char>|
            #![trigger m[n]]
            m.contains_key(n) && m[n].has_row(id) && holds_value(m[n].rows[m[n].row_pos(id)].1, c, v);
        let a = db.tpos(n);
        let tv = m[n];
        let k = tv.row_pos(id);
        assert(l[a].1.rows[k].0 == id);
    }
}

proof fn lemma_seen_step(l: Seq<(Seq<char>, TableView)>, i: int, j: int, c: Seq<char>, w: Seq<char>, id: Seq<char>)
    requires
        0 <= i < l.len(),
        0 <= j < l[i].1.rows.len(),
    ensures
        seen_before(l, i, j + 1, c, w, id) <==> (seen_before(l, i, j, c, w, id) || (l[i].1.rows[j].0
            == id && holds_value(l[i].1.rows[j].1, c, w))),
{
    if seen_before(l, i, j + 1, c, w, id) && !seen_before(l, i, j, c, w, id) {
        let (a, k) = choose|a: int, k: int|
            #![trigger l[a].1.rows[k]]
            0 <= a < l.len() && 0 <= k < l[a].1.rows.len() && (a < i || (a == i && k < j + 1))
                && l[a].1.rows[k].0 == id && holds_value(l[a].1.rows[k].1, c, w);
        assert(a == i && k == j);
    }
    if seen_before(l, i, j, c, w, id) {
        let (a, k) = choose|a: int, k: int|
            #![trigger l[a].1.rows[k]]
            0 <= a < l.len() && 0 <= k < l[a].1.rows.len() && (a < i || (a == i && k < j))
                && l[a].1.rows[k].0 == id && holds_value(l[a].1.rows[k].1, c, w);
        assert(l[a].1.rows[k].0 == id);
    }
    if l[i].1.rows[j].0 == id && holds_value(l[i].1.rows[j].1, c, w) {
        assert(l[i].1.rows[j].0 == id);
    }
}

proof fn lemma_seen_next_table(l: Seq<(Seq<char>, TableView)>, i: int, c: Seq<char>, w: Seq<char>, id: Seq<char>)
    requires
        0 <= i < l.len(),
    ensures
        seen_before(l, i, l[i].1.rows.len() as int, c, w, id) <==> seen_before(l, i + 1, 0, c, w, id),
{
    let j = l[i].1.rows.len() as int;
    if seen_before(l, i + 1, 0, c, w, id) {
        let (a, k) = choose|a: int, k: int|
            #![trigger l[a].1.rows[k]]
            0 <= a < l.len() && 0 <= k < l[a].1.rows.len() && (a < i + 1 || (a == i + 1 && k < 0))
                && l[a].1.rows[k].0 == id && holds_value(l[a].1.rows[k].1, c, w);
        assert(a < i || (a == i && k < j));
    }
    if seen_before(l, i, j, c, w, id) {
        let (a, k) = choose|a: int, k: int|
            #![trigger l[a].1.rows[k]]
            0 <= a < l.len() && 0 <= k < l[a].1.rows.len() && (a < i || (a == i && k < j))
                && l[a].1.rows[k].0 == id && holds_value(l[a].1.rows[k].1, c, w);
        assert(a < i + 1);
    }
}

proof fn lemma_listed_add(
    m: Map<Seq<char>, Seq<Seq<char>>>,
    m2: Map<Seq<char>, Seq<Seq<char>>>,
    v: Seq<char>,
    rid: Seq<char>,
    w: Seq<char>,
    id: Seq<char>,
)
    requires
        m2 == m.insert(v, if m.contains_key(v) { m[v].push(rid) } else { seq![rid] }),
    ensures
        listed(m2, w, id) <==> (listed(m, w, id) || (w == v && id == rid)),
{
    if w == v {
        let s = if m.contains_key(v) { m[v] } else { seq![] };
        assert(m2[w] == s.push(rid)) by {
            if !m.contains_key(v) {
                assert(seq![rid] =~= Seq::<Seq<char>>::empty().push(rid));
            }
        }
        if s.contains(id) {
            let q = choose|q: int| 0 <= q < s.len() && s[q] == id;
            assert(m2[w][q] == id);
        }
        if m2[w].contains(id) && id != rid {
            let q = choose|q: int| 0 <= q < m2[w].len() && m2[w][q] == id;
            assert(s[q] == id);
        }
        if id == rid {
            assert(m2[w][s.len() as int] == id);
        }
    }
}

/// Value `v` sets bit `b` of a filter of 1000 bits.
pub open spec fn slot_hit(v: Seq<char>, b: int) -> bool {
    slot1(v, 1000) == b || slot2(v, 1000) == b
}

/// Bit `b` is set by an `email` value seen before position `(i, j)`.
pub open spec fn marked(l: Seq<(Seq<char>, TableView)>, i: int, j: int, b: int) -> bool {
    exists|v: Seq<char>, id: Seq<char>| #[trigger] seen_before(l, i, j, "email"@, v, id) && slot_hit(v, b)
}

/// Bit `b` is set by the `email` value of some user row of `m`.
pub open spec fn marked_by(m: Tables, b: int) -> bool {
    exists|v: Seq<char>, id: Seq<char>| #[trigger] some_row_holds(m, "email"@, v, id) && slot_hit(v, b)
}

proof fn lemma_marked_step(l: Seq<(Seq<char>, TableView)>, i: int, j: int, b: int, v0: Option<Seq<char>>)
    requires
        0 <= i < l.len(),
        0 <= j < l[i].1.rows.len(),
        match v0 {
            Some(v) => holds_value(l[i].1.rows[j].1, "email"@, v),
            None => !has_key(l[i].1.rows[j].1, "email"@),
        },
    ensures
        marked(l, i, j + 1, b) <==> (marked(l, i, j, b) || match v0 {
            Some(v) => slot_hit(v, b),
            None => false,
        }),
{
    let id0 = l[i].1.rows[j].0;
    if marked(l, i, j + 1, b) {
        let (v, id) = choose|v: Seq<char>, id: Seq<char>| #[trigger] seen_before(l, i, j + 1, "email"@, v, id) && slot_hit(v, b);
        lemma_seen_step(l, i, j, "email"@, v, id);
        if !seen_before(l, i, j, "email"@, v, id) {
            assert(holds_value(l[i].1.rows[j].1, "email"@, v));
        }
    }
    if marked(l, i, j, b) {
        let (v, id) = choose|v: Seq<char>, id: Seq<char>| #[trigger] seen_before(l, i, j, "email"@, v, id) && slot_hit(v, b);
        lemma_seen_step(l, i, j, "email"@, v, id);
    }
    if let Some(v) = v0 {
        if slot_hit(v, b) {
            lemma_seen_step(l, i, j, "email"@, v, id0);
            assert(seen_before(l, i, j + 1, "email"@, v, id0));
        }
    }
}

impl Database {
    /// Rebuilds the index: for each user row of each table that has a
    /// `name` column, its id is listed under its name.
    pub fn build_indexes(&mut self)
        requires
            old(self).wf(),
        ensures
            final(self).wf(),
            final(self).tables == old(self).tables,
            final(self).bloom_filter == old(self).bloom_filter,
            final(self).indexer is Some,
            forall|v: Seq<char>, id: Seq<char>|
                #[trigger] listed(final(self).indexer->0@, v, id) <==> some_row_holds(
                    old(self).tmap(),
                    "name"@,
                    v,
                    id,
                ),
    {
        let mut idx = Indexer::new();
        let ghost l = self.tlist();
        let mut i: usize = 0;
        while i < self.tables.len()
            invariant
                self.wf(),
                l == self.tlist(),
                i <= l.len(),
                idx.wf(),
                forall|v: Seq<char>, id: Seq<char>|
                    #[trigger] listed(idx@, v, id) <==> seen_before(l, i as int, 0, "name"@, v, id),
            decreases l.len() - i,
        {
            let t = &self.tables[i].1;
            let ghost tv = l[i as int].1;
            assert(tv == t@);
            let mut j: usize = 0;
            while j < t.rows.len()
                invariant
                    self.wf(),
                    l == self.tlist(),
                    i < l.len(),
                    tv == l[i as int].1,
                    tv == t@,
                    j <= tv.rows.len(),
                    idx.wf(),
                    forall|v: Seq<char>, id: Seq<char>|
                        #[trigger] listed(idx@, v, id) <==> seen_before(l, i as int, j as int, "name"@, v, id),
                decreases tv.rows.len() - j,
            {
                let ghost row = tv.rows[j as int];
                assert(row.1 == crate::fields::fview(t.rows@[j as int].1@));
                assert(row.0 == t.rows@[j as int].0@);
                let ghost old_idx = idx@;
                match get_value(&t.rows[j].1, "name") {
                    Some(v) => {
                        idx.add(v.as_str(), t.rows[j].0.as_str());
                        proof {
                            assert forall|w: Seq<char>, id: Seq<char>|
                                #[trigger] listed(idx@, w, id) <==> seen_before(l, i as int, j + 1, "name"@, w, id) by {
                                lemma_listed_add(old_idx, idx@, v@, row.0, w, id);
                                lemma_seen_step(l, i as int, j as int, "name"@, w, id);
                            }
                        }
                    },
                    None => {
                        proof {
                            assert forall|w: Seq<char>, id: Seq<char>|
                                #[trigger] listed(idx@, w, id) <==> seen_before(l, i as int, j + 1, "name"@, w, id) by {
                                lemma_seen_step(l, i as int, j as int, "name"@, w, id);
                            }
                        }
                    },
                }
                j = j + 1;
            }
            proof {
                assert forall|w: Seq<char>, id: Seq<char>|
                    #[trigger] listed(idx@, w, id) <==> seen_before(l, i + 1, 0, "name"@, w, id) by {
                    lemma_seen_next_table(l, i as int, "name"@, w, id);
                }
            }
            i = i + 1;
        }
        proof {
            assert forall|v: Seq<char>, id: Seq<char>|
                #[trigger] listed(idx@, v, id) <==> some_row_holds(self.tmap(), "name"@, v, id) by {
                lemma_seen_all(self, "name"@, v, id);
            }
        }
        self.indexer = Some(idx);
    }

    /// Rebuilds the Bloom filter, of 1000 bits, from the `email` column of
    /// every user row of every table.
    pub fn build_bloom_filter(&mut self)
        requires
            old(self).wf(),
        ensures
            final(self).wf(),
            final(self).tables == old(self).tables,
            final(self).indexer == old(self).indexer,
            final(self).bloom_filter is Some,
            final(self).bloom_filter->0.spec_size() == 1000,
            forall|b: int|
                0 <= b < 1000 ==> (#[trigger] final(self).bloom_filter->0.bits()[b] <==> marked_by(old(self).tmap(), b)),
            forall|v: Seq<char>, id: Seq<char>|
                #[trigger] some_row_holds(old(self).tmap(), "email"@, v, id) ==> final(self).bloom_filter->0.holds(v),
    {
        let mut bf = BloomFilter::new(1000);
        let ghost l = self.tlist();
        let mut i: usize = 0;
        while i < self.tables.len()
            invariant
                self.wf(),
                l == self.tlist(),
                i <= l.len(),
                bf.wf(),
                bf.spec_size() == 1000,
                forall|v: Seq<char>, id: Seq<char>|
                    #[trigger] seen_before(l, i as int, 0, "email"@, v, id) ==> bf.holds(v),
                forall|b: int| 0 <= b < 1000 ==> (#[trigger] bf.bits()[b] <==> marked(l, i as int, 0, b)),
            decreases l.len() - i,
        {
            let t = &self.tables[i].1;
            let ghost tv = l[i as int].1;
            assert(tv == t@);
            let mut j: usize = 0;
            while j < t.rows.len()
                invariant
                    self.wf(),
                    l == self.tlist(),
                    i < l.len(),
                    tv == l[i as int].1,
                    tv == t@,
                    j <= tv.rows.len(),
                    bf.wf(),
                    bf.spec_size() == 1000,
                    forall|v: Seq<char>, id: Seq<char>|
                        #[trigger] seen_before(l, i as int, j as int, "email"@, v, id) ==> bf.holds(v),
                    forall|b: int| 0 <= b < 1000 ==> (#[trigger] bf.bits()[b] <==> marked(l, i as int, j as int, b)),
                decreases tv.rows.len() - j,
            {
                let ghost row = tv.rows[j as int];
                assert(row.1 == crate::fields::fview(t.rows@[j as int].1@));
                let ghost before = bf;
                match get_value(&t.rows[j].1, "email") {
                    Some(v) => {
                        bf.add(v.as_str());
                        proof {
                            assert forall|b: int| 0 <= b < 1000 implies (#[trigger] bf.bits()[b] <==> marked(l, i as int, j + 1, b)) by {
                                lemma_marked_step(l, i as int, j as int, b, Some(v@));
                                assert(before.bits()[b] <==> marked(l, i as int, j as int, b));
                            }
                            assert forall|w: Seq<char>, id: Seq<char>|
                                #[trigger] seen_before(l, i as int, j + 1, "email"@, w, id) implies bf.holds(w) by {
                                if seen_before(l, i as int, j as int, "email"@, w, id) {
                                    lemma_added_is_present(before, bf, w, v@);
                                } else {
                                    let (a, k) = choose|a: int, k: int|
                                        #![trigger l[a].1.rows[k]]
                                        0 <= a < l.len() && 0 <= k < l[a].1.rows.len() && (a < i || (a == i && k < j + 1))
                                            && l[a].1.rows[k].0 == id && holds_value(l[a].1.rows[k].1, "email"@, w);
                                    assert(a == i && k == j);
                                    lemma_added_is_present(before, bf, w, v@);
                                }
                            }
                        }
                    },
                    None => {
                        proof {
                            assert forall|b: int| 0 <= b < 1000 implies (#[trigger] bf.bits()[b] <==> marked(l, i as int, j + 1, b)) by {
                                lemma_marked_step(l, i as int, j as int, b, None);
                            }
                            assert forall|w: Seq<char>, id: Seq<char>|
                                #[trigger] seen_before(l, i as int, j + 1, "email"@, w, id) implies bf.holds(w) by {
                                if !seen_before(l, i as int, j as int, "email"@, w, id) {
                                    let (a, k) = choose|a: int, k: int|
                                        #![trigger l[a].1.rows[k]]
                                        0 <= a < l.len() && 0 <= k < l[a].1.rows.len() && (a < i || (a == i && k < j + 1))
                                            && l[a].1.rows[k].0 == id && holds_value(l[a].1.rows[k].1, "email"@, w);
                                    assert(a == i && k == j);
                                }
                            }
                        }
                    },
                }
                j = j + 1;
            }
            proof {
                assert forall|w: Seq<char>, id: Seq<char>|
                    #[trigger] seen_before(l, i + 1, 0, "email"@, w, id) implies seen_before(l, i as int, j as int, "email"@, w, id) by {
                    let (a, k) = choose|a: int, k: int|
                        #![trigger l[a].1.rows[k]]
                        0 <= a < l.len() && 0 <= k < l[a].1.rows.len() && (a < i + 1 || (a == i + 1 && k < 0))
                            && l[a].1.rows[k].0 == id && holds_value(l[a].1.rows[k].1, "email"@, w);
                    assert(a < i || (a == i && k < j));
                }
                assert forall|b: int| 0 <= b < 1000 implies (#[trigger] bf.bits()[b] <==> marked(l, i + 1, 0, b)) by {
                    if marked(l, i + 1, 0, b) {
                        let (v, id) = choose|v: Seq<char>, id: Seq<char>| #[trigger] seen_before(l, i + 1, 0, "email"@, v, id) && slot_hit(v, b);
                        lemma_seen_next_table(l, i as int, "email"@, v, id);
                    }
                    if marked(l, i as int, j as int, b) {
                        let (v, id) = choose|v: Seq<char>, id: Seq<char>| #[trigger] seen_before(l, i as int, j as int, "email"@, v, id) && slot_hit(v, b);
                        lemma_seen_next_table(l, i as int, "email"@, v, id);
                    }
                }
            }
            i = i + 1;
        }
        proof {
            assert forall|v: Seq<char>, id: Seq<char>|
                #[trigger] some_row_holds(self.tmap(), "email"@, v, id) implies bf.holds(v) by {
                lemma_seen_all(self, "email"@, v, id);
            }
            assert forall|b: int| 0 <= b < 1000 implies (#[trigger] bf.bits()[b] <==> marked_by(self.tmap(), b)) by {
                if marked(l, i as int, 0, b) {
                    let (v, id) = choose|v: Seq<char>, id: Seq<char>| #[trigger] seen_before(l, i as int, 0, "email"@, v, id) && slot_hit(v, b);
                    lemma_seen_all(self, "email"@, v, id);
                }
                if marked_by(self.tmap(), b) {
                    let (v, id) = choose|v: Seq<char>, id: Seq<char>| #[trigger] some_row_holds(self.tmap(), "email"@, v, id) && slot_hit(v, b);
                    lemma_seen_all(self, "email"@, v, id);
                }
            }
        }
        self.bloom_filter = Some(bf);
    }
}

} // verus!
