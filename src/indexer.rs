use vstd::prelude::*;
use crate::text::{str_eq, views};

verus! {

/// An inverted index from a value to the ids of the rows that hold it.
pub struct Indexer {
    pub index: Vec<(String, Vec<String>)>,
}

impl Indexer {
    pub open spec fn key_at(&self, i: int) -> Seq<char> {
        self.index@[i].0@
    }

    pub open spec fn has(&self, k: Seq<char>) -> bool {
        exists|i: int| 0 <= i < self.index@.len() && self.key_at(i) == k
    }

    pub open spec fn pos(&self, k: Seq<char>) -> int {
        choose|i: int| 0 <= i < self.index@.len() && self.key_at(i) == k
    }

    /// Each value appears in one entry only.
    pub open spec fn wf(&self) -> bool {
        forall|i: int, j: int|
            0 <= i < self.index@.len() && 0 <= j < self.index@.len() && self.key_at(i)
                == self.key_at(j) ==> i == j
    }
}

impl View for Indexer {
    type V = Map<Seq<char>, Seq<Seq<char>>>;

    open spec fn view(&self) -> Map<Seq<char>, Seq<Seq<char>>> {
        Map::new(|k: Seq<char>| self.has(k), |k: Seq<char>| views(self.index@[self.pos(k)].1@))
    }
}

impl Indexer {
    pub fn new() -> (r: Self)
        ensures
            r.wf(),
            r@ == Map::<Seq<char>, Seq<Seq<char>>>::empty(),
    {
        let r = Indexer { index: Vec::new() };
        assert(r@ =~= Map::<Seq<char>, Seq<Seq<char>>>::empty());
        r
    }

    fn find(&self, key: &str) -> (r: Option<usize>)
        requires
            self.wf(),
        ensures
            match r {
                Some(i) => i < self.index@.len() && self.key_at(i as int) == key@ && self.pos(key@)
                    == i && self.has(key@),
                None => !self.has(key@),
            },
    {
        let mut i: usize = 0;
        while i < self.index.len()
            invariant
                self.wf(),
                i <= self.index@.len(),
                forall|j: int| 0 <= j < i ==> self.key_at(j) != key@,
            decreases self.index@.len() - i,
        {
            if str_eq(self.index[i].0.as_str(), key) {
                assert(self.key_at(i as int) == key@);
                assert(self.has(key@));
                return Some(i);
            }
            i = i + 1;
        }
        None
    }

    /// Records that row `row_id` holds the value `key`.
    pub fn add(&mut self, key: &str, row_id: &str)
        requires
            old(self).wf(),
        ensures
            final(self).wf(),
            final(self)@ == old(self)@.insert(
                key@,
                if old(self)@.contains_key(key@) {
                    old(self)@[key@].push(row_id@)
                } else {
                    seq![row_id@]
                },
            ),
    {
        let ghost before = *self;
        match self.find(key) {
            Some(i) => {
                let mut entry = (String::new(), Vec::new());
                std::mem::swap(&mut entry, &mut self.index[i]);
                entry.1.push(row_id.to_owned());
                self.index.set(i, entry);
                proof {
                    assert forall|j: int| 0 <= j < self.index@.len() implies self.key_at(j) == before.key_at(j) by {
                        if j != i {
                            assert(self.index@[j] == before.index@[j]);
                        }
                    }
                    assert forall|a: int, b: int|
                        0 <= a < self.index@.len() && 0 <= b < self.index@.len() && self.key_at(a)
                            == self.key_at(b) implies a == b by {
                        assert(before.key_at(a) == before.key_at(b));
                    }
                    assert(views(self.index@[i as int].1@) =~= views(before.index@[i as int].1@).push(row_id@));
                    assert forall|k: Seq<char>| #[trigger] self@.contains_key(k) == before@.insert(key@, before@[key@].push(row_id@)).contains_key(k) && (self@.contains_key(k) ==> self@[k] == before@.insert(key@, before@[key@].push(row_id@))[k]) by {
                        if self.has(k) {
                            let j = self.pos(k);
                            assert(before.key_at(j) == k);
                            assert(before.pos(k) == j);
                        }
                        if before.has(k) {
                            let j = before.pos(k);
                            assert(self.key_at(j) == k);
                        }
                    }
                    assert(self@ =~= before@.insert(key@, before@[key@].push(row_id@)));
                }
            },
            None => {
                let mut ids: Vec<String> = Vec::new();
                ids.push(row_id.to_owned());
                self.index.push((key.to_owned(), ids));
                proof {
                    let n = before.index@.len() as int;
                    assert(views(self.index@[n].1@) =~= seq![row_id@]);
                    assert forall|i: int, j: int|
                        0 <= i < self.index@.len() && 0 <= j < self.index@.len() && self.key_at(i)
                            == self.key_at(j) implies i == j by {
                        if i < n && j < n {
                            assert(before.key_at(i) == self.key_at(i));
                            assert(before.key_at(j) == self.key_at(j));
                        } else if i < n {
                            assert(before.key_at(i) == key@);
                        } else if j < n {
                            assert(before.key_at(j) == key@);
                        }
                    }
                    assert forall|k: Seq<char>| #[trigger] self@.contains_key(k) == before@.insert(key@, seq![row_id@]).contains_key(k) && (self@.contains_key(k) ==> self@[k] == before@.insert(key@, seq![row_id@])[k]) by {
                        if self.has(k) {
                            let j = self.pos(k);
                            if j < n {
                                assert(before.key_at(j) == k);
                                assert(before.pos(k) == j);
                            } else {
                                assert(k == key@);
                            }
                        }
                        if before.has(k) {
                            let j = before.pos(k);
                            assert(self.key_at(j) == k);
                        }
                        if k == key@ {
                            assert(self.key_at(n) == k);
                        }
                    }
                    assert(self@ =~= before@.insert(key@, seq![row_id@]));
                }
            },
        }
    }

    /// The ids of the rows that hold the value `key`.
    pub fn get(&self, key: &str) -> (r: Option<&Vec<String>>)
        requires
            self.wf(),
        ensures
            match r {
                Some(v) => self@.contains_key(key@) && views(v@) == self@[key@],
                None => !self@.contains_key(key@),
            },
    {
        match self.find(key) {
            Some(i) => Some(&self.index[i].1),
            None => None,
        }
    }
}

} // verus!
