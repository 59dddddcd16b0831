use vstd::prelude::*;
use crate::text::str_eq;

verus! {

/// The text view of a list of `(column, value)` pairs.
pub open spec fn fview(f: Seq<(String, String)>) -> Seq<(Seq<char>, Seq<char>)> {
    f.map_values(|p: (String, String)| (p.0@, p.1@))
}

pub open spec fn has_key(f: Seq<(Seq<char>, Seq<char>)>, k: Seq<char>) -> bool {
    exists|i: int| 0 <= i < f.len() && f[i].0 == k
}

/// No column appears twice.
pub open spec fn unique_keys(f: Seq<(Seq<char>, Seq<char>)>) -> bool {
    forall|i: int, j: int| 0 <= i < f.len() && 0 <= j < f.len() && f[i].0 == f[j].0 ==> i == j
}

/// The position of column `k` in `f`.
pub open spec fn key_pos(f: Seq<(Seq<char>, Seq<char>)>, k: Seq<char>) -> int {
    choose|i: int| 0 <= i < f.len() && f[i].0 == k
}

/// The map from column to value that a list of pairs with unique columns denotes.
pub open spec fn as_map(f: Seq<(Seq<char>, Seq<char>)>) -> Map<Seq<char>, Seq<char>> {
    Map::new(|k: Seq<char>| has_key(f, k), |k: Seq<char>| f[key_pos(f, k)].1)
}

/// The columns of `f`, in order.
pub open spec fn keys(f: Seq<(Seq<char>, Seq<char>)>) -> Seq<Seq<char>> {
    f.map_values(|p: (Seq<char>, Seq<char>)| p.0)
}

pub proof fn lemma_key_pos(f: Seq<(Seq<char>, Seq<char>)>, i: int)
    requires
        unique_keys(f),
        0 <= i < f.len(),
    ensures
        key_pos(f, f[i].0) == i,
        as_map(f).contains_key(f[i].0),
        as_map(f)[f[i].0] == f[i].1,
{
    assert(has_key(f, f[i].0));
}

/// Appending a pair with a new column adds that column to the map.
pub proof fn lemma_push_new_key(f: Seq<(Seq<char>, Seq<char>)>, k: Seq<char>, v: Seq<char>)
    requires
        unique_keys(f),
        !has_key(f, k),
    ensures
        unique_keys(f.push((k, v))),
        as_map(f.push((k, v))) == as_map(f).insert(k, v),
{
    let g = f.push((k, v));
    assert forall|x: Seq<char>| #[trigger] as_map(g).contains_key(x) implies as_map(f).insert(k, v).contains_key(x) && as_map(g)[x] == as_map(f).insert(k, v)[x] by {
        let i = key_pos(g, x);
        if x == k {
            lemma_key_pos(g, f.len() as int);
        } else {
            assert(i < f.len());
            assert(g[i] == f[i]);
            lemma_key_pos(f, i);
            lemma_key_pos(g, i);
        }
    }
    assert forall|x: Seq<char>| #[trigger] as_map(f).insert(k, v).contains_key(x) implies as_map(g).contains_key(x) by {
        if x != k {
            let i = key_pos(f, x);
            assert(g[i] == f[i]);
        } else {
            assert(g[f.len() as int].0 == k);
        }
    }
    assert(as_map(g) =~= as_map(f).insert(k, v));
}

/// Setting the value at the position of an existing column updates the map.
pub proof fn lemma_update_key(f: Seq<(Seq<char>, Seq<char>)>, i: int, v: Seq<char>)
    requires
        unique_keys(f),
        0 <= i < f.len(),
    ensures
        unique_keys(f.update(i, (f[i].0, v))),
        as_map(f.update(i, (f[i].0, v))) == as_map(f).insert(f[i].0, v),
        keys(f.update(i, (f[i].0, v))) == keys(f),
{
    let k = f[i].0;
    let g = f.update(i, (k, v));
    assert forall|x: Seq<char>| #[trigger] as_map(g).contains_key(x) implies as_map(f).insert(k, v).contains_key(x) && as_map(g)[x] == as_map(f).insert(k, v)[x] by {
        let j = key_pos(g, x);
        lemma_key_pos(g, j);
        if j != i {
            lemma_key_pos(f, j);
        }
    }
    assert forall|x: Seq<char>| #[trigger] as_map(f).insert(k, v).contains_key(x) implies as_map(g).contains_key(x) by {
        if x != k {
            let j = key_pos(f, x);
            assert(g[j].0 == x);
        } else {
            assert(g[i].0 == k);
        }
    }
    assert(as_map(g) =~= as_map(f).insert(k, v));
    assert(keys(g) =~= keys(f));
}

/// `f` with column `k` set to `v`: in place when the column is there, appended otherwise.
pub open spec fn set_entry(f: Seq<(Seq<char>, Seq<char>)>, k: Seq<char>, v: Seq<char>) -> Seq<
    (Seq<char>, Seq<char>),
> {
    if has_key(f, k) {
        f.update(key_pos(f, k), (k, v))
    } else {
        f.push((k, v))
    }
}

/// Setting a column keeps the columns unique and sets it in the map.
pub proof fn lemma_set_entry(f: Seq<(Seq<char>, Seq<char>)>, k: Seq<char>, v: Seq<char>)
    requires
        unique_keys(f),
    ensures
        unique_keys(set_entry(f, k, v)),
        as_map(set_entry(f, k, v)) == as_map(f).insert(k, v),
        forall|x: Seq<char>| has_key(set_entry(f, k, v), x) <==> (has_key(f, x) || x == k),
{
    if has_key(f, k) {
        let i = key_pos(f, k);
        lemma_update_key(f, i, v);
        let g = set_entry(f, k, v);
        assert forall|x: Seq<char>| has_key(g, x) <==> (has_key(f, x) || x == k) by {
            if has_key(g, x) {
                let j = choose|j: int| 0 <= j < g.len() && g[j].0 == x;
                assert(f[j].0 == x);
            }
            if has_key(f, x) {
                let j = choose|j: int| 0 <= j < f.len() && f[j].0 == x;
                assert(g[j].0 == x);
            }
        }
    } else {
        lemma_push_new_key(f, k, v);
        let g = set_entry(f, k, v);
        assert forall|x: Seq<char>| has_key(g, x) <==> (has_key(f, x) || x == k) by {
            if has_key(g, x) {
                let j = choose|j: int| 0 <= j < g.len() && g[j].0 == x;
                if j < f.len() {
                    assert(f[j].0 == x);
                }
            }
            if has_key(f, x) {
                let j = choose|j: int| 0 <= j < f.len() && f[j].0 == x;
                assert(g[j].0 == x);
            }
            if x == k {
                assert(g[f.len() as int].0 == x);
            }
        }
    }
}

/// The position of column `k` in `f`, if it is there.
pub fn find_key(f: &Vec<(String, String)>, k: &str) -> (r: Option<usize>)
    ensures
        match r {
            Some(i) => i < f@.len() && fview(f@)[i as int].0 == k@,
            None => !has_key(fview(f@), k@),
        },
{
    let mut i: usize = 0;
    while i < f.len()
        invariant
            i <= f@.len(),
            forall|j: int| 0 <= j < i ==> fview(f@)[j].0 != k@,
        decreases f@.len() - i,
    {
        if str_eq(f[i].0.as_str(), k) {
            return Some(i);
        }
        i = i + 1;
    }
    None
}

/// The value of column `k` in `f`, if it is there.
pub fn get_value(f: &Vec<(String, String)>, k: &str) -> (r: Option<String>)
    requires
        unique_keys(fview(f@)),
    ensures
        match r {
            Some(v) => as_map(fview(f@)).contains_key(k@) && as_map(fview(f@))[k@] == v@,
            None => !as_map(fview(f@)).contains_key(k@),
        },
{
    match find_key(f, k) {
        Some(i) => {
            proof {
                lemma_key_pos(fview(f@), i as int);
            }
            Some(f[i].1.clone())
        },
        None => None,
    }
}

/// A copy of the pairs of `f`.
pub fn copy_fields(f: &Vec<(String, String)>) -> (r: Vec<(String, String)>)
    ensures
        fview(r@) == fview(f@),
{
    let mut r: Vec<(String, String)> = Vec::new();
    let mut i: usize = 0;
    while i < f.len()
        invariant
            i <= f@.len(),
            fview(r@) == fview(f@).take(i as int),
        decreases f@.len() - i,
    {
        let p = (f[i].0.clone(), f[i].1.clone());
        let ghost r0 = r@;
        r.push(p);
        proof {
            assert(r@ == r0.push(p));
            assert(fview(r@) =~= fview(r0).push((p.0@, p.1@)));
            assert(fview(r@) =~= fview(f@).take(i + 1));
        }
        i = i + 1;
    }
    assert(fview(f@).take(i as int) =~= fview(f@));
    r
}

/// Sets column `k` of `f` to `v`, in place when the column is there and
/// appended otherwise.
pub fn set_value(f: &mut Vec<(String, String)>, k: &str, v: &str)
    requires
        unique_keys(fview(old(f)@)),
    ensures
        fview(final(f)@) == set_entry(fview(old(f)@), k@, v@),
{
    match find_key(f, k) {
        Some(i) => {
            let key = f[i].0.clone();
            proof {
                lemma_key_pos(fview(f@), i as int);
            }
            f.set(i, (key, v.to_owned()));
            proof {
                assert(fview(f@) =~= fview(old(f)@).update(i as int, (k@, v@)));
            }
        },
        None => {
            f.push((k.to_owned(), v.to_owned()));
            proof {
                assert(fview(f@) =~= fview(old(f)@).push((k@, v@)));
            }
        },
    }
}

/// Whether no column appears twice in `f`.
pub fn has_unique_keys(f: &Vec<(String, String)>) -> (r: bool)
    ensures
        r == unique_keys(fview(f@)),
{
    let mut i: usize = 0;
    while i < f.len()
        invariant
            i <= f@.len(),
            forall|a: int, b: int|
                0 <= a < i && 0 <= b < f@.len() && fview(f@)[a].0 == fview(f@)[b].0 ==> a == b,
        decreases f@.len() - i,
    {
        let mut j: usize = 0;
        while j < f.len()
            invariant
                i < f@.len(),
                j <= f@.len(),
                forall|a: int, b: int|
                    0 <= a < i && 0 <= b < f@.len() && fview(f@)[a].0 == fview(f@)[b].0 ==> a
                        == b,
                forall|b: int| 0 <= b < j && fview(f@)[i as int].0 == fview(f@)[b].0 ==> b == i,
            decreases f@.len() - j,
        {
            if j != i && str_eq(f[i].0.as_str(), f[j].0.as_str()) {
                assert(fview(f@)[i as int].0 == fview(f@)[j as int].0);
                return false;
            }
            j = j + 1;
        }
        i = i + 1;
    }
    true
}

} // verus!
