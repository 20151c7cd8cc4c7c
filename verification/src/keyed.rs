use vstd::prelude::*;
use crate::text::str_eq;

verus! {

/// The character sequences of a sequence of strings.
pub open spec fn views(s: Seq<String>) -> Seq<Seq<char>> {
    s.map_values(|x: String| x@)
}

/// The keys, as character sequences, of a sequence of keyed entries.
pub open spec fn keys<V>(s: Seq<(String, V)>) -> Seq<Seq<char>> {
    s.map_values(|e: (String, V)| e.0@)
}

/// Whether a sequence of strings holds `k`.
pub fn contains_str(v: &Vec<String>, k: &str) -> (r: bool)
    ensures
        r == views(v@).contains(k@),
{
    let mut i: usize = 0;
    while i < v.len()
        invariant
            i <= v.len(),
            forall|j: int| 0 <= j < i ==> v@[j]@ != k@,
        decreases v.len() - i,
    {
        if str_eq(v[i].as_str(), k) {
            assert(views(v@)[i as int] == k@);
            return true;
        }
        i = i + 1;
    }
    proof {
        if views(v@).contains(k@) {
            let j = choose|j: int| 0 <= j < views(v@).len() && views(v@)[j] == k@;
            assert(v@[j]@ == k@);
        }
    }
    false
}

/// The first position whose key is `k`, if any.
pub fn key_position<V>(v: &Vec<(String, V)>, k: &str) -> (r: Option<usize>)
    ensures
        match r {
            Some(i) => i < v.len() && v@[i as int].0@ == k@ && forall|j: int|
                0 <= j < i ==> v@[j].0@ != k@,
            None => !keys(v@).contains(k@),
        },
{
    let mut i: usize = 0;
    while i < v.len()
        invariant
            i <= v.len(),
            forall|j: int| 0 <= j < i ==> v@[j].0@ != k@,
        decreases v.len() - i,
    {
        if str_eq(v[i].0.as_str(), k) {
            return Some(i);
        }
        i = i + 1;
    }
    proof {
        if keys(v@).contains(k@) {
            let j = choose|j: int| 0 <= j < keys(v@).len() && keys(v@)[j] == k@;
            assert(v@[j].0@ == k@);
        }
    }
    None
}

/// Appends `k` to `v` unless `v` already holds it.
pub fn insert_str(v: &mut Vec<String>, k: String)
    ensures
        views(old(v)@).contains(k@) ==> final(v)@ == old(v)@,
        !views(old(v)@).contains(k@) ==> final(v)@ == old(v)@.push(k),
        views(final(v)@).to_set() == views(old(v)@).to_set().insert(k@),
        views(old(v)@).no_duplicates() ==> views(final(v)@).no_duplicates(),
{
    if !contains_str(v, k.as_str()) {
        v.push(k);
        proof {
            assert(views(v@) =~= views(old(v)@).push(k@));
        }
    }
    proof {
        let o = views(old(v)@);
        let n = views(v@);
        assert forall|x: Seq<char>| n.contains(x) <==> (o.contains(x) || x == k@) by {
            if n.contains(x) {
                let j = choose|j: int| 0 <= j < n.len() && n[j] == x;
                if j < o.len() {
                    assert(o[j] == x);
                }
            }
            if o.contains(x) {
                let j = choose|j: int| 0 <= j < o.len() && o[j] == x;
                assert(n[j] == x);
            }
            if x == k@ && !o.contains(x) {
                assert(n[n.len() - 1] == x);
            }
        }
        assert(n.to_set() =~= o.to_set().insert(k@));
    }
}


/// A table from names to lists of names, as mathematical values.
pub type ListTable = Seq<(Seq<char>, Seq<Seq<char>>)>;

/// The views of the entries of a table of string lists.
pub open spec fn table_views(s: Seq<(String, Vec<String>)>) -> ListTable {
    s.map_values(|e: (String, Vec<String>)| (e.0@, views(e.1@)))
}

/// The keys of a table.
pub open spec fn table_keys(t: ListTable) -> Seq<Seq<char>> {
    t.map_values(|e: (Seq<char>, Seq<Seq<char>>)| e.0)
}

/// Whether `k` is a key of the table.
pub open spec fn table_has(t: ListTable, k: Seq<char>) -> bool {
    table_keys(t).contains(k)
}

/// The list stored under `k`, or the empty list if `k` is absent.
pub open spec fn table_get(t: ListTable, k: Seq<char>) -> Seq<Seq<char>> {
    if table_has(t, k) {
        t[table_keys(t).index_of(k)].1
    } else {
        Seq::empty()
    }
}

/// The table with `x` added to the list under `k` (once), creating the entry if needed.
pub open spec fn table_add(t: ListTable, k: Seq<char>, x: Seq<char>) -> ListTable {
    if table_has(t, k) {
        let p = table_keys(t).index_of(k);
        let l = t[p].1;
        t.update(p, (k, if l.contains(x) { l } else { l.push(x) }))
    } else {
        t.push((k, seq![x]))
    }
}

/// The keys of a table of strings are the keys of its view.
pub proof fn lemma_table_keys(s: Seq<(String, Vec<String>)>)
    ensures
        keys(s) == table_keys(table_views(s)),
{
    assert(keys(s) =~= table_keys(table_views(s)));
}

/// With distinct keys, the entry at a position whose key is `k` is the one `table_get` reads.
pub proof fn lemma_table_index(t: ListTable, p: int, k: Seq<char>)
    requires
        table_keys(t).no_duplicates(),
        0 <= p < t.len(),
        t[p].0 == k,
    ensures
        table_has(t, k),
        table_keys(t).index_of(k) == p,
        table_get(t, k) == t[p].1,
{
    assert(table_keys(t)[p] == k);
    let q = table_keys(t).index_of(k);
    assert(table_keys(t)[q] == k);
}

/// Adds `x` to the list stored under `k`, once, creating the entry if needed.
pub fn table_insert(t: &mut Vec<(String, Vec<String>)>, k: &str, x: &str)
    requires
        keys(old(t)@).no_duplicates(),
    ensures
        table_views(final(t)@) == table_add(table_views(old(t)@), k@, x@),
        keys(final(t)@).no_duplicates(),
{
    proof {
        lemma_table_keys(t@);
    }
    let ghost tv = table_views(t@);
    match key_position(t, k) {
        Some(p) => {
            proof {
                lemma_table_index(tv, p as int, k@);
            }
            let ghost before = t@;
            let mut entry = t.remove(p);
            insert_str(&mut entry.1, x.to_string());
            t.insert(p, entry);
            proof {
                assert(t@ =~= before.update(p as int, t@[p as int]));
                assert(t@[p as int].0@ == k@);
                assert(tv[p as int].1 == views(before[p as int].1@));
                let l = tv[p as int].1;
                if l.contains(x@) {
                    assert(views(t@[p as int].1@) == l);
                } else {
                    assert(views(t@[p as int].1@) =~= l.push(x@));
                }
                assert(table_views(t@) =~= table_add(tv, k@, x@));
                lemma_table_keys(t@);
                assert(table_keys(table_views(t@)) =~= table_keys(tv));
            }
        },
        None => {
            let mut l: Vec<String> = Vec::new();
            l.push(x.to_string());
            t.push((k.to_string(), l));
            proof {
                assert(views(l@) =~= seq![x@]);
                assert(table_views(t@) =~= tv.push((k@, seq![x@])));
                lemma_table_keys(t@);
                assert(table_keys(table_views(t@)) =~= table_keys(tv).push(k@));
            }
        },
    }
}


/// Reading a table after `table_add`: only the list under the added key changes, and it
/// gains `x` if it lacked it. Keys stay distinct.
pub proof fn lemma_table_add(t: ListTable, k: Seq<char>, x: Seq<char>, k2: Seq<char>)
    requires
        table_keys(t).no_duplicates(),
    ensures
        table_keys(table_add(t, k, x)).no_duplicates(),
        table_has(table_add(t, k, x), k2) == (table_has(t, k2) || k2 == k),
        table_get(table_add(t, k, x), k2) == if k2 == k {
            if table_get(t, k).contains(x) { table_get(t, k) } else { table_get(t, k).push(x) }
        } else {
            table_get(t, k2)
        },
{
    let n = table_add(t, k, x);
    if table_has(t, k) {
        let p = table_keys(t).index_of(k);
        assert(table_keys(t)[p] == k);
        assert(table_keys(n) =~= table_keys(t));
        assert(n[p].0 == k);
        lemma_table_index(n, p, k);
        lemma_table_index(t, p, k);
        if k2 != k && table_has(t, k2) {
            let q = table_keys(t).index_of(k2);
            assert(table_keys(t)[q] == k2);
            lemma_table_index(t, q, k2);
            lemma_table_index(n, q, k2);
        }
    } else {
        assert(table_keys(n) =~= table_keys(t).push(k));
        assert(n[t.len() as int].0 == k);
        lemma_table_index(n, t.len() as int, k);
        if k2 != k && table_has(t, k2) {
            let q = table_keys(t).index_of(k2);
            assert(table_keys(t)[q] == k2);
            lemma_table_index(t, q, k2);
            assert(n[q] == t[q]);
            lemma_table_index(n, q, k2);
        }
        if k2 != k && table_has(n, k2) {
            let q = table_keys(n).index_of(k2);
            assert(table_keys(n)[q] == k2);
            assert(q < t.len());
            assert(table_keys(t)[q] == k2);
        }
    }
}


/// The views of a sequence of keyed values.
pub open spec fn kv_views<V: View>(s: Seq<(String, V)>) -> Seq<(Seq<char>, V::V)> {
    s.map_values(|e: (String, V)| (e.0@, e.1@))
}

/// The keys of a sequence of keyed values.
pub open spec fn kv_keys<W>(t: Seq<(Seq<char>, W)>) -> Seq<Seq<char>> {
    t.map_values(|e: (Seq<char>, W)| e.0)
}

/// Whether `k` is a key.
pub open spec fn kv_has<W>(t: Seq<(Seq<char>, W)>, k: Seq<char>) -> bool {
    kv_keys(t).contains(k)
}

/// The value stored under `k` (meaningless if `k` is absent).
pub open spec fn kv_get<W>(t: Seq<(Seq<char>, W)>, k: Seq<char>) -> W {
    t[kv_keys(t).index_of(k)].1
}

/// The sequence with `w` stored under `k`: replacing the old value, or appended if `k` was
/// absent.
pub open spec fn kv_put<W>(t: Seq<(Seq<char>, W)>, k: Seq<char>, w: W) -> Seq<(Seq<char>, W)> {
    if kv_has(t, k) {
        t.update(kv_keys(t).index_of(k), (k, w))
    } else {
        t.push((k, w))
    }
}

/// The keys of a keyed sequence are the keys of its view.
pub proof fn lemma_kv_keys<V: View>(s: Seq<(String, V)>)
    ensures
        keys(s) == kv_keys(kv_views(s)),
{
    assert(keys(s) =~= kv_keys(kv_views(s)));
}

/// With distinct keys, the entry at a position whose key is `k` is the one `kv_get` reads.
pub proof fn lemma_kv_index<W>(t: Seq<(Seq<char>, W)>, p: int, k: Seq<char>)
    requires
        kv_keys(t).no_duplicates(),
        0 <= p < t.len(),
        t[p].0 == k,
    ensures
        kv_has(t, k),
        kv_keys(t).index_of(k) == p,
        kv_get(t, k) == t[p].1,
{
    assert(kv_keys(t)[p] == k);
    let q = kv_keys(t).index_of(k);
    assert(kv_keys(t)[q] == k);
}

/// Reading after `kv_put`: only the value under `k` changes. Keys stay distinct.
pub proof fn lemma_kv_put<W>(t: Seq<(Seq<char>, W)>, k: Seq<char>, w: W, k2: Seq<char>)
    requires
        kv_keys(t).no_duplicates(),
    ensures
        kv_keys(kv_put(t, k, w)).no_duplicates(),
        kv_has(kv_put(t, k, w), k2) == (kv_has(t, k2) || k2 == k),
        k2 == k ==> kv_get(kv_put(t, k, w), k2) == w,
        k2 != k && kv_has(t, k2) ==> kv_get(kv_put(t, k, w), k2) == kv_get(t, k2),
{
    let n = kv_put(t, k, w);
    if kv_has(t, k) {
        let p = kv_keys(t).index_of(k);
        assert(kv_keys(t)[p] == k);
        assert(kv_keys(n) =~= kv_keys(t));
        lemma_kv_index(n, p, k);
        if k2 != k && kv_has(t, k2) {
            let q = kv_keys(t).index_of(k2);
            assert(kv_keys(t)[q] == k2);
            lemma_kv_index(t, q, k2);
            lemma_kv_index(n, q, k2);
        }
    } else {
        assert(kv_keys(n) =~= kv_keys(t).push(k));
        lemma_kv_index(n, t.len() as int, k);
        if k2 != k && kv_has(t, k2) {
            let q = kv_keys(t).index_of(k2);
            assert(kv_keys(t)[q] == k2);
            lemma_kv_index(t, q, k2);
            lemma_kv_index(n, q, k2);
        }
        if k2 != k && kv_has(n, k2) {
            let q = kv_keys(n).index_of(k2);
            assert(kv_keys(n)[q] == k2);
            assert(q < t.len());
            assert(kv_keys(t)[q] == k2);
        }
    }
}

/// Stores `v` under `k`, replacing any value stored there.
pub fn kv_insert<V: View>(t: &mut Vec<(String, V)>, k: String, v: V)
    requires
        keys(old(t)@).no_duplicates(),
    ensures
        kv_views(final(t)@) == kv_put(kv_views(old(t)@), k@, v@),
        keys(final(t)@).no_duplicates(),
{
    proof {
        lemma_kv_keys(t@);
    }
    let ghost tv = kv_views(t@);
    match key_position(t, k.as_str()) {
        Some(p) => {
            proof {
                lemma_kv_index(tv, p as int, k@);
            }
            t.set(p, (k, v));
            proof {
                assert(kv_views(t@) =~= kv_put(tv, k@, v@));
            }
        },
        None => {
            t.push((k, v));
            proof {
                assert(kv_views(t@) =~= tv.push((k@, v@)));
            }
        },
    }
    proof {
        lemma_kv_keys(t@);
        lemma_kv_put(tv, k@, v@, k@);
    }
}

} // verus!
