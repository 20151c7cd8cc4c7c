use vstd::prelude::*;
use vstd::set_lib::{lemma_set_disjoint_lens, lemma_len_subset};
use crate::keyed::{
    contains_str, insert_str, key_position, keys, lemma_table_index, lemma_table_keys, table_add,
    table_get, table_has, table_insert, table_keys, table_views, views, ListTable,
};

verus! {

broadcast use vstd::string::group_string_axioms;

/// Anti-entropy: agents compare the murmur ids they hold and exchange what the other lacks,
/// until all hold the same ids.
#[derive(Debug, Clone)]
pub struct AntiEntropy {
    /// For each agent, the murmur ids it holds.
    pub agent_states: Vec<(String, Vec<String>)>,
}

/// The ids held by the agent at position `p`, as a set.
pub open spec fn held(t: ListTable, p: int) -> Set<Seq<char>> {
    t[p].1.to_set()
}

/// Whether all agents hold the same ids.
pub open spec fn all_same(t: ListTable) -> bool {
    forall|p: int, q: int| 0 <= p < t.len() && 0 <= q < t.len() ==> #[trigger] held(t, p) == #[trigger] held(t, q)
}

/// Pushing `x` adds exactly `x` to what a sequence contains.
pub proof fn lemma_push_contains<A>(s: Seq<A>, x: A, y: A)
    ensures
        s.push(x).contains(y) <==> (s.contains(y) || y == x),
{
    if s.contains(y) {
        let k = choose|k: int| 0 <= k < s.len() && s[k] == y;
        assert(s.push(x)[k] == y);
    }
    if y == x {
        assert(s.push(x)[s.len() as int] == y);
    }
    if s.push(x).contains(y) {
        let k = choose|k: int| 0 <= k < s.push(x).len() && s.push(x)[k] == y;
        if k < s.len() {
            assert(s[k] == y);
        }
    }
}

/// The elements of `a` missing from `b`, each once, in the order of `a`.
fn missing_from(a: &Vec<String>, b: &Vec<String>) -> (r: Vec<String>)
    ensures
        views(r@).no_duplicates(),
        views(r@).to_set() == views(a@).to_set().difference(views(b@).to_set()),
{
    let mut r: Vec<String> = Vec::new();
    let mut i: usize = 0;
    while i < a.len()
        invariant
            i <= a.len(),
            views(r@).no_duplicates(),
            forall|y: Seq<char>|
                #[trigger] views(r@).contains(y) <==> (views(a@).take(i as int).contains(y) && !views(b@).contains(y)),
        decreases a.len() - i,
    {
        let x = &a[i];
        let ghost prev = views(r@);
        let ghost ta = views(a@).take(i as int);
        assert(views(a@).take(i + 1) =~= ta.push(x@));
        if !contains_str(b, x.as_str()) && !contains_str(&r, x.as_str()) {
            r.push(x.clone());
            proof {
                assert(views(r@) =~= prev.push(x@));
            }
        }
        proof {
            assert forall|y: Seq<char>| #[trigger] views(r@).contains(y) <==> (views(a@).take(i + 1).contains(y) && !views(b@).contains(y)) by {
                lemma_push_contains(ta, x@, y);
                lemma_push_contains(prev, x@, y);
                assert(prev.contains(y) <==> (ta.contains(y) && !views(b@).contains(y)));
            }
        }
        i = i + 1;
    }
    assert(views(a@).take(a.len() as int) =~= views(a@));
    assert(views(r@).to_set() =~= views(a@).to_set().difference(views(b@).to_set()));
    r
}

/// Appends to `list` each element of `items` that it lacks.
fn append_missing(list: &mut Vec<String>, items: &Vec<String>)
    ensures
        views(final(list)@).to_set() == views(old(list)@).to_set().union(views(items@).to_set()),
        views(items@).no_duplicates() && views(items@).to_set().disjoint(views(old(list)@).to_set())
            ==> views(final(list)@) == views(old(list)@) + views(items@),
{
    let ghost start = views(list@);
    let mut i: usize = 0;
    while i < items.len()
        invariant
            i <= items.len(),
            forall|y: Seq<char>|
                #[trigger] views(list@).contains(y) <==> (start.contains(y) || views(items@).take(i as int).contains(y)),
            views(items@).no_duplicates() && views(items@).to_set().disjoint(start.to_set())
                ==> views(list@) == start + views(items@).take(i as int),
        decreases items.len() - i,
    {
        let ghost prev = views(list@);
        let ghost ti = views(items@).take(i as int);
        let x = &items[i];
        assert(views(items@).take(i + 1) =~= ti.push(x@));
        if !contains_str(list, x.as_str()) {
            list.push(x.clone());
            proof {
                assert(views(list@) =~= prev.push(x@));
                if views(items@).no_duplicates() && views(items@).to_set().disjoint(start.to_set()) {
                    assert(views(list@) =~= start + views(items@).take(i + 1));
                }
            }
        } else {
            proof {
                if views(items@).no_duplicates() && views(items@).to_set().disjoint(start.to_set()) {
                    assert(start.contains(x@) || ti.contains(x@));
                    if start.contains(x@) {
                        assert(views(items@)[i as int] == x@);
                        assert(views(items@).to_set().contains(x@));
                        assert(start.to_set().contains(x@));
                    } else {
                        let k = choose|k: int| 0 <= k < ti.len() && ti[k] == x@;
                        assert(views(items@)[k] == views(items@)[i as int]);
                    }
                }
            }
        }
        proof {
            assert forall|y: Seq<char>| #[trigger] views(list@).contains(y) <==> (start.contains(y) || views(items@).take(i + 1).contains(y)) by {
                lemma_push_contains(ti, x@, y);
                lemma_push_contains(prev, x@, y);
                assert(prev.contains(y) <==> (start.contains(y) || ti.contains(y)));
            }
        }
        i = i + 1;
    }
    assert(views(items@).take(items.len() as int) =~= views(items@));
    assert(views(list@).to_set() =~= start.to_set().union(views(items@).to_set()));
}


/// The ids held by the first `k` agents together.
pub open spec fn union_upto(t: ListTable, k: int) -> Set<Seq<char>>
    decreases k,
{
    if k <= 0 {
        Set::empty()
    } else {
        union_upto(t, k - 1).union(held(t, k - 1))
    }
}

/// The ids held by some agent.
pub open spec fn union_all(t: ListTable) -> Set<Seq<char>> {
    union_upto(t, t.len() as int)
}

/// How many distinct ids the first `k` agents hold, added up over the agents.
pub open spec fn size_sum(t: ListTable, k: int) -> nat
    decreases k,
{
    if k <= 0 {
        0
    } else {
        size_sum(t, k - 1) + held(t, k - 1).len()
    }
}

/// How many ids must be handed over until every agent holds every id: for each agent, the
/// number of ids held somewhere that it lacks, added up.
pub open spec fn exchange_total(t: ListTable) -> int {
    t.len() * union_all(t).len() - size_sum(t, t.len() as int)
}

/// `after` is `before` followed by ids that `before` lacks, each once.
pub open spec fn grows_by_new(before: Seq<Seq<char>>, after: Seq<Seq<char>>) -> bool {
    &&& before.len() <= after.len()
    &&& after.take(before.len() as int) == before
    &&& after.skip(before.len() as int).no_duplicates()
    &&& after.skip(before.len() as int).to_set().disjoint(before.to_set())
}

/// Appending ids that a list lacks, each once, keeps it grown by new ids only.
proof fn lemma_grows_extend(before: Seq<Seq<char>>, mid: Seq<Seq<char>>, extra: Seq<Seq<char>>)
    requires
        grows_by_new(before, mid),
        extra.no_duplicates(),
        extra.to_set().disjoint(mid.to_set()),
    ensures
        grows_by_new(before, mid + extra),
{
    let l = before.len() as int;
    let after = mid + extra;
    assert(after.take(l) =~= mid.take(l));
    assert(after.skip(l) =~= mid.skip(l) + extra);
    let ms = mid.skip(l);
    assert forall|x: int, y: int| 0 <= x < y < after.skip(l).len() implies after.skip(l)[x] != after.skip(l)[y] by {
        if y >= ms.len() && x < ms.len() {
            assert(mid.contains(ms[x])) by {
                assert(mid[l + x] == ms[x]);
            }
            assert(extra.to_set().contains(extra[y - ms.len()]));
        }
    }
    assert forall|z: Seq<char>| after.skip(l).to_set().contains(z) implies !before.to_set().contains(z) by {
        let w = choose|w: int| 0 <= w < after.skip(l).len() && after.skip(l)[w] == z;
        if w < ms.len() {
            assert(ms.to_set().contains(z));
        } else {
            assert(extra.to_set().contains(z));
            assert(before.contains(z) ==> mid.contains(z)) by {
                if before.contains(z) {
                    let v = choose|v: int| 0 <= v < before.len() && before[v] == z;
                    assert(mid.take(l)[v] == z);
                    assert(mid[v] == z);
                }
            }
        }
    }
}

/// A list grown by new ids only, that holds `u` and held part of it before, is its old self
/// followed by the ids of `u` it lacked, each once.
proof fn lemma_grows_final(before: Seq<Seq<char>>, after: Seq<Seq<char>>, u: Set<Seq<char>>)
    requires
        grows_by_new(before, after),
        after.to_set() == u,
    ensures
        after.skip(before.len() as int).to_set() == u.difference(before.to_set()),
{
    let l = before.len() as int;
    assert(after =~= before + after.skip(l));
    assert forall|z: Seq<char>| after.skip(l).to_set().contains(z) <==> u.difference(before.to_set()).contains(z) by {
        if after.skip(l).to_set().contains(z) {
            let w = choose|w: int| 0 <= w < after.skip(l).len() && after.skip(l)[w] == z;
            assert(after[l + w] == z);
        }
        if u.difference(before.to_set()).contains(z) {
            let w = choose|w: int| 0 <= w < after.len() && after[w] == z;
            if w < l {
                assert(before[w] == z);
            } else {
                assert(after.skip(l)[w - l] == z);
            }
        }
    }
    assert(after.skip(l).to_set() =~= u.difference(before.to_set()));
}

proof fn lemma_union_len(a: Set<Seq<char>>, b: Set<Seq<char>>)
    requires
        a.finite(),
        b.finite(),
    ensures
        a.union(b).finite(),
        a.union(b).len() == a.len() + b.difference(a).len(),
{
    assert(a.union(b) =~= a + b.difference(a));
    lemma_len_subset(b.difference(a), b);
    lemma_set_disjoint_lens(a, b.difference(a));
}

proof fn lemma_union_upto(t: ListTable, k: int)
    requires
        0 <= k <= t.len(),
    ensures
        union_upto(t, k).finite(),
        forall|p: int| 0 <= p < k ==> #[trigger] held(t, p).subset_of(union_upto(t, k)),
        forall|x: Seq<char>| #[trigger] union_upto(t, k).contains(x) ==> exists|p: int| 0 <= p < k && #[trigger] held(t, p).contains(x),
    decreases k,
{
    if k > 0 {
        lemma_union_upto(t, k - 1);
        assert(held(t, k - 1).finite());
        assert forall|p: int| 0 <= p < k implies #[trigger] held(t, p).subset_of(union_upto(t, k)) by {
            if p < k - 1 {
                assert(held(t, p).subset_of(union_upto(t, k - 1)));
            }
        }
        assert forall|x: Seq<char>| #[trigger] union_upto(t, k).contains(x) implies exists|p: int| 0 <= p < k && #[trigger] held(t, p).contains(x) by {
            if !held(t, k - 1).contains(x) {
                assert(union_upto(t, k - 1).contains(x));
            }
        }
    }
}

proof fn lemma_size_sum_update(t: ListTable, p: int, e: (Seq<char>, Seq<Seq<char>>), k: int)
    requires
        0 <= p < t.len(),
        0 <= k <= t.len(),
    ensures
        size_sum(t.update(p, e), k) == size_sum(t, k) + if p < k { e.1.to_set().len() - held(t, p).len() } else { 0 },
    decreases k,
{
    if k > 0 {
        lemma_size_sum_update(t, p, e, k - 1);
        assert(held(t.update(p, e), k - 1) == if k - 1 == p { e.1.to_set() } else { held(t, k - 1) });
    }
}

proof fn lemma_size_sum_bound(t: ListTable, u: Set<Seq<char>>, k: int)
    requires
        0 <= k <= t.len(),
        u.finite(),
        forall|p: int| 0 <= p < k ==> #[trigger] held(t, p).subset_of(u),
    ensures
        size_sum(t, k) <= k * u.len(),
    decreases k,
{
    if k > 0 {
        lemma_size_sum_bound(t, u, k - 1);
        lemma_len_subset(held(t, k - 1), u);
        assert((k - 1) * u.len() + u.len() == k * u.len()) by (nonlinear_arith);
    }
}

proof fn lemma_size_sum_full(t: ListTable, u: Set<Seq<char>>, k: int)
    requires
        0 <= k <= t.len(),
        forall|p: int| 0 <= p < k ==> #[trigger] held(t, p) == u,
    ensures
        size_sum(t, k) == k * u.len(),
    decreases k,
{
    if k > 0 {
        lemma_size_sum_full(t, u, k - 1);
        assert((k - 1) * u.len() + u.len() == k * u.len()) by (nonlinear_arith);
    } else {
        assert(k * u.len() == 0) by (nonlinear_arith)
            requires
                k == 0,
        ;
    }
}

/// One exchange between distinct agents `i` and `j`: both end up holding the union of what
/// they held, the others are untouched, and the added-up sizes grow by what was handed over.
proof fn lemma_sync_step(t: ListTable, i: int, j: int, ab: Seq<Seq<char>>, ba: Seq<Seq<char>>)
    requires
        0 <= i < t.len(),
        0 <= j < t.len(),
        i != j,
        ab.no_duplicates(),
        ab.to_set() == held(t, i).difference(held(t, j)),
        ba.no_duplicates(),
        ba.to_set() == held(t, j).difference(held(t, i)),
        held(synced(t, i, j, ab, ba), i) == held(t, i).union(held(t, j)),
        held(synced(t, i, j, ab, ba), j) == held(t, i).union(held(t, j)),
    ensures
        synced(t, i, j, ab, ba).len() == t.len(),
        table_keys(synced(t, i, j, ab, ba)) == table_keys(t),
        forall|q: int| 0 <= q < t.len() && q != i && q != j ==> #[trigger] held(synced(t, i, j, ab, ba), q) == held(t, q),
        size_sum(synced(t, i, j, ab, ba), t.len() as int) == size_sum(t, t.len() as int) + ab.len() + ba.len(),
{
    let a = held(t, i);
    let b = held(t, j);
    let t1 = t.update(j, (t[j].0, t[j].1 + ab));
    let t2 = t1.update(i, (t[i].0, t[i].1 + ba));
    assert(synced(t, i, j, ab, ba) == t2);
    assert(table_keys(t2) =~= table_keys(t));
    ab.unique_seq_to_set();
    ba.unique_seq_to_set();
    lemma_union_len(a, b);
    lemma_union_len(b, a);
    assert(a.union(b) == b.union(a));
    assert(held(t1, j) == held(t2, j));
    lemma_size_sum_update(t, j, (t[j].0, t[j].1 + ab), t.len() as int);
    lemma_size_sum_update(t1, i, (t[i].0, t[i].1 + ba), t.len() as int);
    assert(held(t1, i) == a);
}

impl View for AntiEntropy {
    type V = ListTable;

    open spec fn view(&self) -> ListTable {
        table_views(self.agent_states@)
    }
}

/// The table after agents `pa` and `pb` exchanged: `pb` appends `ab`, then `pa` appends `ba`.
pub open spec fn synced(t: ListTable, pa: int, pb: int, ab: Seq<Seq<char>>, ba: Seq<Seq<char>>) -> ListTable {
    if pa == pb {
        t
    } else {
        t.update(pb, (t[pb].0, t[pb].1 + ab)).update(pa, (t[pa].0, t[pa].1 + ba))
    }
}

impl AntiEntropy {
    /// One empty state for each distinct id of `agent_ids`.
    pub fn new(agent_ids: &[String]) -> (r: Self)
        ensures
            table_keys(r@).no_duplicates(),
            forall|x: Seq<char>| #[trigger] table_has(r@, x) <==> views(agent_ids@).contains(x),
            forall|p: int| 0 <= p < r@.len() ==> #[trigger] r@[p].1 == Seq::<Seq<char>>::empty(),
    {
        let mut states: Vec<(String, Vec<String>)> = Vec::new();
        let mut i: usize = 0;
        while i < agent_ids.len()
            invariant
                i <= agent_ids.len(),
                keys(states@).no_duplicates(),
                forall|x: Seq<char>| #[trigger] keys(states@).contains(x) <==> views(agent_ids@).take(i as int).contains(x),
                forall|p: int| 0 <= p < states.len() ==> #[trigger] states@[p].1@.len() == 0,
            decreases agent_ids.len() - i,
        {
            let id = &agent_ids[i];
            let ghost prev = keys(states@);
            let ghost ti = views(agent_ids@).take(i as int);
            assert(views(agent_ids@).take(i + 1) =~= ti.push(id@));
            match key_position(&states, id.as_str()) {
                Some(p) => {
                    assert(prev[p as int] == id@);
                },
                None => {
                    states.push((id.clone(), Vec::new()));
                    proof {
                        assert(keys(states@) =~= prev.push(id@));
                    }
                },
            }
            proof {
                assert forall|x: Seq<char>| #[trigger] keys(states@).contains(x) <==> views(agent_ids@).take(i + 1).contains(x) by {
                    lemma_push_contains(ti, id@, x);
                    lemma_push_contains(prev, id@, x);
                }
            }
            i = i + 1;
        }
        assert(views(agent_ids@).take(agent_ids.len() as int) =~= views(agent_ids@));
        let r = AntiEntropy { agent_states: states };
        proof {
            lemma_table_keys(states@);
            assert forall|p: int| 0 <= p < r@.len() implies #[trigger] r@[p].1 == Seq::<Seq<char>>::empty() by {
                assert(r@[p].1 =~= Seq::<Seq<char>>::empty());
            }
        }
        r
    }

    /// Adds murmur `murmur_id` to the state of `agent`, once; nothing happens if `agent` is
    /// unknown.
    pub fn add_murmur(&mut self, agent: &str, murmur_id: &str)
        requires
            table_keys(old(self)@).no_duplicates(),
        ensures
            final(self)@ == if table_has(old(self)@, agent@) {
                table_add(old(self)@, agent@, murmur_id@)
            } else {
                old(self)@
            },
            table_keys(final(self)@).no_duplicates(),
    {
        proof {
            lemma_table_keys(self.agent_states@);
        }
        match key_position(&self.agent_states, agent) {
            Some(p) => {
                assert(keys(self.agent_states@)[p as int] == agent@);
                assert(table_has(self@, agent@));
                table_insert(&mut self.agent_states, agent, murmur_id);
                proof {
                    lemma_table_keys(self.agent_states@);
                }
            },
            None => {
                assert(!table_has(self@, agent@));
            },
        }
    }

    /// Syncs agents `a` and `b`: returns the ids that `a` gives to `b` (those `b` lacks) and
    /// those `b` gives to `a`, each once; `b` appends the first list and `a` the second, so
    /// that afterwards both hold the union of what they held.
    pub fn sync_pair(&mut self, a: &str, b: &str) -> (r: (Vec<String>, Vec<String>))
        requires
            table_keys(old(self)@).no_duplicates(),
            table_has(old(self)@, a@),
            table_has(old(self)@, b@),
        ensures
            ({
                let t = old(self)@;
                let pa = table_keys(t).index_of(a@);
                let pb = table_keys(t).index_of(b@);
                &&& views(r.0@).no_duplicates()
                &&& views(r.0@).to_set() == held(t, pa).difference(held(t, pb))
                &&& views(r.1@).no_duplicates()
                &&& views(r.1@).to_set() == held(t, pb).difference(held(t, pa))
                &&& final(self)@ == synced(t, pa, pb, views(r.0@), views(r.1@))
                &&& held(final(self)@, pa) == held(t, pa).union(held(t, pb))
                &&& held(final(self)@, pb) == held(t, pa).union(held(t, pb))
            }),
            table_keys(final(self)@) == table_keys(old(self)@),
    {
        let ghost t = self@;
        proof {
            lemma_table_keys(self.agent_states@);
        }
        let pa = match key_position(&self.agent_states, a) {
            Some(p) => p,
            None => {
                proof { assert(false); }
                0
            },
        };
        let pb = match key_position(&self.agent_states, b) {
            Some(p) => p,
            None => {
                proof { assert(false); }
                0
            },
        };
        proof {
            lemma_table_index(t, pa as int, a@);
            lemma_table_index(t, pb as int, b@);
        }
        let ab = missing_from(&self.agent_states[pa].1, &self.agent_states[pb].1);
        let ba = missing_from(&self.agent_states[pb].1, &self.agent_states[pa].1);
        let ghost sa = views(self.agent_states@[pa as int].1@);
        let ghost sb = views(self.agent_states@[pb as int].1@);
        assert(sa == t[pa as int].1 && sb == t[pb as int].1);
        if pa == pb {
            proof {
                assert(views(ab@).to_set() =~= Set::empty());
                assert(views(ba@).to_set() =~= Set::empty());
                views(ab@).lemma_cardinality_of_empty_set_is_0();
                views(ba@).lemma_cardinality_of_empty_set_is_0();
                assert(views(ab@) =~= Seq::<Seq<char>>::empty());
                assert(views(ba@) =~= Seq::<Seq<char>>::empty());
                assert(held(t, pa as int).union(held(t, pb as int)) =~= held(t, pa as int));
            }
            return (ab, ba);
        }
        append_missing(&mut self.agent_states[pb].1, &ab);
        append_missing(&mut self.agent_states[pa].1, &ba);
        proof {
            assert(views(ab@).to_set().disjoint(sb.to_set()));
            assert(views(ba@).to_set().disjoint(sa.to_set()));
            let f = self@;
            assert(f =~= synced(t, pa as int, pb as int, views(ab@), views(ba@)));
            assert(held(f, pa as int) =~= held(t, pa as int).union(held(t, pb as int)));
            assert(held(f, pb as int) =~= held(t, pa as int).union(held(t, pb as int)));
            assert(table_keys(f) =~= table_keys(t));
        }
        (ab, ba)
    }

    /// Syncs every pair of agents, each once, and returns how many ids were handed over in
    /// all. Afterwards every agent holds every id that some agent held.
    pub fn full_sync(&mut self) -> (r: usize)
        requires
            table_keys(old(self)@).no_duplicates(),
            exchange_total(old(self)@) <= usize::MAX,
        ensures
            table_keys(final(self)@) == table_keys(old(self)@),
            forall|p: int| 0 <= p < final(self)@.len() ==> #[trigger] held(final(self)@, p) == union_all(old(self)@),
            all_same(final(self)@),
            r == exchange_total(old(self)@),
            forall|p: int|
                0 <= p < final(self)@.len() ==> #[trigger] grows_by_new(old(self)@[p].1, final(self)@[p].1)
                    && final(self)@[p].1.skip(old(self)@[p].1.len() as int).to_set() == union_all(old(self)@).difference(held(old(self)@, p)),
            all_same(old(self)@) ==> final(self)@ == old(self)@,
    {
        let ghost t0 = self@;
        let ghost u = union_all(t0);
        let n = self.agent_states.len();
        proof {
            lemma_union_upto(t0, n as int);
            lemma_size_sum_bound(t0, u, n as int);
        }
        let mut total: usize = 0;
        let mut i: usize = 0;
        proof {
            assert forall|p: int| 0 <= p < n implies #[trigger] grows_by_new(t0[p].1, self@[p].1) by {
                let l = t0[p].1.len() as int;
                assert(t0[p].1.take(l) =~= t0[p].1);
                assert(t0[p].1.skip(l) =~= Seq::<Seq<char>>::empty());
                assert(t0[p].1.skip(l).to_set() =~= Set::<Seq<char>>::empty());
            }
        }
        while i < n
            invariant
                i <= n,
                n == t0.len(),
                self@.len() == n,
                u == union_all(t0),
                u.finite(),
                exchange_total(t0) <= usize::MAX,
                table_keys(self@) == table_keys(t0),
                table_keys(t0).no_duplicates(),
                forall|p: int| 0 <= p < n ==> #[trigger] held(self@, p).subset_of(u),
                forall|p: int| 0 <= p < i ==> #[trigger] held(self@, p) == u,
                i >= 1 ==> held(self@, n - 1) == u,
                i == 0 ==> forall|p: int| 0 <= p < n ==> #[trigger] held(self@, p) == held(t0, p),
                total + size_sum(t0, n as int) == size_sum(self@, n as int),
                forall|p: int| 0 <= p < n ==> #[trigger] grows_by_new(t0[p].1, self@[p].1),
            decreases n - i,
        {
            let mut j: usize = i + 1;
            proof {
                if i == 0 {
                    assert(union_upto(t0, 0) == Set::<Seq<char>>::empty());
                    assert(held(self@, 0) == held(t0, 0));
                    assert(held(self@, 0) =~= union_upto(t0, 1));
                }
            }
            while j < n
                invariant
                    i < n,
                    i + 1 <= j <= n,
                    n == t0.len(),
                    self@.len() == n,
                    u == union_all(t0),
                    u.finite(),
                    exchange_total(t0) <= usize::MAX,
                    table_keys(self@) == table_keys(t0),
                    table_keys(t0).no_duplicates(),
                    forall|p: int| 0 <= p < n ==> #[trigger] held(self@, p).subset_of(u),
                    forall|p: int| 0 <= p < i ==> #[trigger] held(self@, p) == u,
                    i >= 1 ==> held(self@, n - 1) == u,
                    i == 0 ==> held(self@, 0) == union_upto(t0, j as int),
                    i == 0 && j >= 2 ==> held(self@, j - 1) == union_upto(t0, j as int),
                    i == 0 ==> forall|q: int| j <= q < n ==> #[trigger] held(self@, q) == held(t0, q),
                    j == n && i + 1 < n ==> held(self@, i as int) == u,
                    total + size_sum(t0, n as int) == size_sum(self@, n as int),
                    forall|p: int| 0 <= p < n ==> #[trigger] grows_by_new(t0[p].1, self@[p].1),
                decreases n - j,
            {
                let ghost t = self@;
                let ka = self.agent_states[i].0.clone();
                let kb = self.agent_states[j].0.clone();
                proof {
                    lemma_table_keys(self.agent_states@);
                    assert(t[i as int].0 == ka@);
                    assert(t[j as int].0 == kb@);
                    lemma_table_index(t, i as int, ka@);
                    lemma_table_index(t, j as int, kb@);
                }
                let (ab, ba) = self.sync_pair(ka.as_str(), kb.as_str());
                proof {
                    lemma_sync_step(t, i as int, j as int, views(ab@), views(ba@));
                    let t2 = self@;
                    assert forall|p: int| 0 <= p < n implies #[trigger] grows_by_new(t0[p].1, t2[p].1) by {
                        assert(grows_by_new(t0[p].1, t[p].1));
                        if p == j as int {
                            assert(t2[p].1 == t[p].1 + views(ab@));
                            assert(views(ab@).to_set().disjoint(t[p].1.to_set()));
                            lemma_grows_extend(t0[p].1, t[p].1, views(ab@));
                        } else if p == i as int {
                            assert(t2[p].1 == t[p].1 + views(ba@));
                            assert(views(ba@).to_set().disjoint(t[p].1.to_set()));
                            lemma_grows_extend(t0[p].1, t[p].1, views(ba@));
                        } else {
                            assert(t2[p] == t[p]);
                        }
                    }
                    let a = held(t, i as int);
                    let b = held(t, j as int);
                    assert(held(t, i as int).subset_of(u));
                    assert(held(t, j as int).subset_of(u));
                    assert(a.union(b).subset_of(u));
                    lemma_size_sum_bound(t2, u, n as int);
                    if i == 0 {
                        assert(union_upto(t0, j + 1) == union_upto(t0, j as int).union(held(t0, j as int)));
                    }
                    if i >= 1 && j + 1 == n {
                        assert(b == u);
                        assert(a.union(b) =~= u);
                    }
                    if i >= 1 && j + 1 < n {
                        assert(held(t2, n - 1) == held(t, n - 1));
                    }
                    assert forall|p: int| 0 <= p < n implies #[trigger] held(t2, p).subset_of(u) by {
                        if p != i && p != j {
                            assert(held(t2, p) == held(t, p));
                        }
                    }
                    assert forall|p: int| 0 <= p < i implies #[trigger] held(t2, p) == u by {
                        assert(held(t2, p) == held(t, p));
                    }
                    if i == 0 {
                        assert forall|q: int| j + 1 <= q < n implies #[trigger] held(t2, q) == held(t0, q) by {
                            assert(held(t2, q) == held(t, q));
                        }
                    }
                    if i == 0 && j + 1 == n {
                        assert(held(t2, i as int) == union_upto(t0, n as int));
                    }
                }
                total = total + ab.len() + ba.len();
                j = j + 1;
            }
            proof {
                if i == 0 {
                    assert(held(self@, 0) == u);
                    if n >= 2 {
                    } else {
                        assert(n - 1 == 0);
                    }
                } else if i + 1 == n {
                    assert(held(self@, i as int) == u);
                }
            }
            i = i + 1;
        }
        proof {
            lemma_size_sum_full(self@, u, n as int);
            assert forall|p: int| 0 <= p < self@.len() implies #[trigger] grows_by_new(t0[p].1, self@[p].1)
                && self@[p].1.skip(t0[p].1.len() as int).to_set() == u.difference(held(t0, p)) by {
                assert(held(self@, p) == u);
                lemma_grows_final(t0[p].1, self@[p].1, u);
            }
            if all_same(t0) {
                lemma_union_upto(t0, n as int);
                assert forall|p: int| 0 <= p < n implies #[trigger] self@[p] == t0[p] by {
                    assert forall|x: Seq<char>| u.contains(x) implies held(t0, p).contains(x) by {
                        let q = choose|q: int| 0 <= q < n && #[trigger] held(t0, q).contains(x);
                        assert(held(t0, q) == held(t0, p));
                    }
                    let l = t0[p].1.len() as int;
                    assert(grows_by_new(t0[p].1, self@[p].1));
                    let sk = self@[p].1.skip(l);
                    assert(sk.to_set() == u.difference(held(t0, p)));
                    if sk.len() > 0 {
                        assert(sk.to_set().contains(sk[0]));
                        assert(held(t0, p).subset_of(u));
                    }
                    assert(self@[p].1 =~= self@[p].1.take(l) + sk);
                    assert(self@[p].1 =~= t0[p].1);
                    assert(table_keys(self@)[p] == table_keys(t0)[p]);
                }
                assert(self@ =~= t0);
            }
        }
        total
    }

    /// Whether all agents hold the same ids.
    pub fn is_converged(&self) -> (r: bool)
        ensures
            r == all_same(self@),
    {
        let n = self.agent_states.len();
        if n <= 1 {
            return true;
        }
        let mut p: usize = 1;
        while p < n
            invariant
                1 <= p <= n,
                n == self@.len(),
                forall|q: int| 0 <= q < p ==> #[trigger] held(self@, q) == held(self@, 0),
            decreases n - p,
        {
            if !same_set(&self.agent_states[0].1, &self.agent_states[p].1) {
                assert(held(self@, 0) != held(self@, p as int));
                return false;
            }
            p = p + 1;
        }
        true
    }
}

/// A finite subset of `b` as large as `b` is `b` itself.
proof fn lemma_subset_same_len(a: Set<Seq<char>>, b: Set<Seq<char>>)
    requires
        b.finite(),
        a.subset_of(b),
        a.len() == b.len(),
    ensures
        a == b,
{
    if exists|x: Seq<char>| b.contains(x) && !a.contains(x) {
        let x = choose|x: Seq<char>| b.contains(x) && !a.contains(x);
        assert(a.subset_of(b.remove(x)));
        lemma_len_subset(a, b.remove(x));
    }
    assert(a =~= b);
}

/// When every held set lies within `u` and the sizes add up to `k * |u|`, every one of the
/// first `k` agents holds all of `u`.
proof fn lemma_size_sum_tight(t: ListTable, u: Set<Seq<char>>, k: int)
    requires
        0 <= k <= t.len(),
        u.finite(),
        forall|p: int| 0 <= p < k ==> #[trigger] held(t, p).subset_of(u),
        size_sum(t, k) == k * u.len(),
    ensures
        forall|p: int| 0 <= p < k ==> #[trigger] held(t, p) == u,
    decreases k,
{
    if k > 0 {
        lemma_size_sum_bound(t, u, k - 1);
        lemma_len_subset(held(t, k - 1), u);
        assert((k - 1) * u.len() + u.len() == k * u.len()) by (nonlinear_arith);
        lemma_size_sum_tight(t, u, k - 1);
        lemma_subset_same_len(held(t, k - 1), u);
    }
}

/// Anti-entropy is idle exactly on agreement: a full sync hands over nothing if and only if
/// all agents already hold the same ids.
pub proof fn law_sync_idle_iff_converged(t: ListTable)
    ensures
        exchange_total(t) == 0 <==> all_same(t),
{
    let n = t.len() as int;
    let u = union_all(t);
    lemma_union_upto(t, n);
    if all_same(t) {
        assert forall|p: int| 0 <= p < n implies #[trigger] held(t, p) == u by {
            assert forall|x: Seq<char>| u.contains(x) implies held(t, p).contains(x) by {
                let q = choose|q: int| 0 <= q < n && #[trigger] held(t, q).contains(x);
                assert(held(t, q) == held(t, p));
            }
            assert(held(t, p).subset_of(u));
            assert(held(t, p) =~= u);
        }
        lemma_size_sum_full(t, u, n);
    }
    if exchange_total(t) == 0 {
        lemma_size_sum_tight(t, u, n);
        assert forall|p: int, q: int| 0 <= p < n && 0 <= q < n implies #[trigger] held(t, p) == #[trigger] held(t, q) by {
            assert(held(t, p) == u);
            assert(held(t, q) == u);
        }
    }
}

/// Whether two lists hold the same strings, ignoring order and repetition.
fn same_set(a: &Vec<String>, b: &Vec<String>) -> (r: bool)
    ensures
        r == (views(a@).to_set() == views(b@).to_set()),
{
    let mut i: usize = 0;
    while i < a.len()
        invariant
            i <= a.len(),
            forall|k: int| 0 <= k < i ==> views(b@).contains(#[trigger] views(a@)[k]),
        decreases a.len() - i,
    {
        if !contains_str(b, a[i].as_str()) {
            proof {
                assert(views(a@).to_set().contains(views(a@)[i as int]));
            }
            return false;
        }
        i = i + 1;
    }
    let mut j: usize = 0;
    while j < b.len()
        invariant
            j <= b.len(),
            forall|k: int| 0 <= k < a.len() ==> views(b@).contains(#[trigger] views(a@)[k]),
            forall|k: int| 0 <= k < j ==> views(a@).contains(#[trigger] views(b@)[k]),
        decreases b.len() - j,
    {
        if !contains_str(a, b[j].as_str()) {
            proof {
                assert(views(b@).to_set().contains(views(b@)[j as int]));
            }
            return false;
        }
        j = j + 1;
    }
    proof {
        assert forall|y: Seq<char>| views(a@).contains(y) <==> views(b@).contains(y) by {
            if views(a@).contains(y) {
                let k = choose|k: int| 0 <= k < views(a@).len() && views(a@)[k] == y;
            }
            if views(b@).contains(y) {
                let k = choose|k: int| 0 <= k < views(b@).len() && views(b@)[k] == y;
            }
        }
        assert(views(a@).to_set() =~= views(b@).to_set());
    }
    true
}

} // verus!
