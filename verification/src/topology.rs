use vstd::prelude::*;
use crate::keyed::{kv_has, kv_keys, kv_put, lemma_kv_index, lemma_kv_put, contains_str, key_position, keys, views, ListTable, table_views, table_keys, table_has, table_get, lemma_table_keys, lemma_table_index};
use crate::lattice::{coin_rows, lattice_link, lattice_rows, link_total, links_explained, loop_free, no_coins, pick_rows, rows, small_world_adjacency, small_world_rows, small_world_with_picks, undirected, undrawn_kept};
use crate::text::{agent_name, agent_name_string, lemma_agent_name_injective, lex_sorted, sort_strings};

verus! {

/// The numbers below `n`, in increasing order.
pub open spec fn range(n: nat) -> Seq<usize> {
    Seq::new(n, |k: int| k as usize)
}

/// The topology whose `i`-th agent is `agent-i`, with neighbors `agent-k` for `k` in `adj[i]`.
pub open spec fn indexed(adj: Seq<Seq<usize>>) -> ListTable {
    Seq::new(
        adj.len(),
        |i: int| (agent_name(i as nat), adj[i].map_values(|k: usize| agent_name(k as nat))),
    )
}

/// Holds of every number but `i`.
pub open spec fn other_than(i: int) -> spec_fn(usize) -> bool {
    |k: usize| k != i
}

/// Complete graph: every agent is linked to all the others, in increasing order.
pub open spec fn complete_adj(n: nat) -> Seq<Seq<usize>> {
    Seq::new(n, |i: int| range(n).filter(other_than(i)))
}

/// Ring: agent `i` is linked to `i - 1` and `i + 1`, modulo `n`.
pub open spec fn ring_adj(n: nat) -> Seq<Seq<usize>> {
    Seq::new(n, |i: int| seq![((i + n - 1) % (n as int)) as usize, ((i + 1) % (n as int)) as usize])
}

/// Star: agent 0 is the hub, linked to every other agent; each other agent is linked to the hub.
pub open spec fn star_adj(n: nat) -> Seq<Seq<usize>> {
    Seq::new(n, |i: int| if i == 0 { range(n).skip(1) } else { seq![0usize] })
}

/// Whether the pair `i < j` was drawn as an edge in `links` (`links[i][j]`).
pub open spec fn linked(links: Seq<Seq<bool>>, i: int, j: int) -> bool {
    0 <= i < links.len() && 0 <= j < links[i].len() && links[i][j]
}

/// Holds of every `k != i` whose pair with `i` was drawn as an edge.
pub open spec fn drawn_with(links: Seq<Seq<bool>>, i: int) -> spec_fn(usize) -> bool {
    |k: usize| k != i && (if i < k { linked(links, i, k as int) } else { linked(links, k as int, i) })
}

/// Random graph from drawn edges: agent `i` is linked to every `k != i` whose pair was drawn.
pub open spec fn drawn_adj(n: nat, links: Seq<Seq<bool>>) -> Seq<Seq<usize>> {
    Seq::new(n, |i: int| range(n).filter(drawn_with(links, i)))
}

/// The views of a table of booleans.
pub open spec fn bool_rows(s: Seq<Vec<bool>>) -> Seq<Seq<bool>> {
    s.map_values(|v: Vec<bool>| v@)
}

/// The views of an adjacency table.
pub open spec fn adj_rows(s: Seq<Vec<usize>>) -> Seq<Seq<usize>> {
    s.map_values(|v: Vec<usize>| v@)
}

/// The agents one hop beyond `visited`: those outside `visited` that some agent of `from`
/// lists as a neighbor.
pub open spec fn hop(t: ListTable, visited: Set<Seq<char>>, from: Set<Seq<char>>) -> Set<Seq<char>> {
    Set::new(
        |x: Seq<char>| !visited.contains(x) && exists|y: Seq<char>| from.contains(y) && #[trigger] table_get(t, y).contains(x),
    )
}

/// Breadth-first search from `start`: the agents reached within `k` hops, and those first
/// reached at hop `k`.
pub open spec fn bfs(t: ListTable, start: Seq<char>, k: nat) -> (Set<Seq<char>>, Set<Seq<char>>)
    decreases k,
{
    if k == 0 {
        (set![start], set![start])
    } else {
        let prev = bfs(t, start, (k - 1) as nat);
        let next = hop(t, prev.0, prev.1);
        (prev.0.union(next), next)
    }
}

/// The search from `start` stops after `k` hops: nothing new was reached, or as many agents
/// as the topology has are reached.
pub open spec fn bfs_stops(t: ListTable, start: Seq<char>, k: nat) -> bool {
    bfs(t, start, k).1.is_empty() || bfs(t, start, k).0.len() >= t.len()
}

/// The number of hops after which the search from `start` first stops.
pub open spec fn eccentricity(t: ListTable, start: Seq<char>) -> nat {
    choose|k: nat| bfs_stops(t, start, k) && forall|j: nat| j < k ==> !#[trigger] bfs_stops(t, start, j)
}

/// The largest eccentricity of the first `k` agents, zero if `k` is zero.
pub open spec fn max_eccentricity(t: ListTable, k: int) -> nat
    decreases k,
{
    if k <= 0 {
        0
    } else {
        let m = max_eccentricity(t, k - 1);
        let e = eccentricity(t, t[k - 1].0);
        if e > m { e } else { m }
    }
}

/// The largest eccentricity of the first `k` agents bounds each of theirs and, unless `k` is
/// zero, is the eccentricity of one of them.
proof fn lemma_max_eccentricity(t: ListTable, k: int)
    requires
        0 <= k <= t.len(),
    ensures
        forall|p: int| 0 <= p < k ==> #[trigger] eccentricity(t, t[p].0) <= max_eccentricity(t, k),
        k == 0 ==> max_eccentricity(t, k) == 0,
        k > 0 ==> exists|p: int| 0 <= p < k && #[trigger] eccentricity(t, t[p].0) == max_eccentricity(t, k),
    decreases k,
{
    if k > 0 {
        lemma_max_eccentricity(t, k - 1);
        if k > 1 && eccentricity(t, t[k - 1].0) <= max_eccentricity(t, k - 1) {
            let p = choose|p: int| 0 <= p < k - 1 && #[trigger] eccentricity(t, t[p].0) == max_eccentricity(t, k - 1);
            assert(0 <= p < k && eccentricity(t, t[p].0) == max_eccentricity(t, k));
        } else {
            assert(eccentricity(t, t[k - 1].0) == max_eccentricity(t, k));
        }
    }
}

/// The diameter is the largest eccentricity over all agents: no search from an agent of the
/// topology stops later, and the search from one of them (if there is any agent) stops
/// exactly then; an empty topology has diameter zero.
pub proof fn law_diameter_is_largest(t: ListTable)
    ensures
        forall|p: int| 0 <= p < t.len() ==> #[trigger] eccentricity(t, t[p].0) <= max_eccentricity(t, t.len() as int),
        t.len() == 0 ==> max_eccentricity(t, t.len() as int) == 0,
        t.len() > 0 ==> exists|p: int| 0 <= p < t.len() && #[trigger] eccentricity(t, t[p].0) == max_eccentricity(t, t.len() as int),
{
    lemma_max_eccentricity(t, t.len() as int);
}

/// The table built from the first `k` entries of `t`, each replacing any earlier entry with
/// the same name.
pub open spec fn upserted(t: ListTable, k: int) -> ListTable
    decreases k,
{
    if k <= 0 {
        Seq::empty()
    } else {
        kv_put(upserted(t, k - 1), t[k - 1].0, t[k - 1].1)
    }
}

/// A network topology: for each agent, its neighbors. No agent is listed twice.
#[derive(Debug)]
pub struct NetworkTopology {
    edges: Vec<(String, Vec<String>)>,
}

impl View for NetworkTopology {
    type V = ListTable;

    closed spec fn view(&self) -> ListTable {
        table_views(self.edges@)
    }
}

impl Clone for NetworkTopology {
    fn clone(&self) -> (r: Self)
        ensures
            r@ == self@,
    {
        proof {
            use_type_invariant(self);
        }
        let edges = self.entries();
        proof {
            lemma_table_keys(edges@);
            lemma_table_keys(self.edges@);
        }
        NetworkTopology { edges }
    }
}

impl NetworkTopology {
    #[verifier::type_invariant]
    closed spec fn inv(self) -> bool {
        keys(self.edges@).no_duplicates()
    }

    /// Builds the topology whose `i`-th agent is `agent-i` with neighbors from `adj[i]`.
    fn from_indices(adj: &Vec<Vec<usize>>) -> (r: Self)
        ensures
            r@ == indexed(adj_rows(adj@)),
    {
        let mut edges: Vec<(String, Vec<String>)> = Vec::new();
        let mut i: usize = 0;
        while i < adj.len()
            invariant
                i <= adj.len(),
                table_views(edges@) == indexed(adj_rows(adj@)).take(i as int),
                edges.len() == i,
            decreases adj.len() - i,
        {
            let row = &adj[i];
            let mut names: Vec<String> = Vec::new();
            let mut t: usize = 0;
            while t < row.len()
                invariant
                    t <= row.len(),
                    i < adj.len(),
                    row == &adj@[i as int],
                    table_views(edges@) == indexed(adj_rows(adj@)).take(i as int),
                    edges.len() == i,
                    views(names@) == row@.take(t as int).map_values(|k: usize| agent_name(k as nat)),
                decreases row.len() - t,
            {
                let ghost prev = views(names@);
                let nm = agent_name_string(row[t]);
                names.push(nm);
                proof {
                    assert(row@.take(t + 1) =~= row@.take(t as int).push(row@[t as int]));
                    assert(views(names@) =~= prev.push(agent_name(row@[t as int] as nat)));
                    assert(views(names@) =~= row@.take(t + 1).map_values(|k: usize| agent_name(k as nat)));
                }
                t = t + 1;
            }
            let ghost before = table_views(edges@);
            edges.push((agent_name_string(i), names));
            proof {
                assert(row@.take(row@.len() as int) =~= row@);
                assert(adj_rows(adj@)[i as int] == row@);
                assert(table_views(edges@) =~= before.push(indexed(adj_rows(adj@))[i as int]));
                assert(indexed(adj_rows(adj@)).take(i + 1) =~= indexed(adj_rows(adj@)).take(i as int).push(indexed(adj_rows(adj@))[i as int]));
            }
            i = i + 1;
        }
        proof {
            assert(indexed(adj_rows(adj@)).take(adj.len() as int) =~= indexed(adj_rows(adj@)));
            assert forall|a: int, b: int| 0 <= a < b < keys(edges@).len() implies keys(edges@)[a] != keys(edges@)[b] by {
                assert(keys(edges@)[a] == table_views(edges@)[a].0);
                assert(keys(edges@)[b] == table_views(edges@)[b].0);
                lemma_agent_name_injective(a as nat, b as nat);
            }
        }
        NetworkTopology { edges }
    }

    /// The complete graph on `n` agents `agent-0` .. `agent-(n-1)`.
    pub fn complete(n: usize) -> (r: Self)
        ensures
            r@ == indexed(complete_adj(n as nat)),
    {
        let mut adj: Vec<Vec<usize>> = Vec::new();
        let mut i: usize = 0;
        while i < n
            invariant
                i <= n,
                adj_rows(adj@) == complete_adj(n as nat).take(i as int),
            decreases n - i,
        {
            let mut row: Vec<usize> = Vec::new();
            let mut j: usize = 0;
            let ghost pred = other_than(i as int);
            assert(range(0).filter(pred) =~= Seq::<usize>::empty()) by {
                reveal(Seq::filter);
            }
            while j < n
                invariant
                    j <= n,
                    pred == other_than(i as int),
                    row@ == range(j as nat).filter(pred),
                decreases n - j,
            {
                proof {
                    assert(range((j + 1) as nat) =~= range(j as nat).push(j));
                    range(j as nat).lemma_filter_push(j, pred);
                }
                if j != i {
                    row.push(j);
                }
                j = j + 1;
            }
            let ghost before = adj_rows(adj@);
            adj.push(row);
            proof {
                assert(adj_rows(adj@) =~= before.push(complete_adj(n as nat)[i as int]));
                assert(complete_adj(n as nat).take(i + 1) =~= complete_adj(n as nat).take(i as int).push(complete_adj(n as nat)[i as int]));
            }
            i = i + 1;
        }
        assert(complete_adj(n as nat).take(n as int) =~= complete_adj(n as nat));
        Self::from_indices(&adj)
    }

    /// The ring on `n` agents: each agent is linked to the one before and the one after it.
    pub fn ring(n: usize) -> (r: Self)
        requires
            n <= usize::MAX / 2 + 1,
        ensures
            r@ == indexed(ring_adj(n as nat)),
    {
        let mut adj: Vec<Vec<usize>> = Vec::new();
        let mut i: usize = 0;
        while i < n
            invariant
                i <= n,
                n <= usize::MAX / 2 + 1,
                adj_rows(adj@) == ring_adj(n as nat).take(i as int),
            decreases n - i,
        {
            let left = (i + n - 1) % n;
            let right = (i + 1) % n;
            let ghost before = adj_rows(adj@);
            adj.push(vec![left, right]);
            proof {
                assert(adj_rows(adj@) =~= before.push(ring_adj(n as nat)[i as int]));
                assert(ring_adj(n as nat).take(i + 1) =~= ring_adj(n as nat).take(i as int).push(ring_adj(n as nat)[i as int]));
            }
            i = i + 1;
        }
        assert(ring_adj(n as nat).take(n as int) =~= ring_adj(n as nat));
        Self::from_indices(&adj)
    }

    /// The star on `n` agents: `agent-0` is the hub.
    pub fn star(n: usize) -> (r: Self)
        ensures
            r@ == indexed(star_adj(n as nat)),
    {
        let mut adj: Vec<Vec<usize>> = Vec::new();
        let mut i: usize = 0;
        while i < n
            invariant
                i <= n,
                adj_rows(adj@) == star_adj(n as nat).take(i as int),
            decreases n - i,
        {
            let mut row: Vec<usize> = Vec::new();
            if i == 0 {
                let mut j: usize = 1;
                while j < n
                    invariant
                        1 <= j <= n,
                        row@ == range(n as nat).subrange(1, j as int),
                    decreases n - j,
                {
                    row.push(j);
                    assert(row@ =~= range(n as nat).subrange(1, j + 1));
                    j = j + 1;
                }
                assert(row@ =~= range(n as nat).skip(1));
            } else {
                row.push(0);
                assert(row@ =~= seq![0usize]);
            }
            let ghost before = adj_rows(adj@);
            adj.push(row);
            proof {
                assert(adj_rows(adj@) =~= before.push(star_adj(n as nat)[i as int]));
                assert(star_adj(n as nat).take(i + 1) =~= star_adj(n as nat).take(i as int).push(star_adj(n as nat)[i as int]));
            }
            i = i + 1;
        }
        assert(star_adj(n as nat).take(n as int) =~= star_adj(n as nat));
        Self::from_indices(&adj)
    }

    /// The random graph on `n` agents in which the pair `i < j` is an edge exactly when
    /// `links[i][j]` holds (entries that are missing count as no edge).
    pub fn random_from(n: usize, links: &Vec<Vec<bool>>) -> (r: Self)
        ensures
            r@ == indexed(drawn_adj(n as nat, bool_rows(links@))),
    {
        let ghost lk = bool_rows(links@);
        let mut adj: Vec<Vec<usize>> = Vec::new();
        let mut i: usize = 0;
        while i < n
            invariant
                i <= n,
                lk == bool_rows(links@),
                adj_rows(adj@) == drawn_adj(n as nat, lk).take(i as int),
            decreases n - i,
        {
            let mut row: Vec<usize> = Vec::new();
            let mut j: usize = 0;
            let ghost pred = drawn_with(lk, i as int);
            assert(range(0).filter(pred) =~= Seq::<usize>::empty()) by {
                reveal(Seq::filter);
            }
            while j < n
                invariant
                    j <= n,
                    i < n,
                    lk == bool_rows(links@),
                    pred == drawn_with(lk, i as int),
                    row@ == range(j as nat).filter(pred),
                decreases n - j,
            {
                proof {
                    assert(range((j + 1) as nat) =~= range(j as nat).push(j));
                    range(j as nat).lemma_filter_push(j, pred);
                }
                if j != i {
                    let (a, b) = if i < j { (i, j) } else { (j, i) };
                    let edge = a < links.len() && b < links[a].len() && links[a][b];
                    assert(a < links.len() ==> links@[a as int]@ == lk[a as int]);
                    if edge {
                        row.push(j);
                    }
                }
                j = j + 1;
            }
            let ghost before = adj_rows(adj@);
            adj.push(row);
            proof {
                assert(adj_rows(adj@) =~= before.push(drawn_adj(n as nat, lk)[i as int]));
                assert(drawn_adj(n as nat, lk).take(i + 1) =~= drawn_adj(n as nat, lk).take(i as int).push(drawn_adj(n as nat, lk)[i as int]));
            }
            i = i + 1;
        }
        assert(drawn_adj(n as nat, lk).take(n as int) =~= drawn_adj(n as nat, lk));
        Self::from_indices(&adj)
    }

    /// The small-world (Watts-Strogatz) topology on `n` agents: the ring lattice with `k`
    /// neighbors on each side, with the link from `i` to each neighbor `j > i` whose draw
    /// `rewire[i][j]` is set moved to a random agent not yet linked to `i`. Every outcome is
    /// the small-world graph (`small_world_rows`) for some picks of new partners, on
    /// `agent-0` .. `agent-(n-1)`: undirected, with as many links as the lattice (`n * k` when
    /// `2 * k < n`, each counted from both ends), no agent its
    /// own neighbor when `k < n`, every lattice link whose draw is not set kept, and every
    /// other link touching an agent with a draw set; with no draw set it is the lattice.
    pub fn small_world_from(n: usize, k: usize, rewire: &Vec<Vec<bool>>) -> (r: Self)
        requires
            n + k <= usize::MAX,
        ensures
            exists|adj: Seq<Seq<usize>>, picks: Seq<Seq<usize>>|
                #![trigger indexed(adj), small_world_rows(n as nat, k as nat, coin_rows(rewire@), picks)]
                {
                    &&& r@ == indexed(adj)
                    &&& adj == small_world_rows(n as nat, k as nat, coin_rows(rewire@), picks)
                    &&& undirected(adj, n as nat)
                    &&& k < n ==> loop_free(adj, n as nat)
                    &&& link_total(adj) == link_total(lattice_rows(n as nat, k as nat))
                    &&& 2 * k < n ==> link_total(adj) == 2 * n * k
                    &&& undrawn_kept(adj, n as nat, k as nat, coin_rows(rewire@))
                    &&& links_explained(adj, n as nat, k as nat, coin_rows(rewire@))
                    &&& no_coins(coin_rows(rewire@)) ==> forall|x: usize, y: usize|
                        x < n && y < n ==> (#[trigger] adj[x as int].contains(y) <==> lattice_link(n as nat, k as nat, x as int, y as int))
                },
    {
        let adj = small_world_adjacency(n, k, rewire);
        let r = Self::from_indices(&adj);
        proof {
            assert(adj_rows(adj@) == rows(adj@));
        }
        r
    }

    /// The small-world topology for given picks: as `small_world_from`, with the new partner
    /// of agent `i` in place of neighbor `j` taken from `picks[i][j]` when that agent is a
    /// candidate (neither `i` nor a neighbor of `i`), and the first candidate otherwise.
    pub fn small_world_from_picks(n: usize, k: usize, rewire: &Vec<Vec<bool>>, picks: &Vec<Vec<usize>>) -> (r: Self)
        requires
            n + k <= usize::MAX,
        ensures
            r@ == indexed(small_world_rows(n as nat, k as nat, coin_rows(rewire@), pick_rows(picks@))),
    {
        let adj = small_world_with_picks(n, k, rewire, picks);
        let r = Self::from_indices(&adj);
        proof {
            assert(adj_rows(adj@) == rows(adj@));
        }
        r
    }

    /// The topology holding the given entries; where a name comes twice, the later entry
    /// wins, at the place of the first.
    pub fn from_entries(entries: Vec<(String, Vec<String>)>) -> (r: Self)
        ensures
            r@ == upserted(table_views(entries@), entries@.len() as int),
    {
        let ghost ev = table_views(entries@);
        let mut edges: Vec<(String, Vec<String>)> = Vec::new();
        let mut i: usize = 0;
        assert(table_views(edges@) =~= upserted(ev, 0));
        while i < entries.len()
            invariant
                i <= entries.len(),
                ev == table_views(entries@),
                table_views(edges@) == upserted(ev, i as int),
                keys(edges@).no_duplicates(),
            decreases entries.len() - i,
        {
            let key = entries[i].0.clone();
            let val = entries[i].1.clone();
            let ghost before = table_views(edges@);
            proof {
                lemma_table_keys(edges@);
                assert(kv_keys(before) == table_keys(before));
                assert(views(val@) =~= views(entries@[i as int].1@));
                lemma_kv_put(before, key@, views(val@), key@);
            }
            match key_position(&edges, key.as_str()) {
                Some(p) => {
                    proof {
                        lemma_kv_index(before, p as int, key@);
                    }
                    edges.set(p, (key, val));
                    proof {
                        assert(table_views(edges@) =~= kv_put(before, key@, views(val@)));
                    }
                },
                None => {
                    edges.push((key, val));
                    proof {
                        assert(!kv_has(before, key@));
                        assert(table_views(edges@) =~= kv_put(before, key@, views(val@)));
                    }
                },
            }
            proof {
                lemma_table_keys(edges@);
                assert(kv_keys(table_views(edges@)) == table_keys(table_views(edges@)));
                assert(ev[i as int] == (key@, views(val@)));
            }
            i = i + 1;
        }
        NetworkTopology { edges }
    }

    /// The entries of the topology: each agent with its neighbors.
    pub fn entries(&self) -> (r: Vec<(String, Vec<String>)>)
        ensures
            table_views(r@) == self@,
    {
        let mut r: Vec<(String, Vec<String>)> = Vec::new();
        let mut i: usize = 0;
        while i < self.edges.len()
            invariant
                i <= self.edges.len(),
                table_views(r@) == self@.take(i as int),
            decreases self.edges.len() - i,
        {
            let ghost before = table_views(r@);
            let v = self.edges[i].1.clone();
            assert(views(v@) =~= views(self.edges@[i as int].1@));
            r.push((self.edges[i].0.clone(), v));
            proof {
                assert(table_views(r@) =~= before.push(self@[i as int]));
                assert(self@.take(i + 1) =~= self@.take(i as int).push(self@[i as int]));
            }
            i = i + 1;
        }
        assert(self@.take(self.edges.len() as int) =~= self@);
        r
    }

    /// The neighbors of `agent`, or none if it is not part of the topology.
    pub fn get_neighbors(&self, agent: &str) -> (r: Vec<String>)
        ensures
            views(r@) == table_get(self@, agent@),
    {
        proof {
            use_type_invariant(self);
            lemma_table_keys(self.edges@);
        }
        match key_position(&self.edges, agent) {
            Some(i) => {
                let r = self.edges[i].1.clone();
                proof {
                    let t = self@;
                    assert(table_keys(t)[i as int] == agent@);
                    assert(table_has(t, agent@));
                    let j = table_keys(t).index_of(agent@);
                    assert(table_keys(t)[j] == agent@);
                    assert(j == i);
                    assert(views(r@) =~= views(self.edges@[i as int].1@));
                }
                r
            },
            None => {
                let r: Vec<String> = Vec::new();
                assert(views(r@) =~= Seq::empty());
                r
            },
        }
    }

    /// The names of all agents, in lexicographic order.
    pub fn agent_ids(&self) -> (r: Vec<String>)
        ensures
            lex_sorted(views(r@)),
            views(r@).to_multiset() == table_keys(self@).to_multiset(),
            views(r@).no_duplicates(),
    {
        proof {
            use_type_invariant(self);
            lemma_table_keys(self.edges@);
        }
        let mut ids: Vec<String> = Vec::new();
        let mut i: usize = 0;
        while i < self.edges.len()
            invariant
                i <= self.edges.len(),
                views(ids@) == keys(self.edges@).take(i as int),
            decreases self.edges.len() - i,
        {
            let ghost prev = views(ids@);
            ids.push(self.edges[i].0.clone());
            assert(views(ids@) =~= prev.push(keys(self.edges@)[i as int]));
            assert(views(ids@) =~= keys(self.edges@).take(i + 1));
            i = i + 1;
        }
        assert(keys(self.edges@).take(self.edges.len() as int) =~= keys(self.edges@));
        let r = sort_strings(ids);
        proof {
            keys(self.edges@).lemma_multiset_has_no_duplicates();
            views(r@).lemma_multiset_has_no_duplicates_conv();
        }
        r
    }

    /// How many agents the topology has.
    pub fn agent_count(&self) -> (r: usize)
        ensures
            r == self@.len(),
    {
        self.edges.len()
    }


    /// The diameter as searched breadth-first from every agent: the largest number of hops
    /// after which a search stops (see `bfs_stops`).
    pub fn diameter(&self) -> (r: usize)
        ensures
            r == max_eccentricity(self@, self@.len() as int),
            forall|p: int| 0 <= p < self@.len() ==> #[trigger] eccentricity(self@, self@[p].0) <= r,
            self@.len() > 0 ==> exists|p: int| 0 <= p < self@.len() && #[trigger] eccentricity(self@, self@[p].0) == r,
    {
        proof {
            law_diameter_is_largest(self@);
        }
        proof {
            use_type_invariant(self);
            lemma_table_keys(self.edges@);
        }
        let n = self.edges.len();
        let mut max_dist: usize = 0;
        let mut s: usize = 0;
        while s < n
            invariant
                s <= n,
                n == self@.len(),
                max_dist == max_eccentricity(self@, s as int),
            decreases n - s,
        {
            let d = self.search_from(&self.edges[s].0);
            if d > max_dist {
                max_dist = d;
            }
            s = s + 1;
        }
        max_dist
    }

    /// The number of hops after which a breadth-first search from `start` stops.
    fn search_from(&self, start: &String) -> (r: usize)
        ensures
            r == eccentricity(self@, start@),
    {
        let ghost t = self@;
        let n = self.edges.len();
        let mut visited: Vec<String> = Vec::new();
        visited.push(start.clone());
        let mut frontier: Vec<String> = Vec::new();
        frontier.push(start.clone());
        let mut dist: usize = 0;
        proof {
            assert(views(visited@) =~= seq![start@]);
            assert(views(visited@)[0] == start@);
            assert(views(visited@).to_set() =~= bfs(t, start@, 0).0);
            assert(views(frontier@).to_set() =~= bfs(t, start@, 0).1);
        }
        while frontier.len() > 0 && visited.len() < n
            invariant
                n == t.len(),
                t == self@,
                views(visited@).no_duplicates(),
                views(frontier@).no_duplicates(),
                views(visited@).to_set() == bfs(t, start@, dist as nat).0,
                views(frontier@).to_set() == bfs(t, start@, dist as nat).1,
                dist <= visited.len(),
                frontier.len() > 0 ==> dist < visited.len(),
                forall|j: nat| j < dist ==> !#[trigger] bfs_stops(t, start@, j),
            decreases (if visited.len() < n { n - visited.len() } else { 0 }) + (if frontier.len() > 0 { 1int } else { 0int }),
        {
            let ghost vset = bfs(t, start@, dist as nat).0;
            let ghost fset = bfs(t, start@, dist as nat).1;
            proof {
                views(visited@).unique_seq_to_set();
                assert(!bfs_stops(t, start@, dist as nat)) by {
                    assert(views(frontier@)[0] == frontier@[0]@);
                    assert(fset.contains(frontier@[0]@));
                }
            }
            let mut next: Vec<String> = Vec::new();
            let mut a: usize = 0;
            let ghost v0 = views(visited@).len();
            while a < frontier.len()
                invariant
                    t == self@,
                    a <= frontier.len(),
                    vset == bfs(t, start@, dist as nat).0,
                    views(frontier@).to_set() == fset,
                    views(visited@).no_duplicates(),
                    views(next@).no_duplicates(),
                    views(visited@).len() == v0 + views(next@).len(),
                    forall|x: Seq<char>| #[trigger] views(visited@).contains(x) <==> (vset.contains(x) || views(next@).contains(x)),
                    forall|x: Seq<char>| #[trigger] views(next@).contains(x) <==> (!vset.contains(x) && exists|y: Seq<char>|
                        views(frontier@).take(a as int).contains(y) && #[trigger] table_get(t, y).contains(x)),
                decreases frontier.len() - a,
            {
                let nbs = self.get_neighbors(frontier[a].as_str());
                let ghost node = frontier@[a as int]@;
                let ghost ta = views(frontier@).take(a as int);
                assert(views(frontier@).take(a + 1) =~= ta.push(node));
                let mut b: usize = 0;
                while b < nbs.len()
                    invariant
                        t == self@,
                        b <= nbs.len(),
                        views(nbs@) == table_get(t, node),
                        vset == bfs(t, start@, dist as nat).0,
                        views(visited@).no_duplicates(),
                        views(next@).no_duplicates(),
                        views(visited@).len() == v0 + views(next@).len(),
                        forall|x: Seq<char>| #[trigger] views(visited@).contains(x) <==> (vset.contains(x) || views(next@).contains(x)),
                        forall|x: Seq<char>| #[trigger] views(next@).contains(x) <==> (!vset.contains(x) && ((exists|y: Seq<char>|
                            ta.contains(y) && #[trigger] table_get(t, y).contains(x)) || views(nbs@).take(b as int).contains(x))),
                    decreases nbs.len() - b,
                {
                    let x = &nbs[b];
                    let ghost pv = views(visited@);
                    let ghost pn = views(next@);
                    let ghost tb = views(nbs@).take(b as int);
                    assert(views(nbs@).take(b + 1) =~= tb.push(x@));
                    if !contains_str(&visited, x.as_str()) {
                        visited.push(x.clone());
                        next.push(x.clone());
                        proof {
                            assert(views(visited@) =~= pv.push(x@));
                            assert(views(next@) =~= pn.push(x@));
                        }
                    }
                    proof {
                        assert forall|z: Seq<char>| #[trigger] views(visited@).contains(z) <==> (vset.contains(z) || views(next@).contains(z)) by {
                            crate::anti_entropy::lemma_push_contains(pv, x@, z);
                            crate::anti_entropy::lemma_push_contains(pn, x@, z);
                        }
                        assert forall|z: Seq<char>| #[trigger] views(next@).contains(z) <==> (!vset.contains(z) && ((exists|y: Seq<char>|
                            ta.contains(y) && #[trigger] table_get(t, y).contains(z)) || views(nbs@).take(b + 1).contains(z))) by {
                            crate::anti_entropy::lemma_push_contains(pn, x@, z);
                            crate::anti_entropy::lemma_push_contains(tb, x@, z);
                            crate::anti_entropy::lemma_push_contains(pv, x@, z);
                        }
                    }
                    b = b + 1;
                }
                proof {
                    assert(views(nbs@).take(nbs.len() as int) =~= views(nbs@));
                    assert forall|x: Seq<char>| #[trigger] views(next@).contains(x) <==> (!vset.contains(x) && exists|y: Seq<char>|
                        views(frontier@).take(a + 1).contains(y) && #[trigger] table_get(t, y).contains(x)) by {
                        if views(next@).contains(x) && !(exists|y: Seq<char>| ta.contains(y) && #[trigger] table_get(t, y).contains(x)) {
                            assert(table_get(t, node).contains(x));
                            crate::anti_entropy::lemma_push_contains(ta, node, node);
                            assert(views(frontier@).take(a + 1).contains(node));
                        }
                        if !vset.contains(x) && exists|y: Seq<char>| views(frontier@).take(a + 1).contains(y) && #[trigger] table_get(t, y).contains(x) {
                            let y = choose|y: Seq<char>| views(frontier@).take(a + 1).contains(y) && #[trigger] table_get(t, y).contains(x);
                            crate::anti_entropy::lemma_push_contains(ta, node, y);
                        }
                        if exists|y: Seq<char>| ta.contains(y) && #[trigger] table_get(t, y).contains(x) {
                            let y = choose|y: Seq<char>| ta.contains(y) && #[trigger] table_get(t, y).contains(x);
                            crate::anti_entropy::lemma_push_contains(ta, node, y);
                        }
                    }
                }
                a = a + 1;
            }
            proof {
                assert(views(frontier@).take(frontier.len() as int) =~= views(frontier@));
                let nx = hop(t, vset, fset);
                assert forall|x: Seq<char>| #[trigger] views(next@).contains(x) <==> nx.contains(x) by {
                    if views(next@).contains(x) {
                        let y = choose|y: Seq<char>| views(frontier@).contains(y) && #[trigger] table_get(t, y).contains(x);
                        assert(fset.contains(y));
                    }
                    if nx.contains(x) {
                        let y = choose|y: Seq<char>| fset.contains(y) && #[trigger] table_get(t, y).contains(x);
                        assert(views(frontier@).to_set().contains(y));
                    }
                }
                assert(views(next@).to_set() =~= bfs(t, start@, (dist + 1) as nat).1);
                assert(views(visited@).to_set() =~= bfs(t, start@, (dist + 1) as nat).0);
                assert forall|j: nat| j < dist + 1 implies !#[trigger] bfs_stops(t, start@, j) by {
                    if j < dist {
                    }
                }
                if views(next@).len() > 0 {
                    assert(views(visited@).len() > v0);
                }
            }
            frontier = next;
            dist = dist + 1;
        }
        proof {
            views(visited@).unique_seq_to_set();
            if frontier.len() == 0 {
                assert(views(frontier@).to_set() =~= Set::empty());
            }
            assert(bfs_stops(t, start@, dist as nat));
            let k = eccentricity(t, start@);
            assert(bfs_stops(t, start@, k) && forall|j: nat| j < k ==> !#[trigger] bfs_stops(t, start@, j));
            if k < dist {
                assert(!bfs_stops(t, start@, k));
            }
            if k > dist {
                assert(!bfs_stops(t, start@, dist as nat));
            }
        }
        dist
    }
}

} // verus!
