use vstd::prelude::*;
use vstd::arithmetic::div_mod::{lemma_mod_add_multiples_vanish, lemma_mod_self_0, lemma_small_mod};
use crate::keyed::{lemma_table_index, table_get, table_has, table_keys};
use crate::text::{agent_name, lemma_agent_name_injective};
use crate::topology::{complete_adj, drawn_adj, drawn_with, indexed, linked, other_than, range, ring_adj, star_adj};

verus! {

/// A number below `n` is kept by a filter of the numbers below `n` exactly when it passes it.
proof fn lemma_range_filter(n: nat, pred: spec_fn(usize) -> bool, j: int)
    requires
        0 <= j < n,
        n <= usize::MAX + 1,
    ensures
        range(n).filter(pred).contains(j as usize) <==> pred(j as usize),
{
    let f = range(n).filter(pred);
    assert(range(n)[j] == j as usize);
    if f.contains(j as usize) {
        let q = choose|q: int| 0 <= q < f.len() && f[q] == j as usize;
        range(n).lemma_filter_pred(pred, q);
    }
    if pred(j as usize) {
        range(n).lemma_filter_contains(pred, j);
    }
}

/// The neighbors of agent `agent-i` in a generated topology are the agents named by row `i`
/// of its adjacency: `agent-j` is a neighbor of `agent-i` exactly when `j` is in that row.
/// Names that are not `agent-i` for an `i` below the number of rows have no neighbors.
pub proof fn law_indexed_neighbors(adj: Seq<Seq<usize>>, i: int, j: nat)
    requires
        0 <= i < adj.len(),
        j <= usize::MAX,
    ensures
        table_has(indexed(adj), agent_name(i as nat)),
        table_get(indexed(adj), agent_name(i as nat)) == adj[i].map_values(|k: usize| agent_name(k as nat)),
        table_get(indexed(adj), agent_name(i as nat)).contains(agent_name(j)) <==> adj[i].contains(j as usize),
        table_has(indexed(adj), agent_name(j)) <==> j < adj.len(),
{
    let t = indexed(adj);
    assert forall|a: int, b: int| 0 <= a < b < table_keys(t).len() implies table_keys(t)[a] != table_keys(t)[b] by {
        lemma_agent_name_injective(a as nat, b as nat);
    }
    assert(table_keys(t).no_duplicates());
    lemma_table_index(t, i, agent_name(i as nat));
    let row = adj[i].map_values(|k: usize| agent_name(k as nat));
    if row.contains(agent_name(j)) {
        let q = choose|q: int| 0 <= q < row.len() && row[q] == agent_name(j);
        lemma_agent_name_injective(adj[i][q] as nat, j);
        assert(adj[i][q] == j as usize);
    }
    if adj[i].contains(j as usize) {
        let q = choose|q: int| 0 <= q < adj[i].len() && adj[i][q] == j as usize;
        assert(row[q] == agent_name(j));
    }
    if table_has(t, agent_name(j)) {
        let p = choose|p: int| 0 <= p < table_keys(t).len() && table_keys(t)[p] == agent_name(j);
        lemma_agent_name_injective(p as nat, j);
    }
    if j < adj.len() {
        assert(table_keys(t)[j as int] == agent_name(j));
    }
}

/// A complete graph links every agent to every other agent and never to itself.
pub proof fn law_complete_links(n: nat, i: int, j: int)
    requires
        0 <= i < n,
        0 <= j < n,
        n <= usize::MAX,
    ensures
        complete_adj(n)[i].contains(j as usize) <==> i != j,
{
    lemma_range_filter(n, other_than(i), j);
}

/// A star links the hub, agent 0, to every other agent, and every other agent to the hub
/// alone.
pub proof fn law_star_links(n: nat, i: int, j: int)
    requires
        0 <= i < n,
        0 <= j < n,
        n <= usize::MAX,
    ensures
        star_adj(n)[i].contains(j as usize) <==> (i == 0) != (j == 0),
{
    if i == 0 {
        let s = range(n).skip(1);
        if s.contains(j as usize) {
            let q = choose|q: int| 0 <= q < s.len() && s[q] == j as usize;
            assert(s[q] == range(n)[q + 1]);
        }
        if j != 0 {
            assert(s[j - 1] == j as usize);
        }
    } else {
        assert(star_adj(n)[i] == seq![0usize]);
        if star_adj(n)[i].contains(j as usize) {
            let q = choose|q: int| 0 <= q < 1 && seq![0usize][q] == j as usize;
        }
        if j == 0 {
            assert(seq![0usize][0] == j as usize);
        }
    }
}

/// The agent after `i` on a ring of `n`, and the agent before it.
proof fn lemma_ring_steps(n: nat, i: int)
    requires
        0 <= i < n,
    ensures
        (i + 1) % (n as int) == if i + 1 == n { 0 } else { i + 1 },
        (i + n - 1) % (n as int) == if i == 0 { n - 1 } else { i - 1 },
{
    if i + 1 == n {
        lemma_mod_self_0(n as int);
    } else {
        lemma_small_mod((i + 1) as nat, n);
    }
    if i == 0 {
        lemma_small_mod((n - 1) as nat, n);
    } else {
        lemma_mod_add_multiples_vanish(i - 1, n as int);
        lemma_small_mod((i - 1) as nat, n);
    }
}

/// A ring links each agent to the next agent and to the one before it, and to nothing else.
pub proof fn law_ring_links(n: nat, i: int, j: int)
    requires
        0 <= i < n,
        0 <= j < n,
        n <= usize::MAX,
    ensures
        ring_adj(n)[i].contains(j as usize) <==> (j == (i + 1) % (n as int) || i == (j + 1) % (n as int)),
{
    lemma_ring_steps(n, i);
    lemma_ring_steps(n, j);
    let row = ring_adj(n)[i];
    assert(row[0] == ((i + n - 1) % (n as int)) as usize);
    assert(row[1] == ((i + 1) % (n as int)) as usize);
    if row.contains(j as usize) {
        let q = choose|q: int| 0 <= q < 2 && row[q] == j as usize;
        assert(q == 0 || q == 1);
    }
}

/// A random graph drawn from `links` is undirected: agent `i` lists `j` exactly when `j`
/// lists `i`, which is when they differ and their pair was drawn.
pub proof fn law_random_links(n: nat, links: Seq<Seq<bool>>, i: int, j: int)
    requires
        0 <= i < n,
        0 <= j < n,
        n <= usize::MAX,
    ensures
        drawn_adj(n, links)[i].contains(j as usize) <==> (i != j && (if i < j { linked(links, i, j) } else { linked(links, j, i) })),
        drawn_adj(n, links)[i].contains(j as usize) <==> drawn_adj(n, links)[j].contains(i as usize),
{
    lemma_range_filter(n, drawn_with(links, i), j);
    lemma_range_filter(n, drawn_with(links, j), i);
}

} // verus!
