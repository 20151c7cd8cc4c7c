use vstd::prelude::*;
use crate::chance::choose_index;
use crate::topology::range;

verus! {

/// Adjacency as mathematical values: row `x` lists the neighbors of agent `x`.
pub open spec fn rows(a: Seq<Vec<usize>>) -> Seq<Seq<usize>> {
    a.map_values(|v: Vec<usize>| v@)
}

/// `n` rows, each free of repeats and naming only agents below `n`, and linked both ways:
/// `y` is in row `x` exactly when `x` is in row `y`.
pub open spec fn undirected(a: Seq<Seq<usize>>, n: nat) -> bool {
    &&& a.len() == n
    &&& forall|x: int| 0 <= x < n ==> #[trigger] a[x].no_duplicates()
    &&& forall|x: int, y: usize| 0 <= x < n && #[trigger] a[x].contains(y) ==> y < n
    &&& forall|x: usize, y: usize| x < n && y < n ==> (#[trigger] a[x as int].contains(y) <==> #[trigger] a[y as int].contains(x))
}

/// In the ring lattice on `n` agents with `k` neighbors on each side, `y` is a neighbor of
/// `x`: `y` is `x + d` or `x` is `y + d` (modulo `n`) for some `d` from 1 to `k`.
pub open spec fn lattice_link(n: nat, k: nat, x: int, y: int) -> bool {
    exists|d: int| 1 <= d <= k && #[trigger] apart(n, x, y, d)
}

/// `y` is `d` steps after `x`, or `x` is `d` steps after `y`, around a ring of `n`.
pub open spec fn apart(n: nat, x: int, y: int, d: int) -> bool {
    y == (x + d) % (n as int) || x == (y + d) % (n as int)
}

/// The rewiring draw for the link from `i` to `j` (`rewire[i][j]`; missing entries count as
/// no rewiring).
pub open spec fn coin(rewire: Seq<Seq<bool>>, i: int, j: int) -> bool {
    0 <= i < rewire.len() && 0 <= j < rewire[i].len() && rewire[i][j]
}

/// Some link of agent `x` is drawn for rewiring.
pub open spec fn coin_row(rewire: Seq<Seq<bool>>, x: int) -> bool {
    exists|j: int| #[trigger] coin(rewire, x, j)
}

/// Every link of `a` among the first `n` agents that is not a lattice link touches an agent
/// with a rewiring draw.
pub open spec fn links_explained(a: Seq<Seq<usize>>, n: nat, k: nat, rewire: Seq<Seq<bool>>) -> bool {
    forall|x: usize, y: usize|
        x < n && y < n && #[trigger] a[x as int].contains(y) ==> lattice_link(n, k, x as int, y as int)
            || coin_row(rewire, x as int) || coin_row(rewire, y as int)
}

/// Every lattice link `x - y` (`x < y`) whose own draw is not set is a link of `a`.
pub open spec fn undrawn_kept(a: Seq<Seq<usize>>, n: nat, k: nat, rewire: Seq<Seq<bool>>) -> bool {
    forall|x: usize, y: usize|
        #![trigger lattice_link(n, k, x as int, y as int)]
        x < y < n && lattice_link(n, k, x as int, y as int) && !coin(rewire, x as int, y as int)
            ==> a[x as int].contains(y)
}

/// The views of a table of booleans.
pub open spec fn coin_rows(s: Seq<Vec<bool>>) -> Seq<Seq<bool>> {
    s.map_values(|v: Vec<bool>| v@)
}

/// Row `r` with `x` appended, unless it already holds `x`.
pub open spec fn row_add(r: Seq<usize>, x: usize) -> Seq<usize> {
    if r.contains(x) { r } else { r.push(x) }
}

/// Row `r` with `x` taken out, if it holds it.
pub open spec fn row_del(r: Seq<usize>, x: usize) -> Seq<usize> {
    if r.contains(x) { r.remove(r.index_of(x)) } else { r }
}

/// The rows with `x` and `y` linked both ways: `y` added to row `x`, then `x` to row `y`.
pub open spec fn link_rows(a: Seq<Seq<usize>>, x: usize, y: usize) -> Seq<Seq<usize>> {
    let a1 = a.update(x as int, row_add(a[x as int], y));
    a1.update(y as int, row_add(a1[y as int], x))
}

/// The rows with the link between `x` and `y` removed both ways.
pub open spec fn unlink_rows(a: Seq<Seq<usize>>, x: usize, y: usize) -> Seq<Seq<usize>> {
    let a1 = a.update(x as int, row_del(a[x as int], y));
    a1.update(y as int, row_del(a1[y as int], x))
}

fn row_contains(v: &Vec<usize>, x: usize) -> (r: bool)
    ensures
        r == v@.contains(x),
{
    let mut i: usize = 0;
    while i < v.len()
        invariant
            i <= v.len(),
            forall|j: int| 0 <= j < i ==> v@[j] != x,
        decreases v.len() - i,
    {
        if v[i] == x {
            return true;
        }
        i = i + 1;
    }
    false
}

fn row_insert(v: &mut Vec<usize>, x: usize)
    ensures
        final(v)@ == row_add(old(v)@, x),
        forall|z: usize| #[trigger] final(v)@.contains(z) <==> (old(v)@.contains(z) || z == x),
        old(v)@.no_duplicates() ==> final(v)@.no_duplicates(),
{
    let ghost o = v@;
    if !row_contains(v, x) {
        v.push(x);
        proof {
            assert forall|z: usize| #[trigger] v@.contains(z) <==> (o.contains(z) || z == x) by {
                crate::anti_entropy::lemma_push_contains(o, x, z);
            }
        }
    }
}

proof fn lemma_remove_contains(o: Seq<usize>, i: int, z: usize)
    requires
        o.no_duplicates(),
        0 <= i < o.len(),
    ensures
        o.remove(i).contains(z) <==> (o.contains(z) && z != o[i]),
{
    let r = o.remove(i);
    o.remove_ensures(i);
    if r.contains(z) {
        let j = choose|j: int| 0 <= j < r.len() && r[j] == z;
        if j < i {
            assert(o[j] == z);
            assert(o[j] != o[i]);
        } else {
            assert(o[j + 1] == z);
            assert(o[j + 1] != o[i]);
        }
    }
    if o.contains(z) && z != o[i] {
        let j = choose|j: int| 0 <= j < o.len() && o[j] == z;
        if j < i {
            assert(r[j] == z);
        } else if j > i {
            assert(r[j - 1] == z);
        }
    }
}

fn row_remove(v: &mut Vec<usize>, x: usize)
    requires
        old(v)@.no_duplicates(),
    ensures
        forall|z: usize| #[trigger] final(v)@.contains(z) <==> (old(v)@.contains(z) && z != x),
        final(v)@.no_duplicates(),
        final(v)@ == row_del(old(v)@, x),
{
    let ghost o = v@;
    let mut i: usize = 0;
    while i < v.len()
        invariant
            i <= v.len(),
            v@ == o,
            o == old(v)@,
            o.no_duplicates(),
            forall|j: int| 0 <= j < i ==> v@[j] != x,
        decreases v.len() - i,
    {
        if v[i] == x {
            assert(o[i as int] == x);
            v.remove(i);
            proof {
                assert(v@ =~= o.remove(i as int));
                assert(o.contains(x));
                let j = o.index_of(x);
                assert(o[j] == x);
                assert(j == i);
                assert forall|z: usize| #[trigger] v@.contains(z) <==> (o.contains(z) && z != x) by {
                    lemma_remove_contains(o, i as int, z);
                }
            }
            return;
        }
        i = i + 1;
    }
}

/// Links `x` and `y` both ways.
fn link(adj: &mut Vec<Vec<usize>>, x: usize, y: usize, n: Ghost<nat>)
    requires
        undirected(rows(old(adj)@), n@),
        x < n@,
        y < n@,
    ensures
        undirected(rows(final(adj)@), n@),
        forall|u: usize, v: usize|
            u < n@ ==> (#[trigger] rows(final(adj)@)[u as int].contains(v) <==> (rows(old(adj)@)[u as int].contains(v)
                || (u == x && v == y) || (u == y && v == x))),
        rows(final(adj)@) == link_rows(rows(old(adj)@), x, y),
{
    let ghost o = rows(adj@);
    assert(o[x as int].no_duplicates());
    assert(o[y as int].no_duplicates());
    row_insert(&mut adj[x], y);
    let ghost m = rows(adj@);
    assert(m =~= o.update(x as int, row_add(o[x as int], y)));
    assert forall|u: int| 0 <= u < n@ && u != x implies m[u] == o[u] by {}
    assert(m[y as int].no_duplicates());
    row_insert(&mut adj[y], x);
    proof {
        let a = rows(adj@);
        assert(a =~= m.update(y as int, row_add(m[y as int], x)));
        assert forall|u: int| 0 <= u < n@ implies #[trigger] a[u].no_duplicates() by {
            if u != x && u != y {
                assert(a[u] == o[u]);
            } else if u == x && u != y {
                assert(a[u] == m[u]);
            }
        }
        assert forall|u: usize, v: usize| u < n@ implies (#[trigger] a[u as int].contains(v) <==> (o[u as int].contains(v)
            || (u == x && v == y) || (u == y && v == x))) by {
        }
        assert forall|u: int, v: usize| 0 <= u < n@ && #[trigger] a[u].contains(v) implies v < n@ by {
            if !(u == x && v == y) && !(u == y && v == x) {
                assert(o[u].contains(v));
            }
        }
        assert forall|u: usize, w: usize| u < n@ && w < n@ implies (#[trigger] a[u as int].contains(w) <==> #[trigger] a[w as int].contains(u)) by {
            assert(o[u as int].contains(w) <==> o[w as int].contains(u));
        }
    }
}

/// Removes the link between `x` and `y`, both ways.
fn unlink(adj: &mut Vec<Vec<usize>>, x: usize, y: usize, n: Ghost<nat>)
    requires
        undirected(rows(old(adj)@), n@),
        x < n@,
        y < n@,
    ensures
        undirected(rows(final(adj)@), n@),
        forall|u: usize, v: usize|
            u < n@ ==> (#[trigger] rows(final(adj)@)[u as int].contains(v) <==> (rows(old(adj)@)[u as int].contains(v)
                && !(u == x && v == y) && !(u == y && v == x))),
        rows(final(adj)@) == unlink_rows(rows(old(adj)@), x, y),
{
    let ghost o = rows(adj@);
    assert(o[x as int].no_duplicates());
    row_remove(&mut adj[x], y);
    let ghost m = rows(adj@);
    assert(m =~= o.update(x as int, row_del(o[x as int], y)));
    assert forall|u: int| 0 <= u < n@ && u != x implies m[u] == o[u] by {}
    assert(m[y as int].no_duplicates());
    row_remove(&mut adj[y], x);
    proof {
        let a = rows(adj@);
        assert(a =~= m.update(y as int, row_del(m[y as int], x)));
        assert forall|u: int| 0 <= u < n@ implies #[trigger] a[u].no_duplicates() by {
            if u != x && u != y {
                assert(a[u] == o[u]);
            } else if u == x && u != y {
                assert(a[u] == m[u]);
            }
        }
        assert forall|u: int, v: usize| 0 <= u < n@ && #[trigger] a[u].contains(v) implies v < n@ by {
            assert(o[u].contains(v));
        }
        assert forall|u: usize, w: usize| u < n@ && w < n@ implies (#[trigger] a[u as int].contains(w) <==> #[trigger] a[w as int].contains(u)) by {
            assert(o[u as int].contains(w) <==> o[w as int].contains(u));
        }
    }
}


/// Step `(i, d)` of the lattice construction links `i` and `i + d` (modulo `n`); this holds
/// when it links `x` and `y`.
pub open spec fn step_links(n: nat, i: int, d: int, x: int, y: int) -> bool {
    (x == i && y == (i + d) % (n as int)) || (y == i && x == (i + d) % (n as int))
}

/// Some step `(i, d)` taken before step `(i0, d0)` links `x` and `y`.
pub open spec fn linked_before(n: nat, k: nat, i0: int, d0: int, x: int, y: int) -> bool {
    exists|i: int, d: int|
        0 <= i < n && 1 <= d <= k && (i < i0 || (i == i0 && d < d0)) && #[trigger] step_links(n, i, d, x, y)
}

/// No link is drawn for rewiring.
pub open spec fn no_coins(rewire: Seq<Seq<bool>>) -> bool {
    forall|i: int, j: int| !#[trigger] coin(rewire, i, j)
}

/// The rows of the ring lattice as built step by step: before step `(i, d)`, every step
/// `(i', d')` with `i' < i`, or `i' == i` and `d' < d`, has linked `i'` and `i' + d'` (modulo
/// `n`), starting from `n` empty rows.
pub open spec fn lattice_upto(n: nat, k: nat, i: nat, d: nat) -> Seq<Seq<usize>>
    decreases i, d,
{
    if d > 1 {
        link_rows(lattice_upto(n, k, i, (d - 1) as nat), i as usize, ((i + d - 1) % (n as int)) as usize)
    } else if i > 0 {
        lattice_upto(n, k, (i - 1) as nat, k + 1)
    } else {
        Seq::new(n, |x: int| Seq::<usize>::empty())
    }
}

/// The rows of the ring lattice on `n` agents with `k` neighbors on each side.
pub open spec fn lattice_rows(n: nat, k: nat) -> Seq<Seq<usize>> {
    lattice_upto(n, k, n, 1)
}

/// No agent among the first `n` is its own neighbor.
pub open spec fn loop_free(a: Seq<Seq<usize>>, n: nat) -> bool {
    forall|x: usize| x < n ==> !#[trigger] a[x as int].contains(x)
}

/// With fewer than `n` neighbors on each side, no lattice link joins an agent to itself.
proof fn lemma_lattice_no_self(n: nat, k: nat, x: int)
    requires
        k < n,
        0 <= x < n,
    ensures
        !lattice_link(n, k, x, x),
{
    if lattice_link(n, k, x, x) {
        let d = choose|d: int| 1 <= d <= k && #[trigger] apart(n, x, x, d);
        if x + d < n {
            vstd::arithmetic::div_mod::lemma_small_mod((x + d) as nat, n);
        } else {
            vstd::arithmetic::div_mod::lemma_mod_add_multiples_vanish(x + d - n, n as int);
            vstd::arithmetic::div_mod::lemma_small_mod((x + d - n) as nat, n);
        }
    }
}

/// A value below `2n` taken modulo `n`.
proof fn lemma_mod_below_twice(x: int, n: int)
    requires
        0 <= x < 2 * n,
    ensures
        x % n == if x < n { x } else { x - n },
{
    if x < n {
        vstd::arithmetic::div_mod::lemma_small_mod(x as nat, n as nat);
    } else {
        vstd::arithmetic::div_mod::lemma_mod_add_multiples_vanish(x - n, n);
        vstd::arithmetic::div_mod::lemma_small_mod((x - n) as nat, n as nat);
    }
}

/// With fewer than `n / 2` neighbors on each side, step `(i, d)` of the lattice links two
/// distinct agents that no earlier step has linked.
proof fn lemma_fresh_step(n: nat, k: nat, i: int, d: int)
    requires
        2 * k < n,
        0 <= i < n,
        1 <= d <= k,
    ensures
        (i + d) % (n as int) != i,
        !linked_before(n, k, i, d, i, (i + d) % (n as int)),
{
    let j = (i + d) % (n as int);
    lemma_mod_below_twice(i + d, n as int);
    if linked_before(n, k, i, d, i, j) {
        let (i2, d2) = choose|i2: int, d2: int|
            0 <= i2 < n && 1 <= d2 <= k && (i2 < i || (i2 == i && d2 < d)) && #[trigger] step_links(n, i2, d2, i, j);
        lemma_mod_below_twice(i2 + d2, n as int);
    }
}

/// Empty rows hold no links.
proof fn lemma_links_empty(a: Seq<Seq<usize>>, m: int)
    requires
        0 <= m <= a.len(),
        forall|x: int| 0 <= x < a.len() ==> #[trigger] a[x].len() == 0,
    ensures
        links_upto(a, m) == 0,
    decreases m,
{
    if m > 0 {
        lemma_links_empty(a, m - 1);
    }
}

/// Builds the ring lattice on `n` agents with `k` neighbors on each side.
fn ring_lattice(n: usize, k: usize) -> (adj: Vec<Vec<usize>>)
    requires
        n + k <= usize::MAX,
    ensures
        rows(adj@) == lattice_rows(n as nat, k as nat),
        k < n ==> loop_free(rows(adj@), n as nat),
        2 * k < n ==> link_total(rows(adj@)) == 2 * n * k,
        undirected(rows(adj@), n as nat),
        forall|x: usize, y: usize| x < n && y < n ==> (#[trigger] rows(adj@)[x as int].contains(y) <==> lattice_link(n as nat, k as nat, x as int, y as int)),
{
    let mut adj: Vec<Vec<usize>> = Vec::new();
    let mut i: usize = 0;
    while i < n
        invariant
            i <= n,
            adj.len() == i,
            forall|x: int| 0 <= x < i ==> #[trigger] adj@[x]@.len() == 0,
        decreases n - i,
    {
        adj.push(Vec::new());
        i = i + 1;
    }
    proof {
        let a = rows(adj@);
        assert forall|x: int| 0 <= x < n implies #[trigger] a[x] == Seq::<usize>::empty() by {
            assert(a[x] =~= Seq::<usize>::empty());
        }
        assert(a =~= lattice_upto(n as nat, k as nat, 0, 1));
        assert forall|x: int| 0 <= x < n implies #[trigger] a[x].no_duplicates() by {
            assert(a[x].len() == 0);
        }
        assert forall|x: int, y: usize| 0 <= x < n && #[trigger] a[x].contains(y) implies y < n by {
            assert(a[x].len() == 0);
        }
        assert forall|x: usize, y: usize| x < n && y < n implies (#[trigger] a[x as int].contains(y) <==> linked_before(n as nat, k as nat, 0, 1, x as int, y as int)) by {
            assert(a[x as int].len() == 0);
        }
        lemma_links_empty(a, a.len() as int);
        assert(2 * (0 * k) == 0) by (nonlinear_arith);
    }
    let mut i: usize = 0;
    while i < n
        invariant
            i <= n,
            n + k <= usize::MAX,
            undirected(rows(adj@), n as nat),
            rows(adj@) == lattice_upto(n as nat, k as nat, i as nat, 1),
            2 * k < n ==> link_total(rows(adj@)) == 2 * (i * k),
            forall|x: usize, y: usize| x < n && y < n ==> (#[trigger] rows(adj@)[x as int].contains(y) <==> linked_before(n as nat, k as nat, i as int, 1, x as int, y as int)),
        decreases n - i,
    {
        let mut d: usize = 1;
        while d <= k
            invariant
                i < n,
                1 <= d <= k + 1,
                n + k <= usize::MAX,
                undirected(rows(adj@), n as nat),
                rows(adj@) == lattice_upto(n as nat, k as nat, i as nat, d as nat),
                2 * k < n ==> link_total(rows(adj@)) == 2 * (i * k + d - 1),
                forall|x: usize, y: usize| x < n && y < n ==> (#[trigger] rows(adj@)[x as int].contains(y) <==> linked_before(n as nat, k as nat, i as int, d as int, x as int, y as int)),
            decreases k + 1 - d,
        {
            let j = (i + d) % n;
            let ghost before = rows(adj@);
            proof {
                if 2 * k < n {
                    lemma_fresh_step(n as nat, k as nat, i as int, d as int);
                    assert(!before[i as int].contains(j));
                    assert(!linked_before(n as nat, k as nat, i as int, d as int, j as int, i as int)) by {
                        if linked_before(n as nat, k as nat, i as int, d as int, j as int, i as int) {
                            let (i2, d2) = choose|i2: int, d2: int|
                                0 <= i2 < n && 1 <= d2 <= k && (i2 < i || (i2 == i && d2 < d)) && #[trigger] step_links(n as nat, i2, d2, j as int, i as int);
                            assert(step_links(n as nat, i2, d2, i as int, j as int));
                        }
                    }
                    assert(!before[j as int].contains(i));
                    lemma_link_count(before, i, j);
                }
            }
            link(&mut adj, i, j, Ghost(n as nat));
            proof {
                assert(rows(adj@) == lattice_upto(n as nat, k as nat, i as nat, (d + 1) as nat));
                assert forall|x: usize, y: usize| x < n && y < n implies (#[trigger] rows(adj@)[x as int].contains(y) <==> linked_before(n as nat, k as nat, i as int, d + 1, x as int, y as int)) by {
                    assert(before[x as int].contains(y) <==> linked_before(n as nat, k as nat, i as int, d as int, x as int, y as int));
                    if linked_before(n as nat, k as nat, i as int, d + 1, x as int, y as int) {
                        let (ii, dd) = choose|ii: int, dd: int|
                            0 <= ii < n && 1 <= dd <= k && (ii < i || (ii == i && dd < d + 1)) && #[trigger] step_links(n as nat, ii, dd, x as int, y as int);
                        if !(ii == i && dd == d) {
                            assert(linked_before(n as nat, k as nat, i as int, d as int, x as int, y as int));
                        }
                    }
                    if linked_before(n as nat, k as nat, i as int, d as int, x as int, y as int) {
                        let (ii, dd) = choose|ii: int, dd: int|
                            0 <= ii < n && 1 <= dd <= k && (ii < i || (ii == i && dd < d)) && #[trigger] step_links(n as nat, ii, dd, x as int, y as int);
                        assert(step_links(n as nat, ii, dd, x as int, y as int));
                    }
                    if (x == i && y == j) || (x == j && y == i) {
                        assert(step_links(n as nat, i as int, d as int, x as int, y as int));
                    }
                }
            }
            d = d + 1;
        }
        proof {
            assert forall|x: usize, y: usize| x < n && y < n implies (#[trigger] rows(adj@)[x as int].contains(y) <==> linked_before(n as nat, k as nat, i + 1, 1, x as int, y as int)) by {
                if linked_before(n as nat, k as nat, i + 1, 1, x as int, y as int) {
                    let (ii, dd) = choose|ii: int, dd: int|
                        0 <= ii < n && 1 <= dd <= k && (ii < i + 1 || (ii == i + 1 && dd < 1)) && #[trigger] step_links(n as nat, ii, dd, x as int, y as int);
                    assert(linked_before(n as nat, k as nat, i as int, d as int, x as int, y as int));
                }
                if linked_before(n as nat, k as nat, i as int, d as int, x as int, y as int) {
                    let (ii, dd) = choose|ii: int, dd: int|
                        0 <= ii < n && 1 <= dd <= k && (ii < i || (ii == i && dd < d)) && #[trigger] step_links(n as nat, ii, dd, x as int, y as int);
                    assert(step_links(n as nat, ii, dd, x as int, y as int));
                }
            }
        }
        assert(rows(adj@) == lattice_upto(n as nat, k as nat, (i + 1) as nat, 1));
        assert(2 * (i * k + (k + 1) - 1) == 2 * ((i + 1) * k)) by (nonlinear_arith);
        i = i + 1;
    }
    proof {
        assert forall|x: usize, y: usize| x < n && y < n implies (#[trigger] rows(adj@)[x as int].contains(y) <==> lattice_link(n as nat, k as nat, x as int, y as int)) by {
            if linked_before(n as nat, k as nat, n as int, 1, x as int, y as int) {
                let (ii, dd) = choose|ii: int, dd: int|
                    0 <= ii < n && 1 <= dd <= k && (ii < n || (ii == n && dd < 1)) && #[trigger] step_links(n as nat, ii, dd, x as int, y as int);
                assert(apart(n as nat, x as int, y as int, dd));
            }
            if lattice_link(n as nat, k as nat, x as int, y as int) {
                let dd = choose|dd: int| 1 <= dd <= k && #[trigger] apart(n as nat, x as int, y as int, dd);
                if y == (x + dd) % (n as int) {
                    assert(step_links(n as nat, x as int, dd, x as int, y as int));
                } else {
                    assert(step_links(n as nat, y as int, dd, x as int, y as int));
                }
            }
        }
        assert(lattice_upto(n as nat, k as nat, n as nat, 1) == rows(adj@));
        assert(2 * (n * k) == 2 * n * k) by (nonlinear_arith);
        if k < n {
            assert forall|x: usize| x < n implies !#[trigger] rows(adj@)[x as int].contains(x) by {
                lemma_lattice_no_self(n as nat, k as nat, x as int);
            }
        }
    }
    adj
}


/// Adding the link `i - t`, for an agent `i` with a rewiring draw, keeps every undrawn lattice
/// link and leaves every link explained.
proof fn lemma_link_keeps(o: Seq<Seq<usize>>, a: Seq<Seq<usize>>, n: nat, k: nat, cr: Seq<Seq<bool>>, i: usize, t: usize)
    requires
        i < n,
        t < n,
        coin_row(cr, i as int),
        undrawn_kept(o, n, k, cr),
        links_explained(o, n, k, cr),
        forall|u: usize, v: usize|
            u < n ==> (#[trigger] a[u as int].contains(v) <==> (o[u as int].contains(v) || (u == i && v == t) || (u == t && v == i))),
    ensures
        undrawn_kept(a, n, k, cr),
        links_explained(a, n, k, cr),
{
    assert forall|x: usize, y: usize|
        #![trigger lattice_link(n, k, x as int, y as int)]
        x < y < n && lattice_link(n, k, x as int, y as int) && !coin(cr, x as int, y as int) implies a[x as int].contains(y) by {
        assert(o[x as int].contains(y));
    }
    assert forall|x: usize, y: usize|
        x < n && y < n && #[trigger] a[x as int].contains(y) implies lattice_link(n, k, x as int, y as int)
            || coin_row(cr, x as int) || coin_row(cr, y as int) by {
        if o[x as int].contains(y) {
        }
    }
}

/// Holds of every agent other than `i` that row `row` does not list.
pub open spec fn open_slot(row: Seq<usize>, i: int) -> spec_fn(usize) -> bool {
    |x: usize| x != i && !row.contains(x)
}

/// The agents below `n`, in increasing order, that `i` could be linked to anew: not `i`
/// itself and not yet a neighbor of `i`.
pub open spec fn candidates(a: Seq<Seq<usize>>, n: nat, i: int) -> Seq<usize> {
    range(n).filter(open_slot(a[i], i))
}

/// The views of a table of picks.
pub open spec fn pick_rows(s: Seq<Vec<usize>>) -> Seq<Seq<usize>> {
    s.map_values(|v: Vec<usize>| v@)
}

/// The pick for rewiring the link from `i` to `nb` (`picks[i][nb]`; zero where missing).
pub open spec fn pick_of(picks: Seq<Seq<usize>>, i: int, nb: usize) -> usize {
    if 0 <= i < picks.len() && nb < picks[i].len() { picks[i][nb as int] } else { 0 }
}

/// The new partner picked among the candidates `c`: the pick if it is a candidate, else the
/// first candidate.
pub open spec fn target(c: Seq<usize>, p: usize) -> usize {
    if c.contains(p) { p } else { c[0] }
}

/// One rewiring step, for agent `i` and its neighbor `nb`: when the draw for `i - nb` is set
/// and `i < nb`, the link is removed and `i` is linked to the picked candidate, or to `nb`
/// again if there is no candidate; otherwise nothing changes.
pub open spec fn rewire_one(a: Seq<Seq<usize>>, n: nat, coins: Seq<Seq<bool>>, picks: Seq<Seq<usize>>, i: int, nb: usize) -> Seq<Seq<usize>> {
    if coin(coins, i, nb as int) && i < nb {
        let u = unlink_rows(a, i as usize, nb);
        let c = candidates(u, n, i);
        if c.len() > 0 {
            link_rows(u, i as usize, target(c, pick_of(picks, i, nb)))
        } else {
            link_rows(u, i as usize, nb)
        }
    } else {
        a
    }
}

/// The rewiring steps of agent `i` for the first `q` neighbors of its row `snap`, in order.
pub open spec fn rewire_from(a: Seq<Seq<usize>>, n: nat, coins: Seq<Seq<bool>>, picks: Seq<Seq<usize>>, i: int, snap: Seq<usize>, q: int) -> Seq<Seq<usize>>
    decreases q,
{
    if q <= 0 {
        a
    } else {
        rewire_one(rewire_from(a, n, coins, picks, i, snap, q - 1), n, coins, picks, i, snap[q - 1])
    }
}

/// The rows after the rewiring steps of agents `0 .. i`, each going through its row as it
/// stood when its turn came.
pub open spec fn rewire_upto(a: Seq<Seq<usize>>, n: nat, coins: Seq<Seq<bool>>, picks: Seq<Seq<usize>>, i: int) -> Seq<Seq<usize>>
    decreases i,
{
    if i <= 0 {
        a
    } else {
        let b = rewire_upto(a, n, coins, picks, i - 1);
        rewire_from(b, n, coins, picks, i - 1, b[i - 1], b[i - 1].len() as int)
    }
}

/// The small-world rows on `n` agents with `k` neighbors on each side, rewiring draws
/// `coins` and picks `picks`.
pub open spec fn small_world_rows(n: nat, k: nat, coins: Seq<Seq<bool>>, picks: Seq<Seq<usize>>) -> Seq<Seq<usize>> {
    rewire_upto(lattice_rows(n, k), n, coins, picks, n as int)
}

/// The lengths of the first `m` rows, added up.
pub open spec fn links_upto(a: Seq<Seq<usize>>, m: int) -> nat
    decreases m,
{
    if m <= 0 { 0 } else { links_upto(a, m - 1) + a[m - 1].len() }
}

/// The number of links, counted from both ends: the lengths of all rows added up.
pub open spec fn link_total(a: Seq<Seq<usize>>) -> nat {
    links_upto(a, a.len() as int)
}

proof fn lemma_links_update(a: Seq<Seq<usize>>, x: int, r: Seq<usize>, m: int)
    requires
        0 <= x < a.len(),
        0 <= m <= a.len(),
    ensures
        links_upto(a.update(x, r), m) + (if x < m { a[x].len() as int } else { 0 }) == links_upto(a, m) + (if x < m { r.len() as int } else { 0 }),
    decreases m,
{
    if m > 0 {
        lemma_links_update(a, x, r, m - 1);
    }
}

/// Linking two agents that were not linked adds one entry to each of their rows.
proof fn lemma_link_count(a: Seq<Seq<usize>>, x: usize, y: usize)
    requires
        x < a.len(),
        y < a.len(),
        x != y,
        !a[x as int].contains(y),
        !a[y as int].contains(x),
    ensures
        link_total(link_rows(a, x, y)) == link_total(a) + 2,
{
    let a1 = a.update(x as int, row_add(a[x as int], y));
    lemma_links_update(a, x as int, row_add(a[x as int], y), a.len() as int);
    assert(a1[y as int] == a[y as int]);
    lemma_links_update(a1, y as int, row_add(a1[y as int], x), a.len() as int);
}

/// Unlinking two linked agents removes one entry from each of their rows.
proof fn lemma_unlink_count(a: Seq<Seq<usize>>, x: usize, y: usize)
    requires
        x < a.len(),
        y < a.len(),
        x != y,
        a[x as int].contains(y),
        a[y as int].contains(x),
    ensures
        link_total(unlink_rows(a, x, y)) + 2 == link_total(a),
{
    let a1 = a.update(x as int, row_del(a[x as int], y));
    assert(a[x as int][a[x as int].index_of(y)] == y);
    lemma_links_update(a, x as int, row_del(a[x as int], y), a.len() as int);
    assert(a1[y as int] == a[y as int]);
    assert(a1[y as int][a1[y as int].index_of(x)] == x);
    lemma_links_update(a1, y as int, row_del(a1[y as int], x), a.len() as int);
}

/// Steps that read the same picks give the same rows.
proof fn lemma_from_frame(a: Seq<Seq<usize>>, n: nat, coins: Seq<Seq<bool>>, p1: Seq<Seq<usize>>, p2: Seq<Seq<usize>>, i: int, snap: Seq<usize>, q: int)
    requires
        q <= snap.len(),
        forall|j: int| 0 <= j < q ==> pick_of(p1, i, #[trigger] snap[j]) == pick_of(p2, i, snap[j]),
    ensures
        rewire_from(a, n, coins, p1, i, snap, q) == rewire_from(a, n, coins, p2, i, snap, q),
    decreases q,
{
    if q > 0 {
        lemma_from_frame(a, n, coins, p1, p2, i, snap, q - 1);
        assert(pick_of(p1, i, snap[q - 1]) == pick_of(p2, i, snap[q - 1]));
    }
}

/// The rewiring of agents `0 .. i` reads only their picks.
proof fn lemma_upto_frame(a: Seq<Seq<usize>>, n: nat, coins: Seq<Seq<bool>>, p1: Seq<Seq<usize>>, p2: Seq<Seq<usize>>, i: int)
    requires
        forall|i2: int, nb: usize| i2 < i ==> #[trigger] pick_of(p1, i2, nb) == pick_of(p2, i2, nb),
    ensures
        rewire_upto(a, n, coins, p1, i) == rewire_upto(a, n, coins, p2, i),
    decreases i,
{
    if i > 0 {
        lemma_upto_frame(a, n, coins, p1, p2, i - 1);
        let b = rewire_upto(a, n, coins, p1, i - 1);
        assert forall|j: int| 0 <= j < b[i - 1].len() implies pick_of(p1, i - 1, #[trigger] b[i - 1][j]) == pick_of(p2, i - 1, b[i - 1][j]) by {
            assert(pick_of(p1, i - 1, b[i - 1][j]) == pick_of(p2, i - 1, b[i - 1][j]));
        }
        lemma_from_frame(b, n, coins, p1, p2, i - 1, b[i - 1], b[i - 1].len() as int);
    }
}

/// One rewiring step for agent `i` and its neighbor `nb` (see `rewire_one`), with the pick
/// drawn at random when `draw` holds and read from `picks` otherwise. Returns the picks with
/// the one used recorded under `(i, nb)` when drawn.
#[verifier::rlimit(50)]
fn rewire_step(adj: &mut Vec<Vec<usize>>, n: usize, k: Ghost<nat>, rewire: &Vec<Vec<bool>>, picks: &Vec<Vec<usize>>, draw: bool, i: usize, nb: usize, gp: Ghost<Seq<Seq<usize>>>) -> (r: Ghost<Seq<Seq<usize>>>)
    requires
        i < n,
        nb < n,
        rows(old(adj)@)[i as int].contains(nb),
        draw ==> gp@.len() == n && forall|x: int| 0 <= x < n ==> #[trigger] gp@[x].len() == n,
        !draw ==> gp@ == pick_rows(picks@),
        undirected(rows(old(adj)@), n as nat),
        k@ < n ==> loop_free(rows(old(adj)@), n as nat),
        undrawn_kept(rows(old(adj)@), n as nat, k@, coin_rows(rewire@)),
        links_explained(rows(old(adj)@), n as nat, k@, coin_rows(rewire@)),
    ensures
        rows(final(adj)@) == rewire_one(rows(old(adj)@), n as nat, coin_rows(rewire@), r@, i as int, nb),
        forall|i2: int, nb2: usize| (i2 != i || nb2 != nb) ==> #[trigger] pick_of(r@, i2, nb2) == pick_of(gp@, i2, nb2),
        draw ==> r@.len() == n && forall|x: int| 0 <= x < n ==> #[trigger] r@[x].len() == n,
        !draw ==> r@ == gp@,
        undirected(rows(final(adj)@), n as nat),
        k@ < n ==> loop_free(rows(final(adj)@), n as nat),
        link_total(rows(final(adj)@)) == link_total(rows(old(adj)@)),
        undrawn_kept(rows(final(adj)@), n as nat, k@, coin_rows(rewire@)),
        links_explained(rows(final(adj)@), n as nat, k@, coin_rows(rewire@)),
        no_coins(coin_rows(rewire@)) ==> rows(final(adj)@) == rows(old(adj)@),
        forall|z: usize| z != nb && #[trigger] rows(old(adj)@)[i as int].contains(z) ==> rows(final(adj)@)[i as int].contains(z),
{
    let ghost cr = coin_rows(rewire@);
    let ghost mut g = gp@;
    let ghost before = rows(adj@);
    let drawn = i < rewire.len() && nb < rewire[i].len() && rewire[i][nb];
    proof {
        if i < rewire.len() {
            assert(cr[i as int] == rewire@[i as int]@);
        }
        assert(drawn == coin(cr, i as int, nb as int));
    }
    if drawn && i < nb {
        unlink(adj, i, nb, Ghost(n as nat));
        let ghost u = rows(adj@);
        proof {
            assert(before[nb as int].contains(i));
            lemma_unlink_count(before, i, nb);
            assert(coin_row(cr, i as int));
            assert forall|x: usize, y: usize|
                #![trigger lattice_link(n as nat, k@, x as int, y as int)]
                x < y < n && lattice_link(n as nat, k@, x as int, y as int) && !coin(cr, x as int, y as int)
                    implies u[x as int].contains(y) by {
                assert(before[x as int].contains(y));
            }
            assert forall|x: usize, y: usize|
                x < n && y < n && #[trigger] u[x as int].contains(y) implies lattice_link(n as nat, k@, x as int, y as int)
                    || coin_row(cr, x as int) || coin_row(cr, y as int) by {
                assert(before[x as int].contains(y));
            }
            assert(!u[i as int].contains(nb));
            assert(!u[nb as int].contains(i));
        }
        let ghost pred = open_slot(u[i as int], i as int);
        let mut cands: Vec<usize> = Vec::new();
        let mut x: usize = 0;
        assert(range(0).filter(pred) =~= Seq::<usize>::empty()) by {
            reveal(Seq::filter);
        }
        while x < n
            invariant
                x <= n,
                i < n,
                adj.len() == n,
                rows(adj@) == u,
                pred == open_slot(u[i as int], i as int),
                cands@ == range(x as nat).filter(pred),
            decreases n - x,
        {
            proof {
                assert(range((x + 1) as nat) =~= range(x as nat).push(x));
                range(x as nat).lemma_filter_push(x, pred);
            }
            if x != i && !row_contains(&adj[i], x) {
                cands.push(x);
            }
            x = x + 1;
        }
        proof {
            assert(cands@ == candidates(u, n as nat, i as int));
            assert forall|p: int| 0 <= p < cands@.len() implies #[trigger] cands@[p] < n
                && cands@[p] != i && !u[i as int].contains(cands@[p]) by {
                range(n as nat).lemma_filter_pred(pred, p);
                assert(range(n as nat).filter(pred).contains(cands@[p])) by {
                    assert(range(n as nat).filter(pred)[p] == cands@[p]);
                }
                range(n as nat).lemma_filter_contains_rev(pred, cands@[p]);
                let w = choose|w: int| 0 <= w < range(n as nat).len() && range(n as nat)[w] == cands@[p];
            }
        }
        let chosen: Option<usize> = if draw {
            choose_index(&cands)
        } else if cands.len() == 0 {
            None
        } else {
            let pk = if i < picks.len() && nb < picks[i].len() { picks[i][nb] } else { 0 };
            proof {
                if i < picks.len() {
                    assert(pick_rows(picks@)[i as int] == picks@[i as int]@);
                }
                assert(pk == pick_of(g, i as int, nb));
            }
            if row_contains(&cands, pk) { Some(pk) } else { Some(cands[0]) }
        };
        match chosen {
            Some(t) => {
                proof {
                    let p = choose|p: int| 0 <= p < cands@.len() && cands@[p] == t;
                    assert(t < n && t != i && !u[i as int].contains(t));
                    assert(!u[t as int].contains(i));
                    lemma_link_count(u, i, t);
                    if draw {
                        g = g.update(i as int, g[i as int].update(nb as int, t));
                        assert(pick_of(g, i as int, nb) == t);
                    }
                    assert(target(cands@, pick_of(g, i as int, nb)) == t);
                }
                link(adj, i, t, Ghost(n as nat));
                proof {
                    lemma_link_keeps(u, rows(adj@), n as nat, k@, cr, i, t);
                }
            },
            None => {
                proof {
                    assert(cands@.len() == 0);
                    lemma_link_count(u, i, nb);
                }
                link(adj, i, nb, Ghost(n as nat));
                proof {
                    lemma_link_keeps(u, rows(adj@), n as nat, k@, cr, i, nb);
                }
            },
        }
        proof {
            let a = rows(adj@);
            if k@ < n {
                assert forall|y: usize| y < n implies !#[trigger] a[y as int].contains(y) by {
                    assert(!before[y as int].contains(y));
                }
            }
        }
    }
    Ghost(g)
}

/// Rewires the lattice in `adj`: for each agent `i` and each neighbor `nb > i` in its row as it
/// stood when its turn came, whose draw is set, the link `i - nb` is replaced by a link from
/// `i` to a candidate (an agent that is neither `i` nor a neighbor of `i`), or kept if there
/// is none. With `draw` the candidate is picked at random; otherwise it is `picks[i][nb]` if
/// that is a candidate, else the first candidate. Returns the picks that were used.
fn rewire_core(adj: &mut Vec<Vec<usize>>, n: usize, k: Ghost<nat>, rewire: &Vec<Vec<bool>>, picks: &Vec<Vec<usize>>, draw: bool) -> (gp: Ghost<Seq<Seq<usize>>>)
    requires
        rows(old(adj)@) == lattice_rows(n as nat, k@),
        undirected(rows(old(adj)@), n as nat),
        k@ < n ==> loop_free(rows(old(adj)@), n as nat),
        forall|x: usize, y: usize| x < n && y < n ==> (#[trigger] rows(old(adj)@)[x as int].contains(y) <==> lattice_link(n as nat, k@, x as int, y as int)),
    ensures
        rows(final(adj)@) == small_world_rows(n as nat, k@, coin_rows(rewire@), gp@),
        !draw ==> gp@ == pick_rows(picks@),
        undirected(rows(final(adj)@), n as nat),
        k@ < n ==> loop_free(rows(final(adj)@), n as nat),
        link_total(rows(final(adj)@)) == link_total(lattice_rows(n as nat, k@)),
        undrawn_kept(rows(final(adj)@), n as nat, k@, coin_rows(rewire@)),
        links_explained(rows(final(adj)@), n as nat, k@, coin_rows(rewire@)),
        no_coins(coin_rows(rewire@)) ==> rows(final(adj)@) == lattice_rows(n as nat, k@),
{
    let ghost cr = coin_rows(rewire@);
    let ghost a0 = rows(adj@);
    let ghost mut gp: Seq<Seq<usize>> = if draw {
        Seq::new(n as nat, |r: int| Seq::new(n as nat, |c: int| 0usize))
    } else {
        pick_rows(picks@)
    };
    proof {
        assert forall|x: usize, y: usize|
            #![trigger lattice_link(n as nat, k@, x as int, y as int)]
            x < y < n && lattice_link(n as nat, k@, x as int, y as int) && !coin(cr, x as int, y as int)
                implies rows(adj@)[x as int].contains(y) by {
        }
    }
    let mut i: usize = 0;
    while i < n
        invariant
            i <= n,
            cr == coin_rows(rewire@),
            a0 == lattice_rows(n as nat, k@),
            rows(adj@) == rewire_upto(a0, n as nat, cr, gp, i as int),
            draw ==> gp.len() == n && forall|r: int| 0 <= r < n ==> #[trigger] gp[r].len() == n,
            !draw ==> gp == pick_rows(picks@),
            undirected(rows(adj@), n as nat),
            k@ < n ==> loop_free(rows(adj@), n as nat),
            link_total(rows(adj@)) == link_total(a0),
            no_coins(cr) ==> rows(adj@) == a0,
            undrawn_kept(rows(adj@), n as nat, k@, cr),
            links_explained(rows(adj@), n as nat, k@, cr),
        decreases n - i,
    {
        let snapshot = adj[i].clone();
        let ghost b = rows(adj@);
        let ghost gp0 = gp;
        proof {
            assert(snapshot@ == b[i as int]);
            assert forall|q: int| 0 <= q < snapshot@.len() implies #[trigger] snapshot@[q] < n by {
                assert(rows(adj@)[i as int].contains(snapshot@[q]));
            }
            assert(rewire_from(b, n as nat, cr, gp, i as int, snapshot@, 0) == b);
        }
        let mut q: usize = 0;
        while q < snapshot.len()
            invariant
                i < n,
                q <= snapshot.len(),
                cr == coin_rows(rewire@),
                a0 == lattice_rows(n as nat, k@),
                snapshot@ == b[i as int],
                snapshot@.no_duplicates(),
                b == rewire_upto(a0, n as nat, cr, gp0, i as int),
                rows(adj@) == rewire_from(b, n as nat, cr, gp, i as int, snapshot@, q as int),
                forall|i2: int, nb: usize|
                    (i2 != i || !snapshot@.take(q as int).contains(nb)) ==> #[trigger] pick_of(gp, i2, nb) == pick_of(gp0, i2, nb),
                draw ==> gp.len() == n && forall|r: int| 0 <= r < n ==> #[trigger] gp[r].len() == n,
                !draw ==> gp == pick_rows(picks@),
                forall|j: int| q <= j < snapshot@.len() ==> rows(adj@)[i as int].contains(#[trigger] snapshot@[j]),
                forall|p: int| 0 <= p < snapshot@.len() ==> #[trigger] snapshot@[p] < n,
                undirected(rows(adj@), n as nat),
                k@ < n ==> loop_free(rows(adj@), n as nat),
                link_total(rows(adj@)) == link_total(a0),
                no_coins(cr) ==> rows(adj@) == a0,
                undrawn_kept(rows(adj@), n as nat, k@, cr),
                links_explained(rows(adj@), n as nat, k@, cr),
            decreases snapshot.len() - q,
        {
            let nb = snapshot[q];
            let ghost before = rows(adj@);
            let ghost gp_old = gp;
            proof {
                assert(snapshot@.take(q + 1) =~= snapshot@.take(q as int).push(nb));
                assert(!snapshot@.take(q as int).contains(nb)) by {
                    if snapshot@.take(q as int).contains(nb) {
                        let j = choose|j: int| 0 <= j < q && snapshot@.take(q as int)[j] == nb;
                        assert(snapshot@[j] == snapshot@[q as int]);
                    }
                }
                assert(before[i as int].contains(snapshot@[q as int]));
            }
            let g = rewire_step(adj, n, k, rewire, picks, draw, i, nb, Ghost(gp));
            proof {
                gp = g@;
                assert forall|j: int| 0 <= j < q implies pick_of(gp, i as int, #[trigger] snapshot@[j]) == pick_of(gp_old, i as int, snapshot@[j]) by {
                    assert(snapshot@.take(q as int)[j] == snapshot@[j]);
                    assert(snapshot@[j] != nb);
                }
                lemma_from_frame(b, n as nat, cr, gp, gp_old, i as int, snapshot@, q as int);
            }
            proof {
                let a = rows(adj@);
                assert(a == rewire_one(before, n as nat, cr, gp, i as int, nb));
                assert(a == rewire_from(b, n as nat, cr, gp, i as int, snapshot@, q + 1));
                assert forall|i2: int, nb2: usize|
                    (i2 != i || !snapshot@.take(q + 1).contains(nb2)) implies #[trigger] pick_of(gp, i2, nb2) == pick_of(gp0, i2, nb2) by {
                    if i2 == i {
                        assert(snapshot@.take(q + 1)[q as int] == nb);
                        assert(nb2 != nb);
                        if snapshot@.take(q as int).contains(nb2) {
                            let j = choose|j: int| 0 <= j < q && snapshot@.take(q as int)[j] == nb2;
                            assert(snapshot@.take(q + 1)[j] == nb2);
                        }
                    }
                    assert(pick_of(g@, i2, nb2) == pick_of(gp_old, i2, nb2));
                    assert(pick_of(gp_old, i2, nb2) == pick_of(gp0, i2, nb2));
                }
                assert forall|j: int| q + 1 <= j < snapshot@.len() implies a[i as int].contains(#[trigger] snapshot@[j]) by {
                    assert(before[i as int].contains(snapshot@[j]));
                    assert(snapshot@[j] != nb);
                }
            }
            q = q + 1;
        }
        proof {
            assert forall|i2: int, nb: usize| i2 < i implies #[trigger] pick_of(gp, i2, nb) == pick_of(gp0, i2, nb) by {
            }
            lemma_upto_frame(a0, n as nat, cr, gp, gp0, i as int);
            assert(rewire_upto(a0, n as nat, cr, gp, i as int) == b);
            assert(rewire_upto(a0, n as nat, cr, gp, i + 1) == rewire_from(b, n as nat, cr, gp, i as int, b[i as int], b[i as int].len() as int));
        }
        i = i + 1;
    }
    Ghost(gp)
}

/// The small-world adjacency on `n` agents: the ring lattice with `k` neighbors on each side,
/// then rewired. For each agent `i` and each of its neighbors `j > i` whose draw
/// `rewire[i][j]` is set, the link `i - j` is replaced by a link from `i` to an agent picked
/// at random among those not yet linked to `i` (or kept if there is none). The outcome is the
/// small-world rows for some picks.
pub fn small_world_adjacency(n: usize, k: usize, rewire: &Vec<Vec<bool>>) -> (adj: Vec<Vec<usize>>)
    requires
        n + k <= usize::MAX,
    ensures
        exists|picks: Seq<Seq<usize>>| rows(adj@) == #[trigger] small_world_rows(n as nat, k as nat, coin_rows(rewire@), picks),
        undirected(rows(adj@), n as nat),
        k < n ==> loop_free(rows(adj@), n as nat),
        link_total(rows(adj@)) == link_total(lattice_rows(n as nat, k as nat)),
        2 * k < n ==> link_total(rows(adj@)) == 2 * n * k,
        undrawn_kept(rows(adj@), n as nat, k as nat, coin_rows(rewire@)),
        links_explained(rows(adj@), n as nat, k as nat, coin_rows(rewire@)),
        no_coins(coin_rows(rewire@)) ==> forall|x: usize, y: usize|
            x < n && y < n ==> (#[trigger] rows(adj@)[x as int].contains(y) <==> lattice_link(n as nat, k as nat, x as int, y as int)),
{
    let mut adj = ring_lattice(n, k);
    assert(2 * k < n ==> link_total(lattice_rows(n as nat, k as nat)) == 2 * n * k);
    let none: Vec<Vec<usize>> = Vec::new();
    let gp = rewire_core(&mut adj, n, Ghost(k as nat), rewire, &none, true);
    adj
}

/// The small-world adjacency for given picks: as `small_world_adjacency`, except that the new
/// partner of `i` in place of `nb` is `picks[i][nb]` if that agent is a candidate, and the
/// first candidate otherwise.
pub fn small_world_with_picks(n: usize, k: usize, rewire: &Vec<Vec<bool>>, picks: &Vec<Vec<usize>>) -> (adj: Vec<Vec<usize>>)
    requires
        n + k <= usize::MAX,
    ensures
        rows(adj@) == small_world_rows(n as nat, k as nat, coin_rows(rewire@), pick_rows(picks@)),
        undirected(rows(adj@), n as nat),
        k < n ==> loop_free(rows(adj@), n as nat),
        link_total(rows(adj@)) == link_total(lattice_rows(n as nat, k as nat)),
        2 * k < n ==> link_total(rows(adj@)) == 2 * n * k,
        undrawn_kept(rows(adj@), n as nat, k as nat, coin_rows(rewire@)),
        links_explained(rows(adj@), n as nat, k as nat, coin_rows(rewire@)),
{
    let mut adj = ring_lattice(n, k);
    assert(2 * k < n ==> link_total(lattice_rows(n as nat, k as nat)) == 2 * n * k);
    let gp = rewire_core(&mut adj, n, Ghost(k as nat), rewire, picks, false);
    adj
}

} // verus!
