use vstd::prelude::*;
use crate::agent::{law_originate_then_heard, lemma_forwarded_origin, AgentView};
use crate::murmur::{DeliveryView, MurmurView};
use crate::keyed::{lemma_table_index, table_get, table_has, table_keys, ListTable};
use crate::topology::{bfs, hop};
use crate::keyed::table_add;
use crate::network::{law_peak_is_largest, peak, ids_of, lemma_delivered_fields, lemma_forwarded_all, lemma_outgoing_origin, law_tick_preserves, NetworkView};

verus! {

/// Delivering changes no agent's id, never makes an agent forget a murmur, and leaves the
/// target of every delivery of an unexpired murmur knowing that murmur.
pub proof fn lemma_delivered_learns(v: NetworkView, pending: Seq<DeliveryView>, k: int)
    requires
        0 <= k <= pending.len(),
    ensures
        ids_of(v.delivered_upto(pending, k).agents) == ids_of(v.agents),
        forall|i: int, mid: Seq<char>|
            0 <= i < v.agents.len() && v.agents[i].knows(mid) ==> #[trigger] v.delivered_upto(pending, k).agents[i].knows(mid),
        forall|q: int|
            0 <= q < k && v.has(pending[q].to) && pending[q].murmur.ttl > 0 ==> v.delivered_upto(pending, k).agents[v.index(
                pending[q].to,
            )].knows(#[trigger] pending[q].murmur.id),
    decreases k,
{
    if k > 0 {
        lemma_delivered_learns(v, pending, k - 1);
        lemma_delivered_fields(v, pending, k - 1);
        let w = v.delivered_upto(pending, k - 1);
        let d = pending[k - 1];
        let n = w.delivered(d);
        assert(ids_of(n.agents) =~= ids_of(w.agents)) by {
            if w.has(d.to) {
                let i = w.index(d.to);
                assert(ids_of(w.agents)[i] == d.to);
            }
        }
        // what an agent knows only grows
        assert forall|i: int, mid: Seq<char>| 0 <= i < w.agents.len() && w.agents[i].knows(mid) implies #[trigger] n.agents[i].knows(mid) by {
            if w.has(d.to) && i == w.index(d.to) && w.agents[i].accepts(d.murmur) {
                let q = choose|q: int| 0 <= q < w.agents[i].known.len() && w.agents[i].known[q] == mid;
                assert(n.agents[i].known[q] == mid);
            }
        }
        assert(forall|mid: Seq<char>| #[trigger] w.has(mid) == v.has(mid));
        assert(forall|mid: Seq<char>| #[trigger] w.index(mid) == v.index(mid));
        assert forall|q: int| 0 <= q < k && v.has(pending[q].to) && pending[q].murmur.ttl > 0 implies n.agents[v.index(
            pending[q].to,
        )].knows(#[trigger] pending[q].murmur.id) by {
            let i = v.index(pending[q].to);
            assert(ids_of(v.agents)[i] == pending[q].to);
            if q < k - 1 {
                assert(w.agents[i].knows(pending[q].murmur.id));
            } else {
                let a = w.agents[i];
                if a.accepts(d.murmur) {
                    assert(n.agents[i].known[a.known.len() as int] == d.murmur.id);
                }
            }
        }
    }
}

/// The pairs an agent sends for its `j`-th inbox murmur appear among everything it sends.
proof fn lemma_forwarded_block(a: AgentView, orders: Seq<Seq<Seq<char>>>, upto: int, j: int, t: Seq<char>)
    requires
        0 <= j < upto <= a.inbox.len(),
        a.targets(orders[j], j).contains(t),
    ensures
        a.forwarded(orders, upto).contains((t, a.inbox[j])),
    decreases upto,
{
    let prev = a.forwarded(orders, upto - 1);
    let f = |x: Seq<char>| (x, a.inbox[upto - 1]);
    let blk = a.targets(orders[upto - 1], upto - 1).map_values(f);
    if j < upto - 1 {
        lemma_forwarded_block(a, orders, upto - 1, j, t);
        let q = choose|q: int| 0 <= q < prev.len() && prev[q] == (t, a.inbox[j]);
        assert(a.forwarded(orders, upto)[q] == (t, a.inbox[j]));
    } else {
        let tg = a.targets(orders[j], j);
        let q = choose|q: int| 0 <= q < tg.len() && tg[q] == t;
        assert(blk[q] == (t, a.inbox[j]));
        assert(a.forwarded(orders, upto)[prev.len() + q] == (t, a.inbox[j]));
    }
}

/// The deliveries of agent `k` appear among those of the whole tick.
proof fn lemma_outgoing_block(v: NetworkView, orders: Seq<Seq<Seq<Seq<char>>>>, upto: int, k: int, e: (Seq<char>, MurmurView))
    requires
        0 <= k < upto <= v.agents.len(),
        v.agents[k].sends(orders[k]).contains(e),
    ensures
        v.outgoing(orders, upto).contains(DeliveryView { from: v.agents[k].id, to: e.0, murmur: e.1 }),
    decreases upto,
{
    let d = DeliveryView { from: v.agents[k].id, to: e.0, murmur: e.1 };
    let prev = v.outgoing(orders, upto - 1);
    if k < upto - 1 {
        lemma_outgoing_block(v, orders, upto - 1, k, e);
        let q = choose|q: int| 0 <= q < prev.len() && prev[q] == d;
        assert(v.outgoing(orders, upto)[q] == d);
    } else {
        let s = v.agents[k].sends(orders[k]);
        let q = choose|q: int| 0 <= q < s.len() && s[q] == e;
        assert(v.outgoing(orders, upto)[prev.len() + q] == d);
    }
}

/// One hop of gossip: when an agent whose fanout covers all its neighbors holds an unexpired
/// murmur in its inbox, after the next tick every neighbor that is an agent of the network
/// knows that murmur.
pub proof fn law_one_hop(v: NetworkView, orders: Seq<Seq<Seq<Seq<char>>>>, k: int, j: int, y: Seq<char>)
    requires
        v.wf(),
        v.valid_orders(orders),
        0 <= k < v.agents.len(),
        0 <= j < v.agents[k].inbox.len(),
        v.agents[k].inbox[j].ttl > 0,
        v.agents[k].fanout >= v.agents[k].neighbors.len(),
        v.agents[k].neighbors.contains(y),
        v.has(y),
    ensures
        v.ticked(orders).agents[v.index(y)].knows(v.agents[k].inbox[j].id),
{
    broadcast use vstd::seq_lib::group_to_multiset_ensures;

    let a = v.agents[k];
    let m = a.inbox[j];
    let o = orders[k][j];
    assert(a.valid_orders(orders[k]));
    assert(o.to_multiset() == a.neighbors.to_multiset());
    o.to_multiset_ensures();
    a.neighbors.to_multiset_ensures();
    assert(o.len() == a.neighbors.len());
    assert(o.contains(y)) by {
        assert(a.neighbors.to_multiset().count(y) > 0);
    }
    assert(a.spread() == a.neighbors.len());
    assert(a.targets(o, j) =~= o);
    lemma_forwarded_block(a, orders[k], a.inbox.len() as int, j, y);
    lemma_outgoing_block(v, orders, v.agents.len() as int, k, (y, m));
    let s = v.tick_sends(orders);
    let d = DeliveryView { from: a.id, to: y, murmur: m };
    let q = choose|q: int| 0 <= q < s.len() && s[q] == d;
    let mid = v.forwarded_all(orders);
    lemma_forwarded_all(v, orders);
    assert(mid.has(y) == v.has(y));
    assert(mid.index(y) == v.index(y));
    lemma_delivered_learns(mid, s, s.len() as int);
    assert(s[q].murmur.id == m.id);
}

/// A complete graph is covered in one tick: when an agent whose fanout covers its neighbors
/// holds an unexpired murmur and lists every other agent as a neighbor, after the next tick
/// every agent knows the murmur.
pub proof fn law_complete_one_tick(v: NetworkView, orders: Seq<Seq<Seq<Seq<char>>>>, k: int, j: int)
    requires
        v.wf(),
        v.valid_orders(orders),
        0 <= k < v.agents.len(),
        0 <= j < v.agents[k].inbox.len(),
        v.agents[k].inbox[j].ttl > 0,
        v.agents[k].fanout >= v.agents[k].neighbors.len(),
        forall|y: Seq<char>| v.has(y) && y != v.agents[k].id ==> #[trigger] v.agents[k].neighbors.contains(y),
    ensures
        forall|i: int| 0 <= i < v.ticked(orders).agents.len() ==> #[trigger] v.ticked(orders).agents[i].knows(v.agents[k].inbox[j].id),
{
    let m = v.agents[k].inbox[j];
    lemma_valid_orders_fit(v, orders);
    law_tick_preserves(v, orders);
    let t = v.ticked(orders);
    assert forall|i: int| 0 <= i < t.agents.len() implies #[trigger] t.agents[i].knows(m.id) by {
        assert(ids_of(t.agents) == ids_of(v.agents));
        let y = v.agents[i].id;
        assert(ids_of(v.agents)[i] == y);
        assert(v.has(y));
        assert(v.index(y) == i) by {
            let p = v.index(y);
            assert(ids_of(v.agents)[p] == y);
        }
        if y == v.agents[k].id {
            assert(ids_of(v.agents)[k] == y);
            assert(i == k);
            assert(v.agents[k].wf());
            assert(v.agents[k].knows(m.id));
            let mid = v.forwarded_all(orders);
            lemma_forwarded_all(v, orders);
            assert(mid.agents[k].knows(m.id));
            lemma_delivered_learns(mid, v.tick_sends(orders), v.tick_sends(orders).len() as int);
        } else {
            law_one_hop(v, orders, k, j, y);
        }
    }
}


/// Orders that give each agent a neighbor ordering per inbox murmur fit the network.
pub proof fn lemma_valid_orders_fit(v: NetworkView, orders: Seq<Seq<Seq<Seq<char>>>>)
    requires
        v.valid_orders(orders),
    ensures
        v.orders_fit(orders),
{
    assert forall|k: int| 0 <= k < orders.len() implies #[trigger] orders[k].len() == v.agents[k].inbox.len() by {
        assert(v.agents[k].valid_orders(orders[k]));
    }
}


/// The agents a murmur has reached are exactly the agents that know it, so its reach never
/// exceeds the number of agents.
pub proof fn law_reach_is_knowledge(v: NetworkView, mid: Seq<char>)
    requires
        v.wf(),
    ensures
        v.reached(mid).to_set() == Set::new(
            |x: Seq<char>| exists|i: int| 0 <= i < v.agents.len() && v.agents[i].id == x && #[trigger] v.agents[i].knows(mid),
        ),
        v.reached(mid).no_duplicates(),
        v.reached(mid).len() <= v.agents.len(),
{
    let r = v.reached(mid);
    let ids = ids_of(v.agents);
    let knowers = Set::new(
        |x: Seq<char>| exists|i: int| 0 <= i < v.agents.len() && v.agents[i].id == x && #[trigger] v.agents[i].knows(mid),
    );
    assert forall|x: Seq<char>| r.to_set().contains(x) <==> knowers.contains(x) by {
        if r.contains(x) {
            assert(v.has(x));
            let i = choose|i: int| 0 <= i < ids.len() && ids[i] == x;
            assert(v.agents[i].id == x);
            assert(v.agents[i].knows(mid) <==> v.reached(mid).contains(v.agents[i].id));
            assert(v.agents[i].knows(mid));
        }
        if knowers.contains(x) {
            let i = choose|i: int| 0 <= i < v.agents.len() && v.agents[i].id == x && #[trigger] v.agents[i].knows(mid);
            assert(v.agents[i].knows(mid) <==> v.reached(mid).contains(v.agents[i].id));
        }
    }
    assert(r.to_set() =~= knowers);
    if table_has(v.reach, mid) {
        let p = table_keys(v.reach).index_of(mid);
        assert(table_keys(v.reach)[p] == mid);
        lemma_table_index(v.reach, p, mid);
        assert(v.reach[p].1.no_duplicates());
    }
    r.unique_seq_to_set();
    ids.lemma_cardinality_of_set();
    assert(r.to_set().subset_of(ids.to_set())) by {
        assert forall|x: Seq<char>| r.to_set().contains(x) implies ids.to_set().contains(x) by {
            assert(r.contains(x));
            assert(v.has(x));
        }
    }
    vstd::set_lib::lemma_len_subset(r.to_set(), ids.to_set());
}

/// Deduplication: a tick creates no murmur. Every murmur an agent knows after a tick was
/// known to some agent before it.
pub proof fn law_no_new_murmurs(v: NetworkView, orders: Seq<Seq<Seq<Seq<char>>>>, i: int, mid: Seq<char>)
    requires
        v.wf(),
        v.orders_fit(orders),
        0 <= i < v.ticked(orders).agents.len(),
        v.ticked(orders).agents[i].knows(mid),
    ensures
        v.known_anywhere().contains(mid),
{
    law_tick_preserves(v, orders);
    assert(v.ticked(orders).known_anywhere().contains(mid));
}

/// Expiry stops forwarding: an agent never sends out a murmur whose time to live is over.
pub proof fn law_expired_not_forwarded(a: AgentView, orders: Seq<Seq<Seq<char>>>, q: int)
    requires
        0 <= q < a.sends(orders).len(),
    ensures
        a.sends(orders)[q].1.ttl > 0,
{
    lemma_forwarded_origin(a, orders, a.inbox.len() as int, q);
}

/// While every delivery carrying the id of `m` carries `m` itself, an agent that did not know
/// that id and comes to know it during delivery holds `m`, one hop older, in its inbox.
proof fn lemma_relay_inbox(w: NetworkView, pending: Seq<DeliveryView>, t: int, yi: int, m: MurmurView)
    requires
        0 <= t <= pending.len(),
        0 <= yi < w.agents.len(),
        !w.agents[yi].knows(m.id),
        forall|q: int| 0 <= q < pending.len() && #[trigger] pending[q].murmur.id == m.id ==> pending[q].murmur == m,
    ensures
        w.delivered_upto(pending, t).agents.len() == w.agents.len(),
        w.delivered_upto(pending, t).agents[yi].knows(m.id) ==> w.delivered_upto(pending, t).agents[yi].inbox.contains(
            m.decayed(),
        ),
    decreases t,
{
    lemma_delivered_fields(w, pending, t);
    if t > 0 {
        lemma_relay_inbox(w, pending, t - 1, yi, m);
        let u = w.delivered_upto(pending, t - 1);
        let d = pending[t - 1];
        let n = u.delivered(d);
        assert(n == w.delivered_upto(pending, t));
        if u.has(d.to) && u.index(d.to) == yi {
            let a = u.agents[yi];
            assert(ids_of(u.agents)[u.index(d.to)] == d.to);
            if a.accepts(d.murmur) {
                assert(n.agents[yi] == a.received(d.murmur));
                if d.murmur.id == m.id {
                    assert(pending[t - 1].murmur.id == m.id);
                    assert(d.murmur == m);
                    assert(n.agents[yi].inbox[a.inbox.len() as int] == m.decayed());
                } else {
                    crate::anti_entropy::lemma_push_contains(a.known, d.murmur.id, m.id);
                    if n.agents[yi].knows(m.id) {
                        assert(a.knows(m.id));
                        let q = choose|q: int| 0 <= q < a.inbox.len() && a.inbox[q] == m.decayed();
                        assert(n.agents[yi].inbox[q] == m.decayed());
                    }
                }
            } else {
                assert(n.agents[yi] == a);
            }
        } else if u.has(d.to) {
            assert(n.agents[yi] == u.agents[yi]);
        }
    }
}

/// Relaying through a neighbor (a spoke reaches the other spokes of a star through the hub in
/// two ticks): when an agent whose fanout covers its neighbors holds a murmur with at least
/// two hops to live, no other waiting murmur shares its id, and a neighbor that has not heard
/// of it also covers its own neighbors, then two ticks later every neighbor of that neighbor
/// knows the murmur.
pub proof fn law_two_hops(
    v: NetworkView,
    o1: Seq<Seq<Seq<Seq<char>>>>,
    o2: Seq<Seq<Seq<Seq<char>>>>,
    k: int,
    j: int,
    y: Seq<char>,
    z: Seq<char>,
)
    requires
        v.wf(),
        v.valid_orders(o1),
        v.ticked(o1).valid_orders(o2),
        0 <= k < v.agents.len(),
        0 <= j < v.agents[k].inbox.len(),
        v.agents[k].inbox[j].ttl >= 2,
        forall|a: int, q: int|
            0 <= a < v.agents.len() && 0 <= q < v.agents[a].inbox.len() && #[trigger] v.agents[a].inbox[q].id
                == v.agents[k].inbox[j].id ==> v.agents[a].inbox[q] == v.agents[k].inbox[j],
        v.agents[k].fanout >= v.agents[k].neighbors.len(),
        v.agents[k].neighbors.contains(y),
        v.has(y),
        !v.agents[v.index(y)].knows(v.agents[k].inbox[j].id),
        v.agents[v.index(y)].fanout >= v.agents[v.index(y)].neighbors.len(),
        v.agents[v.index(y)].neighbors.contains(z),
        v.has(z),
    ensures
        v.ticked(o1).ticked(o2).agents[v.index(z)].knows(v.agents[k].inbox[j].id),
{
    let m = v.agents[k].inbox[j];
    let yi = v.index(y);
    assert(ids_of(v.agents)[yi] == y);
    let v1 = v.ticked(o1);
    lemma_valid_orders_fit(v, o1);
    law_tick_preserves(v, o1);
    law_one_hop(v, o1, k, j, y);
    // the neighbor now holds the murmur, one hop older
    let w = v.forwarded_all(o1);
    let s = v.tick_sends(o1);
    lemma_forwarded_all(v, o1);
    assert(w.agents[yi].known == v.agents[yi].known);
    assert forall|q: int| 0 <= q < s.len() && #[trigger] s[q].murmur.id == m.id implies s[q].murmur == m by {
        lemma_outgoing_origin(v, o1, v.agents.len() as int, q);
        let (a, p) = choose|a: int, p: int|
            #![trigger v.agents[a].inbox[p]]
            0 <= a < v.agents.len() && 0 <= p < v.agents[a].inbox.len() && s[q].from == v.agents[a].id
                && s[q].murmur == v.agents[a].inbox[p] && v.agents[a].inbox[p].ttl > 0 && o1[a][p].contains(s[q].to);
        assert(v.agents[a].inbox[p].id == m.id);
    }
    lemma_relay_inbox(w, s, s.len() as int, yi, m);
    assert(v1.agents[yi] == w.delivered_all(s).agents[yi]);
    assert(v.index(y) == yi);
    assert(v1.agents[yi].knows(m.id));
    let p = choose|p: int| 0 <= p < v1.agents[yi].inbox.len() && v1.agents[yi].inbox[p] == m.decayed();
    // the second tick carries it on
    assert(ids_of(v1.agents)[yi] == y);
    assert(v1.agents[yi].neighbors == v.agents[yi].neighbors);
    assert(v1.has(z) && v1.index(z) == v.index(z)) by {
        let zi = v.index(z);
        assert(ids_of(v.agents)[zi] == z);
        assert(ids_of(v1.agents)[zi] == z);
        let zj = v1.index(z);
        assert(ids_of(v1.agents)[zj] == z);
    }
    law_one_hop(v1, o2, yi, p, z);
}

/// During delivery, the inbox of agent `i` holds exactly the murmurs whose ids it came to know.
proof fn lemma_inbox_new(w: NetworkView, pending: Seq<DeliveryView>, t: int, i: int)
    requires
        0 <= t <= pending.len(),
        0 <= i < w.agents.len(),
        w.agents[i].inbox.len() == 0,
    ensures
        w.delivered_upto(pending, t).agents.len() == w.agents.len(),
        forall|mid: Seq<char>|
            #![trigger w.delivered_upto(pending, t).agents[i].knows(mid)]
            (exists|q: int| 0 <= q < w.delivered_upto(pending, t).agents[i].inbox.len()
                && #[trigger] w.delivered_upto(pending, t).agents[i].inbox[q].id == mid)
            <==> (w.delivered_upto(pending, t).agents[i].knows(mid) && !w.agents[i].knows(mid)),
    decreases t,
{
    lemma_delivered_fields(w, pending, t);
    if t > 0 {
        lemma_inbox_new(w, pending, t - 1, i);
        lemma_delivered_learns(w, pending, t - 1);
        let u = w.delivered_upto(pending, t - 1);
        let d = pending[t - 1];
        let n = u.delivered(d);
        assert(n == w.delivered_upto(pending, t));
        if u.has(d.to) && u.index(d.to) == i && u.agents[i].accepts(d.murmur) {
            let a = u.agents[i];
            let b = n.agents[i];
            assert(b == a.received(d.murmur));
            assert forall|mid: Seq<char>|
                (exists|q: int| 0 <= q < b.inbox.len() && #[trigger] b.inbox[q].id == mid)
                <==> (b.knows(mid) && !w.agents[i].knows(mid)) by {
                crate::anti_entropy::lemma_push_contains(a.known, d.murmur.id, mid);
                assert(a.knows(mid) ==> u.agents[i].knows(mid));
                if exists|q: int| 0 <= q < b.inbox.len() && #[trigger] b.inbox[q].id == mid {
                    let q = choose|q: int| 0 <= q < b.inbox.len() && #[trigger] b.inbox[q].id == mid;
                    if q < a.inbox.len() {
                        assert(a.inbox[q].id == mid);
                    } else {
                        assert(mid == d.murmur.id);
                        if w.agents[i].knows(mid) {
                            assert(u.agents[i].knows(mid));
                        }
                    }
                }
                if b.knows(mid) && !w.agents[i].knows(mid) {
                    if mid == d.murmur.id {
                        assert(b.inbox[a.inbox.len() as int].id == mid);
                    } else {
                        assert(a.knows(mid));
                        let q = choose|q: int| 0 <= q < a.inbox.len() && #[trigger] a.inbox[q].id == mid;
                        assert(b.inbox[q].id == mid);
                    }
                }
            }
        } else {
            assert(n.agents[i] == u.agents[i]);
            assert forall|mid: Seq<char>|
                (exists|q: int| 0 <= q < n.agents[i].inbox.len() && #[trigger] n.agents[i].inbox[q].id == mid)
                <==> (n.agents[i].knows(mid) && !w.agents[i].knows(mid)) by {
                assert(u.agents[i].knows(mid) == n.agents[i].knows(mid));
            }
        }
    }
}

/// After a tick, each agent's inbox holds exactly the murmurs it newly accepted in that tick:
/// a murmur id is in the inbox if and only if the agent knows it now and did not before.
pub proof fn law_tick_inbox_new(v: NetworkView, orders: Seq<Seq<Seq<Seq<char>>>>, i: int, mid: Seq<char>)
    requires
        v.wf(),
        v.orders_fit(orders),
        0 <= i < v.agents.len(),
    ensures
        (exists|q: int| 0 <= q < v.ticked(orders).agents[i].inbox.len() && #[trigger] v.ticked(orders).agents[i].inbox[q].id == mid)
            <==> (v.ticked(orders).agents[i].knows(mid) && !v.agents[i].knows(mid)),
{
    let w = v.forwarded_all(orders);
    let s = v.tick_sends(orders);
    lemma_forwarded_all(v, orders);
    assert(w.agents[i].inbox.len() == 0);
    assert(w.agents[i].known == v.agents[i].known);
    lemma_inbox_new(w, s, s.len() as int, i);
    assert(v.ticked(orders).agents[i] == w.delivered_all(s).agents[i]);
    assert(w.delivered_all(s).agents[i].knows(mid) == w.delivered_upto(s, s.len() as int).agents[i].knows(mid));
}

/// More neighbors spread at least as far: when an agent holds an unexpired murmur, its fanout
/// covers its neighbors and it lists every other agent (a complete graph), one tick brings the
/// murmur's reach to every agent, which no murmur of any network with at most as many agents
/// can exceed.
pub proof fn law_complete_reach_is_largest(
    v: NetworkView,
    orders: Seq<Seq<Seq<Seq<char>>>>,
    k: int,
    j: int,
    w: NetworkView,
    mid: Seq<char>,
)
    requires
        v.wf(),
        v.valid_orders(orders),
        0 <= k < v.agents.len(),
        0 <= j < v.agents[k].inbox.len(),
        v.agents[k].inbox[j].ttl > 0,
        v.agents[k].fanout >= v.agents[k].neighbors.len(),
        forall|y: Seq<char>| v.has(y) && y != v.agents[k].id ==> #[trigger] v.agents[k].neighbors.contains(y),
        w.wf(),
        w.agents.len() <= v.agents.len(),
    ensures
        v.ticked(orders).reached(v.agents[k].inbox[j].id).len() == v.agents.len(),
        w.reached(mid).len() <= v.ticked(orders).reached(v.agents[k].inbox[j].id).len(),
{
    let m = v.agents[k].inbox[j];
    lemma_valid_orders_fit(v, orders);
    law_tick_preserves(v, orders);
    law_complete_one_tick(v, orders, k, j);
    let t = v.ticked(orders);
    law_reach_is_knowledge(t, m.id);
    law_reach_is_knowledge(w, mid);
    let ids = ids_of(t.agents);
    let r = t.reached(m.id);
    assert(r.to_set() =~= ids.to_set()) by {
        assert forall|x: Seq<char>| r.to_set().contains(x) <==> ids.to_set().contains(x) by {
            if ids.to_set().contains(x) {
                let i = choose|i: int| 0 <= i < ids.len() && ids[i] == x;
                assert(t.agents[i].id == x);
                assert(t.agents[i].knows(m.id));
            }
            if r.to_set().contains(x) {
                let i = choose|i: int| 0 <= i < t.agents.len() && t.agents[i].id == x && #[trigger] t.agents[i].knows(m.id);
                assert(ids[i] == x);
            }
        }
    }
    r.unique_seq_to_set();
    ids.unique_seq_to_set();
}

/// A murmur after `t` hops.
pub open spec fn aged(m: MurmurView, t: nat) -> MurmurView
    decreases t,
{
    if t == 0 { m } else { aged(m, (t - 1) as nat).decayed() }
}

proof fn lemma_aged(m: MurmurView, t: nat)
    requires
        m.ttl == 10,
    ensures
        aged(m, t).id == m.id,
        aged(m, t).ttl == if t <= 10 { 10 - t } else { 0 },
    decreases t,
{
    if t > 0 {
        lemma_aged(m, (t - 1) as nat);
    }
}

/// Each agent's id with its neighbors.
pub open spec fn neighbor_table(v: NetworkView) -> ListTable {
    v.agents.map_values(|a: AgentView| (a.id, a.neighbors))
}

/// The spread of murmur `m` from agent `o`, `t` ticks after it was injected, when every
/// fanout covers its agent's neighbors: an agent has heard of `m` exactly when it lies within
/// `min(t, 10)` hops of `o` (a breadth-first search over the neighbor lists); the agents
/// first reached at hop `t` (while `t <= 10`) hold `m`, `t` hops older, in their inbox, and
/// all other inboxes are empty.
pub open spec fn spreading(v: NetworkView, m: MurmurView, o: Seq<char>, t: nat) -> bool {
    let tab = neighbor_table(v);
    &&& forall|i: int|
        0 <= i < v.agents.len() ==> (#[trigger] v.agents[i].knows(m.id) <==> bfs(tab, o, if t <= 10 { t } else { 10 }).0.contains(
            v.agents[i].id,
        ))
    &&& forall|i: int|
        #![trigger v.agents[i].inbox]
        0 <= i < v.agents.len() ==> (v.agents[i].inbox.len() > 0 <==> (t <= 10 && bfs(tab, o, t).1.contains(v.agents[i].id)))
    &&& forall|i: int, q: int|
        0 <= i < v.agents.len() && 0 <= q < v.agents[i].inbox.len() ==> #[trigger] v.agents[i].inbox[q] == aged(m, t)
    &&& forall|i: int| 0 <= i < v.agents.len() ==> #[trigger] v.agents[i].fanout >= v.agents[i].neighbors.len()
}

/// An agent that comes to know a murmur id during delivery knew it before or was the target
/// of a delivery carrying it.
proof fn lemma_learns_only_from(w: NetworkView, pending: Seq<DeliveryView>, k: int, i: int, mid: Seq<char>)
    requires
        0 <= k <= pending.len(),
        0 <= i < w.agents.len(),
    ensures
        w.delivered_upto(pending, k).agents[i].knows(mid) ==> w.agents[i].knows(mid) || exists|q: int|
            0 <= q < k && #[trigger] pending[q].to == w.agents[i].id && pending[q].murmur.id == mid,
    decreases k,
{
    lemma_delivered_fields(w, pending, k);
    if k > 0 {
        lemma_learns_only_from(w, pending, k - 1, i, mid);
        lemma_delivered_learns(w, pending, k - 1);
        lemma_delivered_fields(w, pending, k - 1);
        let u = w.delivered_upto(pending, k - 1);
        let d = pending[k - 1];
        let n = u.delivered(d);
        assert(n == w.delivered_upto(pending, k));
        assert(ids_of(u.agents)[i] == ids_of(w.agents)[i]);
        if n.agents[i].knows(mid) && !u.agents[i].knows(mid) {
            if u.has(d.to) && u.index(d.to) == i && u.agents[i].accepts(d.murmur) {
                assert(ids_of(u.agents)[u.index(d.to)] == d.to);
                crate::anti_entropy::lemma_push_contains(u.agents[i].known, d.murmur.id, mid);
                assert(pending[k - 1].to == w.agents[i].id);
            } else {
                assert(n.agents[i] == u.agents[i]);
            }
        }
        if w.delivered_upto(pending, k - 1).agents[i].knows(mid) && !w.agents[i].knows(mid) {
            let q = choose|q: int| 0 <= q < k - 1 && #[trigger] pending[q].to == w.agents[i].id && pending[q].murmur.id == mid;
            assert(0 <= q < k && pending[q].to == w.agents[i].id && pending[q].murmur.id == mid);
        }
    }
}

/// When every delivery carries `mt`, an agent whose inbox was empty holds only `mt`, one hop
/// older, afterwards.
proof fn lemma_inbox_from(w: NetworkView, pending: Seq<DeliveryView>, k: int, i: int, mt: MurmurView)
    requires
        0 <= k <= pending.len(),
        0 <= i < w.agents.len(),
        w.agents[i].inbox.len() == 0,
        forall|q: int| 0 <= q < pending.len() ==> #[trigger] pending[q].murmur == mt,
    ensures
        forall|q: int|
            0 <= q < w.delivered_upto(pending, k).agents[i].inbox.len() ==> #[trigger] w.delivered_upto(pending, k).agents[i].inbox[q]
                == mt.decayed(),
    decreases k,
{
    lemma_delivered_fields(w, pending, k);
    if k > 0 {
        lemma_inbox_from(w, pending, k - 1, i, mt);
        lemma_delivered_fields(w, pending, k - 1);
        let u = w.delivered_upto(pending, k - 1);
        let d = pending[k - 1];
        let n = u.delivered(d);
        assert(n == w.delivered_upto(pending, k));
        if u.has(d.to) && u.index(d.to) == i && u.agents[i].accepts(d.murmur) {
            assert(d.murmur == mt);
            assert forall|q: int| 0 <= q < n.agents[i].inbox.len() implies #[trigger] n.agents[i].inbox[q] == mt.decayed() by {
                if q < u.agents[i].inbox.len() {
                    assert(u.agents[i].inbox[q] == mt.decayed());
                }
            }
        } else {
            assert(n.agents[i] == u.agents[i]);
        }
    }
}

/// An agent whose fanout covers its neighbors sends every unexpired murmur of its inbox to
/// each of its neighbors.
proof fn lemma_sent_to(v: NetworkView, orders: Seq<Seq<Seq<Seq<char>>>>, k: int, j: int, y: Seq<char>)
    requires
        v.valid_orders(orders),
        0 <= k < v.agents.len(),
        0 <= j < v.agents[k].inbox.len(),
        v.agents[k].inbox[j].ttl > 0,
        v.agents[k].fanout >= v.agents[k].neighbors.len(),
        v.agents[k].neighbors.contains(y),
    ensures
        v.tick_sends(orders).contains(DeliveryView { from: v.agents[k].id, to: y, murmur: v.agents[k].inbox[j] }),
{
    broadcast use vstd::seq_lib::group_to_multiset_ensures;

    let a = v.agents[k];
    let o = orders[k][j];
    assert(a.valid_orders(orders[k]));
    assert(o.to_multiset() == a.neighbors.to_multiset());
    o.to_multiset_ensures();
    a.neighbors.to_multiset_ensures();
    assert(o.len() == a.neighbors.len());
    assert(o.contains(y)) by {
        assert(a.neighbors.to_multiset().count(y) > 0);
    }
    assert(a.targets(o, j) =~= o);
    lemma_forwarded_block(a, orders[k], a.inbox.len() as int, j, y);
    lemma_outgoing_block(v, orders, v.agents.len() as int, k, (y, a.inbox[j]));
}

/// The search over the neighbor lists finds, as the neighbors of an agent, its own list.
proof fn lemma_neighbor_table(v: NetworkView, k: int)
    requires
        ids_of(v.agents).no_duplicates(),
        0 <= k < v.agents.len(),
    ensures
        table_keys(neighbor_table(v)) == ids_of(v.agents),
        table_get(neighbor_table(v), v.agents[k].id) == v.agents[k].neighbors,
{
    assert(table_keys(neighbor_table(v)) =~= ids_of(v.agents));
    lemma_table_index(neighbor_table(v), k, v.agents[k].id);
}

/// Spreading by hops: one tick carries the murmur one hop further, until it has made ten.
pub proof fn law_spread_step(v: NetworkView, orders: Seq<Seq<Seq<Seq<char>>>>, m: MurmurView, o: Seq<char>, t: nat)
    requires
        v.wf(),
        v.valid_orders(orders),
        m.ttl == 10,
        spreading(v, m, o, t),
    ensures
        spreading(v.ticked(orders), m, o, t + 1),
{
    lemma_valid_orders_fit(v, orders);
    law_tick_preserves(v, orders);
    lemma_aged(m, t);
    lemma_aged(m, t + 1);
    let tv = v.ticked(orders);
    let w = v.forwarded_all(orders);
    let s = v.tick_sends(orders);
    lemma_forwarded_all(v, orders);
    lemma_delivered_learns(w, s, s.len() as int);
    lemma_delivered_fields(w, s, s.len() as int);
    assert(tv.agents == w.delivered_all(s).agents);
    let tab = neighbor_table(v);
    assert(neighbor_table(tv) =~= tab) by {
        assert forall|i: int| 0 <= i < v.agents.len() implies #[trigger] neighbor_table(tv)[i] == tab[i] by {
            assert(ids_of(tv.agents)[i] == ids_of(v.agents)[i]);
        }
    }
    // every delivery of the tick carries the murmur as its senders hold it
    assert forall|q: int| 0 <= q < s.len() implies #[trigger] s[q].murmur == aged(m, t) && s[q].murmur.ttl > 0 by {
        lemma_outgoing_origin(v, orders, v.agents.len() as int, q);
        let (kx, jx) = choose|kx: int, jx: int|
            #![trigger v.agents[kx].inbox[jx]]
            0 <= kx < v.agents.len() && 0 <= jx < v.agents[kx].inbox.len() && s[q].from == v.agents[kx].id
                && s[q].murmur == v.agents[kx].inbox[jx] && v.agents[kx].inbox[jx].ttl > 0 && orders[kx][jx].contains(s[q].to);
    }
    if t >= 10 {
        assert(s.len() == 0) by {
            if s.len() > 0 {
                assert(s[0].murmur == aged(m, t));
            }
        }
        assert(w.delivered_all(s) == w);
        assert forall|i: int| 0 <= i < tv.agents.len() implies (#[trigger] tv.agents[i].knows(m.id) <==> bfs(tab, o, 10).0.contains(
            tv.agents[i].id,
        )) by {
            assert(v.agents[i].knows(m.id) <==> bfs(tab, o, 10).0.contains(v.agents[i].id));
        }
        assert forall|i: int| #![trigger tv.agents[i].inbox] 0 <= i < tv.agents.len() implies (tv.agents[i].inbox.len() > 0
            <==> (t + 1 <= 10 && bfs(tab, o, t + 1).1.contains(tv.agents[i].id))) by {
        }
    } else {
        let b0 = bfs(tab, o, t).0;
        let f = bfs(tab, o, t).1;
        let h = hop(tab, b0, f);
        assert(bfs(tab, o, t + 1) == (b0.union(h), h));
        assert forall|i: int| 0 <= i < tv.agents.len() implies (#[trigger] tv.agents[i].knows(m.id) <==> bfs(tab, o, t + 1).0.contains(
            tv.agents[i].id,
        )) by {
            let y = v.agents[i].id;
            assert(ids_of(tv.agents)[i] == ids_of(v.agents)[i]);
            assert(ids_of(w.agents)[i] == ids_of(v.agents)[i]);
            lemma_learns_only_from(w, s, s.len() as int, i, m.id);
            if tv.agents[i].knows(m.id) && !v.agents[i].knows(m.id) {
                let q = choose|q: int| 0 <= q < s.len() && #[trigger] s[q].to == w.agents[i].id && s[q].murmur.id == m.id;
                lemma_outgoing_origin(v, orders, v.agents.len() as int, q);
                let (kx, jx) = choose|kx: int, jx: int|
                    #![trigger v.agents[kx].inbox[jx]]
                    0 <= kx < v.agents.len() && 0 <= jx < v.agents[kx].inbox.len() && s[q].from == v.agents[kx].id
                        && s[q].murmur == v.agents[kx].inbox[jx] && v.agents[kx].inbox[jx].ttl > 0 && orders[kx][jx].contains(s[q].to);
                assert(v.agents[kx].inbox.len() > 0);
                assert(f.contains(v.agents[kx].id));
                assert(v.agents[kx].valid_orders(orders[kx]));
                assert(v.agents[kx].neighbors.contains(y)) by {
                    broadcast use vstd::seq_lib::group_to_multiset_ensures;
                    assert(orders[kx][jx].to_multiset() == v.agents[kx].neighbors.to_multiset());
                    assert(orders[kx][jx].to_multiset().count(y) > 0);
                }
                lemma_neighbor_table(v, kx);
                assert(table_get(tab, v.agents[kx].id).contains(y));
                assert(!b0.contains(y));
                assert(h.contains(y));
            }
            if bfs(tab, o, t + 1).0.contains(y) && !b0.contains(y) {
                assert(h.contains(y));
                let x = choose|x: Seq<char>| f.contains(x) && #[trigger] table_get(tab, x).contains(y);
                assert(table_has(tab, x));
                assert(table_keys(tab) =~= ids_of(v.agents));
                let kx = choose|kx: int| 0 <= kx < ids_of(v.agents).len() && ids_of(v.agents)[kx] == x;
                lemma_neighbor_table(v, kx);
                assert(v.agents[kx].inbox.len() > 0);
                assert(v.agents[kx].inbox[0] == aged(m, t));
                lemma_sent_to(v, orders, kx, 0, y);
                let d = DeliveryView { from: v.agents[kx].id, to: y, murmur: v.agents[kx].inbox[0] };
                let q = choose|q: int| 0 <= q < s.len() && s[q] == d;
                assert(ids_of(v.agents)[i] == y);
                assert(v.has(y));
                assert(v.index(y) == i) by {
                    let p = v.index(y);
                    assert(ids_of(v.agents)[p] == y);
                }
                assert(w.has(y) && w.index(y) == i) by {
                    assert(ids_of(w.agents) == ids_of(v.agents));
                }
                assert(s[q].murmur.id == m.id);
            }
            if v.agents[i].knows(m.id) {
                assert(w.agents[i].knows(m.id));
            }
        }
        assert forall|i: int| #![trigger tv.agents[i].inbox] 0 <= i < tv.agents.len() implies (tv.agents[i].inbox.len() > 0
            <==> (t + 1 <= 10 && bfs(tab, o, t + 1).1.contains(tv.agents[i].id))) by {
            assert(w.agents[i].inbox.len() == 0);
            lemma_inbox_from(w, s, s.len() as int, i, aged(m, t));
            law_tick_inbox_new(v, orders, i, m.id);
            assert(ids_of(tv.agents)[i] == ids_of(v.agents)[i]);
            assert(tv.agents[i].knows(m.id) <==> bfs(tab, o, t + 1).0.contains(tv.agents[i].id));
            assert(v.agents[i].knows(m.id) <==> b0.contains(v.agents[i].id));
            if tv.agents[i].inbox.len() > 0 {
                assert(tv.agents[i].inbox[0] == aged(m, t).decayed());
                assert(tv.agents[i].inbox[0].id == m.id);
            }
            if h.contains(tv.agents[i].id) {
                assert(!b0.contains(tv.agents[i].id));
            }
        }
        assert forall|i: int, q: int| 0 <= i < tv.agents.len() && 0 <= q < tv.agents[i].inbox.len() implies #[trigger] tv.agents[i].inbox[q] == aged(m, t + 1) by {
            lemma_inbox_from(w, s, s.len() as int, i, aged(m, t));
        }
    }
    assert forall|i: int| 0 <= i < tv.agents.len() implies #[trigger] tv.agents[i].fanout >= tv.agents[i].neighbors.len() by {
        assert(v.agents[i].fanout >= v.agents[i].neighbors.len());
    }
}

/// Spreading starts at the origin: injecting a murmur at agent `origin` of a network where
/// no agent has heard of it, every inbox is empty and every fanout covers its agent's
/// neighbors gives the spread of that murmur after no tick.
pub proof fn law_spread_start(v: NetworkView, origin: Seq<char>, content: Seq<char>, tags: Seq<Seq<char>>)
    requires
        v.wf(),
        v.has(origin),
        forall|i: int| 0 <= i < v.agents.len() ==> #[trigger] v.agents[i].inbox.len() == 0,
        forall|i: int| 0 <= i < v.agents.len() ==> #[trigger] v.agents[i].fanout >= v.agents[i].neighbors.len(),
        forall|i: int|
            0 <= i < v.agents.len() ==> !#[trigger] v.agents[i].knows(
                v.agents[v.index(origin)].new_murmur(content, tags).id,
            ),
    ensures
        ({
            let io = v.index(origin);
            let m = v.agents[io].new_murmur(content, tags);
            spreading(
                NetworkView {
                    agents: v.agents.update(io, v.agents[io].originated(m)),
                    reach: table_add(v.reach, m.id, origin),
                    ..v
                },
                m,
                origin,
                0,
            )
        }),
{
    let io = v.index(origin);
    assert(ids_of(v.agents)[io] == origin);
    let m = v.agents[io].new_murmur(content, tags);
    let n = NetworkView { agents: v.agents.update(io, v.agents[io].originated(m)), reach: table_add(v.reach, m.id, origin), ..v };
    let tab = neighbor_table(n);
    assert(bfs(tab, origin, 0) == (set![origin], set![origin]));
    law_originate_then_heard(v.agents[io], content, tags);
    assert forall|i: int| 0 <= i < n.agents.len() implies (#[trigger] n.agents[i].knows(m.id) <==> bfs(tab, origin, 0).0.contains(n.agents[i].id)) by {
        if i != io {
            assert(ids_of(v.agents)[i] != ids_of(v.agents)[io]);
        }
    }
    assert forall|i: int| #![trigger n.agents[i].inbox] 0 <= i < n.agents.len() implies (n.agents[i].inbox.len() > 0
        <==> (0 <= 10 && bfs(tab, origin, 0).1.contains(n.agents[i].id))) by {
        if i != io {
            assert(ids_of(v.agents)[i] != ids_of(v.agents)[io]);
        }
    }
    assert forall|i: int, q: int| 0 <= i < n.agents.len() && 0 <= q < n.agents[i].inbox.len() implies #[trigger] n.agents[i].inbox[q] == aged(m, 0) by {
        if i != io {
            assert(v.agents[i].inbox.len() == 0);
        } else {
            assert(v.agents[io].inbox.len() == 0);
        }
    }
    assert forall|i: int| 0 <= i < n.agents.len() implies #[trigger] n.agents[i].fanout >= n.agents[i].neighbors.len() by {
        assert(v.agents[i].fanout >= v.agents[i].neighbors.len());
    }
}

/// Spreading over several ticks: after `s` more ticks with valid neighbor orders, the murmur
/// has spread `s` hops further (up to ten in all), so an agent has heard of it exactly when it
/// lies within `min(t + s, 10)` hops of the origin.
pub proof fn law_spread_run(v: NetworkView, os: Seq<Seq<Seq<Seq<Seq<char>>>>>, m: MurmurView, o: Seq<char>, t: nat, s: nat)
    requires
        v.wf(),
        m.ttl == 10,
        spreading(v, m, o, t),
        v.valid_run(os, s as int),
    ensures
        spreading(v.ticked_upto(os, s as int), m, o, t + s),
        v.ticked_upto(os, s as int).wf(),
    decreases s,
{
    if s > 0 {
        assert(v.valid_run(os, s - 1)) by {
            assert forall|k: int| 0 <= k < s - 1 implies #[trigger] v.ticked_upto(os, k).valid_orders(os[k]) by {
                assert(v.ticked_upto(os, k).valid_orders(os[k]));
            }
        }
        law_spread_run(v, os, m, o, t, (s - 1) as nat);
        let u = v.ticked_upto(os, s - 1);
        assert(u.valid_orders(os[s - 1]));
        lemma_valid_orders_fit(u, os[s - 1]);
        law_tick_preserves(u, os[s - 1]);
        law_spread_step(u, os[s - 1], m, o, (t + s - 1) as nat);
        assert(v.ticked_upto(os, s as int) == u.ticked(os[s - 1]));
    }
}

/// The peak recorded after a tick is the largest reach of any murmur then: at least the reach
/// of every murmur, and the reach of one of them (none only when no murmur is listed).
pub proof fn law_tick_peak(v: NetworkView, orders: Seq<Seq<Seq<Seq<char>>>>, mid: Seq<char>)
    requires
        v.wf(),
        v.orders_fit(orders),
        v.agents.len() <= usize::MAX,
    ensures
        ({
            let tv = v.ticked(orders);
            &&& tv.peaks == v.peaks.push(peak(tv.reach))
            &&& tv.reach.len() == 0 <==> peak(tv.reach) is None
            &&& peak(tv.reach) matches Some(c) ==> tv.reached(mid).len() <= c
                && exists|m2: Seq<char>| #[trigger] tv.reached(m2).len() == c
        }),
{
    law_tick_preserves(v, orders);
    let tv = v.ticked(orders);
    lemma_delivered_fields(v.forwarded_all(orders), v.tick_sends(orders), v.tick_sends(orders).len() as int);
    lemma_forwarded_all(v, orders);
    assert(tv.agents.len() == v.agents.len());
    assert forall|p: int| 0 <= p < tv.reach.len() implies #[trigger] tv.reach[p].1.len() <= usize::MAX by {
        let k = tv.reach[p].0;
        lemma_table_index(tv.reach, p, k);
        law_reach_is_knowledge(tv, k);
    }
    law_peak_is_largest(tv.reach, tv);
    law_reach_is_knowledge(tv, mid);
    if peak(tv.reach) is Some {
        let c = peak(tv.reach)->0;
        let p = choose|p: int| 0 <= p < tv.reach.len() && #[trigger] tv.reach[p].1.len() == c;
        lemma_table_index(tv.reach, p, tv.reach[p].0);
        assert(tv.reached(tv.reach[p].0).len() == c);
        if table_has(tv.reach, mid) {
            let q = table_keys(tv.reach).index_of(mid);
            assert(table_keys(tv.reach)[q] == mid);
            lemma_table_index(tv.reach, q, mid);
            assert(tv.reach[q].1.len() <= c);
        }
    }
}

} // verus!
