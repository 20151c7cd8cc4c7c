use vstd::prelude::*;
use crate::agent::{lemma_forwarded_origin, order_views, AgentView, GossipAgent};
use crate::keyed::{
    keys, lemma_table_add, lemma_table_keys, table_add, table_get, table_has, table_insert,
    table_keys, table_views, views, ListTable,
};
use crate::murmur::{DeliveryView, Murmur, MurmurDelivery, MurmurView};
use crate::text::{lex_sorted, str_eq};
use crate::topology::NetworkTopology;

verus! {

broadcast use vstd::string::group_string_axioms;

/// A network of gossiping agents on a topology, with a record of which agents each
/// murmur has reached.
#[derive(Debug, Clone)]
pub struct GossipNetwork {
    pub agents: Vec<GossipAgent>,
    pub topology: NetworkTopology,
    /// For each murmur id, the agents that know it.
    murmur_reach: Vec<(String, Vec<String>)>,
    tick_count: usize,
    /// The deliveries of each tick.
    history: Vec<Vec<MurmurDelivery>>,
    /// After each tick, the largest reach of any murmur (none if there was no murmur).
    peaks: Vec<Option<usize>>,
}

/// What a network holds, as mathematical values.
pub struct NetworkView {
    pub agents: Seq<AgentView>,
    pub topology: ListTable,
    pub reach: ListTable,
    pub tick_count: nat,
    pub history: Seq<Seq<DeliveryView>>,
    pub peaks: Seq<Option<usize>>,
}

/// The views of a sequence of agents.
pub open spec fn agent_views(s: Seq<GossipAgent>) -> Seq<AgentView> {
    s.map_values(|a: GossipAgent| a@)
}

/// The views of a sequence of deliveries.
pub open spec fn delivery_views(s: Seq<MurmurDelivery>) -> Seq<DeliveryView> {
    s.map_values(|d: MurmurDelivery| d@)
}

/// The views of a table of neighbor orders, one list of orders per agent.
pub open spec fn order_table(s: Seq<Vec<Vec<String>>>) -> Seq<Seq<Seq<Seq<char>>>> {
    s.map_values(|o: Vec<Vec<String>>| order_views(o@))
}

/// The largest list length among the first `k` entries of a table, none if `k` is zero.
pub open spec fn peak_upto(t: ListTable, k: int) -> Option<usize>
    decreases k,
{
    if k <= 0 {
        None
    } else {
        let c = t[k - 1].1.len();
        match peak_upto(t, k - 1) {
            None => Some(c as usize),
            Some(m) => Some(if c > m { c as usize } else { m }),
        }
    }
}

/// The largest reach of any murmur in a reach table, none if the table is empty.
pub open spec fn peak(t: ListTable) -> Option<usize> {
    peak_upto(t, t.len() as int)
}

/// The ids of a sequence of agents.
pub open spec fn ids_of(agents: Seq<AgentView>) -> Seq<Seq<char>> {
    agents.map_values(|a: AgentView| a.id)
}

impl View for GossipNetwork {
    type V = NetworkView;

    closed spec fn view(&self) -> NetworkView {
        NetworkView {
            agents: agent_views(self.agents@),
            topology: self.topology@,
            reach: table_views(self.murmur_reach@),
            tick_count: self.tick_count as nat,
            history: self.history@.map_values(|h: Vec<MurmurDelivery>| delivery_views(h@)),
            peaks: self.peaks@,
        }
    }
}

impl NetworkView {
    /// Whether an agent has id `id`.
    pub open spec fn has(self, id: Seq<char>) -> bool {
        ids_of(self.agents).contains(id)
    }

    /// The position of the agent with id `id`.
    pub open spec fn index(self, id: Seq<char>) -> int {
        ids_of(self.agents).index_of(id)
    }

    /// The agents that murmur `mid` has reached.
    pub open spec fn reached(self, mid: Seq<char>) -> Seq<Seq<char>> {
        table_get(self.reach, mid)
    }

    /// The ids of the murmurs that some agent knows.
    pub open spec fn known_anywhere(self) -> Set<Seq<char>> {
        Set::new(|mid: Seq<char>| exists|i: int| 0 <= i < self.agents.len() && #[trigger] self.agents[i].knows(mid))
    }

    /// Agent ids are distinct and each agent is well formed; the reach table lists each
    /// murmur once and each agent once per murmur, and an agent is listed under a murmur
    /// exactly when it knows that murmur.
    pub open spec fn wf(self) -> bool {
        &&& ids_of(self.agents).no_duplicates()
        &&& forall|i: int| 0 <= i < self.agents.len() ==> #[trigger] self.agents[i].wf()
        &&& table_keys(self.reach).no_duplicates()
        &&& forall|p: int| 0 <= p < self.reach.len() ==> #[trigger] self.reach[p].1.no_duplicates()
        &&& forall|mid: Seq<char>, x: Seq<char>| #[trigger] self.reached(mid).contains(x) ==> self.has(x)
        &&& forall|i: int, mid: Seq<char>|
            0 <= i < self.agents.len() ==> (#[trigger] self.agents[i].knows(mid) <==> self.reached(
                mid,
            ).contains(self.agents[i].id))
    }

    /// The network after delivery `d`: if its target is an agent, the target receives the
    /// murmur and, if it accepts it, is recorded as reached.
    pub open spec fn delivered(self, d: DeliveryView) -> NetworkView {
        if self.has(d.to) {
            let i = self.index(d.to);
            let a = self.agents[i];
            NetworkView {
                agents: self.agents.update(i, a.received(d.murmur)),
                reach: if a.accepts(d.murmur) {
                    table_add(self.reach, d.murmur.id, d.to)
                } else {
                    self.reach
                },
                ..self
            }
        } else {
            self
        }
    }

    /// The network after the first `k` deliveries of `pending`, in order.
    pub open spec fn delivered_upto(self, pending: Seq<DeliveryView>, k: int) -> NetworkView
        decreases k,
    {
        if k <= 0 {
            self
        } else {
            self.delivered_upto(pending, k - 1).delivered(pending[k - 1])
        }
    }

    /// The network after all of `pending`, in order.
    pub open spec fn delivered_all(self, pending: Seq<DeliveryView>) -> NetworkView {
        self.delivered_upto(pending, pending.len() as int)
    }

    /// What agents `0 .. upto` send out when agent `k` orders its neighbors by `orders[k]`,
    /// each pair turned into a delivery from that agent.
    pub open spec fn outgoing(self, orders: Seq<Seq<Seq<Seq<char>>>>, upto: int) -> Seq<DeliveryView>
        decreases upto,
    {
        if upto <= 0 {
            Seq::empty()
        } else {
            self.outgoing(orders, upto - 1) + self.agents[upto - 1].sends(orders[upto - 1]).map_values(
                |p: (Seq<char>, MurmurView)| DeliveryView { from: self.agents[upto - 1].id, to: p.0, murmur: p.1 },
            )
        }
    }

    /// What all agents send out in one tick, with neighbor orders `orders`.
    pub open spec fn tick_sends(self, orders: Seq<Seq<Seq<Seq<char>>>>) -> Seq<DeliveryView> {
        self.outgoing(orders, self.agents.len() as int)
    }

    /// The network once every agent has forwarded its inbox.
    pub open spec fn forwarded_all(self, orders: Seq<Seq<Seq<Seq<char>>>>) -> NetworkView {
        NetworkView {
            agents: Seq::new(self.agents.len(), |k: int| self.agents[k].after_forward(orders[k])),
            ..self
        }
    }

    /// The network after one tick: every agent forwards its inbox, then every delivery is
    /// handed to its target; the tick is counted and its landed deliveries recorded.
    pub open spec fn ticked(self, orders: Seq<Seq<Seq<Seq<char>>>>) -> NetworkView {
        let after = self.forwarded_all(orders).delivered_all(self.tick_sends(orders));
        NetworkView {
            tick_count: self.tick_count + 1,
            history: self.history.push(self.landed(self.tick_sends(orders))),
            peaks: self.peaks.push(peak(after.reach)),
            ..after
        }
    }

    /// `orders` holds, for each agent, one neighbor order per murmur in its inbox.
    pub open spec fn orders_fit(self, orders: Seq<Seq<Seq<Seq<char>>>>) -> bool {
        &&& orders.len() == self.agents.len()
        &&& forall|k: int| 0 <= k < orders.len() ==> #[trigger] orders[k].len() == self.agents[k].inbox.len()
    }

    /// Each order in `orders` is an ordering of the neighbors of its agent.
    pub open spec fn valid_orders(self, orders: Seq<Seq<Seq<Seq<char>>>>) -> bool {
        &&& orders.len() == self.agents.len()
        &&& forall|k: int| 0 <= k < orders.len() ==> #[trigger] self.agents[k].valid_orders(orders[k])
    }

    /// Whether `count` agents make at least 95% of the agents.
    pub open spec fn covers(self, count: int) -> bool {
        20 * count >= 19 * self.agents.len()
    }

    /// Whether a recorded peak reach makes at least 95% of the agents.
    pub open spec fn peak_covers(self, p: Option<usize>) -> bool {
        match p {
            Some(c) => self.covers(c as int),
            None => false,
        }
    }

    /// The first of the first `k` ticks, counting from one, after which some murmur had
    /// reached 95% of the agents; zero if there is none.
    pub open spec fn first_cover(self, k: int) -> nat
        decreases k,
    {
        if k <= 0 {
            0
        } else if self.first_cover(k - 1) > 0 {
            self.first_cover(k - 1)
        } else if self.peak_covers(self.peaks[k - 1]) {
            k as nat
        } else {
            0
        }
    }

    /// The number of ticks until some murmur reached 95% of the agents: the earliest such
    /// tick; if no tick ended so, the number of ticks so far if some murmur has reached 95%
    /// now; otherwise `usize::MAX`.
    pub open spec fn speed(self) -> nat {
        if self.first_cover(self.peaks.len() as int) > 0 {
            self.first_cover(self.peaks.len() as int)
        } else if self.peak_covers(peak(self.reach)) {
            self.history.len()
        } else {
            usize::MAX as nat
        }
    }

    /// The deliveries of `pending` whose target is an agent.
    pub open spec fn landed(self, pending: Seq<DeliveryView>) -> Seq<DeliveryView> {
        pending.filter(lands_in(self))
    }

    /// The network after the first `s` ticks, tick `t` with neighbor orders `os[t]`.
    pub open spec fn ticked_upto(self, os: Seq<Seq<Seq<Seq<Seq<char>>>>>, s: int) -> NetworkView
        decreases s,
    {
        if s <= 0 {
            self
        } else {
            self.ticked_upto(os, s - 1).ticked(os[s - 1])
        }
    }

    /// Each of the first `s` ticks orders the neighbors validly.
    pub open spec fn valid_run(self, os: Seq<Seq<Seq<Seq<Seq<char>>>>>, s: int) -> bool {
        forall|t: int| 0 <= t < s ==> #[trigger] self.ticked_upto(os, t).valid_orders(os[t])
    }
}

/// Holds of a delivery whose target is an agent of `v`.
pub open spec fn lands_in(v: NetworkView) -> spec_fn(DeliveryView) -> bool {
    |d: DeliveryView| v.has(d.to)
}

/// Every murmur in `s` can still rise by its remaining time to live in hop count.
pub open spec fn hops_bounded(s: Seq<DeliveryView>) -> bool {
    forall|k: int| 0 <= k < s.len() ==> #[trigger] s[k].murmur.hops + s[k].murmur.ttl <= u32::MAX
}

/// A delivery keeps agent ids, a well-formed network well formed, and the reach of every
/// murmur; a murmur that reaches an agent which accepts it adds that agent to its reach.
pub proof fn lemma_delivered(v: NetworkView, d: DeliveryView)
    requires
        v.wf(),
        d.murmur.hops + d.murmur.ttl <= u32::MAX,
    ensures
        v.delivered(d).wf(),
        ids_of(v.delivered(d).agents) == ids_of(v.agents),
        forall|mid: Seq<char>| #[trigger] v.reached(mid).to_set().subset_of(v.delivered(d).reached(mid).to_set()),
{
    let n = v.delivered(d);
    assert(ids_of(n.agents) =~= ids_of(v.agents)) by {
        if v.has(d.to) {
            let i = v.index(d.to);
            assert(ids_of(v.agents)[i] == d.to);
        }
    }
    if v.has(d.to) {
        let i = v.index(d.to);
        let a = v.agents[i];
        assert(ids_of(v.agents)[i] == d.to);
        assert(a.id == d.to);
        if a.accepts(d.murmur) {
            assert forall|k2: Seq<char>| true implies #[trigger] table_get(n.reach, k2) == (if k2 == d.murmur.id {
                if table_get(v.reach, d.murmur.id).contains(d.to) { table_get(v.reach, d.murmur.id) } else { table_get(v.reach, d.murmur.id).push(d.to) }
            } else {
                table_get(v.reach, k2)
            }) by {
                lemma_table_add(v.reach, d.murmur.id, d.to, k2);
            }
            lemma_table_add(v.reach, d.murmur.id, d.to, d.murmur.id);
            assert(!v.reached(d.murmur.id).contains(d.to)) by {
                assert(!a.knows(d.murmur.id));
                assert(v.agents[i].knows(d.murmur.id) <==> v.reached(d.murmur.id).contains(v.agents[i].id));
            }
            assert(n.reached(d.murmur.id) == v.reached(d.murmur.id).push(d.to));
            // reach lists stay free of duplicates
            assert forall|p: int| 0 <= p < n.reach.len() implies #[trigger] n.reach[p].1.no_duplicates() by {
                let k2 = n.reach[p].0;
                assert(table_keys(n.reach)[p] == k2);
                crate::keyed::lemma_table_index(n.reach, p, k2);
                if table_has(v.reach, k2) {
                    let q = table_keys(v.reach).index_of(k2);
                    assert(table_keys(v.reach)[q] == k2);
                    crate::keyed::lemma_table_index(v.reach, q, k2);
                    assert(v.reach[q].1.no_duplicates());
                }
            }
            assert forall|mid: Seq<char>, x: Seq<char>| #[trigger] n.reached(mid).contains(x) implies n.has(x) by {
                assert(ids_of(n.agents) == ids_of(v.agents));
                if mid == d.murmur.id && x == d.to {
                    assert(ids_of(n.agents)[i] == d.to);
                } else if mid == d.murmur.id {
                    let j = choose|j: int| 0 <= j < n.reached(mid).len() && n.reached(mid)[j] == x;
                    assert(j < v.reached(mid).len());
                    assert(v.reached(mid)[j] == x);
                    assert(v.reached(mid).contains(x));
                } else {
                    assert(v.reached(mid).contains(x));
                }
            }
            assert forall|j: int, mid: Seq<char>| 0 <= j < n.agents.len() implies (#[trigger] n.agents[j].knows(mid) <==> n.reached(mid).contains(n.agents[j].id)) by {
                assert(v.agents[j].knows(mid) <==> v.reached(mid).contains(v.agents[j].id));
                if j == i {
                    assert(n.agents[j].known == a.known.push(d.murmur.id));
                    if mid == d.murmur.id {
                        assert(n.reached(mid)[n.reached(mid).len() - 1] == d.to);
                        assert(n.agents[j].known[a.known.len() as int] == mid);
                    } else {
                        if n.agents[j].knows(mid) {
                            let q = choose|q: int| 0 <= q < n.agents[j].known.len() && n.agents[j].known[q] == mid;
                            assert(a.known[q] == mid);
                        }
                        if a.knows(mid) {
                            let q = choose|q: int| 0 <= q < a.known.len() && a.known[q] == mid;
                            assert(n.agents[j].known[q] == mid);
                        }
                    }
                } else {
                    assert(n.agents[j] == v.agents[j]);
                    assert(ids_of(v.agents)[j] == v.agents[j].id);
                    assert(v.agents[j].id != d.to);
                    if mid == d.murmur.id {
                        if n.reached(mid).contains(v.agents[j].id) {
                            let q = choose|q: int| 0 <= q < n.reached(mid).len() && n.reached(mid)[q] == v.agents[j].id;
                            assert(q < v.reached(mid).len());
                            assert(v.reached(mid)[q] == v.agents[j].id);
                        }
                        if v.reached(mid).contains(v.agents[j].id) {
                            let q = choose|q: int| 0 <= q < v.reached(mid).len() && v.reached(mid)[q] == v.agents[j].id;
                            assert(n.reached(mid)[q] == v.agents[j].id);
                        }
                    }
                }
            }
            assert forall|mid: Seq<char>| #[trigger] v.reached(mid).to_set().subset_of(n.reached(mid).to_set()) by {
                if mid == d.murmur.id {
                    assert forall|x: Seq<char>| v.reached(mid).to_set().contains(x) implies n.reached(mid).to_set().contains(x) by {
                        let q = choose|q: int| 0 <= q < v.reached(mid).len() && v.reached(mid)[q] == x;
                        assert(n.reached(mid)[q] == x);
                    }
                }
            }
            assert forall|j: int| 0 <= j < n.agents.len() implies #[trigger] n.agents[j].wf() by {
                if j != i {
                    assert(n.agents[j] == v.agents[j]);
                } else {
                    assert(v.agents[j].wf());
                    let f = n.agents[j];
                    assert forall|q: int| 0 <= q < f.inbox.len() implies #[trigger] f.knows(f.inbox[q].id) by {
                        if q < a.inbox.len() {
                            assert(a.knows(a.inbox[q].id));
                            let r = choose|r: int| 0 <= r < a.known.len() && a.known[r] == a.inbox[q].id;
                            assert(f.known[r] == a.inbox[q].id);
                        } else {
                            assert(f.known[a.known.len() as int] == f.inbox[q].id);
                        }
                    }
                    assert forall|q: int| 0 <= q < f.inbox.len() implies #[trigger] f.inbox[q].hops + f.inbox[q].ttl <= u32::MAX by {
                        if q < a.inbox.len() {
                            assert(f.inbox[q] == a.inbox[q]);
                        }
                    }
                }
            }
        } else {
            assert(n.agents =~= v.agents);
        }
    }
}


/// A copy of a list of deliveries.
fn clone_deliveries(v: &Vec<MurmurDelivery>) -> (r: Vec<MurmurDelivery>)
    ensures
        delivery_views(r@) == delivery_views(v@),
{
    let mut r: Vec<MurmurDelivery> = Vec::new();
    let mut i: usize = 0;
    while i < v.len()
        invariant
            i <= v.len(),
            delivery_views(r@) == delivery_views(v@).take(i as int),
        decreases v.len() - i,
    {
        let ghost prev = delivery_views(r@);
        r.push(v[i].clone());
        assert(delivery_views(r@) =~= prev.push(v@[i as int]@));
        assert(delivery_views(v@).take(i + 1) =~= delivery_views(v@).take(i as int).push(v@[i as int]@));
        i = i + 1;
    }
    assert(delivery_views(v@).take(v.len() as int) =~= delivery_views(v@));
    r
}

/// The first agent whose id is `id`, if any.
fn agent_position(agents: &Vec<GossipAgent>, id: &str) -> (r: Option<usize>)
    ensures
        match r {
            Some(i) => i < agents.len() && agents@[i as int]@.id == id@ && forall|j: int|
                0 <= j < i ==> agents@[j]@.id != id@,
            None => !ids_of(agent_views(agents@)).contains(id@),
        },
{
    let mut i: usize = 0;
    while i < agents.len()
        invariant
            i <= agents.len(),
            forall|j: int| 0 <= j < i ==> agents@[j]@.id != id@,
        decreases agents.len() - i,
    {
        if str_eq(agents[i].id.as_str(), id) {
            return Some(i);
        }
        i = i + 1;
    }
    proof {
        if ids_of(agent_views(agents@)).contains(id@) {
            let j = choose|j: int| 0 <= j < ids_of(agent_views(agents@)).len() && ids_of(agent_views(agents@))[j] == id@;
            assert(agents@[j]@.id == id@);
        }
    }
    None
}

/// With distinct ids, the agent found at position `i` is the one `index` names.
proof fn lemma_index(v: NetworkView, i: int, id: Seq<char>)
    requires
        ids_of(v.agents).no_duplicates(),
        0 <= i < v.agents.len(),
        v.agents[i].id == id,
    ensures
        v.has(id),
        v.index(id) == i,
{
    assert(ids_of(v.agents)[i] == id);
    let j = v.index(id);
    assert(ids_of(v.agents)[j] == id);
}

impl GossipNetwork {
    /// A network with one fresh agent per agent of `topology`, in lexicographic order of
    /// their names, each with its neighbors in the topology.
    pub fn new(topology: NetworkTopology) -> (r: Self)
        ensures
            lex_sorted(ids_of(r@.agents)),
            ids_of(r@.agents).to_multiset() == crate::keyed::table_keys(topology@).to_multiset(),
            forall|i: int|
                0 <= i < r@.agents.len() ==> #[trigger] r@.agents[i] == AgentView::initial(
                    r@.agents[i].id,
                    table_get(topology@, r@.agents[i].id),
                ),
            r@.topology == topology@,
            r@.reach == Seq::<(Seq<char>, Seq<Seq<char>>)>::empty(),
            r@.tick_count == 0,
            r@.history == Seq::<Seq<DeliveryView>>::empty(),
            r@.peaks == Seq::<Option<usize>>::empty(),
            r@.wf(),
    {
        let ids = topology.agent_ids();
        let mut agents: Vec<GossipAgent> = Vec::new();
        let mut i: usize = 0;
        while i < ids.len()
            invariant
                i <= ids.len(),
                agents.len() == i,
                forall|j: int| 0 <= j < i ==> #[trigger] agents@[j]@ == AgentView::initial(
                    ids@[j]@,
                    table_get(topology@, ids@[j]@),
                ),
            decreases ids.len() - i,
        {
            let neighbors = topology.get_neighbors(ids[i].as_str());
            agents.push(GossipAgent::new(ids[i].as_str(), neighbors));
            i = i + 1;
        }
        let r = GossipNetwork {
            agents,
            topology,
            murmur_reach: Vec::new(),
            tick_count: 0,
            history: Vec::new(),
            peaks: Vec::new(),
        };
        proof {
            assert(ids_of(r@.agents) =~= views(ids@));
            assert(table_views(r.murmur_reach@) =~= Seq::empty());
            assert(r.history@.map_values(|h: Vec<MurmurDelivery>| delivery_views(h@)) =~= Seq::empty());
            let v = r@;
            assert forall|mid: Seq<char>, x: Seq<char>| #[trigger] v.reached(mid).contains(x) implies v.has(x) by {
                assert(!table_has(v.reach, mid));
            }
            assert forall|j: int, mid: Seq<char>| 0 <= j < v.agents.len() implies (#[trigger] v.agents[j].knows(mid) <==> v.reached(mid).contains(v.agents[j].id)) by {
                assert(!table_has(v.reach, mid));
                assert(v.agents[j].known.len() == 0);
            }
        }
        r
    }

    /// The largest reach of any murmur, none if no murmur has been recorded.
    fn largest_reach(&self) -> (r: Option<usize>)
        ensures
            r == peak(self@.reach),
    {
        let mut best: Option<usize> = None;
        let mut p: usize = 0;
        while p < self.murmur_reach.len()
            invariant
                p <= self.murmur_reach.len(),
                best == peak_upto(self@.reach, p as int),
            decreases self.murmur_reach.len() - p,
        {
            let c = self.murmur_reach[p].1.len();
            assert(c == self@.reach[p as int].1.len());
            best = match best {
                None => Some(c),
                Some(m) => Some(if c > m { c } else { m }),
            };
            p = p + 1;
        }
        best
    }

    /// The number of ticks until some murmur reached at least 95% of the agents (the
    /// earliest such tick); `usize::MAX` if no murmur has.
    pub fn spread_speed(&self) -> (r: usize)
        ensures
            r == self@.speed(),
    {
        let n = self.agents.len();
        let mut t: usize = 0;
        while t < self.peaks.len()
            invariant
                t <= self.peaks.len(),
                n == self@.agents.len(),
                self@.first_cover(t as int) == 0,
            decreases self.peaks.len() - t,
        {
            if let Some(c) = self.peaks[t] {
                if (c as u128) * 20 >= (n as u128) * 19 {
                    assert(self@.peak_covers(self@.peaks[t as int]));
                    proof {
                        lemma_first_cover_stays(self@, t as int + 1, self@.peaks.len() as int);
                    }
                    return t + 1;
                }
            }
            t = t + 1;
        }
        let current = self.largest_reach();
        let hit = match current {
            Some(c) => (c as u128) * 20 >= (n as u128) * 19,
            None => false,
        };
        if hit {
            self.history.len()
        } else {
            usize::MAX
        }
    }

    /// How many agents the network has.
    pub fn agent_count(&self) -> (r: usize)
        ensures
            r == self@.agents.len(),
    {
        self.agents.len()
    }

    /// The agent with id `id`, if any.
    pub fn agent(&self, id: &str) -> (r: Option<&GossipAgent>)
        requires
            ids_of(self@.agents).no_duplicates(),
        ensures
            match r {
                Some(a) => self@.has(id@) && a@ == self@.agents[self@.index(id@)],
                None => !self@.has(id@),
            },
    {
        match agent_position(&self.agents, id) {
            Some(i) => {
                proof {
                    lemma_index(self@, i as int, id@);
                }
                Some(&self.agents[i])
            },
            None => None,
        }
    }

    /// Sets the fanout of every agent, and changes nothing else.
    pub fn set_fanout(&mut self, fanout: usize)
        ensures
            final(self)@ == (NetworkView {
                agents: Seq::new(old(self)@.agents.len(), |i: int| (AgentView { fanout, ..old(self)@.agents[i] })),
                ..old(self)@
            }),
            old(self)@.wf() ==> final(self)@.wf(),
    {
        let ghost o = self@;
        let mut i: usize = 0;
        while i < self.agents.len()
            invariant
                i <= self.agents.len(),
                self.agents.len() == o.agents.len(),
                self@ == (NetworkView { agents: self@.agents, ..o }),
                forall|j: int| 0 <= j < i ==> #[trigger] self@.agents[j] == (AgentView { fanout, ..o.agents[j] }),
                forall|j: int| i <= j < o.agents.len() ==> #[trigger] self@.agents[j] == o.agents[j],
            decreases self.agents.len() - i,
        {
            let ghost pre = self.agents@;
            proof {
                assert(agent_views(pre)[i as int] == pre[i as int]@);
                assert(pre[i as int]@ == o.agents[i as int]);
            }
            let mut a = self.agents.remove(i);
            a.fanout = fanout;
            self.agents.insert(i, a);
            proof {
                assert(self.agents@ =~= pre.update(i as int, a));
                assert(agent_views(self.agents@) =~= agent_views(pre).update(i as int, a@));
                assert(a@ == (AgentView { fanout, ..o.agents[i as int] }));
                assert(self@.agents[i as int] == (AgentView { fanout, ..o.agents[i as int] }));
            }
            i = i + 1;
        }
        proof {
            let f = self@;
            assert(f.agents =~= Seq::new(o.agents.len(), |i: int| (AgentView { fanout, ..o.agents[i] })));
            if o.wf() {
                assert(ids_of(f.agents) =~= ids_of(o.agents));
                assert forall|j: int| 0 <= j < f.agents.len() implies #[trigger] f.agents[j].wf() by {
                    assert(o.agents[j].wf());
                    assert(f.agents[j] == (AgentView { fanout, ..o.agents[j] }));
                    assert forall|q: int| 0 <= q < f.agents[j].inbox.len() implies #[trigger] f.agents[j].knows(f.agents[j].inbox[q].id) by {
                        assert(o.agents[j].knows(o.agents[j].inbox[q].id));
                    }
                }
                assert forall|mid: Seq<char>, x: Seq<char>| #[trigger] f.reached(mid).contains(x) implies f.has(x) by {
                    assert(o.reached(mid).contains(x));
                }
                assert forall|j: int, mid: Seq<char>| 0 <= j < f.agents.len() implies (#[trigger] f.agents[j].knows(mid) <==> f.reached(mid).contains(f.agents[j].id)) by {
                    assert(o.agents[j].knows(mid) <==> o.reached(mid).contains(o.agents[j].id));
                }
            }
        }
    }

    /// For each murmur id, the agents it has reached.
    pub fn reach_table(&self) -> (r: Vec<(String, Vec<String>)>)
        ensures
            table_views(r@) == self@.reach,
    {
        let mut r: Vec<(String, Vec<String>)> = Vec::new();
        let mut p: usize = 0;
        while p < self.murmur_reach.len()
            invariant
                p <= self.murmur_reach.len(),
                table_views(r@) == self@.reach.take(p as int),
            decreases self.murmur_reach.len() - p,
        {
            let ghost before = table_views(r@);
            let agents = self.murmur_reach[p].1.clone();
            assert(views(agents@) =~= views(self.murmur_reach@[p as int].1@));
            r.push((self.murmur_reach[p].0.clone(), agents));
            proof {
                assert(table_views(r@) =~= before.push(self@.reach[p as int]));
                assert(self@.reach.take(p + 1) =~= self@.reach.take(p as int).push(self@.reach[p as int]));
            }
            p = p + 1;
        }
        assert(self@.reach.take(self.murmur_reach.len() as int) =~= self@.reach);
        r
    }

    /// How many agents murmur `murmur_id` has reached.
    pub fn reach_count(&self, murmur_id: &str) -> (r: usize)
        requires
            self@.wf(),
        ensures
            r == self@.reached(murmur_id@).len(),
    {
        proof {
            lemma_table_keys(self.murmur_reach@);
        }
        match crate::keyed::key_position(&self.murmur_reach, murmur_id) {
            Some(p) => {
                proof {
                    crate::keyed::lemma_table_index(self@.reach, p as int, murmur_id@);
                }
                self.murmur_reach[p].1.len()
            },
            None => 0,
        }
    }

    /// Hands each delivery of `pending`, in order, to its target agent. A murmur that the
    /// target accepts is recorded as having reached it. Deliveries to unknown agents are
    /// dropped, and the others are returned.
    pub fn deliver(&mut self, pending: Vec<MurmurDelivery>) -> (r: Vec<MurmurDelivery>)
        requires
            old(self)@.wf(),
            hops_bounded(delivery_views(pending@)),
        ensures
            final(self)@ == old(self)@.delivered_all(delivery_views(pending@)),
            delivery_views(r@) == old(self)@.landed(delivery_views(pending@)),
            final(self)@.wf(),
    {
        let ghost o = self@;
        let ghost pv = delivery_views(pending@);
        let ghost pred = lands_in(o);
        let mut out: Vec<MurmurDelivery> = Vec::new();
        let mut k: usize = 0;
        assert(pv.take(0).filter(pred) =~= Seq::<DeliveryView>::empty()) by {
            reveal(Seq::filter);
        }
        while k < pending.len()
            invariant
                k <= pending.len(),
                pv == delivery_views(pending@),
                pred == lands_in(o),
                hops_bounded(pv),
                self@ == o.delivered_upto(pv, k as int),
                self@.wf(),
                ids_of(self@.agents) == ids_of(o.agents),
                delivery_views(out@) == pv.take(k as int).filter(pred),
            decreases pending.len() - k,
        {
            let ghost before = self@;
            let d = &pending[k];
            proof {
                assert(pv.take(k + 1) =~= pv.take(k as int).push(pv[k as int]));
                pv.take(k as int).lemma_filter_push(pv[k as int], pred);
                assert(pv[k as int] == d@);
                lemma_delivered(before, d@);
            }
            match agent_position(&self.agents, d.to.as_str()) {
                Some(i) => {
                    proof {
                        lemma_index(before, i as int, d.to@);
                        lemma_table_keys(self.murmur_reach@);
                    }
                    let accepted = self.agents[i].receive(d.murmur.clone());
                    if accepted {
                        table_insert(&mut self.murmur_reach, d.murmur.id.as_str(), d.to.as_str());
                    }
                    let ghost prev = delivery_views(out@);
                    out.push(d.clone());
                    proof {
                        assert(delivery_views(out@) =~= prev.push(d@));
                        assert(agent_views(self.agents@) =~= before.agents.update(i as int, before.agents[i as int].received(d.murmur@)));
                        assert(self@ =~= before.delivered(d@));
                    }
                },
                None => {
                    proof {
                        assert(!o.has(d.to@));
                    }
                },
            }
            k = k + 1;
        }
        proof {
            assert(pv.take(pending.len() as int) =~= pv);
        }
        out
    }

    /// One round of gossip in which agent `k` orders its neighbors by `orders[k]`: every
    /// agent forwards its inbox, then every delivery is handed to its target. The tick is
    /// counted and the deliveries that reached an agent are recorded and returned.
    pub fn tick_with(&mut self, orders: &Vec<Vec<Vec<String>>>) -> (r: Vec<MurmurDelivery>)
        requires
            old(self)@.wf(),
            old(self)@.orders_fit(order_table(orders@)),
            old(self)@.tick_count < usize::MAX,
        ensures
            final(self)@ == old(self)@.ticked(order_table(orders@)),
            delivery_views(r@) == old(self)@.landed(old(self)@.tick_sends(order_table(orders@))),
            final(self)@.wf(),
    {
        let ghost o = self@;
        let ghost ot = order_table(orders@);
        let mut pending: Vec<MurmurDelivery> = Vec::new();
        let mut k: usize = 0;
        while k < self.agents.len()
            invariant
                k <= self.agents.len(),
                self.agents.len() == o.agents.len(),
                ot == order_table(orders@),
                o.orders_fit(ot),
                self@ == (NetworkView { agents: self@.agents, ..o }),
                forall|j: int| 0 <= j < k ==> #[trigger] self@.agents[j] == o.agents[j].after_forward(ot[j]),
                forall|j: int| k <= j < o.agents.len() ==> #[trigger] self@.agents[j] == o.agents[j],
                delivery_views(pending@) == o.outgoing(ot, k as int),
            decreases o.agents.len() - k,
        {
            assert(orders@[k as int]@.len() == ot[k as int].len());
            assert(self@.agents[k as int] == o.agents[k as int]);
            assert(self.agents@[k as int]@.inbox.len() == self.agents@[k as int].inbox@.len());
            let ghost before = self@;
            let sent = self.agents[k].forward_in_orders(&orders[k]);
            proof {
                assert(order_views(orders@[k as int]@) == ot[k as int]);
                assert(self.agents@[k as int]@ == o.agents[k as int].after_forward(ot[k as int]));
                assert(agent_views(self.agents@) =~= before.agents.update(k as int, o.agents[k as int].after_forward(ot[k as int])));
            }
            let ghost base = delivery_views(pending@);
            let ghost a = o.agents[k as int];
            let ghost f = |p: (Seq<char>, MurmurView)| DeliveryView { from: a.id, to: p.0, murmur: p.1 };
            let mut q: usize = 0;
            while q < sent.len()
                invariant
                    q <= sent.len(),
                    k < self.agents.len(),
                    self.agents@[k as int]@.id == a.id,
                    crate::agent::pair_views(sent@) == a.sends(ot[k as int]),
                    f == (|p: (Seq<char>, MurmurView)| DeliveryView { from: a.id, to: p.0, murmur: p.1 }),
                    delivery_views(pending@) == base + a.sends(ot[k as int]).take(q as int).map_values(f),
                decreases sent.len() - q,
            {
                let ghost prev = delivery_views(pending@);
                pending.push(MurmurDelivery {
                    from: self.agents[k].id.clone(),
                    to: sent[q].0.clone(),
                    murmur: sent[q].1.clone(),
                });
                proof {
                    let sv = a.sends(ot[k as int]);
                    assert(sv[q as int] == (sent@[q as int].0@, sent@[q as int].1@));
                    assert(sv.take(q + 1) =~= sv.take(q as int).push(sv[q as int]));
                    assert(sv.take(q + 1).map_values(f) =~= sv.take(q as int).map_values(f).push(f(sv[q as int])));
                    assert(delivery_views(pending@) =~= prev.push(f(sv[q as int])));
                }
                q = q + 1;
            }
            proof {
                let sv = a.sends(ot[k as int]);
                assert(sv.take(sv.len() as int) =~= sv);
                assert(delivery_views(pending@) =~= o.outgoing(ot, k + 1));
            }
            k = k + 1;
        }
        proof {
            assert(self@.agents =~= o.forwarded_all(ot).agents);
            assert(self@ == o.forwarded_all(ot));
            lemma_forwarded_all(o, ot);
            lemma_outgoing_known(o, ot);
            assert(o.landed(o.tick_sends(ot)) == o.forwarded_all(ot).landed(o.tick_sends(ot)));
            lemma_delivered_fields(o.forwarded_all(ot), o.tick_sends(ot), o.tick_sends(ot).len() as int);
        }
        let out = self.deliver(pending);
        let ghost delivered = self@;
        self.tick_count = self.tick_count + 1;
        let ghost hist = self.history@;
        self.history.push(clone_deliveries(&out));
        let pk = self.largest_reach();
        self.peaks.push(pk);
        proof {
            let mapped = self.history@.map_values(|h: Vec<MurmurDelivery>| delivery_views(h@));
            assert(mapped =~= o.history.push(delivery_views(out@)));
            assert(self@ =~= o.ticked(ot));
            lemma_wf_fields(delivered, self@);
        }
        out
    }

    /// One round of gossip: every agent forwards each murmur of its inbox that has not
    /// expired to `min(fanout, neighbors)` neighbors picked at random, then every delivery is
    /// handed to its target. The tick is counted and the deliveries that reached an agent
    /// are recorded and returned.
    pub fn tick(&mut self) -> (r: Vec<MurmurDelivery>)
        requires
            old(self)@.wf(),
            old(self)@.tick_count < usize::MAX,
        ensures
            exists|orders: Seq<Seq<Seq<Seq<char>>>>|
                #![trigger old(self)@.ticked(orders)]
                {
                    &&& old(self)@.valid_orders(orders)
                    &&& final(self)@ == old(self)@.ticked(orders)
                    &&& delivery_views(r@) == old(self)@.landed(old(self)@.tick_sends(orders))
                },
            final(self)@.wf(),
    {
        let mut orders: Vec<Vec<Vec<String>>> = Vec::new();
        let mut k: usize = 0;
        while k < self.agents.len()
            invariant
                k <= self.agents.len(),
                orders.len() == k,
                forall|j: int| 0 <= j < k ==> #[trigger] self@.agents[j].valid_orders(order_table(orders@)[j]),
            decreases self.agents.len() - k,
        {
            let o = self.agents[k].random_orders();
            let ghost prev = order_table(orders@);
            orders.push(o);
            proof {
                assert(order_table(orders@) =~= prev.push(order_views(o@)));
                assert forall|j: int| 0 <= j < k + 1 implies #[trigger] self@.agents[j].valid_orders(order_table(orders@)[j]) by {
                    assert(order_table(orders@)[j] == order_views(orders@[j]@));
                }
            }
            k = k + 1;
        }
        proof {
            let ot = order_table(orders@);
            assert forall|j: int| 0 <= j < ot.len() implies #[trigger] ot[j].len() == self@.agents[j].inbox.len() by {
                assert(self@.agents[j].valid_orders(ot[j]));
            }
        }
        self.tick_with(&orders)
    }

    /// Runs `steps` ticks and returns the deliveries of each.
    pub fn run(&mut self, steps: usize) -> (r: Vec<Vec<MurmurDelivery>>)
        requires
            old(self)@.wf(),
            old(self)@.tick_count + steps <= usize::MAX,
        ensures
            r.len() == steps,
            final(self)@.wf(),
            final(self)@.tick_count == old(self)@.tick_count + steps,
            ids_of(final(self)@.agents) == ids_of(old(self)@.agents),
            forall|mid: Seq<char>| #[trigger] old(self)@.reached(mid).to_set().subset_of(final(self)@.reached(mid).to_set()),
            final(self)@.history == old(self)@.history + r@.map_values(|h: Vec<MurmurDelivery>| delivery_views(h@)),
            exists|os: Seq<Seq<Seq<Seq<Seq<char>>>>>|
                #![trigger old(self)@.ticked_upto(os, steps as int)]
                {
                    &&& os.len() == steps
                    &&& old(self)@.valid_run(os, steps as int)
                    &&& final(self)@ == old(self)@.ticked_upto(os, steps as int)
                    &&& forall|t: int|
                        0 <= t < steps ==> delivery_views(#[trigger] r@[t]@) == old(self)@.ticked_upto(os, t).landed(
                            old(self)@.ticked_upto(os, t).tick_sends(os[t]),
                        )
                },
    {
        let mut results: Vec<Vec<MurmurDelivery>> = Vec::new();
        let mut s: usize = 0;
        let ghost mut os: Seq<Seq<Seq<Seq<Seq<char>>>>> = Seq::empty();
        while s < steps
            invariant
                s <= steps,
                results.len() == s,
                self@.wf(),
                self@.tick_count == old(self)@.tick_count + s,
                old(self)@.tick_count + steps <= usize::MAX,
                ids_of(self@.agents) == ids_of(old(self)@.agents),
                forall|mid: Seq<char>| #[trigger] old(self)@.reached(mid).to_set().subset_of(self@.reached(mid).to_set()),
                self@.history == old(self)@.history + results@.map_values(|h: Vec<MurmurDelivery>| delivery_views(h@)),
                os.len() == s,
                old(self)@.valid_run(os, s as int),
                self@ == old(self)@.ticked_upto(os, s as int),
                forall|t: int|
                    0 <= t < s ==> delivery_views(#[trigger] results@[t]@) == old(self)@.ticked_upto(os, t).landed(
                        old(self)@.ticked_upto(os, t).tick_sends(os[t]),
                    ),
            decreases steps - s,
        {
            let ghost before = self@;
            let r = self.tick();
            proof {
                let orders = choose|orders: Seq<Seq<Seq<Seq<char>>>>|
                    #![trigger before.ticked(orders)]
                    {
                        &&& before.valid_orders(orders)
                        &&& self@ == before.ticked(orders)
                        &&& delivery_views(r@) == before.landed(before.tick_sends(orders))
                    };
                assert forall|j: int| 0 <= j < orders.len() implies #[trigger] orders[j].len() == before.agents[j].inbox.len() by {
                    assert(before.agents[j].valid_orders(orders[j]));
                }
                law_tick_preserves(before, orders);
                assert forall|mid: Seq<char>| #[trigger] old(self)@.reached(mid).to_set().subset_of(self@.reached(mid).to_set()) by {
                    assert(old(self)@.reached(mid).to_set().subset_of(before.reached(mid).to_set()));
                    assert(before.reached(mid).to_set().subset_of(self@.reached(mid).to_set()));
                }
            }
            let ghost prev = results@;
            let ghost orders = choose|orders: Seq<Seq<Seq<Seq<char>>>>|
                #![trigger before.ticked(orders)]
                {
                    &&& before.valid_orders(orders)
                    &&& self@ == before.ticked(orders)
                    &&& delivery_views(r@) == before.landed(before.tick_sends(orders))
                };
            results.push(r);
            proof {
                assert(results@.map_values(|h: Vec<MurmurDelivery>| delivery_views(h@)) =~= prev.map_values(
                    |h: Vec<MurmurDelivery>| delivery_views(h@),
                ).push(delivery_views(r@)));
                let os2 = os.push(orders);
                let o = old(self)@;
                assert forall|t: int| 0 <= t <= s implies #[trigger] o.ticked_upto(os2, t) == o.ticked_upto(os, t) by {
                    lemma_ticked_upto_push(o, os, orders, t);
                }
                assert(os2[s as int] == orders);
                assert(o.ticked_upto(os2, s + 1) == o.ticked_upto(os2, s as int).ticked(orders));
                assert forall|t: int| 0 <= t < s + 1 implies #[trigger] o.ticked_upto(os2, t).valid_orders(os2[t]) by {
                    if t < s {
                        assert(os2[t] == os[t]);
                        assert(o.ticked_upto(os, t).valid_orders(os[t]));
                    }
                }
                assert forall|t: int| 0 <= t < s + 1 implies delivery_views(#[trigger] results@[t]@) == o.ticked_upto(os2, t).landed(
                    o.ticked_upto(os2, t).tick_sends(os2[t]),
                ) by {
                    if t < s {
                        assert(os2[t] == os[t]);
                        assert(results@[t] == prev[t]);
                    }
                }
                os = os2;
            }
            s = s + 1;
        }
        results
    }

    /// Injects a new murmur, originated by the agent with id `origin`, and records that it
    /// has reached that agent.
    pub fn inject(&mut self, origin: &str, content: &str, tags: Vec<String>) -> (m: Murmur)
        requires
            old(self)@.wf(),
            old(self)@.has(origin@),
        ensures
            ({
                let o = old(self)@;
                let i = o.index(origin@);
                &&& m@ == o.agents[i].new_murmur(content@, views(tags@))
                &&& m@.tags == views(tags@)
                &&& m@.content == content@
                &&& m@.origin == origin@
                &&& final(self)@ == NetworkView {
                    agents: o.agents.update(i, o.agents[i].originated(m@)),
                    reach: table_add(o.reach, m@.id, origin@),
                    ..o
                }
            }),
            final(self)@.wf(),
    {
        let ghost o = self@;
        let i = match agent_position(&self.agents, origin) {
            Some(i) => i,
            None => {
                proof {
                    assert(false);
                }
                0
            },
        };
        proof {
            lemma_index(o, i as int, origin@);
            lemma_table_keys(self.murmur_reach@);
        }
        let m = self.agents[i].originate(content, tags);
        table_insert(&mut self.murmur_reach, m.id.as_str(), origin);
        proof {
            let n = self@;
            assert(agent_views(self.agents@) =~= o.agents.update(i as int, o.agents[i as int].originated(m@)));
            assert(n =~= NetworkView { agents: o.agents.update(i as int, o.agents[i as int].originated(m@)), reach: table_add(o.reach, m@.id, origin@), ..o });
            lemma_originated(o, i as int, m@);
        }
        m
    }
}

/// The peak of the first `k` entries bounds each of their reach lists and, unless `k` is zero,
/// is the length of one of them.
proof fn lemma_peak_upto(t: ListTable, k: int)
    requires
        0 <= k <= t.len(),
        forall|p: int| 0 <= p < t.len() ==> #[trigger] t[p].1.len() <= usize::MAX,
    ensures
        k == 0 <==> peak_upto(t, k) is None,
        peak_upto(t, k) matches Some(c) ==> (forall|p: int| 0 <= p < k ==> #[trigger] t[p].1.len() <= c)
            && exists|p: int| 0 <= p < k && #[trigger] t[p].1.len() == c,
    decreases k,
{
    if k > 0 {
        lemma_peak_upto(t, k - 1);
        let c = t[k - 1].1.len();
        match peak_upto(t, k - 1) {
            None => {
                assert(t[k - 1].1.len() == c);
            },
            Some(m) => {
                if c > m {
                } else {
                    let p = choose|p: int| 0 <= p < k - 1 && #[trigger] t[p].1.len() == m;
                    assert(0 <= p < k && t[p].1.len() == m);
                }
            },
        }
    }
}

/// The peak recorded for a reach table is the largest reach of any murmur: none exactly when
/// no murmur is listed, otherwise at least the reach of every listed murmur and equal to the
/// reach of one of them. So a recorded peak covers 95% of the agents exactly when some single
/// murmur's reach does.
pub proof fn law_peak_is_largest(t: ListTable, v: NetworkView)
    requires
        forall|p: int| 0 <= p < t.len() ==> #[trigger] t[p].1.len() <= usize::MAX,
    ensures
        t.len() == 0 <==> peak(t) is None,
        peak(t) matches Some(c) ==> (forall|p: int| 0 <= p < t.len() ==> #[trigger] t[p].1.len() <= c)
            && exists|p: int| 0 <= p < t.len() && #[trigger] t[p].1.len() == c,
        v.peak_covers(peak(t)) <==> exists|p: int| 0 <= p < t.len() && #[trigger] v.covers(t[p].1.len() as int),
{
    lemma_peak_upto(t, t.len() as int);
    if v.peak_covers(peak(t)) {
        let c = peak(t)->0;
        let p = choose|p: int| 0 <= p < t.len() && #[trigger] t[p].1.len() == c;
        assert(v.covers(t[p].1.len() as int));
    }
    if exists|p: int| 0 <= p < t.len() && #[trigger] v.covers(t[p].1.len() as int) {
        let p = choose|p: int| 0 <= p < t.len() && #[trigger] v.covers(t[p].1.len() as int);
        assert(t[p].1.len() <= peak(t)->0);
    }
}

/// Ticks up to `t` do not read orders given for later ticks.
proof fn lemma_ticked_upto_push(v: NetworkView, os: Seq<Seq<Seq<Seq<Seq<char>>>>>, o: Seq<Seq<Seq<Seq<char>>>>, t: int)
    requires
        0 <= t <= os.len(),
    ensures
        v.ticked_upto(os.push(o), t) == v.ticked_upto(os, t),
    decreases t,
{
    if t > 0 {
        lemma_ticked_upto_push(v, os, o, t - 1);
        assert(os.push(o)[t - 1] == os[t - 1]);
    }
}

/// Originating a murmur at agent `i` and recording it keeps the network well formed.
proof fn lemma_originated(o: NetworkView, i: int, m: MurmurView)
    requires
        o.wf(),
        0 <= i < o.agents.len(),
        m.id == crate::agent::originated_id(o.agents[i].id, o.agents[i].known.len()),
        m.hops == 0,
        m.ttl == 10,
    ensures
        (NetworkView {
            agents: o.agents.update(i, o.agents[i].originated(m)),
            reach: table_add(o.reach, m.id, o.agents[i].id),
            ..o
        }).wf(),
{
    let a = o.agents[i];
    let n = NetworkView {
        agents: o.agents.update(i, a.originated(m)),
        reach: table_add(o.reach, m.id, a.id),
        ..o
    };
    assert(ids_of(n.agents) =~= ids_of(o.agents));
    assert forall|k2: Seq<char>| true implies #[trigger] table_get(n.reach, k2) == (if k2 == m.id {
        if table_get(o.reach, m.id).contains(a.id) { table_get(o.reach, m.id) } else { table_get(o.reach, m.id).push(a.id) }
    } else {
        table_get(o.reach, k2)
    }) by {
        lemma_table_add(o.reach, m.id, a.id, k2);
    }
    lemma_table_add(o.reach, m.id, a.id, m.id);
    assert(n.agents[i].knows(m.id)) by {
        if !a.knows(m.id) {
            assert(n.agents[i].known[a.known.len() as int] == m.id);
        }
    }
    assert(n.reached(m.id).contains(a.id)) by {
        if o.reached(m.id).contains(a.id) {
        } else {
            assert(n.reached(m.id)[o.reached(m.id).len() as int] == a.id);
        }
    }
    assert forall|p: int| 0 <= p < n.reach.len() implies #[trigger] n.reach[p].1.no_duplicates() by {
        let k2 = n.reach[p].0;
        assert(table_keys(n.reach)[p] == k2);
        crate::keyed::lemma_table_index(n.reach, p, k2);
        if table_has(o.reach, k2) {
            let q = table_keys(o.reach).index_of(k2);
            assert(table_keys(o.reach)[q] == k2);
            crate::keyed::lemma_table_index(o.reach, q, k2);
            assert(o.reach[q].1.no_duplicates());
        }
    }
    assert forall|mid: Seq<char>, x: Seq<char>| #[trigger] n.reached(mid).contains(x) implies n.has(x) by {
        assert(ids_of(n.agents) == ids_of(o.agents));
        assert(ids_of(o.agents)[i] == a.id);
        if mid == m.id && x != a.id {
            let j = choose|j: int| 0 <= j < n.reached(mid).len() && n.reached(mid)[j] == x;
            assert(j < o.reached(mid).len());
            assert(o.reached(mid)[j] == x);
            assert(o.reached(mid).contains(x));
        } else if mid != m.id {
            assert(o.reached(mid).contains(x));
        }
    }
    assert forall|j: int, mid: Seq<char>| 0 <= j < n.agents.len() implies (#[trigger] n.agents[j].knows(mid) <==> n.reached(mid).contains(n.agents[j].id)) by {
        assert(o.agents[j].knows(mid) <==> o.reached(mid).contains(o.agents[j].id));
        if j == i {
            if mid != m.id {
                if n.agents[j].knows(mid) {
                    let q = choose|q: int| 0 <= q < n.agents[j].known.len() && n.agents[j].known[q] == mid;
                    if !a.knows(m.id) {
                        assert(q < a.known.len());
                    }
                    assert(a.known[q] == mid);
                }
                if a.knows(mid) {
                    let q = choose|q: int| 0 <= q < a.known.len() && a.known[q] == mid;
                    assert(n.agents[j].known[q] == mid);
                }
            }
        } else {
            assert(n.agents[j] == o.agents[j]);
            assert(ids_of(o.agents)[j] == o.agents[j].id);
            assert(ids_of(o.agents)[i] == a.id);
            assert(o.agents[j].id != a.id);
            if mid == m.id {
                if n.reached(mid).contains(o.agents[j].id) {
                    let q = choose|q: int| 0 <= q < n.reached(mid).len() && n.reached(mid)[q] == o.agents[j].id;
                    assert(q < o.reached(mid).len());
                    assert(o.reached(mid)[q] == o.agents[j].id);
                }
                if o.reached(mid).contains(o.agents[j].id) {
                    let q = choose|q: int| 0 <= q < o.reached(mid).len() && o.reached(mid)[q] == o.agents[j].id;
                    assert(n.reached(mid)[q] == o.agents[j].id);
                }
            }
        }
    }
    assert forall|j: int| 0 <= j < n.agents.len() implies #[trigger] n.agents[j].wf() by {
        if j != i {
            assert(n.agents[j] == o.agents[j]);
        } else {
            assert(a.wf());
            let f = n.agents[j];
            if !a.knows(m.id) {
                assert forall|x: int, y: int| 0 <= x < y < f.known.len() implies f.known[x] != f.known[y] by {
                    if y == a.known.len() {
                        assert(a.known[x] != m.id);
                    }
                }
            }
            assert forall|q: int| 0 <= q < f.inbox.len() implies #[trigger] f.knows(f.inbox[q].id) by {
                if q < a.inbox.len() {
                    assert(a.knows(a.inbox[q].id));
                    let r = choose|r: int| 0 <= r < a.known.len() && a.known[r] == a.inbox[q].id;
                    assert(f.known[r] == a.inbox[q].id);
                }
            }
            assert forall|q: int| 0 <= q < f.inbox.len() implies #[trigger] f.inbox[q].hops + f.inbox[q].ttl <= u32::MAX by {
                if q < a.inbox.len() {
                    assert(f.inbox[q] == a.inbox[q]);
                }
            }
        }
    }
}


/// Every delivery sent out in a tick carries a murmur from its sender's inbox, not expired,
/// and goes to a target taken from the order given for it.
pub proof fn lemma_outgoing_origin(v: NetworkView, orders: Seq<Seq<Seq<Seq<char>>>>, upto: int, q: int)
    requires
        v.orders_fit(orders),
        0 <= upto <= v.agents.len(),
        0 <= q < v.outgoing(orders, upto).len(),
    ensures
        exists|k: int, j: int|
            #![trigger v.agents[k].inbox[j]]
            0 <= k < upto && 0 <= j < v.agents[k].inbox.len() && v.outgoing(orders, upto)[q].from
                == v.agents[k].id && v.outgoing(orders, upto)[q].murmur == v.agents[k].inbox[j]
                && v.agents[k].inbox[j].ttl > 0 && orders[k][j].contains(
                v.outgoing(orders, upto)[q].to,
            ),
    decreases upto,
{
    let prev = v.outgoing(orders, upto - 1);
    if q < prev.len() {
        lemma_outgoing_origin(v, orders, upto - 1, q);
        assert(v.outgoing(orders, upto)[q] == prev[q]);
    } else {
        let k = upto - 1;
        let a = v.agents[k];
        assert(orders[k].len() == a.inbox.len());
        let r = q - prev.len();
        lemma_forwarded_origin(a, orders[k], a.inbox.len() as int, r);
        let j = choose|j: int|
            #![trigger a.inbox[j]]
            0 <= j < a.inbox.len() && a.sends(orders[k])[r].1 == a.inbox[j] && a.inbox[j].ttl > 0
                && orders[k][j].contains(a.sends(orders[k])[r].0);
        assert(v.agents[k].inbox[j] == a.inbox[j]);
    }
}

/// In a well-formed network every murmur sent out in a tick may still take its remaining
/// hops without its hop count overflowing, and its id is known to its sender.
pub proof fn lemma_outgoing_known(v: NetworkView, orders: Seq<Seq<Seq<Seq<char>>>>)
    requires
        v.wf(),
        v.orders_fit(orders),
    ensures
        hops_bounded(v.tick_sends(orders)),
        forall|q: int|
            #![trigger v.tick_sends(orders)[q]]
            0 <= q < v.tick_sends(orders).len() ==> v.known_anywhere().contains(
                v.tick_sends(orders)[q].murmur.id,
            ),
{
    let s = v.tick_sends(orders);
    assert forall|q: int| #![trigger s[q]] 0 <= q < s.len() implies s[q].murmur.hops + s[q].murmur.ttl <= u32::MAX
        && v.known_anywhere().contains(s[q].murmur.id) by {
        lemma_outgoing_origin(v, orders, v.agents.len() as int, q);
        let (k, j) = choose|k: int, j: int|
            #![trigger v.agents[k].inbox[j]]
            0 <= k < v.agents.len() && 0 <= j < v.agents[k].inbox.len() && s[q].from == v.agents[k].id
                && s[q].murmur == v.agents[k].inbox[j] && v.agents[k].inbox[j].ttl > 0
                && orders[k][j].contains(s[q].to);
        assert(v.agents[k].wf());
        assert(v.agents[k].knows(v.agents[k].inbox[j].id));
        assert(v.known_anywhere().contains(s[q].murmur.id));
    }
}

/// Forwarding keeps a network well formed, its agent ids, and what each agent knows.
pub proof fn lemma_forwarded_all(v: NetworkView, orders: Seq<Seq<Seq<Seq<char>>>>)
    requires
        v.wf(),
        orders.len() == v.agents.len(),
    ensures
        v.forwarded_all(orders).wf(),
        ids_of(v.forwarded_all(orders).agents) == ids_of(v.agents),
        v.forwarded_all(orders).known_anywhere() == v.known_anywhere(),
        lands_in(v.forwarded_all(orders)) == lands_in(v),
{
    let m = v.forwarded_all(orders);
    assert(ids_of(m.agents) =~= ids_of(v.agents));
    assert forall|i: int| 0 <= i < m.agents.len() implies #[trigger] m.agents[i].wf() by {
        assert(v.agents[i].wf());
        assert(m.agents[i].known == v.agents[i].known);
    }
    assert forall|i: int, mid: Seq<char>| 0 <= i < m.agents.len() implies (#[trigger] m.agents[i].knows(mid) <==> m.reached(mid).contains(m.agents[i].id)) by {
        assert(v.agents[i].knows(mid) <==> v.reached(mid).contains(v.agents[i].id));
    }
    assert forall|mid: Seq<char>, x: Seq<char>| #[trigger] m.reached(mid).contains(x) implies m.has(x) by {
        assert(v.reached(mid).contains(x));
    }
    assert(m.known_anywhere() =~= v.known_anywhere()) by {
        assert forall|mid: Seq<char>| m.known_anywhere().contains(mid) <==> v.known_anywhere().contains(mid) by {
            if m.known_anywhere().contains(mid) {
                let i = choose|i: int| 0 <= i < m.agents.len() && #[trigger] m.agents[i].knows(mid);
                assert(v.agents[i].knows(mid));
            }
            if v.known_anywhere().contains(mid) {
                let i = choose|i: int| 0 <= i < v.agents.len() && #[trigger] v.agents[i].knows(mid);
                assert(m.agents[i].knows(mid));
            }
        }
    }
    assert(lands_in(m) =~= lands_in(v));
}


/// Delivering a sequence keeps the network well formed, its agent ids, and the reach of
/// every murmur; if every delivered murmur is already known somewhere, the set of known
/// murmurs stays the same.
pub proof fn lemma_delivered_upto(v: NetworkView, pending: Seq<DeliveryView>, k: int)
    requires
        v.wf(),
        hops_bounded(pending),
        0 <= k <= pending.len(),
    ensures
        v.delivered_upto(pending, k).wf(),
        ids_of(v.delivered_upto(pending, k).agents) == ids_of(v.agents),
        forall|mid: Seq<char>| #[trigger] v.reached(mid).to_set().subset_of(v.delivered_upto(pending, k).reached(mid).to_set()),
        (forall|q: int| #![trigger pending[q]] 0 <= q < pending.len() ==> v.known_anywhere().contains(pending[q].murmur.id))
            ==> v.delivered_upto(pending, k).known_anywhere() == v.known_anywhere(),
    decreases k,
{
    if k > 0 {
        lemma_delivered_upto(v, pending, k - 1);
        let w = v.delivered_upto(pending, k - 1);
        let d = pending[k - 1];
        lemma_delivered(w, d);
        assert forall|mid: Seq<char>| #[trigger] v.reached(mid).to_set().subset_of(w.delivered(d).reached(mid).to_set()) by {
            assert(v.reached(mid).to_set().subset_of(w.reached(mid).to_set()));
            assert(w.reached(mid).to_set().subset_of(w.delivered(d).reached(mid).to_set()));
        }
        if forall|q: int| #![trigger pending[q]] 0 <= q < pending.len() ==> v.known_anywhere().contains(pending[q].murmur.id) {
            assert(v.known_anywhere().contains(pending[k - 1].murmur.id));
            lemma_delivered_known(w, d);
        }
    }
}

/// A delivery of a murmur that some agent already knows leaves the set of known murmurs
/// unchanged.
pub proof fn lemma_delivered_known(v: NetworkView, d: DeliveryView)
    requires
        v.known_anywhere().contains(d.murmur.id),
    ensures
        v.delivered(d).known_anywhere() == v.known_anywhere(),
{
    let n = v.delivered(d);
    assert forall|mid: Seq<char>| n.known_anywhere().contains(mid) <==> v.known_anywhere().contains(mid) by {
        if v.has(d.to) {
            let i = v.index(d.to);
            let a = v.agents[i];
            if n.known_anywhere().contains(mid) {
                let j = choose|j: int| 0 <= j < n.agents.len() && #[trigger] n.agents[j].knows(mid);
                if j != i {
                    assert(n.agents[j] == v.agents[j]);
                } else if a.accepts(d.murmur) {
                    let q = choose|q: int| 0 <= q < n.agents[j].known.len() && n.agents[j].known[q] == mid;
                    if q < a.known.len() {
                        assert(a.known[q] == mid);
                        assert(v.agents[i].knows(mid));
                    } else {
                        assert(mid == d.murmur.id);
                    }
                } else {
                    assert(v.agents[i].knows(mid));
                }
            }
            if v.known_anywhere().contains(mid) {
                let j = choose|j: int| 0 <= j < v.agents.len() && #[trigger] v.agents[j].knows(mid);
                if j != i {
                    assert(n.agents[j] == v.agents[j]);
                    assert(n.agents[j].knows(mid));
                } else if a.accepts(d.murmur) {
                    let q = choose|q: int| 0 <= q < a.known.len() && a.known[q] == mid;
                    assert(n.agents[j].known[q] == mid);
                    assert(n.agents[j].knows(mid));
                } else {
                    assert(n.agents[j].knows(mid));
                }
            }
        }
    }
    assert(n.known_anywhere() =~= v.known_anywhere());
}

/// A tick keeps a well-formed network well formed, keeps every agent's id, neighbors and
/// fanout, never shrinks the reach of a murmur, and neither creates nor loses murmur ids:
/// afterwards the agents know exactly the murmurs that some agent knew before.
pub proof fn law_tick_preserves(v: NetworkView, orders: Seq<Seq<Seq<Seq<char>>>>)
    requires
        v.wf(),
        v.orders_fit(orders),
    ensures
        v.ticked(orders).wf(),
        ids_of(v.ticked(orders).agents) == ids_of(v.agents),
        forall|i: int|
            0 <= i < v.agents.len() ==> #[trigger] v.ticked(orders).agents[i].neighbors == v.agents[i].neighbors
                && v.ticked(orders).agents[i].fanout == v.agents[i].fanout,
        forall|mid: Seq<char>| #[trigger] v.reached(mid).to_set().subset_of(v.ticked(orders).reached(mid).to_set()),
        v.ticked(orders).known_anywhere() == v.known_anywhere(),
{
    let m = v.forwarded_all(orders);
    let s = v.tick_sends(orders);
    lemma_forwarded_all(v, orders);
    lemma_outgoing_known(v, orders);
    lemma_delivered_upto(m, s, s.len() as int);
    assert(m.delivered_all(s).wf());
    assert(v.ticked(orders).agents == m.delivered_all(s).agents);
    assert(v.ticked(orders).reach == m.delivered_all(s).reach);
    lemma_wf_fields(m.delivered_all(s), v.ticked(orders));
    assert forall|mid: Seq<char>| #[trigger] v.reached(mid).to_set().subset_of(v.ticked(orders).reached(mid).to_set()) by {
        assert(m.reached(mid) == v.reached(mid));
        assert(m.reached(mid).to_set().subset_of(m.delivered_all(s).reached(mid).to_set()));
    }
    assert(forall|q: int| #![trigger s[q]] 0 <= q < s.len() ==> m.known_anywhere().contains(s[q].murmur.id));
    lemma_delivered_fields(m, s, s.len() as int);
    assert(v.ticked(orders).known_anywhere() =~= m.delivered_all(s).known_anywhere());
}

/// Deliveries change neither the neighbors nor the fanout of any agent.
pub proof fn lemma_delivered_fields(v: NetworkView, pending: Seq<DeliveryView>, k: int)
    requires
        0 <= k <= pending.len(),
    ensures
        v.delivered_upto(pending, k).agents.len() == v.agents.len(),
        v.delivered_upto(pending, k).tick_count == v.tick_count,
        v.delivered_upto(pending, k).history == v.history,
        v.delivered_upto(pending, k).peaks == v.peaks,
        v.delivered_upto(pending, k).topology == v.topology,
        forall|i: int|
            0 <= i < v.agents.len() ==> #[trigger] v.delivered_upto(pending, k).agents[i].neighbors
                == v.agents[i].neighbors && v.delivered_upto(pending, k).agents[i].fanout == v.agents[i].fanout,
    decreases k,
{
    if k > 0 {
        lemma_delivered_fields(v, pending, k - 1);
        let w = v.delivered_upto(pending, k - 1);
        let d = pending[k - 1];
        assert forall|i: int| 0 <= i < v.agents.len() implies #[trigger] w.delivered(d).agents[i].neighbors
                == v.agents[i].neighbors && w.delivered(d).agents[i].fanout == v.agents[i].fanout by {
            assert(w.agents[i].neighbors == v.agents[i].neighbors);
            if w.has(d.to) {
                let j = w.index(d.to);
                if i == j {
                    assert(w.delivered(d).agents[i] == w.agents[i].received(d.murmur));
                }
            }
        }
    }
}

/// Well-formedness depends on the agents and the reach table alone.
proof fn lemma_wf_fields(a: NetworkView, b: NetworkView)
    requires
        a.wf(),
        a.agents == b.agents,
        a.reach == b.reach,
    ensures
        b.wf(),
{
    assert(ids_of(a.agents) == ids_of(b.agents));
    assert forall|mid: Seq<char>, x: Seq<char>| #[trigger] b.reached(mid).contains(x) implies b.has(x) by {
        assert(a.reached(mid).contains(x));
    }
    assert forall|i: int, mid: Seq<char>| 0 <= i < b.agents.len() implies (#[trigger] b.agents[i].knows(mid) <==> b.reached(mid).contains(b.agents[i].id)) by {
        assert(a.agents[i].knows(mid) <==> a.reached(mid).contains(a.agents[i].id));
    }
}


/// Once a covering tick is found, looking at more ticks does not change it.
proof fn lemma_first_cover_stays(v: NetworkView, k: int, m: int)
    requires
        0 <= k <= m,
        v.first_cover(k) > 0,
    ensures
        v.first_cover(m) == v.first_cover(k),
    decreases m - k,
{
    if m > k {
        lemma_first_cover_stays(v, k, m - 1);
    }
}

} // verus!
