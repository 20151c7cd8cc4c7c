use vstd::prelude::*;
use crate::chance::shuffle_strings;
use crate::keyed::{contains_str, insert_str, views};
use crate::murmur::{Murmur, MurmurType, MurmurView};
use crate::text::{append_decimal, decimal};

verus! {

broadcast use vstd::string::group_string_axioms;

/// An agent that receives, forwards and originates murmurs.
#[derive(Debug, Clone)]
pub struct GossipAgent {
    pub id: String,
    pub neighbors: Vec<String>,
    pub inbox: Vec<Murmur>,
    pub outbox: Vec<(String, Murmur)>,
    /// The ids of the murmurs this agent has heard of, each once.
    pub known_murmurs: Vec<String>,
    pub fanout: usize,
}

/// What an agent holds, as mathematical values.
pub struct AgentView {
    pub id: Seq<char>,
    pub neighbors: Seq<Seq<char>>,
    pub inbox: Seq<MurmurView>,
    pub outbox: Seq<(Seq<char>, MurmurView)>,
    pub known: Seq<Seq<char>>,
    pub fanout: usize,
}

/// The views of a sequence of murmurs.
pub open spec fn murmur_views(s: Seq<Murmur>) -> Seq<MurmurView> {
    s.map_values(|m: Murmur| m@)
}

/// The views of a sequence of (target, murmur) pairs.
pub open spec fn pair_views(s: Seq<(String, Murmur)>) -> Seq<(Seq<char>, MurmurView)> {
    s.map_values(|p: (String, Murmur)| (p.0@, p.1@))
}

impl View for GossipAgent {
    type V = AgentView;

    open spec fn view(&self) -> AgentView {
        AgentView {
            id: self.id@,
            neighbors: views(self.neighbors@),
            inbox: murmur_views(self.inbox@),
            outbox: pair_views(self.outbox@),
            known: views(self.known_murmurs@),
            fanout: self.fanout,
        }
    }
}

/// The id that an agent gives to a murmur it originates while it knows `count` murmurs:
/// its own id, a hyphen, and `count` in decimal.
pub open spec fn originated_id(agent: Seq<char>, count: nat) -> Seq<char> {
    agent + seq!['-'] + decimal(count)
}

impl AgentView {
    /// A fresh agent: nothing heard, nothing sent, fanout three.
    pub open spec fn initial(id: Seq<char>, neighbors: Seq<Seq<char>>) -> AgentView {
        AgentView {
            id,
            neighbors,
            inbox: Seq::empty(),
            outbox: Seq::empty(),
            known: Seq::empty(),
            fanout: 3,
        }
    }

    /// Whether the agent has heard of murmur `id`.
    pub open spec fn knows(self, id: Seq<char>) -> bool {
        self.known.contains(id)
    }

    /// Known ids occur once; every murmur waiting in the inbox is known, and its hop count
    /// can still rise by its remaining time to live.
    pub open spec fn wf(self) -> bool {
        &&& self.known.no_duplicates()
        &&& forall|i: int| 0 <= i < self.inbox.len() ==> #[trigger] self.knows(self.inbox[i].id)
        &&& forall|i: int|
            0 <= i < self.inbox.len() ==> #[trigger] self.inbox[i].hops + self.inbox[i].ttl
                <= u32::MAX
    }

    /// An agent takes a murmur that it has not heard of and that has not expired.
    pub open spec fn accepts(self, m: MurmurView) -> bool {
        !self.knows(m.id) && m.ttl > 0
    }

    /// The agent after being handed `m`: if it accepts it, it learns its id and keeps the
    /// murmur, one hop older, in its inbox; otherwise nothing changes.
    pub open spec fn received(self, m: MurmurView) -> AgentView {
        if self.accepts(m) {
            AgentView { known: self.known.push(m.id), inbox: self.inbox.push(m.decayed()), ..self }
        } else {
            self
        }
    }

    /// The murmur that the agent originates with the given content and tags.
    pub open spec fn new_murmur(self, content: Seq<char>, tags: Seq<Seq<char>>) -> MurmurView {
        MurmurView {
            id: originated_id(self.id, self.known.len()),
            origin: self.id,
            content,
            ttl: 10,
            hops: 0,
            created_at: 0,
            tags,
            murmur_type: MurmurType::Rumor,
        }
    }

    /// The agent after originating `m`: it knows its id and holds it in its inbox.
    pub open spec fn originated(self, m: MurmurView) -> AgentView {
        AgentView {
            known: if self.knows(m.id) { self.known } else { self.known.push(m.id) },
            inbox: self.inbox.push(m),
            ..self
        }
    }

    /// How many neighbors each murmur goes to.
    pub open spec fn spread(self) -> nat {
        if self.fanout < self.neighbors.len() { self.fanout as nat } else { self.neighbors.len() }
    }

    /// The targets of the `j`-th inbox murmur when the neighbors come in the order `order`:
    /// the first `spread` of them, or none once the murmur has expired.
    pub open spec fn targets(self, order: Seq<Seq<char>>, j: int) -> Seq<Seq<char>> {
        if self.inbox[j].ttl > 0 {
            order.take(if self.spread() < order.len() { self.spread() as int } else { order.len() as int })
        } else {
            Seq::empty()
        }
    }

    /// What the first `upto` inbox murmurs send out, with neighbor orders `orders`.
    pub open spec fn forwarded(self, orders: Seq<Seq<Seq<char>>>, upto: int) -> Seq<(Seq<char>, MurmurView)>
        decreases upto,
    {
        if upto <= 0 {
            Seq::empty()
        } else {
            self.forwarded(orders, upto - 1) + self.targets(orders[upto - 1], upto - 1).map_values(
                |t: Seq<char>| (t, self.inbox[upto - 1]),
            )
        }
    }

    /// What the whole inbox sends out, with neighbor orders `orders`.
    pub open spec fn sends(self, orders: Seq<Seq<Seq<char>>>) -> Seq<(Seq<char>, MurmurView)> {
        self.forwarded(orders, self.inbox.len() as int)
    }

    /// The agent after forwarding its inbox: the inbox is empty and the outbox records what
    /// was sent.
    pub open spec fn after_forward(self, orders: Seq<Seq<Seq<char>>>) -> AgentView {
        AgentView { inbox: Seq::empty(), outbox: self.outbox + self.sends(orders), ..self }
    }

    /// `orders` gives, for each inbox murmur, an ordering of the neighbors.
    pub open spec fn valid_orders(self, orders: Seq<Seq<Seq<char>>>) -> bool {
        &&& orders.len() == self.inbox.len()
        &&& forall|j: int|
            0 <= j < orders.len() ==> #[trigger] orders[j].to_multiset()
                == self.neighbors.to_multiset()
    }
}

/// The views of a sequence of neighbor orders.
pub open spec fn order_views(s: Seq<Vec<String>>) -> Seq<Seq<Seq<char>>> {
    s.map_values(|v: Vec<String>| views(v@))
}

impl GossipAgent {
    /// A fresh agent with the given id and neighbors and a fanout of three.
    pub fn new(id: &str, neighbors: Vec<String>) -> (r: Self)
        ensures
            r@ == AgentView::initial(id@, views(neighbors@)),
            r@.wf(),
    {
        let r = GossipAgent {
            id: id.to_string(),
            neighbors,
            inbox: Vec::new(),
            outbox: Vec::new(),
            known_murmurs: Vec::new(),
            fanout: 3,
        };
        proof {
            assert(murmur_views(r.inbox@) =~= Seq::empty());
            assert(pair_views(r.outbox@) =~= Seq::empty());
            assert(views(r.known_murmurs@) =~= Seq::empty());
        }
        r
    }

    /// Receives a murmur. Returns false, and changes nothing, if the murmur is a duplicate
    /// or has expired; otherwise records its id and keeps it, one hop older, in the inbox.
    pub fn receive(&mut self, murmur: Murmur) -> (accepted: bool)
        requires
            old(self)@.accepts(murmur@) ==> murmur.hops < u32::MAX,
        ensures
            accepted == old(self)@.accepts(murmur@),
            final(self)@ == old(self)@.received(murmur@),
            old(self)@.wf() && murmur.hops + murmur.ttl <= u32::MAX ==> final(self)@.wf(),
    {
        let ghost orig = murmur@;
        let mut murmur = murmur;
        if contains_str(&self.known_murmurs, murmur.id.as_str()) {
            return false;
        }
        if murmur.is_expired() {
            return false;
        }
        self.known_murmurs.push(murmur.id.clone());
        murmur.decay();
        self.inbox.push(murmur);
        proof {
            assert(views(self.known_murmurs@) =~= views(old(self).known_murmurs@).push(murmur@.id));
            assert(murmur_views(self.inbox@) =~= murmur_views(old(self).inbox@).push(murmur@));
            let o = old(self)@;
            let f = self@;
            if o.wf() && orig.hops + orig.ttl <= u32::MAX {
                assert forall|i: int| 0 <= i < f.inbox.len() implies #[trigger] f.knows(f.inbox[i].id) by {
                    if i < o.inbox.len() {
                        assert(o.knows(o.inbox[i].id));
                        let k = choose|k: int| 0 <= k < o.known.len() && o.known[k] == o.inbox[i].id;
                        assert(f.known[k] == o.inbox[i].id);
                    } else {
                        assert(f.known[f.known.len() - 1] == f.inbox[i].id);
                    }
                }
                assert forall|i: int| 0 <= i < f.inbox.len() implies #[trigger] f.inbox[i].hops + f.inbox[i].ttl <= u32::MAX by {
                    if i < o.inbox.len() {
                        assert(f.inbox[i] == o.inbox[i]);
                    }
                }
            }
        }
        true
    }

    /// Sends out the inbox: each murmur that has not expired goes to the first `spread`
    /// neighbors in `orders[j]`, where `j` is its position in the inbox. The inbox is emptied
    /// and what was sent is added to the outbox and returned.
    pub fn forward_in_orders(&mut self, orders: &Vec<Vec<String>>) -> (sent: Vec<(String, Murmur)>)
        requires
            orders.len() == old(self).inbox.len(),
        ensures
            pair_views(sent@) == old(self)@.sends(order_views(orders@)),
            final(self)@ == old(self)@.after_forward(order_views(orders@)),
    {
        let ghost a = self@;
        let ghost ov = order_views(orders@);
        let mut murmurs: Vec<Murmur> = Vec::new();
        std::mem::swap(&mut murmurs, &mut self.inbox);
        let n = if self.fanout < self.neighbors.len() { self.fanout } else { self.neighbors.len() };
        let mut sent: Vec<(String, Murmur)> = Vec::new();
        let mut j: usize = 0;
        while j < murmurs.len()
            invariant
                j <= murmurs.len(),
                murmurs.len() == orders.len(),
                murmur_views(murmurs@) == a.inbox,
                ov == order_views(orders@),
                n == a.spread(),
                self.id@ == a.id,
                views(self.neighbors@) == a.neighbors,
                self.fanout == a.fanout,
                views(self.known_murmurs@) == a.known,
                self.inbox@.len() == 0,
                pair_views(sent@) == a.forwarded(ov, j as int),
                pair_views(self.outbox@) == a.outbox + pair_views(sent@),
            decreases murmurs.len() - j,
        {
            let murmur = &murmurs[j];
            let ghost before = pair_views(sent@);
            let ghost tgt = a.targets(ov[j as int], j as int);
            assert(murmur@ == a.inbox[j as int]);
            if !murmur.is_expired() {
                let order = &orders[j];
                let take = if n < order.len() { n } else { order.len() };
                assert(views(order@) == ov[j as int]);
                let mut t: usize = 0;
                while t < take
                    invariant
                        t <= take,
                        take <= order.len(),
                        j < murmurs.len(),
                        murmurs.len() == orders.len(),
                        murmur_views(murmurs@) == a.inbox,
                        ov == order_views(orders@),
                        order == &orders@[j as int],
                        self.id@ == a.id,
                        views(self.neighbors@) == a.neighbors,
                        self.fanout == a.fanout,
                        views(self.known_murmurs@) == a.known,
                        self.inbox@.len() == 0,
                        murmur@ == a.inbox[j as int],
                        views(order@) == ov[j as int],
                        tgt == views(order@).take(take as int),
                        pair_views(sent@) == before + tgt.take(t as int).map_values(
                            |x: Seq<char>| (x, a.inbox[j as int]),
                        ),
                        pair_views(self.outbox@) == a.outbox + pair_views(sent@),
                    decreases take - t,
                {
                    let ghost prev = pair_views(sent@);
                    let ghost prev_out = pair_views(self.outbox@);
                    let target = order[t].clone();
                    let entry = (target.clone(), murmur.clone());
                    sent.push((target, murmur.clone()));
                    self.outbox.push(entry);
                    proof {
                        assert(tgt.take(t + 1) =~= tgt.take(t as int).push(tgt[t as int]));
                        assert(tgt.take(t + 1).map_values(|x: Seq<char>| (x, a.inbox[j as int]))
                            =~= tgt.take(t as int).map_values(|x: Seq<char>| (x, a.inbox[j as int])).push(
                            (tgt[t as int], a.inbox[j as int])));
                        assert(pair_views(sent@) =~= prev.push((tgt[t as int], a.inbox[j as int])));
                        assert(pair_views(self.outbox@) =~= prev_out.push((tgt[t as int], a.inbox[j as int])));
                    }
                    t = t + 1;
                }
                assert(tgt.take(take as int) =~= tgt);
            } else {
                assert(tgt =~= Seq::empty());
                assert(tgt.map_values(|x: Seq<char>| (x, a.inbox[j as int])) =~= Seq::empty());
            }
            assert(pair_views(sent@) =~= a.forwarded(ov, j + 1));
            j = j + 1;
        }
        proof {
            assert(murmur_views(self.inbox@) =~= Seq::empty());
        }
        sent
    }

    /// Spreads the inbox to a random subset of neighbors: each murmur that has not expired
    /// goes to `min(fanout, neighbors)` neighbors picked in a random order. The inbox is
    /// emptied and what was sent is added to the outbox and returned.
    pub fn forward(&mut self) -> (sent: Vec<(String, Murmur)>)
        ensures
            exists|orders: Seq<Seq<Seq<char>>>|
                #![trigger old(self)@.sends(orders)]
                {
                    &&& old(self)@.valid_orders(orders)
                    &&& pair_views(sent@) == old(self)@.sends(orders)
                    &&& final(self)@ == old(self)@.after_forward(orders)
                },
    {
        let orders = self.random_orders();
        self.forward_in_orders(&orders)
    }

    /// One random ordering of the neighbors for each murmur of the inbox that has not
    /// expired (the neighbors in their own order for the others).
    pub(crate) fn random_orders(&self) -> (orders: Vec<Vec<String>>)
        ensures
            self@.valid_orders(order_views(orders@)),
    {
        let mut orders: Vec<Vec<String>> = Vec::new();
        let mut j: usize = 0;
        while j < self.inbox.len()
            invariant
                j <= self.inbox.len(),
                orders.len() == j,
                forall|k: int|
                    0 <= k < j ==> #[trigger] views(orders@[k]@).to_multiset()
                        == self@.neighbors.to_multiset(),
            decreases self.inbox.len() - j,
        {
            let mut order = self.neighbors.clone();
            assert(views(order@) =~= views(self.neighbors@));
            if self.inbox[j].ttl > 0 {
                shuffle_strings(&mut order);
            }
            orders.push(order);
            j = j + 1;
        }
        let ghost ov = order_views(orders@);
        assert(self@.valid_orders(ov)) by {
            assert forall|k: int| 0 <= k < ov.len() implies #[trigger] ov[k].to_multiset()
                == self@.neighbors.to_multiset() by {
                assert(ov[k] == views(orders@[k]@));
            }
        }
        orders
    }

    /// Originates a murmur with the given content and tags: its id is this agent's id, a
    /// hyphen and the number of murmurs known so far; it lives ten hops. The agent learns
    /// its id and keeps it in the inbox, ready to be forwarded.
    pub fn originate(&mut self, content: &str, tags: Vec<String>) -> (m: Murmur)
        ensures
            m@ == old(self)@.new_murmur(content@, views(tags@)),
            m@.tags == views(tags@),
            m@.content == content@,
            m@.origin == old(self)@.id,
            final(self)@ == old(self)@.originated(m@),
            old(self)@.wf() ==> final(self)@.wf(),
    {
        let mut id = self.id.clone();
        proof {
            reveal_strlit("-");
        }
        id.append("-");
        append_decimal(&mut id, self.known_murmurs.len());
        let m = Murmur {
            id: id.clone(),
            origin: self.id.clone(),
            content: content.to_string(),
            ttl: 10,
            hops: 0,
            created_at: 0,
            tags,
            murmur_type: MurmurType::Rumor,
        };
        assert(m@.id =~= originated_id(self@.id, self@.known.len()));
        insert_str(&mut self.known_murmurs, id);
        self.inbox.push(m.clone());
        proof {
            let o = old(self)@;
            let f = self@;
            assert(murmur_views(self.inbox@) =~= murmur_views(old(self).inbox@).push(m@));
            if o.knows(m@.id) {
                assert(f.known =~= o.known);
            } else {
                assert(f.known =~= o.known.push(m@.id));
            }
            if o.wf() {
                assert forall|i: int| 0 <= i < f.inbox.len() implies #[trigger] f.knows(f.inbox[i].id) by {
                    if i < o.inbox.len() {
                        assert(o.knows(o.inbox[i].id));
                        let k = choose|k: int| 0 <= k < o.known.len() && o.known[k] == o.inbox[i].id;
                        assert(f.known[k] == o.inbox[i].id);
                    } else if !o.knows(m@.id) {
                        assert(f.known[f.known.len() - 1] == f.inbox[i].id);
                    }
                }
                assert forall|i: int| 0 <= i < f.inbox.len() implies #[trigger] f.inbox[i].hops + f.inbox[i].ttl <= u32::MAX by {
                    if i < o.inbox.len() {
                        assert(f.inbox[i] == o.inbox[i]);
                    }
                }
            }
        }
        m
    }

    /// How many distinct murmurs this agent has heard of.
    pub fn known_count(&self) -> (r: usize)
        ensures
            r == self@.known.len(),
    {
        self.known_murmurs.len()
    }

    /// Whether this agent has heard of the murmur with id `murmur_id`.
    pub fn has_heard(&self, murmur_id: &str) -> (r: bool)
        ensures
            r == self@.knows(murmur_id@),
    {
        contains_str(&self.known_murmurs, murmur_id)
    }
}


/// Every murmur sent out comes from the inbox, has not expired, and goes to a target taken
/// from the order given for it.
pub proof fn lemma_forwarded_origin(a: AgentView, orders: Seq<Seq<Seq<char>>>, upto: int, q: int)
    requires
        0 <= upto <= a.inbox.len(),
        0 <= q < a.forwarded(orders, upto).len(),
    ensures
        exists|j: int|
            #![trigger a.inbox[j]]
            0 <= j < upto && a.forwarded(orders, upto)[q].1 == a.inbox[j] && a.inbox[j].ttl > 0
                && orders[j].contains(a.forwarded(orders, upto)[q].0),
    decreases upto,
{
    let prev = a.forwarded(orders, upto - 1);
    let t = a.targets(orders[upto - 1], upto - 1);
    if q < prev.len() {
        lemma_forwarded_origin(a, orders, upto - 1, q);
        assert(a.forwarded(orders, upto)[q] == prev[q]);
    } else {
        let j = upto - 1;
        let e = a.forwarded(orders, upto)[q];
        assert(e == (t[q - prev.len()], a.inbox[j]));
        assert(a.inbox[j].ttl > 0);
        assert(orders[j][q - prev.len()] == t[q - prev.len()]);
    }
}

/// What receiving leaves behind: afterwards the agent has heard of the murmur exactly when it
/// had before or the murmur had not expired; it forgets nothing; and the same murmur handed
/// over again is refused.
pub proof fn law_receive_then_heard(a: AgentView, m: MurmurView, id: Seq<char>)
    ensures
        a.received(m).knows(m.id) <==> (a.knows(m.id) || m.ttl > 0),
        a.knows(id) ==> a.received(m).knows(id),
        !a.received(m).accepts(m),
{
    if a.accepts(m) {
        crate::anti_entropy::lemma_push_contains(a.known, m.id, m.id);
        crate::anti_entropy::lemma_push_contains(a.known, m.id, id);
    }
}

/// What originating leaves behind: the murmur carries the given content and tags, comes from
/// the agent and lives ten hops; the agent has heard of it, and it waits, fresh, at the end of
/// the agent's inbox.
pub proof fn law_originate_then_heard(a: AgentView, content: Seq<char>, tags: Seq<Seq<char>>)
    ensures
        ({
            let m = a.new_murmur(content, tags);
            let b = a.originated(m);
            &&& b.knows(m.id)
            &&& b.inbox.last() == m
            &&& m.ttl > 0
            &&& m.origin == a.id
            &&& m.content == content
            &&& m.tags == tags
            &&& m.ttl == 10
            &&& m.hops == 0
        }),
{
    let m = a.new_murmur(content, tags);
    if !a.knows(m.id) {
        crate::anti_entropy::lemma_push_contains(a.known, m.id, m.id);
    }
}

} // verus!
