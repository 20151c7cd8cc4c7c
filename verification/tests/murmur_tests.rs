use lau_murmur_protocol_v2::agent::GossipAgent;
use lau_murmur_protocol_v2::anti_entropy::AntiEntropy;
use lau_murmur_protocol_v2::epidemic::{peak_infection, sir_advance, sir_start};
use lau_murmur_protocol_v2::greet;
use lau_murmur_protocol_v2::murmur::{Murmur, MurmurDelivery, MurmurType};
use lau_murmur_protocol_v2::network::GossipNetwork;
use lau_murmur_protocol_v2::rumor::RumorTracker;
use lau_murmur_protocol_v2::text::{sort_strings, str_lt};
use lau_murmur_protocol_v2::topology::NetworkTopology;

fn murmur(id: &str, origin: &str, content: &str, ttl: u32, hops: u32, mt: MurmurType) -> Murmur {
    Murmur {
        id: id.into(),
        origin: origin.into(),
        content: content.into(),
        ttl,
        hops,
        created_at: 0,
        tags: vec![],
        murmur_type: mt,
    }
}

fn set_fanout(net: &mut GossipNetwork, fanout: usize) {
    net.set_fanout(fanout);
}

/// Coins drawn with probability `p` for each ordered pair of `n` agents.
fn draw(n: usize, p: f64) -> Vec<Vec<bool>> {
    (0..n).map(|_| (0..n).map(|_| rand::random::<f64>() < p).collect()).collect()
}

fn covers_95(net: &GossipNetwork, id: &str) -> bool {
    net.reach_count(id) * 20 >= net.agent_count() * 19
}

// ---- Murmur ----

#[test]
fn test_murmur_fresh() {
    let m = murmur("m1", "a", "hello", 3, 0, MurmurType::Rumor);
    assert!(m.is_fresh());
    assert!(!m.is_expired());
}

#[test]
fn test_murmur_expired() {
    let m = murmur("m1", "a", "hello", 0, 5, MurmurType::Fact);
    assert!(!m.is_fresh());
    assert!(m.is_expired());
}

#[test]
fn test_murmur_decay() {
    let mut m = murmur("m1", "a", "hello", 2, 0, MurmurType::Rumor);
    m.decay();
    assert_eq!(m.ttl, 1);
    assert_eq!(m.hops, 1);
    m.decay();
    assert_eq!(m.ttl, 0);
    assert_eq!(m.hops, 2);
    assert!(m.is_expired());
}

#[test]
fn test_murmur_decay_does_not_underflow() {
    let mut m = murmur("m1", "a", "hello", 0, 5, MurmurType::Rumor);
    m.decay();
    assert_eq!(m.ttl, 0);
}

#[test]
fn test_murmur_clone_keeps_fields() {
    let mut m = murmur("m1", "a", "hello", 3, 1, MurmurType::Warning);
    m.tags = vec!["tag1".into()];
    m.created_at = 123;
    let c = m.clone();
    assert_eq!(c, m);
}

// ---- GossipAgent ----

#[test]
fn test_agent_receive() {
    let mut agent = GossipAgent::new("a", vec!["b".into(), "c".into()]);
    let m = murmur("m1", "b", "hi", 5, 0, MurmurType::Rumor);
    assert!(agent.receive(m));
    assert!(agent.has_heard("m1"));
    assert_eq!(agent.known_count(), 1);
}

#[test]
fn test_agent_receive_decays_into_inbox() {
    let mut agent = GossipAgent::new("a", vec!["b".into()]);
    assert!(agent.receive(murmur("m1", "b", "hi", 5, 2, MurmurType::Rumor)));
    assert_eq!(agent.inbox.len(), 1);
    assert_eq!(agent.inbox[0].ttl, 4);
    assert_eq!(agent.inbox[0].hops, 3);
}

#[test]
fn test_agent_reject_duplicate() {
    let mut agent = GossipAgent::new("a", vec!["b".into()]);
    let m = murmur("m1", "b", "hi", 5, 0, MurmurType::Rumor);
    assert!(agent.receive(m.clone()));
    assert!(!agent.receive(m));
}

#[test]
fn test_agent_reject_expired() {
    let mut agent = GossipAgent::new("a", vec![]);
    let m = murmur("m1", "b", "hi", 0, 5, MurmurType::Rumor);
    assert!(!agent.receive(m));
}

#[test]
fn test_agent_forward() {
    let mut agent = GossipAgent::new("a", vec!["b".into(), "c".into(), "d".into()]);
    agent.fanout = 2;
    let m = murmur("m1", "b", "hi", 5, 0, MurmurType::Rumor);
    agent.receive(m);
    let deliveries = agent.forward();
    assert_eq!(deliveries.len(), 2);
}

#[test]
fn test_agent_originate() {
    let mut agent = GossipAgent::new("a", vec![]);
    let m = agent.originate("breaking news", vec!["urgent".into()]);
    assert_eq!(m.origin, "a");
    assert_eq!(m.content, "breaking news");
    assert!(agent.has_heard(&m.id));
}

#[test]
fn test_agent_originate_ids_and_ttl() {
    let mut agent = GossipAgent::new("a", vec![]);
    let m0 = agent.originate("x", vec![]);
    let m1 = agent.originate("y", vec![]);
    assert_eq!(m0.id, "a-0");
    assert_eq!(m1.id, "a-1");
    assert_eq!(m0.ttl, 10);
    assert_eq!(m0.hops, 0);
    assert_eq!(m0.murmur_type, MurmurType::Rumor);
    assert_eq!(agent.known_count(), 2);
    assert_eq!(agent.inbox.len(), 2);
}

#[test]
fn test_agent_forward_no_expired() {
    let mut agent = GossipAgent::new("a", vec!["b".into()]);
    let m = murmur("m1", "b", "hi", 1, 0, MurmurType::Rumor);
    agent.receive(m);
    let deliveries = agent.forward();
    assert!(deliveries.is_empty());
}

#[test]
fn test_agent_forward_in_orders_follows_orders() {
    let mut agent = GossipAgent::new("a", vec!["b".into(), "c".into(), "d".into()]);
    agent.fanout = 2;
    agent.receive(murmur("m1", "b", "hi", 5, 0, MurmurType::Rumor));
    let orders = vec![vec!["d".to_string(), "b".to_string(), "c".to_string()]];
    let sent = agent.forward_in_orders(&orders);
    let targets: Vec<&str> = sent.iter().map(|(t, _)| t.as_str()).collect();
    assert_eq!(targets, vec!["d", "b"]);
    assert!(agent.inbox.is_empty());
    assert_eq!(agent.outbox.len(), 2);
    assert_eq!(sent[0].1.ttl, 4);
}

#[test]
fn test_agent_forward_picks_neighbors_at_random() {
    let neighbors: Vec<String> = ["b", "c", "d", "e", "f"].iter().map(|s| s.to_string()).collect();
    let mut agent = GossipAgent::new("a", neighbors.clone());
    agent.fanout = 1;
    let mut firsts = 0;
    for _ in 0..50 {
        agent.originate("x", vec![]);
        let sent = agent.forward();
        assert_eq!(sent.len(), 1);
        assert!(neighbors.contains(&sent[0].0));
        if sent[0].0 == "b" {
            firsts += 1;
        }
    }
    assert!(firsts < 50);
}

#[test]
fn test_agent_forward_full_fanout_reaches_every_neighbor() {
    let mut agent = GossipAgent::new("a", vec!["b".into(), "c".into(), "d".into()]);
    agent.originate("x", vec![]);
    let mut targets: Vec<String> = agent.forward().into_iter().map(|(t, _)| t).collect();
    targets.sort();
    assert_eq!(targets, vec!["b", "c", "d"]);
}

// ---- NetworkTopology ----

#[test]
fn test_complete_graph() {
    let topo = NetworkTopology::complete(4);
    assert_eq!(topo.agent_count(), 4);
    for i in 0..4 {
        let id = format!("agent-{}", i);
        assert_eq!(topo.get_neighbors(&id).len(), 3);
    }
}

#[test]
fn test_ring_graph() {
    let topo = NetworkTopology::ring(5);
    assert_eq!(topo.agent_count(), 5);
    for i in 0..5 {
        let id = format!("agent-{}", i);
        assert_eq!(topo.get_neighbors(&id).len(), 2);
    }
}

#[test]
fn test_ring_neighbors_are_previous_and_next() {
    let topo = NetworkTopology::ring(5);
    assert_eq!(topo.get_neighbors("agent-0"), vec!["agent-4", "agent-1"]);
    assert_eq!(topo.get_neighbors("agent-4"), vec!["agent-3", "agent-0"]);
}

#[test]
fn test_star_graph() {
    let topo = NetworkTopology::star(5);
    assert_eq!(topo.agent_count(), 5);
    assert_eq!(topo.get_neighbors("agent-0").len(), 4);
    assert_eq!(topo.get_neighbors("agent-1").len(), 1);
}

#[test]
fn test_star_links_hub_and_spokes() {
    let topo = NetworkTopology::star(4);
    assert_eq!(topo.get_neighbors("agent-0"), vec!["agent-1", "agent-2", "agent-3"]);
    assert_eq!(topo.get_neighbors("agent-3"), vec!["agent-0"]);
    assert!(topo.get_neighbors("nobody").is_empty());
}

#[test]
fn test_complete_links_every_other_agent() {
    let topo = NetworkTopology::complete(3);
    assert_eq!(topo.get_neighbors("agent-1"), vec!["agent-0", "agent-2"]);
}

#[test]
fn test_random_graph() {
    let links = draw(10, 0.5);
    let topo = NetworkTopology::random_from(10, &links);
    assert_eq!(topo.agent_count(), 10);
}

#[test]
fn test_random_from_follows_draws() {
    let mut links = vec![vec![false; 4]; 4];
    links[0][2] = true;
    links[1][3] = true;
    // entries below the diagonal are not read
    links[3][0] = true;
    let topo = NetworkTopology::random_from(4, &links);
    assert_eq!(topo.get_neighbors("agent-0"), vec!["agent-2"]);
    assert_eq!(topo.get_neighbors("agent-2"), vec!["agent-0"]);
    assert_eq!(topo.get_neighbors("agent-1"), vec!["agent-3"]);
    assert_eq!(topo.get_neighbors("agent-3"), vec!["agent-1"]);
}

#[test]
fn test_random_from_is_undirected() {
    let links = draw(12, 0.4);
    let topo = NetworkTopology::random_from(12, &links);
    for i in 0..12 {
        let a = format!("agent-{}", i);
        for b in topo.get_neighbors(&a) {
            assert!(topo.get_neighbors(&b).contains(&a));
        }
    }
}

#[test]
fn test_small_world_graph() {
    let rewire = draw(10, 0.3);
    let topo = NetworkTopology::small_world_from(10, 2, &rewire);
    assert_eq!(topo.agent_count(), 10);
}

#[test]
fn test_small_world_without_rewiring_is_lattice() {
    let rewire = vec![vec![false; 10]; 10];
    let topo = NetworkTopology::small_world_from(10, 2, &rewire);
    let mut nb = topo.get_neighbors("agent-0");
    nb.sort();
    assert_eq!(nb, vec!["agent-1", "agent-2", "agent-8", "agent-9"]);
}

#[test]
fn test_small_world_rewiring_moves_links() {
    let rewire = vec![vec![true; 10]; 10];
    let lattice = NetworkTopology::small_world_from(10, 2, &vec![vec![false; 10]; 10]);
    let topo = NetworkTopology::small_world_from(10, 2, &rewire);
    let mut differs = false;
    for i in 0..10 {
        let a = format!("agent-{}", i);
        let mut x = topo.get_neighbors(&a);
        let mut y = lattice.get_neighbors(&a);
        x.sort();
        y.sort();
        if x != y {
            differs = true;
        }
        for b in topo.get_neighbors(&a) {
            assert!(topo.get_neighbors(&b).contains(&a));
            assert_ne!(b, a);
        }
    }
    assert!(differs);
}

#[test]
fn test_small_world_rewires_only_drawn_links() {
    let n = 10;
    let mut rewire = vec![vec![false; n]; n];
    rewire[0][1] = true;
    let topo = NetworkTopology::small_world_from(n, 2, &rewire);
    let lattice = NetworkTopology::small_world_from(n, 2, &vec![vec![false; n]; n]);
    for i in 0..n {
        let a = format!("agent-{}", i);
        let now = topo.get_neighbors(&a);
        let before = lattice.get_neighbors(&a);
        // every lattice link other than 0 - 1 stays
        for b in &before {
            let pair_drawn = (a == "agent-0" && b == "agent-1") || (a == "agent-1" && b == "agent-0");
            if !pair_drawn {
                assert!(now.contains(b));
            }
        }
        // every new link touches agent 0, the only agent with a draw
        for b in &now {
            if !before.contains(b) {
                assert!(a == "agent-0" || b == "agent-0");
            }
        }
    }
}

#[test]
fn test_small_world_picks_new_partner_at_random() {
    let n = 10;
    let mut rewire = vec![vec![false; n]; n];
    rewire[0][1] = true;
    let mut partners: Vec<String> = Vec::new();
    for _ in 0..30 {
        let topo = NetworkTopology::small_world_from(n, 2, &rewire);
        for b in topo.get_neighbors("agent-0") {
            if !["agent-2", "agent-8", "agent-9"].contains(&b.as_str()) && !partners.contains(&b) {
                partners.push(b);
            }
        }
    }
    assert!(partners.len() > 1);
}

#[test]
fn test_small_world_from_picks_follows_picks() {
    let n = 10;
    let mut rewire = vec![vec![false; n]; n];
    rewire[0][1] = true;
    let mut picks = vec![vec![0; n]; n];
    picks[0][1] = 5;
    let topo = NetworkTopology::small_world_from_picks(n, 2, &rewire, &picks);
    let mut nb = topo.get_neighbors("agent-0");
    nb.sort();
    assert_eq!(nb, vec!["agent-2", "agent-5", "agent-8", "agent-9"]);
    assert!(topo.get_neighbors("agent-5").contains(&"agent-0".to_string()));
    assert!(!topo.get_neighbors("agent-1").contains(&"agent-0".to_string()));
    // a pick that is not a candidate falls back to the first candidate, agent-1
    picks[0][1] = 2;
    let topo = NetworkTopology::small_world_from_picks(n, 2, &rewire, &picks);
    let mut nb = topo.get_neighbors("agent-0");
    nb.sort();
    assert_eq!(nb, vec!["agent-1", "agent-2", "agent-8", "agent-9"]);
}

#[test]
fn test_small_world_keeps_link_count_and_no_self_links() {
    let n = 12;
    let rewire = draw(n, 0.5);
    let topo = NetworkTopology::small_world_from(n, 2, &rewire);
    let mut total = 0;
    for i in 0..n {
        let a = format!("agent-{}", i);
        let nb = topo.get_neighbors(&a);
        assert!(!nb.contains(&a));
        total += nb.len();
    }
    assert_eq!(total, 2 * n * 2);
}

#[test]
fn test_run_matches_successive_ticks() {
    let mut net = GossipNetwork::new(NetworkTopology::complete(4));
    net.set_fanout(10);
    let m = net.inject("agent-0", "x", vec![]);
    let rounds = net.run(2);
    assert_eq!(rounds[0].len(), 3);
    assert!(rounds[1].len() > 0);
    assert_eq!(net.reach_count(&m.id), 4);
    assert_eq!(net.spread_speed(), 1);
}

#[test]
fn test_spread_reaches_ten_hops_at_most() {
    let mut net = GossipNetwork::new(NetworkTopology::ring(30));
    net.set_fanout(10);
    let m = net.inject("agent-0", "far", vec![]);
    net.run(4);
    // within 4 hops on each side
    assert_eq!(net.reach_count(&m.id), 9);
    net.run(10);
    // the murmur stops after ten hops on each side
    assert_eq!(net.reach_count(&m.id), 21);
    assert!(net.agent("agent-10").unwrap().has_heard(&m.id));
    assert!(!net.agent("agent-11").unwrap().has_heard(&m.id));
}

#[test]
fn test_topology_and_network_clone() {
    let topo = NetworkTopology::ring(4);
    let copy = topo.clone();
    assert_eq!(copy.entries(), topo.entries());
    let mut net = GossipNetwork::new(topo);
    let m = net.inject("agent-0", "x", vec![]);
    let snapshot = net.clone();
    net.tick();
    assert_eq!(snapshot.reach_count(&m.id), 1);
    assert!(net.reach_count(&m.id) > 1);
}

#[test]
fn test_diameter_complete() {
    let topo = NetworkTopology::complete(5);
    assert_eq!(topo.diameter(), 1);
}

#[test]
fn test_diameter_ring() {
    let topo = NetworkTopology::ring(6);
    assert_eq!(topo.diameter(), 3);
}

#[test]
fn test_diameter_star() {
    let topo = NetworkTopology::star(5);
    assert_eq!(topo.diameter(), 2);
}

#[test]
fn test_diameter_edge_cases() {
    assert_eq!(NetworkTopology::complete(0).diameter(), 0);
    assert_eq!(NetworkTopology::complete(1).diameter(), 0);
    assert_eq!(NetworkTopology::ring(7).diameter(), 3);
    let disconnected = NetworkTopology::random_from(3, &vec![vec![false; 3]; 3]);
    // a search that finds nothing new still counts its one step
    assert_eq!(disconnected.diameter(), 1);
}

#[test]
fn test_agent_ids_sorted() {
    let topo = NetworkTopology::ring(12);
    let ids = topo.agent_ids();
    assert_eq!(ids.len(), 12);
    assert_eq!(ids[0], "agent-0");
    assert_eq!(ids[1], "agent-1");
    assert_eq!(ids[2], "agent-10");
    assert_eq!(ids[3], "agent-11");
    assert_eq!(ids[4], "agent-2");
}

#[test]
fn test_from_entries_replaces_repeated_names() {
    let topo = NetworkTopology::from_entries(vec![
        ("x".to_string(), vec!["y".to_string()]),
        ("y".to_string(), vec![]),
        ("x".to_string(), vec!["z".to_string()]),
    ]);
    assert_eq!(topo.agent_count(), 2);
    assert_eq!(topo.get_neighbors("x"), vec!["z"]);
    assert_eq!(topo.entries().len(), 2);
}

// ---- GossipNetwork ----

#[test]
fn test_theorem_1_complete_graph_one_tick() {
    let topo = NetworkTopology::complete(5);
    let mut net = GossipNetwork::new(topo);
    let m = net.inject("agent-0", "hello", vec![]);
    set_fanout(&mut net, 10);
    net.tick();
    for agent in &net.agents {
        if agent.id != "agent-0" {
            assert!(agent.has_heard(&m.id), "agent {} should have heard {}", agent.id, m.id);
        }
    }
    assert_eq!(net.reach_count(&m.id), net.agent_count());
}

#[test]
fn test_theorem_3_star_two_ticks() {
    let topo = NetworkTopology::star(5);
    let mut net = GossipNetwork::new(topo);
    set_fanout(&mut net, 10);
    let m = net.inject("agent-1", "news", vec![]);
    net.tick();
    net.tick();
    for agent in &net.agents {
        assert!(agent.has_heard(&m.id));
    }
}

#[test]
fn test_theorem_4_ttl_expiration() {
    let topo = NetworkTopology::ring(10);
    let mut net = GossipNetwork::new(topo);
    let m = net.inject("agent-0", "short-lived", vec![]);
    net.agents[0].inbox[0].ttl = 1;
    net.tick();
    assert!(net.reach_count(&m.id) < net.agent_count(), "TTL=1 should not reach everyone in a ring of 10");
    // the receivers hold it with no time left, so it spreads no further
    let before = net.reach_count(&m.id);
    net.tick();
    assert_eq!(net.reach_count(&m.id), before);
}

#[test]
fn test_theorem_5_deduplication() {
    let topo = NetworkTopology::ring(3);
    let mut net = GossipNetwork::new(topo);
    set_fanout(&mut net, 10);
    let _m = net.inject("agent-0", "no loops", vec![]);
    for _ in 0..20 {
        net.tick();
    }
    for agent in &net.agents {
        assert!(agent.known_count() <= 1);
    }
}

#[test]
fn test_theorem_6_coverage_monotonic() {
    let topo = NetworkTopology::complete(5);
    let mut net = GossipNetwork::new(topo);
    set_fanout(&mut net, 10);
    let m = net.inject("agent-0", "monotonic", vec![]);
    let mut prev = 0;
    for _ in 0..10 {
        net.tick();
        let reach = net.reach_count(&m.id);
        assert!(reach >= prev, "coverage should not decrease");
        prev = reach;
    }
}

#[test]
fn test_inject_and_coverage() {
    let topo = NetworkTopology::complete(3);
    let mut net = GossipNetwork::new(topo);
    set_fanout(&mut net, 10);
    let m = net.inject("agent-0", "test", vec![]);
    assert_eq!(net.reach_count(&m.id), 1);
    net.tick();
    assert_eq!(net.reach_count(&m.id), 3);
}

#[test]
fn test_run_simulation() {
    let topo = NetworkTopology::ring(6);
    let mut net = GossipNetwork::new(topo);
    set_fanout(&mut net, 10);
    net.inject("agent-0", "ring gossip", vec![]);
    let results = net.run(20);
    assert_eq!(results.len(), 20);
}

#[test]
fn test_total_coverage() {
    let topo = NetworkTopology::complete(3);
    let mut net = GossipNetwork::new(topo);
    set_fanout(&mut net, 10);
    let m = net.inject("agent-0", "msg1", vec![]);
    net.tick();
    assert_eq!(net.reach_count(&m.id), net.agent_count());
}

#[test]
fn test_theorem_10_small_world_faster_than_ring() {
    let n = 20;
    let ring = NetworkTopology::ring(n);
    let sw = NetworkTopology::small_world_from(n, 2, &draw(n, 0.3));
    let mut ring_net = GossipNetwork::new(ring);
    let mut sw_net = GossipNetwork::new(sw);
    set_fanout(&mut ring_net, 10);
    set_fanout(&mut sw_net, 10);
    let rm = ring_net.inject("agent-0", "ring-msg", vec![]);
    let sm = sw_net.inject("agent-0", "sw-msg", vec![]);
    let mut ring_steps = 0;
    let mut sw_steps = 0;
    for _ in 0..100 {
        ring_net.tick();
        ring_steps += 1;
        if covers_95(&ring_net, &rm.id) {
            break;
        }
    }
    for _ in 0..100 {
        sw_net.tick();
        sw_steps += 1;
        if covers_95(&sw_net, &sm.id) {
            break;
        }
    }
    assert!(sw_steps <= ring_steps, "small world should spread at least as fast as ring");
}

#[test]
fn test_theorem_11_random_graph_connectivity() {
    let topo = NetworkTopology::random_from(10, &draw(10, 0.8));
    let mut net = GossipNetwork::new(topo);
    set_fanout(&mut net, 10);
    let m = net.inject("agent-0", "well-connected", vec![]);
    net.run(20);
    assert!(net.reach_count(&m.id) * 2 > net.agent_count());
}

#[test]
fn test_theorem_12_more_neighbors_faster() {
    let mut c_net = GossipNetwork::new(NetworkTopology::complete(10));
    let mut r_net = GossipNetwork::new(NetworkTopology::ring(10));
    set_fanout(&mut c_net, 10);
    set_fanout(&mut r_net, 10);
    let cm = c_net.inject("agent-0", "c-msg", vec![]);
    let rm = r_net.inject("agent-0", "r-msg", vec![]);
    c_net.tick();
    r_net.tick();
    assert!(
        c_net.reach_count(&cm.id) >= r_net.reach_count(&rm.id),
        "complete graph should have higher coverage after 1 tick than ring"
    );
}

#[test]
fn test_gossip_network_agent_count() {
    let topo = NetworkTopology::complete(7);
    let net = GossipNetwork::new(topo);
    assert_eq!(net.agent_count(), 7);
}

#[test]
fn test_ring_spreads_eventually() {
    let mut net = GossipNetwork::new(NetworkTopology::ring(6));
    set_fanout(&mut net, 10);
    let m = net.inject("agent-0", "eventual", vec![]);
    net.run(20);
    assert!(net.reach_count(&m.id) * 2 > net.agent_count());
}

#[test]
fn test_complete_network_spread_speed() {
    let mut net = GossipNetwork::new(NetworkTopology::complete(5));
    set_fanout(&mut net, 10);
    let m = net.inject("agent-0", "fast", vec![]);
    net.run(5);
    assert!(covers_95(&net, &m.id));
    assert_eq!(net.spread_speed(), 1);
}

#[test]
fn test_star_spoke_to_spoke() {
    let topo = NetworkTopology::star(4);
    let mut net = GossipNetwork::new(topo);
    set_fanout(&mut net, 10);
    let m = net.inject("agent-1", "spoke gossip", vec![]);
    net.tick();
    net.tick();
    assert!(net.agent("agent-2").unwrap().has_heard(&m.id));
    assert!(net.agent("agent-3").unwrap().has_heard(&m.id));
}

#[test]
fn test_gossip_network_empty_coverage() {
    let net = GossipNetwork::new(NetworkTopology::complete(3));
    assert_eq!(net.reach_count("agent-0-0"), 0);
}

#[test]
fn test_network_spread_speed_no_murmurs() {
    let topo = NetworkTopology::complete(3);
    let net = GossipNetwork::new(topo);
    assert_eq!(net.spread_speed(), usize::MAX);
}

#[test]
fn test_spread_speed_counts_ticks_when_reached_before_any() {
    // a single agent is fully covered by its own murmur before any tick
    let mut net = GossipNetwork::new(NetworkTopology::complete(1));
    net.inject("agent-0", "alone", vec![]);
    assert_eq!(net.spread_speed(), 0);
    net.tick();
    assert_eq!(net.spread_speed(), 1);
}

#[test]
fn test_spread_speed_on_ring_is_first_covering_tick() {
    let mut net = GossipNetwork::new(NetworkTopology::ring(6));
    set_fanout(&mut net, 10);
    net.inject("agent-0", "ring", vec![]);
    net.run(5);
    // reach after each tick: 3, 5, 6 agents
    assert_eq!(net.spread_speed(), 3);
}

#[test]
fn test_multiple_murmurs() {
    let topo = NetworkTopology::complete(4);
    let mut net = GossipNetwork::new(topo);
    set_fanout(&mut net, 10);
    net.inject("agent-0", "msg1", vec![]);
    net.inject("agent-1", "msg2", vec![]);
    net.tick();
    for agent in &net.agents {
        assert_eq!(agent.known_count(), 2);
    }
}

#[test]
fn test_network_agents_sorted_with_topology_neighbors() {
    let net = GossipNetwork::new(NetworkTopology::ring(3));
    let ids: Vec<&str> = net.agents.iter().map(|a| a.id.as_str()).collect();
    assert_eq!(ids, vec!["agent-0", "agent-1", "agent-2"]);
    assert_eq!(net.agents[1].neighbors, vec!["agent-0", "agent-2"]);
    assert_eq!(net.agents[1].fanout, 3);
    assert!(net.agent("agent-9").is_none());
}

#[test]
fn test_tick_with_given_orders() {
    let mut net = GossipNetwork::new(NetworkTopology::complete(3));
    net.agents[0].fanout = 1;
    let m = net.inject("agent-0", "ordered", vec![]);
    let orders = vec![
        vec![vec!["agent-2".to_string(), "agent-1".to_string()]],
        vec![],
        vec![],
    ];
    let out = net.tick_with(&orders);
    assert_eq!(out.len(), 1);
    assert_eq!(out[0].from, "agent-0");
    assert_eq!(out[0].to, "agent-2");
    assert_eq!(out[0].murmur.id, m.id);
    assert!(net.agent("agent-2").unwrap().has_heard(&m.id));
    assert!(!net.agent("agent-1").unwrap().has_heard(&m.id));
    assert_eq!(net.reach_count(&m.id), 2);
    assert_eq!(net.agent("agent-2").unwrap().inbox[0].ttl, 9);
}

#[test]
fn test_deliver_drops_unknown_targets() {
    let mut net = GossipNetwork::new(NetworkTopology::complete(2));
    let m = murmur("x-0", "x", "hi", 3, 0, MurmurType::Fact);
    let pending = vec![
        MurmurDelivery { from: "x".into(), to: "agent-1".into(), murmur: m.clone() },
        MurmurDelivery { from: "x".into(), to: "ghost".into(), murmur: m.clone() },
        MurmurDelivery { from: "x".into(), to: "agent-1".into(), murmur: m.clone() },
    ];
    let landed = net.deliver(pending);
    assert_eq!(landed.len(), 2);
    assert_eq!(landed[1].to, "agent-1");
    assert_eq!(net.reach_count("x-0"), 1);
    assert_eq!(net.agent("agent-1").unwrap().known_count(), 1);
}

// ---- SIR counts ----

#[test]
fn test_sir_start_and_advance() {
    let c = sir_start(1000, 10);
    assert_eq!(c, (990, 10, 0));
    let c2 = sir_advance(c, 1000, 3, 1);
    assert_eq!(c2, (987, 12, 1));
    assert_eq!(c2.0 + c2.1 + c2.2, 1000);
}

#[test]
fn test_sir_advance_saturates_and_clamps() {
    // more new infections than susceptible agents: the susceptible count stops at zero
    let c = sir_advance((2, 5, 1), 10, 4, 0);
    assert_eq!(c, (0, 9, 1));
    // the infected count is clamped to the population
    let c = sir_advance((0, 8, 0), 10, 4, 0);
    assert_eq!(c, (0, 10, 0));
    // when the counts exceed the population, the susceptible count makes up the rest
    let c = sir_advance((5, 4, 4), 10, 0, 0);
    assert_eq!(c, (2, 4, 4));
}

#[test]
fn test_peak_infection_of_history() {
    assert_eq!(peak_infection(&vec![]), 0);
    assert_eq!(peak_infection(&vec![(990, 10, 0), (970, 25, 5), (960, 20, 20)]), 25);
}

// ---- AntiEntropy ----

#[test]
fn test_theorem_9_anti_entropy_convergence() {
    let ids: Vec<String> = vec!["a".into(), "b".into(), "c".into()];
    let mut ae = AntiEntropy::new(&ids);
    ae.add_murmur("a", "m1");
    ae.add_murmur("b", "m2");
    ae.add_murmur("c", "m3");
    assert!(!ae.is_converged());
    ae.full_sync();
    assert!(ae.is_converged());
    for (_, state) in &ae.agent_states {
        assert_eq!(state.len(), 3);
    }
}

#[test]
fn test_sync_pair() {
    let ids: Vec<String> = vec!["a".into(), "b".into()];
    let mut ae = AntiEntropy::new(&ids);
    ae.add_murmur("a", "m1");
    ae.add_murmur("a", "m2");
    ae.add_murmur("b", "m3");
    let (a_to_b, b_to_a) = ae.sync_pair("a", "b");
    assert_eq!(a_to_b.len(), 2);
    assert_eq!(b_to_a.len(), 1);
    assert!(ae.is_converged());
}

#[test]
fn test_anti_entropy_already_converged() {
    let ids: Vec<String> = vec!["a".into(), "b".into()];
    let mut ae = AntiEntropy::new(&ids);
    ae.add_murmur("a", "m1");
    ae.add_murmur("b", "m1");
    assert!(ae.is_converged());
}

#[test]
fn test_anti_entropy_empty() {
    let ids: Vec<String> = vec!["a".into(), "b".into()];
    let ae = AntiEntropy::new(&ids);
    assert!(ae.is_converged());
}

#[test]
fn test_full_sync_returns_exchanges() {
    let ids: Vec<String> = vec!["a".into(), "b".into(), "c".into()];
    let mut ae = AntiEntropy::new(&ids);
    ae.add_murmur("a", "m1");
    let total = ae.full_sync();
    assert!(total > 0);
    assert!(ae.is_converged());
}

#[test]
fn test_full_sync_counts_every_handover() {
    let ids: Vec<String> = vec!["a".into(), "b".into(), "c".into()];
    let mut ae = AntiEntropy::new(&ids);
    ae.add_murmur("a", "m1");
    ae.add_murmur("b", "m2");
    // each of three agents lacks one of the two ids or both: 1 + 1 + 2
    assert_eq!(ae.full_sync(), 4);
}

#[test]
fn test_full_sync_idle_when_converged() {
    let ids: Vec<String> = vec!["a".into(), "b".into()];
    let mut ae = AntiEntropy::new(&ids);
    ae.add_murmur("a", "m1");
    ae.add_murmur("b", "m1");
    assert!(ae.is_converged());
    assert_eq!(ae.full_sync(), 0);
}

#[test]
fn test_anti_entropy_ignores_unknown_and_repeated() {
    let ids: Vec<String> = vec!["a".into(), "a".into(), "b".into()];
    let mut ae = AntiEntropy::new(&ids);
    assert_eq!(ae.agent_states.len(), 2);
    ae.add_murmur("zzz", "m1");
    ae.add_murmur("a", "m1");
    ae.add_murmur("a", "m1");
    assert_eq!(ae.agent_states[0].1, vec!["m1"]);
    assert!(ae.agent_states[1].1.is_empty());
}

// ---- RumorTracker ----

#[test]
fn test_rumor_tracker_record() {
    let mut tracker = RumorTracker::new();
    let m = murmur("m1", "a", "hello", 5, 0, MurmurType::Rumor);
    tracker.record(&m, true);
    assert_eq!(tracker.true_count(), tracker.recorded_count());
}

#[test]
fn test_rumor_tracker_truth_ratio() {
    let mut tracker = RumorTracker::new();
    for i in 0..4 {
        let m = murmur(&format!("m{}", i), "a", &format!("msg{}", i), 5, 0, MurmurType::Rumor);
        tracker.record(&m, i % 2 == 0);
    }
    assert_eq!(tracker.true_count() * 2, tracker.recorded_count());
}

#[test]
fn test_rumor_tracker_corrupted() {
    let mut tracker = RumorTracker::new();
    let m = murmur("m1", "a", "original", 5, 0, MurmurType::Rumor);
    tracker.record(&m, true);
    assert!(!tracker.is_corrupted("m1"));
    let m2 = murmur("m1", "b", "mutated", 5, 2, MurmurType::Rumor);
    tracker.record(&m2, false);
    assert!(tracker.is_corrupted("m1"));
}

#[test]
fn test_rumor_tracker_unknown_murmur() {
    let tracker = RumorTracker::new();
    assert!(!tracker.is_corrupted("nonexistent"));
}

#[test]
fn test_rumor_tracker_empty_ratio() {
    let tracker = RumorTracker::new();
    assert_eq!(tracker.recorded_count(), 0);
    assert_eq!(tracker.true_count(), 0);
}

#[test]
fn test_rumor_tracker_counts_mutations() {
    let mut tracker = RumorTracker::new();
    tracker.record(&murmur("m1", "a", "original", 5, 0, MurmurType::Rumor), true);
    tracker.record(&murmur("m1", "b", "mutated", 5, 1, MurmurType::Rumor), false);
    tracker.record(&murmur("m1", "c", "again", 5, 2, MurmurType::Rumor), false);
    tracker.record(&murmur("m1", "d", "original", 5, 3, MurmurType::Rumor), true);
    assert_eq!(tracker.recorded_count(), 1);
    let rec = &tracker.murmurs[0].1;
    assert_eq!(rec.mutations, 2);
    assert_eq!(rec.origin, "d");
    assert!(!tracker.is_corrupted("m1"));
    assert_eq!(tracker.original_content[0].1, "original");
}

// ---- text ----

#[test]
fn test_str_lt_and_sort() {
    assert!(str_lt("agent-1", "agent-10"));
    assert!(str_lt("agent-10", "agent-2"));
    assert!(!str_lt("b", "b"));
    assert!(str_lt("", "a"));
    let sorted = sort_strings(vec!["c".into(), "a".into(), "b".into(), "a".into()]);
    assert_eq!(sorted, vec!["a", "a", "b", "c"]);
}

#[test]
fn test_greet() {
    assert!(greet().contains("murmur"));
}
