# lau-murmur-protocol-v2

A gossip ("murmur") protocol simulator, verified with Verus: agents pass murmurs to their
neighbors on a network topology, murmurs expire after a number of hops, agents never accept
a murmur twice, and an anti-entropy protocol brings agents to agreement.

## Layout

- `src/` — the verified library.
  - `murmur.rs` — murmurs (time to live, hop count) and deliveries.
  - `agent.rs` — a gossiping agent: receive, forward, originate.
  - `topology.rs`, `lattice.rs`, `links.rs` — complete, ring, star, random and small-world
    topologies (the small world also for given picks), neighbor lookup, sorted agent ids, breadth-first diameter, and the laws that
    say which agents each generated topology links.
  - `network.rs`, `spread.rs` — the network of agents: ticks, runs of ticks, injection,
    reach of each murmur, spread speed, and the laws of spreading (one hop, complete graph
    in one tick, relaying in two ticks, spread by hops up to ten, no new murmurs, expiry,
    reach equals knowledge, inboxes hold what was newly accepted).
  - `anti_entropy.rs` — pairwise and full synchronisation of held murmur ids.
  - `rumor.rs` — tracking versions of murmurs, their mutations and truth.
  - `epidemic.rs` — the integer counts of the SIR model.
  - `chance.rs` — the calls into `rand` (shuffle, choose), with their contracts.
  - `keyed.rs`, `text.rs` — keyed tables of strings, decimal names, lexicographic order.
- `tests/` — tests of the library.
- `app/` — ordinary Rust around the library: serde forms of its types, and the parts that
  work in floating point (coverage ratios, the SIR model's rates, drawing random graphs).
