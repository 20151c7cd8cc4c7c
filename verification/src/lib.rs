pub mod text;
pub mod keyed;
pub mod murmur;
pub mod chance;
pub mod agent;
pub mod topology;
pub mod network;
pub mod anti_entropy;
pub mod rumor;
pub mod epidemic;
pub mod lattice;
pub mod links;
pub mod spread;

use vstd::prelude::*;

verus! {

/// A one-line description of the library.
pub fn greet() -> (r: String)
    ensures
        r@ == "murmur protocol v2 — gossip-based information spreading"@,
{
    String::from_str("murmur protocol v2 — gossip-based information spreading")
}

} // verus!
