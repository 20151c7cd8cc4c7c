use vstd::prelude::*;
use crate::keyed::views;

verus! {

/// The kind of a murmur.
#[derive(Debug, Clone, Copy, PartialEq, Eq, Structural)]
pub enum MurmurType {
    Fact,
    Rumor,
    Warning,
    Query,
    Instruction,
    Heartbeat,
}

/// A single piece of gossip, with a time to live and a hop count.
#[derive(Debug, PartialEq)]
pub struct Murmur {
    pub id: String,
    pub origin: String,
    pub content: String,
    pub ttl: u32,
    pub hops: u32,
    pub created_at: u64,
    pub tags: Vec<String>,
    pub murmur_type: MurmurType,
}

/// What a murmur holds, as mathematical values.
pub struct MurmurView {
    pub id: Seq<char>,
    pub origin: Seq<char>,
    pub content: Seq<char>,
    pub ttl: u32,
    pub hops: u32,
    pub created_at: u64,
    pub tags: Seq<Seq<char>>,
    pub murmur_type: MurmurType,
}

impl View for Murmur {
    type V = MurmurView;

    open spec fn view(&self) -> MurmurView {
        MurmurView {
            id: self.id@,
            origin: self.origin@,
            content: self.content@,
            ttl: self.ttl,
            hops: self.hops,
            created_at: self.created_at,
            tags: views(self.tags@),
            murmur_type: self.murmur_type,
        }
    }
}

impl MurmurView {
    /// The murmur after one hop: its time to live drops by one, never below zero,
    /// and its hop count rises by one.
    pub open spec fn decayed(self) -> MurmurView {
        MurmurView {
            ttl: if self.ttl > 0 { (self.ttl - 1) as u32 } else { 0 },
            hops: (self.hops + 1) as u32,
            ..self
        }
    }
}

impl Clone for Murmur {
    fn clone(&self) -> (r: Self)
        ensures
            r@ == self@,
    {
        let tags = self.tags.clone();
        proof {
            assert(views(tags@) =~= views(self.tags@));
        }
        Murmur {
            id: self.id.clone(),
            origin: self.origin.clone(),
            content: self.content.clone(),
            ttl: self.ttl,
            hops: self.hops,
            created_at: self.created_at,
            tags,
            murmur_type: self.murmur_type,
        }
    }
}

impl Murmur {
    /// A murmur is fresh while its time to live is positive.
    pub fn is_fresh(&self) -> (r: bool)
        ensures
            r == (self.ttl > 0),
    {
        self.ttl > 0
    }

    /// A murmur has expired once its time to live is zero.
    pub fn is_expired(&self) -> (r: bool)
        ensures
            r == (self.ttl == 0),
    {
        self.ttl == 0
    }

    /// Takes one hop: the time to live drops by one (staying at zero) and the hop count rises.
    pub fn decay(&mut self)
        requires
            old(self).hops < u32::MAX,
        ensures
            final(self)@ == old(self)@.decayed(),
    {
        if self.ttl > 0 {
            self.ttl -= 1;
        }
        self.hops += 1;
    }
}

/// A murmur handed from one agent to another.
#[derive(Debug, PartialEq)]
pub struct MurmurDelivery {
    pub from: String,
    pub to: String,
    pub murmur: Murmur,
}

/// What a delivery holds, as mathematical values.
pub struct DeliveryView {
    pub from: Seq<char>,
    pub to: Seq<char>,
    pub murmur: MurmurView,
}

impl View for MurmurDelivery {
    type V = DeliveryView;

    open spec fn view(&self) -> DeliveryView {
        DeliveryView { from: self.from@, to: self.to@, murmur: self.murmur@ }
    }
}

impl Clone for MurmurDelivery {
    fn clone(&self) -> (r: Self)
        ensures
            r@ == self@,
    {
        MurmurDelivery { from: self.from.clone(), to: self.to.clone(), murmur: self.murmur.clone() }
    }
}

} // verus!
