use vstd::prelude::*;

use crate::coordinates::NodeId;

pub mod chord;
pub mod chord_reach;
pub mod kademlia;



pub use chord::ChordDHT;
pub use kademlia::KademliaDHT;


verus! {

/// What a routing attempt reports, over plain values.
pub struct RouteOutcome {
    pub success: bool,
    pub hops: nat,
    pub path: Seq<Seq<char>>,
    pub failure_reason: Option<Seq<char>>,
}

/// The identifiers of a sequence of nodes.
pub open spec fn ids_of(v: Seq<NodeId>) -> Seq<Seq<char>> {
    v.map_values(|n: NodeId| n@)
}

/// The text of an optional message.
pub open spec fn text_of(s: Option<String>) -> Option<Seq<char>> {
    match s {
        Some(t) => Some(t@),
        None => None,
    }
}

/// Result of DHT routing
#[derive(Debug, Clone)]
pub struct DHTRoutingResult {
    pub success: bool,
    pub hops: u32,
    pub path: Vec<NodeId>,
    pub failure_reason: Option<String>,
}

impl View for DHTRoutingResult {
    type V = RouteOutcome;

    open spec fn view(&self) -> RouteOutcome {
        RouteOutcome {
            success: self.success,
            hops: self.hops as nat,
            path: ids_of(self.path@),
            failure_reason: text_of(self.failure_reason),
        }
    }
}

/// Trait for DHT routing protocols
pub trait DHTRouter {
    /// The outcome of routing from `source` to `destination` within `max_hops` hops.
    spec fn route_spec(&self, source: Seq<char>, destination: Seq<char>, max_hops: nat) -> RouteOutcome;

    /// The inputs on which routing is defined (the others would panic).
    spec fn route_admissible(&self, source: Seq<char>, destination: Seq<char>, max_hops: nat) -> bool;

    /// The number of nodes in the network.
    spec fn size_spec(&self) -> nat;

    /// Route a packet from source to destination
    fn route(&self, source: &NodeId, destination: &NodeId, max_hops: u32) -> (r: DHTRoutingResult)
        requires
            self.route_admissible(source@, destination@, max_hops as nat),
        ensures
            r@ == self.route_spec(source@, destination@, max_hops as nat),
    ;

    /// Get the name of the protocol
    fn protocol_name(&self) -> &str;

    /// Get number of nodes in the network
    fn node_count(&self) -> (r: usize)
        ensures
            r as nat == self.size_spec(),
    ;
}

/// The shape of every routing outcome: the path starts at the source and has one
/// entry more than the number of hops, the hop count stays within the budget, and a
/// failure reason is given exactly when the route failed, a success ending at the
/// destination.
pub open spec fn well_shaped(r: RouteOutcome, source: Seq<char>, destination: Seq<char>, max_hops: nat) -> bool {
    &&& r.path.len() == r.hops + 1
    &&& r.path[0] == source
    &&& r.hops <= max_hops
    &&& r.success <==> r.failure_reason is None
    &&& r.success ==> r.path.last() == destination
}

} // verus!
