use vstd::prelude::*;

use crate::baselines::ids_of;

verus! {

/// Identifier of a node in the overlay network.
#[derive(Debug, Hash)]
pub struct NodeId(pub String);

impl Clone for NodeId {
    fn clone(&self) -> (r: Self)
        ensures
            r == *self,
    {
        NodeId(self.0.clone())
    }
}

impl PartialEq for NodeId {
    fn eq(&self, other: &Self) -> (r: bool) {
        self.0 == other.0
    }
}

impl Eq for NodeId {}

impl vstd::std_specs::cmp::PartialEqSpecImpl for NodeId {
    open spec fn obeys_eq_spec() -> bool {
        true
    }

    open spec fn eq_spec(&self, other: &Self) -> bool {
        self@ == other@
    }
}

impl View for NodeId {
    type V = Seq<char>;

    open spec fn view(&self) -> Seq<char> {
        self.0@
    }
}

impl NodeId {
    /// Creates a node identifier from its textual name.
    pub fn new(id: &str) -> (r: NodeId)
        ensures
            r@ == id@,
    {
        NodeId(id.to_owned())
    }

}

/// Whether a node with identifier `id` is among `v`.
pub(crate) fn holds_id(v: &Vec<NodeId>, id: &NodeId) -> (r: bool)
    ensures
        r == ids_of(v@).contains(id@),
{
    let mut i: usize = 0;
    while i < v.len()
        invariant
            i <= v.len(),
            forall|j: int| 0 <= j < i ==> v@[j]@ != id@,
        decreases v.len() - i,
    {
        if v[i] == *id {
            assert(ids_of(v@)[i as int] == id@);
            return true;
        }
        i = i + 1;
    }
    proof {
        if ids_of(v@).contains(id@) {
            let j = choose|j: int| 0 <= j < ids_of(v@).len() && ids_of(v@)[j] == id@;
            assert(v@[j]@ == id@);
        }
    }
    false
}

/// A point of the Poincaré disk, held as the IEEE-754 bit patterns of its two
/// coordinates; the library carries such points and never computes with them.
#[derive(Debug, Clone, Copy, PartialEq, Eq, Structural)]
pub struct DiskPoint {
    pub x_bits: u64,
    pub y_bits: u64,
}

/// A routing coordinate: a point of the disk and the version it was set at.
#[derive(Debug, Clone, Copy, PartialEq, Eq, Structural)]
pub struct RoutingCoordinate {
    pub point: DiskPoint,
    pub updated_at: u64,
}

impl RoutingCoordinate {
    /// Creates a coordinate at `point`, with version `updated_at`.
    pub fn new(point: DiskPoint, updated_at: u64) -> (r: Self)
        ensures
            r.point == point,
            r.updated_at == updated_at,
    {
        RoutingCoordinate { point, updated_at }
    }
}

} // verus!
