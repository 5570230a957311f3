use vstd::arithmetic::power2::{lemma_pow2_adds, lemma_pow2_pos, lemma_pow2_strictly_increases, pow2};
use vstd::bits::{lemma_u64_pow2_no_overflow, lemma_u64_shl_is_mul};
use vstd::prelude::*;

use crate::ordering::{lemma_lead_count, lemma_sort_by_elements, lead_count, sort_by};
use crate::baselines::{ids_of, well_shaped, DHTRouter, DHTRoutingResult, RouteOutcome};
use crate::hashing::{be_u64_prefix, be_value, digest_of_id, id_digest};
use crate::coordinates::NodeId;

verus! {

/// One node of the ring as the contracts see it.
pub struct RingEntry {
    pub id: Seq<char>,
    pub hash: u64,
    pub fingers: Seq<Seq<char>>,
}

/// The whole ring: its nodes in storage order and the width `m` of the identifier space.
pub struct ChordView {
    pub nodes: Seq<RingEntry>,
    pub m: nat,
}

/// A node's position on the ring of `2^m` points: the first eight bytes of the
/// SHA-256 digest of its identifier, big-endian, reduced modulo `2^m`.
pub open spec fn chord_hash(id: Seq<char>, m: nat) -> u64 {
    (be_value(id_digest(id).take(8)) % pow2(m)) as u64
}

/// Every stored position is the hash of the node's identifier, and a ring with nodes
/// has an identifier space narrower than 64 bits.
pub open spec fn ring_wf(v: ChordView) -> bool {
    &&& (v.nodes.len() > 0 ==> v.m < 64)
    &&& forall|i: int| 0 <= i < v.nodes.len() ==> (#[trigger] v.nodes[i]).hash == chord_hash(v.nodes[i].id, v.m)
}

/// The index that the ring's identifier map holds for `id`: the last node with it.
pub open spec fn last_index_of(nodes: Seq<RingEntry>, id: Seq<char>) -> Option<int>
    decreases nodes.len(),
{
    if nodes.len() == 0 {
        None
    } else if nodes.last().id == id {
        Some(nodes.len() - 1)
    } else {
        last_index_of(nodes.drop_last(), id)
    }
}

/// Identifier and position of a node.
pub open spec fn key_of(e: RingEntry) -> (Seq<char>, u64) {
    (e.id, e.hash)
}

/// Positions ordered by value.
pub open spec fn hash_le() -> spec_fn((Seq<char>, u64), (Seq<char>, u64)) -> bool {
    |a: (Seq<char>, u64), b: (Seq<char>, u64)| a.1 <= b.1
}

/// Positions strictly below another.
pub open spec fn hash_lt() -> spec_fn((Seq<char>, u64), (Seq<char>, u64)) -> bool {
    |a: (Seq<char>, u64), b: (Seq<char>, u64)| a.1 < b.1
}

/// The node that succeeds point `t` on a sorted ring: the first at or after `t`,
/// wrapping round to the first node.
pub open spec fn successor_index(s: Seq<(Seq<char>, u64)>, t: u64) -> int {
    let p = lead_count(s, (Seq::empty(), t), hash_lt()) as int;
    if p < s.len() {
        p
    } else {
        0
    }
}

/// The point that finger `k` of a node at position `h` aims at: `(h + 2^k) mod 2^m`.
pub open spec fn finger_target(h: u64, k: nat, m: nat) -> u64 {
    ((h as nat + pow2(k)) % pow2(m)) as u64
}

/// The ring after its finger tables are built from the nodes `keys`: sorted by
/// position (stably), and finger `k` of each node is the successor of its target.
pub open spec fn built_ring(keys: Seq<(Seq<char>, u64)>, m: nat) -> Seq<RingEntry> {
    let s = sort_by(keys, hash_le());
    Seq::new(
        s.len(),
        |i: int|
            RingEntry {
                id: s[i].0,
                hash: s[i].1,
                fingers: Seq::new(m, |k: int| s[successor_index(s, finger_target(s[i].1, k as nat, m))].0),
            },
    )
}

/// Whether `value` lies strictly between `start` and `end` going round the ring.
pub open spec fn chord_between(start: u64, value: u64, end: u64) -> bool {
    if start < end {
        start < value && value < end
    } else {
        value > start || value < end
    }
}

/// The last finger (scanning the table from its end) that lies between the node and
/// the target.
pub open spec fn closest_preceding(v: ChordView, node_hash: u64, fingers: Seq<Seq<char>>, target: u64) -> Option<Seq<char>>
    decreases fingers.len(),
{
    if fingers.len() == 0 {
        None
    } else {
        let f = fingers.last();
        match last_index_of(v.nodes, f) {
            Some(j) => if chord_between(node_hash, v.nodes[j].hash, target) {
                Some(f)
            } else {
                closest_preceding(v, node_hash, fingers.drop_last(), target)
            },
            None => closest_preceding(v, node_hash, fingers.drop_last(), target),
        }
    }
}

/// The storage position after `ci`, wrapping round.
pub open spec fn next_pos(v: ChordView, ci: int) -> int {
    if ci + 1 < v.nodes.len() {
        ci + 1
    } else {
        0
    }
}

/// The hop that node `ci` takes toward a destination at position `dest_hash`: its
/// successor when the destination lies in `(current, successor]` or on the current
/// node's position, else the closest preceding finger, else the successor.
pub open spec fn chord_next_hop(v: ChordView, ci: int, dest_hash: u64) -> Seq<char> {
    let cur_hash = v.nodes[ci].hash;
    let succ_id = v.nodes[next_pos(v, ci)].id;
    let succ_hash = v.nodes[last_index_of(v.nodes, succ_id).unwrap()].hash;
    if dest_hash == cur_hash || chord_between(cur_hash, dest_hash, succ_hash) || dest_hash == succ_hash {
        succ_id
    } else {
        match closest_preceding(v, cur_hash, v.nodes[ci].fingers, dest_hash) {
            Some(f) => f,
            None => succ_id,
        }
    }
}

/// Routing from `cur`, with `path` walked and `hops` spent so far.
pub open spec fn chord_walk(
    v: ChordView,
    dest: Seq<char>,
    dest_hash: u64,
    cur: Seq<char>,
    path: Seq<Seq<char>>,
    hops: nat,
    max: nat,
) -> RouteOutcome
    decreases max - hops,
{
    if hops >= max {
        RouteOutcome { success: false, hops, path, failure_reason: Some("Max hops exceeded"@) }
    } else if cur == dest {
        RouteOutcome { success: true, hops, path, failure_reason: None }
    } else {
        match last_index_of(v.nodes, cur) {
            None => RouteOutcome {
                success: false,
                hops,
                path,
                failure_reason: Some("Current node not found"@),
            },
            Some(ci) => {
                let next = chord_next_hop(v, ci, dest_hash);
                chord_walk(v, dest, dest_hash, next, path.push(next), hops + 1, max)
            },
        }
    }
}

/// Routing from `source` to `destination` within `max` hops.
pub open spec fn chord_route(v: ChordView, source: Seq<char>, destination: Seq<char>, max: nat) -> RouteOutcome {
    chord_walk(v, destination, chord_hash(destination, v.m), source, seq![source], 0, max)
}

#[derive(Debug, Clone)]
struct ChordNode {
    id: NodeId,
    /// Hash value in the ring (0 to 2^m - 1)
    hash: u64,
    /// Finger table: finger[i] points to successor of (n + 2^i) mod 2^m
    finger_table: Vec<NodeId>,
}

impl ChordNode {
    spec fn entry(&self) -> RingEntry {
        RingEntry { id: self.id@, hash: self.hash, fingers: ids_of(self.finger_table@) }
    }
}

/// A node identifier with its ring position.
struct RingPoint {
    id: NodeId,
    hash: u64,
}

impl RingPoint {
    spec fn key(&self) -> (Seq<char>, u64) {
        (self.id@, self.hash)
    }
}

spec fn keys_of_points(s: Seq<RingPoint>) -> Seq<(Seq<char>, u64)> {
    s.map_values(|p: RingPoint| p.key())
}

/// Chord DHT implementation
///
/// Chord uses consistent hashing to map keys to nodes in a ring.
/// Each node maintains a finger table with O(log N) entries pointing to
/// nodes at exponentially increasing distances around the ring.
pub struct ChordDHT {
    /// All nodes in the ring, sorted by ID once the finger tables are built
    nodes: Vec<ChordNode>,
    /// Number of bits in the identifier space (m)
    m: usize,
}

impl View for ChordDHT {
    type V = ChordView;

    closed spec fn view(&self) -> ChordView {
        ChordView { nodes: self.nodes@.map_values(|n: ChordNode| n.entry()), m: self.m as nat }
    }
}

/// Positions lie on the ring of `2^m` points.
pub proof fn lemma_chord_hash_bound(id: Seq<char>, m: nat)
    requires
        m < 64,
    ensures
        (chord_hash(id, m) as nat) < pow2(m),
{
    lemma_pow2_pos(m);
    lemma_u64_pow2_no_overflow(m);
}

/// `2^e` as a `u64`, for `e < 64`.
fn pow2_u64(e: usize) -> (r: u64)
    requires
        e < 64,
    ensures
        r as nat == pow2(e as nat),
        r > 0,
{
    proof {
        lemma_u64_pow2_no_overflow(e as nat);
        lemma_u64_shl_is_mul(1u64, e as u64);
    }
    1u64 << (e as u64)
}

impl ChordDHT {
    /// The invariant of the ring.
    pub open spec fn wf(&self) -> bool {
        ring_wf(self@)
    }

    /// Create a new Chord DHT with m-bit identifier space
    pub fn new(m: usize) -> (r: Self)
        ensures
            r.wf(),
            r@.nodes == Seq::<RingEntry>::empty(),
            r@.m == m,
    {
        let r = ChordDHT { nodes: Vec::new(), m };
        assert(r@.nodes =~= Seq::<RingEntry>::empty());
        r
    }

    /// Hash a node ID to the ring space
    fn hash_node_id(&self, id: &NodeId) -> (h: u64)
        requires
            self.m < 64,
        ensures
            h == chord_hash(id@, self.m as nat),
    {
        let digest = digest_of_id(id);
        let value = be_u64_prefix(&digest);
        let size = pow2_u64(self.m);
        value % size
    }

    /// Add a node to the Chord ring
    pub fn add_node(&mut self, id: NodeId)
        requires
            old(self).wf(),
            old(self)@.m < 64,
        ensures
            final(self).wf(),
            final(self)@.m == old(self)@.m,
            final(self)@.nodes == old(self)@.nodes.push(
                RingEntry { id: id@, hash: chord_hash(id@, old(self)@.m), fingers: Seq::empty() },
            ),
    {
        let hash = self.hash_node_id(&id);
        let node = ChordNode { id, hash, finger_table: Vec::new() };
        assert(node.entry().fingers =~= Seq::<Seq<char>>::empty());
        self.nodes.push(node);
        assert(self@.nodes =~= old(self)@.nodes.push(node.entry()));
    }

    /// The positions of the stored nodes, sorted stably by hash.
    fn sorted_points(&self) -> (r: Vec<RingPoint>)
        ensures
            keys_of_points(r@) == sort_by(self@.nodes.map_values(|e: RingEntry| key_of(e)), hash_le()),
    {
        let n = self.nodes.len();
        let ghost keys = self@.nodes.map_values(|e: RingEntry| key_of(e));
        let mut sorted: Vec<RingPoint> = Vec::new();
        let mut i: usize = 0;
        assert(keys.take(0) =~= Seq::<(Seq<char>, u64)>::empty());
        assert(keys_of_points(sorted@) =~= Seq::<(Seq<char>, u64)>::empty());
        while i < n
            invariant
                n == self.nodes.len(),
                i <= n,
                keys == self@.nodes.map_values(|e: RingEntry| key_of(e)),
                keys_of_points(sorted@) == sort_by(keys.take(i as int), hash_le()),
            decreases n - i,
        {
            let x = RingPoint { id: self.nodes[i].id.clone(), hash: self.nodes[i].hash };
            assert(x.key() == keys[i as int]);
            let ghost before = keys_of_points(sorted@);
            let mut p: usize = 0;
            while p < sorted.len() && sorted[p].hash <= x.hash
                invariant
                    p <= sorted.len(),
                    before == keys_of_points(sorted@),
                    forall|j: int| 0 <= j < p ==> (#[trigger] before[j]).1 <= x.hash,
                decreases sorted.len() - p,
            {
                p = p + 1;
            }
            proof {
                assert forall|j: int| 0 <= j < p implies (hash_le())(#[trigger] before[j], x.key()) by {}
                lemma_lead_count(before, x.key(), hash_le(), p as int);
                assert(keys.take(i + 1).drop_last() =~= keys.take(i as int));
                assert(keys.take(i + 1).last() == x.key());
            }
            sorted.insert(p, x);
            assert(keys_of_points(sorted@) =~= before.take(p as int).push(x.key()) + before.skip(p as int));
            i = i + 1;
        }
        assert(keys.take(n as int) =~= keys);
        sorted
    }

    /// The successor of point `t` among sorted positions.
    fn find_successor(points: &Vec<RingPoint>, t: u64) -> (r: usize)
        requires
            points.len() > 0,
        ensures
            r as int == successor_index(keys_of_points(points@), t),
            r < points.len(),
    {
        let ghost ks = keys_of_points(points@);
        let mut p: usize = 0;
        while p < points.len() && points[p].hash < t
            invariant
                p <= points.len(),
                ks == keys_of_points(points@),
                forall|j: int| 0 <= j < p ==> (#[trigger] ks[j]).1 < t,
            decreases points.len() - p,
        {
            p = p + 1;
        }
        proof {
            let x = (Seq::<char>::empty(), t);
            assert forall|j: int| 0 <= j < p implies (hash_lt())(#[trigger] ks[j], x) by {}
            lemma_lead_count(ks, x, hash_lt(), p as int);
        }
        if p < points.len() {
            p
        } else {
            0
        }
    }

    /// Build finger tables for all nodes
    pub fn build_finger_tables(&mut self)
        requires
            old(self).wf(),
        ensures
            final(self).wf(),
            final(self)@.m == old(self)@.m,
            final(self)@.nodes == built_ring(old(self)@.nodes.map_values(|e: RingEntry| key_of(e)), old(self)@.m),
    {
        let ghost keys = self@.nodes.map_values(|e: RingEntry| key_of(e));
        let ghost m = self.m as nat;
        let sorted = self.sorted_points();
        let ghost s = keys_of_points(sorted@);
        proof {
            lemma_sort_by_elements(keys, hash_le());
        }
        let ghost target = built_ring(keys, m);
        let n = sorted.len();
        let mut new_nodes: Vec<ChordNode> = Vec::new();
        let mut i: usize = 0;
        while i < n
            invariant
                n == sorted.len(),
                s == keys_of_points(sorted@),
                s == sort_by(keys, hash_le()),
                n == keys.len(),
                keys == old(self)@.nodes.map_values(|e: RingEntry| key_of(e)),
                m == self.m,
                self@ == old(self)@,
                ring_wf(old(self)@),
                target == built_ring(keys, m),
                forall|a: int| 0 <= a < n ==> exists|b: int| 0 <= b < n && #[trigger] s[a] == keys[b],
                i <= n,
                new_nodes@.len() == i,
                forall|a: int| 0 <= a < i ==> (#[trigger] new_nodes@[a]).entry() == target[a],
            decreases n - i,
        {
            let h = sorted[i].hash;
            proof {
                let b = choose|b: int| 0 <= b < n && s[i as int] == keys[b];
                assert(old(self)@.nodes[b].hash == chord_hash(old(self)@.nodes[b].id, m));
                lemma_chord_hash_bound(old(self)@.nodes[b].id, m);
                lemma_u64_pow2_no_overflow(m);
                if m < 63 {
                    lemma_pow2_strictly_increases(m, 63);
                }
                vstd::arithmetic::power2::lemma2_to64();
                vstd::arithmetic::power2::lemma2_to64_rest();
            }
            let ring = pow2_u64(self.m);
            let mut fingers: Vec<NodeId> = Vec::new();
            let mut k: usize = 0;
            while k < self.m
                invariant
                    n == sorted.len(),
                    n > 0,
                    i < n,
                    s == keys_of_points(sorted@),
                    m == self.m,
                    m < 64,
                    h == s[i as int].1,
                    (h as nat) < pow2(m),
                    pow2(m) <= 0x8000_0000_0000_0000,
                    ring as nat == pow2(m),
                    k <= m,
                    ids_of(fingers@) == Seq::new(k as nat, |kk: int| s[successor_index(s, finger_target(s[i as int].1, kk as nat, m))].0),
                decreases self.m - k,
            {
                proof {
                    lemma_pow2_strictly_increases(k as nat, m);
                }
                let step = pow2_u64(k);
                let t = (h + step) % ring;
                assert(t == finger_target(h, k as nat, m));
                let succ = Self::find_successor(&sorted, t);
                let ghost before = ids_of(fingers@);
                fingers.push(sorted[succ].id.clone());
                assert(ids_of(fingers@) =~= before.push(s[succ as int].0));
                assert(ids_of(fingers@) =~= Seq::new((k + 1) as nat, |kk: int| s[successor_index(s, finger_target(s[i as int].1, kk as nat, m))].0));
                k = k + 1;
            }
            let node = ChordNode { id: sorted[i].id.clone(), hash: h, finger_table: fingers };
            assert(node.entry().fingers =~= target[i as int].fingers);
            new_nodes.push(node);
            i = i + 1;
        }
        self.nodes = new_nodes;
        assert(self@.nodes =~= target);
        assert forall|a: int| 0 <= a < self@.nodes.len() implies (#[trigger] self@.nodes[a]).hash == chord_hash(self@.nodes[a].id, self@.m) by {
            let b = choose|b: int| 0 <= b < n && s[a] == keys[b];
            assert(old(self)@.nodes[b].hash == chord_hash(old(self)@.nodes[b].id, m));
        }
    }

    /// The index of the last stored node with identifier `id`.
    fn index_of(&self, id: &NodeId) -> (r: Option<usize>)
        ensures
            r matches Some(i) ==> last_index_of(self@.nodes, id@) == Some(i as int),
            r is None ==> last_index_of(self@.nodes, id@) is None,
    {
        let mut i = self.nodes.len();
        assert(self@.nodes.take(i as int) =~= self@.nodes);
        while i > 0
            invariant
                i <= self.nodes.len(),
                last_index_of(self@.nodes, id@) == last_index_of(self@.nodes.take(i as int), id@),
            decreases i,
        {
            if self.nodes[i - 1].id == *id {
                return Some(i - 1);
            }
            assert(self@.nodes.take(i as int).drop_last() =~= self@.nodes.take(i - 1));
            i = i - 1;
        }
        assert(self@.nodes.take(0) =~= Seq::<RingEntry>::empty());
        None
    }

    /// Find the closest preceding node in the finger table
    fn closest_preceding_finger(&self, node_idx: usize, target_hash: u64) -> (r: Option<NodeId>)
        requires
            node_idx < self@.nodes.len(),
        ensures
            match r {
                Some(f) => closest_preceding(self@, self@.nodes[node_idx as int].hash, self@.nodes[node_idx as int].fingers, target_hash) == Some(f@),
                None => closest_preceding(self@, self@.nodes[node_idx as int].hash, self@.nodes[node_idx as int].fingers, target_hash) is None,
            },
    {
        let node = &self.nodes[node_idx];
        let ghost fs = self@.nodes[node_idx as int].fingers;
        let ghost h = node.hash;
        assert(fs == ids_of(node.finger_table@));
        let mut j = node.finger_table.len();
        assert(fs.take(j as int) =~= fs);
        assert(self@.nodes.len() == self.nodes.len());
        while j > 0
            invariant
                j <= node.finger_table.len(),
                node_idx < self@.nodes.len(),
                self@.nodes.len() == self.nodes.len(),
                node == &self.nodes[node_idx as int],
                fs == ids_of(node.finger_table@),
                h == node.hash,
                h == self@.nodes[node_idx as int].hash,
                closest_preceding(self@, h, fs, target_hash) == closest_preceding(self@, h, fs.take(j as int), target_hash),
            decreases j,
        {
            let finger_id = &node.finger_table[j - 1];
            assert(fs.take(j as int).last() == finger_id@);
            assert(fs.take(j as int).drop_last() =~= fs.take(j - 1));
            match self.index_of(finger_id) {
                Some(finger_idx) => {
                    proof {
                        lemma_last_index_of_found(self@.nodes, finger_id@);
                    }
                    let finger_hash = self.nodes[finger_idx].hash;
                    if Self::is_between(node.hash, finger_hash, target_hash) {
                        return Some(finger_id.clone());
                    }
                },
                None => {},
            }
            j = j - 1;
        }
        assert(fs.take(0) =~= Seq::<Seq<char>>::empty());
        None
    }

    /// Check if value is between start and end in circular space
    fn is_between(start: u64, value: u64, end: u64) -> (r: bool)
        ensures
            r == chord_between(start, value, end),
    {
        if start < end {
            start < value && value < end
        } else {
            value > start || value < end
        }
    }
}

/// Every stored identifier is found by the identifier lookup, at its own or a later slot.
pub proof fn lemma_last_index_of_member(nodes: Seq<RingEntry>, j: int)
    requires
        0 <= j < nodes.len(),
    ensures
        last_index_of(nodes, nodes[j].id) matches Some(x) && j <= x < nodes.len()
            && nodes[x].id == nodes[j].id,
    decreases nodes.len(),
{
    if nodes.last().id != nodes[j].id {
        assert(j < nodes.len() - 1);
        assert(nodes.drop_last()[j] == nodes[j]);
        lemma_last_index_of_member(nodes.drop_last(), j);
    }
}

/// What the identifier lookup finds is in range and carries the identifier.
pub proof fn lemma_last_index_of_found(nodes: Seq<RingEntry>, id: Seq<char>)
    ensures
        last_index_of(nodes, id) matches Some(x) ==> 0 <= x < nodes.len() && nodes[x].id == id,
    decreases nodes.len(),
{
    if nodes.len() > 0 && nodes.last().id != id {
        lemma_last_index_of_found(nodes.drop_last(), id);
    }
}

} // verus!

verus! {

/// The closest preceding finger, when there is one, is an identifier that the ring holds.
proof fn lemma_closest_preceding_member(v: ChordView, h: u64, fingers: Seq<Seq<char>>, target: u64)
    ensures
        closest_preceding(v, h, fingers, target) matches Some(f) ==> last_index_of(v.nodes, f) is Some,
    decreases fingers.len(),
{
    if fingers.len() > 0 {
        lemma_closest_preceding_member(v, h, fingers.drop_last(), target);
    }
}

/// Each hop lands on a node of the ring.
proof fn lemma_next_hop_member(v: ChordView, ci: int, dest_hash: u64)
    requires
        0 <= ci < v.nodes.len(),
    ensures
        last_index_of(v.nodes, chord_next_hop(v, ci, dest_hash)) is Some,
{
    lemma_last_index_of_member(v.nodes, next_pos(v, ci));
    lemma_closest_preceding_member(v, v.nodes[ci].hash, v.nodes[ci].fingers, dest_hash);
}

/// A walk keeps the path it was given as a prefix, ends within the budget with one
/// path entry per hop plus the start, succeeds exactly when no reason is given, and a
/// success ends at the destination; every node it moves to is on the ring.
proof fn lemma_chord_walk_shape(
    v: ChordView,
    dest: Seq<char>,
    dest_hash: u64,
    cur: Seq<char>,
    path: Seq<Seq<char>>,
    hops: nat,
    max: nat,
)
    requires
        path.len() == hops + 1,
        path.last() == cur,
        hops <= max,
    ensures
        ({
            let r = chord_walk(v, dest, dest_hash, cur, path, hops, max);
            &&& r.path.len() == r.hops + 1
            &&& hops <= r.hops <= max
            &&& r.path.take(path.len() as int) == path
            &&& (r.success <==> r.failure_reason is None)
            &&& (r.success ==> r.path.last() == dest)
            &&& forall|i: int| path.len() <= i < r.path.len() ==> last_index_of(v.nodes, #[trigger] r.path[i]) is Some
        }),
    decreases max - hops,
{
    if hops < max && cur != dest {
        if let Some(ci) = last_index_of(v.nodes, cur) {
            lemma_last_index_of_found(v.nodes, cur);
            let next = chord_next_hop(v, ci, dest_hash);
            lemma_next_hop_member(v, ci, dest_hash);
            lemma_chord_walk_shape(v, dest, dest_hash, next, path.push(next), hops + 1, max);
            let r = chord_walk(v, dest, dest_hash, cur, path, hops, max);
            assert(r == chord_walk(v, dest, dest_hash, next, path.push(next), hops + 1, max));
            assert(r.path.take(path.len() as int + 1) == path.push(next));
            assert forall|i: int| 0 <= i < path.len() implies r.path[i] == path[i] by {
                assert(r.path[i] == r.path.take(path.len() as int + 1)[i]);
                assert(path.push(next)[i] == path[i]);
            }
            assert(r.path.take(path.len() as int) =~= path);
            assert forall|i: int| path.len() <= i < r.path.len() implies last_index_of(v.nodes, #[trigger] r.path[i]) is Some by {
                if i == path.len() {
                    assert(r.path[i] == r.path.take(path.len() as int + 1)[i]);
                }
            }
        }
    } else {
        assert(chord_walk(v, dest, dest_hash, cur, path, hops, max).path.take(path.len() as int) =~= path);
    }
}

/// Chord routing is well shaped: the path starts at the source with one entry per hop
/// beyond it, the hops stay within the budget, a reason is given exactly on failure,
/// a success ends at the destination, and every node after the source is on the ring.
pub proof fn lemma_chord_route_well_shaped(dht: &ChordDHT, source: Seq<char>, destination: Seq<char>, max_hops: nat)
    ensures
        well_shaped(dht.route_spec(source, destination, max_hops), source, destination, max_hops),
        forall|i: int|
            1 <= i < dht.route_spec(source, destination, max_hops).path.len() ==> last_index_of(
                dht@.nodes,
                #[trigger] dht.route_spec(source, destination, max_hops).path[i],
            ) is Some,
{
    let v = dht@;
    lemma_chord_walk_shape(v, destination, chord_hash(destination, v.m), source, seq![source], 0, max_hops);
    let r = chord_route(v, source, destination, max_hops);
    assert(r.path[0] == r.path.take(1)[0]);
}

impl DHTRouter for ChordDHT {
    open spec fn route_spec(&self, source: Seq<char>, destination: Seq<char>, max_hops: nat) -> RouteOutcome {
        chord_route(self@, source, destination, max_hops)
    }

    open spec fn route_admissible(&self, source: Seq<char>, destination: Seq<char>, max_hops: nat) -> bool {
        self.wf() && self@.m < 64
    }

    open spec fn size_spec(&self) -> nat {
        self@.nodes.len()
    }

    fn route(&self, source: &NodeId, destination: &NodeId, max_hops: u32) -> (r: DHTRoutingResult) {
        let dest_hash = self.hash_node_id(destination);
        let ghost v = self@;
        let mut current_id = source.clone();
        let mut path: Vec<NodeId> = Vec::new();
        path.push(source.clone());
        let mut hops: u32 = 0;
        assert(ids_of(path@) =~= seq![source@]);
        while hops < max_hops
            invariant
                v == self@,
                self.wf(),
                self@.m < 64,
                dest_hash == chord_hash(destination@, v.m),
                chord_walk(v, destination@, dest_hash, current_id@, ids_of(path@), hops as nat, max_hops as nat)
                    == chord_route(v, source@, destination@, max_hops as nat),
            decreases max_hops - hops,
        {
            // Check if we've reached the destination
            if current_id == *destination {
                return DHTRoutingResult { success: true, hops, path, failure_reason: None };
            }
            // Get current node index
            let current_idx = match self.index_of(&current_id) {
                Some(idx) => idx,
                None => {
                    return DHTRoutingResult {
                        success: false,
                        hops,
                        path,
                        failure_reason: Some("Current node not found".to_owned()),
                    };
                },
            };
            proof {
                lemma_last_index_of_found(v.nodes, current_id@);
                assert(self@.nodes.len() == self.nodes.len());
            }
            let current_hash = self.nodes[current_idx].hash;
            // Check if destination is between current and successor
            let successor_id = if current_idx + 1 < self.nodes.len() {
                self.nodes[current_idx + 1].id.clone()
            } else {
                self.nodes[0].id.clone()
            };
            proof {
                lemma_last_index_of_member(v.nodes, next_pos(v, current_idx as int));
                lemma_last_index_of_found(v.nodes, successor_id@);
            }
            let successor_idx = self.index_of(&successor_id).unwrap();
            let successor_hash = self.nodes[successor_idx].hash;
            let next_id = if dest_hash == current_hash || Self::is_between(current_hash, dest_hash, successor_hash)
                || dest_hash == successor_hash {
                // Destination is our successor
                successor_id
            } else {
                // Find closest preceding finger, or else go to the successor
                match self.closest_preceding_finger(current_idx, dest_hash) {
                    Some(next) => next,
                    None => successor_id,
                }
            };
            assert(next_id@ == chord_next_hop(v, current_idx as int, dest_hash));
            current_id = next_id;
            let ghost before = ids_of(path@);
            path.push(current_id.clone());
            assert(ids_of(path@) =~= before.push(current_id@));
            hops = hops + 1;
        }
        DHTRoutingResult {
            success: false,
            hops,
            path,
            failure_reason: Some("Max hops exceeded".to_owned()),
        }
    }

    fn protocol_name(&self) -> (r: &str)
        ensures
            r@ == "Chord"@,
    {
        "Chord"
    }

    fn node_count(&self) -> (r: usize) {
        self.nodes.len()
    }
}

} // verus!

verus! {

/// Positions in ascending order.
pub open spec fn ascending(s: Seq<(Seq<char>, u64)>) -> bool {
    forall|i: int, j: int| 0 <= i <= j < s.len() ==> s[i].1 <= s[j].1
}

/// Sorting by position yields ascending positions.
pub proof fn lemma_sort_ascending(s: Seq<(Seq<char>, u64)>)
    ensures
        ascending(sort_by(s, hash_le())),
    decreases s.len(),
{
    if s.len() > 0 {
        let t = sort_by(s.drop_last(), hash_le());
        let x = s.last();
        lemma_sort_ascending(s.drop_last());
        crate::ordering::lemma_lead_count_facts(t, x, hash_le());
        let p = lead_count(t, x, hash_le()) as int;
        let r = sort_by(s, hash_le());
        assert(r == t.take(p).push(x) + t.skip(p));
        assert forall|i: int, j: int| 0 <= i <= j < r.len() implies r[i].1 <= r[j].1 by {
            if p < t.len() {
                assert(!(hash_le())(t[p], x));
            }
            if i < p {
                assert(r[i] == t[i]);
                assert((hash_le())(t[i], x));
            } else if i > p {
                assert(r[i] == t[i - 1]);
            }
            if j < p {
                assert(r[j] == t[j]);
            } else if j > p {
                assert(r[j] == t[j - 1]);
                assert(t[p].1 <= t[j - 1].1);
            }
        }
    }
}

/// Sorting a ring already ordered by position leaves it as it is.
proof fn lemma_sort_sorted(s: Seq<(Seq<char>, u64)>)
    requires
        ascending(s),
    ensures
        sort_by(s, hash_le()) == s,
    decreases s.len(),
{
    if s.len() > 0 {
        let t = s.drop_last();
        assert(ascending(t));
        lemma_sort_sorted(t);
        let x = s.last();
        lemma_lead_count(t, x, hash_le(), t.len() as int);
        assert(t.take(t.len() as int).push(x) + t.skip(t.len() as int) =~= s);
    }
}

/// Building the finger tables again changes nothing: the ring built from the keys of a
/// built ring is that ring.
pub proof fn lemma_rebuild_changes_nothing(keys: Seq<(Seq<char>, u64)>, m: nat)
    ensures
        built_ring(built_ring(keys, m).map_values(|e: RingEntry| key_of(e)), m) == built_ring(keys, m),
{
    let s = sort_by(keys, hash_le());
    lemma_sort_ascending(keys);
    assert(built_ring(keys, m).map_values(|e: RingEntry| key_of(e)) =~= s);
    lemma_sort_sorted(s);
    assert(built_ring(s, m) =~= built_ring(keys, m));
}

/// Once the finger tables are built, the ring is ordered by position.
pub proof fn lemma_built_ring_ascending(keys: Seq<(Seq<char>, u64)>, m: nat)
    ensures
        forall|i: int, j: int|
            0 <= i <= j < built_ring(keys, m).len() ==> #[trigger] built_ring(keys, m)[i].hash
                <= #[trigger] built_ring(keys, m)[j].hash,
{
    lemma_sort_ascending(keys);
}

} // verus!
