use vstd::prelude::*;
use vstd::arithmetic::power2::{lemma2_to64, lemma_pow2_adds, pow2};
use vstd::std_specs::bits::{axiom_u8_leading_zeros, u8_leading_zeros};

use crate::ordering::{bytes_lt, lemma_lead_count, lemma_lex_lt_irreflexive, lemma_lex_lt_transitive, lex_lt, sort_by};
use crate::baselines::{ids_of, well_shaped, DHTRouter, DHTRoutingResult, RouteOutcome};
use crate::hashing::{be_value, byte_power, digest_of_id, id_digest, lemma_be_value_bound};
use crate::coordinates::NodeId;

verus! {

/// One node of the network as the contracts see it: its identifier, its hash and its
/// k-buckets.
pub struct KadEntry {
    pub id: Seq<char>,
    pub hash: Seq<u8>,
    pub buckets: Seq<Seq<Seq<char>>>,
}

/// The whole network: its nodes, the identifier width in bits and the bucket size `k`.
pub struct KadView {
    pub nodes: Seq<KadEntry>,
    pub id_bits: nat,
    pub k: nat,
}

/// A node's hash: the first `id_bits / 8` bytes of the SHA-256 digest of its identifier.
pub open spec fn kad_hash(id: Seq<char>, id_bits: nat) -> Seq<u8> {
    id_digest(id).take((id_bits / 8) as int)
}

/// `n` empty k-buckets.
pub open spec fn empty_buckets(n: nat) -> Seq<Seq<Seq<char>>> {
    Seq::new(n, |i: int| Seq::<Seq<char>>::empty())
}

/// Where the node with identifier `id` is stored.
pub open spec fn find_id(nodes: Seq<KadEntry>, id: Seq<char>) -> Option<int>
    decreases nodes.len(),
{
    if nodes.len() == 0 {
        None
    } else if nodes.last().id == id {
        Some(nodes.len() - 1)
    } else {
        find_id(nodes.drop_last(), id)
    }
}

/// Identifiers are unique, each hash is that of the identifier, each node has one
/// bucket per identifier bit, and a network with nodes has hashes of at most 32 bytes.
pub open spec fn kad_wf(v: KadView) -> bool {
    &&& (v.nodes.len() > 0 ==> v.id_bits / 8 <= 32)
    &&& forall|i: int|
        0 <= i < v.nodes.len() ==> (#[trigger] v.nodes[i]).hash == kad_hash(v.nodes[i].id, v.id_bits)
            && v.nodes[i].hash.len() == v.id_bits / 8 && v.nodes[i].buckets.len() == v.id_bits
    &&& forall|i: int, j: int|
        0 <= i < v.nodes.len() && 0 <= j < v.nodes.len() && i != j ==> (#[trigger] v.nodes[i]).id
            != (#[trigger] v.nodes[j]).id
}

/// Byte-wise XOR of two hashes, over the shorter length.
pub open spec fn xor_bytes(a: Seq<u8>, b: Seq<u8>) -> Seq<u8> {
    let n = if a.len() <= b.len() {
        a.len()
    } else {
        b.len()
    };
    Seq::new(n, |i: int| a[i] ^ b[i])
}

/// The position of the first non-zero byte.
pub open spec fn first_nonzero(d: Seq<u8>) -> Option<int>
    decreases d.len(),
{
    if d.len() == 0 {
        None
    } else if d[0] != 0 {
        Some(0)
    } else {
        match first_nonzero(d.drop_first()) {
            Some(i) => Some(i + 1),
            None => None,
        }
    }
}

/// The bucket of a distance, read as a big-endian number: the position of its most
/// significant set bit, so that bucket `b` holds the distances from `2^b` up to
/// `2^(b+1)`; `id_bits` for a zero distance. The bytes after the first non-zero one
/// count eight positions each.
pub open spec fn bucket_index(d: Seq<u8>, id_bits: nat) -> nat {
    match first_nonzero(d) {
        Some(i) => ((d.len() - 1 - i) * 8 + (7 - u8_leading_zeros(d[i]))) as nat,
        None => id_bits,
    }
}

/// The buckets of node `i` after offering it, in storage order, the first `upto`
/// other nodes: each goes to the bucket of its distance while that bucket holds
/// fewer than `k` entries.
pub open spec fn fill_buckets(v: KadView, i: int, upto: nat) -> Seq<Seq<Seq<char>>>
    decreases upto,
{
    if upto == 0 {
        v.nodes[i].buckets
    } else {
        let prev = fill_buckets(v, i, (upto - 1) as nat);
        let j = upto - 1;
        if v.nodes[j].id == v.nodes[i].id {
            prev
        } else {
            let b = bucket_index(xor_bytes(v.nodes[i].hash, v.nodes[j].hash), v.id_bits);
            if b < v.id_bits && prev[b as int].len() < v.k {
                prev.update(b as int, prev[b as int].push(v.nodes[j].id))
            } else {
                prev
            }
        }
    }
}

/// The network after its routing tables are built.
pub open spec fn built_tables(v: KadView) -> Seq<KadEntry> {
    Seq::new(
        v.nodes.len(),
        |i: int| KadEntry { id: v.nodes[i].id, hash: v.nodes[i].hash, buckets: fill_buckets(v, i, v.nodes.len()) },
    )
}

/// Candidates ordered by distance.
pub open spec fn dist_le() -> spec_fn((Seq<char>, Seq<u8>), (Seq<char>, Seq<u8>)) -> bool {
    |a: (Seq<char>, Seq<u8>), b: (Seq<char>, Seq<u8>)| !lex_lt(b.1, a.1)
}

/// The known members of one bucket with their distances to `target`.
pub open spec fn bucket_candidates(v: KadView, bucket: Seq<Seq<char>>, target: Seq<u8>) -> Seq<(Seq<char>, Seq<u8>)>
    decreases bucket.len(),
{
    if bucket.len() == 0 {
        Seq::empty()
    } else {
        let rest = bucket_candidates(v, bucket.drop_last(), target);
        let c = bucket.last();
        match find_id(v.nodes, c) {
            Some(x) => rest.push((c, xor_bytes(v.nodes[x].hash, target))),
            None => rest,
        }
    }
}

/// The known members of all buckets, bucket by bucket, with their distances.
pub open spec fn table_candidates(v: KadView, buckets: Seq<Seq<Seq<char>>>, target: Seq<u8>) -> Seq<(Seq<char>, Seq<u8>)>
    decreases buckets.len(),
{
    if buckets.len() == 0 {
        Seq::empty()
    } else {
        table_candidates(v, buckets.drop_last(), target) + bucket_candidates(v, buckets.last(), target)
    }
}

/// The `k` contacts of node `cur` closest to `target`, nearest first (stably).
pub open spec fn closest_ids(v: KadView, cur: Seq<char>, target: Seq<u8>, k: nat) -> Seq<Seq<char>> {
    match find_id(v.nodes, cur) {
        None => Seq::empty(),
        Some(ci) => {
            let s = sort_by(table_candidates(v, v.nodes[ci].buckets, target), dist_le());
            let n = if k <= s.len() {
                k
            } else {
                s.len()
            };
            s.take(n as int).map_values(|c: (Seq<char>, Seq<u8>)| c.0)
        },
    }
}

/// The stored hash of a node.
pub open spec fn hash_of(v: KadView, id: Seq<char>) -> Seq<u8> {
    v.nodes[find_id(v.nodes, id).unwrap()].hash
}

/// Scanning `cands` in order, the best distance so far and the node that has it:
/// a candidate not yet on the path whose distance is strictly below the best replaces it.
pub open spec fn pick_closer(v: KadView, cands: Seq<Seq<char>>, path: Seq<Seq<char>>, dest_hash: Seq<u8>, best: Seq<u8>) -> (Seq<u8>, Option<Seq<char>>)
    decreases cands.len(),
{
    if cands.len() == 0 {
        (best, None)
    } else {
        let prev = pick_closer(v, cands.drop_last(), path, dest_hash, best);
        let c = cands.last();
        if path.contains(c) {
            prev
        } else {
            match find_id(v.nodes, c) {
                Some(x) => {
                    let d = xor_bytes(v.nodes[x].hash, dest_hash);
                    if lex_lt(d, prev.0) {
                        (d, Some(c))
                    } else {
                        prev
                    }
                },
                None => prev,
            }
        }
    }
}

/// Routing from `cur`, with `path` walked and `hops` spent so far.
pub open spec fn kad_walk(
    v: KadView,
    dest: Seq<char>,
    dest_hash: Seq<u8>,
    cur: Seq<char>,
    path: Seq<Seq<char>>,
    hops: nat,
    max: nat,
) -> RouteOutcome
    decreases max - hops,
{
    if hops >= max {
        RouteOutcome { success: false, hops, path, failure_reason: Some("Max hops exceeded"@) }
    } else if cur == dest {
        RouteOutcome { success: true, hops, path, failure_reason: None }
    } else {
        let closest = closest_ids(v, cur, dest_hash, v.k);
        let best = xor_bytes(hash_of(v, cur), dest_hash);
        match pick_closer(v, closest, path, dest_hash, best).1 {
            None => RouteOutcome {
                success: false,
                hops,
                path,
                failure_reason: Some("No closer node found"@),
            },
            Some(next) => kad_walk(v, dest, dest_hash, next, path.push(next), hops + 1, max),
        }
    }
}

/// Routing from `source` to `destination` within `max` hops.
pub open spec fn kad_route(v: KadView, source: Seq<char>, destination: Seq<char>, max: nat) -> RouteOutcome {
    kad_walk(v, destination, kad_hash(destination, v.id_bits), source, seq![source], 0, max)
}

/// The identifiers held by each bucket.
pub open spec fn bucket_views(b: Seq<Vec<NodeId>>) -> Seq<Seq<Seq<char>>> {
    b.map_values(|x: Vec<NodeId>| ids_of(x@))
}

#[derive(Debug)]
struct KadSlot {
    id: NodeId,
    /// Hash value for XOR distance calculation
    hash: Vec<u8>,
    /// K-buckets: buckets[i] contains nodes at distance 2^i to 2^(i+1)
    buckets: Vec<Vec<NodeId>>,
}

impl KadSlot {
    spec fn entry(&self) -> KadEntry {
        KadEntry { id: self.id@, hash: self.hash@, buckets: bucket_views(self.buckets@) }
    }
}

/// A contact with its distance to a target.
struct Candidate {
    id: NodeId,
    distance: Vec<u8>,
}

impl Candidate {
    spec fn key(&self) -> (Seq<char>, Seq<u8>) {
        (self.id@, self.distance@)
    }
}

spec fn keys_of_candidates(s: Seq<Candidate>) -> Seq<(Seq<char>, Seq<u8>)> {
    s.map_values(|c: Candidate| c.key())
}

/// Kademlia DHT implementation
///
/// Kademlia uses XOR metric for distance and maintains k-buckets
/// for routing. Each node maintains O(log N) contacts.
pub struct KademliaDHT {
    /// All nodes in the network, one slot per identifier
    nodes: Vec<KadSlot>,
    /// Number of bits in node ID
    id_bits: usize,
    /// Bucket size (k parameter)
    k: usize,
}

impl View for KademliaDHT {
    type V = KadView;

    closed spec fn view(&self) -> KadView {
        KadView {
            nodes: self.nodes@.map_values(|s: KadSlot| s.entry()),
            id_bits: self.id_bits as nat,
            k: self.k as nat,
        }
    }
}

impl KademliaDHT {
    /// The invariant of the network.
    pub open spec fn wf(&self) -> bool {
        kad_wf(self@)
    }

    /// Create a new Kademlia DHT
    pub fn new(id_bits: usize, k: usize) -> (r: Self)
        ensures
            r.wf(),
            r@.nodes == Seq::<KadEntry>::empty(),
            r@.id_bits == id_bits,
            r@.k == k,
    {
        let r = KademliaDHT { nodes: Vec::new(), id_bits, k };
        assert(r@.nodes =~= Seq::<KadEntry>::empty());
        r
    }

    /// Hash a node ID
    fn hash_node_id(&self, id: &NodeId) -> (r: Vec<u8>)
        requires
            self.id_bits / 8 <= 32,
        ensures
            r@ == kad_hash(id@, self.id_bits as nat),
            r@.len() == self.id_bits / 8,
    {
        let digest = digest_of_id(id);
        let n = self.id_bits / 8;
        let mut out: Vec<u8> = Vec::new();
        let mut i: usize = 0;
        while i < n
            invariant
                n <= 32,
                digest@.len() == 32,
                i <= n,
                out@ == digest@.take(i as int),
            decreases n - i,
        {
            out.push(digest[i]);
            i = i + 1;
            assert(out@ =~= digest@.take(i as int));
        }
        out
    }

    /// Where the node with identifier `id` is stored.
    fn slot_of(&self, id: &NodeId) -> (r: Option<usize>)
        ensures
            r matches Some(i) ==> find_id(self@.nodes, id@) == Some(i as int) && i < self@.nodes.len(),
            r is None ==> find_id(self@.nodes, id@) is None,
    {
        let mut i = self.nodes.len();
        assert(self@.nodes.take(i as int) =~= self@.nodes);
        while i > 0
            invariant
                i <= self.nodes.len(),
                self@.nodes.len() == self.nodes.len(),
                find_id(self@.nodes, id@) == find_id(self@.nodes.take(i as int), id@),
            decreases i,
        {
            if self.nodes[i - 1].id == *id {
                return Some(i - 1);
            }
            assert(self@.nodes.take(i as int).drop_last() =~= self@.nodes.take(i - 1));
            i = i - 1;
        }
        assert(self@.nodes.take(0) =~= Seq::<KadEntry>::empty());
        None
    }

    /// Add a node to the network
    pub fn add_node(&mut self, id: NodeId)
        requires
            old(self).wf(),
            old(self)@.id_bits / 8 <= 32,
        ensures
            final(self).wf(),
            final(self)@.id_bits == old(self)@.id_bits,
            final(self)@.k == old(self)@.k,
            final(self)@.nodes == ({
                let fresh = KadEntry {
                    id: id@,
                    hash: kad_hash(id@, old(self)@.id_bits),
                    buckets: empty_buckets(old(self)@.id_bits),
                };
                match find_id(old(self)@.nodes, id@) {
                    Some(i) => old(self)@.nodes.update(i, fresh),
                    None => old(self)@.nodes.push(fresh),
                }
            }),
    {
        let hash = self.hash_node_id(&id);
        let mut buckets: Vec<Vec<NodeId>> = Vec::new();
        let mut b: usize = 0;
        while b < self.id_bits
            invariant
                b <= self.id_bits,
                buckets@.len() == b,
                bucket_views(buckets@) == empty_buckets(b as nat),
            decreases self.id_bits - b,
        {
            let fresh: Vec<NodeId> = Vec::new();
            assert(ids_of(fresh@) =~= Seq::<Seq<char>>::empty());
            let ghost before = buckets@;
            buckets.push(fresh);
            assert(buckets@ == before.push(fresh));
            assert forall|i: int| 0 <= i <= b implies #[trigger] bucket_views(buckets@)[i]
                == Seq::<Seq<char>>::empty() by {
                if i < b {
                    assert(buckets@[i] == before[i]);
                    assert(bucket_views(before)[i] == empty_buckets(b as nat)[i]);
                }
            }
            b = b + 1;
            assert(bucket_views(buckets@) =~= empty_buckets(b as nat));
        }
        let found = self.slot_of(&id);
        let slot = KadSlot { id, hash, buckets };
        let ghost fresh = slot.entry();
        match found {
            Some(i) => {
                proof {
                    lemma_find_id_found(old(self)@.nodes, fresh.id);
                }
                self.nodes.set(i, slot);
                assert(self@.nodes =~= old(self)@.nodes.update(i as int, fresh));
            },
            None => {
                proof {
                    lemma_find_id_absent(old(self)@.nodes, fresh.id);
                }
                self.nodes.push(slot);
                assert(self@.nodes =~= old(self)@.nodes.push(fresh));
            },
        }
    }
}

impl KademliaDHT {
    /// Calculate XOR distance between two hashes
    fn xor_distance(a: &Vec<u8>, b: &Vec<u8>) -> (r: Vec<u8>)
        ensures
            r@ == xor_bytes(a@, b@),
    {
        let n = if a.len() <= b.len() {
            a.len()
        } else {
            b.len()
        };
        let mut out: Vec<u8> = Vec::new();
        let mut i: usize = 0;
        while i < n
            invariant
                n <= a.len(),
                n <= b.len(),
                n == xor_bytes(a@, b@).len(),
                i <= n,
                out@ == xor_bytes(a@, b@).take(i as int),
            decreases n - i,
        {
            out.push(a[i] ^ b[i]);
            i = i + 1;
            assert(out@ =~= xor_bytes(a@, b@).take(i as int));
        }
        assert(out@ =~= xor_bytes(a@, b@));
        out
    }

    /// Get bucket index for a distance (position of most significant bit)
    pub fn get_bucket_index(&self, distance: &Vec<u8>) -> (r: usize)
        requires
            distance@.len() <= usize::MAX / 8,
        ensures
            r as nat == bucket_index(distance@, self@.id_bits),
    {
        let mut byte_idx: usize = 0;
        while byte_idx < distance.len()
            invariant
                byte_idx <= distance@.len(),
                distance@.len() <= usize::MAX / 8,
                forall|j: int| 0 <= j < byte_idx ==> distance@[j] == 0,
            decreases distance.len() - byte_idx,
        {
            let byte = distance[byte_idx];
            if byte != 0 {
                proof {
                    lemma_first_nonzero_at(distance@, byte_idx as int);
                    axiom_u8_leading_zeros(byte);
                }
                let bit_pos = 7 - byte.leading_zeros() as usize;
                assert((distance.len() - 1 - byte_idx) * 8 + bit_pos <= usize::MAX) by (nonlinear_arith)
                    requires
                        distance.len() <= usize::MAX / 8,
                        byte_idx < distance.len(),
                        bit_pos <= 7;
                return (distance.len() - 1 - byte_idx) * 8 + bit_pos;
            }
            byte_idx = byte_idx + 1;
        }
        proof {
            lemma_first_nonzero_at(distance@, byte_idx as int);
        }
        self.id_bits
    }

    /// Build k-buckets for all nodes
    pub fn build_routing_tables(&mut self)
        requires
            old(self).wf(),
        ensures
            final(self).wf(),
            final(self)@.id_bits == old(self)@.id_bits,
            final(self)@.k == old(self)@.k,
            final(self)@.nodes == built_tables(old(self)@),
    {
        let ghost v = self@;
        let n = self.nodes.len();
        let mut i: usize = 0;
        while i < n
            invariant
                n == self.nodes.len(),
                n == v.nodes.len(),
                kad_wf(v),
                v == old(self)@,
                self.id_bits == v.id_bits,
                self.k == v.k,
                i <= n,
                forall|a: int| 0 <= a < n ==> (#[trigger] self@.nodes[a]).id == v.nodes[a].id
                    && self@.nodes[a].hash == v.nodes[a].hash,
                forall|a: int| 0 <= a < i ==> (#[trigger] self@.nodes[a]).buckets == built_tables(v)[a].buckets,
                forall|a: int| i <= a < n ==> (#[trigger] self@.nodes[a]).buckets == v.nodes[a].buckets,
            decreases n - i,
        {
            let mut j: usize = 0;
            while j < n
                invariant
                    n == self.nodes.len(),
                    n == v.nodes.len(),
                    kad_wf(v),
                    self.id_bits == v.id_bits,
                    self.k == v.k,
                    i < n,
                    j <= n,
                    forall|a: int| 0 <= a < n ==> (#[trigger] self@.nodes[a]).id == v.nodes[a].id
                        && self@.nodes[a].hash == v.nodes[a].hash,
                    forall|a: int| 0 <= a < i ==> (#[trigger] self@.nodes[a]).buckets == built_tables(v)[a].buckets,
                    forall|a: int| i < a < n ==> (#[trigger] self@.nodes[a]).buckets == v.nodes[a].buckets,
                    self@.nodes[i as int].buckets == fill_buckets(v, i as int, j as nat),
                    fill_buckets(v, i as int, j as nat).len() == v.id_bits,
                decreases n - j,
            {
                let ghost before = self@.nodes;
                assert(self@.nodes[i as int] == self.nodes@[i as int].entry());
                assert(self@.nodes[j as int] == self.nodes@[j as int].entry());
                if self.nodes[i].id == self.nodes[j].id {
                    j = j + 1;
                    continue;
                }
                let distance = Self::xor_distance(&self.nodes[i].hash, &self.nodes[j].hash);
                let bucket_idx = self.get_bucket_index(&distance);
                if bucket_idx < self.id_bits {
                    assert(self.nodes@[i as int].buckets@.len() == v.id_bits);
                    if self.nodes[i].buckets[bucket_idx].len() < self.k {
                        let other = self.nodes[j].id.clone();
                        let ghost old_slot = self.nodes@[i as int];
                        self.nodes[i].buckets[bucket_idx].push(other);
                        let ghost new_slot = self.nodes@[i as int];
                        assert(new_slot.buckets@ == old_slot.buckets@.update(bucket_idx as int, new_slot.buckets@[bucket_idx as int]));
                        assert(new_slot.buckets@[bucket_idx as int]@ == old_slot.buckets@[bucket_idx as int]@.push(other));
                        assert(ids_of(new_slot.buckets@[bucket_idx as int]@) =~= ids_of(old_slot.buckets@[bucket_idx as int]@).push(other@));
                        assert(bucket_views(new_slot.buckets@) =~= bucket_views(old_slot.buckets@).update(bucket_idx as int, ids_of(old_slot.buckets@[bucket_idx as int]@).push(other@)));
                        assert forall|a: int| 0 <= a < n && a != i implies #[trigger] self@.nodes[a] == before[a] by {}
                        assert(self@.nodes[i as int].buckets =~= fill_buckets(v, i as int, (j + 1) as nat));
                    }
                }
                j = j + 1;
            }
            i = i + 1;
        }
        assert(self@.nodes =~= built_tables(v));
        assert forall|a: int| 0 <= a < n implies (#[trigger] self@.nodes[a]).buckets.len() == v.id_bits by {
            lemma_fill_len(v, a, n as nat);
        }
    }
}

/// Filling keeps one bucket per identifier bit.
pub proof fn lemma_fill_len(v: KadView, i: int, upto: nat)
    requires
        v.nodes[i].buckets.len() == v.id_bits,
    ensures
        fill_buckets(v, i, upto).len() == v.nodes[i].buckets.len(),
    decreases upto,
{
    if upto > 0 {
        lemma_fill_len(v, i, (upto - 1) as nat);
    }
}

/// Filling never pushes a bucket past `k` entries (a bucket that held more before
/// keeps its size), and it never lists a node in its own table.
pub proof fn lemma_bucket_capacity(v: KadView, i: int, upto: nat)
    requires
        0 <= i < v.nodes.len(),
        upto <= v.nodes.len(),
        v.nodes[i].buckets.len() == v.id_bits,
    ensures
        forall|b: int|
            0 <= b < v.id_bits ==> (#[trigger] fill_buckets(v, i, upto)[b]).len() <= if v.nodes[i].buckets[b].len() <= v.k {
                v.k
            } else {
                v.nodes[i].buckets[b].len()
            },
        forall|b: int, e: int|
            0 <= b < v.id_bits && v.nodes[i].buckets[b].len() <= e < fill_buckets(v, i, upto)[b].len()
                ==> (#[trigger] fill_buckets(v, i, upto)[b][e]) != v.nodes[i].id,
    decreases upto,
{
    lemma_fill_len(v, i, upto);
    if upto > 0 {
        lemma_bucket_capacity(v, i, (upto - 1) as nat);
        lemma_fill_len(v, i, (upto - 1) as nat);
        let prev = fill_buckets(v, i, (upto - 1) as nat);
        let cur = fill_buckets(v, i, upto);
        let j = upto - 1;
        assert forall|b: int, e: int|
            0 <= b < v.id_bits && v.nodes[i].buckets[b].len() <= e < cur[b].len() implies (#[trigger] cur[b][e]) != v.nodes[i].id by {
            if cur[b] != prev[b] {
                if e < prev[b].len() {
                    assert(cur[b][e] == prev[b][e]);
                }
            }
        }
    }
}

impl KademliaDHT {
    /// Inserts a candidate after every candidate at or before it in distance.
    fn insert_candidate(sorted: &mut Vec<Candidate>, c: Candidate)
        ensures
            keys_of_candidates(final(sorted)@) == crate::ordering::insert_sorted(
                keys_of_candidates(old(sorted)@),
                c.key(),
                dist_le(),
            ),
    {
        let ghost before = keys_of_candidates(sorted@);
        let mut p: usize = 0;
        while p < sorted.len() && !bytes_lt(c.distance.as_slice(), sorted[p].distance.as_slice())
            invariant
                p <= sorted.len(),
                before == keys_of_candidates(sorted@),
                forall|j: int| 0 <= j < p ==> !lex_lt(c.distance@, (#[trigger] before[j]).1),
            decreases sorted.len() - p,
        {
            p = p + 1;
        }
        proof {
            assert forall|j: int| 0 <= j < p implies (dist_le())(#[trigger] before[j], c.key()) by {}
            lemma_lead_count(before, c.key(), dist_le(), p as int);
        }
        let ghost ck = c.key();
        sorted.insert(p, c);
        assert(keys_of_candidates(sorted@) =~= before.take(p as int).push(ck) + before.skip(p as int));
    }

    /// Find k closest nodes to a target
    fn find_closest_nodes(&self, current_id: &NodeId, target_hash: &Vec<u8>, k: usize) -> (r: Vec<NodeId>)
        requires
            self.wf(),
        ensures
            ids_of(r@) == closest_ids(self@, current_id@, target_hash@, k as nat),
    {
        let ghost v = self@;
        let ci = match self.slot_of(current_id) {
            Some(c) => c,
            None => {
                let empty: Vec<NodeId> = Vec::new();
                assert(ids_of(empty@) =~= Seq::<Seq<char>>::empty());
                return empty;
            },
        };
        let ghost buckets = v.nodes[ci as int].buckets;
        assert(buckets == bucket_views(self.nodes@[ci as int].buckets@));
        let mut sorted: Vec<Candidate> = Vec::new();
        let nb = self.nodes[ci].buckets.len();
        let mut b: usize = 0;
        assert(buckets.take(0) =~= Seq::<Seq<Seq<char>>>::empty());
        assert(keys_of_candidates(sorted@) =~= Seq::<(Seq<char>, Seq<u8>)>::empty());
        while b < nb
            invariant
                v == self@,
                ci < self.nodes.len(),
                buckets == bucket_views(self.nodes@[ci as int].buckets@),
                nb == buckets.len(),
                b <= nb,
                keys_of_candidates(sorted@) == sort_by(table_candidates(v, buckets.take(b as int), target_hash@), dist_le()),
            decreases nb - b,
        {
            let bucket = &self.nodes[ci].buckets[b];
            let ghost members = buckets[b as int];
            assert(members == ids_of(bucket@));
            let ghost done = table_candidates(v, buckets.take(b as int), target_hash@);
            let mut t: usize = 0;
            assert(members.take(0) =~= Seq::<Seq<char>>::empty());
            assert(done + bucket_candidates(v, members.take(0), target_hash@) =~= done);
            while t < bucket.len()
                invariant
                    v == self@,
                    members == ids_of(bucket@),
                    t <= bucket.len(),
                    keys_of_candidates(sorted@) == sort_by(done + bucket_candidates(v, members.take(t as int), target_hash@), dist_le()),
                decreases bucket.len() - t,
            {
                let id = &bucket[t];
                assert(members.take(t + 1).drop_last() =~= members.take(t as int));
                assert(members.take(t + 1).last() == id@);
                match self.slot_of(id) {
                    Some(x) => {
                        let d = Self::xor_distance(&self.nodes[x].hash, target_hash);
                        let c = Candidate { id: id.clone(), distance: d };
                        let ghost prefix = done + bucket_candidates(v, members.take(t as int), target_hash@);
                        Self::insert_candidate(&mut sorted, c);
                        assert(done + bucket_candidates(v, members.take(t + 1), target_hash@) =~= prefix.push(c.key()));
                        assert(prefix.push(c.key()).drop_last() =~= prefix);
                    },
                    None => {
                        assert(done + bucket_candidates(v, members.take(t + 1), target_hash@) =~= done + bucket_candidates(v, members.take(t as int), target_hash@));
                    },
                }
                t = t + 1;
            }
            assert(members.take(bucket@.len() as int) =~= members);
            assert(buckets.take(b + 1).drop_last() =~= buckets.take(b as int));
            assert(buckets.take(b + 1).last() == members);
            b = b + 1;
        }
        assert(buckets.take(nb as int) =~= buckets);
        let ghost s = keys_of_candidates(sorted@);
        let n = if k <= sorted.len() {
            k
        } else {
            sorted.len()
        };
        let mut out: Vec<NodeId> = Vec::new();
        let mut i: usize = 0;
        while i < n
            invariant
                n <= sorted.len(),
                s == keys_of_candidates(sorted@),
                i <= n,
                ids_of(out@) == s.take(i as int).map_values(|c: (Seq<char>, Seq<u8>)| c.0),
            decreases n - i,
        {
            let ghost before = ids_of(out@);
            let id = sorted[i].id.clone();
            out.push(id);
            assert(ids_of(out@) =~= before.push(id@));
            assert(s[i as int].0 == id@);
            i = i + 1;
            assert(ids_of(out@) =~= s.take(i as int).map_values(|c: (Seq<char>, Seq<u8>)| c.0));
        }
        out
    }
}

/// A distance whose first `i` bytes are zero has its first non-zero byte at `i`, if any.
pub proof fn lemma_first_nonzero_at(d: Seq<u8>, i: int)
    requires
        0 <= i <= d.len(),
        forall|j: int| 0 <= j < i ==> d[j] == 0,
    ensures
        i == d.len() ==> first_nonzero(d) is None,
        i < d.len() && d[i] != 0 ==> first_nonzero(d) == Some(i),
    decreases i,
{
    if d.len() > 0 && i > 0 {
        assert forall|j: int| 0 <= j < i - 1 implies d.drop_first()[j] == 0 by {
            assert(d.drop_first()[j] == d[j + 1]);
        }
        lemma_first_nonzero_at(d.drop_first(), i - 1);
    }
}

/// The first non-zero byte is non-zero and only zeros come before it; without one,
/// every byte is zero.
proof fn lemma_first_nonzero_facts(d: Seq<u8>)
    ensures
        first_nonzero(d) matches Some(i) ==> 0 <= i < d.len() && d[i] != 0 && forall|j: int| 0 <= j < i ==> d[j] == 0,
        first_nonzero(d) is None ==> forall|j: int| 0 <= j < d.len() ==> d[j] == 0,
    decreases d.len(),
{
    if d.len() > 0 && d[0] == 0 {
        lemma_first_nonzero_facts(d.drop_first());
        assert forall|j: int| 0 < j < d.len() implies d[j] == d.drop_first()[j - 1] by {}
    }
}

/// Bytes that are all zero denote zero.
proof fn lemma_be_value_zeros(s: Seq<u8>)
    requires
        forall|j: int| 0 <= j < s.len() ==> s[j] == 0,
    ensures
        be_value(s) == 0,
    decreases s.len(),
{
    if s.len() > 0 {
        lemma_be_value_zeros(s.drop_last());
    }
}

/// The value of two byte strings one after the other.
proof fn lemma_be_value_concat(s: Seq<u8>, t: Seq<u8>)
    ensures
        be_value(s + t) == be_value(s) * byte_power(t.len()) + be_value(t),
    decreases t.len(),
{
    if t.len() == 0 {
        assert(s + t =~= s);
        assert(be_value(t) == 0);
        assert(byte_power(0) == 1);
        assert(be_value(s) * 1 == be_value(s));
    } else {
        let t0 = t.drop_last();
        assert((s + t).drop_last() =~= s + t0);
        lemma_be_value_concat(s, t0);
        let a = be_value(s);
        let p = byte_power(t0.len());
        let b = be_value(t0);
        let c = t.last() as nat;
        assert((s + t).last() == t.last());
        assert(be_value(s + t) == be_value(s + t0) * 256 + c);
        assert(be_value(t) == b * 256 + c);
        assert(byte_power(t.len()) == 256 * p);
        assert((a * p + b) * 256 + c == a * (256 * p) + (b * 256 + c)) by (nonlinear_arith);
        assert(be_value(s + t) == a * byte_power(t.len()) + be_value(t));
    }
}

/// A power of 256 is a power of two.
proof fn lemma_byte_power_pow2(n: nat)
    ensures
        byte_power(n) == pow2(8 * n),
    decreases n,
{
    if n > 0 {
        lemma_byte_power_pow2((n - 1) as nat);
        lemma_pow2_adds(8, 8 * (n - 1) as nat);
        lemma2_to64();
        assert(8 + 8 * (n - 1) == 8 * n);
    } else {
        lemma2_to64();
    }
}

/// A non-zero byte lies between the power of two of its highest set bit and the next.
proof fn lemma_top_bit(b: u8)
    requires
        b != 0,
    ensures
        u8_leading_zeros(b) < 8,
        pow2((7 - u8_leading_zeros(b)) as nat) <= b < pow2((8 - u8_leading_zeros(b)) as nat),
{
    axiom_u8_leading_zeros(b);
    lemma2_to64();
    let z = u8_leading_zeros(b);
    if z == 0 {
        assert((b >> 7u8) & 1u8 != 0u8 ==> b >= 128) by (bit_vector);
    } else if z == 1 {
        assert((b >> 6u8) & 1u8 != 0u8 ==> b >= 64) by (bit_vector);
        assert(b >> 7u8 == 0u8 ==> b < 128) by (bit_vector);
    } else if z == 2 {
        assert((b >> 5u8) & 1u8 != 0u8 ==> b >= 32) by (bit_vector);
        assert(b >> 6u8 == 0u8 ==> b < 64) by (bit_vector);
    } else if z == 3 {
        assert((b >> 4u8) & 1u8 != 0u8 ==> b >= 16) by (bit_vector);
        assert(b >> 5u8 == 0u8 ==> b < 32) by (bit_vector);
    } else if z == 4 {
        assert((b >> 3u8) & 1u8 != 0u8 ==> b >= 8) by (bit_vector);
        assert(b >> 4u8 == 0u8 ==> b < 16) by (bit_vector);
    } else if z == 5 {
        assert((b >> 2u8) & 1u8 != 0u8 ==> b >= 4) by (bit_vector);
        assert(b >> 3u8 == 0u8 ==> b < 8) by (bit_vector);
    } else if z == 6 {
        assert((b >> 1u8) & 1u8 != 0u8 ==> b >= 2) by (bit_vector);
        assert(b >> 2u8 == 0u8 ==> b < 4) by (bit_vector);
    } else {
        assert(b >> 1u8 == 0u8 ==> b < 2) by (bit_vector);
    }
}

/// Bucket `b` holds the distances from `2^b` up to `2^(b+1)`: a non-zero distance,
/// read as a big-endian number, lies in that range for its bucket.
pub proof fn lemma_bucket_range(d: Seq<u8>, id_bits: nat)
    requires
        be_value(d) > 0,
    ensures
        pow2(bucket_index(d, id_bits)) <= be_value(d) < pow2(bucket_index(d, id_bits) + 1),
{
    lemma_first_nonzero_facts(d);
    if first_nonzero(d) is None {
        lemma_be_value_zeros(d);
    }
    let i = first_nonzero(d)->Some_0;
    let l = (d.len() - 1 - i) as nat;
    let head = d.take(i + 1);
    let tail = d.skip(i + 1);
    assert(d =~= head + tail);
    lemma_be_value_concat(head, tail);
    assert(head.drop_last() =~= d.take(i));
    lemma_be_value_zeros(d.take(i));
    assert(be_value(head) == d[i] as nat);
    lemma_be_value_bound(tail);
    lemma_byte_power_pow2(l);
    lemma_top_bit(d[i]);
    let z = u8_leading_zeros(d[i]);
    let p = (7 - z) as nat;
    lemma_pow2_adds(8 * l, p);
    lemma_pow2_adds(8 * l, p + 1);
    assert(bucket_index(d, id_bits) == 8 * l + p);
    let v = d[i] as nat;
    let bp = byte_power(l);
    let r = be_value(tail);
    assert(pow2(p) * bp <= v * bp) by (nonlinear_arith)
        requires
            pow2(p) <= v;
    assert(v * bp + r < pow2(p + 1) * bp) by (nonlinear_arith)
        requires
            v + 1 <= pow2(p + 1),
            r < bp;
    assert(pow2(8 * l) * pow2(p) == pow2(p) * bp) by (nonlinear_arith)
        requires
            bp == pow2(8 * l);
    assert(pow2(8 * l) * pow2(p + 1) == pow2(p + 1) * bp) by (nonlinear_arith)
        requires
            bp == pow2(8 * l);
    assert(8 * l + (p + 1) == 8 * l + p + 1);
}

/// What the identifier lookup finds is in range and carries the identifier.
pub proof fn lemma_find_id_found(nodes: Seq<KadEntry>, id: Seq<char>)
    ensures
        find_id(nodes, id) matches Some(x) ==> 0 <= x < nodes.len() && nodes[x].id == id,
    decreases nodes.len(),
{
    if nodes.len() > 0 && nodes.last().id != id {
        lemma_find_id_found(nodes.drop_last(), id);
    }
}

/// The identifier lookup fails only on identifiers that no node has.
pub proof fn lemma_find_id_absent(nodes: Seq<KadEntry>, id: Seq<char>)
    ensures
        find_id(nodes, id) is None ==> forall|i: int| 0 <= i < nodes.len() ==> (#[trigger] nodes[i]).id != id,
    decreases nodes.len(),
{
    if nodes.len() > 0 && nodes.last().id != id {
        lemma_find_id_absent(nodes.drop_last(), id);
        assert forall|i: int| 0 <= i < nodes.len() - 1 implies nodes[i] == nodes.drop_last()[i] by {}
    }
}

/// Every stored identifier is found at its own slot when identifiers are unique.
pub proof fn lemma_find_id_member(nodes: Seq<KadEntry>, j: int)
    requires
        0 <= j < nodes.len(),
        forall|a: int, b: int|
            0 <= a < nodes.len() && 0 <= b < nodes.len() && a != b ==> (#[trigger] nodes[a]).id
                != (#[trigger] nodes[b]).id,
    ensures
        find_id(nodes, nodes[j].id) == Some(j),
    decreases nodes.len(),
{
    if j < nodes.len() - 1 {
        assert(nodes.last().id != nodes[j].id);
        assert(nodes.drop_last()[j] == nodes[j]);
        lemma_find_id_member(nodes.drop_last(), j);
    }
}

} // verus!

verus! {

/// The scan keeps the starting best when it picks nothing; what it picks is a known
/// node off the path, strictly closer than the starting best, with the best distance.
pub proof fn lemma_pick_closer(v: KadView, cands: Seq<Seq<char>>, path: Seq<Seq<char>>, dest_hash: Seq<u8>, best: Seq<u8>)
    ensures
        ({
            let r = pick_closer(v, cands, path, dest_hash, best);
            &&& r.1 is None ==> r.0 == best
            &&& r.1 matches Some(c) ==> {
                &&& find_id(v.nodes, c) is Some
                &&& !path.contains(c)
                &&& r.0 == xor_bytes(hash_of(v, c), dest_hash)
                &&& lex_lt(r.0, best)
            }
        }),
    decreases cands.len(),
{
    if cands.len() > 0 {
        lemma_pick_closer(v, cands.drop_last(), path, dest_hash, best);
        let prev = pick_closer(v, cands.drop_last(), path, dest_hash, best);
        if prev.1 is Some {
            let c = cands.last();
            if !path.contains(c) {
                if let Some(x) = find_id(v.nodes, c) {
                    let d = xor_bytes(v.nodes[x].hash, dest_hash);
                    if lex_lt(d, prev.0) {
                        lemma_lex_lt_transitive(d, prev.0, best);
                    }
                }
            }
        }
    }
}

/// The distance from a node to the destination's hash.
pub open spec fn kad_distance(v: KadView, id: Seq<char>, dest_hash: Seq<u8>) -> Seq<u8> {
    xor_bytes(hash_of(v, id), dest_hash)
}

/// The nodes of a path are pairwise distinct.
pub open spec fn no_repeats(path: Seq<Seq<char>>) -> bool {
    forall|i: int, j: int| 0 <= i < j < path.len() ==> path[i] != path[j]
}

/// Along a path, each hop strictly decreases the XOR distance to the destination.
pub open spec fn distance_decreasing(v: KadView, path: Seq<Seq<char>>, dest_hash: Seq<u8>) -> bool {
    forall|i: int|
        1 <= i < path.len() ==> lex_lt(
            kad_distance(v, #[trigger] path[i], dest_hash),
            kad_distance(v, path[i - 1], dest_hash),
        )
}

proof fn lemma_kad_walk_shape(
    v: KadView,
    dest: Seq<char>,
    dest_hash: Seq<u8>,
    cur: Seq<char>,
    path: Seq<Seq<char>>,
    hops: nat,
    max: nat,
)
    requires
        path.len() == hops + 1,
        path.last() == cur,
        hops <= max,
        no_repeats(path),
        distance_decreasing(v, path, dest_hash),
    ensures
        ({
            let r = kad_walk(v, dest, dest_hash, cur, path, hops, max);
            &&& r.path.len() == r.hops + 1
            &&& hops <= r.hops <= max
            &&& r.path.take(path.len() as int) == path
            &&& (r.success <==> r.failure_reason is None)
            &&& (r.success ==> r.path.last() == dest)
            &&& no_repeats(r.path)
            &&& distance_decreasing(v, r.path, dest_hash)
        }),
    decreases max - hops,
{
    if hops < max && cur != dest {
        let closest = closest_ids(v, cur, dest_hash, v.k);
        let best = xor_bytes(hash_of(v, cur), dest_hash);
        lemma_pick_closer(v, closest, path, dest_hash, best);
        if let Some(next) = pick_closer(v, closest, path, dest_hash, best).1 {
            let np = path.push(next);
            assert forall|i: int, j: int| 0 <= i < j < np.len() implies np[i] != np[j] by {
                if j == np.len() - 1 {
                    assert(np[i] == path[i]);
                    assert(path.contains(path[i]));
                }
            }
            assert forall|i: int| 1 <= i < np.len() implies lex_lt(
                kad_distance(v, #[trigger] np[i], dest_hash),
                kad_distance(v, np[i - 1], dest_hash),
            ) by {
                if i == np.len() - 1 {
                    assert(np[i - 1] == cur);
                } else {
                    assert(np[i] == path[i]);
                    assert(np[i - 1] == path[i - 1]);
                }
            }
            lemma_kad_walk_shape(v, dest, dest_hash, next, np, hops + 1, max);
            let r = kad_walk(v, dest, dest_hash, cur, path, hops, max);
            assert(r == kad_walk(v, dest, dest_hash, next, np, hops + 1, max));
            assert forall|i: int| 0 <= i < path.len() implies r.path[i] == path[i] by {
                assert(r.path[i] == r.path.take(path.len() as int + 1)[i]);
                assert(np[i] == path[i]);
            }
            assert(r.path.take(path.len() as int) =~= path);
        } else {
            assert(kad_walk(v, dest, dest_hash, cur, path, hops, max).path.take(path.len() as int) =~= path);
        }
    } else {
        assert(kad_walk(v, dest, dest_hash, cur, path, hops, max).path.take(path.len() as int) =~= path);
    }
}

/// Whether `c` is a contact that a packet at `cur`, having walked `walked`, may go to:
/// one of `cur`'s closest known contacts, a node of the network, not yet walked.
pub open spec fn open_contact(v: KadView, cur: Seq<char>, walked: Seq<Seq<char>>, dest_hash: Seq<u8>, c: Seq<char>) -> bool {
    &&& closest_ids(v, cur, dest_hash, v.k).contains(c)
    &&& find_id(v.nodes, c) is Some
    &&& !walked.contains(c)
}

/// Hop `i` of `path` is greedy: it goes to a contact open at the node before, and no
/// contact open there is strictly closer (XOR) to the destination's hash.
pub open spec fn greedy_hop(v: KadView, path: Seq<Seq<char>>, dest_hash: Seq<u8>, i: int) -> bool {
    &&& open_contact(v, path[i - 1], path.take(i), dest_hash, path[i])
    &&& forall|c: Seq<char>|
        #[trigger] open_contact(v, path[i - 1], path.take(i), dest_hash, c) ==> !lex_lt(
            kad_distance(v, c, dest_hash),
            kad_distance(v, path[i], dest_hash),
        )
}

/// The scan ends with a distance that no known candidate off the path beats, no worse
/// than the starting best, and what it picks is one of the candidates.
proof fn lemma_pick_closer_least(v: KadView, cands: Seq<Seq<char>>, path: Seq<Seq<char>>, dest_hash: Seq<u8>, best: Seq<u8>)
    ensures
        ({
            let r = pick_closer(v, cands, path, dest_hash, best);
            &&& forall|j: int|
                0 <= j < cands.len() && !path.contains(cands[j]) && find_id(v.nodes, cands[j]) is Some ==> !lex_lt(
                    kad_distance(v, #[trigger] cands[j], dest_hash),
                    r.0,
                )
            &&& r.1 matches Some(c) ==> cands.contains(c)
        }),
    decreases cands.len(),
{
    if cands.len() > 0 {
        let rest = cands.drop_last();
        lemma_pick_closer_least(v, rest, path, dest_hash, best);
        let prev = pick_closer(v, rest, path, dest_hash, best);
        let r = pick_closer(v, cands, path, dest_hash, best);
        let c = cands.last();
        lemma_find_id_found(v.nodes, c);
        assert forall|j: int|
            0 <= j < cands.len() && !path.contains(cands[j]) && find_id(v.nodes, cands[j]) is Some implies !lex_lt(
                kad_distance(v, #[trigger] cands[j], dest_hash),
                r.0,
            ) by {
            let dj = kad_distance(v, cands[j], dest_hash);
            if j < cands.len() - 1 {
                assert(cands[j] == rest[j]);
                if r.0 != prev.0 && lex_lt(dj, r.0) {
                    lemma_lex_lt_transitive(dj, r.0, prev.0);
                }
            } else {
                lemma_lex_lt_irreflexive(dj);
            }
        }
        if let Some(x) = r.1 {
            if x != c {
                let w = choose|w: int| 0 <= w < rest.len() && rest[w] == x;
                assert(cands[w] == x);
            } else {
                assert(cands[cands.len() - 1] == x);
            }
        }
    }
}

proof fn lemma_kad_walk_greedy(
    v: KadView,
    dest: Seq<char>,
    dest_hash: Seq<u8>,
    cur: Seq<char>,
    path: Seq<Seq<char>>,
    hops: nat,
    max: nat,
)
    requires
        path.len() >= 1,
        path.last() == cur,
        forall|i: int| 1 <= i < path.len() ==> #[trigger] greedy_hop(v, path, dest_hash, i),
    ensures
        ({
            let r = kad_walk(v, dest, dest_hash, cur, path, hops, max);
            &&& forall|i: int| 1 <= i < r.path.len() ==> #[trigger] greedy_hop(v, r.path, dest_hash, i)
            &&& r.failure_reason == Some("No closer node found"@) ==> forall|c: Seq<char>|
                #[trigger] open_contact(v, r.path.last(), r.path, dest_hash, c) ==> !lex_lt(
                    kad_distance(v, c, dest_hash),
                    kad_distance(v, r.path.last(), dest_hash),
                )
        }),
    decreases max - hops,
{
    let r = kad_walk(v, dest, dest_hash, cur, path, hops, max);
    if hops < max && cur != dest {
        let closest = closest_ids(v, cur, dest_hash, v.k);
        let best = xor_bytes(hash_of(v, cur), dest_hash);
        lemma_pick_closer(v, closest, path, dest_hash, best);
        lemma_pick_closer_least(v, closest, path, dest_hash, best);
        let pr = pick_closer(v, closest, path, dest_hash, best);
        match pr.1 {
            Some(next) => {
                let np = path.push(next);
                assert(np.take(path.len() as int) =~= path);
                assert forall|i: int| 1 <= i < np.len() implies #[trigger] greedy_hop(v, np, dest_hash, i) by {
                    if i < np.len() - 1 {
                        assert(greedy_hop(v, path, dest_hash, i));
                        assert(np.take(i) =~= path.take(i));
                        assert(np[i] == path[i]);
                        assert(np[i - 1] == path[i - 1]);
                    } else {
                        assert(np[i - 1] == cur);
                        assert(np[i] == next);
                        assert forall|c: Seq<char>| #[trigger] open_contact(v, np[i - 1], np.take(i), dest_hash, c) implies !lex_lt(
                            kad_distance(v, c, dest_hash),
                            kad_distance(v, np[i], dest_hash),
                        ) by {
                            let j = choose|j: int| 0 <= j < closest.len() && closest[j] == c;
                            assert(closest[j] == c);
                        }
                    }
                }
                lemma_kad_walk_greedy(v, dest, dest_hash, next, np, hops + 1, max);
                assert(r == kad_walk(v, dest, dest_hash, next, np, hops + 1, max));
            },
            None => {
                assert(r.path == path);
                assert forall|c: Seq<char>| #[trigger] open_contact(v, r.path.last(), r.path, dest_hash, c) implies !lex_lt(
                    kad_distance(v, c, dest_hash),
                    kad_distance(v, r.path.last(), dest_hash),
                ) by {
                    let j = choose|j: int| 0 <= j < closest.len() && closest[j] == c;
                    assert(closest[j] == c);
                }
            },
        }
    } else {
        reveal_strlit("Max hops exceeded");
        reveal_strlit("No closer node found");
        assert("Max hops exceeded"@.len() != "No closer node found"@.len());
        assert(r.path == path);
    }
}

/// Kademlia routing is greedy: every hop goes to a not-yet-visited contact, among the
/// current node's closest known ones, that no other such contact beats in XOR distance
/// to the destination's hash; and routing gives up for want of a closer node only
/// when no such contact is strictly closer than where the packet is. In particular a
/// hop never passes over the destination itself, the closest node there is, for a
/// contact farther away.
pub proof fn lemma_kademlia_hops_greedy(dht: &KademliaDHT, source: Seq<char>, destination: Seq<char>, max_hops: nat)
    ensures
        ({
            let v = dht@;
            let dh = kad_hash(destination, v.id_bits);
            let r = dht.route_spec(source, destination, max_hops);
            &&& forall|i: int| 1 <= i < r.path.len() ==> #[trigger] greedy_hop(v, r.path, dh, i)
            &&& r.failure_reason == Some("No closer node found"@) ==> forall|c: Seq<char>|
                #[trigger] open_contact(v, r.path.last(), r.path, dh, c) ==> !lex_lt(
                    kad_distance(v, c, dh),
                    kad_distance(v, r.path.last(), dh),
                )
        }),
{
    let v = dht@;
    let dh = kad_hash(destination, v.id_bits);
    lemma_kad_walk_greedy(v, destination, dh, source, seq![source], 0, max_hops);
}

/// Kademlia routing is well shaped (see `well_shaped`), never visits a node twice, and
/// every hop strictly decreases the XOR distance to the destination.
pub proof fn lemma_kademlia_route_properties(dht: &KademliaDHT, source: Seq<char>, destination: Seq<char>, max_hops: nat)
    ensures
        well_shaped(dht.route_spec(source, destination, max_hops), source, destination, max_hops),
        no_repeats(dht.route_spec(source, destination, max_hops).path),
        distance_decreasing(dht@, dht.route_spec(source, destination, max_hops).path, kad_hash(destination, dht@.id_bits)),
{
    let v = dht@;
    let dh = kad_hash(destination, v.id_bits);
    lemma_kad_walk_shape(v, destination, dh, source, seq![source], 0, max_hops);
    let r = kad_route(v, source, destination, max_hops);
    assert(r.path[0] == r.path.take(1)[0]);
}

impl KademliaDHT {
    /// Whether the path already holds a node.
    fn path_contains(path: &Vec<NodeId>, id: &NodeId) -> (r: bool)
        ensures
            r == ids_of(path@).contains(id@),
    {
        let mut i: usize = 0;
        while i < path.len()
            invariant
                i <= path.len(),
                forall|j: int| 0 <= j < i ==> path@[j]@ != id@,
            decreases path.len() - i,
        {
            if path[i] == *id {
                assert(ids_of(path@)[i as int] == id@);
                return true;
            }
            i = i + 1;
        }
        proof {
            if ids_of(path@).contains(id@) {
                let j = choose|j: int| 0 <= j < ids_of(path@).len() && ids_of(path@)[j] == id@;
                assert(path@[j]@ == id@);
            }
        }
        false
    }
}

impl DHTRouter for KademliaDHT {
    open spec fn route_spec(&self, source: Seq<char>, destination: Seq<char>, max_hops: nat) -> RouteOutcome {
        kad_route(self@, source, destination, max_hops)
    }

    open spec fn route_admissible(&self, source: Seq<char>, destination: Seq<char>, max_hops: nat) -> bool {
        &&& self.wf()
        &&& self@.id_bits / 8 <= 32
        &&& (max_hops > 0 && source != destination ==> find_id(self@.nodes, source) is Some)
    }

    open spec fn size_spec(&self) -> nat {
        self@.nodes.len()
    }

    fn route(&self, source: &NodeId, destination: &NodeId, max_hops: u32) -> (r: DHTRoutingResult) {
        let ghost v = self@;
        let dest_hash = self.hash_node_id(destination);
        let mut current_id = source.clone();
        let mut path: Vec<NodeId> = Vec::new();
        path.push(source.clone());
        let mut hops: u32 = 0;
        assert(ids_of(path@) =~= seq![source@]);
        while hops < max_hops
            invariant
                v == self@,
                self.wf(),
                dest_hash@ == kad_hash(destination@, v.id_bits),
                current_id@ != destination@ && hops < max_hops ==> find_id(v.nodes, current_id@) is Some,
                kad_walk(v, destination@, dest_hash@, current_id@, ids_of(path@), hops as nat, max_hops as nat)
                    == kad_route(v, source@, destination@, max_hops as nat),
            decreases max_hops - hops,
        {
            // Check if we've reached the destination
            if current_id == *destination {
                return DHTRoutingResult { success: true, hops, path, failure_reason: None };
            }
            // Find closest unvisited node to destination
            let closest_nodes = self.find_closest_nodes(&current_id, &dest_hash, self.k);
            let ghost cands = ids_of(closest_nodes@);
            proof {
                lemma_find_id_found(v.nodes, current_id@);
            }
            let ci = self.slot_of(&current_id).unwrap();
            let mut best_distance = Self::xor_distance(&self.nodes[ci].hash, &dest_hash);
            let ghost best0 = best_distance@;
            let mut next_id: Option<NodeId> = None;
            let mut t: usize = 0;
            assert(cands.take(0) =~= Seq::<Seq<char>>::empty());
            while t < closest_nodes.len()
                invariant
                    v == self@,
                    self.wf(),
                    cands == ids_of(closest_nodes@),
                    t <= closest_nodes.len(),
                    (best_distance@, match next_id { Some(n) => Some(n@), None => None })
                        == pick_closer(v, cands.take(t as int), ids_of(path@), dest_hash@, best0),
                decreases closest_nodes.len() - t,
            {
                let candidate_id = &closest_nodes[t];
                assert(cands.take(t + 1).drop_last() =~= cands.take(t as int));
                assert(cands.take(t + 1).last() == candidate_id@);
                if !Self::path_contains(&path, candidate_id) {
                    match self.slot_of(candidate_id) {
                        Some(x) => {
                            let distance = Self::xor_distance(&self.nodes[x].hash, &dest_hash);
                            if bytes_lt(distance.as_slice(), best_distance.as_slice()) {
                                best_distance = distance;
                                next_id = Some(candidate_id.clone());
                            }
                        },
                        None => {},
                    }
                }
                t = t + 1;
            }
            assert(cands.take(closest_nodes.len() as int) =~= cands);
            match next_id {
                Some(id) => {
                    proof {
                        lemma_pick_closer(v, cands, ids_of(path@), dest_hash@, best0);
                    }
                    current_id = id;
                    let ghost before = ids_of(path@);
                    path.push(current_id.clone());
                    assert(ids_of(path@) =~= before.push(current_id@));
                    hops = hops + 1;
                },
                None => {
                    // No closer node found
                    return DHTRoutingResult {
                        success: false,
                        hops,
                        path,
                        failure_reason: Some("No closer node found".to_owned()),
                    };
                },
            }
        }
        DHTRoutingResult {
            success: false,
            hops,
            path,
            failure_reason: Some("Max hops exceeded".to_owned()),
        }
    }

    fn protocol_name(&self) -> (r: &str)
        ensures
            r@ == "Kademlia"@,
    {
        "Kademlia"
    }

    fn node_count(&self) -> (r: usize) {
        self.nodes.len()
    }
}

} // verus!
