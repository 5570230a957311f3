//! Chaos engineering: injected partitions, node crashes, drops and delays.
//!
//! The engine keeps which nodes are partitioned from which, which are crashed, and
//! what it has injected so far. Where a decision is left to chance (a drop, a broken
//! connection, the length of a delay), the caller draws and hands the outcome in.

use vstd::prelude::*;

use crate::baselines::ids_of;
use crate::chat::{lemma_without_contains, with_added, without};
use crate::coordinates::{holds_id, NodeId};

verus! {

/// Chaos injection statistics
#[derive(Debug)]
pub struct ChaosStats {
    pub packets_dropped: u64,
    pub packets_delayed: u64,
    pub partitions_created: u64,
    pub nodes_crashed: u64,
    pub connections_broken: u64,
}

impl Clone for ChaosStats {
    fn clone(&self) -> (r: Self)
        ensures
            r == *self,
    {
        ChaosStats {
            packets_dropped: self.packets_dropped,
            packets_delayed: self.packets_delayed,
            partitions_created: self.partitions_created,
            nodes_crashed: self.nodes_crashed,
            connections_broken: self.connections_broken,
        }
    }
}

/// Statistics with nothing counted.
pub open spec fn zero_stats() -> ChaosStats {
    ChaosStats { packets_dropped: 0, packets_delayed: 0, partitions_created: 0, nodes_crashed: 0, connections_broken: 0 }
}

impl Default for ChaosStats {
    fn default() -> (r: Self)
        ensures
            r == zero_stats(),
    {
        ChaosStats { packets_dropped: 0, packets_delayed: 0, partitions_created: 0, nodes_crashed: 0, connections_broken: 0 }
    }
}

/// One more event on a counter (a counter at the top of `u64` stays there).
pub open spec fn bumped(x: u64) -> u64 {
    if x < u64::MAX {
        (x + 1) as u64
    } else {
        x
    }
}

fn bump(x: u64) -> (r: u64)
    ensures
        r == bumped(x),
{
    if x < u64::MAX {
        x + 1
    } else {
        x
    }
}

/// The engine as the contracts see it: partition groups and crashed nodes as sets of
/// identifiers.
pub struct ChaosView {
    pub delay_range_ms: (u64, u64),
    pub clock_drift_ms: i64,
    pub partitions: Seq<Set<Seq<char>>>,
    pub crashed: Set<Seq<char>>,
    pub enabled: bool,
    pub stats: ChaosStats,
}

/// Whether `from` lies in one partition group and `to` in another.
pub open spec fn separated(partitions: Seq<Set<Seq<char>>>, from: Seq<char>, to: Seq<char>) -> bool {
    exists|i: int, j: int|
        0 <= i < partitions.len() && 0 <= j < partitions.len() && i != j && #[trigger] partitions[i].contains(from)
            && #[trigger] partitions[j].contains(to)
}

/// Whether the injected faults let `from` reach `to`: always while chaos is disabled;
/// otherwise when neither end is crashed and no partition separates them.
pub open spec fn link_allowed(v: ChaosView, from: Seq<char>, to: Seq<char>) -> bool {
    !v.enabled || (!v.crashed.contains(from) && !v.crashed.contains(to) && !separated(v.partitions, from, to))
}

/// The engine with one more value added to a statistic.
pub open spec fn with_stats(v: ChaosView, stats: ChaosStats) -> ChaosView {
    ChaosView { stats, ..v }
}

/// The clock reading `now_ms` moved by `drift_ms`, where the reading is taken as a
/// signed 64-bit value; a sum past the `i64` range stays at its end, and a negative
/// time reads as 0.
pub open spec fn drifted_time(now_ms: u64, drift_ms: i64) -> u64 {
    let now = now_ms as i64;
    let sum = now + drift_ms;
    if sum < 0 {
        0
    } else if sum > i64::MAX {
        i64::MAX as u64
    } else {
        sum as u64
    }
}

/// Removes every node with identifier `id`, keeping the rest in order.
fn remove_id(v: &mut Vec<NodeId>, id: &NodeId)
    ensures
        ids_of(final(v)@) == without(ids_of(old(v)@), id@),
{
    let ghost all = ids_of(v@);
    let mut kept: Vec<NodeId> = Vec::new();
    let mut i: usize = 0;
    assert(all.take(0) =~= Seq::<Seq<char>>::empty());
    while i < v.len()
        invariant
            i <= v.len(),
            all == ids_of(v@),
            ids_of(kept@) == without(all.take(i as int), id@),
        decreases v.len() - i,
    {
        assert(all.take(i + 1).drop_last() =~= all.take(i as int));
        assert(all.take(i + 1).last() == v@[i as int]@);
        if v[i] != *id {
            let ghost before = ids_of(kept@);
            let c = v[i].clone();
            kept.push(c);
            assert(ids_of(kept@) =~= before.push(c@));
        }
        i = i + 1;
    }
    assert(all.take(i as int) =~= all);
    *v = kept;
}

/// Chaos injection engine
pub struct ChaosEngine {
    /// Delay range in milliseconds (min, max)
    pub delay_range_ms: (u64, u64),
    /// Clock drift in milliseconds (can be negative)
    pub clock_drift_ms: i64,
    /// Currently partitioned node groups
    partitions: Vec<Vec<NodeId>>,
    /// Currently crashed nodes
    crashed_nodes: Vec<NodeId>,
    /// Whether chaos is enabled
    pub enabled: bool,
    /// Statistics
    stats: ChaosStats,
}

/// The partition groups as sets of identifiers.
pub open spec fn group_sets(v: Seq<Vec<NodeId>>) -> Seq<Set<Seq<char>>> {
    v.map_values(|g: Vec<NodeId>| ids_of(g@).to_set())
}

impl View for ChaosEngine {
    type V = ChaosView;

    closed spec fn view(&self) -> ChaosView {
        ChaosView {
            delay_range_ms: self.delay_range_ms,
            clock_drift_ms: self.clock_drift_ms,
            partitions: group_sets(self.partitions@),
            crashed: ids_of(self.crashed_nodes@).to_set(),
            enabled: self.enabled,
            stats: self.stats,
        }
    }
}

impl ChaosEngine {
    /// An engine that injects nothing: disabled, no delay, no drift, no faults.
    pub fn new() -> (r: Self)
        ensures
            r@.delay_range_ms == (0u64, 0u64),
            r@.clock_drift_ms == 0,
            r@.partitions.len() == 0,
            r@.crashed == Set::<Seq<char>>::empty(),
            !r@.enabled,
            r@.stats == zero_stats(),
    {
        let r = ChaosEngine {
            delay_range_ms: (0, 0),
            clock_drift_ms: 0,
            partitions: Vec::new(),
            crashed_nodes: Vec::new(),
            enabled: false,
            stats: ChaosStats::default(),
        };
        assert(r@.crashed =~= Set::<Seq<char>>::empty());
        r
    }

    /// An enabled engine with delays of 10 to 500 ms and a drift of 100 ms.
    pub fn aggressive() -> (r: Self)
        ensures
            r@.delay_range_ms == (10u64, 500u64),
            r@.clock_drift_ms == 100,
            r@.partitions.len() == 0,
            r@.crashed == Set::<Seq<char>>::empty(),
            r@.enabled,
            r@.stats == zero_stats(),
    {
        let r = ChaosEngine {
            delay_range_ms: (10, 500),
            clock_drift_ms: 100,
            partitions: Vec::new(),
            crashed_nodes: Vec::new(),
            enabled: true,
            stats: ChaosStats::default(),
        };
        assert(r@.crashed =~= Set::<Seq<char>>::empty());
        r
    }

    /// Should this packet be dropped? `drawn_drop` is the outcome of the random draw
    /// against the drop rate; it decides only while chaos is enabled, and a drop is
    /// counted.
    pub fn should_drop_packet(&mut self, _from: &NodeId, _to: &NodeId, drawn_drop: bool) -> (r: bool)
        ensures
            r == (old(self)@.enabled && drawn_drop),
            final(self)@ == if r {
                with_stats(old(self)@, ChaosStats { packets_dropped: bumped(old(self)@.stats.packets_dropped), ..old(self)@.stats })
            } else {
                old(self)@
            },
    {
        if !self.enabled {
            return false;
        }
        if drawn_drop {
            self.stats.packets_dropped = bump(self.stats.packets_dropped);
            return true;
        }
        false
    }

    /// Get delay for a packet in milliseconds: the low end of the delay range plus
    /// `drawn_offset`, the random share of its width that the caller drew. No delay
    /// while chaos is disabled or the range's high end is 0; a positive delay is
    /// counted.
    pub fn get_delay_ms(&mut self, _from: &NodeId, _to: &NodeId, drawn_offset: u64) -> (r: u64)
        requires
            old(self)@.enabled && old(self)@.delay_range_ms.1 != 0 ==> old(self)@.delay_range_ms.0 <= old(self)@.delay_range_ms.1
                && drawn_offset <= old(self)@.delay_range_ms.1 - old(self)@.delay_range_ms.0,
        ensures
            r == if !old(self)@.enabled || old(self)@.delay_range_ms.1 == 0 {
                0
            } else {
                old(self)@.delay_range_ms.0 + drawn_offset
            },
            final(self)@ == if r > 0 {
                with_stats(old(self)@, ChaosStats { packets_delayed: bumped(old(self)@.stats.packets_delayed), ..old(self)@.stats })
            } else {
                old(self)@
            },
    {
        if !self.enabled || self.delay_range_ms.1 == 0 {
            return 0;
        }
        let delay = self.delay_range_ms.0 + drawn_offset;
        if delay > 0 {
            self.stats.packets_delayed = bump(self.stats.packets_delayed);
        }
        delay
    }

    /// Create a network partition between two groups (while chaos is enabled).
    pub fn create_partition(&mut self, group_a: Vec<NodeId>, group_b: Vec<NodeId>)
        ensures
            final(self)@ == if old(self)@.enabled {
                ChaosView {
                    partitions: old(self)@.partitions.push(ids_of(group_a@).to_set()).push(ids_of(group_b@).to_set()),
                    stats: ChaosStats { partitions_created: bumped(old(self)@.stats.partitions_created), ..old(self)@.stats },
                    ..old(self)@
                }
            } else {
                old(self)@
            },
    {
        if !self.enabled {
            return;
        }
        let ghost before = self.partitions@;
        let ghost a = ids_of(group_a@).to_set();
        let ghost b = ids_of(group_b@).to_set();
        self.partitions.push(group_a);
        self.partitions.push(group_b);
        assert(group_sets(self.partitions@) =~= group_sets(before).push(a).push(b));
        self.stats.partitions_created = bump(self.stats.partitions_created);
    }

    /// Whether some partition group holds `from` and another holds `to`.
    fn partitions_separate(&self, from: &NodeId, to: &NodeId) -> (r: bool)
        ensures
            r == separated(self@.partitions, from@, to@),
    {
        let ghost parts = self@.partitions;
        let n = self.partitions.len();
        let mut i: usize = 0;
        while i < n
            invariant
                n == self.partitions.len(),
                parts == self@.partitions,
                parts.len() == n,
                i <= n,
                forall|a: int, b: int|
                    0 <= a < i && 0 <= b < n && a != b ==> !(#[trigger] parts[a].contains(from@) && #[trigger] parts[b].contains(to@)),
            decreases n - i,
        {
            if holds_id(&self.partitions[i], from) {
                assert(parts[i as int].contains(from@));
                let mut j: usize = 0;
                while j < n
                    invariant
                        n == self.partitions.len(),
                        parts == self@.partitions,
                        parts.len() == n,
                        i < n,
                        j <= n,
                        parts[i as int].contains(from@),
                        forall|b: int| 0 <= b < j && b != i ==> !(#[trigger] parts[b].contains(to@)),
                    decreases n - j,
                {
                    if i != j && holds_id(&self.partitions[j], to) {
                        assert(parts[j as int].contains(to@));
                        return true;
                    }
                    j = j + 1;
                }
            }
            i = i + 1;
        }
        false
    }

    /// Check if two nodes can communicate. While chaos is enabled, a crashed end or a
    /// partition between the two blocks the link; otherwise `drawn_break` is the
    /// outcome of the random draw against the partition probability, and a broken
    /// connection is counted.
    pub fn can_communicate(&mut self, from: &NodeId, to: &NodeId, drawn_break: bool) -> (r: bool)
        ensures
            r == (link_allowed(old(self)@, from@, to@) && !(old(self)@.enabled && drawn_break)),
            final(self)@ == if old(self)@.enabled && link_allowed(old(self)@, from@, to@) && drawn_break {
                with_stats(old(self)@, ChaosStats { connections_broken: bumped(old(self)@.stats.connections_broken), ..old(self)@.stats })
            } else {
                old(self)@
            },
    {
        if !self.enabled {
            return true;
        }
        if holds_id(&self.crashed_nodes, from) || holds_id(&self.crashed_nodes, to) {
            return false;
        }
        if self.partitions_separate(from, to) {
            return false;
        }
        if drawn_break {
            self.stats.connections_broken = bump(self.stats.connections_broken);
            return false;
        }
        true
    }

    /// Crash a node (while chaos is enabled); each crash is counted.
    pub fn crash_node(&mut self, node_id: NodeId)
        ensures
            final(self)@ == if old(self)@.enabled {
                ChaosView {
                    crashed: old(self)@.crashed.insert(node_id@),
                    stats: ChaosStats { nodes_crashed: bumped(old(self)@.stats.nodes_crashed), ..old(self)@.stats },
                    ..old(self)@
                }
            } else {
                old(self)@
            },
    {
        if !self.enabled {
            return;
        }
        let ghost before = ids_of(self.crashed_nodes@);
        let ghost id = node_id@;
        if !holds_id(&self.crashed_nodes, &node_id) {
            self.crashed_nodes.push(node_id);
            assert(ids_of(self.crashed_nodes@) =~= before.push(id));
        }
        assert(ids_of(self.crashed_nodes@) == with_added(before, id));
        assert(ids_of(self.crashed_nodes@).to_set() =~= before.to_set().insert(id)) by {
            broadcast use vstd::seq_lib::lemma_seq_contains_after_push;
        }
        self.stats.nodes_crashed = bump(self.stats.nodes_crashed);
    }

    /// Recover a crashed node
    pub fn recover_node(&mut self, node_id: &NodeId)
        ensures
            final(self)@ == (ChaosView { crashed: old(self)@.crashed.remove(node_id@), ..old(self)@ }),
    {
        let ghost before = ids_of(self.crashed_nodes@);
        remove_id(&mut self.crashed_nodes, node_id);
        assert forall|y: Seq<char>| ids_of(self.crashed_nodes@).to_set().contains(y) <==> before.to_set().remove(node_id@).contains(y) by {
            lemma_without_contains(before, node_id@, y);
        }
        assert(ids_of(self.crashed_nodes@).to_set() =~= before.to_set().remove(node_id@));
    }

    /// Heal all partitions
    pub fn heal_partitions(&mut self)
        ensures
            final(self)@ == (ChaosView { partitions: Seq::<Set<Seq<char>>>::empty(), ..old(self)@ }),
    {
        self.partitions = Vec::new();
        assert(group_sets(self.partitions@) =~= Seq::<Set<Seq<char>>>::empty());
    }

    /// The clock reading `now_ms` (milliseconds since the Unix epoch) with the
    /// engine's drift applied.
    pub fn time_with_drift(&self, now_ms: u64) -> (r: u64)
        ensures
            r == drifted_time(now_ms, self@.clock_drift_ms),
    {
        let now = now_ms as i64;
        match now.checked_add(self.clock_drift_ms) {
            Some(sum) => {
                if sum < 0 {
                    0
                } else {
                    sum as u64
                }
            },
            None => {
                if self.clock_drift_ms < 0 {
                    0
                } else {
                    i64::MAX as u64
                }
            },
        }
    }

    /// Get current time with drift
    pub fn get_time_with_drift(&self) -> (r: u64)
        ensures
            exists|now_ms: u64| r == drifted_time(now_ms, self@.clock_drift_ms),
    {
        let now = crate::clock::now_millis();
        self.time_with_drift(now)
    }

    /// Is a node crashed?
    pub fn is_crashed(&self, node_id: &NodeId) -> (r: bool)
        ensures
            r == self@.crashed.contains(node_id@),
    {
        holds_id(&self.crashed_nodes, node_id)
    }

    /// Get statistics
    pub fn get_stats(&self) -> (r: ChaosStats)
        ensures
            r == self@.stats,
    {
        self.stats.clone()
    }

    /// Reset statistics
    pub fn reset_stats(&mut self)
        ensures
            final(self)@ == with_stats(old(self)@, zero_stats()),
    {
        self.stats = ChaosStats::default();
    }

    /// Reset all chaos state
    pub fn reset(&mut self)
        ensures
            final(self)@ == (ChaosView {
                partitions: Seq::<Set<Seq<char>>>::empty(),
                crashed: Set::<Seq<char>>::empty(),
                stats: zero_stats(),
                ..old(self)@
            }),
    {
        self.partitions = Vec::new();
        self.crashed_nodes = Vec::new();
        self.reset_stats();
        assert(group_sets(self.partitions@) =~= Seq::<Set<Seq<char>>>::empty());
        assert(ids_of(self.crashed_nodes@).to_set() =~= Set::<Seq<char>>::empty());
    }

    /// Enable or disable chaos injection
    pub fn set_enabled(&mut self, enabled: bool)
        ensures
            final(self)@ == (ChaosView { enabled, ..old(self)@ }),
    {
        self.enabled = enabled;
    }
}

impl Default for ChaosEngine {
    fn default() -> (r: Self)
        ensures
            r@.delay_range_ms == (0u64, 0u64),
            r@.clock_drift_ms == 0,
            r@.partitions.len() == 0,
            r@.crashed == Set::<Seq<char>>::empty(),
            !r@.enabled,
            r@.stats == zero_stats(),
    {
        ChaosEngine::new()
    }
}

/// A crashed node reaches nobody and nobody reaches it while chaos is enabled,
/// whatever the random draw.
pub proof fn lemma_crashed_isolated(v: ChaosView, crashed: Seq<char>, other: Seq<char>)
    requires
        v.enabled,
        v.crashed.contains(crashed),
    ensures
        !link_allowed(v, crashed, other),
        !link_allowed(v, other, crashed),
{
}

/// After a partition is created between two groups, no member of the first reaches a
/// member of the second, nor the other way round, until the partitions are healed.
pub proof fn lemma_partition_separates(parts: Seq<Set<Seq<char>>>, a: Set<Seq<char>>, b: Set<Seq<char>>, x: Seq<char>, y: Seq<char>)
    requires
        a.contains(x),
        b.contains(y),
    ensures
        separated(parts.push(a).push(b), x, y),
        separated(parts.push(a).push(b), y, x),
{
    let p = parts.push(a).push(b);
    let i = parts.len() as int;
    assert(p[i] == a);
    assert(p[i + 1] == b);
    assert(p[i].contains(x) && p[i + 1].contains(y));
    assert(p[i + 1].contains(y) && p[i].contains(x));
}

/// With no partitions, nothing separates two nodes.
pub proof fn lemma_healed_unseparated(x: Seq<char>, y: Seq<char>)
    ensures
        !separated(Seq::<Set<Seq<char>>>::empty(), x, y),
{
}

/// Crashing a node and then recovering it leaves it uncrashed.
pub proof fn lemma_crash_then_recover(crashed: Set<Seq<char>>, id: Seq<char>)
    ensures
        crashed.insert(id).contains(id),
        !crashed.insert(id).remove(id).contains(id),
{
}

} // verus!
