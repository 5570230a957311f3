//! Packet delivery verification: detecting nodes that drop packets.

use vstd::prelude::*;

use crate::baselines::ids_of;
use crate::chat::with_added;
use crate::clock::now_ns;
use crate::coordinates::{holds_id, NodeId};

verus! {

/// A packet awaiting delivery, as the contracts see it.
pub struct PendingView {
    pub packet_id: Seq<char>,
    pub path: Seq<Seq<char>>,
    pub sent_time_ns: u64,
}

/// The packets pending between one source and one destination.
pub struct GroupView {
    pub source: Seq<char>,
    pub dest: Seq<char>,
    pub packets: Seq<PendingView>,
}

/// The verifier as the contracts see it.
pub struct VerifierView {
    pub pending: Seq<GroupView>,
    pub drop_counts: Seq<(Seq<char>, nat)>,
    pub timeout_ns: nat,
}

/// Where the group for the pair `(source, dest)` is kept.
pub open spec fn find_group(groups: Seq<GroupView>, source: Seq<char>, dest: Seq<char>) -> Option<int>
    decreases groups.len(),
{
    if groups.len() == 0 {
        None
    } else if groups.last().source == source && groups.last().dest == dest {
        Some(groups.len() - 1)
    } else {
        find_group(groups.drop_last(), source, dest)
    }
}

/// Where the drop count of node `id` is kept.
pub open spec fn find_count(counts: Seq<(Seq<char>, nat)>, id: Seq<char>) -> Option<int>
    decreases counts.len(),
{
    if counts.len() == 0 {
        None
    } else if counts.last().0 == id {
        Some(counts.len() - 1)
    } else {
        find_count(counts.drop_last(), id)
    }
}

/// The pending groups after a send of `p` from `source` to `dest`.
pub open spec fn with_send(groups: Seq<GroupView>, source: Seq<char>, dest: Seq<char>, p: PendingView) -> Seq<GroupView> {
    match find_group(groups, source, dest) {
        Some(g) => groups.update(g, GroupView { packets: groups[g].packets.push(p), ..groups[g] }),
        None => groups.push(GroupView { source, dest, packets: seq![p] }),
    }
}

/// The packets other than those with identifier `id`, in order.
pub open spec fn without_packet(packets: Seq<PendingView>, id: Seq<char>) -> Seq<PendingView>
    decreases packets.len(),
{
    if packets.len() == 0 {
        packets
    } else if packets.last().packet_id == id {
        without_packet(packets.drop_last(), id)
    } else {
        without_packet(packets.drop_last(), id).push(packets.last())
    }
}

/// The time that has passed since `sent`; a clock reading before `sent` counts as none.
pub open spec fn elapsed(now: u64, sent: u64) -> nat {
    if now >= sent {
        (now - sent) as nat
    } else {
        0
    }
}

/// A packet has timed out when more than the timeout has passed since it was sent.
pub open spec fn timed_out(p: PendingView, now: u64, timeout_ns: nat) -> bool {
    elapsed(now, p.sent_time_ns) > timeout_ns
}

/// The packets that have not timed out, in order.
pub open spec fn live_packets(packets: Seq<PendingView>, now: u64, timeout_ns: nat) -> Seq<PendingView>
    decreases packets.len(),
{
    if packets.len() == 0 {
        packets
    } else if timed_out(packets.last(), now, timeout_ns) {
        live_packets(packets.drop_last(), now, timeout_ns)
    } else {
        live_packets(packets.drop_last(), now, timeout_ns).push(packets.last())
    }
}

/// One more drop blamed on `id` (a count at the top of `usize` stays there).
pub open spec fn bump(counts: Seq<(Seq<char>, nat)>, id: Seq<char>) -> Seq<(Seq<char>, nat)> {
    match find_count(counts, id) {
        Some(i) => counts.update(
            i,
            (id, if counts[i].1 < usize::MAX {
                counts[i].1 + 1
            } else {
                counts[i].1
            }),
        ),
        None => counts.push((id, 1)),
    }
}

/// The counts after blaming, for each timed-out packet in order, the last node of its
/// known path (a packet with an empty path blames nobody).
pub open spec fn blame_packets(counts: Seq<(Seq<char>, nat)>, packets: Seq<PendingView>, now: u64, timeout_ns: nat) -> Seq<(Seq<char>, nat)>
    decreases packets.len(),
{
    if packets.len() == 0 {
        counts
    } else {
        let before = blame_packets(counts, packets.drop_last(), now, timeout_ns);
        let p = packets.last();
        if timed_out(p, now, timeout_ns) && p.path.len() > 0 {
            bump(before, p.path.last())
        } else {
            before
        }
    }
}

/// The counts after blaming the timed-out packets of every group, group by group.
pub open spec fn blame_groups(counts: Seq<(Seq<char>, nat)>, groups: Seq<GroupView>, now: u64, timeout_ns: nat) -> Seq<(Seq<char>, nat)>
    decreases groups.len(),
{
    if groups.len() == 0 {
        counts
    } else {
        blame_packets(blame_groups(counts, groups.drop_last(), now, timeout_ns), groups.last().packets, now, timeout_ns)
    }
}

/// The groups with their timed-out packets removed.
pub open spec fn prune_groups(groups: Seq<GroupView>, now: u64, timeout_ns: nat) -> Seq<GroupView> {
    Seq::new(
        groups.len(),
        |g: int| GroupView { packets: live_packets(groups[g].packets, now, timeout_ns), ..groups[g] },
    )
}

/// The verifier after a send from `source` to `dest` of packet `packet_id` along
/// `path`, at time `now`.
pub open spec fn after_send(v: VerifierView, source: Seq<char>, dest: Seq<char>, packet_id: Seq<char>, path: Seq<Seq<char>>, now: u64) -> VerifierView {
    VerifierView {
        pending: with_send(v.pending, source, dest, PendingView { packet_id, path, sent_time_ns: now }),
        ..v
    }
}

/// The verifier after packet `packet_id` from `source` to `dest` is delivered.
pub open spec fn after_delivery(v: VerifierView, source: Seq<char>, dest: Seq<char>, packet_id: Seq<char>) -> VerifierView {
    VerifierView {
        pending: match find_group(v.pending, source, dest) {
            Some(g) => v.pending.update(g, GroupView { packets: without_packet(v.pending[g].packets, packet_id), ..v.pending[g] }),
            None => v.pending,
        },
        ..v
    }
}

struct PendingPacket {
    packet_id: String,
    path: Vec<NodeId>,
    sent_time_ns: u64,
}

impl PendingPacket {
    spec fn view_of(&self) -> PendingView {
        PendingView { packet_id: self.packet_id@, path: ids_of(self.path@), sent_time_ns: self.sent_time_ns }
    }
}

spec fn packet_views(v: Seq<PendingPacket>) -> Seq<PendingView> {
    v.map_values(|p: PendingPacket| p.view_of())
}

struct PendingGroup {
    source: NodeId,
    dest: NodeId,
    packets: Vec<PendingPacket>,
}

impl PendingGroup {
    spec fn view_of(&self) -> GroupView {
        GroupView { source: self.source@, dest: self.dest@, packets: packet_views(self.packets@) }
    }
}

spec fn group_views(v: Seq<PendingGroup>) -> Seq<GroupView> {
    v.map_values(|g: PendingGroup| g.view_of())
}

/// The identifiers and counts of a list of drop counts.
pub open spec fn count_views(v: Seq<(NodeId, usize)>) -> Seq<(Seq<char>, nat)> {
    v.map_values(|c: (NodeId, usize)| (c.0@, c.1 as nat))
}

/// No two groups are for the same source and destination.
pub open spec fn pairs_unique(groups: Seq<GroupView>) -> bool {
    forall|i: int, j: int|
        0 <= i < groups.len() && 0 <= j < groups.len() && i != j ==> !((#[trigger] groups[i]).source == (#[trigger] groups[j]).source
            && groups[i].dest == groups[j].dest)
}

/// Each node has at most one drop count, and every count is at least one.
pub open spec fn counts_wf(counts: Seq<(Seq<char>, nat)>) -> bool {
    &&& forall|i: int, j: int| 0 <= i < counts.len() && 0 <= j < counts.len() && i != j ==> (#[trigger] counts[i]).0 != (#[trigger] counts[j]).0
    &&& forall|i: int| 0 <= i < counts.len() ==> (#[trigger] counts[i]).1 >= 1
}

/// The invariant of a verifier: one group per pair, one count per node.
pub open spec fn verifier_wf(v: VerifierView) -> bool {
    pairs_unique(v.pending) && counts_wf(v.drop_counts)
}

/// Packet delivery verifier for detecting intentional drops
pub struct DeliveryVerifier {
    /// Expected packets per source-destination pair
    pending: Vec<PendingGroup>,
    /// Drop counts per node
    drop_counts: Vec<(NodeId, usize)>,
    /// Timeout before packet is considered dropped (nanoseconds)
    timeout_ns: u64,
}

impl View for DeliveryVerifier {
    type V = VerifierView;

    closed spec fn view(&self) -> VerifierView {
        VerifierView {
            pending: group_views(self.pending@),
            drop_counts: count_views(self.drop_counts@),
            timeout_ns: self.timeout_ns as nat,
        }
    }
}

impl DeliveryVerifier {
    /// The invariant of the verifier.
    pub open spec fn wf(&self) -> bool {
        verifier_wf(self@)
    }

    /// A verifier with nothing pending, no drops counted, and the given timeout.
    pub fn new(timeout_ms: u64) -> (r: Self)
        requires
            timeout_ms * 1_000_000 <= u64::MAX,
        ensures
            r.wf(),
            r@.pending.len() == 0,
            r@.drop_counts.len() == 0,
            r@.timeout_ns == timeout_ms * 1_000_000,
    {
        DeliveryVerifier { pending: Vec::new(), drop_counts: Vec::new(), timeout_ns: timeout_ms * 1_000_000 }
    }

    fn group_slot(&self, source: &NodeId, dest: &NodeId) -> (r: Option<usize>)
        ensures
            r matches Some(i) ==> find_group(self@.pending, source@, dest@) == Some(i as int) && i < self@.pending.len(),
            r is None ==> find_group(self@.pending, source@, dest@) is None,
    {
        let mut i = self.pending.len();
        assert(self@.pending.take(i as int) =~= self@.pending);
        while i > 0
            invariant
                i <= self.pending.len(),
                find_group(self@.pending, source@, dest@) == find_group(self@.pending.take(i as int), source@, dest@),
            decreases i,
        {
            if self.pending[i - 1].source == *source && self.pending[i - 1].dest == *dest {
                return Some(i - 1);
            }
            assert(self@.pending.take(i as int).drop_last() =~= self@.pending.take(i - 1));
            i = i - 1;
        }
        assert(self@.pending.take(0) =~= Seq::<GroupView>::empty());
        None
    }

    /// Records a packet sent at time `now` (nanoseconds).
    pub fn record_send_at(&mut self, source: NodeId, dest: NodeId, packet_id: &str, path: Vec<NodeId>, now: u64)
        requires
            old(self).wf(),
        ensures
            final(self).wf(),
            final(self)@ == after_send(old(self)@, source@, dest@, packet_id@, ids_of(path@), now),
    {
        let packet = PendingPacket { packet_id: packet_id.to_owned(), path, sent_time_ns: now };
        let ghost pv = packet.view_of();
        match self.group_slot(&source, &dest) {
            Some(g) => {
                let ghost before = self@.pending;
                self.pending[g].packets.push(packet);
                assert(packet_views(self.pending@[g as int].packets@) =~= before[g as int].packets.push(pv));
                assert(self@.pending =~= before.update(g as int, GroupView { packets: before[g as int].packets.push(pv), ..before[g as int] }));
            },
            None => {
                let ghost before = self@.pending;
                let mut packets: Vec<PendingPacket> = Vec::new();
                packets.push(packet);
                let group = PendingGroup { source, dest, packets };
                assert(packet_views(group.packets@) =~= seq![pv]);
                self.pending.push(group);
                assert(self@.pending =~= before.push(group.view_of()));
            },
        }
        proof {
            lemma_with_send_unique(old(self)@.pending, source@, dest@, pv);
        }
    }

    /// Record a packet being sent, stamped with the current clock reading.
    pub fn record_send(&mut self, source: NodeId, dest: NodeId, packet_id: &str, path: Vec<NodeId>)
        requires
            old(self).wf(),
        ensures
            final(self).wf(),
            exists|now: u64| final(self)@ == after_send(old(self)@, source@, dest@, packet_id@, ids_of(path@), now),
    {
        let now = now_ns();
        self.record_send_at(source, dest, packet_id, path, now);
    }

    /// Record a packet being delivered: it is no longer pending.
    pub fn record_delivery(&mut self, source: &NodeId, dest: &NodeId, packet_id: &str)
        requires
            old(self).wf(),
        ensures
            final(self).wf(),
            final(self)@ == after_delivery(old(self)@, source@, dest@, packet_id@),
    {
        let g = match self.group_slot(source, dest) {
            Some(g) => g,
            None => return,
        };
        let target = packet_id.to_owned();
        let ghost before = self@.pending;
        let ghost all = before[g as int].packets;
        let mut kept: Vec<PendingPacket> = Vec::new();
        let mut old_packets: Vec<PendingPacket> = Vec::new();
        std::mem::swap(&mut old_packets, &mut self.pending[g].packets);
        assert(packet_views(old_packets@) == all);
        let n = old_packets.len();
        let mut i: usize = 0;
        assert(all.take(0) =~= Seq::<PendingView>::empty());
        assert(packet_views(kept@) =~= Seq::<PendingView>::empty());
        while i < n
            invariant
                i <= n,
                all.len() == n,
                target@ == packet_id@,
                packet_views(kept@) == without_packet(all.take(i as int), packet_id@),
                old_packets@.len() == n - i,
                packet_views(old_packets@) == all.skip(i as int),
            decreases n - i,
        {
            let p = old_packets.remove(0);
            assert(all.take(i + 1).drop_last() =~= all.take(i as int));
            assert(all.skip(i as int)[0] == p.view_of());
            assert(all.take(i + 1).last() == all[i as int]);
            assert(all.skip(i + 1) =~= all.skip(i as int).drop_first());
            if p.packet_id != target {
                let ghost kb = packet_views(kept@);
                let ghost pv = p.view_of();
                kept.push(p);
                assert(packet_views(kept@) =~= kb.push(pv));
            }
            i = i + 1;
        }
        assert(all.take(n as int) =~= all);
        self.pending[g].packets = kept;
        assert(self@.pending =~= before.update(g as int, GroupView { packets: without_packet(all, packet_id@), ..before[g as int] }));
    }
}


impl DeliveryVerifier {
    fn count_slot(&self, id: &NodeId) -> (r: Option<usize>)
        ensures
            r matches Some(i) ==> find_count(self@.drop_counts, id@) == Some(i as int) && i < self@.drop_counts.len(),
            r is None ==> find_count(self@.drop_counts, id@) is None,
    {
        let mut i = self.drop_counts.len();
        assert(self@.drop_counts.take(i as int) =~= self@.drop_counts);
        while i > 0
            invariant
                i <= self.drop_counts.len(),
                find_count(self@.drop_counts, id@) == find_count(self@.drop_counts.take(i as int), id@),
            decreases i,
        {
            if self.drop_counts[i - 1].0 == *id {
                return Some(i - 1);
            }
            assert(self@.drop_counts.take(i as int).drop_last() =~= self@.drop_counts.take(i - 1));
            i = i - 1;
        }
        assert(self@.drop_counts.take(0) =~= Seq::<(Seq<char>, nat)>::empty());
        None
    }

    /// Blames one more drop on `id`.
    fn blame(&mut self, id: &NodeId)
        requires
            counts_wf(old(self)@.drop_counts),
        ensures
            counts_wf(final(self)@.drop_counts),
            final(self)@ == (VerifierView { drop_counts: bump(old(self)@.drop_counts, id@), ..old(self)@ }),
    {
        let ghost before = self@.drop_counts;
        match self.count_slot(id) {
            Some(i) => {
                let c = self.drop_counts[i].1;
                let next = if c < usize::MAX {
                    c + 1
                } else {
                    c
                };
                let entry = (id.clone(), next);
                self.drop_counts.set(i, entry);
                proof {
                    lemma_find_count_found(before, id@);
                }
                assert(self@.drop_counts =~= before.update(i as int, (id@, next as nat)));
            },
            None => {
                let entry = (id.clone(), 1usize);
                self.drop_counts.push(entry);
                assert(self@.drop_counts =~= before.push((id@, 1nat)));
            },
        }
        proof {
            lemma_bump_wf(before, id@);
        }
    }

    /// Check, at time `now` (nanoseconds), for timed-out packets: each is no longer
    /// pending and counts as a drop by the last node of its known path. Returns every
    /// node's drop count.
    pub fn check_drops_at(&mut self, now: u64) -> (r: Vec<(NodeId, usize)>)
        requires
            old(self).wf(),
        ensures
            final(self).wf(),
            counts_wf(count_views(r@)),
            final(self)@.pending == prune_groups(old(self)@.pending, now, old(self)@.timeout_ns),
            final(self)@.drop_counts == blame_groups(old(self)@.drop_counts, old(self)@.pending, now, old(self)@.timeout_ns),
            final(self)@.timeout_ns == old(self)@.timeout_ns,
            count_views(r@) == final(self)@.drop_counts,
    {
        let ghost v0 = self@;
        let ghost t = self@.timeout_ns;
        let n = self.pending.len();
        let mut g: usize = 0;
        assert(v0.pending.take(0) =~= Seq::<GroupView>::empty());
        while g < n
            invariant
                n == self.pending.len(),
                n == v0.pending.len(),
                g <= n,
                self@.timeout_ns == t,
                t == v0.timeout_ns,
                self@.drop_counts == blame_groups(v0.drop_counts, v0.pending.take(g as int), now, t),
                counts_wf(self@.drop_counts),
                forall|a: int| 0 <= a < g ==> #[trigger] self@.pending[a] == prune_groups(v0.pending, now, t)[a],
                forall|a: int| g <= a < n ==> #[trigger] self@.pending[a] == v0.pending[a],
            decreases n - g,
        {
            let ghost all = v0.pending[g as int].packets;
            let ghost counts0 = self@.drop_counts;
            assert(self@.pending[g as int] == v0.pending[g as int]);
            assert(packet_views(self.pending@[g as int].packets@) == all);
            let ghost pre_exec = self.pending@;
            let ghost pre = self@.pending;
            let mut old_packets: Vec<PendingPacket> = Vec::new();
            std::mem::swap(&mut old_packets, &mut self.pending[g].packets);
            assert(packet_views(old_packets@) == all);
            assert forall|a: int| 0 <= a < n && a != g implies #[trigger] self@.pending[a] == pre[a] by {
                assert(self.pending@[a] == pre_exec[a]);
            }
            let m = old_packets.len();
            let mut kept: Vec<PendingPacket> = Vec::new();
            let mut i: usize = 0;
            assert(all.take(0) =~= Seq::<PendingView>::empty());
            assert(packet_views(kept@) =~= Seq::<PendingView>::empty());
            while i < m
                invariant
                    n == self@.pending.len(),
                    g < n,
                    i <= m,
                    all.len() == m,
                    self@.timeout_ns == t,
                    old_packets@.len() == m - i,
                    packet_views(old_packets@) == all.skip(i as int),
                    packet_views(kept@) == live_packets(all.take(i as int), now, t),
                    self@.drop_counts == blame_packets(counts0, all.take(i as int), now, t),
                    counts_wf(self@.drop_counts),
                    forall|a: int| 0 <= a < g ==> #[trigger] self@.pending[a] == prune_groups(v0.pending, now, t)[a],
                    forall|a: int| g < a < n ==> #[trigger] self@.pending[a] == v0.pending[a],
                    self@.pending[g as int].source == v0.pending[g as int].source,
                    self@.pending[g as int].dest == v0.pending[g as int].dest,
                decreases m - i,
            {
                let p = old_packets.remove(0);
                assert(all.take(i + 1).drop_last() =~= all.take(i as int));
                assert(all.skip(i as int)[0] == p.view_of());
                assert(all.take(i + 1).last() == all[i as int]);
                assert(all.skip(i + 1) =~= all.skip(i as int).drop_first());
                let gone = if now >= p.sent_time_ns {
                    now - p.sent_time_ns > self.timeout_ns
                } else {
                    0 > self.timeout_ns
                };
                if gone {
                    let len = p.path.len();
                    if len > 0 {
                        self.blame(&p.path[len - 1]);
                    }
                } else {
                    let ghost kb = packet_views(kept@);
                    let ghost pv = p.view_of();
                    kept.push(p);
                    assert(packet_views(kept@) =~= kb.push(pv));
                }
                i = i + 1;
            }
            assert(all.take(m as int) =~= all);
            assert(self.pending@.len() == self@.pending.len());
            let ghost pre_exec2 = self.pending@;
            let ghost pre2 = self@.pending;
            self.pending[g].packets = kept;
            assert forall|a: int| 0 <= a < n && a != g implies #[trigger] self@.pending[a] == pre2[a] by {
                assert(self.pending@[a] == pre_exec2[a]);
            }
            assert(self@.pending[g as int] == prune_groups(v0.pending, now, t)[g as int]);
            assert(v0.pending.take(g + 1).drop_last() =~= v0.pending.take(g as int));
            assert(v0.pending.take(g + 1).last() == v0.pending[g as int]);
            g = g + 1;
        }
        assert(v0.pending.take(n as int) =~= v0.pending);
        assert(self@.pending =~= prune_groups(v0.pending, now, t));
        proof {
            lemma_pairs_unique_same_keys(v0.pending, self@.pending);
        }
        let mut out: Vec<(NodeId, usize)> = Vec::new();
        let mut k: usize = 0;
        while k < self.drop_counts.len()
            invariant
                k <= self.drop_counts.len(),
                count_views(out@) == self@.drop_counts.take(k as int),
            decreases self.drop_counts.len() - k,
        {
            let ghost ob = count_views(out@);
            let entry = (self.drop_counts[k].0.clone(), self.drop_counts[k].1);
            out.push(entry);
            assert(count_views(out@) =~= ob.push((entry.0@, entry.1 as nat)));
            k = k + 1;
            assert(count_views(out@) =~= self@.drop_counts.take(k as int));
        }
        assert(self@.drop_counts.take(k as int) =~= self@.drop_counts);
        out
    }

    /// Check for timed-out packets at the current clock reading and identify suspected
    /// droppers (see `check_drops_at`).
    pub fn check_drops(&mut self) -> (r: Vec<(NodeId, usize)>)
        requires
            old(self).wf(),
        ensures
            final(self).wf(),
            counts_wf(count_views(r@)),
            exists|now: u64| {
                &&& final(self)@.pending == prune_groups(old(self)@.pending, now, old(self)@.timeout_ns)
                &&& final(self)@.drop_counts == blame_groups(old(self)@.drop_counts, old(self)@.pending, now, old(self)@.timeout_ns)
            },
            final(self)@.timeout_ns == old(self)@.timeout_ns,
            count_views(r@) == final(self)@.drop_counts,
    {
        let now = now_ns();
        self.check_drops_at(now)
    }
}

/// What the count lookup finds is in range and carries the identifier.
pub proof fn lemma_find_count_found(counts: Seq<(Seq<char>, nat)>, id: Seq<char>)
    ensures
        find_count(counts, id) matches Some(x) ==> 0 <= x < counts.len() && counts[x].0 == id,
    decreases counts.len(),
{
    if counts.len() > 0 && counts.last().0 != id {
        lemma_find_count_found(counts.drop_last(), id);
    }
}


impl Default for DeliveryVerifier {
    /// A verifier with a five-second timeout.
    fn default() -> (r: Self)
        ensures
            r.wf(),
            r@.pending.len() == 0,
            r@.drop_counts.len() == 0,
            r@.timeout_ns == 5_000_000_000,
    {
        DeliveryVerifier::new(5000)
    }
}

/// The blacklist after listing, in order, each node whose drop count exceeds
/// `max_drops`; a node already listed stays where it is.
pub open spec fn list_offenders(list: Seq<Seq<char>>, counts: Seq<(Seq<char>, nat)>, max_drops: nat) -> Seq<Seq<char>>
    decreases counts.len(),
{
    if counts.len() == 0 {
        list
    } else {
        let before = list_offenders(list, counts.drop_last(), max_drops);
        if counts.last().1 > max_drops {
            with_added(before, counts.last().0)
        } else {
            before
        }
    }
}

/// The router's own state, as the contracts see it.
pub struct ByzantineView {
    pub verifier: VerifierView,
    pub blacklist: Seq<Seq<char>>,
    pub max_drops: nat,
}

/// Byzantine-tolerant routing decision
pub struct ByzantineRouter {
    pub verifier: DeliveryVerifier,
    /// Blacklisted nodes
    blacklist: Vec<NodeId>,
    /// Maximum drop count before blacklisting
    max_drops: usize,
}

impl View for ByzantineRouter {
    type V = ByzantineView;

    closed spec fn view(&self) -> ByzantineView {
        ByzantineView { verifier: self.verifier@, blacklist: ids_of(self.blacklist@), max_drops: self.max_drops as nat }
    }
}

impl ByzantineRouter {
    /// The invariant of the router: that of its verifier.
    pub open spec fn wf(&self) -> bool {
        verifier_wf(self@.verifier)
    }

    /// A router with a default verifier, an empty blacklist and a limit of five drops.
    pub fn new() -> (r: Self)
        ensures
            r.wf(),
            r@.verifier.pending.len() == 0,
            r@.verifier.drop_counts.len() == 0,
            r@.verifier.timeout_ns == 5_000_000_000,
            r@.blacklist.len() == 0,
            r@.max_drops == 5,
    {
        let r = ByzantineRouter { verifier: DeliveryVerifier::default(), blacklist: Vec::new(), max_drops: 5 };
        assert(r@.blacklist =~= Seq::<Seq<char>>::empty());
        r
    }

    /// Check if a node is blacklisted
    pub fn is_blacklisted(&self, node_id: &NodeId) -> (r: bool)
        ensures
            r == self@.blacklist.contains(node_id@),
    {
        holds_id(&self.blacklist, node_id)
    }

    /// Add node to blacklist
    pub fn blacklist_node(&mut self, node_id: NodeId)
        ensures
            final(self)@.blacklist == with_added(old(self)@.blacklist, node_id@),
            final(self)@.max_drops == old(self)@.max_drops,
            final(self)@.verifier == old(self)@.verifier,
    {
        if !self.is_blacklisted(&node_id) {
            let ghost before = self@.blacklist;
            let ghost id = node_id@;
            self.blacklist.push(node_id);
            assert(self@.blacklist =~= before.push(id));
        }
    }

    /// Lists each node whose drop count exceeds the limit, after checking for drops
    /// at time `now` (nanoseconds; see `DeliveryVerifier::check_drops_at`).
    pub fn update_blacklist_at(&mut self, now: u64)
        requires
            old(self).wf(),
        ensures
            final(self).wf(),
            final(self)@.verifier.pending == prune_groups(old(self)@.verifier.pending, now, old(self)@.verifier.timeout_ns),
            final(self)@.verifier.drop_counts == blame_groups(old(self)@.verifier.drop_counts, old(self)@.verifier.pending, now, old(self)@.verifier.timeout_ns),
            final(self)@.verifier.timeout_ns == old(self)@.verifier.timeout_ns,
            final(self)@.blacklist == list_offenders(old(self)@.blacklist, final(self)@.verifier.drop_counts, old(self)@.max_drops),
            final(self)@.max_drops == old(self)@.max_drops,
    {
        let drops = self.verifier.check_drops_at(now);
        self.list_over_limit(&drops);
    }

    /// Update blacklist based on drop counts, checked at the current clock reading.
    pub fn update_blacklist(&mut self)
        requires
            old(self).wf(),
        ensures
            final(self).wf(),
            exists|now: u64| {
                &&& final(self)@.verifier.pending == prune_groups(old(self)@.verifier.pending, now, old(self)@.verifier.timeout_ns)
                &&& final(self)@.verifier.drop_counts == blame_groups(old(self)@.verifier.drop_counts, old(self)@.verifier.pending, now, old(self)@.verifier.timeout_ns)
            },
            final(self)@.verifier.timeout_ns == old(self)@.verifier.timeout_ns,
            final(self)@.blacklist == list_offenders(old(self)@.blacklist, final(self)@.verifier.drop_counts, old(self)@.max_drops),
            final(self)@.max_drops == old(self)@.max_drops,
    {
        let ghost v0 = self@.verifier;
        let drops = self.verifier.check_drops();
        let ghost now = choose|now: u64| {
            &&& self@.verifier.pending == prune_groups(v0.pending, now, v0.timeout_ns)
            &&& self@.verifier.drop_counts == blame_groups(v0.drop_counts, v0.pending, now, v0.timeout_ns)
        };
        self.list_over_limit(&drops);
        assert(self@.verifier.pending == prune_groups(v0.pending, now, v0.timeout_ns));
    }

    fn list_over_limit(&mut self, drops: &Vec<(NodeId, usize)>)
        ensures
            final(self)@.blacklist == list_offenders(old(self)@.blacklist, count_views(drops@), old(self)@.max_drops),
            final(self)@.max_drops == old(self)@.max_drops,
            final(self)@.verifier == old(self)@.verifier,
    {
        let ghost start = self@.blacklist;
        let ghost counts = count_views(drops@);
        let mut k: usize = 0;
        assert(counts.take(0) =~= Seq::<(Seq<char>, nat)>::empty());
        while k < drops.len()
            invariant
                k <= drops.len(),
                counts == count_views(drops@),
                self@.max_drops == old(self)@.max_drops,
                self@.verifier == old(self)@.verifier,
                self@.blacklist == list_offenders(start, counts.take(k as int), self@.max_drops),
            decreases drops.len() - k,
        {
            assert(counts.take(k + 1).drop_last() =~= counts.take(k as int));
            assert(counts.take(k + 1).last() == counts[k as int]);
            if drops[k].1 > self.max_drops {
                let id = drops[k].0.clone();
                self.blacklist_node(id);
            }
            k = k + 1;
        }
        assert(counts.take(k as int) =~= counts);
    }

    /// Get all blacklisted nodes
    pub fn get_blacklist(&self) -> (r: Vec<NodeId>)
        ensures
            ids_of(r@) == self@.blacklist,
    {
        let mut out: Vec<NodeId> = Vec::new();
        let mut i: usize = 0;
        while i < self.blacklist.len()
            invariant
                i <= self.blacklist.len(),
                ids_of(out@) == self@.blacklist.take(i as int),
            decreases self.blacklist.len() - i,
        {
            let ghost before = ids_of(out@);
            let id = self.blacklist[i].clone();
            out.push(id);
            assert(ids_of(out@) =~= before.push(self@.blacklist[i as int]));
            i = i + 1;
            assert(ids_of(out@) =~= self@.blacklist.take(i as int));
        }
        assert(self@.blacklist.take(i as int) =~= self@.blacklist);
        out
    }
}

impl Default for ByzantineRouter {
    /// The router of `new`.
    fn default() -> (r: Self)
        ensures
            r.wf(),
            r@.verifier.pending.len() == 0,
            r@.verifier.drop_counts.len() == 0,
            r@.verifier.timeout_ns == 5_000_000_000,
            r@.blacklist.len() == 0,
            r@.max_drops == 5,
    {
        ByzantineRouter::new()
    }
}


/// A send keeps one group per pair.
proof fn lemma_with_send_unique(groups: Seq<GroupView>, source: Seq<char>, dest: Seq<char>, p: PendingView)
    requires
        pairs_unique(groups),
    ensures
        pairs_unique(with_send(groups, source, dest, p)),
{
    lemma_find_group_found(groups, source, dest);
    lemma_find_group_absent(groups, source, dest);
    let w = with_send(groups, source, dest, p);
    match find_group(groups, source, dest) {
        Some(g) => {
            lemma_pairs_unique_same_keys(groups, w);
        },
        None => {
            assert forall|i: int, j: int| 0 <= i < w.len() && 0 <= j < w.len() && i != j implies !((#[trigger] w[i]).source == (#[trigger] w[j]).source
                && w[i].dest == w[j].dest) by {
                if i < groups.len() {
                    assert(w[i] == groups[i]);
                }
                if j < groups.len() {
                    assert(w[j] == groups[j]);
                }
            }
        },
    }
}

/// A pair the group lookup does not find has no group.
proof fn lemma_find_group_absent(groups: Seq<GroupView>, source: Seq<char>, dest: Seq<char>)
    ensures
        find_group(groups, source, dest) is None ==> forall|i: int|
            0 <= i < groups.len() ==> !((#[trigger] groups[i]).source == source && groups[i].dest == dest),
    decreases groups.len(),
{
    if groups.len() > 0 {
        lemma_find_group_absent(groups.drop_last(), source, dest);
        assert forall|i: int| 0 <= i < groups.len() - 1 implies groups.drop_last()[i] == groups[i] by {}
    }
}

/// A node the count lookup does not find has no count.
proof fn lemma_find_count_absent(counts: Seq<(Seq<char>, nat)>, id: Seq<char>)
    ensures
        find_count(counts, id) is None ==> forall|i: int| 0 <= i < counts.len() ==> (#[trigger] counts[i]).0 != id,
    decreases counts.len(),
{
    if counts.len() > 0 {
        lemma_find_count_absent(counts.drop_last(), id);
        assert forall|i: int| 0 <= i < counts.len() - 1 implies counts.drop_last()[i] == counts[i] by {}
    }
}

/// Blaming a drop keeps one count per node, each at least one.
proof fn lemma_bump_wf(counts: Seq<(Seq<char>, nat)>, id: Seq<char>)
    requires
        counts_wf(counts),
    ensures
        counts_wf(bump(counts, id)),
{
    lemma_find_count_found(counts, id);
    lemma_find_count_absent(counts, id);
    let b = bump(counts, id);
    match find_count(counts, id) {
        Some(x) => {
            assert forall|i: int, j: int| 0 <= i < b.len() && 0 <= j < b.len() && i != j implies (#[trigger] b[i]).0 != (#[trigger] b[j]).0 by {
                assert(b[i].0 == counts[i].0);
                assert(b[j].0 == counts[j].0);
            }
            assert forall|i: int| 0 <= i < b.len() implies (#[trigger] b[i]).1 >= 1 by {
                assert(counts[i].1 >= 1);
            }
        },
        None => {
            assert forall|i: int, j: int| 0 <= i < b.len() && 0 <= j < b.len() && i != j implies (#[trigger] b[i]).0 != (#[trigger] b[j]).0 by {
                if i < counts.len() {
                    assert(b[i] == counts[i]);
                }
                if j < counts.len() {
                    assert(b[j] == counts[j]);
                }
            }
            assert forall|i: int| 0 <= i < b.len() implies (#[trigger] b[i]).1 >= 1 by {
                if i < counts.len() {
                    assert(b[i] == counts[i]);
                }
            }
        },
    }
}

/// Groups whose sources and destinations stay as they were keep one group per pair.
proof fn lemma_pairs_unique_same_keys(a: Seq<GroupView>, b: Seq<GroupView>)
    requires
        pairs_unique(a),
        a.len() == b.len(),
        forall|i: int| 0 <= i < a.len() ==> (#[trigger] b[i]).source == a[i].source && b[i].dest == a[i].dest,
    ensures
        pairs_unique(b),
{
    assert forall|i: int, j: int| 0 <= i < b.len() && 0 <= j < b.len() && i != j implies !((#[trigger] b[i]).source == (#[trigger] b[j]).source
        && b[i].dest == b[j].dest) by {
        assert(a[i].source == b[i].source && a[j].source == b[j].source);
    }
}

/// What the group lookup finds is in range and belongs to the pair.
pub proof fn lemma_find_group_found(groups: Seq<GroupView>, source: Seq<char>, dest: Seq<char>)
    ensures
        find_group(groups, source, dest) matches Some(g) ==> 0 <= g < groups.len() && groups[g].source == source
            && groups[g].dest == dest,
    decreases groups.len(),
{
    if groups.len() > 0 && !(groups.last().source == source && groups.last().dest == dest) {
        lemma_find_group_found(groups.drop_last(), source, dest);
    }
}

/// Replacing the group that the lookup finds by one for the same pair leaves the lookup
/// where it was.
proof fn lemma_find_group_update(groups: Seq<GroupView>, source: Seq<char>, dest: Seq<char>, g: int, x: GroupView)
    requires
        find_group(groups, source, dest) == Some(g),
        x.source == source,
        x.dest == dest,
    ensures
        find_group(groups.update(g, x), source, dest) == Some(g),
    decreases groups.len(),
{
    lemma_find_group_found(groups, source, dest);
    if g != groups.len() - 1 {
        assert(groups.update(g, x).drop_last() =~= groups.drop_last().update(g, x));
        lemma_find_group_update(groups.drop_last(), source, dest, g, x);
    }
}

/// The packets kept by `without_packet` are those of the input with another identifier.
pub proof fn lemma_without_packet(packets: Seq<PendingView>, id: Seq<char>)
    ensures
        forall|k: int| 0 <= k < without_packet(packets, id).len() ==> (#[trigger] without_packet(packets, id)[k]).packet_id != id
            && packets.contains(without_packet(packets, id)[k]),
        forall|k: int| 0 <= k < packets.len() && (#[trigger] packets[k]).packet_id != id ==> without_packet(packets, id).contains(packets[k]),
    decreases packets.len(),
{
    if packets.len() > 0 {
        let rest = packets.drop_last();
        lemma_without_packet(rest, id);
        let w = without_packet(packets, id);
        let wr = without_packet(rest, id);
        assert forall|k: int| 0 <= k < w.len() implies (#[trigger] w[k]).packet_id != id && packets.contains(w[k]) by {
            if k < wr.len() {
                assert(w[k] == wr[k]);
                let j = choose|j: int| 0 <= j < rest.len() && rest[j] == wr[k];
                assert(packets[j] == rest[j]);
            } else {
                assert(packets[packets.len() - 1] == packets.last());
            }
        }
        assert forall|k: int| 0 <= k < packets.len() && (#[trigger] packets[k]).packet_id != id implies w.contains(packets[k]) by {
            if k < packets.len() - 1 {
                assert(rest[k] == packets[k]);
                let j = choose|j: int| 0 <= j < wr.len() && wr[j] == rest[k];
                assert(w[j] == wr[j]);
            } else {
                assert(w[w.len() - 1] == packets.last());
            }
        }
    }
}

/// A delivered packet is no longer pending: after the delivery of `packet_id` from
/// `source` to `dest`, no packet of that pair's group has that identifier, and every
/// other packet of the group is still there.
pub proof fn lemma_delivery_clears(v: VerifierView, source: Seq<char>, dest: Seq<char>, packet_id: Seq<char>)
    ensures
        find_group(after_delivery(v, source, dest, packet_id).pending, source, dest) == find_group(v.pending, source, dest),
        find_group(v.pending, source, dest) matches Some(g) ==> {
            let kept = after_delivery(v, source, dest, packet_id).pending[g].packets;
            &&& forall|k: int| 0 <= k < kept.len() ==> (#[trigger] kept[k]).packet_id != packet_id
            &&& forall|k: int| 0 <= k < v.pending[g].packets.len() && (#[trigger] v.pending[g].packets[k]).packet_id != packet_id
                ==> kept.contains(v.pending[g].packets[k])
        },
{
    lemma_find_group_found(v.pending, source, dest);
    if let Some(g) = find_group(v.pending, source, dest) {
        let x = GroupView { packets: without_packet(v.pending[g].packets, packet_id), ..v.pending[g] };
        lemma_find_group_update(v.pending, source, dest, g, x);
        lemma_without_packet(v.pending[g].packets, packet_id);
    }
}

/// A sent packet is pending: after a send, the group of the pair holds the packet as
/// its newest entry, after the packets it held before.
pub proof fn lemma_send_then_pending(v: VerifierView, source: Seq<char>, dest: Seq<char>, packet_id: Seq<char>, path: Seq<Seq<char>>, now: u64)
    ensures
        find_group(after_send(v, source, dest, packet_id, path, now).pending, source, dest) matches Some(g) && {
            let group = after_send(v, source, dest, packet_id, path, now).pending[g];
            &&& group.packets.last() == (PendingView { packet_id, path, sent_time_ns: now })
            &&& group.packets.drop_last() == (match find_group(v.pending, source, dest) {
                Some(h) => v.pending[h].packets,
                None => Seq::<PendingView>::empty(),
            })
        },
{
    let p = PendingView { packet_id, path, sent_time_ns: now };
    lemma_find_group_found(v.pending, source, dest);
    match find_group(v.pending, source, dest) {
        Some(g) => {
            let x = GroupView { packets: v.pending[g].packets.push(p), ..v.pending[g] };
            lemma_find_group_update(v.pending, source, dest, g, x);
            assert(x.packets.drop_last() =~= v.pending[g].packets);
        },
        None => {
            let x = GroupView { source, dest, packets: seq![p] };
            assert(v.pending.push(x).drop_last() =~= v.pending);
            assert(seq![p].drop_last() =~= Seq::<PendingView>::empty());
        },
    }
}

/// Packets none of which has identifier `id` are all kept by `without_packet`.
proof fn lemma_without_absent(packets: Seq<PendingView>, id: Seq<char>)
    requires
        forall|k: int| 0 <= k < packets.len() ==> (#[trigger] packets[k]).packet_id != id,
    ensures
        without_packet(packets, id) == packets,
    decreases packets.len(),
{
    if packets.len() > 0 {
        lemma_without_absent(packets.drop_last(), id);
        assert(packets.drop_last().push(packets.last()) =~= packets);
    }
}

/// Delivery undoes a send: a packet sent from `source` to `dest` under an identifier
/// that no packet pending for that pair has, then delivered, leaves the verifier as it
/// was, except that a pair with no group before keeps one with no packets. Nothing is
/// left pending for the packet, so no later check blames a node for it.
pub proof fn lemma_send_then_delivery(
    v: VerifierView,
    source: Seq<char>,
    dest: Seq<char>,
    packet_id: Seq<char>,
    path: Seq<Seq<char>>,
    now: u64,
)
    requires
        find_group(v.pending, source, dest) matches Some(g) ==> forall|k: int|
            0 <= k < v.pending[g].packets.len() ==> (#[trigger] v.pending[g].packets[k]).packet_id != packet_id,
    ensures
        after_delivery(after_send(v, source, dest, packet_id, path, now), source, dest, packet_id) == (match find_group(
            v.pending,
            source,
            dest,
        ) {
            Some(_) => v,
            None => VerifierView { pending: v.pending.push(GroupView { source, dest, packets: Seq::empty() }), ..v },
        }),
{
    let p = PendingView { packet_id, path, sent_time_ns: now };
    let w = after_send(v, source, dest, packet_id, path, now);
    lemma_find_group_found(v.pending, source, dest);
    match find_group(v.pending, source, dest) {
        Some(g) => {
            let old_packets = v.pending[g].packets;
            let x = GroupView { packets: old_packets.push(p), ..v.pending[g] };
            lemma_find_group_update(v.pending, source, dest, g, x);
            lemma_without_absent(old_packets, packet_id);
            assert(old_packets.push(p).drop_last() =~= old_packets);
            assert(old_packets.push(p).last() == p);
            assert(without_packet(old_packets.push(p), packet_id) == without_packet(old_packets, packet_id));
            assert(after_delivery(w, source, dest, packet_id).pending =~= v.pending);
        },
        None => {
            let x = GroupView { source, dest, packets: seq![p] };
            let n = v.pending.len() as int;
            assert(w.pending == v.pending.push(x));
            assert(w.pending.last() == x);
            assert(find_group(w.pending, source, dest) == Some(n));
            assert(seq![p].drop_last() =~= Seq::<PendingView>::empty());
            assert(without_packet(seq![p], packet_id) == without_packet(Seq::<PendingView>::empty(), packet_id));
            assert(after_delivery(w, source, dest, packet_id).pending =~= v.pending.push(
                GroupView { source, dest, packets: Seq::empty() },
            ));
        },
    }
}

/// The drop count of node `x`: none counts as zero.
pub open spec fn drops_of(counts: Seq<(Seq<char>, nat)>, x: Seq<char>) -> nat {
    match find_count(counts, x) {
        Some(i) => counts[i].1,
        None => 0,
    }
}

/// Whether packet `p` has timed out with a known path that ends at node `x`.
pub open spec fn blames(p: PendingView, now: u64, timeout_ns: nat, x: Seq<char>) -> bool {
    timed_out(p, now, timeout_ns) && p.path.len() > 0 && p.path.last() == x
}

/// The packets blamed on node `x`.
pub open spec fn blamed_on(now: u64, timeout_ns: nat, x: Seq<char>) -> spec_fn(PendingView) -> bool {
    |p: PendingView| blames(p, now, timeout_ns, x)
}

/// Every pending packet, group after group.
pub open spec fn all_packets(groups: Seq<GroupView>) -> Seq<PendingView> {
    groups.map_values(|g: GroupView| g.packets).flatten()
}

/// One more drop blamed on `id` raises its count by one and leaves every other count.
proof fn lemma_bump_drops(counts: Seq<(Seq<char>, nat)>, id: Seq<char>, x: Seq<char>)
    requires
        drops_of(counts, id) < usize::MAX,
    ensures
        drops_of(bump(counts, id), x) == drops_of(counts, x) + if x == id { 1nat } else { 0nat },
    decreases counts.len(),
{
    lemma_find_count_found(counts, id);
    match find_count(counts, id) {
        Some(i) => {
            let b = counts.update(i, (id, (counts[i].1 + 1) as nat));
            assert(b == bump(counts, id));
            assert forall|k: int| 0 <= k < counts.len() implies (#[trigger] counts[k]).0 == b[k].0 by {}
            lemma_find_count_same_ids(counts, b, x);
            lemma_find_count_found(counts, x);
        },
        None => {
            let b = bump(counts, id);
            assert(b.drop_last() =~= counts);
            lemma_find_count_found(counts, x);
            if x != id {
                assert(find_count(b, x) == find_count(counts, x));
                if let Some(j) = find_count(counts, x) {
                    assert(b[j] == counts[j]);
                }
            }
        },
    }
}

/// The count lookup depends on the identifiers alone.
proof fn lemma_find_count_same_ids(a: Seq<(Seq<char>, nat)>, b: Seq<(Seq<char>, nat)>, x: Seq<char>)
    requires
        a.len() == b.len(),
        forall|k: int| 0 <= k < a.len() ==> (#[trigger] a[k]).0 == b[k].0,
    ensures
        find_count(a, x) == find_count(b, x),
    decreases a.len(),
{
    if a.len() > 0 {
        assert(a.last().0 == b.last().0);
        assert forall|k: int| 0 <= k < a.len() - 1 implies (#[trigger] a.drop_last()[k]).0 == b.drop_last()[k].0 by {
            assert(a.drop_last()[k] == a[k]);
            assert(b.drop_last()[k] == b[k]);
        }
        lemma_find_count_same_ids(a.drop_last(), b.drop_last(), x);
    }
}

/// Each timed-out packet with a known path is blamed on the last node of that path: a
/// node's drop count goes up by exactly the number of timed-out packets whose path
/// ends at it, and the count of a node at which no such path ends stays as it was
/// (counts far enough below the top of `usize` not to saturate).
pub proof fn lemma_blame_last_hop(counts: Seq<(Seq<char>, nat)>, packets: Seq<PendingView>, now: u64, timeout_ns: nat, x: Seq<char>)
    requires
        forall|y: Seq<char>| drops_of(counts, y) + packets.len() < usize::MAX,
    ensures
        drops_of(blame_packets(counts, packets, now, timeout_ns), x) == drops_of(counts, x) + packets.filter(blamed_on(now, timeout_ns, x)).len(),
    decreases packets.len(),
{
    if packets.len() > 0 {
        let rest = packets.drop_last();
        let p = packets.last();
        let before = blame_packets(counts, rest, now, timeout_ns);
        let f = blamed_on(now, timeout_ns, x);
        lemma_blame_last_hop(counts, rest, now, timeout_ns, x);
        rest.lemma_filter_push(p, f);
        assert(rest.push(p) =~= packets);
        assert(packets.filter(f) == if f(p) {
            rest.filter(f).push(p)
        } else {
            rest.filter(f)
        });
        if timed_out(p, now, timeout_ns) && p.path.len() > 0 {
            let id = p.path.last();
            lemma_blame_last_hop(counts, rest, now, timeout_ns, id);
            rest.lemma_filter_len(blamed_on(now, timeout_ns, id));
            assert(drops_of(counts, id) + rest.len() < usize::MAX);
            lemma_bump_drops(before, id, x);
        }
    }
}

/// Blaming two runs of packets one after the other is blaming them together.
proof fn lemma_blame_concat(counts: Seq<(Seq<char>, nat)>, a: Seq<PendingView>, b: Seq<PendingView>, now: u64, timeout_ns: nat)
    ensures
        blame_packets(counts, a + b, now, timeout_ns) == blame_packets(blame_packets(counts, a, now, timeout_ns), b, now, timeout_ns),
    decreases b.len(),
{
    if b.len() == 0 {
        assert(a + b =~= a);
    } else {
        assert((a + b).drop_last() =~= a + b.drop_last());
        assert((a + b).last() == b.last());
        lemma_blame_concat(counts, a, b.drop_last(), now, timeout_ns);
    }
}

/// A check blames the groups' packets as one run, group after group.
proof fn lemma_blame_groups_flat(counts: Seq<(Seq<char>, nat)>, groups: Seq<GroupView>, now: u64, timeout_ns: nat)
    ensures
        blame_groups(counts, groups, now, timeout_ns) == blame_packets(counts, all_packets(groups), now, timeout_ns),
    decreases groups.len(),
{
    let f = |g: GroupView| g.packets;
    if groups.len() == 0 {
        assert(all_packets(groups) =~= Seq::<PendingView>::empty());
    } else {
        let rest = groups.drop_last();
        lemma_blame_groups_flat(counts, rest, now, timeout_ns);
        assert(groups.map_values(f) =~= rest.map_values(f).push(groups.last().packets));
        rest.map_values(f).lemma_flatten_push(groups.last().packets);
        lemma_blame_concat(counts, all_packets(rest), groups.last().packets, now, timeout_ns);
    }
}

/// A check for drops blames each timed-out packet with a known path on the last node
/// of that path: across all pending groups, a node's drop count goes up by exactly the
/// number of timed-out packets whose path ends at it (counts far enough below the top
/// of `usize` not to saturate).
pub proof fn lemma_check_blames_last_hops(counts: Seq<(Seq<char>, nat)>, groups: Seq<GroupView>, now: u64, timeout_ns: nat, x: Seq<char>)
    requires
        forall|y: Seq<char>| drops_of(counts, y) + all_packets(groups).len() < usize::MAX,
    ensures
        drops_of(blame_groups(counts, groups, now, timeout_ns), x) == drops_of(counts, x) + all_packets(groups).filter(blamed_on(now, timeout_ns, x)).len(),
{
    lemma_blame_groups_flat(counts, groups, now, timeout_ns);
    lemma_blame_last_hop(counts, all_packets(groups), now, timeout_ns, x);
}

/// The packets kept by `live_packets` are exactly those of the input that have not
/// timed out.
pub proof fn lemma_live_packets(packets: Seq<PendingView>, now: u64, timeout_ns: nat)
    ensures
        forall|k: int| 0 <= k < live_packets(packets, now, timeout_ns).len() ==> {
            &&& !timed_out(#[trigger] live_packets(packets, now, timeout_ns)[k], now, timeout_ns)
            &&& packets.contains(live_packets(packets, now, timeout_ns)[k])
        },
        forall|k: int| 0 <= k < packets.len() && !timed_out(#[trigger] packets[k], now, timeout_ns)
            ==> live_packets(packets, now, timeout_ns).contains(packets[k]),
    decreases packets.len(),
{
    if packets.len() > 0 {
        let rest = packets.drop_last();
        lemma_live_packets(rest, now, timeout_ns);
        let w = live_packets(packets, now, timeout_ns);
        let wr = live_packets(rest, now, timeout_ns);
        assert forall|k: int| 0 <= k < w.len() implies !timed_out(#[trigger] w[k], now, timeout_ns) && packets.contains(w[k]) by {
            if k < wr.len() {
                assert(w[k] == wr[k]);
                let j = choose|j: int| 0 <= j < rest.len() && rest[j] == wr[k];
                assert(packets[j] == rest[j]);
            } else {
                assert(packets[packets.len() - 1] == packets.last());
            }
        }
        assert forall|k: int| 0 <= k < packets.len() && !timed_out(#[trigger] packets[k], now, timeout_ns) implies w.contains(packets[k]) by {
            if k < packets.len() - 1 {
                assert(rest[k] == packets[k]);
                let j = choose|j: int| 0 <= j < wr.len() && wr[j] == rest[k];
                assert(w[j] == wr[j]);
            } else {
                assert(w[w.len() - 1] == packets.last());
            }
        }
    }
}

/// After a check at time `now`, nothing that is still pending has timed out at `now`,
/// and every packet that had not timed out is still pending in its group.
pub proof fn lemma_check_leaves_live(groups: Seq<GroupView>, now: u64, timeout_ns: nat)
    ensures
        prune_groups(groups, now, timeout_ns).len() == groups.len(),
        forall|g: int, k: int| 0 <= g < groups.len() && 0 <= k < prune_groups(groups, now, timeout_ns)[g].packets.len()
            ==> !timed_out(#[trigger] prune_groups(groups, now, timeout_ns)[g].packets[k], now, timeout_ns),
        forall|g: int, k: int| 0 <= g < groups.len() && 0 <= k < groups[g].packets.len()
            && !timed_out(#[trigger] groups[g].packets[k], now, timeout_ns)
            ==> prune_groups(groups, now, timeout_ns)[g].packets.contains(groups[g].packets[k]),
{
    assert forall|g: int, k: int| 0 <= g < groups.len() && 0 <= k < prune_groups(groups, now, timeout_ns)[g].packets.len()
        implies !timed_out(#[trigger] prune_groups(groups, now, timeout_ns)[g].packets[k], now, timeout_ns) by {
        lemma_live_packets(groups[g].packets, now, timeout_ns);
    }
    assert forall|g: int, k: int| 0 <= g < groups.len() && 0 <= k < groups[g].packets.len()
        && !timed_out(#[trigger] groups[g].packets[k], now, timeout_ns)
        implies prune_groups(groups, now, timeout_ns)[g].packets.contains(groups[g].packets[k]) by {
        lemma_live_packets(groups[g].packets, now, timeout_ns);
    }
}

/// Blacklisting lists the node, keeps every node listed before in its place, and lists
/// no node twice when none was listed twice before.
pub proof fn lemma_blacklisting_lists(list: Seq<Seq<char>>, id: Seq<char>)
    ensures
        with_added(list, id).contains(id),
        with_added(list, id).take(list.len() as int) == list,
        list.no_duplicates() ==> with_added(list, id).no_duplicates(),
{
    if !list.contains(id) {
        assert(list.push(id)[list.len() as int] == id);
        assert(list.push(id).take(list.len() as int) =~= list);
    } else {
        assert(list.take(list.len() as int) =~= list);
    }
}

/// After a blacklist update, every node whose drop count exceeds the limit is listed,
/// every node listed before stays in its place, every listed node was listed before
/// or is over the limit, and no node is listed twice when none was before.
pub proof fn lemma_offenders_listed(list: Seq<Seq<char>>, counts: Seq<(Seq<char>, nat)>, max_drops: nat)
    ensures
        forall|i: int| 0 <= i < counts.len() && (#[trigger] counts[i]).1 > max_drops
            ==> list_offenders(list, counts, max_drops).contains(counts[i].0),
        list_offenders(list, counts, max_drops).len() >= list.len(),
        list_offenders(list, counts, max_drops).take(list.len() as int) == list,
        forall|k: int| 0 <= k < list_offenders(list, counts, max_drops).len() ==>
            list.contains(#[trigger] list_offenders(list, counts, max_drops)[k])
            || exists|i: int| 0 <= i < counts.len() && counts[i].1 > max_drops && counts[i].0 == list_offenders(list, counts, max_drops)[k],
        list.no_duplicates() ==> list_offenders(list, counts, max_drops).no_duplicates(),
    decreases counts.len(),
{
    if counts.len() == 0 {
        assert(list.take(list.len() as int) =~= list);
    } else {
        let rest = counts.drop_last();
        lemma_offenders_listed(list, rest, max_drops);
        let before = list_offenders(list, rest, max_drops);
        let r = list_offenders(list, counts, max_drops);
        let c = counts.last();
        if c.1 > max_drops {
            lemma_blacklisting_lists(before, c.0);
            assert(r.take(before.len() as int) == before);
            assert(r.take(list.len() as int) =~= before.take(list.len() as int)) by {
                assert forall|k: int| 0 <= k < list.len() implies r.take(list.len() as int)[k] == before.take(list.len() as int)[k] by {
                    assert(r.take(before.len() as int)[k] == before[k]);
                }
            }
        }
        assert forall|i: int| 0 <= i < counts.len() && (#[trigger] counts[i]).1 > max_drops implies r.contains(counts[i].0) by {
            if i < counts.len() - 1 {
                assert(rest[i] == counts[i]);
                assert(before.contains(counts[i].0));
                let j = choose|j: int| 0 <= j < before.len() && before[j] == counts[i].0;
                if c.1 > max_drops {
                    assert(r.take(before.len() as int)[j] == before[j]);
                }
            } else {
                lemma_blacklisting_lists(before, c.0);
            }
        }
        assert forall|k: int| 0 <= k < r.len() implies list.contains(#[trigger] r[k])
            || exists|i: int| 0 <= i < counts.len() && counts[i].1 > max_drops && counts[i].0 == r[k] by {
            if k < before.len() {
                if c.1 > max_drops {
                    lemma_blacklisting_lists(before, c.0);
                    assert(r.take(before.len() as int)[k] == before[k]);
                }
                assert(r[k] == before[k]);
                if !list.contains(before[k]) {
                    let i = choose|i: int| 0 <= i < rest.len() && rest[i].1 > max_drops && rest[i].0 == before[k];
                    assert(counts[i] == rest[i]);
                }
            } else {
                assert(counts[counts.len() - 1] == c);
            }
        }
        if c.1 > max_drops {
            lemma_blacklisting_lists(before, c.0);
        }
    }
}

/// Reading the blacklist after listing a node finds it; listing it again changes
/// nothing.
pub proof fn lemma_blacklist_idempotent(list: Seq<Seq<char>>, id: Seq<char>)
    ensures
        with_added(list, id).contains(id),
        with_added(with_added(list, id), id) == with_added(list, id),
{
    lemma_blacklisting_lists(list, id);
}


/// Blaming packets none of which has timed out changes no count.
proof fn lemma_blame_live_packets(counts: Seq<(Seq<char>, nat)>, packets: Seq<PendingView>, now: u64, timeout_ns: nat)
    ensures
        blame_packets(counts, live_packets(packets, now, timeout_ns), now, timeout_ns) == counts,
    decreases packets.len(),
{
    if packets.len() > 0 {
        let rest = packets.drop_last();
        lemma_blame_live_packets(counts, rest, now, timeout_ns);
        let l = live_packets(packets, now, timeout_ns);
        if !timed_out(packets.last(), now, timeout_ns) {
            assert(l.drop_last() =~= live_packets(rest, now, timeout_ns));
        }
    }
}

/// A packet is blamed once: checking again at the same time, after a check, blames
/// nothing more and leaves the pending packets as they are.
pub proof fn lemma_check_blames_once(counts: Seq<(Seq<char>, nat)>, groups: Seq<GroupView>, now: u64, timeout_ns: nat)
    ensures
        blame_groups(counts, prune_groups(groups, now, timeout_ns), now, timeout_ns) == counts,
        prune_groups(prune_groups(groups, now, timeout_ns), now, timeout_ns) == prune_groups(groups, now, timeout_ns),
    decreases groups.len(),
{
    let p = prune_groups(groups, now, timeout_ns);
    if groups.len() > 0 {
        let rest = groups.drop_last();
        lemma_check_blames_once(counts, rest, now, timeout_ns);
        assert(p.drop_last() =~= prune_groups(rest, now, timeout_ns));
        lemma_blame_live_packets(counts, groups.last().packets, now, timeout_ns);
        assert(p.last().packets == live_packets(groups.last().packets, now, timeout_ns));
    }
    assert forall|g: int| 0 <= g < p.len() implies #[trigger] prune_groups(p, now, timeout_ns)[g] == p[g] by {
        lemma_live_idempotent(groups[g].packets, now, timeout_ns);
    }
    assert(prune_groups(p, now, timeout_ns) =~= p);
}

/// Keeping the live packets twice keeps the same packets.
proof fn lemma_live_idempotent(packets: Seq<PendingView>, now: u64, timeout_ns: nat)
    ensures
        live_packets(live_packets(packets, now, timeout_ns), now, timeout_ns) == live_packets(packets, now, timeout_ns),
    decreases packets.len(),
{
    if packets.len() > 0 {
        let rest = packets.drop_last();
        lemma_live_idempotent(rest, now, timeout_ns);
        let l = live_packets(packets, now, timeout_ns);
        if !timed_out(packets.last(), now, timeout_ns) {
            assert(l.drop_last() =~= live_packets(rest, now, timeout_ns));
        }
    }
}

} // verus!
