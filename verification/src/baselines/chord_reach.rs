//! Chord routing reaches every member of a built ring.

use vstd::arithmetic::power2::{lemma_pow2_pos, pow2};
use vstd::prelude::*;

use crate::baselines::chord::{
    ascending, built_ring, chord_between, chord_hash, chord_next_hop, closest_preceding, finger_target, hash_le,
    chord_route, chord_walk, hash_lt, last_index_of, lemma_chord_hash_bound, lemma_last_index_of_found,
    lemma_last_index_of_member, lemma_sort_ascending, next_pos, successor_index, ChordView, RingEntry,
};
use crate::ordering::{insert_sorted, lead_count, lemma_lead_count, lemma_lead_count_facts, sort_by};

verus! {

/// Keys that a ring can be built from for routing: each position is the hash of its
/// identifier in a space narrower than 64 bits, and no two keys share a position.
pub open spec fn distinct_positions(keys: Seq<(Seq<char>, u64)>, m: nat) -> bool {
    &&& m < 64
    &&& forall|i: int| 0 <= i < keys.len() ==> (#[trigger] keys[i]).1 == chord_hash(keys[i].0, m)
    &&& forall|i: int, j: int| 0 <= i < j < keys.len() ==> (#[trigger] keys[i]).1 != (#[trigger] keys[j]).1
}

/// Sorting keeps the elements, counted with their multiplicity.
proof fn lemma_sort_by_multiset<A>(s: Seq<A>, le: spec_fn(A, A) -> bool)
    ensures
        sort_by(s, le).to_multiset() == s.to_multiset(),
    decreases s.len(),
{
    broadcast use vstd::seq_lib::group_to_multiset_ensures;

    if s.len() > 0 {
        let t = sort_by(s.drop_last(), le);
        lemma_sort_by_multiset(s.drop_last(), le);
        lemma_lead_count_facts(t, s.last(), le);
        let p = lead_count(t, s.last(), le) as int;
        assert(insert_sorted(t, s.last(), le) =~= t.insert(p, s.last()));
        assert(s =~= s.drop_last().push(s.last()));
    }
}

/// The sorted keys of a ring with distinct positions: the same keys, each once, with
/// positions strictly increasing, every position below `2^m`, and no identifier twice.
proof fn lemma_sorted_keys(keys: Seq<(Seq<char>, u64)>, m: nat)
    requires
        distinct_positions(keys, m),
    ensures
        sort_by(keys, hash_le()).len() == keys.len(),
        forall|i: int, j: int|
            0 <= i < j < keys.len() ==> (#[trigger] sort_by(keys, hash_le())[i]).1 < (#[trigger] sort_by(keys, hash_le())[j]).1,
        forall|i: int|
            0 <= i < keys.len() ==> keys.contains(#[trigger] sort_by(keys, hash_le())[i]),
        forall|j: int| 0 <= j < keys.len() ==> sort_by(keys, hash_le()).contains(#[trigger] keys[j]),
        forall|i: int|
            0 <= i < keys.len() ==> (#[trigger] sort_by(keys, hash_le())[i]).1 == chord_hash(sort_by(keys, hash_le())[i].0, m)
                && (sort_by(keys, hash_le())[i].1 as nat) < pow2(m),
        forall|i: int, j: int|
            0 <= i < keys.len() && 0 <= j < keys.len() && i != j ==> (#[trigger] sort_by(keys, hash_le())[i]).0
                != (#[trigger] sort_by(keys, hash_le())[j]).0,
{
    broadcast use vstd::seq_lib::group_to_multiset_ensures;

    let s = sort_by(keys, hash_le());
    lemma_sort_by_multiset(keys, hash_le());
    lemma_sort_ascending(keys);
    assert(ascending(s));
    assert(s.len() == keys.len()) by {
        assert(s.to_multiset().len() == s.len());
        assert(keys.to_multiset().len() == keys.len());
    }
    assert forall|i: int| 0 <= i < s.len() implies keys.contains(#[trigger] s[i]) by {
        assert(s.contains(s[i]));
        assert(s.to_multiset().count(s[i]) > 0);
    }
    assert forall|j: int| 0 <= j < keys.len() implies s.contains(#[trigger] keys[j]) by {
        assert(keys.contains(keys[j]));
        assert(keys.to_multiset().count(keys[j]) > 0);
    }
    assert(keys.no_duplicates()) by {
        assert forall|i: int, j: int| 0 <= i < keys.len() && 0 <= j < keys.len() && i != j implies keys[i] != keys[j] by {
            if i < j {
                assert(keys[i].1 != keys[j].1);
            } else {
                assert(keys[j].1 != keys[i].1);
            }
        }
    }
    keys.lemma_multiset_has_no_duplicates();
    assert forall|x: (Seq<char>, u64)| s.to_multiset().contains(x) implies s.to_multiset().count(x) == 1 by {}
    s.lemma_multiset_has_no_duplicates_conv();
    assert forall|i: int| 0 <= i < s.len() implies (#[trigger] s[i]).1 == chord_hash(s[i].0, m) && (s[i].1 as nat) < pow2(m) by {
        assert(keys.contains(s[i]));
        let k = choose|k: int| 0 <= k < keys.len() && keys[k] == s[i];
        assert(keys[k].1 == chord_hash(keys[k].0, m));
        lemma_chord_hash_bound(s[i].0, m);
    }
    assert forall|i: int, j: int| 0 <= i < j < s.len() implies (#[trigger] s[i]).1 < (#[trigger] s[j]).1 by {
        assert(s[i].1 <= s[j].1);
        assert(keys.contains(s[i]) && keys.contains(s[j]));
        let a = choose|a: int| 0 <= a < keys.len() && keys[a] == s[i];
        let b = choose|b: int| 0 <= b < keys.len() && keys[b] == s[j];
        assert(s[i] != s[j]);
        assert(a != b);
        if a < b {
            assert(keys[a].1 != keys[b].1);
        } else {
            assert(keys[b].1 != keys[a].1);
        }
    }
    assert forall|i: int, j: int| 0 <= i < s.len() && 0 <= j < s.len() && i != j implies (#[trigger] s[i]).0 != (#[trigger] s[j]).0 by {
        if s[i].0 == s[j].0 {
            assert(s[i].1 == chord_hash(s[i].0, m));
            assert(s[j].1 == chord_hash(s[j].0, m));
            if i < j {
                assert(s[i].1 < s[j].1);
            } else {
                assert(s[j].1 < s[i].1);
            }
        }
    }
}


/// The clockwise distance from position `a` to position `b` on the ring of `2^m`
/// points.
pub open spec fn cw(a: u64, b: u64, m: nat) -> int {
    (b as int - a as int) % (pow2(m) as int)
}

/// The ring built from `keys` with `m`-bit positions.
pub open spec fn ring_of(keys: Seq<(Seq<char>, u64)>, m: nat) -> ChordView {
    ChordView { nodes: built_ring(keys, m), m }
}

/// The stored nodes of a built ring: each found at its own index, positions strictly
/// increasing and below `2^m`.
proof fn lemma_ring_nodes(keys: Seq<(Seq<char>, u64)>, m: nat)
    requires
        distinct_positions(keys, m),
    ensures
        ring_of(keys, m).nodes.len() == keys.len(),
        forall|j: int| 0 <= j < keys.len() ==> last_index_of(ring_of(keys, m).nodes, #[trigger] ring_of(keys, m).nodes[j].id) == Some(j),
        forall|i: int, j: int|
            0 <= i < j < keys.len() ==> (#[trigger] ring_of(keys, m).nodes[i]).hash < (#[trigger] ring_of(keys, m).nodes[j]).hash,
        forall|i: int| 0 <= i < keys.len() ==> ((#[trigger] ring_of(keys, m).nodes[i]).hash as nat) < pow2(m),
{
    let s = sort_by(keys, hash_le());
    let nodes = ring_of(keys, m).nodes;
    lemma_sorted_keys(keys, m);
    assert forall|j: int| 0 <= j < keys.len() implies last_index_of(nodes, #[trigger] nodes[j].id) == Some(j) by {
        lemma_last_index_of_member(nodes, j);
        let x = last_index_of(nodes, nodes[j].id)->0;
        if x != j {
            assert(s[x].0 == s[j].0);
        }
    }
    assert forall|i: int, j: int| 0 <= i < j < keys.len() implies (#[trigger] nodes[i]).hash < (#[trigger] nodes[j]).hash by {
        assert(s[i].1 < s[j].1);
    }
    assert forall|i: int| 0 <= i < keys.len() implies ((#[trigger] nodes[i]).hash as nat) < pow2(m) by {
        assert(s[i].1 == nodes[i].hash);
    }
}

/// No node of a built ring lies strictly between a node and its successor.
proof fn lemma_successor_is_next(keys: Seq<(Seq<char>, u64)>, m: nat, ci: int, j: int)
    requires
        distinct_positions(keys, m),
        0 <= ci < keys.len(),
        0 <= j < keys.len(),
    ensures
        !chord_between(
            ring_of(keys, m).nodes[ci].hash,
            ring_of(keys, m).nodes[j].hash,
            ring_of(keys, m).nodes[next_pos(ring_of(keys, m), ci)].hash,
        ),
{
    lemma_ring_nodes(keys, m);
    let nodes = ring_of(keys, m).nodes;
    let n = keys.len() as int;
    if ci + 1 < n {
        if j < ci {
            assert(nodes[j].hash < nodes[ci].hash);
        } else if j > ci + 1 {
            assert(nodes[ci + 1].hash < nodes[j].hash);
        }
    } else if n > 1 {
        if j > 0 {
            assert(nodes[0].hash < nodes[j].hash);
        }
        if j < n - 1 {
            assert(nodes[j].hash < nodes[n - 1].hash);
        }
        assert(nodes[0].hash < nodes[n - 1].hash);
    }
}

/// Finger 0 of a node of a built ring is its successor.
proof fn lemma_first_finger(keys: Seq<(Seq<char>, u64)>, m: nat, ci: int)
    requires
        distinct_positions(keys, m),
        0 <= ci < keys.len(),
        m >= 1,
    ensures
        ring_of(keys, m).nodes[ci].fingers.len() == m,
        ring_of(keys, m).nodes[ci].fingers[0] == ring_of(keys, m).nodes[next_pos(ring_of(keys, m), ci)].id,
{
    lemma_ring_nodes(keys, m);
    lemma_sorted_keys(keys, m);
    let s = sort_by(keys, hash_le());
    let nodes = ring_of(keys, m).nodes;
    let n = keys.len() as int;
    let h = s[ci].1;
    lemma_pow2_pos(m);
    assert(pow2(0) == 1) by {
        vstd::arithmetic::power2::lemma2_to64();
    }
    let t = finger_target(h, 0, m);
    let x = (Seq::<char>::empty(), t);
    if (h as nat) + 1 < pow2(m) {
        vstd::arithmetic::div_mod::lemma_small_mod((h as nat) + 1, pow2(m));
        vstd::bits::lemma_u64_pow2_no_overflow(m);
        assert(((h as nat + pow2(0)) % pow2(m)) == h + 1);
        assert(t == h + 1);
        if ci + 1 < n {
            assert forall|k: int| 0 <= k < ci + 1 implies (hash_lt())(#[trigger] s[k], x) by {
                if k < ci {
                    assert(s[k].1 < s[ci].1);
                }
            }
            assert(s[ci].1 < s[ci + 1].1);
            lemma_lead_count(s, x, hash_lt(), ci + 1);
        } else {
            assert forall|k: int| 0 <= k < n implies (hash_lt())(#[trigger] s[k], x) by {
                if k < ci {
                    assert(s[k].1 < s[ci].1);
                }
            }
            lemma_lead_count(s, x, hash_lt(), n);
        }
    } else {
        assert((h as nat) + 1 == pow2(m)) by {
            assert((h as nat) < pow2(m)) by {
                lemma_chord_hash_bound(s[ci].0, m);
            }
        }
        vstd::arithmetic::div_mod::lemma_mod_self_0(pow2(m) as int);
        assert(t == 0);
        lemma_lead_count(s, x, hash_lt(), 0);
        if ci + 1 < n {
            assert(s[ci].1 < s[ci + 1].1);
            assert((nodes[ci + 1].hash as nat) < pow2(m));
        }
    }
    assert(successor_index(s, t) == next_pos(ring_of(keys, m), ci));
}


/// Whether finger `f` names a node of the ring that lies strictly between `nh` and
/// `target`.
pub open spec fn finger_between(v: ChordView, nh: u64, f: Seq<char>, target: u64) -> bool {
    match last_index_of(v.nodes, f) {
        Some(j) => chord_between(nh, v.nodes[j].hash, target),
        None => false,
    }
}

/// What the finger scan finds lies between the node and the target, and it finds
/// something whenever some finger does.
proof fn lemma_closest_preceding(v: ChordView, nh: u64, fingers: Seq<Seq<char>>, target: u64)
    ensures
        closest_preceding(v, nh, fingers, target) matches Some(f) ==> finger_between(v, nh, f, target),
        (exists|k: int| 0 <= k < fingers.len() && #[trigger] finger_between(v, nh, fingers[k], target))
            ==> closest_preceding(v, nh, fingers, target) is Some,
    decreases fingers.len(),
{
    if fingers.len() > 0 {
        let rest = fingers.drop_last();
        lemma_closest_preceding(v, nh, rest, target);
        if exists|k: int| 0 <= k < fingers.len() && #[trigger] finger_between(v, nh, fingers[k], target) {
            let k = choose|k: int| 0 <= k < fingers.len() && #[trigger] finger_between(v, nh, fingers[k], target);
            if k < fingers.len() - 1 {
                assert(rest[k] == fingers[k]);
                assert(finger_between(v, nh, rest[k], target));
            }
        }
    }
}

/// Moving to a point strictly between `a` and `b` (going round) brings `b` closer.
proof fn lemma_between_closer(a: u64, x: u64, b: u64, m: nat)
    requires
        (a as nat) < pow2(m),
        (x as nat) < pow2(m),
        (b as nat) < pow2(m),
        a != b,
        chord_between(a, x, b),
    ensures
        0 <= cw(x, b, m) < cw(a, b, m),
{
    let mm = pow2(m) as int;
    lemma_pow2_pos(m);
    if a < b {
        vstd::arithmetic::div_mod::lemma_small_mod((b - x) as nat, mm as nat);
        vstd::arithmetic::div_mod::lemma_small_mod((b - a) as nat, mm as nat);
    } else {
        vstd::arithmetic::div_mod::lemma_small_mod((b - a + mm) as nat, mm as nat);
        vstd::arithmetic::div_mod::lemma_mod_add_multiples_vanish(b - a, mm);
        if x > a {
            vstd::arithmetic::div_mod::lemma_small_mod((b - x + mm) as nat, mm as nat);
            vstd::arithmetic::div_mod::lemma_mod_add_multiples_vanish(b - x, mm);
        } else {
            vstd::arithmetic::div_mod::lemma_small_mod((b - x) as nat, mm as nat);
        }
    }
}

/// Of three distinct points, when the third is not between the first two, the second
/// is between the first and the third.
proof fn lemma_between_flip(a: u64, s: u64, d: u64)
    requires
        a != s,
        a != d,
        s != d,
        !chord_between(a, d, s),
    ensures
        chord_between(a, s, d),
{
}

/// A node's own distance to a position is zero exactly at that position.
proof fn lemma_cw_zero(a: u64, b: u64, m: nat)
    requires
        (a as nat) < pow2(m),
        (b as nat) < pow2(m),
    ensures
        0 <= cw(a, b, m) < pow2(m),
        cw(a, b, m) == 0 <==> a == b,
{
    let mm = pow2(m) as int;
    lemma_pow2_pos(m);
    if a <= b {
        vstd::arithmetic::div_mod::lemma_small_mod((b - a) as nat, mm as nat);
    } else {
        vstd::arithmetic::div_mod::lemma_small_mod((b - a + mm) as nat, mm as nat);
        vstd::arithmetic::div_mod::lemma_mod_add_multiples_vanish(b - a, mm);
    }
}


/// One hop of routing from member `ci` toward member `di` of a built ring lands on the
/// destination or on a node closer to it, going round.
proof fn lemma_hop_progress(keys: Seq<(Seq<char>, u64)>, m: nat, ci: int, di: int)
    requires
        distinct_positions(keys, m),
        0 <= ci < keys.len(),
        0 <= di < keys.len(),
        ci != di,
    ensures
        ({
            let v = ring_of(keys, m);
            let hd = v.nodes[di].hash;
            last_index_of(v.nodes, chord_next_hop(v, ci, hd)) matches Some(ni) && (ni == di || cw(v.nodes[ni].hash, hd, m)
                < cw(v.nodes[ci].hash, hd, m))
        }),
{
    let v = ring_of(keys, m);
    let nodes = v.nodes;
    lemma_ring_nodes(keys, m);
    let hd = nodes[di].hash;
    let hc = nodes[ci].hash;
    assert(hc != hd) by {
        if ci < di {
            assert(nodes[ci].hash < nodes[di].hash);
        } else {
            assert(nodes[di].hash < nodes[ci].hash);
        }
    }
    let si = next_pos(v, ci);
    let succ_id = nodes[si].id;
    assert(last_index_of(nodes, succ_id) == Some(si));
    let hs = nodes[si].hash;
    lemma_successor_is_next(keys, m, ci, di);
    if hd == hc || chord_between(hc, hd, hs) || hd == hs {
        assert(hd == hs);
        if si != di {
            if si < di {
                assert(nodes[si].hash < nodes[di].hash);
            } else {
                assert(nodes[di].hash < nodes[si].hash);
            }
        }
    } else {
        lemma_closest_preceding(v, hc, nodes[ci].fingers, hd);
        match closest_preceding(v, hc, nodes[ci].fingers, hd) {
            Some(f) => {
                let j = last_index_of(nodes, f)->0;
                lemma_last_index_of_found(nodes, f);
                lemma_between_closer(hc, nodes[j].hash, hd, m);
            },
            None => {
                assert(m >= 1) by {
                    if m == 0 {
                        assert(pow2(0) == 1) by {
                            vstd::arithmetic::power2::lemma2_to64();
                        }
                    }
                }
                lemma_first_finger(keys, m, ci);
                assert(si != ci) by {
                    if keys.len() == 1 {
                        assert(ci == 0 && di == 0);
                    }
                }
                assert(hs != hc) by {
                    if si < ci {
                        assert(nodes[si].hash < nodes[ci].hash);
                    } else {
                        assert(nodes[ci].hash < nodes[si].hash);
                    }
                }
                lemma_between_flip(hc, hs, hd);
                assert(finger_between(v, hc, nodes[ci].fingers[0], hd));
                assert(false);
            },
        }
    }
}


/// How many of the first `k` nodes lie closer than `c` to position `hd`, going round.
pub open spec fn closer_count(v: ChordView, hd: u64, c: int, k: int) -> nat
    decreases k,
{
    if k <= 0 {
        0
    } else {
        closer_count(v, hd, c, k - 1) + if cw(v.nodes[k - 1].hash, hd, v.m) < c {
            1nat
        } else {
            0nat
        }
    }
}

/// Counting facts: the count is at most `k`, grows with the bound, and grows strictly
/// past a node whose distance it passes; a node at or beyond the bound leaves one out.
proof fn lemma_closer_count(v: ChordView, hd: u64, c1: int, c2: int, k: int)
    requires
        0 <= k <= v.nodes.len(),
        c1 <= c2,
    ensures
        closer_count(v, hd, c1, k) <= k,
        closer_count(v, hd, c1, k) <= closer_count(v, hd, c2, k),
        (exists|j: int| 0 <= j < k && c1 <= #[trigger] cw(v.nodes[j].hash, hd, v.m) < c2) ==> closer_count(v, hd, c1, k)
            < closer_count(v, hd, c2, k),
        (exists|j: int| 0 <= j < k && c1 <= #[trigger] cw(v.nodes[j].hash, hd, v.m)) ==> closer_count(v, hd, c1, k) < k,
    decreases k,
{
    if k > 0 {
        lemma_closer_count(v, hd, c1, c2, k - 1);
        if exists|j: int| 0 <= j < k && c1 <= #[trigger] cw(v.nodes[j].hash, hd, v.m) < c2 {
            let j = choose|j: int| 0 <= j < k && c1 <= #[trigger] cw(v.nodes[j].hash, hd, v.m) < c2;
            if j < k - 1 {
                assert(exists|j: int| 0 <= j < k - 1 && c1 <= #[trigger] cw(v.nodes[j].hash, hd, v.m) < c2);
            }
        }
        if exists|j: int| 0 <= j < k && c1 <= #[trigger] cw(v.nodes[j].hash, hd, v.m) {
            let j = choose|j: int| 0 <= j < k && c1 <= #[trigger] cw(v.nodes[j].hash, hd, v.m);
            if j < k - 1 {
                assert(exists|j: int| 0 <= j < k - 1 && c1 <= #[trigger] cw(v.nodes[j].hash, hd, v.m));
            }
        }
    }
}

/// The rank of node `ci` on the way to position `hd`: how many nodes are closer.
pub open spec fn rank(v: ChordView, hd: u64, ci: int) -> nat {
    closer_count(v, hd, cw(v.nodes[ci].hash, hd, v.m), v.nodes.len() as int)
}

/// From member `ci`, routing toward member `di` with at least `rank` hops of budget to
/// spare arrives, after at most `rank` more hops.
proof fn lemma_walk_arrives(
    keys: Seq<(Seq<char>, u64)>,
    m: nat,
    di: int,
    ci: int,
    path: Seq<Seq<char>>,
    hops: nat,
    max: nat,
)
    requires
        distinct_positions(keys, m),
        0 <= di < keys.len(),
        0 <= ci < keys.len(),
        hops + rank(ring_of(keys, m), ring_of(keys, m).nodes[di].hash, ci) < max,
    ensures
        ({
            let v = ring_of(keys, m);
            let r = chord_walk(v, v.nodes[di].id, v.nodes[di].hash, v.nodes[ci].id, path, hops, max);
            r.success && r.hops <= hops + rank(v, v.nodes[di].hash, ci)
        }),
    decreases max - hops,
{
    let v = ring_of(keys, m);
    let nodes = v.nodes;
    let n = nodes.len() as int;
    let hd = nodes[di].hash;
    lemma_ring_nodes(keys, m);
    if ci != di {
        assert(nodes[ci].id != nodes[di].id) by {
            assert(last_index_of(nodes, nodes[ci].id) == Some(ci));
        }
        lemma_hop_progress(keys, m, ci, di);
        let next = chord_next_hop(v, ci, hd);
        let ni = last_index_of(nodes, next)->0;
        lemma_last_index_of_found(nodes, next);
        assert(nodes[ni].id == next);
        lemma_cw_zero(nodes[ci].hash, hd, m);
        lemma_cw_zero(nodes[di].hash, hd, m);
        lemma_cw_zero(nodes[ni].hash, hd, m);
        assert(nodes[ci].hash != hd) by {
            if ci < di {
                assert(nodes[ci].hash < nodes[di].hash);
            } else {
                assert(nodes[di].hash < nodes[ci].hash);
            }
        }
        let cc = cw(nodes[ci].hash, hd, m);
        let cn = cw(nodes[ni].hash, hd, m);
        assert(cn < cc) by {
            if ni == di {
                assert(cn == 0);
            }
        }
        lemma_closer_count(v, hd, cn, cc, n);
        assert(cn <= cw(nodes[ni].hash, hd, v.m) < cc);
        assert(rank(v, hd, ni) < rank(v, hd, ci));
        lemma_walk_arrives(keys, m, di, ni, path.push(next), hops + 1, max);
    }
}

/// Chord routing between two members of a ring built from keys with distinct
/// positions succeeds, in fewer hops than the ring has nodes, whenever the hop budget
/// is at least the number of nodes.
pub proof fn lemma_chord_reaches_members(
    keys: Seq<(Seq<char>, u64)>,
    m: nat,
    source: Seq<char>,
    destination: Seq<char>,
    max: nat,
)
    requires
        distinct_positions(keys, m),
        exists|i: int| 0 <= i < keys.len() && (#[trigger] keys[i]).0 == source,
        exists|j: int| 0 <= j < keys.len() && (#[trigger] keys[j]).0 == destination,
        max >= keys.len(),
    ensures
        chord_route(ring_of(keys, m), source, destination, max).success,
        chord_route(ring_of(keys, m), source, destination, max).hops < keys.len(),
{
    let v = ring_of(keys, m);
    let s = sort_by(keys, hash_le());
    lemma_sorted_keys(keys, m);
    lemma_ring_nodes(keys, m);
    let i = choose|i: int| 0 <= i < keys.len() && (#[trigger] keys[i]).0 == source;
    let j = choose|j: int| 0 <= j < keys.len() && (#[trigger] keys[j]).0 == destination;
    assert(s.contains(keys[i]));
    assert(s.contains(keys[j]));
    let ci = choose|ci: int| 0 <= ci < s.len() && s[ci] == keys[i];
    let di = choose|di: int| 0 <= di < s.len() && s[di] == keys[j];
    assert(v.nodes[ci].id == source);
    assert(v.nodes[di].id == destination);
    assert(v.nodes[di].hash == chord_hash(destination, m));
    let hd = v.nodes[di].hash;
    lemma_cw_zero(v.nodes[ci].hash, hd, m);
    lemma_closer_count(v, hd, cw(v.nodes[ci].hash, hd, m), cw(v.nodes[ci].hash, hd, m), keys.len() as int);
    assert(cw(v.nodes[ci].hash, hd, m) <= cw(v.nodes[ci].hash, hd, v.m));
    lemma_walk_arrives(keys, m, di, ci, seq![source], 0, max);
}


/// The clockwise offset from `a` to `b` on a ring of `mm` points, for points on it.
pub open spec fn off(a: int, b: int, mm: int) -> int {
    if b >= a {
        b - a
    } else {
        b - a + mm
    }
}

/// A point lies strictly between `a` and `b` going round exactly when its offset from
/// `a` is positive and below that of `b`.
proof fn lemma_between_off(a: u64, x: u64, b: u64, mm: int)
    requires
        (a as int) < mm,
        (x as int) < mm,
        (b as int) < mm,
        a != b,
    ensures
        chord_between(a, x, b) <==> 0 < off(a as int, x as int, mm) < off(a as int, b as int, mm),
{
}

/// Where node `j` comes going round from node `ci`.
pub open spec fn round_rank(ci: int, j: int, n: int) -> int {
    if j >= ci {
        j - ci
    } else {
        j - ci + n
    }
}

/// Going round from node `ci` of a built ring, offsets grow with the rank.
proof fn lemma_offset_order(keys: Seq<(Seq<char>, u64)>, m: nat, ci: int, j1: int, j2: int)
    requires
        distinct_positions(keys, m),
        0 <= ci < keys.len(),
        0 <= j1 < keys.len(),
        0 <= j2 < keys.len(),
        round_rank(ci, j1, keys.len() as int) < round_rank(ci, j2, keys.len() as int),
    ensures
        ({
            let nodes = ring_of(keys, m).nodes;
            let mm = pow2(m) as int;
            off(nodes[ci].hash as int, nodes[j1].hash as int, mm) < off(nodes[ci].hash as int, nodes[j2].hash as int, mm)
        }),
{
    lemma_ring_nodes(keys, m);
    let nodes = ring_of(keys, m).nodes;
    if j1 < j2 {
        assert(nodes[j1].hash < nodes[j2].hash);
    }
    if j1 > j2 {
        assert(nodes[j2].hash < nodes[j1].hash);
    }
    if j1 > ci {
        assert(nodes[ci].hash < nodes[j1].hash);
    }
    if j1 < ci {
        assert(nodes[j1].hash < nodes[ci].hash);
    }
    if j2 > ci {
        assert(nodes[ci].hash < nodes[j2].hash);
    }
    if j2 < ci {
        assert(nodes[j2].hash < nodes[ci].hash);
    }
}


/// The successor of a point on a built ring is the node that comes first going round
/// from the point.
proof fn lemma_successor_first(keys: Seq<(Seq<char>, u64)>, m: nat, t: u64, j: int)
    requires
        distinct_positions(keys, m),
        keys.len() > 0,
        (t as nat) < pow2(m),
        0 <= j < keys.len(),
    ensures
        0 <= successor_index(sort_by(keys, hash_le()), t) < keys.len(),
        ({
            let nodes = ring_of(keys, m).nodes;
            let si = successor_index(sort_by(keys, hash_le()), t);
            off(t as int, nodes[si].hash as int, pow2(m) as int) <= off(t as int, nodes[j].hash as int, pow2(m) as int)
        }),
{
    lemma_ring_nodes(keys, m);
    lemma_sorted_keys(keys, m);
    let s = sort_by(keys, hash_le());
    let nodes = ring_of(keys, m).nodes;
    let x = (Seq::<char>::empty(), t);
    lemma_lead_count_facts(s, x, hash_lt());
    let p = lead_count(s, x, hash_lt()) as int;
    let si = successor_index(s, t);
    if p < s.len() {
        assert(!(s[p].1 < t));
        if j < p {
            assert((hash_lt())(s[j], x));
        } else if j > p {
            assert(nodes[p].hash < nodes[j].hash);
        }
    } else {
        assert(si == 0);
        if j > 0 {
            assert(nodes[0].hash < nodes[j].hash);
        }
        assert((hash_lt())(s[j], x));
        assert((hash_lt())(s[0], x));
    }
}

/// The node before `di` in storage order, going round.
pub open spec fn prev_pos(n: int, di: int) -> int {
    if di > 0 {
        di - 1
    } else {
        n - 1
    }
}

/// Going round from node `ci` toward another node `di`, the node just before `di`
/// (possibly `ci` itself) is the farthest node short of `di`.
proof fn lemma_predecessor_last(keys: Seq<(Seq<char>, u64)>, m: nat, ci: int, di: int, j: int)
    requires
        distinct_positions(keys, m),
        0 <= ci < keys.len(),
        0 <= di < keys.len(),
        0 <= j < keys.len(),
        ci != di,
    ensures
        ({
            let nodes = ring_of(keys, m).nodes;
            let mm = pow2(m) as int;
            let hc = nodes[ci].hash as int;
            let pi = prev_pos(keys.len() as int, di);
            &&& off(hc, nodes[pi].hash as int, mm) < off(hc, nodes[di].hash as int, mm)
            &&& off(hc, nodes[j].hash as int, mm) < off(hc, nodes[di].hash as int, mm) ==> off(hc, nodes[j].hash as int, mm)
                <= off(hc, nodes[pi].hash as int, mm)
            &&& round_rank(ci, pi, keys.len() as int) + 1 == round_rank(ci, di, keys.len() as int)
        }),
{
    let n = keys.len() as int;
    let pi = prev_pos(n, di);
    assert(round_rank(ci, pi, n) + 1 == round_rank(ci, di, n));
    lemma_offset_order(keys, m, ci, pi, di);
    if round_rank(ci, j, n) > round_rank(ci, pi, n) {
        if j != di {
            assert(round_rank(ci, j, n) > round_rank(ci, di, n));
            lemma_offset_order(keys, m, ci, di, j);
        }
    } else if round_rank(ci, j, n) < round_rank(ci, pi, n) {
        lemma_offset_order(keys, m, ci, j, pi);
    }
}


/// Offsets from a point `pk` further round: they drop by `pk`, going round.
proof fn lemma_shift_off(hc: int, x: int, pk: int, mm: int, t: int)
    requires
        0 <= hc < mm,
        0 <= x < mm,
        0 < pk < mm,
        t == if hc + pk < mm {
            hc + pk
        } else {
            hc + pk - mm
        },
    ensures
        off(t, x, mm) == if off(hc, x, mm) >= pk {
            off(hc, x, mm) - pk
        } else {
            off(hc, x, mm) - pk + mm
        },
{
}

/// The point finger `k` of a node at `h` aims at, for `k < m`.
proof fn lemma_finger_target_value(h: u64, k: nat, m: nat)
    requires
        k < m,
        m < 64,
        (h as nat) < pow2(m),
    ensures
        0 < pow2(k) < pow2(m),
        finger_target(h, k, m) as int == if h + pow2(k) < pow2(m) {
            h + pow2(k)
        } else {
            h + pow2(k) - pow2(m)
        },
{
    lemma_pow2_pos(k);
    lemma_pow2_pos(m);
    vstd::arithmetic::power2::lemma_pow2_strictly_increases(k, m);
    vstd::bits::lemma_u64_pow2_no_overflow(m);
    let mm = pow2(m) as int;
    let v = h + pow2(k);
    if v < mm {
        vstd::arithmetic::div_mod::lemma_small_mod(v as nat, mm as nat);
    } else {
        vstd::arithmetic::div_mod::lemma_small_mod((v - mm) as nat, mm as nat);
        vstd::arithmetic::div_mod::lemma_mod_add_multiples_vanish(v - mm, mm);
    }
}

/// Finger `k` of node `ci` lies strictly between the node and `di` exactly when `2^k`
/// is at most the offset of the node just before `di`; then it lies at least `2^k`
/// round and no further than that node.
proof fn lemma_finger_reach(keys: Seq<(Seq<char>, u64)>, m: nat, ci: int, di: int, k: nat)
    requires
        distinct_positions(keys, m),
        0 <= ci < keys.len(),
        0 <= di < keys.len(),
        ci != di,
        k < m,
    ensures
        ({
            let v = ring_of(keys, m);
            let nodes = v.nodes;
            let mm = pow2(m) as int;
            let hc = nodes[ci].hash as int;
            let e = off(hc, nodes[prev_pos(keys.len() as int, di)].hash as int, mm);
            let fi = successor_index(sort_by(keys, hash_le()), finger_target(nodes[ci].hash, k, m));
            &&& 0 <= fi < keys.len()
            &&& nodes[ci].fingers.len() == m
            &&& nodes[ci].fingers[k as int] == nodes[fi].id
            &&& pow2(k) <= e ==> pow2(k) <= off(hc, nodes[fi].hash as int, mm) <= e
            &&& pow2(k) > e ==> !(0 < off(hc, nodes[fi].hash as int, mm) < off(hc, nodes[di].hash as int, mm))
        }),
{
    let v = ring_of(keys, m);
    let nodes = v.nodes;
    let n = keys.len() as int;
    let mm = pow2(m) as int;
    lemma_ring_nodes(keys, m);
    let hc = nodes[ci].hash;
    let pi = prev_pos(n, di);
    let e = off(hc as int, nodes[pi].hash as int, mm);
    let d = off(hc as int, nodes[di].hash as int, mm);
    lemma_finger_target_value(hc, k, m);
    let t = finger_target(hc, k, m);
    let pk = pow2(k) as int;
    let fi = successor_index(sort_by(keys, hash_le()), t);
    lemma_successor_first(keys, m, t, pi);
    lemma_successor_first(keys, m, t, ci);
    lemma_predecessor_last(keys, m, ci, di, fi);
    lemma_shift_off(hc as int, nodes[fi].hash as int, pk, mm, t as int);
    lemma_shift_off(hc as int, nodes[pi].hash as int, pk, mm, t as int);
    lemma_shift_off(hc as int, nodes[ci].hash as int, pk, mm, t as int);
}


/// The finger scan finds the last finger that lies between.
proof fn lemma_closest_preceding_last(v: ChordView, nh: u64, fingers: Seq<Seq<char>>, target: u64, kmax: int)
    requires
        0 <= kmax < fingers.len(),
        finger_between(v, nh, fingers[kmax], target),
        forall|k: int| kmax < k < fingers.len() ==> !#[trigger] finger_between(v, nh, fingers[k], target),
    ensures
        closest_preceding(v, nh, fingers, target) == Some(fingers[kmax]),
    decreases fingers.len(),
{
    if kmax < fingers.len() - 1 {
        let rest = fingers.drop_last();
        assert(!finger_between(v, nh, fingers[fingers.len() - 1], target));
        assert forall|k: int| kmax < k < rest.len() implies !#[trigger] finger_between(v, nh, rest[k], target) by {
            assert(rest[k] == fingers[k]);
        }
        assert(rest[kmax] == fingers[kmax]);
        lemma_closest_preceding_last(v, nh, rest, target, kmax);
    }
}

/// Every positive value below `2^m` lies in some `[2^k, 2^(k+1))` with `k < m`.
proof fn lemma_log2(e: int, m: nat) -> (k: nat)
    requires
        1 <= e < pow2(m),
    ensures
        k < m,
        pow2(k) <= e < pow2(k + 1),
    decreases m,
{
    lemma_pow2_pos(m);
    if m == 0 {
        vstd::arithmetic::power2::lemma2_to64();
        0
    } else {
        vstd::arithmetic::power2::lemma_pow2_unfold(m);
        if e < pow2((m - 1) as nat) {
            lemma_log2(e, (m - 1) as nat)
        } else {
            (m - 1) as nat
        }
    }
}

/// A hop toward member `di` from another member `ci`: when `ci` is the node just before
/// `di` it reaches `di`; otherwise it reaches a node short of `di` whose offset to the
/// node before `di` is less than half of what it was.
proof fn lemma_hop_halves(keys: Seq<(Seq<char>, u64)>, m: nat, ci: int, di: int)
    requires
        distinct_positions(keys, m),
        0 <= ci < keys.len(),
        0 <= di < keys.len(),
        ci != di,
    ensures
        ({
            let v = ring_of(keys, m);
            let nodes = v.nodes;
            let mm = pow2(m) as int;
            let pi = prev_pos(keys.len() as int, di);
            let e = off(nodes[ci].hash as int, nodes[pi].hash as int, mm);
            last_index_of(nodes, chord_next_hop(v, ci, nodes[di].hash)) matches Some(ni) && (if e == 0 {
                ni == di
            } else {
                ni != di && 2 * off(nodes[ni].hash as int, nodes[pi].hash as int, mm) < e
            })
        }),
{
    let v = ring_of(keys, m);
    let nodes = v.nodes;
    let n = keys.len() as int;
    let mm = pow2(m) as int;
    lemma_ring_nodes(keys, m);
    lemma_pow2_pos(m);
    let hc = nodes[ci].hash;
    let hd = nodes[di].hash;
    let pi = prev_pos(n, di);
    let hp = nodes[pi].hash;
    let e = off(hc as int, hp as int, mm);
    let dd = off(hc as int, hd as int, mm);
    let si = next_pos(v, ci);
    let hs = nodes[si].hash;
    assert(last_index_of(nodes, nodes[si].id) == Some(si));
    lemma_predecessor_last(keys, m, ci, di, si);
    lemma_between_off(hc, hd, hs, mm);
    assert(hc != hd) by {
        if ci < di {
            assert(nodes[ci].hash < nodes[di].hash);
        } else {
            assert(nodes[di].hash < nodes[ci].hash);
        }
    }
    if e == 0 {
        assert(pi == ci) by {
            if pi != ci {
                if pi < ci {
                    assert(nodes[pi].hash < nodes[ci].hash);
                } else {
                    assert(nodes[ci].hash < nodes[pi].hash);
                }
            }
        }
        assert(si == di);
    } else {
        assert(round_rank(ci, si, n) == 1);
        assert(pi != ci);
        assert(round_rank(ci, pi, n) >= 1);
        if round_rank(ci, pi, n) > 1 {
            lemma_offset_order(keys, m, ci, si, pi);
        }
        assert(off(hc as int, hs as int, mm) <= e);
        assert(!(hd == hc || chord_between(hc, hd, hs) || hd == hs));
        let k = lemma_log2(e, m);
        lemma_finger_reach(keys, m, ci, di, k);
        let fi = successor_index(sort_by(keys, hash_le()), finger_target(hc, k, m));
        let fingers = nodes[ci].fingers;
        assert(fingers[k as int] == nodes[fi].id);
        assert(last_index_of(nodes, nodes[fi].id) == Some(fi));
        lemma_between_off(hc, nodes[fi].hash, hd, mm);
        lemma_pow2_pos(k);
        lemma_predecessor_last(keys, m, ci, di, fi);
        assert(pow2(k) <= off(hc as int, nodes[fi].hash as int, mm) <= e);
        assert(e < dd);
        assert(chord_between(hc, nodes[fi].hash, hd));
        assert(finger_between(v, hc, fingers[k as int], hd));
        assert forall|k2: int| k < k2 < fingers.len() implies !#[trigger] finger_between(v, hc, fingers[k2], hd) by {
            lemma_finger_reach(keys, m, ci, di, k2 as nat);
            if k2 > k + 1 {
                vstd::arithmetic::power2::lemma_pow2_strictly_increases((k + 1) as nat, k2 as nat);
            }
            let f2 = successor_index(sort_by(keys, hash_le()), finger_target(hc, k2 as nat, m));
            assert(last_index_of(nodes, nodes[f2].id) == Some(f2));
            lemma_between_off(hc, nodes[f2].hash, hd, mm);
        }
        lemma_closest_preceding_last(v, hc, fingers, hd, k as int);
        lemma_predecessor_last(keys, m, ci, di, fi);
        assert(fi != di);
        vstd::arithmetic::power2::lemma_pow2_unfold(k + 1);
    }
}


/// From member `ci`, whose offset to the node just before member `di` is below `2^j`,
/// routing toward `di` with `j + 1` hops of budget to spare arrives within `j + 1`
/// hops.
proof fn lemma_walk_fast(
    keys: Seq<(Seq<char>, u64)>,
    m: nat,
    di: int,
    ci: int,
    path: Seq<Seq<char>>,
    hops: nat,
    max: nat,
    j: nat,
)
    requires
        distinct_positions(keys, m),
        0 <= di < keys.len(),
        0 <= ci < keys.len(),
        ci != di ==> off(
            ring_of(keys, m).nodes[ci].hash as int,
            ring_of(keys, m).nodes[prev_pos(keys.len() as int, di)].hash as int,
            pow2(m) as int,
        ) < pow2(j),
        hops + j + 1 < max,
    ensures
        ({
            let v = ring_of(keys, m);
            let r = chord_walk(v, v.nodes[di].id, v.nodes[di].hash, v.nodes[ci].id, path, hops, max);
            r.success && r.hops <= hops + j + 1
        }),
    decreases j,
{
    let v = ring_of(keys, m);
    let nodes = v.nodes;
    let mm = pow2(m) as int;
    let pi = prev_pos(keys.len() as int, di);
    lemma_ring_nodes(keys, m);
    if ci != di {
        assert(nodes[ci].id != nodes[di].id) by {
            assert(last_index_of(nodes, nodes[ci].id) == Some(ci));
        }
        lemma_hop_halves(keys, m, ci, di);
        let hd = nodes[di].hash;
        let next = chord_next_hop(v, ci, hd);
        let ni = last_index_of(nodes, next)->0;
        lemma_last_index_of_found(nodes, next);
        assert(nodes[ni].id == next);
        let e = off(nodes[ci].hash as int, nodes[pi].hash as int, mm);
        if e == 0 {
            assert(ni == di);
            assert(next == nodes[di].id);
            let r2 = chord_walk(v, nodes[di].id, hd, next, path.push(next), hops + 1, max);
            assert(r2.success && r2.hops == hops + 1);
            assert(chord_walk(v, nodes[di].id, hd, nodes[ci].id, path, hops, max) == r2);
        } else {
            assert(j >= 1) by {
                if j == 0 {
                    vstd::arithmetic::power2::lemma2_to64();
                }
            }
            vstd::arithmetic::power2::lemma_pow2_unfold(j);
            lemma_walk_fast(keys, m, di, ni, path.push(next), hops + 1, max, (j - 1) as nat);
        }
    }
}

/// Chord routing between two members of a ring built from keys with distinct
/// positions in a space of `2^m` points takes at most `m + 1` hops: each hop at least
/// halves what is left to the node just before the destination, and from there one
/// hop arrives.
pub proof fn lemma_chord_hops_logarithmic(
    keys: Seq<(Seq<char>, u64)>,
    m: nat,
    source: Seq<char>,
    destination: Seq<char>,
    max: nat,
)
    requires
        distinct_positions(keys, m),
        exists|i: int| 0 <= i < keys.len() && (#[trigger] keys[i]).0 == source,
        exists|j: int| 0 <= j < keys.len() && (#[trigger] keys[j]).0 == destination,
        max >= m + 2,
    ensures
        chord_route(ring_of(keys, m), source, destination, max).success,
        chord_route(ring_of(keys, m), source, destination, max).hops <= m + 1,
{
    let v = ring_of(keys, m);
    let s = sort_by(keys, hash_le());
    lemma_sorted_keys(keys, m);
    lemma_ring_nodes(keys, m);
    let i = choose|i: int| 0 <= i < keys.len() && (#[trigger] keys[i]).0 == source;
    let j = choose|j: int| 0 <= j < keys.len() && (#[trigger] keys[j]).0 == destination;
    assert(s.contains(keys[i]));
    assert(s.contains(keys[j]));
    let ci = choose|ci: int| 0 <= ci < s.len() && s[ci] == keys[i];
    let di = choose|di: int| 0 <= di < s.len() && s[di] == keys[j];
    assert(v.nodes[ci].id == source);
    assert(v.nodes[di].id == destination);
    assert(v.nodes[di].hash == chord_hash(destination, m));
    let pi = prev_pos(keys.len() as int, di);
    assert(off(v.nodes[ci].hash as int, v.nodes[pi].hash as int, pow2(m) as int) < pow2(m));
    lemma_walk_fast(keys, m, di, ci, seq![source], 0, max, m);
}

} // verus!
