use drfe_r::baselines::{ChordDHT, DHTRouter, KademliaDHT};
use drfe_r::coordinates::NodeId;

#[test]
fn test_chord_basic_routing() {
    let mut chord = ChordDHT::new(8); // 8-bit identifier space

    // Add some nodes
    for i in 0..10 {
        chord.add_node(NodeId::new(&format!("node{}", i)));
    }

    chord.build_finger_tables();

    let source = NodeId::new("node0");
    let dest = NodeId::new("node5");

    let result = chord.route(&source, &dest, 20);
    assert!(result.success);
    assert!(result.hops <= 8); // O(log N) hops
}

#[test]
fn test_kademlia_basic_routing() {
    let mut kad = KademliaDHT::new(160, 20); // 160-bit IDs, k=20

    // Add some nodes
    for i in 0..10 {
        kad.add_node(NodeId::new(&format!("node{}", i)));
    }

    kad.build_routing_tables();

    let source = NodeId::new("node0");
    let dest = NodeId::new("node5");

    let result = kad.route(&source, &dest, 20);
    assert!(result.success);
    assert!(result.hops <= 10); // O(log N) hops
}

fn chord_with(n: usize) -> ChordDHT {
    let mut chord = ChordDHT::new(8);
    for i in 0..n {
        chord.add_node(NodeId::new(&format!("node{}", i)));
    }
    chord.build_finger_tables();
    chord
}

fn kademlia_with(n: usize) -> KademliaDHT {
    let mut kad = KademliaDHT::new(160, 20);
    for i in 0..n {
        kad.add_node(NodeId::new(&format!("node{}", i)));
    }
    kad.build_routing_tables();
    kad
}

#[test]
fn dht_route_to_self_takes_no_hop() {
    let chord = chord_with(10);
    let r = chord.route(&NodeId::new("node3"), &NodeId::new("node3"), 5);
    assert!(r.success);
    assert_eq!(r.hops, 0);
    assert_eq!(r.path.len(), 1);
    let kad = kademlia_with(10);
    let r = kad.route(&NodeId::new("node3"), &NodeId::new("node3"), 5);
    assert!(r.success);
    assert_eq!(r.hops, 0);
}

#[test]
fn dht_zero_hop_budget_fails_even_at_the_destination() {
    let chord = chord_with(4);
    let r = chord.route(&NodeId::new("node1"), &NodeId::new("node1"), 0);
    assert!(!r.success);
    assert_eq!(r.failure_reason.as_deref(), Some("Max hops exceeded"));
    let kad = kademlia_with(4);
    let r = kad.route(&NodeId::new("node1"), &NodeId::new("node1"), 0);
    assert!(!r.success);
    assert_eq!(r.failure_reason.as_deref(), Some("Max hops exceeded"));
}

#[test]
fn dht_chord_unknown_source_fails() {
    let chord = chord_with(4);
    let r = chord.route(&NodeId::new("stranger"), &NodeId::new("node1"), 8);
    assert!(!r.success);
    assert_eq!(r.hops, 0);
    assert_eq!(r.failure_reason.as_deref(), Some("Current node not found"));
}

#[test]
fn dht_paths_start_at_the_source_and_count_hops() {
    let chord = chord_with(16);
    let kad = kademlia_with(16);
    for s in 0..16 {
        for d in 0..16 {
            let src = NodeId::new(&format!("node{}", s));
            let dst = NodeId::new(&format!("node{}", d));
            for r in [chord.route(&src, &dst, 32), kad.route(&src, &dst, 32)] {
                assert_eq!(r.path.len() as u32, r.hops + 1);
                assert_eq!(r.path[0], src);
                assert_eq!(r.success, r.failure_reason.is_none());
                if r.success {
                    assert_eq!(r.path.last().unwrap(), &dst);
                }
            }
        }
    }
    assert_eq!(chord.protocol_name(), "Chord");
    assert_eq!(kad.protocol_name(), "Kademlia");
    assert_eq!(chord.node_count(), 16);
    assert_eq!(kad.node_count(), 16);
}

#[test]
fn dht_chord_routes_every_pair_of_a_full_ring() {
    let chord = chord_with(16);
    for s in 0..16 {
        for d in 0..16 {
            let r = chord.route(&NodeId::new(&format!("node{}", s)), &NodeId::new(&format!("node{}", d)), 64);
            assert!(r.success, "node{} to node{}", s, d);
        }
    }
}

#[test]
fn kademlia_bucket_is_the_top_bit_of_the_distance() {
    let k = KademliaDHT::new(16, 20);
    assert_eq!(k.get_bucket_index(&vec![0x01, 0x00]), 8);
    assert_eq!(k.get_bucket_index(&vec![0x00, 0x01]), 0);
    assert_eq!(k.get_bucket_index(&vec![0x80, 0x00]), 15);
    assert_eq!(k.get_bucket_index(&vec![0x00, 0x00]), 16);
}

#[test]
fn chord_rebuilding_changes_no_route() {
    let mut once = ChordDHT::new(8);
    let mut twice = ChordDHT::new(8);
    for i in 0..12 {
        once.add_node(NodeId::new(&format!("node{}", i)));
        twice.add_node(NodeId::new(&format!("node{}", i)));
    }
    once.build_finger_tables();
    twice.build_finger_tables();
    twice.build_finger_tables();
    for s in 0..12 {
        for d in 0..12 {
            let (src, dst) = (NodeId::new(&format!("node{}", s)), NodeId::new(&format!("node{}", d)));
            let a = once.route(&src, &dst, 20);
            let b = twice.route(&src, &dst, 20);
            assert_eq!(a.success, b.success);
            assert_eq!(a.hops, b.hops);
            assert_eq!(a.path, b.path);
        }
    }
}
