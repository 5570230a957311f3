use drfe_r::byzantine::{ByzantineRouter, DeliveryVerifier};
use drfe_r::coordinates::NodeId;

fn ids(names: &[&str]) -> Vec<NodeId> {
    names.iter().map(|n| NodeId::new(n)).collect()
}

#[test]
fn test_blacklist() {
    let mut router = ByzantineRouter::new();

    assert!(!router.is_blacklisted(&NodeId::new("test")));
    router.blacklist_node(NodeId::new("test"));
    assert!(router.is_blacklisted(&NodeId::new("test")));
}

#[test]
fn byzantine_blacklisting_twice_lists_once() {
    let mut router = ByzantineRouter::default();
    router.blacklist_node(NodeId::new("x"));
    router.blacklist_node(NodeId::new("y"));
    router.blacklist_node(NodeId::new("x"));
    let list = router.get_blacklist();
    assert_eq!(list.len(), 2);
    assert_eq!(list[0].0, "x");
    assert_eq!(list[1].0, "y");
}

#[test]
fn byzantine_delivered_packet_is_not_blamed() {
    let mut v = DeliveryVerifier::new(1);
    v.record_send_at(NodeId::new("a"), NodeId::new("b"), "p1", ids(&["a", "m", "b"]), 0);
    v.record_delivery(&NodeId::new("a"), &NodeId::new("b"), "p1");
    // long after the timeout, nothing is pending any more
    let counts = v.check_drops_at(10_000_000);
    assert!(counts.is_empty());
}

#[test]
fn byzantine_timed_out_packet_blames_last_hop() {
    // a 1 ms timeout is 1_000_000 ns
    let mut v = DeliveryVerifier::new(1);
    v.record_send_at(NodeId::new("a"), NodeId::new("b"), "p1", ids(&["a", "m"]), 100);
    v.record_send_at(NodeId::new("a"), NodeId::new("b"), "p2", ids(&["a", "m"]), 100);
    v.record_send_at(NodeId::new("c"), NodeId::new("b"), "p3", ids(&["c", "q"]), 100);
    v.record_send_at(NodeId::new("c"), NodeId::new("b"), "p4", Vec::new(), 100);

    // exactly at the timeout nothing has timed out yet
    let counts = v.check_drops_at(1_000_100);
    assert!(counts.is_empty());

    // one nanosecond later every packet has
    let counts = v.check_drops_at(1_000_101);
    assert_eq!(counts.len(), 2);
    assert_eq!(counts[0].0 .0, "m");
    assert_eq!(counts[0].1, 2);
    assert_eq!(counts[1].0 .0, "q");
    assert_eq!(counts[1].1, 1);

    // the timed-out packets were removed: a second check adds no blame
    let again = v.check_drops_at(5_000_000);
    assert_eq!(again.len(), 2);
    assert_eq!(again[0].1, 2);
    assert_eq!(again[1].1, 1);
}

#[test]
fn byzantine_clock_behind_send_time_is_not_a_timeout() {
    let mut v = DeliveryVerifier::new(0);
    v.record_send_at(NodeId::new("a"), NodeId::new("b"), "p1", ids(&["a", "m"]), 500);
    assert!(v.check_drops_at(100).is_empty());
    assert_eq!(v.check_drops_at(501).len(), 1);
}

#[test]
fn byzantine_update_blacklist_lists_nodes_over_the_limit() {
    let mut router = ByzantineRouter::new();
    let path = ids(&["src", "dropper"]);
    for k in 0..6 {
        router
            .verifier
            .record_send_at(NodeId::new("src"), NodeId::new("dst"), &format!("p{}", k), path.clone(), 0);
    }
    // five seconds is 5_000_000_000 ns; one nanosecond more times every packet out
    router.update_blacklist_at(5_000_000_001);
    assert!(router.is_blacklisted(&NodeId::new("dropper")));
    assert!(!router.is_blacklisted(&NodeId::new("src")));
}

#[test]
fn byzantine_limit_is_strict() {
    let mut router = ByzantineRouter::new();
    let path = ids(&["src", "dropper"]);
    for k in 0..5 {
        router
            .verifier
            .record_send_at(NodeId::new("src"), NodeId::new("dst"), &format!("p{}", k), path.clone(), 0);
    }
    router.update_blacklist_at(5_000_000_001);
    // five drops are not more than five
    assert!(!router.is_blacklisted(&NodeId::new("dropper")));
    assert!(router.get_blacklist().is_empty());
}

#[test]
fn byzantine_clock_driven_checks_run() {
    let mut router = ByzantineRouter::new();
    router.verifier.record_send(NodeId::new("a"), NodeId::new("b"), "p", ids(&["a"]));
    router.update_blacklist();
    assert!(router.get_blacklist().is_empty());
    let mut v = DeliveryVerifier::default();
    v.record_send(NodeId::new("a"), NodeId::new("b"), "p", ids(&["a"]));
    assert!(v.check_drops().is_empty());
}

#[test]
fn byzantine_send_then_delivery_leaves_other_packets() {
    let mut v = DeliveryVerifier::new(1);
    v.record_send_at(NodeId::new("a"), NodeId::new("b"), "p0", ids(&["a", "m"]), 0);
    v.record_send_at(NodeId::new("a"), NodeId::new("b"), "p1", ids(&["a", "n"]), 0);
    v.record_delivery(&NodeId::new("a"), &NodeId::new("b"), "p1");
    // only the packet sent before is still pending, and only its last hop is blamed
    let counts = v.check_drops_at(10_000_000);
    assert_eq!(counts.len(), 1);
    assert_eq!(counts[0].0, NodeId::new("m"));
    assert_eq!(counts[0].1, 1);
}
