use drfe_r::chaos::{ChaosEngine, ChaosStats};
use drfe_r::coordinates::NodeId;

#[test]
fn test_chaos_disabled() {
    let mut chaos = ChaosEngine::new();
    // with chaos disabled, no draw can drop a packet or break a link
    assert!(!chaos.should_drop_packet(&NodeId::new("a"), &NodeId::new("b"), true));
    assert!(chaos.can_communicate(&NodeId::new("a"), &NodeId::new("b"), true));
}

#[test]
fn test_node_crash() {
    let mut chaos = ChaosEngine::new();
    chaos.set_enabled(true);

    let node = NodeId::new("test");
    assert!(!chaos.is_crashed(&node));

    chaos.crash_node(node.clone());
    assert!(chaos.is_crashed(&node));
    assert!(!chaos.can_communicate(&node, &NodeId::new("other"), false));

    chaos.recover_node(&node);
    assert!(!chaos.is_crashed(&node));
}

#[test]
fn test_partition() {
    let mut chaos = ChaosEngine::new();
    chaos.set_enabled(true);

    let a1 = NodeId::new("a1");
    let a2 = NodeId::new("a2");
    let b1 = NodeId::new("b1");

    chaos.create_partition(vec![a1.clone(), a2.clone()], vec![b1.clone()]);

    assert!(!chaos.can_communicate(&a1, &b1, false));

    chaos.heal_partitions();
    // After healing, should be able to communicate
}

#[test]
fn chaos_partition_blocks_both_ways_and_heals() {
    let mut chaos = ChaosEngine::new();
    chaos.set_enabled(true);
    let a1 = NodeId::new("a1");
    let a2 = NodeId::new("a2");
    let b1 = NodeId::new("b1");
    chaos.create_partition(vec![a1.clone(), a2.clone()], vec![b1.clone()]);
    assert!(!chaos.can_communicate(&b1, &a2, false));
    assert!(chaos.can_communicate(&a1, &a2, false));
    chaos.heal_partitions();
    assert!(chaos.can_communicate(&a1, &b1, false));
    assert_eq!(chaos.get_stats().partitions_created, 1);
}

#[test]
fn chaos_disabled_engine_injects_nothing() {
    let mut chaos = ChaosEngine::default();
    chaos.create_partition(vec![NodeId::new("a")], vec![NodeId::new("b")]);
    chaos.crash_node(NodeId::new("a"));
    assert!(!chaos.is_crashed(&NodeId::new("a")));
    assert_eq!(chaos.get_delay_ms(&NodeId::new("a"), &NodeId::new("b"), 0), 0);
    let stats = chaos.get_stats();
    assert_eq!(stats.partitions_created, 0);
    assert_eq!(stats.nodes_crashed, 0);
}

#[test]
fn chaos_draws_count_in_the_statistics() {
    let mut chaos = ChaosEngine::aggressive();
    let a = NodeId::new("a");
    let b = NodeId::new("b");
    assert!(chaos.should_drop_packet(&a, &b, true));
    assert!(!chaos.should_drop_packet(&a, &b, false));
    assert!(!chaos.can_communicate(&a, &b, true));
    assert!(chaos.can_communicate(&a, &b, false));
    assert_eq!(chaos.get_delay_ms(&a, &b, 0), 10);
    assert_eq!(chaos.get_delay_ms(&a, &b, 490), 500);
    let stats = chaos.get_stats();
    assert_eq!(stats.packets_dropped, 1);
    assert_eq!(stats.connections_broken, 1);
    assert_eq!(stats.packets_delayed, 2);
    chaos.reset_stats();
    let cleared = chaos.get_stats();
    assert_eq!(cleared.packets_dropped, 0);
    assert_eq!(cleared.packets_delayed, 0);
}

#[test]
fn chaos_crashed_node_blocks_links_to_it() {
    let mut chaos = ChaosEngine::aggressive();
    chaos.crash_node(NodeId::new("x"));
    chaos.crash_node(NodeId::new("x"));
    assert!(!chaos.can_communicate(&NodeId::new("y"), &NodeId::new("x"), false));
    assert_eq!(chaos.get_stats().nodes_crashed, 2);
    chaos.reset();
    assert!(!chaos.is_crashed(&NodeId::new("x")));
    assert_eq!(chaos.get_stats().nodes_crashed, 0);
}

#[test]
fn chaos_time_with_drift() {
    let mut chaos = ChaosEngine::new();
    assert_eq!(chaos.time_with_drift(1_000), 1_000);
    chaos.clock_drift_ms = -1_500;
    assert_eq!(chaos.time_with_drift(1_000), 0);
    chaos.clock_drift_ms = 250;
    assert_eq!(chaos.time_with_drift(1_000), 1_250);
    chaos.clock_drift_ms = i64::MAX;
    assert_eq!(chaos.time_with_drift(1), i64::MAX as u64);
    chaos.clock_drift_ms = 0;
    assert!(chaos.get_time_with_drift() > 0);
}

#[test]
fn chaos_default_statistics_are_zero() {
    let stats = ChaosStats::default();
    let copy = stats.clone();
    assert_eq!(copy.packets_dropped + copy.packets_delayed + copy.partitions_created, 0);
    assert_eq!(copy.nodes_crashed + copy.connections_broken, 0);
}
