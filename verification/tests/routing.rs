use drfe_r::coordinates::{DiskPoint, NodeId, RoutingCoordinate};
use drfe_r::routing::{DeliveryProgress, DfsState, GPRouter, RoutingDecision, RoutingMode, RoutingNode};

fn coord(x: f64, y: f64) -> RoutingCoordinate {
    RoutingCoordinate::new(DiskPoint { x_bits: x.to_bits(), y_bits: y.to_bits() }, 0)
}

fn node(id: &str) -> RoutingNode {
    RoutingNode::new(NodeId::new(id), coord(0.1, 0.2))
}

#[test]
fn routing_node_neighbors_have_no_duplicates() {
    let mut n = node("a");
    assert_eq!(n.degree(), 0);
    n.add_neighbor(NodeId::new("b"));
    n.add_neighbor(NodeId::new("c"));
    n.add_neighbor(NodeId::new("b"));
    assert_eq!(n.degree(), 2);
    assert_eq!(n.neighbors[0].0, "b");
    assert_eq!(n.neighbors[1].0, "c");
    n.set_tree_info(Some(NodeId::new("root")), vec![NodeId::new("leaf")]);
    assert_eq!(n.tree_parent.as_ref().unwrap().0, "root");
    assert_eq!(n.tree_children.len(), 1);
}

#[test]
fn routing_edges_go_both_ways() {
    let mut g = GPRouter::new();
    g.add_node(node("a"));
    g.add_node(node("b"));
    g.add_node(node("c"));
    g.add_edge(&NodeId::new("a"), &NodeId::new("b"));
    g.add_edge(&NodeId::new("b"), &NodeId::new("a"));
    g.add_edge(&NodeId::new("b"), &NodeId::new("c"));
    assert_eq!(g.node_count(), 3);
    assert_eq!(g.edge_count(), 2);
    let a = g.get_node(&NodeId::new("a")).unwrap();
    assert_eq!(a.degree(), 1);
    let b = g.get_node(&NodeId::new("b")).unwrap();
    assert_eq!(b.degree(), 2);
    let edges = g.get_edges();
    assert_eq!(edges.len(), 2);
    for (x, y) in &edges {
        assert!(x.0 < y.0);
    }
}

#[test]
fn routing_edge_to_an_unknown_node_is_kept_on_the_known_side() {
    let mut g = GPRouter::default();
    g.add_node(node("a"));
    g.add_edge(&NodeId::new("a"), &NodeId::new("ghost"));
    assert_eq!(g.get_node(&NodeId::new("a")).unwrap().degree(), 1);
    assert!(g.get_node(&NodeId::new("ghost")).is_none());
    assert_eq!(g.node_count(), 1);
}

#[test]
fn routing_adding_a_node_again_replaces_it() {
    let mut g = GPRouter::new();
    g.add_node(node("a"));
    g.add_node(node("b"));
    g.add_edge(&NodeId::new("a"), &NodeId::new("b"));
    g.add_node(node("a"));
    assert_eq!(g.node_count(), 2);
    assert_eq!(g.get_node(&NodeId::new("a")).unwrap().degree(), 0);
    let ids = g.node_ids();
    assert_eq!(ids.len(), 2);
}

fn next_hop(d: Option<RoutingDecision>) -> Option<(String, RoutingMode)> {
    match d {
        Some(RoutingDecision::Forward { next_hop, mode }) => Some((next_hop.0, mode)),
        Some(other) => panic!("unexpected decision {:?}", other),
        None => None,
    }
}

fn line_graph() -> GPRouter {
    // a - b - c - d, with e hanging off b
    let mut g = GPRouter::new();
    for id in ["a", "b", "c", "d", "e"] {
        g.add_node(node(id));
    }
    g.add_edge(&NodeId::new("a"), &NodeId::new("b"));
    g.add_edge(&NodeId::new("b"), &NodeId::new("c"));
    g.add_edge(&NodeId::new("c"), &NodeId::new("d"));
    g.add_edge(&NodeId::new("b"), &NodeId::new("e"));
    g
}

#[test]
fn routing_toward_node_prefers_direct_then_relay_then_first() {
    let g = line_graph();
    let b = g.get_node(&NodeId::new("b")).unwrap().clone();
    // c is a neighbor of b
    assert_eq!(next_hop(g.route_toward_node(&b, &NodeId::new("c"))), Some(("c".to_string(), RoutingMode::ThorupZwick)));
    // d is reached through c
    assert_eq!(next_hop(g.route_toward_node(&b, &NodeId::new("d"))), Some(("c".to_string(), RoutingMode::ThorupZwick)));
    // nothing leads to z: the first neighbor is taken
    assert_eq!(next_hop(g.route_toward_node(&b, &NodeId::new("z"))), Some(("a".to_string(), RoutingMode::ThorupZwick)));
    let lonely = node("x");
    assert_eq!(next_hop(g.route_toward_node(&lonely, &NodeId::new("a"))), None);
}

#[test]
fn routing_dfs_walk_visits_every_node_and_returns() {
    let g = line_graph();
    let mut walk = DfsState { visited: Vec::new(), dfs_stack: Vec::new() };
    let mut at = "a".to_string();
    let mut trail = vec![at.clone()];
    for _ in 0..20 {
        let current = g.get_node(&NodeId::new(&at)).unwrap().clone();
        match next_hop(g.traverse_graph_dfs(&current, &mut walk)) {
            Some((next, mode)) => {
                assert_eq!(mode, RoutingMode::Tree);
                at = next;
                trail.push(at.clone());
            }
            None => break,
        }
    }
    // least neighbor first, back when stuck: a b c d c b e b a
    assert_eq!(trail, vec!["a", "b", "c", "d", "c", "b", "e", "b", "a"]);
    assert_eq!(walk.visited.len(), 5);
    assert!(walk.dfs_stack.is_empty());
}

#[test]
fn routing_bfs_distance_counts_fewest_hops() {
    let mut g = line_graph();
    let id = |s: &str| NodeId::new(s);
    assert_eq!(g.bfs_distance(&id("a"), &id("a")), Some(0));
    assert_eq!(g.bfs_distance(&id("a"), &id("d")), Some(3));
    assert_eq!(g.bfs_distance(&id("d"), &id("e")), Some(3));
    assert_eq!(g.bfs_distance(&id("a"), &id("e")), Some(2));
    // a shortcut makes the walk shorter
    g.add_edge(&id("a"), &id("d"));
    assert_eq!(g.bfs_distance(&id("a"), &id("d")), Some(1));
    assert_eq!(g.bfs_distance(&id("e"), &id("d")), Some(3));
}

#[test]
fn routing_bfs_distance_unreachable_and_dangling() {
    let mut g = line_graph();
    let id = |s: &str| NodeId::new(s);
    g.add_node(node("island"));
    assert_eq!(g.bfs_distance(&id("a"), &id("island")), None);
    assert_eq!(g.bfs_distance(&id("a"), &id("nowhere")), None);
    // a start outside the network reaches only itself
    assert_eq!(g.bfs_distance(&id("nowhere"), &id("nowhere")), Some(0));
    assert_eq!(g.bfs_distance(&id("nowhere"), &id("a")), None);
    // an identifier only named as a neighbor can be reached, but leads nowhere
    g.add_edge(&id("d"), &id("ghost"));
    assert_eq!(g.bfs_distance(&id("a"), &id("ghost")), Some(4));
    assert_eq!(g.bfs_distance(&id("ghost"), &id("a")), None);
}

fn line_network() -> GPRouter {
    let mut g = GPRouter::new();
    for id in ["0", "1", "2", "3"] {
        g.add_node(node(id));
    }
    g.add_edge(&NodeId::new("0"), &NodeId::new("1"));
    g.add_edge(&NodeId::new("1"), &NodeId::new("2"));
    g.add_edge(&NodeId::new("2"), &NodeId::new("3"));
    g
}

fn forward(to: &str, mode: RoutingMode) -> RoutingDecision {
    RoutingDecision::Forward { next_hop: NodeId::new(to), mode }
}

#[test]
fn routing_delivery_to_self_takes_no_hops() {
    let g = line_network();
    let mut p = DeliveryProgress::start(&NodeId::new("0"), 10);
    let decision = g.early_decision(p.current(), &NodeId::new("0"), p.ttl()).unwrap();
    assert!(matches!(decision, RoutingDecision::Delivered));
    let result = p.advance(decision).unwrap();
    assert!(result.success);
    assert_eq!(result.hops, 0);
    assert_eq!(result.path, vec![NodeId::new("0")]);
    assert!(result.failure_reason.is_none());
}

#[test]
fn routing_delivery_fails_when_hops_run_out() {
    let g = line_network();
    let dest = NodeId::new("3");
    let mut p = DeliveryProgress::start(&NodeId::new("0"), 1);
    assert!(g.early_decision(p.current(), &dest, p.ttl()).is_none());
    assert!(p.advance(forward("1", RoutingMode::Gravity)).is_none());
    assert_eq!(p.ttl(), 0);
    let decision = g.early_decision(p.current(), &dest, p.ttl()).unwrap();
    let result = p.advance(decision).unwrap();
    assert!(!result.success);
    assert_eq!(result.failure_reason.as_deref(), Some("TTL expired at node 1"));
    assert_eq!(result.hops, 1);
    assert_eq!(result.gravity_hops, 1);
    assert_eq!(result.path, vec![NodeId::new("0"), NodeId::new("1")]);
}

#[test]
fn routing_arrival_wins_over_an_empty_budget() {
    let g = line_network();
    let decision = g.early_decision(&NodeId::new("3"), &NodeId::new("3"), 0).unwrap();
    assert!(matches!(decision, RoutingDecision::Delivered));
}

#[test]
fn routing_unknown_node_fails() {
    let g = line_network();
    match g.early_decision(&NodeId::new("9"), &NodeId::new("3"), 5) {
        Some(RoutingDecision::Failed { reason }) => assert_eq!(reason, "Node 9 not found"),
        other => panic!("unexpected decision {:?}", other),
    }
}

#[test]
fn routing_delivery_counts_hops_by_mode() {
    let mut p = DeliveryProgress::start(&NodeId::new("0"), 10);
    assert!(p.advance(forward("1", RoutingMode::Gravity)).is_none());
    assert!(p.advance(forward("2", RoutingMode::HyperPress)).is_none());
    assert!(p.advance(forward("1", RoutingMode::Pressure)).is_none());
    assert!(p.advance(forward("2", RoutingMode::ThorupZwick)).is_none());
    assert!(p.advance(forward("3", RoutingMode::Tree)).is_none());
    assert_eq!(p.ttl(), 5);
    let result = p.advance(RoutingDecision::Delivered).unwrap();
    assert!(result.success);
    assert_eq!(result.hops, 5);
    assert_eq!(result.gravity_hops, 2);
    assert_eq!(result.pressure_hops, 1);
    assert_eq!(result.tree_hops, 2);
    let path: Vec<&str> = result.path.iter().map(|n| n.0.as_str()).collect();
    assert_eq!(path, vec!["0", "1", "2", "1", "2", "3"]);
}

#[test]
fn routing_steps_along_a_waypoint_path() {
    let mut g = line_network();
    g.add_node(node("x"));
    g.add_edge(&NodeId::new("0"), &NodeId::new("x"));
    let path = vec![NodeId::new("0"), NodeId::new("1"), NodeId::new("2"), NodeId::new("3")];

    // at "1", the next waypoint "2" is a neighbor
    let at_1 = g.get_node(&NodeId::new("1")).unwrap().clone();
    let mut index = 0usize;
    match g.step_along_path(&at_1, &path, &mut index) {
        Some(RoutingDecision::Forward { next_hop, mode }) => {
            assert_eq!(next_hop.0, "2");
            assert_eq!(mode, RoutingMode::ThorupZwick);
        }
        other => panic!("unexpected decision {:?}", other),
    }
    assert_eq!(index, 2);

    // off the path at "x", the packet keeps its place and heads for waypoint "3"
    // through the first neighbor, as no neighbor links to it
    let at_x = g.get_node(&NodeId::new("x")).unwrap().clone();
    let mut index = 2usize;
    match g.step_along_path(&at_x, &path, &mut index) {
        Some(RoutingDecision::Forward { next_hop, .. }) => assert_eq!(next_hop.0, "0"),
        other => panic!("unexpected decision {:?}", other),
    }
    assert_eq!(index, 3);

    // at the last waypoint there is no step left
    let at_3 = g.get_node(&NodeId::new("3")).unwrap().clone();
    let mut index = 0usize;
    assert!(g.step_along_path(&at_3, &path, &mut index).is_none());
    assert_eq!(index, 3);
}
