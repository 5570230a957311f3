//! The depth-first walk reaches every node it can reach, and stops.

use vstd::prelude::*;

use crate::routing::{
    dfs_step, id_pool, is_walk, least_fresh, lemma_id_pool, lemma_least_fresh, link_at, links, node_index, reachable_in,
    DecisionView, DfsView, RoutingNode,
};

verus! {

/// The neighbors of `u` in the network; an identifier that is no node has none.
pub open spec fn nbrs_of(nodes: Seq<RoutingNode>, u: Seq<char>) -> Seq<Seq<char>> {
    match node_index(nodes, u) {
        Some(i) => nodes[i].neighbor_ids(),
        None => Seq::empty(),
    }
}

/// The walk from `cur` for at most `fuel` steps, each step taken from the node the
/// previous one moved to: where it is, its state, and whether it stopped.
pub open spec fn dfs_run(nodes: Seq<RoutingNode>, cur: Seq<char>, walk: DfsView, fuel: nat) -> (Seq<char>, DfsView, bool)
    decreases fuel,
{
    if fuel == 0 {
        (cur, walk, false)
    } else {
        let (d, after) = dfs_step(walk, cur, nbrs_of(nodes, cur));
        match d {
            Some(DecisionView::Forward { next_hop, .. }) => dfs_run(nodes, next_hop, after, (fuel - 1) as nat),
            _ => (cur, after, true),
        }
    }
}

/// Every identifier the walk can meet: the start and every listed neighbor.
pub open spec fn universe(nodes: Seq<RoutingNode>, start: Seq<char>) -> Set<Seq<char>> {
    (seq![start] + id_pool(nodes)).to_set()
}

/// What holds before each step of a walk from `start`: the nodes it has seen (with the
/// current one) are identifiers it can meet, the start among them; the way back holds
/// seen nodes; and a seen node that is neither current nor on the way back has every
/// neighbor seen.
pub open spec fn dfs_inv(nodes: Seq<RoutingNode>, start: Seq<char>, cur: Seq<char>, walk: DfsView) -> bool {
    &&& walk.visited.insert(cur).subset_of(universe(nodes, start))
    &&& walk.visited.insert(cur).contains(start)
    &&& walk.visited.finite()
    &&& forall|i: int| 0 <= i < walk.stack.len() ==> walk.visited.contains(#[trigger] walk.stack[i])
    &&& forall|u: Seq<char>|
        #[trigger] walk.visited.contains(u) && u != cur && !walk.stack.contains(u) ==> forall|y: Seq<char>|
            #[trigger] nbrs_of(nodes, u).contains(y) ==> walk.visited.contains(y)
}

/// How much walking is left at most: twice the identifiers not yet seen, plus the way
/// back.
pub open spec fn dfs_measure(nodes: Seq<RoutingNode>, start: Seq<char>, cur: Seq<char>, walk: DfsView) -> int {
    (2 * (universe(nodes, start) - walk.visited.insert(cur)).len() + walk.stack.len()) as int
}

/// The neighbors of a node are identifiers the walk can meet.
proof fn lemma_nbrs_in_universe(nodes: Seq<RoutingNode>, start: Seq<char>, u: Seq<char>, y: Seq<char>)
    requires
        nbrs_of(nodes, u).contains(y),
    ensures
        universe(nodes, start).contains(y),
{
    crate::routing::lemma_node_index_found(nodes, u);
    let i = node_index(nodes, u)->0;
    lemma_id_pool(nodes, i, y);
    let k = choose|k: int| 0 <= k < id_pool(nodes).len() && id_pool(nodes)[k] == y;
    assert((seq![start] + id_pool(nodes))[k + 1] == y);
}

/// A step keeps the invariant and lowers the measure, unless the walk stops; a stop
/// leaves the seen nodes closed under neighbors.
proof fn lemma_dfs_step(nodes: Seq<RoutingNode>, start: Seq<char>, cur: Seq<char>, walk: DfsView)
    requires
        dfs_inv(nodes, start, cur, walk),
    ensures
        ({
            let (d, after) = dfs_step(walk, cur, nbrs_of(nodes, cur));
            match d {
                Some(DecisionView::Forward { next_hop, .. }) => {
                    &&& dfs_inv(nodes, start, next_hop, after)
                    &&& 0 <= dfs_measure(nodes, start, next_hop, after) < dfs_measure(nodes, start, cur, walk)
                },
                _ => {
                    &&& after.visited.contains(start)
                    &&& forall|u: Seq<char>| #[trigger] after.visited.contains(u) ==> forall|y: Seq<char>|
                        #[trigger] nbrs_of(nodes, u).contains(y) ==> after.visited.contains(y)
                },
            }
        }),
{
    let nb = nbrs_of(nodes, cur);
    let seen = walk.visited.insert(cur);
    let univ = universe(nodes, start);
    let (d, after) = dfs_step(walk, cur, nb);
    lemma_least_fresh(nb, seen);
    vstd::set_lib::lemma_len_subset(seen, univ);
    assert(univ.finite()) by {
        vstd::seq_lib::seq_to_set_is_finite(seq![start] + id_pool(nodes));
    }
    match least_fresh(nb, seen) {
        Some(n) => {
            lemma_nbrs_in_universe(nodes, start, cur, n);
            let seen2 = seen.insert(n);
            assert(after.visited == seen);
            assert(after.stack == walk.stack.push(cur));
            assert((univ - seen2) =~= (univ - seen).remove(n));
            assert forall|u: Seq<char>|
                #[trigger] after.visited.contains(u) && u != n && !after.stack.contains(u) implies forall|y: Seq<char>|
                #[trigger] nbrs_of(nodes, u).contains(y) ==> after.visited.contains(y) by {
                assert(u != cur) by {
                    assert(after.stack[walk.stack.len() as int] == cur);
                }
                assert(!walk.stack.contains(u)) by {
                    if walk.stack.contains(u) {
                        let i = choose|i: int| 0 <= i < walk.stack.len() && walk.stack[i] == u;
                        assert(after.stack[i] == u);
                    }
                }
            }
            assert forall|i: int| 0 <= i < after.stack.len() implies after.visited.contains(#[trigger] after.stack[i]) by {
                if i < walk.stack.len() {
                    assert(after.stack[i] == walk.stack[i]);
                }
            }
            assert(seen2.subset_of(univ));
        },
        None => {
            if walk.stack.len() > 0 {
                let w = walk.stack.last();
                assert(walk.visited.contains(w)) by {
                    assert(walk.stack[walk.stack.len() - 1] == w);
                }
                assert(after.visited == seen);
                assert(after.stack == walk.stack.drop_last());
                assert(seen.insert(w) =~= seen);
                assert forall|u: Seq<char>|
                    #[trigger] after.visited.contains(u) && u != w && !after.stack.contains(u) implies forall|y: Seq<char>|
                    #[trigger] nbrs_of(nodes, u).contains(y) ==> after.visited.contains(y) by {
                    if u == cur {
                        assert forall|y: Seq<char>| #[trigger] nbrs_of(nodes, u).contains(y) implies after.visited.contains(y) by {
                            let t = choose|t: int| 0 <= t < nb.len() && nb[t] == y;
                            assert(seen.contains(nb[t]));
                        }
                    } else {
                        assert(!walk.stack.contains(u)) by {
                            if walk.stack.contains(u) {
                                let i = choose|i: int| 0 <= i < walk.stack.len() && walk.stack[i] == u;
                                if i < walk.stack.len() - 1 {
                                    assert(after.stack[i] == u);
                                }
                            }
                        }
                    }
                }
                assert forall|i: int| 0 <= i < after.stack.len() implies after.visited.contains(#[trigger] after.stack[i]) by {
                    assert(after.stack[i] == walk.stack[i]);
                }
            } else {
                assert forall|u: Seq<char>| #[trigger] after.visited.contains(u) implies forall|y: Seq<char>|
                    #[trigger] nbrs_of(nodes, u).contains(y) ==> after.visited.contains(y) by {
                    if u == cur {
                        assert forall|y: Seq<char>| #[trigger] nbrs_of(nodes, u).contains(y) implies after.visited.contains(y) by {
                            let t = choose|t: int| 0 <= t < nb.len() && nb[t] == y;
                            assert(seen.contains(nb[t]));
                        }
                    } else {
                        assert(!walk.stack.contains(u));
                    }
                }
            }
        },
    }
}

/// From a state that keeps the invariant, a walk with more fuel than its measure
/// stops, having seen the start, with the seen nodes closed under neighbors.
proof fn lemma_dfs_run(nodes: Seq<RoutingNode>, start: Seq<char>, cur: Seq<char>, walk: DfsView, fuel: nat)
    requires
        dfs_inv(nodes, start, cur, walk),
        dfs_measure(nodes, start, cur, walk) < fuel,
    ensures
        ({
            let (c, w, stopped) = dfs_run(nodes, cur, walk, fuel);
            &&& stopped
            &&& w.visited.contains(start)
            &&& forall|u: Seq<char>| #[trigger] w.visited.contains(u) ==> forall|y: Seq<char>|
                #[trigger] nbrs_of(nodes, u).contains(y) ==> w.visited.contains(y)
        }),
    decreases fuel,
{
    lemma_dfs_step(nodes, start, cur, walk);
    let (d, after) = dfs_step(walk, cur, nbrs_of(nodes, cur));
    match d {
        Some(DecisionView::Forward { next_hop, .. }) => {
            lemma_dfs_run(nodes, start, next_hop, after, (fuel - 1) as nat);
        },
        _ => {},
    }
}

/// The depth-first walk started at `start` with nothing visited stops within twice as
/// many steps as there are identifiers it can meet (plus one), and by then it has
/// visited every identifier reachable from `start`.
pub proof fn lemma_dfs_visits_reachable(nodes: Seq<RoutingNode>, start: Seq<char>)
    ensures
        ({
            let fuel = (2 * universe(nodes, start).len() + 1) as nat;
            let (c, w, stopped) = dfs_run(nodes, start, DfsView { visited: Set::empty(), stack: Seq::empty() }, fuel);
            &&& stopped
            &&& forall|t: Seq<char>, k: nat| #[trigger] reachable_in(nodes, start, t, k) ==> w.visited.contains(t)
        }),
{
    let walk0 = DfsView { visited: Set::<Seq<char>>::empty(), stack: Seq::<Seq<char>>::empty() };
    let univ = universe(nodes, start);
    let fuel = (2 * univ.len() + 1) as nat;
    assert(univ.contains(start)) by {
        assert((seq![start] + id_pool(nodes))[0] == start);
    }
    assert(univ.finite()) by {
        vstd::seq_lib::seq_to_set_is_finite(seq![start] + id_pool(nodes));
    }
    assert(walk0.visited.insert(start).subset_of(univ));
    vstd::set_lib::lemma_len_subset(univ - walk0.visited.insert(start), univ);
    assert(dfs_inv(nodes, start, start, walk0));
    lemma_dfs_run(nodes, start, start, walk0, fuel);
    let (c, w, stopped) = dfs_run(nodes, start, walk0, fuel);
    assert forall|t: Seq<char>, k: nat| #[trigger] reachable_in(nodes, start, t, k) implies w.visited.contains(t) by {
        let p = choose|p: Seq<Seq<char>>| #[trigger] is_walk(nodes, p) && p.len() == k + 1 && p[0] == start && p.last() == t;
        lemma_walk_inside(nodes, w.visited, p);
    }
}

/// A set that holds the start of a walk and is closed under neighbors holds the whole
/// walk.
proof fn lemma_walk_inside(nodes: Seq<RoutingNode>, seen: Set<Seq<char>>, p: Seq<Seq<char>>)
    requires
        is_walk(nodes, p),
        seen.contains(p[0]),
        forall|u: Seq<char>| #[trigger] seen.contains(u) ==> forall|y: Seq<char>|
            #[trigger] nbrs_of(nodes, u).contains(y) ==> seen.contains(y),
    ensures
        seen.contains(p.last()),
    decreases p.len(),
{
    if p.len() > 1 {
        let q = p.drop_last();
        assert forall|i: int| 0 <= i < q.len() - 1 implies #[trigger] link_at(nodes, q, i) by {
            assert(link_at(nodes, p, i));
        }
        lemma_walk_inside(nodes, seen, q);
        assert(link_at(nodes, p, p.len() - 2));
        assert(links(nodes, q.last(), p.last()));
        assert(nbrs_of(nodes, q.last()).contains(p.last()));
    }
}

} // verus!
