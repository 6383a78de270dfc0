//! Shortest paths, all-pairs distances and simple-path enumeration.

use stanchion::graph::{Capacity, Cost, DiGraph, GraphBuilder, NodeId};
use stanchion::routing::{all_simple_paths, bellman_ford, dijkstra, floyd_warshall, reconstruct_path};

fn triangle() -> (DiGraph, NodeId, NodeId, NodeId) {
    // s -1-> a -2-> t
    //  \----3---->/
    let (b, s) = GraphBuilder::new().add_stanchion("s");
    let (b, a) = b.add_stanchion("a");
    let (b, t) = b.add_stanchion("t");
    let g = b
        .source(s)
        .sink(t)
        .connect(s, a, Capacity(1), Cost(1))
        .connect(a, t, Capacity(1), Cost(2))
        .connect(s, t, Capacity(1), Cost(3))
        .build()
        .unwrap();
    (g, s, a, t)
}

fn line_graph() -> (DiGraph, NodeId, NodeId, NodeId) {
    // s -1-> m -2-> t
    let (b, s) = GraphBuilder::new().add_stanchion("s");
    let (b, m) = b.add_stanchion("m");
    let (b, t) = b.add_stanchion("t");
    let g = b.source(s).sink(t).connect(s, m, Capacity(1), Cost(1)).connect(m, t, Capacity(1), Cost(2)).build().unwrap();
    (g, s, m, t)
}

fn diamond() -> (DiGraph, NodeId, NodeId, NodeId, NodeId) {
    // s -1-> a -2-> t
    // s -4-> b -1-> t
    let (b, s) = GraphBuilder::new().add_stanchion("s");
    let (b, a) = b.add_stanchion("a");
    let (b, bv) = b.add_stanchion("b");
    let (b, t) = b.add_stanchion("t");
    let g = b
        .source(s)
        .sink(t)
        .connect(s, a, Capacity(1), Cost(1))
        .connect(a, t, Capacity(1), Cost(2))
        .connect(s, bv, Capacity(1), Cost(4))
        .connect(bv, t, Capacity(1), Cost(1))
        .build()
        .unwrap();
    (g, s, a, bv, t)
}

#[test]
fn dijkstra_shortest_path() {
    let (g, s, _, t) = triangle();
    let r = dijkstra(&g, s);
    // both s->a->t (cost 3) and s->t (cost 3) are shortest; check distance only
    assert_eq!(r.distances[t.0 as usize], Some(3));
    let path = reconstruct_path(&r, &g, t);
    // path must start at s and end at t
    assert_eq!(*path.first().unwrap(), s);
    assert_eq!(*path.last().unwrap(), t);
}

#[test]
fn dijkstra_unreachable() {
    // start from 'a'; there is no arc from a back to s in the forward graph
    let (b, s) = GraphBuilder::new().add_stanchion("s");
    let (b, a) = b.add_stanchion("a");
    let (b, t) = b.add_stanchion("t");
    let g = b.source(s).sink(t).connect(s, a, Capacity(1), Cost(1)).connect(a, t, Capacity(1), Cost(2)).build().unwrap();
    let r = dijkstra(&g, a);
    // s is not reachable from a in the forward graph
    assert!(r.distances[s.0 as usize].is_none());
    assert_eq!(r.distances[t.0 as usize], Some(2));
}

#[test]
fn mod_bellman_ford_matches_dijkstra() {
    let (g, s, _, t) = triangle();
    let bfd = bellman_ford(&g, s).expect("no neg cycle");
    let dij = dijkstra(&g, s);
    assert_eq!(bfd.distances[t.0 as usize], dij.distances[t.0 as usize]);
}

#[test]
fn mod_floyd_warshall_all_pairs() {
    let (g, s, a, t) = triangle();
    let ap = floyd_warshall(&g);
    assert_eq!(ap.dist[s.0 as usize][t.0 as usize], Some(3));
    assert_eq!(ap.dist[s.0 as usize][a.0 as usize], Some(1));
    assert_eq!(ap.dist[a.0 as usize][t.0 as usize], Some(2));
}

#[test]
fn all_simple_paths_found() {
    let (g, s, _, t) = triangle();
    let paths = all_simple_paths(&g, s, t, 10);
    assert_eq!(paths.len(), 2); // s->a->t and s->t
}

#[test]
fn dijkstra_line() {
    let (g, s, m, t) = line_graph();
    let r = dijkstra(&g, s);
    assert_eq!(r.distances[m.0 as usize], Some(1));
    assert_eq!(r.distances[t.0 as usize], Some(3));
    let path = reconstruct_path(&r, &g, t);
    assert_eq!(path, vec![s, m, t]);
}

#[test]
fn dijkstra_shortest_of_two_paths() {
    let (g, s, a, _bv, t) = diamond();
    let r = dijkstra(&g, s);
    // s->a->t = 1+2 = 3; s->b->t = 4+1 = 5; shortest is s->a->t
    assert_eq!(r.distances[t.0 as usize], Some(3));
    let path = reconstruct_path(&r, &g, t);
    assert_eq!(path, vec![s, a, t]);
}

#[test]
fn routing_bellman_ford_matches_dijkstra() {
    let (g, s, _, t) = line_graph();
    let bfr = bellman_ford(&g, s).expect("no negative cycle");
    let dij = dijkstra(&g, s);
    assert_eq!(bfr.distances[t.0 as usize], dij.distances[t.0 as usize]);
}

#[test]
fn routing_floyd_warshall_all_pairs() {
    let (g, s, a, bv, t) = diamond();
    let ap = floyd_warshall(&g);
    let si = s.0 as usize;
    let ai = a.0 as usize;
    let bi = bv.0 as usize;
    let ti = t.0 as usize;

    assert_eq!(ap.dist[si][ai], Some(1));
    assert_eq!(ap.dist[si][bi], Some(4));
    assert_eq!(ap.dist[si][ti], Some(3));
    assert_eq!(ap.dist[ai][ti], Some(2));
    // no path back from t to s
    assert!(ap.dist[ti][si].is_none());
    // first hops
    assert_eq!(ap.next[si][ti], Some(a));
    assert_eq!(ap.next[si][si], None);
    assert_eq!(ap.dist[si][si], Some(0));
}

#[test]
fn all_simple_paths_diamond() {
    let (g, s, _, _, t) = diamond();
    let paths = all_simple_paths(&g, s, t, 10);
    assert_eq!(paths.len(), 2);
    // paths must start at s and end at t
    for p in &paths {
        assert_eq!(*p.first().unwrap(), s);
        assert_eq!(*p.last().unwrap(), t);
    }
}

#[test]
fn all_simple_paths_respects_limit() {
    let (g, s, _, _, t) = diamond();
    assert_eq!(all_simple_paths(&g, s, t, 1).len(), 1);
    assert_eq!(all_simple_paths(&g, t, s, 10).len(), 0);
}

#[test]
fn dijkstra_unreachable_node() {
    let (g, _, m, t) = line_graph();
    // starting from m: s is not reachable (edges are directed s->m->t)
    let r = dijkstra(&g, m);
    assert!(r.distances[NodeId(0).0 as usize].is_none());
    assert_eq!(r.distances[t.0 as usize], Some(2));
}

#[test]
fn bellman_ford_detects_negative_cycle() {
    let (b, s) = GraphBuilder::new().add_stanchion("s");
    let (b, a) = b.add_stanchion("a");
    let (b, c) = b.add_stanchion("c");
    let g = b
        .source(s)
        .sink(c)
        .connect(s, a, Capacity(1), Cost(1))
        .connect(a, c, Capacity(1), Cost(-3))
        .connect(c, a, Capacity(1), Cost(1))
        .build()
        .unwrap();
    assert!(bellman_ford(&g, s).is_none());
}

#[test]
fn bellman_ford_negative_arc_without_cycle() {
    let (b, s) = GraphBuilder::new().add_stanchion("s");
    let (b, a) = b.add_stanchion("a");
    let (b, t) = b.add_stanchion("t");
    let g = b
        .source(s)
        .sink(t)
        .connect(s, a, Capacity(1), Cost(5))
        .connect(a, t, Capacity(1), Cost(-4))
        .connect(s, t, Capacity(1), Cost(2))
        .build()
        .unwrap();
    let r = bellman_ford(&g, s).unwrap();
    assert_eq!(r.distances[t.0 as usize], Some(1));
    assert_eq!(reconstruct_path(&r, &g, t), vec![s, a, t]);
}

#[test]
fn reconstruct_path_of_unreached_node() {
    let (g, _, m, _) = line_graph();
    let r = dijkstra(&g, m);
    assert!(reconstruct_path(&r, &g, NodeId(0)).is_empty());
}

#[test]
fn floyd_warshall_rows_match_dijkstra_and_bellman_ford() {
    let (g, _, _, _, _) = diamond();
    let ap = floyd_warshall(&g);
    for u in 0..g.node_count() {
        let dij = dijkstra(&g, NodeId(u as u32));
        let bf = bellman_ford(&g, NodeId(u as u32)).expect("no negative cycle");
        assert_eq!(ap.dist[u], dij.distances);
        assert_eq!(bf.distances, dij.distances);
    }
}

#[test]
fn all_simple_paths_stops_at_the_limit() {
    // two parallel belts from s to t
    let (b, s) = GraphBuilder::new().add_stanchion("s");
    let (b, t) = b.add_stanchion("t");
    let g = b.source(s).sink(t).connect(s, t, Capacity(1), Cost(1)).connect(s, t, Capacity(1), Cost(2)).build().unwrap();
    assert_eq!(all_simple_paths(&g, s, t, 1).len(), 1);
    assert_eq!(all_simple_paths(&g, s, t, 5).len(), 2);
}

#[test]
fn floyd_warshall_of_an_empty_graph() {
    let g = GraphBuilder::new().graph;
    let ap = floyd_warshall(&g);
    assert!(ap.dist.is_empty());
    assert!(ap.next.is_empty());
}

#[test]
fn floyd_warshall_first_hop_starts_the_cheapest_path() {
    let (g, s, a, bv, t) = diamond();
    let ap = floyd_warshall(&g);
    assert_eq!(ap.next[s.0 as usize][t.0 as usize], Some(a));
    assert_eq!(ap.next[bv.0 as usize][t.0 as usize], Some(t));
    assert_eq!(ap.next[t.0 as usize][s.0 as usize], None);
}

#[test]
fn bellman_ford_predecessors_lead_back_to_the_source() {
    let (g, s, a, _bv, t) = diamond();
    let r = bellman_ford(&g, s).unwrap();
    assert_eq!(r.predecessors[s.0 as usize], None);
    assert!(r.predecessors[a.0 as usize].is_some());
    assert_eq!(reconstruct_path(&r, &g, t), vec![s, a, t]);
}

#[test]
fn all_simple_paths_in_depth_first_order() {
    let (g, s, a, t) = triangle();
    assert_eq!(all_simple_paths(&g, s, t, 10), vec![vec![s, a, t], vec![s, t]]);
    assert_eq!(all_simple_paths(&g, s, t, 1), vec![vec![s, a, t]]);
}

#[test]
fn reconstructed_path_costs_the_distance() {
    let (g, s, _a, _bv, t) = diamond();
    for r in [dijkstra(&g, s), bellman_ford(&g, s).unwrap()] {
        let p = reconstruct_path(&r, &g, t);
        assert_eq!(p[0], s);
        let cost: i128 = p
            .windows(2)
            .map(|w| {
                let i = r.predecessors[w[1].0 as usize].unwrap();
                g.edges[i].cost.0 as i128
            })
            .sum();
        assert_eq!(Some(cost), r.distances[t.0 as usize]);
    }
}
