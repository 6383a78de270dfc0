//! Enumeration of simple paths by depth-first search.
use vstd::prelude::*;
use crate::graph::{DiGraph, NodeId};
use super::all_pairs::has_arc;
use super::walks::lemma_pigeonhole;

verus! {

/// `p` is a simple node sequence along forward arcs.
pub open spec fn simple_path(g: &DiGraph, p: Seq<NodeId>) -> bool {
    &&& p.len() >= 1
    &&& forall|k: int| 0 <= k < p.len() ==> (#[trigger] p[k]).0 < g.n()
    &&& forall|a: int, b: int| 0 <= a < b < p.len() ==> #[trigger] p[a] != #[trigger] p[b]
    &&& forall|k: int| 0 <= k < p.len() - 1 ==> #[trigger] has_arc(g, p[k].0 as int, p[k + 1].0 as int)
}

/// `p` is a simple path from `s` to `t`.
pub open spec fn st_path(g: &DiGraph, p: Seq<NodeId>, s: NodeId, t: NodeId) -> bool {
    &&& simple_path(g, p)
    &&& p[0] == s
    &&& p.last() == t
}

/// `p` is a simple path to `t` that starts with `pre`.
pub open spec fn completes(g: &DiGraph, p: Seq<NodeId>, pre: Seq<NodeId>, t: NodeId) -> bool {
    &&& simple_path(g, p)
    &&& p.last() == t
    &&& pre.len() <= p.len()
    &&& p.subrange(0, pre.len() as int) == pre
}

/// Node `x` lies on `p`.
pub open spec fn on_path(p: Seq<NodeId>, x: int) -> bool {
    exists|k: int| 0 <= k < p.len() && p[k].0 == x
}

/// No two forward arcs join the same ordered pair of nodes.
pub open spec fn no_parallel(g: &DiGraph) -> bool {
    forall|i: int, j: int|
        0 <= i < g.m() && 0 <= j < g.m() && i % 2 == 0 && j % 2 == 0 && i != j && #[trigger] g.arc_from(i)
            == #[trigger] g.arc_from(j) ==> g.arc_to(i) != g.arc_to(j)
}

/// Some forward arc among the first `j` of the neighbour list `nb` leads to `x`.
pub open spec fn hop_among(nb: Seq<(NodeId, usize)>, j: int, x: NodeId) -> bool {
    exists|q: int| 0 <= q < j && nb[q].1 % 2 == 0 && nb[q].0 == x
}

/// The entries of `r` from position `lo` on are pairwise different.
pub open spec fn distinct_from(r: Seq<Vec<NodeId>>, lo: int) -> bool {
    forall|a: int, b: int| lo <= a < b < r.len() ==> #[trigger] r[a]@ != #[trigger] r[b]@
}

/// The position in the adjacency list of `u` of a forward arc from `u` to
/// `v` (the only one when no belts run in parallel).
pub open spec fn step_pos(g: &DiGraph, u: int, v: int) -> int {
    choose|j: int| 0 <= j < g.adj[u].len() && g.adj[u][j] % 2 == 0 && g.arc_to(g.adj[u][j] as int) == v
}

/// `p` comes before `q` in depth-first order: the two agree up to some
/// node, and from there `p` takes an earlier arc of that node's adjacency
/// list than `q` does.
pub open spec fn dfs_before(g: &DiGraph, p: Seq<NodeId>, q: Seq<NodeId>) -> bool {
    exists|k: int|
        1 <= k < p.len() && k < q.len() && p.subrange(0, k) == q.subrange(0, k) && #[trigger] step_pos(
            g,
            p[k - 1].0 as int,
            p[k].0 as int,
        ) < step_pos(g, q[k - 1].0 as int, q[k].0 as int)
}

/// The entries of `r` from position `lo` on come in depth-first order.
pub open spec fn dfs_sorted_from(g: &DiGraph, r: Seq<Vec<NodeId>>, lo: int) -> bool {
    forall|a: int, b: int| lo <= a < b < r.len() ==> #[trigger] dfs_before(g, r[a]@, r[b]@)
}

/// `p` is among the entries of `r` from position `lo` on.
pub open spec fn listed_from(r: Seq<Vec<NodeId>>, lo: int, p: Seq<NodeId>) -> bool {
    exists|i: int| lo <= i < r.len() && r[i]@ == p
}

/// Without parallel belts, the forward arc at position `j` of the adjacency
/// list of `u` is the one `step_pos` names.
proof fn lemma_step_pos(g: &DiGraph, u: int, j: int)
    requires
        g.wf(),
        no_parallel(g),
        0 <= u < g.n(),
        0 <= j < g.adj[u].len(),
        g.adj[u][j] % 2 == 0,
    ensures
        step_pos(g, u, g.arc_to(g.adj[u][j] as int)) == j,
{
    let v = g.arc_to(g.adj[u][j] as int);
    let j2 = step_pos(g, u, v);
    assert(0 <= j2 < g.adj[u].len() && g.adj[u][j2] % 2 == 0 && g.arc_to(g.adj[u][j2] as int) == v);
    if j2 != j {
        g.lemma_adj(u, j);
        g.lemma_adj(u, j2);
        if j2 < j {
            assert(g.adj[u][j2] < g.adj[u][j]);
        } else {
            assert(g.adj[u][j] < g.adj[u][j2]);
        }
        assert(g.arc_from(g.adj[u][j] as int) == g.arc_from(g.adj[u][j2] as int));
    }
}

/// Two continuations of `pre` whose next arcs sit at positions `ja < jb`
/// of the adjacency list of the last node of `pre` come in that order.
proof fn lemma_before_at(g: &DiGraph, a: Seq<NodeId>, b: Seq<NodeId>, pre: Seq<NodeId>, ja: int, jb: int)
    requires
        g.wf(),
        no_parallel(g),
        pre.len() >= 1,
        a.len() > pre.len(),
        b.len() > pre.len(),
        a.subrange(0, pre.len() as int) == pre,
        b.subrange(0, pre.len() as int) == pre,
        0 <= pre.last().0 < g.n(),
        0 <= ja < jb < g.adj[pre.last().0 as int].len(),
        g.adj[pre.last().0 as int][ja] % 2 == 0,
        g.adj[pre.last().0 as int][jb] % 2 == 0,
        g.arc_to(g.adj[pre.last().0 as int][ja] as int) == a[pre.len() as int].0,
        g.arc_to(g.adj[pre.last().0 as int][jb] as int) == b[pre.len() as int].0,
    ensures
        dfs_before(g, a, b),
{
    let k = pre.len() as int;
    let u = pre.last().0 as int;
    lemma_step_pos(g, u, ja);
    lemma_step_pos(g, u, jb);
    assert(a[k - 1] == a.subrange(0, k)[k - 1]);
    assert(b[k - 1] == b.subrange(0, k)[k - 1]);
    assert(a.subrange(0, k) == b.subrange(0, k));
    assert(step_pos(g, a[k - 1].0 as int, a[k].0 as int) < step_pos(g, b[k - 1].0 as int, b[k].0 as int));
}

/// The views of the entries of `r`.
pub open spec fn views(r: Seq<Vec<NodeId>>) -> Seq<Seq<NodeId>> {
    r.map_values(|v: Vec<NodeId>| v@)
}

/// A simple path has at most `n` nodes.
proof fn lemma_simple_len(g: &DiGraph, p: Seq<NodeId>)
    requires
        simple_path(g, p),
    ensures
        p.len() <= g.n(),
{
    if p.len() > g.n() {
        let s = Seq::new(p.len(), |k: int| p[k].0 as int);
        assert forall|k: int| 0 <= k < s.len() implies 0 <= #[trigger] s[k] < g.n() by {
            assert(p[k].0 < g.n());
        }
        lemma_pigeonhole(s, g.n());
        let (a, b) = choose|a: int, b: int| 0 <= a < b < s.len() && s[a] == s[b];
        assert(p[a] != p[b]);
        assert(p[a].0 == p[b].0);
    }
}

/// Enumerate all simple s-t paths via DFS.  Exponential in the worst case;
/// use only on small graphs or with a count cap.
///
/// Every returned path is a simple path from `source` to `sink` along
/// forward arcs; at most `max_paths` paths are returned, and when fewer
/// are, every such path is among them.  A path is listed once for each way
/// of choosing its arcs, so without parallel belts no path is listed twice.
/// Without parallel belts the paths come in depth-first order (at the first
/// node where two paths part, the one leaving by the earlier arc of that
/// node's adjacency list comes first), and every path left out comes after
/// all listed ones: the result is the first `max_paths` paths in that order.
pub fn all_simple_paths(graph: &DiGraph, source: NodeId, sink: NodeId, max_paths: usize) -> (r: Vec<Vec<NodeId>>)
    requires
        graph.wf(),
        (source.0 as int) < graph.n(),
        (sink.0 as int) < graph.n(),
    ensures
        forall|i: int| 0 <= i < r.len() ==> st_path(graph, #[trigger] r[i]@, source, sink),
        r.len() < max_paths ==> forall|p: Seq<NodeId>|
            #[trigger] st_path(graph, p, source, sink) ==> views(r@).contains(p),
        r.len() <= max_paths,
        no_parallel(graph) ==> distinct_from(r@, 0),
        no_parallel(graph) ==> dfs_sorted_from(graph, r@, 0),
        no_parallel(graph) ==> forall|p: Seq<NodeId>, i: int|
            st_path(graph, p, source, sink) && !views(r@).contains(p) && 0 <= i < r.len() ==> #[trigger] dfs_before(
                graph,
                r[i]@,
                p,
            ),
{
    let mut result: Vec<Vec<NodeId>> = Vec::new();
    let mut visited: Vec<bool> = Vec::new();
    let n = graph.node_count();
    let mut i: usize = 0;
    while i < n
        invariant
            i <= n,
            visited@.len() == i,
            forall|x: int| 0 <= x < i ==> !#[trigger] visited@[x],
        decreases n - i,
    {
        visited.push(false);
        i += 1;
    }
    visited.set(source.0 as usize, true);
    let mut path: Vec<NodeId> = Vec::new();
    path.push(source);
    proof {
        assert forall|x: int| 0 <= x < n implies #[trigger] visited@[x] == on_path(path@, x) by {
            if x == source.0 {
                assert(path@[0].0 == x);
            }
        }
        assert(simple_path(graph, path@));
    }
    dfs_paths(graph, source, sink, &mut visited, &mut path, &mut result, max_paths);
    proof {
        assert forall|i: int| 0 <= i < result.len() implies st_path(graph, #[trigger] result[i]@, source, sink) by {
            assert(result@[i]@.subrange(0, 1)[0] == source);
        }
        if no_parallel(graph) {
            assert forall|p: Seq<NodeId>, i: int|
                st_path(graph, p, source, sink) && !views(result@).contains(p) && 0 <= i < result.len() implies #[trigger] dfs_before(
                    graph,
                    result@[i]@,
                    p,
                ) by {
                assert(p.subrange(0, 1) =~= seq![source]);
                assert(completes(graph, p, seq![source], sink));
                if listed_from(result@, 0, p) {
                    let w = choose|w: int| 0 <= w < result.len() && result@[w]@ == p;
                    assert(views(result@)[w] == p);
                }
            }
        }
        if result.len() < max_paths {
            assert forall|p: Seq<NodeId>| #[trigger] st_path(graph, p, source, sink) implies views(result@).contains(p) by {
                assert(p.subrange(0, 1) =~= seq![source]);
                assert(completes(graph, p, seq![source], sink));
                let i = choose|i: int| 0 <= i < result.len() && result@[i]@ == p;
                assert(views(result@)[i] == p);
            }
        }
    }
    result
}

fn dfs_paths(
    graph: &DiGraph,
    u: NodeId,
    sink: NodeId,
    visited: &mut Vec<bool>,
    path: &mut Vec<NodeId>,
    result: &mut Vec<Vec<NodeId>>,
    cap: usize,
)
    requires
        graph.wf(),
        (sink.0 as int) < graph.n(),
        simple_path(graph, old(path)@),
        old(path)@.last() == u,
        old(visited)@.len() == graph.n(),
        forall|x: int| 0 <= x < graph.n() ==> #[trigger] old(visited)@[x] == on_path(old(path)@, x),
    ensures
        final(visited)@ == old(visited)@,
        final(path)@ == old(path)@,
        final(result)@.len() >= old(result)@.len(),
        forall|i: int| 0 <= i < old(result)@.len() ==> #[trigger] final(result)@[i] == old(result)@[i],
        forall|i: int|
            old(result)@.len() <= i < final(result)@.len() ==> completes(graph, #[trigger] final(result)@[i]@, old(path)@, sink),
        final(result)@.len() < cap ==> forall|p: Seq<NodeId>|
            #[trigger] completes(graph, p, old(path)@, sink) ==> exists|i: int|
                old(result)@.len() <= i < final(result)@.len() && final(result)@[i]@ == p,
        old(result)@.len() <= cap ==> final(result)@.len() <= cap,
        final(result)@.len() > old(result)@.len() ==> old(result)@.len() < cap,
        no_parallel(graph) ==> distinct_from(final(result)@, old(result)@.len() as int),
        no_parallel(graph) ==> dfs_sorted_from(graph, final(result)@, old(result)@.len() as int),
        no_parallel(graph) ==> forall|p: Seq<NodeId>, i: int|
            completes(graph, p, old(path)@, sink) && !listed_from(final(result)@, old(result)@.len() as int, p)
                && old(result)@.len() <= i < final(result)@.len() ==> #[trigger] dfs_before(graph, final(result)@[i]@, p),
    decreases graph.n() - old(path)@.len(),
{
    proof {
        lemma_simple_len(graph, path@);
    }
    let ghost p0 = path@;
    let ghost r0 = result@;
    if u == sink {
        if result.len() >= cap {
            return;
        }
        let mut copy: Vec<NodeId> = Vec::new();
        let mut k: usize = 0;
        while k < path.len()
            invariant
                k <= path@.len(),
                copy@ == path@.subrange(0, k as int),
            decreases path.len() - k,
        {
            copy.push(path[k]);
            k += 1;
        }
        result.push(copy);
        proof {
            assert(copy@ =~= p0);
            assert(completes(graph, result@[r0.len() as int]@, p0, sink)) by {
                assert(p0.subrange(0, p0.len() as int) =~= p0);
            }
            assert forall|p: Seq<NodeId>| #[trigger] completes(graph, p, p0, sink) implies exists|i: int|
                r0.len() <= i < result@.len() && result@[i]@ == p by {
                if p.len() > p0.len() {
                    assert(p[p0.len() - 1] == p0[p0.len() - 1]);
                    assert(p[p0.len() - 1] == p[p.len() - 1]);
                }
                assert(p =~= p0);
                assert(result@[r0.len() as int]@ == p);
            }
        }
        return;
    }
    if result.len() >= cap {
        return;
    }
    let nb = graph.neighbors(u);
    let plen = path.len();
    let mut j: usize = 0;
    while j < nb.len()
        invariant
            graph.wf(),
            (sink.0 as int) < graph.n(),
            u != sink,
            u == p0.last(),
            simple_path(graph, p0),
            p0.len() <= graph.n(),
            plen == p0.len(),
            path@ == p0,
            old(path)@ == p0,
            visited@.len() == graph.n(),
            forall|x: int| 0 <= x < graph.n() ==> #[trigger] visited@[x] == on_path(p0, x),
            nb.len() == graph.adj[u.0 as int].len(),
            forall|q: int|
                0 <= q < nb.len() ==> #[trigger] nb[q] == (
                    graph.edges[graph.adj[u.0 as int][q] as int].to,
                    graph.adj[u.0 as int][q],
                ),
            j <= nb.len(),
            r0.len() <= cap ==> result@.len() <= cap,
            result@.len() >= r0.len(),
            forall|i: int| 0 <= i < r0.len() ==> #[trigger] result@[i] == r0[i],
            forall|i: int| r0.len() <= i < result@.len() ==> completes(graph, #[trigger] result@[i]@, p0, sink),
            result@.len() < cap ==> forall|p: Seq<NodeId>|
                #[trigger] completes(graph, p, p0, sink) && (exists|q: int|
                    0 <= q < j && nb[q].1 % 2 == 0 && nb[q].0 == p[p0.len() as int]) ==> exists|i: int|
                    r0.len() <= i < result@.len() && result@[i]@ == p,
            forall|i: int|
                r0.len() <= i < result@.len() ==> hop_among(nb@, j as int, (#[trigger] result@[i])@[p0.len() as int]),
            no_parallel(graph) ==> distinct_from(result@, r0.len() as int),
            result@.len() > r0.len() ==> r0.len() < cap,
            no_parallel(graph) ==> dfs_sorted_from(graph, result@, r0.len() as int),
            no_parallel(graph) ==> forall|p: Seq<NodeId>, i: int|
                completes(graph, p, p0, sink) && !listed_from(result@, r0.len() as int, p) && r0.len() <= i
                    < result@.len() ==> #[trigger] dfs_before(graph, result@[i]@, p),
        decreases nb.len() - j,
    {
        let (v, idx) = nb[j];
        proof {
            graph.lemma_adj(u.0 as int, j as int);
            graph.lemma_arc(idx as int);
        }
        if idx % 2 == 0 {
            let vi = v.0 as usize;
            if !visited[vi] {
                let ghost ra = result@;
                let ghost vis0 = visited@;
                visited.set(vi, true);
                path.push(v);
                proof {
                    let p1 = path@;
                    assert(p1 == p0.push(v));
                    assert(has_arc(graph, u.0 as int, v.0 as int)) by {
                        assert(graph.arc_from(idx as int) == u.0 && graph.arc_to(idx as int) == v.0);
                    }
                    assert(simple_path(graph, p1)) by {
                        assert forall|a: int, b: int| 0 <= a < b < p1.len() implies #[trigger] p1[a] != #[trigger] p1[b] by {
                            if b == p0.len() {
                                if p1[a] == v {
                                    assert(on_path(p0, v.0 as int));
                                }
                            } else {
                                assert(p0[a] != p0[b]);
                            }
                        }
                        assert forall|k: int| 0 <= k < p1.len() - 1 implies #[trigger] has_arc(graph, p1[k].0 as int, p1[k + 1].0 as int) by {
                            if k < p0.len() - 1 {
                                assert(has_arc(graph, p0[k].0 as int, p0[k + 1].0 as int));
                            }
                        }
                    }
                    lemma_simple_len(graph, p1);
                    assert forall|x: int| 0 <= x < graph.n() implies #[trigger] visited@[x] == on_path(p1, x) by {
                        if x == vi {
                            assert(p1[p0.len() as int].0 == x);
                        } else {
                            if on_path(p1, x) {
                                let k = choose|k: int| 0 <= k < p1.len() && p1[k].0 == x;
                                assert(p0[k].0 == x);
                            }
                            if on_path(p0, x) {
                                let k = choose|k: int| 0 <= k < p0.len() && p0[k].0 == x;
                                assert(p1[k].0 == x);
                            }
                        }
                    }
                }
                dfs_paths(graph, v, sink, visited, path, result, cap);
                let ghost p1 = path@;
                path.pop();
                visited.set(vi, false);
                proof {
                    assert(path@ =~= p0);
                    assert(visited@ =~= vis0);
                    assert forall|i: int| r0.len() <= i < result@.len() implies completes(graph, #[trigger] result@[i]@, p0, sink) by {
                        if i >= ra.len() {
                            let p = result@[i]@;
                            assert(p.subrange(0, p1.len() as int) == p1);
                            assert(p.subrange(0, p0.len() as int) =~= p1.subrange(0, p0.len() as int));
                        }
                    }
                    assert forall|i: int| ra.len() <= i < result@.len() implies (#[trigger] result@[i])@[p0.len() as int] == v by {
                        let p = result@[i]@;
                        assert(p.subrange(0, p1.len() as int) == p1);
                        assert(p.subrange(0, p1.len() as int)[p0.len() as int] == p[p0.len() as int]);
                    }
                    assert forall|i: int|
                        r0.len() <= i < result@.len() implies hop_among(nb@, j + 1, (#[trigger] result@[i])@[p0.len() as int]) by {
                        if i >= ra.len() {
                            assert(nb[j as int].0 == result@[i]@[p0.len() as int]);
                            assert(nb[j as int].1 % 2 == 0);
                        } else {
                            assert(result@[i] == ra[i]);
                            assert(hop_among(nb@, j as int, ra[i]@[p0.len() as int]));
                            let q = choose|q: int| 0 <= q < j && nb@[q].1 % 2 == 0 && nb@[q].0 == ra[i]@[p0.len() as int];
                            assert(0 <= q < j + 1);
                        }
                    }
                    if no_parallel(graph) {
                        assert forall|a: int, b: int| r0.len() <= a < b < result@.len() implies #[trigger] result@[a]@
                            != #[trigger] result@[b]@ by {
                            if b >= ra.len() && a < ra.len() {
                                assert(result@[a] == ra[a]);
                                assert(hop_among(nb@, j as int, ra[a]@[p0.len() as int]));
                                let q = choose|q: int| 0 <= q < j && nb@[q].1 % 2 == 0 && nb@[q].0 == ra[a]@[p0.len() as int];
                                let ia = graph.adj[u.0 as int][q] as int;
                                let ib = graph.adj[u.0 as int][j as int] as int;
                                graph.lemma_adj(u.0 as int, q);
                                assert(ia < ib);
                                assert(graph.arc_from(ia) == graph.arc_from(ib));
                                if result@[a]@ == result@[b]@ {
                                    assert(graph.arc_to(ia) == graph.arc_to(ib));
                                }
                            } else if a < ra.len() {
                                assert(result@[a] == ra[a]);
                                assert(result@[b] == ra[b]);
                            }
                        }
                        let k = p0.len() as int;
                        let uu = u.0 as int;
                        graph.lemma_adj(uu, j as int);
                        assert(graph.arc_to(graph.adj[uu][j as int] as int) == v.0);
                        assert forall|a: int, b: int| r0.len() <= a < b < result@.len() implies #[trigger] dfs_before(
                            graph,
                            result@[a]@,
                            result@[b]@,
                        ) by {
                            if b < ra.len() {
                                assert(result@[a] == ra[a]);
                                assert(result@[b] == ra[b]);
                                assert(dfs_before(graph, ra[a]@, ra[b]@));
                            } else if a < ra.len() {
                                assert(result@[a] == ra[a]);
                                assert(hop_among(nb@, j as int, ra[a]@[k]));
                                let q = choose|q: int| 0 <= q < j && nb@[q].1 % 2 == 0 && nb@[q].0 == ra[a]@[k];
                                graph.lemma_adj(uu, q);
                                assert(completes(graph, result@[a]@, p0, sink));
                                assert(completes(graph, result@[b]@, p0, sink));
                                assert(result@[b]@[k] == v);
                                assert(result@[a]@.len() > k) by {
                                    if result@[a]@.len() == k {
                                        assert(result@[a]@ =~= p0);
                                    }
                                }
                                assert(result@[b]@.len() > k) by {
                                    if result@[b]@.len() == k {
                                        assert(result@[b]@ =~= p0);
                                    }
                                }
                                lemma_before_at(graph, result@[a]@, result@[b]@, p0, q, j as int);
                            }
                        }
                        assert forall|p: Seq<NodeId>, i: int|
                            completes(graph, p, p0, sink) && !listed_from(result@, r0.len() as int, p) && r0.len() <= i
                                < result@.len() implies #[trigger] dfs_before(graph, result@[i]@, p) by {
                            assert(p.len() > k) by {
                                if p.len() == k {
                                    assert(p =~= p0);
                                }
                            }
                            if i < ra.len() {
                                assert(result@[i] == ra[i]);
                                assert(!listed_from(ra, r0.len() as int, p)) by {
                                    if listed_from(ra, r0.len() as int, p) {
                                        let w = choose|w: int| r0.len() <= w < ra.len() && ra[w]@ == p;
                                        assert(result@[w] == ra[w]);
                                    }
                                }
                                assert(dfs_before(graph, ra[i]@, p));
                            } else {
                                assert(ra.len() < cap);
                                assert(p[k - 1] == p.subrange(0, k)[k - 1]);
                                let kk = k - 1;
                                assert(simple_path(graph, p));
                                assert(0 <= kk < p.len() - 1);
                                assert(has_arc(graph, p[kk].0 as int, p[kk + 1].0 as int));
                                assert(kk + 1 == k);
                                assert(p[k - 1] == p0.last());
                                let ia = choose|ia: int|
                                    0 <= ia < graph.m() && ia % 2 == 0 && #[trigger] graph.arc_from(ia) == uu && graph.arc_to(ia)
                                        == p[k].0;
                                graph.lemma_arc(ia);
                                let q = choose|q: int| 0 <= q < graph.adj[uu].len() && graph.adj[uu][q] == ia as usize;
                                assert(nb[q].1 % 2 == 0 && nb[q].0 == p[k]);
                                assert(completes(graph, result@[i]@, p0, sink));
                                assert(result@[i]@[k] == v);
                                assert(result@[i]@.len() > k) by {
                                    if result@[i]@.len() == k {
                                        assert(result@[i]@ =~= p0);
                                    }
                                }
                                if q < j {
                                    assert(exists|q2: int| 0 <= q2 < j && nb[q2].1 % 2 == 0 && nb[q2].0 == p[p0.len() as int]);
                                    let w = choose|w: int| r0.len() <= w < ra.len() && ra[w]@ == p;
                                    assert(result@[w] == ra[w]);
                                    assert(listed_from(result@, r0.len() as int, p));
                                } else if q == j {
                                    assert(p[k] == v);
                                    assert(p.subrange(0, p1.len() as int) =~= p1) by {
                                        assert(p.subrange(0, p0.len() as int) == p0);
                                        assert forall|x: int| 0 <= x < p1.len() implies p.subrange(0, p1.len() as int)[x] == p1[x] by {
                                            if x < p0.len() {
                                                assert(p.subrange(0, p0.len() as int)[x] == p0[x]);
                                            }
                                        }
                                    }
                                    assert(completes(graph, p, p1, sink));
                                    assert(!listed_from(result@, ra.len() as int, p)) by {
                                        if listed_from(result@, ra.len() as int, p) {
                                            let w = choose|w: int| ra.len() <= w < result@.len() && result@[w]@ == p;
                                            assert(listed_from(result@, r0.len() as int, p));
                                        }
                                    }
                                } else {
                                    graph.lemma_adj(uu, q);
                                    lemma_before_at(graph, result@[i]@, p, p0, j as int, q);
                                }
                            }
                        }
                    }
                    if result@.len() < cap {
                        assert forall|p: Seq<NodeId>|
                            #[trigger] completes(graph, p, p0, sink) && (exists|q: int|
                                0 <= q < j + 1 && nb[q].1 % 2 == 0 && nb[q].0 == p[p0.len() as int]) implies exists|i: int|
                                r0.len() <= i < result@.len() && result@[i]@ == p by {
                            if p[p0.len() as int] == v {
                                if p.len() == p0.len() {
                                    assert(p.last() == sink);
                                    assert(p =~= p0);
                                }
                                assert(p.subrange(0, p1.len() as int) =~= p1) by {
                                    assert(p.subrange(0, p0.len() as int) == p0);
                                    assert forall|k: int| 0 <= k < p1.len() implies p.subrange(0, p1.len() as int)[k] == p1[k] by {
                                        if k < p0.len() {
                                            assert(p.subrange(0, p0.len() as int)[k] == p0[k]);
                                        }
                                    }
                                }
                                assert(completes(graph, p, p1, sink));
                            } else {
                                let q = choose|q: int| 0 <= q < j + 1 && nb[q].1 % 2 == 0 && nb[q].0 == p[p0.len() as int];
                                assert(q < j);
                                let i = choose|i: int| r0.len() <= i < ra.len() && ra[i]@ == p;
                                assert(result@[i] == ra[i]);
                            }
                        }
                    }
                }
            } else {
                proof {
                    assert forall|i: int|
                        r0.len() <= i < result@.len() implies hop_among(nb@, j + 1, (#[trigger] result@[i])@[p0.len() as int]) by {
                        assert(hop_among(nb@, j as int, result@[i]@[p0.len() as int]));
                        let q = choose|q: int| 0 <= q < j && nb@[q].1 % 2 == 0 && nb@[q].0 == result@[i]@[p0.len() as int];
                        assert(0 <= q < j + 1);
                    }
                    if result@.len() < cap {
                        assert forall|p: Seq<NodeId>|
                            #[trigger] completes(graph, p, p0, sink) && (exists|q: int|
                                0 <= q < j + 1 && nb[q].1 % 2 == 0 && nb[q].0 == p[p0.len() as int]) implies exists|i: int|
                                r0.len() <= i < result@.len() && result@[i]@ == p by {
                            if p[p0.len() as int] == v {
                                assert(on_path(p0, v.0 as int));
                                let k = choose|k: int| 0 <= k < p0.len() && p0[k].0 == v.0;
                                assert(p[k] == p0[k]);
                                if p.len() == p0.len() {
                                    assert(false);
                                }
                                assert(p[k] != p[p0.len() as int]);
                            }
                        }
                    }
                }
            }
        } else {
            proof {
                assert forall|i: int|
                    r0.len() <= i < result@.len() implies hop_among(nb@, j + 1, (#[trigger] result@[i])@[p0.len() as int]) by {
                    assert(hop_among(nb@, j as int, result@[i]@[p0.len() as int]));
                    let q = choose|q: int| 0 <= q < j && nb@[q].1 % 2 == 0 && nb@[q].0 == result@[i]@[p0.len() as int];
                    assert(0 <= q < j + 1);
                }
            }
        }
        j += 1;
    }
    proof {
        if result@.len() < cap {
            assert forall|p: Seq<NodeId>| #[trigger] completes(graph, p, p0, sink) implies exists|i: int|
                r0.len() <= i < result@.len() && result@[i]@ == p by {
                if p.len() == p0.len() {
                    assert(p =~= p0);
                }
                assert(p[p0.len() - 1] == p0[p0.len() - 1]);
                let k = p0.len() - 1;
                assert(has_arc(graph, p[k].0 as int, p[k + 1].0 as int));
                let i = choose|i: int|
                    0 <= i < graph.m() && i % 2 == 0 && #[trigger] graph.arc_from(i) == u.0 && graph.arc_to(i) == p[p0.len() as int].0;
                graph.lemma_arc(i);
                let q = choose|q: int| 0 <= q < graph.adj[u.0 as int].len() && graph.adj[u.0 as int][q] == i as usize;
                assert(nb[q].1 % 2 == 0 && nb[q].0 == p[p0.len() as int]);
            }
        }
    }
}

} // verus!
