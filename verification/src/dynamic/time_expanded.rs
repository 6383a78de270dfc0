//! Time-expanded graphs for dynamic network flow.
use vstd::prelude::*;
use vstd::string::StringExecFns;
use crate::error::StanchionError;
use crate::graph::{Capacity, Cost, DiGraph, Edge, EdgeId, GraphBuilder, NodeData, NodeId};

verus! {

/// Number of discrete time steps in the expanded graph.
#[derive(Debug, Clone, Copy)]
pub struct TimeHorizon(pub u32);

/// Largest number of expanded nodes that is built.
pub const MAX_EXPANDED_NODES: u64 = 1048576;

/// Capacity of the holding arcs (waiting in place is unlimited).
pub const HOLD_CAPACITY: i64 = 1_000_000_000_000_000_000;

/// Index of the expanded node for base node `v` at time `step`.
pub open spec fn xnode(n: int, v: int, step: int) -> int {
    v + step * n
}

/// The character of decimal digit `k`.
pub open spec fn digit_char(k: int) -> char {
    if k == 0 {
        '0'
    } else if k == 1 {
        '1'
    } else if k == 2 {
        '2'
    } else if k == 3 {
        '3'
    } else if k == 4 {
        '4'
    } else if k == 5 {
        '5'
    } else if k == 6 {
        '6'
    } else if k == 7 {
        '7'
    } else if k == 8 {
        '8'
    } else {
        '9'
    }
}

/// The decimal digits of `x`, without leading zeros.
pub open spec fn decimal(x: nat) -> Seq<char>
    decreases x,
{
    if x < 10 {
        seq![digit_char(x as int)]
    } else {
        decimal(x / 10) + seq![digit_char((x % 10) as int)]
    }
}

/// The label that names expanded node `(v, step)`: `(v,step)` in decimal.
pub open spec fn expanded_label(v: nat, step: nat) -> Seq<char> {
    seq!['('] + decimal(v) + seq![','] + decimal(step) + seq![')']
}

/// Appends the decimal digits of `x` to `s`.
fn push_decimal(s: &mut String, x: usize)
    ensures
        final(s)@ == old(s)@ + decimal(x as nat),
    decreases x,
{
    if x >= 10 {
        push_decimal(s, x / 10);
    }
    let k = x % 10;
    let ghost s0 = s@;
    if k == 0 {
        s.append("0");
        proof {
            reveal_strlit("0");
        }
    } else if k == 1 {
        s.append("1");
        proof {
            reveal_strlit("1");
        }
    } else if k == 2 {
        s.append("2");
        proof {
            reveal_strlit("2");
        }
    } else if k == 3 {
        s.append("3");
        proof {
            reveal_strlit("3");
        }
    } else if k == 4 {
        s.append("4");
        proof {
            reveal_strlit("4");
        }
    } else if k == 5 {
        s.append("5");
        proof {
            reveal_strlit("5");
        }
    } else if k == 6 {
        s.append("6");
        proof {
            reveal_strlit("6");
        }
    } else if k == 7 {
        s.append("7");
        proof {
            reveal_strlit("7");
        }
    } else if k == 8 {
        s.append("8");
        proof {
            reveal_strlit("8");
        }
    } else {
        s.append("9");
        proof {
            reveal_strlit("9");
        }
    }
    proof {
        assert(s@ =~= s0 + seq![digit_char(k as int)]);
        if x >= 10 {
            assert(decimal(x as nat) =~= decimal((x / 10) as nat) + seq![digit_char((x % 10) as int)]);
        } else {
            assert(decimal(x as nat) =~= seq![digit_char(x as int)]);
        }
    }
}

/// Renders the label `(v,step)` of an expanded node.
fn step_label(v: usize, step: usize) -> (s: String)
    ensures
        s@ == expanded_label(v as nat, step as nat),
{
    let mut s = String::new();
    s.append("(");
    push_decimal(&mut s, v);
    s.append(",");
    push_decimal(&mut s, step);
    s.append(")");
    proof {
        reveal_strlit("(");
        reveal_strlit(",");
        reveal_strlit(")");
        assert(s@ =~= expanded_label(v as nat, step as nat));
    }
    s
}

/// Node data carrying the label of `(v, step)`.
pub open spec fn labelled(d: NodeData, v: int, step: int) -> bool {
    match d.label {
        Some(l) => l@ == expanded_label(v as nat, step as nat),
        None => false,
    }
}

/// `e` is the copy, departing at time `step`, of forward arc `idx` of `base`
/// with transit time `d[idx]`.
pub open spec fn is_transit(base: &DiGraph, d: Seq<u32>, t: int, e: Edge, step: int, idx: int) -> bool {
    let n = base.n();
    &&& 0 <= step < t
    &&& 0 <= idx < base.m()
    &&& idx % 2 == 0
    &&& step + d[idx] < t
    &&& e == Edge {
        from: NodeId(xnode(n, base.arc_from(idx), step) as u32),
        to: NodeId(xnode(n, base.arc_to(idx), step + d[idx]) as u32),
        capacity: base.edges[idx].capacity,
        cost: base.edges[idx].cost,
    }
}

/// `e` is the holding arc of node `v` from time `step` to `step + 1`.
pub open spec fn is_holding(n: int, t: int, e: Edge, v: int, step: int) -> bool {
    &&& 0 <= v < n
    &&& 0 <= step < t - 1
    &&& e == Edge {
        from: NodeId(xnode(n, v, step) as u32),
        to: NodeId(xnode(n, v, step + 1) as u32),
        capacity: Capacity(HOLD_CAPACITY),
        cost: Cost(0),
    }
}

/// `e` is a transit copy of some forward arc of `base`.
pub open spec fn transit_arc(base: &DiGraph, d: Seq<u32>, t: int, e: Edge) -> bool {
    exists|step: int, idx: int| is_transit(base, d, t, e, step, idx)
}

/// `e` is a transit copy or a holding arc.
pub open spec fn expanded_arc(base: &DiGraph, d: Seq<u32>, t: int, e: Edge) -> bool {
    transit_arc(base, d, t, e) || exists|v: int, step: int| is_holding(base.n(), t, e, v, step)
}

/// Some forward arc of `g` is the transit copy of `idx` departing at `step`.
pub open spec fn has_transit(base: &DiGraph, d: Seq<u32>, t: int, g: DiGraph, step: int, idx: int) -> bool {
    exists|i: int| 0 <= i < g.m() && i % 2 == 0 && #[trigger] is_transit(base, d, t, g.edges@[i], step, idx)
}

/// Some forward arc of `g` is the holding arc of `v` at `step`.
pub open spec fn has_holding(n: int, t: int, g: DiGraph, v: int, step: int) -> bool {
    exists|i: int| 0 <= i < g.m() && i % 2 == 0 && #[trigger] is_holding(n, t, g.edges@[i], v, step)
}

/// What forward arc `e` is a copy of: `(0, step, idx)` names the copy of
/// base arc `idx` departing at `step`, `(1, step, v)` the holding arc of
/// `v` from `step`.
pub open spec fn origin_ok(base: &DiGraph, d: Seq<u32>, t: int, e: Edge, o: (int, int, int)) -> bool {
    ||| o.0 == 0 && is_transit(base, d, t, e, o.1, o.2)
    ||| o.0 == 1 && is_holding(base.n(), t, e, o.2, o.1)
}

/// `orig[k]` names what forward arc `2k` of `g` is a copy of; there is one
/// name per forward arc and no name twice.
pub open spec fn origins_ok(base: &DiGraph, d: Seq<u32>, t: int, g: DiGraph, orig: Seq<(int, int, int)>) -> bool {
    &&& g.m() == 2 * orig.len()
    &&& forall|k: int| 0 <= k < orig.len() ==> origin_ok(base, d, t, g.edges@[2 * k], #[trigger] orig[k])
    &&& forall|a: int, b: int| 0 <= a < b < orig.len() ==> #[trigger] orig[a] != #[trigger] orig[b]
}

/// Every transit copy and every holding arc is named in `orig`.
pub open spec fn origins_cover(base: &DiGraph, d: Seq<u32>, t: int, orig: Seq<(int, int, int)>) -> bool {
    &&& forall|st: int, idx: int|
        0 <= st < t && 0 <= idx < base.m() && idx % 2 == 0 && st + d[idx] < t ==> #[trigger] orig.contains((0int, st, idx))
    &&& forall|v: int, st: int| 0 <= v < base.n() && 0 <= st < t - 1 ==> #[trigger] orig.contains((1int, st, v))
}

/// Names of the transit copies departing at `step` along the first `j`
/// entries of the adjacency list of `u`, in that order: one for each forward
/// arc that arrives before the horizon.
pub open spec fn transit_names_adj(base: &DiGraph, d: Seq<u32>, t: int, step: int, u: int, j: int) -> Seq<(int, int, int)>
    decreases j,
{
    if j <= 0 {
        Seq::empty()
    } else {
        let prev = transit_names_adj(base, d, t, step, u, j - 1);
        let i = base.adj[u][j - 1] as int;
        if i % 2 == 0 && step + d[i] < t {
            prev.push((0int, step, i))
        } else {
            prev
        }
    }
}

/// Names of the transit copies departing at `step` from the nodes below
/// `u`, node by node.
pub open spec fn transit_names_nodes(base: &DiGraph, d: Seq<u32>, t: int, step: int, u: int) -> Seq<(int, int, int)>
    decreases u,
{
    if u <= 0 {
        Seq::empty()
    } else {
        transit_names_nodes(base, d, t, step, u - 1) + transit_names_adj(base, d, t, step, u - 1, base.adj[u - 1].len() as int)
    }
}

/// Names of the transit copies departing before `st`, step by step.
pub open spec fn transit_names(base: &DiGraph, d: Seq<u32>, t: int, st: int) -> Seq<(int, int, int)>
    decreases st,
{
    if st <= 0 {
        Seq::empty()
    } else {
        transit_names(base, d, t, st - 1) + transit_names_nodes(base, d, t, st - 1, base.n())
    }
}

/// Names of the holding arcs leaving before `st`, step by step and node by
/// node.
pub open spec fn holding_names(n: int, st: int) -> Seq<(int, int, int)>
    decreases st,
{
    if st <= 0 {
        Seq::empty()
    } else {
        holding_names(n, st - 1) + Seq::new(n as nat, |v: int| (1int, st - 1, v))
    }
}

/// The order of the forward arcs of the expansion: the transit copies by
/// departure step, within a step by tail node and adjacency order, then the
/// holding arcs by step and node.
pub open spec fn expansion_order(base: &DiGraph, d: Seq<u32>, t: int) -> Seq<(int, int, int)> {
    transit_names(base, d, t, t) + holding_names(base.n(), t - 1)
}

/// `g` is the time expansion of `base` over `t` steps with transit times
/// `d`: its nodes are the pairs `(v, step)`, its forward arcs are exactly
/// the transit copies and holding arcs, each copy once, and it runs from
/// `(s, 0)` to `(k, t - 1)` for the source `s` and sink `k` of `base`.
pub open spec fn expansion_of(base: &DiGraph, d: Seq<u32>, t: int, g: DiGraph, xs: NodeId, xk: NodeId) -> bool {
    let n = base.n();
    &&& g.wf()
    &&& g.n() == n * t
    &&& base.source matches Some(s) && xs == NodeId(xnode(n, s.0 as int, 0) as u32)
    &&& base.sink matches Some(k) && xk == NodeId(xnode(n, k.0 as int, t - 1) as u32)
    &&& g.source == Some(xs)
    &&& g.sink == Some(xk)
    &&& forall|v: int, step: int|
        0 <= v < n && 0 <= step < t ==> labelled(#[trigger] g.nodes@[xnode(n, v, step)], v, step)
    &&& forall|i: int| 0 <= i < g.m() && i % 2 == 0 ==> #[trigger] expanded_arc(base, d, t, g.edges@[i])
    &&& forall|step: int, idx: int|
        0 <= step < t && 0 <= idx < base.m() && idx % 2 == 0 && step + d[idx] < t ==> #[trigger] has_transit(
            base,
            d,
            t,
            g,
            step,
            idx,
        )
    &&& forall|v: int, step: int| 0 <= v < n && 0 <= step < t - 1 ==> #[trigger] has_holding(n, t, g, v, step)
    &&& exists|orig: Seq<(int, int, int)>|
        origins_ok(base, d, t, g, orig) && origins_cover(base, d, t, orig) && orig == expansion_order(base, d, t)
}

/// The expansion is unique: two graphs that both expand `base` over `t`
/// steps with transit times `d` have the same nodes, the same arcs in the
/// same order, and the same source and sink, so a flow on one lines up with
/// the other arc by arc.
pub proof fn lemma_expansion_unique(
    base: &DiGraph,
    d: Seq<u32>,
    t: int,
    g1: DiGraph,
    xs1: NodeId,
    xk1: NodeId,
    g2: DiGraph,
    xs2: NodeId,
    xk2: NodeId,
)
    requires
        expansion_of(base, d, t, g1, xs1, xk1),
        expansion_of(base, d, t, g2, xs2, xk2),
    ensures
        g1.n() == g2.n(),
        g1.edges@ == g2.edges@,
        xs1 == xs2,
        xk1 == xk2,
        g1.source == g2.source,
        g1.sink == g2.sink,
{
    let o1 = choose|orig: Seq<(int, int, int)>|
        origins_ok(base, d, t, g1, orig) && origins_cover(base, d, t, orig) && orig == expansion_order(base, d, t);
    let o2 = choose|orig: Seq<(int, int, int)>|
        origins_ok(base, d, t, g2, orig) && origins_cover(base, d, t, orig) && orig == expansion_order(base, d, t);
    assert(o1 == o2);
    assert forall|i: int| 0 <= i < g1.m() implies #[trigger] g1.edges@[i] == g2.edges@[i] by {
        if i % 2 == 0 {
            let k = i / 2;
            assert(2 * k == i);
            assert(origin_ok(base, d, t, g1.edges@[2 * k], o1[k]));
            assert(origin_ok(base, d, t, g2.edges@[2 * k], o2[k]));
        } else {
            let k = (i - 1) / 2;
            assert(2 * k == i - 1);
            assert(origin_ok(base, d, t, g1.edges@[2 * k], o1[k]));
            assert(origin_ok(base, d, t, g2.edges@[2 * k], o2[k]));
            assert(g1.edges@[i - 1] == g2.edges@[i - 1]);
            assert(g1.arc_ok(i - 1));
            assert(g2.arc_ok(i - 1));
            assert(g1.edges@[i].from == g2.edges@[i].from);
            assert(g1.edges@[i].to == g2.edges@[i].to);
            assert(g1.edges@[i].capacity == g2.edges@[i].capacity);
            assert(g1.edges@[i].cost == g2.edges@[i].cost);
        }
    }
    assert(g1.edges@ =~= g2.edges@);
}

/// The outcome of expanding `base` over `h` steps with transit times `d`.
pub open spec fn expanded(base: &DiGraph, h: TimeHorizon, d: Seq<u32>, r: Result<(DiGraph, NodeId, NodeId), StanchionError>) -> bool {
    let t = h.0 as int;
    if base.source is None {
        r == Err::<(DiGraph, NodeId, NodeId), StanchionError>(StanchionError::NoSource)
    } else if base.sink is None {
        r == Err::<(DiGraph, NodeId, NodeId), StanchionError>(StanchionError::NoSink)
    } else if base.n() * t > MAX_EXPANDED_NODES {
        r == Err::<(DiGraph, NodeId, NodeId), StanchionError>(StanchionError::TimeHorizonTooLarge(h.0))
    } else {
        r matches Ok((g, xs, xk)) && expansion_of(base, d, t, g, xs, xk)
    }
}

/// Inputs that can be expanded: a horizon of at least one step once there
/// is something to expand, and an arc count that fits arc ids.
pub open spec fn expansion_input(base: &DiGraph, h: TimeHorizon) -> bool {
    let t = h.0 as int;
    &&& base.wf()
    &&& (base.source is Some && base.sink is Some) ==> t >= 1
    &&& (base.source is Some && base.sink is Some && base.n() * t <= MAX_EXPANDED_NODES) ==> 2 * t * base.m() + 2
        * base.n() * t + 2 <= u32::MAX
}

pub proof fn lemma_xnode_bound(n: int, t: int, v: int, step: int)
    requires
        0 <= v < n,
        0 <= step < t,
    ensures
        0 <= xnode(n, v, step) < n * t,
        xnode(n, v, step) + 1 <= xnode(n, 0, step + 1),
{
    assert(0 <= v + step * n < n * t) by (nonlinear_arith)
        requires
            0 <= v < n,
            0 <= step < t,
    ;
    assert(v + step * n + 1 <= (step + 1) * n) by (nonlinear_arith)
        requires
            0 <= v < n,
            0 <= step,
    ;
}

proof fn lemma_xnode_lt(n: int, v1: int, s1: int, v2: int, s2: int)
    requires
        0 <= v1 < n,
        0 <= v2 < n,
        0 <= s1,
        s1 < s2 || (s1 == s2 && v1 < v2),
    ensures
        xnode(n, v1, s1) < xnode(n, v2, s2),
{
    if s1 < s2 {
        assert(v1 + s1 * n < v2 + s2 * n) by (nonlinear_arith)
            requires
                0 <= v1 < n,
                0 <= v2,
                0 <= s1 < s2,
        ;
    }
}


/// `d` holds, for every forward arc of `base`, a transit time that
/// `transit_fn` returns for it.
pub open spec fn transit_times<F: Fn(EdgeId) -> u32>(transit_fn: F, base: &DiGraph, d: Seq<u32>) -> bool {
    &&& d.len() == base.m()
    &&& forall|i: int| 0 <= i < base.m() && i % 2 == 0 ==> transit_fn.ensures((EdgeId(i as u32),), #[trigger] d[i])
}

/// The arcs handled so far in one time step: those leaving nodes below `u`,
/// and the first `j` arcs leaving `u`.
pub open spec fn handled(base: &DiGraph, u: int, j: int) -> Set<int> {
    Set::new(|i: int| 0 <= i < base.m() && (base.arc_from(i) < u || (base.arc_from(i) == u && exists|k: int| 0 <= k < j && base.adj[u][k] == i)))
}

proof fn lemma_handled_len(base: &DiGraph, u: int, j: int)
    requires
        base.wf(),
    ensures
        handled(base, u, j).finite(),
        handled(base, u, j).len() <= base.m(),
{
    let r = vstd::set_lib::set_int_range(0, base.m());
    assert(handled(base, u, j).subset_of(r));
    vstd::set_lib::lemma_int_range(0, base.m());
    vstd::set_lib::lemma_len_subset(handled(base, u, j), r);
}

/// Build a time-expanded graph for dynamic network flow.
///
/// For each base node v and timestep t in `[0, T)`, the expanded node
/// lives at index `v + t * n`.  Transit arcs copy each forward arc `(u,v)`
/// with transit time `d` to `(u,t) -> (v, t+d)` whenever `t + d < T`;
/// holding arcs `(v,t) -> (v,t+1)` have unlimited capacity and zero cost.
///
/// Returns the expanded graph and the expanded source (t=0) and sink (t=T-1).
pub fn build_time_expanded(base: &DiGraph, horizon: TimeHorizon, transit_fn: impl Fn(EdgeId) -> u32) -> (r: Result<
    (DiGraph, NodeId, NodeId),
    StanchionError,
>)
    requires
        expansion_input(base, horizon),
        forall|e: EdgeId| transit_fn.requires((e,)),
    ensures
        base.source is None ==> r == Err::<(DiGraph, NodeId, NodeId), StanchionError>(StanchionError::NoSource),
        base.source is Some && base.sink is None ==> r == Err::<(DiGraph, NodeId, NodeId), StanchionError>(
            StanchionError::NoSink,
        ),
        base.source is Some && base.sink is Some && base.n() * horizon.0 > MAX_EXPANDED_NODES ==> r == Err::<
            (DiGraph, NodeId, NodeId),
            StanchionError,
        >(StanchionError::TimeHorizonTooLarge(horizon.0)),
        base.source is Some && base.sink is Some && base.n() * horizon.0 <= MAX_EXPANDED_NODES ==> exists|d: Seq<u32>|
            transit_times(transit_fn, base, d) && (r matches Ok(x) && expansion_of(base, d, horizon.0 as int, x.0, x.1, x.2)),
{
    let t = horizon.0 as usize;
    let n = base.node_count();
    let src = match base.source() {
        Some(x) => x,
        None => {
            return Err(StanchionError::NoSource);
        },
    };
    let snk = match base.sink() {
        Some(x) => x,
        None => {
            return Err(StanchionError::NoSink);
        },
    };
    proof {
        assert(n * horizon.0 <= 0xFFFF_FFFF * 0xFFFF_FFFF) by (nonlinear_arith)
            requires
                n <= 0xFFFF_FFFF,
                horizon.0 <= 0xFFFF_FFFF,
        ;
    }
    let total: u64 = n as u64 * horizon.0 as u64;
    if total > MAX_EXPANDED_NODES {
        return Err(StanchionError::TimeHorizonTooLarge(horizon.0));
    }
    let m = base.edges.len();
    let mut delays: Vec<u32> = Vec::new();
    let mut i: usize = 0;
    while i < m
        invariant
            m == base.m(),
            i <= m,
            forall|e: EdgeId| transit_fn.requires((e,)),
            m <= u32::MAX,
            delays@.len() == i,
            forall|k: int| 0 <= k < i && k % 2 == 0 ==> transit_fn.ensures((EdgeId(k as u32),), #[trigger] delays@[k]),
        decreases m - i,
    {
        if i % 2 == 0 {
            let d = transit_fn(EdgeId(i as u32));
            delays.push(d);
        } else {
            delays.push(0);
        }
        i += 1;
    }
    let r = expand(base, t, src, snk, &delays);
    proof {
        assert(transit_times(transit_fn, base, delays@));
    }
    Ok(r)
}

fn expand(base: &DiGraph, t: usize, src: NodeId, snk: NodeId, delays: &Vec<u32>) -> (r: (DiGraph, NodeId, NodeId))
    requires
        base.wf(),
        base.source == Some(src),
        base.sink == Some(snk),
        1 <= t <= u32::MAX,
        base.n() * t <= MAX_EXPANDED_NODES,
        2 * t * base.m() + 2 * base.n() * t + 2 <= u32::MAX,
        delays@.len() == base.m(),
    ensures
        expansion_of(base, delays@, t as int, r.0, r.1, r.2),
{
    let n = base.node_count();
    let m = base.edges.len();
    let ghost d = delays@;
    let mut builder = GraphBuilder::new();
    let mut step: usize = 0;
    while step < t
        invariant
            base.wf(),
            n == base.n(),
            1 <= t <= u32::MAX,
            n * t <= MAX_EXPANDED_NODES,
            step <= t,
            builder.wf(),
            builder.graph.nodes.len() == xnode(n as int, 0, step as int),
            builder.graph.edges.len() == 0,
            builder.graph.source is None,
            builder.graph.sink is None,
            forall|v: int, st: int|
                0 <= v < n && 0 <= st < step ==> labelled(#[trigger] builder.graph.nodes@[xnode(n as int, v, st)], v, st),
        decreases t - step,
    {
        let mut v: usize = 0;
        while v < n
            invariant
                base.wf(),
                n == base.n(),
                1 <= t <= u32::MAX,
                n * t <= MAX_EXPANDED_NODES,
                step < t,
                v <= n,
                builder.wf(),
                builder.graph.nodes.len() == xnode(n as int, v as int, step as int),
                builder.graph.edges.len() == 0,
                builder.graph.source is None,
                builder.graph.sink is None,
                forall|w: int, st: int|
                    0 <= w < n && (0 <= st < step || (st == step && w < v)) ==> labelled(
                        #[trigger] builder.graph.nodes@[xnode(n as int, w, st)],
                        w,
                        st,
                    ),
            decreases n - v,
        {
            let label = step_label(v, step);
            proof {
                lemma_xnode_bound(n as int, t as int, v as int, step as int);
            }
            let ghost nodes0 = builder.graph.nodes@;
            let (b, _) = builder.add_stanchion(label.as_str());
            builder = b;
            proof {
                assert forall|w: int, st: int|
                    0 <= w < n && (0 <= st < step || (st == step && w < v + 1)) implies labelled(
                        #[trigger] builder.graph.nodes@[xnode(n as int, w, st)],
                        w,
                        st,
                    ) by {
                    if st == step && w == v {
                    } else {
                        lemma_xnode_lt(n as int, w, st, v as int, step as int);
                        assert(builder.graph.nodes@[xnode(n as int, w, st)] == nodes0[xnode(n as int, w, st)]);
                    }
                }
            }
            v += 1;
        }
        proof {
            assert(xnode(n as int, n as int, step as int) == xnode(n as int, 0, step + 1)) by (nonlinear_arith);
        }
        step += 1;
    }
    let ghost nodes = builder.graph.nodes@;
    proof {
        assert(nodes.len() == n * t) by (nonlinear_arith)
            requires
                nodes.len() == 0 + t * n,
        ;
        assert((t - 1) * n <= n * t) by (nonlinear_arith)
            requires
                t >= 1,
                n >= 0,
        ;
    }
    let xs = NodeId(src.0);
    let xk = NodeId((snk.0 as u64 + ((t - 1) * n) as u64) as u32);
    builder = builder.source(xs).sink(xk);
    // Transit arcs.
    let ghost mut cnt: int = 0;
    let ghost mut orig: Seq<(int, int, int)> = Seq::empty();
    step = 0;
    while step < t
        invariant
            base.wf(),
            n == base.n(),
            m == base.m(),
            d == delays@,
            d.len() == m,
            1 <= t <= u32::MAX,
            n * t <= MAX_EXPANDED_NODES,
            2 * t * m + 2 * n * t + 2 <= u32::MAX,
            step <= t,
            builder.wf(),
            builder.graph.nodes@ == nodes,
            nodes.len() == n * t,
            builder.graph.source == Some(xs),
            builder.graph.sink == Some(xk),
            builder.graph.edges.len() == 2 * cnt,
            0 <= cnt <= step * m,
            origins_ok(base, d, t as int, builder.graph, orig),
            orig == transit_names(base, d, t as int, step as int),
            forall|k: int| 0 <= k < orig.len() ==> (#[trigger] orig[k]).0 == 0 && orig[k].1 < step,
            forall|st: int, idx: int|
                0 <= st < step && 0 <= idx < m && idx % 2 == 0 && st + d[idx] < t ==> #[trigger] orig.contains(
                    (0int, st, idx),
                ),
            forall|i: int|
                0 <= i < builder.graph.m() && i % 2 == 0 ==> #[trigger] transit_arc(base, d, t as int, builder.graph.edges@[i]),
            forall|st: int, idx: int|
                0 <= st < step && 0 <= idx < m && idx % 2 == 0 && st + d[idx] < t ==> #[trigger] has_transit(
                    base,
                    d,
                    t as int,
                    builder.graph,
                    st,
                    idx,
                ),
        decreases t - step,
    {
        let ghost cnt0 = cnt;
        let mut u: usize = 0;
        while u < n
            invariant
                base.wf(),
                n == base.n(),
                m == base.m(),
                d == delays@,
                d.len() == m,
                1 <= t <= u32::MAX,
                n * t <= MAX_EXPANDED_NODES,
                2 * t * m + 2 * n * t + 2 <= u32::MAX,
                step < t,
                u <= n,
                builder.wf(),
                builder.graph.nodes@ == nodes,
                nodes.len() == n * t,
                builder.graph.source == Some(xs),
                builder.graph.sink == Some(xk),
                builder.graph.edges.len() == 2 * cnt,
                0 <= cnt0 <= step * m,
                cnt0 <= cnt <= cnt0 + handled(base, u as int, 0).len(),
                origins_ok(base, d, t as int, builder.graph, orig),
                orig == transit_names(base, d, t as int, step as int) + transit_names_nodes(base, d, t as int, step as int, u as int),
                forall|k: int|
                    0 <= k < orig.len() ==> (#[trigger] orig[k]).0 == 0 && (orig[k].1 < step || (orig[k].1 == step
                        && handled(base, u as int, 0).contains(orig[k].2))),
                forall|st: int, idx: int|
                    0 <= st < step && 0 <= idx < m && idx % 2 == 0 && st + d[idx] < t ==> #[trigger] orig.contains(
                        (0int, st, idx),
                    ),
                forall|idx: int|
                    0 <= idx < m && idx % 2 == 0 && base.arc_from(idx) < u && step + d[idx] < t ==> #[trigger] orig.contains(
                        (0int, step as int, idx),
                    ),
                forall|i: int|
                    0 <= i < builder.graph.m() && i % 2 == 0 ==> #[trigger] transit_arc(base, d, t as int, builder.graph.edges@[i]),
                forall|st: int, idx: int|
                    0 <= st < step && 0 <= idx < m && idx % 2 == 0 && st + d[idx] < t ==> #[trigger] has_transit(
                        base,
                        d,
                        t as int,
                        builder.graph,
                        st,
                        idx,
                    ),
                forall|idx: int|
                    0 <= idx < m && idx % 2 == 0 && base.arc_from(idx) < u && step + d[idx] < t ==> #[trigger] has_transit(
                        base,
                        d,
                        t as int,
                        builder.graph,
                        step as int,
                        idx,
                    ),
            decreases n - u,
        {
            let a = &base.adj[u];
            let mut j: usize = 0;
            proof {
                lemma_handled_len(base, u as int, 0);
            }
            while j < a.len()
                invariant
                    base.wf(),
                    n == base.n(),
                    m == base.m(),
                    d == delays@,
                    d.len() == m,
                    1 <= t <= u32::MAX,
                    n * t <= MAX_EXPANDED_NODES,
                    2 * t * m + 2 * n * t + 2 <= u32::MAX,
                    step < t,
                    u < n,
                    a == &base.adj[u as int],
                    j <= a.len(),
                    builder.wf(),
                    builder.graph.nodes@ == nodes,
                    nodes.len() == n * t,
                    builder.graph.source == Some(xs),
                    builder.graph.sink == Some(xk),
                    builder.graph.edges.len() == 2 * cnt,
                    0 <= cnt0 <= step * m,
                    handled(base, u as int, j as int).finite(),
                    cnt0 <= cnt <= cnt0 + handled(base, u as int, j as int).len(),
                    origins_ok(base, d, t as int, builder.graph, orig),
                    orig == transit_names(base, d, t as int, step as int) + transit_names_nodes(base, d, t as int, step as int, u as int)
                        + transit_names_adj(base, d, t as int, step as int, u as int, j as int),
                    forall|k: int|
                        0 <= k < orig.len() ==> (#[trigger] orig[k]).0 == 0 && (orig[k].1 < step || (orig[k].1 == step
                            && handled(base, u as int, j as int).contains(orig[k].2))),
                    forall|st: int, idx: int|
                        0 <= st < step && 0 <= idx < m && idx % 2 == 0 && st + d[idx] < t ==> #[trigger] orig.contains(
                            (0int, st, idx),
                        ),
                    forall|idx: int|
                        0 <= idx < m && idx % 2 == 0 && (base.arc_from(idx) < u || (base.arc_from(idx) == u && exists|k: int|
                            0 <= k < j && base.adj[u as int][k] == idx)) && step + d[idx] < t ==> #[trigger] orig.contains(
                            (0int, step as int, idx),
                        ),
                    forall|i: int|
                        0 <= i < builder.graph.m() && i % 2 == 0 ==> #[trigger] transit_arc(base, d, t as int, builder.graph.edges@[i]),
                    forall|st: int, idx: int|
                        0 <= st < step && 0 <= idx < m && idx % 2 == 0 && st + d[idx] < t ==> #[trigger] has_transit(
                            base,
                            d,
                            t as int,
                            builder.graph,
                            st,
                            idx,
                        ),
                    forall|idx: int|
                        0 <= idx < m && idx % 2 == 0 && (base.arc_from(idx) < u || (base.arc_from(idx) == u && exists|k: int|
                            0 <= k < j && base.adj[u as int][k] == idx)) && step + d[idx] < t ==> #[trigger] has_transit(
                            base,
                            d,
                            t as int,
                            builder.graph,
                            step as int,
                            idx,
                        ),
                decreases a.len() - j,
            {
                let idx = a[j];
                proof {
                    base.lemma_adj(u as int, j as int);
                    base.lemma_arc(idx as int);
                    lemma_handled_len(base, u as int, j as int + 1);
                    assert(!handled(base, u as int, j as int).contains(idx as int)) by {
                        if handled(base, u as int, j as int).contains(idx as int) {
                            let k = choose|k: int| 0 <= k < j && base.adj[u as int][k] == idx as int;
                            assert(a[k] < a[j as int]);
                        }
                    }
                    assert(handled(base, u as int, j as int + 1) =~= handled(base, u as int, j as int).insert(idx as int));
                }
                if idx % 2 == 0 {
                    let e = &base.edges[idx];
                    let dl = delays[idx] as u64;
                    let arrive = step as u64 + dl;
                    if arrive < t as u64 {
                        proof {
                            lemma_xnode_bound(n as int, t as int, u as int, step as int);
                            lemma_xnode_bound(n as int, t as int, e.to.0 as int, arrive as int);
                            lemma_handled_len(base, u as int, j as int);
                            assert(cnt + 1 <= t * m) by (nonlinear_arith)
                                requires
                                    cnt <= cnt0 + handled(base, u as int, j as int).len(),
                                    handled(base, u as int, j as int).len() + 1 <= m,
                                    cnt0 <= step * m,
                                    step + 1 <= t,
                            ;
                            assert(2 * (t * m) == 2 * t * m) by (nonlinear_arith);
                        }
                        let from = NodeId((u + step * n) as u32);
                        let to = NodeId((e.to.0 as usize + arrive as usize * n) as u32);
                        let ghost g0 = builder.graph;
                        let ghost e0 = builder.graph.edges@;
                        builder = builder.connect(from, to, e.capacity, e.cost);
                        proof {
                            let ne = builder.graph.edges@[2 * cnt];
                            assert(is_transit(base, d, t as int, ne, step as int, idx as int));
                            assert forall|i: int|
                                0 <= i < builder.graph.m() && i % 2 == 0 implies #[trigger] transit_arc(base, d, t as int, builder.graph.edges@[i]) by {
                                if i < 2 * cnt {
                                    assert(builder.graph.edges@[i] == e0[i]);
                                } else {
                                    assert(i == 2 * cnt);
                                    assert(is_transit(base, d, t as int, builder.graph.edges@[i], step as int, idx as int));
                                }
                            }
                            assert forall|st: int, ix: int|
                                0 <= st < step && 0 <= ix < m && ix % 2 == 0 && st + d[ix] < t implies #[trigger] has_transit(
                                    base,
                                    d,
                                    t as int,
                                    builder.graph,
                                    st,
                                    ix,
                                ) by {
                                assert(has_transit(base, d, t as int, g0, st, ix));
                                let i = choose|i: int| 0 <= i < e0.len() && i % 2 == 0 && #[trigger] is_transit(base, d, t as int, e0[i], st, ix);
                                assert(builder.graph.edges@[i] == e0[i]);
                            }
                            assert forall|ix: int|
                                0 <= ix < m && ix % 2 == 0 && (base.arc_from(ix) < u || (base.arc_from(ix) == u && exists|k: int|
                                    0 <= k < j + 1 && base.adj[u as int][k] == ix)) && step + d[ix] < t implies #[trigger] has_transit(
                                    base,
                                    d,
                                    t as int,
                                    builder.graph,
                                    step as int,
                                    ix,
                                ) by {
                                if ix == idx {
                                    assert(builder.graph.edges@[2 * cnt] == ne);
                                } else {
                                    if base.arc_from(ix) == u {
                                        let k = choose|k: int| 0 <= k < j + 1 && base.adj[u as int][k] == ix;
                                        assert(k < j);
                                    }
                                    assert(has_transit(base, d, t as int, g0, step as int, ix));
                                    let i = choose|i: int| 0 <= i < e0.len() && i % 2 == 0 && #[trigger] is_transit(base, d, t as int, e0[i], step as int, ix);
                                    assert(builder.graph.edges@[i] == e0[i]);
                                }
                            }
                            let o0 = orig;
                            orig = orig.push((0int, step as int, idx as int));
                            assert(base.adj[u as int][j as int] == idx);
                            assert(transit_names_adj(base, d, t as int, step as int, u as int, j + 1) == transit_names_adj(
                                base,
                                d,
                                t as int,
                                step as int,
                                u as int,
                                j as int,
                            ).push((0int, step as int, idx as int)));
                            assert(orig =~= transit_names(base, d, t as int, step as int) + transit_names_nodes(
                                base,
                                d,
                                t as int,
                                step as int,
                                u as int,
                            ) + transit_names_adj(base, d, t as int, step as int, u as int, j + 1));
                            assert forall|k: int| 0 <= k < orig.len() implies origin_ok(
                                base,
                                d,
                                t as int,
                                builder.graph.edges@[2 * k],
                                #[trigger] orig[k],
                            ) by {
                                if k < o0.len() {
                                    assert(builder.graph.edges@[2 * k] == e0[2 * k]);
                                    assert(orig[k] == o0[k]);
                                } else {
                                    assert(builder.graph.edges@[2 * k] == ne);
                                }
                            }
                            assert forall|a1: int, b1: int| 0 <= a1 < b1 < orig.len() implies #[trigger] orig[a1]
                                != #[trigger] orig[b1] by {
                                assert(orig[a1] == o0[a1]);
                                if b1 < o0.len() {
                                    assert(orig[b1] == o0[b1]);
                                }
                            }
                            assert forall|k: int| 0 <= k < orig.len() implies (#[trigger] orig[k]).0 == 0 && (orig[k].1
                                < step || (orig[k].1 == step && handled(base, u as int, j as int + 1).contains(
                                orig[k].2,
                            ))) by {
                                if k < o0.len() {
                                    assert(orig[k] == o0[k]);
                                }
                            }
                            assert forall|st: int, ix: int|
                                0 <= st < step && 0 <= ix < m && ix % 2 == 0 && st + d[ix] < t implies #[trigger] orig.contains(
                                    (0int, st, ix),
                                ) by {
                                assert(o0.contains((0int, st, ix)));
                                let w = choose|w: int| 0 <= w < o0.len() && o0[w] == (0int, st, ix);
                                assert(orig[w] == o0[w]);
                            }
                            assert forall|ix: int|
                                0 <= ix < m && ix % 2 == 0 && (base.arc_from(ix) < u || (base.arc_from(ix) == u && exists|k: int|
                                    0 <= k < j + 1 && base.adj[u as int][k] == ix)) && step + d[ix] < t implies #[trigger] orig.contains(
                                    (0int, step as int, ix),
                                ) by {
                                if ix == idx {
                                    assert(orig[o0.len() as int] == (0int, step as int, ix));
                                } else {
                                    if base.arc_from(ix) == u {
                                        let k = choose|k: int| 0 <= k < j + 1 && base.adj[u as int][k] == ix;
                                        assert(k < j);
                                    }
                                    assert(o0.contains((0int, step as int, ix)));
                                    let w = choose|w: int| 0 <= w < o0.len() && o0[w] == (0int, step as int, ix);
                                    assert(orig[w] == o0[w]);
                                }
                            }
                            cnt = cnt + 1;
                        }
                    } else {
                        proof {
                            assert forall|ix: int|
                                0 <= ix < m && ix % 2 == 0 && (base.arc_from(ix) < u || (base.arc_from(ix) == u && exists|k: int|
                                    0 <= k < j + 1 && base.adj[u as int][k] == ix)) && step + d[ix] < t implies #[trigger] has_transit(
                                    base,
                                    d,
                                    t as int,
                                    builder.graph,
                                    step as int,
                                    ix,
                                ) by {
                                if base.arc_from(ix) == u && ix != idx {
                                    let k = choose|k: int| 0 <= k < j + 1 && base.adj[u as int][k] == ix;
                                    assert(k < j);
                                }
                            }
                            assert forall|ix: int|
                                0 <= ix < m && ix % 2 == 0 && (base.arc_from(ix) < u || (base.arc_from(ix) == u && exists|k: int|
                                    0 <= k < j + 1 && base.adj[u as int][k] == ix)) && step + d[ix] < t implies #[trigger] orig.contains(
                                    (0int, step as int, ix),
                                ) by {
                                if base.arc_from(ix) == u && ix != idx {
                                    let k = choose|k: int| 0 <= k < j + 1 && base.adj[u as int][k] == ix;
                                    assert(k < j);
                                }
                            }
                        }
                    }
                } else {
                    proof {
                        assert forall|ix: int|
                            0 <= ix < m && ix % 2 == 0 && (base.arc_from(ix) < u || (base.arc_from(ix) == u && exists|k: int|
                                0 <= k < j + 1 && base.adj[u as int][k] == ix)) && step + d[ix] < t implies #[trigger] has_transit(
                                base,
                                d,
                                t as int,
                                builder.graph,
                                step as int,
                                ix,
                            ) by {
                            if base.arc_from(ix) == u && ix != idx {
                                let k = choose|k: int| 0 <= k < j + 1 && base.adj[u as int][k] == ix;
                                assert(k < j);
                            }
                        }
                        assert forall|ix: int|
                            0 <= ix < m && ix % 2 == 0 && (base.arc_from(ix) < u || (base.arc_from(ix) == u && exists|k: int|
                                0 <= k < j + 1 && base.adj[u as int][k] == ix)) && step + d[ix] < t implies #[trigger] orig.contains(
                                (0int, step as int, ix),
                            ) by {
                            if base.arc_from(ix) == u && ix != idx {
                                let k = choose|k: int| 0 <= k < j + 1 && base.adj[u as int][k] == ix;
                                assert(k < j);
                            }
                        }
                    }
                }
                proof {
                    assert(base.adj[u as int][j as int] == idx);
                    assert(orig =~= transit_names(base, d, t as int, step as int) + transit_names_nodes(
                        base,
                        d,
                        t as int,
                        step as int,
                        u as int,
                    ) + transit_names_adj(base, d, t as int, step as int, u as int, j + 1));
                }
                j += 1;
            }
            proof {
                assert(orig =~= transit_names(base, d, t as int, step as int) + transit_names_nodes(
                    base,
                    d,
                    t as int,
                    step as int,
                    u + 1,
                ));
                assert(handled(base, u as int, a.len() as int) =~= handled(base, u + 1, 0)) by {
                    assert forall|i: int| handled(base, u + 1, 0).contains(i) implies handled(base, u as int, a.len() as int).contains(i) by {
                        if base.arc_from(i) == u {
                            assert(base.adj[u as int]@.contains(i as usize));
                            let k = choose|k: int| 0 <= k < a.len() && a@[k] == i as usize;
                            assert(base.adj[u as int][k] == i);
                        }
                    }
                }
                assert forall|ix: int|
                    0 <= ix < m && ix % 2 == 0 && base.arc_from(ix) < u + 1 && step + d[ix] < t implies #[trigger] has_transit(
                        base,
                        d,
                        t as int,
                        builder.graph,
                        step as int,
                        ix,
                    ) by {
                    if base.arc_from(ix) == u {
                        assert(base.adj[u as int]@.contains(ix as usize));
                        let k = choose|k: int| 0 <= k < a.len() && a@[k] == ix as usize;
                        assert(base.adj[u as int][k] == ix);
                    }
                }
                assert forall|ix: int|
                    0 <= ix < m && ix % 2 == 0 && base.arc_from(ix) < u + 1 && step + d[ix] < t implies #[trigger] orig.contains(
                        (0int, step as int, ix),
                    ) by {
                    if base.arc_from(ix) == u {
                        assert(base.adj[u as int]@.contains(ix as usize));
                        let k = choose|k: int| 0 <= k < a.len() && a@[k] == ix as usize;
                        assert(base.adj[u as int][k] == ix);
                    }
                }
            }
            u += 1;
        }
        proof {
            assert(orig =~= transit_names(base, d, t as int, step + 1));
            lemma_handled_len(base, n as int, 0);
            assert(cnt <= (step + 1) * m) by (nonlinear_arith)
                requires
                    cnt <= cnt0 + m,
                    cnt0 <= step * m,
            ;
            assert forall|st: int, ix: int|
                0 <= st < step + 1 && 0 <= ix < m && ix % 2 == 0 && st + d[ix] < t implies #[trigger] has_transit(
                    base,
                    d,
                    t as int,
                    builder.graph,
                    st,
                    ix,
                ) by {
                if st == step {
                    base.lemma_arc(ix);
                }
            }
            assert forall|st: int, ix: int|
                0 <= st < step + 1 && 0 <= ix < m && ix % 2 == 0 && st + d[ix] < t implies #[trigger] orig.contains(
                    (0int, st, ix),
                ) by {
                if st == step {
                    base.lemma_arc(ix);
                }
            }
        }
        step += 1;
    }
    // Holding arcs: (v, step) -> (v, step+1) with unlimited capacity, zero cost.
    let ghost cnt1 = cnt;
    proof {
        assert(cnt1 <= t * m);
        assert forall|i: int| 0 <= i < builder.graph.m() && i % 2 == 0 implies #[trigger] expanded_arc(base, d, t as int, builder.graph.edges@[i]) by {
            assert(transit_arc(base, d, t as int, builder.graph.edges@[i]));
        }
    }
    step = 0;
    while step + 1 < t
        invariant
            base.wf(),
            n == base.n(),
            m == base.m(),
            d == delays@,
            1 <= t <= u32::MAX,
            n * t <= MAX_EXPANDED_NODES,
            2 * t * m + 2 * n * t + 2 <= u32::MAX,
            step + 1 <= t,
            builder.wf(),
            builder.graph.nodes@ == nodes,
            nodes.len() == n * t,
            builder.graph.source == Some(xs),
            builder.graph.sink == Some(xk),
            builder.graph.edges.len() == 2 * cnt,
            0 <= cnt1 <= t * m,
            cnt == cnt1 + step * n,
            origins_ok(base, d, t as int, builder.graph, orig),
            orig == transit_names(base, d, t as int, t as int) + holding_names(n as int, step as int),
            forall|k: int| 0 <= k < orig.len() ==> (#[trigger] orig[k]).0 == 0 || (orig[k].0 == 1 && orig[k].1 < step),
            forall|st: int, idx: int|
                0 <= st < t && 0 <= idx < m && idx % 2 == 0 && st + d[idx] < t ==> #[trigger] orig.contains((0int, st, idx)),
            forall|w: int, st: int| 0 <= w < n && 0 <= st < step ==> #[trigger] orig.contains((1int, st, w)),
            forall|i: int|
                0 <= i < builder.graph.m() && i % 2 == 0 ==> #[trigger] expanded_arc(base, d, t as int, builder.graph.edges@[i]),
            forall|st: int, idx: int|
                0 <= st < t && 0 <= idx < m && idx % 2 == 0 && st + d[idx] < t ==> #[trigger] has_transit(
                    base,
                    d,
                    t as int,
                    builder.graph,
                    st,
                    idx,
                ),
            forall|v: int, st: int|
                0 <= v < n && 0 <= st < step ==> #[trigger] has_holding(n as int, t as int, builder.graph, v, st),
        decreases t - step,
    {
        let mut v: usize = 0;
        while v < n
            invariant
                base.wf(),
                n == base.n(),
                m == base.m(),
                d == delays@,
                1 <= t <= u32::MAX,
                n * t <= MAX_EXPANDED_NODES,
                2 * t * m + 2 * n * t + 2 <= u32::MAX,
                step + 1 < t,
                v <= n,
                builder.wf(),
                builder.graph.nodes@ == nodes,
                nodes.len() == n * t,
                builder.graph.source == Some(xs),
                builder.graph.sink == Some(xk),
                builder.graph.edges.len() == 2 * cnt,
                0 <= cnt1 <= t * m,
                cnt == cnt1 + step * n + v,
                origins_ok(base, d, t as int, builder.graph, orig),
                orig == transit_names(base, d, t as int, t as int) + holding_names(n as int, step as int) + Seq::new(
                    v as nat,
                    |w: int| (1int, step as int, w),
                ),
                forall|k: int|
                    0 <= k < orig.len() ==> (#[trigger] orig[k]).0 == 0 || (orig[k].0 == 1 && (orig[k].1 < step || (orig[k].1
                        == step && orig[k].2 < v))),
                forall|st: int, idx: int|
                    0 <= st < t && 0 <= idx < m && idx % 2 == 0 && st + d[idx] < t ==> #[trigger] orig.contains((0int, st, idx)),
                forall|w: int, st: int|
                    0 <= w < n && (0 <= st < step || (st == step && w < v)) ==> #[trigger] orig.contains((1int, st, w)),
                forall|i: int|
                    0 <= i < builder.graph.m() && i % 2 == 0 ==> #[trigger] expanded_arc(base, d, t as int, builder.graph.edges@[i]),
                forall|st: int, idx: int|
                    0 <= st < t && 0 <= idx < m && idx % 2 == 0 && st + d[idx] < t ==> #[trigger] has_transit(
                        base,
                        d,
                        t as int,
                        builder.graph,
                        st,
                        idx,
                    ),
                forall|w: int, st: int|
                    0 <= w < n && (0 <= st < step || (st == step && w < v)) ==> #[trigger] has_holding(
                        n as int,
                        t as int,
                        builder.graph,
                        w,
                        st,
                    ),
            decreases n - v,
        {
            proof {
                lemma_xnode_bound(n as int, t as int, v as int, step as int);
                lemma_xnode_bound(n as int, t as int, v as int, step + 1);
                assert(cnt + 1 <= t * m + n * t) by (nonlinear_arith)
                    requires
                        cnt == cnt1 + step * n + v,
                        cnt1 <= t * m,
                        v < n,
                        step + 1 < t,
                ;
                assert(2 * (t * m + n * t) == 2 * t * m + 2 * n * t) by (nonlinear_arith);
            }
            let from = NodeId((v + step * n) as u32);
            let to = NodeId((v + (step + 1) * n) as u32);
            let ghost g0 = builder.graph;
            let ghost e0 = builder.graph.edges@;
            builder = builder.connect(from, to, Capacity(HOLD_CAPACITY), Cost(0));
            proof {
                let ne = builder.graph.edges@[2 * cnt];
                assert(is_holding(n as int, t as int, ne, v as int, step as int));
                assert forall|i: int|
                    0 <= i < builder.graph.m() && i % 2 == 0 implies #[trigger] expanded_arc(base, d, t as int, builder.graph.edges@[i]) by {
                    if i < 2 * cnt {
                        assert(builder.graph.edges@[i] == e0[i]);
                    } else {
                        assert(i == 2 * cnt);
                        assert(is_holding(n as int, t as int, builder.graph.edges@[i], v as int, step as int));
                    }
                }
                assert forall|st: int, ix: int|
                    0 <= st < t && 0 <= ix < m && ix % 2 == 0 && st + d[ix] < t implies #[trigger] has_transit(
                        base,
                        d,
                        t as int,
                        builder.graph,
                        st,
                        ix,
                    ) by {
                    assert(has_transit(base, d, t as int, g0, st, ix));
                    let i = choose|i: int| 0 <= i < e0.len() && i % 2 == 0 && #[trigger] is_transit(base, d, t as int, e0[i], st, ix);
                    assert(builder.graph.edges@[i] == e0[i]);
                }
                assert forall|w: int, st: int|
                    0 <= w < n && (0 <= st < step || (st == step && w < v + 1)) implies #[trigger] has_holding(
                        n as int,
                        t as int,
                        builder.graph,
                        w,
                        st,
                    ) by {
                    if st == step && w == v {
                        assert(builder.graph.edges@[2 * cnt] == ne);
                    } else {
                        assert(has_holding(n as int, t as int, g0, w, st));
                        let i = choose|i: int| 0 <= i < e0.len() && i % 2 == 0 && #[trigger] is_holding(n as int, t as int, e0[i], w, st);
                        assert(builder.graph.edges@[i] == e0[i]);
                    }
                }
                let o0 = orig;
                orig = orig.push((1int, step as int, v as int));
                assert(orig =~= transit_names(base, d, t as int, t as int) + holding_names(n as int, step as int) + Seq::new(
                    (v + 1) as nat,
                    |w: int| (1int, step as int, w),
                ));
                assert forall|k: int| 0 <= k < orig.len() implies origin_ok(
                    base,
                    d,
                    t as int,
                    builder.graph.edges@[2 * k],
                    #[trigger] orig[k],
                ) by {
                    if k < o0.len() {
                        assert(builder.graph.edges@[2 * k] == e0[2 * k]);
                        assert(orig[k] == o0[k]);
                    } else {
                        assert(builder.graph.edges@[2 * k] == ne);
                    }
                }
                assert forall|a1: int, b1: int| 0 <= a1 < b1 < orig.len() implies #[trigger] orig[a1] != #[trigger] orig[b1] by {
                    assert(orig[a1] == o0[a1]);
                    if b1 < o0.len() {
                        assert(orig[b1] == o0[b1]);
                    }
                }
                assert forall|k: int| 0 <= k < orig.len() implies (#[trigger] orig[k]).0 == 0 || (orig[k].0 == 1 && (orig[k].1
                    < step || (orig[k].1 == step && orig[k].2 < v + 1))) by {
                    if k < o0.len() {
                        assert(orig[k] == o0[k]);
                    }
                }
                assert forall|st: int, idx: int|
                    0 <= st < t && 0 <= idx < m && idx % 2 == 0 && st + d[idx] < t implies #[trigger] orig.contains((0int, st, idx)) by {
                    assert(o0.contains((0int, st, idx)));
                    let w = choose|w: int| 0 <= w < o0.len() && o0[w] == (0int, st, idx);
                    assert(orig[w] == o0[w]);
                }
                assert forall|w: int, st: int|
                    0 <= w < n && (0 <= st < step || (st == step && w < v + 1)) implies #[trigger] orig.contains((1int, st, w)) by {
                    if st == step && w == v {
                        assert(orig[o0.len() as int] == (1int, st, w));
                    } else {
                        assert(o0.contains((1int, st, w)));
                        let i = choose|i: int| 0 <= i < o0.len() && o0[i] == (1int, st, w);
                        assert(orig[i] == o0[i]);
                    }
                }
                cnt = cnt + 1;
            }
            v += 1;
        }
        proof {
            assert(cnt1 + step * n + n == cnt1 + (step + 1) * n) by (nonlinear_arith);
            assert(orig =~= transit_names(base, d, t as int, t as int) + holding_names(n as int, step + 1));
        }
        step += 1;
    }
    let g = builder.graph;
    proof {
        assert(origins_ok(base, d, t as int, g, orig) && origins_cover(base, d, t as int, orig));
        assert(orig == expansion_order(base, d, t as int));
    }
    (g, xs, xk)
}

} // verus!
