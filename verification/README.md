# stanchion

Network flow on stanchion layouts: posts joined by retractable belts form a
directed graph through which people flow from an entry to a service desk.
The library computes maximum flows, minimum-cost flows, shortest routes,
minimum cuts and layout advice (which belts to add, which to remove), time-
expanded dynamic flows, max-weight scheduling decisions and the queueing
decisions of an event-driven simulation.

Every function of the library is verified with Verus against a contract,
except one trusted wrapper: `random_index` in `src/sim.rs`, which draws a
random index through the `rand` crate and is only promised to return an
index below its bound.
Capacities and costs are whole numbers (`i64`; flow values and path costs
are `i128`). What the contracts state, in short:

- maximum-flow solvers return a feasible flow of maximum value (which of
  several maximum flows is left open);
- successive shortest paths returns a feasible flow of the requested value
  (or the maximum), cheapest among all flows of that value whenever the
  graph admits feasible potentials (no negative-cost cycle of forward arcs);
  cycle canceling returns a flow of the requested value (or the maximum) with
  no negative residual cycle, hence cheapest; network simplex starts from the
  successive-shortest-path flow, only pivots on cycles that lower the cost,
  and so returns a feasible flow of the same value whose cost is at most
  that flow's, and equal to it where the graph admits feasible potentials;
- Dijkstra and Bellman-Ford return exact shortest distances and a
  predecessor forest of tight arcs; Floyd-Warshall returns exact all-pairs
  distances and first hops that start a cheapest path; a path rebuilt from
  the predecessors starts at the source and costs the sink's distance;
- simple paths come in depth-first order (the first `max_paths` of them);
- the time-expanded graph has exactly one transit copy per arc and
  departure step and one holding arc per node and step, in a fixed order
  (transit copies by step, node and adjacency position, then holding arcs),
  so the expansion of a given input is unique;
- layout advice lists, for every minimum-cut belt, a parallel belt together
  with the exact gain in maximum flow it brings, and every idle belt for
  removal, ordered by gain.

Besides the contracts, the library proves the laws the algorithms rest on:
max-flow/min-cut, reduced-cost optimality of minimum-cost flows, agreement of
all maximum-flow solvers, agreement of cycle canceling with successive
shortest paths, agreement of Bellman-Ford with Dijkstra and of Floyd-Warshall
with both, and the safety of the layout decisions (more capacity never lowers
the maximum flow; removing idle belts keeps it).

Layout:

- `src/graph` — graphs with paired residual arcs, the builder, residual
  bookkeeping and the flow model (feasible flows, values, cuts, costs).
- `src/flow` — Dinic, push-relabel, capacity scaling; `src/flow/min_cost` —
  successive shortest paths, cycle canceling (with the Bellman-Ford label
  theory behind its negative-cycle search), network simplex, optimality.
- `src/routing` — Dijkstra, Bellman-Ford, Floyd-Warshall, simple paths.
- `src/opt` — minimum cuts and layout recommendations.
- `src/dynamic` — time-expanded graphs and dynamic maximum flow.
- `src/scheduling`, `src/sim`, `src/config` — max-weight scheduling, the
  simulation's event handling, building graphs from configuration records.
- `app/` — the program: JSON configuration, Jackson network analysis and the
  simulation clock (floating point), and a demonstration.
- `tests/` — tests of the library.
