# fineman

Building blocks for single-source shortest paths with negative edge weights
(after J. T. Fineman, STOC 2024), written in Verus with their contracts proved.

- `src/paths.rs`: the mathematical model: walks, hop counts, hop-bounded
  distances, negative reach, repricing, and the laws that relate them.
- `src/graph.rs`: adjacency-list graphs, simplification (no self-loops, lightest
  parallel edge kept), and the degree-bounded `ProperGraph`.
- `src/degree_split.rs`: the vertex-splitting construction behind
  `ProperGraph::from`, with the proof that it bounds every degree and keeps
  every walk between the input vertices.
- `src/standard_algorithms.rs`: multi-source Dijkstra (with origins) and
  Bellman-Ford.
- `src/fineman_algorithm.rs` and its submodules: priced graphs, hop-bounded
  Bellman-Ford/Dijkstra, negative reach, and the price of a negative sandwich.
- `app/main.rs`: a small driver.
- `tests/`: executable tests on concrete graphs.
