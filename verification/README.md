# fera

Graph data structures and algorithms, dynamic trees, a union-find structure and optional
values, written in Verus: each function states its behaviour in `requires` / `ensures`
clauses and the verifier proves the code against them.

## Layout

- `control`, `optional`, `unionfind`: small building blocks (the answer of a visitor,
  optional values kept in the space of the value, disjoint sets with union by rank, over
  the keys `0..n` or over `u64` keys added one by one).
- `graph`, `builder`, `complete`, `adjset`, `graphadj`, `subgraph`: graphs. `Static` is
  built once from a list of edges and keeps its out-edges sorted; `CompleteGraph` computes
  its edges; `AdjSet` grows one vertex or edge at a time; `graphadj::StaticGraph` keeps
  neighbor lists and searches them; subgraphs keep a subset of the vertices or edges of a
  graph.
- `dfs`, `recursive_dfs`, `bfs`, `trace`, `visitors`, `paths`, `components`, `kruskal`,
  `random`: algorithms on static graphs. A visitor keeps a ghost log of the events it was
  told; `trace` states, as a state machine over the graph, the exact sequence of events
  of a depth-first and of a breadth-first search, and the searches prove that they tell
  exactly that sequence (the recursive and the iterative depth-first search tell the same
  one). They also prove that they blacken exactly the vertices reachable from their roots;
  the depth-first search proves that it meets a back edge exactly when the graph has a
  cycle, so `is_acyclic`, `is_dag` and `is_tree` answer exactly; `find_path` returns the
  tree edges on the stack when the search discovers the target; Kruskal's algorithm
  proves that the edges it takes form a forest, taken greedily in order of weight.
- `seq`, `tour`, `eulertour`: a dynamic forest kept as Euler tours, with a proof that two
  vertices are connected exactly when a path of linked edges joins them. `nested` is a
  sequence kept in chunks of about the square root of its length, with the operations an
  Euler tour needs; the forest itself uses the flat sequences of `seq`.
- `linkcut`: a dynamic forest kept as a link-cut tree.

The tests under `tests/` run the library on concrete graphs.
