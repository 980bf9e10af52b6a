# astar_search

A* search and hierarchical A* over user-defined problems, with machine-checked
specifications and proofs.

- `src/algorithms/a_star.rs`: the `State`, `Problem`, `SearchGraph` and `Estimator`
  traits, search nodes, the open and closed lists, `select_node` (each round closes
  the last open node whose state is not closed, one of least estimate), `next_path`
  and `AStar`, with the laws of the search (returned paths visit no state twice,
  estimates add the heuristic to the cost along every chain, a consistent heuristic
  gives a goal of least cost whatever the root's estimate, exhausted searches, later goals differ).
- `src/algorithms/open_list.rs`: the stable sort of the open list by decreasing estimate.
- `src/algorithms/hierarchical_a_star.rs`: the `HAProblem` trait, the heuristic cache,
  the recursive abstract searches, each guided by the hierarchical estimate of its
  states' further abstractions (a found route's states are cached with their cost
  to the goal, and nothing else at that level; without further abstraction these
  are least costs) and `HierarchicalAStar`.
- `src/problems/`: a square grid (with its hierarchy of abstractions), missionaries and
  cannibals, and sorting a combination.
- `app/main.rs`: runs the searches on the sample problems and prints the paths.

A problem gives its states a finite space (an injective index below a size) that
holds the start state and is closed under its steps; this is what makes every search
terminate. Costs from the root and estimates saturate at `u32::MAX`.
