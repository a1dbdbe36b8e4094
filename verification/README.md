# notears

NOTEARS learns the structure of a directed acyclic graph from observational
data by continuous optimization of
`(1/n)||X - XW||² + λ||W||₁` subject to `h(W) = tr(exp(W ⊙ W)) - d = 0`.

- `src/` is verified with Verus: adjacency matrices of learned graphs
  (`AdjacencyMatrix`, held in an `ndarray` array), their edge lists and edge
  counts, the DAG check by Kahn's algorithm (proved to answer exactly whether
  the graph has a directed cycle), and the shape and limit checks that guard
  the numerical routines.
- `app/` holds the floating-point side: the acyclicity constraint and its
  gradient, the losses, the augmented Lagrangian solver, the matrix
  exponential and `learn_dag`, calling the verified checks.
- `tests/` exercises the verified library.
