# dream_egg

Discovery of reusable abstractions ("inventions") in a corpus of
lambda-calculus programs, verified with Verus.

The programs live in a hash-consed expression graph (`graph`). For every node,
children first (`order`), the search (`inversion`) lists the *applams* that
rewrite the node as an abstraction body applied to arguments, bubbling them up
over applications and abstractions with de Bruijn re-indexing (`shift`), and
keeps, for each invention, the least cost of the node when that invention may
be used (`invention`). `rewrite` rewrites the corpus with one invention and
keeps only subtrees whose size is the one the search recorded. `dom_expr`
evaluates expressions over a domain of values supplied through the `Domain`
trait, remembering every result. `beta` says what an applam means: its body
with the argument trees substituted, which gives back the node's tree for
every step that keeps meaning (`law_applams_stand_for_their_nodes`, also an
`ensures` of `run_inversions`). `expand` undoes a rewrite: replacing each use
of the invention's primitive by the invention's body gives the corpus back
(`law_rewrite_expands`, also an `ensures` of `extract_under_inv`).

Data structures:

- `graph::ProgramGraph` is a hash-consed graph of its own, in place of `egg`'s
  e-graph: the search only needs one node per tree, and `egg`'s graph needs
  `Language`/`Analysis` implementations that only `egg`'s macros write.
  `lookup` scans the nodes, so building a graph is quadratic in its size.
- `expr::Expr` is a flat expression (children before parents) in place of
  `egg`'s `RecExpr`, and `order::extract` picks the cheapest tree of a node
  itself, for the same reason.
- The best-cost tables (`invention::InventionCosts`) and the evaluator's memo
  (`dom_expr::DomExpr`) are vectors with stated invariants (distinct keys)
  rather than hash maps, so that their contents can be specified.
- Evaluation takes a `fuel` bound on its nesting, so that every evaluation
  ends; a remembered result is found without spending fuel only where fuel
  is left. Inputs on which evaluation cannot go on (an unbound variable, an
  unknown primitive, a corpus node, a domain value applied as a function)
  give an `EvalError` rather than a panic: which inputs those are depends on
  computed values and on the domain, so no caller could rule them out in
  advance.
- The text form of programs: `syntax::from_op` decides which node an
  operator with its children stands for, and `ProgramGraph::add_expr` adds a
  parsed expression to the graph node for node, refusing a corpus that holds
  a program with free variables. Splitting the text into nested lists is
  left to `egg`'s s-expression reader, which `app/` calls.

Layout:

- `src/` — the library; every function carries a contract proved by Verus.
- `tests/` — runtime tests of the library.
- `app/` — the command-line program: argument parsing, reading the JSON
  corpus, reading and printing expressions and rendering e-graphs with `egg`.
