# solver

Production planning for a factory game, verified with Verus.

A linear solver (in `app/`, through `good_lp`) chooses how many buildings run
each recipe. From its answer the library (`src/`) builds the production graph,
places its nodes in columns, writes it in the DOT language, and computes what
the user interface draws and how its panels follow the user's choices.

Amounts are fixed-point numbers (`amount::Fl`, ten-thousandths), so each
computation on them, rounding included, is stated exactly and proved free of
overflow.

Layout of `src/`:

- `amount`, `ids`, `id_map`, `recipe`: amounts, identifiers, a sorted map keyed
  by identifier, recipes and solutions.
- `build_spec`, `build_inv`, `builder`, `build_laws`: the graph construction,
  its specification, its invariants and the laws proved of the graph it gives.
- `graph`, `cycles`, `node_set`, `sort_nodes`: the graph, the removal of the
  links that close a cycle, and the placement of nodes in columns.
- `plan`: the checks made before the solver runs.
- `render`, `dot`: sizes and positions of what is drawn, and the DOT text.
- `panels`, `buildings`, `interner`, `utils`: selection lists, search, the
  recipes of each building and the numbering of names while reading data.

`app/` holds what Verus does not see: the linear programs, reading the game
data with `serde`, and the error type with its messages.
