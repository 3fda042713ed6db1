# SatSight

Solving puzzles by reduction to SAT, and projecting what the solver discovers
back into the puzzle's own language: forced facts, still-possible candidates,
the backbone, and the givens an unsatisfiable core names.

The library under `src/` is written in Verus and verified. Its contracts are
stated over the meaning of formulas (total assignments satisfying clauses), so
the main results read as theorems:

- the encodings (pairwise and sequential at-most-one, exactly-one, and the
  sequential at-most/at-least/exactly-`k` counters) mean what they say, with the
  auxiliary registers left free (`encodings`, `cardinality`);
- unit propagation and failed-literal probing are sound (`propagate`), and the
  puzzle-level deduction proves only facts that hold in every solution
  (`puzzle::deduce`);
- the backbone holds only forced literals, and every forced literal over a
  variable the rules mention (`backbone`); at the puzzle level it is exactly the
  set of forced facts about the registered propositions that are not givens
  (`puzzle::backbone`), and
  everything deduction proves about a non-given is in it;
- the steppable CDCL search (`cdcl`) terminates, and its `Sat`/`Unsat` outcomes
  are sound; an UNSAT core is drawn from the givens and contradicts the rules by
  itself (unless the givens hold a literal and its negation); what the search
  holds at or below the givens' level is forced
  (`cdcl::Search::lemma_proven_forced`);
- the Sudoku, graph-coloring and Akari rules are satisfied exactly by the
  puzzle's solutions (`sudoku::lemma_sudoku_rules_mean`,
  `coloring::GraphColoring::lemma_rules_mean`, `akari::Akari::lemma_rules_mean`).

The BatSat backend (`batsat`) calls the `rustsat-batsat` crate through a few
trusted wrappers whose contracts state what that solver documents.

`app/` is a small command-line front end (`satsight sudoku|coloring|akari|step|unique`)
over the library; `tests/` holds the test suite.
