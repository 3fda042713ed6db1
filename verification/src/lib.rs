//! SatSight — solving puzzles by reduction to SAT, and projecting what the
//! solver discovers back into the puzzle's own language.
//!
//! - [`cnf`] — variables, literals, clauses and formulas, with their meaning
//!   over total assignments.
//! - [`solver`] — partial assignments, solve outcomes and the [`solver::Solver`]
//!   trait both backends implement.
//! - [`registry`] — the bijection between puzzle propositions and variables.
//! - [`encodings`] — at-least-one, at-most-one and the sequential counters.
//! - [`cardinality`] — what the sequential encodings mean.
//! - [`propagate`] — unit propagation and failed-literal probing.
//! - [`cdcl`] — the observable, steppable CDCL search.
//! - [`batsat`] — the BatSat backend.
//! - [`backbone`] — literals true in every model.
//! - [`view`] — the decoded read model a puzzle projects.
//! - [`puzzle`], [`sudoku`], [`coloring`], [`akari`] — the puzzles.
//! - [`stepper`] — driving a search one event at a time for a view.
//! - [`frontend`] — what the puzzle views show of a search: status lines,
//!   highlighted cells and vertices, and the graph instances on offer.
//! - [`text`], [`greeting`] — text building and the greeting.

pub mod cnf;
pub mod solver;
pub mod registry;
pub mod encodings;
pub mod cardinality;
pub mod propagate;
pub mod cdcl;
pub mod batsat;
pub mod backbone;
pub mod view;
pub mod puzzle;
pub mod coloring;
pub mod sudoku;
pub mod stepper;
pub mod akari;
pub mod frontend;
pub mod greeting;
pub mod text;
