use satsight::cdcl::{Cdcl, Event};
use satsight::cnf::{clause, Clause, Cnf};
use satsight::coloring::{GraphColoring, VertexColor};
use satsight::frontend::{color_name, durer, petersen, step_core_vertices, step_index, step_touched_vertices, Instance};
use satsight::greeting::greeting;
use satsight::puzzle::{deduce, solve, Puzzle};
use satsight::registry::Registry;
use satsight::solver::{Assignment, SolveOutcome};
use satsight::stepper::{solver_phase, Emphasis, Stepper};
use satsight::sudoku::{Cell, Sudoku};
use satsight::view::Certainty;

const PUZZLE: &str =
    "53..7....6..195....98....6.8...6...34..8.3..17...2...6.6....28....419..5....8..79";
const SOLUTION: &str =
    "534678912672195348198342567859761423426853791713924856961537284287419635345286179";

fn stepper_for(puzzle: &Sudoku) -> Stepper<Cell> {
    let mut reg: Registry<Cell> = Registry::new();
    let mut cnf = Cnf::new();
    puzzle.encode_rules(&mut reg, &mut cnf);
    let assumptions = puzzle.assumptions(&reg);
    let cdcl = Cdcl::from_cnf(&cnf);
    Stepper::new(&cdcl, reg, &assumptions)
}

fn coloring_stepper(g: &GraphColoring) -> Stepper<VertexColor> {
    let mut reg = Registry::new();
    let mut cnf = Cnf::new();
    g.encode_rules(&mut reg, &mut cnf);
    let assumptions = g.assumptions(&reg);
    let cdcl = Cdcl::from_cnf(&cnf);
    Stepper::new(&cdcl, reg, &assumptions)
}

fn block_model(reg: &Registry<Cell>, model: &Assignment) -> Clause {
    let mut lits = Vec::new();
    for r in 0..9 {
        for c in 0..9 {
            for v in 1..=9u8 {
                if let Some(var) = reg.get(&Cell { r, c, v }) {
                    if model.var_value(var) == Some(true) {
                        lits.push(var.neg_lit());
                    }
                }
            }
        }
    }
    clause(&lits)
}

#[test]
fn stepping_to_completion_reaches_the_solution() {
    let puzzle = Sudoku::from_ascii(PUZZLE).unwrap();
    let mut stepper = stepper_for(&puzzle);
    let mut guard = 0;
    while !stepper.is_done() {
        stepper.step();
        guard += 1;
        assert!(guard < 1_000_000, "the search must terminate");
    }
    assert_eq!(stepper.description(), "Solved by search!");
    let grid = puzzle.project(&stepper.view());
    let sol = SOLUTION.as_bytes();
    for r in 0..9 {
        for c in 0..9 {
            assert_eq!(
                grid.get(r, c).value,
                Some(sol[r * 9 + c] - b'0'),
                "cell r{r}c{c} should match the unique solution"
            );
        }
    }
}

#[test]
fn stepper_view_agrees_with_a_direct_search_view() {
    let puzzle = Sudoku::from_ascii(PUZZLE).unwrap();
    let mut stepper = stepper_for(&puzzle);
    for _ in 0..200 {
        stepper.step();
    }
    let view = stepper.view();
    for (r, c, v) in [(0, 0, 5), (0, 2, 4), (4, 4, 5), (8, 8, 9)] {
        let cell = Cell { r, c, v };
        assert_eq!(view.value(&cell), stepper.value(&cell));
    }
}

#[test]
fn unsat_core_names_the_conflicting_givens() {
    let mut ascii = String::from("55");
    ascii.push_str(&".".repeat(79));
    let puzzle = Sudoku::from_ascii(&ascii).unwrap();
    let mut stepper = stepper_for(&puzzle);
    while !stepper.is_done() {
        stepper.step();
    }
    assert_eq!(
        stepper.description(),
        "Contradiction — these givens have no solution."
    );
    let cells = stepper.core_cells();
    assert!(!cells.is_empty());
    for (r, c) in cells {
        assert_eq!(r, 0);
        assert!(c == 0 || c == 1);
    }
}

#[test]
fn blocking_the_unique_solution_makes_the_search_unsat() {
    let puzzle = Sudoku::from_ascii(PUZZLE).unwrap();
    let mut reg: Registry<Cell> = Registry::new();
    let mut cnf = Cnf::new();
    puzzle.encode_rules(&mut reg, &mut cnf);
    let assumptions = puzzle.assumptions(&reg);

    let cdcl = Cdcl::from_cnf(&cnf);
    let SolveOutcome::Sat(model) = cdcl.search(&assumptions).run() else {
        panic!("the sample puzzle is satisfiable");
    };
    let sol = SOLUTION.as_bytes();
    for r in 0..9 {
        for c in 0..9 {
            let v = sol[r * 9 + c] - b'0';
            let var = reg.get(&Cell { r, c, v }).unwrap();
            assert_eq!(model.var_value(var), Some(true));
        }
    }

    cnf.add_clause(block_model(&reg, &model));
    let cdcl = Cdcl::from_cnf(&cnf);
    assert!(
        matches!(cdcl.search(&assumptions).run(), SolveOutcome::Unsat(_)),
        "blocking the unique solution must leave the puzzle UNSAT"
    );
}

#[test]
fn blocking_one_of_many_solutions_yields_a_different_one() {
    let puzzle = Sudoku::empty();
    let mut reg: Registry<Cell> = Registry::new();
    let mut cnf = Cnf::new();
    puzzle.encode_rules(&mut reg, &mut cnf);
    let assumptions = puzzle.assumptions(&reg);

    let cdcl = Cdcl::from_cnf(&cnf);
    let SolveOutcome::Sat(first) = cdcl.search(&assumptions).run() else {
        panic!("an empty board is satisfiable");
    };

    cnf.add_clause(block_model(&reg, &first));
    let cdcl = Cdcl::from_cnf(&cnf);
    let SolveOutcome::Sat(second) = cdcl.search(&assumptions).run() else {
        panic!("an empty board has more than one solution");
    };

    let differs = (0..9)
        .flat_map(|r| (0..9).map(move |c| (r, c)))
        .any(|(r, c)| {
            (1..=9u8).any(|v| {
                let var = reg.get(&Cell { r, c, v }).unwrap();
                first.var_value(var) != second.var_value(var)
            })
        });
    assert!(differs, "the blocked board must not reappear");
}

#[test]
fn stepping_a_triangle_forces_the_last_color() {
    let mut g = GraphColoring::complete(3, 3);
    g.fix(0, Some(0));
    g.fix(1, Some(1));
    let mut st = coloring_stepper(&g);
    let mut guard = 0;
    while !st.is_done() {
        st.step();
        guard += 1;
        assert!(guard < 100_000, "the search must terminate");
    }
    assert!(st.is_solved(), "K3 with two colors pinned is colorable");
    let forced = VertexColor {
        vertex: 2,
        color: 2,
    };
    assert_eq!(st.value(&forced), Some(true), "vertex 2 takes color 2");
    assert_eq!(
        st.certainty(&forced),
        Certainty::Proven,
        "it holds in every coloring, so it reads as proven, not a guess"
    );
    for color in [0, 1] {
        assert_eq!(
            st.value(&VertexColor { vertex: 2, color }),
            Some(false),
            "color {color} is ruled out at vertex 2"
        );
    }
}

#[test]
fn contradictory_precoloring_steps_to_an_unsat_core() {
    let mut g = GraphColoring::new(2, 3);
    g.add_edge(0, 1);
    g.fix(0, Some(1));
    g.fix(1, Some(1));
    let mut st = coloring_stepper(&g);
    while !st.is_done() {
        st.step();
    }
    assert!(!st.is_solved(), "a same-color edge is uncolorable");
    let core = step_core_vertices(&st);
    assert!(!core.is_empty(), "UNSAT reports a core");
    assert!(
        core.iter().all(|&v| v == 0 || v == 1),
        "the core names only the conflicting vertices"
    );
}

#[test]
fn color_names_match_the_palette_order() {
    assert_eq!(color_name(0), "red");
    assert_eq!(color_name(2), "blue");
    assert_eq!(color_name(9), "color 9");
}

#[test]
fn greeting_includes_the_name() {
    assert_eq!(greeting("world"), "Hello, world!");
}

#[test]
fn description_narrates_guesses_and_propagation() {
    let puzzle = Sudoku::from_ascii(PUZZLE).unwrap();
    let mut stepper = stepper_for(&puzzle);
    assert_eq!(stepper.description(), "Ready — press Step or Play to watch the solver.");
    stepper.step();
    // The first given, r1c1 = 5, is placed as the first decision.
    assert_eq!(stepper.description(), "Guess: r1c1 = 5");
    let mut saw_forced = false;
    for _ in 0..400 {
        stepper.step();
        let d = stepper.description();
        if d.starts_with("Ruled out ") || d.starts_with("Forced: ") {
            saw_forced = true;
        }
    }
    assert!(saw_forced);
}

#[test]
fn solver_phase_names_the_mechanics() {
    assert_eq!(
        solver_phase(&Event::Backtrack { to_level: 12 }).as_deref(),
        Some("Backtrack to level 12.")
    );
    assert_eq!(
        solver_phase(&Event::Conflict { clause: 0 }).as_deref(),
        Some("Conflict — analyzing and backtracking.")
    );
    assert!(solver_phase(&Event::Sat).is_none());
}

#[test]
fn step_index_clamps_to_the_board() {
    assert_eq!(step_index(0, -1), 0);
    assert_eq!(step_index(4, -1), 3);
    assert_eq!(step_index(8, 1), 8);
    assert_eq!(step_index(3, 1), 4);
    assert_eq!(step_index(5, 0), 5);
}

#[test]
fn instances_have_labels() {
    assert_eq!(Instance::Petersen.label(), "Petersen");
    assert_eq!(Instance::Durer.label(), "Dürer");
    assert!(Instance::Durer.blurb().starts_with("The Dürer graph"));
}

#[test]
fn durer_graph_is_solvable_but_needs_search() {
    let g = Instance::Durer.graph();
    assert_eq!(g.n_vertices(), 12);
    assert!(solve(&g).is_some(), "the Dürer graph is 3-colorable");
    assert!(
        deduce(&g).proven.iter().all(|(_, holds)| !holds),
        "no vertex is forced by logic alone"
    );

    let mut st = coloring_stepper(&g);
    let (mut conflicts, mut backtracks) = (0u32, 0u32);
    let mut guard = 0;
    while !st.is_done() {
        if let Some(event) = {
            st.step();
            st.last_event()
        } {
            match event {
                Event::Conflict { .. } => conflicts += 1,
                Event::Backtrack { .. } => backtracks += 1,
                _ => {}
            }
        }
        guard += 1;
        assert!(guard < 1_000_000, "the search must terminate");
    }
    assert!(st.is_solved(), "the search finds a coloring");
    assert!(
        conflicts > 0 && backtracks > 0,
        "coloring it takes real backtracking search: conflicts={conflicts} backtracks={backtracks}"
    );
}

#[test]
fn generalized_petersen_graphs_have_their_edges() {
    let p = petersen();
    assert_eq!(p.n_vertices(), 10);
    assert_eq!(p.n_colors(), 3);
    assert_eq!(p.edges().len(), 15);
    for e in [(0, 1), (0, 4), (0, 5), (5, 7), (5, 8), (6, 9)] {
        assert!(p.edges().contains(&e), "Petersen has edge {e:?}");
    }
    assert!(!p.edges().contains(&(5, 6)), "inner vertices step by two");
    let d = durer();
    assert_eq!(d.n_vertices(), 12);
    assert_eq!(d.edges().len(), 18);
    for e in [(0, 1), (0, 5), (0, 6), (6, 8), (6, 10), (7, 11)] {
        assert!(d.edges().contains(&e), "Dürer has edge {e:?}");
    }
    assert!(solve(&p).is_some(), "the Petersen graph is 3-colorable");
}

#[test]
fn coloring_description_names_vertices_and_colors() {
    let mut g = GraphColoring::complete(3, 3);
    g.fix(0, Some(0));
    g.fix(1, Some(1));
    let mut st = coloring_stepper(&g);
    assert_eq!(st.description(), "Ready — press Step or Play to watch the solver.");
    let mut saw_forced = false;
    while !st.is_done() {
        st.step();
        let line = st.description();
        if let Some(Event::Propagate { lit, .. }) = st.last_event() {
            let (x, holds) = st.decode(*lit).expect("a coloring literal decodes");
            if holds {
                assert_eq!(line, format!("Forced: vertex {} = {}", x.vertex, color_name(x.color)));
                saw_forced = true;
            } else {
                assert_eq!(line, format!("Ruled out {} at vertex {}", color_name(x.color), x.vertex));
            }
        }
    }
    assert!(saw_forced);
    assert_eq!(st.description(), "A proper coloring, found by search!");
}

#[test]
fn step_vertex_reports_the_forced_color() {
    let mut g = GraphColoring::complete(3, 3);
    g.fix(0, Some(0));
    g.fix(1, Some(1));
    let mut st = coloring_stepper(&g);
    let before = st.step_vertex(2, 3);
    assert_eq!(before.placed, None);
    assert_eq!(before.candidate, vec![true, true, true]);
    assert_eq!(before.hypo_eliminated, vec![false, false, false]);
    while !st.is_done() {
        st.step();
    }
    assert!(st.is_solved());
    let sv = st.step_vertex(2, 3);
    assert_eq!(sv.placed, Some((2, Certainty::Proven)));
    assert_eq!(sv.candidate, vec![false, false, true]);
    assert_eq!(sv.hypo_eliminated, vec![false, false, false]);
    assert_eq!(st.step_vertex(0, 3).placed, Some((0, Certainty::Proven)));
}

#[test]
fn emphasis_follows_the_last_event() {
    let puzzle = Sudoku::from_ascii(PUZZLE).unwrap();
    let mut st = stepper_for(&puzzle);
    assert!(matches!(st.emphasis(), Emphasis::Nothing));
    let mut checked = 0;
    while !st.is_done() && checked < 50 {
        st.step();
        if let Some(Event::Decide { lit }) | Some(Event::Propagate { lit, .. }) = st.last_event() {
            let (cell, _) = st.decode(*lit).expect("a Sudoku literal decodes");
            match st.emphasis() {
                Emphasis::Cells(cells) => assert_eq!(cells, vec![(cell.r, cell.c)]),
                Emphasis::Nothing => panic!("a decision or propagation names its cell"),
            }
            checked += 1;
        }
    }
    assert!(checked > 0);
}

#[test]
fn view_queries_separate_proven_from_ruled_out() {
    let puzzle = Sudoku::from_ascii(PUZZLE).unwrap();
    let mut st = stepper_for(&puzzle);
    while !st.is_done() {
        st.step();
    }
    let view = st.view();
    // r1c1 is the given 5.
    assert!(view.is_candidate(&Cell { r: 0, c: 0, v: 5 }));
    assert!(!view.is_candidate(&Cell { r: 0, c: 0, v: 3 }));
    assert!(!view.eliminated_under_guess(&Cell { r: 0, c: 0, v: 3 }));
    assert!(!view.eliminated_under_guess(&Cell { r: 0, c: 0, v: 5 }));
    // A proposition that was never registered is no candidate.
    assert!(!view.is_candidate(&Cell { r: 0, c: 0, v: 10 }));
}

#[test]
fn touched_vertices_name_the_last_move() {
    let mut g = GraphColoring::complete(3, 3);
    g.fix(0, Some(0));
    g.fix(1, Some(1));
    let mut st = coloring_stepper(&g);
    assert!(step_touched_vertices(&st).is_empty());
    while !st.is_done() {
        st.step();
        if let Some(Event::Decide { lit }) | Some(Event::Propagate { lit, .. }) = st.last_event() {
            let (x, _) = st.decode(*lit).expect("a coloring literal decodes");
            assert_eq!(step_touched_vertices(&st), vec![x.vertex]);
        }
    }
}

#[test]
fn play_frame_runs_to_the_end_and_stops_playing() {
    let mut g = GraphColoring::complete(3, 3);
    g.fix(0, Some(0));
    let mut st = coloring_stepper(&g);
    assert!(!st.play_frame(5), "a paused stepper does not advance");
    assert!(st.last_event().is_none());
    st.playing = true;
    assert!(st.play_frame(1));
    assert!(st.last_event().is_some());
    assert!(st.play_frame(10_000));
    assert!(st.is_done());
    assert!(!st.playing);
    assert!(!st.play_frame(3), "a finished stepper does not advance");
}

#[test]
fn blocking_the_only_coloring_leaves_none() {
    let mut g = GraphColoring::complete(3, 3);
    g.fix(0, Some(0));
    g.fix(1, Some(1));
    let mut reg = Registry::new();
    let mut cnf = Cnf::new();
    g.encode_rules(&mut reg, &mut cnf);
    let assumptions = g.assumptions(&reg);
    let expected: Vec<_> = [(0, 0), (1, 1), (2, 2)]
        .iter()
        .map(|&(vertex, color)| reg.get(&VertexColor { vertex, color }).unwrap().neg_lit())
        .collect();
    let mut st = Stepper::new(&Cdcl::from_cnf(&cnf), reg, &assumptions);
    assert!(st.blocking_clause().is_none(), "nothing to block before a solution");
    while !st.is_done() {
        st.step();
    }
    let block = st.blocking_clause().expect("solved");
    assert_eq!(block.lits, expected);
    let mut reg2 = Registry::new();
    let mut cnf2 = Cnf::new();
    g.encode_rules(&mut reg2, &mut cnf2);
    cnf2.add_clause(block);
    let mut again = Stepper::new(&Cdcl::from_cnf(&cnf2), reg2, &assumptions);
    while !again.is_done() {
        again.step();
    }
    assert!(!again.is_solved(), "the coloring was unique");
}
