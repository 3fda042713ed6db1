use satsight::akari::{render, Akari, AkariCell, Lamp, Square};
use satsight::batsat::BatSatBackend;
use satsight::cdcl::{Cdcl, Event};
use satsight::frontend::{empty_deductions, step_core_cells, step_touched_cells};
use satsight::cnf::Cnf;
use satsight::puzzle::{backbone, deduce, solve, Grid, Puzzle};
use satsight::registry::Registry;
use satsight::solver::{SolveOutcome, Solver};
use satsight::stepper::Stepper;
use satsight::view::SolverView;

/// Every maximal run of two or more white cells, rows then columns.
fn runs(a: &Akari) -> Vec<Vec<(usize, usize)>> {
    let mut runs = Vec::new();
    let mut flush = |run: &mut Vec<(usize, usize)>, runs: &mut Vec<Vec<(usize, usize)>>| {
        if run.len() > 1 {
            runs.push(std::mem::take(run));
        } else {
            run.clear();
        }
    };
    for r in 0..a.rows() {
        let mut run = Vec::new();
        for c in 0..a.cols() {
            if a.is_white(r, c) {
                run.push((r, c));
            } else {
                flush(&mut run, &mut runs);
            }
        }
        flush(&mut run, &mut runs);
    }
    for c in 0..a.cols() {
        let mut run = Vec::new();
        for r in 0..a.rows() {
            if a.is_white(r, c) {
                run.push((r, c));
            } else {
                flush(&mut run, &mut runs);
            }
        }
        flush(&mut run, &mut runs);
    }
    runs
}

/// The white orthogonal neighbors of `(r, c)`.
fn white_neighbors(a: &Akari, r: usize, c: usize) -> Vec<(usize, usize)> {
    let mut out = Vec::new();
    if r > 0 && a.is_white(r - 1, c) {
        out.push((r - 1, c));
    }
    if r + 1 < a.rows() && a.is_white(r + 1, c) {
        out.push((r + 1, c));
    }
    if c > 0 && a.is_white(r, c - 1) {
        out.push((r, c - 1));
    }
    if c + 1 < a.cols() && a.is_white(r, c + 1) {
        out.push((r, c + 1));
    }
    out
}

fn obeys_rules(a: &Akari, grid: &Grid<AkariCell>, require_full: bool) -> bool {
    for r in 0..a.rows() {
        for c in 0..a.cols() {
            if let AkariCell::White { lit, lamp, .. } = *grid.get(r, c) {
                if !lit {
                    return false;
                }
                if require_full && lamp.is_none() {
                    return false;
                }
            }
        }
    }
    for run in runs(a) {
        let lamps = run
            .iter()
            .filter(|&&(r, c)| Akari::lamp_at(grid, r, c))
            .count();
        if lamps > 1 {
            return false;
        }
    }
    for r in 0..a.rows() {
        for c in 0..a.cols() {
            if let Square::Wall(Some(k)) = a.square(r, c) {
                let lamps = white_neighbors(a, r, c)
                    .into_iter()
                    .filter(|&(rr, cc)| Akari::lamp_at(grid, rr, cc))
                    .count();
                if lamps != usize::from(k) {
                    return false;
                }
            }
        }
    }
    true
}

#[test]
fn from_ascii_round_trips_shape() {
    let a = Akari::from_ascii("..#\n.2.\n#..").unwrap();
    assert_eq!((a.rows(), a.cols()), (3, 3));
    assert_eq!(a.square(0, 2), Square::Wall(None));
    assert_eq!(a.square(1, 1), Square::Wall(Some(2)));
    assert!(a.is_white(0, 0));
}

#[test]
fn from_ascii_rejects_ragged_or_bad_input() {
    assert!(Akari::from_ascii("..\n...").is_none());
    assert!(Akari::from_ascii("..x").is_none());
    assert!(Akari::from_ascii("5..").is_none());
    assert!(Akari::from_ascii("").is_none());
    assert!(Akari::from_ascii(".#.").is_some());
}

#[test]
fn a_four_wall_forces_all_neighbors_by_logic() {
    let a = Akari::from_ascii("#.#\n.4.\n#.#").unwrap();
    let d = deduce(&a);
    assert!(d.satisfiable);
    for (r, c) in [(0, 1), (1, 0), (1, 2), (2, 1)] {
        assert!(
            d.proven.contains(&(Lamp { r, c }, true)),
            "the 4-wall forces a lamp at ({r}, {c})"
        );
    }
}

#[test]
fn a_zero_wall_forbids_neighbor_lamps() {
    let a = Akari::from_ascii(".....\n..0..\n.....").unwrap();
    let d = deduce(&a);
    assert!(d.satisfiable);
    for (r, c) in [(0, 2), (1, 1), (1, 3), (2, 2)] {
        assert!(
            d.proven.contains(&(Lamp { r, c }, false)),
            "the 0-wall rules out a lamp at ({r}, {c})"
        );
    }
}

#[test]
fn isolated_white_cell_must_hold_a_lamp() {
    let a = Akari::from_ascii("###\n#.#\n###").unwrap();
    let d = deduce(&a);
    assert!(d.satisfiable);
    assert!(d.proven.contains(&(Lamp { r: 1, c: 1 }, true)));
}

#[test]
fn sample_solves_to_a_valid_board() {
    let a = Akari::sample();
    let grid = solve(&a).expect("the sample is solvable");
    assert!(
        obeys_rules(&a, &grid, true),
        "the full solve obeys every rule"
    );
}

#[test]
fn sample_has_a_unique_solution() {
    let a = Akari::sample();
    let bb = backbone(&a);
    assert!(bb.satisfiable);
    let grid = a.project_deductions(&bb);
    assert!(
        obeys_rules(&a, &grid, true),
        "a unique board's backbone fills and validates every cell"
    );
}

#[test]
fn both_backends_agree_on_the_sample() {
    let a = Akari::sample();
    let mut reg: Registry<Lamp> = Registry::new();
    let mut cnf = Cnf::new();
    a.encode_rules(&mut reg, &mut cnf);
    let assumptions = a.assumptions(&reg);

    let cdcl = Cdcl::from_cnf(&cnf).solve(&assumptions);
    let batsat = BatSatBackend::solve_cnf(&cnf, &assumptions);
    match (&cdcl, &batsat) {
        (SolveOutcome::Sat(model), SolveOutcome::Sat(_)) => {
            let grid = a.project(&SolverView::from_model(&reg, model));
            assert!(obeys_rules(&a, &grid, true));
        }
        (SolveOutcome::Unsat(_), SolveOutcome::Unsat(_)) => {
            panic!("the sample is solvable")
        }
        _ => panic!("CDCL and BatSat disagree on the sample"),
    }
}

#[test]
fn contradictory_given_is_unsat() {
    let mut a = Akari::from_ascii(".....").unwrap();
    a.set_given(0, 0, Some(true));
    a.set_given(0, 3, Some(true));
    assert!(solve(&a).is_none());
    assert!(!deduce(&a).satisfiable);
}

#[test]
fn placing_a_lamp_lights_its_run() {
    let mut a = Akari::from_ascii(".....").unwrap();
    a.set_given(0, 2, Some(true));
    let grid = solve(&a).expect("solvable");
    assert!(Akari::lamp_at(&grid, 0, 2));
    for c in 0..5 {
        assert!(
            matches!(grid.get(0, c), AkariCell::White { lit: true, .. }),
            "cell (0, {c}) is lit by the placed lamp"
        );
    }
}

#[test]
fn empty_given_forbids_a_lamp_there() {
    let mut a = Akari::from_ascii(".....").unwrap();
    a.set_given(0, 0, Some(false));
    let grid = solve(&a).expect("solvable");
    assert!(!Akari::lamp_at(&grid, 0, 0));
}

#[test]
fn set_given_ignores_walls() {
    let mut a = Akari::from_ascii(".#.").unwrap();
    a.set_given(0, 1, Some(true));
    assert_eq!(a.given(0, 1), None);
    assert_eq!(a.given_count(), 0);
}

#[test]
fn render_marks_walls_lamps_and_lit_cells() {
    let mut a = Akari::from_ascii("..#.").unwrap();
    a.set_given(0, 0, Some(true));
    let grid = solve(&a).expect("solvable");
    assert_eq!(render(&grid).lines().next(), Some("*+#*"));
}

#[test]
fn from_ascii_handles_spacing_blank_lines_and_crlf() {
    let a = Akari::from_ascii(". . #\r\n\n\t. 1 .\n").unwrap();
    assert_eq!((a.rows(), a.cols()), (2, 3));
    assert_eq!(a.square(0, 2), Square::Wall(None));
    assert_eq!(a.square(1, 1), Square::Wall(Some(1)));
    // A carriage return not followed by a newline is whitespace within the line.
    let b = Akari::from_ascii("..\r").unwrap();
    assert_eq!((b.rows(), b.cols()), (1, 2));
}

#[test]
fn cross_cells_stop_at_walls() {
    let a = Akari::from_ascii("..#.\n.#..\n....").unwrap();
    let cross = a.cross_cells(0, 0);
    assert_eq!(cross, vec![(0, 0), (0, 1), (1, 0), (2, 0)]);
    let mid = a.cross_cells(2, 2);
    assert_eq!(mid, vec![(2, 2), (2, 1), (2, 0), (2, 3), (1, 2)]);
}

#[test]
fn sample_shape_and_encoding_sizes() {
    let a = Akari::sample();
    assert_eq!((a.rows(), a.cols()), (7, 7));
    assert_eq!(a.square(0, 2), Square::Wall(Some(2)));
    assert_eq!(a.square(3, 0), Square::Wall(Some(0)));
    let mut reg: Registry<Lamp> = Registry::new();
    let mut cnf = Cnf::new();
    a.encode_rules(&mut reg, &mut cnf);
    // 49 squares minus 11 numbered walls.
    assert_eq!(reg.len(), 38);
    assert_eq!(a.assumptions(&reg).len(), 0);
}

#[test]
fn blank_board_and_clear_givens() {
    let mut a = Akari::blank(2, 3);
    assert_eq!((a.rows(), a.cols()), (2, 3));
    assert!(a.is_white(1, 2));
    a.set_given(1, 2, Some(false));
    a.set_given(0, 0, Some(true));
    assert_eq!(a.given_count(), 2);
    a.clear_givens();
    assert_eq!(a.given_count(), 0);
}

fn akari_stepper(puzzle: &Akari) -> Stepper<Lamp> {
    let mut reg = Registry::new();
    let mut cnf = Cnf::new();
    puzzle.encode_rules(&mut reg, &mut cnf);
    let assumptions = puzzle.assumptions(&reg);
    let cdcl = Cdcl::from_cnf(&cnf);
    Stepper::new(&cdcl, reg, &assumptions)
}

#[test]
fn stepping_the_sample_never_panics_on_counter_variables() {
    let mut st = akari_stepper(&Akari::sample());
    let mut guard = 0;
    loop {
        let line = st.description();
        assert!(!line.is_empty());
        if st.is_done() {
            break;
        }
        st.step();
        guard += 1;
        assert!(guard < 1_000_000, "the search must terminate");
    }
    assert!(st.is_solved(), "the sample board is solvable, so the stepped search ends in a solution");
}

#[test]
fn akari_description_names_lamps_and_counters() {
    let mut st = akari_stepper(&Akari::sample());
    assert_eq!(st.description(), "Ready — press Step or Play to watch the solver.");
    let (mut lamp_lines, mut counter_lines) = (0, 0);
    while !st.is_done() {
        st.step();
        let line = st.description();
        match st.last_event() {
            Some(Event::Decide { lit }) | Some(Event::Propagate { lit, .. }) => match st.decode(*lit) {
                Some((lamp, _)) => {
                    assert!(line.ends_with(&format!("({}, {})", lamp.r, lamp.c)), "{line}");
                    lamp_lines += 1;
                }
                None => {
                    assert!(line.contains("internal wall-count variable"), "{line}");
                    counter_lines += 1;
                }
            },
            Some(Event::Sat) => assert_eq!(line, "Every cell lit — a valid lighting, found by search!"),
            _ => {}
        }
    }
    assert!(lamp_lines > 0 && counter_lines > 0);
}

#[test]
fn white_and_decided_counts_on_the_sample() {
    let a = Akari::sample();
    assert_eq!(a.white_count(), 38);
    let full = solve(&a).expect("the sample is solvable");
    assert_eq!(a.decided_white(&full), 38);
    let base = a.project_deductions(&empty_deductions());
    assert_eq!(a.decided_white(&base), 0);
}

#[test]
fn a_solved_search_lights_every_white_cell() {
    let a = Akari::sample();
    let mut st = akari_stepper(&a);
    for r in 0..a.rows() {
        for c in 0..a.cols() {
            if a.is_white(r, c) {
                assert!(!st.lights(&a, r, c), "nothing is lit before the search starts");
            }
        }
    }
    while !st.is_done() {
        st.step();
    }
    assert!(st.is_solved());
    for r in 0..a.rows() {
        for c in 0..a.cols() {
            if a.is_white(r, c) {
                assert!(st.lights(&a, r, c), "({r}, {c}) is lit in the solution");
            }
        }
    }
}

#[test]
fn touched_and_core_cells_follow_the_search() {
    let a = Akari::sample();
    let mut st = akari_stepper(&a);
    assert!(step_touched_cells(&st).is_empty());
    while !st.is_done() {
        st.step();
        if let Some(Event::Decide { lit }) | Some(Event::Propagate { lit, .. }) = st.last_event() {
            match st.decode(*lit) {
                Some((lamp, _)) => assert_eq!(step_touched_cells(&st), vec![(lamp.r, lamp.c)]),
                None => assert!(step_touched_cells(&st).is_empty()),
            }
        }
        assert!(step_core_cells(&st).is_empty(), "a solvable board has no core");
    }
}

#[test]
fn clicking_a_white_cell_cycles_its_given() {
    let mut a = Akari::sample();
    assert!(a.is_white(0, 0));
    let mut seen = Vec::new();
    for _ in 0..3 {
        a.cycle_given(0, 0);
        seen.push(a.given(0, 0));
    }
    assert_eq!(seen, vec![Some(true), Some(false), None]);
    assert!(!a.is_white(0, 2));
    a.cycle_given(0, 2);
    assert_eq!(a.given(0, 2), None, "a wall takes no given");
}

#[test]
fn from_ascii_skips_any_whitespace_within_a_line() {
    let a = Akari::from_ascii(".\u{c}.").unwrap();
    assert_eq!(a.rows(), 1);
    assert_eq!(a.cols(), 2);
    let b = Akari::from_ascii(" . \u{a0}#\t\n\u{3000}.\u{b}2").unwrap();
    assert_eq!(b.rows(), 2);
    assert_eq!(b.cols(), 2);
}
