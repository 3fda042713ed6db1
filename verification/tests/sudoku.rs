use satsight::cdcl::Cdcl;
use satsight::cnf::Cnf;
use satsight::puzzle::{backbone, deduce, solve, Grid, Puzzle};
use satsight::registry::Registry;
use satsight::solver::{SolveOutcome, Solver};
use satsight::sudoku::{render, Cell, Sudoku, SudokuCell};
use satsight::view::SolverView;

const PUZZLE: &str =
    "53..7....6..195....98....6.8...6...34..8.3..17...2...6.6....28....419..5....8..79";
const SOLUTION: &str =
    "534678912672195348198342567859761423426853791713924856961537284287419635345286179";

/// Flatten a projected grid into an 81-char digit string (`.` for blanks).
fn grid_to_string(grid: &Grid<SudokuCell>) -> String {
    let mut s = String::new();
    for cell in grid.cells() {
        match cell.value {
            Some(v) => s.push(char::from(b'0' + v)),
            None => s.push('.'),
        }
    }
    s
}

/// The nine `(r, c)` coordinates of box `b`.
fn box_cells(b: usize) -> Vec<(usize, usize)> {
    let (base_r, base_c) = ((b / 3) * 3, (b % 3) * 3);
    let mut out = Vec::new();
    for i in 0..3 {
        for j in 0..3 {
            out.push((base_r + i, base_c + j));
        }
    }
    out
}

/// Is every row, column, and box a permutation of 1..=9?
fn is_valid_solution(grid: &Grid<SudokuCell>) -> bool {
    let digit = |r: usize, c: usize| grid.get(r, c).value;
    let full = |vals: [Option<u8>; 9]| {
        let mut seen = [false; 9];
        for v in vals {
            match v {
                Some(d @ 1..=9) => {
                    if seen[(d - 1) as usize] {
                        return false;
                    }
                    seen[(d - 1) as usize] = true;
                }
                _ => return false,
            }
        }
        true
    };
    for r in 0..9 {
        if !full(std::array::from_fn(|c| digit(r, c))) {
            return false;
        }
    }
    for c in 0..9 {
        if !full(std::array::from_fn(|r| digit(r, c))) {
            return false;
        }
    }
    for b in 0..9 {
        let cells = box_cells(b);
        if !full(std::array::from_fn(|i| digit(cells[i].0, cells[i].1))) {
            return false;
        }
    }
    true
}

#[test]
fn hard_sample_needs_search_but_stays_solvable() {
    let puzzle = Sudoku::hard_sample();
    let report = puzzle.logic_report();
    assert!(report.satisfiable, "hard sample givens are consistent");
    assert!(
        !report.fully_solved(),
        "hard sample must leave work for search — logic solved {}/{} cells",
        report.solved_cells(),
        81,
    );
    let grid = solve(&puzzle).expect("hard sample is satisfiable");
    assert!(is_valid_solution(&grid), "full solve is a valid grid");
}

#[test]
fn solves_known_puzzle_to_its_unique_solution() {
    let puzzle = Sudoku::from_ascii(PUZZLE).unwrap();
    let grid = solve(&puzzle).expect("the sample puzzle is satisfiable");
    assert_eq!(grid_to_string(&grid), SOLUTION);
    assert!(is_valid_solution(&grid));
}

#[test]
fn observable_cdcl_solves_the_full_sudoku() {
    let puzzle = Sudoku::from_ascii(PUZZLE).unwrap();
    let mut reg = Registry::new();
    let mut cnf = Cnf::new();
    puzzle.encode_rules(&mut reg, &mut cnf);
    let assumptions = puzzle.assumptions(&reg);

    let mut solver = Cdcl::from_cnf(&cnf);
    let SolveOutcome::Sat(model) = solver.solve(&assumptions) else {
        panic!("the sample puzzle is satisfiable");
    };
    let grid = puzzle.project(&SolverView::from_model(&reg, &model));
    assert_eq!(grid_to_string(&grid), SOLUTION);
    assert!(is_valid_solution(&grid));
}

#[test]
fn observable_cdcl_reports_a_core_for_contradictory_givens() {
    let mut ascii = String::from("55");
    ascii.push_str(&".".repeat(79));
    let puzzle = Sudoku::from_ascii(&ascii).unwrap();
    let mut reg = Registry::new();
    let mut cnf = Cnf::new();
    puzzle.encode_rules(&mut reg, &mut cnf);
    let assumptions = puzzle.assumptions(&reg);

    let mut solver = Cdcl::from_cnf(&cnf);
    let SolveOutcome::Unsat(core) = solver.solve(&assumptions) else {
        panic!("two 5s in a row contradict");
    };
    assert!(!core.is_empty());
    for lit in &core {
        let (cell, holds): (Cell, bool) = reg.decode(*lit).expect("core is over given vars");
        assert!(holds && cell.r == 0 && cell.v == 5 && (cell.c == 0 || cell.c == 1));
    }
}

#[test]
fn model_round_trips_to_a_valid_grid() {
    let puzzle = Sudoku::empty();
    let grid = solve(&puzzle).expect("an empty board is satisfiable");
    assert!(is_valid_solution(&grid));
}

#[test]
fn solution_respects_the_givens() {
    let puzzle = Sudoku::easy_sample();
    let grid = solve(&puzzle).expect("solvable");
    for r in 0..9 {
        for c in 0..9 {
            if let Some(v) = puzzle.given(r, c) {
                assert_eq!(grid.get(r, c).value, Some(v));
                assert!(grid.get(r, c).given);
            }
        }
    }
}

#[test]
fn from_ascii_rejects_bad_input() {
    assert!(Sudoku::from_ascii("123").is_none());
    assert!(Sudoku::from_ascii(&"1".repeat(82)).is_none());
    assert!(Sudoku::from_ascii(&"x".repeat(81)).is_none());
    assert!(Sudoku::from_ascii(&".".repeat(81)).is_some());
}

#[test]
fn render_has_grid_shape() {
    let grid = solve(&Sudoku::easy_sample()).unwrap();
    let text = render(&grid);
    assert_eq!(text.lines().count(), 11);
}

#[test]
fn logic_proves_only_correct_facts() {
    let puzzle = Sudoku::easy_sample();
    let deductions = deduce(&puzzle);
    assert!(deductions.satisfiable);
    let sol = SOLUTION.as_bytes();
    for (cell, holds) in &deductions.proven {
        let solution_digit = sol[cell.r * 9 + cell.c] - b'0';
        if *holds {
            assert_eq!(cell.v, solution_digit, "forced placement must be correct");
        } else {
            assert_ne!(
                cell.v, solution_digit,
                "eliminated value must not be the answer"
            );
        }
    }
    let report = puzzle.logic_report_from(&deductions);
    assert!(report.solved_cells() > report.givens);
}

#[test]
fn deduction_grid_matches_the_solution_where_filled() {
    let puzzle = Sudoku::easy_sample();
    let deductions = deduce(&puzzle);
    let partial = puzzle.project_deductions(&deductions);
    let sol = SOLUTION.as_bytes();
    for r in 0..9 {
        for c in 0..9 {
            if let Some(v) = partial.get(r, c).value {
                assert_eq!(v, sol[r * 9 + c] - b'0');
            }
        }
    }
}

#[test]
fn empty_board_proves_nothing() {
    let report = Sudoku::empty().logic_report();
    assert!(report.satisfiable);
    assert_eq!(report.givens, 0);
    assert!(report.placements.is_empty());
    assert_eq!(report.eliminations, 0);
}

#[test]
fn contradictory_givens_are_detected_by_logic() {
    let mut ascii = String::from("55");
    ascii.push_str(&".".repeat(79));
    let puzzle = Sudoku::from_ascii(&ascii).unwrap();
    assert!(!puzzle.logic_report().satisfiable);
    assert!(solve(&puzzle).is_none());
}

#[test]
fn easy_sample_logic_counts_match_the_readme() {
    // The README's summary for the sample: every open cell deduced and 648
    // eliminations proven.
    let report = Sudoku::easy_sample().logic_report();
    assert!(report.satisfiable);
    assert_eq!(report.givens, 30);
    assert_eq!(report.placements.len(), 51);
    assert_eq!(report.solved_cells(), 81);
    assert!(report.fully_solved());
    assert_eq!(report.eliminations, 648);
}

#[test]
fn render_spells_out_digits_and_bars() {
    let grid = solve(&Sudoku::easy_sample()).unwrap();
    let text = render(&grid);
    let first = text.lines().next().unwrap();
    assert_eq!(first, "5 3 4 | 6 7 8 | 9 1 2 ");
    assert_eq!(text.lines().nth(3).unwrap(), "------+-------+------");
}

#[test]
fn logic_deductions_are_in_the_backbone() {
    for puzzle in [Sudoku::easy_sample(), Sudoku::hard_sample()] {
        let logic = deduce(&puzzle);
        let bb = backbone(&puzzle);
        assert!(logic.satisfiable && bb.satisfiable);
        for (cell, holds) in &logic.proven {
            let restates_a_given = *holds && puzzle.given(cell.r, cell.c) == Some(cell.v);
            assert!(
                restates_a_given || bb.proven.contains(&(*cell, *holds)),
                "{cell:?} = {holds} is proven by logic but missing from the backbone"
            );
        }
        assert!(bb.proven.len() >= logic.proven.iter().filter(|(c, h)| !(*h && puzzle.given(c.r, c.c) == Some(c.v))).count());
    }
}
