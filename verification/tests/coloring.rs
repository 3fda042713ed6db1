use satsight::batsat::BatSatBackend;
use satsight::cdcl::Cdcl;
use satsight::cnf::Cnf;
use satsight::coloring::{ColoringCell, GraphColoring, VertexColor};
use satsight::puzzle::{backbone, deduce, solve, Grid, Puzzle};
use satsight::registry::Registry;
use satsight::solver::{SolveOutcome, Solver};
use satsight::view::SolverView;

/// Does every edge join two differently colored (and fully colored) vertices?
fn is_proper(g: &GraphColoring, grid: &Grid<ColoringCell>) -> bool {
    (0..g.n_vertices()).all(|v| GraphColoring::color_at(grid, v).is_some())
        && g.edges()
            .iter()
            .all(|&(u, w)| GraphColoring::color_at(grid, u) != GraphColoring::color_at(grid, w))
}

#[test]
fn triangle_is_three_colorable_but_not_two() {
    let three = GraphColoring::complete(3, 3);
    let grid = solve(&three).expect("K3 is 3-colorable");
    assert!(is_proper(&three, &grid));

    let two = GraphColoring::complete(3, 2);
    assert!(solve(&two).is_none(), "K3 is not 2-colorable");
}

#[test]
fn logic_forces_the_last_color_of_a_triangle() {
    let mut g = GraphColoring::complete(3, 3);
    g.fix(0, Some(0));
    g.fix(1, Some(1));
    let deductions = deduce(&g);
    assert!(deductions.satisfiable);
    assert!(deductions.proven.contains(&(
        VertexColor {
            vertex: 2,
            color: 2
        },
        true
    )));
    assert!(deductions.proven.contains(&(
        VertexColor {
            vertex: 2,
            color: 0
        },
        false
    )));
}

#[test]
fn both_backends_agree_on_a_coloring_instance() {
    let mut g = GraphColoring::new(5, 3);
    for v in 0..5 {
        g.add_edge(v, (v + 1) % 5);
    }
    let mut reg: Registry<VertexColor> = Registry::new();
    let mut cnf = Cnf::new();
    g.encode_rules(&mut reg, &mut cnf);
    let assumptions = g.assumptions(&reg);

    let cdcl_outcome = Cdcl::from_cnf(&cnf).solve(&assumptions);
    let batsat_outcome = BatSatBackend::solve_cnf(&cnf, &assumptions);
    match (&cdcl_outcome, &batsat_outcome) {
        (SolveOutcome::Sat(model), SolveOutcome::Sat(_)) => {
            let grid = g.project(&SolverView::from_model(&reg, model));
            assert!(is_proper(&g, &grid));
        }
        (SolveOutcome::Unsat(_), SolveOutcome::Unsat(_)) => {
            panic!("the 5-cycle is 3-colorable")
        }
        _ => panic!("CDCL and BatSat disagree on the coloring instance"),
    }
}

#[test]
fn backbone_distinguishes_forced_facts_from_free_choices() {
    let mut g = GraphColoring::complete(3, 3);
    g.fix(0, Some(0));
    let bb = backbone(&g);
    assert!(bb.satisfiable);
    assert!(bb.proven.contains(&(
        VertexColor {
            vertex: 1,
            color: 0
        },
        false
    )));
    assert!(bb.proven.contains(&(
        VertexColor {
            vertex: 2,
            color: 0
        },
        false
    )));
    assert!(
        !bb.proven
            .iter()
            .any(|(vc, holds)| *holds && (vc.vertex == 1 || vc.vertex == 2)),
        "v1 and v2 are free, so no positive placement is in the backbone"
    );
}

#[test]
fn backbone_captures_a_forced_vertex() {
    let mut g = GraphColoring::complete(3, 3);
    g.fix(0, Some(0));
    g.fix(1, Some(1));
    let bb = backbone(&g);
    assert!(bb.satisfiable);
    assert!(bb.proven.contains(&(
        VertexColor {
            vertex: 2,
            color: 2
        },
        true
    )));
}

#[test]
fn contradictory_precoloring_is_unsat() {
    let mut g = GraphColoring::new(2, 3);
    g.add_edge(0, 1);
    g.fix(0, Some(1));
    g.fix(1, Some(1));
    assert!(solve(&g).is_none());
    assert!(!deduce(&g).satisfiable);
}

#[test]
fn add_edge_normalizes_and_collapses() {
    let mut g = GraphColoring::new(4, 2);
    g.add_edge(3, 1);
    g.add_edge(1, 3);
    g.add_edge(2, 2);
    assert_eq!(g.edges(), &[(1, 3)]);
    let k4 = GraphColoring::complete(4, 3);
    assert_eq!(k4.edges(), &[(0, 1), (0, 2), (0, 3), (1, 2), (1, 3), (2, 3)]);
}

#[test]
fn encoding_registers_vertex_major_props() {
    let mut g = GraphColoring::new(2, 3);
    g.add_edge(0, 1);
    g.fix(1, Some(2));
    let mut reg: Registry<VertexColor> = Registry::new();
    let mut cnf = Cnf::new();
    g.encode_rules(&mut reg, &mut cnf);
    assert_eq!(reg.len(), 6);
    assert_eq!(reg.get(&VertexColor { vertex: 1, color: 0 }).map(|v| v.idx()), Some(3));
    // Two exactly-one groups (1 + 3 clauses each) plus one clause per color.
    assert_eq!(cnf.len(), 2 * 4 + 3);
    let assumptions = g.assumptions(&reg);
    assert_eq!(assumptions.len(), 1);
    assert_eq!(assumptions[0].var().idx(), 5);
    assert!(assumptions[0].is_pos());
}

#[test]
fn project_deductions_paints_forced_colors() {
    let mut g = GraphColoring::complete(3, 3);
    g.fix(0, Some(0));
    g.fix(1, Some(1));
    let grid = g.project_deductions(&deduce(&g));
    assert_eq!(grid.rows(), 1);
    assert_eq!(grid.cols(), 3);
    assert_eq!(GraphColoring::color_at(&grid, 2), Some(2));
    assert!(grid.get(0, 0).fixed);
    assert!(!grid.get(0, 2).fixed);
}

#[test]
fn clicking_a_vertex_cycles_its_color() {
    let mut g = GraphColoring::complete(3, 3);
    let mut seen = Vec::new();
    for _ in 0..4 {
        g.cycle_color(1);
        seen.push(g.fixed(1));
    }
    assert_eq!(seen, vec![Some(0), Some(1), Some(2), None]);
    assert_eq!(g.fixed(0), None, "other vertices are untouched");
    g.cycle_color(0);
    g.cycle_color(2);
    g.clear_fixings();
    assert_eq!((g.fixed(0), g.fixed(1), g.fixed(2)), (None, None, None));
    assert_eq!(g.edges().len(), 3);
}

#[test]
fn edges_to_vertices_outside_the_graph_register_extra_propositions() {
    let mut g = GraphColoring::new(2, 2);
    g.add_edge(0, 1);
    g.add_edge(1, 5);
    let mut reg = Registry::new();
    let mut cnf = Cnf::new();
    g.encode_rules(&mut reg, &mut cnf);
    assert_eq!(reg.len(), 6);
    let v50 = reg.get(&VertexColor { vertex: 5, color: 0 }).unwrap();
    let v51 = reg.get(&VertexColor { vertex: 5, color: 1 }).unwrap();
    assert_eq!((v50.idx(), v51.idx()), (4, 5));
    let grid = solve(&g).expect("a path of two vertices is 2-colorable");
    assert!(GraphColoring::color_at(&grid, 0).is_some());
    assert_ne!(GraphColoring::color_at(&grid, 0), GraphColoring::color_at(&grid, 1));
    assert!(deduce(&g).satisfiable);
}
