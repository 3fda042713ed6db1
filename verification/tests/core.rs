use satsight::backbone::backbone;
use satsight::batsat::BatSatBackend;
use satsight::cdcl::{Cdcl, Event, Search};
use satsight::cnf::{clause, Cnf, Lit, Var, VarManager};
use satsight::encodings::{
    at_least_k_sequential, at_most_k_sequential, at_most_one_pairwise, at_most_one_sequential,
    exactly_k_sequential, exactly_one_pairwise, exactly_one_sequential,
};
use satsight::propagate::Propagator;
use satsight::registry::Registry;
use satsight::solver::{Assignment, SolveOutcome, Solver};
use satsight::view::SolverView;

fn satisfies(model: &Assignment, clauses: &[Vec<Lit>]) -> bool {
    clauses
        .iter()
        .all(|cl| cl.iter().any(|&lit| model.lit_value(lit) == Some(true)))
}

struct Rng(u64);
impl Rng {
    fn bits(&mut self) -> u64 {
        let mut x = self.0;
        x ^= x << 13;
        x ^= x >> 7;
        x ^= x << 17;
        self.0 = x;
        x
    }
    fn below(&mut self, n: usize) -> usize {
        let n = u64::try_from(n).expect("bound fits in u64");
        usize::try_from(self.bits() % n).expect("remainder fits in usize")
    }
    fn coin(&mut self) -> bool {
        self.bits() & 1 == 0
    }
    fn var(&mut self, n_vars: usize) -> Var {
        Var::new(u32::try_from(self.below(n_vars)).expect("variable index fits in u32"))
    }
    fn lit(&mut self, n_vars: usize) -> Lit {
        let var = self.var(n_vars);
        if self.coin() {
            var.pos_lit()
        } else {
            var.neg_lit()
        }
    }
}

fn chain() -> (Cnf, [Var; 3]) {
    let (a, b, c) = (Var::new(0), Var::new(1), Var::new(2));
    let mut cnf = Cnf::new();
    cnf.add_clause(clause(&[a.pos_lit()]));
    cnf.add_clause(clause(&[a.neg_lit(), b.pos_lit()]));
    cnf.add_clause(clause(&[b.neg_lit(), c.pos_lit()]));
    (cnf, [a, b, c])
}

#[test]
fn solves_a_unit_chain() {
    let (cnf, [a, b, c]) = chain();
    let mut solver = Cdcl::from_cnf(&cnf);
    let SolveOutcome::Sat(model) = solver.solve(&[]) else {
        panic!("chain is satisfiable");
    };
    assert_eq!(model.var_value(a), Some(true));
    assert_eq!(model.var_value(b), Some(true));
    assert_eq!(model.var_value(c), Some(true));
}

#[test]
fn detects_a_direct_contradiction() {
    let a = Var::new(0);
    let mut cnf = Cnf::new();
    cnf.add_clause(clause(&[a.pos_lit()]));
    cnf.add_clause(clause(&[a.neg_lit()]));
    let mut solver = Cdcl::from_cnf(&cnf);
    let SolveOutcome::Unsat(core) = solver.solve(&[]) else {
        panic!("directly contradictory");
    };
    assert!(
        core.is_empty(),
        "rules alone are UNSAT; no assumptions needed"
    );
}

#[test]
fn unsat_core_pins_the_conflicting_assumptions() {
    let (a, b) = (Var::new(0), Var::new(1));
    let mut cnf = Cnf::new();
    cnf.add_clause(clause(&[a.neg_lit(), b.neg_lit()]));
    let mut solver = Cdcl::from_cnf(&cnf);
    let SolveOutcome::Unsat(core) = solver.solve(&[a.pos_lit(), b.pos_lit()]) else {
        panic!("a ∧ b contradicts the clause");
    };
    assert!(core.iter().all(|l| *l == a.pos_lit() || *l == b.pos_lit()));
    assert!(core.contains(&a.pos_lit()));
    assert!(core.contains(&b.pos_lit()));
    assert!(matches!(solver.solve(&[a.pos_lit()]), SolveOutcome::Sat(_)));
}

#[test]
fn agrees_with_batsat_on_random_instances() {
    let mut rng = Rng(0x5EED);
    let mut sat = 0;
    let mut unsat = 0;
    for _ in 0..600 {
        let n_vars = 3 + rng.below(6);
        let n_clauses = 3 + rng.below(20);
        let mut clauses: Vec<Vec<Lit>> = Vec::new();
        let mut cnf = Cnf::new();
        for _ in 0..n_clauses {
            let cl: Vec<Lit> = (0..3).map(|_| rng.lit(n_vars)).collect();
            cnf.add_clause(clause(&cl));
            clauses.push(cl);
        }

        let mut solver = Cdcl::from_cnf(&cnf);
        let ours = solver.solve(&[]);
        let theirs = BatSatBackend::solve_cnf(&cnf, &[]);
        match (&ours, &theirs) {
            (SolveOutcome::Sat(model), SolveOutcome::Sat(_)) => {
                assert!(satisfies(model, &clauses), "our model must satisfy the CNF");
                sat += 1;
            }
            (SolveOutcome::Unsat(_), SolveOutcome::Unsat(_)) => unsat += 1,
            _ => panic!("CDCL and BatSat disagree on satisfiability"),
        }
    }
    assert!(
        sat > 0 && unsat > 0,
        "fuzz saw only one verdict (sat={sat}, unsat={unsat})"
    );
}

#[test]
fn agrees_with_batsat_under_random_assumptions() {
    let mut rng = Rng(0x00C0_FFEE);
    for _ in 0..400 {
        let n_vars = 3 + rng.below(5);
        let n_clauses = 2 + rng.below(12);
        let mut clauses: Vec<Vec<Lit>> = Vec::new();
        let mut cnf = Cnf::new();
        for _ in 0..n_clauses {
            let cl: Vec<Lit> = (0..3).map(|_| rng.lit(n_vars)).collect();
            cnf.add_clause(clause(&cl));
            clauses.push(cl);
        }
        let mut assumptions = Vec::new();
        for v in 0..n_vars {
            if rng.below(3) == 0 {
                let var = Var::new(u32::try_from(v).expect("index fits"));
                assumptions.push(if rng.coin() {
                    var.pos_lit()
                } else {
                    var.neg_lit()
                });
            }
        }

        let mut solver = Cdcl::from_cnf(&cnf);
        let ours = solver.solve(&assumptions);
        let theirs = BatSatBackend::solve_cnf(&cnf, &assumptions);
        match (&ours, &theirs) {
            (SolveOutcome::Sat(model), SolveOutcome::Sat(_)) => {
                assert!(satisfies(model, &clauses));
                for a in &assumptions {
                    assert_eq!(
                        model.lit_value(*a),
                        Some(true),
                        "assumptions hold in the model"
                    );
                }
            }
            (SolveOutcome::Unsat(core), SolveOutcome::Unsat(_)) => {
                for lit in core {
                    assert!(assumptions.contains(lit), "core literal is an assumption");
                }
            }
            _ => panic!("CDCL and BatSat disagree under assumptions"),
        }
    }
}

#[test]
fn proven_and_hypothetical_split_at_the_last_assumption() {
    let (a, b, c) = (Var::new(0), Var::new(1), Var::new(2));
    let mut cnf = Cnf::new();
    cnf.add_clause(clause(&[a.neg_lit(), b.pos_lit()]));
    cnf.add_clause(clause(&[c.pos_lit(), c.neg_lit()]));
    let cdcl = Cdcl::from_cnf(&cnf);
    let mut search: Search = cdcl.search(&[a.pos_lit()]);

    assert!(matches!(search.step(), Event::Decide { .. }));
    assert_eq!(search.base_level(), 1);
    assert_eq!(search.level_of(a), Some(1));

    assert!(matches!(search.step(), Event::Propagate { .. }));
    assert_eq!(search.level_of(b), Some(1));
    assert!(search.level_of(b).unwrap() <= search.base_level());

    assert!(matches!(search.step(), Event::Decide { .. }));
    assert!(search.level_of(c).unwrap() > search.base_level());
}

#[test]
fn search_probe_matches_bcp_before_branching() {
    let (a, b) = (Var::new(0), Var::new(1));
    let mut cnf = Cnf::new();
    cnf.add_clause(clause(&[a.neg_lit(), b.neg_lit()]));
    let cdcl = Cdcl::from_cnf(&cnf);
    let mut search = cdcl.search(&[a.pos_lit()]);
    assert!(matches!(search.step(), Event::Decide { .. }));
    let prop = Propagator::from_cnf(&cnf);
    assert_eq!(
        search.probe(b.pos_lit()),
        prop.probe(&[a.pos_lit()], b.pos_lit())
    );
    assert!(search.probe(b.pos_lit()), "b is refuted given a");
    assert!(!search.probe(a.pos_lit()));
    assert!(search.probe(a.neg_lit()));
}

#[test]
fn step_stream_is_well_formed() {
    let (cnf, _) = chain();
    let solver = Cdcl::from_cnf(&cnf);
    let mut search: Search = solver.search(&[]);

    let mut propagated = Vec::new();
    let mut steps = 0;
    loop {
        steps += 1;
        assert!(steps < 10_000, "search must terminate");
        match search.step() {
            Event::Propagate { lit, reason } => {
                assert!(!search.clause_lits(reason).is_empty());
                propagated.push(lit);
            }
            Event::Sat => break,
            Event::Unsat { .. } => panic!("the chain is satisfiable"),
            _ => {}
        }
    }
    let model = search.assignment();
    for lit in propagated {
        assert_eq!(model.lit_value(lit), Some(true));
    }
}

#[test]
fn bcp_forces_a_unit_chain() {
    let (cnf, [a, b, c]) = chain();
    let prop = Propagator::from_cnf(&cnf);
    let result = prop.propagate(&[]);
    assert!(!result.conflict);
    assert_eq!(result.assignment.var_value(a), Some(true));
    assert_eq!(result.assignment.var_value(b), Some(true));
    assert_eq!(result.assignment.var_value(c), Some(true));
}

#[test]
fn bcp_detects_direct_conflict() {
    let a = Var::new(0);
    let mut cnf = Cnf::new();
    cnf.add_clause(clause(&[a.pos_lit()]));
    cnf.add_clause(clause(&[a.neg_lit()]));
    let prop = Propagator::from_cnf(&cnf);
    assert!(prop.propagate(&[]).conflict);
}

#[test]
fn probe_proves_a_false_literal() {
    let (a, b) = (Var::new(0), Var::new(1));
    let mut cnf = Cnf::new();
    cnf.add_clause(clause(&[a.neg_lit(), b.neg_lit()]));
    let prop = Propagator::from_cnf(&cnf);
    assert!(prop.probe(&[a.pos_lit()], b.pos_lit()));
    assert!(!prop.probe(&[], a.pos_lit()));
}

#[test]
fn implied_and_probed_agree_with_batsat() {
    let (cnf, _) = chain();
    let prop = Propagator::from_cnf(&cnf);
    let SolveOutcome::Sat(model) = BatSatBackend::solve_cnf(&cnf, &[]) else {
        panic!("chain formula is satisfiable");
    };
    for lit in prop.implied(&[]) {
        assert_eq!(
            model.lit_value(lit),
            Some(true),
            "implied literal must hold"
        );
    }
    for i in 0..prop.n_vars() {
        let var = Var::new(u32::try_from(i).unwrap());
        if prop.probe(&[], var.pos_lit()) {
            assert_eq!(model.var_value(var), Some(false));
        }
        if prop.probe(&[], var.neg_lit()) {
            assert_eq!(model.var_value(var), Some(true));
        }
    }
}

#[test]
fn unique_model_has_a_full_backbone() {
    let (cnf, [a, b, c]) = chain();
    let mut backend = BatSatBackend::new();
    backend.load_rules(&cnf);
    let mut bb = backbone(&mut backend, &[]).expect("satisfiable");
    bb.sort_by_key(|l| l.var().idx());
    assert_eq!(bb, vec![a.pos_lit(), b.pos_lit(), c.pos_lit()]);
}

#[test]
fn free_variables_are_not_in_the_backbone() {
    let (a, b, c) = (Var::new(0), Var::new(1), Var::new(2));
    let mut cnf = Cnf::new();
    cnf.add_clause(clause(&[a.pos_lit()]));
    cnf.add_clause(clause(&[b.pos_lit(), c.pos_lit()]));
    cnf.add_clause(clause(&[b.neg_lit(), c.neg_lit()]));
    let mut backend = BatSatBackend::new();
    backend.load_rules(&cnf);
    let bb = backbone(&mut backend, &[]).expect("satisfiable");
    assert_eq!(bb, vec![a.pos_lit()], "only a is forced; b and c are free");
}

#[test]
fn assumptions_extend_the_backbone() {
    let (a, b, c) = (Var::new(0), Var::new(1), Var::new(2));
    let mut cnf = Cnf::new();
    cnf.add_clause(clause(&[a.pos_lit()]));
    cnf.add_clause(clause(&[b.pos_lit(), c.pos_lit()]));
    cnf.add_clause(clause(&[b.neg_lit(), c.neg_lit()]));
    let mut backend = BatSatBackend::new();
    backend.load_rules(&cnf);
    let mut bb = backbone(&mut backend, &[b.pos_lit()]).expect("satisfiable");
    bb.sort_by_key(|l| l.var().idx());
    assert_eq!(bb, vec![a.pos_lit(), b.pos_lit(), c.neg_lit()]);
}

#[test]
fn unsatisfiable_formula_has_no_backbone() {
    let a = Var::new(0);
    let mut cnf = Cnf::new();
    cnf.add_clause(clause(&[a.pos_lit()]));
    cnf.add_clause(clause(&[a.neg_lit()]));
    let mut backend = BatSatBackend::new();
    backend.load_rules(&cnf);
    assert!(backbone(&mut backend, &[]).is_none());
}

fn models(cnf: &Cnf, n_puzzle_vars: usize) -> Vec<Vec<usize>> {
    let mut found = Vec::new();
    let mut work = cnf.clone();
    loop {
        let mut backend = BatSatBackend::new();
        backend.load_rules(&work);
        match backend.solve(&[]) {
            SolveOutcome::Sat(model) => {
                let mut trues = Vec::new();
                let mut block = Vec::new();
                for i in 0..n_puzzle_vars {
                    let var = Var::new(u32::try_from(i).unwrap());
                    if model.var_value(var) == Some(true) {
                        trues.push(i);
                        block.push(var.neg_lit());
                    } else {
                        block.push(var.pos_lit());
                    }
                }
                found.push(trues);
                work.add_clause(clause(&block));
            }
            SolveOutcome::Unsat(_) => break,
        }
    }
    found.sort();
    found
}

#[test]
fn pairwise_exactly_one_has_n_models() {
    let mut reg: Registry<u32> = Registry::new();
    let lits: Vec<_> = (0..5).map(|i| reg.var(i).pos_lit()).collect();
    let mut cnf = Cnf::new();
    exactly_one_pairwise(&lits, &mut cnf);
    assert_eq!(
        models(&cnf, 5),
        vec![vec![0], vec![1], vec![2], vec![3], vec![4]]
    );
}

#[test]
fn sequential_exactly_one_matches_pairwise() {
    let mut reg: Registry<u32> = Registry::new();
    let lits: Vec<_> = (0..5).map(|i| reg.var(i).pos_lit()).collect();
    let mut cnf = Cnf::new();
    let mut aux = VarManager::starting_at(u32::try_from(reg.len()).unwrap());
    exactly_one_sequential(&lits, &mut aux, &mut cnf);
    assert_eq!(
        models(&cnf, 5),
        vec![vec![0], vec![1], vec![2], vec![3], vec![4]]
    );
}

fn subsets(n: usize, keep: impl Fn(usize) -> bool) -> Vec<Vec<usize>> {
    let mut out = Vec::new();
    for mask in 0u32..(1 << n) {
        let set: Vec<usize> = (0..n).filter(|&i| mask & (1 << i) != 0).collect();
        if keep(set.len()) {
            out.push(set);
        }
    }
    out.sort();
    out
}

fn cardinality_models(n: usize, build: impl Fn(&[Lit], &mut VarManager, &mut Cnf)) -> Vec<Vec<usize>> {
    let mut reg: Registry<u32> = Registry::new();
    let lits: Vec<_> = (0..u32::try_from(n).unwrap())
        .map(|i| reg.var(i).pos_lit())
        .collect();
    let mut cnf = Cnf::new();
    let mut aux = VarManager::starting_at(u32::try_from(reg.len()).unwrap());
    build(&lits, &mut aux, &mut cnf);
    models(&cnf, n)
}

#[test]
fn at_most_k_admits_exactly_the_small_subsets() {
    for n in 0..=5 {
        for k in 0..=n + 1 {
            let got = cardinality_models(n, |lits, aux, cnf| {
                at_most_k_sequential(lits, k, aux, cnf);
            });
            assert_eq!(got, subsets(n, |size| size <= k), "at-most-{k} over {n}");
        }
    }
}

#[test]
fn at_least_k_admits_exactly_the_large_subsets() {
    for n in 0..=5 {
        for k in 0..=n + 1 {
            let got = cardinality_models(n, |lits, aux, cnf| {
                at_least_k_sequential(lits, k, aux, cnf);
            });
            assert_eq!(got, subsets(n, |size| size >= k), "at-least-{k} over {n}");
        }
    }
}

#[test]
fn exactly_k_admits_exactly_the_k_subsets() {
    for n in 0..=5 {
        for k in 0..=n + 1 {
            let got = cardinality_models(n, |lits, aux, cnf| {
                exactly_k_sequential(lits, k, aux, cnf);
            });
            assert_eq!(got, subsets(n, |size| size == k), "exactly-{k} over {n}");
        }
    }
}

#[test]
fn at_most_one_is_the_k_equals_one_case() {
    let got = cardinality_models(4, |lits, aux, cnf| at_most_k_sequential(lits, 1, aux, cnf));
    assert_eq!(got, subsets(4, |size| size <= 1));
}

#[test]
fn at_most_one_encodings_admit_exactly_the_small_subsets() {
    for n in 0..=5 {
        let ladder = cardinality_models(n, |lits, aux, cnf| at_most_one_sequential(lits, aux, cnf));
        assert_eq!(ladder, subsets(n, |size| size <= 1), "ladder over {n}");
        let pairs = cardinality_models(n, |lits, _aux, cnf| at_most_one_pairwise(lits, cnf));
        assert_eq!(pairs, subsets(n, |size| size <= 1), "pairwise over {n}");
    }
}

#[test]
fn small_accessors_report_their_state() {
    let lit = Var::new(3).neg_lit();
    assert!(lit.is_neg() && !lit.is_pos());
    assert!(!lit.negate().is_neg());
    let mut aux = VarManager::starting_at(5);
    assert_eq!(aux.n_used(), 5);
    let v = aux.fresh();
    assert_eq!(v.idx(), 5);
    assert_eq!(aux.n_used(), 6);

    let (cnf, _) = chain();
    let cdcl = Cdcl::from_cnf(&cnf);
    let search = cdcl.search(&[]);
    assert_eq!(search.decision_level(), 0);
    assert!(!search.is_learned(0));
    assert!(search.is_learned(cnf.len()));
}

#[test]
fn decisions_take_the_givens_then_the_lowest_free_variable() {
    let (a, b, c) = (Var::new(0), Var::new(1), Var::new(2));
    let mut cnf = Cnf::new();
    cnf.add_clause(clause(&[a.pos_lit(), b.pos_lit(), c.pos_lit()]));
    cnf.add_clause(clause(&[a.neg_lit(), b.neg_lit()]));
    let cdcl = Cdcl::from_cnf(&cnf);
    let mut search = cdcl.search(&[c.neg_lit()]);
    let mut decisions = Vec::new();
    let mut guard = 0;
    while !search.is_done() {
        if let Event::Decide { lit } = search.step() {
            decisions.push(lit);
        }
        guard += 1;
        assert!(guard < 1000);
    }
    assert_eq!(decisions, vec![c.neg_lit(), a.pos_lit()]);
}

#[test]
fn fixed_lists_the_level_zero_facts_in_trail_order() {
    let mut reg: Registry<u32> = Registry::new();
    let (a, b, c) = (reg.var(0), reg.var(1), reg.var(2));
    let d = reg.var(3);
    let mut cnf = Cnf::new();
    cnf.add_clause(clause(&[a.pos_lit()]));
    cnf.add_clause(clause(&[a.neg_lit(), b.pos_lit()]));
    cnf.add_clause(clause(&[b.neg_lit(), c.neg_lit()]));
    cnf.add_clause(clause(&[c.pos_lit(), d.pos_lit()]));
    let cdcl = Cdcl::from_cnf(&cnf);
    let mut search = cdcl.search(&[]);
    while !search.is_done() {
        search.step();
    }
    let view = SolverView::from_search(&reg, &search);
    assert_eq!(view.fixed(), vec![(0, true), (1, true), (2, false), (3, true)]);
    assert_eq!(view.trail(), vec![(0, true), (1, true), (2, false), (3, true)]);
}

#[test]
fn unsat_cores_refute_on_their_own() {
    let mut rng = Rng(0xC0DE);
    let mut checked = 0;
    for _ in 0..400 {
        let n_vars = 4 + rng.below(5);
        let mut cnf = Cnf::new();
        for _ in 0..(2 + rng.below(10)) {
            let cl: Vec<Lit> = (0..3).map(|_| rng.lit(n_vars)).collect();
            cnf.add_clause(clause(&cl));
        }
        let mut assumptions: Vec<Lit> = Vec::new();
        for v in 0..n_vars {
            if rng.coin() {
                let var = Var::new(u32::try_from(v).unwrap());
                assumptions.push(if rng.coin() { var.pos_lit() } else { var.neg_lit() });
            }
        }
        for (name, outcome) in [
            ("cdcl", Cdcl::from_cnf(&cnf).solve(&assumptions)),
            ("batsat", BatSatBackend::solve_cnf(&cnf, &assumptions)),
        ] {
            if let SolveOutcome::Unsat(core) = outcome {
                assert!(core.iter().all(|l| assumptions.contains(l)), "{name}: the core is drawn from the givens");
                assert!(
                    matches!(BatSatBackend::solve_cnf(&cnf, &core), SolveOutcome::Unsat(_)),
                    "{name}: the rules with the core alone are unsatisfiable"
                );
                checked += 1;
            }
        }
    }
    assert!(checked > 0);
}

#[test]
fn a_given_and_its_negation_make_a_core() {
    let x = Var::new(0);
    let y = Var::new(1);
    let mut cnf = Cnf::new();
    cnf.add_clause(clause(&[x.pos_lit(), y.pos_lit()]));
    let SolveOutcome::Unsat(core) = Cdcl::from_cnf(&cnf).solve(&[x.neg_lit(), x.pos_lit()]) else {
        panic!("x and ¬x cannot both hold");
    };
    assert!(!core.is_empty());
    assert!(core.iter().all(|l| *l == x.neg_lit() || *l == x.pos_lit()));
}

#[test]
fn a_finished_search_repeats_its_verdict() {
    let a = Var::new(0);
    let mut cnf = Cnf::new();
    cnf.add_clause(clause(&[a.neg_lit()]));
    let cdcl = Cdcl::from_cnf(&cnf);
    let mut search = cdcl.search(&[a.pos_lit()]);
    let mut steps = 0;
    let core = loop {
        steps += 1;
        assert!(steps < 1_000, "search must terminate");
        match search.step() {
            Event::Unsat { core } => break core,
            Event::Sat => panic!("a given against a unit rule is unsatisfiable"),
            _ => {}
        }
    };
    assert_eq!(core, vec![a.pos_lit()]);
    for _ in 0..3 {
        match search.step() {
            Event::Unsat { core: again } => assert_eq!(again, core),
            _ => panic!("a finished search re-emits its verdict"),
        }
        assert!(search.is_done());
    }
}

#[test]
fn levels_stay_within_the_decision_level() {
    let (cnf, vars) = chain();
    let cdcl = Cdcl::from_cnf(&cnf);
    let mut search = cdcl.search(&[]);
    assert_eq!(search.base_level(), 0);
    assert_eq!(search.decision_level(), 0);
    let mut steps = 0;
    while !search.is_done() {
        steps += 1;
        assert!(steps < 10_000, "search must terminate");
        let before = search.decision_level();
        let ev = search.step();
        match ev {
            Event::Decide { lit } => {
                assert_eq!(search.decision_level(), before + 1);
                assert_eq!(search.level_of(lit.var()), Some(before + 1));
            }
            Event::Backtrack { to_level } => assert_eq!(search.decision_level(), to_level),
            Event::Propagate { .. } => assert_eq!(search.decision_level(), before),
            _ => assert_eq!(search.decision_level(), before),
        }
        for v in vars {
            if let Some(l) = search.level_of(v) {
                assert!(l <= search.decision_level());
            }
        }
    }
    for v in vars {
        assert!(search.value_of(v).is_some(), "a solution assigns every variable");
    }
}

#[test]
fn fresh_counts_up_from_the_start() {
    let mut m = VarManager::starting_at(7);
    for k in 0..5u32 {
        assert_eq!(m.fresh(), Var::new(7 + k));
        assert_eq!(m.n_used(), 7 + k + 1);
    }
}

#[test]
fn probe_mid_search_follows_only_what_the_literal_touches() {
    let (a, b, c, d, e) = (Var::new(0), Var::new(1), Var::new(2), Var::new(3), Var::new(4));
    let mut cnf = Cnf::new();
    cnf.add_clause(clause(&[a.neg_lit(), b.neg_lit()]));
    cnf.add_clause(clause(&[a.neg_lit(), c.pos_lit()]));
    cnf.add_clause(clause(&[d.pos_lit(), e.pos_lit()]));
    let cdcl = Cdcl::from_cnf(&cnf);
    let mut search = cdcl.search(&[a.pos_lit()]);
    assert!(matches!(search.step(), Event::Decide { .. }));
    // Propagation from `a` is still pending: nothing else is set yet.
    assert_eq!(search.value_of(b), None);
    assert_eq!(search.value_of(c), None);
    assert!(search.probe(b.pos_lit()), "b clashes with a through the first rule");
    assert!(search.probe(c.neg_lit()), "not-c clashes with a through the second rule");
    assert!(!search.probe(d.pos_lit()), "d touches only the third rule, which stays open");
    assert!(!search.probe(d.neg_lit()), "not-d forces e and meets no conflict");
    assert!(search.probe(a.neg_lit()), "an assigned literal is refuted exactly when false");
}

#[test]
fn backbone_covers_a_variable_only_an_assumption_names() {
    let (a, d) = (Var::new(0), Var::new(3));
    let mut cnf = Cnf::new();
    cnf.add_clause(clause(&[a.pos_lit()]));
    let mut cdcl = Cdcl::from_cnf(&cnf);
    let mut bb = backbone(&mut cdcl, &[d.neg_lit()]).expect("satisfiable");
    bb.sort_by_key(|l| l.var().idx());
    assert_eq!(bb, vec![a.pos_lit(), d.neg_lit()]);
}
