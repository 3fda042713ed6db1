//! The fast backend: BatSat through rustsat.
//!
//! BatSat is a pure-Rust CDCL solver. It solves to completion and serves as the
//! "run to solution" engine and as the oracle the stepping [`crate::cdcl`]
//! solver is checked against. This adapter copies the rule clauses in once, then
//! answers [`Solver::solve`] queries under assumption literals, translating
//! BatSat's model and core back into [`Assignment`] and assumption literals.

use vstd::prelude::*;
use rustsat::solvers::{Solve, SolveIncremental, SolverResult};
use rustsat::types::TernaryVal;
use rustsat_batsat::BasicSolver;

use crate::cnf::{
    all_hold, clause_holds, clauses_below, cnf_holds, entails, lemma_index_injective, lemma_index_nonneg, lemma_var_at,
    lemma_var_at_index, lit_holds, lits_below, satisfiable_under, var_at, var_count, Cnf, Lit, Var, MAX_VAR_IDX,
};
use crate::solver::{clause_true_in, model_satisfies, outcome_sound, pvalue, SolveOutcome, Solver};

verus! {

broadcast use lemma_var_at, lemma_var_at_index, lemma_index_injective, lemma_index_nonneg;

/// BatSat's basic solver behind its rustsat adapter, held opaquely: what the
/// library knows of it is what the names and wrappers below state.
#[verifier::external_body]
struct BatSatCore {
    solver: BasicSolver,
}

/// The clauses added to a BatSat solver, in order.
pub uninterp spec fn batsat_clauses(s: BatSatCore) -> Seq<Seq<Lit>>;

/// The answer of the solver's last solve together with its assumptions, or
/// `None` when nothing was solved since the last clause was added.
pub uninterp spec fn batsat_last(s: BatSatCore) -> Option<(bool, Seq<Lit>)>;

/// The assumptions of the solver's last solve (empty when there is none).
pub open spec fn last_assumptions(s: BatSatCore) -> Seq<Lit> {
    match batsat_last(s) {
        Some((_, a)) => a,
        None => Seq::empty(),
    }
}

/// `BasicSolver::default`: a solver holding no clause.
#[verifier::external_body]
fn batsat_new() -> (s: BatSatCore)
    ensures
        batsat_clauses(s) == Seq::<Seq<Lit>>::empty(),
        batsat_last(s) is None,
{
    BatSatCore { solver: BasicSolver::default() }
}

/// `Solve::add_clause`: appends the clause. BatSat accepts every clause (the
/// adapter returns `Ok`), and adding a clause returns the solver to its input
/// state.
#[verifier::external_body]
fn batsat_add_clause(s: &mut BatSatCore, lits: &[Lit])
    ensures
        batsat_clauses(*final(s)) == batsat_clauses(*old(s)).push(lits@),
        batsat_last(*final(s)) is None,
{
    let clause: rustsat::types::Clause = lits.iter().map(|l| rustsat::types::Var::new(l.var.idx).lit(!l.positive)).collect();
    let _ = s.solver.add_clause(clause);
}

/// `SolveIncremental::solve_assumps`: whether the added clauses are
/// satisfiable together with the assumptions. BatSat answers SAT exactly when
/// they are; with no budget set and callbacks that never stop, it is never
/// interrupted, and the adapter returns no error.
#[verifier::external_body]
fn batsat_solve(s: &mut BatSatCore, assumps: &[Lit]) -> (sat: bool)
    ensures
        batsat_clauses(*final(s)) == batsat_clauses(*old(s)),
        batsat_last(*final(s)) == Some((sat, assumps@)),
        sat == satisfiable_under(batsat_clauses(*old(s)), assumps@),
{
    let lits: Vec<rustsat::types::Lit> = assumps.iter().map(|l| rustsat::types::Var::new(l.var.idx).lit(!l.positive)).collect();
    matches!(s.solver.solve_assumps(&lits), Ok(SolverResult::Sat))
}

/// `Solve::full_solution` after a SAT answer, read back variable by variable:
/// a value for every variable the solver knows (`None` for don't-care), making
/// some literal of every added clause true and every assumption of the last
/// solve true.
#[verifier::external_body]
fn batsat_model(s: &BatSatCore) -> (m: Vec<Option<bool>>)
    requires
        batsat_last(*s) matches Some((true, _)),
    ensures
        forall|j: int| 0 <= j < batsat_clauses(*s).len() ==> clause_true_in(m@, #[trigger] batsat_clauses(*s)[j]),
        forall|i: int| 0 <= i < last_assumptions(*s).len() ==> pvalue(m@, #[trigger] last_assumptions(*s)[i]) == Some(true),
{
    let a = s.solver.full_solution().unwrap();
    (0..a.len()).map(|i| match a.var_value(rustsat::types::Var::new(i as u32)) {
        TernaryVal::True => Some(true),
        TernaryVal::False => Some(false),
        TernaryVal::DontCare => None,
    }).collect()
}

/// `SolveIncremental::core` after an UNSAT answer: a clause entailed by the
/// added clauses whose literals are negations of assumptions of the last solve.
/// It leaves the solver as it was.
#[verifier::external_body]
fn batsat_core(s: &mut BatSatCore) -> (core: Vec<Lit>)
    requires
        batsat_last(*old(s)) matches Some((false, _)),
    ensures
        batsat_clauses(*final(s)) == batsat_clauses(*old(s)),
        batsat_last(*final(s)) == batsat_last(*old(s)),
        forall|i: int| 0 <= i < core@.len() ==> last_assumptions(*old(s)).contains((#[trigger] core@[i]).neg()),
        entails(batsat_clauses(*old(s)), core@),
{
    s.solver.core().unwrap().iter().map(|l| Lit { var: Var::new(l.vidx32()), positive: l.is_pos() }).collect()
}

/// A [`Solver`] backed by BatSat.
pub struct BatSatBackend {
    inner: BatSatCore,
    /// One past the largest variable index of every rule handed over so far;
    /// bounds the model read back. Rules loaded earlier stay in BatSat, so the
    /// width never shrinks below their variables: a model read back always
    /// covers every clause it must satisfy.
    n_vars: usize,
}

/// The variable with index `i`.
fn var_of(i: usize) -> (v: Var)
    requires
        i <= MAX_VAR_IDX,
    ensures
        v.index() == i,
{
    Var::new(i as u32)
}

impl BatSatBackend {
    /// The clauses handed to BatSat.
    pub closed spec fn clauses(&self) -> Seq<Seq<Lit>> {
        batsat_clauses(self.inner)
    }

    /// The model width covers every clause's variables.
    pub closed spec fn wf(&self) -> bool {
        &&& self.n_vars <= MAX_VAR_IDX + 1
        &&& clauses_below(batsat_clauses(self.inner), self.n_vars as int)
    }

    /// A backend with no rules loaded.
    pub fn new() -> (b: BatSatBackend)
        ensures
            b.wf(),
            b.inv(),
            b.clauses() == Seq::<Seq<Lit>>::empty(),
            b.rules() == Seq::<Seq<Lit>>::empty(),
    {
        BatSatBackend { inner: batsat_new(), n_vars: 0 }
    }

    /// Load `cnf` into a fresh backend and solve once under `assumptions`.
    pub fn solve_cnf(cnf: &Cnf, assumptions: &[Lit]) -> (out: SolveOutcome)
        ensures
            outcome_sound(cnf@, assumptions@, out),
    {
        let mut backend = BatSatBackend::new();
        backend.load_rules(cnf);
        assert(backend.clauses() =~= cnf@);
        backend.solve(assumptions)
    }
}

impl Default for BatSatBackend {
    fn default() -> (b: BatSatBackend)
        ensures
            b.wf(),
            b.clauses() == Seq::<Seq<Lit>>::empty(),
    {
        BatSatBackend::new()
    }
}

impl Solver for BatSatBackend {
    closed spec fn rules(&self) -> Seq<Seq<Lit>> {
        self.clauses()
    }

    /// Loading appends to the clauses already handed over.
    open spec fn loaded(before: Seq<Seq<Lit>>, cnf: Seq<Seq<Lit>>) -> Seq<Seq<Lit>> {
        before + cnf
    }

    closed spec fn inv(&self) -> bool {
        self.wf()
    }

    /// A model read back spans the variables of every rule handed over.
    closed spec fn width(&self, assumptions: Seq<Lit>) -> nat {
        self.n_vars as nat
    }

    proof fn lemma_width_keeps(&self, assumptions: Seq<Lit>, l: Lit) {
    }

    /// Hands every clause of `cnf` to BatSat, after those loaded before, and
    /// widens the model read back to cover the new clauses' variables.
    fn load_rules(&mut self, cnf: &Cnf) {
        let n = var_count(cnf);
        if n > self.n_vars {
            self.n_vars = n;
        }
        let ghost before = batsat_clauses(self.inner);
        let mut i: usize = 0;
        while i < cnf.clauses.len()
            invariant
                i <= cnf@.len(),
                self.n_vars <= MAX_VAR_IDX + 1,
                self.n_vars >= n,
                clauses_below(cnf@, n as int),
                clauses_below(before, self.n_vars as int),
                batsat_clauses(self.inner) == before + cnf@.subrange(0, i as int),
            decreases cnf@.len() - i,
        {
            batsat_add_clause(&mut self.inner, cnf.clauses[i].lits.as_slice());
            i = i + 1;
            assert(batsat_clauses(self.inner) =~= before + cnf@.subrange(0, i as int));
        }
        assert(cnf@.subrange(0, i as int) =~= cnf@);
        assert forall|j: int| 0 <= j < batsat_clauses(self.inner).len() implies lits_below(#[trigger] batsat_clauses(self.inner)[j], self.n_vars as int) by {
            if j < before.len() {
                assert(batsat_clauses(self.inner)[j] == before[j]);
            } else {
                assert(batsat_clauses(self.inner)[j] == cnf@[j - before.len()]);
                assert(lits_below(cnf@[j - before.len()], n as int));
            }
        }
    }

    fn solve(&mut self, assumptions: &[Lit]) -> (out: SolveOutcome) {
        let ghost rules = batsat_clauses(self.inner);
        let sat = batsat_solve(&mut self.inner, assumptions);
        if sat {
            let sv_exec = batsat_model(&self.inner);
            let ghost sv = sv_exec@;
            let mut model = crate::solver::Assignment::with_capacity(self.n_vars);
            let mut i: usize = 0;
            while i < self.n_vars
                invariant
                    self.n_vars <= MAX_VAR_IDX + 1,
                    i <= self.n_vars,
                    sv == sv_exec@,
                    model@.len() == self.n_vars,
                    forall|j: int|
                        0 <= j < i ==> #[trigger] model@[j] == if j < sv.len() {
                            sv[j]
                        } else {
                            None
                        },
                    forall|j: int| i <= j < self.n_vars ==> (#[trigger] model@[j]) is None,
                decreases self.n_vars - i,
            {
                if i < sv_exec.len() {
                    match sv_exec[i] {
                        Some(b) => {
                            model.set(var_of(i), b);
                        },
                        None => {},
                    }
                }
                i = i + 1;
            }
            proof {
                assert forall|j: int| 0 <= j < rules.len() implies clause_true_in(model@, #[trigger] rules[j]) by {
                    let c = rules[j];
                    assert(clause_true_in(sv, c));
                    let k = choose|k: int| 0 <= k < c.len() && #[trigger] pvalue(sv, c[k]) == Some(true);
                    assert(lits_below(c, self.n_vars as int));
                    assert(pvalue(model@, c[k]) == Some(true));
                }
                assert forall|k: int|
                    0 <= k < assumptions@.len() && #[trigger] assumptions@[k].var.index() < model@.len() implies pvalue(
                        model@,
                        assumptions@[k],
                    ) == Some(true) by {
                    assert(pvalue(sv, assumptions@[k]) == Some(true));
                }
            }
            SolveOutcome::Sat(model)
        } else {
            let core = batsat_core(&mut self.inner);
            let mut given: Vec<Lit> = Vec::new();
            let mut i: usize = 0;
            while i < core.len()
                invariant
                    i <= core@.len(),
                    given@.len() == i,
                    forall|k: int| 0 <= k < i ==> #[trigger] given@[k] == core@[k].neg(),
                decreases core@.len() - i,
            {
                given.push(core[i].negate());
                i = i + 1;
            }
            proof {
                assert forall|k: int| 0 <= k < given@.len() implies assumptions@.contains(#[trigger] given@[k]) by {
                    assert(given@[k] == core@[k].neg());
                }
                if satisfiable_under(rules, given@) {
                    let tau = choose|tau: spec_fn(int) -> bool| cnf_holds(tau, rules) && all_hold(tau, given@);
                    assert(clause_holds(tau, core@));
                    let k = choose|k: int| 0 <= k < core@.len() && lit_holds(tau, #[trigger] core@[k]);
                    assert(lit_holds(tau, given@[k]));
                    assert(given@[k] == core@[k].neg());
                }
            }
            SolveOutcome::Unsat(given)
        }
    }
}

} // verus!
