//! The interface both solver backends share.
//!
//! Rules are installed once as a fixed CNF; each solve runs under a set of
//! *assumption* literals (the givens), and yields either a model or an UNSAT core
//! over those assumptions.

use vstd::prelude::*;

use crate::cnf::{all_hold, clause_holds, clauses_below, cnf_holds, lit_holds, satisfiable_under, Cnf, Lit, Var, MAX_VAR_IDX};

verus! {

/// The value a literal takes under a partial assignment: `None` when its variable
/// is unassigned or outside the assignment.
pub open spec fn pvalue(vals: Seq<Option<bool>>, lit: Lit) -> Option<bool> {
    if 0 <= lit.var.index() < vals.len() {
        match vals[lit.var.index()] {
            Some(b) => Some(b == lit.positive),
            None => None,
        }
    } else {
        None
    }
}

/// Some literal of `c` is definitely true under the partial assignment `vals`.
pub open spec fn clause_true_in(vals: Seq<Option<bool>>, c: Seq<Lit>) -> bool {
    exists|i: int| 0 <= i < c.len() && #[trigger] pvalue(vals, c[i]) == Some(true)
}

/// Every clause of `cs` has a definitely true literal under `vals`.
pub open spec fn model_satisfies(vals: Seq<Option<bool>>, cs: Seq<Seq<Lit>>) -> bool {
    forall|j: int| 0 <= j < cs.len() ==> clause_true_in(vals, #[trigger] cs[j])
}

/// A (possibly partial) truth assignment, indexed by variable.
#[derive(Debug, Clone, Default)]
pub struct Assignment {
    values: Vec<Option<bool>>,
}

impl View for Assignment {
    type V = Seq<Option<bool>>;

    closed spec fn view(&self) -> Seq<Option<bool>> {
        self.values@
    }
}

impl Assignment {
    /// The value of variable `var`: `None` if unassigned or out of range.
    pub open spec fn value_spec(&self, var: Var) -> Option<bool> {
        if 0 <= var.index() < self@.len() {
            self@[var.index()]
        } else {
            None
        }
    }

    /// An empty assignment.
    pub fn new() -> (a: Assignment)
        ensures
            a@ == Seq::<Option<bool>>::empty(),
    {
        let a = Assignment { values: Vec::new() };
        a
    }

    /// An assignment with `n` unassigned variable slots.
    pub fn with_capacity(n: usize) -> (a: Assignment)
        ensures
            a@ == Seq::new(n as nat, |i: int| None::<bool>),
    {
        let mut values: Vec<Option<bool>> = Vec::new();
        let mut i: usize = 0;
        while i < n
            invariant
                i <= n,
                values@ == Seq::new(i as nat, |k: int| None::<bool>),
            decreases n - i,
        {
            values.push(None);
            i = i + 1;
            assert(values@ =~= Seq::new(i as nat, |k: int| None::<bool>));
        }
        Assignment { values }
    }

    /// An assignment from a per-variable value vector (index = variable index).
    pub fn from_values(values: Vec<Option<bool>>) -> (a: Assignment)
        ensures
            a@ == values@,
    {
        Assignment { values }
    }

    /// Record that `var` takes `value`, growing the slots as needed.
    pub fn set(&mut self, var: Var, value: bool)
        ensures
            final(self)@.len() == if var.index() < old(self)@.len() {
                old(self)@.len() as int
            } else {
                var.index() + 1
            },
            final(self)@[var.index()] == Some(value),
            forall|i: int|
                0 <= i < final(self)@.len() && i != var.index() ==> #[trigger] final(self)@[i] == if i
                    < old(self)@.len() {
                    old(self)@[i]
                } else {
                    None
                },
    {
        let i = var.idx();
        let ghost old_vals = self.values@;
        while self.values.len() <= i
            invariant
                i <= crate::cnf::MAX_VAR_IDX,
                old_vals.len() <= self.values@.len() <= if old_vals.len() > i {
                    old_vals.len() as int
                } else {
                    i + 1
                },
                forall|k: int|
                    0 <= k < self.values@.len() ==> #[trigger] self.values@[k] == if k < old_vals.len() {
                        old_vals[k]
                    } else {
                        None
                    },
            decreases i + 1 - self.values@.len(),
        {
            self.values.push(None);
        }
        self.values.set(i, Some(value));
    }

    /// The truth value assigned to `var`, or `None` if unassigned.
    pub fn var_value(&self, var: Var) -> (v: Option<bool>)
        ensures
            v == self.value_spec(var),
    {
        let i = var.idx();
        if i < self.values.len() {
            self.values[i]
        } else {
            None
        }
    }

    /// The truth value of `lit`: its variable's value, flipped for a negative
    /// literal, or `None` if unassigned.
    pub fn lit_value(&self, lit: Lit) -> (v: Option<bool>)
        ensures
            v == pvalue(self@, lit),
    {
        match self.var_value(lit.var()) {
            Some(base) => Some(if lit.is_pos() {
                base
            } else {
                !base
            }),
            None => None,
        }
    }

    /// The number of variable slots (assigned or not).
    pub fn len(&self) -> (n: usize)
        ensures
            n == self@.len(),
    {
        self.values.len()
    }

    /// Whether there are no variable slots.
    pub fn is_empty(&self) -> (b: bool)
        ensures
            b == (self@.len() == 0),
    {
        self.values.len() == 0
    }
}

/// The result of running a solver to completion.
#[derive(Debug, Clone)]
pub enum SolveOutcome {
    /// Satisfiable, with a model over the problem's variables.
    Sat(Assignment),
    /// Unsatisfiable under the assumptions, with a core drawn from the
    /// assumption literals that contradicts the rules by itself.
    Unsat(Vec<Lit>),
}

/// What an UNSAT core shows: together with the rules it is unsatisfiable on
/// its own, or it holds a literal whose negation is also given (the givens
/// contradict each other outright).
pub open spec fn core_refutes(rules: Seq<Seq<Lit>>, given: Seq<Lit>, core: Seq<Lit>) -> bool {
    ||| !satisfiable_under(rules, core)
    ||| exists|i: int| 0 <= i < core.len() && given.contains((#[trigger] core[i]).neg())
}

/// What a solve outcome promises about `rules` under `assumptions`.
///
/// SAT means some total assignment satisfies the rules together with all
/// assumptions; the model covers every variable of the rules, satisfies every
/// rule and makes every assumption it covers true. UNSAT means no total
/// assignment satisfies the rules together with all assumptions, and the core
/// is drawn from the assumptions and refutes them ([`core_refutes`]).
pub open spec fn outcome_sound(rules: Seq<Seq<Lit>>, assumptions: Seq<Lit>, out: SolveOutcome) -> bool {
    match out {
        SolveOutcome::Sat(model) => {
            &&& satisfiable_under(rules, assumptions)
            &&& clauses_below(rules, model@.len() as int)
            &&& model@.len() <= MAX_VAR_IDX + 1
            &&& model_satisfies(model@, rules)
            &&& forall|i: int|
                0 <= i < assumptions.len() && #[trigger] assumptions[i].var.index() < model@.len()
                    ==> pvalue(model@, assumptions[i]) == Some(true)
        },
        SolveOutcome::Unsat(core) => {
            &&& forall|i: int| 0 <= i < core@.len() ==> assumptions.contains(#[trigger] core@[i])
            &&& !satisfiable_under(rules, assumptions)
            &&& core_refutes(rules, assumptions, core@)
        },
    }
}

/// One past the largest variable index of `lits`, or 0 when there is none.
pub open spec fn lits_span(lits: Seq<Lit>) -> nat
    decreases lits.len(),
{
    if lits.len() == 0 {
        0
    } else {
        let rest = lits_span(lits.drop_last());
        let top = (lits.last().var.index() + 1) as nat;
        if top > rest {
            top
        } else {
            rest
        }
    }
}

/// A SAT solver over a fixed rule CNF plus per-solve assumption literals.
pub trait Solver {
    /// The rule clauses currently installed.
    spec fn rules(&self) -> Seq<Seq<Lit>>;

    /// The rules after installing `cnf` on top of `before`.
    spec fn loaded(before: Seq<Seq<Lit>>, cnf: Seq<Seq<Lit>>) -> Seq<Seq<Lit>>;

    /// The solver's internal consistency.
    spec fn inv(&self) -> bool;

    /// The number of variables a model found under `assumptions` spans.
    spec fn width(&self, assumptions: Seq<Lit>) -> nat;

    /// Assuming a literal over a variable the models already span does not
    /// widen them.
    proof fn lemma_width_keeps(&self, assumptions: Seq<Lit>, l: Lit)
        requires
            self.inv(),
            l.var.index() < self.width(assumptions),
        ensures
            self.width(assumptions.push(l)) == self.width(assumptions),
    ;

    /// Install the fixed rules.
    fn load_rules(&mut self, cnf: &Cnf)
        requires
            old(self).inv(),
        ensures
            final(self).inv(),
            final(self).rules() == Self::loaded(old(self).rules(), cnf@),
    ;

    /// Solve to completion under `assumptions`, returning a model or a core.
    fn solve(&mut self, assumptions: &[Lit]) -> (out: SolveOutcome)
        requires
            old(self).inv(),
        ensures
            final(self).inv(),
            final(self).rules() == old(self).rules(),
            forall|a: Seq<Lit>| #[trigger] final(self).width(a) == old(self).width(a),
            outcome_sound(old(self).rules(), assumptions@, out),
            out matches SolveOutcome::Sat(m) ==> m@.len() == old(self).width(assumptions@),
    ;
}

/// A model that satisfies `cs` under every completion of its unassigned
/// variables satisfies `cs` as a total assignment agreeing with it.
pub proof fn lemma_model_extends(vals: Seq<Option<bool>>, cs: Seq<Seq<Lit>>, tau: spec_fn(int) -> bool)
    requires
        model_satisfies(vals, cs),
        forall|k: int| 0 <= k < vals.len() && (#[trigger] vals[k]) is Some ==> tau(k) == vals[k]->0,
    ensures
        cnf_holds(tau, cs),
{
    assert forall|j: int| 0 <= j < cs.len() implies clause_holds(tau, #[trigger] cs[j]) by {
        let c = cs[j];
        assert(clause_true_in(vals, c));
        let i = choose|i: int| 0 <= i < c.len() && #[trigger] pvalue(vals, c[i]) == Some(true);
        assert(crate::cnf::lit_holds(tau, c[i]));
    }
}

/// A partial assignment that satisfies `cs` and makes every literal of `lits`
/// true extends to a total one: `cs` is satisfiable together with `lits`.
pub proof fn lemma_model_satisfiable(vals: Seq<Option<bool>>, cs: Seq<Seq<Lit>>, lits: Seq<Lit>)
    requires
        model_satisfies(vals, cs),
        forall|i: int| 0 <= i < lits.len() ==> pvalue(vals, #[trigger] lits[i]) == Some(true),
    ensures
        satisfiable_under(cs, lits),
{
    let tau = |k: int| if 0 <= k < vals.len() && vals[k] is Some { vals[k]->0 } else { false };
    lemma_model_extends(vals, cs, tau);
    assert(all_hold(tau, lits)) by {
        assert forall|i: int| 0 <= i < lits.len() implies lit_holds(tau, #[trigger] lits[i]) by {
            assert(pvalue(vals, lits[i]) == Some(true));
        }
    }
}

} // verus!
