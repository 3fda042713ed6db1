//! The observable backend: a small conflict-driven clause-learning solver whose
//! distinguishing feature is a non-blocking [`Search::step`].
//!
//! Each call to `step` advances the search by exactly one [`Event`] and returns,
//! so a front end can watch the solver decide, propagate, conflict, learn and
//! backtrack one move at a time. [`Search::run`] pumps it to completion, which
//! lets [`Cdcl`] double as an ordinary [`Solver`].
//!
//! - [`Cdcl`] holds the fixed rule clauses and mints a fresh [`Search`] per set
//!   of assumptions.
//! - [`Search`] is the steppable state machine: the clause database (rules, then
//!   learned clauses), the assignment with its levels and reasons, the trail and
//!   the worklist of clauses to re-examine.
//!
//! Conflict analysis is first-UIP learning. The givens arrive as assumptions,
//! placed as the first decisions, so an UNSAT answer comes with a core drawn
//! from them.
//!
//! What is proved: every learned clause follows from the rules; every value on
//! the trail follows from the rules and the decisions below it; a SAT answer is a
//! model of the rules that makes every assumption true; an UNSAT answer means no
//! total assignment satisfies the rules together with the assumptions, and its
//! core is drawn from the assumptions; and [`Search::run`] terminates.

use vstd::prelude::*;
use vstd::arithmetic::power::{
    lemma_pow_adds, lemma_pow_increases, lemma_pow_positive, lemma_pow1, pow,
};

use crate::cnf::{
    all_hold, clause, clause_holds, clauses_below, cnf_holds, entails, forced, lemma_index_injective,
    lemma_index_nonneg, lemma_var_at, lemma_var_at_index, lit_holds, lits_below, satisfiable_under,
    var_at, var_count, Clause, Cnf, Lit, Var, MAX_VAR_IDX,
};
use crate::propagate::{
    bcp_consistent, bcp_fixpoint, below_every_fixpoint, has_var, occ_exact, settles, settle_ok, touches_new, count_none, examine, extends, holds_all, idle,
    is_fixpoint, lists_view, occ_ok, values_forced, lemma_count_all_false, lemma_count_frame, lemma_count_has,
    lemma_count_none_all, lemma_count_none_pos, lemma_count_none_update, lemma_one_unassigned,
    lemma_zero_unassigned, status_ok, unassigned_count, value_lit, ClauseStatus,
};
use crate::solver::{
    clause_true_in, core_refutes, lemma_model_satisfiable, lits_span, model_satisfies, outcome_sound, pvalue, Assignment, SolveOutcome,
    Solver,
};

verus! {

broadcast use lemma_var_at, lemma_var_at_index, lemma_index_injective, lemma_index_nonneg;

/// Index of a clause in a [`Search`]'s clause database: rules first, then learned
/// clauses in the order they were found.
pub type ClauseRef = usize;

/// One observable move of the solver.
#[derive(Debug, Clone)]
pub enum Event {
    /// A branching choice: `lit` was assumed to open a new decision level. Givens
    /// (assumptions) surface as the first decisions.
    Decide { lit: Lit },
    /// Unit propagation forced `lit`; `reason` is the clause that became unit.
    Propagate { lit: Lit, reason: ClauseRef },
    /// Every literal of `clause` is false under the current assignment.
    Conflict { clause: ClauseRef },
    /// The search unwound to `to_level`, undoing every later assignment.
    Backtrack { to_level: u32 },
    /// A new clause was derived from a conflict (first UIP) and added.
    Learn { clause: Clause },
    /// Satisfiable: every variable is assigned. Terminal and sticky.
    Sat,
    /// Unsatisfiable under the assumptions; `core` is drawn from them and
    /// contradicts the rules by itself. Terminal and sticky.
    Unsat { core: Vec<Lit> },
}

/// A CDCL solver over a fixed rule CNF.
///
/// Load the rules once, then spawn a [`Search`] per set of assumptions.
#[derive(Debug, Clone)]
pub struct Cdcl {
    /// Rule clauses as literal lists.
    rules: Vec<Vec<Lit>>,
    /// Number of variables the rules span.
    n_vars: usize,
}

/// Where the state machine is between [`Search::step`] calls.
enum Stage {
    /// Draining the worklist; on a fixpoint, decide or declare SAT.
    Propagate,
    /// A conflict clause was just reported; the next step analyzes it.
    Analyze(ClauseRef),
    /// A clause was learned; the next step unwinds to `to_level`.
    Backtrack { learned: ClauseRef, to_level: u32 },
    /// Terminal outcome; every further step re-emits it.
    Done(Final),
}

/// A terminal search result.
enum Final {
    Sat,
    Unsat(Vec<Lit>),
}

/// A steppable CDCL search over a fixed clause set under fixed assumptions.
pub struct Search {
    /// Rule clauses followed by learned clauses.
    clauses: Vec<Vec<Lit>>,
    /// Number of leading clauses that are rules.
    n_rules: usize,
    /// `occ[var]` lists the clauses mentioning that variable.
    occ: Vec<Vec<ClauseRef>>,
    /// Number of variables (rules plus assumptions).
    n_vars: usize,
    /// Current value per variable.
    value: Vec<Option<bool>>,
    /// Decision level at which each variable was assigned (0 if unassigned).
    level: Vec<u32>,
    /// Reason clause per assigned variable (`None` for a decision).
    reason: Vec<Option<ClauseRef>>,
    /// Whether a variable was assigned as an assumption decision.
    is_assumption: Vec<bool>,
    /// Assignment stack in chronological order.
    trail: Vec<Lit>,
    /// `trail_lim[k]` is the trail position of the decision opening level `k + 1`.
    trail_lim: Vec<usize>,
    /// Clauses still to examine for units or conflicts.
    dirty: Vec<ClauseRef>,
    /// The givens, placed as the first decisions.
    assumptions: Vec<Lit>,
    /// The state-machine cursor.
    stage: Stage,
    /// The trail position of each assigned variable.
    pos: Ghost<Seq<int>>,
}

/// A copy of a literal list.
fn copy_lits(v: &Vec<Lit>) -> (r: Vec<Lit>)
    ensures
        r@ == v@,
{
    let mut r: Vec<Lit> = Vec::new();
    let mut i: usize = 0;
    while i < v.len()
        invariant
            i <= v@.len(),
            r@ == v@.subrange(0, i as int),
        decreases v@.len() - i,
    {
        r.push(v[i]);
        i = i + 1;
        assert(r@ =~= v@.subrange(0, i as int));
    }
    assert(v@.subrange(0, i as int) =~= v@);
    r
}

/// A deep copy of a clause list.
fn copy_clauses(cs: &Vec<Vec<Lit>>) -> (r: Vec<Vec<Lit>>)
    ensures
        lists_view(r@) == lists_view(cs@),
{
    let mut r: Vec<Vec<Lit>> = Vec::new();
    let mut i: usize = 0;
    while i < cs.len()
        invariant
            i <= cs@.len(),
            r@.len() == i,
            forall|j: int| 0 <= j < i ==> (#[trigger] r@[j])@ == cs@[j]@,
        decreases cs@.len() - i,
    {
        r.push(copy_lits(&cs[i]));
        i = i + 1;
    }
    assert(lists_view(r@) =~= lists_view(cs@));
    r
}

/// Every literal of `c` is false under `vals`.
pub open spec fn all_false(vals: Seq<Option<bool>>, c: Seq<Lit>) -> bool {
    forall|i: int| 0 <= i < c.len() ==> pvalue(vals, #[trigger] c[i]) == Some(false)
}


/// `lit` is what the search decides next from values `vals`: the first given
/// that does not yet hold, when it is unassigned; or, once every given holds,
/// the positive literal of the lowest unassigned variable.
pub open spec fn next_decision(vals: Seq<Option<bool>>, given: Seq<Lit>, lit: Lit) -> bool {
    ||| exists|i: int|
        0 <= i < given.len() && given[i] == lit && pvalue(vals, given[i]) is None && forall|j: int|
            0 <= j < i ==> pvalue(vals, #[trigger] given[j]) == Some(true)
    ||| {
        &&& forall|i: int| 0 <= i < given.len() ==> pvalue(vals, #[trigger] given[i]) == Some(true)
        &&& lit.positive
        &&& 0 <= lit.var.index() < vals.len()
        &&& vals[lit.var.index()] is None
        &&& forall|j: int| 0 <= j < lit.var.index() ==> (#[trigger] vals[j]) is Some
    }
}

/// `c[u]` is unassigned under `vals` and every other literal of `c` is false.
pub open spec fn unit_at(vals: Seq<Option<bool>>, c: Seq<Lit>, u: int) -> bool {
    &&& 0 <= u < c.len()
    &&& pvalue(vals, c[u]) is None
    &&& forall|i: int| 0 <= i < c.len() && i != u ==> pvalue(vals, #[trigger] c[i]) == Some(false)
}

/// The verdict an event announces: `Some(None)` for `Sat`, `Some(Some(core))`
/// for `Unsat`, `None` for a move that leaves the search running.
pub open spec fn event_verdict(ev: Event) -> Option<Option<Seq<Lit>>> {
    match ev {
        Event::Sat => Some(None),
        Event::Unsat { core } => Some(Some(core@)),
        _ => None,
    }
}

/// The weight one trail literal at decision level `lvl` contributes to the
/// progress measure of a search over `n` variables.
pub open spec fn weight(n: nat, lvl: int) -> int {
    pow((n + 2) as int, (n - lvl) as nat)
}

impl Search {
    /// The clause database, as literal sequences.
    pub closed spec fn db(&self) -> Seq<Seq<Lit>> {
        lists_view(self.clauses@)
    }

    /// The rule clauses the search was started with.
    pub closed spec fn rules(&self) -> Seq<Seq<Lit>> {
        self.db().subrange(0, self.n_rules as int)
    }

    /// The assumption literals.
    pub closed spec fn given(&self) -> Seq<Lit> {
        self.assumptions@
    }

    /// The current value of every variable.
    pub closed spec fn vals(&self) -> Seq<Option<bool>> {
        self.value@
    }

    /// The trail, in the order literals were set.
    pub closed spec fn trail_spec(&self) -> Seq<Lit> {
        self.trail@
    }

    /// The current decision level.
    pub closed spec fn dl(&self) -> nat {
        self.trail_lim@.len()
    }

    /// The number of variables.
    pub closed spec fn n(&self) -> nat {
        self.n_vars as nat
    }

    /// The decision level recorded for variable `j`.
    pub closed spec fn level_spec(&self, j: int) -> int {
        self.level@[j] as int
    }

    /// Whether variable `j` was assigned as an assumption decision.
    pub closed spec fn assumed(&self, j: int) -> bool {
        self.is_assumption@[j]
    }

    /// Whether the search has reached a terminal outcome.
    pub closed spec fn done(&self) -> bool {
        self.stage is Done
    }

    /// The values at decision levels at most `k`.
    closed spec fn prefix(&self, k: int) -> Seq<Option<bool>> {
        Seq::new(
            self.n_vars as nat,
            |j: int|
                if self.value@[j] is Some && self.level@[j] <= k {
                    self.value@[j]
                } else {
                    None
                },
        )
    }

    /// The decision literals of the first `m` levels.
    closed spec fn decs(&self, m: int) -> Seq<Lit> {
        Seq::new(m as nat, |k: int| self.trail@[self.trail_lim@[k] as int])
    }

    /// Whether the decision opening level `k + 1` was an assumption.
    closed spec fn flagged(&self, k: int) -> bool {
        self.is_assumption@[self.trail@[self.trail_lim@[k] as int].var.index()]
    }

    /// Sizes agree, every clause and assumption stays within the variables, and
    /// the occurrence lists are complete and in range.
    closed spec fn shapes_ok(&self) -> bool {
        &&& self.n_vars <= MAX_VAR_IDX + 1
        &&& self.value@.len() == self.n_vars
        &&& self.level@.len() == self.n_vars
        &&& self.reason@.len() == self.n_vars
        &&& self.is_assumption@.len() == self.n_vars
        &&& self.occ@.len() == self.n_vars
        &&& self.pos@.len() == self.n_vars
        &&& self.n_rules <= self.clauses@.len()
        &&& clauses_below(self.db(), self.n_vars as int)
        &&& lits_below(self.assumptions@, self.n_vars as int)
        &&& forall|j: int, i: int|
            0 <= j < self.clauses@.len() && 0 <= i < self.clauses@[j]@.len() ==> (#[trigger] self.occ@[self.clauses@[j]@[i].var.index()])@.contains(j as usize)
        &&& forall|v: int, m: int|
            0 <= v < self.occ@.len() && 0 <= m < self.occ@[v]@.len() ==> (#[trigger] self.occ@[v]@[m]) < self.clauses@.len()
        &&& occ_exact(self.db(), self.occ@)
        &&& self.trail@.len() <= self.n_vars
    }

    /// The trail lists exactly the assigned variables, each once, with its value,
    /// and `pos` finds each on it.
    closed spec fn trail_ok(&self) -> bool {
        &&& forall|t: int|
            0 <= t < self.trail@.len() ==> {
                let j = (#[trigger] self.trail@[t]).var.index();
                &&& j < self.n_vars
                &&& self.value@[j] == Some(self.trail@[t].positive)
                &&& self.pos@[j] == t
            }
        &&& forall|j: int|
            0 <= j < self.n_vars && (#[trigger] self.value@[j]) is Some ==> {
                &&& 0 <= self.pos@[j] < self.trail@.len()
                &&& self.trail@[self.pos@[j]].var.index() == j
            }
        &&& self.trail@.len() + count_none(self.value@) == self.n_vars
        &&& forall|j: int|
            0 <= j < self.n_vars && (#[trigger] self.value@[j]) is None ==> {
                &&& self.level@[j] == 0
                &&& self.reason@[j] is None
                &&& !self.is_assumption@[j]
            }
    }

    /// Each level's decision sits on the trail, in order, and every assigned
    /// variable's level is the block of the trail it sits in.
    closed spec fn levels_ok(&self) -> bool {
        &&& forall|k: int| 0 <= k < self.trail_lim@.len() ==> #[trigger] self.trail_lim@[k] < self.trail@.len()
        &&& forall|k1: int, k2: int|
            0 <= k1 < k2 < self.trail_lim@.len() ==> #[trigger] self.trail_lim@[k1] < #[trigger] self.trail_lim@[k2]
        &&& forall|j: int|
            0 <= j < self.n_vars && (#[trigger] self.value@[j]) is Some ==> {
                &&& self.level@[j] <= self.trail_lim@.len()
                &&& self.level@[j] > 0 ==> self.trail_lim@[self.level@[j] - 1] <= self.pos@[j]
                &&& self.level@[j] < self.trail_lim@.len() ==> self.pos@[j] < self.trail_lim@[self.level@[j] as int]
            }
    }

    /// A variable without a reason is its level's decision; a variable with one
    /// was forced by that clause: every other literal of it was false, and set
    /// earlier on the trail.
    closed spec fn reasons_ok(&self) -> bool {
        forall|j: int|
            0 <= j < self.n_vars && (#[trigger] self.value@[j]) is Some ==> match self.reason@[j] {
                None => self.level@[j] > 0 && self.pos@[j] == self.trail_lim@[self.level@[j] - 1],
                Some(r) => {
                    &&& r < self.clauses@.len()
                    &&& forall|i: int|
                        0 <= i < self.clauses@[r as int]@.len() ==> {
                            let q = #[trigger] self.clauses@[r as int]@[i];
                            if q.var.index() == j {
                                q == self.trail@[self.pos@[j]]
                            } else {
                                &&& pvalue(self.value@, q) == Some(false)
                                &&& self.pos@[q.var.index()] < self.pos@[j]
                            }
                        }
                },
            }
    }

    /// Assumption decisions are assumption literals and occupy the lowest levels,
    /// and a branching decision is only made once every assumption holds.
    closed spec fn assumps_ok(&self) -> bool {
        &&& forall|j: int|
            0 <= j < self.n_vars && #[trigger] self.is_assumption@[j] ==> {
                &&& self.value@[j] is Some
                &&& self.reason@[j] is None
                &&& self.assumptions@.contains(value_lit(j, self.value@[j]->0))
            }
        &&& forall|k1: int, k2: int| 0 <= k1 < k2 < self.trail_lim@.len() && #[trigger] self.flagged(k2) ==> #[trigger] self.flagged(k1)
        &&& forall|k: int|
            0 <= k < self.trail_lim@.len() && !#[trigger] self.flagged(k) ==> forall|i: int|
                0 <= i < self.assumptions@.len() ==> {
                    &&& pvalue(self.value@, #[trigger] self.assumptions@[i]) == Some(true)
                    &&& self.pos@[self.assumptions@[i].var.index()] < self.trail_lim@[k]
                }
    }

    /// Every trail literal follows from the clause database and the decisions
    /// at or below its level; every clause of the database follows from the rules.
    closed spec fn sound_ok(&self) -> bool {
        &&& forall|t: int|
            0 <= t < self.trail@.len() ==> forced(self.db(), self.decs(self.level@[(#[trigger] self.trail@[t]).var.index()] as int), self.trail@[t])
        &&& forall|j: int| 0 <= j < self.clauses@.len() ==> entails(self.rules(), #[trigger] self.db()[j])
    }

    /// Every clause but `except` is idle at every level below the current one.
    closed spec fn prefixes_idle(&self, except: int) -> bool {
        forall|k: int, j: int|
            0 <= k < self.trail_lim@.len() && 0 <= j < self.clauses@.len() && j != except ==> idle(#[trigger] self.prefix(k), #[trigger] self.db()[j])
    }

    /// What each stage of the state machine relies on.
    closed spec fn stage_ok(&self) -> bool {
        match self.stage {
            Stage::Propagate => {
                &&& forall|m: int| 0 <= m < self.dirty@.len() ==> #[trigger] self.dirty@[m] < self.clauses@.len()
                &&& forall|j: int|
                    0 <= j < self.clauses@.len() && !self.dirty@.contains(j as usize) ==> idle(self.value@, #[trigger] self.db()[j])
                &&& self.prefixes_idle(-1)
            },
            Stage::Analyze(c) => {
                &&& c < self.clauses@.len()
                &&& all_false(self.value@, self.db()[c as int])
                &&& self.prefixes_idle(-1)
            },
            Stage::Backtrack { learned, to_level } => {
                &&& learned < self.clauses@.len()
                &&& to_level < self.trail_lim@.len()
                &&& self.prefixes_idle(learned as int)
                &&& forall|k: int| 0 <= k < to_level ==> idle(#[trigger] self.prefix(k), self.db()[learned as int])
                &&& unit_at(self.prefix(to_level as int), self.db()[learned as int], 0)
            },
            Stage::Done(Final::Sat) => {
                &&& model_satisfies(self.value@, self.db())
                &&& forall|i: int| 0 <= i < self.assumptions@.len() ==> pvalue(self.value@, #[trigger] self.assumptions@[i]) == Some(true)
                &&& forall|j: int| 0 <= j < self.n_vars ==> (#[trigger] self.value@[j]) is Some
            },
            Stage::Done(Final::Unsat(core)) => {
                &&& forall|i: int| 0 <= i < core@.len() ==> self.assumptions@.contains(#[trigger] core@[i])
                &&& !satisfiable_under(self.rules(), self.assumptions@)
                &&& core_refutes(self.rules(), self.assumptions@, core@)
            },
        }
    }

    /// The search's internal consistency.
    pub closed spec fn inv(&self) -> bool {
        &&& self.shapes_ok()
        &&& self.trail_ok()
        &&& self.levels_ok()
        &&& self.reasons_ok()
        &&& self.assumps_ok()
        &&& self.sound_ok()
        &&& self.stage_ok()
    }
}


/// The largest decision level among the variables assumed, reading the first
/// `i` variables (0 when none is).
pub open spec fn max_assumed(flags: Seq<bool>, levels: Seq<u32>, i: int) -> int
    decreases i,
{
    if i <= 0 {
        0
    } else {
        let prev = max_assumed(flags, levels, i - 1);
        if flags[i - 1] && levels[i - 1] > prev {
            levels[i - 1] as int
        } else {
            prev
        }
    }
}

/// Every assumed level among the first `i` is at most `b`, so their largest is too.
proof fn lemma_max_assumed_at_most(flags: Seq<bool>, levels: Seq<u32>, i: int, b: int)
    requires
        0 <= b,
        i <= flags.len(),
        i <= levels.len(),
        forall|k: int| 0 <= k < i && #[trigger] flags[k] ==> levels[k] <= b,
    ensures
        0 <= max_assumed(flags, levels, i) <= b,
    decreases i,
{
    if i > 0 {
        lemma_max_assumed_at_most(flags, levels, i - 1, b);
    }
}

/// The largest assumed level among the first `i` bounds each of them.
proof fn lemma_max_assumed_at_least(flags: Seq<bool>, levels: Seq<u32>, i: int, k: int)
    requires
        0 <= k < i,
        flags[k],
    ensures
        levels[k] <= max_assumed(flags, levels, i),
    decreases i,
{
    if k < i - 1 {
        lemma_max_assumed_at_least(flags, levels, i - 1, k);
    }
}

/// Giving a variable that was not assumed the level `top`, above every assumed
/// level, moves the largest assumed level to `top` exactly when the variable
/// now counts as assumed.
proof fn lemma_max_assumed_update(flags: Seq<bool>, levels: Seq<u32>, i: int, v: int, f: bool, top: u32)
    requires
        0 <= v < flags.len(),
        v < levels.len(),
        0 <= i <= flags.len(),
        i <= levels.len(),
        !flags[v],
        top > 0,
        forall|k: int| 0 <= k < i && #[trigger] flags[k] ==> levels[k] < top,
    ensures
        max_assumed(flags.update(v, f), levels.update(v, top), i) == if f && v < i {
            top as int
        } else {
            max_assumed(flags, levels, i)
        },
    decreases i,
{
    if i > 0 {
        lemma_max_assumed_update(flags, levels, i - 1, v, f, top);
        lemma_max_assumed_at_most(flags, levels, i - 1, top as int);
        if f && v < i - 1 {
            lemma_max_assumed_at_most(flags, levels, i, top as int);
        }
    }
}

impl Search {
    /// The verdict the search has reached: `Some(None)` for satisfiable,
    /// `Some(Some(core))` for unsatisfiable with `core`, `None` while running.
    pub closed spec fn verdict(&self) -> Option<Option<Seq<Lit>>> {
        match self.stage {
            Stage::Done(Final::Sat) => Some(None),
            Stage::Done(Final::Unsat(core)) => Some(Some(core@)),
            _ => None,
        }
    }

    /// What opening a level on `lit` records, seen from the state `before` it:
    /// `lit` holds at the new level, counts as a given exactly when it is one,
    /// and the base level rises to the new level exactly then.
    pub open spec fn records_decision(&self, before: Search, lit: Lit) -> bool {
        let v = lit.var.index();
        &&& 0 <= v < self.n()
        &&& self.vals()[v] == Some(lit.positive)
        &&& self.level_spec(v) == self.dl()
        &&& self.assumed(v) == before.given().contains(lit)
        &&& self.base_level_spec() == if before.given().contains(lit) {
            self.dl() as int
        } else {
            before.base_level_spec()
        }
    }

    /// Every assigned variable sits at a level no deeper than the current one;
    /// every given placed as a decision holds and sits at or below the base
    /// level, itself no deeper than the current level; the search is done
    /// exactly when it holds a verdict; and with an empty trail nothing is
    /// assigned.
    pub proof fn lemma_levels(&self)
        requires
            self.inv(),
        ensures
            0 <= self.base_level_spec() <= self.dl(),
            forall|j: int| 0 <= j < self.n() && (#[trigger] self.vals()[j]) is Some ==> 0 <= self.level_spec(j) <= self.dl(),
            forall|j: int|
                0 <= j < self.n() && #[trigger] self.assumed(j) ==> self.vals()[j] is Some && self.level_spec(j) <= self.base_level_spec(),
            self.done() <==> self.verdict() is Some,
            self.trail_spec().len() == 0 ==> forall|j: int| 0 <= j < self.n() ==> (#[trigger] self.vals()[j]) is None,
    {
        let n = self.n_vars as int;
        assert forall|k: int| 0 <= k < n && #[trigger] self.is_assumption@[k] implies self.level@[k] <= self.trail_lim@.len() by {
            assert(self.value@[k] is Some);
        }
        lemma_max_assumed_at_most(self.is_assumption@, self.level@, n, self.trail_lim@.len() as int);
        assert forall|j: int| 0 <= j < n && #[trigger] self.assumed(j) implies self.vals()[j] is Some && self.level_spec(j) <= self.base_level_spec() by {
            lemma_max_assumed_at_least(self.is_assumption@, self.level@, n, j);
        }
        if self.trail@.len() == 0 {
            assert forall|j: int| 0 <= j < n implies (#[trigger] self.vals()[j]) is None by {
                if self.value@[j] is Some {
                    assert(0 <= self.pos@[j] < self.trail@.len());
                }
            }
        }
    }
}

impl Search {
    /// The number of leading clauses that are rules.
    pub closed spec fn n_rules_spec(&self) -> nat {
        self.n_rules as nat
    }

    /// The largest decision level held by an assumption decision, or 0.
    pub closed spec fn base_level_spec(&self) -> int {
        max_assumed(self.is_assumption@, self.level@, self.n_vars as int)
    }

    /// Facts every consistent search offers its callers.
    pub proof fn lemma_inv_facts(&self)
        requires
            self.inv(),
        ensures
            self.rules().len() == self.n_rules_spec(),
            self.n_rules_spec() <= self.db().len(),
            self.rules() == self.db().subrange(0, self.n_rules_spec() as int),
            self.vals().len() == self.n(),
            self.n() <= MAX_VAR_IDX + 1,
            clauses_below(self.db(), self.n() as int),
            lits_below(self.given(), self.n() as int),
            self.dl() <= self.trail_spec().len() <= self.n(),
            forall|j: int| 0 <= j < self.db().len() ==> entails(self.rules(), #[trigger] self.db()[j]),
    {
        if self.trail_lim@.len() > 0 {
            self.lemma_dl_bound();
        }
    }

    /// The largest level of an assumed variable below `i`, when positive, is the
    /// level of some assumed variable.
    proof fn lemma_max_assumed_witness(&self, i: int)
        requires
            0 <= i <= self.n_vars,
            self.shapes_ok(),
            max_assumed(self.is_assumption@, self.level@, i) > 0,
        ensures
            exists|a: int|
                0 <= a < i && self.is_assumption@[a] && self.level@[a] as int == max_assumed(
                    self.is_assumption@,
                    self.level@,
                    i,
                ),
        decreases i,
    {
        let prev = max_assumed(self.is_assumption@, self.level@, i - 1);
        if self.is_assumption@[i - 1] && self.level@[i - 1] > prev {
            assert(self.is_assumption@[i - 1] && self.level@[i - 1] as int == max_assumed(
                self.is_assumption@,
                self.level@,
                i,
            ));
        } else {
            self.lemma_max_assumed_witness(i - 1);
            let a = choose|a: int|
                0 <= a < i - 1 && self.is_assumption@[a] && self.level@[a] as int == max_assumed(
                    self.is_assumption@,
                    self.level@,
                    i - 1,
                );
            assert(0 <= a < i);
        }
    }

    /// A fact the search holds at or below the base level, the deepest level a
    /// given occupies, is forced by the rules and the givens: it holds in every
    /// solution consistent with the givens, whatever the search guesses later.
    pub proof fn lemma_proven_forced(&self, j: int)
        requires
            self.inv(),
            0 <= j < self.n(),
            self.vals()[j] is Some,
            self.level_spec(j) as u32 as int <= self.base_level_spec(),
        ensures
            forced(self.rules(), self.given(), value_lit(j, self.vals()[j]->0)),
    {
        let t = self.pos@[j];
        let l = self.trail@[t];
        assert(l.var.index() == j);
        assert(self.value@[j] == Some(l.positive));
        assert(l == value_lit(j, self.vals()[j]->0));
        let m = self.level@[j] as int;
        assert(forced(self.db(), self.decs(m), l));
        let base = self.base_level_spec();
        assert forall|k: int| 0 <= k < m implies self.given().contains(#[trigger] self.decs(m)[k]) by {
            self.lemma_max_assumed_witness(self.n_vars as int);
            let a = choose|a: int|
                0 <= a < self.n_vars && self.is_assumption@[a] && self.level@[a] as int == max_assumed(
                    self.is_assumption@,
                    self.level@,
                    self.n_vars as int,
                );
            assert(self.value@[a] is Some);
            assert(self.reason@[a] is None);
            let la = self.level@[a] as int;
            assert(self.pos@[a] == self.trail_lim@[la - 1]);
            assert(self.trail@[self.pos@[a]].var.index() == a);
            assert(self.flagged(la - 1));
            if k < la - 1 {
                assert(self.flagged(k));
            }
            let d = self.trail@[self.trail_lim@[k] as int];
            let dv = d.var.index();
            assert(self.trail_lim@[k] < self.trail@.len());
            assert(self.is_assumption@[dv]);
            assert(self.value@[dv] == Some(d.positive));
            assert(d == value_lit(dv, self.value@[dv]->0));
            assert(self.decs(m)[k] == d);
        }
        assert forall|tau: spec_fn(int) -> bool| cnf_holds(tau, self.rules()) && all_hold(tau, self.given()) implies #[trigger] lit_holds(tau, l) by {
            assert(cnf_holds(tau, self.db())) by {
                assert forall|c: int| 0 <= c < self.db().len() implies clause_holds(tau, #[trigger] self.db()[c]) by {
                    assert(entails(self.rules(), self.db()[c]));
                }
            }
            assert(all_hold(tau, self.decs(m))) by {
                assert forall|k: int| 0 <= k < self.decs(m).len() implies lit_holds(tau, #[trigger] self.decs(m)[k]) by {
                    assert(self.given().contains(self.decs(m)[k]));
                    let g = choose|g: int| 0 <= g < self.given().len() && self.given()[g] == self.decs(m)[k];
                    assert(lit_holds(tau, self.given()[g]));
                }
            }
        }
    }

    /// Each level's decision takes its own trail slot.
    proof fn lemma_dl_bound(&self)
        requires
            self.levels_ok(),
        ensures
            self.trail_lim@.len() <= self.trail@.len(),
    {
        let d = self.trail_lim@.len() as int;
        if d > 0 {
            assert forall|k: int| 0 <= k < d implies k <= #[trigger] self.trail_lim@[k] by {
                self.lemma_lim_at_least(k);
            }
            assert(d - 1 <= self.trail_lim@[d - 1]);
        }
    }

    /// The decision of level `k + 1` sits at trail position at least `k`.
    proof fn lemma_lim_at_least(&self, k: int)
        requires
            self.levels_ok(),
            0 <= k < self.trail_lim@.len(),
        ensures
            k <= self.trail_lim@[k],
        decreases k,
    {
        if k > 0 {
            self.lemma_lim_at_least(k - 1);
            assert(self.trail_lim@[k - 1] < self.trail_lim@[k]);
        }
    }

    /// Start a search over `rules`, spanning at least `rule_n_vars` variables,
    /// under `assumptions`.
    fn new(rules: Vec<Vec<Lit>>, rule_n_vars: usize, assumptions: &[Lit]) -> (s: Search)
        requires
            rule_n_vars <= MAX_VAR_IDX + 1,
            clauses_below(lists_view(rules@), rule_n_vars as int),
        ensures
            s.inv(),
            s.db() == lists_view(rules@),
            s.rules() == lists_view(rules@),
            s.given() == assumptions@,
            s.trail_spec().len() == 0,
            s.dl() == 0,
            !s.done(),
            s.n() >= rule_n_vars,
            s.n() == if lits_span(assumptions@) > rule_n_vars {
                lits_span(assumptions@)
            } else {
                rule_n_vars as nat
            },
            s.base_level_spec() == 0,
            forall|j: int| 0 <= j < s.n() ==> (#[trigger] s.vals()[j]) is None,
    {
        let ghost cs = lists_view(rules@);
        let mut n_vars: usize = rule_n_vars;
        let mut ci: usize = 0;
        while ci < rules.len()
            invariant
                ci <= rules@.len(),
                cs == lists_view(rules@),
                rule_n_vars <= n_vars <= MAX_VAR_IDX + 1,
                n_vars == rule_n_vars,
                clauses_below(cs, rule_n_vars as int),
                clauses_below(cs.subrange(0, ci as int), n_vars as int),
            decreases rules@.len() - ci,
        {
            let c = &rules[ci];
            let mut i: usize = 0;
            while i < c.len()
                invariant
                    0 <= ci < rules@.len(),
                    cs == lists_view(rules@),
                    c@ == cs[ci as int],
                    i <= c@.len(),
                    rule_n_vars <= n_vars <= MAX_VAR_IDX + 1,
                    n_vars == rule_n_vars,
                    clauses_below(cs, rule_n_vars as int),
                    clauses_below(cs.subrange(0, ci as int), n_vars as int),
                    lits_below(c@.subrange(0, i as int), n_vars as int),
                decreases c@.len() - i,
            {
                assert(lits_below(cs[ci as int], rule_n_vars as int));
                let idx = c[i].var().idx();
                if idx + 1 > n_vars {
                    n_vars = idx + 1;
                }
                i = i + 1;
            }
            assert(c@.subrange(0, i as int) =~= c@);
            assert forall|jj: int| 0 <= jj < ci + 1 implies lits_below(#[trigger] cs.subrange(0, ci + 1)[jj], n_vars as int) by {
                if jj < ci {
                    assert(cs.subrange(0, ci + 1)[jj] == cs.subrange(0, ci as int)[jj]);
                }
            }
            ci = ci + 1;
        }
        assert(cs.subrange(0, ci as int) =~= cs);
        let mut a: usize = 0;
        while a < assumptions.len()
            invariant
                a <= assumptions@.len(),
                rule_n_vars <= n_vars <= MAX_VAR_IDX + 1,
                clauses_below(cs, n_vars as int),
                lits_below(assumptions@.subrange(0, a as int), n_vars as int),
                n_vars == if lits_span(assumptions@.subrange(0, a as int)) > rule_n_vars {
                    lits_span(assumptions@.subrange(0, a as int))
                } else {
                    rule_n_vars as nat
                },
            decreases assumptions@.len() - a,
        {
            let idx = assumptions[a].var().idx();
            if idx + 1 > n_vars {
                n_vars = idx + 1;
            }
            assert(assumptions@.subrange(0, a + 1).drop_last() =~= assumptions@.subrange(0, a as int));
            a = a + 1;
            assert forall|i: int| 0 <= i < a implies #[trigger] assumptions@.subrange(0, a as int)[i].var.index() < n_vars by {
                if i < a - 1 {
                    assert(assumptions@.subrange(0, a as int)[i] == assumptions@.subrange(0, a - 1)[i]);
                }
            }
        }
        assert(assumptions@.subrange(0, a as int) =~= assumptions@);
        let mut occ: Vec<Vec<usize>> = Vec::new();
        let mut value: Vec<Option<bool>> = Vec::new();
        let mut level: Vec<u32> = Vec::new();
        let mut reason: Vec<Option<usize>> = Vec::new();
        let mut is_assumption: Vec<bool> = Vec::new();
        let mut v: usize = 0;
        while v < n_vars
            invariant
                v <= n_vars,
                occ@.len() == v,
                value@.len() == v,
                level@.len() == v,
                reason@.len() == v,
                is_assumption@.len() == v,
                forall|w: int| 0 <= w < v ==> (#[trigger] occ@[w])@.len() == 0,
                forall|w: int| 0 <= w < v ==> (#[trigger] value@[w]) is None,
                forall|w: int| 0 <= w < v ==> !(#[trigger] is_assumption@[w]),
                forall|w: int| 0 <= w < v ==> (#[trigger] level@[w]) == 0,
                forall|w: int| 0 <= w < v ==> (#[trigger] reason@[w]) is None,
            decreases n_vars - v,
        {
            occ.push(Vec::new());
            value.push(None);
            level.push(0);
            reason.push(None);
            is_assumption.push(false);
            v = v + 1;
        }
        let mut dirty: Vec<usize> = Vec::new();
        let mut cj: usize = 0;
        while cj < rules.len()
            invariant
                cs == lists_view(rules@),
                clauses_below(cs, n_vars as int),
                cj <= rules@.len(),
                occ@.len() == n_vars,
                dirty@.len() == cj,
                forall|m: int| 0 <= m < cj ==> #[trigger] dirty@[m] == m,
                forall|j: int, i: int|
                    0 <= j < cj && 0 <= i < rules@[j]@.len() ==> (#[trigger] occ@[rules@[j]@[i].var.index()])@.contains(j as usize),
                forall|w: int, m: int| 0 <= w < occ@.len() && 0 <= m < occ@[w]@.len() ==> (#[trigger] occ@[w]@[m]) < cj,
                occ_exact(cs, occ@),
            decreases rules@.len() - cj,
        {
            let c = &rules[cj];
            let mut i: usize = 0;
            while i < c.len()
                invariant
                    cs == lists_view(rules@),
                    clauses_below(cs, n_vars as int),
                    0 <= cj < rules@.len(),
                    c@ == rules@[cj as int]@,
                    i <= c@.len(),
                    occ@.len() == n_vars,
                    forall|j: int, ii: int|
                        0 <= j < cj && 0 <= ii < rules@[j]@.len() ==> (#[trigger] occ@[rules@[j]@[ii].var.index()])@.contains(j as usize),
                    forall|ii: int| 0 <= ii < i ==> (#[trigger] occ@[c@[ii].var.index()])@.contains(cj),
                    forall|w: int, m: int|
                        0 <= w < occ@.len() && 0 <= m < occ@[w]@.len() ==> (#[trigger] occ@[w]@[m]) < cj + 1,
                    occ_exact(cs, occ@),
                decreases c@.len() - i,
            {
                let lit = c[i];
                assert(cs[cj as int] == rules@[cj as int]@);
                assert(lits_below(cs[cj as int], n_vars as int));
                let idx = lit.var().idx();
                let ghost old_occ = occ@;
                let mut row: Vec<usize> = Vec::new();
                std::mem::swap(&mut row, &mut occ[idx]);
                row.push(cj);
                occ.set(idx, row);
                assert forall|j: int, ii: int|
                    0 <= j < cj && 0 <= ii < rules@[j]@.len() implies (#[trigger] occ@[rules@[j]@[ii].var.index()])@.contains(j as usize) by {
                    let w = rules@[j]@[ii].var.index();
                    assert(cs[j] == rules@[j]@);
                    assert(lits_below(cs[j], n_vars as int));
                    assert(old_occ[w]@.contains(j as usize));
                    if w == idx {
                        let m = choose|m: int| 0 <= m < old_occ[w]@.len() && old_occ[w]@[m] == j as usize;
                        assert(occ@[w]@[m] == j as usize);
                    }
                }
                assert forall|ii: int| 0 <= ii < i + 1 implies (#[trigger] occ@[c@[ii].var.index()])@.contains(cj) by {
                    let w = c@[ii].var.index();
                    if ii < i {
                        assert(old_occ[w]@.contains(cj));
                        if w == idx {
                            let m = choose|m: int| 0 <= m < old_occ[w]@.len() && old_occ[w]@[m] == cj;
                            assert(occ@[w]@[m] == cj);
                        }
                    } else {
                        assert(occ@[w]@[occ@[w]@.len() - 1] == cj);
                    }
                }
                assert forall|w: int, m: int|
                    0 <= w < occ@.len() && 0 <= m < occ@[w]@.len() implies (#[trigger] occ@[w]@[m]) < cj + 1 by {
                    if w == idx && m == occ@[w]@.len() - 1 {
                    } else {
                        assert(occ@[w]@[m] == old_occ[w]@[m]);
                    }
                }
                assert forall|w: int, m: int|
                    0 <= w < occ@.len() && 0 <= m < occ@[w]@.len() implies has_var(cs[#[trigger] occ@[w]@[m] as int], w) by {
                    if w == idx && m == occ@[w]@.len() - 1 {
                        assert(occ@[w]@[m] == cj);
                        assert(cs[cj as int][i as int].var.index() == w);
                    } else {
                        assert(occ@[w]@[m] == old_occ[w]@[m]);
                    }
                }
                i = i + 1;
            }
            dirty.push(cj);
            cj = cj + 1;
        }
        let n_rules = rules.len();
        let s = Search {
            clauses: rules,
            n_rules,
            occ,
            n_vars,
            value,
            level,
            reason,
            is_assumption,
            trail: Vec::new(),
            trail_lim: Vec::new(),
            dirty,
            assumptions: copy_lits_slice(assumptions),
            stage: Stage::Propagate,
            pos: Ghost(Seq::new(n_vars as nat, |j: int| 0int)),
        };
        proof {
            lemma_count_none_all(s.value@);
            assert(s.db() == cs);
            assert(s.rules() =~= cs);
            assert forall|j: int| 0 <= j < s.clauses@.len() implies entails(s.rules(), #[trigger] s.db()[j]) by {
                assert forall|tau: spec_fn(int) -> bool| cnf_holds(tau, s.rules()) implies #[trigger] clause_holds(tau, s.db()[j]) by {
                    assert(s.rules()[j] == s.db()[j]);
                }
            }
            assert forall|j: int| 0 <= j < s.clauses@.len() && !s.dirty@.contains(j as usize) implies idle(s.value@, #[trigger] s.db()[j]) by {
                assert(s.dirty@[j] == j as usize);
            }
            s.lemma_levels();
        }
        s
    }
}

/// A copy of a literal slice.
fn copy_lits_slice(v: &[Lit]) -> (r: Vec<Lit>)
    ensures
        r@ == v@,
{
    let mut r: Vec<Lit> = Vec::new();
    let mut i: usize = 0;
    while i < v.len()
        invariant
            i <= v@.len(),
            r@ == v@.subrange(0, i as int),
        decreases v@.len() - i,
    {
        r.push(v[i]);
        i = i + 1;
        assert(r@ =~= v@.subrange(0, i as int));
    }
    assert(v@.subrange(0, i as int) =~= v@);
    r
}


/// Append every entry of `src` to `dst`.
fn extend_from(dst: &mut Vec<usize>, src: &Vec<usize>)
    ensures
        final(dst)@ == old(dst)@ + src@,
{
    let ghost start = dst@;
    let mut k: usize = 0;
    while k < src.len()
        invariant
            k <= src@.len(),
            dst@ == start + src@.subrange(0, k as int),
        decreases src@.len() - k,
    {
        dst.push(src[k]);
        k = k + 1;
        assert(dst@ =~= start + src@.subrange(0, k as int));
    }
    assert(src@.subrange(0, k as int) =~= src@);
}

/// The variable with index `i`.
fn var_of(i: usize) -> (v: Var)
    requires
        i <= MAX_VAR_IDX,
    ensures
        v.index() == i,
        v == var_at(i as int),
{
    Var::new(i as u32)
}

impl Search {
    /// The current decision level (the number of open decisions).
    pub fn decision_level(&self) -> (d: u32)
        requires
            self.inv(),
        ensures
            d == self.dl(),
    {
        proof {
            self.lemma_inv_facts();
        }
        self.trail_lim.len() as u32
    }

    /// The deepest decision level held by a given (an assumption decision), or 0
    /// if none is placed.
    ///
    /// Assignments at or below it follow from the givens alone by propagation —
    /// proven facts; assignments above it rest on a branching guess — hypothetical
    /// ones.
    pub fn base_level(&self) -> (b: u32)
        requires
            self.inv(),
        ensures
            b == self.base_level_spec(),
    {
        let mut best: u32 = 0;
        let mut i: usize = 0;
        while i < self.is_assumption.len()
            invariant
                self.inv(),
                i <= self.n_vars,
                best == max_assumed(self.is_assumption@, self.level@, i as int),
            decreases self.n_vars - i,
        {
            if self.is_assumption[i] && self.level[i] > best {
                best = self.level[i];
            }
            i = i + 1;
        }
        best
    }

    /// The decision level at which `var` currently holds a value, or `None` if it
    /// is unassigned.
    pub fn level_of(&self, var: Var) -> (l: Option<u32>)
        requires
            self.inv(),
        ensures
            l == if var.index() < self.n() && self.vals()[var.index()] is Some {
                Some(self.level_spec(var.index()) as u32)
            } else {
                None::<u32>
            },
    {
        let i = var.idx();
        if i < self.value.len() {
            match self.value[i] {
                Some(_) => Some(self.level[i]),
                None => None,
            }
        } else {
            None
        }
    }

    /// The assignment stack, in the order literals were set.
    pub fn trail(&self) -> (t: &[Lit])
        ensures
            t@ == self.trail_spec(),
    {
        self.trail.as_slice()
    }

    /// The value currently assigned to `var`, or `None` if unassigned.
    pub fn value_of(&self, var: Var) -> (v: Option<bool>)
        requires
            self.inv(),
        ensures
            v == if var.index() < self.n() {
                self.vals()[var.index()]
            } else {
                None::<bool>
            },
    {
        let i = var.idx();
        if i < self.value.len() {
            self.value[i]
        } else {
            None
        }
    }

    /// The literals of clause `cref` of the database.
    pub fn clause_lits(&self, cref: ClauseRef) -> (c: &[Lit])
        requires
            cref < self.db().len(),
        ensures
            c@ == self.db()[cref as int],
    {
        self.clauses[cref].as_slice()
    }

    /// Whether `cref` names a learned clause rather than a rule.
    pub fn is_learned(&self, cref: ClauseRef) -> (b: bool)
        ensures
            b == (cref >= self.n_rules_spec()),
    {
        cref >= self.n_rules
    }

    /// Whether the search has reached a terminal SAT/UNSAT state.
    pub fn is_done(&self) -> (b: bool)
        ensures
            b == self.done(),
    {
        match self.stage {
            Stage::Done(_) => true,
            _ => false,
        }
    }

    /// The current, possibly partial, assignment.
    pub fn assignment(&self) -> (a: Assignment)
        requires
            self.inv(),
        ensures
            a@ == self.vals(),
    {
        let mut model = Assignment::with_capacity(self.n_vars);
        let mut i: usize = 0;
        while i < self.value.len()
            invariant
                self.inv(),
                i <= self.n_vars,
                model@.len() == self.n_vars,
                forall|j: int| 0 <= j < i ==> #[trigger] model@[j] == self.value@[j],
                forall|j: int| i <= j < self.n_vars ==> (#[trigger] model@[j]) is None,
            decreases self.n_vars - i,
        {
            match self.value[i] {
                Some(b) => {
                    model.set(var_of(i), b);
                },
                None => {},
            }
            i = i + 1;
        }
        assert(model@ =~= self.value@);
        model
    }

    /// The value of `lit` under the current assignment.
    fn lit_value(&self, lit: Lit) -> (v: Option<bool>)
        requires
            self.shapes_ok(),
            lit.var.index() < self.n_vars,
        ensures
            v == pvalue(self.value@, lit),
    {
        match self.value[lit.var().idx()] {
            Some(b) => Some(if lit.is_pos() {
                b
            } else {
                !b
            }),
            None => None,
        }
    }

    /// Record `lit` true at the current level with the given reason, and queue
    /// the clauses its variable occurs in.
    fn assign(&mut self, lit: Lit, reason: Option<ClauseRef>, is_assumption: bool)
        requires
            old(self).shapes_ok(),
            lit.var.index() < old(self).n_vars,
            old(self).trail_lim@.len() <= u32::MAX,
        ensures
            final(self).value@ == old(self).value@.update(lit.var.index(), Some(lit.positive)),
            final(self).level@ == old(self).level@.update(lit.var.index(), old(self).trail_lim@.len() as u32),
            final(self).reason@ == old(self).reason@.update(lit.var.index(), reason),
            final(self).is_assumption@ == old(self).is_assumption@.update(lit.var.index(), is_assumption),
            final(self).pos@ == old(self).pos@.update(lit.var.index(), old(self).trail@.len() as int),
            final(self).trail@ == old(self).trail@.push(lit),
            final(self).dirty@ == old(self).dirty@ + old(self).occ@[lit.var.index()]@,
            final(self).clauses == old(self).clauses,
            final(self).n_rules == old(self).n_rules,
            final(self).occ == old(self).occ,
            final(self).n_vars == old(self).n_vars,
            final(self).trail_lim == old(self).trail_lim,
            final(self).assumptions == old(self).assumptions,
            final(self).stage == old(self).stage,
    {
        let i = lit.var().idx();
        self.value.set(i, Some(lit.is_pos()));
        let lvl = self.trail_lim.len() as u32;
        self.level.set(i, lvl);
        self.reason.set(i, reason);
        self.is_assumption.set(i, is_assumption);
        proof {
            self.pos@ = self.pos@.update(i as int, self.trail@.len() as int);
        }
        self.trail.push(lit);
        extend_from(&mut self.dirty, &self.occ[i]);
    }

    /// The lowest-index unassigned variable as a positive literal, or `None`
    /// when every variable is assigned.
    fn pick_branch(&self) -> (r: Option<Lit>)
        requires
            self.shapes_ok(),
        ensures
            r matches Some(l) ==> {
                &&& l.var.index() < self.n_vars
                &&& self.value@[l.var.index()] is None
                &&& l.positive
                &&& forall|j: int| 0 <= j < l.var.index() ==> (#[trigger] self.value@[j]) is Some
            },
            r is None ==> forall|j: int| 0 <= j < self.n_vars ==> (#[trigger] self.value@[j]) is Some,
    {
        let mut i: usize = 0;
        while i < self.value.len()
            invariant
                self.shapes_ok(),
                i <= self.n_vars,
                forall|j: int| 0 <= j < i ==> (#[trigger] self.value@[j]) is Some,
            decreases self.n_vars - i,
        {
            if self.value[i].is_none() {
                return Some(var_of(i).pos_lit());
            }
            i = i + 1;
        }
        None
    }
}


impl Search {
    /// The progress measure over the first `t` trail literals: each contributes
    /// the weight of its decision level.
    closed spec fn psum(&self, t: int) -> int
        decreases t,
    {
        if t <= 0 {
            0
        } else {
            self.psum(t - 1) + weight(self.n_vars as nat, self.level@[self.trail@[t - 1].var.index()] as int)
        }
    }

    /// The progress measure: it grows with every propagation and decision, and a
    /// backtrack followed by its asserting propagation leaves it larger.
    pub closed spec fn measure(&self) -> int {
        self.psum(self.trail@.len() as int)
    }

    /// Two searches that agree on the first `t` trail literals and their levels
    /// agree on the measure of that prefix.
    proof fn lemma_psum_agree(&self, other: &Search, t: int)
        requires
            self.n_vars == other.n_vars,
            0 <= t <= self.trail@.len(),
            t <= other.trail@.len(),
            forall|i: int| 0 <= i < t ==> #[trigger] self.trail@[i] == other.trail@[i],
            forall|i: int|
                0 <= i < t ==> self.level@[(#[trigger] self.trail@[i]).var.index()] == other.level@[other.trail@[i].var.index()],
        ensures
            self.psum(t) == other.psum(t),
        decreases t,
    {
        if t > 0 {
            self.lemma_psum_agree(other, t - 1);
            assert(self.trail@[t - 1] == other.trail@[t - 1]);
        }
    }

    /// The decisions of the first `m` levels are a prefix of those of `m2`.
    proof fn lemma_decs_prefix(&self, m: int, m2: int, tau: spec_fn(int) -> bool)
        requires
            0 <= m <= m2,
            all_hold(tau, self.decs(m2)),
        ensures
            all_hold(tau, self.decs(m)),
    {
        assert forall|i: int| 0 <= i < self.decs(m).len() implies lit_holds(tau, #[trigger] self.decs(m)[i]) by {
            assert(self.decs(m)[i] == self.decs(m2)[i]);
        }
    }

    /// A literal false under the current values is false in every total
    /// assignment satisfying the database and the decisions up to level `m`, when
    /// its variable was set at a level at most `m`.
    proof fn lemma_false_forced(&self, q: Lit, m: int, tau: spec_fn(int) -> bool)
        requires
            self.shapes_ok(),
            self.trail_ok(),
            self.levels_ok(),
            self.sound_ok(),
            q.var.index() < self.n_vars,
            pvalue(self.value@, q) == Some(false),
            self.level@[q.var.index()] <= m <= self.trail_lim@.len(),
            cnf_holds(tau, self.db()),
            all_hold(tau, self.decs(m)),
        ensures
            !lit_holds(tau, q),
    {
        let j = q.var.index();
        let t = self.pos@[j];
        let tl = self.trail@[t];
        assert(tl.var.index() == j);
        assert(tl == q.neg());
        self.lemma_decs_prefix(self.level@[j] as int, m, tau);
        assert(forced(self.db(), self.decs(self.level@[tl.var.index()] as int), tl));
        assert(lit_holds(tau, tl));
    }
}


impl Search {
    /// `new` is `self` with `lit` set at level `lvl` (whose decision list is
    /// `lims`), with the given reason and assumption flag, and the worklist
    /// `wl` extended by the clauses mentioning `lit`'s variable.
    closed spec fn assigned_to(
        &self,
        new: &Search,
        lit: Lit,
        lvl: int,
        reason: Option<usize>,
        flag: bool,
        lims: Seq<usize>,
        wl: Seq<usize>,
    ) -> bool {
        let v = lit.var.index();
        &&& 0 <= v < self.n_vars
        &&& self.value@[v] is None
        &&& new.value@ == self.value@.update(v, Some(lit.positive))
        &&& new.level@ == self.level@.update(v, lvl as u32)
        &&& new.reason@ == self.reason@.update(v, reason)
        &&& new.is_assumption@ == self.is_assumption@.update(v, flag)
        &&& new.pos@ == self.pos@.update(v, self.trail@.len() as int)
        &&& new.trail@ == self.trail@.push(lit)
        &&& new.trail_lim@ == lims
        &&& new.dirty@ == wl + self.occ@[v]@
        &&& new.clauses == self.clauses
        &&& new.n_rules == self.n_rules
        &&& new.occ == self.occ
        &&& new.n_vars == self.n_vars
        &&& new.assumptions == self.assumptions
    }

    /// Setting a fresh variable keeps the shapes, the trail bookkeeping and the
    /// other variables' levels, reasons and soundness; the new level list must
    /// extend the old one by at most the new literal's own decision.
    proof fn lemma_assign_common(&self, new: &Search, lit: Lit, lvl: int, reason: Option<usize>, flag: bool, lims: Seq<usize>, wl: Seq<usize>)
        requires
            self.shapes_ok(),
            self.trail_ok(),
            self.levels_ok(),
            self.reasons_ok(),
            self.sound_ok(),
            self.assigned_to(new, lit, lvl, reason, flag, lims, wl),
            lims == self.trail_lim@ || lims == self.trail_lim@.push(self.trail@.len() as usize),
            lvl == lims.len(),
            lvl <= u32::MAX,
        ensures
            new.shapes_ok(),
            new.trail_ok(),
            forall|j: int| 0 <= j < self.n_vars && (#[trigger] self.value@[j]) is Some ==> new.level@[j] == self.level@[j] && new.pos@[j] == self.pos@[j] && new.reason@[j] == self.reason@[j] && new.is_assumption@[j] == self.is_assumption@[j],
            forall|t: int| 0 <= t < self.trail@.len() ==> (#[trigger] self.trail@[t]).var.index() != lit.var.index(),
            forall|m: int| 0 <= m <= self.trail_lim@.len() ==> new.decs(m) == self.decs(m),
            new.db() == self.db(),
            new.rules() == self.rules(),
            new.psum(self.trail@.len() as int) == self.psum(self.trail@.len() as int),
    {
        let v = lit.var.index();
        lemma_count_none_pos(self.value@, v);
        lemma_count_none_update(self.value@, v, lit.positive);
        assert forall|t: int| 0 <= t < self.trail@.len() implies (#[trigger] self.trail@[t]).var.index() != v by {
            let j = self.trail@[t].var.index();
            assert(self.value@[j] is Some);
        }
        assert forall|t: int| 0 <= t < new.trail@.len() implies {
            let j = (#[trigger] new.trail@[t]).var.index();
            &&& j < new.n_vars
            &&& new.value@[j] == Some(new.trail@[t].positive)
            &&& new.pos@[j] == t
        } by {
            if t < self.trail@.len() {
                assert(new.trail@[t] == self.trail@[t]);
                assert(self.trail@[t].var.index() != v);
            }
        }
        assert forall|m: int| 0 <= m <= self.trail_lim@.len() implies new.decs(m) == self.decs(m) by {
            assert forall|k: int| 0 <= k < m implies new.decs(m)[k] == self.decs(m)[k] by {
                assert(new.trail_lim@[k] == self.trail_lim@[k]);
                assert(self.trail_lim@[k] < self.trail@.len());
            }
            assert(new.decs(m) =~= self.decs(m));
        }
        assert(new.db() == self.db());
        assert(new.rules() =~= self.rules());
        assert forall|i: int|
            0 <= i < self.trail@.len() implies self.level@[(#[trigger] self.trail@[i]).var.index()] == new.level@[new.trail@[i].var.index()] by {
            assert(new.trail@[i] == self.trail@[i]);
        }
        self.lemma_psum_agree(new, self.trail@.len() as int);
    }

    /// Propagating the unit literal of the worklist's last clause `ci` keeps the
    /// search consistent and raises the measure by the current level's weight.
    proof fn lemma_propagated(&self, new: &Search, ci: int, u: int)
        requires
            self.inv(),
            self.stage is Propagate,
            self.dirty@.len() > 0,
            ci == self.dirty@.last(),
            unit_at(self.value@, self.db()[ci], u),
            self.assigned_to(new, self.db()[ci][u], self.trail_lim@.len() as int, Some(ci as usize), false, self.trail_lim@, self.dirty@.drop_last()),
            new.stage is Propagate,
        ensures
            new.inv(),
            new.measure() == self.measure() + weight(self.n_vars as nat, self.trail_lim@.len() as int),
    {
        let c = self.db()[ci];
        let lit = c[u];
        let p = self.trail@.len() as int;
        self.lemma_inv_facts();
        self.lemma_assign_common(new, lit, self.trail_lim@.len() as int, Some(ci as usize), false, self.trail_lim@, self.dirty@.drop_last());
        self.lemma_propagated_levels(new, ci, u);
        self.lemma_propagated_reasons(new, ci, u);
        self.lemma_assign_assumps_same_level(new, lit, Some(ci as usize), self.dirty@.drop_last());
        self.lemma_propagated_sound(new, ci, u);
        self.lemma_propagated_stage(new, ci, u);
        assert(new.psum(p + 1) == new.psum(p) + weight(new.n_vars as nat, new.level@[new.trail@[p].var.index()] as int));
    }

    /// Levels stay consistent when a literal is propagated at the current level.
    proof fn lemma_propagated_levels(&self, new: &Search, ci: int, u: int)
        requires
            self.inv(),
            unit_at(self.value@, self.db()[ci], u),
            0 <= ci < self.clauses@.len(),
            self.assigned_to(new, self.db()[ci][u], self.trail_lim@.len() as int, Some(ci as usize), false, self.trail_lim@, self.dirty@.drop_last()),
        ensures
            new.levels_ok(),
    {
        self.lemma_inv_facts();
        assert(self.clauses@.len() == self.clauses.len());
        let v = self.db()[ci][u].var.index();
        assert forall|j: int| 0 <= j < new.n_vars && (#[trigger] new.value@[j]) is Some implies {
            &&& new.level@[j] <= new.trail_lim@.len()
            &&& new.level@[j] > 0 ==> new.trail_lim@[new.level@[j] - 1] <= new.pos@[j]
            &&& new.level@[j] < new.trail_lim@.len() ==> new.pos@[j] < new.trail_lim@[new.level@[j] as int]
        } by {
            if j == v {
                if new.level@[j] > 0 {
                    assert(self.trail_lim@[self.trail_lim@.len() - 1] < self.trail@.len());
                }
            } else {
                assert(self.value@[j] is Some);
            }
        }
    }

    /// Reasons stay consistent when a literal is propagated from clause `ci`.
    proof fn lemma_propagated_reasons(&self, new: &Search, ci: int, u: int)
        requires
            self.inv(),
            unit_at(self.value@, self.db()[ci], u),
            0 <= ci < self.clauses@.len(),
            self.assigned_to(new, self.db()[ci][u], self.trail_lim@.len() as int, Some(ci as usize), false, self.trail_lim@, self.dirty@.drop_last()),
        ensures
            new.reasons_ok(),
    {
        self.lemma_inv_facts();
        assert(self.clauses@.len() == self.clauses.len());
        let c = self.db()[ci];
        let v = c[u].var.index();
        assert forall|j: int| 0 <= j < new.n_vars && (#[trigger] new.value@[j]) is Some implies match new.reason@[j] {
            None => new.level@[j] > 0 && new.pos@[j] == new.trail_lim@[new.level@[j] - 1],
            Some(r) => {
                &&& r < new.clauses@.len()
                &&& forall|i: int|
                    0 <= i < new.clauses@[r as int]@.len() ==> {
                        let q = #[trigger] new.clauses@[r as int]@[i];
                        if q.var.index() == j {
                            q == new.trail@[new.pos@[j]]
                        } else {
                            &&& pvalue(new.value@, q) == Some(false)
                            &&& new.pos@[q.var.index()] < new.pos@[j]
                        }
                    }
            },
        } by {
            if j == v {
                assert(new.clauses@[ci]@ == c);
                assert forall|i: int| 0 <= i < new.clauses@[ci]@.len() implies {
                    let q = #[trigger] new.clauses@[ci]@[i];
                    if q.var.index() == j {
                        q == new.trail@[new.pos@[j]]
                    } else {
                        &&& pvalue(new.value@, q) == Some(false)
                        &&& new.pos@[q.var.index()] < new.pos@[j]
                    }
                } by {
                    let q = c[i];
                    assert(new.clauses@[ci]@[i] == q);
                    if i != u {
                        assert(pvalue(self.value@, q) == Some(false));
                        assert(self.value@[q.var.index()] is Some);
                        assert(q.var.index() != v);
                    }
                }
            } else {
                assert(self.value@[j] is Some);
                match self.reason@[j] {
                    None => {},
                    Some(r) => {
                        assert forall|i: int| 0 <= i < new.clauses@[r as int]@.len() implies {
                            let q = #[trigger] new.clauses@[r as int]@[i];
                            if q.var.index() == j {
                                q == new.trail@[new.pos@[j]]
                            } else {
                                &&& pvalue(new.value@, q) == Some(false)
                                &&& new.pos@[q.var.index()] < new.pos@[j]
                            }
                        } by {
                            let q = self.clauses@[r as int]@[i];
                            if q.var.index() != j {
                                assert(pvalue(self.value@, q) == Some(false));
                                assert(self.value@[q.var.index()] is Some);
                            }
                            assert(new.trail@[self.pos@[j]] == self.trail@[self.pos@[j]]);
                        }
                    },
                }
            }
        }
    }

    /// Setting a non-assumption literal at the current level keeps the
    /// assumption bookkeeping.
    proof fn lemma_assign_assumps_same_level(&self, new: &Search, lit: Lit, reason: Option<usize>, wl: Seq<usize>)
        requires
            self.inv(),
            self.assigned_to(new, lit, self.trail_lim@.len() as int, reason, false, self.trail_lim@, wl),
        ensures
            new.assumps_ok(),
    {
        let v = lit.var.index();
        assert forall|k: int| 0 <= k < new.trail_lim@.len() implies new.flagged(k) == self.flagged(k) by {
            assert(self.trail_lim@[k] < self.trail@.len());
            assert(new.trail@[new.trail_lim@[k] as int] == self.trail@[self.trail_lim@[k] as int]);
            let j = self.trail@[self.trail_lim@[k] as int].var.index();
            assert(self.value@[j] is Some);
        }
        assert forall|j: int| 0 <= j < new.n_vars && #[trigger] new.is_assumption@[j] implies {
            &&& new.value@[j] is Some
            &&& new.reason@[j] is None
            &&& new.assumptions@.contains(value_lit(j, new.value@[j]->0))
        } by {
            assert(j != v);
        }
        assert forall|k: int|
            0 <= k < new.trail_lim@.len() && !#[trigger] new.flagged(k) implies forall|i: int|
                0 <= i < new.assumptions@.len() ==> {
                    &&& pvalue(new.value@, #[trigger] new.assumptions@[i]) == Some(true)
                    &&& new.pos@[new.assumptions@[i].var.index()] < new.trail_lim@[k]
                } by {
            assert forall|i: int| 0 <= i < new.assumptions@.len() implies {
                &&& pvalue(new.value@, #[trigger] new.assumptions@[i]) == Some(true)
                &&& new.pos@[new.assumptions@[i].var.index()] < new.trail_lim@[k]
            } by {
                assert(pvalue(self.value@, self.assumptions@[i]) == Some(true));
                assert(self.value@[self.assumptions@[i].var.index()] is Some);
            }
        }
    }

    /// A propagated literal follows from the database and the current decisions.
    proof fn lemma_propagated_sound(&self, new: &Search, ci: int, u: int)
        requires
            self.inv(),
            unit_at(self.value@, self.db()[ci], u),
            0 <= ci < self.clauses@.len(),
            self.assigned_to(new, self.db()[ci][u], self.trail_lim@.len() as int, Some(ci as usize), false, self.trail_lim@, self.dirty@.drop_last()),
        ensures
            new.sound_ok(),
    {
        let c = self.db()[ci];
        let lit = c[u];
        let p = self.trail@.len() as int;
        self.lemma_assign_common(new, lit, self.trail_lim@.len() as int, Some(ci as usize), false, self.trail_lim@, self.dirty@.drop_last());
        assert forall|t: int| 0 <= t < new.trail@.len() implies forced(
            new.db(),
            new.decs(new.level@[(#[trigger] new.trail@[t]).var.index()] as int),
            new.trail@[t],
        ) by {
            if t < p {
                assert(new.trail@[t] == self.trail@[t]);
                let j = self.trail@[t].var.index();
                assert(self.value@[j] is Some);
                assert(self.level@[j] <= self.trail_lim@.len());
            } else {
                let d = self.trail_lim@.len() as int;
                assert(new.trail@[t] == lit);
                assert forall|tau: spec_fn(int) -> bool| cnf_holds(tau, new.db()) && all_hold(tau, new.decs(d)) implies #[trigger] lit_holds(tau, lit) by {
                    assert(clause_holds(tau, self.db()[ci]));
                    let i = choose|i: int| 0 <= i < c.len() && lit_holds(tau, #[trigger] c[i]);
                    if i != u {
                        let q = c[i];
                        assert(pvalue(self.value@, q) == Some(false));
                        assert(self.value@[q.var.index()] is Some);
                        self.lemma_false_forced(q, d, tau);
                    }
                }
            }
        }
    }

    /// After propagating from the worklist's last clause, every clause off the
    /// new worklist is idle, and the lower levels are untouched.
    proof fn lemma_propagated_stage(&self, new: &Search, ci: int, u: int)
        requires
            self.inv(),
            self.stage is Propagate,
            self.dirty@.len() > 0,
            ci == self.dirty@.last(),
            unit_at(self.value@, self.db()[ci], u),
            self.assigned_to(new, self.db()[ci][u], self.trail_lim@.len() as int, Some(ci as usize), false, self.trail_lim@, self.dirty@.drop_last()),
            new.stage is Propagate,
        ensures
            new.stage_ok(),
    {
        self.lemma_inv_facts();
        assert(self.clauses@.len() == self.clauses.len());
        let c = self.db()[ci];
        let lit = c[u];
        let v = lit.var.index();
        let wl = self.dirty@.drop_last();
        assert(new.db() == self.db());
        assert forall|m: int| 0 <= m < new.dirty@.len() implies #[trigger] new.dirty@[m] < new.clauses@.len() by {
            if m < wl.len() {
                assert(new.dirty@[m] == self.dirty@[m]);
            } else {
                assert(new.dirty@[m] == self.occ@[v]@[m - wl.len()]);
            }
        }
        assert forall|j: int| 0 <= j < new.clauses@.len() && !new.dirty@.contains(j as usize) implies idle(new.value@, #[trigger] new.db()[j]) by {
            let cj = self.db()[j];
            assert forall|i: int| 0 <= i < cj.len() implies (#[trigger] cj[i]).var.index() != v by {
                if cj[i].var.index() == v {
                    assert(self.clauses@[j]@[i] == cj[i]);
                    assert(self.occ@[v]@.contains(j as usize));
                    let m = choose|m: int| 0 <= m < self.occ@[v]@.len() && self.occ@[v]@[m] == j as usize;
                    assert(new.dirty@[wl.len() + m] == j as usize);
                    assert(new.dirty@.contains(j as usize));
                }
            }
            if j == ci {
                assert(cj[u].var.index() == v);
                assert(false);
            }
            if self.dirty@.contains(j as usize) {
                let m = choose|m: int| 0 <= m < self.dirty@.len() && self.dirty@[m] == j as usize;
                if m < wl.len() {
                    assert(new.dirty@[m] == wl[m]);
                    assert(new.dirty@[m] == j as usize);
                    assert(new.dirty@.contains(j as usize));
                } else {
                    assert(self.dirty@[m] == ci);
                    assert(false);
                }
            }
            lemma_count_frame(self.value@, cj, v, Some(lit.positive));
        }
        assert forall|k: int| 0 <= k < new.trail_lim@.len() implies #[trigger] new.prefix(k) == self.prefix(k) by {
            assert(new.prefix(k) =~= self.prefix(k));
        }
        assert(new.prefixes_idle(-1));
    }
}


/// The number of `false` entries of `s`.
pub open spec fn count_false(s: Seq<bool>) -> nat
    decreases s.len(),
{
    if s.len() == 0 {
        0
    } else {
        count_false(s.drop_last()) + if s.last() {
            0nat
        } else {
            1nat
        }
    }
}

/// Marking an unmarked entry lowers the count of unmarked entries by one.
proof fn lemma_count_false_mark(s: Seq<bool>, k: int)
    requires
        0 <= k < s.len(),
        !s[k],
    ensures
        count_false(s.update(k, true)) + 1 == count_false(s),
    decreases s.len(),
{
    let u = s.update(k, true);
    if k == s.len() - 1 {
        assert(u.drop_last() =~= s.drop_last());
    } else {
        lemma_count_false_mark(s.drop_last(), k);
        assert(u.drop_last() =~= s.drop_last().update(k, true));
    }
}

/// A clause all of whose literals are assigned has no unassigned occurrence.
proof fn lemma_count_zero(vals: Seq<Option<bool>>, c: Seq<Lit>)
    requires
        forall|i: int| 0 <= i < c.len() ==> (#[trigger] pvalue(vals, c[i])) is Some,
    ensures
        unassigned_count(vals, c) == 0,
    decreases c.len(),
{
    if c.len() > 0 {
        assert forall|i: int| 0 <= i < c.drop_last().len() implies (#[trigger] pvalue(vals, c.drop_last()[i])) is Some by {
            assert(c.drop_last()[i] == c[i]);
        }
        lemma_count_zero(vals, c.drop_last());
        assert(pvalue(vals, c[c.len() - 1]) is Some);
    }
}

impl Search {
    /// Opening a new level with a fresh decision `lit` keeps the search
    /// consistent and raises the measure by the new level's weight. An
    /// assumption decision is an assumption literal; a branching decision comes
    /// only once every assumption holds.
    proof fn lemma_decided(&self, new: &Search, lit: Lit, flag: bool)
        requires
            self.inv(),
            self.stage is Propagate,
            self.dirty@.len() == 0,
            self.assigned_to(new, lit, self.trail_lim@.len() as int + 1, None, flag, self.trail_lim@.push(self.trail@.len() as usize), Seq::empty()),
            new.stage is Propagate,
            flag ==> self.assumptions@.contains(lit),
            !flag ==> forall|i: int| 0 <= i < self.assumptions@.len() ==> pvalue(self.value@, #[trigger] self.assumptions@[i]) == Some(true),
        ensures
            new.inv(),
            new.measure() == self.measure() + weight(self.n_vars as nat, self.trail_lim@.len() as int + 1),
    {
        let v = lit.var.index();
        let p = self.trail@.len() as int;
        let d = self.trail_lim@.len() as int;
        self.lemma_inv_facts();
        lemma_count_none_pos(self.value@, v);
        self.lemma_assign_common(new, lit, d + 1, None, flag, self.trail_lim@.push(self.trail@.len() as usize), Seq::empty());
        self.lemma_decided_levels(new, lit, flag);
        self.lemma_decided_assumps(new, lit, flag);
        self.lemma_decided_sound(new, lit, flag);
        self.lemma_decided_stage(new, lit, flag);
        assert(new.psum(p + 1) == new.psum(p) + weight(new.n_vars as nat, new.level@[new.trail@[p].var.index()] as int));
    }

    /// A decision records its literal at the new level, counted as a given
    /// exactly when it is one, and lifts the base level to the new level then.
    proof fn lemma_decided_records(&self, new: &Search, lit: Lit, flag: bool)
        requires
            self.inv(),
            self.assigned_to(new, lit, self.trail_lim@.len() as int + 1, None, flag, self.trail_lim@.push(self.trail@.len() as usize), Seq::empty()),
            flag ==> self.assumptions@.contains(lit),
            !flag ==> forall|i: int| 0 <= i < self.assumptions@.len() ==> pvalue(self.value@, #[trigger] self.assumptions@[i]) == Some(true),
        ensures
            new.records_decision(*self, lit),
    {
        let v = lit.var.index();
        let d = self.trail_lim@.len() as int;
        self.lemma_inv_facts();
        if !flag && self.assumptions@.contains(lit) {
            let i = choose|i: int| 0 <= i < self.assumptions@.len() && self.assumptions@[i] == lit;
            assert(pvalue(self.value@, self.assumptions@[i]) == Some(true));
        }
        assert forall|k: int| 0 <= k < self.n_vars && #[trigger] self.is_assumption@[k] implies self.level@[k] < (d + 1) as u32 by {
            assert(self.value@[k] is Some);
        }
        lemma_max_assumed_update(self.is_assumption@, self.level@, self.n_vars as int, v, flag, (d + 1) as u32);
    }

    /// Levels and reasons stay consistent when a decision opens a level.
    proof fn lemma_decided_levels(&self, new: &Search, lit: Lit, flag: bool)
        requires
            self.inv(),
            self.assigned_to(new, lit, self.trail_lim@.len() as int + 1, None, flag, self.trail_lim@.push(self.trail@.len() as usize), Seq::empty()),
        ensures
            new.levels_ok(),
            new.reasons_ok(),
    {
        let v = lit.var.index();
        let p = self.trail@.len() as int;
        let d = self.trail_lim@.len() as int;
        self.lemma_inv_facts();
        lemma_count_none_pos(self.value@, v);
        assert(self.clauses@.len() == self.clauses.len());
        assert forall|k: int| 0 <= k < new.trail_lim@.len() implies #[trigger] new.trail_lim@[k] < new.trail@.len() by {
            if k < d {
                assert(new.trail_lim@[k] == self.trail_lim@[k]);
            }
        }
        assert forall|k1: int, k2: int|
            0 <= k1 < k2 < new.trail_lim@.len() implies #[trigger] new.trail_lim@[k1] < #[trigger] new.trail_lim@[k2] by {
            assert(new.trail_lim@[k1] == self.trail_lim@[k1]);
            if k2 < d {
                assert(new.trail_lim@[k2] == self.trail_lim@[k2]);
            }
        }
        assert forall|j: int| 0 <= j < new.n_vars && (#[trigger] new.value@[j]) is Some implies {
            &&& new.level@[j] <= new.trail_lim@.len()
            &&& new.level@[j] > 0 ==> new.trail_lim@[new.level@[j] - 1] <= new.pos@[j]
            &&& new.level@[j] < new.trail_lim@.len() ==> new.pos@[j] < new.trail_lim@[new.level@[j] as int]
        } by {
            if j != v {
                assert(self.value@[j] is Some);
                if self.level@[j] > 0 {
                    assert(new.trail_lim@[self.level@[j] - 1] == self.trail_lim@[self.level@[j] - 1]);
                }
                if self.level@[j] < d {
                    assert(new.trail_lim@[self.level@[j] as int] == self.trail_lim@[self.level@[j] as int]);
                }
            }
        }
        assert forall|j: int| 0 <= j < new.n_vars && (#[trigger] new.value@[j]) is Some implies match new.reason@[j] {
            None => new.level@[j] > 0 && new.pos@[j] == new.trail_lim@[new.level@[j] - 1],
            Some(r) => {
                &&& r < new.clauses@.len()
                &&& forall|i: int|
                    0 <= i < new.clauses@[r as int]@.len() ==> {
                        let q = #[trigger] new.clauses@[r as int]@[i];
                        if q.var.index() == j {
                            q == new.trail@[new.pos@[j]]
                        } else {
                            &&& pvalue(new.value@, q) == Some(false)
                            &&& new.pos@[q.var.index()] < new.pos@[j]
                        }
                    }
            },
        } by {
            if j != v {
                assert(self.value@[j] is Some);
                match self.reason@[j] {
                    None => {
                        assert(new.trail_lim@[self.level@[j] - 1] == self.trail_lim@[self.level@[j] - 1]);
                    },
                    Some(r) => {
                        assert forall|i: int| 0 <= i < new.clauses@[r as int]@.len() implies {
                            let q = #[trigger] new.clauses@[r as int]@[i];
                            if q.var.index() == j {
                                q == new.trail@[new.pos@[j]]
                            } else {
                                &&& pvalue(new.value@, q) == Some(false)
                                &&& new.pos@[q.var.index()] < new.pos@[j]
                            }
                        } by {
                            let q = self.clauses@[r as int]@[i];
                            if q.var.index() != j {
                                assert(pvalue(self.value@, q) == Some(false));
                                assert(self.value@[q.var.index()] is Some);
                            }
                            assert(new.trail@[self.pos@[j]] == self.trail@[self.pos@[j]]);
                        }
                    },
                }
            }
        }
    }

    /// The assumption bookkeeping survives a new decision.
    proof fn lemma_decided_assumps(&self, new: &Search, lit: Lit, flag: bool)
        requires
            self.inv(),
            self.assigned_to(new, lit, self.trail_lim@.len() as int + 1, None, flag, self.trail_lim@.push(self.trail@.len() as usize), Seq::empty()),
            flag ==> self.assumptions@.contains(lit),
            !flag ==> forall|i: int| 0 <= i < self.assumptions@.len() ==> pvalue(self.value@, #[trigger] self.assumptions@[i]) == Some(true),
        ensures
            new.assumps_ok(),
    {
        let v = lit.var.index();
        let p = self.trail@.len() as int;
        let d = self.trail_lim@.len() as int;
        self.lemma_inv_facts();
        assert forall|k: int| 0 <= k < d implies new.flagged(k) == self.flagged(k) by {
            assert(self.trail_lim@[k] < self.trail@.len());
            assert(new.trail_lim@[k] == self.trail_lim@[k]);
            assert(new.trail@[new.trail_lim@[k] as int] == self.trail@[self.trail_lim@[k] as int]);
            let j = self.trail@[self.trail_lim@[k] as int].var.index();
            assert(self.value@[j] is Some);
        }
        assert(new.trail_lim@[d] == p);
        assert(new.trail@[p] == lit);
        assert(new.flagged(d) == flag);
        assert forall|j: int| 0 <= j < new.n_vars && #[trigger] new.is_assumption@[j] implies {
            &&& new.value@[j] is Some
            &&& new.reason@[j] is None
            &&& new.assumptions@.contains(value_lit(j, new.value@[j]->0))
        } by {
            if j == v {
                assert(value_lit(j, lit.positive) == lit);
            }
        }
        assert forall|k1: int, k2: int|
            0 <= k1 < k2 < new.trail_lim@.len() && #[trigger] new.flagged(k2) implies #[trigger] new.flagged(k1) by {
            if k2 == d {
                if !self.flagged(k1) {
                    let i = choose|i: int| 0 <= i < self.assumptions@.len() && self.assumptions@[i] == lit;
                    assert(pvalue(self.value@, self.assumptions@[i]) == Some(true));
                }
            }
        }
        assert forall|k: int|
            0 <= k < new.trail_lim@.len() && !#[trigger] new.flagged(k) implies forall|i: int|
                0 <= i < new.assumptions@.len() ==> {
                    &&& pvalue(new.value@, #[trigger] new.assumptions@[i]) == Some(true)
                    &&& new.pos@[new.assumptions@[i].var.index()] < new.trail_lim@[k]
                } by {
            assert forall|i: int| 0 <= i < new.assumptions@.len() implies {
                &&& pvalue(new.value@, #[trigger] new.assumptions@[i]) == Some(true)
                &&& new.pos@[new.assumptions@[i].var.index()] < new.trail_lim@[k]
            } by {
                if k < d {
                    assert(pvalue(self.value@, self.assumptions@[i]) == Some(true));
                    assert(new.trail_lim@[k] == self.trail_lim@[k]);
                } else {
                    assert(pvalue(self.value@, self.assumptions@[i]) == Some(true));
                }
                assert(self.value@[self.assumptions@[i].var.index()] is Some);
            }
        }
    }

    /// A decision follows from itself; every older trail literal keeps its
    /// support.
    proof fn lemma_decided_sound(&self, new: &Search, lit: Lit, flag: bool)
        requires
            self.inv(),
            self.assigned_to(new, lit, self.trail_lim@.len() as int + 1, None, flag, self.trail_lim@.push(self.trail@.len() as usize), Seq::empty()),
        ensures
            new.sound_ok(),
    {
        let p = self.trail@.len() as int;
        let d = self.trail_lim@.len() as int;
        self.lemma_inv_facts();
        lemma_count_none_pos(self.value@, lit.var.index());
        self.lemma_assign_common(new, lit, d + 1, None, flag, self.trail_lim@.push(self.trail@.len() as usize), Seq::empty());
        assert forall|t: int| 0 <= t < new.trail@.len() implies forced(
            new.db(),
            new.decs(new.level@[(#[trigger] new.trail@[t]).var.index()] as int),
            new.trail@[t],
        ) by {
            if t < p {
                assert(new.trail@[t] == self.trail@[t]);
                let j = self.trail@[t].var.index();
                assert(self.value@[j] is Some);
                assert(self.level@[j] <= self.trail_lim@.len());
            } else {
                assert(new.trail@[t] == lit);
                assert(new.decs(d + 1)[d] == lit);
            }
        }
    }

    /// After a decision every clause off the new worklist is idle, and the
    /// level just closed was a fixpoint.
    proof fn lemma_decided_stage(&self, new: &Search, lit: Lit, flag: bool)
        requires
            self.inv(),
            self.stage is Propagate,
            self.dirty@.len() == 0,
            self.assigned_to(new, lit, self.trail_lim@.len() as int + 1, None, flag, self.trail_lim@.push(self.trail@.len() as usize), Seq::empty()),
            new.stage is Propagate,
        ensures
            new.stage_ok(),
    {
        let v = lit.var.index();
        let d = self.trail_lim@.len() as int;
        self.lemma_inv_facts();
        lemma_count_none_pos(self.value@, v);
        assert(self.clauses@.len() == self.clauses.len());
        assert(new.db() == self.db());
        assert(new.dirty@ =~= self.occ@[v]@);
        assert forall|j: int| 0 <= j < new.clauses@.len() && !new.dirty@.contains(j as usize) implies idle(new.value@, #[trigger] new.db()[j]) by {
            let cj = self.db()[j];
            assert forall|i: int| 0 <= i < cj.len() implies (#[trigger] cj[i]).var.index() != v by {
                if cj[i].var.index() == v {
                    assert(self.clauses@[j]@[i] == cj[i]);
                    assert(self.occ@[v]@.contains(j as usize));
                }
            }
            assert(!self.dirty@.contains(j as usize));
            lemma_count_frame(self.value@, cj, v, Some(lit.positive));
        }
        assert forall|k: int| 0 <= k < d implies #[trigger] new.prefix(k) == self.prefix(k) by {
            assert(new.prefix(k) =~= self.prefix(k));
        }
        assert(new.prefix(d) =~= self.value@);
        assert forall|k: int, j: int|
            0 <= k < new.trail_lim@.len() && 0 <= j < new.clauses@.len() && j != -1 implies idle(#[trigger] new.prefix(k), #[trigger] new.db()[j]) by {
            if k == d {
                assert(!self.dirty@.contains(j as usize));
            } else {
                assert(new.prefix(k) == self.prefix(k));
            }
        }
    }

    /// With the worklist empty and every variable assigned, the values satisfy
    /// every clause.
    proof fn lemma_complete_model(&self)
        requires
            self.inv(),
            self.stage is Propagate,
            self.dirty@.len() == 0,
            forall|j: int| 0 <= j < self.n_vars ==> (#[trigger] self.value@[j]) is Some,
        ensures
            model_satisfies(self.value@, self.db()),
    {
        assert forall|j: int| 0 <= j < self.db().len() implies clause_true_in(self.value@, #[trigger] self.db()[j]) by {
            let c = self.db()[j];
            assert(!self.dirty@.contains(j as usize));
            assert(idle(self.value@, c));
            assert(lits_below(c, self.n_vars as int));
            assert forall|i: int| 0 <= i < c.len() implies (#[trigger] pvalue(self.value@, c[i])) is Some by {
                assert(self.value@[c[i].var.index()] is Some);
            }
            lemma_count_zero(self.value@, c);
        }
    }

    /// An assumption made false shows that no total assignment satisfies the
    /// rules together with the assumptions: every decision on the trail is then
    /// an assumption literal.
    proof fn lemma_failed_assumption(&self, a: int)
        requires
            self.inv(),
            0 <= a < self.assumptions@.len(),
            pvalue(self.value@, self.assumptions@[a]) == Some(false),
        ensures
            !satisfiable_under(self.rules(), self.assumptions@),
            self.all_flagged(),
    {
        self.lemma_inv_facts();
        let lit = self.assumptions@[a];
        let j = lit.var.index();
        let d = self.trail_lim@.len() as int;
        assert forall|k: int| 0 <= k < d implies #[trigger] self.flagged(k) by {
            if !self.flagged(k) {
                assert(pvalue(self.value@, self.assumptions@[a]) == Some(true));
            }
        }
        assert forall|k: int| 0 <= k < d implies self.assumptions@.contains(#[trigger] self.decs(d)[k]) by {
            assert(self.flagged(k));
            assert(self.trail_lim@[k] < self.trail@.len());
            let t = self.trail_lim@[k] as int;
            let jj = self.trail@[t].var.index();
            assert(self.value@[jj] == Some(self.trail@[t].positive));
            assert(value_lit(jj, self.value@[jj]->0) == self.trail@[t]);
        }
        if satisfiable_under(self.rules(), self.assumptions@) {
            let tau = choose|tau: spec_fn(int) -> bool| cnf_holds(tau, self.rules()) && all_hold(tau, self.assumptions@);
            assert(cnf_holds(tau, self.db())) by {
                assert forall|jj: int| 0 <= jj < self.db().len() implies clause_holds(tau, #[trigger] self.db()[jj]) by {
                    assert(entails(self.rules(), self.db()[jj]));
                }
            }
            assert(all_hold(tau, self.decs(d))) by {
                assert forall|k: int| 0 <= k < self.decs(d).len() implies lit_holds(tau, #[trigger] self.decs(d)[k]) by {
                    assert(self.assumptions@.contains(self.decs(d)[k]));
                    let i = choose|i: int| 0 <= i < self.assumptions@.len() && self.assumptions@[i] == self.decs(d)[k];
                    assert(lit_holds(tau, self.assumptions@[i]));
                }
            }
            assert(self.value@[j] is Some);
            self.lemma_false_forced(lit, d, tau);
            assert(lit_holds(tau, self.assumptions@[a]));
        }
    }
}


impl Search {
    /// The literal variable `j` currently makes true.
    closed spec fn lit_of(&self, j: int) -> Lit {
        value_lit(j, self.value@[j]->0)
    }

    /// Every decision on the trail is an assumption.
    closed spec fn all_flagged(&self) -> bool {
        forall|k: int| 0 <= k < self.trail_lim@.len() ==> #[trigger] self.flagged(k)
    }

    /// Variable `v` has been traced: an assumption decision sits in `core`, and a
    /// propagated variable has every other variable of its reason in `seen`.
    closed spec fn traced(&self, seen: Seq<bool>, core: Seq<Lit>, v: int) -> bool {
        if self.is_assumption@[v] {
            core.contains(self.lit_of(v))
        } else {
            self.reason@[v] matches Some(r) ==> forall|i: int|
                0 <= i < self.db()[r as int].len() ==> {
                    let q = #[trigger] self.db()[r as int][i];
                    q.var.index() != v && self.value@[q.var.index()] is Some ==> seen[q.var.index()]
                }
        }
    }

    /// When every decision is an assumption, a traced set of assigned variables
    /// has each of its literals forced by the database together with `core`.
    proof fn lemma_traced_forced(&self, seen: Seq<bool>, core: Seq<Lit>, j: int)
        requires
            self.inv(),
            self.all_flagged(),
            seen.len() == self.n_vars,
            0 <= j < self.n_vars,
            seen[j],
            forall|v: int|
                0 <= v < self.n_vars && #[trigger] seen[v] ==> self.value@[v] is Some && self.traced(seen, core, v),
        ensures
            forced(self.db(), core, self.lit_of(j)),
        decreases self.pos@[j],
    {
        self.lemma_inv_facts();
        assert(self.value@[j] is Some);
        let l = self.lit_of(j);
        if self.is_assumption@[j] {
            assert(core.contains(l));
            assert forall|tau: spec_fn(int) -> bool| cnf_holds(tau, self.db()) && all_hold(tau, core) implies #[trigger] lit_holds(tau, l) by {
                let i = choose|i: int| 0 <= i < core.len() && core[i] == l;
            }
        } else {
            match self.reason@[j] {
                None => {
                    let lv = self.level@[j] as int;
                    assert(lv > 0 && self.pos@[j] == self.trail_lim@[lv - 1]);
                    assert(self.flagged(lv - 1));
                    assert(self.trail@[self.pos@[j] as int].var.index() == j);
                },
                Some(r) => {
                    let c = self.db()[r as int];
                    assert(r < self.clauses@.len());
                    assert forall|tau: spec_fn(int) -> bool| cnf_holds(tau, self.db()) && all_hold(tau, core) implies #[trigger] lit_holds(tau, l) by {
                        assert(clause_holds(tau, c));
                        let i = choose|i: int| 0 <= i < c.len() && lit_holds(tau, #[trigger] c[i]);
                        let q = c[i];
                        assert(q == self.clauses@[r as int]@[i]);
                        if q.var.index() == j {
                            let t = self.trail@[self.pos@[j] as int];
                            assert(q == t);
                            assert(t.var.index() == j);
                            assert(self.value@[j] == Some(t.positive));
                            assert(l == value_lit(j, t.positive));
                            assert(t.var == var_at(j));
                        } else {
                            let w = q.var.index();
                            assert(pvalue(self.value@, q) == Some(false));
                            assert(self.pos@[w] < self.pos@[j]);
                            assert(self.value@[w] is Some);
                            assert(seen[w]);
                            self.lemma_traced_forced(seen, core, w);
                            assert(lit_holds(tau, self.lit_of(w)));
                            assert(self.lit_of(w) == q.neg()) by {
                                assert(self.value@[w] == Some(!q.positive));
                                assert(q.var == var_at(w));
                            }
                        }
                    }
                },
            }
        }
    }
}

impl Search {
    /// Trace the reason graph from `seeds` back to the assumption decisions
    /// that entail them: an UNSAT core over the assumptions.
    ///
    /// It follows the reasons of the variables still assigned. When every
    /// decision on the trail is an assumption, each assigned seed's literal
    /// follows from the clause database together with the core.
    fn analyze_final(&self, seeds: &[Lit]) -> (core: Vec<Lit>)
        requires
            self.inv(),
            lits_below(seeds@, self.n_vars as int),
        ensures
            forall|i: int| 0 <= i < core@.len() ==> self.assumptions@.contains(#[trigger] core@[i]),
            forall|i: int|
                0 <= i < core@.len() ==> {
                    &&& (#[trigger] core@[i]).var.index() < self.n_vars
                    &&& self.value@[core@[i].var.index()] is Some
                    &&& core@[i] == self.lit_of(core@[i].var.index())
                },
            self.all_flagged() ==> forall|s: int|
                0 <= s < seeds@.len() && self.value@[(#[trigger] seeds@[s]).var.index()] is Some ==> forced(
                    self.db(),
                    core@,
                    self.lit_of(seeds@[s].var.index()),
                ),
    {
        proof {
            self.lemma_inv_facts();
        }
        let mut seen: Vec<bool> = Vec::new();
        let mut k: usize = 0;
        while k < self.n_vars
            invariant
                k <= self.n_vars,
                seen@.len() == k,
                forall|v: int| 0 <= v < k ==> !(#[trigger] seen@[v]),
            decreases self.n_vars - k,
        {
            seen.push(false);
            k = k + 1;
        }
        let mut stack: Vec<usize> = Vec::new();
        let mut s: usize = 0;
        while s < seeds.len()
            invariant
                self.inv(),
                lits_below(seeds@, self.n_vars as int),
                s <= seeds@.len(),
                seen@.len() == self.n_vars,
                forall|m: int| 0 <= m < stack@.len() ==> #[trigger] stack@[m] < self.n_vars,
                forall|v: int| 0 <= v < self.n_vars && #[trigger] seen@[v] ==> self.value@[v] is Some && stack@.contains(v as usize),
                forall|t: int|
                    0 <= t < s && self.value@[(#[trigger] seeds@[t]).var.index()] is Some ==> seen@[seeds@[t].var.index()],
            decreases seeds@.len() - s,
        {
            let i = seeds[s].var().idx();
            if self.value[i].is_some() && !seen[i] {
                let ghost st0 = stack@;
                seen.set(i, true);
                stack.push(i);
                proof {
                    assert forall|v: int| 0 <= v < self.n_vars && #[trigger] seen@[v] implies stack@.contains(v as usize) by {
                        if v != i {
                            let m = choose|m: int| 0 <= m < st0.len() && st0[m] == v as usize;
                            assert(stack@[m] == v as usize);
                        } else {
                            assert(stack@[st0.len() as int] == i);
                        }
                    }
                }
            }
            s = s + 1;
        }
        let mut core: Vec<Lit> = Vec::new();
        while stack.len() > 0
            invariant
                self.inv(),
                lits_below(seeds@, self.n_vars as int),
                seen@.len() == self.n_vars,
                forall|m: int| 0 <= m < stack@.len() ==> #[trigger] stack@[m] < self.n_vars,
                forall|m: int| 0 <= m < core@.len() ==> self.assumptions@.contains(#[trigger] core@[m]),
                forall|m: int|
                    0 <= m < core@.len() ==> {
                        &&& (#[trigger] core@[m]).var.index() < self.n_vars
                        &&& self.value@[core@[m].var.index()] is Some
                        &&& core@[m] == self.lit_of(core@[m].var.index())
                    },
                forall|v: int| 0 <= v < self.n_vars && #[trigger] seen@[v] ==> self.value@[v] is Some,
                forall|v: int|
                    0 <= v < self.n_vars && #[trigger] seen@[v] && !stack@.contains(v as usize) ==> self.traced(
                        seen@,
                        core@,
                        v,
                    ),
                forall|t: int|
                    0 <= t < seeds@.len() && self.value@[(#[trigger] seeds@[t]).var.index()] is Some ==> seen@[seeds@[t].var.index()],
            decreases count_false(seen@), stack@.len(),
        {
            let ghost count0 = count_false(seen@);
            let ghost len0 = stack@.len();
            let ghost st0 = stack@;
            let ghost seen0 = seen@;
            let ghost core0 = core@;
            let i = stack.pop().unwrap();
            assert(i < self.n_vars);
            assert(st0 == stack@.push(i));
            if self.is_assumption[i] {
                match self.value[i] {
                    Some(b) => {
                        let v = var_of(i);
                        let l = if b {
                            v.pos_lit()
                        } else {
                            v.neg_lit()
                        };
                        assert(l == value_lit(i as int, b));
                        proof {
                            assert(self.value@[i as int] is Some);
                            assert(self.assumptions@.contains(value_lit(i as int, self.value@[i as int]->0)));
                        }
                        core.push(l);
                        proof {
                            assert(core@[core0.len() as int] == l);
                            assert(l == self.lit_of(i as int));
                            assert forall|v: int|
                                0 <= v < self.n_vars && #[trigger] seen@[v] && !stack@.contains(v as usize) implies self.traced(
                                seen@,
                                core@,
                                v,
                            ) by {
                                if v == i {
                                    assert(core@.contains(l));
                                } else {
                                    if st0.contains(v as usize) {
                                        let m = choose|m: int| 0 <= m < st0.len() && st0[m] == v as usize;
                                        if m < stack@.len() {
                                            assert(stack@[m] == v as usize);
                                        }
                                    }
                                    assert(self.traced(seen0, core0, v));
                                    if self.is_assumption@[v] {
                                        let m = choose|m: int| 0 <= m < core0.len() && core0[m] == self.lit_of(v);
                                        assert(core@[m] == self.lit_of(v));
                                    }
                                }
                            }
                        }
                    },
                    None => {},
                }
            } else {
                match self.reason[i] {
                    Some(cref) => {
                        if self.value[i].is_some() {
                            assert(cref < self.clauses@.len());
                            let c = &self.clauses[cref];
                            assert(lits_below(self.db()[cref as int], self.n_vars as int));
                            assert(c@ == self.db()[cref as int]);
                            let mut q: usize = 0;
                            let ghost pushed: nat = 0;
                            while q < c.len()
                                invariant
                                    self.inv(),
                                    c@ == self.db()[cref as int],
                                    self.reason@[i as int] == Some(cref),
                                    !self.is_assumption@[i as int],
                                    i < self.n_vars,
                                    lits_below(c@, self.n_vars as int),
                                    q <= c@.len(),
                                    seen@.len() == self.n_vars,
                                    forall|m: int| 0 <= m < stack@.len() ==> #[trigger] stack@[m] < self.n_vars,
                                    stack@.len() + 1 == len0 + pushed,
                                    len0 == st0.len(),
                                    count_false(seen@) + pushed == count0,
                                    core@ == core0,
                                    forall|m: int| 0 <= m < st0.len() - 1 ==> stack@[m] == #[trigger] st0[m],
                                    forall|v: int| 0 <= v < self.n_vars && #[trigger] seen0[v] ==> seen@[v],
                                    forall|v: int|
                                        0 <= v < self.n_vars && #[trigger] seen@[v] ==> self.value@[v] is Some,
                                    forall|v: int|
                                        0 <= v < self.n_vars && #[trigger] seen@[v] && !seen0[v] ==> stack@.contains(v as usize),
                                    forall|p: int|
                                        0 <= p < q ==> {
                                            let w = (#[trigger] c@[p]).var.index();
                                            w != i && self.value@[w] is Some ==> seen@[w]
                                        },
                                decreases c@.len() - q,
                            {
                                let j = c[q].var().idx();
                                if j != i && self.value[j].is_some() && !seen[j] {
                                    proof {
                                        lemma_count_false_mark(seen@, j as int);
                                        pushed = pushed + 1;
                                    }
                                    let ghost stb = stack@;
                                    seen.set(j, true);
                                    stack.push(j);
                                    proof {
                                        assert(stack@ == stb.push(j));
                                        assert forall|m: int| 0 <= m < st0.len() - 1 implies stack@[m] == #[trigger] st0[m] by {
                                            assert(stack@[m] == stb[m]);
                                        }
                                        assert forall|v: int|
                                            0 <= v < self.n_vars && #[trigger] seen@[v] && !seen0[v] implies stack@.contains(
                                            v as usize,
                                        ) by {
                                            if v == j {
                                                assert(stack@[stb.len() as int] == j);
                                            } else {
                                                let m = choose|m: int| 0 <= m < stb.len() && stb[m] == v as usize;
                                                assert(stack@[m] == v as usize);
                                            }
                                        }
                                    }
                                }
                                q = q + 1;
                            }
                            proof {
                                assert forall|v: int|
                                    0 <= v < self.n_vars && #[trigger] seen@[v] && !stack@.contains(v as usize) implies self.traced(
                                    seen@,
                                    core@,
                                    v,
                                ) by {
                                    if v == i {
                                    } else {
                                        assert(seen0[v]);
                                        if st0.contains(v as usize) {
                                            let m = choose|m: int| 0 <= m < st0.len() && st0[m] == v as usize;
                                            if m < st0.len() - 1 {
                                                assert(stack@[m] == v as usize);
                                            }
                                        }
                                        assert(self.traced(seen0, core0, v));
                                    }
                                }
                            }
                        }
                    },
                    None => {},
                }
            }
            proof {
                assert forall|v: int|
                    0 <= v < self.n_vars && #[trigger] seen@[v] && !stack@.contains(v as usize) implies self.traced(
                    seen@,
                    core@,
                    v,
                ) by {
                    if seen@ == seen0 && core@ == core0 {
                        if v != i {
                            if st0.contains(v as usize) {
                                let m = choose|m: int| 0 <= m < st0.len() && st0[m] == v as usize;
                                if m < st0.len() - 1 {
                                    assert(stack@[m] == v as usize);
                                }
                            }
                        }
                    }
                }
            }
        }
        proof {
            if self.all_flagged() {
                assert forall|t: int|
                    0 <= t < seeds@.len() && self.value@[(#[trigger] seeds@[t]).var.index()] is Some implies forced(
                    self.db(),
                    core@,
                    self.lit_of(seeds@[t].var.index()),
                ) by {
                    assert(seeds@[t].var.index() < self.n_vars);
                    self.lemma_traced_forced(seen@, core@, seeds@[t].var.index());
                }
            }
        }
        core
    }

    /// The assumptions responsible for the failed assumption `a` (made false by
    /// earlier ones), together with `a` itself.
    fn core_for_failed_assumption(&self, a: Lit) -> (core: Vec<Lit>)
        requires
            self.inv(),
            self.all_flagged(),
            self.assumptions@.contains(a),
            pvalue(self.value@, a) == Some(false),
        ensures
            forall|i: int| 0 <= i < core@.len() ==> self.assumptions@.contains(#[trigger] core@[i]),
            core_refutes(self.rules(), self.assumptions@, core@),
    {
        let mut seeds: Vec<Lit> = Vec::new();
        seeds.push(a);
        proof {
            self.lemma_inv_facts();
            let i = choose|i: int| 0 <= i < self.assumptions@.len() && self.assumptions@[i] == a;
            assert(lits_below(self.assumptions@, self.n_vars as int));
            assert(a.var.index() < self.n_vars);
            assert(seeds@[0] == a);
        }
        let mut core = self.analyze_final(seeds.as_slice());
        let ghost core0 = core@;
        let ghost j = a.var.index();
        proof {
            assert(self.value@[j] is Some);
            assert(forced(self.db(), core0, self.lit_of(j)));
            assert(self.lit_of(j) == a.neg()) by {
                assert(self.value@[j] == Some(!a.positive));
                assert(a.var == var_at(j));
            }
        }
        let mut found = false;
        let mut k: usize = 0;
        while k < core.len()
            invariant
                k <= core@.len(),
                core@ == core0,
                forall|i: int| 0 <= i < core@.len() ==> self.assumptions@.contains(#[trigger] core@[i]),
                found ==> exists|m: int| 0 <= m < core0.len() && (#[trigger] core0[m]).var == a.var,
                !found ==> forall|m: int| 0 <= m < k ==> (#[trigger] core0[m]).var != a.var,
            decreases core@.len() - k,
        {
            if core[k].var() == a.var() {
                found = true;
            }
            k = k + 1;
        }
        if !found {
            core.push(a);
            proof {
                assert(core@ == core0.push(a));
                if satisfiable_under(self.rules(), core@) {
                    let tau = choose|tau: spec_fn(int) -> bool| cnf_holds(tau, self.rules()) && all_hold(tau, core@);
                    assert(cnf_holds(tau, self.db())) by {
                        assert forall|jj: int| 0 <= jj < self.db().len() implies clause_holds(tau, #[trigger] self.db()[jj]) by {
                            assert(entails(self.rules(), self.db()[jj]));
                        }
                    }
                    assert(all_hold(tau, core0)) by {
                        assert forall|m: int| 0 <= m < core0.len() implies lit_holds(tau, #[trigger] core0[m]) by {
                            assert(core@[m] == core0[m]);
                        }
                    }
                    assert(lit_holds(tau, a.neg()));
                    assert(lit_holds(tau, core@[core0.len() as int]));
                }
            }
        } else {
            proof {
                let m = choose|m: int| 0 <= m < core0.len() && (#[trigger] core0[m]).var == a.var;
                assert(core0[m] == self.lit_of(core0[m].var.index()));
                assert(core0[m].var.index() == j);
                assert(core0[m] == a.neg());
                assert(core0[m].neg() == a);
            }
        }
        core
    }
}


impl Search {
    /// A SAT verdict's promise: the values satisfy every rule and make every
    /// assumption true.
    pub open spec fn sat_facts(&self) -> bool {
        &&& model_satisfies(self.vals(), self.rules())
        &&& forall|i: int| 0 <= i < self.given().len() ==> pvalue(self.vals(), #[trigger] self.given()[i]) == Some(true)
    }

    /// An UNSAT verdict's promise: `core` is drawn from the assumptions, no total
    /// assignment satisfies the rules together with the assumptions, and the
    /// core refutes on its own (or names a given whose negation is also given).
    pub open spec fn unsat_facts(&self, core: Seq<Lit>) -> bool {
        &&& forall|i: int| 0 <= i < core.len() ==> self.given().contains(#[trigger] core[i])
        &&& !satisfiable_under(self.rules(), self.given())
        &&& core_refutes(self.rules(), self.given(), core)
    }

    /// Rank of the stage, used with the measure to show that [`Search::run`]
    /// terminates.
    pub closed spec fn rank(&self) -> int {
        match self.stage {
            Stage::Propagate => 2,
            Stage::Analyze(_) => 1,
            Stage::Backtrack { .. } => 0,
            Stage::Done(_) => 3,
        }
    }

    /// The search is about to propagate the asserting literal of a freshly
    /// learned clause: the worklist holds just that clause, and it is unit.
    pub closed spec fn asserting(&self) -> bool {
        &&& self.stage is Propagate
        &&& self.dirty@.len() == 1
        &&& self.dirty@[0] < self.clauses@.len()
        &&& unit_at(self.value@, self.db()[self.dirty@[0] as int], 0)
    }

    /// Changing only the stage and the worklist keeps every part of the
    /// invariant but the stage's own.
    proof fn lemma_frame(&self, new: &Search)
        requires
            self.inv(),
            new.clauses == self.clauses,
            new.n_rules == self.n_rules,
            new.occ == self.occ,
            new.n_vars == self.n_vars,
            new.value == self.value,
            new.level == self.level,
            new.reason == self.reason,
            new.is_assumption == self.is_assumption,
            new.trail == self.trail,
            new.trail_lim == self.trail_lim,
            new.assumptions == self.assumptions,
            new.pos == self.pos,
        ensures
            new.shapes_ok(),
            new.trail_ok(),
            new.levels_ok(),
            new.reasons_ok(),
            new.assumps_ok(),
            new.sound_ok(),
            new.db() == self.db(),
            new.rules() == self.rules(),
            new.measure() == self.measure(),
            forall|k: int| #[trigger] new.prefix(k) == self.prefix(k),
    {
        assert forall|k: int| #[trigger] new.flagged(k) == self.flagged(k) by {}
        assert forall|m: int| #[trigger] new.decs(m) == self.decs(m) by {
            assert(new.decs(m) =~= self.decs(m));
        }
        assert forall|k: int| #[trigger] new.prefix(k) == self.prefix(k) by {
            assert(new.prefix(k) =~= self.prefix(k));
        }
        self.lemma_psum_agree(new, self.trail@.len() as int);
    }

    /// A model of the database satisfies the rules.
    proof fn lemma_db_model(&self, vals: Seq<Option<bool>>)
        requires
            self.n_rules <= self.clauses@.len(),
            model_satisfies(vals, self.db()),
        ensures
            model_satisfies(vals, self.rules()),
    {
        assert forall|j: int| 0 <= j < self.rules().len() implies clause_true_in(vals, #[trigger] self.rules()[j]) by {
            assert(self.rules()[j] == self.db()[j]);
        }
    }

    /// Propagation reached a fixpoint: place the next assumption, branch on a
    /// free variable, or declare SAT.
    fn decide(&mut self) -> (ev: Event)
        requires
            old(self).inv(),
            old(self).stage is Propagate,
            old(self).dirty@.len() == 0,
        ensures
            final(self).inv(),
            final(self).db() == old(self).db(),
            final(self).rules() == old(self).rules(),
            final(self).given() == old(self).given(),
            final(self).n() == old(self).n(),
            match ev {
                Event::Decide { lit } => {
                    &&& final(self).trail_spec() == old(self).trail_spec().push(lit)
                    &&& final(self).dl() == old(self).dl() + 1
                    &&& final(self).stage is Propagate
                    &&& final(self).measure() == old(self).measure() + weight(old(self).n(), old(self).dl() as int + 1)
                    &&& next_decision(old(self).vals(), old(self).given(), lit)
                    &&& final(self).records_decision(*old(self), lit)
                    &&& is_fixpoint(old(self).vals(), old(self).db())
                },
                Event::Sat => {
                    &&& final(self).done()
                    &&& final(self).sat_facts()
                    &&& final(self).vals() == old(self).vals()
                    &&& final(self).dl() == old(self).dl()
                    &&& final(self).verdict() == Some(None::<Seq<Lit>>)
                    &&& forall|j: int| 0 <= j < final(self).n() ==> (#[trigger] final(self).vals()[j]) is Some
                },
                Event::Unsat { core } => {
                    &&& final(self).done()
                    &&& final(self).unsat_facts(core@)
                    &&& final(self).dl() == old(self).dl()
                    &&& final(self).verdict() == Some(Some(core@))
                },
                _ => false,
            },
    {
        proof {
            self.lemma_inv_facts();
            assert forall|j: int| 0 <= j < self.db().len() implies idle(self.vals(), #[trigger] self.db()[j]) by {
                assert(!self.dirty@.contains(j as usize));
            }
        }
        let mut idx: usize = 0;
        while idx < self.assumptions.len()
            invariant
                *self == *old(self),
                self.inv(),
                self.stage is Propagate,
                self.dirty@.len() == 0,
                idx <= self.assumptions@.len(),
                forall|i: int| 0 <= i < idx ==> pvalue(self.value@, #[trigger] self.assumptions@[i]) == Some(true),
            decreases self.assumptions@.len() - idx,
        {
            let a = self.assumptions[idx];
            proof {
                assert(lits_below(self.assumptions@, self.n_vars as int));
            }
            match self.lit_value(a) {
                Some(true) => {},
                Some(false) => {
                    proof {
                        self.lemma_failed_assumption(idx as int);
                    }
                    let core = self.core_for_failed_assumption(a);
                    let kept = copy_lits(&core);
                    let ghost s0 = *self;
                    self.stage = Stage::Done(Final::Unsat(kept));
                    proof {
                        s0.lemma_frame(self);
                        assert forall|i: int| 0 <= i < kept@.len() implies self.assumptions@.contains(#[trigger] kept@[i]) by {
                            assert(kept@[i] == core@[i]);
                        }
                        assert(kept@ == core@);
                        assert(core_refutes(self.rules(), self.assumptions@, kept@));
                        assert(self.stage_ok());
                    }
                    return Event::Unsat { core };
                },
                None => {
                    let ghost s0 = *self;
                    proof {
                        self.lemma_inv_facts();
                        lemma_count_none_pos(self.value@, a.var.index());
                        assert(old(self).given()[idx as int] == a);
                        assert(next_decision(old(self).vals(), old(self).given(), a));
                    }
                    self.trail_lim.push(self.trail.len());
                    self.assign(a, None, true);
                    proof {
                        assert(self.assumptions@[idx as int] == a);
                        s0.lemma_decided(self, a, true);
                        s0.lemma_decided_records(self, a, true);
                    }
                    return Event::Decide { lit: a };
                },
            }
            idx = idx + 1;
        }
        match self.pick_branch() {
            Some(lit) => {
                let ghost s0 = *self;
                proof {
                    lemma_count_none_pos(self.value@, lit.var.index());
                    assert(next_decision(old(self).vals(), old(self).given(), lit));
                }
                self.trail_lim.push(self.trail.len());
                self.assign(lit, None, false);
                proof {
                    s0.lemma_decided(self, lit, false);
                    s0.lemma_decided_records(self, lit, false);
                }
                Event::Decide { lit }
            },
            None => {
                proof {
                    self.lemma_complete_model();
                    self.lemma_db_model(self.value@);
                }
                let ghost s0 = *self;
                self.stage = Stage::Done(Final::Sat);
                proof {
                    assert(self.stage_ok());
                    s0.lemma_frame(self);
                }
                Event::Sat
            },
        }
    }
}


impl Search {
    /// Drain the worklist until a clause turns out unit or conflicting; on a
    /// fixpoint, decide.
    fn step_propagate(&mut self) -> (ev: Event)
        requires
            old(self).inv(),
            old(self).stage is Propagate,
        ensures
            final(self).inv(),
            final(self).db() == old(self).db(),
            final(self).rules() == old(self).rules(),
            final(self).given() == old(self).given(),
            final(self).n() == old(self).n(),
            old(self).asserting() ==> ev is Propagate,
            match ev {
                Event::Propagate { lit, reason } => {
                    &&& final(self).trail_spec() == old(self).trail_spec().push(lit)
                    &&& final(self).dl() == old(self).dl()
                    &&& final(self).stage is Propagate
                    &&& final(self).measure() == old(self).measure() + weight(old(self).n(), old(self).dl() as int)
                    &&& reason < old(self).db().len()
                    &&& exists|u: int| unit_at(old(self).vals(), old(self).db()[reason as int], u) && old(self).db()[reason as int][u] == lit
                },
                Event::Decide { lit } => {
                    &&& final(self).trail_spec() == old(self).trail_spec().push(lit)
                    &&& final(self).dl() == old(self).dl() + 1
                    &&& final(self).stage is Propagate
                    &&& final(self).measure() == old(self).measure() + weight(old(self).n(), old(self).dl() as int + 1)
                    &&& next_decision(old(self).vals(), old(self).given(), lit)
                    &&& final(self).records_decision(*old(self), lit)
                    &&& is_fixpoint(old(self).vals(), old(self).db())
                },
                Event::Conflict { clause } => {
                    &&& final(self).trail_spec() == old(self).trail_spec()
                    &&& final(self).vals() == old(self).vals()
                    &&& final(self).dl() == old(self).dl()
                    &&& final(self).stage is Analyze
                    &&& final(self).measure() == old(self).measure()
                    &&& clause < final(self).db().len()
                    &&& all_false(final(self).vals(), final(self).db()[clause as int])
                },
                Event::Sat => {
                    &&& final(self).done()
                    &&& final(self).sat_facts()
                    &&& final(self).dl() == old(self).dl()
                    &&& final(self).verdict() == Some(None::<Seq<Lit>>)
                    &&& forall|j: int| 0 <= j < final(self).n() ==> (#[trigger] final(self).vals()[j]) is Some
                },
                Event::Unsat { core } => {
                    &&& final(self).done()
                    &&& final(self).unsat_facts(core@)
                    &&& final(self).dl() == old(self).dl()
                    &&& final(self).verdict() == Some(Some(core@))
                },
                _ => false,
            },
    {
        proof {
            if old(self).asserting() {
                let c = self.db()[self.dirty@[0] as int];
                lemma_count_all_false(self.value@, c, 0);
                lemma_count_has(self.value@, c, 0);
                assert(!clause_true_in(self.value@, c)) by {
                    if clause_true_in(self.value@, c) {
                        let i = choose|i: int| 0 <= i < c.len() && #[trigger] pvalue(self.value@, c[i]) == Some(true);
                    }
                }
            }
        }
        while self.dirty.len() > 0
            invariant
                old(self).inv(),
                self.inv(),
                self.stage is Propagate,
                self.clauses == old(self).clauses,
                self.n_rules == old(self).n_rules,
                self.occ == old(self).occ,
                self.n_vars == old(self).n_vars,
                self.value == old(self).value,
                self.level == old(self).level,
                self.reason == old(self).reason,
                self.is_assumption == old(self).is_assumption,
                self.trail == old(self).trail,
                self.trail_lim == old(self).trail_lim,
                self.assumptions == old(self).assumptions,
                self.pos == old(self).pos,
                old(self).asserting() ==> self.dirty@ == old(self).dirty@,
                old(self).asserting() ==> unassigned_count(self.value@, self.db()[self.dirty@[0] as int]) == 1,
                old(self).asserting() ==> !clause_true_in(self.value@, self.db()[self.dirty@[0] as int]),
            decreases self.dirty@.len(),
        {
            proof {
                self.lemma_inv_facts();
                assert(self.clauses@.len() == self.clauses.len());
            }
            let ghost s0 = *self;
            let ci = self.dirty.pop().unwrap();
            proof {
                assert(s0.dirty@ == self.dirty@.push(ci));
                assert(lits_below(self.db()[ci as int], self.n_vars as int));
            }
            match examine(&self.clauses[ci], &self.value) {
                ClauseStatus::Idle => {
                    proof {
                        assert(!old(self).asserting());
                        assert forall|j: int| 0 <= j < self.clauses@.len() && !self.dirty@.contains(j as usize) implies idle(self.value@, #[trigger] self.db()[j]) by {
                            if j != ci {
                                if s0.dirty@.contains(j as usize) {
                                    let m = choose|m: int| 0 <= m < s0.dirty@.len() && s0.dirty@[m] == j as usize;
                                    if m < self.dirty@.len() {
                                        assert(self.dirty@[m] == j as usize);
                                        assert(self.dirty@.contains(j as usize));
                                    }
                                }
                            }
                        }
                        s0.lemma_frame(self);
                        assert forall|m: int| 0 <= m < self.dirty@.len() implies #[trigger] self.dirty@[m] < self.clauses@.len() by {
                            assert(self.dirty@[m] == s0.dirty@[m]);
                        }
                        assert(self.stage_ok());
                    }
                },
                ClauseStatus::Conflict => {
                    proof {
                        assert(!old(self).asserting());
                        lemma_zero_unassigned(self.value@, self.db()[ci as int]);
                    }
                    self.stage = Stage::Analyze(ci);
                    proof {
                        s0.lemma_frame(self);
                        old(self).lemma_frame(self);
                        assert(self.stage_ok());
                    }
                    return Event::Conflict { clause: ci };
                },
                ClauseStatus::Unit(lit) => {
                    let ghost u: int = choose|u: int|
                        0 <= u < self.db()[ci as int].len() && self.db()[ci as int][u] == lit && pvalue(self.value@, self.db()[ci as int][u]) is None;
                    proof {
                        lemma_one_unassigned(self.value@, self.db()[ci as int], u);
                        assert(unit_at(s0.value@, s0.db()[ci as int], u));
                    }
                    self.assign(lit, Some(ci), false);
                    proof {
                        s0.lemma_propagated(self, ci as int, u);
                        old(self).lemma_frame(&s0);
                        assert(unit_at(old(self).vals(), old(self).db()[ci as int], u) && old(self).db()[ci as int][u] == lit);
                    }
                    return Event::Propagate { lit, reason: ci };
                },
            }
        }
        proof {
            assert(!old(self).asserting());
            old(self).lemma_frame(self);
        }
        self.decide()
    }
}


/// Some literal of `lits` holds under `tau`.
pub open spec fn some_holds(lits: Seq<Lit>, tau: spec_fn(int) -> bool) -> bool {
    exists|i: int| 0 <= i < lits.len() && lit_holds(tau, #[trigger] lits[i])
}

/// Two unassigned occurrences make at least two.
proof fn lemma_count_two(vals: Seq<Option<bool>>, c: Seq<Lit>, a: int, b: int)
    requires
        0 <= a < b < c.len(),
        pvalue(vals, c[a]) is None,
        pvalue(vals, c[b]) is None,
    ensures
        unassigned_count(vals, c) >= 2,
    decreases c.len(),
{
    if b < c.len() - 1 {
        assert(c.drop_last()[a] == c[a]);
        assert(c.drop_last()[b] == c[b]);
        lemma_count_two(vals, c.drop_last(), a, b);
    } else {
        assert(c.drop_last()[a] == c[a]);
        lemma_count_has(vals, c.drop_last(), a);
    }
}

impl Search {
    /// The number of trail positions in `[lo, hi)` whose variable is marked in
    /// `seen`.
    closed spec fn cnt(&self, seen: Seq<bool>, lo: int, hi: int) -> nat
        decreases hi - lo,
    {
        if hi <= lo {
            0
        } else {
            self.cnt(seen, lo, hi - 1) + if seen[self.trail@[hi - 1].var.index()] {
                1nat
            } else {
                0nat
            }
        }
    }

    /// Flipping the mark of an assigned variable changes the count by one
    /// exactly when its trail position is in range.
    proof fn lemma_cnt_flip(&self, seen: Seq<bool>, j: int, b: bool, lo: int, hi: int)
        requires
            self.shapes_ok(),
            self.trail_ok(),
            0 <= j < self.n_vars,
            self.value@[j] is Some,
            seen.len() == self.n_vars,
            seen[j] != b,
            0 <= lo,
            hi <= self.trail@.len(),
        ensures
            self.cnt(seen.update(j, b), lo, hi) == if lo <= self.pos@[j] < hi {
                if b {
                    self.cnt(seen, lo, hi) + 1int
                } else {
                    self.cnt(seen, lo, hi) - 1
                }
            } else {
                self.cnt(seen, lo, hi) as int
            },
        decreases hi - lo,
    {
        if hi > lo {
            self.lemma_cnt_flip(seen, j, b, lo, hi - 1);
            let t = hi - 1;
            let jt = self.trail@[t].var.index();
            if jt == j {
                assert(self.pos@[j] == t);
            } else {
                if self.pos@[j] == t {
                    assert(self.trail@[self.pos@[j]].var.index() == j);
                }
            }
            if !b && lo <= self.pos@[j] < hi - 1 {
                self.lemma_cnt_pos(seen, self.pos@[j], lo, hi - 1);
            }
        }
    }

    /// A marked position in range makes the count positive.
    proof fn lemma_cnt_pos(&self, seen: Seq<bool>, t: int, lo: int, hi: int)
        requires
            lo <= t < hi,
            seen[self.trail@[t].var.index()],
        ensures
            self.cnt(seen, lo, hi) >= 1,
        decreases hi - lo,
    {
        if t < hi - 1 {
            self.lemma_cnt_pos(seen, t, lo, hi - 1);
        }
    }

    /// The count never exceeds the width of the range.
    proof fn lemma_cnt_le(&self, seen: Seq<bool>, lo: int, hi: int)
        requires
            lo <= hi,
        ensures
            self.cnt(seen, lo, hi) <= hi - lo,
        decreases hi - lo,
    {
        if hi > lo {
            self.lemma_cnt_le(seen, lo, hi - 1);
        }
    }

    /// A variable on the trail at or after the current level's decision was set
    /// at the current level.
    proof fn lemma_top_level(&self, j: int)
        requires
            self.shapes_ok(),
            self.levels_ok(),
            self.trail_lim@.len() > 0,
            0 <= j < self.n_vars,
            self.value@[j] is Some,
            self.pos@[j] >= self.trail_lim@[self.trail_lim@.len() - 1],
        ensures
            self.level@[j] == self.trail_lim@.len(),
    {
        let d = self.trail_lim@.len() as int;
        if self.level@[j] < d {
            if self.level@[j] < d - 1 {
                assert(self.trail_lim@[self.level@[j] as int] < self.trail_lim@[d - 1]);
            }
        }
    }

    /// Some marked variable of the current level is unsatisfied by `tau`.
    closed spec fn seen_hold(&self, seen: Seq<bool>, tau: spec_fn(int) -> bool) -> bool {
        exists|j: int|
            0 <= j < self.n_vars && #[trigger] seen[j] && self.level@[j] == self.trail_lim@.len() && !lit_holds(tau, self.trail@[self.pos@[j]])
    }

    /// The clause made of `others`, the negations of the marked current-level
    /// literals and the negation of `pivot` follows from the database.
    closed spec fn resolvent(&self, seen: Seq<bool>, others: Seq<Lit>, pivot: Option<Lit>) -> bool {
        forall|tau: spec_fn(int) -> bool|
            cnf_holds(tau, self.db()) ==> #[trigger] some_holds(others, tau) || self.seen_hold(seen, tau) || (pivot matches Some(p)
                && !lit_holds(tau, p))
    }

    /// Bookkeeping of conflict analysis: marked variables are assigned at a
    /// positive level, the current level's below `index`, the others recorded in
    /// `others`, whose literals are false at lower positive levels.
    closed spec fn marks_ok(&self, seen: Seq<bool>, others: Seq<Lit>, index: int) -> bool {
        let d = self.trail_lim@.len() as int;
        &&& seen.len() == self.n_vars
        &&& forall|j: int|
            0 <= j < self.n_vars && #[trigger] seen[j] ==> {
                &&& self.value@[j] is Some
                &&& 1 <= self.level@[j]
                &&& self.level@[j] == d ==> self.pos@[j] < index
                &&& self.level@[j] < d ==> others.contains(value_lit(j, !(self.value@[j]->0)))
            }
        &&& forall|i: int|
            0 <= i < others.len() ==> {
                &&& (#[trigger] others[i]).var.index() < self.n_vars
                &&& pvalue(self.value@, others[i]) == Some(false)
                &&& 1 <= self.level@[others[i].var.index()] < d
                &&& seen[others[i].var.index()]
            }
    }

    /// After folding a clause into the analysis, the resolvent no longer needs
    /// the pivot: every literal of the clause is either the pivot, false at
    /// level 0, or now marked.
    proof fn lemma_fold_clause(
        &self,
        c: Seq<Lit>,
        pivot: Option<Lit>,
        seen0: Seq<bool>,
        others0: Seq<Lit>,
        seen1: Seq<bool>,
        others1: Seq<Lit>,
        index: int,
    )
        requires
            self.inv(),
            self.trail_lim@.len() > 0,
            self.db().contains(c),
            pivot is None || self.resolvent(seen0, others0, pivot),
            self.marks_ok(seen1, others1, index),
            seen0.len() == self.n_vars,
            forall|j: int| 0 <= j < self.n_vars && #[trigger] seen0[j] ==> seen1[j],
            others0.len() <= others1.len(),
            forall|i: int| 0 <= i < others0.len() ==> #[trigger] others0[i] == others1[i],
            forall|i: int|
                0 <= i < c.len() ==> {
                    let q = #[trigger] c[i];
                    if pivot is Some && q.var == pivot->0.var {
                        q == pivot->0
                    } else {
                        &&& q.var.index() < self.n_vars
                        &&& pvalue(self.value@, q) == Some(false)
                        &&& (self.level@[q.var.index()] == 0 || seen1[q.var.index()])
                    }
                },
        ensures
            self.resolvent(seen1, others1, None),
    {
        let d = self.trail_lim@.len() as int;
        assert forall|tau: spec_fn(int) -> bool| cnf_holds(tau, self.db()) implies #[trigger] some_holds(others1, tau) || self.seen_hold(seen1, tau) by {
            let jc = choose|jc: int| 0 <= jc < self.db().len() && self.db()[jc] == c;
            assert(clause_holds(tau, self.db()[jc]));
            let i = choose|i: int| 0 <= i < c.len() && lit_holds(tau, #[trigger] c[i]);
            let q = c[i];
            let on_pivot = pivot is Some && q.var == pivot->0.var;
            if on_pivot {
                let p = pivot->0;
                assert(q == p);
                assert(some_holds(others0, tau) || self.seen_hold(seen0, tau));
                if some_holds(others0, tau) {
                    let k = choose|k: int| 0 <= k < others0.len() && lit_holds(tau, #[trigger] others0[k]);
                    assert(others1[k] == others0[k]);
                } else {
                    let j = choose|j: int|
                        0 <= j < self.n_vars && #[trigger] seen0[j] && self.level@[j] == d && !lit_holds(tau, self.trail@[self.pos@[j]]);
                    assert(seen1[j]);
                }
            } else {
                let j = q.var.index();
                assert(self.value@[j] is Some);
                let tl = self.trail@[self.pos@[j]];
                assert(tl.var.index() == j);
                assert(tl == q.neg());
                if self.level@[j] == 0 {
                    self.lemma_decs_prefix(0, 0, tau);
                    self.lemma_false_forced(q, 0, tau);
                } else {
                    assert(seen1[j]);
                    if self.level@[j] < d {
                        assert(value_lit(j, !(self.value@[j]->0)) == q);
                        let k = choose|k: int| 0 <= k < others1.len() && others1[k] == q;
                        assert(lit_holds(tau, others1[k]));
                    } else {
                        assert(self.level@[j] <= d);
                        assert(!lit_holds(tau, self.trail@[self.pos@[j]]));
                    }
                }
            }
        }
    }
}


impl Search {
    /// Resolving on the marked current-level literal `p` (at trail position
    /// `t`) moves it from the marks to the pivot.
    proof fn lemma_resolve(&self, seen: Seq<bool>, others: Seq<Lit>, t: int)
        requires
            self.shapes_ok(),
            self.trail_ok(),
            0 <= t < self.trail@.len(),
            seen.len() == self.n_vars,
            seen[self.trail@[t].var.index()],
            self.level@[self.trail@[t].var.index()] == self.trail_lim@.len(),
            self.resolvent(seen, others, None),
        ensures
            self.resolvent(seen.update(self.trail@[t].var.index(), false), others, Some(self.trail@[t])),
    {
        let p = self.trail@[t];
        let v = p.var.index();
        let seen2 = seen.update(v, false);
        assert forall|tau: spec_fn(int) -> bool| cnf_holds(tau, self.db()) implies #[trigger] some_holds(others, tau) || self.seen_hold(seen2, tau) || (Some(p) matches Some(pp) && !lit_holds(tau, pp)) by {
            if !some_holds(others, tau) {
                assert(self.seen_hold(seen, tau));
                let j = choose|j: int|
                    0 <= j < self.n_vars && #[trigger] seen[j] && self.level@[j] == self.trail_lim@.len() && !lit_holds(tau, self.trail@[self.pos@[j]]);
                if j != v {
                    assert(seen2[j]);
                } else {
                    assert(self.pos@[v] == t);
                }
            }
        }
    }

    /// With no current-level mark left, the resolvent is the clause made of the
    /// negated pivot followed by `others`, and it follows from the database.
    proof fn lemma_learned_entailed(&self, seen: Seq<bool>, others: Seq<Lit>, uip: Lit)
        requires
            self.resolvent(seen, others, Some(uip)),
            forall|j: int| 0 <= j < self.n_vars && #[trigger] seen[j] ==> self.level@[j] != self.trail_lim@.len(),
        ensures
            entails(self.db(), seq![uip.neg()] + others),
    {
        let learned = seq![uip.neg()] + others;
        assert forall|tau: spec_fn(int) -> bool| cnf_holds(tau, self.db()) implies #[trigger] clause_holds(tau, learned) by {
            assert(some_holds(others, tau) || self.seen_hold(seen, tau) || !lit_holds(tau, uip));
            if some_holds(others, tau) {
                let i = choose|i: int| 0 <= i < others.len() && lit_holds(tau, #[trigger] others[i]);
                assert(learned[i + 1] == others[i]);
            } else if !lit_holds(tau, uip) {
                assert(learned[0] == uip.neg());
                assert(lit_holds(tau, learned[0]));
            }
        }
    }

    /// A clause that is entirely false has a literal of the current level when
    /// that level is positive.
    proof fn lemma_conflict_has_top(&self, c: Seq<Lit>)
        requires
            self.inv(),
            self.prefixes_idle(-1),
            self.trail_lim@.len() > 0,
            self.db().contains(c),
            all_false(self.value@, c),
        ensures
            exists|i: int| 0 <= i < c.len() && self.level@[(#[trigger] c[i]).var.index()] == self.trail_lim@.len(),
    {
        let d = self.trail_lim@.len() as int;
        let jc = choose|jc: int| 0 <= jc < self.db().len() && self.db()[jc] == c;
        let pre = self.prefix(d - 1);
        assert(idle(pre, c)) by {
            assert(idle(self.prefix(d - 1), self.db()[jc]));
        }
        assert(!clause_true_in(pre, c)) by {
            if clause_true_in(pre, c) {
                let i = choose|i: int| 0 <= i < c.len() && #[trigger] pvalue(pre, c[i]) == Some(true);
                assert(pvalue(self.value@, c[i]) == Some(false));
                assert(lits_below(self.db()[jc], self.n_vars as int));
            }
        }
        assert(unassigned_count(pre, c) >= 2);
        if forall|i: int| 0 <= i < c.len() ==> self.level@[(#[trigger] c[i]).var.index()] != d {
            assert forall|i: int| 0 <= i < c.len() implies (#[trigger] pvalue(pre, c[i])) is Some by {
                assert(pvalue(self.value@, c[i]) == Some(false));
                assert(lits_below(self.db()[jc], self.n_vars as int));
                let j = c[i].var.index();
                assert(self.value@[j] is Some);
                assert(self.level@[j] != d);
            }
            lemma_count_zero(pre, c);
        }
    }

    /// First-UIP conflict analysis of the all-false clause `conflict`: returns the
    /// learned clause, asserting literal first, and the level to backtrack to.
    #[verifier::rlimit(60)]
    #[verifier::spinoff_prover]
    fn analyze(&self, conflict: ClauseRef) -> (res: (Vec<Lit>, u32))
        requires
            self.inv(),
            self.prefixes_idle(-1),
            self.trail_lim@.len() > 0,
            conflict < self.clauses@.len(),
            all_false(self.value@, self.db()[conflict as int]),
        ensures
            res.0@.len() >= 1,
            (res.1 as int) < self.dl(),
            lits_below(res.0@, self.n_vars as int),
            entails(self.db(), res.0@),
            forall|k: int| 0 <= k < res.1 ==> idle(#[trigger] self.prefix(k), res.0@),
            unit_at(self.prefix(res.1 as int), res.0@, 0),
    {
        proof {
            self.lemma_inv_facts();
            assert(self.clauses@.len() == self.clauses.len());
            assert(self.db().contains(self.db()[conflict as int]));
            self.lemma_conflict_has_top(self.db()[conflict as int]);
        }
        let ghost d = self.trail_lim@.len() as int;
        let dl: u32 = self.trail_lim.len() as u32;
        let lim: usize = self.trail_lim[self.trail_lim.len() - 1];
        let mut seen: Vec<bool> = Vec::new();
        let mut k: usize = 0;
        while k < self.n_vars
            invariant
                k <= self.n_vars,
                seen@.len() == k,
                forall|j: int| 0 <= j < k ==> !(#[trigger] seen@[j]),
            decreases self.n_vars - k,
        {
            seen.push(false);
            k = k + 1;
        }
        let mut others: Vec<Lit> = Vec::new();
        let mut pending: usize = 0;
        let mut pivot: Option<Lit> = None;
        let mut cref: usize = conflict;
        let mut index: usize = self.trail.len();
        proof {
            assert(self.cnt(seen@, lim as int, index as int) == 0) by {
                self.lemma_cnt_zero(seen@, lim as int, index as int);
            }
        }
        loop
            invariant_except_break
                conflict < self.clauses@.len(),
                all_false(self.value@, self.db()[conflict as int]),
                lim < index <= self.trail@.len(),
                cref < self.clauses@.len(),
                self.marks_ok(seen@, others@, index as int),
                pending == self.cnt(seen@, lim as int, index as int),
                pivot is None ==> cref == conflict && pending == 0,
                pivot is None ==> exists|i: int|
                    0 <= i < self.db()[conflict as int].len() && self.level@[(#[trigger] self.db()[conflict as int][i]).var.index()] == d,
                pivot is Some ==> pending > 0 && self.resolvent(seen@, others@, pivot),
                forall|i: int|
                    0 <= i < self.db()[cref as int].len() ==> {
                        let q = #[trigger] self.db()[cref as int][i];
                        if pivot is Some && q.var == pivot->0.var {
                            q == pivot->0
                        } else {
                            &&& pvalue(self.value@, q) == Some(false)
                            &&& self.pos@[q.var.index()] < index
                        }
                    },
            invariant
                self.inv(),
                self.prefixes_idle(-1),
                d == self.trail_lim@.len(),
                d > 0,
                dl == d,
                lim == self.trail_lim@[d - 1],
                lim <= index <= self.trail@.len(),
                seen@.len() == self.n_vars,
            ensures
                pivot is Some,
                lim <= index < self.trail@.len(),
                pivot->0 == self.trail@[index as int],
                self.level@[self.trail@[index as int].var.index()] == d,
                self.value@[self.trail@[index as int].var.index()] == Some(self.trail@[index as int].positive),
                self.marks_ok(seen@, others@, index as int),
                self.resolvent(seen@, others@, pivot),
                forall|j: int| 0 <= j < self.n_vars && #[trigger] seen@[j] ==> self.level@[j] != d,
            decreases index,
        {
            let ghost seen0 = seen@;
            let ghost others0 = others@;
            let c = &self.clauses[cref];
            proof {
                assert(c@ == self.db()[cref as int]);
                assert(lits_below(c@, self.n_vars as int));
            }
            let mut i: usize = 0;
            while i < c.len()
                invariant
                    self.inv(),
                    d == self.trail_lim@.len(),
                    d > 0,
                    dl == d,
                    lim == self.trail_lim@[d - 1],
                    lim < index <= self.trail@.len(),
                    c@ == self.db()[cref as int],
                    lits_below(c@, self.n_vars as int),
                    i <= c@.len(),
                    self.marks_ok(seen@, others@, index as int),
                    pending == self.cnt(seen@, lim as int, index as int),
                    seen0.len() == self.n_vars,
                    forall|j: int| 0 <= j < self.n_vars && #[trigger] seen0[j] ==> seen@[j],
                    others0.len() <= others@.len(),
                    forall|m: int| 0 <= m < others0.len() ==> #[trigger] others0[m] == others@[m],
                    forall|ii: int|
                        0 <= ii < c@.len() ==> {
                            let q = #[trigger] c@[ii];
                            if pivot is Some && q.var == pivot->0.var {
                                q == pivot->0
                            } else {
                                &&& pvalue(self.value@, q) == Some(false)
                                &&& self.pos@[q.var.index()] < index
                            }
                        },
                    forall|ii: int|
                        0 <= ii < i ==> {
                            let q = #[trigger] c@[ii];
                            (pivot is Some && q.var == pivot->0.var) || self.level@[q.var.index()] == 0 || seen@[q.var.index()]
                        },
                    pivot is Some ==> pending > 0,
                    pivot is None ==> pending > 0 || forall|ii: int| 0 <= ii < i ==> self.level@[(#[trigger] c@[ii]).var.index()] != d,
                decreases c@.len() - i,
            {
                let ghost seen_i = seen@;
                let ghost others_i = others@;
                let q = c[i];
                let skip = match pivot {
                    Some(p) => q.var() == p.var(),
                    None => false,
                };
                if !skip {
                    let j = q.var().idx();
                    proof {
                        assert(pvalue(self.value@, c@[i as int]) == Some(false));
                        assert(self.value@[j as int] is Some);
                    }
                    if !seen[j] && self.level[j] > 0 {
                        proof {
                            self.lemma_cnt_le(seen@, lim as int, index as int);
                        }
                        if self.level[j] >= dl {
                            proof {
                                assert(self.level@[j as int] == d);
                                assert(self.trail_lim@[d - 1] <= self.pos@[j as int]);
                                self.lemma_cnt_flip(seen@, j as int, true, lim as int, index as int);
                                self.lemma_cnt_le(seen@.update(j as int, true), lim as int, index as int);
                            }
                            seen.set(j, true);
                            pending = pending + 1;
                        } else {
                            proof {
                                let lv = self.level@[j as int] as int;
                                assert(self.pos@[j as int] < self.trail_lim@[lv]);
                                if lv < d - 1 {
                                    assert(self.trail_lim@[lv] < self.trail_lim@[d - 1]);
                                }
                                self.lemma_cnt_flip(seen@, j as int, true, lim as int, index as int);
                                assert(value_lit(j as int, !(self.value@[j as int]->0)) == q);
                            }
                            seen.set(j, true);
                            others.push(q);
                        }
                    } else if seen[j] && self.level[j] >= dl {
                        proof {
                            assert(self.level@[j as int] == d);
                            assert(self.trail_lim@[d - 1] <= self.pos@[j as int]);
                            self.lemma_cnt_pos(seen@, self.pos@[j as int], lim as int, index as int);
                        }
                    }
                }
                proof {
                    assert forall|m: int| 0 <= m < others.len() implies {
                        &&& (#[trigger] others@[m]).var.index() < self.n_vars
                        &&& pvalue(self.value@, others@[m]) == Some(false)
                        &&& 1 <= self.level@[others@[m].var.index()] < d
                        &&& seen@[others@[m].var.index()]
                    } by {
                        if m < others_i.len() {
                            assert(others@[m] == others_i[m]);
                        }
                    }
                    assert forall|j: int|
                        0 <= j < self.n_vars && #[trigger] seen@[j] implies {
                            &&& self.value@[j] is Some
                            &&& 1 <= self.level@[j]
                            &&& self.level@[j] == d ==> self.pos@[j] < index
                            &&& self.level@[j] < d ==> others@.contains(value_lit(j, !(self.value@[j]->0)))
                        } by {
                        if seen_i[j] && self.level@[j] < d {
                            let w = value_lit(j, !(self.value@[j]->0));
                            let m = choose|m: int| 0 <= m < others_i.len() && others_i[m] == w;
                            assert(others@[m] == others_i[m]);
                        }
                        if !seen_i[j] {
                            assert(j == q.var.index());
                            if self.level@[j] < d {
                                assert(others@[others@.len() - 1] == q);
                            }
                        }
                    }
                }
                i = i + 1;
            }
            proof {
                if pivot is None {
                    let ii = choose|ii: int|
                        0 <= ii < self.db()[conflict as int].len() && self.level@[(#[trigger] self.db()[conflict as int][ii]).var.index()] == d;
                    assert(c@[ii] == self.db()[conflict as int][ii]);
                }
                assert(pending > 0);
                assert(self.db().contains(c@)) by {
                    assert(self.db()[cref as int] == c@);
                }
                self.lemma_fold_clause(c@, pivot, seen0, others0, seen@, others@, index as int);
            }
            let ghost start = index;
            loop
                invariant_except_break
                    self.cnt(seen@, lim as int, index as int) == pending,
                    forall|t: int| index <= t < start ==> !seen@[(#[trigger] self.trail@[t]).var.index()],
                invariant
                    self.inv(),
                    lim <= index <= start,
                    start <= self.trail@.len(),
                    pending > 0,
                    seen@.len() == self.n_vars,
                ensures
                    lim <= index < start,
                    seen@[self.trail@[index as int].var.index()],
                    self.cnt(seen@, lim as int, index as int + 1) == pending,
                    forall|t: int| index < t < start ==> !seen@[(#[trigger] self.trail@[t]).var.index()],
                decreases index,
            {
                assert(index > lim);
                index = index - 1;
                if seen[self.trail[index].var().idx()] {
                    break;
                }
            }
            let resolved = self.trail[index];
            let rv = resolved.var().idx();
            proof {
                assert(self.value@[rv as int] is Some);
                assert(self.pos@[rv as int] == index);
                self.lemma_top_level(rv as int);
                self.lemma_cnt_flip(seen@, rv as int, false, lim as int, index as int);
                self.lemma_resolve(seen@, others@, index as int);
            }
            let ghost seen_before = seen@;
            pivot = Some(resolved);
            seen.set(rv, false);
            pending = pending - 1;
            proof {
                assert forall|j: int|
                    0 <= j < self.n_vars && #[trigger] seen@[j] implies {
                        &&& self.value@[j] is Some
                        &&& 1 <= self.level@[j]
                        &&& self.level@[j] == d ==> self.pos@[j] < index
                        &&& self.level@[j] < d ==> others@.contains(value_lit(j, !(self.value@[j]->0)))
                    } by {
                    assert(seen_before[j]);
                    if self.level@[j] == d {
                        let pj = self.pos@[j];
                        assert(self.trail@[pj].var.index() == j);
                        if pj == index {
                            assert(j == rv);
                        }
                        if index < pj < start {
                            assert(!seen_before[self.trail@[pj].var.index()]);
                        }
                    }
                }
                assert forall|m: int| 0 <= m < others@.len() implies {
                    &&& (#[trigger] others@[m]).var.index() < self.n_vars
                    &&& pvalue(self.value@, others@[m]) == Some(false)
                    &&& 1 <= self.level@[others@[m].var.index()] < d
                    &&& seen@[others@[m].var.index()]
                } by {
                    assert(seen_before[others@[m].var.index()]);
                }
                assert(self.marks_ok(seen@, others@, index as int));
            }
            if pending == 0 {
                proof {
                    assert forall|j: int| 0 <= j < self.n_vars && #[trigger] seen@[j] implies self.level@[j] != d by {
                        if self.level@[j] == d {
                            let pj = self.pos@[j];
                            assert(self.trail_lim@[d - 1] <= pj);
                            assert(self.trail@[pj].var.index() == j);
                            self.lemma_cnt_pos(seen@, pj, lim as int, index as int);
                        }
                    }
                }
                break;
            }
            proof {
                if index as int == lim as int {
                    assert(self.cnt(seen@, lim as int, index as int) == 0);
                }
                assert(index > lim);
            }
            match self.reason[rv] {
                Some(r) => {
                    cref = r;
                },
                None => {
                    proof {
                        assert(self.pos@[rv as int] == self.trail_lim@[self.level@[rv as int] - 1]);
                        assert(false);
                    }
                },
            }
        }
        let uip = pivot.unwrap();
        let mut learned: Vec<Lit> = Vec::new();
        learned.push(uip.negate());
        let mut to_level: u32 = 0;
        let mut m: usize = 0;
        while m < others.len()
            invariant
                self.inv(),
                d == self.trail_lim@.len(),
                self.marks_ok(seen@, others@, index as int),
                m <= others@.len(),
                learned@ == seq![uip.neg()] + others@.subrange(0, m as int),
                to_level < d,
                forall|ii: int| 0 <= ii < m ==> self.level@[(#[trigger] others@[ii]).var.index()] <= to_level,
                to_level > 0 ==> exists|ii: int| 0 <= ii < m && self.level@[(#[trigger] others@[ii]).var.index()] == to_level,
            decreases others@.len() - m,
        {
            let q = others[m];
            learned.push(q);
            let l = self.level[q.var().idx()];
            if l > to_level {
                to_level = l;
            }
            m = m + 1;
            proof {
                assert(learned@ =~= seq![uip.neg()] + others@.subrange(0, m as int));
            }
        }
        proof {
            assert(others@.subrange(0, m as int) =~= others@);
            self.lemma_learned_entailed(seen@, others@, uip);
            let rvi = uip.var.index();
            assert(self.level@[rvi] == d);
            assert forall|i: int| 0 <= i < learned@.len() implies #[trigger] learned@[i].var.index() < self.n_vars by {
                if i > 0 {
                    assert(learned@[i] == others@[i - 1]);
                }
            }
            let pre = self.prefix(to_level as int);
            assert(pvalue(pre, learned@[0]) is None);
            assert forall|i: int| 0 <= i < learned@.len() && i != 0 implies pvalue(pre, #[trigger] learned@[i]) == Some(false) by {
                assert(learned@[i] == others@[i - 1]);
                assert(self.level@[others@[i - 1].var.index()] <= to_level);
            }
            assert forall|kk: int| 0 <= kk < to_level implies idle(#[trigger] self.prefix(kk), learned@) by {
                let ii = choose|ii: int| 0 <= ii < m && self.level@[(#[trigger] others@[ii]).var.index()] == to_level;
                assert(learned@[ii + 1] == others@[ii]);
                lemma_count_two(self.prefix(kk), learned@, 0, ii + 1);
            }
        }
        (learned, to_level)
    }

    /// An empty range counts nothing.
    proof fn lemma_cnt_zero(&self, seen: Seq<bool>, lo: int, hi: int)
        requires
            forall|j: int| 0 <= j < seen.len() ==> !(#[trigger] seen[j]),
            forall|t: int| lo <= t < hi ==> 0 <= (#[trigger] self.trail@[t]).var.index() < seen.len(),
        ensures
            self.cnt(seen, lo, hi) == 0,
        decreases hi - lo,
    {
        if hi > lo {
            self.lemma_cnt_zero(seen, lo, hi - 1);
        }
    }
}


impl Search {
    /// Append a learned clause and index its variables' occurrences.
    fn add_learned(&mut self, lits: &Vec<Lit>) -> (cref: ClauseRef)
        requires
            old(self).shapes_ok(),
            lits_below(lits@, old(self).n_vars as int),
        ensures
            cref == old(self).clauses@.len(),
            final(self).clauses@.len() == old(self).clauses@.len() + 1,
            final(self).db() == old(self).db().push(lits@),
            final(self).shapes_ok(),
            final(self).n_rules == old(self).n_rules,
            final(self).n_vars == old(self).n_vars,
            final(self).value == old(self).value,
            final(self).level == old(self).level,
            final(self).reason == old(self).reason,
            final(self).is_assumption == old(self).is_assumption,
            final(self).trail == old(self).trail,
            final(self).trail_lim == old(self).trail_lim,
            final(self).assumptions == old(self).assumptions,
            final(self).pos == old(self).pos,
            final(self).dirty == old(self).dirty,
            final(self).stage == old(self).stage,
    {
        let cref = self.clauses.len();
        let mut i: usize = 0;
        while i < lits.len()
            invariant
                old(self).shapes_ok(),
                lits_below(lits@, old(self).n_vars as int),
                i <= lits@.len(),
                cref == old(self).clauses@.len(),
                self.clauses == old(self).clauses,
                self.n_rules == old(self).n_rules,
                self.n_vars == old(self).n_vars,
                self.value == old(self).value,
                self.level == old(self).level,
                self.reason == old(self).reason,
                self.is_assumption == old(self).is_assumption,
                self.trail == old(self).trail,
                self.trail_lim == old(self).trail_lim,
                self.assumptions == old(self).assumptions,
                self.pos == old(self).pos,
                self.dirty == old(self).dirty,
                self.stage == old(self).stage,
                self.occ@.len() == old(self).occ@.len(),
                forall|v: int|
                    0 <= v < self.occ@.len() ==> old(self).occ@[v]@.len() <= (#[trigger] self.occ@[v])@.len(),
                forall|v: int, m: int|
                    0 <= v < self.occ@.len() && 0 <= m < old(self).occ@[v]@.len() ==> #[trigger] self.occ@[v]@[m] == old(self).occ@[v]@[m],
                forall|v: int, m: int| 0 <= v < self.occ@.len() && 0 <= m < self.occ@[v]@.len() ==> (#[trigger] self.occ@[v]@[m]) <= cref,
                forall|ii: int| 0 <= ii < i ==> (#[trigger] self.occ@[lits@[ii].var.index()])@.contains(cref),
                forall|v: int, m: int|
                    0 <= v < self.occ@.len() && old(self).occ@[v]@.len() <= m < self.occ@[v]@.len() ==> #[trigger] self.occ@[v]@[m] == cref
                        && has_var(lits@, v),
            decreases lits@.len() - i,
        {
            let idx = lits[i].var().idx();
            let ghost before = self.occ@;
            let mut row: Vec<usize> = Vec::new();
            std::mem::swap(&mut row, &mut self.occ[idx]);
            row.push(cref);
            self.occ.set(idx, row);
            proof {
                assert forall|v: int, m: int|
                    0 <= v < self.occ@.len() && 0 <= m < self.occ@[v]@.len() implies (#[trigger] self.occ@[v]@[m]) <= cref by {
                    if v == idx && m == self.occ@[v]@.len() - 1 {
                    } else {
                        assert(self.occ@[v]@[m] == before[v]@[m]);
                    }
                }
                assert forall|v: int, m: int|
                    0 <= v < self.occ@.len() && old(self).occ@[v]@.len() <= m < self.occ@[v]@.len() implies #[trigger] self.occ@[v]@[m] == cref
                        && has_var(lits@, v) by {
                    if v == idx && m == self.occ@[v]@.len() - 1 {
                        assert(lits@[i as int].var.index() == v);
                    } else {
                        assert(self.occ@[v]@[m] == before[v]@[m]);
                    }
                }
                assert forall|ii: int| 0 <= ii < i + 1 implies (#[trigger] self.occ@[lits@[ii].var.index()])@.contains(cref) by {
                    let w = lits@[ii].var.index();
                    if w == idx {
                        assert(self.occ@[w]@[self.occ@[w]@.len() - 1] == cref);
                    } else {
                        assert(before[w]@.contains(cref));
                        let m = choose|m: int| 0 <= m < before[w]@.len() && before[w]@[m] == cref;
                        assert(self.occ@[w]@[m] == cref);
                    }
                }
            }
            i = i + 1;
        }
        let copy = copy_lits(lits);
        self.clauses.push(copy);
        proof {
            assert(self.db() =~= old(self).db().push(lits@));
            assert forall|j: int, ii: int|
                0 <= j < self.clauses@.len() && 0 <= ii < self.clauses@[j]@.len() implies (#[trigger] self.occ@[self.clauses@[j]@[ii].var.index()])@.contains(j as usize) by {
                if j < cref {
                    let w = old(self).clauses@[j]@[ii].var.index();
                    assert(self.clauses@[j] == old(self).clauses@[j]);
                    assert(old(self).db()[j] == old(self).clauses@[j]@);
                    assert(lits_below(old(self).db()[j], old(self).n_vars as int));
                    assert(w < old(self).occ@.len());
                    assert(old(self).occ@[w]@.contains(j as usize));
                    let m = choose|m: int| 0 <= m < old(self).occ@[w]@.len() && old(self).occ@[w]@[m] == j as usize;
                    assert(self.occ@[w]@[m] == j as usize);
                } else {
                    assert(self.clauses@[j]@ == lits@);
                }
            }
            assert(self.clauses@.len() == self.clauses.len());
            assert(occ_exact(self.db(), self.occ@)) by {
                assert forall|v: int, m: int| 0 <= v < self.occ@.len() && 0 <= m < self.occ@[v]@.len() implies has_var(
                    self.db()[#[trigger] self.occ@[v]@[m] as int],
                    v,
                ) by {
                    if m < old(self).occ@[v]@.len() {
                        let e = old(self).occ@[v]@[m];
                        assert(self.occ@[v]@[m] == e);
                        assert(has_var(old(self).db()[e as int], v));
                        assert(self.db()[e as int] == old(self).db()[e as int]);
                    } else {
                        assert(self.db()[cref as int] == lits@);
                    }
                }
            }
            assert(clauses_below(self.db(), self.n_vars as int)) by {
                assert forall|j: int| 0 <= j < self.db().len() implies lits_below(#[trigger] self.db()[j], self.n_vars as int) by {
                    if j < cref {
                        assert(self.db()[j] == old(self).db()[j]);
                    }
                }
            }
        }
        cref
    }

    /// Recording a learned clause keeps the search consistent, as the next
    /// step's backtrack expects.
    proof fn lemma_learned(&self, new: &Search, learned: Seq<Lit>, b: int)
        requires
            self.inv(),
            self.prefixes_idle(-1),
            0 <= b < self.trail_lim@.len(),
            new.shapes_ok(),
            new.db() == self.db().push(learned),
            new.clauses@.len() == self.clauses@.len() + 1,
            new.n_rules == self.n_rules,
            new.n_vars == self.n_vars,
            new.value == self.value,
            new.level == self.level,
            new.reason == self.reason,
            new.is_assumption == self.is_assumption,
            new.trail == self.trail,
            new.trail_lim == self.trail_lim,
            new.assumptions == self.assumptions,
            new.pos == self.pos,
            new.stage == (Stage::Backtrack { learned: self.clauses@.len() as usize, to_level: b as u32 }),
            entails(self.db(), learned),
            forall|k: int| 0 <= k < b ==> idle(#[trigger] self.prefix(k), learned),
            unit_at(self.prefix(b), learned, 0),
        ensures
            new.inv(),
            new.measure() == self.measure(),
            new.rules() == self.rules(),
    {
        self.lemma_inv_facts();
        let n_old = self.clauses@.len() as int;
        assert(self.clauses@.len() == self.clauses.len());
        assert forall|j: int| 0 <= j < n_old implies #[trigger] new.db()[j] == self.db()[j] by {}
        assert forall|j: int| 0 <= j < n_old implies #[trigger] new.clauses@[j]@ == self.clauses@[j]@ by {
            assert(new.db()[j] == self.db()[j]);
        }
        assert(new.rules() =~= self.rules());
        assert forall|k: int| #[trigger] new.prefix(k) == self.prefix(k) by {
            assert(new.prefix(k) =~= self.prefix(k));
        }
        assert forall|m: int| #[trigger] new.decs(m) == self.decs(m) by {
            assert(new.decs(m) =~= self.decs(m));
        }
        assert forall|k: int| #[trigger] new.flagged(k) == self.flagged(k) by {}
        assert(new.trail_ok());
        assert(new.levels_ok());
        assert(new.reasons_ok()) by {
            assert forall|j: int| 0 <= j < new.n_vars && (#[trigger] new.value@[j]) is Some implies match new.reason@[j] {
                None => new.level@[j] > 0 && new.pos@[j] == new.trail_lim@[new.level@[j] - 1],
                Some(r) => {
                    &&& r < new.clauses@.len()
                    &&& forall|i: int|
                        0 <= i < new.clauses@[r as int]@.len() ==> {
                            let q = #[trigger] new.clauses@[r as int]@[i];
                            if q.var.index() == j {
                                q == new.trail@[new.pos@[j]]
                            } else {
                                &&& pvalue(new.value@, q) == Some(false)
                                &&& new.pos@[q.var.index()] < new.pos@[j]
                            }
                        }
                },
            } by {
                match self.reason@[j] {
                    None => {},
                    Some(r) => {
                        assert(new.clauses@[r as int]@ == self.clauses@[r as int]@);
                    },
                }
            }
        }
        assert(new.assumps_ok());
        assert(new.sound_ok()) by {
            assert forall|t: int| 0 <= t < new.trail@.len() implies forced(
                new.db(),
                new.decs(new.level@[(#[trigger] new.trail@[t]).var.index()] as int),
                new.trail@[t],
            ) by {
                let m = self.level@[self.trail@[t].var.index()] as int;
                assert(forced(self.db(), self.decs(m), self.trail@[t]));
                assert forall|tau: spec_fn(int) -> bool| cnf_holds(tau, new.db()) && all_hold(tau, new.decs(m)) implies #[trigger] lit_holds(tau, new.trail@[t]) by {
                    assert forall|j: int| 0 <= j < self.db().len() implies clause_holds(tau, #[trigger] self.db()[j]) by {
                        assert(new.db()[j] == self.db()[j]);
                    }
                }
            }
            assert forall|j: int| 0 <= j < new.clauses@.len() implies entails(new.rules(), #[trigger] new.db()[j]) by {
                if j < n_old {
                    assert(new.db()[j] == self.db()[j]);
                } else {
                    assert(new.db()[j] == learned);
                    assert forall|tau: spec_fn(int) -> bool| cnf_holds(tau, new.rules()) implies #[trigger] clause_holds(tau, learned) by {
                        assert forall|jj: int| 0 <= jj < self.db().len() implies clause_holds(tau, #[trigger] self.db()[jj]) by {
                            assert(entails(self.rules(), self.db()[jj]));
                        }
                    }
                }
            }
        }
        assert(new.stage_ok()) by {
            assert(new.db()[n_old] == learned);
            assert forall|k: int, j: int|
                0 <= k < new.trail_lim@.len() && 0 <= j < new.clauses@.len() && j != n_old implies idle(#[trigger] new.prefix(k), #[trigger] new.db()[j]) by {
                assert(new.db()[j] == self.db()[j]);
                assert(idle(self.prefix(k), self.db()[j]));
            }
        }
        self.lemma_psum_agree(new, self.trail@.len() as int);
    }

    /// A conflict with no decision on the trail makes the rules unsatisfiable,
    /// whatever the assumptions.
    proof fn lemma_root_conflict(&self, c: Seq<Lit>)
        requires
            self.inv(),
            self.trail_lim@.len() == 0,
            self.db().contains(c),
            all_false(self.value@, c),
        ensures
            !satisfiable_under(self.rules(), self.assumptions@),
    {
        self.lemma_inv_facts();
        if satisfiable_under(self.rules(), self.assumptions@) {
            let tau = choose|tau: spec_fn(int) -> bool| cnf_holds(tau, self.rules()) && all_hold(tau, self.assumptions@);
            assert(cnf_holds(tau, self.db())) by {
                assert forall|jj: int| 0 <= jj < self.db().len() implies clause_holds(tau, #[trigger] self.db()[jj]) by {
                    assert(entails(self.rules(), self.db()[jj]));
                }
            }
            let jc = choose|jc: int| 0 <= jc < self.db().len() && self.db()[jc] == c;
            assert(clause_holds(tau, self.db()[jc]));
            let i = choose|i: int| 0 <= i < c.len() && lit_holds(tau, #[trigger] c[i]);
            assert(pvalue(self.value@, c[i]) == Some(false));
            assert(lits_below(self.db()[jc], self.n_vars as int));
            assert(self.value@[c[i].var.index()] is Some);
            assert(all_hold(tau, self.decs(0)));
            self.lemma_false_forced(c[i], 0, tau);
        }
    }

    /// A conflict with no decision on the trail: whatever the core traced from
    /// it, the rules with the core are unsatisfiable, since every literal on the
    /// trail then follows from the clause database alone.
    proof fn lemma_root_core(&self, c: Seq<Lit>, core: Seq<Lit>)
        requires
            self.inv(),
            self.trail_lim@.len() == 0,
            self.db().contains(c),
            all_false(self.value@, c),
            lits_below(c, self.n_vars as int),
            forall|s: int|
                0 <= s < c.len() && self.value@[(#[trigger] c[s]).var.index()] is Some ==> forced(
                    self.db(),
                    core,
                    self.lit_of(c[s].var.index()),
                ),
        ensures
            !satisfiable_under(self.rules(), core),
    {
        self.lemma_inv_facts();
        if satisfiable_under(self.rules(), core) {
            let tau = choose|tau: spec_fn(int) -> bool| cnf_holds(tau, self.rules()) && all_hold(tau, core);
            assert(cnf_holds(tau, self.db())) by {
                assert forall|jj: int| 0 <= jj < self.db().len() implies clause_holds(tau, #[trigger] self.db()[jj]) by {
                    assert(entails(self.rules(), self.db()[jj]));
                }
            }
            let jc = choose|jc: int| 0 <= jc < self.db().len() && self.db()[jc] == c;
            assert(clause_holds(tau, self.db()[jc]));
            let i = choose|i: int| 0 <= i < c.len() && lit_holds(tau, #[trigger] c[i]);
            let w = c[i].var.index();
            assert(pvalue(self.value@, c[i]) == Some(false));
            assert(self.value@[w] is Some);
            assert(forced(self.db(), core, self.lit_of(w)));
            assert(self.lit_of(w) == c[i].neg()) by {
                assert(self.value@[w] == Some(!c[i].positive));
                assert(c[i].var == var_at(w));
            }
            assert(lit_holds(tau, self.lit_of(w)));
        }
    }

    /// Analyze the reported conflict: with no decision open it is final UNSAT;
    /// otherwise learn a first-UIP clause and queue a backtrack.
    fn step_analyze(&mut self, cref: ClauseRef) -> (ev: Event)
        requires
            old(self).inv(),
            old(self).stage == Stage::Analyze(cref),
        ensures
            final(self).inv(),
            final(self).rules() == old(self).rules(),
            final(self).given() == old(self).given(),
            final(self).n() == old(self).n(),
            match ev {
                Event::Unsat { core } => {
                    &&& final(self).done()
                    &&& final(self).unsat_facts(core@)
                    &&& final(self).dl() == old(self).dl()
                    &&& final(self).verdict() == Some(Some(core@))
                },
                Event::Learn { clause } => {
                    &&& final(self).db() == old(self).db().push(clause@)
                    &&& entails(final(self).rules(), clause@)
                    &&& final(self).learned_asserting()
                    &&& final(self).stage is Backtrack
                    &&& final(self).measure() == old(self).measure()
                    &&& final(self).trail_spec() == old(self).trail_spec()
                    &&& final(self).dl() == old(self).dl()
                },
                _ => false,
            },
    {
        proof {
            self.lemma_inv_facts();
            assert(self.clauses@.len() == self.clauses.len());
            assert(self.db().contains(self.db()[cref as int]));
        }
        if self.trail_lim.len() == 0 {
            proof {
                self.lemma_root_conflict(self.db()[cref as int]);
                assert(lits_below(self.db()[cref as int], self.n_vars as int));
            }
            let seed = copy_lits(&self.clauses[cref]);
            let core = self.analyze_final(seed.as_slice());
            proof {
                self.lemma_root_core(self.db()[cref as int], core@);
            }
            let kept = copy_lits(&core);
            let ghost s0 = *self;
            self.stage = Stage::Done(Final::Unsat(kept));
            proof {
                s0.lemma_frame(self);
                assert forall|i: int| 0 <= i < kept@.len() implies self.assumptions@.contains(#[trigger] kept@[i]) by {
                    assert(kept@[i] == core@[i]);
                }
                assert(kept@ == core@);
                assert(self.stage_ok());
            }
            return Event::Unsat { core };
        }
        let (learned, to_level) = self.analyze(cref);
        let ghost s0 = *self;
        let learned_ref = self.add_learned(&learned);
        self.stage = Stage::Backtrack { learned: learned_ref, to_level };
        proof {
            s0.lemma_learned(self, learned@, to_level as int);
            self.lemma_inv_facts();
        }
        Event::Learn { clause: clause(learned.as_slice()) }
    }
}


impl Search {
    /// A variable sits below the decision of level `b + 1` exactly when its
    /// level is at most `b`.
    proof fn lemma_pos_level(&self, j: int, b: int)
        requires
            self.shapes_ok(),
            self.levels_ok(),
            0 <= j < self.n_vars,
            self.value@[j] is Some,
            0 <= b < self.trail_lim@.len(),
        ensures
            (self.pos@[j] < self.trail_lim@[b]) == (self.level@[j] <= b),
    {
        let l = self.level@[j] as int;
        if l <= b {
            if l < b {
                assert(self.trail_lim@[l] < self.trail_lim@[b]);
            }
        } else {
            if l - 1 > b {
                assert(self.trail_lim@[b] < self.trail_lim@[l - 1]);
            }
        }
    }

    /// The measure over positions `[lo, hi)` whose levels all exceed `b` is at
    /// most their number times the weight of level `b + 1`.
    proof fn lemma_psum_tail(&self, lo: int, hi: int, b: int)
        requires
            0 <= lo <= hi <= self.trail@.len(),
            0 <= b,
            b + 1 <= self.n_vars,
            forall|t: int|
                lo <= t < hi ==> b + 1 <= self.level@[(#[trigger] self.trail@[t]).var.index()] <= self.n_vars,
        ensures
            self.psum(hi) - self.psum(lo) <= (hi - lo) * pow((self.n_vars + 2) as int, (self.n_vars - b - 1) as nat),
        decreases hi - lo,
    {
        let bb = (self.n_vars + 2) as int;
        let e = (self.n_vars - b - 1) as nat;
        if hi > lo {
            self.lemma_psum_tail(lo, hi - 1, b);
            let l = self.level@[self.trail@[hi - 1].var.index()] as int;
            assert(b + 1 <= l <= self.n_vars);
            lemma_pow_increases(bb as nat, (self.n_vars - l) as nat, e);
            assert(self.psum(hi) == self.psum(hi - 1) + weight(self.n_vars as nat, l));
            assert(weight(self.n_vars as nat, l) == pow(bb, (self.n_vars - l) as nat));
            let p = pow(bb, e);
            assert(weight(self.n_vars as nat, l) <= p);
            assert((hi - 1 - lo) * p + p == (hi - lo) * p) by (nonlinear_arith);
        } else {
            let p = pow(bb, e);
            assert((hi - lo) * p == 0) by (nonlinear_arith)
                requires
                    hi == lo,
            ;
        }
    }

    /// The measure is non-negative and below the weight of a level above all
    /// levels.
    proof fn lemma_measure_bound(&self)
        requires
            self.inv(),
        ensures
            0 <= self.measure() < pow((self.n_vars + 2) as int, (self.n_vars + 1) as nat),
    {
        self.lemma_inv_facts();
        let bb = (self.n_vars + 2) as int;
        let n = self.n_vars as int;
        let len = self.trail@.len() as int;
        self.lemma_psum_range(len);
        let p = pow(bb, n as nat);
        lemma_pow_positive(bb, n as nat);
        lemma_pow_adds(bb, 1, n as nat);
        lemma_pow1(bb);
        assert(len * p < bb * p) by (nonlinear_arith)
            requires
                0 <= len <= n,
                bb == n + 2,
                p > 0,
        ;
        assert(pow(bb, (n + 1) as nat) == bb * p);
    }

    /// Every prefix of the measure is between 0 and its length times the
    /// heaviest weight.
    proof fn lemma_psum_range(&self, t: int)
        requires
            self.inv(),
            0 <= t <= self.trail@.len(),
        ensures
            0 <= self.psum(t) <= t * pow((self.n_vars + 2) as int, self.n_vars as nat),
        decreases t,
    {
        let bb = (self.n_vars + 2) as int;
        let n = self.n_vars as int;
        if t > 0 {
            self.lemma_psum_range(t - 1);
            let j = self.trail@[t - 1].var.index();
            assert(self.value@[j] is Some);
            self.lemma_inv_facts();
            let l = self.level@[j] as int;
            assert(l <= self.trail_lim@.len());
            lemma_pow_increases(bb as nat, (n - l) as nat, n as nat);
            lemma_pow_positive(bb, (n - l) as nat);
            let p = pow(bb, n as nat);
            assert(self.psum(t) == self.psum(t - 1) + weight(self.n_vars as nat, l));
            assert(weight(self.n_vars as nat, l) == pow(bb, (n - l) as nat));
            assert((t - 1) * p + p == t * p) by (nonlinear_arith);
        } else {
            let p = pow(bb, n as nat);
            assert(t * p == 0) by (nonlinear_arith)
                requires
                    t == 0,
            ;
        }
    }

    /// Undo every assignment above decision level `b`.
    fn backtrack_to(&mut self, b: u32)
        requires
            old(self).inv(),
            (b as int) < old(self).trail_lim@.len(),
        ensures
            final(self).trail@ == old(self).trail@.subrange(0, old(self).trail_lim@[b as int] as int),
            final(self).trail_lim@ == old(self).trail_lim@.subrange(0, b as int),
            final(self).value@ == old(self).prefix(b as int),
            final(self).value@.len() == old(self).n_vars,
            final(self).level@.len() == old(self).n_vars,
            final(self).reason@.len() == old(self).n_vars,
            final(self).is_assumption@.len() == old(self).n_vars,
            forall|j: int|
                0 <= j < old(self).n_vars ==> #[trigger] final(self).level@[j] == if old(self).value@[j] is Some && old(self).level@[j] <= b {
                    old(self).level@[j]
                } else {
                    0
                },
            forall|j: int|
                0 <= j < old(self).n_vars ==> #[trigger] final(self).reason@[j] == if old(self).value@[j] is Some && old(self).level@[j] <= b {
                    old(self).reason@[j]
                } else {
                    None
                },
            forall|j: int|
                0 <= j < old(self).n_vars ==> #[trigger] final(self).is_assumption@[j] == if old(self).value@[j] is Some && old(self).level@[j] <= b {
                    old(self).is_assumption@[j]
                } else {
                    false
                },
            final(self).trail@.len() + count_none(final(self).value@) == old(self).n_vars,
            final(self).clauses == old(self).clauses,
            final(self).n_rules == old(self).n_rules,
            final(self).occ == old(self).occ,
            final(self).n_vars == old(self).n_vars,
            final(self).assumptions == old(self).assumptions,
            final(self).dirty == old(self).dirty,
            final(self).stage == old(self).stage,
            final(self).pos == old(self).pos,
    {
        let target = self.trail_lim[b as usize];
        proof {
            self.lemma_inv_facts();
            assert forall|j: int| 0 <= j < self.n_vars && self.value@[j] is Some implies self.pos@[j] < self.trail@.len() by {}
        }
        while self.trail.len() > target
            invariant
                old(self).inv(),
                (b as int) < old(self).trail_lim@.len(),
                target == old(self).trail_lim@[b as int],
                target <= self.trail@.len() <= old(self).trail@.len(),
                self.trail@ == old(self).trail@.subrange(0, self.trail@.len() as int),
                self.clauses == old(self).clauses,
                self.n_rules == old(self).n_rules,
                self.occ == old(self).occ,
                self.n_vars == old(self).n_vars,
                self.assumptions == old(self).assumptions,
                self.dirty == old(self).dirty,
                self.stage == old(self).stage,
                self.pos == old(self).pos,
                self.trail_lim == old(self).trail_lim,
                self.value@.len() == old(self).n_vars,
                self.level@.len() == old(self).n_vars,
                self.reason@.len() == old(self).n_vars,
                self.is_assumption@.len() == old(self).n_vars,
                forall|j: int|
                    0 <= j < old(self).n_vars ==> #[trigger] self.value@[j] == if old(self).value@[j] is Some && old(self).pos@[j] < self.trail@.len() {
                        old(self).value@[j]
                    } else {
                        None
                    },
                forall|j: int|
                    0 <= j < old(self).n_vars ==> #[trigger] self.level@[j] == if old(self).value@[j] is Some && old(self).pos@[j] < self.trail@.len() {
                        old(self).level@[j]
                    } else {
                        0
                    },
                forall|j: int|
                    0 <= j < old(self).n_vars ==> #[trigger] self.reason@[j] == if old(self).value@[j] is Some && old(self).pos@[j] < self.trail@.len() {
                        old(self).reason@[j]
                    } else {
                        None
                    },
                forall|j: int|
                    0 <= j < old(self).n_vars ==> #[trigger] self.is_assumption@[j] == if old(self).value@[j] is Some && old(self).pos@[j] < self.trail@.len() {
                        old(self).is_assumption@[j]
                    } else {
                        false
                    },
                self.trail@.len() + count_none(self.value@) == old(self).n_vars,
            decreases self.trail@.len(),
        {
            let ghost len0 = self.trail@.len() as int;
            let ghost vals0 = self.value@;
            let lit = self.trail.pop().unwrap();
            let i = lit.var().idx();
            proof {
                assert(old(self).trail@[len0 - 1] == lit);
                assert(old(self).pos@[i as int] == len0 - 1);
                assert(old(self).value@[i as int] is Some);
                assert(vals0[i as int] is Some);
                assert(self.value@.update(i as int, None) == vals0.update(i as int, None));
                assert(vals0.update(i as int, None).update(i as int, vals0[i as int]) =~= vals0);
                lemma_count_none_update(vals0.update(i as int, None), i as int, vals0[i as int]->0);
            }
            self.value.set(i, None);
            self.level.set(i, 0);
            self.reason.set(i, None);
            self.is_assumption.set(i, false);
            proof {
                assert forall|j: int| 0 <= j < old(self).n_vars && j != i && old(self).value@[j] is Some implies old(self).pos@[j] != len0 - 1 by {
                    if old(self).pos@[j] == len0 - 1 {
                        assert(old(self).trail@[old(self).pos@[j]].var.index() == j);
                    }
                }
            }
        }
        proof {
            assert forall|j: int| 0 <= j < old(self).n_vars && old(self).value@[j] is Some implies (old(self).pos@[j] < target) == (old(self).level@[j] <= b) by {
                old(self).lemma_pos_level(j, b as int);
            }
            assert(self.value@ =~= old(self).prefix(b as int));
            assert forall|j: int| 0 <= j < old(self).n_vars implies #[trigger] self.level@[j] == if old(self).value@[j] is Some && old(self).level@[j] <= b {
                old(self).level@[j]
            } else {
                0
            } by {
                if old(self).value@[j] is Some {
                    old(self).lemma_pos_level(j, b as int);
                }
            }
            assert forall|j: int| 0 <= j < old(self).n_vars implies #[trigger] self.reason@[j] == if old(self).value@[j] is Some && old(self).level@[j] <= b {
                old(self).reason@[j]
            } else {
                None
            } by {
                if old(self).value@[j] is Some {
                    old(self).lemma_pos_level(j, b as int);
                }
            }
            assert forall|j: int| 0 <= j < old(self).n_vars implies #[trigger] self.is_assumption@[j] == if old(self).value@[j] is Some && old(self).level@[j] <= b {
                old(self).is_assumption@[j]
            } else {
                false
            } by {
                if old(self).value@[j] is Some {
                    old(self).lemma_pos_level(j, b as int);
                }
            }
        }
        self.trail_lim.truncate(b as usize);
    }

    /// Unwinding to the learned clause's level leaves a consistent search about
    /// to propagate that clause's asserting literal, and the measure gained by
    /// that propagation exceeds what the unwinding lost.
    proof fn lemma_backtracked(&self, new: &Search, learned: int, b: int)
        requires
            self.inv(),
            self.stage == (Stage::Backtrack { learned: learned as usize, to_level: b as u32 }),
            0 <= learned < self.clauses@.len(),
            0 <= b < self.trail_lim@.len(),
            new.trail@ == self.trail@.subrange(0, self.trail_lim@[b] as int),
            new.trail_lim@ == self.trail_lim@.subrange(0, b),
            new.value@ == self.prefix(b),
            new.level@.len() == self.n_vars,
            new.reason@.len() == self.n_vars,
            new.is_assumption@.len() == self.n_vars,
            forall|j: int|
                0 <= j < self.n_vars ==> #[trigger] new.level@[j] == if self.value@[j] is Some && self.level@[j] <= b {
                    self.level@[j]
                } else {
                    0
                },
            forall|j: int|
                0 <= j < self.n_vars ==> #[trigger] new.reason@[j] == if self.value@[j] is Some && self.level@[j] <= b {
                    self.reason@[j]
                } else {
                    None
                },
            forall|j: int|
                0 <= j < self.n_vars ==> #[trigger] new.is_assumption@[j] == if self.value@[j] is Some && self.level@[j] <= b {
                    self.is_assumption@[j]
                } else {
                    false
                },
            new.trail@.len() + count_none(new.value@) == self.n_vars,
            new.clauses == self.clauses,
            new.n_rules == self.n_rules,
            new.occ == self.occ,
            new.n_vars == self.n_vars,
            new.assumptions == self.assumptions,
            new.pos == self.pos,
            new.dirty@ == seq![learned as usize],
            new.stage is Propagate,
        ensures
            new.inv(),
            new.asserting(),
            new.measure() + weight(self.n_vars as nat, b) > self.measure(),
            new.rules() == self.rules(),
            new.db() == self.db(),
    {
        self.lemma_inv_facts();
        let d = self.trail_lim@.len() as int;
        let target = self.trail_lim@[b] as int;
        assert(b < d);
        assert(self.clauses@.len() == self.clauses.len());
        assert(new.db() == self.db());
        assert(new.rules() == self.rules());
        assert forall|j: int| 0 <= j < self.n_vars && self.value@[j] is Some implies (self.pos@[j] < target) == (self.level@[j] <= b) by {
            self.lemma_pos_level(j, b);
        }
        assert forall|j: int| 0 <= j < self.n_vars implies (#[trigger] new.value@[j] is Some) == (self.value@[j] is Some && self.level@[j] <= b) by {}
        // trail
        assert(new.trail_ok()) by {
            assert forall|t: int| 0 <= t < new.trail@.len() implies {
                let j = (#[trigger] new.trail@[t]).var.index();
                &&& j < new.n_vars
                &&& new.value@[j] == Some(new.trail@[t].positive)
                &&& new.pos@[j] == t
            } by {
                assert(new.trail@[t] == self.trail@[t]);
                let j = self.trail@[t].var.index();
                assert(self.value@[j] is Some);
            }
        }
        // levels
        assert forall|k: int| 0 <= k < b implies #[trigger] new.trail_lim@[k] == self.trail_lim@[k] && self.trail_lim@[k] < target by {}
        assert(new.levels_ok()) by {
            assert forall|j: int| 0 <= j < new.n_vars && (#[trigger] new.value@[j]) is Some implies {
                &&& new.level@[j] <= new.trail_lim@.len()
                &&& new.level@[j] > 0 ==> new.trail_lim@[new.level@[j] - 1] <= new.pos@[j]
                &&& new.level@[j] < new.trail_lim@.len() ==> new.pos@[j] < new.trail_lim@[new.level@[j] as int]
            } by {
                assert(self.value@[j] is Some);
            }
        }
        // reasons
        assert(new.reasons_ok()) by {
            assert forall|j: int| 0 <= j < new.n_vars && (#[trigger] new.value@[j]) is Some implies match new.reason@[j] {
                None => new.level@[j] > 0 && new.pos@[j] == new.trail_lim@[new.level@[j] - 1],
                Some(r) => {
                    &&& r < new.clauses@.len()
                    &&& forall|i: int|
                        0 <= i < new.clauses@[r as int]@.len() ==> {
                            let q = #[trigger] new.clauses@[r as int]@[i];
                            if q.var.index() == j {
                                q == new.trail@[new.pos@[j]]
                            } else {
                                &&& pvalue(new.value@, q) == Some(false)
                                &&& new.pos@[q.var.index()] < new.pos@[j]
                            }
                        }
                },
            } by {
                assert(self.value@[j] is Some);
                match self.reason@[j] {
                    None => {},
                    Some(r) => {
                        assert forall|i: int| 0 <= i < new.clauses@[r as int]@.len() implies {
                            let q = #[trigger] new.clauses@[r as int]@[i];
                            if q.var.index() == j {
                                q == new.trail@[new.pos@[j]]
                            } else {
                                &&& pvalue(new.value@, q) == Some(false)
                                &&& new.pos@[q.var.index()] < new.pos@[j]
                            }
                        } by {
                            let q = self.clauses@[r as int]@[i];
                            if q.var.index() != j {
                                assert(pvalue(self.value@, q) == Some(false));
                                assert(self.value@[q.var.index()] is Some);
                            }
                            assert(new.trail@[self.pos@[j]] == self.trail@[self.pos@[j]]);
                        }
                    },
                }
            }
        }
        // assumptions
        assert forall|k: int| 0 <= k < b implies #[trigger] new.flagged(k) == self.flagged(k) by {
            assert(new.trail@[new.trail_lim@[k] as int] == self.trail@[self.trail_lim@[k] as int]);
            let j = self.trail@[self.trail_lim@[k] as int].var.index();
            assert(self.value@[j] is Some);
        }
        assert(new.assumps_ok()) by {
            assert forall|j: int| 0 <= j < new.n_vars && #[trigger] new.is_assumption@[j] implies {
                &&& new.value@[j] is Some
                &&& new.reason@[j] is None
                &&& new.assumptions@.contains(value_lit(j, new.value@[j]->0))
            } by {
                assert(new.reason@[j] == self.reason@[j]);
                assert(self.is_assumption@[j]);
            }
            assert forall|k: int|
                0 <= k < new.trail_lim@.len() && !#[trigger] new.flagged(k) implies forall|i: int|
                    0 <= i < new.assumptions@.len() ==> {
                        &&& pvalue(new.value@, #[trigger] new.assumptions@[i]) == Some(true)
                        &&& new.pos@[new.assumptions@[i].var.index()] < new.trail_lim@[k]
                    } by {
                assert forall|i: int| 0 <= i < new.assumptions@.len() implies {
                    &&& pvalue(new.value@, #[trigger] new.assumptions@[i]) == Some(true)
                    &&& new.pos@[new.assumptions@[i].var.index()] < new.trail_lim@[k]
                } by {
                    assert(pvalue(self.value@, self.assumptions@[i]) == Some(true));
                    assert(self.value@[self.assumptions@[i].var.index()] is Some);
                }
            }
        }
        // soundness
        assert forall|m: int| 0 <= m <= b implies #[trigger] new.decs(m) == self.decs(m) by {
            assert(new.decs(m) =~= self.decs(m));
        }
        assert(new.sound_ok()) by {
            assert forall|t: int| 0 <= t < new.trail@.len() implies forced(
                new.db(),
                new.decs(new.level@[(#[trigger] new.trail@[t]).var.index()] as int),
                new.trail@[t],
            ) by {
                assert(new.trail@[t] == self.trail@[t]);
                let j = self.trail@[t].var.index();
                assert(self.value@[j] is Some);
            }
        }
        // stage
        assert forall|k: int| 0 <= k < b implies #[trigger] new.prefix(k) == self.prefix(k) by {
            assert(new.prefix(k) =~= self.prefix(k));
        }
        assert(new.stage_ok()) by {
            assert forall|j: int| 0 <= j < new.clauses@.len() && !new.dirty@.contains(j as usize) implies idle(new.value@, #[trigger] new.db()[j]) by {
                if j == learned {
                    assert(new.dirty@[0] == j as usize);
                }
                assert(idle(self.prefix(b), self.db()[j]));
            }
            assert forall|k: int, j: int|
                0 <= k < new.trail_lim@.len() && 0 <= j < new.clauses@.len() && j != -1 implies idle(#[trigger] new.prefix(k), #[trigger] new.db()[j]) by {
                assert(new.prefix(k) == self.prefix(k));
                if j != learned {
                    assert(idle(self.prefix(k), self.db()[j]));
                }
            }
        }
        // measure
        let bb = (self.n_vars + 2) as int;
        let n = self.n_vars as int;
        let len = self.trail@.len() as int;
        assert forall|i: int| 0 <= i < target implies self.level@[(#[trigger] self.trail@[i]).var.index()] == new.level@[new.trail@[i].var.index()] by {
            assert(new.trail@[i] == self.trail@[i]);
            let j = self.trail@[i].var.index();
            assert(self.value@[j] is Some);
        }
        self.lemma_psum_agree(new, target);
        assert forall|t: int| target <= t < len implies b + 1 <= self.level@[(#[trigger] self.trail@[t]).var.index()] <= self.n_vars by {
            let j = self.trail@[t].var.index();
            assert(self.value@[j] is Some);
            assert(self.pos@[j] == t);
        }
        self.lemma_psum_tail(target, len, b);
        let p = pow(bb, (n - b - 1) as nat);
        lemma_pow_positive(bb, (n - b - 1) as nat);
        lemma_pow_adds(bb, 1, (n - b - 1) as nat);
        lemma_pow1(bb);
        assert(pow(bb, (n - b) as nat) == bb * p);
        assert((len - target) * p < bb * p) by (nonlinear_arith)
            requires
                0 <= len - target <= n,
                bb == n + 2,
                p > 0,
        ;
        assert(new.measure() == new.psum(target));
    }

    /// Unwind to `to_level` and re-arm propagation from the learned clause.
    fn step_backtrack(&mut self, learned: ClauseRef, to_level: u32) -> (ev: Event)
        requires
            old(self).inv(),
            old(self).stage == (Stage::Backtrack { learned, to_level }),
        ensures
            final(self).inv(),
            final(self).asserting(),
            final(self).db() == old(self).db(),
            final(self).rules() == old(self).rules(),
            final(self).given() == old(self).given(),
            final(self).n() == old(self).n(),
            final(self).dl() == to_level,
            final(self).measure() + weight(old(self).n(), to_level as int) > old(self).measure(),
            (to_level as int) < old(self).dl(),
            final(self).trail_spec().len() <= old(self).trail_spec().len(),
            final(self).trail_spec() == old(self).trail_spec().subrange(0, final(self).trail_spec().len() as int),
            ev == (Event::Backtrack { to_level }),
    {
        let ghost s0 = *self;
        self.backtrack_to(to_level);
        self.dirty.clear();
        self.dirty.push(learned);
        self.stage = Stage::Propagate;
        proof {
            assert(self.dirty@ =~= seq![learned]);
            s0.lemma_backtracked(self, learned as int, to_level as int);
            s0.lemma_inv_facts();
        }
        Event::Backtrack { to_level }
    }
}


impl Search {
    /// A literal propagated or decided weighs something.
    proof fn lemma_weight_pos(n: nat, lvl: int)
        ensures
            weight(n, lvl) > 0,
    {
        lemma_pow_positive((n + 2) as int, (n - lvl) as nat);
    }

    /// Advance the search by exactly one [`Event`] and return it.
    ///
    /// Never blocks: pump it in a loop (see [`Search::run`]) for a full solve, or
    /// one event per frame for a stepping view. Once terminal, every call
    /// re-emits the same `Sat`/`Unsat` and changes nothing.
    pub fn step(&mut self) -> (ev: Event)
        requires
            old(self).inv(),
        ensures
            final(self).inv(),
            final(self).rules() == old(self).rules(),
            final(self).given() == old(self).given(),
            final(self).n() == old(self).n(),
            old(self).done() ==> *final(self) == *old(self),
            old(self).done() ==> event_verdict(ev) == old(self).verdict(),
            final(self).verdict() == event_verdict(ev),
            final(self).done() <==> (ev is Sat || ev is Unsat),
            (ev is Conflict || ev is Learn || ev is Sat || ev is Unsat) ==> final(self).dl() == old(self).dl(),
            ev is Sat ==> final(self).sat_facts(),
            ev is Sat ==> forall|j: int| 0 <= j < final(self).n() ==> (#[trigger] final(self).vals()[j]) is Some,
            ev matches Event::Unsat { core } ==> final(self).unsat_facts(core@),
            ev matches Event::Decide { lit } ==> final(self).trail_spec() == old(self).trail_spec().push(lit) && final(self).dl() == old(self).dl() + 1
                && next_decision(old(self).vals(), old(self).given(), lit) && final(self).records_decision(*old(self), lit)
                && is_fixpoint(old(self).vals(), old(self).db()),
            ev matches Event::Propagate { lit, reason } ==> {
                &&& final(self).trail_spec() == old(self).trail_spec().push(lit)
                &&& lit.var.index() < final(self).n()
                &&& final(self).vals()[lit.var.index()] == Some(lit.positive)
                &&& final(self).dl() == old(self).dl()
                &&& reason < final(self).db().len()
                &&& exists|u: int| unit_at(old(self).vals(), final(self).db()[reason as int], u) && final(self).db()[reason as int][u] == lit
            },
            ev matches Event::Conflict { clause } ==> {
                &&& clause < final(self).db().len()
                &&& all_false(final(self).vals(), final(self).db()[clause as int])
                &&& final(self).trail_spec() == old(self).trail_spec()
            },
            ev matches Event::Learn { clause } ==> final(self).db() == old(self).db().push(clause@) && entails(final(self).rules(), clause@)
                && final(self).learned_asserting(),
            ev matches Event::Backtrack { to_level } ==> {
                &&& final(self).dl() == to_level
                &&& (to_level as int) < old(self).dl()
                &&& final(self).trail_spec() == old(self).trail_spec().subrange(0, final(self).trail_spec().len() as int)
                &&& forall|j: int|
                    0 <= j < final(self).n() && (#[trigger] final(self).vals()[j]) is Some ==> final(self).level_spec(j) <= to_level
            },
            (ev is Propagate || ev is Decide) ==> final(self).measure() > old(self).measure(),
            (ev is Conflict || ev is Learn) ==> final(self).measure() == old(self).measure() && final(self).rank() < old(self).rank(),
            ev is Backtrack ==> final(self).asserting() && final(self).measure() + weight(final(self).n(), final(self).dl() as int) > old(self).measure(),
            old(self).asserting() ==> ev is Propagate && final(self).measure() == old(self).measure() + weight(old(self).n(), old(self).dl() as int),
    {
        let ghost s0 = *self;
        let mut terminal: Option<Event> = None;
        match &self.stage {
            Stage::Done(Final::Sat) => {
                terminal = Some(Event::Sat);
            },
            Stage::Done(Final::Unsat(core)) => {
                terminal = Some(Event::Unsat { core: copy_lits(core) });
            },
            _ => {},
        }
        match terminal {
            Some(ev) => {
                proof {
                    match ev {
                        Event::Unsat { core: ref cc } => {
                            let stored = self.stage->Done_0->Unsat_0;
                            assert(cc@ == stored@);
                            assert forall|i: int| 0 <= i < cc@.len() implies self.given().contains(#[trigger] cc@[i]) by {
                                assert(cc@[i] == stored@[i]);
                            }
                        },
                        _ => {
                            self.lemma_db_model(self.value@);
                        },
                    }
                }
                return ev;
            },
            None => {},
        }
        proof {
            self.lemma_inv_facts();
            Search::lemma_weight_pos(self.n_vars as nat, self.trail_lim@.len() as int);
            Search::lemma_weight_pos(self.n_vars as nat, self.trail_lim@.len() as int + 1);
        }
        let ev = match &self.stage {
            Stage::Propagate => self.step_propagate(),
            Stage::Analyze(c) => {
                let c = *c;
                self.step_analyze(c)
            },
            Stage::Backtrack { learned, to_level } => {
                let learned = *learned;
                let to_level = *to_level;
                self.step_backtrack(learned, to_level)
            },
            Stage::Done(_) => Event::Sat,
        };
        proof {
            if ev is Sat {
                self.lemma_inv_facts();
            }
            self.lemma_levels();
            if ev is Propagate {
                self.lemma_trail_values();
                assert(self.trail_spec()[self.trail_spec().len() - 1] == ev->Propagate_lit);
            }
        }
        ev
    }

    /// Drive the search to completion and return its outcome.
    pub fn run(&mut self) -> (out: SolveOutcome)
        requires
            old(self).inv(),
        ensures
            final(self).inv(),
            final(self).done(),
            final(self).rules() == old(self).rules(),
            final(self).given() == old(self).given(),
            outcome_sound(old(self).rules(), old(self).given(), out),
            out matches SolveOutcome::Sat(m) ==> m@.len() == old(self).n(),
    {
        loop
            invariant
                self.inv(),
                self.rules() == old(self).rules(),
                self.given() == old(self).given(),
                self.n() == old(self).n(),
            decreases pow((self.n() + 2) as int, (self.n() + 1) as nat) - self.measure(), self.rank(),
        {
            proof {
                self.lemma_measure_bound();
            }
            let ghost m0 = self.measure();
            let ev = self.step();
            match ev {
                Event::Sat => {
                    let model = self.assignment();
                    proof {
                        self.lemma_inv_facts();
                        lemma_model_satisfiable(self.vals(), self.rules(), self.given());
                        assert(clauses_below(self.rules(), self.n() as int)) by {
                            assert forall|j: int| 0 <= j < self.rules().len() implies lits_below(#[trigger] self.rules()[j], self.n() as int) by {
                                assert(self.rules()[j] == self.db()[j]);
                            }
                        }
                    }
                    return SolveOutcome::Sat(model);
                },
                Event::Unsat { core } => {
                    return SolveOutcome::Unsat(core);
                },
                Event::Backtrack { .. } => {
                    let ghost m1 = self.measure();
                    let ghost d1 = self.dl();
                    let ev2 = self.step();
                    proof {
                        assert(self.measure() == m1 + weight(self.n(), d1 as int));
                    }
                },
                _ => {},
            }
            proof {
                self.lemma_measure_bound();
                assert(self.measure() >= m0);
            }
        }
    }
}


impl Cdcl {
    /// The rule clauses installed.
    pub closed spec fn rules_spec(&self) -> Seq<Seq<Lit>> {
        lists_view(self.rules@)
    }

    /// The number of variables that the installed rules span.
    pub closed spec fn var_span(&self) -> nat {
        self.n_vars as nat
    }

    /// The variable count stays within the literal range and spans the rules.
    pub closed spec fn wf(&self) -> bool {
        &&& self.n_vars <= MAX_VAR_IDX + 1
        &&& clauses_below(self.rules_spec(), self.n_vars as int)
    }

    /// A solver with no rules loaded.
    pub fn new() -> (s: Cdcl)
        ensures
            s.wf(),
            s.rules_spec() == Seq::<Seq<Lit>>::empty(),
            s.var_span() == 0,
    {
        let s = Cdcl { rules: Vec::new(), n_vars: 0 };
        assert(s.rules_spec() =~= Seq::<Seq<Lit>>::empty());
        s
    }

    /// A solver with `cnf` already installed as its rules.
    pub fn from_cnf(cnf: &Cnf) -> (s: Cdcl)
        ensures
            s.wf(),
            s.rules_spec() == cnf@,
    {
        let mut s = Cdcl::new();
        s.load_rules(cnf);
        s
    }

    /// Begin a fresh, steppable search under `assumptions`.
    pub fn search(&self, assumptions: &[Lit]) -> (s: Search)
        requires
            self.wf(),
        ensures
            s.inv(),
            s.rules() == self.rules_spec(),
            s.db() == self.rules_spec(),
            s.given() == assumptions@,
            s.trail_spec().len() == 0,
            s.dl() == 0,
            !s.done(),
            s.verdict() is None,
            s.base_level_spec() == 0,
            s.n() >= self.var_span(),
            s.n() == if lits_span(assumptions@) > self.var_span() {
                lits_span(assumptions@)
            } else {
                self.var_span()
            },
            forall|j: int| 0 <= j < s.n() ==> (#[trigger] s.vals()[j]) is None,
    {
        let s = Search::new(copy_clauses(&self.rules), self.n_vars, assumptions);
        proof {
            s.lemma_levels();
        }
        s
    }
}

impl Default for Cdcl {
    fn default() -> (s: Cdcl)
        ensures
            s.wf(),
            s.rules_spec() == Seq::<Seq<Lit>>::empty(),
    {
        Cdcl::new()
    }
}

impl Solver for Cdcl {
    closed spec fn rules(&self) -> Seq<Seq<Lit>> {
        self.rules_spec()
    }

    /// Loading replaces the rules.
    open spec fn loaded(before: Seq<Seq<Lit>>, cnf: Seq<Seq<Lit>>) -> Seq<Seq<Lit>> {
        cnf
    }

    closed spec fn inv(&self) -> bool {
        self.wf()
    }

    /// A model spans the rules' variables and those of the assumptions.
    closed spec fn width(&self, assumptions: Seq<Lit>) -> nat {
        if lits_span(assumptions) > self.n_vars {
            lits_span(assumptions)
        } else {
            self.n_vars as nat
        }
    }

    proof fn lemma_width_keeps(&self, assumptions: Seq<Lit>, l: Lit) {
        assert(assumptions.push(l).drop_last() =~= assumptions);
    }

    fn load_rules(&mut self, cnf: &Cnf) {
        self.n_vars = var_count(cnf);
        let mut rules: Vec<Vec<Lit>> = Vec::new();
        let mut i: usize = 0;
        while i < cnf.clauses.len()
            invariant
                i <= cnf@.len(),
                rules@.len() == i,
                forall|j: int| 0 <= j < i ==> (#[trigger] rules@[j])@ == cnf@[j],
            decreases cnf@.len() - i,
        {
            rules.push(copy_lits(&cnf.clauses[i].lits));
            i = i + 1;
        }
        self.rules = rules;
        assert(self.rules_spec() =~= cnf@);
    }

    fn solve(&mut self, assumptions: &[Lit]) -> (out: SolveOutcome) {
        let mut search = self.search(assumptions);
        search.run()
    }
}


impl Search {
    /// The clause learned last is asserting: at the level the search is about
    /// to backtrack to, below the current one, the values set up to that level
    /// make it unit on its first literal, and those of every lower level leave it
    /// neither unit nor false.
    pub closed spec fn learned_asserting(&self) -> bool {
        match self.stage {
            Stage::Backtrack { learned, to_level } => {
                &&& learned as int == self.db().len() - 1
                &&& (to_level as int) < self.dl()
                &&& forall|k: int| 0 <= k < to_level ==> idle(#[trigger] self.prefix(k), self.db()[learned as int])
                &&& unit_at(self.prefix(to_level as int), self.db()[learned as int], 0)
            },
            _ => false,
        }
    }

    /// The search is between moves with nothing left to propagate: every clause
    /// is idle under the current values.
    pub closed spec fn quiescent(&self) -> bool {
        self.stage is Propagate && self.dirty@.len() == 0
    }

    /// Failed-literal probe over the current partial assignment: would asserting
    /// `lit` now force a unit-propagation conflict?
    ///
    /// The search itself is left untouched. Because the probe starts from the
    /// live trail, branching guesses included, a `true` answer means `lit` is
    /// refuted given the current tentative state, not necessarily in every
    /// solution. An assigned literal is refuted exactly when it is false.
    pub fn probe(&self, lit: Lit) -> (refuted: bool)
        requires
            self.inv(),
            lit.var.index() < self.n(),
        ensures
            pvalue(self.vals(), lit) is Some ==> refuted == (pvalue(self.vals(), lit) == Some(false)),
            refuted ==> forced(self.rules(), self.trail_spec(), lit.neg()),
            refuted ==> !bcp_consistent(self.db(), self.trail_spec().push(lit)),
            !refuted && self.quiescent() ==> bcp_consistent(self.db(), self.trail_spec().push(lit)),
            pvalue(self.vals(), lit) is None ==> refuted == !settles(
                self.db(),
                self.vals(),
                self.vals().update(lit.var.index(), Some(lit.positive)),
            ),
    {
        proof {
            self.lemma_inv_facts();
        }
        let ghost cs = self.db();
        let ghost given = self.trail@.push(lit);
        let idx = lit.var().idx();
        let ghost tl_lit = self.trail@[self.pos@[idx as int]];
        match self.value[idx] {
            Some(v) => {
                proof {
                    assert(tl_lit.var.index() == idx);
                    if v != lit.positive {
                        assert(tl_lit == lit.neg());
                        assert forall|tau: spec_fn(int) -> bool| cnf_holds(tau, self.rules()) && all_hold(tau, self.trail@) implies #[trigger] lit_holds(tau, lit.neg()) by {
                            assert(lit_holds(tau, self.trail@[self.pos@[idx as int]]));
                        }
                        if bcp_consistent(cs, given) {
                            let big = choose|big: Seq<Option<bool>>| is_fixpoint(big, cs) && holds_all(big, given);
                            assert(pvalue(big, given[self.pos@[idx as int]]) == Some(true));
                            assert(pvalue(big, given[given.len() - 1]) == Some(true));
                        }
                    } else if self.quiescent() {
                        self.lemma_quiescent_fixpoint();
                        assert(holds_all(self.value@, given)) by {
                            assert forall|i: int| 0 <= i < given.len() implies pvalue(self.value@, #[trigger] given[i]) == Some(true) by {
                                if i < self.trail@.len() {
                                    assert(given[i] == self.trail@[i]);
                                }
                            }
                        }
                    }
                }
                return v != lit.is_pos();
            },
            None => {},
        }
        let mut values = copy_values(&self.value);
        values.set(idx, Some(lit.is_pos()));
        let mut worklist = copy_indices(&self.occ[idx]);
        proof {
            self.lemma_probe_start(lit, values@);
            assert forall|j: int| 0 <= j < self.clauses@.len() implies lits_below(#[trigger] self.clauses@[j]@, self.n_vars as int) by {
                assert(self.db()[j] == self.clauses@[j]@);
            }
            assert(occ_ok(self.clauses@, self.occ@, self.n_vars as int));
            assert forall|m: int| 0 <= m < worklist@.len() implies #[trigger] worklist@[m] < self.clauses@.len() by {
                assert(worklist@[m] == self.occ@[idx as int]@[m]);
            }
            if self.quiescent() {
                assert forall|j: int| 0 <= j < self.clauses@.len() && !worklist@.contains(j as usize) implies idle(values@, #[trigger] lists_view(self.clauses@)[j]) by {
                    let c = self.db()[j];
                    assert(!self.dirty@.contains(j as usize));
                    assert forall|i: int| 0 <= i < c.len() implies (#[trigger] c[i]).var.index() != idx by {
                        if c[i].var.index() == idx {
                            assert(self.clauses@[j]@[i] == c[i]);
                            assert(self.occ@[idx as int]@.contains(j as usize));
                            let m = choose|m: int| 0 <= m < self.occ@[idx as int]@.len() && self.occ@[idx as int]@[m] == j as usize;
                            assert(worklist@[m] == j as usize);
                        }
                    }
                    lemma_count_frame(self.value@, c, idx as int, Some(lit.positive));
                }
            }
        }
        proof {
            self.lemma_probe_settle_start(lit, values@, worklist@);
        }
        let conflict = bcp_fixpoint(
            &self.clauses,
            &self.occ,
            self.n_vars,
            &mut values,
            &mut worklist,
            Ghost(given),
            Ghost(self.quiescent()),
            Ghost(Some(self.value@)),
        );
        proof {
            if conflict {
                assert forall|tau: spec_fn(int) -> bool| cnf_holds(tau, self.rules()) && all_hold(tau, self.trail@) implies #[trigger] lit_holds(tau, lit.neg()) by {
                    assert(cnf_holds(tau, cs)) by {
                        assert forall|jj: int| 0 <= jj < cs.len() implies clause_holds(tau, #[trigger] cs[jj]) by {
                            assert(entails(self.rules(), cs[jj]));
                        }
                    }
                    if !lit_holds(tau, lit.neg()) {
                        assert(all_hold(tau, given)) by {
                            assert forall|i: int| 0 <= i < given.len() implies lit_holds(tau, #[trigger] given[i]) by {
                                if i < self.trail@.len() {
                                    assert(given[i] == self.trail@[i]);
                                }
                            }
                        }
                    }
                }
            }
        }
        conflict
    }

    /// With nothing left to propagate, the values are a fixpoint.
    proof fn lemma_quiescent_fixpoint(&self)
        requires
            self.inv(),
            self.quiescent(),
        ensures
            is_fixpoint(self.value@, self.db()),
    {
        assert forall|j: int| 0 <= j < self.db().len() implies idle(self.value@, #[trigger] self.db()[j]) by {
            assert(!self.dirty@.contains(j as usize));
        }
    }

    /// Propagation from the values plus the fresh literal `lit` starts settled:
    /// every clause of `lit`'s variable is queued, and no other clause mentions
    /// a variable set beyond the search's values.
    proof fn lemma_probe_settle_start(&self, lit: Lit, vals: Seq<Option<bool>>, wl: Seq<usize>)
        requires
            self.inv(),
            lit.var.index() < self.n_vars,
            self.value@[lit.var.index()] is None,
            vals == self.value@.update(lit.var.index(), Some(lit.positive)),
            wl == self.occ@[lit.var.index()]@,
        ensures
            occ_exact(self.db(), self.occ@),
            settle_ok(self.db(), self.value@, vals, vals, wl),
    {
        let cs = self.db();
        let idx = lit.var.index();
        let base = self.value@;
        assert forall|m: int| 0 <= m < wl.len() implies touches_new(vals, base, cs[#[trigger] wl[m] as int]) by {
            assert(has_var(cs[wl[m] as int], idx));
            let c = cs[wl[m] as int];
            let i = choose|i: int| 0 <= i < c.len() && c[i].var.index() == idx;
            assert(vals[idx] is Some);
        }
        assert forall|j: int|
            0 <= j < cs.len() && !wl.contains(j as usize) && touches_new(vals, base, #[trigger] cs[j]) implies idle(vals, cs[j]) by {
            let c = cs[j];
            let i = choose|i: int|
                0 <= i < c.len() && 0 <= c[i].var.index() < vals.len() && vals[c[i].var.index()] is Some && base[c[i].var.index()] is None;
            assert(c[i].var.index() == idx);
            assert(self.clauses@[j]@ == c);
            assert(self.occ@[idx]@.contains(j as usize));
        }
    }

    /// The values plus the fresh literal `lit` make every trail literal and
    /// `lit` true, sit below every fixpoint that does, and are forced by them.
    proof fn lemma_probe_start(&self, lit: Lit, vals: Seq<Option<bool>>)
        requires
            self.inv(),
            lit.var.index() < self.n_vars,
            self.value@[lit.var.index()] is None,
            vals == self.value@.update(lit.var.index(), Some(lit.positive)),
        ensures
            holds_all(vals, self.trail@.push(lit)),
            below_every_fixpoint(self.db(), self.trail@.push(lit), vals),
            values_forced(self.db(), self.trail@.push(lit), vals),
    {
        let given = self.trail@.push(lit);
        let idx = lit.var.index();
        let len = self.trail@.len() as int;
        assert forall|i: int| 0 <= i < given.len() implies pvalue(vals, #[trigger] given[i]) == Some(true) by {
            if i < len {
                assert(given[i] == self.trail@[i]);
                assert(self.trail@[i].var.index() != idx);
            }
        }
        assert forall|k: int| 0 <= k < vals.len() && (#[trigger] vals[k]) is Some implies given.contains(value_lit(k, vals[k]->0)) by {
            if k == idx {
                assert(given[len] == lit);
                assert(value_lit(k, lit.positive) == lit);
            } else {
                let t = self.pos@[k];
                assert(self.trail@[t].var.index() == k);
                assert(given[t] == self.trail@[t]);
                assert(value_lit(k, vals[k]->0) == self.trail@[t]);
            }
        }
        assert forall|big: Seq<Option<bool>>| is_fixpoint(big, self.db()) && holds_all(big, given) implies #[trigger] extends(big, vals) by {
            assert forall|k: int| 0 <= k < vals.len() && (#[trigger] vals[k]) is Some implies k < big.len() && big[k] == vals[k] by {
                let m = choose|m: int| 0 <= m < given.len() && given[m] == value_lit(k, vals[k]->0);
                assert(pvalue(big, given[m]) == Some(true));
            }
        }
        assert forall|k: int| 0 <= k < vals.len() && (#[trigger] vals[k]) is Some implies forced(self.db(), given, value_lit(k, vals[k]->0)) by {
            let m = choose|m: int| 0 <= m < given.len() && given[m] == value_lit(k, vals[k]->0);
            assert forall|tau: spec_fn(int) -> bool| cnf_holds(tau, self.db()) && all_hold(tau, given) implies #[trigger] lit_holds(tau, value_lit(k, vals[k]->0)) by {
                assert(lit_holds(tau, given[m]));
            }
        }
    }
}

/// A copy of a value list.
fn copy_values(v: &Vec<Option<bool>>) -> (r: Vec<Option<bool>>)
    ensures
        r@ == v@,
{
    let mut r: Vec<Option<bool>> = Vec::new();
    let mut i: usize = 0;
    while i < v.len()
        invariant
            i <= v@.len(),
            r@ == v@.subrange(0, i as int),
        decreases v@.len() - i,
    {
        r.push(v[i]);
        i = i + 1;
        assert(r@ =~= v@.subrange(0, i as int));
    }
    assert(v@.subrange(0, i as int) =~= v@);
    r
}

/// A copy of an index list.
fn copy_indices(v: &Vec<usize>) -> (r: Vec<usize>)
    ensures
        r@ == v@,
{
    let mut r: Vec<usize> = Vec::new();
    let mut i: usize = 0;
    while i < v.len()
        invariant
            i <= v@.len(),
            r@ == v@.subrange(0, i as int),
        decreases v@.len() - i,
    {
        r.push(v[i]);
        i = i + 1;
        assert(r@ =~= v@.subrange(0, i as int));
    }
    assert(v@.subrange(0, i as int) =~= v@);
    r
}


impl Search {
    /// A literal whose negation the rules force from the trail holds in no total
    /// assignment that agrees with every value the search holds and satisfies
    /// every clause of its database, rules and learned clauses alike.
    pub proof fn lemma_refuted_everywhere(&self, lit: Lit, tau: spec_fn(int) -> bool)
        requires
            self.inv(),
            forced(self.rules(), self.trail_spec(), lit.neg()),
            forall|j: int| 0 <= j < self.n() && (#[trigger] self.vals()[j]) is Some ==> tau(j) == self.vals()[j]->0,
            lit_holds(tau, lit),
        ensures
            !cnf_holds(tau, self.db()),
    {
        self.lemma_inv_facts();
        self.lemma_trail_values();
        if cnf_holds(tau, self.db()) {
            assert(cnf_holds(tau, self.rules())) by {
                assert forall|j: int| 0 <= j < self.rules().len() implies clause_holds(tau, #[trigger] self.rules()[j]) by {
                    assert(self.rules()[j] == self.db()[j]);
                }
            }
            assert(all_hold(tau, self.trail_spec())) by {
                assert forall|i: int| 0 <= i < self.trail_spec().len() implies lit_holds(tau, #[trigger] self.trail_spec()[i]) by {
                    let j = self.trail_spec()[i].var.index();
                    assert(self.vals()[j] == Some(self.trail_spec()[i].positive));
                }
            }
            assert(lit_holds(tau, lit.neg()));
        }
    }
}

impl Search {
    /// Every trail literal sits on a variable of the search and is true.
    pub proof fn lemma_trail_values(&self)
        requires
            self.inv(),
        ensures
            forall|t: int|
                0 <= t < self.trail_spec().len() ==> {
                    &&& (#[trigger] self.trail_spec()[t]).var.index() < self.n()
                    &&& self.vals()[self.trail_spec()[t].var.index()] == Some(self.trail_spec()[t].positive)
                },
    {
    }

    /// The trail lists each assigned variable exactly once, and the decision
    /// levels never decrease along it.
    pub proof fn lemma_trail_shape(&self)
        requires
            self.inv(),
        ensures
            forall|t1: int, t2: int|
                0 <= t1 < t2 < self.trail_spec().len() ==> (#[trigger] self.trail_spec()[t1]).var != (#[trigger] self.trail_spec()[t2]).var,
            forall|j: int|
                0 <= j < self.n() && (#[trigger] self.vals()[j]) is Some ==> exists|t: int|
                    0 <= t < self.trail_spec().len() && (#[trigger] self.trail_spec()[t]).var.index() == j,
            forall|t1: int, t2: int|
                0 <= t1 <= t2 < self.trail_spec().len() ==> self.level_spec((#[trigger] self.trail_spec()[t1]).var.index())
                    <= self.level_spec((#[trigger] self.trail_spec()[t2]).var.index()),
    {
        assert forall|t1: int, t2: int|
            0 <= t1 < t2 < self.trail_spec().len() implies (#[trigger] self.trail_spec()[t1]).var != (#[trigger] self.trail_spec()[t2]).var by {
            assert(self.pos@[self.trail@[t1].var.index()] == t1);
            assert(self.pos@[self.trail@[t2].var.index()] == t2);
        }
        assert forall|j: int| 0 <= j < self.n() && (#[trigger] self.vals()[j]) is Some implies exists|t: int|
            0 <= t < self.trail_spec().len() && (#[trigger] self.trail_spec()[t]).var.index() == j by {
            let t = self.pos@[j];
            assert(self.trail_spec()[t].var.index() == j);
        }
        assert forall|t1: int, t2: int|
            0 <= t1 <= t2 < self.trail_spec().len() implies self.level_spec((#[trigger] self.trail_spec()[t1]).var.index())
                <= self.level_spec((#[trigger] self.trail_spec()[t2]).var.index()) by {
            let j1 = self.trail@[t1].var.index();
            let j2 = self.trail@[t2].var.index();
            assert(self.value@[j1] is Some);
            assert(self.value@[j2] is Some);
            assert(self.pos@[j1] == t1);
            assert(self.pos@[j2] == t2);
            let l1 = self.level@[j1] as int;
            let l2 = self.level@[j2] as int;
            if l1 > l2 {
                assert(self.trail_lim@[l1 - 1] <= t1);
                assert(t2 < self.trail_lim@[l2]);
                if l2 < l1 - 1 {
                    assert(self.trail_lim@[l2] < self.trail_lim@[l1 - 1]);
                }
            }
        }
    }
}

} // verus!
