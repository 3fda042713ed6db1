//! The CNF vocabulary: variables, literals, clauses, formulas.
//!
//! A [`Var`] is a dense index from 0; a [`Lit`] is a variable with a polarity.
//! A [`Clause`] is a disjunction of literals and a [`Cnf`] a conjunction of
//! clauses. Their meaning is given over *total* assignments, a function from
//! variable indices to truth values: see [`lit_holds`], [`clause_holds`],
//! [`cnf_holds`] and [`entails`].
//!
//! [`VarManager`] hands out fresh variables that carry no puzzle meaning, for the
//! auxiliary registers of the sequential encodings.

use vstd::prelude::*;

verus! {

/// The largest index a variable can carry: `(u32::MAX - 1) / 2`, so that a
/// literal over it still fits in a `u32`.
pub const MAX_VAR_IDX: u32 = 2147483647u32;

/// A boolean variable, indexed densely from 0.
#[derive(Clone, Copy, PartialEq, Eq, Hash, PartialOrd, Ord, Debug, Structural)]
pub struct Var {
    /// The variable's index, at most [`MAX_VAR_IDX`].
    pub(crate) idx: u32,
}

/// A literal: a variable together with a polarity.
#[derive(Clone, Copy, PartialEq, Eq, Hash, PartialOrd, Ord, Debug, Structural)]
pub struct Lit {
    /// The literal's variable.
    pub var: Var,
    /// `true` for the positive literal `x`, `false` for `¬x`.
    pub positive: bool,
}

impl Var {
    /// A variable's index never exceeds [`MAX_VAR_IDX`].
    #[verifier::type_invariant]
    pub(crate) closed spec fn in_range(self) -> bool {
        self.idx <= MAX_VAR_IDX
    }

    /// The variable's index as a mathematical integer.
    pub closed spec fn index(self) -> int {
        self.idx as int
    }


    /// The variable with index `idx`.
    pub fn new(idx: u32) -> (v: Var)
        requires
            idx <= MAX_VAR_IDX,
        ensures
            v.index() == idx,
    {
        Var { idx }
    }

    /// The variable's index as a `usize`.
    pub fn idx(self) -> (i: usize)
        ensures
            i == self.index(),
            i <= MAX_VAR_IDX,
    {
        proof {
            use_type_invariant(&self);
        }
        self.idx as usize
    }

    /// The positive literal `x` of this variable.
    pub fn pos_lit(self) -> (l: Lit)
        ensures
            l == (Lit { var: self, positive: true }),
    {
        Lit { var: self, positive: true }
    }

    /// The negative literal `¬x` of this variable.
    pub fn neg_lit(self) -> (l: Lit)
        ensures
            l == (Lit { var: self, positive: false }),
    {
        Lit { var: self, positive: false }
    }
}

impl Lit {
    /// The literal with the opposite polarity over the same variable.
    pub open spec fn neg(self) -> Lit {
        Lit { var: self.var, positive: !self.positive }
    }

    /// The literal's variable index.
    pub open spec fn index(self) -> int {
        self.var.index()
    }

    /// The literal's variable.
    pub fn var(self) -> (v: Var)
        ensures
            v == self.var,
    {
        self.var
    }

    /// Whether this is the positive literal of its variable.
    pub fn is_pos(self) -> (b: bool)
        ensures
            b == self.positive,
    {
        self.positive
    }

    /// Whether this is the negative literal of its variable.
    pub fn is_neg(self) -> (b: bool)
        ensures
            b == !self.positive,
    {
        !self.positive
    }

    /// The complementary literal (`!lit`).
    pub fn negate(self) -> (l: Lit)
        ensures
            l == self.neg(),
    {
        Lit { var: self.var, positive: !self.positive }
    }
}

/// The variable with index `i`, as a specification value.
pub closed spec fn var_at(i: int) -> Var {
    Var { idx: i as u32 }
}

/// A specification variable carries the index it was built from.
pub broadcast proof fn lemma_var_at(i: int)
    requires
        0 <= i <= u32::MAX,
    ensures
        #[trigger] var_at(i).index() == i,
{
}

/// A variable is the specification variable at its own index.
pub broadcast proof fn lemma_var_at_index(v: Var)
    ensures
        #[trigger] var_at(v.index()) == v,
{
}

/// Two variables are equal exactly when their indices are.
pub broadcast proof fn lemma_index_injective(a: Var, b: Var)
    ensures
        (#[trigger] a.index() == #[trigger] b.index()) <==> a == b,
{
}

/// An index is never negative.
pub broadcast proof fn lemma_index_nonneg(a: Var)
    ensures
        0 <= #[trigger] a.index() <= u32::MAX,
{
}

/// Every variable of `lits` has an index below `n`.
pub open spec fn lits_below(lits: Seq<Lit>, n: int) -> bool {
    forall|i: int| 0 <= i < lits.len() ==> #[trigger] lits[i].var.index() < n
}

/// Every variable of every clause of `cs` has an index below `n`.
pub open spec fn clauses_below(cs: Seq<Seq<Lit>>, n: int) -> bool {
    forall|j: int| 0 <= j < cs.len() ==> lits_below(#[trigger] cs[j], n)
}

/// `lit` is true under the total assignment `tau`.
pub open spec fn lit_holds(tau: spec_fn(int) -> bool, lit: Lit) -> bool {
    tau(lit.var.index()) == lit.positive
}

/// Some literal of `c` is true under `tau`.
pub open spec fn clause_holds(tau: spec_fn(int) -> bool, c: Seq<Lit>) -> bool {
    exists|i: int| 0 <= i < c.len() && lit_holds(tau, #[trigger] c[i])
}

/// Every clause of `cs` is true under `tau`.
pub open spec fn cnf_holds(tau: spec_fn(int) -> bool, cs: Seq<Seq<Lit>>) -> bool {
    forall|j: int| 0 <= j < cs.len() ==> clause_holds(tau, #[trigger] cs[j])
}

/// Every literal of `lits` is true under `tau`.
pub open spec fn all_hold(tau: spec_fn(int) -> bool, lits: Seq<Lit>) -> bool {
    forall|i: int| 0 <= i < lits.len() ==> lit_holds(tau, #[trigger] lits[i])
}

/// Every total assignment satisfying `cs` satisfies the clause `c`.
pub open spec fn entails(cs: Seq<Seq<Lit>>, c: Seq<Lit>) -> bool {
    forall|tau: spec_fn(int) -> bool| cnf_holds(tau, cs) ==> #[trigger] clause_holds(tau, c)
}

/// Some total assignment satisfies `cs` and makes every literal of `lits` true.
pub open spec fn satisfiable_under(cs: Seq<Seq<Lit>>, lits: Seq<Lit>) -> bool {
    exists|tau: spec_fn(int) -> bool| cnf_holds(tau, cs) && all_hold(tau, lits)
}

/// `lit` is true in every total assignment that satisfies `cs` and `lits`.
pub open spec fn forced(cs: Seq<Seq<Lit>>, lits: Seq<Lit>, lit: Lit) -> bool {
    forall|tau: spec_fn(int) -> bool| cnf_holds(tau, cs) && all_hold(tau, lits) ==> #[trigger] lit_holds(tau, lit)
}

/// A disjunction of literals.
#[derive(Clone, Debug, PartialEq, Eq)]
pub struct Clause {
    /// The literals, in insertion order.
    pub lits: Vec<Lit>,
}

impl View for Clause {
    type V = Seq<Lit>;

    open spec fn view(&self) -> Seq<Lit> {
        self.lits@
    }
}

impl Clause {
    /// The empty clause.
    pub fn new() -> (c: Clause)
        ensures
            c@ == Seq::<Lit>::empty(),
    {
        Clause { lits: Vec::new() }
    }

    /// Append `lit`.
    pub fn add(&mut self, lit: Lit)
        ensures
            final(self)@ == old(self)@.push(lit),
    {
        self.lits.push(lit);
    }

    /// The number of literals.
    pub fn len(&self) -> (n: usize)
        ensures
            n == self@.len(),
    {
        self.lits.len()
    }

    /// Whether the clause has no literals.
    pub fn is_empty(&self) -> (b: bool)
        ensures
            b == (self@.len() == 0),
    {
        self.lits.len() == 0
    }

    /// The literals as a slice.
    pub fn as_slice(&self) -> (s: &[Lit])
        ensures
            s@ == self@,
    {
        self.lits.as_slice()
    }
}

/// Build a [`Clause`] holding `lits` in order.
pub fn clause(lits: &[Lit]) -> (c: Clause)
    ensures
        c@ == lits@,
{
    let mut v: Vec<Lit> = Vec::new();
    let mut i: usize = 0;
    while i < lits.len()
        invariant
            i <= lits@.len(),
            v@ == lits@.subrange(0, i as int),
        decreases lits@.len() - i,
    {
        v.push(lits[i]);
        i = i + 1;
        assert(v@ == lits@.subrange(0, i as int));
    }
    assert(lits@.subrange(0, lits@.len() as int) == lits@);
    Clause { lits: v }
}

/// A conjunction of clauses.
#[derive(Clone, Debug)]
pub struct Cnf {
    /// The clauses, in insertion order.
    pub clauses: Vec<Clause>,
}

impl View for Cnf {
    type V = Seq<Seq<Lit>>;

    open spec fn view(&self) -> Seq<Seq<Lit>> {
        self.clauses@.map_values(|c: Clause| c@)
    }
}

impl Cnf {
    /// The empty formula.
    pub fn new() -> (f: Cnf)
        ensures
            f@ == Seq::<Seq<Lit>>::empty(),
    {
        let f = Cnf { clauses: Vec::new() };
        assert(f@ =~= Seq::<Seq<Lit>>::empty());
        f
    }

    /// Append a clause.
    pub fn add_clause(&mut self, c: Clause)
        ensures
            final(self)@ == old(self)@.push(c@),
    {
        self.clauses.push(c);
        assert(self@ =~= old(self)@.push(c@));
    }

    /// The number of clauses.
    pub fn len(&self) -> (n: usize)
        ensures
            n == self@.len(),
    {
        self.clauses.len()
    }

    /// Whether the formula has no clauses.
    pub fn is_empty(&self) -> (b: bool)
        ensures
            b == (self@.len() == 0),
    {
        self.clauses.len() == 0
    }

    /// The clauses as a slice.
    pub fn as_slice(&self) -> (s: &[Clause])
        ensures
            s@ == self.clauses@,
    {
        self.clauses.as_slice()
    }
}

/// `n` is one past the largest variable index of `cs`, or 0 when `cs` mentions
/// no variable.
pub open spec fn spans(cs: Seq<Seq<Lit>>, n: int) -> bool {
    &&& clauses_below(cs, n)
    &&& (n == 0 || exists|j: int, i: int|
        0 <= j < cs.len() && 0 <= i < cs[j].len() && #[trigger] cs[j][i].var.index() == n - 1)
}

/// The number of variables `cnf` spans: one past its largest variable index, or
/// 0 when it mentions none.
pub fn var_count(cnf: &Cnf) -> (n: usize)
    ensures
        spans(cnf@, n as int),
        n <= MAX_VAR_IDX + 1,
{
    let mut n: usize = 0;
    let mut j: usize = 0;
    while j < cnf.clauses.len()
        invariant
            j <= cnf@.len(),
            n <= MAX_VAR_IDX + 1,
            clauses_below(cnf@.subrange(0, j as int), n as int),
            n == 0 || exists|jj: int, i: int|
                0 <= jj < cnf@.len() && 0 <= i < cnf@[jj].len() && #[trigger] cnf@[jj][i].var.index() == n - 1,
        decreases cnf@.len() - j,
    {
        let c = &cnf.clauses[j];
        let mut i: usize = 0;
        while i < c.lits.len()
            invariant
                0 <= j < cnf@.len(),
                c@ == cnf@[j as int],
                i <= c@.len(),
                n <= MAX_VAR_IDX + 1,
                clauses_below(cnf@.subrange(0, j as int), n as int),
                lits_below(c@.subrange(0, i as int), n as int),
                n == 0 || exists|jj: int, ii: int|
                    0 <= jj < cnf@.len() && 0 <= ii < cnf@[jj].len() && #[trigger] cnf@[jj][ii].var.index() == n - 1,
            decreases c@.len() - i,
        {
            let idx = c.lits[i].var.idx();
            if idx + 1 > n {
                n = idx + 1;
                assert(cnf@[j as int][i as int].var.index() == n - 1);
            }
            i = i + 1;
        }
        assert(c@.subrange(0, i as int) == c@);
        assert forall|jj: int| 0 <= jj < j + 1 implies lits_below(
            #[trigger] cnf@.subrange(0, j + 1)[jj],
            n as int,
        ) by {
            if jj < j {
                assert(cnf@.subrange(0, j + 1)[jj] == cnf@.subrange(0, j as int)[jj]);
            }
        }
        j = j + 1;
    }
    assert(cnf@.subrange(0, cnf@.len() as int) == cnf@);
    n
}

/// A source of fresh variables that carry no puzzle meaning.
///
/// Start it above every puzzle variable (see [`VarManager::starting_at`]) so the
/// registry's reverse map stays dense and auxiliary variables decode to nothing.
#[derive(Clone, Debug)]
pub struct VarManager {
    next: u32,
}

impl VarManager {
    /// The index the next fresh variable will get.
    pub closed spec fn next_index(&self) -> nat {
        self.next as nat
    }

    /// A manager that begins numbering at variable 0.
    pub fn new() -> (m: VarManager)
        ensures
            m.next_index() == 0,
    {
        VarManager { next: 0 }
    }

    /// A manager whose first fresh variable has index `used`.
    pub fn starting_at(used: u32) -> (m: VarManager)
        ensures
            m.next_index() == used,
    {
        VarManager { next: used }
    }

    /// Allocate and return the next unused variable.
    pub fn fresh(&mut self) -> (v: Var)
        requires
            old(self).next_index() <= MAX_VAR_IDX,
        ensures
            v.index() == old(self).next_index(),
            final(self).next_index() == old(self).next_index() + 1,
    {
        let v = Var::new(self.next);
        self.next = self.next + 1;
        v
    }

    /// How many variables have been handed out (the next index).
    pub fn n_used(&self) -> (n: u32)
        ensures
            n == self.next_index(),
    {
        self.next
    }
}

impl Default for VarManager {
    fn default() -> (m: VarManager)
        ensures
            m.next_index() == 0,
    {
        VarManager::new()
    }
}

} // verus!
