//! The [`Puzzle`] trait, the [`Grid`] its backward map produces, and the three
//! generic pipelines every puzzle rides: [`solve`], [`deduce`] and [`backbone`].
//!
//! A puzzle is defined entirely by how it crosses the bridge:
//!
//! - **Forward**: [`Puzzle::encode_rules`] emits the fixed rules as CNF, minting
//!   propositions through the [`Registry`]; [`Puzzle::assumptions`] turns the
//!   givens into assumption literals, not clauses.
//! - **Backward**: [`Puzzle::project`] reads a decoded [`SolverView`] and paints
//!   it onto a [`Grid`] of per-cell display state.
//!
//! Nothing here is specific to one puzzle; each puzzle states, through the trait's
//! spec functions, which propositions it registers, which clauses it emits, which
//! assumptions its givens become and what it displays for given values, and the
//! pipelines' contracts are phrased over exactly those.

use vstd::prelude::*;

use crate::backbone::{backbone as rule_backbone, mentions};
use crate::batsat::BatSatBackend;
use crate::cnf::{
    clauses_below, forced, lemma_index_injective, lemma_index_nonneg, lemma_var_at, lemma_var_at_index, lits_below,
    satisfiable_under, spans, var_at, Cnf, Lit, Var, MAX_VAR_IDX,
};
use crate::propagate::{
    below_every_fixpoint, bcp_consistent, extends, holds_all, implied_upto, is_assumed, is_fixpoint, value_lit,
    Propagator,
};
use crate::registry::{distinct, index_of, Proposition, Registry};
use crate::solver::{model_satisfies, SolveOutcome, Solver};
use crate::view::{decoded, SolverView};

verus! {

broadcast use lemma_var_at, lemma_var_at_index, lemma_index_injective, lemma_index_nonneg;

/// A dense row-major grid of per-cell display state: the concrete output of
/// every [`Puzzle::project`].
#[derive(Debug)]
pub struct Grid<C> {
    rows: usize,
    cols: usize,
    cells: Vec<C>,
}

/// `(r * cols + c) / cols == r` and `(r * cols + c) % cols == c` for a column
/// `c` inside the row.
pub proof fn lemma_row_major(r: int, c: int, cols: int)
    requires
        0 <= c < cols,
    ensures
        (r * cols + c) / cols == r,
        (r * cols + c) % cols == c,
{
    vstd::arithmetic::div_mod::lemma_fundamental_div_mod_converse(r * cols + c, cols, r, c);
}

/// A cell inside a `rows × cols` grid has a row-major index inside it.
pub proof fn lemma_index_inside(r: int, c: int, rows: int, cols: int)
    requires
        0 <= r < rows,
        0 <= c < cols,
    ensures
        0 <= r * cols + c < rows * cols,
{
    assert(0 <= r * cols) by (nonlinear_arith)
        requires
            0 <= r,
            0 <= cols,
    ;
    assert((r + 1) * cols <= rows * cols) by (nonlinear_arith)
        requires
            r + 1 <= rows,
            0 <= cols,
    ;
    assert((r + 1) * cols == r * cols + cols) by (nonlinear_arith);
}

impl<C> Grid<C> {
    /// The cells fill the grid exactly.
    #[verifier::type_invariant]
    closed spec fn wf(self) -> bool {
        self.cells@.len() == self.rows as int * self.cols as int
    }

    /// The grid as `(rows, cols, cells in row-major order)`.
    pub closed spec fn shape(&self) -> (nat, nat, Seq<C>) {
        (self.rows as nat, self.cols as nat, self.cells@)
    }

    /// The cells always fill the grid exactly.
    pub fn lemma_shape(&self)
        ensures
            self.shape().2.len() == self.shape().0 * self.shape().1,
    {
        proof {
            use_type_invariant(self);
        }
    }

    /// A grid from its row-major cells.
    pub(crate) fn from_cells(rows: usize, cols: usize, cells: Vec<C>) -> (g: Self)
        requires
            cells@.len() == rows * cols,
        ensures
            g.shape() == (rows as nat, cols as nat, cells@),
    {
        Grid { rows, cols, cells }
    }

    /// Build a `rows × cols` grid by calling `f(r, c)` for each cell, row by row.
    pub fn from_fn(rows: usize, cols: usize, f: impl Fn(usize, usize) -> C) -> (g: Self)
        requires
            rows * cols <= usize::MAX,
            forall|r: usize, c: usize| r < rows && c < cols ==> call_requires(f, (r, c)),
        ensures
            g.shape().0 == rows,
            g.shape().1 == cols,
            g.shape().2.len() == rows * cols,
            forall|r: usize, c: usize|
                r < rows && c < cols ==> call_ensures(f, (r, c), #[trigger] g.shape().2[r * cols + c]),
    {
        let mut cells: Vec<C> = Vec::new();
        let mut r: usize = 0;
        while r < rows
            invariant
                r <= rows,
                rows * cols <= usize::MAX,
                cells@.len() == r * cols,
                forall|r: usize, c: usize| r < rows && c < cols ==> call_requires(f, (r, c)),
                forall|rr: usize, cc: usize|
                    rr < r && cc < cols ==> call_ensures(f, (rr, cc), #[trigger] cells@[rr * cols + cc]),
            decreases rows - r,
        {
            let mut c: usize = 0;
            while c < cols
                invariant
                    r < rows,
                    c <= cols,
                    rows * cols <= usize::MAX,
                    cells@.len() == r * cols + c,
                    forall|r: usize, c: usize| r < rows && c < cols ==> call_requires(f, (r, c)),
                    forall|rr: usize, cc: usize|
                        rr < r && cc < cols ==> call_ensures(f, (rr, cc), #[trigger] cells@[rr * cols + cc]),
                    forall|cc: usize| cc < c ==> call_ensures(f, (r, cc), #[trigger] cells@[r * cols + cc]),
                decreases cols - c,
            {
                proof {
                    lemma_index_inside(r as int, c as int, rows as int, cols as int);
                }
                let x = f(r, c);
                let ghost before = cells@;
                cells.push(x);
                proof {
                    assert forall|rr: usize, cc: usize| rr < r && cc < cols implies call_ensures(
                        f,
                        (rr, cc),
                        #[trigger] cells@[rr * cols + cc],
                    ) by {
                        lemma_index_inside(rr as int, cc as int, r as int, cols as int);
                        assert(cells@[rr * cols + cc] == before[rr * cols + cc]);
                    }
                    assert forall|cc: usize| cc < c + 1 implies call_ensures(f, (r, cc), #[trigger] cells@[r * cols + cc]) by {
                        if cc < c {
                            assert(cells@[r * cols + cc] == before[r * cols + cc]);
                        }
                    }
                }
                c = c + 1;
            }
            proof {
                assert((r + 1) * cols == r * cols + cols) by (nonlinear_arith);
            }
            r = r + 1;
        }
        Grid { rows, cols, cells }
    }

    /// The number of rows.
    pub fn rows(&self) -> (n: usize)
        ensures
            n == self.shape().0,
    {
        self.rows
    }

    /// The number of columns.
    pub fn cols(&self) -> (n: usize)
        ensures
            n == self.shape().1,
    {
        self.cols
    }

    /// The cell at `(r, c)`.
    pub fn get(&self, r: usize, c: usize) -> (cell: &C)
        requires
            r < self.shape().0,
            c < self.shape().1,
        ensures
            *cell == self.shape().2[r * self.shape().1 + c],
    {
        proof {
            use_type_invariant(self);
            lemma_index_inside(r as int, c as int, self.rows as int, self.cols as int);
        }
        let n = self.cells.len();
        assert(r * self.cols + c < n);
        &self.cells[r * self.cols + c]
    }

    /// All cells in row-major order.
    pub fn cells(&self) -> (s: &[C])
        ensures
            s@ == self.shape().2,
    {
        self.cells.as_slice()
    }
}

/// A puzzle expressible as a SAT reduction with a decodable backward map.
///
/// The spec functions say what the reduction is: which propositions the rules
/// register (in variable order), which clauses they emit, which assumption
/// literals the givens become over a registry, and what a projection displays
/// for given proposition values.
pub trait Puzzle {
    /// A puzzle-level proposition: the vocabulary of the reduction.
    type Var: Proposition;

    /// Per-cell display state produced by [`project`](Puzzle::project).
    type Cell;

    /// The instance's encoding fits the variable range.
    spec fn encodable(&self) -> bool;

    /// The propositions the rules register, in variable order.
    spec fn props(&self) -> Seq<<Self::Var as View>::V>;

    /// The rule clauses.
    spec fn rules(&self) -> Seq<Seq<Lit>>;

    /// The assumption literals the givens become over the registered `props`.
    spec fn givens(&self, props: Seq<<Self::Var as View>::V>) -> Seq<Lit>;

    /// The grid `(rows, cols, cells)` displayed when each proposition has the
    /// value `value` gives it.
    spec fn shown(&self, value: spec_fn(<Self::Var as View>::V) -> Option<bool>) -> (nat, nat, Seq<Self::Cell>);

    /// Forward reduction: emit the puzzle's rules as fixed CNF, registering each
    /// proposition through a fresh `reg`. Every registered proposition occurs in
    /// the rules.
    fn encode_rules(&self, reg: &mut Registry<Self::Var>, cnf: &mut Cnf)
        requires
            self.encodable(),
            old(reg)@.len() == 0,
        ensures
            final(reg)@ == self.props(),
            final(cnf)@ == old(cnf)@ + self.rules(),
            forall|v: int| 0 <= v < self.props().len() ==> mentions(self.rules(), v),
    ;

    /// The givens as assumption literals over the propositions of `reg`.
    fn assumptions(&self, reg: &Registry<Self::Var>) -> (lits: Vec<Lit>)
        ensures
            lits@ == self.givens(reg@),
            lits_below(lits@, reg@.len() as int),
    ;

    /// Backward reduction: decode a solver view into a grid of display cells.
    fn project(&self, view: &SolverView<Self::Var>) -> (grid: Grid<Self::Cell>)
        ensures
            grid.shape() == self.shown(|k: <Self::Var as View>::V| view.value_of_spec(k)),
    ;
}

/// The value a model gives each proposition of `props`: the value of its
/// variable, or `None` when unregistered or unassigned.
pub open spec fn model_value<K>(props: Seq<K>, m: Seq<Option<bool>>) -> spec_fn(K) -> Option<bool> {
    |k: K|
        if props.contains(k) {
            let i = index_of(props, k);
            if 0 <= i < m.len() {
                m[i]
            } else {
                None
            }
        } else {
            None
        }
}

/// A variable some clause mentions lies below every bound on the clauses.
pub proof fn lemma_mentioned_below(cs: Seq<Seq<Lit>>, v: int, n: int)
    requires
        mentions(cs, v),
        crate::cnf::clauses_below(cs, n),
    ensures
        v < n,
{
    let (j, i) = choose|j: int, i: int| 0 <= j < cs.len() && 0 <= i < cs[j].len() && #[trigger] cs[j][i].var.index() == v;
    assert(lits_below(cs[j], n));
}

/// A copy of `v`.
pub(crate) fn copy_vec<T: Copy>(v: &Vec<T>) -> (r: Vec<T>)
    ensures
        r@ == v@,
{
    let mut r: Vec<T> = Vec::new();
    let mut i: usize = 0;
    while i < v.len()
        invariant
            i <= v@.len(),
            r@ == v@.subrange(0, i as int),
        decreases v@.len() - i,
    {
        r.push(v[i]);
        i = i + 1;
        assert(r@ =~= v@.subrange(0, i as int));
    }
    assert(v@.subrange(0, i as int) =~= v@);
    r
}

/// A clause mentioning `v` keeps mentioning it with clauses added after it.
pub proof fn lemma_mentions_prefix(a: Seq<Seq<Lit>>, b: Seq<Seq<Lit>>, v: int)
    requires
        mentions(a, v),
    ensures
        mentions(a + b, v),
{
    let (j, i) = choose|j: int, i: int| 0 <= j < a.len() && 0 <= i < a[j].len() && #[trigger] a[j][i].var.index() == v;
    assert((a + b)[j] == a[j]);
    assert((a + b)[j][i].var.index() == v);
}

/// A clause mentioning `v` keeps mentioning it with clauses added before it.
pub proof fn lemma_mentions_suffix(a: Seq<Seq<Lit>>, b: Seq<Seq<Lit>>, v: int)
    requires
        mentions(b, v),
    ensures
        mentions(a + b, v),
{
    let (j, i) = choose|j: int, i: int| 0 <= j < b.len() && 0 <= i < b[j].len() && #[trigger] b[j][i].var.index() == v;
    assert((a + b)[a.len() + j] == b[j]);
    assert((a + b)[a.len() + j][i].var.index() == v);
}

/// Solve `puzzle` to a completed grid with the BatSat backend, or `None` if the
/// givens contradict the rules.
///
/// The whole forward-and-back round trip in one call: encode the rules, gather
/// the assumptions, solve, then project the model back through the registry.
pub fn solve<P: Puzzle>(puzzle: &P) -> (r: Option<Grid<P::Cell>>)
    requires
        puzzle.encodable(),
    ensures
        r is None <==> !satisfiable_under(puzzle.rules(), puzzle.givens(puzzle.props())),
        r matches Some(g) ==> exists|m: Seq<Option<bool>>|
            #[trigger] model_satisfies(m, puzzle.rules()) && holds_all(m, puzzle.givens(puzzle.props()))
                && g.shape() == puzzle.shown(model_value(puzzle.props(), m)),
{
    let mut reg: Registry<P::Var> = Registry::new();
    let mut cnf = Cnf::new();
    puzzle.encode_rules(&mut reg, &mut cnf);
    let assumptions = puzzle.assumptions(&reg);
    assert(cnf@ =~= puzzle.rules());

    let mut backend = BatSatBackend::new();
    backend.load_rules(&cnf);
    assert(backend.rules() =~= puzzle.rules());
    match backend.solve(assumptions.as_slice()) {
        SolveOutcome::Sat(model) => {
            let view = SolverView::from_model(&reg, &model);
            let grid = puzzle.project(&view);
            proof {
                let props = puzzle.props();
                let givens = assumptions@;
                assert forall|i: int| 0 <= i < givens.len() implies crate::solver::pvalue(model@, #[trigger] givens[i])
                    == Some(true) by {
                    lemma_mentioned_below(puzzle.rules(), givens[i].var.index(), model@.len() as int);
                }
                assert((|k: <P::Var as View>::V| view.value_of_spec(k)) =~= model_value(props, model@));
                assert(model_satisfies(model@, puzzle.rules()));
            }
            Some(grid)
        },
        SolveOutcome::Unsat(_) => None,
    }
}

/// What pure logic proves about a puzzle, in the puzzle's own language.
#[derive(Debug, Clone)]
pub struct Deductions<V> {
    /// Whether unit propagation found the givens consistent with the rules. A
    /// `false` here is a proof that no solution exists; a `true` is not a proof
    /// that one does.
    pub satisfiable: bool,
    /// Each proven fact: `(v, true)` means `v` holds in every solution, `(v,
    /// false)` means it holds in none.
    pub proven: Vec<(V, bool)>,
}

/// The facts of `s`, with each proposition taken by its view.
pub open spec fn facts_of<V: View>(s: Seq<(V, bool)>) -> Seq<(V::V, bool)> {
    s.map_values(|p: (V, bool)| (p.0@, p.1))
}

/// `f` names a registered proposition whose stated value is forced by the rules
/// `cs` under the assumptions `lits`.
pub open spec fn proves<K>(props: Seq<K>, cs: Seq<Seq<Lit>>, lits: Seq<Lit>, f: (K, bool)) -> bool {
    &&& props.contains(f.0)
    &&& forced(cs, lits, value_lit(index_of(props, f.0), f.1))
}

/// One past the largest variable `cs` mentions, or 0 when it mentions none.
pub open spec fn width(cs: Seq<Seq<Lit>>) -> int {
    choose|n: int| spans(cs, n)
}

/// The least propagation fixpoint of length `n` over `cs` that makes every
/// literal of `lits` true: what unit propagation from `lits` derives.
pub open spec fn bcp_closure(cs: Seq<Seq<Lit>>, lits: Seq<Lit>, n: int) -> Seq<Option<bool>> {
    choose|vals: Seq<Option<bool>>|
        is_fixpoint(vals, cs) && holds_all(vals, lits) && below_every_fixpoint(cs, lits, vals) && vals.len() == n
}

/// Failed-literal probing over the propositions below `i`: each one that
/// propagation left open and whose assumption propagates to a conflict is
/// proven false.
pub open spec fn probed<K>(props: Seq<K>, cs: Seq<Seq<Lit>>, lits: Seq<Lit>, vals: Seq<Option<bool>>, i: int) -> Seq<(K, bool)>
    decreases i,
{
    if i <= 0 {
        Seq::empty()
    } else {
        let prev = probed(props, cs, lits, vals, i - 1);
        if vals[i - 1] is None && !bcp_consistent(cs, lits.push(value_lit(i - 1, true))) {
            prev.push((props[i - 1], false))
        } else {
            prev
        }
    }
}

/// What [`deduce`] proves about the propositions `props` of rules `cs` under
/// the assumptions `lits`: the decoded literals propagation forces beyond the
/// assumptions, in variable order, then the eliminations probing proves, in
/// variable order.
pub open spec fn deductions_spec<K>(props: Seq<K>, cs: Seq<Seq<Lit>>, lits: Seq<Lit>) -> Seq<(K, bool)> {
    let vals = bcp_closure(cs, lits, width(cs));
    decoded(props, implied_upto(vals, lits, width(cs))) + probed(props, cs, lits, vals, props.len() as int)
}

/// At most one `n` is one past the largest variable of `cs`.
pub proof fn lemma_spans_unique(cs: Seq<Seq<Lit>>, n1: int, n2: int)
    requires
        spans(cs, n1),
        spans(cs, n2),
    ensures
        n1 == n2,
{
    if n1 < n2 {
        let (j, i) = choose|j: int, i: int| 0 <= j < cs.len() && 0 <= i < cs[j].len() && #[trigger] cs[j][i].var.index() == n2 - 1;
        assert(lits_below(cs[j], n1));
    } else if n2 < n1 {
        let (j, i) = choose|j: int, i: int| 0 <= j < cs.len() && 0 <= i < cs[j].len() && #[trigger] cs[j][i].var.index() == n1 - 1;
        assert(lits_below(cs[j], n2));
    }
}

/// The least propagation fixpoint of a given length is unique.
pub proof fn lemma_closure_unique(cs: Seq<Seq<Lit>>, lits: Seq<Lit>, a: Seq<Option<bool>>, b: Seq<Option<bool>>)
    requires
        is_fixpoint(a, cs) && holds_all(a, lits) && below_every_fixpoint(cs, lits, a),
        is_fixpoint(b, cs) && holds_all(b, lits) && below_every_fixpoint(cs, lits, b),
        a.len() == b.len(),
    ensures
        a == b,
{
    assert(extends(a, b));
    assert(extends(b, a));
    assert forall|k: int| 0 <= k < a.len() implies a[k] == b[k] by {
        if a[k] is Some {
            assert(b[k] == a[k]);
        } else if b[k] is Some {
            assert(a[k] == b[k]);
        }
    }
    assert(a =~= b);
}

/// The propagation run `vals` of a propagator over `cs` is the closure.
proof fn lemma_is_closure(cs: Seq<Seq<Lit>>, lits: Seq<Lit>, vals: Seq<Option<bool>>, n: int)
    requires
        spans(cs, n),
        is_fixpoint(vals, cs) && holds_all(vals, lits) && below_every_fixpoint(cs, lits, vals),
        vals.len() == n,
    ensures
        width(cs) == n,
        bcp_closure(cs, lits, width(cs)) == vals,
{
    lemma_spans_unique(cs, width(cs), n);
    let c = bcp_closure(cs, lits, n);
    lemma_closure_unique(cs, lits, c, vals);
}

/// A decoded literal names its registered proposition, with its variable back.
proof fn lemma_decoded_fact<K>(props: Seq<K>, l: Lit)
    requires
        distinct(props),
        l.var.index() < props.len(),
    ensures
        props.contains(props[l.var.index()]),
        index_of(props, props[l.var.index()]) == l.var.index(),
        value_lit(l.var.index(), l.positive) == l,
{
    crate::registry::lemma_decode_after_lit(props, props[l.var.index()], l.var.index());
}

/// Solve `puzzle` as far as pure logic allows: unit propagation from the givens,
/// then failed-literal probing of every proposition propagation left open.
///
/// The result is phrased in the puzzle's language: the propositions forced true
/// or false beyond the givens themselves, and the eliminations probing proves.
/// Every reported fact holds in every solution. No search is involved, so a
/// hard instance may be left largely open.
pub fn deduce<P: Puzzle>(puzzle: &P) -> (d: Deductions<P::Var>)
    requires
        puzzle.encodable(),
    ensures
        d.satisfiable == bcp_consistent(puzzle.rules(), puzzle.givens(puzzle.props())),
        !d.satisfiable ==> d.proven@.len() == 0,
        d.satisfiable ==> facts_of(d.proven@) == deductions_spec(
            puzzle.props(),
            puzzle.rules(),
            puzzle.givens(puzzle.props()),
        ),
        forall|j: int|
            0 <= j < d.proven@.len() ==> proves(
                puzzle.props(),
                puzzle.rules(),
                puzzle.givens(puzzle.props()),
                #[trigger] facts_of(d.proven@)[j],
            ),
{
    let ghost props = puzzle.props();
    let ghost cs = puzzle.rules();
    let mut reg: Registry<P::Var> = Registry::new();
    let mut cnf = Cnf::new();
    puzzle.encode_rules(&mut reg, &mut cnf);
    let assumptions = puzzle.assumptions(&reg);
    let ghost given = assumptions@;
    assert(cnf@ =~= cs);
    reg.lemma_wf();

    let prop = Propagator::from_cnf(&cnf);
    let ghost n = prop.n_vars_spec() as int;
    proof {
        assert forall|i: int| 0 <= i < given.len() implies #[trigger] given[i].var.index() < n by {
            lemma_mentioned_below(cs, given[i].var.index(), n);
        }
    }
    let result = prop.propagate(assumptions.as_slice());
    if result.conflict {
        return Deductions { satisfiable: false, proven: Vec::new() };
    }
    let ghost vals = result.assignment@;
    proof {
        lemma_is_closure(cs, given, vals, n);
    }

    let implied = prop.implied(assumptions.as_slice());
    proof {
        let w = choose|w: Seq<Option<bool>>| {
            &&& is_fixpoint(w, cs)
            &&& holds_all(w, given)
            &&& below_every_fixpoint(cs, given, w)
            &&& w.len() == n
            &&& implied@ == implied_upto(w, given, w.len() as int)
        };
        lemma_closure_unique(cs, given, w, vals);
    }

    let mut proven: Vec<(P::Var, bool)> = Vec::new();
    let mut i: usize = 0;
    while i < implied.len()
        invariant
            i <= implied@.len(),
            distinct(props),
            reg@ == props,
            forall|m: int| 0 <= m < implied@.len() ==> forced(cs, given, #[trigger] implied@[m]),
            facts_of(proven@) == decoded(props, implied@.subrange(0, i as int)),
            forall|j: int| 0 <= j < proven@.len() ==> proves(props, cs, given, #[trigger] facts_of(proven@)[j]),
        decreases implied@.len() - i,
    {
        let lit = implied[i];
        let ghost before = proven@;
        match reg.decode(lit) {
            Some(fact) => {
                proof {
                    lemma_decoded_fact(props, lit);
                }
                proven.push(fact);
            },
            None => {},
        }
        proof {
            assert(implied@.subrange(0, i + 1).drop_last() =~= implied@.subrange(0, i as int));
            assert(facts_of(proven@) =~= decoded(props, implied@.subrange(0, i + 1)));
            assert forall|j: int| 0 <= j < proven@.len() implies proves(props, cs, given, #[trigger] facts_of(proven@)[j]) by {
                if j < before.len() {
                    assert(facts_of(proven@)[j] == facts_of(before)[j]);
                }
            }
        }
        i = i + 1;
    }
    assert(implied@.subrange(0, i as int) =~= implied@);
    proof {
        if props.len() > 0 {
            lemma_mentioned_below(cs, props.len() - 1, n);
        }
        assert(decoded(props, implied@) + probed(props, cs, given, vals, 0) =~= decoded(props, implied@));
    }

    let mut k: usize = 0;
    while k < reg.len()
        invariant
            k <= props.len(),
            props.len() <= MAX_VAR_IDX + 1,
            props.len() <= n,
            distinct(props),
            reg@ == props,
            prop.wf(),
            prop.clauses_spec() == cs,
            prop.n_vars_spec() == n,
            lits_below(given, n),
            assumptions@ == given,
            vals == result.assignment@,
            vals.len() == n,
            facts_of(proven@) == decoded(props, implied@) + probed(props, cs, given, vals, k as int),
            forall|j: int| 0 <= j < proven@.len() ==> proves(props, cs, given, #[trigger] facts_of(proven@)[j]),
        decreases props.len() - k,
    {
        let var = Var::new(k as u32);
        let ghost before = proven@;
        let pos = var.pos_lit();
        assert(pos == value_lit(k as int, true));
        if result.assignment.var_value(var).is_none() {
            if prop.probe(assumptions.as_slice(), pos) {
                let p = reg.decode_var(var);
                match p {
                    Some(v) => {
                        proof {
                            lemma_decoded_fact(props, Lit { var: var, positive: false });
                        }
                        proven.push((v.duplicate(), false));
                    },
                    None => {},
                }
            }
        }
        proof {
            let pk = probed(props, cs, given, vals, k as int);
            assert(probed(props, cs, given, vals, k + 1) == if vals[k as int] is None && !bcp_consistent(
                cs,
                given.push(value_lit(k as int, true)),
            ) {
                pk.push((props[k as int], false))
            } else {
                pk
            });
            if proven@.len() == before.len() {
                assert(proven@ == before);
            } else {
                assert(facts_of(proven@) =~= facts_of(before).push((props[k as int], false)));
            }
            assert(facts_of(proven@) =~= decoded(props, implied@) + probed(props, cs, given, vals, k + 1));
            assert forall|j: int| 0 <= j < proven@.len() implies proves(props, cs, given, #[trigger] facts_of(proven@)[j]) by {
                if j < before.len() {
                    assert(facts_of(proven@)[j] == facts_of(before)[j]);
                }
            }
        }
        k = k + 1;
    }
    Deductions { satisfiable: true, proven }
}

/// The variables of `lits` below `i`, marked.
spec fn marks_upto(lits: Seq<Lit>, i: int, w: int) -> bool {
    exists|m: int| 0 <= m < i && #[trigger] lits[m].var.index() == w
}

/// For each of the `n` registered variables, whether some literal of `lits`
/// sits on it.
fn assumed_vars(lits: &Vec<Lit>, n: usize) -> (marks: Vec<bool>)
    requires
        lits_below(lits@, n as int),
    ensures
        marks@.len() == n,
        forall|w: int| 0 <= w < n ==> (#[trigger] marks@[w] <==> is_assumed(lits@, w)),
{
    let mut marks: Vec<bool> = Vec::new();
    let mut k: usize = 0;
    while k < n
        invariant
            k <= n,
            marks@.len() == k,
            forall|w: int| 0 <= w < k ==> !(#[trigger] marks@[w]),
        decreases n - k,
    {
        marks.push(false);
        k = k + 1;
    }
    let mut i: usize = 0;
    while i < lits.len()
        invariant
            i <= lits@.len(),
            lits_below(lits@, n as int),
            marks@.len() == n,
            forall|w: int| 0 <= w < n ==> (#[trigger] marks@[w] <==> marks_upto(lits@, i as int, w)),
        decreases lits@.len() - i,
    {
        let w = lits[i].var.idx();
        marks.set(w, true);
        proof {
            assert forall|x: int| 0 <= x < n implies (#[trigger] marks@[x] <==> marks_upto(lits@, i + 1, x)) by {
                if x == w {
                    assert(lits@[i as int].var.index() == x);
                } else if marks_upto(lits@, i + 1, x) {
                    let m = choose|m: int| 0 <= m < i + 1 && #[trigger] lits@[m].var.index() == x;
                    assert(m < i);
                }
            }
        }
        i = i + 1;
    }
    proof {
        assert forall|w: int| 0 <= w < n implies (#[trigger] marks@[w] <==> is_assumed(lits@, w)) by {
            if is_assumed(lits@, w) {
                let m = choose|m: int| 0 <= m < lits@.len() && #[trigger] lits@[m].var.index() == w;
                assert(marks_upto(lits@, lits@.len() as int, w));
            }
        }
    }
    marks
}

/// The backbone of `puzzle`: every proposition whose value is the same in every
/// solution, beyond the givens themselves.
///
/// `satisfiable` is `false` exactly when the givens contradict the rules (no
/// solution, so no backbone). Otherwise `proven` holds each registered
/// proposition that no given sits on together with its value, for exactly the
/// propositions whose value is forced in every solution; for a uniquely solvable
/// instance that is the whole solution.
pub fn backbone<P: Puzzle>(puzzle: &P) -> (d: Deductions<P::Var>)
    requires
        puzzle.encodable(),
    ensures
        d.satisfiable == satisfiable_under(puzzle.rules(), puzzle.givens(puzzle.props())),
        !d.satisfiable ==> d.proven@.len() == 0,
        forall|j: int|
            0 <= j < d.proven@.len() ==> {
                let f = #[trigger] facts_of(d.proven@)[j];
                &&& proves(puzzle.props(), puzzle.rules(), puzzle.givens(puzzle.props()), f)
                &&& !is_assumed(puzzle.givens(puzzle.props()), index_of(puzzle.props(), f.0))
            },
        d.satisfiable ==> forall|i: int, b: bool|
            0 <= i < puzzle.props().len() && !is_assumed(puzzle.givens(puzzle.props()), i) && #[trigger] forced(
                puzzle.rules(),
                puzzle.givens(puzzle.props()),
                value_lit(i, b),
            ) ==> facts_of(d.proven@).contains((puzzle.props()[i], b)),
{
    let ghost props = puzzle.props();
    let ghost cs = puzzle.rules();
    let mut reg: Registry<P::Var> = Registry::new();
    let mut cnf = Cnf::new();
    puzzle.encode_rules(&mut reg, &mut cnf);
    let assumptions = puzzle.assumptions(&reg);
    let ghost given = assumptions@;
    assert(cnf@ =~= cs);
    reg.lemma_wf();
    let marks = assumed_vars(&assumptions, reg.len());

    let mut backend = BatSatBackend::new();
    backend.load_rules(&cnf);
    assert(backend.rules() =~= cs);
    let bb = match rule_backbone(&mut backend, assumptions.as_slice()) {
        Some(bb) => bb,
        None => {
            return Deductions { satisfiable: false, proven: Vec::new() };
        },
    };

    let mut proven: Vec<(P::Var, bool)> = Vec::new();
    let mut i: usize = 0;
    while i < bb.len()
        invariant
            i <= bb@.len(),
            distinct(props),
            reg@ == props,
            marks@.len() == props.len(),
            forall|w: int| 0 <= w < props.len() ==> (#[trigger] marks@[w] <==> is_assumed(given, w)),
            forall|m: int| 0 <= m < bb@.len() ==> forced(cs, given, #[trigger] bb@[m]),
            forall|j: int|
                0 <= j < proven@.len() ==> {
                    let f = #[trigger] facts_of(proven@)[j];
                    &&& proves(props, cs, given, f)
                    &&& !is_assumed(given, index_of(props, f.0))
                },
            forall|m: int|
                0 <= m < i && (#[trigger] bb@[m]).var.index() < props.len() && !is_assumed(given, bb@[m].var.index())
                    ==> facts_of(proven@).contains((props[bb@[m].var.index()], bb@[m].positive)),
        decreases bb@.len() - i,
    {
        let lit = bb[i];
        let ghost before = proven@;
        match reg.decode(lit) {
            Some(fact) => {
                if !marks[lit.var.idx()] {
                    proof {
                        lemma_decoded_fact(props, lit);
                    }
                    proven.push(fact);
                }
            },
            None => {},
        }
        proof {
            assert forall|j: int| 0 <= j < proven@.len() implies {
                let f = #[trigger] facts_of(proven@)[j];
                &&& proves(props, cs, given, f)
                &&& !is_assumed(given, index_of(props, f.0))
            } by {
                if j < before.len() {
                    assert(facts_of(proven@)[j] == facts_of(before)[j]);
                }
            }
            assert forall|m: int|
                0 <= m < i + 1 && (#[trigger] bb@[m]).var.index() < props.len() && !is_assumed(given, bb@[m].var.index())
                implies facts_of(proven@).contains((props[bb@[m].var.index()], bb@[m].positive)) by {
                if m < i {
                    let x = choose|x: int| 0 <= x < facts_of(before).len() && facts_of(before)[x] == (props[bb@[m].var.index()], bb@[m].positive);
                    assert(facts_of(proven@)[x] == facts_of(before)[x]);
                } else {
                    assert(facts_of(proven@)[before.len() as int] == (props[bb@[m].var.index()], bb@[m].positive));
                }
            }
        }
        i = i + 1;
    }
    proof {
        assert forall|k: int, b: bool|
            0 <= k < props.len() && !is_assumed(given, k) && #[trigger] forced(cs, given, value_lit(k, b))
            implies facts_of(proven@).contains((props[k], b)) by {
            let l = value_lit(k, b);
            assert(mentions(cs, l.var.index()));
            assert(bb@.contains(l));
            let m = choose|m: int| 0 <= m < bb@.len() && bb@[m] == l;
            assert(bb@[m].var.index() == k);
        }
    }
    Deductions { satisfiable: true, proven }
}


/// What logic proves, search confirms: when the givens can be met, every fact
/// that propagation and probing prove about a proposition that is not itself a
/// given is among the backbone's facts. `deduced` is what [`deduce`] proves and
/// `bb` what [`backbone`] returns, each as its contract states it.
pub proof fn lemma_deductions_in_backbone<K>(
    props: Seq<K>,
    cs: Seq<Seq<Lit>>,
    givens: Seq<Lit>,
    deduced: Seq<(K, bool)>,
    bb: Seq<(K, bool)>,
)
    requires
        forall|j: int| 0 <= j < deduced.len() ==> proves(props, cs, givens, #[trigger] deduced[j]),
        forall|i: int, b: bool|
            0 <= i < props.len() && !is_assumed(givens, i) && #[trigger] forced(cs, givens, value_lit(i, b))
                ==> bb.contains((props[i], b)),
    ensures
        forall|j: int|
            0 <= j < deduced.len() && !is_assumed(givens, index_of(props, (#[trigger] deduced[j]).0)) ==> bb.contains(
                deduced[j],
            ),
{
    assert forall|j: int|
        0 <= j < deduced.len() && !is_assumed(givens, index_of(props, (#[trigger] deduced[j]).0)) implies bb.contains(
        deduced[j],
    ) by {
        let f = deduced[j];
        assert(proves(props, cs, givens, f));
        let i = index_of(props, f.0);
        assert(0 <= i < props.len() && props[i] == f.0);
        assert(forced(cs, givens, value_lit(i, f.1)));
        assert((props[i], f.1) == f);
    }
}

} // verus!
