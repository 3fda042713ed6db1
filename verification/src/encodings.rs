//! Boolean cardinality encodings used on the forward path.
//!
//! - **Pairwise** at-most-one: `¬lᵢ ∨ ¬lⱼ` for every pair `i < j`, no auxiliary
//!   variables.
//! - **Sequential** (Sinz's ladder / counter): `O(n·k)` clauses over auxiliary
//!   registers drawn from a [`VarManager`].
//!
//! Each function's contract names exactly the clauses it appends, in order, as a
//! specification function of the literals (and of the first auxiliary index).

use vstd::prelude::*;

use crate::cnf::{
    clause_holds, cnf_holds, lemma_index_injective, lemma_var_at, lit_holds, var_at, Clause, Cnf, Lit, VarManager,
    MAX_VAR_IDX,
};

verus! {

broadcast use lemma_var_at, lemma_index_injective;

/// The clause `[a]`.
fn clause1(a: Lit) -> (c: Clause)
    ensures
        c@ == seq![a],
{
    let mut c = Clause::new();
    c.add(a);
    c
}

/// The clause `[a, b]`.
fn clause2(a: Lit, b: Lit) -> (c: Clause)
    ensures
        c@ == seq![a, b],
{
    let mut c = Clause::new();
    c.add(a);
    c.add(b);
    c
}

/// The clause `[a, b, d]`.
fn clause3(a: Lit, b: Lit, d: Lit) -> (c: Clause)
    ensures
        c@ == seq![a, b, d],
{
    let mut c = Clause::new();
    c.add(a);
    c.add(b);
    c.add(d);
    c
}

/// At-least-one: a single clause asserting the disjunction of `lits`.
pub fn at_least_one(lits: &[Lit], cnf: &mut Cnf)
    ensures
        final(cnf)@ == old(cnf)@.push(lits@),
{
    cnf.add_clause(crate::cnf::clause(lits));
}

/// The binary clauses `¬s[i] ∨ ¬s[m]` for `i < m < j`, in order of `m`.
pub open spec fn pair_row(s: Seq<Lit>, i: int, j: int) -> Seq<Seq<Lit>>
    decreases j - i,
{
    if j <= i + 1 {
        Seq::empty()
    } else {
        pair_row(s, i, j - 1).push(seq![s[i].neg(), s[j - 1].neg()])
    }
}

/// The pairwise at-most-one clauses whose first literal has index below `i`.
pub open spec fn pairs_upto(s: Seq<Lit>, i: int) -> Seq<Seq<Lit>>
    decreases i,
{
    if i <= 0 {
        Seq::empty()
    } else {
        pairs_upto(s, i - 1) + pair_row(s, i - 1, s.len() as int)
    }
}

/// The pairwise at-most-one encoding of `s`: `¬s[i] ∨ ¬s[j]` for every `i < j`,
/// ordered by `i` then `j`.
pub open spec fn at_most_one_pairwise_clauses(s: Seq<Lit>) -> Seq<Seq<Lit>> {
    pairs_upto(s, s.len() as int)
}

/// At-most-one via the pairwise encoding: `¬lᵢ ∨ ¬lⱼ` for every pair `i < j`.
/// No auxiliary variables; `n·(n−1)/2` binary clauses.
pub fn at_most_one_pairwise(lits: &[Lit], cnf: &mut Cnf)
    ensures
        final(cnf)@ == old(cnf)@ + at_most_one_pairwise_clauses(lits@),
{
    let ghost start = cnf@;
    let n = lits.len();
    let mut i: usize = 0;
    while i < n
        invariant
            n == lits@.len(),
            i <= n,
            cnf@ == start + pairs_upto(lits@, i as int),
        decreases n - i,
    {
        let a = lits[i];
        let mut j: usize = i + 1;
        while j < n
            invariant
                n == lits@.len(),
                i < n,
                i + 1 <= j <= n,
                a == lits@[i as int],
                cnf@ == start + pairs_upto(lits@, i as int) + pair_row(lits@, i as int, j as int),
            decreases n - j,
        {
            let b = lits[j];
            let ghost before = cnf@;
            cnf.add_clause(clause2(a.negate(), b.negate()));
            j = j + 1;
            assert(cnf@ =~= start + pairs_upto(lits@, i as int) + pair_row(lits@, i as int, j as int));
        }
        i = i + 1;
        assert(cnf@ =~= start + pairs_upto(lits@, i as int));
    }
}

/// Exactly-one via pairwise at-most-one plus at-least-one.
pub fn exactly_one_pairwise(lits: &[Lit], cnf: &mut Cnf)
    ensures
        final(cnf)@ == old(cnf)@.push(lits@) + at_most_one_pairwise_clauses(lits@),
{
    at_least_one(lits, cnf);
    at_most_one_pairwise(lits, cnf);
}

/// Some literal of `s` is true under `tau`.
pub open spec fn some_true(tau: spec_fn(int) -> bool, s: Seq<Lit>) -> bool {
    exists|i: int| 0 <= i < s.len() && lit_holds(tau, #[trigger] s[i])
}

/// No two positions of `s` hold literals that are both true under `tau`.
pub open spec fn at_most_one_true(tau: spec_fn(int) -> bool, s: Seq<Lit>) -> bool {
    forall|i: int, j: int| 0 <= i < j < s.len() ==> !(lit_holds(tau, #[trigger] s[i]) && lit_holds(tau, #[trigger] s[j]))
}

/// A conjunction of two clause lists holds when both do.
pub proof fn lemma_cnf_holds_append(tau: spec_fn(int) -> bool, a: Seq<Seq<Lit>>, b: Seq<Seq<Lit>>)
    ensures
        cnf_holds(tau, a + b) == (cnf_holds(tau, a) && cnf_holds(tau, b)),
{
    if cnf_holds(tau, a + b) {
        assert forall|j: int| 0 <= j < a.len() implies clause_holds(tau, #[trigger] a[j]) by {
            assert((a + b)[j] == a[j]);
        }
        assert forall|j: int| 0 <= j < b.len() implies clause_holds(tau, #[trigger] b[j]) by {
            assert((a + b)[a.len() + j] == b[j]);
        }
    }
    if cnf_holds(tau, a) && cnf_holds(tau, b) {
        assert forall|j: int| 0 <= j < (a + b).len() implies clause_holds(tau, #[trigger] (a + b)[j]) by {
            if j < a.len() {
                assert((a + b)[j] == a[j]);
            } else {
                assert((a + b)[j] == b[j - a.len()]);
            }
        }
    }
}

/// The clauses of `pair_row(s, i, j)` hold exactly when `s[i]` is not true
/// together with any `s[m]`, `i < m < j`.
proof fn lemma_pair_row_means(tau: spec_fn(int) -> bool, s: Seq<Lit>, i: int, j: int)
    requires
        0 <= i,
        j <= s.len(),
    ensures
        cnf_holds(tau, pair_row(s, i, j)) == forall|m: int|
            i < m < j ==> !(lit_holds(tau, s[i]) && lit_holds(tau, #[trigger] s[m])),
    decreases j - i,
{
    if j > i + 1 {
        lemma_pair_row_means(tau, s, i, j - 1);
        let prev = pair_row(s, i, j - 1);
        let c = seq![s[i].neg(), s[j - 1].neg()];
        lemma_cnf_holds_append(tau, prev, seq![c]);
        assert(pair_row(s, i, j) == prev + seq![c]);
        assert(cnf_holds(tau, seq![c]) == clause_holds(tau, c)) by {
            if clause_holds(tau, c) {
                assert forall|k: int| 0 <= k < seq![c].len() implies clause_holds(tau, #[trigger] seq![c][k]) by {
                    assert(seq![c][k] == c);
                }
            }
            if cnf_holds(tau, seq![c]) {
                assert(seq![c][0] == c);
            }
        }
        assert(clause_holds(tau, c) == !(lit_holds(tau, s[i]) && lit_holds(tau, s[j - 1]))) by {
            if !(lit_holds(tau, s[i]) && lit_holds(tau, s[j - 1])) {
                if !lit_holds(tau, s[i]) {
                    assert(lit_holds(tau, c[0]));
                } else {
                    assert(lit_holds(tau, c[1]));
                }
            }
        }
    }
}

/// The pairwise clauses with first index below `i` hold exactly when no pair
/// `a < b` with `a < i` is true together.
proof fn lemma_pairs_upto_means(tau: spec_fn(int) -> bool, s: Seq<Lit>, i: int)
    requires
        0 <= i <= s.len(),
    ensures
        cnf_holds(tau, pairs_upto(s, i)) == forall|a: int, b: int|
            0 <= a < i && a < b < s.len() ==> !(lit_holds(tau, #[trigger] s[a]) && lit_holds(tau, #[trigger] s[b])),
    decreases i,
{
    if i > 0 {
        lemma_pairs_upto_means(tau, s, i - 1);
        lemma_pair_row_means(tau, s, i - 1, s.len() as int);
        lemma_cnf_holds_append(tau, pairs_upto(s, i - 1), pair_row(s, i - 1, s.len() as int));
    }
}

/// The pairwise at-most-one encoding means what it says: its clauses hold
/// exactly when no two of the literals are true together.
pub proof fn lemma_at_most_one_pairwise_means(tau: spec_fn(int) -> bool, s: Seq<Lit>)
    ensures
        cnf_holds(tau, at_most_one_pairwise_clauses(s)) == at_most_one_true(tau, s),
{
    lemma_pairs_upto_means(tau, s, s.len() as int);
}

/// The pairwise exactly-one encoding means what it says: its clauses hold
/// exactly when some literal is true and no two are.
pub proof fn lemma_exactly_one_pairwise_means(tau: spec_fn(int) -> bool, s: Seq<Lit>)
    ensures
        cnf_holds(tau, seq![s] + at_most_one_pairwise_clauses(s)) == (some_true(tau, s) && at_most_one_true(tau, s)),
{
    lemma_at_most_one_pairwise_means(tau, s);
    lemma_cnf_holds_append(tau, seq![s], at_most_one_pairwise_clauses(s));
    assert(cnf_holds(tau, seq![s]) == clause_holds(tau, s)) by {
        if clause_holds(tau, s) {
            assert forall|k: int| 0 <= k < seq![s].len() implies clause_holds(tau, #[trigger] seq![s][k]) by {
                assert(seq![s][k] == s);
            }
        }
        if cnf_holds(tau, seq![s]) {
            assert(seq![s][0] == s);
        }
    }
}

/// The sequential register `s_i` ("one of the first `i + 1` literals is true"),
/// the positive literal of auxiliary variable `base + i`.
pub open spec fn ladder_reg(base: int, i: int) -> Lit {
    Lit { var: var_at(base + i), positive: true }
}

/// The ladder clauses for the inner literals `1 ≤ m < i`.
pub open spec fn ladder_mid(x: Seq<Lit>, base: int, i: int) -> Seq<Seq<Lit>>
    decreases i,
{
    if i <= 1 {
        Seq::empty()
    } else {
        ladder_mid(x, base, i - 1) + seq![
            seq![x[i - 1].neg(), ladder_reg(base, i - 1)],
            seq![ladder_reg(base, i - 2).neg(), ladder_reg(base, i - 1)],
            seq![x[i - 1].neg(), ladder_reg(base, i - 2).neg()],
        ]
    }
}

/// Sinz's sequential at-most-one over `x`, with registers `s₀ … s_{n−2}` at
/// variables `base … base + n − 2`. Empty for `n ≤ 1`.
pub open spec fn at_most_one_sequential_clauses(x: Seq<Lit>, base: int) -> Seq<Seq<Lit>> {
    let n = x.len() as int;
    if n <= 1 {
        Seq::empty()
    } else {
        seq![seq![x[0].neg(), ladder_reg(base, 0)], seq![x[n - 1].neg(), ladder_reg(base, n - 2).neg()]]
            + ladder_mid(x, base, n - 1)
    }
}

/// The number of auxiliary variables the sequential at-most-one over `n`
/// literals draws.
pub open spec fn at_most_one_sequential_aux(n: int) -> int {
    if n <= 1 {
        0
    } else {
        n - 1
    }
}

/// At-most-one via Sinz's sequential ("ladder") encoding.
///
/// Draws `n − 1` auxiliary variables `s₀ … s_{n−2}` from `aux`, where `sᵢ` means
/// "at least one of `lits[0..=i]` is true", and adds `3n − 4` clauses (for
/// `n ≥ 2`). For `n ≤ 1` nothing is emitted.
pub fn at_most_one_sequential(lits: &[Lit], aux: &mut VarManager, cnf: &mut Cnf)
    requires
        old(aux).next_index() + at_most_one_sequential_aux(lits@.len() as int) <= MAX_VAR_IDX + 1,
    ensures
        final(cnf)@ == old(cnf)@ + at_most_one_sequential_clauses(lits@, old(aux).next_index() as int),
        final(aux).next_index() == old(aux).next_index() + at_most_one_sequential_aux(lits@.len() as int),
{
    let n = lits.len();
    if n <= 1 {
        assert(cnf@ =~= cnf@ + Seq::<Seq<Lit>>::empty());
        return;
    }
    let ghost start = cnf@;
    let ghost base = aux.next_index() as int;
    let mut s: Vec<Lit> = Vec::new();
    let mut t: usize = 0;
    while t < n - 1
        invariant
            n == lits@.len(),
            n >= 2,
            t <= n - 1,
            s@.len() == t,
            aux.next_index() == base + t,
            base + n - 1 <= MAX_VAR_IDX + 1,
            forall|m: int| 0 <= m < t ==> #[trigger] s@[m] == ladder_reg(base, m),
        decreases n - 1 - t,
    {
        let v = aux.fresh();
        assert(var_at(base + t).index() == base + t);
        assert(v.index() == var_at(base + t).index());
        assert(v == var_at(base + t));
        s.push(v.pos_lit());
        t = t + 1;
    }
    cnf.add_clause(clause2(lits[0].negate(), s[0]));
    cnf.add_clause(clause2(lits[n - 1].negate(), s[n - 2].negate()));
    assert(cnf@ =~= start + seq![
        seq![lits@[0].neg(), ladder_reg(base, 0)],
        seq![lits@[n - 1].neg(), ladder_reg(base, n - 2).neg()],
    ] + ladder_mid(lits@, base, 1));
    let mut i: usize = 1;
    while i < n - 1
        invariant
            n == lits@.len(),
            n >= 2,
            1 <= i <= n - 1,
            s@.len() == n - 1,
            forall|m: int| 0 <= m < n - 1 ==> #[trigger] s@[m] == ladder_reg(base, m),
            cnf@ == start + seq![
                seq![lits@[0].neg(), ladder_reg(base, 0)],
                seq![lits@[n - 1].neg(), ladder_reg(base, n - 2).neg()],
            ] + ladder_mid(lits@, base, i as int),
        decreases n - 1 - i,
    {
        cnf.add_clause(clause2(lits[i].negate(), s[i]));
        cnf.add_clause(clause2(s[i - 1].negate(), s[i]));
        cnf.add_clause(clause2(lits[i].negate(), s[i - 1].negate()));
        i = i + 1;
        assert(cnf@ =~= start + seq![
            seq![lits@[0].neg(), ladder_reg(base, 0)],
            seq![lits@[n - 1].neg(), ladder_reg(base, n - 2).neg()],
        ] + ladder_mid(lits@, base, i as int));
    }
}

/// Exactly-one via sequential at-most-one plus at-least-one.
pub fn exactly_one_sequential(lits: &[Lit], aux: &mut VarManager, cnf: &mut Cnf)
    requires
        old(aux).next_index() + at_most_one_sequential_aux(lits@.len() as int) <= MAX_VAR_IDX + 1,
    ensures
        final(cnf)@ == old(cnf)@.push(lits@) + at_most_one_sequential_clauses(
            lits@,
            old(aux).next_index() as int,
        ),
        final(aux).next_index() == old(aux).next_index() + at_most_one_sequential_aux(lits@.len() as int),
{
    at_least_one(lits, cnf);
    at_most_one_sequential(lits, aux, cnf);
}

/// The counter register `s_{i,j}` ("at least `j` of the first `i` literals are
/// true", `1 ≤ i < n`, `1 ≤ j ≤ k`): the positive literal of auxiliary variable
/// `base + (i − 1)·k + (j − 1)`, registers numbered row by row.
pub open spec fn counter_reg(base: int, k: int, i: int, j: int) -> Lit {
    Lit { var: var_at(base + (i - 1) * k + (j - 1)), positive: true }
}

/// `¬s_{1,m}` for `2 ≤ m < j`: after one literal no count above one holds.
pub open spec fn counter_first_row(base: int, k: int, j: int) -> Seq<Seq<Lit>>
    decreases j,
{
    if j <= 2 {
        Seq::empty()
    } else {
        counter_first_row(base, k, j - 1).push(seq![counter_reg(base, k, 1, j - 1).neg()])
    }
}

/// The carry clauses of literal `xᵢ` for counts `2 ≤ m < j`:
/// `xᵢ ∧ s_{i−1,m−1} → s_{i,m}` and `s_{i−1,m} → s_{i,m}`.
pub open spec fn counter_carries(x: Seq<Lit>, base: int, k: int, i: int, j: int) -> Seq<Seq<Lit>>
    decreases j,
{
    if j <= 2 {
        Seq::empty()
    } else {
        counter_carries(x, base, k, i, j - 1) + seq![
            seq![x[i - 1].neg(), counter_reg(base, k, i - 1, j - 2).neg(), counter_reg(base, k, i, j - 1)],
            seq![counter_reg(base, k, i - 1, j - 1).neg(), counter_reg(base, k, i, j - 1)],
        ]
    }
}

/// Every clause the counter emits for literal `xᵢ` (`2 ≤ i < n`).
pub open spec fn counter_row(x: Seq<Lit>, base: int, k: int, i: int) -> Seq<Seq<Lit>> {
    seq![
        seq![x[i - 1].neg(), counter_reg(base, k, i, 1)],
        seq![counter_reg(base, k, i - 1, 1).neg(), counter_reg(base, k, i, 1)],
    ] + counter_carries(x, base, k, i, k + 1)
}

/// The rows of literals `x₂ … x_{i−1}`.
pub open spec fn counter_rows(x: Seq<Lit>, base: int, k: int, i: int) -> Seq<Seq<Lit>>
    decreases i,
{
    if i <= 2 {
        Seq::empty()
    } else {
        counter_rows(x, base, k, i - 1) + counter_row(x, base, k, i - 1)
    }
}

/// The bound `xₘ → ¬s_{m−1,k}` for `2 ≤ m < i`.
pub open spec fn counter_bounds(x: Seq<Lit>, base: int, k: int, i: int) -> Seq<Seq<Lit>>
    decreases i,
{
    if i <= 2 {
        Seq::empty()
    } else {
        counter_bounds(x, base, k, i - 1).push(seq![x[i - 2].neg(), counter_reg(base, k, i - 2, k).neg()])
    }
}

/// The unit clauses `¬x[m]` for `m < i`.
pub open spec fn negated_units(x: Seq<Lit>, i: int) -> Seq<Seq<Lit>>
    decreases i,
{
    if i <= 0 {
        Seq::empty()
    } else {
        negated_units(x, i - 1).push(seq![x[i - 1].neg()])
    }
}

/// Sinz's sequential counter for "at most `k` of `x`", registers from `base`.
/// Empty when `k ≥ n`; the unit clauses `¬xᵢ` when `k = 0`.
pub open spec fn at_most_k_clauses(x: Seq<Lit>, k: int, base: int) -> Seq<Seq<Lit>> {
    let n = x.len() as int;
    if k >= n {
        Seq::empty()
    } else if k == 0 {
        negated_units(x, n)
    } else {
        seq![seq![x[0].neg(), counter_reg(base, k, 1, 1)]] + counter_first_row(base, k, k + 1)
            + counter_rows(x, base, k, n) + counter_bounds(x, base, k, n + 1)
    }
}

/// The number of registers the counter over `n` literals with bound `k` draws.
pub open spec fn at_most_k_aux(n: int, k: int) -> int {
    if k >= n || k == 0 {
        0
    } else {
        (n - 1) * k
    }
}

/// Allocate the counter registers `s_{i,j}` row by row.
fn counter_registers(n: usize, k: usize, aux: &mut VarManager) -> (rows: Vec<Vec<Lit>>)
    requires
        2 <= n,
        1 <= k < n,
        old(aux).next_index() + (n - 1) * k <= MAX_VAR_IDX + 1,
    ensures
        final(aux).next_index() == old(aux).next_index() + (n - 1) * k,
        rows@.len() == n - 1,
        forall|r: int| 0 <= r < n - 1 ==> (#[trigger] rows@[r])@.len() == k,
        forall|r: int, c: int|
            0 <= r < n - 1 && 0 <= c < k ==> #[trigger] rows@[r]@[c] == counter_reg(
                old(aux).next_index() as int,
                k as int,
                r + 1,
                c + 1,
            ),
{
    let ghost base = aux.next_index() as int;
    let mut rows: Vec<Vec<Lit>> = Vec::new();
    let mut r: usize = 0;
    while r < n - 1
        invariant
            2 <= n,
            1 <= k < n,
            base + (n - 1) * k <= MAX_VAR_IDX + 1,
            r <= n - 1,
            rows@.len() == r,
            aux.next_index() == base + r * k,
            forall|rr: int| 0 <= rr < r ==> (#[trigger] rows@[rr])@.len() == k,
            forall|rr: int, c: int|
                0 <= rr < r && 0 <= c < k ==> #[trigger] rows@[rr]@[c] == counter_reg(base, k as int, rr + 1, c + 1),
        decreases n - 1 - r,
    {
        let mut row: Vec<Lit> = Vec::new();
        let mut c: usize = 0;
        while c < k
            invariant
                2 <= n,
                1 <= k < n,
                base + (n - 1) * k <= MAX_VAR_IDX + 1,
                r < n - 1,
                c <= k,
                row@.len() == c,
                aux.next_index() == base + r * k + c,
                forall|cc: int| 0 <= cc < c ==> #[trigger] row@[cc] == counter_reg(base, k as int, r + 1, cc + 1),
            decreases k - c,
        {
            assert(r * k + c < (n - 1) * k) by (nonlinear_arith)
                requires
                    r < n - 1,
                    c < k,
            ;
            let v = aux.fresh();
            assert(base + ((r + 1) - 1) * k + ((c + 1) - 1) == base + r * k + c);
            assert(var_at(base + r * k + c).index() == base + r * k + c);
            assert(v.index() == var_at(base + r * k + c).index());
            row.push(v.pos_lit());
            c = c + 1;
        }
        rows.push(row);
        assert((r + 1) * k == r * k + k) by (nonlinear_arith);
        r = r + 1;
    }
    rows
}

/// At-most-`k` via Sinz's sequential counter.
///
/// Draws `(n − 1)·k` auxiliary registers `sᵢⱼ` ("at least `j` of the first `i`
/// literals are true") from `aux`. Degenerate bounds short-circuit: `k ≥ n` is
/// vacuous (nothing emitted) and `k = 0` forbids every literal with a unit clause.
pub fn at_most_k_sequential(lits: &[Lit], k: usize, aux: &mut VarManager, cnf: &mut Cnf)
    requires
        old(aux).next_index() + at_most_k_aux(lits@.len() as int, k as int) <= MAX_VAR_IDX + 1,
    ensures
        final(cnf)@ == old(cnf)@ + at_most_k_clauses(lits@, k as int, old(aux).next_index() as int),
        final(aux).next_index() == old(aux).next_index() + at_most_k_aux(lits@.len() as int, k as int),
{
    let ghost start = cnf@;
    let n = lits.len();
    if k >= n {
        assert(cnf@ =~= start + Seq::<Seq<Lit>>::empty());
        return;
    }
    if k == 0 {
        let mut i: usize = 0;
        while i < n
            invariant
                n == lits@.len(),
                i <= n,
                cnf@ == start + negated_units(lits@, i as int),
            decreases n - i,
        {
            cnf.add_clause(clause1(lits[i].negate()));
            i = i + 1;
            assert(cnf@ =~= start + negated_units(lits@, i as int));
        }
        return;
    }
    let ghost base = aux.next_index() as int;
    let ghost kk = k as int;
    let rows = counter_registers(n, k, aux);
    // x₁ → s₁,₁, and s₁,ⱼ is false for j > 1.
    cnf.add_clause(clause2(lits[0].negate(), rows[0][0]));
    let ghost head = seq![seq![lits@[0].neg(), counter_reg(base, kk, 1, 1)]];
    assert(cnf@ =~= start + head + counter_first_row(base, kk, 2));
    let mut j: usize = 2;
    while j <= k
        invariant
            n == lits@.len(),
            kk == k,
            1 <= k < n,
            2 <= j <= k + 1,
            rows@.len() == n - 1,
            forall|r: int| 0 <= r < n - 1 ==> (#[trigger] rows@[r])@.len() == k,
            forall|r: int, c: int|
                0 <= r < n - 1 && 0 <= c < k ==> #[trigger] rows@[r]@[c] == counter_reg(base, kk, r + 1, c + 1),
            cnf@ == start + head + counter_first_row(base, kk, j as int),
        decreases k + 1 - j,
    {
        cnf.add_clause(clause1(rows[0][j - 1].negate()));
        j = j + 1;
        assert(cnf@ =~= start + head + counter_first_row(base, kk, j as int));
    }
    let ghost first = head + counter_first_row(base, kk, kk + 1);
    assert(cnf@ =~= start + first + counter_rows(lits@, base, kk, 2));
    // The carry recurrence for each further literal xᵢ.
    let mut i: usize = 2;
    while i < n
        invariant
            n == lits@.len(),
            kk == k,
            1 <= k < n,
            2 <= i <= n,
            rows@.len() == n - 1,
            forall|r: int| 0 <= r < n - 1 ==> (#[trigger] rows@[r])@.len() == k,
            forall|r: int, c: int|
                0 <= r < n - 1 && 0 <= c < k ==> #[trigger] rows@[r]@[c] == counter_reg(base, kk, r + 1, c + 1),
            cnf@ == start + first + counter_rows(lits@, base, kk, i as int),
        decreases n - i,
    {
        let x = lits[i - 1];
        cnf.add_clause(clause2(x.negate(), rows[i - 1][0]));
        cnf.add_clause(clause2(rows[i - 2][0].negate(), rows[i - 1][0]));
        let ghost two = seq![
            seq![lits@[i - 1].neg(), counter_reg(base, kk, i as int, 1)],
            seq![counter_reg(base, kk, i - 1, 1).neg(), counter_reg(base, kk, i as int, 1)],
        ];
        assert(cnf@ =~= start + first + counter_rows(lits@, base, kk, i as int) + two + counter_carries(
            lits@,
            base,
            kk,
            i as int,
            2,
        ));
        let mut j: usize = 2;
        while j <= k
            invariant
                n == lits@.len(),
                kk == k,
                1 <= k < n,
                2 <= i < n,
                2 <= j <= k + 1,
                x == lits@[i - 1],
                rows@.len() == n - 1,
                forall|r: int| 0 <= r < n - 1 ==> (#[trigger] rows@[r])@.len() == k,
                forall|r: int, c: int|
                    0 <= r < n - 1 && 0 <= c < k ==> #[trigger] rows@[r]@[c] == counter_reg(
                        base,
                        kk,
                        r + 1,
                        c + 1,
                    ),
                cnf@ == start + first + counter_rows(lits@, base, kk, i as int) + two + counter_carries(
                    lits@,
                    base,
                    kk,
                    i as int,
                    j as int,
                ),
            decreases k + 1 - j,
        {
            cnf.add_clause(clause3(x.negate(), rows[i - 2][j - 2].negate(), rows[i - 1][j - 1]));
            cnf.add_clause(clause2(rows[i - 2][j - 1].negate(), rows[i - 1][j - 1]));
            j = j + 1;
            assert(cnf@ =~= start + first + counter_rows(lits@, base, kk, i as int) + two + counter_carries(
                lits@,
                base,
                kk,
                i as int,
                j as int,
            ));
        }
        assert(j == k + 1);
        assert(counter_rows(lits@, base, kk, i + 1) == counter_rows(lits@, base, kk, i as int)
            + counter_row(lits@, base, kk, i as int));
        assert(two + counter_carries(lits@, base, kk, i as int, kk + 1) == counter_row(
            lits@,
            base,
            kk,
            i as int,
        ));
        assert(cnf@ =~= start + first + counter_rows(lits@, base, kk, i + 1));
        i = i + 1;
    }
    // The bound: xᵢ forbids "already k among the earlier ones".
    let ghost middle = first + counter_rows(lits@, base, kk, n as int);
    assert(cnf@ =~= start + middle + counter_bounds(lits@, base, kk, 2));
    let mut i: usize = 1;
    while i < n
        invariant
            n == lits@.len(),
            kk == k,
            1 <= k < n,
            1 <= i <= n,
            rows@.len() == n - 1,
            forall|r: int| 0 <= r < n - 1 ==> (#[trigger] rows@[r])@.len() == k,
            forall|r: int, c: int|
                0 <= r < n - 1 && 0 <= c < k ==> #[trigger] rows@[r]@[c] == counter_reg(base, kk, r + 1, c + 1),
            cnf@ == start + middle + counter_bounds(lits@, base, kk, i + 1),
        decreases n - i,
    {
        let ghost before = cnf@;
        cnf.add_clause(clause2(lits[i].negate(), rows[i - 1][k - 1].negate()));
        assert(rows@[i - 1]@[k - 1] == counter_reg(base, kk, i as int, kk));
        assert(counter_bounds(lits@, base, kk, i + 2) == counter_bounds(lits@, base, kk, i + 1).push(
            seq![lits@[i as int].neg(), counter_reg(base, kk, i as int, kk).neg()],
        ));
        assert(cnf@ =~= start + middle + counter_bounds(lits@, base, kk, i + 2));
        i = i + 1;
    }
}

/// The negation of every literal of `x`, in order.
pub open spec fn negate_all(x: Seq<Lit>) -> Seq<Lit> {
    x.map_values(|l: Lit| l.neg())
}

/// "At least `k` of `x`" as "at most `n − k` of the negations"; vacuous for
/// `k = 0`, the empty clause for `k > n`.
pub open spec fn at_least_k_clauses(x: Seq<Lit>, k: int, base: int) -> Seq<Seq<Lit>> {
    let n = x.len() as int;
    if k == 0 {
        Seq::empty()
    } else if k > n {
        seq![Seq::<Lit>::empty()]
    } else {
        at_most_k_clauses(negate_all(x), n - k, base)
    }
}

/// The number of registers at-least-`k` over `n` literals draws.
pub open spec fn at_least_k_aux(n: int, k: int) -> int {
    if k == 0 || k > n {
        0
    } else {
        at_most_k_aux(n, n - k)
    }
}

/// At-least-`k`: at least `k` of `lits` are true.
///
/// Counts the negated literals with the complementary bound `n − k`. `k = 0` is
/// vacuous; `k > n` is impossible and emits the empty clause.
pub fn at_least_k_sequential(lits: &[Lit], k: usize, aux: &mut VarManager, cnf: &mut Cnf)
    requires
        old(aux).next_index() + at_least_k_aux(lits@.len() as int, k as int) <= MAX_VAR_IDX + 1,
    ensures
        final(cnf)@ == old(cnf)@ + at_least_k_clauses(lits@, k as int, old(aux).next_index() as int),
        final(aux).next_index() == old(aux).next_index() + at_least_k_aux(lits@.len() as int, k as int),
{
    let n = lits.len();
    if k == 0 {
        assert(cnf@ =~= cnf@ + Seq::<Seq<Lit>>::empty());
        return;
    }
    if k > n {
        let ghost start = cnf@;
        cnf.add_clause(Clause::new());
        assert(cnf@ =~= start + seq![Seq::<Lit>::empty()]);
        return;
    }
    let mut negated: Vec<Lit> = Vec::new();
    let mut i: usize = 0;
    while i < n
        invariant
            n == lits@.len(),
            i <= n,
            negated@ == negate_all(lits@).subrange(0, i as int),
        decreases n - i,
    {
        negated.push(lits[i].negate());
        i = i + 1;
        assert(negated@ =~= negate_all(lits@).subrange(0, i as int));
    }
    assert(negated@ =~= negate_all(lits@));
    at_most_k_sequential(negated.as_slice(), n - k, aux, cnf);
}

/// Exactly-`k` via at-least-`k` and at-most-`k` (the at-most registers follow
/// the at-least ones).
pub fn exactly_k_sequential(lits: &[Lit], k: usize, aux: &mut VarManager, cnf: &mut Cnf)
    requires
        old(aux).next_index() + at_least_k_aux(lits@.len() as int, k as int) + at_most_k_aux(
            lits@.len() as int,
            k as int,
        ) <= MAX_VAR_IDX + 1,
    ensures
        final(cnf)@ == old(cnf)@ + at_least_k_clauses(lits@, k as int, old(aux).next_index() as int)
            + at_most_k_clauses(
            lits@,
            k as int,
            old(aux).next_index() + at_least_k_aux(lits@.len() as int, k as int),
        ),
        final(aux).next_index() == old(aux).next_index() + at_least_k_aux(lits@.len() as int, k as int)
            + at_most_k_aux(lits@.len() as int, k as int),
{
    proof {
        assert(at_least_k_aux(lits@.len() as int, k as int) >= 0) by (nonlinear_arith);
        assert(at_most_k_aux(lits@.len() as int, k as int) >= 0) by (nonlinear_arith);
    }
    at_least_k_sequential(lits, k, aux, cnf);
    at_most_k_sequential(lits, k, aux, cnf);
}

} // verus!
