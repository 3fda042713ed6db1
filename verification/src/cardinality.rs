//! What the sequential cardinality encodings mean.
//!
//! For a total assignment of the counted literals, the counter clauses can be
//! satisfied by some choice of the auxiliary registers exactly when the number
//! of true literals meets the bound. The registers are variables at or above
//! `base`, while the counted literals live below it, so "some choice of the
//! registers" is an assignment that agrees with the given one below `base`.

use vstd::prelude::*;

use crate::cnf::{clause_holds, clauses_below, cnf_holds, lemma_index_nonneg, lemma_var_at, lit_holds, lits_below, Lit, MAX_VAR_IDX};
use vstd::arithmetic::div_mod::lemma_fundamental_div_mod_converse;
use crate::encodings::{
    at_least_k_aux, at_least_k_clauses, at_most_k_aux, at_most_k_clauses, at_most_one_sequential_aux,
    at_most_one_pairwise_clauses, at_most_one_sequential_clauses, counter_carries, ladder_mid, ladder_reg, pair_row,
    pairs_upto, counter_bounds, counter_first_row, counter_reg, counter_row, counter_rows, lemma_cnf_holds_append,
    negate_all, negated_units,
};

verus! {

broadcast use lemma_var_at;

/// How many of the first `i` literals of `x` are true under `tau`.
pub open spec fn count_true(tau: spec_fn(int) -> bool, x: Seq<Lit>, i: int) -> int
    decreases i,
{
    if i <= 0 {
        0
    } else {
        count_true(tau, x, i - 1) + if lit_holds(tau, x[i - 1]) {
            1int
        } else {
            0int
        }
    }
}

/// The count never falls and never exceeds the number of literals counted.
proof fn lemma_count_bounds(tau: spec_fn(int) -> bool, x: Seq<Lit>, i: int, j: int)
    requires
        0 <= i <= j,
    ensures
        0 <= count_true(tau, x, i) <= i,
        count_true(tau, x, i) <= count_true(tau, x, j),
        count_true(tau, x, j) - count_true(tau, x, i) <= j - i,
    decreases j,
{
    if j > i {
        lemma_count_bounds(tau, x, i, j - 1);
    } else if i > 0 {
        lemma_count_bounds(tau, x, i - 1, i - 1);
    }
}

/// One clause holds as a formula exactly when it holds as a clause.
proof fn lemma_single(tau: spec_fn(int) -> bool, c: Seq<Lit>)
    ensures
        cnf_holds(tau, seq![c]) == clause_holds(tau, c),
{
    if clause_holds(tau, c) {
        assert forall|k: int| 0 <= k < seq![c].len() implies clause_holds(tau, #[trigger] seq![c][k]) by {
            assert(seq![c][k] == c);
        }
    }
    if cnf_holds(tau, seq![c]) {
        assert(seq![c][0] == c);
    }
}

/// A formula with one more clause holds when both parts do.
proof fn lemma_push(tau: spec_fn(int) -> bool, cs: Seq<Seq<Lit>>, c: Seq<Lit>)
    ensures
        cnf_holds(tau, cs.push(c)) == (cnf_holds(tau, cs) && clause_holds(tau, c)),
{
    assert(cs.push(c) == cs + seq![c]);
    lemma_cnf_holds_append(tau, cs, seq![c]);
    lemma_single(tau, c);
}

/// A unit clause holds when its literal does.
proof fn lemma_clause1(tau: spec_fn(int) -> bool, a: Lit)
    ensures
        clause_holds(tau, seq![a]) == lit_holds(tau, a),
{
    if lit_holds(tau, a) {
        assert(lit_holds(tau, seq![a][0]));
    }
}

/// A binary clause holds when one of its literals does.
proof fn lemma_clause2(tau: spec_fn(int) -> bool, a: Lit, b: Lit)
    ensures
        clause_holds(tau, seq![a, b]) == (lit_holds(tau, a) || lit_holds(tau, b)),
{
    if lit_holds(tau, a) {
        assert(lit_holds(tau, seq![a, b][0]));
    }
    if lit_holds(tau, b) {
        assert(lit_holds(tau, seq![a, b][1]));
    }
}

/// A ternary clause holds when one of its literals does.
proof fn lemma_clause3(tau: spec_fn(int) -> bool, a: Lit, b: Lit, d: Lit)
    ensures
        clause_holds(tau, seq![a, b, d]) == (lit_holds(tau, a) || lit_holds(tau, b) || lit_holds(tau, d)),
{
    if lit_holds(tau, a) {
        assert(lit_holds(tau, seq![a, b, d][0]));
    }
    if lit_holds(tau, b) {
        assert(lit_holds(tau, seq![a, b, d][1]));
    }
    if lit_holds(tau, d) {
        assert(lit_holds(tau, seq![a, b, d][2]));
    }
}

/// The register `s_{i,j}` is true under `tau`.
pub open spec fn reg_on(tau: spec_fn(int) -> bool, base: int, k: int, i: int, j: int) -> bool {
    lit_holds(tau, counter_reg(base, k, i, j))
}

/// The unit clauses `¬x[m]`, `m < i`, hold exactly when none of those literals
/// is true.
proof fn lemma_negated_units_mean(tau: spec_fn(int) -> bool, x: Seq<Lit>, i: int)
    ensures
        cnf_holds(tau, negated_units(x, i)) == forall|m: int| 0 <= m < i ==> !lit_holds(tau, #[trigger] x[m]),
    decreases i,
{
    if i > 0 {
        lemma_negated_units_mean(tau, x, i - 1);
        lemma_push(tau, negated_units(x, i - 1), seq![x[i - 1].neg()]);
        lemma_clause1(tau, x[i - 1].neg());
    }
}

/// The first-row clauses hold exactly when `s_{1,m}` is false for `2 ≤ m < j`.
proof fn lemma_first_row_means(tau: spec_fn(int) -> bool, base: int, k: int, j: int)
    ensures
        cnf_holds(tau, counter_first_row(base, k, j)) == forall|m: int|
            2 <= m < j ==> !#[trigger] reg_on(tau, base, k, 1, m),
    decreases j,
{
    if j > 2 {
        lemma_first_row_means(tau, base, k, j - 1);
        lemma_push(tau, counter_first_row(base, k, j - 1), seq![counter_reg(base, k, 1, j - 1).neg()]);
        lemma_clause1(tau, counter_reg(base, k, 1, j - 1).neg());
        if forall|m: int| 2 <= m < j ==> !#[trigger] reg_on(tau, base, k, 1, m) {
            assert(!reg_on(tau, base, k, 1, j - 1));
        }
    }
}

/// The two carry implications for literal `i` and count `m`.
pub open spec fn carry_ok(tau: spec_fn(int) -> bool, x: Seq<Lit>, base: int, k: int, i: int, m: int) -> bool {
    &&& (lit_holds(tau, x[i - 1]) && reg_on(tau, base, k, i - 1, m - 1)) ==> reg_on(tau, base, k, i, m)
    &&& reg_on(tau, base, k, i - 1, m) ==> reg_on(tau, base, k, i, m)
}

/// The carry clauses of literal `i` hold exactly when both carry implications
/// hold for every count `2 ≤ m < j`.
proof fn lemma_carries_mean(tau: spec_fn(int) -> bool, x: Seq<Lit>, base: int, k: int, i: int, j: int)
    ensures
        cnf_holds(tau, counter_carries(x, base, k, i, j)) == forall|m: int|
            2 <= m < j ==> #[trigger] carry_ok(tau, x, base, k, i, m),
    decreases j,
{
    if j > 2 {
        lemma_carries_mean(tau, x, base, k, i, j - 1);
        let c1 = seq![x[i - 1].neg(), counter_reg(base, k, i - 1, j - 2).neg(), counter_reg(base, k, i, j - 1)];
        let c2 = seq![counter_reg(base, k, i - 1, j - 1).neg(), counter_reg(base, k, i, j - 1)];
        let prev = counter_carries(x, base, k, i, j - 1);
        assert(counter_carries(x, base, k, i, j) == prev.push(c1).push(c2));
        lemma_push(tau, prev, c1);
        lemma_push(tau, prev.push(c1), c2);
        lemma_clause3(tau, x[i - 1].neg(), counter_reg(base, k, i - 1, j - 2).neg(), counter_reg(base, k, i, j - 1));
        lemma_clause2(tau, counter_reg(base, k, i - 1, j - 1).neg(), counter_reg(base, k, i, j - 1));
        if forall|m: int| 2 <= m < j ==> #[trigger] carry_ok(tau, x, base, k, i, m) {
            assert(carry_ok(tau, x, base, k, i, j - 1));
        }
    }
}

/// Every implication the counter states for literal `i` (`2 ≤ i < n`).
pub open spec fn row_ok(tau: spec_fn(int) -> bool, x: Seq<Lit>, base: int, k: int, i: int) -> bool {
    &&& lit_holds(tau, x[i - 1]) ==> reg_on(tau, base, k, i, 1)
    &&& reg_on(tau, base, k, i - 1, 1) ==> reg_on(tau, base, k, i, 1)
    &&& forall|m: int| 2 <= m < k + 1 ==> #[trigger] carry_ok(tau, x, base, k, i, m)
}

/// The clauses of literal `i` hold exactly when its implications do.
proof fn lemma_row_means(tau: spec_fn(int) -> bool, x: Seq<Lit>, base: int, k: int, i: int)
    ensures
        cnf_holds(tau, counter_row(x, base, k, i)) == row_ok(tau, x, base, k, i),
{
    let a = seq![x[i - 1].neg(), counter_reg(base, k, i, 1)];
    let b = seq![counter_reg(base, k, i - 1, 1).neg(), counter_reg(base, k, i, 1)];
    assert(seq![a, b] == seq![a].push(b));
    lemma_single(tau, a);
    lemma_push(tau, seq![a], b);
    lemma_cnf_holds_append(tau, seq![a, b], counter_carries(x, base, k, i, k + 1));
    lemma_carries_mean(tau, x, base, k, i, k + 1);
    lemma_clause2(tau, x[i - 1].neg(), counter_reg(base, k, i, 1));
    lemma_clause2(tau, counter_reg(base, k, i - 1, 1).neg(), counter_reg(base, k, i, 1));
}

/// The rows of literals `2 … i − 1` hold exactly when each row's implications do.
proof fn lemma_rows_mean(tau: spec_fn(int) -> bool, x: Seq<Lit>, base: int, k: int, i: int)
    ensures
        cnf_holds(tau, counter_rows(x, base, k, i)) == forall|m: int| 2 <= m < i ==> #[trigger] row_ok(tau, x, base, k, m),
    decreases i,
{
    if i > 2 {
        lemma_rows_mean(tau, x, base, k, i - 1);
        lemma_row_means(tau, x, base, k, i - 1);
        lemma_cnf_holds_append(tau, counter_rows(x, base, k, i - 1), counter_row(x, base, k, i - 1));
    }
}

/// The bound clauses hold exactly when no literal `x[q]`, `1 ≤ q ≤ i − 2`, is
/// true while `s_{q,k}` is.
proof fn lemma_bounds_mean(tau: spec_fn(int) -> bool, x: Seq<Lit>, base: int, k: int, i: int)
    ensures
        cnf_holds(tau, counter_bounds(x, base, k, i)) == forall|q: int|
            1 <= q <= i - 2 ==> !(lit_holds(tau, #[trigger] x[q]) && reg_on(tau, base, k, q, k)),
    decreases i,
{
    if i > 2 {
        lemma_bounds_mean(tau, x, base, k, i - 1);
        lemma_push(tau, counter_bounds(x, base, k, i - 1), seq![x[i - 2].neg(), counter_reg(base, k, i - 2, k).neg()]);
        lemma_clause2(tau, x[i - 2].neg(), counter_reg(base, k, i - 2, k).neg());
    }
}

/// No literal among the first `i` is true exactly when the count is zero.
proof fn lemma_count_zero(tau: spec_fn(int) -> bool, x: Seq<Lit>, i: int)
    requires
        0 <= i,
    ensures
        (count_true(tau, x, i) == 0) == forall|m: int| 0 <= m < i ==> !lit_holds(tau, #[trigger] x[m]),
    decreases i,
{
    if i > 0 {
        lemma_count_zero(tau, x, i - 1);
        lemma_count_bounds(tau, x, i - 1, i - 1);
        if count_true(tau, x, i) == 0 {
            assert forall|m: int| 0 <= m < i implies !lit_holds(tau, #[trigger] x[m]) by {
                if m < i - 1 {
                } else {
                }
            }
        }
    }
}

/// The counter's clauses for the first literal and for each later row.
pub open spec fn rows_hold(tau: spec_fn(int) -> bool, x: Seq<Lit>, base: int, k: int) -> bool {
    &&& lit_holds(tau, x[0]) ==> reg_on(tau, base, k, 1, 1)
    &&& forall|m: int| 2 <= m < x.len() ==> #[trigger] row_ok(tau, x, base, k, m)
}

/// Under the counter's clauses every register whose count is reached is set:
/// `count(i) ≥ j` implies `s_{i,j}`.
proof fn lemma_registers_reached(tau: spec_fn(int) -> bool, x: Seq<Lit>, base: int, k: int, i: int)
    requires
        1 <= k,
        1 <= i < x.len(),
        rows_hold(tau, x, base, k),
    ensures
        forall|j: int| 1 <= j <= k && count_true(tau, x, i) >= j ==> #[trigger] reg_on(tau, base, k, i, j),
    decreases i,
{
    if i == 1 {
        assert(count_true(tau, x, 0) == 0);
    } else {
        lemma_registers_reached(tau, x, base, k, i - 1);
        assert(row_ok(tau, x, base, k, i));
        assert forall|j: int| 1 <= j <= k && count_true(tau, x, i) >= j implies #[trigger] reg_on(
            tau,
            base,
            k,
            i,
            j,
        ) by {
            if j >= 2 {
                assert(carry_ok(tau, x, base, k, i, j));
                if lit_holds(tau, x[i - 1]) {
                    assert(reg_on(tau, base, k, i - 1, j - 1));
                } else {
                    assert(reg_on(tau, base, k, i - 1, j));
                }
            } else if !lit_holds(tau, x[i - 1]) {
                assert(reg_on(tau, base, k, i - 1, 1));
            }
        }
    }
}

/// Under the counter's clauses and bounds no prefix counts more than `k`.
proof fn lemma_count_capped(tau: spec_fn(int) -> bool, x: Seq<Lit>, base: int, k: int, i: int)
    requires
        1 <= k < x.len(),
        0 <= i <= x.len(),
        rows_hold(tau, x, base, k),
        forall|q: int| 1 <= q <= x.len() - 1 ==> !(lit_holds(tau, #[trigger] x[q]) && reg_on(tau, base, k, q, k)),
    ensures
        count_true(tau, x, i) <= k,
    decreases i,
{
    if i <= 1 {
        lemma_count_bounds(tau, x, i, i);
    } else {
        lemma_count_capped(tau, x, base, k, i - 1);
        if lit_holds(tau, x[i - 1]) && count_true(tau, x, i - 1) >= k {
            lemma_registers_reached(tau, x, base, k, i - 1);
            assert(reg_on(tau, base, k, i - 1, k));
        }
    }
}

/// How the at-most-`k` clauses split into their four groups.
proof fn lemma_at_most_k_parts(tau: spec_fn(int) -> bool, x: Seq<Lit>, k: int, base: int)
    requires
        1 <= k < x.len(),
    ensures
        cnf_holds(tau, at_most_k_clauses(x, k, base)) == {
            &&& rows_hold(tau, x, base, k)
            &&& forall|m: int| 2 <= m < k + 1 ==> !#[trigger] reg_on(tau, base, k, 1, m)
            &&& forall|q: int|
                1 <= q <= x.len() - 1 ==> !(lit_holds(tau, #[trigger] x[q]) && reg_on(tau, base, k, q, k))
        },
{
    let n = x.len() as int;
    let first = seq![seq![x[0].neg(), counter_reg(base, k, 1, 1)]];
    let a = first + counter_first_row(base, k, k + 1);
    let b = a + counter_rows(x, base, k, n);
    lemma_cnf_holds_append(tau, first, counter_first_row(base, k, k + 1));
    lemma_cnf_holds_append(tau, a, counter_rows(x, base, k, n));
    lemma_cnf_holds_append(tau, b, counter_bounds(x, base, k, n + 1));
    lemma_single(tau, seq![x[0].neg(), counter_reg(base, k, 1, 1)]);
    lemma_clause2(tau, x[0].neg(), counter_reg(base, k, 1, 1));
    lemma_first_row_means(tau, base, k, k + 1);
    lemma_rows_mean(tau, x, base, k, n);
    lemma_bounds_mean(tau, x, base, k, n + 1);
}

/// Soundness of at-most-`k`: whatever the registers hold, the counter's clauses
/// admit at most `k` true literals.
pub proof fn lemma_at_most_k_sound(tau: spec_fn(int) -> bool, x: Seq<Lit>, k: int, base: int)
    requires
        0 <= k,
        cnf_holds(tau, at_most_k_clauses(x, k, base)),
    ensures
        count_true(tau, x, x.len() as int) <= k,
{
    let n = x.len() as int;
    lemma_count_bounds(tau, x, n, n);
    if k >= n {
    } else if k == 0 {
        lemma_negated_units_mean(tau, x, n);
        lemma_count_zero(tau, x, n);
    } else {
        lemma_at_most_k_parts(tau, x, k, base);
        lemma_count_capped(tau, x, base, k, n);
    }
}

/// The registers mean what they are named for: `s_{i,j}` holds exactly when at
/// least `j` of the first `i` literals are true.
pub open spec fn registers_count(tau: spec_fn(int) -> bool, x: Seq<Lit>, base: int, k: int) -> bool {
    forall|i: int, j: int|
        1 <= i < x.len() && 1 <= j <= k ==> #[trigger] reg_on(tau, base, k, i, j) == (count_true(tau, x, i) >= j)
}

/// Completeness of at-most-`k`: registers that count correctly satisfy every
/// clause when at most `k` literals are true.
proof fn lemma_at_most_k_complete(tau: spec_fn(int) -> bool, x: Seq<Lit>, k: int, base: int)
    requires
        1 <= k < x.len(),
        registers_count(tau, x, base, k),
        count_true(tau, x, x.len() as int) <= k,
    ensures
        cnf_holds(tau, at_most_k_clauses(x, k, base)),
{
    let n = x.len() as int;
    lemma_at_most_k_parts(tau, x, k, base);
    assert(count_true(tau, x, 0) == 0);
    lemma_count_bounds(tau, x, 1, 1);
    assert(reg_on(tau, base, k, 1, 1) == (count_true(tau, x, 1) >= 1));
    assert forall|m: int| 2 <= m < n implies #[trigger] row_ok(tau, x, base, k, m) by {
        lemma_count_bounds(tau, x, m - 1, m);
        assert(reg_on(tau, base, k, m, 1) == (count_true(tau, x, m) >= 1));
        assert(reg_on(tau, base, k, m - 1, 1) == (count_true(tau, x, m - 1) >= 1));
        assert forall|jj: int| 2 <= jj < k + 1 implies #[trigger] carry_ok(tau, x, base, k, m, jj) by {
            assert(reg_on(tau, base, k, m, jj) == (count_true(tau, x, m) >= jj));
            assert(reg_on(tau, base, k, m - 1, jj - 1) == (count_true(tau, x, m - 1) >= jj - 1));
            assert(reg_on(tau, base, k, m - 1, jj) == (count_true(tau, x, m - 1) >= jj));
        }
    }
    assert forall|m: int| 2 <= m < k + 1 implies !#[trigger] reg_on(tau, base, k, 1, m) by {
        assert(reg_on(tau, base, k, 1, m) == (count_true(tau, x, 1) >= m));
    }
    assert forall|q: int| 1 <= q <= n - 1 implies !(lit_holds(tau, #[trigger] x[q]) && reg_on(tau, base, k, q, k)) by {
        assert(reg_on(tau, base, k, q, k) == (count_true(tau, x, q) >= k));
        lemma_count_bounds(tau, x, q + 1, n);
        assert(count_true(tau, x, q + 1) == count_true(tau, x, q) + if lit_holds(tau, x[q]) {
            1int
        } else {
            0int
        });
    }
}

/// `t` and `tau` agree on every variable below `base`.
pub open spec fn agree_below(t: spec_fn(int) -> bool, tau: spec_fn(int) -> bool, base: int) -> bool {
    forall|v: int| v < base ==> #[trigger] t(v) == tau(v)
}

/// Some assignment that agrees with `tau` below `base` satisfies `cs`: the
/// variables from `base` up are free for the encoding to choose.
pub open spec fn admits(cs: Seq<Seq<Lit>>, tau: spec_fn(int) -> bool, base: int) -> bool {
    exists|t: spec_fn(int) -> bool| agree_below(t, tau, base) && #[trigger] cnf_holds(t, cs)
}

/// Counts over literals below `base` are the same under assignments that agree
/// below `base`.
pub(crate) proof fn lemma_count_agrees(t: spec_fn(int) -> bool, tau: spec_fn(int) -> bool, x: Seq<Lit>, base: int, i: int)
    requires
        lits_below(x, base),
        agree_below(t, tau, base),
        i <= x.len(),
    ensures
        count_true(t, x, i) == count_true(tau, x, i),
    decreases i,
{
    if i > 0 {
        lemma_count_agrees(t, tau, x, base, i - 1);
        assert(x[i - 1].var.index() < base);
        assert(t(x[i - 1].var.index()) == tau(x[i - 1].var.index()));
    }
}

/// `tau` with the counter registers `s_{i,j}` (variables `base … base + (n−1)·k − 1`)
/// set to what they are named for.
pub open spec fn counter_model(tau: spec_fn(int) -> bool, x: Seq<Lit>, k: int, base: int) -> spec_fn(int) -> bool {
    |v: int|
        if base <= v < base + (x.len() - 1) * k {
            count_true(tau, x, (v - base) / k + 1) >= (v - base) % k + 1
        } else {
            tau(v)
        }
}

/// The counter model agrees with `tau` below `base`, counts as `tau` does, and
/// its registers count correctly.
proof fn lemma_counter_model(tau: spec_fn(int) -> bool, x: Seq<Lit>, k: int, base: int)
    requires
        1 <= k < x.len(),
        lits_below(x, base),
        base + (x.len() - 1) * k <= MAX_VAR_IDX + 1,
    ensures
        agree_below(counter_model(tau, x, k, base), tau, base),
        forall|i: int| i <= x.len() ==> #[trigger] count_true(counter_model(tau, x, k, base), x, i) == count_true(tau, x, i),
        registers_count(counter_model(tau, x, k, base), x, base, k),
{
    let t = counter_model(tau, x, k, base);
    let n = x.len() as int;
    assert(x[0].var.index() < base);
    lemma_index_nonneg(x[0].var);
    assert forall|i: int| i <= x.len() implies #[trigger] count_true(t, x, i) == count_true(tau, x, i) by {
        lemma_count_agrees(t, tau, x, base, i);
    }
    assert forall|i: int, j: int| 1 <= i < n && 1 <= j <= k implies #[trigger] reg_on(t, base, k, i, j) == (count_true(
        t,
        x,
        i,
    ) >= j) by {
        let off = (i - 1) * k + (j - 1);
        assert(0 <= off < (n - 1) * k) by (nonlinear_arith)
            requires
                1 <= i < n,
                1 <= j <= k,
                off == (i - 1) * k + (j - 1),
        ;
        lemma_fundamental_div_mod_converse(off, k, i - 1, j - 1);
        assert(counter_reg(base, k, i, j).var.index() == base + off);
        lemma_count_agrees(t, tau, x, base, i);
    }
}

/// The sequential at-most-`k` encoding means what it says: with the registers
/// left free, its clauses can be met exactly when at most `k` of the literals
/// are true.
pub proof fn lemma_at_most_k_means(tau: spec_fn(int) -> bool, x: Seq<Lit>, k: int, base: int)
    requires
        0 <= k,
        lits_below(x, base),
        base + at_most_k_aux(x.len() as int, k) <= MAX_VAR_IDX + 1,
    ensures
        admits(at_most_k_clauses(x, k, base), tau, base) == (count_true(tau, x, x.len() as int) <= k),
{
    let n = x.len() as int;
    let cs = at_most_k_clauses(x, k, base);
    if admits(cs, tau, base) {
        let t = choose|t: spec_fn(int) -> bool| agree_below(t, tau, base) && #[trigger] cnf_holds(t, cs);
        lemma_at_most_k_sound(t, x, k, base);
        lemma_count_agrees(t, tau, x, base, n);
    }
    if count_true(tau, x, n) <= k {
        if k >= n {
            assert(cnf_holds(tau, cs));
            assert(agree_below(tau, tau, base));
        } else if k == 0 {
            lemma_count_bounds(tau, x, n, n);
            lemma_count_zero(tau, x, n);
            lemma_negated_units_mean(tau, x, n);
            assert(cnf_holds(tau, cs));
            assert(agree_below(tau, tau, base));
        } else {
            let t = counter_model(tau, x, k, base);
            lemma_counter_model(tau, x, k, base);
            assert(count_true(t, x, n) == count_true(tau, x, n));
            lemma_at_most_k_complete(t, x, k, base);
        }
    }
}

/// A register `s_{i,j}` of a counter over `n` literals lies among the variables
/// `base … base + (n−1)·k − 1` that the counter draws.
proof fn lemma_reg_index(base: int, k: int, n: int, i: int, j: int)
    requires
        0 <= base,
        1 <= i < n,
        1 <= j <= k,
        base + (n - 1) * k <= MAX_VAR_IDX + 1,
    ensures
        base <= counter_reg(base, k, i, j).var.index() < base + (n - 1) * k,
{
    let off = (i - 1) * k + (j - 1);
    assert(0 <= off < (n - 1) * k) by (nonlinear_arith)
        requires
            1 <= i < n,
            1 <= j <= k,
            off == (i - 1) * k + (j - 1),
    ;
}

/// Appending a clause over low variables keeps a formula over low variables.
proof fn lemma_below_push(cs: Seq<Seq<Lit>>, c: Seq<Lit>, top: int)
    requires
        clauses_below(cs, top),
        lits_below(c, top),
    ensures
        clauses_below(cs.push(c), top),
{
    assert forall|j: int| 0 <= j < cs.push(c).len() implies lits_below(#[trigger] cs.push(c)[j], top) by {
        if j < cs.len() {
            assert(cs.push(c)[j] == cs[j]);
        }
    }
}

/// Concatenating formulas over low variables gives one over low variables.
pub(crate) proof fn lemma_below_append(a: Seq<Seq<Lit>>, b: Seq<Seq<Lit>>, top: int)
    requires
        clauses_below(a, top),
        clauses_below(b, top),
    ensures
        clauses_below(a + b, top),
{
    assert forall|j: int| 0 <= j < (a + b).len() implies lits_below(#[trigger] (a + b)[j], top) by {
        if j < a.len() {
            assert((a + b)[j] == a[j]);
        } else {
            assert((a + b)[j] == b[j - a.len()]);
        }
    }
}

/// A clause of two literals below `top` lies below `top`.
proof fn lemma_below2(p: Lit, q: Lit, top: int)
    requires
        p.var.index() < top,
        q.var.index() < top,
    ensures
        lits_below(seq![p, q], top),
{
    let c = seq![p, q];
    assert forall|i: int| 0 <= i < c.len() implies #[trigger] c[i].var.index() < top by {
        if i == 0 {
        } else {
        }
    }
}

/// A clause of three literals below `top` lies below `top`.
proof fn lemma_below3(p: Lit, q: Lit, r: Lit, top: int)
    requires
        p.var.index() < top,
        q.var.index() < top,
        r.var.index() < top,
    ensures
        lits_below(seq![p, q, r], top),
{
    let c = seq![p, q, r];
    assert forall|i: int| 0 <= i < c.len() implies #[trigger] c[i].var.index() < top by {
        if i == 0 {
        } else if i == 1 {
        } else {
        }
    }
}

/// The unit clauses `¬x[m]` stay among the literals' variables.
proof fn lemma_units_below(x: Seq<Lit>, i: int, top: int)
    requires
        lits_below(x, top),
        i <= x.len(),
    ensures
        clauses_below(negated_units(x, i), top),
    decreases i,
{
    if i > 0 {
        lemma_units_below(x, i - 1, top);
        assert(x[i - 1].var.index() < top);
        assert(lits_below(seq![x[i - 1].neg()], top)) by {
            assert(seq![x[i - 1].neg()][0] == x[i - 1].neg());
        }
        lemma_below_push(negated_units(x, i - 1), seq![x[i - 1].neg()], top);
    }
}

/// The first-row clauses mention only drawn registers.
proof fn lemma_first_row_below(base: int, k: int, n: int, j: int)
    requires
        0 <= base,
        2 <= n,
        j <= k + 1,
        base + (n - 1) * k <= MAX_VAR_IDX + 1,
    ensures
        clauses_below(counter_first_row(base, k, j), base + (n - 1) * k),
    decreases j,
{
    if j > 2 {
        lemma_first_row_below(base, k, n, j - 1);
        lemma_reg_index(base, k, n, 1, j - 1);
        assert(lits_below(seq![counter_reg(base, k, 1, j - 1).neg()], base + (n - 1) * k)) by {
            assert(seq![counter_reg(base, k, 1, j - 1).neg()][0] == counter_reg(base, k, 1, j - 1).neg());
        }
        lemma_below_push(counter_first_row(base, k, j - 1), seq![counter_reg(base, k, 1, j - 1).neg()], base + (n - 1) * k);
    }
}

/// The carry clauses of literal `i` mention only that literal and drawn registers.
proof fn lemma_carries_below(x: Seq<Lit>, base: int, k: int, i: int, j: int)
    requires
        0 <= base,
        2 <= i < x.len(),
        j <= k + 1,
        lits_below(x, base),
        base + (x.len() - 1) * k <= MAX_VAR_IDX + 1,
    ensures
        clauses_below(counter_carries(x, base, k, i, j), base + (x.len() - 1) * k),
    decreases j,
{
    let n = x.len() as int;
    let top = base + (n - 1) * k;
    if j > 2 {
        lemma_carries_below(x, base, k, i, j - 1);
        lemma_reg_index(base, k, n, i - 1, j - 2);
        lemma_reg_index(base, k, n, i, j - 1);
        lemma_reg_index(base, k, n, i - 1, j - 1);
        assert(x[i - 1].var.index() < base);
        let c1 = seq![x[i - 1].neg(), counter_reg(base, k, i - 1, j - 2).neg(), counter_reg(base, k, i, j - 1)];
        let c2 = seq![counter_reg(base, k, i - 1, j - 1).neg(), counter_reg(base, k, i, j - 1)];
        lemma_below3(x[i - 1].neg(), counter_reg(base, k, i - 1, j - 2).neg(), counter_reg(base, k, i, j - 1), top);
        lemma_below2(counter_reg(base, k, i - 1, j - 1).neg(), counter_reg(base, k, i, j - 1), top);
        let prev = counter_carries(x, base, k, i, j - 1);
        assert(counter_carries(x, base, k, i, j) == prev.push(c1).push(c2));
        lemma_below_push(prev, c1, top);
        lemma_below_push(prev.push(c1), c2, top);
    }
}

/// The rows of literals `2 … i − 1` mention only the literals and drawn registers.
proof fn lemma_rows_below(x: Seq<Lit>, base: int, k: int, i: int)
    requires
        0 <= base,
        1 <= k,
        i <= x.len(),
        lits_below(x, base),
        base + (x.len() - 1) * k <= MAX_VAR_IDX + 1,
    ensures
        clauses_below(counter_rows(x, base, k, i), base + (x.len() - 1) * k),
    decreases i,
{
    let n = x.len() as int;
    let top = base + (n - 1) * k;
    if i > 2 {
        lemma_rows_below(x, base, k, i - 1);
        let r = i - 1;
        lemma_reg_index(base, k, n, r, 1);
        lemma_reg_index(base, k, n, r - 1, 1);
        assert(x[r - 1].var.index() < base);
        let a = seq![x[r - 1].neg(), counter_reg(base, k, r, 1)];
        let b = seq![counter_reg(base, k, r - 1, 1).neg(), counter_reg(base, k, r, 1)];
        lemma_below2(x[r - 1].neg(), counter_reg(base, k, r, 1), top);
        lemma_below2(counter_reg(base, k, r - 1, 1).neg(), counter_reg(base, k, r, 1), top);
        assert(seq![a, b] == Seq::<Seq<Lit>>::empty().push(a).push(b));
        lemma_below_push(Seq::<Seq<Lit>>::empty(), a, top);
        lemma_below_push(Seq::<Seq<Lit>>::empty().push(a), b, top);
        lemma_carries_below(x, base, k, r, k + 1);
        lemma_below_append(seq![a, b], counter_carries(x, base, k, r, k + 1), top);
        lemma_below_append(counter_rows(x, base, k, i - 1), counter_row(x, base, k, r), top);
    }
}

/// The bound clauses mention only the literals and drawn registers.
proof fn lemma_bounds_below(x: Seq<Lit>, base: int, k: int, i: int)
    requires
        0 <= base,
        1 <= k,
        i <= x.len() + 1,
        lits_below(x, base),
        base + (x.len() - 1) * k <= MAX_VAR_IDX + 1,
    ensures
        clauses_below(counter_bounds(x, base, k, i), base + (x.len() - 1) * k),
    decreases i,
{
    let n = x.len() as int;
    let top = base + (n - 1) * k;
    if i > 2 {
        lemma_bounds_below(x, base, k, i - 1);
        lemma_reg_index(base, k, n, i - 2, k);
        assert(x[i - 2].var.index() < base);
        lemma_below2(x[i - 2].neg(), counter_reg(base, k, i - 2, k).neg(), top);
        lemma_below_push(counter_bounds(x, base, k, i - 1), seq![x[i - 2].neg(), counter_reg(base, k, i - 2, k).neg()], top);
    }
}

/// The at-most-`k` clauses mention only the counted literals and the registers
/// the encoding draws.
proof fn lemma_at_most_k_below(x: Seq<Lit>, k: int, base: int)
    requires
        0 <= k,
        lits_below(x, base),
        base + at_most_k_aux(x.len() as int, k) <= MAX_VAR_IDX + 1,
    ensures
        clauses_below(at_most_k_clauses(x, k, base), base + at_most_k_aux(x.len() as int, k)),
{
    let n = x.len() as int;
    if k >= n {
    } else if k == 0 {
        lemma_units_below(x, n, base);
    } else {
        let top = base + (n - 1) * k;
        assert(x[0].var.index() < base);
        lemma_index_nonneg(x[0].var);
        assert(base <= top) by (nonlinear_arith)
            requires
                1 <= k,
                2 <= n,
                top == base + (n - 1) * k,
        ;
        lemma_reg_index(base, k, n, 1, 1);
        let c0 = seq![x[0].neg(), counter_reg(base, k, 1, 1)];
        lemma_below2(x[0].neg(), counter_reg(base, k, 1, 1), top);
        lemma_below_push(Seq::<Seq<Lit>>::empty(), c0, top);
        assert(seq![c0] == Seq::<Seq<Lit>>::empty().push(c0));
        lemma_first_row_below(base, k, n, k + 1);
        lemma_rows_below(x, base, k, n);
        lemma_bounds_below(x, base, k, n + 1);
        let a = seq![c0] + counter_first_row(base, k, k + 1);
        lemma_below_append(seq![c0], counter_first_row(base, k, k + 1), top);
        lemma_below_append(a, counter_rows(x, base, k, n), top);
        lemma_below_append(a + counter_rows(x, base, k, n), counter_bounds(x, base, k, n + 1), top);
    }
}

/// A formula over variables below `top` holds alike under assignments that
/// agree below `top`.
pub(crate) proof fn lemma_cnf_frame(t: spec_fn(int) -> bool, u: spec_fn(int) -> bool, cs: Seq<Seq<Lit>>, top: int)
    requires
        clauses_below(cs, top),
        agree_below(t, u, top),
    ensures
        cnf_holds(t, cs) == cnf_holds(u, cs),
{
    assert forall|j: int| 0 <= j < cs.len() implies clause_holds(t, #[trigger] cs[j]) == clause_holds(u, cs[j]) by {
        assert(lits_below(cs[j], top));
        assert forall|i: int| 0 <= i < cs[j].len() implies lit_holds(t, #[trigger] cs[j][i]) == lit_holds(u, cs[j][i]) by {
            assert(cs[j][i].var.index() < top);
            assert(t(cs[j][i].var.index()) == u(cs[j][i].var.index()));
        }
        if clause_holds(t, cs[j]) {
            let i = choose|i: int| 0 <= i < cs[j].len() && lit_holds(t, #[trigger] cs[j][i]);
            assert(lit_holds(u, cs[j][i]));
        }
        if clause_holds(u, cs[j]) {
            let i = choose|i: int| 0 <= i < cs[j].len() && lit_holds(u, #[trigger] cs[j][i]);
            assert(lit_holds(t, cs[j][i]));
        }
    }
}

/// Counting the negations counts the false literals.
proof fn lemma_count_negated(tau: spec_fn(int) -> bool, x: Seq<Lit>, i: int)
    requires
        0 <= i <= x.len(),
    ensures
        count_true(tau, negate_all(x), i) == i - count_true(tau, x, i),
    decreases i,
{
    if i > 0 {
        lemma_count_negated(tau, x, i - 1);
        assert(negate_all(x)[i - 1] == x[i - 1].neg());
    }
}

/// The negations of literals below `base` are below `base`.
proof fn lemma_negated_below(x: Seq<Lit>, base: int)
    requires
        lits_below(x, base),
    ensures
        lits_below(negate_all(x), base),
        negate_all(x).len() == x.len(),
{
    assert forall|i: int| 0 <= i < negate_all(x).len() implies #[trigger] negate_all(x)[i].var.index() < base by {
        assert(negate_all(x)[i] == x[i].neg());
        assert(x[i].var.index() < base);
    }
}

/// The at-least-`k` clauses mention only the counted literals and the registers
/// the encoding draws.
proof fn lemma_at_least_k_below(x: Seq<Lit>, k: int, base: int)
    requires
        0 <= k,
        lits_below(x, base),
        base + at_least_k_aux(x.len() as int, k) <= MAX_VAR_IDX + 1,
    ensures
        clauses_below(at_least_k_clauses(x, k, base), base + at_least_k_aux(x.len() as int, k)),
{
    let n = x.len() as int;
    if k == 0 {
    } else if k > n {
        let c: Seq<Lit> = Seq::empty();
        assert(lits_below(c, base));
        lemma_below_push(Seq::<Seq<Lit>>::empty(), c, base);
        assert(seq![c] == Seq::<Seq<Lit>>::empty().push(c));
    } else {
        lemma_negated_below(x, base);
        lemma_at_most_k_below(negate_all(x), n - k, base);
    }
}

/// The sequential at-least-`k` encoding means what it says: with the registers
/// left free, its clauses can be met exactly when at least `k` of the literals
/// are true.
pub proof fn lemma_at_least_k_means(tau: spec_fn(int) -> bool, x: Seq<Lit>, k: int, base: int)
    requires
        0 <= k,
        lits_below(x, base),
        base + at_least_k_aux(x.len() as int, k) <= MAX_VAR_IDX + 1,
    ensures
        admits(at_least_k_clauses(x, k, base), tau, base) == (count_true(tau, x, x.len() as int) >= k),
{
    let n = x.len() as int;
    let cs = at_least_k_clauses(x, k, base);
    lemma_count_bounds(tau, x, n, n);
    if k == 0 {
        assert(cnf_holds(tau, cs));
        assert(agree_below(tau, tau, base));
    } else if k > n {
        if admits(cs, tau, base) {
            let t = choose|t: spec_fn(int) -> bool| agree_below(t, tau, base) && #[trigger] cnf_holds(t, cs);
            assert(clause_holds(t, cs[0]));
        }
    } else {
        lemma_negated_below(x, base);
        lemma_at_most_k_means(tau, negate_all(x), n - k, base);
        lemma_count_negated(tau, x, n);
    }
}

/// The sequential exactly-`k` encoding means what it says: with the registers
/// of both counters left free, its clauses can be met exactly when `k` of the
/// literals are true.
pub proof fn lemma_exactly_k_means(tau: spec_fn(int) -> bool, x: Seq<Lit>, k: int, base: int)
    requires
        0 <= k,
        lits_below(x, base),
        base + at_least_k_aux(x.len() as int, k) + at_most_k_aux(x.len() as int, k) <= MAX_VAR_IDX + 1,
    ensures
        admits(
            at_least_k_clauses(x, k, base) + at_most_k_clauses(x, k, base + at_least_k_aux(x.len() as int, k)),
            tau,
            base,
        ) == (count_true(tau, x, x.len() as int) == k),
{
    let n = x.len() as int;
    let mid = base + at_least_k_aux(n, k);
    let lo = at_least_k_clauses(x, k, base);
    let hi = at_most_k_clauses(x, k, mid);
    assert(at_least_k_aux(n, k) >= 0 && at_most_k_aux(n, k) >= 0) by (nonlinear_arith)
        requires
            0 <= k,
            at_least_k_aux(n, k) == (if k == 0 || k > n { 0 } else { at_most_k_aux(n, n - k) }),
            at_most_k_aux(n, k) == (if k >= n || k == 0 { 0 } else { (n - 1) * k }),
            at_most_k_aux(n, n - k) == (if n - k >= n || n - k == 0 { 0 } else { (n - 1) * (n - k) }),
    ;
    assert(lits_below(x, mid));
    lemma_at_least_k_means(tau, x, k, base);
    if admits(lo + hi, tau, base) {
        let t = choose|t: spec_fn(int) -> bool| agree_below(t, tau, base) && #[trigger] cnf_holds(t, lo + hi);
        lemma_cnf_holds_append(t, lo, hi);
        assert(admits(lo, tau, base));
        lemma_at_most_k_sound(t, x, k, mid);
        lemma_count_agrees(t, tau, x, base, n);
    }
    if count_true(tau, x, n) == k {
        let t1 = choose|t: spec_fn(int) -> bool| agree_below(t, tau, base) && #[trigger] cnf_holds(t, lo);
        lemma_count_agrees(t1, tau, x, base, n);
        lemma_at_most_k_means(t1, x, k, mid);
        let t2 = choose|t: spec_fn(int) -> bool| agree_below(t, t1, mid) && #[trigger] cnf_holds(t, hi);
        lemma_at_least_k_below(x, k, base);
        lemma_cnf_frame(t2, t1, lo, mid);
        lemma_cnf_holds_append(t2, lo, hi);
        assert(agree_below(t2, tau, base));
    }
}

/// The ladder register `s_i` is true under `tau`.
pub open spec fn rung_on(tau: spec_fn(int) -> bool, base: int, i: int) -> bool {
    lit_holds(tau, ladder_reg(base, i))
}

/// The three implications the ladder states for literal `m`.
pub open spec fn step_ok(tau: spec_fn(int) -> bool, x: Seq<Lit>, base: int, m: int) -> bool {
    &&& lit_holds(tau, x[m]) ==> rung_on(tau, base, m)
    &&& rung_on(tau, base, m - 1) ==> rung_on(tau, base, m)
    &&& !(lit_holds(tau, x[m]) && rung_on(tau, base, m - 1))
}

/// The ladder's inner clauses hold exactly when each inner step's implications do.
proof fn lemma_ladder_mid_means(tau: spec_fn(int) -> bool, x: Seq<Lit>, base: int, i: int)
    ensures
        cnf_holds(tau, ladder_mid(x, base, i)) == forall|m: int| 1 <= m < i ==> #[trigger] step_ok(tau, x, base, m),
    decreases i,
{
    if i > 1 {
        lemma_ladder_mid_means(tau, x, base, i - 1);
        let c1 = seq![x[i - 1].neg(), ladder_reg(base, i - 1)];
        let c2 = seq![ladder_reg(base, i - 2).neg(), ladder_reg(base, i - 1)];
        let c3 = seq![x[i - 1].neg(), ladder_reg(base, i - 2).neg()];
        let prev = ladder_mid(x, base, i - 1);
        assert(ladder_mid(x, base, i) == prev.push(c1).push(c2).push(c3));
        lemma_push(tau, prev, c1);
        lemma_push(tau, prev.push(c1), c2);
        lemma_push(tau, prev.push(c1).push(c2), c3);
        lemma_clause2(tau, x[i - 1].neg(), ladder_reg(base, i - 1));
        lemma_clause2(tau, ladder_reg(base, i - 2).neg(), ladder_reg(base, i - 1));
        lemma_clause2(tau, x[i - 1].neg(), ladder_reg(base, i - 2).neg());
        if forall|m: int| 1 <= m < i ==> #[trigger] step_ok(tau, x, base, m) {
            assert(step_ok(tau, x, base, i - 1));
        }
    }
}

/// How the ladder's clauses split: its two end clauses and its inner steps.
proof fn lemma_ladder_parts(tau: spec_fn(int) -> bool, x: Seq<Lit>, base: int)
    requires
        2 <= x.len(),
    ensures
        cnf_holds(tau, at_most_one_sequential_clauses(x, base)) == {
            &&& lit_holds(tau, x[0]) ==> rung_on(tau, base, 0)
            &&& !(lit_holds(tau, x[x.len() - 1]) && rung_on(tau, base, x.len() - 2))
            &&& forall|m: int| 1 <= m < x.len() - 1 ==> #[trigger] step_ok(tau, x, base, m)
        },
{
    let n = x.len() as int;
    let a = seq![x[0].neg(), ladder_reg(base, 0)];
    let b = seq![x[n - 1].neg(), ladder_reg(base, n - 2).neg()];
    assert(seq![a, b] == seq![a].push(b));
    lemma_single(tau, a);
    lemma_push(tau, seq![a], b);
    lemma_cnf_holds_append(tau, seq![a, b], ladder_mid(x, base, n - 1));
    lemma_ladder_mid_means(tau, x, base, n - 1);
    lemma_clause2(tau, x[0].neg(), ladder_reg(base, 0));
    lemma_clause2(tau, x[n - 1].neg(), ladder_reg(base, n - 2).neg());
}

/// Under the ladder's clauses, `s_i` is set once one of `x[0..=i]` is true.
proof fn lemma_rungs_reached(tau: spec_fn(int) -> bool, x: Seq<Lit>, base: int, i: int)
    requires
        0 <= i <= x.len() - 2,
        lit_holds(tau, x[0]) ==> rung_on(tau, base, 0),
        forall|m: int| 1 <= m < x.len() - 1 ==> #[trigger] step_ok(tau, x, base, m),
    ensures
        count_true(tau, x, i + 1) >= 1 ==> rung_on(tau, base, i),
    decreases i,
{
    assert(count_true(tau, x, 0) == 0);
    if i > 0 {
        lemma_rungs_reached(tau, x, base, i - 1);
        assert(step_ok(tau, x, base, i));
    }
}

/// Soundness of the ladder: its clauses admit at most one true literal.
pub proof fn lemma_at_most_one_sequential_sound(tau: spec_fn(int) -> bool, x: Seq<Lit>, base: int)
    requires
        cnf_holds(tau, at_most_one_sequential_clauses(x, base)),
    ensures
        count_true(tau, x, x.len() as int) <= 1,
{
    let n = x.len() as int;
    if n <= 1 {
        lemma_count_bounds(tau, x, n, n);
    } else {
        lemma_ladder_parts(tau, x, base);
        lemma_ladder_capped(tau, x, base, n);
    }
}

/// Under the ladder's clauses no prefix counts more than one.
proof fn lemma_ladder_capped(tau: spec_fn(int) -> bool, x: Seq<Lit>, base: int, i: int)
    requires
        2 <= x.len(),
        0 <= i <= x.len(),
        lit_holds(tau, x[0]) ==> rung_on(tau, base, 0),
        !(lit_holds(tau, x[x.len() - 1]) && rung_on(tau, base, x.len() - 2)),
        forall|m: int| 1 <= m < x.len() - 1 ==> #[trigger] step_ok(tau, x, base, m),
    ensures
        count_true(tau, x, i) <= 1,
    decreases i,
{
    if i <= 1 {
        lemma_count_bounds(tau, x, i, i);
    } else {
        lemma_ladder_capped(tau, x, base, i - 1);
        if lit_holds(tau, x[i - 1]) && count_true(tau, x, i - 1) >= 1 {
            lemma_rungs_reached(tau, x, base, i - 2);
            if i - 1 < x.len() - 1 {
                assert(step_ok(tau, x, base, i - 1));
            }
        }
    }
}

/// `tau` with the ladder registers `s_i` (variables `base … base + n − 2`) set to
/// what they are named for.
pub open spec fn ladder_model(tau: spec_fn(int) -> bool, x: Seq<Lit>, base: int) -> spec_fn(int) -> bool {
    |v: int|
        if base <= v < base + x.len() - 1 {
            count_true(tau, x, v - base + 1) >= 1
        } else {
            tau(v)
        }
}

/// The sequential at-most-one encoding means what it says: with its registers
/// left free, its clauses can be met exactly when at most one of the literals
/// is true.
pub proof fn lemma_at_most_one_sequential_means(tau: spec_fn(int) -> bool, x: Seq<Lit>, base: int)
    requires
        lits_below(x, base),
        base + at_most_one_sequential_aux(x.len() as int) <= MAX_VAR_IDX + 1,
    ensures
        admits(at_most_one_sequential_clauses(x, base), tau, base) == (count_true(tau, x, x.len() as int) <= 1),
{
    let n = x.len() as int;
    let cs = at_most_one_sequential_clauses(x, base);
    if admits(cs, tau, base) {
        let t = choose|t: spec_fn(int) -> bool| agree_below(t, tau, base) && #[trigger] cnf_holds(t, cs);
        lemma_at_most_one_sequential_sound(t, x, base);
        lemma_count_agrees(t, tau, x, base, n);
    }
    if count_true(tau, x, n) <= 1 {
        if n <= 1 {
            assert(cnf_holds(tau, cs));
            assert(agree_below(tau, tau, base));
        } else {
            let t = ladder_model(tau, x, base);
            assert(x[0].var.index() < base);
            lemma_index_nonneg(x[0].var);
            assert(agree_below(t, tau, base));
            assert forall|i: int| 0 <= i <= n implies #[trigger] count_true(t, x, i) == count_true(tau, x, i) by {
                lemma_count_agrees(t, tau, x, base, i);
            }
            assert forall|i: int| 0 <= i <= n - 2 implies #[trigger] rung_on(t, base, i) == (count_true(t, x, i + 1) >= 1) by {
                assert(ladder_reg(base, i).var.index() == base + i);
                assert(count_true(t, x, i + 1) == count_true(tau, x, i + 1));
            }
            assert(count_true(t, x, 0) == 0);
            assert(rung_on(t, base, 0) == (count_true(t, x, 1) >= 1));
            assert(rung_on(t, base, n - 2) == (count_true(t, x, n - 1) >= 1));
            assert(count_true(t, x, n) == count_true(tau, x, n));
            assert forall|m: int| 1 <= m < n - 1 implies #[trigger] step_ok(t, x, base, m) by {
                assert(rung_on(t, base, m) == (count_true(t, x, m + 1) >= 1));
                assert(rung_on(t, base, m - 1) == (count_true(t, x, m) >= 1));
                lemma_count_bounds(t, x, m, m + 1);
                lemma_count_bounds(t, x, m + 1, n);
            }
            lemma_count_bounds(t, x, n - 1, n);
            lemma_ladder_parts(t, x, base);
        }
    }
}

/// The sequential exactly-one encoding means what it says: with its registers
/// left free, its clauses can be met exactly when one of the literals is true.
pub proof fn lemma_exactly_one_sequential_means(tau: spec_fn(int) -> bool, x: Seq<Lit>, base: int)
    requires
        lits_below(x, base),
        base + at_most_one_sequential_aux(x.len() as int) <= MAX_VAR_IDX + 1,
    ensures
        admits(seq![x] + at_most_one_sequential_clauses(x, base), tau, base) == (count_true(
            tau,
            x,
            x.len() as int,
        ) == 1),
{
    let n = x.len() as int;
    let cs = at_most_one_sequential_clauses(x, base);
    lemma_at_most_one_sequential_means(tau, x, base);
    assert(clauses_below(seq![x], base)) by {
        lemma_below_push(Seq::<Seq<Lit>>::empty(), x, base);
        assert(seq![x] == Seq::<Seq<Lit>>::empty().push(x));
    }
    lemma_count_zero(tau, x, n);
    lemma_count_bounds(tau, x, n, n);
    if admits(seq![x] + cs, tau, base) {
        let t = choose|t: spec_fn(int) -> bool| agree_below(t, tau, base) && #[trigger] cnf_holds(t, seq![x] + cs);
        lemma_cnf_holds_append(t, seq![x], cs);
        assert(admits(cs, tau, base));
        lemma_cnf_frame(t, tau, seq![x], base);
        lemma_single(tau, x);
        let i = choose|i: int| 0 <= i < x.len() && lit_holds(tau, #[trigger] x[i]);
    }
    if count_true(tau, x, n) == 1 {
        let t = choose|t: spec_fn(int) -> bool| agree_below(t, tau, base) && #[trigger] cnf_holds(t, cs);
        lemma_cnf_frame(t, tau, seq![x], base);
        lemma_single(tau, x);
        let i = choose|i: int| 0 <= i < n && lit_holds(tau, #[trigger] x[i]);
        assert(clause_holds(tau, x));
        lemma_cnf_holds_append(t, seq![x], cs);
    }
}

/// A formula below `a` is below any `b ≥ a`.
pub(crate) proof fn lemma_below_mono(cs: Seq<Seq<Lit>>, a: int, b: int)
    requires
        clauses_below(cs, a),
        a <= b,
    ensures
        clauses_below(cs, b),
{
    assert forall|j: int| 0 <= j < cs.len() implies lits_below(#[trigger] cs[j], b) by {
        assert(lits_below(cs[j], a));
        assert forall|i: int| 0 <= i < cs[j].len() implies #[trigger] cs[j][i].var.index() < b by {
            assert(cs[j][i].var.index() < a);
        }
    }
}

/// The exactly-`k` clauses mention only the counted literals and the registers
/// of both counters.
pub(crate) proof fn lemma_exactly_k_below(x: Seq<Lit>, k: int, base: int)
    requires
        0 <= k,
        lits_below(x, base),
        base + at_least_k_aux(x.len() as int, k) + at_most_k_aux(x.len() as int, k) <= MAX_VAR_IDX + 1,
    ensures
        clauses_below(
            at_least_k_clauses(x, k, base) + at_most_k_clauses(x, k, base + at_least_k_aux(x.len() as int, k)),
            base + at_least_k_aux(x.len() as int, k) + at_most_k_aux(x.len() as int, k),
        ),
{
    let n = x.len() as int;
    let mid = base + at_least_k_aux(n, k);
    let top = mid + at_most_k_aux(n, k);
    assert(at_least_k_aux(n, k) >= 0 && at_most_k_aux(n, k) >= 0) by (nonlinear_arith)
        requires
            0 <= k,
            at_least_k_aux(n, k) == (if k == 0 || k > n { 0 } else { at_most_k_aux(n, n - k) }),
            at_most_k_aux(n, k) == (if k >= n || k == 0 { 0 } else { (n - 1) * k }),
            at_most_k_aux(n, n - k) == (if n - k >= n || n - k == 0 { 0 } else { (n - 1) * (n - k) }),
    ;
    assert(lits_below(x, mid));
    lemma_at_least_k_below(x, k, base);
    lemma_at_most_k_below(x, k, mid);
    lemma_below_mono(at_least_k_clauses(x, k, base), mid, top);
    lemma_below_append(at_least_k_clauses(x, k, base), at_most_k_clauses(x, k, mid), top);
}

/// The pairwise clauses of row `i` mention only the literals' variables.
proof fn lemma_pair_row_below(x: Seq<Lit>, i: int, j: int, top: int)
    requires
        0 <= i,
        j <= x.len(),
        lits_below(x, top),
    ensures
        clauses_below(pair_row(x, i, j), top),
    decreases j - i,
{
    if j > i + 1 {
        lemma_pair_row_below(x, i, j - 1, top);
        assert(x[i].var.index() < top);
        assert(x[j - 1].var.index() < top);
        lemma_below2(x[i].neg(), x[j - 1].neg(), top);
        lemma_below_push(pair_row(x, i, j - 1), seq![x[i].neg(), x[j - 1].neg()], top);
    }
}

/// The pairwise at-most-one clauses mention only the literals' variables.
pub(crate) proof fn lemma_pairwise_below(x: Seq<Lit>, top: int)
    requires
        lits_below(x, top),
    ensures
        clauses_below(at_most_one_pairwise_clauses(x), top),
{
    lemma_pairs_upto_below(x, x.len() as int, top);
}

/// The pairwise clauses whose first index is below `i` mention only the
/// literals' variables.
proof fn lemma_pairs_upto_below(x: Seq<Lit>, i: int, top: int)
    requires
        i <= x.len(),
        lits_below(x, top),
    ensures
        clauses_below(pairs_upto(x, i), top),
    decreases i,
{
    if i > 0 {
        lemma_pairs_upto_below(x, i - 1, top);
        lemma_pair_row_below(x, i - 1, x.len() as int, top);
        lemma_below_append(pairs_upto(x, i - 1), pair_row(x, i - 1, x.len() as int), top);
    }
}

} // verus!
