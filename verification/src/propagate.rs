//! Unit propagation and failed-literal probing — the backward map's engine.
//!
//! Two sound, search-free inferences turn rules plus assumptions into facts over
//! the same variables the registry decodes:
//!
//! - **Boolean constraint propagation (BCP)**: unit propagation to a fixpoint.
//!   Its result is the *least* propagation fixpoint containing the assumptions,
//!   and everything it sets holds in every model.
//! - **Failed-literal probing**: assume a literal and propagate; a conflict means
//!   the literal is false in every model.

use vstd::prelude::*;

use crate::cnf::{
    all_hold, clause_holds, cnf_holds, forced, lemma_index_injective, lemma_index_nonneg, lemma_var_at, lemma_var_at_index,
    lit_holds, lits_below, satisfiable_under, spans, var_at, var_count, Cnf, Lit, Var, MAX_VAR_IDX,
};
use crate::solver::{clause_true_in, pvalue, Assignment};

verus! {

broadcast use lemma_var_at, lemma_var_at_index, lemma_index_injective, lemma_index_nonneg;

/// How many literal occurrences of `c` are unassigned under `vals`.
pub open spec fn unassigned_count(vals: Seq<Option<bool>>, c: Seq<Lit>) -> nat
    decreases c.len(),
{
    if c.len() == 0 {
        0
    } else {
        unassigned_count(vals, c.drop_last()) + if pvalue(vals, c.last()) is None {
            1nat
        } else {
            0nat
        }
    }
}

/// A clause that propagation has nothing to do with: satisfied, or with at least
/// two unassigned literal occurrences.
pub open spec fn idle(vals: Seq<Option<bool>>, c: Seq<Lit>) -> bool {
    clause_true_in(vals, c) || unassigned_count(vals, c) >= 2
}

/// Every clause of `cs` is idle under `vals`: neither unit nor conflicting.
pub open spec fn is_fixpoint(vals: Seq<Option<bool>>, cs: Seq<Seq<Lit>>) -> bool {
    forall|j: int| 0 <= j < cs.len() ==> idle(vals, #[trigger] cs[j])
}

/// Every literal of `lits` is definitely true under `vals`.
pub open spec fn holds_all(vals: Seq<Option<bool>>, lits: Seq<Lit>) -> bool {
    forall|i: int| 0 <= i < lits.len() ==> pvalue(vals, #[trigger] lits[i]) == Some(true)
}

/// `big` keeps every value `small` assigns.
pub open spec fn extends(big: Seq<Option<bool>>, small: Seq<Option<bool>>) -> bool {
    forall|k: int| 0 <= k < small.len() && (#[trigger] small[k]) is Some ==> k < big.len() && big[k] == small[k]
}

/// Some propagation fixpoint over `cs` makes every literal of `lits` true — that
/// is, unit propagation from `lits` reaches no conflict.
pub open spec fn bcp_consistent(cs: Seq<Seq<Lit>>, lits: Seq<Lit>) -> bool {
    exists|vals: Seq<Option<bool>>| is_fixpoint(vals, cs) && holds_all(vals, lits)
}

/// Clause `c` mentions variable `v`.
pub open spec fn has_var(c: Seq<Lit>, v: int) -> bool {
    exists|i: int| 0 <= i < c.len() && c[i].var.index() == v
}

/// Clause `c` mentions a variable that `w` sets and `base` leaves unset.
pub open spec fn touches_new(w: Seq<Option<bool>>, base: Seq<Option<bool>>, c: Seq<Lit>) -> bool {
    exists|i: int|
        0 <= i < c.len() && 0 <= c[i].var.index() < w.len() && w[c[i].var.index()] is Some && base[c[i].var.index()] is None
}

/// Every clause of `cs` that mentions a variable `w` sets beyond `base` is idle
/// under `w`: neither unit nor false.
pub open spec fn settled_from(w: Seq<Option<bool>>, base: Seq<Option<bool>>, cs: Seq<Seq<Lit>>) -> bool {
    forall|j: int| 0 <= j < cs.len() && #[trigger] touches_new(w, base, cs[j]) ==> idle(w, cs[j])
}

/// Unit propagation from `start` over `base`, looking only at the clauses of
/// `cs` that mention a variable it sets beyond `base`, reaches no conflict:
/// some assignment of the same width extending `start` leaves every such
/// clause idle. (Every value propagation derives holds in each such
/// assignment, and the values propagation ends with are one when it meets no
/// false clause.)
pub open spec fn settles(cs: Seq<Seq<Lit>>, base: Seq<Option<bool>>, start: Seq<Option<bool>>) -> bool {
    exists|w: Seq<Option<bool>>| w.len() == start.len() && extends(w, start) && #[trigger] settled_from(w, base, cs)
}

/// Each occurrence list of variable `v` names only clauses that mention `v`.
pub open spec fn occ_exact(cs: Seq<Seq<Lit>>, occ: Seq<Vec<usize>>) -> bool {
    forall|v: int, m: int| 0 <= v < occ.len() && 0 <= m < occ[v]@.len() ==> has_var(cs[#[trigger] occ[v]@[m] as int], v)
}

/// What propagation from `start` over `base` keeps while it runs, at `values`
/// with the clauses `wl` still queued: it only adds values; every queued clause
/// mentions a variable set beyond `base`; every other such clause is idle; and
/// every settled assignment extending `start` extends `values`.
pub open spec fn settle_ok(
    cs: Seq<Seq<Lit>>,
    base: Seq<Option<bool>>,
    start: Seq<Option<bool>>,
    values: Seq<Option<bool>>,
    wl: Seq<usize>,
) -> bool {
    &&& base.len() == values.len()
    &&& start.len() == values.len()
    &&& extends(values, base)
    &&& extends(values, start)
    &&& forall|m: int| 0 <= m < wl.len() ==> touches_new(values, base, cs[#[trigger] wl[m] as int])
    &&& forall|j: int|
        0 <= j < cs.len() && !wl.contains(j as usize) && touches_new(values, base, #[trigger] cs[j]) ==> idle(values, cs[j])
    &&& forall|w: Seq<Option<bool>>|
        w.len() == values.len() && extends(w, start) && #[trigger] settled_from(w, base, cs) ==> extends(w, values)
}

/// Dropping an idle clause from the queue keeps the invariant.
proof fn lemma_settle_idle(
    cs: Seq<Seq<Lit>>,
    base: Seq<Option<bool>>,
    start: Seq<Option<bool>>,
    values: Seq<Option<bool>>,
    wl: Seq<usize>,
    ci: usize,
)
    requires
        settle_ok(cs, base, start, values, wl.push(ci)),
        ci < cs.len(),
        cs.len() <= usize::MAX,
        idle(values, cs[ci as int]),
    ensures
        settle_ok(cs, base, start, values, wl),
{
    let old_wl = wl.push(ci);
    assert forall|m: int| 0 <= m < wl.len() implies touches_new(values, base, cs[#[trigger] wl[m] as int]) by {
        assert(old_wl[m] == wl[m]);
    }
    assert forall|j: int|
        0 <= j < cs.len() && !wl.contains(j as usize) && touches_new(values, base, #[trigger] cs[j]) implies idle(values, cs[j]) by {
        if j != ci as int {
            assert(!old_wl.contains(j as usize)) by {
                if old_wl.contains(j as usize) {
                    let m = choose|m: int| 0 <= m < old_wl.len() && old_wl[m] == j as usize;
                    if m < wl.len() {
                        assert(old_wl[m] == wl[m]);
                        assert(wl.contains(j as usize));
                    } else {
                        assert(old_wl[m] == ci);
                    }
                }
            }
            assert(idle(values, cs[j]));
        }
    }
}

/// A queued clause false under the values admits no settled assignment.
proof fn lemma_settle_conflict(
    cs: Seq<Seq<Lit>>,
    base: Seq<Option<bool>>,
    start: Seq<Option<bool>>,
    values: Seq<Option<bool>>,
    wl: Seq<usize>,
    ci: usize,
)
    requires
        settle_ok(cs, base, start, values, wl.push(ci)),
        ci < cs.len(),
        forall|i: int| 0 <= i < cs[ci as int].len() ==> pvalue(values, #[trigger] cs[ci as int][i]) == Some(false),
    ensures
        !settles(cs, base, start),
{
    let c = cs[ci as int];
    let old_wl = wl.push(ci);
    assert(old_wl[wl.len() as int] == ci);
    assert(touches_new(values, base, c));
    if settles(cs, base, start) {
        let w = choose|w: Seq<Option<bool>>| w.len() == start.len() && extends(w, start) && #[trigger] settled_from(w, base, cs);
        assert(extends(w, values));
        let i0 = choose|i: int|
            0 <= i < c.len() && 0 <= c[i].var.index() < values.len() && values[c[i].var.index()] is Some && base[c[i].var.index()] is None;
        assert(touches_new(w, base, c));
        assert(idle(w, c));
        assert(!clause_true_in(w, c)) by {
            if clause_true_in(w, c) {
                let i = choose|i: int| 0 <= i < c.len() && #[trigger] pvalue(w, c[i]) == Some(true);
                assert(pvalue(values, c[i]) == Some(false));
                assert(values[c[i].var.index()] is Some);
            }
        }
        lemma_count_extends(w, values, c);
        lemma_count_zero_of_false(values, c);
    }
}

/// A clause every occurrence of which is false has no unassigned occurrence.
proof fn lemma_count_zero_of_false(vals: Seq<Option<bool>>, c: Seq<Lit>)
    requires
        forall|i: int| 0 <= i < c.len() ==> pvalue(vals, #[trigger] c[i]) == Some(false),
    ensures
        unassigned_count(vals, c) == 0,
    decreases c.len(),
{
    if c.len() > 0 {
        assert forall|i: int| 0 <= i < c.drop_last().len() implies pvalue(vals, #[trigger] c.drop_last()[i]) == Some(false) by {
            assert(c.drop_last()[i] == c[i]);
        }
        lemma_count_zero_of_false(vals, c.drop_last());
        assert(pvalue(vals, c[c.len() - 1]) == Some(false));
    }
}

/// Setting the literal a queued unit clause forces, and queuing the clauses of
/// its variable, keeps the invariant.
proof fn lemma_settle_unit(
    clauses: Seq<Vec<Lit>>,
    occ: Seq<Vec<usize>>,
    n_vars: int,
    base: Seq<Option<bool>>,
    start: Seq<Option<bool>>,
    before: Seq<Option<bool>>,
    wl: Seq<usize>,
    ci: usize,
    u: int,
    after: Seq<Option<bool>>,
    wl_after: Seq<usize>,
)
    requires
        occ_ok(clauses, occ, n_vars),
        occ_exact(lists_view(clauses), occ),
        before.len() == n_vars,
        clauses.len() <= usize::MAX,
        settle_ok(lists_view(clauses), base, start, before, wl.push(ci)),
        ci < clauses.len(),
        0 <= u < lists_view(clauses)[ci as int].len(),
        pvalue(before, lists_view(clauses)[ci as int][u]) is None,
        forall|i: int|
            0 <= i < lists_view(clauses)[ci as int].len() && i != u ==> pvalue(before, #[trigger] lists_view(clauses)[ci as int][i])
                == Some(false),
        after == before.update(
            lists_view(clauses)[ci as int][u].var.index(),
            Some(lists_view(clauses)[ci as int][u].positive),
        ),
        wl_after == wl + occ[lists_view(clauses)[ci as int][u].var.index()]@,
    ensures
        settle_ok(lists_view(clauses), base, start, after, wl_after),
{
    let cs = lists_view(clauses);
    let c = cs[ci as int];
    let lit = c[u];
    let v = lit.var.index();
    let old_wl = wl.push(ci);
    let row = occ[v]@;
    assert(c == clauses[ci as int]@);
    assert(lits_below(c, n_vars));
    assert(0 <= v < n_vars);
    assert(before[v] is None);
    assert(base[v] is None);
    assert forall|m: int| 0 <= m < wl_after.len() implies touches_new(after, base, cs[#[trigger] wl_after[m] as int]) by {
        if m < wl.len() {
            assert(wl_after[m] == wl[m]);
            assert(old_wl[m] == wl[m]);
            let cc = cs[wl[m] as int];
            assert(touches_new(before, base, cc));
            let i = choose|i: int|
                0 <= i < cc.len() && 0 <= cc[i].var.index() < before.len() && before[cc[i].var.index()] is Some && base[cc[i].var.index()] is None;
            assert(after[cc[i].var.index()] is Some);
        } else {
            let j = row[m - wl.len()];
            assert(wl_after[m] == j);
            assert(has_var(cs[j as int], v));
            let cc = cs[j as int];
            let i = choose|i: int| 0 <= i < cc.len() && cc[i].var.index() == v;
            assert(after[v] is Some);
        }
    }
    assert forall|j: int|
        0 <= j < cs.len() && !wl_after.contains(j as usize) && touches_new(after, base, #[trigger] cs[j]) implies idle(after, cs[j]) by {
        let cc = cs[j];
        assert(cc == clauses[j]@);
        assert forall|i: int| 0 <= i < cc.len() implies (#[trigger] cc[i]).var.index() != v by {
            if cc[i].var.index() == v {
                assert(occ[v]@.contains(j as usize));
                let m = choose|m: int| 0 <= m < row.len() && row[m] == j as usize;
                assert(wl_after[wl.len() + m] == j as usize);
            }
        }
        assert(j != ci) by {
            if j == ci {
                assert(cc[u].var.index() == v);
            }
        }
        assert(!old_wl.contains(j as usize)) by {
            if old_wl.contains(j as usize) {
                let m = choose|m: int| 0 <= m < old_wl.len() && old_wl[m] == j as usize;
                if m < wl.len() {
                    assert(old_wl[m] == wl[m]);
                    assert(wl_after[m] == wl[m]);
                    assert(wl_after.contains(j as usize));
                } else {
                    assert(old_wl[m] == ci);
                    assert(j == ci as int);
                }
            }
        }
        let i = choose|i: int|
            0 <= i < cc.len() && 0 <= cc[i].var.index() < after.len() && after[cc[i].var.index()] is Some && base[cc[i].var.index()] is None;
        assert(cc[i].var.index() != v);
        assert(touches_new(before, base, cc));
        assert(idle(before, cc));
        lemma_count_frame(before, cc, v, Some(lit.positive));
    }
    assert forall|w: Seq<Option<bool>>|
        w.len() == after.len() && extends(w, start) && #[trigger] settled_from(w, base, cs) implies extends(w, after) by {
        assert(extends(w, before));
        assert(old_wl[wl.len() as int] == ci);
        assert(touches_new(before, base, c));
        let i = choose|i: int|
            0 <= i < c.len() && 0 <= c[i].var.index() < before.len() && before[c[i].var.index()] is Some && base[c[i].var.index()] is None;
        assert(touches_new(w, base, c));
        assert(idle(w, c));
        lemma_unit_in_fixpoint(w, before, c, u);
    }
    assert(extends(after, base));
    assert(extends(after, start));
}

/// The literal that variable `k` with value `b` makes true.
pub open spec fn value_lit(k: int, b: bool) -> Lit {
    Lit { var: var_at(k), positive: b }
}

/// Every value of `vals` is forced by `cs` together with `lits`.
pub open spec fn values_forced(cs: Seq<Seq<Lit>>, lits: Seq<Lit>, vals: Seq<Option<bool>>) -> bool {
    forall|k: int| 0 <= k < vals.len() && (#[trigger] vals[k]) is Some ==> forced(cs, lits, value_lit(k, vals[k]->0))
}

/// Every value of `vals` is kept by every fixpoint that makes `lits` true.
pub open spec fn below_every_fixpoint(cs: Seq<Seq<Lit>>, lits: Seq<Lit>, vals: Seq<Option<bool>>) -> bool {
    forall|big: Seq<Option<bool>>| is_fixpoint(big, cs) && holds_all(big, lits) ==> #[trigger] extends(big, vals)
}

/// The number of unassigned slots of `vals`.
pub open spec fn count_none(vals: Seq<Option<bool>>) -> nat
    decreases vals.len(),
{
    if vals.len() == 0 {
        0
    } else {
        count_none(vals.drop_last()) + if vals.last() is None {
            1nat
        } else {
            0nat
        }
    }
}

/// Filling an unassigned slot lowers the unassigned count by one.
pub proof fn lemma_count_none_update(vals: Seq<Option<bool>>, k: int, b: bool)
    requires
        0 <= k < vals.len(),
        vals[k] is None,
    ensures
        count_none(vals.update(k, Some(b))) + 1 == count_none(vals),
    decreases vals.len(),
{
    let u = vals.update(k, Some(b));
    if k == vals.len() - 1 {
        assert(u.drop_last() =~= vals.drop_last());
    } else {
        lemma_count_none_update(vals.drop_last(), k, b);
        assert(u.drop_last() =~= vals.drop_last().update(k, Some(b)));
    }
}

/// An unassigned slot counts.
pub proof fn lemma_count_none_pos(vals: Seq<Option<bool>>, k: int)
    requires
        0 <= k < vals.len(),
        vals[k] is None,
    ensures
        count_none(vals) >= 1,
    decreases vals.len(),
{
    if k < vals.len() - 1 {
        assert(vals.drop_last()[k] == vals[k]);
        lemma_count_none_pos(vals.drop_last(), k);
    }
}

/// Every slot of an all-unassigned sequence counts.
pub proof fn lemma_count_none_all(vals: Seq<Option<bool>>)
    requires
        forall|k: int| 0 <= k < vals.len() ==> (#[trigger] vals[k]) is None,
    ensures
        count_none(vals) == vals.len(),
    decreases vals.len(),
{
    if vals.len() > 0 {
        assert forall|k: int| 0 <= k < vals.drop_last().len() implies (#[trigger] vals.drop_last()[k]) is None by {
            assert(vals.drop_last()[k] == vals[k]);
        }
        lemma_count_none_all(vals.drop_last());
    }
}

/// The unassigned count of a clause not mentioning variable `k` ignores slot `k`.
pub proof fn lemma_count_frame(vals: Seq<Option<bool>>, c: Seq<Lit>, k: int, b: Option<bool>)
    requires
        0 <= k < vals.len(),
        forall|i: int| 0 <= i < c.len() ==> (#[trigger] c[i]).var.index() != k,
    ensures
        unassigned_count(vals.update(k, b), c) == unassigned_count(vals, c),
        clause_true_in(vals.update(k, b), c) == clause_true_in(vals, c),
    decreases c.len(),
{
    let u = vals.update(k, b);
    assert forall|i: int| 0 <= i < c.len() implies pvalue(u, #[trigger] c[i]) == pvalue(vals, c[i]) by {}
    if c.len() > 0 {
        lemma_count_frame(vals, c.drop_last(), k, b);
        assert(pvalue(u, c.last()) == pvalue(vals, c.last()));
    }
}

/// Where one assignment extends another, unassigned occurrences can only drop.
pub proof fn lemma_count_extends(big: Seq<Option<bool>>, small: Seq<Option<bool>>, c: Seq<Lit>)
    requires
        extends(big, small),
    ensures
        unassigned_count(big, c) <= unassigned_count(small, c),
    decreases c.len(),
{
    if c.len() > 0 {
        lemma_count_extends(big, small, c.drop_last());
        let l = c.last();
        if pvalue(small, l) is Some {
            assert(small[l.var.index()] is Some);
        }
    }
}

/// A clause whose every occurrence is assigned and none true is false
/// everywhere those values are forced.
pub proof fn lemma_zero_unassigned(vals: Seq<Option<bool>>, c: Seq<Lit>)
    requires
        unassigned_count(vals, c) == 0,
        !clause_true_in(vals, c),
    ensures
        forall|i: int| 0 <= i < c.len() ==> pvalue(vals, #[trigger] c[i]) == Some(false),
    decreases c.len(),
{
    if c.len() > 0 {
        assert(!clause_true_in(vals, c.drop_last())) by {
            if clause_true_in(vals, c.drop_last()) {
                let i = choose|i: int| 0 <= i < c.drop_last().len() && #[trigger] pvalue(vals, c.drop_last()[i]) == Some(true);
                assert(c[i] == c.drop_last()[i]);
            }
        }
        lemma_zero_unassigned(vals, c.drop_last());
        assert forall|i: int| 0 <= i < c.len() implies pvalue(vals, #[trigger] c[i]) == Some(false) by {
            if i < c.len() - 1 {
                assert(c[i] == c.drop_last()[i]);
            } else {
                assert(pvalue(vals, c.last()) is Some);
                if pvalue(vals, c[i]) == Some(true) {
                    assert(clause_true_in(vals, c));
                }
            }
        }
    }
}

/// An unassigned occurrence counts.
pub proof fn lemma_count_has(vals: Seq<Option<bool>>, c: Seq<Lit>, u: int)
    requires
        0 <= u < c.len(),
        pvalue(vals, c[u]) is None,
    ensures
        unassigned_count(vals, c) >= 1,
    decreases c.len(),
{
    if u < c.len() - 1 {
        assert(c.drop_last()[u] == c[u]);
        lemma_count_has(vals, c.drop_last(), u);
    }
}

/// A clause with exactly one unassigned occurrence and none true has every other
/// occurrence false, and that occurrence's literal unassigned.
pub proof fn lemma_one_unassigned(vals: Seq<Option<bool>>, c: Seq<Lit>, u: int)
    requires
        unassigned_count(vals, c) == 1,
        !clause_true_in(vals, c),
        0 <= u < c.len(),
        pvalue(vals, c[u]) is None,
    ensures
        forall|i: int| 0 <= i < c.len() && i != u ==> pvalue(vals, #[trigger] c[i]) == Some(false),
    decreases c.len(),
{
    assert(!clause_true_in(vals, c.drop_last())) by {
        if clause_true_in(vals, c.drop_last()) {
            let i = choose|i: int| 0 <= i < c.drop_last().len() && #[trigger] pvalue(vals, c.drop_last()[i]) == Some(true);
            assert(c[i] == c.drop_last()[i]);
        }
    }
    if u == c.len() - 1 {
        lemma_zero_unassigned(vals, c.drop_last());
        assert forall|i: int| 0 <= i < c.len() && i != u implies pvalue(vals, #[trigger] c[i]) == Some(false) by {
            assert(c[i] == c.drop_last()[i]);
        }
    } else {
        assert(c.drop_last()[u] == c[u]);
        lemma_count_has(vals, c.drop_last(), u);
        lemma_one_unassigned(vals, c.drop_last(), u);
        assert forall|i: int| 0 <= i < c.len() && i != u implies pvalue(vals, #[trigger] c[i]) == Some(false) by {
            if i < c.len() - 1 {
                assert(c[i] == c.drop_last()[i]);
            } else {
                assert(pvalue(vals, c.last()) is Some);
                if pvalue(vals, c[i]) == Some(true) {
                    assert(clause_true_in(vals, c));
                }
            }
        }
    }
}

/// A clause that is unit under `small` (one unassigned literal `c[u]`, every
/// other occurrence false) forces `c[u]` true in every fixpoint extending `small`;
/// a clause all of whose occurrences are false under `small` rules out every
/// such fixpoint.
pub proof fn lemma_unit_in_fixpoint(big: Seq<Option<bool>>, small: Seq<Option<bool>>, c: Seq<Lit>, u: int)
    requires
        extends(big, small),
        idle(big, c),
        0 <= u < c.len(),
        forall|i: int| 0 <= i < c.len() && i != u ==> pvalue(small, #[trigger] c[i]) == Some(false),
    ensures
        pvalue(big, c[u]) == Some(true),
{
    assert forall|i: int| 0 <= i < c.len() && i != u implies pvalue(big, #[trigger] c[i]) == Some(false) by {
        assert(pvalue(small, c[i]) == Some(false));
        assert(small[c[i].var.index()] is Some);
    }
    if pvalue(big, c[u]) != Some(true) {
        assert(!clause_true_in(big, c));
        lemma_count_le_others(big, c, u);
    }
}

/// With every occurrence but `c[u]` false, at most one occurrence is unassigned.
pub proof fn lemma_count_le_others(vals: Seq<Option<bool>>, c: Seq<Lit>, u: int)
    requires
        0 <= u < c.len(),
        forall|i: int| 0 <= i < c.len() && i != u ==> pvalue(vals, #[trigger] c[i]) == Some(false),
    ensures
        unassigned_count(vals, c) <= 1,
    decreases c.len(),
{
    lemma_count_all_false(vals, c, u);
}

/// Counting helper: occurrences other than `c[u]` that are false contribute
/// nothing to the unassigned count.
pub proof fn lemma_count_all_false(vals: Seq<Option<bool>>, c: Seq<Lit>, u: int)
    requires
        forall|i: int| 0 <= i < c.len() && i != u ==> pvalue(vals, #[trigger] c[i]) == Some(false),
    ensures
        unassigned_count(vals, c) <= 1,
        !(0 <= u < c.len()) ==> unassigned_count(vals, c) == 0,
    decreases c.len(),
{
    if c.len() > 0 {
        assert forall|i: int| 0 <= i < c.drop_last().len() && i != u implies pvalue(
            vals,
            #[trigger] c.drop_last()[i],
        ) == Some(false) by {
            assert(c.drop_last()[i] == c[i]);
        }
        lemma_count_all_false(vals, c.drop_last(), u);
        if u != c.len() - 1 {
            assert(pvalue(vals, c[c.len() - 1]) == Some(false));
        }
    }
}

/// A precompiled formula ready for repeated propagation and probing.
///
/// Holds the clauses plus, for each variable, the indices of the clauses that
/// mention it, so a newly assigned literal only re-examines the clauses it can
/// affect.
pub struct Propagator {
    clauses: Vec<Vec<Lit>>,
    occ: Vec<Vec<usize>>,
    n_vars: usize,
}

/// The result of running BCP to a fixpoint.
pub struct Propagation {
    /// Everything forced (assumptions included), as a partial assignment.
    pub assignment: Assignment,
    /// Whether propagation hit a conflict (the formula is UNSAT under the
    /// assumptions).
    pub conflict: bool,
}

/// What examining one clause under the current assignment reveals.
pub(crate) enum ClauseStatus {
    /// Satisfied, or still has at least two unassigned literals.
    Idle,
    /// Every literal is false.
    Conflict,
    /// Exactly one literal is unassigned and the rest are false.
    Unit(Lit),
}

/// The exact status of `c` under `vals`, as [`examine`] reports it.
pub(crate) open spec fn status_ok(vals: Seq<Option<bool>>, c: Seq<Lit>, st: ClauseStatus) -> bool {
    match st {
        ClauseStatus::Idle => idle(vals, c),
        ClauseStatus::Conflict => !clause_true_in(vals, c) && unassigned_count(vals, c) == 0,
        ClauseStatus::Unit(l) => !clause_true_in(vals, c) && unassigned_count(vals, c) == 1 && exists|u: int|
            0 <= u < c.len() && c[u] == l && pvalue(vals, c[u]) is None,
    }
}

/// Classify a clause under the current partial assignment.
pub(crate) fn examine(clause: &Vec<Lit>, values: &Vec<Option<bool>>) -> (st: ClauseStatus)
    requires
        lits_below(clause@, values@.len() as int),
    ensures
        status_ok(values@, clause@, st),
{
    let mut unit: Option<Lit> = None;
    let mut unassigned: u32 = 0;
    let mut i: usize = 0;
    while i < clause.len()
        invariant
            i <= clause@.len(),
            lits_below(clause@, values@.len() as int),
            !clause_true_in(values@, clause@.subrange(0, i as int)),
            unassigned == unassigned_count(values@, clause@.subrange(0, i as int)),
            unassigned <= 1,
            unassigned == 1 ==> (unit matches Some(l) && exists|u: int|
                0 <= u < i && clause@[u] == l && pvalue(values@, clause@[u]) is None),
        decreases clause@.len() - i,
    {
        let lit = clause[i];
        let ghost pre = clause@.subrange(0, i as int);
        let ghost post = clause@.subrange(0, i + 1);
        assert(post.drop_last() =~= pre);
        assert(post.last() == lit);
        match values[lit.var().idx()] {
            Some(v) => {
                if v == lit.is_pos() {
                    assert(pvalue(values@, clause@[i as int]) == Some(true));
                    return ClauseStatus::Idle;
                }
            },
            None => {
                unassigned = unassigned + 1;
                if unassigned > 1 {
                    assert(unassigned_count(values@, clause@) >= 2) by {
                        lemma_count_prefix(values@, clause@, i + 1);
                    }
                    return ClauseStatus::Idle;
                }
                unit = Some(lit);
            },
        }
        i = i + 1;
        assert(!clause_true_in(values@, post)) by {
            if clause_true_in(values@, post) {
                let j = choose|j: int| 0 <= j < post.len() && #[trigger] pvalue(values@, post[j]) == Some(true);
                if j < i - 1 {
                    assert(pre[j] == post[j]);
                }
            }
        }
    }
    assert(clause@.subrange(0, i as int) =~= clause@);
    match unit {
        Some(lit) if unassigned == 1 => ClauseStatus::Unit(lit),
        _ => ClauseStatus::Conflict,
    }
}

/// The unassigned count of a prefix never exceeds that of the whole clause.
proof fn lemma_count_prefix(vals: Seq<Option<bool>>, c: Seq<Lit>, i: int)
    requires
        0 <= i <= c.len(),
    ensures
        unassigned_count(vals, c.subrange(0, i)) <= unassigned_count(vals, c),
    decreases c.len(),
{
    if i < c.len() {
        assert(c.drop_last().subrange(0, i) =~= c.subrange(0, i));
        lemma_count_prefix(vals, c.drop_last(), i);
    } else {
        assert(c.subrange(0, i) =~= c);
    }
}

/// The literal lists of a clause list, as sequences.
pub open spec fn lists_view(cs: Seq<Vec<Lit>>) -> Seq<Seq<Lit>> {
    cs.map_values(|c: Vec<Lit>| c@)
}

/// The occurrence lists index every clause under each of its variables and name
/// only clauses that exist; the clauses stay within `n` variables.
pub open spec fn occ_ok(clauses: Seq<Vec<Lit>>, occ: Seq<Vec<usize>>, n: int) -> bool {
    &&& occ.len() == n
    &&& n <= MAX_VAR_IDX + 1
    &&& forall|j: int| 0 <= j < clauses.len() ==> lits_below(#[trigger] clauses[j]@, n)
    &&& forall|j: int, i: int|
        0 <= j < clauses.len() && 0 <= i < clauses[j]@.len() ==> (#[trigger] occ[clauses[j]@[i].var.index()])@.contains(j as usize)
    &&& forall|v: int, m: int| 0 <= v < occ.len() && 0 <= m < occ[v]@.len() ==> (#[trigger] occ[v]@[m]) < clauses.len()
}

/// Record `lit` true unless already assigned, queuing every clause that
/// mentions its variable. Returns whether `lit` contradicts the current value.
pub(crate) fn bcp_assign(occ: &Vec<Vec<usize>>, n_vars: usize, values: &mut Vec<Option<bool>>, worklist: &mut Vec<usize>, lit: Lit) -> (conflict: bool)
    requires
        occ@.len() == n_vars,
        old(values)@.len() == n_vars,
        lit.var.index() < n_vars,
    ensures
        final(values)@.len() == n_vars,
        conflict == (pvalue(old(values)@, lit) == Some(false)),
        pvalue(old(values)@, lit) is Some ==> final(values)@ == old(values)@ && final(worklist)@ == old(worklist)@,
        pvalue(old(values)@, lit) is None ==> {
            &&& final(values)@ == old(values)@.update(lit.var.index(), Some(lit.positive))
            &&& final(worklist)@ == old(worklist)@ + occ@[lit.var.index()]@
        },
{
    let idx = lit.var().idx();
    match values[idx] {
        Some(v) => v != lit.is_pos(),
        None => {
            values.set(idx, Some(lit.is_pos()));
            let row = &occ[idx];
            let mut m: usize = 0;
            let ghost start = worklist@;
            while m < row.len()
                invariant
                    m <= row@.len(),
                    worklist@ == start + row@.subrange(0, m as int),
                decreases row@.len() - m,
            {
                worklist.push(row[m]);
                m = m + 1;
                assert(worklist@ =~= start + row@.subrange(0, m as int));
            }
            assert(row@.subrange(0, m as int) =~= row@);
            false
        },
    }
}

/// Unit propagation from `values` over the clauses, re-examining the clauses
/// queued in `worklist` and those touched by each new value.
///
/// The values start out true for `given` and forced by it; propagation keeps
/// them so, and a conflict means that no propagation fixpoint and no total
/// assignment makes `given` true. When every clause off the worklist starts out
/// idle (`complete`), a run without conflict ends at a fixpoint.
pub(crate) fn bcp_fixpoint(
    clauses: &Vec<Vec<Lit>>,
    occ: &Vec<Vec<usize>>,
    n_vars: usize,
    values: &mut Vec<Option<bool>>,
    worklist: &mut Vec<usize>,
    Ghost(given): Ghost<Seq<Lit>>,
    Ghost(complete): Ghost<bool>,
    Ghost(base): Ghost<Option<Seq<Option<bool>>>>,
) -> (conflict: bool)
    requires
        base matches Some(b) ==> occ_exact(lists_view(clauses@), occ@) && settle_ok(
            lists_view(clauses@),
            b,
            old(values)@,
            old(values)@,
            old(worklist)@,
        ),
        occ_ok(clauses@, occ@, n_vars as int),
        old(values)@.len() == n_vars,
        holds_all(old(values)@, given),
        below_every_fixpoint(lists_view(clauses@), given, old(values)@),
        values_forced(lists_view(clauses@), given, old(values)@),
        forall|m: int| 0 <= m < old(worklist)@.len() ==> #[trigger] old(worklist)@[m] < clauses@.len(),
        complete ==> forall|j: int|
            0 <= j < clauses@.len() && !old(worklist)@.contains(j as usize) ==> idle(old(values)@, #[trigger] lists_view(clauses@)[j]),
    ensures
        final(values)@.len() == n_vars,
        conflict ==> !bcp_consistent(lists_view(clauses@), given),
        conflict ==> !satisfiable_under(lists_view(clauses@), given),
        !conflict ==> holds_all(final(values)@, given),
        !conflict && complete ==> is_fixpoint(final(values)@, lists_view(clauses@)),
        below_every_fixpoint(lists_view(clauses@), given, final(values)@),
        values_forced(lists_view(clauses@), given, final(values)@),
        base matches Some(b) ==> (conflict <==> !settles(lists_view(clauses@), b, old(values)@)),
{
    let ghost cs = lists_view(clauses@);
    let ghost start = values@;
    assert(cs.len() == clauses.len());
while worklist.len() > 0
        invariant
            occ_ok(clauses@, occ@, n_vars as int),
            cs == lists_view(clauses@),
            cs.len() == clauses.len(),
            values@.len() == n_vars,
            holds_all(values@, given),
            below_every_fixpoint(cs, given, values@),
            values_forced(cs, given, values@),
            forall|m: int| 0 <= m < worklist@.len() ==> #[trigger] worklist@[m] < clauses@.len(),
            complete ==> forall|j: int| 0 <= j < cs.len() && !worklist@.contains(j as usize) ==> idle(values@, #[trigger] cs[j]),
            start == old(values)@,
            base matches Some(b) ==> occ_exact(cs, occ@) && settle_ok(cs, b, start, values@, worklist@),
        decreases count_none(values@), worklist@.len(),
    {
        let ghost before = values@;
        let ghost wl = worklist@;
        let ci = worklist.pop().unwrap();
        assert(wl == worklist@.push(ci));
        assert(clauses@[ci as int]@ == cs[ci as int]);
        assert(lits_below(cs[ci as int], n_vars as int));
        match examine(&clauses[ci], values) {
            ClauseStatus::Idle => {
                proof {
                    if let Some(b) = base {
                        lemma_settle_idle(cs, b, start, values@, worklist@, ci);
                    }
                }
                assert forall|j: int| complete && 0 <= j < cs.len() && !worklist@.contains(j as usize) implies idle(values@, #[trigger] cs[j]) by {
                    if j != ci {
                        assert(!wl.contains(j as usize)) by {
                            if wl.contains(j as usize) {
                                let m = choose|m: int| 0 <= m < wl.len() && wl[m] == j as usize;
                                if m < worklist@.len() {
                                    assert(worklist@[m] == wl[m]);
                                } else {
                                    assert(wl[m] == ci);
                                }
                            }
                        }
                    }
                }
            },
            ClauseStatus::Conflict => {
                proof {
                    let c = cs[ci as int];
                    lemma_zero_unassigned(values@, c);
                    if let Some(b) = base {
                        lemma_settle_conflict(cs, b, start, values@, worklist@, ci);
                    }
                    assert(!bcp_consistent(cs, given)) by {
                        if bcp_consistent(cs, given) {
                            let big = choose|big: Seq<Option<bool>>| is_fixpoint(big, cs) && holds_all(big, given);
                            assert(extends(big, values@));
                            assert(idle(big, c));
                            assert(!clause_true_in(big, c)) by {
                                if clause_true_in(big, c) {
                                    let i = choose|i: int| 0 <= i < c.len() && #[trigger] pvalue(big, c[i]) == Some(true);
                                    assert(pvalue(values@, c[i]) == Some(false));
                                    assert(values@[c[i].var.index()] is Some);
                                }
                            }
                            lemma_count_extends(big, values@, c);
                        }
                    }
                    assert(!satisfiable_under(cs, given)) by {
                        if satisfiable_under(cs, given) {
                            let tau = choose|tau: spec_fn(int) -> bool| cnf_holds(tau, cs) && all_hold(tau, given);
                            assert(clause_holds(tau, c));
                            let i = choose|i: int| 0 <= i < c.len() && lit_holds(tau, #[trigger] c[i]);
                            let k = c[i].var.index();
                            assert(pvalue(values@, c[i]) == Some(false));
                            assert(values@[k] is Some);
                            assert(forced(cs, given, value_lit(k, values@[k]->0)));
                            assert(lit_holds(tau, value_lit(k, values@[k]->0)));
                            assert(var_at(k) == c[i].var);
                        }
                    }
                }
                return true;
            },
            ClauseStatus::Unit(lit) => {
                let ghost u: int = choose|u: int| 0 <= u < cs[ci as int].len() && cs[ci as int][u] == lit && pvalue(values@, cs[ci as int][u]) is None;
                proof {
                    let c = cs[ci as int];
                    lemma_one_unassigned(values@, c, u);
                    assert forall|big: Seq<Option<bool>>| is_fixpoint(big, cs) && holds_all(big, given) implies pvalue(big, lit) == Some(true) by {
                        assert(extends(big, values@));
                        assert(idle(big, c));
                        lemma_unit_in_fixpoint(big, values@, c, u);
                    }
                    assert forall|tau: spec_fn(int) -> bool| cnf_holds(tau, cs) && all_hold(tau, given) implies #[trigger] lit_holds(tau, lit) by {
                        assert(clause_holds(tau, c));
                        let i = choose|i: int| 0 <= i < c.len() && lit_holds(tau, #[trigger] c[i]);
                        if i != u {
                            let k = c[i].var.index();
                            assert(pvalue(values@, c[i]) == Some(false));
                            assert(values@[k] is Some);
                            assert(forced(cs, given, value_lit(k, values@[k]->0)));
                            assert(lit_holds(tau, value_lit(k, values@[k]->0)));
                            assert(var_at(k) == c[i].var);
                        }
                    }
                    assert(lits_below(c, n_vars as int));
                }
                let wl2 = Ghost(worklist@);
                proof {
                    assert forall|j: int|
                        complete && 0 <= j < cs.len() && !wl2@.contains(j as usize) implies idle(before, #[trigger] cs[j]) || exists|i: int|
                            0 <= i < cs[j].len() && cs[j][i].var.index() == lit.var.index() by {
                        if j != ci {
                            assert(!wl.contains(j as usize)) by {
                                if wl.contains(j as usize) {
                                    let m = choose|m: int| 0 <= m < wl.len() && wl[m] == j as usize;
                                    if m < wl2@.len() {
                                        assert(wl2@[m] == wl[m]);
                                    } else {
                                        assert(wl[m] == ci);
                                    }
                                }
                            }
                        } else {
                            assert(cs[j][u].var.index() == lit.var.index());
                        }
                    }
                }
                let clash = bcp_assign(occ, n_vars, values, worklist, lit);
                proof {
                    assert(!clash);
                    if let Some(b) = base {
                        lemma_one_unassigned(before, cs[ci as int], u);
                        lemma_settle_unit(clauses@, occ@, n_vars as int, b, start, before, wl2@, ci, u, values@, worklist@);
                    }
                    if complete {
                        lemma_assign_keeps(clauses@, occ@, n_vars as int, before, values@, wl2@, worklist@, lit);
                    } else {
                        assert forall|m: int| 0 <= m < worklist@.len() implies #[trigger] worklist@[m] < clauses@.len() by {
                            if m >= wl2@.len() {
                                assert(worklist@[m] == occ@[lit.var.index()]@[m - wl2@.len()]);
                            } else {
                                assert(worklist@[m] == wl2@[m]);
                            }
                        }
                    }
                    lemma_set_value(before, values@, lit, cs, given);
                    lemma_count_none_update(before, lit.var.index(), lit.positive);
                    assert forall|i: int| 0 <= i < given.len() implies pvalue(values@, #[trigger] given[i]) == Some(true) by {
                        assert(pvalue(before, given[i]) == Some(true));
                    }
                    assert forall|j: int| complete && 0 <= j < cs.len() && !worklist@.contains(j as usize) implies idle(values@, #[trigger] cs[j]) by {
                        if j == ci {
                            assert(cs[j][u].var.index() == lit.var.index());
                            assert(occ@[lit.var.index()]@.contains(ci));
                            let m = choose|m: int| 0 <= m < occ@[lit.var.index()]@.len() && occ@[lit.var.index()]@[m] == ci;
                            assert(worklist@[wl2@.len() + m] == ci);
                        }
                    }
                }
            },
        }
    }
    proof {
        if complete {
            assert forall|j: int| 0 <= j < cs.len() implies idle(values@, #[trigger] cs[j]) by {
                assert(!worklist@.contains(j as usize));
            }
            assert(is_fixpoint(values@, cs));
        }
        if let Some(b) = base {
            assert(settled_from(values@, b, cs)) by {
                assert forall|j: int| 0 <= j < cs.len() && #[trigger] touches_new(values@, b, cs[j]) implies idle(values@, cs[j]) by {
                    assert(!worklist@.contains(j as usize));
                }
            }
            assert(settles(cs, b, start));
        }
    }
    false

}

/// Assigning a fresh literal keeps every clause that was idle idle, unless it
/// mentions the variable (then it is queued).
proof fn lemma_assign_keeps(
    clauses: Seq<Vec<Lit>>,
    occ: Seq<Vec<usize>>,
    n_vars: int,
    before: Seq<Option<bool>>,
    after: Seq<Option<bool>>,
    wl_before: Seq<usize>,
    wl_after: Seq<usize>,
    lit: Lit,
)
    requires
        occ_ok(clauses, occ, n_vars),
        before.len() == n_vars,
        lit.var.index() < n_vars,
        pvalue(before, lit) is None,
        after == before.update(lit.var.index(), Some(lit.positive)),
        wl_after == wl_before + occ[lit.var.index()]@,
        forall|m: int| 0 <= m < wl_before.len() ==> #[trigger] wl_before[m] < clauses.len(),
        forall|j: int|
            0 <= j < clauses.len() && !wl_before.contains(j as usize) ==> idle(before, #[trigger] lists_view(clauses)[j]) || exists|i: int|
                0 <= i < lists_view(clauses)[j].len() && lists_view(clauses)[j][i].var.index() == lit.var.index(),
    ensures
        forall|m: int| 0 <= m < wl_after.len() ==> #[trigger] wl_after[m] < clauses.len(),
        forall|j: int| 0 <= j < clauses.len() && !wl_after.contains(j as usize) ==> idle(after, #[trigger] lists_view(clauses)[j]),
{
    let cs = lists_view(clauses);
    let k = lit.var.index();
    let row = occ[k]@;
    assert forall|m: int| 0 <= m < wl_after.len() implies #[trigger] wl_after[m] < clauses.len() by {
        if m >= wl_before.len() {
            assert(wl_after[m] == row[m - wl_before.len()]);
        }
    }
    assert forall|j: int| 0 <= j < clauses.len() && !wl_after.contains(j as usize) implies idle(after, #[trigger] cs[j]) by {
        assert(!wl_before.contains(j as usize)) by {
            if wl_before.contains(j as usize) {
                let m = choose|m: int| 0 <= m < wl_before.len() && wl_before[m] == j as usize;
                assert(wl_after[m] == j as usize);
            }
        }
        let c = cs[j];
        assert(c == clauses[j]@);
        assert forall|i: int| 0 <= i < c.len() implies (#[trigger] c[i]).var.index() != k by {
            if c[i].var.index() == k {
                assert(occ[k]@.contains(j as usize));
                let m = choose|m: int| 0 <= m < row.len() && row[m] == j as usize;
                assert(wl_after[wl_before.len() + m] == j as usize);
            }
        }
        lemma_count_frame(before, c, k, Some(lit.positive));
    }
}

/// Setting a literal forced by the rules and assumptions, and kept by every
/// fixpoint, preserves both properties of the values.
proof fn lemma_set_value(before: Seq<Option<bool>>, after: Seq<Option<bool>>, lit: Lit, cs: Seq<Seq<Lit>>, given: Seq<Lit>)
    requires
        0 <= lit.var.index() < before.len(),
        pvalue(before, lit) is None,
        after == before.update(lit.var.index(), Some(lit.positive)),
        below_every_fixpoint(cs, given, before),
        values_forced(cs, given, before),
        forall|tau: spec_fn(int) -> bool| cnf_holds(tau, cs) && all_hold(tau, given) ==> #[trigger] lit_holds(tau, lit),
        forall|big: Seq<Option<bool>>| is_fixpoint(big, cs) && holds_all(big, given) ==> pvalue(big, lit) == Some(true),
    ensures
        below_every_fixpoint(cs, given, after),
        values_forced(cs, given, after),
{
    let k = lit.var.index();
    assert(var_at(k) == lit.var);
    assert(value_lit(k, lit.positive) == lit);
    assert forall|big: Seq<Option<bool>>| is_fixpoint(big, cs) && holds_all(big, given) implies #[trigger] extends(big, after) by {
        assert(extends(big, before));
        assert(pvalue(big, lit) == Some(true));
    }
    assert forall|kk: int| 0 <= kk < after.len() && (#[trigger] after[kk]) is Some implies forced(cs, given, value_lit(kk, after[kk]->0)) by {
        if kk != k {
            assert(before[kk] == after[kk]);
        }
    }
}

impl Propagator {
    /// The clauses, as literal sequences.
    pub closed spec fn clauses_spec(&self) -> Seq<Seq<Lit>> {
        lists_view(self.clauses@)
    }

    /// The number of variables the formula spans.
    pub closed spec fn n_vars_spec(&self) -> nat {
        self.n_vars as nat
    }

    /// Occurrence lists are complete and in range; clauses stay within the
    /// variables.
    pub closed spec fn wf(&self) -> bool {
        occ_ok(self.clauses@, self.occ@, self.n_vars as int)
    }

    /// Compile a propagator from a CNF.
    pub fn from_cnf(cnf: &Cnf) -> (p: Propagator)
        ensures
            p.wf(),
            p.clauses_spec() == cnf@,
            spans(cnf@, p.n_vars_spec() as int),
    {
        let n_vars = var_count(cnf);
        let mut clauses: Vec<Vec<Lit>> = Vec::new();
        let mut occ: Vec<Vec<usize>> = Vec::new();
        let mut v: usize = 0;
        while v < n_vars
            invariant
                v <= n_vars,
                occ@.len() == v,
                forall|w: int| 0 <= w < v ==> (#[trigger] occ@[w])@.len() == 0,
            decreases n_vars - v,
        {
            occ.push(Vec::new());
            v = v + 1;
        }
        let mut ci: usize = 0;
        while ci < cnf.clauses.len()
            invariant
                spans(cnf@, n_vars as int),
                ci <= cnf@.len(),
                clauses@.len() == ci,
                occ@.len() == n_vars,
                forall|j: int| 0 <= j < ci ==> (#[trigger] clauses@[j])@ == cnf@[j],
                forall|j: int, i: int|
                    0 <= j < ci && 0 <= i < clauses@[j]@.len() ==> (#[trigger] occ@[clauses@[j]@[i].var.index()])@.contains(j as usize),
                forall|w: int, m: int| 0 <= w < occ@.len() && 0 <= m < occ@[w]@.len() ==> (#[trigger] occ@[w]@[m]) < ci,
            decreases cnf@.len() - ci,
        {
            let c = &cnf.clauses[ci];
            let mut lits: Vec<Lit> = Vec::new();
            let mut i: usize = 0;
            while i < c.lits.len()
                invariant
                    spans(cnf@, n_vars as int),
                    0 <= ci < cnf@.len(),
                    c@ == cnf@[ci as int],
                    i <= c@.len(),
                    lits@ == c@.subrange(0, i as int),
                    clauses@.len() == ci,
                    forall|j: int| 0 <= j < ci ==> (#[trigger] clauses@[j])@ == cnf@[j],
                    occ@.len() == n_vars,
                    forall|j: int, ii: int|
                        0 <= j < ci && 0 <= ii < clauses@[j]@.len() ==> (#[trigger] occ@[clauses@[j]@[ii].var.index()])@.contains(j as usize),
                    forall|ii: int| 0 <= ii < i ==> (#[trigger] occ@[c@[ii].var.index()])@.contains(ci),
                    forall|w: int, m: int|
                        0 <= w < occ@.len() && 0 <= m < occ@[w]@.len() ==> (#[trigger] occ@[w]@[m]) < ci + 1,
                decreases c@.len() - i,
            {
                let lit = c.lits[i];
                assert(lits_below(cnf@[ci as int], n_vars as int));
                assert(c@[i as int] == lit);
                let idx = lit.var().idx();
                let ghost old_occ = occ@;
                let mut row: Vec<usize> = Vec::new();
                std::mem::swap(&mut row, &mut occ[idx]);
                row.push(ci);
                occ.set(idx, row);
                assert forall|j: int, ii: int|
                    0 <= j < ci && 0 <= ii < clauses@[j]@.len() implies (#[trigger] occ@[clauses@[j]@[ii].var.index()])@.contains(j as usize) by {
                    let w = clauses@[j]@[ii].var.index();
                    assert(old_occ[w]@.contains(j as usize));
                    if w == idx {
                        let m = choose|m: int| 0 <= m < old_occ[w]@.len() && old_occ[w]@[m] == j as usize;
                        assert(occ@[w]@[m] == j as usize);
                    }
                }
                assert forall|ii: int| 0 <= ii < i + 1 implies (#[trigger] occ@[c@[ii].var.index()])@.contains(ci) by {
                    let w = c@[ii].var.index();
                    if ii < i {
                        assert(old_occ[w]@.contains(ci));
                        if w == idx {
                            let m = choose|m: int| 0 <= m < old_occ[w]@.len() && old_occ[w]@[m] == ci;
                            assert(occ@[w]@[m] == ci);
                        }
                    } else {
                        assert(occ@[w]@[occ@[w]@.len() - 1] == ci);
                    }
                }
                assert forall|w: int, m: int|
                    0 <= w < occ@.len() && 0 <= m < occ@[w]@.len() implies (#[trigger] occ@[w]@[m]) < ci + 1 by {
                    if w == idx && m == occ@[w]@.len() - 1 {
                    } else {
                        assert(occ@[w]@[m] == old_occ[w]@[m]);
                    }
                }
                lits.push(lit);
                i = i + 1;
                assert(lits@ =~= c@.subrange(0, i as int));
            }
            assert(lits@ =~= c@);
            clauses.push(lits);
            ci = ci + 1;
        }
        let p = Propagator { clauses, occ, n_vars };
        assert(p.clauses_spec() =~= cnf@);
        p
    }

    /// The number of variables the formula spans.
    pub fn n_vars(&self) -> (n: usize)
        ensures
            n == self.n_vars_spec(),
    {
        self.n_vars
    }

    /// Run BCP from `assumptions` to a fixpoint.
    ///
    /// Without a conflict, the result is the least propagation fixpoint that makes
    /// every assumption true. A conflict is reported exactly when no propagation
    /// fixpoint makes every assumption true; the partial assignment is then
    /// whatever had been derived when the conflict was found. Every value set is
    /// forced by the rules and the assumptions.
    pub fn propagate(&self, assumptions: &[Lit]) -> (r: Propagation)
        requires
            self.wf(),
            lits_below(assumptions@, self.n_vars_spec() as int),
        ensures
            r.assignment@.len() == self.n_vars_spec(),
            r.conflict == !bcp_consistent(self.clauses_spec(), assumptions@),
            r.conflict ==> !satisfiable_under(self.clauses_spec(), assumptions@),
            !r.conflict ==> is_fixpoint(r.assignment@, self.clauses_spec()),
            !r.conflict ==> holds_all(r.assignment@, assumptions@),
            below_every_fixpoint(self.clauses_spec(), assumptions@, r.assignment@),
            values_forced(self.clauses_spec(), assumptions@, r.assignment@),
    {
        let ghost cs = self.clauses_spec();
        let ghost given = assumptions@;
        let mut values: Vec<Option<bool>> = Vec::new();
        let mut k: usize = 0;
        while k < self.n_vars
            invariant
                k <= self.n_vars,
                values@.len() == k,
                forall|w: int| 0 <= w < k ==> (#[trigger] values@[w]) is None,
            decreases self.n_vars - k,
        {
            values.push(None);
            k = k + 1;
        }
        let mut worklist: Vec<usize> = Vec::new();
        let mut ci: usize = 0;
        while ci < self.clauses.len()
            invariant
                ci <= self.clauses@.len(),
                worklist@.len() == ci,
                forall|m: int| 0 <= m < ci ==> #[trigger] worklist@[m] == m,
            decreases self.clauses@.len() - ci,
        {
            worklist.push(ci);
            ci = ci + 1;
        }
        assert(below_every_fixpoint(cs, given, values@));
        assert(values_forced(cs, given, values@));
        assert forall|j: int| 0 <= j < cs.len() implies idle(values@, #[trigger] cs[j]) || worklist@.contains(j as usize) by {
            assert(worklist@[j] == j as usize);
        }
        // Place the assumptions.
        let mut a: usize = 0;
        while a < assumptions.len()
            invariant
                self.wf(),
                cs == self.clauses_spec(),
                given == assumptions@,
                lits_below(given, self.n_vars as int),
                a <= given.len(),
                values@.len() == self.n_vars,
                holds_all(values@, given.subrange(0, a as int)),
                below_every_fixpoint(cs, given, values@),
                values_forced(cs, given, values@),
                forall|m: int| 0 <= m < worklist@.len() ==> #[trigger] worklist@[m] < self.clauses@.len(),
                forall|j: int| 0 <= j < cs.len() && !worklist@.contains(j as usize) ==> idle(values@, #[trigger] cs[j]),
            decreases given.len() - a,
        {
            let lit = assumptions[a];
            let ghost before = values@;
            let ghost wl = worklist@;
            let conflict = bcp_assign(&self.occ, self.n_vars, &mut values, &mut worklist, lit);
            if conflict {
                proof {
                    assert(!bcp_consistent(cs, given)) by {
                        if bcp_consistent(cs, given) {
                            let big = choose|big: Seq<Option<bool>>| is_fixpoint(big, cs) && holds_all(big, given);
                            assert(extends(big, before));
                            assert(pvalue(big, given[a as int]) == Some(true));
                            assert(before[lit.var.index()] is Some);
                        }
                    }
                    assert(!satisfiable_under(cs, given)) by {
                        if satisfiable_under(cs, given) {
                            let tau = choose|tau: spec_fn(int) -> bool| cnf_holds(tau, cs) && all_hold(tau, given);
                            let k = lit.var.index();
                            assert(before[k] is Some);
                            assert(forced(cs, given, value_lit(k, before[k]->0)));
                            assert(lit_holds(tau, value_lit(k, before[k]->0)));
                            assert(lit_holds(tau, given[a as int]));
                            assert(var_at(k) == lit.var);
                        }
                    }
                }
                return Propagation { assignment: Assignment::from_values(values), conflict: true };
            }
            proof {
                if pvalue(before, lit) is None {
                    lemma_assign_keeps(self.clauses@, self.occ@, self.n_vars as int, before, values@, wl, worklist@, lit);
                    assert(forall|tau: spec_fn(int) -> bool| cnf_holds(tau, cs) && all_hold(tau, given) ==> #[trigger] lit_holds(tau, lit)) by {
                        assert forall|tau: spec_fn(int) -> bool| cnf_holds(tau, cs) && all_hold(tau, given) implies #[trigger] lit_holds(tau, lit) by {
                            assert(lit_holds(tau, given[a as int]));
                        }
                    }
                    assert forall|big: Seq<Option<bool>>| is_fixpoint(big, cs) && holds_all(big, given) implies pvalue(big, lit) == Some(true) by {
                        assert(pvalue(big, given[a as int]) == Some(true));
                    }
                    lemma_set_value(before, values@, lit, cs, given);
                }
                assert forall|i: int| 0 <= i < a + 1 implies pvalue(values@, #[trigger] given.subrange(0, a + 1)[i]) == Some(true) by {
                    if i < a {
                        assert(given.subrange(0, a as int)[i] == given.subrange(0, a + 1)[i]);
                        let l = given.subrange(0, a + 1)[i];
                        assert(pvalue(before, l) == Some(true));
                        assert(before[l.var.index()] is Some);
                    }
                }
            }
            a = a + 1;
        }
        assert(given.subrange(0, a as int) =~= given);
        let conflict = bcp_fixpoint(&self.clauses, &self.occ, self.n_vars, &mut values, &mut worklist, Ghost(given), Ghost(true), Ghost(None));
        Propagation { assignment: Assignment::from_values(values), conflict }
    }

    /// The literals BCP forces beyond the assumptions themselves: for each
    /// variable in index order that is not an assumption's, its propagated value.
    /// Empty when propagation conflicts.
    pub fn implied(&self, assumptions: &[Lit]) -> (lits: Vec<Lit>)
        requires
            self.wf(),
            lits_below(assumptions@, self.n_vars_spec() as int),
        ensures
            !bcp_consistent(self.clauses_spec(), assumptions@) ==> lits@.len() == 0,
            bcp_consistent(self.clauses_spec(), assumptions@) ==> exists|vals: Seq<Option<bool>>| {
                &&& is_fixpoint(vals, self.clauses_spec())
                &&& holds_all(vals, assumptions@)
                &&& below_every_fixpoint(self.clauses_spec(), assumptions@, vals)
                &&& vals.len() == self.n_vars_spec()
                &&& lits@ == implied_upto(vals, assumptions@, vals.len() as int)
            },
            forall|i: int| 0 <= i < lits@.len() ==> forced(self.clauses_spec(), assumptions@, #[trigger] lits@[i]),
    {
        let result = self.propagate(assumptions);
        if result.conflict {
            return Vec::new();
        }
        let mut assumed: Vec<bool> = Vec::new();
        let mut k: usize = 0;
        while k < self.n_vars
            invariant
                k <= self.n_vars,
                assumed@.len() == k,
                forall|w: int| 0 <= w < k ==> !(#[trigger] assumed@[w]),
            decreases self.n_vars - k,
        {
            assumed.push(false);
            k = k + 1;
        }
        let mut a: usize = 0;
        while a < assumptions.len()
            invariant
                a <= assumptions@.len(),
                assumed@.len() == self.n_vars,
                lits_below(assumptions@, self.n_vars as int),
                forall|w: int| 0 <= w < self.n_vars ==> #[trigger] assumed@[w] == is_assumed(assumptions@.subrange(0, a as int), w),
            decreases assumptions@.len() - a,
        {
            let idx = assumptions[a].var().idx();
            if idx < assumed.len() {
                assumed.set(idx, true);
            }
            proof {
                assert forall|w: int| 0 <= w < self.n_vars implies #[trigger] assumed@[w] == is_assumed(assumptions@.subrange(0, a + 1), w) by {
                    assert(assumptions@.subrange(0, a + 1)[a as int] == assumptions@[a as int]);
                    if is_assumed(assumptions@.subrange(0, a as int), w) {
                        let m = choose|m: int| 0 <= m < a && #[trigger] assumptions@.subrange(0, a as int)[m].var.index() == w;
                        assert(assumptions@.subrange(0, a + 1)[m] == assumptions@.subrange(0, a as int)[m]);
                    }
                    if is_assumed(assumptions@.subrange(0, a + 1), w) && w != idx {
                        let m = choose|m: int| 0 <= m < a + 1 && #[trigger] assumptions@.subrange(0, a + 1)[m].var.index() == w;
                        assert(assumptions@.subrange(0, a as int)[m] == assumptions@.subrange(0, a + 1)[m]);
                    }
                }
            }
            a = a + 1;
        }
        assert(assumptions@.subrange(0, a as int) =~= assumptions@);
        let ghost vals = result.assignment@;
        let mut out: Vec<Lit> = Vec::new();
        let mut i: usize = 0;
        while i < self.n_vars
            invariant
                self.wf(),
                i <= self.n_vars,
                vals.len() == self.n_vars,
                vals == result.assignment@,
                assumed@.len() == self.n_vars,
                forall|w: int| 0 <= w < self.n_vars ==> #[trigger] assumed@[w] == is_assumed(assumptions@, w),
                out@ == implied_upto(vals, assumptions@, i as int),
            decreases self.n_vars - i,
        {
            if !assumed[i] {
                let var = Var::new(i as u32);
                match result.assignment.var_value(var) {
                    Some(value) => {
                        let l = if value {
                            var.pos_lit()
                        } else {
                            var.neg_lit()
                        };
                        assert(var == var_at(i as int));
                        out.push(l);
                    },
                    None => {},
                }
            }
            i = i + 1;
        }
        proof {
            lemma_implied_forced(self.clauses_spec(), assumptions@, vals, vals.len() as int);
        }
        out
    }

    /// Failed-literal probe: does unit propagation from `assumptions` plus `lit`
    /// conflict? Exactly then no propagation fixpoint makes them all true; a
    /// `true` answer means `lit` is false in every model of the rules and the
    /// assumptions.
    pub fn probe(&self, assumptions: &[Lit], lit: Lit) -> (refuted: bool)
        requires
            self.wf(),
            lits_below(assumptions@, self.n_vars_spec() as int),
            lit.var.index() < self.n_vars_spec(),
        ensures
            refuted == !bcp_consistent(self.clauses_spec(), assumptions@.push(lit)),
            refuted ==> forced(self.clauses_spec(), assumptions@, lit.neg()),
    {
        let mut assumps: Vec<Lit> = Vec::new();
        let mut i: usize = 0;
        while i < assumptions.len()
            invariant
                i <= assumptions@.len(),
                assumps@ == assumptions@.subrange(0, i as int),
            decreases assumptions@.len() - i,
        {
            assumps.push(assumptions[i]);
            i = i + 1;
            assert(assumps@ =~= assumptions@.subrange(0, i as int));
        }
        assumps.push(lit);
        assert(assumps@ =~= assumptions@.push(lit));
        let r = self.propagate(assumps.as_slice());
        proof {
            if r.conflict {
                let cs = self.clauses_spec();
                assert forall|tau: spec_fn(int) -> bool| cnf_holds(tau, cs) && all_hold(tau, assumptions@) implies #[trigger] lit_holds(tau, lit.neg()) by {
                    if !lit_holds(tau, lit.neg()) {
                        assert(all_hold(tau, assumptions@.push(lit)));
                    }
                }
            }
        }
        r.conflict
    }
}

/// Some assumption sits on variable `w`.
pub open spec fn is_assumed(given: Seq<Lit>, w: int) -> bool {
    exists|m: int| 0 <= m < given.len() && #[trigger] given[m].var.index() == w
}

/// The propagated literals over variables below `i` that no assumption sits on,
/// in index order.
pub open spec fn implied_upto(vals: Seq<Option<bool>>, given: Seq<Lit>, i: int) -> Seq<Lit>
    decreases i,
{
    if i <= 0 {
        Seq::empty()
    } else {
        let prev = implied_upto(vals, given, i - 1);
        if !is_assumed(given, i - 1) && vals[i - 1] is Some {
            prev.push(value_lit(i - 1, vals[i - 1]->0))
        } else {
            prev
        }
    }
}

/// Every implied literal is forced.
proof fn lemma_implied_forced(cs: Seq<Seq<Lit>>, given: Seq<Lit>, vals: Seq<Option<bool>>, i: int)
    requires
        values_forced(cs, given, vals),
        i <= vals.len(),
    ensures
        forall|m: int| 0 <= m < implied_upto(vals, given, i).len() ==> forced(cs, given, #[trigger] implied_upto(vals, given, i)[m]),
    decreases i,
{
    if i > 0 {
        lemma_implied_forced(cs, given, vals, i - 1);
        let prev = implied_upto(vals, given, i - 1);
        if !is_assumed(given, i - 1) && vals[i - 1] is Some {
            let x = value_lit(i - 1, vals[i - 1]->0);
            assert(forced(cs, given, x));
            assert forall|m: int| 0 <= m < prev.push(x).len() implies forced(cs, given, #[trigger] prev.push(x)[m]) by {
                if m < prev.len() {
                    assert(prev.push(x)[m] == prev[m]);
                }
            }
        }
    }
}

} // verus!
