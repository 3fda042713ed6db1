//! Backbone extraction: the literals true in *every* model.
//!
//! Where [`crate::propagate::Propagator`] proves things without search (sound
//! but incomplete), the backbone is the complete set of literals entailed by the
//! rules under the assumptions. Decoded through the registry it is the set of
//! facts that hold across all solutions; for a uniquely solvable board it is the
//! whole solution. It is generic over [`Solver`], so it works for any backend
//! and any puzzle.

use vstd::prelude::*;

use crate::cnf::{
    all_hold, cnf_holds, forced, lemma_index_injective, lemma_index_nonneg, lemma_var_at, lemma_var_at_index,
    lit_holds, lits_below, satisfiable_under, var_at, Lit, Var, MAX_VAR_IDX,
};
use crate::propagate::value_lit;
use crate::solver::{lemma_model_extends, model_satisfies, outcome_sound, pvalue, SolveOutcome, Solver};

verus! {

broadcast use lemma_var_at, lemma_var_at_index, lemma_index_injective, lemma_index_nonneg;

/// Some clause of `cs` mentions variable `v`.
pub open spec fn mentions(cs: Seq<Seq<Lit>>, v: int) -> bool {
    exists|j: int, i: int| 0 <= j < cs.len() && 0 <= i < cs[j].len() && #[trigger] cs[j][i].var.index() == v
}

/// A model of `cs` under `lits` that does not make `l` true, where `cs` is
/// satisfiable under `lits` and the model covers `l`'s variable, shows that `l`
/// is not forced.
pub proof fn lemma_model_refutes(vals: Seq<Option<bool>>, cs: Seq<Seq<Lit>>, lits: Seq<Lit>, l: Lit)
    requires
        model_satisfies(vals, cs),
        satisfiable_under(cs, lits),
        forall|i: int| 0 <= i < lits.len() && #[trigger] lits[i].var.index() < vals.len() ==> pvalue(vals, lits[i]) == Some(true),
        l.var.index() < vals.len(),
        pvalue(vals, l) != Some(true),
    ensures
        !forced(cs, lits, l),
{
    let tau0 = choose|tau: spec_fn(int) -> bool| cnf_holds(tau, cs) && all_hold(tau, lits);
    let lv = l.var.index();
    let tau = |k: int|
        if 0 <= k < vals.len() && vals[k] is Some {
            vals[k]->0
        } else if k == lv {
            !l.positive
        } else {
            tau0(k)
        };
    lemma_model_extends(vals, cs, tau);
    assert(all_hold(tau, lits)) by {
        assert forall|i: int| 0 <= i < lits.len() implies lit_holds(tau, #[trigger] lits[i]) by {
            assert(lit_holds(tau0, lits[i]));
            if lits[i].var.index() < vals.len() {
                assert(pvalue(vals, lits[i]) == Some(true));
            }
        }
    }
    assert(!lit_holds(tau, l));
}

/// The literals' variables strictly decrease along `s`.
pub open spec fn vars_descending(s: Seq<Lit>) -> bool {
    forall|i: int, j: int| 0 <= i < j < s.len() ==> (#[trigger] s[i]).var.index() > (#[trigger] s[j]).var.index()
}

/// The literals' variables strictly increase along `s`.
pub open spec fn vars_ascending(s: Seq<Lit>) -> bool {
    forall|i: int, j: int| 0 <= i < j < s.len() ==> (#[trigger] s[i]).var.index() < (#[trigger] s[j]).var.index()
}

/// The backbone under `assumptions`: every literal true in every model of the
/// rules that makes the assumptions true. `None` when there is no such model;
/// otherwise the forced literals over the variables the solver's models span
/// (every variable a rule mentions among them), possibly none.
///
/// Model rotation: solve once for a seed model and take every assigned literal
/// as a candidate. Then, for each candidate still standing, ask for a model of
/// its negation. UNSAT means no model flips it, so it joins the backbone. SAT
/// gives a witness that it is free, and that one model also drops every other
/// candidate it does not make true.
pub fn backbone<S: Solver>(solver: &mut S, assumptions: &[Lit]) -> (r: Option<Vec<Lit>>)
    requires
        old(solver).inv(),
    ensures
        final(solver).inv(),
        final(solver).rules() == old(solver).rules(),
        r is None <==> !satisfiable_under(old(solver).rules(), assumptions@),
        r matches Some(bb) ==> forall|i: int| 0 <= i < bb@.len() ==> forced(old(solver).rules(), assumptions@, #[trigger] bb@[i]),
        r matches Some(bb) ==> forall|l: Lit|
            #[trigger] forced(old(solver).rules(), assumptions@, l) && mentions(old(solver).rules(), l.var.index()) ==> bb@.contains(l),
        r matches Some(bb) ==> forall|l: Lit|
            #[trigger] forced(old(solver).rules(), assumptions@, l) && 0 <= l.var.index() < old(solver).width(assumptions@)
                ==> bb@.contains(l),
        r matches Some(bb) ==> forall|i: int| 0 <= i < bb@.len() ==> (#[trigger] bb@[i]).var.index() < old(solver).width(assumptions@),
        r matches Some(bb) ==> vars_descending(bb@),
{
    let ghost rules = solver.rules();
    let ghost given = assumptions@;
    let ghost width = solver.width(given);
    let seed = match solver.solve(assumptions) {
        SolveOutcome::Sat(model) => model,
        SolveOutcome::Unsat(_) => {
            return None;
        },
    };
    proof {
        assert forall|l: Lit| forced(rules, given, l) && 0 <= l.var.index() < width implies pvalue(seed@, l) == Some(true) by {
            if pvalue(seed@, l) != Some(true) {
                lemma_model_refutes(seed@, rules, given, l);
            }
        }
        assert forall|l: Lit| forced(rules, given, l) && mentions(rules, l.var.index()) implies pvalue(seed@, l) == Some(true) by {
            let (j, i) = choose|j: int, i: int| 0 <= j < rules.len() && 0 <= i < rules[j].len() && #[trigger] rules[j][i].var.index() == l.var.index();
            assert(lits_below(rules[j], seed@.len() as int));
            if pvalue(seed@, l) != Some(true) {
                lemma_model_refutes(seed@, rules, given, l);
            }
        }
    }
    let mut candidates: Vec<Lit> = Vec::new();
    let mut i: usize = 0;
    while i < seed.len()
        invariant
            i <= seed@.len(),
            seed@.len() <= MAX_VAR_IDX + 1,
            forall|k: int| 0 <= k < candidates@.len() ==> (#[trigger] candidates@[k]).var.index() < seed@.len(),
            forall|k: int|
                0 <= k < i && (#[trigger] seed@[k]) is Some ==> candidates@.contains(value_lit(k, seed@[k]->0)),
            forall|k: int| 0 <= k < candidates@.len() ==> (#[trigger] candidates@[k]).var.index() < i,
            vars_ascending(candidates@),
        decreases seed@.len() - i,
    {
        let var = Var::new(i as u32);
        match seed.var_value(var) {
            Some(value) => {
                let l = if value {
                    var.pos_lit()
                } else {
                    var.neg_lit()
                };
                let ghost before = candidates@;
                candidates.push(l);
                proof {
                    assert(l == value_lit(i as int, value));
                    assert(l.var.index() == i);
                    assert forall|k: int|
                        0 <= k < i + 1 && (#[trigger] seed@[k]) is Some implies candidates@.contains(value_lit(k, seed@[k]->0)) by {
                        if k < i {
                            let m = choose|m: int| 0 <= m < before.len() && before[m] == value_lit(k, seed@[k]->0);
                            assert(candidates@[m] == before[m]);
                        } else {
                            assert(candidates@[candidates@.len() - 1] == l);
                        }
                    }
                }
            },
            None => {},
        }
        i = i + 1;
    }
    proof {
        assert forall|l: Lit| forced(rules, given, l) && 0 <= l.var.index() < width implies candidates@.contains(l) by {
            let k = l.var.index();
            assert(pvalue(seed@, l) == Some(true));
            assert(seed@[k] is Some);
            assert(value_lit(k, seed@[k]->0) == l);
        }
        assert forall|l: Lit| forced(rules, given, l) && mentions(rules, l.var.index()) implies 0 <= l.var.index() < width by {
            let (j, i) = choose|j: int, i: int| 0 <= j < rules.len() && 0 <= i < rules[j].len() && #[trigger] rules[j][i].var.index() == l.var.index();
            assert(lits_below(rules[j], seed@.len() as int));
        }
    }
    let mut bb: Vec<Lit> = Vec::new();
    while candidates.len() > 0
        invariant
            solver.inv(),
            solver.rules() == rules,
            given == assumptions@,
            forall|k: int| 0 <= k < bb@.len() ==> forced(rules, given, #[trigger] bb@[k]),
            forall|l: Lit| forced(rules, given, l) && 0 <= l.var.index() < width ==> bb@.contains(l) || candidates@.contains(l),
            forall|l: Lit| forced(rules, given, l) && mentions(rules, l.var.index()) ==> 0 <= l.var.index() < width,
            solver.width(given) == width,
            seed@.len() == width,
            forall|k: int| 0 <= k < candidates@.len() ==> (#[trigger] candidates@[k]).var.index() < width,
            forall|k: int| 0 <= k < bb@.len() ==> (#[trigger] bb@[k]).var.index() < width,
            vars_ascending(candidates@),
            vars_descending(bb@),
            forall|x: int, y: int|
                0 <= x < candidates@.len() && 0 <= y < bb@.len() ==> (#[trigger] candidates@[x]).var.index() < (#[trigger] bb@[y]).var.index(),
        decreases candidates@.len(),
    {
        let ghost cands0 = candidates@;
        let lit = candidates.pop().unwrap();
        proof {
            assert(cands0 =~= candidates@.push(lit));
            assert forall|l: Lit| forced(rules, given, l) && 0 <= l.var.index() < width && !bb@.contains(l) implies candidates@.contains(l) || l == lit by {
                assert(cands0.contains(l));
                let m = choose|m: int| 0 <= m < cands0.len() && cands0[m] == l;
                if m < candidates@.len() {
                    assert(candidates@[m] == l);
                }
            }
        }
        let mut assumps: Vec<Lit> = Vec::new();
        let mut a: usize = 0;
        while a < assumptions.len()
            invariant
                a <= assumptions@.len(),
                assumps@ == assumptions@.subrange(0, a as int),
            decreases assumptions@.len() - a,
        {
            assumps.push(assumptions[a]);
            a = a + 1;
            assert(assumps@ =~= assumptions@.subrange(0, a as int));
        }
        assumps.push(lit.negate());
        let ghost flipped = assumps@;
        proof {
            assert(flipped =~= given.push(lit.neg()));
            assert(cands0[cands0.len() - 1] == lit);
            solver.lemma_width_keeps(given, lit.neg());
        }
        match solver.solve(assumps.as_slice()) {
            SolveOutcome::Unsat(_) => {
                proof {
                    assert forall|tau: spec_fn(int) -> bool| cnf_holds(tau, rules) && all_hold(tau, given) implies #[trigger] lit_holds(tau, lit) by {
                        if !lit_holds(tau, lit) {
                            assert(all_hold(tau, flipped));
                        }
                    }
                }
                let ghost before = bb@;
                bb.push(lit);
                proof {
                    assert forall|l: Lit| forced(rules, given, l) && 0 <= l.var.index() < width implies bb@.contains(l) || candidates@.contains(l) by {
                        if before.contains(l) {
                            let m = choose|m: int| 0 <= m < before.len() && before[m] == l;
                            assert(bb@[m] == l);
                        } else if l == lit {
                            assert(bb@[bb@.len() - 1] == l);
                        }
                    }
                }
            },
            SolveOutcome::Sat(other) => {
                proof {
                    assert(!forced(rules, given, lit)) by {
                        let tau = choose|tau: spec_fn(int) -> bool| cnf_holds(tau, rules) && all_hold(tau, flipped);
                        assert(lit_holds(tau, flipped[flipped.len() - 1]));
                        assert(all_hold(tau, given)) by {
                            assert forall|k: int| 0 <= k < given.len() implies lit_holds(tau, #[trigger] given[k]) by {
                                assert(flipped[k] == given[k]);
                            }
                        }
                        assert(!lit_holds(tau, lit));
                    }
                    assert forall|k: int|
                        0 <= k < given.len() && #[trigger] given[k].var.index() < other@.len() implies pvalue(other@, given[k]) == Some(true) by {
                        assert(flipped[k] == given[k]);
                    }
                    assert(satisfiable_under(rules, given)) by {
                        let tau = choose|tau: spec_fn(int) -> bool| cnf_holds(tau, rules) && all_hold(tau, flipped);
                        assert(all_hold(tau, given)) by {
                            assert forall|k: int| 0 <= k < given.len() implies lit_holds(tau, #[trigger] given[k]) by {
                                assert(flipped[k] == given[k]);
                            }
                        }
                    }
                }
                let ghost before = candidates@;
                let mut kept: Vec<Lit> = Vec::new();
                let mut c: usize = 0;
                while c < candidates.len()
                    invariant
                        c <= candidates@.len(),
                        candidates@ == before,
                        kept@.len() <= c,
                        forall|m: int| 0 <= m < kept@.len() ==> before.contains(#[trigger] kept@[m]),
                        forall|m: int|
                            0 <= m < c && pvalue(other@, #[trigger] before[m]) == Some(true) ==> kept@.contains(before[m]),
                        vars_ascending(before),
                        vars_ascending(kept@),
                        forall|m: int| 0 <= m < kept@.len() ==> exists|p: int| 0 <= p < c && #[trigger] kept@[m] == before[p],
                    decreases candidates@.len() - c,
                {
                    let cand = candidates[c];
                    if other.lit_value(cand) == Some(true) {
                        let ghost k0 = kept@;
                        kept.push(cand);
                        proof {
                            assert forall|m: int|
                                0 <= m < c + 1 && pvalue(other@, #[trigger] before[m]) == Some(true) implies kept@.contains(before[m]) by {
                                if m < c {
                                    let q = choose|q: int| 0 <= q < k0.len() && k0[q] == before[m];
                                    assert(kept@[q] == k0[q]);
                                } else {
                                    assert(kept@[kept@.len() - 1] == before[m]);
                                }
                            }
                            assert forall|m: int| 0 <= m < kept@.len() implies before.contains(#[trigger] kept@[m]) by {
                                if m < k0.len() {
                                    assert(kept@[m] == k0[m]);
                                } else {
                                    assert(before[c as int] == cand);
                                }
                            }
                        }
                    }
                    c = c + 1;
                }
                proof {
                    assert forall|l: Lit| forced(rules, given, l) && 0 <= l.var.index() < width implies bb@.contains(l) || kept@.contains(l) by {
                        if !bb@.contains(l) {
                            if l != lit {
                                let m = choose|m: int| 0 <= m < before.len() && before[m] == l;
                                if pvalue(other@, l) != Some(true) {
                                    lemma_model_refutes(other@, rules, given, l);
                                }
                            }
                        }
                    }
                }
                candidates = kept;
            },
        }
    }
    Some(bb)
}

} // verus!
