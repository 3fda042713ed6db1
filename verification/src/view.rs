//! The decoded solver view: the backward map's read model.
//!
//! Where the registry decodes one literal, [`SolverView`] decodes a whole solver
//! state into puzzle terms so a puzzle's `project` can turn it into a grid. It
//! pairs a registry with the solver artifacts to decode.
//!
//! Two backings, one read model:
//!
//! - [`SolverView::from_model`]: a completed [`Assignment`]. Every value is a
//!   settled fact of that one solution.
//! - [`SolverView::from_search`]: a live, mid-search [`Search`]. Values, decision
//!   levels and the trail are still evolving, so the view also exposes the
//!   proven/hypothetical split, the candidate lattice, the trail, the level-0
//!   facts and a failed-literal probe.

use vstd::prelude::*;

use crate::cdcl::Search;
use crate::cnf::{forced, lemma_index_injective, lemma_index_nonneg, lemma_var_at, lemma_var_at_index, Lit, Var};
use crate::registry::{distinct, index_of, Proposition, Registry};
use crate::propagate::{bcp_consistent, settles, value_lit};
use crate::solver::{pvalue, Assignment};

verus! {

broadcast use lemma_var_at, lemma_var_at_index, lemma_index_injective, lemma_index_nonneg;

/// Whether a mid-search fact is entailed by the givens alone or rests on a
/// branching guess.
#[derive(Clone, Copy, PartialEq, Eq, Debug, Structural)]
pub enum Certainty {
    /// Forced by the givens via propagation: it holds in every solution
    /// consistent with the clues.
    Proven,
    /// Placed or ruled out only under the current branching guess; it may be
    /// undone on backtrack.
    Hypothetical,
}

/// What a [`SolverView`] decodes: a completed model or a live search.
enum Backing<'a> {
    /// A completed model.
    Model(&'a Assignment),
    /// A live search.
    Search(&'a Search),
}

/// The propositions named by the literals of `lits` whose variable the
/// registry knows, with each literal's polarity, in order.
pub open spec fn decoded<K>(props: Seq<K>, lits: Seq<Lit>) -> Seq<(K, bool)>
    decreases lits.len(),
{
    if lits.len() == 0 {
        Seq::empty()
    } else {
        let prev = decoded(props, lits.drop_last());
        let l = lits.last();
        if l.var.index() < props.len() {
            prev.push((props[l.var.index()], l.positive))
        } else {
            prev
        }
    }
}

/// The literals of `lits` that `search` set at decision level 0, in order.
pub open spec fn level_zero(search: Search, lits: Seq<Lit>) -> Seq<Lit>
    decreases lits.len(),
{
    if lits.len() == 0 {
        Seq::empty()
    } else {
        let prev = level_zero(search, lits.drop_last());
        let l = lits.last();
        if search.level_spec(l.var.index()) as u32 == 0 {
            prev.push(l)
        } else {
            prev
        }
    }
}

/// A decoded window onto solver state, in a puzzle's own vocabulary.
pub struct SolverView<'a, V: Proposition> {
    registry: &'a Registry<V>,
    backing: Backing<'a>,
}

impl<'a, V: Proposition> SolverView<'a, V> {
    /// A live search backing is consistent.
    #[verifier::type_invariant]
    closed spec fn wf(self) -> bool {
        match self.backing {
            Backing::Search(s) => s.inv(),
            Backing::Model(_) => true,
        }
    }

    /// The registered propositions, by variable.
    pub closed spec fn props(&self) -> Seq<<V as View>::V> {
        self.registry@
    }

    /// Whether the view reads a live search.
    pub closed spec fn live(&self) -> bool {
        self.backing is Search
    }

    /// The search a live view reads.
    pub closed spec fn search_spec(&self) -> Search {
        match self.backing {
            Backing::Search(s) => *s,
            Backing::Model(m) => arbitrary(),
        }
    }

    /// The model a completed view reads.
    pub closed spec fn model_spec(&self) -> Seq<Option<bool>> {
        match self.backing {
            Backing::Model(m) => m@,
            Backing::Search(_) => Seq::empty(),
        }
    }

    /// The value the backing gives variable `i`.
    pub open spec fn value_at(&self, i: int) -> Option<bool> {
        if self.live() {
            if 0 <= i < self.search_spec().n() {
                self.search_spec().vals()[i]
            } else {
                None
            }
        } else if 0 <= i < self.model_spec().len() {
            self.model_spec()[i]
        } else {
            None
        }
    }

    /// The decision level at which variable `i` holds: its search level, or 0
    /// for an assigned variable of a model.
    pub open spec fn level_at(&self, i: int) -> Option<int> {
        match self.value_at(i) {
            None => None,
            Some(_) => if self.live() {
                Some(self.search_spec().level_spec(i) as u32 as int)
            } else {
                Some(0)
            },
        }
    }

    /// The boundary between proven and hypothetical facts.
    pub open spec fn base(&self) -> int {
        if self.live() {
            self.search_spec().base_level_spec()
        } else {
            0
        }
    }

    /// The variable of proposition `k`, if registered.
    pub open spec fn slot(&self, k: <V as View>::V) -> Option<int> {
        if self.props().contains(k) {
            Some(index_of(self.props(), k))
        } else {
            None
        }
    }

    /// The value of proposition `k`.
    pub open spec fn value_of_spec(&self, k: <V as View>::V) -> Option<bool> {
        match self.slot(k) {
            Some(i) => self.value_at(i),
            None => None,
        }
    }

    /// The level of proposition `k`.
    pub open spec fn level_of_spec(&self, k: <V as View>::V) -> Option<int> {
        match self.slot(k) {
            Some(i) => self.level_at(i),
            None => None,
        }
    }

    /// A view over a completed model.
    pub fn from_model(registry: &'a Registry<V>, assignment: &'a Assignment) -> (view: Self)
        ensures
            view.props() == registry@,
            !view.live(),
            view.model_spec() == assignment@,
    {
        SolverView { registry, backing: Backing::Model(assignment) }
    }

    /// A view over a live, mid-search [`Search`].
    pub fn from_search(registry: &'a Registry<V>, search: &'a Search) -> (view: Self)
        requires
            search.inv(),
        ensures
            view.props() == registry@,
            view.live(),
            view.search_spec() == *search,
    {
        SolverView { registry, backing: Backing::Search(search) }
    }

    /// The registry backing this view.
    pub fn registry(&self) -> (r: &Registry<V>)
        ensures
            r@ == self.props(),
    {
        self.registry
    }

    /// The variable of `v`, when registered.
    fn var_of(&self, v: &V) -> (r: Option<Var>)
        ensures
            match r {
                Some(var) => self.slot(v@) == Some(var.index()),
                None => self.slot(v@) is None,
            },
    {
        let r = self.registry.get(v);
        self.registry.lemma_wf();
        proof {
            if let Some(var) = r {
                let i = index_of(self.props(), v@);
                assert(self.props()[var.index()] == v@);
                assert(self.props().contains(v@));
            }
        }
        r
    }

    /// The value at variable `var`.
    fn value_var(&self, var: Var) -> (r: Option<bool>)
        ensures
            r == self.value_at(var.index()),
    {
        proof {
            use_type_invariant(self);
        }
        match self.backing {
            Backing::Model(model) => model.var_value(var),
            Backing::Search(search) => search.value_of(var),
        }
    }

    /// The truth value assigned to proposition `v`: `Some(true)` if it holds,
    /// `Some(false)` if ruled out, `None` if unregistered or unassigned.
    pub fn value(&self, v: &V) -> (r: Option<bool>)
        ensures
            r == self.value_of_spec(v@),
    {
        match self.var_of(v) {
            Some(var) => self.value_var(var),
            None => None,
        }
    }

    /// Whether `v` is still possible: registered and not ruled out.
    pub fn is_candidate(&self, v: &V) -> (b: bool)
        ensures
            b == (self.slot(v@) is Some && self.value_of_spec(v@) != Some(false)),
    {
        match self.var_of(v) {
            Some(var) => self.value_var(var) != Some(false),
            None => false,
        }
    }

    /// The decision level at which `v` holds, or `None` if unassigned or
    /// unregistered; 0 for any decided proposition of a model.
    fn level(&self, v: &V) -> (r: Option<u32>)
        ensures
            match r {
                Some(l) => self.level_of_spec(v@) == Some(l as int),
                None => self.level_of_spec(v@) is None,
            },
    {
        proof {
            use_type_invariant(self);
        }
        match self.var_of(v) {
            Some(var) => match self.backing {
                Backing::Model(model) => match model.var_value(var) {
                    Some(_) => Some(0),
                    None => None,
                },
                Backing::Search(search) => search.level_of(var),
            },
            None => None,
        }
    }

    /// A search's deepest given level, or 0 for a completed model.
    pub fn base_level(&self) -> (b: u32)
        ensures
            b == self.base(),
    {
        proof {
            use_type_invariant(self);
        }
        match self.backing {
            Backing::Model(_) => 0,
            Backing::Search(search) => search.base_level(),
        }
    }

    /// Whether `v`'s assignment is proven (at or below the base level) or
    /// hypothetical. An unassigned or unregistered proposition reports
    /// `Hypothetical`; a completed model reports every decided fact `Proven`.
    pub fn certainty(&self, v: &V) -> (c: Certainty)
        ensures
            c == if self.level_of_spec(v@) matches Some(l) && l <= self.base() {
                Certainty::Proven
            } else {
                Certainty::Hypothetical
            },
    {
        let base = self.base_level();
        match self.level(v) {
            Some(level) => if level <= base {
                Certainty::Proven
            } else {
                Certainty::Hypothetical
            },
            None => Certainty::Hypothetical,
        }
    }

    /// Whether `v` is ruled out only under the current guess: false above the
    /// base level.
    pub fn eliminated_under_guess(&self, v: &V) -> (b: bool)
        ensures
            b == (self.value_of_spec(v@) == Some(false) && (self.level_of_spec(v@) matches Some(l) && l > self.base())),
    {
        if self.value(v) != Some(false) {
            return false;
        }
        let base = self.base_level();
        match self.level(v) {
            Some(level) => level > base,
            None => false,
        }
    }

    /// The propositions of the search trail in the order they were set, with
    /// their values; auxiliary variables are dropped. Empty for a model.
    pub fn trail(&self) -> (t: Vec<(V, bool)>)
        ensures
            t@.len() == if self.live() {
                decoded(self.props(), self.search_spec().trail_spec()).len()
            } else {
                0
            },
            self.live() ==> forall|i: int|
                0 <= i < t@.len() ==> ((#[trigger] t@[i]).0@, t@[i].1) == decoded(self.props(), self.search_spec().trail_spec())[i],
    {
        proof {
            use_type_invariant(self);
        }
        let mut out: Vec<(V, bool)> = Vec::new();
        match self.backing {
            Backing::Model(_) => {},
            Backing::Search(search) => {
                let lits = search.trail();
                let ghost props = self.props();
                let mut i: usize = 0;
                while i < lits.len()
                    invariant
                        props == self.props(),
                        self.live(),
                        self.search_spec() == *search,
                        lits@ == search.trail_spec(),
                        i <= lits@.len(),
                        out@.len() == decoded(props, lits@.subrange(0, i as int)).len(),
                        forall|k: int|
                            0 <= k < out@.len() ==> ((#[trigger] out@[k]).0@, out@[k].1) == decoded(props, lits@.subrange(0, i as int))[k],
                    decreases lits@.len() - i,
                {
                    let ghost before = out@;
                    assert(lits@.subrange(0, i + 1).drop_last() =~= lits@.subrange(0, i as int));
                    match self.registry.decode(lits[i]) {
                        Some(d) => {
                            out.push(d);
                        },
                        None => {},
                    }
                    i = i + 1;
                    proof {
                        let dn = decoded(props, lits@.subrange(0, i as int));
                        assert forall|k: int| 0 <= k < out@.len() implies ((#[trigger] out@[k]).0@, out@[k].1) == dn[k] by {
                            if k < before.len() {
                                assert(out@[k] == before[k]);
                            }
                        }
                    }
                }
                assert(lits@.subrange(0, i as int) =~= lits@);
            },
        }
        out
    }

    /// The propositions fixed at decision level 0, the facts the rules alone
    /// force before any given or guess, in trail order. Empty for a model.
    pub fn fixed(&self) -> (t: Vec<(V, bool)>)
        ensures
            !self.live() ==> t@.len() == 0,
            self.live() ==> forall|i: int|
                0 <= i < t@.len() ==> {
                    &&& self.props().contains((#[trigger] t@[i]).0@)
                    &&& self.value_of_spec(t@[i].0@) == Some(t@[i].1)
                    &&& self.level_of_spec(t@[i].0@) == Some(0int)
                },
            self.live() ==> t@.len() == decoded(
                self.props(),
                level_zero(self.search_spec(), self.search_spec().trail_spec()),
            ).len(),
            self.live() ==> forall|i: int|
                0 <= i < t@.len() ==> ((#[trigger] t@[i]).0@, t@[i].1) == decoded(
                    self.props(),
                    level_zero(self.search_spec(), self.search_spec().trail_spec()),
                )[i],
    {
        proof {
            use_type_invariant(self);
        }
        self.registry.lemma_wf();
        let mut out: Vec<(V, bool)> = Vec::new();
        match self.backing {
            Backing::Model(_) => {},
            Backing::Search(search) => {
                let lits = search.trail();
                proof {
                    search.lemma_trail_values();
                }
                let mut i: usize = 0;
                while i < lits.len()
                    invariant
                        self.live(),
                        self.search_spec() == *search,
                        search.inv(),
                        distinct(self.props()),
                        lits@ == search.trail_spec(),
                        forall|t: int|
                            0 <= t < lits@.len() ==> {
                                &&& (#[trigger] lits@[t]).var.index() < search.n()
                                &&& search.vals()[lits@[t].var.index()] == Some(lits@[t].positive)
                            },
                        i <= lits@.len(),
                        forall|k: int|
                            0 <= k < out@.len() ==> {
                                &&& self.props().contains((#[trigger] out@[k]).0@)
                                &&& self.value_of_spec(out@[k].0@) == Some(out@[k].1)
                                &&& self.level_of_spec(out@[k].0@) == Some(0int)
                            },
                        out@.len() == decoded(self.props(), level_zero(*search, lits@.subrange(0, i as int))).len(),
                        forall|k: int|
                            0 <= k < out@.len() ==> ((#[trigger] out@[k]).0@, out@[k].1) == decoded(
                                self.props(),
                                level_zero(*search, lits@.subrange(0, i as int)),
                            )[k],
                    decreases lits@.len() - i,
                {
                    let ghost before = out@;
                    let ghost i0 = i as int;
                    let ghost prevz = level_zero(*search, lits@.subrange(0, i0));
                    assert(lits@.subrange(0, i0 + 1).drop_last() =~= lits@.subrange(0, i0));
                    assert(lits@.subrange(0, i0 + 1).last() == lits@[i0]);
                    assert(level_zero(*search, lits@.subrange(0, i0 + 1)) == if search.level_spec(lits@[i0].var.index()) as u32
                        == 0 {
                        prevz.push(lits@[i0])
                    } else {
                        prevz
                    });
                    assert(prevz.push(lits@[i0]).drop_last() =~= prevz);
                    let lit = lits[i];
                    if search.level_of(lit.var()) == Some(0) {
                        match self.registry.decode(lit) {
                            Some(d) => {
                                proof {
                                    let j = lit.var.index();
                                    assert(self.props()[j] == d.0@);
                                    assert(self.props().contains(d.0@));
                                    let s = index_of(self.props(), d.0@);
                                    assert(s == j);
                                }
                                out.push(d);
                            },
                            None => {},
                        }
                    }
                    i = i + 1;
                    proof {
                        let dn = decoded(self.props(), level_zero(*search, lits@.subrange(0, i as int)));
                        assert forall|k: int| 0 <= k < out@.len() implies ((#[trigger] out@[k]).0@, out@[k].1) == dn[k] by {
                            if k < before.len() {
                                assert(out@[k] == before[k]);
                            }
                        }
                    }
                }
                assert(lits@.subrange(0, i as int) =~= lits@);
            },
        }
        out
    }

    /// Failed-literal probe: is asserting `v` with polarity `holds` refuted by
    /// what is currently known?
    ///
    /// For a model this is exact: the literal contradicts the model. For a live
    /// search it is a statement about the present tentative state: `true` means
    /// unit propagation over the current trail conflicts. An unregistered
    /// proposition is never refuted.
    pub fn probe(&self, v: &V, holds: bool) -> (refuted: bool)
        requires
            self.live() && self.slot(v@) is Some ==> self.slot(v@)->0 < self.search_spec().n(),
        ensures
            self.slot(v@) is None ==> !refuted,
            !self.live() && self.slot(v@) is Some ==> refuted == (self.value_of_spec(v@) == Some(!holds)),
            self.live() && self.slot(v@) is Some && self.value_of_spec(v@) is Some ==> refuted == (self.value_of_spec(v@) == Some(!holds)),
            self.live() && refuted ==> self.slot(v@) is Some,
            self.live() && refuted ==> forced(
                self.search_spec().rules(),
                self.search_spec().trail_spec(),
                value_lit(self.slot(v@)->0, !holds),
            ),
            self.live() && refuted ==> !bcp_consistent(
                self.search_spec().db(),
                self.search_spec().trail_spec().push(value_lit(self.slot(v@)->0, holds)),
            ),
            self.live() && self.slot(v@) is Some && self.value_of_spec(v@) is None ==> refuted == !settles(
                self.search_spec().db(),
                self.search_spec().vals(),
                self.search_spec().vals().update(self.slot(v@)->0, Some(holds)),
            ),
            self.live() && self.slot(v@) is Some && !refuted && self.search_spec().quiescent() ==> bcp_consistent(
                self.search_spec().db(),
                self.search_spec().trail_spec().push(value_lit(self.slot(v@)->0, holds)),
            ),
    {
        proof {
            use_type_invariant(self);
        }
        let var = match self.var_of(v) {
            Some(var) => var,
            None => {
                return false;
            },
        };
        let lit = if holds {
            var.pos_lit()
        } else {
            var.neg_lit()
        };
        match self.backing {
            Backing::Model(model) => {
                assert(!self.live());
                model.lit_value(lit) == Some(false)
            },
            Backing::Search(search) => {
                proof {
                    search.lemma_inv_facts();
                }
                let r = search.probe(lit);
                assert(pvalue(search.vals(), lit) is Some ==> r == (pvalue(search.vals(), lit) == Some(false)));
                assert(lit == value_lit(self.slot(v@)->0, holds));
                assert(lit.neg() == value_lit(self.slot(v@)->0, !holds));
                r
            },
        }
    }
}

} // verus!
