//! The stepping controller: the bridge between the observable CDCL and a view.
//!
//! A [`Stepper`] owns a [`Search`] and drives it one [`Event`] at a time, so a
//! frontend can advance the solver and read its evolving state. It is generic
//! over the puzzle's proposition type, so one stepper drives every puzzle; the
//! only puzzle-shaped part is the Sudoku event narration at the end.

use vstd::prelude::*;

use crate::cdcl::{all_false, event_verdict, next_decision, unit_at, Cdcl, Event, Search};
use crate::cnf::{
    clause, entails, forced, var_at, lemma_index_injective, lemma_index_nonneg, lemma_var_at, lemma_var_at_index, Clause, Lit, Var,
};
use crate::propagate::value_lit;
use crate::registry::{distinct, index_of, keys_of, Proposition, Registry};
use crate::sudoku::Cell;
use crate::text::{decimal, push_decimal, push_str};
use crate::view::{decoded, Certainty, SolverView};

verus! {

broadcast use lemma_var_at, lemma_var_at_index, lemma_index_injective, lemma_index_nonneg;

/// Which cells the last event wants the Sudoku renderer to emphasize.
#[derive(Debug, Clone)]
pub enum Emphasis {
    /// Nothing in particular.
    Nothing,
    /// A decision or propagation target, or the cells of a conflict clause.
    Cells(Vec<(usize, usize)>),
}

/// The status line shown before the first step, shared across puzzle views.
pub const READY: &'static str = "Ready — press Step or Play to watch the solver.";

/// The status text for the puzzle-agnostic solver events.
pub open spec fn phase_text(event: Event) -> Option<Seq<char>> {
    match event {
        Event::Conflict { .. } => Some("Conflict — analyzing and backtracking."@),
        Event::Backtrack { to_level } => Some("Backtrack to level "@ + decimal(to_level as nat) + "."@),
        Event::Learn { clause } => Some("Learned a clause ("@ + decimal(clause@.len()) + " literals)."@),
        _ => None,
    }
}

/// The status phrase for the puzzle-agnostic solver events (conflict,
/// backtrack, learn); `None` for the events a view names in its own vocabulary
/// (decide, propagate, sat, unsat).
pub fn solver_phase(event: &Event) -> (r: Option<String>)
    ensures
        r is Some <==> phase_text(*event) is Some,
        r matches Some(s) ==> s@ == phase_text(*event)->0,
{
    match event {
        Event::Conflict { .. } => {
            let mut s = String::new();
            push_str(&mut s, "Conflict — analyzing and backtracking.");
            Some(s)
        },
        Event::Backtrack { to_level } => {
            let mut s = String::new();
            push_str(&mut s, "Backtrack to level ");
            push_decimal(&mut s, *to_level as u64);
            push_str(&mut s, ".");
            Some(s)
        },
        Event::Learn { clause } => {
            let mut s = String::new();
            push_str(&mut s, "Learned a clause (");
            push_decimal(&mut s, clause.len() as u64);
            push_str(&mut s, " literals).");
            Some(s)
        },
        _ => None,
    }
}

/// The literals the event `ev` names over `search`: a decision or propagation
/// target, or a conflict clause.
pub open spec fn touched_lits(ev: Option<Event>, search: Search) -> Seq<Lit> {
    match ev {
        Some(Event::Decide { lit }) => seq![lit],
        Some(Event::Propagate { lit, .. }) => seq![lit],
        Some(Event::Conflict { clause }) => search.db()[clause as int],
        _ => Seq::empty(),
    }
}

/// The literals of an UNSAT core the event `ev` carries.
pub open spec fn core_lits(ev: Option<Event>) -> Seq<Lit> {
    match ev {
        Some(Event::Unsat { core }) => core@,
        _ => Seq::empty(),
    }
}

/// The propositions the literals `lits` name, in order, auxiliaries dropped.
pub open spec fn named<K>(props: Seq<K>, lits: Seq<Lit>) -> Seq<K> {
    decoded(props, lits).map_values(|f: (K, bool)| f.0)
}

/// The value a search gives proposition `k` of `props`.
pub open spec fn live_value<K>(props: Seq<K>, search: Search, k: K) -> Option<bool> {
    if props.contains(k) && index_of(props, k) < search.n() {
        search.vals()[index_of(props, k)]
    } else {
        None
    }
}

/// The decision level at which a search set proposition `k` of `props`.
pub open spec fn live_level<K>(props: Seq<K>, search: Search, k: K) -> Option<int> {
    if props.contains(k) && index_of(props, k) < search.n() && search.vals()[index_of(props, k)] is Some {
        Some(search.level_spec(index_of(props, k)) as u32 as int)
    } else {
        None
    }
}

/// Drives a [`Search`] event by event and hands its state to a puzzle view.
pub struct Stepper<V: Proposition> {
    reg: Registry<V>,
    search: Search,
    last: Option<Event>,
    /// Whether the frontend is auto-advancing (owned here so it can toggle it).
    pub playing: bool,
    /// How many events the stepper has taken from its search.
    taken: Ghost<nat>,
}

impl<V: Proposition> Stepper<V> {
    /// The registered propositions.
    pub closed spec fn props(&self) -> Seq<<V as View>::V> {
        self.reg@
    }

    /// The search being driven.
    pub closed spec fn search_spec(&self) -> Search {
        self.search
    }

    /// The last event, if any step has been taken.
    pub closed spec fn last_spec(&self) -> Option<Event> {
        self.last
    }

    /// Whether the frontend is auto-advancing.
    pub closed spec fn auto_play(&self) -> bool {
        self.playing
    }

    /// How many events the stepper has taken from its search.
    pub closed spec fn events_taken(&self) -> nat {
        self.taken@
    }

    /// The search is consistent, and a conflict event names a clause it holds.
    pub closed spec fn wf(&self) -> bool {
        &&& self.search.inv()
        &&& self.last matches Some(Event::Conflict { clause }) ==> clause < self.search.db().len()
        &&& self.last matches Some(Event::Sat) ==> self.search.sat_facts()
        &&& self.last matches Some(Event::Unsat { core }) ==> self.search.unsat_facts(core@)
        &&& self.last matches Some(ev) ==> self.search.verdict() == event_verdict(ev)
    }

    /// A stepper whose last event was a verdict has finished its search, and it
    /// holds that verdict; a stepper still searching last reported a move.
    pub proof fn lemma_verdict_final(&self)
        requires
            self.wf(),
        ensures
            self.last_spec() matches Some(ev) ==> (self.search_spec().done() <==> (ev is Sat || ev is Unsat)),
            self.last_spec() matches Some(ev) ==> self.search_spec().verdict() == event_verdict(ev),
    {
        self.search.lemma_levels();
    }

    /// Begin a fresh stepped search over `assumptions` (the current givens).
    pub fn new(cdcl: &Cdcl, reg: Registry<V>, assumptions: &[Lit]) -> (s: Self)
        requires
            cdcl.wf(),
        ensures
            s.wf(),
            s.props() == reg@,
            s.search_spec().rules() == cdcl.rules_spec(),
            s.search_spec().given() == assumptions@,
            s.search_spec().trail_spec().len() == 0,
            !s.search_spec().done(),
            s.last_spec() is None,
            !s.auto_play(),
            s.events_taken() == 0,
    {
        let search = cdcl.search(assumptions);
        Stepper { reg, search, last: None, playing: false, taken: Ghost(0) }
    }

    /// Advance by one event, unless already terminal.
    pub fn step(&mut self)
        requires
            old(self).wf(),
        ensures
            final(self).wf(),
            final(self).props() == old(self).props(),
            final(self).auto_play() == old(self).auto_play(),
            final(self).search_spec().rules() == old(self).search_spec().rules(),
            final(self).search_spec().given() == old(self).search_spec().given(),
            old(self).search_spec().done() ==> *final(self) == *old(self),
            !old(self).search_spec().done() ==> final(self).events_taken() == old(self).events_taken() + 1,
            !old(self).search_spec().done() ==> (final(self).last_spec() matches Some(ev) && (final(self).search_spec().done()
                <==> (ev is Sat || ev is Unsat))),
            final(self).last_spec() matches Some(Event::Sat) ==> final(self).search_spec().sat_facts(),
            final(self).last_spec() matches Some(Event::Unsat { core }) ==> final(self).search_spec().unsat_facts(core@),
            !old(self).search_spec().done() ==> (final(self).last_spec() matches Some(Event::Decide { lit }) ==> {
                &&& final(self).search_spec().trail_spec() == old(self).search_spec().trail_spec().push(lit)
                &&& next_decision(old(self).search_spec().vals(), old(self).search_spec().given(), lit)
                &&& final(self).search_spec().records_decision(old(self).search_spec(), lit)
            }),
            !old(self).search_spec().done() ==> (final(self).last_spec() matches Some(Event::Propagate { lit, reason }) ==> {
                &&& final(self).search_spec().trail_spec() == old(self).search_spec().trail_spec().push(lit)
                &&& reason < final(self).search_spec().db().len()
                &&& exists|u: int|
                    unit_at(old(self).search_spec().vals(), final(self).search_spec().db()[reason as int], u)
                        && final(self).search_spec().db()[reason as int][u] == lit
            }),
            !old(self).search_spec().done() ==> (final(self).last_spec() matches Some(Event::Conflict { clause }) ==> {
                &&& clause < final(self).search_spec().db().len()
                &&& all_false(final(self).search_spec().vals(), final(self).search_spec().db()[clause as int])
                &&& final(self).search_spec().trail_spec() == old(self).search_spec().trail_spec()
            }),
            !old(self).search_spec().done() ==> (final(self).last_spec() matches Some(Event::Learn { clause }) ==> {
                &&& final(self).search_spec().db() == old(self).search_spec().db().push(clause@)
                &&& entails(final(self).search_spec().rules(), clause@)
                &&& final(self).search_spec().learned_asserting()
            }),
            !old(self).search_spec().done() ==> (final(self).last_spec() matches Some(Event::Backtrack { to_level }) ==> {
                &&& final(self).search_spec().dl() == to_level
                &&& (to_level as int) < old(self).search_spec().dl()
            }),
    {
        if self.search.is_done() {
            return;
        }
        let ev = self.search.step();
        self.last = Some(ev);
        self.taken = Ghost(self.taken@ + 1);
    }

    /// Whether the search has reached SAT or UNSAT.
    pub fn is_done(&self) -> (b: bool)
        ensures
            b == self.search_spec().done(),
    {
        self.search.is_done()
    }

    /// Whether the search finished by finding a solution: the last event was
    /// `Sat`.
    pub fn is_solved(&self) -> (b: bool)
        ensures
            b == (self.last_spec() matches Some(Event::Sat)),
    {
        match &self.last {
            Some(Event::Sat) => true,
            _ => false,
        }
    }

    /// A [`SolverView`] over the live search, for a puzzle's `project` to decode
    /// the mid-search state.
    pub fn view(&self) -> (v: SolverView<'_, V>)
        requires
            self.wf(),
        ensures
            v.props() == self.props(),
            v.live(),
            v.search_spec() == self.search_spec(),
    {
        SolverView::from_search(&self.reg, &self.search)
    }

    /// The last event, for a view to name in its own vocabulary.
    pub fn last_event(&self) -> (e: Option<&Event>)
        ensures
            e is None <==> self.last_spec() is None,
            e matches Some(ev) ==> self.last_spec() == Some(*ev),
    {
        self.last.as_ref()
    }

    /// The deepest decision level a given occupies: the boundary between proven
    /// and hypothetical mid-search facts.
    pub fn base_level(&self) -> (b: u32)
        requires
            self.wf(),
        ensures
            b == self.search_spec().base_level_spec(),
    {
        self.search.base_level()
    }

    /// The truth value the search currently gives `prop`: `Some(true)` if set,
    /// `Some(false)` if ruled out, `None` if undecided or unregistered.
    pub fn value(&self, prop: &V) -> (r: Option<bool>)
        requires
            self.wf(),
        ensures
            r == live_value(self.props(), self.search_spec(), prop@),
    {
        let view = self.view();
        view.value(prop)
    }

    /// The truth value of `prop` and the decision level it was set at, if
    /// assigned.
    pub fn assigned(&self, prop: &V) -> (r: Option<(bool, u32)>)
        requires
            self.wf(),
        ensures
            r is Some <==> live_value(self.props(), self.search_spec(), prop@) is Some,
            r matches Some((b, l)) ==> live_value(self.props(), self.search_spec(), prop@) == Some(b)
                && live_level(self.props(), self.search_spec(), prop@) == Some(l as int),
    {
        self.reg.lemma_wf();
        match self.reg.get(prop) {
            Some(var) => {
                proof {
                    crate::registry::lemma_decode_after_lit(self.reg@, prop@, var.index());
                }
                match self.search.value_of(var) {
                    Some(b) => match self.search.level_of(var) {
                        Some(l) => Some((b, l)),
                        None => None,
                    },
                    None => None,
                }
            },
            None => None,
        }
    }

    /// Whether `prop`'s current assignment is proven (set at or below the givens'
    /// base level) or hypothetical (above it); an unassigned proposition reports
    /// `Hypothetical`.
    pub fn certainty(&self, prop: &V) -> (c: Certainty)
        requires
            self.wf(),
        ensures
            c == if live_level(self.props(), self.search_spec(), prop@) matches Some(l) && l
                <= self.search_spec().base_level_spec() {
                Certainty::Proven
            } else {
                Certainty::Hypothetical
            },
    {
        self.view().certainty(prop)
    }

    /// The propositions the last event touches: a decision or propagation
    /// target, or the propositions of a conflict clause.
    pub fn touched_props(&self) -> (r: Vec<V>)
        requires
            self.wf(),
        ensures
            keys_of(r@) == named(self.props(), touched_lits(self.last_spec(), self.search_spec())),
    {
        let ghost props = self.reg@;
        match &self.last {
            Some(Event::Decide { lit }) => {
                let mut one: Vec<Lit> = Vec::new();
                one.push(*lit);
                assert(one@ =~= seq![*lit]);
                self.decode_all(one.as_slice())
            },
            Some(Event::Propagate { lit, .. }) => {
                let mut one: Vec<Lit> = Vec::new();
                one.push(*lit);
                assert(one@ =~= seq![*lit]);
                self.decode_all(one.as_slice())
            },
            Some(Event::Conflict { clause }) => self.decode_all(self.search.clause_lits(*clause)),
            _ => {
                let r: Vec<V> = Vec::new();
                assert(keys_of(r@) =~= named(props, Seq::<Lit>::empty()));
                r
            },
        }
    }

    /// On UNSAT, the propositions the core names; empty otherwise.
    pub fn core_props(&self) -> (r: Vec<V>)
        ensures
            keys_of(r@) == named(self.props(), core_lits(self.last_spec())),
    {
        match &self.last {
            Some(Event::Unsat { core }) => self.decode_all(core.as_slice()),
            _ => {
                let r: Vec<V> = Vec::new();
                assert(keys_of(r@) =~= named(self.props(), Seq::<Lit>::empty()));
                r
            },
        }
    }

    /// The propositions `lits` name, in order, auxiliaries dropped.
    fn decode_all(&self, lits: &[Lit]) -> (r: Vec<V>)
        ensures
            keys_of(r@) == named(self.props(), lits@),
    {
        let mut r: Vec<V> = Vec::new();
        let mut i: usize = 0;
        while i < lits.len()
            invariant
                i <= lits@.len(),
                keys_of(r@) == named(self.props(), lits@.subrange(0, i as int)),
            decreases lits@.len() - i,
        {
            let ghost before = r@;
            match self.reg.decode(lits[i]) {
                Some((v, _)) => {
                    r.push(v);
                },
                None => {},
            }
            proof {
                assert(lits@.subrange(0, i + 1).drop_last() =~= lits@.subrange(0, i as int));
                crate::registry::lemma_keys_push(before, r@.last());
                assert(keys_of(r@) =~= named(self.props(), lits@.subrange(0, i + 1)));
            }
            i = i + 1;
        }
        assert(lits@.subrange(0, i as int) =~= lits@);
        r
    }

    /// Decode a literal to its proposition and polarity, or `None` for an
    /// auxiliary variable.
    pub fn decode(&self, lit: Lit) -> (r: Option<(V, bool)>)
        ensures
            match r {
                Some((v, holds)) => lit.var.index() < self.props().len() && v@ == self.props()[lit.var.index()]
                    && holds == lit.positive,
                None => lit.var.index() >= self.props().len(),
            },
    {
        self.reg.decode(lit)
    }
}

/// The negations of the variables among the first `k` that `vals` makes true,
/// in variable order.
pub open spec fn blocking_lits(vals: Seq<Option<bool>>, k: int) -> Seq<Lit>
    decreases k,
{
    if k <= 0 {
        Seq::empty()
    } else if vals[k - 1] == Some(true) {
        blocking_lits(vals, k - 1).push(value_lit(k - 1, false))
    } else {
        blocking_lits(vals, k - 1)
    }
}

/// Every literal of `blocking_lits(vals, k)` negates a variable below `k` that
/// `vals` makes true.
proof fn lemma_blocking_lits(vals: Seq<Option<bool>>, k: int)
    requires
        0 <= k <= vals.len(),
        k <= u32::MAX,
    ensures
        forall|i: int|
            0 <= i < blocking_lits(vals, k).len() ==> {
                let l = #[trigger] blocking_lits(vals, k)[i];
                &&& !l.positive
                &&& 0 <= l.var.index() < k
                &&& vals[l.var.index()] == Some(true)
            },
    decreases k,
{
    if k > 0 {
        lemma_blocking_lits(vals, k - 1);
        let prev = blocking_lits(vals, k - 1);
        assert forall|i: int| 0 <= i < blocking_lits(vals, k).len() implies {
            let l = #[trigger] blocking_lits(vals, k)[i];
            &&& !l.positive
            &&& 0 <= l.var.index() < k
            &&& vals[l.var.index()] == Some(true)
        } by {
            if i < prev.len() {
                assert(blocking_lits(vals, k)[i] == prev[i]);
            } else {
                assert(var_at(k - 1).index() == k - 1);
            }
        }
    }
}

impl<V: Proposition> Stepper<V> {
    /// One frame of auto-play: while playing and not finished, advance by
    /// `speed` events, stopping early, and switching play off, as soon as the
    /// search finishes. Returns whether the stepper was playing and so advanced.
    pub fn play_frame(&mut self, speed: usize) -> (advanced: bool)
        requires
            old(self).wf(),
        ensures
            final(self).wf(),
            advanced == (old(self).auto_play() && !old(self).search_spec().done()),
            !advanced ==> *final(self) == *old(self),
            advanced ==> (final(self).auto_play() <==> !final(self).search_spec().done()),
            advanced && !final(self).search_spec().done() ==> final(self).events_taken() == old(self).events_taken() + speed,
            advanced && final(self).search_spec().done() ==> old(self).events_taken() + 1 <= final(self).events_taken()
                <= old(self).events_taken() + speed,
            advanced && speed > 0 ==> final(self).last_spec() is Some,
            final(self).props() == old(self).props(),
            final(self).search_spec().rules() == old(self).search_spec().rules(),
            final(self).search_spec().given() == old(self).search_spec().given(),
    {
        if !self.playing || self.is_done() {
            return false;
        }
        let mut k: usize = 0;
        while k < speed
            invariant
                self.wf(),
                self.playing,
                !self.search_spec().done(),
                old(self).auto_play(),
                !old(self).search_spec().done(),
                self.props() == old(self).props(),
                self.search_spec().rules() == old(self).search_spec().rules(),
                self.search_spec().given() == old(self).search_spec().given(),
                k <= speed,
                self.events_taken() == old(self).events_taken() + k,
                k > 0 ==> self.last_spec() is Some,
            decreases speed - k,
        {
            self.step();
            if self.is_done() {
                self.playing = false;
                return true;
            }
            k = k + 1;
        }
        true
    }

    /// The clause that rules out the solution just found: the negation of every
    /// registered proposition the solution makes true, in variable order. Any
    /// other full solution differs on one of them and so satisfies it; the one
    /// found falsifies it. `None` unless the search finished with a solution.
    pub fn blocking_clause(&self) -> (c: Option<Clause>)
        requires
            self.wf(),
        ensures
            c is Some <==> self.last_spec() matches Some(Event::Sat),
            c matches Some(cl) ==> cl@ == blocking_lits(
                self.search_spec().vals(),
                if self.props().len() < self.search_spec().n() {
                    self.props().len() as int
                } else {
                    self.search_spec().n() as int
                },
            ),
            c matches Some(cl) ==> all_false(self.search_spec().vals(), cl@),
    {
        if !self.is_solved() {
            return None;
        }
        let model = self.search.assignment();
        proof {
            self.search.lemma_inv_facts();
        }
        let limit = if self.reg.len() < model.len() {
            self.reg.len()
        } else {
            model.len()
        };
        let ghost vals = self.search_spec().vals();
        let mut lits: Vec<Lit> = Vec::new();
        let mut i: usize = 0;
        while i < limit
            invariant
                i <= limit,
                limit <= vals.len(),
                vals.len() <= crate::cnf::MAX_VAR_IDX + 1,
                model@ == vals,
                lits@ == blocking_lits(vals, i as int),
            decreases limit - i,
        {
            let var = Var::new(i as u32);
            if model.var_value(var) == Some(true) {
                lits.push(var.neg_lit());
            }
            i = i + 1;
        }
        proof {
            lemma_blocking_lits(vals, limit as int);
        }
        Some(clause(lits.as_slice()))
    }
}

/// What the stepper reports as proven holds: a proposition whose current
/// assignment sits at or below the base level (the deepest level a given
/// occupies) has that value in every solution consistent with the givens.
pub proof fn lemma_proven_holds<V: Proposition>(st: &Stepper<V>, k: <V as View>::V)
    requires
        st.wf(),
        live_level(st.props(), st.search_spec(), k) matches Some(l) && l <= st.search_spec().base_level_spec(),
    ensures
        live_value(st.props(), st.search_spec(), k) is Some,
        forced(
            st.search_spec().rules(),
            st.search_spec().given(),
            value_lit(index_of(st.props(), k), live_value(st.props(), st.search_spec(), k)->0),
        ),
{
    st.search_spec().lemma_proven_forced(index_of(st.props(), k));
}

/// `a` comes strictly before `b` in lexicographic order.
pub open spec fn pair_lt(a: (usize, usize), b: (usize, usize)) -> bool {
    a.0 < b.0 || (a.0 == b.0 && a.1 < b.1)
}

/// `s` is strictly increasing in lexicographic order: sorted, no repeats.
pub open spec fn strictly_sorted_pairs(s: Seq<(usize, usize)>) -> bool {
    forall|i: int, j: int| 0 <= i < j < s.len() ==> pair_lt(s[i], s[j])
}

/// The distinct elements of `v`, sorted.
pub fn sort_dedup_pairs(v: &Vec<(usize, usize)>) -> (r: Vec<(usize, usize)>)
    ensures
        strictly_sorted_pairs(r@),
        forall|p: (usize, usize)| r@.contains(p) <==> v@.contains(p),
{
    let mut out: Vec<(usize, usize)> = Vec::new();
    let mut i: usize = 0;
    while i < v.len()
        invariant
            i <= v@.len(),
            strictly_sorted_pairs(out@),
            forall|p: (usize, usize)| out@.contains(p) <==> v@.subrange(0, i as int).contains(p),
        decreases v@.len() - i,
    {
        let x = v[i];
        let mut p: usize = 0;
        while p < out.len() && (out[p].0 < x.0 || (out[p].0 == x.0 && out[p].1 < x.1))
            invariant
                p <= out@.len(),
                forall|q: int| 0 <= q < p ==> pair_lt(#[trigger] out@[q], x),
            decreases out@.len() - p,
        {
            p = p + 1;
        }
        let ghost before = out@;
        let ghost w = v@.subrange(0, i + 1);
        let ghost w0 = v@.subrange(0, i as int);
        assert(w =~= w0.push(x));
        if p < out.len() && out[p].0 == x.0 && out[p].1 == x.1 {
            assert(out@[p as int] == x);
            assert forall|y: (usize, usize)| out@.contains(y) <==> w.contains(y) by {
                if y == x {
                    assert(out@.contains(x));
                }
                if w.contains(y) && y != x {
                    let k = choose|k: int| 0 <= k < w.len() && w[k] == y;
                    assert(w0[k] == y);
                }
            }
        } else {
            out.insert(p, x);
            proof {
                if p < before.len() {
                    assert(!pair_lt(before[p as int], x));
                    assert(before[p as int] != x);
                }
                assert forall|a: int, b: int| 0 <= a < b < out@.len() implies pair_lt(out@[a], out@[b]) by {
                    if b < p {
                        assert(out@[a] == before[a] && out@[b] == before[b]);
                    } else if b == p {
                        assert(out@[a] == before[a]);
                    } else if a < p {
                        assert(out@[a] == before[a] && out@[b] == before[b - 1]);
                        assert(pair_lt(before[a], before[b - 1]) || a == b - 1);
                    } else if a == p {
                        assert(out@[b] == before[b - 1]);
                        assert(pair_lt(before[p as int], before[b - 1]) || p == b - 1);
                    } else {
                        assert(out@[a] == before[a - 1] && out@[b] == before[b - 1]);
                    }
                }
                assert forall|y: (usize, usize)| out@.contains(y) <==> w.contains(y) by {
                    if out@.contains(y) {
                        let k = choose|k: int| #![auto] 0 <= k < out@.len() && out@[k] == y;
                        if k < p {
                            assert(before[k] == y);
                            assert(before.contains(y));
                        } else if k > p {
                            assert(before[k - 1] == y);
                            assert(before.contains(y));
                        } else {
                            assert(y == x);
                            assert(w[i as int] == x);
                        }
                        if before.contains(y) {
                            assert(w0.contains(y));
                            let m = choose|m: int| 0 <= m < w0.len() && w0[m] == y;
                            assert(w[m] == y);
                        }
                    }
                    if w.contains(y) {
                        if y == x {
                            assert(out@[p as int] == x);
                        } else {
                            let k = choose|k: int| 0 <= k < w.len() && w[k] == y;
                            assert(w0[k] == y);
                            assert(before.contains(y));
                            let m = choose|m: int| #![auto] 0 <= m < before.len() && before[m] == y;
                            if m < p {
                                assert(out@[m] == y);
                            } else {
                                assert(out@[m + 1] == y);
                            }
                        }
                    }
                }
            }
        }
        i = i + 1;
    }
    assert(v@.subrange(0, i as int) =~= v@);
    out
}

/// The `(r, c)` coordinates of Sudoku propositions.
pub open spec fn coords(cells: Seq<Cell>) -> Seq<(usize, usize)> {
    cells.map_values(|x: Cell| (x.r, x.c))
}

/// The coordinates of `cells`, in order.
fn coords_of(cells: &Vec<Cell>) -> (r: Vec<(usize, usize)>)
    ensures
        r@ == coords(cells@),
{
    let mut r: Vec<(usize, usize)> = Vec::new();
    let mut i: usize = 0;
    while i < cells.len()
        invariant
            i <= cells@.len(),
            r@ == coords(cells@.subrange(0, i as int)),
        decreases cells@.len() - i,
    {
        r.push((cells[i].r, cells[i].c));
        i = i + 1;
        assert(r@ =~= coords(cells@.subrange(0, i as int)));
    }
    assert(cells@.subrange(0, i as int) =~= cells@);
    r
}

/// What the Sudoku status line says for event `ev`, decoding literals through
/// `props`.
pub open spec fn description_text(ev: Option<Event>, props: Seq<Cell>) -> Seq<char> {
    match ev {
        None => READY@,
        Some(e) => match phase_text(e) {
            Some(t) => t,
            None => match e {
                Event::Decide { lit } => {
                    let cell = props[lit.var.index()];
                    "Guess: r"@ + decimal((cell.r + 1) as nat) + "c"@ + decimal((cell.c + 1) as nat) + (if lit.positive {
                        " = "@
                    } else {
                        " ≠ "@
                    }) + decimal(cell.v as nat)
                },
                Event::Propagate { lit, .. } => {
                    let cell = props[lit.var.index()];
                    if lit.positive {
                        "Forced: r"@ + decimal((cell.r + 1) as nat) + "c"@ + decimal((cell.c + 1) as nat) + " = "@ + decimal(cell.v as nat)
                    } else {
                        "Ruled out "@ + decimal(cell.v as nat) + " at r"@ + decimal((cell.r + 1) as nat) + "c"@ + decimal((cell.c + 1) as nat)
                    }
                },
                Event::Sat => "Solved by search!"@,
                _ => "Contradiction — these givens have no solution."@,
            },
        },
    }
}

/// Sudoku event narration: the last move as a status line and the cells it
/// wants emphasized. The per-cell display state is decoded by
/// [`Sudoku::project`](crate::sudoku::Sudoku) over [`Stepper::view`].
impl Stepper<Cell> {
    /// The cells the last event wants emphasized on the grid, sorted and
    /// without repeats.
    pub fn emphasis(&self) -> (e: Emphasis)
        requires
            self.wf(),
        ensures
            e is Nothing <==> named(self.props(), touched_lits(self.last_spec(), self.search_spec())).len() == 0,
            e matches Emphasis::Cells(cs) ==> strictly_sorted_pairs(cs@) && forall|p: (usize, usize)|
                cs@.contains(p) <==> coords(named(self.props(), touched_lits(self.last_spec(), self.search_spec()))).contains(p),
    {
        let props = self.touched_props();
        assert(keys_of(props@) =~= props@);
        let cells = sort_dedup_pairs(&coords_of(&props));
        if cells.len() == 0 {
            proof {
                if props@.len() > 0 {
                    assert(coords(props@).contains(coords(props@)[0]));
                }
            }
            Emphasis::Nothing
        } else {
            proof {
                assert(cells@.contains(cells@[0]));
            }
            Emphasis::Cells(cells)
        }
    }

    /// On UNSAT, the given cells the core names, sorted and without repeats.
    pub fn core_cells(&self) -> (cs: Vec<(usize, usize)>)
        ensures
            strictly_sorted_pairs(cs@),
            forall|p: (usize, usize)| cs@.contains(p) <==> coords(named(self.props(), core_lits(self.last_spec()))).contains(p),
    {
        let props = self.core_props();
        assert(keys_of(props@) =~= props@);
        sort_dedup_pairs(&coords_of(&props))
    }

    /// The last event, decoded into a one-line status.
    pub fn description(&self) -> (s: String)
        requires
            self.wf(),
            forall|i: int| 0 <= i < self.props().len() ==> (#[trigger] self.props()[i]).r < usize::MAX && self.props()[i].c < usize::MAX,
            self.last_spec() matches Some(Event::Decide { lit }) ==> lit.var.index() < self.props().len(),
            self.last_spec() matches Some(Event::Propagate { lit, .. }) ==> lit.var.index() < self.props().len(),
        ensures
            s@ == description_text(self.last_spec(), self.props()),
    {
        let event = match self.last_event() {
            Some(e) => e,
            None => {
                let mut s = String::new();
                push_str(&mut s, READY);
                return s;
            },
        };
        match solver_phase(event) {
            Some(phase) => {
                return phase;
            },
            None => {},
        }
        let mut s = String::new();
        match event {
            Event::Decide { lit } => {
                let (cell, holds) = self.cell_of(*lit);
                push_str(&mut s, "Guess: r");
                push_decimal(&mut s, (cell.r + 1) as u64);
                push_str(&mut s, "c");
                push_decimal(&mut s, (cell.c + 1) as u64);
                if holds {
                    push_str(&mut s, " = ");
                } else {
                    push_str(&mut s, " ≠ ");
                }
                push_decimal(&mut s, cell.v as u64);
            },
            Event::Propagate { lit, .. } => {
                let (cell, holds) = self.cell_of(*lit);
                if holds {
                    push_str(&mut s, "Forced: r");
                    push_decimal(&mut s, (cell.r + 1) as u64);
                    push_str(&mut s, "c");
                    push_decimal(&mut s, (cell.c + 1) as u64);
                    push_str(&mut s, " = ");
                    push_decimal(&mut s, cell.v as u64);
                } else {
                    push_str(&mut s, "Ruled out ");
                    push_decimal(&mut s, cell.v as u64);
                    push_str(&mut s, " at r");
                    push_decimal(&mut s, (cell.r + 1) as u64);
                    push_str(&mut s, "c");
                    push_decimal(&mut s, (cell.c + 1) as u64);
                }
            },
            Event::Sat => {
                push_str(&mut s, "Solved by search!");
            },
            _ => {
                push_str(&mut s, "Contradiction — these givens have no solution.");
            },
        }
        s
    }

    /// Decode a literal to its Sudoku cell and polarity.
    fn cell_of(&self, lit: Lit) -> (r: (Cell, bool))
        requires
            lit.var.index() < self.props().len(),
        ensures
            r.0 == self.props()[lit.var.index()],
            r.1 == lit.positive,
    {
        match self.decode(lit) {
            Some(x) => x,
            None => (Cell { r: 0, c: 0, v: 0 }, false),
        }
    }
}

} // verus!
