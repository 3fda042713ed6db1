//! The registry: the bijection between puzzle propositions and SAT variables.
//!
//! Every forward step (encoding rules and givens) and every backward step
//! (interpreting what the solver found) routes through here. Variables are
//! assigned densely from index 0 in first-seen order, so the reverse map is a
//! sequence of propositions and the forward map is its inverse.

use vstd::prelude::*;

use crate::cnf::{Lit, Var, MAX_VAR_IDX};

verus! {

/// A puzzle-level proposition: something the registry can compare and copy.
///
/// Two propositions denote the same puzzle fact exactly when their views agree.
pub trait Proposition: View + Sized {
    /// Whether `self` and `other` denote the same proposition.
    fn same(&self, other: &Self) -> (b: bool)
        ensures
            b == (self@ == other@),
    ;

    /// A copy of this proposition.
    fn duplicate(&self) -> (c: Self)
        ensures
            c@ == self@,
    ;
}

impl Proposition for u32 {
    fn same(&self, other: &Self) -> (b: bool) {
        *self == *other
    }

    fn duplicate(&self) -> (c: Self) {
        *self
    }
}

impl Proposition for usize {
    fn same(&self, other: &Self) -> (b: bool) {
        *self == *other
    }

    fn duplicate(&self) -> (c: Self) {
        *self
    }
}

impl<'a> Proposition for &'a str {
    fn same(&self, other: &Self) -> (b: bool) {
        let n = self.unicode_len();
        if n != other.unicode_len() {
            return false;
        }
        let mut i: usize = 0;
        while i < n
            invariant
                n == self@.len(),
                n == other@.len(),
                i <= n,
                forall|k: int| 0 <= k < i ==> self@[k] == other@[k],
            decreases n - i,
        {
            if self.get_char(i) != other.get_char(i) {
                return false;
            }
            i = i + 1;
        }
        assert(self@ =~= other@);
        true
    }

    fn duplicate(&self) -> (c: Self) {
        *self
    }
}

/// The position of `k` in `keys` (meaningful when `keys` contains `k`).
pub open spec fn index_of<K>(keys: Seq<K>, k: K) -> int {
    choose|i: int| 0 <= i < keys.len() && keys[i] == k
}

/// The views of a sequence of propositions.
pub open spec fn keys_of<V: View>(s: Seq<V>) -> Seq<V::V> {
    s.map_values(|v: V| v@)
}

/// Appending a proposition appends its view.
pub proof fn lemma_keys_push<V: View>(s: Seq<V>, x: V)
    ensures
        keys_of(s.push(x)) == keys_of(s).push(x@),
{
    assert(keys_of(s.push(x)) =~= keys_of(s).push(x@));
}

/// No key occurs twice in `keys`.
pub open spec fn distinct<K>(keys: Seq<K>) -> bool {
    forall|i: int, j: int| 0 <= i < keys.len() && 0 <= j < keys.len() && #[trigger] keys[i] == #[trigger] keys[j] ==> i == j
}

/// A bijection between propositions of type `V` and SAT variables.
///
/// Its view is the sequence of registered propositions (by view), in variable
/// order: variable `i` stands for the `i`-th. No proposition occurs twice.
///
/// The propositions are kept in one vector and looked up by scanning it, with
/// "no proposition twice" as the invariant, rather than in a hash map from
/// proposition to variable: a proposition is any type with `Proposition`, and
/// a hash map keyed by such a type has no specification its lookups could be
/// proved against.
#[derive(Debug)]
pub struct Registry<V: Proposition> {
    rev: Vec<V>,
}

impl<V: Proposition> View for Registry<V> {
    type V = Seq<<V as View>::V>;

    closed spec fn view(&self) -> Seq<<V as View>::V> {
        keys_of(self.rev@)
    }
}

impl<V: Proposition> Registry<V> {
    /// No proposition is registered twice, and every variable index fits.
    #[verifier::type_invariant]
    closed spec fn wf(self) -> bool {
        &&& distinct(keys_of(self.rev@))
        &&& self.rev@.len() <= MAX_VAR_IDX + 1
    }

    /// The registered propositions are pairwise distinct and fit the variable range.
    pub fn lemma_wf(&self)
        ensures
            distinct(self@),
            self@.len() <= MAX_VAR_IDX + 1,
    {
        proof {
            use_type_invariant(self);
        }
    }

    /// An empty registry.
    pub fn new() -> (r: Registry<V>)
        ensures
            r@ == Seq::<<V as View>::V>::empty(),
    {
        let r = Registry { rev: Vec::new() };
        assert(r@ =~= Seq::<<V as View>::V>::empty());
        r
    }

    /// Find `v` among the registered propositions.
    fn find(&self, v: &V) -> (r: Option<usize>)
        ensures
            match r {
                Some(i) => i < self@.len() && self@[i as int] == v@,
                None => !self@.contains(v@),
            },
    {
        let mut i: usize = 0;
        while i < self.rev.len()
            invariant
                i <= self.rev@.len(),
                forall|k: int| 0 <= k < i ==> self@[k] != v@,
            decreases self.rev@.len() - i,
        {
            if self.rev[i].same(v) {
                return Some(i);
            }
            i = i + 1;
        }
        assert forall|k: int| 0 <= k < self@.len() implies self@[k] != v@ by {}
        None
    }

    /// The variable for proposition `v`, allocating the next fresh one on first use.
    ///
    /// Calling it again with an equal `v` returns the same variable.
    pub fn var(&mut self, v: V) -> (var: Var)
        requires
            old(self)@.contains(v@) || old(self)@.len() <= MAX_VAR_IDX,
        ensures
            old(self)@.contains(v@) ==> final(self)@ == old(self)@,
            !old(self)@.contains(v@) ==> final(self)@ == old(self)@.push(v@),
            var.index() < final(self)@.len(),
            final(self)@[var.index()] == v@,
            var.index() == index_of(final(self)@, v@),
            !old(self)@.contains(v@) ==> var.index() == old(self)@.len(),
    {
        proof {
            use_type_invariant(&*self);
        }
        match self.find(&v) {
            Some(i) => Var::new(i as u32),
            None => {
                let idx = self.rev.len();
                let ghost before = self@;
                let mut rev: Vec<V> = Vec::new();
                std::mem::swap(&mut rev, &mut self.rev);
                rev.push(v);
                assert(keys_of(rev@) =~= before.push(v@));
                proof {
                    let s = keys_of(rev@);
                    assert forall|i: int, j: int|
                        0 <= i < s.len() && 0 <= j < s.len() && #[trigger] s[i] == #[trigger] s[j] implies i == j by {
                        if i < before.len() && j == before.len() {
                            assert(before[i] == v@);
                            assert(before.contains(v@));
                        }
                        if j < before.len() && i == before.len() {
                            assert(before[j] == v@);
                            assert(before.contains(v@));
                        }
                    }
                }
                self.rev = rev;
                Var::new(idx as u32)
            },
        }
    }

    /// The literal for proposition `v` with the given polarity, allocating the
    /// variable if needed: `value == true` yields the positive literal.
    pub fn lit(&mut self, v: V, value: bool) -> (l: Lit)
        requires
            old(self)@.contains(v@) || old(self)@.len() <= MAX_VAR_IDX,
        ensures
            old(self)@.contains(v@) ==> final(self)@ == old(self)@,
            !old(self)@.contains(v@) ==> final(self)@ == old(self)@.push(v@),
            l.var.index() < final(self)@.len(),
            final(self)@[l.var.index()] == v@,
            l.var.index() == index_of(final(self)@, v@),
            !old(self)@.contains(v@) ==> l.var.index() == old(self)@.len(),
            l.positive == value,
    {
        let var = self.var(v);
        if value {
            var.pos_lit()
        } else {
            var.neg_lit()
        }
    }

    /// The variable already mapped to `v`, or `None` if `v` was never registered.
    /// Never allocates.
    pub fn get(&self, v: &V) -> (r: Option<Var>)
        ensures
            match r {
                Some(var) => var.index() < self@.len() && self@[var.index()] == v@ && var.index() == index_of(self@, v@),
                None => !self@.contains(v@),
            },
    {
        proof {
            use_type_invariant(self);
        }
        match self.find(v) {
            Some(i) => Some(Var::new(i as u32)),
            None => None,
        }
    }

    /// The proposition a variable stands for, or `None` for an auxiliary
    /// (non-puzzle) variable.
    pub fn decode_var(&self, var: Var) -> (r: Option<&V>)
        ensures
            match r {
                Some(v) => var.index() < self@.len() && v@ == self@[var.index()],
                None => var.index() >= self@.len(),
            },
    {
        let i = var.idx();
        if i < self.rev.len() {
            Some(&self.rev[i])
        } else {
            None
        }
    }

    /// Turn a solver literal back into `(proposition, truth value)`, or `None`
    /// for a literal over an auxiliary variable. A positive literal decodes to
    /// `(v, true)` ("`v` holds"), a negative one to `(v, false)`.
    pub fn decode(&self, lit: Lit) -> (r: Option<(V, bool)>)
        ensures
            match r {
                Some((v, holds)) => lit.var.index() < self@.len() && v@ == self@[lit.var.index()]
                    && holds == lit.positive,
                None => lit.var.index() >= self@.len(),
            },
    {
        match self.decode_var(lit.var()) {
            Some(v) => Some((v.duplicate(), lit.is_pos())),
            None => None,
        }
    }

    /// The number of registered propositions.
    pub fn len(&self) -> (n: usize)
        ensures
            n == self@.len(),
    {
        self.rev.len()
    }

    /// Whether no proposition has been registered.
    pub fn is_empty(&self) -> (b: bool)
        ensures
            b == (self@.len() == 0),
    {
        self.rev.len() == 0
    }
}

impl<V: Proposition> Clone for Registry<V> {
    fn clone(&self) -> (r: Registry<V>)
        ensures
            r@ == self@,
    {
        proof {
            use_type_invariant(self);
        }
        let mut rev: Vec<V> = Vec::new();
        let mut i: usize = 0;
        while i < self.rev.len()
            invariant
                i <= self.rev@.len(),
                keys_of(rev@) == self@.subrange(0, i as int),
            decreases self.rev@.len() - i,
        {
            let d = self.rev[i].duplicate();
            let ghost prev = rev@;
            rev.push(d);
            proof {
                lemma_keys_push(prev, d);
                assert(self@[i as int] == self.rev@[i as int]@);
                assert(self@.subrange(0, i + 1) =~= self@.subrange(0, i as int).push(self@[i as int]));
            }
            i = i + 1;
        }
        assert(self@.subrange(0, i as int) =~= self@);
        Registry { rev }
    }
}

impl<V: Proposition> Default for Registry<V> {
    fn default() -> (r: Registry<V>)
        ensures
            r@ == Seq::<<V as View>::V>::empty(),
    {
        Registry::new()
    }
}

/// Registering a proposition and decoding either literal of its variable gives
/// the proposition back, with the literal's polarity.
pub proof fn lemma_decode_after_lit<K>(props: Seq<K>, k: K, index: int)
    requires
        distinct(props),
        0 <= index < props.len(),
        props[index] == k,
    ensures
        index == index_of(props, k),
{
    let j = index_of(props, k);
    assert(props.contains(k)) by {
        assert(props[index] == k);
    }
    assert(0 <= j < props.len() && props[j] == k);
}


/// Asking twice for one proposition gives one variable: after `var` returned
/// index `first` over the registry `mid`, a second `var` for the same proposition
/// leaves the registry as it was and returns `first` again.
pub proof fn lemma_var_stable<K>(mid: Seq<K>, after: Seq<K>, k: K, first: int, second: int)
    requires
        distinct(mid),
        0 <= first < mid.len(),
        mid[first] == k,
        mid.contains(k) ==> after == mid,
        !mid.contains(k) ==> after == mid.push(k),
        0 <= second < after.len(),
        after[second] == k,
    ensures
        after == mid,
        second == first,
{
    assert(mid.contains(k)) by {
        assert(mid[first] == k);
    }
}

} // verus!
