//! Graph coloring: one color per vertex, and no edge joining two vertices of
//! the same color.
//!
//! It keeps exactly-one (one color per vertex) but adds a different clause
//! shape: for every edge and color, a binary "these two endpoints can't share
//! this color". Pre-colored vertices are the givens and cross as assumptions.
//! The projection is a one-row grid of per-vertex colors.

use vstd::prelude::*;

use crate::backbone::mentions;
use crate::cnf::{
    lemma_index_injective, lemma_index_nonneg, lemma_var_at, lemma_var_at_index, lits_below, Clause, Cnf, Lit, Var,
    MAX_VAR_IDX,
};
use crate::cnf::{clause_holds, cnf_holds, lit_holds, var_at};
use crate::encodings::{
    at_most_one_pairwise_clauses, at_most_one_true, exactly_one_pairwise, lemma_cnf_holds_append,
    lemma_exactly_one_pairwise_means, some_true,
};
use crate::propagate::value_lit;
use crate::puzzle::{copy_vec, lemma_index_inside, lemma_mentions_prefix, lemma_mentions_suffix, lemma_row_major, Deductions, Grid, Puzzle};
use crate::registry::{distinct, index_of, Proposition, Registry};
use crate::view::SolverView;

verus! {

broadcast use lemma_var_at, lemma_var_at_index, lemma_index_injective, lemma_index_nonneg;

/// A graph-coloring proposition: "vertex `vertex` takes color `color`".
#[derive(Debug, Clone, Copy, PartialEq, Eq, Hash)]
pub struct VertexColor {
    pub vertex: usize,
    pub color: usize,
}

impl View for VertexColor {
    type V = VertexColor;

    open spec fn view(&self) -> VertexColor {
        *self
    }
}

impl Proposition for VertexColor {
    fn same(&self, other: &Self) -> (b: bool) {
        self.vertex == other.vertex && self.color == other.color
    }

    fn duplicate(&self) -> (c: Self) {
        *self
    }
}

/// Per-vertex display state produced by [`GraphColoring::project`].
#[derive(Debug, Clone, Copy, PartialEq, Eq)]
pub struct ColoringCell {
    /// The color assigned to this vertex, if any.
    pub color: Option<usize>,
    /// Whether this vertex was pre-colored (a given).
    pub fixed: bool,
}

/// A graph-coloring instance: a graph, a color budget, and any pre-colorings.
#[derive(Debug)]
pub struct GraphColoring {
    n_vertices: usize,
    n_colors: usize,
    edges: Vec<(usize, usize)>,
    fixed: Vec<Option<usize>>,
}

/// `a` comes strictly before `b` in lexicographic order.
pub open spec fn lex_lt(a: (usize, usize), b: (usize, usize)) -> bool {
    a.0 < b.0 || (a.0 == b.0 && a.1 < b.1)
}

/// Every edge is normalized (`u < w`) and none occurs twice.
pub open spec fn edges_normal(e: Seq<(usize, usize)>) -> bool {
    &&& forall|i: int| 0 <= i < e.len() ==> (#[trigger] e[i]).0 < e[i].1
    &&& forall|i: int, j: int| 0 <= i < e.len() && 0 <= j < e.len() && #[trigger] e[i] == #[trigger] e[j] ==> i == j
}

/// The positive literals "vertex `v` takes color `c`" for every color `c`.
pub open spec fn vertex_lits(k: int, v: int) -> Seq<Lit> {
    Seq::new(k as nat, |c: int| value_lit(v * k + c, true))
}

/// Exactly one color for each of the first `v` vertices.
pub open spec fn vertex_rules(k: int, v: int) -> Seq<Seq<Lit>>
    decreases v,
{
    if v <= 0 {
        Seq::empty()
    } else {
        vertex_rules(k, v - 1) + (seq![vertex_lits(k, v - 1)] + at_most_one_pairwise_clauses(vertex_lits(k, v - 1)))
    }
}

/// The proposition "vertex `v` takes color `c`".
pub open spec fn vc(v: usize, c: int) -> VertexColor {
    VertexColor { vertex: v, color: c as usize }
}

/// What registering `x` after `props` leaves: `x` appended unless present.
pub open spec fn registered(props: Seq<VertexColor>, x: VertexColor) -> Seq<VertexColor> {
    if props.contains(x) {
        props
    } else {
        props.push(x)
    }
}

/// `props` after registering both endpoints of `e` with each color below `c`,
/// color by color, the first endpoint before the second.
pub open spec fn edge_regs(props: Seq<VertexColor>, e: (usize, usize), c: int) -> Seq<VertexColor>
    decreases c,
{
    if c <= 0 {
        props
    } else {
        registered(registered(edge_regs(props, e, c - 1), vc(e.0, c - 1)), vc(e.1, c - 1))
    }
}

/// `props` after registering the endpoints of the first `i` edges with each of
/// the `k` colors.
pub open spec fn edges_regs(props: Seq<VertexColor>, k: int, edges: Seq<(usize, usize)>, i: int) -> Seq<VertexColor>
    decreases i,
{
    if i <= 0 {
        props
    } else {
        edge_regs(edges_regs(props, k, edges, i - 1), edges[i - 1], k)
    }
}

/// The endpoints of edge `e` do not share any color: one clause per color over
/// the variables `props` gives the endpoints' propositions.
pub open spec fn edge_clauses(props: Seq<VertexColor>, k: int, e: (usize, usize)) -> Seq<Seq<Lit>> {
    Seq::new(
        k as nat,
        |c: int| seq![value_lit(index_of(props, vc(e.0, c)), false), value_lit(index_of(props, vc(e.1, c)), false)],
    )
}

/// The edge clauses of the first `i` edges.
pub open spec fn edge_rules(props: Seq<VertexColor>, k: int, edges: Seq<(usize, usize)>, i: int) -> Seq<Seq<Lit>>
    decreases i,
{
    if i <= 0 {
        Seq::empty()
    } else {
        edge_rules(props, k, edges, i - 1) + edge_clauses(props, k, edges[i - 1])
    }
}

/// `p` is a prefix of `q`.
pub open spec fn extends_props(p: Seq<VertexColor>, q: Seq<VertexColor>) -> bool {
    p.len() <= q.len() && forall|t: int| 0 <= t < p.len() ==> #[trigger] q[t] == p[t]
}

/// Registering keeps what was there, in place, holds `x`, keeps the
/// propositions distinct, and adds nothing but `x`.
proof fn lemma_registered(p: Seq<VertexColor>, x: VertexColor)
    ensures
        extends_props(p, registered(p, x)),
        registered(p, x).contains(x),
        distinct(p) ==> distinct(registered(p, x)),
        forall|t: int| 0 <= t < registered(p, x).len() ==> t < p.len() || #[trigger] registered(p, x)[t] == x,
        registered(p, x).len() <= p.len() + 1,
{
    let q = registered(p, x);
    if !p.contains(x) {
        assert(q[p.len() as int] == x);
        if distinct(p) {
            assert forall|i: int, j: int| 0 <= i < q.len() && 0 <= j < q.len() && #[trigger] q[i] == #[trigger] q[j] implies i == j by {
                if i < p.len() && j == p.len() {
                    assert(p[i] == x);
                }
                if j < p.len() && i == p.len() {
                    assert(p[j] == x);
                }
                if i < p.len() && j < p.len() {
                    assert(p[i] == p[j]);
                }
            }
        }
    }
}

/// Extending is transitive.
proof fn lemma_extends_trans(p: Seq<VertexColor>, q: Seq<VertexColor>, r: Seq<VertexColor>)
    requires
        extends_props(p, q),
        extends_props(q, r),
    ensures
        extends_props(p, r),
{
    assert forall|t: int| 0 <= t < p.len() implies #[trigger] r[t] == p[t] by {
        assert(r[t] == q[t]);
    }
}

/// `x` names an endpoint of `e` with a color below `c`.
pub open spec fn touches(x: VertexColor, e: (usize, usize), c: int) -> bool {
    (x.vertex == e.0 || x.vertex == e.1) && x.color < c
}

/// What one edge's registrations do: extend, keep distinct, hold both
/// endpoints with each color below `c`, and add only those.
proof fn lemma_edge_regs(p: Seq<VertexColor>, e: (usize, usize), c: int)
    requires
        0 <= c <= usize::MAX,
    ensures
        extends_props(p, edge_regs(p, e, c)),
        distinct(p) ==> distinct(edge_regs(p, e, c)),
        forall|d: int| 0 <= d < c ==> edge_regs(p, e, c).contains(#[trigger] vc(e.0, d)) && edge_regs(p, e, c).contains(vc(e.1, d)),
        forall|t: int| 0 <= t < edge_regs(p, e, c).len() ==> t < p.len() || touches(#[trigger] edge_regs(p, e, c)[t], e, c),
    decreases c,
{
    if c > 0 {
        lemma_edge_regs(p, e, c - 1);
        let a = edge_regs(p, e, c - 1);
        let b = registered(a, vc(e.0, c - 1));
        let q = registered(b, vc(e.1, c - 1));
        assert(q == edge_regs(p, e, c));
        lemma_registered(a, vc(e.0, c - 1));
        lemma_registered(b, vc(e.1, c - 1));
        lemma_extends_trans(a, b, q);
        lemma_extends_trans(p, a, q);
        assert forall|d: int| 0 <= d < c implies q.contains(#[trigger] vc(e.0, d)) && q.contains(vc(e.1, d)) by {
            if d < c - 1 {
                let i = choose|i: int| 0 <= i < a.len() && a[i] == vc(e.0, d);
                assert(q[i] == a[i]);
                let j = choose|j: int| 0 <= j < a.len() && a[j] == vc(e.1, d);
                assert(q[j] == a[j]);
            } else {
                let i = choose|i: int| 0 <= i < b.len() && b[i] == vc(e.0, d);
                assert(q[i] == b[i]);
            }
        }
        assert forall|t: int| 0 <= t < q.len() implies t < p.len() || touches(#[trigger] q[t], e, c) by {
            if t < a.len() {
                assert(q[t] == a[t]);
            } else if t < b.len() {
                assert(q[t] == b[t]);
                assert(b[t] == vc(e.0, c - 1));
            } else {
                assert(q[t] == vc(e.1, c - 1));
            }
        }
    }
}

/// What the registrations of the first `i` edges do: extend, keep distinct,
/// hold every endpoint with every color, and add only those.
proof fn lemma_edges_regs(p: Seq<VertexColor>, k: int, edges: Seq<(usize, usize)>, i: int)
    requires
        0 <= k <= usize::MAX,
        0 <= i <= edges.len(),
    ensures
        extends_props(p, edges_regs(p, k, edges, i)),
        distinct(p) ==> distinct(edges_regs(p, k, edges, i)),
        forall|j: int, d: int|
            0 <= j < i && 0 <= d < k ==> edges_regs(p, k, edges, i).contains(#[trigger] vc(edges[j].0, d))
                && edges_regs(p, k, edges, i).contains(vc(edges[j].1, d)),
        forall|t: int|
            0 <= t < edges_regs(p, k, edges, i).len() ==> t < p.len() || exists|j: int|
                0 <= j < i && touches(#[trigger] edges_regs(p, k, edges, i)[t], #[trigger] edges[j], k),
    decreases i,
{
    if i > 0 {
        lemma_edges_regs(p, k, edges, i - 1);
        let a = edges_regs(p, k, edges, i - 1);
        let q = edges_regs(p, k, edges, i);
        let ep = edge_regs(a, edges[i - 1], k);
        assert(q == ep);
        lemma_edge_regs(a, edges[i - 1], k);
        lemma_extends_trans(p, a, q);
        assert forall|j: int, d: int| 0 <= j < i && 0 <= d < k implies q.contains(#[trigger] vc(edges[j].0, d)) && q.contains(vc(edges[j].1, d)) by {
            if j < i - 1 {
                let x = choose|x: int| 0 <= x < a.len() && a[x] == vc(edges[j].0, d);
                assert(q[x] == a[x]);
                let y = choose|y: int| 0 <= y < a.len() && a[y] == vc(edges[j].1, d);
                assert(q[y] == a[y]);
            } else {
                assert(ep.contains(vc(edges[i - 1].0, d)));
            }
        }
        assert forall|t: int| 0 <= t < q.len() implies t < p.len() || exists|j: int|
            0 <= j < i && touches(#[trigger] q[t], #[trigger] edges[j], k) by {
            if t < a.len() {
                assert(q[t] == a[t]);
                if t >= p.len() {
                    let j = choose|j: int| 0 <= j < i - 1 && touches(#[trigger] a[t], #[trigger] edges[j], k);
                    assert(touches(q[t], edges[j], k));
                }
            } else {
                assert(ep[t] == q[t]);
                assert(touches(ep[t], edges[i - 1], k));
                assert(touches(q[t], edges[i - 1], k));
            }
        }
    }
}

/// Registering the endpoints with more colors only extends.
proof fn lemma_edge_regs_mono(p: Seq<VertexColor>, e: (usize, usize), c: int, d: int)
    requires
        0 <= c <= d,
    ensures
        extends_props(edge_regs(p, e, c), edge_regs(p, e, d)),
    decreases d,
{
    if c < d {
        lemma_edge_regs_mono(p, e, c, d - 1);
        let a = edge_regs(p, e, d - 1);
        let b = registered(a, vc(e.0, d - 1));
        lemma_registered(a, vc(e.0, d - 1));
        lemma_registered(b, vc(e.1, d - 1));
        lemma_extends_trans(a, b, edge_regs(p, e, d));
        lemma_extends_trans(edge_regs(p, e, c), a, edge_regs(p, e, d));
    }
}

/// Registering more edges only extends.
proof fn lemma_edges_regs_mono(p: Seq<VertexColor>, k: int, edges: Seq<(usize, usize)>, i: int, j: int)
    requires
        0 <= k <= usize::MAX,
        0 <= i <= j,
    ensures
        extends_props(edges_regs(p, k, edges, i), edges_regs(p, k, edges, j)),
    decreases j,
{
    if i < j {
        lemma_edges_regs_mono(p, k, edges, i, j - 1);
        lemma_edge_regs(edges_regs(p, k, edges, j - 1), edges[j - 1], k);
        lemma_extends_trans(edges_regs(p, k, edges, i), edges_regs(p, k, edges, j - 1), edges_regs(p, k, edges, j));
    }
}

/// In a distinct extension of `p`, what `p` holds keeps its index.
proof fn lemma_index_kept(p: Seq<VertexColor>, q: Seq<VertexColor>, x: VertexColor)
    requires
        extends_props(p, q),
        distinct(q),
        p.contains(x),
    ensures
        index_of(q, x) == index_of(p, x),
        0 <= index_of(p, x) < p.len(),
        p[index_of(p, x)] == x,
{
    let i = index_of(p, x);
    assert(q[i] == p[i]);
    assert(q.contains(x));
    let j = index_of(q, x);
    assert(q[j] == x);
}

/// Every edge clause of the first `i` edges mentions the variable of each
/// endpoint with each color.
proof fn lemma_edge_rules_mention(props: Seq<VertexColor>, k: int, edges: Seq<(usize, usize)>, i: int, j: int, d: int)
    requires
        0 <= j < i <= edges.len(),
        0 <= d < k,
        0 <= index_of(props, vc(edges[j].0, d)) <= u32::MAX,
        0 <= index_of(props, vc(edges[j].1, d)) <= u32::MAX,
    ensures
        mentions(edge_rules(props, k, edges, i), index_of(props, vc(edges[j].0, d))),
        mentions(edge_rules(props, k, edges, i), index_of(props, vc(edges[j].1, d))),
    decreases i,
{
    let prev = edge_rules(props, k, edges, i - 1);
    let last = edge_clauses(props, k, edges[i - 1]);
    assert(edge_rules(props, k, edges, i) == prev + last);
    if j < i - 1 {
        lemma_edge_rules_mention(props, k, edges, i - 1, j, d);
        lemma_mentions_prefix(prev, last, index_of(props, vc(edges[j].0, d)));
        lemma_mentions_prefix(prev, last, index_of(props, vc(edges[j].1, d)));
    } else {
        let a = index_of(props, vc(edges[j].0, d));
        let b = index_of(props, vc(edges[j].1, d));
        assert(last[d][0].var.index() == a);
        assert(last[d][1].var.index() == b);
        assert(mentions(last, a));
        assert(mentions(last, b));
        lemma_mentions_suffix(prev, last, a);
        lemma_mentions_suffix(prev, last, b);
    }
}

/// The assumption literals of the pre-colorings of the first `v` vertices over
/// the registered `props`: each pre-coloring whose proposition is registered.
pub open spec fn fixing_lits(props: Seq<VertexColor>, fixed: Seq<Option<usize>>, v: int) -> Seq<Lit>
    decreases v,
{
    if v <= 0 {
        Seq::empty()
    } else {
        let prev = fixing_lits(props, fixed, v - 1);
        match fixed[v - 1] {
            Some(c) => {
                let vc = VertexColor { vertex: (v - 1) as usize, color: c };
                if props.contains(vc) {
                    prev.push(value_lit(index_of(props, vc), true))
                } else {
                    prev
                }
            },
            None => prev,
        }
    }
}

/// The first color from `c` on that `value` makes true at vertex `v`.
pub open spec fn first_color(value: spec_fn(VertexColor) -> Option<bool>, v: int, c: int, k: int) -> Option<usize>
    decreases k - c,
{
    if c >= k {
        None
    } else if value(VertexColor { vertex: v as usize, color: c as usize }) == Some(true) {
        Some(c as usize)
    } else {
        first_color(value, v, c + 1, k)
    }
}

/// The colors after painting the positive facts of `facts` over `fixed`, in
/// order.
pub open spec fn deduced_colors(fixed: Seq<Option<usize>>, facts: Seq<(VertexColor, bool)>) -> Seq<Option<usize>>
    decreases facts.len(),
{
    if facts.len() == 0 {
        fixed
    } else {
        let prev = deduced_colors(fixed, facts.drop_last());
        let (vc, holds) = facts.last();
        if holds && (vc.vertex as int) < prev.len() {
            prev.update(vc.vertex as int, Some(vc.color))
        } else {
            prev
        }
    }
}

pub proof fn lemma_deduced_len(fixed: Seq<Option<usize>>, facts: Seq<(VertexColor, bool)>)
    ensures
        deduced_colors(fixed, facts).len() == fixed.len(),
    decreases facts.len(),
{
    if facts.len() > 0 {
        lemma_deduced_len(fixed, facts.drop_last());
    }
}

impl GraphColoring {
    /// One pre-coloring slot per vertex; edges normalized and distinct.
    #[verifier::type_invariant]
    closed spec fn wf(self) -> bool {
        &&& self.fixed@.len() == self.n_vertices
        &&& edges_normal(self.edges@)
    }

    /// The number of vertices.
    pub closed spec fn vertex_count(&self) -> nat {
        self.n_vertices as nat
    }

    /// The color budget.
    pub closed spec fn color_count(&self) -> nat {
        self.n_colors as nat
    }

    /// The edges, each as `(u, w)` with `u < w`, in insertion order.
    pub closed spec fn edge_list(&self) -> Seq<(usize, usize)> {
        self.edges@
    }

    /// The pre-coloring of each vertex.
    pub closed spec fn fixings(&self) -> Seq<Option<usize>> {
        self.fixed@
    }

    /// The edges are normalized and distinct, and every vertex has a slot.
    pub fn lemma_wf(&self)
        ensures
            edges_normal(self.edge_list()),
            self.fixings().len() == self.vertex_count(),
    {
        proof {
            use_type_invariant(self);
        }
    }

    /// An edgeless graph on `n_vertices` with a budget of `n_colors`.
    pub fn new(n_vertices: usize, n_colors: usize) -> (g: Self)
        ensures
            g.vertex_count() == n_vertices,
            g.color_count() == n_colors,
            g.edge_list() == Seq::<(usize, usize)>::empty(),
            g.fixings() == Seq::new(n_vertices as nat, |v: int| None::<usize>),
    {
        let mut fixed: Vec<Option<usize>> = Vec::new();
        let mut i: usize = 0;
        while i < n_vertices
            invariant
                i <= n_vertices,
                fixed@ == Seq::new(i as nat, |v: int| None::<usize>),
            decreases n_vertices - i,
        {
            fixed.push(None);
            i = i + 1;
            assert(fixed@ =~= Seq::new(i as nat, |v: int| None::<usize>));
        }
        let g = GraphColoring { n_vertices, n_colors, edges: Vec::new(), fixed };
        assert(g.edges@ =~= Seq::<(usize, usize)>::empty());
        g
    }

    /// Add an undirected edge between `u` and `w`. A self-loop is ignored, and a
    /// duplicate (in either orientation) is collapsed.
    pub fn add_edge(&mut self, u: usize, w: usize)
        ensures
            final(self).vertex_count() == old(self).vertex_count(),
            final(self).color_count() == old(self).color_count(),
            final(self).fixings() == old(self).fixings(),
            final(self).edge_list() == if u == w {
                old(self).edge_list()
            } else {
                let e = if u < w { (u, w) } else { (w, u) };
                if old(self).edge_list().contains(e) {
                    old(self).edge_list()
                } else {
                    old(self).edge_list().push(e)
                }
            },
    {
        proof {
            use_type_invariant(&*self);
        }
        if u != w {
            let e = if u < w { (u, w) } else { (w, u) };
            let mut found = false;
            let mut i: usize = 0;
            while i < self.edges.len()
                invariant
                    i <= self.edges@.len(),
                    found ==> self.edges@.contains(e),
                    !found ==> forall|j: int| 0 <= j < i ==> self.edges@[j] != e,
                decreases self.edges@.len() - i,
            {
                let x = self.edges[i];
                if x.0 == e.0 && x.1 == e.1 {
                    assert(self.edges@[i as int] == e);
                    found = true;
                }
                i = i + 1;
            }
            if !found {
                let ghost before = self.edges@;
                assert(!before.contains(e));
                let mut edges = copy_vec(&self.edges);
                edges.push(e);
                proof {
                    assert forall|a: int, b: int|
                        0 <= a < edges@.len() && 0 <= b < edges@.len() && #[trigger] edges@[a] == #[trigger] edges@[b] implies a
                        == b by {
                        if a < before.len() && b < before.len() {
                            assert(before[a] == before[b]);
                        } else if a < before.len() {
                            assert(before[a] == e);
                        } else if b < before.len() {
                            assert(before[b] == e);
                        }
                    }
                }
                self.edges = edges;
            }
        }
    }

    /// Pre-color `vertex` with `color` (a given), or clear it with `None`.
    pub fn fix(&mut self, vertex: usize, color: Option<usize>)
        requires
            vertex < old(self).vertex_count(),
        ensures
            final(self).vertex_count() == old(self).vertex_count(),
            final(self).color_count() == old(self).color_count(),
            final(self).edge_list() == old(self).edge_list(),
            final(self).fixings() == old(self).fixings().update(vertex as int, color),
    {
        proof {
            use_type_invariant(&*self);
        }
        let mut fixed = copy_vec(&self.fixed);
        fixed.set(vertex, color);
        self.fixed = fixed;
    }

    /// The complete graph `K_n` (every pair adjacent) with `n_colors` available.
    ///
    /// Its edges are exactly the pairs `(u, w)` with `u < w < n_vertices`, in
    /// lexicographic order.
    pub fn complete(n_vertices: usize, n_colors: usize) -> (g: Self)
        ensures
            g.vertex_count() == n_vertices,
            g.color_count() == n_colors,
            g.fixings() == Seq::new(n_vertices as nat, |v: int| None::<usize>),
            forall|e: (usize, usize)| g.edge_list().contains(e) <==> e.0 < e.1 < n_vertices,
            forall|i: int, j: int| 0 <= i < j < g.edge_list().len() ==> lex_lt(g.edge_list()[i], g.edge_list()[j]),
    {
        let mut g = GraphColoring::new(n_vertices, n_colors);
        let mut u: usize = 0;
        while u < n_vertices
            invariant
                u <= n_vertices,
                g.vertex_count() == n_vertices,
                g.color_count() == n_colors,
                g.fixings() == Seq::new(n_vertices as nat, |v: int| None::<usize>),
                forall|e: (usize, usize)| g.edge_list().contains(e) <==> e.0 < e.1 < n_vertices && e.0 < u,
                forall|i: int, j: int| 0 <= i < j < g.edge_list().len() ==> lex_lt(g.edge_list()[i], g.edge_list()[j]),
            decreases n_vertices - u,
        {
            let mut w: usize = u + 1;
            while w < n_vertices
                invariant
                    u < n_vertices,
                    u < w <= n_vertices,
                    g.vertex_count() == n_vertices,
                    g.color_count() == n_colors,
                    g.fixings() == Seq::new(n_vertices as nat, |v: int| None::<usize>),
                    forall|e: (usize, usize)|
                        g.edge_list().contains(e) <==> e.0 < e.1 < n_vertices && (e.0 < u || (e.0 == u && e.1 < w)),
                    forall|i: int, j: int| 0 <= i < j < g.edge_list().len() ==> lex_lt(g.edge_list()[i], g.edge_list()[j]),
                decreases n_vertices - w,
            {
                let ghost before = g.edge_list();
                g.add_edge(u, w);
                proof {
                    assert(!before.contains((u, w)));
                    assert(g.edge_list() == before.push((u, w)));
                    assert forall|i: int, j: int| 0 <= i < j < g.edge_list().len() implies lex_lt(
                        g.edge_list()[i],
                        g.edge_list()[j],
                    ) by {
                        if j == before.len() {
                            assert(before.contains(before[i]));
                        }
                    }
                    assert forall|e: (usize, usize)|
                        g.edge_list().contains(e) <==> e.0 < e.1 < n_vertices && (e.0 < u || (e.0 == u && e.1 < w + 1)) by {
                        if g.edge_list().contains(e) {
                            let i = choose|i: int| 0 <= i < g.edge_list().len() && g.edge_list()[i] == e;
                            if i < before.len() {
                                assert(before[i] == e);
                                assert(before.contains(e));
                            } else {
                                assert(e == (u, w));
                            }
                        }
                        if e.0 < e.1 < n_vertices && (e.0 < u || (e.0 == u && e.1 < w + 1)) {
                            if e == (u, w) {
                                assert(g.edge_list()[before.len() as int] == e);
                            } else {
                                assert(before.contains(e));
                                let i = choose|i: int| 0 <= i < before.len() && before[i] == e;
                                assert(g.edge_list()[i] == e);
                            }
                        }
                    }
                }
                w = w + 1;
            }
            u = u + 1;
        }
        g
    }

    /// The color assigned to `vertex` in a projected grid, if any.
    pub fn color_at(grid: &Grid<ColoringCell>, vertex: usize) -> (c: Option<usize>)
        requires
            0 < grid.shape().0,
            vertex < grid.shape().1,
        ensures
            c == grid.shape().2[vertex as int].color,
    {
        grid.get(0, vertex).color
    }

    /// The number of vertices.
    pub fn n_vertices(&self) -> (n: usize)
        ensures
            n == self.vertex_count(),
    {
        self.n_vertices
    }

    /// The color budget.
    pub fn n_colors(&self) -> (n: usize)
        ensures
            n == self.color_count(),
    {
        self.n_colors
    }

    /// The undirected edges, each as `(u, w)` with `u < w`.
    pub fn edges(&self) -> (s: &[(usize, usize)])
        ensures
            s@ == self.edge_list(),
    {
        self.edges.as_slice()
    }

    /// The pre-colored (given) color of `vertex`, if any.
    pub fn fixed(&self, vertex: usize) -> (c: Option<usize>)
        requires
            vertex < self.vertex_count(),
        ensures
            c == self.fixings()[vertex as int],
    {
        proof {
            use_type_invariant(self);
        }
        self.fixed[vertex]
    }

    /// A grid showing only what a set of [`Deductions`] proves: the
    /// pre-colorings, with each positive fact painting its color over them in
    /// order, and still-undetermined vertices left blank.
    pub fn project_deductions(&self, deductions: &Deductions<VertexColor>) -> (grid: Grid<ColoringCell>)
        requires
            forall|i: int|
                0 <= i < deductions.proven@.len() && (#[trigger] deductions.proven@[i]).1 ==> deductions.proven@[i].0.vertex
                    < self.vertex_count(),
        ensures
            grid.shape() == (1nat, self.vertex_count(), Seq::new(
                self.vertex_count(),
                |v: int|
                    ColoringCell {
                        color: deduced_colors(self.fixings(), deductions.proven@)[v],
                        fixed: self.fixings()[v] is Some,
                    },
            )),
    {
        proof {
            use_type_invariant(self);
        }
        let ghost facts = deductions.proven@;
        let mut colors: Vec<Option<usize>> = copy_vec(&self.fixed);
        assert(colors@ =~= deduced_colors(self.fixed@, facts.subrange(0, 0)));
        let mut i: usize = 0;
        while i < deductions.proven.len()
            invariant
                i <= facts.len(),
                facts == deductions.proven@,
                self.fixed@.len() == self.n_vertices,
                forall|j: int| 0 <= j < facts.len() && (#[trigger] facts[j]).1 ==> facts[j].0.vertex < self.n_vertices,
                colors@ == deduced_colors(self.fixed@, facts.subrange(0, i as int)),
            decreases facts.len() - i,
        {
            proof {
                lemma_deduced_len(self.fixed@, facts.subrange(0, i as int));
                assert(facts.subrange(0, i + 1).drop_last() =~= facts.subrange(0, i as int));
            }
            let (vc, holds) = deductions.proven[i];
            if holds {
                colors.set(vc.vertex, Some(vc.color));
            }
            i = i + 1;
        }
        assert(facts.subrange(0, i as int) =~= facts);
        proof {
            lemma_deduced_len(self.fixed@, facts);
        }
        let mut cells: Vec<ColoringCell> = Vec::new();
        let mut v: usize = 0;
        while v < self.n_vertices
            invariant
                v <= self.n_vertices,
                self.fixed@.len() == self.n_vertices,
                colors@ == deduced_colors(self.fixed@, facts),
                colors@.len() == self.n_vertices,
                cells@ == Seq::new(
                    v as nat,
                    |w: int| ColoringCell { color: deduced_colors(self.fixed@, facts)[w], fixed: self.fixed@[w] is Some },
                ),
            decreases self.n_vertices - v,
        {
            cells.push(ColoringCell { color: colors[v], fixed: self.fixed[v].is_some() });
            v = v + 1;
            assert(cells@ =~= Seq::new(
                v as nat,
                |w: int| ColoringCell { color: deduced_colors(self.fixed@, facts)[w], fixed: self.fixed@[w] is Some },
            ));
        }
        Grid::from_cells(1, self.n_vertices, cells)
    }
}


/// The first `m` propositions in vertex-major order: vertex `i / k` with color
/// `i % k`.
pub open spec fn coloring_props(k: int, m: int) -> Seq<VertexColor> {
    Seq::new(m as nat, |i: int| VertexColor { vertex: (i / k) as usize, color: (i % k) as usize })
}

/// Under `tau`, each of the first `v` vertices takes exactly one of the `k`
/// colors.
pub open spec fn one_color_each(tau: spec_fn(int) -> bool, k: int, v: int) -> bool {
    forall|x: int|
        0 <= x < v ==> some_true(tau, #[trigger] vertex_lits(k, x)) && at_most_one_true(tau, vertex_lits(k, x))
}

/// Under `tau`, reading each proposition at the variable `props` gives it, the
/// endpoints of each of the first `i` edges share no color below `k`.
pub open spec fn edges_proper(tau: spec_fn(int) -> bool, props: Seq<VertexColor>, k: int, edges: Seq<(usize, usize)>, i: int) -> bool {
    forall|e: int, c: int|
        #![trigger tau(index_of(props, vc(edges[e].0, c)))]
        0 <= e < i && 0 <= c < k ==> !(tau(index_of(props, vc(edges[e].0, c))) && tau(index_of(props, vc(edges[e].1, c))))
}

proof fn lemma_vertex_rules_mean(tau: spec_fn(int) -> bool, k: int, v: int)
    requires
        0 <= v,
    ensures
        cnf_holds(tau, vertex_rules(k, v)) == one_color_each(tau, k, v),
    decreases v,
{
    if v > 0 {
        lemma_vertex_rules_mean(tau, k, v - 1);
        let lits = vertex_lits(k, v - 1);
        lemma_cnf_holds_append(tau, vertex_rules(k, v - 1), seq![lits] + at_most_one_pairwise_clauses(lits));
        lemma_exactly_one_pairwise_means(tau, lits);
    }
}

/// A proposition `props` holds sits at a variable index of the range.
proof fn lemma_index_in(props: Seq<VertexColor>, x: VertexColor)
    requires
        props.contains(x),
        props.len() <= MAX_VAR_IDX + 1,
    ensures
        0 <= index_of(props, x) < props.len(),
        index_of(props, x) <= MAX_VAR_IDX,
        props[index_of(props, x)] == x,
{
}

proof fn lemma_edge_clauses_mean(tau: spec_fn(int) -> bool, props: Seq<VertexColor>, k: int, e: (usize, usize))
    requires
        0 <= k,
        props.len() <= MAX_VAR_IDX + 1,
        forall|c: int| 0 <= c < k ==> props.contains(#[trigger] vc(e.0, c)) && props.contains(vc(e.1, c)),
    ensures
        cnf_holds(tau, edge_clauses(props, k, e)) == forall|c: int|
            0 <= c < k ==> !(tau(#[trigger] index_of(props, vc(e.0, c))) && tau(index_of(props, vc(e.1, c)))),
{
    let cs = edge_clauses(props, k, e);
    assert forall|c: int| 0 <= c < k implies clause_holds(tau, #[trigger] cs[c]) == !(tau(index_of(props, vc(e.0, c))) && tau(
        index_of(props, vc(e.1, c)),
    )) by {
        let a = index_of(props, vc(e.0, c));
        let b = index_of(props, vc(e.1, c));
        lemma_index_in(props, vc(e.0, c));
        lemma_index_in(props, vc(e.1, c));
        let cl = cs[c];
        assert(cl == seq![value_lit(a, false), value_lit(b, false)]);
        assert(var_at(a).index() == a);
        assert(var_at(b).index() == b);
        if !(tau(a) && tau(b)) {
            if !tau(a) {
                assert(lit_holds(tau, cl[0]));
            } else {
                assert(lit_holds(tau, cl[1]));
            }
        }
    }
    if cnf_holds(tau, cs) {
        assert forall|c: int| 0 <= c < k implies !(tau(#[trigger] index_of(props, vc(e.0, c))) && tau(index_of(props, vc(e.1, c)))) by {
            assert(clause_holds(tau, cs[c]));
        }
    }
}

proof fn lemma_edge_rules_mean(tau: spec_fn(int) -> bool, props: Seq<VertexColor>, k: int, edges: Seq<(usize, usize)>, i: int)
    requires
        0 <= k,
        0 <= i <= edges.len(),
        props.len() <= MAX_VAR_IDX + 1,
        forall|j: int, c: int|
            0 <= j < edges.len() && 0 <= c < k ==> props.contains(#[trigger] vc(edges[j].0, c)) && props.contains(vc(edges[j].1, c)),
    ensures
        cnf_holds(tau, edge_rules(props, k, edges, i)) == edges_proper(tau, props, k, edges, i),
    decreases i,
{
    if i > 0 {
        lemma_edge_rules_mean(tau, props, k, edges, i - 1);
        lemma_cnf_holds_append(tau, edge_rules(props, k, edges, i - 1), edge_clauses(props, k, edges[i - 1]));
        assert forall|c: int| 0 <= c < k implies props.contains(#[trigger] vc(edges[i - 1].0, c)) && props.contains(vc(edges[i - 1].1, c)) by {
            assert(props.contains(vc(edges[i - 1].0, c)));
        }
        lemma_edge_clauses_mean(tau, props, k, edges[i - 1]);
        if edges_proper(tau, props, k, edges, i - 1) && cnf_holds(tau, edge_clauses(props, k, edges[i - 1])) {
            assert forall|e: int, c: int|
                #![trigger tau(index_of(props, vc(edges[e].0, c)))]
                0 <= e < i && 0 <= c < k implies !(tau(index_of(props, vc(edges[e].0, c))) && tau(index_of(props, vc(edges[e].1, c)))) by {
                if e == i - 1 {
                    assert(!(tau(index_of(props, vc(edges[i - 1].0, c))) && tau(index_of(props, vc(edges[i - 1].1, c)))));
                }
            }
        }
        if cnf_holds(tau, edge_rules(props, k, edges, i)) {
            assert forall|c: int| 0 <= c < k implies !(tau(#[trigger] index_of(props, vc(edges[i - 1].0, c))) && tau(index_of(props, vc(edges[i - 1].1, c)))) by {
                assert(edges_proper(tau, props, k, edges, i));
            }
        }
    }
}

/// The proposition at `v * k + c` is vertex `v` with color `c`.
proof fn lemma_prop_at(k: int, m: int, v: int, c: int)
    requires
        0 <= v,
        0 <= c < k,
        v * k + c < m,
    ensures
        coloring_props(k, m)[v * k + c] == (VertexColor { vertex: v as usize, color: c as usize }),
{
    lemma_row_major(v, c, k);
}

/// Only `v * k + c` holds vertex `v` with color `c`.
proof fn lemma_prop_unique(k: int, m: int, i: int, v: int, c: int)
    requires
        0 < k,
        0 <= i < m,
        m <= usize::MAX,
        0 <= v,
        0 <= c < k,
        v * k + c <= usize::MAX,
        coloring_props(k, m)[i] == (VertexColor { vertex: v as usize, color: c as usize }),
    ensures
        i == v * k + c,
{
    vstd::arithmetic::div_mod::lemma_fundamental_div_mod(i, k);
    assert(0 <= i / k) by {
        vstd::arithmetic::div_mod::lemma_div_pos_is_pos(i, k);
    }
    assert(i / k <= i) by {
        vstd::arithmetic::div_mod::lemma_div_is_ordered_by_denominator(i, 1, k);
    }
    assert(i % k < k) by {
        vstd::arithmetic::div_mod::lemma_mod_bound(i, k);
    }
    assert(i / k <= usize::MAX);
    assert(v <= usize::MAX) by (nonlinear_arith)
        requires
            v * k + c <= usize::MAX,
            0 < k,
            0 <= c,
            0 <= v,
    ;
    assert(((i / k) as usize) as int == i / k);
    assert(((i % k) as usize) as int == i % k);
    assert(i / k == v);
    assert(i % k == c);
    assert(k * (i / k) == v * k) by (nonlinear_arith)
        requires
            i / k == v,
    ;
}

/// The vertex-major propositions are pairwise distinct.
proof fn lemma_coloring_props_distinct(k: int, m: int)
    requires
        0 <= m <= usize::MAX,
        0 < k || m == 0,
    ensures
        distinct(coloring_props(k, m)),
{
    let p = coloring_props(k, m);
    assert forall|i: int, j: int| 0 <= i < p.len() && 0 <= j < p.len() && #[trigger] p[i] == #[trigger] p[j] implies i == j by {
        if p.len() > 0 {
            let v = i / k;
            let c = i % k;
            vstd::arithmetic::div_mod::lemma_fundamental_div_mod(i, k);
            vstd::arithmetic::div_mod::lemma_div_pos_is_pos(i, k);
            vstd::arithmetic::div_mod::lemma_mod_bound(i, k);
            assert(v * k + c == i) by (nonlinear_arith)
                requires
                    i == k * v + c,
            ;
            assert(p[i] == (VertexColor { vertex: v as usize, color: c as usize }));
            lemma_prop_unique(k, m, i, v, c);
            lemma_prop_unique(k, m, j, v, c);
        }
    }
}

impl Puzzle for GraphColoring {
    type Var = VertexColor;
    type Cell = ColoringCell;

    /// The propositions fit the variable range.
    open spec fn encodable(&self) -> bool {
        &&& self.vertex_count() * self.color_count() <= MAX_VAR_IDX + 1
        &&& self.props().len() <= MAX_VAR_IDX + 1
    }

    /// Every vertex with every color, vertex-major; then, edge by edge and color
    /// by color, any endpoint outside the graph with that color, the first time
    /// it occurs.
    open spec fn props(&self) -> Seq<VertexColor> {
        edges_regs(
            coloring_props(self.color_count() as int, (self.vertex_count() * self.color_count()) as int),
            self.color_count() as int,
            self.edge_list(),
            self.edge_list().len() as int,
        )
    }

    /// Exactly one color per vertex, then, for every edge in order and every
    /// color, the clause that its endpoints do not both take it.
    open spec fn rules(&self) -> Seq<Seq<Lit>> {
        vertex_rules(self.color_count() as int, self.vertex_count() as int) + edge_rules(
            self.props(),
            self.color_count() as int,
            self.edge_list(),
            self.edge_list().len() as int,
        )
    }

    /// Each registered pre-coloring, in vertex order, as a positive literal.
    open spec fn givens(&self, props: Seq<VertexColor>) -> Seq<Lit> {
        fixing_lits(props, self.fixings(), self.vertex_count() as int)
    }

    /// One row with a cell per vertex: its first color made true, and whether it
    /// is pre-colored.
    open spec fn shown(&self, value: spec_fn(VertexColor) -> Option<bool>) -> (nat, nat, Seq<ColoringCell>) {
        (
            1,
            self.vertex_count(),
            Seq::new(
                self.vertex_count(),
                |v: int|
                    ColoringCell {
                        color: first_color(value, v, 0, self.color_count() as int),
                        fixed: self.fixings()[v] is Some,
                    },
            ),
        )
    }

    fn encode_rules(&self, reg: &mut Registry<VertexColor>, cnf: &mut Cnf) {
        proof {
            use_type_invariant(self);
        }
        let ghost k = self.n_colors as int;
        let ghost n = self.n_vertices as int;
        let ghost total = n * k;
        let ghost props = self.props();
        let ghost p0 = coloring_props(k, total);
        let ghost base = cnf@;
        assert(reg@ =~= coloring_props(k, 0));

        let mut vertex: usize = 0;
        while vertex < self.n_vertices
            invariant
                vertex <= n,
                n == self.n_vertices,
                k == self.n_colors,
                total == n * k,
                total <= MAX_VAR_IDX + 1,
                reg@ == coloring_props(k, vertex * k),
            decreases n - vertex,
        {
            let mut color: usize = 0;
            while color < self.n_colors
                invariant
                    vertex < n,
                    color <= k,
                    n == self.n_vertices,
                    k == self.n_colors,
                    total == n * k,
                    total <= MAX_VAR_IDX + 1,
                    reg@ == coloring_props(k, vertex * k + color),
                decreases k - color,
            {
                let ghost m = vertex * k + color;
                proof {
                    lemma_index_inside(vertex as int, color as int, n, k);
                    if reg@.contains(VertexColor { vertex, color }) {
                        let i = choose|i: int| 0 <= i < reg@.len() && reg@[i] == VertexColor { vertex, color };
                        lemma_prop_unique(k, m, i, vertex as int, color as int);
                    }
                }
                reg.var(VertexColor { vertex, color });
                proof {
                    lemma_prop_at(k, m + 1, vertex as int, color as int);
                    assert(reg@ =~= coloring_props(k, m + 1));
                }
                color = color + 1;
            }
            proof {
                assert((vertex + 1) * k == vertex * k + k) by (nonlinear_arith);
            }
            vertex = vertex + 1;
        }
        assert(reg@ == p0);
        reg.lemma_wf();

        let mut vertex: usize = 0;
        while vertex < self.n_vertices
            invariant
                vertex <= n,
                n == self.n_vertices,
                k == self.n_colors,
                total == n * k,
                total <= MAX_VAR_IDX + 1,
                p0 == coloring_props(k, total),
                reg@ == p0,
                distinct(p0),
                cnf@ == base + vertex_rules(k, vertex as int),
                forall|i: int| 0 <= i < vertex * k ==> mentions(vertex_rules(k, vertex as int), i),
            decreases n - vertex,
        {
            let mut lits: Vec<Lit> = Vec::new();
            let mut color: usize = 0;
            while color < self.n_colors
                invariant
                    vertex < n,
                    color <= k,
                    n == self.n_vertices,
                    k == self.n_colors,
                    total == n * k,
                    total <= MAX_VAR_IDX + 1,
                    p0 == coloring_props(k, total),
                    reg@ == p0,
                    distinct(p0),
                    lits@ == vertex_lits(k, vertex as int).subrange(0, color as int),
                decreases k - color,
            {
                proof {
                    lemma_index_inside(vertex as int, color as int, n, k);
                    lemma_prop_at(k, total, vertex as int, color as int);
                }
                let var = reg.var(VertexColor { vertex, color });
                proof {
                    assert(p0[var.index()] == p0[vertex * k + color]);
                }
                lits.push(var.pos_lit());
                color = color + 1;
                assert(lits@ =~= vertex_lits(k, vertex as int).subrange(0, color as int));
            }
            assert(lits@ =~= vertex_lits(k, vertex as int));
            let ghost prev = vertex_rules(k, vertex as int);
            exactly_one_pairwise(lits.as_slice(), cnf);
            proof {
                assert(cnf@ =~= base + vertex_rules(k, vertex + 1));
                let next = vertex_rules(k, vertex + 1);
                assert(next == prev + (seq![lits@] + at_most_one_pairwise_clauses(lits@)));
                assert forall|i: int| 0 <= i < (vertex + 1) * k implies mentions(next, i) by {
                    assert((vertex + 1) * k == vertex * k + k) by (nonlinear_arith);
                    if i < vertex * k {
                        lemma_mentions_prefix(prev, seq![lits@] + at_most_one_pairwise_clauses(lits@), i);
                    } else {
                        let c = i - vertex * k;
                        assert(0 <= c < k);
                        lemma_index_inside(vertex as int, c, n, k);
                        assert(lits@[c] == value_lit(i, true));
                        assert(next[prev.len() as int] == lits@);
                        assert(next[prev.len() as int][c].var.index() == i);
                    }
                }
            }
            vertex = vertex + 1;
        }
        let ghost vrules = vertex_rules(k, n);
        proof {
            lemma_edges_regs(p0, k, self.edges@, self.edges@.len() as int);
        }

        let mut ei: usize = 0;
        while ei < self.edges.len()
            invariant
                ei <= self.edges@.len(),
                n == self.n_vertices,
                k == self.n_colors,
                total == n * k,
                total <= MAX_VAR_IDX + 1,
                p0 == coloring_props(k, total),
                props == self.props(),
                props == edges_regs(p0, k, self.edges@, self.edges@.len() as int),
                props.len() <= MAX_VAR_IDX + 1,
                distinct(props),
                self.edges@ == self.edge_list(),
                reg@ == edges_regs(p0, k, self.edges@, ei as int),
                cnf@ == base + vrules + edge_rules(props, k, self.edges@, ei as int),
            decreases self.edges@.len() - ei,
        {
            let (u, w) = self.edges[ei];
            let ghost before = cnf@;
            let ghost cur = edges_regs(p0, k, self.edges@, ei as int);
            proof {
                assert(self.edges@[ei as int] == (u, w));
                lemma_edges_regs_mono(p0, k, self.edges@, ei + 1, self.edges@.len() as int);
                assert(edges_regs(p0, k, self.edges@, ei + 1) == edge_regs(cur, (u, w), k));
            }
            let mut color: usize = 0;
            while color < self.n_colors
                invariant
                    color <= k,
                    n == self.n_vertices,
                    k == self.n_colors,
                    props.len() <= MAX_VAR_IDX + 1,
                    distinct(props),
                    extends_props(edge_regs(cur, (u, w), k), props),
                    reg@ == edge_regs(cur, (u, w), color as int),
                    cnf@ == before + edge_clauses(props, k, (u, w)).subrange(0, color as int),
                decreases k - color,
            {
                let ghost a = reg@;
                let ghost x = vc(u, color as int);
                let ghost y = vc(w, color as int);
                let ghost b = registered(a, x);
                let ghost c2 = registered(b, y);
                proof {
                    lemma_registered(a, x);
                    lemma_registered(b, y);
                    lemma_edge_regs_mono(cur, (u, w), color + 1, k);
                    assert(c2 == edge_regs(cur, (u, w), color + 1));
                    lemma_extends_trans(c2, edge_regs(cur, (u, w), k), props);
                    lemma_extends_trans(b, c2, props);
                    let ix = index_of(b, x);
                    assert(b[ix] == x);
                    assert(props[ix] == x);
                }
                let uv = reg.var(VertexColor { vertex: u, color });
                proof {
                    assert(reg@ == b);
                    lemma_index_kept(b, props, x);
                    let iy = index_of(c2, y);
                    assert(c2[iy] == y);
                    assert(props[iy] == y);
                }
                let wv = reg.var(VertexColor { vertex: w, color });
                proof {
                    assert(reg@ == c2);
                    lemma_index_kept(c2, props, y);
                    assert(uv.index() == index_of(props, x));
                    assert(wv.index() == index_of(props, y));
                }
                let mut c = Clause::new();
                c.add(uv.neg_lit());
                c.add(wv.neg_lit());
                assert(c@ =~= edge_clauses(props, k, (u, w))[color as int]);
                cnf.add_clause(c);
                color = color + 1;
                assert(cnf@ =~= before + edge_clauses(props, k, (u, w)).subrange(0, color as int));
            }
            assert(edge_clauses(props, k, (u, w)).subrange(0, color as int) =~= edge_clauses(props, k, (u, w)));
            ei = ei + 1;
            assert(cnf@ =~= base + vrules + edge_rules(props, k, self.edges@, ei as int));
        }
        proof {
            assert(cnf@ =~= base + self.rules());
            let erules = edge_rules(props, k, self.edges@, self.edges@.len() as int);
            assert forall|v: int| 0 <= v < props.len() implies mentions(self.rules(), v) by {
                if v < p0.len() {
                    lemma_mentions_prefix(vrules, erules, v);
                } else {
                    let j = choose|j: int| 0 <= j < self.edges@.len() && touches(#[trigger] props[v], #[trigger] self.edges@[j], k);
                    let d = props[v].color as int;
                    assert(props[v] == vc(self.edges@[j].0, d) || props[v] == vc(self.edges@[j].1, d));
                    assert(props.contains(props[v]));
                    assert(index_of(props, props[v]) == v);
                    lemma_index_in(props, vc(self.edges@[j].0, d));
                    lemma_index_in(props, vc(self.edges@[j].1, d));
                    lemma_edge_rules_mention(props, k, self.edges@, self.edges@.len() as int, j, d);
                    lemma_mentions_suffix(vrules, erules, v);
                }
            }
        }
    }

    fn assumptions(&self, reg: &Registry<VertexColor>) -> (lits: Vec<Lit>) {
        proof {
            use_type_invariant(self);
        }
        reg.lemma_wf();
        let mut lits: Vec<Lit> = Vec::new();
        let mut vertex: usize = 0;
        while vertex < self.n_vertices
            invariant
                vertex <= self.n_vertices,
                self.fixed@.len() == self.n_vertices,
                distinct(reg@),
                lits@ == fixing_lits(reg@, self.fixed@, vertex as int),
                lits_below(lits@, reg@.len() as int),
            decreases self.n_vertices - vertex,
        {
            match self.fixed[vertex] {
                Some(color) => {
                    match reg.get(&VertexColor { vertex, color }) {
                        Some(var) => {
                            proof {
                                crate::registry::lemma_decode_after_lit(reg@, VertexColor { vertex, color }, var.index());
                            }
                            lits.push(var.pos_lit());
                        },
                        None => {},
                    }
                },
                None => {},
            }
            vertex = vertex + 1;
        }
        lits
    }

    fn project(&self, view: &SolverView<VertexColor>) -> (grid: Grid<ColoringCell>) {
        proof {
            use_type_invariant(self);
        }
        let ghost value = |x: VertexColor| view.value_of_spec(x);
        let ghost k = self.n_colors as int;
        let mut cells: Vec<ColoringCell> = Vec::new();
        let mut vertex: usize = 0;
        while vertex < self.n_vertices
            invariant
                vertex <= self.n_vertices,
                k == self.n_colors,
                self.fixed@.len() == self.n_vertices,
                value == (|x: VertexColor| view.value_of_spec(x)),
                cells@ == Seq::new(
                    vertex as nat,
                    |v: int| ColoringCell { color: first_color(value, v, 0, k), fixed: self.fixed@[v] is Some },
                ),
            decreases self.n_vertices - vertex,
        {
            let mut found: Option<usize> = None;
            let mut color: usize = 0;
            while color < self.n_colors
                invariant
                    color <= k,
                    k == self.n_colors,
                    value == (|x: VertexColor| view.value_of_spec(x)),
                    found is None ==> first_color(value, vertex as int, 0, k) == first_color(value, vertex as int, color as int, k),
                    found is Some ==> first_color(value, vertex as int, 0, k) == found,
                decreases k - color,
            {
                if found.is_none() {
                    let x = view.value(&VertexColor { vertex, color });
                    if x == Some(true) {
                        found = Some(color);
                    }
                }
                color = color + 1;
            }
            cells.push(ColoringCell { color: found, fixed: self.fixed[vertex].is_some() });
            vertex = vertex + 1;
            assert(cells@ =~= Seq::new(
                vertex as nat,
                |v: int| ColoringCell { color: first_color(value, v, 0, k), fixed: self.fixed@[v] is Some },
            ));
        }
        Grid::from_cells(1, self.n_vertices, cells)
    }
}

impl GraphColoring {
    /// The coloring rules mean what they say: for an encodable instance, a total
    /// assignment satisfies them exactly when every vertex takes exactly one
    /// color and no edge joins two endpoints taking the same color, each
    /// endpoint's color read at the variable its proposition is registered as.
    pub proof fn lemma_rules_mean(&self, tau: spec_fn(int) -> bool)
        requires
            self.encodable(),
        ensures
            cnf_holds(tau, self.rules()) == (one_color_each(tau, self.color_count() as int, self.vertex_count() as int)
                && edges_proper(tau, self.props(), self.color_count() as int, self.edge_list(), self.edge_list().len() as int)),
            forall|v: int, c: int|
                0 <= v < self.vertex_count() && 0 <= c < self.color_count() ==> #[trigger] index_of(self.props(), vc(v as usize, c))
                    == v * self.color_count() + c,
    {
        let k = self.color_count() as int;
        let n = self.vertex_count() as int;
        let edges = self.edge_list();
        let p0 = coloring_props(k, n * k);
        lemma_vertex_rules_mean(tau, k, n);
        lemma_edges_regs(p0, k, edges, edges.len() as int);
        lemma_edge_rules_mean(tau, self.props(), k, edges, edges.len() as int);
        lemma_cnf_holds_append(tau, vertex_rules(k, n), edge_rules(self.props(), k, edges, edges.len() as int));
        assert(k > 0 || n * k == 0) by (nonlinear_arith)
            requires
                k >= 0,
        ;
        lemma_coloring_props_distinct(k, n * k);
        assert forall|v: int, c: int|
            0 <= v < n && 0 <= c < k implies #[trigger] index_of(self.props(), vc(v as usize, c)) == v * k + c by {
            lemma_index_inside(v, c, n, k);
            lemma_prop_at(k, n * k, v, c);
            assert(p0.contains(vc(v as usize, c)));
            lemma_index_kept(p0, self.props(), vc(v as usize, c));
            assert(p0[v * k + c] == vc(v as usize, c));
        }
    }
}

impl Clone for GraphColoring {
    fn clone(&self) -> (g: Self)
        ensures
            g.vertex_count() == self.vertex_count(),
            g.color_count() == self.color_count(),
            g.edge_list() == self.edge_list(),
            g.fixings() == self.fixings(),
    {
        proof {
            use_type_invariant(self);
        }
        GraphColoring {
            n_vertices: self.n_vertices,
            n_colors: self.n_colors,
            edges: copy_vec(&self.edges),
            fixed: copy_vec(&self.fixed),
        }
    }
}


/// The next pre-coloring of a vertex when it is clicked, with `k` colors: no
/// color, then each color in turn, then no color again.
pub open spec fn color_cycle(g: Option<usize>, k: nat) -> Option<usize> {
    match g {
        None => Some(0),
        Some(c) => if c + 1 < k {
            Some((c + 1) as usize)
        } else {
            None
        },
    }
}

/// `g` after `times` clicks.
pub open spec fn cycled(g: Option<usize>, k: nat, times: nat) -> Option<usize>
    decreases times,
{
    if times == 0 {
        g
    } else {
        cycled(color_cycle(g, k), k, (times - 1) as nat)
    }
}

/// Clicking `a` times and then `b` times is clicking `a + b` times.
proof fn lemma_cycled_split(g: Option<usize>, k: nat, a: nat, b: nat)
    ensures
        cycled(g, k, a + b) == cycled(cycled(g, k, a), k, b),
    decreases a,
{
    if a > 0 {
        lemma_cycled_split(color_cycle(g, k), k, (a - 1) as nat, b);
        assert((a + b - 1) as nat == (a - 1) as nat + b);
    }
}

/// From color `c < k`, clicking `j` more times (`c + j < k`) reaches color
/// `c + j`, and clicking `k − c` times clears it.
proof fn lemma_cycled_from(c: usize, k: nat, j: nat)
    requires
        c < k,
        k <= usize::MAX,
    ensures
        c + j < k ==> cycled(Some(c), k, j) == Some((c + j) as usize),
        j == k - c ==> cycled(Some(c), k, j) is None,
    decreases j,
{
    if j > 0 {
        if c + 1 < k {
            lemma_cycled_from((c + 1) as usize, k, (j - 1) as nat);
            assert(cycled(Some(c), k, j) == cycled(Some((c + 1) as usize), k, (j - 1) as nat));
        } else {
            assert(color_cycle(Some(c), k) is None);
            if j == k - c {
                assert(j == 1);
                assert(cycled(Some(c), k, 1) == cycled(None, k, 0));
            }
        }
    }
}

/// With `k ≥ 1` colors, `k + 1` clicks return a vertex to the pre-coloring it
/// started with, whether uncolored or colored with one of the `k` colors.
pub proof fn lemma_color_cycle_returns(g: Option<usize>, k: nat)
    requires
        1 <= k <= usize::MAX,
        g matches Some(c) ==> c < k,
    ensures
        cycled(g, k, k + 1) == g,
{
    lemma_cycled_from(0, k, (k - 1) as nat);
    lemma_cycled_from(0, k, k);
    match g {
        None => {
            assert(cycled(None, k, k + 1) == cycled(Some(0), k, k));
        },
        Some(c) => {
            lemma_cycled_split(Some(c), k, (k - c) as nat, (c + 1) as nat);
            lemma_cycled_from(c, k, (k - c) as nat);
            assert(cycled(None, k, (c + 1) as nat) == cycled(Some(0), k, c as nat));
            lemma_cycled_from(0, k, c as nat);
        },
    }
}

impl GraphColoring {
    /// Clear every pre-coloring.
    pub fn clear_fixings(&mut self)
        ensures
            final(self).vertex_count() == old(self).vertex_count(),
            final(self).color_count() == old(self).color_count(),
            final(self).edge_list() == old(self).edge_list(),
            final(self).fixings() == Seq::new(old(self).vertex_count(), |v: int| None::<usize>),
    {
        let n = self.n_vertices();
        proof {
            use_type_invariant(&*self);
        }
        let mut v: usize = 0;
        while v < n
            invariant
                n == old(self).vertex_count(),
                self.vertex_count() == n,
                self.color_count() == old(self).color_count(),
                self.edge_list() == old(self).edge_list(),
                self.fixings().len() == n,
                v <= n,
                forall|u: int| 0 <= u < v ==> self.fixings()[u] is None,
            decreases n - v,
        {
            self.fix(v, None);
            v = v + 1;
        }
        assert(self.fixings() =~= Seq::new(n as nat, |u: int| None::<usize>));
    }

    /// Cycle `vertex`'s pre-coloring as a click does: no color, then each color
    /// in turn, then no color.
    pub fn cycle_color(&mut self, vertex: usize)
        requires
            vertex < old(self).vertex_count(),
        ensures
            final(self).vertex_count() == old(self).vertex_count(),
            final(self).color_count() == old(self).color_count(),
            final(self).edge_list() == old(self).edge_list(),
            final(self).fixings() == old(self).fixings().update(
                vertex as int,
                color_cycle(old(self).fixings()[vertex as int], old(self).color_count()),
            ),
    {
        let k = self.n_colors();
        let next = match self.fixed(vertex) {
            None => Some(0),
            Some(c) => if k > 0 && c < k - 1 {
                Some(c + 1)
            } else {
                None
            },
        };
        self.fix(vertex, next);
    }
}

} // verus!
