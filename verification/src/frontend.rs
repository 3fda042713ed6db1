//! The logic the puzzle views share: which cells or vertices the last search
//! event names, the Akari and coloring status lines, a vertex's or cell's live
//! state mid-search, color names, the graph instances on offer and keyboard
//! movement on the Sudoku board.

use vstd::prelude::*;

use crate::akari::{Akari, Lamp};
use crate::coloring::{GraphColoring, VertexColor};
use crate::cdcl::{Event, Search};
use crate::puzzle::Deductions;
use crate::registry::keys_of;
use crate::cnf::Lit;
use crate::stepper::{
    core_lits, live_level, live_value, named, pair_lt, phase_text, solver_phase, sort_dedup_pairs, strictly_sorted_pairs, touched_lits, Stepper,
    READY,
};
use crate::text::{decimal, push_decimal, push_str};
use crate::view::Certainty;

verus! {

/// An empty deduction set: satisfiable, nothing proven. Used to project the
/// givens-only base grid.
pub fn empty_deductions() -> (d: Deductions<Lamp>)
    ensures
        d.satisfiable,
        d.proven@.len() == 0,
{
    Deductions { satisfiable: true, proven: Vec::new() }
}

/// The `(r, c)` of each lamp.
pub open spec fn lamp_coords(lamps: Seq<Lamp>) -> Seq<(usize, usize)> {
    lamps.map_values(|l: Lamp| (l.r, l.c))
}

/// The vertex of each proposition.
pub open spec fn vertices_of(vcs: Seq<VertexColor>) -> Seq<usize> {
    vcs.map_values(|x: VertexColor| x.vertex)
}

/// The coordinates of `lamps`, in order.
fn coords_of_lamps(lamps: &Vec<Lamp>) -> (r: Vec<(usize, usize)>)
    ensures
        r@ == lamp_coords(lamps@),
{
    let mut r: Vec<(usize, usize)> = Vec::new();
    let mut i: usize = 0;
    while i < lamps.len()
        invariant
            i <= lamps@.len(),
            r@ == lamp_coords(lamps@.subrange(0, i as int)),
        decreases lamps@.len() - i,
    {
        r.push((lamps[i].r, lamps[i].c));
        i = i + 1;
        assert(r@ =~= lamp_coords(lamps@.subrange(0, i as int)));
    }
    assert(lamps@.subrange(0, i as int) =~= lamps@);
    r
}

/// The white cells the stepper's last event touched, sorted and without
/// repeats: the "last step" outline.
pub fn step_touched_cells(st: &Stepper<Lamp>) -> (cells: Vec<(usize, usize)>)
    requires
        st.wf(),
    ensures
        strictly_sorted_pairs(cells@),
        forall|p: (usize, usize)|
            cells@.contains(p) <==> lamp_coords(named(st.props(), touched_lits(st.last_spec(), st.search_spec()))).contains(p),
{
    let lamps = st.touched_props();
    assert(keys_of(lamps@) =~= lamps@);
    sort_dedup_pairs(&coords_of_lamps(&lamps))
}

/// The white cells an UNSAT core names, sorted and without repeats: the core
/// flag.
pub fn step_core_cells(st: &Stepper<Lamp>) -> (cells: Vec<(usize, usize)>)
    ensures
        strictly_sorted_pairs(cells@),
        forall|p: (usize, usize)| cells@.contains(p) <==> lamp_coords(named(st.props(), core_lits(st.last_spec()))).contains(p),
{
    let lamps = st.core_props();
    assert(keys_of(lamps@) =~= lamps@);
    sort_dedup_pairs(&coords_of_lamps(&lamps))
}

/// `s` is strictly increasing: sorted, no repeats.
pub open spec fn strictly_sorted(s: Seq<usize>) -> bool {
    forall|i: int, j: int| 0 <= i < j < s.len() ==> s[i] < s[j]
}

/// The distinct values of `v`, sorted.
fn sort_dedup(v: &Vec<usize>) -> (r: Vec<usize>)
    ensures
        strictly_sorted(r@),
        forall|x: usize| r@.contains(x) <==> v@.contains(x),
{
    let mut pairs: Vec<(usize, usize)> = Vec::new();
    let mut i: usize = 0;
    while i < v.len()
        invariant
            i <= v@.len(),
            pairs@ == v@.subrange(0, i as int).map_values(|x: usize| (x, 0usize)),
        decreases v@.len() - i,
    {
        pairs.push((v[i], 0));
        i = i + 1;
        assert(pairs@ =~= v@.subrange(0, i as int).map_values(|x: usize| (x, 0usize)));
    }
    assert(v@.subrange(0, i as int) =~= v@);
    let sorted = sort_dedup_pairs(&pairs);
    let mut r: Vec<usize> = Vec::new();
    let mut k: usize = 0;
    while k < sorted.len()
        invariant
            k <= sorted@.len(),
            strictly_sorted_pairs(sorted@),
            forall|p: (usize, usize)| sorted@.contains(p) <==> pairs@.contains(p),
            pairs@ == v@.map_values(|x: usize| (x, 0usize)),
            r@ == sorted@.subrange(0, k as int).map_values(|p: (usize, usize)| p.0),
        decreases sorted@.len() - k,
    {
        r.push(sorted[k].0);
        k = k + 1;
        assert(r@ =~= sorted@.subrange(0, k as int).map_values(|p: (usize, usize)| p.0));
    }
    assert(sorted@.subrange(0, k as int) =~= sorted@);
    assert(r@ =~= sorted@.map_values(|p: (usize, usize)| p.0));
    proof {
        assert forall|a: int, b: int| 0 <= a < b < r@.len() implies r@[a] < r@[b] by {
            assert(sorted@.contains(sorted@[a]));
            assert(sorted@.contains(sorted@[b]));
            assert(pairs@.contains(sorted@[a]));
            assert(pairs@.contains(sorted@[b]));
            let ia = choose|ia: int| 0 <= ia < pairs@.len() && pairs@[ia] == sorted@[a];
            let ib = choose|ib: int| 0 <= ib < pairs@.len() && pairs@[ib] == sorted@[b];
            assert(sorted@[a].1 == 0 && sorted@[b].1 == 0);
            assert(pair_lt(sorted@[a], sorted@[b]));
            assert(r@[a] == sorted@[a].0 && r@[b] == sorted@[b].0);
        }
        assert forall|x: usize| r@.contains(x) <==> v@.contains(x) by {
            if r@.contains(x) {
                let a = choose|a: int| 0 <= a < r@.len() && r@[a] == x;
                assert(sorted@.contains(sorted@[a]));
                let b = choose|b: int| 0 <= b < pairs@.len() && pairs@[b] == sorted@[a];
                assert(v@[b] == x);
            }
            if v@.contains(x) {
                let b = choose|b: int| 0 <= b < v@.len() && v@[b] == x;
                assert(pairs@[b] == (x, 0usize));
                assert(pairs@.contains((x, 0usize)));
                let a = choose|a: int| 0 <= a < sorted@.len() && sorted@[a] == (x, 0usize);
                assert(r@[a] == x);
            }
        }
    }
    r
}

/// The vertices of `vcs`, in order.
fn vertices(vcs: &Vec<VertexColor>) -> (r: Vec<usize>)
    ensures
        r@ == vertices_of(vcs@),
{
    let mut r: Vec<usize> = Vec::new();
    let mut i: usize = 0;
    while i < vcs.len()
        invariant
            i <= vcs@.len(),
            r@ == vertices_of(vcs@.subrange(0, i as int)),
        decreases vcs@.len() - i,
    {
        r.push(vcs[i].vertex);
        i = i + 1;
        assert(r@ =~= vertices_of(vcs@.subrange(0, i as int)));
    }
    assert(vcs@.subrange(0, i as int) =~= vcs@);
    r
}

/// The vertices the stepper's last event touched, sorted and without repeats:
/// the "last step" outline.
pub fn step_touched_vertices(st: &Stepper<VertexColor>) -> (vs: Vec<usize>)
    requires
        st.wf(),
    ensures
        strictly_sorted(vs@),
        forall|v: usize| vs@.contains(v) <==> vertices_of(named(st.props(), touched_lits(st.last_spec(), st.search_spec()))).contains(v),
{
    let props = st.touched_props();
    assert(keys_of(props@) =~= props@);
    sort_dedup(&vertices(&props))
}

/// The vertices an UNSAT core names, sorted and without repeats: the core flag.
pub fn step_core_vertices(st: &Stepper<VertexColor>) -> (vs: Vec<usize>)
    ensures
        strictly_sorted(vs@),
        forall|v: usize| vs@.contains(v) <==> vertices_of(named(st.props(), core_lits(st.last_spec()))).contains(v),
{
    let props = st.core_props();
    assert(keys_of(props@) =~= props@);
    sort_dedup(&vertices(&props))
}

/// The human name of color index `c`, in palette order; a numeric label beyond
/// the named colors.
pub open spec fn color_text(c: nat) -> Seq<char> {
    if c == 0 {
        "red"@
    } else if c == 1 {
        "green"@
    } else if c == 2 {
        "blue"@
    } else if c == 3 {
        "amber"@
    } else {
        "color "@ + decimal(c)
    }
}

/// A human name for color index `c`, matching the palette order.
pub fn color_name(c: usize) -> (s: String)
    ensures
        s@ == color_text(c as nat),
{
    let mut s = String::new();
    if c == 0 {
        push_str(&mut s, "red");
    } else if c == 1 {
        push_str(&mut s, "green");
    } else if c == 2 {
        push_str(&mut s, "blue");
    } else if c == 3 {
        push_str(&mut s, "amber");
    } else {
        push_str(&mut s, "color ");
        push_decimal(&mut s, c as u64);
    }
    s
}

/// The selectable graph instances: generalized Petersen graphs with a
/// three-color budget.
#[derive(Clone, Copy, PartialEq, Eq, Debug)]
pub enum Instance {
    /// GP(5,2): highly symmetric, dispatched with little search.
    Petersen,
    /// GP(6,2), the Dürer graph: 3-colorable but not by local logic.
    Durer,
}

impl Instance {
    /// The tab label for the graph switcher.
    pub fn label(self) -> (s: &'static str)
        ensures
            s@ == match self {
                Instance::Petersen => "Petersen"@,
                Instance::Durer => "Dürer"@,
            },
    {
        match self {
            Instance::Petersen => "Petersen",
            Instance::Durer => "Dürer",
        }
    }

    /// The opening status line describing this instance.
    pub fn blurb(self) -> (s: &'static str)
        ensures
            s@ == match self {
                Instance::Petersen => "The Petersen graph, 3 colors. Click a vertex to cycle its color, then Deduce, Full solve, Backbone, or Step."@,
                Instance::Durer => "The Dürer graph GP(6,2), 3 colors — 3-colorable, but no local logic settles it. Press Step (or Play) to watch the search guess, hit a conflict, learn, and backtrack its way to a coloring."@,
            },
    {
        match self {
            Instance::Petersen => {
                "The Petersen graph, 3 colors. Click a vertex to cycle its color, then Deduce, Full solve, Backbone, or Step."
            },
            Instance::Durer => {
                "The Dürer graph GP(6,2), 3 colors — 3-colorable, but no local logic settles it. Press Step (or Play) to watch the search guess, hit a conflict, learn, and backtrack its way to a coloring."
            },
        }
    }
}

/// Step a `0..=8` board index by a unit `delta` (`-1..=1`), clamped to the
/// board: a negative delta moves down (not below 0), a positive one up (not
/// above 8), zero stays.
pub fn step_index(v: usize, delta: i32) -> (r: usize)
    ensures
        r == if delta < 0 {
            if v == 0 { 0 } else { (v - 1) as usize }
        } else if delta > 0 {
            if v + 1 < 8 { (v + 1) as usize } else { 8 }
        } else {
            v
        },
{
    if delta < 0 {
        if v == 0 {
            0
        } else {
            v - 1
        }
    } else if delta > 0 {
        if v < 7 {
            v + 1
        } else {
            8
        }
    } else {
        v
    }
}


/// `(u, w)` with the smaller endpoint first.
pub open spec fn ordered(u: int, w: int) -> (usize, usize) {
    if u < w {
        (u as usize, w as usize)
    } else {
        (w as usize, u as usize)
    }
}

/// The successor of `i` around an `n`-cycle.
pub open spec fn around(i: int, step: int, n: int) -> int {
    if i + step < n {
        i + step
    } else {
        i + step - n
    }
}

/// The three edges that vertex `i < n` of GP(`n`, 2) contributes: the outer
/// cycle edge `i – i+1`, the spoke `i – n+i`, and the inner edge `n+i – n+i+2`
/// (indices around their ring).
pub open spec fn gp_triple(n: int, i: int, e: (usize, usize)) -> bool {
    ||| e == ordered(i, around(i, 1, n))
    ||| e == ordered(i, n + i)
    ||| e == ordered(n + i, n + around(i, 2, n))
}

/// `e` is an edge of the generalized Petersen graph GP(`n`, 2).
pub open spec fn gp_edge(n: int, e: (usize, usize)) -> bool {
    exists|i: int| 0 <= i < n && #[trigger] gp_triple(n, i, e)
}

/// The generalized Petersen graph GP(`n`, 2) with a three-color budget: an outer
/// `n`-cycle, spokes, and an inner ring stepping by two.
fn generalized_petersen(n: usize) -> (g: GraphColoring)
    requires
        3 <= n <= 1024,
    ensures
        g.vertex_count() == 2 * n,
        g.color_count() == 3,
        g.fixings() == Seq::new((2 * n) as nat, |v: int| None::<usize>),
        forall|e: (usize, usize)| g.edge_list().contains(e) <==> gp_edge(n as int, e),
{
    let mut g = GraphColoring::new(2 * n, 3);
    let mut i: usize = 0;
    while i < n
        invariant
            3 <= n <= 1024,
            i <= n,
            g.vertex_count() == 2 * n,
            g.color_count() == 3,
            g.fixings() == Seq::new((2 * n) as nat, |v: int| None::<usize>),
            forall|e: (usize, usize)|
                g.edge_list().contains(e) <==> exists|j: int| 0 <= j < i && #[trigger] gp_triple(n as int, j, e),
        decreases n - i,
    {
        let next = if i + 1 < n { i + 1 } else { 0 };
        let skip = if i + 2 < n { i + 2 } else { i + 2 - n };
        let ghost before = g.edge_list();
        g.add_edge(i, next);
        let ghost after1 = g.edge_list();
        g.add_edge(i, i + n);
        let ghost after2 = g.edge_list();
        g.add_edge(n + i, n + skip);
        proof {
            let a = ordered(i as int, next as int);
            let b = ordered(i as int, (i + n) as int);
            let c = ordered((n + i) as int, (n + skip) as int);
            assert forall|e: (usize, usize)| after1.contains(e) <==> (before.contains(e) || e == a) by {
                if before.contains(a) {
                } else {
                    if after1.contains(e) && !before.contains(e) {
                        let k = choose|k: int| 0 <= k < after1.len() && after1[k] == e;
                        assert(k == before.len());
                    }
                    if before.contains(e) {
                        let k = choose|k: int| 0 <= k < before.len() && before[k] == e;
                        assert(after1[k] == e);
                    }
                    if e == a {
                        assert(after1[before.len() as int] == a);
                    }
                }
            }
            assert forall|e: (usize, usize)| after2.contains(e) <==> (after1.contains(e) || e == b) by {
                if after1.contains(b) {
                } else {
                    if after2.contains(e) && !after1.contains(e) {
                        let k = choose|k: int| 0 <= k < after2.len() && after2[k] == e;
                        assert(k == after1.len());
                    }
                    if after1.contains(e) {
                        let k = choose|k: int| 0 <= k < after1.len() && after1[k] == e;
                        assert(after2[k] == e);
                    }
                    if e == b {
                        assert(after2[after1.len() as int] == b);
                    }
                }
            }
            let last = g.edge_list();
            assert forall|e: (usize, usize)| last.contains(e) <==> (after2.contains(e) || e == c) by {
                if after2.contains(c) {
                } else {
                    if last.contains(e) && !after2.contains(e) {
                        let k = choose|k: int| 0 <= k < last.len() && last[k] == e;
                        assert(k == after2.len());
                    }
                    if after2.contains(e) {
                        let k = choose|k: int| 0 <= k < after2.len() && after2[k] == e;
                        assert(last[k] == e);
                    }
                    if e == c {
                        assert(last[after2.len() as int] == c);
                    }
                }
            }
            assert forall|e: (usize, usize)|
                last.contains(e) <==> exists|j: int| 0 <= j < i + 1 && #[trigger] gp_triple(n as int, j, e) by {
                if last.contains(e) {
                    if before.contains(e) {
                        let j = choose|j: int| 0 <= j < i && #[trigger] gp_triple(n as int, j, e);
                    } else {
                        assert(gp_triple(n as int, i as int, e));
                    }
                }
                if exists|j: int| 0 <= j < i + 1 && #[trigger] gp_triple(n as int, j, e) {
                    let j = choose|j: int| 0 <= j < i + 1 && #[trigger] gp_triple(n as int, j, e);
                    if j < i {
                        assert(before.contains(e));
                    }
                }
            }
        }
        i = i + 1;
    }
    g
}

/// The Petersen graph GP(5, 2), three colors.
pub fn petersen() -> (g: GraphColoring)
    ensures
        g.vertex_count() == 10,
        g.color_count() == 3,
        g.fixings() == Seq::new(10, |v: int| None::<usize>),
        forall|e: (usize, usize)| g.edge_list().contains(e) <==> gp_edge(5, e),
{
    generalized_petersen(5)
}

/// The Dürer graph GP(6, 2), three colors: 3-colorable, yet no local logic
/// settles it.
pub fn durer() -> (g: GraphColoring)
    ensures
        g.vertex_count() == 12,
        g.color_count() == 3,
        g.fixings() == Seq::new(12, |v: int| None::<usize>),
        forall|e: (usize, usize)| g.edge_list().contains(e) <==> gp_edge(6, e),
{
    generalized_petersen(6)
}

impl Instance {
    /// This instance's graph: GP(5, 2) for Petersen, GP(6, 2) for Dürer.
    pub fn graph(self) -> (g: GraphColoring)
        ensures
            g.color_count() == 3,
            g.vertex_count() == match self {
                Instance::Petersen => 10nat,
                Instance::Durer => 12nat,
            },
            g.fixings() == Seq::new(g.vertex_count(), |v: int| None::<usize>),
            forall|e: (usize, usize)| g.edge_list().contains(e) <==> gp_edge(
                match self {
                    Instance::Petersen => 5,
                    Instance::Durer => 6,
                },
                e,
            ),
    {
        match self {
            Instance::Petersen => petersen(),
            Instance::Durer => durer(),
        }
    }
}


/// `"(r, c)"`.
pub open spec fn at_text(r: nat, c: nat) -> Seq<char> {
    "("@ + decimal(r) + ", "@ + decimal(c) + ")"@
}

/// What the Akari status line says for event `ev`, decoding literals through
/// `props`; a literal over a wall-count register is named as such.
pub open spec fn lighting_text(ev: Option<Event>, props: Seq<Lamp>) -> Seq<char> {
    match ev {
        None => READY@,
        Some(e) => match phase_text(e) {
            Some(t) => t,
            None => match e {
                Event::Decide { lit } => if lit.var.index() < props.len() {
                    let l = props[lit.var.index()];
                    if lit.positive {
                        "Guess: a lamp at "@ + at_text(l.r as nat, l.c as nat)
                    } else {
                        "Guess: no lamp at "@ + at_text(l.r as nat, l.c as nat)
                    }
                } else {
                    "Guess on an internal wall-count variable."@
                },
                Event::Propagate { lit, .. } => if lit.var.index() < props.len() {
                    let l = props[lit.var.index()];
                    if lit.positive {
                        "Forced: a lamp at "@ + at_text(l.r as nat, l.c as nat)
                    } else {
                        "Ruled out a lamp at "@ + at_text(l.r as nat, l.c as nat)
                    }
                } else {
                    "Propagating an internal wall-count variable."@
                },
                Event::Sat => "Every cell lit — a valid lighting, found by search!"@,
                _ => "These givens contradict — no valid lighting exists."@,
            },
        },
    }
}

/// Append `"(r, c)"` to `s`.
fn push_at(s: &mut String, r: usize, c: usize)
    ensures
        final(s)@ == old(s)@ + at_text(r as nat, c as nat),
{
    let ghost start = s@;
    push_str(s, "(");
    push_decimal(s, r as u64);
    push_str(s, ", ");
    push_decimal(s, c as u64);
    push_str(s, ")");
    assert(s@ =~= start + at_text(r as nat, c as nat));
}

/// Akari event narration.
impl Stepper<Lamp> {
    /// The last event, decoded into a one-line status in Akari's vocabulary.
    pub fn description(&self) -> (s: String)
        ensures
            s@ == lighting_text(self.last_spec(), self.props()),
    {
        let event = match self.last_event() {
            Some(e) => e,
            None => {
                let mut s = String::new();
                push_str(&mut s, READY);
                return s;
            },
        };
        match solver_phase(event) {
            Some(phase) => {
                return phase;
            },
            None => {},
        }
        let mut s = String::new();
        match event {
            Event::Decide { lit } => match self.decode(*lit) {
                Some((lamp, holds)) => {
                    if holds {
                        push_str(&mut s, "Guess: a lamp at ");
                    } else {
                        push_str(&mut s, "Guess: no lamp at ");
                    }
                    push_at(&mut s, lamp.r, lamp.c);
                },
                None => {
                    push_str(&mut s, "Guess on an internal wall-count variable.");
                },
            },
            Event::Propagate { lit, .. } => match self.decode(*lit) {
                Some((lamp, true)) => {
                    push_str(&mut s, "Forced: a lamp at ");
                    push_at(&mut s, lamp.r, lamp.c);
                },
                Some((lamp, false)) => {
                    push_str(&mut s, "Ruled out a lamp at ");
                    push_at(&mut s, lamp.r, lamp.c);
                },
                None => {
                    push_str(&mut s, "Propagating an internal wall-count variable.");
                },
            },
            Event::Sat => {
                push_str(&mut s, "Every cell lit — a valid lighting, found by search!");
            },
            _ => {
                push_str(&mut s, "These givens contradict — no valid lighting exists.");
            },
        }
        s
    }
}

/// What the coloring status line says for event `ev`, decoding literals
/// through `props`.
pub open spec fn coloring_text(ev: Option<Event>, props: Seq<VertexColor>) -> Seq<char> {
    match ev {
        None => READY@,
        Some(e) => match phase_text(e) {
            Some(t) => t,
            None => match e {
                Event::Decide { lit } => {
                    let x = props[lit.var.index()];
                    "Guess: vertex "@ + decimal(x.vertex as nat) + (if lit.positive {
                        " = "@
                    } else {
                        " ≠ "@
                    }) + color_text(x.color as nat)
                },
                Event::Propagate { lit, .. } => {
                    let x = props[lit.var.index()];
                    if lit.positive {
                        "Forced: vertex "@ + decimal(x.vertex as nat) + " = "@ + color_text(x.color as nat)
                    } else {
                        "Ruled out "@ + color_text(x.color as nat) + " at vertex "@ + decimal(x.vertex as nat)
                    }
                },
                Event::Sat => "A proper coloring, found by search!"@,
                _ => "These pre-colorings contradict — no proper coloring exists."@,
            },
        },
    }
}

/// Coloring event narration.
impl Stepper<VertexColor> {
    /// The last event, decoded into a one-line status in the coloring's
    /// vocabulary.
    pub fn description(&self) -> (s: String)
        requires
            self.last_spec() matches Some(Event::Decide { lit }) ==> lit.var.index() < self.props().len(),
            self.last_spec() matches Some(Event::Propagate { lit, .. }) ==> lit.var.index() < self.props().len(),
        ensures
            s@ == coloring_text(self.last_spec(), self.props()),
    {
        let event = match self.last_event() {
            Some(e) => e,
            None => {
                let mut s = String::new();
                push_str(&mut s, READY);
                return s;
            },
        };
        match solver_phase(event) {
            Some(phase) => {
                return phase;
            },
            None => {},
        }
        let mut s = String::new();
        match event {
            Event::Decide { lit } => {
                let (x, holds) = self.vertex_color_of(*lit);
                push_str(&mut s, "Guess: vertex ");
                push_decimal(&mut s, x.vertex as u64);
                if holds {
                    push_str(&mut s, " = ");
                } else {
                    push_str(&mut s, " ≠ ");
                }
                let name = color_name(x.color);
                push_str(&mut s, name.as_str());
            },
            Event::Propagate { lit, .. } => {
                let (x, holds) = self.vertex_color_of(*lit);
                let name = color_name(x.color);
                if holds {
                    push_str(&mut s, "Forced: vertex ");
                    push_decimal(&mut s, x.vertex as u64);
                    push_str(&mut s, " = ");
                    push_str(&mut s, name.as_str());
                } else {
                    push_str(&mut s, "Ruled out ");
                    push_str(&mut s, name.as_str());
                    push_str(&mut s, " at vertex ");
                    push_decimal(&mut s, x.vertex as u64);
                }
            },
            Event::Sat => {
                push_str(&mut s, "A proper coloring, found by search!");
            },
            _ => {
                push_str(&mut s, "These pre-colorings contradict — no proper coloring exists.");
            },
        }
        s
    }

    /// Decode a literal to its vertex-color proposition and polarity.
    fn vertex_color_of(&self, lit: Lit) -> (r: (VertexColor, bool))
        requires
            lit.var.index() < self.props().len(),
        ensures
            r.0 == self.props()[lit.var.index()],
            r.1 == lit.positive,
    {
        match self.decode(lit) {
            Some(x) => x,
            None => (VertexColor { vertex: 0, color: 0 }, false),
        }
    }
}


/// How settled the live value of `k` is: proven when set at or below the
/// givens' base level, hypothetical otherwise.
pub open spec fn live_certainty<K>(props: Seq<K>, search: Search, k: K) -> Certainty {
    if live_level(props, search, k) matches Some(l) && l <= search.base_level_spec() {
        Certainty::Proven
    } else {
        Certainty::Hypothetical
    }
}

/// `k` is ruled out, but only above the givens' base level: under a guess.
pub open spec fn ruled_out_by_guess<K>(props: Seq<K>, search: Search, k: K) -> bool {
    &&& live_value(props, search, k) == Some(false)
    &&& live_level(props, search, k) matches Some(l) && l > search.base_level_spec()
}

/// The first color `c`, `from ≤ c < n`, that the search sets true at `vertex`.
pub open spec fn first_set_color(props: Seq<VertexColor>, search: Search, vertex: usize, from: int, n: int) -> Option<usize>
    decreases n - from,
{
    if from >= n {
        None
    } else if live_value(props, search, VertexColor { vertex, color: from as usize }) == Some(true) {
        Some(from as usize)
    } else {
        first_set_color(props, search, vertex, from + 1, n)
    }
}

/// The first set color lies in the range searched.
proof fn lemma_first_set_color_range(props: Seq<VertexColor>, search: Search, vertex: usize, from: int, n: int)
    requires
        0 <= from,
        n <= usize::MAX,
    ensures
        first_set_color(props, search, vertex, from, n) matches Some(c) ==> from <= c < n,
    decreases n - from,
{
    if from < n {
        lemma_first_set_color_range(props, search, vertex, from + 1, n);
    }
}

/// A vertex's live Step state: the color it holds, if any, with how settled it
/// is; which colors are still possible; and which are ruled out only under the
/// current guess.
pub struct StepVertex {
    /// The first color set true, and whether that is proven or hypothetical.
    pub placed: Option<(usize, Certainty)>,
    /// Per color: not yet ruled out.
    pub candidate: Vec<bool>,
    /// Per color: ruled out above the givens' base level.
    pub hypo_eliminated: Vec<bool>,
}

/// Coloring views of the live search.
impl Stepper<VertexColor> {
    /// The live Step state of `vertex` over colors `0..n_colors`.
    pub fn step_vertex(&self, vertex: usize, n_colors: usize) -> (sv: StepVertex)
        requires
            self.wf(),
        ensures
            sv.placed == match first_set_color(self.props(), self.search_spec(), vertex, 0, n_colors as int) {
                Some(c) => Some(
                    (c, live_certainty(self.props(), self.search_spec(), VertexColor { vertex, color: c })),
                ),
                None => None::<(usize, Certainty)>,
            },
            sv.candidate@ == Seq::new(
                n_colors as nat,
                |c: int| live_value(self.props(), self.search_spec(), VertexColor { vertex, color: c as usize }) != Some(false),
            ),
            sv.hypo_eliminated@ == Seq::new(
                n_colors as nat,
                |c: int| ruled_out_by_guess(self.props(), self.search_spec(), VertexColor { vertex, color: c as usize }),
            ),
    {
        let ghost props = self.props();
        let ghost search = self.search_spec();
        let mut placed: Option<(usize, Certainty)> = None;
        let mut candidate: Vec<bool> = Vec::new();
        let mut hypo: Vec<bool> = Vec::new();
        let base = self.base_level();
        let mut color: usize = 0;
        while color < n_colors
            invariant
                self.wf(),
                props == self.props(),
                search == self.search_spec(),
                base == search.base_level_spec(),
                color <= n_colors,
                match first_set_color(props, search, vertex, 0, n_colors as int) {
                    Some(c) => if c < color {
                        placed == Some((c, live_certainty(props, search, VertexColor { vertex, color: c })))
                    } else {
                        placed is None && first_set_color(props, search, vertex, color as int, n_colors as int) == Some(c)
                    },
                    None => placed is None && first_set_color(props, search, vertex, color as int, n_colors as int) is None,
                },
                candidate@ == Seq::new(
                    color as nat,
                    |c: int| live_value(props, search, VertexColor { vertex, color: c as usize }) != Some(false),
                ),
                hypo@ == Seq::new(
                    color as nat,
                    |c: int| ruled_out_by_guess(props, search, VertexColor { vertex, color: c as usize }),
                ),
            decreases n_colors - color,
        {
            let x = VertexColor { vertex, color };
            let value = self.value(&x);
            assert(first_set_color(props, search, vertex, color as int, n_colors as int) == if value == Some(true) {
                Some(color)
            } else {
                first_set_color(props, search, vertex, color + 1, n_colors as int)
            });
            proof {
                lemma_first_set_color_range(props, search, vertex, color + 1, n_colors as int);
            }
            if placed.is_none() && value == Some(true) {
                placed = Some((color, self.certainty(&x)));
            }
            candidate.push(value != Some(false));
            let eliminated = match self.assigned(&x) {
                Some((false, level)) => level > base,
                _ => false,
            };
            hypo.push(eliminated);
            color = color + 1;
            assert(candidate@ =~= Seq::new(
                color as nat,
                |c: int| live_value(props, search, VertexColor { vertex, color: c as usize }) != Some(false),
            ));
            assert(hypo@ =~= Seq::new(
                color as nat,
                |c: int| ruled_out_by_guess(props, search, VertexColor { vertex, color: c as usize }),
            ));
        }
        StepVertex { placed, candidate, hypo_eliminated: hypo }
    }
}

/// Akari views of the live search.
impl Stepper<Lamp> {
    /// Whether white cell `(r, c)` of `puzzle` reads as lit mid-search: some
    /// cell of its cross holds a lamp the search has placed.
    pub fn lights(&self, puzzle: &Akari, r: usize, c: usize) -> (b: bool)
        requires
            self.wf(),
            r < puzzle.nrows(),
            c < puzzle.ncols(),
        ensures
            b == exists|k: int|
                0 <= k < puzzle.cross_spec(r as int, c as int).len() && live_value(
                    self.props(),
                    self.search_spec(),
                    Lamp {
                        r: (#[trigger] puzzle.cross_spec(r as int, c as int)[k]).0,
                        c: puzzle.cross_spec(r as int, c as int)[k].1,
                    },
                ) == Some(true),
    {
        let cells = puzzle.cross_cells(r, c);
        let ghost cross = puzzle.cross_spec(r as int, c as int);
        let mut i: usize = 0;
        while i < cells.len()
            invariant
                self.wf(),
                cells@ == cross,
                cross == puzzle.cross_spec(r as int, c as int),
                i <= cells@.len(),
                forall|k: int|
                    0 <= k < i ==> live_value(
                        self.props(),
                        self.search_spec(),
                        Lamp { r: (#[trigger] cross[k]).0, c: cross[k].1 },
                    ) != Some(true),
            decreases cells@.len() - i,
        {
            let (rr, cc) = cells[i];
            if self.value(&Lamp { r: rr, c: cc }) == Some(true) {
                assert(cross[i as int] == (rr, cc));
                assert(live_value(self.props(), self.search_spec(), Lamp { r: cross[i as int].0, c: cross[i as int].1 }) == Some(
                    true,
                ));
                return true;
            }
            i = i + 1;
        }
        false
    }
}

} // verus!
