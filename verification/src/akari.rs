//! Akari (Light Up): the cardinality puzzle.
//!
//! Lamps go on the white cells of a walled grid so that:
//!
//! - no two lamps see each other: at most one lamp in each maximal run of
//!   white cells (pairwise at-most-one);
//! - every white cell is lit: each cell's cross (its row run and column run)
//!   holds at least one lamp (at-least-one);
//! - numbered walls are satisfied: a wall carrying `k` has exactly `k` lamps
//!   among its orthogonal white neighbors (the sequential exactly-k).
//!
//! The board is the fixed instance and becomes the rules; the vocabulary is one
//! proposition per white cell, [`Lamp`]. Hand-placed lamps (and cells marked
//! empty) are the givens and cross as assumptions.

use vstd::prelude::*;

use crate::backbone::mentions;
use crate::cardinality::{
    admits, agree_below, count_true, lemma_below_append, lemma_below_mono, lemma_cnf_frame, lemma_count_agrees,
    lemma_exactly_k_below, lemma_exactly_k_means, lemma_pairwise_below,
};
use crate::cnf::{
    clause_holds, clauses_below, cnf_holds, lemma_index_injective, lit_holds, var_at, lemma_index_nonneg, lemma_var_at, lemma_var_at_index, lits_below, Cnf, Lit, Var,
    VarManager, MAX_VAR_IDX,
};
use crate::encodings::{
    at_least_k_aux, at_least_k_clauses, at_least_one, at_most_k_aux, at_most_k_clauses, at_most_one_pairwise,
    at_most_one_pairwise_clauses, at_most_one_true, exactly_k_sequential, lemma_at_most_one_pairwise_means,
    lemma_cnf_holds_append, some_true,
};
use crate::propagate::value_lit;
use crate::puzzle::{copy_vec, lemma_index_inside, lemma_mentions_prefix, lemma_mentions_suffix, lemma_row_major, Deductions, Grid, Puzzle};
use crate::registry::{distinct, index_of, Proposition, Registry};
use crate::sudoku::{is_space, is_space_char};
use crate::text::push_char;
use crate::view::SolverView;

verus! {

broadcast use lemma_var_at, lemma_var_at_index, lemma_index_injective, lemma_index_nonneg;

/// One square of an Akari board.
#[derive(Debug, Clone, Copy, PartialEq, Eq)]
pub enum Square {
    /// A white cell: a lamp may go here.
    White,
    /// A black wall. `Some(k)` is a numbered wall demanding exactly `k` adjacent
    /// lamps; `None` is a plain wall.
    Wall(Option<u8>),
}

/// An Akari proposition: "a lamp sits on white cell `(r, c)`".
#[derive(Debug, Clone, Copy, PartialEq, Eq, Hash)]
pub struct Lamp {
    pub r: usize,
    pub c: usize,
}

impl View for Lamp {
    type V = Lamp;

    open spec fn view(&self) -> Lamp {
        *self
    }
}

impl Proposition for Lamp {
    fn same(&self, other: &Self) -> (b: bool) {
        self.r == other.r && self.c == other.c
    }

    fn duplicate(&self) -> (c: Self) {
        *self
    }
}

/// Per-square display state produced by [`Akari::project`].
#[derive(Debug, Clone, Copy, PartialEq, Eq)]
pub enum AkariCell {
    /// A wall, carrying its clue number if any.
    Wall(Option<u8>),
    /// A white cell: whether a lamp sits here (`Some(true)`), it is proven empty
    /// (`Some(false)`) or undetermined (`None`); whether some known lamp lights
    /// it; and whether its lamp state was a given.
    White { lamp: Option<bool>, lit: bool, given: bool },
}

/// An Akari instance: a fixed walled board plus any hand-placed lamp givens.
#[derive(Debug)]
pub struct Akari {
    rows: usize,
    cols: usize,
    /// Row-major squares.
    board: Vec<Square>,
    /// Row-major lamp givens: `Some(true)` a placed lamp, `Some(false)` a cell
    /// marked empty, `None` unmarked.
    givens: Vec<Option<bool>>,
}

/// Append `cur` to `rs` when it is a run of at least two cells.
pub open spec fn flush(rs: Seq<Seq<(usize, usize)>>, cur: Seq<(usize, usize)>) -> Seq<Seq<(usize, usize)>> {
    if cur.len() > 1 {
        rs.push(cur)
    } else {
        rs
    }
}

impl Akari {
    /// One square and one given per cell.
    #[verifier::type_invariant]
    closed spec fn wf(self) -> bool {
        &&& self.board@.len() == self.rows * self.cols
        &&& self.givens@.len() == self.rows * self.cols
    }

    /// The number of rows.
    pub closed spec fn nrows(&self) -> nat {
        self.rows as nat
    }

    /// The number of columns.
    pub closed spec fn ncols(&self) -> nat {
        self.cols as nat
    }

    /// The squares, row-major.
    pub closed spec fn squares(&self) -> Seq<Square> {
        self.board@
    }

    /// The lamp givens, row-major.
    pub closed spec fn lamp_givens(&self) -> Seq<Option<bool>> {
        self.givens@
    }

    /// The board and givens fill the grid exactly.
    pub fn lemma_wf(&self)
        ensures
            self.squares().len() == self.nrows() * self.ncols(),
            self.lamp_givens().len() == self.nrows() * self.ncols(),
    {
        proof {
            use_type_invariant(self);
        }
    }

    /// `(r, c)` is a white cell of the board.
    pub open spec fn white_at(&self, r: int, c: int) -> bool {
        &&& 0 <= r < self.nrows()
        &&& 0 <= c < self.ncols()
        &&& self.squares()[r * self.ncols() + c] is White
    }

    /// The white cells left of `(r, c)` before a wall, nearest first.
    pub open spec fn left_run(&self, r: int, c: int) -> Seq<(usize, usize)>
        decreases c,
    {
        if c <= 0 || !self.white_at(r, c - 1) {
            Seq::empty()
        } else {
            seq![(r as usize, (c - 1) as usize)] + self.left_run(r, c - 1)
        }
    }

    /// The white cells right of `(r, c)` before a wall, nearest first.
    pub open spec fn right_run(&self, r: int, c: int) -> Seq<(usize, usize)>
        decreases self.ncols() - c,
    {
        if c + 1 >= self.ncols() || !self.white_at(r, c + 1) {
            Seq::empty()
        } else {
            seq![(r as usize, (c + 1) as usize)] + self.right_run(r, c + 1)
        }
    }

    /// The white cells above `(r, c)` before a wall, nearest first.
    pub open spec fn up_run(&self, r: int, c: int) -> Seq<(usize, usize)>
        decreases r,
    {
        if r <= 0 || !self.white_at(r - 1, c) {
            Seq::empty()
        } else {
            seq![((r - 1) as usize, c as usize)] + self.up_run(r - 1, c)
        }
    }

    /// The white cells below `(r, c)` before a wall, nearest first.
    pub open spec fn down_run(&self, r: int, c: int) -> Seq<(usize, usize)>
        decreases self.nrows() - r,
    {
        if r + 1 >= self.nrows() || !self.white_at(r + 1, c) {
            Seq::empty()
        } else {
            seq![((r + 1) as usize, c as usize)] + self.down_run(r + 1, c)
        }
    }

    /// The cross of `(r, c)`: itself, then its row run leftward and rightward,
    /// then its column run upward and downward. A lamp here lights exactly these
    /// cells, and exactly their lamps light it.
    pub open spec fn cross_spec(&self, r: int, c: int) -> Seq<(usize, usize)> {
        seq![(r as usize, c as usize)] + self.left_run(r, c) + self.right_run(r, c) + self.up_run(r, c) + self.down_run(r, c)
    }

    /// The white orthogonal neighbors of `(r, c)`: up, down, left, right.
    pub open spec fn neighbors_spec(&self, r: int, c: int) -> Seq<(usize, usize)> {
        (if r > 0 && self.white_at(r - 1, c) {
            seq![((r - 1) as usize, c as usize)]
        } else {
            Seq::empty()
        }) + (if r + 1 < self.nrows() && self.white_at(r + 1, c) {
            seq![((r + 1) as usize, c as usize)]
        } else {
            Seq::empty()
        }) + (if c > 0 && self.white_at(r, c - 1) {
            seq![(r as usize, (c - 1) as usize)]
        } else {
            Seq::empty()
        }) + (if c + 1 < self.ncols() && self.white_at(r, c + 1) {
            seq![(r as usize, (c + 1) as usize)]
        } else {
            Seq::empty()
        })
    }

    /// Scanning row `r` left to right through column `c`: the runs closed so
    /// far and the run still open.
    pub open spec fn hscan(&self, r: int, c: int) -> (Seq<Seq<(usize, usize)>>, Seq<(usize, usize)>)
        decreases c,
    {
        if c <= 0 {
            (Seq::empty(), Seq::empty())
        } else {
            let (rs, cur) = self.hscan(r, c - 1);
            if self.white_at(r, c - 1) {
                (rs, cur.push((r as usize, (c - 1) as usize)))
            } else {
                (flush(rs, cur), Seq::empty())
            }
        }
    }

    /// Scanning column `c` top to bottom through row `r`.
    pub open spec fn vscan(&self, c: int, r: int) -> (Seq<Seq<(usize, usize)>>, Seq<(usize, usize)>)
        decreases r,
    {
        if r <= 0 {
            (Seq::empty(), Seq::empty())
        } else {
            let (rs, cur) = self.vscan(c, r - 1);
            if self.white_at(r - 1, c) {
                (rs, cur.push(((r - 1) as usize, c as usize)))
            } else {
                (flush(rs, cur), Seq::empty())
            }
        }
    }

    /// The maximal horizontal runs (of two or more cells) of the first `r` rows.
    pub open spec fn hruns(&self, r: int) -> Seq<Seq<(usize, usize)>>
        decreases r,
    {
        if r <= 0 {
            Seq::empty()
        } else {
            let (rs, cur) = self.hscan(r - 1, self.ncols() as int);
            self.hruns(r - 1) + flush(rs, cur)
        }
    }

    /// The maximal vertical runs (of two or more cells) of the first `c`
    /// columns.
    pub open spec fn vruns(&self, c: int) -> Seq<Seq<(usize, usize)>>
        decreases c,
    {
        if c <= 0 {
            Seq::empty()
        } else {
            let (rs, cur) = self.vscan(c - 1, self.nrows() as int);
            self.vruns(c - 1) + flush(rs, cur)
        }
    }

    /// Every maximal run of two or more white cells: the rows' runs left to
    /// right, top to bottom, then the columns' runs top to bottom, left to right.
    pub open spec fn runs_spec(&self) -> Seq<Seq<(usize, usize)>> {
        self.hruns(self.nrows() as int) + self.vruns(self.ncols() as int)
    }
}

/// Every cell of `cells` is a white cell of `a`.
pub open spec fn all_white(a: &Akari, cells: Seq<(usize, usize)>) -> bool {
    forall|i: int| 0 <= i < cells.len() ==> a.white_at((#[trigger] cells[i]).0 as int, cells[i].1 as int)
}

/// Every cell of every run of `rs` is a white cell of `a`.
pub open spec fn runs_white(a: &Akari, rs: Seq<Seq<(usize, usize)>>) -> bool {
    forall|i: int| 0 <= i < rs.len() ==> all_white(a, #[trigger] rs[i])
}

/// Close the open run `run` into `runs` when it has two or more cells.
fn flush_run(run: &mut Vec<(usize, usize)>, runs: &mut Vec<Vec<(usize, usize)>>)
    ensures
        final(run)@.len() == 0,
        final(runs)@.len() == flush(old(runs)@.map_values(|v: Vec<(usize, usize)>| v@), old(run)@).len(),
        final(runs)@.map_values(|v: Vec<(usize, usize)>| v@) == flush(
            old(runs)@.map_values(|v: Vec<(usize, usize)>| v@),
            old(run)@,
        ),
{
    let ghost before = runs@.map_values(|v: Vec<(usize, usize)>| v@);
    if run.len() > 1 {
        let mut taken: Vec<(usize, usize)> = Vec::new();
        std::mem::swap(&mut taken, run);
        runs.push(taken);
        assert(runs@.map_values(|v: Vec<(usize, usize)>| v@) =~= before.push(old(run)@));
    } else {
        run.clear();
    }
}

impl Akari {
    /// The index of `(r, c)` in the row-major board.
    fn idx(&self, r: usize, c: usize) -> (i: usize)
        requires
            r < self.nrows(),
            c < self.ncols(),
        ensures
            i == r * self.ncols() + c,
            i < self.nrows() * self.ncols(),
    {
        proof {
            use_type_invariant(self);
            lemma_index_inside(r as int, c as int, self.rows as int, self.cols as int);
        }
        let n = self.board.len();
        assert(r * self.cols + c < n);
        r * self.cols + c
    }

    /// The number of rows.
    pub fn rows(&self) -> (n: usize)
        ensures
            n == self.nrows(),
    {
        self.rows
    }

    /// The number of columns.
    pub fn cols(&self) -> (n: usize)
        ensures
            n == self.ncols(),
    {
        self.cols
    }

    /// The square at `(r, c)`.
    pub fn square(&self, r: usize, c: usize) -> (s: Square)
        requires
            r < self.nrows(),
            c < self.ncols(),
        ensures
            s == self.squares()[r * self.ncols() + c],
    {
        proof {
            use_type_invariant(self);
        }
        let i = self.idx(r, c);
        self.board[i]
    }

    /// Whether `(r, c)` is a white cell.
    pub fn is_white(&self, r: usize, c: usize) -> (b: bool)
        requires
            r < self.nrows(),
            c < self.ncols(),
        ensures
            b == self.white_at(r as int, c as int),
    {
        match self.square(r, c) {
            Square::White => true,
            Square::Wall(_) => false,
        }
    }

    /// The lamp given at `(r, c)`: `Some(true)` a placed lamp, `Some(false)` a
    /// cell marked empty, `None` unmarked.
    pub fn given(&self, r: usize, c: usize) -> (g: Option<bool>)
        requires
            r < self.nrows(),
            c < self.ncols(),
        ensures
            g == self.lamp_givens()[r * self.ncols() + c],
    {
        proof {
            use_type_invariant(self);
        }
        let i = self.idx(r, c);
        self.givens[i]
    }

    /// Set (or clear, with `None`) the lamp given at white cell `(r, c)`; a
    /// no-op on a wall. An edit only changes the assumptions, never the rules.
    pub fn set_given(&mut self, r: usize, c: usize, value: Option<bool>)
        requires
            r < old(self).nrows(),
            c < old(self).ncols(),
        ensures
            final(self).nrows() == old(self).nrows(),
            final(self).ncols() == old(self).ncols(),
            final(self).squares() == old(self).squares(),
            final(self).lamp_givens() == if old(self).white_at(r as int, c as int) {
                old(self).lamp_givens().update(r * old(self).ncols() + c, value)
            } else {
                old(self).lamp_givens()
            },
    {
        proof {
            use_type_invariant(&*self);
        }
        let i = self.idx(r, c);
        match self.board[i] {
            Square::White => {
                let mut givens = copy_vec(&self.givens);
                givens.set(i, value);
                self.givens = givens;
            },
            Square::Wall(_) => {},
        }
    }

    /// Clear every lamp given.
    pub fn clear_givens(&mut self)
        ensures
            final(self).nrows() == old(self).nrows(),
            final(self).ncols() == old(self).ncols(),
            final(self).squares() == old(self).squares(),
            final(self).lamp_givens() == Seq::new(old(self).lamp_givens().len(), |i: int| None::<bool>),
    {
        proof {
            use_type_invariant(&*self);
        }
        let n = self.givens.len();
        let mut givens: Vec<Option<bool>> = Vec::new();
        let mut i: usize = 0;
        while i < n
            invariant
                i <= n,
                givens@ == Seq::new(i as nat, |k: int| None::<bool>),
            decreases n - i,
        {
            givens.push(None);
            i = i + 1;
            assert(givens@ =~= Seq::new(i as nat, |k: int| None::<bool>));
        }
        self.givens = givens;
    }

    /// The white cells left of `(r, c)` before a wall, appended to `out`.
    fn push_left(&self, r: usize, c: usize, out: &mut Vec<(usize, usize)>)
        requires
            r < self.nrows(),
            c < self.ncols(),
        ensures
            final(out)@ == old(out)@ + self.left_run(r as int, c as int),
            all_white(self, old(out)@) ==> all_white(self, final(out)@),
    {
        let ghost target = out@ + self.left_run(r as int, c as int);
        let mut cc = c;
        while cc > 0 && self.is_white(r, cc - 1)
            invariant
                r < self.nrows(),
                cc <= c < self.ncols(),
                out@ + self.left_run(r as int, cc as int) == target,
                all_white(self, old(out)@) ==> all_white(self, out@),
            decreases cc,
        {
            let ghost prev = out@;
            out.push((r, cc - 1));
            cc = cc - 1;
            assert(prev + self.left_run(r as int, cc + 1) =~= out@ + self.left_run(r as int, cc as int));
        }
        assert(self.left_run(r as int, cc as int) =~= Seq::empty());
        assert(out@ =~= target);
    }

    /// The white cells right of `(r, c)` before a wall, appended to `out`.
    fn push_right(&self, r: usize, c: usize, out: &mut Vec<(usize, usize)>)
        requires
            r < self.nrows(),
            c < self.ncols(),
        ensures
            final(out)@ == old(out)@ + self.right_run(r as int, c as int),
            all_white(self, old(out)@) ==> all_white(self, final(out)@),
    {
        let ghost target = out@ + self.right_run(r as int, c as int);
        let mut cc = c;
        while cc + 1 < self.cols && self.is_white(r, cc + 1)
            invariant
                r < self.nrows(),
                c <= cc < self.ncols(),
                self.cols == self.ncols(),
                out@ + self.right_run(r as int, cc as int) == target,
                all_white(self, old(out)@) ==> all_white(self, out@),
            decreases self.ncols() - cc,
        {
            let ghost prev = out@;
            out.push((r, cc + 1));
            cc = cc + 1;
            assert(prev + self.right_run(r as int, cc - 1) =~= out@ + self.right_run(r as int, cc as int));
        }
        assert(self.right_run(r as int, cc as int) =~= Seq::empty());
        assert(out@ =~= target);
    }

    /// The white cells above `(r, c)` before a wall, appended to `out`.
    fn push_up(&self, r: usize, c: usize, out: &mut Vec<(usize, usize)>)
        requires
            r < self.nrows(),
            c < self.ncols(),
        ensures
            final(out)@ == old(out)@ + self.up_run(r as int, c as int),
            all_white(self, old(out)@) ==> all_white(self, final(out)@),
    {
        let ghost target = out@ + self.up_run(r as int, c as int);
        let mut rr = r;
        while rr > 0 && self.is_white(rr - 1, c)
            invariant
                rr <= r < self.nrows(),
                c < self.ncols(),
                out@ + self.up_run(rr as int, c as int) == target,
                all_white(self, old(out)@) ==> all_white(self, out@),
            decreases rr,
        {
            let ghost prev = out@;
            out.push((rr - 1, c));
            rr = rr - 1;
            assert(prev + self.up_run(rr + 1, c as int) =~= out@ + self.up_run(rr as int, c as int));
        }
        assert(self.up_run(rr as int, c as int) =~= Seq::empty());
        assert(out@ =~= target);
    }

    /// The white cells below `(r, c)` before a wall, appended to `out`.
    fn push_down(&self, r: usize, c: usize, out: &mut Vec<(usize, usize)>)
        requires
            r < self.nrows(),
            c < self.ncols(),
        ensures
            final(out)@ == old(out)@ + self.down_run(r as int, c as int),
            all_white(self, old(out)@) ==> all_white(self, final(out)@),
    {
        let ghost target = out@ + self.down_run(r as int, c as int);
        let mut rr = r;
        while rr + 1 < self.rows && self.is_white(rr + 1, c)
            invariant
                r <= rr < self.nrows(),
                c < self.ncols(),
                self.rows == self.nrows(),
                out@ + self.down_run(rr as int, c as int) == target,
                all_white(self, old(out)@) ==> all_white(self, out@),
            decreases self.nrows() - rr,
        {
            let ghost prev = out@;
            out.push((rr + 1, c));
            rr = rr + 1;
            assert(prev + self.down_run(rr - 1, c as int) =~= out@ + self.down_run(rr as int, c as int));
        }
        assert(self.down_run(rr as int, c as int) =~= Seq::empty());
        assert(out@ =~= target);
    }

    /// The cross of white cell `(r, c)`.
    fn cross(&self, r: usize, c: usize) -> (out: Vec<(usize, usize)>)
        requires
            r < self.nrows(),
            c < self.ncols(),
        ensures
            out@ == self.cross_spec(r as int, c as int),
            self.white_at(r as int, c as int) ==> all_white(self, out@),
    {
        let mut out: Vec<(usize, usize)> = Vec::new();
        out.push((r, c));
        self.push_left(r, c, &mut out);
        self.push_right(r, c, &mut out);
        self.push_up(r, c, &mut out);
        self.push_down(r, c, &mut out);
        out
    }

    /// The cells a lamp on white cell `(r, c)` would light: its cross.
    pub fn cross_cells(&self, r: usize, c: usize) -> (out: Vec<(usize, usize)>)
        requires
            r < self.nrows(),
            c < self.ncols(),
        ensures
            out@ == self.cross_spec(r as int, c as int),
    {
        self.cross(r, c)
    }

    /// The white orthogonal neighbors of `(r, c)`: the cells a numbered wall
    /// counts lamps over.
    fn white_neighbors(&self, r: usize, c: usize) -> (out: Vec<(usize, usize)>)
        requires
            r < self.nrows(),
            c < self.ncols(),
        ensures
            out@ == self.neighbors_spec(r as int, c as int),
            all_white(self, out@),
            out@.len() <= 4,
    {
        let mut out: Vec<(usize, usize)> = Vec::new();
        if r > 0 && self.is_white(r - 1, c) {
            out.push((r - 1, c));
        }
        if r + 1 < self.rows && self.is_white(r + 1, c) {
            out.push((r + 1, c));
        }
        if c > 0 && self.is_white(r, c - 1) {
            out.push((r, c - 1));
        }
        if c + 1 < self.cols && self.is_white(r, c + 1) {
            out.push((r, c + 1));
        }
        assert(out@ =~= self.neighbors_spec(r as int, c as int));
        out
    }

    /// Every maximal run of contiguous white cells of two or more, rows first
    /// then columns. Two lamps in one run would see each other.
    fn runs(&self) -> (out: Vec<Vec<(usize, usize)>>)
        ensures
            out@.map_values(|v: Vec<(usize, usize)>| v@) == self.runs_spec(),
            runs_white(self, out@.map_values(|v: Vec<(usize, usize)>| v@)),
    {
        let mut runs: Vec<Vec<(usize, usize)>> = Vec::new();
        let mut r: usize = 0;
        while r < self.rows
            invariant
                r <= self.nrows(),
                self.rows == self.nrows(),
                runs@.map_values(|v: Vec<(usize, usize)>| v@) == self.hruns(r as int),
                runs_white(self, runs@.map_values(|v: Vec<(usize, usize)>| v@)),
            decreases self.nrows() - r,
        {
            let ghost base = runs@.map_values(|v: Vec<(usize, usize)>| v@);
            let mut run: Vec<(usize, usize)> = Vec::new();
            let mut c: usize = 0;
            while c < self.cols
                invariant
                    r < self.nrows(),
                    c <= self.ncols(),
                    self.cols == self.ncols(),
                    runs@.map_values(|v: Vec<(usize, usize)>| v@) == base + self.hscan(r as int, c as int).0,
                    run@ == self.hscan(r as int, c as int).1,
                    runs_white(self, runs@.map_values(|v: Vec<(usize, usize)>| v@)),
                    all_white(self, run@),
                decreases self.ncols() - c,
            {
                if self.is_white(r, c) {
                    run.push((r, c));
                } else {
                    let ghost rs = runs@.map_values(|v: Vec<(usize, usize)>| v@);
                    let ghost cur = run@;
                    flush_run(&mut run, &mut runs);
                    proof {
                        assert(flush(rs, cur) =~= base + flush(self.hscan(r as int, c as int).0, cur));
                    }
                }
                c = c + 1;
            }
            let ghost rs = runs@.map_values(|v: Vec<(usize, usize)>| v@);
            let ghost cur = run@;
            flush_run(&mut run, &mut runs);
            proof {
                assert(flush(rs, cur) =~= base + flush(self.hscan(r as int, self.cols as int).0, cur));
            }
            r = r + 1;
        }
        let ghost hr = runs@.map_values(|v: Vec<(usize, usize)>| v@);
        let mut c: usize = 0;
        while c < self.cols
            invariant
                c <= self.ncols(),
                self.cols == self.ncols(),
                self.rows == self.nrows(),
                runs@.map_values(|v: Vec<(usize, usize)>| v@) == hr + self.vruns(c as int),
                runs_white(self, runs@.map_values(|v: Vec<(usize, usize)>| v@)),
            decreases self.ncols() - c,
        {
            let ghost base = runs@.map_values(|v: Vec<(usize, usize)>| v@);
            let mut run: Vec<(usize, usize)> = Vec::new();
            let mut r: usize = 0;
            while r < self.rows
                invariant
                    c < self.ncols(),
                    r <= self.nrows(),
                    self.rows == self.nrows(),
                    runs@.map_values(|v: Vec<(usize, usize)>| v@) == base + self.vscan(c as int, r as int).0,
                    run@ == self.vscan(c as int, r as int).1,
                    runs_white(self, runs@.map_values(|v: Vec<(usize, usize)>| v@)),
                    all_white(self, run@),
                decreases self.nrows() - r,
            {
                if self.is_white(r, c) {
                    run.push((r, c));
                } else {
                    let ghost rs = runs@.map_values(|v: Vec<(usize, usize)>| v@);
                    let ghost cur = run@;
                    flush_run(&mut run, &mut runs);
                    proof {
                        assert(flush(rs, cur) =~= base + flush(self.vscan(c as int, r as int).0, cur));
                    }
                }
                r = r + 1;
            }
            let ghost rs = runs@.map_values(|v: Vec<(usize, usize)>| v@);
            let ghost cur = run@;
            flush_run(&mut run, &mut runs);
            proof {
                assert(flush(rs, cur) =~= base + flush(self.vscan(c as int, self.rows as int).0, cur));
            }
            c = c + 1;
        }
        runs
    }
}

impl Akari {
    /// The number of squares.
    pub open spec fn cell_count(&self) -> int {
        (self.nrows() * self.ncols()) as int
    }

    /// The row and column of flat index `i`.
    pub open spec fn at(&self, i: int) -> (usize, usize) {
        ((i / self.ncols() as int) as usize, (i % self.ncols() as int) as usize)
    }

    /// The lamp propositions of the white cells among the first `i` squares,
    /// row-major.
    pub open spec fn lamp_props(&self, i: int) -> Seq<Lamp>
        decreases i,
    {
        if i <= 0 {
            Seq::empty()
        } else {
            self.lamp_props(i - 1) + if self.squares()[i - 1] is White {
                seq![Lamp { r: self.at(i - 1).0, c: self.at(i - 1).1 }]
            } else {
                Seq::empty()
            }
        }
    }

    /// The positive literals "a lamp sits here" of `cells`, over the registered
    /// lamps.
    pub open spec fn lamp_lits(&self, cells: Seq<(usize, usize)>) -> Seq<Lit> {
        cells.map_values(
            |p: (usize, usize)| value_lit(index_of(self.lamp_props(self.cell_count()), Lamp { r: p.0, c: p.1 }), true),
        )
    }

    /// At most one lamp in each of the first `k` runs.
    pub open spec fn run_rules(&self, k: int) -> Seq<Seq<Lit>>
        decreases k,
    {
        if k <= 0 {
            Seq::empty()
        } else {
            self.run_rules(k - 1) + at_most_one_pairwise_clauses(self.lamp_lits(self.runs_spec()[k - 1]))
        }
    }

    /// At least one lamp in the cross of each white cell among the first `i`
    /// squares.
    pub open spec fn cross_rules(&self, i: int) -> Seq<Seq<Lit>>
        decreases i,
    {
        if i <= 0 {
            Seq::empty()
        } else {
            self.cross_rules(i - 1) + if self.squares()[i - 1] is White {
                seq![self.lamp_lits(self.cross_spec(self.at(i - 1).0 as int, self.at(i - 1).1 as int))]
            } else {
                Seq::empty()
            }
        }
    }

    /// The neighbor literals of the numbered wall at square `i`.
    pub open spec fn wall_lits(&self, i: int) -> Seq<Lit> {
        self.lamp_lits(self.neighbors_spec(self.at(i).0 as int, self.at(i).1 as int))
    }

    /// The counter registers the numbered wall at square `i` draws.
    pub open spec fn wall_cost(&self, i: int) -> int {
        match self.squares()[i] {
            Square::Wall(Some(k)) => at_least_k_aux(self.wall_lits(i).len() as int, k as int) + at_most_k_aux(
                self.wall_lits(i).len() as int,
                k as int,
            ),
            _ => 0,
        }
    }

    /// The counter registers the numbered walls among the first `i` squares draw.
    pub open spec fn wall_aux(&self, i: int) -> int
        decreases i,
    {
        if i <= 0 {
            0
        } else {
            self.wall_aux(i - 1) + self.wall_cost(i - 1)
        }
    }

    /// Exactly `k` lamps around the numbered wall at square `i`, its registers
    /// from `base`.
    pub open spec fn wall_clauses(&self, i: int, base: int) -> Seq<Seq<Lit>> {
        match self.squares()[i] {
            Square::Wall(Some(k)) => at_least_k_clauses(self.wall_lits(i), k as int, base) + at_most_k_clauses(
                self.wall_lits(i),
                k as int,
                base + at_least_k_aux(self.wall_lits(i).len() as int, k as int),
            ),
            _ => Seq::empty(),
        }
    }

    /// The numbered-wall clauses of the first `i` squares, registers drawn above
    /// every lamp in square order.
    pub open spec fn wall_rules(&self, i: int) -> Seq<Seq<Lit>>
        decreases i,
    {
        if i <= 0 {
            Seq::empty()
        } else {
            self.wall_rules(i - 1) + self.wall_clauses(i - 1, self.lamp_props(self.cell_count()).len() + self.wall_aux(i - 1))
        }
    }

    /// The lamp givens of the first `i` squares over the registered `props`:
    /// each registered lamp's given, as a literal of its polarity.
    pub open spec fn given_lits(&self, props: Seq<Lamp>, i: int) -> Seq<Lit>
        decreases i,
    {
        if i <= 0 {
            Seq::empty()
        } else {
            let prev = self.given_lits(props, i - 1);
            let lamp = Lamp { r: self.at(i - 1).0, c: self.at(i - 1).1 };
            match self.lamp_givens()[i - 1] {
                Some(b) => if props.contains(lamp) {
                    prev.push(value_lit(index_of(props, lamp), b))
                } else {
                    prev
                },
                None => prev,
            }
        }
    }

    /// The display of square `i` when the lamp state of square `j` is `st(j)`:
    /// a wall shows its number; a white cell its lamp state, whether a known lamp
    /// in its cross lights it, and whether it is a given.
    pub open spec fn display(&self, st: spec_fn(int) -> Option<bool>, i: int) -> AkariCell {
        match self.squares()[i] {
            Square::Wall(n) => AkariCell::Wall(n),
            Square::White => {
                let cr = self.cross_spec(self.at(i).0 as int, self.at(i).1 as int);
                AkariCell::White {
                    lamp: st(i),
                    lit: exists|k: int|
                        0 <= k < cr.len() && (#[trigger] cr[k]).0 < self.nrows() && cr[k].1 < self.ncols() && st(
                            cr[k].0 * self.ncols() + cr[k].1,
                        ) == Some(true),
                    given: self.lamp_givens()[i] is Some,
                }
            },
        }
    }
}

/// The lamp state after writing each fact of `facts` over `state`, in order.
pub open spec fn painted_lamps(state: Seq<Option<bool>>, cols: int, facts: Seq<(Lamp, bool)>) -> Seq<Option<bool>>
    decreases facts.len(),
{
    if facts.len() == 0 {
        state
    } else {
        let prev = painted_lamps(state, cols, facts.drop_last());
        let (lamp, holds) = facts.last();
        let i = lamp.r * cols + lamp.c;
        if 0 <= i < prev.len() {
            prev.update(i, Some(holds))
        } else {
            prev
        }
    }
}

proof fn lemma_painted_lamps_len(state: Seq<Option<bool>>, cols: int, facts: Seq<(Lamp, bool)>)
    ensures
        painted_lamps(state, cols, facts).len() == state.len(),
    decreases facts.len(),
{
    if facts.len() > 0 {
        lemma_painted_lamps_len(state, cols, facts.drop_last());
    }
}

impl Akari {
    /// Lamps of the first `i` squares: each sits on a white square below `i`,
    /// they grow with `i`, and every white square below `i` has one.
    proof fn lemma_lamp_props(&self, i: int)
        requires
            0 <= i <= self.cell_count(),
            self.squares().len() == self.cell_count(),
        ensures
            self.lamp_props(i).len() <= i,
            forall|k: int|
                0 <= k < self.lamp_props(i).len() ==> {
                    let l = #[trigger] self.lamp_props(i)[k];
                    &&& l.c < self.ncols()
                    &&& l.r * self.ncols() + l.c < i
                    &&& self.white_at(l.r as int, l.c as int)
                },
            forall|j: int|
                0 <= j < i && self.squares()[j] is White ==> #[trigger] self.lamp_props(i).contains(
                    Lamp { r: self.at(j).0, c: self.at(j).1 },
                ),
        decreases i,
    {
        if i > 0 {
            self.lemma_lamp_props(i - 1);
            let prev = self.lamp_props(i - 1);
            let cols = self.ncols() as int;
            assert(cols > 0) by (nonlinear_arith)
                requires
                    0 < i <= self.nrows() * cols,
                    cols >= 0,
            ;
            let j = i - 1;
            vstd::arithmetic::div_mod::lemma_fundamental_div_mod(j, cols);
            vstd::arithmetic::div_mod::lemma_mod_bound(j, cols);
            vstd::arithmetic::div_mod::lemma_div_pos_is_pos(j, cols);
            assert(j / cols < self.nrows()) by {
                vstd::arithmetic::div_mod::lemma_div_is_ordered(j, self.nrows() * cols - 1, cols);
                assert(self.nrows() * cols - 1 == (self.nrows() - 1) * cols + (cols - 1)) by (nonlinear_arith);
                vstd::arithmetic::div_mod::lemma_fundamental_div_mod_converse(
                    self.nrows() * cols - 1,
                    cols,
                    self.nrows() - 1,
                    cols - 1,
                );
            }
            assert(j / cols <= usize::MAX);
            assert(self.at(j).0 as int == j / cols);
            assert(self.at(j).1 as int == j % cols);
            assert(j == cols * (j / cols) + j % cols);
            assert(self.at(j).0 * cols + self.at(j).1 == j) by (nonlinear_arith)
                requires
                    self.at(j).0 as int == j / cols,
                    self.at(j).1 as int == j % cols,
                    j == cols * (j / cols) + j % cols,
            ;
            let cur = self.lamp_props(i);
            assert forall|k: int| 0 <= k < cur.len() implies {
                let l = #[trigger] cur[k];
                &&& l.c < self.ncols()
                &&& l.r * self.ncols() + l.c < i
                &&& self.white_at(l.r as int, l.c as int)
            } by {
                if k < prev.len() {
                    assert(cur[k] == prev[k]);
                }
            }
            assert forall|jj: int| 0 <= jj < i && self.squares()[jj] is White implies #[trigger] cur.contains(
                Lamp { r: self.at(jj).0, c: self.at(jj).1 },
            ) by {
                if jj < j {
                    let l = Lamp { r: self.at(jj).0, c: self.at(jj).1 };
                    assert(prev.contains(l));
                    let m = choose|m: int| 0 <= m < prev.len() && prev[m] == l;
                    assert(cur[m] == l);
                } else {
                    assert(cur[prev.len() as int] == Lamp { r: self.at(j).0, c: self.at(j).1 });
                }
            }
        }
    }
}

impl Puzzle for Akari {
    type Var = Lamp;
    type Cell = AkariCell;

    /// The lamps and every counter register fit the variable range.
    open spec fn encodable(&self) -> bool {
        self.lamp_props(self.cell_count()).len() + self.wall_aux(self.cell_count()) <= MAX_VAR_IDX + 1
    }

    /// A lamp per white square, row-major.
    open spec fn props(&self) -> Seq<Lamp> {
        self.lamp_props(self.cell_count())
    }

    /// At most one lamp per run, at least one lamp per cross, then exactly the
    /// number of lamps around each numbered wall.
    open spec fn rules(&self) -> Seq<Seq<Lit>> {
        self.run_rules(self.runs_spec().len() as int) + self.cross_rules(self.cell_count()) + self.wall_rules(
            self.cell_count(),
        )
    }

    /// Each registered lamp given, row-major, with its polarity.
    open spec fn givens(&self, props: Seq<Lamp>) -> Seq<Lit> {
        self.given_lits(props, self.cell_count())
    }

    /// Every square, displayed with each lamp's state as `value` gives it.
    open spec fn shown(&self, value: spec_fn(Lamp) -> Option<bool>) -> (nat, nat, Seq<AkariCell>) {
        (
            self.nrows(),
            self.ncols(),
            Seq::new(
                self.cell_count() as nat,
                |i: int| self.display(|j: int| value(Lamp { r: self.at(j).0, c: self.at(j).1 }), i),
            ),
        )
    }

    fn encode_rules(&self, reg: &mut Registry<Lamp>, cnf: &mut Cnf) {
        proof {
            use_type_invariant(self);
        }
        let ghost total = self.cell_count();
        let ghost props = self.lamp_props(total);
        let ghost base = cnf@;
        proof {
            self.lemma_lamp_props(total);
            self.lemma_wall_aux_grow(0, total);
        }
        assert(reg@ =~= self.lamp_props(0));
        let mut r: usize = 0;
        while r < self.rows
            invariant
                r <= self.rows,
                self.rows == self.nrows(),
                self.cols == self.ncols(),
                total == self.cell_count(),
                self.squares().len() == total,
                props == self.lamp_props(total),
                props.len() <= MAX_VAR_IDX + 1,
                reg@ == self.lamp_props(r * self.cols),
            decreases self.rows - r,
        {
            let mut c: usize = 0;
            while c < self.cols
                invariant
                    r < self.rows,
                    c <= self.cols,
                    self.rows == self.nrows(),
                    self.cols == self.ncols(),
                    total == self.cell_count(),
                    self.squares().len() == total,
                    props == self.lamp_props(total),
                    props.len() <= MAX_VAR_IDX + 1,
                    reg@ == self.lamp_props(r * self.cols + c),
                decreases self.cols - c,
            {
                let ghost i = r * self.cols + c;
                proof {
                    lemma_index_inside(r as int, c as int, self.rows as int, self.cols as int);
                    lemma_row_major(r as int, c as int, self.cols as int);
                    self.lemma_lamp_props(i);
                    self.lemma_lamp_props(i + 1);
                }
                if self.is_white(r, c) {
                    proof {
                        if reg@.contains(Lamp { r, c }) {
                            let k = choose|k: int| 0 <= k < reg@.len() && reg@[k] == Lamp { r, c };
                            assert(reg@[k].r * self.ncols() + reg@[k].c < i);
                        }
                        assert(self.lamp_props(i + 1).len() <= props.len()) by {
                            self.lemma_lamp_props_grow(i + 1, total);
                        }
                    }
                    reg.var(Lamp { r, c });
                }
                assert(reg@ =~= self.lamp_props(i + 1));
                c = c + 1;
            }
            proof {
                assert((r + 1) * self.cols == r * self.cols + self.cols) by (nonlinear_arith);
            }
            r = r + 1;
        }
        assert(reg@ == props);
        reg.lemma_wf();
        let mut aux = VarManager::starting_at(reg.len() as u32);

        let runs = self.runs();
        let ghost rv = runs@.map_values(|v: Vec<(usize, usize)>| v@);
        let mut k: usize = 0;
        while k < runs.len()
            invariant
                k <= runs@.len(),
                rv == runs@.map_values(|v: Vec<(usize, usize)>| v@),
                rv == self.runs_spec(),
                runs_white(self, rv),
                self.squares().len() == total,
                total == self.cell_count(),
                props == self.lamp_props(total),
                reg@ == props,
                distinct(props),
                forall|j: int| 0 <= j < total && self.squares()[j] is White ==> #[trigger] props.contains(
                    Lamp { r: self.at(j).0, c: self.at(j).1 },
                ),
                cnf@ == base + self.run_rules(k as int),
            decreases runs@.len() - k,
        {
            assert(runs@[k as int]@ == rv[k as int]);
            assert(all_white(self, rv[k as int]));
            let lits = self.lamp_lits_of(reg, &runs[k]);
            at_most_one_pairwise(lits.as_slice(), cnf);
            k = k + 1;
            assert(cnf@ =~= base + self.run_rules(k as int));
        }
        let ghost rr = self.run_rules(rv.len() as int);
        assert(cnf@ == base + rr);

        let mut r: usize = 0;
        while r < self.rows
            invariant
                r <= self.rows,
                self.rows == self.nrows(),
                self.cols == self.ncols(),
                self.squares().len() == total,
                total == self.cell_count(),
                props == self.lamp_props(total),
                reg@ == props,
                distinct(props),
                forall|j: int| 0 <= j < total && self.squares()[j] is White ==> #[trigger] props.contains(
                    Lamp { r: self.at(j).0, c: self.at(j).1 },
                ),
                props.len() <= MAX_VAR_IDX + 1,
                cnf@ == base + rr + self.cross_rules(r * self.cols),
                forall|j: int|
                    0 <= j < r * self.cols && self.squares()[j] is White ==> mentions(
                        self.cross_rules(r * self.cols),
                        index_of(props, Lamp { r: (#[trigger] self.at(j)).0, c: self.at(j).1 }),
                    ),
            decreases self.rows - r,
        {
            let mut c: usize = 0;
            while c < self.cols
                invariant
                    r < self.rows,
                    c <= self.cols,
                    self.rows == self.nrows(),
                    self.cols == self.ncols(),
                    self.squares().len() == total,
                    total == self.cell_count(),
                    props == self.lamp_props(total),
                    reg@ == props,
                    distinct(props),
                    forall|j: int| 0 <= j < total && self.squares()[j] is White ==> #[trigger] props.contains(
                        Lamp { r: self.at(j).0, c: self.at(j).1 },
                    ),
                    props.len() <= MAX_VAR_IDX + 1,
                    cnf@ == base + rr + self.cross_rules(r * self.cols + c),
                    forall|j: int|
                        0 <= j < r * self.cols + c && self.squares()[j] is White ==> mentions(
                            self.cross_rules(r * self.cols + c),
                            index_of(props, Lamp { r: (#[trigger] self.at(j)).0, c: self.at(j).1 }),
                        ),
                decreases self.cols - c,
            {
                let ghost i = r * self.cols + c;
                let ghost prev = self.cross_rules(i);
                proof {
                    lemma_index_inside(r as int, c as int, self.rows as int, self.cols as int);
                    lemma_row_major(r as int, c as int, self.cols as int);
                    assert(self.at(i) == (r, c));
                }
                if self.is_white(r, c) {
                    let cross = self.cross(r, c);
                    let lits = self.lamp_lits_of(reg, &cross);
                    at_least_one(lits.as_slice(), cnf);
                    proof {
                        let next = self.cross_rules(i + 1);
                        assert(next == prev + seq![lits@]);
                        assert(cnf@ =~= base + rr + next);
                        assert forall|j: int|
                            0 <= j < i + 1 && self.squares()[j] is White implies mentions(
                            next,
                            index_of(props, Lamp { r: (#[trigger] self.at(j)).0, c: self.at(j).1 }),
                        ) by {
                            if j < i {
                                lemma_mentions_prefix(prev, seq![lits@], index_of(props, Lamp { r: self.at(j).0, c: self.at(j).1 }));
                            } else {
                                assert(cross@[0] == (r, c));
                                assert(next[prev.len() as int] == lits@);
                                assert(lits@[0] == self.lamp_lits(cross@)[0]);
                                assert(lits@[0] == value_lit(index_of(props, Lamp { r, c }), true));
                                assert(next[prev.len() as int][0].var.index() == index_of(props, Lamp { r, c })) by {
                                    assert(props.contains(Lamp { r, c }));
                                    let m = index_of(props, Lamp { r, c });
                                    assert(0 <= m < props.len());
                                }
                            }
                        }
                    }
                } else {
                    proof {
                        assert(self.cross_rules(i + 1) =~= prev);
                    }
                }
                c = c + 1;
            }
            proof {
                assert((r + 1) * self.cols == r * self.cols + self.cols) by (nonlinear_arith);
            }
            r = r + 1;
        }
        let ghost cr = self.cross_rules(total);

        proof {
            self.lemma_wall_aux_grow(0, total);
        }
        let mut r: usize = 0;
        while r < self.rows
            invariant
                r <= self.rows,
                self.rows == self.nrows(),
                self.cols == self.ncols(),
                self.squares().len() == total,
                total == self.cell_count(),
                props == self.lamp_props(total),
                reg@ == props,
                distinct(props),
                forall|j: int| 0 <= j < total && self.squares()[j] is White ==> #[trigger] props.contains(
                    Lamp { r: self.at(j).0, c: self.at(j).1 },
                ),
                props.len() + self.wall_aux(total) <= MAX_VAR_IDX + 1,
                cnf@ == base + rr + cr + self.wall_rules(r * self.cols),
                aux.next_index() == props.len() + self.wall_aux(r * self.cols),
            decreases self.rows - r,
        {
            let mut c: usize = 0;
            while c < self.cols
                invariant
                    r < self.rows,
                    c <= self.cols,
                    self.rows == self.nrows(),
                    self.cols == self.ncols(),
                    self.squares().len() == total,
                    total == self.cell_count(),
                    props == self.lamp_props(total),
                    reg@ == props,
                    distinct(props),
                    forall|j: int| 0 <= j < total && self.squares()[j] is White ==> #[trigger] props.contains(
                        Lamp { r: self.at(j).0, c: self.at(j).1 },
                    ),
                    props.len() + self.wall_aux(total) <= MAX_VAR_IDX + 1,
                    cnf@ == base + rr + cr + self.wall_rules(r * self.cols + c),
                    aux.next_index() == props.len() + self.wall_aux(r * self.cols + c),
                decreases self.cols - c,
            {
                let ghost i = r * self.cols + c;
                let ghost prev = self.wall_rules(i);
                proof {
                    lemma_index_inside(r as int, c as int, self.rows as int, self.cols as int);
                    lemma_row_major(r as int, c as int, self.cols as int);
                    assert(self.at(i) == (r, c));
                    self.lemma_wall_aux_grow(i + 1, total);
                    self.lemma_wall_cost_nonneg(i);
                }
                match self.square(r, c) {
                    Square::Wall(Some(k)) => {
                        let nb = self.white_neighbors(r, c);
                        let lits = self.lamp_lits_of(reg, &nb);
                        assert(lits@ == self.wall_lits(i));
                        exactly_k_sequential(lits.as_slice(), k as usize, &mut aux, cnf);
                        assert(cnf@ =~= base + rr + cr + self.wall_rules(i + 1));
                    },
                    _ => {
                        assert(self.wall_rules(i + 1) =~= prev);
                    },
                }
                c = c + 1;
            }
            proof {
                assert((r + 1) * self.cols == r * self.cols + self.cols) by (nonlinear_arith);
            }
            r = r + 1;
        }
        proof {
            assert(self.rows * self.cols == total);
            assert(cnf@ =~= base + self.rules());
            assert forall|v: int| 0 <= v < props.len() implies mentions(self.rules(), v) by {
                let l = props[v];
                self.lemma_lamp_props(total);
                let j = l.r * self.ncols() + l.c;
                lemma_row_major(l.r as int, l.c as int, self.ncols() as int);
                assert(self.at(j) == (l.r, l.c));
                assert(Lamp { r: self.at(j).0, c: self.at(j).1 } == l);
                crate::registry::lemma_decode_after_lit(props, l, v);
                assert(mentions(cr, v));
                lemma_mentions_suffix(rr, cr, v);
                lemma_mentions_prefix(rr + cr, self.wall_rules(total), v);
            }
        }
    }

    fn assumptions(&self, reg: &Registry<Lamp>) -> (lits: Vec<Lit>) {
        proof {
            use_type_invariant(self);
        }
        reg.lemma_wf();
        let mut lits: Vec<Lit> = Vec::new();
        let mut r: usize = 0;
        while r < self.rows
            invariant
                r <= self.rows,
                self.rows == self.nrows(),
                self.cols == self.ncols(),
                self.lamp_givens().len() == self.cell_count(),
                distinct(reg@),
                lits@ == self.given_lits(reg@, r * self.cols),
                lits_below(lits@, reg@.len() as int),
            decreases self.rows - r,
        {
            let mut c: usize = 0;
            while c < self.cols
                invariant
                    r < self.rows,
                    c <= self.cols,
                    self.rows == self.nrows(),
                    self.cols == self.ncols(),
                    self.lamp_givens().len() == self.cell_count(),
                    distinct(reg@),
                    lits@ == self.given_lits(reg@, r * self.cols + c),
                    lits_below(lits@, reg@.len() as int),
                decreases self.cols - c,
            {
                let ghost i = r * self.cols + c;
                proof {
                    lemma_index_inside(r as int, c as int, self.rows as int, self.cols as int);
                    lemma_row_major(r as int, c as int, self.cols as int);
                    assert(self.at(i) == (r, c));
                }
                match self.given(r, c) {
                    Some(placed) => match reg.get(&Lamp { r, c }) {
                        Some(var) => {
                            proof {
                                crate::registry::lemma_decode_after_lit(reg@, Lamp { r, c }, var.index());
                            }
                            if placed {
                                lits.push(var.pos_lit());
                            } else {
                                lits.push(var.neg_lit());
                            }
                        },
                        None => {},
                    },
                    None => {},
                }
                c = c + 1;
            }
            proof {
                assert((r + 1) * self.cols == r * self.cols + self.cols) by (nonlinear_arith);
            }
            r = r + 1;
        }
        lits
    }

    fn project(&self, view: &SolverView<Lamp>) -> (grid: Grid<AkariCell>) {
        proof {
            use_type_invariant(self);
        }
        let ghost value = |x: Lamp| view.value_of_spec(x);
        let ghost st = |j: int| value(Lamp { r: self.at(j).0, c: self.at(j).1 });
        let mut state: Vec<Option<bool>> = Vec::new();
        let mut r: usize = 0;
        while r < self.rows
            invariant
                r <= self.rows,
                self.rows == self.nrows(),
                self.cols == self.ncols(),
                value == (|x: Lamp| view.value_of_spec(x)),
                st == (|j: int| value(Lamp { r: self.at(j).0, c: self.at(j).1 })),
                state@ == Seq::new((r * self.cols) as nat, |j: int| st(j)),
            decreases self.rows - r,
        {
            let mut c: usize = 0;
            while c < self.cols
                invariant
                    r < self.rows,
                    c <= self.cols,
                    self.rows == self.nrows(),
                    self.cols == self.ncols(),
                    value == (|x: Lamp| view.value_of_spec(x)),
                    st == (|j: int| value(Lamp { r: self.at(j).0, c: self.at(j).1 })),
                    state@ == Seq::new((r * self.cols + c) as nat, |j: int| st(j)),
                decreases self.cols - c,
            {
                let ghost i = r * self.cols + c;
                proof {
                    lemma_row_major(r as int, c as int, self.cols as int);
                    assert(self.at(i) == (r, c));
                }
                state.push(view.value(&Lamp { r, c }));
                c = c + 1;
                assert(state@ =~= Seq::new((r * self.cols + c) as nat, |j: int| st(j)));
            }
            proof {
                assert((r + 1) * self.cols == r * self.cols + self.cols) by (nonlinear_arith);
            }
            r = r + 1;
        }
        let grid = self.render_state(&state);
        proof {
            assert(self.rows * self.cols == self.cell_count());
            assert forall|i: int| 0 <= i < self.cell_count() implies self.display(|j: int| state@[j], i) == self.display(
                st,
                i,
            ) by {
                self.lemma_display_agree(|j: int| state@[j], st, i);
            }
            assert(grid.shape().2 =~= Seq::new(self.cell_count() as nat, |i: int| self.display(st, i)));
        }
        grid
    }
}

impl Akari {
    /// Lamps only grow with the number of squares read.
    proof fn lemma_lamp_props_grow(&self, i: int, j: int)
        requires
            0 <= i <= j,
        ensures
            self.lamp_props(i).len() <= self.lamp_props(j).len(),
        decreases j - i,
    {
        if i < j {
            self.lemma_lamp_props_grow(i, j - 1);
        }
    }

    /// Two lamp states that agree on every square display every square alike.
    proof fn lemma_display_agree(&self, st1: spec_fn(int) -> Option<bool>, st2: spec_fn(int) -> Option<bool>, i: int)
        requires
            0 <= i < self.cell_count(),
            forall|j: int| 0 <= j < self.cell_count() ==> #[trigger] st1(j) == st2(j),
        ensures
            self.display(st1, i) == self.display(st2, i),
    {
        let cr = self.cross_spec(self.at(i).0 as int, self.at(i).1 as int);
        assert forall|k: int| 0 <= k < cr.len() && (#[trigger] cr[k]).0 < self.nrows() && cr[k].1 < self.ncols() implies st1(
            cr[k].0 * self.ncols() + cr[k].1,
        ) == st2(cr[k].0 * self.ncols() + cr[k].1) by {
            lemma_index_inside(cr[k].0 as int, cr[k].1 as int, self.nrows() as int, self.ncols() as int);
        }
    }

    /// The display grid for the row-major lamp state `state`.
    fn render_state(&self, state: &Vec<Option<bool>>) -> (grid: Grid<AkariCell>)
        requires
            state@.len() == self.cell_count(),
        ensures
            grid.shape() == (self.nrows(), self.ncols(), Seq::new(
                self.cell_count() as nat,
                |i: int| self.display(|j: int| state@[j], i),
            )),
    {
        proof {
            use_type_invariant(self);
        }
        let ghost st = |j: int| state@[j];
        let mut cells: Vec<AkariCell> = Vec::new();
        let mut r: usize = 0;
        while r < self.rows
            invariant
                r <= self.rows,
                self.rows == self.nrows(),
                self.cols == self.ncols(),
                self.squares().len() == self.cell_count(),
                self.lamp_givens().len() == self.cell_count(),
                state@.len() == self.cell_count(),
                st == (|j: int| state@[j]),
                cells@ == Seq::new((r * self.cols) as nat, |i: int| self.display(st, i)),
            decreases self.rows - r,
        {
            let mut c: usize = 0;
            while c < self.cols
                invariant
                    r < self.rows,
                    c <= self.cols,
                    self.rows == self.nrows(),
                    self.cols == self.ncols(),
                    self.squares().len() == self.cell_count(),
                    self.lamp_givens().len() == self.cell_count(),
                    state@.len() == self.cell_count(),
                    st == (|j: int| state@[j]),
                    cells@ == Seq::new((r * self.cols + c) as nat, |i: int| self.display(st, i)),
                decreases self.cols - c,
            {
                let ghost i = r * self.cols + c;
                proof {
                    lemma_row_major(r as int, c as int, self.cols as int);
                    assert(self.at(i) == (r, c));
                }
                let idx = self.idx(r, c);
                let cell = match self.square(r, c) {
                    Square::Wall(n) => AkariCell::Wall(n),
                    Square::White => {
                        let cross = self.cross(r, c);
                        let ghost cr = cross@;
                        let mut lit = false;
                        let mut k: usize = 0;
                        while k < cross.len()
                            invariant
                                k <= cr.len(),
                                cr == cross@,
                                all_white(self, cr),
                                self.rows == self.nrows(),
                                self.cols == self.ncols(),
                                state@.len() == self.cell_count(),
                                st == (|j: int| state@[j]),
                                lit == exists|m: int|
                                    0 <= m < k && (#[trigger] cr[m]).0 < self.nrows() && cr[m].1 < self.ncols() && st(
                                        cr[m].0 * self.ncols() + cr[m].1,
                                    ) == Some(true),
                            decreases cr.len() - k,
                        {
                            let (rr, cc) = cross[k];
                            proof {
                                assert(self.white_at(cr[k as int].0 as int, cr[k as int].1 as int));
                            }
                            let j = self.idx(rr, cc);
                            if state[j] == Some(true) {
                                lit = true;
                            }
                            k = k + 1;
                        }
                        AkariCell::White { lamp: state[idx], lit, given: self.givens[idx].is_some() }
                    },
                };
                cells.push(cell);
                c = c + 1;
                assert(cells@ =~= Seq::new((r * self.cols + c) as nat, |i: int| self.display(st, i)));
            }
            proof {
                assert((r + 1) * self.cols == r * self.cols + self.cols) by (nonlinear_arith);
            }
            r = r + 1;
        }
        proof {
            assert(self.rows * self.cols == self.cell_count());
        }
        Grid::from_cells(self.rows, self.cols, cells)
    }

    /// Counter registers only accumulate.
    proof fn lemma_wall_aux_grow(&self, i: int, j: int)
        requires
            0 <= i <= j,
        ensures
            self.wall_aux(i) <= self.wall_aux(j),
        decreases j - i,
    {
        if i < j {
            self.lemma_wall_aux_grow(i, j - 1);
            self.lemma_wall_cost_nonneg(j - 1);
        }
    }

    /// A square draws no negative number of registers.
    proof fn lemma_wall_cost_nonneg(&self, i: int)
        ensures
            self.wall_cost(i) >= 0,
    {
        let n = self.wall_lits(i).len() as int;
        match self.squares()[i] {
            Square::Wall(Some(k)) => {
                assert(at_most_k_aux(n, k as int) >= 0) by (nonlinear_arith)
                    requires
                        n >= 0,
                        k >= 0,
                        at_most_k_aux(n, k as int) == if k >= n || k == 0 { 0 } else { (n - 1) * k },
                ;
                assert(at_least_k_aux(n, k as int) >= 0) by (nonlinear_arith)
                    requires
                        n >= 0,
                        k >= 0,
                        at_least_k_aux(n, k as int) == if k == 0 || k > n {
                            0
                        } else if n - k >= n || n - k == 0 {
                            0
                        } else {
                            (n - 1) * (n - k)
                        },
                ;
            },
            _ => {},
        }
    }

    /// Registered lamp `(r, c)` of `props` has the variable of its position.
    proof fn lemma_lamp_index(&self, props: Seq<Lamp>, r: int, c: int)
        requires
            props == self.lamp_props(self.cell_count()),
            distinct(props),
            self.squares().len() == self.cell_count(),
            self.white_at(r, c),
            forall|j: int| 0 <= j < self.cell_count() && self.squares()[j] is White ==> #[trigger] props.contains(
                Lamp { r: self.at(j).0, c: self.at(j).1 },
            ),
        ensures
            props.contains(Lamp { r: r as usize, c: c as usize }),
    {
        lemma_index_inside(r, c, self.nrows() as int, self.ncols() as int);
        lemma_row_major(r, c, self.ncols() as int);
        let j = r * self.ncols() + c;
        assert(self.at(j) == (r as usize, c as usize));
        assert(props.contains(Lamp { r: self.at(j).0, c: self.at(j).1 }));
    }

    /// The lamp literals of `cells`, all white.
    fn lamp_lits_of(&self, reg: &mut Registry<Lamp>, cells: &Vec<(usize, usize)>) -> (lits: Vec<Lit>)
        requires
            old(reg)@ == self.lamp_props(self.cell_count()),
            distinct(old(reg)@),
            self.squares().len() == self.cell_count(),
            all_white(self, cells@),
            forall|j: int| 0 <= j < self.cell_count() && self.squares()[j] is White ==> #[trigger] old(reg)@.contains(
                Lamp { r: self.at(j).0, c: self.at(j).1 },
            ),
        ensures
            final(reg)@ == old(reg)@,
            lits@ == self.lamp_lits(cells@),
    {
        let ghost props = reg@;
        let mut lits: Vec<Lit> = Vec::new();
        let mut i: usize = 0;
        while i < cells.len()
            invariant
                i <= cells@.len(),
                reg@ == props,
                props == self.lamp_props(self.cell_count()),
                distinct(props),
                self.squares().len() == self.cell_count(),
                all_white(self, cells@),
                forall|j: int| 0 <= j < self.cell_count() && self.squares()[j] is White ==> #[trigger] props.contains(
                    Lamp { r: self.at(j).0, c: self.at(j).1 },
                ),
                lits@ == self.lamp_lits(cells@.subrange(0, i as int)),
            decreases cells@.len() - i,
        {
            let (r, c) = cells[i];
            proof {
                assert(self.white_at(cells@[i as int].0 as int, cells@[i as int].1 as int));
                self.lemma_lamp_index(props, r as int, c as int);
            }
            let var = reg.var(Lamp { r, c });
            proof {
                crate::registry::lemma_decode_after_lit(props, Lamp { r, c }, var.index());
            }
            lits.push(var.pos_lit());
            i = i + 1;
            assert(lits@ =~= self.lamp_lits(cells@.subrange(0, i as int)));
        }
        assert(cells@.subrange(0, i as int) =~= cells@);
        lits
    }
}

/// A line with one trailing carriage return removed.
pub open spec fn strip_cr(line: Seq<char>) -> Seq<char> {
    if line.len() > 0 && line.last() == '\r' {
        line.drop_last()
    } else {
        line
    }
}

/// Reading `s`: the lines ended by a newline so far (a carriage return before
/// the newline dropped), and the line still open.
pub open spec fn line_scan(s: Seq<char>) -> (Seq<Seq<char>>, Seq<char>)
    decreases s.len(),
{
    if s.len() == 0 {
        (Seq::empty(), Seq::empty())
    } else {
        let (done, cur) = line_scan(s.drop_last());
        if s.last() == '\n' {
            (done.push(strip_cr(cur)), Seq::empty())
        } else {
            (done, cur.push(s.last()))
        }
    }
}

/// The lines of `s` as std's `str::lines` yields them: split at `\n` or
/// `\r\n`, the final line ending optional.
pub open spec fn text_lines(s: Seq<char>) -> Seq<Seq<char>> {
    let (done, cur) = line_scan(s);
    if cur.len() > 0 {
        done.push(cur)
    } else {
        done
    }
}

/// The cell characters of a line: everything but whitespace.
pub open spec fn cells_of(line: Seq<char>) -> Seq<char> {
    line.filter(|ch: char| !is_space(ch))
}

/// A recognized cell character: `.`, `#` or a digit `0`–`4`.
pub open spec fn known(ch: char) -> bool {
    ch == '.' || ch == '#' || ('0' as u32 <= ch as u32 <= '4' as u32)
}

/// The square a recognized cell character stands for.
pub open spec fn square_of(ch: char) -> Square {
    if ch == '.' {
        Square::White
    } else if ch == '#' {
        Square::Wall(None)
    } else {
        Square::Wall(Some((ch as u32 - '0' as u32) as u8))
    }
}

/// The non-empty rows of cell characters of `lines`.
pub open spec fn rows_of(lines: Seq<Seq<char>>) -> Seq<Seq<char>> {
    lines.map_values(|l: Seq<char>| cells_of(l)).filter(|row: Seq<char>| row.len() > 0)
}

/// The rows laid end to end.
pub open spec fn concat(rows: Seq<Seq<char>>) -> Seq<char>
    decreases rows.len(),
{
    if rows.len() == 0 {
        Seq::empty()
    } else {
        concat(rows.drop_last()) + rows.last()
    }
}

/// Every cell character of every line is recognized.
pub open spec fn all_known(lines: Seq<Seq<char>>) -> bool {
    forall|i: int, j: int| 0 <= i < lines.len() && 0 <= j < cells_of(lines[i]).len() ==> known(#[trigger] cells_of(lines[i])[j])
}

/// Every row has `w` cells.
pub open spec fn uniform(rows: Seq<Seq<char>>, w: int) -> bool {
    forall|i: int| 0 <= i < rows.len() ==> (#[trigger] rows[i]).len() == w
}

/// The board `s` describes, as `(rows, cols, squares)`: `None` unless every
/// cell character is recognized and there are rows, all of one width.
pub open spec fn akari_parse(s: Seq<char>) -> Option<(nat, nat, Seq<Square>)> {
    let ls = text_lines(s);
    let rows = rows_of(ls);
    if all_known(ls) && rows.len() > 0 && uniform(rows, rows[0].len() as int) {
        Some((rows.len(), rows[0].len(), concat(rows).map_values(|ch: char| square_of(ch))))
    } else {
        None
    }
}

/// The sample board's squares, row-major: `0`–`4` a numbered wall, `5` a
/// plain wall, `9` a white cell.
pub open spec fn sample_codes() -> Seq<u8> {
    seq![
        9, 9, 2, 9, 9, 9, 9,
        9, 4, 9, 9, 9, 1, 9,
        9, 9, 9, 9, 2, 9, 9,
        0, 9, 9, 1, 9, 9, 1,
        9, 9, 1, 9, 9, 9, 9,
        9, 1, 9, 9, 9, 1, 9,
        9, 9, 9, 9, 1, 9, 9,
    ]
}

/// The square a sample code stands for.
pub open spec fn square_of_code(x: u8) -> Square {
    if x < 5 {
        Square::Wall(Some(x))
    } else if x == 5 {
        Square::Wall(None)
    } else {
        Square::White
    }
}

/// The number of lamp givens placed among the first `i` squares.
pub open spec fn placed_count(g: Seq<Option<bool>>, i: int) -> nat
    decreases i,
{
    if i <= 0 {
        0
    } else {
        placed_count(g, i - 1) + if g[i - 1] is Some {
            1nat
        } else {
            0nat
        }
    }
}

proof fn lemma_placed_count_le(g: Seq<Option<bool>>, i: int)
    requires
        0 <= i,
    ensures
        placed_count(g, i) <= i,
    decreases i,
{
    if i > 0 {
        lemma_placed_count_le(g, i - 1);
    }
}

/// The text character of a display cell.
pub open spec fn cell_char(cell: AkariCell) -> char {
    match cell {
        AkariCell::Wall(Some(k)) => ((48 + k) as u8) as char,
        AkariCell::Wall(None) => '#',
        AkariCell::White { lamp: Some(true), .. } => '*',
        AkariCell::White { lit: true, .. } => '+',
        AkariCell::White { .. } => '.',
    }
}

/// The text of the first `c` cells of row `r`.
pub open spec fn akari_row_text(cells: Seq<AkariCell>, cols: int, r: int, c: int) -> Seq<char>
    decreases c,
{
    if c <= 0 {
        Seq::empty()
    } else {
        akari_row_text(cells, cols, r, c - 1).push(cell_char(cells[r * cols + c - 1]))
    }
}

/// The text of the first `r` rows, each ended by a newline.
pub open spec fn akari_text(cells: Seq<AkariCell>, cols: int, r: int) -> Seq<char>
    decreases r,
{
    if r <= 0 {
        Seq::empty()
    } else {
        akari_text(cells, cols, r - 1) + akari_row_text(cells, cols, r - 1, cols).push('\n')
    }
}

/// Split `s` into its lines.
fn split_lines(s: &str) -> (lines: Vec<Vec<char>>)
    ensures
        lines@.map_values(|v: Vec<char>| v@) == text_lines(s@),
{
    let n = s.unicode_len();
    let mut done: Vec<Vec<char>> = Vec::new();
    let mut cur: Vec<char> = Vec::new();
    let mut i: usize = 0;
    assert(done@.map_values(|v: Vec<char>| v@) =~= line_scan(s@.subrange(0, 0)).0);
    while i < n
        invariant
            n == s@.len(),
            i <= n,
            done@.map_values(|v: Vec<char>| v@) == line_scan(s@.subrange(0, i as int)).0,
            cur@ == line_scan(s@.subrange(0, i as int)).1,
        decreases n - i,
    {
        let ch = s.get_char(i);
        assert(s@.subrange(0, i + 1).drop_last() =~= s@.subrange(0, i as int));
        assert(s@.subrange(0, i + 1).last() == ch);
        if ch == '\n' {
            let len = cur.len();
            if len > 0 && cur[len - 1] == '\r' {
                cur.pop();
            }
            let ghost before = done@.map_values(|v: Vec<char>| v@);
            let mut line: Vec<char> = Vec::new();
            std::mem::swap(&mut line, &mut cur);
            done.push(line);
            assert(done@.map_values(|v: Vec<char>| v@) =~= before.push(line@));
        } else {
            cur.push(ch);
        }
        i = i + 1;
    }
    assert(s@.subrange(0, i as int) =~= s@);
    if cur.len() > 0 {
        let ghost before = done@.map_values(|v: Vec<char>| v@);
        done.push(cur);
        assert(done@.map_values(|v: Vec<char>| v@) =~= before.push(line_scan(s@).1));
    }
    done
}

/// The squares of one line's cells, or `None` at an unrecognized character.
fn line_squares(line: &Vec<char>) -> (r: Option<Vec<Square>>)
    ensures
        r is Some <==> forall|j: int| 0 <= j < cells_of(line@).len() ==> known(#[trigger] cells_of(line@)[j]),
        r matches Some(sq) ==> sq@ == cells_of(line@).map_values(|ch: char| square_of(ch)),
{
    let mut row: Vec<Square> = Vec::new();
    let mut i: usize = 0;
    while i < line.len()
        invariant
            i <= line@.len(),
            forall|j: int| 0 <= j < cells_of(line@.subrange(0, i as int)).len() ==> known(
                #[trigger] cells_of(line@.subrange(0, i as int))[j],
            ),
            row@ == cells_of(line@.subrange(0, i as int)).map_values(|ch: char| square_of(ch)),
        decreases line@.len() - i,
    {
        let ch = line[i];
        let ghost prev = cells_of(line@.subrange(0, i as int));
        assert(line@.subrange(0, i + 1).drop_last() =~= line@.subrange(0, i as int));
        assert(line@.subrange(0, i + 1).last() == ch);
        proof {
            reveal(Seq::filter);
        }
        assert(cells_of(line@.subrange(0, i + 1)) == if !is_space(ch) {
            prev.push(ch)
        } else {
            prev
        });
        if is_space_char(ch) {
        } else {
            let x = ch as u32;
            let square = if ch == '.' {
                Square::White
            } else if ch == '#' {
                Square::Wall(None)
            } else if 0x30 <= x && x <= 0x34 {
                Square::Wall(Some((x - 0x30) as u8))
            } else {
                proof {
                    let whole = line@;
                    assert(whole =~= line@.subrange(0, i + 1) + line@.subrange(i + 1, whole.len() as int));
                    Seq::filter_distributes_over_add(
                        line@.subrange(0, i + 1),
                        line@.subrange(i + 1, whole.len() as int),
                        |c: char| !is_space(c),
                    );
                    assert(cells_of(whole)[prev.len() as int] == ch);
                }
                return None;
            };
            row.push(square);
            assert(row@ =~= cells_of(line@.subrange(0, i + 1)).map_values(|ch: char| square_of(ch)));
        }
        i = i + 1;
    }
    assert(line@.subrange(0, i as int) =~= line@);
    Some(row)
}

impl Akari {
    /// A blank all-white board of `rows × cols`.
    pub fn blank(rows: usize, cols: usize) -> (a: Self)
        requires
            rows * cols <= usize::MAX,
        ensures
            a.nrows() == rows,
            a.ncols() == cols,
            a.squares() == Seq::new((rows * cols) as nat, |i: int| Square::White),
            a.lamp_givens() == Seq::new((rows * cols) as nat, |i: int| None::<bool>),
    {
        let n = rows * cols;
        let mut board: Vec<Square> = Vec::new();
        let mut givens: Vec<Option<bool>> = Vec::new();
        let mut i: usize = 0;
        while i < n
            invariant
                i <= n,
                board@ == Seq::new(i as nat, |k: int| Square::White),
                givens@ == Seq::new(i as nat, |k: int| None::<bool>),
            decreases n - i,
        {
            board.push(Square::White);
            givens.push(None);
            i = i + 1;
            assert(board@ =~= Seq::new(i as nat, |k: int| Square::White));
            assert(givens@ =~= Seq::new(i as nat, |k: int| None::<bool>));
        }
        Akari { rows, cols, board, givens }
    }

    /// Parse a board, one row per line: `.` a white cell, `#` a plain wall, a
    /// digit `0`–`4` a numbered wall. Whitespace within a line (other than the
    /// line break) is ignored, so cells may be spaced out, and blank lines are
    /// skipped. `None` unless every line has the same, non-zero
    /// cell count and every character is recognized.
    pub fn from_ascii(s: &str) -> (r: Option<Self>)
        ensures
            r is Some <==> akari_parse(s@) is Some,
            r matches Some(a) ==> akari_parse(s@) == Some((a.nrows(), a.ncols(), a.squares())),
            r matches Some(a) ==> a.lamp_givens() == Seq::new(a.squares().len(), |i: int| None::<bool>),
    {
        let lines = split_lines(s);
        let ghost ls = text_lines(s@);
        let mut board: Vec<Square> = Vec::new();
        let mut width: usize = 0;
        let mut rows: usize = 0;
        let mut li: usize = 0;
        assert(rows_of(ls.subrange(0, 0)) =~= Seq::<Seq<char>>::empty());
        while li < lines.len()
            invariant
                li <= ls.len(),
                ls == lines@.map_values(|v: Vec<char>| v@),
                ls == text_lines(s@),
                all_known(ls.subrange(0, li as int)),
                rows == rows_of(ls.subrange(0, li as int)).len(),
                rows > 0 ==> width == rows_of(ls.subrange(0, li as int))[0].len(),
                uniform(rows_of(ls.subrange(0, li as int)), width as int),
                board@ == concat(rows_of(ls.subrange(0, li as int))).map_values(|ch: char| square_of(ch)),
                board@.len() == rows * width,
            decreases ls.len() - li,
        {
            let ghost pre = ls.subrange(0, li as int);
            let ghost nxt = ls.subrange(0, li + 1);
            assert(nxt.drop_last() =~= pre);
            assert(lines@[li as int]@ == ls[li as int]);
            proof {
                reveal(Seq::filter);
                let mapped = nxt.map_values(|l: Seq<char>| cells_of(l));
                assert(mapped.drop_last() =~= pre.map_values(|l: Seq<char>| cells_of(l)));
            }
            let ghost cells = cells_of(ls[li as int]);
            assert(rows_of(nxt) == if cells.len() > 0 {
                rows_of(pre).push(cells)
            } else {
                rows_of(pre)
            });
            let row = match line_squares(&lines[li]) {
                Some(row) => row,
                None => {
                    proof {
                        let j = choose|j: int| 0 <= j < cells.len() && !known(#[trigger] cells[j]);
                        assert(!known(cells_of(ls[li as int])[j]));
                        assert(!all_known(ls));
                        assert(akari_parse(s@) is None);
                    }
                    return None;
                },
            };
            proof {
                assert forall|i: int, j: int| 0 <= i < nxt.len() && 0 <= j < cells_of(nxt[i]).len() implies known(
                    #[trigger] cells_of(nxt[i])[j],
                ) by {
                    if i < li {
                        assert(nxt[i] == pre[i]);
                    }
                }
            }
            if row.len() > 0 {
                if rows > 0 && row.len() != width {
                    proof {
                        let rr = rows_of(ls);
                        assert(ls =~= nxt + ls.subrange(li + 1, ls.len() as int));
                        assert(rows_of(ls) == rows_of(nxt) + rows_of(ls.subrange(li + 1, ls.len() as int))) by {
                            let f = |l: Seq<char>| cells_of(l);
                            let a = nxt.map_values(f);
                            let b = ls.subrange(li + 1, ls.len() as int).map_values(f);
                            assert(ls.map_values(f) =~= a + b);
                            Seq::filter_distributes_over_add(a, b, |row: Seq<char>| row.len() > 0);
                        }
                        assert(row@.len() == cells.len());
                        assert(rows_of(nxt)[0] == rows_of(pre)[0]);
                        assert(rr[0] == rows_of(nxt)[0]);
                        assert(rr[rows as int] == cells);
                        assert(!uniform(rr, rr[0].len() as int));
                        assert(akari_parse(s@) is None);
                    }
                    return None;
                }
                let ghost before = board@;
                let mut k: usize = 0;
                while k < row.len()
                    invariant
                        k <= row@.len(),
                        board@ == before + row@.subrange(0, k as int),
                    decreases row@.len() - k,
                {
                    board.push(row[k]);
                    k = k + 1;
                    assert(board@ =~= before + row@.subrange(0, k as int));
                }
                proof {
                    assert(row@.subrange(0, k as int) =~= row@);
                    let rn = rows_of(nxt);
                    assert(rn.drop_last() =~= rows_of(pre));
                    assert(concat(rn) == concat(rows_of(pre)) + cells);
                    assert(board@ =~= concat(rn).map_values(|ch: char| square_of(ch)));
                    if rows == 0 {
                        assert(rn[0] == cells);
                    } else {
                        assert(rn[0] == rows_of(pre)[0]);
                    }
                    assert(board@.len() == rows * width + row@.len());
                }
                if rows == 0 {
                    width = row.len();
                }
                rows = rows + 1;
                proof {
                    assert((rows - 1) * width + width == rows * width) by (nonlinear_arith);
                    assert forall|i: int| 0 <= i < rows_of(nxt).len() implies (#[trigger] rows_of(nxt)[i]).len() == width by {
                        if i < rows - 1 {
                            assert(rows_of(nxt)[i] == rows_of(pre)[i]);
                        }
                    }
                }
            } else {
                assert(row@.len() == cells.len());
            }
            li = li + 1;
        }
        assert(ls.subrange(0, li as int) =~= ls);
        if rows == 0 {
            assert(rows_of(ls).len() == 0);
            return None;
        }
        assert(akari_parse(s@) == Some((rows as nat, width as nat, board@)));
        let n = board.len();
        let mut givens: Vec<Option<bool>> = Vec::new();
        let mut i: usize = 0;
        while i < n
            invariant
                i <= n,
                givens@ == Seq::new(i as nat, |k: int| None::<bool>),
            decreases n - i,
        {
            givens.push(None);
            i = i + 1;
            assert(givens@ =~= Seq::new(i as nat, |k: int| None::<bool>));
        }
        Some(Akari { rows, cols: width, board, givens })
    }

    /// The number of lamp givens placed (either polarity).
    pub fn given_count(&self) -> (n: usize)
        ensures
            n == placed_count(self.lamp_givens(), self.lamp_givens().len() as int),
    {
        let mut n: usize = 0;
        let mut i: usize = 0;
        while i < self.givens.len()
            invariant
                i <= self.givens@.len(),
                n == placed_count(self.givens@, i as int),
            decreases self.givens@.len() - i,
        {
            proof {
                lemma_placed_count_le(self.givens@, i as int);
            }
            if self.givens[i].is_some() {
                n = n + 1;
            }
            i = i + 1;
        }
        n
    }

    /// Whether `(r, c)` holds a lamp in a projected grid.
    pub fn lamp_at(grid: &Grid<AkariCell>, r: usize, c: usize) -> (b: bool)
        requires
            r < grid.shape().0,
            c < grid.shape().1,
        ensures
            b == (grid.shape().2[r * grid.shape().1 + c] matches AkariCell::White { lamp: Some(true), .. }),
    {
        match grid.get(r, c) {
            AkariCell::White { lamp: Some(true), .. } => true,
            _ => false,
        }
    }

    /// A grid showing only what a set of [`Deductions`] proves: the givens, with
    /// each fact writing its lamp state over them in order, and undetermined
    /// cells left blank.
    pub fn project_deductions(&self, deductions: &Deductions<Lamp>) -> (grid: Grid<AkariCell>)
        requires
            forall|i: int|
                0 <= i < deductions.proven@.len() ==> (#[trigger] deductions.proven@[i]).0.r < self.nrows()
                    && deductions.proven@[i].0.c < self.ncols(),
        ensures
            grid.shape() == (self.nrows(), self.ncols(), Seq::new(
                self.cell_count() as nat,
                |i: int|
                    self.display(
                        |j: int| painted_lamps(self.lamp_givens(), self.ncols() as int, deductions.proven@)[j],
                        i,
                    ),
            )),
    {
        proof {
            use_type_invariant(self);
        }
        let ghost facts = deductions.proven@;
        let ghost cols = self.cols as int;
        let mut state = copy_vec(&self.givens);
        assert(state@ =~= painted_lamps(self.givens@, cols, facts.subrange(0, 0)));
        let mut i: usize = 0;
        while i < deductions.proven.len()
            invariant
                i <= facts.len(),
                facts == deductions.proven@,
                cols == self.ncols(),
                self.givens@.len() == self.cell_count(),
                forall|k: int| 0 <= k < facts.len() ==> (#[trigger] facts[k]).0.r < self.nrows() && facts[k].0.c < self.ncols(),
                state@ == painted_lamps(self.givens@, cols, facts.subrange(0, i as int)),
            decreases facts.len() - i,
        {
            proof {
                lemma_painted_lamps_len(self.givens@, cols, facts.subrange(0, i as int));
                assert(facts.subrange(0, i + 1).drop_last() =~= facts.subrange(0, i as int));
            }
            let (lamp, holds) = deductions.proven[i];
            let j = self.idx(lamp.r, lamp.c);
            state.set(j, Some(holds));
            i = i + 1;
        }
        assert(facts.subrange(0, i as int) =~= facts);
        proof {
            lemma_painted_lamps_len(self.givens@, cols, facts);
        }
        let grid = self.render_state(&state);
        assert(grid.shape().2 =~= Seq::new(
            self.cell_count() as nat,
            |i: int| self.display(|j: int| painted_lamps(self.lamp_givens(), self.ncols() as int, facts)[j], i),
        )) by {
            assert((|j: int| state@[j]) =~= (|j: int| painted_lamps(self.lamp_givens(), self.ncols() as int, facts)[j]));
        }
        grid
    }

    /// A 7×7 puzzle with a unique solution, its numbered walls spanning the
    /// whole range `0`–`4`.
    pub fn sample() -> (a: Self)
        ensures
            a.nrows() == 7,
            a.ncols() == 7,
            a.squares() == sample_codes().map_values(|x: u8| square_of_code(x)),
            a.lamp_givens() == Seq::new(49, |i: int| None::<bool>),
    {
        let d: [u8; 49] = [
            9, 9, 2, 9, 9, 9, 9,
            9, 4, 9, 9, 9, 1, 9,
            9, 9, 9, 9, 2, 9, 9,
            0, 9, 9, 1, 9, 9, 1,
            9, 9, 1, 9, 9, 9, 9,
            9, 1, 9, 9, 9, 1, 9,
            9, 9, 9, 9, 1, 9, 9,
        ];
        assert(d@ == sample_codes());
        let mut board: Vec<Square> = Vec::new();
        let mut givens: Vec<Option<bool>> = Vec::new();
        let mut i: usize = 0;
        while i < 49
            invariant
                i <= 49,
                d@ == sample_codes(),
                board@ == sample_codes().map_values(|x: u8| square_of_code(x)).subrange(0, i as int),
                givens@ == Seq::new(i as nat, |k: int| None::<bool>),
            decreases 49 - i,
        {
            let x = d[i];
            let sq = if x < 5 {
                Square::Wall(Some(x))
            } else if x == 5 {
                Square::Wall(None)
            } else {
                Square::White
            };
            board.push(sq);
            givens.push(None);
            i = i + 1;
            assert(board@ =~= sample_codes().map_values(|x: u8| square_of_code(x)).subrange(0, i as int));
            assert(givens@ =~= Seq::new(i as nat, |k: int| None::<bool>));
        }
        assert(board@ =~= sample_codes().map_values(|x: u8| square_of_code(x)));
        assert(board@.len() == 49);
        assert(givens@.len() == 49);
        let rows: usize = 7;
        let cols: usize = 7;
        assert(rows * cols == 49);
        Akari { rows, cols, board, givens }
    }
}

impl Clone for Akari {
    fn clone(&self) -> (a: Self)
        ensures
            a.nrows() == self.nrows(),
            a.ncols() == self.ncols(),
            a.squares() == self.squares(),
            a.lamp_givens() == self.lamp_givens(),
    {
        proof {
            use_type_invariant(self);
        }
        Akari { rows: self.rows, cols: self.cols, board: copy_vec(&self.board), givens: copy_vec(&self.givens) }
    }
}

/// Render a projected grid as text: `#` a wall, a digit a numbered wall, `*` a
/// lamp, and `.` an unlit or `+` a lit empty cell, one line per row.
pub fn render(grid: &Grid<AkariCell>) -> (out: String)
    requires
        forall|i: int|
            0 <= i < grid.shape().2.len() ==> (#[trigger] grid.shape().2[i] matches AkariCell::Wall(Some(k)) ==> k <= 207),
    ensures
        out@ == akari_text(grid.shape().2, grid.shape().1 as int, grid.shape().0 as int),
{
    grid.lemma_shape();
    let ghost cells = grid.shape().2;
    let ghost cols = grid.shape().1 as int;
    let mut out = String::new();
    assert(out@ =~= akari_text(cells, cols, 0));
    let mut r: usize = 0;
    while r < grid.rows()
        invariant
            r <= grid.shape().0,
            cells == grid.shape().2,
            cols == grid.shape().1,
            cells.len() == grid.shape().0 * grid.shape().1,
            forall|i: int| 0 <= i < cells.len() ==> (#[trigger] cells[i] matches AkariCell::Wall(Some(k)) ==> k <= 207),
            out@ == akari_text(cells, cols, r as int),
        decreases grid.shape().0 - r,
    {
        let ghost start = out@;
        let mut c: usize = 0;
        while c < grid.cols()
            invariant
                r < grid.shape().0,
                c <= cols,
                cells == grid.shape().2,
                cols == grid.shape().1,
                cells.len() == grid.shape().0 * grid.shape().1,
                forall|i: int| 0 <= i < cells.len() ==> (#[trigger] cells[i] matches AkariCell::Wall(Some(k)) ==> k <= 207),
                out@ == start + akari_row_text(cells, cols, r as int, c as int),
            decreases cols - c,
        {
            proof {
                lemma_index_inside(r as int, c as int, grid.shape().0 as int, cols);
            }
            let ch = match *grid.get(r, c) {
                AkariCell::Wall(Some(k)) => (48 + k) as char,
                AkariCell::Wall(None) => '#',
                AkariCell::White { lamp: Some(true), .. } => '*',
                AkariCell::White { lit: true, .. } => '+',
                AkariCell::White { .. } => '.',
            };
            push_char(&mut out, ch);
            c = c + 1;
            assert(out@ =~= start + akari_row_text(cells, cols, r as int, c as int));
        }
        push_char(&mut out, '\n');
        r = r + 1;
        assert(out@ =~= akari_text(cells, cols, r as int));
    }
    out
}


/// Joining two lists of white cells gives white cells.
proof fn lemma_white_append(a: &Akari, x: Seq<(usize, usize)>, y: Seq<(usize, usize)>)
    requires
        all_white(a, x),
        all_white(a, y),
    ensures
        all_white(a, x + y),
{
    assert forall|i: int| 0 <= i < (x + y).len() implies a.white_at(
        (#[trigger] (x + y)[i]).0 as int,
        (x + y)[i].1 as int,
    ) by {
        if i < x.len() {
            assert((x + y)[i] == x[i]);
        } else {
            assert((x + y)[i] == y[i - x.len()]);
        }
    }
}

/// A white cell alone is a list of white cells.
proof fn lemma_white_single(a: &Akari, r: int, c: int)
    requires
        a.white_at(r, c),
    ensures
        all_white(a, seq![(r as usize, c as usize)]),
{
    a.lemma_dims_fit();
    assert(seq![(r as usize, c as usize)][0] == (r as usize, c as usize));
}

/// Adding a list of white cells to lists of white cells keeps them white.
proof fn lemma_runs_white_push(a: &Akari, rs: Seq<Seq<(usize, usize)>>, cur: Seq<(usize, usize)>)
    requires
        runs_white(a, rs),
        all_white(a, cur),
    ensures
        runs_white(a, rs.push(cur)),
        runs_white(a, flush(rs, cur)),
{
    assert forall|i: int| 0 <= i < rs.push(cur).len() implies all_white(a, #[trigger] rs.push(cur)[i]) by {
        if i < rs.len() {
            assert(rs.push(cur)[i] == rs[i]);
        }
    }
}

/// Concatenated lists of white-cell lists are white.
proof fn lemma_runs_white_append(a: &Akari, x: Seq<Seq<(usize, usize)>>, y: Seq<Seq<(usize, usize)>>)
    requires
        runs_white(a, x),
        runs_white(a, y),
    ensures
        runs_white(a, x + y),
{
    assert forall|i: int| 0 <= i < (x + y).len() implies all_white(a, #[trigger] (x + y)[i]) by {
        if i < x.len() {
            assert((x + y)[i] == x[i]);
        } else {
            assert((x + y)[i] == y[i - x.len()]);
        }
    }
}

impl Akari {
    /// The board's dimensions are machine integers.
    proof fn lemma_dims_fit(&self)
        ensures
            self.nrows() <= usize::MAX,
            self.ncols() <= usize::MAX,
    {
    }

    /// The cells left of `(r, c)` are white.
    proof fn lemma_left_white(&self, r: int, c: int)
        ensures
            all_white(self, self.left_run(r, c)),
        decreases c,
    {
        if !(c <= 0 || !self.white_at(r, c - 1)) {
            self.lemma_left_white(r, c - 1);
            lemma_white_single(self, r, c - 1);
            lemma_white_append(self, seq![(r as usize, (c - 1) as usize)], self.left_run(r, c - 1));
        }
    }

    /// The cells right of `(r, c)` are white.
    proof fn lemma_right_white(&self, r: int, c: int)
        ensures
            all_white(self, self.right_run(r, c)),
        decreases self.ncols() - c,
    {
        if !(c + 1 >= self.ncols() || !self.white_at(r, c + 1)) {
            self.lemma_right_white(r, c + 1);
            lemma_white_single(self, r, c + 1);
            lemma_white_append(self, seq![(r as usize, (c + 1) as usize)], self.right_run(r, c + 1));
        }
    }

    /// The cells above `(r, c)` are white.
    proof fn lemma_up_white(&self, r: int, c: int)
        ensures
            all_white(self, self.up_run(r, c)),
        decreases r,
    {
        if !(r <= 0 || !self.white_at(r - 1, c)) {
            self.lemma_up_white(r - 1, c);
            lemma_white_single(self, r - 1, c);
            lemma_white_append(self, seq![((r - 1) as usize, c as usize)], self.up_run(r - 1, c));
        }
    }

    /// The cells below `(r, c)` are white.
    proof fn lemma_down_white(&self, r: int, c: int)
        ensures
            all_white(self, self.down_run(r, c)),
        decreases self.nrows() - r,
    {
        if !(r + 1 >= self.nrows() || !self.white_at(r + 1, c)) {
            self.lemma_down_white(r + 1, c);
            lemma_white_single(self, r + 1, c);
            lemma_white_append(self, seq![((r + 1) as usize, c as usize)], self.down_run(r + 1, c));
        }
    }

    /// The cross of a white cell is white.
    proof fn lemma_cross_white(&self, r: int, c: int)
        requires
            self.white_at(r, c),
        ensures
            all_white(self, self.cross_spec(r, c)),
    {
        lemma_white_single(self, r, c);
        self.lemma_left_white(r, c);
        self.lemma_right_white(r, c);
        self.lemma_up_white(r, c);
        self.lemma_down_white(r, c);
        let s0 = seq![(r as usize, c as usize)];
        lemma_white_append(self, s0, self.left_run(r, c));
        lemma_white_append(self, s0 + self.left_run(r, c), self.right_run(r, c));
        lemma_white_append(self, s0 + self.left_run(r, c) + self.right_run(r, c), self.up_run(r, c));
        lemma_white_append(
            self,
            s0 + self.left_run(r, c) + self.right_run(r, c) + self.up_run(r, c),
            self.down_run(r, c),
        );
    }

    /// The neighbors a numbered wall counts are white.
    proof fn lemma_neighbors_white(&self, r: int, c: int)
        ensures
            all_white(self, self.neighbors_spec(r, c)),
    {
        let e: Seq<(usize, usize)> = Seq::empty();
        let up = if r > 0 && self.white_at(r - 1, c) {
            lemma_white_single(self, r - 1, c);
            seq![((r - 1) as usize, c as usize)]
        } else {
            e
        };
        let down = if r + 1 < self.nrows() && self.white_at(r + 1, c) {
            lemma_white_single(self, r + 1, c);
            seq![((r + 1) as usize, c as usize)]
        } else {
            e
        };
        let left = if c > 0 && self.white_at(r, c - 1) {
            lemma_white_single(self, r, c - 1);
            seq![(r as usize, (c - 1) as usize)]
        } else {
            e
        };
        let right = if c + 1 < self.ncols() && self.white_at(r, c + 1) {
            lemma_white_single(self, r, c + 1);
            seq![(r as usize, (c + 1) as usize)]
        } else {
            e
        };
        lemma_white_append(self, up, down);
        lemma_white_append(self, up + down, left);
        lemma_white_append(self, up + down + left, right);
        assert(self.neighbors_spec(r, c) == up + down + left + right);
    }

    /// Scanning a row yields white runs.
    proof fn lemma_hscan_white(&self, r: int, c: int)
        ensures
            runs_white(self, self.hscan(r, c).0),
            all_white(self, self.hscan(r, c).1),
        decreases c,
    {
        if c > 0 {
            self.lemma_hscan_white(r, c - 1);
            let (rs, cur) = self.hscan(r, c - 1);
            if self.white_at(r, c - 1) {
                lemma_white_single(self, r, c - 1);
                lemma_white_append(self, cur, seq![(r as usize, (c - 1) as usize)]);
                assert(cur.push((r as usize, (c - 1) as usize)) == cur + seq![(r as usize, (c - 1) as usize)]);
            } else {
                lemma_runs_white_push(self, rs, cur);
            }
        }
    }

    /// Scanning a column yields white runs.
    proof fn lemma_vscan_white(&self, c: int, r: int)
        ensures
            runs_white(self, self.vscan(c, r).0),
            all_white(self, self.vscan(c, r).1),
        decreases r,
    {
        if r > 0 {
            self.lemma_vscan_white(c, r - 1);
            let (rs, cur) = self.vscan(c, r - 1);
            if self.white_at(r - 1, c) {
                lemma_white_single(self, r - 1, c);
                lemma_white_append(self, cur, seq![((r - 1) as usize, c as usize)]);
                assert(cur.push(((r - 1) as usize, c as usize)) == cur + seq![((r - 1) as usize, c as usize)]);
            } else {
                lemma_runs_white_push(self, rs, cur);
            }
        }
    }

    /// The row runs are white.
    proof fn lemma_hruns_white(&self, r: int)
        ensures
            runs_white(self, self.hruns(r)),
        decreases r,
    {
        if r > 0 {
            self.lemma_hruns_white(r - 1);
            self.lemma_hscan_white(r - 1, self.ncols() as int);
            let (rs, cur) = self.hscan(r - 1, self.ncols() as int);
            lemma_runs_white_push(self, rs, cur);
            lemma_runs_white_append(self, self.hruns(r - 1), flush(rs, cur));
        }
    }

    /// The column runs are white.
    proof fn lemma_vruns_white(&self, c: int)
        ensures
            runs_white(self, self.vruns(c)),
        decreases c,
    {
        if c > 0 {
            self.lemma_vruns_white(c - 1);
            self.lemma_vscan_white(c - 1, self.nrows() as int);
            let (rs, cur) = self.vscan(c - 1, self.nrows() as int);
            lemma_runs_white_push(self, rs, cur);
            lemma_runs_white_append(self, self.vruns(c - 1), flush(rs, cur));
        }
    }

    /// Every run is white.
    proof fn lemma_runs_white(&self)
        ensures
            runs_white(self, self.runs_spec()),
    {
        self.lemma_hruns_white(self.nrows() as int);
        self.lemma_vruns_white(self.ncols() as int);
        lemma_runs_white_append(self, self.hruns(self.nrows() as int), self.vruns(self.ncols() as int));
    }
}


impl Akari {
    /// The lamp literals of white cells are over the lamps' own variables.
    proof fn lemma_lamp_lits_below(&self, cells: Seq<(usize, usize)>)
        requires
            self.squares().len() == self.cell_count(),
            all_white(self, cells),
            self.lamp_props(self.cell_count()).len() <= MAX_VAR_IDX + 1,
        ensures
            lits_below(self.lamp_lits(cells), self.lamp_props(self.cell_count()).len() as int),
    {
        let props = self.lamp_props(self.cell_count());
        self.lemma_lamp_props(self.cell_count());
        assert forall|i: int| 0 <= i < self.lamp_lits(cells).len() implies #[trigger] self.lamp_lits(
            cells,
        )[i].var.index() < props.len() by {
            let r = cells[i].0;
            let c = cells[i].1;
            assert(self.white_at(r as int, c as int));
            lemma_index_inside(r as int, c as int, self.nrows() as int, self.ncols() as int);
            lemma_row_major(r as int, c as int, self.ncols() as int);
            let j = r * self.ncols() + c;
            assert(self.at(j) == (r, c));
            let lamp = Lamp { r, c };
            assert(props.contains(lamp));
            let k = index_of(props, lamp);
            assert(0 <= k < props.len());
            assert(self.lamp_lits(cells)[i] == value_lit(k, true));
        }
    }

    /// No run among the first `k` holds two lamps under `tau`.
    pub open spec fn runs_single(&self, tau: spec_fn(int) -> bool, k: int) -> bool {
        forall|j: int| 0 <= j < k ==> at_most_one_true(tau, #[trigger] self.lamp_lits(self.runs_spec()[j]))
    }

    /// The lamp literals of the cross of square `j`.
    pub open spec fn cross_lits(&self, j: int) -> Seq<Lit> {
        self.lamp_lits(self.cross_spec(self.at(j).0 as int, self.at(j).1 as int))
    }

    /// Every white square among the first `i` has a lamp in its cross under `tau`.
    pub open spec fn crosses_lit(&self, tau: spec_fn(int) -> bool, i: int) -> bool {
        forall|j: int| 0 <= j < i && self.squares()[j] is White ==> some_true(tau, #[trigger] self.cross_lits(j))
    }

    /// Square `j`, when a numbered wall, has exactly its number of lamps among
    /// its white neighbors under `tau`.
    pub open spec fn wall_ok(&self, tau: spec_fn(int) -> bool, j: int) -> bool {
        match self.squares()[j] {
            Square::Wall(Some(k)) => count_true(tau, self.wall_lits(j), self.wall_lits(j).len() as int) == k,
            _ => true,
        }
    }

    /// Every numbered wall among the first `i` squares is satisfied under `tau`.
    pub open spec fn walls_counted(&self, tau: spec_fn(int) -> bool, i: int) -> bool {
        forall|j: int| 0 <= j < i ==> #[trigger] self.wall_ok(tau, j)
    }

    /// The run rules hold exactly when no run holds two lamps.
    proof fn lemma_run_rules_mean(&self, tau: spec_fn(int) -> bool, k: int)
        requires
            0 <= k,
        ensures
            cnf_holds(tau, self.run_rules(k)) == self.runs_single(tau, k),
        decreases k,
    {
        if k > 0 {
            self.lemma_run_rules_mean(tau, k - 1);
            let lits = self.lamp_lits(self.runs_spec()[k - 1]);
            lemma_at_most_one_pairwise_means(tau, lits);
            lemma_cnf_holds_append(tau, self.run_rules(k - 1), at_most_one_pairwise_clauses(lits));
            if self.runs_single(tau, k) {
                assert(at_most_one_true(tau, lits));
                assert(self.runs_single(tau, k - 1));
            }
        }
    }

    /// The cross rules hold exactly when every white square's cross has a lamp.
    proof fn lemma_cross_rules_mean(&self, tau: spec_fn(int) -> bool, i: int)
        requires
            0 <= i,
        ensures
            cnf_holds(tau, self.cross_rules(i)) == self.crosses_lit(tau, i),
        decreases i,
    {
        if i > 0 {
            self.lemma_cross_rules_mean(tau, i - 1);
            let lits = self.cross_lits(i - 1);
            let tail: Seq<Seq<Lit>> = if self.squares()[i - 1] is White {
                seq![lits]
            } else {
                Seq::empty()
            };
            lemma_cnf_holds_append(tau, self.cross_rules(i - 1), tail);
            if self.squares()[i - 1] is White {
                if some_true(tau, lits) {
                    assert forall|m: int| 0 <= m < tail.len() implies clause_holds(tau, #[trigger] tail[m]) by {
                        assert(tail[m] == lits);
                    }
                }
                if cnf_holds(tau, tail) {
                    assert(clause_holds(tau, tail[0]));
                    assert(tail[0] == lits);
                }
            }
            if self.crosses_lit(tau, i) {
                assert(self.crosses_lit(tau, i - 1));
            }
            if self.crosses_lit(tau, i - 1) && (self.squares()[i - 1] is White ==> some_true(tau, lits)) {
                assert forall|j: int| 0 <= j < i && self.squares()[j] is White implies some_true(
                    tau,
                    #[trigger] self.cross_lits(j),
                ) by {
                    if j < i - 1 {
                    }
                }
            }
        }
    }

    /// The run rules mention only lamps.
    proof fn lemma_run_rules_below(&self, k: int)
        requires
            0 <= k <= self.runs_spec().len(),
            self.squares().len() == self.cell_count(),
            self.lamp_props(self.cell_count()).len() <= MAX_VAR_IDX + 1,
        ensures
            clauses_below(self.run_rules(k), self.lamp_props(self.cell_count()).len() as int),
        decreases k,
    {
        if k > 0 {
            let p = self.lamp_props(self.cell_count()).len() as int;
            self.lemma_run_rules_below(k - 1);
            self.lemma_runs_white();
            assert(all_white(self, self.runs_spec()[k - 1]));
            self.lemma_lamp_lits_below(self.runs_spec()[k - 1]);
            lemma_pairwise_below(self.lamp_lits(self.runs_spec()[k - 1]), p);
            lemma_below_append(self.run_rules(k - 1), at_most_one_pairwise_clauses(self.lamp_lits(self.runs_spec()[k - 1])), p);
        }
    }

    /// The cross rules mention only lamps.
    proof fn lemma_cross_rules_below(&self, i: int)
        requires
            0 <= i <= self.cell_count(),
            self.squares().len() == self.cell_count(),
            self.lamp_props(self.cell_count()).len() <= MAX_VAR_IDX + 1,
        ensures
            clauses_below(self.cross_rules(i), self.lamp_props(self.cell_count()).len() as int),
        decreases i,
    {
        if i > 0 {
            let p = self.lamp_props(self.cell_count()).len() as int;
            self.lemma_cross_rules_below(i - 1);
            if self.squares()[i - 1] is White {
                self.lemma_at_inside(i - 1);
                self.lemma_cross_white(self.at(i - 1).0 as int, self.at(i - 1).1 as int);
                self.lemma_lamp_lits_below(self.cross_spec(self.at(i - 1).0 as int, self.at(i - 1).1 as int));
                let lits = self.cross_lits(i - 1);
                assert(clauses_below(seq![lits], p)) by {
                    assert(seq![lits][0] == lits);
                }
                lemma_below_append(self.cross_rules(i - 1), seq![lits], p);
            } else {
                assert(self.cross_rules(i) == self.cross_rules(i - 1) + Seq::<Seq<Lit>>::empty());
                assert(self.cross_rules(i - 1) + Seq::<Seq<Lit>>::empty() == self.cross_rules(i - 1));
            }
        }
    }

    /// Square `j` sits at its row and column, inside the board.
    proof fn lemma_at_inside(&self, j: int)
        requires
            0 <= j < self.cell_count(),
        ensures
            self.white_at(self.at(j).0 as int, self.at(j).1 as int) == (self.squares()[j] is White),
            0 <= self.at(j).0 < self.nrows(),
            0 <= self.at(j).1 < self.ncols(),
    {
        let cols = self.ncols() as int;
        assert(cols > 0) by (nonlinear_arith)
            requires
                0 <= j < self.nrows() * cols,
                cols >= 0,
        ;
        vstd::arithmetic::div_mod::lemma_fundamental_div_mod(j, cols);
        vstd::arithmetic::div_mod::lemma_mod_bound(j, cols);
        vstd::arithmetic::div_mod::lemma_div_pos_is_pos(j, cols);
        assert(j / cols < self.nrows()) by {
            vstd::arithmetic::div_mod::lemma_div_is_ordered(j, self.nrows() * cols - 1, cols);
            assert(self.nrows() * cols - 1 == (self.nrows() - 1) * cols + (cols - 1)) by (nonlinear_arith);
            vstd::arithmetic::div_mod::lemma_fundamental_div_mod_converse(
                self.nrows() * cols - 1,
                cols,
                self.nrows() - 1,
                cols - 1,
            );
        }
        self.lemma_dims_fit();
        assert(self.at(j).0 as int == j / cols);
        assert(self.at(j).1 as int == j % cols);
        assert(self.at(j).0 * cols + self.at(j).1 == j) by (nonlinear_arith)
            requires
                self.at(j).0 as int == j / cols,
                self.at(j).1 as int == j % cols,
                j == cols * (j / cols) + j % cols,
        ;
    }
}


impl Akari {
    /// The numbered-wall rules of the first `i` squares mention only lamps and the
    /// registers drawn so far, and, with those registers left free, they can be
    /// met exactly when each of those walls has its number of lamps.
    proof fn lemma_wall_rules_mean(&self, tau: spec_fn(int) -> bool, i: int)
        requires
            0 <= i <= self.cell_count(),
            self.squares().len() == self.cell_count(),
            self.lamp_props(self.cell_count()).len() + self.wall_aux(self.cell_count()) <= MAX_VAR_IDX + 1,
        ensures
            clauses_below(self.wall_rules(i), self.lamp_props(self.cell_count()).len() + self.wall_aux(i)),
            admits(self.wall_rules(i), tau, self.lamp_props(self.cell_count()).len() as int) == self.walls_counted(
                tau,
                i,
            ),
        decreases i,
    {
        let p = self.lamp_props(self.cell_count()).len() as int;
        if i == 0 {
            assert(agree_below(tau, tau, p));
            assert(cnf_holds(tau, self.wall_rules(0)));
        } else {
            self.lemma_wall_rules_mean(tau, i - 1);
            let b = p + self.wall_aux(i - 1);
            let prev = self.wall_rules(i - 1);
            let wc = self.wall_clauses(i - 1, b);
            assert(self.wall_rules(i) == prev + wc);
            self.lemma_wall_aux_grow(i, self.cell_count());
            self.lemma_wall_aux_grow(0, i - 1);
            self.lemma_wall_cost_nonneg(i - 1);
            let top = b + self.wall_cost(i - 1);
            assert(top == p + self.wall_aux(i));
            match self.squares()[i - 1] {
                Square::Wall(Some(k)) => {
                    let wl = self.wall_lits(i - 1);
                    let r = self.at(i - 1).0 as int;
                    let c = self.at(i - 1).1 as int;
                    self.lemma_neighbors_white(r, c);
                    self.lemma_lamp_lits_below(self.neighbors_spec(r, c));
                    assert(lits_below(wl, b)) by {
                        assert forall|m: int| 0 <= m < wl.len() implies #[trigger] wl[m].var.index() < b by {
                            assert(wl[m].var.index() < p);
                        }
                    }
                    lemma_exactly_k_below(wl, k as int, b);
                    lemma_below_mono(prev, b, top);
                    lemma_below_append(prev, wc, top);
                    if admits(prev + wc, tau, p) {
                        let t = choose|t: spec_fn(int) -> bool| agree_below(t, tau, p) && #[trigger] cnf_holds(t, prev + wc);
                        lemma_cnf_holds_append(t, prev, wc);
                        assert(admits(prev, tau, p));
                        assert(agree_below(t, t, b));
                        lemma_exactly_k_means(t, wl, k as int, b);
                        lemma_count_agrees(t, tau, wl, p, wl.len() as int);
                        assert(self.wall_ok(tau, i - 1));
                        assert forall|j: int| 0 <= j < i implies #[trigger] self.wall_ok(tau, j) by {
                            if j < i - 1 {
                            }
                        }
                    }
                    if self.walls_counted(tau, i) {
                        assert(self.walls_counted(tau, i - 1));
                        assert(self.wall_ok(tau, i - 1));
                        let t1 = choose|t: spec_fn(int) -> bool| agree_below(t, tau, p) && #[trigger] cnf_holds(t, prev);
                        lemma_count_agrees(t1, tau, wl, p, wl.len() as int);
                        lemma_exactly_k_means(t1, wl, k as int, b);
                        let t2 = choose|t: spec_fn(int) -> bool| agree_below(t, t1, b) && #[trigger] cnf_holds(t, wc);
                        lemma_cnf_frame(t2, t1, prev, b);
                        lemma_cnf_holds_append(t2, prev, wc);
                        assert(agree_below(t2, tau, p));
                    }
                },
                _ => {
                    assert(wc == Seq::<Seq<Lit>>::empty());
                    assert(prev + wc == prev);
                    assert(self.wall_ok(tau, i - 1));
                    if self.walls_counted(tau, i - 1) {
                        assert forall|j: int| 0 <= j < i implies #[trigger] self.wall_ok(tau, j) by {
                            if j < i - 1 {
                            }
                        }
                    }
                },
            }
        }
    }

    /// The Akari rules mean what they say: with the numbered walls' counter
    /// registers left free, a lamp placement meets them exactly when no run of
    /// white cells holds two lamps, the cross of every white cell holds a lamp,
    /// and every numbered wall has exactly its number of lamps among its white
    /// neighbors.
    pub proof fn lemma_rules_mean(&self, tau: spec_fn(int) -> bool)
        requires
            self.encodable(),
            self.squares().len() == self.cell_count(),
        ensures
            admits(self.rules(), tau, self.props().len() as int) == (self.runs_single(
                tau,
                self.runs_spec().len() as int,
            ) && self.crosses_lit(tau, self.cell_count()) && self.walls_counted(tau, self.cell_count())),
    {
        let p = self.lamp_props(self.cell_count()).len() as int;
        let n = self.cell_count();
        let rr = self.runs_spec().len() as int;
        let a = self.run_rules(rr);
        let c = self.cross_rules(n);
        let w = self.wall_rules(n);
        assert(self.rules() == a + c + w);
        assert(n >= 0);
        self.lemma_wall_aux_grow(0, n);
        self.lemma_run_rules_below(rr);
        self.lemma_cross_rules_below(n);
        self.lemma_wall_rules_mean(tau, n);
        self.lemma_run_rules_mean(tau, rr);
        self.lemma_cross_rules_mean(tau, n);
        if admits(a + c + w, tau, p) {
            let t = choose|t: spec_fn(int) -> bool| agree_below(t, tau, p) && #[trigger] cnf_holds(t, a + c + w);
            lemma_cnf_holds_append(t, a + c, w);
            lemma_cnf_holds_append(t, a, c);
            lemma_cnf_frame(t, tau, a, p);
            lemma_cnf_frame(t, tau, c, p);
            assert(admits(w, tau, p));
        }
        if self.runs_single(tau, rr) && self.crosses_lit(tau, n) && self.walls_counted(tau, n) {
            let t = choose|t: spec_fn(int) -> bool| agree_below(t, tau, p) && #[trigger] cnf_holds(t, w);
            lemma_cnf_frame(t, tau, a, p);
            lemma_cnf_frame(t, tau, c, p);
            lemma_cnf_holds_append(t, a, c);
            lemma_cnf_holds_append(t, a + c, w);
        }
    }
}


/// The number of white squares among the first `i`.
pub open spec fn white_total(squares: Seq<Square>, i: int) -> nat
    decreases i,
{
    if i <= 0 {
        0
    } else {
        white_total(squares, i - 1) + if squares[i - 1] is White {
            1nat
        } else {
            0nat
        }
    }
}

/// The number of white cells among the first `i` that show a lamp state, placed
/// or ruled out.
pub open spec fn decided_total(cells: Seq<AkariCell>, i: int) -> nat
    decreases i,
{
    if i <= 0 {
        0
    } else {
        decided_total(cells, i - 1) + if cells[i - 1] matches AkariCell::White { lamp: Some(_), .. } {
            1nat
        } else {
            0nat
        }
    }
}

impl Akari {
    /// The number of white cells on the board.
    pub fn white_count(&self) -> (n: usize)
        ensures
            n == white_total(self.squares(), self.cell_count()),
    {
        proof {
            use_type_invariant(self);
        }
        let total = self.board.len();
        let mut n: usize = 0;
        let mut i: usize = 0;
        while i < total
            invariant
                total == self.cell_count(),
                self.board@.len() == total,
                i <= total,
                n == white_total(self.squares(), i as int),
                n <= i,
            decreases total - i,
        {
            if let Square::White = self.board[i] {
                n = n + 1;
            }
            i = i + 1;
        }
        n
    }

    /// How many white cells of a projected `grid` of this board show a lamp
    /// state, placed or ruled out.
    pub fn decided_white(&self, grid: &Grid<AkariCell>) -> (n: usize)
        requires
            grid.shape().0 == self.nrows(),
            grid.shape().1 == self.ncols(),
        ensures
            n == decided_total(grid.shape().2, self.cell_count()),
    {
        grid.lemma_shape();
        let cells = grid.cells();
        let total = cells.len();
        let mut n: usize = 0;
        let mut i: usize = 0;
        while i < total
            invariant
                total == self.cell_count(),
                cells@ == grid.shape().2,
                cells@.len() == total,
                i <= total,
                n == decided_total(cells@, i as int),
                n <= i,
            decreases total - i,
        {
            if let AkariCell::White { lamp: Some(_), .. } = cells[i] {
                n = n + 1;
            }
            i = i + 1;
        }
        n
    }
}


/// The next lamp given when a white cell is clicked: unmarked, then a lamp,
/// then marked empty, then unmarked again.
pub open spec fn lamp_cycle(g: Option<bool>) -> Option<bool> {
    match g {
        None => Some(true),
        Some(true) => Some(false),
        Some(false) => None,
    }
}

/// Three clicks return a white cell to the given it started with.
pub proof fn lemma_lamp_cycle_returns(g: Option<bool>)
    ensures
        lamp_cycle(lamp_cycle(lamp_cycle(g))) == g,
{
}

impl Akari {
    /// Cycle the lamp given at `(r, c)` as a click does: unmarked, a lamp, marked
    /// empty, unmarked. A wall is left alone.
    pub fn cycle_given(&mut self, r: usize, c: usize)
        requires
            r < old(self).nrows(),
            c < old(self).ncols(),
        ensures
            final(self).nrows() == old(self).nrows(),
            final(self).ncols() == old(self).ncols(),
            final(self).squares() == old(self).squares(),
            final(self).lamp_givens() == if old(self).white_at(r as int, c as int) {
                old(self).lamp_givens().update(
                    r * old(self).ncols() + c,
                    lamp_cycle(old(self).lamp_givens()[r * old(self).ncols() + c]),
                )
            } else {
                old(self).lamp_givens()
            },
    {
        if !self.is_white(r, c) {
            return;
        }
        let next = match self.given(r, c) {
            None => Some(true),
            Some(true) => Some(false),
            Some(false) => None,
        };
        self.set_given(r, c, next);
    }
}

/// Some run of `rs` holds both `p` and `q`.
pub open spec fn in_one_run(rs: Seq<Seq<(usize, usize)>>, p: (usize, usize), q: (usize, usize)) -> bool {
    exists|j: int| #![trigger rs[j]] 0 <= j < rs.len() && rs[j].contains(p) && rs[j].contains(q)
}

/// A run holding both cells in `x` holds them in `x + y` and in `y + x`.
proof fn lemma_in_one_run_append(x: Seq<Seq<(usize, usize)>>, y: Seq<Seq<(usize, usize)>>, p: (usize, usize), q: (usize, usize))
    ensures
        in_one_run(x, p, q) ==> in_one_run(x + y, p, q) && in_one_run(y + x, p, q),
{
    if in_one_run(x, p, q) {
        let j = choose|j: int| #![trigger x[j]] 0 <= j < x.len() && x[j].contains(p) && x[j].contains(q);
        assert((x + y)[j] == x[j]);
        assert((y + x)[y.len() + j] == x[j]);
    }
}

/// Closing a run keeps every run closed before, and adds the open run when
/// it holds two different cells.
proof fn lemma_flush_keeps(rs: Seq<Seq<(usize, usize)>>, cur: Seq<(usize, usize)>, p: (usize, usize), q: (usize, usize))
    ensures
        in_one_run(rs, p, q) ==> in_one_run(flush(rs, cur), p, q),
        p != q && cur.contains(p) && cur.contains(q) ==> in_one_run(flush(rs, cur), p, q),
{
    if in_one_run(rs, p, q) {
        let j = choose|j: int| #![trigger rs[j]] 0 <= j < rs.len() && rs[j].contains(p) && rs[j].contains(q);
        if cur.len() > 1 {
            assert(rs.push(cur)[j] == rs[j]);
        }
    }
    if p != q && cur.contains(p) && cur.contains(q) {
        let i = choose|i: int| 0 <= i < cur.len() && cur[i] == p;
        let k = choose|k: int| 0 <= k < cur.len() && cur[k] == q;
        assert(i != k);
        assert(cur.len() > 1);
        assert(flush(rs, cur)[rs.len() as int] == cur);
    }
}

impl Akari {
    /// Every cell of row `r` from column `c1` through `c2` is white.
    pub open spec fn row_clear(&self, r: int, c1: int, c2: int) -> bool {
        forall|m: int| c1 <= m <= c2 ==> #[trigger] self.white_at(r, m)
    }

    /// Every cell of column `c` from row `r1` through `r2` is white.
    pub open spec fn col_clear(&self, c: int, r1: int, r2: int) -> bool {
        forall|m: int| r1 <= m <= r2 ==> #[trigger] self.white_at(m, c)
    }

    /// The variable of the lamp at `(r, c)`.
    pub open spec fn lamp_var(&self, r: int, c: int) -> int {
        index_of(self.lamp_props(self.cell_count()), Lamp { r: r as usize, c: c as usize })
    }

    /// Scanning row `r` through column `c`: the open run holds every cell from
    /// which the row is white up to `c`, and two cells with only white cells
    /// between them share a closed run or both sit in the open one.
    proof fn lemma_hscan_cover(&self, r: int, c: int)
        requires
            0 <= r < self.nrows(),
            0 <= c <= self.ncols(),
        ensures
            forall|k: int| 0 <= k < c && #[trigger] self.row_clear(r, k, c - 1) ==> self.hscan(r, c).1.contains((r as usize, k as usize)),
            forall|c1: int, c2: int|
                0 <= c1 < c2 < c && #[trigger] self.row_clear(r, c1, c2) ==> in_one_run(
                    self.hscan(r, c).0,
                    (r as usize, c1 as usize),
                    (r as usize, c2 as usize),
                ) || (self.hscan(r, c).1.contains((r as usize, c1 as usize)) && self.hscan(r, c).1.contains(
                    (r as usize, c2 as usize),
                )),
        decreases c,
    {
        if c > 0 {
            self.lemma_hscan_cover(r, c - 1);
            let (rs, cur) = self.hscan(r, c - 1);
            let (rs2, cur2) = self.hscan(r, c);
            let last = (r as usize, (c - 1) as usize);
            if self.white_at(r, c - 1) {
                assert(rs2 == rs && cur2 == cur.push(last));
                assert forall|k: int| 0 <= k < c && #[trigger] self.row_clear(r, k, c - 1) implies cur2.contains((r as usize, k as usize)) by {
                    if k == c - 1 {
                        assert(cur2[cur.len() as int] == last);
                    } else {
                        assert(self.row_clear(r, k, c - 2));
                        let i = choose|i: int| 0 <= i < cur.len() && cur[i] == (r as usize, k as usize);
                        assert(cur2[i] == cur[i]);
                    }
                }
                assert forall|c1: int, c2: int| 0 <= c1 < c2 < c && #[trigger] self.row_clear(r, c1, c2) implies in_one_run(
                    rs2,
                    (r as usize, c1 as usize),
                    (r as usize, c2 as usize),
                ) || (cur2.contains((r as usize, c1 as usize)) && cur2.contains((r as usize, c2 as usize))) by {
                    let p = (r as usize, c1 as usize);
                    let q = (r as usize, c2 as usize);
                    if c2 < c - 1 {
                        if cur.contains(p) && cur.contains(q) {
                            let i = choose|i: int| 0 <= i < cur.len() && cur[i] == p;
                            let k = choose|k: int| 0 <= k < cur.len() && cur[k] == q;
                            assert(cur2[i] == p);
                            assert(cur2[k] == q);
                        }
                    } else {
                        assert(self.row_clear(r, c1, c - 2));
                        assert(cur.contains(p));
                        let i = choose|i: int| 0 <= i < cur.len() && cur[i] == p;
                        assert(cur2[i] == p);
                        assert(cur2[cur.len() as int] == q);
                    }
                }
            } else {
                assert(rs2 == flush(rs, cur) && cur2 == Seq::<(usize, usize)>::empty());
                assert forall|k: int| 0 <= k < c && #[trigger] self.row_clear(r, k, c - 1) implies cur2.contains((r as usize, k as usize)) by {
                    assert(self.white_at(r, c - 1));
                }
                assert forall|c1: int, c2: int| 0 <= c1 < c2 < c && #[trigger] self.row_clear(r, c1, c2) implies in_one_run(
                    rs2,
                    (r as usize, c1 as usize),
                    (r as usize, c2 as usize),
                ) || (cur2.contains((r as usize, c1 as usize)) && cur2.contains((r as usize, c2 as usize))) by {
                    let p = (r as usize, c1 as usize);
                    let q = (r as usize, c2 as usize);
                    assert(self.white_at(r, c2));
                    assert(c2 < c - 1);
                    assert(c2 < self.ncols());
                    assert(p != q);
                    lemma_flush_keeps(rs, cur, p, q);
                }
            }
        }
    }

    /// Scanning column `c` through row `r`, as [`Akari::lemma_hscan_cover`].
    proof fn lemma_vscan_cover(&self, c: int, r: int)
        requires
            0 <= c < self.ncols(),
            0 <= r <= self.nrows(),
        ensures
            forall|k: int| 0 <= k < r && #[trigger] self.col_clear(c, k, r - 1) ==> self.vscan(c, r).1.contains((k as usize, c as usize)),
            forall|r1: int, r2: int|
                0 <= r1 < r2 < r && #[trigger] self.col_clear(c, r1, r2) ==> in_one_run(
                    self.vscan(c, r).0,
                    (r1 as usize, c as usize),
                    (r2 as usize, c as usize),
                ) || (self.vscan(c, r).1.contains((r1 as usize, c as usize)) && self.vscan(c, r).1.contains(
                    (r2 as usize, c as usize),
                )),
        decreases r,
    {
        if r > 0 {
            self.lemma_vscan_cover(c, r - 1);
            let (rs, cur) = self.vscan(c, r - 1);
            let (rs2, cur2) = self.vscan(c, r);
            let last = ((r - 1) as usize, c as usize);
            if self.white_at(r - 1, c) {
                assert(rs2 == rs && cur2 == cur.push(last));
                assert forall|k: int| 0 <= k < r && #[trigger] self.col_clear(c, k, r - 1) implies cur2.contains((k as usize, c as usize)) by {
                    if k == r - 1 {
                        assert(cur2[cur.len() as int] == last);
                    } else {
                        assert(self.col_clear(c, k, r - 2));
                        let i = choose|i: int| 0 <= i < cur.len() && cur[i] == (k as usize, c as usize);
                        assert(cur2[i] == cur[i]);
                    }
                }
                assert forall|r1: int, r2: int| 0 <= r1 < r2 < r && #[trigger] self.col_clear(c, r1, r2) implies in_one_run(
                    rs2,
                    (r1 as usize, c as usize),
                    (r2 as usize, c as usize),
                ) || (cur2.contains((r1 as usize, c as usize)) && cur2.contains((r2 as usize, c as usize))) by {
                    let p = (r1 as usize, c as usize);
                    let q = (r2 as usize, c as usize);
                    if r2 < r - 1 {
                        if cur.contains(p) && cur.contains(q) {
                            let i = choose|i: int| 0 <= i < cur.len() && cur[i] == p;
                            let k = choose|k: int| 0 <= k < cur.len() && cur[k] == q;
                            assert(cur2[i] == p);
                            assert(cur2[k] == q);
                        }
                    } else {
                        assert(self.col_clear(c, r1, r - 2));
                        assert(cur.contains(p));
                        let i = choose|i: int| 0 <= i < cur.len() && cur[i] == p;
                        assert(cur2[i] == p);
                        assert(cur2[cur.len() as int] == q);
                    }
                }
            } else {
                assert(rs2 == flush(rs, cur) && cur2 == Seq::<(usize, usize)>::empty());
                assert forall|k: int| 0 <= k < r && #[trigger] self.col_clear(c, k, r - 1) implies cur2.contains((k as usize, c as usize)) by {
                    assert(self.white_at(r - 1, c));
                }
                assert forall|r1: int, r2: int| 0 <= r1 < r2 < r && #[trigger] self.col_clear(c, r1, r2) implies in_one_run(
                    rs2,
                    (r1 as usize, c as usize),
                    (r2 as usize, c as usize),
                ) || (cur2.contains((r1 as usize, c as usize)) && cur2.contains((r2 as usize, c as usize))) by {
                    let p = (r1 as usize, c as usize);
                    let q = (r2 as usize, c as usize);
                    assert(self.white_at(r2, c));
                    assert(r2 < r - 1);
                    assert(r2 < self.nrows());
                    assert(p != q);
                    lemma_flush_keeps(rs, cur, p, q);
                }
            }
        }
    }

    /// Two cells of a row among the first `rr` rows with only white cells
    /// between them share one of those rows' runs.
    proof fn lemma_hruns_cover(&self, rr: int)
        requires
            0 <= rr <= self.nrows(),
        ensures
            forall|r: int, c1: int, c2: int|
                0 <= r < rr && 0 <= c1 < c2 < self.ncols() && #[trigger] self.row_clear(r, c1, c2) ==> in_one_run(
                    self.hruns(rr),
                    (r as usize, c1 as usize),
                    (r as usize, c2 as usize),
                ),
        decreases rr,
    {
        if rr > 0 {
            self.lemma_hruns_cover(rr - 1);
            self.lemma_hscan_cover(rr - 1, self.ncols() as int);
            let (rs, cur) = self.hscan(rr - 1, self.ncols() as int);
            assert(self.hruns(rr) == self.hruns(rr - 1) + flush(rs, cur));
            assert forall|r: int, c1: int, c2: int|
                0 <= r < rr && 0 <= c1 < c2 < self.ncols() && #[trigger] self.row_clear(r, c1, c2) implies in_one_run(
                    self.hruns(rr),
                    (r as usize, c1 as usize),
                    (r as usize, c2 as usize),
                ) by {
                let p = (r as usize, c1 as usize);
                let q = (r as usize, c2 as usize);
                if r < rr - 1 {
                    lemma_in_one_run_append(self.hruns(rr - 1), flush(rs, cur), p, q);
                } else {
                    assert(p != q);
                    lemma_flush_keeps(rs, cur, p, q);
                    lemma_in_one_run_append(flush(rs, cur), self.hruns(rr - 1), p, q);
                }
            }
        }
    }

    /// Two cells of a column among the first `cc` columns with only white cells
    /// between them share one of those columns' runs.
    proof fn lemma_vruns_cover(&self, cc: int)
        requires
            0 <= cc <= self.ncols(),
        ensures
            forall|c: int, r1: int, r2: int|
                0 <= c < cc && 0 <= r1 < r2 < self.nrows() && #[trigger] self.col_clear(c, r1, r2) ==> in_one_run(
                    self.vruns(cc),
                    (r1 as usize, c as usize),
                    (r2 as usize, c as usize),
                ),
        decreases cc,
    {
        if cc > 0 {
            self.lemma_vruns_cover(cc - 1);
            self.lemma_vscan_cover(cc - 1, self.nrows() as int);
            let (rs, cur) = self.vscan(cc - 1, self.nrows() as int);
            assert(self.vruns(cc) == self.vruns(cc - 1) + flush(rs, cur));
            assert forall|c: int, r1: int, r2: int|
                0 <= c < cc && 0 <= r1 < r2 < self.nrows() && #[trigger] self.col_clear(c, r1, r2) implies in_one_run(
                    self.vruns(cc),
                    (r1 as usize, c as usize),
                    (r2 as usize, c as usize),
                ) by {
                let p = (r1 as usize, c as usize);
                let q = (r2 as usize, c as usize);
                if c < cc - 1 {
                    lemma_in_one_run_append(self.vruns(cc - 1), flush(rs, cur), p, q);
                } else {
                    assert(p != q);
                    lemma_flush_keeps(rs, cur, p, q);
                    lemma_in_one_run_append(flush(rs, cur), self.vruns(cc - 1), p, q);
                }
            }
        }
    }

    /// Two different cells that share a run the rules cover never both hold a
    /// lamp under a placement the rules admit.
    proof fn lemma_run_pair_apart(&self, tau: spec_fn(int) -> bool, p: (usize, usize), q: (usize, usize))
        requires
            self.encodable(),
            self.squares().len() == self.cell_count(),
            admits(self.rules(), tau, self.lamp_props(self.cell_count()).len() as int),
            p != q,
            self.white_at(p.0 as int, p.1 as int),
            self.white_at(q.0 as int, q.1 as int),
            in_one_run(self.runs_spec(), p, q),
        ensures
            !(tau(self.lamp_var(p.0 as int, p.1 as int)) && tau(self.lamp_var(q.0 as int, q.1 as int))),
    {
        self.lemma_rules_mean(tau);
        let rs = self.runs_spec();
        let j = choose|j: int| #![trigger rs[j]] 0 <= j < rs.len() && rs[j].contains(p) && rs[j].contains(q);
        let run = rs[j];
        assert(self.runs_single(tau, rs.len() as int));
        let lits = self.lamp_lits(run);
        assert(at_most_one_true(tau, lits));
        let i1 = choose|i: int| 0 <= i < run.len() && run[i] == p;
        let i2 = choose|i: int| 0 <= i < run.len() && run[i] == q;
        assert(i1 != i2);
        let props = self.lamp_props(self.cell_count());
        self.lemma_lamp_props(self.cell_count());
        let kp = self.lamp_var(p.0 as int, p.1 as int);
        let kq = self.lamp_var(q.0 as int, q.1 as int);
        lemma_index_inside(p.0 as int, p.1 as int, self.nrows() as int, self.ncols() as int);
        lemma_row_major(p.0 as int, p.1 as int, self.ncols() as int);
        lemma_index_inside(q.0 as int, q.1 as int, self.nrows() as int, self.ncols() as int);
        lemma_row_major(q.0 as int, q.1 as int, self.ncols() as int);
        let jp = p.0 * self.ncols() + p.1;
        let jq = q.0 * self.ncols() + q.1;
        assert(self.at(jp) == p);
        assert(self.at(jq) == q);
        assert(props.contains(Lamp { r: self.at(jp).0, c: self.at(jp).1 }));
        assert(props.contains(Lamp { r: self.at(jq).0, c: self.at(jq).1 }));
        assert(0 <= kp < props.len());
        assert(0 <= kq < props.len());
        assert(lits[i1] == value_lit(kp, true));
        assert(lits[i2] == value_lit(kq, true));
        self.lemma_wall_aux_grow(0, self.cell_count());
        assert(props.len() <= MAX_VAR_IDX + 1);
        assert(var_at(kp).index() == kp);
        assert(var_at(kq).index() == kq);
        if i1 < i2 {
            assert(!(lit_holds(tau, lits[i1]) && lit_holds(tau, lits[i2])));
        } else {
            assert(!(lit_holds(tau, lits[i2]) && lit_holds(tau, lits[i1])));
        }
    }

    /// Lamps never see each other along a row: under any lamp placement the
    /// rules admit (the numbered walls' counter registers left free), two
    /// different white cells of one row with only white cells between them do
    /// not both hold a lamp.
    pub proof fn lemma_row_lamps_apart(&self, tau: spec_fn(int) -> bool, r: int, c1: int, c2: int)
        requires
            self.encodable(),
            self.squares().len() == self.cell_count(),
            admits(self.rules(), tau, self.lamp_props(self.cell_count()).len() as int),
            0 <= c1 < c2,
            self.row_clear(r, c1, c2),
        ensures
            !(tau(self.lamp_var(r, c1)) && tau(self.lamp_var(r, c2))),
    {
        assert(self.white_at(r, c1));
        assert(self.white_at(r, c2));
        self.lemma_hruns_cover(self.nrows() as int);
        let p = (r as usize, c1 as usize);
        let q = (r as usize, c2 as usize);
        assert(in_one_run(self.hruns(self.nrows() as int), p, q));
        lemma_in_one_run_append(self.hruns(self.nrows() as int), self.vruns(self.ncols() as int), p, q);
        assert(p != q);
        self.lemma_run_pair_apart(tau, p, q);
    }

    /// Lamps never see each other along a column: under any lamp placement the
    /// rules admit, two different white cells of one column with only white
    /// cells between them do not both hold a lamp.
    pub proof fn lemma_col_lamps_apart(&self, tau: spec_fn(int) -> bool, c: int, r1: int, r2: int)
        requires
            self.encodable(),
            self.squares().len() == self.cell_count(),
            admits(self.rules(), tau, self.lamp_props(self.cell_count()).len() as int),
            0 <= r1 < r2,
            self.col_clear(c, r1, r2),
        ensures
            !(tau(self.lamp_var(r1, c)) && tau(self.lamp_var(r2, c))),
    {
        assert(self.white_at(r1, c));
        assert(self.white_at(r2, c));
        self.lemma_vruns_cover(self.ncols() as int);
        let p = (r1 as usize, c as usize);
        let q = (r2 as usize, c as usize);
        assert(in_one_run(self.vruns(self.ncols() as int), p, q));
        lemma_in_one_run_append(self.vruns(self.ncols() as int), self.hruns(self.nrows() as int), p, q);
        assert(p != q);
        self.lemma_run_pair_apart(tau, p, q);
    }
}

/// The cells of row `r` from column `s` up to (not including) `e`.
pub open spec fn row_seg(r: int, s: int, e: int) -> Seq<(usize, usize)> {
    Seq::new((e - s) as nat, |t: int| (r as usize, (s + t) as usize))
}

/// The cells of column `c` from row `s` up to (not including) `e`.
pub open spec fn col_seg(c: int, s: int, e: int) -> Seq<(usize, usize)> {
    Seq::new((e - s) as nat, |t: int| ((s + t) as usize, c as usize))
}

impl Akari {
    /// `run` is a stretch of white cells of one row, or of one column, in order.
    pub open spec fn is_line(&self, run: Seq<(usize, usize)>) -> bool {
        ||| exists|r: int, s: int, e: int|
            0 <= r < self.nrows() && 0 <= s <= e <= self.ncols() && run == #[trigger] row_seg(r, s, e) && self.row_clear(r, s, e - 1)
        ||| exists|c: int, s: int, e: int|
            0 <= c < self.ncols() && 0 <= s <= e <= self.nrows() && run == #[trigger] col_seg(c, s, e) && self.col_clear(c, s, e - 1)
    }

    /// Every run of `rs` is a line.
    pub open spec fn all_lines(&self, rs: Seq<Seq<(usize, usize)>>) -> bool {
        forall|j: int| 0 <= j < rs.len() ==> self.is_line(#[trigger] rs[j])
    }

    proof fn lemma_all_lines_append(&self, x: Seq<Seq<(usize, usize)>>, y: Seq<Seq<(usize, usize)>>)
        requires
            self.all_lines(x),
            self.all_lines(y),
        ensures
            self.all_lines(x + y),
    {
        assert forall|j: int| 0 <= j < (x + y).len() implies self.is_line(#[trigger] (x + y)[j]) by {
            if j < x.len() {
                assert((x + y)[j] == x[j]);
            } else {
                assert((x + y)[j] == y[j - x.len()]);
            }
        }
    }

    proof fn lemma_all_lines_flush(&self, rs: Seq<Seq<(usize, usize)>>, cur: Seq<(usize, usize)>)
        requires
            self.all_lines(rs),
            self.is_line(cur),
        ensures
            self.all_lines(flush(rs, cur)),
    {
        if cur.len() > 1 {
            assert forall|j: int| 0 <= j < rs.push(cur).len() implies self.is_line(#[trigger] rs.push(cur)[j]) by {
                if j < rs.len() {
                    assert(rs.push(cur)[j] == rs[j]);
                }
            }
        }
    }

    /// Scanning row `r` through column `c`, the open run is the white stretch
    /// ending at `c`, and every closed run is a line.
    proof fn lemma_hscan_lines(&self, r: int, c: int)
        requires
            0 <= r < self.nrows(),
            0 <= c <= self.ncols(),
        ensures
            exists|s: int| 0 <= s <= c && self.hscan(r, c).1 == #[trigger] row_seg(r, s, c) && self.row_clear(r, s, c - 1),
            self.all_lines(self.hscan(r, c).0),
        decreases c,
    {
        if c == 0 {
            assert(self.hscan(r, 0).1 =~= row_seg(r, 0, 0));
        } else {
            self.lemma_hscan_lines(r, c - 1);
            let (rs, cur) = self.hscan(r, c - 1);
            let s = choose|s: int| 0 <= s <= c - 1 && cur == #[trigger] row_seg(r, s, c - 1) && self.row_clear(r, s, c - 2);
            if self.white_at(r, c - 1) {
                assert(self.hscan(r, c).1 =~= row_seg(r, s, c));
                assert(self.row_clear(r, s, c - 1));
            } else {
                assert(self.hscan(r, c).1 =~= row_seg(r, c, c));
                assert(self.is_line(cur));
                self.lemma_all_lines_flush(rs, cur);
            }
        }
    }

    /// Scanning column `c` through row `r`, as [`Akari::lemma_hscan_lines`].
    proof fn lemma_vscan_lines(&self, c: int, r: int)
        requires
            0 <= c < self.ncols(),
            0 <= r <= self.nrows(),
        ensures
            exists|s: int| 0 <= s <= r && self.vscan(c, r).1 == #[trigger] col_seg(c, s, r) && self.col_clear(c, s, r - 1),
            self.all_lines(self.vscan(c, r).0),
        decreases r,
    {
        if r == 0 {
            assert(self.vscan(c, 0).1 =~= col_seg(c, 0, 0));
        } else {
            self.lemma_vscan_lines(c, r - 1);
            let (rs, cur) = self.vscan(c, r - 1);
            let s = choose|s: int| 0 <= s <= r - 1 && cur == #[trigger] col_seg(c, s, r - 1) && self.col_clear(c, s, r - 2);
            if self.white_at(r - 1, c) {
                assert(self.vscan(c, r).1 =~= col_seg(c, s, r));
                assert(self.col_clear(c, s, r - 1));
            } else {
                assert(self.vscan(c, r).1 =~= col_seg(c, r, r));
                assert(self.is_line(cur));
                self.lemma_all_lines_flush(rs, cur);
            }
        }
    }

    proof fn lemma_hruns_lines(&self, rr: int)
        requires
            0 <= rr <= self.nrows(),
        ensures
            self.all_lines(self.hruns(rr)),
        decreases rr,
    {
        if rr > 0 {
            self.lemma_hruns_lines(rr - 1);
            self.lemma_hscan_lines(rr - 1, self.ncols() as int);
            let (rs, cur) = self.hscan(rr - 1, self.ncols() as int);
            assert(self.is_line(cur));
            self.lemma_all_lines_flush(rs, cur);
            self.lemma_all_lines_append(self.hruns(rr - 1), flush(rs, cur));
        }
    }

    proof fn lemma_vruns_lines(&self, cc: int)
        requires
            0 <= cc <= self.ncols(),
        ensures
            self.all_lines(self.vruns(cc)),
        decreases cc,
    {
        if cc > 0 {
            self.lemma_vruns_lines(cc - 1);
            self.lemma_vscan_lines(cc - 1, self.nrows() as int);
            let (rs, cur) = self.vscan(cc - 1, self.nrows() as int);
            assert(self.is_line(cur));
            self.lemma_all_lines_flush(rs, cur);
            self.lemma_all_lines_append(self.vruns(cc - 1), flush(rs, cur));
        }
    }

    /// The literal of the lamp at `(p.0, p.1)` holds under `tau` exactly when
    /// its variable does.
    proof fn lemma_lamp_lit_holds(&self, tau: spec_fn(int) -> bool, p: (usize, usize))
        requires
            self.encodable(),
            self.squares().len() == self.cell_count(),
            self.white_at(p.0 as int, p.1 as int),
        ensures
            self.lamp_lits(seq![p])[0] == value_lit(self.lamp_var(p.0 as int, p.1 as int), true),
            lit_holds(tau, value_lit(self.lamp_var(p.0 as int, p.1 as int), true)) == tau(self.lamp_var(p.0 as int, p.1 as int)),
    {
        let props = self.lamp_props(self.cell_count());
        self.lemma_lamp_props(self.cell_count());
        self.lemma_wall_aux_grow(0, self.cell_count());
        lemma_index_inside(p.0 as int, p.1 as int, self.nrows() as int, self.ncols() as int);
        lemma_row_major(p.0 as int, p.1 as int, self.ncols() as int);
        let jp = p.0 * self.ncols() + p.1;
        assert(self.at(jp) == p);
        assert(props.contains(Lamp { r: self.at(jp).0, c: self.at(jp).1 }));
        let kp = self.lamp_var(p.0 as int, p.1 as int);
        assert(0 <= kp < props.len());
        assert(var_at(kp).index() == kp);
    }

    /// The rules admit every lamp placement in which no two lamps see each
    /// other along a row or column, the cross of every white cell holds a
    /// lamp, and every numbered wall has exactly its number of lamps among its
    /// white neighbors.
    pub proof fn lemma_apart_lamps_admitted(&self, tau: spec_fn(int) -> bool)
        requires
            self.encodable(),
            self.squares().len() == self.cell_count(),
            forall|r: int, c1: int, c2: int|
                0 <= c1 < c2 && #[trigger] self.row_clear(r, c1, c2) ==> !(tau(self.lamp_var(r, c1)) && tau(self.lamp_var(r, c2))),
            forall|c: int, r1: int, r2: int|
                0 <= r1 < r2 && #[trigger] self.col_clear(c, r1, r2) ==> !(tau(self.lamp_var(r1, c)) && tau(self.lamp_var(r2, c))),
            self.crosses_lit(tau, self.cell_count()),
            self.walls_counted(tau, self.cell_count()),
        ensures
            admits(self.rules(), tau, self.lamp_props(self.cell_count()).len() as int),
    {
        let rs = self.runs_spec();
        self.lemma_hruns_lines(self.nrows() as int);
        self.lemma_vruns_lines(self.ncols() as int);
        self.lemma_all_lines_append(self.hruns(self.nrows() as int), self.vruns(self.ncols() as int));
        assert forall|j: int| 0 <= j < rs.len() implies at_most_one_true(tau, #[trigger] self.lamp_lits(rs[j])) by {
            let run = rs[j];
            let lits = self.lamp_lits(run);
            assert(self.is_line(run));
            assert forall|i: int, k: int| 0 <= i < k < lits.len() implies !(lit_holds(tau, #[trigger] lits[i]) && lit_holds(
                tau,
                #[trigger] lits[k],
            )) by {
                if exists|r: int, s: int, e: int|
                    0 <= r < self.nrows() && 0 <= s <= e <= self.ncols() && run == #[trigger] row_seg(r, s, e) && self.row_clear(r, s, e - 1) {
                    let (r, s, e) = choose|r: int, s: int, e: int|
                        0 <= r < self.nrows() && 0 <= s <= e <= self.ncols() && run == #[trigger] row_seg(r, s, e) && self.row_clear(r, s, e - 1);
                    let p = run[i];
                    let q = run[k];
                    assert(p == (r as usize, (s + i) as usize));
                    assert(q == (r as usize, (s + k) as usize));
                    assert(self.row_clear(r, s + i, s + k));
                    assert(self.white_at(r, s + i));
                    assert(self.white_at(r, s + k));
                    self.lemma_lamp_lit_holds(tau, p);
                    self.lemma_lamp_lit_holds(tau, q);
                    assert(lits[i] == self.lamp_lits(seq![p])[0]);
                    assert(lits[k] == self.lamp_lits(seq![q])[0]);
                } else {
                    let (c, s, e) = choose|c: int, s: int, e: int|
                        0 <= c < self.ncols() && 0 <= s <= e <= self.nrows() && run == #[trigger] col_seg(c, s, e) && self.col_clear(c, s, e - 1);
                    let p = run[i];
                    let q = run[k];
                    assert(p == ((s + i) as usize, c as usize));
                    assert(q == ((s + k) as usize, c as usize));
                    assert(self.col_clear(c, s + i, s + k));
                    assert(self.white_at(s + i, c));
                    assert(self.white_at(s + k, c));
                    self.lemma_lamp_lit_holds(tau, p);
                    self.lemma_lamp_lit_holds(tau, q);
                    assert(lits[i] == self.lamp_lits(seq![p])[0]);
                    assert(lits[k] == self.lamp_lits(seq![q])[0]);
                }
            }
        }
        assert(self.runs_single(tau, rs.len() as int));
        self.lemma_rules_mean(tau);
    }
}

} // verus!
