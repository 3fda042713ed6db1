//! Sudoku: the primary puzzle.
//!
//! Its reduction is nothing but exactly-one constraints, and unit propagation
//! corresponds to human naked and hidden singles.
//!
//! Encoding (729 variables, `Cell { r, c, v }` at index `81 r + 9 c + v - 1`):
//!
//! - exactly one value per cell,
//! - each value exactly once per row, column, and 3×3 box.
//!
//! Givens are assumptions, not clauses, so editing never touches the CNF.

use vstd::prelude::*;

use crate::backbone::mentions;
use crate::cnf::{
    lemma_index_injective, lemma_index_nonneg, lemma_var_at, lemma_var_at_index, lits_below, Cnf, Lit, Var,
    MAX_VAR_IDX,
};
use crate::cnf::cnf_holds;
use crate::encodings::{
    at_most_one_pairwise_clauses, at_most_one_true, exactly_one_pairwise, lemma_cnf_holds_append,
    lemma_exactly_one_pairwise_means, some_true,
};
use crate::propagate::value_lit;
use crate::propagate::bcp_consistent;
use crate::puzzle::{
    copy_vec, deduce, deductions_spec, facts_of, lemma_index_inside, lemma_mentions_prefix, lemma_row_major,
    Deductions, Grid, Puzzle,
};
use crate::registry::{distinct, index_of, Proposition, Registry};
use crate::text::push_char;
use crate::view::SolverView;

verus! {

broadcast use lemma_var_at, lemma_var_at_index, lemma_index_injective, lemma_index_nonneg;

/// A Sudoku proposition: "cell `(r, c)` holds value `v`". `r`, `c` are `0..9`;
/// `v` is `1..=9`.
#[derive(Debug, Clone, Copy, PartialEq, Eq, Hash)]
pub struct Cell {
    pub r: usize,
    pub c: usize,
    pub v: u8,
}

impl View for Cell {
    type V = Cell;

    open spec fn view(&self) -> Cell {
        *self
    }
}

impl Proposition for Cell {
    fn same(&self, other: &Self) -> (b: bool) {
        self.r == other.r && self.c == other.c && self.v == other.v
    }

    fn duplicate(&self) -> (c: Self) {
        *self
    }
}

/// Per-cell display state produced by [`Sudoku::project`].
#[derive(Debug, Clone, Copy, PartialEq, Eq)]
pub struct SudokuCell {
    /// The value determined for this cell, if any.
    pub value: Option<u8>,
    /// Whether this cell is a user-supplied given.
    pub given: bool,
}

/// A Sudoku instance: just its givens. The rules are universal and live in
/// [`encode_rules`](Sudoku::encode_rules).
#[derive(Debug)]
pub struct Sudoku {
    /// Row-major: `givens[9 r + c] == Some(v)` marks a clue; `None` is blank.
    givens: Vec<Option<u8>>,
}

/// The variable index of `Cell { r, c, v }`.
pub open spec fn cell_index(r: int, c: int, v: int) -> int {
    81 * r + 9 * c + v - 1
}

/// The proposition of variable `i`.
pub open spec fn cell_at(i: int) -> Cell {
    Cell { r: (i / 81) as usize, c: ((i / 9) % 9) as usize, v: (i % 9 + 1) as u8 }
}

/// The first `m` propositions, in cell-major order.
pub open spec fn sudoku_props(m: int) -> Seq<Cell> {
    Seq::new(m as nat, |i: int| cell_at(i))
}

/// The `j`-th cell `(r, c, v)` of constraint group `g`: groups `0..81` are the
/// cells, `81..162` the (row, value) pairs, `162..243` the (column, value) pairs
/// and `243..324` the (box, value) pairs, each listing its nine members in order.
pub open spec fn group_cell(g: int, j: int) -> (int, int, int) {
    if g < 81 {
        (g / 9, g % 9, j + 1)
    } else if g < 162 {
        ((g - 81) / 9, j, (g - 81) % 9 + 1)
    } else if g < 243 {
        (j, (g - 162) / 9, (g - 162) % 9 + 1)
    } else {
        let b = (g - 243) / 9;
        ((b / 3) * 3 + j / 3, (b % 3) * 3 + j % 3, (g - 243) % 9 + 1)
    }
}

/// The positive literals of group `g`'s nine members.
pub open spec fn group_lits(g: int) -> Seq<Lit> {
    Seq::new(
        9,
        |j: int| value_lit(cell_index(group_cell(g, j).0, group_cell(g, j).1, group_cell(g, j).2), true),
    )
}

/// Exactly one member of each of the first `g` groups.
pub open spec fn sudoku_rules(g: int) -> Seq<Seq<Lit>>
    decreases g,
{
    if g <= 0 {
        Seq::empty()
    } else {
        sudoku_rules(g - 1) + (seq![group_lits(g - 1)] + at_most_one_pairwise_clauses(group_lits(g - 1)))
    }
}

/// The givens of the first `i` cells over the registered `props`, as positive
/// literals: each clue whose proposition is registered.
pub open spec fn clue_lits(props: Seq<Cell>, board: Seq<Option<u8>>, i: int) -> Seq<Lit>
    decreases i,
{
    if i <= 0 {
        Seq::empty()
    } else {
        let prev = clue_lits(props, board, i - 1);
        match board[i - 1] {
            Some(v) => {
                let cell = Cell { r: ((i - 1) / 9) as usize, c: ((i - 1) % 9) as usize, v };
                if props.contains(cell) {
                    prev.push(value_lit(index_of(props, cell), true))
                } else {
                    prev
                }
            },
            None => prev,
        }
    }
}

/// The largest value `1..=v` that `value` makes true at `(r, c)`.
pub open spec fn last_true(value: spec_fn(Cell) -> Option<bool>, r: int, c: int, v: int) -> Option<u8>
    decreases v,
{
    if v <= 0 {
        None
    } else if value(Cell { r: r as usize, c: c as usize, v: v as u8 }) == Some(true) {
        Some(v as u8)
    } else {
        last_true(value, r, c, v - 1)
    }
}

/// The board after painting the positive facts of `facts` over `board`, in
/// order.
pub open spec fn painted(board: Seq<Option<u8>>, facts: Seq<(Cell, bool)>) -> Seq<Option<u8>>
    decreases facts.len(),
{
    if facts.len() == 0 {
        board
    } else {
        let prev = painted(board, facts.drop_last());
        let (cell, holds) = facts.last();
        if holds && cell.r < 9 && cell.c < 9 {
            prev.update(9 * cell.r + cell.c, Some(cell.v))
        } else {
            prev
        }
    }
}

/// Painting keeps the board's size.
pub proof fn lemma_painted_len(board: Seq<Option<u8>>, facts: Seq<(Cell, bool)>)
    requires
        board.len() == 81,
    ensures
        painted(board, facts).len() == 81,
    decreases facts.len(),
{
    if facts.len() > 0 {
        lemma_painted_len(board, facts.drop_last());
    }
}

/// The number of clues on `board`'s first `i` cells.
pub open spec fn clue_count(board: Seq<Option<u8>>, i: int) -> nat
    decreases i,
{
    if i <= 0 {
        0
    } else {
        clue_count(board, i - 1) + if board[i - 1] is Some {
            1nat
        } else {
            0nat
        }
    }
}

proof fn lemma_clue_count_le(board: Seq<Option<u8>>, i: int)
    requires
        0 <= i,
    ensures
        clue_count(board, i) <= i,
    decreases i,
{
    if i > 0 {
        lemma_clue_count_le(board, i - 1);
    }
}

/// Exactly one member of each of the first `g` groups is true under `tau`.
pub open spec fn groups_exactly_one(tau: spec_fn(int) -> bool, g: int) -> bool {
    forall|h: int|
        0 <= h < g ==> some_true(tau, #[trigger] group_lits(h)) && at_most_one_true(tau, group_lits(h))
}

/// The reduction is faithful: a total assignment satisfies the first `g` groups'
/// rules exactly when exactly one member of each of them is true.
pub proof fn lemma_sudoku_rules_upto_mean(tau: spec_fn(int) -> bool, g: int)
    requires
        0 <= g,
    ensures
        cnf_holds(tau, sudoku_rules(g)) == groups_exactly_one(tau, g),
    decreases g,
{
    if g > 0 {
        lemma_sudoku_rules_upto_mean(tau, g - 1);
        let lits = group_lits(g - 1);
        lemma_cnf_holds_append(tau, sudoku_rules(g - 1), seq![lits] + at_most_one_pairwise_clauses(lits));
        lemma_exactly_one_pairwise_means(tau, lits);
    }
}

/// The Sudoku rules mean what they say: a total assignment satisfies them
/// exactly when every cell holds exactly one value and every value occurs
/// exactly once in each row, column and box.
pub proof fn lemma_sudoku_rules_mean(tau: spec_fn(int) -> bool)
    ensures
        cnf_holds(tau, sudoku_rules(324)) == groups_exactly_one(tau, 324),
{
    lemma_sudoku_rules_upto_mean(tau, 324);
}

/// `cell_at` inverts `cell_index`.
pub proof fn lemma_cell_at(r: int, c: int, v: int)
    requires
        0 <= r < 9,
        0 <= c < 9,
        1 <= v <= 9,
    ensures
        0 <= cell_index(r, c, v) < 729,
        cell_at(cell_index(r, c, v)) == (Cell { r: r as usize, c: c as usize, v: v as u8 }),
{
    let i = cell_index(r, c, v);
    vstd::arithmetic::div_mod::lemma_fundamental_div_mod_converse(i, 81, r, 9 * c + v - 1);
    vstd::arithmetic::div_mod::lemma_fundamental_div_mod_converse(i, 9, 9 * r + c, v - 1);
    vstd::arithmetic::div_mod::lemma_fundamental_div_mod_converse(9 * r + c, 9, r, c);
}

/// `cell_at` is injective on `0..729`.
pub proof fn lemma_cell_at_injective(i: int, r: int, c: int, v: int)
    requires
        0 <= i < 729,
        0 <= r < 9,
        0 <= c < 9,
        1 <= v <= 9,
        cell_at(i) == (Cell { r: r as usize, c: c as usize, v: v as u8 }),
    ensures
        i == cell_index(r, c, v),
{
    let q = i / 9;
    vstd::arithmetic::div_mod::lemma_fundamental_div_mod(i, 9);
    vstd::arithmetic::div_mod::lemma_fundamental_div_mod(q, 9);
    vstd::arithmetic::div_mod::lemma_div_denominator(i, 9, 9);
    vstd::arithmetic::div_mod::lemma_mod_bound(i, 9);
    vstd::arithmetic::div_mod::lemma_mod_bound(q, 9);
    vstd::arithmetic::div_mod::lemma_div_pos_is_pos(i, 81);
    assert(i / 81 < 9) by {
        vstd::arithmetic::div_mod::lemma_div_is_ordered(i, 728, 81);
    }
    assert(q / 9 == i / 81);
    assert((i / 81) as usize as int == i / 81);
    assert((q % 9) as usize as int == q % 9);
    assert((i % 9 + 1) as u8 as int == i % 9 + 1);
    assert(i / 81 == r);
    assert(q % 9 == c);
    assert(i % 9 + 1 == v);
    assert(i == 81 * r + 9 * c + v - 1) by (nonlinear_arith)
        requires
            i == 9 * q + i % 9,
            q == 9 * (q / 9) + q % 9,
            q / 9 == r,
            q % 9 == c,
            i % 9 + 1 == v,
    ;
}

/// Whether `ch` is whitespace: the characters std's `char::is_whitespace`
/// accepts (Unicode `White_Space`).
pub open spec fn is_space(ch: char) -> bool {
    let x = ch as u32;
    (0x09 <= x <= 0x0D) || x == 0x20 || x == 0x85 || x == 0xA0 || x == 0x1680 || (0x2000 <= x <= 0x200A) || x == 0x2028
        || x == 0x2029 || x == 0x202F || x == 0x205F || x == 0x3000
}

/// Whether `ch` is whitespace.
pub fn is_space_char(ch: char) -> (b: bool)
    ensures
        b == is_space(ch),
{
    let x = ch as u32;
    (0x09 <= x && x <= 0x0D) || x == 0x20 || x == 0x85 || x == 0xA0 || x == 0x1680 || (0x2000 <= x && x <= 0x200A)
        || x == 0x2028 || x == 0x2029 || x == 0x202F || x == 0x205F || x == 0x3000
}

/// The characters of `s` that are not whitespace: the board's cells.
pub open spec fn board_chars(s: Seq<char>) -> Seq<char> {
    s.filter(|ch: char| !is_space(ch))
}

/// A recognized cell character: `.` or a digit.
pub open spec fn cell_ok(ch: char) -> bool {
    ch == '.' || ('0' as u32 <= ch as u32 <= '9' as u32)
}

/// The clue a cell character stands for: `1`–`9` a given, anything else blank.
pub open spec fn cell_value(ch: char) -> Option<u8> {
    if '1' as u32 <= ch as u32 <= '9' as u32 {
        Some((ch as u32 - '0' as u32) as u8)
    } else {
        None
    }
}

/// A board from row-major digits: `0` is blank.
pub open spec fn digit_board(d: Seq<u8>) -> Seq<Option<u8>> {
    d.map_values(|x: u8| if x == 0 { None } else { Some(x) })
}

/// The Wikipedia example, row-major, `0` for blank.
pub open spec fn easy_digits() -> Seq<u8> {
    seq![
        5, 3, 0, 0, 7, 0, 0, 0, 0,
        6, 0, 0, 1, 9, 5, 0, 0, 0,
        0, 9, 8, 0, 0, 0, 0, 6, 0,
        8, 0, 0, 0, 6, 0, 0, 0, 3,
        4, 0, 0, 8, 0, 3, 0, 0, 1,
        7, 0, 0, 0, 2, 0, 0, 0, 6,
        0, 6, 0, 0, 0, 0, 2, 8, 0,
        0, 0, 0, 4, 1, 9, 0, 0, 5,
        0, 0, 0, 0, 8, 0, 0, 7, 9,
    ]
}

/// "AI Escargot", row-major, `0` for blank.
pub open spec fn hard_digits() -> Seq<u8> {
    seq![
        1, 0, 0, 0, 0, 7, 0, 9, 0,
        0, 3, 0, 0, 2, 0, 0, 0, 8,
        0, 0, 9, 6, 0, 0, 5, 0, 0,
        0, 0, 5, 3, 0, 0, 9, 0, 0,
        0, 1, 0, 0, 8, 0, 0, 0, 2,
        6, 0, 0, 0, 0, 4, 0, 0, 0,
        3, 0, 0, 0, 0, 0, 0, 1, 0,
        0, 4, 0, 0, 0, 0, 0, 0, 7,
        0, 0, 7, 0, 0, 0, 3, 0, 0,
    ]
}

/// Splitting a sequence splits its filter.
proof fn lemma_filter_split(s: Seq<char>, i: int)
    requires
        0 <= i <= s.len(),
    ensures
        board_chars(s) == board_chars(s.subrange(0, i)) + board_chars(s.subrange(i, s.len() as int)),
{
    assert(s =~= s.subrange(0, i) + s.subrange(i, s.len() as int));
    Seq::filter_distributes_over_add(s.subrange(0, i), s.subrange(i, s.len() as int), |ch: char| !is_space(ch));
}

impl Sudoku {
    /// Exactly 81 cells.
    #[verifier::type_invariant]
    closed spec fn wf(self) -> bool {
        self.givens@.len() == 81
    }

    /// The givens in row-major order: `Some(v)` is a clue, `None` a blank.
    pub closed spec fn board(&self) -> Seq<Option<u8>> {
        self.givens@
    }

    /// The board always has 81 cells.
    pub fn lemma_wf(&self)
        ensures
            self.board().len() == 81,
    {
        proof {
            use_type_invariant(self);
        }
    }

    /// An empty board (no givens).
    pub fn empty() -> (s: Self)
        ensures
            s.board() == Seq::new(81, |i: int| None::<u8>),
    {
        let mut givens: Vec<Option<u8>> = Vec::new();
        let mut i: usize = 0;
        while i < 81
            invariant
                i <= 81,
                givens@ == Seq::new(i as nat, |k: int| None::<u8>),
            decreases 81 - i,
        {
            givens.push(None);
            i = i + 1;
            assert(givens@ =~= Seq::new(i as nat, |k: int| None::<u8>));
        }
        Sudoku { givens }
    }

    /// Parse an 81-cell board from text: digits `1`–`9` are givens, `.` or `0`
    /// are blanks, and whitespace is ignored. `None` unless exactly 81 cells are
    /// present and every other character is recognized.
    pub fn from_ascii(s: &str) -> (r: Option<Self>)
        ensures
            r is Some <==> (board_chars(s@).len() == 81 && forall|i: int| 0 <= i < 81 ==> cell_ok(#[trigger] board_chars(s@)[i])),
            r matches Some(b) ==> b.board() == board_chars(s@).map_values(|ch: char| cell_value(ch)),
    {
        let mut givens: Vec<Option<u8>> = Vec::new();
        let mut k: usize = 0;
        while k < 81
            invariant
                k <= 81,
                givens@ == Seq::new(k as nat, |j: int| None::<u8>),
            decreases 81 - k,
        {
            givens.push(None);
            k = k + 1;
            assert(givens@ =~= Seq::new(k as nat, |j: int| None::<u8>));
        }
        let n = s.unicode_len();
        let mut idx: usize = 0;
        let mut i: usize = 0;
        while i < n
            invariant
                n == s@.len(),
                i <= n,
                idx <= 81,
                idx == board_chars(s@.subrange(0, i as int)).len(),
                forall|j: int| 0 <= j < idx ==> cell_ok(#[trigger] board_chars(s@.subrange(0, i as int))[j]),
                givens@.len() == 81,
                forall|j: int| 0 <= j < idx ==> #[trigger] givens@[j] == cell_value(board_chars(s@.subrange(0, i as int))[j]),
                forall|j: int| idx <= j < 81 ==> #[trigger] givens@[j] is None,
            decreases n - i,
        {
            let ch = s.get_char(i);
            let ghost fc = board_chars(s@.subrange(0, i as int));
            assert(s@.subrange(0, i + 1).drop_last() =~= s@.subrange(0, i as int));
            assert(s@.subrange(0, i + 1).last() == ch);
            proof {
                reveal(Seq::filter);
            }
            assert(board_chars(s@.subrange(0, i + 1)) == if !is_space(ch) { fc.push(ch) } else { fc });
            if is_space_char(ch) {
                assert(board_chars(s@.subrange(0, i + 1)) == fc);
            } else {
                assert(board_chars(s@.subrange(0, i + 1)) == fc.push(ch));
                if idx >= 81 {
                    proof {
                        lemma_filter_split(s@, i + 1);
                    }
                    return None;
                }
                let x = ch as u32;
                if ch == '.' || ch == '0' {
                } else if 0x31 <= x && x <= 0x39 {
                    givens.set(idx, Some((x - 0x30) as u8));
                } else {
                    proof {
                        lemma_filter_split(s@, i + 1);
                        assert(board_chars(s@)[idx as int] == ch);
                    }
                    return None;
                }
                idx = idx + 1;
            }
            i = i + 1;
        }
        assert(s@.subrange(0, i as int) =~= s@);
        if idx == 81 {
            let b = Sudoku { givens };
            assert(b.board() =~= board_chars(s@).map_values(|ch: char| cell_value(ch)));
            Some(b)
        } else {
            None
        }
    }

    /// A board from row-major digits, `0` for blank.
    fn from_digits(d: &[u8; 81]) -> (s: Self)
        ensures
            s.board() == digit_board(d@),
    {
        let mut givens: Vec<Option<u8>> = Vec::new();
        let mut i: usize = 0;
        while i < 81
            invariant
                i <= 81,
                d@.len() == 81,
                givens@ == digit_board(d@).subrange(0, i as int),
            decreases 81 - i,
        {
            let x = d[i];
            if x == 0 {
                givens.push(None);
            } else {
                givens.push(Some(x));
            }
            i = i + 1;
            assert(givens@ =~= digit_board(d@).subrange(0, i as int));
        }
        assert(givens@ =~= digit_board(d@));
        Sudoku { givens }
    }

    /// A well-known Sudoku with a unique solution (the Wikipedia example).
    pub fn easy_sample() -> (s: Self)
        ensures
            s.board() == digit_board(easy_digits()),
    {
        let d: [u8; 81] = [
            5, 3, 0, 0, 7, 0, 0, 0, 0,
            6, 0, 0, 1, 9, 5, 0, 0, 0,
            0, 9, 8, 0, 0, 0, 0, 6, 0,
            8, 0, 0, 0, 6, 0, 0, 0, 3,
            4, 0, 0, 8, 0, 3, 0, 0, 1,
            7, 0, 0, 0, 2, 0, 0, 0, 6,
            0, 6, 0, 0, 0, 0, 2, 8, 0,
            0, 0, 0, 4, 1, 9, 0, 0, 5,
            0, 0, 0, 0, 8, 0, 0, 7, 9,
        ];
        assert(d@ == easy_digits());
        Self::from_digits(&d)
    }

    /// A deliberately hard Sudoku ("AI Escargot", a well-known minimal puzzle
    /// with a unique solution): propagation and failed-literal probing leave most
    /// of it open, so the solver must search.
    pub fn hard_sample() -> (s: Self)
        ensures
            s.board() == digit_board(hard_digits()),
    {
        let d: [u8; 81] = [
            1, 0, 0, 0, 0, 7, 0, 9, 0,
            0, 3, 0, 0, 2, 0, 0, 0, 8,
            0, 0, 9, 6, 0, 0, 5, 0, 0,
            0, 0, 5, 3, 0, 0, 9, 0, 0,
            0, 1, 0, 0, 8, 0, 0, 0, 2,
            6, 0, 0, 0, 0, 4, 0, 0, 0,
            3, 0, 0, 0, 0, 0, 0, 1, 0,
            0, 4, 0, 0, 0, 0, 0, 0, 7,
            0, 0, 7, 0, 0, 0, 3, 0, 0,
        ];
        assert(d@ == hard_digits());
        Self::from_digits(&d)
    }

    /// The given at `(r, c)`, if any.
    pub fn given(&self, r: usize, c: usize) -> (v: Option<u8>)
        requires
            r < 9,
            c < 9,
        ensures
            v == self.board()[9 * r + c],
    {
        proof {
            use_type_invariant(self);
        }
        self.givens[9 * r + c]
    }

    /// Set (or clear, with `None`) the given at `(r, c)`. Because givens are
    /// assumptions, an edit only changes [`assumptions`](Sudoku::assumptions).
    pub fn set(&mut self, r: usize, c: usize, value: Option<u8>)
        requires
            r < 9,
            c < 9,
        ensures
            final(self).board() == old(self).board().update(9 * r + c, value),
    {
        proof {
            use_type_invariant(&*self);
        }
        let mut givens = copy_vec(&self.givens);
        givens.set(9 * r + c, value);
        self.givens = givens;
    }

    /// Number of givens on the board.
    pub fn given_count(&self) -> (n: usize)
        ensures
            n == clue_count(self.board(), 81),
    {
        proof {
            use_type_invariant(self);
        }
        let mut n: usize = 0;
        let mut i: usize = 0;
        while i < 81
            invariant
                i <= 81,
                self.givens@.len() == 81,
                n == clue_count(self.givens@, i as int),
            decreases 81 - i,
        {
            proof {
                lemma_clue_count_le(self.givens@, i as int);
            }
            if self.givens[i].is_some() {
                n = n + 1;
            }
            i = i + 1;
        }
        n
    }

    /// A grid showing only what a set of [`Deductions`] proves: givens plus
    /// forced placements, painted in order. Cells that still need search are
    /// left blank.
    pub fn project_deductions(&self, deductions: &Deductions<Cell>) -> (grid: Grid<SudokuCell>)
        ensures
            grid.shape() == (9nat, 9nat, Seq::new(
                81,
                |i: int|
                    SudokuCell { value: painted(self.board(), deductions.proven@)[i], given: self.board()[i] is Some },
            )),
    {
        proof {
            use_type_invariant(self);
        }
        let ghost facts = deductions.proven@;
        let mut values = copy_vec(&self.givens);
        assert(values@ =~= painted(self.givens@, facts.subrange(0, 0)));
        let mut i: usize = 0;
        while i < deductions.proven.len()
            invariant
                i <= facts.len(),
                facts == deductions.proven@,
                self.givens@.len() == 81,
                values@ == painted(self.givens@, facts.subrange(0, i as int)),
            decreases facts.len() - i,
        {
            proof {
                lemma_painted_len(self.givens@, facts.subrange(0, i as int));
                assert(facts.subrange(0, i + 1).drop_last() =~= facts.subrange(0, i as int));
            }
            let (cell, holds) = deductions.proven[i];
            if holds && cell.r < 9 && cell.c < 9 {
                values.set(9 * cell.r + cell.c, Some(cell.v));
            }
            i = i + 1;
        }
        assert(facts.subrange(0, i as int) =~= facts);
        proof {
            lemma_painted_len(self.givens@, facts);
        }
        let mut cells: Vec<SudokuCell> = Vec::new();
        let mut k: usize = 0;
        while k < 81
            invariant
                k <= 81,
                self.givens@.len() == 81,
                values@ == painted(self.givens@, facts),
                values@.len() == 81,
                cells@ == Seq::new(
                    k as nat,
                    |i: int| SudokuCell { value: painted(self.givens@, facts)[i], given: self.givens@[i] is Some },
                ),
            decreases 81 - k,
        {
            cells.push(SudokuCell { value: values[k], given: self.givens[k].is_some() });
            k = k + 1;
            assert(cells@ =~= Seq::new(
                k as nat,
                |i: int| SudokuCell { value: painted(self.givens@, facts)[i], given: self.givens@[i] is Some },
            ));
        }
        Grid::from_cells(9, 9, cells)
    }
}

/// The `j`-th member of group `g`, computed.
fn group_member(g: usize, j: usize) -> (m: (usize, usize, u8))
    requires
        g < 324,
        j < 9,
    ensures
        m.0 < 9,
        m.1 < 9,
        1 <= m.2 <= 9,
        (m.0 as int, m.1 as int, m.2 as int) == group_cell(g as int, j as int),
{
    if g < 81 {
        (g / 9, g % 9, (j + 1) as u8)
    } else if g < 162 {
        ((g - 81) / 9, j, ((g - 81) % 9 + 1) as u8)
    } else if g < 243 {
        (j, (g - 162) / 9, ((g - 162) % 9 + 1) as u8)
    } else {
        let b = (g - 243) / 9;
        ((b / 3) * 3 + j / 3, (b % 3) * 3 + j % 3, ((g - 243) % 9 + 1) as u8)
    }
}

impl Puzzle for Sudoku {
    type Var = Cell;
    type Cell = SudokuCell;

    /// Every board fits: the encoding has 729 variables.
    open spec fn encodable(&self) -> bool {
        true
    }

    /// Every `Cell { r, c, v }`, in cell-major order.
    open spec fn props(&self) -> Seq<Cell> {
        sudoku_props(729)
    }

    /// Exactly one member of every cell, row-value, column-value and box-value
    /// group, in that order.
    open spec fn rules(&self) -> Seq<Seq<Lit>> {
        sudoku_rules(324)
    }

    /// Each registered clue, row-major, as a positive literal.
    open spec fn givens(&self, props: Seq<Cell>) -> Seq<Lit> {
        clue_lits(props, self.board(), 81)
    }

    /// A 9×9 grid: each cell's largest value made true, and whether it is a
    /// clue.
    open spec fn shown(&self, value: spec_fn(Cell) -> Option<bool>) -> (nat, nat, Seq<SudokuCell>) {
        (
            9,
            9,
            Seq::new(
                81,
                |i: int| SudokuCell { value: last_true(value, i / 9, i % 9, 9), given: self.board()[i] is Some },
            ),
        )
    }

    fn encode_rules(&self, reg: &mut Registry<Cell>, cnf: &mut Cnf) {
        let ghost props = sudoku_props(729);
        let ghost base = cnf@;
        assert(reg@ =~= sudoku_props(0));
        let mut r: usize = 0;
        while r < 9
            invariant
                r <= 9,
                reg@ == sudoku_props(81 * r),
            decreases 9 - r,
        {
            let mut c: usize = 0;
            while c < 9
                invariant
                    r < 9,
                    c <= 9,
                    reg@ == sudoku_props(81 * r + 9 * c),
                decreases 9 - c,
            {
                let mut v: u8 = 1;
                while v <= 9
                    invariant
                        r < 9,
                        c < 9,
                        1 <= v <= 10,
                        reg@ == sudoku_props(81 * r + 9 * c + v - 1),
                    decreases 10 - v,
                {
                    let ghost m = cell_index(r as int, c as int, v as int);
                    proof {
                        lemma_cell_at(r as int, c as int, v as int);
                        if reg@.contains(Cell { r, c, v }) {
                            let i = choose|i: int| 0 <= i < reg@.len() && reg@[i] == Cell { r, c, v };
                            lemma_cell_at_injective(i, r as int, c as int, v as int);
                        }
                    }
                    reg.var(Cell { r, c, v });
                    assert(reg@ =~= sudoku_props(m + 1));
                    v = v + 1;
                }
                c = c + 1;
            }
            r = r + 1;
        }
        assert(reg@ == props);
        reg.lemma_wf();

        let mut g: usize = 0;
        while g < 324
            invariant
                g <= 324,
                props == sudoku_props(729),
                reg@ == props,
                distinct(props),
                cnf@ == base + sudoku_rules(g as int),
                forall|i: int| 0 <= i < 9 * (if g <= 81 { g as int } else { 81 }) ==> mentions(sudoku_rules(g as int), i),
            decreases 324 - g,
        {
            let mut lits: Vec<Lit> = Vec::new();
            let mut j: usize = 0;
            while j < 9
                invariant
                    g < 324,
                    j <= 9,
                    props == sudoku_props(729),
                    reg@ == props,
                    distinct(props),
                    lits@ == group_lits(g as int).subrange(0, j as int),
                decreases 9 - j,
            {
                let (r, c, v) = group_member(g, j);
                proof {
                    lemma_cell_at(r as int, c as int, v as int);
                }
                let var = reg.var(Cell { r, c, v });
                proof {
                    assert(props[var.index()] == props[cell_index(r as int, c as int, v as int)]);
                }
                lits.push(var.pos_lit());
                j = j + 1;
                assert(lits@ =~= group_lits(g as int).subrange(0, j as int));
            }
            assert(lits@ =~= group_lits(g as int));
            let ghost prev = sudoku_rules(g as int);
            exactly_one_pairwise(lits.as_slice(), cnf);
            proof {
                let tail = seq![lits@] + at_most_one_pairwise_clauses(lits@);
                let next = sudoku_rules(g + 1);
                assert(next == prev + tail);
                assert(cnf@ =~= base + next);
                if g < 81 {
                    assert forall|i: int| 0 <= i < 9 * (g + 1) implies mentions(next, i) by {
                        if i < 9 * g {
                            lemma_mentions_prefix(prev, tail, i);
                        } else {
                            let jj = i - 9 * g;
                            assert(next[prev.len() as int] == lits@);
                            vstd::arithmetic::div_mod::lemma_fundamental_div_mod(g as int, 9);
                            lemma_cell_at((g / 9) as int, (g % 9) as int, jj + 1);
                            assert(cell_index((g / 9) as int, (g % 9) as int, jj + 1) == i);
                            assert(lits@[jj].var.index() == i);
                            assert(next[prev.len() as int][jj].var.index() == i);
                        }
                    }
                } else {
                    assert forall|i: int| 0 <= i < 9 * 81 implies mentions(next, i) by {
                        lemma_mentions_prefix(prev, tail, i);
                    }
                }
            }
            g = g + 1;
        }
    }

    fn assumptions(&self, reg: &Registry<Cell>) -> (lits: Vec<Lit>) {
        proof {
            use_type_invariant(self);
        }
        reg.lemma_wf();
        let mut lits: Vec<Lit> = Vec::new();
        let mut i: usize = 0;
        while i < 81
            invariant
                i <= 81,
                self.givens@.len() == 81,
                distinct(reg@),
                lits@ == clue_lits(reg@, self.givens@, i as int),
                lits_below(lits@, reg@.len() as int),
            decreases 81 - i,
        {
            match self.givens[i] {
                Some(v) => {
                    let cell = Cell { r: i / 9, c: i % 9, v };
                    match reg.get(&cell) {
                        Some(var) => {
                            proof {
                                crate::registry::lemma_decode_after_lit(reg@, cell, var.index());
                            }
                            lits.push(var.pos_lit());
                        },
                        None => {},
                    }
                },
                None => {},
            }
            i = i + 1;
        }
        lits
    }

    fn project(&self, view: &SolverView<Cell>) -> (grid: Grid<SudokuCell>) {
        proof {
            use_type_invariant(self);
        }
        let ghost value = |x: Cell| view.value_of_spec(x);
        let mut cells: Vec<SudokuCell> = Vec::new();
        let mut i: usize = 0;
        while i < 81
            invariant
                i <= 81,
                self.givens@.len() == 81,
                value == (|x: Cell| view.value_of_spec(x)),
                cells@ == Seq::new(
                    i as nat,
                    |k: int| SudokuCell { value: last_true(value, k / 9, k % 9, 9), given: self.givens@[k] is Some },
                ),
            decreases 81 - i,
        {
            let r = i / 9;
            let c = i % 9;
            let mut found: Option<u8> = None;
            let mut v: u8 = 1;
            while v <= 9
                invariant
                    1 <= v <= 10,
                    r == i / 9,
                    c == i % 9,
                    value == (|x: Cell| view.value_of_spec(x)),
                    found == last_true(value, r as int, c as int, v - 1),
                decreases 10 - v,
            {
                if view.value(&Cell { r, c, v }) == Some(true) {
                    found = Some(v);
                }
                v = v + 1;
            }
            cells.push(SudokuCell { value: found, given: self.givens[i].is_some() });
            i = i + 1;
            assert(cells@ =~= Seq::new(
                i as nat,
                |k: int| SudokuCell { value: last_true(value, k / 9, k % 9, 9), given: self.givens@[k] is Some },
            ));
        }
        Grid::from_cells(9, 9, cells)
    }
}

impl Default for Sudoku {
    fn default() -> (s: Self)
        ensures
            s.board() == Seq::new(81, |i: int| None::<u8>),
    {
        Sudoku::empty()
    }
}

impl Clone for Sudoku {
    fn clone(&self) -> (s: Self)
        ensures
            s.board() == self.board(),
    {
        proof {
            use_type_invariant(self);
        }
        Sudoku { givens: copy_vec(&self.givens) }
    }
}

/// A summary of what pure logic proves about a board (see
/// [`Sudoku::logic_report`]).
#[derive(Debug, Clone)]
pub struct LogicReport {
    /// Whether propagation found the givens consistent (see
    /// [`Deductions::satisfiable`]).
    pub satisfiable: bool,
    /// Number of givens on the board.
    pub givens: usize,
    /// Cells proven to a value by logic alone (excluding givens), sorted.
    pub placements: Vec<(usize, usize, u8)>,
    /// Number of candidate eliminations proven ("cell (r,c) can't be v").
    pub eliminations: usize,
}

impl LogicReport {
    /// Cells known after logic: givens plus proven placements.
    pub fn solved_cells(&self) -> (n: usize)
        requires
            self.givens + self.placements@.len() <= usize::MAX,
        ensures
            n == self.givens + self.placements@.len(),
    {
        self.givens + self.placements.len()
    }

    /// Whether logic alone determined every one of the 81 cells.
    pub fn fully_solved(&self) -> (b: bool)
        requires
            self.givens + self.placements@.len() <= usize::MAX,
        ensures
            b == (self.givens + self.placements@.len() == 81),
    {
        self.solved_cells() == 81
    }
}

/// `a` is at most `b` in lexicographic order.
pub open spec fn lex3_le(a: (usize, usize, u8), b: (usize, usize, u8)) -> bool {
    a.0 < b.0 || (a.0 == b.0 && (a.1 < b.1 || (a.1 == b.1 && a.2 <= b.2)))
}

/// `s` is in nondecreasing lexicographic order.
pub open spec fn sorted3(s: Seq<(usize, usize, u8)>) -> bool {
    forall|i: int, j: int| 0 <= i < j < s.len() ==> lex3_le(s[i], s[j])
}

/// The `(r, c, v)` of each positive fact, in order.
pub open spec fn placements_of(facts: Seq<(Cell, bool)>) -> Seq<(usize, usize, u8)>
    decreases facts.len(),
{
    if facts.len() == 0 {
        Seq::empty()
    } else {
        let prev = placements_of(facts.drop_last());
        let (cell, holds) = facts.last();
        if holds {
            prev.push((cell.r, cell.c, cell.v))
        } else {
            prev
        }
    }
}

/// The number of negative facts.
pub open spec fn eliminations_of(facts: Seq<(Cell, bool)>) -> nat
    decreases facts.len(),
{
    if facts.len() == 0 {
        0
    } else {
        eliminations_of(facts.drop_last()) + if facts.last().1 {
            0nat
        } else {
            1nat
        }
    }
}

proof fn lemma_eliminations_le(facts: Seq<(Cell, bool)>)
    ensures
        eliminations_of(facts) <= facts.len(),
    decreases facts.len(),
{
    if facts.len() > 0 {
        lemma_eliminations_le(facts.drop_last());
    }
}

/// Inserting an element adds it to the multiset.
proof fn lemma_insert_multiset<A>(s: Seq<A>, p: int, x: A)
    requires
        0 <= p <= s.len(),
    ensures
        s.insert(p, x).to_multiset() == s.to_multiset().insert(x),
{
    broadcast use vstd::seq_lib::group_to_multiset_ensures;

    let t = s.insert(p, x);
    t.to_multiset_ensures();
    assert(t.remove(p) =~= s);
    assert(t[p] == x);
    assert(t.to_multiset().count(x) > 0);
    assert(t.to_multiset() =~= s.to_multiset().insert(x));
}

/// `v`, sorted lexicographically.
fn sort_placements(v: &Vec<(usize, usize, u8)>) -> (r: Vec<(usize, usize, u8)>)
    ensures
        sorted3(r@),
        r@.to_multiset() == v@.to_multiset(),
{
    broadcast use vstd::seq_lib::group_to_multiset_ensures;

    let mut out: Vec<(usize, usize, u8)> = Vec::new();
    let mut i: usize = 0;
    while i < v.len()
        invariant
            i <= v@.len(),
            sorted3(out@),
            out@.to_multiset() == v@.subrange(0, i as int).to_multiset(),
        decreases v@.len() - i,
    {
        let x = v[i];
        let mut p: usize = 0;
        while p < out.len() && lex3_le_exec(out[p], x)
            invariant
                p <= out@.len(),
                forall|q: int| 0 <= q < p ==> lex3_le(#[trigger] out@[q], x),
            decreases out@.len() - p,
        {
            p = p + 1;
        }
        let ghost before = out@;
        out.insert(p, x);
        proof {
            assert(out@ == before.insert(p as int, x));
            if p < before.len() {
                assert(!lex3_le(before[p as int], x));
            }
            assert forall|a: int, b: int| 0 <= a < b < out@.len() implies lex3_le(out@[a], out@[b]) by {
                if b < p {
                    assert(out@[a] == before[a] && out@[b] == before[b]);
                } else if b == p {
                    assert(out@[a] == before[a]);
                } else if a < p {
                    assert(out@[a] == before[a] && out@[b] == before[b - 1]);
                    assert(lex3_le(before[a], before[b - 1]) || a == b - 1);
                } else if a == p {
                    assert(out@[b] == before[b - 1]);
                    assert(lex3_le(before[p as int], before[b - 1]) || p == b - 1);
                } else {
                    assert(out@[a] == before[a - 1] && out@[b] == before[b - 1]);
                }
            }
            lemma_insert_multiset(before, p as int, x);
            assert(v@.subrange(0, i + 1) =~= v@.subrange(0, i as int).push(x));
            v@.subrange(0, i as int).to_multiset_ensures();
            assert(v@.subrange(0, i as int).push(x).to_multiset() =~= v@.subrange(0, i as int).to_multiset().insert(x));
            assert(out@.to_multiset() =~= v@.subrange(0, i + 1).to_multiset());
        }
        i = i + 1;
    }
    assert(v@.subrange(0, i as int) =~= v@);
    out
}

/// Whether `a` is at most `b` in lexicographic order.
fn lex3_le_exec(a: (usize, usize, u8), b: (usize, usize, u8)) -> (le: bool)
    ensures
        le == lex3_le(a, b),
{
    a.0 < b.0 || (a.0 == b.0 && (a.1 < b.1 || (a.1 == b.1 && a.2 <= b.2)))
}

impl Sudoku {
    /// Summarize a set of [`Deductions`] for this board: its clues, the
    /// positive facts sorted as `(r, c, v)`, and the number of negative facts.
    pub fn logic_report_from(&self, deductions: &Deductions<Cell>) -> (rep: LogicReport)
        ensures
            rep.satisfiable == deductions.satisfiable,
            rep.givens == clue_count(self.board(), 81),
            sorted3(rep.placements@),
            rep.placements@.to_multiset() == placements_of(deductions.proven@).to_multiset(),
            rep.eliminations == eliminations_of(deductions.proven@),
    {
        let ghost facts = deductions.proven@;
        let mut placements: Vec<(usize, usize, u8)> = Vec::new();
        let mut eliminations: usize = 0;
        let mut i: usize = 0;
        while i < deductions.proven.len()
            invariant
                i <= facts.len(),
                facts == deductions.proven@,
                placements@ == placements_of(facts.subrange(0, i as int)),
                eliminations == eliminations_of(facts.subrange(0, i as int)),
            decreases facts.len() - i,
        {
            proof {
                assert(facts.subrange(0, i + 1).drop_last() =~= facts.subrange(0, i as int));
                lemma_eliminations_le(facts.subrange(0, i as int));
            }
            let (cell, holds) = deductions.proven[i];
            if holds {
                placements.push((cell.r, cell.c, cell.v));
            } else {
                eliminations = eliminations + 1;
            }
            i = i + 1;
        }
        assert(facts.subrange(0, i as int) =~= facts);
        let sorted = sort_placements(&placements);
        LogicReport {
            satisfiable: deductions.satisfiable,
            givens: self.given_count(),
            placements: sorted,
            eliminations,
        }
    }

    /// Solve as far as pure logic allows and summarize it: [`deduce`] followed by
    /// [`logic_report_from`](Sudoku::logic_report_from).
    pub fn logic_report(&self) -> (rep: LogicReport)
        ensures
            rep.satisfiable == bcp_consistent(self.rules(), self.givens(self.props())),
            rep.givens == clue_count(self.board(), 81),
            sorted3(rep.placements@),
            rep.satisfiable ==> rep.placements@.to_multiset() == placements_of(
                deductions_spec(self.props(), self.rules(), self.givens(self.props())),
            ).to_multiset(),
            rep.satisfiable ==> rep.eliminations == eliminations_of(
                deductions_spec(self.props(), self.rules(), self.givens(self.props())),
            ),
            !rep.satisfiable ==> rep.placements@.len() == 0 && rep.eliminations == 0,
    {
        broadcast use vstd::seq_lib::group_to_multiset_ensures;

        let d = deduce(self);
        assert(facts_of(d.proven@) =~= d.proven@);
        let rep = self.logic_report_from(&d);
        proof {
            if !rep.satisfiable {
                assert(d.proven@ =~= Seq::<(Cell, bool)>::empty());
                assert(placements_of(d.proven@) =~= Seq::<(usize, usize, u8)>::empty());
                assert(rep.placements@.to_multiset().len() == 0);
            }
        }
        rep
    }
}

/// The rule between box bands.
pub open spec fn band_rule() -> Seq<char> {
    seq!['-', '-', '-', '-', '-', '-', '+', '-', '-', '-', '-', '-', '-', '-', '+', '-', '-', '-', '-', '-', '-', '\n']
}

/// The text of one cell: its digit or `.`, then a space.
pub open spec fn cell_text(cell: SudokuCell) -> Seq<char> {
    match cell.value {
        Some(v) => seq![((48 + v) as u8) as char, ' '],
        None => seq!['.', ' '],
    }
}

/// The text of row `r`'s first `c` cells, with a bar before every third.
pub open spec fn row_text(cells: Seq<SudokuCell>, cols: int, r: int, c: int) -> Seq<char>
    decreases c,
{
    if c <= 0 {
        Seq::empty()
    } else {
        let prev = row_text(cells, cols, r, c - 1);
        let bar = if c - 1 > 0 && (c - 1) % 3 == 0 {
            seq!['|', ' ']
        } else {
            Seq::empty()
        };
        prev + bar + cell_text(cells[r * cols + c - 1])
    }
}

/// The text of the first `r` rows, with a band rule before every third.
pub open spec fn grid_text(cells: Seq<SudokuCell>, cols: int, r: int) -> Seq<char>
    decreases r,
{
    if r <= 0 {
        Seq::empty()
    } else {
        let prev = grid_text(cells, cols, r - 1);
        let rule = if r - 1 > 0 && (r - 1) % 3 == 0 {
            band_rule()
        } else {
            Seq::empty()
        };
        prev + rule + row_text(cells, cols, r - 1, cols) + seq!['\n']
    }
}

/// Render a projected grid as text, one line per row, with box separators.
pub fn render(grid: &Grid<SudokuCell>) -> (out: String)
    requires
        forall|i: int|
            0 <= i < grid.shape().2.len() && (#[trigger] grid.shape().2[i]).value is Some ==> grid.shape().2[i].value->0
                <= 207,
    ensures
        out@ == grid_text(grid.shape().2, grid.shape().1 as int, grid.shape().0 as int),
{
    grid.lemma_shape();
    let ghost cells = grid.shape().2;
    let ghost cols = grid.shape().1 as int;
    let mut out = String::new();
    assert(out@ =~= grid_text(cells, cols, 0));
    let mut r: usize = 0;
    while r < grid.rows()
        invariant
            r <= grid.shape().0,
            cells == grid.shape().2,
            cols == grid.shape().1,
            cells.len() == grid.shape().0 * grid.shape().1,
            forall|i: int| 0 <= i < cells.len() && (#[trigger] cells[i]).value is Some ==> cells[i].value->0 <= 207,
            out@ == grid_text(cells, cols, r as int),
        decreases grid.shape().0 - r,
    {
        let ghost start = out@;
        if r > 0 && r % 3 == 0 {
            let line = "------+-------+------\n";
            proof {
                reveal_strlit("------+-------+------\n");
            }
            assert(line@ =~= band_rule());
            crate::text::push_str(&mut out, line);
        }
        let ghost mid = out@;
        let mut c: usize = 0;
        while c < grid.cols()
            invariant
                r < grid.shape().0,
                c <= cols,
                cells == grid.shape().2,
                cols == grid.shape().1,
                cells.len() == grid.shape().0 * grid.shape().1,
                forall|i: int| 0 <= i < cells.len() && (#[trigger] cells[i]).value is Some ==> cells[i].value->0 <= 207,
                out@ == mid + row_text(cells, cols, r as int, c as int),
            decreases cols - c,
        {
            if c > 0 && c % 3 == 0 {
                push_char(&mut out, '|');
                push_char(&mut out, ' ');
            }
            proof {
                lemma_index_inside(r as int, c as int, grid.shape().0 as int, cols);
            }
            match grid.get(r, c).value {
                Some(v) => {
                    push_char(&mut out, (48 + v) as char);
                    push_char(&mut out, ' ');
                },
                None => {
                    push_char(&mut out, '.');
                    push_char(&mut out, ' ');
                },
            }
            c = c + 1;
            assert(out@ =~= mid + row_text(cells, cols, r as int, c as int));
        }
        push_char(&mut out, '\n');
        r = r + 1;
        assert(out@ =~= grid_text(cells, cols, r as int));
    }
    out
}

} // verus!
