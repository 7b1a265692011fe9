use vstd::prelude::*;
use crate::choices::{Choices, MAX_DIGIT, lemma_count_matches_listing};
use vstd::set_lib::{lemma_int_range, lemma_len_subset, lemma_map_size, set_int_range};

verus! {

/// Side of a 3x3 box.
pub const BOX_SIZE: usize = 3;

/// The ASCII code of `0`.
pub const ASCII_ZERO: u8 = 48;

/// The ASCII code of `9`.
pub const ASCII_NINE: u8 = 57;

/// The ASCII code of a space.
pub const ASCII_SPACE: u8 = 32;

/// The ASCII code of a line feed.
pub const ASCII_NEWLINE: u8 = 10;

/// Number of cells on the board.
pub const NUM_CELLS: usize = 81;

/// Whether `i` is a valid row or column.
pub open spec fn in_range(i: int) -> bool {
    0 <= i < 9
}

/// Whether two cells share a row, a column or a 3x3 box.
pub open spec fn peers(r1: int, c1: int, r2: int, c2: int) -> bool {
    r1 == r2 || c1 == c2 || (r1 / 3 == r2 / 3 && c1 / 3 == c2 / 3)
}

/// How many of `s[0..n]` are zero.
pub open spec fn count_zeros(s: Seq<u8>, n: int) -> nat
    decreases n,
{
    if n <= 0 {
        0
    } else {
        count_zeros(s, n - 1) + if s[n - 1] == 0 { 1nat } else { 0nat }
    }
}

proof fn lemma_count_zeros_update(s: Seq<u8>, n: int, i: int, v: u8)
    requires
        0 <= i < s.len(),
        n <= s.len(),
    ensures
        count_zeros(s.update(i, v), n) + (if i < n && s[i] == 0 { 1int } else { 0int })
            == count_zeros(s, n) + (if i < n && v == 0 { 1int } else { 0int }),
    decreases n,
{
    if n > 0 {
        lemma_count_zeros_update(s, n - 1, i, v);
    }
}

proof fn lemma_count_zeros_prefix_update(s: Seq<u8>, n: int, i: int, v: u8)
    requires
        0 <= n <= i < s.len(),
    ensures
        count_zeros(s.update(i, v), n) == count_zeros(s, n),
    decreases n,
{
    if n > 0 {
        lemma_count_zeros_prefix_update(s, n - 1, i, v);
    }
}

proof fn lemma_count_zeros_none(s: Seq<u8>, n: int)
    requires
        0 <= n <= s.len(),
    ensures
        count_zeros(s, n) == 0 <==> forall|i: int| 0 <= i < n ==> s[i] != 0,
    decreases n,
{
    if n > 0 {
        lemma_count_zeros_none(s, n - 1);
    }
}

/// In a solution of `g`, each cell that `g` leaves empty holds a digit that `g`
/// allows there.
pub proof fn lemma_solution_value_allowed(g: Sudoku, s: Sudoku, r: int, c: int)
    requires
        g.solved_by(s),
        in_range(r) && in_range(c),
        g.cell(r, c) == 0,
    ensures
        g.allowed(r, c, s.cell(r, c)),
{
    assert(s.cell(r, c) != 0);
    assert forall|r2: int, c2: int| in_range(r2) && in_range(c2) && peers(r, c, r2, c2)
        implies #[trigger] g.cell(r2, c2) != s.cell(r, c) by {
        if g.cell(r2, c2) != 0 && (r2 != r || c2 != c) {
            assert(s.cell(r2, c2) == g.cell(r2, c2));
            assert(s.cell(r, c) != s.cell(r2, c2));
        }
    }
}

/// Writing an allowed digit into an empty cell keeps a consistent board consistent.
pub proof fn lemma_assign_allowed_consistent(g: Sudoku, g2: Sudoku, r: int, c: int, d: int)
    requires
        in_range(r) && in_range(c),
        g.allowed(r, c, d),
        forall|r2: int, c2: int| in_range(r2) && in_range(c2) ==> #[trigger] g2.cell(r2, c2)
            == if r2 == r && c2 == c { d } else { g.cell(r2, c2) },
    ensures
        g.consistent() ==> g2.consistent(),
{
    if g.consistent() {
        lemma_assign_allowed_consistent_core(g, g2, r, c, d);
    }
}

proof fn lemma_assign_allowed_consistent_core(g: Sudoku, g2: Sudoku, r: int, c: int, d: int)
    requires
        g.consistent(),
        in_range(r) && in_range(c),
        g.allowed(r, c, d),
        forall|r2: int, c2: int| in_range(r2) && in_range(c2) ==> #[trigger] g2.cell(r2, c2)
            == if r2 == r && c2 == c { d } else { g.cell(r2, c2) },
    ensures
        g2.consistent(),
{
    assert forall|r1: int, c1: int, r2: int, c2: int|
        in_range(r1) && in_range(c1) && in_range(r2) && in_range(c2) && peers(r1, c1, r2, c2)
            && (r1 != r2 || c1 != c2) && #[trigger] g2.cell(r1, c1) != 0
            implies g2.cell(r1, c1) != #[trigger] g2.cell(r2, c2) by {
        if r1 == r && c1 == c {
            assert(g.cell(r2, c2) != d);
        } else if r2 == r && c2 == c {
            assert(peers(r, c, r1, c1));
            assert(g.cell(r1, c1) != d);
        } else {
            assert(g.cell(r1, c1) != g.cell(r2, c2));
        }
    }
}

/// Filling a forced cell loses no solution.
pub proof fn lemma_forced_keeps_solutions(g: Sudoku, g2: Sudoku, r: int, c: int, d: int)
    requires
        g.forced(r, c, d),
        forall|r2: int, c2: int| in_range(r2) && in_range(c2) ==> #[trigger] g2.cell(r2, c2)
            == if r2 == r && c2 == c { d } else { g.cell(r2, c2) },
    ensures
        forall|s: Sudoku| g.solved_by(s) ==> #[trigger] g2.solved_by(s),
{
    assert forall|s: Sudoku| g.solved_by(s) implies #[trigger] g2.solved_by(s) by {
        lemma_solution_value_allowed(g, s, r, c);
        assert forall|r2: int, c2: int| in_range(r2) && in_range(c2) && #[trigger] g2.cell(r2, c2) != 0
            implies s.cell(r2, c2) == g2.cell(r2, c2) by {
            if r2 != r || c2 != c {
                assert(g.cell(r2, c2) != 0);
            }
        }
    }
}

/// The cells of a well-formed board hold digits 0 to 9.
pub proof fn lemma_wf_cells_are_digits(g: Sudoku)
    requires
        g.wf(),
    ensures
        forall|r: int, c: int| in_range(r) && in_range(c) ==> #[trigger] g.cell(r, c) <= 9,
{
    assert forall|r: int, c: int| in_range(r) && in_range(c) implies #[trigger] g.cell(r, c) <= 9 by {
        assert(0 <= r * 9 + c < 81);
    }
}

/// A token that reads as a digit 0 to 9: ASCII digits, all but the last of them `0`.
pub open spec fn digit_token(t: Seq<u8>) -> bool {
    &&& t.len() >= 1
    &&& forall|i: int| 0 <= i < t.len() - 1 ==> #[trigger] t[i] == ASCII_ZERO
    &&& ASCII_ZERO <= t.last() <= ASCII_NINE
}

/// The digit that a digit token stands for.
pub open spec fn token_value(t: Seq<u8>) -> u8 {
    (t.last() - ASCII_ZERO) as u8
}

/// Whether `t` reads as a digit 0 to 9.
pub fn is_digit_token(t: &Vec<u8>) -> (r: bool)
    ensures
        r == digit_token(t@),
{
    let n = t.len();
    if n == 0 {
        return false;
    }
    let mut i: usize = 0;
    while i + 1 < n
        invariant
            n == t@.len(),
            n >= 1,
            i < n,
            forall|j: int| 0 <= j < i ==> #[trigger] t@[j] == ASCII_ZERO,
        decreases n - i,
    {
        if t[i] != ASCII_ZERO {
            return false;
        }
        i = i + 1;
    }
    let last = t[n - 1];
    ASCII_ZERO <= last && last <= ASCII_NINE
}

/// Row `r`, column `c` of `cells` shows in `text` as its ASCII digit at
/// `18 * r + 2 * c`, followed by a space, or by a newline at the end of a row.
pub open spec fn rendered_cell(cells: Seq<u8>, text: Seq<u8>, r: int, c: int) -> bool {
    &&& text[18 * r + 2 * c] == cells[9 * r + c] + ASCII_ZERO
    &&& text[18 * r + 2 * c + 1] == if c == 8 { ASCII_NEWLINE } else { ASCII_SPACE }
}

/// `text` is `cells` shown as nine lines of nine digits separated by spaces.
pub open spec fn rendered(cells: Seq<u8>, text: Seq<u8>) -> bool {
    &&& text.len() == 162
    &&& forall|r: int, c: int| in_range(r) && in_range(c) ==> #[trigger] rendered_cell(cells, text, r, c)
}

proof fn lemma_nine_distinct_cover(v: spec_fn(int) -> int, d: int)
    requires
        1 <= d <= 9,
        forall|i: int| 0 <= i < 9 ==> 1 <= #[trigger] v(i) <= 9,
        forall|i: int, j: int| 0 <= i < 9 && 0 <= j < 9 && i != j ==> #[trigger] v(i) != #[trigger] v(j),
    ensures
        exists|i: int| 0 <= i < 9 && #[trigger] v(i) == d,
{
    let x = set_int_range(0, 9);
    lemma_int_range(0, 9);
    let y = x.map(v);
    lemma_map_size(x, y, v);
    if !(exists|i: int| 0 <= i < 9 && #[trigger] v(i) == d) {
        let z = set_int_range(1, 10).remove(d);
        lemma_int_range(1, 10);
        assert(y.subset_of(z)) by {
            assert forall|b: int| y.contains(b) implies z.contains(b) by {
                let a = choose|a: int| x.contains(a) && v(a) == b;
            }
        }
        lemma_len_subset(y, z);
    }
}

/// A completed board in which no two peers share a digit holds each digit
/// 1 to 9 exactly once in every row, every column and every 3x3 box.
pub proof fn lemma_solved_units_hold_each_digit(s: Sudoku)
    requires
        s.complete(),
        s.consistent(),
        forall|r: int, c: int| in_range(r) && in_range(c) ==> #[trigger] s.cell(r, c) <= 9,
    ensures
        forall|r: int, d: int| in_range(r) && 1 <= d <= 9 ==> #[trigger] s.row_holds(r, d),
        forall|c: int, d: int| in_range(c) && 1 <= d <= 9 ==> #[trigger] s.column_holds(c, d),
        forall|br: int, bc: int, d: int| 0 <= br < 3 && 0 <= bc < 3 && 1 <= d <= 9 ==> #[trigger] s.box_holds(br, bc, d),
        forall|r: int, c1: int, c2: int| in_range(r) && in_range(c1) && in_range(c2)
            && #[trigger] s.cell(r, c1) == #[trigger] s.cell(r, c2) ==> c1 == c2,
        forall|r1: int, r2: int, c: int| in_range(r1) && in_range(r2) && in_range(c)
            && #[trigger] s.cell(r1, c) == #[trigger] s.cell(r2, c) ==> r1 == r2,
        forall|br: int, bc: int, i1: int, j1: int, i2: int, j2: int|
            0 <= br < 3 && 0 <= bc < 3 && 0 <= i1 < 3 && 0 <= j1 < 3 && 0 <= i2 < 3 && 0 <= j2 < 3
            && #[trigger] s.cell(3 * br + i1, 3 * bc + j1) == #[trigger] s.cell(3 * br + i2, 3 * bc + j2)
            ==> i1 == i2 && j1 == j2,
{
    assert forall|r: int, d: int| in_range(r) && 1 <= d <= 9 implies #[trigger] s.row_holds(r, d) by {
        let v = |i: int| s.cell(r, i);
        assert forall|i: int, j: int| 0 <= i < 9 && 0 <= j < 9 && i != j implies #[trigger] v(i) != #[trigger] v(j) by {
            assert(peers(r, i, r, j));
        }
        lemma_nine_distinct_cover(v, d);
        let i = choose|i: int| 0 <= i < 9 && #[trigger] v(i) == d;
        assert(s.cell(r, i) == d);
    }
    assert forall|c: int, d: int| in_range(c) && 1 <= d <= 9 implies #[trigger] s.column_holds(c, d) by {
        let v = |i: int| s.cell(i, c);
        assert forall|i: int, j: int| 0 <= i < 9 && 0 <= j < 9 && i != j implies #[trigger] v(i) != #[trigger] v(j) by {
            assert(peers(i, c, j, c));
        }
        lemma_nine_distinct_cover(v, d);
        let i = choose|i: int| 0 <= i < 9 && #[trigger] v(i) == d;
        assert(s.cell(i, c) == d);
    }
    assert forall|br: int, bc: int, d: int| 0 <= br < 3 && 0 <= bc < 3 && 1 <= d <= 9 implies #[trigger] s.box_holds(br, bc, d) by {
        let v = |k: int| s.cell(3 * br + k / 3, 3 * bc + k % 3);
        assert forall|k: int, l: int| 0 <= k < 9 && 0 <= l < 9 && k != l implies #[trigger] v(k) != #[trigger] v(l) by {
            assert(peers(3 * br + k / 3, 3 * bc + k % 3, 3 * br + l / 3, 3 * bc + l % 3));
        }
        lemma_nine_distinct_cover(v, d);
        let k = choose|k: int| 0 <= k < 9 && #[trigger] v(k) == d;
        assert(s.cell(3 * br + k / 3, 3 * bc + k % 3) == d);
        assert(0 <= k / 3 < 3 && 0 <= k % 3 < 3);
    }
    assert forall|br: int, bc: int, i1: int, j1: int, i2: int, j2: int|
        0 <= br < 3 && 0 <= bc < 3 && 0 <= i1 < 3 && 0 <= j1 < 3 && 0 <= i2 < 3 && 0 <= j2 < 3
        && #[trigger] s.cell(3 * br + i1, 3 * bc + j1) == #[trigger] s.cell(3 * br + i2, 3 * bc + j2)
        implies i1 == i2 && j1 == j2 by {
        assert(peers(3 * br + i1, 3 * bc + j1, 3 * br + i2, 3 * bc + j2));
    }
    assert forall|r: int, c1: int, c2: int| in_range(r) && in_range(c1) && in_range(c2)
        && #[trigger] s.cell(r, c1) == #[trigger] s.cell(r, c2) implies c1 == c2 by {
        assert(peers(r, c1, r, c2));
    }
    assert forall|r1: int, r2: int, c: int| in_range(r1) && in_range(r2) && in_range(c)
        && #[trigger] s.cell(r1, c) == #[trigger] s.cell(r2, c) implies r1 == r2 by {
        assert(peers(r1, c, r2, c));
    }
}

/// `a` and `b` first differ at index `k`.
pub open spec fn first_difference(a: Seq<u8>, b: Seq<u8>, k: int) -> bool {
    &&& 0 <= k < a.len() && k < b.len()
    &&& a[k] != b[k]
    &&& forall|j: int| 0 <= j < k ==> a[j] == b[j]
}

/// `a` comes before `b` in lexicographic order.
pub open spec fn lex_less(a: Seq<u8>, b: Seq<u8>) -> bool {
    exists|k: int| #[trigger] first_difference(a, b, k) && a[k] < b[k]
}

proof fn lemma_first_difference_exists(a: Seq<u8>, b: Seq<u8>, n: int)
    requires
        0 <= n <= a.len(),
        n <= b.len(),
        exists|k: int| 0 <= k < n && a[k] != b[k],
    ensures
        exists|k: int| k < n && #[trigger] first_difference(a, b, k),
    decreases n,
{
    if exists|k: int| 0 <= k < n - 1 && a[k] != b[k] {
        lemma_first_difference_exists(a, b, n - 1);
        let k = choose|k: int| k < n - 1 && #[trigger] first_difference(a, b, k);
        assert(first_difference(a, b, k));
    } else {
        assert(first_difference(a, b, n - 1));
    }
}

/// Two sequences that differ at `k` and agree before it are ordered by their
/// entries at `k`.
proof fn lemma_lex_at(a: Seq<u8>, b: Seq<u8>, k: int)
    requires
        first_difference(a, b, k),
        a[k] < b[k],
    ensures
        lex_less(a, b),
        !lex_less(b, a),
{
    assert(first_difference(a, b, k));
    if lex_less(b, a) {
        let k2 = choose|k2: int| #[trigger] first_difference(b, a, k2) && b[k2] < a[k2];
        if k2 < k {
            assert(a[k2] == b[k2]);
        } else if k < k2 {
            assert(b[k] == a[k]);
        }
    }
}

/// Of two boards that each come no later in row-major order than any solution
/// of `g`, and that both solve `g`, neither differs from the other: the least
/// solution is unique, so solving a board gives the same result every time.
pub proof fn lemma_least_solution_unique(g: Sudoku, s1: Sudoku, s2: Sudoku)
    requires
        g.solved_by(s1),
        g.solved_by(s2),
        forall|t: Sudoku| #[trigger] g.solved_by(t) ==> !lex_less(t@, s1@),
        forall|t: Sudoku| #[trigger] g.solved_by(t) ==> !lex_less(t@, s2@),
        s1.wf(),
        s2.wf(),
    ensures
        s1@ == s2@,
{
    if s1@ != s2@ {
        assert(exists|k: int| 0 <= k < 81 && s1@[k] != s2@[k]) by {
            if forall|k: int| 0 <= k < 81 ==> s1@[k] == s2@[k] {
                assert(s1@ =~= s2@);
            }
        }
        lemma_first_difference_exists(s1@, s2@, 81);
        let k = choose|k: int| k < 81 && #[trigger] first_difference(s1@, s2@, k);
        if s1@[k] < s2@[k] {
            lemma_lex_at(s1@, s2@, k);
        } else {
            assert(first_difference(s2@, s1@, k));
            lemma_lex_at(s2@, s1@, k);
        }
    }
}

/// A completed board agrees in every cell with each board that keeps its digits.
proof fn lemma_complete_extension_equal(g: Sudoku, t: Sudoku)
    requires
        g.complete(),
        g.extended_by(t),
        g@.len() == 81,
        t@.len() == 81,
    ensures
        t@ == g@,
{
    assert forall|k: int| 0 <= k < 81 implies t@[k] == g@[k] by {
        let r = k / 9;
        let c = k % 9;
        assert(r * 9 + c == k);
        assert(g.cell(r, c) != 0);
    }
    assert(t@ =~= g@);
}

/// A solution of `g` that holds `d` at `(r, c)` solves `g` with `d` written there.
proof fn lemma_solution_through_assign(g: Sudoku, g2: Sudoku, t: Sudoku, r: int, c: int, d: int)
    requires
        g.solved_by(t),
        in_range(r) && in_range(c),
        t.cell(r, c) == d,
        forall|r2: int, c2: int| in_range(r2) && in_range(c2) ==> #[trigger] g2.cell(r2, c2)
            == if r2 == r && c2 == c { d } else { g.cell(r2, c2) },
    ensures
        g2.solved_by(t),
{
    assert forall|r2: int, c2: int| in_range(r2) && in_range(c2) && #[trigger] g2.cell(r2, c2) != 0
        implies t.cell(r2, c2) == g2.cell(r2, c2) by {
        if r2 != r || c2 != c {
            assert(g.cell(r2, c2) != 0);
        }
    }
}

/// Rendering a board read from digit tokens shows, for each cell, the last
/// character of its token, in row-major order: the digits that were read.
pub proof fn lemma_render_shows_parsed_digits(tokens: Seq<Seq<u8>>, g: Sudoku, text: Seq<u8>)
    requires
        tokens.len() == 81,
        forall|i: int| 0 <= i < 81 ==> digit_token(#[trigger] tokens[i]),
        g@.len() == 81,
        forall|i: int| 0 <= i < 81 ==> #[trigger] g@[i] == token_value(tokens[i]),
        rendered(g@, text),
    ensures
        forall|r: int, c: int| in_range(r) && in_range(c) ==> #[trigger] text[18 * r + 2 * c] == tokens[9 * r + c].last(),
{
    assert forall|r: int, c: int| in_range(r) && in_range(c) implies #[trigger] text[18 * r + 2 * c]
        == tokens[9 * r + c].last() by {
        assert(rendered_cell(g@, text, r, c));
        assert(digit_token(tokens[9 * r + c]));
        assert(g@[9 * r + c] == token_value(tokens[9 * r + c]));
    }
}

/// A 9x9 board; 0 marks an empty cell.
#[derive(Clone, Copy, Debug)]
pub struct Sudoku {
    cells: [u8; 81],
    num_empty: usize,
}

/// Why a list of tokens is not a board.
#[derive(Clone, Copy, Debug, PartialEq, Eq, Structural)]
pub enum FormatError {
    /// The list does not hold 81 numbers; `count` is how many it holds.
    WrongCount { count: usize },
    /// The token at `index` is not a digit 0 to 9.
    BadToken { index: usize },
}

impl View for Sudoku {
    type V = Seq<u8>;

    /// The cells in row-major order.
    closed spec fn view(&self) -> Seq<u8> {
        self.cells@
    }
}

impl Sudoku {
    /// The digit at row `r`, column `c`.
    pub open spec fn cell(&self, r: int, c: int) -> int {
        self@[r * 9 + c] as int
    }

    /// The number of empty cells.
    pub open spec fn zeros(&self) -> nat {
        count_zeros(self@, 81)
    }

    /// Every cell holds 0 to 9 and the empty count is exact.
    pub closed spec fn wf(&self) -> bool {
        &&& self@.len() == 81
        &&& forall|i: int| 0 <= i < 81 ==> #[trigger] self@[i] <= 9
        &&& self.num_empty as nat == self.zeros()
    }

    /// No cell is empty.
    pub open spec fn complete(&self) -> bool {
        forall|r: int, c: int| in_range(r) && in_range(c) ==> #[trigger] self.cell(r, c) != 0
    }

    /// No two distinct peer cells hold the same nonzero digit.
    pub open spec fn consistent(&self) -> bool {
        forall|r1: int, c1: int, r2: int, c2: int|
            in_range(r1) && in_range(c1) && in_range(r2) && in_range(c2) && peers(r1, c1, r2, c2)
                && (r1 != r2 || c1 != c2) && #[trigger] self.cell(r1, c1) != 0
                ==> self.cell(r1, c1) != #[trigger] self.cell(r2, c2)
    }

    /// `other` keeps every nonzero cell of `self`.
    pub open spec fn extended_by(&self, other: Sudoku) -> bool {
        forall|r: int, c: int| in_range(r) && in_range(c) && #[trigger] self.cell(r, c) != 0
            ==> other.cell(r, c) == self.cell(r, c)
    }

    /// `s` is a completed, rule-abiding board that keeps the givens of `self`.
    pub open spec fn solved_by(&self, s: Sudoku) -> bool {
        &&& s.complete()
        &&& s.consistent()
        &&& forall|r: int, c: int| in_range(r) && in_range(c) ==> #[trigger] s.cell(r, c) <= 9
        &&& self.extended_by(s)
    }

    /// Digit `d` may go at `(r, c)`: no peer of the cell holds it.
    pub open spec fn allowed(&self, r: int, c: int, d: int) -> bool {
        &&& 1 <= d <= 9
        &&& forall|r2: int, c2: int| in_range(r2) && in_range(c2) && peers(r, c, r2, c2)
            ==> #[trigger] self.cell(r2, c2) != d
    }

    /// `(r, c)` is empty and `d` is its one allowed digit.
    pub open spec fn forced(&self, r: int, c: int, d: int) -> bool {
        &&& in_range(r) && in_range(c)
        &&& self.cell(r, c) == 0
        &&& self.allowed(r, c, d)
        &&& forall|d2: int| #[trigger] self.allowed(r, c, d2) ==> d2 == d
    }

    /// `(r, c)` holds a digit, or has not exactly one allowed digit.
    pub open spec fn unforced(&self, r: int, c: int) -> bool {
        self.cell(r, c) != 0 || forall|d: int| !#[trigger] self.forced(r, c, d)
    }

    /// Row `r` holds digit `d`.
    pub open spec fn row_holds(&self, r: int, d: int) -> bool {
        exists|c: int| in_range(c) && #[trigger] self.cell(r, c) == d
    }

    /// Column `c` holds digit `d`.
    pub open spec fn column_holds(&self, c: int, d: int) -> bool {
        exists|r: int| in_range(r) && #[trigger] self.cell(r, c) == d
    }

    /// The box in box-row `br` and box-column `bc` holds digit `d`.
    pub open spec fn box_holds(&self, br: int, bc: int, d: int) -> bool {
        exists|i: int, j: int| 0 <= i < 3 && 0 <= j < 3 && #[trigger] self.cell(3 * br + i, 3 * bc + j) == d
    }

    /// Whether `(r2, c2)` comes before `(r1, c1)` in row-major order.
    pub open spec fn before(r2: int, c2: int, r1: int, c1: int) -> bool {
        r2 < r1 || (r2 == r1 && c2 < c1)
    }

    /// Writes `num` at `(row, col)`; the empty count drops by one exactly when
    /// the cell was empty.
    pub fn assign_inplace(&mut self, row: usize, col: usize, num: u8)
        requires
            old(self).wf(),
            row < 9,
            col < 9,
            1 <= num <= 9,
        ensures
            final(self).wf(),
            final(self)@ == old(self)@.update(row * 9 + col, num),
            forall|r: int, c: int| in_range(r) && in_range(c) ==> #[trigger] final(self).cell(r, c)
                == if r == row && c == col { num as int } else { old(self).cell(r, c) },
            final(self).zeros() + (if old(self).cell(row as int, col as int) == 0 { 1int } else { 0int })
                == old(self).zeros(),
    {
        let was_empty = self.cells[row * 9 + col] == 0;
        proof {
            lemma_count_zeros_update(self.cells@, 81, row * 9 + col, num);
        }
        self.cells[row * 9 + col] = num;
        if was_empty {
            self.num_empty = self.num_empty - 1;
        }
        assert forall|r: int, c: int| in_range(r) && in_range(c) implies #[trigger] self.cell(r, c)
            == if r == row && c == col { num as int } else { old(self).cell(r, c) } by {
            if r != row || c != col {
                assert(r * 9 + c != row * 9 + col);
            }
        }
    }

    /// The number of empty cells.
    pub fn num_empty(&self) -> (r: usize)
        requires
            self.wf(),
        ensures
            r == self.zeros(),
    {
        self.num_empty
    }

    /// The digit at `(row, col)`; 0 when the cell is empty.
    pub fn get(&self, row: usize, col: usize) -> (r: u8)
        requires
            self.wf(),
            row < 9,
            col < 9,
        ensures
            r == self.cell(row as int, col as int),
    {
        self.cells[row * 9 + col]
    }

    /// Whether no cell is empty.
    pub fn is_full(&self) -> (r: bool)
        requires
            self.wf(),
        ensures
            r == self.complete(),
            r == (self.zeros() == 0),
    {
        proof {
            lemma_count_zeros_none(self.cells@, 81);
            if self.zeros() == 0 {
                assert forall|r: int, c: int| in_range(r) && in_range(c) implies #[trigger] self.cell(r, c) != 0 by {
                    assert(0 <= r * 9 + c < 81);
                }
            }
            if self.complete() {
                assert forall|i: int| 0 <= i < 81 implies self.cells@[i] != 0 by {
                    assert(self.cell(i / 9, i % 9) != 0);
                    assert((i / 9) * 9 + i % 9 == i);
                }
            }
        }
        self.num_empty == 0
    }

    /// The first empty cell in row-major order, if any.
    pub fn get_first_empty(&self) -> (r: Option<(usize, usize)>)
        requires
            self.wf(),
        ensures
            r is None ==> self.complete(),
            r matches Some((row, col)) ==> {
                &&& row < 9 && col < 9
                &&& self.cell(row as int, col as int) == 0
                &&& forall|r2: int, c2: int| in_range(r2) && in_range(c2) && Sudoku::before(r2, c2, row as int, col as int)
                    ==> #[trigger] self.cell(r2, c2) != 0
            },
    {
        let mut r: usize = 0;
        while r < 9
            invariant
                r <= 9,
                forall|r2: int, c2: int| in_range(r2) && in_range(c2) && r2 < r ==> #[trigger] self.cell(r2, c2) != 0,
            decreases 9 - r,
        {
            let mut c: usize = 0;
            while c < 9
                invariant
                    r < 9,
                    c <= 9,
                    forall|r2: int, c2: int| in_range(r2) && in_range(c2) && Sudoku::before(r2, c2, r as int, c as int)
                        ==> #[trigger] self.cell(r2, c2) != 0,
                decreases 9 - c,
            {
                if self.cells[r * 9 + c] == 0 {
                    return Some((r, c));
                }
                c = c + 1;
            }
            r = r + 1;
        }
        None
    }

    /// Fills the first cell in row-major order that is empty and has exactly
    /// one candidate, and says whether there was one.
    pub fn try_first_obvious_inplace(&mut self) -> (r: bool)
        requires
            old(self).wf(),
        ensures
            final(self).wf(),
            r ==> exists|row: int, col: int, d: int| {
                &&& #[trigger] old(self).forced(row, col, d)
                &&& final(self)@ == old(self)@.update(row * 9 + col, d as u8)
                &&& forall|r2: int, c2: int| in_range(r2) && in_range(c2) && Sudoku::before(r2, c2, row, col)
                    ==> #[trigger] old(self).unforced(r2, c2)
            },
            r ==> final(self).zeros() + 1 == old(self).zeros(),
            r ==> old(self).extended_by(*final(self)),
            r ==> (old(self).consistent() ==> final(self).consistent()),
            r ==> forall|s: Sudoku| old(self).solved_by(s) ==> #[trigger] final(self).solved_by(s),
            !r ==> *final(self) == *old(self),
            !r ==> forall|r2: int, c2: int| in_range(r2) && in_range(c2) ==> #[trigger] old(self).unforced(r2, c2),
    {
        let mut r: usize = 0;
        while r < 9
            invariant
                r <= 9,
                self.wf(),
                *self == *old(self),
                forall|r2: int, c2: int| in_range(r2) && in_range(c2) && r2 < r ==> #[trigger] self.unforced(r2, c2),
            decreases 9 - r,
        {
            let mut c: usize = 0;
            while c < 9
                invariant
                    r < 9,
                    c <= 9,
                    self.wf(),
                    *self == *old(self),
                    forall|r2: int, c2: int| in_range(r2) && in_range(c2) && Sudoku::before(r2, c2, r as int, c as int)
                        ==> #[trigger] self.unforced(r2, c2),
                decreases 9 - c,
            {
                if self.cells[r * 9 + c] == 0 {
                    let choices = self.get_choices(r, c);
                    proof {
                        lemma_count_matches_listing(choices);
                    }
                    if choices.len() == 1 {
                        let vals = choices.values();
                        let num = vals[0];
                        proof {
                            assert(choices.has(num as int));
                            assert forall|d2: int| #[trigger] self.allowed(r as int, c as int, d2) implies d2 == num by {
                                assert(choices.has(d2));
                                let k = choose|k: int| 0 <= k < vals@.len() && vals@[k] == d2 as u8;
                            }
                            assert(self.forced(r as int, c as int, num as int));
                        }
                        let ghost prev = *self;
                        self.assign_inplace(r, c, num);
                        proof {
                            lemma_assign_allowed_consistent(prev, *self, r as int, c as int, num as int);
                            lemma_forced_keeps_solutions(prev, *self, r as int, c as int, num as int);
                            assert(prev.forced(r as int, c as int, num as int));
                        }
                        return true;
                    } else {
                        proof {
                            assert forall|d: int| !#[trigger] self.forced(r as int, c as int, d) by {
                                if self.forced(r as int, c as int, d) {
                                    assert(choices.has(d));
                                    if choices.digits().len() >= 2 {
                                        let a = choices.digits()[0] as int;
                                        let b = choices.digits()[1] as int;
                                        assert(choices.has(a) && choices.has(b));
                                    } else {
                                        assert(choices.digits().len() == 0);
                                    }
                                }
                            }
                        }
                    }
                }
                c = c + 1;
            }
            r = r + 1;
        }
        false
    }

    /// Fills forced cells one at a time until the board is full or no cell is
    /// forced; returns whether the board is full.
    pub fn try_all_obvious_inplace(&mut self) -> (r: bool)
        requires
            old(self).wf(),
        ensures
            final(self).wf(),
            r == final(self).complete(),
            final(self).zeros() <= old(self).zeros(),
            old(self).extended_by(*final(self)),
            old(self).consistent() ==> final(self).consistent(),
            forall|s: Sudoku| old(self).solved_by(s) ==> #[trigger] final(self).solved_by(s),
            !r ==> forall|r2: int, c2: int| in_range(r2) && in_range(c2) ==> #[trigger] final(self).unforced(r2, c2),
            old(self).complete() ==> *final(self) == *old(self),
    {
        let mut try_filling = true;
        while try_filling
            invariant
                self.wf(),
                self.zeros() <= old(self).zeros(),
                old(self).extended_by(*self),
                old(self).consistent() ==> self.consistent(),
                forall|s: Sudoku| old(self).solved_by(s) ==> #[trigger] self.solved_by(s),
                !try_filling ==> forall|r2: int, c2: int| in_range(r2) && in_range(c2) ==> #[trigger] self.unforced(r2, c2),
                old(self).complete() ==> *self == *old(self),
                try_filling || !old(self).complete(),
                !try_filling ==> !self.complete(),
            decreases self.zeros() + if try_filling { 1int } else { 0int },
        {
            let ghost prev = *self;
            try_filling = self.try_first_obvious_inplace();
            if self.is_full() {
                return true;
            }
            proof {
                if !try_filling && old(self).complete() {
                    assert(prev.complete());
                }
            }
        }
        false
    }

    /// A completed board that keeps the givens is the only solution there is.
    proof fn lemma_complete_result_least(&self, g: Sudoku)
        requires
            g.wf(),
            g.complete(),
            forall|s: Sudoku| self.solved_by(s) ==> #[trigger] g.solved_by(s),
        ensures
            forall|t: Sudoku| #[trigger] self.solved_by(t) ==> !lex_less(t@, g@),
    {
        assert forall|t: Sudoku| #[trigger] self.solved_by(t) implies !lex_less(t@, g@) by {
            assert(g.solved_by(t));
            lemma_complete_extension_equal(g, t);
            if lex_less(t@, g@) {
                let k = choose|k: int| #[trigger] first_difference(t@, g@, k) && t@[k] < g@[k];
            }
        }
    }

    /// The board found through candidate `vals[i]` of the first empty cell
    /// `(r, c)` comes no later than any solution: smaller candidates had none,
    /// and larger ones differ first at `(r, c)`.
    proof fn lemma_search_result_least(
        &self,
        g: Sudoku,
        trial: Sudoku,
        x: Sudoku,
        choices: Choices,
        vals: Seq<u8>,
        r: int,
        c: int,
        i: int,
    )
        requires
            g.wf(),
            x.wf(),
            in_range(r) && in_range(c),
            g.cell(r, c) == 0,
            forall|r2: int, c2: int| in_range(r2) && in_range(c2) && Sudoku::before(r2, c2, r, c)
                ==> #[trigger] g.cell(r2, c2) != 0,
            forall|s: Sudoku| self.solved_by(s) ==> #[trigger] g.solved_by(s),
            forall|d: int| #[trigger] choices.has(d) <==> g.allowed(r, c, d),
            choices.wf(),
            vals == choices.digits(),
            forall|a: int, b: int| 0 <= a < b < vals.len() ==> #[trigger] vals[a] < #[trigger] vals[b],
            0 <= i < vals.len(),
            forall|s: Sudoku, j: int| #![trigger g.solved_by(s), vals[j]]
                0 <= j < i && g.solved_by(s) ==> s.cell(r, c) != vals[j] as int,
            forall|r2: int, c2: int| in_range(r2) && in_range(c2) ==> #[trigger] trial.cell(r2, c2)
                == if r2 == r && c2 == c { vals[i] as int } else { g.cell(r2, c2) },
            g.extended_by(x),
            trial.extended_by(x),
            forall|t: Sudoku| #[trigger] trial.solved_by(t) ==> !lex_less(t@, x@),
        ensures
            forall|t: Sudoku| #[trigger] self.solved_by(t) ==> !lex_less(t@, x@),
    {
        lemma_count_matches_listing(choices);
        assert(choices.has(vals[i] as int));
        assert forall|t: Sudoku| #[trigger] self.solved_by(t) implies !lex_less(t@, x@) by {
            assert(g.solved_by(t));
            lemma_solution_value_allowed(g, t, r, c);
            let d = t.cell(r, c);
            assert(choices.has(d));
            let k = choose|k: int| 0 <= k < vals.len() && vals[k] == d as u8;
            assert(vals[k] as int == d);
            if k < i {
                assert(t.cell(r, c) != vals[k] as int);
            } else if k == i {
                lemma_solution_through_assign(g, trial, t, r, c, d);
            } else {
                let p = r * 9 + c;
                assert(vals[i] < vals[k]);
                assert(trial.cell(r, c) == vals[i] as int);
                assert(trial.cell(r, c) != 0);
                assert(x.cell(r, c) == vals[i] as int);
                assert forall|j: int| 0 <= j < p implies x@[j] == t@[j] by {
                    let rj = j / 9;
                    let cj = j % 9;
                    assert(rj * 9 + cj == j);
                    assert(Sudoku::before(rj, cj, r, c));
                    assert(g.cell(rj, cj) != 0);
                }
                assert(first_difference(x@, t@, p));
                lemma_lex_at(x@, t@, p);
            }
        }
    }

    /// Solves the board: propagates forced cells, then tries each candidate
    /// of the first empty cell in ascending order, keeping the first success.
    pub fn solve(&self) -> (r: Option<Sudoku>)
        requires
            self.wf(),
        ensures
            r matches Some(s) ==> {
                &&& s.wf()
                &&& s.complete()
                &&& self.extended_by(s)
                &&& self.consistent() ==> self.solved_by(s)
            },
            r is None ==> forall|s: Sudoku| !#[trigger] self.solved_by(s),
            r matches Some(s) ==> (self.consistent() ==> forall|t: Sudoku| #[trigger] self.solved_by(t)
                ==> !lex_less(t@, s@)),
            self.complete() ==> r == Some(*self),
        decreases self.zeros(),
    {
        let mut sudoku = *self;
        let solved = sudoku.try_all_obvious_inplace();
        if solved {
            proof {
                lemma_wf_cells_are_digits(sudoku);
                self.lemma_complete_result_least(sudoku);
            }
            return Some(sudoku);
        }
        assert(!self.complete());
        match sudoku.get_first_empty() {
            Some((r, c)) => {
                let choices = sudoku.get_choices(r, c);
                let vals = choices.values();
                proof {
                    lemma_count_matches_listing(choices);
                }
                let mut i: usize = 0;
                while i < vals.len()
                    invariant
                        sudoku.wf(),
                        !self.complete(),
                        r < 9 && c < 9,
                        sudoku.cell(r as int, c as int) == 0,
                        forall|r2: int, c2: int| in_range(r2) && in_range(c2) && Sudoku::before(r2, c2, r as int, c as int)
                            ==> #[trigger] sudoku.cell(r2, c2) != 0,
                        forall|i: int, j: int| 0 <= i < j < vals@.len() ==> #[trigger] vals@[i] < #[trigger] vals@[j],
                        sudoku.zeros() <= self.zeros(),
                        self.extended_by(sudoku),
                        self.consistent() ==> sudoku.consistent(),
                        forall|s: Sudoku| self.solved_by(s) ==> #[trigger] sudoku.solved_by(s),
                        vals@ == choices.digits(),
                        choices.wf(),
                        forall|d: int| #[trigger] choices.has(d) <==> sudoku.allowed(r as int, c as int, d),
                        forall|i: int| 0 <= i < vals@.len() ==> choices.has(#[trigger] vals@[i] as int),
                        i <= vals.len(),
                        forall|s: Sudoku, j: int| #![trigger sudoku.solved_by(s), vals@[j]]
                            0 <= j < i && sudoku.solved_by(s) ==> s.cell(r as int, c as int) != vals@[j] as int,
                    decreases vals.len() - i,
                {
                    let num = vals[i];
                    let mut trial = sudoku;
                    trial.assign_inplace(r, c, num);
                    proof {
                        assert(choices.has(num as int));
                        lemma_assign_allowed_consistent(sudoku, trial, r as int, c as int, num as int);
                    }
                    match trial.solve() {
                        Some(solution) => {
                            proof {
                                assert(sudoku.extended_by(trial));
                                assert(self.extended_by(trial));
                                assert(self.extended_by(solution));
                                if self.consistent() {
                                    self.lemma_search_result_least(sudoku, trial, solution, choices, vals@, r as int, c as int, i as int);
                                }
                            }
                            return Some(solution);
                        },
                        None => {
                            proof {
                                assert forall|s: Sudoku, j: int| #![trigger sudoku.solved_by(s), vals@[j]]
                                    0 <= j < i + 1 && sudoku.solved_by(s)
                                    implies s.cell(r as int, c as int) != vals@[j] as int by {
                                    if j == i && s.cell(r as int, c as int) == num {
                                        lemma_solution_through_assign(sudoku, trial, s, r as int, c as int, num as int);
                                    }
                                }
                            }
                        },
                    }
                    i = i + 1;
                }
                proof {
                    assert forall|s: Sudoku| !#[trigger] self.solved_by(s) by {
                        if self.solved_by(s) {
                            assert(sudoku.solved_by(s));
                            lemma_solution_value_allowed(sudoku, s, r as int, c as int);
                            let d = s.cell(r as int, c as int);
                            assert(choices.has(d));
                            let k = choose|k: int| 0 <= k < vals@.len() && vals@[k] == d as u8;
                            assert(vals@[k] as int == d);
                        }
                    }
                }
                None
            },
            None => {
                proof {
                    lemma_wf_cells_are_digits(sudoku);
                    self.lemma_complete_result_least(sudoku);
                }
                Some(sudoku)
            },
        }
    }

    /// Reads a board from 81 tokens in row-major order.
    pub fn from_tokens(tokens: &Vec<Vec<u8>>) -> (r: Result<Sudoku, FormatError>)
        ensures
            (tokens@.len() != 81) <==> r == Err::<Sudoku, FormatError>(
                FormatError::WrongCount { count: tokens@.len() as usize },
            ),
            forall|index: usize| r == Err::<Sudoku, FormatError>(FormatError::BadToken { index }) <==> {
                &&& tokens@.len() == 81
                &&& index < 81
                &&& !digit_token(tokens@[index as int]@)
                &&& forall|j: int| 0 <= j < index ==> digit_token(#[trigger] tokens@[j]@)
            },
            r is Ok <==> tokens@.len() == 81 && forall|i: int| 0 <= i < 81 ==> digit_token(#[trigger] tokens@[i]@),
            r matches Ok(g) ==> g.wf() && forall|i: int| 0 <= i < 81 ==> #[trigger] g@[i] == token_value(tokens@[i]@),
    {
        if tokens.len() != NUM_CELLS {
            return Err(FormatError::WrongCount { count: tokens.len() });
        }
        let mut cells = [0u8; 81];
        let mut num_empty: usize = 0;
        let mut i: usize = 0;
        while i < NUM_CELLS
            invariant
                tokens@.len() == 81,
                i <= 81,
                num_empty as nat == count_zeros(cells@, i as int),
                num_empty <= i,
                forall|j: int| 0 <= j < i ==> digit_token(#[trigger] tokens@[j]@),
                forall|j: int| 0 <= j < i ==> #[trigger] cells@[j] == token_value(tokens@[j]@),
                forall|j: int| 0 <= j < 81 ==> #[trigger] cells@[j] <= 9,
            decreases 81 - i,
        {
            if !is_digit_token(&tokens[i]) {
                return Err(FormatError::BadToken { index: i });
            }
            let t = &tokens[i];
            let num = t[t.len() - 1] - ASCII_ZERO;
            proof {
                lemma_count_zeros_update(cells@, i as int + 1, i as int, num);
                lemma_count_zeros_prefix_update(cells@, i as int, i as int, num);
            }
            cells[i] = num;
            if num == 0 {
                num_empty = num_empty + 1;
            }
            i = i + 1;
        }
        Ok(Sudoku { cells, num_empty })
    }

    /// The 81 cells in row-major order.
    pub fn to_digits(&self) -> (r: Vec<u8>)
        requires
            self.wf(),
        ensures
            r@ == self@,
    {
        let mut out: Vec<u8> = Vec::new();
        let mut i: usize = 0;
        while i < NUM_CELLS
            invariant
                i <= 81,
                self@.len() == 81,
                out@ == self@.subrange(0, i as int),
            decreases 81 - i,
        {
            out.push(self.cells[i]);
            i = i + 1;
        }
        assert(out@ =~= self@);
        out
    }

    /// The board as nine lines of nine digits separated by spaces.
    pub fn render(&self) -> (r: Vec<u8>)
        requires
            self.wf(),
        ensures
            rendered(self@, r@),
    {
        let mut out: Vec<u8> = Vec::new();
        let mut row: usize = 0;
        while row < 9
            invariant
                self.wf(),
                row <= 9,
                out@.len() == 18 * row,
                forall|r: int, c: int| 0 <= r < row && in_range(c) ==> #[trigger] rendered_cell(self@, out@, r, c),
            decreases 9 - row,
        {
            let mut col: usize = 0;
            while col < 9
                invariant
                    self.wf(),
                    row < 9,
                    col <= 9,
                    out@.len() == 18 * row + 2 * col,
                    forall|r: int, c: int| ((0 <= r < row && in_range(c)) || (r == row && 0 <= c < col))
                        ==> #[trigger] rendered_cell(self@, out@, r, c),
                decreases 9 - col,
            {
                let d = self.cells[row * 9 + col];
                assert(d <= 9);
                let ghost prev = out@;
                out.push(d + ASCII_ZERO);
                if col == 8 {
                    out.push(ASCII_NEWLINE);
                } else {
                    out.push(ASCII_SPACE);
                }
                assert forall|r: int, c: int| ((0 <= r < row && in_range(c)) || (r == row && 0 <= c < col + 1))
                    implies #[trigger] rendered_cell(self@, out@, r, c) by {
                    if r == row && c == col {
                        assert(out@[18 * r + 2 * c] == d + ASCII_ZERO);
                    } else {
                        assert(rendered_cell(self@, prev, r, c));
                        assert(18 * r + 2 * c + 1 < prev.len());
                        assert(out@[18 * r + 2 * c] == prev[18 * r + 2 * c]);
                        assert(out@[18 * r + 2 * c + 1] == prev[18 * r + 2 * c + 1]);
                    }
                }
                col = col + 1;
            }
            row = row + 1;
        }
        out
    }

    /// The candidate digits of `(row, col)`: those that no peer holds.
    pub fn get_choices(&self, row: usize, col: usize) -> (r: Choices)
        requires
            self.wf(),
            row < 9,
            col < 9,
        ensures
            r.wf(),
            forall|d: int| #[trigger] r.has(d) <==> self.allowed(row as int, col as int, d),
    {
        let mut choices = Choices::new();
        let mut index: usize = 0;
        while index < MAX_DIGIT
            invariant
                self.wf(),
                row < 9,
                col < 9,
                index <= 9,
                choices.wf(),
                forall|d: int| #[trigger] choices.has(d) <==> (1 <= d <= 9 && forall|j: int|
                    0 <= j < index ==> self.cell(j, col as int) != d && self.cell(row as int, j) != d),
            decreases 9 - index,
        {
            let v1 = self.cells[index * 9 + col];
            let v2 = self.cells[row * 9 + index];
            assert(v1 as int == self.cell(index as int, col as int));
            assert(v2 as int == self.cell(row as int, index as int));
            choices.invalidate(v1 as usize);
            choices.invalidate(v2 as usize);
            index = index + 1;
        }
        let rc = (row / BOX_SIZE) * BOX_SIZE;
        let cc = (col / BOX_SIZE) * BOX_SIZE;
        let mut ri = rc;
        while ri < rc + BOX_SIZE
            invariant
                self.wf(),
                row < 9,
                col < 9,
                rc == (row / 3) * 3,
                cc == (col / 3) * 3,
                rc <= ri <= rc + 3,
                choices.wf(),
                forall|d: int| #[trigger] choices.has(d) <==> (1 <= d <= 9 && (forall|j: int|
                    0 <= j < 9 ==> self.cell(j, col as int) != d && self.cell(row as int, j) != d)
                    && forall|a: int, b: int| rc <= a < ri && cc <= b < cc + 3 ==> self.cell(a, b) != d),
            decreases rc + 3 - ri,
        {
            let mut ci = cc;
            while ci < cc + BOX_SIZE
                invariant
                    self.wf(),
                    row < 9,
                    col < 9,
                    rc == (row / 3) * 3,
                    cc == (col / 3) * 3,
                    rc <= ri < rc + 3,
                    cc <= ci <= cc + 3,
                    choices.wf(),
                    forall|d: int| #[trigger] choices.has(d) <==> (1 <= d <= 9 && (forall|j: int|
                        0 <= j < 9 ==> self.cell(j, col as int) != d && self.cell(row as int, j) != d)
                        && (forall|a: int, b: int| rc <= a < ri && cc <= b < cc + 3 ==> self.cell(a, b) != d)
                        && forall|b: int| cc <= b < ci ==> self.cell(ri as int, b) != d),
                decreases cc + 3 - ci,
            {
                let v = self.cells[ri * 9 + ci];
                assert(v as int == self.cell(ri as int, ci as int));
                choices.invalidate(v as usize);
                ci = ci + 1;
            }
            ri = ri + 1;
        }
        proof {
            assert forall|d: int| #[trigger] choices.has(d) <==> self.allowed(row as int, col as int, d) by {
                if choices.has(d) {
                    assert forall|r2: int, c2: int| in_range(r2) && in_range(c2) && peers(row as int, col as int, r2, c2)
                        implies #[trigger] self.cell(r2, c2) != d by {
                        if r2 == row {
                            assert(self.cell(row as int, c2) != d);
                        } else if c2 == col {
                            assert(self.cell(r2, col as int) != d);
                        } else {
                            assert(rc <= r2 < rc + 3 && cc <= c2 < cc + 3);
                        }
                    }
                }
                if self.allowed(row as int, col as int, d) {
                    assert forall|j: int| 0 <= j < 9 implies self.cell(j, col as int) != d
                        && self.cell(row as int, j) != d by {
                        assert(peers(row as int, col as int, j, col as int));
                        assert(peers(row as int, col as int, row as int, j));
                    }
                    assert forall|a: int, b: int| rc <= a < rc + 3 && cc <= b < cc + 3 implies self.cell(a, b) != d by {
                        assert(peers(row as int, col as int, a, b));
                    }
                }
            }
        }
        choices
    }
}

} // verus!
