//! The 9x9 grid: cell values, constraint queries, and mutation.

use vstd::prelude::*;
use vstd::string::StrSliceExecFns;
use vstd::string::StringExecFns;

verus! {

/// A Sudoku digit: one of the nine symbols 1 through 9. No other numeric
/// representation crosses the constraint-check boundary.
#[derive(Clone, Copy, Debug, PartialEq, Eq, PartialOrd, Ord, Structural)]
pub enum Number {
    N1,
    N2,
    N3,
    N4,
    N5,
    N6,
    N7,
    N8,
    N9,
}

/// The numeric value (1 through 9) that a digit stands for.
pub open spec fn num_val(n: Number) -> int {
    match n {
        Number::N1 => 1,
        Number::N2 => 2,
        Number::N3 => 3,
        Number::N4 => 4,
        Number::N5 => 5,
        Number::N6 => 6,
        Number::N7 => 7,
        Number::N8 => 8,
        Number::N9 => 9,
    }
}

/// The digit standing for a value in 1..=9 (out-of-range values map to 9).
pub open spec fn num_of_val(v: int) -> Number {
    if v == 1 {
        Number::N1
    } else if v == 2 {
        Number::N2
    } else if v == 3 {
        Number::N3
    } else if v == 4 {
        Number::N4
    } else if v == 5 {
        Number::N5
    } else if v == 6 {
        Number::N6
    } else if v == 7 {
        Number::N7
    } else if v == 8 {
        Number::N8
    } else {
        Number::N9
    }
}

impl Number {
    /// The digit for a value `v` in 1..=9.
    pub fn from_val(v: u8) -> (n: Number)
        requires
            1 <= v <= 9,
        ensures
            n == num_of_val(v as int),
    {
        match v {
            1 => Number::N1,
            2 => Number::N2,
            3 => Number::N3,
            4 => Number::N4,
            5 => Number::N5,
            6 => Number::N6,
            7 => Number::N7,
            8 => Number::N8,
            _ => Number::N9,
        }
    }

    /// The digit's decimal symbol, as a one-character string.
    pub fn symbol_str(&self) -> (s: &'static str)
        ensures
            s@ == seq![digit_char(*self)],
    {
        proof {
            reveal_strlit("1");
            reveal_strlit("2");
            reveal_strlit("3");
            reveal_strlit("4");
            reveal_strlit("5");
            reveal_strlit("6");
            reveal_strlit("7");
            reveal_strlit("8");
            reveal_strlit("9");
            assert("1"@ =~= seq!['1']);
            assert("2"@ =~= seq!['2']);
            assert("3"@ =~= seq!['3']);
            assert("4"@ =~= seq!['4']);
            assert("5"@ =~= seq!['5']);
            assert("6"@ =~= seq!['6']);
            assert("7"@ =~= seq!['7']);
            assert("8"@ =~= seq!['8']);
            assert("9"@ =~= seq!['9']);
        }
        match self {
            Number::N1 => "1",
            Number::N2 => "2",
            Number::N3 => "3",
            Number::N4 => "4",
            Number::N5 => "5",
            Number::N6 => "6",
            Number::N7 => "7",
            Number::N8 => "8",
            Number::N9 => "9",
        }
    }
}

/// The decimal symbol of a digit.
pub open spec fn digit_char(n: Number) -> char {
    match n {
        Number::N1 => '1',
        Number::N2 => '2',
        Number::N3 => '3',
        Number::N4 => '4',
        Number::N5 => '5',
        Number::N6 => '6',
        Number::N7 => '7',
        Number::N8 => '8',
        Number::N9 => '9',
    }
}

/// The digit a character denotes, if any: `Some` exactly for `1`..`9`.
pub open spec fn char_digit(ch: char) -> Option<Number> {
    if ch == '1' {
        Some(Number::N1)
    } else if ch == '2' {
        Some(Number::N2)
    } else if ch == '3' {
        Some(Number::N3)
    } else if ch == '4' {
        Some(Number::N4)
    } else if ch == '5' {
        Some(Number::N5)
    } else if ch == '6' {
        Some(Number::N6)
    } else if ch == '7' {
        Some(Number::N7)
    } else if ch == '8' {
        Some(Number::N8)
    } else if ch == '9' {
        Some(Number::N9)
    } else {
        None
    }
}

/// The digit a text token denotes: `Some` exactly for the nine
/// one-character tokens `1` through `9`; every other token denotes an
/// empty cell.
pub open spec fn token_digit(s: Seq<char>) -> Option<Number> {
    if s.len() == 1 {
        char_digit(s[0])
    } else {
        None
    }
}

/// Reads a whitespace-free input token as a cell value. Exactly the tokens
/// `1` through `9` set a cell; any other token leaves it empty.
pub fn parse_token(s: &str) -> (n: Option<Number>)
    ensures
        n == token_digit(s@),
{
    let len = s.unicode_len();
    if len != 1 {
        return None;
    }
    let ch = s.get_char(0);
    if ch == '1' {
        Some(Number::N1)
    } else if ch == '2' {
        Some(Number::N2)
    } else if ch == '3' {
        Some(Number::N3)
    } else if ch == '4' {
        Some(Number::N4)
    } else if ch == '5' {
        Some(Number::N5)
    } else if ch == '6' {
        Some(Number::N6)
    } else if ch == '7' {
        Some(Number::N7)
    } else if ch == '8' {
        Some(Number::N8)
    } else if ch == '9' {
        Some(Number::N9)
    } else {
        None
    }
}

/// True for a legal row or column index.
#[verifier::inline]
pub open spec fn in_range(r: int, c: int) -> bool {
    0 <= r < 9 && 0 <= c < 9
}

/// The cell at row `r`, column `c` of a grid stored in row-major order.
pub open spec fn cell(g: Seq<Option<Number>>, r: int, c: int) -> Option<Number> {
    g[r * 9 + c]
}

/// Digit `d` may be placed at `(r, c)`: it occurs nowhere in row `r`,
/// nowhere in column `c`, and nowhere in the 3x3 box containing `(r, c)`.
pub open spec fn can_place(g: Seq<Option<Number>>, r: int, c: int, d: Number) -> bool {
    &&& forall|c2: int| 0 <= c2 < 9 ==> cell(g, r, c2) != Some(d)
    &&& forall|r2: int| 0 <= r2 < 9 ==> cell(g, r2, c) != Some(d)
    &&& forall|r2: int, c2: int|
        3 * (r / 3) <= r2 < 3 * (r / 3) + 3 && 3 * (c / 3) <= c2 < 3 * (c / 3) + 3 ==> cell(
            g,
            r2,
            c2,
        ) != Some(d)
}

/// The symbol a cell renders as: its digit's decimal symbol, or the
/// placeholder `*` when the cell is empty.
pub open spec fn symbol(cv: Option<Number>) -> char {
    match cv {
        Some(n) => digit_char(n),
        None => '*',
    }
}

/// The text of the first `n` cells of row `r`: their symbols separated by
/// single spaces.
pub open spec fn row_chars(g: Seq<Option<Number>>, r: int, n: int) -> Seq<char>
    decreases n,
{
    if n <= 0 {
        Seq::empty()
    } else if n == 1 {
        seq![symbol(cell(g, r, 0))]
    } else {
        row_chars(g, r, n - 1) + seq![' ', symbol(cell(g, r, n - 1))]
    }
}

/// The rendered text of row `r`: its nine symbols separated by single
/// spaces.
pub open spec fn row_text(g: Seq<Option<Number>>, r: int) -> Seq<char> {
    row_chars(g, r, 9)
}

/// `(r1, c1)` and `(r2, c2)` lie in the same 3x3 box: one of the nine
/// non-overlapping 3x3 sub-grids partitioning the board.
pub open spec fn same_box(r1: int, c1: int, r2: int, c2: int) -> bool {
    r1 / 3 == r2 / 3 && c1 / 3 == c2 / 3
}

/// `(r1, c1)` and `(r2, c2)` share a row, a column, or a box.
pub open spec fn peers(r1: int, c1: int, r2: int, c2: int) -> bool {
    r1 == r2 || c1 == c2 || same_box(r1, c1, r2, c2)
}

/// The candidate digits for `(r, c)` among the first `n` digit values,
/// in increasing digit order.
pub open spec fn cands_upto(g: Seq<Option<Number>>, r: int, c: int, n: int) -> Seq<Number>
    decreases n,
{
    if n <= 0 {
        Seq::empty()
    } else if can_place(g, r, c, num_of_val(n)) {
        cands_upto(g, r, c, n - 1) + seq![num_of_val(n)]
    } else {
        cands_upto(g, r, c, n - 1)
    }
}

/// The full candidate list for `(r, c)`: every digit whose placement at
/// `(r, c)` violates no constraint, in increasing digit order.
pub open spec fn candidates(g: Seq<Option<Number>>, r: int, c: int) -> Seq<Number> {
    cands_upto(g, r, c, 9)
}

/// A 9x9 grid of optional digits, stored row-major. Copying a `Board`
/// duplicates the whole grid; copies share no state.
#[derive(Clone, Copy, Debug, PartialEq, Eq)]
pub struct Board {
    field: [Option<Number>; 81],
}

impl View for Board {
    type V = Seq<Option<Number>>;

    closed spec fn view(&self) -> Seq<Option<Number>> {
        self.field@
    }
}

impl Board {
    /// A board holding exactly the given cells.
    pub fn new(field: [Option<Number>; 81]) -> (b: Board)
        ensures
            b@ == field@,
    {
        Board { field }
    }

    /// Whether `number` may be placed at `(i, j)`: true exactly when the
    /// digit occurs nowhere in row `i`, column `j`, or the 3x3 box of
    /// `(i, j)`. All three regions are consulted.
    pub fn can_set(&self, i: usize, j: usize, number: Number) -> (r: bool)
        requires
            i < 9,
            j < 9,
        ensures
            r == can_place(self@, i as int, j as int, number),
    {
        let mut c: usize = 0;
        while c < 9
            invariant
                i < 9,
                j < 9,
                c <= 9,
                forall|c2: int| 0 <= c2 < c ==> cell(self@, i as int, c2) != Some(number),
            decreases 9 - c,
        {
            if let Some(x) = self.field[i * 9 + c] {
                if x == number {
                    assert(cell(self@, i as int, c as int) == Some(number));
                    return false;
                }
            }
            c += 1;
        }
        let mut r: usize = 0;
        while r < 9
            invariant
                i < 9,
                j < 9,
                r <= 9,
                forall|r2: int| 0 <= r2 < r ==> cell(self@, r2, j as int) != Some(number),
            decreases 9 - r,
        {
            if let Some(x) = self.field[r * 9 + j] {
                if x == number {
                    assert(cell(self@, r as int, j as int) == Some(number));
                    return false;
                }
            }
            r += 1;
        }
        let bi: usize = i / 3 * 3;
        let bj: usize = j / 3 * 3;
        let mut r: usize = bi;
        while r < bi + 3
            invariant
                i < 9,
                j < 9,
                bi == 3 * (i as int / 3),
                bj == 3 * (j as int / 3),
                bi <= r <= bi + 3,
                forall|r2: int, c2: int|
                    bi <= r2 < r && bj <= c2 < bj + 3 ==> cell(self@, r2, c2) != Some(number),
            decreases bi + 3 - r,
        {
            let mut c: usize = bj;
            while c < bj + 3
                invariant
                    i < 9,
                    j < 9,
                    bi == 3 * (i as int / 3),
                    bj == 3 * (j as int / 3),
                    bi <= r < bi + 3,
                    bj <= c <= bj + 3,
                    forall|r2: int, c2: int|
                        bi <= r2 < r && bj <= c2 < bj + 3 ==> cell(self@, r2, c2) != Some(number),
                    forall|c2: int| bj <= c2 < c ==> cell(self@, r as int, c2) != Some(number),
                decreases bj + 3 - c,
            {
                if let Some(x) = self.field[r * 9 + c] {
                    if x == number {
                        assert(cell(self@, r as int, c as int) == Some(number));
                        return false;
                    }
                }
                c += 1;
            }
            r += 1;
        }
        true
    }

    /// Sets the (empty) cell `(i, j)` to `number`. No constraint re-check:
    /// the caller must have validated the placement with `can_set`.
    pub fn set(&mut self, i: usize, j: usize, number: Number)
        requires
            i < 9,
            j < 9,
            cell(old(self)@, i as int, j as int) is None,
        ensures
            final(self)@ == old(self)@.update(i as int * 9 + j as int, Some(number)),
    {
        self.field[i * 9 + j] = Some(number);
    }

    /// Resets the cell `(i, j)` to empty, undoing a placement.
    pub fn reset(&mut self, i: usize, j: usize)
        requires
            i < 9,
            j < 9,
        ensures
            final(self)@ == old(self)@.update(i as int * 9 + j as int, None),
    {
        self.field[i * 9 + j] = None;
    }

    /// The most constrained empty cell and its candidate digits.
    ///
    /// Returns `None` exactly when the board is full. Otherwise returns the
    /// first empty cell, in row-major scan order, whose candidate count is
    /// minimal over all empty cells, together with its full candidate list
    /// in increasing digit order.
    pub fn find_empty(&self) -> (found: Option<(usize, usize, Vec<Number>)>)
        ensures
            match found {
                None => forall|r2: int, c2: int|
                    in_range(r2, c2) ==> cell(self@, r2, c2) is Some,
                Some((i, j, cands)) => {
                    &&& in_range(i as int, j as int)
                    &&& cell(self@, i as int, j as int) is None
                    &&& cands@ == candidates(self@, i as int, j as int)
                    &&& forall|r2: int, c2: int|
                        in_range(r2, c2) && cell(self@, r2, c2) is None ==> candidates(
                            self@,
                            r2,
                            c2,
                        ).len() >= cands@.len()
                    &&& forall|r2: int, c2: int|
                        in_range(r2, c2) && cell(self@, r2, c2) is None && r2 * 9 + c2 < i * 9
                            + j ==> candidates(self@, r2, c2).len() > cands@.len()
                },
            },
    {
        let mut max: usize = 10;
        let mut candidate: Option<(usize, usize, Vec<Number>)> = None;
        let mut k: usize = 0;
        while k < 81
            invariant
                k <= 81,
                candidate is None ==> max == 10,
                candidate is None ==> forall|r2: int, c2: int|
                    in_range(r2, c2) && r2 * 9 + c2 < k ==> cell(self@, r2, c2) is Some,
                candidate matches Some((bi, bj, bv)) ==> {
                    &&& bi < 9
                    &&& bj < 9
                    &&& bi * 9 + bj < k
                    &&& cell(self@, bi as int, bj as int) is None
                    &&& bv@ == candidates(self@, bi as int, bj as int)
                    &&& max == bv@.len()
                    &&& forall|r2: int, c2: int|
                        in_range(r2, c2) && cell(self@, r2, c2) is None && r2 * 9 + c2 < k
                            ==> candidates(self@, r2, c2).len() >= bv@.len()
                    &&& forall|r2: int, c2: int|
                        in_range(r2, c2) && cell(self@, r2, c2) is None && r2 * 9 + c2 < bi * 9
                            + bj ==> candidates(self@, r2, c2).len() > bv@.len()
                },
            decreases 81 - k,
        {
            let i = k / 9;
            let j = k % 9;
            assert(i < 9 && j < 9 && k == i * 9 + j);
            if self.field[k].is_none() {
                assert(cell(self@, i as int, j as int) is None);
                let mut numbers: Vec<Number> = Vec::new();
                let mut v: u8 = 1;
                while v <= 9
                    invariant
                        i < 9,
                        j < 9,
                        1 <= v <= 10,
                        numbers@ == cands_upto(self@, i as int, j as int, v - 1),
                    decreases 10 - v,
                {
                    let number = Number::from_val(v);
                    if self.can_set(i, j, number) {
                        numbers.push(number);
                        assert(numbers@ =~= cands_upto(self@, i as int, j as int, v as int));
                    }
                    v += 1;
                }
                assert(numbers@ == candidates(self@, i as int, j as int));
                proof {
                    lemma_cands_len(self@, i as int, j as int, 9);
                }
                if numbers.len() < max {
                    max = numbers.len();
                    candidate = Some((i, j, numbers));
                }
            }
            k += 1;
        }
        candidate
    }

    /// The board's state as text: nine rows, each holding its nine cell
    /// symbols separated by single spaces. This is the only way the board
    /// becomes externally observable text.
    pub fn render(&self) -> (lines: Vec<String>)
        ensures
            lines@.len() == 9,
            forall|r: int| 0 <= r < 9 ==> #[trigger] lines@[r]@ == row_text(self@, r),
    {
        let mut lines: Vec<String> = Vec::new();
        let mut r: usize = 0;
        while r < 9
            invariant
                r <= 9,
                lines@.len() == r,
                forall|r2: int| 0 <= r2 < r ==> #[trigger] lines@[r2]@ == row_text(self@, r2),
            decreases 9 - r,
        {
            let mut line = String::new();
            let mut c: usize = 0;
            while c < 9
                invariant
                    r < 9,
                    c <= 9,
                    line@ == row_chars(self@, r as int, c as int),
                decreases 9 - c,
            {
                if c > 0 {
                    proof {
                        reveal_strlit(" ");
                        assert(" "@ =~= seq![' ']);
                    }
                    line.append(" ");
                }
                match self.field[r * 9 + c] {
                    Some(n) => {
                        assert(cell(self@, r as int, c as int) == Some(n));
                        line.append(n.symbol_str());
                    },
                    None => {
                        assert(cell(self@, r as int, c as int) is None);
                        proof {
                            reveal_strlit("*");
                            assert("*"@ =~= seq!['*']);
                        }
                        line.append("*");
                    },
                }
                proof {
                    assert(line@ =~= row_chars(self@, r as int, c as int + 1));
                }
                c += 1;
            }
            lines.push(line);
            r += 1;
        }
        lines
    }
}

/// A board's view always has exactly 81 cells.
pub broadcast proof fn lemma_board_len(b: Board)
    ensures
        (#[trigger] b@).len() == 81,
{
}

/// Every candidate list over the first `n` digit values has at most `n`
/// entries.
proof fn lemma_cands_len(g: Seq<Option<Number>>, r: int, c: int, n: int)
    ensures
        n >= 0 ==> cands_upto(g, r, c, n).len() <= n,
    decreases n,
{
    if n > 0 {
        lemma_cands_len(g, r, c, n - 1);
    }
}

/// On a grid with every cell empty, every digit may be placed at every
/// cell: the constraints are vacuous.
pub proof fn lemma_empty_grid_can_place(g: Seq<Option<Number>>, r: int, c: int, d: Number)
    requires
        g.len() == 81,
        forall|k: int| 0 <= k < 81 ==> g[k] is None,
        in_range(r, c),
    ensures
        can_place(g, r, c, d),
{
}

/// Once `(r, c)` holds `d`, the digit `d` may no longer be placed at any
/// other cell of the same row, the same column, or the same 3x3 box.
pub proof fn lemma_place_excludes(g: Seq<Option<Number>>, r: int, c: int, d: Number)
    requires
        g.len() == 81,
        in_range(r, c),
        cell(g, r, c) == Some(d),
    ensures
        forall|c2: int| 0 <= c2 < 9 && c2 != c ==> !can_place(g, r, c2, d),
        forall|r2: int| 0 <= r2 < 9 && r2 != r ==> !can_place(g, r2, c, d),
        forall|r2: int, c2: int|
            in_range(r2, c2) && same_box(r, c, r2, c2) && !(r2 == r && c2 == c) ==> !can_place(
                g,
                r2,
                c2,
                d,
            ),
{
    assert forall|c2: int| 0 <= c2 < 9 && c2 != c implies !can_place(g, r, c2, d) by {
        if can_place(g, r, c2, d) {
            assert(cell(g, r, c) != Some(d));
        }
    }
    assert forall|r2: int| 0 <= r2 < 9 && r2 != r implies !can_place(g, r2, c, d) by {
        if can_place(g, r2, c, d) {
            assert(cell(g, r, c) != Some(d));
        }
    }
    assert forall|r2: int, c2: int|
        in_range(r2, c2) && same_box(r, c, r2, c2) && !(r2 == r && c2
            == c) implies !can_place(g, r2, c2, d) by {
        if can_place(g, r2, c2, d) {
            assert(3 * (r2 / 3) <= r < 3 * (r2 / 3) + 3);
            assert(3 * (c2 / 3) <= c < 3 * (c2 / 3) + 3);
            assert(cell(g, r, c) != Some(d));
        }
    }
}

/// Placing a digit on an empty cell and then clearing that cell restores
/// the grid, and with it every `can_place` answer, exactly.
pub proof fn lemma_place_clear_restores(g: Seq<Option<Number>>, r: int, c: int, d: Number)
    requires
        g.len() == 81,
        in_range(r, c),
        cell(g, r, c) is None,
    ensures
        g.update(r * 9 + c, Some(d)).update(r * 9 + c, None) == g,
        forall|r2: int, c2: int, d2: Number|
            in_range(r2, c2) ==> can_place(
                g.update(r * 9 + c, Some(d)).update(r * 9 + c, None),
                r2,
                c2,
                d2,
            ) == can_place(g, r2, c2, d2),
{
    assert(g.update(r * 9 + c, Some(d)).update(r * 9 + c, None) =~= g);
}

} // verus!

