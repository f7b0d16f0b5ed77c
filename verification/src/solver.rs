//! Depth-first backtracking search over a board.
//!
//! The solver enumerates every completion of a partial grid: every full
//! assignment that keeps each originally filled cell and places each
//! remaining digit without duplicating it in its row, column, or box.

use vstd::prelude::*;
use crate::board::{
    Board, Number, candidates, can_place, cell, in_range, lemma_board_len, num_val, num_of_val,
    cands_upto, same_box, peers,
};

verus! {

broadcast use lemma_board_len;

/// If `(r, c)` is filled, no other cell sharing its row, column, or box
/// holds the same digit.
pub open spec fn cell_consistent(g: Seq<Option<Number>>, r: int, c: int) -> bool {
    cell(g, r, c) is Some ==> forall|r2: int, c2: int|
        in_range(r2, c2) && peers(r, c, r2, c2) && !(r2 == r && c2 == c) ==> #[trigger] cell(
            g,
            r2,
            c2,
        ) != cell(g, r, c)
}

/// No two filled cells sharing a row, column, or box hold the same digit.
pub open spec fn grid_consistent(g: Seq<Option<Number>>) -> bool {
    forall|r: int, c: int| in_range(r, c) ==> cell_consistent(g, r, c)
}

/// Every cell of the grid is filled.
pub open spec fn is_full(g: Seq<Option<Number>>) -> bool {
    forall|r: int, c: int| in_range(r, c) ==> cell(g, r, c) is Some
}

/// `f` agrees with `g` on every cell that is filled in `g`.
pub open spec fn extends(f: Seq<Option<Number>>, g: Seq<Option<Number>>) -> bool {
    forall|r: int, c: int|
        in_range(r, c) && #[trigger] cell(g, r, c) is Some ==> #[trigger] cell(f, r, c) == cell(
            g,
            r,
            c,
        )
}

/// `f` is a completion of the partial grid `g`: a full 81-cell grid that
/// keeps every filled cell of `g` and whose newly filled cells each respect
/// the row, column, and box constraints.
pub open spec fn is_completion(f: Seq<Option<Number>>, g: Seq<Option<Number>>) -> bool {
    &&& f.len() == 81
    &&& is_full(f)
    &&& extends(f, g)
    &&& forall|r: int, c: int|
        in_range(r, c) && cell(g, r, c) is None ==> #[trigger] cell_consistent(f, r, c)
}

/// The number of empty cells among the first `k` entries of the grid.
pub open spec fn empties_upto(g: Seq<Option<Number>>, k: int) -> nat
    decreases k,
{
    if k <= 0 {
        0
    } else if g[k - 1] is None {
        empties_upto(g, k - 1) + 1
    } else {
        empties_upto(g, k - 1)
    }
}

/// The number of empty cells of the grid.
pub open spec fn num_empty(g: Seq<Option<Number>>) -> nat {
    empties_upto(g, 81)
}

/// Filling one empty cell lowers the empty-cell count by exactly one.
proof fn lemma_empties_upto_fill(g: Seq<Option<Number>>, idx: int, d: Number, k: int)
    requires
        g.len() == 81,
        0 <= idx < 81,
        g[idx] is None,
        0 <= k <= 81,
    ensures
        empties_upto(g.update(idx, Some(d)), k) + (if idx < k {
            1int
        } else {
            0int
        }) == empties_upto(g, k),
    decreases k,
{
    if k > 0 {
        lemma_empties_upto_fill(g, idx, d, k - 1);
    }
}

/// Filling the empty cell `(i, j)` lowers the empty-cell count by one.
proof fn lemma_num_empty_fill(g: Seq<Option<Number>>, i: int, j: int, d: Number)
    requires
        g.len() == 81,
        in_range(i, j),
        cell(g, i, j) is None,
    ensures
        num_empty(g.update(i * 9 + j, Some(d))) + 1 == num_empty(g),
{
    lemma_empties_upto_fill(g, i * 9 + j, d, 81);
}

/// Every digit of a candidate list may be placed at the cell, and every
/// digit that may be placed there occurs in the list.
proof fn lemma_cands_exact(g: Seq<Option<Number>>, r: int, c: int, n: int)
    requires
        0 <= n <= 9,
    ensures
        forall|t: int| 0 <= t < cands_upto(g, r, c, n).len() ==> can_place(
            g,
            r,
            c,
            #[trigger] cands_upto(g, r, c, n)[t],
        ),
        forall|d: Number| can_place(g, r, c, d) && num_val(d) <= n ==> #[trigger] cands_upto(
            g,
            r,
            c,
            n,
        ).contains(d),
    decreases n,
{
    assert forall|d: Number| num_of_val(num_val(d)) == d && 1 <= num_val(d) <= 9 by {}
    if n > 0 {
        lemma_cands_exact(g, r, c, n - 1);
        let prev = cands_upto(g, r, c, n - 1);
        let cur = cands_upto(g, r, c, n);
        assert forall|d: Number| can_place(g, r, c, d) && num_val(d) <= n implies #[trigger] cur
            .contains(d) by {
            if num_val(d) <= n - 1 {
                assert(prev.contains(d));
                let t = choose|t: int| 0 <= t < prev.len() && prev[t] == d;
                assert(cur[t] == prev[t]);
                assert(cur.contains(d));
            } else {
                assert(num_val(d) == n);
                assert(num_of_val(n) == d);
                assert(can_place(g, r, c, num_of_val(n)));
                assert(cur == prev + seq![num_of_val(n)]);
                assert(cur[prev.len() as int] == d);
                assert(cur.contains(d));
            }
        }
    }
}

/// A completion places, at each cell that the partial grid leaves empty, a
/// digit that the partial grid allows there.
proof fn lemma_completion_can_place(
    f: Seq<Option<Number>>,
    g: Seq<Option<Number>>,
    r: int,
    c: int,
    d: Number,
)
    requires
        g.len() == 81,
        in_range(r, c),
        cell(g, r, c) is None,
        is_completion(f, g),
        cell(f, r, c) == Some(d),
    ensures
        can_place(g, r, c, d),
{
    assert(cell_consistent(f, r, c));
    assert forall|c2: int| 0 <= c2 < 9 implies cell(g, r, c2) != Some(d) by {
        if cell(g, r, c2) == Some(d) {
            assert(cell(f, r, c2) == Some(d));
            assert(cell(f, r, c2) != cell(f, r, c));
        }
    }
    assert forall|r2: int| 0 <= r2 < 9 implies cell(g, r2, c) != Some(d) by {
        if cell(g, r2, c) == Some(d) {
            assert(cell(f, r2, c) == Some(d));
            assert(cell(f, r2, c) != cell(f, r, c));
        }
    }
    assert forall|r2: int, c2: int|
        3 * (r / 3) <= r2 < 3 * (r / 3) + 3 && 3 * (c / 3) <= c2 < 3 * (c / 3)
            + 3 implies cell(g, r2, c2) != Some(d) by {
        if cell(g, r2, c2) == Some(d) {
            assert(in_range(r2, c2));
            assert(same_box(r, c, r2, c2));
            assert(cell(f, r2, c2) == Some(d));
            assert(cell(f, r2, c2) != cell(f, r, c));
        }
    }
}

/// A completion of `g` that places `d` at the empty cell `(i, j)` is also a
/// completion of `g` with `d` already placed there.
proof fn lemma_completion_after_place(
    f: Seq<Option<Number>>,
    g: Seq<Option<Number>>,
    i: int,
    j: int,
    d: Number,
)
    requires
        g.len() == 81,
        in_range(i, j),
        cell(g, i, j) is None,
        is_completion(f, g),
        cell(f, i, j) == Some(d),
    ensures
        is_completion(f, g.update(i * 9 + j, Some(d))),
{
    let g2 = g.update(i * 9 + j, Some(d));
    assert forall|r: int, c: int|
        in_range(r, c) && cell(g2, r, c) is Some implies cell(f, r, c) == cell(g2, r, c) by {
        if r == i && c == j {
            assert(cell(g2, r, c) == Some(d));
        } else {
            assert(cell(g2, r, c) == cell(g, r, c));
        }
    }
    assert forall|r: int, c: int|
        in_range(r, c) && cell(g2, r, c) is None implies #[trigger] cell_consistent(f, r, c) by {
        assert(cell(g, r, c) is None);
    }
}

/// Conversely, a completion of `g` with an allowed digit `d` placed at the
/// empty cell `(i, j)` is a completion of `g` itself, and holds `d` there.
proof fn lemma_completion_before_place(
    f: Seq<Option<Number>>,
    g: Seq<Option<Number>>,
    i: int,
    j: int,
    d: Number,
)
    requires
        g.len() == 81,
        in_range(i, j),
        cell(g, i, j) is None,
        can_place(g, i, j, d),
        is_completion(f, g.update(i * 9 + j, Some(d))),
    ensures
        is_completion(f, g),
        cell(f, i, j) == Some(d),
{
    let g2 = g.update(i * 9 + j, Some(d));
    assert(cell(g2, i, j) == Some(d));
    assert(cell(f, i, j) == Some(d));
    assert forall|r: int, c: int|
        in_range(r, c) && cell(g, r, c) is Some implies cell(f, r, c) == cell(g, r, c) by {
        assert(cell(g2, r, c) == cell(g, r, c));
    }
    assert forall|r: int, c: int|
        in_range(r, c) && cell(g, r, c) is None implies #[trigger] cell_consistent(f, r, c) by {
        if r == i && c == j {
            assert forall|r2: int, c2: int|
                in_range(r2, c2) && peers(i, j, r2, c2) && !(r2 == i && c2 == j) implies cell(
                f,
                r2,
                c2,
            ) != cell(f, i, j) by {
                if cell(g, r2, c2) is Some {
                    assert(cell(f, r2, c2) == cell(g, r2, c2));
                    if cell(g, r2, c2) == Some(d) {
                        if r2 == i {
                            assert(cell(g, i, c2) != Some(d));
                        } else if c2 == j {
                            assert(cell(g, r2, j) != Some(d));
                        } else {
                            assert(same_box(i, j, r2, c2));
                            assert(3 * (i / 3) <= r2 < 3 * (i / 3) + 3);
                            assert(3 * (j / 3) <= c2 < 3 * (j / 3) + 3);
                            assert(cell(g, r2, c2) != Some(d));
                        }
                    }
                } else {
                    assert(cell(g2, r2, c2) is None);
                    assert(cell_consistent(f, r2, c2));
                    assert(cell(f, r2, c2) != cell(f, i, j));
                }
            }
        } else {
            assert(cell(g2, r, c) is None);
        }
    }
}

/// `sols` holds, at or after index `lo`, a board whose grid is `f`.
pub open spec fn emitted(sols: Seq<Board>, lo: int, f: Seq<Option<Number>>) -> bool {
    exists|m: int| lo <= m < sols.len() && sols[m]@ == f
}

/// A full grid is its own sole completion.
proof fn lemma_full_completion(g: Seq<Option<Number>>)
    requires
        g.len() == 81,
        is_full(g),
    ensures
        is_completion(g, g),
        forall|f: Seq<Option<Number>>| is_completion(f, g) ==> f == g,
{
    assert forall|f: Seq<Option<Number>>| is_completion(f, g) implies f == g by {
        assert forall|k: int| 0 <= k < 81 implies f[k] == g[k] by {
            let r = k / 9;
            let c = k % 9;
            assert(k == r * 9 + c && in_range(r, c));
            assert(cell(g, r, c) is Some);
            assert(cell(f, r, c) == cell(g, r, c));
        }
        assert(f =~= g);
    }
}

/// A completion of a consistent grid is consistent throughout: no digit is
/// duplicated within any row, column, or 3x3 box of the full grid.
pub proof fn lemma_completion_consistent(f: Seq<Option<Number>>, g: Seq<Option<Number>>)
    requires
        g.len() == 81,
        grid_consistent(g),
        is_completion(f, g),
    ensures
        grid_consistent(f),
{
    assert forall|r: int, c: int| in_range(r, c) implies #[trigger] cell_consistent(f, r, c) by {
        if cell(g, r, c) is None {
            assert(cell_consistent(f, r, c));
        } else {
            assert(cell(f, r, c) == cell(g, r, c));
            assert forall|r2: int, c2: int|
                in_range(r2, c2) && peers(r, c, r2, c2) && !(r2 == r && c2
                    == c) implies #[trigger] cell(f, r2, c2) != cell(f, r, c) by {
                if cell(g, r2, c2) is Some {
                    assert(cell(f, r2, c2) == cell(g, r2, c2));
                    assert(cell_consistent(g, r, c));
                    assert(cell(g, r2, c2) != cell(g, r, c));
                } else {
                    assert(cell_consistent(f, r2, c2));
                    assert(cell(f, r2, c2) is Some);
                    assert(peers(r2, c2, r, c));
                    assert(cell(f, r, c) != cell(f, r2, c2));
                }
            }
        }
    }
}

/// The digit value that one fixed valid full grid holds at `(r, c)`.
spec fn pattern_val(r: int, c: int) -> int {
    (3 * r + r / 3 + c) % 9 + 1
}

/// A fixed full grid built from `pattern_val`: a witness that valid full
/// grids exist.
spec fn pattern_grid() -> Seq<Option<Number>> {
    Seq::new(81, |k: int| Some(num_of_val(pattern_val(k / 9, k % 9))))
}

/// Two distinct cells sharing a row, column, or box hold distinct values
/// of the pattern.
proof fn lemma_pattern_distinct(r: int, c: int, r2: int, c2: int)
    requires
        in_range(r, c),
        in_range(r2, c2),
        peers(r, c, r2, c2),
        !(r2 == r && c2 == c),
    ensures
        pattern_val(r, c) != pattern_val(r2, c2),
{
    let a = 3 * r + r / 3 + c;
    let b = 3 * r2 + r2 / 3 + c2;
    if pattern_val(r, c) == pattern_val(r2, c2) {
        assert(a % 9 == b % 9);
        assert(a == 9 * (a / 9) + a % 9);
        assert(b == 9 * (b / 9) + b % 9);
        let k = a / 9 - b / 9;
        assert(a - b == 9 * k);
        if r == r2 {
            assert(a - b == c - c2);
            assert(c == c2);
            assert(false);
        } else if c == c2 {
            let e = r / 3 - r2 / 3;
            assert(3 * (r - r2) + e == 9 * k);
            assert(e == 3 * (3 * k - (r - r2)));
            assert(r == 3 * (r / 3) + r % 3 && 0 <= r % 3 < 3);
            assert(r2 == 3 * (r2 / 3) + r2 % 3 && 0 <= r2 % 3 < 3);
            assert(-2 <= e <= 2);
            assert(e == 0);
            assert(r - r2 == 3 * k);
            assert(r / 3 == r2 / 3);
            assert(-2 <= r - r2 <= 2);
            assert(k == 0);
            assert(false);
        } else {
            assert(same_box(r, c, r2, c2));
            assert(r / 3 == r2 / 3 && c / 3 == c2 / 3);
            assert(a - b == 3 * (r - r2) + (c - c2));
            assert(r == 3 * (r / 3) + r % 3 && 0 <= r % 3 < 3);
            assert(r2 == 3 * (r2 / 3) + r2 % 3 && 0 <= r2 % 3 < 3);
            assert(c == 3 * (c / 3) + c % 3 && 0 <= c % 3 < 3);
            assert(c2 == 3 * (c2 / 3) + c2 % 3 && 0 <= c2 % 3 < 3);
            assert(-8 <= a - b <= 8);
            assert(a - b == 0);
            assert(3 * (r - r2) == c2 - c);
            assert(-2 <= c2 - c <= 2);
            assert(r == r2 && c == c2);
            assert(false);
        }
    }
}

/// A grid with every cell empty has at least one completion, and that
/// completion is a fully consistent Sudoku grid.
pub proof fn lemma_empty_grid_has_completion(g: Seq<Option<Number>>)
    requires
        g.len() == 81,
        forall|k: int| 0 <= k < 81 ==> g[k] is None,
    ensures
        exists|f: Seq<Option<Number>>| #[trigger] is_completion(f, g) && grid_consistent(f),
{
    let f = pattern_grid();
    assert forall|r: int, c: int|
        in_range(r, c) implies #[trigger] cell(f, r, c) == Some(
        num_of_val(pattern_val(r, c)),
    ) by {
        assert((r * 9 + c) / 9 == r);
        assert((r * 9 + c) % 9 == c);
    }
    assert forall|r: int, c: int| in_range(r, c) implies #[trigger] cell_consistent(f, r, c) by {
        assert forall|r2: int, c2: int|
            in_range(r2, c2) && peers(r, c, r2, c2) && !(r2 == r && c2 == c) implies #[trigger] cell(
            f,
            r2,
            c2,
        ) != cell(f, r, c) by {
            lemma_pattern_distinct(r, c, r2, c2);
            assert(1 <= pattern_val(r, c) <= 9);
            assert(1 <= pattern_val(r2, c2) <= 9);
            assert(num_of_val(pattern_val(r, c)) != num_of_val(pattern_val(r2, c2)));
        }
    }
    assert(is_completion(f, g) && grid_consistent(f));
}

/// An empty cell with no candidate digits admits no completion: placing any
/// digit there would duplicate one already in its row, column, or box.
pub proof fn lemma_no_candidates_no_completion(g: Seq<Option<Number>>, r: int, c: int)
    requires
        g.len() == 81,
        in_range(r, c),
        cell(g, r, c) is None,
        candidates(g, r, c).len() == 0,
    ensures
        forall|f: Seq<Option<Number>>| !is_completion(f, g),
{
    assert forall|f: Seq<Option<Number>>| !is_completion(f, g) by {
        if is_completion(f, g) {
            assert(cell(f, r, c) is Some);
            let d = cell(f, r, c)->0;
            assert(cell(f, r, c) == Some(d));
            lemma_completion_can_place(f, g, r, c, d);
            assert(1 <= num_val(d) <= 9);
            lemma_cands_exact(g, r, c, 9);
            assert(candidates(g, r, c).contains(d));
            assert(false);
        }
    }
}

/// Explores every extension of the current board depth-first, appending a
/// copy of the board to `solution` at each full assignment reached.
///
/// The board is returned exactly as it was; the previously collected
/// solutions are kept in place; every appended board is a completion of the
/// board as given; and every completion of the board as given is appended.
pub fn solve_helper(board: &mut Board, solution: &mut Vec<Board>)
    ensures
        final(board)@ == old(board)@,
        final(solution)@.len() >= old(solution)@.len(),
        forall|m: int|
            0 <= m < old(solution)@.len() ==> final(solution)@[m] == old(solution)@[m],
        forall|m: int|
            old(solution)@.len() <= m < final(solution)@.len() ==> is_completion(
                #[trigger] final(solution)@[m]@,
                old(board)@,
            ),
        forall|f: Seq<Option<Number>>|
            #[trigger] is_completion(f, old(board)@) ==> emitted(
                final(solution)@,
                old(solution)@.len() as int,
                f,
            ),
        is_full(old(board)@) ==> final(solution)@.len() == old(solution)@.len() + 1,
    decreases num_empty(old(board)@),
{
    let ghost g0 = board@;
    let ghost sols0 = solution@;
    let found = board.find_empty();
    match found {
        None => {
            proof {
                lemma_full_completion(g0);
            }
            solution.push(*board);
            proof {
                assert(solution@[sols0.len() as int]@ == g0);
                assert forall|f: Seq<Option<Number>>|
                    #[trigger] is_completion(f, g0) implies emitted(
                    solution@,
                    sols0.len() as int,
                    f,
                ) by {
                    assert(f == g0);
                }
            }
        },
        Some((i, j, numbers)) => {
            let mut k: usize = 0;
            while k < numbers.len()
                invariant
                    g0 == old(board)@,
                    sols0 == old(solution)@,
                    i < 9,
                    j < 9,
                    cell(g0, i as int, j as int) is None,
                    numbers@ == candidates(g0, i as int, j as int),
                    board@ == g0,
                    k <= numbers.len(),
                    solution@.len() >= sols0.len(),
                    forall|m: int| 0 <= m < sols0.len() ==> solution@[m] == sols0[m],
                    forall|m: int|
                        sols0.len() <= m < solution@.len() ==> is_completion(
                            #[trigger] solution@[m]@,
                            g0,
                        ),
                    forall|f: Seq<Option<Number>>, t: int|
                        #![trigger is_completion(f, g0), numbers@[t]]
                        is_completion(f, g0) && 0 <= t < k && cell(f, i as int, j as int) == Some(
                            numbers@[t],
                        ) ==> emitted(solution@, sols0.len() as int, f),
                decreases numbers@.len() - k,
            {
                let d = numbers[k];
                proof {
                    lemma_cands_exact(g0, i as int, j as int, 9);
                    assert(can_place(g0, i as int, j as int, d));
                    lemma_num_empty_fill(g0, i as int, j as int, d);
                }
                board.set(i, j, d);
                let ghost g1 = board@;
                let ghost sols_a = solution@;
                solve_helper(board, solution);
                board.reset(i, j);
                proof {
                    assert(board@ =~= g0);
                    assert forall|m: int|
                        sols0.len() <= m < solution@.len() implies is_completion(
                        #[trigger] solution@[m]@,
                        g0,
                    ) by {
                        if m < sols_a.len() {
                            assert(solution@[m] == sols_a[m]);
                            assert(is_completion(sols_a[m]@, g0));
                        } else {
                            assert(is_completion(solution@[m]@, g1));
                            lemma_completion_before_place(
                                solution@[m]@,
                                g0,
                                i as int,
                                j as int,
                                d,
                            );
                        }
                    }
                    assert forall|f: Seq<Option<Number>>, t: int|
                        #![trigger is_completion(f, g0), numbers@[t]]
                        is_completion(f, g0) && 0 <= t < k + 1 && cell(f, i as int, j as int)
                            == Some(numbers@[t]) implies emitted(
                        solution@,
                        sols0.len() as int,
                        f,
                    ) by {
                        if t < k {
                            assert(emitted(sols_a, sols0.len() as int, f));
                            let m = choose|m: int|
                                sols0.len() <= m < sols_a.len() && sols_a[m]@ == f;
                            assert(solution@[m] == sols_a[m]);
                            assert(solution@[m]@ == f);
                        } else {
                            assert(cell(f, i as int, j as int) == Some(d));
                            lemma_completion_after_place(f, g0, i as int, j as int, d);
                            assert(is_completion(f, g1));
                            assert(emitted(solution@, sols_a.len() as int, f));
                            let m = choose|m: int|
                                sols_a.len() <= m < solution@.len() && solution@[m]@ == f;
                            assert(sols0.len() <= m);
                        }
                    }
                }
                k += 1;
            }
            proof {
                assert(!is_full(g0));
                lemma_cands_exact(g0, i as int, j as int, 9);
                assert forall|f: Seq<Option<Number>>|
                    #[trigger] is_completion(f, g0) implies emitted(
                    solution@,
                    sols0.len() as int,
                    f,
                ) by {
                    assert(cell(f, i as int, j as int) is Some);
                    let df = cell(f, i as int, j as int)->0;
                    assert(cell(f, i as int, j as int) == Some(df));
                    lemma_completion_can_place(f, g0, i as int, j as int, df);
                    assert(1 <= num_val(df) <= 9);
                    assert(candidates(g0, i as int, j as int).contains(df));
                    let t = choose|t: int| 0 <= t < numbers@.len() && numbers@[t] == df;
                    assert(cell(f, i as int, j as int) == Some(numbers@[t]));
                }
            }
        },
    }
}

/// Collects every completion of `board`, in depth-first discovery order,
/// and leaves the board exactly as it was given.
pub fn solve(board: &mut Board) -> (solution: Vec<Board>)
    ensures
        final(board)@ == old(board)@,
        forall|m: int|
            0 <= m < solution@.len() ==> is_completion(#[trigger] solution@[m]@, old(board)@),
        forall|f: Seq<Option<Number>>|
            #[trigger] is_completion(f, old(board)@) ==> emitted(solution@, 0, f),
        is_full(old(board)@) ==> solution@.len() == 1 && solution@[0]@ == old(board)@,
        forall|r: int, c: int|
            in_range(r, c) && cell(old(board)@, r, c) is None && #[trigger] candidates(
                old(board)@,
                r,
                c,
            ).len() == 0 ==> solution@.len() == 0,
        grid_consistent(old(board)@) ==> forall|m: int|
            0 <= m < solution@.len() ==> grid_consistent(#[trigger] solution@[m]@),
        (forall|k: int| 0 <= k < 81 ==> old(board)@[k] is None) ==> solution@.len() >= 1,
{
    let ghost g0 = board@;
    let mut solution: Vec<Board> = Vec::new();
    solve_helper(board, &mut solution);
    proof {
        if is_full(g0) {
            lemma_full_completion(g0);
            assert(solution@[0]@ == g0);
        }
        if grid_consistent(g0) {
            assert forall|m: int|
                0 <= m < solution@.len() implies grid_consistent(#[trigger] solution@[m]@) by {
                lemma_completion_consistent(solution@[m]@, g0);
            }
        }
        if forall|k: int| 0 <= k < 81 ==> g0[k] is None {
            lemma_empty_grid_has_completion(g0);
            let f = choose|f: Seq<Option<Number>>| is_completion(f, g0) && grid_consistent(f);
            assert(emitted(solution@, 0, f));
        }
        assert forall|r: int, c: int|
            in_range(r, c) && cell(g0, r, c) is None && #[trigger] candidates(g0, r, c).len()
                == 0 implies solution@.len() == 0 by {
            lemma_no_candidates_no_completion(g0, r, c);
            if solution@.len() > 0 {
                assert(is_completion(solution@[0]@, g0));
            }
        }
    }
    solution
}

} // verus!
