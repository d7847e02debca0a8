//! Exhaustive backtracking over the empty cells: the uniqueness oracle and the
//! randomised filling of a board.
use vstd::prelude::*;
use crate::random::{lists_digit, shuffled_digits};
use crate::board::{
    agree_except, consistent, digit_or_empty, extends, full, grid_consistent, is_solution, is_valid_placement,
    lemma_grid_ext, lemma_legal_keeps_consistent, on_board, placement_legal, same_unit, solvable,
    ambiguous, uniquely_solvable, well_formed, Grid,
};

verus! {

/// Every cell before flat position `p` (row-major) is filled.
pub open spec fn filled_before(g: Grid, p: int) -> bool {
    forall|q: int| 0 <= q < p ==> (#[trigger] g[q / 9][q % 9]) is Some
}

/// The solution's digit at (r, c) is below `k`.
pub open spec fn digit_below(s: Grid, r: int, c: int, k: int) -> bool {
    s[r][c] is Some && s[r][c]->0 < k
}

/// Some solution of `g` has a digit below `k` at (r, c).
pub open spec fn solvable_below(g: Grid, r: int, c: int, k: int) -> bool {
    exists|s: Grid| is_solution(s, g) && #[trigger] digit_below(s, r, c, k)
}

/// Two different solutions of `g` have a digit below `k` at (r, c).
pub open spec fn ambiguous_below(g: Grid, r: int, c: int, k: int) -> bool {
    exists|s: Grid, t: Grid|
        is_solution(s, g) && is_solution(t, g) && s != t && #[trigger] digit_below(s, r, c, k)
            && #[trigger] digit_below(t, r, c, k)
}

/// The solution counter after meeting one more solution set, saturating at two:
/// `some` says the set is not empty, `several` that it holds two or more.
pub open spec fn tally(count: int, some: bool, several: bool) -> int {
    if count >= 2 {
        count
    } else if several {
        2
    } else if some {
        count + 1
    } else {
        count
    }
}

/// A full, well-formed, consistent board is its own and only solution.
pub proof fn lemma_full_board(g: Grid)
    requires
        well_formed(g),
        consistent(g),
        full(g),
    ensures
        is_solution(g, g),
        forall|s: Grid| is_solution(s, g) ==> s == g,
{
    assert forall|s: Grid| is_solution(s, g) implies s == g by {
        assert forall|r: int, c: int| on_board(r, c) implies #[trigger] s[r][c] == g[r][c] by {
            assert(g[r][c] is Some);
        }
        lemma_grid_ext(s, g);
    }
}

/// Filling an empty cell with `d` keeps exactly the solutions that have `d` there.
pub proof fn lemma_solution_split(g: Grid, h: Grid, r: int, c: int, d: u8)
    requires
        on_board(r, c),
        g[r][c] is None,
        agree_except(g, h, r, c),
        h[r][c] == Some(d),
    ensures
        forall|s: Grid| #[trigger]
            is_solution(s, h) <==> (is_solution(s, g) && s[r][c] == Some(d)),
{
    assert forall|s: Grid| #[trigger]
        is_solution(s, h) <==> (is_solution(s, g) && s[r][c] == Some(d)) by {
        if is_solution(s, h) {
            assert forall|r2: int, c2: int|
                on_board(r2, c2) && (#[trigger] g[r2][c2]) is Some implies s[r2][c2] == g[r2][c2] by {
                assert(h[r2][c2] == g[r2][c2]);
            }
            assert(h[r][c] is Some);
        }
        if is_solution(s, g) && s[r][c] == Some(d) {
            assert forall|r2: int, c2: int|
                on_board(r2, c2) && (#[trigger] h[r2][c2]) is Some implies s[r2][c2] == h[r2][c2] by {
                if r2 != r || c2 != c {
                    assert(h[r2][c2] == g[r2][c2]);
                }
            }
        }
    }
}

/// The digit that a solution puts in an empty cell is legal there.
pub proof fn lemma_solution_digit_legal(s: Grid, g: Grid, r: int, c: int)
    requires
        on_board(r, c),
        is_solution(s, g),
        g[r][c] is None,
    ensures
        s[r][c] is Some,
        placement_legal(g, r, c, s[r][c]->0),
{
    assert(s[r][c] is Some);
    let d = s[r][c]->0;
    assert forall|r2: int, c2: int|
        on_board(r2, c2) && same_unit(r, c, r2, c2) implies #[trigger] g[r2][c2] != Some(d) by {
        if g[r2][c2] == Some(d) {
            assert(s[r2][c2] == Some(d));
            assert(r2 != r || c2 != c);
        }
    }
}

/// A board with two digits clashing in a unit has no solution.
pub proof fn lemma_inconsistent_unsolvable(g: Grid)
    requires
        !consistent(g),
    ensures
        !solvable(g),
{
    let (r1, c1, r2, c2) = choose|r1: int, c1: int, r2: int, c2: int|
        !(on_board(r1, c1) && on_board(r2, c2) && (r1 != r2 || c1 != c2) && same_unit(
            r1,
            c1,
            r2,
            c2,
        ) && #[trigger] g[r1][c1] is Some ==> g[r1][c1] != #[trigger] g[r2][c2]);
    assert forall|s: Grid| !is_solution(s, g) by {
        if is_solution(s, g) {
            assert(s[r1][c1] == g[r1][c1]);
            assert(s[r2][c2] == g[r2][c2]);
        }
    }
}

/// Moves `p` forward from `start` to the first empty cell, or to 81 when there is none.
fn first_empty_from(g: &Grid, start: usize) -> (p: usize)
    requires
        start <= 81,
        filled_before(*g, start as int),
    ensures
        start <= p <= 81,
        filled_before(*g, p as int),
        p < 81 ==> g[p as int / 9][p as int % 9] is None,
{
    let mut p: usize = start;
    while p < 81 && g[p / 9][p % 9].is_some()
        invariant
            start <= p <= 81,
            filled_before(*g, p as int),
        decreases 81 - p,
    {
        p += 1;
    }
    p
}

/// A board filled before position 81 is full.
pub proof fn lemma_filled_is_full(g: Grid)
    requires
        filled_before(g, 81),
    ensures
        full(g),
{
    assert forall|r: int, c: int| on_board(r, c) implies #[trigger] g[r][c] is Some by {
        let q = r * 9 + c;
        assert(q / 9 == r && q % 9 == c);
    }
}

/// Counts the solutions of `g` by backtracking over its empty cells from `start` on,
/// adding to `count` and stopping as soon as it exceeds one.
fn count_solutions(g: &mut Grid, count: &mut usize, start: usize)
    requires
        well_formed(*old(g)),
        consistent(*old(g)),
        start <= 81,
        filled_before(*old(g), start as int),
        *old(count) <= 2,
    ensures
        *final(g) == *old(g),
        *final(count) == tally(*old(count) as int, solvable(*old(g)), ambiguous(*old(g))),
    decreases 81 - start,
{
    if *count > 1 {
        return;
    }
    let p = first_empty_from(g, start);
    if p == 81 {
        proof {
            lemma_filled_is_full(*g);
            lemma_full_board(*g);
        }
        *count += 1;
        return;
    }
    let row = p / 9;
    let col = p % 9;
    let ghost g0 = *g;
    let ghost c0 = *count as int;
    let mut num: u8 = 1;
    while num <= 9
        invariant
            1 <= num <= 10,
            start <= p,
            g0 == *old(g),
            c0 == *old(count) as int,
            row == p / 9,
            col == p % 9,
            p < 81,
            c0 <= 1,
            *g == g0,
            g0[row as int][col as int] is None,
            well_formed(g0),
            consistent(g0),
            filled_before(g0, p as int),
            *count as int == tally(
                c0,
                solvable_below(g0, row as int, col as int, num as int),
                ambiguous_below(g0, row as int, col as int, num as int),
            ),
            *count <= 1,
        decreases 10 - num,
    {
        if is_valid_placement(g, row, col, num) {
            g[row][col] = Some(num);
            let ghost h = *g;
            proof {
                assert(agree_except(g0, h, row as int, col as int));
                lemma_legal_keeps_consistent(g0, h, row as int, col as int, num);
                lemma_solution_split(g0, h, row as int, col as int, num);
                assert(filled_before(h, p + 1)) by {
                    assert forall|q: int| 0 <= q < p + 1 implies (#[trigger] h[q / 9][q % 9]) is Some by {
                        if q < p {
                            assert(g0[q / 9][q % 9] is Some);
                        }
                    }
                }
            }
            count_solutions(g, count, p + 1);
            g[row][col] = None;
            proof {
                assert forall|r: int, c: int| on_board(r, c) implies #[trigger] g[r][c] == g0[r][c] by {
                    if r != row || c != col {
                        assert(h[r][c] == g0[r][c]);
                    }
                }
                lemma_grid_ext(*g, g0);
                lemma_below_step(g0, h, row as int, col as int, num);
            }
            if *count > 1 {
                proof {
                    lemma_below_to_all(g0, row as int, col as int, num as int + 1);
                }
                return;
            }
        } else {
            proof {
                lemma_below_skip(g0, row as int, col as int, num);
            }
        }
        num += 1;
    }
    proof {
        lemma_below_to_all(g0, row as int, col as int, 10);
        lemma_below_all(g0, row as int, col as int);
    }
}

/// Solutions with a digit below `num + 1` at an empty cell are those below `num`
/// together with those of the board that holds `num` there.
proof fn lemma_below_step(g: Grid, h: Grid, r: int, c: int, num: u8)
    requires
        on_board(r, c),
        g[r][c] is None,
        agree_except(g, h, r, c),
        h[r][c] == Some(num),
        forall|s: Grid| #[trigger]
            is_solution(s, h) <==> (is_solution(s, g) && s[r][c] == Some(num)),
    ensures
        solvable_below(g, r, c, num + 1) == (solvable_below(g, r, c, num as int) || solvable(h)),
        ambiguous_below(g, r, c, num + 1) == (ambiguous_below(g, r, c, num as int) || ambiguous(h)
            || (solvable_below(g, r, c, num as int) && solvable(h))),
{
    let k = num as int;
    if solvable_below(g, r, c, k + 1) {
        let s = choose|s: Grid| is_solution(s, g) && #[trigger] digit_below(s, r, c, k + 1);
        if s[r][c] != Some(num) {
            assert(digit_below(s, r, c, k));
        } else {
            assert(is_solution(s, h));
        }
    }
    if solvable_below(g, r, c, k) {
        let s = choose|s: Grid| is_solution(s, g) && #[trigger] digit_below(s, r, c, k);
        assert(digit_below(s, r, c, k + 1));
    }
    if solvable(h) {
        let s = choose|s: Grid| is_solution(s, h);
        assert(digit_below(s, r, c, k + 1));
    }
    if ambiguous_below(g, r, c, k + 1) {
        let (s, t) = choose|s: Grid, t: Grid|
            is_solution(s, g) && is_solution(t, g) && s != t && #[trigger] digit_below(s, r, c, k + 1)
                && #[trigger] digit_below(t, r, c, k + 1);
        if s[r][c] == Some(num) && t[r][c] == Some(num) {
            assert(is_solution(s, h) && is_solution(t, h));
        } else if s[r][c] != Some(num) && t[r][c] != Some(num) {
            assert(digit_below(s, r, c, k) && digit_below(t, r, c, k));
        } else if s[r][c] == Some(num) {
            assert(is_solution(s, h) && digit_below(t, r, c, k));
        } else {
            assert(is_solution(t, h) && digit_below(s, r, c, k));
        }
    }
    if ambiguous_below(g, r, c, k) {
        let (s, t) = choose|s: Grid, t: Grid|
            is_solution(s, g) && is_solution(t, g) && s != t && #[trigger] digit_below(s, r, c, k)
                && #[trigger] digit_below(t, r, c, k);
        assert(digit_below(s, r, c, k + 1) && digit_below(t, r, c, k + 1));
    }
    if ambiguous(h) {
        let (s, t) = choose|s: Grid, t: Grid| is_solution(s, h) && is_solution(t, h) && s != t;
        assert(digit_below(s, r, c, k + 1) && digit_below(t, r, c, k + 1));
    }
    if solvable_below(g, r, c, k) && solvable(h) {
        let s = choose|s: Grid| is_solution(s, g) && #[trigger] digit_below(s, r, c, k);
        let t = choose|t: Grid| is_solution(t, h);
        assert(s[r][c] != t[r][c]);
        assert(digit_below(s, r, c, k + 1) && digit_below(t, r, c, k + 1));
    }
}

/// A digit that is not legal at an empty cell is in no solution there.
proof fn lemma_below_skip(g: Grid, r: int, c: int, num: u8)
    requires
        on_board(r, c),
        g[r][c] is None,
        !placement_legal(g, r, c, num),
    ensures
        solvable_below(g, r, c, num + 1) == solvable_below(g, r, c, num as int),
        ambiguous_below(g, r, c, num + 1) == ambiguous_below(g, r, c, num as int),
{
    let k = num as int;
    assert forall|s: Grid| is_solution(s, g) implies s[r][c] != Some(num) by {
        lemma_solution_digit_legal(s, g, r, c);
    }
    if solvable_below(g, r, c, k + 1) {
        let s = choose|s: Grid| is_solution(s, g) && #[trigger] digit_below(s, r, c, k + 1);
        assert(digit_below(s, r, c, k));
    }
    if solvable_below(g, r, c, k) {
        let s = choose|s: Grid| is_solution(s, g) && #[trigger] digit_below(s, r, c, k);
        assert(digit_below(s, r, c, k + 1));
    }
    if ambiguous_below(g, r, c, k + 1) {
        let (s, t) = choose|s: Grid, t: Grid|
            is_solution(s, g) && is_solution(t, g) && s != t && #[trigger] digit_below(s, r, c, k + 1)
                && #[trigger] digit_below(t, r, c, k + 1);
        assert(digit_below(s, r, c, k) && digit_below(t, r, c, k));
    }
    if ambiguous_below(g, r, c, k) {
        let (s, t) = choose|s: Grid, t: Grid|
            is_solution(s, g) && is_solution(t, g) && s != t && #[trigger] digit_below(s, r, c, k)
                && #[trigger] digit_below(t, r, c, k);
        assert(digit_below(s, r, c, k + 1) && digit_below(t, r, c, k + 1));
    }
}

/// Restricting the digit at a cell gives at most the solutions of the whole board.
proof fn lemma_below_to_all(g: Grid, r: int, c: int, k: int)
    ensures
        solvable_below(g, r, c, k) ==> solvable(g),
        ambiguous_below(g, r, c, k) ==> ambiguous(g),
{
    if solvable_below(g, r, c, k) {
        let s = choose|s: Grid| is_solution(s, g) && #[trigger] digit_below(s, r, c, k);
        assert(is_solution(s, g));
    }
    if ambiguous_below(g, r, c, k) {
        let (s, t) = choose|s: Grid, t: Grid|
            is_solution(s, g) && is_solution(t, g) && s != t && #[trigger] digit_below(s, r, c, k)
                && #[trigger] digit_below(t, r, c, k);
        assert(is_solution(s, g) && is_solution(t, g) && s != t);
    }
}

/// Every solution has a digit below ten at every cell.
proof fn lemma_below_all(g: Grid, r: int, c: int)
    requires
        on_board(r, c),
    ensures
        solvable_below(g, r, c, 10) == solvable(g),
        ambiguous_below(g, r, c, 10) == ambiguous(g),
{
    lemma_below_to_all(g, r, c, 10);
    if solvable(g) {
        let s = choose|s: Grid| is_solution(s, g);
        assert(digit_or_empty(s[r][c]));
        assert(digit_below(s, r, c, 10));
    }
    if ambiguous(g) {
        let (s, t) = choose|s: Grid, t: Grid| is_solution(s, g) && is_solution(t, g) && s != t;
        assert(digit_or_empty(s[r][c]) && digit_or_empty(t[r][c]));
        assert(digit_below(s, r, c, 10) && digit_below(t, r, c, 10));
    }
}

/// The digit of a classic shifted-rows solution at (r, c).
pub open spec fn pattern_digit(r: int, c: int) -> int {
    (3 * (r % 3) + r / 3 + c) % 9 + 1
}

/// The shifted-rows pattern never repeats a digit within a unit.
proof fn lemma_pattern_distinct(r1: int, c1: int, r2: int, c2: int)
    requires
        on_board(r1, c1),
        on_board(r2, c2),
        r1 != r2 || c1 != c2,
        same_unit(r1, c1, r2, c2),
    ensures
        pattern_digit(r1, c1) != pattern_digit(r2, c2),
{
}

/// The board of the shifted-rows pattern.
proof fn pattern_board() -> (s: Grid)
    ensures
        forall|r: int, c: int| on_board(r, c) ==> #[trigger] s[r][c] == Some(pattern_digit(r, c) as u8),
{
    [
        [Some(1u8), Some(2u8), Some(3u8), Some(4u8), Some(5u8), Some(6u8), Some(7u8), Some(8u8), Some(9u8)],
        [Some(4u8), Some(5u8), Some(6u8), Some(7u8), Some(8u8), Some(9u8), Some(1u8), Some(2u8), Some(3u8)],
        [Some(7u8), Some(8u8), Some(9u8), Some(1u8), Some(2u8), Some(3u8), Some(4u8), Some(5u8), Some(6u8)],
        [Some(2u8), Some(3u8), Some(4u8), Some(5u8), Some(6u8), Some(7u8), Some(8u8), Some(9u8), Some(1u8)],
        [Some(5u8), Some(6u8), Some(7u8), Some(8u8), Some(9u8), Some(1u8), Some(2u8), Some(3u8), Some(4u8)],
        [Some(8u8), Some(9u8), Some(1u8), Some(2u8), Some(3u8), Some(4u8), Some(5u8), Some(6u8), Some(7u8)],
        [Some(3u8), Some(4u8), Some(5u8), Some(6u8), Some(7u8), Some(8u8), Some(9u8), Some(1u8), Some(2u8)],
        [Some(6u8), Some(7u8), Some(8u8), Some(9u8), Some(1u8), Some(2u8), Some(3u8), Some(4u8), Some(5u8)],
        [Some(9u8), Some(1u8), Some(2u8), Some(3u8), Some(4u8), Some(5u8), Some(6u8), Some(7u8), Some(8u8)],
    ]
}

/// A board with no digit at all has a solution.
pub proof fn lemma_empty_board_solvable(g: Grid)
    requires
        forall|r: int, c: int| on_board(r, c) ==> #[trigger] g[r][c] is None,
    ensures
        solvable(g),
{
    let s = pattern_board();
    assert forall|r1: int, c1: int, r2: int, c2: int|
        on_board(r1, c1) && on_board(r2, c2) && (r1 != r2 || c1 != c2) && same_unit(r1, c1, r2, c2)
            && #[trigger] s[r1][c1] is Some implies s[r1][c1] != #[trigger] s[r2][c2] by {
        lemma_pattern_distinct(r1, c1, r2, c2);
    }
    assert(is_solution(s, g));
}

/// Completes `g` by randomised backtracking: the empty cells from `start` on are tried
/// in row-major order, each with the nine digits in an order drawn from `seed`.
pub fn fill_grid(g: &mut Grid, start: usize, seed: &mut u64) -> (filled: bool)
    requires
        well_formed(*old(g)),
        consistent(*old(g)),
        start <= 81,
        filled_before(*old(g), start as int),
    ensures
        filled ==> is_solution(*final(g), *old(g)),
        !filled ==> *final(g) == *old(g) && !solvable(*old(g)),
    decreases 81 - start,
{
    let p = first_empty_from(g, start);
    if p == 81 {
        proof {
            lemma_filled_is_full(*g);
            lemma_full_board(*g);
        }
        return true;
    }
    let row = p / 9;
    let col = p % 9;
    let ghost g0 = *g;
    let order = shuffled_digits(seed);
    let mut k: usize = 0;
    while k < 9
        invariant
            k <= 9,
            start <= p < 81,
            row == p / 9,
            col == p % 9,
            g0 == *old(g),
            *g == g0,
            g0[row as int][col as int] is None,
            well_formed(g0),
            consistent(g0),
            filled_before(g0, p as int),
            forall|i: int| 0 <= i < 9 ==> 1 <= #[trigger] order[i] <= 9,
            forall|j: int, s: Grid|
                0 <= j < k && #[trigger] is_solution(s, g0) ==> s[row as int][col as int] != Some(
                    #[trigger] order[j],
                ),
        decreases 9 - k,
    {
        let num = order[k];
        if is_valid_placement(g, row, col, num) {
            g[row][col] = Some(num);
            let ghost h = *g;
            proof {
                assert(agree_except(g0, h, row as int, col as int));
                lemma_legal_keeps_consistent(g0, h, row as int, col as int, num);
                lemma_solution_split(g0, h, row as int, col as int, num);
                assert(filled_before(h, p + 1)) by {
                    assert forall|q: int| 0 <= q < p + 1 implies (#[trigger] h[q / 9][q % 9]) is Some by {
                        if q < p {
                            assert(g0[q / 9][q % 9] is Some);
                        }
                    }
                }
            }
            if fill_grid(g, p + 1, seed) {
                return true;
            }
            g[row][col] = None;
            proof {
                assert forall|r: int, c: int| on_board(r, c) implies #[trigger] g[r][c] == g0[r][c] by {
                    if r != row || c != col {
                        assert(h[r][c] == g0[r][c]);
                    }
                }
                lemma_grid_ext(*g, g0);
                assert forall|s: Grid| is_solution(s, g0) implies s[row as int][col as int] != Some(num) by {
                    if s[row as int][col as int] == Some(num) {
                        assert(is_solution(s, h));
                    }
                }
            }
        } else {
            proof {
                assert forall|s: Grid| is_solution(s, g0) implies s[row as int][col as int] != Some(num) by {
                    lemma_solution_digit_legal(s, g0, row as int, col as int);
                }
            }
        }
        assert forall|j: int, s: Grid|
            0 <= j < k + 1 && #[trigger] is_solution(s, g0) implies s[row as int][col as int] != Some(
                #[trigger] order[j],
            ) by {
            if j == k {
                assert(order[j] == num);
            }
        }
        k += 1;
    }
    proof {
        assert forall|s: Grid| !is_solution(s, g0) by {
            if is_solution(s, g0) {
                lemma_solution_digit_legal(s, g0, row as int, col as int);
                let d = s[row as int][col as int]->0;
                assert(digit_or_empty(s[row as int][col as int]));
                assert(lists_digit(order, d));
                let j = choose|j: int| 0 <= j < 9 && #[trigger] order[j] == d;
                assert(s[row as int][col as int] != Some(order[j]));
            }
        }
    }
    false
}

/// On a board with one solution, a digit at an empty cell is legal and keeps the solution
/// unique exactly when it is the solution's digit there.
pub proof fn lemma_unique_digit(g: Grid, h: Grid, r: int, c: int, d: u8)
    requires
        uniquely_solvable(g),
        on_board(r, c),
        g[r][c] is None,
        agree_except(g, h, r, c),
        h[r][c] == Some(d),
    ensures
        (placement_legal(g, r, c, d) && uniquely_solvable(h)) == (forall|s: Grid|
            is_solution(s, g) ==> s[r][c] == Some(d)),
{
    lemma_solution_split(g, h, r, c, d);
    let sol = choose|s: Grid| is_solution(s, g);
    assert forall|s: Grid| is_solution(s, g) implies s == sol by {
        if s != sol {
            assert(ambiguous(g));
        }
    }
    if sol[r][c] == Some(d) {
        lemma_solution_digit_legal(sol, g, r, c);
        assert(is_solution(sol, h));
        assert forall|s: Grid, t: Grid| is_solution(s, h) && is_solution(t, h) implies s == t by {
            assert(s == sol && t == sol);
        }
    } else {
        if uniquely_solvable(h) {
            let t = choose|t: Grid| is_solution(t, h);
            assert(t == sol);
        }
        assert(!(forall|s: Grid| is_solution(s, g) ==> s[r][c] == Some(d)));
    }
}

/// `s` is a solution of `g` once cell (r, c) is emptied.
pub open spec fn solution_without(s: Grid, g: Grid, r: int, c: int) -> bool {
    &&& well_formed(s)
    &&& full(s)
    &&& consistent(s)
    &&& forall|r2: int, c2: int|
        on_board(r2, c2) && (r2 != r || c2 != c) && (#[trigger] g[r2][c2]) is Some ==> s[r2][c2] == g[r2][c2]
}

/// The digit at (r, c) is needed: emptying that cell of `g` leaves two different solutions.
pub open spec fn essential(g: Grid, r: int, c: int) -> bool {
    exists|s: Grid, t: Grid| solution_without(s, g, r, c) && solution_without(t, g, r, c) && s != t
}

/// A needed digit stays needed when other digits are taken away.
pub proof fn lemma_essential_shrinks(big: Grid, small: Grid, r: int, c: int)
    requires
        essential(big, r, c),
        extends(big, small),
    ensures
        essential(small, r, c),
{
    let (s, t) = choose|s: Grid, t: Grid| solution_without(s, big, r, c) && solution_without(t, big, r, c) && s != t;
    assert(solution_without(s, small, r, c) && solution_without(t, small, r, c));
}

/// Emptying a cell that a known solution fills and losing uniqueness shows the digit was needed.
pub proof fn lemma_essential_from_removal(g: Grid, h: Grid, sol: Grid, r: int, c: int)
    requires
        on_board(r, c),
        agree_except(g, h, r, c),
        h[r][c] is None,
        is_solution(sol, h),
        !uniquely_solvable(h),
    ensures
        essential(g, r, c),
{
    let (s, t) = choose|s: Grid, t: Grid| is_solution(s, h) && is_solution(t, h) && s != t;
    assert forall|x: Grid| is_solution(x, h) implies solution_without(x, g, r, c) by {
        assert forall|r2: int, c2: int|
            on_board(r2, c2) && (r2 != r || c2 != c) && (#[trigger] g[r2][c2]) is Some implies x[r2][c2] == g[r2][c2] by {
            assert(h[r2][c2] == g[r2][c2]);
        }
    }
    assert(solution_without(s, g, r, c) && solution_without(t, g, r, c));
}

/// Whether the board has exactly one solution.
pub fn has_unique_solution(g: &Grid) -> (unique: bool)
    requires
        well_formed(*g),
    ensures
        unique == uniquely_solvable(*g),
{
    if !grid_consistent(g) {
        proof {
            lemma_inconsistent_unsolvable(*g);
        }
        return false;
    }
    let mut count: usize = 0;
    let mut scratch: Grid = *g;
    count_solutions(&mut scratch, &mut count, 0);
    count == 1
}

} // verus!
