//! The 9x9 board, its units (rows, columns, boxes) and the placement rules.
use vstd::prelude::*;

verus! {

/// A board: nine rows of nine cells, each empty or holding a digit.
pub type Grid = [[Option<u8>; 9]; 9];

/// A coordinate lies on the board.
pub open spec fn on_board(r: int, c: int) -> bool {
    0 <= r < 9 && 0 <= c < 9
}

/// A cell value is empty or one of the digits 1 to 9.
pub open spec fn digit_or_empty(v: Option<u8>) -> bool {
    match v {
        Some(d) => 1 <= d <= 9,
        None => true,
    }
}

/// Every cell of the board is empty or holds a digit 1 to 9.
pub open spec fn well_formed(g: Grid) -> bool {
    forall|r: int, c: int| on_board(r, c) ==> digit_or_empty(#[trigger] g[r][c])
}

/// Index of the 3x3 box that holds cell (r, c), counted in row-major order.
pub open spec fn box_of(r: int, c: int) -> int {
    (r / 3) * 3 + c / 3
}

/// Two cells share a row, a column or a box.
pub open spec fn same_unit(r1: int, c1: int, r2: int, c2: int) -> bool {
    r1 == r2 || c1 == c2 || (r1 / 3 == r2 / 3 && c1 / 3 == c2 / 3)
}

/// No cell in the row, the column or the box of (r, c) holds `d`, the cell itself included.
pub open spec fn placement_legal(g: Grid, r: int, c: int, d: u8) -> bool {
    forall|r2: int, c2: int|
        on_board(r2, c2) && same_unit(r, c, r2, c2) ==> #[trigger] g[r2][c2] != Some(d)
}

/// Cell (r, c) holds a digit that another cell of one of its units holds too.
pub open spec fn conflict_at(g: Grid, r: int, c: int) -> bool {
    g[r][c] is Some && exists|r2: int, c2: int|
        on_board(r2, c2) && (r2 != r || c2 != c) && same_unit(r, c, r2, c2) && #[trigger] g[r2][c2]
            == g[r][c]
}

/// No two distinct cells of a unit hold the same digit.
pub open spec fn consistent(g: Grid) -> bool {
    forall|r1: int, c1: int, r2: int, c2: int|
        on_board(r1, c1) && on_board(r2, c2) && (r1 != r2 || c1 != c2) && same_unit(r1, c1, r2, c2)
            && #[trigger] g[r1][c1] is Some ==> g[r1][c1] != #[trigger] g[r2][c2]
}

/// No cell is empty.
pub open spec fn full(g: Grid) -> bool {
    forall|r: int, c: int| on_board(r, c) ==> #[trigger] g[r][c] is Some
}

/// `s` keeps every digit that `g` holds.
pub open spec fn extends(s: Grid, g: Grid) -> bool {
    forall|r: int, c: int| on_board(r, c) && (#[trigger] g[r][c]) is Some ==> s[r][c] == g[r][c]
}

/// `s` is a completed, rule-abiding board that keeps every digit of `g`.
pub open spec fn is_solution(s: Grid, g: Grid) -> bool {
    well_formed(s) && full(s) && consistent(s) && extends(s, g)
}

/// Some solution of `g` exists.
pub open spec fn solvable(g: Grid) -> bool {
    exists|s: Grid| is_solution(s, g)
}

/// Two different solutions of `g` exist.
pub open spec fn ambiguous(g: Grid) -> bool {
    exists|s: Grid, t: Grid| is_solution(s, g) && is_solution(t, g) && s != t
}

/// `g` has exactly one solution.
pub open spec fn uniquely_solvable(g: Grid) -> bool {
    solvable(g) && !ambiguous(g)
}

/// `a` and `b` agree everywhere but at (r, c).
pub open spec fn agree_except(a: Grid, b: Grid, r: int, c: int) -> bool {
    forall|r2: int, c2: int|
        on_board(r2, c2) && (r2 != r || c2 != c) ==> #[trigger] a[r2][c2] == b[r2][c2]
}

/// Row of the `k`-th cell of unit `i` of a kind: rows (0), columns (1) or boxes (2).
pub open spec fn unit_row(kind: int, i: int, k: int) -> int {
    if kind == 0 {
        i
    } else if kind == 1 {
        k
    } else {
        (i / 3) * 3 + k / 3
    }
}

/// Column of the `k`-th cell of unit `i` of a kind.
pub open spec fn unit_col(kind: int, i: int, k: int) -> int {
    if kind == 0 {
        k
    } else if kind == 1 {
        i
    } else {
        (i % 3) * 3 + k % 3
    }
}

/// The unit of a kind that holds cell (r, c).
pub open spec fn unit_of(kind: int, r: int, c: int) -> int {
    if kind == 0 {
        r
    } else if kind == 1 {
        c
    } else {
        box_of(r, c)
    }
}

/// The digits 1 to 9 that no cell of unit `i` of a kind holds.
pub open spec fn unit_free(g: Grid, kind: int, i: int) -> Set<u8> {
    Set::new(
        |d: u8|
            1 <= d <= 9 && forall|k: int|
                0 <= k < 9 ==> #[trigger] g[unit_row(kind, i, k)][unit_col(kind, i, k)] != Some(d),
    )
}

/// The cells of a unit lie on the board and belong to that unit.
pub proof fn lemma_unit_cell(kind: int, i: int, k: int)
    requires
        0 <= kind < 3,
        0 <= i < 9,
        0 <= k < 9,
    ensures
        on_board(unit_row(kind, i, k), unit_col(kind, i, k)),
        unit_of(kind, unit_row(kind, i, k), unit_col(kind, i, k)) == i,
{
}

/// A digit 1 to 9 is free in the row, the column and the box of (r, c) exactly when
/// placing it there is legal.
pub proof fn lemma_free_iff_legal(g: Grid, r: int, c: int, d: u8)
    requires
        on_board(r, c),
        1 <= d <= 9,
    ensures
        (unit_free(g, 0, r).contains(d) && unit_free(g, 1, c).contains(d) && unit_free(
            g,
            2,
            box_of(r, c),
        ).contains(d)) == placement_legal(g, r, c, d),
{
    let b = box_of(r, c);
    if placement_legal(g, r, c, d) {
        assert forall|k: int| 0 <= k < 9 implies #[trigger] g[unit_row(0, r, k)][unit_col(0, r, k)] != Some(d) by {
            assert(same_unit(r, c, r, k));
        }
        assert forall|k: int| 0 <= k < 9 implies #[trigger] g[unit_row(1, c, k)][unit_col(1, c, k)] != Some(d) by {
            assert(same_unit(r, c, k, c));
        }
        assert forall|k: int| 0 <= k < 9 implies #[trigger] g[unit_row(2, b, k)][unit_col(2, b, k)] != Some(d) by {
            assert(same_unit(r, c, unit_row(2, b, k), unit_col(2, b, k)));
        }
    }
    if unit_free(g, 0, r).contains(d) && unit_free(g, 1, c).contains(d) && unit_free(g, 2, b).contains(d) {
        assert forall|r2: int, c2: int|
            on_board(r2, c2) && same_unit(r, c, r2, c2) implies #[trigger] g[r2][c2] != Some(d) by {
            if r2 == r {
                assert(g[unit_row(0, r, c2)][unit_col(0, r, c2)] != Some(d));
            } else if c2 == c {
                assert(g[unit_row(1, c, r2)][unit_col(1, c, r2)] != Some(d));
            } else {
                let k = (r2 % 3) * 3 + c2 % 3;
                assert(unit_row(2, b, k) == r2 && unit_col(2, b, k) == c2);
                assert(g[unit_row(2, b, k)][unit_col(2, b, k)] != Some(d));
            }
        }
    }
}

/// Changing one cell between empty and `num` leaves every unit's free digits other than
/// `num` as they were, and leaves the units that do not hold the cell untouched.
pub proof fn lemma_unit_free_change(a: Grid, b: Grid, r: int, c: int, num: u8, kind: int, i: int)
    requires
        on_board(r, c),
        0 <= kind < 3,
        0 <= i < 9,
        agree_except(a, b, r, c),
        a[r][c] is None || a[r][c] == Some(num),
        b[r][c] is None || b[r][c] == Some(num),
    ensures
        forall|d: u8| d != num ==> unit_free(a, kind, i).contains(d) == #[trigger] unit_free(b, kind, i).contains(d),
        i != unit_of(kind, r, c) ==> unit_free(a, kind, i) == unit_free(b, kind, i),
{
    assert forall|d: u8| d != num || i != unit_of(kind, r, c) implies unit_free(a, kind, i).contains(d)
        == #[trigger] unit_free(b, kind, i).contains(d) by {
        if unit_free(a, kind, i).contains(d) {
            lemma_same_cells_other_digit(a, b, r, c, num, kind, i, d);
        }
        if unit_free(b, kind, i).contains(d) {
            lemma_same_cells_other_digit(b, a, r, c, num, kind, i, d);
        }
    }
    if i != unit_of(kind, r, c) {
        assert(unit_free(a, kind, i) =~= unit_free(b, kind, i));
    }
}

/// One direction of `lemma_unit_free_change`.
proof fn lemma_same_cells_other_digit(a: Grid, b: Grid, r: int, c: int, num: u8, kind: int, i: int, d: u8)
    requires
        on_board(r, c),
        0 <= kind < 3,
        0 <= i < 9,
        agree_except(a, b, r, c),
        a[r][c] is None || a[r][c] == Some(num),
        b[r][c] is None || b[r][c] == Some(num),
        d != num || i != unit_of(kind, r, c),
        unit_free(a, kind, i).contains(d),
    ensures
        unit_free(b, kind, i).contains(d),
{
    assert forall|k: int| 0 <= k < 9 implies #[trigger] b[unit_row(kind, i, k)][unit_col(kind, i, k)] != Some(d) by {
        lemma_unit_cell(kind, i, k);
        let rr = unit_row(kind, i, k);
        let cc = unit_col(kind, i, k);
        assert(a[unit_row(kind, i, k)][unit_col(kind, i, k)] != Some(d));
        if rr != r || cc != c {
            assert(a[rr][cc] == b[rr][cc]);
        }
    }
}

/// Whether some cell of unit `i` of a kind holds `num`.
pub fn unit_holds(g: &Grid, kind: usize, i: usize, num: u8) -> (found: bool)
    requires
        kind < 3,
        i < 9,
    ensures
        found == exists|k: int| 0 <= k < 9 && #[trigger] g[unit_row(kind as int, i as int, k)][unit_col(kind as int, i as int, k)] == Some(num),
{
    let mut k: usize = 0;
    while k < 9
        invariant
            k <= 9,
            kind < 3,
            i < 9,
            forall|k2: int| 0 <= k2 < k ==> #[trigger] g[unit_row(kind as int, i as int, k2)][unit_col(kind as int, i as int, k2)] != Some(num),
        decreases 9 - k,
    {
        let r: usize = if kind == 0 {
            i
        } else if kind == 1 {
            k
        } else {
            (i / 3) * 3 + k / 3
        };
        let c: usize = if kind == 0 {
            k
        } else if kind == 1 {
            i
        } else {
            (i % 3) * 3 + k % 3
        };
        assert(r == unit_row(kind as int, i as int, k as int) && c == unit_col(kind as int, i as int, k as int));
        if g[r][c] == Some(num) {
            return true;
        }
        k += 1;
    }
    false
}

/// Number of empty cells among the first `p` cells in row-major order.
pub open spec fn empty_count(g: Grid, p: int) -> int
    decreases p,
{
    if p <= 0 {
        0
    } else {
        empty_count(g, p - 1) + if g[(p - 1) / 9][(p - 1) % 9] is None {
            1int
        } else {
            0int
        }
    }
}

/// A full board has no empty cell.
pub proof fn lemma_full_empty_count(g: Grid, p: int)
    requires
        full(g),
        0 <= p <= 81,
    ensures
        empty_count(g, p) == 0,
    decreases p,
{
    if p > 0 {
        lemma_full_empty_count(g, p - 1);
        assert(on_board((p - 1) / 9, (p - 1) % 9));
    }
}

/// Emptying one filled cell adds one empty cell; boards that agree have as many.
pub proof fn lemma_empty_count_change(a: Grid, b: Grid, r: int, c: int, p: int)
    requires
        on_board(r, c),
        agree_except(a, b, r, c),
        0 <= p <= 81,
    ensures
        empty_count(b, p) == empty_count(a, p) + if p > r * 9 + c && a[r][c] is Some && b[r][c] is None {
            1int
        } else if p > r * 9 + c && a[r][c] is None && b[r][c] is Some {
            -1int
        } else {
            0int
        },
    decreases p,
{
    if p > 0 {
        lemma_empty_count_change(a, b, r, c, p - 1);
        let q = p - 1;
        assert(on_board(q / 9, q % 9));
        if q / 9 != r || q % 9 != c {
            assert(a[q / 9][q % 9] == b[q / 9][q % 9]);
            assert(q != r * 9 + c);
        } else {
            assert(q == r * 9 + c);
        }
    }
}

/// Grids that agree on every cell are equal.
pub proof fn lemma_grid_ext(a: Grid, b: Grid)
    requires
        forall|r: int, c: int| on_board(r, c) ==> #[trigger] a[r][c] == b[r][c],
    ensures
        a == b,
{
    assert forall|r: int| 0 <= r < 9 implies a[r] == b[r] by {
        assert(a[r] =~= b[r]) by {
            assert forall|c: int| 0 <= c < 9 implies a[r][c] == b[r][c] by {
                assert(on_board(r, c));
            }
        }
    }
    assert(a =~= b);
}

/// A placement that is legal keeps a consistent board consistent.
pub proof fn lemma_legal_keeps_consistent(g: Grid, h: Grid, r: int, c: int, d: u8)
    requires
        on_board(r, c),
        consistent(g),
        placement_legal(g, r, c, d),
        agree_except(g, h, r, c),
        h[r][c] == Some(d),
    ensures
        consistent(h),
{
    assert forall|r1: int, c1: int, r2: int, c2: int|
        on_board(r1, c1) && on_board(r2, c2) && (r1 != r2 || c1 != c2) && same_unit(
            r1,
            c1,
            r2,
            c2,
        ) && #[trigger] h[r1][c1] is Some implies h[r1][c1] != #[trigger] h[r2][c2] by {
        if r1 == r && c1 == c {
            assert(g[r2][c2] != Some(d));
        } else if r2 == r && c2 == c {
            assert(g[r1][c1] != Some(d));
        } else {
            assert(g[r1][c1] == h[r1][c1]);
            assert(g[r2][c2] == h[r2][c2]);
        }
    }
}

/// Full scan of the row, the column and the box of (row, col) for `num`.
pub fn is_valid_placement(g: &Grid, row: usize, col: usize, num: u8) -> (legal: bool)
    requires
        row < 9,
        col < 9,
    ensures
        legal == placement_legal(*g, row as int, col as int, num),
{
    let mut c: usize = 0;
    while c < 9
        invariant
            c <= 9,
            row < 9,
            col < 9,
            forall|c2: int| 0 <= c2 < c ==> #[trigger] g[row as int][c2] != Some(num),
        decreases 9 - c,
    {
        if g[row][c] == Some(num) {
            return false;
        }
        c += 1;
    }
    let mut r: usize = 0;
    while r < 9
        invariant
            r <= 9,
            row < 9,
            col < 9,
            forall|r2: int| 0 <= r2 < r ==> #[trigger] g[r2][col as int] != Some(num),
        decreases 9 - r,
    {
        if g[r][col] == Some(num) {
            return false;
        }
        r += 1;
    }
    let box_row: usize = (row / 3) * 3;
    let box_col: usize = (col / 3) * 3;
    let mut i: usize = 0;
    while i < 9
        invariant
            i <= 9,
            row < 9,
            col < 9,
            box_row == (row / 3) * 3,
            box_col == (col / 3) * 3,
            forall|k: int|
                0 <= k < i ==> #[trigger] g[box_row + k / 3][box_col + k % 3] != Some(num),
        decreases 9 - i,
    {
        if g[box_row + i / 3][box_col + i % 3] == Some(num) {
            return false;
        }
        i += 1;
    }
    assert forall|r2: int, c2: int|
        on_board(r2, c2) && same_unit(row as int, col as int, r2, c2) implies #[trigger] g[r2][c2]
        != Some(num) by {
        if r2 != row && c2 != col {
            let k = (r2 - box_row) * 3 + (c2 - box_col);
            assert(box_row + k / 3 == r2 && box_col + k % 3 == c2);
        }
    }
    true
}

/// Whether the digit at (row, col), if any, is repeated elsewhere in its row, column or box.
pub fn cell_conflicts(g: &Grid, row: usize, col: usize) -> (found: bool)
    requires
        row < 9,
        col < 9,
    ensures
        found == conflict_at(*g, row as int, col as int),
{
    let v = g[row][col];
    if v.is_none() {
        return false;
    }
    let mut c: usize = 0;
    while c < 9
        invariant
            c <= 9,
            row < 9,
            col < 9,
            v == g[row as int][col as int],
            v is Some,
            forall|c2: int| 0 <= c2 < c && c2 != col ==> #[trigger] g[row as int][c2] != v,
        decreases 9 - c,
    {
        if c != col && g[row][c] == v {
            assert(on_board(row as int, c as int) && same_unit(row as int, col as int, row as int, c as int));
            assert(g[row as int][c as int] == g[row as int][col as int]);
            return true;
        }
        c += 1;
    }
    let mut r: usize = 0;
    while r < 9
        invariant
            r <= 9,
            row < 9,
            col < 9,
            v == g[row as int][col as int],
            v is Some,
            forall|r2: int| 0 <= r2 < r && r2 != row ==> #[trigger] g[r2][col as int] != v,
        decreases 9 - r,
    {
        if r != row && g[r][col] == v {
            assert(on_board(r as int, col as int) && same_unit(row as int, col as int, r as int, col as int));
            assert(g[r as int][col as int] == g[row as int][col as int]);
            return true;
        }
        r += 1;
    }
    let box_row: usize = (row / 3) * 3;
    let box_col: usize = (col / 3) * 3;
    let mut i: usize = 0;
    while i < 9
        invariant
            i <= 9,
            row < 9,
            col < 9,
            v == g[row as int][col as int],
            v is Some,
            box_row == (row / 3) * 3,
            box_col == (col / 3) * 3,
            forall|k: int|
                0 <= k < i && (box_row + k / 3 != row || box_col + k % 3 != col) ==> #[trigger] g[box_row
                    + k / 3][box_col + k % 3] != v,
        decreases 9 - i,
    {
        let r2 = box_row + i / 3;
        let c2 = box_col + i % 3;
        if (r2 != row || c2 != col) && g[r2][c2] == v {
            assert(on_board(r2 as int, c2 as int) && same_unit(row as int, col as int, r2 as int, c2 as int));
            assert(g[r2 as int][c2 as int] == g[row as int][col as int]);
            return true;
        }
        i += 1;
    }
    assert forall|r2: int, c2: int|
        on_board(r2, c2) && (r2 != row || c2 != col) && same_unit(
            row as int,
            col as int,
            r2,
            c2,
        ) implies #[trigger] g[r2][c2] != v by {
        if r2 != row && c2 != col {
            let k = (r2 - box_row) * 3 + (c2 - box_col);
            assert(box_row + k / 3 == r2 && box_col + k % 3 == c2);
        }
    }
    false
}

/// Whether no two distinct cells of a unit hold the same digit.
pub fn grid_consistent(g: &Grid) -> (ok: bool)
    ensures
        ok == consistent(*g),
{
    let mut p: usize = 0;
    while p < 81
        invariant
            p <= 81,
            forall|q: int| 0 <= q < p ==> !#[trigger] conflict_at(*g, q / 9, q % 9),
        decreases 81 - p,
    {
        if cell_conflicts(g, p / 9, p % 9) {
            proof {
                let r = p as int / 9;
                let c = p as int % 9;
                let (r2, c2) = choose|r2: int, c2: int|
                    on_board(r2, c2) && (r2 != r || c2 != c) && same_unit(r, c, r2, c2) && #[trigger] g[r2][c2]
                        == g[r][c];
                assert(g[r][c] is Some && g[r][c] == g[r2][c2]);
            }
            return false;
        }
        p += 1;
    }
    assert forall|r1: int, c1: int, r2: int, c2: int|
        on_board(r1, c1) && on_board(r2, c2) && (r1 != r2 || c1 != c2) && same_unit(r1, c1, r2, c2)
            && #[trigger] g[r1][c1] is Some implies g[r1][c1] != #[trigger] g[r2][c2] by {
        let q = r1 * 9 + c1;
        assert(q / 9 == r1 && q % 9 == c1);
        assert(!conflict_at(*g, q / 9, q % 9));
    }
    true
}

} // verus!
