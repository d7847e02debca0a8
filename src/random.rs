//! A small seedable pseudo-random generator and Fisher-Yates shuffles driven by it.
use vstd::prelude::*;

verus! {

/// Advances a linear congruential generator and returns the high bits of its new state.
pub fn next_random(state: &mut u64) -> (r: u64)
    ensures
        r < 0x8000_0000,
{
    let next = state.wrapping_mul(6364136223846793005).wrapping_add(1442695040888963407);
    *state = next;
    let r = next >> 33u64;
    assert(next >> 33u64 < 0x8000_0000) by (bit_vector);
    r
}

/// `d` appears somewhere in `order`.
pub open spec fn lists_digit(order: [u8; 9], d: u8) -> bool {
    exists|i: int| 0 <= i < 9 && #[trigger] order[i] == d
}

/// The digits 1 to 9, each once, in an order drawn from `state`.
pub fn shuffled_digits(state: &mut u64) -> (order: [u8; 9])
    ensures
        forall|i: int| 0 <= i < 9 ==> 1 <= #[trigger] order[i] <= 9,
        forall|d: u8| 1 <= d <= 9 ==> #[trigger] lists_digit(order, d),
{
    let mut order: [u8; 9] = [1, 2, 3, 4, 5, 6, 7, 8, 9];
    assert forall|d: u8| 1 <= d <= 9 implies #[trigger] lists_digit(order, d) by {
        assert(order[d - 1] == d);
    }
    let mut i: usize = 8;
    while i > 0
        invariant
            i <= 8,
            forall|m: int| 0 <= m < 9 ==> 1 <= #[trigger] order[m] <= 9,
            forall|d: u8| 1 <= d <= 9 ==> #[trigger] lists_digit(order, d),
        decreases i,
    {
        let j: usize = (next_random(state) % (i as u64 + 1)) as usize;
        let ghost before = order;
        let t = order[i];
        order[i] = order[j];
        order[j] = t;
        assert forall|d: u8| 1 <= d <= 9 implies #[trigger] lists_digit(order, d) by {
            assert(lists_digit(before, d));
            let m0 = choose|m: int| 0 <= m < 9 && #[trigger] before[m] == d;
            if m0 == i {
                assert(order[j as int] == d);
            } else if m0 == j {
                assert(order[i as int] == d);
            } else {
                assert(order[m0] == d);
            }
        }
        i -= 1;
    }
    order
}

/// `p` appears somewhere in `cells`.
pub open spec fn lists_cell(cells: Seq<usize>, p: usize) -> bool {
    exists|i: int| 0 <= i < cells.len() && #[trigger] cells[i] == p
}

/// The flat positions 0 to 80 of the board's cells, each once, in an order drawn from `state`.
pub fn shuffled_cells(state: &mut u64) -> (cells: Vec<usize>)
    ensures
        cells@.len() == 81,
        forall|i: int| 0 <= i < 81 ==> #[trigger] cells@[i] < 81,
        forall|i: int, j: int| 0 <= i < j < 81 ==> cells@[i] != cells@[j],
        forall|p: usize| p < 81 ==> #[trigger] lists_cell(cells@, p),
{
    let mut cells: Vec<usize> = Vec::new();
    let mut p: usize = 0;
    while p < 81
        invariant
            p <= 81,
            cells@.len() == p,
            forall|i: int| 0 <= i < p ==> #[trigger] cells@[i] == i,
        decreases 81 - p,
    {
        cells.push(p);
        p += 1;
    }
    assert forall|q: usize| q < 81 implies #[trigger] lists_cell(cells@, q) by {
        assert(cells@[q as int] == q);
    }
    let mut i: usize = 80;
    while i > 0
        invariant
            i <= 80,
            cells@.len() == 81,
            forall|m: int| 0 <= m < 81 ==> #[trigger] cells@[m] < 81,
            forall|m: int, n: int| 0 <= m < n < 81 ==> cells@[m] != cells@[n],
            forall|q: usize| q < 81 ==> #[trigger] lists_cell(cells@, q),
        decreases i,
    {
        let j: usize = (next_random(state) % (i as u64 + 1)) as usize;
        let ghost before = cells@;
        let a = cells[i];
        let b = cells[j];
        cells.set(i, b);
        cells.set(j, a);
        assert forall|q: usize| q < 81 implies #[trigger] lists_cell(cells@, q) by {
            assert(lists_cell(before, q));
            let m0 = choose|m: int| 0 <= m < before.len() && #[trigger] before[m] == q;
            if m0 == i {
                assert(cells@[j as int] == q);
            } else if m0 == j {
                assert(cells@[i as int] == q);
            } else {
                assert(cells@[m0] == q);
            }
        }
        assert forall|m: int, n: int| 0 <= m < n < 81 implies cells@[m] != cells@[n] by {
            let sm = if m == i { j as int } else if m == j { i as int } else { m };
            let sn = if n == i { j as int } else if n == j { i as int } else { n };
            assert(cells@[m] == before[sm] && cells@[n] == before[sn]);
            if sm < sn {
                assert(before[sm] != before[sn]);
            } else {
                assert(before[sn] != before[sm]);
            }
        }
        i -= 1;
    }
    cells
}

} // verus!
