//! Text that undulates: every column of the frame rolls down by its own
//! offset, wrapping round from the bottom to the top.

use vstd::prelude::*;

verus! {

/// The row that lands on row `t` when a column of `rows` rows rolls down
/// by `offset` rows.
pub open spec fn unrolled_row(t: int, offset: int, rows: int) -> int {
    let o = offset % rows;
    if t >= o {
        t - o
    } else {
        t + rows - o
    }
}

/// Rolling down by `offset` takes row `r` to row `(r + offset) % rows`, and
/// that row is filled from row `r`.
proof fn lemma_unrolled_row(r: int, offset: int, rows: int)
    requires
        0 <= r < rows,
        offset >= 0,
    ensures
        0 <= (r + offset) % rows < rows,
        unrolled_row((r + offset) % rows, offset, rows) == r,
{
    let o = offset % rows;
    vstd::arithmetic::div_mod::lemma_mod_bound(offset, rows);
    vstd::arithmetic::div_mod::lemma_add_mod_noop(r, offset, rows);
    vstd::arithmetic::div_mod::lemma_small_mod(r as nat, rows as nat);
    assert((r + offset) % rows == (r + o) % rows);
    if r + o < rows {
        vstd::arithmetic::div_mod::lemma_small_mod((r + o) as nat, rows as nat);
    } else {
        vstd::arithmetic::div_mod::lemma_mod_sub_multiples_vanish(r + o, rows);
        vstd::arithmetic::div_mod::lemma_small_mod((r + o - rows) as nat, rows as nat);
    }
}

/// The frame with each column `c` rolled down by `offsets[c]` rows: the cell
/// at row `r` moves to row `(r + offsets[c]) % rows`, so that every cell of
/// the column is written exactly once.
pub fn roll_columns<T: Clone>(cells: &Vec<Vec<T>>, offsets: &Vec<usize>) -> (rolled: Vec<Vec<T>>)
    requires
        forall|r: int| 0 <= r < cells@.len() ==> (#[trigger] cells@[r])@.len() == offsets@.len(),
    ensures
        rolled@.len() == cells@.len(),
        forall|r: int| 0 <= r < rolled@.len() ==> (#[trigger] rolled@[r])@.len() == offsets@.len(),
        forall|r: int, c: int|
            0 <= r < cells@.len() && 0 <= c < offsets@.len() ==> cloned(
                #[trigger] cells@[r]@[c],
                rolled@[(r + offsets@[c]) % (cells@.len() as int)]@[c],
            ),
{
    let rows = cells.len();
    let cols = offsets.len();
    let mut rolled: Vec<Vec<T>> = Vec::new();
    let mut t: usize = 0;
    while t < rows
        invariant
            t <= rows,
            rows == cells@.len(),
            cols == offsets@.len(),
            forall|r: int| 0 <= r < cells@.len() ==> (#[trigger] cells@[r])@.len() == offsets@.len(),
            rolled@.len() == t,
            forall|r: int| 0 <= r < t ==> (#[trigger] rolled@[r])@.len() == cols,
            forall|r: int, c: int|
                0 <= r < t && 0 <= c < cols ==> cloned(
                    cells@[unrolled_row(r, offsets@[c] as int, rows as int)]@[c],
                    #[trigger] rolled@[r]@[c],
                ),
        decreases rows - t,
    {
        let mut row: Vec<T> = Vec::new();
        let mut c: usize = 0;
        while c < cols
            invariant
                t < rows,
                c <= cols,
                rows == cells@.len(),
                cols == offsets@.len(),
                forall|r: int| 0 <= r < cells@.len() ==> (#[trigger] cells@[r])@.len() == offsets@.len(),
                row@.len() == c,
                forall|c2: int|
                    0 <= c2 < c ==> cloned(
                        cells@[unrolled_row(t as int, offsets@[c2] as int, rows as int)]@[c2],
                        #[trigger] row@[c2],
                    ),
            decreases cols - c,
        {
            let o = offsets[c] % rows;
            let src = if t >= o {
                t - o
            } else {
                t + (rows - o)
            };
            assert(src == unrolled_row(t as int, offsets@[c as int] as int, rows as int));
            assert(cells@[src as int]@.len() == cols);
            row.push(cells[src][c].clone());
            c += 1;
        }
        rolled.push(row);
        t += 1;
    }
    proof {
        assert forall|r: int, c: int| 0 <= r < cells@.len() && 0 <= c < offsets@.len() implies cloned(
            #[trigger] cells@[r]@[c],
            rolled@[(r + offsets@[c]) % (cells@.len() as int)]@[c],
        ) by {
            lemma_unrolled_row(r, offsets@[c] as int, rows as int);
            let t = (r + offsets@[c]) % (rows as int);
            assert(cloned(cells@[unrolled_row(t, offsets@[c] as int, rows as int)]@[c], rolled@[t]@[c]));
        }
    }
    rolled
}

} // verus!
